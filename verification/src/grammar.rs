//! The JSON5 grammar as a mathematical function: for every character sequence
//! and position these functions say exactly what the parser recognises, what
//! value model it produces and where it stops, or at which position it fails.
//! The executable parser is proved to return precisely these results.

use vstd::prelude::*;

use crate::value::members_map;
use crate::value::NumberFormView;
use crate::value::NumberView;
use crate::value::ValueView;

verus! {

/// Outcome of a grammar function at a position: a recognised item together
/// with the position just after it, a syntax failure at a position, or an
/// unsupported long-form Unicode escape found at a position.
pub enum SpecOut<T> {
    Val { v: T, next: int },
    Syn { pos: int },
    Unsup { pos: int },
}

/// Whitespace: the blank characters JSON5 treats as insignificant.
pub open spec fn is_ws(c: char) -> bool {
    c == ' ' || c == '\t' || c == '\n' || c == '\r' || c == '\u{000B}' || c == '\u{000C}'
        || c == '\u{00A0}' || c == '\u{2028}' || c == '\u{2029}' || c == '\u{FEFF}'
}

/// Line terminators, which end a line comment.
pub open spec fn is_line_term(c: char) -> bool {
    c == '\n' || c == '\r' || c == '\u{2028}' || c == '\u{2029}'
}

/// A decimal digit.
pub open spec fn is_digit(c: char) -> bool {
    '0' <= c && c <= '9'
}

/// The value of a decimal digit.
pub open spec fn digit_val(c: char) -> int {
    c as int - '0' as int
}

/// A hexadecimal digit.
pub open spec fn is_hex_digit(c: char) -> bool {
    ('0' <= c && c <= '9') || ('a' <= c && c <= 'f') || ('A' <= c && c <= 'F')
}

/// The value of a hexadecimal digit.
pub open spec fn hex_val(c: char) -> int {
    if '0' <= c && c <= '9' {
        c as int - '0' as int
    } else if 'a' <= c && c <= 'f' {
        c as int - 'a' as int + 10
    } else {
        c as int - 'A' as int + 10
    }
}

/// A character that may open a bare identifier key: a letter, `_` or `$`.
pub open spec fn is_ident_start(c: char) -> bool {
    ('a' <= c && c <= 'z') || ('A' <= c && c <= 'Z') || c == '_' || c == '$'
}

/// A character that may continue a bare identifier key.
pub open spec fn is_ident_char(c: char) -> bool {
    is_ident_start(c) || is_digit(c)
}

/// The position of the first line terminator at or after `i`, or the end.
pub open spec fn find_line_end(s: Seq<char>, i: int) -> int
    decreases s.len() - i
        when 0 <= i <= s.len()
{
    if i >= s.len() || is_line_term(s[i]) {
        i
    } else {
        find_line_end(s, i + 1)
    }
}

pub proof fn lemma_find_line_end(s: Seq<char>, i: int)
    requires
        0 <= i <= s.len(),
    ensures
        i <= find_line_end(s, i) <= s.len(),
    decreases s.len() - i,
{
    if !(i >= s.len() || is_line_term(s[i])) {
        lemma_find_line_end(s, i + 1);
    }
}

/// The position just after the first `*/` at or after `i`, or `-1` when the
/// block comment never closes.
pub open spec fn find_block_end(s: Seq<char>, i: int) -> int
    decreases s.len() - i
        when 0 <= i <= s.len()
{
    if i + 2 > s.len() {
        -1
    } else if s[i] == '*' && s[i + 1] == '/' {
        i + 2
    } else {
        find_block_end(s, i + 1)
    }
}

pub proof fn lemma_find_block_end(s: Seq<char>, i: int)
    requires
        0 <= i <= s.len(),
    ensures
        find_block_end(s, i) == -1 || i + 2 <= find_block_end(s, i) <= s.len(),
    decreases s.len() - i,
{
    if i + 2 > s.len() {
    } else if s[i] == '*' && s[i + 1] == '/' {
    } else {
        lemma_find_block_end(s, i + 1);
    }
}

/// The position of the next significant character at or after `i`: skips
/// whitespace, `//` line comments and closed `/* */` block comments. It stops
/// at the `/` of a block comment that never closes.
pub open spec fn skip_trivia(s: Seq<char>, i: int) -> int
    decreases s.len() - i
        when 0 <= i <= s.len()
        via skip_trivia_dec
{
    if i >= s.len() {
        i
    } else if is_ws(s[i]) {
        skip_trivia(s, i + 1)
    } else if s[i] == '/' && i + 1 < s.len() && s[i + 1] == '/' {
        skip_trivia(s, find_line_end(s, i + 2))
    } else if s[i] == '/' && i + 1 < s.len() && s[i + 1] == '*' {
        if find_block_end(s, i + 2) == -1 {
            i
        } else {
            skip_trivia(s, find_block_end(s, i + 2))
        }
    } else {
        i
    }
}

#[via_fn]
proof fn skip_trivia_dec(s: Seq<char>, i: int) {
    if 0 <= i && i + 2 <= s.len() {
        lemma_find_line_end(s, i + 2);
        lemma_find_block_end(s, i + 2);
    }
}

pub proof fn lemma_skip_trivia(s: Seq<char>, i: int)
    requires
        0 <= i <= s.len(),
    ensures
        i <= skip_trivia(s, i) <= s.len(),
    decreases s.len() - i,
{
    if i >= s.len() {
    } else if is_ws(s[i]) {
        lemma_skip_trivia(s, i + 1);
    } else if s[i] == '/' && i + 1 < s.len() && s[i + 1] == '/' {
        lemma_find_line_end(s, i + 2);
        lemma_skip_trivia(s, find_line_end(s, i + 2));
    } else if s[i] == '/' && i + 1 < s.len() && s[i + 1] == '*' {
        lemma_find_block_end(s, i + 2);
        if find_block_end(s, i + 2) != -1 {
            lemma_skip_trivia(s, find_block_end(s, i + 2));
        }
    }
}

/// Prepends a character to the content of a successful outcome; failures pass
/// through unchanged.
pub open spec fn out_cons(c: char, r: SpecOut<Seq<char>>) -> SpecOut<Seq<char>> {
    match r {
        SpecOut::Val { v, next } => SpecOut::Val { v: seq![c] + v, next },
        SpecOut::Syn { pos } => SpecOut::Syn { pos },
        SpecOut::Unsup { pos } => SpecOut::Unsup { pos },
    }
}

/// The body of a string literal from position `i` up to the closing quote
/// `q`, with every escape sequence resolved:
/// `\0` gives U+0000; `\n`, `\r`, `\t`, `\b`, `\v`, `\f` give the usual
/// control characters; `\xHH` gives the character with that code; any other
/// escaped character stands for itself; `\uXXXX` is recognised by the grammar
/// but its resolution is unsupported and reported as such. An unescaped line
/// feed or carriage return, or a buffer that ends before the closing quote,
/// is a syntax failure.
pub open spec fn str_body(s: Seq<char>, i: int, q: char) -> SpecOut<Seq<char>>
    decreases s.len() - i
        when 0 <= i <= s.len()
{
    if i >= s.len() {
        SpecOut::Syn { pos: i }
    } else if s[i] == q {
        SpecOut::Val { v: Seq::empty(), next: i + 1 }
    } else if s[i] == '\n' || s[i] == '\r' {
        SpecOut::Syn { pos: i }
    } else if s[i] == '\\' {
        if i + 1 >= s.len() {
            SpecOut::Syn { pos: i + 1 }
        } else {
            let c = s[i + 1];
            if c == '0' {
                out_cons('\u{0000}', str_body(s, i + 2, q))
            } else if c == 'x' {
                if i + 2 >= s.len() || !is_hex_digit(s[i + 2]) {
                    SpecOut::Syn { pos: i + 2 }
                } else if i + 3 >= s.len() || !is_hex_digit(s[i + 3]) {
                    SpecOut::Syn { pos: i + 3 }
                } else {
                    out_cons(
                        (16 * hex_val(s[i + 2]) + hex_val(s[i + 3])) as char,
                        str_body(s, i + 4, q),
                    )
                }
            } else if c == 'u' {
                if i + 2 >= s.len() || !is_hex_digit(s[i + 2]) {
                    SpecOut::Syn { pos: i + 2 }
                } else if i + 3 >= s.len() || !is_hex_digit(s[i + 3]) {
                    SpecOut::Syn { pos: i + 3 }
                } else if i + 4 >= s.len() || !is_hex_digit(s[i + 4]) {
                    SpecOut::Syn { pos: i + 4 }
                } else if i + 5 >= s.len() || !is_hex_digit(s[i + 5]) {
                    SpecOut::Syn { pos: i + 5 }
                } else {
                    SpecOut::Unsup { pos: i }
                }
            } else if c == 'n' {
                out_cons('\n', str_body(s, i + 2, q))
            } else if c == 'r' {
                out_cons('\r', str_body(s, i + 2, q))
            } else if c == 't' {
                out_cons('\t', str_body(s, i + 2, q))
            } else if c == 'b' {
                out_cons('\u{0008}', str_body(s, i + 2, q))
            } else if c == 'v' {
                out_cons('\u{000B}', str_body(s, i + 2, q))
            } else if c == 'f' {
                out_cons('\u{000C}', str_body(s, i + 2, q))
            } else {
                out_cons(c, str_body(s, i + 2, q))
            }
        }
    } else {
        out_cons(s[i], str_body(s, i + 1, q))
    }
}

/// The position of the first character at or after `i` that is no decimal
/// digit, or the end.
pub open spec fn digits_end(s: Seq<char>, i: int) -> int
    decreases s.len() - i
        when 0 <= i <= s.len()
{
    if i >= s.len() || !is_digit(s[i]) {
        i
    } else {
        digits_end(s, i + 1)
    }
}

/// The position of the first character at or after `i` that is no hex digit.
pub open spec fn hex_digits_end(s: Seq<char>, i: int) -> int
    decreases s.len() - i
        when 0 <= i <= s.len()
{
    if i >= s.len() || !is_hex_digit(s[i]) {
        i
    } else {
        hex_digits_end(s, i + 1)
    }
}

/// The position of the first character at or after `i` that cannot continue
/// a bare identifier.
pub open spec fn ident_end(s: Seq<char>, i: int) -> int
    decreases s.len() - i
        when 0 <= i <= s.len()
{
    if i >= s.len() || !is_ident_char(s[i]) {
        i
    } else {
        ident_end(s, i + 1)
    }
}

pub proof fn lemma_ident_end(s: Seq<char>, i: int)
    requires
        0 <= i <= s.len(),
    ensures
        i <= ident_end(s, i) <= s.len(),
    decreases s.len() - i,
{
    if !(i >= s.len() || !is_ident_char(s[i])) {
        lemma_ident_end(s, i + 1);
    }
}

/// The decimal digit values of `s[a..b]`, most significant first.
pub open spec fn digit_seq(s: Seq<char>, a: int, b: int) -> Seq<u8>
    decreases b - a,
{
    if a >= b {
        Seq::empty()
    } else {
        digit_seq(s, a, b - 1).push(digit_val(s[b - 1]) as u8)
    }
}

/// The hexadecimal digit values of `s[a..b]`, most significant first.
pub open spec fn hex_digit_seq(s: Seq<char>, a: int, b: int) -> Seq<u8>
    decreases b - a,
{
    if a >= b {
        Seq::empty()
    } else {
        hex_digit_seq(s, a, b - 1).push(hex_val(s[b - 1]) as u8)
    }
}

/// One step of reading a decimal exponent, saturating at the largest `i64`
/// so that an absurdly long exponent still has a defined, ordered value.
pub open spec fn exp_step(acc: int, d: int) -> int {
    if acc > (0x7fff_ffff_ffff_ffff - d) / 10 {
        0x7fff_ffff_ffff_ffff
    } else {
        acc * 10 + d
    }
}

/// The saturating value of the exponent digits `s[a..b]`.
pub open spec fn exp_fold(s: Seq<char>, a: int, b: int) -> int
    decreases b - a,
{
    if a >= b {
        0
    } else {
        exp_step(exp_fold(s, a, b - 1), digit_val(s[b - 1]))
    }
}

/// Clamps a value into the `i64` range.
pub open spec fn sat_i64(x: int) -> int {
    if x > i64::MAX {
        i64::MAX as int
    } else if x < i64::MIN {
        i64::MIN as int
    } else {
        x
    }
}

/// A numeric literal at `i`: an optional sign, then a hexadecimal integer
/// (`0x` or `0X` and at least one hex digit) or a decimal literal made of an
/// integer part, an optional fraction and an optional exponent, with at least
/// one digit overall and no leading zero ahead of a second integer digit.
/// The exponent of the produced number already accounts for the fraction.
pub open spec fn number_at(s: Seq<char>, i: int) -> SpecOut<NumberView>
    recommends
        0 <= i < s.len(),
{
    let neg = s[i] == '-';
    let j: int = if s[i] == '-' || s[i] == '+' {
        i + 1
    } else {
        i
    };
    if j >= s.len() {
        SpecOut::Syn { pos: j }
    } else if s[j] == '0' && j + 1 < s.len() && (s[j + 1] == 'x' || s[j + 1] == 'X') {
        let k = hex_digits_end(s, j + 2);
        if k == j + 2 {
            SpecOut::Syn { pos: j + 2 }
        } else {
            SpecOut::Val {
                v: NumberView { neg, form: NumberFormView::Hex { digits: hex_digit_seq(s, j + 2, k) } },
                next: k,
            }
        }
    } else {
        let ie = digits_end(s, j);
        if ie > j + 1 && s[j] == '0' {
            SpecOut::Syn { pos: j + 1 }
        } else {
            let fs: int = if ie < s.len() && s[ie] == '.' {
                ie + 1
            } else {
                ie
            };
            let fe: int = if ie < s.len() && s[ie] == '.' {
                digits_end(s, ie + 1)
            } else {
                ie
            };
            if ie - j == 0 && fe - fs == 0 {
                SpecOut::Syn { pos: j }
            } else {
                let digits = digit_seq(s, j, ie) + digit_seq(s, fs, fe);
                if fe < s.len() && (s[fe] == 'e' || s[fe] == 'E') {
                    let eneg = fe + 1 < s.len() && s[fe + 1] == '-';
                    let es: int = if fe + 1 < s.len() && (s[fe + 1] == '-' || s[fe + 1] == '+') {
                        fe + 2
                    } else {
                        fe + 1
                    };
                    let ee = digits_end(s, es);
                    if ee == es {
                        SpecOut::Syn { pos: es }
                    } else {
                        let ev: int = if eneg {
                            -exp_fold(s, es, ee)
                        } else {
                            exp_fold(s, es, ee)
                        };
                        SpecOut::Val {
                            v: NumberView {
                                neg,
                                form: NumberFormView::Dec {
                                    digits,
                                    exp: sat_i64(ev - (fe - fs)),
                                },
                            },
                            next: ee,
                        }
                    }
                } else {
                    SpecOut::Val {
                        v: NumberView {
                            neg,
                            form: NumberFormView::Dec { digits, exp: sat_i64(0 - (fe - fs)) },
                        },
                        next: fe,
                    }
                }
            }
        }
    }
}

/// The spelling `null` at `i`.
pub open spec fn kw_null(s: Seq<char>, i: int) -> bool {
    i + 4 <= s.len() && s[i] == 'n' && s[i + 1] == 'u' && s[i + 2] == 'l' && s[i + 3] == 'l'
}

/// The spelling `true` at `i`.
pub open spec fn kw_true(s: Seq<char>, i: int) -> bool {
    i + 4 <= s.len() && s[i] == 't' && s[i + 1] == 'r' && s[i + 2] == 'u' && s[i + 3] == 'e'
}

/// The spelling `false` at `i`.
pub open spec fn kw_false(s: Seq<char>, i: int) -> bool {
    i + 5 <= s.len() && s[i] == 'f' && s[i + 1] == 'a' && s[i + 2] == 'l' && s[i + 3] == 's'
        && s[i + 4] == 'e'
}

/// Clamps a position into `[lo, hi]`; the grammar functions use it so that a
/// nested position stays inside the buffer for the termination measure. The
/// executable parser proves that the clamp never changes a real position.
pub open spec fn clamp_pos(x: int, lo: int, hi: int) -> int {
    if x < lo {
        lo
    } else if x > hi {
        hi
    } else {
        x
    }
}

/// A value at `i` (no leading trivia): an object, an array, a string, one of
/// the literal spellings, or a number; anything else is a syntax failure.
pub open spec fn value_at(s: Seq<char>, i: int) -> SpecOut<ValueView>
    decreases s.len() - i, 0int
        when 0 <= i <= s.len()
{
    if i >= s.len() {
        SpecOut::Syn { pos: i }
    } else if s[i] == '{' {
        match obj_members(s, i + 1) {
            SpecOut::Val { v, next } => SpecOut::Val {
                v: ValueView::Object(members_map(v)),
                next,
            },
            SpecOut::Syn { pos } => SpecOut::Syn { pos },
            SpecOut::Unsup { pos } => SpecOut::Unsup { pos },
        }
    } else if s[i] == '[' {
        match arr_items(s, i + 1) {
            SpecOut::Val { v, next } => SpecOut::Val { v: ValueView::Array(v), next },
            SpecOut::Syn { pos } => SpecOut::Syn { pos },
            SpecOut::Unsup { pos } => SpecOut::Unsup { pos },
        }
    } else if s[i] == '"' || s[i] == '\'' {
        match str_body(s, i + 1, s[i]) {
            SpecOut::Val { v, next } => SpecOut::Val { v: ValueView::String(v), next },
            SpecOut::Syn { pos } => SpecOut::Syn { pos },
            SpecOut::Unsup { pos } => SpecOut::Unsup { pos },
        }
    } else if kw_null(s, i) {
        SpecOut::Val { v: ValueView::Null, next: i + 4 }
    } else if kw_true(s, i) {
        SpecOut::Val { v: ValueView::Boolean(true), next: i + 4 }
    } else if kw_false(s, i) {
        SpecOut::Val { v: ValueView::Boolean(false), next: i + 5 }
    } else if s[i] == '-' || s[i] == '+' || s[i] == '.' || is_digit(s[i]) {
        match number_at(s, i) {
            SpecOut::Val { v, next } => SpecOut::Val { v: ValueView::Number(v), next },
            SpecOut::Syn { pos } => SpecOut::Syn { pos },
            SpecOut::Unsup { pos } => SpecOut::Unsup { pos },
        }
    } else {
        SpecOut::Syn { pos: i }
    }
}

/// The items of an array from just after `[` or after a separating comma:
/// values separated by commas, a trailing comma allowed, up to `]`.
pub open spec fn arr_items(s: Seq<char>, j: int) -> SpecOut<Seq<ValueView>>
    decreases s.len() - j, 1int
        when 0 <= j <= s.len()
        via arr_items_dec
{
    let j1 = skip_trivia(s, j);
    if j1 >= s.len() {
        SpecOut::Syn { pos: j1 }
    } else if s[j1] == ']' {
        SpecOut::Val { v: Seq::empty(), next: j1 + 1 }
    } else {
        match value_at(s, j1) {
            SpecOut::Val { v, next } => {
                let j2 = skip_trivia(s, clamp_pos(next, j1 + 1, s.len() as int));
                if j2 < s.len() && s[j2] == ',' {
                    match arr_items(s, j2 + 1) {
                        SpecOut::Val { v: rest, next: after } => SpecOut::Val {
                            v: seq![v] + rest,
                            next: after,
                        },
                        SpecOut::Syn { pos } => SpecOut::Syn { pos },
                        SpecOut::Unsup { pos } => SpecOut::Unsup { pos },
                    }
                } else if j2 < s.len() && s[j2] == ']' {
                    SpecOut::Val { v: seq![v], next: j2 + 1 }
                } else {
                    SpecOut::Syn { pos: j2 }
                }
            },
            SpecOut::Syn { pos } => SpecOut::Syn { pos },
            SpecOut::Unsup { pos } => SpecOut::Unsup { pos },
        }
    }
}

#[via_fn]
proof fn arr_items_dec(s: Seq<char>, j: int) {
    assert forall|x: int| 0 <= x <= s.len() implies x <= #[trigger] skip_trivia(s, x)
        <= s.len() by {
        lemma_skip_trivia(s, x);
    }
}

/// The members of an object from just after `{` or after a separating comma:
/// each member is a bare identifier or string key, `:`, and a value; members
/// are separated by commas, a trailing comma allowed, up to `}`. The raw
/// member list is returned in source order, duplicate keys included.
pub open spec fn obj_members(s: Seq<char>, j: int) -> SpecOut<Seq<(Seq<char>, ValueView)>>
    decreases s.len() - j, 1int
        when 0 <= j <= s.len()
        via obj_members_dec
{
    let j1 = skip_trivia(s, j);
    if j1 >= s.len() {
        SpecOut::Syn { pos: j1 }
    } else if s[j1] == '}' {
        SpecOut::Val { v: Seq::empty(), next: j1 + 1 }
    } else {
        let key_out: SpecOut<Seq<char>> = if s[j1] == '"' || s[j1] == '\'' {
            str_body(s, j1 + 1, s[j1])
        } else if is_ident_start(s[j1]) {
            SpecOut::Val { v: s.subrange(j1, ident_end(s, j1)), next: ident_end(s, j1) }
        } else {
            SpecOut::Syn { pos: j1 }
        };
        match key_out {
            SpecOut::Val { v: key, next: kn } => {
                let j2 = skip_trivia(s, clamp_pos(kn, j1 + 1, s.len() as int));
                if j2 >= s.len() || s[j2] != ':' {
                    SpecOut::Syn { pos: j2 }
                } else {
                    let j3 = skip_trivia(s, j2 + 1);
                    match value_at(s, j3) {
                        SpecOut::Val { v, next } => {
                            let j4 = skip_trivia(s, clamp_pos(next, j3, s.len() as int));
                            if j4 < s.len() && s[j4] == ',' {
                                match obj_members(s, j4 + 1) {
                                    SpecOut::Val { v: rest, next: after } => SpecOut::Val {
                                        v: seq![(key, v)] + rest,
                                        next: after,
                                    },
                                    SpecOut::Syn { pos } => SpecOut::Syn { pos },
                                    SpecOut::Unsup { pos } => SpecOut::Unsup { pos },
                                }
                            } else if j4 < s.len() && s[j4] == '}' {
                                SpecOut::Val { v: seq![(key, v)], next: j4 + 1 }
                            } else {
                                SpecOut::Syn { pos: j4 }
                            }
                        },
                        SpecOut::Syn { pos } => SpecOut::Syn { pos },
                        SpecOut::Unsup { pos } => SpecOut::Unsup { pos },
                    }
                }
            },
            SpecOut::Syn { pos } => SpecOut::Syn { pos },
            SpecOut::Unsup { pos } => SpecOut::Unsup { pos },
        }
    }
}

#[via_fn]
proof fn obj_members_dec(s: Seq<char>, j: int) {
    assert forall|x: int| 0 <= x <= s.len() implies x <= #[trigger] skip_trivia(s, x)
        <= s.len() by {
        lemma_skip_trivia(s, x);
    }
}

/// The whole text: optional leading trivia, exactly one value, optional
/// trailing trivia, end of input.
pub open spec fn text_at(s: Seq<char>) -> SpecOut<ValueView> {
    let j = skip_trivia(s, 0);
    match value_at(s, j) {
        SpecOut::Val { v, next } => {
            let k = skip_trivia(s, clamp_pos(next, j, s.len() as int));
            if k >= s.len() {
                SpecOut::Val { v, next: k }
            } else {
                SpecOut::Syn { pos: k }
            }
        },
        SpecOut::Syn { pos } => SpecOut::Syn { pos },
        SpecOut::Unsup { pos } => SpecOut::Unsup { pos },
    }
}

/// The line (1-based) of position `p`: one more than the number of line
/// feeds before it, kept within the machine's word so that the count is
/// defined for every buffer.
pub open spec fn line_of(s: Seq<char>, p: int) -> int
    decreases p,
{
    if p <= 0 {
        1
    } else if s[p - 1] == '\n' {
        if line_of(s, p - 1) < usize::MAX {
            line_of(s, p - 1) + 1
        } else {
            line_of(s, p - 1)
        }
    } else {
        line_of(s, p - 1)
    }
}

/// The column (1-based) of position `p`: the distance to the line feed
/// before it, kept within the machine's word.
pub open spec fn col_of(s: Seq<char>, p: int) -> int
    decreases p,
{
    if p <= 0 {
        1
    } else if s[p - 1] == '\n' {
        1
    } else {
        if col_of(s, p - 1) < usize::MAX {
            col_of(s, p - 1) + 1
        } else {
            col_of(s, p - 1)
        }
    }
}

} // verus!
