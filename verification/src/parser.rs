//! The executable parser: a recursive-descent reading of the grammar in
//! `grammar`, proved to return exactly what the grammar functions say.

use vstd::prelude::*;

use crate::grammar::col_of;
use crate::grammar::digit_seq;
use crate::grammar::digits_end;
use crate::grammar::exp_fold;
use crate::grammar::find_block_end;
use crate::grammar::find_line_end;
use crate::grammar::hex_digit_seq;
use crate::grammar::hex_digits_end;
use crate::grammar::hex_val;
use crate::grammar::ident_end;
use crate::grammar::lemma_ident_end;
use crate::grammar::is_digit;
use crate::grammar::is_hex_digit;
use crate::grammar::is_ident_char;
use crate::grammar::is_ident_start;
use crate::grammar::is_line_term;
use crate::grammar::is_ws;
use crate::grammar::kw_false;
use crate::grammar::kw_null;
use crate::grammar::kw_true;
use crate::grammar::line_of;
use crate::grammar::number_at;
use crate::grammar::out_cons;
use crate::grammar::sat_i64;
use crate::grammar::skip_trivia;
use crate::grammar::str_body;
use crate::grammar::text_at;
use crate::grammar::value_at;
use crate::grammar::arr_items;
use crate::grammar::obj_members;
use crate::grammar::clamp_pos;
use crate::grammar::SpecOut;
use crate::value::members_map;
use crate::value::members_view;
use crate::value::values_view;
use crate::value::value_view;
use crate::value::value_wf;
use crate::value::values_wf;
use crate::value::members_values_wf;
use crate::value::keys_distinct;
use crate::value::number_wf;
use crate::value::Number;
use crate::value::NumberForm;
use crate::value::Value;
use crate::value::ValueView;
use vstd::string::StrSliceExecFns;
use vstd::string::StringExecFns;

verus! {

/// Outcome of an executable parsing step, mirroring `SpecOut` at machine
/// positions.
pub(crate) enum Parsed<T> {
    Val { v: T, next: usize },
    Syn { pos: usize },
    Unsup { pos: usize },
}

/// Relies on String::push: it appends exactly the given character.
#[verifier::external_body]
fn push_char(s: &mut String, c: char)
    ensures
        final(s)@ == old(s)@.push(c),
{
    s.push(c);
}

fn is_ws_x(c: char) -> (r: bool)
    ensures
        r == is_ws(c),
{
    c == ' ' || c == '\t' || c == '\n' || c == '\r' || c == '\u{000B}' || c == '\u{000C}'
        || c == '\u{00A0}' || c == '\u{2028}' || c == '\u{2029}' || c == '\u{FEFF}'
}

fn is_line_term_x(c: char) -> (r: bool)
    ensures
        r == is_line_term(c),
{
    c == '\n' || c == '\r' || c == '\u{2028}' || c == '\u{2029}'
}

fn is_digit_x(c: char) -> (r: bool)
    ensures
        r == is_digit(c),
{
    '0' <= c && c <= '9'
}

fn is_hex_digit_x(c: char) -> (r: bool)
    ensures
        r == is_hex_digit(c),
{
    ('0' <= c && c <= '9') || ('a' <= c && c <= 'f') || ('A' <= c && c <= 'F')
}

fn is_ident_start_x(c: char) -> (r: bool)
    ensures
        r == is_ident_start(c),
{
    ('a' <= c && c <= 'z') || ('A' <= c && c <= 'Z') || c == '_' || c == '$'
}

fn is_ident_char_x(c: char) -> (r: bool)
    ensures
        r == is_ident_char(c),
{
    is_ident_start_x(c) || is_digit_x(c)
}

fn find_line_end_x(s: &Vec<char>, i: usize) -> (r: usize)
    requires
        i <= s@.len(),
    ensures
        r as int == find_line_end(s@, i as int),
        i <= r <= s@.len(),
{
    let mut k = i;
    loop
        invariant
            i <= k <= s@.len(),
            find_line_end(s@, i as int) == find_line_end(s@, k as int),
        decreases s@.len() - k,
    {
        if k >= s.len() {
            return k;
        }
        if is_line_term_x(s[k]) {
            return k;
        }
        k += 1;
    }
}

fn find_block_end_x(s: &Vec<char>, i: usize) -> (r: Option<usize>)
    requires
        i <= s@.len(),
    ensures
        match r {
            Some(e) => find_block_end(s@, i as int) == e as int && i + 2 <= e <= s@.len(),
            None => find_block_end(s@, i as int) == -1,
        },
{
    let mut k = i;
    loop
        invariant
            i <= k <= s@.len(),
            find_block_end(s@, i as int) == find_block_end(s@, k as int),
        decreases s@.len() - k,
    {
        if s.len() - k < 2 {
            return None;
        }
        if s[k] == '*' && s[k + 1] == '/' {
            return Some(k + 2);
        }
        k += 1;
    }
}

fn skip_trivia_x(s: &Vec<char>, i: usize) -> (r: usize)
    requires
        i <= s@.len(),
    ensures
        r as int == skip_trivia(s@, i as int),
        i <= r <= s@.len(),
{
    let mut cur = i;
    loop
        invariant
            i <= cur <= s@.len(),
            skip_trivia(s@, i as int) == skip_trivia(s@, cur as int),
        decreases s@.len() - cur,
    {
        if cur >= s.len() {
            return cur;
        }
        let c = s[cur];
        if is_ws_x(c) {
            cur += 1;
        } else if c == '/' && cur + 1 < s.len() && s[cur + 1] == '/' {
            cur = find_line_end_x(s, cur + 2);
        } else if c == '/' && cur + 1 < s.len() && s[cur + 1] == '*' {
            match find_block_end_x(s, cur + 2) {
                None => {
                    return cur;
                },
                Some(e) => {
                    cur = e;
                },
            }
        } else {
            return cur;
        }
    }
}

fn digits_end_x(s: &Vec<char>, i: usize) -> (r: usize)
    requires
        i <= s@.len(),
    ensures
        r as int == digits_end(s@, i as int),
        i <= r <= s@.len(),
{
    let mut k = i;
    loop
        invariant
            i <= k <= s@.len(),
            digits_end(s@, i as int) == digits_end(s@, k as int),
        decreases s@.len() - k,
    {
        if k >= s.len() {
            return k;
        }
        if !is_digit_x(s[k]) {
            return k;
        }
        k += 1;
    }
}

fn hex_digits_end_x(s: &Vec<char>, i: usize) -> (r: usize)
    requires
        i <= s@.len(),
    ensures
        r as int == hex_digits_end(s@, i as int),
        i <= r <= s@.len(),
{
    let mut k = i;
    loop
        invariant
            i <= k <= s@.len(),
            hex_digits_end(s@, i as int) == hex_digits_end(s@, k as int),
        decreases s@.len() - k,
    {
        if k >= s.len() {
            return k;
        }
        if !is_hex_digit_x(s[k]) {
            return k;
        }
        k += 1;
    }
}

fn ident_end_x(s: &Vec<char>, i: usize) -> (r: usize)
    requires
        i <= s@.len(),
    ensures
        r as int == ident_end(s@, i as int),
        i <= r <= s@.len(),
{
    let mut k = i;
    loop
        invariant
            i <= k <= s@.len(),
            ident_end(s@, i as int) == ident_end(s@, k as int),
        decreases s@.len() - k,
    {
        if k >= s.len() {
            return k;
        }
        if !is_ident_char_x(s[k]) {
            return k;
        }
        k += 1;
    }
}

/// The characters `s[a..b]` as an owned string.
fn chars_to_string(s: &Vec<char>, a: usize, b: usize) -> (r: String)
    requires
        a <= b <= s@.len(),
    ensures
        r@ == s@.subrange(a as int, b as int),
{
    let mut r = String::new();
    let mut k = a;
    while k < b
        invariant
            a <= k <= b <= s@.len(),
            r@ == s@.subrange(a as int, k as int),
        decreases b - k,
    {
        push_char(&mut r, s[k]);
        proof {
            assert(s@.subrange(a as int, k + 1 as int) =~= s@.subrange(a as int, k as int).push(
                s@[k as int],
            ));
        }
        k += 1;
    }
    proof {
        assert(s@.subrange(a as int, b as int) =~= r@);
    }
    r
}

/// Prefixes a content sequence onto a string-body outcome.
pub(crate) open spec fn out_append(pre: Seq<char>, r: SpecOut<Seq<char>>) -> SpecOut<Seq<char>> {
    match r {
        SpecOut::Val { v, next } => SpecOut::Val { v: pre + v, next },
        SpecOut::Syn { pos } => SpecOut::Syn { pos },
        SpecOut::Unsup { pos } => SpecOut::Unsup { pos },
    }
}

proof fn lemma_out_append_cons(pre: Seq<char>, c: char, r: SpecOut<Seq<char>>)
    ensures
        out_append(pre, out_cons(c, r)) == out_append(pre.push(c), r),
{
    match r {
        SpecOut::Val { v, next } => {
            assert(pre + (seq![c] + v) =~= pre.push(c) + v);
        },
        SpecOut::Syn { pos } => {},
        SpecOut::Unsup { pos } => {},
    }
}

/// Parses a string-literal body starting at `i`, just after the opening
/// quote `q`, resolving every escape as the grammar prescribes.
fn str_body_x(s: &Vec<char>, i: usize, q: char) -> (r: Parsed<String>)
    requires
        i <= s@.len(),
    ensures
        match (r, str_body(s@, i as int, q)) {
            (Parsed::Val { v, next }, SpecOut::Val { v: mv, next: mn }) => v@ == mv && next as int
                == mn && i < next <= s@.len(),
            (Parsed::Syn { pos }, SpecOut::Syn { pos: mp }) => pos as int == mp && pos <= s@.len(),
            (Parsed::Unsup { pos }, SpecOut::Unsup { pos: mp }) => pos as int == mp && pos
                <= s@.len(),
            _ => false,
        },
{
    let mut acc = String::new();
    let mut cur = i;
    loop
        invariant
            i <= cur <= s@.len(),
            str_body(s@, i as int, q) == out_append(acc@, str_body(s@, cur as int, q)),
        decreases s@.len() - cur,
    {
        if cur >= s.len() {
            return Parsed::Syn { pos: cur };
        }
        let c = s[cur];
        if c == q {
            proof {
                assert(acc@ + Seq::<char>::empty() =~= acc@);
            }
            return Parsed::Val { v: acc, next: cur + 1 };
        }
        if c == '\n' || c == '\r' {
            return Parsed::Syn { pos: cur };
        }
        if c == '\\' {
            if cur + 1 >= s.len() {
                return Parsed::Syn { pos: cur + 1 };
            }
            let e = s[cur + 1];
            if e == 'x' {
                if cur + 2 >= s.len() || !is_hex_digit_x(s[cur + 2]) {
                    return Parsed::Syn { pos: cur + 2 };
                }
                if cur + 3 >= s.len() || !is_hex_digit_x(s[cur + 3]) {
                    return Parsed::Syn { pos: cur + 3 };
                }
                let code: u8 = 16 * hex_val_x(s[cur + 2]) + hex_val_x(s[cur + 3]);
                let ch = code as char;
                proof {
                    lemma_out_append_cons(acc@, ch, str_body(s@, cur + 4 as int, q));
                }
                push_char(&mut acc, ch);
                cur += 4;
            } else if e == 'u' {
                if cur + 2 >= s.len() || !is_hex_digit_x(s[cur + 2]) {
                    return Parsed::Syn { pos: cur + 2 };
                }
                if cur + 3 >= s.len() || !is_hex_digit_x(s[cur + 3]) {
                    return Parsed::Syn { pos: cur + 3 };
                }
                if cur + 4 >= s.len() || !is_hex_digit_x(s[cur + 4]) {
                    return Parsed::Syn { pos: cur + 4 };
                }
                if cur + 5 >= s.len() || !is_hex_digit_x(s[cur + 5]) {
                    return Parsed::Syn { pos: cur + 5 };
                }
                return Parsed::Unsup { pos: cur };
            } else {
                let ch = if e == '0' {
                    '\u{0000}'
                } else if e == 'n' {
                    '\n'
                } else if e == 'r' {
                    '\r'
                } else if e == 't' {
                    '\t'
                } else if e == 'b' {
                    '\u{0008}'
                } else if e == 'v' {
                    '\u{000B}'
                } else if e == 'f' {
                    '\u{000C}'
                } else {
                    e
                };
                proof {
                    lemma_out_append_cons(acc@, ch, str_body(s@, cur + 2 as int, q));
                }
                push_char(&mut acc, ch);
                cur += 2;
            }
        } else {
            proof {
                lemma_out_append_cons(acc@, c, str_body(s@, cur + 1 as int, q));
            }
            push_char(&mut acc, c);
            cur += 1;
        }
    }
}

proof fn lemma_digits_all(s: Seq<char>, i: int)
    requires
        0 <= i <= s.len(),
    ensures
        forall|k: int| i <= k < digits_end(s, i) ==> is_digit(#[trigger] s[k]),
    decreases s.len() - i,
{
    if !(i >= s.len() || !is_digit(s[i])) {
        lemma_digits_all(s, i + 1);
    }
}

proof fn lemma_hex_all(s: Seq<char>, i: int)
    requires
        0 <= i <= s.len(),
    ensures
        forall|k: int| i <= k < hex_digits_end(s, i) ==> is_hex_digit(#[trigger] s[k]),
    decreases s.len() - i,
{
    if !(i >= s.len() || !is_hex_digit(s[i])) {
        lemma_hex_all(s, i + 1);
    }
}

proof fn lemma_digit_seq_props(s: Seq<char>, a: int, b: int)
    requires
        a <= b,
        forall|k: int| a <= k < b ==> is_digit(#[trigger] s[k]),
    ensures
        digit_seq(s, a, b).len() == b - a,
        forall|m: int| 0 <= m < b - a ==> digit_seq(s, a, b)[m] < 10,
    decreases b - a,
{
    if a < b {
        lemma_digit_seq_props(s, a, b - 1);
    }
}

proof fn lemma_hex_seq_props(s: Seq<char>, a: int, b: int)
    requires
        a <= b,
        forall|k: int| a <= k < b ==> is_hex_digit(#[trigger] s[k]),
    ensures
        hex_digit_seq(s, a, b).len() == b - a,
        forall|m: int| 0 <= m < b - a ==> hex_digit_seq(s, a, b)[m] < 16,
    decreases b - a,
{
    if a < b {
        lemma_hex_seq_props(s, a, b - 1);
    }
}

fn digit_seq_x(s: &Vec<char>, a: usize, b: usize) -> (r: Vec<u8>)
    requires
        a <= b <= s@.len(),
        forall|k: int| a <= k < b ==> is_digit(#[trigger] s@[k]),
    ensures
        r@ == digit_seq(s@, a as int, b as int),
{
    let mut r: Vec<u8> = Vec::new();
    let mut k = a;
    while k < b
        invariant
            a <= k <= b <= s@.len(),
            forall|m: int| a <= m < b ==> is_digit(#[trigger] s@[m]),
            r@ == digit_seq(s@, a as int, k as int),
        decreases b - k,
    {
        let code = s[k] as u32;
        r.push((code - 48) as u8);
        k += 1;
    }
    r
}

fn hex_digit_seq_x(s: &Vec<char>, a: usize, b: usize) -> (r: Vec<u8>)
    requires
        a <= b <= s@.len(),
        forall|k: int| a <= k < b ==> is_hex_digit(#[trigger] s@[k]),
    ensures
        r@ == hex_digit_seq(s@, a as int, b as int),
{
    let mut r: Vec<u8> = Vec::new();
    let mut k = a;
    while k < b
        invariant
            a <= k <= b <= s@.len(),
            forall|m: int| a <= m < b ==> is_hex_digit(#[trigger] s@[m]),
            r@ == hex_digit_seq(s@, a as int, k as int),
        decreases b - k,
    {
        r.push(hex_val_x(s[k]));
        k += 1;
    }
    r
}

fn exp_fold_x(s: &Vec<char>, a: usize, b: usize) -> (r: i64)
    requires
        a <= b <= s@.len(),
        forall|k: int| a <= k < b ==> is_digit(#[trigger] s@[k]),
    ensures
        r as int == exp_fold(s@, a as int, b as int),
        r >= 0,
{
    let bound: u64 = 0x7fff_ffff_ffff_ffff;
    let mut acc: u64 = 0;
    let mut k = a;
    while k < b
        invariant
            a <= k <= b <= s@.len(),
            forall|m: int| a <= m < b ==> is_digit(#[trigger] s@[m]),
            acc as int == exp_fold(s@, a as int, k as int),
            acc <= 0x7fff_ffff_ffff_ffff,
            bound == 0x7fff_ffff_ffff_ffff,
        decreases b - k,
    {
        let d: u64 = ((s[k] as u32) - 48) as u64;
        if acc > (bound - d) / 10 {
            acc = bound;
        } else {
            proof {
                assert(acc * 10 + d <= 0x7fff_ffff_ffff_ffff) by (nonlinear_arith)
                    requires
                        acc <= (0x7fff_ffff_ffff_ffff - d) / 10,
                        d <= 9,
                ;
            }
            acc = acc * 10 + d;
        }
        k += 1;
    }
    acc as i64
}

fn sat_sub_x(a: i64, b: usize) -> (r: i64)
    ensures
        r as int == sat_i64(a as int - b as int),
{
    let d: i128 = a as i128 - b as i128;
    if d > i64::MAX as i128 {
        i64::MAX
    } else if d < i64::MIN as i128 {
        i64::MIN
    } else {
        d as i64
    }
}

/// Parses a numeric literal at `i`: sign, then a hexadecimal integer or a
/// decimal literal with optional fraction and exponent.
#[verifier::rlimit(100)]
fn number_at_x(s: &Vec<char>, i: usize) -> (r: Parsed<Number>)
    requires
        i < s@.len(),
    ensures
        match (r, number_at(s@, i as int)) {
            (Parsed::Val { v, next }, SpecOut::Val { v: mv, next: mn }) => v@ == mv && number_wf(v)
                && next as int == mn && i < next <= s@.len(),
            (Parsed::Syn { pos }, SpecOut::Syn { pos: mp }) => pos as int == mp && pos <= s@.len(),
            _ => false,
        },
{
    let n = s.len();
    let neg = s[i] == '-';
    let j = if s[i] == '-' || s[i] == '+' {
        i + 1
    } else {
        i
    };
    if j >= n {
        return Parsed::Syn { pos: j };
    }
    if s[j] == '0' && j + 1 < n && (s[j + 1] == 'x' || s[j + 1] == 'X') {
        let k = hex_digits_end_x(s, j + 2);
        if k == j + 2 {
            return Parsed::Syn { pos: j + 2 };
        }
        proof {
            lemma_hex_all(s@, j + 2 as int);
            lemma_hex_seq_props(s@, j + 2 as int, k as int);
        }
        let digits = hex_digit_seq_x(s, j + 2, k);
        return Parsed::Val { v: Number { neg, form: NumberForm::Hex { digits } }, next: k };
    }
    let ie = digits_end_x(s, j);
    if ie > j + 1 && s[j] == '0' {
        return Parsed::Syn { pos: j + 1 };
    }
    let mut fs = ie;
    let mut fe = ie;
    if ie < n && s[ie] == '.' {
        fs = ie + 1;
        fe = digits_end_x(s, ie + 1);
    }
    if ie - j == 0 && fe - fs == 0 {
        return Parsed::Syn { pos: j };
    }
    proof {
        lemma_digits_all(s@, j as int);
        lemma_digits_all(s@, fs as int);
        lemma_digit_seq_props(s@, j as int, ie as int);
        lemma_digit_seq_props(s@, fs as int, fe as int);
    }
    let mut digits = digit_seq_x(s, j, ie);
    let mut frac = digit_seq_x(s, fs, fe);
    digits.append(&mut frac);
    if fe < n && (s[fe] == 'e' || s[fe] == 'E') {
        let eneg = fe + 1 < n && s[fe + 1] == '-';
        let es = if fe + 1 < n && (s[fe + 1] == '-' || s[fe + 1] == '+') {
            fe + 2
        } else {
            fe + 1
        };
        let ee = digits_end_x(s, es);
        if ee == es {
            return Parsed::Syn { pos: es };
        }
        proof {
            lemma_digits_all(s@, es as int);
        }
        let ev = exp_fold_x(s, es, ee);
        let exp_signed: i64 = if eneg {
            -ev
        } else {
            ev
        };
        let exp = sat_sub_x(exp_signed, fe - fs);
        return Parsed::Val {
            v: Number { neg, form: NumberForm::Dec { digits, exp } },
            next: ee,
        };
    }
    let exp = sat_sub_x(0, fe - fs);
    Parsed::Val { v: Number { neg, form: NumberForm::Dec { digits, exp } }, next: fe }
}

fn kw_null_x(s: &Vec<char>, i: usize) -> (r: bool)
    requires
        i <= s@.len(),
    ensures
        r == kw_null(s@, i as int),
{
    s.len() - i >= 4 && s[i] == 'n' && s[i + 1] == 'u' && s[i + 2] == 'l' && s[i + 3] == 'l'
}

fn kw_true_x(s: &Vec<char>, i: usize) -> (r: bool)
    requires
        i <= s@.len(),
    ensures
        r == kw_true(s@, i as int),
{
    s.len() - i >= 4 && s[i] == 't' && s[i + 1] == 'r' && s[i + 2] == 'u' && s[i + 3] == 'e'
}

fn kw_false_x(s: &Vec<char>, i: usize) -> (r: bool)
    requires
        i <= s@.len(),
    ensures
        r == kw_false(s@, i as int),
{
    s.len() - i >= 5 && s[i] == 'f' && s[i + 1] == 'a' && s[i + 2] == 'l' && s[i + 3] == 's' && s[i
        + 4] == 'e'
}

/// Prefixes already-parsed items onto an array-items outcome.
pub(crate) open spec fn arr_append(pre: Seq<ValueView>, r: SpecOut<Seq<ValueView>>) -> SpecOut<
    Seq<ValueView>,
> {
    match r {
        SpecOut::Val { v, next } => SpecOut::Val { v: pre + v, next },
        SpecOut::Syn { pos } => SpecOut::Syn { pos },
        SpecOut::Unsup { pos } => SpecOut::Unsup { pos },
    }
}

/// One parsed item in front of the rest of an array-items outcome.
pub(crate) open spec fn cons_arr(v: ValueView, r: SpecOut<Seq<ValueView>>) -> SpecOut<
    Seq<ValueView>,
> {
    match r {
        SpecOut::Val { v: rest, next } => SpecOut::Val { v: seq![v] + rest, next },
        SpecOut::Syn { pos } => SpecOut::Syn { pos },
        SpecOut::Unsup { pos } => SpecOut::Unsup { pos },
    }
}

proof fn lemma_arr_step(pre: Seq<ValueView>, v: ValueView, r: SpecOut<Seq<ValueView>>)
    ensures
        arr_append(pre, cons_arr(v, r)) == arr_append(pre.push(v), r),
{
    match r {
        SpecOut::Val { v: rest, next } => {
            assert(pre + (seq![v] + rest) =~= pre.push(v) + rest);
        },
        SpecOut::Syn { pos } => {},
        SpecOut::Unsup { pos } => {},
    }
}

/// Prefixes already-parsed members onto an object-members outcome.
pub(crate) open spec fn mem_append(
    pre: Seq<(Seq<char>, ValueView)>,
    r: SpecOut<Seq<(Seq<char>, ValueView)>>,
) -> SpecOut<Seq<(Seq<char>, ValueView)>> {
    match r {
        SpecOut::Val { v, next } => SpecOut::Val { v: pre + v, next },
        SpecOut::Syn { pos } => SpecOut::Syn { pos },
        SpecOut::Unsup { pos } => SpecOut::Unsup { pos },
    }
}

/// One parsed member in front of the rest of an object-members outcome.
pub(crate) open spec fn cons_mem(
    m: (Seq<char>, ValueView),
    r: SpecOut<Seq<(Seq<char>, ValueView)>>,
) -> SpecOut<Seq<(Seq<char>, ValueView)>> {
    match r {
        SpecOut::Val { v: rest, next } => SpecOut::Val { v: seq![m] + rest, next },
        SpecOut::Syn { pos } => SpecOut::Syn { pos },
        SpecOut::Unsup { pos } => SpecOut::Unsup { pos },
    }
}

proof fn lemma_mem_step(
    pre: Seq<(Seq<char>, ValueView)>,
    m: (Seq<char>, ValueView),
    r: SpecOut<Seq<(Seq<char>, ValueView)>>,
)
    ensures
        mem_append(pre, cons_mem(m, r)) == mem_append(pre.push(m), r),
{
    match r {
        SpecOut::Val { v: rest, next } => {
            assert(pre + (seq![m] + rest) =~= pre.push(m) + rest);
        },
        SpecOut::Syn { pos } => {},
        SpecOut::Unsup { pos } => {},
    }
}

/// Overwriting the value at `idx`, whose key already reads `p.0`, changes the
/// member map exactly as inserting that key again would (last-write-wins).
proof fn lemma_members_map_update(ms: Seq<(String, Value)>, idx: int, p: (String, Value))
    requires
        0 <= idx < ms.len(),
        keys_distinct(ms),
        p.0@ == ms[idx].0@,
        members_values_wf(ms),
        value_wf(p.1),
    ensures
        members_map(members_view(ms.update(idx, p))) == members_map(members_view(ms)).insert(
            p.0@,
            value_view(p.1),
        ),
        keys_distinct(ms.update(idx, p)),
        members_values_wf(ms.update(idx, p)),
    decreases ms.len(),
{
    let ms2 = ms.update(idx, p);
    if idx == ms.len() - 1 {
        let x = members_view(ms.drop_last());
        let mp = (p.0@, value_view(p.1));
        let ml = (ms.last().0@, value_view(ms.last().1));
        assert(ms2.drop_last() =~= ms.drop_last());
        assert(ms2.last() == p);
        assert(members_view(ms2) == x.push(mp));
        assert(members_view(ms) == x.push(ml));
        assert(x.push(mp).drop_last() =~= x);
        assert(x.push(ml).drop_last() =~= x);
        assert(members_map(x.push(mp)) == members_map(x).insert(mp.0, mp.1));
        assert(members_map(x.push(ml)) == members_map(x).insert(ml.0, ml.1));
        assert(ml.0 == mp.0);
        assert(members_map(x).insert(mp.0, mp.1) =~= members_map(x).insert(ml.0, ml.1).insert(
            mp.0,
            mp.1,
        ));
    } else {
        assert(keys_distinct(ms.drop_last()));
        assert(members_values_wf(ms.drop_last()));
        lemma_members_map_update(ms.drop_last(), idx, p);
        assert(ms2.drop_last() =~= ms.drop_last().update(idx, p));
        assert(ms2.last() == ms.last());
        let x = members_view(ms.drop_last());
        let y = members_view(ms.drop_last().update(idx, p));
        let base = members_map(x);
        let lk = ms.last().0@;
        let lv = value_view(ms.last().1);
        let mv = value_view(p.1);
        assert(members_view(ms2) == y.push((lk, lv)));
        assert(y.push((lk, lv)).drop_last() =~= y);
        assert(members_map(y.push((lk, lv))) == members_map(y).insert(lk, lv));
        assert(members_map(y) == base.insert(p.0@, mv));
        assert(members_view(ms) == x.push((lk, lv)));
        assert(x.push((lk, lv)).drop_last() =~= x);
        assert(members_map(x.push((lk, lv))) == base.insert(lk, lv));
        assert(lk != p.0@);
        assert(base.insert(p.0@, mv).insert(lk, lv) =~= base.insert(lk, lv).insert(p.0@, mv));
        assert(members_values_wf(ms2));
    }
}

fn find_key(acc: &Vec<(String, Value)>, key: &String) -> (r: Option<usize>)
    ensures
        match r {
            Some(idx) => idx < acc@.len() && acc@[idx as int].0@ == key@,
            None => forall|m: int| 0 <= m < acc@.len() ==> acc@[m].0@ != key@,
        },
{
    let mut k: usize = 0;
    while k < acc.len()
        invariant
            k <= acc@.len(),
            forall|m: int| 0 <= m < k ==> acc@[m].0@ != key@,
        decreases acc@.len() - k,
    {
        if acc[k].0 == *key {
            return Some(k);
        }
        k += 1;
    }
    None
}

fn set_member_value(acc: &mut Vec<(String, Value)>, idx: usize, val: Value)
    requires
        idx < old(acc)@.len(),
    ensures
        final(acc)@ == old(acc)@.update(idx as int, (old(acc)@[idx as int].0, val)),
{
    let pair = acc.remove(idx);
    acc.insert(idx, (pair.0, val));
    proof {
        assert(acc@ =~= old(acc)@.update(idx as int, (old(acc)@[idx as int].0, val)));
    }
}

/// Parses a value at `i`: dispatches on the first significant character to
/// an object, array, string, literal spelling or number.
fn value_at_x(s: &Vec<char>, i: usize) -> (r: Parsed<Value>)
    requires
        i <= s@.len(),
    ensures
        match (r, value_at(s@, i as int)) {
            (Parsed::Val { v, next }, SpecOut::Val { v: mv, next: mn }) => value_view(v) == mv
                && value_wf(v) && next as int == mn && i < next <= s@.len(),
            (Parsed::Syn { pos }, SpecOut::Syn { pos: mp }) => pos as int == mp && pos <= s@.len(),
            (Parsed::Unsup { pos }, SpecOut::Unsup { pos: mp }) => pos as int == mp && pos
                <= s@.len(),
            _ => false,
        },
    decreases s@.len() - i, 0int,
{
    if i >= s.len() {
        return Parsed::Syn { pos: i };
    }
    let c = s[i];
    if c == '{' {
        match obj_members_x(s, i + 1) {
            Parsed::Val { v, next } => Parsed::Val { v: Value::Object(v), next },
            Parsed::Syn { pos } => Parsed::Syn { pos },
            Parsed::Unsup { pos } => Parsed::Unsup { pos },
        }
    } else if c == '[' {
        match arr_items_x(s, i + 1) {
            Parsed::Val { v, next } => Parsed::Val { v: Value::Array(v), next },
            Parsed::Syn { pos } => Parsed::Syn { pos },
            Parsed::Unsup { pos } => Parsed::Unsup { pos },
        }
    } else if c == '"' || c == '\'' {
        match str_body_x(s, i + 1, c) {
            Parsed::Val { v, next } => Parsed::Val { v: Value::String(v), next },
            Parsed::Syn { pos } => Parsed::Syn { pos },
            Parsed::Unsup { pos } => Parsed::Unsup { pos },
        }
    } else if kw_null_x(s, i) {
        Parsed::Val { v: Value::Null, next: i + 4 }
    } else if kw_true_x(s, i) {
        Parsed::Val { v: Value::Boolean(true), next: i + 4 }
    } else if kw_false_x(s, i) {
        Parsed::Val { v: Value::Boolean(false), next: i + 5 }
    } else if c == '-' || c == '+' || c == '.' || is_digit_x(c) {
        match number_at_x(s, i) {
            Parsed::Val { v, next } => Parsed::Val { v: Value::Number(v), next },
            Parsed::Syn { pos } => Parsed::Syn { pos },
            Parsed::Unsup { pos } => {
                // a numeric literal holds no escape, so this outcome cannot arise
                proof {
                    assert(false);
                }
                Parsed::Unsup { pos }
            },
        }
    } else {
        Parsed::Syn { pos: i }
    }
}

/// Parses the items of an array from just after `[` up to `]`.
fn arr_items_x(s: &Vec<char>, j: usize) -> (r: Parsed<Vec<Value>>)
    requires
        j <= s@.len(),
    ensures
        match (r, arr_items(s@, j as int)) {
            (Parsed::Val { v, next }, SpecOut::Val { v: mv, next: mn }) => values_view(v@) == mv
                && values_wf(v@) && next as int == mn && j < next <= s@.len(),
            (Parsed::Syn { pos }, SpecOut::Syn { pos: mp }) => pos as int == mp && pos <= s@.len(),
            (Parsed::Unsup { pos }, SpecOut::Unsup { pos: mp }) => pos as int == mp && pos
                <= s@.len(),
            _ => false,
        },
    decreases s@.len() - j, 1int,
{
    let mut acc: Vec<Value> = Vec::new();
    let mut cur = j;
    loop
        invariant
            j <= cur <= s@.len(),
            arr_items(s@, j as int) == arr_append(values_view(acc@), arr_items(s@, cur as int)),
            values_wf(acc@),
        decreases s@.len() - cur,
    {
        let j1 = skip_trivia_x(s, cur);
        if j1 >= s.len() {
            return Parsed::Syn { pos: j1 };
        }
        if s[j1] == ']' {
            proof {
                assert(values_view(acc@) + Seq::<ValueView>::empty() =~= values_view(acc@));
            }
            return Parsed::Val { v: acc, next: j1 + 1 };
        }
        match value_at_x(s, j1) {
            Parsed::Val { v, next } => {
                proof {
                    assert(clamp_pos(next as int, j1 + 1, s@.len() as int) == next as int);
                }
                let j2 = skip_trivia_x(s, next);
                if j2 < s.len() && s[j2] == ',' {
                    proof {
                        assert(arr_items(s@, cur as int) == cons_arr(
                            value_view(v),
                            arr_items(s@, j2 + 1 as int),
                        ));
                        lemma_arr_step(values_view(acc@), value_view(v), arr_items(s@, j2 + 1 as int));
                        assert(acc@.push(v).drop_last() =~= acc@);
                        assert(values_view(acc@.push(v)) == values_view(acc@).push(value_view(v)));
                    }
                    acc.push(v);
                    cur = j2 + 1;
                } else if j2 < s.len() && s[j2] == ']' {
                    proof {
                        assert(acc@.push(v).drop_last() =~= acc@);
                        assert(values_view(acc@.push(v)) == values_view(acc@).push(value_view(v)));
                        assert(values_view(acc@) + seq![value_view(v)] =~= values_view(acc@).push(
                            value_view(v),
                        ));
                    }
                    acc.push(v);
                    return Parsed::Val { v: acc, next: j2 + 1 };
                } else {
                    return Parsed::Syn { pos: j2 };
                }
            },
            Parsed::Syn { pos } => {
                return Parsed::Syn { pos };
            },
            Parsed::Unsup { pos } => {
                return Parsed::Unsup { pos };
            },
        }
    }
}

/// Parses the members of an object from just after `{` up to `}`, storing
/// each member at its key with a later duplicate overwriting the earlier
/// value.
#[verifier::rlimit(100)]
fn obj_members_x(s: &Vec<char>, j: usize) -> (r: Parsed<Vec<(String, Value)>>)
    requires
        j <= s@.len(),
    ensures
        match (r, obj_members(s@, j as int)) {
            (Parsed::Val { v, next }, SpecOut::Val { v: mraw, next: mn }) => members_map(
                members_view(v@),
            ) == members_map(mraw) && keys_distinct(v@) && members_values_wf(v@) && next as int
                == mn && j < next <= s@.len(),
            (Parsed::Syn { pos }, SpecOut::Syn { pos: mp }) => pos as int == mp && pos <= s@.len(),
            (Parsed::Unsup { pos }, SpecOut::Unsup { pos: mp }) => pos as int == mp && pos
                <= s@.len(),
            _ => false,
        },
    decreases s@.len() - j, 1int,
{
    let mut acc: Vec<(String, Value)> = Vec::new();
    let ghost mut raw: Seq<(Seq<char>, ValueView)> = Seq::empty();
    let mut cur = j;
    loop
        invariant
            j <= cur <= s@.len(),
            obj_members(s@, j as int) == mem_append(raw, obj_members(s@, cur as int)),
            members_map(members_view(acc@)) == members_map(raw),
            keys_distinct(acc@),
            members_values_wf(acc@),
        decreases s@.len() - cur,
    {
        let j1 = skip_trivia_x(s, cur);
        if j1 >= s.len() {
            return Parsed::Syn { pos: j1 };
        }
        if s[j1] == '}' {
            proof {
                assert(raw + Seq::<(Seq<char>, ValueView)>::empty() =~= raw);
            }
            return Parsed::Val { v: acc, next: j1 + 1 };
        }
        let q = s[j1];
        let key: String;
        let kn: usize;
        if q == '"' || q == '\'' {
            match str_body_x(s, j1 + 1, q) {
                Parsed::Val { v, next } => {
                    key = v;
                    kn = next;
                },
                Parsed::Syn { pos } => {
                    return Parsed::Syn { pos };
                },
                Parsed::Unsup { pos } => {
                    return Parsed::Unsup { pos };
                },
            }
        } else if is_ident_start_x(q) {
            let ke = ident_end_x(s, j1);
            proof {
                lemma_ident_end(s@, j1 + 1 as int);
            }
            key = chars_to_string(s, j1, ke);
            kn = ke;
        } else {
            return Parsed::Syn { pos: j1 };
        }
        proof {
            assert(clamp_pos(kn as int, j1 + 1, s@.len() as int) == kn as int);
        }
        let j2 = skip_trivia_x(s, kn);
        if j2 >= s.len() || s[j2] != ':' {
            return Parsed::Syn { pos: j2 };
        }
        let j3 = skip_trivia_x(s, j2 + 1);
        match value_at_x(s, j3) {
            Parsed::Val { v: val, next } => {
                proof {
                    assert(clamp_pos(next as int, j3 as int, s@.len() as int) == next as int);
                }
                let j4 = skip_trivia_x(s, next);
                let ghost m = (key@, value_view(val));
                let ghost raw_old = raw;
                match find_key(&acc, &key) {
                    Some(idx) => {
                        proof {
                            lemma_members_map_update(acc@, idx as int, (acc@[idx as int].0, val));
                            assert(acc@[idx as int].0@ == key@);
                        }
                        set_member_value(&mut acc, idx, val);
                    },
                    None => {
                        proof {
                            assert(acc@.push((key, val)).drop_last() =~= acc@);
                            assert(members_view(acc@).push(m).drop_last() =~= members_view(acc@));
                            assert(members_view(acc@.push((key, val))) == members_view(acc@).push(
                                m,
                            ));
                            assert(members_map(members_view(acc@).push(m)) == members_map(
                                members_view(acc@),
                            ).insert(m.0, m.1));
                        }
                        acc.push((key, val));
                    },
                }
                proof {
                    assert(raw_old.push(m).drop_last() =~= raw_old);
                    raw = raw_old.push(m);
                    assert(members_map(raw) == members_map(raw_old).insert(m.0, m.1));
                    assert(members_map(members_view(acc@)) == members_map(raw));
                }
                if j4 < s.len() && s[j4] == ',' {
                    proof {
                        assert(obj_members(s@, cur as int) == cons_mem(
                            m,
                            obj_members(s@, j4 + 1 as int),
                        ));
                        lemma_mem_step(raw_old, m, obj_members(s@, j4 + 1 as int));
                    }
                    cur = j4 + 1;
                } else if j4 < s.len() && s[j4] == '}' {
                    proof {
                        assert(obj_members(s@, cur as int) == (SpecOut::Val {
                            v: seq![m],
                            next: j4 + 1 as int,
                        }));
                        assert(raw_old + seq![m] =~= raw);
                    }
                    return Parsed::Val { v: acc, next: j4 + 1 };
                } else {
                    return Parsed::Syn { pos: j4 };
                }
            },
            Parsed::Syn { pos } => {
                return Parsed::Syn { pos };
            },
            Parsed::Unsup { pos } => {
                return Parsed::Unsup { pos };
            },
        }
    }
}

fn hex_val_x(c: char) -> (r: u8)
    requires
        is_hex_digit(c),
    ensures
        r as int == hex_val(c),
        r < 16,
{
    let code = c as u32;
    if c >= '0' && c <= '9' {
        (code - 48) as u8
    } else if c >= 'a' && c <= 'f' {
        (code - 97 + 10) as u8
    } else {
        (code - 65 + 10) as u8
    }
}

fn line_col_x(s: &Vec<char>, p: usize) -> (r: (usize, usize))
    requires
        p <= s@.len(),
    ensures
        r.0 as int == line_of(s@, p as int),
        r.1 as int == col_of(s@, p as int),
{
    let mut line: usize = 1;
    let mut col: usize = 1;
    let mut k: usize = 0;
    while k < p
        invariant
            k <= p <= s@.len(),
            line as int == line_of(s@, k as int),
            col as int == col_of(s@, k as int),
        decreases p - k,
    {
        if s[k] == '\n' {
            if line < usize::MAX {
                line += 1;
            }
            col = 1;
        } else {
            if col < usize::MAX {
                col += 1;
            }
        }
        k += 1;
    }
    (line, col)
}

/// A parse failure, the only two kinds there are: the grammar rejected the
/// input at a position (with its 1-based line and column), or a long-form
/// `\uXXXX` Unicode escape was met, whose resolution this reducer does not
/// support and refuses to guess at.
#[derive(Debug, PartialEq)]
pub enum ParseError {
    Syntax { pos: usize, line: usize, column: usize, message: String },
    UnsupportedEscape { pos: usize },
}

/// The expectation text of a syntax failure at `p`: the buffer either ended
/// too early or holds a character no rule admits there.
pub open spec fn syn_msg(s: Seq<char>, p: int) -> Seq<char> {
    if p >= s.len() {
        "unexpected end of input"@
    } else {
        "unexpected character"@
    }
}

fn syn_msg_x(s: &Vec<char>, pos: usize) -> (r: String)
    ensures
        r@ == syn_msg(s@, pos as int),
{
    if pos >= s.len() {
        String::from_str("unexpected end of input")
    } else {
        String::from_str("unexpected character")
    }
}

/// What `parse` promises: the outcome is exactly what the grammar says of
/// the whole text — on success a well-formed value whose model is the
/// grammar's value, on failure the grammar's failure kind at the grammar's
/// position, with the position's true line and column.
pub open spec fn parse_result_ok(r: Result<Value, ParseError>, s: Seq<char>) -> bool {
    match (r, text_at(s)) {
        (Result::Ok(v), SpecOut::Val { v: mv, next }) => value_view(v) == mv && value_wf(v),
        (
            Result::Err(ParseError::Syntax { pos, line, column, message }),
            SpecOut::Syn { pos: mp },
        ) => pos as int == mp && line as int == line_of(s, mp) && column as int == col_of(s, mp)
            && message@ == syn_msg(s, mp),
        (Result::Err(ParseError::UnsupportedEscape { pos }), SpecOut::Unsup { pos: mp }) => pos
            as int == mp,
        _ => false,
    }
}

/// The characters of a string, in order.
fn to_chars(text: &str) -> (r: Vec<char>)
    ensures
        r@ == text@,
{
    let n = text.unicode_len();
    let mut v: Vec<char> = Vec::new();
    let mut k: usize = 0;
    while k < n
        invariant
            n == text@.len(),
            k <= n,
            v@ == text@.subrange(0, k as int),
        decreases n - k,
    {
        v.push(text.get_char(k));
        proof {
            assert(text@.subrange(0, k + 1 as int) =~= text@.subrange(0, k as int).push(
                text@[k as int],
            ));
        }
        k += 1;
    }
    proof {
        assert(text@.subrange(0, text@.len() as int) =~= text@);
    }
    v
}

/// The single entry point: takes a complete JSON5 text and returns its
/// canonical value, or the one error the text deserves. The contract pins
/// the whole outcome to the grammar functions, so parsing is deterministic
/// and total: no input panics.
pub fn parse(text: String) -> (r: Result<Value, ParseError>)
    ensures
        parse_result_ok(r, text@),
{
    let s = to_chars(text.as_str());
    let j = skip_trivia_x(&s, 0);
    match value_at_x(&s, j) {
        Parsed::Val { v, next } => {
            proof {
                assert(clamp_pos(next as int, j as int, s@.len() as int) == next as int);
            }
            let k = skip_trivia_x(&s, next);
            if k >= s.len() {
                Ok(v)
            } else {
                let lc = line_col_x(&s, k);
                let message = syn_msg_x(&s, k);
                Err(ParseError::Syntax { pos: k, line: lc.0, column: lc.1, message })
            }
        },
        Parsed::Syn { pos } => {
            let lc = line_col_x(&s, pos);
            let message = syn_msg_x(&s, pos);
            Err(ParseError::Syntax { pos, line: lc.0, column: lc.1, message })
        },
        Parsed::Unsup { pos } => Err(ParseError::UnsupportedEscape { pos }),
    }
}

} // verus!
