//! General properties of the parser, proved once and for all inputs.

use vstd::prelude::*;

use crate::grammar::digit_seq;
use crate::grammar::digits_end;
use crate::grammar::exp_fold;
use crate::grammar::hex_digit_seq;
use crate::grammar::number_at;
use crate::grammar::str_body;
use crate::grammar::arr_items;
use crate::grammar::clamp_pos;
use crate::grammar::is_ident_start;
use crate::grammar::obj_members;
use crate::grammar::text_at;
use crate::grammar::value_at;
use crate::grammar::find_block_end;
use crate::grammar::find_line_end;
use crate::grammar::hex_digits_end;
use crate::grammar::ident_end;
use crate::grammar::is_digit;
use crate::grammar::is_hex_digit;
use crate::grammar::is_ident_char;
use crate::grammar::is_line_term;
use crate::grammar::is_ws;
use crate::grammar::skip_trivia;
use crate::grammar::SpecOut;
use crate::parser::parse_result_ok;
use crate::parser::ParseError;
use crate::value::value_view;
use crate::value::Value;

verus! {

/// The text from position `d` on.
spec fn tail_of(s: Seq<char>, d: int) -> Seq<char> {
    s.subrange(d, s.len() as int)
}

/// `a` is `b` moved `d` positions to the right: same content, same failure
/// kind, every position larger by `d`.
spec fn out_shifted<T>(d: int, a: SpecOut<T>, b: SpecOut<T>) -> bool {
    match (a, b) {
        (SpecOut::Val { v: v1, next: n1 }, SpecOut::Val { v: v2, next: n2 }) => v1 == v2 && n1 == d
            + n2,
        (SpecOut::Syn { pos: p1 }, SpecOut::Syn { pos: p2 }) => p1 == d + p2,
        (SpecOut::Unsup { pos: p1 }, SpecOut::Unsup { pos: p2 }) => p1 == d + p2,
        _ => false,
    }
}

proof fn shift_find_line_end(s: Seq<char>, d: int, i: int)
    requires
        0 <= d,
        0 <= i,
        d + i <= s.len(),
    ensures
        find_line_end(s, d + i) == d + find_line_end(tail_of(s, d), i),
    decreases s.len() - d - i,
{
    let t = tail_of(s, d);
    if !(d + i >= s.len() || is_line_term(s[d + i])) {
        shift_find_line_end(s, d, i + 1);
    }
}

proof fn shift_find_block_end(s: Seq<char>, d: int, i: int)
    requires
        0 <= d,
        0 <= i,
        d + i <= s.len(),
    ensures
        find_block_end(s, d + i) == if find_block_end(tail_of(s, d), i) == -1 {
            -1
        } else {
            d + find_block_end(tail_of(s, d), i)
        },
    decreases s.len() - d - i,
{
    let t = tail_of(s, d);
    if d + i + 2 > s.len() {
    } else if s[d + i] == '*' && s[d + i + 1] == '/' {
    } else {
        shift_find_block_end(s, d, i + 1);
    }
}

proof fn shift_skip_trivia(s: Seq<char>, d: int, i: int)
    requires
        0 <= d,
        0 <= i,
        d + i <= s.len(),
    ensures
        skip_trivia(s, d + i) == d + skip_trivia(tail_of(s, d), i),
    decreases s.len() - d - i,
{
    let t = tail_of(s, d);
    if d + i >= s.len() {
    } else if is_ws(s[d + i]) {
        shift_skip_trivia(s, d, i + 1);
    } else if s[d + i] == '/' && d + i + 1 < s.len() && s[d + i + 1] == '/' {
        shift_find_line_end(s, d, i + 2);
        crate::grammar::lemma_find_line_end(t, i + 2);
        shift_skip_trivia(s, d, find_line_end(t, i + 2));
    } else if s[d + i] == '/' && d + i + 1 < s.len() && s[d + i + 1] == '*' {
        shift_find_block_end(s, d, i + 2);
        crate::grammar::lemma_find_block_end(t, i + 2);
        if find_block_end(t, i + 2) != -1 {
            shift_skip_trivia(s, d, find_block_end(t, i + 2));
        }
    }
}

proof fn shift_digits_end(s: Seq<char>, d: int, i: int)
    requires
        0 <= d,
        0 <= i,
        d + i <= s.len(),
    ensures
        digits_end(s, d + i) == d + digits_end(tail_of(s, d), i),
        i <= digits_end(tail_of(s, d), i) <= tail_of(s, d).len(),
    decreases s.len() - d - i,
{
    let t = tail_of(s, d);
    if !(d + i >= s.len() || !is_digit(s[d + i])) {
        shift_digits_end(s, d, i + 1);
    }
}

proof fn shift_hex_digits_end(s: Seq<char>, d: int, i: int)
    requires
        0 <= d,
        0 <= i,
        d + i <= s.len(),
    ensures
        hex_digits_end(s, d + i) == d + hex_digits_end(tail_of(s, d), i),
        i <= hex_digits_end(tail_of(s, d), i) <= tail_of(s, d).len(),
    decreases s.len() - d - i,
{
    let t = tail_of(s, d);
    if !(d + i >= s.len() || !is_hex_digit(s[d + i])) {
        shift_hex_digits_end(s, d, i + 1);
    }
}

proof fn shift_ident_end(s: Seq<char>, d: int, i: int)
    requires
        0 <= d,
        0 <= i,
        d + i <= s.len(),
    ensures
        ident_end(s, d + i) == d + ident_end(tail_of(s, d), i),
        i <= ident_end(tail_of(s, d), i) <= tail_of(s, d).len(),
    decreases s.len() - d - i,
{
    let t = tail_of(s, d);
    if !(d + i >= s.len() || !is_ident_char(s[d + i])) {
        shift_ident_end(s, d, i + 1);
    }
}

/// Skipping trivia is idempotent: the position it yields is already past all
/// trivia.
proof fn lemma_skip_trivia_idem(s: Seq<char>, i: int)
    requires
        0 <= i <= s.len(),
    ensures
        skip_trivia(s, skip_trivia(s, i)) == skip_trivia(s, i),
    decreases s.len() - i,
{
    crate::grammar::lemma_skip_trivia(s, i);
    if i >= s.len() {
    } else if is_ws(s[i]) {
        lemma_skip_trivia_idem(s, i + 1);
    } else if s[i] == '/' && i + 1 < s.len() && s[i + 1] == '/' {
        crate::grammar::lemma_find_line_end(s, i + 2);
        lemma_skip_trivia_idem(s, find_line_end(s, i + 2));
    } else if s[i] == '/' && i + 1 < s.len() && s[i + 1] == '*' {
        crate::grammar::lemma_find_block_end(s, i + 2);
        if find_block_end(s, i + 2) != -1 {
            lemma_skip_trivia_idem(s, find_block_end(s, i + 2));
        }
    }
}


proof fn shift_digit_seq(s: Seq<char>, d: int, a: int, b: int)
    requires
        0 <= d,
        0 <= a <= b,
        d + b <= s.len(),
    ensures
        digit_seq(s, d + a, d + b) == digit_seq(tail_of(s, d), a, b),
    decreases b - a,
{
    if a < b {
        shift_digit_seq(s, d, a, b - 1);
    }
}

proof fn shift_hex_digit_seq(s: Seq<char>, d: int, a: int, b: int)
    requires
        0 <= d,
        0 <= a <= b,
        d + b <= s.len(),
    ensures
        hex_digit_seq(s, d + a, d + b) == hex_digit_seq(tail_of(s, d), a, b),
    decreases b - a,
{
    if a < b {
        shift_hex_digit_seq(s, d, a, b - 1);
    }
}

proof fn shift_exp_fold(s: Seq<char>, d: int, a: int, b: int)
    requires
        0 <= d,
        0 <= a <= b,
        d + b <= s.len(),
    ensures
        exp_fold(s, d + a, d + b) == exp_fold(tail_of(s, d), a, b),
    decreases b - a,
{
    if a < b {
        shift_exp_fold(s, d, a, b - 1);
    }
}

proof fn shift_str_body(s: Seq<char>, d: int, i: int, q: char)
    requires
        0 <= d,
        0 <= i,
        d + i <= s.len(),
    ensures
        out_shifted(d, str_body(s, d + i, q), str_body(tail_of(s, d), i, q)),
    decreases s.len() - d - i,
{
    let t = tail_of(s, d);
    if d + i >= s.len() {
    } else if s[d + i] == q || s[d + i] == '\n' || s[d + i] == '\r' {
    } else if s[d + i] == '\\' {
        if d + i + 1 < s.len() {
            let c = s[d + i + 1];
            if c == 'x' {
                if d + i + 3 < s.len() && is_hex_digit(s[d + i + 2]) && is_hex_digit(
                    s[d + i + 3],
                ) {
                    shift_str_body(s, d, i + 4, q);
                }
            } else if c == 'u' {
            } else {
                shift_str_body(s, d, i + 2, q);
            }
        }
    } else {
        shift_str_body(s, d, i + 1, q);
    }
}

#[verifier::rlimit(100)]
proof fn shift_number_at(s: Seq<char>, d: int, i: int)
    requires
        0 <= d,
        0 <= i,
        d + i < s.len(),
    ensures
        out_shifted(d, number_at(s, d + i), number_at(tail_of(s, d), i)),
{
    let t = tail_of(s, d);
    let j: int = if s[d + i] == '-' || s[d + i] == '+' {
        i + 1
    } else {
        i
    };
    if d + j < s.len() {
        if s[d + j] == '0' && d + j + 1 < s.len() && (s[d + j + 1] == 'x' || s[d + j + 1]
            == 'X') {
            shift_hex_digits_end(s, d, j + 2);
            let k = hex_digits_end(t, j + 2);
            if k != j + 2 {
                shift_hex_digit_seq(s, d, j + 2, k);
            }
        } else {
            shift_digits_end(s, d, j);
            let ie = digits_end(t, j);
            if !(ie > j + 1 && s[d + j] == '0') {
                let fs: int = if ie < t.len() && t[ie] == '.' {
                    ie + 1
                } else {
                    ie
                };
                let fe: int = if ie < t.len() && t[ie] == '.' {
                    digits_end(t, ie + 1)
                } else {
                    ie
                };
                if ie < t.len() && t[ie] == '.' {
                    shift_digits_end(s, d, ie + 1);
                }
                if !(ie - j == 0 && fe - fs == 0) {
                    shift_digit_seq(s, d, j, ie);
                    shift_digit_seq(s, d, fs, fe);
                    if fe < t.len() && (t[fe] == 'e' || t[fe] == 'E') {
                        let es: int = if fe + 1 < t.len() && (t[fe + 1] == '-' || t[fe + 1]
                            == '+') {
                            fe + 2
                        } else {
                            fe + 1
                        };
                        shift_digits_end(s, d, es);
                        let ee = digits_end(t, es);
                        if ee != es {
                            shift_exp_fold(s, d, es, ee);
                        }
                    }
                }
            }
        }
    }
}


proof fn shift_value_at(s: Seq<char>, d: int, i: int)
    requires
        0 <= d,
        0 <= i,
        d + i <= s.len(),
    ensures
        out_shifted(d, value_at(s, d + i), value_at(tail_of(s, d), i)),
    decreases s.len() - d - i, 0int,
{
    let t = tail_of(s, d);
    if d + i >= s.len() {
    } else if s[d + i] == '{' {
        shift_obj_members(s, d, i + 1);
    } else if s[d + i] == '[' {
        shift_arr_items(s, d, i + 1);
    } else if s[d + i] == '\"' || s[d + i] == '\'' {
        shift_str_body(s, d, i + 1, s[d + i]);
    } else if s[d + i] == '-' || s[d + i] == '+' || s[d + i] == '.' || is_digit(s[d + i]) {
        shift_number_at(s, d, i);
    }
}

proof fn shift_arr_items(s: Seq<char>, d: int, j: int)
    requires
        0 <= d,
        0 <= j,
        d + j <= s.len(),
    ensures
        out_shifted(d, arr_items(s, d + j), arr_items(tail_of(s, d), j)),
    decreases s.len() - d - j, 1int,
{
    let t = tail_of(s, d);
    shift_skip_trivia(s, d, j);
    crate::grammar::lemma_skip_trivia(t, j);
    let j1 = skip_trivia(t, j);
    if j1 >= t.len() {
    } else if t[j1] == ']' {
    } else {
        shift_value_at(s, d, j1);
        match value_at(t, j1) {
            SpecOut::Val { v, next } => {
                let cn = clamp_pos(next, j1 + 1, t.len() as int);
                shift_skip_trivia(s, d, cn);
                crate::grammar::lemma_skip_trivia(t, cn);
                let j2 = skip_trivia(t, cn);
                if j2 < t.len() && t[j2] == ',' {
                    shift_arr_items(s, d, j2 + 1);
                }
            },
            SpecOut::Syn { pos } => {},
            SpecOut::Unsup { pos } => {},
        }
    }
}

#[verifier::rlimit(100)]
proof fn shift_obj_members(s: Seq<char>, d: int, j: int)
    requires
        0 <= d,
        0 <= j,
        d + j <= s.len(),
    ensures
        out_shifted(d, obj_members(s, d + j), obj_members(tail_of(s, d), j)),
    decreases s.len() - d - j, 1int,
{
    let t = tail_of(s, d);
    shift_skip_trivia(s, d, j);
    crate::grammar::lemma_skip_trivia(t, j);
    let j1 = skip_trivia(t, j);
    if j1 >= t.len() {
    } else if t[j1] == '}' {
    } else {
        let key_out: SpecOut<Seq<char>> = if t[j1] == '\"' || t[j1] == '\'' {
            shift_str_body(s, d, j1 + 1, t[j1]);
            str_body(t, j1 + 1, t[j1])
        } else if is_ident_start(t[j1]) {
            shift_ident_end(s, d, j1);
            assert(s.subrange(d + j1, d + ident_end(t, j1)) =~= t.subrange(
                j1,
                ident_end(t, j1),
            ));
            SpecOut::Val { v: t.subrange(j1, ident_end(t, j1)), next: ident_end(t, j1) }
        } else {
            SpecOut::Syn { pos: j1 }
        };
        match key_out {
            SpecOut::Val { v: key, next: kn } => {
                let ckn = clamp_pos(kn, j1 + 1, t.len() as int);
                shift_skip_trivia(s, d, ckn);
                crate::grammar::lemma_skip_trivia(t, ckn);
                let j2 = skip_trivia(t, ckn);
                if j2 < t.len() && t[j2] == ':' {
                    shift_skip_trivia(s, d, j2 + 1);
                    crate::grammar::lemma_skip_trivia(t, j2 + 1);
                    let j3 = skip_trivia(t, j2 + 1);
                    shift_value_at(s, d, j3);
                    match value_at(t, j3) {
                        SpecOut::Val { v, next } => {
                            let cvn = clamp_pos(next, j3, t.len() as int);
                            shift_skip_trivia(s, d, cvn);
                            crate::grammar::lemma_skip_trivia(t, cvn);
                            let j4 = skip_trivia(t, cvn);
                            if j4 < t.len() && t[j4] == ',' {
                                shift_obj_members(s, d, j4 + 1);
                            }
                        },
                        SpecOut::Syn { pos } => {},
                        SpecOut::Unsup { pos } => {},
                    }
                }
            },
            SpecOut::Syn { pos } => {},
            SpecOut::Unsup { pos } => {},
        }
    }
}

/// Leading trivia is transparent: stripping the whitespace and comments
/// ahead of the first significant character changes nothing but positions —
/// the same value on success, the same failure kind on failure, every
/// reported position moved back by exactly the length of what was stripped.
pub proof fn lemma_leading_trivia_transparent(s: Seq<char>)
    ensures
        ({
            let p = skip_trivia(s, 0);
            let t = s.subrange(p, s.len() as int);
            match (text_at(s), text_at(t)) {
                (SpecOut::Val { v: v1, next: n1 }, SpecOut::Val { v: v2, next: n2 }) => v1 == v2,
                (SpecOut::Syn { pos: p1 }, SpecOut::Syn { pos: p2 }) => p1 == p + p2,
                (SpecOut::Unsup { pos: p1 }, SpecOut::Unsup { pos: p2 }) => p1 == p + p2,
                _ => false,
            }
        }),
{
    crate::grammar::lemma_skip_trivia(s, 0);
    let p = skip_trivia(s, 0);
    let t = tail_of(s, p);
    lemma_skip_trivia_idem(s, 0);
    shift_skip_trivia(s, p, 0);
    shift_value_at(s, p, 0);
    match value_at(t, 0) {
        SpecOut::Val { v, next } => {
            let cn = clamp_pos(next, 0, t.len() as int);
            shift_skip_trivia(s, p, cn);
            crate::grammar::lemma_skip_trivia(t, cn);
        },
        SpecOut::Syn { pos } => {},
        SpecOut::Unsup { pos } => {},
    }
}

/// The same transparency at the parser's boundary: a text, and that text
/// with the whitespace and comments ahead of its first significant character
/// removed, parse to equal value models, or fail in the same way with
/// positions apart by exactly the stripped length.
pub proof fn lemma_parse_ignores_leading_trivia(
    s: Seq<char>,
    r1: Result<Value, ParseError>,
    r2: Result<Value, ParseError>,
)
    requires
        parse_result_ok(r1, s),
        parse_result_ok(r2, s.subrange(skip_trivia(s, 0), s.len() as int)),
    ensures
        match (r1, r2) {
            (Result::Ok(a), Result::Ok(b)) => value_view(a) == value_view(b),
            (
                Result::Err(ParseError::Syntax { pos: p1, .. }),
                Result::Err(ParseError::Syntax { pos: p2, .. }),
            ) => p1 == skip_trivia(s, 0) + p2,
            (
                Result::Err(ParseError::UnsupportedEscape { pos: p1 }),
                Result::Err(ParseError::UnsupportedEscape { pos: p2 }),
            ) => p1 == skip_trivia(s, 0) + p2,
            _ => false,
        },
{
    lemma_leading_trivia_transparent(s);
}

/// Parsing is deterministic: for one and the same input text, any two
/// outcomes that the parser's contract admits agree — on success the value
/// models are equal (so the trees are identical up to object member order,
/// which carries no meaning), and on failure the error kind, position, line
/// and column are all equal.
pub proof fn lemma_parse_deterministic(
    s: Seq<char>,
    r1: Result<Value, ParseError>,
    r2: Result<Value, ParseError>,
)
    requires
        parse_result_ok(r1, s),
        parse_result_ok(r2, s),
    ensures
        match (r1, r2) {
            (Result::Ok(a), Result::Ok(b)) => value_view(a) == value_view(b),
            (
                Result::Err(ParseError::Syntax { pos: p1, line: l1, column: c1, message: m1 }),
                Result::Err(ParseError::Syntax { pos: p2, line: l2, column: c2, message: m2 }),
            ) => p1 == p2 && l1 == l2 && c1 == c2 && m1@ == m2@,
            (
                Result::Err(ParseError::UnsupportedEscape { pos: p1 }),
                Result::Err(ParseError::UnsupportedEscape { pos: p2 }),
            ) => p1 == p2,
            _ => false,
        },
{
}

} // verus!
