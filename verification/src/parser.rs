//! The parser: one complete text buffer in, one value out.
//!
//! Every executable function mirrors a specification function over
//! `Seq<char>` and is proved to return exactly what it says, so the whole
//! grammar — whitespace and comments, the literal tokens, escape
//! sequences, the four composite forms, discard elements and tagged
//! literals — is pinned down by the contracts. The symbol table threads
//! through parsing: each symbol, keyword or tag name is interned as it is
//! read.

use vstd::prelude::*;
use crate::text::is_digit_char;
use crate::text::digit_val;
use crate::text::is_hex_char;
use crate::text::hex_val;
use crate::text::hex_digit;
use crate::text::char_from_u32;
use crate::text::is_unicode_scalar;
use crate::text::str_chars;
use crate::text::string_of_chars;
use crate::error::Error;
use crate::value::ValueModel;
use crate::value::KeyModel;
use crate::float::FloatValue;
use crate::value::Value;
use crate::symbol::SymbolStore;

verus! {

/// The view and normality of a bare character value.
proof fn lemma_char_view(ch: char)
    ensures
        Value::Character(ch)@ == ValueModel::Character(ch),
        crate::value::model_normal(Value::Character(ch)@),
{
}

/// Whitespace in this notation: blanks, line breaks and the comma.
pub open spec fn is_ws_char(c: char) -> bool {
    c == ' ' || c == '\t' || c == '\n' || c == '\r' || c == ','
}

/// Characters that end a token: whitespace, brackets, the string quote,
/// the comment mark and the character-literal mark.
pub open spec fn is_token_char(c: char) -> bool {
    !is_ws_char(c) && c != '(' && c != ')' && c != '[' && c != ']' && c != '{' && c != '}'
        && c != '"' && c != ';' && c != '\\'
}

/// The position after any run of whitespace and comments from `i`;
/// `com` says whether `i` stands inside a line comment.
pub open spec fn sp_ws(s: Seq<char>, i: int, com: bool) -> int
    decreases s.len() - i,
{
    if i < 0 || i >= s.len() {
        if i < 0 {
            0
        } else {
            s.len() as int
        }
    } else if com {
        if s[i] == '\n' {
            sp_ws(s, i + 1, false)
        } else {
            sp_ws(s, i + 1, true)
        }
    } else if s[i] == ';' {
        sp_ws(s, i + 1, true)
    } else if is_ws_char(s[i]) {
        sp_ws(s, i + 1, false)
    } else {
        i
    }
}

/// `sp_ws` never moves backwards and lands within the text.
pub proof fn lemma_sp_ws_bounds(s: Seq<char>, i: int, com: bool)
    requires
        0 <= i <= s.len(),
    ensures
        i <= sp_ws(s, i, com) <= s.len(),
    decreases s.len() - i,
{
    if i < s.len() {
        lemma_sp_ws_bounds(s, i + 1, true);
        lemma_sp_ws_bounds(s, i + 1, false);
    }
}

/// Exec whitespace-and-comment skip.
fn ws_skip(cs: &Vec<char>, start: usize) -> (r: usize)
    requires
        start <= cs@.len(),
    ensures
        r == sp_ws(cs@, start as int, false),
        start <= r <= cs@.len(),
{
    proof {
        lemma_sp_ws_bounds(cs@, start as int, false);
    }
    let mut i: usize = start;
    let mut com: bool = false;
    loop
        invariant
            start <= i <= cs@.len(),
            sp_ws(cs@, start as int, false) == sp_ws(cs@, i as int, com),
        decreases cs@.len() - i, if com { 0int } else { 1int },
    {
        proof {
            lemma_sp_ws_bounds(cs@, i as int, com);
        }
        if i >= cs.len() {
            return i;
        }
        let c = cs[i];
        if com {
            if c == '\n' {
                com = false;
            }
            i = i + 1;
        } else if c == ';' {
            com = true;
            i = i + 1;
        } else if c == ' ' || c == '\t' || c == '\n' || c == '\r' || c == ',' {
            i = i + 1;
        } else {
            return i;
        }
    }
}

/// The end of the token that starts at `i`.
pub open spec fn sp_token_end(s: Seq<char>, i: int) -> int
    decreases s.len() - i,
{
    if 0 <= i < s.len() && is_token_char(s[i]) {
        sp_token_end(s, i + 1)
    } else if i < 0 {
        0
    } else if i > s.len() {
        s.len() as int
    } else {
        i
    }
}

/// `sp_token_end` never moves backwards and lands within the text.
pub proof fn lemma_sp_token_end_bounds(s: Seq<char>, i: int)
    requires
        0 <= i <= s.len(),
    ensures
        i <= sp_token_end(s, i) <= s.len(),
    decreases s.len() - i,
{
    if i < s.len() && is_token_char(s[i]) {
        lemma_sp_token_end_bounds(s, i + 1);
    }
}

/// Exec token end scan.
fn token_end(cs: &Vec<char>, start: usize) -> (r: usize)
    requires
        start <= cs@.len(),
    ensures
        r == sp_token_end(cs@, start as int),
        start <= r <= cs@.len(),
{
    proof {
        lemma_sp_token_end_bounds(cs@, start as int);
    }
    let mut i: usize = start;
    loop
        invariant
            start <= i <= cs@.len(),
            sp_token_end(cs@, start as int) == sp_token_end(cs@, i as int),
        decreases cs@.len() - i,
    {
        proof {
            lemma_sp_token_end_bounds(cs@, i as int);
        }
        if i >= cs.len() {
            return i;
        }
        let c = cs[i];
        if c == '(' || c == ')' || c == '[' || c == ']' || c == '{' || c == '}' || c == '"'
            || c == ';' || c == '\\' || c == ' ' || c == '\t' || c == '\n' || c == '\r'
            || c == ',' {
            return i;
        }
        i = i + 1;
    }
}

/// The decoded content of a string literal from position `i` (just after
/// the opening quote) together with the position after the closing quote;
/// nothing when the literal is unterminated or an escape is malformed.
pub open spec fn sp_string(s: Seq<char>, i: int, acc: Seq<char>) -> Option<(Seq<char>, int)>
    decreases s.len() - i,
{
    if i < 0 || i >= s.len() {
        None
    } else if s[i] == '"' {
        Some((acc, i + 1))
    } else if s[i] == '\\' {
        if i + 1 >= s.len() {
            None
        } else {
            let e = s[i + 1];
            if e == 't' {
                sp_string(s, i + 2, acc.push('\t'))
            } else if e == 'r' {
                sp_string(s, i + 2, acc.push('\r'))
            } else if e == 'n' {
                sp_string(s, i + 2, acc.push('\n'))
            } else if e == 'f' {
                sp_string(s, i + 2, acc.push('\u{0C}'))
            } else if e == 'b' {
                sp_string(s, i + 2, acc.push('\u{08}'))
            } else if e == 'u' {
                if i + 6 > s.len() {
                    None
                } else if is_hex_char(s[i + 2]) && is_hex_char(s[i + 3]) && is_hex_char(s[i + 4])
                    && is_hex_char(s[i + 5]) {
                    let code = hex_val(s[i + 2]) * 4096 + hex_val(s[i + 3]) * 256 + hex_val(
                        s[i + 4],
                    ) * 16 + hex_val(s[i + 5]);
                    if is_unicode_scalar(code) {
                        sp_string(s, i + 6, acc.push(code as char))
                    } else {
                        None
                    }
                } else {
                    None
                }
            } else {
                sp_string(s, i + 2, acc.push(e))
            }
        }
    } else {
        sp_string(s, i + 1, acc.push(s[i]))
    }
}

/// `sp_string` always advances past the opening position.
pub proof fn lemma_sp_string_bounds(s: Seq<char>, i: int, acc: Seq<char>)
    requires
        0 <= i <= s.len(),
    ensures
        (sp_string(s, i, acc) is Some) ==> i < (sp_string(s, i, acc)->0).1 <= s.len(),
    decreases s.len() - i,
{
    if i >= s.len() {
    } else if s[i] == '"' {
    } else if s[i] == '\\' {
        if i + 1 >= s.len() {
        } else {
            let e = s[i + 1];
            if e == 't' {
                lemma_sp_string_bounds(s, i + 2, acc.push('\t'));
            } else if e == 'r' {
                lemma_sp_string_bounds(s, i + 2, acc.push('\r'));
            } else if e == 'n' {
                lemma_sp_string_bounds(s, i + 2, acc.push('\n'));
            } else if e == 'f' {
                lemma_sp_string_bounds(s, i + 2, acc.push('\u{0C}'));
            } else if e == 'b' {
                lemma_sp_string_bounds(s, i + 2, acc.push('\u{08}'));
            } else if e == 'u' {
                if i + 6 <= s.len() && is_hex_char(s[i + 2]) && is_hex_char(s[i + 3])
                    && is_hex_char(s[i + 4]) && is_hex_char(s[i + 5]) {
                    let code = hex_val(s[i + 2]) * 4096 + hex_val(s[i + 3]) * 256 + hex_val(
                        s[i + 4],
                    ) * 16 + hex_val(s[i + 5]);
                    if is_unicode_scalar(code) {
                        lemma_sp_string_bounds(s, i + 6, acc.push(code as char));
                    }
                }
            } else {
                lemma_sp_string_bounds(s, i + 2, acc.push(e));
            }
        }
    } else {
        lemma_sp_string_bounds(s, i + 1, acc.push(s[i]));
    }
}

/// Exec string-literal body scan, from just after the opening quote.
fn scan_string(cs: &Vec<char>, start: usize) -> (r: Result<(Vec<char>, usize), Error>)
    requires
        start <= cs@.len(),
    ensures
        match r {
            Ok((content, out)) => {
                &&& sp_string(cs@, start as int, Seq::empty()) == Some((content@, out as int))
                &&& start < out <= cs@.len()
            },
            Err(e) => sp_string(cs@, start as int, Seq::empty()) is None && (e is Syntax),
        },
{
    let mut acc: Vec<char> = Vec::new();
    let mut i: usize = start;
    loop
        invariant
            start <= i <= cs@.len(),
            sp_string(cs@, start as int, Seq::empty()) == sp_string(cs@, i as int, acc@),
        decreases cs@.len() - i,
    {
        proof {
            lemma_sp_string_bounds(cs@, i as int, acc@);
        }
        if i >= cs.len() {
            return Err(Error::Syntax { position: i });
        }
        let c = cs[i];
        if c == '"' {
            return Ok((acc, i + 1));
        } else if c == '\\' {
            if i + 1 >= cs.len() {
                return Err(Error::Syntax { position: i });
            }
            let e = cs[i + 1];
            if e == 't' {
                acc.push('\t');
                i = i + 2;
            } else if e == 'r' {
                acc.push('\r');
                i = i + 2;
            } else if e == 'n' {
                acc.push('\n');
                i = i + 2;
            } else if e == 'f' {
                acc.push('\u{0C}');
                i = i + 2;
            } else if e == 'b' {
                acc.push('\u{08}');
                i = i + 2;
            } else if e == 'u' {
                if cs.len() - i < 6 {
                    return Err(Error::Syntax { position: i });
                }
                let h0 = hex_digit(cs[i + 2]);
                let h1 = hex_digit(cs[i + 3]);
                let h2 = hex_digit(cs[i + 4]);
                let h3 = hex_digit(cs[i + 5]);
                match (h0, h1, h2, h3) {
                    (Some(a), Some(b), Some(ccc), Some(d)) => {
                        let code: u32 = a * 4096 + b * 256 + ccc * 16 + d;
                        match char_from_u32(code) {
                            Some(ch) => {
                                acc.push(ch);
                                i = i + 6;
                            },
                            None => {
                                return Err(Error::Syntax { position: i });
                            },
                        }
                    },
                    _ => {
                        return Err(Error::Syntax { position: i });
                    },
                }
            } else {
                acc.push(e);
                i = i + 2;
            }
        } else {
            acc.push(c);
            i = i + 1;
        }
    }
}

/// The character a character-literal name denotes: the four named forms,
/// a single character standing for itself, or `u` with four hex digits.
pub open spec fn sp_charname(t: Seq<char>) -> Option<char> {
    if t =~= seq!['n', 'e', 'w', 'l', 'i', 'n', 'e'] {
        Some('\n')
    } else if t =~= seq!['r', 'e', 't', 'u', 'r', 'n'] {
        Some('\r')
    } else if t =~= seq!['s', 'p', 'a', 'c', 'e'] {
        Some(' ')
    } else if t =~= seq!['t', 'a', 'b'] {
        Some('\t')
    } else if t.len() == 1 {
        Some(t[0])
    } else if t.len() == 5 && t[0] == 'u' && is_hex_char(t[1]) && is_hex_char(t[2]) && is_hex_char(
        t[3],
    ) && is_hex_char(t[4]) {
        let code = hex_val(t[1]) * 4096 + hex_val(t[2]) * 256 + hex_val(t[3]) * 16 + hex_val(t[4]);
        if is_unicode_scalar(code) {
            Some(code as char)
        } else {
            None
        }
    } else {
        None
    }
}

/// Whether `cs` equals a short given word.
fn chars_is(cs: &Vec<char>, lo: usize, hi: usize, w: &Vec<char>) -> (r: bool)
    requires
        lo <= hi <= cs@.len(),
    ensures
        r == (cs@.subrange(lo as int, hi as int) =~= w@),
{
    if hi - lo != w.len() {
        return false;
    }
    let mut k: usize = 0;
    while k < w.len()
        invariant
            lo <= hi <= cs@.len(),
            hi - lo == w@.len(),
            k <= w@.len(),
            forall|j: int| 0 <= j < k ==> cs@.subrange(lo as int, hi as int)[j] == w@[j],
        decreases w@.len() - k,
    {
        if cs[lo + k] != w[k] {
            proof {
                assert(cs@.subrange(lo as int, hi as int)[k as int] != w@[k as int]);
            }
            return false;
        }
        proof {
            assert(cs@.subrange(lo as int, hi as int)[k as int] == w@[k as int]);
        }
        k = k + 1;
    }
    proof {
        assert(cs@.subrange(lo as int, hi as int) =~= w@);
    }
    true
}

/// Exec character-name decoding over a token span of the input.
fn scan_charname(cs: &Vec<char>, lo: usize, hi: usize) -> (r: Option<char>)
    requires
        lo <= hi <= cs@.len(),
    ensures
        r == sp_charname(cs@.subrange(lo as int, hi as int)),
{
    let ghost t = cs@.subrange(lo as int, hi as int);
    let newline_w: Vec<char> = vec!['n', 'e', 'w', 'l', 'i', 'n', 'e'];
    let return_w: Vec<char> = vec!['r', 'e', 't', 'u', 'r', 'n'];
    let space_w: Vec<char> = vec!['s', 'p', 'a', 'c', 'e'];
    let tab_w: Vec<char> = vec!['t', 'a', 'b'];
    if chars_is(cs, lo, hi, &newline_w) {
        Some('\n')
    } else if chars_is(cs, lo, hi, &return_w) {
        Some('\r')
    } else if chars_is(cs, lo, hi, &space_w) {
        Some(' ')
    } else if chars_is(cs, lo, hi, &tab_w) {
        Some('\t')
    } else if hi - lo == 1 {
        proof {
            assert(t[0] == cs@[lo as int]);
        }
        Some(cs[lo])
    } else if hi - lo == 5 && cs[lo] == 'u' {
        proof {
            assert(t[0] == cs@[lo as int]);
            assert(t[1] == cs@[lo + 1]);
            assert(t[2] == cs@[lo + 2]);
            assert(t[3] == cs@[lo + 3]);
            assert(t[4] == cs@[lo + 4]);
        }
        let h0 = hex_digit(cs[lo + 1]);
        let h1 = hex_digit(cs[lo + 2]);
        let h2 = hex_digit(cs[lo + 3]);
        let h3 = hex_digit(cs[lo + 4]);
        match (h0, h1, h2, h3) {
            (Some(a), Some(b), Some(c), Some(d)) => {
                let code: u32 = a * 4096 + b * 256 + c * 16 + d;
                char_from_u32(code)
            },
            _ => None,
        }
    } else {
        None
    }
}

/// Decodes the content of a quoted string literal, quotes included:
/// the named escapes, `\u` with four hex digits, and any other escaped
/// character standing for itself. A malformed or unterminated literal is
/// a syntax error, never an abort.
pub fn unescape_string(s: &str) -> (r: Result<String, Error>)
    ensures
        match r {
            Ok(out) => s@.len() >= 2 && s@[0] == '"' && (sp_string(s@, 1, Seq::empty()) == Some(
                (out@, s@.len() as int),
            )),
            Err(e) => (e is Syntax) && (s@.len() < 2 || s@[0] != '"' || !(exists|c: Seq<char>|
                sp_string(s@, 1, Seq::empty()) == Some((c, s@.len() as int)))),
        },
{
    let cs = str_chars(s);
    if cs.len() < 2 {
        return Err(Error::Syntax { position: 0 });
    }
    if cs[0] != '"' {
        return Err(Error::Syntax { position: 0 });
    }
    match scan_string(&cs, 1) {
        Ok((content, out)) => {
            if out == cs.len() {
                proof {
                    assert(sp_string(s@, 1, Seq::empty()) == Some((content@, s@.len() as int)));
                }
                Ok(string_of_chars(&content))
            } else {
                proof {
                    assert forall|c: Seq<char>|
                        sp_string(s@, 1, Seq::empty()) != Some((c, s@.len() as int)) by {}
                }
                Err(Error::Syntax { position: out })
            }
        },
        Err(e) => Err(e),
    }
}

/// Decodes a character-literal name (the text after the backslash):
/// `newline`, `return`, `space`, `tab`, a single character, or `u` with
/// four hex digits. Anything else is a syntax error, never an abort.
pub fn unescape_character(s: &str) -> (r: Result<char, Error>)
    ensures
        match r {
            Ok(c) => sp_charname(s@) == Some(c),
            Err(e) => (sp_charname(s@) is None) && (e is Syntax),
        },
{
    let cs = str_chars(s);
    proof {
        assert(cs@.subrange(0, cs@.len() as int) =~= s@);
    }
    match scan_charname(&cs, 0, cs.len()) {
        Some(c) => Ok(c),
        None => Err(Error::Syntax { position: 0 }),
    }
}

/// The end of the digit run that starts at `i`.
pub open spec fn sp_digit_run(s: Seq<char>, i: int) -> int
    decreases s.len() - i,
{
    if 0 <= i < s.len() && is_digit_char(s[i]) {
        sp_digit_run(s, i + 1)
    } else if i < 0 {
        0
    } else if i > s.len() {
        s.len() as int
    } else {
        i
    }
}

/// `sp_digit_run` never moves backwards and lands within the text.
pub proof fn lemma_sp_digit_run_bounds(s: Seq<char>, i: int)
    requires
        0 <= i <= s.len(),
    ensures
        i <= sp_digit_run(s, i) <= s.len(),
    decreases s.len() - i,
{
    if i < s.len() && is_digit_char(s[i]) {
        lemma_sp_digit_run_bounds(s, i + 1);
    }
}

/// Exec digit run scan.
fn digit_run(cs: &Vec<char>, start: usize) -> (r: usize)
    requires
        start <= cs@.len(),
    ensures
        r == sp_digit_run(cs@, start as int),
        start <= r <= cs@.len(),
{
    proof {
        lemma_sp_digit_run_bounds(cs@, start as int);
    }
    let mut i: usize = start;
    loop
        invariant
            start <= i <= cs@.len(),
            sp_digit_run(cs@, start as int) == sp_digit_run(cs@, i as int),
        decreases cs@.len() - i,
    {
        proof {
            lemma_sp_digit_run_bounds(cs@, i as int);
        }
        if i >= cs.len() {
            return i;
        }
        let c = cs[i];
        if '0' <= c && c <= '9' {
            i = i + 1;
        } else {
            return i;
        }
    }
}

/// The number the digits `s[i..j]` denote, accumulated onto `acc`.
pub open spec fn sp_digits_val(s: Seq<char>, i: int, j: int, acc: nat) -> nat
    decreases j - i,
{
    if i >= j {
        acc
    } else {
        sp_digits_val(s, i + 1, j, (acc * 10 + digit_val(s[i])) as nat)
    }
}

/// The accumulated value never shrinks.
pub proof fn lemma_sp_digits_val_ge(s: Seq<char>, i: int, j: int, acc: nat)
    requires
        forall|k: int| i <= k < j ==> is_digit_char(#[trigger] s[k]),
    ensures
        sp_digits_val(s, i, j, acc) >= acc,
    decreases j - i,
{
    if i < j {
        assert(digit_val(s[i]) >= 0);
        assert(acc * 10 >= acc) by (nonlinear_arith);
        lemma_sp_digits_val_ge(s, i + 1, j, (acc * 10 + digit_val(s[i])) as nat);
    }
}

/// Exec digit-run evaluation: the exact value when it fits `u64`, or the
/// knowledge that it exceeds the bound.
fn digits_value(cs: &Vec<char>, lo: usize, hi: usize) -> (r: Option<u64>)
    requires
        lo <= hi <= cs@.len(),
        forall|k: int| lo <= k < hi ==> is_digit_char(#[trigger] cs@[k]),
    ensures
        match r {
            Some(v) => v as nat == sp_digits_val(cs@, lo as int, hi as int, 0),
            None => sp_digits_val(cs@, lo as int, hi as int, 0) > u64::MAX,
        },
{
    let mut acc: u64 = 0;
    let mut i: usize = lo;
    while i < hi
        invariant
            lo <= i <= hi <= cs@.len(),
            forall|k: int| lo <= k < hi ==> is_digit_char(#[trigger] cs@[k]),
            sp_digits_val(cs@, lo as int, hi as int, 0) == sp_digits_val(
                cs@,
                i as int,
                hi as int,
                acc as nat,
            ),
        decreases hi - i,
    {
        let c = cs[i];
        let d: u64 = (c as u32 - '0' as u32) as u64;
        proof {
            assert(is_digit_char(cs@[i as int]));
            assert(d == digit_val(cs@[i as int]));
        }
        if acc > (u64::MAX - d) / 10 {
            proof {
                assert(acc * 10 + d > u64::MAX) by (nonlinear_arith)
                    requires
                        acc > (u64::MAX - d) / 10,
                        d <= 9,
                ;
                lemma_sp_digits_val_ge(cs@, i + 1, hi as int, (acc * 10 + d) as nat);
            }
            return None;
        }
        proof {
            assert(acc * 10 + d <= u64::MAX) by (nonlinear_arith)
                requires
                    acc <= (u64::MAX - d) / 10,
                    d <= 9,
            ;
        }
        acc = acc * 10 + d;
        i = i + 1;
    }
    Some(acc)
}

/// One digit folded into a float mantissa: kept while it fits, with
/// dropped integer digits shifting the exponent up and kept fraction
/// digits shifting it down.
pub open spec fn sp_mant_step(m: nat, e: int, d: int, frac: bool) -> (nat, int) {
    if m <= (0xffff_ffff_ffff_ffff - d) / 10 {
        ((m * 10 + d) as nat, if frac { e - 1 } else { e })
    } else {
        (m, if frac { e } else { e + 1 })
    }
}

/// The digits `s[i..j]` folded into a float mantissa.
pub open spec fn sp_mant_fold(s: Seq<char>, i: int, j: int, m: nat, e: int, frac: bool) -> (
    nat,
    int,
)
    decreases j - i,
{
    if i >= j {
        (m, e)
    } else {
        let st = sp_mant_step(m, e, digit_val(s[i]), frac);
        sp_mant_fold(s, i + 1, j, st.0, st.1, frac)
    }
}

/// The folded mantissa stays within `u64`, and the exponent moves by at
/// most one for each digit.
pub proof fn lemma_sp_mant_fold_bounds(s: Seq<char>, i: int, j: int, m: nat, e: int, frac: bool)
    requires
        i <= j,
        m <= 0xffff_ffff_ffff_ffff,
        forall|k: int| i <= k < j ==> is_digit_char(#[trigger] s[k]),
    ensures
        sp_mant_fold(s, i, j, m, e, frac).0 <= 0xffff_ffff_ffff_ffff,
        e - (j - i) <= sp_mant_fold(s, i, j, m, e, frac).1 <= e + (j - i),
    decreases j - i,
{
    if i < j {
        let d = digit_val(s[i]);
        let st = sp_mant_step(m, e, d, frac);
        assert(0 <= d <= 9);
        if m <= (0xffff_ffff_ffff_ffff - d) / 10 {
            assert(m * 10 + d <= 0xffff_ffff_ffff_ffff) by (nonlinear_arith)
                requires
                    m <= (0xffff_ffff_ffff_ffff - d) / 10,
                    0 <= d <= 9,
            ;
        }
        lemma_sp_mant_fold_bounds(s, i + 1, j, st.0, st.1, frac);
    }
}

/// Exec mantissa fold over a digit run.
fn mant_fold(cs: &Vec<char>, lo: usize, hi: usize, m0: u64, e0: i128, frac: bool) -> (r: (
    u64,
    i128,
))
    requires
        lo <= hi <= cs@.len(),
        forall|k: int| lo <= k < hi ==> is_digit_char(#[trigger] cs@[k]),
        -0x1_0000_0000_0000_0000i128 <= e0 <= 0x1_0000_0000_0000_0000i128,
    ensures
        (r.0 as nat, r.1 as int) == sp_mant_fold(cs@, lo as int, hi as int, m0 as nat, e0 as int, frac),
{
    let mut m: u64 = m0;
    let mut e: i128 = e0;
    let mut i: usize = lo;
    while i < hi
        invariant
            lo <= i <= hi <= cs@.len(),
            forall|k: int| lo <= k < hi ==> is_digit_char(#[trigger] cs@[k]),
            e0 - (i - lo) <= e <= e0 + (i - lo),
            -0x1_0000_0000_0000_0000i128 <= e0 <= 0x1_0000_0000_0000_0000i128,
            sp_mant_fold(cs@, lo as int, hi as int, m0 as nat, e0 as int, frac) == sp_mant_fold(
                cs@,
                i as int,
                hi as int,
                m as nat,
                e as int,
                frac,
            ),
        decreases hi - i,
    {
        let c = cs[i];
        let d: u64 = (c as u32 - '0' as u32) as u64;
        proof {
            assert(is_digit_char(cs@[i as int]));
            assert(d == digit_val(cs@[i as int]));
        }
        if m <= (u64::MAX - d) / 10 {
            proof {
                assert(m * 10 + d <= u64::MAX) by (nonlinear_arith)
                    requires
                        m <= (u64::MAX - d) / 10,
                        d <= 9,
                ;
            }
            m = m * 10 + d;
            if frac {
                e = e - 1;
            }
        } else {
            if !frac {
                e = e + 1;
            }
        }
        i = i + 1;
    }
    (m, e)
}

/// Trailing zero digits stripped off a mantissa, the exponent rising to
/// match.
pub open spec fn sp_strip(m: nat, e: int) -> (nat, int)
    decreases m,
{
    if m > 0 && m % 10 == 0 {
        sp_strip(m / 10, e + 1)
    } else {
        (m, e)
    }
}

/// Stripping runs once per trailing zero: the exponent rises by at most
/// the digit count.
pub proof fn lemma_strip_digits(m: nat, e: int)
    ensures
        e <= sp_strip(m, e).1,
        m > 0 ==> sp_strip(m, e).1 <= e + crate::float::n_digits(m),
        m == 0 ==> sp_strip(m, e).1 == e,
    decreases m,
{
    if m > 0 && m % 10 == 0 {
        lemma_strip_digits(m / 10, e + 1);
    }
}

/// Stripping keeps the mantissa in range and free of trailing zeros, and
/// raises the exponent by at most twenty.
pub proof fn lemma_sp_strip(m: nat, e: int)
    requires
        m <= 0xffff_ffff_ffff_ffff,
    ensures
        sp_strip(m, e).0 <= m,
        sp_strip(m, e).0 > 0 ==> sp_strip(m, e).0 % 10 != 0,
        sp_strip(m, e).0 == 0 ==> m == 0,
        m > 0 ==> sp_strip(m, e).0 > 0,
        e <= sp_strip(m, e).1 <= e + 20,
    decreases m,
{
    lemma_strip_digits(m, e);
    if m > 0 {
        crate::float::lemma_n_digits_u64(m as u64);
    }
    if m > 0 && m % 10 == 0 {
        lemma_sp_strip(m / 10, e + 1);
    }
}

/// Exec trailing-zero strip.
fn strip_zeros(m0: u64, e0: i128) -> (r: (u64, i128))
    requires
        -0x2_0000_0000_0000_0000i128 <= e0 <= 0x2_0000_0000_0000_0000i128,
    ensures
        (r.0 as nat, r.1 as int) == sp_strip(m0 as nat, e0 as int),
{
    proof {
        lemma_strip_digits(m0 as nat, e0 as int);
        if m0 > 0 {
            crate::float::lemma_n_digits_u64(m0);
        }
    }
    let mut m: u64 = m0;
    let mut e: i128 = e0;
    loop
        invariant
            sp_strip(m0 as nat, e0 as int) == sp_strip(m as nat, e as int),
            e0 <= e,
            m0 > 0 ==> m > 0,
            m0 == 0 ==> m == 0 && e == e0,
            m > 0 ==> e + crate::float::n_digits(m as nat) <= e0 + 20,
            -0x2_0000_0000_0000_0000i128 <= e0 <= 0x2_0000_0000_0000_0000i128,
        decreases m,
    {
        if m > 0 && m % 10 == 0 {
            proof {
                crate::float::lemma_n_digits_u64(m);
                crate::float::lemma_n_digits_u64(m / 10);
            }
            m = m / 10;
            e = e + 1;
        } else {
            return (m, e);
        }
    }
}

/// The number a token `s[lo..hi]` denotes: a 64-bit integer when there is
/// no fraction and no exponent, a float otherwise. A magnitude outside
/// the integer range, a malformed shape, or an exponent beyond the float
/// bound denotes nothing.
pub open spec fn sp_number(s: Seq<char>, lo: int, hi: int) -> Option<ValueModel> {
    let neg = lo < hi && s[lo] == '-';
    let st = if lo < hi && (s[lo] == '-' || s[lo] == '+') {
        lo + 1
    } else {
        lo
    };
    let ie = sp_digit_run(s, st);
    if ie == st || ie > hi {
        None
    } else if ie == hi {
        let mag = sp_digits_val(s, st, ie, 0);
        if !neg && mag <= 0x7fff_ffff_ffff_ffff {
            Some(ValueModel::Integer(mag as int))
        } else if neg && mag <= 0x8000_0000_0000_0000 {
            Some(ValueModel::Integer(-(mag as int)))
        } else {
            None
        }
    } else {
        sp_float_tail(s, neg, st, ie, hi)
    }
}

/// The float a token denotes, given the end of its integer digits.
pub open spec fn sp_float_tail(s: Seq<char>, neg: bool, st: int, ie: int, hi: int) -> Option<
    ValueModel,
> {
    let has_frac = ie < hi && s[ie] == '.';
    let fs = ie + 1;
    let fe = if has_frac {
        sp_digit_run(s, fs)
    } else {
        ie
    };
    if has_frac && (fe == fs || fe > hi) {
        None
    } else {
        let p = if has_frac {
            fe
        } else {
            ie
        };
        if p == hi {
            if has_frac {
                sp_float_make(s, neg, st, ie, has_frac, fs, fe, 0)
            } else {
                None
            }
        } else if s[p] == 'e' || s[p] == 'E' {
            let eneg = p + 1 < hi && s[p + 1] == '-';
            let es = if p + 1 < hi && (s[p + 1] == '-' || s[p + 1] == '+') {
                p + 2
            } else {
                p + 1
            };
            let ee = sp_digit_run(s, es);
            if ee == es || ee != hi {
                None
            } else {
                let ev = sp_digits_val(s, es, ee, 0);
                if ev > 2000000000 {
                    None
                } else {
                    sp_float_make(
                        s,
                        neg,
                        st,
                        ie,
                        has_frac,
                        fs,
                        fe,
                        if eneg {
                            -(ev as int)
                        } else {
                            ev as int
                        },
                    )
                }
            }
        } else {
            None
        }
    }
}

/// The float built from its digit spans: mantissa digits folded with
/// overflow digits shifting the exponent, trailing zeros stripped, the
/// written exponent added, and the bound enforced.
pub open spec fn sp_float_make(
    s: Seq<char>,
    neg: bool,
    st: int,
    ie: int,
    has_frac: bool,
    fs: int,
    fe: int,
    ex: int,
) -> Option<ValueModel> {
    let f1 = sp_mant_fold(s, st, ie, 0, 0, false);
    let f2 = if has_frac {
        sp_mant_fold(s, fs, fe, f1.0, f1.1, true)
    } else {
        f1
    };
    let st2 = sp_strip(f2.0, f2.1);
    let etotal = st2.1 + ex;
    if st2.0 == 0 {
        Some(ValueModel::Float(FloatValue { negative: false, mantissa: 0, exponent: 0 }))
    } else if -1000000000 <= etotal <= 1000000000 {
        Some(
            ValueModel::Float(
                FloatValue { negative: neg, mantissa: st2.0 as u64, exponent: etotal as i64 },
            ),
        )
    } else {
        None
    }
}

/// Whether some slot of the table holds `t`.
pub open spec fn has_name(tab: Seq<Seq<char>>, t: Seq<char>) -> bool {
    exists|j: int| 0 <= j < tab.len() && tab[j] == t
}

/// Interning at the specification level: the slot of a present text, a
/// fresh slot at the back otherwise.
pub open spec fn intern_model(tab: Seq<Seq<char>>, t: Seq<char>) -> (int, Seq<Seq<char>>) {
    if has_name(tab, t) {
        ((choose|j: int| 0 <= j < tab.len() && tab[j] == t), tab)
    } else {
        (tab.len() as int, tab.push(t))
    }
}

/// The intern contract determines `intern_model` exactly, on a table of
/// distinct texts.
pub proof fn lemma_intern_bridge(pre: Seq<Seq<char>>, post: Seq<Seq<char>>, id: int, t: Seq<char>)
    requires
        crate::symbol::distinct_texts(pre),
        0 <= id < post.len(),
        post[id] == t,
        has_name(pre, t) ==> post == pre,
        !has_name(pre, t) ==> post == pre.push(t) && id == pre.len(),
    ensures
        intern_model(pre, t) == (id, post),
{
    if has_name(pre, t) {
        let j = choose|j: int| 0 <= j < pre.len() && pre[j] == t;
        crate::symbol::lemma_intern_deterministic(pre, t, j, id);
    }
}

/// Interning the same text twice yields the same handle, and the second
/// call leaves the table exactly as the first left it: handles, and the
/// order between any two handles, are stable across repeated calls.
pub proof fn lemma_intern_idempotent(tab: Seq<Seq<char>>, t: Seq<char>)
    requires
        crate::symbol::distinct_texts(tab),
    ensures
        ({
            let first = intern_model(tab, t);
            let second = intern_model(first.1, t);
            second == first
        }),
{
    let first = intern_model(tab, t);
    if has_name(tab, t) {
        assert(first.1 == tab);
    } else {
        let pushed = tab.push(t);
        assert(pushed[tab.len() as int] == t);
        assert(has_name(pushed, t));
        assert(crate::symbol::distinct_texts(pushed)) by {
            assert forall|a: int, b: int|
                0 <= a < b < pushed.len() implies pushed[a] != pushed[b] by {
                if b == tab.len() {
                    assert(pushed[a] == tab[a]);
                    if pushed[a] == t {
                        assert(has_name(tab, t));
                    }
                }
            }
        }
        let j = choose|j: int| 0 <= j < pushed.len() && pushed[j] == t;
        if j != tab.len() {
            assert(pushed[j] == tab[j]);
            assert(has_name(tab, t));
        }
        assert(intern_model(pushed, t) == (tab.len() as int, pushed));
    }
}

/// Inserting at the specification level: a present key keeps its place
/// and takes the new value, an absent key goes to the back.
pub open spec fn map_insert_model(
    es: Seq<(KeyModel, ValueModel)>,
    k: KeyModel,
    v: ValueModel,
) -> Seq<(KeyModel, ValueModel)>
    decreases es,
{
    if es.len() == 0 {
        seq![(k, v)]
    } else if es[0].0 == k {
        seq![(k, v)] + es.drop_first()
    } else {
        seq![es[0]] + map_insert_model(es.drop_first(), k, v)
    }
}

/// The map-insert contract determines `map_insert_model` exactly, on
/// distinct keys.
pub proof fn lemma_map_insert_bridge(es: Seq<(KeyModel, ValueModel)>, k: KeyModel, v: ValueModel)
    requires
        crate::value::map_keys_distinct(es),
    ensures
        map_insert_model(es, k, v) == if exists|i: int| 0 <= i < es.len() && es[i].0 == k {
            es.update(
                (choose|i: int| 0 <= i < es.len() && es[i].0 == k),
                (k, v),
            )
        } else {
            es.push((k, v))
        },
    decreases es,
{
    if es.len() == 0 {
        assert(map_insert_model(es, k, v) =~= es.push((k, v)));
    } else if es[0].0 == k {
        let i = choose|i: int| 0 <= i < es.len() && es[i].0 == k;
        assert(es[0].0 == k);
        if i != 0 {
            assert(false);
        }
        assert(map_insert_model(es, k, v) =~= es.update(0, (k, v)));
    } else {
        let rest = es.drop_first();
        assert(forall|j: int| 0 <= j < rest.len() ==> rest[j] == es[j + 1]);
        lemma_map_insert_bridge(rest, k, v);
        if exists|i: int| 0 <= i < es.len() && es[i].0 == k {
            let i = choose|i: int| 0 <= i < es.len() && es[i].0 == k;
            assert(i > 0);
            assert(rest[i - 1].0 == k);
            assert(exists|j: int| 0 <= j < rest.len() && rest[j].0 == k);
            let j = choose|j: int| 0 <= j < rest.len() && rest[j].0 == k;
            if j != i - 1 {
                assert(false);
            }
            assert(map_insert_model(es, k, v) == seq![es[0]] + rest.update(i - 1, (k, v)));
            assert(map_insert_model(es, k, v) =~= es.update(i, (k, v)));
        } else {
            assert(forall|j: int| 0 <= j < rest.len() ==> !(#[trigger] rest[j].0 == k));
            assert(!(exists|j: int| 0 <= j < rest.len() && rest[j].0 == k));
            assert(map_insert_model(es, k, v) == seq![es[0]] + rest.push((k, v)));
            assert(map_insert_model(es, k, v) =~= es.push((k, v)));
        }
    }
}

/// A character literal at `i` (the backslash): its model and end.
pub open spec fn sp_value_char(s: Seq<char>, i: int) -> Option<(ValueModel, int)> {
    let e = sp_token_end(s, i + 1);
    if i + 1 < e <= s.len() {
        match sp_charname(s.subrange(i + 1, e)) {
            Some(ch) => Some((ValueModel::Character(ch), e)),
            None => None,
        }
    } else if i + 1 < s.len() {
        Some((ValueModel::Character(s[i + 1]), i + 2))
    } else {
        None
    }
}

/// A parsed form: its model, the position after it, and the symbol table
/// as it stands after the names in the form were interned.
pub open spec fn sp_value(s: Seq<char>, i: int, tab: Seq<Seq<char>>) -> Option<
    (ValueModel, int, Seq<Seq<char>>),
>
    decreases s.len() - i, 3int,
{
    if i < 0 || i >= s.len() {
        None
    } else {
        let c = s[i];
        if c == '[' {
            match sp_elems(s, i + 1, tab, Seq::empty(), ']') {
                Some((vs, out, tab2)) => Some((ValueModel::Vector(vs), out, tab2)),
                None => None,
            }
        } else if c == '(' {
            match sp_elems(s, i + 1, tab, Seq::empty(), ')') {
                Some((vs, out, tab2)) => Some((ValueModel::List(vs), out, tab2)),
                None => None,
            }
        } else if c == '{' {
            match sp_entries(s, i + 1, tab, Seq::empty()) {
                Some((es, out, tab2)) => Some((ValueModel::MapOf(es), out, tab2)),
                None => None,
            }
        } else if c == '"' {
            match sp_string(s, i + 1, Seq::empty()) {
                Some((content, out)) => Some((ValueModel::String(content), out, tab)),
                None => None,
            }
        } else if c == '\\' {
            match sp_value_char(s, i) {
                Some((m, out)) => Some((m, out, tab)),
                None => None,
            }
        } else if c == '#' {
            if i + 1 < s.len() && s[i + 1] == '{' {
                match sp_set_elems(s, i + 2, tab, Seq::empty()) {
                    Some((vs, out, tab2)) => Some((ValueModel::SetOf(vs), out, tab2)),
                    None => None,
                }
            } else {
                let e = sp_token_end(s, i + 1);
                if !(i + 1 < e <= s.len()) {
                    None
                } else {
                    let t = s.subrange(i + 1, e);
                    if t[0] == '_' {
                        None
                    } else if t =~= crate::value::uuid_tag_chars() {
                        let k = sp_ws(s, e, false);
                        if k < s.len() && s[k] == '"' {
                            match sp_string(s, k + 1, Seq::empty()) {
                                Some((content, out)) => match crate::foreign::uuid_of_text(
                                    content,
                                ) {
                                    Some(bits) => Some((ValueModel::Uuid(bits as int), out, tab)),
                                    None => None,
                                },
                                None => None,
                            }
                        } else {
                            None
                        }
                    } else if t =~= crate::value::inst_tag_chars() {
                        let k = sp_ws(s, e, false);
                        if k < s.len() && s[k] == '"' {
                            match sp_string(s, k + 1, Seq::empty()) {
                                Some((content, out)) => match crate::foreign::rfc3339_millis_of(
                                    content,
                                ) {
                                    Some(ms) => if crate::value::instant_in_range(ms as int) {
                                        Some((ValueModel::Instant(ms as int), out, tab))
                                    } else {
                                        None
                                    },
                                    None => None,
                                },
                                None => None,
                            }
                        } else {
                            None
                        }
                    } else {
                        let im = intern_model(tab, t);
                        let k = sp_ws(s, e, false);
                        if i + 1 < k < s.len() {
                            match sp_value(s, k, im.1) {
                                Some((v, out, tab2)) => Some(
                                    (ValueModel::Tagged(im.0, Box::new(v)), out, tab2),
                                ),
                                None => None,
                            }
                        } else {
                            None
                        }
                    }
                }
            }
        } else if c == ':' {
            let e = sp_token_end(s, i);
            if i + 1 < e <= s.len() {
                let im = intern_model(tab, s.subrange(i + 1, e));
                Some((ValueModel::Keyword(im.0), e, im.1))
            } else {
                None
            }
        } else if is_token_char(c) {
            let e = sp_token_end(s, i);
            if !(i < e <= s.len()) {
                None
            } else {
                let t = s.subrange(i, e);
                if t =~= seq!['n', 'i', 'l'] {
                    Some((ValueModel::Nil, e, tab))
                } else if t =~= seq!['t', 'r', 'u', 'e'] {
                    Some((ValueModel::Boolean(true), e, tab))
                } else if t =~= seq!['f', 'a', 'l', 's', 'e'] {
                    Some((ValueModel::Boolean(false), e, tab))
                } else if is_digit_char(c) || ((c == '+' || c == '-') && e > i + 1 && is_digit_char(
                    s[i + 1],
                )) {
                    match sp_number(s, i, e) {
                        Some(m) => Some((m, e, tab)),
                        None => None,
                    }
                } else {
                    let im = intern_model(tab, t);
                    Some((ValueModel::Symbol(im.0), e, im.1))
                }
            }
        } else {
            None
        }
    }
}

/// The elements of a vector or list up to the closing bracket, with
/// discard forms parsed and dropped.
pub open spec fn sp_elems(
    s: Seq<char>,
    i: int,
    tab: Seq<Seq<char>>,
    acc: Seq<ValueModel>,
    close: char,
) -> Option<(Seq<ValueModel>, int, Seq<Seq<char>>)>
    decreases s.len() - i, 4int,
{
    let j = sp_ws(s, i, false);
    if j < i || j >= s.len() {
        None
    } else if s[j] == close {
        Some((acc, j + 1, tab))
    } else if s[j] == '#' && j + 1 < s.len() && s[j + 1] == '_' {
        let k = sp_ws(s, j + 2, false);
        if i + 1 < k <= s.len() {
            match sp_value(s, k, tab) {
                Some((_, out, tab2)) => if i + 1 < out <= s.len() {
                    sp_elems(s, out, tab2, acc, close)
                } else {
                    None
                },
                None => None,
            }
        } else {
            None
        }
    } else {
        match sp_value(s, j, tab) {
            Some((v, out, tab2)) => if i < out <= s.len() {
                sp_elems(s, out, tab2, acc.push(v), close)
            } else {
                None
            },
            None => None,
        }
    }
}

/// The elements of a set up to the closing brace: sorted as they arrive,
/// duplicates dropped, discard forms parsed and dropped.
pub open spec fn sp_set_elems(
    s: Seq<char>,
    i: int,
    tab: Seq<Seq<char>>,
    acc: Seq<ValueModel>,
) -> Option<(Seq<ValueModel>, int, Seq<Seq<char>>)>
    decreases s.len() - i, 4int,
{
    let j = sp_ws(s, i, false);
    if j < i || j >= s.len() {
        None
    } else if s[j] == '}' {
        Some((acc, j + 1, tab))
    } else if s[j] == '#' && j + 1 < s.len() && s[j + 1] == '_' {
        let k = sp_ws(s, j + 2, false);
        if i + 1 < k <= s.len() {
            match sp_value(s, k, tab) {
                Some((_, out, tab2)) => if i + 1 < out <= s.len() {
                    sp_set_elems(s, out, tab2, acc)
                } else {
                    None
                },
                None => None,
            }
        } else {
            None
        }
    } else {
        match sp_value(s, j, tab) {
            Some((v, out, tab2)) => if i < out <= s.len() {
                sp_set_elems(s, out, tab2, crate::value::set_insert_model(acc, v))
            } else {
                None
            },
            None => None,
        }
    }
}

/// The entries of a map up to the closing brace: alternating keys and
/// values, each key a permitted kind, later entries replacing earlier
/// ones with the same key.
pub open spec fn sp_entries(
    s: Seq<char>,
    i: int,
    tab: Seq<Seq<char>>,
    acc: Seq<(KeyModel, ValueModel)>,
) -> Option<(Seq<(KeyModel, ValueModel)>, int, Seq<Seq<char>>)>
    decreases s.len() - i, 4int,
{
    let j = sp_ws(s, i, false);
    if j < i || j >= s.len() {
        None
    } else if s[j] == '}' {
        Some((acc, j + 1, tab))
    } else {
        match sp_value(s, j, tab) {
            Some((kv, out1, tab1)) => match crate::value::model_try_key(kv) {
                Some(k) => if i < out1 <= s.len() {
                    let j2 = sp_ws(s, out1, false);
                    if j2 > i && j2 <= s.len() {
                        match sp_value(s, j2, tab1) {
                            Some((vv, out2, tab2)) => if i < out2 <= s.len() {
                                sp_entries(s, out2, tab2, map_insert_model(acc, k, vv))
                            } else {
                                None
                            },
                            None => None,
                        }
                    } else {
                        None
                    }
                } else {
                    None
                },
                None => None,
            },
            None => None,
        }
    }
}

/// The first form of a complete text: leading whitespace, comments and
/// discard forms are passed over, and what follows the form is ignored.
pub open spec fn sp_top(s: Seq<char>, i: int, tab: Seq<Seq<char>>) -> Option<
    (ValueModel, int, Seq<Seq<char>>),
>
    decreases s.len() - i, 5int,
{
    let j = sp_ws(s, i, false);
    if j < i || j >= s.len() {
        None
    } else if s[j] == '#' && j + 1 < s.len() && s[j + 1] == '_' {
        let k = sp_ws(s, j + 2, false);
        if i + 1 < k <= s.len() {
            match sp_value(s, k, tab) {
                Some((_, out, tab2)) => if i + 1 < out <= s.len() {
                    sp_top(s, out, tab2)
                } else {
                    None
                },
                None => None,
            }
        } else {
            None
        }
    } else {
        sp_value(s, j, tab)
    }
}

/// Pushing onto a vector pushes its model.
pub proof fn lemma_seq_model_push(vs: Seq<Value>, v: Value)
    ensures
        crate::value::seq_model(vs.push(v)) =~= crate::value::seq_model(vs).push(
            crate::value::value_model(v),
        ),
{
    crate::value::lemma_seq_model(vs);
    crate::value::lemma_seq_model(vs.push(v));
}

/// Pushing a normal model onto a normal run stays normal.
pub proof fn lemma_models_normal_push(vs: Seq<ValueModel>, m: ValueModel)
    requires
        crate::value::models_normal(vs),
        crate::value::model_normal(m),
    ensures
        crate::value::models_normal(vs.push(m)),
    decreases vs,
{
    if vs.len() == 0 {
        assert(vs.push(m)[0] == m);
        assert(vs.push(m).drop_first() =~= Seq::<ValueModel>::empty());
        assert(crate::value::models_normal(Seq::<ValueModel>::empty()));
    } else {
        assert(vs.push(m)[0] == vs[0]);
        assert(vs.push(m).drop_first() =~= vs.drop_first().push(m));
        lemma_models_normal_push(vs.drop_first(), m);
    }
}

/// Inserting a normal value into normal entries stays normal.
pub proof fn lemma_map_insert_normal(es: Seq<(KeyModel, ValueModel)>, k: KeyModel, v: ValueModel)
    requires
        crate::value::entries_normal(es),
        crate::value::model_normal(v),
    ensures
        crate::value::entries_normal(map_insert_model(es, k, v)),
    decreases es,
{
    if es.len() == 0 {
        let out = seq![(k, v)];
        assert(out[0] == (k, v));
        assert(out.drop_first() =~= Seq::<(KeyModel, ValueModel)>::empty());
        assert(crate::value::entries_normal(Seq::<(KeyModel, ValueModel)>::empty()));
    } else if es[0].0 == k {
        let out = seq![(k, v)] + es.drop_first();
        assert(out[0] == (k, v));
        assert(out.drop_first() =~= es.drop_first());
    } else {
        lemma_map_insert_normal(es.drop_first(), k, v);
        let out = seq![es[0]] + map_insert_model(es.drop_first(), k, v);
        assert(out[0] == es[0]);
        assert(out.drop_first() =~= map_insert_model(es.drop_first(), k, v));
    }
}

/// Exec test for a token character.
fn token_char(c: char) -> (r: bool)
    ensures
        r == is_token_char(c),
{
    !(c == '(' || c == ')' || c == '[' || c == ']' || c == '{' || c == '}' || c == '"'
        || c == ';' || c == '\\' || c == ' ' || c == '\t' || c == '\n' || c == '\r'
        || c == ',')
}

/// Exec number scan over a token span, proved against `sp_number`.
#[verifier::spinoff_prover]
#[verifier::rlimit(100)]
fn number_scan(cs: &Vec<char>, lo: usize, hi: usize) -> (r: Result<Value, Error>)
    requires
        lo < hi <= cs@.len(),
        sp_digit_run(cs@, lo as int) <= hi,
        sp_digit_run(cs@, (lo + 1) as int) <= hi,
    ensures
        match r {
            Ok(v) => sp_number(cs@, lo as int, hi as int) == Some(v@) && crate::value::model_normal(
                v@,
            ),
            Err(_) => sp_number(cs@, lo as int, hi as int) is None,
        },
{
    let neg = cs[lo] == '-';
    let st: usize = if cs[lo] == '-' || cs[lo] == '+' {
        lo + 1
    } else {
        lo
    };
    let ie = digit_run(cs, st);
    proof {
        lemma_digit_run_digits(cs@, st as int);
    }
    if ie == st || ie > hi {
        return Err(Error::Syntax { position: st });
    }
    if ie == hi {
        // integer
        match digits_value(cs, st, ie) {
            Some(mag) => {
                if !neg && mag <= 0x7fff_ffff_ffff_ffffu64 {
                    Ok(Value::Integer(mag as i64))
                } else if neg && mag <= 0x8000_0000_0000_0000u64 {
                    let v: i64 = (mag as i128 * -1) as i64;
                    proof {
                        assert(v as int == -(mag as int));
                    }
                    Ok(Value::Integer(v))
                } else {
                    Err(Error::Syntax { position: lo })
                }
            },
            None => Err(Error::Syntax { position: lo }),
        }
    } else {
        // float
        let has_frac = cs[ie] == '.';
        let fs = ie + 1;
        let fe: usize = if has_frac {
            digit_run(cs, fs)
        } else {
            ie
        };
        proof {
            if has_frac {
                lemma_digit_run_digits(cs@, fs as int);
            }
        }
        if has_frac && (fe == fs || fe > hi) {
            return Err(Error::Syntax { position: ie });
        }
        let p: usize = if has_frac {
            fe
        } else {
            ie
        };
        let mut ex: i128 = 0;
        if p == hi {
            if !has_frac {
                return Err(Error::Syntax { position: p });
            }
        } else if cs[p] == 'e' || cs[p] == 'E' {
            let eneg = p + 1 < hi && cs[p + 1] == '-';
            let es: usize = if p + 1 < hi && (cs[p + 1] == '-' || cs[p + 1] == '+') {
                p + 2
            } else {
                p + 1
            };
            if es > cs.len() {
                return Err(Error::Syntax { position: p });
            }
            let ee = digit_run(cs, es);
            proof {
                lemma_digit_run_digits(cs@, es as int);
            }
            if ee == es || ee != hi {
                return Err(Error::Syntax { position: p });
            }
            match digits_value(cs, es, ee) {
                Some(ev) => {
                    if ev > 2000000000 {
                        return Err(Error::Syntax { position: p });
                    }
                    ex = if eneg {
                        -(ev as i128)
                    } else {
                        ev as i128
                    };
                },
                None => {
                    proof {
                        lemma_sp_digits_val_ge(cs@, es as int, ee as int, 0);
                    }
                    return Err(Error::Syntax { position: p });
                },
            }
        } else {
            return Err(Error::Syntax { position: p });
        }
        // assemble
        let f1 = mant_fold(cs, st, ie, 0, 0, false);
        proof {
            lemma_sp_mant_fold_bounds(cs@, st as int, ie as int, 0, 0, false);
        }
        let f2 = if has_frac {
            proof {
                lemma_sp_mant_fold_bounds(
                    cs@,
                    fs as int,
                    fe as int,
                    f1.0 as nat,
                    f1.1 as int,
                    true,
                );
            }
            mant_fold(cs, fs, fe, f1.0, f1.1, true)
        } else {
            f1
        };
        let st2 = strip_zeros(f2.0, f2.1);
        proof {
            crate::parser::lemma_sp_strip(f2.0 as nat, f2.1 as int);
        }
        let etotal: i128 = st2.1 + ex;
        if st2.0 == 0 {
            Ok(Value::Float(FloatValue { negative: false, mantissa: 0, exponent: 0 }))
        } else if -1000000000 <= etotal && etotal <= 1000000000 {
            Ok(
                Value::Float(
                    FloatValue { negative: neg, mantissa: st2.0, exponent: etotal as i64 },
                ),
            )
        } else {
            Err(Error::Syntax { position: lo })
        }
    }
}

/// Every character of a digit run is a digit.
pub proof fn lemma_digit_run_digits(s: Seq<char>, i: int)
    requires
        0 <= i <= s.len(),
    ensures
        forall|k: int| i <= k < sp_digit_run(s, i) ==> is_digit_char(#[trigger] s[k]),
    decreases s.len() - i,
{
    if i < s.len() && is_digit_char(s[i]) {
        lemma_digit_run_digits(s, i + 1);
    }
}

/// A copy of the characters `cs[lo..hi]`.
fn span_vec(cs: &Vec<char>, lo: usize, hi: usize) -> (r: Vec<char>)
    requires
        lo <= hi <= cs@.len(),
    ensures
        r@ == cs@.subrange(lo as int, hi as int),
{
    let mut r: Vec<char> = Vec::new();
    let mut k: usize = lo;
    while k < hi
        invariant
            lo <= k <= hi <= cs@.len(),
            r@ =~= cs@.subrange(lo as int, k as int),
        decreases hi - k,
    {
        r.push(cs[k]);
        proof {
            assert(r@ =~= cs@.subrange(lo as int, (k + 1) as int));
        }
        k = k + 1;
    }
    r
}

/// Interns the characters `cs[lo..hi]` and relates the outcome to
/// `intern_model`.
fn intern_span(cs: &Vec<char>, lo: usize, hi: usize, store: &mut SymbolStore) -> (sym:
    crate::symbol::Symbol)
    requires
        lo <= hi <= cs@.len(),
        old(store).wf(),
    ensures
        final(store).wf(),
        old(store).names().len() <= final(store).names().len(),
        forall|q: int|
            0 <= q < old(store).names().len() ==> final(store).names()[q] == old(
                store,
            ).names()[q],
        intern_model(old(store).names(), cs@.subrange(lo as int, hi as int)) == (
            sym.id as int,
            final(store).names(),
        ),
    {
    let ghost pre = store.names();
    let ghost t = cs@.subrange(lo as int, hi as int);
    let sv = span_vec(cs, lo, hi);
    let txt = string_of_chars(&sv);
    let sym = store.intern(txt.as_str());
    proof {
        if has_name(pre, t) {
            let j = choose|j: int| 0 <= j < pre.len() && pre[j] == t;
            assert(0 <= j < old(store).names().len() && old(store).names()[j] == t);
            assert(old(store).has_text(t));
        }
        if old(store).has_text(t) {
            let j = choose|j: int|
                0 <= j < old(store).names().len() && old(store).names()[j] == t;
            assert(0 <= j < pre.len() && pre[j] == t);
            assert(has_name(pre, t));
        }
        lemma_intern_bridge(pre, store.names(), sym.id as int, t);
    }
    sym
}

/// One parsed form from position `i` (not inside whitespace), its model
/// pinned by `sp_value`.
#[verifier::spinoff_prover]
#[verifier::rlimit(100)]
pub fn parse_value(cs: &Vec<char>, i: usize, store: &mut SymbolStore) -> (r: Result<
    (Value, usize),
    Error,
>)
    requires
        i <= cs@.len(),
        old(store).wf(),
    ensures
        final(store).wf(),
        old(store).names().len() <= final(store).names().len(),
        forall|q: int|
            0 <= q < old(store).names().len() ==> final(store).names()[q] == old(
                store,
            ).names()[q],
        match r {
            Ok((v, out)) => sp_value(cs@, i as int, old(store).names()) == Some(
                (v@, out as int, final(store).names()),
            ) && i < out <= cs@.len() && crate::value::model_normal(v@),
            Err(_) => sp_value(cs@, i as int, old(store).names()) is None,
        },
    decreases cs@.len() - i, 3int,
{
    if i >= cs.len() {
        return Err(Error::Syntax { position: i });
    }
    let c = cs[i];
    if c == '[' {
        match parse_elems(cs, i + 1, store, ']') {
            Ok((vs, out)) => Ok((Value::Vector(vs), out)),
            Err(e) => Err(e),
        }
    } else if c == '(' {
        match parse_elems(cs, i + 1, store, ')') {
            Ok((vs, out)) => Ok((Value::List(vs), out)),
            Err(e) => Err(e),
        }
    } else if c == '{' {
        match parse_entries(cs, i + 1, store) {
            Ok((m, out)) => Ok((Value::MapOf(m), out)),
            Err(e) => Err(e),
        }
    } else if c == '"' {
        match scan_string(cs, i + 1) {
            Ok((content, out)) => Ok((Value::String(string_of_chars(&content)), out)),
            Err(e) => Err(e),
        }
    } else if c == '\\' {
        parse_char_form(cs, i)
    } else if c == '#' {
        parse_hash_form(cs, i, store)
    } else {
        parse_token_form(cs, i, store)
    }
}

/// A character literal, from its backslash.
fn parse_char_form(cs: &Vec<char>, i: usize) -> (r: Result<(Value, usize), Error>)
    requires
        i < cs@.len(),
        cs@[i as int] == '\\',
    ensures
        match r {
            Ok((v, out)) => ({
                let sp = sp_value_char(cs@, i as int);
                sp == Some((v@, out as int)) && i < out <= cs@.len()
                    && crate::value::model_normal(v@)
            }),
            Err(_) => sp_value_char(cs@, i as int) is None,
        },
{
    if i >= cs.len() {
        proof {
            assert(false);
        }
        return Err(Error::Syntax { position: i });
    }
    let e = token_end(cs, i + 1);
    if e > i + 1 {
        match scan_charname(cs, i + 1, e) {
            Some(ch) => {
                proof {
                    lemma_char_view(ch);
                }
                Ok((Value::Character(ch), e))
            },
            None => Err(Error::Syntax { position: i }),
        }
    } else if i + 1 < cs.len() {
        proof {
            lemma_char_view(cs@[i + 1]);
        }
        Ok((Value::Character(cs[i + 1]), i + 2))
    } else {
        Err(Error::Syntax { position: i })
    }
}

/// A hash form: a set, or a tagged literal with the two built-in tags
/// resolved eagerly.
#[verifier::spinoff_prover]
#[verifier::rlimit(100)]
fn parse_hash_form(cs: &Vec<char>, i: usize, store: &mut SymbolStore) -> (r: Result<
    (Value, usize),
    Error,
>)
    requires
        i < cs@.len(),
        cs@[i as int] == '#',
        old(store).wf(),
    ensures
        final(store).wf(),
        old(store).names().len() <= final(store).names().len(),
        forall|q: int|
            0 <= q < old(store).names().len() ==> final(store).names()[q] == old(
                store,
            ).names()[q],
        match r {
            Ok((v, out)) => sp_value(cs@, i as int, old(store).names()) == Some(
                (v@, out as int, final(store).names()),
            ) && i < out <= cs@.len() && crate::value::model_normal(v@),
            Err(_) => sp_value(cs@, i as int, old(store).names()) is None,
        },
    decreases cs@.len() - i, 2int,
{
    if i >= cs.len() {
        proof {
            assert(false);
        }
        return Err(Error::Syntax { position: i });
    }
    if i + 1 < cs.len() && cs[i + 1] == '{' {
            match parse_set_elems(cs, i + 2, store) {
                Ok((vs, out)) => Ok((Value::SetOf(vs), out)),
                Err(e) => Err(e),
            }
        } else {
            let e = token_end(cs, i + 1);
            if !(e > i + 1) {
                return Err(Error::Syntax { position: i });
            }
            let ghost t = cs@.subrange((i + 1) as int, e as int);
            let uuid_w: Vec<char> = vec!['u', 'u', 'i', 'd'];
            let inst_w: Vec<char> = vec!['i', 'n', 's', 't'];
            proof {
                assert(uuid_w@ =~= crate::value::uuid_tag_chars());
                assert(inst_w@ =~= crate::value::inst_tag_chars());
                assert(t[0] == cs@[(i + 1) as int]);
            }
            if cs[i + 1] == '_' {
                Err(Error::Syntax { position: i })
            } else if chars_is(cs, i + 1, e, &uuid_w) {
                let k = ws_skip(cs, e);
                if k < cs.len() && cs[k] == '"' {
                    match scan_string(cs, k + 1) {
                        Ok((content, out)) => {
                            let txt = string_of_chars(&content);
                            match crate::foreign::parse_uuid(txt.as_str()) {
                                Some(bits) => Ok(
                                    (Value::Uuid(crate::value::UuidValue { bits }), out),
                                ),
                                None => Err(Error::InvalidUuid),
                            }
                        },
                        Err(e2) => Err(e2),
                    }
                } else {
                    Err(Error::Syntax { position: e })
                }
            } else if chars_is(cs, i + 1, e, &inst_w) {
                let k = ws_skip(cs, e);
                if k < cs.len() && cs[k] == '"' {
                    match scan_string(cs, k + 1) {
                        Ok((content, out)) => {
                            let txt = string_of_chars(&content);
                            match crate::foreign::parse_rfc3339(txt.as_str()) {
                                Some(ms) => {
                                    if crate::value::INSTANT_MILLIS_MIN <= ms
                                        && ms <= crate::value::INSTANT_MILLIS_MAX {
                                        Ok(
                                            (
                                                Value::Instant(
                                                    crate::value::Instant { millis: ms },
                                                ),
                                                out,
                                            ),
                                        )
                                    } else {
                                        Err(Error::InvalidInstant)
                                    }
                                },
                                None => Err(Error::InvalidInstant),
                            }
                        },
                        Err(e2) => Err(e2),
                    }
                } else {
                    Err(Error::Syntax { position: e })
                }
            } else {
                let sym = intern_span(cs, i + 1, e, store);
                let k = ws_skip(cs, e);
                if i + 1 < k && k < cs.len() {
                    match parse_value(cs, k, store) {
                        Ok((v, out)) => Ok((Value::Tagged(sym, Box::new(v)), out)),
                        Err(e2) => Err(e2),
                    }
                } else {
                    Err(Error::Syntax { position: k })
                }
            }
        }
}

/// A keyword, a symbol, one of the three word literals, or a number.
#[verifier::spinoff_prover]
#[verifier::rlimit(100)]
fn parse_token_form(cs: &Vec<char>, i: usize, store: &mut SymbolStore) -> (r: Result<
    (Value, usize),
    Error,
>)
    requires
        i < cs@.len(),
        cs@[i as int] != '[' && cs@[i as int] != '(' && cs@[i as int] != '{',
        cs@[i as int] != '"' && cs@[i as int] != '\\' && cs@[i as int] != '#',
        old(store).wf(),
    ensures
        final(store).wf(),
        old(store).names().len() <= final(store).names().len(),
        forall|q: int|
            0 <= q < old(store).names().len() ==> final(store).names()[q] == old(
                store,
            ).names()[q],
        match r {
            Ok((v, out)) => sp_value(cs@, i as int, old(store).names()) == Some(
                (v@, out as int, final(store).names()),
            ) && i < out <= cs@.len() && crate::value::model_normal(v@),
            Err(_) => sp_value(cs@, i as int, old(store).names()) is None,
        },
    decreases cs@.len() - i, 2int,
{
    if i >= cs.len() {
        proof {
            assert(false);
        }
        return Err(Error::Syntax { position: i });
    }
    let c = cs[i];
    if c == ':' {
        let e = token_end(cs, i);
        if e > i + 1 {
            let sym = intern_span(cs, i + 1, e, store);
            Ok((Value::Keyword(sym), e))
        } else {
            Err(Error::Syntax { position: i })
        }
    } else if token_char(c) {
        let e = token_end(cs, i);
        proof {
            assert(is_token_char(cs@[i as int]));
            assert(sp_token_end(cs@, i as int) == sp_token_end(cs@, i + 1));
            lemma_sp_token_end_bounds(cs@, i + 1);
            assert(e > i);
        }
        let ghost t = cs@.subrange(i as int, e as int);
        let nil_w: Vec<char> = vec!['n', 'i', 'l'];
        let true_w: Vec<char> = vec!['t', 'r', 'u', 'e'];
        let false_w: Vec<char> = vec!['f', 'a', 'l', 's', 'e'];
        proof {
            assert(nil_w@ =~= seq!['n', 'i', 'l']);
            assert(true_w@ =~= seq!['t', 'r', 'u', 'e']);
            assert(false_w@ =~= seq!['f', 'a', 'l', 's', 'e']);
        }
        if chars_is(cs, i, e, &nil_w) {
            Ok((Value::Nil, e))
        } else if chars_is(cs, i, e, &true_w) {
            Ok((Value::Boolean(true), e))
        } else if chars_is(cs, i, e, &false_w) {
            Ok((Value::Boolean(false), e))
        } else {
            let is_num = ('0' <= c && c <= '9') || ((c == '+' || c == '-') && e > i + 1 && '0'
                <= cs[i + 1] && cs[i + 1] <= '9');
            if is_num {
                proof {
                    lemma_sp_digit_run_bounds(cs@, i as int);
                    lemma_sp_digit_run_bounds(cs@, (i + 1) as int);
                    lemma_digit_run_within_token(cs@, i as int);
                    lemma_digit_run_within_token(cs@, (i + 1) as int);
                }
                match number_scan(cs, i, e) {
                    Ok(v) => Ok((v, e)),
                    Err(e2) => Err(e2),
                }
            } else {
                let sym = intern_span(cs, i, e, store);
                Ok((Value::Symbol(sym), e))
            }
        }
    } else {
        Err(Error::Syntax { position: i })
    }
}

/// A digit run starting inside a token ends at or before the token does.
pub proof fn lemma_digit_run_within_token(s: Seq<char>, i: int)
    requires
        0 <= i <= s.len(),
    ensures
        sp_digit_run(s, i) <= sp_token_end(s, i),
    decreases s.len() - i,
{
    if i < s.len() && is_digit_char(s[i]) {
        assert(is_token_char(s[i]));
        lemma_digit_run_within_token(s, i + 1);
    } else {
        lemma_sp_digit_run_bounds(s, i);
        lemma_sp_token_end_bounds(s, i);
    }
}

/// The elements of a vector or list, mirrored on `sp_elems`.
#[verifier::rlimit(100)]
fn parse_elems(cs: &Vec<char>, start: usize, store: &mut SymbolStore, close: char) -> (r: Result<
    (Vec<Value>, usize),
    Error,
>)
    requires
        start <= cs@.len(),
        old(store).wf(),
    ensures
        final(store).wf(),
        old(store).names().len() <= final(store).names().len(),
        forall|q: int|
            0 <= q < old(store).names().len() ==> final(store).names()[q] == old(
                store,
            ).names()[q],
        match r {
            Ok((vs, out)) => sp_elems(cs@, start as int, old(store).names(), Seq::empty(), close)
                == Some((crate::value::seq_model(vs@), out as int, final(store).names()))
                && start < out <= cs@.len() && crate::value::models_normal(
                crate::value::seq_model(vs@),
            ),
            Err(_) => sp_elems(cs@, start as int, old(store).names(), Seq::empty(), close)
                is None,
        },
    decreases cs@.len() - start, 4int,
{
    let mut acc: Vec<Value> = Vec::new();
    let mut pos: usize = start;
    proof {
        assert(crate::value::seq_model(acc@) =~= Seq::<ValueModel>::empty());
        assert(crate::value::models_normal(Seq::<ValueModel>::empty()));
    }
    loop
        invariant
            start <= pos <= cs@.len(),
            store.wf(),
            old(store).names().len() <= store.names().len(),
            forall|q: int|
                0 <= q < old(store).names().len() ==> store.names()[q] == old(
                    store,
                ).names()[q],
            crate::value::models_normal(crate::value::seq_model(acc@)),
            sp_elems(cs@, start as int, old(store).names(), Seq::empty(), close) == sp_elems(
                cs@,
                pos as int,
                store.names(),
                crate::value::seq_model(acc@),
                close,
            ),
        decreases cs@.len() - pos,
    {
        let j = ws_skip(cs, pos);
        if j >= cs.len() {
            return Err(Error::Syntax { position: j });
        }
        let cj = cs[j];
        if cj == close {
            return Ok((acc, j + 1));
        }
        if cj == '#' && j + 1 < cs.len() && cs[j + 1] == '_' {
            let k = ws_skip(cs, j + 2);
            match parse_value(cs, k, store) {
                Ok((_, out)) => {
                    pos = out;
                },
                Err(e) => {
                    return Err(e);
                },
            }
        } else {
            let ghost accm = crate::value::seq_model(acc@);
            match parse_value(cs, j, store) {
                Ok((v, out)) => {
                    proof {
                        lemma_seq_model_push(acc@, v);
                        lemma_models_normal_push(accm, v@);
                    }
                    acc.push(v);
                    pos = out;
                },
                Err(e) => {
                    return Err(e);
                },
            }
        }
    }
}

/// The elements of a set, mirrored on `sp_set_elems`.
#[verifier::rlimit(100)]
fn parse_set_elems(cs: &Vec<char>, start: usize, store: &mut SymbolStore) -> (r: Result<
    (Vec<Value>, usize),
    Error,
>)
    requires
        start <= cs@.len(),
        old(store).wf(),
    ensures
        final(store).wf(),
        old(store).names().len() <= final(store).names().len(),
        forall|q: int|
            0 <= q < old(store).names().len() ==> final(store).names()[q] == old(
                store,
            ).names()[q],
        match r {
            Ok((vs, out)) => sp_set_elems(cs@, start as int, old(store).names(), Seq::empty())
                == Some((crate::value::seq_model(vs@), out as int, final(store).names()))
                && start < out <= cs@.len() && crate::value::models_normal(
                crate::value::seq_model(vs@),
            ) && crate::value::models_sorted(crate::value::seq_model(vs@)),
            Err(_) => sp_set_elems(cs@, start as int, old(store).names(), Seq::empty()) is None,
        },
    decreases cs@.len() - start, 4int,
{
    let mut acc: Vec<Value> = Vec::new();
    let mut pos: usize = start;
    proof {
        assert(crate::value::seq_model(acc@) =~= Seq::<ValueModel>::empty());
        assert(crate::value::models_normal(Seq::<ValueModel>::empty()));
    }
    loop
        invariant
            start <= pos <= cs@.len(),
            store.wf(),
            old(store).names().len() <= store.names().len(),
            forall|q: int|
                0 <= q < old(store).names().len() ==> store.names()[q] == old(
                    store,
                ).names()[q],
            crate::value::models_normal(crate::value::seq_model(acc@)),
            crate::value::models_sorted(crate::value::seq_model(acc@)),
            sp_set_elems(cs@, start as int, old(store).names(), Seq::empty()) == sp_set_elems(
                cs@,
                pos as int,
                store.names(),
                crate::value::seq_model(acc@),
            ),
        decreases cs@.len() - pos,
    {
        let j = ws_skip(cs, pos);
        if j >= cs.len() {
            return Err(Error::Syntax { position: j });
        }
        let cj = cs[j];
        if cj == '}' {
            return Ok((acc, j + 1));
        }
        if cj == '#' && j + 1 < cs.len() && cs[j + 1] == '_' {
            let k = ws_skip(cs, j + 2);
            match parse_value(cs, k, store) {
                Ok((_, out)) => {
                    pos = out;
                },
                Err(e) => {
                    return Err(e);
                },
            }
        } else {
            match parse_value(cs, j, store) {
                Ok((v, out)) => {
                    crate::value::set_insert(&mut acc, v);
                    pos = out;
                },
                Err(e) => {
                    return Err(e);
                },
            }
        }
    }
}

/// The entries of a map, mirrored on `sp_entries`.
#[verifier::rlimit(100)]
fn parse_entries(cs: &Vec<char>, start: usize, store: &mut SymbolStore) -> (r: Result<
    (crate::value::ValueMap, usize),
    Error,
>)
    requires
        start <= cs@.len(),
        old(store).wf(),
    ensures
        final(store).wf(),
        old(store).names().len() <= final(store).names().len(),
        forall|q: int|
            0 <= q < old(store).names().len() ==> final(store).names()[q] == old(
                store,
            ).names()[q],
        match r {
            Ok((m, out)) => sp_entries(cs@, start as int, old(store).names(), Seq::empty())
                == Some((m@, out as int, final(store).names())) && start < out <= cs@.len()
                && crate::value::entries_normal(m@) && crate::value::map_keys_distinct(m@),
            Err(_) => sp_entries(cs@, start as int, old(store).names(), Seq::empty()) is None,
        },
    decreases cs@.len() - start, 4int,
{
    let mut m = crate::value::ValueMap::new();
    let mut pos: usize = start;
    proof {
        assert(m@ =~= Seq::<(KeyModel, ValueModel)>::empty());
        assert(crate::value::entries_normal(Seq::<(KeyModel, ValueModel)>::empty()));
    }
    loop
        invariant
            start <= pos <= cs@.len(),
            store.wf(),
            old(store).names().len() <= store.names().len(),
            forall|q: int|
                0 <= q < old(store).names().len() ==> store.names()[q] == old(
                    store,
                ).names()[q],
            crate::value::entries_normal(m@),
            crate::value::map_keys_distinct(m@),
            sp_entries(cs@, start as int, old(store).names(), Seq::empty()) == sp_entries(
                cs@,
                pos as int,
                store.names(),
                m@,
            ),
        decreases cs@.len() - pos,
    {
        let j = ws_skip(cs, pos);
        if j >= cs.len() {
            return Err(Error::Syntax { position: j });
        }
        if cs[j] == '}' {
            return Ok((m, j + 1));
        }
        match parse_value(cs, j, store) {
            Ok((kv, out1)) => {
                match crate::value::try_key(kv) {
                    Ok(k) => {
                        let j2 = ws_skip(cs, out1);
                        match parse_value(cs, j2, store) {
                            Ok((vv, out2)) => {
                                let ghost kept = m@;
                                proof {
                                    lemma_map_insert_bridge(kept, k@, vv@);
                                    lemma_map_insert_normal(kept, k@, vv@);
                                }
                                m.insert(k, vv);
                                pos = out2;
                            },
                            Err(e) => {
                                return Err(e);
                            },
                        }
                    },
                    Err(e) => {
                        return Err(e);
                    },
                }
            },
            Err(e) => {
                return Err(e);
            },
        }
    }
}

/// Parses one complete text into one value: leading whitespace, comments
/// and discard forms are passed over, the first well-formed form becomes
/// the result, and anything after it is ignored. Every name read along
/// the way is interned into `store`.
pub fn parse_edn(input: &str, store: &mut SymbolStore) -> (r: Result<Value, Error>)
    requires
        old(store).wf(),
    ensures
        final(store).wf(),
        old(store).names().len() <= final(store).names().len(),
        forall|q: int|
            0 <= q < old(store).names().len() ==> final(store).names()[q] == old(
                store,
            ).names()[q],
        match r {
            Ok(v) => ({
                let sp = sp_top(input@, 0, old(store).names());
                &&& (sp is Some)
                &&& (sp->0).0 == v@
                &&& (sp->0).2 == final(store).names()
                &&& crate::value::model_normal(v@)
            }),
            Err(_) => sp_top(input@, 0, old(store).names()) is None,
        },
{
    let cs = str_chars(input);
    let mut pos: usize = 0;
    loop
        invariant
            pos <= cs@.len(),
            cs@ == input@,
            store.wf(),
            old(store).names().len() <= store.names().len(),
            forall|q: int|
                0 <= q < old(store).names().len() ==> store.names()[q] == old(
                    store,
                ).names()[q],
            sp_top(input@, 0, old(store).names()) == sp_top(cs@, pos as int, store.names()),
        decreases cs@.len() - pos,
    {
        let j = ws_skip(&cs, pos);
        if j >= cs.len() {
            return Err(Error::Syntax { position: j });
        }
        if cs[j] == '#' && j + 1 < cs.len() && cs[j + 1] == '_' {
            let k = ws_skip(&cs, j + 2);
            match parse_value(&cs, k, store) {
                Ok((_, out)) => {
                    pos = out;
                },
                Err(e) => {
                    return Err(e);
                },
            }
        } else {
            match parse_value(&cs, j, store) {
                Ok((v, _)) => {
                    return Ok(v);
                },
                Err(e) => {
                    return Err(e);
                },
            }
        }
    }
}

} // verus!
