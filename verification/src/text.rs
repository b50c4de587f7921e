//! Character-level helpers shared by the parser, the printer and the
//! symbol store: decimal digit rendering with its injectivity lemmas, and
//! verified conversions between `str`, `String` and `Vec<char>`.

use vstd::prelude::*;
use vstd::string::StrSliceExecFns;

verus! {

broadcast use vstd::string::group_string_axioms;

/// The character for one decimal digit.
pub open spec fn digit_to_char(d: int) -> char {
    if d == 0 {
        '0'
    } else if d == 1 {
        '1'
    } else if d == 2 {
        '2'
    } else if d == 3 {
        '3'
    } else if d == 4 {
        '4'
    } else if d == 5 {
        '5'
    } else if d == 6 {
        '6'
    } else if d == 7 {
        '7'
    } else if d == 8 {
        '8'
    } else {
        '9'
    }
}

/// Whether `c` is a decimal digit character.
pub open spec fn is_digit_char(c: char) -> bool {
    '0' <= c <= '9'
}

/// The numeric value of a digit character.
pub open spec fn digit_val(c: char) -> int {
    c as int - '0' as int
}

/// Exec digit rendering, one decimal digit.
pub fn digit_char(d: u64) -> (r: char)
    requires
        d < 10,
    ensures
        r == digit_to_char(d as int),
        is_digit_char(r),
        digit_val(r) == d,
{
    match d {
        0 => '0',
        1 => '1',
        2 => '2',
        3 => '3',
        4 => '4',
        5 => '5',
        6 => '6',
        7 => '7',
        8 => '8',
        _ => '9',
    }
}

/// The decimal digit characters of `m`, most significant first.
pub open spec fn dec_digits(m: nat) -> Seq<char>
    decreases m,
{
    if m < 10 {
        seq![digit_to_char(m as int)]
    } else {
        dec_digits(m / 10).push(digit_to_char((m % 10) as int))
    }
}

/// Every character of a decimal rendering is a digit, and its length is
/// at least one.
pub proof fn lemma_dec_digits_shape(m: nat)
    ensures
        dec_digits(m).len() >= 1,
        m >= 10 ==> dec_digits(m).len() >= 2,
        forall|i: int| 0 <= i < dec_digits(m).len() ==> is_digit_char(#[trigger] dec_digits(m)[i]),
    decreases m,
{
    if m >= 10 {
        lemma_dec_digits_shape(m / 10);
    }
}

/// A number renders to exactly as many characters as it has digits.
pub proof fn lemma_dec_digits_len(m: nat)
    ensures
        dec_digits(m).len() == crate::float::n_digits(m),
    decreases m,
{
    if m >= 10 {
        lemma_dec_digits_len(m / 10);
    }
}

/// Distinct numbers render to distinct digit strings.
pub proof fn lemma_dec_digits_injective(a: nat, b: nat)
    requires
        dec_digits(a) == dec_digits(b),
    ensures
        a == b,
    decreases a + b,
{
    lemma_dec_digits_shape(a);
    lemma_dec_digits_shape(b);
    if a < 10 && b < 10 {
        assert(dec_digits(a)[0] == digit_to_char(a as int));
        assert(dec_digits(b)[0] == digit_to_char(b as int));
    } else if a < 10 {
        assert(dec_digits(a).len() == 1);
        assert(false);
    } else if b < 10 {
        assert(dec_digits(b).len() == 1);
        assert(false);
    } else {
        let da = dec_digits(a / 10);
        let db = dec_digits(b / 10);
        assert(dec_digits(a).last() == digit_to_char((a % 10) as int));
        assert(dec_digits(b).last() == digit_to_char((b % 10) as int));
        assert(a % 10 == b % 10);
        assert(da =~= dec_digits(a).drop_last());
        assert(db =~= dec_digits(b).drop_last());
        lemma_dec_digits_injective(a / 10, b / 10);
    }
}

/// Exec decimal rendering of an unsigned number.
pub fn u64_to_digits(m: u64) -> (r: Vec<char>)
    ensures
        r@ == dec_digits(m as nat),
    decreases m,
{
    if m < 10 {
        let mut v: Vec<char> = Vec::new();
        v.push(digit_char(m));
        proof {
            assert(v@ =~= dec_digits(m as nat));
        }
        v
    } else {
        let mut v = u64_to_digits(m / 10);
        v.push(digit_char(m % 10));
        v
    }
}

/// The decimal rendering of a signed number: a minus sign, then digits.
pub open spec fn int_digits(i: int) -> Seq<char> {
    if i < 0 {
        seq!['-'] + dec_digits((-i) as nat)
    } else {
        dec_digits(i as nat)
    }
}

/// Exec decimal rendering of a signed number.
pub fn i64_to_digits(i: i64) -> (r: Vec<char>)
    ensures
        r@ == int_digits(i as int),
{
    if i < 0 {
        let mag: u64 = (-(i as i128)) as u64;
        let digits = u64_to_digits(mag);
        let mut v: Vec<char> = Vec::new();
        v.push('-');
        let mut j: usize = 0;
        while j < digits.len()
            invariant
                j <= digits.len(),
                v@ =~= seq!['-'] + digits@.take(j as int),
            decreases digits.len() - j,
        {
            v.push(digits[j]);
            j = j + 1;
        }
        proof {
            assert(digits@.take(digits@.len() as int) =~= digits@);
        }
        v
    } else {
        u64_to_digits(i as u64)
    }
}

/// The characters of a string slice, in order.
pub fn str_chars(s: &str) -> (r: Vec<char>)
    ensures
        r@ == s@,
{
    let n = s.unicode_len();
    let mut r: Vec<char> = Vec::new();
    let mut i: usize = 0;
    while i < n
        invariant
            i <= n,
            n == s@.len(),
            r@ =~= s@.take(i as int),
        decreases n - i,
    {
        r.push(s.get_char(i));
        i = i + 1;
    }
    proof {
        assert(s@.take(n as int) =~= s@);
    }
    r
}

/// Whether two character vectors hold the same characters.
pub fn chars_eq(a: &Vec<char>, b: &Vec<char>) -> (r: bool)
    ensures
        r == (a@ == b@),
{
    if a.len() != b.len() {
        return false;
    }
    let mut i: usize = 0;
    while i < a.len()
        invariant
            i <= a.len(),
            a@.len() == b@.len(),
            forall|j: int| 0 <= j < i ==> a@[j] == b@[j],
        decreases a.len() - i,
    {
        if a[i] != b[i] {
            return false;
        }
        i = i + 1;
    }
    proof {
        assert(a@ =~= b@);
    }
    true
}

/// Whether two string slices hold the same characters.
pub fn str_eq(a: &str, b: &str) -> (r: bool)
    ensures
        r == (a@ == b@),
{
    let va = str_chars(a);
    let vb = str_chars(b);
    chars_eq(&va, &vb)
}

/// Relies on `String`'s `FromIterator` impl: collecting characters yields
/// the string of exactly those characters, in order.
#[verifier::external_body]
pub fn string_of_chars(v: &Vec<char>) -> (r: String)
    ensures
        r@ == v@,
{
    v.iter().collect()
}

/// Whether a code point is a Unicode scalar value, the domain of `char`.
pub open spec fn is_unicode_scalar(x: int) -> bool {
    (0 <= x < 0xD800) || (0xE000 <= x <= 0x10FFFF)
}

/// Relies on `char::from_u32` of std: it returns the character with the
/// given code point exactly when that code point is a Unicode scalar
/// value.
#[verifier::external_body]
pub fn char_from_u32(x: u32) -> (r: Option<char>)
    ensures
        (r is Some) <==> is_unicode_scalar(x as int),
        (r is Some) ==> r->0 == x as char,
{
    char::from_u32(x)
}

/// Whether `c` is a hexadecimal digit.
pub open spec fn is_hex_char(c: char) -> bool {
    ('0' <= c <= '9') || ('a' <= c <= 'f') || ('A' <= c <= 'F')
}

/// The value of a hexadecimal digit.
pub open spec fn hex_val(c: char) -> int {
    if '0' <= c <= '9' {
        c as int - '0' as int
    } else if 'a' <= c <= 'f' {
        c as int - 'a' as int + 10
    } else {
        c as int - 'A' as int + 10
    }
}

/// Exec hexadecimal digit test and value.
pub fn hex_digit(c: char) -> (r: Option<u32>)
    ensures
        (r is Some) <==> is_hex_char(c),
        (r is Some) ==> r->0 == hex_val(c) && r->0 < 16,
{
    if '0' <= c && c <= '9' {
        Some(c as u32 - '0' as u32)
    } else if 'a' <= c && c <= 'f' {
        Some(c as u32 - 'a' as u32 + 10)
    } else if 'A' <= c && c <= 'F' {
        Some(c as u32 - 'A' as u32 + 10)
    } else {
        None
    }
}

} // verus!
