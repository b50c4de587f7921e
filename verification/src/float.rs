//! Floating-point literals held exactly as decimal components.
//!
//! A `FloatValue` denotes the number `(-1)^negative * mantissa * 10^exponent`.
//! The representation is kept normalized (no trailing zero digits in the
//! mantissa, a canonical zero), so two `FloatValue`s denote the same number
//! exactly when their fields are equal. Equality, ordering and hashing are
//! therefore total and mutually consistent; the not-a-number and infinite
//! shapes of machine floats have no representation here at all, so the
//! order needs no special case for them.

use vstd::prelude::*;
use vstd::arithmetic::power::pow;
use vstd::arithmetic::power::lemma_pow_adds;
use vstd::arithmetic::power::lemma_pow_positive;
use vstd::arithmetic::power::lemma_pow_increases;
use vstd::arithmetic::power::lemma_pow_strictly_increases;
use vstd::arithmetic::mul::lemma_mul_inequality;
use vstd::arithmetic::mul::lemma_mul_strict_inequality;

verus! {

/// Largest magnitude the decimal exponent of a float literal may take.
pub const FLOAT_EXPONENT_BOUND: i64 = 1000000000;

/// The outcome of a comparison.
#[derive(Clone, Copy, PartialEq, Eq, Structural, Debug)]
pub enum CmpResult {
    Lt,
    Eq,
    Gt,
}

/// A float literal: `(-1)^negative * mantissa * 10^exponent`, held exactly.
#[derive(Clone, Copy, PartialEq, Eq, Structural, Hash, Debug)]
pub struct FloatValue {
    pub negative: bool,
    pub mantissa: u64,
    pub exponent: i64,
}

/// Concrete powers of ten that the ordering proofs lean on.
proof fn lemma_pow10_values()
    ensures
        pow(10, 0) == 1,
        pow(10, 1) == 10,
        pow(10, 19) == 10000000000000000000,
        pow(10, 20) == 100000000000000000000,
{
    reveal_with_fuel(pow, 21);
}

/// The canonical shape: zero is positive with exponent zero, and a nonzero
/// mantissa carries no trailing zero digit, so each number has one
/// representation only.
pub open spec fn float_normal(f: FloatValue) -> bool {
    &&& (f.mantissa == 0 ==> !f.negative && f.exponent == 0)
    &&& (f.mantissa != 0 ==> f.mantissa % 10 != 0)
    &&& -FLOAT_EXPONENT_BOUND <= f.exponent <= FLOAT_EXPONENT_BOUND
}

/// `m * 10^(e - base)`: the magnitude `m * 10^e` scaled to the common base.
pub open spec fn scaled_mag(m: nat, e: int, base: int) -> int
    recommends
        base <= e,
{
    m * pow(10, (e - base) as nat)
}

/// Whether magnitude `m1 * 10^e1` is strictly below `m2 * 10^e2`.
pub open spec fn mag_lt(m1: nat, e1: int, m2: nat, e2: int) -> bool {
    let base = if e1 <= e2 { e1 } else { e2 };
    scaled_mag(m1, e1, base) < scaled_mag(m2, e2, base)
}

/// The strict order on float values: sign first, then magnitude.
pub open spec fn float_lt(a: FloatValue, b: FloatValue) -> bool {
    if a.negative && !b.negative {
        true
    } else if !a.negative && b.negative {
        false
    } else if !a.negative {
        mag_lt(a.mantissa as nat, a.exponent as int, b.mantissa as nat, b.exponent as int)
    } else {
        mag_lt(b.mantissa as nat, b.exponent as int, a.mantissa as nat, a.exponent as int)
    }
}

/// How many decimal digits `m` has (one digit for zero).
pub open spec fn n_digits(m: nat) -> nat
    decreases m,
{
    if m < 10 {
        1
    } else {
        1 + n_digits(m / 10)
    }
}

proof fn lemma_n_digits_bounds(m: nat)
    requires
        m > 0,
    ensures
        1 <= n_digits(m),
        pow(10, (n_digits(m) - 1) as nat) <= m < pow(10, n_digits(m)),
    decreases m,
{
    lemma_pow10_values();
    if m < 10 {
    } else {
        lemma_n_digits_bounds(m / 10);
        let k = n_digits(m / 10);
        lemma_pow_adds(10, (k - 1) as nat, 1);
        lemma_pow_adds(10, k, 1);
        assert(10 * (m / 10) + 10 <= 10 * pow(10, k)) by (nonlinear_arith)
            requires
                m / 10 < pow(10, k),
        ;
        assert(10 * pow(10, (k - 1) as nat) <= 10 * (m / 10)) by (nonlinear_arith)
            requires
                pow(10, (k - 1) as nat) <= m / 10,
        ;
        assert(m < 10 * (m / 10) + 10);
        assert(10 * (m / 10) <= m);
    }
}

/// A positive `u64` has at most twenty decimal digits.
pub proof fn lemma_n_digits_u64(m: u64)
    requires
        m > 0,
    ensures
        1 <= n_digits(m as nat) <= 20,
        pow(10, (n_digits(m as nat) - 1) as nat) <= m < pow(10, n_digits(m as nat)),
{
    lemma_n_digits_bounds(m as nat);
    lemma_pow10_values();
    let n = n_digits(m as nat);
    if n > 20 {
        if n - 1 > 20 {
            lemma_pow_strictly_increases(10, 20, (n - 1) as nat);
        }
        assert(false);
    }
}

/// Exec digit count, proved against `n_digits`.
fn digit_count(m: u64) -> (n: u64)
    requires
        m > 0,
    ensures
        n == n_digits(m as nat),
        1 <= n <= 20,
{
    proof {
        lemma_n_digits_u64(m);
    }
    let mut rest: u64 = m;
    let mut n: u64 = 1;
    while rest >= 10
        invariant
            rest > 0,
            n >= 1,
            n_digits(m as nat) == n + n_digits(rest as nat) - 1,
            n_digits(m as nat) <= 20,
        decreases rest,
    {
        proof {
            lemma_n_digits_bounds(rest as nat);
        }
        rest = rest / 10;
        n = n + 1;
    }
    n
}

/// Exec power of ten on `u128`, for exponents up to 19.
fn pow10_u128(d: u64) -> (r: u128)
    requires
        d <= 19,
    ensures
        r == pow(10, d as nat),
        r <= 10000000000000000000,
{
    proof {
        lemma_pow10_values();
    }
    let mut i: u64 = 0;
    let mut r: u128 = 1;
    while i < d
        invariant
            i <= d,
            d <= 19,
            r == pow(10, i as nat),
        decreases d - i,
    {
        proof {
            lemma_pow_adds(10, i as nat, 1);
            lemma_pow10_values();
            lemma_pow_increases(10, (i + 1) as nat, 19);
        }
        r = r * 10;
        i = i + 1;
    }
    proof {
        lemma_pow_increases(10, d as nat, 19);
    }
    r
}

/// If two normalized magnitudes denote the same number they are identical.
proof fn lemma_mag_eq_unique(m1: nat, e1: int, m2: nat, e2: int)
    requires
        m1 > 0,
        m2 > 0,
        m1 % 10 != 0,
        m2 % 10 != 0,
        !mag_lt(m1, e1, m2, e2),
        !mag_lt(m2, e2, m1, e1),
    ensures
        m1 == m2,
        e1 == e2,
{
    lemma_pow10_values();
    let base = if e1 <= e2 { e1 } else { e2 };
    assert(scaled_mag(m1, e1, base) == scaled_mag(m2, e2, base));
    if e1 == e2 {
        assert(m1 * 1 == m1 && m2 * 1 == m2);
    } else if e1 > e2 {
        let d = (e1 - e2) as nat;
        lemma_pow_adds(10, (d - 1) as nat, 1);
        assert(m2 * 1 == m2);
        assert(m2 == (m1 * pow(10, (d - 1) as nat)) * 10) by (nonlinear_arith)
            requires
                m1 * pow(10, d) == m2 * 1,
                pow(10, d) == pow(10, (d - 1) as nat) * 10,
        ;
        assert(m2 % 10 == 0) by (nonlinear_arith)
            requires
                m2 == (m1 * pow(10, (d - 1) as nat)) * 10,
        ;
        assert(false);
    } else {
        let d = (e2 - e1) as nat;
        lemma_pow_adds(10, (d - 1) as nat, 1);
        assert(m1 * 1 == m1);
        assert(m1 == (m2 * pow(10, (d - 1) as nat)) * 10) by (nonlinear_arith)
            requires
                m2 * pow(10, d) == m1 * 1,
                pow(10, d) == pow(10, (d - 1) as nat) * 10,
        ;
        assert(m1 % 10 == 0) by (nonlinear_arith)
            requires
                m1 == (m2 * pow(10, (d - 1) as nat)) * 10,
        ;
        assert(false);
    }
}

/// A magnitude whose leading digit sits strictly lower is strictly smaller.
proof fn lemma_mag_position_lt(m1: nat, e1: int, m2: nat, e2: int)
    requires
        m1 > 0,
        m2 > 0,
        e1 + n_digits(m1) < e2 + n_digits(m2),
    ensures
        mag_lt(m1, e1, m2, e2),
{
    let base = if e1 <= e2 { e1 } else { e2 };
    let n1 = n_digits(m1);
    let n2 = n_digits(m2);
    lemma_n_digits_bounds(m1);
    lemma_n_digits_bounds(m2);
    let s1 = (e1 - base) as nat;
    let s2 = (e2 - base) as nat;
    lemma_pow_positive(10, s1);
    lemma_pow_positive(10, s2);
    assert(m1 * pow(10, s1) < pow(10, n1) * pow(10, s1)) by {
        lemma_mul_strict_inequality(m1 as int, pow(10, n1), pow(10, s1));
    }
    lemma_pow_adds(10, n1, s1);
    lemma_pow_adds(10, (n2 - 1) as nat, s2);
    if n1 + s1 < n2 - 1 + s2 {
        lemma_pow_strictly_increases(10, (n1 + s1) as nat, (n2 - 1 + s2) as nat);
    }
    assert(pow(10, (n2 - 1) as nat) * pow(10, s2) <= m2 * pow(10, s2)) by {
        lemma_mul_inequality(pow(10, (n2 - 1) as nat), m2 as int, pow(10, s2));
    }
}

/// Compares two nonzero normalized magnitudes.
fn mag_cmp(m1: u64, e1: i64, m2: u64, e2: i64) -> (r: CmpResult)
    requires
        m1 > 0,
        m2 > 0,
        m1 % 10 != 0,
        m2 % 10 != 0,
        -FLOAT_EXPONENT_BOUND <= e1 <= FLOAT_EXPONENT_BOUND,
        -FLOAT_EXPONENT_BOUND <= e2 <= FLOAT_EXPONENT_BOUND,
    ensures
        (r is Lt) <==> mag_lt(m1 as nat, e1 as int, m2 as nat, e2 as int),
        (r is Gt) <==> mag_lt(m2 as nat, e2 as int, m1 as nat, e1 as int),
        (r is Eq) <==> (m1 == m2 && e1 == e2),
{
    let n1 = digit_count(m1);
    let n2 = digit_count(m2);
    let p1: i64 = e1 + n1 as i64;
    let p2: i64 = e2 + n2 as i64;
    if p1 < p2 {
        proof {
            lemma_mag_position_lt(m1 as nat, e1 as int, m2 as nat, e2 as int);
        }
        CmpResult::Lt
    } else if p1 > p2 {
        proof {
            lemma_mag_position_lt(m2 as nat, e2 as int, m1 as nat, e1 as int);
        }
        CmpResult::Gt
    } else if e1 >= e2 {
        // Same leading-digit position: e1 - e2 == n2 - n1, within [0, 19].
        let d = (e1 - e2) as u64;
        let p = pow10_u128(d);
        proof {
            lemma_pow10_values();
            lemma_pow_positive(10, d as nat);
            assert((m1 as int) * (p as int) <= 0xffff_ffff_ffff_ffff * 10000000000000000000int)
                by (nonlinear_arith)
                requires
                    m1 <= 0xffff_ffff_ffff_ffffu64,
                    0 < p <= 10000000000000000000int,
            ;
        }
        let lhs: u128 = (m1 as u128) * p;
        let rhs: u128 = m2 as u128;
        proof {
            let base = e2 as int;
            assert(scaled_mag(m1 as nat, e1 as int, base) == m1 * pow(10, d as nat));
            assert(scaled_mag(m2 as nat, e2 as int, base) == m2 * 1);
            assert(m2 * 1 == m2);
            if lhs == rhs {
                lemma_mag_eq_unique(m1 as nat, e1 as int, m2 as nat, e2 as int);
            }
        }
        if lhs < rhs {
            CmpResult::Lt
        } else if lhs > rhs {
            CmpResult::Gt
        } else {
            CmpResult::Eq
        }
    } else {
        let d = (e2 - e1) as u64;
        let p = pow10_u128(d);
        proof {
            lemma_pow10_values();
            lemma_pow_positive(10, d as nat);
            assert((m2 as int) * (p as int) <= 0xffff_ffff_ffff_ffff * 10000000000000000000int)
                by (nonlinear_arith)
                requires
                    m2 <= 0xffff_ffff_ffff_ffffu64,
                    0 < p <= 10000000000000000000int,
            ;
        }
        let lhs: u128 = m1 as u128;
        let rhs: u128 = (m2 as u128) * p;
        proof {
            let base = e1 as int;
            assert(scaled_mag(m2 as nat, e2 as int, base) == m2 * pow(10, d as nat));
            assert(scaled_mag(m1 as nat, e1 as int, base) == m1 * 1);
            assert(m1 * 1 == m1);
            if lhs == rhs {
                lemma_mag_eq_unique(m1 as nat, e1 as int, m2 as nat, e2 as int);
            }
        }
        if lhs < rhs {
            CmpResult::Lt
        } else if lhs > rhs {
            CmpResult::Gt
        } else {
            CmpResult::Eq
        }
    }
}

/// Zero scaled to any base stays zero; a positive mantissa stays positive.
proof fn lemma_mag_zero_lt(m: nat, e: int, ez: int)
    requires
        m > 0,
    ensures
        mag_lt(0, ez, m, e),
        !mag_lt(m, e, 0, ez),
        !mag_lt(0, ez, 0, e),
{
    let base1 = if ez <= e { ez } else { e };
    lemma_pow_positive(10, (e - base1) as nat);
    lemma_pow_positive(10, (ez - base1) as nat);
    assert(scaled_mag(0, ez, base1) == 0);
    assert(m * pow(10, (e - base1) as nat) > 0) by (nonlinear_arith)
        requires
            m > 0,
            pow(10, (e - base1) as nat) > 0,
    ;
    assert(scaled_mag(0, e, base1) == 0);
    let base2 = if ez <= e { ez } else { e };
    assert(scaled_mag(0, e, base2) == 0);
}

/// Total comparison of normalized float values: sign, then magnitude.
pub fn float_cmp(a: &FloatValue, b: &FloatValue) -> (r: CmpResult)
    requires
        float_normal(*a),
        float_normal(*b),
    ensures
        (r is Eq) <==> (*a == *b),
        (r is Lt) <==> float_lt(*a, *b),
        (r is Gt) <==> float_lt(*b, *a),
{
    if a.mantissa == 0 && b.mantissa == 0 {
        proof {
            let base = if a.exponent <= b.exponent { a.exponent as int } else { b.exponent as int };
            assert(scaled_mag(0, a.exponent as int, base) == 0);
            assert(scaled_mag(0, b.exponent as int, base) == 0);
        }
        CmpResult::Eq
    } else if a.mantissa == 0 {
        proof {
            lemma_mag_zero_lt(b.mantissa as nat, b.exponent as int, a.exponent as int);
        }
        if b.negative {
            CmpResult::Gt
        } else {
            CmpResult::Lt
        }
    } else if b.mantissa == 0 {
        proof {
            lemma_mag_zero_lt(a.mantissa as nat, a.exponent as int, b.exponent as int);
        }
        if a.negative {
            CmpResult::Lt
        } else {
            CmpResult::Gt
        }
    } else if a.negative && !b.negative {
        CmpResult::Lt
    } else if !a.negative && b.negative {
        CmpResult::Gt
    } else if !a.negative {
        mag_cmp(a.mantissa, a.exponent, b.mantissa, b.exponent)
    } else {
        mag_cmp(b.mantissa, b.exponent, a.mantissa, a.exponent)
    }
}

/// The order on normalized float values is total and agrees with equality:
/// of two values exactly one of `<`, `==`, `>` holds. Hashing is derived
/// from the same three fields that decide equality, so equal values hash
/// alike; no representation exists for not-a-number, so no case of the
/// order is exempt from these laws.
pub proof fn lemma_float_order_total(a: FloatValue, b: FloatValue)
    requires
        float_normal(a),
        float_normal(b),
    ensures
        !(float_lt(a, b) && float_lt(b, a)),
        float_lt(a, b) || float_lt(b, a) || a == b,
        a == b ==> !float_lt(a, b),
{
    if a.mantissa == 0 && b.mantissa == 0 {
        let base = if a.exponent <= b.exponent { a.exponent as int } else { b.exponent as int };
        assert(scaled_mag(0, a.exponent as int, base) == 0);
        assert(scaled_mag(0, b.exponent as int, base) == 0);
    } else if a.mantissa == 0 {
        lemma_mag_zero_lt(b.mantissa as nat, b.exponent as int, a.exponent as int);
    } else if b.mantissa == 0 {
        lemma_mag_zero_lt(a.mantissa as nat, a.exponent as int, b.exponent as int);
    } else if a.negative == b.negative {
        if !mag_lt(a.mantissa as nat, a.exponent as int, b.mantissa as nat, b.exponent as int)
            && !mag_lt(b.mantissa as nat, b.exponent as int, a.mantissa as nat, a.exponent as int) {
            lemma_mag_eq_unique(
                a.mantissa as nat, a.exponent as int, b.mantissa as nat, b.exponent as int);
        }
    }
}

} // verus!
