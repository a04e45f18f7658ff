//! Whole numbers as IEEE 754 doubles.
use vstd::prelude::*;

verus! {

/// Two to the power of `e`.
pub open spec fn two(e: nat) -> nat
    decreases e,
{
    if e == 0 {
        1
    } else {
        2 * two((e - 1) as nat)
    }
}

/// The exponent of the highest power of two that is at most `n`.
pub open spec fn exponent(n: nat) -> nat
    decreases n,
{
    if n < 2 {
        0
    } else {
        1 + exponent(n / 2)
    }
}

/// `n / d`, rounded to the nearest whole number, and to the even one of two.
pub open spec fn rounded(n: nat, d: nat) -> nat {
    let q = n / d;
    let r = n % d;
    if 2 * r > d || (2 * r == d && q % 2 == 1) {
        q + 1
    } else {
        q
    }
}

/// The significand of the double nearest to `n`: 53 bits, or the power of two above them
/// where rounding carries.
pub open spec fn significand(n: nat) -> nat {
    let e = exponent(n);
    if e <= 52 {
        n * two((52 - e) as nat)
    } else {
        rounded(n, two((e - 52) as nat))
    }
}

/// The bits of the double nearest to `n`, the even one of two.
pub open spec fn double_bits(n: nat) -> u64 {
    if n == 0 {
        0
    } else {
        ((1023 + exponent(n)) * 0x10_0000_0000_0000 + (significand(n) - 0x10_0000_0000_0000)) as u64
    }
}

proof fn lemma_two_adds(a: nat, b: nat)
    ensures
        two(a + b) == two(a) * two(b),
        two(a) >= 1,
    decreases a,
{
    if a == 0 {
        assert(1 * two(b) == two(b));
    } else {
        lemma_two_adds((a - 1) as nat, b);
        assert(two(a + b) == 2 * two((a - 1 + b) as nat));
        assert(2 * (two((a - 1) as nat) * two(b)) == (2 * two((a - 1) as nat)) * two(b))
            by (nonlinear_arith);
    }
}

proof fn lemma_exponent(n: nat)
    requires
        n > 0,
    ensures
        two(exponent(n)) <= n < two(exponent(n) + 1),
    decreases n,
{
    if n >= 2 {
        lemma_exponent(n / 2);
    } else {
        reveal_with_fuel(two, 2);
    }
}

proof fn lemma_two_grows(a: nat, b: nat)
    requires
        a <= b,
    ensures
        1 <= two(a) <= two(b),
    decreases b,
{
    if a < b {
        lemma_two_grows(a, (b - 1) as nat);
    } else if a > 0 {
        lemma_two_grows((a - 1) as nat, (a - 1) as nat);
    }
}

proof fn lemma_two_values()
    ensures
        two(11) == 0x800,
        two(52) == 0x10_0000_0000_0000,
        two(53) == 0x20_0000_0000_0000,
        two(64) == 0x1_0000_0000_0000_0000,
{
    reveal_with_fuel(two, 65);
}

/// The bits of the double nearest to `n`.
pub fn double_of(n: u64) -> (bits: u64)
    ensures
        bits == double_bits(n as nat),
{
    if n == 0 {
        return 0;
    }
    let mut e: u64 = 0;
    let mut rest: u64 = n;
    while rest >= 2
        invariant
            exponent(n as nat) == e + exponent(rest as nat),
            e + rest <= n,
            rest >= 1,
        decreases rest,
    {
        rest = rest / 2;
        e += 1;
    }
    let ghost ex = exponent(n as nat);
    proof {
        lemma_exponent(n as nat);
        lemma_two_values();
        if ex >= 64 {
            lemma_two_grows(64, ex);
        }
    }
    let mantissa: u64 = if e <= 52 {
        let mut x: u64 = n;
        let mut k: u64 = 0;
        assert(n * two(0) == n) by {
            assert(two(0) == 1);
        }
        while k < 52 - e
            invariant
                e == ex,
                e <= 52,
                k <= 52 - e,
                n < two(ex + 1),
                two(53) == 0x20_0000_0000_0000,
                x == n * two(k as nat),
            decreases 52 - e - k,
        {
            proof {
                lemma_two_adds(ex + 1, k as nat);
                lemma_two_grows(ex + 1 + k as nat, 53);
                assert(n * two(k as nat) <= two(ex + 1) * two(k as nat)) by (nonlinear_arith)
                    requires
                        n < two(ex + 1),
                ;
                assert(n * two((k + 1) as nat) == 2 * (n * two(k as nat))) by {
                    assert(two((k + 1) as nat) == 2 * two(k as nat));
                    assert(n * (2 * two(k as nat)) == 2 * (n * two(k as nat)))
                        by (nonlinear_arith);
                }
            }
            x = x * 2;
            k += 1;
        }
        proof {
            lemma_two_adds(ex, (52 - ex) as nat);
            lemma_two_adds(ex + 1, (52 - ex) as nat);
            assert(two(ex) * two((52 - ex) as nat) <= n * two((52 - ex) as nat) < two(ex + 1) * two(
                (52 - ex) as nat,
            )) by (nonlinear_arith)
                requires
                    two(ex) <= n < two(ex + 1),
                    two((52 - ex) as nat) >= 1,
            ;
        }
        x
    } else {
        let mut d: u64 = 1;
        let mut k: u64 = 0;
        assert(two(0) == 1);
        while k < e - 52
            invariant
                52 < e < 64,
                k <= e - 52,
                d == two(k as nat),
                1 <= d <= 0x800,
                two(11) == 0x800,
            decreases e - 52 - k,
        {
            proof {
                lemma_two_grows((k + 1) as nat, 11);
            }
            d = d * 2;
            k += 1;
        }
        let q: u64 = n / d;
        let r: u64 = n % d;
        proof {
            let gap = (ex - 52) as nat;
            lemma_two_adds(52, gap);
            lemma_two_adds(53, gap);
            lemma_two_grows(1, gap);
            reveal_with_fuel(two, 2);
            vstd::arithmetic::div_mod::lemma_fundamental_div_mod(n as int, d as int);
            assert(two(52) <= q < two(53)) by (nonlinear_arith)
                requires
                    two(52) * d <= n < two(53) * d,
                    n == d * q + r,
                    0 <= r < d,
            ;
        }
        if r > d / 2 || (r == d / 2 && q % 2 == 1) {
            proof {
                let half = d / 2;
                assert(d == 2 * half) by {
                    let gap = (ex - 52) as nat;
                    assert(two(gap) == 2 * two((gap - 1) as nat));
                }
            }
            q + 1
        } else {
            proof {
                assert(d == 2 * (d / 2)) by {
                    let gap = (ex - 52) as nat;
                    assert(two(gap) == 2 * two((gap - 1) as nat));
                }
            }
            q
        }
    };
    (1023 + e) * 0x10_0000_0000_0000 + (mantissa - 0x10_0000_0000_0000)
}

// ---------------------------------------------------------------------------
// Doubles by their bits
// ---------------------------------------------------------------------------

/// The bits of the negative zero, and the weight of the sign bit.
pub const NEGATIVE_ZERO: u64 = 0x8000_0000_0000_0000;

pub const INFINITY: u64 = 0x7ff0_0000_0000_0000;

pub const NEGATIVE_INFINITY: u64 = 0xfff0_0000_0000_0000;

pub const NOT_A_NUMBER: u64 = 0x7ff8_0000_0000_0000;

pub const ONE: u64 = 0x3ff0_0000_0000_0000;

/// A double without its sign.
pub open spec fn spec_magnitude(bits: u64) -> u64 {
    if bits >= NEGATIVE_ZERO {
        (bits - NEGATIVE_ZERO) as u64
    } else {
        bits
    }
}

/// The absolute value of a double.
#[verifier::when_used_as_spec(spec_magnitude)]
pub fn magnitude(bits: u64) -> (r: u64)
    ensures
        r == magnitude(bits),
{
    if bits >= NEGATIVE_ZERO {
        bits - NEGATIVE_ZERO
    } else {
        bits
    }
}

pub open spec fn spec_negated(bits: u64) -> u64 {
    if bits >= NEGATIVE_ZERO {
        (bits - NEGATIVE_ZERO) as u64
    } else {
        (bits + NEGATIVE_ZERO) as u64
    }
}

/// A double with its sign turned.
#[verifier::when_used_as_spec(spec_negated)]
pub fn negated(bits: u64) -> (r: u64)
    ensures
        r == negated(bits),
{
    if bits >= NEGATIVE_ZERO {
        bits - NEGATIVE_ZERO
    } else {
        bits + NEGATIVE_ZERO
    }
}

pub open spec fn spec_is_nan(bits: u64) -> bool {
    magnitude(bits) > INFINITY
}

/// Whether the bits are no number.
#[verifier::when_used_as_spec(spec_is_nan)]
pub fn is_nan(bits: u64) -> (r: bool)
    ensures
        r == is_nan(bits),
{
    magnitude(bits) > INFINITY
}

pub open spec fn spec_is_infinite(bits: u64) -> bool {
    magnitude(bits) == INFINITY
}

/// Whether a double is one of the infinities.
#[verifier::when_used_as_spec(spec_is_infinite)]
pub fn is_infinite(bits: u64) -> (r: bool)
    ensures
        r == is_infinite(bits),
{
    magnitude(bits) == INFINITY
}

/// A whole number that grows with the double, the same for both zeros.
pub open spec fn rank(bits: u64) -> int {
    if bits >= NEGATIVE_ZERO {
        -(magnitude(bits) as int)
    } else {
        bits as int
    }
}

pub open spec fn spec_less(a: u64, b: u64) -> bool {
    !is_nan(a) && !is_nan(b) && rank(a) < rank(b)
}

/// Whether one double is less than another. Nothing compares with what is no number.
#[verifier::when_used_as_spec(spec_less)]
pub fn less(a: u64, b: u64) -> (r: bool)
    ensures
        r == less(a, b),
{
    if is_nan(a) || is_nan(b) {
        false
    } else if a >= NEGATIVE_ZERO {
        if b >= NEGATIVE_ZERO {
            a > b
        } else {
            a > NEGATIVE_ZERO || b > 0
        }
    } else {
        b < NEGATIVE_ZERO && a < b
    }
}

pub open spec fn spec_at_most(a: u64, b: u64) -> bool {
    !is_nan(a) && !is_nan(b) && rank(a) <= rank(b)
}

/// Whether one double is less than another or equal to it.
#[verifier::when_used_as_spec(spec_at_most)]
pub fn at_most(a: u64, b: u64) -> (r: bool)
    ensures
        r == at_most(a, b),
{
    !is_nan(a) && !is_nan(b) && !less(b, a)
}

pub open spec fn spec_larger(a: u64, b: u64) -> u64 {
    if is_nan(a) || less(a, b) {
        b
    } else {
        a
    }
}

/// The larger of two doubles; the other one where one is no number.
#[verifier::when_used_as_spec(spec_larger)]
pub fn larger(a: u64, b: u64) -> (r: u64)
    ensures
        r == larger(a, b),
{
    if is_nan(a) || less(a, b) {
        b
    } else {
        a
    }
}

pub open spec fn spec_smaller(a: u64, b: u64) -> u64 {
    if is_nan(a) || less(b, a) {
        b
    } else {
        a
    }
}

/// The smaller of two doubles; the other one where one is no number.
#[verifier::when_used_as_spec(spec_smaller)]
pub fn smaller(a: u64, b: u64) -> (r: u64)
    ensures
        r == smaller(a, b),
{
    if is_nan(a) || less(b, a) {
        b
    } else {
        a
    }
}

/// The whole part of a finite double that is at least one, and no more than a `u32` holds.
pub open spec fn whole_part(bits: u64) -> nat {
    let e = bits / 0x10_0000_0000_0000;
    let significand = 0x10_0000_0000_0000 + bits % 0x10_0000_0000_0000;
    if e >= 1023 + 32 {
        u32::MAX as nat
    } else {
        significand as nat / two((1075 - e) as nat)
    }
}

/// The whole part of a finite double that is at least one, and no more than a `u32` holds.
pub fn whole_of(bits: u64) -> (n: u32)
    requires
        ONE <= bits < INFINITY,
    ensures
        n == whole_part(bits),
        n >= 1,
{
    let e: u64 = bits / 0x10_0000_0000_0000;
    let significand: u64 = 0x10_0000_0000_0000 + bits % 0x10_0000_0000_0000;
    if e >= 1023 + 32 {
        return u32::MAX;
    }
    let mut divisor: u64 = 0x20_0000;
    let mut power: u64 = 21;
    proof {
        reveal_with_fuel(two, 22);
        assert(two(21) == 0x20_0000);
    }
    while power < 1075 - e
        invariant
            21 <= power <= 1075 - e <= 52,
            1023 <= e <= 1054,
            divisor == two(power as nat),
            0x20_0000 <= divisor <= 0x10_0000_0000_0000,
        decreases 1075 - e - power,
    {
        proof {
            lemma_two_grows((power + 1) as nat, 52);
            lemma_two_values();
        }
        divisor = divisor * 2;
        power += 1;
    }
    let n: u64 = significand / divisor;
    proof {
        assert(significand < 0x20_0000_0000_0000);
        vstd::arithmetic::div_mod::lemma_div_is_ordered_by_denominator(
            significand as int,
            0x20_0000,
            divisor as int,
        );
        assert(n <= significand as int / 0x20_0000);
        assert(significand as int / 0x20_0000 <= u32::MAX);
        vstd::arithmetic::div_mod::lemma_div_is_ordered(
            divisor as int,
            significand as int,
            divisor as int,
        );
        assert(divisor as int / divisor as int == 1) by (nonlinear_arith)
            requires
                divisor > 0,
        ;
    }
    n as u32
}

// ---------------------------------------------------------------------------
// Laws
// ---------------------------------------------------------------------------

/// Numbers are ordered: of two of them exactly one of less, equal in rank and greater
/// holds, and the order carries over a third.
pub proof fn law_numbers_are_ordered(a: u64, b: u64, c: u64)
    requires
        !is_nan(a) && !is_nan(b) && !is_nan(c),
    ensures
        less(a, b) || less(b, a) || rank(a) == rank(b),
        !(less(a, b) && less(b, a)),
        less(a, b) && less(b, c) ==> less(a, c),
        at_most(a, b) == !less(b, a),
{
}

/// Turning the sign twice gives the double back, and turns the order.
pub proof fn law_negation(a: u64, b: u64)
    ensures
        negated(negated(a)) == a,
        less(a, b) == less(negated(b), negated(a)),
{
}

} // verus!
