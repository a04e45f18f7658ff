//! Decimal numbers by the doubles nearest to them.
//!
//! A finite double that is not negative is a whole number of the least double above zero, so
//! it is told as that number here. What a text writes is the double nearest to it, and so is a
//! product: of two doubles that are as near, the even one.
use vstd::arithmetic::power2::{
    lemma2_to64, lemma2_to64_rest, lemma_pow2_adds, lemma_pow2_pos, lemma_pow2_strictly_increases,
    lemma_pow2_unfold, pow2,
};
use vstd::prelude::*;

use crate::lexer::saturated;
use crate::text::{all_digits, digits_value, is_digit};

verus! {

// ---------------------------------------------------------------------------
// Doubles
// ---------------------------------------------------------------------------

/// How many of the least double make one.
pub open spec fn unit() -> nat {
    pow2(1074)
}

/// Past what a significand holds.
pub const BITS_53: u64 = 0x20_0000_0000_0000;

/// How far doubles are apart at `p / q`: a significand has 53 bits.
pub open spec fn grain(p: nat, q: nat) -> nat
    decreases p - q,
{
    if q == 0 || p < BITS_53 * q {
        1
    } else {
        2 * grain(p, 2 * q)
    }
}

/// The whole number nearest to `a / b`, the even one of two.
pub open spec fn half_even(a: nat, b: nat) -> nat {
    if 2 * (a % b) > b || (2 * (a % b) == b && (a / b) % 2 == 1) {
        a / b + 1
    } else {
        a / b
    }
}

/// The double nearest to `p / q` of the least double.
pub open spec fn near(p: nat, q: nat) -> nat {
    grain(p, q) * half_even(p, q * grain(p, q))
}

/// A power of ten.
pub open spec fn ten(n: nat) -> nat
    decreases n,
{
    if n == 0 {
        1
    } else {
        10 * ten((n - 1) as nat)
    }
}

/// The numerator of `0.digits` with its point moved `point` places to the right.
pub open spec fn numerator(digits: Seq<char>, point: int) -> nat {
    if point > digits.len() {
        digits_value(digits) * ten((point - digits.len()) as nat)
    } else {
        digits_value(digits)
    }
}

/// Its denominator.
pub open spec fn denominator(digits: Seq<char>, point: int) -> nat {
    if point < digits.len() {
        ten((digits.len() - point) as nat)
    } else {
        1
    }
}

/// The double nearest to a decimal number.
pub open spec fn double_of(digits: Seq<char>, point: int) -> nat {
    near(numerator(digits, point) * unit(), denominator(digits, point))
}

/// The double nearest to a decimal number times a whole one, as a whole number: rounded down,
/// and held to the greatest there is.
pub open spec fn scaled_double(digits: Seq<char>, point: int, by: nat) -> u64 {
    saturated(near(double_of(digits, point) * by, 1) / unit())
}

/// The whole number nearest to a decimal number's double times a whole one, held to the
/// greatest there is.
pub open spec fn rounded_double(digits: Seq<char>, point: int, by: nat) -> u64 {
    saturated(half_even(double_of(digits, point) * by, unit()))
}

/// A whole number times another, the first by its double and the product by the one nearest
/// to it: rounded down, and held to the greatest number there is.
pub open spec fn product(value: nat, by: nat) -> u64 {
    saturated(near(near(value * unit(), 1) * by, 1) / unit())
}

/// Whether a whole number is a significand of 53 bits times a power of two.
pub open spec fn is_held(n: nat, significand: nat, power: nat) -> bool {
    n == significand * pow2(power) && significand < BITS_53
}

/// Whether a whole number is a double.
pub open spec fn is_double(n: nat) -> bool {
    exists|significand: nat, power: nat| is_held(n, significand, power)
}

/// Whether the double nearest to a decimal number is greater than a whole one.
pub open spec fn double_exceeds(digits: Seq<char>, point: int, limit: nat) -> bool {
    double_of(digits, point) > limit * unit()
}

// ---------------------------------------------------------------------------
// Arithmetic
// ---------------------------------------------------------------------------

proof fn lemma_ten_adds(a: nat, b: nat)
    ensures
        ten(a + b) == ten(a) * ten(b),
        ten(a) >= 1,
    decreases a,
{
    if a > 0 {
        lemma_ten_adds((a - 1) as nat, b);
        let (x, y) = (ten((a - 1) as nat), ten(b));
        assert((a + b - 1) as nat == (a - 1) as nat + b);
        assert(10 * (x * y) == (10 * x) * y) by (nonlinear_arith);
    } else {
        assert(1 * ten(b) == ten(b)) by (nonlinear_arith);
    }
}

proof fn lemma_ten_grows(a: nat, b: nat)
    requires
        a <= b,
    ensures
        1 <= ten(a) <= ten(b),
{
    lemma_ten_adds(a, (b - a) as nat);
    lemma_ten_adds((b - a) as nat, 0);
    let (x, y) = (ten(a), ten((b - a) as nat));
    assert(x * y >= x) by (nonlinear_arith)
        requires
            y >= 1,
    ;
}

/// The grain is a power of two, by where `p / q` lies.
proof fn lemma_grain(p: nat, q: nat, j: nat)
    requires
        q > 0,
        p < pow2(53 + j) * q,
        j == 0 || p >= pow2(52 + j) * q,
    ensures
        grain(p, q) == pow2(j),
    decreases j,
{
    lemma_pow2_adds(53, j);
    lemma2_to64_rest();
    lemma2_to64();
    if j > 0 {
        let (a, b) = (pow2(52 + j), pow2(53 + j));
        let i = (j - 1) as nat;
        lemma_pow2_unfold(52 + j);
        lemma_pow2_unfold(53 + j);
        lemma_pow2_unfold(j);
        assert(53 + i == 52 + j && (53 + j - 1) as nat == 53 + i);
        assert((52 + j - 1) as nat == 52 + i);
        assert(pow2(53 + i) * (2 * q) == b * q) by (nonlinear_arith)
            requires
                b == 2 * pow2(53 + i),
        ;
        assert(pow2(52 + i) * (2 * q) == a * q) by (nonlinear_arith)
            requires
                a == 2 * pow2(52 + i),
        ;
        lemma_grain(p, 2 * q, i);
        if j > 1 {
            lemma_pow2_strictly_increases(53, 52 + j);
        }
        assert(pow2(53) * q <= a * q) by (nonlinear_arith)
            requires
                pow2(53) <= a,
        ;
    }
}

/// Where the grain puts `p / q`.
proof fn lemma_grain_place(p: nat, q: nat) -> (j: nat)
    requires
        q > 0,
    ensures
        grain(p, q) == pow2(j),
        j == 0 || pow2(52 + j) * q <= p,
        p < pow2(53 + j) * q,
    decreases p - q,
{
    lemma2_to64_rest();
    lemma2_to64();
    if p < BITS_53 * q {
        0
    } else {
        let i = lemma_grain_place(p, 2 * q);
        let j = i + 1;
        lemma_pow2_unfold(j);
        lemma_pow2_unfold(52 + j);
        lemma_pow2_unfold(53 + j);
        assert((j - 1) as nat == i && (52 + j - 1) as nat == 52 + i && (53 + j - 1) as nat == 53
            + i);
        let (a, b) = (pow2(52 + i), pow2(53 + i));
        assert(a * (2 * q) == (2 * a) * q && b * (2 * q) == (2 * b) * q) by (nonlinear_arith);
        j
    }
}

/// A quotient does not change with what both sides are multiplied by.
proof fn lemma_half_even_scales(a: nat, b: nat, k: nat)
    requires
        b > 0,
        k > 0,
    ensures
        half_even(a * k, b * k) == half_even(a, b),
{
    let (d, r) = (a / b, a % b);
    vstd::arithmetic::div_mod::lemma_fundamental_div_mod(a as int, b as int);
    assert(a * k == d * (b * k) + r * k) by (nonlinear_arith)
        requires
            a == b * d + r,
    ;
    assert(0 <= r * k < b * k && b * k > 0) by (nonlinear_arith)
        requires
            0 <= r < b,
            k > 0,
    ;
    vstd::arithmetic::div_mod::lemma_fundamental_div_mod_converse(
        (a * k) as int,
        (b * k) as int,
        d as int,
        (r * k) as int,
    );
    assert(2 * (r * k) > b * k <==> 2 * r > b) by (nonlinear_arith)
        requires
            k > 0,
    ;
    assert(2 * (r * k) == b * k <==> 2 * r == b) by (nonlinear_arith)
        requires
            k > 0,
    ;
}

/// How near a rounded quotient is.
proof fn lemma_half_even_near(a: nat, b: nat)
    requires
        b > 0,
    ensures
        2 * (half_even(a, b) * b) <= 2 * a + b,
        2 * a <= 2 * (half_even(a, b) * b) + b,
{
    let (d, r) = (a / b, a % b);
    vstd::arithmetic::div_mod::lemma_fundamental_div_mod(a as int, b as int);
    assert((d + 1) * b == d * b + b && b * d == d * b) by (nonlinear_arith);
}

/// A double is within a factor of two of what it is nearest to, and the least double.
proof fn lemma_near_bounds(p: nat, q: nat)
    requires
        q > 0,
    ensures
        near(p, q) * q <= 2 * p + q,
        p <= 2 * (near(p, q) * q) + q,
{
    let g = grain(p, q);
    let j = lemma_grain_place(p, q);
    lemma_pow2_pos(j);
    let b = q * g;
    assert(b > 0) by (nonlinear_arith)
        requires
            q > 0,
            g > 0,
            b == q * g,
    ;
    let h = half_even(p, b);
    lemma_half_even_near(p, b);
    assert(near(p, q) * q == h * b) by (nonlinear_arith)
        requires
            near(p, q) == g * h,
            b == q * g,
    ;
    if j > 0 {
        lemma_pow2_adds(52, j);
        lemma2_to64_rest();
        lemma2_to64();
        assert(b <= p) by (nonlinear_arith)
            requires
                pow2(52) * pow2(j) * q <= p,
                pow2(52) >= 1,
                b == q * pow2(j),
        ;
    } else {
        lemma2_to64_rest();
        lemma2_to64();
        assert(b == q) by (nonlinear_arith)
            requires
                g == 1,
                b == q * g,
        ;
    }
}

/// A double that is written as a significand of 53 bits: of what, and how it is found.
proof fn lemma_near(p: nat, q: nat, a: nat, b: nat, j: nat, scale: nat)
    requires
        q > 0,
        b > 0,
        scale > 0,
        p == a * scale,
        q * pow2(j) == b * scale,
        p < pow2(53 + j) * q,
        p >= pow2(52 + j) * q,
    ensures
        near(p, q) == pow2(j) * half_even(a, b),
{
    lemma_grain(p, q, j);
    lemma_half_even_scales(a, b, scale);
}

// ---------------------------------------------------------------------------
// Digits
// ---------------------------------------------------------------------------

/// The number that decimal digits write.
spec fn value_of(digits: Seq<u8>) -> nat
    decreases digits.len(),
{
    if digits.len() == 0 {
        0
    } else {
        value_of(digits.drop_last()) * 10 + digits.last() as nat
    }
}

spec fn are_digits(digits: Seq<u8>) -> bool {
    forall|i: int| 0 <= i < digits.len() ==> #[trigger] digits[i] < 10
}

/// Characters as the digits that they write.
spec fn digits_of(text: Seq<char>) -> Seq<u8> {
    text.map_values(|c: char| (c as u32 - '0' as u32) as u8)
}

proof fn lemma_value_concat(a: Seq<u8>, b: Seq<u8>)
    ensures
        value_of(a + b) == value_of(a) * ten(b.len()) + value_of(b),
    decreases b.len(),
{
    if b.len() == 0 {
        assert(a + b =~= a);
        assert(value_of(a) * 1 == value_of(a)) by (nonlinear_arith);
    } else {
        let front = b.drop_last();
        lemma_value_concat(a, front);
        assert((a + b).drop_last() =~= a + front);
        assert((a + b).last() == b.last());
        let (x, t) = (value_of(a), ten(front.len()));
        assert((x * t) * 10 == x * (10 * t)) by (nonlinear_arith);
    }
}

proof fn lemma_value_bound(digits: Seq<u8>)
    requires
        are_digits(digits),
    ensures
        value_of(digits) < ten(digits.len()),
    decreases digits.len(),
{
    if digits.len() > 0 {
        let front = digits.drop_last();
        assert(are_digits(front)) by {
            assert forall|i: int| 0 <= i < front.len() implies #[trigger] front[i] < 10 by {
                assert(front[i] == digits[i]);
            }
        }
        lemma_value_bound(front);
        assert(digits[digits.len() - 1] < 10);
    }
}

proof fn lemma_value_zeros(digits: Seq<u8>)
    requires
        forall|i: int| 0 <= i < digits.len() ==> #[trigger] digits[i] == 0,
    ensures
        value_of(digits) == 0,
    decreases digits.len(),
{
    if digits.len() > 0 {
        let front = digits.drop_last();
        assert forall|i: int| 0 <= i < front.len() implies #[trigger] front[i] == 0 by {
            assert(front[i] == digits[i]);
        }
        lemma_value_zeros(front);
        assert(digits[digits.len() - 1] == 0);
    }
}

/// A number is at least what its first digit says.
proof fn lemma_value_front(digits: Seq<u8>)
    requires
        digits.len() > 0,
    ensures
        value_of(digits) == digits[0] * ten((digits.len() - 1) as nat) + value_of(
            digits.drop_first(),
        ),
{
    let one = seq![digits[0]];
    lemma_value_concat(one, digits.drop_first());
    assert(one + digits.drop_first() =~= digits);
    assert(one.drop_last() =~= Seq::<u8>::empty());
    assert(value_of(one.drop_last()) == 0);
    assert(one.last() == digits[0]);
}

proof fn lemma_digits_of(text: Seq<char>)
    requires
        all_digits(text),
    ensures
        are_digits(digits_of(text)),
        value_of(digits_of(text)) == digits_value(text),
    decreases text.len(),
{
    assert forall|i: int| 0 <= i < text.len() implies #[trigger] digits_of(text)[i] < 10 by {
        assert(is_digit(text[i]));
    }
    if text.len() > 0 {
        let front = text.drop_last();
        assert(all_digits(front)) by {
            assert forall|i: int| 0 <= i < front.len() implies is_digit(#[trigger] front[i]) by {
                assert(front[i] == text[i]);
            }
        }
        lemma_digits_of(front);
        assert(digits_of(text).drop_last() =~= digits_of(front));
        assert(is_digit(text[text.len() - 1]));
    }
}

/// Doubles the fraction `0.digits` and gives what it comes to before the point.
fn double(digits: &mut Vec<u8>) -> (bit: u8)
    requires
        are_digits(old(digits)@),
    ensures
        final(digits)@.len() == old(digits)@.len(),
        are_digits(final(digits)@),
        bit <= 1,
        2 * value_of(old(digits)@) == bit * ten(old(digits)@.len()) + value_of(final(digits)@),
{
    let ghost start = digits@;
    let len: usize = digits.len();
    let mut carry: u8 = 0;
    let mut i: usize = len;
    proof {
        assert(start.skip(len as int) =~= Seq::<u8>::empty());
        assert(0 * ten(0) == 0);
    }
    while i > 0
        invariant
            i <= len,
            len == start.len() == digits@.len(),
            are_digits(start),
            are_digits(digits@),
            carry <= 1,
            forall|k: int| 0 <= k < i ==> #[trigger] digits@[k] == start[k],
            2 * value_of(start.skip(i as int)) == carry * ten((len - i) as nat) + value_of(
                digits@.skip(i as int),
            ),
        decreases i,
    {
        let ghost before = digits@;
        let ghost old_carry = carry as nat;
        assert(digits@[i - 1] < 10);
        let sum: u8 = 2 * digits[i - 1] + carry;
        digits.set(i - 1, sum % 10);
        carry = sum / 10;
        i -= 1;
        proof {
            let t = ten((len - i - 1) as nat);
            let (a, b) = (start.skip(i as int), digits@.skip(i as int));
            lemma_value_front(a);
            lemma_value_front(b);
            assert(a.drop_first() =~= start.skip(i + 1));
            assert(b.drop_first() =~= before.skip(i + 1));
            assert((len - i - 1) as nat == (a.len() - 1) as nat);
            let (x, d, c) = (start[i as int] as nat, (sum % 10) as nat, carry as nat);
            assert(2 * x + old_carry == 10 * c + d);
            assert(2 * (x * t) + old_carry * t == c * (10 * t) + d * t) by (nonlinear_arith)
                requires
                    2 * x + old_carry == 10 * c + d,
            ;
            assert(ten((len - i) as nat) == 10 * t);
        }
    }
    assert(start.skip(0) =~= start);
    assert(digits@.skip(0) =~= digits@);
    carry
}

/// Whether every digit is zero.
fn is_nothing(digits: &Vec<u8>) -> (r: bool)
    requires
        are_digits(digits@),
    ensures
        r == (value_of(digits@) == 0),
{
    let mut i: usize = 0;
    while i < digits.len()
        invariant
            i <= digits@.len(),
            are_digits(digits@),
            forall|k: int| 0 <= k < i ==> #[trigger] digits@[k] == 0,
        decreases digits@.len() - i,
    {
        if digits[i] != 0 {
            proof {
                let rest = digits@.skip(i as int);
                lemma_value_concat(digits@.take(i as int), rest);
                assert(digits@.take(i as int) + rest =~= digits@);
                lemma_value_front(rest);
                lemma_ten_adds((rest.len() - 1) as nat, 0);
                let (x, t) = (digits@[i as int] as nat, ten((rest.len() - 1) as nat));
                assert(x * t >= 1) by (nonlinear_arith)
                    requires
                        x >= 1,
                        t >= 1,
                ;
                let (y, u) = (value_of(digits@.take(i as int)), ten(rest.len()));
                assert(y * u >= 0) by (nonlinear_arith)
                    requires
                        y >= 0,
                        u >= 0,
                ;
            }
            return false;
        }
        i += 1;
    }
    proof {
        lemma_value_zeros(digits@);
    }
    true
}

// ---------------------------------------------------------------------------
// Reading
// ---------------------------------------------------------------------------

/// Zeros in front of a number say nothing.
proof fn lemma_strip(digits: Seq<char>, z: int, point: int)
    requires
        all_digits(digits),
        0 <= z <= digits.len(),
        forall|i: int| 0 <= i < z ==> #[trigger] digits[i] == '0',
    ensures
        all_digits(digits.skip(z)),
        digits_value(digits) == digits_value(digits.skip(z)),
        numerator(digits, point) == numerator(digits.skip(z), point - z),
        denominator(digits, point) == denominator(digits.skip(z), point - z),
{
    let rest = digits.skip(z);
    assert(all_digits(rest)) by {
        assert forall|i: int| 0 <= i < rest.len() implies is_digit(#[trigger] rest[i]) by {
            assert(rest[i] == digits[z + i]);
        }
    }
    lemma_digits_of(digits);
    lemma_digits_of(rest);
    let front = digits_of(digits).take(z);
    lemma_value_zeros(front);
    lemma_value_concat(front, digits_of(rest));
    assert(front + digits_of(rest) =~= digits_of(digits));
    assert(0 * ten(digits_of(rest).len()) == 0) by (nonlinear_arith);
}

/// Where a number without zeros in front of it lies.
proof fn lemma_places(digits: Seq<char>, point: int)
    requires
        all_digits(digits),
        digits.len() > 0,
        digits[0] != '0',
    ensures
        point > 22 ==> numerator(digits, point) >= ten(22) * denominator(digits, point),
        point < -29 ==> numerator(digits, point) * ten(30) < denominator(digits, point),
        point >= -29 ==> numerator(digits, point) * ten(30) >= denominator(digits, point),
        numerator(digits, point) > 0,
{
    let n = digits_value(digits);
    let len = digits.len();
    lemma_digits_of(digits);
    lemma_value_bound(digits_of(digits));
    lemma_value_front(digits_of(digits));
    assert(is_digit(digits[0]));
    let (x, t) = (digits_of(digits)[0] as nat, ten((len - 1) as nat));
    lemma_ten_adds((len - 1) as nat, 0);
    assert(x * t >= t) by (nonlinear_arith)
        requires
            x >= 1,
    ;
    assert(n >= t);
    if point > len {
        let up = (point - len) as nat;
        lemma_ten_adds((len - 1) as nat, up);
        lemma_ten_adds(up, 0);
        lemma_ten_adds(30, 0);
        assert(n * ten(up) >= t * ten(up)) by (nonlinear_arith)
            requires
                n >= t,
        ;
        assert((len - 1) as nat + up == (point - 1) as nat);
        if point > 22 {
            lemma_ten_grows(22, (point - 1) as nat);
        }
        lemma_ten_adds((point - 1) as nat, 0);
        let m = n * ten(up);
        assert(m * ten(30) >= 1) by (nonlinear_arith)
            requires
                m >= 1,
                ten(30) >= 1,
        ;
    } else {
        let down = (len - point) as nat;
        assert(denominator(digits, point) == ten(down));
        if point > 0 {
            lemma_ten_adds((point - 1) as nat, down);
            assert((point - 1) as nat + down == (len - 1) as nat);
            lemma_ten_adds((point - 1) as nat, 0);
            lemma_ten_adds(30, 0);
            let q = ten((point - 1) as nat);
            assert(n * ten(30) >= ten(down)) by (nonlinear_arith)
                requires
                    n >= q * ten(down),
                    q >= 1,
                    ten(30) >= 1,
                    ten(down) >= 0,
            ;
            if point > 22 {
                lemma_ten_grows(22, (point - 1) as nat);
                assert(n >= ten(22) * ten(down)) by (nonlinear_arith)
                    requires
                        n >= q * ten(down),
                        q >= ten(22),
                        ten(down) >= 0,
                ;
            }
        } else {
            let lead = (1 - point) as nat;
            lemma_ten_adds((len - 1) as nat, lead);
            assert((len - 1) as nat + lead == down);
            if point >= -29 {
                lemma_ten_grows(lead, 30);
                assert(n * ten(30) >= t * ten(lead)) by (nonlinear_arith)
                    requires
                        n >= t,
                        ten(30) >= ten(lead),
                        ten(lead) >= 1,
                ;
            } else {
                lemma_ten_adds(len, (-point) as nat);
                lemma_ten_grows(30, (-point) as nat);
                assert(len + (-point) as nat == down);
                assert(n * ten(30) < ten(len) * ten((-point) as nat)) by (nonlinear_arith)
                    requires
                        0 <= n < ten(len),
                        1 <= ten(30) <= ten((-point) as nat),
                ;
            }
        }
    }
}

/// How many digits stand in front of the point.
spec fn ahead(len: int, point: int) -> int {
    if point <= 0 {
        0
    } else if point < len {
        point
    } else {
        len
    }
}

/// The whole number in front of the point.
fn whole_part(digits: &[char], point: i128) -> (whole: u128)
    requires
        all_digits(digits@),
        -29 <= point <= 22,
    ensures
        whole < ten(22),
        point <= digits@.len() ==> whole == value_of(
            digits_of(digits@).take(ahead(digits@.len() as int, point as int)),
        ),
        point > digits@.len() ==> whole == value_of(digits_of(digits@)) * ten(
            (point - digits@.len()) as nat,
        ),
{
    let len: usize = digits.len();
    let ghost all = digits_of(digits@);
    proof {
        lemma_digits_of(digits@);
        reveal_with_fuel(ten, 23);
    }
    let mut whole: u128 = 0;
    let mut n: i128 = 0;
    assert(all.take(0) =~= Seq::<u8>::empty());
    while n < point
        invariant
            -29 <= point <= 22,
            0 <= n,
            n <= point || n == 0,
            len == digits@.len(),
            all_digits(digits@),
            all == digits_of(digits@),
            are_digits(all),
            ten(22) == 10_000_000_000_000_000_000_000,
            whole < ten(n as nat),
            n <= len ==> whole == value_of(all.take(n as int)),
            n >= len ==> whole == value_of(all) * ten((n - len) as nat),
        decreases point - n,
    {
        proof {
            lemma_ten_grows((n + 1) as nat, 22);
            assert(ten((n + 1) as nat) == 10 * ten(n as nat));
        }
        if n < len as i128 {
            let c: char = digits[n as usize];
            assert(is_digit(digits@[n as int]));
            proof {
                let next = all.take(n as int + 1);
                assert(next.drop_last() =~= all.take(n as int));
                assert(next.last() == all[n as int]);
                if n + 1 == len {
                    assert(next =~= all);
                    assert(value_of(all) * 1 == value_of(all));
                }
            }
            whole = whole * 10 + (c as u8 - 48u8) as u128;
        } else {
            proof {
                if n == len {
                    assert(all.take(n as int) =~= all);
                }
                let (v, t) = (value_of(all), ten((n - len) as nat));
                assert(ten((n + 1 - len) as nat) == 10 * t);
                assert((v * t) * 10 == v * (10 * t)) by (nonlinear_arith);
            }
            whole = whole * 10;
        }
        n += 1;
    }
    proof {
        lemma_ten_grows(n as nat, 22);
    }
    whole
}

/// The digits behind the point.
fn rest_part(digits: &[char], point: i128) -> (rest: Vec<u8>)
    requires
        all_digits(digits@),
        -29 <= point <= 22,
    ensures
        are_digits(rest@),
        rest@.len() == (if point < 0 {
            -point
        } else {
            0
        }) + digits@.len() - ahead(digits@.len() as int, point as int),
        value_of(rest@) == value_of(
            digits_of(digits@).skip(ahead(digits@.len() as int, point as int)),
        ),
{
    let len: usize = digits.len();
    let ghost all = digits_of(digits@);
    let mut rest: Vec<u8> = Vec::new();
    let mut n: i128 = point;
    while n < 0
        invariant
            n <= 0 || n == point,
            point <= n,
            -29 <= point,
            rest@.len() == (if point < 0 {
                n - point
            } else {
                0
            }),
            forall|k: int| 0 <= k < rest@.len() ==> #[trigger] rest@[k] == 0,
        decreases -n,
    {
        rest.push(0);
        n += 1;
    }
    let ghost zeros = rest@;
    let start: usize = if point <= 0 {
        0
    } else if point < len as i128 {
        point as usize
    } else {
        len
    };
    let mut i: usize = start;
    assert(all.subrange(start as int, start as int) =~= Seq::<u8>::empty());
    assert(zeros + all.subrange(start as int, start as int) =~= zeros);
    while i < len
        invariant
            start <= i <= len,
            len == digits@.len(),
            all_digits(digits@),
            all == digits_of(digits@),
            rest@ == zeros + all.subrange(start as int, i as int),
        decreases len - i,
    {
        let c: char = digits[i];
        assert(is_digit(digits@[i as int]));
        rest.push(c as u8 - 48u8);
        proof {
            assert(all[i as int] == (c as u8 - 48u8));
            assert(zeros + all.subrange(start as int, i as int + 1) =~= (zeros + all.subrange(
                start as int,
                i as int,
            )).push(all[i as int]));
        }
        i += 1;
    }
    proof {
        lemma_digits_of(digits@);
        let tail = all.subrange(start as int, len as int);
        assert(tail =~= all.skip(start as int));
        lemma_value_zeros(zeros);
        lemma_value_concat(zeros, tail);
        assert(0 * ten(tail.len()) == 0) by (nonlinear_arith);
        assert(are_digits(rest@)) by {
            assert forall|k: int| 0 <= k < rest@.len() implies #[trigger] rest@[k] < 10 by {
                if k >= zeros.len() {
                    assert(rest@[k] == all[start + (k - zeros.len())]);
                }
            }
        }
    }
    rest
}

/// A decimal number as a whole one and the digits behind its point.
fn split(digits: &[char], point: i128) -> (r: (u128, Vec<u8>))
    requires
        all_digits(digits@),
        -29 <= point <= 22,
    ensures
        are_digits(r.1@),
        r.0 < ten(22),
        numerator(digits@, point as int) == r.0 * ten(r.1@.len()) + value_of(r.1@),
        denominator(digits@, point as int) == ten(r.1@.len()),
{
    let whole: u128 = whole_part(digits, point);
    let rest: Vec<u8> = rest_part(digits, point);
    proof {
        let all = digits_of(digits@);
        let len = digits@.len();
        let (front, tail) = (
            all.take(ahead(len as int, point as int)),
            all.skip(ahead(len as int, point as int)),
        );
        lemma_digits_of(digits@);
        if point > len {
            assert(tail =~= Seq::<u8>::empty());
            assert(ten(0) == 1);
            assert(whole * 1 == whole) by (nonlinear_arith);
        } else {
            lemma_value_concat(front, tail);
            assert(front + tail =~= all);
            if point <= 0 {
                assert(front =~= Seq::<u8>::empty());
                assert(0 * ten(tail.len()) == 0 && 0 * ten(rest@.len()) == 0) by (nonlinear_arith);
            }
        }
    }
    (whole, rest)
}

/// A decimal number by the double nearest to it.
enum Close {
    /// So near to zero that it says nothing here.
    Tiny,
    /// Past every number that is asked for here.
    Huge,
    /// A significand of 53 bits, and the power of two that it is taken by.
    Double(u64, u32),
}

/// Whether it stands for a decimal number.
spec fn is_close(close: Close, digits: Seq<char>, point: int) -> bool {
    match close {
        Close::Tiny => numerator(digits, point) * ten(30) < denominator(digits, point),
        Close::Huge => numerator(digits, point) >= ten(22) * denominator(digits, point),
        Close::Double(m, j) => {
            &&& double_of(digits, point) == m * pow2(j as nat)
            &&& BITS_53 / 2 <= m <= BITS_53
            &&& 800 <= j <= 1110
        },
    }
}

/// The remainder of a quotient that is known up to a fraction, against half of its divisor.
proof fn lemma_rounded(whole: nat, g: nat, rest: nat, den: nat, m: nat)
    requires
        den > 0,
        g > 0,
        rest < den,
        g == 1 || g % 2 == 0,
        m == whole / g + (if g == 1 {
            if 2 * rest > den || (2 * rest == den && whole % 2 == 1) {
                1int
            } else {
                0
            }
        } else {
            if 2 * (whole % g) > g || (2 * (whole % g) == g && (rest > 0 || (whole / g) % 2 == 1)) {
                1int
            } else {
                0
            }
        }),
    ensures
        half_even(whole * den + rest, den * g) == m,
{
    let (d, r) = (whole / g, whole % g);
    vstd::arithmetic::div_mod::lemma_fundamental_div_mod(whole as int, g as int);
    let all = whole * den + rest;
    let rem = r * den + rest;
    assert(all == d * (den * g) + rem) by (nonlinear_arith)
        requires
            all == whole * den + rest,
            rem == r * den + rest,
            whole == g * d + r,
    ;
    assert(0 <= rem < den * g) by (nonlinear_arith)
        requires
            rem == r * den + rest,
            0 <= r < g,
            0 <= rest < den,
    ;
    vstd::arithmetic::div_mod::lemma_fundamental_div_mod_converse(
        all as int,
        (den * g) as int,
        d as int,
        rem as int,
    );
    if g == 1 {
        assert(den * g == den && r * den == 0 && d == whole) by (nonlinear_arith)
            requires
                g == 1,
                r == 0,
                whole == g * d + r,
        ;
    } else if 2 * r > g {
        assert(2 * rem > den * g) by (nonlinear_arith)
            requires
                rem == r * den + rest,
                2 * r >= g + 1,
                den > 0,
                rest >= 0,
        ;
    } else if 2 * r == g {
        assert(2 * rem == den * g + 2 * rest) by (nonlinear_arith)
            requires
                rem == r * den + rest,
                2 * r == g,
        ;
    } else {
        assert(2 * rem < den * g) by (nonlinear_arith)
            requires
                rem == r * den + rest,
                2 * r + 2 <= g,
                rest < den,
                den > 0,
        ;
    }
}

/// A double from the first bits of a number.
proof fn lemma_from_bits(num: nat, den: nat, whole: nat, rest: nat, s: nat, k: nat, m: nat)
    requires
        den > 0,
        rest < den,
        s <= 1074,
        num * pow2(s) == whole * den + rest,
        pow2(52) * pow2(k) <= whole < pow2(53) * pow2(k),
        half_even(whole * den + rest, den * pow2(k)) == m,
    ensures
        near(num * unit(), den) == m * pow2((1074 - s + k) as nat),
        pow2(52) <= m <= pow2(53),
{
    let scale = pow2((1074 - s) as nat);
    let g = pow2(k);
    let j = (1074 - s + k) as nat;
    lemma_pow2_adds(s, (1074 - s) as nat);
    lemma_pow2_adds((1074 - s) as nat, k);
    lemma_pow2_adds(53, j);
    lemma_pow2_adds(52, j);
    lemma_pow2_pos(k);
    lemma_pow2_pos((1074 - s) as nat);
    let (a, b) = (whole * den + rest, den * g);
    let (low, high) = (pow2(52), pow2(53));
    assert(pow2((1074 - s) as nat + k) == pow2(j));
    assert(s + (1074 - s) as nat == 1074nat);
    assert(num * unit() == a * scale) by (nonlinear_arith)
        requires
            unit() == pow2(s) * scale,
            num * pow2(s) == a,
    ;
    assert(den * pow2(j) == b * scale) by (nonlinear_arith)
        requires
            pow2(j) == scale * g,
            b == den * g,
    ;
    assert(b > 0) by (nonlinear_arith)
        requires
            den > 0,
            g > 0,
            b == den * g,
    ;
    assert(low * b <= a < high * b) by (nonlinear_arith)
        requires
            a == whole * den + rest,
            low * g <= whole,
            whole + 1 <= high * g,
            0 <= rest < den,
            b == den * g,
    ;
    assert(a * scale >= (low * b) * scale && a * scale < (high * b) * scale) by (nonlinear_arith)
        requires
            low * b <= a < high * b,
            scale > 0,
    ;
    assert((low * b) * scale == pow2(52 + j) * den && (high * b) * scale == pow2(53 + j) * den)
        by (nonlinear_arith)
        requires
            den * pow2(j) == b * scale,
            pow2(52 + j) == low * pow2(j),
            pow2(53 + j) == high * pow2(j),
    ;
    lemma_near((num * unit()) as nat, den, a, b, j, scale);
    assert(pow2(j) * m == m * pow2(j)) by (nonlinear_arith);
    lemma_half_even_near(a, b);
    lemma2_to64_rest();
    lemma2_to64();
    assert(m >= low) by (nonlinear_arith)
        requires
            low * b <= a,
            2 * a <= 2 * (m * b) + b,
            b > 0,
    ;
    assert(m <= high) by (nonlinear_arith)
        requires
            a < high * b,
            2 * (m * b) <= 2 * a + b,
            b > 0,
    ;
}

/// The double nearest to a decimal number.
#[verifier::spinoff_prover]
#[verifier::rlimit(30)]
fn nearest(digits: &[char], point: i128) -> (r: Close)
    requires
        all_digits(digits@),
        -0x1_0000_0000_0000_0000_0000 <= point <= 0x1_0000_0000_0000_0000_0000,
    ensures
        is_close(r, digits@, point as int),
{
    let len: usize = digits.len();
    let mut z: usize = 0;
    while z < len && digits[z] == '0'
        invariant
            z <= len,
            len == digits@.len(),
            forall|i: int| 0 <= i < z ==> #[trigger] digits@[i] == '0',
        decreases len - z,
    {
        z += 1;
    }
    let places: i128 = point - z as i128;
    proof {
        lemma_strip(digits@, z as int, point as int);
    }
    if z == len {
        proof {
            assert(digits@.skip(z as int) =~= Seq::<char>::empty());
            lemma_ten_adds(30, 0);
            let up = if places > 0 { places as nat } else { 0 };
            assert(0 * ten(up) == 0 && 0 * ten(30) == 0) by (nonlinear_arith);
            let down = if places < 0 { (-places) as nat } else { 0 };
            lemma_ten_adds(down, 0);
        }
        return Close::Tiny;
    }
    proof {
        assert(digits@.skip(z as int)[0] == digits@[z as int]);
        lemma_places(digits@.skip(z as int), places as int);
    }
    if places > 22 {
        return Close::Huge;
    }
    if places < -29 {
        return Close::Tiny;
    }
    let stripped: &[char] = vstd::slice::slice_subrange(digits, z, len);
    assert(stripped@ =~= digits@.skip(z as int));
    let (first, mut rest) = split(stripped, places);
    let ghost num = numerator(digits@, point as int);
    let ghost den = denominator(digits@, point as int);
    let mut whole: u128 = first;
    let mut s: u32 = 0;
    proof {
        lemma2_to64_rest();
        lemma2_to64();
        lemma_pow2_adds(64, 64);
        lemma_pow2_adds(128, 64);
        lemma_pow2_adds(192, 8);
        reveal_with_fuel(ten, 31);
        lemma_value_bound(rest@);
        assert(num * 1 == num) by (nonlinear_arith);
    }
    while whole < 0x10_0000_0000_0000
        invariant
            are_digits(rest@),
            den == ten(rest@.len()),
            value_of(rest@) < den,
            num * pow2(s as nat) == whole * den + value_of(rest@),
            num * ten(30) >= den,
            ten(30) == 1_000_000_000_000_000_000_000_000_000_000,
            pow2(200) == 0x100_0000_0000_0000_0000_0000_0000_0000_0000_0000_0000_0000_0000int,
            s <= 200,
            s > 0 ==> whole < 0x20_0000_0000_0000,
            whole < 0x1_0000_0000_0000_0000_0000,
        decreases 200 - s,
    {
        let ghost before = value_of(rest@);
        let ghost old_whole = whole as int;
        let ghost old_s = s as nat;
        proof {
            if s == 200 {
                assert(num * pow2(200) < 0x10_0000_0000_0000 * den) by (nonlinear_arith)
                    requires
                        num * pow2(200) == old_whole * den + before,
                        old_whole + 1 <= 0x10_0000_0000_0000,
                        before < den,
                ;
                assert(false) by (nonlinear_arith)
                    requires
                        num * pow2(200) < 0x10_0000_0000_0000 * den,
                        num * ten(30) >= den,
                        num >= 0,
                        ten(30) == 1_000_000_000_000_000_000_000_000_000_000,
                        pow2(200)
                            == 0x100_0000_0000_0000_0000_0000_0000_0000_0000_0000_0000_0000_0000int,
                ;
            }
        }
        let bit: u8 = double(&mut rest);
        whole = whole * 2 + bit as u128;
        s += 1;
        proof {
            lemma_value_bound(rest@);
            lemma_pow2_unfold(s as nat);
            let (p, q) = (pow2(old_s), value_of(rest@));
            assert(num * (2 * p) == (old_whole * 2 + bit) * den + q) by (nonlinear_arith)
                requires
                    num * p == old_whole * den + before,
                    2 * before == bit * den + q,
            ;
        }
    }
    let mut g: u128 = 1;
    let mut k: u32 = 0;
    while whole / g >= 0x20_0000_0000_0000
        invariant
            g == pow2(k as nat),
            g >= 1,
            g == 1 || g % 2 == 0,
            k == 0 <==> g == 1,
            k <= 27,
            whole >= 0x10_0000_0000_0000 * g,
            whole < 0x1_0000_0000_0000_0000_0000,
        decreases whole - g,
    {
        proof {
            let n = whole as int;
            vstd::arithmetic::div_mod::lemma_fundamental_div_mod(n, g as int);
            assert(n >= 0x20_0000_0000_0000 * g) by (nonlinear_arith)
                requires
                    n == g * (n / (g as int)) + n % (g as int),
                    n / (g as int) >= 0x20_0000_0000_0000,
                    n % (g as int) >= 0,
                    g >= 1,
            ;
            lemma_pow2_unfold((k + 1) as nat);
            lemma2_to64();
            if k == 27 {
                assert(false);
            }
        }
        g = g * 2;
        k += 1;
    }
    let d: u128 = whole / g;
    let r: u128 = whole % g;
    let ghost fraction = value_of(rest@);
    let up: bool = if g == 1 {
        let bit: u8 = double(&mut rest);
        proof {
            lemma_value_bound(rest@);
            assert(bit * den == (if bit == 1 { den } else { 0 })) by (nonlinear_arith)
                requires
                    bit == 0 || bit == 1,
            ;
        }
        bit == 1 && (!is_nothing(&rest) || d % 2 == 1)
    } else if 2 * r > g {
        true
    } else {
        2 * r == g && (!is_nothing(&rest) || d % 2 == 1)
    };
    let m: u128 = if up {
        d + 1
    } else {
        d
    };
    proof {
        let n = whole as int;
        vstd::arithmetic::div_mod::lemma_fundamental_div_mod(n, g as int);
        assert(n < 0x20_0000_0000_0000 * g) by (nonlinear_arith)
            requires
                n == g * (n / (g as int)) + n % (g as int),
                n / (g as int) < 0x20_0000_0000_0000,
                n % (g as int) < g,
                g >= 1,
        ;
        lemma2_to64_rest();
        lemma2_to64();
        lemma_ten_adds(rest@.len(), 0);
        lemma_rounded(whole as nat, g as nat, fraction, den, m as nat);
        lemma_from_bits(num, den, whole as nat, fraction, s as nat, k as nat, m as nat);
    }
    Close::Double(m as u64, 1074 - s + k)
}

// ---------------------------------------------------------------------------
// Products
// ---------------------------------------------------------------------------

/// One doubled again and again.
fn power(n: u32) -> (r: u128)
    requires
        n <= 120,
    ensures
        r == pow2(n as nat),
        1 <= r <= 0x100_0000_0000_0000_0000_0000_0000_0000,
{
    let mut r: u128 = 1;
    let mut i: u32 = 0;
    proof {
        lemma2_to64();
        lemma2_to64_rest();
        lemma_pow2_adds(64, 56);
    }
    while i < n
        invariant
            i <= n <= 120,
            r == pow2(i as nat),
            r >= 1,
            pow2(120) == 0x100_0000_0000_0000_0000_0000_0000_0000,
        decreases n - i,
    {
        proof {
            lemma_pow2_unfold((i + 1) as nat);
            if i + 1 < 120 {
                lemma_pow2_strictly_increases((i + 1) as nat, 120);
            }
        }
        r = r * 2;
        i += 1;
    }
    proof {
        if n < 120 {
            lemma_pow2_strictly_increases(n as nat, 120);
        }
    }
    r
}

/// The whole number nearest to a quotient.
fn round_half_even(a: u128, b: u128) -> (r: u128)
    requires
        0 < b <= 0x100_0000_0000_0000_0000_0000_0000_0000,
    ensures
        r == half_even(a as nat, b as nat),
        r <= a + 1,
{
    let (d, rest): (u128, u128) = (a / b, a % b);
    proof {
        assert(d <= a && (b > 1 && a > 0 ==> d < a)) by (nonlinear_arith)
            requires
                d == a as int / b as int,
                b > 0,
                a >= 0,
        ;
    }
    if 2 * rest > b || (2 * rest == b && d % 2 == 1) {
        assert(b > 1);
        d + 1
    } else {
        d
    }
}

/// What is nearly nothing stays so.
proof fn lemma_tiny(num: nat, den: nat, by: nat)
    requires
        den > 0,
        num * ten(30) < den,
        by <= 0x80_0000_0000_0000,
    ensures
        2 * (near(num * unit(), den) * by) + 1 < unit(),
{
    let (u, d, e) = (unit(), near(num * unit(), den), ten(30));
    lemma_near_bounds(num * unit(), den);
    reveal_with_fuel(ten, 31);
    lemma_unit();
    let nu = num * u;
    assert((d * den) * e <= (2 * nu + den) * e) by (nonlinear_arith)
        requires
            d * den <= 2 * nu + den,
            e > 0,
    ;
    assert((2 * nu + den) * e == 2 * ((num * e) * u) + den * e) by (nonlinear_arith)
        requires
            nu == num * u,
    ;
    assert((num * e) * u <= den * u) by (nonlinear_arith)
        requires
            num * e <= den,
            u >= 0,
    ;
    assert((d * e) * den == (d * den) * e) by (nonlinear_arith);
    assert(2 * (den * u) + den * e == (2 * u + e) * den) by (nonlinear_arith);
    assert(d * e <= 2 * u + e) by (nonlinear_arith)
        requires
            (d * e) * den <= (2 * u + e) * den,
            den > 0,
    ;
    assert((2 * (d * by) + 1) * e < u * e) by (nonlinear_arith)
        requires
            d * e <= 2 * u + e,
            by <= 0x80_0000_0000_0000,
            e == 1_000_000_000_000_000_000_000_000_000_000,
            u >= 0x1_0000_0000_0000_0000,
    {
        assert((d * by) * e == (d * e) * by);
        assert((d * e) * by <= (2 * u + e) * 0x80_0000_0000_0000);
    }
    assert(2 * (d * by) + 1 < u) by (nonlinear_arith)
        requires
            (2 * (d * by) + 1) * e < u * e,
            e > 0,
    ;
}

/// What is past everything stays so.
proof fn lemma_huge(num: nat, den: nat, by: nat)
    requires
        den > 0,
        num >= ten(22) * den,
        by >= 1,
    ensures
        near(num * unit(), den) * by >= 0x4_0000_0000_0000_0000 * unit(),
        near(num * unit(), den) <= near(num * unit(), den) * by,
{
    let (u, d, e) = (unit(), near(num * unit(), den), ten(22));
    lemma_near_bounds(num * unit(), den);
    reveal_with_fuel(ten, 23);
    lemma_unit();
    assert(e * u <= 2 * d + 1) by (nonlinear_arith)
        requires
            num * u <= 2 * (d * den) + den,
            num >= e * den,
            den > 0,
            u >= 0,
    {
        assert(num * u >= (e * den) * u);
        assert((e * u) * den <= (2 * d + 1) * den);
    }
    assert(e * u == 10_000_000_000_000_000_000_000 * u) by (nonlinear_arith)
        requires
            e == 10_000_000_000_000_000_000_000,
    ;
    assert(d * by >= d) by (nonlinear_arith)
        requires
            by >= 1,
    ;
}

/// One holds many of the least double.
proof fn lemma_unit()
    ensures
        unit() > 0x1_0000_0000_0000_0000,
{
    lemma2_to64();
    lemma2_to64_rest();
    lemma_pow2_strictly_increases(64, 1074);
}

/// A power of two against one, and the whole numbers that a product with it holds.
proof fn lemma_units(x: nat, e: nat)
    ensures
        e >= 1074 ==> x * pow2(e) == (x * pow2((e - 1074) as nat)) * unit(),
        e >= 1074 ==> (x * pow2(e)) / unit() == x * pow2((e - 1074) as nat),
        e <= 1074 ==> unit() == pow2((1074 - e) as nat) * pow2(e),
        e <= 1074 ==> (x * pow2(e)) / unit() == x / pow2((1074 - e) as nat),
{
    lemma_unit();
    if e >= 1074 {
        lemma_pow2_adds((e - 1074) as nat, 1074);
        let n = pow2((e - 1074) as nat);
        assert(((e - 1074) as nat) + 1074 == e);
        assert(x * (n * unit()) == (x * n) * unit()) by (nonlinear_arith);
        vstd::arithmetic::div_mod::lemma_div_multiples_vanish((x * n) as int, unit() as int);
        assert(unit() * (x * n) == (x * n) * unit()) by (nonlinear_arith);
    }
    if e <= 1074 {
        lemma_pow2_adds((1074 - e) as nat, e);
        assert(((1074 - e) as nat) + e == 1074nat);
        let (n, g) = (pow2((1074 - e) as nat), pow2(e));
        lemma_pow2_pos((1074 - e) as nat);
        lemma_pow2_pos(e);
        vstd::arithmetic::div_mod::lemma_div_denominator((x * g) as int, g as int, n as int);
        vstd::arithmetic::div_mod::lemma_div_multiples_vanish(x as int, g as int);
        assert(g * x == x * g && g * n == n * g) by (nonlinear_arith);
    }
}

/// A product that is past everything as a number of ones.
proof fn lemma_many(n: nat, limit: nat)
    requires
        n >= limit * unit(),
    ensures
        n / unit() >= limit,
{
    lemma_unit();
    let u = unit();
    vstd::arithmetic::div_mod::lemma_fundamental_div_mod(n as int, u as int);
    let (d, r) = (n / u, n % u);
    assert(d >= limit) by (nonlinear_arith)
        requires
            n == u * d + r,
            r < u,
            n >= limit * u,
            u > 0,
    ;
}

/// `x` of a power of two, as a number of ones.
fn ones(x: u64, e: u32) -> (r: u64)
    requires
        BITS_53 / 2 <= x <= BITS_53,
    ensures
        r == saturated((x * pow2(e as nat)) as nat / unit()),
{
    proof {
        lemma_units(x as nat, e as nat);
        lemma2_to64();
        lemma2_to64_rest();
    }
    if e >= 1074 {
        let n: u32 = e - 1074;
        if n >= 12 {
            proof {
                if n > 12 {
                    lemma_pow2_strictly_increases(12, n as nat);
                }
                assert(x * pow2(n as nat) >= 0x10_0000_0000_0000 * 0x1000) by (nonlinear_arith)
                    requires
                        x >= 0x10_0000_0000_0000,
                        pow2(n as nat) >= 0x1000,
                ;
            }
            return u64::MAX;
        }
        let g: u128 = power(n);
        proof {
            if n < 12 {
                lemma_pow2_strictly_increases(n as nat, 12);
            }
            assert(x * g <= 0x20_0000_0000_0000 * 0x1000) by (nonlinear_arith)
                requires
                    x <= 0x20_0000_0000_0000,
                    g <= 0x1000,
            ;
        }
        let all: u128 = x as u128 * g;
        if all > u64::MAX as u128 {
            u64::MAX
        } else {
            all as u64
        }
    } else {
        let n: u32 = 1074 - e;
        if n >= 54 {
            proof {
                if n > 54 {
                    lemma_pow2_strictly_increases(54, n as nat);
                }
                vstd::arithmetic::div_mod::lemma_basic_div(x as int, pow2(n as nat) as int);
            }
            return 0;
        }
        let g: u128 = power(n);
        let all: u128 = x as u128 / g;
        proof {
            assert(all <= x) by (nonlinear_arith)
                requires
                    all == x as int / g as int,
                    g >= 1,
                    x >= 0,
            ;
        }
        all as u64
    }
}

/// A decimal number times a whole one, both the double nearest to it: a whole number.
#[verifier::spinoff_prover]
#[verifier::rlimit(30)]
pub fn scaled(digits: &[char], point: i128, by: u64) -> (r: u64)
    requires
        all_digits(digits@),
        -0x1_0000_0000_0000_0000_0000 <= point <= 0x1_0000_0000_0000_0000_0000,
        1 <= by <= 0x80_0000_0000_0000,
    ensures
        r == scaled_double(digits@, point as int, by as nat),
{
    let ghost (num, den) = (numerator(digits@, point as int), denominator(digits@, point as int));
    let ghost d = double_of(digits@, point as int);
    let ghost product = (d * by) as nat;
    proof {
        lemma_denominator(digits@, point as int);
        lemma_unit();
        lemma_near_bounds(product, 1);
        assert(near(product, 1) * 1 == near(product, 1)) by (nonlinear_arith);
    }
    match nearest(digits, point) {
        Close::Tiny => {
            proof {
                lemma_tiny(num, den, by as nat);
                vstd::arithmetic::div_mod::lemma_basic_div(
                    near(product, 1) as int,
                    unit() as int,
                );
            }
            0
        },
        Close::Huge => {
            proof {
                lemma_huge(num, den, by as nat);
                lemma_many(near(product, 1), 0x1_0000_0000_0000_0000);
            }
            u64::MAX
        },
        Close::Double(m, j) => {
            proof {
                assert(0x10_0000_0000_0000 <= m * by <= 0x20_0000_0000_0000 * 0x80_0000_0000_0000)
                    by (nonlinear_arith)
                    requires
                        0x10_0000_0000_0000 <= m <= 0x20_0000_0000_0000,
                        1 <= by <= 0x80_0000_0000_0000,
                ;
            }
            let all: u128 = m as u128 * by as u128;
            let mut g: u128 = 1;
            let mut t: u32 = 0;
            proof {
                lemma2_to64();
                lemma2_to64_rest();
            }
            while all / g >= 0x20_0000_0000_0000
                invariant
                    g == pow2(t as nat),
                    1 <= g,
                    t <= 60,
                    all >= 0x10_0000_0000_0000 * g,
                    all <= 0x20_0000_0000_0000 * 0x80_0000_0000_0000,
                decreases all - g,
            {
                proof {
                    let n = all as int;
                    vstd::arithmetic::div_mod::lemma_fundamental_div_mod(n, g as int);
                    assert(n >= 0x20_0000_0000_0000 * g) by (nonlinear_arith)
                        requires
                            n == g * (n / (g as int)) + n % (g as int),
                            n / (g as int) >= 0x20_0000_0000_0000,
                            n % (g as int) >= 0,
                            g >= 1,
                    ;
                    lemma_pow2_unfold((t + 1) as nat);
                    lemma2_to64();
                    lemma2_to64_rest();
                }
                g = g * 2;
                t += 1;
            }
            let r: u128 = round_half_even(all, g);
            proof {
                let n = all as nat;
                let (low, high) = (pow2(52), pow2(53));
                lemma2_to64();
                lemma2_to64_rest();
                vstd::arithmetic::div_mod::lemma_fundamental_div_mod(n as int, g as int);
                assert(n < 0x20_0000_0000_0000 * g) by (nonlinear_arith)
                    requires
                        n == g * (n as int / (g as int)) + n as int % (g as int),
                        n as int / (g as int) < 0x20_0000_0000_0000,
                        (n as int % (g as int)) < g,
                        g >= 1,
                ;
                let e = (j + t) as nat;
                let scale = pow2(j as nat);
                lemma_pow2_pos(j as nat);
                lemma_pow2_adds(j as nat, t as nat);
                lemma_pow2_adds(52, e);
                lemma_pow2_adds(53, e);
                assert(product == n * scale) by (nonlinear_arith)
                    requires
                        product == (m * scale) * by,
                        n == m * by,
                ;
                assert(1 * pow2(e) == g * scale) by (nonlinear_arith)
                    requires
                        pow2(e) == scale * g,
                ;
                assert(n * scale < pow2(53 + e) * 1) by (nonlinear_arith)
                    requires
                        pow2(53 + e) == high * pow2(e),
                        pow2(e) == scale * g,
                        n < high * g,
                        scale > 0,
                ;
                assert(n * scale >= pow2(52 + e) * 1) by (nonlinear_arith)
                    requires
                        pow2(52 + e) == low * pow2(e),
                        pow2(e) == scale * g,
                        n >= low * g,
                        scale > 0,
                ;
                lemma_near(product, 1, n, g as nat, e, scale);
                lemma_half_even_near(n, g as nat);
                assert(low <= r <= high) by (nonlinear_arith)
                    requires
                        n >= low * g,
                        n < high * g,
                        2 * (r * g) <= 2 * n + g,
                        2 * n <= 2 * (r * g) + g,
                        g >= 1,
                ;
                assert(pow2(e) * r == r * pow2(e)) by (nonlinear_arith);
            }
            ones(r as u64, j + t)
        },
    }
}

/// The whole number nearest to a decimal number's double times a whole one.
#[verifier::spinoff_prover]
#[verifier::rlimit(30)]
pub fn rounded(digits: &[char], point: i128, by: u64) -> (r: u64)
    requires
        all_digits(digits@),
        -0x1_0000_0000_0000_0000_0000 <= point <= 0x1_0000_0000_0000_0000_0000,
        1 <= by <= 0x80_0000_0000_0000,
    ensures
        r == rounded_double(digits@, point as int, by as nat),
{
    let ghost (num, den) = (numerator(digits@, point as int), denominator(digits@, point as int));
    let ghost product = (double_of(digits@, point as int) * by) as nat;
    proof {
        lemma_denominator(digits@, point as int);
        lemma_unit();
    }
    match nearest(digits, point) {
        Close::Tiny => {
            proof {
                lemma_tiny(num, den, by as nat);
                vstd::arithmetic::div_mod::lemma_basic_div(product as int, unit() as int);
                vstd::arithmetic::div_mod::lemma_small_mod(product, unit());
            }
            0
        },
        Close::Huge => {
            proof {
                lemma_huge(num, den, by as nat);
                lemma_many(product, 0x1_0000_0000_0000_0000);
            }
            u64::MAX
        },
        Close::Double(m, j) => {
            proof {
                assert(0x10_0000_0000_0000 <= m * by <= 0x20_0000_0000_0000 * 0x80_0000_0000_0000)
                    by (nonlinear_arith)
                    requires
                        0x10_0000_0000_0000 <= m <= 0x20_0000_0000_0000,
                        1 <= by <= 0x80_0000_0000_0000,
                ;
            }
            let all: u128 = m as u128 * by as u128;
            proof {
                let scale = pow2(j as nat);
                assert(product == all * scale) by (nonlinear_arith)
                    requires
                        product == (m * scale) * by,
                        all == m * by,
                ;
                lemma_units(all as nat, j as nat);
                lemma2_to64();
                lemma2_to64_rest();
                lemma_pow2_pos(j as nat);
            }
            if j >= 1074 {
                let n: u32 = j - 1074;
                proof {
                    let whole = all * pow2(n as nat);
                    vstd::arithmetic::div_mod::lemma_mod_multiples_basic(
                        whole as int,
                        unit() as int,
                    );
                    assert(half_even(product, unit()) == whole);
                }
                if n >= 12 {
                    proof {
                        if n > 12 {
                            lemma_pow2_strictly_increases(12, n as nat);
                        }
                        assert(all * pow2(n as nat) >= 0x10_0000_0000_0000 * 0x1000)
                            by (nonlinear_arith)
                            requires
                                all >= 0x10_0000_0000_0000,
                                pow2(n as nat) >= 0x1000,
                        ;
                    }
                    return u64::MAX;
                }
                let g: u128 = power(n);
                proof {
                    lemma_pow2_strictly_increases(n as nat, 12);
                    assert(all * g <= 0x20_0000_0000_0000 * 0x80_0000_0000_0000 * 0x1000)
                        by (nonlinear_arith)
                        requires
                            all <= 0x20_0000_0000_0000 * 0x80_0000_0000_0000,
                            g <= 0x1000,
                    ;
                }
                let whole: u128 = all * g;
                if whole > u64::MAX as u128 {
                    u64::MAX
                } else {
                    whole as u64
                }
            } else {
                let n: u32 = 1074 - j;
                proof {
                    lemma_pow2_pos(n as nat);
                    lemma_half_even_scales(all as nat, pow2(n as nat), pow2(j as nat));
                }
                if n > 120 {
                    proof {
                        lemma_pow2_adds(64, 56);
                        lemma_pow2_strictly_increases(120, n as nat);
                        vstd::arithmetic::div_mod::lemma_basic_div(
                            all as int,
                            pow2(n as nat) as int,
                        );
                        vstd::arithmetic::div_mod::lemma_small_mod(all as nat, pow2(n as nat));
                    }
                    return 0;
                }
                let g: u128 = power(n);
                let whole: u128 = round_half_even(all, g);
                if whole > u64::MAX as u128 {
                    u64::MAX
                } else {
                    whole as u64
                }
            }
        },
    }
}

/// Whether a decimal number's double is greater than a whole number.
#[verifier::spinoff_prover]
#[verifier::rlimit(30)]
pub fn exceeds(digits: &[char], point: i128, limit: u64) -> (r: bool)
    requires
        all_digits(digits@),
        -0x1_0000_0000_0000_0000_0000 <= point <= 0x1_0000_0000_0000_0000_0000,
        limit >= 1,
    ensures
        r == double_exceeds(digits@, point as int, limit as nat),
{
    let ghost (num, den) = (numerator(digits@, point as int), denominator(digits@, point as int));
    proof {
        lemma_denominator(digits@, point as int);
        lemma_unit();
        let d = double_of(digits@, point as int);
        assert(d * 1 == d) by (nonlinear_arith);
        assert(unit() <= limit * unit() <= 0x1_0000_0000_0000_0000 * unit()) by (nonlinear_arith)
            requires
                1 <= limit <= 0x1_0000_0000_0000_0000,
        ;
    }
    match nearest(digits, point) {
        Close::Tiny => {
            proof {
                lemma_tiny(num, den, 1);
            }
            false
        },
        Close::Huge => {
            proof {
                lemma_huge(num, den, 1);
            }
            true
        },
        Close::Double(m, j) => {
            proof {
                lemma_units(m as nat, j as nat);
                lemma2_to64();
                lemma2_to64_rest();
                lemma_pow2_pos(j as nat);
            }
            if j >= 1074 {
                let g: u128 = power(j - 1074);
                proof {
                    let n = (j - 1074) as nat;
                    lemma_pow2_strictly_increases(n, 37);
                    assert(m * g <= 0x20_0000_0000_0000 * 0x20_0000_0000) by (nonlinear_arith)
                        requires
                            m <= 0x20_0000_0000_0000,
                            g <= 0x20_0000_0000,
                    ;
                    let (a, b) = ((m * g) as nat, limit as nat);
                    assert(a * unit() > b * unit() <==> a > b) by (nonlinear_arith)
                        requires
                            unit() > 0,
                    ;
                }
                m as u128 * g > limit as u128
            } else {
                let n: u32 = 1074 - j;
                proof {
                    let (a, b, k) = (m as nat, limit * pow2(n as nat), pow2(j as nat));
                    assert(limit * (pow2(n as nat) * k) == b * k) by (nonlinear_arith)
                        requires
                            b == limit * pow2(n as nat),
                    ;
                    assert(a * k > b * k <==> a > b) by (nonlinear_arith)
                        requires
                            k > 0,
                    ;
                }
                if n > 53 {
                    proof {
                        lemma_pow2_strictly_increases(53, n as nat);
                        assert(limit * pow2(n as nat) >= pow2(n as nat)) by (nonlinear_arith)
                            requires
                                limit >= 1,
                        ;
                    }
                    return false;
                }
                let g: u128 = power(n);
                proof {
                    if n < 53 {
                        lemma_pow2_strictly_increases(n as nat, 53);
                    }
                    assert(limit * g <= 0x1_0000_0000_0000_0000 * 0x20_0000_0000_0000)
                        by (nonlinear_arith)
                        requires
                            limit <= 0x1_0000_0000_0000_0000,
                            g <= 0x20_0000_0000_0000,
                    ;
                }
                m as u128 > limit as u128 * g
            }
        },
    }
}

/// A denominator is not zero.
proof fn lemma_denominator(digits: Seq<char>, point: int)
    ensures
        denominator(digits, point) > 0,
{
    if point < digits.len() {
        lemma_ten_adds((digits.len() - point) as nat, 0);
    }
}

// ---------------------------------------------------------------------------
// Laws
// ---------------------------------------------------------------------------

/// A double is nearest to itself.
pub proof fn law_a_double_is_its_own_nearest(n: nat)
    requires
        is_double(n),
    ensures
        near(n * unit(), 1) == n * unit(),
{
    let (h, t) = choose|h: nat, t: nat| is_held(n, h, t);
    let p = (n * unit()) as nat;
    let e = t + 1074;
    lemma_pow2_adds(t, 1074);
    let u = unit();
    assert(p == h * pow2(e)) by (nonlinear_arith)
        requires
            p == (h * pow2(t)) * u,
            pow2(e) == pow2(t) * u,
    ;
    let j = lemma_grain_place(p, 1);
    lemma_pow2_pos(e);
    lemma_pow2_pos(j);
    lemma2_to64();
    lemma2_to64_rest();
    if j > e {
        lemma_pow2_adds(53, e);
        assert(p < pow2(53 + e)) by (nonlinear_arith)
            requires
                p == h * pow2(e),
                pow2(53 + e) == pow2(53) * pow2(e),
                h < pow2(53),
                pow2(e) > 0,
        ;
        if 53 + e < 52 + j {
            lemma_pow2_strictly_increases(53 + e, 52 + j);
        }
        assert(false);
    }
    let k = (e - j) as nat;
    lemma_pow2_adds(j, k);
    let (g, d) = (pow2(j), h * pow2(k));
    assert(j + k == e);
    assert(p == d * g) by (nonlinear_arith)
        requires
            p == h * pow2(e),
            pow2(e) == g * pow2(k),
            d == h * pow2(k),
    ;
    assert(1 * g == g && g * d == d * g) by (nonlinear_arith);
    vstd::arithmetic::div_mod::lemma_mod_multiples_basic(d as int, g as int);
    vstd::arithmetic::div_mod::lemma_div_multiples_vanish(d as int, g as int);
}

/// The digits of a whole number write its double.
pub proof fn lemma_whole(digits: Seq<char>, by: nat)
    ensures
        scaled_double(digits, digits.len() as int, by) == product(digits_value(digits), by),
{
}

/// A product is exact where both the first number and the product are doubles.
pub proof fn law_products_of_doubles_are_exact(value: nat, by: nat)
    requires
        is_double(value),
        is_double(value * by),
    ensures
        product(value, by) == saturated(value * by),
{
    law_a_double_is_its_own_nearest(value);
    law_a_double_is_its_own_nearest(value * by);
    let u = unit();
    assert((value * u) * by == (value * by) * u) by (nonlinear_arith);
    lemma_unit();
    vstd::arithmetic::div_mod::lemma_div_multiples_vanish((value * by) as int, u as int);
    assert(u * (value * by) == (value * by) * u) by (nonlinear_arith);
}

} // verus!
