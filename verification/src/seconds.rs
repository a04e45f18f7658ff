//! Decimal numbers as requests write them.
use vstd::prelude::*;

use crate::lexer::{digits_saturating, lemma_run, mantissa_end, run, run_end, Class};
use crate::nearest::{double_exceeds, exceeds, rounded, rounded_double, scaled, scaled_double};
use crate::text::{all_digits, chars_of, digits_value, is_digit, lower, lowered, same, string_of};

verus! {

/// A time less a duration, and zero where it would be before zero.
pub open spec fn minus(a: u64, b: u64) -> u64 {
    if a >= b {
        (a - b) as u64
    } else {
        0
    }
}

/// A decimal number: the value of `0.digits` with the point moved `point` places to the
/// right.
pub struct DecimalView {
    pub negative: bool,
    pub digits: Seq<char>,
    pub point: int,
}

/// What a text writes as a number.
pub enum ReadingView {
    /// `inf`, `infinity` or `nan`.
    Special,
    Number(DecimalView),
}

pub const NANOS_PER_SECOND: u64 = 1_000_000_000;

pub const NANOS_PER_MILLI: u64 = 1_000_000;

/// The greatest exponent that is told apart from greater ones.
pub const EXPONENT_LIMIT: u64 = 1_000_000_000_000_000_000;

/// The digits of the least number that is nearer to infinity than to any double. It has as
/// many before the point as there are.
pub const OVERFLOW: &'static str =
    "179769313486231580793728971405303415079934132710037826936173778980444968292764750946\
    649017977587207096330286416692887910946555547851940402630657488671505820681908902000\
    708383676273854845817711531764475730270069855571366959622842914819860834936475292719\
    074168444365510704342711559699508093042880177904174497792";

pub const OVERFLOW_POINT: i128 = 309;

/// The digits of half the least double above zero. Up to it a number is nearest to zero.
pub const UNDERFLOW: &'static str =
    "247032822920623272088284396434110686182529901307162382212792841250337753635104375932\
    649918180817996189898282347722858865463328355177969898199387398005390939063150356595\
    155702263922908583924491051844359318028499365361525003193704576782492193656236698636\
    584807570015857692699037063119282795585513329278343384093519780155312465972635795746\
    227664652728272200563740064854999770965994704540208281662262378573934507363390079677\
    619305775067401763246736009689513405355374585166611342237666786041621596804619144672\
    918403005300575308490487653917113865916462395249126236538818796362393732804238910186\
    723484976682350898633885879256283027559956575244555072551893136908362547791869486679\
    94968324049705821028513185451396213837722826145437693412532098591327667236328125";

pub const UNDERFLOW_POINT: i128 = -323;

/// The exponent that a text writes: digits, with a sign allowed in front.
pub open spec fn exponent_of(t: Seq<char>) -> Option<int> {
    let signed = t.len() > 0 && (t[0] == '+' || t[0] == '-');
    let digits = if signed {
        t.skip(1)
    } else {
        t
    };
    if digits.len() == 0 || !all_digits(digits) {
        None
    } else {
        let size = if digits_value(digits) > EXPONENT_LIMIT {
            EXPONENT_LIMIT as int
        } else {
            digits_value(digits) as int
        };
        Some(
            if signed && t[0] == '-' {
                -size
            } else {
                size
            },
        )
    }
}

/// The digits of a mantissa, without the point.
pub open spec fn mantissa_digits(s: Seq<char>) -> Seq<char> {
    let whole = run(s, 0, Class::Digit);
    let end = mantissa_end(s);
    if end > whole {
        s.take(whole) + s.subrange(whole + 1, end)
    } else {
        s.take(whole)
    }
}

/// The number that a text without a sign writes: digits with at most one point among
/// them and at least one digit, then maybe an exponent.
pub open spec fn unsigned_number(s: Seq<char>) -> Option<(Seq<char>, int)> {
    let whole = run(s, 0, Class::Digit);
    let end = mantissa_end(s);
    if mantissa_digits(s).len() == 0 {
        None
    } else if end == s.len() {
        Some((mantissa_digits(s), whole))
    } else if s[end] == 'e' || s[end] == 'E' {
        match exponent_of(s.skip(end + 1)) {
            Some(exponent) => Some((mantissa_digits(s), whole + exponent)),
            None => None,
        }
    } else {
        None
    }
}

/// What a text writes as a number, as the standard library reads one.
pub open spec fn read_number(t: Seq<char>) -> Option<ReadingView> {
    let signed = t.len() > 0 && (t[0] == '+' || t[0] == '-');
    let s = if signed {
        t.skip(1)
    } else {
        t
    };
    let word = lower(s);
    if word == "inf"@ || word == "infinity"@ || word == "nan"@ {
        Some(ReadingView::Special)
    } else {
        match unsigned_number(s) {
            Some((digits, point)) => Some(
                ReadingView::Number(
                    DecimalView { negative: signed && t[0] == '-', digits, point },
                ),
            ),
            None => None,
        }
    }
}

/// The number that the first `n` digits write, with zeros behind the last.
pub open spec fn head(digits: Seq<char>, n: int) -> nat
    decreases n,
{
    if n <= 0 {
        0
    } else if n <= digits.len() {
        (head(digits, n - 1) * 10 + (digits[n - 1] as u32 - '0' as u32)) as nat
    } else {
        head(digits, n - 1) * 10
    }
}

/// The digit that counts the `w`-th power of ten in `0.digits` with its point moved.
pub open spec fn digit_of(digits: Seq<char>, point: int, w: int) -> char {
    let i = point - 1 - w;
    if 0 <= i < digits.len() {
        digits[i]
    } else {
        '0'
    }
}

/// Whether one decimal number is less than another: in the first digit that differs.
pub open spec fn below(a: Seq<char>, a_point: int, b: Seq<char>, b_point: int) -> bool {
    exists|w: int|
        #[trigger] digit_of(a, a_point, w) < digit_of(b, b_point, w) && forall|u: int|
            u > w ==> #[trigger] digit_of(a, a_point, u) == digit_of(b, b_point, u)
}

impl DecimalView {
    /// Whether the number is zero as a double.
    pub open spec fn is_zero(self) -> bool {
        !below(UNDERFLOW@, UNDERFLOW_POINT as int, self.digits, self.point)
    }

    /// Whether the magnitude is finite as a double.
    pub open spec fn finite(self) -> bool {
        below(self.digits, self.point, OVERFLOW@, OVERFLOW_POINT as int)
    }

    /// Whether the number is at least zero and finite.
    pub open spec fn countable(self) -> bool {
        (!self.negative || self.is_zero()) && self.finite()
    }

    /// The magnitude as a double times a whole number, rounded down and held to the greatest
    /// number there is.
    pub open spec fn times(self, by: nat) -> u64 {
        scaled_double(self.digits, self.point, by)
    }

    /// The same, rounded to the nearest whole number.
    pub open spec fn rounded(self, by: nat) -> u64 {
        rounded_double(self.digits, self.point, by)
    }

    /// Whether the magnitude as a double is greater than a whole number.
    pub open spec fn exceeds(self, limit: nat) -> bool {
        double_exceeds(self.digits, self.point, limit)
    }
}

// ---------------------------------------------------------------------------
// Reading
// ---------------------------------------------------------------------------

/// A decimal number.
#[derive(Debug)]
pub struct Decimal {
    pub negative: bool,
    pub digits: Vec<char>,
    pub point: i128,
}

impl View for Decimal {
    type V = DecimalView;

    open spec fn view(&self) -> DecimalView {
        DecimalView { negative: self.negative, digits: self.digits@, point: self.point as int }
    }
}

/// What a text writes as a number.
#[derive(Debug)]
pub enum Reading {
    Special,
    Number(Decimal),
}

impl View for Reading {
    type V = ReadingView;

    open spec fn view(&self) -> ReadingView {
        match self {
            Reading::Special => ReadingView::Special,
            Reading::Number(decimal) => ReadingView::Number(decimal@),
        }
    }
}

impl Decimal {
    /// Digits only, and a point that stands where a text could put it.
    pub open spec fn wf(&self) -> bool {
        &&& all_digits(self.digits@)
        &&& self.digits@.len() <= usize::MAX
        &&& -0x1_0000_0000_0000_0000_0000 <= self.point <= 0x1_0000_0000_0000_0000_0000
    }
}

fn only_digits(chars: &[char]) -> (r: bool)
    ensures
        r == all_digits(chars@),
{
    let mut i: usize = 0;
    while i < chars.len()
        invariant
            i <= chars@.len(),
            forall|j: int| 0 <= j < i ==> is_digit(#[trigger] chars@[j]),
        decreases chars@.len() - i,
    {
        if !is_digit(chars[i]) {
            return false;
        }
        i += 1;
    }
    true
}

fn read_exponent(t: &[char]) -> (r: Option<i128>)
    ensures
        exponent_of(t@) == (match r {
            Some(n) => Some(n as int),
            None => None,
        }),
        r is Some ==> -1_000_000_000_000_000_000 <= r->Some_0 <= 1_000_000_000_000_000_000,
{
    let signed: bool = t.len() > 0 && (t[0] == '+' || t[0] == '-');
    let digits: &[char] = if signed {
        vstd::slice::slice_subrange(t, 1, t.len())
    } else {
        t
    };
    assert(signed ==> digits@ =~= t@.skip(1));
    if digits.len() == 0 || !only_digits(digits) {
        return None;
    }
    let exact: u64 = digits_saturating(digits);
    let size: i128 = if exact > EXPONENT_LIMIT {
        EXPONENT_LIMIT as i128
    } else {
        exact as i128
    };
    if signed && t[0] == '-' {
        Some(-size)
    } else {
        Some(size)
    }
}

fn extend(out: &mut Vec<char>, from: &[char])
    ensures
        final(out)@ == old(out)@ + from@,
{
    let ghost start = out@;
    let mut i: usize = 0;
    assert(start + from@.take(0) =~= start);
    while i < from.len()
        invariant
            i <= from@.len(),
            out@ == start + from@.take(i as int),
        decreases from@.len() - i,
    {
        out.push(from[i]);
        assert(out@ =~= start + from@.take(i as int + 1));
        i += 1;
    }
    assert(from@.take(i as int) =~= from@);
}

/// The digits of a mantissa, how many stand before its point, and where it ends.
pub fn mantissa(s: &[char]) -> (r: (Vec<char>, usize, usize))
    ensures
        r.0@ == mantissa_digits(s@),
        all_digits(r.0@),
        r.1 == run(s@, 0, Class::Digit),
        r.2 == mantissa_end(s@),
{
    let size: usize = s.len();
    let whole: usize = run_end(s, 0, Class::Digit);
    let end: usize = if whole < size && s[whole] == '.' {
        run_end(s, whole + 1, Class::Digit)
    } else {
        whole
    };
    let mut digits: Vec<char> = Vec::new();
    extend(&mut digits, vstd::slice::slice_subrange(s, 0, whole));
    if end > whole {
        extend(&mut digits, vstd::slice::slice_subrange(s, whole + 1, end));
    }
    proof {
        lemma_run(s@, 0, Class::Digit);
        if whole < size {
            lemma_run(s@, whole + 1, Class::Digit);
        }
        assert(digits@ =~= mantissa_digits(s@));
        assert(all_digits(digits@)) by {
            assert forall|k: int| 0 <= k < digits@.len() implies is_digit(#[trigger] digits@[k]) by {
                if k < whole {
                    assert(digits@[k] == s@[k]);
                } else {
                    assert(digits@[k] == s@[k + 1]);
                }
            }
        }
    }
    (digits, whole, end)
}

/// What `text` writes as a number, as the standard library reads one.
pub fn read(text: &str) -> (r: Option<Reading>)
    ensures
        crate::text::option_view(r) == read_number(text@),
        match r {
            Some(Reading::Number(decimal)) => decimal.wf(),
            _ => true,
        },
{
    let chars: Vec<char> = chars_of(text);
    let signed: bool = chars.len() > 0 && (chars[0] == '+' || chars[0] == '-');
    let start: usize = if signed {
        1
    } else {
        0
    };
    let s: &[char] = vstd::slice::slice_subrange(chars.as_slice(), start, chars.len());
    assert(signed ==> s@ =~= chars@.skip(1));
    assert(!signed ==> s@ =~= chars@);
    let size: usize = s.len();
    let word: String = lowered(string_of(s).as_str());
    if same(word.as_str(), "inf") || same(word.as_str(), "infinity") || same(word.as_str(), "nan") {
        return Some(Reading::Special);
    }
    let (digits, whole, end) = mantissa(s);
    proof {
        lemma_run(s@, 0, Class::Digit);
        if whole < size {
            lemma_run(s@, whole + 1, Class::Digit);
        }
    }
    let count: usize = digits.len();
    if count == 0 {
        return None;
    }
    let negative: bool = signed && chars[0] == '-';
    if end == size {
        return Some(Reading::Number(Decimal { negative, digits, point: whole as i128 }));
    }
    if s[end] != 'e' && s[end] != 'E' {
        return None;
    }
    let rest: &[char] = vstd::slice::slice_subrange(s, end + 1, size);
    assert(rest@ =~= s@.skip(end + 1));
    match read_exponent(rest) {
        Some(exponent) => Some(
            Reading::Number(Decimal { negative, digits, point: whole as i128 + exponent }),
        ),
        None => None,
    }
}

// ---------------------------------------------------------------------------
// Values
// ---------------------------------------------------------------------------

proof fn lemma_not_below(a: Seq<char>, a_point: int, b: Seq<char>, b_point: int, w: int)
    requires
        digit_of(a, a_point, w) > digit_of(b, b_point, w),
        forall|u: int| u > w ==> #[trigger] digit_of(a, a_point, u) == digit_of(b, b_point, u),
    ensures
        !below(a, a_point, b, b_point),
{
    if below(a, a_point, b, b_point) {
        let v = choose|v: int|
            #[trigger] digit_of(a, a_point, v) < digit_of(b, b_point, v) && forall|u: int|
                u > v ==> #[trigger] digit_of(a, a_point, u) == digit_of(b, b_point, u);
        assert(digit_of(a, a_point, w) != digit_of(b, b_point, w));
        assert(digit_of(a, a_point, v) != digit_of(b, b_point, v));
        assert(w == v);
    }
}

/// Whether one decimal number is less than another.
fn is_below(a: &[char], a_point: i128, b: &[char], b_point: i128) -> (r: bool)
    requires
        -0x1_0000_0000_0000_0000_0000 <= a_point <= 0x1_0000_0000_0000_0000_0000,
        -0x1_0000_0000_0000_0000_0000 <= b_point <= 0x1_0000_0000_0000_0000_0000,
    ensures
        r == below(a@, a_point as int, b@, b_point as int),
{
    let mut i: usize = 0;
    let mut j: usize = 0;
    while i < a.len() || j < b.len()
        invariant
            i <= a@.len(),
            j <= b@.len(),
            -0x1_0000_0000_0000_0000_0000 <= a_point <= 0x1_0000_0000_0000_0000_0000,
            -0x1_0000_0000_0000_0000_0000 <= b_point <= 0x1_0000_0000_0000_0000_0000,
            i > 0 && j < b@.len() ==> b_point - 1 - j < a_point - i,
            j > 0 && i < a@.len() ==> a_point - 1 - i < b_point - j,
            forall|u: int|
                (i < a@.len() ==> u > a_point - 1 - i) && (j < b@.len() ==> u > b_point - 1 - j)
                    ==> #[trigger] digit_of(a@, a_point as int, u) == digit_of(
                    b@,
                    b_point as int,
                    u,
                ),
        decreases a@.len() - i + b@.len() - j,
    {
        // The power of ten of the next digit on either side.
        let of_a: i128 = a_point - 1 - i as i128;
        let of_b: i128 = b_point - 1 - j as i128;
        let takes_a: bool = i < a.len() && (j >= b.len() || of_a >= of_b);
        let takes_b: bool = j < b.len() && (i >= a.len() || of_b >= of_a);
        let x: char = if takes_a {
            a[i]
        } else {
            '0'
        };
        let y: char = if takes_b {
            b[j]
        } else {
            '0'
        };
        let ghost w: int = if takes_a {
            of_a as int
        } else {
            of_b as int
        };
        proof {
            assert(digit_of(a@, a_point as int, w) == x);
            assert(digit_of(b@, b_point as int, w) == y);
        }
        if x < y {
            return true;
        }
        if x > y {
            proof {
                lemma_not_below(a@, a_point as int, b@, b_point as int, w);
            }
            return false;
        }
        if takes_a {
            i += 1;
        }
        if takes_b {
            j += 1;
        }
        proof {
            assert forall|u: int|
                (i < a@.len() ==> u > a_point - 1 - i) && (j < b@.len() ==> u > b_point - 1
                    - j) implies #[trigger] digit_of(a@, a_point as int, u) == digit_of(
                b@,
                b_point as int,
                u,
            ) by {
                if u < w {
                    assert(digit_of(a@, a_point as int, u) == '0');
                    assert(digit_of(b@, b_point as int, u) == '0');
                }
            }
        }
    }
    false
}

impl Decimal {
    /// Whether the number is zero as a double.
    pub fn is_zero(&self) -> (r: bool)
        requires
            self.wf(),
        ensures
            r == self@.is_zero(),
    {
        let least: Vec<char> = chars_of(UNDERFLOW);
        !is_below(least.as_slice(), UNDERFLOW_POINT, self.digits.as_slice(), self.point)
    }

    /// Whether the number is at least zero and finite.
    pub fn countable(&self) -> (r: bool)
        requires
            self.wf(),
        ensures
            r == self@.countable(),
    {
        if self.negative && !self.is_zero() {
            return false;
        }
        self.finite()
    }

    /// Whether the magnitude is finite as a double.
    pub fn finite(&self) -> (r: bool)
        requires
            self.wf(),
        ensures
            r == self@.finite(),
    {
        let most: Vec<char> = chars_of(OVERFLOW);
        is_below(self.digits.as_slice(), self.point, most.as_slice(), OVERFLOW_POINT)
    }

    /// The magnitude as a double times `by`, rounded down.
    pub fn times(&self, by: u64) -> (r: u64)
        requires
            self.wf(),
            1 <= by <= 0x80_0000_0000_0000,
        ensures
            r == self@.times(by as nat),
    {
        scaled(self.digits.as_slice(), self.point, by)
    }

    /// The magnitude as a double times `by`, rounded to the nearest whole number.
    pub fn rounded(&self, by: u64) -> (r: u64)
        requires
            self.wf(),
            1 <= by <= 0x80_0000_0000_0000,
        ensures
            r == self@.rounded(by as nat),
    {
        rounded(self.digits.as_slice(), self.point, by)
    }

    /// Whether the magnitude as a double is greater than `limit`.
    pub fn exceeds(&self, limit: u64) -> (r: bool)
        requires
            self.wf(),
            limit >= 1,
        ensures
            r == self@.exceeds(limit as nat),
    {
        exceeds(self.digits.as_slice(), self.point, limit)
    }
}

} // verus!
