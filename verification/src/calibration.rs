//! The two-point calibration that turns a raw sensor reading into a physical
//! quantity.
//!
//! The map is the straight line through two `(reading, value)` pairs. Values
//! are carried in hundredths of their unit, and a converted value is the
//! point on the line rounded to the nearest hundredth, a half upward.

use vstd::prelude::*;
use vstd::arithmetic::div_mod::{lemma_div_is_ordered, lemma_fundamental_div_mod,
    lemma_fundamental_div_mod_converse};

verus! {

/// Two points of a line, as numbers: the reading and the value, in
/// hundredths, of each.
pub struct TwoPoints {
    pub reading_a: int,
    pub value_a: int,
    pub reading_b: int,
    pub value_b: int,
}

/// The distance between the two readings.
pub open spec fn span(p: TwoPoints) -> int {
    if p.reading_b > p.reading_a {
        p.reading_b - p.reading_a
    } else {
        p.reading_a - p.reading_b
    }
}

/// How far the value moves while the reading rises by `span`. Its sign is
/// that of the slope.
pub open spec fn climb(p: TwoPoints) -> int {
    if p.reading_b > p.reading_a {
        p.value_b - p.value_a
    } else {
        p.value_a - p.value_b
    }
}

/// The integer nearest to `num / den`, a half rounded upward, for a positive
/// `den`.
pub open spec fn nearest(num: int, den: int) -> int {
    (2 * num + den) / (2 * den)
}

/// The value that the line through the two points gives to `reading`, to the
/// nearest hundredth. It needs two distinct readings.
pub open spec fn value_at(p: TwoPoints, reading: int) -> int {
    p.value_a + nearest((reading - p.reading_a) * climb(p), span(p))
}

/// A whole multiple of the denominator is divided without rounding.
pub proof fn lemma_nearest_exact(k: int, den: int)
    requires
        den > 0,
    ensures
        nearest(k * den, den) == k,
{
    assert(2 * (k * den) + den == k * (2 * den) + den) by (nonlinear_arith);
    lemma_fundamental_div_mod_converse(2 * (k * den) + den, 2 * den, k, den);
}

/// Rounding moves a quotient by half a unit at most.
pub proof fn lemma_nearest_within_half(num: int, den: int)
    requires
        den > 0,
    ensures
        -den <= 2 * num - 2 * den * nearest(num, den) < den,
{
    lemma_fundamental_div_mod(2 * num + den, 2 * den);
    assert(0 <= (2 * num + den) % (2 * den) < 2 * den);
}

/// Rounding keeps the order of quotients with a common denominator.
pub proof fn lemma_nearest_ordered(low: int, high: int, den: int)
    requires
        den > 0,
        low <= high,
    ensures
        nearest(low, den) <= nearest(high, den),
{
    lemma_div_is_ordered(2 * low + den, 2 * high + den, 2 * den);
}

/// Numerators that differ by the denominator or more round to different
/// integers.
pub proof fn lemma_nearest_apart(low: int, high: int, den: int)
    requires
        den > 0,
        low + den <= high,
    ensures
        nearest(low, den) < nearest(high, den),
{
    let q = nearest(low, den);
    lemma_fundamental_div_mod(2 * low + den, 2 * den);
    let r = (2 * low + den) % (2 * den);
    assert(2 * (low + den) + den == (q + 1) * (2 * den) + r) by (nonlinear_arith)
        requires
            2 * low + den == (2 * den) * q + r,
    ;
    lemma_fundamental_div_mod_converse(2 * (low + den) + den, 2 * den, q + 1, r);
    lemma_nearest_ordered(low + den, high, den);
}

/// The line passes through both of its points: at each of the two readings
/// the converted value is exactly the value paired with it.
pub proof fn lemma_reference_points(p: TwoPoints)
    requires
        p.reading_a != p.reading_b,
    ensures
        value_at(p, p.reading_a) == p.value_a,
        value_at(p, p.reading_b) == p.value_b,
{
    let d = span(p);
    let c = climb(p);
    assert((p.reading_a - p.reading_a) * c == 0 * d) by (nonlinear_arith);
    lemma_nearest_exact(0, d);
    if p.reading_b > p.reading_a {
        assert((p.reading_b - p.reading_a) * c == c * d) by (nonlinear_arith)
            requires
                d == p.reading_b - p.reading_a,
        ;
        lemma_nearest_exact(c, d);
    } else {
        assert((p.reading_b - p.reading_a) * c == (-c) * d) by (nonlinear_arith)
            requires
                d == p.reading_a - p.reading_b,
        ;
        lemma_nearest_exact(-c, d);
    }
}

/// A converted value lies within half a hundredth of the line.
pub proof fn lemma_value_on_line(p: TwoPoints, reading: int)
    requires
        p.reading_a != p.reading_b,
    ensures
        -span(p) <= 2 * ((reading - p.reading_a) * climb(p)) - 2 * span(p) * (value_at(p, reading)
            - p.value_a) < span(p),
{
    lemma_nearest_within_half((reading - p.reading_a) * climb(p), span(p));
}

/// Conversion keeps or reverses the order of readings, as the slope is
/// upward or downward.
pub proof fn lemma_monotonic(p: TwoPoints, low: int, high: int)
    requires
        p.reading_a != p.reading_b,
        low <= high,
    ensures
        climb(p) >= 0 ==> value_at(p, low) <= value_at(p, high),
        climb(p) <= 0 ==> value_at(p, low) >= value_at(p, high),
{
    let d = span(p);
    let c = climb(p);
    let a = p.reading_a;
    if c >= 0 {
        assert((low - a) * c <= (high - a) * c) by (nonlinear_arith)
            requires
                low <= high,
                c >= 0,
        ;
        lemma_nearest_ordered((low - a) * c, (high - a) * c, d);
    }
    if c <= 0 {
        assert((high - a) * c <= (low - a) * c) by (nonlinear_arith)
            requires
                low <= high,
                c <= 0,
        ;
        lemma_nearest_ordered((high - a) * c, (low - a) * c, d);
    }
}

/// Where each step of the reading moves the line by a hundredth or more,
/// distinct readings convert to distinct values, in the order that the slope
/// gives.
pub proof fn lemma_strictly_monotonic(p: TwoPoints, low: int, high: int)
    requires
        p.reading_a != p.reading_b,
        low < high,
        climb(p) >= span(p) || -climb(p) >= span(p),
    ensures
        climb(p) > 0 ==> value_at(p, low) < value_at(p, high),
        climb(p) < 0 ==> value_at(p, low) > value_at(p, high),
{
    let d = span(p);
    let c = climb(p);
    let a = p.reading_a;
    if c > 0 {
        assert((low - a) * c + d <= (high - a) * c) by (nonlinear_arith)
            requires
                low < high,
                c >= d,
                d > 0,
        ;
        lemma_nearest_apart((low - a) * c, (high - a) * c, d);
    }
    if c < 0 {
        assert((high - a) * c + d <= (low - a) * c) by (nonlinear_arith)
            requires
                low < high,
                -c >= d,
                d > 0,
        ;
        lemma_nearest_apart((high - a) * c, (low - a) * c, d);
    }
}

/// A calibration: two distinct readings, each with the value it stands for.
#[derive(Clone, Copy, Debug, PartialEq, Eq)]
pub struct Calibration {
    reading_a: u16,
    value_a: i32,
    reading_b: u16,
    value_b: i32,
}

impl View for Calibration {
    type V = TwoPoints;

    closed spec fn view(&self) -> TwoPoints {
        TwoPoints {
            reading_a: self.reading_a as int,
            value_a: self.value_a as int,
            reading_b: self.reading_b as int,
            value_b: self.value_b as int,
        }
    }
}

impl Calibration {
    #[verifier::type_invariant]
    spec fn distinct_readings(self) -> bool {
        self.reading_a != self.reading_b
    }

    /// The calibration through `(reading_a, value_a)` and `(reading_b,
    /// value_b)`, values in hundredths. Two equal readings define no line.
    pub fn new(reading_a: u16, value_a: i32, reading_b: u16, value_b: i32) -> (made: Option<
        Calibration,
    >)
        ensures
            made is Some <==> reading_a != reading_b,
            made matches Some(c) ==> c@ == (TwoPoints {
                reading_a: reading_a as int,
                value_a: value_a as int,
                reading_b: reading_b as int,
                value_b: value_b as int,
            }),
    {
        if reading_a == reading_b {
            None
        } else {
            Some(Calibration { reading_a, value_a, reading_b, value_b })
        }
    }

    /// The calibration of the reference sensor: a reading of 2100 stands for
    /// 0.00 and a reading of 1558 for 50.00, so the slope is downward.
    pub fn reference() -> (c: Calibration)
        ensures
            c@ == (TwoPoints { reading_a: 2100, value_a: 0, reading_b: 1558, value_b: 5000 }),
    {
        Calibration { reading_a: 2100, value_a: 0, reading_b: 1558, value_b: 5000 }
    }

    /// Converts a raw reading to hundredths of the unit. A reading outside
    /// the two of the calibration is extrapolated along the same line.
    pub fn convert(&self, reading: u16) -> (hundredths: i64)
        ensures
            hundredths == value_at(self@, reading as int),
            self@.reading_a != self@.reading_b,
    {
        proof {
            use_type_invariant(self);
        }
        let offset: i64 = reading as i64 - self.reading_a as i64;
        let (den, rise): (i64, i64) = if self.reading_b > self.reading_a {
            (
                self.reading_b as i64 - self.reading_a as i64,
                self.value_b as i64 - self.value_a as i64,
            )
        } else {
            (
                self.reading_a as i64 - self.reading_b as i64,
                self.value_a as i64 - self.value_b as i64,
            )
        };
        assert(den == span(self@) && rise == climb(self@));
        assert(-0x1_0000_0000_0000 <= offset * rise <= 0x1_0000_0000_0000) by (nonlinear_arith)
            requires
                -0x1_0000 < offset < 0x1_0000,
                -0x1_0000_0000 <= rise <= 0x1_0000_0000,
        ;
        let twice: i64 = 2 * (offset * rise) + den;
        let rounded: i64 = floor_div(twice, 2 * den);
        self.value_a as i64 + rounded
    }
}

/// The quotient of `n` by a positive `d`, rounded downward.
fn floor_div(n: i64, d: i64) -> (q: i64)
    requires
        d > 0,
        n > i64::MIN,
    ensures
        q == (n as int) / (d as int),
        n >= 0 ==> 0 <= q <= n,
        n < 0 ==> n <= q < 0,
{
    let divisor: u64 = d as u64;
    if n >= 0 {
        let q: u64 = (n as u64) / divisor;
        proof {
            lemma_fundamental_div_mod(n as int, d as int);
            assert(0 <= (n as int) / (d as int) <= n) by (nonlinear_arith)
                requires
                    n >= 0,
                    d > 0,
            ;
        }
        q as i64
    } else {
        let m: u64 = (-n) as u64;
        let k: u64 = (m + (divisor - 1)) / divisor;
        proof {
            let up = m + d - 1;
            lemma_fundamental_div_mod(up, d as int);
            let r = up % (d as int);
            assert(n as int == (-(k as int)) * d + (d - 1 - r)) by (nonlinear_arith)
                requires
                    up == d * (k as int) + r,
                    up == -n + d - 1,
            ;
            lemma_fundamental_div_mod_converse(n as int, d as int, -(k as int), d - 1 - r);
            assert(1 <= k <= m) by (nonlinear_arith)
                requires
                    m + d - 1 == d * k + r,
                    0 <= r < d,
                    m >= 1,
                    d >= 1,
            ;
        }
        -(k as i64)
    }
}

} // verus!
