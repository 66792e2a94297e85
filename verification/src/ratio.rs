//! Exact values: quotients of whole numbers.

use vstd::prelude::*;

verus! {

/// A value that is held exactly: the quotient of two whole numbers, with a
/// sign, or undefined, which a zero denominator stands for.
#[derive(Debug, Clone, Copy)]
pub struct Ratio {
    /// Whether the value is the quotient taken negative.
    pub negative: bool,
    pub numerator: u128,
    pub denominator: u128,
}

/// Whether `x` comes before `y`, or ties with it, in ascending order.
pub open spec fn at_most(x: Option<real>, y: Option<real>) -> bool {
    match (x, y) {
        (_, None) => true,
        (None, Some(_)) => false,
        (Some(a), Some(b)) => a <= b,
    }
}

impl Ratio {
    /// The number that is held, if it is defined.
    pub open spec fn value(self) -> Option<real> {
        if self.denominator == 0 {
            None
        } else if self.negative {
            Some(-(self.numerator as real / self.denominator as real))
        } else {
            Some(self.numerator as real / self.denominator as real)
        }
    }

    /// The quotient of two whole numbers.
    pub fn new(numerator: u128, denominator: u128) -> (ratio: Ratio)
        ensures
            ratio == (Ratio { negative: false, numerator, denominator }),
    {
        Ratio { negative: false, numerator, denominator }
    }

    /// The undefined value.
    pub fn undefined() -> (ratio: Ratio)
        ensures
            ratio.value() is None,
    {
        Ratio { negative: false, numerator: 0, denominator: 0 }
    }

    /// Whether the value is undefined.
    pub fn is_undefined(&self) -> (r: bool)
        ensures
            r == (self.value() is None),
    {
        self.denominator == 0
    }
}

/// Two to the power of 64.
pub const HALF: u128 = 0x1_0000_0000_0000_0000;

/// Two to the power of 128.
pub open spec fn whole() -> int {
    0x1_0000_0000_0000_0000_0000_0000_0000_0000int
}

/// The product of two numbers of 128 bits, as its upper and its lower 128
/// bits.
fn wide_product(a: u128, b: u128) -> (p: (u128, u128))
    ensures
        p.0 * whole() + p.1 == a * b,
{
    let al: u128 = a % HALF;
    let ah: u128 = a / HALF;
    let bl: u128 = b % HALF;
    let bh: u128 = b / HALF;
    proof {
        assert(al * bl <= u128::MAX && al * bh <= u128::MAX && ah * bl <= u128::MAX && ah * bh
            <= u128::MAX) by (nonlinear_arith)
            requires
                al < HALF,
                ah < HALF,
                bl < HALF,
                bh < HALF,
        ;
    }
    let ll: u128 = al * bl;
    let lh: u128 = al * bh;
    let hl: u128 = ah * bl;
    let hh: u128 = ah * bh;
    let mid: u128 = ll / HALF + lh % HALF + hl % HALF;
    let lo: u128 = ll % HALF + (mid % HALF) * HALF;
    proof {
        let h: int = 0x1_0000_0000_0000_0000int;
        assert(a * b == hh * whole() + (hl + lh) * h + ll) by (nonlinear_arith)
            requires
                h == 0x1_0000_0000_0000_0000int,
                a == ah * h + al,
                b == bh * h + bl,
                ll == al * bl,
                lh == al * bh,
                hl == ah * bl,
                hh == ah * bh,
        ;
        let hi = hh + lh / HALF + hl / HALF + mid / HALF;
        assert(hi * whole() + lo == a * b) by (nonlinear_arith)
            requires
                h == 0x1_0000_0000_0000_0000int,
                a * b == hh * whole() + (hl + lh) * h + ll,
                ll == (ll / HALF) * h + ll % HALF,
                lh == (lh / HALF) * h + lh % HALF,
                hl == (hl / HALF) * h + hl % HALF,
                mid == ll / HALF + lh % HALF + hl % HALF,
                mid == (mid / HALF) * h + mid % HALF,
                lo == ll % HALF + (mid % HALF) * h,
                hi == hh + lh / HALF + hl / HALF + mid / HALF,
        ;
        assert(a * b <= u128::MAX * u128::MAX) by (nonlinear_arith)
            requires
                a <= u128::MAX,
                b <= u128::MAX,
        ;
        assert(hi <= u128::MAX) by (nonlinear_arith)
            requires
                hi * whole() + lo == a * b,
                a * b <= u128::MAX * u128::MAX,
                lo >= 0,
        ;
    }
    let hi: u128 = hh + lh / HALF + hl / HALF + mid / HALF;
    (hi, lo)
}

/// Whether the quotient of `a` by `b` is at most that of `c` by `d`.
fn quotient_at_most(a: u128, b: u128, c: u128, d: u128) -> (r: bool)
    requires
        b > 0,
        d > 0,
    ensures
        r == (a as real / b as real <= c as real / d as real),
{
    let left = wide_product(a, d);
    let right = wide_product(c, b);
    let r = left.0 < right.0 || (left.0 == right.0 && left.1 <= right.1);
    proof {
        let ar = a as real;
        let br = b as real;
        let cr = c as real;
        let dr = d as real;
        let x = a * d;
        let y = c * b;
        assert(r == (x <= y));
        assert((ar / br <= cr / dr) <==> (ar * dr <= cr * br)) by (nonlinear_arith)
            requires
                br > 0real,
                dr > 0real,
        ;
        assert(x as real == ar * dr) by (nonlinear_arith)
            requires
                x == a * d,
                ar == a as real,
                dr == d as real,
        ;
        assert(y as real == cr * br) by (nonlinear_arith)
            requires
                y == c * b,
                cr == c as real,
                br == b as real,
        ;
    }
    r
}

impl Ratio {
    /// Whether this value comes before `other`, or ties with it, in ascending
    /// order.
    pub fn at_most(&self, other: &Ratio) -> (r: bool)
        ensures
            r == at_most(self.value(), other.value()),
    {
        if other.denominator == 0 {
            return true;
        }
        if self.denominator == 0 {
            return false;
        }
        proof {
            let x = self.numerator as real / self.denominator as real;
            let y = other.numerator as real / other.denominator as real;
            assert(x >= 0real && (x == 0real <==> self.numerator == 0)) by (nonlinear_arith)
                requires
                    x == self.numerator as real / self.denominator as real,
                    self.denominator > 0,
                    self.numerator >= 0,
            ;
            assert(y >= 0real && (y == 0real <==> other.numerator == 0)) by (nonlinear_arith)
                requires
                    y == other.numerator as real / other.denominator as real,
                    other.denominator > 0,
                    other.numerator >= 0,
            ;
        }
        if self.negative {
            if other.negative {
                quotient_at_most(
                    other.numerator,
                    other.denominator,
                    self.numerator,
                    self.denominator,
                )
            } else {
                true
            }
        } else {
            if other.negative {
                self.numerator == 0 && other.numerator == 0
            } else {
                quotient_at_most(
                    self.numerator,
                    self.denominator,
                    other.numerator,
                    other.denominator,
                )
            }
        }
    }
}

} // verus!
