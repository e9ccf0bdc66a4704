//! Measured quantities, as single-precision bit patterns.
//!
//! A latency, a rate or a load is measured as a single-precision number. What
//! matters here is only how two of them compare, and that can be read off
//! their bits.

use std::cmp::Ordering;
use vstd::prelude::*;

verus! {

/// A single-precision number, by its bits.
#[derive(Clone, Copy, PartialEq, Eq, Structural, Debug)]
pub struct Metric {
    pub bits: u32,
}

impl Metric {
    /// The bits without the sign.
    pub open spec fn magnitude(self) -> int {
        (self.bits % 0x8000_0000) as int
    }

    /// Whether this is not a number.
    pub open spec fn nan(self) -> bool {
        self.magnitude() > 0x7f80_0000
    }

    /// An integer that orders numbers as their values are ordered. The two
    /// zeros have the same.
    pub open spec fn rank(self) -> int {
        if self.bits >= 0x8000_0000 {
            -self.magnitude()
        } else {
            self.magnitude()
        }
    }

    /// Whether both are numbers and this one is smaller.
    pub open spec fn below(self, other: Metric) -> bool {
        !self.nan() && !other.nan() && self.rank() < other.rank()
    }

    /// The rank, or `None` where this is not a number.
    fn ranked(self) -> (r: Option<i64>)
        ensures
            r is None == self.nan(),
            r matches Some(n) ==> n == self.rank(),
    {
        let magnitude: u32 = self.bits % 0x8000_0000;
        if magnitude > 0x7f80_0000 {
            None
        } else if self.bits >= 0x8000_0000 {
            Some(-(magnitude as i64))
        } else {
            Some(magnitude as i64)
        }
    }

    /// How two measurements compare. Where one is not a number they do not, and
    /// count as equal.
    pub fn compare(self, other: Metric) -> (o: Ordering)
        ensures
            (o == Ordering::Less) == self.below(other),
            (o == Ordering::Greater) == other.below(self),
    {
        match (self.ranked(), other.ranked()) {
            (Some(a), Some(b)) => {
                if a < b {
                    Ordering::Less
                } else if b < a {
                    Ordering::Greater
                } else {
                    Ordering::Equal
                }
            },
            _ => Ordering::Equal,
        }
    }

    /// Whether this exceeds another measurement.
    pub fn exceeds(self, other: Metric) -> (b: bool)
        ensures
            b == other.below(self),
    {
        match self.compare(other) {
            Ordering::Greater => true,
            _ => false,
        }
    }
}

/// What compares below what, by the bits. Positive numbers are ordered as their
/// bits are, negative ones the other way round. A negative number is below a
/// positive one, but for the two zeros, which are equal. Infinity is a number;
/// what lies beyond it, with either sign, is below nothing and above nothing.
pub proof fn law_bits_give_the_order(a: Metric, b: Metric)
    ensures
        a.bits <= 0x7f80_0000 && b.bits <= 0x7f80_0000 ==> a.below(b) == (a.bits < b.bits),
        0x8000_0000 <= a.bits <= 0xff80_0000 && 0x8000_0000 <= b.bits <= 0xff80_0000 ==> a.below(b)
            == (b.bits < a.bits),
        0x8000_0000 <= a.bits <= 0xff80_0000 && b.bits <= 0x7f80_0000 ==> !b.below(a),
        0x8000_0000 <= a.bits <= 0xff80_0000 && b.bits <= 0x7f80_0000 ==> a.below(b) == (a.bits
            != 0x8000_0000 || b.bits != 0),
        0x7f80_0000 < a.bits < 0x8000_0000 || 0xff80_0000 < a.bits ==> !a.below(b) && !b.below(a),
{
}

/// No measurement is below itself, of two at most one is below the other, and
/// what is below a smaller one is below a larger one.
pub proof fn law_below_is_an_order(a: Metric, b: Metric, c: Metric)
    ensures
        !a.below(a),
        a.below(b) ==> !b.below(a),
        a.below(b) && b.below(c) ==> a.below(c),
{
}

} // verus!
