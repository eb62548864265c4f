//! Scores: single-precision numbers by their bit patterns.
//!
//! The network's probabilities and ranking scores are IEEE 754 binary32
//! numbers. What the pruning rules ask of them is how they compare, and that
//! can be read off the bits: the top bit is the sign, and the other 31 bits,
//! taken as an integer, grow with the magnitude.

use vstd::prelude::*;

verus! {

/// A binary32 number, held by its bits.
#[derive(Clone, Copy, Debug, PartialEq, Eq, Structural)]
pub struct Score {
    pub bits: u32,
}

/// The weight of the sign bit.
pub const SIGN_BIT: u32 = 0x8000_0000;

/// The bits of positive infinity, the largest magnitude of a number.
pub const INFINITY_BITS: u32 = 0x7f80_0000;

/// The bits of `1.0`.
pub const ONE_BITS: u32 = 0x3f80_0000;

/// The bits of the threshold that applies where none is given, `0.1`.
pub const DEFAULT_THRESHOLD_BITS: u32 = 0x3dcc_cccd;

impl Score {
    /// The bits without the sign.
    pub open spec fn magnitude(self) -> int {
        if self.bits < SIGN_BIT {
            self.bits as int
        } else {
            self.bits - SIGN_BIT
        }
    }

    /// Whether the bits stand for no number.
    pub open spec fn is_nan(self) -> bool {
        self.magnitude() > INFINITY_BITS
    }

    /// An integer that orders the numbers as they are ordered. Both zeros have
    /// the key 0.
    pub open spec fn key(self) -> int {
        if self.bits < SIGN_BIT {
            self.magnitude()
        } else {
            -self.magnitude()
        }
    }

    /// `self > other`: false where either is not a number.
    pub open spec fn gt(self, other: Score) -> bool {
        !self.is_nan() && !other.is_nan() && self.key() > other.key()
    }

    /// `self <= other`: false where either is not a number.
    pub open spec fn le(self, other: Score) -> bool {
        !self.is_nan() && !other.is_nan() && self.key() <= other.key()
    }

    /// The score `0.0`.
    pub fn zero() -> (s: Score)
        ensures
            s == zero_score(),
    {
        Score { bits: 0 }
    }

    /// The score `1.0`.
    pub fn one() -> (s: Score)
        ensures
            s == one_score(),
    {
        Score { bits: ONE_BITS }
    }

    /// The key of the score.
    pub fn order_key(self) -> (k: i64)
        ensures
            k == self.key(),
    {
        if self.bits < SIGN_BIT {
            self.bits as i64
        } else {
            -((self.bits - SIGN_BIT) as i64)
        }
    }

    /// Whether the score is not a number.
    pub fn not_a_number(self) -> (b: bool)
        ensures
            b == self.is_nan(),
    {
        if self.bits < SIGN_BIT {
            self.bits > INFINITY_BITS
        } else {
            self.bits - SIGN_BIT > INFINITY_BITS
        }
    }

    /// Whether the score is a number above the number `other`.
    pub fn exceeds(self, other: Score) -> (b: bool)
        ensures
            b == self.gt(other),
    {
        !self.not_a_number() && !other.not_a_number() && self.order_key() > other.order_key()
    }
}

/// The score `0.0`.
pub open spec fn zero_score() -> Score {
    Score { bits: 0 }
}

/// The score `1.0`.
pub open spec fn one_score() -> Score {
    Score { bits: ONE_BITS }
}

/// Of two numbers, either the first exceeds the second or is at most the
/// second, and not both.
pub proof fn law_numbers_compare(a: Score, b: Score)
    requires
        !a.is_nan(),
        !b.is_nan(),
    ensures
        a.gt(b) <==> !a.le(b),
{
}

/// A score that is not a number neither exceeds nor is at most any score, nor
/// is exceeded or reached by one.
pub proof fn law_nan_does_not_compare(a: Score, b: Score)
    requires
        a.is_nan(),
    ensures
        !a.gt(b),
        !a.le(b),
        !b.gt(a),
        !b.le(a),
{
}

/// Scores compare as the numbers that their bits stand for. Without the sign bit
/// greater bits are a greater number, with it a smaller one; a number with the
/// sign bit is below one without, but for the two zeros, which are the same.
pub proof fn law_scores_compare_as_numbers(a: Score, b: Score)
    ensures
        a.bits < b.bits <= 0x7f80_0000 ==> b.gt(a) && !a.gt(b) && a.le(b) && !b.le(a),
        0x8000_0000 <= a.bits < b.bits <= 0xff80_0000 ==> a.gt(b) && !b.gt(a) && b.le(a) && !a.le(
            b,
        ),
        a.bits <= 0x7f80_0000 && 0x8000_0000 <= b.bits <= 0xff80_0000 ==> {
            &&& b.le(a)
            &&& !b.gt(a)
            &&& a.gt(b) <==> a.bits > 0 || b.bits > 0x8000_0000
            &&& a.le(b) <==> a.bits == 0 && b.bits == 0x8000_0000
        },
        a.bits <= 0x7f80_0000 || 0x8000_0000 <= a.bits <= 0xff80_0000 ==> a.le(a) && !a.gt(a),
{
}

/// A score is not a number exactly if its bits without the sign are above those
/// of infinity, and it then compares with nothing.
pub proof fn law_bits_above_infinity_are_no_number(a: Score, b: Score)
    ensures
        a.is_nan() <==> 0x7f80_0000 < a.bits < 0x8000_0000 || 0xff80_0000 < a.bits,
        a.is_nan() ==> !a.gt(b) && !b.gt(a) && !a.le(b) && !b.le(a),
{
}

/// A score is found to exceed another exactly if its number is the greater one,
/// whatever the two are; and the keys of numbers come in the order of the
/// numbers, strictly.
pub proof fn law_comparing_is_exact(a: Score, b: Score, exceeds: bool, key: i64, other_key: i64)
    requires
        call_ensures(Score::exceeds, (a, b), exceeds),
        call_ensures(Score::order_key, (a,), key),
        call_ensures(Score::order_key, (b,), other_key),
    ensures
        exceeds == a.gt(b),
        exceeds <==> {
            ||| b.bits < a.bits <= 0x7f80_0000
            ||| 0x8000_0000 <= a.bits < b.bits <= 0xff80_0000
            ||| a.bits <= 0x7f80_0000 && 0x8000_0000 <= b.bits <= 0xff80_0000 && (a.bits > 0
                || b.bits > 0x8000_0000)
        },
        !a.is_nan() && !b.is_nan() ==> (exceeds <==> key > other_key),
{
}

/// The score of nothing is the number zero, and that of certainty the number
/// one: no score without the sign bit is below the first, the second exceeds the
/// first, and the scores between them are those whose bits lie between.
pub proof fn law_zero_and_one(zero: Score, one: Score, s: Score)
    requires
        call_ensures(Score::zero, (), zero),
        call_ensures(Score::one, (), one),
    ensures
        zero == zero_score() && one == one_score(),
        zero.bits == 0 && one.bits == 0x3f80_0000,
        s.bits < 0x8000_0000 ==> (s.le(one) <==> s.bits <= 0x3f80_0000),
        s.bits <= 0x7f80_0000 ==> zero.le(s),
{
}

} // verus!
