//! Single-precision numbers as bit patterns.
//!
//! Scores and sampling parameters reach the library as IEEE-754 binary32 bit
//! patterns. The library orders and tests them and hands them on; all
//! arithmetic on them is the host's.

use vstd::prelude::*;

verus! {

/// The bit that holds the sign.
pub const SIGN_BIT: u32 = 0x8000_0000;

/// The magnitude of positive and negative infinity; every larger magnitude is
/// not a number.
pub const INFINITY_MAGNITUDE: u32 = 0x7f80_0000;

/// The rank given to every bit pattern that is not a number.
pub const NAN_RANK: i64 = -0x8000_0000;

/// The bit pattern of 1.0.
pub const ONE_BITS: u32 = 0x3f80_0000;

/// The bit pattern of -1.0.
pub const MINUS_ONE_BITS: u32 = 0xbf80_0000;

/// A binary32 number, held as its bit pattern.
#[derive(Clone, Copy, Debug, PartialEq, Eq, Structural)]
pub struct Scalar {
    pub bits: u32,
}

impl Scalar {
    /// Whether the sign bit is set.
    pub open spec fn sign_set(self) -> bool {
        self.bits >= SIGN_BIT
    }

    /// The pattern without its sign bit.
    pub open spec fn magnitude(self) -> int {
        if self.bits >= SIGN_BIT {
            self.bits - SIGN_BIT
        } else {
            self.bits as int
        }
    }

    /// Whether the pattern is not a number.
    pub open spec fn nan(self) -> bool {
        self.magnitude() > INFINITY_MAGNITUDE
    }

    /// Whether the pattern is positive or negative zero.
    pub open spec fn zero(self) -> bool {
        self.magnitude() == 0
    }

    /// An integer that orders the patterns as the numbers they stand for are
    /// ordered: the magnitude, negated where the sign is set. Both zeros have
    /// rank 0, and what is not a number ranks below every number.
    pub open spec fn rank(self) -> int {
        if self.nan() {
            NAN_RANK as int
        } else if self.sign_set() {
            -self.magnitude()
        } else {
            self.magnitude()
        }
    }

    /// Whether the number is less than or equal to zero. False of what is not
    /// a number.
    pub open spec fn at_most_zero(self) -> bool {
        !self.nan() && self.rank() <= 0
    }

    /// Whether `self` is less than `other` as numbers. False where either is
    /// not a number.
    pub open spec fn less_than(self, other: Scalar) -> bool {
        !self.nan() && !other.nan() && self.rank() < other.rank()
    }

    /// Whether the number equals 1.0.
    pub open spec fn one(self) -> bool {
        self.bits == ONE_BITS
    }

    /// The number with the given bit pattern.
    pub fn from_bits(bits: u32) -> (r: Scalar)
        ensures
            r.bits == bits,
    {
        Scalar { bits }
    }

    /// The bit pattern.
    pub fn to_bits(&self) -> (r: u32)
        ensures
            r == self.bits,
    {
        self.bits
    }

    fn magnitude_bits(&self) -> (r: u32)
        ensures
            r == self.magnitude(),
    {
        if self.bits >= SIGN_BIT {
            self.bits - SIGN_BIT
        } else {
            self.bits
        }
    }

    /// Whether the pattern is not a number.
    pub fn is_nan(&self) -> (r: bool)
        ensures
            r == self.nan(),
    {
        self.magnitude_bits() > INFINITY_MAGNITUDE
    }

    /// Whether the pattern is positive or negative zero.
    pub fn is_zero(&self) -> (r: bool)
        ensures
            r == self.zero(),
    {
        self.magnitude_bits() == 0
    }

    /// Whether the number equals 1.0.
    pub fn is_one(&self) -> (r: bool)
        ensures
            r == self.one(),
    {
        self.bits == ONE_BITS
    }

    /// The rank of the pattern, see [`Scalar::rank`].
    pub fn rank_key(&self) -> (r: i64)
        ensures
            r == self.rank(),
            NAN_RANK <= r <= INFINITY_MAGNITUDE,
    {
        let magnitude: u32 = self.magnitude_bits();
        if magnitude > INFINITY_MAGNITUDE {
            NAN_RANK
        } else if self.bits >= SIGN_BIT {
            -(magnitude as i64)
        } else {
            magnitude as i64
        }
    }

    /// Whether the number is less than or equal to zero.
    pub fn is_at_most_zero(&self) -> (r: bool)
        ensures
            r == self.at_most_zero(),
    {
        !self.is_nan() && self.rank_key() <= 0
    }

    /// Whether `self` is less than `other` as numbers.
    pub fn is_less_than(&self, other: &Scalar) -> (r: bool)
        ensures
            r == self.less_than(*other),
    {
        !self.is_nan() && !other.is_nan() && self.rank_key() < other.rank_key()
    }
}

/// Two numbers of equal rank are both not a number, or both zero, or the same
/// bit pattern: the rank tells numbers apart as far as their order does.
pub proof fn lemma_rank_separates(a: Scalar, b: Scalar)
    requires
        a.rank() == b.rank(),
    ensures
        (a.nan() && b.nan()) || (a.zero() && b.zero()) || a.bits == b.bits,
{
}

} // verus!
