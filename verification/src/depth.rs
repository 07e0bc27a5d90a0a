use vstd::prelude::*;

verus! {

/// The sign bit of a binary32 pattern.
pub const SIGN_BIT: u32 = 0x8000_0000;

/// The pattern of positive infinity: all exponent bits set, no fraction bit.
pub const INFINITY_BITS: u32 = 0x7f80_0000;

/// A depth value, held as its IEEE 754 binary32 bit pattern.
///
/// The buffer compares depths the way the standard orders the numbers they
/// encode, without ever doing arithmetic on them: a pattern is a sign bit
/// over a 31-bit magnitude, and among patterns that encode a number the
/// magnitudes are ordered as the absolute values are.
#[derive(Clone, Copy, Debug, PartialEq, Eq, Structural)]
pub struct Depth {
    pub bits: u32,
}

impl Depth {
    /// The 31 bits below the sign bit, as a number.
    pub open spec fn magnitude(self) -> int {
        (self.bits % SIGN_BIT) as int
    }

    /// Whether the sign bit is set.
    pub open spec fn is_negative(self) -> bool {
        self.bits >= SIGN_BIT
    }

    /// Whether the pattern encodes no number: a magnitude above that of
    /// infinity.
    pub open spec fn spec_is_nan(self) -> bool {
        self.magnitude() > INFINITY_BITS
    }

    /// The place of the encoded number on the number line: two patterns that
    /// encode numbers are ordered as their keys are. Both zeros have key 0.
    pub open spec fn key(self) -> int {
        if self.is_negative() {
            -self.magnitude()
        } else {
            self.magnitude()
        }
    }

    /// Strictly nearer: both patterns encode numbers, and the first number is
    /// the smaller one. Nothing is nearer than, or farther than, a pattern
    /// that encodes no number.
    pub open spec fn spec_lt(self, other: Depth) -> bool {
        &&& !self.spec_is_nan()
        &&& !other.spec_is_nan()
        &&& self.key() < other.key()
    }

    /// The depth with the given bit pattern.
    pub fn from_bits(bits: u32) -> (d: Depth)
        ensures
            d.bits == bits,
    {
        Depth { bits }
    }

    /// The bit pattern of this depth.
    pub fn to_bits(self) -> (bits: u32)
        ensures
            bits == self.bits,
    {
        self.bits
    }

    /// Positive infinity, the depth of a pixel that nothing has been drawn on.
    pub fn infinity() -> (d: Depth)
        ensures
            d.bits == INFINITY_BITS,
            !d.is_nan(),
            forall|other: Depth| !other.is_nan() ==> other.key() <= d.key(),
    {
        Depth { bits: INFINITY_BITS }
    }

    /// Whether the pattern encodes no number.
    #[verifier::when_used_as_spec(spec_is_nan)]
    pub fn is_nan(self) -> (b: bool)
        ensures
            b == self.spec_is_nan(),
    {
        self.bits % SIGN_BIT > INFINITY_BITS
    }

    /// Whether this depth is strictly nearer than `other`.
    #[verifier::when_used_as_spec(spec_lt)]
    pub fn lt(self, other: Depth) -> (b: bool)
        ensures
            b == self.spec_lt(other),
    {
        if self.is_nan() || other.is_nan() {
            return false;
        }
        let a: u32 = self.bits % SIGN_BIT;
        let b: u32 = other.bits % SIGN_BIT;
        if self.bits >= SIGN_BIT {
            if other.bits >= SIGN_BIT {
                b < a
            } else {
                a > 0 || b > 0
            }
        } else {
            if other.bits >= SIGN_BIT {
                false
            } else {
                a < b
            }
        }
    }
}

} // verus!
