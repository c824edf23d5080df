//! The base alphabet.
use vstd::prelude::*;

verus! {

/// A base of the reference. The order of the variants gives each its code:
/// the low two bits are the 2-bit base code (A, C, T, G) and codes 4 and 5
/// are the gap bases.
#[derive(Debug, Copy, Clone, PartialEq, Eq, Structural)]
pub enum Base {
    A,
    C,
    T,
    G,
    N,
    Other,
}

impl Base {
    /// The numeric code of the base.
    pub open spec fn spec_code(self) -> u8 {
        match self {
            Base::A => 0,
            Base::C => 1,
            Base::T => 2,
            Base::G => 3,
            Base::N => 4,
            Base::Other => 5,
        }
    }

    /// Whether the base is a gap (N or any other non-ACGT symbol).
    pub open spec fn spec_is_gap(self) -> bool {
        self.spec_code() >= 4
    }

    /// The base that a byte of FASTA stands for: `A`, `C`, `G`, `T` and `N`
    /// in either case, and `Other` for every other byte.
    pub open spec fn spec_from_u8(c: u8) -> Base {
        if c == 65 || c == 97 {
            Base::A
        } else if c == 67 || c == 99 {
            Base::C
        } else if c == 71 || c == 103 {
            Base::G
        } else if c == 84 || c == 116 {
            Base::T
        } else if c == 78 || c == 110 {
            Base::N
        } else {
            Base::Other
        }
    }

    pub fn from_u8(c: u8) -> (r: Base)
        ensures
            r == Base::spec_from_u8(c),
    {
        if c == 65 || c == 97 {
            Base::A
        } else if c == 67 || c == 99 {
            Base::C
        } else if c == 71 || c == 103 {
            Base::G
        } else if c == 84 || c == 116 {
            Base::T
        } else if c == 78 || c == 110 {
            Base::N
        } else {
            Base::Other
        }
    }

    pub fn code(&self) -> (r: u8)
        ensures
            r == self.spec_code(),
    {
        match self {
            Base::A => 0,
            Base::C => 1,
            Base::T => 2,
            Base::G => 3,
            Base::N => 4,
            Base::Other => 5,
        }
    }

    pub fn is_gap(&self) -> (r: bool)
        ensures
            r == self.spec_is_gap(),
            r <==> (*self == Base::N || *self == Base::Other),
    {
        let c = self.code();
        assert(c <= 5 ==> (c & 4 == 4 <==> c >= 4)) by (bit_vector);
        c & 4 == 4
    }
}

impl Default for Base {
    /// The default base is a gap.
    fn default() -> (r: Base)
        ensures
            r == Base::Other,
    {
        Base::Other
    }
}

} // verus!
