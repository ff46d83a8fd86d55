use vstd::prelude::*;

verus! {

/// The ways in which a parsed header's framing departs from the canonical
/// form, held as a set of independent bit flags.
#[derive(Clone, Copy, Debug, PartialEq, Eq, Structural)]
pub struct HeaderConformance {
    pub bits: u8,
}

/// Mask of the flag set when a header line has no colon.
pub const MISSING_COLON_BIT: u8 = 1;

/// Mask of the flag set when a header was ended by a bare LF.
pub const NON_CANONICAL_BIT: u8 = 2;

/// One member of a [`HeaderConformance`] set.
#[derive(Clone, Copy, Debug, PartialEq, Eq, Structural)]
pub enum ConformanceFlag {
    /// No colon was found before the end of the header's line.
    MissingColonValue,
    /// At least one line of the header was ended by LF without a CR before it.
    NonCanonicalLineEndings,
}

impl ConformanceFlag {
    pub open spec fn spec_mask(self) -> u8 {
        match self {
            ConformanceFlag::MissingColonValue => MISSING_COLON_BIT,
            ConformanceFlag::NonCanonicalLineEndings => NON_CANONICAL_BIT,
        }
    }

    /// The bit that stands for this flag.
    pub fn mask(self) -> (r: u8)
        ensures
            r == self.spec_mask(),
    {
        match self {
            ConformanceFlag::MissingColonValue => MISSING_COLON_BIT,
            ConformanceFlag::NonCanonicalLineEndings => NON_CANONICAL_BIT,
        }
    }
}

impl HeaderConformance {
    pub open spec fn spec_bits(self) -> u8 {
        self.bits
    }

    /// The flag set with the given members.
    pub open spec fn of_flags(missing_colon: bool, non_canonical: bool) -> HeaderConformance {
        HeaderConformance {
            bits: ((if missing_colon { MISSING_COLON_BIT } else { 0u8 }) | (if non_canonical {
                NON_CANONICAL_BIT
            } else {
                0u8
            })),
        }
    }

    /// Whether `flag` is a member of the set.
    pub open spec fn spec_contains(self, flag: ConformanceFlag) -> bool {
        self.bits & flag.spec_mask() == flag.spec_mask()
    }

    pub open spec fn has_missing_colon(self) -> bool {
        self.spec_contains(ConformanceFlag::MissingColonValue)
    }

    pub open spec fn has_non_canonical_line_endings(self) -> bool {
        self.spec_contains(ConformanceFlag::NonCanonicalLineEndings)
    }

    /// The empty set: a fully canonical header.
    pub fn empty() -> (r: HeaderConformance)
        ensures
            r.spec_bits() == 0,
    {
        HeaderConformance { bits: 0 }
    }

    pub fn bits(&self) -> (r: u8)
        ensures
            r == self.spec_bits(),
    {
        self.bits
    }

    pub fn is_empty(&self) -> (r: bool)
        ensures
            r == (self.spec_bits() == 0),
    {
        self.bits == 0
    }

    pub fn contains(&self, flag: ConformanceFlag) -> (r: bool)
        ensures
            r == self.spec_contains(flag),
    {
        let m = flag.mask();
        self.bits & m == m
    }

    /// Adds `flag` to the set (`value == true`) or removes it.
    pub fn set(&mut self, flag: ConformanceFlag, value: bool)
        ensures
            final(self).spec_bits() == if value {
                old(self).spec_bits() | flag.spec_mask()
            } else {
                old(self).spec_bits() & !flag.spec_mask()
            },
    {
        let m = flag.mask();
        if value {
            self.bits = self.bits | m;
        } else {
            self.bits = self.bits & !m;
        }
    }

    /// Builds the set with the given members.
    pub fn from_flags(missing_colon: bool, non_canonical: bool) -> (r: HeaderConformance)
        ensures
            r == Self::of_flags(missing_colon, non_canonical),
            r.has_missing_colon() == missing_colon,
            r.has_non_canonical_line_endings() == non_canonical,
    {
        let m: u8 = if missing_colon { MISSING_COLON_BIT } else { 0 };
        let n: u8 = if non_canonical { NON_CANONICAL_BIT } else { 0 };
        let r = HeaderConformance { bits: m | n };
        assert((0u8 | 0u8) & 1u8 != 1u8 && (0u8 | 0u8) & 2u8 != 2u8) by (bit_vector);
        assert((1u8 | 0u8) & 1u8 == 1u8 && (1u8 | 0u8) & 2u8 != 2u8) by (bit_vector);
        assert((0u8 | 2u8) & 1u8 != 1u8 && (0u8 | 2u8) & 2u8 == 2u8) by (bit_vector);
        assert((1u8 | 2u8) & 1u8 == 1u8 && (1u8 | 2u8) & 2u8 == 2u8) by (bit_vector);
        r
    }
}

impl Default for HeaderConformance {
    fn default() -> (r: HeaderConformance)
        ensures
            r.spec_bits() == 0,
    {
        HeaderConformance { bits: 0 }
    }
}

} // verus!
