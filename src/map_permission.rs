use vstd::prelude::*;

verus! {

/// Bit for read access, at the position the page-table entry uses.
pub const PERM_R: u8 = 2;

/// Bit for write access.
pub const PERM_W: u8 = 4;

/// Bit for execute access.
pub const PERM_X: u8 = 8;

/// Bit for access from user mode.
pub const PERM_U: u8 = 16;

/// All permission bits together.
pub const PERM_ALL: u8 = 30;

/// A set of access rights for a memory area: any combination of R, W, X and U.
#[derive(Clone, Copy, Debug, PartialEq, Eq, Structural)]
pub struct MapPermission {
    bits: u8,
}

impl MapPermission {
    /// Only the four permission bits may be set.
    pub open spec fn wf(self) -> bool {
        self.spec_bits() & !PERM_ALL == 0
    }

    pub closed spec fn spec_bits(self) -> u8 {
        self.bits
    }

    pub open spec fn has(self, bit: u8) -> bool {
        self.spec_bits() & bit != 0
    }

    /// The raw bits; they are the page-table entry's R, W, X, U bits.
    pub fn bits(&self) -> (r: u8)
        ensures
            r == self.spec_bits(),
    {
        self.bits
    }

    /// Keeps the permission bits of `bits` and drops every other bit.
    pub fn from_bits_truncate(bits: u8) -> (r: MapPermission)
        ensures
            r.spec_bits() == bits & PERM_ALL,
            r.wf(),
    {
        let b = bits & PERM_ALL;
        assert(b & !PERM_ALL == 0) by (bit_vector)
            requires
                b == bits & PERM_ALL,
        ;
        MapPermission { bits: b }
    }

    /// The empty set.
    pub fn empty() -> (r: MapPermission)
        ensures
            r.spec_bits() == 0,
            r.wf(),
    {
        let r = Self::from_bits_truncate(0);
        assert(0 & PERM_ALL == 0) by (bit_vector);
        r
    }

    /// Read only.
    pub fn r() -> (r: MapPermission)
        ensures
            r.spec_bits() == PERM_R,
            r.wf(),
    {
        let r = Self::from_bits_truncate(PERM_R);
        assert(PERM_R & PERM_ALL == PERM_R) by (bit_vector);
        r
    }

    /// Write only.
    pub fn w() -> (r: MapPermission)
        ensures
            r.spec_bits() == PERM_W,
            r.wf(),
    {
        let r = Self::from_bits_truncate(PERM_W);
        assert(PERM_W & PERM_ALL == PERM_W) by (bit_vector);
        r
    }

    /// Execute only.
    pub fn x() -> (r: MapPermission)
        ensures
            r.spec_bits() == PERM_X,
            r.wf(),
    {
        let r = Self::from_bits_truncate(PERM_X);
        assert(PERM_X & PERM_ALL == PERM_X) by (bit_vector);
        r
    }

    /// User access only.
    pub fn u() -> (r: MapPermission)
        ensures
            r.spec_bits() == PERM_U,
            r.wf(),
    {
        let r = Self::from_bits_truncate(PERM_U);
        assert(PERM_U & PERM_ALL == PERM_U) by (bit_vector);
        r
    }

    /// The union of two sets.
    pub fn union(self, other: MapPermission) -> (r: MapPermission)
        requires
            self.wf(),
            other.wf(),
        ensures
            r.spec_bits() == self.spec_bits() | other.spec_bits(),
            r.wf(),
    {
        let a = self.bits;
        let b = other.bits;
        let c = a | b;
        assert(c & !PERM_ALL == 0) by (bit_vector)
            requires
                a & !PERM_ALL == 0,
                b & !PERM_ALL == 0,
                c == a | b,
        ;
        MapPermission { bits: c }
    }

    /// The intersection of two sets.
    pub fn intersection(self, other: MapPermission) -> (r: MapPermission)
        requires
            self.wf(),
            other.wf(),
        ensures
            r.spec_bits() == self.spec_bits() & other.spec_bits(),
            r.wf(),
    {
        let a = self.bits;
        let b = other.bits;
        let c = a & b;
        assert(c & !PERM_ALL == 0) by (bit_vector)
            requires
                a & !PERM_ALL == 0,
                c == a & b,
        ;
        MapPermission { bits: c }
    }

    /// Whether every bit of `other` is in `self`.
    pub fn contains(&self, other: MapPermission) -> (r: bool)
        ensures
            r == (self.spec_bits() & other.spec_bits() == other.spec_bits()),
    {
        self.bits & other.bits == other.bits
    }
}

} // verus!
