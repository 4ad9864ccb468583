//! Page management types applicable to all targets.

use vstd::prelude::*;

verus! {

/// A page: the physical address it maps to and its type, or nothing.
pub type Page = Option<(usize, PageType)>;

/// The access flags of a page: bit 0 executable, bit 1 writable, bit 2 user.
#[derive(PartialEq, Eq, Debug, Copy, Clone, Structural)]
pub struct PageType(u8);

/// Bit `bit` of `n` is set.
pub open spec fn spec_flag(n: u8, bit: u8) -> bool {
    (n >> bit) & 1u8 == 1u8
}

impl Default for PageType {
    fn default() -> (r: PageType)
        ensures
            r.bits() == 0,
    {
        PageType(0)
    }
}

impl PageType {
    /// The flag bits.
    pub closed spec fn bits(self) -> u8 {
        self.0
    }

    /// The page type with exactly the given bits.
    pub closed spec fn with_bits(bits: u8) -> PageType {
        PageType(bits)
    }

    /// A page type is its bits.
    pub proof fn lemma_bits(a: PageType, b: PageType, n: u8)
        ensures
            PageType::with_bits(n).bits() == n,
            a.bits() == b.bits() ==> a == b,
    {
    }

    pub open spec fn spec_is_executable(self) -> bool {
        spec_flag(self.bits(), 0)
    }

    pub open spec fn spec_is_writable(self) -> bool {
        spec_flag(self.bits(), 1)
    }

    pub open spec fn spec_is_user(self) -> bool {
        spec_flag(self.bits(), 2)
    }

    /// The page type with exactly the given bits.
    pub fn from_bits(bits: u8) -> (r: PageType)
        ensures
            r.bits() == bits,
    {
        PageType(bits)
    }

    fn set(self, bit: u8) -> (r: PageType)
        requires
            bit < 8,
        ensures
            r.bits() == self.bits() | (1u8 << bit),
    {
        let PageType(n) = self;
        PageType(n | (1 << bit))
    }

    fn clear(self, bit: u8) -> (r: PageType)
        requires
            bit < 8,
        ensures
            r.bits() == self.bits() & !(1u8 << bit),
    {
        let PageType(n) = self;
        PageType(n & !(1 << bit))
    }

    fn is(self, bit: u8) -> (r: bool)
        requires
            bit < 8,
        ensures
            r == spec_flag(self.bits(), bit),
    {
        let PageType(n) = self;
        ((n >> bit) & 1) == 1
    }

    pub fn executable(self) -> (r: PageType)
        ensures
            r.bits() == self.bits() | 1,
            r.spec_is_executable(),
            r.spec_is_writable() == self.spec_is_writable(),
            r.spec_is_user() == self.spec_is_user(),
    {
        let r = self.set(0);
        let n = self.0;
        assert(((n | 1u8) >> 0u8) & 1u8 == 1u8 && (((n | 1u8) >> 1u8) & 1u8 == 1u8) == ((n >> 1u8) & 1u8 == 1u8)
            && (((n | 1u8) >> 2u8) & 1u8 == 1u8) == ((n >> 2u8) & 1u8 == 1u8) && n | (1u8 << 0u8) == n | 1u8) by (bit_vector);
        r
    }

    pub fn writable(self) -> (r: PageType)
        ensures
            r.bits() == self.bits() | 2,
            r.spec_is_writable(),
            r.spec_is_executable() == self.spec_is_executable(),
            r.spec_is_user() == self.spec_is_user(),
    {
        let r = self.set(1);
        let n = self.0;
        assert(((n | 2u8) >> 1u8) & 1u8 == 1u8 && (((n | 2u8) >> 0u8) & 1u8 == 1u8) == ((n >> 0u8) & 1u8 == 1u8)
            && (((n | 2u8) >> 2u8) & 1u8 == 1u8) == ((n >> 2u8) & 1u8 == 1u8) && n | (1u8 << 1u8) == n | 2u8) by (bit_vector);
        r
    }

    pub fn user(self) -> (r: PageType)
        ensures
            r.bits() == self.bits() | 4,
            r.spec_is_user(),
            r.spec_is_executable() == self.spec_is_executable(),
            r.spec_is_writable() == self.spec_is_writable(),
    {
        let r = self.set(2);
        let n = self.0;
        assert(((n | 4u8) >> 2u8) & 1u8 == 1u8 && (((n | 4u8) >> 0u8) & 1u8 == 1u8) == ((n >> 0u8) & 1u8 == 1u8)
            && (((n | 4u8) >> 1u8) & 1u8 == 1u8) == ((n >> 1u8) & 1u8 == 1u8) && n | (1u8 << 2u8) == n | 4u8) by (bit_vector);
        r
    }

    pub fn not_executable(self) -> (r: PageType)
        ensures
            r.bits() == self.bits() & 0xfe,
            !r.spec_is_executable(),
            r.spec_is_writable() == self.spec_is_writable(),
            r.spec_is_user() == self.spec_is_user(),
    {
        let r = self.clear(0);
        let n = self.0;
        assert(((n & 0xfeu8) >> 0u8) & 1u8 != 1u8 && (((n & 0xfeu8) >> 1u8) & 1u8 == 1u8) == ((n >> 1u8) & 1u8 == 1u8)
            && (((n & 0xfeu8) >> 2u8) & 1u8 == 1u8) == ((n >> 2u8) & 1u8 == 1u8) && n & !(1u8 << 0u8) == n & 0xfeu8) by (bit_vector);
        r
    }

    pub fn not_writable(self) -> (r: PageType)
        ensures
            r.bits() == self.bits() & 0xfd,
            !r.spec_is_writable(),
            r.spec_is_executable() == self.spec_is_executable(),
            r.spec_is_user() == self.spec_is_user(),
    {
        let r = self.clear(1);
        let n = self.0;
        assert(((n & 0xfdu8) >> 1u8) & 1u8 != 1u8 && (((n & 0xfdu8) >> 0u8) & 1u8 == 1u8) == ((n >> 0u8) & 1u8 == 1u8)
            && (((n & 0xfdu8) >> 2u8) & 1u8 == 1u8) == ((n >> 2u8) & 1u8 == 1u8) && n & !(1u8 << 1u8) == n & 0xfdu8) by (bit_vector);
        r
    }

    pub fn not_user(self) -> (r: PageType)
        ensures
            r.bits() == self.bits() & 0xfb,
            !r.spec_is_user(),
            r.spec_is_executable() == self.spec_is_executable(),
            r.spec_is_writable() == self.spec_is_writable(),
    {
        let r = self.clear(2);
        let n = self.0;
        assert(((n & 0xfbu8) >> 2u8) & 1u8 != 1u8 && (((n & 0xfbu8) >> 0u8) & 1u8 == 1u8) == ((n >> 0u8) & 1u8 == 1u8)
            && (((n & 0xfbu8) >> 1u8) & 1u8 == 1u8) == ((n >> 1u8) & 1u8 == 1u8) && n & !(1u8 << 2u8) == n & 0xfbu8) by (bit_vector);
        r
    }

    pub fn is_executable(self) -> (r: bool)
        ensures
            r == self.spec_is_executable(),
    {
        self.is(0)
    }

    pub fn is_writable(self) -> (r: bool)
        ensures
            r == self.spec_is_writable(),
    {
        self.is(1)
    }

    pub fn is_user(self) -> (r: bool)
        ensures
            r == self.spec_is_user(),
    {
        self.is(2)
    }
}

} // verus!
