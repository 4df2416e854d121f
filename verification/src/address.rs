//! Sv39 addresses and page numbers, physical and virtual. An address masked
//! to its width is a page number and an offset; a virtual page number is
//! three indexes of nine bits, one for each level of the page table.

use vstd::prelude::*;
use vstd::std_specs::convert::FromSpec;
use crate::config::{PAGE_BYTES, PA_MASK, PPN_MASK, VA_MASK, VPN_MASK};

verus! {

/// A physical address.
#[derive(Copy, Clone, Ord, PartialOrd, Eq, PartialEq, Structural, Debug)]
pub struct PhysAddr(pub u64);

/// A physical page number.
#[derive(Copy, Clone, Ord, PartialOrd, Eq, PartialEq, Structural, Debug)]
pub struct PhysPageNum(pub u64);

/// A virtual address.
#[derive(Copy, Clone, Ord, PartialOrd, Eq, PartialEq, Structural, Debug)]
pub struct VirtAddr(pub u64);

/// A virtual page number.
#[derive(Copy, Clone, Ord, PartialOrd, Eq, Debug)]
pub struct VirtPageNum(pub u64);

impl PartialEq for VirtPageNum {
    fn eq(&self, other: &Self) -> (r: bool) {
        self.0 == other.0
    }
}

impl vstd::std_specs::cmp::PartialEqSpecImpl for VirtPageNum {
    open spec fn obeys_eq_spec() -> bool {
        true
    }

    open spec fn eq_spec(&self, other: &Self) -> bool {
        self.0 == other.0
    }
}

/// The address with the sign bit of its 39 bits copied to the bits above.
pub open spec fn sign_extended(v: u64) -> u64 {
    if v >= 0x40_0000_0000 {
        v | 0xffff_ff80_0000_0000
    } else {
        v
    }
}

impl PhysAddr {
    /// The number of the page that holds the address.
    pub fn floor(&self) -> (ppn: PhysPageNum)
        ensures
            ppn.0 == self.0 / 4096,
    {
        PhysPageNum(self.0 / PAGE_BYTES)
    }

    /// The number of the first page at or above the address.
    pub fn ceil(&self) -> (ppn: PhysPageNum)
        ensures
            ppn.0 == (self.0 + 4095) / 4096,
    {
        if self.0 == 0 {
            PhysPageNum(0)
        } else {
            PhysPageNum((self.0 - 1) / PAGE_BYTES + 1)
        }
    }

    /// The offset of the address in its page.
    pub fn page_offset(&self) -> (offset: u64)
        ensures
            offset == self.0 % 4096,
            offset == self.0 & 0xfff,
    {
        let v = self.0;
        assert(v & 0xfff == v % 4096) by (bit_vector);
        self.0 & (PAGE_BYTES - 1)
    }

    /// Whether the address is the first of its page.
    pub fn aligned(&self) -> (b: bool)
        ensures
            b == (self.0 % 4096 == 0),
    {
        self.page_offset() == 0
    }

    /// The number of the page that starts at the address.
    pub fn page_number(self) -> (ppn: PhysPageNum)
        requires
            self.0 % 4096 == 0,
        ensures
            ppn.0 == self.0 / 4096,
            PhysAddr::from_spec(ppn) == self,
    {
        let v = self.0;
        assert(v % 4096 == 0 ==> (v / 4096) << 12 == v) by (bit_vector);
        self.floor()
    }
}

impl VirtAddr {
    /// The number of the page that holds the address.
    pub fn floor(&self) -> (vpn: VirtPageNum)
        ensures
            vpn.0 == self.0 / 4096,
    {
        VirtPageNum(self.0 / PAGE_BYTES)
    }

    /// The number of the first page at or above the address.
    pub fn ceil(&self) -> (vpn: VirtPageNum)
        ensures
            vpn.0 == (self.0 + 4095) / 4096,
    {
        if self.0 == 0 {
            VirtPageNum(0)
        } else {
            VirtPageNum((self.0 - 1) / PAGE_BYTES + 1)
        }
    }

    /// The offset of the address in its page.
    pub fn page_offset(&self) -> (offset: u64)
        ensures
            offset == self.0 % 4096,
            offset == self.0 & 0xfff,
    {
        let v = self.0;
        assert(v & 0xfff == v % 4096) by (bit_vector);
        self.0 & (PAGE_BYTES - 1)
    }

    /// Whether the address is the first of its page.
    pub fn aligned(&self) -> (b: bool)
        ensures
            b == (self.0 % 4096 == 0),
    {
        self.page_offset() == 0
    }

    /// The number of the page that starts at the address.
    pub fn page_number(self) -> (vpn: VirtPageNum)
        requires
            self.0 % 4096 == 0,
        ensures
            vpn.0 == self.0 / 4096,
            VirtAddr::from_spec(vpn) == self,
    {
        let v = self.0;
        assert(v % 4096 == 0 ==> (v / 4096) << 12 == v) by (bit_vector);
        self.floor()
    }
}

/// The index that a virtual page number has at `level` of the page table,
/// level 0 being the root.
pub open spec fn vpn_index(vpn: u64, level: int) -> int {
    if level == 0 {
        ((vpn / 0x40000) % 512) as int
    } else if level == 1 {
        ((vpn / 512) % 512) as int
    } else {
        (vpn % 512) as int
    }
}

impl VirtPageNum {
    /// The indexes of the page in the three levels of the page table, root
    /// first.
    pub fn indexes(&self) -> (idx: [usize; 3])
        ensures
            idx[0] == vpn_index(self.0, 0),
            idx[1] == vpn_index(self.0, 1),
            idx[2] == vpn_index(self.0, 2),
            idx[0] < 512 && idx[1] < 512 && idx[2] < 512,
    {
        let vpn = self.0;
        assert(vpn & 511 == vpn % 512) by (bit_vector);
        assert((vpn >> 9) & 511 == (vpn / 512) % 512) by (bit_vector);
        assert(((vpn >> 9) >> 9) & 511 == (vpn / 0x40000) % 512) by (bit_vector);
        let low = vpn & 511;
        let vpn = vpn >> 9;
        let mid = vpn & 511;
        let vpn = vpn >> 9;
        let high = vpn & 511;
        [high as usize, mid as usize, low as usize]
    }

    /// The page after this one.
    pub fn next(self) -> (vpn: VirtPageNum)
        requires
            self.0 < u64::MAX,
        ensures
            vpn.0 == self.0 + 1,
    {
        VirtPageNum(self.0 + 1)
    }
}

impl From<u64> for PhysAddr {
    fn from(v: u64) -> (a: Self) {
        Self(v & PA_MASK)
    }
}

impl vstd::std_specs::convert::FromSpecImpl<u64> for PhysAddr {
    open spec fn obeys_from_spec() -> bool {
        true
    }

    open spec fn from_spec(v: u64) -> Self {
        PhysAddr(v & 0x00ff_ffff_ffff_ffff)
    }
}

impl From<u64> for PhysPageNum {
    fn from(v: u64) -> (a: Self) {
        Self(v & PPN_MASK)
    }
}

impl vstd::std_specs::convert::FromSpecImpl<u64> for PhysPageNum {
    open spec fn obeys_from_spec() -> bool {
        true
    }

    open spec fn from_spec(v: u64) -> Self {
        PhysPageNum(v & 0x0fff_ffff_ffff)
    }
}

impl From<u64> for VirtAddr {
    fn from(v: u64) -> (a: Self) {
        Self(v & VA_MASK)
    }
}

impl vstd::std_specs::convert::FromSpecImpl<u64> for VirtAddr {
    open spec fn obeys_from_spec() -> bool {
        true
    }

    open spec fn from_spec(v: u64) -> Self {
        VirtAddr(v & 0x7f_ffff_ffff)
    }
}

impl From<u64> for VirtPageNum {
    fn from(v: u64) -> (a: Self) {
        Self(v & VPN_MASK)
    }
}

impl vstd::std_specs::convert::FromSpecImpl<u64> for VirtPageNum {
    open spec fn obeys_from_spec() -> bool {
        true
    }

    open spec fn from_spec(v: u64) -> Self {
        VirtPageNum(v & 0x7ff_ffff)
    }
}

impl From<PhysAddr> for u64 {
    fn from(v: PhysAddr) -> (a: Self) {
        v.0
    }
}

impl vstd::std_specs::convert::FromSpecImpl<PhysAddr> for u64 {
    open spec fn obeys_from_spec() -> bool {
        true
    }

    open spec fn from_spec(v: PhysAddr) -> Self {
        v.0
    }
}

impl From<PhysPageNum> for u64 {
    fn from(v: PhysPageNum) -> (a: Self) {
        v.0
    }
}

impl vstd::std_specs::convert::FromSpecImpl<PhysPageNum> for u64 {
    open spec fn obeys_from_spec() -> bool {
        true
    }

    open spec fn from_spec(v: PhysPageNum) -> Self {
        v.0
    }
}

impl From<VirtAddr> for u64 {
    fn from(v: VirtAddr) -> (a: Self) {
        assert(!0x7f_ffff_ffffu64 == 0xffff_ff80_0000_0000u64) by (bit_vector);
        if v.0 >= 0x40_0000_0000 {
            v.0 | !VA_MASK
        } else {
            v.0
        }
    }
}

impl vstd::std_specs::convert::FromSpecImpl<VirtAddr> for u64 {
    open spec fn obeys_from_spec() -> bool {
        true
    }

    open spec fn from_spec(v: VirtAddr) -> Self {
        sign_extended(v.0)
    }
}

impl From<VirtPageNum> for u64 {
    fn from(v: VirtPageNum) -> (a: Self) {
        v.0
    }
}

impl vstd::std_specs::convert::FromSpecImpl<VirtPageNum> for u64 {
    open spec fn obeys_from_spec() -> bool {
        true
    }

    open spec fn from_spec(v: VirtPageNum) -> Self {
        v.0
    }
}

impl From<PhysPageNum> for PhysAddr {
    fn from(v: PhysPageNum) -> (a: Self) {
        Self(v.0 << 12)
    }
}

impl vstd::std_specs::convert::FromSpecImpl<PhysPageNum> for PhysAddr {
    open spec fn obeys_from_spec() -> bool {
        true
    }

    open spec fn from_spec(v: PhysPageNum) -> Self {
        PhysAddr(v.0 << 12)
    }
}

impl From<VirtPageNum> for VirtAddr {
    fn from(v: VirtPageNum) -> (a: Self) {
        Self(v.0 << 12)
    }
}

impl vstd::std_specs::convert::FromSpecImpl<VirtPageNum> for VirtAddr {
    open spec fn obeys_from_spec() -> bool {
        true
    }

    open spec fn from_spec(v: VirtPageNum) -> Self {
        VirtAddr(v.0 << 12)
    }
}

/// The address of a page is the page number times the page size, where that
/// fits in 64 bits, and it is the first address of its page.
pub proof fn lemma_page_address(n: u64)
    requires
        n <= 0x000f_ffff_ffff_ffff,
    ensures
        n << 12 == n * 4096,
        (n << 12) % 4096 == 0,
        (n << 12) / 4096 == n,
{
    assert(n <= 0x000f_ffff_ffff_ffff ==> n << 12 == n * 4096 && (n << 12) % 4096 == 0 && (n << 12)
        / 4096 == n) by (bit_vector);
}

/// A page-aligned physical address is the address of its page number.
pub proof fn lemma_phys_round_trip(a: PhysAddr)
    requires
        a.0 % 4096 == 0,
    ensures
        PhysAddr::from_spec(PhysPageNum(a.0 / 4096)) == a,
{
    let v = a.0;
    assert(v % 4096 == 0 ==> (v / 4096) << 12 == v) by (bit_vector);
}

/// A page-aligned virtual address is the address of its page number.
pub proof fn lemma_virt_round_trip(a: VirtAddr)
    requires
        a.0 % 4096 == 0,
    ensures
        VirtAddr::from_spec(VirtPageNum(a.0 / 4096)) == a,
{
    let v = a.0;
    assert(v % 4096 == 0 ==> (v / 4096) << 12 == v) by (bit_vector);
}

/// Masking to a width is the remainder by the power of two of the width.
pub proof fn lemma_masks(v: u64)
    ensures
        v & 0x00ff_ffff_ffff_ffff == v % 0x0100_0000_0000_0000,
        v & 0x0fff_ffff_ffff == v % 0x1000_0000_0000,
        v & 0x7f_ffff_ffff == v % 0x80_0000_0000,
        v & 0x7ff_ffff == v % 0x800_0000,
{
    assert(v & 0x00ff_ffff_ffff_ffff == v % 0x0100_0000_0000_0000) by (bit_vector);
    assert(v & 0x0fff_ffff_ffff == v % 0x1000_0000_0000) by (bit_vector);
    assert(v & 0x7f_ffff_ffff == v % 0x80_0000_0000) by (bit_vector);
    assert(v & 0x7ff_ffff == v % 0x800_0000) by (bit_vector);
}

} // verus!
