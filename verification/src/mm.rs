use vstd::prelude::*;
use std::collections::BTreeMap;

verus! {

/// Size of a page in bytes.
pub const PAGE_SIZE: usize = 4096;

/// Number of bits of the offset inside a page.
pub const PAGE_SIZE_BITS: usize = 12;

/// Width of an SV39 virtual address.
pub const VA_WIDTH_SV39: usize = 39;

/// Width of an SV39 physical page number.
pub const PPN_WIDTH_SV39: usize = 44;

/// Page table entry flag: the entry is valid.
pub const PTE_V: u8 = 1;
/// Page table entry flag: the page is readable.
pub const PTE_R: u8 = 2;
/// Page table entry flag: the page is writable.
pub const PTE_W: u8 = 4;
/// Page table entry flag: the page is executable.
pub const PTE_X: u8 = 8;
/// Page table entry flag: the page is accessible from user mode.
pub const PTE_U: u8 = 16;

/// The permissions of a user memory area.
#[derive(Copy, Clone, Debug, PartialEq, Eq, Structural)]
pub struct MapPermission {
    /// Readable.
    pub r: bool,
    /// Writable.
    pub w: bool,
    /// Executable.
    pub x: bool,
    /// Accessible from user mode.
    pub u: bool,
}

/// The leaf page table entry that maps a virtual page.
#[derive(Copy, Clone, Debug, PartialEq, Eq, Structural)]
pub struct PageTableEntry {
    /// The physical page number the entry points to.
    pub ppn: usize,
    /// The entry's flag bits (`PTE_V`, `PTE_R`, ...).
    pub flags: u8,
}

/// The number of distinct SV39 virtual addresses.
pub open spec fn va_space() -> int {
    0x80_0000_0000
}

/// The SV39 virtual address that `addr` stands for: its low 39 bits.
pub open spec fn va_of(addr: usize) -> int {
    addr as int % va_space()
}

/// The virtual page that holds `addr`.
pub open spec fn vpn_floor(addr: usize) -> int {
    va_of(addr) / PAGE_SIZE as int
}

/// The first virtual page boundary at or above `addr`.
pub open spec fn vpn_ceil(addr: usize) -> int {
    (va_of(addr) + PAGE_SIZE - 1) / PAGE_SIZE as int
}

/// `pte` is a valid user mapping that grants every flag of `perm`.
pub open spec fn pte_allows(pte: PageTableEntry, perm: u8) -> bool {
    &&& pte.flags & PTE_V != 0
    &&& pte.flags & PTE_U == PTE_U
    &&& pte.flags & perm == perm
}

/// The physical address that `addr` reaches through `pte`.
pub open spec fn phys_addr(pte: PageTableEntry, addr: usize) -> int {
    pte.ppn * PAGE_SIZE + addr as int % PAGE_SIZE as int
}

/// `ppn` is an SV39 physical page number whose addresses fit in a `usize`.
pub open spec fn ppn_fits(ppn: usize) -> bool {
    ppn < 0x1000_0000_0000 && (ppn + 1) * PAGE_SIZE <= usize::MAX + 1
}

/// The translation of virtual pages of an address space to the leaf entries
/// that map them.
pub struct PageTable {
    entries: BTreeMap<usize, PageTableEntry>,
}

impl View for PageTable {
    type V = Map<usize, PageTableEntry>;

    closed spec fn view(&self) -> Map<usize, PageTableEntry> {
        self.entries@
    }
}

impl PageTable {
    /// Every entry points to an SV39 physical page whose addresses fit in a `usize`.
    pub open spec fn wf(&self) -> bool {
        forall|vpn: usize| #[trigger] self@.contains_key(vpn) ==> ppn_fits(self@[vpn].ppn)
    }

    /// An address space with nothing mapped.
    pub fn new() -> (r: Self)
        ensures
            r@ == Map::<usize, PageTableEntry>::empty(),
            r.wf(),
    {
        PageTable { entries: BTreeMap::new() }
    }

    /// Maps virtual page `vpn` by `pte`.
    pub fn map(&mut self, vpn: usize, pte: PageTableEntry)
        requires
            old(self).wf(),
            ppn_fits(pte.ppn),
        ensures
            final(self)@ == old(self)@.insert(vpn, pte),
            final(self).wf(),
    {
        self.entries.insert(vpn, pte);
        proof {
            assert forall|v: usize| #[trigger] self@.contains_key(v) implies ppn_fits(self@[v].ppn) by {
                if v != vpn {
                    assert(old(self)@.contains_key(v));
                }
            }
        }
    }

    /// The leaf entry that maps virtual page `vpn`, if any.
    pub fn translate(&self, vpn: usize) -> (r: Option<PageTableEntry>)
        ensures
            r == if self@.contains_key(vpn) {
                Some(self@[vpn])
            } else {
                None
            },
    {
        match self.entries.get(&vpn) {
            Some(pte) => Some(*pte),
            None => None,
        }
    }
}

/// Whether `pte` is a valid user mapping that grants every flag of `perm`.
pub fn pte_has_perm(pte: PageTableEntry, perm: u8) -> (r: bool)
    ensures
        r == pte_allows(pte, perm),
{
    pte.flags & PTE_V != 0 && pte.flags & PTE_U == PTE_U && pte.flags & perm == perm
}

/// The SV39 virtual address that `addr` stands for: its low 39 bits.
pub fn virt_addr(addr: usize) -> (r: usize)
    ensures
        r == va_of(addr),
{
    let a = addr as u64;
    let va = a & 0x7f_ffff_ffffu64;
    assert(va <= a && va == a % 0x80_0000_0000) by (bit_vector)
        requires
            va == a & 0x7f_ffff_ffffu64,
    ;
    va as usize
}

/// The virtual page that holds `addr`.
pub fn floor_vpn(addr: usize) -> (r: usize)
    ensures
        r == vpn_floor(addr),
{
    virt_addr(addr) / PAGE_SIZE
}

/// The first virtual page boundary at or above `addr`.
pub fn ceil_vpn(addr: usize) -> (r: usize)
    ensures
        r == vpn_ceil(addr),
{
    let va = virt_addr(addr);
    if va % PAGE_SIZE == 0 {
        va / PAGE_SIZE
    } else {
        va / PAGE_SIZE + 1
    }
}

} // verus!
