use std::collections::BTreeMap;
use vstd::prelude::*;
use crate::frame_allocator::FrameAllocator;

verus! {

broadcast use vstd::std_specs::btree::group_btree_axioms, vstd::laws_cmp::group_laws_cmp;

/// The valid bit of a page-table entry.
pub const PTE_V: u8 = 1;

/// One leaf entry: the physical page number and the flag bits.
#[derive(Clone, Copy, Debug, PartialEq, Eq, Structural)]
pub struct PageTableEntry {
    pub ppn: usize,
    pub flags: u8,
}

impl PageTableEntry {
    /// The physical page number the entry points to.
    pub fn ppn(&self) -> (r: usize)
        ensures
            r == self.ppn,
    {
        self.ppn
    }

    /// The entry's flag bits.
    pub fn flags(&self) -> (r: u8)
        ensures
            r == self.flags,
    {
        self.flags
    }

    /// Whether the valid bit is set.
    pub fn is_valid(&self) -> (r: bool)
        ensures
            r == (self.flags & PTE_V != 0),
    {
        self.flags & PTE_V != 0
    }
}

/// The entry that `map` installs for `ppn` with permission bits `perm`.
pub open spec fn leaf(ppn: usize, perm: u8) -> PageTableEntry {
    PageTableEntry { ppn, flags: perm | PTE_V }
}

/// The paging-mode part of a root token: the word's top bit, which selects three-level paging on
/// a 64-bit machine (mode 8 in the top four bits) and paging on a 32-bit one.
pub const SATP_MODE_SV39: usize = usize::MAX - (usize::MAX >> 1);

/// The root token of a table whose root frame is `root_ppn`: the mode in the top bits and the
/// frame number below.
pub open spec fn token_of(root_ppn: usize) -> usize {
    SATP_MODE_SV39 | root_ppn
}

/// A translation table from virtual page numbers to leaf entries, rooted in one frame.
pub struct PageTable {
    entries: BTreeMap<usize, PageTableEntry>,
    root_ppn: usize,
}

impl View for PageTable {
    type V = Map<usize, PageTableEntry>;

    closed spec fn view(&self) -> Map<usize, PageTableEntry> {
        self.entries@
    }
}

impl PageTable {
    /// The frame that holds the root of the table.
    pub closed spec fn spec_root(&self) -> usize {
        self.root_ppn
    }

    pub open spec fn spec_token(&self) -> usize {
        token_of(self.spec_root())
    }

    /// An empty table whose root is a fresh frame taken from `fa`.
    pub fn new(fa: &mut FrameAllocator) -> (r: PageTable)
        requires
            old(fa).wf(),
        ensures
            r@ == Map::<usize, PageTableEntry>::empty(),
            final(fa).wf(),
            !old(fa).allocated().contains(r.spec_root()),
            final(fa).allocated() == old(fa).allocated().insert(r.spec_root()),
            forall|q: usize| #[trigger] old(fa).allocated().contains(q) ==> final(fa).content(q) == old(fa).content(q),
    {
        let root_ppn = fa.alloc_frame();
        PageTable { entries: BTreeMap::new(), root_ppn }
    }

    /// The value that identifies this table's root to the activation primitive.
    pub fn token(&self) -> (r: usize)
        ensures
            r == self.spec_token(),
    {
        SATP_MODE_SV39 | self.root_ppn
    }

    /// Installs `vpn -> ppn` with the permission bits `perm` and the valid bit.
    pub fn map(&mut self, vpn: usize, ppn: usize, perm: u8)
        ensures
            final(self)@ == old(self)@.insert(vpn, leaf(ppn, perm)),
            final(self).spec_root() == old(self).spec_root(),
    {
        self.entries.insert(vpn, PageTableEntry { ppn, flags: perm | PTE_V });
    }

    /// Removes the entry of `vpn`, if any.
    pub fn unmap(&mut self, vpn: usize)
        ensures
            final(self)@ == old(self)@.remove(vpn),
            final(self).spec_root() == old(self).spec_root(),
    {
        self.entries.remove(&vpn);
    }

    /// The entry of `vpn`, or `None` when it is not mapped.
    pub fn translate(&self, vpn: usize) -> (r: Option<PageTableEntry>)
        ensures
            r == (if self@.contains_key(vpn) {
                Some(self@[vpn])
            } else {
                None
            }),
    {
        match self.entries.get(&vpn) {
            Some(e) => Some(*e),
            None => None,
        }
    }
}

} // verus!
