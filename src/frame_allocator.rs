use vstd::prelude::*;
use crate::address::PAGE_SIZE;

verus! {

/// Physical memory as a pool of page-sized frames, each either free or in use.
pub struct FrameAllocator {
    frames: Vec<Vec<u8>>,
    in_use: Vec<bool>,
}

/// A page of zero bytes.
pub open spec fn zero_page() -> Seq<u8> {
    Seq::new(PAGE_SIZE as nat, |i: int| 0u8)
}

impl FrameAllocator {
    pub closed spec fn wf(&self) -> bool {
        &&& self.frames@.len() == self.in_use@.len()
        &&& forall|p: int| 0 <= p < self.frames@.len() ==> #[trigger] self.frames@[p]@.len() == PAGE_SIZE
    }

    /// The physical page numbers currently handed out.
    pub closed spec fn allocated(&self) -> Set<usize> {
        Set::new(|p: usize| p < self.in_use@.len() && self.in_use@[p as int])
    }

    /// The bytes of frame `ppn`.
    pub closed spec fn content(&self, ppn: usize) -> Seq<u8> {
        if ppn < self.frames@.len() {
            self.frames@[ppn as int]@
        } else {
            zero_page()
        }
    }

    /// Every frame holds exactly one page of bytes.
    pub proof fn lemma_content_len(&self, ppn: usize)
        requires
            self.wf(),
        ensures
            self.content(ppn).len() == PAGE_SIZE,
    {
    }

    /// An empty pool.
    pub fn new() -> (r: FrameAllocator)
        ensures
            r.wf(),
            r.allocated() == Set::<usize>::empty(),
    {
        let r = FrameAllocator { frames: Vec::new(), in_use: Vec::new() };
        assert(r.allocated() =~= Set::<usize>::empty());
        r
    }

    /// Hands out a zeroed frame that was not in use.
    pub fn alloc_frame(&mut self) -> (ppn: usize)
        requires
            old(self).wf(),
        ensures
            final(self).wf(),
            !old(self).allocated().contains(ppn),
            final(self).allocated() == old(self).allocated().insert(ppn),
            final(self).content(ppn) == zero_page(),
            forall|p: usize| #[trigger]
                old(self).allocated().contains(p) ==> final(self).content(p) == old(self).content(p),
    {
        let n = self.in_use.len();
        let mut i: usize = 0;
        while i < n
            invariant
                self.wf(),
                self.frames@ == old(self).frames@,
                self.in_use@ == old(self).in_use@,
                n == self.in_use@.len(),
                0 <= i <= n,
                forall|j: int| 0 <= j < i ==> self.in_use@[j],
            decreases n - i,
        {
            if !self.in_use[i] {
                self.frames[i] = new_zero_page();
                self.in_use[i] = true;
                assert(self.allocated() =~= old(self).allocated().insert(i));
                return i;
            }
            i = i + 1;
        }
        self.frames.push(new_zero_page());
        self.in_use.push(true);
        assert(self.allocated() =~= old(self).allocated().insert(n));
        n
    }

    /// Returns frame `ppn` to the pool; a frame that is not in use is left alone.
    pub fn dealloc_frame(&mut self, ppn: usize)
        requires
            old(self).wf(),
        ensures
            final(self).wf(),
            final(self).allocated() == old(self).allocated().remove(ppn),
            forall|p: usize| #[trigger]
                final(self).allocated().contains(p) ==> final(self).content(p) == old(self).content(p),
    {
        if ppn < self.in_use.len() {
            self.in_use[ppn] = false;
        }
        assert(self.allocated() =~= old(self).allocated().remove(ppn));
    }

    /// Whether frame `ppn` is in use.
    pub fn is_allocated(&self, ppn: usize) -> (r: bool)
        requires
            self.wf(),
        ensures
            r == self.allocated().contains(ppn),
    {
        ppn < self.in_use.len() && self.in_use[ppn]
    }

    /// The byte at `offset` in frame `ppn`.
    pub fn read_byte(&self, ppn: usize, offset: usize) -> (r: u8)
        requires
            self.wf(),
            self.allocated().contains(ppn),
            offset < PAGE_SIZE,
        ensures
            r == self.content(ppn)[offset as int],
    {
        self.frames[ppn][offset]
    }

    /// Sets the byte at `offset` in frame `ppn`; every other byte stays.
    pub fn write_byte(&mut self, ppn: usize, offset: usize, b: u8)
        requires
            old(self).wf(),
            old(self).allocated().contains(ppn),
            offset < PAGE_SIZE,
        ensures
            final(self).wf(),
            final(self).allocated() == old(self).allocated(),
            final(self).content(ppn) == old(self).content(ppn).update(offset as int, b),
            forall|p: usize| p != ppn ==> #[trigger] final(self).content(p) == old(self).content(p),
    {
        self.frames[ppn][offset] = b;
        assert(self.allocated() =~= old(self).allocated());
    }

    /// Copies the whole of frame `src` over frame `dst`.
    pub fn copy_frame(&mut self, src: usize, dst: usize)
        requires
            old(self).wf(),
            old(self).allocated().contains(src),
            old(self).allocated().contains(dst),
        ensures
            final(self).wf(),
            final(self).allocated() == old(self).allocated(),
            final(self).content(dst) == old(self).content(src),
            forall|p: usize| p != dst ==> #[trigger] final(self).content(p) == old(self).content(p),
    {
        let page = splice(self.frames[src].as_slice(), 0, PAGE_SIZE, &self.frames[dst]);
        self.frames[dst] = page;
        assert(old(self).content(src).subrange(0, PAGE_SIZE as int) =~= old(self).content(src));
        assert(self.content(dst) =~= old(self).content(src));
        assert(self.allocated() =~= old(self).allocated());
    }

    /// Writes `data[lo..hi]` into frame `ppn` from its first byte on; the rest of the frame stays.
    pub fn write_prefix(&mut self, ppn: usize, data: &[u8], lo: usize, hi: usize)
        requires
            old(self).wf(),
            old(self).allocated().contains(ppn),
            lo <= hi <= data@.len(),
            hi - lo <= PAGE_SIZE,
        ensures
            final(self).wf(),
            final(self).allocated() == old(self).allocated(),
            final(self).content(ppn) == data@.subrange(lo as int, hi as int) + old(self).content(ppn).subrange(
                hi - lo,
                PAGE_SIZE as int,
            ),
            forall|p: usize| p != ppn ==> #[trigger] final(self).content(p) == old(self).content(p),
    {
        let page = splice(data, lo, hi, &self.frames[ppn]);
        self.frames[ppn] = page;
        assert(self.allocated() =~= old(self).allocated());
    }
}

/// `data[lo..hi]` followed by what `page` holds after its first `hi - lo` bytes.
fn splice(data: &[u8], lo: usize, hi: usize, page: &Vec<u8>) -> (r: Vec<u8>)
    requires
        lo <= hi <= data@.len(),
        hi - lo <= page@.len(),
    ensures
        r@ == data@.subrange(lo as int, hi as int) + page@.subrange(hi - lo, page@.len() as int),
{
    let n = hi - lo;
    let mut v: Vec<u8> = Vec::new();
    let mut j: usize = 0;
    while j < page.len()
        invariant
            lo <= hi <= data@.len(),
            n == hi - lo,
            n <= page@.len(),
            j <= page@.len(),
            v@.len() == j,
            forall|k: int| 0 <= k < j ==> v@[k] == (if k < n {
                data@[lo + k]
            } else {
                page@[k]
            }),
        decreases page@.len() - j,
    {
        if j < n {
            v.push(data[lo + j]);
        } else {
            v.push(page[j]);
        }
        j = j + 1;
    }
    assert(v@ =~= data@.subrange(lo as int, hi as int) + page@.subrange(n as int, page@.len() as int));
    v
}

fn new_zero_page() -> (r: Vec<u8>)
    ensures
        r@ == zero_page(),
{
    let mut v: Vec<u8> = Vec::new();
    while v.len() < PAGE_SIZE
        invariant
            v@.len() <= PAGE_SIZE,
            forall|j: int| 0 <= j < v@.len() ==> v@[j] == 0u8,
        decreases PAGE_SIZE - v@.len(),
    {
        v.push(0u8);
    }
    assert(v@ =~= zero_page());
    v
}

} // verus!
