use vstd::prelude::*;
use crate::address::{PhysAddr, PhysPageNum};
use crate::config::{MEMORY_END, PAGE_SIZE};

verus! {

/// A page of zero bytes.
pub open spec fn zero_page() -> Seq<u8> {
    Seq::new(PAGE_SIZE as nat, |i: int| 0u8)
}

/// One physical frame and the bytes it holds.
pub struct FrameTracker {
    pub ppn: PhysPageNum,
    pub bytes: Vec<u8>,
}

impl FrameTracker {
    /// Takes ownership of frame `ppn`, whose bytes start out zeroed.
    pub fn new(ppn: PhysPageNum) -> (r: Self)
        ensures
            r.ppn == ppn,
            r.bytes@ == zero_page(),
    {
        let mut bytes: Vec<u8> = Vec::new();
        let mut i: u64 = 0;
        while i < PAGE_SIZE
            invariant
                i <= PAGE_SIZE,
                bytes@.len() == i,
                forall|j: int| 0 <= j < i ==> bytes@[j] == 0u8,
            decreases PAGE_SIZE - i,
        {
            bytes.push(0u8);
            i = i + 1;
        }
        assert(bytes@ =~= zero_page());
        FrameTracker { ppn, bytes }
    }
}

/// Hands out physical page numbers: recycled ones first, last freed first,
/// and fresh ones from `current` up to `end` after that.
pub struct StackFrameAllocator {
    current: u64,
    end: u64,
    recycled: Vec<u64>,
}

impl StackFrameAllocator {
    /// The next fresh page number.
    pub closed spec fn current(&self) -> u64 {
        self.current
    }

    /// The end of the fresh range.
    pub closed spec fn end(&self) -> u64 {
        self.end
    }

    /// The freed page numbers, the next to be reused last.
    pub closed spec fn recycled(&self) -> Seq<u64> {
        self.recycled@
    }

    /// Every freed page lies below the high-water mark and is freed once.
    pub open spec fn wf(&self) -> bool {
        &&& self.current() <= self.end()
        &&& self.recycled().no_duplicates()
        &&& forall|i: int| 0 <= i < self.recycled().len() ==> self.recycled()[i] < self.current()
    }

    /// How many page numbers can still be handed out.
    pub open spec fn free_count(&self) -> int {
        self.recycled().len() + self.end() - self.current()
    }

    /// The page numbers that are handed out and not yet returned.
    pub open spec fn allocated(&self) -> Set<u64> {
        Set::new(|p: u64| p < self.current() && !self.recycled().contains(p))
    }

    /// An allocator with nothing to hand out.
    pub fn new() -> (r: Self)
        ensures
            r.wf(),
            r.current() == 0,
            r.end() == 0,
            r.recycled() == Seq::<u64>::empty(),
    {
        StackFrameAllocator { current: 0, end: 0, recycled: Vec::new() }
    }

    /// Sets the range of fresh page numbers to `[l, r)`.
    pub fn init(&mut self, l: PhysPageNum, r: PhysPageNum)
        requires
            l.0 <= r.0,
            old(self).recycled().len() == 0,
        ensures
            final(self).wf(),
            final(self).current() == l.0,
            final(self).end() == r.0,
            final(self).recycled() == old(self).recycled(),
    {
        self.current = l.0;
        self.end = r.0;
    }

    /// Hands out the last freed page number, else the next fresh one, else
    /// nothing.
    pub fn allocate(&mut self) -> (r: Option<PhysPageNum>)
        requires
            old(self).wf(),
        ensures
            final(self).wf(),
            final(self).end() == old(self).end(),
            old(self).recycled().len() > 0 ==> r == Some(PhysPageNum(old(self).recycled().last()))
                && final(self).recycled() == old(self).recycled().drop_last()
                && final(self).current() == old(self).current(),
            old(self).recycled().len() == 0 && old(self).current() == old(self).end() ==> r is None
                && final(self).current() == old(self).current() && final(self).recycled()
                == old(self).recycled(),
            old(self).recycled().len() == 0 && old(self).current() < old(self).end() ==> r == Some(
                PhysPageNum(old(self).current()),
            ) && final(self).current() == old(self).current() + 1 && final(self).recycled()
                == old(self).recycled(),
            r matches Some(p) ==> !old(self).allocated().contains(p.0) && final(self).allocated()
                == old(self).allocated().insert(p.0),
            r is None ==> final(self).allocated() == old(self).allocated(),
    {
        if let Some(ppn) = self.recycled.pop() {
            proof {
                let s = old(self).recycled();
                assert(s == self.recycled@.push(ppn));
                assert forall|p: u64| #![auto] self.recycled@.contains(p) implies s.contains(p) && p != ppn by {
                    let i = choose|i: int| 0 <= i < self.recycled@.len() && self.recycled@[i] == p;
                    assert(s[i] == p);
                    assert(s[s.len() - 1] == ppn);
                };
                assert forall|p: u64| #![auto] s.contains(p) && p != ppn implies self.recycled@.contains(p) by {
                    let i = choose|i: int| 0 <= i < s.len() && s[i] == p;
                    assert(self.recycled@[i] == p);
                };
                assert(s.contains(ppn)) by {
                    assert(s[s.len() - 1] == ppn);
                };
                assert(self.allocated() =~= old(self).allocated().insert(ppn));
            }
            Some(PhysPageNum(ppn))
        } else if self.current == self.end {
            None
        } else {
            self.current = self.current + 1;
            proof {
                assert(self.allocated() =~= old(self).allocated().insert((self.current - 1) as u64));
            }
            Some(PhysPageNum(self.current - 1))
        }
    }

    /// How many page numbers can still be handed out, at most `u64::MAX`.
    pub fn free_frames(&self) -> (r: u64)
        requires
            self.wf(),
        ensures
            r == (if self.free_count() > u64::MAX { u64::MAX as int } else { self.free_count() }),
    {
        (self.recycled.len() as u64).saturating_add(self.end - self.current)
    }

    /// Whether page number `ppn` is handed out and not yet returned.
    pub fn is_allocated(&self, ppn: PhysPageNum) -> (r: bool)
        requires
            self.wf(),
        ensures
            r == self.allocated().contains(ppn.0),
    {
        if ppn.0 >= self.current {
            return false;
        }
        let mut i: usize = 0;
        let mut found = false;
        while i < self.recycled.len()
            invariant
                i <= self.recycled@.len(),
                found ==> self.recycled@.contains(ppn.0),
                !found ==> forall|j: int| 0 <= j < i ==> self.recycled@[j] != ppn.0,
            decreases self.recycled@.len() - i,
        {
            if self.recycled[i] == ppn.0 {
                assert(self.recycled@[i as int] == ppn.0);
                found = true;
            }
            i = i + 1;
        }
        !found
    }

    /// Returns page number `ppn`. A page number at or above the high-water
    /// mark, or one already returned, is refused: the result is `false` and
    /// nothing changes.
    pub fn dealloc(&mut self, ppn: PhysPageNum) -> (r: bool)
        requires
            old(self).wf(),
        ensures
            final(self).wf(),
            r == old(self).allocated().contains(ppn.0),
            final(self).current() == old(self).current(),
            final(self).end() == old(self).end(),
            r ==> final(self).recycled() == old(self).recycled().push(ppn.0),
            !r ==> final(self).recycled() == old(self).recycled(),
            r ==> final(self).allocated() == old(self).allocated().remove(ppn.0),
            !r ==> final(self).allocated() == old(self).allocated(),
            r ==> final(self).free_count() == old(self).free_count() + 1,
    {
        let p = ppn.0;
        if p >= self.current {
            return false;
        }
        let mut i: usize = 0;
        let mut found = false;
        while i < self.recycled.len()
            invariant
                i <= self.recycled@.len(),
                found ==> self.recycled@.contains(p),
                !found ==> forall|j: int| 0 <= j < i ==> self.recycled@[j] != p,
            decreases self.recycled@.len() - i,
        {
            if self.recycled[i] == p {
                assert(self.recycled@[i as int] == p);
                found = true;
            }
            i = i + 1;
        }
        if found {
            return false;
        }
        assert(!self.recycled@.contains(p));
        self.recycled.push(p);
        proof {
            let s = old(self).recycled();
            assert(self.recycled@ == s.push(p));
            assert forall|q: u64| #![auto] self.recycled@.contains(q) <==> (s.contains(q) || q == p) by {
                if self.recycled@.contains(q) {
                    let i = choose|i: int| 0 <= i < self.recycled@.len() && self.recycled@[i] == q;
                    if i < s.len() {
                        assert(s[i] == q);
                    }
                }
                if s.contains(q) {
                    let i = choose|i: int| 0 <= i < s.len() && s[i] == q;
                    assert(self.recycled@[i] == q);
                }
                if q == p {
                    assert(self.recycled@[s.len() as int] == q);
                }
            };
            assert(self.allocated() =~= old(self).allocated().remove(p));
        }
        true
    }
}

/// Fresh frames run from the first page after the kernel image to the end of
/// managed memory.
pub fn init_frame_allocator(allocator: &mut StackFrameAllocator, kernel_end: u64)
    requires
        old(allocator).recycled().len() == 0,
        kernel_end <= MEMORY_END,
    ensures
        final(allocator).wf(),
        final(allocator).current() == (kernel_end as int + PAGE_SIZE - 1) / PAGE_SIZE as int,
        final(allocator).end() == MEMORY_END / PAGE_SIZE,
        final(allocator).recycled().len() == 0,
{
    let l = PhysAddr::from(kernel_end).ceil();
    let r = PhysAddr::from(MEMORY_END).floor();
    allocator.init(l, r);
}

/// Takes a frame from the allocator, with its bytes zeroed.
pub fn frame_alloc(allocator: &mut StackFrameAllocator) -> (r: Option<FrameTracker>)
    requires
        old(allocator).wf(),
    ensures
        final(allocator).wf(),
        final(allocator).end() == old(allocator).end(),
        r matches Some(f) ==> !old(allocator).allocated().contains(f.ppn.0)
            && final(allocator).allocated() == old(allocator).allocated().insert(f.ppn.0)
            && f.bytes@ == zero_page() && final(allocator).free_count() == old(allocator).free_count()
            - 1,
        r is None ==> final(allocator).allocated() == old(allocator).allocated()
            && final(allocator).current() == old(allocator).current()
            && final(allocator).recycled() == old(allocator).recycled()
            && old(allocator).recycled().len() == 0 && old(allocator).current() == old(allocator).end(),
        old(allocator).recycled().len() > 0 || old(allocator).current() < old(allocator).end()
            ==> r is Some,
{
    match allocator.allocate() {
        Some(ppn) => Some(FrameTracker::new(ppn)),
        None => None,
    }
}

/// Gives frame `ppn` back to the allocator. Returning a frame that was not
/// handed out, or twice, is a kernel bug: callers must hold it handed out.
pub fn frame_dealloc(allocator: &mut StackFrameAllocator, ppn: PhysPageNum)
    requires
        old(allocator).wf(),
        old(allocator).allocated().contains(ppn.0),
    ensures
        final(allocator).wf(),
        final(allocator).end() == old(allocator).end(),
        final(allocator).allocated() == old(allocator).allocated().remove(ppn.0),
        final(allocator).free_count() == old(allocator).free_count() + 1,
        final(allocator).recycled() == old(allocator).recycled().push(ppn.0),
        final(allocator).current() == old(allocator).current(),
{
    allocator.dealloc(ppn);
}

/// A frame handed out while other frames are live is none of them: whatever
/// frames are still held, by any owner, the allocator never issues one of them
/// again until it has been returned.
pub proof fn lemma_no_double_issue(
    before: StackFrameAllocator,
    after: StackFrameAllocator,
    issued: PhysPageNum,
    live: Set<u64>,
)
    requires
        before.wf(),
        live.subset_of(before.allocated()),
        !before.allocated().contains(issued.0),
        after.allocated() == before.allocated().insert(issued.0),
    ensures
        !live.contains(issued.0),
        live.insert(issued.0).subset_of(after.allocated()),
{
}

} // verus!
