//! Physical frames handed out from the boot memory map, never reclaimed.
use vstd::prelude::*;

verus! {

/// Size of a physical frame and of a virtual page.
pub const FRAME_SIZE: u64 = 4096;

/// A region of the boot memory map: `[start, end)`, usable or not.
#[derive(Clone, Copy, Debug, PartialEq, Eq)]
pub struct MemoryRegion {
    pub start: u64,
    pub end: u64,
    pub usable: bool,
}

/// Start of the frame that holds `addr`.
pub open spec fn frame_of(addr: int) -> int {
    addr - addr % FRAME_SIZE as int
}

/// Number of 4096-byte steps from `start` that stay below `end`.
pub open spec fn step_count(start: int, end: int) -> int {
    if end <= start {
        0
    } else {
        (end - start - 1) / FRAME_SIZE as int + 1
    }
}

/// The frames of a usable region: one per 4096-byte step through it.
pub open spec fn region_frames(r: MemoryRegion) -> Seq<u64> {
    if r.usable {
        Seq::new(
            step_count(r.start as int, r.end as int) as nat,
            |k: int| frame_of(r.start + k * FRAME_SIZE) as u64,
        )
    } else {
        Seq::empty()
    }
}

/// The frames of all usable regions, in map order.
pub open spec fn usable_frames(regions: Seq<MemoryRegion>) -> Seq<u64>
    decreases regions.len(),
{
    if regions.len() == 0 {
        Seq::empty()
    } else {
        region_frames(regions[0]) + usable_frames(regions.drop_first())
    }
}

/// A memory map in address order whose regions do not overlap and start
/// and end on frame boundaries.
pub open spec fn ordered_map(regions: Seq<MemoryRegion>) -> bool {
    &&& forall|i: int|
        0 <= i < regions.len() ==> {
            &&& (#[trigger] regions[i]).start % FRAME_SIZE == 0
            &&& regions[i].end % FRAME_SIZE == 0
            &&& regions[i].start <= regions[i].end
        }
    &&& forall|i: int, j: int|
        0 <= i < j < regions.len() ==> (#[trigger] regions[i]).end <= (#[trigger] regions[j]).start
}

proof fn lemma_region_frames(r: MemoryRegion, k: int)
    requires
        r.usable,
        r.start % FRAME_SIZE == 0,
        r.end % FRAME_SIZE == 0,
        0 <= k < step_count(r.start as int, r.end as int),
    ensures
        region_frames(r)[k] == r.start + k * FRAME_SIZE,
        r.start <= region_frames(r)[k] < r.end,
{
    let d = (r.end - r.start - 1) as int;
    assert(k * 4096 <= d) by (nonlinear_arith)
        requires k < d / 4096 + 1, d >= 0;
    let a = r.start + k * 4096;
    vstd::arithmetic::div_mod::lemma_mod_multiples_vanish(k, r.start as int, 4096);
    assert(4096 * k == k * 4096) by (nonlinear_arith);
    assert(a % 4096 == 0);
}

proof fn lemma_frames_from(regions: Seq<MemoryRegion>, lo: int)
    requires
        ordered_map(regions),
        forall|i: int| 0 <= i < regions.len() ==> lo <= (#[trigger] regions[i]).start,
    ensures
        forall|k: int| 0 <= k < usable_frames(regions).len() ==> lo <= #[trigger] usable_frames(regions)[k],
    decreases regions.len(),
{
    if regions.len() > 0 {
        let rest = regions.drop_first();
        assert forall|i: int| 0 <= i < rest.len() implies lo <= (#[trigger] rest[i]).start by {
            assert(rest[i] == regions[i + 1]);
        }
        assert(ordered_map(rest)) by {
            assert forall|i: int, j: int| 0 <= i < j < rest.len() implies (#[trigger] rest[i]).end
                <= (#[trigger] rest[j]).start by {
                assert(rest[i] == regions[i + 1] && rest[j] == regions[j + 1]);
            }
            assert forall|i: int| 0 <= i < rest.len() implies (#[trigger] rest[i]).start % FRAME_SIZE == 0
                && rest[i].end % FRAME_SIZE == 0 && rest[i].start <= rest[i].end by {
                assert(rest[i] == regions[i + 1]);
            }
        }
        lemma_frames_from(rest, lo);
        let head = region_frames(regions[0]);
        assert forall|k: int| 0 <= k < usable_frames(regions).len() implies lo
            <= #[trigger] usable_frames(regions)[k] by {
            if k < head.len() {
                lemma_region_frames(regions[0], k);
            } else {
                assert(usable_frames(regions)[k] == usable_frames(rest)[k - head.len()]);
            }
        }
    }
}

/// Over a memory map in address order, the frames handed out one after
/// the other strictly increase: none is handed out twice.
pub proof fn lemma_frames_increase(regions: Seq<MemoryRegion>, i: int, j: int)
    requires
        ordered_map(regions),
        0 <= i < j < usable_frames(regions).len(),
    ensures
        usable_frames(regions)[i] < usable_frames(regions)[j],
    decreases regions.len(),
{
    let rest = regions.drop_first();
    let head = region_frames(regions[0]);
    assert(ordered_map(rest)) by {
        assert forall|a: int, b: int| 0 <= a < b < rest.len() implies (#[trigger] rest[a]).end
            <= (#[trigger] rest[b]).start by {
            assert(rest[a] == regions[a + 1] && rest[b] == regions[b + 1]);
        }
        assert forall|a: int| 0 <= a < rest.len() implies (#[trigger] rest[a]).start % FRAME_SIZE == 0
            && rest[a].end % FRAME_SIZE == 0 && rest[a].start <= rest[a].end by {
            assert(rest[a] == regions[a + 1]);
        }
    }
    if j < head.len() {
        lemma_region_frames(regions[0], i);
        lemma_region_frames(regions[0], j);
    } else if i >= head.len() {
        lemma_frames_increase(rest, i - head.len(), j - head.len());
    } else {
        lemma_region_frames(regions[0], i);
        assert forall|a: int| 0 <= a < rest.len() implies regions[0].end <= (#[trigger] rest[a]).start by {
            assert(rest[a] == regions[a + 1]);
        }
        lemma_frames_from(rest, regions[0].end as int);
        assert(usable_frames(regions)[j] == usable_frames(rest)[j - head.len()]);
    }
}

/// Start of the frame that holds `addr`.
pub fn containing_frame(addr: u64) -> (r: u64)
    ensures
        r == frame_of(addr as int),
{
    addr - addr % FRAME_SIZE
}

/// A frame allocator that returns the usable frames of the boot memory map
/// one after the other.
pub struct BootInfoFrameAllocator<'a> {
    mem_map: &'a [MemoryRegion],
    next: usize,
}

impl<'a> BootInfoFrameAllocator<'a> {
    /// The boot memory map.
    pub closed spec fn memory_map(&self) -> Seq<MemoryRegion> {
        self.mem_map@
    }

    /// How many frames have been asked for.
    pub closed spec fn next_index(&self) -> int {
        self.next as int
    }

    /// A frame allocator over `mem_map`, which must describe memory that
    /// nothing else uses.
    pub fn init(mem_map: &'a [MemoryRegion]) -> (r: Self)
        ensures
            r.memory_map() == mem_map@,
            r.next_index() == 0,
    {
        BootInfoFrameAllocator { mem_map, next: 0 }
    }

    /// How many frames have been asked for.
    pub fn next_position(&self) -> (r: usize)
        ensures
            r == self.next_index(),
    {
        self.next
    }

    /// The frame at position `k` of the usable frames, if there is one.
    fn usable_frame(&self, k: usize) -> (r: Option<u64>)
        ensures
            r == if k < usable_frames(self.mem_map@).len() {
                Some(usable_frames(self.mem_map@)[k as int])
            } else {
                None::<u64>
            },
    {
        let ghost all = usable_frames(self.mem_map@);
        let mut i: usize = 0;
        let mut rest: usize = k;
        proof {
            assert(self.mem_map@.subrange(0, self.mem_map@.len() as int) =~= self.mem_map@);
        }
        while i < self.mem_map.len()
            invariant
                i <= self.mem_map@.len(),
                all == usable_frames(self.mem_map@),
                ({
                    let tail = usable_frames(self.mem_map@.subrange(i as int, self.mem_map@.len() as int));
                    &&& (k < all.len()) == (rest < tail.len())
                    &&& rest < tail.len() ==> tail[rest as int] == all[k as int]
                }),
            decreases self.mem_map@.len() - i,
        {
            let region = self.mem_map[i];
            let ghost sub = self.mem_map@.subrange(i as int, self.mem_map@.len() as int);
            let ghost next_sub = self.mem_map@.subrange(i + 1, self.mem_map@.len() as int);
            proof {
                assert(sub.drop_first() =~= next_sub);
                assert(sub[0] == region);
                assert(usable_frames(sub) == region_frames(region) + usable_frames(next_sub));
            }
            if region.usable {
                let count: u64 = if region.end <= region.start {
                    0
                } else {
                    (region.end - region.start - 1) / FRAME_SIZE + 1
                };
                if (rest as u64) < count {
                    proof {
                        let kk = rest as int;
                        assert(kk * 4096 <= (region.end - region.start - 1)) by (nonlinear_arith)
                            requires
                                kk < (region.end - region.start - 1) / 4096 + 1,
                                region.end - region.start - 1 >= 0;
                        assert(region_frames(region)[kk] == frame_of(region.start + kk * FRAME_SIZE) as u64);
                    }
                    let addr = region.start + (rest as u64) * FRAME_SIZE;
                    return Some(containing_frame(addr));
                }
                rest = rest - count as usize;
            }
            i = i + 1;
        }
        proof {
            assert(self.mem_map@.subrange(i as int, self.mem_map@.len() as int) =~= Seq::<MemoryRegion>::empty());
        }
        None
    }

    /// Hands out the next usable frame, or none once the map is used up. The
    /// position moves on either way.
    pub fn allocate_frame(&mut self) -> (r: Option<u64>)
        requires
            old(self).next_index() < usize::MAX,
        ensures
            final(self).memory_map() == old(self).memory_map(),
            final(self).next_index() == old(self).next_index() + 1,
            r == if old(self).next_index() < usable_frames(old(self).memory_map()).len() {
                Some(usable_frames(old(self).memory_map())[old(self).next_index()])
            } else {
                None::<u64>
            },
    {
        let frame = self.usable_frame(self.next);
        self.next = self.next + 1;
        frame
    }
}

} // verus!
