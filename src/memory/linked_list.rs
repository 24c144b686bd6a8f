//! Explicit free-list strategy: first fit over a list of free regions,
//! split when the rest can hold a node, no coalescing.
use vstd::prelude::*;

use crate::memory::allocator::{
    align_up, align_up_spec, all_aligned, disjoint, is_power_of_two, lemma_align_up,
    lemma_disjoint_inside, lemma_mod_divisor, lemma_power_of_two_divides, no_alias, valid_layout,
};

verus! {

/// Bytes a free-list node takes: a size and a link, two machine words.
pub const NODE_SIZE: usize = 16;

/// Alignment a free-list node needs.
pub const NODE_ALIGN: usize = 8;

/// A free region, as the node written at its start describes it.
#[derive(Clone, Copy, Debug, PartialEq, Eq)]
pub struct ListNode {
    pub start: usize,
    pub size: usize,
}

impl ListNode {
    /// A node for the `size` free bytes at `start`.
    pub fn new(start: usize, size: usize) -> (r: ListNode)
        ensures
            r.start == start,
            r.size == size,
    {
        ListNode { start, size }
    }

    /// Address of the region.
    pub fn start_addr(&self) -> (r: usize)
        ensures
            r == self.start,
    {
        self.start
    }

    /// Address just past the region.
    pub fn end_addr(&self) -> (r: usize)
        requires
            self.start + self.size <= usize::MAX,
        ensures
            r == self.start + self.size,
    {
        self.start + self.size
    }
}

/// Alignment after raising it to what a node needs.
pub open spec fn adjusted_align(align: int) -> int {
    if align < NODE_ALIGN {
        NODE_ALIGN as int
    } else {
        align
    }
}

/// Size after padding it to the adjusted alignment and to at least a node.
pub open spec fn adjusted_size(size: int, align: int) -> int {
    let s = align_up_spec(size, adjusted_align(align));
    if s < NODE_SIZE {
        NODE_SIZE as int
    } else {
        s
    }
}

/// Where a block of `size` bytes aligned to `align` would start in `node`:
/// it must end inside the region and leave behind it either nothing or at
/// least `min_rest` bytes.
pub open spec fn region_alloc_start(node: ListNode, size: int, align: int, min_rest: int) -> Option<int> {
    let s = align_up_spec(node.start as int, align);
    let e = s + size;
    let end = node.start + node.size;
    if e > end {
        None
    } else if end - e > 0 && end - e < min_rest {
        None
    } else {
        Some(s)
    }
}

/// `node` can serve the request.
pub open spec fn fits(node: ListNode, size: int, align: int, min_rest: int) -> bool {
    region_alloc_start(node, size, align, min_rest) is Some
}

/// Index of the first region from `i` on that can serve the request, or the
/// length of the list when none can.
pub open spec fn first_fit_from(
    regions: Seq<ListNode>,
    size: int,
    align: int,
    min_rest: int,
    i: int,
) -> int
    decreases regions.len() - i,
{
    if i < 0 || i >= regions.len() {
        regions.len() as int
    } else if fits(regions[i], size, align, min_rest) {
        i
    } else {
        first_fit_from(regions, size, align, min_rest, i + 1)
    }
}

/// Index of the first region of the list that can serve the request.
pub open spec fn first_fit(regions: Seq<ListNode>, size: int, align: int, min_rest: int) -> int {
    first_fit_from(regions, size, align, min_rest, 0)
}

/// The free list after carving `size` bytes at `s` out of region `i`: the
/// region leaves the list, and what is left behind the block comes back at
/// the front.
pub open spec fn carve(regions: Seq<ListNode>, i: int, s: int, size: int) -> Seq<ListNode> {
    let node = regions[i];
    let rest = regions.remove(i);
    let e = s + size;
    let excess = node.start + node.size - e;
    if excess > 0 {
        rest.insert(0, ListNode { start: e as usize, size: excess as usize })
    } else {
        rest
    }
}

/// The free list and the address of the block, 0 when nothing fits, after
/// taking the first fit for `size` bytes aligned to `align` that leaves
/// nothing or at least `min_rest` bytes behind it.
pub open spec fn take_outcome(regions: Seq<ListNode>, size: int, align: int, min_rest: int) -> (Seq<ListNode>, int) {
    let i = first_fit(regions, size, align, min_rest);
    if i == regions.len() {
        (regions, 0)
    } else {
        match region_alloc_start(regions[i], size, align, min_rest) {
            Some(s) => (carve(regions, i, s, size), s),
            None => (regions, 0),
        }
    }
}

/// The outcome of a request for `size` bytes aligned to `align`: first fit
/// on the adjusted request, keeping any rest big enough for a node.
pub open spec fn allocate_outcome(regions: Seq<ListNode>, size: int, align: int) -> (Seq<ListNode>, int) {
    take_outcome(regions, adjusted_size(size, align), adjusted_align(align), NODE_SIZE as int)
}

/// The outcome of carving a block of exactly `block` bytes aligned to
/// `block`: first fit, any rest goes back to the list.
pub open spec fn carve_outcome(regions: Seq<ListNode>, block: int) -> (Seq<ListNode>, int) {
    take_outcome(regions, block, block, 1)
}

/// A region that a node can describe.
pub open spec fn node_ok(node: ListNode) -> bool {
    &&& node.start > 0
    &&& node.start % NODE_ALIGN == 0
    &&& node.start + node.size <= usize::MAX
}

/// The heap allocator that threads a list of free regions through freed
/// memory. Here the list is held as values: `regions` front to back.
pub struct LinkedListAllocator {
    regions: Vec<ListNode>,
    live: Ghost<Map<usize, (usize, usize)>>,
    carved: Ghost<Map<usize, usize>>,
    heap: Ghost<(int, int)>,
}

impl LinkedListAllocator {
    /// The free regions, front of the list first.
    pub closed spec fn regions(&self) -> Seq<ListNode> {
        self.regions@
    }

    /// The live allocations: address to requested size and alignment.
    pub closed spec fn live(&self) -> Map<usize, (usize, usize)> {
        self.live@
    }

    /// The blocks carved out at their exact size: address to size.
    pub closed spec fn carved(&self) -> Map<usize, usize> {
        self.carved@
    }

    /// First address of the heap window.
    pub closed spec fn heap_start(&self) -> int {
        self.heap@.0
    }

    /// Address just past the heap window.
    pub closed spec fn heap_end(&self) -> int {
        self.heap@.1
    }

    /// The bytes that the live allocation at `a` holds.
    pub open spec fn extent(&self, a: usize) -> int {
        adjusted_size(self.live()[a].0 as int, self.live()[a].1 as int)
    }

    /// Free regions, live allocations and carved blocks lie in the heap
    /// window and never overlap.
    pub closed spec fn wf(&self) -> bool {
        let regions = self.regions@;
        let live = self.live@;
        let carved = self.carved@;
        let lo = self.heap@.0;
        let hi = self.heap@.1;
        &&& live.dom().finite()
        &&& 0 <= lo <= hi <= usize::MAX
        &&& forall|i: int|
            0 <= i < regions.len() ==> {
                &&& node_ok(#[trigger] regions[i])
                &&& lo <= regions[i].start
                &&& regions[i].start + regions[i].size <= hi
            }
        &&& forall|i: int, j: int|
            #![trigger regions[i], regions[j]]
            0 <= i < regions.len() && 0 <= j < regions.len() && i != j ==> disjoint(
                regions[i].start as int,
                regions[i].size as int,
                regions[j].start as int,
                regions[j].size as int,
            )
        &&& forall|a: usize| #[trigger]
            live.contains_key(a) ==> {
                &&& a > 0
                &&& a % NODE_ALIGN == 0
                &&& valid_layout(live[a].0 as int, live[a].1 as int)
                &&& live[a].0 + adjusted_align(live[a].1 as int) - 1 <= isize::MAX
                &&& a as int % live[a].1 as int == 0
                &&& lo <= a
                &&& a + adjusted_size(live[a].0 as int, live[a].1 as int) <= hi
            }
        &&& forall|a: usize, b: usize|
            #![trigger live.contains_key(a), live.contains_key(b)]
            live.contains_key(a) && live.contains_key(b) && a != b ==> disjoint(
                a as int,
                adjusted_size(live[a].0 as int, live[a].1 as int),
                b as int,
                adjusted_size(live[b].0 as int, live[b].1 as int),
            )
        &&& forall|i: int, a: usize|
            #![trigger regions[i], live.contains_key(a)]
            0 <= i < regions.len() && live.contains_key(a) ==> disjoint(
                regions[i].start as int,
                regions[i].size as int,
                a as int,
                adjusted_size(live[a].0 as int, live[a].1 as int),
            )
        &&& forall|c: usize| #[trigger]
            carved.contains_key(c) ==> {
                &&& c > 0
                &&& carved[c] > 0
                &&& c as int % carved[c] as int == 0
                &&& lo <= c
                &&& c + carved[c] <= hi
            }
        &&& forall|c: usize, d: usize|
            #![trigger carved.contains_key(c), carved.contains_key(d)]
            carved.contains_key(c) && carved.contains_key(d) && c != d ==> disjoint(
                c as int,
                carved[c] as int,
                d as int,
                carved[d] as int,
            )
        &&& forall|i: int, c: usize|
            #![trigger regions[i], carved.contains_key(c)]
            0 <= i < regions.len() && carved.contains_key(c) ==> disjoint(
                regions[i].start as int,
                regions[i].size as int,
                c as int,
                carved[c] as int,
            )
        &&& forall|a: usize, c: usize|
            #![trigger live.contains_key(a), carved.contains_key(c)]
            live.contains_key(a) && carved.contains_key(c) ==> disjoint(
                a as int,
                adjusted_size(live[a].0 as int, live[a].1 as int),
                c as int,
                carved[c] as int,
            )
    }

    /// An allocator with no memory.
    pub fn new() -> (r: Self)
        ensures
            r.wf(),
            r.regions() == Seq::<ListNode>::empty(),
            r.live() == Map::<usize, (usize, usize)>::empty(),
            r.carved() == Map::<usize, usize>::empty(),
            r.heap_start() == 0,
            r.heap_end() == 0,
    {
        LinkedListAllocator {
            regions: Vec::new(),
            live: Ghost(Map::empty()),
            carved: Ghost(Map::empty()),
            heap: Ghost((0, 0)),
        }
    }

    /// Adds the `size` free bytes at `addr`, inside the heap window, at the
    /// front of the list.
    pub fn add_free_region(&mut self, addr: usize, size: usize)
        requires
            old(self).wf(),
            node_ok(ListNode { start: addr, size }),
            old(self).heap_start() <= addr,
            addr + size <= old(self).heap_end(),
            forall|i: int|
                0 <= i < old(self).regions().len() ==> disjoint(
                    addr as int,
                    size as int,
                    (#[trigger] old(self).regions()[i]).start as int,
                    old(self).regions()[i].size as int,
                ),
            forall|a: usize|
                #[trigger] old(self).live().contains_key(a) ==> disjoint(
                    addr as int,
                    size as int,
                    a as int,
                    old(self).extent(a),
                ),
            forall|c: usize|
                #[trigger] old(self).carved().contains_key(c) ==> disjoint(
                    addr as int,
                    size as int,
                    c as int,
                    old(self).carved()[c] as int,
                ),
        ensures
            final(self).wf(),
            final(self).regions() == old(self).regions().insert(0, ListNode { start: addr, size }),
            final(self).live() == old(self).live(),
            final(self).carved() == old(self).carved(),
            final(self).heap_start() == old(self).heap_start(),
            final(self).heap_end() == old(self).heap_end(),
    {
        let node = ListNode::new(addr, size);
        self.regions.insert(0, node);
        proof {
            let regions = self.regions@;
            let old_regions = old(self).regions();
            assert forall|i: int| 0 <= i < regions.len() implies {
                &&& node_ok(#[trigger] regions[i])
                &&& self.heap@.0 <= regions[i].start
                &&& regions[i].start + regions[i].size <= self.heap@.1
            } by {
                if i > 0 {
                    assert(regions[i] == old_regions[i - 1]);
                }
            }
            assert forall|i: int, j: int|
                #![trigger regions[i], regions[j]]
                0 <= i < regions.len() && 0 <= j < regions.len() && i != j implies disjoint(
                regions[i].start as int,
                regions[i].size as int,
                regions[j].start as int,
                regions[j].size as int,
            ) by {
                if i > 0 && j > 0 {
                    assert(regions[i] == old_regions[i - 1]);
                    assert(regions[j] == old_regions[j - 1]);
                } else if i > 0 {
                    assert(regions[i] == old_regions[i - 1]);
                    assert(disjoint(addr as int, size as int, old_regions[i - 1].start as int, old_regions[i - 1].size as int));
                } else {
                    assert(regions[j] == old_regions[j - 1]);
                    assert(disjoint(addr as int, size as int, old_regions[j - 1].start as int, old_regions[j - 1].size as int));
                }
            }
            assert forall|i: int, a: usize|
                #![trigger regions[i], self.live@.contains_key(a)]
                0 <= i < regions.len() && self.live@.contains_key(a) implies disjoint(
                regions[i].start as int,
                regions[i].size as int,
                a as int,
                adjusted_size(self.live@[a].0 as int, self.live@[a].1 as int),
            ) by {
                if i > 0 {
                    assert(regions[i] == old_regions[i - 1]);
                } else {
                    assert(old(self).live().contains_key(a));
                }
            }
            assert forall|i: int, c: usize|
                #![trigger regions[i], self.carved@.contains_key(c)]
                0 <= i < regions.len() && self.carved@.contains_key(c) implies disjoint(
                regions[i].start as int,
                regions[i].size as int,
                c as int,
                self.carved@[c] as int,
            ) by {
                if i > 0 {
                    assert(regions[i] == old_regions[i - 1]);
                } else {
                    assert(old(self).carved().contains_key(c));
                }
            }
        }
    }

    /// Initialises the allocator with the heap window
    /// `[heap_start, heap_start + heap_size)`. The free region starts at the
    /// first address in the window that can hold a node.
    pub fn init(&mut self, heap_start: usize, heap_size: usize)
        requires
            old(self).wf(),
            old(self).regions() == Seq::<ListNode>::empty(),
            old(self).live() == Map::<usize, (usize, usize)>::empty(),
            old(self).carved() == Map::<usize, usize>::empty(),
            heap_start > 0,
            heap_start + heap_size <= usize::MAX,
        ensures
            final(self).wf(),
            final(self).heap_start() == heap_start,
            final(self).heap_end() == heap_start + heap_size,
            ({
                let first = align_up_spec(heap_start as int, NODE_ALIGN as int);
                final(self).regions() == if first < heap_start + heap_size {
                    seq![ListNode { start: first as usize, size: (heap_start + heap_size - first) as usize }]
                } else {
                    Seq::<ListNode>::empty()
                }
            }),
            final(self).live() == Map::<usize, (usize, usize)>::empty(),
            final(self).carved() == Map::<usize, usize>::empty(),
    {
        let heap_end = heap_start + heap_size;
        self.heap = Ghost((heap_start as int, heap_end as int));
        proof {
            lemma_align_up(heap_start as int, NODE_ALIGN as int);
        }
        let rem = heap_start % NODE_ALIGN;
        if rem != 0 && heap_start - rem > usize::MAX - NODE_ALIGN {
            proof {
                assert(self.regions() =~= Seq::<ListNode>::empty());
            }
            return;
        }
        let first = align_up(heap_start, NODE_ALIGN);
        if first < heap_end {
            self.add_free_region(first, heap_end - first);
            proof {
                assert(self.regions() =~= seq![ListNode { start: first, size: (heap_end - first) as usize }]);
            }
        }
    }

    /// Where a block of `size` bytes aligned to `align` starts in `region`,
    /// if the region can serve it.
    fn alloc_from_region(region: &ListNode, size: usize, align: usize, min_rest: usize) -> (r: Result<usize, ()>)
        requires
            node_ok(*region),
            align > 0,
        ensures
            match r {
                Ok(s) => region_alloc_start(*region, size as int, align as int, min_rest as int) == Some(s as int),
                Err(_) => region_alloc_start(*region, size as int, align as int, min_rest as int) is None,
            },
    {
        let start = region.start_addr();
        proof {
            lemma_align_up(start as int, align as int);
        }
        let rem = start % align;
        if rem != 0 && start - rem > usize::MAX - align {
            return Err(());
        }
        let alloc_start = align_up(start, align);
        if alloc_start > usize::MAX - size {
            return Err(());
        }
        let alloc_end = alloc_start + size;
        if alloc_end > region.end_addr() {
            return Err(());
        }
        let excess = region.end_addr() - alloc_end;
        if excess > 0 && excess < min_rest {
            return Err(());
        }
        Ok(alloc_start)
    }

    /// Takes the first region that can serve the request out of the list,
    /// with the address where the allocation starts in it.
    fn find_region(&mut self, size: usize, align: usize, min_rest: usize) -> (r: Option<(ListNode, usize)>)
        requires
            old(self).wf(),
            align > 0,
        ensures
            final(self).wf(),
            final(self).live() == old(self).live(),
            final(self).carved() == old(self).carved(),
            final(self).heap_start() == old(self).heap_start(),
            final(self).heap_end() == old(self).heap_end(),
            ({
                let i = first_fit(old(self).regions(), size as int, align as int, min_rest as int);
                match r {
                    None => {
                        &&& i == old(self).regions().len()
                        &&& final(self).regions() == old(self).regions()
                    },
                    Some((node, s)) => {
                        &&& 0 <= i < old(self).regions().len()
                        &&& node == old(self).regions()[i]
                        &&& region_alloc_start(node, size as int, align as int, min_rest as int) == Some(s as int)
                        &&& final(self).regions() == old(self).regions().remove(i)
                    },
                }
            }),
    {
        let mut i: usize = 0;
        while i < self.regions.len()
            invariant
                self.wf(),
                self.regions@ == old(self).regions@,
                self.live@ == old(self).live@,
                self.carved@ == old(self).carved@,
                self.heap@ == old(self).heap@,
                align > 0,
                i <= self.regions@.len(),
                first_fit(self.regions@, size as int, align as int, min_rest as int) == first_fit_from(
                    self.regions@,
                    size as int,
                    align as int,
                    min_rest as int,
                    i as int,
                ),
            decreases self.regions@.len() - i,
        {
            match Self::alloc_from_region(&self.regions[i], size, align, min_rest) {
                Ok(alloc_start) => {
                    let node = self.regions.remove(i);
                    proof {
                        let regions = self.regions@;
                        let old_regions = old(self).regions@;
                        assert forall|k: int| 0 <= k < regions.len() implies {
                            &&& node_ok(#[trigger] regions[k])
                            &&& self.heap@.0 <= regions[k].start
                            &&& regions[k].start + regions[k].size <= self.heap@.1
                        } by {
                            if k < i {
                                assert(regions[k] == old_regions[k]);
                            } else {
                                assert(regions[k] == old_regions[k + 1]);
                            }
                        }
                        assert forall|k: int, j: int|
                            #![trigger regions[k], regions[j]]
                            0 <= k < regions.len() && 0 <= j < regions.len() && k != j implies disjoint(
                            regions[k].start as int,
                            regions[k].size as int,
                            regions[j].start as int,
                            regions[j].size as int,
                        ) by {
                            let k2 = if k < i { k } else { k + 1 };
                            let j2 = if j < i { j } else { j + 1 };
                            assert(regions[k] == old_regions[k2]);
                            assert(regions[j] == old_regions[j2]);
                        }
                        assert forall|k: int, a: usize|
                            #![trigger regions[k], self.live@.contains_key(a)]
                            0 <= k < regions.len() && self.live@.contains_key(a) implies disjoint(
                            regions[k].start as int,
                            regions[k].size as int,
                            a as int,
                            adjusted_size(self.live@[a].0 as int, self.live@[a].1 as int),
                        ) by {
                            let k2 = if k < i { k } else { k + 1 };
                            assert(regions[k] == old_regions[k2]);
                        }
                        assert forall|k: int, c: usize|
                            #![trigger regions[k], self.carved@.contains_key(c)]
                            0 <= k < regions.len() && self.carved@.contains_key(c) implies disjoint(
                            regions[k].start as int,
                            regions[k].size as int,
                            c as int,
                            self.carved@[c] as int,
                        ) by {
                            let k2 = if k < i { k } else { k + 1 };
                            assert(regions[k] == old_regions[k2]);
                        }
                    }
                    return Some((node, alloc_start));
                },
                Err(()) => {
                    i = i + 1;
                },
            }
        }
        None
    }

    /// The size and alignment a request takes once it can also hold a node.
    fn size_align(size: usize, align: usize) -> (r: (usize, usize))
        requires
            is_power_of_two(align as int),
            size + adjusted_align(align as int) - 1 <= isize::MAX,
        ensures
            r.0 == adjusted_size(size as int, align as int),
            r.1 == adjusted_align(align as int),
    {
        let al = if align < NODE_ALIGN {
            NODE_ALIGN
        } else {
            align
        };
        proof {
            lemma_align_up(size as int, al as int);
        }
        let padded = align_up(size, al);
        let sz = if padded < NODE_SIZE {
            NODE_SIZE
        } else {
            padded
        };
        (sz, al)
    }

    /// Takes the first fit for a block of `size` bytes aligned to `align`
    /// out of the list; what is left behind the block goes back at the
    /// front, and any padding before it is lost. Returns the block's
    /// address, or 0 when nothing fits. The caller records the block.
    #[verifier::rlimit(100)]
    #[verifier::spinoff_prover]
    fn take_block(&mut self, size: usize, align: usize, min_rest: usize) -> (r: usize)
        requires
            old(self).wf(),
            size > 0,
            align > 0,
            size % NODE_ALIGN == 0,
            align % NODE_ALIGN == 0,
        ensures
            final(self).wf(),
            final(self).live() == old(self).live(),
            final(self).carved() == old(self).carved(),
            final(self).heap_start() == old(self).heap_start(),
            final(self).heap_end() == old(self).heap_end(),
            (final(self).regions(), r as int) == take_outcome(
                old(self).regions(),
                size as int,
                align as int,
                min_rest as int,
            ),
            r != 0 ==> {
                &&& r as int % align as int == 0
                &&& r % NODE_ALIGN == 0
                &&& old(self).heap_start() <= r
                &&& r + size <= old(self).heap_end()
                &&& forall|k: int|
                    0 <= k < final(self).regions().len() ==> disjoint(
                        r as int,
                        size as int,
                        (#[trigger] final(self).regions()[k]).start as int,
                        final(self).regions()[k].size as int,
                    )
                &&& forall|a: usize|
                    #[trigger] old(self).live().contains_key(a) ==> disjoint(
                        r as int,
                        size as int,
                        a as int,
                        old(self).extent(a),
                    )
                &&& forall|c: usize|
                    #[trigger] old(self).carved().contains_key(c) ==> disjoint(
                        r as int,
                        size as int,
                        c as int,
                        old(self).carved()[c] as int,
                    )
            },
    {
        match self.find_region(size, align, min_rest) {
            Some((region, alloc_start)) => {
                let ghost i = first_fit(old(self).regions(), size as int, align as int, min_rest as int);
                let ghost mid = self.regions@;
                let alloc_end = alloc_start + size;
                let excess = region.end_addr() - alloc_end;
                proof {
                    let old_regions = old(self).regions();
                    assert(old_regions[i] == region);
                    lemma_align_up(region.start as int, align as int);
                    lemma_mod_divisor(alloc_start as int, NODE_ALIGN as int, align as int);
                    assert(alloc_end % 8 == 0);
                    assert forall|k: int| 0 <= k < mid.len() implies disjoint(
                        alloc_start as int,
                        (size + excess) as int,
                        (#[trigger] mid[k]).start as int,
                        mid[k].size as int,
                    ) by {
                        let k2 = if k < i { k } else { k + 1 };
                        assert(mid[k] == old_regions[k2]);
                        lemma_disjoint_inside(
                            alloc_start as int,
                            (size + excess) as int,
                            region.start as int,
                            region.size as int,
                            mid[k].start as int,
                            mid[k].size as int,
                        );
                    }
                    assert forall|a: usize| #[trigger] self.live@.contains_key(a) implies disjoint(
                        alloc_start as int,
                        (size + excess) as int,
                        a as int,
                        self.extent(a),
                    ) by {
                        lemma_disjoint_inside(
                            alloc_start as int,
                            (size + excess) as int,
                            region.start as int,
                            region.size as int,
                            a as int,
                            self.extent(a),
                        );
                    }
                    assert forall|c: usize| #[trigger] self.carved@.contains_key(c) implies disjoint(
                        alloc_start as int,
                        (size + excess) as int,
                        c as int,
                        self.carved@[c] as int,
                    ) by {
                        lemma_disjoint_inside(
                            alloc_start as int,
                            (size + excess) as int,
                            region.start as int,
                            region.size as int,
                            c as int,
                            self.carved@[c] as int,
                        );
                    }
                }
                if excess > 0 {
                    self.add_free_region(alloc_end, excess);
                }
                proof {
                    let regions = self.regions@;
                    assert forall|k: int| 0 <= k < regions.len() implies disjoint(
                        alloc_start as int,
                        size as int,
                        (#[trigger] regions[k]).start as int,
                        regions[k].size as int,
                    ) by {
                        if excess > 0 && k == 0 {
                            assert(regions[k].start == alloc_end);
                        } else {
                            let k2 = if excess > 0 { k - 1 } else { k };
                            assert(regions[k] == mid[k2]);
                            lemma_disjoint_inside(
                                alloc_start as int,
                                size as int,
                                alloc_start as int,
                                (size + excess) as int,
                                mid[k2].start as int,
                                mid[k2].size as int,
                            );
                        }
                    }
                    assert forall|a: usize| #[trigger] old(self).live().contains_key(a) implies disjoint(
                        alloc_start as int,
                        size as int,
                        a as int,
                        old(self).extent(a),
                    ) by {
                        lemma_disjoint_inside(
                            alloc_start as int,
                            size as int,
                            alloc_start as int,
                            (size + excess) as int,
                            a as int,
                            old(self).extent(a),
                        );
                    }
                    assert forall|c: usize| #[trigger] old(self).carved().contains_key(c) implies disjoint(
                        alloc_start as int,
                        size as int,
                        c as int,
                        old(self).carved()[c] as int,
                    ) by {
                        lemma_disjoint_inside(
                            alloc_start as int,
                            size as int,
                            alloc_start as int,
                            (size + excess) as int,
                            c as int,
                            old(self).carved()[c] as int,
                        );
                    }
                    assert(self.regions() =~= carve(old(self).regions(), i, alloc_start as int, size as int));
                }
                alloc_start
            },
            None => 0,
        }
    }

    /// Allocates `size` bytes aligned to `align`; returns the address, or 0
    /// when no free region can serve the request.
    pub fn allocate(&mut self, size: usize, align: usize) -> (r: usize)
        requires
            old(self).wf(),
            valid_layout(size as int, align as int),
            size + adjusted_align(align as int) - 1 <= isize::MAX,
        ensures
            final(self).wf(),
            final(self).carved() == old(self).carved(),
            final(self).heap_start() == old(self).heap_start(),
            final(self).heap_end() == old(self).heap_end(),
            (final(self).regions(), r as int) == allocate_outcome(
                old(self).regions(),
                size as int,
                align as int,
            ),
            r == 0 ==> final(self).live() == old(self).live(),
            r != 0 ==> {
                &&& r as int % align as int == 0
                &&& !old(self).live().contains_key(r)
                &&& final(self).live() == old(self).live().insert(r, (size, align))
                &&& old(self).heap_start() <= r
                &&& r + adjusted_size(size as int, align as int) <= old(self).heap_end()
            },
    {
        let (sz, al) = Self::size_align(size, align);
        proof {
            reveal_with_fuel(is_power_of_two, 4);
            assert(is_power_of_two(8));
            if align >= 8 {
                lemma_power_of_two_divides(8, align as int);
            } else {
                lemma_power_of_two_divides(align as int, 8);
            }
            lemma_align_up(size as int, al as int);
            if sz != NODE_SIZE {
                lemma_mod_divisor(sz as int, 8, al as int);
            }
        }
        let r = self.take_block(sz, al, NODE_SIZE);
        if r != 0 {
            proof {
                lemma_mod_divisor(r as int, align as int, al as int);
                if old(self).live@.contains_key(r) {
                    assert(disjoint(r as int, sz as int, r as int, old(self).extent(r)));
                }
            }
            self.live = Ghost(self.live@.insert(r, (size, align)));
            proof {
                let regions = self.regions@;
                let live = self.live@;
                let carved = self.carved@;
                assert forall|k: int, a: usize|
                    #![trigger regions[k], live.contains_key(a)]
                    0 <= k < regions.len() && live.contains_key(a) implies disjoint(
                    regions[k].start as int,
                    regions[k].size as int,
                    a as int,
                    adjusted_size(live[a].0 as int, live[a].1 as int),
                ) by {
                    if a != r {
                        assert(old(self).live@.contains_key(a));
                    }
                }
                assert forall|a: usize, b: usize|
                    #![trigger live.contains_key(a), live.contains_key(b)]
                    live.contains_key(a) && live.contains_key(b) && a != b implies disjoint(
                    a as int,
                    adjusted_size(live[a].0 as int, live[a].1 as int),
                    b as int,
                    adjusted_size(live[b].0 as int, live[b].1 as int),
                ) by {
                    if a != r {
                        assert(old(self).live@.contains_key(a));
                    }
                    if b != r {
                        assert(old(self).live@.contains_key(b));
                    }
                }
                assert forall|a: usize, c: usize|
                    #![trigger live.contains_key(a), carved.contains_key(c)]
                    live.contains_key(a) && carved.contains_key(c) implies disjoint(
                    a as int,
                    adjusted_size(live[a].0 as int, live[a].1 as int),
                    c as int,
                    carved[c] as int,
                ) by {
                    if a != r {
                        assert(old(self).live@.contains_key(a));
                    }
                }
            }
        }
        r
    }

    /// Carves a block of exactly `block` bytes aligned to `block`, first fit;
    /// any rest of the region, however small, goes back to the list. The
    /// block is recorded as carved, not live: it does not come back here.
    pub fn carve_block(&mut self, block: usize) -> (r: usize)
        requires
            old(self).wf(),
            is_power_of_two(block as int),
            block >= NODE_ALIGN,
        ensures
            final(self).wf(),
            final(self).live() == old(self).live(),
            final(self).heap_start() == old(self).heap_start(),
            final(self).heap_end() == old(self).heap_end(),
            (final(self).regions(), r as int) == carve_outcome(old(self).regions(), block as int),
            r == 0 ==> final(self).carved() == old(self).carved(),
            r != 0 ==> {
                &&& r as int % block as int == 0
                &&& !old(self).carved().contains_key(r)
                &&& final(self).carved() == old(self).carved().insert(r, block)
                &&& old(self).heap_start() <= r
                &&& r + block <= old(self).heap_end()
            },
    {
        proof {
            reveal_with_fuel(is_power_of_two, 4);
            assert(is_power_of_two(8));
            lemma_power_of_two_divides(8, block as int);
        }
        let r = self.take_block(block, block, 1);
        if r != 0 {
            proof {
                if old(self).carved@.contains_key(r) {
                    assert(disjoint(r as int, block as int, r as int, old(self).carved@[r] as int));
                }
            }
            self.carved = Ghost(self.carved@.insert(r, block));
            proof {
                let regions = self.regions@;
                let live = self.live@;
                let carved = self.carved@;
                assert forall|k: int, c: usize|
                    #![trigger regions[k], carved.contains_key(c)]
                    0 <= k < regions.len() && carved.contains_key(c) implies disjoint(
                    regions[k].start as int,
                    regions[k].size as int,
                    c as int,
                    carved[c] as int,
                ) by {
                    if c != r {
                        assert(old(self).carved@.contains_key(c));
                    }
                }
                assert forall|c: usize, d: usize|
                    #![trigger carved.contains_key(c), carved.contains_key(d)]
                    carved.contains_key(c) && carved.contains_key(d) && c != d implies disjoint(
                    c as int,
                    carved[c] as int,
                    d as int,
                    carved[d] as int,
                ) by {
                    if c != r {
                        assert(old(self).carved@.contains_key(c));
                    }
                    if d != r {
                        assert(old(self).carved@.contains_key(d));
                    }
                }
                assert forall|a: usize, c: usize|
                    #![trigger live.contains_key(a), carved.contains_key(c)]
                    live.contains_key(a) && carved.contains_key(c) implies disjoint(
                    a as int,
                    adjusted_size(live[a].0 as int, live[a].1 as int),
                    c as int,
                    carved[c] as int,
                ) by {
                    if c != r {
                        assert(old(self).carved@.contains_key(c));
                    } else {
                        assert(old(self).live().contains_key(a));
                    }
                }
            }
        }
        r
    }

    /// Returns the allocation at `ptr`, made with `size` and `align`, to the
    /// front of the free list.
    pub fn deallocate(&mut self, ptr: usize, size: usize, align: usize)
        requires
            old(self).wf(),
            old(self).live().contains_key(ptr),
            old(self).live()[ptr] == (size, align),
        ensures
            final(self).wf(),
            final(self).regions() == old(self).regions().insert(
                0,
                ListNode { start: ptr, size: adjusted_size(size as int, align as int) as usize },
            ),
            final(self).live() == old(self).live().remove(ptr),
            final(self).carved() == old(self).carved(),
            final(self).heap_start() == old(self).heap_start(),
            final(self).heap_end() == old(self).heap_end(),
    {
        let (sz, _al) = Self::size_align(size, align);
        self.live = Ghost(self.live@.remove(ptr));
        proof {
            assert forall|a: usize| #[trigger] self.live@.contains_key(a) implies disjoint(
                ptr as int,
                sz as int,
                a as int,
                self.extent(a),
            ) by {
                assert(old(self).live@.contains_key(a));
            }
            assert forall|c: usize| #[trigger] self.carved@.contains_key(c) implies disjoint(
                ptr as int,
                sz as int,
                c as int,
                self.carved@[c] as int,
            ) by {
                assert(old(self).live@.contains_key(ptr));
            }
        }
        self.add_free_region(ptr, sz);
    }

    /// Live allocations never overlap each other or the carved blocks, and
    /// each sits at a multiple of its alignment; everything lies in the heap
    /// window.
    pub proof fn lemma_live_disjoint(&self)
        requires
            self.wf(),
        ensures
            no_alias(self.live()),
            all_aligned(self.live()),
            forall|a: usize|
                #[trigger] self.live().contains_key(a) ==> {
                    &&& a > 0
                    &&& self.live()[a].0 <= self.extent(a)
                    &&& self.heap_start() <= a
                    &&& a + self.extent(a) <= self.heap_end()
                },
            forall|c: usize|
                #[trigger] self.carved().contains_key(c) ==> {
                    &&& c > 0
                    &&& self.carved()[c] > 0
                    &&& c as int % self.carved()[c] as int == 0
                    &&& self.heap_start() <= c
                    &&& c + self.carved()[c] <= self.heap_end()
                },
            forall|c: usize, d: usize|
                #![trigger self.carved().contains_key(c), self.carved().contains_key(d)]
                self.carved().contains_key(c) && self.carved().contains_key(d) && c != d ==> disjoint(
                    c as int,
                    self.carved()[c] as int,
                    d as int,
                    self.carved()[d] as int,
                ),
            forall|a: usize, c: usize|
                #![trigger self.live().contains_key(a), self.carved().contains_key(c)]
                self.live().contains_key(a) && self.carved().contains_key(c) ==> disjoint(
                    a as int,
                    self.extent(a),
                    c as int,
                    self.carved()[c] as int,
                ),
    {
        let live = self.live@;
        assert forall|a: usize| #[trigger] live.contains_key(a) implies live[a].0 <= self.extent(
            a,
        ) by {
            lemma_align_up(live[a].0 as int, adjusted_align(live[a].1 as int));
        }
        assert forall|a: usize, b: usize|
            #![trigger live.contains_key(a), live.contains_key(b)]
            live.contains_key(a) && live.contains_key(b) && a != b implies disjoint(
            a as int,
            live[a].0 as int,
            b as int,
            live[b].0 as int,
        ) by {
            lemma_align_up(live[a].0 as int, adjusted_align(live[a].1 as int));
            lemma_align_up(live[b].0 as int, adjusted_align(live[b].1 as int));
        }
    }
}

} // verus!
