//! Size-classed strategy: one stack of free blocks per power-of-two class
//! from 8 to 2048 bytes, with a first-fit allocator behind it for new blocks
//! and for larger requests.
use vstd::prelude::*;

use crate::memory::allocator::{
    all_aligned, disjoint, is_power_of_two, lemma_mod_divisor, lemma_power_of_two_divides,
    no_alias, valid_layout,
};
use crate::memory::linked_list::{
    adjusted_align, adjusted_size, allocate_outcome, carve_outcome, LinkedListAllocator, ListNode,
};

verus! {

/// Number of block classes.
pub const BLOCK_CLASS_COUNT: usize = 9;

/// Size, and alignment, of the blocks of class `i`.
pub open spec fn block_size_spec(i: int) -> int {
    if i == 0 {
        8
    } else if i == 1 {
        16
    } else if i == 2 {
        32
    } else if i == 3 {
        64
    } else if i == 4 {
        128
    } else if i == 5 {
        256
    } else if i == 6 {
        512
    } else if i == 7 {
        1024
    } else {
        2048
    }
}

/// Size, and alignment, of the blocks of class `index`. A block must hold a
/// link, so there is no class under 8 bytes; the sizes are powers of two
/// because they serve as alignments too.
pub fn block_size(index: usize) -> (r: usize)
    requires
        index < BLOCK_CLASS_COUNT,
    ensures
        r == block_size_spec(index as int),
{
    if index == 0 {
        8
    } else if index == 1 {
        16
    } else if index == 2 {
        32
    } else if index == 3 {
        64
    } else if index == 4 {
        128
    } else if index == 5 {
        256
    } else if index == 6 {
        512
    } else if index == 7 {
        1024
    } else {
        2048
    }
}

/// The class sizes are increasing powers of two of at least 8.
pub proof fn lemma_block_sizes()
    ensures
        forall|i: int|
            0 <= i < BLOCK_CLASS_COUNT ==> {
                &&& is_power_of_two(#[trigger] block_size_spec(i))
                &&& block_size_spec(i) >= 8
                &&& block_size_spec(i) <= 2048
            },
        forall|i: int, j: int|
            0 <= i < j < BLOCK_CLASS_COUNT ==> #[trigger] block_size_spec(i) < #[trigger] block_size_spec(j),
{
    reveal_with_fuel(is_power_of_two, 12);
    assert(is_power_of_two(8));
    assert(is_power_of_two(16));
    assert(is_power_of_two(32));
    assert(is_power_of_two(64));
    assert(is_power_of_two(128));
    assert(is_power_of_two(256));
    assert(is_power_of_two(512));
    assert(is_power_of_two(1024));
    assert(is_power_of_two(2048));
}

/// The larger of the request's size and alignment: what a block must cover.
pub open spec fn required_block_size(size: int, align: int) -> int {
    if size >= align {
        size
    } else {
        align
    }
}

/// The class that serves a request: the smallest whose blocks cover it, or
/// none when it exceeds the largest class.
pub open spec fn class_index(size: int, align: int) -> Option<int> {
    let req = required_block_size(size, align);
    if req > 2048 {
        None
    } else {
        Some(choose|i: int| 0 <= i < BLOCK_CLASS_COUNT && is_class_of(req, i))
    }
}

/// Class `i` is the smallest that covers `req` bytes.
pub open spec fn is_class_of(req: int, i: int) -> bool {
    &&& 0 <= i < BLOCK_CLASS_COUNT
    &&& req <= block_size_spec(i)
    &&& (i == 0 || block_size_spec(i - 1) < req)
}

/// At most one class is the smallest that covers a request, and one is when
/// the request is at most 2048 bytes.
pub proof fn lemma_class_unique(req: int)
    ensures
        req <= 2048 ==> exists|i: int| is_class_of(req, i),
        forall|i: int, j: int| is_class_of(req, i) && is_class_of(req, j) ==> i == j,
{
    lemma_block_sizes();
    if req <= 2048 {
        if req <= 8 {
            assert(is_class_of(req, 0));
        } else if req <= 16 {
            assert(is_class_of(req, 1));
        } else if req <= 32 {
            assert(is_class_of(req, 2));
        } else if req <= 64 {
            assert(is_class_of(req, 3));
        } else if req <= 128 {
            assert(is_class_of(req, 4));
        } else if req <= 256 {
            assert(is_class_of(req, 5));
        } else if req <= 512 {
            assert(is_class_of(req, 6));
        } else if req <= 1024 {
            assert(is_class_of(req, 7));
        } else {
            assert(is_class_of(req, 8));
        }
    }
    assert forall|i: int, j: int| is_class_of(req, i) && is_class_of(req, j) implies i == j by {
        if i < j {
            assert(block_size_spec(i) <= block_size_spec(j - 1));
        } else if j < i {
            assert(block_size_spec(j) <= block_size_spec(i - 1));
        }
    }
}

/// A padded request is at least as large as the request, and not empty.
pub proof fn lemma_align_up_positive(size: int, align: int)
    requires
        valid_layout(size, align),
    ensures
        size <= adjusted_size(size, align),
{
    crate::memory::allocator::lemma_align_up(size, adjusted_align(align));
}

/// What `class_index` gives: the smallest covering class, if any.
pub proof fn lemma_class_index(size: int, align: int)
    ensures
        match class_index(size, align) {
            Some(i) => is_class_of(required_block_size(size, align), i),
            None => required_block_size(size, align) > 2048,
        },
{
    lemma_class_unique(required_block_size(size, align));
}

/// Extent of a live allocation made with `size` and `align`: its class's
/// block size, or the request itself when no class covers it.
pub open spec fn block_extent(size: int, align: int) -> int {
    match class_index(size, align) {
        Some(i) => block_size_spec(i),
        None => size,
    }
}

/// The heap allocator with one stack of free blocks per class.
pub struct FixedSizeAllocator {
    list_heads: Vec<Vec<usize>>,
    fallback_allocator: LinkedListAllocator,
    live: Ghost<Map<usize, (usize, usize)>>,
}

/// What the allocator's invariant asks of the live allocation at `a`.
pub open spec fn live_ok(
    live: Map<usize, (usize, usize)>,
    carved: Map<usize, usize>,
    fb_live: Map<usize, (usize, usize)>,
    a: usize,
) -> bool {
    &&& valid_layout(live[a].0 as int, live[a].1 as int)
    &&& match class_index(live[a].0 as int, live[a].1 as int) {
        Some(i) => carved.contains_key(a) && carved[a] == block_size_spec(i) as usize,
        None => fb_live.contains_key(a) && fb_live[a] == live[a],
    }
}

/// What the allocator's invariant asks of the free block at position `p`
/// of the stack of class `i`.
pub open spec fn stacked_ok(
    stacks: Seq<Vec<usize>>,
    carved: Map<usize, usize>,
    live: Map<usize, (usize, usize)>,
    i: int,
    p: int,
) -> bool {
    &&& carved.contains_key(stacks[i]@[p])
    &&& carved[stacks[i]@[p]] == block_size_spec(i) as usize
    &&& !live.contains_key(stacks[i]@[p])
}

impl FixedSizeAllocator {
    /// The free blocks of class `i`, top of the stack last.
    pub closed spec fn free_blocks(&self, i: int) -> Seq<usize> {
        self.list_heads@[i]@
    }

    /// The first-fit allocator that new blocks and large requests come from.
    pub closed spec fn fallback(&self) -> LinkedListAllocator {
        self.fallback_allocator
    }

    /// The live allocations: address to requested size and alignment.
    pub closed spec fn live(&self) -> Map<usize, (usize, usize)> {
        self.live@
    }

    /// First address of the heap window.
    pub open spec fn heap_start(&self) -> int {
        self.fallback().heap_start()
    }

    /// Address just past the heap window.
    pub open spec fn heap_end(&self) -> int {
        self.fallback().heap_end()
    }

    /// Every free and every live classed block is a distinct block carved
    /// from the fallback allocator at its class's size; every other live
    /// allocation is live in the fallback allocator as it was asked for.
    pub closed spec fn wf(&self) -> bool {
        let stacks = self.list_heads@;
        let live = self.live@;
        let carved = self.fallback_allocator.carved();
        let fb_live = self.fallback_allocator.live();
        &&& stacks.len() == BLOCK_CLASS_COUNT
        &&& self.fallback_allocator.wf()
        &&& live.dom().finite()
        &&& forall|i: int, p: int|
            #![trigger stacks[i]@[p]]
            0 <= i < BLOCK_CLASS_COUNT && 0 <= p < stacks[i]@.len() ==> stacked_ok(stacks, carved, live, i, p)
        &&& forall|i: int, p: int, q: int|
            #![trigger stacks[i]@[p], stacks[i]@[q]]
            0 <= i < BLOCK_CLASS_COUNT && 0 <= p < stacks[i]@.len() && 0 <= q < stacks[i]@.len()
                && p != q ==> stacks[i]@[p] != stacks[i]@[q]
        &&& forall|a: usize| #[trigger] live.contains_key(a) ==> live_ok(live, carved, fb_live, a)
    }

    /// Chooses the class for a request: the index of the smallest block
    /// size that covers both its size and its alignment.
    fn list_index(size: usize, align: usize) -> (r: Option<usize>)
        ensures
            r matches Some(i) ==> class_index(size as int, align as int) == Some(i as int),
            r is None ==> class_index(size as int, align as int) is None,
    {
        let required = if size >= align {
            size
        } else {
            align
        };
        proof {
            lemma_block_sizes();
            lemma_class_unique(required as int);
        }
        let mut i: usize = 0;
        while i < BLOCK_CLASS_COUNT
            invariant
                i <= BLOCK_CLASS_COUNT,
                required == required_block_size(size as int, align as int),
                forall|j: int| 0 <= j < i ==> block_size_spec(j) < required,
            decreases BLOCK_CLASS_COUNT - i,
        {
            if block_size(i) >= required {
                proof {
                    lemma_block_sizes();
                    lemma_class_unique(required as int);
                    assert(is_class_of(required as int, i as int));
                }
                return Some(i);
            }
            i = i + 1;
        }
        proof {
            assert(block_size_spec(8) < required);
        }
        None
    }


    /// An allocator with empty classes and no heap yet.
    pub fn new() -> (r: Self)
        ensures
            r.wf(),
            forall|i: int| 0 <= i < BLOCK_CLASS_COUNT ==> (#[trigger] r.free_blocks(i)).len() == 0,
            r.fallback().regions() == Seq::<ListNode>::empty(),
            r.fallback().live() == Map::<usize, (usize, usize)>::empty(),
            r.fallback().carved() == Map::<usize, usize>::empty(),
            r.live() == Map::<usize, (usize, usize)>::empty(),
    {
        let mut list_heads: Vec<Vec<usize>> = Vec::new();
        let mut i: usize = 0;
        while i < BLOCK_CLASS_COUNT
            invariant
                i <= BLOCK_CLASS_COUNT,
                list_heads@.len() == i,
                forall|j: int| 0 <= j < i ==> (#[trigger] list_heads@[j])@.len() == 0,
            decreases BLOCK_CLASS_COUNT - i,
        {
            list_heads.push(Vec::new());
            i = i + 1;
        }
        FixedSizeAllocator {
            list_heads,
            fallback_allocator: LinkedListAllocator::new(),
            live: Ghost(Map::empty()),
        }
    }

    /// Initialises the fallback allocator with the heap window
    /// `[heap_start, heap_start + heap_size)`.
    pub fn init(&mut self, heap_start: usize, heap_size: usize)
        requires
            old(self).wf(),
            old(self).fallback().regions() == Seq::<ListNode>::empty(),
            old(self).fallback().live() == Map::<usize, (usize, usize)>::empty(),
            old(self).fallback().carved() == Map::<usize, usize>::empty(),
            old(self).live() == Map::<usize, (usize, usize)>::empty(),
            heap_start > 0,
            heap_start + heap_size <= usize::MAX,
        ensures
            final(self).wf(),
            forall|i: int|
                0 <= i < BLOCK_CLASS_COUNT ==> #[trigger] final(self).free_blocks(i) == old(self).free_blocks(i),
            final(self).heap_start() == heap_start,
            final(self).heap_end() == heap_start + heap_size,
            ({
                let first = crate::memory::allocator::align_up_spec(heap_start as int, 8);
                final(self).fallback().regions() == if first < heap_start + heap_size {
                    seq![ListNode { start: first as usize, size: (heap_start + heap_size - first) as usize }]
                } else {
                    Seq::<ListNode>::empty()
                }
            }),
            final(self).fallback().live() == Map::<usize, (usize, usize)>::empty(),
            final(self).fallback().carved() == Map::<usize, usize>::empty(),
            final(self).live() == Map::<usize, (usize, usize)>::empty(),
    {
        self.fallback_allocator.init(heap_start, heap_size);
        proof {
            let stacks = self.list_heads@;
            assert forall|i: int, p: int|
                #![trigger stacks[i]@[p]]
                0 <= i < BLOCK_CLASS_COUNT && 0 <= p < stacks[i]@.len() implies false by {
                assert(old(self).fallback_allocator.carved().contains_key(stacks[i]@[p]));
            }
        }
    }

    /// Allocates a request above the largest class from the fallback
    /// allocator.
    fn fallback_alloc(&mut self, size: usize, align: usize) -> (r: usize)
        requires
            old(self).fallback_allocator.wf(),
            valid_layout(size as int, align as int),
            size + adjusted_align(align as int) - 1 <= isize::MAX,
        ensures
            final(self).list_heads == old(self).list_heads,
            final(self).live == old(self).live,
            final(self).fallback_allocator.wf(),
            final(self).fallback_allocator.carved() == old(self).fallback_allocator.carved(),
            final(self).fallback_allocator.heap_start() == old(self).fallback_allocator.heap_start(),
            final(self).fallback_allocator.heap_end() == old(self).fallback_allocator.heap_end(),
            (final(self).fallback_allocator.regions(), r as int) == allocate_outcome(
                old(self).fallback_allocator.regions(),
                size as int,
                align as int,
            ),
            r == 0 ==> final(self).fallback_allocator.live() == old(self).fallback_allocator.live(),
            r != 0 ==> {
                &&& r as int % align as int == 0
                &&& !old(self).fallback_allocator.live().contains_key(r)
                &&& final(self).fallback_allocator.live() == old(self).fallback_allocator.live().insert(r, (size, align))
                &&& old(self).fallback_allocator.heap_start() <= r
                &&& r + adjusted_size(size as int, align as int) <= old(self).fallback_allocator.heap_end()
            },
    {
        self.fallback_allocator.allocate(size, align)
    }

    /// Allocates `size` bytes aligned to `align`: from the top of the
    /// request's class stack, else as a new block of exactly the class's size
    /// carved from the fallback allocator; requests above the largest class
    /// go to the fallback allocator as they are. Returns 0 when that fails.
    #[verifier::rlimit(100)]
    #[verifier::spinoff_prover]
    pub fn allocate(&mut self, size: usize, align: usize) -> (r: usize)
        requires
            old(self).wf(),
            valid_layout(size as int, align as int),
            size + adjusted_align(align as int) - 1 <= isize::MAX,
        ensures
            final(self).wf(),
            final(self).heap_start() == old(self).heap_start(),
            final(self).heap_end() == old(self).heap_end(),
            r == 0 ==> final(self).live() == old(self).live(),
            r != 0 ==> {
                &&& r as int % align as int == 0
                &&& !old(self).live().contains_key(r)
                &&& final(self).live() == old(self).live().insert(r, (size, align))
                &&& old(self).heap_start() <= r
                &&& r + block_extent(size as int, align as int) <= old(self).heap_end()
            },
            match class_index(size as int, align as int) {
                Some(i) => {
                    &&& forall|j: int|
                        0 <= j < BLOCK_CLASS_COUNT && j != i ==> #[trigger] final(self).free_blocks(j)
                            == old(self).free_blocks(j)
                    &&& if old(self).free_blocks(i).len() > 0 {
                        &&& r == old(self).free_blocks(i).last()
                        &&& final(self).free_blocks(i) == old(self).free_blocks(i).drop_last()
                        &&& final(self).fallback() == old(self).fallback()
                    } else {
                        &&& final(self).free_blocks(i) == old(self).free_blocks(i)
                        &&& final(self).fallback().live() == old(self).fallback().live()
                        &&& (final(self).fallback().regions(), r as int) == carve_outcome(
                            old(self).fallback().regions(),
                            block_size_spec(i),
                        )
                    }
                    &&& r != 0 ==> {
                        &&& r as int % block_size_spec(i) == 0
                        &&& final(self).fallback().carved().contains_key(r)
                        &&& final(self).fallback().carved()[r] == block_size_spec(i) as usize
                    }
                },
                None => {
                    &&& forall|j: int|
                        0 <= j < BLOCK_CLASS_COUNT ==> #[trigger] final(self).free_blocks(j) == old(self).free_blocks(j)
                    &&& final(self).fallback().carved() == old(self).fallback().carved()
                    &&& (final(self).fallback().regions(), r as int) == allocate_outcome(
                        old(self).fallback().regions(),
                        size as int,
                        align as int,
                    )
                },
            },
    {
        proof {
            lemma_block_sizes();
            lemma_class_index(size as int, align as int);
            self.fallback_allocator.lemma_live_disjoint();
        }
        let ghost fb0 = self.fallback_allocator;
        match Self::list_index(size, align) {
            Some(index) => {
                let ghost bs = block_size_spec(index as int);
                proof {
                    lemma_power_of_two_divides(align as int, bs);
                }
                match self.list_heads[index].pop() {
                    Some(node) => {
                        proof {
                            let stacks = old(self).list_heads@;
                            let top = stacks[index as int]@.len() - 1;
                            assert(stacks[index as int]@[top] == node);
                            assert(stacked_ok(stacks, fb0.carved(), old(self).live@, index as int, top));
                            lemma_mod_divisor(node as int, align as int, bs);
                        }
                        self.live = Ghost(self.live@.insert(node, (size, align)));
                        proof {
                            let stacks = self.list_heads@;
                            let ostacks = old(self).list_heads@;
                            let carved = fb0.carved();
                            let top = ostacks[index as int]@.len() - 1;
                            assert forall|i: int, p: int|
                                #![trigger stacks[i]@[p]]
                                0 <= i < BLOCK_CLASS_COUNT && 0 <= p < stacks[i]@.len() implies stacked_ok(
                                stacks,
                                carved,
                                self.live@,
                                i,
                                p,
                            ) by {
                                assert(stacks[i]@[p] == ostacks[i]@[p]);
                                assert(stacked_ok(ostacks, carved, old(self).live@, i, p));
                                if i == index {
                                    assert(ostacks[i]@[top] == node);
                                }
                            }
                            assert forall|i: int, p: int, q: int|
                                #![trigger stacks[i]@[p], stacks[i]@[q]]
                                0 <= i < BLOCK_CLASS_COUNT && 0 <= p < stacks[i]@.len() && 0 <= q
                                    < stacks[i]@.len() && p != q implies stacks[i]@[p] != stacks[i]@[q] by {
                                assert(stacks[i]@[p] == ostacks[i]@[p]);
                                assert(stacks[i]@[q] == ostacks[i]@[q]);
                            }
                            assert forall|a: usize| #[trigger] self.live@.contains_key(a) implies live_ok(
                                self.live@,
                                carved,
                                fb0.live(),
                                a,
                            ) by {
                                if a != node {
                                    assert(old(self).live@.contains_key(a));
                                }
                            }
                            assert(self.list_heads@[index as int]@ == old(self).free_blocks(index as int).drop_last());
                        }
                        node
                    },
                    None => {
                        let block_size = block_size(index);
                        let r = self.fallback_allocator.carve_block(block_size);
                        proof {
                            self.fallback_allocator.lemma_live_disjoint();
                            let carved = self.fallback_allocator.carved();
                            let stacks = self.list_heads@;
                            if r != 0 {
                                lemma_mod_divisor(r as int, align as int, bs);
                                assert(!old(self).live@.contains_key(r)) by {
                                    if old(self).live@.contains_key(r) {
                                        let lv = old(self).live@[r];
                                        assert(live_ok(old(self).live@, fb0.carved(), fb0.live(), r));
                                        match class_index(lv.0 as int, lv.1 as int) {
                                            Some(j) => {
                                                assert(fb0.carved().contains_key(r));
                                            },
                                            None => {
                                                let fl = self.fallback_allocator.live();
                                                assert(fl.contains_key(r));
                                                lemma_align_up_positive(fl[r].0 as int, fl[r].1 as int);
                                                assert(self.fallback_allocator.extent(r) > 0);
                                                assert(carved.contains_key(r));
                                                assert(disjoint(
                                                    r as int,
                                                    self.fallback_allocator.extent(r),
                                                    r as int,
                                                    carved[r] as int,
                                                ));
                                            },
                                        }
                                    }
                                }
                            }
                            assert forall|i: int, p: int|
                                #![trigger stacks[i]@[p]]
                                0 <= i < BLOCK_CLASS_COUNT && 0 <= p < stacks[i]@.len() implies stacked_ok(
                                stacks,
                                carved,
                                old(self).live@,
                                i,
                                p,
                            ) by {
                                assert(stacked_ok(stacks, fb0.carved(), old(self).live@, i, p));
                            }
                            assert forall|a: usize| #[trigger] old(self).live@.contains_key(a) implies live_ok(
                                old(self).live@,
                                carved,
                                self.fallback_allocator.live(),
                                a,
                            ) by {
                                assert(live_ok(old(self).live@, fb0.carved(), fb0.live(), a));
                            }
                        }
                        if r != 0 {
                            self.live = Ghost(self.live@.insert(r, (size, align)));
                            proof {
                                let carved = self.fallback_allocator.carved();
                                let stacks = self.list_heads@;
                                assert forall|i: int, p: int|
                                    #![trigger stacks[i]@[p]]
                                    0 <= i < BLOCK_CLASS_COUNT && 0 <= p < stacks[i]@.len() implies stacked_ok(
                                    stacks,
                                    carved,
                                    self.live@,
                                    i,
                                    p,
                                ) by {
                                    assert(stacked_ok(stacks, fb0.carved(), old(self).live@, i, p));
                                }
                                assert forall|a: usize| #[trigger] self.live@.contains_key(a) implies live_ok(
                                    self.live@,
                                    carved,
                                    self.fallback_allocator.live(),
                                    a,
                                ) by {
                                    if a != r {
                                        assert(old(self).live@.contains_key(a));
                                    }
                                }
                            }
                        }
                        r
                    },
                }
            },
            None => {
                let r = self.fallback_alloc(size, align);
                proof {
                    self.fallback_allocator.lemma_live_disjoint();
                    lemma_align_up_positive(size as int, align as int);
                    let carved = self.fallback_allocator.carved();
                    let fb_live = self.fallback_allocator.live();
                    let stacks = self.list_heads@;
                    if r != 0 {
                        assert(!carved.contains_key(r)) by {
                            if carved.contains_key(r) {
                                assert(fb_live.contains_key(r));
                                assert(fb_live[r] == (size, align));
                                assert(self.fallback_allocator.extent(r) == adjusted_size(size as int, align as int));
                            }
                        }
                        assert(!old(self).live@.contains_key(r)) by {
                            if old(self).live@.contains_key(r) {
                                assert(live_ok(old(self).live@, fb0.carved(), fb0.live(), r));
                            }
                        }
                    }
                    assert forall|i: int, p: int|
                        #![trigger stacks[i]@[p]]
                        0 <= i < BLOCK_CLASS_COUNT && 0 <= p < stacks[i]@.len() implies stacked_ok(
                        stacks,
                        carved,
                        old(self).live@,
                        i,
                        p,
                    ) by {
                        assert(stacked_ok(stacks, fb0.carved(), old(self).live@, i, p));
                    }
                    assert forall|a: usize| #[trigger] old(self).live@.contains_key(a) implies live_ok(
                        old(self).live@,
                        carved,
                        fb_live,
                        a,
                    ) by {
                        assert(live_ok(old(self).live@, fb0.carved(), fb0.live(), a));
                    }
                }
                if r != 0 {
                    self.live = Ghost(self.live@.insert(r, (size, align)));
                    proof {
                        let carved = self.fallback_allocator.carved();
                        let stacks = self.list_heads@;
                        assert forall|i: int, p: int|
                            #![trigger stacks[i]@[p]]
                            0 <= i < BLOCK_CLASS_COUNT && 0 <= p < stacks[i]@.len() implies stacked_ok(
                            stacks,
                            carved,
                            self.live@,
                            i,
                            p,
                        ) by {
                            assert(stacked_ok(stacks, carved, old(self).live@, i, p));
                        }
                        assert forall|a: usize| #[trigger] self.live@.contains_key(a) implies live_ok(
                            self.live@,
                            carved,
                            self.fallback_allocator.live(),
                            a,
                        ) by {
                            if a != r {
                                assert(old(self).live@.contains_key(a));
                            }
                        }
                    }
                }
                r
            },
        }
    }

    /// Frees the allocation at `ptr`: a classed block goes on top of its
    /// class stack, a larger one back to the fallback allocator.
    #[verifier::rlimit(50)]
    pub fn deallocate(&mut self, ptr: usize, size: usize, align: usize)
        requires
            old(self).wf(),
            old(self).live().contains_key(ptr),
            old(self).live()[ptr] == (size, align),
        ensures
            final(self).wf(),
            final(self).live() == old(self).live().remove(ptr),
            final(self).heap_start() == old(self).heap_start(),
            final(self).heap_end() == old(self).heap_end(),
            match class_index(size as int, align as int) {
                Some(i) => {
                    &&& forall|j: int|
                        0 <= j < BLOCK_CLASS_COUNT && j != i ==> #[trigger] final(self).free_blocks(j)
                            == old(self).free_blocks(j)
                    &&& final(self).free_blocks(i) == old(self).free_blocks(i).push(ptr)
                    &&& final(self).fallback() == old(self).fallback()
                },
                None => {
                    &&& forall|j: int|
                        0 <= j < BLOCK_CLASS_COUNT ==> #[trigger] final(self).free_blocks(j) == old(self).free_blocks(j)
                    &&& final(self).fallback().regions() == old(self).fallback().regions().insert(
                        0,
                        ListNode { start: ptr, size: adjusted_size(size as int, align as int) as usize },
                    )
                },
            },
    {
        proof {
            lemma_block_sizes();
            lemma_class_index(size as int, align as int);
            assert(live_ok(self.live@, self.fallback_allocator.carved(), self.fallback_allocator.live(), ptr));
        }
        let ghost fb0 = self.fallback_allocator;
        match Self::list_index(size, align) {
            Some(index) => {
                self.list_heads[index].push(ptr);
                self.live = Ghost(self.live@.remove(ptr));
                proof {
                    let stacks = self.list_heads@;
                    let ostacks = old(self).list_heads@;
                    let carved = fb0.carved();
                    assert forall|i: int, p: int|
                        #![trigger stacks[i]@[p]]
                        0 <= i < BLOCK_CLASS_COUNT && 0 <= p < stacks[i]@.len() implies stacked_ok(
                        stacks,
                        carved,
                        self.live@,
                        i,
                        p,
                    ) by {
                        if i != index || p < ostacks[i]@.len() {
                            assert(stacks[i]@[p] == ostacks[i]@[p]);
                            assert(stacked_ok(ostacks, carved, old(self).live@, i, p));
                        }
                    }
                    assert forall|i: int, p: int, q: int|
                        #![trigger stacks[i]@[p], stacks[i]@[q]]
                        0 <= i < BLOCK_CLASS_COUNT && 0 <= p < stacks[i]@.len() && 0 <= q
                            < stacks[i]@.len() && p != q implies stacks[i]@[p] != stacks[i]@[q] by {
                        if i != index || (p < ostacks[i]@.len() && q < ostacks[i]@.len()) {
                            assert(stacks[i]@[p] == ostacks[i]@[p]);
                            assert(stacks[i]@[q] == ostacks[i]@[q]);
                        } else if p < ostacks[i]@.len() {
                            assert(stacks[i]@[p] == ostacks[i]@[p]);
                            assert(stacked_ok(ostacks, carved, old(self).live@, i, p));
                        } else {
                            assert(stacks[i]@[q] == ostacks[i]@[q]);
                            assert(stacked_ok(ostacks, carved, old(self).live@, i, q));
                        }
                    }
                    assert forall|a: usize| #[trigger] self.live@.contains_key(a) implies live_ok(
                        self.live@,
                        carved,
                        fb0.live(),
                        a,
                    ) by {
                        assert(old(self).live@.contains_key(a));
                    }
                }
            },
            None => {
                self.fallback_allocator.deallocate(ptr, size, align);
                self.live = Ghost(self.live@.remove(ptr));
                proof {
                    let stacks = self.list_heads@;
                    let carved = self.fallback_allocator.carved();
                    let fb_live = self.fallback_allocator.live();
                    assert forall|i: int, p: int|
                        #![trigger stacks[i]@[p]]
                        0 <= i < BLOCK_CLASS_COUNT && 0 <= p < stacks[i]@.len() implies stacked_ok(
                        stacks,
                        carved,
                        self.live@,
                        i,
                        p,
                    ) by {
                        assert(stacked_ok(stacks, fb0.carved(), old(self).live@, i, p));
                    }
                    assert forall|a: usize| #[trigger] self.live@.contains_key(a) implies live_ok(
                        self.live@,
                        carved,
                        fb_live,
                        a,
                    ) by {
                        assert(old(self).live@.contains_key(a));
                        assert(live_ok(old(self).live@, fb0.carved(), fb0.live(), a));
                    }
                }
            },
        }
    }

    /// Live allocations never overlap, not even counting each classed one
    /// as its whole block; each sits at a multiple of its alignment, a
    /// classed one at a multiple of its class's block size, and each lies in
    /// the heap window.
    pub proof fn lemma_live_disjoint(&self)
        requires
            self.wf(),
        ensures
            no_alias(self.live()),
            all_aligned(self.live()),
            forall|a: usize, b: usize|
                #![trigger self.live().contains_key(a), self.live().contains_key(b)]
                self.live().contains_key(a) && self.live().contains_key(b) && a != b ==> disjoint(
                    a as int,
                    block_extent(self.live()[a].0 as int, self.live()[a].1 as int),
                    b as int,
                    block_extent(self.live()[b].0 as int, self.live()[b].1 as int),
                ),
            forall|a: usize|
                #[trigger] self.live().contains_key(a) ==> {
                    &&& self.heap_start() <= a
                    &&& a + block_extent(self.live()[a].0 as int, self.live()[a].1 as int) <= self.heap_end()
                    &&& match class_index(self.live()[a].0 as int, self.live()[a].1 as int) {
                        Some(i) => a as int % block_size_spec(i) == 0,
                        None => true,
                    }
                },
    {
        let live = self.live@;
        let fb = self.fallback_allocator;
        fb.lemma_live_disjoint();
        lemma_block_sizes();
        assert forall|a: usize| #[trigger] live.contains_key(a) implies {
            &&& live[a].0 <= block_extent(live[a].0 as int, live[a].1 as int)
            &&& block_extent(live[a].0 as int, live[a].1 as int) > 0
            &&& a as int % live[a].1 as int == 0
            &&& fb.heap_start() <= a
            &&& a + block_extent(live[a].0 as int, live[a].1 as int) <= fb.heap_end()
            &&& match class_index(live[a].0 as int, live[a].1 as int) {
                Some(i) => a as int % block_size_spec(i) == 0 && fb.carved().contains_key(a)
                    && fb.carved()[a] as int == block_extent(live[a].0 as int, live[a].1 as int),
                None => fb.live().contains_key(a) && fb.live()[a] == live[a],
            }
        } by {
            lemma_class_index(live[a].0 as int, live[a].1 as int);
            assert(live_ok(live, fb.carved(), fb.live(), a));
            match class_index(live[a].0 as int, live[a].1 as int) {
                Some(i) => {
                    assert(fb.carved().contains_key(a));
                    lemma_power_of_two_divides(live[a].1 as int, block_size_spec(i));
                    lemma_mod_divisor(a as int, live[a].1 as int, block_size_spec(i));
                },
                None => {
                    assert(fb.live().contains_key(a));
                    lemma_align_up_positive(live[a].0 as int, live[a].1 as int);
                },
            }
        }
        assert forall|a: usize, b: usize|
            #![trigger live.contains_key(a), live.contains_key(b)]
            live.contains_key(a) && live.contains_key(b) && a != b implies disjoint(
            a as int,
            block_extent(live[a].0 as int, live[a].1 as int),
            b as int,
            block_extent(live[b].0 as int, live[b].1 as int),
        ) by {
            let ea = block_extent(live[a].0 as int, live[a].1 as int);
            let eb = block_extent(live[b].0 as int, live[b].1 as int);
            match (class_index(live[a].0 as int, live[a].1 as int), class_index(live[b].0 as int, live[b].1 as int)) {
                (Some(i), Some(j)) => {},
                (Some(i), None) => {
                    assert(disjoint(b as int, fb.extent(b), a as int, fb.carved()[a] as int));
                    lemma_align_up_positive(live[b].0 as int, live[b].1 as int);
                },
                (None, Some(j)) => {
                    assert(disjoint(a as int, fb.extent(a), b as int, fb.carved()[b] as int));
                    lemma_align_up_positive(live[a].0 as int, live[a].1 as int);
                },
                (None, None) => {
                    assert(fb.live().contains_key(a) && fb.live().contains_key(b));
                },
            }
        }
    }
}

/// The free list of a heap of `size` bytes at `start` after `k` blocks of
/// `block` bytes were carved from it.
pub open spec fn regions_after_carves(start: int, size: int, block: int, k: int) -> Seq<ListNode> {
    if size - k * block > 0 {
        seq![ListNode { start: (start + k * block) as usize, size: (size - k * block) as usize }]
    } else {
        Seq::empty()
    }
}

/// A heap of `size` bytes that starts at a multiple of the class size
/// `block` serves exactly `size / block` new blocks of that class, one after
/// the other, and refuses the next one: the `k`-th carve lands at
/// `start + k * block`.
pub proof fn lemma_class_block_count(start: int, size: int, block: int, k: int)
    requires
        start > 0,
        size >= 0,
        start + size <= usize::MAX,
        block >= 8,
        start % block == 0,
        0 <= k <= size / block,
    ensures
        k < size / block ==> carve_outcome(regions_after_carves(start, size, block, k), block) == (
            regions_after_carves(start, size, block, k + 1),
            start + k * block,
        ),
        k == size / block ==> carve_outcome(regions_after_carves(start, size, block, k), block).1 == 0,
{
    let n = size / block;
    vstd::arithmetic::div_mod::lemma_fundamental_div_mod(size, block);
    vstd::arithmetic::div_mod::lemma_mod_bound(size, block);
    assert(k * block <= size) by (nonlinear_arith)
        requires k <= n, size == block * n + size % block, size % block >= 0, block > 0;
    let c = start + k * block;
    vstd::arithmetic::div_mod::lemma_mod_multiples_vanish(k, start, block);
    assert(block * k == k * block) by (nonlinear_arith);
    crate::memory::allocator::lemma_align_up(c, block);
    assert(c + block == start + (k + 1) * block) by (nonlinear_arith)
        requires c == start + k * block;
    let regions = regions_after_carves(start, size, block, k);
    if k < n {
        assert((k + 1) * block <= size) by (nonlinear_arith)
            requires k < n, size == block * n + size % block, size % block >= 0, block > 0;
        assert(regions.len() == 1);
        assert(regions[0].start == c && regions[0].size == size - k * block);
        assert(crate::memory::linked_list::first_fit(regions, block, block, 1) == 0);
        let rest = regions.remove(0);
        assert(rest =~= Seq::<ListNode>::empty());
        if size - (k + 1) * block > 0 {
            assert(rest.insert(0, ListNode { start: (c + block) as usize, size: (size - (k + 1) * block) as usize })
                =~= regions_after_carves(start, size, block, k + 1));
        } else {
            assert(regions_after_carves(start, size, block, k + 1) =~= Seq::<ListNode>::empty());
        }
    } else {
        assert(c + block > start + size) by (nonlinear_arith)
            requires c == start + n * block, k == n, size == block * n + size % block, size % block < block;
        if regions.len() == 1 {
            assert(crate::memory::linked_list::first_fit_from(regions, block, block, 1, 1) == 1);
            assert(!crate::memory::linked_list::fits(regions[0], block, block, 1));
            assert(crate::memory::linked_list::first_fit(regions, block, block, 1) == 1);
        }
    }
}

} // verus!
