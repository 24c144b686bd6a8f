//! Bump strategy: a cursor that only moves up, reset when the last live
//! allocation is freed.
use vstd::prelude::*;

use crate::memory::allocator::{
    align_up, align_up_spec, all_aligned, lemma_align_up, no_alias, valid_layout,
};

verus! {

/// Where a bump allocation of `size` bytes aligned to `align` lands from the
/// cursor `next`, if it ends at or below `end`.
pub open spec fn bump_place(next: int, end: int, size: int, align: int) -> Option<int> {
    let s = align_up_spec(next, align);
    if s + size <= end {
        Some(s)
    } else {
        None
    }
}

/// The cursor after `k` requests of `block` bytes aligned to `block`, made
/// from the cursor `start` in a heap that ends at `end`.
pub open spec fn bump_cursor_after(start: int, end: int, block: int, k: nat) -> int
    decreases k,
{
    if k == 0 {
        start
    } else {
        let c = bump_cursor_after(start, end, block, (k - 1) as nat);
        match bump_place(c, end, block, block) {
            Some(s) => s + block,
            None => c,
        }
    }
}

proof fn lemma_aligned_step(start: int, k: int, block: int)
    requires
        block > 0,
        start % block == 0,
    ensures
        (start + k * block) % block == 0,
{
    vstd::arithmetic::div_mod::lemma_mod_multiples_vanish(k, start, block);
    assert(block * k == k * block) by (nonlinear_arith);
}

proof fn lemma_cursor_after(start: int, size: int, block: int, k: nat)
    requires
        start >= 0,
        size >= 0,
        block > 0,
        start % block == 0,
        k <= size / block,
    ensures
        bump_cursor_after(start, start + size, block, k) == start + k * block,
    decreases k,
{
    if k > 0 {
        let j = (k - 1) as nat;
        lemma_cursor_after(start, size, block, j);
        let c = start + j * block;
        lemma_aligned_step(start, j as int, block);
        lemma_align_up(c, block);
        vstd::arithmetic::div_mod::lemma_fundamental_div_mod(size, block);
        vstd::arithmetic::div_mod::lemma_mod_bound(size, block);
        assert(k * block <= size) by (nonlinear_arith)
            requires k <= size / block, size == block * (size / block) + size % block, size % block >= 0, block > 0;
        assert(c + block == start + k * block) by (nonlinear_arith)
            requires c == start + j * block, k == j + 1;
        assert(align_up_spec(c, block) == c);
        assert(bump_place(c, start + size, block, block) == Some(c));
        assert(bump_cursor_after(start, start + size, block, k) == c + block);
    } else {
        assert(k * block == 0) by (nonlinear_arith)
            requires k == 0;
    }
}

/// A heap of `size` bytes that starts at a multiple of `block` serves
/// exactly `size / block` requests of `block` bytes aligned to `block`, one
/// after the other, and refuses the next one.
pub proof fn lemma_block_count(start: int, size: int, block: int)
    requires
        start >= 0,
        size >= 0,
        block > 0,
        start % block == 0,
    ensures
        forall|k: nat|
            k < size / block ==> #[trigger] bump_place(
                bump_cursor_after(start, start + size, block, k),
                start + size,
                block,
                block,
            ) == Some(start + k * block),
        bump_place(
            bump_cursor_after(start, start + size, block, (size / block) as nat),
            start + size,
            block,
            block,
        ) is None,
{
    let n = size / block;
    vstd::arithmetic::div_mod::lemma_fundamental_div_mod(size, block);
    vstd::arithmetic::div_mod::lemma_mod_bound(size, block);
    vstd::arithmetic::div_mod::lemma_div_pos_is_pos(size, block);
    assert forall|k: nat| k < size / block implies #[trigger] bump_place(
        bump_cursor_after(start, start + size, block, k),
        start + size,
        block,
        block,
    ) == Some(start + k * block) by {
        lemma_cursor_after(start, size, block, k);
        let c = start + k * block;
        lemma_aligned_step(start, k as int, block);
        lemma_align_up(c, block);
        assert((k + 1) * block <= size) by (nonlinear_arith)
            requires k < n, size == block * n + size % block, size % block >= 0, block > 0;
        assert(c + block == start + (k + 1) * block) by (nonlinear_arith)
            requires c == start + k * block;
        assert(align_up_spec(c, block) == c);
    }
    lemma_cursor_after(start, size, block, n as nat);
    let c = start + n * block;
    lemma_aligned_step(start, n, block);
    lemma_align_up(c, block);
    assert(c + block > start + size) by (nonlinear_arith)
        requires c == start + n * block, size == block * n + size % block, size % block < block;
}

/// The heap allocator that hands out memory from a cursor.
pub struct BumpAllocator {
    heap_start: usize,
    heap_end: usize,
    next: usize,
    allocations: usize,
    live: Ghost<Map<usize, (usize, usize)>>,
}

impl BumpAllocator {
    /// First address of the heap.
    pub closed spec fn heap_start(&self) -> int {
        self.heap_start as int
    }

    /// Address just past the heap.
    pub closed spec fn heap_end(&self) -> int {
        self.heap_end as int
    }

    /// Where the next allocation is carved from.
    pub closed spec fn cursor(&self) -> int {
        self.next as int
    }

    /// Number of allocations not yet freed.
    pub closed spec fn live_count(&self) -> int {
        self.allocations as int
    }

    /// The live allocations: address to requested size and alignment.
    pub closed spec fn live(&self) -> Map<usize, (usize, usize)> {
        self.live@
    }

    /// The cursor lies in the heap, every live allocation lies below it, and
    /// the count is the number of live allocations.
    pub closed spec fn wf(&self) -> bool {
        let live = self.live@;
        &&& self.heap_start <= self.next <= self.heap_end
        &&& self.heap_start > 0 || self.heap_end == 0
        &&& live.dom().finite()
        &&& self.allocations == live.len()
        &&& self.allocations <= self.next - self.heap_start
        &&& (self.allocations == 0 <==> self.next == self.heap_start)
        &&& forall|a: usize| #[trigger]
            live.contains_key(a) ==> {
                &&& self.heap_start <= a
                &&& a + live[a].0 <= self.next
                &&& valid_layout(live[a].0 as int, live[a].1 as int)
                &&& a as int % live[a].1 as int == 0
            }
        &&& no_alias(live)
    }

    /// An allocator with no heap yet.
    pub fn new() -> (r: Self)
        ensures
            r.wf(),
            r.heap_start() == 0,
            r.heap_end() == 0,
            r.cursor() == 0,
            r.live_count() == 0,
            r.live() == Map::<usize, (usize, usize)>::empty(),
    {
        BumpAllocator { heap_start: 0, heap_end: 0, next: 0, allocations: 0, live: Ghost(Map::empty()) }
    }

    /// Initialises the allocator with the heap `[heap_start, heap_start + heap_size)`.
    pub fn init(&mut self, heap_start: usize, heap_size: usize)
        requires
            old(self).wf(),
            old(self).live() == Map::<usize, (usize, usize)>::empty(),
            heap_start > 0,
            heap_start + heap_size <= usize::MAX,
        ensures
            final(self).wf(),
            final(self).heap_start() == heap_start,
            final(self).heap_end() == heap_start + heap_size,
            final(self).cursor() == heap_start,
            final(self).live_count() == 0,
            final(self).live() == Map::<usize, (usize, usize)>::empty(),
    {
        self.heap_start = heap_start;
        self.heap_end = heap_start + heap_size;
        self.next = heap_start;
    }

    /// Allocates `size` bytes aligned to `align` at the cursor; returns the
    /// address, or 0 when the heap has no room left.
    pub fn allocate(&mut self, size: usize, align: usize) -> (r: usize)
        requires
            old(self).wf(),
            valid_layout(size as int, align as int),
        ensures
            final(self).wf(),
            final(self).heap_start() == old(self).heap_start(),
            final(self).heap_end() == old(self).heap_end(),
            match bump_place(old(self).cursor(), old(self).heap_end(), size as int, align as int) {
                Some(s) => {
                    &&& r == s
                    &&& final(self).cursor() == s + size
                    &&& final(self).live_count() == old(self).live_count() + 1
                    &&& final(self).live() == old(self).live().insert(r, (size, align))
                },
                None => {
                    &&& r == 0
                    &&& final(self).cursor() == old(self).cursor()
                    &&& final(self).live_count() == old(self).live_count()
                    &&& final(self).live() == old(self).live()
                },
            },
            r != 0 ==> r as int % align as int == 0 && !old(self).live().contains_key(r),
    {
        let next = self.next;
        proof {
            lemma_align_up(next as int, align as int);
        }
        let rem = next % align;
        if rem != 0 && next - rem > usize::MAX - align {
            return 0;
        }
        let alloc_start = align_up(next, align);
        if alloc_start > usize::MAX - size {
            return 0;
        }
        let alloc_end = alloc_start + size;
        if alloc_end > self.heap_end {
            0
        } else {
            proof {
                assert(!self.live@.contains_key(alloc_start)) by {
                    if self.live@.contains_key(alloc_start) {
                        assert(alloc_start + self.live@[alloc_start].0 <= next);
                    }
                }
            }
            self.next = alloc_end;
            self.allocations = self.allocations + 1;
            self.live = Ghost(self.live@.insert(alloc_start, (size, align)));
            proof {
                let live = self.live@;
                assert forall|a: usize, b: usize|
                    #![trigger live.contains_key(a), live.contains_key(b)]
                    live.contains_key(a) && live.contains_key(b) && a != b implies crate::memory::allocator::disjoint(
                    a as int,
                    live[a].0 as int,
                    b as int,
                    live[b].0 as int,
                ) by {
                    if a != alloc_start && b != alloc_start {
                        assert(old(self).live@.contains_key(a));
                        assert(old(self).live@.contains_key(b));
                    } else if a == alloc_start {
                        assert(old(self).live@.contains_key(b));
                    } else {
                        assert(old(self).live@.contains_key(a));
                    }
                }
            }
            alloc_start
        }
    }

    /// Frees the allocation at `ptr`. Only the count goes down; when it
    /// reaches zero the cursor goes back to the start of the heap.
    pub fn deallocate(&mut self, ptr: usize, size: usize, align: usize)
        requires
            old(self).wf(),
            old(self).live().contains_key(ptr),
            old(self).live()[ptr] == (size, align),
        ensures
            final(self).wf(),
            final(self).heap_start() == old(self).heap_start(),
            final(self).heap_end() == old(self).heap_end(),
            final(self).live_count() == old(self).live_count() - 1,
            final(self).live() == old(self).live().remove(ptr),
            final(self).cursor() == if final(self).live_count() == 0 {
                old(self).heap_start()
            } else {
                old(self).cursor()
            },
    {
        proof {
            assert(self.live@.len() > 0) by {
                if self.live@.len() == 0 {
                    assert(self.live@.dom() =~= Set::empty());
                }
            }
        }
        self.allocations = self.allocations - 1;
        self.live = Ghost(self.live@.remove(ptr));
        if self.allocations == 0 {
            self.next = self.heap_start;
            proof {
                assert(self.live@.dom() =~= Set::empty());
            }
        } else {
            proof {
                assert(old(self).allocations > 0);
            }
        }
    }

    /// The cursor sits at the start of the heap exactly when no allocation
    /// is live.
    pub proof fn lemma_cursor_reset(&self)
        requires
            self.wf(),
        ensures
            (self.cursor() == self.heap_start()) <==> (self.live_count() == 0),
            self.live_count() == self.live().len(),
    {
    }

    /// Live allocations never overlap and each sits at a multiple of its
    /// alignment.
    pub proof fn lemma_live_disjoint(&self)
        requires
            self.wf(),
        ensures
            no_alias(self.live()),
            all_aligned(self.live()),
    {
    }
}

} // verus!
