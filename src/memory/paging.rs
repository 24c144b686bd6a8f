//! The pages that back the heap window.
use vstd::prelude::*;

use crate::memory::frame::{containing_frame, frame_of, FRAME_SIZE};

verus! {

/// The pages of the window `[start, start + size)`, first to last.
pub open spec fn window_pages(start: int, size: int) -> Seq<u64> {
    let first = frame_of(start);
    let last = frame_of(start + size - 1);
    Seq::new(((last - first) / FRAME_SIZE as int + 1) as nat, |k: int| (first + k * FRAME_SIZE) as u64)
}

/// The first and the last page of the window `[start, start + size)`.
pub fn heap_page_range(start: u64, size: u64) -> (r: (u64, u64))
    requires
        size > 0,
        start + size - 1 <= u64::MAX,
    ensures
        r.0 == frame_of(start as int),
        r.1 == frame_of(start + size - 1),
        r.0 <= r.1,
        r.0 % FRAME_SIZE == 0,
        r.1 % FRAME_SIZE == 0,
{
    let first = containing_frame(start);
    let last = containing_frame(start + (size - 1));
    proof {
        assert(first <= last) by {
            assert(start as int % 4096 < 4096);
        }
    }
    (first, last)
}

/// Every page of the window `[start, start + size)`, in address order: the
/// pages that must be mapped before the heap can be used.
pub fn heap_pages(start: u64, size: u64) -> (r: Vec<u64>)
    requires
        size > 0,
        start + size - 1 <= u64::MAX,
    ensures
        r@ == window_pages(start as int, size as int),
{
    let (first, last) = heap_page_range(start, size);
    let count: u64 = (last - first) / FRAME_SIZE + 1;
    let mut pages: Vec<u64> = Vec::new();
    let mut k: u64 = 0;
    while k < count
        invariant
            k <= count,
            count == (last - first) / 4096 + 1,
            first == frame_of(start as int),
            last == frame_of(start + size - 1),
            first <= last,
            pages@.len() == k,
            forall|j: int| 0 <= j < k ==> pages@[j] == (first + j * FRAME_SIZE) as u64,
        decreases count - k,
    {
        proof {
            assert(k * 4096 <= last - first) by (nonlinear_arith)
                requires k < (last - first) / 4096 + 1, last - first >= 0;
        }
        pages.push(first + k * FRAME_SIZE);
        k = k + 1;
    }
    proof {
        assert(pages@ =~= window_pages(start as int, size as int));
    }
    pages
}

} // verus!
