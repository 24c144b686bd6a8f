use oros::memory::allocator::{align_up, Dummy, HEAP_SIZE, HEAP_START};
use oros::memory::bump::BumpAllocator;
use oros::memory::fixed::{block_size, FixedSizeAllocator, BLOCK_CLASS_COUNT};
use oros::memory::linked_list::{LinkedListAllocator, ListNode, NODE_SIZE};

const START: usize = 0x4444_4444_0000;

fn overlaps(a: (usize, usize), b: (usize, usize)) -> bool {
    a.0 < b.0 + b.1 && b.0 < a.0 + a.1
}

#[test]
fn heap_window_constants() {
    assert_eq!(HEAP_START, 0x4444_4444_0000);
    assert_eq!(HEAP_SIZE, 100 * 1024);
}

#[test]
fn align_up_rounds_to_multiple() {
    assert_eq!(align_up(0, 8), 0);
    assert_eq!(align_up(1, 8), 8);
    assert_eq!(align_up(8, 8), 8);
    assert_eq!(align_up(9, 1), 9);
    assert_eq!(align_up(4097, 4096), 8192);
}

#[test]
fn dummy_always_fails() {
    assert_eq!(Dummy.allocate(8, 8), 0);
    assert_eq!(Dummy.allocate(1, 1), 0);
}

#[test]
fn bump_allocates_in_order() {
    let mut a = BumpAllocator::new();
    a.init(START, 64);
    let p = a.allocate(10, 1);
    let q = a.allocate(8, 8);
    assert_eq!(p, START);
    assert_eq!(q, START + 16);
    assert_eq!(a.allocate(64, 1), 0);
}

#[test]
fn bump_uninitialised_fails() {
    let mut a = BumpAllocator::new();
    assert_eq!(a.allocate(1, 1), 0);
}

#[test]
fn bump_resets_only_when_all_freed() {
    let mut a = BumpAllocator::new();
    a.init(START, 256);
    let first = a.allocate(16, 8);
    let second = a.allocate(16, 8);
    let third = a.allocate(16, 8);
    // freed out of order: the cursor stays until the count reaches zero
    a.deallocate(second, 16, 8);
    assert_eq!(a.allocate(16, 8), START + 48);
    a.deallocate(START + 48, 16, 8);
    a.deallocate(first, 16, 8);
    assert_eq!(a.allocate(16, 8), START + 64);
    a.deallocate(START + 64, 16, 8);
    a.deallocate(third, 16, 8);
    assert_eq!(a.allocate(16, 8), START);
}

#[test]
fn bump_block_count_exact() {
    for block in [1usize, 8, 16, 64] {
        for size in [0usize, 7, 64, 100, 1000] {
            let mut a = BumpAllocator::new();
            a.init(START, size);
            let mut served = 0;
            while a.allocate(block, block) != 0 {
                served += 1;
            }
            assert_eq!(served, size / block, "block {} heap {}", block, size);
        }
    }
}

#[test]
fn linked_list_first_fit_and_split() {
    let mut a = LinkedListAllocator::new();
    a.init(START, 1024);
    let p = a.allocate(16, 8);
    let q = a.allocate(32, 16);
    assert_eq!(p, START);
    assert_eq!(q, START + 16);
}

#[test]
fn linked_list_small_requests_take_a_node() {
    let mut a = LinkedListAllocator::new();
    a.init(START, 64);
    // one byte still takes a whole node's worth of space
    assert_eq!(a.allocate(1, 1), START);
    assert_eq!(a.allocate(1, 1), START + NODE_SIZE);
}

#[test]
fn linked_list_refuses_leftover_smaller_than_node() {
    let mut a = LinkedListAllocator::new();
    a.init(START, 40);
    assert_eq!(a.allocate(16, 8), START);
    // 24 bytes remain: a 16-byte allocation would leave 8, too few for a node
    assert_eq!(a.allocate(16, 8), 0);
    assert_eq!(a.allocate(24, 8), START + 16);
}

#[test]
fn linked_list_freed_region_goes_to_front() {
    let mut a = LinkedListAllocator::new();
    a.init(START, 256);
    let p = a.allocate(32, 8);
    let q = a.allocate(32, 8);
    assert_eq!(q, START + 32);
    a.deallocate(p, 32, 8);
    assert_eq!(a.allocate(32, 8), p);
}

#[test]
fn linked_list_exhausted_returns_null() {
    let mut a = LinkedListAllocator::new();
    a.init(START, 64);
    assert_eq!(a.allocate(64, 8), START);
    assert_eq!(a.allocate(8, 8), 0);
}

#[test]
fn linked_list_alignment_padding_is_leaked() {
    let mut a = LinkedListAllocator::new();
    a.init(START + 8, 256);
    let p = a.allocate(16, 64);
    assert_eq!(p % 64, 0);
    assert_eq!(p, START + 64);
    // the padding before the block is not in the list; hand it back
    a.add_free_region(START + 8, 32);
    assert_eq!(a.allocate(32, 8), START + 8);
}

#[test]
fn list_node_bounds() {
    let n = ListNode::new(START, 48);
    assert_eq!(n.start_addr(), START);
    assert_eq!(n.end_addr(), START + 48);
}

#[test]
fn fixed_block_sizes() {
    let sizes: Vec<usize> = (0..BLOCK_CLASS_COUNT).map(block_size).collect();
    assert_eq!(sizes, vec![8, 16, 32, 64, 128, 256, 512, 1024, 2048]);
}

#[test]
fn fixed_rounds_up_to_class_and_reuses_freed_block() {
    let mut a = FixedSizeAllocator::new();
    a.init(START, 4096);
    let p = a.allocate(24, 8);
    assert_ne!(p, 0);
    assert_eq!(p % 32, 0);
    a.deallocate(p, 24, 8);
    assert_eq!(a.allocate(20, 4), p);
}

#[test]
fn fixed_class_chosen_by_alignment_too() {
    let mut a = FixedSizeAllocator::new();
    a.init(START, 8192);
    let p = a.allocate(8, 512);
    assert_ne!(p, 0);
    assert_eq!(p % 512, 0);
    a.deallocate(p, 8, 512);
    // a 300-byte request is in the same class and gets the same block back
    assert_eq!(a.allocate(300, 8), p);
}

#[test]
fn fixed_large_requests_use_fallback() {
    let mut a = FixedSizeAllocator::new();
    a.init(START, 8192);
    let p = a.allocate(3000, 8);
    assert_eq!(p, START);
    a.deallocate(p, 3000, 8);
    assert_eq!(a.allocate(3000, 8), START);
}

#[test]
fn fixed_exhausted_returns_null() {
    let mut a = FixedSizeAllocator::new();
    a.init(START, 64);
    assert_ne!(a.allocate(64, 64), 0);
    assert_eq!(a.allocate(64, 64), 0);
}

#[test]
fn live_allocations_never_overlap_and_are_aligned() {
    let requests: [(usize, usize); 8] =
        [(1, 1), (24, 8), (100, 16), (8, 512), (3000, 8), (17, 4), (64, 64), (2048, 2048)];
    let mut bump = BumpAllocator::new();
    bump.init(START, 32 * 1024);
    let mut list = LinkedListAllocator::new();
    list.init(START, 32 * 1024);
    let mut fixed = FixedSizeAllocator::new();
    fixed.init(START, 32 * 1024);
    for strategy in 0..3 {
        let mut live: Vec<(usize, usize, usize)> = Vec::new();
        for round in 0..3 {
            for &(size, align) in requests.iter() {
                let p = match strategy {
                    0 => bump.allocate(size, align),
                    1 => list.allocate(size, align),
                    _ => fixed.allocate(size, align),
                };
                assert_ne!(p, 0);
                assert_eq!(p % align, 0);
                for &(q, qs, _) in live.iter() {
                    assert!(!overlaps((p, size), (q, qs)));
                }
                live.push((p, size, align));
            }
            // free every other allocation, keep the rest live
            let mut kept = Vec::new();
            for (i, (p, size, align)) in live.into_iter().enumerate() {
                if (i + round) % 2 == 0 {
                    match strategy {
                        0 => bump.deallocate(p, size, align),
                        1 => list.deallocate(p, size, align),
                        _ => fixed.deallocate(p, size, align),
                    }
                } else {
                    kept.push((p, size, align));
                }
            }
            live = kept;
        }
    }
}

#[test]
fn fixed_minimum_class_serves_heap_over_eight() {
    for size in [0usize, 8, 16, 56, 100, 4096] {
        let mut a = FixedSizeAllocator::new();
        a.init(START, size);
        let mut blocks = Vec::new();
        loop {
            let p = a.allocate(8, 8);
            if p == 0 {
                break;
            }
            assert!(START <= p && p + 8 <= START + size);
            blocks.push(p);
        }
        assert_eq!(blocks.len(), size / 8, "heap {}", size);
        let expected: Vec<usize> = (0..size / 8).map(|k| START + 8 * k).collect();
        assert_eq!(blocks, expected);
    }
}

#[test]
fn fixed_sixteen_byte_heap_serves_two_minimum_blocks() {
    let mut a = FixedSizeAllocator::new();
    a.init(4096, 16);
    assert_eq!(a.allocate(8, 8), 4096);
    assert_eq!(a.allocate(8, 8), 4104);
    assert_eq!(a.allocate(8, 8), 0);
}

#[test]
fn unaligned_heap_start_is_rounded_up() {
    let mut list = LinkedListAllocator::new();
    list.init(START + 3, 64);
    assert_eq!(list.allocate(16, 8), START + 8);
    let mut fixed = FixedSizeAllocator::new();
    fixed.init(START + 3, 64);
    assert_eq!(fixed.allocate(8, 8), START + 8);
    let mut tiny = LinkedListAllocator::new();
    tiny.init(START + 1, 6);
    assert_eq!(tiny.allocate(1, 1), 0);
}

#[test]
fn allocations_stay_in_heap_window() {
    let size = 4096;
    let mut fixed = FixedSizeAllocator::new();
    fixed.init(START, size);
    let mut list = LinkedListAllocator::new();
    list.init(START, size);
    for (req, align) in [(1usize, 1usize), (24, 8), (700, 256), (2048, 2048), (3000, 8)] {
        let p = fixed.allocate(req, align);
        if p != 0 {
            assert!(START <= p && p + req <= START + size);
        }
        let q = list.allocate(req, align);
        if q != 0 {
            assert!(START <= q && q + req <= START + size);
        }
    }
}
