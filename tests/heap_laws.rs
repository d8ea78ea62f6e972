use lock_free_buddy::{prev_power_of_two, Layout, LayoutError, LockFreeHeap};

const SPACE: usize = 0x10000;

#[test]
fn layout_rejects_bad_alignment_and_size() {
    assert_eq!(Layout::from_size_align(1, 3), Err(LayoutError));
    assert_eq!(Layout::from_size_align(1, 0), Err(LayoutError));
    assert_eq!(Layout::from_size_align(usize::MAX, 1), Err(LayoutError));
    assert_eq!(Layout::from_size_align(isize::MAX as usize, 2), Err(LayoutError));
    let l = Layout::from_size_align(isize::MAX as usize, 1).unwrap();
    assert_eq!(l.size(), isize::MAX as usize);
    assert_eq!(l.align(), 1);
    assert!(Layout::from_size_align(0, 4096).is_ok());
}

#[test]
fn prev_power_of_two_values() {
    assert_eq!(prev_power_of_two(1), 1);
    assert_eq!(prev_power_of_two(2), 2);
    assert_eq!(prev_power_of_two(3), 2);
    assert_eq!(prev_power_of_two(100), 64);
    assert_eq!(prev_power_of_two(512), 512);
    assert_eq!(prev_power_of_two(usize::MAX), 1 << (usize::BITS - 1));
}

#[test]
fn add_to_heap_carves_largest_aligned_blocks() {
    // 800 bytes from an address aligned to 64 KiB: 512 + 256 + 32
    let mut heap = LockFreeHeap::<32>::with_data_base(SPACE);
    heap.add_to_heap(SPACE, SPACE + 800);
    assert_eq!(heap.stats_total_bytes(), 800);
    // the smallest request takes the 32-byte block and splits it
    let a = heap.alloc_(Layout::from_size_align(1, 1).unwrap()).unwrap();
    assert_eq!(a, SPACE + 0x300);
    // its upper half is the next free 16-byte block
    let b = heap.alloc_(Layout::from_size_align(16, 16).unwrap()).unwrap();
    assert_eq!(b, SPACE + 0x310);
    // then the 256-byte block is split
    let c = heap.alloc_(Layout::from_size_align(1, 1).unwrap()).unwrap();
    assert_eq!(c, SPACE + 0x200);
    assert_eq!(heap.stats_alloc_user(), 18);
    assert_eq!(heap.stats_alloc_actual(), 48);
}

#[test]
fn add_to_heap_rounds_to_node_headers() {
    let mut heap = LockFreeHeap::<32>::new();
    // [0x1008, 0x1038) rounds to [0x1010, 0x1030): two 16-byte blocks
    heap.add_to_heap(0x1008, 0x1038);
    assert_eq!(heap.stats_total_bytes(), 32);
    // a range inside one header adds nothing
    heap.add_to_heap(0x2001, 0x2007);
    assert_eq!(heap.stats_total_bytes(), 32);
    // a heap whose largest block cannot hold a node header adds nothing
    let mut tiny = LockFreeHeap::<4>::new();
    tiny.add_to_heap(0x1000, 0x2000);
    assert_eq!(tiny.stats_total_bytes(), 0);
    assert!(tiny.alloc_(Layout::from_size_align(1, 1).unwrap()).is_err());
}

#[test]
fn alloc_rounds_to_size_and_alignment() {
    let mut heap = LockFreeHeap::<32>::new();
    heap.init(0x10000, 0x10000);
    let l = Layout::from_size_align(100, 1).unwrap();
    let a = heap.alloc_(l).unwrap();
    assert_eq!(heap.stats_alloc_user(), 100);
    assert_eq!(heap.stats_alloc_actual(), 128);
    assert_eq!(a % 128, 0);
    let l2 = Layout::from_size_align(8, 1024).unwrap();
    let b = heap.alloc_(l2).unwrap();
    assert_eq!(b % 1024, 0);
    assert_eq!(heap.stats_alloc_actual(), 128 + 1024);
    heap.dealloc_(a, l);
    heap.dealloc_(b, l2);
    assert_eq!(heap.stats_alloc_user(), 0);
    assert_eq!(heap.stats_alloc_actual(), 0);
}

#[test]
fn counters_return_after_balanced_interleaving() {
    let mut heap = LockFreeHeap::<20>::new();
    heap.init(0x100000, 0x10000);
    let sizes = [1usize, 17, 200, 33, 1000, 8];
    let mut out = Vec::new();
    for &s in sizes.iter() {
        let l = Layout::from_size_align(s, 1).unwrap();
        out.push((heap.alloc_(l).unwrap(), l));
    }
    assert_eq!(heap.stats_alloc_user(), 1 + 17 + 200 + 33 + 1000 + 8);
    // release in another order
    for i in [3usize, 0, 5, 1, 4, 2] {
        let (a, l) = out[i];
        heap.dealloc_(a, l);
    }
    assert_eq!(heap.stats_alloc_user(), 0);
    assert_eq!(heap.stats_alloc_actual(), 0);
    assert_eq!(heap.stats_total_bytes(), 0x10000);
}

#[test]
fn outstanding_allocations_do_not_overlap() {
    let mut heap = LockFreeHeap::<16>::new();
    heap.init(0x40000, 0x1000);
    let mut blocks: Vec<(usize, usize)> = Vec::new();
    for s in [16usize, 48, 16, 100, 16, 256, 30] {
        let l = Layout::from_size_align(s, 1).unwrap();
        let a = heap.alloc_(l).unwrap();
        let size = s.next_power_of_two().max(16);
        blocks.push((a, size));
    }
    for i in 0..blocks.len() {
        for j in 0..blocks.len() {
            if i != j {
                let (a, sa) = blocks[i];
                let (b, sb) = blocks[j];
                assert!(a + sa <= b || b + sb <= a);
            }
        }
    }
}

#[test]
fn full_heap_merges_back_into_one_block() {
    // one region of 1 KiB, the largest block of a heap of 11 orders
    let mut heap = LockFreeHeap::<11>::new();
    heap.add_to_heap(0x8000, 0x8400);
    let small = Layout::from_size_align(16, 16).unwrap();
    let mut out = Vec::new();
    while let Ok(a) = heap.alloc_(small) {
        out.push(a);
    }
    assert_eq!(out.len(), 64);
    let whole = Layout::from_size_align(1024, 1).unwrap();
    assert!(heap.alloc_(whole).is_err());
    for a in out {
        heap.dealloc_(a, small);
    }
    assert_eq!(heap.alloc_(whole), Ok(0x8000));
}

#[test]
fn freed_block_is_reusable() {
    let mut heap = LockFreeHeap::<32>::new();
    heap.add_to_heap(0x1000, 0x1100);
    let l = Layout::from_size_align(64, 1).unwrap();
    let a = heap.alloc_(l).unwrap();
    heap.dealloc_(a, l);
    assert_eq!(heap.alloc_(l), Ok(a));
}

#[test]
fn words_of_an_allocation_can_be_written() {
    let mut heap = LockFreeHeap::<12>::new();
    heap.add_to_heap(0x3000, 0x3800);
    let l = Layout::from_size_align(64, 8).unwrap();
    let a = heap.alloc_(l).unwrap();
    heap.write_word(a + 8, 7);
    heap.write_word(a + 56, 9);
    assert_eq!(heap.read_word(a + 8), 7);
    assert_eq!(heap.read_word(a + 56), 9);
    heap.dealloc_(a, l);
    assert_eq!(heap.alloc_(l), Ok(a));
}

#[test]
fn empty_constructor_matches_new() {
    let mut heap = LockFreeHeap::<32>::empty();
    assert_eq!(heap.stats_total_bytes(), 0);
    assert_eq!(heap.stats_alloc_user(), 0);
    assert_eq!(heap.stats_alloc_actual(), 0);
    assert!(heap.alloc_(Layout::from_size_align(1, 1).unwrap()).is_err());
}

#[test]
fn init_carves_as_add_to_heap_does() {
    let mut a = LockFreeHeap::<32>::new();
    let mut b = LockFreeHeap::<32>::new();
    a.init(0x10008, 800);
    b.add_to_heap(0x10008, 0x10008 + 800);
    assert_eq!(a.stats_total_bytes(), b.stats_total_bytes());
    assert_eq!(a.stats_total_bytes(), 784);
    let l = Layout::from_size_align(16, 1).unwrap();
    loop {
        let x = a.alloc_(l);
        let y = b.alloc_(l);
        assert_eq!(x, y);
        if x.is_err() {
            break;
        }
    }
}

#[test]
fn alloc_then_free_restores_the_blocks() {
    let mut heap = LockFreeHeap::<16>::new();
    heap.add_to_heap(0x4000, 0x4000 + 1024);
    let small = Layout::from_size_align(16, 1).unwrap();
    let a = heap.alloc_(small).unwrap();
    assert_eq!(a, 0x4000);
    heap.dealloc_(a, small);
    // everything merged back: the whole kilobyte is one block again
    let whole = Layout::from_size_align(1024, 1).unwrap();
    assert_eq!(heap.alloc_(whole), Ok(0x4000));
    assert_eq!(heap.stats_alloc_user(), 1024);
}
