use lock_free_buddy::{Layout, LockFreeHeap};

/// Bytes in a machine word, as the backing arrays count them.
const WORD: usize = 8;
/// Where the backing array of each test sits in the simulated address space.
const SPACE: usize = 0x10000;

#[test]
fn test_empty_heap() {
    let mut heap = LockFreeHeap::<32>::new();
    assert!(heap.alloc_(Layout::from_size_align(1, 1).unwrap()).is_err());
}

#[test]
fn test_heap_add() {
    let mut heap = LockFreeHeap::<32>::with_data_base(SPACE);
    assert!(heap.alloc_(Layout::from_size_align(1, 1).unwrap()).is_err());

    heap.add_to_heap(SPACE, SPACE + 100 * WORD);
    let addr = heap.alloc_(Layout::from_size_align(1, 1).unwrap());
    assert!(addr.is_ok());
}

#[test]
fn test_heap_add_large() {
    // Max size of block is 2^7 == 128 bytes
    let mut heap = LockFreeHeap::<8>::with_data_base(SPACE);
    assert!(heap.alloc_(Layout::from_size_align(1, 1).unwrap()).is_err());

    // 512 bytes of space
    heap.add_to_heap(SPACE, SPACE + 64 * WORD);
    let addr = heap.alloc_(Layout::from_size_align(1, 1).unwrap());
    assert!(addr.is_ok());
}

#[test]
fn test_heap_oom() {
    let mut heap = LockFreeHeap::<32>::with_data_base(SPACE);
    heap.add_to_heap(SPACE, SPACE + 100 * WORD);

    assert!(heap
        .alloc_(Layout::from_size_align(100 * WORD, 1).unwrap())
        .is_err());
    assert!(heap.alloc_(Layout::from_size_align(1, 1).unwrap()).is_ok());
}

#[test]
fn test_heap_alloc_and_free() {
    let mut heap = LockFreeHeap::<32>::with_data_base(SPACE);
    assert!(heap.alloc_(Layout::from_size_align(1, 1).unwrap()).is_err());

    heap.add_to_heap(SPACE, SPACE + 100 * WORD);
    for _ in 0..100 {
        let addr = heap.alloc_(Layout::from_size_align(1, 1).unwrap()).unwrap();
        heap.dealloc_(addr, Layout::from_size_align(1, 1).unwrap());
    }
    assert_eq!(heap.stats_alloc_user(), 0);
    assert_eq!(heap.stats_alloc_actual(), 0);
}

#[test]
fn test_heap_merge_final_order() {
    const NUM_ORDERS: usize = 5;

    let backing_size = 1 << NUM_ORDERS;

    // an allocation aligned to its own size, as the host allocator gives it
    let start = 0x40 * backing_size;
    let middle = start + backing_size / 2;
    let end = start + backing_size;

    // create a new heap with 5 orders
    let mut heap = LockFreeHeap::<NUM_ORDERS>::with_data_base(start);

    // add two contiguous ranges of memory
    heap.add_to_heap(start, middle);
    heap.add_to_heap(middle, end);

    // NUM_ORDERS - 1 is the maximum order of the heap
    let layout = Layout::from_size_align(1 << (NUM_ORDERS - 1), 1).unwrap();

    // allocation should succeed, using one of the added ranges
    let alloc = heap.alloc_(layout).unwrap();

    // deallocation should not attempt to merge the two contiguous ranges as the next order does not exist
    heap.dealloc_(alloc, layout);

    // both halves are free again, neither merged into a block the heap cannot hold
    let again = heap.alloc_(layout).unwrap();
    let other = heap.alloc_(layout).unwrap();
    assert_ne!(again, other);
    assert!(heap.alloc_(layout).is_err());
}

const SMALL_SIZE: usize = 8;
const LARGE_SIZE: usize = 1024 * 1024; // 1M
const ALIGN: usize = 8;
const ORDER: usize = 33;
const KERNEL_HEAP_SIZE: usize = 128 * 1024 * 1024;
const HEAP_START: usize = 0x1000_0000;

#[test]
fn test_singlethread() {
    let mut heap = LockFreeHeap::<ORDER>::new();
    heap.init(HEAP_START, KERNEL_HEAP_SIZE);
    let small_layout = Layout::from_size_align(SMALL_SIZE, ALIGN).unwrap();
    let small_addr = heap.alloc_(small_layout);
    assert!(small_addr.is_ok());
    let small_addr = small_addr.unwrap();
    heap.write_word(small_addr, 42);
    assert!(heap.read_word(small_addr) == 42);
    let large_layout = Layout::from_size_align(LARGE_SIZE, ALIGN).unwrap();
    let large_addr = heap.alloc_(large_layout);
    assert!(large_addr.is_ok());
    let large_addr = large_addr.unwrap();
    heap.write_word(large_addr, 42);
    assert!(heap.read_word(large_addr) == 42);
    heap.dealloc_(small_addr, small_layout);
    heap.dealloc_(large_addr, large_layout);
}
