use lock_free_buddy::{LinkedList, MarkedPtr, Memory, NodePtr, DELETE_MARK, NULL_PTR};

#[test]
fn marked_ptr_bits() {
    let m = MarkedPtr::from_value(0x40);
    assert!(!m.is_marked());
    assert_eq!(m.mark(), 0x41);
    assert_eq!(m.unmark(), 0x40);
    assert_eq!(m.value(), 0x40);
    let marked = MarkedPtr::from_value(0x41);
    assert!(marked.is_marked());
    assert_eq!(marked.unmark(), 0x40);
    assert!(MarkedPtr::from_value(NULL_PTR | DELETE_MARK).is_null());
    assert!(!MarkedPtr::from_value(0).is_null());
}

#[test]
fn links_are_offsets_from_the_base() {
    let mem = Memory::new(0x8000);
    let link = MarkedPtr::from_value(0x40);
    assert_eq!(link.ptr(&mem), 0x8040);
    assert_eq!(link.marked_ptr(&mem).value(), 0x8040);
    let marked = MarkedPtr::from_value(0x41);
    assert_eq!(marked.marked_ptr(&mem).value(), 0x8041);
    assert_eq!(MarkedPtr::from_value(NULL_PTR).ptr(&mem), NULL_PTR);
    let handle = NodePtr::from_value(0x8041);
    assert_eq!(handle.linked_value(&mem), 0x41);
    assert_eq!(handle.ptr(), 0x8040);
    assert!(handle.is_marked());
    assert_eq!(NodePtr::null().linked_value(&mem), NULL_PTR);
    assert!(NodePtr::null().is_null());
}

#[test]
fn node_handle_next_reads_the_link() {
    let mut mem = Memory::new(0x8000);
    let mut list = LinkedList::new();
    list.push(&mut mem, 0x8100);
    list.push(&mut mem, 0x8200);
    let first = NodePtr::from_value(0x8200);
    let next = first.next(&mem).unwrap();
    assert_eq!(next.ptr(), 0x8100);
    assert!(!next.is_marked());
    let last = next.next(&mem).unwrap();
    assert!(last.is_null());
    assert!(NodePtr::null().next(&mem).is_none());
}

#[test]
fn pushed_element_is_deleted_exactly_once() {
    let mut mem = Memory::new(0);
    let mut list = LinkedList::new();
    list.push(&mut mem, 0x100);
    list.push(&mut mem, 0x200);
    assert!(list.delete(&mut mem, 0x100));
    assert!(!list.delete(&mut mem, 0x100));
    assert_eq!(list.pop(&mut mem), Some(0x200));
    assert_eq!(list.pop(&mut mem), None);
    assert!(list.is_empty(&mut mem));
}

#[test]
fn is_empty_ignores_marked_nodes() {
    let mut mem = Memory::new(0);
    let mut list = LinkedList::new();
    assert!(list.is_empty(&mut mem));
    list.push(&mut mem, 0x100);
    assert!(!list.is_empty(&mut mem));
    let v = mem.read(0x100);
    mem.write(0x100, v | DELETE_MARK);
    assert!(list.is_empty(&mut mem));
    // the marked node was unlinked on the way
    assert_eq!(list.head_value(), NULL_PTR);
}

#[test]
fn producers_and_consumers_take_each_item_once() {
    // 20 producers of 500 items each, then 10 consumers that delete their own
    // producer's items (popping instead when the item is gone) and 10 that pop;
    // run one after another.
    const PRODUCERS: usize = 20;
    const ITEMS: usize = 500;
    let base = 0x100000;
    let addr = |p: usize, j: usize| base + (p * ITEMS + j) * 16;
    let mut mem = Memory::new(base);
    let mut list = LinkedList::new();
    let mut taken = vec![0usize; PRODUCERS * ITEMS];
    let index = |a: usize| (a - base) / 16;
    for p in 0..PRODUCERS {
        for j in 0..ITEMS {
            list.push(&mut mem, addr(p, j));
        }
    }
    for c in 0..10 {
        let mut j = 0;
        while j < ITEMS {
            if list.delete(&mut mem, addr(c, j)) {
                taken[index(addr(c, j))] += 1;
                j += 1;
            } else if let Some(a) = list.pop(&mut mem) {
                taken[index(a)] += 1;
                j += 1;
            }
        }
    }
    for _ in 10..20 {
        let mut j = 0;
        while j < ITEMS {
            if let Some(a) = list.pop(&mut mem) {
                taken[index(a)] += 1;
                j += 1;
            }
        }
    }
    assert!(list.is_empty(&mut mem));
    assert!(taken.iter().all(|&n| n == 1));
}

#[test]
fn removed_nodes_are_marked() {
    let mut mem = Memory::new(0x8000);
    let mut list = LinkedList::new();
    list.push(&mut mem, 0x8100);
    list.push(&mut mem, 0x8200);
    list.push(&mut mem, 0x8300);
    // the stored links are offsets from the base
    assert_eq!(mem.read(0x8300), 0x200);
    assert_eq!(list.head_value(), 0x300);
    assert!(list.delete(&mut mem, 0x8200));
    assert_eq!(mem.read(0x8200) & DELETE_MARK, DELETE_MARK);
    assert_eq!(mem.read(0x8300), 0x100);
    assert_eq!(list.pop(&mut mem), Some(0x8300));
    assert_eq!(mem.read(0x8300) & DELETE_MARK, DELETE_MARK);
    assert_eq!(list.head_value(), 0x100);
}
