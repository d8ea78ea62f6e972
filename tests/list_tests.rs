use lock_free_buddy::{get_data_base, LinkedList, Memory, DELETE_MARK, NULL_PTR};

/// Addresses of four two-word nodes in a segment based at `base`.
fn nodes_at(base: usize) -> [usize; 4] {
    [base + 0x100, base + 0x110, base + 0x120, base + 0x130]
}

#[test]
fn list_tests_test_linked_list_func() {
    let mut mem = Memory::new(0x8000);
    let [value1, value2, value3, value4] = nodes_at(0x8000);
    let mut list = LinkedList::new();
    list.push(&mut mem, value1);
    list.push(&mut mem, value2);
    list.push(&mut mem, value3);
    list.push(&mut mem, value4);

    // Test links
    assert_eq!(mem.read(value4), value3 - get_data_base(&mem));
    assert_eq!(mem.read(value3), value2 - get_data_base(&mem));
    assert_eq!(mem.read(value2), value1 - get_data_base(&mem));
    assert_eq!(mem.read(value1), NULL_PTR);

    // Test delete
    assert_eq!(list.delete(&mut mem, value2), true);
    assert_eq!(list.delete(&mut mem, value2), false);
    assert_eq!(list.delete(&mut mem, value4), true);
    assert_eq!(list.delete(&mut mem, value4), false);
    assert_eq!(list.delete(&mut mem, value3), true);
    assert_eq!(list.delete(&mut mem, value3), false);
    assert_eq!(list.delete(&mut mem, value1), true);
    assert_eq!(list.delete(&mut mem, value1), false);

    list.push(&mut mem, value1);
    list.push(&mut mem, value2);
    list.push(&mut mem, value3);
    list.push(&mut mem, value4);

    // Test pop
    assert_eq!(list.pop(&mut mem), Some(value4));
    assert_eq!(list.pop(&mut mem), Some(value3));
    assert_eq!(list.pop(&mut mem), Some(value2));
    assert_eq!(list.pop(&mut mem), Some(value1));
    assert_eq!(list.pop(&mut mem), None);
}

/// Sets the deletion mark in the link of the node at `node`.
fn mark(mem: &mut Memory, node: usize) {
    let v = mem.read(node);
    mem.write(node, v | DELETE_MARK);
}

#[test]
fn list_tests_test_delete() {
    let mut mem = Memory::new(0);
    let [value1, value2, value3, _] = nodes_at(0x1000);
    let mut list = LinkedList::new();

    // deleting a missing element from an empty list
    assert_eq!(list.delete(&mut mem, value1), false);
    assert_eq!(list.pop(&mut mem), None);

    // deleting a missing element, one element
    list.push(&mut mem, value1);
    assert_eq!(list.delete(&mut mem, value2), false);
    assert_eq!(list.pop(&mut mem), Some(value1));
    assert_eq!(list.pop(&mut mem), None);

    // deleting a missing element, one element whose tail is marked
    list.push(&mut mem, value1);
    mark(&mut mem, value1);
    assert_eq!(list.delete(&mut mem, value2), false);
    assert_eq!(list.pop(&mut mem), None);

    // deleting a missing element, more than one element
    list.push(&mut mem, value1);
    list.push(&mut mem, value2);
    assert_eq!(list.delete(&mut mem, value3), false);
    assert_eq!(list.pop(&mut mem), Some(value2));
    assert_eq!(list.pop(&mut mem), Some(value1));
    assert_eq!(list.pop(&mut mem), None);

    // deleting a missing element, more than one element, tail marked
    list.push(&mut mem, value1);
    list.push(&mut mem, value2);
    mark(&mut mem, value1);
    assert_eq!(list.delete(&mut mem, value3), false);
    assert_eq!(list.pop(&mut mem), Some(value2));
    assert_eq!(list.pop(&mut mem), None);

    // deleting a missing element, more than one element, the tail's predecessor marked
    list.push(&mut mem, value1);
    list.push(&mut mem, value2);
    mark(&mut mem, value2);
    assert_eq!(list.delete(&mut mem, value3), false);
    assert_eq!(list.pop(&mut mem), Some(value1));
    assert_eq!(list.pop(&mut mem), None);

    // deleting a present element, one element
    list.push(&mut mem, value1);
    assert_eq!(list.delete(&mut mem, value1), true);
    assert_eq!(list.pop(&mut mem), None);

    // deleting a present element, one element, the target marked
    list.push(&mut mem, value1);
    mark(&mut mem, value1);
    assert_eq!(list.delete(&mut mem, value1), false);
    assert_eq!(list.pop(&mut mem), None);

    // deleting a present element, more than one element
    list.push(&mut mem, value1);
    list.push(&mut mem, value2);
    assert_eq!(list.delete(&mut mem, value1), true);
    assert_eq!(list.pop(&mut mem), Some(value2));
    assert_eq!(list.pop(&mut mem), None);

    // deleting a present element, more than one element, the target marked
    list.push(&mut mem, value1);
    list.push(&mut mem, value2);
    mark(&mut mem, value1);
    assert_eq!(list.delete(&mut mem, value1), false);
    assert_eq!(list.pop(&mut mem), Some(value2));
    assert_eq!(list.pop(&mut mem), None);

    // deleting a present element, more than one element, the target's predecessor marked
    list.push(&mut mem, value1);
    list.push(&mut mem, value2);
    mark(&mut mem, value2);
    assert_eq!(list.delete(&mut mem, value1), true);
    assert_eq!(list.pop(&mut mem), None);
}

/// Pushes value3, value2, value1 (so the list reads value1, value2, value3),
/// then marks the nodes whose flag is set.
fn three_nodes(list: &mut LinkedList, mem: &mut Memory, nodes: [usize; 3], marks: [bool; 3]) {
    list.push(mem, nodes[2]);
    list.push(mem, nodes[1]);
    list.push(mem, nodes[0]);
    for i in 0..3 {
        if marks[i] {
            mark(mem, nodes[i]);
        }
    }
}

fn drain(list: &mut LinkedList, mem: &mut Memory) {
    while let Some(_) = list.pop(mem) {}
}

#[test]
fn test_search() {
    let mut mem = Memory::new(0);
    let [value1, value2, value3, _] = nodes_at(0x1000);
    let nodes = [value1, value2, value3];
    let mut list = LinkedList::new();

    // marks: none, none, none
    three_nodes(&mut list, &mut mem, nodes, [false, false, false]);
    let (left_node, right_node) = list.search_with_ptr(&mut mem, value2);
    assert!(left_node == Some(value1));
    assert!(right_node.ptr() == value2);
    // list: head-->value1-->value2-->value3-->NULL
    assert_eq!(list.head_value(), value1);
    assert_eq!(mem.read(value1), value2);
    assert_eq!(mem.read(value2), value3);
    assert_eq!(mem.read(value3), NULL_PTR);
    drain(&mut list, &mut mem);

    // marks: none, none, set
    three_nodes(&mut list, &mut mem, nodes, [false, false, true]);
    let (left_node, right_node) = list.search_with_ptr(&mut mem, value2);
    assert!(left_node == Some(value1));
    assert!(right_node.ptr() == value2);
    // list: head-->value1-->value2-->value3(marked)-->NULL
    assert_eq!(list.head_value(), value1);
    assert_eq!(mem.read(value1), value2);
    assert_eq!(mem.read(value2), value3);
    assert_eq!(mem.read(value3), NULL_PTR | DELETE_MARK);
    drain(&mut list, &mut mem);

    // marks: none, set, none
    three_nodes(&mut list, &mut mem, nodes, [false, true, false]);
    let (left_node, right_node) = list.search_with_ptr(&mut mem, value2);
    assert!(left_node == Some(value1));
    assert!(right_node.ptr() == value3);
    // list: head-->value1-->value3-->NULL
    assert_eq!(list.head_value(), value1);
    assert_eq!(mem.read(value1), value3);
    assert_eq!(mem.read(value3), NULL_PTR);
    drain(&mut list, &mut mem);

    // marks: none, set, set
    three_nodes(&mut list, &mut mem, nodes, [false, true, true]);
    let (left_node, right_node) = list.search_with_ptr(&mut mem, value2);
    assert!(left_node == Some(value1));
    assert!(right_node.ptr() == NULL_PTR);
    // list: head-->value1-->NULL
    assert_eq!(list.head_value(), value1);
    assert_eq!(mem.read(value1), NULL_PTR);
    drain(&mut list, &mut mem);

    // marks: set, none, none
    three_nodes(&mut list, &mut mem, nodes, [true, false, false]);
    let (left_node, right_node) = list.search_with_ptr(&mut mem, value2);
    assert!(left_node.is_none());
    assert!(right_node.ptr() == value2);
    // list: head-->value2-->value3-->NULL
    assert_eq!(list.head_value(), value2);
    assert_eq!(mem.read(value2), value3);
    assert_eq!(mem.read(value3), NULL_PTR);
    drain(&mut list, &mut mem);

    // marks: set, none, set
    three_nodes(&mut list, &mut mem, nodes, [true, false, true]);
    let (left_node, right_node) = list.search_with_ptr(&mut mem, value2);
    assert!(left_node.is_none());
    assert!(right_node.ptr() == value2);
    // list: head-->value2-->value3(marked)-->NULL
    assert_eq!(list.head_value(), value2);
    assert_eq!(mem.read(value2), value3);
    assert_eq!(mem.read(value3), NULL_PTR | DELETE_MARK);
    drain(&mut list, &mut mem);

    // marks: set, set, none
    three_nodes(&mut list, &mut mem, nodes, [true, true, false]);
    let (left_node, right_node) = list.search_with_ptr(&mut mem, value2);
    assert!(left_node.is_none());
    assert!(right_node.ptr() == value3);
    // list: head-->value3-->NULL
    assert_eq!(list.head_value(), value3);
    assert_eq!(mem.read(value3), NULL_PTR);
    drain(&mut list, &mut mem);

    // marks: set, set, set
    three_nodes(&mut list, &mut mem, nodes, [true, true, true]);
    let (left_node, right_node) = list.search_with_ptr(&mut mem, value2);
    assert!(left_node.is_none());
    assert!(right_node.ptr() == NULL_PTR);
    // list: head-->NULL
    assert_eq!(list.head_value(), NULL_PTR);
    drain(&mut list, &mut mem);
}

#[test]
fn test_linked_list() {
    let mut mem = Memory::new(0x8000);
    let [value1, value2, value3, value4] = nodes_at(0x8000);
    let mut list = LinkedList::new();
    list.push(&mut mem, value1);
    list.push(&mut mem, value2);
    list.push(&mut mem, value3);
    list.push(&mut mem, value4);

    // Test links: the stored links are offsets from the base
    assert_eq!(mem.read(value4) + get_data_base(&mem), value3);
    assert_eq!(mem.read(value3) + get_data_base(&mem), value2);
    assert_eq!(mem.read(value2) + get_data_base(&mem), value1);
    assert_eq!(mem.read(value1), NULL_PTR);

    // Test delete
    assert_eq!(list.delete(&mut mem, value2), true);
    assert_eq!(list.delete(&mut mem, value4), true);
    assert_eq!(list.delete(&mut mem, value4), false);

    // Test pop
    assert_eq!(list.pop(&mut mem), Some(value3));
    assert_eq!(list.pop(&mut mem), Some(value1));
    assert_eq!(list.pop(&mut mem), None);
}
