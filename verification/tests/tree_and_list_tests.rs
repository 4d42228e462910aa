use arena_collections::linked_list::LinkedList;
use arena_collections::narytree::{NaryTree, NaryNode, NULL};

#[test]
fn tree_allocate_free_recycle() {
    let mut tree = NaryTree::<i32>::new();
    assert_eq!(tree.root, NULL);
    let first = tree.allocate_node(Some(5));
    assert_eq!(first, 0);
    assert_eq!(tree.memory[first as usize].data, Some(5));
    tree.free_node(first);
    assert_eq!(tree.memory[first as usize].data, None);
    let again = tree.allocate_node(Some(6));
    assert_eq!(again, first);
    assert_eq!(tree.memory[again as usize].data, Some(6));
    assert_eq!(tree.memory[again as usize].parent, NULL);
    assert!(tree.memory[again as usize].children.is_empty());
    tree.free_node(NULL);
    tree.clear();
    assert_eq!(tree.root, NULL);
    assert!(tree.memory.is_empty());
    assert!(tree.node_pool.is_empty());
}

#[test]
fn tree_node_add_child_and_nullify() {
    let mut node = NaryNode::<i32> { parent: NULL, data: Some(1), children: Vec::new() };
    node.add_child(3, 7);
    assert_eq!(node.children, vec![3]);
    assert_eq!(node.parent, 7);
    node.nullify();
    assert_eq!(node.parent, NULL);
    assert_eq!(node.data, None);
    assert!(node.children.is_empty());
}

#[test]
fn linked_list_operations() {
    let mut list = LinkedList::<i32>::new();
    assert_eq!(list.len(), 0);
    assert_eq!(list.pop_rear(), None);
    list.push_front(1);
    list.push_front(2);
    list.push_front(3);
    assert_eq!(list.len(), 3);
    let values: Vec<i32> = list.to_refs().into_iter().copied().collect();
    assert_eq!(values, vec![3, 2, 1]);
    let front = list.front_ptr();
    let rear = list.rear_ptr();
    assert_eq!(list.peek(front), Some(&3));
    assert_eq!(list.peek(rear), Some(&1));
    assert_eq!(list.remove(front), Some(3));
    assert_eq!(list.remove(front), None);
    assert_eq!(list.remove(99999), None);
    assert_eq!(list.pop_rear(), Some(1));
    assert_eq!(list.pop_rear(), Some(2));
    assert_eq!(list.pop_rear(), None);
    assert_eq!(list.len(), 0);
}

#[test]
fn linked_list_recycles_slots() {
    let mut list = LinkedList::<i32>::new();
    list.push_front(1);
    list.push_front(2);
    let front = list.front_ptr();
    assert_eq!(list.remove(front), Some(2));
    list.push_front(3);
    assert_eq!(list.front_ptr(), front);
    let values: Vec<i32> = list.to_refs().into_iter().copied().collect();
    assert_eq!(values, vec![3, 1]);
}
