use arena_collections::naryforest::{NaryForest, NaryNode, NULL};

#[test]
fn forest_traversal_order() {
    let mut f = NaryForest::<i32>::new();
    let a = f.allocate(1);
    let a1 = f.allocate(2);
    let a2 = f.allocate(3);
    let b = f.allocate(4);
    f.add_child(a, a1);
    f.add_child(a, a2);
    f.root_list.push(a);
    f.root_list.push(b);
    let all = f.search_all(100, |_n: &NaryNode<i32>| true);
    assert_eq!(all, vec![a, a1, a2, b]);
}

#[test]
fn search_result_cap() {
    let mut f = NaryForest::<i32>::new();
    let a = f.allocate(1);
    let a1 = f.allocate(2);
    let a2 = f.allocate(3);
    let b = f.allocate(4);
    f.add_child(a, a1);
    f.add_child(a, a2);
    f.root_list.push(a);
    f.root_list.push(b);
    let two = f.search_all(2, |_n: &NaryNode<i32>| true);
    assert_eq!(two, vec![a, a1]);
    let none = f.search_all(0, |_n: &NaryNode<i32>| true);
    assert!(none.is_empty());
}

#[test]
fn search_finds_first_match_in_preorder() {
    let mut f = NaryForest::<i32>::new();
    let a = f.allocate(1);
    let a1 = f.allocate(5);
    let a2 = f.allocate(5);
    f.add_child(a, a1);
    f.add_child(a, a2);
    f.root_list.push(a);
    assert_eq!(f.search(a, |n: &NaryNode<i32>| n.data == Some(5)), Some(a1));
    assert_eq!(f.search(a, |n: &NaryNode<i32>| n.data == Some(1)), Some(a));
    assert_eq!(f.search(a, |n: &NaryNode<i32>| n.data == Some(99)), None);
    assert_eq!(f.search(NULL, |_n: &NaryNode<i32>| true), None);
}

#[test]
fn search_and_collect_shares_one_buffer() {
    let mut f = NaryForest::<i32>::new();
    let a = f.allocate(1);
    let a1 = f.allocate(2);
    let b = f.allocate(3);
    f.add_child(a, a1);
    let mut results = Vec::new();
    f.search_and_collect(a, &mut results, 10, |_n: &NaryNode<i32>| true);
    f.search_and_collect(b, &mut results, 10, |_n: &NaryNode<i32>| true);
    assert_eq!(results, vec![a, a1, b]);
    let mut capped = Vec::new();
    f.search_and_collect(a, &mut capped, 1, |_n: &NaryNode<i32>| true);
    f.search_and_collect(b, &mut capped, 1, |_n: &NaryNode<i32>| true);
    assert_eq!(capped, vec![a]);
}

#[test]
fn recycling_returns_same_slot() {
    let mut f = NaryForest::<i32>::new();
    let x = f.allocate(7);
    let y = f.allocate(8);
    f.free(y);
    f.free(x);
    let x2 = f.allocate(9);
    assert_eq!(x2, x);
    let node = &f.memory[x2 as usize];
    assert_eq!(node.parent, NULL);
    assert_eq!(node.data, Some(9));
    assert!(node.children.is_empty());
    let y2 = f.allocate(10);
    assert_eq!(y2, y);
    assert_eq!(f.pool, NULL);
}

#[test]
fn add_child_at_bound() {
    let mut f = NaryForest::<i32>::new();
    let p = f.allocate(1);
    let c1 = f.allocate(2);
    let c2 = f.allocate(3);
    let c3 = f.allocate(4);
    f.add_child(p, c1);
    assert!(f.add_child_at(p, c2, 1).is_ok());
    assert_eq!(f.memory[p as usize].children, vec![c1, c2]);
    assert!(f.add_child_at(p, c3, 3).is_err());
    assert_eq!(f.memory[p as usize].children, vec![c1, c2]);
    assert!(f.add_child_at(p, c3, 0).is_ok());
    assert_eq!(f.memory[p as usize].children, vec![c3, c1, c2]);
    assert_eq!(f.memory[c3 as usize].parent, p);
}

#[test]
fn allocate_node_stores_the_given_node() {
    let mut f = NaryForest::<i32>::new();
    let node = NaryNode::new().with_data(42);
    let p = f.allocate_node(node);
    assert_eq!(f.memory[p as usize].data, Some(42));
    assert_eq!(f.memory[p as usize].parent, NULL);
    f.free(p);
    let reused = f.allocate_node(NaryNode::new().with_data(43));
    assert_eq!(reused, p);
    assert_eq!(f.memory[p as usize].data, Some(43));
}
