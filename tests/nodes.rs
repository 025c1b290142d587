use classic_structures::nodes::DoublyNode;

fn next_value(arena: &[DoublyNode<i32>], i: usize) -> i32 {
    arena[arena[i].next.unwrap()].value
}

fn prev_value(arena: &[DoublyNode<i32>], i: usize) -> i32 {
    arena[arena[i].prev.unwrap()].value
}

#[test]
fn build_nodes_and_swap_node() {
    // Create the nodes
    let mut arena: Vec<DoublyNode<i32>> = (1..=4).map(DoublyNode::new).collect();
    let (node_1, node_2, node_3, node_4) = (0, 1, 2, 3);

    // Set the next pointers
    arena[node_1].set_next(Some(node_2));
    arena[node_2].set_next(Some(node_3));
    arena[node_3].set_next(Some(node_4));
    assert!(next_value(&arena, node_1) == arena[node_2].value);
    assert!(next_value(&arena, node_2) == arena[node_3].value);
    assert!(next_value(&arena, node_3) == arena[node_4].value);

    // Set the prev pointers
    arena[node_4].set_prev(Some(node_3));
    arena[node_3].set_prev(Some(node_2));
    arena[node_2].set_prev(Some(node_1));

    // Remove node_2
    DoublyNode::swap(&mut arena, node_2, None);
    assert!(next_value(&arena, node_1) == arena[node_3].value);
    assert!(prev_value(&arena, node_3) == arena[node_1].value);
    // Remove node_1
    DoublyNode::swap(&mut arena, node_1, None);
    assert!(arena[node_3].prev.is_none());
    assert!(prev_value(&arena, node_4) == arena[node_3].value);

    // Remove node_4
    DoublyNode::swap(&mut arena, node_4, None);
    assert!(arena[node_3].next.is_none());
}

#[test]
fn build_nodes() {
    // Create the nodes
    let mut arena: Vec<DoublyNode<i32>> = [1, 2, 3, 4, 40, 50, 60]
        .into_iter()
        .map(DoublyNode::new)
        .collect();
    let (node_1, node_2, node_3, node_4) = (0, 1, 2, 3);
    let (node_40, node_50, node_60) = (4, 5, 6);
    // Set the next pointers
    arena[node_1].set_next(Some(node_2));
    arena[node_2].set_next(Some(node_3));
    arena[node_3].set_next(Some(node_4));
    assert!(next_value(&arena, node_1) == arena[node_2].value);
    assert!(next_value(&arena, node_2) == arena[node_3].value);
    assert!(next_value(&arena, node_3) == arena[node_4].value);

    // Set the prev pointers
    arena[node_4].set_prev(Some(node_3));
    arena[node_3].set_prev(Some(node_2));
    arena[node_2].set_prev(Some(node_1));
    assert!(prev_value(&arena, node_4) == arena[node_3].value);
    assert!(prev_value(&arena, node_3) == arena[node_2].value);
    assert!(prev_value(&arena, node_2) == arena[node_1].value);
    // Start swapping nodes
    DoublyNode::swap(&mut arena, node_1, Some(node_40));
    DoublyNode::swap(&mut arena, node_4, Some(node_60));
    assert!(next_value(&arena, node_40) == arena[node_2].value);
    assert!(prev_value(&arena, node_60) == arena[node_3].value);
    DoublyNode::swap(&mut arena, node_2, Some(node_50));

    assert!(next_value(&arena, node_50) == arena[node_3].value);
    assert!(prev_value(&arena, node_50) == arena[node_40].value);
}

#[test]
fn swap_returns_detached_copy() {
    let mut arena: Vec<DoublyNode<i32>> = (1..=3).map(DoublyNode::new).collect();
    arena[0].set_next(Some(1));
    arena[1].set_prev(Some(0));
    arena[1].set_next(Some(2));
    arena[2].set_prev(Some(1));
    let copy = DoublyNode::swap(&mut arena, 1, None).unwrap();
    assert_eq!(copy.value, 2);
    assert!(copy.prev.is_none() && copy.next.is_none());
    assert_eq!(arena[0].next, Some(2));
    assert_eq!(arena[2].prev, Some(0));
    // The links of the node taken out are left as they were.
    assert_eq!(arena[1].prev, Some(0));
    assert_eq!(arena[1].next, Some(2));
}
