use treewalk::DfTraverse;
use treewalk::Tree;
use treewalk::U32Tree;

fn leaf(value: u32) -> U32Tree {
    U32Tree { value, children: vec![] }
}

/// The seed tree: root 0 with children [4, 1]; node 4 has one child 5;
/// node 1 has children [3, 2] in that declared order.
fn seed_tree() -> U32Tree {
    U32Tree {
        value: 0,
        children: vec![
            U32Tree { value: 4, children: vec![leaf(5)] },
            U32Tree { value: 1, children: vec![leaf(3), leaf(2)] },
        ],
    }
}

fn collect_values(tree: &U32Tree) -> Vec<u32> {
    let mut it = tree.df_traverse();
    let mut values = Vec::new();
    while let Some(node) = it.next() {
        values.push(node.value);
    }
    values
}

#[test]
fn df_traversal() {
    let tree = seed_tree();
    let result: Vec<u32> = collect_values(&tree);
    assert_eq!(result, vec![0, 1, 2, 3, 4, 5]);
}

#[test]
fn collect_remaining_matches_next_loop() {
    let tree = seed_tree();
    let collected: Vec<u32> = tree
        .df_traverse()
        .collect_remaining()
        .iter()
        .map(|node| node.value)
        .collect();
    assert_eq!(collected, collect_values(&tree));
}

#[test]
fn leaf_produces_only_the_root() {
    let tree = leaf(7);
    assert_eq!(collect_values(&tree), vec![7]);
}

#[test]
fn root_is_produced_first() {
    let trees = vec![leaf(3), seed_tree(), U32Tree { value: 9, children: vec![leaf(1)] }];
    for tree in &trees {
        let mut it = tree.df_traverse();
        assert_eq!(it.next().unwrap().value, tree.value);
    }
}

#[test]
fn every_node_produced_exactly_once() {
    let tree = seed_tree();
    let mut values = collect_values(&tree);
    values.sort();
    assert_eq!(values, vec![0, 1, 2, 3, 4, 5]);
}

#[test]
fn ancestors_come_before_descendants() {
    let tree = seed_tree();
    let values = collect_values(&tree);
    let pos = |v: u32| values.iter().position(|x| *x == v).unwrap();
    for v in 1..=5 {
        assert!(pos(0) < pos(v));
    }
    assert!(pos(4) < pos(5));
    assert!(pos(1) < pos(3));
    assert!(pos(1) < pos(2));
}

#[test]
fn exhausted_iterator_keeps_returning_none() {
    let tree = seed_tree();
    let mut it = tree.df_traverse();
    while it.next().is_some() {}
    for _ in 0..3 {
        assert!(it.next().is_none());
    }
}

#[test]
fn restarted_traversals_are_independent_and_identical() {
    let tree = seed_tree();
    let mut first = tree.df_traverse();
    let mut second = tree.df_traverse();
    // Consuming the first iterator does not advance the second.
    while first.next().is_some() {}
    assert_eq!(second.next().unwrap().value, 0);
    let third = tree.df_traverse();
    let mut from_second = vec![second.next().unwrap().value];
    while let Some(node) = second.next() {
        from_second.push(node.value);
    }
    let from_third: Vec<u32> =
        third.collect_remaining().iter().map(|node| node.value).collect();
    assert_eq!(from_third, vec![0, 1, 2, 3, 4, 5]);
    assert_eq!(from_second, vec![1, 2, 3, 4, 5]);
}

#[test]
fn children_are_enumerated_in_declared_order() {
    let tree = seed_tree();
    let kids = tree.children();
    let values: Vec<u32> = kids.iter().map(|node| node.value).collect();
    assert_eq!(values, vec![4, 1]);
    assert!(leaf(8).children().is_empty());
}

#[test]
fn partially_consumed_traversal_yields_the_rest() {
    let tree = seed_tree();
    let mut it = tree.df_traverse();
    assert_eq!(it.next().unwrap().value, 0);
    assert_eq!(it.next().unwrap().value, 1);
    let rest: Vec<u32> = it.collect_remaining().iter().map(|node| node.value).collect();
    assert_eq!(rest, vec![2, 3, 4, 5]);
}
