use hamt::map::BitMap;
use hamt::node::{BaseValue, Either, Node};

#[test]
fn the_empty_node_is_a_branch_without_children() {
    let node: Node<u32, u32> = Node::empty();
    match node.inner() {
        Either::Right((map, base)) => {
            assert!(map.is_empty());
            assert!(base.is_empty());
        }
        Either::Left(_) => panic!("a leaf"),
    }
}

#[test]
fn key_value_is_a_leaf() {
    let node = Node::key_value(3, "three");
    match node.inner() {
        Either::Left((key, value)) => {
            assert_eq!(*key, 3);
            assert_eq!(*value, "three");
        }
        Either::Right(_) => panic!("a branch"),
    }
}

#[test]
fn set_value_replaces_the_value_of_a_leaf() {
    let mut node = Node::key_value(3, 30);
    assert_eq!(node.set_value(31), Some(30));
    assert_eq!(node.set_value(32), Some(31));
    assert!(matches!(node.inner(), Either::Left((&3, &32))));
}

#[test]
fn set_value_leaves_a_branch_alone() {
    let mut node: Node<u32, u32> = Node::empty();
    assert_eq!(node.set_value(1), None);
    assert!(matches!(node.inner(), Either::Right(_)));
}

#[test]
fn set_base_replaces_the_children_of_a_branch() {
    let mut node: Node<u32, u32> = Node::empty();
    let previous = node.set_base(vec![Node::key_value(1, 10), Node::key_value(2, 20)]);
    assert!(matches!(previous, Some(array) if array.is_empty()));
    let previous = node.set_base(vec![Node::key_value(3, 30)]);
    match previous {
        Some(array) => {
            assert_eq!(array.len(), 2);
            assert!(matches!(array[0].inner(), Either::Left((&1, &10))));
            assert!(matches!(array[1].inner(), Either::Left((&2, &20))));
        }
        None => panic!("no array"),
    }
    match node.inner() {
        Either::Right((_, base)) => {
            assert_eq!(base.len(), 1);
            assert!(matches!(base[0].inner(), Either::Left((&3, &30))));
        }
        Either::Left(_) => panic!("a leaf"),
    }
}

#[test]
fn set_base_leaves_a_leaf_alone() {
    let mut node = Node::key_value(1, 10);
    assert!(node.set_base(Vec::new()).is_none());
    assert!(matches!(node.inner(), Either::Left((&1, &10))));
}

#[test]
fn get_map_changes_the_bitmap_of_a_branch() {
    let mut node: Node<u32, u32> = Node::empty();
    match node.get_map() {
        Some(map) => map.set(7),
        None => panic!("no bitmap"),
    }
    match node.inner() {
        Either::Right((map, _)) => assert_eq!(map.get(), 1 << 7),
        Either::Left(_) => panic!("a leaf"),
    }
}

#[test]
fn get_map_gives_nothing_for_a_leaf() {
    let mut node = Node::key_value(1, 10);
    assert!(node.get_map().is_none());
}

#[test]
fn child_mut_reaches_a_child() {
    let mut node: Node<u32, u32> = Node::empty();
    node.set_base(vec![Node::key_value(1, 10), Node::key_value(2, 20)]);
    assert_eq!(node.child_mut(1).set_value(21), Some(20));
    match node.inner() {
        Either::Right((_, base)) => {
            assert!(matches!(base[0].inner(), Either::Left((&1, &10))));
            assert!(matches!(base[1].inner(), Either::Left((&2, &21))));
        }
        Either::Left(_) => panic!("a leaf"),
    }
}

#[test]
fn into_inner_hands_out_the_parts() {
    let leaf = Node::key_value(String::from("k"), String::from("v"));
    match leaf.into_inner() {
        Either::Left((key, value)) => {
            assert_eq!(key, "k");
            assert_eq!(value, "v");
        }
        Either::Right(_) => panic!("a branch"),
    }
    let mut branch: Node<u32, u32> = Node::empty();
    branch.get_map().map(|map| map.set(2));
    branch.set_base(vec![Node::key_value(5, 50)]);
    match branch.into_inner() {
        Either::Right((map, base)) => {
            assert_eq!(map.get(), 0b100);
            assert_eq!(base.len(), 1);
        }
        Either::Left(_) => panic!("a leaf"),
    }
}

#[test]
fn the_second_word_tells_a_leaf_from_a_branch() {
    let value: BaseValue<u32, u32> = BaseValue::new_value(4);
    assert!(value.is_value());
    assert_eq!(value.get_value(), Some(&4));
    assert!(value.get_base().is_none());

    let base: BaseValue<u32, u32> = BaseValue::new_base(vec![Node::key_value(1, 2)]);
    assert!(!base.is_value());
    assert!(base.get_value().is_none());
    assert_eq!(base.get_base().map(|b| b.len()), Some(1));
}

#[test]
fn a_bitmap_of_a_branch_is_a_copy() {
    let mut node: Node<u32, u32> = Node::empty();
    let before: BitMap = match node.inner() {
        Either::Right((map, _)) => map,
        Either::Left(_) => panic!("a leaf"),
    };
    node.get_map().map(|map| map.set(1));
    assert!(before.is_empty());
}
