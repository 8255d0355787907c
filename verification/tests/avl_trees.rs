use std::collections::BTreeMap;

use rust_trees::avl::AVL;

fn check_tree(tree: &AVL<u32, u32>, expected_size: u32) {
    assert!(tree.check_balance());
    assert_eq!(expected_size as usize, tree.len());
}

fn shape(tree: &AVL<u32, u32>) -> Vec<(u32, i8)> {
    tree.nodes().into_iter().map(|(k, m)| (*k, *m)).collect()
}

fn build(keys: &[u32]) -> AVL<u32, u32> {
    let mut tree = AVL::new();
    for k in keys {
        tree.insert(*k, *k * 10);
        assert!(tree.check_balance());
    }
    tree
}

/// A small generator of numbers that look random, the same on every run.
fn next_number(state: &mut u64) -> u32 {
    *state = state.wrapping_mul(6364136223846793005).wrapping_add(1442695040888963407);
    (*state >> 33) as u32
}

#[test]
fn avl_test_inserting_and_deleting_keeps_tree_balanced() {
    let vec: Vec<u32> = (0..1000).collect();
    let mut tree = AVL::new();
    for (i, j) in vec.iter().enumerate() {
        tree.insert(j.clone(), j.clone());
        check_tree(&tree, (i + 1) as u32);
    }
    for j in vec.iter() {
        assert_eq!(Some(j), tree.find(j));
    }
    assert!(!tree.is_empty());
    let mut size = vec.len();
    for j in vec.iter() {
        assert_eq!(Some((j.clone(), j.clone())), tree.remove(j));
        size -= 1;
        if size > 0 {
            check_tree(&tree, size as u32);
        } else {
            assert!(tree.is_empty());
        }
    }
}

#[test]
fn avl_new_tree_is_empty() {
    let mut tree: AVL<u32, u32> = AVL::new();
    assert!(tree.is_empty());
    assert_eq!(0, tree.len());
    assert!(tree.check_balance());
    assert_eq!(None, tree.find(&1));
    assert_eq!(None, tree.min());
    assert_eq!(None, tree.max());
    assert_eq!(None, tree.next(&1));
    assert_eq!(None, tree.remove(&1));
    assert!(tree.nodes().is_empty());
}

#[test]
fn avl_ascending_keys_rotate_left_once() {
    let tree = build(&[1, 2, 3]);
    assert_eq!(vec![(2, 0), (1, 0), (3, 0)], shape(&tree));
}

#[test]
fn avl_descending_keys_rotate_right_once() {
    let tree = build(&[3, 2, 1]);
    assert_eq!(vec![(2, 0), (1, 0), (3, 0)], shape(&tree));
}

#[test]
fn avl_zigzag_on_the_left_takes_a_double_rotation() {
    let tree = build(&[3, 1, 2]);
    assert_eq!(vec![(2, 0), (1, 0), (3, 0)], shape(&tree));
}

#[test]
fn avl_zigzag_on_the_right_takes_a_double_rotation() {
    let tree = build(&[1, 3, 2]);
    assert_eq!(vec![(2, 0), (1, 0), (3, 0)], shape(&tree));
}

#[test]
fn avl_balance_factors_record_the_deeper_side() {
    assert_eq!(vec![(1, 1), (2, 0)], shape(&build(&[1, 2])));
    assert_eq!(vec![(2, -1), (1, 0)], shape(&build(&[2, 1])));
    assert_eq!(vec![(2, 1), (1, 0), (3, 1), (4, 0)], shape(&build(&[2, 1, 3, 4])));
}

#[test]
fn avl_double_rotation_hands_the_lean_to_the_children() {
    // the middle node leans left when it comes to the top
    let tree = build(&[50, 20, 60, 10, 40, 30]);
    assert_eq!(
        vec![(40, 0), (20, 0), (10, 0), (30, 0), (50, 1), (60, 0)],
        shape(&tree)
    );
    // the middle node leans right when it comes to the top
    let tree = build(&[50, 20, 60, 10, 30, 40]);
    assert_eq!(
        vec![(30, 0), (20, -1), (10, 0), (50, 0), (40, 0), (60, 0)],
        shape(&tree)
    );
}

#[test]
fn avl_removal_with_level_sibling_rotates_and_keeps_depth() {
    let mut tree = build(&[2, 1, 4, 3, 5]);
    assert_eq!(Some((1, 10)), tree.remove(&1));
    assert_eq!(vec![(4, -1), (2, 1), (3, 0), (5, 0)], shape(&tree));
    assert!(tree.check_balance());
}

#[test]
fn avl_removal_of_node_with_two_children_takes_the_next_key() {
    let mut tree = build(&[4, 2, 6, 1, 3, 5, 7]);
    assert_eq!(Some((4, 40)), tree.remove(&4));
    assert_eq!(
        vec![(5, 0), (2, 0), (1, 0), (3, 0), (6, 1), (7, 0)],
        shape(&tree)
    );
    assert_eq!(None, tree.find(&4));
    assert_eq!(Some(&50), tree.find(&5));
    assert_eq!(Some((2, 20)), tree.remove(&2));
    assert_eq!(vec![(5, 0), (3, -1), (1, 0), (6, 1), (7, 0)], shape(&tree));
}

#[test]
fn avl_removal_of_node_with_one_child_splices_it_out() {
    let mut tree = build(&[2, 1, 3, 4]);
    assert_eq!(Some((3, 30)), tree.remove(&3));
    assert_eq!(vec![(2, 0), (1, 0), (4, 0)], shape(&tree));
    let mut tree = build(&[3, 2, 4, 1]);
    assert_eq!(Some((2, 20)), tree.remove(&2));
    assert_eq!(vec![(3, 0), (1, 0), (4, 0)], shape(&tree));
}

#[test]
fn avl_removal_from_the_top_puts_the_next_key_there() {
    let mut tree = build(&[2, 1, 3]);
    assert_eq!(Some((2, 20)), tree.remove(&2));
    assert_eq!(vec![(3, -1), (1, 0)], shape(&tree));
}

#[test]
fn avl_removal_of_a_missing_key_leaves_the_tree_as_it_is() {
    let mut tree = build(&[5, 3, 8, 1, 4, 7, 9, 2]);
    let before = shape(&tree);
    for missing in [0, 6, 10] {
        assert_eq!(None, tree.remove(&missing));
        assert_eq!(before, shape(&tree));
        assert_eq!(8, tree.len());
    }
    for k in [5, 3, 8, 1, 4, 7, 9, 2] {
        assert_eq!(Some(&(k * 10)), tree.find(&k));
    }
    let mut tree = build(&[1, 2]);
    assert_eq!(None, tree.remove(&0));
    assert_eq!(vec![(1, 1), (2, 0)], shape(&tree));
}

#[test]
fn avl_size_law() {
    let mut tree = build(&[5, 3, 8]);
    assert_eq!(3, tree.len());
    tree.insert(4, 40);
    assert_eq!(4, tree.len());
    tree.insert(4, 41);
    assert_eq!(4, tree.len());
    assert_eq!(Some((3, 30)), tree.remove(&3));
    assert_eq!(3, tree.len());
    assert_eq!(None, tree.remove(&3));
    assert_eq!(3, tree.len());
}

#[test]
fn avl_insert_of_present_key_changes_the_value_only() {
    let mut tree = build(&[5, 3, 8, 1, 4, 7, 9, 2]);
    let before = shape(&tree);
    tree.insert(4, 4000);
    assert_eq!(before, shape(&tree));
    assert_eq!(Some(&4000), tree.find(&4));
    assert_eq!(Some(&50), tree.find(&5));
    assert_eq!(8, tree.len());
}

#[test]
fn avl_round_trip_in_any_order() {
    let keys: Vec<u32> = vec![12, 5, 30, 1, 7, 20, 40, 6, 8, 25, 35, 45, 3];
    let removal: Vec<u32> = vec![7, 45, 12, 1, 35, 6, 30, 3, 25, 8, 40, 20, 5];
    let mut tree = build(&keys);
    assert_eq!(keys.len(), tree.len());
    for k in removal.iter() {
        assert_eq!(Some((*k, *k * 10)), tree.remove(k));
        assert!(tree.check_balance());
    }
    assert!(tree.is_empty());
    for k in keys.iter() {
        assert_eq!(None, tree.find(k));
    }
}

#[test]
fn avl_agrees_with_a_sorted_map_under_mixed_operations() {
    let mut state: u64 = 7;
    let mut tree: AVL<u32, u32> = AVL::new();
    let mut model: BTreeMap<u32, u32> = BTreeMap::new();
    for step in 0..4000u32 {
        let key = next_number(&mut state) % 200;
        if next_number(&mut state) % 3 == 0 {
            assert_eq!(model.remove(&key).map(|v| (key, v)), tree.remove(&key));
        } else {
            tree.insert(key, step);
            model.insert(key, step);
        }
        assert!(tree.check_balance());
        assert_eq!(model.len(), tree.len());
        assert_eq!(model.get(&key), tree.find(&key));
        assert_eq!(model.iter().next(), tree.min());
        assert_eq!(model.iter().next_back(), tree.max());
        assert_eq!(model.range(key + 1..).next(), tree.next(&key));
    }
}

#[test]
fn avl_depth_stays_logarithmic() {
    let mut tree: AVL<u32, u32> = AVL::new();
    for k in 0..1023u32 {
        tree.insert(k, k);
    }
    // with 1023 keys inserted in ascending order the tree is perfect
    let nodes = shape(&tree);
    assert_eq!(1023, nodes.len());
    assert!(nodes.iter().all(|(_, m)| *m == 0));
    assert_eq!((511, 0), nodes[0]);
}
