use std::collections::BTreeMap;

use rust_trees::rb::Color;
use rust_trees::rb::RedBlack;

fn check_tree(tree: &RedBlack<u32, u32>, expected_size: u32) {
    assert_eq!(Some(&Color::Black), tree.nodes().first().map(|n| n.1));
    assert!(tree.check_colors());
    assert_eq!(expected_size as usize, tree.len());
}

fn colors(tree: &RedBlack<u32, u32>) -> Vec<(u32, Color)> {
    tree.nodes().into_iter().map(|(k, m)| (*k, *m)).collect()
}

fn grow(keys: &[u32]) -> RedBlack<u32, u32> {
    let mut tree = RedBlack::new();
    for k in keys {
        tree.insert(*k, *k * 10);
        assert!(tree.check_colors());
    }
    tree
}

fn pseudo_random(state: &mut u64) -> u32 {
    *state = state.wrapping_mul(6364136223846793005).wrapping_add(1442695040888963407);
    (*state >> 33) as u32
}

#[test]
fn rb_test_inserting_and_deleting_keeps_tree_balanced() {
    let vec: Vec<u32> = (0..1000).collect();
    let mut tree = RedBlack::new();
    for (i, j) in vec.iter().enumerate() {
        tree.insert(j.clone(), j.clone());
        check_tree(&tree, (i + 1) as u32);
    }
    for j in vec.iter() {
        assert_eq!(Some(j), tree.find(j));
    }
    assert!(!tree.is_empty());
    let mut size = vec.len();
    for j in vec.iter() {
        assert_eq!(Some((j.clone(), j.clone())), tree.remove(j));
        size -= 1;
        if size > 0 {
            check_tree(&tree, size as u32);
        } else {
            assert!(tree.is_empty());
        }
    }
}

#[test]
fn rb_new_tree_is_empty() {
    let mut tree: RedBlack<u32, u32> = RedBlack::new();
    assert!(tree.is_empty());
    assert_eq!(0, tree.len());
    assert!(tree.check_colors());
    assert_eq!(None, tree.find(&1));
    assert_eq!(None, tree.min());
    assert_eq!(None, tree.max());
    assert_eq!(None, tree.next(&1));
    assert_eq!(None, tree.remove(&1));
}

#[test]
fn rb_first_node_is_black_and_leaves_are_red() {
    assert_eq!(vec![(1, Color::Black)], colors(&grow(&[1])));
    assert_eq!(
        vec![(2, Color::Black), (1, Color::Red), (3, Color::Red)],
        colors(&grow(&[2, 1, 3]))
    );
}

#[test]
fn rb_red_uncle_is_repainted() {
    let tree = grow(&[2, 1, 3, 4]);
    assert_eq!(
        vec![(2, Color::Black), (1, Color::Black), (3, Color::Black), (4, Color::Red)],
        colors(&tree)
    );
}

#[test]
fn rb_black_uncle_takes_a_rotation() {
    let expected = vec![(2, Color::Black), (1, Color::Red), (3, Color::Red)];
    assert_eq!(expected, colors(&grow(&[1, 2, 3])));
    assert_eq!(expected, colors(&grow(&[3, 2, 1])));
    assert_eq!(expected, colors(&grow(&[3, 1, 2])));
    assert_eq!(expected, colors(&grow(&[1, 3, 2])));
}

#[test]
fn rb_red_node_under_black_parent_is_left_alone() {
    // after 6 comes in, 4 is repainted red below the black 2: nothing more
    // is to be mended
    let tree = grow(&[1, 2, 3, 4, 5, 6]);
    assert_eq!(
        vec![
            (2, Color::Black),
            (1, Color::Black),
            (4, Color::Red),
            (3, Color::Black),
            (5, Color::Black),
            (6, Color::Red),
        ],
        colors(&tree)
    );
}

#[test]
fn rb_repainted_node_under_black_parent_takes_no_rotation() {
    // 4 goes below the red 3 whose sibling 6 is red: 5 is repainted red
    // below the black 2, and the tree is in order without more ado
    let tree = grow(&[1, 2, 3, 5, 6, 4]);
    assert_eq!(
        vec![
            (2, Color::Black),
            (1, Color::Black),
            (5, Color::Red),
            (3, Color::Black),
            (4, Color::Red),
            (6, Color::Black),
        ],
        colors(&tree)
    );
}

#[test]
fn rb_seven_keys_in_mixed_order() {
    let tree = grow(&[5, 3, 8, 1, 4, 7, 9]);
    assert_eq!(Some(&Color::Black), tree.nodes().first().map(|n| n.1));
    assert!(tree.check_colors());
    assert_eq!(Some(&40), tree.find(&4));
    assert_eq!(Some((&5, &50)), tree.next(&4));
    assert_eq!(7, tree.len());
}

#[test]
fn rb_removal_of_red_leaf_needs_no_fixup() {
    let mut tree = grow(&[2, 1, 3]);
    assert_eq!(Some((3, 30)), tree.remove(&3));
    assert_eq!(vec![(2, Color::Black), (1, Color::Red)], colors(&tree));
}

#[test]
fn rb_only_child_takes_the_place_in_black() {
    let mut tree = grow(&[2, 1, 3, 4]);
    assert_eq!(Some((3, 30)), tree.remove(&3));
    assert_eq!(
        vec![(2, Color::Black), (1, Color::Black), (4, Color::Black)],
        colors(&tree)
    );
}

#[test]
fn rb_removal_of_black_leaf_with_black_nephews_repaints_the_sibling() {
    let mut tree = grow(&[2, 1, 3, 4]);
    assert_eq!(Some((4, 40)), tree.remove(&4));
    assert_eq!(Some((1, 10)), tree.remove(&1));
    assert_eq!(vec![(2, Color::Black), (3, Color::Red)], colors(&tree));
}

#[test]
fn rb_removal_with_red_far_nephew_rotates() {
    let mut tree = grow(&[2, 1, 3, 4]);
    assert_eq!(Some((1, 10)), tree.remove(&1));
    assert_eq!(
        vec![(3, Color::Black), (2, Color::Black), (4, Color::Black)],
        colors(&tree)
    );
}

#[test]
fn rb_removal_with_red_near_nephew_rotates_twice() {
    let mut tree = grow(&[2, 1, 4, 3]);
    assert_eq!(Some((1, 10)), tree.remove(&1));
    assert_eq!(
        vec![(3, Color::Black), (2, Color::Black), (4, Color::Black)],
        colors(&tree)
    );
}

#[test]
fn rb_removal_with_red_sibling_rotates_it_to_the_top() {
    let mut tree = grow(&[1, 2, 3, 4, 5, 6]);
    assert_eq!(Some((1, 10)), tree.remove(&1));
    assert!(tree.check_colors());
    assert_eq!(
        vec![
            (4, Color::Black),
            (2, Color::Black),
            (3, Color::Red),
            (5, Color::Black),
            (6, Color::Red),
        ],
        colors(&tree)
    );
}

#[test]
fn rb_removal_of_node_with_two_children_takes_the_next_key() {
    let mut tree = grow(&[5, 3, 8, 1, 4, 7, 9]);
    assert_eq!(Some((5, 50)), tree.remove(&5));
    assert!(tree.check_colors());
    assert_eq!(Some(&7), tree.nodes().first().map(|n| n.0));
    assert_eq!(None, tree.find(&5));
    assert_eq!(Some(&70), tree.find(&7));
    assert_eq!(6, tree.len());
}

#[test]
fn rb_removal_from_the_top_puts_the_next_key_there() {
    let mut tree = grow(&[2, 1, 3, 4]);
    assert_eq!(Some((2, 20)), tree.remove(&2));
    assert_eq!(
        vec![(3, Color::Black), (1, Color::Black), (4, Color::Black)],
        colors(&tree)
    );
    assert_eq!(Some(&30), tree.find(&3));
}

#[test]
fn rb_removal_of_a_missing_key_leaves_the_tree_as_it_is() {
    let mut tree = grow(&[5, 3, 8, 1, 4, 7, 9, 2]);
    let before = colors(&tree);
    for missing in [0, 6, 10] {
        assert_eq!(None, tree.remove(&missing));
        assert_eq!(before, colors(&tree));
        assert_eq!(8, tree.len());
    }
    for k in [5, 3, 8, 1, 4, 7, 9, 2] {
        assert_eq!(Some(&(k * 10)), tree.find(&k));
    }
}

#[test]
fn rb_size_law() {
    let mut tree = grow(&[5, 3, 8]);
    assert_eq!(3, tree.len());
    tree.insert(4, 40);
    assert_eq!(4, tree.len());
    tree.insert(4, 41);
    assert_eq!(4, tree.len());
    assert_eq!(Some((3, 30)), tree.remove(&3));
    assert_eq!(3, tree.len());
    assert_eq!(None, tree.remove(&3));
    assert_eq!(3, tree.len());
}

#[test]
fn rb_insert_of_present_key_changes_the_value_only() {
    let mut tree = grow(&[5, 3, 8, 1, 4, 7, 9, 2]);
    let before = colors(&tree);
    tree.insert(4, 4000);
    assert_eq!(before, colors(&tree));
    assert_eq!(Some(&4000), tree.find(&4));
    assert_eq!(Some(&50), tree.find(&5));
    assert_eq!(8, tree.len());
}

#[test]
fn rb_round_trip_in_any_order() {
    let keys: Vec<u32> = vec![12, 5, 30, 1, 7, 20, 40, 6, 8, 25, 35, 45, 3];
    let removal: Vec<u32> = vec![7, 45, 12, 1, 35, 6, 30, 3, 25, 8, 40, 20, 5];
    let mut tree = grow(&keys);
    assert_eq!(keys.len(), tree.len());
    for k in removal.iter() {
        assert_eq!(Some((*k, *k * 10)), tree.remove(k));
        assert!(tree.check_colors());
    }
    assert!(tree.is_empty());
    for k in keys.iter() {
        assert_eq!(None, tree.find(k));
    }
}

#[test]
fn rb_keys_in_mixed_order_keep_the_black_heights() {
    let mut state: u64 = 1;
    for _ in 0..50 {
        let mut tree: RedBlack<u32, u32> = RedBlack::new();
        for _ in 0..200 {
            let key = pseudo_random(&mut state) % 1000;
            tree.insert(key, key);
            assert!(tree.check_colors());
        }
    }
}

#[test]
fn rb_agrees_with_a_sorted_map_under_mixed_operations() {
    let mut state: u64 = 11;
    let mut tree: RedBlack<u32, u32> = RedBlack::new();
    let mut model: BTreeMap<u32, u32> = BTreeMap::new();
    for step in 0..4000u32 {
        let key = pseudo_random(&mut state) % 200;
        if pseudo_random(&mut state) % 3 == 0 {
            assert_eq!(model.remove(&key).map(|v| (key, v)), tree.remove(&key));
        } else {
            tree.insert(key, step);
            model.insert(key, step);
        }
        assert!(tree.check_colors());
        assert_eq!(model.len(), tree.len());
        assert_eq!(model.get(&key), tree.find(&key));
        assert_eq!(model.iter().next(), tree.min());
        assert_eq!(model.iter().next_back(), tree.max());
        assert_eq!(model.range(key + 1..).next(), tree.next(&key));
    }
}
