use rust_trees::avl::AVL;
use rust_trees::rb::RedBlack;

#[test]
fn min_is_the_least_key_and_max_the_greatest() {
    let mut avl: AVL<i64, &str> = AVL::new();
    let mut rb: RedBlack<i64, &str> = RedBlack::new();
    for (k, v) in [(5, "five"), (-3, "minus three"), (8, "eight"), (0, "zero"), (12, "twelve")] {
        avl.insert(k, v);
        rb.insert(k, v);
    }
    assert_eq!(Some((&-3, &"minus three")), avl.min());
    assert_eq!(Some((&12, &"twelve")), avl.max());
    assert_eq!(Some((&-3, &"minus three")), rb.min());
    assert_eq!(Some((&12, &"twelve")), rb.max());
}

#[test]
fn min_and_max_of_a_single_entry_are_that_entry() {
    let mut avl: AVL<u32, u32> = AVL::new();
    avl.insert(7, 70);
    assert_eq!(Some((&7, &70)), avl.min());
    assert_eq!(Some((&7, &70)), avl.max());
    assert_eq!(None, avl.next(&7));
    assert_eq!(Some((&7, &70)), avl.next(&6));
}

#[test]
fn next_gives_the_least_key_above() {
    let mut avl: AVL<u32, u32> = AVL::new();
    let mut rb: RedBlack<u32, u32> = RedBlack::new();
    for k in [50, 30, 70, 20, 40, 60, 80, 35, 45, 65] {
        avl.insert(k, k + 1);
        rb.insert(k, k + 1);
    }
    let expected: [(u32, Option<u32>); 12] = [
        (0, Some(20)),
        (20, Some(30)),
        (30, Some(35)),
        (35, Some(40)),
        (40, Some(45)),
        (45, Some(50)),
        (47, Some(50)),
        (50, Some(60)),
        (65, Some(70)),
        (70, Some(80)),
        (80, None),
        (90, None),
    ];
    for (key, next) in expected {
        let pair = next.map(|k| (k, k + 1));
        assert_eq!(pair, avl.next(&key).map(|(k, v)| (*k, *v)));
        assert_eq!(pair, rb.next(&key).map(|(k, v)| (*k, *v)));
    }
}

#[test]
fn find_misses_are_none() {
    let mut rb: RedBlack<u32, u32> = RedBlack::new();
    for k in [2, 4, 6] {
        rb.insert(k, k);
    }
    assert_eq!(None, rb.find(&1));
    assert_eq!(None, rb.find(&3));
    assert_eq!(None, rb.find(&7));
    assert_eq!(Some(&4), rb.find(&4));
}

#[test]
fn walking_with_next_visits_every_key_in_order() {
    let mut avl: AVL<u32, u32> = AVL::new();
    for k in [9, 1, 8, 2, 7, 3, 6, 4, 5] {
        avl.insert(k, k);
    }
    let mut seen = Vec::new();
    let mut at = avl.min().map(|(k, _)| *k);
    while let Some(k) = at {
        seen.push(k);
        at = avl.next(&k).map(|(k, _)| *k);
    }
    assert_eq!(vec![1, 2, 3, 4, 5, 6, 7, 8, 9], seen);
}
