use avlsort::node::AvlNode;
use avlsort::tree::AvlTree;

/// Recompute the height of a subtree from scratch, as the longest path.
fn true_height(node: &Option<Box<AvlNode<i64>>>) -> i64 {
    match node {
        Some(n) => {
            let hl = true_height(&n.left);
            let hr = true_height(&n.right);
            1 + if hl >= hr { hl } else { hr }
        }
        None => 0,
    }
}

/// Recompute the number of elements of a subtree from scratch.
fn true_size(node: &Option<Box<AvlNode<i64>>>) -> usize {
    match node {
        Some(n) => true_size(&n.left) + n.n_ledu.1 + 1 + true_size(&n.right),
        None => 0,
    }
}

/// Check at every node, by independent recomputation: the balance bound, the
/// accuracy of the stored balance factor, the accuracy of the stored
/// `number_of_less` count, and the search ordering against the given bounds.
fn check_structure(node: &Option<Box<AvlNode<i64>>>, lo: Option<i64>, hi: Option<i64>) {
    if let Some(n) = node {
        if let Some(b) = lo {
            assert!(n.value > b);
        }
        if let Some(b) = hi {
            assert!(n.value < b);
        }
        let hl = true_height(&n.left);
        let hr = true_height(&n.right);
        assert!((hl - hr).abs() <= 1, "balance violated at {}", n.value);
        assert!(n.diff as i64 == hl - hr, "stored factor wrong at {}", n.value);
        assert!(n.n_ledu.0 == true_size(&n.left), "less count wrong at {}", n.value);
        check_structure(&n.left, lo, Some(n.value));
        check_structure(&n.right, Some(n.value), hi);
    }
}

/// Full structural check of a tree.
fn check_tree(t: &AvlTree<i64>) {
    check_structure(&t.root, None, None);
    if let Some(n) = &t.root {
        n.check_diff();
    }
}

#[test]
fn push_ranks_simple_scenario() {
    let mut g = AvlTree::new();
    assert_eq!(g.push(10), (0, 0));
    assert_eq!(g.push(20), (1, 0));
    assert_eq!(g.push(30), (2, 0));
    assert_eq!(g.push(20), (1, 1));
    assert_eq!(g.count(20), 2);
    assert_eq!(g.len(), 4);
    assert_eq!(g.remove(20), Ok(()));
    assert_eq!(g.count(20), 1);
    assert_eq!(g.len(), 3);
    check_tree(&g);
}

#[test]
fn push_ranks_with_duplicate() {
    let mut g = AvlTree::new();
    assert_eq!(g.push(5), (0, 0));
    assert_eq!(g.push(3), (0, 0));
    assert_eq!(g.push(8), (2, 0));
    assert_eq!(g.push(1), (0, 0));
    // one element (1) is smaller and one copy of 3 already exists
    assert_eq!(g.push(3), (1, 1));
    assert_eq!(g.len(), 5);
    check_tree(&g);
}

#[test]
fn count_round_trip() {
    let mut g = AvlTree::new();
    let k = 6;
    for i in 0..k {
        let (_, dup_before) = g.push(7);
        assert_eq!(dup_before, i);
    }
    assert_eq!(g.count(7), k);
    assert_eq!(g.remove(7), Ok(()));
    assert_eq!(g.count(7), k - 1);
    check_tree(&g);
}

#[test]
fn size_conservation() {
    let mut g = AvlTree::new();
    let values = [9, 4, 4, 12, -3, 7, 4, 100, 56, -3, 0];
    for &v in values.iter() {
        g.push(v);
    }
    let n = values.len();
    assert_eq!(g.len(), n);
    let mut removed = 0;
    for &v in [4, 4, -3, 100, 77, 9].iter() {
        if g.remove(v).is_ok() {
            removed += 1;
        }
    }
    // 77 is absent, every other removal succeeds
    assert_eq!(removed, 5);
    assert_eq!(g.len(), n - removed);
    check_tree(&g);
}

#[test]
fn empty_tree_is_idempotent() {
    let mut g: AvlTree<i64> = AvlTree::new();
    assert_eq!(g.pop_min(), None);
    assert_eq!(g.pop_max(), None);
    assert_eq!(g.pop_min_all(), None);
    assert_eq!(g.pop_max_all(), None);
    assert_eq!(g.remove(5), Err(()));
    assert_eq!(g.min(), None);
    assert_eq!(g.max(), None);
    assert_eq!(g.len(), 0);
    assert_eq!(g.height(), 0);
    assert!(!g.isin(5));
    assert_eq!(g.count(5), 0);
}

#[test]
fn pop_min_yields_nondecreasing() {
    let mut g = AvlTree::new();
    for &v in [13, 2, 2, 40, -7, 8, 40, 40, 5, 1, 99, -7].iter() {
        g.push(v);
        check_tree(&g);
    }
    let mut prev = None;
    let mut popped = 0;
    while let Some(v) = g.pop_min() {
        if let Some(p) = prev {
            assert!(p <= v);
        }
        prev = Some(v);
        popped += 1;
        check_tree(&g);
    }
    assert_eq!(popped, 12);
    assert_eq!(g.len(), 0);
}

#[test]
fn pop_max_yields_nonincreasing() {
    let mut g = AvlTree::new();
    for &v in [13, 2, 2, 40, -7, 8, 40, 40, 5, 1, 99, -7].iter() {
        g.push(v);
    }
    let mut prev = None;
    let mut popped = 0;
    while let Some(v) = g.pop_max() {
        if let Some(p) = prev {
            assert!(p >= v);
        }
        prev = Some(v);
        popped += 1;
        check_tree(&g);
    }
    assert_eq!(popped, 12);
    assert_eq!(g.len(), 0);
}

#[test]
fn ranks_match_reference_multiset() {
    let mut g = AvlTree::new();
    let mut reference: Vec<i64> = Vec::new();
    let values = [50, 20, 80, 10, 30, 70, 90, 30, 50, 5, 95, 20, 20, 60, 40];
    for &v in values.iter() {
        let (rank, dup_before) = g.push(v);
        let expected_rank = reference.iter().filter(|&&x| x < v).count();
        let expected_dup = reference.iter().filter(|&&x| x == v).count();
        assert_eq!(rank, expected_rank, "rank of {}", v);
        assert_eq!(dup_before, expected_dup, "duplicates of {}", v);
        reference.push(v);
        check_tree(&g);
    }
    for &v in reference.iter() {
        assert!(g.isin(v));
    }
}

#[test]
fn balance_holds_under_rotations() {
    // ascending pushes force rotations from the right
    let mut g = AvlTree::new();
    for v in 1..=64 {
        g.push(v);
        check_tree(&g);
    }
    // height of a balanced tree of 64 elements stays small
    assert!(g.height() <= 8);
    // descending pushes force rotations from the left
    let mut h = AvlTree::new();
    for v in (1..=64).rev() {
        h.push(v);
        check_tree(&h);
    }
    assert!(h.height() <= 8);
    // zigzag patterns force double rotations
    let mut z = AvlTree::new();
    for &v in [10, 30, 20, 5, 8, 25, 22, 90, 60, 70].iter() {
        z.push(v);
        check_tree(&z);
    }
}

#[test]
fn balance_holds_under_removals() {
    let mut g = AvlTree::new();
    for v in 1..=32 {
        g.push(v);
    }
    // removing a run of values exercises the shrink signals and rotations
    for v in [16, 8, 24, 1, 32, 17, 2, 3, 4, 5, 6, 7].iter() {
        assert_eq!(g.remove(*v), Ok(()));
        check_tree(&g);
    }
    assert_eq!(g.len(), 20);
}

#[test]
fn remove_root_with_two_children() {
    let mut g = AvlTree::new();
    for &v in [10, 5, 15, 3, 7, 12, 20].iter() {
        g.push(v);
    }
    assert_eq!(g.remove(10), Ok(()));
    assert!(!g.isin(10));
    assert_eq!(g.len(), 6);
    check_tree(&g);
    for &v in [5, 15, 3, 7, 12, 20].iter() {
        assert!(g.isin(v));
    }
}

#[test]
fn remove_absent_value() {
    let mut g = AvlTree::new();
    g.push(1);
    g.push(2);
    assert_eq!(g.remove(3), Err(()));
    assert_eq!(g.len(), 2);
    check_tree(&g);
}

#[test]
fn min_max_queries() {
    let mut g = AvlTree::new();
    for &v in [4, 9, -2, 7, 4].iter() {
        g.push(v);
    }
    assert_eq!(g.min(), Some(-2));
    assert_eq!(g.max(), Some(9));
    assert_eq!(g.pop_min(), Some(-2));
    assert_eq!(g.min(), Some(4));
    assert_eq!(g.pop_max(), Some(9));
    assert_eq!(g.max(), Some(7));
    check_tree(&g);
}

#[test]
fn pop_all_variants_take_whole_multiplicity() {
    let mut g = AvlTree::new();
    for &v in [5, 5, 5, 1, 1, 9, 9, 9, 9, 3].iter() {
        g.push(v);
    }
    assert_eq!(g.pop_max_all(), Some((9, 3)));
    assert!(!g.isin(9));
    assert_eq!(g.len(), 6);
    check_tree(&g);
    assert_eq!(g.pop_min_all(), Some((1, 1)));
    assert!(!g.isin(1));
    assert_eq!(g.len(), 4);
    check_tree(&g);
    assert_eq!(g.pop_max_all(), Some((5, 2)));
    assert_eq!(g.pop_min_all(), Some((3, 0)));
    assert_eq!(g.len(), 0);
}

#[test]
fn pop_single_decrements_duplicates_first() {
    let mut g = AvlTree::new();
    for &v in [5, 5, 2, 8, 8].iter() {
        g.push(v);
    }
    assert_eq!(g.pop_max(), Some(8));
    assert_eq!(g.count(8), 1);
    assert_eq!(g.pop_max(), Some(8));
    assert_eq!(g.count(8), 0);
    assert_eq!(g.pop_min(), Some(2));
    assert_eq!(g.pop_min(), Some(5));
    assert_eq!(g.count(5), 1);
    check_tree(&g);
}

#[test]
fn height_matches_recomputation() {
    let mut g = AvlTree::new();
    for &v in [10, 4, 17, 2, 8, 13, 29, 1, 3, 6, 9].iter() {
        g.push(v);
        assert_eq!(g.height() as i64, true_height(&g.root));
    }
    for &v in [4, 17, 10].iter() {
        assert_eq!(g.remove(v), Ok(()));
        assert_eq!(g.height() as i64, true_height(&g.root));
    }
}

#[test]
fn ascending_order_via_pop_min_matches_sorted_input() {
    let mut g = AvlTree::new();
    let mut values = vec![1i64, 8, 7, 3, 5, 6, 2, 9, 4, 0, 4, 9];
    for &v in values.iter() {
        g.push(v);
    }
    let mut drained = Vec::new();
    while let Some(v) = g.pop_min() {
        drained.push(v);
    }
    values.sort();
    assert_eq!(drained, values);
}
