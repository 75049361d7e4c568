use avlsort::node::AvlNode;
use avlsort::traits::OrdEqElem;

#[test]
fn node_new_is_leaf() {
    let n = AvlNode::new(42i64);
    assert_eq!(n.value, 42);
    assert_eq!(n.diff, 0);
    assert_eq!(n.n_ledu, (0, 0));
    assert!(n.left.is_none());
    assert!(n.right.is_none());
    assert_eq!(n.len_child_and_self(), 1);
    assert_eq!(n.height_child(), 1);
}

#[test]
fn node_push_and_search() {
    let mut n = AvlNode::new(10i64);
    let ((rank, dup), d) = n.push_child(5);
    assert_eq!((rank, dup), (0, 0));
    assert!(matches!(d, avlsort::node::DeltaDiff::Longer));
    n.push_child(15);
    n.push_child(5);
    assert_eq!(n.search(5), Some(1));
    assert_eq!(n.search(10), Some(0));
    assert_eq!(n.search(7), None);
    assert_eq!(n.len_child_and_self(), 4);
    n.check_diff();
}

#[test]
fn node_push_reports_subtree_rank() {
    let mut n = AvlNode::new(10i64);
    n.push_child(5);
    n.push_child(15);
    let ((rank, dup), _) = n.push_child(12);
    assert_eq!(rank, 2);
    assert_eq!(dup, 0);
    let ((rank, dup), _) = n.push_child(12);
    assert_eq!(rank, 2);
    assert_eq!(dup, 1);
}

#[test]
fn node_extrema() {
    let mut n = AvlNode::new(10i64);
    for v in [5, 15, 3, 7, 12, 20] {
        n.push_child(v);
    }
    assert_eq!(n.max_child(), 20);
    assert_eq!(n.min_child(), 3);
}

#[test]
fn node_pop_children_err_without_that_side() {
    let mut n = AvlNode::new(10i64);
    assert!(n.pop_max_child().is_err());
    assert!(n.pop_min_child().is_err());
    assert!(n.pop_max_all_child().is_err());
    assert!(n.pop_min_all_child().is_err());
    n.push_child(15);
    let (v, _) = n.pop_max_child().unwrap();
    assert_eq!(v, 15);
    assert!(n.pop_max_child().is_err());
}

#[test]
fn node_pop_all_child_takes_duplicates() {
    let mut n = AvlNode::new(10i64);
    for v in [15, 15, 15, 5] {
        n.push_child(v);
    }
    let ((v, dup), _) = n.pop_max_all_child().unwrap();
    assert_eq!((v, dup), (15, 2));
    assert_eq!(n.search(15), None);
    let ((v, dup), _) = n.pop_min_all_child().unwrap();
    assert_eq!((v, dup), (5, 0));
    assert_eq!(n.len_child_and_self(), 1);
}

#[test]
fn node_remove_child_cases() {
    let mut n = AvlNode::new(10i64);
    for v in [5, 15, 3, 7, 7] {
        n.push_child(v);
    }
    // the node's own value is not handled here
    assert!(n.remove_child(10).is_err());
    // a duplicate is decremented in place
    assert!(n.remove_child(7).is_ok());
    assert_eq!(n.search(7), Some(0));
    // a leaf is spliced out
    assert!(n.remove_child(3).is_ok());
    assert_eq!(n.search(3), None);
    // absence is an error
    assert!(n.remove_child(99).is_err());
    n.check_diff();
}

#[test]
fn node_rotate_is_noop_when_balanced() {
    let mut n = AvlNode::new(10i64);
    n.push_child(5);
    assert!(!n.rotate());
    assert_eq!(n.value, 10);
}

#[test]
fn ord_eq_elem_wraps_and_compares() {
    let a = OrdEqElem::new(3i64);
    let b = OrdEqElem::new(8i64);
    assert_eq!(a.value, 3);
    assert!(a.equals(&OrdEqElem::new(3)));
    assert!(!a.equals(&b));
    assert!(a.before(&b));
    assert!(!b.before(&a));
}

#[test]
fn ord_eq_elem_breaks_ties_either_way() {
    let a = OrdEqElem::new(5i64);
    let b = OrdEqElem::new(5i64);
    assert!(a.equals(&b));
    // on a tie the direction is random: both outcomes are acceptable,
    // the call just must answer
    let mut seen = [false, false];
    for _ in 0..64 {
        if a.before(&b) {
            seen[0] = true;
        } else {
            seen[1] = true;
        }
    }
    assert!(seen[0] || seen[1]);
}
