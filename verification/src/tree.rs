//! The tree facade: owns the optional root node and translates whole-tree
//! operations into node-engine calls, treating a mutation of the root itself
//! as its own case, since it has no parent to splice through.

use vstd::prelude::*;
use vstd::multiset::Multiset;
use crate::node::AvlNode;
use crate::node::cnt_lt;
use crate::node::copies;
use crate::node::drop_key;
use crate::node::is_max_of;
use crate::node::is_min_of;
use crate::node::lemma_copies_count;
use crate::node::lemma_cnt_lt_none_below;
use crate::node::lemma_inorder_sorted;
use crate::node::lemma_ms_count_at;
use crate::node::lemma_oms_len;
use crate::node::lemma_wf_balanced;
use crate::node::nondecreasing;
use crate::node::obalanced;
use crate::node::ohgt;
use crate::node::oinorder;
use crate::node::oms;
use crate::node::owf;
use crate::traits::TreeElem;

verus! {

broadcast use vstd::multiset::group_multiset_axioms, vstd::multiset::group_multiset_properties;

/// A height-balanced search tree of elements with duplicate collapsing: each
/// stored value keeps a rank count and a duplicate count.
pub struct AvlTree<T: TreeElem> {
    /// Root node.
    pub root: Option<Box<AvlNode<T>>>,
}

impl<T: TreeElem> AvlTree<T> {
    /// Well-formedness: the search ordering, the balance bound and the
    /// per-node counts hold everywhere in the tree.
    pub open spec fn wf(self) -> bool {
        owf(self.root)
    }

    /// The height of the tree.
    pub open spec fn hgt(self) -> nat {
        ohgt(self.root)
    }

    /// The in-order key sequence of the tree.
    pub open spec fn inorder(self) -> Seq<int> {
        oinorder(self.root)
    }

    /// Balance by independent recomputation of subtree heights at every
    /// node, without consulting any stored balance factor.
    pub open spec fn balanced(self) -> bool {
        obalanced(self.root)
    }
}

impl<T: TreeElem> View for AvlTree<T> {
    type V = Multiset<int>;

    /// The tree is abstractly the multiset of the keys it stores.
    open spec fn view(&self) -> Multiset<int> {
        oms(self.root)
    }
}

impl<T: TreeElem> AvlTree<T> {
    /// Create an empty tree.
    pub fn new() -> (r: Self)
        ensures
            r.wf(),
            r@ == Multiset::<int>::empty(),
            r.hgt() == 0,
    {
        let root = None;
        Self { root }
    }

    /// Push `value` and return `(rank, count_before)`: the number of
    /// elements strictly smaller than `value`, and the number of copies of
    /// `value` that were already stored, both at the instant of this push.
    pub fn push(&mut self, value: T) -> (r: (usize, usize))
        requires
            old(self).wf(),
            old(self)@.len() < usize::MAX,
        ensures
            final(self).wf(),
            final(self)@ == old(self)@.insert(value.key()),
            final(self)@.len() == old(self)@.len() + 1,
            final(self)@.count(value.key()) == old(self)@.count(value.key()) + 1,
            r.0 == cnt_lt(old(self)@, value.key()),
            r.1 == old(self)@.count(value.key()),
    {
        proof {
            lemma_oms_len(old(self).root);
        }
        match self.root.take() {
            Some(mut root) => {
                let (n_ledu, _d) = (&mut *root).push_child(value);
                self.root = Some(root);
                n_ledu
            }
            None => {
                let leaf = AvlNode::new(value);
                proof {
                    assert forall|x: int|
                        leaf.ms().count(x) == old(self)@.insert(value.key()).count(x) by {
                        lemma_copies_count(value.key(), 1, x);
                    }
                    assert(leaf.ms() =~= old(self)@.insert(value.key()));
                    lemma_cnt_lt_none_below(Multiset::<int>::empty(), value.key());
                }
                self.root = Some(Box::new(leaf));
                (0, 0)
            }
        }
    }

    /// Determine whether `value` is stored.
    pub fn isin(&self, value: T) -> (r: bool)
        requires
            self.wf(),
        ensures
            r == (self@.count(value.key()) > 0),
    {
        match match &self.root {
            Some(r) => r.search(value),
            None => None,
        } {
            Some(_) => true,
            None => false,
        }
    }

    /// Count how many copies of `value` are stored: zero when absent, else
    /// its duplicate count plus one.
    pub fn count(&self, value: T) -> (r: usize)
        requires
            self.wf(),
        ensures
            r == self@.count(value.key()),
    {
        proof {
            lemma_oms_len(self.root);
        }
        match match &self.root {
            Some(r) => r.search(value),
            None => None,
        } {
            Some(dup) => dup + 1,
            None => 0,
        }
    }

    /// Remove one occurrence of `value` from the tree; absence is reported
    /// as an error and leaves the tree unchanged. A removal of the root's
    /// own value is handled here, since the root has no parent.
    pub fn remove(&mut self, value: T) -> (r: Result<(), ()>)
        requires
            old(self).wf(),
        ensures
            final(self).wf(),
            r is Ok <==> old(self)@.count(value.key()) > 0,
            r is Ok ==> final(self)@ == old(self)@.remove(value.key()) && final(self)@.len() + 1
                == old(self)@.len() && final(self)@.count(value.key()) + 1 == old(self)@.count(
                value.key(),
            ),
            r is Err ==> *final(self) == *old(self),
            old(self)@.len() == 0 ==> r is Err && *final(self) == *old(self),
    {
        proof {
            lemma_oms_len(old(self).root);
        }
        match self.root.take() {
            Some(mut root) => {
                if !value.lt(&root.value) && !value.gt(&root.value) {
                    proof {
                        lemma_ms_count_at(*root, value.key());
                        lemma_copies_count(root.value.key(), root.mult(), value.key());
                    }
                    self.root = Some(root);
                    let _d = AvlNode::<T>::remove_at_root(&mut self.root);
                    proof {
                        lemma_oms_len(self.root);
                    }
                    Ok(())
                } else {
                    proof {
                        lemma_ms_count_at(*root, value.key());
                    }
                    let res = (&mut *root).remove_child(value);
                    self.root = Some(root);
                    proof {
                        lemma_oms_len(self.root);
                    }
                    match res {
                        Ok(_) => Ok(()),
                        Err(()) => Err(()),
                    }
                }
            }
            None => Err(()),
        }
    }

    /// Return the maximum value in the tree.
    pub fn max(&self) -> (r: Option<T>)
        requires
            self.wf(),
        ensures
            self@.len() == 0 <==> r is None,
            r is Some ==> is_max_of(self@, r.unwrap().key()),
    {
        proof {
            lemma_oms_len(self.root);
        }
        match &self.root {
            Some(r) => Some(r.max_child()),
            None => None,
        }
    }

    /// Return and remove one occurrence of the maximum value; an empty tree
    /// yields the absent result and stays empty.
    pub fn pop_max(&mut self) -> (r: Option<T>)
        requires
            old(self).wf(),
        ensures
            final(self).wf(),
            old(self)@.len() == 0 ==> r is None && *final(self) == *old(self),
            old(self)@.len() > 0 ==> r is Some && is_max_of(old(self)@, r.unwrap().key()) && final(self)@ == old(self)@.remove(r.unwrap().key())
                && final(self)@.len() + 1 == old(self)@.len(),
    {
        proof {
            lemma_oms_len(old(self).root);
        }
        if self.root.is_some() {
            let (v, _d) = AvlNode::<T>::pop_max_opt(&mut self.root);
            proof {
                lemma_oms_len(self.root);
            }
            Some(v)
        } else {
            None
        }
    }

    /// Return the maximum value with its duplicate count, then remove its
    /// node with all its copies; an empty tree yields the absent result.
    pub fn pop_max_all(&mut self) -> (r: Option<(T, usize)>)
        requires
            old(self).wf(),
        ensures
            final(self).wf(),
            old(self)@.len() == 0 ==> r is None && *final(self) == *old(self),
            old(self)@.len() > 0 ==> r is Some && is_max_of(old(self)@, r.unwrap().0.key())
                && r.unwrap().1 + 1 == old(self)@.count(r.unwrap().0.key()) && final(self)@
                == drop_key(old(self)@, r.unwrap().0.key()) && final(self)@.len() + r.unwrap().1
                + 1 == old(self)@.len(),
    {
        proof {
            lemma_oms_len(old(self).root);
        }
        if self.root.is_some() {
            let (v, dup, _d) = AvlNode::<T>::pop_max_all_opt(&mut self.root);
            proof {
                lemma_oms_len(self.root);
            }
            Some((v, dup))
        } else {
            None
        }
    }

    /// Return the minimum value in the tree.
    pub fn min(&self) -> (r: Option<T>)
        requires
            self.wf(),
        ensures
            self@.len() == 0 <==> r is None,
            r is Some ==> is_min_of(self@, r.unwrap().key()),
    {
        proof {
            lemma_oms_len(self.root);
        }
        match &self.root {
            Some(r) => Some(r.min_child()),
            None => None,
        }
    }

    /// Return and remove one occurrence of the minimum value; an empty tree
    /// yields the absent result and stays empty.
    pub fn pop_min(&mut self) -> (r: Option<T>)
        requires
            old(self).wf(),
        ensures
            final(self).wf(),
            old(self)@.len() == 0 ==> r is None && *final(self) == *old(self),
            old(self)@.len() > 0 ==> r is Some && is_min_of(old(self)@, r.unwrap().key()) && final(self)@ == old(self)@.remove(r.unwrap().key())
                && final(self)@.len() + 1 == old(self)@.len(),
    {
        proof {
            lemma_oms_len(old(self).root);
        }
        if self.root.is_some() {
            let (v, _d) = AvlNode::<T>::pop_min_opt(&mut self.root);
            proof {
                lemma_oms_len(self.root);
            }
            Some(v)
        } else {
            None
        }
    }

    /// Return the minimum value with its duplicate count, then remove its
    /// node with all its copies; an empty tree yields the absent result.
    pub fn pop_min_all(&mut self) -> (r: Option<(T, usize)>)
        requires
            old(self).wf(),
        ensures
            final(self).wf(),
            old(self)@.len() == 0 ==> r is None && *final(self) == *old(self),
            old(self)@.len() > 0 ==> r is Some && is_min_of(old(self)@, r.unwrap().0.key())
                && r.unwrap().1 + 1 == old(self)@.count(r.unwrap().0.key()) && final(self)@
                == drop_key(old(self)@, r.unwrap().0.key()) && final(self)@.len() + r.unwrap().1
                + 1 == old(self)@.len(),
    {
        proof {
            lemma_oms_len(old(self).root);
        }
        if self.root.is_some() {
            let (v, dup, _d) = AvlNode::<T>::pop_min_all_opt(&mut self.root);
            proof {
                lemma_oms_len(self.root);
            }
            Some((v, dup))
        } else {
            None
        }
    }

    /// Return the number of stored elements, duplicates counted.
    pub fn len(&self) -> (r: usize)
        requires
            self.wf(),
        ensures
            r == self@.len(),
    {
        proof {
            lemma_oms_len(self.root);
        }
        match &self.root {
            Some(r) => r.len_child_and_self(),
            None => 0,
        }
    }

    /// Return the height of the tree.
    pub fn height(&self) -> (r: usize)
        requires
            self.wf(),
        ensures
            r == self.hgt(),
    {
        match &self.root {
            Some(r) => r.height_child(),
            None => 0,
        }
    }
}

/// The search ordering law: the in-order traversal of a well-formed tree is
/// nondecreasing, visits exactly the stored keys, and has one entry per
/// stored element.
pub proof fn lemma_bst_ordering<T: TreeElem>(t: AvlTree<T>)
    requires
        t.wf(),
    ensures
        nondecreasing(t.inorder()),
        t.inorder().len() == t@.len(),
        forall|i: int| 0 <= i < t.inorder().len() ==> #[trigger] t@.count(t.inorder()[i]) > 0,
{
    lemma_inorder_sorted(t.root);
    lemma_oms_len(t.root);
}

/// The balance law: in a well-formed tree the independently recomputed
/// heights of the two subtrees of every node differ by at most one; the
/// stored balance factors play no part in the statement.
pub proof fn lemma_balance_invariant<T: TreeElem>(t: AvlTree<T>)
    requires
        t.wf(),
    ensures
        t.balanced(),
{
    lemma_wf_balanced(t.root);
}

/// The extremum pop ordering law, minimum side: removing a minimal key
/// leaves a multiset whose minimal key is no smaller, so repeated minimum
/// pops yield a nondecreasing key sequence.
pub proof fn lemma_pop_min_ordering(m: Multiset<int>, a: int, b: int)
    requires
        is_min_of(m, a),
        is_min_of(m.remove(a), b),
    ensures
        a <= b,
{
    assert(m.count(b) >= m.remove(a).count(b));
}

/// The extremum pop ordering law, maximum side: removing a maximal key
/// leaves a multiset whose maximal key is no larger, so repeated maximum
/// pops yield a nonincreasing key sequence.
pub proof fn lemma_pop_max_ordering(m: Multiset<int>, a: int, b: int)
    requires
        is_max_of(m, a),
        is_max_of(m.remove(a), b),
    ensures
        a >= b,
{
    assert(m.count(b) >= m.remove(a).count(b));
}

/// The count round-trip law: pushing a key `k` times into a tree that holds
/// no copy of it brings its count to `k`, and one successful removal brings
/// it back to `k - 1`. Each push inserts one more copy, so `k` pushes add
/// `copies(x, k)` to the stored multiset.
pub proof fn lemma_count_round_trip(m: Multiset<int>, x: int, k: nat)
    requires
        m.count(x) == 0,
    ensures
        m.add(copies(x, k)).insert(x) == m.add(copies(x, (k + 1) as nat)),
        m.add(copies(x, k)).count(x) == k,
        k > 0 ==> m.add(copies(x, k)).remove(x).count(x) == k - 1,
{
    lemma_copies_count(x, k, x);
    lemma_copies_count(x, (k + 1) as nat, x);
    assert forall|y: int|
        m.add(copies(x, k)).insert(x).count(y) == m.add(copies(x, (k + 1) as nat)).count(y) by {
        lemma_copies_count(x, k, y);
        lemma_copies_count(x, (k + 1) as nat, y);
    }
    assert(m.add(copies(x, k)).insert(x) =~= m.add(copies(x, (k + 1) as nat)));
}

} // verus!
