//! The node of the balanced tree, and the recursive engine that operates on
//! it: insertion with rank propagation, deletion with predecessor or
//! successor splicing, and the rotation and height-delta machinery that keeps
//! every balance factor in `{-1, 0, 1}`.

use vstd::prelude::*;
use vstd::multiset::Multiset;
use crate::traits::TreeElem;

verus! {

broadcast use vstd::multiset::group_multiset_axioms, vstd::multiset::group_multiset_properties;

/// The direction of the child from which a height signal came.
pub enum Direction {
    Left,
    Right,
}

/// How the height of a subtree changed under a mutation.
#[derive(Clone, Copy)]
pub enum DeltaDiff {
    Longer,
    Zero,
    Shorter,
}

/// The height change a `DeltaDiff` stands for.
pub open spec fn delta_val(d: DeltaDiff) -> int {
    match d {
        DeltaDiff::Longer => 1,
        DeltaDiff::Zero => 0,
        DeltaDiff::Shorter => -1,
    }
}

/// A multiset holding `k` copies of the key `v`.
pub open spec fn copies(v: int, k: nat) -> Multiset<int>
    decreases k,
{
    if k == 0 {
        Multiset::empty()
    } else {
        copies(v, (k - 1) as nat).insert(v)
    }
}

/// The number of elements of `m` strictly below the key `k`.
pub open spec fn cnt_lt(m: Multiset<int>, k: int) -> nat {
    m.filter(|x: int| x < k).len()
}

/// `m` with every copy of the key `k` removed.
pub open spec fn drop_key(m: Multiset<int>, k: int) -> Multiset<int> {
    m.filter(|x: int| x != k)
}

/// Every key of `m` is strictly below `b`.
pub open spec fn all_below(m: Multiset<int>, b: int) -> bool {
    forall|x: int| #[trigger] m.count(x) > 0 ==> x < b
}

/// Every key of `m` is strictly above `b`.
pub open spec fn all_above(m: Multiset<int>, b: int) -> bool {
    forall|x: int| #[trigger] m.count(x) > 0 ==> x > b
}

/// `k` is a maximal key of `m`, and present in it.
pub open spec fn is_max_of(m: Multiset<int>, k: int) -> bool {
    m.count(k) > 0 && forall|x: int| #[trigger] m.count(x) > 0 ==> x <= k
}

/// `k` is a minimal key of `m`, and present in it.
pub open spec fn is_min_of(m: Multiset<int>, k: int) -> bool {
    m.count(k) > 0 && forall|x: int| #[trigger] m.count(x) > 0 ==> x >= k
}

/// The node of the balanced tree.
pub struct AvlNode<T: TreeElem> {
    /// The value of the element.
    pub value: T,
    /// The difference of the heights of the children:
    /// height of the left child minus height of the right child.
    pub diff: i32,
    /// The number of elements in the left subtree (equivalently, the number
    /// of elements of this subtree smaller than this node's value), and the
    /// number of duplicates of `value` beyond the first copy.
    ///
    /// `(number_of_less, number_of_duplicates)`
    pub n_ledu: (usize, usize),
    /// The left child subtree, owned.
    pub left: Option<Box<AvlNode<T>>>,
    /// The right child subtree, owned.
    pub right: Option<Box<AvlNode<T>>>,
}

/// The number of elements of an optional subtree, duplicates counted.
pub open spec fn osize<T: TreeElem>(o: Option<Box<AvlNode<T>>>) -> nat
    decreases o,
{
    match o {
        Some(n) => n.size(),
        None => 0,
    }
}

/// The height of an optional subtree.
pub open spec fn ohgt<T: TreeElem>(o: Option<Box<AvlNode<T>>>) -> nat
    decreases o,
{
    match o {
        Some(n) => n.hgt(),
        None => 0,
    }
}

/// The multiset of keys of an optional subtree.
pub open spec fn oms<T: TreeElem>(o: Option<Box<AvlNode<T>>>) -> Multiset<int>
    decreases o,
{
    match o {
        Some(n) => n.ms(),
        None => Multiset::empty(),
    }
}

/// Well-formedness of an optional subtree.
pub open spec fn owf<T: TreeElem>(o: Option<Box<AvlNode<T>>>) -> bool
    decreases o,
{
    match o {
        Some(n) => n.wf(),
        None => true,
    }
}

/// The stored balance factor of an optional subtree (zero when absent).
pub open spec fn odiff<T: TreeElem>(o: Option<Box<AvlNode<T>>>) -> int {
    match o {
        Some(n) => n.diff as int,
        None => 0,
    }
}

/// The key at the root of an optional subtree (zero when absent).
pub open spec fn okey<T: TreeElem>(o: Option<Box<AvlNode<T>>>) -> int {
    match o {
        Some(n) => n.value.key(),
        None => 0,
    }
}

/// Balance of an optional subtree by independent height recomputation.
pub open spec fn obalanced<T: TreeElem>(o: Option<Box<AvlNode<T>>>) -> bool
    decreases o,
{
    match o {
        Some(n) => n.balanced(),
        None => true,
    }
}

/// The in-order key sequence of an optional subtree.
pub open spec fn oinorder<T: TreeElem>(o: Option<Box<AvlNode<T>>>) -> Seq<int>
    decreases o,
{
    match o {
        Some(n) => n.inorder(),
        None => Seq::empty(),
    }
}

impl<T: TreeElem> AvlNode<T> {
    /// The number of elements of the subtree rooted here, duplicates counted.
    pub open spec fn size(self) -> nat
        decreases self,
    {
        (osize(self.left) + self.n_ledu.1 + 1 + osize(self.right)) as nat
    }

    /// The multiplicity of this node's own value: its duplicates plus one.
    pub open spec fn mult(self) -> nat {
        (self.n_ledu.1 + 1) as nat
    }

    /// The height of the subtree rooted here.
    pub open spec fn hgt(self) -> nat
        decreases self,
    {
        1 + if ohgt(self.left) >= ohgt(self.right) {
            ohgt(self.left)
        } else {
            ohgt(self.right)
        }
    }

    /// The multiset of keys stored in the subtree rooted here.
    pub open spec fn ms(self) -> Multiset<int>
        decreases self,
    {
        oms(self.left).add(copies(self.value.key(), self.mult())).add(oms(self.right))
    }

    /// The conditions on this node's own fields: search ordering with respect
    /// to the children, an accurate `number_of_less` count, an accurate
    /// balance factor, and a subtree small enough for its counts to fit.
    pub open spec fn local_ok(self) -> bool {
        &&& all_below(oms(self.left), self.value.key())
        &&& all_above(oms(self.right), self.value.key())
        &&& self.n_ledu.0 == osize(self.left)
        &&& self.diff as int == ohgt(self.left) - ohgt(self.right)
        &&& self.size() <= usize::MAX
    }

    /// Well-formedness of the subtree rooted here: every node satisfies its
    /// local conditions and every balance factor has magnitude at most one.
    pub open spec fn wf(self) -> bool
        decreases self,
    {
        &&& owf(self.left)
        &&& owf(self.right)
        &&& self.local_ok()
        &&& -1 <= self.diff as int <= 1
    }

    /// Well-formedness, except that the balance factor at this node alone may
    /// have magnitude two: the transient state that triggers a rotation.
    pub open spec fn wf_loose(self) -> bool {
        &&& owf(self.left)
        &&& owf(self.right)
        &&& self.local_ok()
        &&& -2 <= self.diff as int <= 2
    }

    /// Balance by independent recomputation of the children's heights; the
    /// stored balance factors play no part in this statement.
    pub open spec fn balanced(self) -> bool
        decreases self,
    {
        &&& obalanced(self.left)
        &&& obalanced(self.right)
        &&& -1 <= ohgt(self.left) - ohgt(self.right) <= 1
    }

    /// The in-order key sequence of the subtree rooted here.
    pub open spec fn inorder(self) -> Seq<int>
        decreases self,
    {
        oinorder(self.left) + Seq::new(self.mult(), |i: int| self.value.key()) + oinorder(
            self.right,
        )
    }
}

/// `copies(v, k)` holds `k` copies of `v` and nothing else.
pub proof fn lemma_copies_count(v: int, k: nat, x: int)
    ensures
        copies(v, k).count(x) == if x == v {
            k
        } else {
            0
        },
    decreases k,
{
    if k > 0 {
        lemma_copies_count(v, (k - 1) as nat, x);
    }
}

/// `copies(v, k)` has `k` elements.
pub proof fn lemma_copies_len(v: int, k: nat)
    ensures
        copies(v, k).len() == k,
    decreases k,
{
    if k > 0 {
        lemma_copies_len(v, (k - 1) as nat);
    }
}

/// Counting below a bound distributes over multiset union.
pub proof fn lemma_cnt_lt_add(a: Multiset<int>, b: Multiset<int>, k: int)
    ensures
        cnt_lt(a.add(b), k) == cnt_lt(a, k) + cnt_lt(b, k),
{
    let f = |x: int| x < k;
    assert(a.add(b).filter(f) =~= a.filter(f).add(b.filter(f)));
}

/// When every key of `m` lies below `k`, all of `m` counts.
pub proof fn lemma_cnt_lt_all_below(m: Multiset<int>, k: int)
    requires
        forall|x: int| #[trigger] m.count(x) > 0 ==> x < k,
    ensures
        cnt_lt(m, k) == m.len(),
{
    let f = |x: int| x < k;
    assert(m.filter(f) =~= m);
}

/// When no key of `m` lies below `k`, nothing counts.
pub proof fn lemma_cnt_lt_none_below(m: Multiset<int>, k: int)
    requires
        forall|x: int| #[trigger] m.count(x) > 0 ==> x >= k,
    ensures
        cnt_lt(m, k) == 0,
{
    let f = |x: int| x < k;
    assert(m.filter(f) =~= Multiset::empty());
}

/// Counting below a bound never exceeds the total number of elements.
pub proof fn lemma_cnt_lt_le_len(m: Multiset<int>, k: int)
    ensures
        cnt_lt(m, k) <= m.len(),
{
    let f = |x: int| x < k;
    let g = |x: int| !(x < k);
    assert(m =~= m.filter(f).add(m.filter(g)));
    assert(m.len() == m.filter(f).len() + m.filter(g).len());
}

/// The elements below `k` in `copies(v, c)`.
pub proof fn lemma_cnt_lt_copies(v: int, c: nat, k: int)
    ensures
        cnt_lt(copies(v, c), k) == if v < k {
            c
        } else {
            0
        },
{
    let f = |x: int| x < k;
    if v < k {
        assert forall|x: int| #[trigger] copies(v, c).count(x) > 0 implies x < k by {
            lemma_copies_count(v, c, x);
        }
        lemma_cnt_lt_all_below(copies(v, c), k);
        lemma_copies_len(v, c);
    } else {
        assert forall|x: int| #[trigger] copies(v, c).count(x) > 0 implies x >= k by {
            lemma_copies_count(v, c, x);
        }
        lemma_cnt_lt_none_below(copies(v, c), k);
    }
}

/// The number of elements of a subtree equals the size of its key multiset.
pub proof fn lemma_oms_len<T: TreeElem>(o: Option<Box<AvlNode<T>>>)
    ensures
        oms(o).len() == osize(o),
    decreases o,
{
    match o {
        Some(n) => {
            lemma_oms_len(n.left);
            lemma_oms_len(n.right);
            lemma_copies_len(n.value.key(), n.mult());
        }
        None => {}
    }
}

/// How often `k` occurs in the subtree of a node whose children respect the
/// search ordering: decided by comparing `k` with the node's own key.
pub proof fn lemma_ms_count_at<T: TreeElem>(n: AvlNode<T>, k: int)
    requires
        all_below(oms(n.left), n.value.key()),
        all_above(oms(n.right), n.value.key()),
    ensures
        k < n.value.key() ==> n.ms().count(k) == oms(n.left).count(k),
        k > n.value.key() ==> n.ms().count(k) == oms(n.right).count(k),
        k == n.value.key() ==> n.ms().count(k) == n.n_ledu.1 + 1,
{
    lemma_copies_count(n.value.key(), n.mult(), k);
    if k < n.value.key() {
        assert(oms(n.right).count(k) == 0);
    } else if k > n.value.key() {
        assert(oms(n.left).count(k) == 0);
    } else {
        assert(oms(n.left).count(k) == 0);
        assert(oms(n.right).count(k) == 0);
    }
}

/// The height of a subtree never exceeds its element count.
pub proof fn lemma_hgt_le_size<T: TreeElem>(o: Option<Box<AvlNode<T>>>)
    ensures
        ohgt(o) <= osize(o),
    decreases o,
{
    match o {
        Some(n) => {
            lemma_hgt_le_size(n.left);
            lemma_hgt_le_size(n.right);
        }
        None => {}
    }
}

/// A well-formed subtree is balanced, by independent height recomputation.
pub proof fn lemma_wf_balanced<T: TreeElem>(o: Option<Box<AvlNode<T>>>)
    requires
        owf(o),
    ensures
        obalanced(o),
    decreases o,
{
    match o {
        Some(n) => {
            lemma_wf_balanced(n.left);
            lemma_wf_balanced(n.right);
        }
        None => {}
    }
}

/// A sequence is nondecreasing: later entries are at least earlier ones.
pub open spec fn nondecreasing(s: Seq<int>) -> bool {
    forall|i: int, j: int| 0 <= i <= j < s.len() ==> s[i] <= s[j]
}

/// The in-order traversal of a well-formed subtree is nondecreasing, visits
/// exactly the stored elements, and has one entry per stored element.
pub proof fn lemma_inorder_sorted<T: TreeElem>(o: Option<Box<AvlNode<T>>>)
    requires
        owf(o),
    ensures
        nondecreasing(oinorder(o)),
        oinorder(o).len() == osize(o),
        forall|i: int| 0 <= i < oinorder(o).len() ==> #[trigger] oms(o).count(oinorder(o)[i]) > 0,
    decreases o,
{
    match o {
        Some(n) => {
            lemma_inorder_sorted(n.left);
            lemma_inorder_sorted(n.right);
            let k = n.value.key();
            let ls = oinorder(n.left);
            let mid = Seq::new(n.mult(), |i: int| k);
            let rs = oinorder(n.right);
            let s = oinorder(o);
            assert(s == ls + mid + rs);
            lemma_copies_count(k, n.mult(), k);
            assert forall|i: int| 0 <= i < s.len() implies #[trigger] oms(o).count(s[i]) > 0 by {
                if i < ls.len() {
                    assert(s[i] == ls[i]);
                    assert(oms(n.left).count(ls[i]) > 0);
                } else if i < ls.len() + mid.len() {
                    assert(s[i] == k);
                    assert(n.ms().count(k) >= n.n_ledu.1 + 1);
                } else {
                    assert(s[i] == rs[i - ls.len() - mid.len()]);
                    assert(oms(n.right).count(s[i]) > 0);
                }
            }
            assert forall|i: int, j: int| 0 <= i <= j < s.len() implies s[i] <= s[j] by {
                let li = ls.len() as int;
                let mi = li + mid.len() as int;
                if i < li {
                    assert(oms(n.left).count(ls[i]) > 0);
                    assert(s[i] < k);
                }
                if mi <= j {
                    assert(oms(n.right).count(rs[j - mi]) > 0);
                    assert(s[j] > k);
                }
                if li <= i < mi {
                    assert(s[i] == k);
                }
                if li <= j < mi {
                    assert(s[j] == k);
                }
                if j < li {
                    assert(s[i] == ls[i] && s[j] == ls[j]);
                }
                if mi <= i {
                    assert(s[i] == rs[i - mi] && s[j] == rs[j - mi]);
                }
            }
        }
        None => {}
    }
}

impl<T: TreeElem> AvlNode<T> {
    /// Create a new leaf node holding one copy of `value`.
    pub fn new(value: T) -> (r: Self)
        ensures
            r.wf(),
            r.ms() == copies(value.key(), 1),
            r.size() == 1,
            r.hgt() == 1,
            r.value == value,
            r.diff == 0,
            r.n_ledu == (0usize, 0usize),
            r.left is None,
            r.right is None,
    {
        let r = Self { value, diff: 0, n_ledu: (0, 0), left: None, right: None };
        proof {
            assert(r.ms() =~= copies(value.key(), 1));
        }
        r
    }

    /// Search `value` and report its number of duplicates, or absence.
    pub fn search(&self, value: T) -> (r: Option<usize>)
        requires
            self.wf(),
        ensures
            r is Some <==> self.ms().count(value.key()) > 0,
            r is Some ==> r.unwrap() + 1 == self.ms().count(value.key()),
        decreases self,
    {
        proof {
            lemma_ms_count_at(*self, value.key());
        }
        if value.lt(&self.value) {
            match &self.left {
                Some(node) => node.search(value),
                None => None,
            }
        } else if value.gt(&self.value) {
            match &self.right {
                Some(node) => node.search(value),
                None => None,
            }
        } else {
            proof {
                lemma_copies_count(self.value.key(), self.mult(), value.key());
            }
            Some(self.n_ledu.1)
        }
    }

    /// Return the number of elements in the subtree rooted here, itself
    /// included, duplicates counted.
    pub fn len_child_and_self(&self) -> (r: usize)
        requires
            self.wf(),
        ensures
            r == self.size(),
        decreases self,
    {
        match &self.right {
            Some(node) => self.n_ledu.0 + self.n_ledu.1 + 1 + node.len_child_and_self(),
            None => self.n_ledu.0 + self.n_ledu.1 + 1,
        }
    }

    /// The number of elements of an optional subtree.
    fn opt_len(o: &Option<Box<AvlNode<T>>>) -> (r: usize)
        requires
            owf(*o),
        ensures
            r == osize(*o),
    {
        match o {
            Some(n) => n.len_child_and_self(),
            None => 0,
        }
    }

    /// Return the height of the subtree rooted here, by descending into the
    /// taller (or, on a tie, the left) child as told by the balance factor.
    pub fn height_child(&self) -> (r: usize)
        requires
            self.wf(),
        ensures
            r == self.hgt(),
        decreases self,
    {
        proof {
            lemma_hgt_le_size(self.left);
            lemma_hgt_le_size(self.right);
        }
        if self.diff >= 0 {
            match &self.left {
                Some(node) => 1 + node.height_child(),
                None => 1,
            }
        } else {
            match &self.right {
                Some(node) => 1 + node.height_child(),
                None => 1,
            }
        }
    }

    /// Return the maximum value in the subtree rooted here.
    pub fn max_child(&self) -> (r: T)
        requires
            self.wf(),
        ensures
            is_max_of(self.ms(), r.key()),
        decreases self,
    {
        proof {
            lemma_copies_count(self.value.key(), self.mult(), self.value.key());
        }
        match &self.right {
            Some(node) => {
                let r = node.max_child();
                proof {
                    assert(oms(self.right).count(r.key()) > 0);
                    assert(self.value.key() < r.key());
                    assert(self.ms().count(r.key()) > 0);
                    assert forall|x: int| #[trigger] self.ms().count(x) > 0 implies x <= r.key() by {
                        lemma_copies_count(self.value.key(), self.mult(), x);
                        if oms(self.left).count(x) > 0 {
                            assert(x < self.value.key());
                        }
                    }
                }
                r
            }
            None => {
                proof {
                    assert(self.ms().count(self.value.key()) > 0);
                    assert forall|x: int| #[trigger] self.ms().count(x) > 0 implies x
                        <= self.value.key() by {
                        lemma_copies_count(self.value.key(), self.mult(), x);
                    }
                }
                self.value
            }
        }
    }

    /// Return the minimum value in the subtree rooted here.
    pub fn min_child(&self) -> (r: T)
        requires
            self.wf(),
        ensures
            is_min_of(self.ms(), r.key()),
        decreases self,
    {
        proof {
            lemma_copies_count(self.value.key(), self.mult(), self.value.key());
        }
        match &self.left {
            Some(node) => {
                let r = node.min_child();
                proof {
                    assert(oms(self.left).count(r.key()) > 0);
                    assert(r.key() < self.value.key());
                    assert(self.ms().count(r.key()) > 0);
                    assert forall|x: int| #[trigger] self.ms().count(x) > 0 implies x >= r.key() by {
                        lemma_copies_count(self.value.key(), self.mult(), x);
                        if oms(self.right).count(x) > 0 {
                            assert(x > self.value.key());
                        }
                    }
                }
                r
            }
            None => {
                proof {
                    assert(self.ms().count(self.value.key()) > 0);
                    assert forall|x: int| #[trigger] self.ms().count(x) > 0 implies x
                        >= self.value.key() by {
                        lemma_copies_count(self.value.key(), self.mult(), x);
                    }
                }
                self.value
            }
        }
    }

    /// The height the left child had before the mutation that produced the
    /// signal `d` from the side `dir`, as accounted by a stale balance factor.
    pub open spec fn pre_hl(self, d: DeltaDiff, dir: Direction) -> int {
        match dir {
            Direction::Left => ohgt(self.left) - delta_val(d),
            Direction::Right => ohgt(self.left) as int,
        }
    }

    /// The height the right child had before the mutation that produced the
    /// signal `d` from the side `dir`.
    pub open spec fn pre_hr(self, d: DeltaDiff, dir: Direction) -> int {
        match dir {
            Direction::Left => ohgt(self.right) as int,
            Direction::Right => ohgt(self.right) - delta_val(d),
        }
    }

    /// The height this subtree had before the child mutation that produced
    /// the signal `d` from the side `dir`.
    pub open spec fn pre_hgt(self, d: DeltaDiff, dir: Direction) -> int {
        1 + if self.pre_hl(d, dir) >= self.pre_hr(d, dir) {
            self.pre_hl(d, dir)
        } else {
            self.pre_hr(d, dir)
        }
    }

    /// Rotate the subtree rooted here when its balance factor has magnitude
    /// two, restoring every balance factor in it to magnitude at most one;
    /// no-op otherwise. A single or double rotation is selected from the
    /// heavy child's balance factor, and the `number_of_less` count of every
    /// node whose left subtree changed is recomputed as that subtree's
    /// element count.
    /// Double rotation for a subtree leaning two to the left whose left child
    /// leans right: the pivot is the left child's right child.
    #[verifier::rlimit(100)]
    fn rotate_from_left_double(&mut self)
        requires
            old(self).wf_loose(),
            old(self).diff as int == 2,
            odiff(old(self).left) == -1,
        ensures
            final(self).wf(),
            final(self).ms() == old(self).ms(),
            final(self).size() == old(self).size(),
            final(self).hgt() as int == old(self).hgt() as int - 1,
    {
        let ghost old_ms = self.ms();
        let ghost old_size = self.size();
        let ghost old_hgt = self.hgt();
        let ghost hr = ohgt(self.right);
        proof {
            assert(ohgt(old(self).left) == hr + 2);
            assert(old(self).left is Some);
        }
        let mut l: Box<AvlNode<T>> = self.left.take().unwrap();
        let ghost l0 = *l;
        proof {
            assert(l0.wf());
            assert(1 + ohgt(l0.left) <= l0.hgt());
            assert(l0.hgt() == hr + 2);
        }
        // double rotation: the pivot is the left child's right child
        let ghost hll = ohgt(l0.left);
        proof {
            assert(ohgt(l0.right) == hll + 1);
            assert(l0.hgt() == 1 + ohgt(l0.right));
            assert(hll == hr);
            assert(l0.right is Some);
        }
        let mut lr: Box<AvlNode<T>> = l.right.take().unwrap();
        let ghost lr0 = *lr;
        proof {
            assert(lr0.wf());
            assert(lr0.hgt() == hr + 1);
            assert((if ohgt(lr0.left) >= ohgt(lr0.right) {
                ohgt(lr0.left) == hr
            } else {
                ohgt(lr0.right) == hr
            }));
        }
        l.right = lr.left.take();
        l.diff = if lr.diff == -1 {
            1
        } else {
            0
        };
        proof {
            lemma_copies_count(l0.value.key(), l0.mult(), l0.value.key());
            lemma_copies_count(lr0.value.key(), lr0.mult(), lr0.value.key());
            assert(oms(l0.right).count(lr0.value.key()) > 0);
            assert(old_ms.count(lr0.value.key()) > 0) by {
                assert(oms(old(self).left).count(lr0.value.key()) > 0);
            }
            // the rebuilt left child is well-formed
            assert forall|x: int| #[trigger] oms(lr0.left).count(x) > 0 implies x
                > l0.value.key() by {
                assert(lr0.ms().count(x) > 0);
            }
            assert(l.wf());
            assert(l.ms() =~= oms(l0.left).add(copies(l0.value.key(), l0.mult())).add(
                oms(lr0.left),
            ));
            assert(l.size() == osize(l0.left) + l0.mult() + osize(lr0.left));
            assert(l.hgt() == hr + 1);
        }
        let a_left = lr.right.take();
        let a_right = self.right.take();
        let a_less = Self::opt_len(&a_left);
        let a = AvlNode::<T> {
            value: self.value,
            diff: if lr.diff == 1 {
                -1
            } else {
                0
            },
            n_ledu: (a_less, self.n_ledu.1),
            left: a_left,
            right: a_right,
        };
        proof {
            assert forall|x: int| #[trigger] oms(lr0.right).count(x) > 0 implies x
                < old(self).value.key() by {
                assert(lr0.ms().count(x) > 0);
                assert(l0.ms().count(x) > 0);
                assert(oms(old(self).left).count(x) > 0);
            }
            assert(a.wf());
            assert(a.hgt() == hr + 1);
            assert(a.ms() =~= oms(lr0.right).add(
                copies(old(self).value.key(), old(self).mult()),
            ).add(oms(old(self).right)));
        }
        let ghost ap = a;
        let root_less = l.len_child_and_self();
        let ghost lp = *l;
        self.value = lr.value;
        self.diff = 0;
        self.n_ledu = (root_less, lr.n_ledu.1);
        self.left = Some(l);
        self.right = Some(Box::new(a));
        proof {
            assert(self.ms() == lp.ms().add(copies(lr0.value.key(), lr0.mult())).add(
                ap.ms(),
            ));
            assert(oms(old(self).left) =~= oms(l0.left).add(
                copies(l0.value.key(), l0.mult()),
            ).add(
                oms(lr0.left).add(copies(lr0.value.key(), lr0.mult())).add(oms(lr0.right)),
            ));
            assert(self.ms() =~= old_ms);
            // ordering at the new root
            assert(lr0.value.key() < old(self).value.key());
            assert forall|x: int| #[trigger] lp.ms().count(x) > 0 implies x
                < lr0.value.key() by {
                lemma_copies_count(l0.value.key(), l0.mult(), x);
                if oms(l0.left).count(x) > 0 {
                    assert(l0.ms().count(x) > 0);
                }
                if oms(lr0.left).count(x) > 0 {
                    assert(lr0.ms().count(x) > 0);
                }
            }
            assert forall|x: int| #[trigger] ap.ms().count(x) > 0 implies x
                > lr0.value.key() by {
                lemma_copies_count(old(self).value.key(), old(self).mult(), x);
                if oms(lr0.right).count(x) > 0 {
                    assert(lr0.ms().count(x) > 0);
                }
                if oms(old(self).right).count(x) > 0 {
                    assert(x > old(self).value.key());
                }
            }
            assert(self.hgt() == hr + 2);
            assert(old_hgt == hr + 3);
            assert(self.size() == old_size);
            assert(self.wf());
        }
    }

    /// Single rotation for a subtree leaning two to the left whose left child
    /// is even or leans left.
    #[verifier::rlimit(100)]
    fn rotate_from_left_single(&mut self)
        requires
            old(self).wf_loose(),
            old(self).diff as int == 2,
            odiff(old(self).left) == 0 || odiff(old(self).left) == 1,
        ensures
            final(self).wf(),
            final(self).ms() == old(self).ms(),
            final(self).size() == old(self).size(),
            final(self).hgt() as int == old(self).hgt() as int - (
            if odiff(old(self).left) == 0 {
                0int
            } else {
                1int
            }),
    {
        let ghost old_ms = self.ms();
        let ghost old_size = self.size();
        let ghost old_hgt = self.hgt();
        let ghost hr = ohgt(self.right);
        proof {
            assert(ohgt(old(self).left) == hr + 2);
            assert(old(self).left is Some);
        }
        let mut l: Box<AvlNode<T>> = self.left.take().unwrap();
        let ghost l0 = *l;
        proof {
            assert(l0.wf());
            assert(1 + ohgt(l0.left) <= l0.hgt());
            assert(l0.hgt() == hr + 2);
        }
        // single rotation to the right; the left child stays even or
        // leans left
        let ghost hll = ohgt(l0.left);
        let ghost hlr = ohgt(l0.right);
        proof {
            assert(l0.diff as int == 0 || l0.diff as int == 1);
            assert(hll == if l0.diff as int == 1 {
                hr + 1
            } else {
                hr + 1
            });
            assert(l0.hgt() == 1 + hll);
            assert(hll == hr + 1);
            assert(hlr as int == if l0.diff as int == 1 {
                hr as int
            } else {
                hr as int + 1
            });
        }
        let a_left = l.right.take();
        let a_right = self.right.take();
        let a_less = Self::opt_len(&a_left);
        let a_diff: i32 = if l.diff == 1 {
            0
        } else {
            1
        };
        let new_diff: i32 = if l.diff == 1 {
            0
        } else {
            -1
        };
        let a = AvlNode::<T> {
            value: self.value,
            diff: a_diff,
            n_ledu: (a_less, self.n_ledu.1),
            left: a_left,
            right: a_right,
        };
        proof {
            lemma_copies_count(l0.value.key(), l0.mult(), l0.value.key());
            assert(old_ms.count(l0.value.key()) > 0) by {
                assert(oms(old(self).left).count(l0.value.key()) > 0);
            }
            assert forall|x: int| #[trigger] oms(l0.right).count(x) > 0 implies x
                < old(self).value.key() by {
                assert(l0.ms().count(x) > 0);
                assert(oms(old(self).left).count(x) > 0);
            }
            assert(a.wf());
            assert(a.hgt() as int == 1 + if hlr >= hr {
                hlr as int
            } else {
                hr as int
            });
            assert(a.ms() =~= oms(l0.right).add(
                copies(old(self).value.key(), old(self).mult()),
            ).add(oms(old(self).right)));
        }
        let ghost ap = a;
        self.value = l.value;
        self.n_ledu = (l.n_ledu.0, l.n_ledu.1);
        self.diff = new_diff;
        self.left = l.left.take();
        self.right = Some(Box::new(a));
        proof {
            assert(self.ms() == oms(l0.left).add(copies(l0.value.key(), l0.mult())).add(
                ap.ms(),
            ));
            assert(oms(old(self).left) =~= oms(l0.left).add(
                copies(l0.value.key(), l0.mult()),
            ).add(oms(l0.right)));
            assert(self.ms() =~= old_ms);
            assert forall|x: int| #[trigger] ap.ms().count(x) > 0 implies x
                > l0.value.key() by {
                lemma_copies_count(old(self).value.key(), old(self).mult(), x);
                if oms(l0.right).count(x) > 0 {
                    assert(l0.ms().count(x) > 0);
                }
                if oms(old(self).right).count(x) > 0 {
                    assert(x > old(self).value.key());
                }
            }
            assert forall|x: int| #[trigger] oms(l0.left).count(x) > 0 implies x
                < l0.value.key() by {}
            assert(self.size() == old_size);
            assert(old_hgt == hr + 3);
            if l0.diff as int == 1 {
                assert(ap.hgt() == hr + 1);
                assert(self.hgt() == hr + 2);
            } else {
                assert(ap.hgt() == hr + 2);
                assert(self.hgt() == hr + 3);
            }
            assert(self.wf());
        }
    }

    /// Double rotation for a subtree leaning two to the right whose right
    /// child leans left: the pivot is the right child's left child.
    #[verifier::rlimit(100)]
    fn rotate_from_right_double(&mut self)
        requires
            old(self).wf_loose(),
            old(self).diff as int == -2,
            odiff(old(self).right) == 1,
        ensures
            final(self).wf(),
            final(self).ms() == old(self).ms(),
            final(self).size() == old(self).size(),
            final(self).hgt() as int == old(self).hgt() as int - 1,
    {
        let ghost old_ms = self.ms();
        let ghost old_size = self.size();
        let ghost old_hgt = self.hgt();
        let ghost hl = ohgt(self.left);
        proof {
            assert(ohgt(old(self).right) == hl + 2);
            assert(old(self).right is Some);
        }
        let mut rt: Box<AvlNode<T>> = self.right.take().unwrap();
        let ghost r0 = *rt;
        proof {
            assert(r0.wf());
            assert(1 + ohgt(r0.right) <= r0.hgt());
            assert(r0.hgt() == hl + 2);
        }
        // double rotation: the pivot is the right child's left child
        let ghost hrr = ohgt(r0.right);
        proof {
            assert(ohgt(r0.left) == hrr + 1);
            assert(r0.hgt() == 1 + ohgt(r0.left));
            assert(hrr == hl);
            assert(r0.left is Some);
        }
        let mut rl: Box<AvlNode<T>> = rt.left.take().unwrap();
        let ghost rl0 = *rl;
        proof {
            assert(rl0.wf());
            assert(rl0.hgt() == hl + 1);
            assert((if ohgt(rl0.left) >= ohgt(rl0.right) {
                ohgt(rl0.left) == hl
            } else {
                ohgt(rl0.right) == hl
            }));
        }
        rt.left = rl.right.take();
        rt.diff = if rl.diff == 1 {
            -1
        } else {
            0
        };
        let rt_less = Self::opt_len(&rt.left);
        rt.n_ledu = (rt_less, rt.n_ledu.1);
        proof {
            lemma_copies_count(r0.value.key(), r0.mult(), r0.value.key());
            lemma_copies_count(rl0.value.key(), rl0.mult(), rl0.value.key());
            assert(oms(r0.left).count(rl0.value.key()) > 0);
            assert(old_ms.count(rl0.value.key()) > 0) by {
                assert(oms(old(self).right).count(rl0.value.key()) > 0);
            }
            assert forall|x: int| #[trigger] oms(rl0.right).count(x) > 0 implies x
                < r0.value.key() by {
                assert(rl0.ms().count(x) > 0);
            }
            assert(rt.wf());
            assert(rt.ms() =~= oms(rl0.right).add(copies(r0.value.key(), r0.mult())).add(
                oms(r0.right),
            ));
            assert(rt.size() == osize(rl0.right) + r0.mult() + osize(r0.right));
            assert(rt.hgt() == hl + 1);
        }
        let b_right = rl.left.take();
        let b_left = self.left.take();
        let b_less = Self::opt_len(&b_left);
        let b = AvlNode::<T> {
            value: self.value,
            diff: if rl.diff == -1 {
                1
            } else {
                0
            },
            n_ledu: (b_less, self.n_ledu.1),
            left: b_left,
            right: b_right,
        };
        proof {
            assert forall|x: int| #[trigger] oms(rl0.left).count(x) > 0 implies x
                > old(self).value.key() by {
                assert(rl0.ms().count(x) > 0);
                assert(r0.ms().count(x) > 0);
                assert(oms(old(self).right).count(x) > 0);
            }
            assert(b.wf());
            assert(b.hgt() == hl + 1);
            assert(b.ms() =~= oms(old(self).left).add(
                copies(old(self).value.key(), old(self).mult()),
            ).add(oms(rl0.left)));
        }
        let ghost bp = b;
        let root_less = b.len_child_and_self();
        let ghost rp = *rt;
        self.value = rl.value;
        self.diff = 0;
        self.n_ledu = (root_less, rl.n_ledu.1);
        self.left = Some(Box::new(b));
        self.right = Some(rt);
        proof {
            assert(self.ms() == bp.ms().add(copies(rl0.value.key(), rl0.mult())).add(
                rp.ms(),
            ));
            assert(oms(old(self).right) =~= (oms(rl0.left).add(
                copies(rl0.value.key(), rl0.mult()),
            ).add(oms(rl0.right))).add(copies(r0.value.key(), r0.mult())).add(
                oms(r0.right),
            ));
            assert(self.ms() =~= old_ms);
            assert(rl0.value.key() > old(self).value.key());
            assert forall|x: int| #[trigger] bp.ms().count(x) > 0 implies x
                < rl0.value.key() by {
                lemma_copies_count(old(self).value.key(), old(self).mult(), x);
                if oms(rl0.left).count(x) > 0 {
                    assert(rl0.ms().count(x) > 0);
                }
                if oms(old(self).left).count(x) > 0 {
                    assert(x < old(self).value.key());
                }
            }
            assert forall|x: int| #[trigger] rp.ms().count(x) > 0 implies x
                > rl0.value.key() by {
                lemma_copies_count(r0.value.key(), r0.mult(), x);
                if oms(rl0.right).count(x) > 0 {
                    assert(rl0.ms().count(x) > 0);
                }
                if oms(r0.right).count(x) > 0 {
                    assert(x > r0.value.key());
                    assert(r0.ms().count(r0.value.key()) > 0);
                    assert(oms(old(self).right).count(r0.value.key()) > 0);
                    assert(rl0.ms().count(rl0.value.key()) > 0);
                    assert(oms(r0.left).count(rl0.value.key()) > 0);
                }
            }
            assert(self.hgt() == hl + 2);
            assert(old_hgt == hl + 3);
            assert(self.size() == old_size);
            assert(self.wf());
        }
    }

    /// Single rotation for a subtree leaning two to the right whose right
    /// child is even or leans right.
    #[verifier::rlimit(100)]
    fn rotate_from_right_single(&mut self)
        requires
            old(self).wf_loose(),
            old(self).diff as int == -2,
            odiff(old(self).right) == 0 || odiff(old(self).right) == -1,
        ensures
            final(self).wf(),
            final(self).ms() == old(self).ms(),
            final(self).size() == old(self).size(),
            final(self).hgt() as int == old(self).hgt() as int - (
            if odiff(old(self).right) == 0 {
                0int
            } else {
                1int
            }),
    {
        let ghost old_ms = self.ms();
        let ghost old_size = self.size();
        let ghost old_hgt = self.hgt();
        let ghost hl = ohgt(self.left);
        proof {
            assert(ohgt(old(self).right) == hl + 2);
            assert(old(self).right is Some);
        }
        let mut rt: Box<AvlNode<T>> = self.right.take().unwrap();
        let ghost r0 = *rt;
        proof {
            assert(r0.wf());
            assert(1 + ohgt(r0.right) <= r0.hgt());
            assert(r0.hgt() == hl + 2);
        }
        // single rotation to the left; the right child stays even or
        // leans right
        let ghost hrr = ohgt(r0.right);
        let ghost hrl = ohgt(r0.left);
        proof {
            assert(r0.diff as int == 0 || r0.diff as int == -1);
            assert(r0.hgt() == 1 + hrr);
            assert(hrr == hl + 1);
            assert(hrl as int == if r0.diff as int == -1 {
                hl as int
            } else {
                hl as int + 1
            });
        }
        let b_right = rt.left.take();
        let b_left = self.left.take();
        let b_less = Self::opt_len(&b_left);
        let b_diff: i32 = if rt.diff == -1 {
            0
        } else {
            -1
        };
        let new_diff: i32 = if rt.diff == -1 {
            0
        } else {
            1
        };
        let b = AvlNode::<T> {
            value: self.value,
            diff: b_diff,
            n_ledu: (b_less, self.n_ledu.1),
            left: b_left,
            right: b_right,
        };
        proof {
            lemma_copies_count(r0.value.key(), r0.mult(), r0.value.key());
            assert(old_ms.count(r0.value.key()) > 0) by {
                assert(oms(old(self).right).count(r0.value.key()) > 0);
            }
            assert forall|x: int| #[trigger] oms(r0.left).count(x) > 0 implies x
                > old(self).value.key() by {
                assert(r0.ms().count(x) > 0);
                assert(oms(old(self).right).count(x) > 0);
            }
            assert(b.wf());
            assert(b.hgt() as int == 1 + if hrl >= hl {
                hrl as int
            } else {
                hl as int
            });
            assert(b.ms() =~= oms(old(self).left).add(
                copies(old(self).value.key(), old(self).mult()),
            ).add(oms(r0.left)));
        }
        let ghost bp = b;
        let root_less = b.len_child_and_self();
        self.value = rt.value;
        self.n_ledu = (root_less, rt.n_ledu.1);
        self.diff = new_diff;
        self.right = rt.right.take();
        self.left = Some(Box::new(b));
        proof {
            assert(self.ms() == bp.ms().add(copies(r0.value.key(), r0.mult())).add(
                oms(r0.right),
            ));
            assert(oms(old(self).right) =~= oms(r0.left).add(
                copies(r0.value.key(), r0.mult()),
            ).add(oms(r0.right)));
            assert(self.ms() =~= old_ms);
            assert forall|x: int| #[trigger] bp.ms().count(x) > 0 implies x
                < r0.value.key() by {
                lemma_copies_count(old(self).value.key(), old(self).mult(), x);
                if oms(r0.left).count(x) > 0 {
                    assert(r0.ms().count(x) > 0);
                }
                if oms(old(self).left).count(x) > 0 {
                    assert(x < old(self).value.key());
                }
            }
            assert forall|x: int| #[trigger] oms(r0.right).count(x) > 0 implies x
                > r0.value.key() by {}
            assert(self.size() == old_size);
            assert(old_hgt == hl + 3);
            if r0.diff as int == -1 {
                assert(bp.hgt() == hl + 1);
                assert(self.hgt() == hl + 2);
            } else {
                assert(bp.hgt() == hl + 2);
                assert(self.hgt() == hl + 3);
            }
            assert(self.wf());
        }
    }

    /// Rotate the subtree rooted here when its balance factor has magnitude
    /// two, restoring every balance factor in it to magnitude at most one;
    /// no-op otherwise. A single or double rotation is selected from the
    /// heavy child's balance factor, and the `number_of_less` count of every
    /// node whose left subtree changed is recomputed as that subtree's
    /// element count.
    pub fn rotate(&mut self) -> (r: bool)
        requires
            old(self).wf_loose(),
        ensures
            r == (old(self).diff as int == 2 || old(self).diff as int == -2),
            !r ==> *final(self) == *old(self),
            final(self).wf(),
            final(self).ms() == old(self).ms(),
            final(self).size() == old(self).size(),
            old(self).diff as int == 2 ==> final(self).hgt() as int == old(self).hgt() as int - (
            if odiff(old(self).left) == 0 {
                0int
            } else {
                1int
            }),
            old(self).diff as int == -2 ==> final(self).hgt() as int == old(self).hgt() as int - (
            if odiff(old(self).right) == 0 {
                0int
            } else {
                1int
            }),
            !r ==> final(self).hgt() == old(self).hgt(),
    {
        if self.diff <= 1 && self.diff >= -1 {
            return false;
        }
        if self.diff == 2 {
            proof {
                assert(ohgt(old(self).left) == ohgt(old(self).right) + 2);
                assert(old(self).left is Some);
            }
            let is_double = match &self.left {
                Some(node) => node.diff == -1,
                None => false,
            };
            if is_double {
                self.rotate_from_left_double();
            } else {
                self.rotate_from_left_single();
            }
            true
        } else {
            proof {
                assert(self.diff == -2);
                assert(ohgt(old(self).right) == ohgt(old(self).left) + 2);
                assert(old(self).right is Some);
            }
            let is_double = match &self.right {
                Some(node) => node.diff == 1,
                None => false,
            };
            if is_double {
                self.rotate_from_right_double();
            } else {
                self.rotate_from_right_single();
            }
            true
        }
    }

    /// Absorb a child's height signal on the way back up from a mutation:
    /// update the balance factor, rotate when it reaches magnitude two, and
    /// report this subtree's own height signal to the parent.
    ///
    /// On entry the children are already in their new state, while the
    /// balance factor still accounts for the child heights from before the
    /// mutation; the signal `d_diff` says how the height of the child on the
    /// side `from_dir` changed.
    #[verifier::rlimit(100)]
    pub fn balance(&mut self, d_diff: DeltaDiff, from_dir: Direction) -> (r: DeltaDiff)
        requires
            owf(old(self).left),
            owf(old(self).right),
            all_below(oms(old(self).left), old(self).value.key()),
            all_above(oms(old(self).right), old(self).value.key()),
            old(self).n_ledu.0 == osize(old(self).left),
            old(self).size() <= usize::MAX,
            old(self).diff as int == old(self).pre_hl(d_diff, from_dir) - old(self).pre_hr(
                d_diff,
                from_dir,
            ),
            -1 <= old(self).diff as int <= 1,
            old(self).pre_hl(d_diff, from_dir) >= 0,
            old(self).pre_hr(d_diff, from_dir) >= 0,
            d_diff is Longer && from_dir is Left && ohgt(old(self).left) >= 2 ==> odiff(
                old(self).left,
            ) != 0,
            d_diff is Longer && from_dir is Right && ohgt(old(self).right) >= 2 ==> odiff(
                old(self).right,
            ) != 0,
        ensures
            final(self).wf(),
            final(self).ms() == old(self).ms(),
            final(self).size() == old(self).size(),
            final(self).hgt() as int == old(self).pre_hgt(d_diff, from_dir) + delta_val(r),
            r is Longer ==> d_diff is Longer,
            r is Shorter ==> d_diff is Shorter,
            r is Longer ==> final(self).diff != 0,
    {
        match d_diff {
            DeltaDiff::Zero => DeltaDiff::Zero,
            DeltaDiff::Longer => {
                match from_dir {
                    Direction::Left => {
                        self.diff = self.diff + 1;
                        if self.rotate() {
                            DeltaDiff::Zero
                        } else {
                            if self.diff > 0 {
                                DeltaDiff::Longer
                            } else {
                                DeltaDiff::Zero
                            }
                        }
                    }
                    Direction::Right => {
                        self.diff = self.diff - 1;
                        if self.rotate() {
                            DeltaDiff::Zero
                        } else {
                            if self.diff < 0 {
                                DeltaDiff::Longer
                            } else {
                                DeltaDiff::Zero
                            }
                        }
                    }
                }
            }
            DeltaDiff::Shorter => {
                match from_dir {
                    Direction::Left => {
                        self.diff = self.diff - 1;
                        if self.diff == -2 {
                            proof {
                                assert(ohgt(old(self).right) == ohgt(old(self).left) + 2);
                                assert(old(self).right is Some);
                            }
                            let zero_case = match &self.right {
                                Some(node) => node.diff == 0,
                                None => false,
                            };
                            let _ = self.rotate();
                            if zero_case {
                                DeltaDiff::Zero
                            } else {
                                DeltaDiff::Shorter
                            }
                        } else if self.diff >= 0 {
                            DeltaDiff::Shorter
                        } else {
                            DeltaDiff::Zero
                        }
                    }
                    Direction::Right => {
                        self.diff = self.diff + 1;
                        if self.diff == 2 {
                            proof {
                                assert(ohgt(old(self).left) == ohgt(old(self).right) + 2);
                                assert(old(self).left is Some);
                            }
                            let zero_case = match &self.left {
                                Some(node) => node.diff == 0,
                                None => false,
                            };
                            let _ = self.rotate();
                            if zero_case {
                                DeltaDiff::Zero
                            } else {
                                DeltaDiff::Shorter
                            }
                        } else if self.diff <= 0 {
                            DeltaDiff::Shorter
                        } else {
                            DeltaDiff::Zero
                        }
                    }
                }
            }
        }
    }

    /// Push `value` into an optional subtree, creating a leaf when absent.
    /// Reports the rank and prior multiplicity of `value` within this
    /// subtree, and the height signal.
    fn push_opt(node: &mut Option<Box<AvlNode<T>>>, value: T) -> (r: ((usize, usize), DeltaDiff))
        requires
            owf(*old(node)),
            osize(*old(node)) < usize::MAX,
        ensures
            owf(*final(node)),
            oms(*final(node)) == oms(*old(node)).insert(value.key()),
            osize(*final(node)) == osize(*old(node)) + 1,
            r.0.0 == cnt_lt(oms(*old(node)), value.key()),
            r.0.1 == oms(*old(node)).count(value.key()),
            ohgt(*final(node)) as int == ohgt(*old(node)) + delta_val(r.1),
            !(r.1 is Shorter),
            r.1 is Longer && ohgt(*final(node)) >= 2 ==> odiff(*final(node)) != 0,
        decreases *old(node),
    {
        match node.take() {
            None => {
                let leaf = AvlNode::new(value);
                proof {
                    assert forall|x: int|
                        leaf.ms().count(x) == oms(*old(node)).insert(value.key()).count(x) by {
                        lemma_copies_count(value.key(), 1, x);
                    }
                    assert(leaf.ms() =~= oms(*old(node)).insert(value.key()));
                    lemma_cnt_lt_none_below(Multiset::empty(), value.key());
                }
                *node = Some(Box::new(leaf));
                ((0, 0), DeltaDiff::Longer)
            }
            Some(mut boxed) => {
                let r = (&mut *boxed).push_child(value);
                *node = Some(boxed);
                r
            }
        }
    }

    /// Push `value` into the subtree rooted here and report
    /// `((number_of_less, number_of_duplicates), height_signal)` to the
    /// parent: the rank of `value` within this subtree and its multiplicity
    /// before this push.
    #[verifier::rlimit(100)]
    pub fn push_child(&mut self, value: T) -> (r: ((usize, usize), DeltaDiff))
        requires
            old(self).wf(),
            old(self).size() < usize::MAX,
        ensures
            final(self).wf(),
            final(self).ms() == old(self).ms().insert(value.key()),
            final(self).size() == old(self).size() + 1,
            r.0.0 == cnt_lt(old(self).ms(), value.key()),
            r.0.1 == old(self).ms().count(value.key()),
            final(self).hgt() as int == old(self).hgt() + delta_val(r.1),
            !(r.1 is Shorter),
            r.1 is Longer && final(self).hgt() >= 2 ==> final(self).diff != 0,
        decreases *old(self),
    {
        let ghost k = value.key();
        let ghost key0 = self.value.key();
        proof {
            lemma_oms_len(old(self).left);
            lemma_oms_len(old(self).right);
            lemma_cnt_lt_add(
                oms(old(self).left).add(copies(key0, old(self).mult())),
                oms(old(self).right),
                k,
            );
            lemma_cnt_lt_add(oms(old(self).left), copies(key0, old(self).mult()), k);
            lemma_cnt_lt_copies(key0, old(self).mult(), k);
            lemma_ms_count_at(*old(self), k);
        }
        if value.lt(&self.value) {
            proof {
                lemma_cnt_lt_none_below(oms(old(self).right), k);
                lemma_cnt_lt_le_len(oms(old(self).left), k);
            }
            self.n_ledu.0 = self.n_ledu.0 + 1;
            let (n_ledu, d_diff) = Self::push_opt(&mut self.left, value);
            let d_out = self.balance(d_diff, Direction::Left);
            proof {
                assert(final(self).ms() =~= old(self).ms().insert(k));
            }
            (n_ledu, d_out)
        } else if value.gt(&self.value) {
            proof {
                lemma_cnt_lt_all_below(oms(old(self).left), k);
                lemma_cnt_lt_le_len(oms(old(self).right), k);
            }
            let (n_ledu, d_diff) = Self::push_opt(&mut self.right, value);
            let rank = n_ledu.0 + self.n_ledu.0 + self.n_ledu.1 + 1;
            let d_out = self.balance(d_diff, Direction::Right);
            proof {
                assert(final(self).ms() =~= old(self).ms().insert(k));
            }
            ((rank, n_ledu.1), d_out)
        } else {
            proof {
                lemma_copies_count(key0, old(self).mult(), k);
                lemma_cnt_lt_all_below(oms(old(self).left), k);
                lemma_cnt_lt_none_below(oms(old(self).right), k);
            }
            self.n_ledu.1 = self.n_ledu.1 + 1;
            proof {
                assert(self.ms() =~= old(self).ms().insert(k));
                assert(self.hgt() == old(self).hgt());
            }
            ((self.n_ledu.0, self.n_ledu.1), DeltaDiff::Zero)
        }
    }

    /// Remove one occurrence of the maximum of a nonempty optional subtree
    /// and return it with the height signal.
    #[verifier::rlimit(100)]
    pub(crate) fn pop_max_opt(node: &mut Option<Box<AvlNode<T>>>) -> (r: (T, DeltaDiff))
        requires
            *old(node) is Some,
            owf(*old(node)),
        ensures
            owf(*final(node)),
            is_max_of(oms(*old(node)), r.0.key()),
            oms(*final(node)) == oms(*old(node)).remove(r.0.key()),
            osize(*final(node)) + 1 == osize(*old(node)),
            ohgt(*final(node)) as int == ohgt(*old(node)) + delta_val(r.1),
            !(r.1 is Longer),
        decreases *old(node),
    {
        let mut b = node.take().unwrap();
        let ghost b0 = *b;
        let ghost key0 = b0.value.key();
        proof {
            lemma_copies_count(key0, b0.mult(), key0);
        }
        if b.right.is_some() {
            let (v, d) = Self::pop_max_opt(&mut b.right);
            let ghost k = v.key();
            proof {
                assert(oms(b0.right).count(k) > 0);
                assert(k > key0);
            }
            let d2 = b.balance(d, Direction::Right);
            *node = Some(b);
            proof {
                assert forall|x: int|
                    oms(*final(node)).count(x) == oms(*old(node)).remove(k).count(x) by {
                    lemma_copies_count(key0, b0.mult(), x);
                }
                assert(oms(*final(node)) =~= oms(*old(node)).remove(k));
                assert forall|x: int| #[trigger] b0.ms().count(x) > 0 implies x <= k by {
                    lemma_copies_count(key0, b0.mult(), x);
                    if oms(b0.left).count(x) > 0 {
                        assert(x < key0);
                    }
                }
                assert(b0.ms().count(k) > 0);
            }
            (v, d2)
        } else {
            let v = b.value;
            proof {
                assert(ohgt(b0.right) == 0);
                assert(b0.ms().count(key0) > 0);
                assert forall|x: int| #[trigger] b0.ms().count(x) > 0 implies x <= key0 by {
                    lemma_copies_count(key0, b0.mult(), x);
                    if oms(b0.left).count(x) > 0 {
                        assert(x < key0);
                    }
                }
            }
            if b.n_ledu.1 > 0 {
                b.n_ledu.1 = b.n_ledu.1 - 1;
                *node = Some(b);
                proof {
                    assert forall|x: int|
                        oms(*final(node)).count(x) == oms(*old(node)).remove(key0).count(x) by {
                        lemma_copies_count(key0, b0.mult(), x);
                        lemma_copies_count(key0, (b0.n_ledu.1) as nat, x);
                    }
                    assert(oms(*final(node)) =~= oms(*old(node)).remove(key0));
                }
                (v, DeltaDiff::Zero)
            } else {
                *node = b.left.take();
                proof {
                    assert forall|x: int|
                        oms(*final(node)).count(x) == oms(*old(node)).remove(key0).count(x) by {
                        lemma_copies_count(key0, b0.mult(), x);
                    }
                    assert(oms(*final(node)) =~= oms(*old(node)).remove(key0));
                }
                (v, DeltaDiff::Shorter)
            }
        }
    }

    /// Remove one occurrence of the minimum of a nonempty optional subtree
    /// and return it with the height signal, keeping the `number_of_less`
    /// counts along the descent accurate.
    #[verifier::rlimit(100)]
    pub(crate) fn pop_min_opt(node: &mut Option<Box<AvlNode<T>>>) -> (r: (T, DeltaDiff))
        requires
            *old(node) is Some,
            owf(*old(node)),
        ensures
            owf(*final(node)),
            is_min_of(oms(*old(node)), r.0.key()),
            oms(*final(node)) == oms(*old(node)).remove(r.0.key()),
            osize(*final(node)) + 1 == osize(*old(node)),
            ohgt(*final(node)) as int == ohgt(*old(node)) + delta_val(r.1),
            !(r.1 is Longer),
        decreases *old(node),
    {
        let mut b = node.take().unwrap();
        let ghost b0 = *b;
        let ghost key0 = b0.value.key();
        proof {
            lemma_copies_count(key0, b0.mult(), key0);
        }
        if b.left.is_some() {
            let (v, d) = Self::pop_min_opt(&mut b.left);
            let ghost k = v.key();
            proof {
                assert(oms(b0.left).count(k) > 0);
                assert(k < key0);
                assert(osize(b0.left) >= 1);
            }
            b.n_ledu.0 = b.n_ledu.0 - 1;
            let d2 = b.balance(d, Direction::Left);
            *node = Some(b);
            proof {
                assert forall|x: int|
                    oms(*final(node)).count(x) == oms(*old(node)).remove(k).count(x) by {
                    lemma_copies_count(key0, b0.mult(), x);
                }
                assert(oms(*final(node)) =~= oms(*old(node)).remove(k));
                assert forall|x: int| #[trigger] b0.ms().count(x) > 0 implies x >= k by {
                    lemma_copies_count(key0, b0.mult(), x);
                    if oms(b0.right).count(x) > 0 {
                        assert(x > key0);
                    }
                }
                assert(b0.ms().count(k) > 0);
            }
            (v, d2)
        } else {
            let v = b.value;
            proof {
                assert(ohgt(b0.left) == 0);
                assert(b0.ms().count(key0) > 0);
                assert forall|x: int| #[trigger] b0.ms().count(x) > 0 implies x >= key0 by {
                    lemma_copies_count(key0, b0.mult(), x);
                    if oms(b0.right).count(x) > 0 {
                        assert(x > key0);
                    }
                }
            }
            if b.n_ledu.1 > 0 {
                b.n_ledu.1 = b.n_ledu.1 - 1;
                *node = Some(b);
                proof {
                    assert forall|x: int|
                        oms(*final(node)).count(x) == oms(*old(node)).remove(key0).count(x) by {
                        lemma_copies_count(key0, b0.mult(), x);
                        lemma_copies_count(key0, (b0.n_ledu.1) as nat, x);
                    }
                    assert(oms(*final(node)) =~= oms(*old(node)).remove(key0));
                }
                (v, DeltaDiff::Zero)
            } else {
                *node = b.right.take();
                proof {
                    assert forall|x: int|
                        oms(*final(node)).count(x) == oms(*old(node)).remove(key0).count(x) by {
                        lemma_copies_count(key0, b0.mult(), x);
                    }
                    assert(oms(*final(node)) =~= oms(*old(node)).remove(key0));
                }
                (v, DeltaDiff::Shorter)
            }
        }
    }

    /// Remove the maximum node of a nonempty optional subtree with its whole
    /// multiplicity, returning `(value, number_of_duplicates)` and the
    /// height signal.
    #[verifier::rlimit(100)]
    pub(crate) fn pop_max_all_opt(node: &mut Option<Box<AvlNode<T>>>) -> (r: (T, usize, DeltaDiff))
        requires
            *old(node) is Some,
            owf(*old(node)),
        ensures
            owf(*final(node)),
            is_max_of(oms(*old(node)), r.0.key()),
            r.1 + 1 == oms(*old(node)).count(r.0.key()),
            oms(*final(node)) == drop_key(oms(*old(node)), r.0.key()),
            osize(*final(node)) + r.1 + 1 == osize(*old(node)),
            ohgt(*final(node)) as int == ohgt(*old(node)) + delta_val(r.2),
            !(r.2 is Longer),
        decreases *old(node),
    {
        let mut b = node.take().unwrap();
        let ghost b0 = *b;
        let ghost key0 = b0.value.key();
        proof {
            lemma_copies_count(key0, b0.mult(), key0);
        }
        if b.right.is_some() {
            let (v, dup, d) = Self::pop_max_all_opt(&mut b.right);
            let ghost k = v.key();
            proof {
                assert(oms(b0.right).count(k) > 0);
                assert(k > key0);
            }
            let d2 = b.balance(d, Direction::Right);
            *node = Some(b);
            proof {
                assert forall|x: int|
                    oms(*final(node)).count(x) == drop_key(oms(*old(node)), k).count(x) by {
                    lemma_copies_count(key0, b0.mult(), x);
                }
                assert(oms(*final(node)) =~= drop_key(oms(*old(node)), k));
                assert forall|x: int| #[trigger] b0.ms().count(x) > 0 implies x <= k by {
                    lemma_copies_count(key0, b0.mult(), x);
                    if oms(b0.left).count(x) > 0 {
                        assert(x < key0);
                    }
                }
                assert(b0.ms().count(k) == oms(b0.right).count(k)) by {
                    lemma_ms_count_at(b0, k);
                }
            }
            (v, dup, d2)
        } else {
            let v = b.value;
            let dup = b.n_ledu.1;
            proof {
                assert(ohgt(b0.right) == 0);
                assert(b0.ms().count(key0) > 0);
                assert forall|x: int| #[trigger] b0.ms().count(x) > 0 implies x <= key0 by {
                    lemma_copies_count(key0, b0.mult(), x);
                    if oms(b0.left).count(x) > 0 {
                        assert(x < key0);
                    }
                }
            }
            *node = b.left.take();
            proof {
                assert forall|x: int|
                    oms(*final(node)).count(x) == drop_key(oms(*old(node)), key0).count(x) by {
                    lemma_copies_count(key0, b0.mult(), x);
                }
                assert(oms(*final(node)) =~= drop_key(oms(*old(node)), key0));
                assert(b0.ms().count(key0) == b0.mult()) by {
                    lemma_ms_count_at(b0, key0);
                }
            }
            (v, dup, DeltaDiff::Shorter)
        }
    }

    /// Remove the minimum node of a nonempty optional subtree with its whole
    /// multiplicity, returning `(value, number_of_duplicates)` and the
    /// height signal, keeping the `number_of_less` counts along the descent
    /// accurate.
    #[verifier::rlimit(100)]
    pub(crate) fn pop_min_all_opt(node: &mut Option<Box<AvlNode<T>>>) -> (r: (T, usize, DeltaDiff))
        requires
            *old(node) is Some,
            owf(*old(node)),
        ensures
            owf(*final(node)),
            is_min_of(oms(*old(node)), r.0.key()),
            r.1 + 1 == oms(*old(node)).count(r.0.key()),
            oms(*final(node)) == drop_key(oms(*old(node)), r.0.key()),
            osize(*final(node)) + r.1 + 1 == osize(*old(node)),
            ohgt(*final(node)) as int == ohgt(*old(node)) + delta_val(r.2),
            !(r.2 is Longer),
        decreases *old(node),
    {
        let mut b = node.take().unwrap();
        let ghost b0 = *b;
        let ghost key0 = b0.value.key();
        proof {
            lemma_copies_count(key0, b0.mult(), key0);
        }
        if b.left.is_some() {
            let (v, dup, d) = Self::pop_min_all_opt(&mut b.left);
            let ghost k = v.key();
            proof {
                assert(oms(b0.left).count(k) > 0);
                assert(k < key0);
                assert(oms(b0.left).count(k) <= oms(b0.left).len());
                lemma_oms_len(b0.left);
                assert(osize(b0.left) >= dup + 1);
            }
            b.n_ledu.0 = b.n_ledu.0 - dup - 1;
            let d2 = b.balance(d, Direction::Left);
            *node = Some(b);
            proof {
                assert forall|x: int|
                    oms(*final(node)).count(x) == drop_key(oms(*old(node)), k).count(x) by {
                    lemma_copies_count(key0, b0.mult(), x);
                }
                assert(oms(*final(node)) =~= drop_key(oms(*old(node)), k));
                assert forall|x: int| #[trigger] b0.ms().count(x) > 0 implies x >= k by {
                    lemma_copies_count(key0, b0.mult(), x);
                    if oms(b0.right).count(x) > 0 {
                        assert(x > key0);
                    }
                }
                assert(b0.ms().count(k) == oms(b0.left).count(k)) by {
                    lemma_ms_count_at(b0, k);
                }
            }
            (v, dup, d2)
        } else {
            let v = b.value;
            let dup = b.n_ledu.1;
            proof {
                assert(ohgt(b0.left) == 0);
                assert(b0.ms().count(key0) > 0);
                assert forall|x: int| #[trigger] b0.ms().count(x) > 0 implies x >= key0 by {
                    lemma_copies_count(key0, b0.mult(), x);
                    if oms(b0.right).count(x) > 0 {
                        assert(x > key0);
                    }
                }
            }
            *node = b.right.take();
            proof {
                assert forall|x: int|
                    oms(*final(node)).count(x) == drop_key(oms(*old(node)), key0).count(x) by {
                    lemma_copies_count(key0, b0.mult(), x);
                }
                assert(oms(*final(node)) =~= drop_key(oms(*old(node)), key0));
                assert(b0.ms().count(key0) == b0.mult()) by {
                    lemma_ms_count_at(b0, key0);
                }
            }
            (v, dup, DeltaDiff::Shorter)
        }
    }

    /// Remove one occurrence of the value held at the root node of a
    /// nonempty subtree: decrement its duplicate count when one is left,
    /// else splice the node out, replacing it by its single child or by its
    /// in-order predecessor (when it leans left or is even) or successor
    /// (otherwise), moved in with its whole multiplicity.
    #[verifier::rlimit(100)]
    pub(crate) fn remove_at_root(node: &mut Option<Box<AvlNode<T>>>) -> (r: DeltaDiff)
        requires
            *old(node) is Some,
            owf(*old(node)),
        ensures
            owf(*final(node)),
            oms(*final(node)) == oms(*old(node)).remove(okey(*old(node))),
            osize(*final(node)) + 1 == osize(*old(node)),
            ohgt(*final(node)) as int == ohgt(*old(node)) + delta_val(r),
            !(r is Longer),
    {
        let mut b = node.take().unwrap();
        let ghost b0 = *b;
        let ghost key0 = b0.value.key();
        let ghost k = key0;
        proof {
            lemma_ms_count_at(b0, k);
            lemma_copies_count(key0, b0.mult(), k);
        }
            if b.n_ledu.1 > 0 {
                b.n_ledu.1 = b.n_ledu.1 - 1;
                *node = Some(b);
                proof {
                    assert forall|x: int|
                        oms(*final(node)).count(x) == oms(*old(node)).remove(k).count(
                            x,
                        ) by {
                        lemma_copies_count(key0, b0.mult(), x);
                        lemma_copies_count(key0, (b0.n_ledu.1) as nat, x);
                    }
                    assert(oms(*final(node)) =~= oms(*old(node)).remove(k));
                }
                DeltaDiff::Zero
            } else if b.left.is_some() && b.right.is_some() {
                if b.diff >= 0 {
                    let (pv, pdup, d) = Self::pop_max_all_opt(&mut b.left);
                    proof {
                        assert(oms(b0.left).count(pv.key()) > 0);
                        assert(pv.key() < key0);
                        assert(osize(b0.left) >= pdup + 1);
                        assert forall|x: int| #[trigger] oms(b.left).count(x)
                            > 0 implies x < pv.key() by {}
                        assert forall|x: int| #[trigger] oms(b0.right).count(x)
                            > 0 implies x > pv.key() by {}
                    }
                    b.value = pv;
                    b.n_ledu = (b.n_ledu.0 - pdup - 1, pdup);
                    let d2 = b.balance(d, Direction::Left);
                    *node = Some(b);
                    proof {
                        assert forall|x: int|
                            oms(*final(node)).count(x) == oms(*old(node)).remove(k).count(
                                x,
                            ) by {
                            lemma_copies_count(key0, b0.mult(), x);
                            lemma_copies_count(pv.key(), (pdup + 1) as nat, x);
                        }
                        assert(oms(*final(node)) =~= oms(*old(node)).remove(k));
                    }
                    d2
                } else {
                    let (pv, pdup, d) = Self::pop_min_all_opt(&mut b.right);
                    proof {
                        assert(oms(b0.right).count(pv.key()) > 0);
                        assert(pv.key() > key0);
                        assert forall|x: int| #[trigger] oms(b.right).count(x)
                            > 0 implies x > pv.key() by {}
                        assert forall|x: int| #[trigger] oms(b0.left).count(x)
                            > 0 implies x < pv.key() by {}
                    }
                    b.value = pv;
                    b.n_ledu = (b.n_ledu.0, pdup);
                    let d2 = b.balance(d, Direction::Right);
                    *node = Some(b);
                    proof {
                        assert forall|x: int|
                            oms(*final(node)).count(x) == oms(*old(node)).remove(k).count(
                                x,
                            ) by {
                            lemma_copies_count(key0, b0.mult(), x);
                            lemma_copies_count(pv.key(), (pdup + 1) as nat, x);
                        }
                        assert(oms(*final(node)) =~= oms(*old(node)).remove(k));
                    }
                    d2
                }
            } else if b.left.is_some() {
                *node = b.left.take();
                proof {
                    assert forall|x: int|
                        oms(*final(node)).count(x) == oms(*old(node)).remove(k).count(
                            x,
                        ) by {
                        lemma_copies_count(key0, b0.mult(), x);
                    }
                    assert(oms(*final(node)) =~= oms(*old(node)).remove(k));
                    assert(ohgt(b0.left) == 1);
                }
                DeltaDiff::Shorter
            } else if b.right.is_some() {
                *node = b.right.take();
                proof {
                    assert forall|x: int|
                        oms(*final(node)).count(x) == oms(*old(node)).remove(k).count(
                            x,
                        ) by {
                        lemma_copies_count(key0, b0.mult(), x);
                    }
                    assert(oms(*final(node)) =~= oms(*old(node)).remove(k));
                    assert(ohgt(b0.right) == 1);
                }
                DeltaDiff::Shorter
            } else {
                *node = None;
                proof {
                    assert forall|x: int|
                        oms(*final(node)).count(x) == oms(*old(node)).remove(k).count(
                            x,
                        ) by {
                        lemma_copies_count(key0, b0.mult(), x);
                    }
                    assert(oms(*final(node)) =~= oms(*old(node)).remove(k));
                }
                DeltaDiff::Shorter
            }
    }

    /// Remove one occurrence of `value` from an optional subtree, reporting
    /// whether it was present and the height signal. A node holding the last
    /// occurrence is spliced out; when it has two children its place is taken
    /// by its in-order predecessor (when this subtree leans left or is even)
    /// or successor (otherwise), moved here with its whole multiplicity.
    #[verifier::rlimit(100)]
    fn remove_opt(node: &mut Option<Box<AvlNode<T>>>, value: T) -> (r: (bool, DeltaDiff))
        requires
            owf(*old(node)),
        ensures
            owf(*final(node)),
            r.0 == (oms(*old(node)).count(value.key()) > 0),
            r.0 ==> oms(*final(node)) == oms(*old(node)).remove(value.key()) && osize(
                *final(node),
            ) + 1 == osize(*old(node)) && ohgt(*final(node)) as int == ohgt(*old(node))
                + delta_val(r.1) && !(r.1 is Longer),
            !r.0 ==> *final(node) == *old(node) && r.1 is Zero,
        decreases *old(node),
    {
        let ghost k = value.key();
        match node.take() {
            None => (false, DeltaDiff::Zero),
            Some(mut b) => {
                let ghost b0 = *b;
                let ghost key0 = b0.value.key();
                proof {
                    lemma_ms_count_at(b0, k);
                    lemma_copies_count(key0, b0.mult(), k);
                }
                if value.lt(&b.value) {
                    let (rm, d) = Self::remove_opt(&mut b.left, value);
                    if rm {
                        proof {
                            assert(osize(b0.left) >= 1);
                        }
                        b.n_ledu.0 = b.n_ledu.0 - 1;
                        let d2 = b.balance(d, Direction::Left);
                        *node = Some(b);
                        proof {
                            assert forall|x: int|
                                oms(*final(node)).count(x) == oms(*old(node)).remove(k).count(
                                    x,
                                ) by {
                                lemma_copies_count(key0, b0.mult(), x);
                            }
                            assert(oms(*final(node)) =~= oms(*old(node)).remove(k));
                        }
                        (true, d2)
                    } else {
                        *node = Some(b);
                        (false, DeltaDiff::Zero)
                    }
                } else if value.gt(&b.value) {
                    let (rm, d) = Self::remove_opt(&mut b.right, value);
                    if rm {
                        let d2 = b.balance(d, Direction::Right);
                        *node = Some(b);
                        proof {
                            assert forall|x: int|
                                oms(*final(node)).count(x) == oms(*old(node)).remove(k).count(
                                    x,
                                ) by {
                                lemma_copies_count(key0, b0.mult(), x);
                            }
                            assert(oms(*final(node)) =~= oms(*old(node)).remove(k));
                        }
                        (true, d2)
                    } else {
                        *node = Some(b);
                        (false, DeltaDiff::Zero)
                    }
                } else {
                    *node = Some(b);
                    let d = Self::remove_at_root(node);
                    proof {
                        assert(oms(*old(node)).count(k) > 0);
                    }
                    (true, d)
                }
            }
        }
    }

    /// Remove one occurrence of `value` from the subtree rooted here, when
    /// `value` is not held at this node itself, and report the height signal
    /// to the parent; absence, or a `value` equal to this node's own, is
    /// reported as an error with the subtree unchanged.
    pub fn remove_child(&mut self, value: T) -> (r: Result<DeltaDiff, ()>)
        requires
            old(self).wf(),
        ensures
            match r {
                Ok(d) => {
                    &&& value.key() != old(self).value.key()
                    &&& old(self).ms().count(value.key()) > 0
                    &&& final(self).wf()
                    &&& final(self).ms() == old(self).ms().remove(value.key())
                    &&& final(self).size() + 1 == old(self).size()
                    &&& final(self).hgt() as int == old(self).hgt() + delta_val(d)
                    &&& !(d is Longer)
                },
                Err(()) => {
                    &&& *final(self) == *old(self)
                    &&& (value.key() == old(self).value.key() || old(self).ms().count(value.key())
                        == 0)
                },
            },
    {
        let ghost k = value.key();
        proof {
            lemma_ms_count_at(*old(self), k);
        }
        if value.lt(&self.value) {
            let (rm, d) = Self::remove_opt(&mut self.left, value);
            if rm {
                proof {
                    assert(osize(old(self).left) >= 1);
                }
                self.n_ledu.0 = self.n_ledu.0 - 1;
                let d2 = self.balance(d, Direction::Left);
                proof {
                    assert forall|x: int|
                        final(self).ms().count(x) == old(self).ms().remove(k).count(x) by {}
                    assert(final(self).ms() =~= old(self).ms().remove(k));
                }
                Ok(d2)
            } else {
                Err(())
            }
        } else if value.gt(&self.value) {
            let (rm, d) = Self::remove_opt(&mut self.right, value);
            if rm {
                let d2 = self.balance(d, Direction::Right);
                proof {
                    assert forall|x: int|
                        final(self).ms().count(x) == old(self).ms().remove(k).count(x) by {}
                    assert(final(self).ms() =~= old(self).ms().remove(k));
                }
                Ok(d2)
            } else {
                Err(())
            }
        } else {
            Err(())
        }
    }

    /// Remove one occurrence of the maximum of the subtree below this node
    /// and report `(value, height_signal)` to the parent; when this node has
    /// no right child the maximum is this node itself, which is reported as
    /// an error with the subtree unchanged.
    pub fn pop_max_child(&mut self) -> (r: Result<(T, DeltaDiff), ()>)
        requires
            old(self).wf(),
        ensures
            match r {
                Ok(p) => {
                    &&& old(self).right is Some
                    &&& is_max_of(old(self).ms(), p.0.key())
                    &&& final(self).wf()
                    &&& final(self).ms() == old(self).ms().remove(p.0.key())
                    &&& final(self).size() + 1 == old(self).size()
                    &&& final(self).hgt() as int == old(self).hgt() + delta_val(p.1)
                    &&& !(p.1 is Longer)
                },
                Err(()) => *final(self) == *old(self) && old(self).right is None,
            },
    {
        if self.right.is_some() {
            let (v, d) = Self::pop_max_opt(&mut self.right);
            let ghost k = v.key();
            proof {
                assert(oms(old(self).right).count(k) > 0);
                assert(k > old(self).value.key());
            }
            let d2 = self.balance(d, Direction::Right);
            proof {
                assert forall|x: int|
                    final(self).ms().count(x) == old(self).ms().remove(k).count(x) by {
                    lemma_copies_count(old(self).value.key(), old(self).mult(), x);
                }
                assert(final(self).ms() =~= old(self).ms().remove(k));
                assert forall|x: int| #[trigger] old(self).ms().count(x) > 0 implies x <= k by {
                    lemma_copies_count(old(self).value.key(), old(self).mult(), x);
                    if oms(old(self).left).count(x) > 0 {
                        assert(x < old(self).value.key());
                    }
                }
            }
            Ok((v, d2))
        } else {
            Err(())
        }
    }

    /// Remove one occurrence of the minimum of the subtree below this node
    /// and report `(value, height_signal)` to the parent; when this node has
    /// no left child the minimum is this node itself, which is reported as
    /// an error with the subtree unchanged.
    pub fn pop_min_child(&mut self) -> (r: Result<(T, DeltaDiff), ()>)
        requires
            old(self).wf(),
        ensures
            match r {
                Ok(p) => {
                    &&& old(self).left is Some
                    &&& is_min_of(old(self).ms(), p.0.key())
                    &&& final(self).wf()
                    &&& final(self).ms() == old(self).ms().remove(p.0.key())
                    &&& final(self).size() + 1 == old(self).size()
                    &&& final(self).hgt() as int == old(self).hgt() + delta_val(p.1)
                    &&& !(p.1 is Longer)
                },
                Err(()) => *final(self) == *old(self) && old(self).left is None,
            },
    {
        if self.left.is_some() {
            let (v, d) = Self::pop_min_opt(&mut self.left);
            let ghost k = v.key();
            proof {
                assert(oms(old(self).left).count(k) > 0);
                assert(k < old(self).value.key());
                assert(osize(old(self).left) >= 1);
            }
            self.n_ledu.0 = self.n_ledu.0 - 1;
            let d2 = self.balance(d, Direction::Left);
            proof {
                assert forall|x: int|
                    final(self).ms().count(x) == old(self).ms().remove(k).count(x) by {
                    lemma_copies_count(old(self).value.key(), old(self).mult(), x);
                }
                assert(final(self).ms() =~= old(self).ms().remove(k));
                assert forall|x: int| #[trigger] old(self).ms().count(x) > 0 implies x >= k by {
                    lemma_copies_count(old(self).value.key(), old(self).mult(), x);
                    if oms(old(self).right).count(x) > 0 {
                        assert(x > old(self).value.key());
                    }
                }
            }
            Ok((v, d2))
        } else {
            Err(())
        }
    }

    /// Remove the maximum of the subtree below this node with its whole
    /// multiplicity and report `((value, number_of_duplicates),
    /// height_signal)` to the parent; when this node has no right child the
    /// maximum is this node itself, which is reported as an error with the
    /// subtree unchanged.
    pub fn pop_max_all_child(&mut self) -> (r: Result<((T, usize), DeltaDiff), ()>)
        requires
            old(self).wf(),
        ensures
            match r {
                Ok(p) => {
                    &&& old(self).right is Some
                    &&& is_max_of(old(self).ms(), p.0.0.key())
                    &&& p.0.1 + 1 == old(self).ms().count(p.0.0.key())
                    &&& final(self).wf()
                    &&& final(self).ms() == drop_key(old(self).ms(), p.0.0.key())
                    &&& final(self).size() + p.0.1 + 1 == old(self).size()
                    &&& final(self).hgt() as int == old(self).hgt() + delta_val(p.1)
                    &&& !(p.1 is Longer)
                },
                Err(()) => *final(self) == *old(self) && old(self).right is None,
            },
    {
        if self.right.is_some() {
            let (v, dup, d) = Self::pop_max_all_opt(&mut self.right);
            let ghost k = v.key();
            proof {
                assert(oms(old(self).right).count(k) > 0);
                assert(k > old(self).value.key());
                lemma_ms_count_at(*old(self), k);
            }
            let d2 = self.balance(d, Direction::Right);
            proof {
                assert forall|x: int|
                    final(self).ms().count(x) == drop_key(old(self).ms(), k).count(x) by {
                    lemma_copies_count(old(self).value.key(), old(self).mult(), x);
                }
                assert(final(self).ms() =~= drop_key(old(self).ms(), k));
                assert forall|x: int| #[trigger] old(self).ms().count(x) > 0 implies x <= k by {
                    lemma_copies_count(old(self).value.key(), old(self).mult(), x);
                    if oms(old(self).left).count(x) > 0 {
                        assert(x < old(self).value.key());
                    }
                }
            }
            Ok(((v, dup), d2))
        } else {
            Err(())
        }
    }

    /// Remove the minimum of the subtree below this node with its whole
    /// multiplicity and report `((value, number_of_duplicates),
    /// height_signal)` to the parent; when this node has no left child the
    /// minimum is this node itself, which is reported as an error with the
    /// subtree unchanged.
    pub fn pop_min_all_child(&mut self) -> (r: Result<((T, usize), DeltaDiff), ()>)
        requires
            old(self).wf(),
        ensures
            match r {
                Ok(p) => {
                    &&& old(self).left is Some
                    &&& is_min_of(old(self).ms(), p.0.0.key())
                    &&& p.0.1 + 1 == old(self).ms().count(p.0.0.key())
                    &&& final(self).wf()
                    &&& final(self).ms() == drop_key(old(self).ms(), p.0.0.key())
                    &&& final(self).size() + p.0.1 + 1 == old(self).size()
                    &&& final(self).hgt() as int == old(self).hgt() + delta_val(p.1)
                    &&& !(p.1 is Longer)
                },
                Err(()) => *final(self) == *old(self) && old(self).left is None,
            },
    {
        if self.left.is_some() {
            let (v, dup, d) = Self::pop_min_all_opt(&mut self.left);
            let ghost k = v.key();
            proof {
                assert(oms(old(self).left).count(k) > 0);
                assert(k < old(self).value.key());
                lemma_ms_count_at(*old(self), k);
                assert(osize(old(self).left) >= dup + 1);
            }
            self.n_ledu.0 = self.n_ledu.0 - dup - 1;
            let d2 = self.balance(d, Direction::Left);
            proof {
                assert forall|x: int|
                    final(self).ms().count(x) == drop_key(old(self).ms(), k).count(x) by {
                    lemma_copies_count(old(self).value.key(), old(self).mult(), x);
                }
                assert(final(self).ms() =~= drop_key(old(self).ms(), k));
                assert forall|x: int| #[trigger] old(self).ms().count(x) > 0 implies x >= k by {
                    lemma_copies_count(old(self).value.key(), old(self).mult(), x);
                    if oms(old(self).right).count(x) > 0 {
                        assert(x > old(self).value.key());
                    }
                }
            }
            Ok(((v, dup), d2))
        } else {
            Err(())
        }
    }

    /// Recompute the heights of both children independently and confirm that
    /// their difference is the stored balance factor.
    pub fn check_diff(&self)
        requires
            self.wf(),
    {
        let hl = match &self.left {
            Some(node) => node.height_child(),
            None => 0,
        };
        let hr = match &self.right {
            Some(node) => node.height_child(),
            None => 0,
        };
        assert(hl as int - hr as int == self.diff as int);
    }
}

} // verus!
