//! The element trait of the tree, and a tie-breaking wrapper.

use vstd::prelude::*;

verus! {

/// An element that can be stored in the tree: a cheaply copyable value with a
/// total order, described in specifications by a mathematical key.
///
/// Two elements compare exactly as their keys do, so the order is total and
/// transitive. Elements whose keys are equal are treated as duplicates of one
/// another by the tree.
pub trait TreeElem: Sized + Copy {
    /// The mathematical key this element is ordered by.
    spec fn key(self) -> int;

    /// Strict comparison: `self` orders strictly before `other`.
    fn lt(&self, other: &Self) -> (r: bool)
        ensures
            r <==> self.key() < other.key(),
    ;

    /// Strict comparison: `self` orders strictly after `other`.
    fn gt(&self, other: &Self) -> (r: bool)
        ensures
            r <==> self.key() > other.key(),
    ;
}

impl TreeElem for i8 {
    open spec fn key(self) -> int {
        self as int
    }

    fn lt(&self, other: &Self) -> bool {
        *self < *other
    }

    fn gt(&self, other: &Self) -> bool {
        *self > *other
    }
}

impl TreeElem for i16 {
    open spec fn key(self) -> int {
        self as int
    }

    fn lt(&self, other: &Self) -> bool {
        *self < *other
    }

    fn gt(&self, other: &Self) -> bool {
        *self > *other
    }
}

impl TreeElem for i32 {
    open spec fn key(self) -> int {
        self as int
    }

    fn lt(&self, other: &Self) -> bool {
        *self < *other
    }

    fn gt(&self, other: &Self) -> bool {
        *self > *other
    }
}

impl TreeElem for i64 {
    open spec fn key(self) -> int {
        self as int
    }

    fn lt(&self, other: &Self) -> bool {
        *self < *other
    }

    fn gt(&self, other: &Self) -> bool {
        *self > *other
    }
}

impl TreeElem for i128 {
    open spec fn key(self) -> int {
        self as int
    }

    fn lt(&self, other: &Self) -> bool {
        *self < *other
    }

    fn gt(&self, other: &Self) -> bool {
        *self > *other
    }
}

impl TreeElem for isize {
    open spec fn key(self) -> int {
        self as int
    }

    fn lt(&self, other: &Self) -> bool {
        *self < *other
    }

    fn gt(&self, other: &Self) -> bool {
        *self > *other
    }
}

impl TreeElem for u8 {
    open spec fn key(self) -> int {
        self as int
    }

    fn lt(&self, other: &Self) -> bool {
        *self < *other
    }

    fn gt(&self, other: &Self) -> bool {
        *self > *other
    }
}

impl TreeElem for u16 {
    open spec fn key(self) -> int {
        self as int
    }

    fn lt(&self, other: &Self) -> bool {
        *self < *other
    }

    fn gt(&self, other: &Self) -> bool {
        *self > *other
    }
}

impl TreeElem for u32 {
    open spec fn key(self) -> int {
        self as int
    }

    fn lt(&self, other: &Self) -> bool {
        *self < *other
    }

    fn gt(&self, other: &Self) -> bool {
        *self > *other
    }
}

impl TreeElem for u64 {
    open spec fn key(self) -> int {
        self as int
    }

    fn lt(&self, other: &Self) -> bool {
        *self < *other
    }

    fn gt(&self, other: &Self) -> bool {
        *self > *other
    }
}

impl TreeElem for u128 {
    open spec fn key(self) -> int {
        self as int
    }

    fn lt(&self, other: &Self) -> bool {
        *self < *other
    }

    fn gt(&self, other: &Self) -> bool {
        *self > *other
    }
}

impl TreeElem for usize {
    open spec fn key(self) -> int {
        self as int
    }

    fn lt(&self, other: &Self) -> bool {
        *self < *other
    }

    fn gt(&self, other: &Self) -> bool {
        *self > *other
    }
}

/// A wrapper that supplies a strict order outcome even between two elements
/// whose keys are equal: on a tie the direction is drawn at random. Equal
/// values still count as equal for equality purposes, so repeated comparisons
/// of the same tied pair may disagree with one another by design.
#[derive(Clone, Copy)]
pub struct OrdEqElem<T: TreeElem> {
    /// The wrapped value.
    pub value: T,
}

impl<T: TreeElem> OrdEqElem<T> {
    /// Wrap a value.
    pub fn new(value: T) -> (r: Self)
        ensures
            r.value == value,
    {
        Self { value }
    }

    /// Whether the two wrapped values are duplicates of one another.
    pub fn equals(&self, other: &Self) -> (r: bool)
        ensures
            r <==> self.value.key() == other.value.key(),
    {
        !self.value.lt(&other.value) && !self.value.gt(&other.value)
    }

    /// Strict-order comparison. When the keys differ the result follows the
    /// keys; when they are equal the direction is decided by a random draw,
    /// so either outcome is possible.
    pub fn before(&self, other: &Self) -> (r: bool)
        ensures
            self.value.key() < other.value.key() ==> r,
            self.value.key() > other.value.key() ==> !r,
    {
        if self.value.lt(&other.value) {
            true
        } else if self.value.gt(&other.value) {
            false
        } else {
            coin_flip()
        }
    }
}

/// Relies on `rand::random::<bool>`: a coin flip from the thread-local
/// generator. Nothing is promised of the outcome.
#[verifier::external_body]
fn coin_flip() -> bool {
    rand::random::<bool>()
}

} // verus!
