//! Values on the kernel heap, and a tree shape built from them.
use vstd::prelude::*;

verus! {

/// A value on the kernel heap, owned by the box.
pub struct Kbox<T> {
    inner: Box<T>,
}

impl<T> Kbox<T> {
    /// The value held.
    pub closed spec fn value(&self) -> T {
        *self.inner
    }

    /// Move `data` to the heap.
    pub fn new(data: T) -> (b: Self)
        ensures
            b.value() == data,
    {
        Kbox { inner: Box::new(data) }
    }

    /// The value held.
    pub fn get(&self) -> (r: &T)
        ensures
            *r == self.value(),
    {
        &self.inner
    }

    /// Take the value back from the heap.
    pub fn into_inner(self) -> (r: T)
        ensures
            r == self.value(),
    {
        *self.inner
    }
}

/// A node of a binary tree: its two subtrees on the heap.
pub struct BalBst<T> {
    pub left: Option<Kbox<T>>,
    pub right: Option<Kbox<T>>,
}

} // verus!
