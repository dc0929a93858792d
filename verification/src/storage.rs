//! Device buffers owned by backends the tensor hub does not depend on.
use std::sync::Arc;
use vstd::prelude::*;

verus! {

/// A device buffer owned by an out-of-tree backend. The hub sees only its
/// element count; the owning backend keeps its concrete allocation behind
/// `inner` (typically `dyn Any + Send + Sync`, which it downcasts).
pub struct OpaqueBuffer<B: ?Sized> {
    inner: Arc<B>,
    len: usize,
}

impl<B: ?Sized> OpaqueBuffer<B> {
    /// The element count the buffer was created with.
    pub closed spec fn len_view(&self) -> usize {
        self.len
    }

    /// The backend's allocation.
    pub closed spec fn inner_view(&self) -> Arc<B> {
        self.inner
    }

    /// Wrap a backend allocation holding `len` elements.
    pub fn new(inner: Arc<B>, len: usize) -> (r: OpaqueBuffer<B>)
        ensures
            r.len_view() == len,
            r.inner_view() == inner,
    {
        OpaqueBuffer { inner, len }
    }

    /// The backend's allocation, for it to downcast.
    pub fn inner(&self) -> (r: &Arc<B>)
        ensures
            *r == self.inner_view(),
    {
        &self.inner
    }

    /// Elements the allocation holds.
    pub fn len(&self) -> (r: usize)
        ensures
            r == self.len_view(),
    {
        self.len
    }

    /// Whether the allocation holds no elements.
    pub fn is_empty(&self) -> (r: bool)
        ensures
            r == (self.len_view() == 0),
    {
        self.len == 0
    }
}

} // verus!
