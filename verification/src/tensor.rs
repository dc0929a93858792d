//! The tensor: shared storage viewed through a layout. Views (`permute`,
//! `narrow`, `reshape` of a contiguous tensor, `broadcast_to`, …) are new
//! layouts over the same storage; `contiguous` materializes a view's
//! elements in logical order.
use crate::error::{Error, Issue};
use crate::gather::{gather_logical, logical_values};
use crate::index::{
    is_permutation, is_row_major, lemma_numel_pos, lemma_unravel, numel_of, permuted, unravel,
    valid_index,
};
use crate::layout::{as_coord, Layout};
use crate::shape::{checked_numel, copy_usizes, Shape};
use crate::views::{broadcast_source, broadcasts_onto};
use std::sync::Arc;
use vstd::prelude::*;

verus! {

/// A tensor: storage shared between views, read through a layout that
/// addresses only elements the storage holds.
#[derive(Debug)]
pub struct Tensor<T> {
    storage: Arc<Vec<T>>,
    layout: Layout,
}

impl<T> Tensor<T> {
    /// Every element the layout addresses lies in the storage.
    #[verifier::type_invariant]
    spec fn inv(&self) -> bool {
        self.layout.within(self.storage@.len() as int)
    }

    /// The extents.
    pub closed spec fn shape_view(&self) -> Seq<usize> {
        self.layout.shape@
    }

    /// The storage's elements.
    pub closed spec fn storage_view(&self) -> Seq<T> {
        self.storage@
    }

    /// The layout.
    pub closed spec fn layout_view(&self) -> Layout {
        self.layout
    }

    /// The element at coordinate `c`.
    pub closed spec fn element(&self, c: Seq<int>) -> T {
        self.storage@[self.layout.addr(c)]
    }

    /// Every element in logical (row-major) order.
    pub closed spec fn values(&self) -> Seq<T> {
        logical_values(self.storage@, self.layout)
    }

    /// The elements in logical order are the elements at the unravelled
    /// coordinates.
    pub proof fn lemma_values(&self)
        ensures
            self.values().len() == numel_of(self.shape_view()),
            forall|x: int|
                0 <= x < numel_of(self.shape_view()) ==> #[trigger] self.values()[x] == self.element(
                    unravel(self.shape_view(), x),
                ),
    {
    }

    /// Each element is the storage entry its layout addresses.
    pub proof fn lemma_element(&self, c: Seq<int>)
        ensures
            self.element(c) == self.storage_view()[self.layout_view().addr(c)],
    {
    }

    /// A contiguous tensor holding `data` with shape `shape`.
    /// `ShapeOverflow` when the element count (or a row-major stride) does
    /// not fit; `ShapeMismatch` when `data.len()` differs from the count.
    pub fn from_vec(data: Vec<T>, shape: Shape) -> (r: Result<Tensor<T>, Error>)
        ensures
            r matches Err(e) ==> crate::error::names_op(e, "Tensor::from_vec"@),
            r matches Ok(t) ==> t.shape_view() == shape@ && t.values() == data@ && t.storage_view()
                == data@ && is_row_major(shape@, t.layout_view().strides@)
                && t.layout_view().offset == 0,
            numel_of(shape@) <= usize::MAX && data@.len() != numel_of(shape@) ==> (r matches Err(e)
                && e matches Error::ShapeMismatch { expected, got, .. } && expected@ == seq![
                data@.len() as usize] && got@ == shape@),
            numel_of(shape@) > usize::MAX ==> (r matches Err(e) && e is ShapeOverflow),
            r is Err ==> data@.len() != numel_of(shape@) || (exists|i: int|
                0 <= i < shape@.len() && #[trigger] crate::index::cstride(shape@, i) > isize::MAX)
                || data@.len() > isize::MAX + 1,
            r matches Err(e) ==> (e is ShapeOverflow || e is ShapeMismatch),
            r matches Err(e) && e is ShapeMismatch ==> data@.len() != numel_of(shape@),
            r is Ok <==> (data@.len() == numel_of(shape@) && data@.len() <= isize::MAX + 1 && (
            forall|i: int|
                0 <= i < shape@.len() ==> #[trigger] crate::index::cstride(shape@, i)
                    <= isize::MAX)),
    {
        Tensor::from_vec_as(data, shape, "Tensor::from_vec")
    }

    /// [`Tensor::from_vec`] with its errors naming the operation `op`
    /// (the typed constructors of the element types each name their own).
    pub fn from_vec_as(data: Vec<T>, shape: Shape, op: &'static str) -> (r: Result<Tensor<T>, Error>)
        ensures
            r matches Err(e) ==> crate::error::names_op(e, op@),
            r matches Ok(t) ==> t.shape_view() == shape@ && t.values() == data@ && t.storage_view()
                == data@ && is_row_major(shape@, t.layout_view().strides@)
                && t.layout_view().offset == 0,
            numel_of(shape@) <= usize::MAX && data@.len() != numel_of(shape@) ==> (r matches Err(e)
                && e matches Error::ShapeMismatch { expected, got, .. } && expected@ == seq![
                data@.len() as usize] && got@ == shape@),
            numel_of(shape@) > usize::MAX ==> (r matches Err(e) && e is ShapeOverflow),
            r is Err ==> data@.len() != numel_of(shape@) || (exists|i: int|
                0 <= i < shape@.len() && #[trigger] crate::index::cstride(shape@, i) > isize::MAX)
                || data@.len() > isize::MAX + 1,
            r matches Err(e) ==> (e is ShapeOverflow || e is ShapeMismatch),
            r matches Err(e) && e is ShapeMismatch ==> data@.len() != numel_of(shape@),
            r is Ok <==> (data@.len() == numel_of(shape@) && data@.len() <= isize::MAX + 1 && (
            forall|i: int|
                0 <= i < shape@.len() ==> #[trigger] crate::index::cstride(shape@, i)
                    <= isize::MAX)),
    {
        let dl = data.len();
        let numel = match checked_numel(shape.dims()) {
            Some(n) => n,
            None => {
                return Err(Error::ShapeOverflow { dims: copy_usizes(shape.dims()), op });
            },
        };
        if data.len() != numel {
            let mut e: Vec<usize> = Vec::new();
            e.push(data.len());
            return Err(
                Error::ShapeMismatch { expected: Shape::new(e), got: shape, op },
            );
        }
        if numel > 0 && numel - 1 > isize::MAX as usize {
            return Err(Error::ShapeOverflow { dims: copy_usizes(shape.dims()), op });
        }
        let layout = match Layout::contiguous(shape) {
            Ok(l) => l,
            Err(e) => {
                return Err(e.relabel(op));
            },
        };
        proof {
            assert forall|c: Seq<int>| #[trigger] valid_index(layout.shape@, c) implies 0
                <= layout.addr(c) < data@.len() && layout.addr(c) <= isize::MAX by {
                crate::index::lemma_linear(layout.shape@, c);
                crate::index::lemma_row_major(layout.shape@, layout.strides@, c);
            }
            assert forall|x: int| 0 <= x < numel implies #[trigger] logical_values(
                data@,
                layout,
            )[x] == data@[x] by {
                crate::gather::lemma_contiguous_addresses(layout, x);
            }
            assert(logical_values(data@, layout) =~= data@);
            assert forall|i: int| 0 <= i < layout.shape@.len() implies #[trigger] crate::index::cstride(
                layout.shape@,
                i,
            ) <= isize::MAX by {
                assert(layout.strides@[i] as int == crate::index::cstride(layout.shape@, i) as int);
            }
        }
        Ok(Tensor { storage: Arc::new(data), layout })
    }

    /// A tensor over existing storage with an explicit layout, or a typed
    /// error when the layout addresses elements outside the storage (see
    /// [`Layout::check_within`]).
    pub fn from_storage(storage: Arc<Vec<T>>, layout: Layout) -> (r: Result<Tensor<T>, Error>)
        ensures
            r is Ok <==> layout.within(storage@.len() as int),
            r matches Ok(t) ==> t.layout_view().same_as(&layout) && t.storage_view() == storage@
                && t.shape_view() == layout.shape@,
            r matches Ok(t) ==> forall|c: Seq<int>|
                #[trigger] valid_index(layout.shape@, c) ==> t.element(c) == storage@[layout.addr(c)],
            r matches Err(e) ==> crate::error::names_op(e, "Tensor::from_storage"@),
            !layout.wf() ==> (r matches Err(e) && e matches Error::InvalidArgument {
                issue: Issue::StrideCount { .. },
                ..
            }),
            layout.wf() && numel_of(layout.shape@) > usize::MAX ==> (r matches Err(e)
                && e is ShapeOverflow),
            layout.wf() && numel_of(layout.shape@) <= usize::MAX && !layout.within(
                storage@.len() as int,
            ) ==> (r matches Err(e) && e matches Error::InvalidArgument {
                issue: Issue::LayoutOutOfBounds { .. },
                ..
            }),
    {
        match layout.check_within(storage.len()) {
            Ok(()) => Ok(Tensor { storage, layout }),
            Err(e) => Err(e),
        }
    }

    /// The shape of this view.
    pub fn shape(&self) -> (r: &Shape)
        ensures
            r@ == self.shape_view(),
    {
        &self.layout.shape
    }

    /// The extents, outermost first.
    pub fn dims(&self) -> (r: &[usize])
        ensures
            r@ == self.shape_view(),
    {
        self.layout.shape.dims()
    }

    /// The rank.
    pub fn ndim(&self) -> (r: usize)
        ensures
            r == self.shape_view().len(),
    {
        self.layout.shape.ndim()
    }

    /// The element count.
    pub fn numel(&self) -> (r: usize)
        ensures
            r == numel_of(self.shape_view()),
    {
        proof {
            use_type_invariant(self);
        }
        self.layout.shape.numel()
    }

    /// The full layout of this view.
    pub fn layout(&self) -> (r: &Layout)
        ensures
            r.same_as(&self.layout_view()),
    {
        &self.layout
    }

    /// The shared storage behind this view.
    pub fn storage(&self) -> (r: &Arc<Vec<T>>)
        ensures
            r@ == self.storage_view(),
    {
        &self.storage
    }
}

impl<T: Copy> Tensor<T> {
    /// The element at a logical index: `RankMismatch` for the wrong number
    /// of coordinates, `IndexOutOfBounds` for a coordinate past its extent.
    pub fn get(&self, index: &[usize]) -> (r: Result<T, Error>)
        ensures
            r is Ok <==> valid_index(self.shape_view(), as_coord(index@)),
            r matches Ok(v) ==> v == self.element(as_coord(index@)),
            r matches Err(e) ==> (e is RankMismatch || e is IndexOutOfBounds),
    {
        proof {
            use_type_invariant(self);
        }
        match self.layout.offset_of(index) {
            Ok(o) => {
                proof {
                    assert forall|j: int| 0 <= j < self.layout.shape@.len() implies #[trigger] self.layout.shape@[j]
                        > 0 by {
                        assert(0 <= as_coord(index@)[j] < self.layout.shape@[j]);
                    }
                    crate::index::lemma_numel_pos_converse(self.layout.shape@);
                }
                Ok(self.storage[o])
            },
            Err(e) => Err(e),
        }
    }

    /// Every element in logical (row-major) order.
    pub fn to_vec(&self) -> (r: Vec<T>)
        ensures
            r@ == self.values(),
    {
        proof {
            use_type_invariant(self);
        }
        gather_logical(self.storage.as_slice(), &self.layout)
    }
}

/// The permutation of `0..n` that swaps `d0` and `d1`.
pub open spec fn swap_perm(n: int, d0: int, d1: int) -> Seq<usize> {
    Seq::new(
        n as nat,
        |i: int|
            if i == d0 {
                d1 as usize
            } else if i == d1 {
                d0 as usize
            } else {
                i as usize
            },
    )
}

/// Reading a sequence through `swap_perm` exchanges exactly its entries
/// at `d0` and `d1` and keeps every other one; doing it twice gives the
/// sequence back.
pub proof fn law_swap_exchanges<A>(x: Seq<A>, d0: int, d1: int)
    requires
        0 <= d0 < x.len(),
        0 <= d1 < x.len(),
        x.len() <= usize::MAX,
    ensures
        permuted(x, swap_perm(x.len() as int, d0, d1)) == x.update(d0, x[d1]).update(d1, x[d0]),
        permuted(permuted(x, swap_perm(x.len() as int, d0, d1)), swap_perm(x.len() as int, d0, d1))
            == x,
{
    let p = swap_perm(x.len() as int, d0, d1);
    let y = permuted(x, p);
    let z = x.update(d0, x[d1]).update(d1, x[d0]);
    assert forall|i: int| 0 <= i < x.len() implies #[trigger] y[i] == z[i] by {
        if i == d1 {
            assert(p[i] as int == d0);
        } else if i == d0 {
            assert(p[i] as int == d1);
        } else {
            assert(p[i] as int == i);
        }
    }
    assert(y =~= z);
    assert forall|i: int| 0 <= i < x.len() implies #[trigger] permuted(y, p)[i] == x[i] by {
        assert(permuted(y, p)[i] == y[p[i] as int]);
        if i == d1 {
            assert(p[i] as int == d0);
        } else if i == d0 {
            assert(p[i] as int == d1);
        } else {
            assert(p[i] as int == i);
        }
    }
    assert(permuted(y, p) =~= x);
}

impl<T> Clone for Tensor<T> {
    /// A new handle on the same view: the layout is copied and the storage
    /// shared.
    fn clone(&self) -> (r: Self)
        ensures
            r.layout_view().same_as(&self.layout_view()),
            r.storage_view() == self.storage_view(),
            r.values() == self.values(),
            r.shape_view() == self.shape_view(),
            forall|c: Seq<int>| #[trigger] r.element(c) == self.element(c),
    {
        proof {
            use_type_invariant(self);
        }
        let l = self.layout.copy();
        let r = Tensor { storage: Arc::clone(&self.storage), layout: l };
        proof {
            assert(r.values() =~= self.values());
        }
        r
    }
}

impl<T> Tensor<T> {
    /// A view with dimensions reordered by `perm` (a permutation of
    /// `0..ndim`); `NotAPermutation` otherwise.
    pub fn permute(&self, perm: &[usize]) -> (r: Result<Tensor<T>, Error>)
        ensures
            r matches Err(e) ==> crate::error::names_op(e, "permute"@),
            r is Ok <==> is_permutation(perm@, self.shape_view().len() as int),
            r matches Ok(v) ==> v.shape_view() == permuted(self.shape_view(), perm@)
                && v.storage_view() == self.storage_view() && forall|c: Seq<int>|
                #[trigger] valid_index(self.shape_view(), c) ==> v.element(permuted(c, perm@))
                    == self.element(c),
            r matches Err(e) ==> e matches Error::InvalidArgument {
                issue: Issue::NotAPermutation { perm: p, rank },
                ..
            } && p@ == perm@ && rank == self.shape_view().len(),
    {
        proof {
            use_type_invariant(self);
        }
        match self.layout.permute(perm) {
            Ok(l) => Ok(Tensor { storage: Arc::clone(&self.storage), layout: l }),
            Err(e) => Err(e),
        }
    }

    /// A view with dimensions `d0` and `d1` swapped; `DimOutOfRange` when
    /// either is past the rank.
    pub fn transpose(&self, d0: usize, d1: usize) -> (r: Result<Tensor<T>, Error>)
        ensures
            r matches Err(e) ==> crate::error::names_op(e, "transpose"@),
            r is Ok <==> d0 < self.shape_view().len() && d1 < self.shape_view().len(),
            r matches Ok(v) ==> v.shape_view() == permuted(
                self.shape_view(),
                swap_perm(self.shape_view().len() as int, d0 as int, d1 as int),
            ) && v.storage_view() == self.storage_view() && forall|c: Seq<int>|
                #[trigger] valid_index(self.shape_view(), c) ==> v.element(
                    permuted(c, swap_perm(self.shape_view().len() as int, d0 as int, d1 as int)),
                ) == self.element(c),
            r matches Ok(v) ==> v.shape_view() == self.shape_view().update(
                d0 as int,
                self.shape_view()[d1 as int],
            ).update(d1 as int, self.shape_view()[d0 as int]),
            r matches Ok(v) ==> forall|c: Seq<int>|
                #[trigger] valid_index(self.shape_view(), c) ==> v.element(
                    c.update(d0 as int, c[d1 as int]).update(d1 as int, c[d0 as int]),
                ) == self.element(c),
            r matches Err(e) ==> e matches Error::InvalidArgument {
                issue: Issue::DimOutOfRange { .. },
                ..
            },
    {
        let n = self.ndim();
        if d0 >= n || d1 >= n {
            let bad = if d0 >= n {
                d0
            } else {
                d1
            };
            return Err(
                Error::InvalidArgument {
                    op: "transpose",
                    issue: Issue::DimOutOfRange { dim: bad, rank: n },
                },
            );
        }
        let mut perm: Vec<usize> = Vec::new();
        let mut i: usize = 0;
        while i < n
            invariant
                i <= n,
                perm@ =~= swap_perm(n as int, d0 as int, d1 as int).take(i as int),
            decreases n - i,
        {
            perm.push(
                if i == d0 {
                    d1
                } else if i == d1 {
                    d0
                } else {
                    i
                },
            );
            i += 1;
        }
        proof {
            assert(perm@ =~= swap_perm(n as int, d0 as int, d1 as int));
        }
        match self.permute(perm.as_slice()) {
            Ok(v) => {
                proof {
                    law_swap_exchanges(self.shape_view(), d0 as int, d1 as int);
                    assert forall|c: Seq<int>| #[trigger] valid_index(self.shape_view(), c) implies v.element(
                        c.update(d0 as int, c[d1 as int]).update(d1 as int, c[d0 as int]),
                    ) == self.element(c) by {
                        law_swap_exchanges(c, d0 as int, d1 as int);
                    }
                }
                Ok(v)
            },
            Err(e) => {
                proof {
                    let p = swap_perm(n as int, d0 as int, d1 as int);
                    assert(is_permutation(p, n as int));
                }
                Err(e)
            },
        }
    }

    /// The matrix transpose: the last two dimensions swapped;
    /// `RankTooSmall` below rank 2.
    pub fn t(&self) -> (r: Result<Tensor<T>, Error>)
        ensures
            r matches Err(e) ==> crate::error::names_op(e, "t"@),
            r is Ok <==> self.shape_view().len() >= 2,
            r matches Ok(v) ==> {
                let n = self.shape_view().len() as int;
                &&& v.shape_view() == permuted(self.shape_view(), swap_perm(n, n - 2, n - 1))
                &&& v.storage_view() == self.storage_view()
                &&& forall|c: Seq<int>|
                    #[trigger] valid_index(self.shape_view(), c) ==> v.element(
                        permuted(c, swap_perm(n, n - 2, n - 1)),
                    ) == self.element(c)
            },
            r matches Ok(v) ==> {
                let s = self.shape_view();
                let n = s.len() as int;
                &&& v.shape_view() == s.update(n - 2, s[n - 1]).update(n - 1, s[n - 2])
                &&& forall|c: Seq<int>|
                    #[trigger] valid_index(s, c) ==> v.element(
                        c.update(n - 2, c[n - 1]).update(n - 1, c[n - 2]),
                    ) == self.element(c)
            },
            r matches Err(e) ==> e matches Error::InvalidArgument {
                issue: Issue::RankTooSmall { .. },
                ..
            },
    {
        let n = self.ndim();
        if n < 2 {
            return Err(
                Error::InvalidArgument { op: "t", issue: Issue::RankTooSmall { needed: 2, got: n } },
            );
        }
        self.transpose(n - 2, n - 1)
    }

    /// A view of `len` elements of dimension `dim` starting at `start`;
    /// `InvalidArgument` when `dim` is past the rank or the window leaves
    /// the dimension (also when `start + len` overflows).
    pub fn narrow(&self, dim: usize, start: usize, len: usize) -> (r: Result<Tensor<T>, Error>)
        ensures
            r matches Err(e) ==> crate::error::names_op(e, "narrow"@),
            r is Ok <==> dim < self.shape_view().len() && start + len <= self.shape_view()[dim as int],
            r matches Ok(v) ==> v.shape_view() == self.shape_view().update(dim as int, len)
                && v.storage_view() == self.storage_view() && forall|c: Seq<int>|
                #[trigger] valid_index(v.shape_view(), c) ==> v.element(c) == self.element(
                    c.update(dim as int, c[dim as int] + start),
                ),
            r matches Err(e) ==> e is InvalidArgument,
            dim >= self.shape_view().len() ==> (r matches Err(e) && e matches Error::InvalidArgument {
                issue: Issue::DimOutOfRange { dim: d, rank },
                ..
            } && d == dim && rank == self.shape_view().len()),
            dim < self.shape_view().len() && start + len > self.shape_view()[dim as int] ==> (
            r matches Err(e) && e matches Error::InvalidArgument {
                issue: Issue::RangeOutOfBounds { dim: d, start: s, len: l, extent },
                ..
            } && d == dim && s == start && l == len && extent == self.shape_view()[dim as int]),
    {
        proof {
            use_type_invariant(self);
        }
        match self.layout.narrow(dim, start, len) {
            Ok(l) => Ok(Tensor { storage: Arc::clone(&self.storage), layout: l }),
            Err(e) => Err(e),
        }
    }

    /// A view of `start..end` along `dim` — sugar over
    /// [`Tensor::narrow`]; an empty or reversed range is a window of
    /// length 0 at `start`.
    pub fn slice(&self, dim: usize, start: usize, end: usize) -> (r: Result<Tensor<T>, Error>)
        ensures
            r matches Err(e) ==> crate::error::names_op(e, "narrow"@),
            r is Ok <==> dim < self.shape_view().len() && start + (if end >= start {
                end - start
            } else {
                0
            }) <= self.shape_view()[dim as int],
            r matches Ok(v) ==> v.shape_view() == self.shape_view().update(
                dim as int,
                (if end >= start {
                    end - start
                } else {
                    0
                }) as usize,
            ) && v.storage_view() == self.storage_view() && forall|c: Seq<int>|
                #[trigger] valid_index(v.shape_view(), c) ==> v.element(c) == self.element(
                    c.update(dim as int, c[dim as int] + start),
                ),
            r matches Err(e) ==> e is InvalidArgument,
    {
        let len = end.saturating_sub(start);
        self.narrow(dim, start, len)
    }

    /// A zero-copy broadcast view to `shape` (stride 0 on expanded axes):
    /// each element reads the source element whose expanded coordinates
    /// are 0.
    pub fn broadcast_to(&self, shape: &Shape) -> (r: Result<Tensor<T>, Error>)
        ensures
            r matches Err(e) ==> crate::error::names_op(e, "broadcast"@),
            r is Ok <==> broadcasts_onto(self.shape_view(), shape@) && numel_of(shape@)
                <= usize::MAX,
            r matches Ok(v) ==> v.shape_view() == shape@ && v.storage_view() == self.storage_view()
                && forall|c: Seq<int>|
                #[trigger] valid_index(shape@, c) ==> v.element(c) == self.element(
                    broadcast_source(self.shape_view(), shape@.len() as int, c),
                ),
            r matches Err(e) ==> if broadcasts_onto(self.shape_view(), shape@) {
                e is ShapeOverflow
            } else {
                e matches Error::BroadcastIncompatible { lhs, rhs } && lhs@ == self.shape_view()
                    && rhs@ == shape@
            },
    {
        proof {
            use_type_invariant(self);
        }
        match self.layout.broadcast_to(shape) {
            Ok(l) => Ok(Tensor { storage: Arc::clone(&self.storage), layout: l }),
            Err(e) => Err(e),
        }
    }

    /// A view with a new size-1 dimension inserted at `dim`;
    /// `DimOutOfRange` when `dim` is past the rank.
    pub fn unsqueeze(&self, dim: usize) -> (r: Result<Tensor<T>, Error>)
        ensures
            r matches Err(e) ==> crate::error::names_op(e, "unsqueeze"@),
            r is Ok <==> dim <= self.shape_view().len(),
            r matches Ok(v) ==> v.shape_view() == self.shape_view().insert(dim as int, 1)
                && v.storage_view() == self.storage_view() && v.values() == self.values() && forall|
                c: Seq<int>,
            |
                #[trigger] valid_index(v.shape_view(), c) ==> v.element(c) == self.element(
                    c.remove(dim as int),
                ),
            r matches Err(e) ==> e matches Error::InvalidArgument {
                issue: Issue::DimOutOfRange { .. },
                ..
            },
    {
        proof {
            use_type_invariant(self);
        }
        match self.layout.unsqueeze(dim) {
            Ok(l) => {
                let v = Tensor { storage: Arc::clone(&self.storage), layout: l };
                proof {
                    lemma_unsqueeze_values(self, &v, dim as int);
                }
                Ok(v)
            },
            Err(e) => Err(e),
        }
    }
}

impl<T: Copy> Tensor<T> {
    /// This tensor's elements, in logical order, in fresh contiguous
    /// storage — or a cheap clone when the view is already contiguous at
    /// offset 0. `ShapeOverflow` when the row-major strides of the shape do
    /// not fit.
    pub fn contiguous(&self) -> (r: Result<Tensor<T>, Error>)
        ensures
            r matches Err(e) ==> crate::error::names_op(e, "contiguous"@),
            r matches Ok(v) ==> v.shape_view() == self.shape_view() && v.values() == self.values()
                && is_row_major(v.shape_view(), v.layout_view().strides@)
                && v.layout_view().offset == 0,
            r matches Ok(v) ==> v.storage_view().len() >= numel_of(self.shape_view()),
            r is Ok <==> crate::select::addressable(self.shape_view()),
            r matches Err(e) ==> e is ShapeOverflow,
            self.layout_view().offset == 0 && is_row_major(
                self.shape_view(),
                self.layout_view().strides@,
            ) ==> (r matches Ok(v) && v.storage_view() == self.storage_view()
                && v.layout_view().same_as(&self.layout_view())),
    {
        proof {
            use_type_invariant(self);
        }
        if self.layout.offset == 0 && self.layout.is_contiguous() {
            let v = self.clone();
            proof {
                let n = numel_of(self.shape_view());
                if n > 0 {
                    lemma_numel_pos(self.layout.shape@);
                    lemma_unravel(self.layout.shape@, n - 1);
                    crate::gather::lemma_contiguous_addresses(self.layout, n - 1);
                }
                assert forall|i: int| 0 <= i < self.layout.shape@.len() implies #[trigger] crate::index::cstride(
                    self.layout.shape@,
                    i,
                ) <= isize::MAX by {
                    assert(self.layout.strides@[i] as int == crate::index::cstride(self.layout.shape@, i) as int);
                }
            }
            return Ok(v);
        }
        self.contiguous_untracked()
    }

    /// The contiguous copy, always materialized.
    pub fn contiguous_untracked(&self) -> (r: Result<Tensor<T>, Error>)
        ensures
            r matches Err(e) ==> crate::error::names_op(e, "contiguous"@),
            r matches Ok(v) ==> v.shape_view() == self.shape_view() && v.values() == self.values()
                && is_row_major(v.shape_view(), v.layout_view().strides@)
                && v.layout_view().offset == 0,
            r matches Ok(v) ==> v.storage_view().len() >= numel_of(self.shape_view()),
            r is Ok <==> crate::select::addressable(self.shape_view()),
            r matches Err(e) ==> e is ShapeOverflow,
    {
        proof {
            use_type_invariant(self);
        }
        let data = self.to_vec();
        let shape = self.layout.shape.clone();
        match Tensor::from_vec_as(data, shape, "contiguous") {
            Ok(v) => Ok(v),
            Err(e) => {
                proof {
                    assert(data@.len() == numel_of(self.shape_view()));
                }
                match e {
                    Error::ShapeOverflow { dims, op } => Err(Error::ShapeOverflow { dims, op }),
                    _ => Err(Error::ShapeOverflow { dims: copy_usizes(self.layout.shape.dims()), op: "contiguous" }),
                }
            },
        }
    }

    /// The same elements in a new shape: a view when this tensor is
    /// contiguous, else a view of a contiguous copy. `ShapeOverflow` when
    /// the new element count (or a row-major stride, or the copy) does not
    /// fit;
    /// `ShapeMismatch` when the element counts differ.
    pub fn reshape(&self, shape: Shape) -> (r: Result<Tensor<T>, Error>)
        ensures
            r matches Err(e) ==> crate::error::names_op(e, "reshape"@),
            r matches Ok(v) ==> v.shape_view() == shape@ && v.values() == self.values(),
            r is Ok ==> numel_of(shape@) == numel_of(self.shape_view()),
            numel_of(shape@) > usize::MAX ==> (r matches Err(e) && e is ShapeOverflow),
            numel_of(shape@) <= usize::MAX && numel_of(shape@) != numel_of(self.shape_view()) ==> (r matches Err(
                e,
            ) && e matches Error::ShapeMismatch { expected, got, .. } && expected@
                == self.shape_view() && got@ == shape@),
            r matches Err(e) ==> (e is ShapeOverflow || e is ShapeMismatch),
            r matches Err(e) && e is ShapeMismatch ==> numel_of(shape@) != numel_of(self.shape_view()),
            numel_of(shape@) == numel_of(self.shape_view()) ==> (r is Ok <==> ((is_row_major(
                self.shape_view(),
                self.layout_view().strides@,
            ) || crate::select::addressable(self.shape_view())) && forall|i: int|
                0 <= i < shape@.len() ==> #[trigger] crate::index::cstride(shape@, i) <= isize::MAX)),
            r matches Ok(v) ==> (is_row_major(self.shape_view(), self.layout_view().strides@)
                ==> v.storage_view() == self.storage_view()),
    {
        proof {
            use_type_invariant(self);
        }
        let numel = match checked_numel(shape.dims()) {
            Some(n) => n,
            None => {
                return Err(Error::ShapeOverflow { dims: copy_usizes(shape.dims()), op: "reshape" });
            },
        };
        if numel != self.numel() {
            return Err(
                Error::ShapeMismatch { expected: self.layout.shape.clone(), got: shape, op: "reshape" },
            );
        }
        let base = if self.layout.is_contiguous() {
            self.clone()
        } else {
            match self.contiguous_untracked() {
                Ok(b) => b,
                Err(e) => {
                    return Err(e.relabel("reshape"));
                },
            }
        };
        proof {
            use_type_invariant(&base);
        }
        match base.layout.reflow(shape) {
            Ok(l) => {
                let v = Tensor { storage: Arc::clone(&base.storage), layout: l };
                proof {
                    assert forall|x: int| 0 <= x < numel_of(v.shape_view()) implies v.values()[x]
                        == base.values()[x] by {}
                    assert(v.values() =~= base.values());
                }
                Ok(v)
            },
            Err(e) => Err(e),
        }
    }
}

/// Inserting a size-1 dimension keeps the elements in logical order.
proof fn lemma_unsqueeze_values<T>(t: &Tensor<T>, v: &Tensor<T>, dim: int)
    requires
        0 <= dim <= t.shape_view().len(),
        v.shape_view() == t.shape_view().insert(dim, 1),
        v.storage_view() == t.storage_view(),
        forall|c: Seq<int>|
            #[trigger] valid_index(v.shape_view(), c) ==> valid_index(t.shape_view(), c.remove(dim))
                && v.element(c) == t.element(c.remove(dim)),
    ensures
        v.values() == t.values(),
{
    let d = t.shape_view();
    let e = v.shape_view();
    crate::index::lemma_numel_remove(e, dim);
    assert(e.remove(dim) =~= d);
    assert forall|x: int| 0 <= x < numel_of(e) implies v.values()[x] == t.values()[x] by {
        lemma_unravel(e, x);
        lemma_unravel_insert(d, dim, x);
    }
    assert(v.values() =~= t.values());
}

/// The logical coordinate of element `x` gains a 0 where a size-1
/// dimension is inserted.
proof fn lemma_unravel_insert(d: Seq<usize>, dim: int, x: int)
    requires
        0 <= dim <= d.len(),
        0 <= x < numel_of(d),
    ensures
        unravel(d.insert(dim, 1), x).remove(dim) == unravel(d, x),
    decreases d.len(),
{
    let e = d.insert(dim, 1);
    lemma_numel_pos(d);
    crate::index::lemma_unravel_len(d, x);
    crate::index::lemma_unravel_len(e, x);
    if dim == d.len() {
        assert(e.drop_last() =~= d);
        assert(e.last() == 1);
        assert(x / 1 == x && x % 1 == 0) by {
            vstd::arithmetic::div_mod::lemma_fundamental_div_mod_converse(x, 1, x, 0);
        }
        assert(unravel(e, x) == unravel(d, x).push(0));
        assert(unravel(e, x).remove(dim) =~= unravel(d, x));
    } else {
        let dl = d.last() as int;
        assert(e.drop_last() =~= d.drop_last().insert(dim, 1));
        assert(e.last() == d.last());
        let q = x / dl;
        vstd::arithmetic::div_mod::lemma_fundamental_div_mod(x, dl);
        vstd::arithmetic::div_mod::lemma_mod_bound(x, dl);
        let p = numel_of(d.drop_last()) as int;
        assert(0 <= q < p) by (nonlinear_arith)
            requires
                x == dl * q + x % dl,
                0 <= x % dl < dl,
                0 <= x < p * dl,
                dl > 0,
        ;
        lemma_unravel_insert(d.drop_last(), dim, q);
        let a = unravel(d.drop_last().insert(dim, 1), q);
        crate::index::lemma_unravel_len(d.drop_last().insert(dim, 1), q);
        assert(unravel(e, x) == a.push(x % dl));
        assert(a.push(x % dl).remove(dim) =~= a.remove(dim).push(x % dl));
    }
}


/// Permuting by `p` and then by its inverse `q` gives back the shape and
/// every element: the view the permute gradient takes is the layout the
/// tensor started with. `v` and `w` are the two views, as `permute`
/// describes them.
pub proof fn law_permute_roundtrip<T>(
    t: Tensor<T>,
    p: Seq<usize>,
    q: Seq<usize>,
    v: Tensor<T>,
    w: Tensor<T>,
)
    requires
        is_permutation(p, t.shape_view().len() as int),
        is_permutation(q, t.shape_view().len() as int),
        crate::perm::inverse_of(q, p),
        v.shape_view() == permuted(t.shape_view(), p),
        forall|c: Seq<int>|
            #[trigger] valid_index(t.shape_view(), c) ==> v.element(permuted(c, p)) == t.element(c),
        w.shape_view() == permuted(v.shape_view(), q),
        forall|c: Seq<int>|
            #[trigger] valid_index(v.shape_view(), c) ==> w.element(permuted(c, q)) == v.element(c),
    ensures
        w.shape_view() == t.shape_view(),
        forall|c: Seq<int>| #[trigger] valid_index(t.shape_view(), c) ==> w.element(c) == t.element(c),
{
    let d = t.shape_view();
    assert forall|j: int| 0 <= j < d.len() implies #[trigger] permuted(permuted(d, p), q)[j] == d[j] by {
        assert(q[j] < d.len());
        assert(p[q[j] as int] == j);
    }
    assert(permuted(permuted(d, p), q) =~= d);
    assert forall|c: Seq<int>| #[trigger] valid_index(d, c) implies w.element(c) == t.element(c) by {
        let c1 = permuted(c, p);
        assert(valid_index(v.shape_view(), c1)) by {
            assert forall|i: int| 0 <= i < c1.len() implies 0 <= #[trigger] c1[i] < v.shape_view()[i] as int by {
                assert(p[i] < d.len());
            }
        }
        assert forall|j: int| 0 <= j < c.len() implies #[trigger] permuted(c1, q)[j] == c[j] by {
            assert(q[j] < d.len());
            assert(p[q[j] as int] == j);
        }
        assert(permuted(c1, q) =~= c);
    }
}


impl<T: Copy> Tensor<T> {
    /// A contiguous tensor of shape `shape` with every element `value`
    /// (zeros, ones, a constant). `ShapeOverflow` when the element count
    /// does not fit in `usize`, or the tensor cannot be addressed.
    pub fn full(shape: Shape, value: T) -> (r: Result<Tensor<T>, Error>)
        ensures
            r matches Err(e) ==> crate::error::names_op(e, "Tensor::full"@),
            r matches Ok(t) ==> t.shape_view() == shape@ && t.values() == Seq::new(
                numel_of(shape@),
                |i: int| value,
            ),
            numel_of(shape@) > usize::MAX ==> (r matches Err(e) && e is ShapeOverflow),
            r is Ok <==> (numel_of(shape@) <= isize::MAX + 1 && (forall|i: int|
                0 <= i < shape@.len() ==> #[trigger] crate::index::cstride(shape@, i)
                    <= isize::MAX)),
            r matches Err(e) ==> e is ShapeOverflow,
    {
        let numel = match checked_numel(shape.dims()) {
            Some(n) => n,
            None => {
                return Err(Error::ShapeOverflow { dims: copy_usizes(shape.dims()), op: "Tensor::full" });
            },
        };
        let mut data: Vec<T> = Vec::new();
        let mut i: usize = 0;
        while i < numel
            invariant
                i <= numel,
                data@ == Seq::new(i as nat, |j: int| value),
            decreases numel - i,
        {
            data.push(value);
            i += 1;
            proof {
                assert(data@ =~= Seq::new(i as nat, |j: int| value));
            }
        }
        match Tensor::from_vec_as(data, shape, "Tensor::full") {
            Ok(t) => Ok(t),
            Err(e) => Err(e),
        }
    }
}

} // verus!
