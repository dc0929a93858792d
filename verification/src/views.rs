//! The layout arithmetic of zero-copy views: permute, narrow, unsqueeze,
//! broadcast and reflow. Each computes a new layout over the same
//! storage and states which element of the source every element of the
//! view reads.
use crate::error::{Error, Issue};
use crate::index::{
    is_permutation, is_row_major, lemma_numel_pos, lemma_numel_pos_converse, lemma_numel_permuted,
    lemma_numel_remove, lemma_numel_update_le, lemma_offset_sum_permuted, lemma_offset_sum_remove,
    lemma_offset_sum_termwise, lemma_offset_sum_update, lemma_offset_sum_zero_prefix,
    lemma_row_major, lemma_unravel, numel_of, offset_sum, permuted, unravel, valid_index,
};
use crate::layout::{lemma_offset_sum_zero_coords, Layout};
use crate::perm::{inverse_of, inverse_permutation};
use crate::shape::{
    broadcastable, checked_numel, contiguous_strides, copy_usizes, extents_compatible, Shape,
    Strides,
};
use crate::walker::copy_isizes;
use vstd::prelude::*;

verus! {

/// `x` with `v` inserted at position `k`.
pub open spec fn inserted<A>(x: Seq<A>, k: int, v: A) -> Seq<A> {
    x.insert(k, v)
}

/// The source coordinate a broadcast view reads for target coordinate
/// `c`: leading target dimensions are dropped and expanded dimensions
/// read index 0.
pub open spec fn broadcast_source(src: Seq<usize>, target_rank: int, c: Seq<int>) -> Seq<int> {
    let lead = target_rank - src.len();
    Seq::new(
        src.len(),
        |i: int|
            if src[i] == 1 {
                0
            } else {
                c[lead + i]
            },
    )
}

/// The strides of a broadcast view: zero on leading and expanded
/// dimensions, the source stride where the extents agree.
pub open spec fn broadcast_strides(src: Seq<usize>, s: Seq<isize>, dst: Seq<usize>) -> Seq<isize> {
    let lead = dst.len() - src.len();
    Seq::new(
        dst.len(),
        |j: int|
            if j < lead {
                0isize
            } else if src[j - lead] == dst[j] {
                s[j - lead]
            } else {
                0isize
            },
    )
}

/// A shape broadcasts onto `target` when it has no more dimensions and
/// every aligned extent is equal or 1.
pub open spec fn broadcasts_onto(src: Seq<usize>, dst: Seq<usize>) -> bool {
    &&& src.len() <= dst.len()
    &&& forall|i: int|
        0 <= i < src.len() ==> #[trigger] src[i] == dst[dst.len() - src.len() + i] || src[i] == 1
}

impl Layout {
    /// The view with dimensions reordered by `perm`, or `NotAPermutation`
    /// when `perm` is not a permutation of `0..rank`.
    pub fn permute(&self, perm: &[usize]) -> (r: Result<Layout, Error>)
        requires
            self.wf(),
        ensures
            r matches Err(e) ==> crate::error::names_op(e, "permute"@),
            r is Ok <==> is_permutation(perm@, self.shape@.len() as int),
            r matches Ok(l) ==> l.shape@ == permuted(self.shape@, perm@) && l.strides@ == permuted(
                self.strides@,
                perm@,
            ) && l.offset == self.offset,
            forall|len: int|
                #![trigger self.within(len)]
                self.within(len) ==> (r matches Ok(l) ==> l.within(len)),
            r matches Ok(l) ==> forall|c: Seq<int>|
                #[trigger] valid_index(self.shape@, c) ==> valid_index(l.shape@, permuted(c, perm@))
                    && l.addr(permuted(c, perm@)) == self.addr(c),
            r matches Err(e) ==> e matches Error::InvalidArgument {
                issue: Issue::NotAPermutation { perm: p, rank },
                ..
            } && p@ == perm@ && rank == self.shape@.len(),
    {
        let n = self.shape.ndim();
        let q = match inverse_permutation(perm, n) {
            Some(q) => q,
            None => {
                return Err(
                    Error::InvalidArgument {
                        op: "permute",
                        issue: Issue::NotAPermutation { perm: copy_usizes(perm), rank: n },
                    },
                );
            },
        };
        let dims = self.shape.dims();
        let strides = self.strides.values();
        let mut nd: Vec<usize> = Vec::new();
        let mut ns: Vec<isize> = Vec::new();
        let mut i: usize = 0;
        while i < n
            invariant
                i <= n,
                n == dims@.len(),
                n == strides@.len(),
                dims@ == self.shape@,
                strides@ == self.strides@,
                is_permutation(perm@, n as int),
                nd@ =~= permuted(dims@, perm@).take(i as int),
                ns@ =~= permuted(strides@, perm@).take(i as int),
            decreases n - i,
        {
            let p = perm[i];
            nd.push(dims[p]);
            ns.push(strides[p]);
            i += 1;
        }
        let l = Layout { shape: Shape::new(nd), strides: Strides::new(ns), offset: self.offset };
        proof {
            assert(l.shape@ =~= permuted(self.shape@, perm@));
            assert(l.strides@ =~= permuted(self.strides@, perm@));
            lemma_permute_view(*self, l, perm@, q@);
        }
        Ok(l)
    }

    /// The view of `len` elements of dimension `dim` starting at `start`,
    /// or an error when `dim` is past the rank or the window leaves the
    /// dimension (including when `start + len` overflows).
    pub fn narrow(&self, dim: usize, start: usize, len: usize) -> (r: Result<Layout, Error>)
        requires
            self.within(isize::MAX + 1),
        ensures
            r matches Err(e) ==> crate::error::names_op(e, "narrow"@),
            r is Ok <==> dim < self.shape@.len() && start + len <= self.shape@[dim as int],
            r matches Ok(l) ==> l.shape@ == self.shape@.update(dim as int, len) && l.strides@
                == self.strides@,
            forall|n: int|
                #![trigger self.within(n)]
                self.within(n) ==> (r matches Ok(l) ==> l.within(n)),
            r matches Ok(l) ==> forall|c: Seq<int>|
                #[trigger] valid_index(l.shape@, c) ==> valid_index(
                    self.shape@,
                    c.update(dim as int, c[dim as int] + start),
                ) && l.addr(c) == self.addr(c.update(dim as int, c[dim as int] + start)),
            r matches Err(e) ==> e matches Error::InvalidArgument { .. },
            dim >= self.shape@.len() ==> (r matches Err(e) && e matches Error::InvalidArgument {
                issue: Issue::DimOutOfRange { dim: d, rank },
                ..
            } && d == dim && rank == self.shape@.len()),
            dim < self.shape@.len() && start + len > self.shape@[dim as int] ==> (r matches Err(e)
                && e matches Error::InvalidArgument {
                issue: Issue::RangeOutOfBounds { dim: d, start: s, len: l, extent },
                ..
            } && d == dim && s == start && l == len && extent == self.shape@[dim as int]),
    {
        let dims = self.shape.dims();
        let n = dims.len();
        if dim >= n {
            return Err(
                Error::InvalidArgument {
                    op: "narrow",
                    issue: Issue::DimOutOfRange { dim, rank: n },
                },
            );
        }
        let extent = dims[dim];
        let fits = match start.checked_add(len) {
            Some(end) => end <= extent,
            None => false,
        };
        if !fits {
            return Err(
                Error::InvalidArgument {
                    op: "narrow",
                    issue: Issue::RangeOutOfBounds { dim, start, len, extent },
                },
            );
        }
        let mut nd = copy_usizes(dims);
        nd.set(dim, len);
        let ghost new_dims = nd@;
        proof {
            lemma_numel_update_le(self.shape@, dim as int, len);
        }
        let count = match checked_numel(nd.as_slice()) {
            Some(v) => v,
            None => 0,
        };
        let strides = copy_isizes(self.strides.values());
        let ghost shift = |c: Seq<int>| c.update(dim as int, c[dim as int] + start);
        let mut offset = self.offset;
        if count > 0 {
            proof {
                lemma_numel_pos(new_dims);
                assert(new_dims[dim as int] == len);
                assert(len > 0);
                lemma_numel_pos(self.shape@);
                let z = crate::index::zeros(n as nat);
                let zs = z.update(dim as int, start as int);
                assert(valid_index(self.shape@, z));
                assert(valid_index(self.shape@, zs));
                lemma_offset_sum_zero_coords(self.strides@, z);
                lemma_offset_sum_update(self.strides@, z, dim as int, start as int);
            }
            let s = self.strides.values()[dim];
            if start != 0 && s != 0 {
                proof {
                    let z = crate::index::zeros(n as nat);
                    let zs = z.update(dim as int, start as int);
                    let x = start as int;
                    let t = s as int;
                    assert(x * t == self.addr(zs) - self.addr(z));
                    assert(x <= isize::MAX) by (nonlinear_arith)
                        requires
                            x > 0,
                            t != 0,
                            -isize::MAX <= x * t <= isize::MAX,
                    ;
                }
                offset = (self.offset as isize + (start as isize) * s) as usize;
            } else {
                proof {
                    assert((start as int) * (s as int) == 0) by (nonlinear_arith)
                        requires
                            start == 0 || s == 0,
                    ;
                }
            }
        }
        let l = Layout { shape: Shape::new(nd), strides: Strides::new(strides), offset };
        proof {
            lemma_narrow_view(*self, l, dim as int, start as int, len as int);
        }
        Ok(l)
    }

    /// The view with a size-1 dimension inserted at `dim` (stride 0), or
    /// `DimOutOfRange` when `dim` is past the rank.
    pub fn unsqueeze(&self, dim: usize) -> (r: Result<Layout, Error>)
        requires
            self.wf(),
        ensures
            r matches Err(e) ==> crate::error::names_op(e, "unsqueeze"@),
            r is Ok <==> dim <= self.shape@.len(),
            r matches Ok(l) ==> l.shape@ == self.shape@.insert(dim as int, 1) && l.strides@
                == self.strides@.insert(dim as int, 0) && l.offset == self.offset,
            forall|n: int|
                #![trigger self.within(n)]
                self.within(n) ==> (r matches Ok(l) ==> l.within(n)),
            r matches Ok(l) ==> forall|c: Seq<int>|
                #[trigger] valid_index(l.shape@, c) ==> valid_index(self.shape@, c.remove(dim as int))
                    && l.addr(c) == self.addr(c.remove(dim as int)),
            r matches Err(e) ==> e matches Error::InvalidArgument {
                issue: Issue::DimOutOfRange { dim: d, rank },
                ..
            } && d == dim && rank == self.shape@.len(),
    {
        let n = self.shape.ndim();
        if dim > n {
            return Err(
                Error::InvalidArgument {
                    op: "unsqueeze",
                    issue: Issue::DimOutOfRange { dim, rank: n },
                },
            );
        }
        let mut nd = copy_usizes(self.shape.dims());
        nd.insert(dim, 1);
        let mut ns = copy_isizes(self.strides.values());
        ns.insert(dim, 0);
        let l = Layout { shape: Shape::new(nd), strides: Strides::new(ns), offset: self.offset };
        proof {
            assert(l.shape@ =~= self.shape@.insert(dim as int, 1));
            assert(l.strides@ =~= self.strides@.insert(dim as int, 0));
            lemma_unsqueeze_view(*self, l, dim as int);
        }
        Ok(l)
    }

    /// A zero-copy broadcast of this view to `target` (stride 0 on
    /// leading and expanded dimensions). `BroadcastIncompatible` when the
    /// shape does not broadcast onto `target`; `ShapeOverflow` when the
    /// target's element count does not fit in `usize`.
    pub fn broadcast_to(&self, target: &Shape) -> (r: Result<Layout, Error>)
        requires
            self.wf(),
        ensures
            r matches Err(e) ==> crate::error::names_op(e, "broadcast"@),
            r is Ok <==> broadcasts_onto(self.shape@, target@) && numel_of(target@) <= usize::MAX,
            r matches Ok(l) ==> l.shape@ == target@ && l.strides@ == broadcast_strides(
                self.shape@,
                self.strides@,
                target@,
            ) && l.offset == self.offset,
            forall|n: int|
                #![trigger self.within(n)]
                self.within(n) ==> (r matches Ok(l) ==> l.within(n)),
            r matches Ok(l) ==> forall|c: Seq<int>|
                #[trigger] valid_index(l.shape@, c) ==> valid_index(
                    self.shape@,
                    broadcast_source(self.shape@, target@.len() as int, c),
                ) && l.addr(c) == self.addr(broadcast_source(self.shape@, target@.len() as int, c)),
            r matches Err(e) ==> if broadcasts_onto(self.shape@, target@) {
                e is ShapeOverflow
            } else {
                e matches Error::BroadcastIncompatible { lhs, rhs } && lhs@ == self.shape@ && rhs@
                    == target@
            },
    {
        let src = self.shape.dims();
        let dst = target.dims();
        let m = src.len();
        let n = dst.len();
        if n < m {
            return Err(Error::BroadcastIncompatible { lhs: self.shape.clone(), rhs: target.clone() });
        }
        let lead = n - m;
        let strides = self.strides.values();
        let mut ns: Vec<isize> = Vec::new();
        let mut z: usize = 0;
        while z < lead
            invariant
                z <= lead,
                ns@ =~= broadcast_strides(src@, strides@, dst@).take(z as int),
                lead == dst@.len() - src@.len(),
            decreases lead - z,
        {
            ns.push(0);
            z += 1;
        }
        let mut i: usize = 0;
        while i < m
            invariant
                i <= m,
                m == src@.len(),
                n == dst@.len(),
                lead == n - m,
                src@ == self.shape@,
                dst@ == target@,
                strides@ == self.strides@,
                self.wf(),
                forall|k: int| 0 <= k < i ==> #[trigger] src@[k] == dst@[lead + k] || src@[k] == 1,
                ns@ =~= broadcast_strides(src@, strides@, dst@).take(lead + i),
            decreases m - i,
        {
            let s = src[i];
            let d = dst[lead + i];
            if s == d {
                ns.push(strides[i]);
            } else if s == 1 {
                ns.push(0);
            } else {
                return Err(
                    Error::BroadcastIncompatible { lhs: self.shape.clone(), rhs: target.clone() },
                );
            }
            i += 1;
        }
        if checked_numel(dst).is_none() {
            return Err(Error::ShapeOverflow { dims: copy_usizes(dst), op: "broadcast" });
        }
        let l = Layout { shape: target.clone(), strides: Strides::new(ns), offset: self.offset };
        proof {
            assert(l.strides@ =~= broadcast_strides(self.shape@, self.strides@, target@));
            lemma_broadcast_view(*self, l);
        }
        Ok(l)
    }

    /// A contiguous view read as `shape`: the same run of storage with
    /// row-major strides for the new extents. `ShapeOverflow` when a
    /// row-major stride of `shape` does not fit in `isize`.
    pub fn reflow(&self, shape: Shape) -> (r: Result<Layout, Error>)
        requires
            self.wf(),
            is_row_major(self.shape@, self.strides@),
            numel_of(shape@) == numel_of(self.shape@),
        ensures
            r matches Err(e) ==> crate::error::names_op(e, "reshape"@),
            r matches Ok(l) ==> l.shape@ == shape@ && is_row_major(shape@, l.strides@) && l.offset
                == self.offset,
            forall|n: int|
                #![trigger self.within(n)]
                self.within(n) ==> (r matches Ok(l) ==> l.within(n)),
            r matches Ok(l) ==> forall|x: int|
                0 <= x < numel_of(shape@) ==> #[trigger] l.addr(unravel(l.shape@, x)) == self.addr(
                    unravel(self.shape@, x),
                ),
            r is Ok <==> forall|i: int|
                0 <= i < shape@.len() ==> #[trigger] crate::index::cstride(shape@, i) <= isize::MAX,
            r matches Err(e) ==> e matches Error::ShapeOverflow { .. },
    {
        match contiguous_strides(&shape) {
            Some(strides) => {
                let l = Layout { shape, strides, offset: self.offset };
                proof {
                    lemma_reflow_view(*self, l);
                }
                Ok(l)
            },
            None => Err(Error::ShapeOverflow { dims: copy_usizes(shape.dims()), op: "reshape" }),
        }
    }
}

/// What a permuted layout addresses.
pub proof fn lemma_permute_view(old: Layout, l: Layout, p: Seq<usize>, q: Seq<usize>)
    requires
        old.wf(),
        is_permutation(p, old.shape@.len() as int),
        is_permutation(q, old.shape@.len() as int),
        inverse_of(q, p),
        l.shape@ == permuted(old.shape@, p),
        l.strides@ == permuted(old.strides@, p),
        l.offset == old.offset,
    ensures
        forall|len: int| #![trigger old.within(len)] old.within(len) ==> l.within(len),
        forall|c: Seq<int>|
            #[trigger] valid_index(old.shape@, c) ==> valid_index(l.shape@, permuted(c, p))
                && l.addr(permuted(c, p)) == old.addr(c),
{
    let n = old.shape@.len() as int;
    lemma_numel_permuted(old.shape@, p);
    assert forall|c: Seq<int>| #[trigger] valid_index(old.shape@, c) implies valid_index(
        l.shape@,
        permuted(c, p),
    ) && l.addr(permuted(c, p)) == old.addr(c) by {
        lemma_offset_sum_permuted(old.strides@, c, p);
        assert forall|i: int| 0 <= i < n implies 0 <= #[trigger] permuted(c, p)[i] < l.shape@[i] by {
            assert(p[i] < n);
        }
    }
    assert forall|len: int| #![trigger old.within(len)] old.within(len) implies l.within(len) by {
        if numel_of(l.shape@) > 0 {
            assert forall|c2: Seq<int>| #[trigger] valid_index(l.shape@, c2) implies 0 <= l.addr(c2)
                < len && l.addr(c2) <= isize::MAX by {
                let c = Seq::new(n as nat, |j: int| c2[q[j] as int]);
                assert forall|j: int| 0 <= j < n implies 0 <= #[trigger] c[j] < old.shape@[j] by {
                    assert(p[q[j] as int] == j);
                    assert(0 <= c2[q[j] as int] < l.shape@[q[j] as int]);
                }
                assert(valid_index(old.shape@, c));
                assert(permuted(c, p) =~= c2) by {
                    assert forall|i: int| 0 <= i < n implies permuted(c, p)[i] == c2[i] by {
                        assert(q[p[i] as int] == i);
                    }
                }
            }
        }
    }
}

/// What a narrowed layout addresses.
pub proof fn lemma_narrow_view(old: Layout, l: Layout, dim: int, start: int, len: int)
    requires
        old.within(isize::MAX + 1),
        0 <= dim < old.shape@.len(),
        0 <= start,
        0 <= len,
        start + len <= old.shape@[dim],
        l.shape@ == old.shape@.update(dim, len as usize),
        l.strides@ == old.strides@,
        numel_of(l.shape@) > 0 ==> l.offset == old.offset + start * (old.strides@[dim] as int),
    ensures
        forall|n: int| #![trigger old.within(n)] old.within(n) ==> l.within(n),
        forall|c: Seq<int>|
            #[trigger] valid_index(l.shape@, c) ==> valid_index(
                old.shape@,
                c.update(dim, c[dim] + start),
            ) && l.addr(c) == old.addr(c.update(dim, c[dim] + start)),
{
    lemma_numel_update_le(old.shape@, dim, len as usize);
    assert forall|c: Seq<int>| #[trigger] valid_index(l.shape@, c) implies valid_index(
        old.shape@,
        c.update(dim, c[dim] + start),
    ) && l.addr(c) == old.addr(c.update(dim, c[dim] + start)) by {
        let c2 = c.update(dim, c[dim] + start);
        assert forall|j: int| 0 <= j < c2.len() implies 0 <= #[trigger] c2[j] < old.shape@[j] by {
            if j != dim {
                assert(l.shape@[j] == old.shape@[j]);
            }
        }
        lemma_offset_sum_update(old.strides@, c, dim, c[dim] + start);
        assert(forall|j: int| 0 <= j < l.shape@.len() ==> #[trigger] l.shape@[j] > 0) by {
            assert forall|j: int| 0 <= j < l.shape@.len() implies #[trigger] l.shape@[j] > 0 by {
                assert(0 <= c[j] < l.shape@[j]);
            }
        }
        lemma_numel_pos_converse(l.shape@);
        assert((c[dim] + start - c[dim]) * (old.strides@[dim] as int) == start * (
        old.strides@[dim] as int)) by (nonlinear_arith);
    }
}

/// What an unsqueezed layout addresses.
pub proof fn lemma_unsqueeze_view(old: Layout, l: Layout, dim: int)
    requires
        old.wf(),
        0 <= dim <= old.shape@.len(),
        l.shape@ == old.shape@.insert(dim, 1),
        l.strides@ == old.strides@.insert(dim, 0),
        l.offset == old.offset,
    ensures
        forall|n: int| #![trigger old.within(n)] old.within(n) ==> l.within(n),
        forall|c: Seq<int>|
            #[trigger] valid_index(l.shape@, c) ==> valid_index(old.shape@, c.remove(dim))
                && l.addr(c) == old.addr(c.remove(dim)),
{
    lemma_numel_remove(l.shape@, dim);
    assert(l.shape@.remove(dim) =~= old.shape@);
    assert(l.strides@.remove(dim) =~= old.strides@);
    assert forall|c: Seq<int>| #[trigger] valid_index(l.shape@, c) implies valid_index(
        old.shape@,
        c.remove(dim),
    ) && l.addr(c) == old.addr(c.remove(dim)) by {
        lemma_offset_sum_remove(l.strides@, c, dim);
        assert(c[dim] * (l.strides@[dim] as int) == 0);
        assert forall|j: int| 0 <= j < old.shape@.len() implies 0 <= #[trigger] c.remove(dim)[j]
            < old.shape@[j] by {
            if j < dim {
                assert(c.remove(dim)[j] == c[j]);
                assert(l.shape@[j] == old.shape@[j]);
            } else {
                assert(c.remove(dim)[j] == c[j + 1]);
                assert(l.shape@[j + 1] == old.shape@[j]);
            }
        }
    }
}

/// What a broadcast layout addresses.
pub proof fn lemma_broadcast_view(old: Layout, l: Layout)
    requires
        old.wf(),
        broadcasts_onto(old.shape@, l.shape@),
        numel_of(l.shape@) <= usize::MAX,
        l.strides@ == broadcast_strides(old.shape@, old.strides@, l.shape@),
        l.offset == old.offset,
    ensures
        forall|n: int| #![trigger old.within(n)] old.within(n) ==> l.within(n),
        forall|c: Seq<int>|
            #[trigger] valid_index(l.shape@, c) ==> valid_index(
                old.shape@,
                broadcast_source(old.shape@, l.shape@.len() as int, c),
            ) && l.addr(c) == old.addr(broadcast_source(old.shape@, l.shape@.len() as int, c)),
{
    let src = old.shape@;
    let dst = l.shape@;
    let m = src.len() as int;
    let n = dst.len() as int;
    let lead = n - m;
    assert forall|c: Seq<int>| #[trigger] valid_index(dst, c) implies valid_index(
        src,
        broadcast_source(src, n, c),
    ) && l.addr(c) == old.addr(broadcast_source(src, n, c)) by {
        let b = broadcast_source(src, n, c);
        assert forall|i: int| 0 <= i < m implies 0 <= #[trigger] b[i] < src[i] by {
            assert(src[i] == dst[lead + i] || src[i] == 1);
            assert(0 <= c[lead + i] < dst[lead + i]);
        }
        lemma_offset_sum_zero_prefix(l.strides@, c, lead);
        assert forall|i: int| 0 <= i < m implies #[trigger] c.skip(lead)[i] * (l.strides@.skip(
            lead,
        )[i] as int) == b[i] * (old.strides@[i] as int) by {
            assert(c.skip(lead)[i] == c[lead + i]);
            assert(0 <= c[lead + i] < dst[lead + i]);
            assert(l.strides@.skip(lead)[i] == l.strides@[lead + i]);
            if src[i] == dst[lead + i] {
                assert(l.strides@[lead + i] == old.strides@[i]);
                if src[i] == 1 {
                    assert(c[lead + i] == 0);
                    assert(b[i] == 0);
                    assert(0 * (old.strides@[i] as int) == 0) by (nonlinear_arith);
                } else {
                    assert(b[i] == c[lead + i]);
                }
            } else {
                assert(l.strides@.skip(lead)[i] == 0);
                assert(src[i] == 1);
                assert(b[i] == 0);
                assert(0 * (old.strides@[i] as int) == 0) by (nonlinear_arith);
                assert(c[lead + i] * 0 == 0) by (nonlinear_arith);
            }
        }
        lemma_offset_sum_termwise(l.strides@.skip(lead), c.skip(lead), old.strides@, b);
    }
    assert forall|len: int| #![trigger old.within(len)] old.within(len) implies l.within(len) by {
        if numel_of(dst) > 0 {
            lemma_numel_pos(dst);
            assert forall|i: int| 0 <= i < m implies #[trigger] src[i] > 0 by {
                assert(src[i] == dst[lead + i] || src[i] == 1);
            }
            lemma_numel_pos_converse(src);
        }
    }
}

/// What a reflowed contiguous layout addresses: the same run of storage.
pub proof fn lemma_reflow_view(old: Layout, l: Layout)
    requires
        old.wf(),
        is_row_major(old.shape@, old.strides@),
        l.wf(),
        is_row_major(l.shape@, l.strides@),
        numel_of(l.shape@) == numel_of(old.shape@),
        l.offset == old.offset,
    ensures
        forall|n: int| #![trigger old.within(n)] old.within(n) ==> l.within(n),
        forall|x: int|
            0 <= x < numel_of(l.shape@) ==> #[trigger] l.addr(unravel(l.shape@, x)) == old.addr(
                unravel(old.shape@, x),
            ),
{
    assert forall|x: int| 0 <= x < numel_of(l.shape@) implies #[trigger] l.addr(
        unravel(l.shape@, x),
    ) == old.addr(unravel(old.shape@, x)) by {
        lemma_unravel(l.shape@, x);
        lemma_unravel(old.shape@, x);
        lemma_row_major(l.shape@, l.strides@, unravel(l.shape@, x));
        lemma_row_major(old.shape@, old.strides@, unravel(old.shape@, x));
    }
    assert forall|len: int| #![trigger old.within(len)] old.within(len) implies l.within(len) by {
        if numel_of(l.shape@) > 0 {
            assert forall|c: Seq<int>| #[trigger] valid_index(l.shape@, c) implies 0 <= l.addr(c)
                < len && l.addr(c) <= isize::MAX by {
                crate::index::lemma_linear(l.shape@, c);
                let x = crate::index::linear(l.shape@, c);
                lemma_unravel(old.shape@, x);
                assert(valid_index(old.shape@, unravel(old.shape@, x)));
                lemma_row_major(l.shape@, l.strides@, c);
                lemma_row_major(old.shape@, old.strides@, unravel(old.shape@, x));
            }
        }
    }
}

} // verus!
