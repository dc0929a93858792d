//! Selecting rows along one dimension (`index_select`), and the
//! scatter-add that undoes it (`index_add`): its plan and its values.
use crate::error::{Error, Issue};
use crate::index::{
    lemma_linear, lemma_mixed_radix, lemma_mixed_radix_unique, lemma_numel_concat,
    lemma_unravel_split, numel_of, unravel, valid_index,
};
use crate::shape::{checked_numel, copy_usizes, sub_usizes, Shape};
use crate::tensor::Tensor;
use vstd::prelude::*;

verus! {

/// `i` addresses a row of a dimension of extent `extent`.
pub open spec fn index_fits(i: i64, extent: usize) -> bool {
    0 <= i < extent
}

/// Every index addresses a row of the extent.
pub open spec fn all_fit(idx: Seq<i64>, extent: usize) -> bool {
    forall|p: int| 0 <= p < idx.len() ==> index_fits(#[trigger] idx[p], extent)
}

/// `p` is the first position whose index does not fit.
pub open spec fn first_unfit(idx: Seq<i64>, extent: usize, p: int) -> bool {
    &&& 0 <= p < idx.len()
    &&& !index_fits(idx[p], extent)
    &&& forall|q: int| 0 <= q < p ==> index_fits(#[trigger] idx[q], extent)
}

/// How an unfit index is reported: negative indices as 0.
pub open spec fn reported_index(i: i64) -> usize {
    if i < 0 {
        0
    } else {
        i as usize
    }
}

/// The elements before dimension `dim` (the outer count).
pub open spec fn outer_count(dims: Seq<usize>, dim: int) -> nat {
    numel_of(dims.take(dim))
}

/// The elements after dimension `dim` (the inner count).
pub open spec fn inner_count(dims: Seq<usize>, dim: int) -> nat {
    numel_of(dims.skip(dim + 1))
}

/// Whether a contiguous tensor of this shape can be allocated and
/// addressed: its last element's offset and every row-major stride fit in
/// `isize`.
pub open spec fn addressable(dims: Seq<usize>) -> bool {
    &&& numel_of(dims) <= isize::MAX + 1
    &&& forall|i: int| 0 <= i < dims.len() ==> #[trigger] crate::index::cstride(dims, i) <= isize::MAX
}

/// The shape split around `dim`.
proof fn lemma_split_dims(dims: Seq<usize>, dim: int, v: usize)
    requires
        0 <= dim < dims.len(),
    ensures
        dims.update(dim, v) =~= dims.take(dim) + seq![v] + dims.skip(dim + 1),
        dims =~= dims.take(dim) + seq![dims[dim]] + dims.skip(dim + 1),
{
}

/// A coordinate split around `dim`.
proof fn lemma_split_coord(c: Seq<int>, dim: int, v: int)
    requires
        0 <= dim < c.len(),
    ensures
        c.update(dim, v) =~= c.take(dim) + seq![v] + c.skip(dim + 1),
        c =~= c.take(dim) + seq![c[dim]] + c.skip(dim + 1),
{
}

/// The index scan shared by `index_select` and the scatter-add plan:
/// `None` when every index fits, else the first that does not.
fn find_unfit(idx: &[i64], extent: usize) -> (r: Option<usize>)
    ensures
        r is None <==> all_fit(idx@, extent),
        r matches Some(p) ==> first_unfit(idx@, extent, p as int),
{
    let mut p: usize = 0;
    while p < idx.len()
        invariant
            p <= idx.len(),
            forall|q: int| 0 <= q < p ==> index_fits(#[trigger] idx@[q], extent),
        decreases idx.len() - p,
    {
        let i = idx[p];
        assert(idx@[p as int] == i);
        if i < 0 || i as u64 >= extent as u64 {
            return Some(p);
        }
        p += 1;
    }
    None
}

/// The reported coordinate of an unfit index.
fn report(i: i64) -> (r: Vec<usize>)
    ensures
        r@ == seq![reported_index(i)],
{
    let mut v: Vec<usize> = Vec::new();
    if i < 0 {
        v.push(0);
    } else {
        v.push(i as usize);
    }
    v
}

/// The rows `indices` picked along the middle axis of an
/// `[outer, extent, inner]` block of values, as an `[outer, kn, inner]`
/// block.
fn select_rows<T: Copy>(vals: &Vec<T>, indices: &[i64], outer: usize, extent: usize, inner: usize) -> (out: Vec<T>)
    requires
        vals@.len() == outer * extent * inner,
        all_fit(indices@, extent),
        outer * indices@.len() * inner <= usize::MAX,
    ensures
        out@.len() == outer * indices@.len() * inner,
        forall|a: int, kk: int, j: int|
            0 <= a < outer && 0 <= kk < indices@.len() && 0 <= j < inner ==> #[trigger] out@[(a
                * indices@.len() + kk) * inner + j] == vals@[(a * extent + indices@[kk]) * inner + j],
{
    let kn = indices.len();
    let mut out: Vec<T> = Vec::new();
    assert(0 * kn * inner == 0) by (nonlinear_arith);
    let vl = vals.len();
    let mut o: usize = 0;
    while o < outer
        invariant
                            vl == vals@.len(),
            vals@.len() == outer * extent * inner,
                                            kn == indices@.len(),
            all_fit(indices@, extent),
            o <= outer,
            out@.len() == o * kn * inner,
            forall|a: int, kk: int, j: int|
                0 <= a < outer && 0 <= kk < kn && 0 <= j < inner && (a * kn + kk) * inner
                    + j < out@.len() ==> #[trigger] out@[(a * kn + kk) * inner + j]
                    == vals@[(a * extent + indices@[kk]) * inner + j],
        decreases outer - o,
    {
        let mut k: usize = 0;
        while k < kn
            invariant
                                        vl == vals@.len(),
                vals@.len() == outer * extent * inner,
                kn == indices@.len(),
                all_fit(indices@, extent),
                o < outer,
                k <= kn,
                out@.len() == (o * kn + k) * inner,
                forall|a: int, kk: int, j: int|
                    0 <= a < outer && 0 <= kk < kn && 0 <= j < inner && (a * kn + kk)
                        * inner + j < out@.len() ==> #[trigger] out@[(a * kn + kk) * inner
                        + j] == vals@[(a * extent + indices@[kk]) * inner + j],
            decreases kn - k,
        {
            assert(index_fits(indices@[k as int], extent));
            let sel = indices[k] as usize;
            let mut j: usize = 0;
            while j < inner
                invariant
                                                    vl == vals@.len(),
                    vals@.len() == outer * extent * inner,
                    kn == indices@.len(),
                    sel == indices@[k as int],
                    sel < extent,
                    o < outer,
                    k < kn,
                    j <= inner,
                    out@.len() == (o * kn + k) * inner + j,
                    forall|a: int, kk: int, jj: int|
                        0 <= a < outer && 0 <= kk < kn && 0 <= jj < inner && (a * kn + kk)
                            * inner + jj < out@.len() ==> #[trigger] out@[(a * kn + kk)
                            * inner + jj] == vals@[(a * extent + indices@[kk]) * inner
                            + jj],
                decreases inner - j,
            {
                proof {
                    assert(o * extent + sel < outer * extent && outer * extent <= outer
                        * extent * inner && (o * extent + sel) * inner + j < outer * extent
                        * inner && 0 <= o * extent && 0 <= (o * extent + sel) * inner
                        && (o * kn + k) * inner + j < outer * kn * inner)
                        by (nonlinear_arith)
                        requires
                            0 <= o < outer,
                            0 <= sel < extent,
                            0 <= j < inner,
                            0 <= k < kn,
                    ;
                }
                let x = vals[(o * extent + sel) * inner + j];
                let ghost before = out@;
                out.push(x);
                proof {
                    assert forall|a: int, kk: int, jj: int|
                        0 <= a < outer && 0 <= kk < kn && 0 <= jj < inner && (a * kn + kk)
                            * inner + jj < out@.len() implies #[trigger] out@[(a * kn + kk)
                        * inner + jj] == vals@[(a * extent + indices@[kk]) * inner + jj] by {
                        if (a * kn + kk) * inner + jj == before.len() {
                            lemma_mixed_radix_unique(
                                a,
                                kk,
                                jj,
                                o as int,
                                k as int,
                                j as int,
                                kn as int,
                                inner as int,
                            );
                        }
                    }
                }
                j += 1;
            }
            proof {
                assert((o * kn + k) * inner + inner == (o * kn + k + 1) * inner)
                    by (nonlinear_arith);
            }
            k += 1;
        }
        proof {
            assert((o * kn + kn) * inner == (o + 1) * kn * inner) by (nonlinear_arith);
        }
        o += 1;
    }
    proof {
        assert forall|a: int, kk: int, j: int|
            0 <= a < outer && 0 <= kk < kn && 0 <= j < inner implies #[trigger] out@[(a * kn + kk)
                * inner + j] == vals@[(a * extent + indices@[kk]) * inner + j] by {
            assert((a * kn + kk) * inner + j < outer * kn * inner) by (nonlinear_arith)
                requires
                    0 <= a < outer,
                    0 <= kk < kn,
                    0 <= j < inner,
            ;
        }
    }
    out
}

impl<T: Copy> Tensor<T> {
    /// The rows of this tensor along `dim` picked by `indices`, in the
    /// order given (repeats allowed): the result has the shape of `self`
    /// with dimension `dim` resized to `indices.len()`.
    ///
    /// `InvalidArgument` (`DimOutOfRange`) when `dim` is past the rank;
    /// `IndexOutOfBounds` naming the first index that does not address a
    /// row (a negative one reported as 0); `ShapeOverflow` when the result
    /// could not be addressed.
    pub fn index_select(&self, dim: usize, indices: &[i64]) -> (r: Result<Tensor<T>, Error>)
        ensures
            r matches Err(e) ==> crate::error::names_op(e, "index_select"@),
            dim >= self.shape_view().len() <==> (r matches Err(e) && e matches Error::InvalidArgument {
                issue: Issue::DimOutOfRange { dim: d, rank },
                ..
            } && d == dim && rank == self.shape_view().len()),
            dim < self.shape_view().len() && !all_fit(indices@, self.shape_view()[dim as int]) ==> (
            r matches Err(e) && e matches Error::IndexOutOfBounds { index, shape } && shape@
                == self.shape_view() && exists|p: int|
                first_unfit(indices@, self.shape_view()[dim as int], p) && index@ == seq![
                    reported_index(indices@[p]),
                ]),
            dim < self.shape_view().len() && all_fit(indices@, self.shape_view()[dim as int])
                && addressable(self.shape_view().update(dim as int, indices@.len() as usize))
                ==> r is Ok,
            r matches Err(e) && e is ShapeOverflow ==> !addressable(
                self.shape_view().update(dim as int, indices@.len() as usize),
            ),
            dim < self.shape_view().len() && all_fit(indices@, self.shape_view()[dim as int])
                && !addressable(self.shape_view().update(dim as int, indices@.len() as usize)) ==> (
            r matches Err(e) && e is ShapeOverflow),
            r matches Ok(out) ==> {
                &&& dim < self.shape_view().len()
                &&& all_fit(indices@, self.shape_view()[dim as int])
                &&& addressable(self.shape_view().update(dim as int, indices@.len() as usize))
                &&& out.shape_view() == self.shape_view().update(dim as int, indices@.len() as usize)
                &&& forall|c: Seq<int>| #[trigger]
                    valid_index(out.shape_view(), c) ==> out.element(c) == self.element(
                        c.update(dim as int, indices@[c[dim as int]] as int),
                    )
            },
    {
        let dims = self.dims();
        let n = dims.len();
        if dim >= n {
            return Err(
                Error::InvalidArgument {
                    op: "index_select",
                    issue: Issue::DimOutOfRange { dim, rank: n },
                },
            );
        }
        let extent = dims[dim];
        match find_unfit(indices, extent) {
            Some(p) => {
                return Err(
                    Error::IndexOutOfBounds { index: report(indices[p]), shape: self.shape().clone() },
                );
            },
            None => {},
        }
        let kn = indices.len();
        let mut out_dims = copy_usizes(dims);
        out_dims.set(dim, kn);
        let ghost od = out_dims@;
        let ghost pre = dims@.take(dim as int);
        let ghost suf = dims@.skip(dim + 1);
        proof {
            lemma_split_dims(dims@, dim as int, kn);
            lemma_split_dims(dims@, dim as int, extent);
        }
        let total = match checked_numel(out_dims.as_slice()) {
            Some(x) => x,
            None => {
                return Err(Error::ShapeOverflow { dims: out_dims, op: "index_select" });
            },
        };
        let vals = self.to_vec();
        proof {
            self.lemma_values();
            lemma_numel_concat(pre + seq![kn], suf);
            lemma_numel_concat(pre, seq![kn]);
            lemma_numel_concat(pre + seq![extent], suf);
            lemma_numel_concat(pre, seq![extent]);
            let one_k = seq![kn];
            let one_e = seq![extent];
            assert(one_k.drop_last() =~= Seq::<usize>::empty());
            assert(one_e.drop_last() =~= Seq::<usize>::empty());
            assert(numel_of(Seq::<usize>::empty()) == 1);
            assert(numel_of(seq![kn]) == kn);
            assert(numel_of(seq![extent]) == extent);
        }
        let mut out: Vec<T> = Vec::new();
        if total > 0 {
            let pre_v = sub_usizes(dims, 0, dim);
            let suf_v = sub_usizes(dims, dim + 1, n);
            proof {
                assert(pre_v@ =~= pre);
                assert(suf_v@ =~= suf);
                assert(numel_of(pre) <= total && numel_of(suf) <= total) by (nonlinear_arith)
                    requires
                        total == numel_of(pre) * kn * numel_of(suf),
                        total > 0,
                ;
            }
            let outer = match checked_numel(pre_v.as_slice()) {
                Some(x) => x,
                None => {
                    return Err(Error::ShapeOverflow { dims: out_dims, op: "index_select" });
                },
            };
            let inner = match checked_numel(suf_v.as_slice()) {
                Some(x) => x,
                None => {
                    return Err(Error::ShapeOverflow { dims: out_dims, op: "index_select" });
                },
            };
            proof {
                assert(total == outer * kn * inner);
                assert(vals@.len() == outer * extent * inner);
            }
            out = select_rows(&vals, indices, outer, extent, inner);
        }
        let ghost flat = out@;
        proof {
            if total > 0 {
                assert(flat.len() == numel_of(od)) by (nonlinear_arith)
                    requires
                        flat.len() == numel_of(pre) * kn * numel_of(suf),
                        numel_of(od) == numel_of(pre) * kn * numel_of(suf),
                ;
            }
        }
        let shape = Shape::new(out_dims);
        let t = match Tensor::from_vec_as(out, shape, "index_select") {
            Ok(t) => t,
            Err(e) => {
                return Err(e);
            },
        };
        proof {
            t.lemma_values();
            assert forall|c: Seq<int>| #[trigger] valid_index(t.shape_view(), c) implies t.element(c)
                == self.element(c.update(dim as int, indices@[c[dim as int]] as int)) by {
                let dd = dim as int;
                let cp = c.take(dd);
                let cs = c.skip(dd + 1);
                let k = c[dd];
                lemma_split_coord(c, dd, indices@[k] as int);
                assert(valid_index(pre, cp)) by {
                    assert forall|i: int| 0 <= i < cp.len() implies 0 <= #[trigger] cp[i]
                        < pre[i] as int by {
                        assert(cp[i] == c[i]);
                        assert(od[i] == pre[i]);
                    }
                }
                assert(valid_index(suf, cs)) by {
                    assert forall|i: int| 0 <= i < cs.len() implies 0 <= #[trigger] cs[i]
                        < suf[i] as int by {
                        assert(cs[i] == c[dd + 1 + i]);
                        assert(od[dd + 1 + i] == suf[i]);
                    }
                }
                lemma_linear(pre, cp);
                lemma_linear(suf, cs);
                let a = crate::index::linear(pre, cp);
                let j = crate::index::linear(suf, cs);
                assert(0 <= k < kn) by {
                    assert(od[dd] == kn);
                }
                let sel = indices@[k] as int;
                assert(index_fits(indices@[k], extent));
                lemma_unravel_split(pre, kn, suf, a, k, j);
                lemma_unravel_split(pre, extent, suf, a, sel, j);
                let x = (a * kn + k) * numel_of(suf) + j;
                let y = (a * extent + sel) * numel_of(suf) + j;
                assert(unravel(od, x) == c);
                assert(unravel(dims@, y) == c.update(dd, sel));
                lemma_linear(od, c);
                assert(numel_of(od) > 0);
                assert(total > 0);
                assert(0 <= x < numel_of(od)) by (nonlinear_arith)
                    requires
                        0 <= a < numel_of(pre),
                        0 <= k < kn,
                        0 <= j < numel_of(suf),
                        x == (a * kn + k) * numel_of(suf) + j,
                        numel_of(od) == numel_of(pre) * kn * numel_of(suf),
                ;
                assert(flat[x] == vals@[y]);
                assert(0 <= y < numel_of(dims@)) by (nonlinear_arith)
                    requires
                        0 <= a < numel_of(pre),
                        0 <= sel < extent,
                        0 <= j < numel_of(suf),
                        y == (a * extent + sel) * numel_of(suf) + j,
                        numel_of(dims@) == numel_of(pre) * extent * numel_of(suf),
                ;
            }
        }
        Ok(t)
    }
}


/// The row pairs of a scatter-add over an `[outer, extent, inner]`
/// target and an `[outer, kn, inner]` source.
fn plan_rows(indices: &[i64], outer: usize, extent: usize, inner: usize) -> (rows: Vec<(usize, usize)>)
    requires
        outer > 0 ==> all_fit(indices@, extent),
        outer * extent * inner <= usize::MAX,
        outer * indices@.len() * inner <= usize::MAX,
    ensures
        rows@.len() == outer * indices@.len(),
        forall|o: int, k: int|
            0 <= o < outer && 0 <= k < indices@.len() ==> #[trigger] rows@[o * indices@.len() + k]
                == (((o * extent + indices@[k]) * inner) as usize, ((o * indices@.len() + k)
                * inner) as usize),
{
    let kn = indices.len();
    let mut rows: Vec<(usize, usize)> = Vec::new();
    let mut o: usize = 0;
    proof {
        assert(0 * kn == 0) by (nonlinear_arith);
    }
    while o < outer
        invariant
            o <= outer,
            outer > 0 ==> all_fit(indices@, extent),
            kn == indices@.len(),
            outer * extent * inner <= usize::MAX,
            outer * kn * inner <= usize::MAX,
            rows@.len() == o * kn,
            forall|a: int, k: int|
                0 <= a < outer && 0 <= k < kn && a * kn + k < rows@.len() ==> #[trigger] rows@[a
                    * kn + k] == (((a * extent + indices@[k]) * inner) as usize, ((a * kn + k)
                    * inner) as usize),
        decreases outer - o,
    {
        let mut k: usize = 0;
        while k < kn
            invariant
                o < outer,
                k <= kn,
                all_fit(indices@, extent),
                kn == indices@.len(),
                outer * extent * inner <= usize::MAX,
                outer * kn * inner <= usize::MAX,
                rows@.len() == o * kn + k,
                forall|a: int, kk: int|
                    0 <= a < outer && 0 <= kk < kn && a * kn + kk < rows@.len() ==> #[trigger] rows@[a
                        * kn + kk] == (((a * extent + indices@[kk]) * inner) as usize, ((a * kn
                        + kk) * inner) as usize),
            decreases kn - k,
        {
            assert(index_fits(indices@[k as int], extent));
            let sel = indices[k] as usize;
            proof {
                assert(inner > 0 ==> (0 <= o * extent + sel < outer * extent <= outer * extent
                    * inner && 0 <= (o * extent + sel) * inner <= outer * extent * inner && 0 <= o
                    * kn + k < outer * kn <= outer * kn * inner && 0 <= (o * kn + k) * inner
                    <= outer * kn * inner && 0 <= o * extent && 0 <= o * kn)) by (nonlinear_arith)
                    requires
                        0 <= o < outer,
                        0 <= sel < extent,
                        0 <= k < kn,
                        0 <= inner,
                ;
                assert(inner == 0 ==> (o * extent + sel) * inner == 0 && (o * kn + k) * inner == 0)
                    by (nonlinear_arith);
            }
            let ghost before = rows@;
            let pair = if inner == 0 {
                (0, 0)
            } else {
                ((o * extent + sel) * inner, (o * kn + k) * inner)
            };
            rows.push(pair);
            proof {
                assert forall|a: int, kk: int|
                    0 <= a < outer && 0 <= kk < kn && a * kn + kk < rows@.len() implies #[trigger] rows@[a
                    * kn + kk] == (((a * extent + indices@[kk]) * inner) as usize, ((a * kn + kk)
                    * inner) as usize) by {
                    if a * kn + kk == before.len() {
                        lemma_mixed_radix_unique(a, kk, 0, o as int, k as int, 0, kn as int, 1);
                    }
                }
            }
            k += 1;
        }
        proof {
            assert(o * kn + kn == (o + 1) * kn) by (nonlinear_arith);
        }
        o += 1;
    }
    proof {
        assert forall|o: int, k: int| 0 <= o < outer && 0 <= k < kn implies #[trigger] rows@[o
            * kn + k] == (((o * extent + indices@[k]) * inner) as usize, ((o * kn + k) * inner) as usize) by {
            assert(o * kn + k < outer * kn) by (nonlinear_arith)
                requires
                    0 <= o < outer,
                    0 <= k < kn,
            ;
        }
    }
    rows
}

/// The rows a scatter-add along one dimension adds, in the order it adds
/// them: each pair holds the start of a destination row (in the logical
/// order of the target) and the start of the source row added into it
/// (in the logical order of the source). Every row is `inner` elements
/// long.
#[derive(Debug)]
pub struct IndexAddPlan {
    /// `(destination start, source start)` per added row.
    pub rows: Vec<(usize, usize)>,
    /// The length of every row.
    pub inner: usize,
}

/// The plan of `out[.., indices[k], ..] += src[.., k, ..]` along `dim`
/// for a target of shape `dims` and a source of shape `src_dims`, rows
/// taken for each outer coordinate in turn, then for each index in turn.
///
/// `InvalidArgument` (`DimOutOfRange`) when `dim` is past the rank;
/// `ShapeMismatch` when the source shape is not the target's with
/// dimension `dim` resized to `indices.len()`; `IndexOutOfBounds` naming
/// the first index that does not address a row, checked only when there
/// is at least one outer coordinate; `ShapeOverflow` when an element
/// count does not fit in `usize`.
pub fn plan_index_add(dims: &[usize], dim: usize, indices: &[i64], src_dims: &[usize]) -> (r: Result<
    IndexAddPlan,
    Error,
>)
    ensures
        r matches Err(e) ==> crate::error::names_op(e, "index_add"@),
        dim >= dims@.len() <==> (r matches Err(e) && e matches Error::InvalidArgument {
            issue: Issue::DimOutOfRange { dim: d, rank },
            ..
        } && d == dim && rank == dims@.len()),
        dim < dims@.len() && src_dims@ != dims@.update(dim as int, indices@.len() as usize) ==> (
        r matches Err(e) && e matches Error::ShapeMismatch { expected, got, .. } && expected@
            == dims@.update(dim as int, indices@.len() as usize) && got@ == src_dims@),
        dim < dims@.len() && src_dims@ == dims@.update(dim as int, indices@.len() as usize)
            && outer_count(dims@, dim as int) > 0 && !all_fit(indices@, dims@[dim as int])
            && numel_of(dims@) <= usize::MAX && numel_of(src_dims@) <= usize::MAX && outer_count(
            dims@,
            dim as int,
        ) <= usize::MAX && inner_count(dims@, dim as int) <= usize::MAX ==> (r matches Err(e)
            && e matches Error::IndexOutOfBounds { index, shape } && shape@ == dims@ && exists|p: int|
            first_unfit(indices@, dims@[dim as int], p) && index@ == seq![
                reported_index(indices@[p]),
            ]),
        dim < dims@.len() && src_dims@ == dims@.update(dim as int, indices@.len() as usize) && (
        outer_count(dims@, dim as int) == 0 || all_fit(indices@, dims@[dim as int])) && numel_of(
            dims@,
        ) <= usize::MAX && numel_of(src_dims@) <= usize::MAX && outer_count(dims@, dim as int)
            <= usize::MAX && inner_count(dims@, dim as int) <= usize::MAX ==> r is Ok,
        r matches Err(e) && e is ShapeOverflow ==> numel_of(dims@) > usize::MAX || numel_of(
            src_dims@,
        ) > usize::MAX || outer_count(dims@, dim as int) > usize::MAX || inner_count(
            dims@,
            dim as int,
        ) > usize::MAX,
        r matches Ok(plan) ==> {
            let kn = indices@.len();
            let extent = dims@[dim as int];
            let outer = outer_count(dims@, dim as int);
            &&& dim < dims@.len()
            &&& src_dims@ == dims@.update(dim as int, kn as usize)
            &&& outer > 0 ==> all_fit(indices@, extent)
            &&& plan.inner == inner_count(dims@, dim as int)
            &&& numel_of(dims@) == outer * extent * plan.inner
            &&& numel_of(src_dims@) == outer * kn * plan.inner
            &&& plan.rows@.len() == outer * kn
            &&& forall|o: int, k: int|
                0 <= o < outer && 0 <= k < kn ==> #[trigger] plan.rows@[o * kn + k] == (
                ((o * extent + indices@[k]) * plan.inner) as usize,
                ((o * kn + k) * plan.inner) as usize,
            )
        },
{
    let n = dims.len();
    if dim >= n {
        return Err(
            Error::InvalidArgument { op: "index_add", issue: Issue::DimOutOfRange { dim, rank: n } },
        );
    }
    let kn = indices.len();
    let extent = dims[dim];
    let mut expected = copy_usizes(dims);
    expected.set(dim, kn);
    if !crate::shape::same_usizes(src_dims, expected.as_slice()) {
        let got = Shape::from_slice(src_dims);
        return Err(
            Error::ShapeMismatch { expected: Shape::new(expected), got, op: "index_add" },
        );
    }
    let ghost pre = dims@.take(dim as int);
    let ghost suf = dims@.skip(dim + 1);
    proof {
        lemma_split_dims(dims@, dim as int, kn);
        lemma_split_dims(dims@, dim as int, extent);
        lemma_numel_concat(pre + seq![kn], suf);
        lemma_numel_concat(pre, seq![kn]);
        lemma_numel_concat(pre + seq![extent], suf);
        lemma_numel_concat(pre, seq![extent]);
        let one_k = seq![kn];
        let one_e = seq![extent];
        assert(one_k.drop_last() =~= Seq::<usize>::empty());
        assert(one_e.drop_last() =~= Seq::<usize>::empty());
        assert(numel_of(Seq::<usize>::empty()) == 1);
        assert(numel_of(seq![kn]) == kn);
        assert(numel_of(seq![extent]) == extent);
    }
    let pre_v = sub_usizes(dims, 0, dim);
    let suf_v = sub_usizes(dims, dim + 1, n);
    proof {
        assert(pre_v@ =~= pre);
        assert(suf_v@ =~= suf);
    }
    let total = checked_numel(dims);
    let src_total = checked_numel(src_dims);
    let outer_c = checked_numel(pre_v.as_slice());
    let inner_c = checked_numel(suf_v.as_slice());
    let (outer, inner) = match (total, src_total, outer_c, inner_c) {
        (Some(_), Some(_), Some(o), Some(i)) => (o, i),
        _ => {
            return Err(Error::ShapeOverflow { dims: copy_usizes(src_dims), op: "index_add" });
        },
    };
    if outer > 0 {
        match find_unfit(indices, extent) {
            Some(p) => {
                let shape = Shape::from_slice(dims);
                return Err(Error::IndexOutOfBounds { index: report(indices[p]), shape });
            },
            None => {},
        }
    }
    proof {
        assert(numel_of(dims@) == outer * extent * inner);
        assert(numel_of(src_dims@) == outer * kn * inner);
    }
    let rows = plan_rows(indices, outer, extent, inner);
    Ok(IndexAddPlan { rows, inner })
}


/// `rows` are the rows a scatter-add along `dim` into a target of extents
/// `dims` adds, as [`plan_index_add`] lists them: for each outer
/// coordinate `o`, then each index position `k`, the target row
/// `(o * extent + indices[k]) * inner` gets the source row
/// `(o * kn + k) * inner`.
pub open spec fn index_add_rows(dims: Seq<usize>, dim: int, indices: Seq<i64>, rows: Seq<(usize, usize)>) -> bool {
    let kn = indices.len() as int;
    let extent = dims[dim] as int;
    let outer = outer_count(dims, dim) as int;
    let inner = inner_count(dims, dim) as int;
    &&& rows.len() == outer * kn
    &&& forall|o: int, k: int|
        0 <= o < outer && 0 <= k < kn ==> #[trigger] rows[o * kn + k] == (
            ((o * extent + indices[k]) * inner) as usize,
            ((o * kn + k) * inner) as usize,
        )
}

/// `after` is `before` with the `inner` elements from `dst` each combined
/// by `combine` with the source element at the same place of the row from
/// `src`; every other element unchanged.
pub open spec fn scatter_step<T, F: Fn(T, T) -> T>(
    combine: F,
    before: Seq<T>,
    after: Seq<T>,
    sv: Seq<T>,
    dst: int,
    src: int,
    inner: int,
) -> bool {
    &&& after.len() == before.len()
    &&& forall|x: int| 0 <= x < before.len() && !(dst <= x < dst + inner) ==> #[trigger] after[x] == before[x]
    &&& forall|x: int| dst <= x < dst + inner ==> #[trigger] combine.ensures((before[x], sv[src + x - dst]), after[x])
}

/// `states` traces the scatter of `rows` into `av` in order: each state is
/// the previous one with one more row added.
pub open spec fn scatter_trace<T, F: Fn(T, T) -> T>(
    combine: F,
    av: Seq<T>,
    sv: Seq<T>,
    rows: Seq<(usize, usize)>,
    inner: int,
    states: Seq<Seq<T>>,
) -> bool {
    &&& states.len() == rows.len() + 1
    &&& states[0] == av
    &&& forall|t: int|
        0 <= t < rows.len() ==> #[trigger] scatter_step(
            combine,
            states[t],
            states[t + 1],
            sv,
            rows[t].0 as int,
            rows[t].1 as int,
            inner,
        )
}

/// `out[.., indices[k], ..] = combine(out[.., indices[k], ..], src[.., k, ..])`
/// along `dim`, on a copy of `target`, rows in the order of
/// [`plan_index_add`] (so a repeated index accumulates in index order).
///
/// The errors of [`plan_index_add`] on the two shapes, and
/// `ShapeOverflow` when the result cannot be addressed.
pub fn index_add_values<T: Copy, F: Fn(T, T) -> T>(
    target: &Tensor<T>,
    dim: usize,
    indices: &[i64],
    src: &Tensor<T>,
    combine: &F,
) -> (r: Result<Tensor<T>, Error>)
    requires
        forall|x: T, y: T| #[trigger] combine.requires((x, y)),
    ensures
        r matches Err(e) ==> crate::error::names_op(e, "index_add"@),
        ({
            let dims = target.shape_view();
            let sd = src.shape_view();
            &&& dim >= dims.len() ==> (r matches Err(e) && e matches Error::InvalidArgument {
                issue: Issue::DimOutOfRange { dim: d, rank },
                ..
            } && d == dim && rank == dims.len())
            &&& dim < dims.len() && sd != dims.update(dim as int, indices@.len() as usize) ==> (
            r matches Err(e) && e matches Error::ShapeMismatch { expected, got, .. } && expected@
                == dims.update(dim as int, indices@.len() as usize) && got@ == sd)
            &&& dim < dims.len() && sd == dims.update(dim as int, indices@.len() as usize)
                && outer_count(dims, dim as int) > 0 && !all_fit(indices@, dims[dim as int])
                && numel_of(dims) <= usize::MAX && numel_of(sd) <= usize::MAX && outer_count(
                dims,
                dim as int,
            ) <= usize::MAX && inner_count(dims, dim as int) <= usize::MAX ==> (r matches Err(e)
                && e matches Error::IndexOutOfBounds { index, shape } && shape@ == dims
                && exists|p: int|
                first_unfit(indices@, dims[dim as int], p) && index@ == seq![
                    reported_index(indices@[p]),
                ])
            &&& dim < dims.len() && sd == dims.update(dim as int, indices@.len() as usize) && (
            outer_count(dims, dim as int) == 0 || all_fit(indices@, dims[dim as int])) && addressable(
                dims,
            ) && numel_of(sd) <= usize::MAX && outer_count(dims, dim as int) <= usize::MAX
                && inner_count(dims, dim as int) <= usize::MAX ==> r is Ok
            &&& dim < dims.len() && sd == dims.update(dim as int, indices@.len() as usize) && (
            outer_count(dims, dim as int) == 0 || all_fit(indices@, dims[dim as int])) && !addressable(
                dims,
            ) && numel_of(dims) <= usize::MAX && numel_of(sd) <= usize::MAX && outer_count(dims, dim as int) <= usize::MAX
                && inner_count(dims, dim as int) <= usize::MAX ==> (r matches Err(e)
                && e is ShapeOverflow)
        }),
        r matches Ok(out) ==> {
            let dims = target.shape_view();
            &&& addressable(dims)
            &&& out.shape_view() == dims
            &&& exists|rows: Seq<(usize, usize)>, states: Seq<Seq<T>>|
                #[trigger] index_add_rows(dims, dim as int, indices@, rows) && #[trigger] scatter_trace(
                    *combine,
                    target.values(),
                    src.values(),
                    rows,
                    inner_count(dims, dim as int) as int,
                    states,
                ) && states.last() == out.values()
        },
{
    let plan = match plan_index_add(target.dims(), dim, indices, src.dims()) {
        Ok(p) => p,
        Err(e) => {
            return Err(e);
        },
    };
    let ghost dims = target.shape_view();
    let ghost kn = indices@.len() as int;
    let ghost extent = dims[dim as int] as int;
    let ghost outer = outer_count(dims, dim as int) as int;
    let inner = plan.inner;
    let mut out = target.to_vec();
    let sv = src.to_vec();
    proof {
        target.lemma_values();
        src.lemma_values();
    }
    let olen = out.len();
    let slen = sv.len();
    let ghost mut states: Seq<Seq<T>> = seq![out@];
    let mut t: usize = 0;
    while t < plan.rows.len()
        invariant
            t <= plan.rows@.len(),
            dims == target.shape_view(),
            dim < dims.len(),
            kn == indices@.len(),
            extent == dims[dim as int],
            outer == outer_count(dims, dim as int),
            0 <= outer,
            0 <= kn,
            out@.len() == olen,
            sv@.len() == slen,
            plan.rows@.len() == outer * kn,
            index_add_rows(dims, dim as int, indices@, plan.rows@),
            inner as int == inner_count(dims, dim as int),
            out@.len() == outer * extent * inner,
            sv@.len() == outer * kn * inner,
            sv@ == src.values(),
            outer > 0 ==> all_fit(indices@, extent as usize),
            0 <= extent,
            forall|x: T, y: T| #[trigger] combine.requires((x, y)),
            states.len() == t + 1,
            states[0] == target.values(),
            states[t as int] == out@,
            forall|u: int|
                0 <= u < t ==> #[trigger] scatter_step(
                    *combine,
                    states[u],
                    states[u + 1],
                    sv@,
                    plan.rows@[u].0 as int,
                    plan.rows@[u].1 as int,
                    inner as int,
                ),
        decreases plan.rows@.len() - t,
    {
        let (dst, from) = plan.rows[t];
        proof {
            let o = t as int / kn;
            let k = t as int % kn;
            assert(kn > 0) by (nonlinear_arith)
                requires
                    0 <= t < outer * kn,
                    0 <= outer,
                    0 <= kn,
            ;
            vstd::arithmetic::div_mod::lemma_fundamental_div_mod(t as int, kn);
            assert(0 <= k < kn);
            assert(0 <= o) by (nonlinear_arith)
                requires
                    o == t as int / kn,
                    t >= 0,
                    kn > 0,
            ;
            assert(o < outer) by (nonlinear_arith)
                requires
                    t == kn * o + k,
                    0 <= k,
                    t < outer * kn,
                    kn > 0,
            ;
            assert(t as int == o * kn + k) by (nonlinear_arith)
                requires
                    t == kn * o + k,
            ;
            assert(plan.rows@[o * kn + k] == (
                ((o * extent + indices@[k]) * inner) as usize,
                ((o * kn + k) * inner) as usize,
            ));
            assert(index_fits(indices@[k], extent as usize));
            let row = o * extent + indices@[k];
            assert(0 <= row && row + 1 <= outer * extent) by (nonlinear_arith)
                requires
                    row == o * extent + indices@[k],
                    0 <= o < outer,
                    0 <= indices@[k] < extent,
            ;
            assert(0 <= row * inner && row * inner + inner <= outer * extent * inner) by (nonlinear_arith)
                requires
                    0 <= row,
                    row + 1 <= outer * extent,
                    0 <= inner,
            ;
            assert(0 <= t * inner && t * inner + inner <= outer * kn * inner) by (nonlinear_arith)
                requires
                    0 <= t < outer * kn,
                    0 <= inner,
            ;
            assert(dst as int == row * inner);
            assert(from as int == t * inner);
        }
        let ghost before = out@;
        let mut j: usize = 0;
        while j < inner
            invariant
                j <= inner,
                out@.len() == olen,
                sv@.len() == slen,
                dst + inner <= out@.len(),
                from + inner <= sv@.len(),
                out@.len() == before.len(),
                forall|x: T, y: T| #[trigger] combine.requires((x, y)),
                forall|x: int| 0 <= x < before.len() && !(dst <= x < dst + j) ==> #[trigger] out@[x] == before[x],
                forall|x: int| dst <= x < dst + j ==> #[trigger] combine.ensures((before[x], sv@[from + x - dst]), out@[x]),
            decreases inner - j,
        {
            let cur = out[dst + j];
            let next = combine(cur, sv[from + j]);
            out.set(dst + j, next);
            j += 1;
        }
        proof {
            assert(scatter_step(*combine, before, out@, sv@, dst as int, from as int, inner as int));
            states = states.push(out@);
            assert forall|u: int| 0 <= u < t + 1 implies #[trigger] scatter_step(
                *combine,
                states[u],
                states[u + 1],
                sv@,
                plan.rows@[u].0 as int,
                plan.rows@[u].1 as int,
                inner as int,
            ) by {
                if u < t {
                    assert(states[u] == states.drop_last()[u]);
                    assert(states[u + 1] == states.drop_last()[u + 1]);
                }
            }
        }
        t += 1;
    }
    proof {
        assert(scatter_trace(*combine, target.values(), src.values(), plan.rows@, inner as int, states));
        assert(states.last() == out@);
    }
    match Tensor::from_vec_as(out, target.shape().clone(), "index_add") {
        Ok(v) => {
            proof {
                assert(index_add_rows(dims, dim as int, indices@, plan.rows@));
            }
            Ok(v)
        },
        Err(e) => Err(e),
    }
}

} // verus!
