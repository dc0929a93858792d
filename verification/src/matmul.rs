//! Matrix products: which operands multiply, how their batch dimensions
//! broadcast, where each batch element starts, and the product itself as
//! a fold over the contracted dimension.
use crate::error::{Error, Issue};
use crate::index::{numel_of, permuted, unravel, valid_index};
use crate::tensor::Tensor;
use crate::shape::{broadcast_shapes, broadcast_spec, broadcastable, checked_numel, sub_usizes, Shape};
use vstd::prelude::*;

verus! {

/// How a matrix product runs: `batch` products of `[m, k] x [k, n]`,
/// batch element `i` reading `a` at `i * a_batch_stride` and `b` at
/// `i * b_batch_stride` (0 for an operand whose single matrix is shared),
/// into `out_shape`.
#[derive(Debug)]
pub struct MatmulPlan {
    /// The number of matrix products.
    pub batch: usize,
    /// Rows of each product.
    pub m: usize,
    /// The shared (contracted) extent.
    pub k: usize,
    /// Columns of each product.
    pub n: usize,
    /// Elements between consecutive batch matrices of `a`.
    pub a_batch_stride: usize,
    /// Elements between consecutive batch matrices of `b`.
    pub b_batch_stride: usize,
    /// `[m, n]` when both operands are matrices, else `[batch, m, n]`.
    pub out_shape: Shape,
}

/// The batch extent of a matrix (rank 2) or a stack of them (rank 3).
pub open spec fn batch_of(d: Seq<usize>) -> int {
    if d.len() == 3 {
        d[0] as int
    } else {
        1
    }
}

/// Two batch extents combine: equal, or one of them is 1.
pub open spec fn batches_combine(x: int, y: int) -> bool {
    x == y || x == 1 || y == 1
}

/// The combined batch extent.
pub open spec fn combined_batch(x: int, y: int) -> int {
    if x == 1 {
        y
    } else {
        x
    }
}

/// The rank every operand must have: a matrix or a stack of matrices.
pub open spec fn matmul_rank(d: Seq<usize>) -> bool {
    d.len() == 2 || d.len() == 3
}

/// The rank refusal for one operand.
pub open spec fn rank_refused(d: Seq<usize>, e: Error) -> bool {
    &&& d.len() < 2 ==> (e matches Error::InvalidArgument {
        issue: Issue::RankTooSmall { needed, got },
        ..
    } && needed == 2 && got == d.len())
    &&& d.len() > 3 ==> (e matches Error::InvalidArgument {
        issue: Issue::RankTooLarge { limit, got },
        ..
    } && limit == 3 && got == d.len())
}

/// The extents of `a x b` that must fit: each operand matrix and the
/// result.
pub open spec fn matmul_fits(a: Seq<usize>, b: Seq<usize>) -> bool {
    let m = a[a.len() - 2] as int;
    let k = a[a.len() - 1] as int;
    let n = b[b.len() - 1] as int;
    &&& m * k <= usize::MAX
    &&& k * n <= usize::MAX
    &&& combined_batch(batch_of(a), batch_of(b)) * m * n <= usize::MAX
}

/// The rank check of one operand.
fn check_rank(d: &Shape) -> (r: Result<(), Error>)
    ensures
        r matches Err(e) ==> crate::error::names_op(e, "matmul"@),
        r is Ok <==> matmul_rank(d@),
        r matches Err(e) ==> rank_refused(d@, e),
{
    let r = d.ndim();
    if r < 2 {
        return Err(
            Error::InvalidArgument { op: "matmul", issue: Issue::RankTooSmall { needed: 2, got: r } },
        );
    }
    if r > 3 {
        return Err(
            Error::InvalidArgument { op: "matmul", issue: Issue::RankTooLarge { limit: 3, got: r } },
        );
    }
    Ok(())
}

/// The plan of `a x b` for a matrix or a stack of matrices on each side:
/// `[m, k] x [k, n]`, `[b, m, k] x [b, k, n]`, and either side with a
/// batch of 1 (or no batch) shared across the other's batch.
///
/// `InvalidArgument` (`RankTooSmall` / `RankTooLarge`) for an operand of
/// another rank, `a` checked first; `ShapeMismatch` (`a`'s shape
/// expected, `b`'s got) when the contracted extents differ;
/// `BroadcastIncompatible` when the batches neither match nor include a
/// 1; `ShapeOverflow` when a matrix or the result does not fit in
/// `usize`.
pub fn plan_matmul(a: &Shape, b: &Shape) -> (r: Result<MatmulPlan, Error>)
    ensures
        r matches Err(e) ==> crate::error::names_op(e, "matmul"@),
        !matmul_rank(a@) ==> (r matches Err(e) && rank_refused(a@, e)),
        matmul_rank(a@) && !matmul_rank(b@) ==> (r matches Err(e) && rank_refused(b@, e)),
        matmul_rank(a@) && matmul_rank(b@) && a@[a@.len() - 1] != b@[b@.len() - 2] ==> (r matches Err(
            e,
        ) && e matches Error::ShapeMismatch { expected, got, .. } && expected@ == a@ && got@ == b@),
        matmul_rank(a@) && matmul_rank(b@) && a@[a@.len() - 1] == b@[b@.len() - 2]
            && !batches_combine(batch_of(a@), batch_of(b@)) ==> (r matches Err(e)
            && e matches Error::BroadcastIncompatible { lhs, rhs } && lhs@ == a@ && rhs@ == b@),
        matmul_rank(a@) && matmul_rank(b@) && a@[a@.len() - 1] == b@[b@.len() - 2]
            && batches_combine(batch_of(a@), batch_of(b@)) ==> (r is Ok <==> matmul_fits(a@, b@)),
        matmul_rank(a@) && matmul_rank(b@) && a@[a@.len() - 1] == b@[b@.len() - 2]
            && batches_combine(batch_of(a@), batch_of(b@)) && !matmul_fits(a@, b@) ==> (r matches Err(e)
            && e is ShapeOverflow),
        r matches Err(e) && e is ShapeOverflow ==> !matmul_fits(a@, b@),
        r matches Ok(p) ==> {
            let m = a@[a@.len() - 2];
            let k = a@[a@.len() - 1];
            let n = b@[b@.len() - 1];
            let batch = combined_batch(batch_of(a@), batch_of(b@));
            &&& matmul_rank(a@) && matmul_rank(b@)
            &&& k == b@[b@.len() - 2]
            &&& batches_combine(batch_of(a@), batch_of(b@))
            &&& p.batch == batch && p.m == m && p.k == k && p.n == n
            &&& p.a_batch_stride == (if batch_of(a@) == 1 {
                0
            } else {
                m * k
            })
            &&& p.b_batch_stride == (if batch_of(b@) == 1 {
                0
            } else {
                k * n
            })
            &&& p.out_shape@ == (if a@.len() == 2 && b@.len() == 2 {
                seq![m, n]
            } else {
                seq![batch as usize, m, n]
            })
        },
{
    match check_rank(a) {
        Ok(()) => {},
        Err(e) => {
            return Err(e);
        },
    }
    match check_rank(b) {
        Ok(()) => {},
        Err(e) => {
            return Err(e);
        },
    }
    let ad = a.dims();
    let bd = b.dims();
    let ra = ad.len();
    let rb = bd.len();
    let m = ad[ra - 2];
    let k = ad[ra - 1];
    let k2 = bd[rb - 2];
    let n = bd[rb - 1];
    if k != k2 {
        return Err(Error::ShapeMismatch { expected: a.clone(), got: b.clone(), op: "matmul" });
    }
    let ba: usize = if ra == 3 {
        ad[0]
    } else {
        1
    };
    let bb: usize = if rb == 3 {
        bd[0]
    } else {
        1
    };
    let batch = if ba == bb || bb == 1 {
        ba
    } else if ba == 1 {
        bb
    } else {
        return Err(Error::BroadcastIncompatible { lhs: a.clone(), rhs: b.clone() });
    };
    let mk = match m.checked_mul(k) {
        Some(x) => x,
        None => {
            return Err(Error::ShapeOverflow { dims: crate::shape::copy_usizes(ad), op: "matmul" });
        },
    };
    let kn = match k.checked_mul(n) {
        Some(x) => x,
        None => {
            return Err(Error::ShapeOverflow { dims: crate::shape::copy_usizes(bd), op: "matmul" });
        },
    };
    let mut out_dims: Vec<usize> = Vec::new();
    if ra == 3 || rb == 3 {
        out_dims.push(batch);
    }
    out_dims.push(m);
    out_dims.push(n);
    proof {
        let e = Seq::<usize>::empty();
        assert(numel_of(e) == 1);
        if ra == 3 || rb == 3 {
            let s1 = e.push(batch);
            let s2 = s1.push(m);
            let s3 = s2.push(n);
            assert(s1.drop_last() =~= e);
            assert(s2.drop_last() =~= s1);
            assert(s3.drop_last() =~= s2);
            assert(out_dims@ =~= s3);
            assert(numel_of(s1) == numel_of(e) * (batch as nat));
            assert(numel_of(s1) == batch);
            assert(numel_of(s2) == batch * m);
            assert(numel_of(s3) == batch * m * n);
        } else {
            let s1 = e.push(m);
            let s2 = s1.push(n);
            assert(s2.drop_last() =~= s1 && s1.drop_last() =~= e);
            assert(out_dims@ =~= s2);
            assert(numel_of(s1) == m);
            assert(numel_of(s2) == m * n);
            assert(batch == 1);
            assert(1 * m * n == m * n);
        }
    }
    match crate::shape::checked_numel(out_dims.as_slice()) {
        Some(_) => {},
        None => {
            return Err(Error::ShapeOverflow { dims: out_dims, op: "matmul" });
        },
    }
    Ok(
        MatmulPlan {
            batch,
            m,
            k,
            n,
            a_batch_stride: if ba == 1 {
                0
            } else {
                mk
            },
            b_batch_stride: if bb == 1 {
                0
            } else {
                kn
            },
            out_shape: Shape::new(out_dims),
        },
    )
}


/// The batch dimensions of an operand of rank at least 2: all but the
/// last two.
pub open spec fn lead(d: Seq<usize>) -> Seq<usize> {
    d.take(d.len() - 2)
}

/// The broadcast batch dimensions of `a x b`.
pub open spec fn lowered_batch(a: Seq<usize>, b: Seq<usize>) -> Seq<usize> {
    broadcast_spec(lead(a), lead(b))
}

/// The extents a product of any rank needs to address: the batch count,
/// both broadcast operands and the result.
pub open spec fn lowering_fits(a: Seq<usize>, b: Seq<usize>) -> bool {
    let batch = lowered_batch(a, b);
    let m = a[a.len() - 2];
    let k = a[a.len() - 1];
    let n = b[b.len() - 1];
    &&& numel_of(batch) <= usize::MAX
    &&& numel_of(batch + seq![m, k]) <= usize::MAX
    &&& numel_of(batch + seq![k, n]) <= usize::MAX
    &&& numel_of(batch + seq![m, n]) <= usize::MAX
}

/// How a product of operands of any rank (at least 2) runs on the
/// rank-3 contract of [`plan_matmul`]: broadcast `a` to `a_dims` and `b`
/// to `b_dims`, flatten them to `a3` and `b3`, multiply, and unflatten
/// the product to `out_dims`.
#[derive(Debug)]
pub struct MatmulLowering {
    /// `[batch.., m, k]`.
    pub a_dims: Vec<usize>,
    /// `[batch.., k, n]`.
    pub b_dims: Vec<usize>,
    /// `[B, m, k]`, `B` the batch count.
    pub a3: Vec<usize>,
    /// `[B, k, n]`.
    pub b3: Vec<usize>,
    /// `[batch.., m, n]`.
    pub out_dims: Vec<usize>,
}

/// The lowering of `a x b` for operands of any rank: every dimension but
/// the last two is a batch dimension, and batch dimensions broadcast
/// NumPy-style (right-aligned, 1 stretches).
///
/// `InvalidArgument` (`RankTooSmall`) for an operand of rank below 2, `a`
/// checked first; `ShapeMismatch` (`a` expected, `b` got) when the
/// contracted extents differ; `BroadcastIncompatible` (both shapes) when
/// the batch dimensions do not broadcast; `ShapeOverflow` when an extent
/// to address does not fit in `usize`.
pub fn lower_matmul(a: &[usize], b: &[usize]) -> (r: Result<MatmulLowering, Error>)
    ensures
        r matches Err(e) ==> crate::error::names_op(e, "matmul"@),
        a@.len() < 2 ==> (r matches Err(e) && e matches Error::InvalidArgument {
            issue: Issue::RankTooSmall { needed, got },
            ..
        } && needed == 2 && got == a@.len()),
        a@.len() >= 2 && b@.len() < 2 ==> (r matches Err(e) && e matches Error::InvalidArgument {
            issue: Issue::RankTooSmall { needed, got },
            ..
        } && needed == 2 && got == b@.len()),
        a@.len() >= 2 && b@.len() >= 2 && a@[a@.len() - 1] != b@[b@.len() - 2] ==> (r matches Err(e)
            && e matches Error::ShapeMismatch { expected, got, .. } && expected@ == a@ && got@ == b@),
        a@.len() >= 2 && b@.len() >= 2 && a@[a@.len() - 1] == b@[b@.len() - 2] && !broadcastable(
            lead(a@),
            lead(b@),
        ) ==> (r matches Err(e) && e matches Error::BroadcastIncompatible { lhs, rhs } && lhs@ == a@
            && rhs@ == b@),
        a@.len() >= 2 && b@.len() >= 2 && a@[a@.len() - 1] == b@[b@.len() - 2] && broadcastable(
            lead(a@),
            lead(b@),
        ) ==> (r is Ok <==> lowering_fits(a@, b@)),
        a@.len() >= 2 && b@.len() >= 2 && a@[a@.len() - 1] == b@[b@.len() - 2] && broadcastable(
            lead(a@),
            lead(b@),
        ) && !lowering_fits(a@, b@) ==> (r matches Err(e) && e is ShapeOverflow),
        r matches Ok(p) ==> {
            let batch = lowered_batch(a@, b@);
            let m = a@[a@.len() - 2];
            let k = a@[a@.len() - 1];
            let n = b@[b@.len() - 1];
            &&& a@.len() >= 2 && b@.len() >= 2 && k == b@[b@.len() - 2]
            &&& broadcastable(lead(a@), lead(b@))
            &&& lowering_fits(a@, b@)
            &&& p.a_dims@ == batch + seq![m, k]
            &&& p.b_dims@ == batch + seq![k, n]
            &&& p.out_dims@ == batch + seq![m, n]
            &&& p.a3@ == seq![numel_of(batch) as usize, m, k]
            &&& p.b3@ == seq![numel_of(batch) as usize, k, n]
        },
{
    let ra = a.len();
    let rb = b.len();
    if ra < 2 {
        return Err(
            Error::InvalidArgument { op: "matmul", issue: Issue::RankTooSmall { needed: 2, got: ra } },
        );
    }
    if rb < 2 {
        return Err(
            Error::InvalidArgument { op: "matmul", issue: Issue::RankTooSmall { needed: 2, got: rb } },
        );
    }
    let m = a[ra - 2];
    let k = a[ra - 1];
    let n = b[rb - 1];
    if k != b[rb - 2] {
        return Err(
            Error::ShapeMismatch {
                expected: Shape::from_slice(a),
                got: Shape::from_slice(b),
                op: "matmul",
            },
        );
    }
    let la = sub_usizes(a, 0, ra - 2);
    let lb = sub_usizes(b, 0, rb - 2);
    proof {
        assert(la@ =~= lead(a@));
        assert(lb@ =~= lead(b@));
    }
    let batch = match broadcast_shapes(&Shape::new(la), &Shape::new(lb)) {
        Ok(s) => s,
        Err(_) => {
            return Err(
                Error::BroadcastIncompatible { lhs: Shape::from_slice(a), rhs: Shape::from_slice(b) },
            );
        },
    };
    let bd = batch.dims();
    let mut a_dims = crate::shape::copy_usizes(bd);
    a_dims.push(m);
    a_dims.push(k);
    let mut b_dims = crate::shape::copy_usizes(bd);
    b_dims.push(k);
    b_dims.push(n);
    let mut out_dims = crate::shape::copy_usizes(bd);
    out_dims.push(m);
    out_dims.push(n);
    proof {
        assert(a_dims@ =~= bd@ + seq![m, k]);
        assert(b_dims@ =~= bd@ + seq![k, n]);
        assert(out_dims@ =~= bd@ + seq![m, n]);
    }
    let count = match checked_numel(bd) {
        Some(c) => c,
        None => {
            return Err(Error::ShapeOverflow { dims: crate::shape::copy_usizes(bd), op: "matmul" });
        },
    };
    if checked_numel(a_dims.as_slice()).is_none() {
        return Err(Error::ShapeOverflow { dims: a_dims, op: "matmul" });
    }
    if checked_numel(b_dims.as_slice()).is_none() {
        return Err(Error::ShapeOverflow { dims: b_dims, op: "matmul" });
    }
    if checked_numel(out_dims.as_slice()).is_none() {
        return Err(Error::ShapeOverflow { dims: out_dims, op: "matmul" });
    }
    let a3 = vec![count, m, k];
    let b3 = vec![count, k, n];
    proof {
        assert(a3@ =~= seq![numel_of(lowered_batch(a@, b@)) as usize, m, k]);
        assert(b3@ =~= seq![numel_of(lowered_batch(a@, b@)) as usize, k, n]);
    }
    Ok(MatmulLowering { a_dims, b_dims, a3, b3, out_dims })
}


/// `accs` traces a left fold of `step` from `zero` over the pairs of
/// `xs` and `ys`: `accs[t + 1]` is a result of `step(accs[t], xs[t], ys[t])`.
pub open spec fn fold_trace<T, F: Fn(T, T, T) -> T>(
    step: F,
    zero: T,
    xs: Seq<T>,
    ys: Seq<T>,
    accs: Seq<T>,
) -> bool {
    &&& accs.len() == xs.len() + 1
    &&& accs[0] == zero
    &&& forall|t: int|
        0 <= t < xs.len() ==> #[trigger] step.ensures((accs[t], xs[t], ys[t]), accs[t + 1])
}

/// `r` is what folding `step` from `zero` over the pairs of `xs` and
/// `ys`, first to last, gives.
pub open spec fn folds_to<T, F: Fn(T, T, T) -> T>(step: F, zero: T, xs: Seq<T>, ys: Seq<T>, r: T) -> bool {
    exists|accs: Seq<T>| #[trigger] fold_trace(step, zero, xs, ys, accs) && accs.last() == r
}

/// `len` consecutive elements of `v` from `start`: a row of a row-major
/// matrix.
pub open spec fn row_of<T>(v: Seq<T>, start: int, len: nat) -> Seq<T> {
    Seq::new(len, |t: int| v[start + t])
}

/// `len` elements of `v` from `start`, `stride` apart: a column of a
/// row-major matrix.
pub open spec fn column_of<T>(v: Seq<T>, start: int, stride: int, len: nat) -> Seq<T> {
    Seq::new(len, |t: int| v[start + t * stride])
}

/// Elements between consecutive batch matrices of an operand: none when
/// its one matrix is shared across the batch.
pub open spec fn batch_step(d: Seq<usize>, rows: int, cols: int) -> int {
    if batch_of(d) == 1 {
        0
    } else {
        rows * cols
    }
}

/// Block `[p, i, ..]` of a `[B, m, k]` row-major slab ends within it.
proof fn lemma_block_end(p: int, i: int, bsz: int, m: int, k: int)
    requires
        0 <= p < bsz,
        0 <= i < m,
        0 <= k,
    ensures
        0 <= p * (m * k),
        0 <= i * k,
        p * (m * k) + i * k + k <= bsz * (m * k),
        i * k + k <= m * k,
{
    assert(0 <= p * (m * k)) by (nonlinear_arith)
        requires
            0 <= p,
            0 <= m,
            0 <= k,
    ;
    assert(0 <= i * k) by (nonlinear_arith)
        requires
            0 <= i,
            0 <= k,
    ;
    assert(i * k + k <= m * k) by (nonlinear_arith)
        requires
            0 <= i < m,
            0 <= k,
    ;
    assert(p * (m * k) + m * k <= bsz * (m * k)) by (nonlinear_arith)
        requires
            0 <= p < bsz,
            0 <= m * k,
    ;
}

/// Element `e` of a row-major `[.., m, n]` product holds `v`: the fold
/// of `step` over row `i` of batch matrix `q` of `a` (slab `av`, batch
/// step `sa`) and column `j` of batch matrix `q` of `b` (slab `bv`, step
/// `sb`), where `e` is `(q * m + i) * n + j`.
pub open spec fn cell_ok<T, F: Fn(T, T, T) -> T>(
    step: F,
    zero: T,
    av: Seq<T>,
    bv: Seq<T>,
    sa: int,
    sb: int,
    m: int,
    k: int,
    n: int,
    e: int,
    v: T,
) -> bool {
    let q = e / n / m;
    let i = e / n % m;
    let j = e % n;
    folds_to(step, zero, row_of(av, q * sa + i * k, k as nat), column_of(bv, q * sb + j, n, k as nat), v)
}

/// The row-major position `(q * m + i) * n + j` decomposes back into
/// `q`, `i` and `j`.
proof fn lemma_flat3(q: int, i: int, j: int, m: int, n: int)
    requires
        0 <= q,
        0 <= i < m,
        0 <= j < n,
    ensures
        ((q * m + i) * n + j) / n / m == q,
        ((q * m + i) * n + j) / n % m == i,
        ((q * m + i) * n + j) % n == j,
{
    vstd::arithmetic::div_mod::lemma_fundamental_div_mod_converse((q * m + i) * n + j, n, q * m + i, j);
    vstd::arithmetic::div_mod::lemma_fundamental_div_mod_converse(q * m + i, m, q, i);
}

/// `cv` holds the product of `a` (extents `ad`, logical values `av`)
/// and `b` (`bd`, `bv`) under the contract of [`plan_matmul`]: element
/// `(p, i, j)` is the fold of `step` from `zero` over row `i` of batch
/// matrix `p` of `a` and column `j` of batch matrix `p` of `b`.
pub open spec fn product_of<T, F: Fn(T, T, T) -> T>(
    step: F,
    zero: T,
    ad: Seq<usize>,
    av: Seq<T>,
    bd: Seq<usize>,
    bv: Seq<T>,
    cv: Seq<T>,
) -> bool {
    let m = ad[ad.len() - 2] as int;
    let k = ad[ad.len() - 1] as int;
    let n = bd[bd.len() - 1] as int;
    let batch = combined_batch(batch_of(ad), batch_of(bd));
    forall|p: int, i: int, j: int|
        0 <= p < batch && 0 <= i < m && 0 <= j < n ==> #[trigger] folds_to(
            step,
            zero,
            row_of(av, p * batch_step(ad, m, k) + i * k, k as nat),
            column_of(bv, p * batch_step(bd, k, n) + j, n, k as nat),
            cv[(p * m + i) * n + j],
        )
}

/// The shape of `a x b` under the contract of [`plan_matmul`].
pub open spec fn matmul_out_dims(a: Seq<usize>, b: Seq<usize>) -> Seq<usize> {
    let m = a[a.len() - 2];
    let n = b[b.len() - 1];
    if a.len() == 2 && b.len() == 2 {
        seq![m, n]
    } else {
        seq![combined_batch(batch_of(a), batch_of(b)) as usize, m, n]
    }
}

/// The matrix product of `a` and `b` under the contract of
/// [`plan_matmul`], each output element folded with `step` from `zero`
/// over the contracted dimension in order: with `step` the multiply-add
/// `acc + x * y` this is `[m, k] x [k, n]`, batched as the plan says.
///
/// The errors are those of [`plan_matmul`], and `ShapeOverflow` when the
/// result cannot be allocated and addressed.
pub fn matmul_values<T: Copy, F: Fn(T, T, T) -> T>(
    a: &Tensor<T>,
    b: &Tensor<T>,
    zero: T,
    step: &F,
) -> (r: Result<Tensor<T>, Error>)
    requires
        forall|acc: T, x: T, y: T| #[trigger] step.requires((acc, x, y)),
    ensures
        r matches Err(e) ==> crate::error::names_op(e, "matmul"@),
        ({
            let ad = a.shape_view();
            let bd = b.shape_view();
            &&& !matmul_rank(ad) ==> (r matches Err(e) && rank_refused(ad, e))
            &&& matmul_rank(ad) && !matmul_rank(bd) ==> (r matches Err(e) && rank_refused(bd, e))
            &&& matmul_rank(ad) && matmul_rank(bd) && ad[ad.len() - 1] != bd[bd.len() - 2] ==> (
            r matches Err(e) && e matches Error::ShapeMismatch { expected, got, .. } && expected@
                == ad && got@ == bd)
            &&& matmul_rank(ad) && matmul_rank(bd) && ad[ad.len() - 1] == bd[bd.len() - 2]
                && !batches_combine(batch_of(ad), batch_of(bd)) ==> (r matches Err(e)
                && e matches Error::BroadcastIncompatible { lhs, rhs } && lhs@ == ad && rhs@ == bd)
            &&& matmul_rank(ad) && matmul_rank(bd) && ad[ad.len() - 1] == bd[bd.len() - 2]
                && batches_combine(batch_of(ad), batch_of(bd)) && matmul_fits(ad, bd)
                && crate::select::addressable(matmul_out_dims(ad, bd)) ==> r is Ok
            &&& matmul_rank(ad) && matmul_rank(bd) && ad[ad.len() - 1] == bd[bd.len() - 2]
                && batches_combine(batch_of(ad), batch_of(bd)) && !(matmul_fits(ad, bd)
                && crate::select::addressable(matmul_out_dims(ad, bd))) ==> (r matches Err(e)
                && e is ShapeOverflow)
        }),
        r matches Err(e) && e is ShapeOverflow ==> !matmul_fits(a.shape_view(), b.shape_view())
            || !crate::select::addressable(matmul_out_dims(a.shape_view(), b.shape_view())),
        r matches Ok(c) ==> {
            let ad = a.shape_view();
            let bd = b.shape_view();
            let m = ad[ad.len() - 2] as int;
            let k = ad[ad.len() - 1] as int;
            let n = bd[bd.len() - 1] as int;
            let batch = combined_batch(batch_of(ad), batch_of(bd));
            &&& matmul_rank(ad) && matmul_rank(bd) && k == bd[bd.len() - 2]
            &&& batches_combine(batch_of(ad), batch_of(bd)) && matmul_fits(ad, bd)
            &&& crate::select::addressable(matmul_out_dims(ad, bd))
            &&& c.shape_view() == matmul_out_dims(ad, bd)
            &&& product_of(*step, zero, ad, a.values(), bd, b.values(), c.values())
        },
{
    let plan = match plan_matmul(a.shape(), b.shape()) {
        Ok(p) => p,
        Err(e) => {
            return Err(e);
        },
    };
    let ghost ad = a.shape_view();
    let ghost bd = b.shape_view();
    let batch = plan.batch;
    let m = plan.m;
    let k = plan.k;
    let n = plan.n;
    let sa = plan.a_batch_stride;
    let sb = plan.b_batch_stride;
    let av = a.to_vec();
    let bv = b.to_vec();
    let ghost a_one = batch_of(ad) == 1;
    let ghost b_one = batch_of(bd) == 1;
    // Each operand slab holds its batch count of matrices.
    let ghost a_count: int = if a_one { 1 } else { batch as int };
    let ghost b_count: int = if b_one { 1 } else { batch as int };
    proof {
        a.lemma_values();
        b.lemma_values();
        reveal_with_fuel(numel_of, 4);
        if ad.len() == 2 {
            assert(ad =~= seq![m, k]);
            assert(numel_of(ad) == m * k);
        } else {
            assert(ad =~= seq![ad[0], m, k]);
            assert(numel_of(ad) == ad[0] * m * k);
        }
        if bd.len() == 2 {
            assert(bd =~= seq![k, n]);
            assert(numel_of(bd) == k * n);
        } else {
            assert(bd =~= seq![bd[0], k, n]);
            assert(numel_of(bd) == bd[0] * k * n);
        }
        assert(av@.len() == a_count * (m * k)) by (nonlinear_arith)
            requires
                av@.len() == numel_of(ad),
                ad.len() == 2 ==> numel_of(ad) == m * k,
                ad.len() == 3 ==> numel_of(ad) == ad[0] * m * k,
                ad.len() == 2 ==> a_one,
                ad.len() == 3 && a_one ==> ad[0] == 1,
                ad.len() == 3 && !a_one ==> ad[0] == batch,
                ad.len() == 2 || ad.len() == 3,
                a_count == if a_one { 1 } else { batch as int },
        ;
        assert(bv@.len() == b_count * (k * n)) by (nonlinear_arith)
            requires
                bv@.len() == numel_of(bd),
                bd.len() == 2 ==> numel_of(bd) == k * n,
                bd.len() == 3 ==> numel_of(bd) == bd[0] * k * n,
                bd.len() == 2 ==> b_one,
                bd.len() == 3 && b_one ==> bd[0] == 1,
                bd.len() == 3 && !b_one ==> bd[0] == batch,
                bd.len() == 2 || bd.len() == 3,
                b_count == if b_one { 1 } else { batch as int },
        ;
        assert((0 * m) * n == 0) by (nonlinear_arith);
    }
    let alen = av.len();
    let blen = bv.len();
    let mut out: Vec<T> = Vec::new();
    let mut p: usize = 0;
    while p < batch
        invariant
            p <= batch,
            av@ == a.values(),
            bv@ == b.values(),
            av@.len() == alen,
            bv@.len() == blen,
            av@.len() == a_count * (m * k),
            bv@.len() == b_count * (k * n),
            a_one ==> sa == 0 && a_count == 1,
            !a_one ==> sa == m * k && a_count == batch,
            b_one ==> sb == 0 && b_count == 1,
            !b_one ==> sb == k * n && b_count == batch,
            forall|acc: T, x: T, y: T| #[trigger] step.requires((acc, x, y)),
            out@.len() == (p * m) * n,
            forall|e: int|
                0 <= e < out@.len() ==> #[trigger] cell_ok(
                    *step,
                    zero,
                    av@,
                    bv@,
                    sa as int,
                    sb as int,
                    m as int,
                    k as int,
                    n as int,
                    e,
                    out@[e],
                ),
        decreases batch - p,
    {
        let mut i: usize = 0;
        while i < m
            invariant
                p < batch,
                i <= m,
                av@.len() == alen,
                bv@.len() == blen,
                av@.len() == a_count * (m * k),
                bv@.len() == b_count * (k * n),
                a_one ==> sa == 0 && a_count == 1,
                !a_one ==> sa == m * k && a_count == batch,
                b_one ==> sb == 0 && b_count == 1,
                !b_one ==> sb == k * n && b_count == batch,
                forall|acc: T, x: T, y: T| #[trigger] step.requires((acc, x, y)),
                out@.len() == (p * m + i) * n,
                forall|e: int|
                    0 <= e < out@.len() ==> #[trigger] cell_ok(
                        *step,
                        zero,
                        av@,
                        bv@,
                        sa as int,
                        sb as int,
                        m as int,
                        k as int,
                        n as int,
                        e,
                        out@[e],
                    ),
            decreases m - i,
        {
            let ghost pa: int = if a_one { 0 } else { p as int };
            proof {
                lemma_block_end(pa, i as int, a_count, m as int, k as int);
                assert(pa * (m * k) == p * sa) by (nonlinear_arith)
                    requires
                        a_one ==> sa == 0 && pa == 0,
                        !a_one ==> sa == m * k && pa == p,
                ;
            }
            let a_row = p * sa + i * k;
            let mut j: usize = 0;
            while j < n
                invariant
                    p < batch,
                    i < m,
                    j <= n,
                    a_row == p * sa + i * k,
                    a_row + k <= av@.len(),
                    av@.len() == alen,
                    bv@.len() == blen,
                    bv@.len() == b_count * (k * n),
                    b_one ==> sb == 0 && b_count == 1,
                    !b_one ==> sb == k * n && b_count == batch,
                    forall|acc: T, x: T, y: T| #[trigger] step.requires((acc, x, y)),
                    out@.len() == (p * m + i) * n + j,
                    forall|e: int|
                        0 <= e < out@.len() ==> #[trigger] cell_ok(
                            *step,
                            zero,
                            av@,
                            bv@,
                            sa as int,
                            sb as int,
                            m as int,
                            k as int,
                            n as int,
                            e,
                            out@[e],
                        ),
                decreases n - j,
            {
                let ghost xs = row_of(av@, a_row as int, k as nat);
                let ghost ys = column_of(bv@, p * sb + j, n as int, k as nat);
                let mut acc = zero;
                let ghost mut accs: Seq<T> = seq![zero];
                let mut t: usize = 0;
                while t < k
                    invariant
                        p < batch,
                        j < n,
                        t <= k,
                        a_row + k <= av@.len(),
                        av@.len() == alen,
                        bv@.len() == blen,
                        bv@.len() == b_count * (k * n),
                        b_one ==> sb == 0 && b_count == 1,
                        !b_one ==> sb == k * n && b_count == batch,
                        xs == row_of(av@, a_row as int, k as nat),
                        ys == column_of(bv@, p * sb + j, n as int, k as nat),
                        forall|acc: T, x: T, y: T| #[trigger] step.requires((acc, x, y)),
                        accs.len() == t + 1,
                        accs[0] == zero,
                        accs[t as int] == acc,
                        forall|u: int|
                            0 <= u < t ==> #[trigger] step.ensures((accs[u], xs[u], ys[u]), accs[u + 1]),
                    decreases k - t,
                {
                    let ghost pb: int = if b_one { 0 } else { p as int };
                    proof {
                        lemma_block_end(pb, t as int, b_count, k as int, n as int);
                        assert(pb * (k * n) == p * sb) by (nonlinear_arith)
                            requires
                                b_one ==> sb == 0 && pb == 0,
                                !b_one ==> sb == k * n && pb == p,
                        ;
                    }
                    let b_idx = p * sb + t * n + j;
                    let x = av[a_row + t];
                    let y = bv[b_idx];
                    proof {
                        assert(x == xs[t as int]);
                        assert(y == ys[t as int]);
                    }
                    let next = step(acc, x, y);
                    proof {
                        let old_accs = accs;
                        accs = accs.push(next);
                        assert forall|u: int| 0 <= u < t + 1 implies #[trigger] step.ensures(
                            (accs[u], xs[u], ys[u]),
                            accs[u + 1],
                        ) by {
                            if u < t {
                                assert(accs[u] == old_accs[u]);
                                assert(accs[u + 1] == old_accs[u + 1]);
                            }
                        }
                    }
                    acc = next;
                    t += 1;
                }
                proof {
                    assert(fold_trace(*step, zero, xs, ys, accs));
                    assert(accs.last() == acc);
                    lemma_flat3(p as int, i as int, j as int, m as int, n as int);
                    assert(cell_ok(
                        *step,
                        zero,
                        av@,
                        bv@,
                        sa as int,
                        sb as int,
                        m as int,
                        k as int,
                        n as int,
                        out@.len() as int,
                        acc,
                    ));
                }
                out.push(acc);
                j += 1;
            }
            proof {
                assert((p * m + i) * n + n == (p * m + i + 1) * n) by (nonlinear_arith);
            }
            i += 1;
        }
        proof {
            assert((p * m + m) * n == ((p + 1) * m) * n) by (nonlinear_arith);
        }
        p += 1;
    }
    proof {
        assert forall|q: int, ii: int, jj: int|
            0 <= q < batch && 0 <= ii < m && 0 <= jj < n implies (q * m + ii) * n + jj < out@.len()
            && #[trigger] folds_to(
                *step,
                zero,
                row_of(av@, q * sa + ii * k, k as nat),
                column_of(bv@, q * sb + jj, n as int, k as nat),
                out@[(q * m + ii) * n + jj],
            ) by {
            lemma_flat3(q, ii, jj, m as int, n as int);
            assert((q * m + ii) * n + jj < (batch * m) * n) by (nonlinear_arith)
                requires
                    0 <= q < batch,
                    0 <= ii < m,
                    0 <= jj < n,
            ;
            assert(cell_ok(
                *step,
                zero,
                av@,
                bv@,
                sa as int,
                sb as int,
                m as int,
                k as int,
                n as int,
                (q * m + ii) * n + jj,
                out@[(q * m + ii) * n + jj],
            ));
        }
    }
    let out_shape = plan.out_shape;
    proof {
        reveal_with_fuel(numel_of, 4);
        if ad.len() == 2 && bd.len() == 2 {
            assert(out_shape@ =~= seq![m, n]);
            assert(batch == 1);
            assert(numel_of(out_shape@) == m * n);
            assert((batch * m) * n == m * n) by (nonlinear_arith)
                requires
                    batch == 1,
            ;
        } else {
            assert(out_shape@ =~= seq![batch, m, n]);
            assert(numel_of(out_shape@) == batch * m * n);
        }
        assert(out_shape@ == matmul_out_dims(ad, bd));
        assert(numel_of(out_shape@) == out@.len());
    }
    match Tensor::from_vec_as(out, out_shape, "matmul") {
        Ok(c) => Ok(c),
        Err(e) => Err(e),
    }
}


/// `step` gives one result for each accumulator and pair.
pub open spec fn functional<T, F: Fn(T, T, T) -> T>(step: F) -> bool {
    forall|acc: T, x: T, y: T, r1: T, r2: T|
        #![trigger step.ensures((acc, x, y), r1), step.ensures((acc, x, y), r2)]
        step.ensures((acc, x, y), r1) && step.ensures((acc, x, y), r2) ==> r1 == r2
}

/// `step` gives the same results whichever operand of the pair comes
/// first (as `acc + x * y` does).
pub open spec fn symmetric<T, F: Fn(T, T, T) -> T>(step: F) -> bool {
    forall|acc: T, x: T, y: T, r: T| #[trigger]
        step.ensures((acc, x, y), r) ==> step.ensures((acc, y, x), r)
}

/// Two folds over the same pairs, or over the same pairs swapped when
/// `step` is symmetric, trace the same accumulators.
proof fn lemma_traces_agree<T, F: Fn(T, T, T) -> T>(
    step: F,
    zero: T,
    xs: Seq<T>,
    ys: Seq<T>,
    xs2: Seq<T>,
    ys2: Seq<T>,
    a1: Seq<T>,
    a2: Seq<T>,
    u: int,
)
    requires
        functional(step),
        fold_trace(step, zero, xs, ys, a1),
        fold_trace(step, zero, xs2, ys2, a2),
        xs.len() == ys.len(),
        xs2.len() == xs.len(),
        ys2.len() == xs.len(),
        forall|t: int|
            0 <= t < xs.len() ==> (xs2[t] == xs[t] && ys2[t] == ys[t]) || (symmetric(step)
                && xs2[t] == ys[t] && ys2[t] == xs[t]),
        0 <= u <= xs.len(),
    ensures
        a1[u] == a2[u],
    decreases u,
{
    if u > 0 {
        let t = u - 1;
        lemma_traces_agree(step, zero, xs, ys, xs2, ys2, a1, a2, t);
        assert(step.ensures((a1[t], xs[t], ys[t]), a1[t + 1]));
        assert(step.ensures((a2[t], xs2[t], ys2[t]), a2[t + 1]));
        if !(xs2[t] == xs[t] && ys2[t] == ys[t]) {
            assert(step.ensures((a1[t], ys[t], xs[t]), a1[t + 1]));
        }
    }
}

/// The results of two folds that trace the same accumulators agree.
proof fn lemma_folds_agree<T, F: Fn(T, T, T) -> T>(
    step: F,
    zero: T,
    xs: Seq<T>,
    ys: Seq<T>,
    xs2: Seq<T>,
    ys2: Seq<T>,
    r1: T,
    r2: T,
)
    requires
        functional(step),
        folds_to(step, zero, xs, ys, r1),
        folds_to(step, zero, xs2, ys2, r2),
        xs.len() == ys.len(),
        xs2.len() == xs.len(),
        ys2.len() == xs.len(),
        forall|t: int|
            0 <= t < xs.len() ==> (xs2[t] == xs[t] && ys2[t] == ys[t]) || (symmetric(step)
                && xs2[t] == ys[t] && ys2[t] == xs[t]),
    ensures
        r1 == r2,
{
    let a1 = choose|accs: Seq<T>| #[trigger] fold_trace(step, zero, xs, ys, accs) && accs.last() == r1;
    let a2 = choose|accs: Seq<T>| #[trigger] fold_trace(step, zero, xs2, ys2, accs) && accs.last() == r2;
    lemma_traces_agree(step, zero, xs, ys, xs2, ys2, a1, a2, xs.len() as int);
}

/// Row-major position `i * cols + j` of a matrix is coordinate `[i, j]`.
proof fn lemma_unravel2(dims: Seq<usize>, i: int, j: int)
    requires
        dims.len() == 2,
        0 <= i < dims[0],
        0 <= j < dims[1],
    ensures
        unravel(dims, i * dims[1] + j) == seq![i, j],
        0 <= i * dims[1] + j < numel_of(dims),
        numel_of(dims) == dims[0] * dims[1],
        valid_index(dims, seq![i, j]),
{
    let c = dims[1] as int;
    let x = i * c + j;
    vstd::arithmetic::div_mod::lemma_fundamental_div_mod_converse(x, c, i, j);
    vstd::arithmetic::div_mod::lemma_small_mod(i as nat, dims[0] as nat);
    reveal_with_fuel(unravel, 3);
    reveal_with_fuel(numel_of, 3);
    assert(dims.drop_last() =~= seq![dims[0]]);
    assert(seq![dims[0]].drop_last() =~= Seq::<usize>::empty());
    assert(unravel(dims, x) =~= seq![i, j]);
    let s1 = seq![dims[0]];
    assert(s1.drop_last() =~= Seq::<usize>::empty());
    assert(numel_of(s1.drop_last()) == 1);
    assert(numel_of(s1) == numel_of(s1.drop_last()) * (s1.last() as nat));
    assert(numel_of(s1) == dims[0]);
    assert(numel_of(dims) == numel_of(seq![dims[0]]) * dims[1]);
    assert(0 <= i * c) by (nonlinear_arith)
        requires
            0 <= i,
            0 <= c,
    ;
    assert(x < dims[0] * c) by (nonlinear_arith)
        requires
            0 <= i < dims[0],
            0 <= j < c,
            x == i * c + j,
    ;
}

/// One element of a product, as [`product_of`] states it.
proof fn lemma_product_entry<T, F: Fn(T, T, T) -> T>(
    step: F,
    zero: T,
    ad: Seq<usize>,
    av: Seq<T>,
    bd: Seq<usize>,
    bv: Seq<T>,
    cv: Seq<T>,
    p: int,
    i: int,
    j: int,
)
    requires
        product_of(step, zero, ad, av, bd, bv, cv),
        0 <= p < combined_batch(batch_of(ad), batch_of(bd)),
        0 <= i < ad[ad.len() - 2],
        0 <= j < bd[bd.len() - 1],
    ensures
        ({
            let m = ad[ad.len() - 2] as int;
            let k = ad[ad.len() - 1] as int;
            let n = bd[bd.len() - 1] as int;
            folds_to(
                step,
                zero,
                row_of(av, p * batch_step(ad, m, k) + i * k, k as nat),
                column_of(bv, p * batch_step(bd, k, n) + j, n, k as nat),
                cv[(p * m + i) * n + j],
            )
        }),
{
}

/// Column locality: column `j` of `a x b` is `a` times column `j` of `b`
/// (`col`, the view `b.narrow(1, j, 1)`), for matrices `a` and `b` and a
/// `step` with one result per input.
pub proof fn law_columns_are_independent<T, F: Fn(T, T, T) -> T>(
    step: F,
    zero: T,
    a: Tensor<T>,
    b: Tensor<T>,
    col: Tensor<T>,
    c: Tensor<T>,
    d: Tensor<T>,
    j: int,
)
    requires
        functional(step),
        a.shape_view().len() == 2,
        b.shape_view().len() == 2,
        a.shape_view()[1] == b.shape_view()[0],
        0 <= j < b.shape_view()[1],
        col.shape_view() == b.shape_view().update(1, 1usize),
        forall|cc: Seq<int>| #[trigger]
            valid_index(col.shape_view(), cc) ==> col.element(cc) == b.element(cc.update(1, cc[1] + j)),
        product_of(step, zero, a.shape_view(), a.values(), b.shape_view(), b.values(), c.values()),
        product_of(step, zero, a.shape_view(), a.values(), col.shape_view(), col.values(), d.values()),
    ensures
        forall|i: int|
            0 <= i < a.shape_view()[0] ==> #[trigger] d.values()[i] == c.values()[i
                * b.shape_view()[1] + j],
{
    let ad = a.shape_view();
    let bd = b.shape_view();
    let cd = col.shape_view();
    let m = ad[0] as int;
    let k = ad[1] as int;
    let n = bd[1] as int;
    b.lemma_values();
    col.lemma_values();
    assert(cd[0] == k && cd[1] == 1);
    let bcol = column_of(b.values(), j, n, k as nat);
    let ccol = column_of(col.values(), 0, 1, k as nat);
    assert forall|t: int| 0 <= t < k implies #[trigger] ccol[t] == bcol[t] by {
        lemma_unravel2(cd, t, 0);
        lemma_unravel2(bd, t, j);
        assert(seq![t, 0int].update(1, 0 + j) =~= seq![t, j]);
    }
    assert forall|i: int| 0 <= i < m implies #[trigger] d.values()[i] == c.values()[i * n + j] by {
        assert(batch_step(ad, m, k) == 0);
        assert(batch_step(bd, k, n) == 0);
        assert(batch_step(cd, k, 1) == 0);
        lemma_product_entry(step, zero, ad, a.values(), bd, b.values(), c.values(), 0, i, j);
        lemma_product_entry(step, zero, ad, a.values(), cd, col.values(), d.values(), 0, i, 0);
        assert((0 * m + i) * 1 + 0 == i);
        assert((0 * m + i) * n + j == i * n + j);
        let xs = row_of(a.values(), i * k, k as nat);
        lemma_folds_agree(step, zero, xs, ccol, xs, bcol, d.values()[i], c.values()[i * n + j]);
    }
}

/// The transpose law: `(a x b)ᵀ = bᵀ x aᵀ` for matrices, with `at` and
/// `bt` the views `a.permute(&[1, 0])` and `b.permute(&[1, 0])`, for a
/// `step` with one result per input that ignores the order of the pair.
pub proof fn law_transpose<T, F: Fn(T, T, T) -> T>(
    step: F,
    zero: T,
    a: Tensor<T>,
    b: Tensor<T>,
    at: Tensor<T>,
    bt: Tensor<T>,
    c: Tensor<T>,
    d: Tensor<T>,
)
    requires
        functional(step),
        symmetric(step),
        a.shape_view().len() == 2,
        b.shape_view().len() == 2,
        a.shape_view()[1] == b.shape_view()[0],
        at.shape_view() == permuted(a.shape_view(), seq![1usize, 0usize]),
        forall|cc: Seq<int>| #[trigger]
            valid_index(a.shape_view(), cc) ==> at.element(permuted(cc, seq![1usize, 0usize]))
                == a.element(cc),
        bt.shape_view() == permuted(b.shape_view(), seq![1usize, 0usize]),
        forall|cc: Seq<int>| #[trigger]
            valid_index(b.shape_view(), cc) ==> bt.element(permuted(cc, seq![1usize, 0usize]))
                == b.element(cc),
        product_of(step, zero, a.shape_view(), a.values(), b.shape_view(), b.values(), c.values()),
        product_of(step, zero, bt.shape_view(), bt.values(), at.shape_view(), at.values(), d.values()),
    ensures
        forall|i: int, j: int|
            0 <= i < b.shape_view()[1] && 0 <= j < a.shape_view()[0] ==> #[trigger] d.values()[i
                * a.shape_view()[0] + j] == c.values()[j * b.shape_view()[1] + i],
{
    let ad = a.shape_view();
    let bd = b.shape_view();
    let atd = at.shape_view();
    let btd = bt.shape_view();
    let m = ad[0] as int;
    let k = ad[1] as int;
    let n = bd[1] as int;
    a.lemma_values();
    b.lemma_values();
    at.lemma_values();
    bt.lemma_values();
    assert(atd =~= seq![k as usize, m as usize]);
    assert(btd =~= seq![n as usize, k as usize]);
    assert forall|i: int, j: int| 0 <= i < n && 0 <= j < m implies #[trigger] d.values()[i * m + j]
        == c.values()[j * n + i] by {
        let xs = row_of(a.values(), j * k, k as nat);
        let ys = column_of(b.values(), i, n, k as nat);
        let xs2 = row_of(bt.values(), i * k, k as nat);
        let ys2 = column_of(at.values(), j, m, k as nat);
        assert forall|t: int| 0 <= t < k implies xs2[t] == ys[t] && ys2[t] == xs[t] by {
            lemma_unravel2(btd, i, t);
            lemma_unravel2(bd, t, i);
            assert(permuted(seq![t, i], seq![1usize, 0usize]) =~= seq![i, t]);
            lemma_unravel2(atd, t, j);
            lemma_unravel2(ad, j, t);
            assert(permuted(seq![j, t], seq![1usize, 0usize]) =~= seq![t, j]);
        }
        assert(batch_step(ad, m, k) == 0);
        assert(batch_step(bd, k, n) == 0);
        assert(batch_step(atd, k, m) == 0);
        assert(batch_step(btd, n, k) == 0);
        lemma_product_entry(step, zero, ad, a.values(), bd, b.values(), c.values(), 0, j, i);
        lemma_product_entry(step, zero, btd, bt.values(), atd, at.values(), d.values(), 0, i, j);
        assert((0 * m + j) * n + i == j * n + i);
        assert((0 * n + i) * m + j == i * m + j);
        lemma_folds_agree(step, zero, xs, ys, xs2, ys2, c.values()[j * n + i], d.values()[i * m + j]);
    }
}

} // verus!
