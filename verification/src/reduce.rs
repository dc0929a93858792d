//! Reduction planning: canonical axes, the output shape, and the group of
//! elements every output folds, in the order it folds them.
use crate::error::{Error, Issue};
use crate::index::{
    is_permutation, lemma_numel_concat, lemma_numel_pos, lemma_unravel, lemma_unravel_concat,
    numel_of, permuted, unravel, valid_index,
};
use crate::shape::{checked_numel, Shape};
use crate::tensor::Tensor;
use vstd::prelude::*;

verus! {

/// Whether a reduction of a tensor of shape `dims` over `axes` can count
/// its outputs and the elements each output folds in `usize`.
pub open spec fn reduction_fits(dims: Seq<usize>, axes: Seq<usize>) -> bool {
    &&& numel_of(permuted(dims, select_axes(dims.len(), axes, false))) <= usize::MAX
    &&& numel_of(permuted(dims, select_axes(dims.len(), axes, true))) <= usize::MAX
}

/// The dimensions a reduction over `axes` covers among `n`, ascending and
/// without repeats: all of them when `axes` is empty.
pub open spec fn canonical_axes(n: nat, axes: Seq<usize>) -> Seq<usize> {
    if axes.len() == 0 {
        Seq::new(n, |i: int| i as usize)
    } else {
        select_axes(n, axes, true)
    }
}

/// The dimensions below `n` whose membership in `axes` is `want`,
/// ascending.
pub open spec fn select_axes(n: nat, axes: Seq<usize>, want: bool) -> Seq<usize>
    decreases n,
{
    if n == 0 {
        Seq::empty()
    } else {
        let prev = select_axes((n - 1) as nat, axes, want);
        if axes.contains((n - 1) as usize) == want {
            prev.push((n - 1) as usize)
        } else {
            prev
        }
    }
}

/// The shape after reducing `axes` of `dims` (the first `n` dimensions):
/// reduced dimensions vanish, or stay as extent 1 with `keepdim`.
pub open spec fn reduced_dims(dims: Seq<usize>, axes: Seq<usize>, keepdim: bool, n: nat) -> Seq<
    usize,
>
    decreases n,
{
    if n == 0 {
        Seq::empty()
    } else {
        let prev = reduced_dims(dims, axes, keepdim, (n - 1) as nat);
        if axes.contains((n - 1) as usize) {
            if keepdim {
                prev.push(1)
            } else {
                prev
            }
        } else {
            prev.push(dims[n - 1])
        }
    }
}

/// The permutation that moves the kept dimensions first and the reduced
/// ones last, each in ascending order.
pub open spec fn reduce_perm(n: nat, axes: Seq<usize>) -> Seq<usize> {
    select_axes(n, axes, false) + select_axes(n, axes, true)
}

/// What `select_axes` holds: exactly the dimensions below `n` with the
/// wanted membership, strictly ascending.
pub proof fn lemma_select_axes(n: nat, axes: Seq<usize>, want: bool)
    requires
        n <= usize::MAX,
    ensures
        forall|i: int|
            0 <= i < select_axes(n, axes, want).len() ==> #[trigger] select_axes(n, axes, want)[i]
                < n && axes.contains(select_axes(n, axes, want)[i]) == want,
        forall|i: int, j: int|
            0 <= i < j < select_axes(n, axes, want).len() ==> #[trigger] select_axes(
                n,
                axes,
                want,
            )[i] < #[trigger] select_axes(n, axes, want)[j],
        select_axes(n, axes, want).len() <= n,
    decreases n,
{
    if n > 0 {
        lemma_select_axes((n - 1) as nat, axes, want);
        let prev = select_axes((n - 1) as nat, axes, want);
        let cur = select_axes(n, axes, want);
        assert forall|i: int| 0 <= i < cur.len() implies #[trigger] cur[i] < n && axes.contains(
            cur[i],
        ) == want by {
            if i < prev.len() {
                assert(cur[i] == prev[i]);
            }
        }
        assert forall|i: int, j: int| 0 <= i < j < cur.len() implies #[trigger] cur[i]
            < #[trigger] cur[j] by {
            if j < prev.len() {
                assert(cur[i] == prev[i] && cur[j] == prev[j]);
            } else {
                assert(cur[i] == prev[i]);
                assert(prev[i] < n - 1);
            }
        }
    }
}

/// Every dimension is either kept or reduced.
pub proof fn lemma_select_axes_len(n: nat, axes: Seq<usize>)
    ensures
        select_axes(n, axes, false).len() + select_axes(n, axes, true).len() == n,
    decreases n,
{
    if n > 0 {
        lemma_select_axes_len((n - 1) as nat, axes);
    }
}

/// Kept-then-reduced is a permutation of the dimensions.
pub proof fn lemma_reduce_perm(n: nat, axes: Seq<usize>)
    requires
        n <= usize::MAX,
    ensures
        is_permutation(reduce_perm(n, axes), n as int),
{
    let k = select_axes(n, axes, false);
    let r = select_axes(n, axes, true);
    lemma_select_axes(n, axes, false);
    lemma_select_axes(n, axes, true);
    lemma_select_axes_len(n, axes);
    let p = reduce_perm(n, axes);
    assert forall|i: int, j: int| 0 <= i < j < n implies #[trigger] p[i] != #[trigger] p[j] by {
        if j < k.len() {
            assert(k[i] < k[j]);
        } else if i >= k.len() {
            assert(r[i - k.len()] < r[j - k.len()]);
        } else {
            assert(axes.contains(k[i]) == false);
            assert(axes.contains(r[j - k.len()]) == true);
        }
    }
}

/// The reduced shape has the kept dimensions' element count.
pub proof fn lemma_reduced_numel(dims: Seq<usize>, axes: Seq<usize>, keepdim: bool, n: nat)
    requires
        n <= dims.len(),
        dims.len() <= usize::MAX,
    ensures
        numel_of(reduced_dims(dims, axes, keepdim, n)) == numel_of(
            permuted(dims, select_axes(n, axes, false)),
        ),
    decreases n,
{
    if n > 0 {
        lemma_reduced_numel(dims, axes, keepdim, (n - 1) as nat);
        let prev = reduced_dims(dims, axes, keepdim, (n - 1) as nat);
        let kp = select_axes((n - 1) as nat, axes, false);
        if axes.contains((n - 1) as usize) {
            assert(select_axes(n, axes, false) == kp);
            if keepdim {
                assert(prev.push(1).drop_last() =~= prev);
                assert(numel_of(prev.push(1)) == numel_of(prev) * 1);
            }
        } else {
            let kn = kp.push((n - 1) as usize);
            assert(select_axes(n, axes, false) == kn);
            assert(permuted(dims, kn).drop_last() =~= permuted(dims, kp));
            assert(permuted(dims, kn).last() == dims[n - 1]);
            assert(prev.push(dims[n - 1]).drop_last() =~= prev);
            assert(numel_of(prev.push(dims[n - 1])) == numel_of(prev) * (dims[n - 1] as nat));
            assert(numel_of(permuted(dims, kn)) == numel_of(permuted(dims, kp)) * (
            dims[n - 1] as nat));
        }
    }
}

/// Whether `i` is one of `axes`.
pub fn contains_axis(axes: &[usize], i: usize) -> (r: bool)
    ensures
        r == axes@.contains(i),
{
    let mut k: usize = 0;
    while k < axes.len()
        invariant
            k <= axes.len(),
            forall|j: int| 0 <= j < k ==> axes@[j] != i,
        decreases axes.len() - k,
    {
        if axes[k] == i {
            assert(axes@[k as int] == i);
            return true;
        }
        k += 1;
    }
    false
}

/// Output dims after reducing `axes` (with or without `keepdim`), plus the
/// kept dimension list.
pub fn split_axes(dims: &[usize], axes: &[usize], keepdim: bool) -> (r: (Vec<usize>, Vec<usize>))
    ensures
        r.0@ == reduced_dims(dims@, axes@, keepdim, dims@.len()),
        r.1@ == select_axes(dims@.len(), axes@, false),
{
    let mut out_dims: Vec<usize> = Vec::new();
    let mut kept: Vec<usize> = Vec::new();
    let mut i: usize = 0;
    while i < dims.len()
        invariant
            i <= dims.len(),
            out_dims@ == reduced_dims(dims@, axes@, keepdim, i as nat),
            kept@ == select_axes(i as nat, axes@, false),
        decreases dims.len() - i,
    {
        if contains_axis(axes, i) {
            if keepdim {
                out_dims.push(1);
            }
        } else {
            out_dims.push(dims[i]);
            kept.push(i);
        }
        i += 1;
    }
    (out_dims, kept)
}

/// `accs` traces a left fold of `combine` from `init` over `xs`:
/// `accs[t + 1]` is a result of `combine(accs[t], xs[t])`.
pub open spec fn combine_trace<T, F: Fn(T, T) -> T>(combine: F, init: T, xs: Seq<T>, accs: Seq<T>) -> bool {
    &&& accs.len() == xs.len() + 1
    &&& accs[0] == init
    &&& forall|t: int| 0 <= t < xs.len() ==> #[trigger] combine.ensures((accs[t], xs[t]), accs[t + 1])
}

/// `r` is what folding `combine` from `init` over `xs`, first to last,
/// gives.
pub open spec fn combines_to<T, F: Fn(T, T) -> T>(combine: F, init: T, xs: Seq<T>, r: T) -> bool {
    exists|accs: Seq<T>| #[trigger] combine_trace(combine, init, xs, accs) && accs.last() == r
}

/// `xs` is group `o` of a reduction of `t` over `axes`: the elements whose
/// kept coordinates are the `o`-th in row-major order, in row-major order
/// of their reduced coordinates.
pub open spec fn is_group<T>(t: Tensor<T>, axes: Seq<usize>, o: int, xs: Seq<T>) -> bool {
    let dims = t.shape_view();
    let n = dims.len();
    let kd = permuted(dims, select_axes(n, axes, false));
    let rd = permuted(dims, select_axes(n, axes, true));
    &&& xs.len() == numel_of(rd)
    &&& forall|j: int, c: Seq<int>|
        0 <= j < numel_of(rd) && valid_index(dims, c) && permuted(c, reduce_perm(n, axes)) == unravel(
            kd,
            o,
        ) + unravel(rd, j) ==> #[trigger] xs[j] == #[trigger] t.element(c)
}

/// `v` is output `o` of the reduction of `t` over `axes` folding
/// `combine` from `init`.
pub open spec fn reduces_to<T, F: Fn(T, T) -> T>(
    t: Tensor<T>,
    axes: Seq<usize>,
    combine: F,
    init: T,
    o: int,
    v: T,
) -> bool {
    exists|xs: Seq<T>| #[trigger] is_group(t, axes, o, xs) && combines_to(combine, init, xs, v)
}

/// The reduction of `t` over `axes`: output `o` folds `combine` from
/// `init` over group `o` (see [`reduce_groups`]), and an output over an
/// empty extent is `init`. The shape and the errors are those of
/// [`reduce_groups`].
pub fn reduce_values<T: Copy, F: Fn(T, T) -> T>(
    t: &Tensor<T>,
    axes: &[usize],
    keepdim: bool,
    init: T,
    combine: &F,
) -> (r: Result<(Shape, Vec<T>), Error>)
    requires
        forall|acc: T, x: T| #[trigger] combine.requires((acc, x)),
    ensures
        r matches Err(e) ==> crate::error::names_op(e, "reduce"@),
        r is Ok ==> forall|i: int| 0 <= i < axes@.len() ==> #[trigger] axes@[i] < t.shape_view().len(),
        (exists|i: int| 0 <= i < axes@.len() && #[trigger] axes@[i] >= t.shape_view().len()) ==> (r matches Err(e)
            && e matches Error::InvalidArgument { issue: Issue::AxisOutOfRange { .. }, .. }),
        r matches Err(e) ==> (e is InvalidArgument || e is ShapeOverflow),
        (forall|i: int| 0 <= i < axes@.len() ==> #[trigger] axes@[i] < t.shape_view().len()) ==> (
        r is Ok <==> reduction_fits(t.shape_view(), axes@)),
        r matches Ok((s, out)) ==> {
            let n = t.shape_view().len();
            let dims = t.shape_view();
            let kd = permuted(dims, select_axes(n, axes@, false));
            &&& s@ == reduced_dims(dims, axes@, keepdim, n)
            &&& out@.len() == numel_of(kd)
            &&& forall|o: int|
                0 <= o < out@.len() ==> #[trigger] reduces_to(*t, axes@, *combine, init, o, out@[o])
        },
{
    let (shape, groups) = match reduce_groups(t, axes, keepdim) {
        Ok(x) => x,
        Err(e) => {
            return Err(e);
        },
    };
    let ghost dims = t.shape_view();
    let ghost n = dims.len();
    let ghost kd = permuted(dims, select_axes(n, axes@, false));
    let ghost rd = permuted(dims, select_axes(n, axes@, true));
    let mut out: Vec<T> = Vec::new();
    let mut o: usize = 0;
    while o < groups.len()
        invariant
            o <= groups@.len(),
            groups@.len() == numel_of(kd),
            forall|q: int| 0 <= q < groups@.len() ==> (#[trigger] groups@[q])@.len() == numel_of(rd),
            forall|q: int, j: int, c: Seq<int>|
                0 <= q < numel_of(kd) && 0 <= j < numel_of(rd) && valid_index(dims, c) && permuted(
                    c,
                    reduce_perm(n, axes@),
                ) == unravel(kd, q) + unravel(rd, j) ==> #[trigger] groups@[q]@[j] == #[trigger] t.element(c),
            dims == t.shape_view(),
            n == dims.len(),
            kd == permuted(dims, select_axes(n, axes@, false)),
            rd == permuted(dims, select_axes(n, axes@, true)),
            forall|acc: T, x: T| #[trigger] combine.requires((acc, x)),
            out@.len() == o,
            forall|q: int| 0 <= q < o ==> #[trigger] reduces_to(*t, axes@, *combine, init, q, out@[q]),
        decreases groups@.len() - o,
    {
        let g = &groups[o];
        let mut acc = init;
        let ghost mut accs: Seq<T> = seq![init];
        let mut j: usize = 0;
        while j < g.len()
            invariant
                j <= g@.len(),
                forall|acc: T, x: T| #[trigger] combine.requires((acc, x)),
                accs.len() == j + 1,
                accs[0] == init,
                accs[j as int] == acc,
                forall|u: int| 0 <= u < j ==> #[trigger] combine.ensures((accs[u], g@[u]), accs[u + 1]),
            decreases g@.len() - j,
        {
            let next = combine(acc, g[j]);
            proof {
                let old_accs = accs;
                accs = accs.push(next);
                assert forall|u: int| 0 <= u < j + 1 implies #[trigger] combine.ensures(
                    (accs[u], g@[u]),
                    accs[u + 1],
                ) by {
                    if u < j {
                        assert(accs[u] == old_accs[u]);
                        assert(accs[u + 1] == old_accs[u + 1]);
                    }
                }
            }
            acc = next;
            j += 1;
        }
        proof {
            assert(combine_trace(*combine, init, g@, accs));
            assert(combines_to(*combine, init, g@, acc));
            assert(is_group(*t, axes@, o as int, g@));
            assert(reduces_to(*t, axes@, *combine, init, o as int, acc));
        }
        let ghost old_out = out@;
        out.push(acc);
        proof {
            assert forall|q: int| 0 <= q < o + 1 implies #[trigger] reduces_to(
                *t,
                axes@,
                *combine,
                init,
                q,
                out@[q],
            ) by {
                if q < o {
                    assert(out@[q] == old_out[q]);
                }
            }
        }
        o += 1;
    }
    Ok((shape, out))
}

/// Validate and canonicalize reduction axes: empty means every axis; the
/// result is ascending and free of repeats. An axis past the rank is an
/// `AxisOutOfRange` error naming the smallest such axis.
pub fn normalize_axes(axes: &[usize], ndim: usize, op: &'static str) -> (r: Result<
    Vec<usize>,
    Error,
>)
    ensures
        r matches Err(e) ==> crate::error::names_op(e, op@),
        r is Ok <==> forall|i: int| 0 <= i < axes@.len() ==> #[trigger] axes@[i] < ndim,
        r matches Ok(v) ==> v@ == canonical_axes(ndim as nat, axes@),
        r matches Ok(v) ==> {
            &&& forall|i: int, j: int| 0 <= i < j < v@.len() ==> #[trigger] v@[i] < #[trigger] v@[j]
            &&& forall|i: int| 0 <= i < v@.len() ==> #[trigger] v@[i] < ndim
            &&& axes@.len() == 0 ==> v@ == Seq::new(ndim as nat, |i: int| i as usize)
            &&& axes@.len() > 0 ==> forall|x: usize| #[trigger] v@.contains(x) <==> axes@.contains(
                x,
            )
        },
        r matches Err(e) ==> e matches Error::InvalidArgument {
            issue: Issue::AxisOutOfRange { axis, rank },
            ..
        } && rank == ndim && axes@.contains(axis) && axis >= ndim && forall|i: int|
            0 <= i < axes@.len() && #[trigger] axes@[i] >= ndim ==> axis <= axes@[i],
{
    if axes.len() == 0 {
        let mut all: Vec<usize> = Vec::new();
        let mut i: usize = 0;
        while i < ndim
            invariant
                i <= ndim,
                all@ =~= Seq::new(i as nat, |j: int| j as usize),
            decreases ndim - i,
        {
            all.push(i);
            i += 1;
        }
        return Ok(all);
    }
    let mut bad: Option<usize> = None;
    let mut k: usize = 0;
    while k < axes.len()
        invariant
            k <= axes.len(),
            bad is None ==> forall|i: int| 0 <= i < k ==> #[trigger] axes@[i] < ndim,
            bad matches Some(b) ==> axes@.contains(b) && b >= ndim && forall|i: int|
                0 <= i < k && #[trigger] axes@[i] >= ndim ==> b <= axes@[i],
        decreases axes.len() - k,
    {
        let a = axes[k];
        if a >= ndim {
            match bad {
                Some(b) => {
                    if a < b {
                        bad = Some(a);
                    }
                },
                None => {
                    bad = Some(a);
                },
            }
        }
        k += 1;
    }
    if let Some(b) = bad {
        return Err(
            Error::InvalidArgument {
                op,
                issue: Issue::AxisOutOfRange { axis: b, rank: ndim },
            },
        );
    }
    let mut out: Vec<usize> = Vec::new();
    let mut i: usize = 0;
    while i < ndim
        invariant
            i <= ndim,
            forall|j: int| 0 <= j < axes@.len() ==> #[trigger] axes@[j] < ndim,
            forall|a: int, b: int| 0 <= a < b < out@.len() ==> #[trigger] out@[a] < #[trigger] out@[b],
            forall|a: int| 0 <= a < out@.len() ==> #[trigger] out@[a] < i,
            forall|x: usize| #[trigger] out@.contains(x) <==> (x < i && axes@.contains(x)),
            out@ == select_axes(i as nat, axes@, true),
        decreases ndim - i,
    {
        let ghost prev = out@;
        if contains_axis(axes, i) {
            out.push(i);
        }
        proof {
            broadcast use vstd::seq_lib::lemma_seq_contains_after_push;

            assert forall|x: usize| #[trigger] out@.contains(x) <==> (x < i + 1 && axes@.contains(
                x,
            )) by {
                assert(prev.contains(x) <==> (x < i && axes@.contains(x)));
            }
        }
        i += 1;
    }
    proof {
        assert forall|x: usize| #[trigger] out@.contains(x) <==> axes@.contains(x) by {
            if axes@.contains(x) {
                let j = choose|j: int| 0 <= j < axes@.len() && axes@[j] == x;
                assert(axes@[j] < ndim);
            }
        }
    }
    Ok(out)
}

/// The group of elements each output of a reduction folds, in the order
/// the fold visits them (kept coordinates in row-major order, then the
/// reduced coordinates in row-major order), with the output shape.
/// Outputs over an empty reduced extent get empty groups. Every axis must
/// be below the rank (`AxisOutOfRange` otherwise); `ShapeOverflow` when the
/// output count or the size of a group does not fit in `usize` (which
/// only an empty tensor can cause).
pub fn reduce_groups<T: Copy>(t: &Tensor<T>, axes: &[usize], keepdim: bool) -> (r: Result<
    (Shape, Vec<Vec<T>>),
    Error,
>)
    ensures
        r matches Err(e) ==> crate::error::names_op(e, "reduce"@),
        r is Ok ==> forall|i: int| 0 <= i < axes@.len() ==> #[trigger] axes@[i] < t.shape_view().len(),
        (exists|i: int| 0 <= i < axes@.len() && #[trigger] axes@[i] >= t.shape_view().len()) ==> (r matches Err(e)
            && e matches Error::InvalidArgument { issue: Issue::AxisOutOfRange { .. }, .. }),
        r matches Err(e) ==> (e is InvalidArgument || e is ShapeOverflow),
        (forall|i: int| 0 <= i < axes@.len() ==> #[trigger] axes@[i] < t.shape_view().len()) ==> (
        r is Ok <==> reduction_fits(t.shape_view(), axes@)),
        r matches Ok((s, g)) ==> {
            let n = t.shape_view().len();
            let dims = t.shape_view();
            let kd = permuted(dims, select_axes(n, axes@, false));
            let rd = permuted(dims, select_axes(n, axes@, true));
            &&& s@ == reduced_dims(dims, axes@, keepdim, n)
            &&& numel_of(s@) == numel_of(kd)
            &&& g@.len() == numel_of(kd)
            &&& forall|o: int| 0 <= o < g@.len() ==> (#[trigger] g@[o])@.len() == numel_of(rd)
            &&& forall|o: int, j: int, c: Seq<int>|
                0 <= o < numel_of(kd) && 0 <= j < numel_of(rd) && valid_index(dims, c) && permuted(
                    c,
                    reduce_perm(n, axes@),
                ) == unravel(kd, o) + unravel(rd, j) ==> #[trigger] g@[o]@[j] == #[trigger] t.element(c)
        },
{
    let dims = t.dims();
    let n = dims.len();
    let mut k: usize = 0;
    while k < axes.len()
        invariant
            k <= axes.len(),
            n == t.shape_view().len(),
            forall|i: int| 0 <= i < k ==> #[trigger] axes@[i] < n,
        decreases axes.len() - k,
    {
        if axes[k] >= n {
            return Err(
                Error::InvalidArgument {
                    op: "reduce",
                    issue: Issue::AxisOutOfRange { axis: axes[k], rank: n },
                },
            );
        }
        k += 1;
    }
    let mut kept: Vec<usize> = Vec::new();
    let mut red: Vec<usize> = Vec::new();
    let mut out_dims: Vec<usize> = Vec::new();
    let mut kd: Vec<usize> = Vec::new();
    let mut rd: Vec<usize> = Vec::new();
    let mut i: usize = 0;
    while i < n
        invariant
            i <= n,
            dims@ == t.shape_view(),
            n == dims@.len(),
            kept@ == select_axes(i as nat, axes@, false),
            red@ == select_axes(i as nat, axes@, true),
            out_dims@ == reduced_dims(dims@, axes@, keepdim, i as nat),
            kd@ =~= permuted(dims@, kept@),
            rd@ =~= permuted(dims@, red@),
        decreases n - i,
    {
        proof {
            lemma_select_axes(i as nat, axes@, false);
            lemma_select_axes(i as nat, axes@, true);
        }
        if contains_axis(axes, i) {
            red.push(i);
            rd.push(dims[i]);
            if keepdim {
                out_dims.push(1);
            }
        } else {
            kept.push(i);
            kd.push(dims[i]);
            out_dims.push(dims[i]);
        }
        i += 1;
    }
    let ghost p = reduce_perm(n as nat, axes@);
    let mut perm: Vec<usize> = Vec::new();
    let mut j: usize = 0;
    while j < kept.len()
        invariant
            j <= kept.len(),
            perm@ =~= kept@.take(j as int),
        decreases kept.len() - j,
    {
        perm.push(kept[j]);
        j += 1;
    }
    let mut j: usize = 0;
    while j < red.len()
        invariant
            j <= red.len(),
            perm@ =~= kept@ + red@.take(j as int),
        decreases red.len() - j,
    {
        perm.push(red[j]);
        j += 1;
    }
    proof {
        assert(red@.take(red@.len() as int) =~= red@);
        assert(perm@ == p);
        lemma_reduce_perm(n as nat, axes@);
        lemma_reduced_numel(dims@, axes@, keepdim, n as nat);
        assert(kd@ + rd@ =~= permuted(dims@, p));
        lemma_numel_concat(kd@, rd@);
        crate::index::lemma_numel_permuted(dims@, p);
    }
    let v = match t.permute(perm.as_slice()) {
        Ok(v) => v,
        Err(e) => {
            return Err(e);
        },
    };
    let outer = match checked_numel(kd.as_slice()) {
        Some(x) => x,
        None => {
            return Err(Error::ShapeOverflow { dims: out_dims, op: "reduce" });
        },
    };
    let inner = match checked_numel(rd.as_slice()) {
        Some(x) => x,
        None => {
            return Err(Error::ShapeOverflow { dims: out_dims, op: "reduce" });
        },
    };
    let vals = v.to_vec();
    proof {
        v.lemma_values();
    }
    let total: usize = vals.len();
    let mut groups: Vec<Vec<T>> = Vec::new();
    let mut o: usize = 0;
    while o < outer
        invariant
            o <= outer,
            outer == numel_of(kd@),
            inner == numel_of(rd@),
            vals@ == v.values(),
            vals@.len() == numel_of(kd@ + rd@),
            numel_of(kd@ + rd@) == outer * inner,
            total == outer * inner,
            v.shape_view() == kd@ + rd@,
            groups@.len() == o,
            forall|a: int| 0 <= a < o ==> (#[trigger] groups@[a])@.len() == inner,
            forall|a: int, b: int|
                0 <= a < o && 0 <= b < inner ==> #[trigger] groups@[a]@[b] == vals@[a * inner + b],
        decreases outer - o,
    {
        let mut row: Vec<T> = Vec::new();
        let mut b: usize = 0;
        while b < inner
            invariant
                b <= inner,
                o < outer,
                outer == numel_of(kd@),
                inner == numel_of(rd@),
                vals@.len() == outer * inner,
                total == outer * inner,
                row@.len() == b,
                forall|x: int| 0 <= x < b ==> #[trigger] row@[x] == vals@[o * inner + x],
            decreases inner - b,
        {
            proof {
                assert(o * inner + b < outer * inner) by (nonlinear_arith)
                    requires
                        o < outer,
                        b < inner,
                ;
                assert(o * inner <= o * inner + b);
            }
            row.push(vals[o * inner + b]);
            b += 1;
        }
        groups.push(row);
        o += 1;
    }
    proof {
        let kds = kd@;
        let rds = rd@;
        assert forall|o: int, j: int, c: Seq<int>|
            0 <= o < numel_of(kds) && 0 <= j < numel_of(rds) && valid_index(dims@, c) && permuted(
                c,
                p,
            ) == unravel(kds, o) + unravel(rds, j) implies #[trigger] groups@[o]@[j]
            == #[trigger] t.element(c) by {
            lemma_unravel_concat(kds, rds, o, j);
            assert(o * numel_of(rds) + j < numel_of(kds) * numel_of(rds)) by (nonlinear_arith)
                requires
                    o < numel_of(kds),
                    j < numel_of(rds),
            ;
        }
    }
    Ok((Shape::new(out_dims), groups))
}


/// `<=` on axes, the order axes are sorted by.
pub open spec fn axis_le() -> spec_fn(usize, usize) -> bool {
    |a: usize, b: usize| a <= b
}

/// `dims` with a size-1 dimension inserted at each of `axes` in turn
/// (each position counted in the shape built so far).
pub open spec fn with_ones(dims: Seq<usize>, axes: Seq<usize>) -> Seq<usize>
    decreases axes.len(),
{
    if axes.len() == 0 {
        dims
    } else {
        with_ones(dims, axes.drop_last()).insert(axes.last() as int, 1)
    }
}

/// Every insertion position exists when its turn comes.
pub open spec fn ones_fit(dims: Seq<usize>, axes: Seq<usize>) -> bool {
    forall|k: int| 0 <= k < axes.len() ==> #[trigger] axes[k] <= dims.len() + k
}

/// The axes in ascending order.
pub fn sort_axes(axes: &[usize]) -> (r: Vec<usize>)
    ensures
        r@.to_multiset() == axes@.to_multiset(),
        vstd::relations::sorted_by(r@, axis_le()),
{
    let mut v = crate::shape::copy_usizes(axes);
    let n = v.len();
    if n == 0 {
        return v;
    }
    let mut i: usize = 1;
    while i < n
        invariant
            1 <= i <= n,
            v@.len() == n,
            v@.to_multiset() == axes@.to_multiset(),
            forall|a: int, b: int| 0 <= a < b < i ==> #[trigger] v@[a] <= #[trigger] v@[b],
        decreases n - i,
    {
        let mut j = i;
        while j > 0 && v[j - 1] > v[j]
            invariant
                0 <= j <= i < n,
                v@.len() == n,
                v@.to_multiset() == axes@.to_multiset(),
                forall|a: int, b: int|
                    0 <= a < b <= i && b != j && a != j ==> #[trigger] v@[a] <= #[trigger] v@[b],
                forall|a: int, b: int| 0 <= a < j < b <= i ==> #[trigger] v@[a] <= #[trigger] v@[b],
                j < i ==> v@[j as int] <= v@[j + 1],
            decreases j,
        {
            let ghost before = v@;
            let x = v[j - 1];
            let y = v[j];
            v.set(j - 1, y);
            v.set(j, x);
            proof {
                crate::backend::lemma_swap_multiset(before, j as int - 1, j as int);
                assert(v@ == before.update(j - 1, before[j as int]).update(j as int, before[j - 1]));
            }
            j -= 1;
        }
        proof {
            assert forall|a: int, b: int| 0 <= a < b <= i implies #[trigger] v@[a] <= #[trigger] v@[b] by {
                if a == j as int {
                    if b > j + 1 {
                        assert(v@[j + 1] <= v@[b]);
                    }
                } else if b == j as int {
                    if a < j - 1 {
                        assert(v@[a] <= v@[j - 1]);
                    }
                }
            }
        }
        i += 1;
    }
    proof {
        assert forall|a: int, b: int| 0 <= a < b < v@.len() implies #[trigger] (axis_le())(v@[a], v@[b]) by {
            assert(v@[a] <= v@[b]);
        }
    }
    v
}

impl<T> Tensor<T> {
    /// Size-1 dimensions inserted at `axes` in ascending order (the
    /// inverse of a reduction without `keepdim`), the elements unchanged.
    /// `DimOutOfRange` when an axis is past the rank at its turn.
    pub fn unsqueeze_axes(&self, axes: &[usize]) -> (r: Result<Tensor<T>, Error>)
        ensures
            r matches Err(e) ==> crate::error::names_op(e, "unsqueeze"@),
            forall|s: Seq<usize>|
                s.to_multiset() == axes@.to_multiset() && vstd::relations::sorted_by(s, axis_le())
                    ==> #[trigger] ones_fit(self.shape_view(), s) == r is Ok && (r matches Ok(v)
                    ==> v.shape_view() == with_ones(self.shape_view(), s)),
            r matches Ok(v) ==> v.values() == self.values(),
            r matches Err(e) ==> e is InvalidArgument,
    {
        let sorted = sort_axes(axes);
        let mut out = self.clone();
        assert(sorted@.take(0) =~= Seq::<usize>::empty());
        let mut k: usize = 0;
        while k < sorted.len()
            invariant
                k <= sorted@.len(),
                out.shape_view() == with_ones(self.shape_view(), sorted@.take(k as int)),
                out.values() == self.values(),
                ones_fit(self.shape_view(), sorted@.take(k as int)),
                sorted@.to_multiset() == axes@.to_multiset(),
                vstd::relations::sorted_by(sorted@, axis_le()),
            decreases sorted.len() - k,
        {
            proof {
                lemma_with_ones_len(self.shape_view(), sorted@.take(k as int));
                assert(sorted@.take(k + 1).drop_last() =~= sorted@.take(k as int));
            }
            let ax = sorted[k];
            match out.unsqueeze(ax) {
                Ok(v) => {
                    out = v;
                },
                Err(e) => {
                    proof {
                        assert forall|s: Seq<usize>|
                            s.to_multiset() == axes@.to_multiset() && vstd::relations::sorted_by(
                                s,
                                axis_le(),
                            ) implies !#[trigger] ones_fit(self.shape_view(), s) by {
                            lemma_axis_le_total();
                            vstd::seq_lib::lemma_sorted_unique(s, sorted@, axis_le());
                            assert(!(s[k as int] <= self.shape_view().len() + k));
                        }
                    }
                    return Err(e);
                },
            }
            k += 1;
        }
        proof {
            assert(sorted@.take(sorted@.len() as int) =~= sorted@);
            assert forall|s: Seq<usize>|
                s.to_multiset() == axes@.to_multiset() && vstd::relations::sorted_by(s, axis_le())
                    implies #[trigger] ones_fit(self.shape_view(), s) && with_ones(self.shape_view(), s)
                == out.shape_view() by {
                lemma_axis_le_total();
                vstd::seq_lib::lemma_sorted_unique(s, sorted@, axis_le());
            }
        }
        Ok(out)
    }
}

/// Inserting `axes.len()` dimensions adds that many.
proof fn lemma_with_ones_len(dims: Seq<usize>, axes: Seq<usize>)
    requires
        ones_fit(dims, axes),
    ensures
        with_ones(dims, axes).len() == dims.len() + axes.len(),
    decreases axes.len(),
{
    if axes.len() > 0 {
        let p = axes.drop_last();
        assert forall|k: int| 0 <= k < p.len() implies #[trigger] p[k] <= dims.len() + k by {
            assert(p[k] == axes[k]);
        }
        lemma_with_ones_len(dims, p);
        assert(axes[axes.len() - 1] <= dims.len() + axes.len() - 1);
    }
}

/// `<=` on axes is a total order.
proof fn lemma_axis_le_total()
    ensures
        vstd::relations::total_ordering(axis_le()),
{
}


/// The groups an argmax along `dim` chooses from: one per output element
/// (the elements along `dim` at fixed other coordinates, in order), with
/// the output shape. An argmax is the position within its group.
///
/// `InvalidArgument`: `DimOutOfRange` when `dim` is past the rank,
/// `EmptyExtent` when dimension `dim` has no elements (there is nothing
/// to point at). Otherwise it succeeds.
pub fn argmax_groups<T: Copy>(t: &Tensor<T>, dim: usize, keepdim: bool) -> (r: Result<
    (Shape, Vec<Vec<T>>),
    Error,
>)
    ensures
        r matches Err(e) ==> crate::error::names_op(e, "argmax"@),
        dim >= t.shape_view().len() ==> (r matches Err(e) && e matches Error::InvalidArgument {
            issue: Issue::DimOutOfRange { dim: d, rank },
            ..
        } && d == dim && rank == t.shape_view().len()),
        dim < t.shape_view().len() && t.shape_view()[dim as int] == 0 ==> (r matches Err(e)
            && e matches Error::InvalidArgument { issue: Issue::EmptyExtent { dim: d }, .. } && d == dim),
        dim < t.shape_view().len() && t.shape_view()[dim as int] > 0 ==> r is Ok,
        r matches Err(e) ==> e is InvalidArgument,
        r matches Ok((s, g)) ==> {
            let n = t.shape_view().len();
            let dims = t.shape_view();
            let axes = seq![dim];
            let kd = permuted(dims, select_axes(n, axes, false));
            &&& dim < n && dims[dim as int] > 0
            &&& s@ == reduced_dims(dims, axes, keepdim, n)
            &&& g@.len() == numel_of(kd)
            &&& forall|o: int| 0 <= o < g@.len() ==> (#[trigger] g@[o])@.len() == dims[dim as int]
            &&& forall|o: int, j: int, c: Seq<int>|
                0 <= o < numel_of(kd) && 0 <= j < dims[dim as int] && valid_index(dims, c) && permuted(
                    c,
                    reduce_perm(n, axes),
                ) == unravel(kd, o) + seq![j] ==> #[trigger] g@[o]@[j] == #[trigger] t.element(c)
        },
{
    let n = t.ndim();
    if dim >= n {
        return Err(
            Error::InvalidArgument { op: "argmax", issue: Issue::DimOutOfRange { dim, rank: n } },
        );
    }
    if t.dims()[dim] == 0 {
        return Err(Error::InvalidArgument { op: "argmax", issue: Issue::EmptyExtent { dim } });
    }
    let mut axes: Vec<usize> = Vec::new();
    axes.push(dim);
    let ghost ax = axes@;
    let ghost dims = t.shape_view();
    // The element count fits in `usize`, and so does every output count.
    let _count: usize = t.numel();
    proof {
        lemma_select_axes(n as nat, ax, true);
        lemma_select_axes_len(n as nat, ax);
        lemma_select_only(n as nat, dim);
        assert(ax =~= seq![dim]);
        let rd = permuted(dims, select_axes(n as nat, ax, true));
        assert(rd =~= seq![dims[dim as int]]);
        assert(rd.drop_last() =~= Seq::<usize>::empty());
        assert(numel_of(Seq::<usize>::empty()) == 1);
        assert(numel_of(rd) == numel_of(rd.drop_last()) * (rd.last() as nat));
        assert(numel_of(rd) == dims[dim as int]);
        assert forall|j: int| 0 <= j < dims[dim as int] implies #[trigger] unravel(rd, j) == seq![j] by {
            vstd::arithmetic::div_mod::lemma_fundamental_div_mod_converse(j, dims[dim as int] as int, 0, j);
            assert(unravel(rd, j) == unravel(Seq::<usize>::empty(), j / (dims[dim as int] as int)).push(j % (dims[dim as int] as int)));
            assert(unravel(rd, j) =~= seq![j]);
        }
        let kd = permuted(dims, select_axes(n as nat, ax, false));
        lemma_reduce_perm(n as nat, ax);
        crate::index::lemma_numel_permuted(dims, reduce_perm(n as nat, ax));
        crate::index::lemma_numel_concat(kd, rd);
        assert(kd + rd =~= permuted(dims, reduce_perm(n as nat, ax)));
        assert(numel_of(kd) <= usize::MAX) by (nonlinear_arith)
            requires
                numel_of(kd) * numel_of(rd) <= usize::MAX,
                numel_of(rd) >= 1,
        ;
    }
    reduce_groups(t, axes.as_slice(), keepdim)
}

/// With a single axis `dim`, the reduced dimensions are exactly `[dim]`.
proof fn lemma_select_only(n: nat, dim: usize)
    requires
        dim < n <= usize::MAX,
    ensures
        select_axes(n, seq![dim], true) == seq![dim],
    decreases n,
{
    let ax = seq![dim];
    assert forall|x: usize| ax.contains(x) <==> x == dim by {
        if ax.contains(x) {
            let i = choose|i: int| 0 <= i < 1 && ax[i] == x;
        }
        if x == dim {
            assert(ax[0] == dim);
        }
    }
    if n - 1 == dim {
        lemma_select_none((n - 1) as nat, dim);
        assert(select_axes(n, ax, true) == select_axes((n - 1) as nat, ax, true).push(dim));
    } else {
        lemma_select_only((n - 1) as nat, dim);
    }
}

/// No dimension below `dim` is the axis `dim`.
proof fn lemma_select_none(m: nat, dim: usize)
    requires
        m <= dim,
    ensures
        select_axes(m, seq![dim], true) == Seq::<usize>::empty(),
    decreases m,
{
    let ax = seq![dim];
    if m > 0 {
        lemma_select_none((m - 1) as nat, dim);
        assert(!ax.contains((m - 1) as usize)) by {
            if ax.contains((m - 1) as usize) {
                let i = choose|i: int| 0 <= i < 1 && ax[i] == (m - 1) as usize;
            }
        }
    }
}

/// The number of elements each output of a reduction over `axes`
/// combines: the product of their extents (`None` past `usize`).
pub fn reduced_count(dims: &[usize], axes: &[usize]) -> (r: Option<usize>)
    requires
        forall|i: int| 0 <= i < axes@.len() ==> #[trigger] axes@[i] < dims@.len(),
    ensures
        r matches Some(c) ==> c == numel_of(permuted(dims@, axes@)),
        r is None <==> numel_of(permuted(dims@, axes@)) > usize::MAX,
{
    let mut ext: Vec<usize> = Vec::new();
    let mut i: usize = 0;
    while i < axes.len()
        invariant
            i <= axes@.len(),
            forall|k: int| 0 <= k < axes@.len() ==> #[trigger] axes@[k] < dims@.len(),
            ext@ =~= permuted(dims@, axes@).take(i as int),
        decreases axes.len() - i,
    {
        ext.push(dims[axes[i]]);
        i += 1;
    }
    assert(ext@ =~= permuted(dims@, axes@));
    checked_numel(ext.as_slice())
}


/// With `keepdim`, reducing keeps the rank: a reduced dimension becomes
/// 1 and every other keeps its extent.
pub proof fn lemma_reduced_keepdim(dims: Seq<usize>, axes: Seq<usize>, n: nat)
    requires
        n <= dims.len(),
        n <= usize::MAX,
    ensures
        reduced_dims(dims, axes, true, n).len() == n,
        forall|j: int|
            0 <= j < n ==> #[trigger] reduced_dims(dims, axes, true, n)[j] == if axes.contains(
                j as usize,
            ) {
                1usize
            } else {
                dims[j]
            },
    decreases n,
{
    if n > 0 {
        lemma_reduced_keepdim(dims, axes, (n - 1) as nat);
    }
}


/// Appending an extent after every insertion position commutes with the
/// insertions.
proof fn lemma_with_ones_push(d: Seq<usize>, axes: Seq<usize>, x: usize)
    requires
        ones_fit(d, axes),
    ensures
        with_ones(d.push(x), axes) == with_ones(d, axes).push(x),
    decreases axes.len(),
{
    if axes.len() > 0 {
        let p = axes.drop_last();
        assert forall|k: int| 0 <= k < p.len() implies #[trigger] p[k] <= d.len() + k by {
            assert(p[k] == axes[k]);
        }
        lemma_with_ones_push(d, p, x);
        lemma_with_ones_len(d, p);
        let w = with_ones(d, p);
        let a = axes.last() as int;
        assert(a <= w.len());
        assert(w.push(x).insert(a, 1) =~= w.insert(a, 1).push(x));
    }
}

/// The keepdim shape of the first `n` dimensions is the reduced shape
/// with the first `m` axes (those below `n`) re-inserted.
proof fn lemma_keepdim_prefix(dims: Seq<usize>, axes: Seq<usize>, n: nat, m: int)
    requires
        n <= dims.len() <= usize::MAX,
        0 <= m <= axes.len(),
        forall|i: int, j: int| 0 <= i < j < axes.len() ==> #[trigger] axes[i] < #[trigger] axes[j],
        forall|k: int| 0 <= k < m ==> #[trigger] axes[k] < n,
        forall|k: int| m <= k < axes.len() ==> #[trigger] axes[k] >= n,
    ensures
        reduced_dims(dims, axes, false, n).len() == n - m,
        ones_fit(reduced_dims(dims, axes, false, n), axes.take(m)),
        with_ones(reduced_dims(dims, axes, false, n), axes.take(m)) == reduced_dims(dims, axes, true, n),
    decreases n,
{
    if n == 0 {
        assert(m == 0) by {
            if m > 0 {
                assert(axes[0] < 0);
            }
        }
        assert(axes.take(0) =~= Seq::<usize>::empty());
    } else {
        let l = (n - 1) as usize;
        let here = axes.contains(l);
        if here {
            let k = choose|k: int| 0 <= k < axes.len() && axes[k] == l;
            assert(k < m);
            if k < m - 1 {
                assert(axes[k] < axes[m - 1]);
            }
            assert(k == m - 1);
            lemma_keepdim_prefix(dims, axes, (n - 1) as nat, m - 1);
            let rf = reduced_dims(dims, axes, false, (n - 1) as nat);
            assert(axes.take(m).drop_last() =~= axes.take(m - 1));
            assert(axes.take(m).last() == l);
            lemma_with_ones_len(rf, axes.take(m - 1));
            let w = with_ones(rf, axes.take(m - 1));
            assert(w.insert(n - 1, 1) =~= w.push(1));
            assert forall|k2: int| 0 <= k2 < m implies #[trigger] axes.take(m)[k2] <= rf.len() + k2 by {
                if k2 < m - 1 {
                    assert(axes.take(m - 1)[k2] == axes[k2]);
                }
            }
        } else {
            if m > 0 {
                assert(axes[m - 1] != l);
            }
            lemma_keepdim_prefix(dims, axes, (n - 1) as nat, m);
            let rf = reduced_dims(dims, axes, false, (n - 1) as nat);
            lemma_with_ones_push(rf, axes.take(m), dims[n - 1]);
            assert forall|k2: int| 0 <= k2 < m implies #[trigger] axes.take(m)[k2] <= rf.len() + 1 + k2 by {}
        }
    }
}

/// Re-inserting the reduced axes as extent 1, in ascending order, turns
/// the shape a reduction gives without `keepdim` into the shape it gives
/// with it: the reduction's gradient lines up with its input again.
pub proof fn law_unsqueeze_restores_keepdim(dims: Seq<usize>, axes: Seq<usize>)
    requires
        dims.len() <= usize::MAX,
        forall|i: int, j: int| 0 <= i < j < axes.len() ==> #[trigger] axes[i] < #[trigger] axes[j],
        forall|k: int| 0 <= k < axes.len() ==> #[trigger] axes[k] < dims.len(),
    ensures
        ones_fit(reduced_dims(dims, axes, false, dims.len()), axes),
        with_ones(reduced_dims(dims, axes, false, dims.len()), axes) == reduced_dims(
            dims,
            axes,
            true,
            dims.len(),
        ),
{
    lemma_keepdim_prefix(dims, axes, dims.len(), axes.len() as int);
    assert(axes.take(axes.len() as int) =~= axes);
}


/// The canonical axes of a mean over `axes` of a tensor of extents
/// `dims` (as [`normalize_axes`] gives them) and the number of elements
/// each output averages.
///
/// `AxisOutOfRange` as [`normalize_axes`] reports it; `EmptyExtent`
/// naming the first reduced axis of extent 0, since the mean of nothing
/// has no value; `ShapeOverflow` when the count does not fit in `usize`.
pub fn mean_divisor(dims: &[usize], axes: &[usize]) -> (r: Result<(Vec<usize>, usize), Error>)
    ensures
        r matches Err(e) ==> crate::error::names_op(e, "mean"@),
        r is Ok ==> forall|i: int| 0 <= i < axes@.len() ==> #[trigger] axes@[i] < dims@.len(),
        (exists|i: int| 0 <= i < axes@.len() && #[trigger] axes@[i] >= dims@.len()) ==> (r matches Err(
            e,
        ) && e matches Error::InvalidArgument { issue: Issue::AxisOutOfRange { .. }, .. }),
        r matches Err(e) ==> match e {
            Error::InvalidArgument { issue: Issue::EmptyExtent { dim }, .. } => dim < dims@.len()
                && dims@[dim as int] == 0,
            _ => true,
        },
        (forall|i: int| 0 <= i < axes@.len() ==> #[trigger] axes@[i] < dims@.len()) ==> ({
            let red = canonical_axes(dims@.len(), axes@);
            &&& (exists|j: int| 0 <= j < red.len() && dims@[#[trigger] red[j] as int] == 0) ==> (
            r matches Err(e) && e matches Error::InvalidArgument {
                issue: Issue::EmptyExtent { dim },
                ..
            } && exists|j: int|
                0 <= j < red.len() && #[trigger] red[j] == dim && dims@[dim as int] == 0 && forall|
                    q: int,
                | 0 <= q < j ==> dims@[#[trigger] red[q] as int] != 0)
            &&& (forall|j: int| 0 <= j < red.len() ==> dims@[#[trigger] red[j] as int] != 0) ==> (
            r is Ok <==> numel_of(permuted(dims@, red)) <= usize::MAX)
        }),
        r matches Ok((v, count)) ==> v@ == canonical_axes(dims@.len(), axes@),
        r matches Ok((v, count)) ==> {
            &&& forall|i: int, j: int| 0 <= i < j < v@.len() ==> #[trigger] v@[i] < #[trigger] v@[j]
            &&& forall|i: int| 0 <= i < v@.len() ==> #[trigger] v@[i] < dims@.len()
            &&& axes@.len() == 0 ==> v@ == Seq::new(dims@.len(), |i: int| i as usize)
            &&& axes@.len() > 0 ==> forall|x: usize| #[trigger] v@.contains(x) <==> axes@.contains(x)
            &&& count == numel_of(permuted(dims@, v@))
            &&& count > 0
        },
{
    let v = match normalize_axes(axes, dims.len(), "mean") {
        Ok(v) => v,
        Err(e) => {
            return Err(e);
        },
    };
    let mut k: usize = 0;
    while k < v.len()
        invariant
            k <= v@.len(),
            forall|i: int| 0 <= i < v@.len() ==> #[trigger] v@[i] < dims@.len(),
            forall|i: int| 0 <= i < k ==> dims@[#[trigger] v@[i] as int] != 0,
            forall|i: int| 0 <= i < axes@.len() ==> #[trigger] axes@[i] < dims@.len(),
            v@ == canonical_axes(dims@.len(), axes@),
        decreases v.len() - k,
    {
        if dims[v[k]] == 0 {
            return Err(
                Error::InvalidArgument { op: "mean", issue: Issue::EmptyExtent { dim: v[k] } },
            );
        }
        k += 1;
    }
    match reduced_count(dims, v.as_slice()) {
        Some(count) => {
            proof {
                assert forall|i: int| 0 <= i < v@.len() implies #[trigger] permuted(dims@, v@)[i] > 0 by {
                    assert(dims@[v@[i] as int] != 0);
                }
                crate::index::lemma_numel_pos_converse(permuted(dims@, v@));
            }
            Ok((v, count))
        },
        None => Err(Error::ShapeOverflow { dims: crate::shape::copy_usizes(dims), op: "mean" }),
    }
}

} // verus!
