//! Row-major index arithmetic: the mathematical model every layout,
//! walker and gather in this crate is stated against.
//!
//! A shape is a sequence of extents `dims`; a coordinate is a sequence of
//! integers of the same length. Elements are numbered in logical
//! (row-major, last dimension fastest) order: `linear` maps a coordinate
//! to its number and `unravel` maps a number back to its coordinate.
use vstd::arithmetic::div_mod::*;
use vstd::prelude::*;

verus! {

/// The number of elements of a shape: the product of its extents.
pub open spec fn numel_of(dims: Seq<usize>) -> nat
    decreases dims.len(),
{
    if dims.len() == 0 {
        1
    } else {
        numel_of(dims.drop_last()) * (dims.last() as nat)
    }
}

/// A coordinate addresses an element of `dims`.
pub open spec fn valid_index(dims: Seq<usize>, c: Seq<int>) -> bool {
    &&& c.len() == dims.len()
    &&& forall|i: int| 0 <= i < c.len() ==> 0 <= #[trigger] c[i] < dims[i] as int
}

/// The row-major number of coordinate `c` in `dims`.
pub open spec fn linear(dims: Seq<usize>, c: Seq<int>) -> int
    decreases dims.len(),
{
    if dims.len() == 0 || c.len() == 0 {
        0
    } else {
        linear(dims.drop_last(), c.drop_last()) * (dims.last() as int) + c.last()
    }
}

/// The coordinate of the `x`-th element of `dims` in row-major order.
pub open spec fn unravel(dims: Seq<usize>, x: int) -> Seq<int>
    decreases dims.len(),
{
    if dims.len() == 0 {
        Seq::empty()
    } else {
        let d = dims.last() as int;
        unravel(dims.drop_last(), x / d).push(x % d)
    }
}

/// The odometer step: the coordinate after `c`, wrapping to all zeros
/// after the last element.
pub open spec fn succ(dims: Seq<usize>, c: Seq<int>) -> Seq<int>
    decreases dims.len(),
{
    if dims.len() == 0 || c.len() == 0 {
        Seq::empty()
    } else if c.last() + 1 < dims.last() as int {
        c.drop_last().push(c.last() + 1)
    } else {
        succ(dims.drop_last(), c.drop_last()).push(0)
    }
}

/// `n` zeros.
pub open spec fn zeros(n: nat) -> Seq<int> {
    Seq::new(n, |i: int| 0int)
}

/// `Σ c[i] * strides[i]`: how far coordinate `c` lies from the base
/// offset of a strided layout.
pub open spec fn offset_sum(strides: Seq<isize>, c: Seq<int>) -> int
    decreases c.len(),
{
    if c.len() == 0 || strides.len() == 0 {
        0
    } else {
        offset_sum(strides.drop_last(), c.drop_last()) + c.last() * (strides.last() as int)
    }
}

/// The row-major (contiguous) stride of dimension `i`: the product of
/// the extents after it.
pub open spec fn cstride(dims: Seq<usize>, i: int) -> nat {
    numel_of(dims.subrange(i + 1, dims.len() as int))
}

/// `strides` are exactly the row-major strides of `dims`.
pub open spec fn is_row_major(dims: Seq<usize>, strides: Seq<isize>) -> bool {
    &&& strides.len() == dims.len()
    &&& forall|i: int| 0 <= i < dims.len() ==> #[trigger] strides[i] as int == cstride(dims, i) as int
}

/// Every extent of a shape with at least one element is positive.
pub proof fn lemma_numel_pos(dims: Seq<usize>)
    requires
        numel_of(dims) > 0,
    ensures
        forall|i: int| 0 <= i < dims.len() ==> #[trigger] dims[i] > 0,
    decreases dims.len(),
{
    if dims.len() > 0 {
        let p = numel_of(dims.drop_last());
        let l = dims.last() as nat;
        assert(p * l > 0);
        assert(p > 0 && l > 0) by (nonlinear_arith)
            requires
                p * l > 0,
        ;
        lemma_numel_pos(dims.drop_last());
        assert forall|i: int| 0 <= i < dims.len() implies #[trigger] dims[i] > 0 by {
            if i < dims.len() - 1 {
                assert(dims.drop_last()[i] == dims[i]);
            }
        }
    }
}

/// A shape with a zero extent has no elements.
pub proof fn lemma_numel_zero(dims: Seq<usize>, i: int)
    requires
        0 <= i < dims.len(),
        dims[i] == 0,
    ensures
        numel_of(dims) == 0,
    decreases dims.len(),
{
    if i == dims.len() - 1 {
        assert(numel_of(dims) == numel_of(dims.drop_last()) * 0);
    } else {
        assert(dims.drop_last()[i] == dims[i]);
        lemma_numel_zero(dims.drop_last(), i);
        assert(numel_of(dims) == 0 * (dims.last() as nat));
    }
}

/// A coordinate has one entry per dimension.
pub proof fn lemma_unravel_len(dims: Seq<usize>, x: int)
    ensures
        unravel(dims, x).len() == dims.len(),
    decreases dims.len(),
{
    if dims.len() > 0 {
        lemma_unravel_len(dims.drop_last(), x / (dims.last() as int));
    }
}

/// `unravel` numbers every element once: it yields a valid coordinate
/// whose row-major number is `x`.
pub proof fn lemma_unravel(dims: Seq<usize>, x: int)
    requires
        0 <= x < numel_of(dims),
    ensures
        valid_index(dims, unravel(dims, x)),
        linear(dims, unravel(dims, x)) == x,
    decreases dims.len(),
{
    if dims.len() > 0 {
        lemma_numel_pos(dims);
        let d = dims.last() as int;
        let p = numel_of(dims.drop_last()) as int;
        assert(d > 0);
        lemma_fundamental_div_mod(x, d);
        let q = x / d;
        let r = x % d;
        assert(0 <= r < d) by {
            lemma_mod_bound(x, d);
        }
        assert(0 <= q < p) by {
            assert(x < p * d);
            assert(x == d * q + r);
            assert(0 <= q < p) by (nonlinear_arith)
                requires
                    x == d * q + r,
                    0 <= r < d,
                    0 <= x < p * d,
                    d > 0,
            ;
        }
        lemma_unravel(dims.drop_last(), q);
        let u = unravel(dims, x);
        let up = unravel(dims.drop_last(), q);
        assert(u == up.push(r));
        assert(u.drop_last() =~= up);
        assert forall|i: int| 0 <= i < u.len() implies 0 <= #[trigger] u[i] < dims[i] as int by {
            if i < u.len() - 1 {
                assert(u[i] == up[i]);
                assert(dims.drop_last()[i] == dims[i]);
            }
        }
        assert(linear(dims, u) == q * d + r);
        assert(q * d == d * q) by (nonlinear_arith);
    }
}

/// `linear` is the inverse of `unravel` on valid coordinates.
pub proof fn lemma_linear(dims: Seq<usize>, c: Seq<int>)
    requires
        valid_index(dims, c),
    ensures
        0 <= linear(dims, c) < numel_of(dims),
        unravel(dims, linear(dims, c)) == c,
    decreases dims.len(),
{
    if dims.len() == 0 {
        assert(c =~= Seq::<int>::empty());
    } else {
        let dp = dims.drop_last();
        let cp = c.drop_last();
        assert(valid_index(dp, cp)) by {
            assert forall|i: int| 0 <= i < cp.len() implies 0 <= #[trigger] cp[i] < dp[i] as int by {
                assert(cp[i] == c[i]);
                assert(dp[i] == dims[i]);
            }
        }
        lemma_linear(dp, cp);
        let lp = linear(dp, cp);
        let d = dims.last() as int;
        let p = numel_of(dp) as int;
        let cl = c.last();
        assert(0 <= cl < d) by {
            assert(c[c.len() - 1] == cl);
        }
        assert(linear(dims, c) == lp * d + cl);
        assert(0 <= lp * d + cl < p * d) by (nonlinear_arith)
            requires
                0 <= lp < p,
                0 <= cl < d,
        ;
        assert(lp * d == d * lp) by (nonlinear_arith);
        lemma_fundamental_div_mod_converse(lp * d + cl, d, lp, cl);
        assert(unravel(dims, linear(dims, c)) == unravel(dp, lp).push(cl));
        assert(c =~= cp.push(cl));
    }
}

/// The coordinate of element 0 is all zeros.
pub proof fn lemma_unravel_zero(dims: Seq<usize>)
    requires
        numel_of(dims) > 0,
    ensures
        unravel(dims, 0) =~= zeros(dims.len()),
    decreases dims.len(),
{
    if dims.len() > 0 {
        lemma_numel_pos(dims);
        let d = dims.last() as int;
        assert(0int / d == 0 && 0int % d == 0) by {
            lemma_fundamental_div_mod_converse(0, d, 0, 0);
        }
        lemma_unravel_zero(dims.drop_last());
        assert(unravel(dims, 0) == unravel(dims.drop_last(), 0).push(0));
    }
}

/// The odometer step moves from element `x` to element `x + 1`, and
/// from the last element back to the first.
pub proof fn lemma_succ_unravel(dims: Seq<usize>, x: int)
    requires
        0 <= x < numel_of(dims),
    ensures
        x + 1 < numel_of(dims) ==> succ(dims, unravel(dims, x)) =~= unravel(dims, x + 1),
        x + 1 == numel_of(dims) ==> succ(dims, unravel(dims, x)) =~= zeros(dims.len()),
    decreases dims.len(),
{
    if dims.len() > 0 {
        lemma_numel_pos(dims);
        let dp = dims.drop_last();
        let d = dims.last() as int;
        let p = numel_of(dp) as int;
        let q = x / d;
        let r = x % d;
        lemma_fundamental_div_mod(x, d);
        lemma_mod_bound(x, d);
        assert(0 <= q < p) by (nonlinear_arith)
            requires
                x == d * q + r,
                0 <= r < d,
                0 <= x < p * d,
                d > 0,
        ;
        let u = unravel(dims, x);
        assert(u == unravel(dp, q).push(r));
        assert(u.drop_last() =~= unravel(dp, q));
        assert(u.last() == r);
        if r + 1 < d {
            // the last coordinate steps, nothing carries
            assert((x + 1) / d == q && (x + 1) % d == r + 1) by {
                assert(x + 1 == q * d + (r + 1)) by (nonlinear_arith)
                    requires
                        x == d * q + r,
                ;
                lemma_fundamental_div_mod_converse(x + 1, d, q, r + 1);
            }
            assert(x + 1 < p * d) by (nonlinear_arith)
                requires
                    x == d * q + r,
                    r + 1 < d,
                    0 <= q < p,
                    d > 0,
            ;
            assert(succ(dims, u) == unravel(dp, q).push(r + 1));
        } else {
            // the last coordinate wraps and the carry moves left
            assert(r == d - 1);
            assert(x + 1 == d * (q + 1)) by (nonlinear_arith)
                requires
                    x == d * q + r,
                    r == d - 1,
            ;
            assert((x + 1) / d == q + 1 && (x + 1) % d == 0) by {
                assert(x + 1 == (q + 1) * d + 0) by (nonlinear_arith)
                    requires
                        x + 1 == d * (q + 1),
                ;
                lemma_fundamental_div_mod_converse(x + 1, d, q + 1, 0);
            }
            lemma_succ_unravel(dp, q);
            assert(succ(dims, u) == succ(dp, unravel(dp, q)).push(0));
            if x + 1 < p * d {
                assert(q + 1 < p) by (nonlinear_arith)
                    requires
                        x + 1 == d * (q + 1),
                        x + 1 < p * d,
                        d > 0,
                ;
                assert(unravel(dims, x + 1) == unravel(dp, q + 1).push(0));
            } else {
                assert(q + 1 == p) by (nonlinear_arith)
                    requires
                        x + 1 == d * (q + 1),
                        x + 1 == p * d,
                        d > 0,
                ;
                assert(zeros(dims.len()) =~= zeros(dp.len()).push(0));
            }
        }
    }
}

/// Changing one coordinate moves the offset by the change times that
/// dimension's stride.
pub proof fn lemma_offset_sum_update(strides: Seq<isize>, c: Seq<int>, i: int, v: int)
    requires
        c.len() == strides.len(),
        0 <= i < c.len(),
    ensures
        offset_sum(strides, c.update(i, v)) == offset_sum(strides, c) + (v - c[i]) * (
        strides[i] as int),
    decreases c.len(),
{
    let c2 = c.update(i, v);
    let s = strides[i] as int;
    if i == c.len() - 1 {
        assert(c2.drop_last() =~= c.drop_last());
        assert(v * s - c[i] * s == (v - c[i]) * s) by (nonlinear_arith);
    } else {
        assert(c2.drop_last() =~= c.drop_last().update(i, v));
        lemma_offset_sum_update(strides.drop_last(), c.drop_last(), i, v);
        assert(strides.drop_last()[i] == strides[i]);
    }
}

/// Scaled row-major strides address coordinates by their scaled
/// row-major number.
pub proof fn lemma_row_major_scaled(dims: Seq<usize>, strides: Seq<isize>, k: int, c: Seq<int>)
    requires
        strides.len() == dims.len(),
        c.len() == dims.len(),
        forall|i: int| 0 <= i < dims.len() ==> #[trigger] strides[i] as int == k * cstride(dims, i),
    ensures
        offset_sum(strides, c) == k * linear(dims, c),
    decreases dims.len(),
{
    if dims.len() > 0 {
        let n = dims.len() as int;
        let dp = dims.drop_last();
        let sp = strides.drop_last();
        let l = dims.last() as int;
        assert forall|i: int| 0 <= i < dp.len() implies #[trigger] sp[i] as int == (k * l) * cstride(
            dp,
            i,
        ) by {
            assert(sp[i] == strides[i]);
            let tail = dims.subrange(i + 1, n);
            assert(tail.drop_last() =~= dp.subrange(i + 1, n - 1));
            assert(tail.last() == dims.last());
            assert(cstride(dims, i) == numel_of(tail));
            assert(numel_of(tail) == numel_of(tail.drop_last()) * (l as nat));
            let a = cstride(dp, i) as int;
            assert(k * (a * l) == (k * l) * a) by (nonlinear_arith);
        }
        lemma_row_major_scaled(dp, sp, k * l, c.drop_last());
        assert(cstride(dims, n - 1) == 1) by {
            assert(dims.subrange(n, n) =~= Seq::<usize>::empty());
        }
        assert(strides.last() as int == k);
        let lp = linear(dp, c.drop_last());
        assert(offset_sum(strides, c) == (k * l) * lp + c.last() * k);
        assert((k * l) * lp + c.last() * k == k * (lp * l + c.last())) by (nonlinear_arith);
    }
}

/// Row-major strides address every coordinate by its row-major number.
pub proof fn lemma_row_major(dims: Seq<usize>, strides: Seq<isize>, c: Seq<int>)
    requires
        is_row_major(dims, strides),
        c.len() == dims.len(),
    ensures
        offset_sum(strides, c) == linear(dims, c),
{
    assert forall|i: int| 0 <= i < dims.len() implies #[trigger] strides[i] as int == 1 * cstride(
        dims,
        i,
    ) by {}
    lemma_row_major_scaled(dims, strides, 1, c);
}

/// `x` reordered by `p`: position `i` holds `x[p[i]]`.
pub open spec fn permuted<A>(x: Seq<A>, p: Seq<usize>) -> Seq<A> {
    Seq::new(p.len(), |i: int| x[p[i] as int])
}

/// `p` is a permutation of `0..n`.
pub open spec fn is_permutation(p: Seq<usize>, n: int) -> bool {
    &&& p.len() == n
    &&& forall|i: int| 0 <= i < n ==> #[trigger] p[i] < n
    &&& forall|i: int, j: int| 0 <= i < j < n ==> #[trigger] p[i] != #[trigger] p[j]
}

/// Removing one dimension removes its term from the offset.
pub proof fn lemma_offset_sum_remove(s: Seq<isize>, c: Seq<int>, k: int)
    requires
        s.len() == c.len(),
        0 <= k < c.len(),
    ensures
        offset_sum(s, c) == offset_sum(s.remove(k), c.remove(k)) + c[k] * (s[k] as int),
    decreases c.len(),
{
    if k == c.len() - 1 {
        assert(s.remove(k) =~= s.drop_last());
        assert(c.remove(k) =~= c.drop_last());
    } else {
        lemma_offset_sum_remove(s.drop_last(), c.drop_last(), k);
        assert(s.remove(k).drop_last() =~= s.drop_last().remove(k));
        assert(c.remove(k).drop_last() =~= c.drop_last().remove(k));
        assert(s.remove(k).last() == s.last());
        assert(c.remove(k).last() == c.last());
        assert(s.drop_last()[k] == s[k]);
        assert(c.drop_last()[k] == c[k]);
    }
}

/// The offset of a coordinate does not depend on the order in which the
/// dimensions are listed.
pub proof fn lemma_offset_sum_permuted(s: Seq<isize>, c: Seq<int>, p: Seq<usize>)
    requires
        s.len() == c.len(),
        is_permutation(p, c.len() as int),
    ensures
        offset_sum(permuted(s, p), permuted(c, p)) == offset_sum(s, c),
    decreases c.len(),
{
    let n = c.len() as int;
    if n > 0 {
        let k = p[n - 1] as int;
        let q = Seq::new(
            (n - 1) as nat,
            |i: int|
                if (p[i] as int) < k {
                    p[i]
                } else {
                    (p[i] - 1) as usize
                },
        );
        assert forall|i: int| 0 <= i < n - 1 implies #[trigger] q[i] < n - 1 by {
            assert(p[i] != p[n - 1]);
        }
        assert forall|i: int, j: int| 0 <= i < j < n - 1 implies #[trigger] q[i] != #[trigger] q[j] by {
            assert(p[i] != p[n - 1]);
            assert(p[j] != p[n - 1]);
            assert(p[i] != p[j]);
        }
        let s2 = s.remove(k);
        let c2 = c.remove(k);
        lemma_offset_sum_permuted(s2, c2, q);
        assert(permuted(s, p).drop_last() =~= permuted(s2, q)) by {
            assert forall|i: int| 0 <= i < n - 1 implies permuted(s, p).drop_last()[i] == permuted(
                s2,
                q,
            )[i] by {
                assert(p[i] != p[n - 1]);
            }
        }
        assert(permuted(c, p).drop_last() =~= permuted(c2, q)) by {
            assert forall|i: int| 0 <= i < n - 1 implies permuted(c, p).drop_last()[i] == permuted(
                c2,
                q,
            )[i] by {
                assert(p[i] != p[n - 1]);
            }
        }
        lemma_offset_sum_remove(s, c, k);
    }
}

/// Sums whose terms agree pairwise are equal.
pub proof fn lemma_offset_sum_termwise(s1: Seq<isize>, c1: Seq<int>, s2: Seq<isize>, c2: Seq<int>)
    requires
        s1.len() == c1.len(),
        s2.len() == c2.len(),
        c1.len() == c2.len(),
        forall|i: int|
            0 <= i < c1.len() ==> #[trigger] c1[i] * (s1[i] as int) == c2[i] * (s2[i] as int),
    ensures
        offset_sum(s1, c1) == offset_sum(s2, c2),
    decreases c1.len(),
{
    if c1.len() > 0 {
        let n = c1.len() - 1;
        assert(c1[n] * (s1[n] as int) == c2[n] * (s2[n] as int));
        lemma_offset_sum_termwise(s1.drop_last(), c1.drop_last(), s2.drop_last(), c2.drop_last());
    }
}

/// Sums whose terms are pairwise ordered are ordered.
pub proof fn lemma_offset_sum_le(s: Seq<isize>, c1: Seq<int>, c2: Seq<int>)
    requires
        s.len() == c1.len(),
        c1.len() == c2.len(),
        forall|i: int|
            0 <= i < c1.len() ==> #[trigger] (c1[i] * (s[i] as int)) <= c2[i] * (s[i] as int),
    ensures
        offset_sum(s, c1) <= offset_sum(s, c2),
    decreases c1.len(),
{
    if c1.len() > 0 {
        let n = c1.len() - 1;
        assert(c1[n] * (s[n] as int) <= c2[n] * (s[n] as int));
        lemma_offset_sum_le(s.drop_last(), c1.drop_last(), c2.drop_last());
    }
}

/// Leading dimensions with stride 0 contribute nothing.
pub proof fn lemma_offset_sum_zero_prefix(s: Seq<isize>, c: Seq<int>, lead: int)
    requires
        s.len() == c.len(),
        0 <= lead <= c.len(),
        forall|i: int| 0 <= i < lead ==> #[trigger] s[i] == 0,
    ensures
        offset_sum(s, c) == offset_sum(s.skip(lead), c.skip(lead)),
    decreases c.len(),
{
    if c.len() > 0 && lead < c.len() {
        lemma_offset_sum_zero_prefix(s.drop_last(), c.drop_last(), lead);
        assert(s.skip(lead).drop_last() =~= s.drop_last().skip(lead));
        assert(c.skip(lead).drop_last() =~= c.drop_last().skip(lead));
    } else if c.len() > 0 {
        assert(s.skip(lead) =~= Seq::<isize>::empty());
        assert(c.skip(lead) =~= Seq::<int>::empty());
        lemma_offset_sum_zero(s, c);
    }
}

/// All-zero strides contribute nothing.
pub proof fn lemma_offset_sum_zero(s: Seq<isize>, c: Seq<int>)
    requires
        s.len() == c.len(),
        forall|i: int| 0 <= i < s.len() ==> #[trigger] s[i] == 0,
    ensures
        offset_sum(s, c) == 0,
    decreases c.len(),
{
    if c.len() > 0 {
        lemma_offset_sum_zero(s.drop_last(), c.drop_last());
        assert(s.last() == 0);
        assert(c.last() * (s.last() as int) == 0);
    }
}

/// The coordinate that maximizes the offset: the last index along
/// dimensions that step forward, the first along the others.
pub open spec fn max_coord(dims: Seq<usize>, s: Seq<isize>) -> Seq<int> {
    Seq::new(
        dims.len(),
        |i: int|
            if s[i] > 0 {
                dims[i] - 1
            } else {
                0
            },
    )
}

/// The coordinate that minimizes the offset.
pub open spec fn min_coord(dims: Seq<usize>, s: Seq<isize>) -> Seq<int> {
    Seq::new(
        dims.len(),
        |i: int|
            if s[i] < 0 {
                dims[i] - 1
            } else {
                0
            },
    )
}

/// Every valid coordinate's offset lies between those of `min_coord` and
/// `max_coord`, which are themselves valid.
pub proof fn lemma_offset_extremes(dims: Seq<usize>, s: Seq<isize>, c: Seq<int>)
    requires
        s.len() == dims.len(),
        valid_index(dims, c),
    ensures
        valid_index(dims, max_coord(dims, s)),
        valid_index(dims, min_coord(dims, s)),
        offset_sum(s, min_coord(dims, s)) <= offset_sum(s, c) <= offset_sum(s, max_coord(dims, s)),
{
    let hi = max_coord(dims, s);
    let lo = min_coord(dims, s);
    assert forall|i: int| 0 <= i < c.len() implies #[trigger] (c[i] * (s[i] as int)) <= hi[i] * (
    s[i] as int) by {
        let x = c[i];
        let m = dims[i] - 1;
        let t = s[i] as int;
        assert(0 <= x <= m);
        if t > 0 {
            assert(x * t <= m * t) by (nonlinear_arith)
                requires
                    x <= m,
                    t > 0,
            ;
        } else {
            assert(x * t <= 0 * t) by (nonlinear_arith)
                requires
                    x >= 0,
                    t <= 0,
            ;
        }
    }
    assert forall|i: int| 0 <= i < c.len() implies #[trigger] (lo[i] * (s[i] as int)) <= c[i] * (
    s[i] as int) by {
        let x = c[i];
        let m = dims[i] - 1;
        let t = s[i] as int;
        assert(0 <= x <= m);
        if t < 0 {
            assert(m * t <= x * t) by (nonlinear_arith)
                requires
                    x <= m,
                    t < 0,
            ;
        } else {
            assert(0 * t <= x * t) by (nonlinear_arith)
                requires
                    x >= 0,
                    t >= 0,
            ;
        }
    }
    lemma_offset_sum_le(s, c, hi);
    lemma_offset_sum_le(s, lo, c);
    assert forall|i: int| 0 <= i < hi.len() implies 0 <= #[trigger] hi[i] < dims[i] as int by {
        assert(0 <= c[i] < dims[i]);
    }
    assert forall|i: int| 0 <= i < lo.len() implies 0 <= #[trigger] lo[i] < dims[i] as int by {
        assert(0 <= c[i] < dims[i]);
    }
}

/// Removing one dimension divides the element count by its extent.
pub proof fn lemma_numel_remove(dims: Seq<usize>, k: int)
    requires
        0 <= k < dims.len(),
    ensures
        numel_of(dims) == numel_of(dims.remove(k)) * (dims[k] as nat),
    decreases dims.len(),
{
    if k == dims.len() - 1 {
        assert(dims.remove(k) =~= dims.drop_last());
    } else {
        lemma_numel_remove(dims.drop_last(), k);
        assert(dims.remove(k).drop_last() =~= dims.drop_last().remove(k));
        assert(dims.remove(k).last() == dims.last());
        assert(dims.drop_last()[k] == dims[k]);
        let a = numel_of(dims.drop_last().remove(k)) as int;
        let b = dims[k] as int;
        let l = dims.last() as int;
        assert(a * b * l == a * l * b) by (nonlinear_arith);
    }
}

/// Reordering the dimensions keeps the element count.
pub proof fn lemma_numel_permuted(dims: Seq<usize>, p: Seq<usize>)
    requires
        is_permutation(p, dims.len() as int),
    ensures
        numel_of(permuted(dims, p)) == numel_of(dims),
    decreases dims.len(),
{
    let n = dims.len() as int;
    if n > 0 {
        let k = p[n - 1] as int;
        let q = Seq::new(
            (n - 1) as nat,
            |i: int|
                if (p[i] as int) < k {
                    p[i]
                } else {
                    (p[i] - 1) as usize
                },
        );
        assert forall|i: int| 0 <= i < n - 1 implies #[trigger] q[i] < n - 1 by {
            assert(p[i] != p[n - 1]);
        }
        assert forall|i: int, j: int| 0 <= i < j < n - 1 implies #[trigger] q[i] != #[trigger] q[j] by {
            assert(p[i] != p[n - 1]);
            assert(p[j] != p[n - 1]);
            assert(p[i] != p[j]);
        }
        let d2 = dims.remove(k);
        lemma_numel_permuted(d2, q);
        assert(permuted(dims, p).drop_last() =~= permuted(d2, q)) by {
            assert forall|i: int| 0 <= i < n - 1 implies permuted(dims, p).drop_last()[i]
                == permuted(d2, q)[i] by {
                assert(p[i] != p[n - 1]);
            }
        }
        lemma_numel_remove(dims, k);
    }
}

/// A shape whose extents are all positive has elements.
pub proof fn lemma_numel_pos_converse(dims: Seq<usize>)
    requires
        forall|i: int| 0 <= i < dims.len() ==> #[trigger] dims[i] > 0,
    ensures
        numel_of(dims) > 0,
    decreases dims.len(),
{
    if dims.len() > 0 {
        lemma_numel_pos_converse(dims.drop_last());
        let a = numel_of(dims.drop_last()) as int;
        let l = dims.last() as int;
        assert(dims[dims.len() - 1] > 0);
        assert(a * l > 0) by (nonlinear_arith)
            requires
                a > 0,
                l > 0,
        ;
    }
}

/// Shrinking one extent does not grow the element count.
pub proof fn lemma_numel_update_le(dims: Seq<usize>, k: int, v: usize)
    requires
        0 <= k < dims.len(),
        v <= dims[k],
    ensures
        numel_of(dims.update(k, v)) <= numel_of(dims),
{
    lemma_numel_remove(dims, k);
    lemma_numel_remove(dims.update(k, v), k);
    assert(dims.update(k, v).remove(k) =~= dims.remove(k));
    let a = numel_of(dims.remove(k)) as int;
    assert(a * (v as int) <= a * (dims[k] as int)) by (nonlinear_arith)
        requires
            a >= 0,
            v <= dims[k],
    ;
}

/// The offset splits into the contributions of a prefix and a suffix of
/// the dimensions.
pub proof fn lemma_offset_sum_split(s: Seq<isize>, c: Seq<int>, k: int)
    requires
        s.len() == c.len(),
        0 <= k <= c.len(),
    ensures
        offset_sum(s, c) == offset_sum(s.take(k), c.take(k)) + offset_sum(s.skip(k), c.skip(k)),
    decreases c.len(),
{
    if k == c.len() {
        assert(s.take(k) =~= s);
        assert(c.take(k) =~= c);
        assert(s.skip(k) =~= Seq::<isize>::empty());
        assert(c.skip(k) =~= Seq::<int>::empty());
    } else {
        lemma_offset_sum_split(s.drop_last(), c.drop_last(), k);
        assert(s.drop_last().take(k) =~= s.take(k));
        assert(c.drop_last().take(k) =~= c.take(k));
        assert(s.skip(k).drop_last() =~= s.drop_last().skip(k));
        assert(c.skip(k).drop_last() =~= c.drop_last().skip(k));
        assert(s.skip(k).last() == s.last());
        assert(c.skip(k).last() == c.last());
    }
}

/// The element count of concatenated shapes is the product of theirs.
pub proof fn lemma_numel_concat(a: Seq<usize>, b: Seq<usize>)
    ensures
        numel_of(a + b) == numel_of(a) * numel_of(b),
    decreases b.len(),
{
    if b.len() == 0 {
        assert(a + b =~= a);
        assert(numel_of(b) == 1);
        assert(numel_of(a) * 1 == numel_of(a));
    } else {
        lemma_numel_concat(a, b.drop_last());
        assert((a + b).drop_last() =~= a + b.drop_last());
        assert((a + b).last() == b.last());
        let x = numel_of(a) as int;
        let y = numel_of(b.drop_last()) as int;
        let l = b.last() as int;
        assert(numel_of(a + b) == numel_of(a + b.drop_last()) * ((a + b).last() as nat));
        assert(numel_of(b) == numel_of(b.drop_last()) * (b.last() as nat));
        assert(numel_of(a + b.drop_last()) == x * y);
        assert(x * y * l == x * (y * l)) by (nonlinear_arith);
        assert(numel_of(a + b) == x * y * l);
    }
}

/// In concatenated shapes, element `x * numel(b) + y` sits at the
/// concatenation of the coordinates of `x` in `a` and of `y` in `b`.
#[verifier::spinoff_prover]
pub proof fn lemma_unravel_concat(a: Seq<usize>, b: Seq<usize>, x: int, y: int)
    requires
        0 <= x < numel_of(a),
        0 <= y < numel_of(b),
    ensures
        unravel(a + b, x * numel_of(b) + y) == unravel(a, x) + unravel(b, y),
    decreases b.len(),
{
    if b.len() == 0 {
        assert(a + b =~= a);
        assert(numel_of(b) == 1);
        assert(y == 0);
        assert(x * numel_of(b) + y == x) by (nonlinear_arith)
            requires
                numel_of(b) == 1,
                y == 0,
        ;
        assert(unravel(b, y) =~= Seq::<int>::empty());
        assert(unravel(a, x) + unravel(b, y) =~= unravel(a, x));
    } else {
        lemma_numel_pos(b);
        let bp = b.drop_last();
        let l = b.last() as int;
        let nbp = numel_of(bp) as int;
        assert(l > 0);
        assert((a + b).drop_last() =~= a + bp);
        assert((a + b).last() == b.last());
        vstd::arithmetic::div_mod::lemma_fundamental_div_mod(y, l);
        vstd::arithmetic::div_mod::lemma_mod_bound(y, l);
        let q = y / l;
        let r = y % l;
        assert(0 <= q < nbp) by (nonlinear_arith)
            requires
                y == l * q + r,
                0 <= r < l,
                0 <= y < nbp * l,
                l > 0,
        ;
        let z = x * (nbp * l) + y;
        assert(z == (x * nbp + q) * l + r) by (nonlinear_arith)
            requires
                z == x * (nbp * l) + y,
                y == l * q + r,
        ;
        lemma_fundamental_div_mod_converse(z, l, x * nbp + q, r);
        lemma_unravel_concat(a, bp, x, q);
        assert(unravel(a + b, z) == unravel(a + bp, x * nbp + q).push(r));
        assert(unravel(b, y) == unravel(bp, q).push(r));
        assert((unravel(a, x) + unravel(bp, q)).push(r) =~= unravel(a, x) + unravel(bp, q).push(r));
    }
}


/// Mixed-radix digits: `(a * k + b) * i + c` splits back into `a`, `b`
/// and `c` when `b < k` and `c < i`.
pub proof fn lemma_mixed_radix(a: int, b: int, c: int, k: int, i: int)
    requires
        0 <= a,
        0 <= b < k,
        0 <= c < i,
    ensures
        ((a * k + b) * i + c) / i == a * k + b,
        ((a * k + b) * i + c) % i == c,
        (a * k + b) / k == a,
        (a * k + b) % k == b,
{
    lemma_fundamental_div_mod_converse((a * k + b) * i + c, i, a * k + b, c);
    lemma_fundamental_div_mod_converse(a * k + b, k, a, b);
}

/// Mixed-radix numbers are unique: equal numbers have equal digits.
pub proof fn lemma_mixed_radix_unique(a: int, b: int, c: int, a2: int, b2: int, c2: int, k: int, i: int)
    requires
        0 <= a,
        0 <= b < k,
        0 <= c < i,
        0 <= a2,
        0 <= b2 < k,
        0 <= c2 < i,
        (a * k + b) * i + c == (a2 * k + b2) * i + c2,
    ensures
        a == a2,
        b == b2,
        c == c2,
{
    lemma_mixed_radix(a, b, c, k, i);
    lemma_mixed_radix(a2, b2, c2, k, i);
}

/// Element `(o * d + k) * numel(suf) + j` of `pre ++ [d] ++ suf` sits at
/// the coordinates of `o` in `pre`, then `k`, then those of `j` in `suf`.
pub proof fn lemma_unravel_split(pre: Seq<usize>, d: usize, suf: Seq<usize>, o: int, k: int, j: int)
    requires
        0 <= o < numel_of(pre),
        0 <= k < d,
        0 <= j < numel_of(suf),
    ensures
        numel_of(pre + seq![d] + suf) == numel_of(pre) * d * numel_of(suf),
        unravel(pre + seq![d] + suf, (o * d + k) * numel_of(suf) + j) == unravel(pre, o) + seq![k]
            + unravel(suf, j),
{
    let mid = pre + seq![d];
    assert(mid.drop_last() =~= pre);
    assert(numel_of(mid) == numel_of(pre) * d);
    lemma_numel_concat(mid, suf);
    assert(0 <= o * d + k < numel_of(pre) * d) by (nonlinear_arith)
        requires
            0 <= o < numel_of(pre),
            0 <= k < d,
    ;
    lemma_unravel_concat(mid, suf, o * d + k, j);
    let one = seq![d];
    assert(one.drop_last() =~= Seq::<usize>::empty());
    assert(numel_of(Seq::<usize>::empty()) == 1);
    assert(numel_of(one) == 1 * d);
    lemma_unravel_concat(pre, one, o, k);
    lemma_fundamental_div_mod_converse(k, d as int, 0, k);
    assert(unravel(one, k) == unravel(Seq::<usize>::empty(), k / (d as int)).push(k % (d as int)));
    assert(unravel(one, k) =~= seq![k]);
}


/// A concatenation holds exactly the elements of its parts.
pub proof fn lemma_concat_contains<A>(a: Seq<A>, b: Seq<A>)
    ensures
        forall|c: A| #[trigger] (a + b).contains(c) <==> a.contains(c) || b.contains(c),
{
    assert forall|c: A| #[trigger] (a + b).contains(c) <==> a.contains(c) || b.contains(c) by {
        if (a + b).contains(c) {
            let i = choose|i: int| 0 <= i < (a + b).len() && (a + b)[i] == c;
            if i >= a.len() {
                assert(b[i - a.len()] == c);
            }
        }
        if a.contains(c) {
            let i = choose|i: int| 0 <= i < a.len() && a[i] == c;
            assert((a + b)[i] == c);
        }
        if b.contains(c) {
            let i = choose|i: int| 0 <= i < b.len() && b[i] == c;
            assert((a + b)[a.len() + i] == c);
        }
    }
}

} // verus!
