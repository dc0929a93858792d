//! Strided offset iteration: walk a layout's storage offsets in logical
//! (row-major) order, starting from any linear position.
use crate::index::{
    lemma_linear, lemma_numel_pos, lemma_offset_sum_update, lemma_succ_unravel, lemma_unravel,
    lemma_unravel_zero, linear, numel_of, offset_sum, succ, unravel, valid_index, zeros,
};
use crate::layout::{as_coord, lemma_offset_sum_zero_coords, Layout};
use crate::shape::copy_usizes;
use vstd::arithmetic::div_mod::lemma_mod_bound;
use vstd::prelude::*;

verus! {

/// The storage offset of the `x`-th element, in logical order, of the
/// layout with extents `dims`, steps `strides` and base offset `base`.
pub open spec fn walk_addr(dims: Seq<usize>, strides: Seq<isize>, base: int, x: int) -> int {
    base + offset_sum(strides, unravel(dims, x))
}

/// Every element of the described layout lies in `0..=isize::MAX`.
pub open spec fn addresses_fit(dims: Seq<usize>, strides: Seq<isize>, base: int) -> bool {
    forall|c: Seq<int>|
        #[trigger] valid_index(dims, c) ==> 0 <= base + offset_sum(strides, c) <= isize::MAX
}

/// An odometer over a layout, yielding storage offsets in logical order.
pub struct OffsetWalker {
    dims: Vec<usize>,
    strides: Vec<isize>,
    coords: Vec<usize>,
    offset: isize,
    base: Ghost<int>,
}

impl OffsetWalker {
    /// The extents walked.
    pub closed spec fn dims_view(&self) -> Seq<usize> {
        self.dims@
    }

    /// The steps walked.
    pub closed spec fn strides_view(&self) -> Seq<isize> {
        self.strides@
    }

    /// The storage offset of the first element.
    pub closed spec fn base(&self) -> int {
        self.base@
    }

    /// The logical position of the element the next call yields.
    pub closed spec fn position(&self) -> int {
        linear(self.dims@, as_coord(self.coords@))
    }

    /// The walker is positioned on a valid element of a layout whose
    /// elements all fit in `isize`.
    pub closed spec fn wf(&self) -> bool {
        &&& self.dims@.len() == self.strides@.len()
        &&& self.coords@.len() == self.dims@.len()
        &&& numel_of(self.dims@) > 0
        &&& valid_index(self.dims@, as_coord(self.coords@))
        &&& self.offset as int == self.base@ + offset_sum(self.strides@, as_coord(self.coords@))
        &&& addresses_fit(self.dims@, self.strides@, self.base@)
    }

    /// A walker positioned at linear index `start` of `layout`.
    pub fn at(layout: &Layout, start: usize) -> (r: Self)
        requires
            layout.within(isize::MAX + 1),
            start < numel_of(layout.shape@),
        ensures
            r.wf(),
            r.dims_view() == layout.shape@,
            r.strides_view() == layout.strides@,
            r.base() == layout.offset,
            r.position() == start,
    {
        let dims = copy_usizes(layout.shape.dims());
        let strides = copy_isizes(layout.strides.values());
        let n = dims.len();
        proof {
            lemma_numel_pos(dims@);
            assert forall|c: Seq<int>| #[trigger] valid_index(dims@, c) implies 0 <= layout.offset
                + offset_sum(strides@, c) <= isize::MAX by {
                assert(layout.addr(c) == layout.offset + offset_sum(strides@, c));
            }
        }
        let mut coords: Vec<usize> = Vec::new();
        let mut z: usize = 0;
        while z < n
            invariant
                z <= n,
                coords@.len() == z,
                forall|j: int| 0 <= j < z ==> #[trigger] coords@[j] == 0,
            decreases n - z,
        {
            coords.push(0);
            z += 1;
        }
        let ghost base = layout.offset as int;
        proof {
            assert(valid_index(dims@, as_coord(coords@))) by {
                assert forall|j: int| 0 <= j < n implies 0 <= #[trigger] as_coord(coords@)[j] < dims@[j] as int by {}
            }
            lemma_offset_sum_zero_coords(strides@, as_coord(coords@));
        }
        let mut offset: isize = layout.offset as isize;
        let mut rem: usize = start;
        let mut k: usize = n;
        proof {
            assert(dims@.take(n as int) =~= dims@);
            assert(as_coord(coords@).skip(n as int) =~= Seq::<int>::empty());
        }
        while k > 0
            invariant
                k <= n,
                n == dims@.len(),
                n == strides@.len(),
                dims@ == layout.shape@,
                strides@ == layout.strides@,
                coords@.len() == n,
                forall|j: int| 0 <= j < n ==> #[trigger] dims@[j] > 0,
                forall|j: int| 0 <= j < k ==> #[trigger] coords@[j] == 0,
                valid_index(dims@, as_coord(coords@)),
                offset as int == base + offset_sum(strides@, as_coord(coords@)),
                addresses_fit(dims@, strides@, base),
                unravel(dims@, start as int) == unravel(dims@.take(k as int), rem as int) + as_coord(
                    coords@,
                ).skip(k as int),
            decreases k,
        {
            let j = k - 1;
            let d = dims[j];
            let c = rem % d;
            proof {
                lemma_mod_bound(rem as int, d as int);
                let dk = dims@.take(k as int);
                assert(dk.drop_last() =~= dims@.take(j as int));
                assert(dk.last() == d);
                assert(unravel(dk, rem as int) == unravel(dims@.take(j as int), (rem / d) as int).push(
                    c as int,
                ));
            }
            let ghost old_c = as_coord(coords@);
            let ghost new_c = old_c.update(j as int, c as int);
            proof {
                lemma_offset_sum_update(strides@, old_c, j as int, c as int);
                assert(valid_index(dims@, new_c));
                assert(0 <= base + offset_sum(strides@, new_c) <= isize::MAX);
                assert(0 <= base + offset_sum(strides@, old_c) <= isize::MAX);
            }
            let s = strides[j];
            if c != 0 && s != 0 {
                proof {
                    let x = c as int;
                    let t = s as int;
                    assert(x * t == offset_sum(strides@, new_c) - offset_sum(strides@, old_c));
                    assert(x <= isize::MAX) by (nonlinear_arith)
                        requires
                            x > 0,
                            t != 0,
                            -isize::MAX <= x * t <= isize::MAX,
                    ;
                }
                offset = offset + (c as isize) * s;
            } else {
                proof {
                    assert((c as int) * (s as int) == 0) by (nonlinear_arith)
                        requires
                            c == 0 || s == 0,
                    ;
                }
            }
            rem = rem / d;
            coords.set(j, c);
            proof {
                assert(as_coord(coords@) =~= new_c);
                assert(as_coord(coords@).skip(j as int) =~= seq![c as int] + old_c.skip(k as int));
            }
            k = j;
        }
        proof {
            assert(dims@.take(0) =~= Seq::<usize>::empty());
            assert(as_coord(coords@).skip(0) =~= as_coord(coords@));
            lemma_unravel(dims@, start as int);
        }
        OffsetWalker { dims, strides, coords, offset, base: Ghost(base) }
    }

    /// The current storage offset; advances the walker by one element,
    /// wrapping to the first element after the last.
    pub fn next_offset(&mut self) -> (r: usize)
        requires
            old(self).wf(),
        ensures
            final(self).wf(),
            final(self).dims_view() == old(self).dims_view(),
            final(self).strides_view() == old(self).strides_view(),
            final(self).base() == old(self).base(),
            r == walk_addr(
                old(self).dims_view(),
                old(self).strides_view(),
                old(self).base(),
                old(self).position(),
            ),
            final(self).position() == next_position(
                old(self).position() as int,
                numel_of(old(self).dims_view()) as int,
            ),
    {
        let ghost d0 = self.dims@;
        let ghost s0 = self.strides@;
        let ghost b = self.base@;
        let ghost c0 = as_coord(self.coords@);
        let ghost pos = linear(d0, c0);
        proof {
            lemma_linear(d0, c0);
        }
        let current = self.offset as usize;
        let n = self.dims.len();
        let mut d: usize = n;
        let mut done = false;
        proof {
            assert(d0.take(n as int) =~= d0);
            assert(c0.take(n as int) =~= c0);
            assert(succ(d0, c0) =~= succ(d0.take(n as int), c0.take(n as int)) + zeros(0));
        }
        while d > 0 && !done
            invariant
                d <= n,
                n == d0.len(),
                self.dims@ == d0,
                self.strides@ == s0,
                self.base@ == b,
                self.coords@.len() == n,
                s0.len() == n,
                c0.len() == n,
                valid_index(d0, c0),
                valid_index(d0, as_coord(self.coords@)),
                addresses_fit(d0, s0, b),
                self.offset as int == b + offset_sum(s0, as_coord(self.coords@)),
                done ==> as_coord(self.coords@) =~= succ(d0, c0),
                !done ==> forall|j: int| 0 <= j < d ==> #[trigger] as_coord(self.coords@)[j] == c0[j],
                !done ==> forall|j: int| d <= j < n ==> #[trigger] as_coord(self.coords@)[j] == 0,
                !done ==> succ(d0, c0) == succ(d0.take(d as int), c0.take(d as int)) + zeros(
                    (n - d) as nat,
                ),
            decreases (if done {
                0int
            } else {
                1int
            }) + d,
        {
            let j = d - 1;
            let ghost cur = as_coord(self.coords@);
            proof {
                let dd = d0.take(d as int);
                let cd = c0.take(d as int);
                assert(dd.drop_last() =~= d0.take(j as int));
                assert(cd.drop_last() =~= c0.take(j as int));
                assert(dd.last() == d0[j as int]);
                assert(cd.last() == c0[j as int]);
                assert(cur[j as int] == c0[j as int]);
            }
            if self.coords[j] + 1 < self.dims[j] {
                let ghost next = cur.update(j as int, cur[j as int] + 1);
                proof {
                    lemma_offset_sum_update(s0, cur, j as int, cur[j as int] + 1);
                    let one = cur[j as int] + 1 - cur[j as int];
                    assert(one == 1);
                    assert(one * (s0[j as int] as int) == s0[j as int]) by (nonlinear_arith)
                        requires
                            one == 1,
                    ;
                    assert(valid_index(d0, next));
                    assert(0 <= b + offset_sum(s0, next) <= isize::MAX);
                    assert(self.offset + s0[j as int] == b + offset_sum(s0, next));
                }
                let v = self.coords[j] + 1;
                self.coords.set(j, v);
                self.offset = self.offset + self.strides[j];
                done = true;
                proof {
                    assert(as_coord(self.coords@) =~= next);
                    let sd = succ(d0.take(d as int), c0.take(d as int));
                    assert(sd == c0.take(j as int).push(c0[j as int] + 1));
                    assert(as_coord(self.coords@) =~= sd + zeros((n - d) as nat));
                }
            } else {
                let ghost next = cur.update(j as int, 0);
                proof {
                    lemma_offset_sum_update(s0, cur, j as int, 0);
                    assert(valid_index(d0, next));
                    assert(0 <= b + offset_sum(s0, next) <= isize::MAX);
                    assert(0 <= b + offset_sum(s0, cur) <= isize::MAX);
                }
                let s = self.strides[j];
                let cj = self.coords[j];
                if s != 0 && cj != 0 {
                    proof {
                        let x = cj as int;
                        let t = s as int;
                        assert(cur[j as int] == x);
                        assert((0 - x) * t == -(x * t)) by (nonlinear_arith);
                        assert(x * t == offset_sum(s0, cur) - offset_sum(s0, next));
                        assert(x <= isize::MAX) by (nonlinear_arith)
                            requires
                                x > 0,
                                t != 0,
                                -isize::MAX <= x * t <= isize::MAX,
                        ;
                    }
                    self.offset = self.offset - (cj as isize) * s;
                } else {
                    proof {
                        assert(cur[j as int] == cj);
                        assert((0 - cj as int) * (s as int) == 0) by (nonlinear_arith)
                            requires
                                cj == 0 || s == 0,
                        ;
                    }
                }
                self.coords.set(j, 0);
                proof {
                    assert(as_coord(self.coords@) =~= next);
                    let sd = succ(d0.take(d as int), c0.take(d as int));
                    assert(sd == succ(d0.take(j as int), c0.take(j as int)).push(0));
                    assert(zeros((n - j) as nat) =~= seq![0int] + zeros((n - d) as nat));
                    assert(succ(d0.take(j as int), c0.take(j as int)).push(0) + zeros((n - d) as nat)
                        =~= succ(d0.take(j as int), c0.take(j as int)) + zeros((n - j) as nat));
                }
                d = j;
            }
        }
        proof {
            if !done {
                assert(d0.take(0) =~= Seq::<usize>::empty());
                assert(c0.take(0) =~= Seq::<int>::empty());
                assert(as_coord(self.coords@) =~= succ(d0, c0));
            }
            lemma_succ_unravel(d0, pos);
            if pos + 1 < numel_of(d0) {
                lemma_unravel(d0, pos + 1);
            } else {
                lemma_unravel_zero(d0);
                lemma_unravel(d0, 0);
            }
        }
        current
    }
}

/// An element-for-element copy of a list of steps.
pub fn copy_isizes(v: &[isize]) -> (r: Vec<isize>)
    ensures
        r@ == v@,
{
    let mut out: Vec<isize> = Vec::new();
    let mut i: usize = 0;
    while i < v.len()
        invariant
            i <= v.len(),
            out@ =~= v@.take(i as int),
        decreases v.len() - i,
    {
        out.push(v[i]);
        i += 1;
    }
    assert(v@.take(v.len() as int) =~= v@);
    out
}

/// Where a walker over `n` elements stands after one step from `p`: the
/// next element, or the first after the last.
pub open spec fn next_position(p: int, n: int) -> int {
    if p + 1 < n {
        p + 1
    } else {
        0
    }
}

/// Repeated calls of [`OffsetWalker::next_offset`] cycle through the
/// elements: from `start`, the position after `k` calls (each one step
/// of `next_position`, as `next_offset` ensures) is `(start + k) mod n`,
/// so the `k + 1`-th call reads element `(start + k) mod n`.
pub proof fn law_walk_wraps(start: int, n: int, ps: Seq<int>)
    requires
        0 <= start < n,
        ps.len() >= 1,
        ps[0] == start,
        forall|i: int| 0 <= i < ps.len() - 1 ==> #[trigger] ps[i + 1] == next_position(ps[i], n),
    ensures
        forall|k: int| 0 <= k < ps.len() ==> #[trigger] ps[k] == (start + k) % n,
{
    assert forall|k: int| 0 <= k < ps.len() implies #[trigger] ps[k] == (start + k) % n by {
        lemma_walk_position(start, n, ps, k);
    }
}

proof fn lemma_walk_position(start: int, n: int, ps: Seq<int>, k: int)
    requires
        0 <= start < n,
        0 <= k < ps.len(),
        ps[0] == start,
        forall|i: int| 0 <= i < ps.len() - 1 ==> #[trigger] ps[i + 1] == next_position(ps[i], n),
    ensures
        ps[k] == (start + k) % n,
    decreases k,
{
    if k == 0 {
        vstd::arithmetic::div_mod::lemma_fundamental_div_mod_converse(start, n, 0, start);
    } else {
        lemma_walk_position(start, n, ps, k - 1);
        let a = start + k - 1;
        let prev = ps[k - 1];
        assert(ps[(k - 1) + 1] == next_position(prev, n));
        vstd::arithmetic::div_mod::lemma_fundamental_div_mod(a, n);
        let q = a / n;
        assert(0 <= prev < n) by {
            vstd::arithmetic::div_mod::lemma_mod_bound(a, n);
        }
        assert(prev == a % n);
        assert(a == q * n + prev) by (nonlinear_arith)
            requires
                a == n * q + prev,
        ;
        if prev + 1 < n {
            vstd::arithmetic::div_mod::lemma_fundamental_div_mod_converse(a + 1, n, q, prev + 1);
        } else {
            assert(a + 1 == (q + 1) * n + 0) by (nonlinear_arith)
                requires
                    a == q * n + prev,
                    prev + 1 == n,
            ;
            vstd::arithmetic::div_mod::lemma_fundamental_div_mod_converse(a + 1, n, q + 1, 0);
        }
    }
}

} // verus!
