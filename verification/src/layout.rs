//! Layouts: a shape read through strides from a base offset. Every view
//! operation is a layout computation; this module states what each one
//! addresses.
use crate::error::{Error, Issue};
use crate::index::{
    is_row_major, lemma_offset_extremes, lemma_offset_sum_split, lemma_offset_sum_termwise,
    lemma_offset_sum_update, lemma_offset_sum_zero, max_coord, min_coord, numel_of, offset_sum,
    valid_index,
};
use crate::shape::{checked_numel, contiguous_strides, copy_usizes, Shape, Strides};
use vstd::prelude::*;

verus! {

/// A view of storage: element `c` of `shape` lives at storage offset
/// `offset + Σ c[i] * strides[i]`.
#[derive(Debug, PartialEq, Eq)]
pub struct Layout {
    /// The logical extents.
    pub shape: Shape,
    /// The per-dimension steps.
    pub strides: Strides,
    /// The storage offset of the first element.
    pub offset: usize,
}

/// A list of extents as integer coordinates.
pub open spec fn as_coord(v: Seq<usize>) -> Seq<int> {
    Seq::new(v.len(), |i: int| v[i] as int)
}

impl Layout {
    /// One stride per dimension.
    pub open spec fn wf(&self) -> bool {
        self.shape@.len() == self.strides@.len()
    }

    /// The storage offset of coordinate `c`.
    pub open spec fn addr(&self, c: Seq<int>) -> int {
        self.offset + offset_sum(self.strides@, c)
    }

    /// Every element this layout addresses lies in `0..len` (and fits in
    /// `isize`), and its element count fits in `usize`.
    pub open spec fn within(&self, len: int) -> bool {
        &&& self.wf()
        &&& numel_of(self.shape@) <= usize::MAX
        &&& numel_of(self.shape@) > 0 ==> forall|c: Seq<int>|
            #[trigger] valid_index(self.shape@, c) ==> 0 <= self.addr(c) < len && self.addr(c)
                <= isize::MAX
    }

    /// The layout is the same view as `other`.
    pub open spec fn same_as(&self, other: &Layout) -> bool {
        &&& self.shape@ == other.shape@
        &&& self.strides@ == other.strides@
        &&& self.offset == other.offset
    }

    /// A copy of this layout.
    pub fn copy(&self) -> (r: Layout)
        ensures
            r.same_as(self),
    {
        Layout { shape: self.shape.clone(), strides: self.strides.clone(), offset: self.offset }
    }

    /// The row-major layout of `shape` at offset 0, or `ShapeOverflow` when
    /// a row-major stride does not fit in `isize`.
    pub fn contiguous(shape: Shape) -> (r: Result<Layout, Error>)
        ensures
            r matches Err(e) ==> crate::error::names_op(e, "layout"@),
            r matches Ok(l) ==> l.shape@ == shape@ && is_row_major(shape@, l.strides@) && l.offset
                == 0,
            r is Err ==> exists|i: int|
                0 <= i < shape@.len() && #[trigger] crate::index::cstride(shape@, i) > isize::MAX,
            r matches Err(e) ==> e is ShapeOverflow,
    {
        match contiguous_strides(&shape) {
            Some(strides) => Ok(Layout { shape, strides, offset: 0 }),
            None => Err(Error::ShapeOverflow { dims: copy_usizes(shape.dims()), op: "layout" }),
        }
    }

    /// Whether the strides are exactly the row-major strides of the shape.
    pub fn is_contiguous(&self) -> (r: bool)
        requires
            self.wf(),
        ensures
            r == is_row_major(self.shape@, self.strides@),
    {
        match contiguous_strides(&self.shape) {
            Some(s) => {
                proof {
                    if is_row_major(self.shape@, self.strides@) {
                        assert(s@ =~= self.strides@);
                    }
                }
                same_isizes(s.values(), self.strides.values())
            },
            None => {
                proof {
                    if is_row_major(self.shape@, self.strides@) {
                        let i = choose|i: int|
                            0 <= i < self.shape@.len() && #[trigger] crate::index::cstride(
                                self.shape@,
                                i,
                            ) > isize::MAX;
                        assert(self.strides@[i] as int == crate::index::cstride(self.shape@, i));
                    }
                }
                false
            },
        }
    }

    /// The rank.
    pub fn ndim(&self) -> (r: usize)
        ensures
            r == self.shape@.len(),
    {
        self.shape.ndim()
    }

    /// The storage offset of a logical index: `RankMismatch` for the wrong
    /// number of coordinates, `IndexOutOfBounds` for a coordinate past its
    /// extent.
    pub fn offset_of(&self, index: &[usize]) -> (r: Result<usize, Error>)
        requires
            self.within(isize::MAX + 1),
        ensures
            r matches Ok(o) ==> valid_index(self.shape@, as_coord(index@)) && o == self.addr(
                as_coord(index@),
            ),
            r matches Err(e) ==> !valid_index(self.shape@, as_coord(index@)) && (if index@.len()
                != self.shape@.len() {
                e matches Error::RankMismatch { index_rank, shape_rank } && index_rank
                    == index@.len() && shape_rank == self.shape@.len()
            } else {
                e matches Error::IndexOutOfBounds { index: i, shape } && i@ == index@ && shape@
                    == self.shape@
            }),
    {
        let dims = self.shape.dims();
        let strides = self.strides.values();
        let n = dims.len();
        if index.len() != n {
            return Err(Error::RankMismatch { index_rank: index.len(), shape_rank: n });
        }
        let ghost c = as_coord(index@);
        let mut k: usize = 0;
        while k < n
            invariant
                k <= n,
                n == index@.len(),
                n == dims@.len(),
                dims@ == self.shape@,
                c == as_coord(index@),
                forall|j: int| 0 <= j < k ==> #[trigger] index@[j] < dims@[j],
            decreases n - k,
        {
            if index[k] >= dims[k] {
                assert(c[k as int] == index@[k as int]);
                return Err(
                    Error::IndexOutOfBounds {
                        index: copy_usizes(index),
                        shape: self.shape.clone(),
                    },
                );
            }
            k += 1;
        }
        assert(valid_index(self.shape@, c));
        let ghost mut cur: Seq<int> = crate::index::zeros(n as nat);
        proof {
            assert forall|j: int| 0 <= j < n implies #[trigger] self.shape@[j] > 0 by {
                assert(0 <= c[j] < self.shape@[j]);
            }
            crate::index::lemma_numel_pos_converse(self.shape@);
            lemma_offset_sum_zero_coords(self.strides@, cur);
            assert(valid_index(self.shape@, cur));
            assert(self.addr(cur) <= isize::MAX);
        }
        let mut acc: isize = self.offset as isize;
        let mut i: usize = 0;
        while i < n
            invariant
                i <= n,
                n == index@.len(),
                dims@ == self.shape@,
                strides@ == self.strides@,
                self.wf(),
                self.within(isize::MAX + 1),
                numel_of(self.shape@) > 0,
                c == as_coord(index@),
                valid_index(self.shape@, c),
                cur.len() == n,
                valid_index(self.shape@, cur),
                forall|j: int| 0 <= j < i ==> #[trigger] cur[j] == c[j],
                forall|j: int| i <= j < n ==> #[trigger] cur[j] == 0,
                acc as int == self.addr(cur),
            decreases n - i,
        {
            let ghost next = cur.update(i as int, c[i as int]);
            proof {
                lemma_offset_sum_update(self.strides@, cur, i as int, c[i as int]);
            }
            let s = strides[i];
            proof {
                assert(valid_index(self.shape@, next)) by {
                    assert forall|j: int| 0 <= j < n implies 0 <= #[trigger] next[j] < self.shape@[j] by {
                        if j == i {
                            assert(0 <= c[j] < self.shape@[j]);
                        } else {
                            assert(0 <= cur[j] < self.shape@[j]);
                        }
                    }
                }
                if !(s != 0 && index[i as int] != 0) {
                    assert(c[i as int] * (s as int) == 0) by (nonlinear_arith)
                        requires
                            c[i as int] == 0 || s == 0,
                    ;
                }
            }
            if s != 0 && index[i] != 0 {
                proof {
                    let x = index@[i as int] as int;
                    let t = s as int;
                    assert(x * t == self.addr(next) - self.addr(cur));
                    assert(x <= isize::MAX) by (nonlinear_arith)
                        requires
                            x > 0,
                            t != 0,
                            -isize::MAX <= x * t <= isize::MAX,
                    ;
                }
                acc = acc + (index[i] as isize) * s;
            }
            proof {
                cur = next;
            }
            i += 1;
        }
        assert(cur =~= c);
        Ok(acc as usize)
    }

    /// `Ok` exactly when the layout addresses only elements of a storage
    /// holding `len` elements (see [`Layout::within`]); otherwise a typed
    /// error: the strides do not match the rank, the element count
    /// overflows, or an element lies outside the storage.
    pub fn check_within(&self, len: usize) -> (r: Result<(), Error>)
        ensures
            r matches Err(e) ==> crate::error::names_op(e, "Tensor::from_storage"@),
            r is Ok <==> self.within(len as int),
            !self.wf() ==> (r matches Err(e) && e matches Error::InvalidArgument {
                issue: Issue::StrideCount { strides, dims },
                ..
            } && strides == self.strides@.len() && dims == self.shape@.len()),
            self.wf() && numel_of(self.shape@) > usize::MAX ==> (r matches Err(e)
                && e is ShapeOverflow),
            self.wf() && numel_of(self.shape@) <= usize::MAX && !self.within(len as int) ==> (
            r matches Err(e) && e matches Error::InvalidArgument {
                issue: Issue::LayoutOutOfBounds { available },
                ..
            } && available == len),
    {
        let dims = self.shape.dims();
        let strides = self.strides.values();
        let n = dims.len();
        if strides.len() != n {
            return Err(
                Error::InvalidArgument {
                    op: "Tensor::from_storage",
                    issue: Issue::StrideCount { strides: strides.len(), dims: n },
                },
            );
        }
        let numel = match checked_numel(dims) {
            Some(v) => v,
            None => {
                return Err(Error::ShapeOverflow { dims: copy_usizes(dims), op: "Tensor::from_storage" });
            },
        };
        if numel == 0 {
            return Ok(());
        }
        proof {
            crate::index::lemma_numel_pos(self.shape@);
        }
        let ghost hi_c = max_coord(self.shape@, self.strides@);
        let ghost lo_c = min_coord(self.shape@, self.strides@);
        let ghost zc = crate::index::zeros(n as nat);
        proof {
            assert(valid_index(self.shape@, zc));
            lemma_offset_extremes(self.shape@, self.strides@, zc);
            lemma_offset_sum_zero_coords(self.strides@, zc);
        }
        let refuse = Error::InvalidArgument {
            op: "Tensor::from_storage",
            issue: Issue::LayoutOutOfBounds { available: len },
        };
        if self.offset > isize::MAX as usize {
            proof {
                assert(!(self.addr(zc) <= isize::MAX));
            }
            return Err(refuse);
        }
        let mut hi: isize = self.offset as isize;
        let mut lo: isize = self.offset as isize;
        let mut i: usize = 0;
        while i < n
            invariant
                i <= n,
                dims@ == self.shape@,
                strides@ == self.strides@,
                self.wf(),
                n == dims@.len(),
                numel_of(self.shape@) > 0,
                forall|j: int| 0 <= j < n ==> #[trigger] dims@[j] > 0,
                hi_c == max_coord(self.shape@, self.strides@),
                lo_c == min_coord(self.shape@, self.strides@),
                hi as int == self.offset + offset_sum(self.strides@.take(i as int), hi_c.take(i as int)),
                lo as int == self.offset + offset_sum(self.strides@.take(i as int), lo_c.take(i as int)),
                valid_index(self.shape@, hi_c),
                valid_index(self.shape@, lo_c),
                self.offset <= isize::MAX,
                numel_of(self.shape@) <= usize::MAX,
                refuse == (Error::InvalidArgument {
                    op: "Tensor::from_storage",
                    issue: Issue::LayoutOutOfBounds { available: len },
                }),
            decreases n - i,
        {
            let d = dims[i];
            let s = strides[i];
            proof {
                lemma_take_step(self.strides@, hi_c, i as int);
                lemma_take_step(self.strides@, lo_c, i as int);
                lemma_extreme_tail(self.shape@, self.strides@, i as int + 1);
            }
            if d > 1 && s != 0 {
                if d - 1 > isize::MAX as usize {
                    proof {
                        let x = d as int - 1;
                        let y = s as int;
                        assert(x * y > isize::MAX || x * y < -isize::MAX) by (nonlinear_arith)
                            requires
                                x > isize::MAX,
                                y != 0,
                        ;
                        lemma_extreme_term(self.shape@, self.strides@, i as int);
                    }
                    return Err(refuse);
                }
                match ((d - 1) as isize).checked_mul(s) {
                    Some(t) => {
                        proof {
                            assert(t as int == (d as int - 1) * (s as int));
                            let x = d as int - 1;
                            let y = s as int;
                            if s > 0 {
                                assert(x * y > 0) by (nonlinear_arith)
                                    requires
                                        x > 0,
                                        y > 0,
                                ;
                                assert(hi_c[i as int] == d as int - 1);
                                assert(lo_c[i as int] == 0);
                            } else {
                                assert(x * y < 0) by (nonlinear_arith)
                                    requires
                                        x > 0,
                                        y < 0,
                                ;
                                assert(lo_c[i as int] == d as int - 1);
                                assert(hi_c[i as int] == 0);
                            }
                        }
                        if s > 0 {
                            match hi.checked_add(t) {
                                Some(v) => {
                                    hi = v;
                                },
                                None => {
                                    return Err(refuse);
                                },
                            }
                        } else {
                            match lo.checked_add(t) {
                                Some(v) => {
                                    lo = v;
                                },
                                None => {
                                    proof {
                                        assert(lo + t < isize::MIN);
                                        assert(offset_sum(self.strides@.take(i + 1), lo_c.take(i + 1))
                                            == offset_sum(self.strides@.take(i as int), lo_c.take(i as int)) + t);
                                        assert(self.addr(lo_c) < 0);
                                    }
                                    return Err(refuse);
                                },
                            }
                        }
                    },
                    None => {
                        proof {
                            lemma_extreme_term(self.shape@, self.strides@, i as int);
                        }
                        return Err(refuse);
                    },
                }
            }
            i += 1;
        }
        proof {
            assert(self.strides@.take(n as int) =~= self.strides@);
            assert(hi_c.take(n as int) =~= hi_c);
            assert(lo_c.take(n as int) =~= lo_c);
        }
        if lo < 0 || hi as usize >= len {
            return Err(refuse);
        }
        proof {
            assert forall|c: Seq<int>| #[trigger] valid_index(self.shape@, c) implies 0 <= self.addr(c)
                < len && self.addr(c) <= isize::MAX by {
                lemma_offset_extremes(self.shape@, self.strides@, c);
            }
        }
        Ok(())
    }
}

/// Whether two lists of steps are equal.
pub fn same_isizes(a: &[isize], b: &[isize]) -> (r: bool)
    ensures
        r == (a@ == b@),
{
    if a.len() != b.len() {
        return false;
    }
    let mut i: usize = 0;
    while i < a.len()
        invariant
            a.len() == b.len(),
            i <= a.len(),
            forall|j: int| 0 <= j < i ==> a@[j] == b@[j],
        decreases a.len() - i,
    {
        if a[i] != b[i] {
            return false;
        }
        i += 1;
    }
    assert(a@ =~= b@);
    true
}

/// The all-zero coordinate sits at the base offset.
pub proof fn lemma_offset_sum_zero_coords(s: Seq<isize>, c: Seq<int>)
    requires
        s.len() == c.len(),
        forall|i: int| 0 <= i < c.len() ==> #[trigger] c[i] == 0,
    ensures
        offset_sum(s, c) == 0,
{
    let z = Seq::new(s.len(), |i: int| 0isize);
    assert forall|i: int| 0 <= i < c.len() implies #[trigger] c[i] * (s[i] as int) == c[i] * (
    z[i] as int) by {}
    lemma_offset_sum_termwise(s, c, z, c);
    lemma_offset_sum_zero(z, c);
}

/// One more dimension of a prefix sum adds its term.
proof fn lemma_take_step(s: Seq<isize>, c: Seq<int>, i: int)
    requires
        s.len() == c.len(),
        0 <= i < c.len(),
    ensures
        offset_sum(s.take(i + 1), c.take(i + 1)) == offset_sum(s.take(i), c.take(i)) + c[i] * (
        s[i] as int),
{
    assert(s.take(i + 1).drop_last() =~= s.take(i));
    assert(c.take(i + 1).drop_last() =~= c.take(i));
}

/// The terms of the maximizing coordinate are nonnegative and those of
/// the minimizing one nonpositive, from position `k` on.
proof fn lemma_extreme_tail(dims: Seq<usize>, s: Seq<isize>, k: int)
    requires
        s.len() == dims.len(),
        0 <= k <= dims.len(),
        forall|j: int| 0 <= j < dims.len() ==> #[trigger] dims[j] > 0,
    ensures
        offset_sum(s.skip(k), max_coord(dims, s).skip(k)) >= 0,
        offset_sum(s.skip(k), min_coord(dims, s).skip(k)) <= 0,
        offset_sum(s, max_coord(dims, s)) == offset_sum(s.take(k), max_coord(dims, s).take(k))
            + offset_sum(s.skip(k), max_coord(dims, s).skip(k)),
        offset_sum(s, min_coord(dims, s)) == offset_sum(s.take(k), min_coord(dims, s).take(k))
            + offset_sum(s.skip(k), min_coord(dims, s).skip(k)),
{
    let hi = max_coord(dims, s);
    let lo = min_coord(dims, s);
    lemma_offset_sum_split(s, hi, k);
    lemma_offset_sum_split(s, lo, k);
    let st = s.skip(k);
    let z = Seq::new(st.len(), |i: int| 0int);
    lemma_offset_sum_zero_coords(st, z);
    assert forall|i: int| 0 <= i < z.len() implies #[trigger] (z[i] * (st[i] as int)) <= hi.skip(
        k,
    )[i] * (st[i] as int) by {
        let x = hi.skip(k)[i];
        let t = st[i] as int;
        assert(x * t >= 0) by (nonlinear_arith)
            requires
                (t > 0 && x >= 0) || x == 0,
        ;
        assert(z[i] * t == 0) by (nonlinear_arith)
            requires
                z[i] == 0,
        ;
    }
    crate::index::lemma_offset_sum_le(st, z, hi.skip(k));
    assert forall|i: int| 0 <= i < z.len() implies #[trigger] (lo.skip(k)[i] * (st[i] as int))
        <= z[i] * (st[i] as int) by {
        let x = lo.skip(k)[i];
        let t = st[i] as int;
        assert(x * t <= 0) by (nonlinear_arith)
            requires
                (t < 0 && x >= 0) || x == 0,
        ;
        assert(z[i] * t == 0) by (nonlinear_arith)
            requires
                z[i] == 0,
        ;
    }
    crate::index::lemma_offset_sum_le(st, lo.skip(k), z);
}

/// A single stride whose span `(d - 1) * s` leaves `isize` already puts
/// an extreme coordinate outside `0..=isize::MAX`.
proof fn lemma_extreme_term(dims: Seq<usize>, s: Seq<isize>, i: int)
    requires
        s.len() == dims.len(),
        0 <= i < dims.len(),
        forall|j: int| 0 <= j < dims.len() ==> #[trigger] dims[j] > 0,
        dims[i] > 1,
        s[i] != 0,
        (dims[i] - 1) * (s[i] as int) > isize::MAX || (dims[i] - 1) * (s[i] as int) < -isize::MAX,
    ensures
        offset_sum(s, max_coord(dims, s)) > isize::MAX || offset_sum(s, min_coord(dims, s))
            < -isize::MAX,
{
    let hi = max_coord(dims, s);
    let lo = min_coord(dims, s);
    let x = dims[i] - 1;
    let y = s[i] as int;
    let t = x * y;
    if y > 0 {
        assert(t > 0) by (nonlinear_arith)
            requires
                x > 0,
                y > 0,
                t == x * y,
        ;
        assert(hi[i] == x);
    } else {
        assert(t < 0) by (nonlinear_arith)
            requires
                x > 0,
                y < 0,
                t == x * y,
        ;
        assert(lo[i] == x);
    }
    lemma_extreme_tail(dims, s, i + 1);
    lemma_take_step(s, hi, i);
    lemma_take_step(s, lo, i);
    // the prefix terms of the maximizer are nonnegative, of the minimizer nonpositive
    lemma_prefix_signs(dims, s, i);
}

/// The terms before position `i` of the maximizer sum to at least 0 and
/// those of the minimizer to at most 0.
proof fn lemma_prefix_signs(dims: Seq<usize>, s: Seq<isize>, i: int)
    requires
        s.len() == dims.len(),
        0 <= i <= dims.len(),
        forall|j: int| 0 <= j < dims.len() ==> #[trigger] dims[j] > 0,
    ensures
        offset_sum(s.take(i), max_coord(dims, s).take(i)) >= 0,
        offset_sum(s.take(i), min_coord(dims, s).take(i)) <= 0,
{
    let dt = dims.take(i);
    let st = s.take(i);
    assert(max_coord(dims, s).take(i) =~= max_coord(dt, st));
    assert(min_coord(dims, s).take(i) =~= min_coord(dt, st));
    lemma_extreme_tail(dt, st, 0);
    assert(st.skip(0) =~= st);
    assert(max_coord(dt, st).skip(0) =~= max_coord(dt, st));
    assert(min_coord(dt, st).skip(0) =~= min_coord(dt, st));
}

} // verus!
