//! The row-wise plan of an elementwise binary op: the output is walked
//! one innermost row at a time, and within a row each operand is either a
//! run of consecutive elements (inner stride 1) or one value read again
//! (inner stride 0, a broadcast).
use crate::index::{lemma_numel_pos, lemma_unravel, numel_of, offset_sum, unravel, valid_index};
use crate::layout::Layout;
use crate::shape::{checked_numel, copy_usizes, sub_usizes, Shape, Strides};
use crate::walker::{walk_addr, OffsetWalker};
use vstd::prelude::*;

verus! {

/// A row plan over operand layouts `a` and `b` of one shape.
#[derive(Debug)]
pub struct RowPlan {
    /// The length of every row: the innermost extent.
    pub inner: usize,
    /// The number of rows.
    pub rows: usize,
    /// `a` without its innermost dimension: where each row starts.
    pub a_outer: Layout,
    /// `b` without its innermost dimension.
    pub b_outer: Layout,
    /// `a`'s innermost stride, 1 or 0.
    pub a_step: usize,
    /// `b`'s innermost stride, 1 or 0.
    pub b_step: usize,
}

/// A layout's innermost stride steps by one element or not at all.
pub open spec fn row_stride(l: Layout) -> bool {
    let s = l.strides@;
    s.len() > 0 && (s.last() == 0 || s.last() == 1)
}

impl RowPlan {
    /// The plan describes operands `a` and `b` of shape `shape`.
    pub open spec fn plans(&self, shape: Seq<usize>, a: Layout, b: Layout) -> bool {
        &&& shape.len() > 0
        &&& self.inner == shape.last()
        &&& self.inner > 0
        &&& self.rows == numel_of(shape.drop_last())
        &&& self.a_outer.shape@ == shape.drop_last()
        &&& self.a_outer.strides@ == a.strides@.drop_last()
        &&& self.a_outer.offset == a.offset
        &&& self.b_outer.shape@ == shape.drop_last()
        &&& self.b_outer.strides@ == b.strides@.drop_last()
        &&& self.b_outer.offset == b.offset
        &&& self.a_step == a.strides@.last()
        &&& self.b_step == b.strides@.last()
        &&& self.a_step <= 1
        &&& self.b_step <= 1
    }

    /// The plan for operand layouts `a` and `b` of shape `shape`, or
    /// `None` when one of them is strided along the innermost dimension
    /// (a transposed view), the shape is rank 0 or has no elements, or the
    /// row count does not fit in `usize`.
    pub fn new(shape: &Shape, a: &Layout, b: &Layout) -> (r: Option<RowPlan>)
        requires
            a.wf(),
            b.wf(),
            a.shape@ == shape@,
            b.shape@ == shape@,
        ensures
            r is Some <==> shape@.len() > 0 && (forall|i: int|
                0 <= i < shape@.len() ==> #[trigger] shape@[i] != 0) && row_stride(*a) && row_stride(
                *b,
            ) && numel_of(shape@.drop_last()) <= usize::MAX,
            r matches Some(p) ==> p.plans(shape@, *a, *b),
    {
        let dims = shape.dims();
        let ndim = dims.len();
        if ndim == 0 {
            return None;
        }
        let mut i: usize = 0;
        while i < ndim
            invariant
                i <= ndim,
                ndim == dims@.len(),
                dims@ == shape@,
                forall|k: int| 0 <= k < i ==> #[trigger] dims@[k] != 0,
            decreases ndim - i,
        {
            if dims[i] == 0 {
                assert(shape@[i as int] == 0);
                return None;
            }
            i += 1;
        }
        let inner = dims[ndim - 1];
        let sa = a.strides.values()[ndim - 1];
        let sb = b.strides.values()[ndim - 1];
        if !(sa == 0 || sa == 1) || !(sb == 0 || sb == 1) {
            return None;
        }
        let outer_dims = sub_usizes(dims, 0, ndim - 1);
        let rows = match checked_numel(outer_dims.as_slice()) {
            Some(x) => x,
            None => {
                proof {
                    assert(outer_dims@ =~= shape@.drop_last());
                }
                return None;
            },
        };
        let a_strides = crate::walker::copy_isizes(a.strides.values());
        let b_strides = crate::walker::copy_isizes(b.strides.values());
        let a_outer_strides = sub_isizes(a_strides.as_slice(), ndim - 1);
        let b_outer_strides = sub_isizes(b_strides.as_slice(), ndim - 1);
        proof {
            assert(outer_dims@ =~= shape@.drop_last());
            assert(a_outer_strides@ =~= a.strides@.drop_last());
            assert(b_outer_strides@ =~= b.strides@.drop_last());
        }
        Some(
            RowPlan {
                inner,
                rows,
                a_outer: Layout {
                    shape: Shape::new(copy_usizes(outer_dims.as_slice())),
                    strides: Strides::new(a_outer_strides),
                    offset: a.offset,
                },
                b_outer: Layout {
                    shape: Shape::new(outer_dims),
                    strides: Strides::new(b_outer_strides),
                    offset: b.offset,
                },
                a_step: sa as usize,
                b_step: sb as usize,
            },
        )
    }

    /// `f` applied to the two operands element by element in logical
    /// order, row by row: output element `x` is `f` of the elements of `a`
    /// (read from `asrc`) and `b` (from `bsrc`) at coordinate `x` of the
    /// shape, so the row walk computes what walking every element would.
    pub fn run<T: Copy, F: Fn(T, T) -> T>(
        &self,
        asrc: &[T],
        bsrc: &[T],
        f: &F,
        shape: &Shape,
        a: &Layout,
        b: &Layout,
    ) -> (out: Vec<T>)
        requires
            self.plans(shape@, *a, *b),
            a.shape@ == shape@,
            b.shape@ == shape@,
            a.within(asrc@.len() as int),
            b.within(bsrc@.len() as int),
            forall|x: T, y: T| #[trigger] f.requires((x, y)),
        ensures
            out@.len() == numel_of(shape@),
            forall|x: int|
                0 <= x < numel_of(shape@) ==> #[trigger] f.ensures(
                    (
                        asrc@[a.addr(unravel(shape@, x))],
                        bsrc@[b.addr(unravel(shape@, x))],
                    ),
                    out@[x],
                ),
    {
        let ghost shape = shape@;
        let ghost a = *a;
        let ghost b = *b;
        let inner = self.inner;
        let ghost outer = shape.drop_last();
        proof {
            assert(shape =~= outer.push(inner));
            assert(numel_of(shape) == numel_of(outer) * inner);
        }
        let mut out: Vec<T> = Vec::new();
        if self.rows == 0 {
            proof {
                assert(numel_of(shape) == 0 * inner);
            }
            return out;
        }
        proof {
            assert(numel_of(outer) * inner > 0) by (nonlinear_arith)
                requires
                    numel_of(outer) > 0,
                    inner > 0,
            ;
            lemma_outer_within(shape, a, self.a_outer, asrc@.len() as int);
            lemma_outer_within(shape, b, self.b_outer, bsrc@.len() as int);
        }
        let mut wa = OffsetWalker::at(&self.a_outer, 0);
        let mut wb = OffsetWalker::at(&self.b_outer, 0);
        let mut r: usize = 0;
        while r < self.rows
            invariant
                self.plans(shape, a, b),
                a.shape@ == shape,
                b.shape@ == shape,
                a.within(asrc@.len() as int),
                b.within(bsrc@.len() as int),
                forall|x: T, y: T| #[trigger] f.requires((x, y)),
                inner == self.inner,
                outer == shape.drop_last(),
                numel_of(shape) == numel_of(outer) * inner,
                r <= self.rows,
                wa.wf(),
                wb.wf(),
                wa.dims_view() == outer,
                wb.dims_view() == outer,
                wa.strides_view() == a.strides@.drop_last(),
                wb.strides_view() == b.strides@.drop_last(),
                wa.base() == a.offset,
                wb.base() == b.offset,
                r < self.rows ==> wa.position() == r && wb.position() == r,
                out@.len() == r * inner,
                forall|x: int|
                    0 <= x < out@.len() ==> #[trigger] f.ensures(
                        (
                            asrc@[a.addr(unravel(shape, x))],
                            bsrc@[b.addr(unravel(shape, x))],
                        ),
                        out@[x],
                    ),
            decreases self.rows - r,
        {
            let oa = wa.next_offset();
            let ob = wb.next_offset();
            let mut j: usize = 0;
            while j < inner
                invariant
                    self.plans(shape, a, b),
                    a.shape@ == shape,
                    b.shape@ == shape,
                    a.within(asrc@.len() as int),
                    b.within(bsrc@.len() as int),
                    forall|x: T, y: T| #[trigger] f.requires((x, y)),
                    inner == self.inner,
                    outer == shape.drop_last(),
                    numel_of(shape) == numel_of(outer) * inner,
                    r < self.rows,
                    oa == walk_addr(outer, a.strides@.drop_last(), a.offset as int, r as int),
                    ob == walk_addr(outer, b.strides@.drop_last(), b.offset as int, r as int),
                    j <= inner,
                    out@.len() == r * inner + j,
                    forall|x: int|
                        0 <= x < out@.len() ==> #[trigger] f.ensures(
                            (
                                asrc@[a.addr(unravel(shape, x))],
                                bsrc@[b.addr(unravel(shape, x))],
                            ),
                            out@[x],
                        ),
                decreases inner - j,
            {
                let ghost x = r * inner + j;
                proof {
                    lemma_row_address(shape, a, r as int, j as int);
                    lemma_row_address(shape, b, r as int, j as int);
                    assert(r * inner + j < numel_of(outer) * inner) by (nonlinear_arith)
                        requires
                            r < numel_of(outer),
                            j < inner,
                    ;
                    let u = unravel(shape, x);
                    assert(numel_of(shape) > 0);
                    assert(valid_index(a.shape@, u));
                    assert(0 <= a.addr(u) < asrc@.len());
                    assert(0 <= b.addr(u) < bsrc@.len());
                    assert(a.addr(u) == oa + j * self.a_step);
                    assert(b.addr(u) == ob + j * self.b_step);
                    assert(self.a_step == 0 ==> j * self.a_step == 0) by (nonlinear_arith);
                    assert(self.a_step == 1 ==> j * self.a_step == j) by (nonlinear_arith);
                    assert(self.b_step == 0 ==> j * self.b_step == 0) by (nonlinear_arith);
                    assert(self.b_step == 1 ==> j * self.b_step == j) by (nonlinear_arith);
                }
                let xa = if self.a_step == 1 {
                    asrc[oa + j]
                } else {
                    asrc[oa]
                };
                let xb = if self.b_step == 1 {
                    bsrc[ob + j]
                } else {
                    bsrc[ob]
                };
                proof {
                    let u = unravel(shape, x);
                    assert(a.addr(u) == oa + j * self.a_step);
                    assert(b.addr(u) == ob + j * self.b_step);
                    assert(xa == asrc@[a.addr(u)]);
                    assert(xb == bsrc@[b.addr(u)]);
                }
                let v = f(xa, xb);
                let ghost before = out@;
                out.push(v);
                proof {
                    assert forall|y: int| 0 <= y < out@.len() implies #[trigger] f.ensures(
                        (asrc@[a.addr(unravel(shape, y))], bsrc@[b.addr(unravel(shape, y))]),
                        out@[y],
                    ) by {
                        if y < before.len() {
                            assert(out@[y] == before[y]);
                        }
                    }
                }
                j += 1;
            }
            proof {
                assert(r * inner + inner == (r + 1) * inner) by (nonlinear_arith);
            }
            r += 1;
        }
        proof {
            assert(out@.len() == numel_of(shape));
        }
        out
    }
}

/// Every stride but the last.
fn sub_isizes(v: &[isize], hi: usize) -> (r: Vec<isize>)
    requires
        hi <= v@.len(),
    ensures
        r@ == v@.take(hi as int),
{
    let mut out: Vec<isize> = Vec::new();
    let mut i: usize = 0;
    while i < hi
        invariant
            i <= hi <= v@.len(),
            out@ =~= v@.take(i as int),
        decreases hi - i,
    {
        out.push(v[i]);
        i += 1;
    }
    out
}

/// The rows' start layout addresses only elements of the full layout (the
/// first element of each row).
proof fn lemma_outer_within(shape: Seq<usize>, l: Layout, o: Layout, len: int)
    requires
        shape.len() > 0,
        numel_of(shape) > 0,
        l.shape@ == shape,
        l.within(len),
        o.shape@ == shape.drop_last(),
        o.strides@ == l.strides@.drop_last(),
        o.offset == l.offset,
        numel_of(shape.drop_last()) <= usize::MAX,
    ensures
        o.within(isize::MAX + 1),
{
    let outer = shape.drop_last();
    assert(shape =~= outer.push(shape.last()));
    assert(numel_of(shape) == numel_of(outer) * (shape.last() as nat));
    lemma_numel_pos(shape);
    assert(shape[shape.len() - 1] > 0);
    assert forall|c: Seq<int>| #[trigger] valid_index(outer, c) implies 0 <= o.addr(c) < isize::MAX + 1
        && o.addr(c) <= isize::MAX by {
        let c2 = c.push(0);
        assert(valid_index(shape, c2)) by {
            assert forall|i: int| 0 <= i < c2.len() implies 0 <= #[trigger] c2[i] < shape[i] as int by {
                if i < c.len() {
                    assert(c2[i] == c[i]);
                }
            }
        }
        assert(c2.drop_last() =~= c);
        assert(offset_sum(l.strides@, c2) == offset_sum(l.strides@.drop_last(), c) + 0 * (
        l.strides@.last() as int));
    }
}

/// The element at position `j` of row `r` is the row's start plus `j`
/// innermost steps.
proof fn lemma_row_address(shape: Seq<usize>, l: Layout, r: int, j: int)
    requires
        shape.len() > 0,
        l.wf(),
        l.shape@ == shape,
        0 <= r < numel_of(shape.drop_last()),
        0 <= j < shape.last(),
    ensures
        l.addr(unravel(shape, r * shape.last() + j)) == walk_addr(
            shape.drop_last(),
            l.strides@.drop_last(),
            l.offset as int,
            r,
        ) + j * (l.strides@.last() as int),
        valid_index(shape, unravel(shape, r * shape.last() + j)),
        0 <= r * shape.last() + j < numel_of(shape),
{
    let d = shape.last() as int;
    let outer = shape.drop_last();
    let x = r * d + j;
    assert(shape =~= outer.push(shape.last()));
    assert(numel_of(shape) == numel_of(outer) * (d as nat));
    assert(0 <= x < numel_of(outer) * d) by (nonlinear_arith)
        requires
            0 <= r < numel_of(outer),
            0 <= j < d,
            x == r * d + j,
    ;
    vstd::arithmetic::div_mod::lemma_fundamental_div_mod_converse(x, d, r, j);
    let u = unravel(shape, x);
    assert(u == unravel(outer, r).push(j));
    crate::index::lemma_unravel_len(outer, r);
    assert(u.drop_last() =~= unravel(outer, r));
    lemma_unravel(shape, x);
}

} // verus!
