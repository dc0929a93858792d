//! Reading a strided view's elements in logical (row-major) order.
use crate::index::{lemma_numel_pos, lemma_row_major, lemma_unravel, numel_of, unravel};
use crate::layout::Layout;
use crate::walker::OffsetWalker;
use vstd::prelude::*;

verus! {

/// The elements a layout selects from `src`, in logical order.
pub open spec fn logical_values<T>(src: Seq<T>, l: Layout) -> Seq<T> {
    Seq::new(numel_of(l.shape@), |x: int| src[l.addr(unravel(l.shape@, x))])
}

/// A contiguous layout reads the storage run that starts at its offset.
pub proof fn lemma_contiguous_addresses(l: Layout, x: int)
    requires
        l.wf(),
        crate::index::is_row_major(l.shape@, l.strides@),
        0 <= x < numel_of(l.shape@),
    ensures
        l.addr(unravel(l.shape@, x)) == l.offset + x,
{
    lemma_unravel(l.shape@, x);
    lemma_row_major(l.shape@, l.strides@, unravel(l.shape@, x));
}

/// Gather a strided view's elements into logical row-major order. A
/// contiguous view is copied as one run; any other view is walked with an
/// [`OffsetWalker`].
pub fn gather_logical<T: Copy>(src: &[T], layout: &Layout) -> (r: Vec<T>)
    requires
        layout.within(src@.len() as int),
    ensures
        r@ == logical_values(src@, *layout),
{
    let numel = layout.shape.numel();
    let mut out: Vec<T> = Vec::new();
    if numel == 0 {
        assert(out@ =~= logical_values(src@, *layout));
        return out;
    }
    proof {
        lemma_numel_pos(layout.shape@);
    }
    if layout.is_contiguous() {
        let start = layout.offset;
        let len = src.len();
        proof {
            lemma_contiguous_addresses(*layout, numel - 1);
            lemma_unravel(layout.shape@, numel - 1);
            assert(crate::index::valid_index(layout.shape@, unravel(layout.shape@, numel - 1)));
            assert(layout.addr(unravel(layout.shape@, numel - 1)) < src@.len());
            assert(start + numel <= src@.len());
        }
        let mut i: usize = 0;
        while i < numel
            invariant
                i <= numel,
                numel == numel_of(layout.shape@),
                start == layout.offset,
                start + numel <= src@.len(),
                len == src@.len(),
                layout.wf(),
                crate::index::is_row_major(layout.shape@, layout.strides@),
                out@ =~= logical_values(src@, *layout).take(i as int),
            decreases numel - i,
        {
            proof {
                lemma_contiguous_addresses(*layout, i as int);
            }
            assert(start + i < src@.len());
            out.push(src[start + i]);
            i += 1;
        }
        assert(logical_values(src@, *layout).take(numel as int) =~= logical_values(src@, *layout));
        return out;
    }
    let mut w = OffsetWalker::at(layout, 0);
    let mut i: usize = 0;
    while i < numel
        invariant
            i <= numel,
            numel == numel_of(layout.shape@),
            numel > 0,
            layout.within(src@.len() as int),
            w.wf(),
            w.dims_view() == layout.shape@,
            w.strides_view() == layout.strides@,
            w.base() == layout.offset,
            i < numel ==> w.position() == i,
            out@ =~= logical_values(src@, *layout).take(i as int),
        decreases numel - i,
    {
        proof {
            lemma_unravel(layout.shape@, i as int);
        }
        let o = w.next_offset();
        out.push(src[o]);
        i += 1;
    }
    assert(logical_values(src@, *layout).take(numel as int) =~= logical_values(src@, *layout));
    out
}

} // verus!
