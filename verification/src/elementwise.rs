//! Elementwise operations: aligning two operands by broadcasting, the
//! device agreement they need, and undoing a broadcast on a gradient.
use crate::error::{Device, Error};
use crate::index::{lemma_unravel, numel_of, unravel, valid_index};
use crate::shape::{broadcast_rank, broadcast_shapes, broadcast_spec, broadcastable, Shape};
use crate::tensor::Tensor;
use crate::views::{broadcast_source, broadcasts_onto};
use vstd::prelude::*;

verus! {

/// Both operands of an elementwise op live on one device: that device,
/// or `DeviceMismatch` naming both.
pub fn same_device(a: Device, b: Device, op: &'static str) -> (r: Result<Device, Error>)
    ensures
        r matches Err(e) ==> crate::error::names_op(e, op@),
        r is Ok <==> a == b,
        r matches Ok(d) ==> d == a,
        r matches Err(e) ==> e matches Error::DeviceMismatch { lhs, rhs, .. } && lhs == a && rhs
            == b,
{
    if a != b {
        return Err(Error::DeviceMismatch { lhs: a, rhs: b, op });
    }
    Ok(a)
}

/// A broadcast shape is one both operands broadcast onto.
proof fn lemma_onto_broadcast(a: Seq<usize>, b: Seq<usize>)
    requires
        broadcastable(a, b),
    ensures
        broadcasts_onto(a, broadcast_spec(a, b)),
        broadcasts_onto(b, broadcast_spec(a, b)),
{
    crate::shape::law_broadcast_dominates(a, b);
    let s = broadcast_spec(a, b);
    assert forall|i: int| 0 <= i < a.len() implies #[trigger] a[i] == s[s.len() - a.len() + i]
        || a[i] == 1 by {
        assert(s[s.len() - a.len() + i] == a[i] || a[i] == 1);
    }
    assert forall|i: int| 0 <= i < b.len() implies #[trigger] b[i] == s[s.len() - b.len() + i]
        || b[i] == 1 by {
        assert(s[s.len() - b.len() + i] == b[i] || b[i] == 1);
    }
}

/// The operands of an elementwise binary op aligned element for
/// element: their broadcast shape, then the elements of each operand's
/// broadcast view in logical order, so that output element `x` combines
/// element `x` of each list.
///
/// `BroadcastIncompatible` (both shapes verbatim) when the shapes do not
/// broadcast; `ShapeOverflow` when the broadcast element count does not
/// fit in `usize`.
pub fn broadcast_pair<T: Copy>(a: &Tensor<T>, b: &Tensor<T>) -> (r: Result<
    (Shape, Vec<T>, Vec<T>),
    Error,
>)
    ensures
        r matches Err(e) ==> crate::error::names_op(e, "broadcast"@),
        r is Ok <==> broadcastable(a.shape_view(), b.shape_view()) && numel_of(
            broadcast_spec(a.shape_view(), b.shape_view()),
        ) <= usize::MAX,
        !broadcastable(a.shape_view(), b.shape_view()) ==> (r matches Err(e)
            && e matches Error::BroadcastIncompatible { lhs, rhs } && lhs@ == a.shape_view() && rhs@
            == b.shape_view()),
        r matches Err(e) ==> (e is BroadcastIncompatible || e is ShapeOverflow),
        r matches Ok((s, av, bv)) ==> {
            &&& s@ == broadcast_spec(a.shape_view(), b.shape_view())
            &&& av@.len() == numel_of(s@)
            &&& bv@.len() == numel_of(s@)
            &&& forall|x: int|
                0 <= x < numel_of(s@) ==> #[trigger] av@[x] == a.element(
                    broadcast_source(a.shape_view(), s@.len() as int, unravel(s@, x)),
                ) && bv@[x] == b.element(
                    broadcast_source(b.shape_view(), s@.len() as int, unravel(s@, x)),
                )
        },
{
    let out = match broadcast_shapes(a.shape(), b.shape()) {
        Ok(s) => s,
        Err(e) => {
            return Err(e);
        },
    };
    proof {
        lemma_onto_broadcast(a.shape_view(), b.shape_view());
    }
    let av = match a.broadcast_to(&out) {
        Ok(v) => v,
        Err(e) => {
            return Err(e);
        },
    };
    let bv = match b.broadcast_to(&out) {
        Ok(v) => v,
        Err(e) => {
            return Err(e);
        },
    };
    let x = av.to_vec();
    let y = bv.to_vec();
    proof {
        av.lemma_values();
        bv.lemma_values();
        assert forall|i: int| 0 <= i < numel_of(out@) implies #[trigger] x@[i] == a.element(
            broadcast_source(a.shape_view(), out@.len() as int, unravel(out@, i)),
        ) && y@[i] == b.element(
            broadcast_source(b.shape_view(), out@.len() as int, unravel(out@, i)),
        ) by {
            lemma_unravel(out@, i);
        }
    }
    Ok((out, x, y))
}

/// The axes after the leading ones, below `lead + j`, where `target`
/// holds 1 and `grad` does not, ascending.
pub open spec fn unbroadcast_from(grad: Seq<usize>, target: Seq<usize>, j: int) -> Seq<usize>
    decreases j,
{
    if j <= 0 {
        Seq::empty()
    } else {
        let p = unbroadcast_from(grad, target, j - 1);
        let glen = grad.len();
    let lead = glen - target.len();
        if target[j - 1] == 1 && grad[lead + j - 1] != 1 {
            p.push((lead + j - 1) as usize)
        } else {
            p
        }
    }
}

/// The axes a broadcast to `grad` from `target` is undone over: the
/// leading axes, then those `target` holds as 1 where `grad` does not.
pub open spec fn unbroadcast_spec(grad: Seq<usize>, target: Seq<usize>) -> Seq<usize> {
    Seq::new((grad.len() - target.len()) as nat, |k: int| k as usize) + unbroadcast_from(
        grad,
        target,
        target.len() as int,
    )
}

/// The axes a gradient of shape `grad` is summed over (keeping them as
/// extent 1) to undo a broadcast to it from `target`: every leading axis
/// `target` lacks, and every axis `target` holds as 1 where the gradient
/// does not. `None` when the shapes are equal and there is nothing to
/// undo.
pub fn unbroadcast_axes(grad: &[usize], target: &[usize]) -> (r: Option<Vec<usize>>)
    requires
        target@.len() <= grad@.len(),
    ensures
        r is None <==> grad@ == target@,
        r matches Some(axes) ==> axes@ == unbroadcast_spec(grad@, target@),
{
    if crate::shape::same_usizes(grad, target) {
        return None;
    }
    let glen = grad.len();
    let lead = glen - target.len();
    let mut axes: Vec<usize> = Vec::new();
    let mut i: usize = 0;
    while i < lead
        invariant
            i <= lead,
            lead == grad@.len() - target@.len(),
            axes@ =~= Seq::new(i as nat, |k: int| k as usize),
        decreases lead - i,
    {
        axes.push(i);
        i += 1;
    }
    assert(axes@ =~= Seq::new(lead as nat, |k: int| k as usize) + unbroadcast_from(grad@, target@, 0));
    let mut j: usize = 0;
    while j < target.len()
        invariant
            j <= target@.len(),
            lead == grad@.len() - target@.len(),
            glen == grad@.len(),
            axes@ == Seq::new(lead as nat, |k: int| k as usize) + unbroadcast_from(grad@, target@, j as int),
        decreases target.len() - j,
    {
        let ghost before = axes@;
        if target[j] == 1 && grad[lead + j] != 1 {
            axes.push(lead + j);
        }
        j += 1;
        assert(axes@ =~= Seq::new(lead as nat, |k: int| k as usize) + unbroadcast_from(grad@, target@, j as int));
    }
    Some(axes)
}


/// What `unbroadcast_from` keeps: the axes `lead + i`, `i < j`, where
/// `target` holds 1 and `grad` does not.
proof fn lemma_unbroadcast_from(grad: Seq<usize>, target: Seq<usize>, j: int)
    requires
        target.len() <= grad.len(),
        0 <= j <= target.len(),
        grad.len() <= usize::MAX,
    ensures
        forall|x: usize| #[trigger] unbroadcast_from(grad, target, j).contains(x) <==> (grad.len()
            - target.len() <= x < grad.len() - target.len() + j && target[x - (grad.len()
            - target.len())] == 1 && grad[x as int] != 1),
    decreases j,
{
    broadcast use vstd::seq_lib::lemma_seq_contains_after_push;

    let lead = grad.len() - target.len();
    if j > 0 {
        lemma_unbroadcast_from(grad, target, j - 1);
        let p = unbroadcast_from(grad, target, j - 1);
        let y = (lead + j - 1) as usize;
        assert(y as int == lead + j - 1);
        assert forall|x: usize| #[trigger] unbroadcast_from(grad, target, j).contains(x) <==> (lead
            <= x < lead + j && target[x - lead] == 1 && grad[x as int] != 1) by {
            if target[j - 1] == 1 && grad[lead + j - 1] != 1 {
                assert(unbroadcast_from(grad, target, j) == p.push(y));
            } else {
                assert(unbroadcast_from(grad, target, j) == p);
                if x == y {
                    assert(x - lead == j - 1);
                }
            }
        }
    } else {
        assert forall|x: usize| #[trigger] unbroadcast_from(grad, target, j).contains(x) <==> (lead
            <= x < lead + j && target[x - lead] == 1 && grad[x as int] != 1) by {
            assert(unbroadcast_from(grad, target, j) =~= Seq::<usize>::empty());
        }
    }
}

/// Undoing a broadcast restores the target's extents: summing a gradient
/// over the axes `unbroadcast_axes` names, keeping them as extent 1,
/// leaves 1s for the leading axes the target lacks, then exactly the
/// target's extents, so reshaping to the target succeeds and loses
/// nothing.
pub proof fn law_unbroadcast_restores(grad: Seq<usize>, target: Seq<usize>)
    requires
        broadcasts_onto(target, grad),
        grad.len() <= usize::MAX,
    ensures
        crate::reduce::reduced_dims(grad, unbroadcast_spec(grad, target), true, grad.len())
            == Seq::new((grad.len() - target.len()) as nat, |k: int| 1usize) + target,
{
    let lead = grad.len() - target.len();
    let axes = unbroadcast_spec(grad, target);
    lemma_unbroadcast_from(grad, target, target.len() as int);
    crate::reduce::lemma_reduced_keepdim(grad, axes, grad.len());
    let front = Seq::new(lead as nat, |k: int| k as usize);
    crate::index::lemma_concat_contains(front, unbroadcast_from(grad, target, target.len() as int));
    let want = Seq::new(lead as nat, |k: int| 1usize) + target;
    assert forall|j: int| 0 <= j < grad.len() implies #[trigger] crate::reduce::reduced_dims(
        grad,
        axes,
        true,
        grad.len(),
    )[j] == want[j] by {
        if j < lead {
            assert(front[j] == j as usize);
            assert(front.contains(j as usize));
        } else {
            let i = j - lead;
            assert(!front.contains(j as usize));
            if target[i] != 1 {
                assert(target[i] == grad[grad.len() - target.len() + i] || target[i] == 1);
            }
        }
    }
    assert(crate::reduce::reduced_dims(grad, axes, true, grad.len()) =~= want);
}

} // verus!
