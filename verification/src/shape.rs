//! Shapes and strides, their element counts, row-major strides, and
//! NumPy broadcasting as a total function.
use crate::error::Error;
use crate::index::{cstride, is_row_major, lemma_numel_zero, numel_of};
use vstd::prelude::*;

verus! {

/// The extents of a tensor, outermost first. Rank 0 (no extents) is a
/// scalar with one element.
#[derive(Debug, PartialEq, Eq)]
pub struct Shape {
    dims: Vec<usize>,
}

/// Per-dimension element steps through storage; negative steps read a
/// dimension backwards, zero steps repeat (broadcast) it.
#[derive(Debug, PartialEq, Eq)]
pub struct Strides {
    values: Vec<isize>,
}

impl View for Shape {
    type V = Seq<usize>;

    closed spec fn view(&self) -> Seq<usize> {
        self.dims@
    }
}

impl View for Strides {
    type V = Seq<isize>;

    closed spec fn view(&self) -> Seq<isize> {
        self.values@
    }
}

impl Clone for Shape {
    fn clone(&self) -> (r: Self)
        ensures
            r@ == self@,
    {
        Shape { dims: copy_usizes(&self.dims) }
    }
}

impl Clone for Strides {
    fn clone(&self) -> (r: Self)
        ensures
            r@ == self@,
    {
        let mut values: Vec<isize> = Vec::new();
        let mut i: usize = 0;
        while i < self.values.len()
            invariant
                i <= self.values.len(),
                values@ =~= self.values@.take(i as int),
            decreases self.values.len() - i,
        {
            values.push(self.values[i]);
            i += 1;
        }
        assert(self.values@.take(self.values.len() as int) =~= self.values@);
        Strides { values }
    }
}

/// An element-for-element copy of a list of extents.
pub fn copy_usizes(v: &[usize]) -> (r: Vec<usize>)
    ensures
        r@ == v@,
{
    let mut out: Vec<usize> = Vec::new();
    let mut i: usize = 0;
    while i < v.len()
        invariant
            i <= v.len(),
            out@ =~= v@.take(i as int),
        decreases v.len() - i,
    {
        out.push(v[i]);
        i += 1;
    }
    assert(v@.take(v.len() as int) =~= v@);
    out
}

/// The extents from position `lo` up to (not including) `hi`.
pub fn sub_usizes(v: &[usize], lo: usize, hi: usize) -> (r: Vec<usize>)
    requires
        lo <= hi <= v@.len(),
    ensures
        r@ == v@.subrange(lo as int, hi as int),
{
    let mut out: Vec<usize> = Vec::new();
    let mut i: usize = lo;
    while i < hi
        invariant
            lo <= i <= hi <= v@.len(),
            out@ =~= v@.subrange(lo as int, i as int),
        decreases hi - i,
    {
        out.push(v[i]);
        i += 1;
    }
    out
}

impl Shape {
    /// A shape with extents `dims`.
    pub fn new(dims: Vec<usize>) -> (r: Shape)
        ensures
            r@ == dims@,
    {
        Shape { dims }
    }

    /// A shape copied from a list of extents.
    pub fn from_slice(dims: &[usize]) -> (r: Shape)
        ensures
            r@ == dims@,
    {
        Shape { dims: copy_usizes(dims) }
    }

    /// The extents, outermost first.
    pub fn dims(&self) -> (r: &[usize])
        ensures
            r@ == self@,
    {
        self.dims.as_slice()
    }

    /// The rank.
    pub fn ndim(&self) -> (r: usize)
        ensures
            r == self@.len(),
    {
        self.dims.len()
    }

    /// The element count, or `None` when it does not fit in `usize`.
    pub fn checked_numel(&self) -> (r: Option<usize>)
        ensures
            r matches Some(n) ==> n == numel_of(self@),
            r is None <==> numel_of(self@) > usize::MAX,
    {
        checked_numel(self.dims.as_slice())
    }

    /// The element count. The count must fit in `usize`; see
    /// [`Shape::checked_numel`].
    pub fn numel(&self) -> (r: usize)
        requires
            numel_of(self@) <= usize::MAX,
        ensures
            r == numel_of(self@),
    {
        match checked_numel(self.dims.as_slice()) {
            Some(n) => n,
            None => 0,
        }
    }

    /// Whether two shapes have the same extents.
    pub fn same_as(&self, other: &Shape) -> (r: bool)
        ensures
            r == (self@ == other@),
    {
        same_usizes(self.dims.as_slice(), other.dims.as_slice())
    }
}

impl Strides {
    /// Strides with the given steps.
    pub fn new(values: Vec<isize>) -> (r: Strides)
        ensures
            r@ == values@,
    {
        Strides { values }
    }

    /// The steps, outermost dimension first.
    pub fn values(&self) -> (r: &[isize])
        ensures
            r@ == self@,
    {
        self.values.as_slice()
    }
}

/// Whether two lists of extents are equal.
pub fn same_usizes(a: &[usize], b: &[usize]) -> (r: bool)
    ensures
        r == (a@ == b@),
{
    if a.len() != b.len() {
        return false;
    }
    let mut i: usize = 0;
    while i < a.len()
        invariant
            a.len() == b.len(),
            i <= a.len(),
            forall|j: int| 0 <= j < i ==> a@[j] == b@[j],
        decreases a.len() - i,
    {
        if a[i] != b[i] {
            return false;
        }
        i += 1;
    }
    assert(a@ =~= b@);
    true
}

/// The product is at least each factor when no factor is zero.
proof fn lemma_numel_monotone(dims: Seq<usize>, k: int)
    requires
        0 <= k <= dims.len(),
        forall|i: int| 0 <= i < dims.len() ==> #[trigger] dims[i] > 0,
    ensures
        numel_of(dims.take(k)) <= numel_of(dims),
    decreases dims.len() - k,
{
    if k < dims.len() {
        lemma_numel_monotone(dims, k + 1);
        let a = numel_of(dims.take(k)) as int;
        let d = dims[k] as int;
        assert(dims.take(k + 1).drop_last() =~= dims.take(k));
        assert(numel_of(dims.take(k + 1)) == a * d);
        assert(a <= a * d) by (nonlinear_arith)
            requires
                d > 0,
                a >= 0,
        ;
    } else {
        assert(dims.take(k) =~= dims);
    }
}

/// The element count of `dims`, or `None` when it overflows `usize`. A
/// zero extent makes the count zero however large the others are.
pub fn checked_numel(dims: &[usize]) -> (r: Option<usize>)
    ensures
        r matches Some(n) ==> n == numel_of(dims@),
        r is None <==> numel_of(dims@) > usize::MAX,
{
    let mut z: usize = 0;
    while z < dims.len()
        invariant
            z <= dims.len(),
            forall|j: int| 0 <= j < z ==> #[trigger] dims@[j] > 0,
        decreases dims.len() - z,
    {
        if dims[z] == 0 {
            proof {
                lemma_numel_zero(dims@, z as int);
            }
            return Some(0);
        }
        z += 1;
    }
    let mut acc: usize = 1;
    let mut i: usize = 0;
    while i < dims.len()
        invariant
            i <= dims.len(),
            forall|j: int| 0 <= j < dims.len() ==> #[trigger] dims@[j] > 0,
            acc == numel_of(dims@.take(i as int)),
        decreases dims.len() - i,
    {
        assert(dims@.take(i + 1).drop_last() =~= dims@.take(i as int));
        match acc.checked_mul(dims[i]) {
            Some(v) => {
                acc = v;
            },
            None => {
                proof {
                    lemma_numel_monotone(dims@, i + 1);
                }
                return None;
            },
        }
        i += 1;
    }
    assert(dims@.take(dims.len() as int) =~= dims@);
    Some(acc)
}

/// The product of the extents from position `i` on is the extent at `i`
/// times the product of those after it.
pub proof fn lemma_numel_front(dims: Seq<usize>)
    requires
        dims.len() > 0,
    ensures
        numel_of(dims) == (dims[0] as nat) * numel_of(dims.drop_first()),
    decreases dims.len(),
{
    if dims.len() == 1 {
        assert(dims.drop_last() =~= Seq::<usize>::empty());
        assert(dims.drop_first() =~= Seq::<usize>::empty());
    } else {
        lemma_numel_front(dims.drop_last());
        assert(dims.drop_last().drop_first() =~= dims.drop_first().drop_last());
        assert(dims.drop_first().last() == dims.last());
        assert(dims.drop_last()[0] == dims[0]);
        assert(numel_of(dims) == numel_of(dims.drop_last()) * (dims.last() as nat));
        assert(numel_of(dims.drop_first()) == numel_of(dims.drop_first().drop_last()) * (
        dims.drop_first().last() as nat));
        let a = dims[0] as int;
        let b = numel_of(dims.drop_first().drop_last()) as int;
        let c = dims.last() as int;
        assert(a * b * c == a * (b * c)) by (nonlinear_arith);
    }
}

/// The row-major strides of `shape`, or `None` when one of them does not
/// fit in `isize`.
pub fn contiguous_strides(shape: &Shape) -> (r: Option<Strides>)
    ensures
        r matches Some(s) ==> is_row_major(shape@, s@),
        r is None <==> exists|i: int|
            0 <= i < shape@.len() && #[trigger] cstride(shape@, i) > isize::MAX,
{
    let dims = shape.dims();
    let n = dims.len();
    let mut values: Vec<isize> = Vec::new();
    let mut k: usize = 0;
    while k < n
        invariant
            k <= n,
            values@.len() == k,
        decreases n - k,
    {
        values.push(0);
        k += 1;
    }
    let mut acc: usize = 1;
    let mut i: usize = n;
    proof {
        assert(dims@.subrange(n as int, n as int) =~= Seq::<usize>::empty());
    }
    while i > 0
        invariant
            i <= n,
            n == dims@.len(),
            dims@ == shape@,
            values@.len() == n,
            i > 0 ==> acc == cstride(dims@, i - 1),
            forall|j: int| i <= j < n ==> #[trigger] values@[j] as int == cstride(dims@, j),
            forall|j: int| i <= j < n ==> #[trigger] cstride(dims@, j) <= isize::MAX,
        decreases i,
    {
        let j = i - 1;
        proof {
            if j == n - 1 {
                assert(dims@.subrange(n as int, n as int) =~= Seq::<usize>::empty());
            }
        }
        if acc > isize::MAX as usize {
            assert(cstride(dims@, j as int) > isize::MAX);
            return None;
        }
        values.set(j, acc as isize);
        if j > 0 {
            proof {
                let tail = dims@.subrange(j as int, n as int);
                lemma_numel_front(tail);
                assert(tail.drop_first() =~= dims@.subrange(j + 1, n as int));
                assert(cstride(dims@, j - 1) == (dims@[j as int] as nat) * cstride(dims@, j as int));
            }
            match acc.checked_mul(dims[j]) {
                Some(v) => {
                    acc = v;
                },
                None => {
                    assert(cstride(dims@, j - 1) > isize::MAX);
                    return None;
                },
            }
        }
        i = j;
    }
    Some(Strides { values })
}

/// The extent of `dims` at position `j` of a rank-`n` alignment against
/// the trailing dimensions: missing leading extents read as 1.
pub open spec fn aligned_extent(dims: Seq<usize>, n: int, j: int) -> int {
    let p = j - (n - dims.len());
    if p < 0 {
        1
    } else {
        dims[p] as int
    }
}

/// Two extents broadcast when they are equal or one of them is 1.
pub open spec fn extents_compatible(x: int, y: int) -> bool {
    x == y || x == 1 || y == 1
}

/// The broadcast rank: the larger of the two ranks.
pub open spec fn broadcast_rank(a: Seq<usize>, b: Seq<usize>) -> int {
    if a.len() >= b.len() {
        a.len() as int
    } else {
        b.len() as int
    }
}

/// NumPy's rule: aligned from the trailing end, every pair of extents is
/// compatible.
pub open spec fn broadcastable(a: Seq<usize>, b: Seq<usize>) -> bool {
    let n = broadcast_rank(a, b);
    forall|j: int|
        0 <= j < n ==> extents_compatible(
            #[trigger] aligned_extent(a, n, j),
            aligned_extent(b, n, j),
        )
}

/// The broadcast shape of two broadcastable shapes: the non-1 extent of
/// each aligned pair (or 1 when both are 1).
pub open spec fn broadcast_spec(a: Seq<usize>, b: Seq<usize>) -> Seq<usize> {
    let n = broadcast_rank(a, b);
    Seq::new(
        n as nat,
        |j: int|
            if aligned_extent(a, n, j) == 1 {
                aligned_extent(b, n, j) as usize
            } else {
                aligned_extent(a, n, j) as usize
            },
    )
}

/// The NumPy broadcast of two shapes, or a `BroadcastIncompatible` error
/// carrying both operands verbatim.
pub fn broadcast_shapes(a: &Shape, b: &Shape) -> (r: Result<Shape, Error>)
    ensures
        r matches Ok(s) ==> broadcastable(a@, b@) && s@ == broadcast_spec(a@, b@),
        r matches Err(e) ==> !broadcastable(a@, b@) && (e matches Error::BroadcastIncompatible {
            lhs,
            rhs,
        } && lhs@ == a@ && rhs@ == b@),
        r is Ok <==> broadcastable(a@, b@),
{
    let ad = a.dims();
    let bd = b.dims();
    let n = if ad.len() >= bd.len() {
        ad.len()
    } else {
        bd.len()
    };
    let ghost gn = n as int;
    let mut out: Vec<usize> = Vec::new();
    let mut j: usize = 0;
    while j < n
        invariant
            j <= n,
            gn == broadcast_rank(a@, b@),
            n == gn,
            ad@ == a@,
            bd@ == b@,
            out@.len() == j,
            forall|k: int|
                0 <= k < j ==> extents_compatible(
                    #[trigger] aligned_extent(a@, gn, k),
                    aligned_extent(b@, gn, k),
                ),
            forall|k: int| 0 <= k < j ==> #[trigger] out@[k] == broadcast_spec(a@, b@)[k],
        decreases n - j,
    {
        let x: usize = if j < n - ad.len() {
            1
        } else {
            ad[j - (n - ad.len())]
        };
        let y: usize = if j < n - bd.len() {
            1
        } else {
            bd[j - (n - bd.len())]
        };
        assert(x as int == aligned_extent(a@, gn, j as int));
        assert(y as int == aligned_extent(b@, gn, j as int));
        if !(x == y || x == 1 || y == 1) {
            return Err(Error::BroadcastIncompatible { lhs: a.clone(), rhs: b.clone() });
        }
        out.push(if x == 1 { y } else { x });
        j += 1;
    }
    assert(out@ =~= broadcast_spec(a@, b@));
    Ok(Shape { dims: out })
}

/// Broadcasting is commutative, in the result and in the refusal.
pub proof fn law_broadcast_commutative(a: Seq<usize>, b: Seq<usize>)
    ensures
        broadcastable(a, b) == broadcastable(b, a),
        broadcastable(a, b) ==> broadcast_spec(a, b) == broadcast_spec(b, a),
{
    let n = broadcast_rank(a, b);
    assert(broadcast_rank(b, a) == n);
    if broadcastable(a, b) {
        assert forall|j: int| 0 <= j < n implies extents_compatible(
            #[trigger] aligned_extent(b, n, j),
            aligned_extent(a, n, j),
        ) by {
            assert(extents_compatible(aligned_extent(a, n, j), aligned_extent(b, n, j)));
        }
        assert(broadcast_spec(a, b) =~= broadcast_spec(b, a)) by {
            assert forall|j: int| 0 <= j < n implies broadcast_spec(a, b)[j] == broadcast_spec(
                b,
                a,
            )[j] by {
                assert(extents_compatible(aligned_extent(a, n, j), aligned_extent(b, n, j)));
            }
        }
    }
    if broadcastable(b, a) {
        assert forall|j: int| 0 <= j < n implies extents_compatible(
            #[trigger] aligned_extent(a, n, j),
            aligned_extent(b, n, j),
        ) by {
            assert(extents_compatible(aligned_extent(b, n, j), aligned_extent(a, n, j)));
        }
    }
}

/// A shape broadcast with itself is itself.
pub proof fn law_broadcast_idempotent(a: Seq<usize>)
    ensures
        broadcastable(a, a),
        broadcast_spec(a, a) == a,
{
    let n = broadcast_rank(a, a);
    assert forall|j: int| 0 <= j < n implies extents_compatible(
        #[trigger] aligned_extent(a, n, j),
        aligned_extent(a, n, j),
    ) by {}
    assert(broadcast_spec(a, a) =~= a);
}

/// The scalar shape is the identity of broadcasting.
pub proof fn law_broadcast_scalar_identity(a: Seq<usize>)
    ensures
        broadcastable(a, Seq::empty()),
        broadcast_spec(a, Seq::empty()) == a,
{
    let e = Seq::<usize>::empty();
    let n = broadcast_rank(a, e);
    assert forall|j: int| 0 <= j < n implies extents_compatible(
        #[trigger] aligned_extent(a, n, j),
        aligned_extent(e, n, j),
    ) by {}
    assert(broadcast_spec(a, e) =~= a);
}

/// The broadcast rank is the larger operand rank, and no operand extent
/// other than 1 changes at its aligned position.
pub proof fn law_broadcast_dominates(a: Seq<usize>, b: Seq<usize>)
    requires
        broadcastable(a, b),
    ensures
        broadcast_spec(a, b).len() == if a.len() >= b.len() {
            a.len()
        } else {
            b.len()
        },
        forall|i: int|
            0 <= i < a.len() ==> (#[trigger] broadcast_spec(a, b)[broadcast_spec(a, b).len() - a.len()
                + i] == a[i] || a[i] == 1),
        forall|i: int|
            0 <= i < b.len() ==> (#[trigger] broadcast_spec(a, b)[broadcast_spec(a, b).len() - b.len()
                + i] == b[i] || b[i] == 1),
{
    let n = broadcast_rank(a, b);
    assert forall|i: int| 0 <= i < a.len() implies (#[trigger] broadcast_spec(a, b)[n - a.len()
        + i] == a[i] || a[i] == 1) by {
        let j = n - a.len() + i;
        assert(aligned_extent(a, n, j) == a[i]);
        assert(extents_compatible(aligned_extent(a, n, j), aligned_extent(b, n, j)));
    }
    assert forall|i: int| 0 <= i < b.len() implies (#[trigger] broadcast_spec(a, b)[n - b.len()
        + i] == b[i] || b[i] == 1) by {
        let j = n - b.len() + i;
        assert(aligned_extent(b, n, j) == b[i]);
        assert(extents_compatible(aligned_extent(a, n, j), aligned_extent(b, n, j)));
    }
}

} // verus!
