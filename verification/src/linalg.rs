//! The shape side of batched linear algebra on the last two dimensions:
//! which tensors are stacks of square matrices, how many, and the
//! identity matrix.
use crate::error::{Error, Issue};
use crate::index::{lemma_linear, lemma_unravel, numel_of, unravel, valid_index};
use crate::shape::{checked_numel, copy_usizes, sub_usizes, Shape};
use crate::tensor::Tensor;
use vstd::prelude::*;

verus! {

/// A stack of square matrices: rank at least 2, the last two extents
/// equal.
pub open spec fn square_stack(d: Seq<usize>) -> bool {
    d.len() >= 2 && d[d.len() - 1] == d[d.len() - 2]
}

/// The number of matrices in a stack: the product of the leading
/// extents.
pub open spec fn stack_count(d: Seq<usize>) -> nat {
    numel_of(d.take(d.len() - 2))
}

/// The batch count and matrix size of a `[.., n, n]` shape.
///
/// `InvalidArgument` (`NotSquare`) for any other shape; `ShapeOverflow`
/// when the batch count does not fit in `usize`.
pub fn square_matrix_dims(dims: &[usize], op: &'static str) -> (r: Result<(usize, usize), Error>)
    ensures
        r matches Err(e) ==> crate::error::names_op(e, op@),
        !square_stack(dims@) ==> (r matches Err(e) && e matches Error::InvalidArgument {
            issue: Issue::NotSquare,
            ..
        }),
        square_stack(dims@) ==> (r is Ok <==> stack_count(dims@) <= usize::MAX),
        r matches Ok((batch, n)) ==> batch == stack_count(dims@) && n == dims@[dims@.len() - 1],
        r matches Err(e) ==> (e is InvalidArgument || e is ShapeOverflow),
{
    let k = dims.len();
    if k < 2 || dims[k - 1] != dims[k - 2] {
        return Err(Error::InvalidArgument { op, issue: Issue::NotSquare });
    }
    let n = dims[k - 1];
    let lead = sub_usizes(dims, 0, k - 2);
    proof {
        assert(lead@ =~= dims@.take(k - 2));
    }
    match checked_numel(lead.as_slice()) {
        Some(batch) => Ok((batch, n)),
        None => Err(Error::ShapeOverflow { dims: copy_usizes(dims), op }),
    }
}

/// The shape of the eigenvalues of a `[.., n, n]` stack: `[.., n]`.
pub fn eigenvalue_dims(dims: &[usize]) -> (r: Vec<usize>)
    requires
        square_stack(dims@),
    ensures
        r@ == dims@.drop_last(),
{
    let k = dims.len();
    let v = sub_usizes(dims, 0, k - 1);
    proof {
        assert(v@ =~= dims@.drop_last());
    }
    v
}

impl<T: Copy> Tensor<T> {
    /// The `n × n` identity matrix: `one` on the diagonal, `zero`
    /// elsewhere. `ShapeOverflow` when `n * n` elements cannot be
    /// addressed.
    pub fn eye(n: usize, zero: T, one: T) -> (r: Result<Tensor<T>, Error>)
        ensures
            r matches Err(e) ==> crate::error::names_op(e, "eye"@),
            r matches Ok(t) ==> t.shape_view() == seq![n, n] && forall|c: Seq<int>|
                #[trigger] valid_index(t.shape_view(), c) ==> t.element(c) == if c[0] == c[1] {
                    one
                } else {
                    zero
                },
            r is Ok <==> n * n <= isize::MAX + 1,
            r matches Err(e) ==> e is ShapeOverflow,
    {
        let total = match n.checked_mul(n) {
            Some(t) => t,
            None => {
                let mut d: Vec<usize> = Vec::new();
                d.push(n);
                d.push(n);
                return Err(Error::ShapeOverflow { dims: d, op: "eye" });
            },
        };
        let mut v: Vec<T> = Vec::new();
        let mut i: usize = 0;
        while i < n
            invariant
                i <= n,
                total == n * n,
                v@.len() == i * n,
                forall|a: int, b: int|
                    0 <= a < n && 0 <= b < n && a * n + b < v@.len() ==> #[trigger] v@[a * n + b] == if a
                        == b {
                        one
                    } else {
                        zero
                    },
            decreases n - i,
        {
            let mut j: usize = 0;
            while j < n
                invariant
                    i < n,
                    j <= n,
                    total == n * n,
                    v@.len() == i * n + j,
                    forall|a: int, b: int|
                        0 <= a < n && 0 <= b < n && a * n + b < v@.len() ==> #[trigger] v@[a * n + b]
                            == if a == b {
                            one
                        } else {
                            zero
                        },
                decreases n - j,
            {
                proof {
                    assert(i * n + j < n * n) by (nonlinear_arith)
                        requires
                            i < n,
                            j < n,
                    ;
                }
                let ghost before = v@;
                if i == j {
                    v.push(one);
                } else {
                    v.push(zero);
                }
                proof {
                    assert forall|a: int, b: int|
                        0 <= a < n && 0 <= b < n && a * n + b < v@.len() implies #[trigger] v@[a * n
                        + b] == if a == b {
                        one
                    } else {
                        zero
                    } by {
                        if a * n + b == before.len() {
                            crate::index::lemma_mixed_radix_unique(
                                0,
                                a,
                                b,
                                0,
                                i as int,
                                j as int,
                                n as int,
                                n as int,
                            );
                        }
                    }
                }
                j += 1;
            }
            proof {
                assert(i * n + n == (i + 1) * n) by (nonlinear_arith);
            }
            i += 1;
        }
        let mut d: Vec<usize> = Vec::new();
        d.push(n);
        d.push(n);
        let ghost flat = v@;
        proof {
            let e = Seq::<usize>::empty();
            assert(d@.drop_last().drop_last() =~= e);
            assert(d@.drop_last() =~= e.push(n));
            assert(numel_of(e) == 1);
            assert(numel_of(e.push(n)) == numel_of(e) * (n as nat));
            assert(numel_of(d@) == numel_of(d@.drop_last()) * (n as nat));
            assert(numel_of(d@) == n * n);
            assert(flat.len() == n * n);
            assert(d@.subrange(1, 2) =~= seq![n]);
            assert(d@.subrange(2, 2) =~= e);
            assert(seq![n].drop_last() =~= e);
            assert(numel_of(seq![n]) == numel_of(e) * (n as nat));
            assert(crate::index::cstride(d@, 0) == n);
            assert(crate::index::cstride(d@, 1) == 1);
            if n * n <= isize::MAX + 1 {
                assert(n <= isize::MAX) by (nonlinear_arith)
                    requires
                        n * n <= isize::MAX + 1,
                ;
            }
        }
        let t = match Tensor::from_vec_as(v, Shape::new(d), "eye") {
            Ok(t) => t,
            Err(e) => {
                return Err(e);
            },
        };
        proof {
            t.lemma_values();
            assert forall|c: Seq<int>| #[trigger] valid_index(t.shape_view(), c) implies t.element(c)
                == if c[0] == c[1] {
                one
            } else {
                zero
            } by {
                lemma_linear(t.shape_view(), c);
                let x = crate::index::linear(t.shape_view(), c);
                let s = t.shape_view();
                assert(s.drop_last() =~= seq![n]);
                assert(seq![n].drop_last() =~= Seq::<usize>::empty());
                assert(crate::index::linear(seq![n], c.drop_last()) == crate::index::linear(
                    Seq::<usize>::empty(),
                    c.drop_last().drop_last(),
                ) * (n as int) + c[0]);
                assert(x == c[0] * n + c[1]);
                assert(flat[x] == if c[0] == c[1] {
                    one
                } else {
                    zero
                });
            }
        }
        Ok(t)
    }
}

} // verus!
