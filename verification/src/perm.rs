//! Permutations of dimension indices: validation and inversion.
use crate::index::is_permutation;
use vstd::prelude::*;
use vstd::relations::injective_on;
use vstd::set_lib::{lemma_int_range, lemma_map_size, lemma_subset_equality, set_int_range};

verus! {

/// `q` undoes `p`: `q[p[i]] == i` and `p[q[j]] == j` for every position.
pub open spec fn inverse_of(q: Seq<usize>, p: Seq<usize>) -> bool {
    &&& q.len() == p.len()
    &&& forall|i: int| 0 <= i < p.len() ==> #[trigger] q[p[i] as int] == i
    &&& forall|j: int| 0 <= j < p.len() ==> #[trigger] p[q[j] as int] == j
}

/// Some position of `p` holds `j`.
pub open spec fn reaches(p: Seq<usize>, j: int) -> bool {
    exists|i: int| 0 <= i < p.len() && #[trigger] p[i] as int == j
}

/// An injective map of `0..n` into itself reaches every position.
pub proof fn lemma_permutation_onto(p: Seq<usize>, n: int)
    requires
        is_permutation(p, n),
    ensures
        forall|j: int| 0 <= j < n ==> #[trigger] reaches(p, j),
{
    if n >= 0 {
        let x = set_int_range(0, n);
        let f = |i: int| p[i] as int;
        lemma_int_range(0, n);
        assert(injective_on(f, x)) by {
            assert forall|a: int, b: int|
                x.contains(a) && x.contains(b) && #[trigger] f(a) == #[trigger] f(b) implies a
                == b by {
                if a < b {
                    assert(p[a] != p[b]);
                } else if b < a {
                    assert(p[b] != p[a]);
                }
            }
        }
        let y = x.map(f);
        lemma_map_size(x, y, f);
        assert(y.subset_of(x)) by {
            assert forall|v: int| y.contains(v) implies x.contains(v) by {
                let i = choose|i: int| x.contains(i) && f(i) == v;
                assert(p[i] < n);
            }
        }
        lemma_subset_equality(y, x);
        assert forall|j: int| 0 <= j < n implies #[trigger] reaches(p, j) by {
            assert(x.contains(j));
            assert(y.contains(j));
            let i = choose|i: int| x.contains(i) && f(i) == j;
            assert(p[i] as int == j);
        }
    }
}

/// The inverse of `perm` when it is a permutation of `0..n`, or `None`
/// when it is not one.
pub fn inverse_permutation(perm: &[usize], n: usize) -> (r: Option<Vec<usize>>)
    ensures
        r is Some <==> is_permutation(perm@, n as int),
        r matches Some(q) ==> inverse_of(q@, perm@) && is_permutation(q@, n as int),
{
    if perm.len() != n {
        return None;
    }
    let mut seen: Vec<bool> = Vec::new();
    let mut inv: Vec<usize> = Vec::new();
    let mut k: usize = 0;
    while k < n
        invariant
            k <= n,
            seen@.len() == k,
            inv@.len() == k,
            forall|j: int| 0 <= j < k ==> !#[trigger] seen@[j],
        decreases n - k,
    {
        seen.push(false);
        inv.push(0);
        k += 1;
    }
    let mut i: usize = 0;
    while i < n
        invariant
            i <= n,
            perm@.len() == n,
            seen@.len() == n,
            inv@.len() == n,
            forall|a: int| 0 <= a < i ==> #[trigger] perm@[a] < n,
            forall|a: int| 0 <= a < i ==> #[trigger] seen@[perm@[a] as int],
            forall|a: int| 0 <= a < i ==> #[trigger] inv@[perm@[a] as int] == a,
            forall|j: int| 0 <= j < n && #[trigger] seen@[j] ==> inv@[j] < i && perm@[inv@[j] as int] == j,
            forall|a: int, b: int| 0 <= a < b < i ==> #[trigger] perm@[a] != #[trigger] perm@[b],
        decreases n - i,
    {
        let p = perm[i];
        if p >= n {
            return None;
        }
        if seen[p] {
            proof {
                let a = inv@[p as int] as int;
                assert(perm@[a] == perm@[i as int]);
            }
            return None;
        }
        seen.set(p, true);
        inv.set(p, i);
        i += 1;
    }
    proof {
        lemma_permutation_onto(perm@, n as int);
        assert forall|j: int| 0 <= j < n implies #[trigger] perm@[inv@[j] as int] == j by {
            assert(reaches(perm@, j));
            let a = choose|a: int| 0 <= a < n && #[trigger] perm@[a] as int == j;
            assert(seen@[perm@[a] as int]);
        }
        assert forall|a: int, b: int| 0 <= a < b < n implies #[trigger] inv@[a] != #[trigger] inv@[b] by {
            assert(perm@[inv@[a] as int] == a);
            assert(perm@[inv@[b] as int] == b);
        }
        assert forall|j: int| 0 <= j < n implies #[trigger] inv@[j] < n by {
            assert(reaches(perm@, j));
            let a = choose|a: int| 0 <= a < n && #[trigger] perm@[a] as int == j;
            assert(seen@[perm@[a] as int]);
        }
    }
    Some(inv)
}

/// The inverse of a permutation's inverse is the permutation itself.
pub proof fn law_inverse_involutive(p: Seq<usize>, q: Seq<usize>, r: Seq<usize>)
    requires
        is_permutation(p, p.len() as int),
        inverse_of(q, p),
        inverse_of(r, q),
    ensures
        r == p,
{
    assert forall|j: int| 0 <= j < p.len() implies r[j] == p[j] by {
        let i = p[j] as int;
        assert(q[i] == j);
        assert(r[q[i] as int] == i);
    }
    assert(r =~= p);
}

} // verus!
