//! Einstein-summation specs: parsing, letter sizes and the plan.
use oxmera_tensor::einsum::{letter_sizes, parse, plan_einsum, size_of, EinsumPlan};
use oxmera_tensor::error::{EinsumIssue, Error, Issue};

fn issue(r: Result<EinsumPlan, Error>) -> EinsumIssue {
    match r {
        Err(Error::InvalidArgument { op: "einsum", issue: Issue::Einsum(i) }) => i,
        Err(other) => panic!("expected an einsum refusal, got {other:?}"),
        Ok(_) => panic!("expected an einsum refusal, got a plan"),
    }
}

#[test]
fn bad_specs_are_typed_errors() {
    let a = vec![2usize, 3];
    let b = vec![3usize, 4];
    for spec in ["ij,jk", "ij,jk->ik", "ii->i", "ij,jk->il", "iJ,jk->ik", "ijk,jk->ik"] {
        let ops = if spec == "ij,jk->ik" { vec![a.clone()] } else { vec![a.clone(), b.clone()] };
        assert!(
            matches!(plan_einsum(spec, &ops), Err(Error::InvalidArgument { op: "einsum", .. })),
            "{spec}"
        );
    }
    let c = vec![5usize, 4];
    match issue(plan_einsum("ij,jk->ik", &vec![a.clone(), c])) {
        EinsumIssue::SizeMismatch { letter: 'j', first: 3, second: 5 } => {}
        other => panic!("expected a size conflict on j, got {other:?}"),
    }
}

#[test]
fn each_refusal_names_its_reason() {
    let a = vec![2usize, 3];
    let b = vec![3usize, 4];
    assert!(matches!(issue(plan_einsum("ij,jk", &vec![a.clone(), b.clone()])), EinsumIssue::MissingArrow));
    assert!(matches!(
        issue(plan_einsum("ij,jk->ik", &vec![a.clone()])),
        EinsumIssue::SpecOperandCount { named: 2, given: 1 }
    ));
    assert!(matches!(issue(plan_einsum("ii->i", &vec![vec![2, 2]])), EinsumIssue::RepeatedLetter { letter: 'i' }));
    assert!(matches!(
        issue(plan_einsum("ij,jk->il", &vec![a.clone(), b.clone()])),
        EinsumIssue::UnknownOutputLetter { letter: 'l' }
    ));
    assert!(matches!(
        issue(plan_einsum("iJ,jk->ik", &vec![a.clone(), b.clone()])),
        EinsumIssue::NotALetter { letter: 'J' }
    ));
    assert!(matches!(
        issue(plan_einsum("ijk,jk->ik", &vec![a.clone(), b.clone()])),
        EinsumIssue::RankMismatch { operand: 0, letters: 3, rank: 2 }
    ));
    assert!(matches!(issue(plan_einsum("i->i", &vec![])), EinsumIssue::OperandCount { given: 0 }));
}

#[test]
fn a_matrix_product_plans_one_matmul() {
    match plan_einsum("ij,jk->ik", &vec![vec![3, 4], vec![4, 5]]).unwrap() {
        EinsumPlan::Pair { a_perm, a_sum_axes, b_perm, b_sum_axes, bn, m, k, n, natural_dims, out_perm } => {
            assert_eq!((a_perm, b_perm, out_perm), (None, None, None));
            assert!(a_sum_axes.is_empty() && b_sum_axes.is_empty());
            assert_eq!((bn, m, k, n), (1, 3, 4, 5));
            assert_eq!(natural_dims, vec![3, 5]);
        }
        EinsumPlan::Single { .. } => panic!("two operands plan a pair"),
    }
    // Transposed output: the same product, then a permute.
    match plan_einsum(" ij , jk -> ki ", &vec![vec![3, 4], vec![4, 5]]).unwrap() {
        EinsumPlan::Pair { out_perm, natural_dims, .. } => {
            assert_eq!(natural_dims, vec![3, 5]);
            assert_eq!(out_perm, Some(vec![1, 0]));
        }
        EinsumPlan::Single { .. } => panic!("two operands plan a pair"),
    }
}

#[test]
fn batch_free_contracted_and_summed_letters_are_arranged() {
    // [R, B, H, d] x [R, d, o] -> [R, B, H, o]
    match plan_einsum("rbhd,rdo->rbho", &vec![vec![2, 3, 4, 5], vec![2, 5, 6]]).unwrap() {
        EinsumPlan::Pair { a_perm, b_perm, bn, m, k, n, natural_dims, out_perm, .. } => {
            assert_eq!(a_perm, None);
            assert_eq!(b_perm, None);
            assert_eq!((bn, m, k, n), (2, 12, 5, 6));
            assert_eq!(natural_dims, vec![2, 3, 4, 6]);
            assert_eq!(out_perm, None);
        }
        EinsumPlan::Single { .. } => panic!("two operands plan a pair"),
    }
    // A letter only `a` has and the output lacks is summed away first.
    match plan_einsum("ij,j->", &vec![vec![2, 3], vec![3]]).unwrap() {
        EinsumPlan::Pair { a_perm, a_sum_axes, bn, m, k, n, .. } => {
            assert_eq!(a_perm, Some(vec![1, 0]));
            assert_eq!(a_sum_axes, vec![1]);
            assert_eq!((bn, m, k, n), (1, 1, 3, 1));
        }
        EinsumPlan::Single { .. } => panic!("two operands plan a pair"),
    }
}

#[test]
fn single_operand_transpose_and_sums() {
    match plan_einsum("ij->ji", &vec![vec![2, 3]]).unwrap() {
        EinsumPlan::Single { perm, sum_axes } => {
            assert_eq!(perm, Some(vec![1, 0]));
            assert!(sum_axes.is_empty());
        }
        EinsumPlan::Pair { .. } => panic!("one operand plans a single"),
    }
    match plan_einsum("ij->", &vec![vec![2, 3]]).unwrap() {
        EinsumPlan::Single { perm, sum_axes } => {
            assert_eq!(perm, None);
            assert_eq!(sum_axes, vec![0, 1]);
        }
        EinsumPlan::Pair { .. } => panic!("one operand plans a single"),
    }
    match plan_einsum("ijk->kj", &vec![vec![2, 3, 4]]).unwrap() {
        EinsumPlan::Single { perm, sum_axes } => {
            assert_eq!(perm, Some(vec![2, 1, 0]));
            assert_eq!(sum_axes, vec![2]);
        }
        EinsumPlan::Pair { .. } => panic!("one operand plans a single"),
    }
}

#[test]
fn parse_and_letter_sizes() {
    let (inputs, output) = parse("ab, bc -> ac", 2).unwrap();
    assert_eq!(inputs, vec![vec!['a', 'b'], vec!['b', 'c']]);
    assert_eq!(output, vec!['a', 'c']);
    let (inputs, output) = parse("i,i->", 2).unwrap();
    assert_eq!(inputs, vec![vec!['i'], vec!['i']]);
    assert!(output.is_empty());
    let table = letter_sizes(&inputs, &vec![vec![4], vec![4]]).unwrap();
    assert_eq!(table, vec![('i', 4)]);
    assert_eq!(size_of(&table, 'i'), 4);
    assert_eq!(size_of(&table, 'z'), 1);
}
