//! NumPy broadcasting as a total function, hand-computed.
use oxmera_tensor::elementwise::{broadcast_pair, unbroadcast_axes};
use oxmera_tensor::error::Error;
use oxmera_tensor::shape::{broadcast_shapes, Shape};
use oxmera_tensor::tensor::Tensor;

fn s(dims: &[usize]) -> Shape {
    Shape::from_slice(dims)
}

#[test]
fn hand_cases_that_broadcast() {
    let cases: &[(&[usize], &[usize], &[usize])] = &[
        (&[2, 3], &[3], &[2, 3]),
        (&[3], &[2, 3], &[2, 3]),
        (&[2, 1], &[1, 3], &[2, 3]),
        (&[], &[2, 3], &[2, 3]),
        (&[2, 3], &[], &[2, 3]),
        (&[], &[], &[]),
        (&[4, 1, 5], &[3, 1], &[4, 3, 5]),
        (&[1], &[1], &[1]),
        (&[5], &[1], &[5]),
        (&[0], &[1], &[0]),
        (&[2, 0], &[1, 1], &[2, 0]),
    ];
    for (lhs, rhs, expected) in cases {
        let got = broadcast_shapes(&s(lhs), &s(rhs)).unwrap_or_else(|e| {
            panic!("{lhs:?} with {rhs:?} must broadcast to {expected:?}, got error: {e:?}")
        });
        assert_eq!(got, s(expected), "{lhs:?} with {rhs:?}");
    }
}

#[test]
fn hand_cases_that_must_refuse() {
    let cases: &[(&[usize], &[usize])] = &[(&[2], &[3]), (&[2, 3], &[2, 4]), (&[4, 3], &[2, 1, 2]), (&[0], &[2])];
    for (lhs, rhs) in cases {
        match broadcast_shapes(&s(lhs), &s(rhs)) {
            Err(Error::BroadcastIncompatible { lhs: l, rhs: r }) => {
                assert_eq!((l, r), (s(lhs), s(rhs)), "error must carry the operands verbatim");
            }
            other => panic!("{lhs:?} with {rhs:?} must refuse with BroadcastIncompatible, got {other:?}"),
        }
    }
}

#[test]
fn broadcasting_is_commutative_idempotent_and_has_the_scalar_as_identity() {
    let shapes: &[&[usize]] = &[&[], &[1], &[3], &[2, 1], &[1, 3], &[2, 3], &[0, 1], &[4, 1, 3]];
    for a in shapes {
        for b in shapes {
            let ab = broadcast_shapes(&s(a), &s(b));
            let ba = broadcast_shapes(&s(b), &s(a));
            match (ab, ba) {
                (Ok(x), Ok(y)) => assert_eq!(x, y, "{a:?} {b:?}"),
                (Err(_), Err(_)) => {}
                (x, y) => panic!("asymmetric outcome: {x:?} vs {y:?}"),
            }
        }
        assert_eq!(broadcast_shapes(&s(a), &s(a)).unwrap(), s(a));
        assert_eq!(broadcast_shapes(&s(a), &s(&[])).unwrap(), s(a));
    }
}

#[test]
fn broadcast_pair_aligns_a_column_with_a_row() {
    let col = Tensor::from_vec(vec![10i64, 20], Shape::new(vec![2, 1])).unwrap();
    let row = Tensor::from_vec(vec![1i64, 2, 3], Shape::new(vec![3])).unwrap();
    let (shape, a, b) = broadcast_pair(&col, &row).unwrap();
    assert_eq!(shape, Shape::new(vec![2, 3]));
    assert_eq!(a, vec![10, 10, 10, 20, 20, 20]);
    assert_eq!(b, vec![1, 2, 3, 1, 2, 3]);
    let bad = Tensor::from_vec(vec![1i64, 2], Shape::new(vec![2])).unwrap();
    assert!(matches!(broadcast_pair(&row, &bad), Err(Error::BroadcastIncompatible { .. })));
}

#[test]
fn unbroadcast_axes_undo_leading_and_expanded_axes() {
    assert_eq!(unbroadcast_axes(&[2, 3], &[2, 3]), None);
    assert_eq!(unbroadcast_axes(&[4, 2, 3], &[3]), Some(vec![0, 1]));
    assert_eq!(unbroadcast_axes(&[2, 3], &[1, 3]), Some(vec![0]));
    assert_eq!(unbroadcast_axes(&[5, 2, 3], &[2, 1]), Some(vec![0, 2]));
    assert_eq!(unbroadcast_axes(&[2, 1], &[1, 1]), Some(vec![0]));
}
