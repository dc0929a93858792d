//! The shape contract of matrix products.
use oxmera_tensor::error::{Error, Issue};
use oxmera_tensor::matmul::plan_matmul;
use oxmera_tensor::shape::Shape;

fn s(d: &[usize]) -> Shape {
    Shape::from_slice(d)
}

#[test]
fn the_plan_reports_zero_stride_for_the_broadcast_operand() {
    let p = plan_matmul(&s(&[2, 2, 3]), &s(&[1, 3, 2])).unwrap();
    assert_eq!((p.batch, p.m, p.k, p.n), (2, 2, 3, 2));
    assert_eq!((p.a_batch_stride, p.b_batch_stride), (6, 0));
    let p = plan_matmul(&s(&[2, 3]), &s(&[4, 3, 5])).unwrap();
    assert_eq!((p.a_batch_stride, p.b_batch_stride), (0, 15));
    assert_eq!(p.out_shape.dims(), &[4, 2, 5]);
}

#[test]
fn plain_matrices_give_a_matrix_and_stacks_give_a_stack() {
    let p = plan_matmul(&s(&[2, 3]), &s(&[3, 2])).unwrap();
    assert_eq!(p.out_shape.dims(), &[2, 2]);
    assert_eq!((p.batch, p.a_batch_stride, p.b_batch_stride), (1, 0, 0));
    let p = plan_matmul(&s(&[2, 2, 3]), &s(&[2, 3, 2])).unwrap();
    assert_eq!(p.out_shape.dims(), &[2, 2, 2]);
    assert_eq!((p.a_batch_stride, p.b_batch_stride), (6, 6));
    let p = plan_matmul(&s(&[4, 2, 3]), &s(&[3, 5])).unwrap();
    assert_eq!(p.out_shape.dims(), &[4, 2, 5]);
    assert_eq!((p.a_batch_stride, p.b_batch_stride), (6, 0));
}

#[test]
fn incompatible_plans_are_typed_errors() {
    assert!(matches!(
        plan_matmul(&s(&[2, 2, 3]), &s(&[3, 3, 2])),
        Err(Error::BroadcastIncompatible { .. })
    ));
    match plan_matmul(&s(&[2, 2, 3]), &s(&[2, 4, 2])) {
        Err(Error::ShapeMismatch { expected, got, op }) => {
            assert_eq!(expected, s(&[2, 2, 3]));
            assert_eq!(got, s(&[2, 4, 2]));
            assert_eq!(op, "matmul");
        }
        other => panic!("expected ShapeMismatch, got {other:?}"),
    }
    assert!(matches!(
        plan_matmul(&s(&[3]), &s(&[3, 2])),
        Err(Error::InvalidArgument { issue: Issue::RankTooSmall { needed: 2, got: 1 }, .. })
    ));
    assert!(matches!(
        plan_matmul(&s(&[2, 3]), &s(&[2, 3, 4, 5])),
        Err(Error::InvalidArgument { issue: Issue::RankTooLarge { limit: 3, got: 4 }, .. })
    ));
}

#[test]
fn zero_sized_matrices_plan_an_empty_product() {
    let p = plan_matmul(&s(&[2, 0, 3]), &s(&[2, 3, 4])).unwrap();
    assert_eq!(p.out_shape.dims(), &[2, 0, 4]);
    let p = plan_matmul(&s(&[2, 0]), &s(&[0, 3])).unwrap();
    assert_eq!(p.out_shape.dims(), &[2, 3]);
    assert_eq!(p.k, 0);
}
