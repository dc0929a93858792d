//! Hand-computed strided views of the running example [[1,2,3],[4,5,6]].
use std::sync::Arc;

use oxmera_tensor::error::Error;
use oxmera_tensor::shape::Shape;
use oxmera_tensor::tensor::Tensor;

fn t23() -> Tensor<f32> {
    Tensor::from_vec(vec![1.0, 2.0, 3.0, 4.0, 5.0, 6.0], Shape::new(vec![2, 3])).unwrap()
}

#[test]
fn spec_permute_reads_the_transpose_and_shares_storage() {
    let t = t23();
    let tt = t.permute(&[1, 0]).unwrap();
    assert_eq!(tt.shape(), &Shape::new(vec![3, 2]));
    assert_eq!(tt.get(&[0, 0]).unwrap(), 1.0);
    assert_eq!(tt.get(&[0, 1]).unwrap(), 4.0);
    assert_eq!(tt.get(&[1, 0]).unwrap(), 2.0);
    assert_eq!(tt.get(&[2, 1]).unwrap(), 6.0);
    assert!(Arc::ptr_eq(t.storage(), tt.storage()), "permute must be a view");
}

#[test]
fn narrow_windows_the_middle_and_shares_storage() {
    let t = t23();
    let n = t.narrow(1, 1, 2).unwrap();
    assert_eq!(n.shape(), &Shape::new(vec![2, 2]));
    assert_eq!(n.get(&[0, 0]).unwrap(), 2.0);
    assert_eq!(n.get(&[0, 1]).unwrap(), 3.0);
    assert_eq!(n.get(&[1, 0]).unwrap(), 5.0);
    assert_eq!(n.get(&[1, 1]).unwrap(), 6.0);
    assert!(Arc::ptr_eq(t.storage(), n.storage()), "narrow must be a view");
}

#[test]
fn spec_reshape_of_a_contiguous_tensor_is_a_view() {
    let t = t23();
    let r = t.reshape(Shape::new(vec![3, 2])).unwrap();
    assert_eq!(r.get(&[0, 1]).unwrap(), 2.0);
    assert_eq!(r.get(&[1, 0]).unwrap(), 3.0);
    assert_eq!(r.get(&[2, 1]).unwrap(), 6.0);
    assert!(Arc::ptr_eq(t.storage(), r.storage()), "contiguous reshape must not copy");
}

#[test]
fn contiguous_materializes_a_permuted_view_in_logical_order() {
    let t = t23();
    let tt = t.permute(&[1, 0]).unwrap();
    assert!(!tt.layout().is_contiguous(), "the transpose of [2,3] cannot be contiguous");
    let c = tt.contiguous().unwrap();
    assert!(c.layout().is_contiguous());
    assert!(!Arc::ptr_eq(tt.storage(), c.storage()), "contiguous() must copy here");
    for i in 0..3 {
        for j in 0..2 {
            assert_eq!(c.get(&[i, j]).unwrap(), tt.get(&[i, j]).unwrap());
        }
    }
}

#[test]
fn contiguous_on_an_already_contiguous_tensor_shares_storage() {
    let t = t23();
    let c = t.contiguous().unwrap();
    assert!(Arc::ptr_eq(t.storage(), c.storage()), "no gratuitous copy");
}

#[test]
fn spec_view_errors_are_typed() {
    let t = t23();
    assert!(matches!(t.permute(&[0, 0]), Err(_)), "a non-permutation must refuse");
    assert!(matches!(t.permute(&[0]), Err(_)), "wrong-arity perm must refuse");
    assert!(t.narrow(1, 2, 2).is_err(), "narrow past the end must refuse");
    assert!(t.narrow(2, 0, 1).is_err(), "narrow of a missing dim must refuse");
    match t.reshape(Shape::new(vec![4, 2])) {
        Err(Error::ShapeMismatch { .. }) => {}
        other => panic!("element-count mismatch must be ShapeMismatch, got {other:?}"),
    }
    assert!(matches!(
        Tensor::from_vec(vec![1.0f32; 5], Shape::new(vec![2, 3])),
        Err(Error::ShapeMismatch { .. })
    ));
}
