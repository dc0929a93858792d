//! Zero-copy strided views over shared storage.
use std::sync::Arc;

use oxmera_tensor::error::Error;
use oxmera_tensor::layout::Layout;
use oxmera_tensor::shape::{Shape, Strides};
use oxmera_tensor::tensor::Tensor;

fn t23() -> Tensor<f32> {
    Tensor::from_vec(vec![1.0, 2.0, 3.0, 4.0, 5.0, 6.0], Shape::new(vec![2, 3])).unwrap()
}

#[test]
fn views_permute_reads_the_transpose_and_shares_storage() {
    let t = t23();
    let tt = t.permute(&[1, 0]).unwrap();
    assert_eq!(tt.shape(), &Shape::new(vec![3, 2]));
    assert_eq!(tt.get(&[0, 1]).unwrap(), 4.0);
    assert_eq!(tt.get(&[2, 1]).unwrap(), 6.0);
    assert!(Arc::ptr_eq(t.storage(), tt.storage()), "permute must be a view");
}

#[test]
fn narrow_and_slice_window_and_share_storage() {
    let t = t23();
    let n = t.narrow(1, 1, 2).unwrap();
    assert_eq!(n.to_vec(), vec![2.0, 3.0, 5.0, 6.0]);
    assert!(Arc::ptr_eq(t.storage(), n.storage()));
    let s = t.slice(1, 1, 3).unwrap();
    assert_eq!(s.to_vec(), n.to_vec());
}

#[test]
fn views_reshape_of_a_contiguous_tensor_is_a_view() {
    let t = t23();
    let r = t.reshape(Shape::new(vec![3, 2])).unwrap();
    assert_eq!(r.get(&[2, 1]).unwrap(), 6.0);
    assert!(Arc::ptr_eq(t.storage(), r.storage()));
}

#[test]
fn contiguous_materializes_a_permuted_view() {
    let t = t23();
    let tt = t.permute(&[1, 0]).unwrap();
    assert!(!tt.layout().is_contiguous());
    let c = tt.contiguous().unwrap();
    assert!(c.layout().is_contiguous());
    assert!(!Arc::ptr_eq(tt.storage(), c.storage()));
    assert_eq!(c.to_vec(), tt.to_vec());

    let already = t.contiguous().unwrap();
    assert!(Arc::ptr_eq(t.storage(), already.storage()), "no gratuitous copy");
}

#[test]
fn broadcast_to_is_a_zero_copy_view() {
    let row = Tensor::from_vec(vec![1.0f32, 2.0, 3.0], Shape::new(vec![3])).unwrap();
    let b = row.broadcast_to(&Shape::new(vec![2, 3])).unwrap();
    assert!(Arc::ptr_eq(row.storage(), b.storage()));
    assert_eq!(b.to_vec(), vec![1.0, 2.0, 3.0, 1.0, 2.0, 3.0]);
}

#[test]
fn unsqueeze_inserts_a_size_one_axis() {
    let t = t23();
    let u = t.unsqueeze(0).unwrap();
    assert_eq!(u.dims(), &[1, 2, 3]);
    assert_eq!(u.to_vec(), t.to_vec());
}

#[test]
fn views_view_errors_are_typed() {
    let t = t23();
    assert!(t.permute(&[0, 0]).is_err());
    assert!(t.narrow(1, 2, 2).is_err());
    assert!(matches!(t.reshape(Shape::new(vec![4, 2])), Err(Error::ShapeMismatch { .. })));
    assert!(matches!(
        Tensor::from_vec(vec![1.0f32; 5], Shape::new(vec![2, 3])),
        Err(Error::ShapeMismatch { .. })
    ));
}

#[test]
fn negative_strides_are_representable() {
    // A manually flipped view of [1, 2, 3]: offset 2, stride -1.
    let t = Tensor::from_vec(vec![1.0f32, 2.0, 3.0], Shape::new(vec![3])).unwrap();
    let flipped = Tensor::from_storage(
        t.storage().clone(),
        Layout { shape: Shape::new(vec![3]), strides: Strides::new(vec![-1]), offset: 2 },
    )
    .unwrap();
    assert_eq!(flipped.to_vec(), vec![3.0, 2.0, 1.0]);
}

#[test]
fn transpose_and_t_swap_the_last_two_dimensions() {
    let t = t23();
    assert_eq!(t.t().unwrap().to_vec(), vec![1.0, 4.0, 2.0, 5.0, 3.0, 6.0]);
    assert_eq!(t.transpose(0, 1).unwrap().dims(), &[3, 2]);
    assert!(t.transpose(0, 2).is_err());
}

#[test]
fn permute_then_its_inverse_reads_back_every_element() {
    let data: Vec<u32> = (0..24).collect();
    let t = Tensor::from_vec(data, Shape::new(vec![2, 3, 4])).unwrap();
    let perm = [2usize, 0, 1];
    let inv = oxmera_tensor::perm::inverse_permutation(&perm, 3).unwrap();
    assert_eq!(inv, vec![1, 2, 0]);
    let round = t.permute(&perm).unwrap().permute(&inv).unwrap();
    assert_eq!(round.shape(), t.shape());
    assert_eq!(round.to_vec(), t.to_vec());
    assert!(oxmera_tensor::perm::inverse_permutation(&[0, 0, 1], 3).is_none());
}

#[test]
fn reshape_of_a_strided_view_copies_in_logical_order() {
    let t = t23().t().unwrap();
    let r = t.reshape(Shape::new(vec![6])).unwrap();
    assert_eq!(r.to_vec(), vec![1.0, 4.0, 2.0, 5.0, 3.0, 6.0]);
    assert!(!Arc::ptr_eq(t.storage(), r.storage()));
}

#[test]
fn get_reports_rank_and_bounds_errors() {
    let t = t23();
    assert!(matches!(t.get(&[0]), Err(Error::RankMismatch { index_rank: 1, shape_rank: 2 })));
    match t.get(&[0, 3]) {
        Err(Error::IndexOutOfBounds { index, shape }) => {
            assert_eq!(index, vec![0, 3]);
            assert_eq!(shape, Shape::new(vec![2, 3]));
        }
        other => panic!("expected IndexOutOfBounds, got {other:?}"),
    }
}

#[test]
fn reshape_of_a_transposed_view_reads_in_logical_order() {
    let t = Tensor::from_vec(vec![1, 2, 3, 4, 5, 6], Shape::new(vec![2, 3])).unwrap();
    let v = t.t().unwrap().reshape(Shape::new(vec![6])).unwrap();
    assert_eq!(v.to_vec(), vec![1, 4, 2, 5, 3, 6]);
    let c = t.t().unwrap().contiguous().unwrap();
    assert_eq!(c.dims(), &[3, 2]);
    assert_eq!(c.to_vec(), vec![1, 4, 2, 5, 3, 6]);
}

#[test]
fn broadcast_to_refuses_a_shape_it_does_not_broadcast_onto() {
    let row = Tensor::from_vec(vec![1.0f32, 2.0, 3.0], Shape::new(vec![3])).unwrap();
    for target in [vec![2, 2], vec![]] {
        match row.broadcast_to(&Shape::new(target.clone())) {
            Err(Error::BroadcastIncompatible { lhs, rhs }) => {
                assert_eq!(lhs.dims(), &[3]);
                assert_eq!(rhs.dims(), target.as_slice());
            }
            other => panic!("expected BroadcastIncompatible, got {:?}", other.map(|t| t.dims().to_vec())),
        }
    }
}
