//! The typed failures: each carries what went wrong.
use oxmera_tensor::elementwise::same_device;
use oxmera_tensor::error::{DType, Device, Error, Issue};
use oxmera_tensor::layout::Layout;
use oxmera_tensor::shape::{broadcast_shapes, Shape, Strides};
use oxmera_tensor::tensor::Tensor;
use std::sync::Arc;

#[test]
fn device_kind_names_are_short_and_stable() {
    assert_eq!(Device::Cpu.kind_name(), "cpu");
    assert_eq!(Device::Metal { index: 0 }.kind_name(), "metal");
    assert_eq!(Device::Cuda { index: 1 }.kind_name(), "cuda");
}

#[test]
fn broadcast_refusal_carries_both_operands() {
    let e = broadcast_shapes(&Shape::new(vec![2]), &Shape::new(vec![3])).unwrap_err();
    match &e {
        Error::BroadcastIncompatible { lhs, rhs } => {
            assert_eq!(lhs, &Shape::new(vec![2]));
            assert_eq!(rhs, &Shape::new(vec![3]));
        }
        other => panic!("expected BroadcastIncompatible, got {other:?}"),
    }
}

#[test]
fn index_errors_say_where_and_against_what() {
    let l = Layout::contiguous(Shape::new(vec![2, 3])).unwrap();

    let e = l.offset_of(&[0]).unwrap_err();
    match &e {
        Error::RankMismatch { index_rank, shape_rank } => {
            assert_eq!((*index_rank, *shape_rank), (1, 2));
        }
        other => panic!("expected RankMismatch, got {other:?}"),
    }

    let e = l.offset_of(&[0, 3]).unwrap_err();
    match &e {
        Error::IndexOutOfBounds { index, shape } => {
            assert_eq!(index, &vec![0, 3]);
            assert_eq!(shape, &Shape::new(vec![2, 3]));
        }
        other => panic!("expected IndexOutOfBounds, got {other:?}"),
    }
    assert_eq!(l.offset_of(&[1, 2]).unwrap(), 5);
}

#[test]
fn device_indices_and_element_sizes() {
    assert_eq!(Device::Cpu.index(), 0);
    assert_eq!(Device::Cuda { index: 3 }.index(), 3);
    assert_eq!(DType::F32.size_in_bytes(), 4);
    assert_eq!(DType::F64.size_in_bytes(), 8);
    assert_eq!(DType::I64.size_in_bytes(), 8);
    assert_eq!(DType::U8.size_in_bytes(), 1);
}

#[test]
fn operands_on_two_devices_are_refused_naming_both() {
    assert_eq!(same_device(Device::Cpu, Device::Cpu, "add").unwrap(), Device::Cpu);
    match same_device(Device::Cpu, Device::Metal { index: 0 }, "add") {
        Err(Error::DeviceMismatch { lhs, rhs, op }) => {
            assert_eq!(lhs, Device::Cpu);
            assert_eq!(rhs, Device::Metal { index: 0 });
            assert_eq!(op, "add");
        }
        other => panic!("expected DeviceMismatch, got {other:?}"),
    }
}

#[test]
fn view_refusals_name_the_argument_and_the_extent() {
    let t = Tensor::from_vec(vec![1i64, 2, 3, 4, 5, 6], Shape::from_slice(&[2, 3])).unwrap();
    match t.permute(&[0, 0]) {
        Err(Error::InvalidArgument { issue: Issue::NotAPermutation { perm, rank }, .. }) => {
            assert_eq!((perm, rank), (vec![0, 0], 2));
        }
        other => panic!("expected NotAPermutation, got {other:?}"),
    }
    match t.narrow(1, 2, 2) {
        Err(Error::InvalidArgument {
            issue: Issue::RangeOutOfBounds { dim, start, len, extent },
            ..
        }) => assert_eq!((dim, start, len, extent), (1, 2, 2, 3)),
        other => panic!("expected RangeOutOfBounds, got {other:?}"),
    }
}

#[test]
fn a_layout_reading_past_its_storage_names_what_is_available() {
    let storage = Arc::new(vec![1i64, 2, 3]);
    let layout = Layout {
        shape: Shape::from_slice(&[4]),
        strides: Strides::new(vec![1]),
        offset: 0,
    };
    match Tensor::from_storage(storage, layout) {
        Err(Error::InvalidArgument { issue: Issue::LayoutOutOfBounds { available }, .. }) => {
            assert_eq!(available, 3)
        }
        other => panic!("expected LayoutOutOfBounds, got {other:?}"),
    }
}

#[test]
fn refusals_name_their_operation() {
    let t = Tensor::from_vec(vec![1, 2, 3, 4, 5, 6], Shape::new(vec![3, 2])).unwrap();
    assert!(matches!(t.index_select(2, &[0]), Err(Error::InvalidArgument { op: "index_select", .. })));
    assert!(matches!(t.narrow(0, 2, usize::MAX), Err(Error::InvalidArgument { op: "narrow", .. })));
    assert!(matches!(t.permute(&[0, 0]), Err(Error::InvalidArgument { op: "permute", .. })));
    assert!(matches!(t.permute(&[0]), Err(Error::InvalidArgument { op: "permute", .. })));
    assert!(matches!(t.transpose(0, 5), Err(Error::InvalidArgument { op: "transpose", .. })));
    assert!(matches!(t.unsqueeze(9), Err(Error::InvalidArgument { op: "unsqueeze", .. })));
    let e = Tensor::<i32>::from_vec(vec![], Shape::new(vec![2, 0])).unwrap();
    assert!(matches!(
        oxmera_tensor::reduce::argmax_groups(&e, 1, false),
        Err(Error::InvalidArgument { op: "argmax", .. })
    ));
    assert!(matches!(
        oxmera_tensor::reduce::mean_divisor(&[0, 3], &[0, 1]),
        Err(Error::InvalidArgument { op: "mean", .. })
    ));
}

#[test]
fn a_flipped_stride_over_shared_storage_reads_backwards() {
    let s = Arc::new(vec![1, 2, 3]);
    let flip = |offset: usize| Layout { shape: Shape::new(vec![3]), strides: Strides::new(vec![-1]), offset };
    assert!(matches!(
        Tensor::from_storage(s.clone(), flip(1)),
        Err(Error::InvalidArgument { op: "Tensor::from_storage", .. })
    ));
    let t = Tensor::from_storage(s, flip(2)).unwrap();
    assert_eq!(t.to_vec(), vec![3, 2, 1]);
}
