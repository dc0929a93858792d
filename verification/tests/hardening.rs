//! Typed errors where a careless bounds check would panic or wrap.
use oxmera_tensor::error::{Error, Issue};
use oxmera_tensor::layout::Layout;
use oxmera_tensor::shape::{Shape, Strides};
use oxmera_tensor::tensor::Tensor;

#[test]
fn from_storage_rejects_a_negative_stride_that_underflows() {
    let t = Tensor::from_vec(vec![1.0f32, 2.0, 3.0], Shape::new(vec![3])).unwrap();
    let bad = Layout { shape: Shape::new(vec![3]), strides: Strides::new(vec![-1]), offset: 1 };
    let e = Tensor::from_storage(t.storage().clone(), bad).unwrap_err();
    assert!(matches!(e, Error::InvalidArgument { .. }), "{e:?}");
    let ok = Tensor::from_storage(
        t.storage().clone(),
        Layout { shape: Shape::new(vec![3]), strides: Strides::new(vec![-1]), offset: 2 },
    )
    .unwrap();
    assert_eq!(ok.to_vec(), vec![3.0, 2.0, 1.0]);
}

#[test]
fn narrow_reports_an_overflowing_range_instead_of_panicking() {
    let t = Tensor::from_vec(vec![1.0f32, 2.0, 3.0], Shape::new(vec![3])).unwrap();
    let e = t.narrow(0, 2, usize::MAX).unwrap_err();
    assert!(matches!(e, Error::InvalidArgument { .. }), "{e:?}");
}

#[test]
fn from_storage_rejects_a_layout_that_overflows_the_address_space() {
    let t = Tensor::from_vec(vec![1.0f32, 2.0, 3.0], Shape::new(vec![3])).unwrap();
    for (dims, stride) in [(3usize, isize::MAX), (4, isize::MAX / 2), (3, isize::MIN + 1)] {
        let bad = Layout { shape: Shape::new(vec![dims]), strides: Strides::new(vec![stride]), offset: 0 };
        let e = Tensor::from_storage(t.storage().clone(), bad).unwrap_err();
        assert!(matches!(e, Error::InvalidArgument { .. }), "{dims}x{stride}: {e:?}");
    }
    let bad = Layout { shape: Shape::new(vec![3]), strides: Strides::new(vec![1]), offset: usize::MAX - 1 };
    assert!(Tensor::from_storage(t.storage().clone(), bad).is_err());
}

#[test]
fn from_vec_rejects_an_overflowing_shape() {
    let huge = || Shape::new(vec![1usize << 32, 1usize << 32]);
    assert!(matches!(Tensor::<f32>::from_vec(vec![], huge()), Err(Error::ShapeOverflow { .. })));
    assert!(Tensor::<i64>::from_vec(vec![], huge()).is_err());
}

#[test]
fn reshape_and_broadcast_reject_an_overflowing_shape() {
    let huge = || Shape::new(vec![1usize << 32, 1usize << 32]);
    let t = Tensor::<f32>::from_vec(vec![], Shape::new(vec![0, 3])).unwrap();
    assert!(t.reshape(huge()).is_err());
    let one = Tensor::from_vec(vec![0.0f32], Shape::new(vec![1, 1])).unwrap();
    assert!(one.broadcast_to(&huge()).is_err());
}

#[test]
fn a_layout_without_one_stride_per_dimension_is_refused() {
    let t = Tensor::from_vec(vec![1u8, 2, 3], Shape::new(vec![3])).unwrap();
    let bad = Layout { shape: Shape::new(vec![3]), strides: Strides::new(vec![1, 1]), offset: 0 };
    match Tensor::from_storage(t.storage().clone(), bad) {
        Err(Error::InvalidArgument { issue: Issue::StrideCount { strides: 2, dims: 1 }, .. }) => {}
        other => panic!("expected StrideCount, got {other:?}"),
    }
}

const HUGE: [usize; 2] = [1usize << 32, 1usize << 32];

fn try_zeros(dims: &[usize]) -> Result<Tensor<f32>, Error> {
    Tensor::full(Shape::from_slice(dims), 0.0f32)
}

fn try_ones(dims: &[usize]) -> Result<Tensor<f32>, Error> {
    Tensor::full(Shape::from_slice(dims), 1.0f32)
}

fn try_full(dims: &[usize], value: f32) -> Result<Tensor<f32>, Error> {
    Tensor::full(Shape::from_slice(dims), value)
}

#[test]
fn try_constructors_return_a_typed_error_on_an_overflowing_shape() {
    assert!(try_zeros(&HUGE).is_err());
    assert!(try_ones(&HUGE).is_err());
    assert!(try_full(&HUGE, 1.0).is_err());
    assert_eq!(try_zeros(&[2, 3]).unwrap().numel(), 6);
    assert_eq!(try_full(&[2, 2], 7.0).unwrap().to_vec(), vec![7.0; 4]);
}

#[test]
fn a_filled_tensor_of_an_empty_shape_is_empty_and_a_scalar_holds_one_value() {
    assert_eq!(try_full(&[0, 5], 3.0).unwrap().to_vec(), Vec::<f32>::new());
    assert_eq!(try_full(&[], 3.0).unwrap().to_vec(), vec![3.0]);
    assert!(matches!(try_zeros(&HUGE), Err(Error::ShapeOverflow { .. })));
}
