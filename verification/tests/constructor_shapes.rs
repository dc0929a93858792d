//! Every constructor accepts the same shape spellings, and the typed
//! constructors name themselves when they refuse.
use oxmera_tensor::error::Error;
use oxmera_tensor::shape::Shape;
use oxmera_tensor::tensor::Tensor;

#[test]
fn from_vec_i64_takes_a_bare_array_like_everything_else() {
    let t = Tensor::from_vec_as(vec![3i64, 1, 3], Shape::from_slice(&[3]), "Tensor::from_vec_i64")
        .unwrap();
    assert_eq!(t.dims(), &[3]);
    assert_eq!(t.to_vec(), vec![3, 1, 3]);
}

#[test]
fn from_vec_f32_takes_every_shape_spelling() {
    let data = vec![1.0f32, 2.0, 3.0, 4.0, 5.0, 6.0];
    let a = Tensor::from_vec_as(data.clone(), Shape::from_slice(&[2, 3]), "Tensor::from_vec_f32")
        .unwrap();
    let b = Tensor::from_vec_as(data.clone(), Shape::from_slice(&[2usize, 3][..]), "Tensor::from_vec_f32")
        .unwrap();
    let c = Tensor::from_vec_as(data.clone(), Shape::new(vec![2, 3]), "Tensor::from_vec_f32").unwrap();
    let d = Tensor::from_vec(data.clone(), Shape::new(vec![2, 3])).unwrap();
    for t in [&a, &b, &c, &d] {
        assert_eq!(t.dims(), &[2, 3]);
        assert_eq!(t.to_vec(), data);
    }
}

#[test]
fn length_mismatch_is_still_a_typed_error() {
    assert!(Tensor::from_vec_as(vec![1.0f32, 2.0], Shape::from_slice(&[3]), "Tensor::from_vec_f32")
        .is_err());
    assert!(Tensor::from_vec_as(vec![1i64, 2], Shape::from_slice(&[3]), "Tensor::from_vec_i64").is_err());
    match Tensor::from_vec_as(vec![1.0f32; 5], Shape::from_slice(&[2, 3]), "Tensor::from_vec_f32") {
        Err(Error::ShapeMismatch { op: "Tensor::from_vec_f32", .. }) => {}
        other => panic!("expected a labelled ShapeMismatch, got {:?}", other.map(|t| t.dims().to_vec())),
    }
}
