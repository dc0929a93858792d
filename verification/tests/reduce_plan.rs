//! Reduction planning: canonical axes, output shapes, and groups.
use oxmera_tensor::error::{Error, Issue};
use oxmera_tensor::reduce::{
    argmax_groups, mean_divisor, normalize_axes, reduce_groups, reduce_values, reduced_count,
    sort_axes, split_axes,
};
use oxmera_tensor::shape::Shape;
use oxmera_tensor::tensor::Tensor;

fn t23() -> Tensor<i32> {
    Tensor::from_vec(vec![1, 2, 3, 4, 5, 6], Shape::new(vec![2, 3])).unwrap()
}

#[test]
fn groups_follow_the_kept_then_reduced_coordinates() {
    let (s, g) = reduce_groups(&t23(), &[1], false).unwrap();
    assert_eq!(s.dims(), &[2]);
    assert_eq!(g, vec![vec![1, 2, 3], vec![4, 5, 6]]);
    let (s, g) = reduce_groups(&t23(), &[0], true).unwrap();
    assert_eq!(s.dims(), &[1, 3]);
    assert_eq!(g, vec![vec![1, 4], vec![2, 5], vec![3, 6]]);
    let (s, g) = reduce_groups(&t23(), &[0, 1], false).unwrap();
    assert!(s.dims().is_empty());
    assert_eq!(g, vec![vec![1, 2, 3, 4, 5, 6]]);
}

fn empty(dims: &[usize]) -> Tensor<f32> {
    Tensor::full(Shape::from_slice(dims), 0.0f32).unwrap()
}

fn sum(t: &Tensor<f32>, axes: &[usize], keepdim: bool) -> (Vec<usize>, Vec<f32>) {
    let (s, v) = reduce_values(t, axes, keepdim, 0.0f32, &|a: f32, x: f32| a + x).unwrap();
    (s.dims().to_vec(), v)
}

fn max(t: &Tensor<f32>, axes: &[usize], keepdim: bool) -> (Vec<usize>, Vec<f32>) {
    let (s, v) = reduce_values(t, axes, keepdim, f32::NEG_INFINITY, &|a: f32, x: f32| a.max(x)).unwrap();
    (s.dims().to_vec(), v)
}

fn min(t: &Tensor<f32>, axes: &[usize], keepdim: bool) -> (Vec<usize>, Vec<f32>) {
    let (s, v) = reduce_values(t, axes, keepdim, f32::INFINITY, &|a: f32, x: f32| a.min(x)).unwrap();
    (s.dims().to_vec(), v)
}

#[test]
fn sum_of_nothing_is_zero_for_every_empty_shape() {
    for dims in [&[0usize][..], &[0, 3], &[2, 0], &[2, 0, 5], &[0, 0]] {
        let t = empty(dims);
        let all: Vec<usize> = (0..dims.len()).collect();
        assert_eq!(sum(&t, &all, false).1, vec![0.0], "{dims:?}");
    }
}

#[test]
fn max_and_min_of_nothing_are_their_identities() {
    let t = empty(&[0, 3]);
    assert_eq!(max(&t, &[0, 1], false).1, vec![f32::NEG_INFINITY]);
    assert_eq!(min(&t, &[0, 1], false).1, vec![f32::INFINITY]);
}

#[test]
fn reducing_only_the_empty_axis_keeps_the_others() {
    // [2, 0, 3] summed over axis 1 → [2, 3] of zeros; maxed → [2, 3] of -inf.
    let t = empty(&[2, 0, 3]);
    let (dims, values) = sum(&t, &[1], false);
    assert_eq!(dims, vec![2, 3]);
    assert_eq!(values, vec![0.0; 6]);
    let (dims, values) = max(&t, &[1], true);
    assert_eq!(dims, vec![2, 1, 3]);
    assert!(values.iter().all(|&x| x == f32::NEG_INFINITY));
    let (s, g) = reduce_groups(&t, &[1], false).unwrap();
    assert_eq!(s.dims(), &[2, 3]);
    assert!(g.iter().all(|row| row.is_empty()));
}

#[test]
fn reducing_a_nonempty_axis_of_a_tensor_with_an_empty_one_gives_an_empty_result() {
    // [2, 0, 3] summed over axis 2 → [2, 0]: no outputs at all.
    let (dims, values) = sum(&empty(&[2, 0, 3]), &[2], false);
    assert_eq!(dims, vec![2, 0]);
    assert!(values.is_empty());
}

#[test]
fn each_output_folds_its_group_in_order() {
    let t = t23();
    let (s, v) = reduce_values(&t, &[1], false, 0, &|a: i32, x: i32| a * 10 + x).unwrap();
    assert_eq!(s.dims(), &[2]);
    assert_eq!(v, vec![123, 456]);
    let (s, v) = reduce_values(&t, &[0], true, 0, &|a: i32, x: i32| a * 10 + x).unwrap();
    assert_eq!(s.dims(), &[1, 3]);
    assert_eq!(v, vec![14, 25, 36]);
    assert!(matches!(
        reduce_values(&t, &[2], false, 0, &|a: i32, x: i32| a + x),
        Err(Error::InvalidArgument { issue: Issue::AxisOutOfRange { axis: 2, rank: 2 }, .. })
    ));
}

#[test]
fn axes_are_canonicalized_and_checked() {
    assert_eq!(normalize_axes(&[], 3, "sum").unwrap(), vec![0, 1, 2]);
    assert_eq!(normalize_axes(&[2, 0, 2], 3, "sum").unwrap(), vec![0, 2]);
    match normalize_axes(&[5, 1, 4], 3, "sum") {
        Err(Error::InvalidArgument { op: "sum", issue: Issue::AxisOutOfRange { axis: 4, rank: 3 } }) => {}
        other => panic!("expected AxisOutOfRange naming 4, got {other:?}"),
    }
    assert_eq!(split_axes(&[2, 3, 4], &[1], false), (vec![2, 4], vec![0, 2]));
    assert_eq!(split_axes(&[2, 3, 4], &[1], true), (vec![2, 1, 4], vec![0, 2]));
    assert_eq!(sort_axes(&[3, 1, 2, 1]), vec![1, 1, 2, 3]);
    assert_eq!(reduced_count(&[2, 3, 4], &[0, 2]), Some(8));
}

#[test]
fn mean_of_nothing_is_a_typed_error() {
    match mean_divisor(&[0, 3], &[0, 1]) {
        Err(Error::InvalidArgument { op: "mean", issue: Issue::EmptyExtent { dim: 0 } }) => {}
        other => panic!("the mean of nothing must refuse, got {other:?}"),
    }
    // A mean over a non-empty axis of a tensor that merely has an empty
    // one divides by a real count.
    assert_eq!(mean_divisor(&[0, 3], &[1]).unwrap(), (vec![1], 3));
    assert_eq!(mean_divisor(&[2, 3], &[]).unwrap(), (vec![0, 1], 6));
}

#[test]
fn argmax_over_an_empty_axis_is_an_error() {
    let t = Tensor::<f32>::from_vec(vec![], Shape::new(vec![2, 0])).unwrap();
    match argmax_groups(&t, 1, false) {
        Err(Error::InvalidArgument { op: "argmax", issue: Issue::EmptyExtent { dim: 1 } }) => {}
        other => panic!("argmax of nothing must refuse, got {other:?}"),
    }
    let (s, g) = argmax_groups(&t, 0, false).unwrap();
    assert_eq!(s.dims(), &[0]);
    assert!(g.is_empty());
    assert!(matches!(
        argmax_groups(&t, 2, false),
        Err(Error::InvalidArgument { issue: Issue::DimOutOfRange { dim: 2, rank: 2 }, .. })
    ));
}

#[test]
fn argmax_groups_hold_each_row() {
    let (s, g) = argmax_groups(&t23(), 1, true).unwrap();
    assert_eq!(s.dims(), &[2, 1]);
    assert_eq!(g, vec![vec![1, 2, 3], vec![4, 5, 6]]);
}

#[test]
fn unsqueeze_axes_restores_the_keepdim_shape() {
    let (s, _) = reduce_groups(&Tensor::from_vec(vec![0u8; 24], Shape::new(vec![2, 3, 4])).unwrap(), &[0, 2], false).unwrap();
    let reduced = Tensor::from_vec(vec![7u8, 8, 9], s).unwrap();
    let back = reduced.unsqueeze_axes(&[2, 0]).unwrap();
    assert_eq!(back.dims(), &[1, 3, 1]);
    assert_eq!(back.to_vec(), vec![7, 8, 9]);
    assert!(reduced.unsqueeze_axes(&[3]).is_err());
}

#[test]
fn mean_names_the_first_empty_axis_in_ascending_order() {
    // Axes given out of order and repeated are still checked lowest first.
    match mean_divisor(&[0, 3, 0], &[2, 0, 2]) {
        Err(Error::InvalidArgument { op: "mean", issue: Issue::EmptyExtent { dim: 0 } }) => {}
        other => panic!("expected EmptyExtent naming 0, got {other:?}"),
    }
    assert_eq!(mean_divisor(&[4, 3, 5], &[2, 0, 2]).unwrap(), (vec![0, 2], 20));
    match mean_divisor(&[usize::MAX, 3], &[]) {
        Err(Error::ShapeOverflow { op: "mean", .. }) => {}
        other => panic!("expected ShapeOverflow, got {other:?}"),
    }
}

#[test]
fn reducing_a_tensor_with_an_empty_kept_axis_still_plans() {
    let t = Tensor::<i32>::from_vec(vec![], Shape::new(vec![0, 4])).unwrap();
    let (s, g) = reduce_groups(&t, &[1], false).unwrap();
    assert_eq!(s.dims(), &[0]);
    assert!(g.is_empty());
    let (s, g) = reduce_groups(&t, &[0], true).unwrap();
    assert_eq!(s.dims(), &[1, 4]);
    assert_eq!(g, vec![Vec::<i32>::new(); 4]);
}
