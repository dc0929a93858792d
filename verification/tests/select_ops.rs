//! Row selection along a dimension and the scatter-add plan.
use oxmera_tensor::error::{Error, Issue};
use oxmera_tensor::select::{index_add_values, plan_index_add};
use oxmera_tensor::shape::Shape;
use oxmera_tensor::tensor::Tensor;

fn t23() -> Tensor<i32> {
    Tensor::from_vec(vec![1, 2, 3, 4, 5, 6], Shape::new(vec![2, 3])).unwrap()
}

#[test]
fn index_select_picks_rows_in_the_order_given() {
    let r = t23().index_select(0, &[1, 0, 1]).unwrap();
    assert_eq!(r.dims(), &[3, 3]);
    assert_eq!(r.to_vec(), vec![4, 5, 6, 1, 2, 3, 4, 5, 6]);
    let c = t23().index_select(1, &[2, 0]).unwrap();
    assert_eq!(c.dims(), &[2, 2]);
    assert_eq!(c.to_vec(), vec![3, 1, 6, 4]);
    let none = t23().index_select(1, &[]).unwrap();
    assert_eq!(none.dims(), &[2, 0]);
    // On a strided view the logical rows are selected.
    let tt = t23().t().unwrap().index_select(0, &[1]).unwrap();
    assert_eq!(tt.to_vec(), vec![2, 5]);
}

#[test]
fn index_select_errors_name_the_problem() {
    assert!(matches!(
        t23().index_select(2, &[0]),
        Err(Error::InvalidArgument { issue: Issue::DimOutOfRange { dim: 2, rank: 2 }, .. })
    ));
    match t23().index_select(1, &[0, -4, 7]) {
        Err(Error::IndexOutOfBounds { index, shape }) => {
            assert_eq!(index, vec![0]);
            assert_eq!(shape, Shape::new(vec![2, 3]));
        }
        other => panic!("expected IndexOutOfBounds, got {other:?}"),
    }
    match t23().index_select(1, &[3]) {
        Err(Error::IndexOutOfBounds { index, .. }) => assert_eq!(index, vec![3]),
        other => panic!("expected IndexOutOfBounds, got {other:?}"),
    }
}

#[test]
fn the_scatter_plan_adds_each_source_row_into_its_selected_row() {
    let p = plan_index_add(&[2, 3], 1, &[2, 0, 2], &[2, 3]).unwrap();
    assert_eq!(p.inner, 1);
    assert_eq!(p.rows, vec![(2, 0), (0, 1), (2, 2), (5, 3), (3, 4), (5, 5)]);
    let p = plan_index_add(&[3, 2], 0, &[1], &[1, 2]).unwrap();
    assert_eq!(p.inner, 2);
    assert_eq!(p.rows, vec![(2, 0)]);
}

#[test]
fn the_scatter_plan_refuses_like_the_scatter() {
    assert!(matches!(
        plan_index_add(&[2, 3], 2, &[0], &[2, 1]),
        Err(Error::InvalidArgument { issue: Issue::DimOutOfRange { dim: 2, rank: 2 }, .. })
    ));
    match plan_index_add(&[2, 3], 1, &[0], &[2, 3]) {
        Err(Error::ShapeMismatch { expected, got, op }) => {
            assert_eq!(expected, Shape::new(vec![2, 1]));
            assert_eq!(got, Shape::new(vec![2, 3]));
            assert_eq!(op, "index_add");
        }
        other => panic!("expected ShapeMismatch, got {other:?}"),
    }
    match plan_index_add(&[2, 3], 1, &[5], &[2, 1]) {
        Err(Error::IndexOutOfBounds { index, .. }) => assert_eq!(index, vec![5]),
        other => panic!("expected IndexOutOfBounds, got {other:?}"),
    }
    // With no outer rows there is nothing to add and nothing is checked.
    let p = plan_index_add(&[0, 3], 1, &[9], &[0, 1]).unwrap();
    assert!(p.rows.is_empty());
}

#[test]
fn a_scatter_add_accumulates_repeated_indices_in_order() {
    // Rows 0 and 1 of a [2, 3] target; source rows go to rows 1, 0, 1.
    let target = t23();
    let src = Tensor::from_vec(vec![10, 20, 30, 40, 50, 60, 70, 80, 90], Shape::new(vec![3, 3])).unwrap();
    let out = index_add_values(&target, 0, &[1, 0, 1], &src, &|x: i32, y: i32| x + y).unwrap();
    assert_eq!(out.dims(), &[2, 3]);
    assert_eq!(out.to_vec(), vec![1 + 40, 2 + 50, 3 + 60, 4 + 10 + 70, 5 + 20 + 80, 6 + 30 + 90]);
    // The order of accumulation is the order of the indices.
    let order = index_add_values(&target, 0, &[1, 0, 1], &src, &|x: i32, y: i32| x * 100 + y).unwrap();
    assert_eq!(order.to_vec()[3], (4 * 100 + 10) * 100 + 70);
}

#[test]
fn a_scatter_add_along_an_inner_dimension_adds_columns() {
    let target = t23();
    let src = Tensor::from_vec(vec![1, 2, 3, 4], Shape::new(vec![2, 2])).unwrap();
    let out = index_add_values(&target, 1, &[2, 2], &src, &|x: i32, y: i32| x + y).unwrap();
    assert_eq!(out.to_vec(), vec![1, 2, 3 + 1 + 2, 4, 5, 6 + 3 + 4]);
    match index_add_values(&target, 1, &[3], &Tensor::from_vec(vec![0, 0], Shape::new(vec![2, 1])).unwrap(), &|x: i32, y: i32| x + y) {
        Err(Error::IndexOutOfBounds { index, .. }) => assert_eq!(index, vec![3]),
        other => panic!("expected IndexOutOfBounds, got {other:?}"),
    }
}
