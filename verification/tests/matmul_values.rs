//! Matrix products computed by the verified kernel, with the float
//! multiply-add as the fold step, and the lowering of higher ranks.
use oxmera_tensor::error::{Error, Issue};
use oxmera_tensor::matmul::{lower_matmul, matmul_values};
use oxmera_tensor::shape::Shape;
use oxmera_tensor::tensor::Tensor;

fn t(data: &[f32], shape: &[usize]) -> Tensor<f32> {
    Tensor::from_vec(data.to_vec(), Shape::from_slice(shape)).unwrap()
}

fn zeros(shape: &[usize]) -> Tensor<f32> {
    let n: usize = shape.iter().product();
    t(&vec![0.0; n], shape)
}

fn mm(a: &Tensor<f32>, b: &Tensor<f32>) -> Result<Tensor<f32>, Error> {
    matmul_values(a, b, 0.0f32, &|acc: f32, x: f32, y: f32| acc + x * y)
}

/// Any rank: lowered onto the rank-3 contract exactly as the runtime does.
fn matmul(a: &Tensor<f32>, b: &Tensor<f32>) -> Result<Tensor<f32>, Error> {
    if a.ndim() <= 3 && b.ndim() <= 3 {
        return mm(a, b);
    }
    let plan = lower_matmul(a.dims(), b.dims())?;
    let a3 = a
        .broadcast_to(&Shape::from_slice(&plan.a_dims))?
        .contiguous()?
        .reshape(Shape::from_slice(&plan.a3))?;
    let b3 = b
        .broadcast_to(&Shape::from_slice(&plan.b_dims))?
        .contiguous()?
        .reshape(Shape::from_slice(&plan.b3))?;
    mm(&a3, &b3)?.reshape(Shape::from_slice(&plan.out_dims))
}

fn assert_tensor_eq(got: &Tensor<f32>, expected_data: &[f32], expected_shape: &[usize]) {
    assert_eq!(got.dims(), expected_shape);
    let dims = got.dims().to_vec();
    let mut idx = 0usize;
    for i in 0..dims[0] {
        for j in 0..dims[1] {
            let v = got.get(&[i, j]).unwrap();
            assert_eq!(v, expected_data[idx], "at [{i}, {j}]");
            idx += 1;
        }
    }
}

fn seq(n: usize, scale: f32) -> Vec<f32> {
    (0..n).map(|i| (i as f32) * scale - 1.0).collect()
}

fn reference(a: &[f32], b: &[f32], m: usize, k: usize, n: usize) -> Vec<f32> {
    let mut out = vec![0.0; m * n];
    for i in 0..m {
        for j in 0..n {
            out[i * n + j] = (0..k).map(|x| a[i * k + x] * b[x * n + j]).sum();
        }
    }
    out
}

fn close(got: &[f32], want: &[f32], context: &str) {
    assert_eq!(got.len(), want.len(), "{context}: length");
    for (i, (g, w)) in got.iter().zip(want).enumerate() {
        assert!(
            (g - w).abs() <= 1e-5 * 1.0f32.max(w.abs()),
            "{context}: element {i}: {g} vs {w}"
        );
    }
}

#[test]
fn hand_computed_2x2() {
    // [[1,2],[3,4]] x [[5,6],[7,8]] = [[19,22],[43,50]]
    let c = mm(&t(&[1.0, 2.0, 3.0, 4.0], &[2, 2]), &t(&[5.0, 6.0, 7.0, 8.0], &[2, 2])).unwrap();
    assert_tensor_eq(&c, &[19.0, 22.0, 43.0, 50.0], &[2, 2]);
}

#[test]
fn hand_computed_rectangular() {
    // [2,3] x [3,1]: [[1,2,3],[4,5,6]] x [[1],[10],[100]] = [[321],[654]]
    let c = mm(
        &t(&[1.0, 2.0, 3.0, 4.0, 5.0, 6.0], &[2, 3]),
        &t(&[1.0, 10.0, 100.0], &[3, 1]),
    )
    .unwrap();
    assert_tensor_eq(&c, &[321.0, 654.0], &[2, 1]);
}

#[test]
fn identity_leaves_a_matrix_alone() {
    let a = t(&[1.5, -2.0, 0.25, 4.0], &[2, 2]);
    let eye = t(&[1.0, 0.0, 0.0, 1.0], &[2, 2]);
    let c = mm(&a, &eye).unwrap();
    assert_tensor_eq(&c, &[1.5, -2.0, 0.25, 4.0], &[2, 2]);
}

#[test]
fn zero_annihilates() {
    let a = t(&[3.0, -1.0, 2.0, 7.0, 0.5, -4.0], &[2, 3]);
    let zero = t(&[0.0; 6], &[3, 2]);
    let c = mm(&a, &zero).unwrap();
    assert_tensor_eq(&c, &[0.0; 4], &[2, 2]);
}

#[test]
fn inner_dimension_mismatch_is_a_typed_error() {
    let a = t(&[1.0; 6], &[2, 3]);
    let b = t(&[1.0; 8], &[4, 2]);
    assert!(matches!(mm(&a, &b), Err(Error::ShapeMismatch { .. })));
}

#[test]
fn non_rank_2_operands_are_refused() {
    let a = t(&[1.0; 6], &[6]);
    let b = t(&[1.0; 6], &[6]);
    assert!(mm(&a, &b).is_err(), "rank-1 operands must refuse");
}

#[test]
fn matmul_works_on_a_transposed_view() {
    let a = t(&[1.0, 2.0, 3.0, 4.0], &[2, 2]);
    let b = t(&[5.0, 7.0, 6.0, 8.0], &[2, 2]); // Bᵀ in memory
    let bt = b.permute(&[1, 0]).unwrap(); // logical [[5,6],[7,8]]
    let c = mm(&a, &bt).unwrap();
    assert_tensor_eq(&c, &[19.0, 22.0, 43.0, 50.0], &[2, 2]);
}

#[test]
fn a_batch_of_one_broadcasts_against_a_batch_of_two() {
    let a = t(&seq(2 * 2 * 3, 0.1), &[2, 2, 3]);
    let b = t(&seq(3 * 2, 0.2), &[1, 3, 2]);
    let c = matmul(&a, &b).unwrap();
    assert_eq!(c.dims(), &[2, 2, 2]);
    let av = a.to_vec();
    let bv = b.to_vec();
    let mut want = reference(&av[..6], &bv, 2, 3, 2);
    want.extend(reference(&av[6..], &bv, 2, 3, 2));
    assert_eq!(c.to_vec(), want);
}

#[test]
fn rank_two_times_rank_three_is_batched() {
    let a = t(&seq(2 * 3, 0.3), &[2, 3]);
    let b = t(&seq(4 * 3 * 5, 0.05), &[4, 3, 5]);
    let c = matmul(&a, &b).unwrap();
    assert_eq!(c.dims(), &[4, 2, 5]);
    let (av, bv) = (a.to_vec(), b.to_vec());
    let got = c.to_vec();
    for i in 0..4 {
        assert_eq!(
            &got[i * 10..(i + 1) * 10],
            &reference(&av, &bv[i * 15..(i + 1) * 15], 2, 3, 5)[..],
            "batch {i}"
        );
    }
}

#[test]
fn rank_three_times_rank_two_is_batched() {
    let a = t(&seq(4 * 2 * 3, 0.05), &[4, 2, 3]);
    let b = t(&seq(3 * 5, 0.3), &[3, 5]);
    let c = matmul(&a, &b).unwrap();
    assert_eq!(c.dims(), &[4, 2, 5]);
    let (av, bv) = (a.to_vec(), b.to_vec());
    let got = c.to_vec();
    for i in 0..4 {
        assert_eq!(
            &got[i * 10..(i + 1) * 10],
            &reference(&av[i * 6..(i + 1) * 6], &bv, 2, 3, 5)[..],
            "batch {i}"
        );
    }
}

#[test]
fn equal_batches_and_plain_rank_two_are_unchanged() {
    let a = t(&seq(2 * 2 * 3, 0.1), &[2, 2, 3]);
    let b = t(&seq(2 * 3 * 2, 0.2), &[2, 3, 2]);
    assert_eq!(matmul(&a, &b).unwrap().dims(), &[2, 2, 2]);
    let a2 = t(&seq(6, 0.1), &[2, 3]);
    let b2 = t(&seq(6, 0.2), &[3, 2]);
    assert_eq!(matmul(&a2, &b2).unwrap().dims(), &[2, 2]);
}

#[test]
fn incompatible_batches_and_inner_dims_are_typed_errors() {
    let a = zeros(&[2, 2, 3]);
    let b = zeros(&[3, 3, 2]);
    assert!(matches!(matmul(&a, &b), Err(Error::BroadcastIncompatible { .. })));
    let b = zeros(&[2, 4, 2]);
    assert!(matches!(matmul(&a, &b), Err(Error::ShapeMismatch { op: "matmul", .. })));
    assert!(matmul(&zeros(&[2, 3]), &zeros(&[2, 3, 4, 5])).is_err());
}

#[test]
fn rank_four_equal_batches_match_the_loop() {
    let (r, b, m, k, n) = (2, 3, 4, 5, 6);
    let a = t(&seq(r * b * m * k, 0.01), &[r, b, m, k]);
    let w = t(&seq(r * b * k * n, 0.02), &[r, b, k, n]);
    let c = matmul(&a, &w).unwrap();
    assert_eq!(c.dims(), &[r, b, m, n]);
    let (av, wv, cv) = (a.to_vec(), w.to_vec(), c.to_vec());
    for i in 0..r * b {
        let want = reference(
            &av[i * m * k..(i + 1) * m * k],
            &wv[i * k * n..(i + 1) * k * n],
            m,
            k,
            n,
        );
        close(&cv[i * m * n..(i + 1) * m * n], &want, &format!("batch {i}"));
    }
}

#[test]
fn batch_dimensions_broadcast_against_each_other() {
    // [2, 1, 3, 4] x [1, 5, 4, 6] -> [2, 5, 3, 6]
    let a = t(&seq(2 * 3 * 4, 0.05), &[2, 1, 3, 4]);
    let w = t(&seq(5 * 4 * 6, 0.03), &[1, 5, 4, 6]);
    let c = matmul(&a, &w).unwrap();
    assert_eq!(c.dims(), &[2, 5, 3, 6]);
    let (av, wv, cv) = (a.to_vec(), w.to_vec(), c.to_vec());
    for i in 0..2 {
        for j in 0..5 {
            let want = reference(&av[i * 12..(i + 1) * 12], &wv[j * 24..(j + 1) * 24], 3, 4, 6);
            let at = (i * 5 + j) * 18;
            close(&cv[at..at + 18], &want, &format!("batch ({i},{j})"));
        }
    }
}

#[test]
fn a_rank_two_operand_multiplies_every_batch_of_a_rank_four_one() {
    let a = t(&seq(2 * 3 * 4 * 5, 0.01), &[2, 3, 4, 5]);
    let w = t(&seq(5 * 2, 0.1), &[5, 2]);
    let c = matmul(&a, &w).unwrap();
    assert_eq!(c.dims(), &[2, 3, 4, 2]);
    let (av, wv, cv) = (a.to_vec(), w.to_vec(), c.to_vec());
    for i in 0..6 {
        let want = reference(&av[i * 20..(i + 1) * 20], &wv, 4, 5, 2);
        close(&cv[i * 8..(i + 1) * 8], &want, &format!("batch {i}"));
    }
    // And on the left: [k, n]-shaped weights times a rank-4 batch.
    let l = t(&seq(3 * 4, 0.1), &[3, 4]);
    let r = t(&seq(2 * 2 * 4 * 5, 0.01), &[2, 2, 4, 5]);
    let c = matmul(&l, &r).unwrap();
    assert_eq!(c.dims(), &[2, 2, 3, 5]);
    let (lv, rv, cv) = (l.to_vec(), r.to_vec(), c.to_vec());
    for i in 0..4 {
        let want = reference(&lv, &rv[i * 20..(i + 1) * 20], 3, 4, 5);
        close(&cv[i * 15..(i + 1) * 15], &want, &format!("left batch {i}"));
    }
}

#[test]
fn a_shorter_batch_prefix_is_right_aligned() {
    // [2, 3, 4, 5] x [3, 5, 6]: the rank-3 operand's batch (3) aligns with
    // the trailing batch dim of the rank-4 operand.
    let a = t(&seq(2 * 3 * 4 * 5, 0.01), &[2, 3, 4, 5]);
    let w = t(&seq(3 * 5 * 6, 0.02), &[3, 5, 6]);
    let c = matmul(&a, &w).unwrap();
    assert_eq!(c.dims(), &[2, 3, 4, 6]);
    let (av, wv, cv) = (a.to_vec(), w.to_vec(), c.to_vec());
    for i in 0..2 {
        for j in 0..3 {
            let want = reference(
                &av[(i * 3 + j) * 20..(i * 3 + j + 1) * 20],
                &wv[j * 30..(j + 1) * 30],
                4,
                5,
                6,
            );
            let at = (i * 3 + j) * 24;
            close(&cv[at..at + 24], &want, &format!("batch ({i},{j})"));
        }
    }
}

#[test]
fn rank_five_works_and_a_transposed_view_is_handled() {
    let a = t(&seq(2 * 2 * 2 * 3 * 4, 0.01), &[2, 2, 2, 3, 4]);
    let w = t(&seq(2 * 2 * 2 * 4 * 3, 0.02), &[2, 2, 2, 4, 3]);
    let c = matmul(&a, &w).unwrap();
    assert_eq!(c.dims(), &[2, 2, 2, 3, 3]);
    // a.t() is a strided view: [.., 4, 3] x [.., 3, 4] -> [.., 4, 4].
    let ct = matmul(&a.t().unwrap(), &w.t().unwrap()).unwrap();
    assert_eq!(ct.dims(), &[2, 2, 2, 4, 4]);
    let (av, wv, ctv) = (a.to_vec(), w.to_vec(), ct.to_vec());
    // Batch 0 by hand: a0^T (4x3) times w0^T (3x4).
    let mut a0t = vec![0.0; 12];
    let mut w0t = vec![0.0; 12];
    for i in 0..3 {
        for j in 0..4 {
            a0t[j * 3 + i] = av[i * 4 + j];
        }
    }
    for i in 0..4 {
        for j in 0..3 {
            w0t[j * 4 + i] = wv[i * 3 + j];
        }
    }
    close(&ctv[..16], &reference(&a0t, &w0t, 4, 3, 4), "transposed batch 0");
}

#[test]
fn incompatible_high_rank_operands_are_typed_errors() {
    let a = zeros(&[2, 3, 4, 5]);
    // Inner dimension mismatch.
    assert!(matches!(matmul(&a, &zeros(&[2, 3, 6, 7])), Err(Error::ShapeMismatch { .. })));
    // Batch dims that neither match nor are 1.
    assert!(matches!(
        matmul(&a, &zeros(&[3, 3, 5, 7])),
        Err(Error::BroadcastIncompatible { .. })
    ));
    // Rank 1 is still not a matrix.
    assert!(matches!(
        matmul(&zeros(&[5]), &zeros(&[2, 3, 5, 7])),
        Err(Error::InvalidArgument { issue: Issue::RankTooSmall { needed: 2, got: 1 }, .. })
    ));
}

#[test]
fn zero_sized_batches_and_matrices_are_fine() {
    let a = zeros(&[0, 2, 3, 4]);
    let w = zeros(&[1, 2, 4, 5]);
    let c = matmul(&a, &w).unwrap();
    assert_eq!(c.dims(), &[0, 2, 3, 5]);
    assert_eq!(c.numel(), 0);
}

#[test]
fn matmul_agrees_for_contiguous_and_strided_operands() {
    // b = [[1,0],[0,1],[1,1]]
    let b = t(&[1.0, 0.0, 0.0, 1.0, 1.0, 1.0], &[3, 2]);
    let a = t(&[1.0, 2.0, 3.0, 4.0, 5.0, 6.0], &[2, 3]);
    let want = vec![4.0, 5.0, 10.0, 11.0];
    assert_eq!(matmul(&a, &b).unwrap().to_vec(), want);
    // The same logical a as a non-contiguous view.
    let e = t(&[1.0, 4.0, 2.0, 5.0, 3.0, 6.0], &[3, 2]);
    let a_view = e.t().unwrap();
    assert_eq!(matmul(&a_view, &b).unwrap().to_vec(), want);
}

#[test]
fn matmul_with_a_zero_size_dimension_is_empty_not_a_panic() {
    let out = matmul(&zeros(&[2, 0, 3]), &zeros(&[2, 3, 4])).unwrap();
    assert_eq!(out.dims(), &[2, 0, 4]);
    assert!(out.to_vec().is_empty());
    let r2 = matmul(&zeros(&[0, 3]), &zeros(&[3, 4])).unwrap();
    assert_eq!(r2.dims(), &[0, 4]);
    // A zero inner dimension still produces a real, zero-filled output.
    let inner = matmul(&zeros(&[2, 0]), &zeros(&[0, 3])).unwrap();
    assert_eq!(inner.dims(), &[2, 3]);
    assert_eq!(inner.to_vec(), vec![0.0; 6]);
}

#[test]
fn an_integer_step_gives_exact_products() {
    let a = Tensor::from_vec(vec![1i64, 2, 3, 4, 5, 6], Shape::from_slice(&[2, 3])).unwrap();
    let b = Tensor::from_vec(vec![7i64, 8, 9, 10, 11, 12], Shape::from_slice(&[3, 2])).unwrap();
    let c = matmul_values(&a, &b, 0i64, &|acc: i64, x: i64, y: i64| acc + x * y).unwrap();
    assert_eq!(c.to_vec(), vec![58, 64, 139, 154]);
}

#[test]
fn the_lowering_names_every_shape_it_goes_through() {
    let p = lower_matmul(&[2, 1, 3, 4], &[5, 4, 6]).unwrap();
    assert_eq!(p.a_dims, vec![2, 5, 3, 4]);
    assert_eq!(p.b_dims, vec![2, 5, 4, 6]);
    assert_eq!(p.a3, vec![10, 3, 4]);
    assert_eq!(p.b3, vec![10, 4, 6]);
    assert_eq!(p.out_dims, vec![2, 5, 3, 6]);
}

#[test]
fn transpose_law_on_a_concrete_pair() {
    let a = t(&[1.5, -2.0, 0.25, 4.0, 3.0, -1.0], &[2, 3]);
    let b = t(&[2.0, 0.5, -3.0, 1.0, 7.0, -0.25], &[3, 2]);
    let ab_t = mm(&a, &b).unwrap().permute(&[1, 0]).unwrap();
    let bt_at = mm(&b.permute(&[1, 0]).unwrap(), &a.permute(&[1, 0]).unwrap()).unwrap();
    for i in 0..2 {
        for j in 0..2 {
            let x = ab_t.get(&[i, j]).unwrap();
            let y = bt_at.get(&[i, j]).unwrap();
            assert!((x - y).abs() <= 1e-4 * (1.0 + x.abs().max(y.abs())), "({i},{j}): {x} vs {y}");
        }
    }
}

#[test]
fn columns_are_independent_on_a_concrete_pair() {
    let a = t(&[1.0, -2.0, 3.0, 0.5, 4.0, -1.0, 2.0, 2.0, -3.0], &[3, 3]);
    let b = t(&[1.0, 2.0, -1.0, 0.5, 3.0, -2.0], &[3, 2]);
    let full = mm(&a, &b).unwrap();
    for j in 0..2 {
        let col = mm(&a, &b.narrow(1, j, 1).unwrap()).unwrap();
        for i in 0..3 {
            let x = full.get(&[i, j]).unwrap();
            let y = col.get(&[i, 0]).unwrap();
            assert!((x - y).abs() <= 1e-4 * (1.0 + x.abs().max(y.abs())));
        }
    }
}
