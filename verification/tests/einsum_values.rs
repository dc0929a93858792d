//! Einstein summations run from the verified plan on real numbers, and
//! checked against matmul, transpose, sum and explicit loops.
use oxmera_tensor::einsum::{plan_einsum, EinsumPlan};
use oxmera_tensor::elementwise::broadcast_pair;
use oxmera_tensor::error::Error;
use oxmera_tensor::matmul::{lower_matmul, matmul_values};
use oxmera_tensor::reduce::{normalize_axes, reduce_groups};
use oxmera_tensor::shape::Shape;
use oxmera_tensor::tensor::Tensor;

type T32 = Tensor<f32>;

fn from_slice(data: &[f32], dims: &[usize]) -> T32 {
    Tensor::from_vec(data.to_vec(), Shape::from_slice(dims)).unwrap()
}

fn seq(n: usize, scale: f32) -> Vec<f32> {
    (0..n).map(|i| (i as f32) * scale - 1.0).collect()
}

fn close(got: &[f32], want: &[f32], context: &str) {
    assert_eq!(got.len(), want.len(), "{context}: length");
    for (i, (g, w)) in got.iter().zip(want).enumerate() {
        assert!(
            (g - w).abs() <= 1e-5 * 1.0f32.max(w.abs()),
            "{context}: element {i}: {g} vs {w}"
        );
    }
}

/// `t` summed over `axes` (every axis when empty), the reduced axes removed.
fn sum(t: &T32, axes: &[usize]) -> Result<T32, Error> {
    let axes = normalize_axes(axes, t.ndim(), "sum")?;
    let (shape, groups) = reduce_groups(t, &axes, false)?;
    let out: Vec<f32> = groups.iter().map(|g| g.iter().sum()).collect();
    Tensor::from_vec(out, shape)
}

fn matmul(a: &T32, b: &T32) -> Result<T32, Error> {
    let step = |acc: f32, x: f32, y: f32| acc + x * y;
    if a.ndim() <= 3 && b.ndim() <= 3 {
        return matmul_values(a, b, 0.0, &step);
    }
    let plan = lower_matmul(a.dims(), b.dims())?;
    let a3 = a
        .broadcast_to(&Shape::from_slice(&plan.a_dims))?
        .contiguous()?
        .reshape(Shape::from_slice(&plan.a3))?;
    let b3 = b
        .broadcast_to(&Shape::from_slice(&plan.b_dims))?
        .contiguous()?
        .reshape(Shape::from_slice(&plan.b3))?;
    matmul_values(&a3, &b3, 0.0, &step)?.reshape(Shape::from_slice(&plan.out_dims))
}

fn mul(a: &T32, b: &T32) -> Result<T32, Error> {
    let (shape, x, y) = broadcast_pair(a, b)?;
    Tensor::from_vec(x.iter().zip(&y).map(|(p, q)| p * q).collect(), shape)
}

fn arrange(t: &T32, perm: &Option<Vec<usize>>, sum_axes: &[usize]) -> Result<T32, Error> {
    let permuted = match perm {
        Some(p) => t.permute(p)?,
        None => t.clone(),
    };
    if sum_axes.is_empty() {
        Ok(permuted)
    } else {
        sum(&permuted, sum_axes)
    }
}

/// The plan of the spec, run with views, sums and products.
fn einsum(spec: &str, operands: &[&T32]) -> Result<T32, Error> {
    let dims: Vec<Vec<usize>> = operands.iter().map(|t| t.dims().to_vec()).collect();
    match plan_einsum(spec, &dims)? {
        EinsumPlan::Single { perm, sum_axes } => arrange(operands[0], &perm, &sum_axes),
        EinsumPlan::Pair { a_perm, a_sum_axes, b_perm, b_sum_axes, bn, m, k, n, natural_dims, out_perm } => {
            let a3 = arrange(operands[0], &a_perm, &a_sum_axes)?
                .contiguous()?
                .reshape(Shape::from_slice(&[bn, m, k]))?;
            let b3 = arrange(operands[1], &b_perm, &b_sum_axes)?
                .contiguous()?
                .reshape(Shape::from_slice(&[bn, k, n]))?;
            let product = matmul(&a3, &b3)?.reshape(Shape::from_slice(&natural_dims))?;
            arrange(&product, &out_perm, &[])
        }
    }
}

#[test]
fn matrix_product_matches_matmul() {
    let a = from_slice(&seq(3 * 4, 0.1), &[3, 4]);
    let b = from_slice(&seq(4 * 5, 0.2), &[4, 5]);
    let c = einsum("ij,jk->ik", &[&a, &b]).unwrap();
    assert_eq!(c.dims(), &[3, 5]);
    close(&c.to_vec(), &matmul(&a, &b).unwrap().to_vec(), "ij,jk->ik");
    // Transposed output order is a permute of the same product.
    let ct = einsum("ij,jk->ki", &[&a, &b]).unwrap();
    assert_eq!(ct.dims(), &[5, 3]);
    close(&ct.to_vec(), &matmul(&a, &b).unwrap().t().unwrap().to_vec(), "ij,jk->ki");
}

#[test]
fn batched_product_matches_batched_matmul() {
    let a = from_slice(&seq(2 * 3 * 4, 0.05), &[2, 3, 4]);
    let b = from_slice(&seq(2 * 4 * 5, 0.03), &[2, 4, 5]);
    let c = einsum("bij,bjk->bik", &[&a, &b]).unwrap();
    close(&c.to_vec(), &matmul(&a, &b).unwrap().to_vec(), "bij,bjk->bik");
}

#[test]
fn the_stacked_replica_contraction_from_oxmega() {
    // [R, B, H, d] x [R, d, o] -> [R, B, H, o]: one weight per replica,
    // shared across the batch and history axes.
    let (r, b, h, d, o) = (2, 3, 4, 5, 6);
    let x = from_slice(&seq(r * b * h * d, 0.01), &[r, b, h, d]);
    let w = from_slice(&seq(r * d * o, 0.02), &[r, d, o]);
    let y = einsum("rbhd,rdo->rbho", &[&x, &w]).unwrap();
    assert_eq!(y.dims(), &[r, b, h, o]);
    let (xv, wv, yv) = (x.to_vec(), w.to_vec(), y.to_vec());
    for ri in 0..r {
        for bi in 0..b {
            for hi in 0..h {
                for oi in 0..o {
                    let mut want = 0.0f32;
                    for di in 0..d {
                        want += xv[((ri * b + bi) * h + hi) * d + di] * wv[(ri * d + di) * o + oi];
                    }
                    let got = yv[((ri * b + bi) * h + hi) * o + oi];
                    assert!(
                        (got - want).abs() <= 1e-5 * 1.0f32.max(want.abs()),
                        "({ri},{bi},{hi},{oi}): {got} vs {want}"
                    );
                }
            }
        }
    }
    // The same contraction through rank-4 matmul broadcasting agrees.
    let via_matmul =
        matmul(&x, &w.reshape(Shape::from_slice(&[r, 1, d, o])).unwrap()).unwrap().to_vec();
    close(&yv, &via_matmul, "einsum vs rank-4 matmul");
}

#[test]
fn single_operand_transpose_sum_and_trace_like_reductions() {
    let a = from_slice(&seq(3 * 4, 0.1), &[3, 4]);
    close(&einsum("ij->ji", &[&a]).unwrap().to_vec(), &a.t().unwrap().to_vec(), "transpose");
    close(&einsum("ij->i", &[&a]).unwrap().to_vec(), &sum(&a, &[1]).unwrap().to_vec(), "row sums");
    close(&einsum("ij->j", &[&a]).unwrap().to_vec(), &sum(&a, &[0]).unwrap().to_vec(), "column sums");
    let total = einsum("ij->", &[&a]).unwrap();
    assert_eq!(total.dims(), &[] as &[usize]);
    close(&total.to_vec(), &sum(&a, &[]).unwrap().to_vec(), "full sum");
    let t = from_slice(&seq(2 * 3 * 4, 0.1), &[2, 3, 4]);
    let p = einsum("abc->cab", &[&t]).unwrap();
    assert_eq!(p.dims(), &[4, 2, 3]);
    close(&p.to_vec(), &t.permute(&[2, 0, 1]).unwrap().to_vec(), "permute");
}

#[test]
fn dot_outer_and_elementwise_products() {
    let u = from_slice(&seq(4, 0.5), &[4]);
    let v = from_slice(&seq(4, 0.25), &[4]);
    let dot = einsum("i,i->", &[&u, &v]).unwrap();
    let want: f32 = u.to_vec().iter().zip(v.to_vec()).map(|(a, b)| a * b).sum();
    close(&dot.to_vec(), &[want], "dot");
    let outer = einsum("i,j->ij", &[&u, &v]).unwrap();
    assert_eq!(outer.dims(), &[4, 4]);
    let (uv, vv) = (u.to_vec(), v.to_vec());
    let want: Vec<f32> = (0..4)
        .flat_map(|i| (0..4).map(move |j| (i, j)))
        .map(|(i, j)| uv[i] * vv[j])
        .collect();
    close(&outer.to_vec(), &want, "outer");
    // Hadamard product: a letter in both operands and in the output.
    let had = einsum("i,i->i", &[&u, &v]).unwrap();
    close(&had.to_vec(), &mul(&u, &v).unwrap().to_vec(), "hadamard");
    // A summed-only letter on one side: "ij,j->" sums a then dots.
    let a = from_slice(&seq(2 * 4, 0.1), &[2, 4]);
    let s = einsum("ij,j->", &[&a, &v]).unwrap();
    let want: f32 = sum(&a, &[0]).unwrap().to_vec().iter().zip(&vv).map(|(x, y)| x * y).sum();
    close(&s.to_vec(), &[want], "ij,j->");
}

#[test]
fn unicode_spaces_in_a_spec_are_ignored_like_ascii_ones() {
    let a = from_slice(&seq(2 * 3, 0.5), &[2, 3]);
    let b = from_slice(&seq(3 * 2, 0.25), &[3, 2]);
    let plain = einsum("ij,jk->ik", &[&a, &b]).unwrap().to_vec();
    let spaced = einsum("ij,\u{00a0}jk\t->\u{2003}ik", &[&a, &b]).unwrap().to_vec();
    assert_eq!(plain, spaced);
}
