use fft_poly::bits::{reverse_bits, shuffle_coeffs};
use fft_poly::poly::{forward, inverse, multiply, pad, pointwise, powers, scaled_prefix, twiddle_tables};
use fft_poly::size::{aligned_size, exact_log2};
use fft_poly::transform::{butterfly_pass, evaluate};
use num::complex::Complex;
use std::f64::consts::PI;

type C = Complex<f64>;

fn bf(a: C, b: C, w: C) -> (C, C) {
    let t = w * b;
    (a + t, a - t)
}

fn times(x: C, y: C) -> C {
    x * y
}

fn root(step: usize, inv: bool) -> C {
    let sign = if inv { -1.0 } else { 1.0 };
    let part = sign * 2.0 * PI / step as f64;
    C::new(part.cos(), part.sin())
}

fn scale(x: C, n: usize) -> C {
    x / n as f64
}

fn cplx(v: &[f64]) -> Vec<C> {
    v.iter().map(|x| C::new(*x, 0.0)).collect()
}

fn mul_real(a: &[f64], b: &[f64]) -> Vec<C> {
    multiply(&cplx(a), &cplx(b), C::new(1.0, 0.0), C::new(0.0, 0.0), &bf, &times, &root, &scale)
}

fn naive(a: &[f64], b: &[f64]) -> Vec<f64> {
    let mut r = vec![0.0; a.len() + b.len() - 1];
    for (i, x) in a.iter().enumerate() {
        for (j, y) in b.iter().enumerate() {
            r[i + j] += x * y;
        }
    }
    r
}

fn close(got: &[C], want: &[f64]) -> bool {
    got.len() == want.len()
        && got.iter().zip(want.iter()).all(|(g, w)| (g.re - w).abs() < 1e-9 && g.im.abs() < 1e-9)
}

#[test]
fn product_of_two_cubics() {
    let a = [7.0, -1.0, 4.0, 3.0];
    let b = [3.0, -2.0, -4.0, 7.0];
    let r = mul_real(&a, &b);
    // direct convolution of the two coefficient lists
    assert!(close(&r, &naive(&a, &b)));
    assert!(close(&r, &[21.0, -17.0, -14.0, 54.0, -29.0, 16.0, 21.0]));
}

#[test]
fn product_matches_naive_convolution() {
    let cases: Vec<(Vec<f64>, Vec<f64>)> = vec![
        (vec![1.0, 2.0, 3.0], vec![4.0, 5.0]),
        (vec![0.5, -1.5, 2.25, 3.0, -4.0], vec![1.0, 1.0, 1.0]),
        (vec![2.0], vec![-3.0, 0.0, 8.0, 1.0, 6.0, -2.0, 5.0, 9.0, 4.0]),
        (vec![1.0, -1.0, 1.0, -1.0, 1.0, -1.0, 1.0, -1.0], vec![1.0, 1.0, 1.0, 1.0, 1.0, 1.0, 1.0, 1.0]),
    ];
    for (a, b) in cases {
        let r = mul_real(&a, &b);
        assert!(close(&r, &naive(&a, &b)));
    }
}

#[test]
fn product_length_is_exact() {
    for n in 1..10usize {
        for m in 1..10usize {
            let a = vec![1.0; n];
            let b = vec![2.0; m];
            assert_eq!(mul_real(&a, &b).len(), n + m - 1);
        }
    }
}

#[test]
fn product_with_zero_polynomial() {
    let r = mul_real(&[3.0, -1.0, 2.0, 5.0, 7.0], &[0.0, 0.0, 0.0]);
    assert!(close(&r, &[0.0; 7]));
}

#[test]
fn product_with_unit_constant() {
    let a = [3.0, -1.0, 2.0, 5.0, 7.0];
    let r = mul_real(&a, &[1.0]);
    assert!(close(&r, &a));
}

#[test]
fn product_with_empty_operand_is_empty() {
    assert_eq!(mul_real(&[], &[1.0, 2.0]).len(), 0);
    assert_eq!(mul_real(&[1.0], &[]).len(), 0);
}

#[test]
fn inverse_undoes_forward() {
    let input = vec![
        C::new(1.0, 2.0),
        C::new(-3.0, 0.5),
        C::new(0.0, -1.0),
        C::new(4.0, 4.0),
        C::new(2.5, 0.0),
        C::new(-1.0, -1.0),
        C::new(0.0, 0.0),
        C::new(7.0, -2.0),
    ];
    let one = C::new(1.0, 0.0);
    let points = forward(&input, one, &bf, &times, &root);
    assert_eq!(points.len(), 8);
    let back = inverse(&points, one, &bf, &times, &root, &scale);
    assert_eq!(back.len(), 8);
    for (x, y) in back.iter().zip(input.iter()) {
        assert!((x - y).norm() < 1e-9);
    }
}

#[test]
fn forward_evaluates_at_roots_of_unity() {
    let input = cplx(&[1.0, 2.0, 3.0, 4.0]);
    let points = forward(&input, C::new(1.0, 0.0), &bf, &times, &root);
    for (k, p) in points.iter().enumerate() {
        let w = root(4, false).powu(k as u32);
        let want = input.iter().rev().fold(C::new(0.0, 0.0), |acc, c| acc * w + c);
        assert!((p - want).norm() < 1e-9);
    }
    assert!((points[0] - C::new(10.0, 0.0)).norm() < 1e-12);
}

#[test]
fn forward_leaves_input_alone() {
    let input = cplx(&[5.0, 6.0, 7.0, 8.0]);
    let copy = input.clone();
    let _ = forward(&input, C::new(1.0, 0.0), &bf, &times, &root);
    assert_eq!(input, copy);
}

#[test]
fn length_six_is_no_power_of_two() {
    assert_eq!(exact_log2(6), None);
    assert_eq!(exact_log2(0), None);
    assert_eq!(exact_log2(1), Some(0));
    assert_eq!(exact_log2(8), Some(3));
    assert_eq!(exact_log2(1usize << 63), Some(63));
    assert_eq!(exact_log2(usize::MAX), None);
}

#[test]
fn aligned_size_rounds_up() {
    assert_eq!(aligned_size(0), (1, 0));
    assert_eq!(aligned_size(1), (1, 0));
    assert_eq!(aligned_size(7), (8, 3));
    assert_eq!(aligned_size(8), (8, 3));
    assert_eq!(aligned_size(9), (16, 4));
}

#[test]
fn reverse_bits_of_small_indices() {
    assert_eq!(reverse_bits(1, 3), 4);
    assert_eq!(reverse_bits(6, 3), 3);
    assert_eq!(reverse_bits(5, 4), 10);
    assert_eq!(reverse_bits(0, 0), 0);
}

#[test]
fn shuffle_reorders_by_reversed_index() {
    let mut v: Vec<u32> = (0..8).collect();
    shuffle_coeffs(&mut v, 8, 3);
    assert_eq!(v, vec![0, 4, 2, 6, 1, 5, 3, 7]);
    shuffle_coeffs(&mut v, 8, 3);
    assert_eq!(v, (0..8).collect::<Vec<u32>>());
}

#[test]
fn butterfly_pass_pairs_within_blocks() {
    let mut v: Vec<i64> = vec![1, 2, 3, 4, 5, 6, 7, 8];
    let tw: Vec<i64> = vec![10, 100];
    butterfly_pass(&mut v, &tw, 2, &|a: i64, b: i64, w: i64| (a + w * b, a - w * b));
    assert_eq!(v, vec![31, 402, -29, -398, 75, 806, -65, -794]);
}

#[test]
fn evaluate_with_integer_arithmetic() {
    // with unit factors the transform sums the input at position zero
    let input: Vec<i64> = vec![1, 2, 3, 4];
    let tws: Vec<Vec<i64>> = vec![vec![1], vec![1, 1]];
    let r = evaluate(&input, 2, &tws, &|a: i64, b: i64, w: i64| (a + w * b, a - w * b));
    assert_eq!(r, vec![10, -4, -2, 0]);
    assert_eq!(input, vec![1, 2, 3, 4]);
}

#[test]
fn powers_repeat_the_product() {
    let r = powers(1i64, 3, 5, &|x: i64, y: i64| x * y);
    assert_eq!(r, vec![1, 3, 9, 27, 81]);
    assert_eq!(powers(1i64, 3, 0, &|x: i64, y: i64| x * y).len(), 0);
}

#[test]
fn twiddle_tables_double_in_size() {
    let t = twiddle_tables(1i64, 3, false, &|s: usize, _inv: bool| s as i64, &|x: i64, y: i64| x * y);
    assert_eq!(t, vec![vec![1], vec![1, 4], vec![1, 8, 64, 512]]);
}

#[test]
fn pad_appends_zeros() {
    assert_eq!(pad(&vec![1, 2], 0, 4), vec![1, 2, 0, 0]);
    assert_eq!(pad(&vec![1, 2], 9, 2), vec![1, 2]);
}

#[test]
fn pointwise_and_scaled_prefix() {
    assert_eq!(pointwise(&vec![1, 2, 3], &vec![4, 5, 6], &|x: i64, y: i64| x * y), vec![4, 10, 18]);
    assert_eq!(scaled_prefix(&vec![8, 16, 24, 32], 4, 3, &|x: i64, n: usize| x / n as i64), vec![2, 4, 6]);
}
