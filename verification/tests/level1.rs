use blas_kernels::level1::{
    block_split, isamax, sabs, scopy, srotg_degenerate, sswap, LANES, STEP, UNROLL,
};
use blas_kernels::views::{matrix_fits, vector_fits};

fn words(v: &[f32]) -> Vec<u32> {
    v.iter().map(|x| x.to_bits()).collect()
}

fn floats(v: &[u32]) -> Vec<f32> {
    v.iter().map(|w| f32::from_bits(*w)).collect()
}

#[test]
fn sswap_unit_stride_exchanges() {
    let mut x = words(&[1.0, 2.0, 3.0]);
    let mut y = words(&[4.0, 5.0, 6.0]);
    sswap(3, &mut x, 1, &mut y, 1);
    assert_eq!(floats(&x), vec![4.0, 5.0, 6.0]);
    assert_eq!(floats(&y), vec![1.0, 2.0, 3.0]);
}

#[test]
fn sswap_strided_touches_only_the_views() {
    let mut x = words(&[1.0, 10.0, 2.0, 20.0]);
    let mut y = words(&[5.0, 50.0, 60.0, 6.0]);
    // two elements: x offsets {0, 2}, y offsets {0, 3}
    sswap(2, &mut x, 2, &mut y, 3);
    assert_eq!(floats(&x), vec![5.0, 10.0, 6.0, 20.0]);
    assert_eq!(floats(&y), vec![1.0, 50.0, 60.0, 2.0]);
}

#[test]
fn sswap_twice_restores_exactly() {
    let orig_x = words(&[1.5, -0.0, 3.25e-7, -8.75e12, 0.1]);
    let orig_y = words(&[-2.5, 0.0, f32::INFINITY, 7.0, -0.3]);
    let mut x = orig_x.clone();
    let mut y = orig_y.clone();
    sswap(2, &mut x, 2, &mut y, 1);
    sswap(2, &mut x, 2, &mut y, 1);
    assert_eq!(x, orig_x);
    assert_eq!(y, orig_y);
}

#[test]
fn scopy_unit_stride_is_exact() {
    let x = words(&[1.0, -0.0, 3.5e-40, f32::NEG_INFINITY]);
    let mut y = words(&[9.0, 9.0, 9.0, 9.0]);
    scopy(4, &x, 1, &mut y, 1);
    assert_eq!(y, x);
}

#[test]
fn scopy_zero_source_stride_replicates() {
    let x = words(&[7.25]);
    let mut y = words(&[0.0, 1.0, 2.0, 3.0]);
    scopy(3, &x, 0, &mut y, 1);
    assert_eq!(floats(&y), vec![7.25, 7.25, 7.25, 3.0]);
}

#[test]
fn scopy_then_abs_sum_matches_original() {
    let xf = vec![1.5f32, -2.25, 0.125, -7.0, 3.5, -0.0625];
    let x = words(&xf);
    let mut y = words(&[0.0; 6]);
    scopy(6, &x, 1, &mut y, 1);
    let yf = floats(&y);
    let sum_x: f32 = xf.iter().map(|v| v.abs()).sum();
    let sum_y: f32 = yf.iter().map(|v| v.abs()).sum();
    assert_eq!(sum_x.to_bits(), sum_y.to_bits());
}

#[test]
fn isamax_returns_first_strict_max() {
    let x = words(&[1.0, -3.0, 3.0, 2.0]);
    assert_eq!(isamax(4, &x, 1), 1);
}

#[test]
fn isamax_tie_breaks_toward_earliest_index() {
    let x = words(&[-2.0, 2.0, 2.0]);
    assert_eq!(isamax(3, &x, 1), 0);
}

#[test]
fn isamax_empty_view_is_zero() {
    let x: Vec<u32> = Vec::new();
    assert_eq!(isamax(0, &x, 1), 0);
}

#[test]
fn isamax_all_zeros_is_zero() {
    let x = words(&[0.0, -0.0, 0.0]);
    assert_eq!(isamax(3, &x, 1), 0);
}

#[test]
fn isamax_strided_indexes_the_view() {
    // view elements are offsets 0, 2, 4: values 1.0, -5.0, 4.0
    let x = words(&[1.0, 9.0, -5.0, 9.0, 4.0]);
    assert_eq!(isamax(3, &x, 2), 1);
}

#[test]
fn sabs_clears_the_sign_bit() {
    assert_eq!(sabs((-2.5f32).to_bits()), 2.5f32.to_bits());
    assert_eq!(sabs(2.5f32.to_bits()), 2.5f32.to_bits());
    assert_eq!(sabs((-0.0f32).to_bits()), 0.0f32.to_bits());
}

#[test]
fn srotg_degenerate_only_on_double_zero() {
    assert!(srotg_degenerate(0.0f32.to_bits(), 0.0f32.to_bits()));
    assert!(srotg_degenerate((-0.0f32).to_bits(), 0.0f32.to_bits()));
    assert!(srotg_degenerate(0.0f32.to_bits(), (-0.0f32).to_bits()));
    assert!(!srotg_degenerate(1.0f32.to_bits(), 0.0f32.to_bits()));
    assert!(!srotg_degenerate(0.0f32.to_bits(), (-4.0f32).to_bits()));
}

#[test]
fn block_split_counts_full_blocks_and_tail() {
    assert_eq!(STEP, LANES * UNROLL);
    assert_eq!(block_split(0), (0, 0));
    assert_eq!(block_split(32), (1, 0));
    assert_eq!(block_split(100), (3, 4));
    assert_eq!(block_split(31), (0, 31));
}

#[test]
fn vector_fits_checks_the_last_offset() {
    assert!(vector_fits(0, 5, 0));
    assert!(vector_fits(3, 2, 5));
    assert!(!vector_fits(3, 2, 4));
    assert!(!vector_fits(4, 0, 0));
    assert!(vector_fits(4, 0, 1));
    assert!(!vector_fits(usize::MAX, usize::MAX, usize::MAX));
}

#[test]
fn matrix_fits_requires_lda_at_least_m() {
    assert!(!matrix_fits(2, 2, 1, 4));
    assert!(matrix_fits(2, 2, 2, 4));
    assert!(!matrix_fits(2, 2, 2, 3));
    assert!(matrix_fits(300, 150, 300, 300 * 150));
    assert!(!matrix_fits(300, 150, 300, 300 * 150 - 1));
    assert!(matrix_fits(0, 5, 0, 0));
    // corner element of a 3 x 4 view with leading dimension 7 sits at offset 23
    assert!(matrix_fits(3, 4, 7, 24));
    assert!(!matrix_fits(3, 4, 7, 23));
    assert!(!matrix_fits(usize::MAX, 2, usize::MAX, usize::MAX));
}
