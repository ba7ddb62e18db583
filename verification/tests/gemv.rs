use blas_kernels::gemv::{gemv_plan, micro_split, Tile, MC, MR, NC};

#[test]
fn gemv_plan_single_tile_when_dims_fit_one_block() {
    // the 4 x 4 case: one tile, carrying the caller's beta
    let plan = gemv_plan(4, 4);
    assert_eq!(
        plan,
        vec![Tile { row: 0, row_len: 4, col: 0, col_len: 4, scale_y: true }],
    );
}

#[test]
fn gemv_plan_uneven_blocks_order_and_beta_flags() {
    // 300 rows and 150 columns do not divide the 256 x 128 tile grid evenly
    let plan = gemv_plan(300, 150);
    assert_eq!(
        plan,
        vec![
            Tile { row: 0, row_len: 256, col: 0, col_len: 128, scale_y: true },
            Tile { row: 256, row_len: 44, col: 0, col_len: 128, scale_y: true },
            Tile { row: 0, row_len: 256, col: 128, col_len: 22, scale_y: false },
            Tile { row: 256, row_len: 44, col: 128, col_len: 22, scale_y: false },
        ],
    );
}

#[test]
fn gemv_plan_covers_every_cell_exactly_once() {
    let (m, n) = (300usize, 150usize);
    let plan = gemv_plan(m, n);
    let mut hits = vec![0u32; m * n];
    for t in plan.iter() {
        for i in t.row..t.row + t.row_len {
            for j in t.col..t.col + t.col_len {
                hits[i + j * m] += 1;
            }
        }
    }
    assert!(hits.iter().all(|h| *h == 1));
}

#[test]
fn gemv_plan_scales_each_output_row_once_and_first() {
    let (m, n) = (300usize, 150usize);
    let plan = gemv_plan(m, n);
    for i in 0..m {
        let touching: Vec<&Tile> =
            plan.iter().filter(|t| t.row <= i && i < t.row + t.row_len).collect();
        let scaling = touching.iter().filter(|t| t.scale_y).count();
        assert_eq!(scaling, 1);
        // the tile that applies beta to row i is the first one touching row i
        assert!(touching[0].scale_y);
    }
}

#[test]
fn gemv_plan_empty_dimensions_yield_no_tiles() {
    assert!(gemv_plan(0, 5).is_empty());
    assert!(gemv_plan(5, 0).is_empty());
    assert!(gemv_plan(0, 0).is_empty());
}

#[test]
fn micro_split_peels_the_remainder_rows() {
    assert_eq!((MC, NC, MR), (256, 128, 4));
    assert_eq!(micro_split(0), (0, 0));
    assert_eq!(micro_split(7), (4, 3));
    assert_eq!(micro_split(256), (256, 0));
    assert_eq!(micro_split(44), (44, 0));
    assert_eq!(micro_split(45), (44, 1));
}
