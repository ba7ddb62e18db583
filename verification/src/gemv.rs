//! Two-level cache blocking for the matrix-vector product.
//!
//! The product `y := alpha*A*x + beta*y` is computed tile by tile: an outer
//! sweep over column blocks of width `NC`, and within each column block a
//! sweep over row blocks of height `MC`. Each tile accumulates the
//! contribution of its columns into its slice of `y`. `beta` must multiply
//! each output element exactly once across the whole call, so only the tiles
//! of the first column block carry the caller's `beta`; every later tile
//! scales by one. `gemv_plan` produces that tile sequence and its contract
//! pins it down; `lemma_beta_scaled_once` states the resulting guarantee per
//! output row.

use vstd::prelude::*;
use vstd::arithmetic::div_mod::lemma_fundamental_div_mod;

verus! {

/// Row-block height: rows of `A` per tile kept cache-resident.
pub const MC: usize = 256;

/// Column-block width: columns of `A` per tile.
pub const NC: usize = 128;

/// Row width of the vectorized microkernel within a tile.
pub const MR: usize = 4;

/// One tile of the blocked product: the contribution of columns
/// `[col, col + col_len)` to output rows `[row, row + row_len)`.
/// `scale_y` marks the tiles that apply the caller's `beta` to their slice
/// of `y`; all other tiles scale the existing contents by one.
#[derive(Clone, Copy, PartialEq, Eq, Structural, Debug)]
pub struct Tile {
    pub row: usize,
    pub row_len: usize,
    pub col: usize,
    pub col_len: usize,
    pub scale_y: bool,
}

/// A tile is well formed for an `m` by `n` matrix: aligned to the block
/// grid, non-empty, exactly as large as the grid cell clipped to the matrix,
/// and carrying the caller's `beta` exactly when it lies in the first column
/// block.
pub open spec fn tile_wf(t: Tile, m: int, n: int) -> bool {
    &&& t.row + t.row_len <= m
    &&& t.col + t.col_len <= n
    &&& t.row as int % MC as int == 0
    &&& t.col as int % NC as int == 0
    &&& t.row_len as int == if m - t.row < MC as int { m - t.row } else { MC as int }
    &&& t.col_len as int == if n - t.col < NC as int { n - t.col } else { NC as int }
    &&& 0 < t.row_len
    &&& 0 < t.col_len
    &&& (t.scale_y <==> t.col == 0)
}

/// Output row `i` lies in the tile's row range.
pub open spec fn in_rows(t: Tile, i: int) -> bool {
    t.row <= i < t.row + t.row_len
}

/// Column `j` lies in the tile's column range.
pub open spec fn in_cols(t: Tile, j: int) -> bool {
    t.col <= j < t.col + t.col_len
}

/// The tile's contribution reads matrix element `(i, j)`.
pub open spec fn covers(t: Tile, i: int, j: int) -> bool {
    in_rows(t, i) && in_cols(t, j)
}

/// Some tile of the plan covers matrix element `(i, j)`.
pub open spec fn cell_covered(ts: Seq<Tile>, i: int, j: int) -> bool {
    exists|p: int| 0 <= p < ts.len() && #[trigger] covers(ts[p], i, j)
}

/// `a` is computed before `b`: column blocks are swept in increasing order,
/// and row blocks in increasing order within a column block.
pub open spec fn tile_before(a: Tile, b: Tile) -> bool {
    a.col < b.col || (a.col == b.col && a.row < b.row)
}

/// The tile sequence is a well-formed plan for an `m` by `n` matrix: every
/// tile is well formed, every matrix element is covered, and the sequence is
/// strictly ordered by (column block, row block).
pub open spec fn plan_wf(ts: Seq<Tile>, m: int, n: int) -> bool {
    &&& forall|p: int| 0 <= p < ts.len() ==> tile_wf(#[trigger] ts[p], m, n)
    &&& forall|i: int, j: int| 0 <= i < m && 0 <= j < n ==> #[trigger] cell_covered(ts, i, j)
    &&& forall|p: int, q: int|
        0 <= p < q < ts.len() ==> tile_before(#[trigger] ts[p], #[trigger] ts[q])
}

/// Builds the tile sequence of the blocked matrix-vector product for an `m`
/// by `n` matrix: column blocks of width `NC` outermost, row blocks of
/// height `MC` within each, and the caller's `beta` assigned exactly to the
/// tiles of the first column block.
pub fn gemv_plan(m: usize, n: usize) -> (ts: Vec<Tile>)
    ensures
        plan_wf(ts@, m as int, n as int),
{
    let mut ts: Vec<Tile> = Vec::new();
    let mut j: usize = 0;
    while j < n
        invariant
            j <= n,
            j % NC == 0 || j == n,
            forall|p: int| 0 <= p < ts@.len() ==> tile_wf(#[trigger] ts@[p], m as int, n as int),
            forall|p: int| 0 <= p < ts@.len() ==> (#[trigger] ts@[p]).col + ts@[p].col_len <= j,
            forall|i0: int, j0: int|
                0 <= i0 < m && 0 <= j0 < j ==> #[trigger] cell_covered(ts@, i0, j0),
            forall|p: int, q: int|
                0 <= p < q < ts@.len() ==> tile_before(#[trigger] ts@[p], #[trigger] ts@[q]),
        decreases n - j,
    {
        let jb: usize = if n - j < NC {
            n - j
        } else {
            NC
        };
        let mut i: usize = 0;
        while i < m
            invariant
                i <= m,
                i % MC == 0 || i == m,
                j < n,
                j % NC == 0,
                jb as int == if n - j < NC {
                    n - j
                } else {
                    NC as int
                },
                0 < jb,
                j + jb <= n,
                forall|p: int|
                    0 <= p < ts@.len() ==> tile_wf(#[trigger] ts@[p], m as int, n as int),
                forall|p: int|
                    0 <= p < ts@.len() ==> ((#[trigger] ts@[p]).col + ts@[p].col_len <= j || (
                    ts@[p].col == j && ts@[p].row + ts@[p].row_len <= i)),
                forall|i0: int, j0: int|
                    0 <= i0 < m && 0 <= j0 < j ==> #[trigger] cell_covered(ts@, i0, j0),
                forall|i0: int, j0: int|
                    0 <= i0 < i && j <= j0 < j + jb ==> #[trigger] cell_covered(ts@, i0, j0),
                forall|p: int, q: int|
                    0 <= p < q < ts@.len() ==> tile_before(#[trigger] ts@[p], #[trigger] ts@[q]),
            decreases m - i,
        {
            let ib: usize = if m - i < MC {
                m - i
            } else {
                MC
            };
            let t = Tile { row: i, row_len: ib, col: j, col_len: jb, scale_y: j == 0 };
            let ghost ts0 = ts@;
            ts.push(t);
            proof {
                assert(tile_wf(t, m as int, n as int));
                let last: int = ts@.len() - 1;
                assert(ts@[last] == t);
                assert forall|p: int| 0 <= p < ts@.len() implies tile_wf(
                    #[trigger] ts@[p],
                    m as int,
                    n as int,
                ) by {
                    if p < last {
                        assert(ts@[p] == ts0[p]);
                    }
                }
                assert forall|p: int| 0 <= p < ts@.len() implies ((#[trigger] ts@[p]).col
                    + ts@[p].col_len <= j || (ts@[p].col == j && ts@[p].row + ts@[p].row_len <= i
                    + ib)) by {
                    if p < last {
                        assert(ts@[p] == ts0[p]);
                    }
                }
                assert forall|i0: int, j0: int| 0 <= i0 < m && 0 <= j0 < j implies #[trigger] cell_covered(
                    ts@,
                    i0,
                    j0,
                ) by {
                    assert(cell_covered(ts0, i0, j0));
                    let p: int = choose|p: int| 0 <= p < ts0.len() && #[trigger] covers(ts0[p], i0, j0);
                    assert(ts@[p] == ts0[p]);
                    assert(covers(ts@[p], i0, j0));
                }
                assert forall|i0: int, j0: int| 0 <= i0 < i + ib && j <= j0 < j + jb implies #[trigger] cell_covered(
                    ts@,
                    i0,
                    j0,
                ) by {
                    if i0 < i {
                        assert(cell_covered(ts0, i0, j0));
                        let p: int = choose|p: int|
                            0 <= p < ts0.len() && #[trigger] covers(ts0[p], i0, j0);
                        assert(ts@[p] == ts0[p]);
                        assert(covers(ts@[p], i0, j0));
                    } else {
                        assert(covers(ts@[last], i0, j0));
                    }
                }
                assert forall|p: int, q: int| 0 <= p < q < ts@.len() implies tile_before(
                    #[trigger] ts@[p],
                    #[trigger] ts@[q],
                ) by {
                    if q < last {
                        assert(ts@[p] == ts0[p]);
                        assert(ts@[q] == ts0[q]);
                    } else {
                        assert(ts@[p] == ts0[p]);
                        assert(ts0[p].col + ts0[p].col_len <= j || (ts0[p].col == j && ts0[p].row
                            + ts0[p].row_len <= i));
                    }
                }
            }
            i = i + ib;
        }
        proof {
            assert forall|p: int| 0 <= p < ts@.len() implies (#[trigger] ts@[p]).col
                + ts@[p].col_len <= j + jb by {
                if ts@[p].col == j {
                    assert(tile_wf(ts@[p], m as int, n as int));
                }
            }
        }
        j = j + jb;
    }
    ts
}

/// Two aligned blocks of the same grid that share a point are the same
/// block.
proof fn lemma_same_block(c1: int, l1: int, c2: int, l2: int, b: int, x: int)
    requires
        b > 0,
        c1 % b == 0,
        c2 % b == 0,
        l1 <= b,
        l2 <= b,
        c1 <= x < c1 + l1,
        c2 <= x < c2 + l2,
    ensures
        c1 == c2,
{
    lemma_fundamental_div_mod(c1, b);
    lemma_fundamental_div_mod(c2, b);
    let k1: int = c1 / b;
    let k2: int = c2 / b;
    assert(k1 <= k2) by (nonlinear_arith)
        requires
            b > 0,
            b * k1 < b * k2 + b,
    ;
    assert(k2 <= k1) by (nonlinear_arith)
        requires
            b > 0,
            b * k2 < b * k1 + b,
    ;
}

/// No matrix element is read by two different tiles of a well-formed plan:
/// together with coverage, every element is read by exactly one tile.
pub proof fn lemma_plan_tiles_disjoint(ts: Seq<Tile>, m: int, n: int)
    requires
        plan_wf(ts, m, n),
    ensures
        forall|p: int, q: int, i: int, j: int|
            #![trigger covers(ts[p], i, j), covers(ts[q], i, j)]
            0 <= p < ts.len() && 0 <= q < ts.len() && covers(ts[p], i, j) && covers(ts[q], i, j)
                ==> p == q,
{
    assert forall|p: int, q: int, i: int, j: int|
        #![trigger covers(ts[p], i, j), covers(ts[q], i, j)]
        0 <= p < ts.len() && 0 <= q < ts.len() && covers(ts[p], i, j) && covers(
            ts[q],
            i,
            j,
        ) implies p == q by {
        if p != q {
            assert(tile_wf(ts[p], m, n));
            assert(tile_wf(ts[q], m, n));
            lemma_same_block(
                ts[p].row as int,
                ts[p].row_len as int,
                ts[q].row as int,
                ts[q].row_len as int,
                MC as int,
                i,
            );
            lemma_same_block(
                ts[p].col as int,
                ts[p].col_len as int,
                ts[q].col as int,
                ts[q].col_len as int,
                NC as int,
                j,
            );
            if p < q {
                assert(tile_before(ts[p], ts[q]));
            } else {
                assert(tile_before(ts[q], ts[p]));
            }
        }
    }
}

/// The caller's `beta` is applied to each output row exactly once across the
/// whole plan, by the earliest tile that touches the row: some tile touching
/// row `i` carries `beta`, no two do, and the one that does is computed
/// before every other tile touching row `i`.
pub proof fn lemma_beta_scaled_once(ts: Seq<Tile>, m: int, n: int, i: int)
    requires
        plan_wf(ts, m, n),
        0 <= i < m,
        0 < n,
    ensures
        exists|p: int| 0 <= p < ts.len() && (#[trigger] ts[p]).scale_y && in_rows(ts[p], i),
        forall|p: int, q: int|
            #![trigger ts[p], ts[q]]
            0 <= p < ts.len() && 0 <= q < ts.len() && ts[p].scale_y && ts[q].scale_y && in_rows(
                ts[p],
                i,
            ) && in_rows(ts[q], i) ==> p == q,
        forall|p: int, q: int|
            #![trigger ts[p], ts[q]]
            0 <= p < ts.len() && 0 <= q < ts.len() && ts[p].scale_y && !ts[q].scale_y && in_rows(
                ts[p],
                i,
            ) && in_rows(ts[q], i) ==> p < q,
{
    lemma_plan_tiles_disjoint(ts, m, n);
    assert(cell_covered(ts, i, 0));
    let w: int = choose|p: int| 0 <= p < ts.len() && #[trigger] covers(ts[p], i, 0);
    assert(tile_wf(ts[w], m, n));
    assert(ts[w].scale_y && in_rows(ts[w], i));
    assert forall|p: int, q: int|
        #![trigger ts[p], ts[q]]
        0 <= p < ts.len() && 0 <= q < ts.len() && ts[p].scale_y && ts[q].scale_y && in_rows(
            ts[p],
            i,
        ) && in_rows(ts[q], i) implies p == q by {
        assert(tile_wf(ts[p], m, n));
        assert(tile_wf(ts[q], m, n));
        assert(covers(ts[p], i, 0));
        assert(covers(ts[q], i, 0));
    }
    assert forall|p: int, q: int|
        #![trigger ts[p], ts[q]]
        0 <= p < ts.len() && 0 <= q < ts.len() && ts[p].scale_y && !ts[q].scale_y && in_rows(
            ts[p],
            i,
        ) && in_rows(ts[q], i) implies p < q by {
        assert(tile_wf(ts[p], m, n));
        assert(tile_wf(ts[q], m, n));
        if q < p {
            assert(tile_before(ts[q], ts[p]));
        }
    }
}

/// Splits a tile's row count into the main part handled `MR` rows at a time
/// by the microkernel and the scalar remainder.
pub fn micro_split(rows: usize) -> (r: (usize, usize))
    ensures
        r.0 + r.1 == rows,
        r.0 as int % MR as int == 0,
        r.1 < MR,
{
    let left: usize = rows % MR;
    (rows - left, left)
}

} // verus!
