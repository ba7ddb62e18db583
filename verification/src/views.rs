//! Bounds validation for the buffer views the kernels operate on.
//!
//! Every kernel addresses a caller-owned buffer through a view: a strided
//! vector view `(n, inc)` reading element `k` at offset `k * inc`, or a
//! column-major matrix view `(m, n, lda)` reading element `(i, j)` at offset
//! `i + j * lda`. The unchecked kernels trust these offsets; the validators
//! here are the safe-API boundary that establishes, once per call, that every
//! offset a view can produce lies inside the underlying buffer.

use vstd::prelude::*;
use vstd::arithmetic::mul::lemma_mul_inequality;

verus! {

/// Offset of logical element `k` of a vector view with stride `inc`.
pub open spec fn stride_idx(k: int, inc: int) -> int {
    k * inc
}

/// Offset of element `(i, j)` of a column-major matrix view with leading
/// dimension `lda`.
pub open spec fn mat_idx(i: int, j: int, lda: int) -> int {
    i + j * lda
}

/// All `n` elements of a vector view with stride `inc` lie below `len`.
pub open spec fn strided_fits(n: int, inc: int, len: int) -> bool {
    forall|k: int| 0 <= k < n ==> #[trigger] stride_idx(k, inc) < len
}

/// All `m * n` elements of a column-major matrix view lie below `len`.
pub open spec fn matrix_elems_fit(m: int, n: int, lda: int, len: int) -> bool {
    forall|i: int, j: int| 0 <= i < m && 0 <= j < n ==> #[trigger] mat_idx(i, j, lda) < len
}

/// Checks that a strided vector view of `n` elements with stride `inc` stays
/// inside a buffer of `len` elements. Strides are forward-only; a zero stride
/// reads offset `0` for every element.
pub fn vector_fits(n: usize, inc: usize, len: usize) -> (r: bool)
    ensures
        r <==> strided_fits(n as int, inc as int, len as int),
{
    if n == 0 {
        true
    } else {
        match (n - 1).checked_mul(inc) {
            Some(last) => {
                if last < len {
                    proof {
                        assert forall|k: int| 0 <= k < n implies #[trigger] stride_idx(
                            k,
                            inc as int,
                        ) < len as int by {
                            lemma_mul_inequality(k, n - 1, inc as int);
                        }
                    }
                    true
                } else {
                    proof {
                        assert(stride_idx(n - 1, inc as int) >= len);
                    }
                    false
                }
            },
            None => {
                proof {
                    assert(stride_idx(n - 1, inc as int) >= len);
                }
                false
            },
        }
    }
}

/// Checks that a column-major matrix view of `m` rows and `n` columns with
/// leading dimension `lda` is well formed (`lda >= m`, so distinct columns
/// occupy disjoint offset ranges) and stays inside a buffer of `len`
/// elements.
pub fn matrix_fits(m: usize, n: usize, lda: usize, len: usize) -> (r: bool)
    ensures
        r <==> (m <= lda && matrix_elems_fit(m as int, n as int, lda as int, len as int)),
{
    if m > lda {
        false
    } else if m == 0 || n == 0 {
        true
    } else {
        let corner = match (n - 1).checked_mul(lda) {
            Some(c) => c.checked_add(m - 1),
            None => None,
        };
        match corner {
            Some(last) => {
                if last < len {
                    proof {
                        assert forall|i: int, j: int| 0 <= i < m && 0 <= j < n implies #[trigger] mat_idx(
                            i,
                            j,
                            lda as int,
                        ) < len as int by {
                            lemma_mul_inequality(j, n - 1, lda as int);
                        }
                    }
                    true
                } else {
                    proof {
                        assert(mat_idx(m - 1, n - 1, lda as int) >= len);
                    }
                    false
                }
            },
            None => {
                proof {
                    assert(mat_idx(m - 1, n - 1, lda as int) >= len);
                }
                false
            },
        }
    }
}

} // verus!
