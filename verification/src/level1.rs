//! Level-1 vector kernels over raw 32-bit element words.
//!
//! Single-precision elements are handled here as the 32-bit words that carry
//! them. The kernels in this module never do arithmetic on the payload: they
//! move words (`sswap`, `scopy`), or compare magnitudes through the sign-mask
//! (`isamax`), so operating on words is exact. For IEEE single-precision
//! payloads, clearing the sign bit and comparing the remaining bits as an
//! unsigned integer orders values exactly by absolute magnitude (for every
//! non-exceptional payload), which is why the magnitude kernels work on
//! masked words.
//!
//! Strides are forward-only. The in-place kernels require a stride of at
//! least one on each buffer they write: a zero stride would make distinct
//! logical elements alias the same word, which the kernel set leaves
//! undefined.

use vstd::prelude::*;
use vstd::arithmetic::mul::lemma_mul_strict_inequality;
use crate::views::{stride_idx, strided_fits};

verus! {

/// Mask that clears the sign bit of a single-precision word, leaving its
/// magnitude bits.
pub open spec fn abs_bits(w: u32) -> u32 {
    w & 0x7FFF_FFFF
}

/// Element `k` of the vector view `(inc)` over the buffer `v`.
pub open spec fn stride_at(v: Seq<u32>, inc: int, k: int) -> u32 {
    v[stride_idx(k, inc)]
}

/// Offset `j` is written by a view of `n` elements with stride `inc`.
pub open spec fn touched(j: int, n: int, inc: int) -> bool {
    exists|k: int| 0 <= k < n && #[trigger] stride_idx(k, inc) == j
}

/// The `n` elements a view with stride `inc` reads from `v`, in order.
pub open spec fn strided_read(v: Seq<u32>, n: nat, inc: int) -> Seq<u32> {
    Seq::new(n, |k: int| stride_at(v, inc, k))
}

/// `x1`/`y1` are `x0`/`y0` after an elementwise exchange of the two views:
/// each view's elements hold the other view's old elements, and every offset
/// outside the views is untouched.
pub open spec fn exchanged(
    x0: Seq<u32>,
    y0: Seq<u32>,
    x1: Seq<u32>,
    y1: Seq<u32>,
    n: int,
    incx: int,
    incy: int,
) -> bool {
    &&& x1.len() == x0.len()
    &&& y1.len() == y0.len()
    &&& forall|k: int| 0 <= k < n ==> #[trigger] stride_at(x1, incx, k) == stride_at(y0, incy, k)
    &&& forall|k: int| 0 <= k < n ==> #[trigger] stride_at(y1, incy, k) == stride_at(x0, incx, k)
    &&& forall|j: int| 0 <= j < x1.len() && !touched(j, n, incx) ==> x1[j] == x0[j]
    &&& forall|j: int| 0 <= j < y1.len() && !touched(j, n, incy) ==> y1[j] == y0[j]
}

/// Exchanges the contents of two strided vector views elementwise:
/// `x[k] <-> y[k]` for `k` in `[0, n)`.
pub fn sswap(n: usize, x: &mut Vec<u32>, incx: usize, y: &mut Vec<u32>, incy: usize)
    requires
        incx >= 1,
        incy >= 1,
        strided_fits(n as int, incx as int, old(x)@.len() as int),
        strided_fits(n as int, incy as int, old(y)@.len() as int),
    ensures
        exchanged(old(x)@, old(y)@, final(x)@, final(y)@, n as int, incx as int, incy as int),
{
    let mut k: usize = 0;
    while k < n
        invariant
            k <= n,
            incx >= 1,
            incy >= 1,
            strided_fits(n as int, incx as int, x@.len() as int),
            strided_fits(n as int, incy as int, y@.len() as int),
            x@.len() == old(x)@.len(),
            y@.len() == old(y)@.len(),
            forall|t: int|
                0 <= t < k ==> x@[#[trigger] stride_idx(t, incx as int)] == stride_at(
                    old(y)@,
                    incy as int,
                    t,
                ),
            forall|t: int|
                0 <= t < k ==> y@[#[trigger] stride_idx(t, incy as int)] == stride_at(
                    old(x)@,
                    incx as int,
                    t,
                ),
            forall|j: int|
                0 <= j < x@.len() && !#[trigger] touched(j, k as int, incx as int) ==> x@[j] == old(
                    x,
                )@[j],
            forall|j: int|
                0 <= j < y@.len() && !#[trigger] touched(j, k as int, incy as int) ==> y@[j] == old(
                    y,
                )@[j],
        decreases n - k,
    {
        let xl: usize = x.len();
        let yl: usize = y.len();
        proof {
            assert(stride_idx(k as int, incx as int) < x@.len());
            assert(stride_idx(k as int, incy as int) < y@.len());
            assert((k as int) * (incx as int) < xl as int);
            assert((k as int) * (incy as int) < yl as int);
        }
        let ix: usize = k * incx;
        let iy: usize = k * incy;
        proof {
            lemma_untouched_at_current(k as int, incx as int);
            lemma_untouched_at_current(k as int, incy as int);
        }
        let xi: u32 = x[ix];
        let yi: u32 = y[iy];
        proof {
            assert(xi == stride_at(old(x)@, incx as int, k as int));
            assert(yi == stride_at(old(y)@, incy as int, k as int));
        }
        x.set(ix, yi);
        y.set(iy, xi);
        proof {
            assert forall|j: int|
                0 <= j < x@.len() && !#[trigger] touched(j, k + 1, incx as int) implies x@[j]
                == old(x)@[j] by {
                assert(!touched(j, k as int, incx as int)) by {
                    if touched(j, k as int, incx as int) {
                        let t: int = choose|t: int|
                            0 <= t < k && #[trigger] stride_idx(t, incx as int) == j;
                        assert(touched(j, k + 1, incx as int));
                    }
                }
                assert(j != stride_idx(k as int, incx as int)) by {
                    if j == stride_idx(k as int, incx as int) {
                        assert(touched(j, k + 1, incx as int));
                    }
                }
            }
            assert forall|j: int|
                0 <= j < y@.len() && !#[trigger] touched(j, k + 1, incy as int) implies y@[j]
                == old(y)@[j] by {
                assert(!touched(j, k as int, incy as int)) by {
                    if touched(j, k as int, incy as int) {
                        let t: int = choose|t: int|
                            0 <= t < k && #[trigger] stride_idx(t, incy as int) == j;
                        assert(touched(j, k + 1, incy as int));
                    }
                }
                assert(j != stride_idx(k as int, incy as int)) by {
                    if j == stride_idx(k as int, incy as int) {
                        assert(touched(j, k + 1, incy as int));
                    }
                }
            }
            assert forall|t: int| 0 <= t < k + 1 implies x@[#[trigger] stride_idx(
                t,
                incx as int,
            )] == stride_at(old(y)@, incy as int, t) by {
                if t < k {
                    lemma_mul_strict_inequality(t, k as int, incx as int);
                    assert(stride_idx(t, incx as int) != stride_idx(k as int, incx as int));
                }
            }
            assert forall|t: int| 0 <= t < k + 1 implies y@[#[trigger] stride_idx(
                t,
                incy as int,
            )] == stride_at(old(x)@, incx as int, t) by {
                if t < k {
                    lemma_mul_strict_inequality(t, k as int, incy as int);
                    assert(stride_idx(t, incy as int) != stride_idx(k as int, incy as int));
                }
            }
        }
        k = k + 1;
    }
}

/// The offset a view writes at step `k` is untouched by the first `k` steps:
/// earlier steps write strictly smaller offsets.
proof fn lemma_untouched_at_current(k: int, inc: int)
    requires
        0 <= k,
        inc >= 1,
    ensures
        !touched(stride_idx(k, inc), k, inc),
{
    assert forall|t: int| 0 <= t < k implies #[trigger] stride_idx(t, inc) != stride_idx(
        k,
        inc,
    ) by {
        lemma_mul_strict_inequality(t, k, inc);
    }
}

/// Exchanging the same pair of views twice restores both buffers exactly:
/// the exchange is a pure data move, its own inverse, with no precision loss.
pub proof fn lemma_sswap_involution(
    x0: Seq<u32>,
    y0: Seq<u32>,
    x1: Seq<u32>,
    y1: Seq<u32>,
    x2: Seq<u32>,
    y2: Seq<u32>,
    n: int,
    incx: int,
    incy: int,
)
    requires
        exchanged(x0, y0, x1, y1, n, incx, incy),
        exchanged(x1, y1, x2, y2, n, incx, incy),
    ensures
        x2 == x0,
        y2 == y0,
{
    assert forall|j: int| 0 <= j < x2.len() implies x2[j] == x0[j] by {
        if touched(j, n, incx) {
            let k: int = choose|k: int| 0 <= k < n && #[trigger] stride_idx(k, incx) == j;
            assert(stride_at(x2, incx, k) == stride_at(y1, incy, k));
            assert(stride_at(y1, incy, k) == stride_at(x0, incx, k));
        }
    }
    assert forall|j: int| 0 <= j < y2.len() implies y2[j] == y0[j] by {
        if touched(j, n, incy) {
            let k: int = choose|k: int| 0 <= k < n && #[trigger] stride_idx(k, incy) == j;
            assert(stride_at(y2, incy, k) == stride_at(x1, incx, k));
            assert(stride_at(x1, incx, k) == stride_at(y0, incy, k));
        }
    }
    assert(x2 =~= x0);
    assert(y2 =~= y0);
}

/// `y1` is `y0` after copying the source view of `x0` over the destination
/// view elementwise; every offset outside the destination view is untouched.
pub open spec fn copied(
    x0: Seq<u32>,
    y0: Seq<u32>,
    y1: Seq<u32>,
    n: int,
    incx: int,
    incy: int,
) -> bool {
    &&& y1.len() == y0.len()
    &&& forall|k: int| 0 <= k < n ==> #[trigger] stride_at(y1, incy, k) == stride_at(x0, incx, k)
    &&& forall|j: int| 0 <= j < y1.len() && !touched(j, n, incy) ==> y1[j] == y0[j]
}

/// Copies the source view onto the destination view elementwise:
/// `y[k] := x[k]` for `k` in `[0, n)`. The source is read-only; a zero
/// source stride replicates `x[0]`.
pub fn scopy(n: usize, x: &Vec<u32>, incx: usize, y: &mut Vec<u32>, incy: usize)
    requires
        incy >= 1,
        strided_fits(n as int, incx as int, x@.len() as int),
        strided_fits(n as int, incy as int, old(y)@.len() as int),
    ensures
        copied(x@, old(y)@, final(y)@, n as int, incx as int, incy as int),
{
    let mut k: usize = 0;
    while k < n
        invariant
            k <= n,
            incy >= 1,
            strided_fits(n as int, incx as int, x@.len() as int),
            strided_fits(n as int, incy as int, y@.len() as int),
            y@.len() == old(y)@.len(),
            forall|t: int|
                0 <= t < k ==> y@[#[trigger] stride_idx(t, incy as int)] == stride_at(
                    x@,
                    incx as int,
                    t,
                ),
            forall|j: int|
                0 <= j < y@.len() && !#[trigger] touched(j, k as int, incy as int) ==> y@[j] == old(
                    y,
                )@[j],
        decreases n - k,
    {
        let xl: usize = x.len();
        let yl: usize = y.len();
        proof {
            assert(stride_idx(k as int, incx as int) < x@.len());
            assert(stride_idx(k as int, incy as int) < y@.len());
            assert((k as int) * (incx as int) < xl as int);
            assert((k as int) * (incy as int) < yl as int);
        }
        let ix: usize = k * incx;
        let iy: usize = k * incy;
        let xi: u32 = x[ix];
        y.set(iy, xi);
        proof {
            assert forall|j: int|
                0 <= j < y@.len() && !#[trigger] touched(j, k + 1, incy as int) implies y@[j]
                == old(y)@[j] by {
                assert(!touched(j, k as int, incy as int)) by {
                    if touched(j, k as int, incy as int) {
                        let t: int = choose|t: int|
                            0 <= t < k && #[trigger] stride_idx(t, incy as int) == j;
                        assert(touched(j, k + 1, incy as int));
                    }
                }
                assert(j != stride_idx(k as int, incy as int)) by {
                    if j == stride_idx(k as int, incy as int) {
                        assert(touched(j, k + 1, incy as int));
                    }
                }
            }
            assert forall|t: int| 0 <= t < k + 1 implies y@[#[trigger] stride_idx(
                t,
                incy as int,
            )] == stride_at(x@, incx as int, t) by {
                if t < k {
                    lemma_mul_strict_inequality(t, k as int, incy as int);
                    assert(stride_idx(t, incy as int) != stride_idx(k as int, incy as int));
                }
            }
        }
        k = k + 1;
    }
}

/// Copying is exact: the element sequence read back through the destination
/// view equals the element sequence read through the source view, word for
/// word. Any elementwise reduction of the copy (for instance a sum of
/// absolute values) therefore agrees exactly with the same reduction of the
/// source.
pub proof fn lemma_scopy_preserves_reads(
    x0: Seq<u32>,
    y0: Seq<u32>,
    y1: Seq<u32>,
    n: nat,
    incx: int,
    incy: int,
)
    requires
        copied(x0, y0, y1, n as int, incx, incy),
    ensures
        strided_read(y1, n, incy) == strided_read(x0, n, incx),
{
    assert(strided_read(y1, n, incy) =~= strided_read(x0, n, incx));
}

/// Clears the sign bit of a single-precision word, leaving its magnitude
/// bits: the branch-free absolute value used by the magnitude kernels.
pub fn sabs(w: u32) -> (r: u32)
    ensures
        r == abs_bits(w),
{
    w & 0x7FFF_FFFF
}

/// Index of the first element of the view with strictly greatest magnitude:
/// every element's magnitude is at most the returned element's, and every
/// element before the returned one is strictly smaller, so ties are broken
/// toward the earliest index. An empty view yields index `0`.
pub fn isamax(n: usize, x: &Vec<u32>, incx: usize) -> (r: usize)
    requires
        strided_fits(n as int, incx as int, x@.len() as int),
    ensures
        n == 0 ==> r == 0,
        n > 0 ==> r < n,
        forall|k: int|
            0 <= k < n ==> abs_bits(#[trigger] stride_at(x@, incx as int, k)) <= abs_bits(
                stride_at(x@, incx as int, r as int),
            ),
        forall|k: int|
            0 <= k < r ==> abs_bits(#[trigger] stride_at(x@, incx as int, k)) < abs_bits(
                stride_at(x@, incx as int, r as int),
            ),
{
    let mut imax: usize = 0;
    let mut mx: u32 = 0;
    let mut i: usize = 0;
    while i < n
        invariant
            i <= n,
            strided_fits(n as int, incx as int, x@.len() as int),
            i == 0 ==> imax == 0 && mx == 0,
            i > 0 ==> imax < i && mx == abs_bits(stride_at(x@, incx as int, imax as int)),
            forall|k: int| 0 <= k < i ==> abs_bits(#[trigger] stride_at(x@, incx as int, k)) <= mx,
            forall|k: int|
                0 <= k < imax ==> abs_bits(#[trigger] stride_at(x@, incx as int, k)) < mx,
        decreases n - i,
    {
        let xl: usize = x.len();
        proof {
            assert(stride_idx(i as int, incx as int) < x@.len());
            assert((i as int) * (incx as int) < xl as int);
        }
        let xi: u32 = sabs(x[i * incx]);
        proof {
            assert(xi == abs_bits(stride_at(x@, incx as int, i as int)));
        }
        if xi > mx {
            mx = xi;
            imax = i;
        }
        i = i + 1;
    }
    imax
}

/// Tests for the one defined branch of the Givens rotation constructor: both
/// inputs are zero (of either sign), for which the rotation parameters are
/// `(0, 0, 1, 0)` exactly. A single-precision word carries zero exactly when
/// its magnitude bits are all clear.
pub fn srotg_degenerate(a: u32, b: u32) -> (r: bool)
    ensures
        r <==> (abs_bits(a) == 0 && abs_bits(b) == 0),
{
    (a & 0x7FFF_FFFF) == 0 && (b & 0x7FFF_FFFF) == 0
}

/// Lane count of the single-precision vector path.
pub const LANES: usize = 8;

/// Fixed unroll factor of the vectorized loop bodies.
pub const UNROLL: usize = 4;

/// Elements consumed per vectorized loop iteration.
pub const STEP: usize = 32;

/// Splits a unit-stride length into full vectorized blocks of `STEP`
/// elements and a scalar tail, the shape every Level-1 fast path follows.
pub fn block_split(n: usize) -> (r: (usize, usize))
    ensures
        n == r.0 * STEP + r.1,
        r.1 < STEP,
{
    (n / STEP, n % STEP)
}

} // verus!
