//! BLAS-style vector and matrix-vector kernel library.
//!
//! The routines here are the parts of a Level-1/Level-2 kernel set whose
//! behaviour is a function of element positions and raw element words alone:
//! bounds validation for strided vector and column-major matrix views, the
//! pure data-movement kernels (`sswap`, `scopy`), the magnitude-argmax kernel
//! (`isamax`), and the cache-blocking plan for the matrix-vector product with
//! its scale-output-once guarantee. Floating-point accumulation itself lives
//! in a thin unverified layer around this crate; single-precision elements
//! cross the boundary as their 32-bit words.

pub mod gemv;
pub mod level1;
pub mod views;
