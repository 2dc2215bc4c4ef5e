//! The backends by name, for tests and benchmarks.

use vstd::prelude::*;

use crate::kernels::Backend;

verus! {

/// Scalar arithmetic.
pub const SCALAR: Backend = Backend::Scalar;

/// AVX2 with FMA.
pub const AVX2: Backend = Backend::Avx2;

/// AVX-512.
pub const AVX512: Backend = Backend::Avx512;

/// NEON.
pub const NEON: Backend = Backend::Neon;

} // verus!
