//! Kernels: dispatch over the encoder backends.
//!
//! A [`Backend`] names the arithmetic shape of an encoder kernel: how many
//! vector lanes split a dot product over row-major weights, and how many batch
//! rows a register tile holds over packed weights. [`select_backend`] picks one
//! from what the CPU offers.

use vstd::prelude::*;

use crate::kernels::gemm::DEFAULT_M_R;

pub mod decoder;
pub mod encoder;
pub mod gemm;
pub mod reduce;
pub mod row_major;
pub mod scalar;
pub mod topk;
pub mod topk_heap;

verus! {

/// A CPU-specific encoder kernel.
#[derive(Debug, Clone, Copy, PartialEq, Eq, Structural)]
pub enum Backend {
    /// Plain scalar arithmetic.
    Scalar,
    /// AVX2 with FMA: 8 lanes, 16x6 tiles.
    Avx2,
    /// AVX-512: 16 lanes, 16x12 tiles.
    Avx512,
    /// NEON: 4 lanes, 16x6 tiles.
    Neon,
}

impl Backend {
    /// The number of vector lanes.
    pub open spec fn spec_lanes(self) -> int {
        match self {
            Backend::Scalar => 1,
            Backend::Avx2 => 8,
            Backend::Avx512 => 16,
            Backend::Neon => 4,
        }
    }

    /// The number of batch rows in a register tile (N_R).
    pub open spec fn spec_tile_rows(self) -> int {
        match self {
            Backend::Scalar => 1,
            Backend::Avx2 => 6,
            Backend::Avx512 => 12,
            Backend::Neon => 6,
        }
    }

    /// The number of vector lanes.
    pub fn lanes(self) -> (res: usize)
        ensures
            res == self.spec_lanes(),
            self is Scalar ==> res == 1,
            self is Avx2 ==> res == 8,
            self is Avx512 ==> res == 16,
            self is Neon ==> res == 4,
            res > 0,
    {
        match self {
            Backend::Scalar => 1,
            Backend::Avx2 => 8,
            Backend::Avx512 => 16,
            Backend::Neon => 4,
        }
    }

    /// The number of batch rows in a register tile (N_R).
    pub fn tile_rows(self) -> (res: usize)
        ensures
            res == self.spec_tile_rows(),
            self is Scalar ==> res == 1,
            self is Avx2 ==> res == 6,
            self is Avx512 ==> res == 12,
            self is Neon ==> res == 6,
            res > 0,
    {
        match self {
            Backend::Scalar => 1,
            Backend::Avx2 => 6,
            Backend::Avx512 => 12,
            Backend::Neon => 6,
        }
    }

    /// The name of the backend.
    pub open spec fn spec_name(self) -> Seq<char> {
        match self {
            Backend::Scalar => "scalar_tiled"@,
            Backend::Avx2 => "avx2_tiled"@,
            Backend::Avx512 => "avx512_tiled"@,
            Backend::Neon => "neon_tiled"@,
        }
    }

    /// The name of the backend.
    pub fn name(self) -> (res: &'static str)
        ensures
            res@ == self.spec_name(),
            self is Scalar ==> res@ == "scalar_tiled"@,
            self is Avx2 ==> res@ == "avx2_tiled"@,
            self is Avx512 ==> res@ == "avx512_tiled"@,
            self is Neon ==> res@ == "neon_tiled"@,
    {
        match self {
            Backend::Scalar => "scalar_tiled",
            Backend::Avx2 => "avx2_tiled",
            Backend::Avx512 => "avx512_tiled",
            Backend::Neon => "neon_tiled",
        }
    }
}

/// What a CPU offers, as far as the choice of a backend depends on it.
#[derive(Debug, Clone, Copy, PartialEq, Eq, Structural)]
pub struct CpuFeatures {
    pub avx512f: bool,
    pub avx2: bool,
    pub fma: bool,
    pub neon: bool,
}

/// Pick the fastest backend that the CPU offers: AVX-512 before AVX2, which
/// needs FMA beside it, before NEON, and scalar arithmetic where there is none
/// of them.
pub fn select_backend(cpu: CpuFeatures) -> (res: Backend)
    ensures
        res is Avx512 <==> cpu.avx512f,
        res is Avx2 <==> !cpu.avx512f && cpu.avx2 && cpu.fma,
        res is Neon <==> !cpu.avx512f && !(cpu.avx2 && cpu.fma) && cpu.neon,
        res is Scalar <==> !cpu.avx512f && !(cpu.avx2 && cpu.fma) && !cpu.neon,
{
    if cpu.avx512f {
        Backend::Avx512
    } else if cpu.avx2 && cpu.fma {
        Backend::Avx2
    } else if cpu.neon {
        Backend::Neon
    } else {
        Backend::Scalar
    }
}

/// Packing `m_r` for the given backend. Every backend shares the same packed
/// layout, so this is always [`DEFAULT_M_R`].
pub fn backend_m_r(backend: Backend) -> (res: Option<usize>)
    ensures
        res == Some(DEFAULT_M_R),
        res == Some(16usize),
{
    Some(DEFAULT_M_R)
}

} // verus!
