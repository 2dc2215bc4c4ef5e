//! Header schema of `.sit` files.
//!
//! A tensor's offset is **relative to the start of the tensor section** (which
//! begins at file offset `16 + header_len`, padded up to a 64-byte boundary).

use vstd::prelude::*;

use crate::config::SaeConfig;

verus! {

/// The header of a `.sit` file.
#[derive(Debug, Clone)]
pub struct SitHeader {
    pub config: SaeConfig,
    pub sparsifier: SparsifierKind,
    pub tensors: Vec<TensorEntry>,
}

/// The shape of a sparsifier. Numeric arrays (threshold, rescale) live as
/// tensors named in the manifest, not in the header.
#[derive(Debug, Clone, Copy, PartialEq, Eq, Structural)]
pub enum SparsifierKind {
    Topk { k: u32, post_relu: bool, has_rescale: bool },
    Jumprelu,
    Relu,
}

/// One tensor of the manifest.
#[derive(Debug, Clone)]
pub struct TensorEntry {
    pub name: String,
    /// One of `"f32"`, `"f16"`, `"bf16"`, `"i8"`. The writer emits `"f32"` only.
    pub dtype: String,
    pub shape: Vec<usize>,
    /// Offset from the start of the tensor section, 64-byte aligned.
    pub offset: u64,
    pub nbytes: u64,
    /// For quantized dtypes: name of the companion scale tensor.
    pub scale_tensor: Option<String>,
}

} // verus!
