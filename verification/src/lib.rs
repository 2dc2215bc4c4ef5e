//! saeitoshi: inference for Sparse Autoencoders.
//!
//! An SAE turns a dense activation into a few active features and back. This
//! crate is its core:
//!
//! - [`sae`]: weights, sparse features, and the [`Sae`] pipeline
//!   (encode, decode, reconstruct);
//! - [`kernels`]: the encoder and decoder kernels and TopK selection;
//! - [`normalize`] and [`sparsify`]: what happens before and after the encoder;
//! - [`loader`], [`io`] and [`sit`]: checkpoints, from bytes and back to bytes;
//! - [`independence`] and [`equivalence`]: the laws of the pipeline as a whole;
//! - [`steps`], [`exact`] and [`active`]: what the kernels do operation by operation,
//!   what that comes to where nothing is rounded, and which features are active.
//!
//! Numbers are IEEE 754 binary32 encodings (see [`bits`]). The crate fixes every
//! comparison, selection, placement and byte, and which arithmetic operations
//! are asked for in which order; the operations themselves are done by an
//! arithmetic unit that the caller supplies.

pub mod active;
pub mod backends;
pub mod bits;
pub mod config;
pub mod dtype;
pub mod equivalence;
pub mod error;
pub mod exact;
pub mod independence;
pub mod index;
pub mod io;
pub mod kernels;
pub mod loader;
pub mod normalize;
pub mod sae;
pub mod sit;
pub mod sparsify;
pub mod steps;
pub mod text;

pub use config::{Architecture, NormalizeMode, SaeConfig, WeightDtype};
pub use error::SaeError;
pub use kernels::{select_backend, Backend};
pub use sae::{Sae, SparseOut, WeightLayout};
pub use sparsify::Sparsifier;
