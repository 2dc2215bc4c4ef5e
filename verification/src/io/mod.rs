//! Reading and writing tensors as bytes.

pub mod bytes;
pub mod header;
pub mod safetensors;
