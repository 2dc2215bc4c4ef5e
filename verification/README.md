# saeitoshi

Inference for trained Sparse Autoencoders (SAEs): load a checkpoint, encode
activations into a few active features, decode features back into activations.

- `src/` is the library. It is verified with Verus: layouts and packing, the
  encoder and decoder kernels, TopK selection, normalization, sparsification,
  the checkpoint loaders and the `.sit` file format.
- `tests/` runs the library.
- `app/` puts files, threads, floating-point arithmetic and Python around it.

Numbers in the library are IEEE 754 binary32 encodings (`u32`). Ordering,
selecting, placing and storing them is integer logic. Arithmetic is asked of a
unit that the caller passes in, an `Fn(FloatOp) -> u32`, and the contracts say
which operations are asked for, on which operands and in which order. What
computes alike does so on every unit (`src/equivalence.rs`); statements about bits
(`src/independence.rs`, `src/kernels/encoder.rs`) hold for every unit that gives
one answer to each operation.

What the library takes from other crates on trust is written next to each call:
`safetensors` (parsing a file, looking a tensor up, its errors), `serde_json` (the
offsets in a safetensors header), `bytemuck` (grouping bytes), and two sorts and an
ASCII case mapping of the standard library.
