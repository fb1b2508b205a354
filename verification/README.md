# llm_lzh

A small inference engine for decoder-only language models, with a verified core.

- `src/` is the library, verified with Verus: tensors and their strides, the kernels (dot products,
  norms, projections, rotary positions, attention, the feed-forward block), the forward pass, the
  choice of the next token, the tokenizer, the reading and quantizing of `safetensors` files, and
  the course of a generation.
- `app/` is the program around it: files, memory maps, printing, and the machine's `f32`.
- `tests/` runs the library.

The kernels are written over any scalar type with the operations of `arith::Arith`, of which
nothing is assumed. Their contracts say which operations, on which elements and in which order, give
each element that they write.

## Running

Put `tokenizer.json`, `config.json` and `model.safetensors` into the working directory and run the
program without arguments. With the path of a file of half-word weights it writes
`model.q8.safetensors`, in which matrices are quantized to blocks of 32 signed bytes with a scale.
