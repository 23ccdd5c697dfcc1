# loken

Quantised tensors on the CPU, verified with Verus: the block formats of a quantised model, the
dot products and matrix products over them, the tensor operations around them, and the reader of
torch checkpoints.

`src/` is the library. Every kernel is generic over its number type (`arith::Real`), and its
contract names the exact tree of operations its result is computed by: the order of a sum is part
of the answer. Integer parts - codes, scales, layouts, sums of products - are stated exactly.

- `arith`, `sums`: the number type and finite sums.
- `blocks`, `format/`: the block formats, one file each: layout, decoder, encoder, dot products.
- `coded`, `lanes`, `scale`, `superblock`, `kfit`, `koffset`: what the formats share.
- `layout`, `dispatch`, `bytes`: blocks as bytes, a format by its tag, products over raw bytes.
- `grid`, `tiled`, `tile4x8`, `kgroup`, `repack_*`, `drivers`: weights repacked by columns, their
  kernels, and the products over them.
- `matmul`, `ffn`, `float`: dense products, the feed-forward block, the plain float carriers.
- `agree`: shared, batched and fused work gives what separate calls give, value for value.
- `exact/`: what the kernels come to where nothing is rounded, against their plain definitions:
  the formats, the repacked columns and tiles, banded attention, eight-bit round trips, the scale
  fit, the exponent search.
- `whole`: integers as a number type.
- `error`, `text`: what is wrong with a request, in words.
- `gemv_pool`: what the executor decides.
- `tensor`, `ops/`: tensors, softmax, norms, activations, attention, indexing; `ops/stored` has
  them over half-precision elements.
- `pth/`: archives, pickles and the tensors of a checkpoint.
- `prefix`: the paths weights are addressed by.

`app/` is ordinary Rust around it: single precision, threads and the products shared out to them,
files, configuration names.
`tests/` runs the library in single precision.
