# flash_attn

Paged flash attention, verified with [Verus](https://github.com/verus-lang/verus).

Keys and values of a sequence live in a cache that is cut into pages. Two kernels
work on it, one block (a request and a head) at a time:

- `cache_concat_block` takes the keys and values of new rows into the cache;
- `flash_attn_block` computes the attention of the new query rows, tile by tile
  and page by page, with the online softmax.

## Layout

- `src/memory.rs`: the element memory that all tensors of a batch lie in. It is
  addressed in bytes; tensors are byte addresses and byte strides.
- `src/scalar.rs`: what the kernels ask of a number type.
- `src/attention/`: configuration, pages and requests (`mod.rs`); what a block
  reads and writes (`block.rs`); the kernels (`cpu.rs`, `tile.rs`, `online.rs`);
  from tensors to requests (`batch.rs`); whole batches (`driver.rs`) and whether
  they can be computed (`check.rs`); number types (`precision.rs`); device source
  and launches (`cuda.rs`).
- `src/laws/`: what holds of the kernels as a whole.
- `app/`: binds the library to floating point numbers (`num_traits`), tensors
  (`any_tensor`), threads (`rayon`) and, with `--cfg cuda`, a CUDA device.

## What is proved

Contracts say exactly what each kernel leaves in memory, overlapping tensors and
rounding arithmetic included: the result is stated over whatever the operations
of the number type return. On top of that stand, among others:

- a read of the cache gives back what was written, and nothing else changes;
- the size of the query tiles does not matter;
- blocks that keep out of each other's way can run in any order;
- in exact arithmetic, a request whose tensors do not overlap gets causal softmax
  attention over its cached and its new rows, whatever the pages;
- in rounding arithmetic too, what a row does not look at, and later rows, do not
  matter to it, and computing a request in two parts is computing it at once. All
  that is asked of the arithmetic is that masked terms vanish, up to a relation
  such as equality, or equality but for the sign of zero.

The requests of a batch count their pages from the head of one list, so the
requests after the first look into the first one's cache. The laws on batches say
what each request gets as long as none of them writes what another needs.

One function of an outside crate is trusted: `ArrayLayout::index` of
`ndarray_layout`, through which the pages of a cache tensor are found.
