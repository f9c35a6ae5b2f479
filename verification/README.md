# keru_text storage

The GPU-side storage of the `keru_text` text renderer, with its bookkeeping
verified by Verus.

- `src/` — the verified library:
  - `gpu_slab`: an intrusive slab whose free list runs through the free items
    (`GpuSlabItem`), and the plan for uploading it to a GPU buffer;
  - `gpu_heap`: a chunked heap inside a GPU buffer (a request larger than a
    chunk gets a run of chunks of its own), which returns the writes, clears
    and buffer growths to carry out as `HeapCommand`s;
  - `offset_allocator_heap`: the same chunked heap over a CPU `Vec<T>`;
  - `chunk_allocator`: the trusted boundary with the `offset-allocator` crate;
    `chunk_invariants`: what the heaps keep true of each chunk;
  - `pow2`: rounding up to a power of two;
  - `lib.rs`: text edit styles, group transform handles, and the free-list
    encoding of group transforms.
- `app/` — the wgpu side (buffers, staging belt, bind groups), the float
  transform types and AccessKit node ids.
- `tests/` — tests of the library.
