# xar

`xar` is an exponential segmented array whose behaviour is stated in contracts and
proved by Verus: an appendable collection whose elements live in independently
allocated chunks. The first two chunks each have `1 << BASE_SHIFT` slots, then each
later chunk doubles. Existing chunks are never reallocated, so element addresses
remain stable while those elements remain initialized.

It is not a contiguous array. Use `chunks()` / `chunks_mut()` for contiguous slices.

## Layout

- `src/geometry.rs`, `src/contents.rs`: which slot of which chunk stores an index, and
  what the chunks hold together.
- `src/chunk.rs`: one chunk, a buffer that stays where it was allocated.
- `src/array.rs`: the array, its model and its invariant.
- `src/layout.rs`, `src/growth.rs`, `src/tail.rs`, `src/bulk.rs`, `src/access.rs`: index
  arithmetic, allocation, the end of the array, many elements at once, one element.
- `src/cursor.rs`, `src/iter.rs`, `src/iter_mut.rs`, `src/into_iter.rs`, `src/chunks.rs`,
  `src/chunks_mut.rs`: iterators.
- `src/compare.rs`, `src/equality.rs`, `src/order.rs`, `src/hash.rs`: comparisons.
- `src/convert.rs`, `src/debug.rs`, `src/text.rs`, `src/error.rs`: conversions and text.
- `src/laws.rs`: what holds of several operations together.
- `tests/`: tests of the compiled library.
- `app/`: the array with the traits of the standard library, for callers that want a
  panic where the library has a condition.

## Model

`array@` is the sequence of elements and `array.buffers()` the addresses of the chunks.
Each operation says what becomes of both. `array.address(i)` is the address of element
`i`; `laws::addresses_are_stable` says that it stays the same while the chunks do.

What is taken on trust of the standard library stands in functions marked
`external_body`, each with a comment that says what is claimed, and in two things more:
that a `Vec` does not move its buffer while it has room, and that the calls by which
`src/chunk.rs` changes a vector (`push`, `pop`, `drain`, `append` to another vector and
`as_mut`, each named in the contract of the function that makes it) leave the buffer in
place. The documentation of `Vec` says so, and that the elements stay at the addresses of
the model rests on it.
