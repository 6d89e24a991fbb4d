# tinybitvec

A vector of bits stored in `u32` words, with immutable and mutable slices
over ranges of bits, written in Verus and verified.

- `src/bits.rs`: the word layout (bit `i` is bit `i % 32` of word `i / 32`),
  the spec functions the contracts use (`bit_of`, `bits`, `fill`,
  `drained`, `words_for`) and the word-level read and write operations.
- `src/lib.rs`: `BitVec`, whose view is the sequence of its bits.
- `src/slice.rs`, `src/slice_mut.rs`: `Slice` and `SliceMut`, views over a
  range of bits; a `SliceMut` borrows the vector's words and length, and
  its contracts say what the vector holds once the slice is gone.
- `src/iter.rs`: `Iter`, which yields the bits of a slice in order.
- `src/laws.rs`: facts about the bit sequences the contracts are written
  over, which answer questions about several calls in a row.
