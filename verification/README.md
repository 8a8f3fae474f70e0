# bit_string

A growable string of bits, packed little-endian into `u64` words (bit `i` is
bit `i % 64` of word `i / 64`), with every operation specified and proved in
Verus against the view of a bit string as a sequence of booleans.

Layout of `src/`:

- `words.rs`: the storage model (`bit_at`, `packs`), single-word bit lemmas,
  and word-level primitives that read, OR-paste, clear and shift bit ranges.
- `bit_string.rs`: the `BitString` type, its invariant and view, the
  primitives that touch its words (push, pop, set, truncate, clear) and the
  word-level constructors (`from_words`, `repeat`, `zeros`, `ones`).
- `pack.rs`: packing booleans and `'0'`/`'1'` text into words.
- `editing.rs`: concatenation, insertion, removal, splitting, extension.
- `interval.rs`, `intervals.rs`: half-open intervals and the slice, drain and
  replace operations on them.
- `reorder.rs`: `retain` and bit reversal.
- `ops.rs`: counting, chunk access, complement, xor and shifts.
- `text.rs`: parsing and printing the `'0'`/`'1'` text form.
- `iter.rs`: a double-ended cursor over the bits.
- `laws.rs`: proved properties that relate several operations.
