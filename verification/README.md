# binvec

Bit vectors and bit slices packed into machine words, with their behaviour
stated in Verus contracts and proved.

- `src/borrow.rs`: the `BitBuffer` word trait (its implementations for the
  integer types and arrays are in `src/borrow/words.rs`), the `Const` and
  `Mut` borrow kinds, `BinarySlice` over borrowed words, its iterator, and
  the `MutableBinSlice` trait for writing bits.
- `src/raw_vec.rs`: the word storage of a vector and how it grows.
- `src/vec.rs`: `BinaryVec`, a growable vector of bits.
- `src/laws.rs`: properties that span several operations.
- `app/lib.rs`: range syntax for slicing, `Display` through a wrapper, and
  the `binslice!` and `binvec!` macros.

Bit `i` of a run of words is bit `i % W` of word `i / W`, where `W` is the
word's width, counted from the least significant bit.
