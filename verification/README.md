# cryptoxide

The BLAKE2b hash function, unkeyed and keyed, in Rust verified with Verus.

- `src/model.rs` says what BLAKE2b is: the compression function, the digest of a
  message under a key (`digest`), and the state of a hashing context.
- `src/blake2b.rs` is the implementation. `Blake2b::blake2b` hashes in one call;
  a context (`Blake2b::new`, `Blake2b::new_keyed`) takes its input in pieces
  through the traits `Digest` and `Mac`.
- `src/digest.rs` and `src/mac.rs` hold those traits, `src/cryptoutil.rs` the
  little-endian encoding, `src/util.rs` the wiping of secrets.
- `src/laws.rs` proves what holds of the whole: the digest of a context is that
  of all its input however it was cut into pieces, a reset restores a new
  context, the digest is computed once, and what is left in the buffer of
  earlier blocks does not matter.

The state of a context leaves no field out, so that contracts that speak of the
state speak of the whole context (`Blake2b::law_state_is_all`).

The byte counter has 128 bits and wraps.

One thing is taken on trust: that `core::hint::black_box` returns its argument.
