//! The mathematical model of BLAKE2b.
//!
//! A context is modelled by a [`State`]; hashing is a function of the output
//! length, the key and the message ([`digest`]).

use vstd::prelude::*;

#[allow(unused_imports)]
use crate::cryptoutil;

verus! {

/// Bytes in a message block.
pub const BLAKE2B_BLOCKBYTES: usize = 128;

/// Longest digest, in bytes.
pub const BLAKE2B_OUTBYTES: usize = 64;

/// Longest key, in bytes.
pub const BLAKE2B_KEYBYTES: usize = 64;

/// Bytes of salt in the parameter block.
pub const BLAKE2B_SALTBYTES: usize = 16;

/// Bytes of personalisation in the parameter block.
pub const BLAKE2B_PERSONALBYTES: usize = 16;

/// Bytes in the input buffer: two message blocks.
pub const BLAKE2B_BUFBYTES: usize = 256;

/// Number of rounds of the compression function.
pub const BLAKE2B_ROUNDS: usize = 12;

/// The initialisation vector.
pub const IV: [u64; 8] = [
    0x6a09e667f3bcc908,
    0xbb67ae8584caa73b,
    0x3c6ef372fe94f82b,
    0xa54ff53a5f1d36f1,
    0x510e527fade682d1,
    0x9b05688c2b3e6c1f,
    0x1f83d9abfb41bd6b,
    0x5be0cd19137e2179,
];

/// For each round, the order in which it takes the words of the message block.
pub const SIGMA: [[usize; 16]; 12] = [
    [0, 1, 2, 3, 4, 5, 6, 7, 8, 9, 10, 11, 12, 13, 14, 15],
    [14, 10, 4, 8, 9, 15, 13, 6, 1, 12, 0, 2, 11, 7, 5, 3],
    [11, 8, 12, 0, 5, 2, 15, 13, 10, 14, 3, 6, 7, 1, 9, 4],
    [7, 9, 3, 1, 13, 12, 11, 14, 2, 6, 5, 10, 4, 0, 15, 8],
    [9, 0, 5, 7, 2, 4, 10, 15, 14, 1, 11, 12, 6, 8, 3, 13],
    [2, 12, 6, 10, 0, 11, 8, 3, 4, 13, 7, 5, 15, 14, 1, 9],
    [12, 5, 1, 15, 14, 13, 4, 10, 0, 7, 6, 3, 9, 2, 8, 11],
    [13, 11, 7, 14, 12, 1, 3, 9, 5, 0, 15, 4, 8, 6, 2, 10],
    [6, 15, 14, 9, 11, 3, 0, 8, 12, 2, 13, 7, 1, 4, 10, 5],
    [10, 2, 8, 4, 7, 6, 1, 5, 15, 11, 9, 14, 3, 12, 13, 0],
    [0, 1, 2, 3, 4, 5, 6, 7, 8, 9, 10, 11, 12, 13, 14, 15],
    [14, 10, 4, 8, 9, 15, 13, 6, 1, 12, 0, 2, 11, 7, 5, 3],
];

/// Number of values of a 64-bit word.
pub open spec fn word_span() -> nat {
    0x1_0000_0000_0000_0000nat
}

/// Number of values of the byte counter, which has two words.
pub open spec fn counter_span() -> nat {
    0x1_0000_0000_0000_0000_0000_0000_0000_0000nat
}

/// `word` rotated right by `n` bits.
pub open spec fn rotr(word: u64, n: u64) -> u64 {
    (word >> n) | (word << ((64 - n) as u64))
}

/// The mixing function: mixes `x` and `y` into the words `a`, `b`, `c` and `d`
/// of the working vector.
#[verifier::opaque]
pub open spec fn mix(v: Seq<u64>, a: int, b: int, c: int, d: int, x: u64, y: u64) -> Seq<u64> {
    let a1 = v[a].wrapping_add(v[b]).wrapping_add(x);
    let d1 = rotr(v[d] ^ a1, 32);
    let c1 = v[c].wrapping_add(d1);
    let b1 = rotr(v[b] ^ c1, 24);
    let a2 = a1.wrapping_add(b1).wrapping_add(y);
    let d2 = rotr(d1 ^ a2, 16);
    let c2 = c1.wrapping_add(d2);
    let b2 = rotr(b1 ^ c2, 63);
    v.update(a, a2).update(b, b2).update(c, c2).update(d, d2)
}

/// Round `r` of the compression function: the columns of the working vector are
/// mixed, then its diagonals.
pub open spec fn round(v: Seq<u64>, m: Seq<u64>, r: int) -> Seq<u64> {
    let s = SIGMA[r];
    let v = mix(v, 0, 4, 8, 12, m[s[0] as int], m[s[1] as int]);
    let v = mix(v, 1, 5, 9, 13, m[s[2] as int], m[s[3] as int]);
    let v = mix(v, 2, 6, 10, 14, m[s[4] as int], m[s[5] as int]);
    let v = mix(v, 3, 7, 11, 15, m[s[6] as int], m[s[7] as int]);
    let v = mix(v, 0, 5, 10, 15, m[s[8] as int], m[s[9] as int]);
    let v = mix(v, 1, 6, 11, 12, m[s[10] as int], m[s[11] as int]);
    let v = mix(v, 2, 7, 8, 13, m[s[12] as int], m[s[13] as int]);
    mix(v, 3, 4, 9, 14, m[s[14] as int], m[s[15] as int])
}

/// The first `n` rounds.
pub open spec fn rounds(v: Seq<u64>, m: Seq<u64>, n: nat) -> Seq<u64>
    decreases n,
{
    if n == 0 {
        v
    } else {
        round(rounds(v, m, (n - 1) as nat), m, n - 1)
    }
}

/// The working vector at the start of a compression: the chain value, then the
/// initialisation vector with the byte counter `t` (two words) and the two
/// finalisation flags mixed in.
pub open spec fn working_vector(h: Seq<u64>, t: nat, f0: u64, f1: u64) -> Seq<u64> {
    h + seq![
        IV[0],
        IV[1],
        IV[2],
        IV[3],
        ((t % word_span()) as u64) ^ IV[4],
        ((t / word_span()) as u64) ^ IV[5],
        f0 ^ IV[6],
        f1 ^ IV[7],
    ]
}

/// The compression function: the chain value that follows `h` when `block` is
/// compressed with byte counter `t` and finalisation flags `f0` and `f1`.
#[verifier::opaque]
pub open spec fn compress(h: Seq<u64>, block: Seq<u8>, t: nat, f0: u64, f1: u64) -> Seq<u64> {
    let v = rounds(working_vector(h, t, f0, f1), cryptoutil::le_words(block), BLAKE2B_ROUNDS as nat);
    Seq::new(8, |i: int| h[i] ^ v[i] ^ v[i + 8])
}

/// `n` zero bytes.
pub open spec fn zeros(n: nat) -> Seq<u8> {
    Seq::new(n, |i: int| 0u8)
}

/// `data`, followed by as many zero bytes as it lacks to length `n`.
pub open spec fn pad(data: Seq<u8>, n: nat) -> Seq<u8> {
    data + zeros((n - data.len()) as nat)
}

/// The parameter block of sequential hashing: the lengths of digest and key,
/// then fanout 1 and depth 1, and zero for all other parameters.
pub open spec fn parameter_block(digest_length: nat, key_length: nat) -> Seq<u8> {
    pad(seq![digest_length as u8, key_length as u8, 1, 1], 64)
}

/// The chain value `h` with a parameter block mixed in.
pub open spec fn mix_parameters(h: Seq<u64>, parameters: Seq<u8>) -> Seq<u64> {
    Seq::new(8, |i: int| h[i] ^ cryptoutil::le_words(parameters)[i])
}

/// The first chain value under the given parameter block.
pub open spec fn initial_chain(parameters: Seq<u8>) -> Seq<u64> {
    mix_parameters(IV@, parameters)
}

/// What is hashed for `message` under `key`: a key goes first, in a block of its
/// own.
pub open spec fn keyed_data(key: Seq<u8>, message: Seq<u8>) -> Seq<u8> {
    if key.len() == 0 {
        message
    } else {
        pad(key, BLAKE2B_BLOCKBYTES as nat) + message
    }
}

/// The chain value after the first `n` blocks of `data`, none of which is the
/// last one.
pub open spec fn chain(h: Seq<u64>, data: Seq<u8>, n: nat) -> Seq<u64>
    decreases n,
{
    if n == 0 {
        h
    } else {
        compress(
            chain(h, data, (n - 1) as nat),
            data.subrange(128 * (n - 1), 128 * n as int),
            (128 * n) % counter_span(),
            0,
            0,
        )
    }
}

/// Number of blocks that come before the last one. Only empty data has an empty
/// last block.
pub open spec fn blocks_before_last(data: Seq<u8>) -> nat {
    if data.len() == 0 {
        0
    } else {
        ((data.len() - 1) / 128) as nat
    }
}

/// The last chain value: the last block is padded with zeros and compressed with
/// the finalisation flag set.
pub open spec fn last_chain(h: Seq<u64>, data: Seq<u8>) -> Seq<u64> {
    let n = blocks_before_last(data);
    compress(
        chain(h, data, n),
        pad(data.skip(128 * n as int), BLAKE2B_BLOCKBYTES as nat),
        data.len() % counter_span(),
        u64::MAX,
        0,
    )
}

/// The BLAKE2b digest of `digest_length` bytes of `message` under `key`; the
/// empty key stands for no key.
pub open spec fn digest(digest_length: nat, key: Seq<u8>, message: Seq<u8>) -> Seq<u8> {
    let h = initial_chain(parameter_block(digest_length, key.len()));
    cryptoutil::words_le_bytes(last_chain(h, keyed_data(key, message))).take(digest_length as int)
}

/// The state of a context.
#[verifier::ext_equal]
pub struct State {
    /// Length of the digest, in bytes.
    pub digest_length: nat,
    /// The key, empty for none.
    pub key: Seq<u8>,
    /// What stands behind the key in the place for it.
    pub key_rest: Seq<u8>,
    /// The parameter block.
    pub parameters: Seq<u8>,
    /// The chain value: eight words.
    pub h: Seq<u64>,
    /// The byte counter.
    pub t: nat,
    /// The finalisation flag of the last block.
    pub f0: u64,
    /// The finalisation flag of the last node.
    pub f1: u64,
    /// The input buffer, of which the first `buflen` bytes wait to be
    /// compressed.
    pub buf: Seq<u8>,
    /// Number of waiting bytes.
    pub buflen: nat,
    /// Not zero if the context hashes the last node of a tree.
    pub last_node: u8,
    /// Whether the digest has been computed; it then stands in the front of the
    /// buffer.
    pub computed: bool,
}

/// What holds of the state of every context.
pub open spec fn valid(s: State) -> bool {
    &&& 0 < s.digest_length <= BLAKE2B_OUTBYTES
    &&& s.key.len() <= BLAKE2B_KEYBYTES
    &&& s.key_rest == zeros((BLAKE2B_KEYBYTES - s.key.len()) as nat)
    &&& s.parameters == parameter_block(s.digest_length, s.key.len())
    &&& s.h.len() == 8
    &&& s.t < counter_span()
    &&& s.f0 == if s.computed {
        u64::MAX
    } else {
        0
    }
    &&& s.f1 == 0
    &&& s.buf.len() == BLAKE2B_BUFBYTES
    &&& s.buflen <= BLAKE2B_BUFBYTES
    &&& s.last_node == 0
}

/// The state that follows from the parameters alone, before the key goes in.
pub open spec fn initial(digest_length: nat, key: Seq<u8>) -> State {
    State {
        digest_length,
        key,
        key_rest: zeros((BLAKE2B_KEYBYTES - key.len()) as nat),
        parameters: parameter_block(digest_length, key.len()),
        h: initial_chain(parameter_block(digest_length, key.len())),
        t: 0,
        f0: 0,
        f1: 0,
        buf: zeros(BLAKE2B_BUFBYTES as nat),
        buflen: 0,
        last_node: 0,
        computed: false,
    }
}

/// The state with the parameters mixed into the chain value.
pub open spec fn apply_parameters(s: State) -> State {
    State { h: mix_parameters(s.h, s.parameters), ..s }
}

/// The state of a new context: a key has gone in, padded to a block.
pub open spec fn fresh(digest_length: nat, key: Seq<u8>) -> State {
    absorb(initial(digest_length, key), keyed_data(key, Seq::empty()))
}

/// Compresses the first block of the buffer and moves the second one up.
pub open spec fn advance(s: State) -> State {
    let t = (s.t + 128) % counter_span();
    State {
        h: compress(s.h, s.buf.take(128), t, s.f0, s.f1),
        t,
        buf: s.buf.skip(128) + s.buf.skip(128),
        buflen: (s.buflen - 128) as nat,
        ..s
    }
}

/// Takes one byte in. The first block is compressed only when the buffer is full
/// and another byte comes, so that the last block stays in the buffer.
pub open spec fn push(s: State, byte: u8) -> State {
    let s = if s.buflen == BLAKE2B_BUFBYTES {
        advance(s)
    } else {
        s
    };
    State { buf: s.buf.update(s.buflen as int, byte), buflen: s.buflen + 1, ..s }
}

/// Takes the bytes of `data` in, one after the other.
pub open spec fn absorb(s: State, data: Seq<u8>) -> State
    decreases data.len(),
{
    if data.len() == 0 {
        s
    } else {
        push(absorb(s, data.drop_last()), data.last())
    }
}

/// Takes in all of `pieces`, one after the other.
pub open spec fn absorb_all(s: State, pieces: Seq<Seq<u8>>) -> State
    decreases pieces.len(),
{
    if pieces.len() == 0 {
        s
    } else {
        absorb_all(absorb(s, pieces.first()), pieces.drop_first())
    }
}

/// Compresses the waiting bytes, padded with zeros, as the last block, and puts
/// the bytes of the chain value in the front of the buffer.
pub open spec fn close(s: State) -> State {
    let t = (s.t + s.buflen) % counter_span();
    let f1 = if s.last_node != 0 {
        u64::MAX
    } else {
        s.f1
    };
    let padded = pad(s.buf.take(s.buflen as int), BLAKE2B_BUFBYTES as nat);
    let h = compress(s.h, padded.take(128), t, u64::MAX, f1);
    State {
        h,
        t,
        f0: u64::MAX,
        f1,
        buf: cryptoutil::words_le_bytes(h) + padded.skip(64),
        computed: true,
        ..s
    }
}

/// The state after the digest has been asked for. It is computed once.
pub open spec fn finish(s: State) -> State {
    if s.computed {
        s
    } else if s.buflen > 128 {
        close(advance(s))
    } else {
        close(s)
    }
}

/// The digest that a context in state `s` gives.
pub open spec fn output(s: State) -> Seq<u8> {
    finish(s).buf.take(s.digest_length as int)
}

/// Whether `bytes` is what a context in state `s` owes if all that it was fed
/// since it was new, or since the last reset, is some message: the digest of that
/// message.
pub open spec fn gives_digest(s: State, bytes: Seq<u8>) -> bool {
    forall|message: Seq<u8>|
        s == #[trigger] absorb(fresh(s.digest_length, s.key), message) ==> bytes == digest(
            s.digest_length,
            s.key,
            message,
        )
}

/// What can be asked of a context.
pub enum Operation {
    /// To take input in.
    Input(Seq<u8>),
    /// To give the digest.
    Result,
    /// To forget all input.
    Reset,
}

/// The state after one operation.
pub open spec fn step(s: State, operation: Operation) -> State {
    match operation {
        Operation::Input(data) => absorb(s, data),
        Operation::Result => finish(s),
        Operation::Reset => fresh(s.digest_length, s.key),
    }
}

/// The state after all of `operations`, one after the other.
pub open spec fn run(s: State, operations: Seq<Operation>) -> State
    decreases operations.len(),
{
    if operations.len() == 0 {
        s
    } else {
        step(run(s, operations.drop_last()), operations.last())
    }
}

/// Whether the digest has been asked for since the last reset.
pub open spec fn asked(operations: Seq<Operation>) -> bool
    decreases operations.len(),
{
    if operations.len() == 0 {
        false
    } else {
        match operations.last() {
            Operation::Input(data) => asked(operations.drop_last()),
            Operation::Result => true,
            Operation::Reset => false,
        }
    }
}

/// All input since the last reset.
pub open spec fn input_since_reset(operations: Seq<Operation>) -> Seq<u8>
    decreases operations.len(),
{
    if operations.len() == 0 {
        Seq::empty()
    } else {
        let before = input_since_reset(operations.drop_last());
        match operations.last() {
            Operation::Input(data) => before + data,
            Operation::Result => before,
            Operation::Reset => Seq::empty(),
        }
    }
}

} // verus!
