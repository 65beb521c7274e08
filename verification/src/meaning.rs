//! What the model says, in numbers and bytes.
//!
//! Each law here fixes one notion of the model by how its results relate to its
//! arguments: by undoing a step, byte for byte, or by a chain of values of which
//! each follows from the one before.

use vstd::prelude::*;

#[allow(unused_imports)]
use vstd::arithmetic::power::*;

#[allow(unused_imports)]
use crate::blake2b::Blake2b;
#[allow(unused_imports)]
use crate::cryptoutil;
#[allow(unused_imports)]
use crate::digest;
#[allow(unused_imports)]
use crate::laws;
#[allow(unused_imports)]
use crate::mac;
#[allow(unused_imports)]
use crate::model;
use crate::model::State;

verus! {

/// The words of the initialisation vector are the first 64 bits of the fractional
/// parts of the square roots of the first eight primes: `x` is the integral part
/// and those bits, and the root of the prime, shifted by 64 bits, lies between `x`
/// and `x + 1`.
pub proof fn law_initialisation_vector(i: int, prime: int, floor: int)
    requires
        0 <= i < 8,
        prime == seq![2int, 3, 5, 7, 11, 13, 17, 19][i],
        floor == seq![1int, 1, 2, 2, 3, 3, 4, 4][i],
    ensures
        ({
            let x = 0x1_0000_0000_0000_0000 * floor + model::IV[i];
            &&& x * x <= prime * 0x1_0000_0000_0000_0000_0000_0000_0000_0000int
            &&& prime * 0x1_0000_0000_0000_0000_0000_0000_0000_0000int < (x + 1) * (x + 1)
        }),
{
    assert(model::IV[0] == 0x6a09e667f3bcc908);
    let x = 0x1_0000_0000_0000_0000 * floor + model::IV[i];
    if i == 0 {
        assert(x == 0x1_6a09e667f3bcc908int);
    } else if i == 1 {
        assert(x == 0x1_bb67ae8584caa73bint);
    } else if i == 2 {
        assert(x == 0x2_3c6ef372fe94f82bint);
    } else if i == 3 {
        assert(x == 0x2_a54ff53a5f1d36f1int);
    } else if i == 4 {
        assert(x == 0x3_510e527fade682d1int);
    } else if i == 5 {
        assert(x == 0x3_9b05688c2b3e6c1fint);
    } else if i == 6 {
        assert(x == 0x4_1f83d9abfb41bd6bint);
    } else {
        assert(x == 0x4_5be0cd19137e2179int);
    }
}

/// To rotate a word right is to split it in two and to exchange the parts.
pub proof fn law_rotation(w: u64)
    ensures
        model::rotr(w, 32) == w / 0x1_0000_0000 + (w % 0x1_0000_0000) * 0x1_0000_0000,
        model::rotr(w, 24) == w / 0x100_0000 + (w % 0x100_0000) * 0x100_0000_0000,
        model::rotr(w, 16) == w / 0x1_0000 + (w % 0x1_0000) * 0x1_0000_0000_0000,
        model::rotr(w, 63) == w / 0x8000_0000_0000_0000 + (w % 0x8000_0000_0000_0000) * 2,
{
    assert((w >> 32u64) | (w << 32u64) == w / 0x1_0000_0000 + (w % 0x1_0000_0000) * 0x1_0000_0000)
        by (bit_vector);
    assert((w >> 24u64) | (w << 40u64) == w / 0x100_0000 + (w % 0x100_0000) * 0x100_0000_0000)
        by (bit_vector);
    assert((w >> 16u64) | (w << 48u64) == w / 0x1_0000 + (w % 0x1_0000) * 0x1_0000_0000_0000)
        by (bit_vector);
    assert((w >> 63u64) | (w << 1u64) == w / 0x8000_0000_0000_0000 + (w % 0x8000_0000_0000_0000)
        * 2) by (bit_vector);
}

/// An exclusive or and a rotation right are undone by a rotation left and the same
/// exclusive or.
proof fn lemma_turn_undone(x: u64, y: u64)
    ensures
        ({
            let r = model::rotr(x ^ y, 32);
            (((r % 0x1_0000_0000) * 0x1_0000_0000 + r / 0x1_0000_0000) as u64) ^ y == x
        }),
        ({
            let r = model::rotr(x ^ y, 24);
            (((r % 0x100_0000_0000) * 0x100_0000 + r / 0x100_0000_0000) as u64) ^ y == x
        }),
        ({
            let r = model::rotr(x ^ y, 16);
            (((r % 0x1_0000_0000_0000) * 0x1_0000 + r / 0x1_0000_0000_0000) as u64) ^ y == x
        }),
        ({
            let r = model::rotr(x ^ y, 63);
            (((r % 2) * 0x8000_0000_0000_0000 + r / 2) as u64) ^ y == x
        }),
{
    let r = model::rotr(x ^ y, 32);
    assert((((r % 0x1_0000_0000) * 0x1_0000_0000 + r / 0x1_0000_0000) as u64) ^ y == x) by (bit_vector)
        requires
            r == ((x ^ y) >> 32u64) | ((x ^ y) << 32u64),
    ;
    let r = model::rotr(x ^ y, 24);
    assert((((r % 0x100_0000_0000) * 0x100_0000 + r / 0x100_0000_0000) as u64) ^ y == x) by (bit_vector)
        requires
            r == ((x ^ y) >> 24u64) | ((x ^ y) << 40u64),
    ;
    let r = model::rotr(x ^ y, 16);
    assert((((r % 0x1_0000_0000_0000) * 0x1_0000 + r / 0x1_0000_0000_0000) as u64) ^ y == x) by (bit_vector)
        requires
            r == ((x ^ y) >> 16u64) | ((x ^ y) << 48u64),
    ;
    let r = model::rotr(x ^ y, 63);
    assert((((r % 2) * 0x8000_0000_0000_0000 + r / 2) as u64) ^ y == x) by (bit_vector)
        requires
            r == ((x ^ y) >> 63u64) | ((x ^ y) << 1u64),
    ;
}

/// Sums modulo the span of a word are undone by differences.
proof fn lemma_sum_undone(x: u64, y: u64, z: u64)
    ensures
        ((x.wrapping_add(y) - y) % 0x1_0000_0000_0000_0000int) as u64 == x,
        ((x.wrapping_add(y).wrapping_add(z) - y - z) % 0x1_0000_0000_0000_0000int) as u64 == x,
{
}

/// Mixing can be undone: the four words before it, and the words mixed in, are
/// bound to the four words after it by sums modulo the span of a word, exclusive
/// ors, and rotations to the left. The other twelve words stay.
pub proof fn law_mix_undone(v: Seq<u64>, a: int, b: int, c: int, d: int, x: u64, y: u64)
    requires
        v.len() == 16,
        0 <= a < 16,
        0 <= b < 16,
        0 <= c < 16,
        0 <= d < 16,
        a != b,
        a != c,
        a != d,
        b != c,
        b != d,
        c != d,
    ensures
        model::mix(v, a, b, c, d, x, y).len() == 16,
        forall|i: int|
            0 <= i < 16 && i != a && i != b && i != c && i != d ==> #[trigger] model::mix(
                v,
                a,
                b,
                c,
                d,
                x,
                y,
            )[i] == v[i],
        ({
            let w = model::mix(v, a, b, c, d, x, y);
            let span = 0x1_0000_0000_0000_0000int;
            let b1 = (((w[b] % 2) * 0x8000_0000_0000_0000 + w[b] / 2) as u64) ^ w[c];
            let c1 = ((w[c] - w[d]) % span) as u64;
            let d1 = (((w[d] % 0x1_0000_0000_0000) * 0x1_0000 + w[d] / 0x1_0000_0000_0000) as u64)
                ^ w[a];
            let a1 = ((w[a] - b1 - y) % span) as u64;
            let b0 = (((b1 % 0x100_0000_0000) * 0x100_0000 + b1 / 0x100_0000_0000) as u64) ^ c1;
            let c0 = ((c1 - d1) % span) as u64;
            let d0 = (((d1 % 0x1_0000_0000) * 0x1_0000_0000 + d1 / 0x1_0000_0000) as u64) ^ a1;
            let a0 = ((a1 - b0 - x) % span) as u64;
            v[a] == a0 && v[b] == b0 && v[c] == c0 && v[d] == d0
        }),
{
    reveal(model::mix);
    let a1 = v[a].wrapping_add(v[b]).wrapping_add(x);
    let d1 = model::rotr(v[d] ^ a1, 32);
    let c1 = v[c].wrapping_add(d1);
    let b1 = model::rotr(v[b] ^ c1, 24);
    let a2 = a1.wrapping_add(b1).wrapping_add(y);
    let d2 = model::rotr(d1 ^ a2, 16);
    let c2 = c1.wrapping_add(d2);
    let b2 = model::rotr(b1 ^ c2, 63);
    let w = model::mix(v, a, b, c, d, x, y);
    assert(w[a] == a2 && w[b] == b2 && w[c] == c2 && w[d] == d2);
    let span = 0x1_0000_0000_0000_0000int;
    assert((((b2 % 2) * 0x8000_0000_0000_0000 + b2 / 2) as u64) ^ c2 == b1) by {
        lemma_turn_undone(b1, c2);
    }
    assert(((c2 - d2) % span) as u64 == c1) by {
        lemma_sum_undone(c1, d2, 0);
    }
    assert((((d2 % 0x1_0000_0000_0000) * 0x1_0000 + d2 / 0x1_0000_0000_0000) as u64) ^ a2 == d1)
        by {
        lemma_turn_undone(d1, a2);
    }
    assert(((a2 - b1 - y) % span) as u64 == a1) by {
        lemma_sum_undone(a1, b1, y);
    }
    assert((((b1 % 0x100_0000_0000) * 0x100_0000 + b1 / 0x100_0000_0000) as u64) ^ c1 == v[b]) by {
        lemma_turn_undone(v[b], c1);
    }
    assert(((c1 - d1) % span) as u64 == v[c]) by {
        lemma_sum_undone(v[c], d1, 0);
    }
    assert((((d1 % 0x1_0000_0000) * 0x1_0000_0000 + d1 / 0x1_0000_0000) as u64) ^ a1 == v[d]) by {
        lemma_turn_undone(v[d], a1);
    }
    assert(((a1 - v[b] - x) % span) as u64 == v[a]) by {
        lemma_sum_undone(v[a], v[b], x);
    }
}

/// Mixing looks at four words, and changes no other.
proof fn lemma_mix_is_local(
    v: Seq<u64>,
    u: Seq<u64>,
    a: int,
    b: int,
    c: int,
    d: int,
    x: u64,
    y: u64,
)
    requires
        v.len() == 16,
        u.len() == 16,
        0 <= a < b < 16,
        b < c < 16 || (a < c < 16 && c != b),
        0 <= d < 16,
        d != a,
        d != b,
        d != c,
        v[a] == u[a],
        v[b] == u[b],
        v[c] == u[c],
        v[d] == u[d],
    ensures
        ({
            let w = model::mix(v, a, b, c, d, x, y);
            let z = model::mix(u, a, b, c, d, x, y);
            &&& w.len() == 16
            &&& w[a] == z[a] && w[b] == z[b] && w[c] == z[c] && w[d] == z[d]
            &&& forall|i: int|
                0 <= i < 16 && i != a && i != b && i != c && i != d ==> #[trigger] w[i] == v[i]
        }),
{
    reveal(model::mix);
}

/// A round mixes the four columns of the vector side by side, and then the four
/// diagonals of what comes of that, the words of the message in the order of its
/// row of `SIGMA`. The vector between the two halves is handed back.
pub proof fn law_round(v: Seq<u64>, m: Seq<u64>, r: int) -> (half: Seq<u64>)
    requires
        v.len() == 16,
        m.len() == 16,
        0 <= r < 12,
    ensures
        half.len() == 16,
        model::round(v, m, r).len() == 16,
        forall|i: int, q: int|
            #![trigger half[4 * q + i]]
            0 <= i < 4 && 0 <= q < 4 ==> half[4 * q + i] == model::mix(
                v,
                i,
                4 + i,
                8 + i,
                12 + i,
                m[model::SIGMA[r][2 * i] as int],
                m[model::SIGMA[r][2 * i + 1] as int],
            )[4 * q + i],
        forall|i: int, q: int|
            #![trigger model::round(v, m, r)[4 * q + (i + q) % 4]]
            0 <= i < 4 && 0 <= q < 4 ==> model::round(v, m, r)[4 * q + (i + q) % 4] == model::mix(
                half,
                i,
                4 + (i + 1) % 4,
                8 + (i + 2) % 4,
                12 + (i + 3) % 4,
                m[model::SIGMA[r][8 + 2 * i] as int],
                m[model::SIGMA[r][9 + 2 * i] as int],
            )[4 * q + (i + q) % 4],
{
    let s = model::SIGMA[r];
    let v1 = model::mix(v, 0, 4, 8, 12, m[s[0] as int], m[s[1] as int]);
    let v2 = model::mix(v1, 1, 5, 9, 13, m[s[2] as int], m[s[3] as int]);
    let v3 = model::mix(v2, 2, 6, 10, 14, m[s[4] as int], m[s[5] as int]);
    let half = model::mix(v3, 3, 7, 11, 15, m[s[6] as int], m[s[7] as int]);
    let w1 = model::mix(half, 0, 5, 10, 15, m[s[8] as int], m[s[9] as int]);
    let w2 = model::mix(w1, 1, 6, 11, 12, m[s[10] as int], m[s[11] as int]);
    let w3 = model::mix(w2, 2, 7, 8, 13, m[s[12] as int], m[s[13] as int]);
    let w = model::mix(w3, 3, 4, 9, 14, m[s[14] as int], m[s[15] as int]);
    lemma_mix_is_local(v, v, 0, 4, 8, 12, m[s[0] as int], m[s[1] as int]);
    lemma_mix_is_local(v1, v, 1, 5, 9, 13, m[s[2] as int], m[s[3] as int]);
    lemma_mix_is_local(v2, v, 2, 6, 10, 14, m[s[4] as int], m[s[5] as int]);
    lemma_mix_is_local(v3, v, 3, 7, 11, 15, m[s[6] as int], m[s[7] as int]);
    lemma_mix_is_local(half, half, 0, 5, 10, 15, m[s[8] as int], m[s[9] as int]);
    lemma_mix_is_local(w1, half, 1, 6, 11, 12, m[s[10] as int], m[s[11] as int]);
    lemma_mix_is_local(w2, half, 2, 7, 8, 13, m[s[12] as int], m[s[13] as int]);
    lemma_mix_is_local(w3, half, 3, 4, 9, 14, m[s[14] as int], m[s[15] as int]);
    assert(w == model::round(v, m, r));
    half
}

/// Byte `i` of a number is its quotient by 256 to the power of `i`, modulo 256.
pub proof fn law_byte_of_number(value: nat, n: nat, i: int)
    requires
        0 <= i < n,
    ensures
        cryptoutil::le_bytes(value, n).len() == n,
        cryptoutil::le_bytes(value, n)[i] == (value as int / pow(256, i as nat)) % 256,
    decreases n,
{
    cryptoutil::lemma_le_bytes_len(value, n);
    if i == 0 {
        lemma_pow0(256);
    } else {
        law_byte_of_number(value / 256, (n - 1) as nat, i - 1);
        cryptoutil::lemma_le_bytes_len(value / 256, (n - 1) as nat);
        let p = pow(256, (i - 1) as nat);
        lemma_pow_positive(256, (i - 1) as nat);
        reveal(pow);
        assert(pow(256, i as nat) == 256 * p);
        vstd::arithmetic::div_mod::lemma_div_denominator(value as int, 256, p);
    }
}

/// The number that bytes stand for has those bytes, and no others.
pub proof fn law_number_of_bytes(bytes: Seq<u8>)
    ensures
        cryptoutil::le_value(bytes) < pow(256, bytes.len()),
        forall|i: int|
            0 <= i < bytes.len() ==> (cryptoutil::le_value(bytes) as int / pow(256, i as nat))
                % 256 == #[trigger] bytes[i],
{
    cryptoutil::law_bytes_of_value(bytes);
    lemma_span_is_power(bytes.len());
    assert forall|i: int| 0 <= i < bytes.len() implies (cryptoutil::le_value(bytes) as int / pow(
        256,
        i as nat,
    )) % 256 == #[trigger] bytes[i] by {
        law_byte_of_number(cryptoutil::le_value(bytes), bytes.len(), i);
    }
}

/// `n` bytes have 256 to the power of `n` values.
proof fn lemma_span_is_power(n: nat)
    ensures
        cryptoutil::le_span(n) == pow(256, n),
    decreases n,
{
    reveal(pow);
    if n > 0 {
        lemma_span_is_power((n - 1) as nat);
    }
}

/// Each word that bytes hold is the sum of eight of them, each with its weight.
pub proof fn law_words_of_bytes(bytes: Seq<u8>, i: int)
    requires
        0 <= 8 * i,
        8 * i + 8 <= bytes.len(),
    ensures
        cryptoutil::le_words(bytes).len() == bytes.len() / 8,
        cryptoutil::le_words(bytes)[i] == bytes[8 * i] + 0x100 * bytes[8 * i + 1] + 0x1_0000
            * bytes[8 * i + 2] + 0x100_0000 * bytes[8 * i + 3] + 0x1_0000_0000 * bytes[8 * i + 4]
            + 0x100_0000_0000 * bytes[8 * i + 5] + 0x1_0000_0000_0000 * bytes[8 * i + 6]
            + 0x100_0000_0000_0000 * bytes[8 * i + 7],
{
    cryptoutil::lemma_le_value_of_eight(bytes.subrange(8 * i, 8 * i + 8));
}

/// The bytes of words are those of the first word, then those of the next: byte `j`
/// is byte `j % 8` of word `j / 8`.
pub proof fn law_bytes_of_words(words: Seq<u64>, j: int)
    requires
        0 <= j < 8 * words.len(),
    ensures
        cryptoutil::words_le_bytes(words).len() == 8 * words.len(),
        cryptoutil::words_le_bytes(words)[j] == (words[j / 8] as int / pow(256, (j % 8) as nat))
            % 256,
{
    law_byte_of_number(words[j / 8] as nat, 8, j % 8);
}

/// What is written over bytes stands where it was sent, and the rest stays.
pub proof fn law_overwrite(dst: Seq<u8>, at: int, data: Seq<u8>)
    requires
        0 <= at,
        at + data.len() <= dst.len(),
    ensures
        cryptoutil::overwrite(dst, at, data) == dst.take(at) + data + dst.skip(at + data.len()),
{
    assert(cryptoutil::overwrite(dst, at, data) =~= dst.take(at) + data + dst.skip(
        at + data.len(),
    ));
}

/// Data is padded with zero bytes, and with nothing else.
pub proof fn law_padding(data: Seq<u8>, n: nat, i: int)
    requires
        data.len() <= n,
        0 <= i < n,
    ensures
        model::pad(data, n).len() == n,
        i < data.len() ==> model::pad(data, n)[i] == data[i],
        data.len() <= i ==> model::pad(data, n)[i] == 0,
{
}

/// Without a key the message is hashed as it is. A key fills the front of a first
/// block, of which every other byte is zero, and the message follows.
pub proof fn law_hashed_data(key: Seq<u8>, message: Seq<u8>)
    requires
        key.len() <= 64,
    ensures
        key.len() == 0 ==> model::keyed_data(key, message) == message,
        key.len() > 0 ==> {
            let data = model::keyed_data(key, message);
            &&& data.len() == 128 + message.len()
            &&& forall|i: int| 0 <= i < key.len() ==> #[trigger] data[i] == key[i]
            &&& forall|i: int| key.len() <= i < 128 ==> #[trigger] data[i] == 0
            &&& forall|i: int|
                128 <= i < 128 + message.len() ==> #[trigger] data[i] == message[i - 128]
        },
{
}

/// The parameter block holds the two lengths, two ones, and zeros.
pub proof fn law_parameter_block(digest_length: nat, key_length: nat, i: int)
    requires
        digest_length <= 64,
        key_length <= 64,
        0 <= i < 64,
    ensures
        model::parameter_block(digest_length, key_length).len() == 64,
        model::parameter_block(digest_length, key_length)[i] == if i == 0 {
            digest_length as int
        } else if i == 1 {
            key_length as int
        } else if i == 2 || i == 3 {
            1
        } else {
            0
        },
{
}

/// The working vector is the chain value and the initialisation vector, into whose
/// last four words go the whole byte counter, in two words, and the two flags.
/// Vectors of different counters differ.
pub proof fn law_working_vector(h: Seq<u64>, t: nat, f0: u64, f1: u64)
    requires
        h.len() == 8,
        t < 0x1_0000_0000_0000_0000_0000_0000_0000_0000nat,
    ensures
        ({
            let v = model::working_vector(h, t, f0, f1);
            &&& v.len() == 16
            &&& forall|i: int| 0 <= i < 8 ==> #[trigger] v[i] == h[i]
            &&& forall|i: int| 8 <= i < 12 ==> #[trigger] v[i] == model::IV[i - 8]
            &&& v[12] ^ model::IV[4] == t % 0x1_0000_0000_0000_0000nat
            &&& v[13] ^ model::IV[5] == t / 0x1_0000_0000_0000_0000nat
            &&& v[14] ^ model::IV[6] == f0
            &&& v[15] ^ model::IV[7] == f1
        }),
        forall|u: nat|
            u < 0x1_0000_0000_0000_0000_0000_0000_0000_0000nat && u != t
                ==> #[trigger] model::working_vector(h, u, f0, f1) != model::working_vector(
                h,
                t,
                f0,
                f1,
            ),
{
    lemma_working_vector(h, t, f0, f1);
    assert forall|u: nat|
        u < 0x1_0000_0000_0000_0000_0000_0000_0000_0000nat && u
            != t implies #[trigger] model::working_vector(h, u, f0, f1) != model::working_vector(
        h,
        t,
        f0,
        f1,
    ) by {
        lemma_working_vector(h, u, f0, f1);
    }
}

/// The words of the working vector.
proof fn lemma_working_vector(h: Seq<u64>, t: nat, f0: u64, f1: u64)
    requires
        h.len() == 8,
        t < 0x1_0000_0000_0000_0000_0000_0000_0000_0000nat,
    ensures
        ({
            let v = model::working_vector(h, t, f0, f1);
            &&& v.len() == 16
            &&& forall|i: int| 0 <= i < 8 ==> #[trigger] v[i] == h[i]
            &&& forall|i: int| 8 <= i < 12 ==> #[trigger] v[i] == model::IV[i - 8]
            &&& v[12] ^ model::IV[4] == t % 0x1_0000_0000_0000_0000nat
            &&& v[13] ^ model::IV[5] == t / 0x1_0000_0000_0000_0000nat
            &&& v[14] ^ model::IV[6] == f0
            &&& v[15] ^ model::IV[7] == f1
        }),
{
    lemma_xor_undone((t % 0x1_0000_0000_0000_0000nat) as u64, model::IV[4]);
    lemma_xor_undone((t / 0x1_0000_0000_0000_0000nat) as u64, model::IV[5]);
    lemma_xor_undone(f0, model::IV[6]);
    lemma_xor_undone(f1, model::IV[7]);
}

/// A word that is mixed in twice by exclusive or is gone.
proof fn lemma_xor_undone(x: u64, y: u64)
    ensures
        (x ^ y) ^ y == x,
{
    assert((x ^ y) ^ y == x) by (bit_vector);
}

/// The compression function takes the working vector through twelve rounds, with
/// the words of the block, and folds the two halves of what comes of it into the
/// chain value. The vectors are handed back, one for each step.
pub proof fn law_compression(h: Seq<u64>, block: Seq<u8>, t: nat, f0: u64, f1: u64) -> (steps: Seq<
    Seq<u64>,
>)
    requires
        h.len() == 8,
        block.len() == 128,
        t < 0x1_0000_0000_0000_0000_0000_0000_0000_0000nat,
    ensures
        steps.len() == 13,
        steps[0] == model::working_vector(h, t, f0, f1),
        forall|r: int|
            0 <= r < 12 ==> #[trigger] steps[r + 1] == model::round(
                steps[r],
                cryptoutil::le_words(block),
                r,
            ),
        model::compress(h, block, t, f0, f1).len() == 8,
        forall|i: int|
            0 <= i < 8 ==> #[trigger] model::compress(h, block, t, f0, f1)[i] ^ h[i] == steps[12][i]
                ^ steps[12][i + 8],
{
    reveal(model::compress);
    let m = cryptoutil::le_words(block);
    let start = model::working_vector(h, t, f0, f1);
    let steps = Seq::new(13, |r: int| model::rounds(start, m, r as nat));
    assert forall|r: int| 0 <= r < 12 implies #[trigger] steps[r + 1] == model::round(
        steps[r],
        m,
        r,
    ) by {}
    assert forall|i: int| 0 <= i < 8 implies #[trigger] model::compress(h, block, t, f0, f1)[i]
        ^ h[i] == steps[12][i] ^ steps[12][i + 8] by {
        let x = h[i];
        let a = steps[12][i];
        let b = steps[12][i + 8];
        assert((x ^ a ^ b) ^ x == a ^ b) by (bit_vector);
    }
    steps
}

/// The digest is what a chain of compressions ends in. What is hashed is the
/// message, or the key in a block of its own and then the message; it is cut into
/// blocks of 128 bytes, at least one, and the last one is filled up with zeros. The
/// chain starts with the initialisation vector, with the lengths in its first word.
/// Each block is compressed with the number of bytes hashed so far, padding not
/// counted, and the last one with the first flag set. The digest is the front of the
/// bytes of the last chain value. The chain and the blocks are handed back.
pub proof fn law_digest_is_end_of_chain(
    digest_length: nat,
    key: Seq<u8>,
    message: Seq<u8>,
) -> (hashing: (Seq<Seq<u64>>, Seq<Seq<u8>>))
    requires
        0 < digest_length <= 64,
        key.len() <= 64,
    ensures
        ({
            let (chain, blocks) = hashing;
            let offset = if key.len() == 0 {
                0int
            } else {
                128int
            };
            let total = offset + message.len();
            let k = blocks.len() as int;
            &&& chain.len() == k + 1
            &&& k >= 1
            &&& total <= 128 * k
            &&& k == 1 || total > 128 * (k - 1)
            &&& chain[0].len() == 8
            &&& chain[0][0] == model::IV[0] ^ ((0x101_0000 + 256 * key.len()
                + digest_length) as u64)
            &&& forall|i: int| 1 <= i < 8 ==> #[trigger] chain[0][i] == model::IV[i]
            &&& forall|i: int| 0 <= i < k ==> (#[trigger] blocks[i]).len() == 128
            &&& forall|i: int, j: int|
                0 <= i < k && 0 <= j < 128 && 128 * i + j < key.len() ==> #[trigger] blocks[i][j]
                    == key[128 * i + j]
            &&& forall|i: int, j: int|
                0 <= i < k && 0 <= j < 128 && key.len() <= 128 * i + j < offset
                    ==> #[trigger] blocks[i][j] == 0
            &&& forall|i: int, j: int|
                0 <= i < k && 0 <= j < 128 && offset <= 128 * i + j < total
                    ==> #[trigger] blocks[i][j] == message[128 * i + j - offset]
            &&& forall|i: int, j: int|
                0 <= i < k && 0 <= j < 128 && total <= 128 * i + j ==> #[trigger] blocks[i][j] == 0
            &&& forall|i: int|
                0 <= i < k - 1 ==> #[trigger] chain[i + 1] == model::compress(
                    chain[i],
                    blocks[i],
                    ((128 * (i + 1)) % 0x1_0000_0000_0000_0000_0000_0000_0000_0000int) as nat,
                    0,
                    0,
                )
            &&& chain[k] == model::compress(
                chain[k - 1],
                blocks[k - 1],
                (total % 0x1_0000_0000_0000_0000_0000_0000_0000_0000int) as nat,
                0xffff_ffff_ffff_ffff,
                0,
            )
            &&& model::digest(digest_length, key, message).len() == digest_length
            &&& forall|j: int|
                0 <= j < digest_length ==> #[trigger] model::digest(digest_length, key, message)[j]
                    == (chain[k][j / 8] as int / pow(256, (j % 8) as nat)) % 256
        }),
{
    let data = model::keyed_data(key, message);
    let h = model::initial_chain(model::parameter_block(digest_length, key.len()));
    let n = model::blocks_before_last(data);
    let last = model::last_chain(h, data);
    let chain = Seq::new(
        n + 2,
        |i: int|
            if i <= n {
                model::chain(h, data, i as nat)
            } else {
                last
            },
    );
    let blocks = Seq::new(
        n + 1,
        |i: int|
            if i < n {
                data.subrange(128 * i, 128 * i + 128)
            } else {
                model::pad(data.skip(128 * n as int), 128)
            },
    );
    let k = (n + 1) as int;
    law_hashed_data(key, message);
    laws::law_initial_chain(digest_length, key.len());
    assert(128 * n <= data.len() <= 128 * k);
    assert(chain[0] == h);
    assert forall|i: int| 0 <= i < k - 1 implies #[trigger] chain[i + 1] == model::compress(
        chain[i],
        blocks[i],
        ((128 * (i + 1)) % 0x1_0000_0000_0000_0000_0000_0000_0000_0000int) as nat,
        0,
        0,
    ) by {
        assert(chain[i + 1] == model::chain(h, data, (i + 1) as nat));
        assert(chain[i] == model::chain(h, data, i as nat));
    }
    assert(chain[k - 1] == model::chain(h, data, n));
    assert(chain[k] == last);
    assert(last.len() == 8) by {
        reveal(model::compress);
    }
    assert forall|j: int| 0 <= j < digest_length implies #[trigger] model::digest(
        digest_length,
        key,
        message,
    )[j] == (chain[k][j / 8] as int / pow(256, (j % 8) as nat)) % 256 by {
        law_bytes_of_words(last, j);
    }
    laws::law_digest_length(digest_length, key, message);
    (chain, blocks)
}

/// A new context has compressed nothing: only the parameters have gone into its
/// chain value, and a key waits in its buffer, in a block of its own that is
/// otherwise zero.
pub proof fn law_new_context(digest_length: nat, key: Seq<u8>)
    requires
        0 < digest_length <= 64,
        key.len() <= 64,
    ensures
        ({
            let s = model::fresh(digest_length, key);
            &&& s.digest_length == digest_length
            &&& s.key == key
            &&& s.h.len() == 8
            &&& s.h[0] == model::IV[0] ^ ((0x101_0000 + 256 * key.len() + digest_length) as u64)
            &&& forall|i: int| 1 <= i < 8 ==> #[trigger] s.h[i] == model::IV[i]
            &&& s.t == 0
            &&& s.f0 == 0
            &&& s.f1 == 0
            &&& s.buf.len() == 256
            &&& forall|i: int| 0 <= i < key.len() ==> #[trigger] s.buf[i] == key[i]
            &&& forall|i: int| key.len() <= i < 256 ==> #[trigger] s.buf[i] == 0
            &&& key.len() == 0 ==> s.buflen == 0
            &&& key.len() > 0 ==> s.buflen == 128
            &&& s.last_node == 0
            &&& !s.computed
            &&& s.key_rest.len() == 64 - key.len()
            &&& forall|i: int| 0 <= i < 64 - key.len() ==> #[trigger] s.key_rest[i] == 0
            &&& s.parameters.len() == 64
            &&& s.parameters[0] == digest_length
            &&& s.parameters[1] == key.len()
            &&& s.parameters[2] == 1
            &&& s.parameters[3] == 1
            &&& forall|i: int| 4 <= i < 64 ==> #[trigger] s.parameters[i] == 0
        }),
{
    laws::law_fresh(digest_length, key);
    laws::law_initial_chain(digest_length, key.len());
}

/// A byte for which there is room goes behind the waiting bytes, and nothing else
/// changes. This holds of every state, also when the digest has been computed.
pub proof fn law_byte_with_room(s: State, byte: u8)
    requires
        s.buf.len() == 256,
        s.buflen < 256,
    ensures
        model::absorb(s, seq![byte]) == (State {
            buf: s.buf.take(s.buflen as int).push(byte) + s.buf.skip(s.buflen as int + 1),
            buflen: s.buflen + 1,
            ..s
        }),
{
    lemma_absorb_one(s, byte);
    assert(s.buf.update(s.buflen as int, byte) =~= s.buf.take(s.buflen as int).push(byte)
        + s.buf.skip(s.buflen as int + 1));
}

/// A byte that comes when the buffer is full has the first 128 bytes compressed and
/// counted; the others take their place, the byte goes behind them, and the counter,
/// the chain value and the buffer are all that changes.
pub proof fn law_byte_without_room(s: State, byte: u8)
    requires
        s.buf.len() == 256,
        s.buflen == 256,
    ensures
        ({
            let t = (s.t + 128) % 0x1_0000_0000_0000_0000_0000_0000_0000_0000nat;
            model::absorb(s, seq![byte]) == (State {
                h: model::compress(s.h, s.buf.subrange(0, 128), t, s.f0, s.f1),
                t,
                buf: s.buf.subrange(128, 256).push(byte) + s.buf.subrange(129, 256),
                buflen: 129,
                ..s
            })
        }),
{
    lemma_absorb_one(s, byte);
    assert(s.buf.take(128) =~= s.buf.subrange(0, 128));
    assert((s.buf.skip(128) + s.buf.skip(128)).update(128, byte) =~= s.buf.subrange(128, 256).push(
        byte,
    ) + s.buf.subrange(129, 256));
}

/// Taking in one byte is one step.
proof fn lemma_absorb_one(s: State, byte: u8)
    ensures
        model::absorb(s, seq![byte]) == model::push(s, byte),
{
    let one = seq![byte];
    assert(one.drop_last() =~= Seq::empty());
    assert(model::absorb(s, one.drop_last()) == s);
}

/// A digest that has been computed is the front of the buffer, and asking for it
/// changes nothing.
pub proof fn law_computed_digest(s: State)
    requires
        s.computed,
        s.digest_length <= 64,
        s.buf.len() == 256,
    ensures
        model::finish(s) == s,
        model::output(s).len() == s.digest_length,
        forall|j: int| 0 <= j < s.digest_length ==> #[trigger] model::output(s)[j] == s.buf[j],
{
}

/// To compute the digest, all waiting bytes are compressed and counted: a full first
/// block, if more than one waits, and then what is left, `block`, filled up with
/// zeros, with the flags set. The bytes of the chain value go to the front of the
/// buffer, of which the digest is a part; behind them stay what was left, and zeros.
pub proof fn law_compute_digest(s: State, block: Seq<u8>)
    requires
        !s.computed,
        s.digest_length <= 64,
        s.h.len() == 8,
        s.buf.len() == 256,
        s.buflen <= 256,
        block.len() == 128,
        forall|j: int|
            0 <= j < 128 ==> #[trigger] block[j] == if s.buflen <= 128 {
                if j < s.buflen {
                    s.buf[j]
                } else {
                    0
                }
            } else {
                if j < s.buflen - 128 {
                    s.buf[128 + j]
                } else {
                    0
                }
            },
    ensures
        ({
            let span = 0x1_0000_0000_0000_0000_0000_0000_0000_0000nat;
            let left = if s.buflen <= 128 {
                s.buflen as int
            } else {
                s.buflen - 128
            };
            let before = if s.buflen <= 128 {
                s.h
            } else {
                model::compress(s.h, s.buf.subrange(0, 128), (s.t + 128) % span, s.f0, s.f1)
            };
            let f1 = if s.last_node != 0 {
                0xffff_ffff_ffff_ffffu64
            } else {
                s.f1
            };
            let next = model::finish(s);
            &&& next.h == model::compress(
                before,
                block,
                (s.t + s.buflen) % span,
                0xffff_ffff_ffff_ffff,
                f1,
            )
            &&& next.t == (s.t + s.buflen) % span
            &&& next.f0 == 0xffff_ffff_ffff_ffff
            &&& next.f1 == f1
            &&& next.computed
            &&& next.buflen == left
            &&& next.h.len() == 8
            &&& next.buf.len() == 256
            &&& forall|j: int|
                0 <= j < 64 ==> #[trigger] next.buf[j] == (next.h[j / 8] as int / pow(
                    256,
                    (j % 8) as nat,
                )) % 256
            &&& forall|j: int| 64 <= j < 128 ==> #[trigger] next.buf[j] == block[j]
            &&& forall|j: int| 128 <= j < 256 ==> #[trigger] next.buf[j] == 0
            &&& next.digest_length == s.digest_length
            &&& next.key == s.key
            &&& next.key_rest == s.key_rest
            &&& next.parameters == s.parameters
            &&& next.last_node == s.last_node
            &&& model::output(s).len() == s.digest_length
            &&& forall|j: int|
                0 <= j < s.digest_length ==> #[trigger] model::output(s)[j] == next.buf[j]
        }),
{
    let s1 = if s.buflen <= 128 {
        s
    } else {
        model::advance(s)
    };
    let padded = model::pad(s1.buf.take(s1.buflen as int), 256);
    assert(s.buf.take(128) =~= s.buf.subrange(0, 128));
    assert(padded.take(128) =~= block);
    let next = model::finish(s);
    assert(next.h.len() == 8) by {
        reveal(model::compress);
    }
    assert forall|j: int| 0 <= j < 64 implies #[trigger] next.buf[j] == (next.h[j / 8] as int / pow(
        256,
        (j % 8) as nat,
    )) % 256 by {
        law_bytes_of_words(next.h, j);
    }
    assert forall|j: int| 64 <= j < 128 implies #[trigger] next.buf[j] == block[j] by {
        assert(next.buf[j] == padded[j]);
        assert(padded.take(128)[j] == padded[j]);
    }
    assert forall|j: int| 128 <= j < 256 implies #[trigger] next.buf[j] == 0 by {
        assert(next.buf[j] == padded[j]);
    }
}

/// What the interface of digests does to a context: input is taken in whole, so that
/// two inputs are one; a reset undoes all input and all results; a result may be asked
/// for again.
pub proof fn law_digest_interface(s: State, a: Seq<u8>, b: Seq<u8>)
    ensures
        <Blake2b as digest::Digest>::after_input(s, a) == model::absorb(s, a),
        <Blake2b as digest::Digest>::after_input(s, Seq::empty()) == s,
        <Blake2b as digest::Digest>::after_input(<Blake2b as digest::Digest>::after_input(s, a), b)
            == <Blake2b as digest::Digest>::after_input(s, a + b),
        <Blake2b as digest::Digest>::after_reset(s) == model::fresh(s.digest_length, s.key),
        <Blake2b as digest::Digest>::after_reset(<Blake2b as digest::Digest>::after_input(s, a))
            == <Blake2b as digest::Digest>::after_reset(s),
        <Blake2b as digest::Digest>::after_reset(<Blake2b as digest::Digest>::after_result(s))
            == <Blake2b as digest::Digest>::after_reset(s),
        <Blake2b as digest::Digest>::after_result(<Blake2b as digest::Digest>::after_result(s))
            == <Blake2b as digest::Digest>::after_result(s),
        <Blake2b as digest::Digest>::digest(<Blake2b as digest::Digest>::after_result(s))
            == <Blake2b as digest::Digest>::digest(s),
        <Blake2b as digest::Digest>::digest_bits(s) == 8 * s.digest_length,
        <Blake2b as digest::Digest>::block_bits(s) == 1024,
{
    laws::law_absorb_nothing(s);
    laws::law_absorb_split(s, a, b);
    laws::law_absorb_keeps_settings(s, a);
    laws::law_finish_keeps_settings(s);
    laws::law_finish_once(s);
}

/// Through that interface a new context, and one that was reset, whatever was done to
/// it before, give the digest of the input since then, however it was cut.
pub proof fn law_digest_of_input(s: State, a: Seq<u8>, b: Seq<u8>)
    requires
        model::valid(s),
    ensures
        ({
            let start = model::fresh(s.digest_length, s.key);
            let expected = model::digest(s.digest_length, s.key, a + b);
            let fed = <Blake2b as digest::Digest>::after_input(<Blake2b as digest::Digest>::after_input(start, a), b);
            let again = <Blake2b as digest::Digest>::after_input(
                <Blake2b as digest::Digest>::after_input(<Blake2b as digest::Digest>::after_reset(s), a),
                b,
            );
            &&& <Blake2b as digest::Digest>::digest(fed) == expected
            &&& <Blake2b as digest::Digest>::digest(again) == expected
            &&& <Blake2b as digest::Digest>::after_reset(fed) == start
            &&& <Blake2b as digest::Digest>::after_reset(<Blake2b as digest::Digest>::after_result(fed)) == start
        }),
{
    let start = model::fresh(s.digest_length, s.key);
    law_new_context(s.digest_length, s.key);
    law_digest_interface(s, a, b);
    law_digest_interface(start, a, b);
    law_digest_interface(start, a + b, Seq::empty());
    laws::law_digest(s.digest_length, s.key, a + b);
}

/// The same of the interface of authentication codes.
pub proof fn law_mac_interface(s: State, a: Seq<u8>, b: Seq<u8>)
    ensures
        <Blake2b as mac::Mac>::after_input(s, a) == model::absorb(s, a),
        <Blake2b as mac::Mac>::after_input(s, Seq::empty()) == s,
        <Blake2b as mac::Mac>::after_input(<Blake2b as mac::Mac>::after_input(s, a), b)
            == <Blake2b as mac::Mac>::after_input(s, a + b),
        <Blake2b as mac::Mac>::after_reset(s) == model::fresh(s.digest_length, s.key),
        <Blake2b as mac::Mac>::after_reset(<Blake2b as mac::Mac>::after_input(s, a))
            == <Blake2b as mac::Mac>::after_reset(s),
        <Blake2b as mac::Mac>::after_reset(<Blake2b as mac::Mac>::after_result(s))
            == <Blake2b as mac::Mac>::after_reset(s),
        <Blake2b as mac::Mac>::after_result(<Blake2b as mac::Mac>::after_result(s))
            == <Blake2b as mac::Mac>::after_result(s),
        <Blake2b as mac::Mac>::mac(<Blake2b as mac::Mac>::after_result(s))
            == <Blake2b as mac::Mac>::mac(s),
        <Blake2b as mac::Mac>::mac_length(s) == s.digest_length,
        <Blake2b as mac::Mac>::mac(s) == <Blake2b as digest::Digest>::digest(s),
{
    laws::law_absorb_nothing(s);
    laws::law_absorb_split(s, a, b);
    laws::law_absorb_keeps_settings(s, a);
    laws::law_finish_keeps_settings(s);
    laws::law_finish_once(s);
}

/// Through that interface a new context, and one that was reset, whatever was done to
/// it before, give the digest of the input since then, however it was cut.
pub proof fn law_mac_of_input(s: State, a: Seq<u8>, b: Seq<u8>)
    requires
        model::valid(s),
    ensures
        ({
            let start = model::fresh(s.digest_length, s.key);
            let expected = model::digest(s.digest_length, s.key, a + b);
            let fed = <Blake2b as mac::Mac>::after_input(<Blake2b as mac::Mac>::after_input(start, a), b);
            let again = <Blake2b as mac::Mac>::after_input(
                <Blake2b as mac::Mac>::after_input(<Blake2b as mac::Mac>::after_reset(s), a),
                b,
            );
            &&& <Blake2b as mac::Mac>::mac(fed) == expected
            &&& <Blake2b as mac::Mac>::mac(again) == expected
            &&& <Blake2b as mac::Mac>::after_reset(fed) == start
            &&& <Blake2b as mac::Mac>::after_reset(<Blake2b as mac::Mac>::after_result(fed)) == start
        }),
{
    let start = model::fresh(s.digest_length, s.key);
    law_new_context(s.digest_length, s.key);
    law_mac_interface(s, a, b);
    law_mac_interface(start, a, b);
    law_mac_interface(start, a + b, Seq::empty());
    laws::law_digest(s.digest_length, s.key, a + b);
}

/// Both interfaces ask of a context what every function of it keeps, and no more.
pub proof fn law_interfaces_ask_wf(context: Blake2b)
    ensures
        <Blake2b as digest::Digest>::valid(&context) == context.wf(),
        <Blake2b as mac::Mac>::valid(&context) == context.wf(),
{
}

} // verus!
