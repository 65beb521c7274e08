//! Byte copying and little-endian encoding of words.

use vstd::prelude::*;

verus! {

/// The number whose base-256 digits, least significant first, are `bytes`.
pub open spec fn le_value(bytes: Seq<u8>) -> nat
    decreases bytes.len(),
{
    if bytes.len() == 0 {
        0
    } else {
        bytes[0] as nat + 256 * le_value(bytes.skip(1))
    }
}

/// The `n` least significant base-256 digits of `value`, least significant
/// first.
pub open spec fn le_bytes(value: nat, n: nat) -> Seq<u8>
    decreases n,
{
    if n == 0 {
        Seq::empty()
    } else {
        seq![(value % 256) as u8] + le_bytes(value / 256, (n - 1) as nat)
    }
}

/// The 64-bit words that `bytes` holds, each in eight bytes, least significant
/// byte first.
pub open spec fn le_words(bytes: Seq<u8>) -> Seq<u64> {
    Seq::new(bytes.len() / 8, |i: int| le_value(bytes.subrange(8 * i, 8 * i + 8)) as u64)
}

/// The bytes of `words`, eight for each word, least significant byte first.
pub open spec fn words_le_bytes(words: Seq<u64>) -> Seq<u8> {
    Seq::new(8 * words.len(), |i: int| le_bytes(words[i / 8] as nat, 8)[i % 8])
}

/// `data` in place of what `dst` holds from `at` on, for as long as `data` is.
pub open spec fn overwrite(dst: Seq<u8>, at: int, data: Seq<u8>) -> Seq<u8> {
    Seq::new(
        dst.len(),
        |i: int|
            if at <= i < at + data.len() {
                data[i - at]
            } else {
                dst[i]
            },
    )
}

/// `n` digits make a sequence of length `n`.
pub proof fn lemma_le_bytes_len(value: nat, n: nat)
    ensures
        le_bytes(value, n).len() == n,
    decreases n,
{
    if n > 0 {
        lemma_le_bytes_len(value / 256, (n - 1) as nat);
    }
}

/// Zero has zero digits only.
pub proof fn lemma_le_bytes_of_zero(n: nat)
    ensures
        le_bytes(0, n) == Seq::new(n, |i: int| 0u8),
    decreases n,
{
    if n > 0 {
        lemma_le_bytes_of_zero((n - 1) as nat);
    }
    assert(le_bytes(0, n) =~= Seq::new(n, |i: int| 0u8));
}

/// The value of eight digits, written out.
pub proof fn lemma_le_value_of_eight(b: Seq<u8>)
    requires
        b.len() == 8,
    ensures
        le_value(b) == b[0] + 0x100 * b[1] + 0x1_0000 * b[2] + 0x100_0000 * b[3] + 0x1_0000_0000
            * b[4] + 0x100_0000_0000 * b[5] + 0x1_0000_0000_0000 * b[6] + 0x100_0000_0000_0000
            * b[7],
{
    assert(le_value(b.skip(8)) == 0);
    assert(b.skip(7).skip(1) =~= b.skip(8));
    assert(le_value(b.skip(7)) == b[7] + 256 * le_value(b.skip(8)));
    assert(b.skip(6).skip(1) =~= b.skip(7));
    assert(le_value(b.skip(6)) == b[6] + 256 * le_value(b.skip(7)));
    assert(b.skip(5).skip(1) =~= b.skip(6));
    assert(le_value(b.skip(5)) == b[5] + 256 * le_value(b.skip(6)));
    assert(b.skip(4).skip(1) =~= b.skip(5));
    assert(le_value(b.skip(4)) == b[4] + 256 * le_value(b.skip(5)));
    assert(b.skip(3).skip(1) =~= b.skip(4));
    assert(le_value(b.skip(3)) == b[3] + 256 * le_value(b.skip(4)));
    assert(b.skip(2).skip(1) =~= b.skip(3));
    assert(le_value(b.skip(2)) == b[2] + 256 * le_value(b.skip(3)));
    assert(b.skip(1).skip(1) =~= b.skip(2));
    assert(le_value(b.skip(1)) == b[1] + 256 * le_value(b.skip(2)));
}

/// Number of values that `n` base-256 digits have.
pub open spec fn le_span(n: nat) -> nat
    decreases n,
{
    if n == 0 {
        1
    } else {
        256 * le_span((n - 1) as nat)
    }
}

/// Four bytes have as many values as a 32-bit word, and eight as a 64-bit word.
pub proof fn lemma_le_span()
    ensures
        le_span(4) == 0x1_0000_0000nat,
        le_span(8) == 0x1_0000_0000_0000_0000nat,
{
    reveal_with_fuel(le_span, 9);
}

/// The digits of a number that they can hold have that number as their value.
pub proof fn law_value_of_bytes(value: nat, n: nat)
    requires
        value < le_span(n),
    ensures
        le_value(le_bytes(value, n)) == value,
    decreases n,
{
    if n > 0 {
        let rest = le_bytes(value / 256, (n - 1) as nat);
        law_value_of_bytes(value / 256, (n - 1) as nat);
        assert(le_bytes(value, n).skip(1) =~= rest);
    }
}

/// The digits of the value of `bytes` are `bytes`, and the value is one that so
/// many digits can hold.
pub proof fn law_bytes_of_value(bytes: Seq<u8>)
    ensures
        le_value(bytes) < le_span(bytes.len()),
        le_bytes(le_value(bytes), bytes.len()) == bytes,
    decreases bytes.len(),
{
    if bytes.len() > 0 {
        law_bytes_of_value(bytes.skip(1));
        assert(bytes =~= seq![bytes[0]] + bytes.skip(1));
    } else {
        assert(bytes =~= Seq::empty());
    }
}

/// Words that are written are read back.
pub proof fn law_read_after_write(words: Seq<u64>)
    ensures
        le_words(words_le_bytes(words)) == words,
{
    let bytes = words_le_bytes(words);
    assert forall|i: int| 0 <= i < words.len() implies le_words(bytes)[i] == words[i] by {
        let digits = le_bytes(words[i] as nat, 8);
        lemma_le_bytes_len(words[i] as nat, 8);
        assert forall|j: int| 0 <= j < 8 implies bytes[8 * i + j] == digits[j] by {
            assert((8 * i + j) / 8 == i && (8 * i + j) % 8 == j);
        }
        assert(bytes.subrange(8 * i, 8 * i + 8) =~= digits);
        lemma_le_span();
        law_value_of_bytes(words[i] as nat, 8);
    }
    assert(le_words(bytes) =~= words);
}

/// Bytes that are read as words are written back.
pub proof fn law_write_after_read(bytes: Seq<u8>)
    requires
        bytes.len() % 8 == 0,
    ensures
        words_le_bytes(le_words(bytes)) == bytes,
{
    let words = le_words(bytes);
    assert forall|i: int| 0 <= i < bytes.len() implies words_le_bytes(words)[i] == bytes[i] by {
        let k = i / 8;
        let digits = bytes.subrange(8 * k, 8 * k + 8);
        law_bytes_of_value(digits);
        lemma_le_span();
        assert(words[k] == le_value(digits));
        assert(digits[i % 8] == bytes[i]);
    }
    assert(words_le_bytes(words) =~= bytes);
}

/// Copies all of `src` to the front of `dst`.
pub fn copy_memory(src: &[u8], dst: &mut [u8])
    requires
        src@.len() <= old(dst)@.len(),
    ensures
        final(dst)@ == overwrite(old(dst)@, 0, src@),
{
    for i in 0..src.len()
        invariant
            src@.len() <= old(dst)@.len(),
            dst@.len() == old(dst)@.len(),
            dst@ == overwrite(old(dst)@, 0, src@.take(i as int)),
    {
        dst[i] = src[i];
        assert(dst@ =~= overwrite(old(dst)@, 0, src@.take(i + 1)));
    }
    assert(src@.take(src@.len() as int) =~= src@);
}

/// Copies all of `src` to `dst` from `at` on.
pub fn write_all(dst: &mut [u8], at: usize, src: &[u8])
    requires
        at + src@.len() <= old(dst)@.len(),
    ensures
        final(dst)@ == overwrite(old(dst)@, at as int, src@),
{
    let ghost before = dst@;
    let (_, room) = dst.split_at_mut(at);
    copy_memory(src, room);
    assert(dst@ =~= overwrite(before, at as int, src@));
}

/// Reads the word that stands at `at` in `input`, least significant byte first.
fn read_u64_le(input: &[u8], at: usize) -> (word: u64)
    requires
        at + 8 <= input@.len(),
    ensures
        word == le_value(input@.subrange(at as int, at + 8)),
{
    let b0: u64 = input[at] as u64;
    let b1: u64 = input[at + 1] as u64;
    let b2: u64 = input[at + 2] as u64;
    let b3: u64 = input[at + 3] as u64;
    let b4: u64 = input[at + 4] as u64;
    let b5: u64 = input[at + 5] as u64;
    let b6: u64 = input[at + 6] as u64;
    let b7: u64 = input[at + 7] as u64;
    let word: u64 = b0 | (b1 << 8) | (b2 << 16) | (b3 << 24) | (b4 << 32) | (b5 << 40) | (b6 << 48)
        | (b7 << 56);
    proof {
        lemma_le_value_of_eight(input@.subrange(at as int, at + 8));
        assert(word == b0 + 0x100 * b1 + 0x1_0000 * b2 + 0x100_0000 * b3 + 0x1_0000_0000 * b4
            + 0x100_0000_0000 * b5 + 0x1_0000_0000_0000 * b6 + 0x100_0000_0000_0000 * b7)
            by (bit_vector)
            requires
                b0 < 256,
                b1 < 256,
                b2 < 256,
                b3 < 256,
                b4 < 256,
                b5 < 256,
                b6 < 256,
                b7 < 256,
                word == b0 | (b1 << 8) | (b2 << 16) | (b3 << 24) | (b4 << 32) | (b5 << 40) | (b6
                    << 48) | (b7 << 56),
        ;
    }
    word
}

/// Fills `dst` with the words that `input` holds, least significant byte first.
pub fn read_u64v_le(dst: &mut [u64], input: &[u8])
    requires
        8 * old(dst)@.len() == input@.len(),
    ensures
        final(dst)@ == le_words(input@),
{
    let n: usize = dst.len();
    for i in 0..n
        invariant
            n == dst@.len(),
            8 * n == input.len(),
            forall|j: int| 0 <= j < i ==> dst@[j] == le_words(input@)[j],
    {
        dst[i] = read_u64_le(input, 8 * i);
    }
    assert(dst@ =~= le_words(input@));
}

/// Writes the `n` least significant bytes of `value` to `dst` from `at` on,
/// least significant byte first.
fn write_le(dst: &mut [u8], at: usize, value: u64, n: usize)
    requires
        at + n <= old(dst)@.len(),
    ensures
        final(dst)@ == overwrite(old(dst)@, at as int, le_bytes(value as nat, n as nat)),
{
    let size: usize = dst.len();
    let mut rest: u64 = value;
    let ghost digits = le_bytes(value as nat, n as nat);
    proof {
        lemma_le_bytes_len(value as nat, n as nat);
        assert(digits.skip(0) =~= digits);
        assert(digits.take(0) =~= Seq::empty());
    }
    for i in 0..n
        invariant
            at + n <= size,
            size == old(dst)@.len(),
            dst@.len() == size,
            digits.len() == n,
            digits.skip(i as int) == le_bytes(rest as nat, (n - i) as nat),
            dst@ == overwrite(old(dst)@, at as int, digits.take(i as int)),
    {
        let ghost left = digits.skip(i as int);
        assert(rest as u8 == rest % 256 && rest >> 8 == rest / 256) by (bit_vector);
        assert(left.skip(1) =~= digits.skip(i + 1));
        assert(left.skip(1) =~= le_bytes((rest / 256) as nat, (n - i - 1) as nat));
        assert(digits[i as int] == left[0]);
        dst[at + i] = #[verifier::truncate] (rest as u8);
        rest = rest >> 8;
        assert(dst@ =~= overwrite(old(dst)@, at as int, digits.take(i + 1)));
    }
    assert(digits.take(n as int) =~= digits);
}

/// Writes `value` to `dst` at `at`.
pub fn write_u8(dst: &mut [u8], at: usize, value: u8)
    requires
        at < old(dst)@.len(),
    ensures
        final(dst)@ == old(dst)@.update(at as int, value),
{
    dst[at] = value;
}

/// Writes the four bytes of `value` to `dst` from `at` on, least significant
/// byte first.
pub fn write_u32_le(dst: &mut [u8], at: usize, value: u32)
    requires
        at + 4 <= old(dst)@.len(),
    ensures
        final(dst)@ == overwrite(old(dst)@, at as int, le_bytes(value as nat, 4)),
{
    write_le(dst, at, value as u64, 4);
}

/// Writes the eight bytes of `value` to `dst` from `at` on, least significant
/// byte first.
pub fn write_u64_le(dst: &mut [u8], at: usize, value: u64)
    requires
        at + 8 <= old(dst)@.len(),
    ensures
        final(dst)@ == overwrite(old(dst)@, at as int, le_bytes(value as nat, 8)),
{
    write_le(dst, at, value, 8);
}

/// Fills `dst` with the bytes of the words of `input`, least significant byte
/// first.
pub fn write_u64v_le(dst: &mut [u8], input: &[u64])
    requires
        old(dst)@.len() == 8 * input@.len(),
    ensures
        final(dst)@ == words_le_bytes(input@),
{
    let n: usize = input.len();
    let size: usize = dst.len();
    for i in 0..n
        invariant
            n == input@.len(),
            size == 8 * n,
            dst@.len() == size,
            forall|j: int| 0 <= j < 8 * i ==> dst@[j] == words_le_bytes(input@)[j],
    {
        let ghost before = dst@;
        write_u64_le(dst, 8 * i, input[i]);
        proof {
            lemma_le_bytes_len(input@[i as int] as nat, 8);
            assert forall|j: int| 0 <= j < 8 * (i + 1) implies dst@[j] == words_le_bytes(
                input@,
            )[j] by {
                if j < 8 * i {
                    assert(dst@[j] == before[j]);
                } else {
                    assert(j / 8 == i && j % 8 == j - 8 * i);
                }
            }
        }
    }
    assert(dst@ =~= words_le_bytes(input@));
}

} // verus!
