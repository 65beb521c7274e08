//! What holds of BLAKE2b as a whole.

use vstd::prelude::*;

#[allow(unused_imports)]
use crate::cryptoutil;
#[allow(unused_imports)]
use crate::model;
#[allow(unused_imports)]
use crate::model::Operation;
use crate::model::State;

verus! {

/// Input may be split at will: taking in `a` and then `b` is taking in `a`
/// followed by `b`.
pub proof fn law_absorb_split(s: State, a: Seq<u8>, b: Seq<u8>)
    ensures
        model::absorb(model::absorb(s, a), b) == model::absorb(s, a + b),
    decreases b.len(),
{
    if b.len() == 0 {
        assert(a + b =~= a);
    } else {
        law_absorb_split(s, a, b.drop_last());
        assert((a + b).drop_last() =~= a + b.drop_last());
    }
}

/// Taking input in changes the chain value, the counter and the buffer, and
/// nothing else.
pub proof fn law_absorb_keeps_settings(s: State, data: Seq<u8>)
    ensures
        ({
            let next = model::absorb(s, data);
            next == (State {
                h: next.h,
                t: next.t,
                buf: next.buf,
                buflen: next.buflen,
                ..s
            })
        }),
    decreases data.len(),
{
    if data.len() > 0 {
        law_absorb_keeps_settings(s, data.drop_last());
    }
}

/// Data that fits in the buffer is copied behind the waiting bytes.
pub(crate) proof fn lemma_absorb_fits(s: State, data: Seq<u8>)
    requires
        s.buf.len() == 256,
        s.buflen + data.len() <= 256,
    ensures
        model::absorb(s, data) == (State {
            buf: cryptoutil::overwrite(s.buf, s.buflen as int, data),
            buflen: s.buflen + data.len(),
            ..s
        }),
    decreases data.len(),
{
    if data.len() == 0 {
        assert(cryptoutil::overwrite(s.buf, s.buflen as int, data) =~= s.buf);
    } else {
        lemma_absorb_fits(s, data.drop_last());
        assert(cryptoutil::overwrite(s.buf, s.buflen as int, data) =~= cryptoutil::overwrite(
            s.buf,
            s.buflen as int,
            data.drop_last(),
        ).update(s.buflen + data.len() - 1, data.last()));
    }
}

/// More data for a full buffer compresses its first block.
pub(crate) proof fn lemma_absorb_full(s: State, data: Seq<u8>)
    requires
        s.buflen == 256,
        data.len() > 0,
    ensures
        model::absorb(s, data) == model::absorb(model::advance(s), data),
    decreases data.len(),
{
    let front = data.drop_last();
    if front.len() == 0 {
        assert(model::absorb(s, front) == s);
        assert(model::absorb(model::advance(s), front) == model::advance(s));
    } else {
        lemma_absorb_full(s, front);
    }
}

/// Number of blocks that have been compressed when `len` bytes have been taken
/// in: the last two blocks wait, and no more.
spec fn compressed(len: nat) -> nat {
    if len <= 256 {
        0
    } else {
        ((len - 129) / 128) as nat
    }
}

/// The chain value after `n` blocks depends on those blocks alone.
proof fn lemma_chain_of_prefix(h: Seq<u64>, a: Seq<u8>, b: Seq<u8>, n: nat)
    requires
        128 * n <= a.len(),
        128 * n <= b.len(),
        a.take(128 * n as int) == b.take(128 * n as int),
    ensures
        model::chain(h, a, n) == model::chain(h, b, n),
    decreases n,
{
    if n > 0 {
        let m = (n - 1) as nat;
        assert(a.take(128 * m as int) =~= a.take(128 * n as int).take(128 * m as int));
        assert(b.take(128 * m as int) =~= b.take(128 * n as int).take(128 * m as int));
        lemma_chain_of_prefix(h, a, b, m);
        assert(a.subrange(128 * m as int, 128 * n as int) =~= a.take(128 * n as int).skip(
            128 * m as int,
        ));
        assert(b.subrange(128 * m as int, 128 * n as int) =~= b.take(128 * n as int).skip(
            128 * m as int,
        ));
    }
}

/// Compressing one more block extends the chain by it.
proof fn lemma_advance_extends_chain(s: State, h: Seq<u64>, data: Seq<u8>, n: nat)
    requires
        s.buf.len() == 256,
        128 <= s.buflen <= 256,
        s.buflen == data.len() - 128 * n,
        s.buf.take(s.buflen as int) == data.skip(128 * n as int),
        s.h == model::chain(h, data, n),
        s.t == (128 * n) % model::counter_span(),
        s.f0 == 0,
        s.f1 == 0,
    ensures
        model::advance(s).buf.len() == 256,
        model::advance(s).buflen == data.len() - 128 * (n + 1),
        model::advance(s).buf.take(s.buflen - 128) == data.skip((128 * n + 128) as int),
        model::advance(s).h == model::chain(h, data, n + 1),
        model::advance(s).t == (128 * (n + 1)) % model::counter_span(),
{
    let waiting = s.buf.take(s.buflen as int);
    assert(s.buf.take(128) =~= waiting.take(128));
    assert(waiting.take(128) =~= data.subrange(128 * n as int, (128 * n + 128) as int));
    assert(model::advance(s).buf.take(s.buflen - 128) =~= waiting.skip(128));
    assert(waiting.skip(128) =~= data.skip((128 * n + 128) as int));
}

/// What a state holds that has taken in `data` from the start.
proof fn lemma_absorbed(start: State, data: Seq<u8>)
    requires
        start.t == 0,
        start.f0 == 0,
        start.f1 == 0,
        start.buf.len() == 256,
        start.buflen == 0,
    ensures
        ({
            let s = model::absorb(start, data);
            let n = compressed(data.len());
            &&& s.h == model::chain(start.h, data, n)
            &&& s.t == (128 * n) % model::counter_span()
            &&& s.buf.len() == 256
            &&& s.buflen == data.len() - 128 * n
            &&& s.buf.take(s.buflen as int) == data.skip(128 * n as int)
            &&& s == (State { h: s.h, t: s.t, buf: s.buf, buflen: s.buflen, ..start })
        }),
    decreases data.len(),
{
    if data.len() == 0 {
        assert(start.buf.take(0) =~= data.skip(0));
    } else {
        let front = data.drop_last();
        lemma_absorbed(start, front);
        let s = model::absorb(start, front);
        let n = compressed(front.len());
        let next = model::absorb(start, data);
        let m = compressed(data.len());
        let s1 = if s.buflen == 256 {
            model::advance(s)
        } else {
            s
        };
        if s.buflen == 256 {
            lemma_advance_extends_chain(s, start.h, front, n);
            assert(m == n + 1);
        } else {
            assert(m == n);
        }
        assert(front.take(128 * m as int) =~= data.take(128 * m as int));
        lemma_chain_of_prefix(start.h, front, data, m);
        assert(s1.buf.take(s1.buflen as int) == front.skip(128 * m as int));
        assert(next.buf.take(next.buflen as int) =~= s1.buf.take(s1.buflen as int).push(
            data.last(),
        ));
        assert(data.skip(128 * m as int) =~= front.skip(128 * m as int).push(data.last()));
    }
}

/// Closing a state whose waiting bytes are the last block of `data` puts the bytes
/// of the last chain value in the front of the buffer.
proof fn lemma_close_ends_chain(s: State, h: Seq<u64>, data: Seq<u8>, n: nat)
    requires
        n == model::blocks_before_last(data),
        s.buf.len() == 256,
        s.buflen == data.len() - 128 * n,
        s.buflen <= 128,
        s.buf.take(s.buflen as int) == data.skip(128 * n as int),
        s.h == model::chain(h, data, n),
        s.t == (128 * n) % model::counter_span(),
        s.f1 == 0,
        s.last_node == 0,
        s.digest_length <= 64,
    ensures
        model::close(s).buf.take(s.digest_length as int) == cryptoutil::words_le_bytes(
            model::last_chain(h, data),
        ).take(s.digest_length as int),
{
    let waiting = data.skip(128 * n as int);
    assert(model::pad(waiting, 256).take(128) =~= model::pad(waiting, 128));
    let closed = model::close(s);
    assert(closed.t == data.len() % model::counter_span());
    assert(closed.h == model::last_chain(h, data));
    lemma_chain_length(h, data);
    assert(closed.buf.take(s.digest_length as int) =~= cryptoutil::words_le_bytes(closed.h).take(
        s.digest_length as int,
    ));
}

/// The digest that a context gives is that of what it was fed, all in all, since
/// it was new: however the message came in, `digest` is the result.
pub proof fn law_digest(digest_length: nat, key: Seq<u8>, message: Seq<u8>)
    requires
        0 < digest_length <= 64,
        key.len() <= 64,
    ensures
        model::output(model::absorb(model::fresh(digest_length, key), message)) == model::digest(
            digest_length,
            key,
            message,
        ),
{
    let start = model::initial(digest_length, key);
    let data = model::keyed_data(key, message);
    let s = model::absorb(start, data);
    assert(model::absorb(model::fresh(digest_length, key), message) == s) by {
        law_absorb_split(start, model::keyed_data(key, Seq::empty()), message);
        assert(model::keyed_data(key, Seq::empty()) + message =~= data);
    }
    lemma_absorbed(start, data);
    let n = compressed(data.len());
    if s.buflen > 128 {
        lemma_advance_extends_chain(s, start.h, data, n);
        lemma_close_ends_chain(model::advance(s), start.h, data, n + 1);
    } else {
        lemma_close_ends_chain(s, start.h, data, n);
    }
}

/// A chain value has eight words.
proof fn lemma_chain_length(h: Seq<u64>, data: Seq<u8>)
    ensures
        model::last_chain(h, data).len() == 8,
{
    reveal(model::compress);
}

/// A context that was fed some message since it was new gives the digest of that
/// message.
pub proof fn law_gives_digest(s: State)
    requires
        model::valid(s),
    ensures
        model::gives_digest(s, model::output(s)),
{
    assert forall|message: Seq<u8>|
        s == #[trigger] model::absorb(
            model::fresh(s.digest_length, s.key),
            message,
        ) implies model::output(s) == model::digest(s.digest_length, s.key, message) by {
        law_digest(s.digest_length, s.key, message);
    }
}

/// Taking in nothing changes nothing.
pub proof fn law_absorb_nothing(s: State)
    ensures
        model::absorb(s, Seq::empty()) == s,
{
}

/// Input may come in any number of pieces of any size, empty ones among them: it
/// is taken in as if it came in one.
pub proof fn law_absorb_pieces(s: State, pieces: Seq<Seq<u8>>)
    ensures
        model::absorb_all(s, pieces) == model::absorb(s, pieces.flatten()),
    decreases pieces.len(),
{
    if pieces.len() > 0 {
        law_absorb_pieces(model::absorb(s, pieces.first()), pieces.drop_first());
        law_absorb_split(s, pieces.first(), pieces.drop_first().flatten());
    }
}

/// The digest does not depend on how the message was cut into pieces.
pub proof fn law_digest_of_pieces(digest_length: nat, key: Seq<u8>, pieces: Seq<Seq<u8>>)
    requires
        0 < digest_length <= 64,
        key.len() <= 64,
    ensures
        model::output(model::absorb_all(model::fresh(digest_length, key), pieces))
            == model::digest(digest_length, key, pieces.flatten()),
{
    law_absorb_pieces(model::fresh(digest_length, key), pieces);
    law_digest(digest_length, key, pieces.flatten());
}

/// Asking for the digest keeps its length, the key and the parameters.
pub proof fn law_finish_keeps_settings(s: State)
    ensures
        model::finish(s).digest_length == s.digest_length,
        model::finish(s).key == s.key,
        model::finish(s).key_rest == s.key_rest,
        model::finish(s).parameters == s.parameters,
        model::finish(s).last_node == s.last_node,
{
}

/// When the digest is computed, every waiting byte is counted once, and the bytes
/// of the padding are not; the flag of the last block is set, and that of the last
/// node for a last node only.
pub proof fn law_finish_counts(s: State)
    requires
        !s.computed,
        s.buflen <= 256,
    ensures
        model::finish(s).t == (s.t + s.buflen) % model::counter_span(),
        model::finish(s).f0 == u64::MAX,
        model::finish(s).f1 == if s.last_node != 0 {
            u64::MAX
        } else {
            s.f1
        },
{
}

/// At most one waiting block is compressed alone, padded with zeros: a message
/// that fills its last block gets no empty block behind it.
pub proof fn law_one_last_block(s: State)
    requires
        model::valid(s),
        !s.computed,
        s.buflen <= 128,
    ensures
        ({
            let h = model::compress(
                s.h,
                model::pad(s.buf.take(s.buflen as int), 128),
                (s.t + s.buflen) % model::counter_span(),
                u64::MAX,
                0,
            );
            &&& model::finish(s).h == h
            &&& model::output(s) == cryptoutil::words_le_bytes(h).take(s.digest_length as int)
        }),
{
    let waiting = s.buf.take(s.buflen as int);
    assert(model::pad(waiting, 256).take(128) =~= model::pad(waiting, 128));
    reveal(model::compress);
    let h = model::finish(s).h;
    assert(model::output(s) =~= cryptoutil::words_le_bytes(h).take(s.digest_length as int));
}

/// What stands in the buffer behind the waiting bytes does not matter: states that
/// differ in nothing else give the same digest, and are the same afterwards.
pub proof fn law_stale_bytes_do_not_matter(a: State, b: State)
    requires
        a.buf.len() == 256,
        b.buf.len() == 256,
        a.buflen <= 256,
        !a.computed,
        a == (State { buf: a.buf, ..b }),
        a.buf.take(a.buflen as int) == b.buf.take(b.buflen as int),
    ensures
        model::finish(a) == model::finish(b),
        model::output(a) == model::output(b),
{
    let n = a.buflen as int;
    if n > 128 {
        assert(a.buf.take(128) =~= a.buf.take(n).take(128));
        assert(b.buf.take(128) =~= b.buf.take(n).take(128));
        assert(model::advance(a).buf.take(n - 128) =~= a.buf.take(n).skip(128));
        assert(model::advance(b).buf.take(n - 128) =~= b.buf.take(n).skip(128));
    }
}

/// Parameters that are mixed in twice are gone: the state is what it was.
pub proof fn law_apply_parameters_twice(s: State)
    requires
        s.h.len() == 8,
    ensures
        model::apply_parameters(model::apply_parameters(s)) == s,
{
    let words = cryptoutil::le_words(s.parameters);
    assert forall|i: int| 0 <= i < 8 implies (s.h[i] ^ words[i]) ^ words[i] == s.h[i] by {
        let x = s.h[i];
        let w = words[i];
        assert((x ^ w) ^ w == x) by (bit_vector);
    }
    assert(model::apply_parameters(model::apply_parameters(s)) =~= s);
}

/// The digest is computed once: asked for again, it is the same, and the state
/// does not change any more.
pub proof fn law_finish_once(s: State)
    ensures
        model::finish(s).computed,
        model::finish(model::finish(s)) == model::finish(s),
        model::output(model::finish(s)) == model::output(s),
{
}

/// Once the digest has been computed, input does not lead to another one: it goes
/// through the buffer, whose front is what is given. A reset comes before new
/// input.
pub proof fn law_no_second_digest(s: State, data: Seq<u8>)
    requires
        s.computed,
    ensures
        model::absorb(s, data).computed,
        model::output(model::absorb(s, data)) == model::absorb(s, data).buf.take(
            s.digest_length as int,
        ),
    decreases data.len(),
{
    law_absorb_keeps_settings(s, data);
    if data.len() > 0 {
        law_no_second_digest(s, data.drop_last());
    }
}

/// A reset undoes all input, and the computation of the digest too: the state is
/// again that of a new context of the same digest length and key.
pub proof fn law_reset_restores(digest_length: nat, key: Seq<u8>, message: Seq<u8>)
    ensures
        ({
            let s = model::absorb(model::fresh(digest_length, key), message);
            let done = model::finish(s);
            &&& model::fresh(s.digest_length, s.key) == model::fresh(digest_length, key)
            &&& model::fresh(done.digest_length, done.key) == model::fresh(digest_length, key)
        }),
{
    law_absorb_keeps_settings(
        model::initial(digest_length, key),
        model::keyed_data(key, Seq::empty()),
    );
    law_absorb_keeps_settings(model::fresh(digest_length, key), message);
}

/// The state of a new context is valid.
pub proof fn law_fresh_is_valid(digest_length: nat, key: Seq<u8>)
    requires
        0 < digest_length <= 64,
        key.len() <= 64,
    ensures
        model::valid(model::fresh(digest_length, key)),
{
    law_absorb_keeps_valid(
        model::initial(digest_length, key),
        model::keyed_data(key, Seq::empty()),
    );
}

/// Input keeps a state valid.
pub proof fn law_absorb_keeps_valid(s: State, data: Seq<u8>)
    requires
        model::valid(s),
    ensures
        model::valid(model::absorb(s, data)),
    decreases data.len(),
{
    if data.len() > 0 {
        reveal(model::compress);
        law_absorb_keeps_valid(s, data.drop_last());
    }
}

/// Asking for the digest keeps a state valid, and gives as many bytes as the
/// digest is long.
pub proof fn law_finish_keeps_valid(s: State)
    requires
        model::valid(s),
    ensures
        model::valid(model::finish(s)),
        model::output(s).len() == s.digest_length,
{
    reveal(model::compress);
}

/// Digests have the length that was asked for.
pub proof fn law_digest_length(digest_length: nat, key: Seq<u8>, message: Seq<u8>)
    requires
        0 < digest_length <= 64,
        key.len() <= 64,
    ensures
        model::digest(digest_length, key, message).len() == digest_length,
{
    reveal(model::compress);
}

/// The first chain value is the initialisation vector with the lengths, fanout and
/// depth mixed into its first word.
pub proof fn law_initial_chain(digest_length: nat, key_length: nat)
    requires
        digest_length <= 64,
        key_length <= 64,
    ensures
        model::initial_chain(model::parameter_block(digest_length, key_length))
            == model::IV@.update(
            0,
            model::IV[0] ^ ((0x101_0000 + 256 * key_length + digest_length) as u64),
        ),
{
    let block = model::parameter_block(digest_length, key_length);
    let words = cryptoutil::le_words(block);
    assert forall|i: int| 0 <= i < 8 implies words[i] == if i == 0 {
        (0x101_0000 + 256 * key_length + digest_length) as u64
    } else {
        0u64
    } by {
        cryptoutil::lemma_le_value_of_eight(block.subrange(8 * i, 8 * i + 8));
    }
    assert forall|i: int| 0 <= i < 8 implies #[trigger] model::IV[i] ^ 0u64 == model::IV[i] by {
        let x = model::IV[i];
        assert(x ^ 0u64 == x) by (bit_vector);
    }
    assert(model::initial_chain(block) =~= model::IV@.update(
        0,
        model::IV[0] ^ ((0x101_0000 + 256 * key_length + digest_length) as u64),
    ));
}

/// A new context has compressed nothing: a key waits in the buffer, in a block of
/// its own.
pub proof fn law_fresh(digest_length: nat, key: Seq<u8>)
    requires
        key.len() <= 64,
    ensures
        model::fresh(digest_length, key) == (State {
            buf: model::pad(key, 256),
            buflen: if key.len() == 0 {
                0
            } else {
                128
            },
            ..model::initial(digest_length, key)
        }),
{
    let start = model::initial(digest_length, key);
    let data = model::keyed_data(key, Seq::empty());
    lemma_absorb_fits(start, data);
    assert(cryptoutil::overwrite(start.buf, 0, data) =~= model::pad(key, 256));
}

/// Hashing for another digest length, or under a key of another length, starts
/// from another chain value.
pub proof fn law_parameters_separate(d1: nat, k1: nat, d2: nat, k2: nat)
    requires
        d1 <= 64,
        k1 <= 64,
        d2 <= 64,
        k2 <= 64,
        d1 != d2 || k1 != k2,
    ensures
        model::initial_chain(model::parameter_block(d1, k1)) != model::initial_chain(
            model::parameter_block(d2, k2),
        ),
{
    law_initial_chain(d1, k1);
    law_initial_chain(d2, k2);
    let w1 = (0x101_0000 + 256 * k1 + d1) as u64;
    let w2 = (0x101_0000 + 256 * k2 + d2) as u64;
    let iv = model::IV[0];
    assert(w1 != w2 ==> iv ^ w1 != iv ^ w2) by (bit_vector);
    assert(model::initial_chain(model::parameter_block(d1, k1))[0] == iv ^ w1);
    assert(model::initial_chain(model::parameter_block(d2, k2))[0] == iv ^ w2);
}

/// Whatever is done to a context, its state stays valid and its digest length and
/// key stay what they were. The digest counts as computed exactly if it has been
/// asked for since the context was new or last reset; then, and only then, the flag
/// of the last block is set.
pub proof fn law_run(digest_length: nat, key: Seq<u8>, operations: Seq<Operation>)
    requires
        0 < digest_length <= 64,
        key.len() <= 64,
    ensures
        ({
            let s = model::run(model::fresh(digest_length, key), operations);
            &&& model::valid(s)
            &&& s.digest_length == digest_length
            &&& s.key == key
            &&& s.computed == model::asked(operations)
            &&& s.f0 == if model::asked(operations) {
                u64::MAX
            } else {
                0
            }
            &&& s.f1 == 0
        }),
    decreases operations.len(),
{
    let start = model::fresh(digest_length, key);
    law_fresh_is_valid(digest_length, key);
    law_fresh(digest_length, key);
    if operations.len() > 0 {
        law_run(digest_length, key, operations.drop_last());
        let s = model::run(start, operations.drop_last());
        match operations.last() {
            Operation::Input(data) => {
                law_absorb_keeps_settings(s, data);
                law_absorb_keeps_valid(s, data);
            },
            Operation::Result => {
                law_finish_keeps_settings(s);
                law_finish_keeps_valid(s);
                law_finish_once(s);
            },
            Operation::Reset => {},
        }
    }
}

/// Whatever was done to a context before its last reset, it gives the digest of the
/// input since then, as long as it has not been asked for one since.
pub proof fn law_run_digest(digest_length: nat, key: Seq<u8>, operations: Seq<Operation>)
    requires
        0 < digest_length <= 64,
        key.len() <= 64,
        !model::asked(operations),
    ensures
        model::output(model::run(model::fresh(digest_length, key), operations)) == model::digest(
            digest_length,
            key,
            model::input_since_reset(operations),
        ),
{
    lemma_run_absorbs(digest_length, key, operations);
    law_digest(digest_length, key, model::input_since_reset(operations));
}

/// A context that has not been asked for a digest since its last reset is in the
/// state of a new one that was fed the input since then.
proof fn lemma_run_absorbs(digest_length: nat, key: Seq<u8>, operations: Seq<Operation>)
    requires
        0 < digest_length <= 64,
        key.len() <= 64,
        !model::asked(operations),
    ensures
        model::run(model::fresh(digest_length, key), operations) == model::absorb(
            model::fresh(digest_length, key),
            model::input_since_reset(operations),
        ),
    decreases operations.len(),
{
    if operations.len() > 0 {
        let before = operations.drop_last();
        match operations.last() {
            Operation::Input(data) => {
                lemma_run_absorbs(digest_length, key, before);
                law_absorb_split(
                    model::fresh(digest_length, key),
                    model::input_since_reset(before),
                    data,
                );
            },
            Operation::Result => {},
            Operation::Reset => {
                law_run(digest_length, key, before);
            },
        }
    }
}

/// Every round takes every word of the message block, and takes it once.
pub proof fn law_sigma_permutes(r: int)
    requires
        0 <= r < 12,
    ensures
        forall|i: int| 0 <= i < 16 ==> #[trigger] model::SIGMA[r][i] < 16,
        forall|i: int, j: int|
            0 <= i < j < 16 ==> #[trigger] model::SIGMA[r][i] != #[trigger] model::SIGMA[r][j],
{
}

} // verus!
