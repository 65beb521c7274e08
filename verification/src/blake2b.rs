//! BLAKE2b contexts.

use vstd::prelude::*;

#[allow(unused_imports)]
use crate::cryptoutil;
use crate::cryptoutil::{
    copy_memory, read_u64v_le, write_all, write_u32_le, write_u64_le, write_u64v_le, write_u8,
};
use crate::digest;
#[allow(unused_imports)]
use crate::laws;
use crate::mac::{Mac, MacResult};
#[allow(unused_imports)]
use crate::model;
use crate::model::{
    State, BLAKE2B_BLOCKBYTES, BLAKE2B_BUFBYTES, BLAKE2B_KEYBYTES, BLAKE2B_OUTBYTES,
    BLAKE2B_PERSONALBYTES, BLAKE2B_ROUNDS, BLAKE2B_SALTBYTES, IV, SIGMA,
};
use crate::util::secure_memset;

verus! {

/// BLAKE2b context.
#[derive(Copy)]
pub struct Blake2b {
    h: [u64; 8],
    t: [u64; 2],
    f: [u64; 2],
    buf: [u8; BLAKE2B_BUFBYTES],
    buflen: usize,
    key: [u8; BLAKE2B_KEYBYTES],
    key_length: u8,
    last_node: u8,
    digest_length: u8,
    computed: bool,  // whether the digest has been computed
    param: Blake2bParam,
}

impl Clone for Blake2b {
    fn clone(&self) -> (copy: Blake2b)
        ensures
            copy == *self,
    {
        *self
    }
}

/// The parameters of a hash, in the order of the parameter block.
#[derive(Copy)]
struct Blake2bParam {
    digest_length: u8,
    key_length: u8,
    fanout: u8,
    depth: u8,
    leaf_length: u32,
    node_offset: u64,
    node_depth: u8,
    inner_length: u8,
    reserved: [u8; 14],
    salt: [u8; BLAKE2B_SALTBYTES],
    personal: [u8; BLAKE2B_PERSONALBYTES],
}

impl Clone for Blake2bParam {
    fn clone(&self) -> (copy: Blake2bParam)
        ensures
            copy == *self,
    {
        *self
    }
}

/// `word` rotated right by `n` bits.
fn rotr(word: u64, n: u64) -> (result: u64)
    requires
        0 < n < 64,
    ensures
        result == model::rotr(word, n),
{
    (word >> n) | (word << (64 - n))
}

/// Mixes `x` and `y` into the words `a`, `b`, `c` and `d` of `v`.
fn mix(v: &mut [u64; 16], a: usize, b: usize, c: usize, d: usize, x: u64, y: u64)
    requires
        a < 16,
        b < 16,
        c < 16,
        d < 16,
        a != b,
        a != c,
        a != d,
        b != c,
        b != d,
        c != d,
    ensures
        final(v)@ == model::mix(old(v)@, a as int, b as int, c as int, d as int, x, y),
{
    v[a] = v[a].wrapping_add(v[b]).wrapping_add(x);
    v[d] = rotr(v[d] ^ v[a], 32);
    v[c] = v[c].wrapping_add(v[d]);
    v[b] = rotr(v[b] ^ v[c], 24);
    v[a] = v[a].wrapping_add(v[b]).wrapping_add(y);
    v[d] = rotr(v[d] ^ v[a], 16);
    v[c] = v[c].wrapping_add(v[d]);
    v[b] = rotr(v[b] ^ v[c], 63);
    proof {
        reveal(model::mix);
    }
    assert(v@ =~= model::mix(old(v)@, a as int, b as int, c as int, d as int, x, y));
}

/// Applies round `r` to `v`.
fn round(r: usize, v: &mut [u64; 16], m: &[u64; 16])
    requires
        r < 12,
    ensures
        final(v)@ == model::round(old(v)@, m@, r as int),
{
    let s: [usize; 16] = SIGMA[r];
    proof {
        laws::law_sigma_permutes(r as int);
    }
    mix(v, 0, 4, 8, 12, m[s[0]], m[s[1]]);
    mix(v, 1, 5, 9, 13, m[s[2]], m[s[3]]);
    mix(v, 2, 6, 10, 14, m[s[4]], m[s[5]]);
    mix(v, 3, 7, 11, 15, m[s[6]], m[s[7]]);
    mix(v, 0, 5, 10, 15, m[s[8]], m[s[9]]);
    mix(v, 1, 6, 11, 12, m[s[10]], m[s[11]]);
    mix(v, 2, 7, 8, 13, m[s[12]], m[s[13]]);
    mix(v, 3, 4, 9, 14, m[s[14]], m[s[15]]);
}

impl Blake2bParam {
    /// The parameter block.
    spec fn block(&self) -> Seq<u8> {
        seq![self.digest_length, self.key_length, self.fanout, self.depth] + cryptoutil::le_bytes(
            self.leaf_length as nat,
            4,
        ) + cryptoutil::le_bytes(self.node_offset as nat, 8) + seq![
            self.node_depth,
            self.inner_length,
        ] + self.reserved@ + self.salt@ + self.personal@
    }

    /// Writes the parameter block.
    fn to_bytes(&self) -> (bytes: [u8; 64])
        ensures
            bytes@ == self.block(),
    {
        let mut bytes: [u8; 64] = [0; 64];
        write_u8(&mut bytes, 0, self.digest_length);
        write_u8(&mut bytes, 1, self.key_length);
        write_u8(&mut bytes, 2, self.fanout);
        write_u8(&mut bytes, 3, self.depth);
        write_u32_le(&mut bytes, 4, self.leaf_length);
        write_u64_le(&mut bytes, 8, self.node_offset);
        write_u8(&mut bytes, 16, self.node_depth);
        write_u8(&mut bytes, 17, self.inner_length);
        write_all(&mut bytes, 18, &self.reserved);
        write_all(&mut bytes, 32, &self.salt);
        write_all(&mut bytes, 48, &self.personal);
        proof {
            cryptoutil::lemma_le_bytes_len(self.leaf_length as nat, 4);
            cryptoutil::lemma_le_bytes_len(self.node_offset as nat, 8);
            assert(bytes@ =~= self.block());
        }
        bytes
    }
}

/// Parameters are equal if their blocks are.
proof fn lemma_block_determines_param(a: Blake2bParam, b: Blake2bParam)
    requires
        a.block() == b.block(),
    ensures
        a == b,
{
    let x = a.block();
    let y = b.block();
    cryptoutil::lemma_le_bytes_len(a.leaf_length as nat, 4);
    cryptoutil::lemma_le_bytes_len(a.node_offset as nat, 8);
    cryptoutil::lemma_le_bytes_len(b.leaf_length as nat, 4);
    cryptoutil::lemma_le_bytes_len(b.node_offset as nat, 8);
    let lengths = seq![a.digest_length, a.key_length, a.fanout, a.depth];
    assert(x.subrange(0, 4) =~= lengths);
    assert(y.subrange(0, 4) =~= seq![b.digest_length, b.key_length, b.fanout, b.depth]);
    assert(lengths[0] == b.digest_length && lengths[1] == b.key_length);
    assert(lengths[2] == b.fanout && lengths[3] == b.depth);
    let tree = seq![a.node_depth, a.inner_length];
    assert(x.subrange(16, 18) =~= tree);
    assert(y.subrange(16, 18) =~= seq![b.node_depth, b.inner_length]);
    assert(tree[0] == b.node_depth && tree[1] == b.inner_length);
    assert(x.subrange(4, 8) =~= cryptoutil::le_bytes(a.leaf_length as nat, 4));
    assert(y.subrange(4, 8) =~= cryptoutil::le_bytes(b.leaf_length as nat, 4));
    assert(x.subrange(8, 16) =~= cryptoutil::le_bytes(a.node_offset as nat, 8));
    assert(y.subrange(8, 16) =~= cryptoutil::le_bytes(b.node_offset as nat, 8));
    assert(x.subrange(18, 32) =~= a.reserved@);
    assert(y.subrange(18, 32) =~= b.reserved@);
    assert(x.subrange(32, 48) =~= a.salt@);
    assert(y.subrange(32, 48) =~= b.salt@);
    assert(x.subrange(48, 64) =~= a.personal@);
    assert(y.subrange(48, 64) =~= b.personal@);
    cryptoutil::lemma_le_span();
    cryptoutil::law_value_of_bytes(a.leaf_length as nat, 4);
    cryptoutil::law_value_of_bytes(b.leaf_length as nat, 4);
    cryptoutil::law_value_of_bytes(a.node_offset as nat, 8);
    cryptoutil::law_value_of_bytes(b.node_offset as nat, 8);
    assert(a.reserved =~= b.reserved);
    assert(a.salt =~= b.salt);
    assert(a.personal =~= b.personal);
}

/// The number that two words hold, least significant word first.
spec fn counter(t: [u64; 2]) -> nat {
    (t[0] + model::word_span() * t[1]) as nat
}

impl View for Blake2b {
    type V = State;

    closed spec fn view(&self) -> State {
        State {
            digest_length: self.digest_length as nat,
            key: Seq::new(self.key_length as nat, |i: int| self.key[i]),
            key_rest: Seq::new(
                (BLAKE2B_KEYBYTES - self.key_length) as nat,
                |i: int| self.key[self.key_length + i],
            ),
            parameters: self.param.block(),
            h: self.h@,
            t: counter(self.t),
            f0: self.f[0],
            f1: self.f[1],
            buf: self.buf@,
            buflen: self.buflen as nat,
            last_node: self.last_node,
            computed: self.computed,
        }
    }
}

impl Blake2b {
    /// The invariant of a context.
    pub open spec fn wf(&self) -> bool {
        model::valid(self@)
    }

    /// Nothing is hidden behind the state: contexts in the same state are equal in
    /// every field.
    pub proof fn law_state_is_all(a: Blake2b, b: Blake2b)
        requires
            a@ == b@,
        ensures
            a == b,
    {
        assert(a.key_length == a@.key.len());
        assert(b.key_length == b@.key.len());
        assert forall|i: int| 0 <= i < 64 implies a.key[i] == b.key[i] by {
            if i < a.key_length {
                assert(a.key[i] == a@.key[i]);
                assert(b.key[i] == b@.key[i]);
            } else {
                assert(a.key[i] == a@.key_rest[i - a.key_length]);
                assert(b.key[i] == b@.key_rest[i - b.key_length]);
            }
        }
        assert(a.key =~= b.key);
        assert(a.h =~= b.h);
        assert(a.t =~= b.t);
        assert(a.f =~= b.f);
        assert(a.buf =~= b.buf);
        lemma_block_determines_param(a.param, b.param);
    }

    /// What holds of the state of a context for its representation alone.
    pub proof fn law_shape(context: Blake2b)
        ensures
            context@.h.len() == 8,
            context@.t < model::counter_span(),
            context@.buf.len() == BLAKE2B_BUFBYTES,
            context@.parameters.len() == 64,
    {
        cryptoutil::lemma_le_bytes_len(context.param.leaf_length as nat, 4);
        cryptoutil::lemma_le_bytes_len(context.param.node_offset as nat, 8);
    }

    /// A context in which nothing has happened but that the key was stored.
    fn init0(param: Blake2bParam, digest_length: u8, key: &[u8]) -> (b: Blake2b)
        requires
            key@.len() <= BLAKE2B_KEYBYTES,
        ensures
            b@ == (State {
                digest_length: digest_length as nat,
                parameters: param.block(),
                h: IV@,
                ..model::initial(digest_length as nat, key@)
            }),
    {
        let mut b = Blake2b {
            h: IV,
            t: [0, 0],
            f: [0, 0],
            buf: [0; BLAKE2B_BUFBYTES],
            buflen: 0,
            last_node: 0,
            digest_length,
            computed: false,
            key: [0; BLAKE2B_KEYBYTES],
            key_length: key.len() as u8,
            param,
        };
        copy_memory(key, &mut b.key);
        assert(b@ =~= (State {
            digest_length: digest_length as nat,
            parameters: param.block(),
            h: IV@,
            ..model::initial(digest_length as nat, key@)
        }));
        b
    }

    /// Mixes the parameter block into the chain value.
    pub(crate) fn apply_param(&mut self)
        ensures
            final(self)@ == model::apply_parameters(old(self)@),
    {
        let param_bytes: [u8; 64] = self.param.to_bytes();
        let mut param_words: [u64; 8] = [0; 8];
        read_u64v_le(&mut param_words, &param_bytes);
        for i in 0..8
            invariant
                *self == (Blake2b { h: self.h, ..*old(self) }),
                forall|j: int| 0 <= j < i ==> self.h@[j] == old(self).h@[j] ^ param_words@[j],
                forall|j: int| i <= j < 8 ==> self.h@[j] == old(self).h@[j],
        {
            self.h[i] = self.h[i] ^ param_words[i];
        }
        assert(self@ =~= model::apply_parameters(old(self)@));
    }

    /// A context whose chain value has the parameters mixed in.
    fn init_param(p: Blake2bParam, key: &[u8]) -> (b: Blake2b)
        requires
            key@.len() <= BLAKE2B_KEYBYTES,
        ensures
            b@ == (State {
                parameters: p.block(),
                h: model::initial_chain(p.block()),
                ..model::initial(p.digest_length as nat, key@)
            }),
    {
        let mut b = Blake2b::init0(p, p.digest_length, key);
        b.apply_param();
        b
    }

    /// The parameters of sequential hashing without a key.
    fn default_param(outlen: u8) -> (param: Blake2bParam)
        ensures
            param.digest_length == outlen,
            param.block() == model::parameter_block(outlen as nat, 0),
    {
        let param = Blake2bParam {
            digest_length: outlen,
            key_length: 0,
            fanout: 1,
            depth: 1,
            leaf_length: 0,
            node_offset: 0,
            node_depth: 0,
            inner_length: 0,
            reserved: [0; 14],
            salt: [0; BLAKE2B_SALTBYTES],
            personal: [0; BLAKE2B_PERSONALBYTES],
        };
        proof {
            cryptoutil::lemma_le_bytes_of_zero(4);
            cryptoutil::lemma_le_bytes_of_zero(8);
            assert(param.block() =~= model::parameter_block(outlen as nat, 0));
        }
        param
    }

    /// Creates a context for digests of `outlen` bytes, of which there are at
    /// least one and at most 64.
    pub fn new(outlen: usize) -> (context: Blake2b)
        requires
            0 < outlen <= BLAKE2B_OUTBYTES,
        ensures
            context.wf(),
            context@ == model::fresh(outlen as nat, Seq::empty()),
            context@.digest_length == outlen,
            context@.key == Seq::<u8>::empty(),
    {
        let no_key: [u8; 0] = [];
        let context = Blake2b::init_param(Blake2b::default_param(outlen as u8), &no_key);
        assert(no_key@ =~= Seq::<u8>::empty());
        context
    }

    /// Flags that the last node of a tree is being hashed.
    pub(crate) fn set_lastnode(&mut self)
        ensures
            final(self)@ == (State { f1: u64::MAX, ..old(self)@ }),
    {
        self.f[1] = 0xFFFFFFFFFFFFFFFF;
        assert(self@ =~= (State { f1: u64::MAX, ..old(self)@ }));
    }

    /// Flags that the block to be compressed next is the last one.
    pub(crate) fn set_lastblock(&mut self)
        ensures
            final(self)@ == (State {
                f0: u64::MAX,
                f1: if old(self)@.last_node != 0 {
                    u64::MAX
                } else {
                    old(self)@.f1
                },
                ..old(self)@
            }),
    {
        if self.last_node != 0 {
            self.set_lastnode();
        }
        let ghost before = self@;
        self.f[0] = 0xFFFFFFFFFFFFFFFF;
        assert(self@ =~= (State { f0: u64::MAX, ..before }));
    }

    /// Adds `inc` to the byte counter. A carry out of the first word goes into
    /// the second one; a carry out of that one is lost.
    pub(crate) fn increment_counter(&mut self, inc: u64)
        ensures
            final(self)@ == (State {
                t: (old(self)@.t + inc as nat) % model::counter_span(),
                ..old(self)@
            }),
    {
        self.t[0] = self.t[0].wrapping_add(inc);
        let carry: u64 = if self.t[0] < inc {
            1
        } else {
            0
        };
        self.t[1] = self.t[1].wrapping_add(carry);
        assert(self@ =~= (State {
            t: (old(self)@.t + inc as nat) % model::counter_span(),
            ..old(self)@
        }));
    }

    /// Compresses the first block of the buffer into the chain value.
    pub(crate) fn compress(&mut self)
        ensures
            final(self)@ == (State {
                h: model::compress(
                    old(self)@.h,
                    old(self)@.buf.take(128),
                    old(self)@.t,
                    old(self)@.f0,
                    old(self)@.f1,
                ),
                ..old(self)@
            }),
    {
        let mut ms: [u64; 16] = [0; 16];
        let mut vs: [u64; 16] = [0; 16];

        read_u64v_le(&mut ms, &self.buf[0..BLAKE2B_BLOCKBYTES]);

        for i in 0..8
            invariant
                forall|j: int| 0 <= j < i ==> vs@[j] == self.h@[j],
        {
            vs[i] = self.h[i];
        }
        vs[8] = IV[0];
        vs[9] = IV[1];
        vs[10] = IV[2];
        vs[11] = IV[3];
        vs[12] = self.t[0] ^ IV[4];
        vs[13] = self.t[1] ^ IV[5];
        vs[14] = self.f[0] ^ IV[6];
        vs[15] = self.f[1] ^ IV[7];
        let ghost start = model::working_vector(self.h@, counter(self.t), self.f[0], self.f[1]);
        assert(vs@ =~= start);

        for r in 0..BLAKE2B_ROUNDS
            invariant
                vs@ == model::rounds(start, ms@, r as nat),
        {
            round(r, &mut vs, &ms);
        }
        proof {
            reveal(model::compress);
        }

        for i in 0..8
            invariant
                *self == (Blake2b { h: self.h, ..*old(self) }),
                forall|j: int|
                    0 <= j < i ==> self.h@[j] == old(self).h@[j] ^ vs@[j] ^ vs@[j + 8],
                forall|j: int| i <= j < 8 ==> self.h@[j] == old(self).h@[j],
        {
            self.h[i] = self.h[i] ^ vs[i] ^ vs[i + 8];
        }
        assert(self@ =~= (State {
            h: model::compress(
                old(self)@.h,
                old(self)@.buf.take(128),
                old(self)@.t,
                old(self)@.f0,
                old(self)@.f1,
            ),
            ..old(self)@
        }));
    }

    /// Compresses the first block of the buffer, counts its bytes, and moves the
    /// second block up.
    fn advance(&mut self)
        requires
            BLAKE2B_BLOCKBYTES < old(self)@.buflen <= BLAKE2B_BUFBYTES,
        ensures
            final(self)@ == model::advance(old(self)@),
    {
        self.increment_counter(BLAKE2B_BLOCKBYTES as u64);
        self.compress();
        let ghost before = self.buf@;
        let (first_half, second_half) = self.buf.split_at_mut(BLAKE2B_BLOCKBYTES);
        copy_memory(second_half, first_half);
        self.buflen = self.buflen - BLAKE2B_BLOCKBYTES;
        assert(self.buf@ =~= before.skip(128) + before.skip(128));
        assert(self@ =~= model::advance(old(self)@));
    }

    /// Copies `data` behind the waiting bytes.
    fn append(&mut self, data: &[u8])
        requires
            old(self)@.buflen + data@.len() <= BLAKE2B_BUFBYTES,
        ensures
            final(self)@ == model::absorb(old(self)@, data@),
            final(self)@.buflen == old(self)@.buflen + data@.len(),
    {
        let ghost before = self.buf@;
        write_all(&mut self.buf, self.buflen, data);
        self.buflen = self.buflen + data.len();
        proof {
            laws::lemma_absorb_fits(old(self)@, data@);
            assert(self.buf@ =~= cryptoutil::overwrite(before, old(self).buflen as int, data@));
            assert(self@ =~= model::absorb(old(self)@, data@));
        }
    }

    /// Takes `input` in, which may have any length.
    pub(crate) fn update(&mut self, input: &[u8])
        requires
            old(self)@.buflen <= BLAKE2B_BUFBYTES,
        ensures
            final(self)@ == model::absorb(old(self)@, input@),
            final(self)@ == (State {
                h: final(self)@.h,
                t: final(self)@.t,
                buf: final(self)@.buf,
                buflen: final(self)@.buflen,
                ..old(self)@
            }),
            final(self)@.buflen <= BLAKE2B_BUFBYTES,
            old(self).wf() ==> final(self).wf(),
            input@.len() == 0 ==> *final(self) == *old(self),
    {
        let mut rest: &[u8] = input;
        while !rest.is_empty()
            invariant_except_break
                model::absorb(self@, rest@) == model::absorb(old(self)@, input@),
            invariant
                self@.buflen <= BLAKE2B_BUFBYTES,
            ensures
                self@ == model::absorb(old(self)@, input@),
            decreases rest@.len(), self.buflen,
        {
            let fill: usize = BLAKE2B_BUFBYTES - self.buflen;
            if rest.len() > fill {
                let ghost before = self@;
                let head: &[u8] = &rest[0..fill];
                let tail: &[u8] = &rest[fill..rest.len()];
                self.append(head);
                proof {
                    laws::lemma_absorb_fits(before, head@);
                    laws::law_absorb_split(before, head@, tail@);
                    assert(head@ + tail@ =~= rest@);
                    laws::lemma_absorb_full(self@, tail@);
                }
                self.advance();
                rest = tail;
            } else {
                self.append(rest);
                break;
            }
        }
        proof {
            laws::law_absorb_keeps_settings(old(self)@, input@);
            if old(self).wf() {
                laws::law_absorb_keeps_valid(old(self)@, input@);
            }
            if input@.len() == 0 {
                Blake2b::law_state_is_all(*self, *old(self));
            }
        }
    }

    /// Takes the key in, padded to a block.
    pub(crate) fn apply_key(&mut self)
        requires
            old(self)@.buflen <= BLAKE2B_BUFBYTES,
            old(self)@.key.len() <= BLAKE2B_KEYBYTES,
        ensures
            old(self).wf() ==> final(self).wf(),
            final(self)@ == model::absorb(old(self)@, model::pad(old(self)@.key, 128)),
    {
        let mut block: [u8; BLAKE2B_BLOCKBYTES] = [0; BLAKE2B_BLOCKBYTES];
        copy_memory(&self.key[0..self.key_length as usize], &mut block);
        assert(block@ =~= model::pad(old(self)@.key, 128));
        self.update(&block);
        secure_memset(&mut block, 0);
    }

    /// Like `new`, with a key of at least one and at most 64 bytes.
    pub fn new_keyed(outlen: usize, key: &[u8]) -> (context: Blake2b)
        requires
            0 < outlen <= BLAKE2B_OUTBYTES,
            0 < key@.len() <= BLAKE2B_KEYBYTES,
        ensures
            context.wf(),
            context@ == model::fresh(outlen as nat, key@),
            context@.digest_length == outlen,
            context@.key == key@,
    {
        let param = Blake2bParam {
            digest_length: outlen as u8,
            key_length: key.len() as u8,
            fanout: 1,
            depth: 1,
            leaf_length: 0,
            node_offset: 0,
            node_depth: 0,
            inner_length: 0,
            reserved: [0; 14],
            salt: [0; BLAKE2B_SALTBYTES],
            personal: [0; BLAKE2B_PERSONALBYTES],
        };
        proof {
            cryptoutil::lemma_le_bytes_of_zero(4);
            cryptoutil::lemma_le_bytes_of_zero(8);
            assert(param.block() =~= model::parameter_block(outlen as nat, key@.len()));
        }
        let mut context = Blake2b::init_param(param, key);
        context.apply_key();
        proof {
            assert(model::keyed_data(key@, Seq::empty()) =~= model::pad(key@, 128));
            laws::law_absorb_keeps_settings(
                model::initial(outlen as nat, key@),
                model::pad(key@, 128),
            );
        }
        context
    }

    /// Compresses the waiting bytes as the last block, and puts the bytes of the
    /// chain value in the front of the buffer.
    fn close(&mut self)
        requires
            old(self)@.buflen <= BLAKE2B_BUFBYTES,
        ensures
            final(self)@ == model::close(old(self)@),
    {
        let start: usize = self.buflen;
        self.increment_counter(start as u64);
        self.set_lastblock();
        let ghost marked = *self;
        for i in start..BLAKE2B_BUFBYTES
            invariant
                *self == (Blake2b { buf: self.buf, ..marked }),
                start == marked.buflen,
                forall|j: int| 0 <= j < start ==> self.buf@[j] == marked.buf@[j],
                forall|j: int| start <= j < i ==> self.buf@[j] == 0,
        {
            self.buf[i] = 0;
        }
        let ghost padded = model::pad(old(self).buf@.take(start as int), 256);
        assert(self.buf@ =~= padded);
        self.compress();

        let (front, _) = self.buf.split_at_mut(64);
        write_u64v_le(front, &self.h);
        self.computed = true;
        assert(self.buf@ =~= cryptoutil::words_le_bytes(self.h@) + padded.skip(64));
        assert(self@ =~= model::close(old(self)@));
    }

    /// Computes the digest, unless that has been done, and copies it to `out`.
    pub(crate) fn finalize(&mut self, out: &mut [u8])
        requires
            old(self)@.buflen <= BLAKE2B_BUFBYTES,
            old(out)@.len() == old(self)@.digest_length,
        ensures
            final(self)@ == model::finish(old(self)@),
            final(out)@ == model::output(old(self)@),
            final(self)@ == (State {
                h: final(self)@.h,
                t: final(self)@.t,
                f0: final(self)@.f0,
                f1: final(self)@.f1,
                buf: final(self)@.buf,
                buflen: final(self)@.buflen,
                computed: true,
                ..old(self)@
            }),
            final(self)@.buflen <= BLAKE2B_BUFBYTES,
            old(self).wf() ==> final(self).wf(),
            old(self)@.computed ==> *final(self) == *old(self),
            old(self).wf() ==> model::gives_digest(old(self)@, final(out)@),
    {
        if !self.computed {
            if self.buflen > BLAKE2B_BLOCKBYTES {
                self.advance();
            }
            self.close();
        }
        let outlen: usize = out.len();
        copy_memory(&self.buf[0..outlen], out);
        assert(out@ =~= model::output(old(self)@));
        proof {
            if old(self).wf() {
                laws::law_finish_keeps_valid(old(self)@);
                laws::law_gives_digest(old(self)@);
            }
            if old(self)@.computed {
                Blake2b::law_state_is_all(*self, *old(self));
            }
        }
    }

    /// Resets the context to the state in which it was created: the lengths and
    /// the key stay, the input goes.
    pub fn reset(&mut self)
        requires
            old(self).wf(),
        ensures
            final(self).wf(),
            final(self)@ == model::fresh(old(self)@.digest_length, old(self)@.key),
            final(self)@.digest_length == old(self)@.digest_length,
            final(self)@.key == old(self)@.key,
            old(self)@ == model::fresh(old(self)@.digest_length, old(self)@.key) ==> *final(self)
                == *old(self),
    {
        for i in 0..8
            invariant
                *self == (Blake2b { h: self.h, ..*old(self) }),
                forall|j: int| 0 <= j < i ==> self.h@[j] == IV@[j],
        {
            self.h[i] = IV[i];
        }
        for i in 0..2
            invariant
                *self == (Blake2b { h: self.h, t: self.t, ..*old(self) }),
                self.h@ =~= IV@,
                forall|j: int| 0 <= j < i ==> self.t@[j] == 0,
        {
            self.t[i] = 0;
        }
        for i in 0..2
            invariant
                *self == (Blake2b { h: self.h, t: self.t, f: self.f, ..*old(self) }),
                self.h@ == IV@,
                counter(self.t) == 0,
                forall|j: int| 0 <= j < i ==> self.f@[j] == 0,
        {
            self.f[i] = 0;
        }
        for i in 0..BLAKE2B_BUFBYTES
            invariant
                *self == (Blake2b {
                    h: self.h,
                    t: self.t,
                    f: self.f,
                    buf: self.buf,
                    ..*old(self)
                }),
                self.h@ == IV@,
                counter(self.t) == 0,
                self.f[0] == 0,
                self.f[1] == 0,
                forall|j: int| 0 <= j < i ==> self.buf@[j] == 0,
        {
            self.buf[i] = 0;
        }
        self.buflen = 0;
        self.last_node = 0;
        self.computed = false;
        self.apply_param();
        let ghost key = old(self)@.key;
        let ghost start = model::initial(old(self)@.digest_length, key);
        assert(self@ =~= start);
        proof {
            laws::law_absorb_keeps_settings(start, model::keyed_data(key, Seq::empty()));
        }
        if self.key_length > 0 {
            self.apply_key();
            assert(model::keyed_data(key, Seq::empty()) =~= model::pad(key, 128));
        }
        proof {
            laws::law_fresh_is_valid(old(self)@.digest_length, key);
            if old(self)@ == self@ {
                Blake2b::law_state_is_all(*self, *old(self));
            }
        }
    }

    /// Hashes `input` under `key` into `out`, whose length is that of the
    /// digest. An empty key stands for none.
    pub fn blake2b(out: &mut [u8], input: &[u8], key: &[u8])
        requires
            0 < old(out)@.len() <= BLAKE2B_OUTBYTES,
            key@.len() <= BLAKE2B_KEYBYTES,
        ensures
            final(out)@ == model::digest(old(out)@.len(), key@, input@),
    {
        let mut hasher: Blake2b = if !key.is_empty() {
            Blake2b::new_keyed(out.len(), key)
        } else {
            Blake2b::new(out.len())
        };
        proof {
            assert(key@.len() == 0 ==> key@ =~= Seq::<u8>::empty());
            laws::law_digest(old(out)@.len(), key@, input@);
        }
        hasher.update(input);
        hasher.finalize(out);
    }
}

impl digest::Digest for Blake2b {
    open spec fn valid(&self) -> bool {
        self.wf()
    }

    open spec fn after_reset(state: State) -> State {
        model::fresh(state.digest_length, state.key)
    }

    open spec fn after_input(state: State, msg: Seq<u8>) -> State {
        model::absorb(state, msg)
    }

    open spec fn after_result(state: State) -> State {
        model::finish(state)
    }

    open spec fn digest(state: State) -> Seq<u8> {
        model::output(state)
    }

    open spec fn digest_bits(state: State) -> nat {
        8 * state.digest_length
    }

    open spec fn block_bits(state: State) -> nat {
        8 * BLAKE2B_BLOCKBYTES as nat
    }

    fn reset(&mut self)
        ensures
            final(self)@ == model::fresh(old(self)@.digest_length, old(self)@.key),
            final(self)@.digest_length == old(self)@.digest_length,
            final(self)@.key == old(self)@.key,
            old(self)@ == model::fresh(old(self)@.digest_length, old(self)@.key) ==> *final(self)
                == *old(self),
    {
        Blake2b::reset(self);
    }

    fn input(&mut self, msg: &[u8])
        ensures
            final(self)@ == model::absorb(old(self)@, msg@),
            final(self)@.digest_length == old(self)@.digest_length,
            final(self)@.key == old(self)@.key,
            msg@.len() == 0 ==> *final(self) == *old(self),
    {
        self.update(msg);
    }

    fn result(&mut self, out: &mut [u8])
        ensures
            final(self)@ == model::finish(old(self)@),
            final(out)@ == model::output(old(self)@),
            final(self)@.digest_length == old(self)@.digest_length,
            final(self)@.key == old(self)@.key,
            old(self)@.computed ==> *final(self) == *old(self),
            model::gives_digest(old(self)@, final(out)@),
    {
        self.finalize(out);
    }

    fn output_bits(&self) -> (bits: usize)
        ensures
            bits == 8 * self@.digest_length,
    {
        8 * (self.digest_length as usize)
    }

    fn block_size(&self) -> (bits: usize)
        ensures
            bits == 1024,
    {
        8 * BLAKE2B_BLOCKBYTES
    }
}

impl Mac for Blake2b {
    open spec fn valid(&self) -> bool {
        self.wf()
    }

    open spec fn after_reset(state: State) -> State {
        model::fresh(state.digest_length, state.key)
    }

    open spec fn after_input(state: State, data: Seq<u8>) -> State {
        model::absorb(state, data)
    }

    open spec fn after_result(state: State) -> State {
        model::finish(state)
    }

    open spec fn mac(state: State) -> Seq<u8> {
        model::output(state)
    }

    open spec fn mac_length(state: State) -> nat {
        state.digest_length
    }

    fn input(&mut self, data: &[u8])
        ensures
            final(self)@ == model::absorb(old(self)@, data@),
            final(self)@.digest_length == old(self)@.digest_length,
            final(self)@.key == old(self)@.key,
            data@.len() == 0 ==> *final(self) == *old(self),
    {
        self.update(data);
    }

    fn reset(&mut self)
        ensures
            final(self)@ == model::fresh(old(self)@.digest_length, old(self)@.key),
            final(self)@.digest_length == old(self)@.digest_length,
            final(self)@.key == old(self)@.key,
            old(self)@ == model::fresh(old(self)@.digest_length, old(self)@.key) ==> *final(self)
                == *old(self),
    {
        Blake2b::reset(self);
    }

    fn result(&mut self) -> (result: MacResult)
        ensures
            final(self)@ == model::finish(old(self)@),
            result@ == model::output(old(self)@),
            final(self)@.digest_length == old(self)@.digest_length,
            final(self)@.key == old(self)@.key,
            old(self)@.computed ==> *final(self) == *old(self),
            model::gives_digest(old(self)@, result@),
    {
        let mut mac: Vec<u8> = vec![0; self.digest_length as usize];
        self.raw_result(&mut mac);
        MacResult::new_from_owned(mac)
    }

    fn raw_result(&mut self, output: &mut [u8])
        ensures
            final(self)@ == model::finish(old(self)@),
            final(output)@ == model::output(old(self)@),
            final(self)@.digest_length == old(self)@.digest_length,
            final(self)@.key == old(self)@.key,
            old(self)@.computed ==> *final(self) == *old(self),
            model::gives_digest(old(self)@, final(output)@),
    {
        self.finalize(output);
    }

    fn output_bytes(&self) -> (length: usize)
        ensures
            length == self@.digest_length,
    {
        self.digest_length as usize
    }
}

} // verus!
