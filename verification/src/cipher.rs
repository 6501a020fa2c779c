//! The rolling keystream: a symmetric XOR transform whose state is one offset
//! that carries over from one buffer of a stream to the next.
//!
//! The state of one direction of a stream is its key and its offset: 0 for a
//! fresh stream, and from then on what the call before returned. Each
//! direction of a relay owns its own.

use vstd::prelude::*;
use vstd::string::StringSliceAdditionalSpecFns;

verus! {

/// The keystream byte at stream position `pos`: the key byte at `pos` modulo
/// the key length, OR-ed with the low eight bits of that index.
pub open spec fn keystream_byte(key: Seq<u8>, pos: int) -> u8 {
    let rem = pos % (key.len() as int);
    key[rem] | ((rem % 256) as u8)
}

/// `data` transformed as the part of a stream that begins at position `start`.
pub open spec fn cipher_seq(data: Seq<u8>, key: Seq<u8>, start: int) -> Seq<u8> {
    Seq::new(data.len(), |i: int| data[i] ^ keystream_byte(key, start + i))
}

/// The offset that continues a stream after `len` bytes were transformed from
/// offset `start`: one more than the key index of the last byte, or `start`
/// itself where nothing was transformed.
pub open spec fn next_offset(len: int, key_len: int, start: int) -> int {
    if len <= 0 {
        start
    } else {
        (start + len - 1) % key_len + 1
    }
}

/// The remainder of the next position: one more than that of this one, or
/// zero where the key is used up.
proof fn lemma_step_mod(x: int, m: int)
    requires
        0 <= x,
        0 < m,
    ensures
        (x + 1) % m == if x % m + 1 == m { 0 } else { x % m + 1 },
{
    vstd::arithmetic::div_mod::lemma_fundamental_div_mod(x, m);
    let q = x / m;
    let r = x % m;
    if r + 1 == m {
        assert(x + 1 == (q + 1) * m + 0) by (nonlinear_arith)
            requires
                x == m * q + r,
                r + 1 == m,
        ;
        vstd::arithmetic::div_mod::lemma_fundamental_div_mod_converse(x + 1, m, q + 1, 0);
    } else {
        assert(x + 1 == q * m + (r + 1)) by (nonlinear_arith)
            requires
                x == m * q + r,
        ;
        vstd::arithmetic::div_mod::lemma_fundamental_div_mod_converse(x + 1, m, q, r + 1);
    }
}

/// Transforms `data` in place as the part of a stream that begins at offset
/// `sub_index`, and returns the offset for the buffer that follows.
pub fn xor_cipher(data: &mut [u8], secret: &str, sub_index: usize) -> (next: usize)
    requires
        secret.spec_bytes().len() > 0,
    ensures
        final(data)@ == cipher_seq(old(data)@, secret.spec_bytes(), sub_index as int),
        next as int == next_offset(
            old(data)@.len() as int,
            secret.spec_bytes().len() as int,
            sub_index as int,
        ),
{
    let key = secret.as_bytes();
    let key_len: usize = key.len();
    let len: usize = data.len();
    if len == 0 {
        return sub_index;
    }
    let mut rem: usize = sub_index % key_len;
    let mut i: usize = 0;
    let mut last: usize = rem;
    while i < len
        invariant
            key_len == key@.len(),
            key@ == secret.spec_bytes(),
            key_len > 0,
            len == data@.len(),
            len == old(data)@.len(),
            0 <= i <= len,
            rem < key_len,
            rem as int == (sub_index as int + i as int) % (key_len as int),
            i > 0 ==> last as int == (sub_index as int + i as int - 1) % (key_len as int),
            forall|j: int|
                0 <= j < i ==> data@[j] == old(data)@[j] ^ keystream_byte(
                    key@,
                    sub_index as int + j,
                ),
            forall|j: int| i <= j < len ==> data@[j] == old(data)@[j],
        decreases len - i,
    {
        let low: u8 = (rem % 256) as u8;
        let b: u8 = data[i];
        data[i] = b ^ (key[rem] | low);
        last = rem;
        proof {
            lemma_step_mod(sub_index as int + i as int, key_len as int);
        }
        rem = if rem + 1 == key_len { 0 } else { rem + 1 };
        i = i + 1;
    }
    last + 1
}

/// The concatenation of the transformed chunks, each begun at the offset
/// that the chunk before it ended with.
pub open spec fn cipher_chunks(chunks: Seq<Seq<u8>>, key: Seq<u8>, start: int) -> Seq<u8>
    decreases chunks.len(),
{
    if chunks.len() == 0 {
        Seq::empty()
    } else {
        cipher_seq(chunks.first(), key, start) + cipher_chunks(
            chunks.drop_first(),
            key,
            next_offset(chunks.first().len() as int, key.len() as int, start),
        )
    }
}

/// The offset that the last of the chunks ends with.
pub open spec fn offset_after_chunks(chunks: Seq<Seq<u8>>, key_len: int, start: int) -> int
    decreases chunks.len(),
{
    if chunks.len() == 0 {
        start
    } else {
        offset_after_chunks(
            chunks.drop_first(),
            key_len,
            next_offset(chunks.first().len() as int, key_len, start),
        )
    }
}

/// The offset that a buffer ends with stands for the position behind it: it
/// is the same modulo the key length.
pub proof fn lemma_next_offset_congruent(len: int, key_len: int, start: int)
    requires
        0 <= len,
        0 < key_len,
        0 <= start,
    ensures
        0 <= next_offset(len, key_len, start),
        len > 0 ==> 1 <= next_offset(len, key_len, start) <= key_len,
        next_offset(len, key_len, start) % key_len == (start + len) % key_len,
{
    if len > 0 {
        let x = start + len - 1;
        vstd::arithmetic::div_mod::lemma_mod_pos_bound(x, key_len);
        vstd::arithmetic::div_mod::lemma_add_mod_noop_right(1, x, key_len);
    }
}

/// Two positions that agree modulo the key length give the same transform.
pub proof fn lemma_cipher_congruent(data: Seq<u8>, key: Seq<u8>, a: int, b: int)
    requires
        key.len() > 0,
        a % (key.len() as int) == b % (key.len() as int),
    ensures
        cipher_seq(data, key, a) == cipher_seq(data, key, b),
{
    let k = key.len() as int;
    assert forall|i: int| 0 <= i < data.len() implies #[trigger] cipher_seq(data, key, a)[i]
        == cipher_seq(data, key, b)[i] by {
        vstd::arithmetic::div_mod::lemma_add_mod_noop(a, i, k);
        vstd::arithmetic::div_mod::lemma_add_mod_noop(b, i, k);
    }
    assert(cipher_seq(data, key, a) =~= cipher_seq(data, key, b));
}

/// Chunk invariance for one cut: transforming `head`, then `tail` from the
/// offset that `head` ended with, gives the transform of `head + tail`, and
/// ends with the same offset.
pub proof fn lemma_cipher_concat(head: Seq<u8>, tail: Seq<u8>, key: Seq<u8>, start: int)
    requires
        key.len() > 0,
        0 <= start,
    ensures
        cipher_seq(head + tail, key, start) == cipher_seq(head, key, start) + cipher_seq(
            tail,
            key,
            next_offset(head.len() as int, key.len() as int, start),
        ),
        next_offset((head + tail).len() as int, key.len() as int, start) == next_offset(
            tail.len() as int,
            key.len() as int,
            next_offset(head.len() as int, key.len() as int, start),
        ),
{
    let k = key.len() as int;
    let h = head.len() as int;
    let t = tail.len() as int;
    let mid = next_offset(h, k, start);
    lemma_next_offset_congruent(h, k, start);
    lemma_cipher_congruent(tail, key, mid, start + h);
    assert(cipher_seq(head + tail, key, start) =~= cipher_seq(head, key, start) + cipher_seq(
        tail,
        key,
        start + h,
    ));
    if t > 0 {
        vstd::arithmetic::div_mod::lemma_add_mod_noop(mid, t - 1, k);
        vstd::arithmetic::div_mod::lemma_add_mod_noop(start + h, t - 1, k);
    }
}

/// Chunk invariance: however a message is cut into consecutive chunks,
/// transforming chunk by chunk with the offset carried over gives the
/// transform of the whole message, and ends with the same offset.
pub proof fn lemma_chunk_invariance(chunks: Seq<Seq<u8>>, key: Seq<u8>, start: int)
    requires
        key.len() > 0,
        0 <= start,
    ensures
        cipher_chunks(chunks, key, start) == cipher_seq(chunks.flatten(), key, start),
        offset_after_chunks(chunks, key.len() as int, start) == next_offset(
            chunks.flatten().len() as int,
            key.len() as int,
            start,
        ),
    decreases chunks.len(),
{
    if chunks.len() == 0 {
        assert(cipher_seq(Seq::<u8>::empty(), key, start) =~= Seq::<u8>::empty());
    } else {
        let k = key.len() as int;
        let mid = next_offset(chunks.first().len() as int, k, start);
        lemma_next_offset_congruent(chunks.first().len() as int, k, start);
        lemma_chunk_invariance(chunks.drop_first(), key, mid);
        lemma_cipher_concat(chunks.first(), chunks.drop_first().flatten(), key, start);
    }
}

/// The transform is its own inverse: applied twice from the same offset it
/// gives the data back.
pub proof fn lemma_cipher_involution(data: Seq<u8>, key: Seq<u8>, start: int)
    ensures
        cipher_seq(cipher_seq(data, key, start), key, start) == data,
{
    assert forall|i: int| 0 <= i < data.len() implies #[trigger] cipher_seq(
        cipher_seq(data, key, start),
        key,
        start,
    )[i] == data[i] by {
        let d = data[i];
        let s = keystream_byte(key, start + i);
        assert((d ^ s) ^ s == d) by (bit_vector);
    }
    assert(cipher_seq(cipher_seq(data, key, start), key, start) =~= data);
}

/// A message that was transformed chunk by chunk is recovered by
/// transforming the result chunk by chunk again, whatever the two ways of
/// cutting are.
pub proof fn lemma_chunked_round_trip(
    message: Seq<Seq<u8>>,
    received: Seq<Seq<u8>>,
    key: Seq<u8>,
    start: int,
)
    requires
        key.len() > 0,
        0 <= start,
        received.flatten() == cipher_chunks(message, key, start),
    ensures
        cipher_chunks(received, key, start) == message.flatten(),
{
    lemma_chunk_invariance(message, key, start);
    lemma_chunk_invariance(received, key, start);
    lemma_cipher_involution(message.flatten(), key, start);
}

} // verus!
