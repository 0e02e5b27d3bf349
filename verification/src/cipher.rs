use vstd::prelude::*;
use crate::keystream::{key_byte, lemma_state_after_add, state_after};

verus! {

/// Byte `n` of the keystream whose first word is `key`: each state gives four
/// bytes, lowest first, and the generator advances between words.
pub open spec fn stream_byte(key: u32, n: int) -> u8 {
    key_byte(state_after(key, (n / 4) as nat), n % 4)
}

/// `input` XORed with the keystream of `key`, starting `phase` bytes into its
/// first word. Decoding and encoding are this one function.
pub open spec fn decoded(input: Seq<u8>, key: u32, phase: int) -> Seq<u8> {
    Seq::new(input.len(), |j: int| input[j] ^ stream_byte(key, phase + j))
}

/// The generator state after `count` bytes were decoded from `phase` bytes
/// into the word of `key`: one advance for each word boundary that was
/// reached.
pub open spec fn key_after(key: u32, phase: int, count: int) -> u32 {
    state_after(key, ((phase + count) / 4) as nat)
}

/// The payload `chunks`, decoded piece by piece: each piece starts with the
/// state and phase that the one before it left.
pub open spec fn decoded_in_chunks(chunks: Seq<Seq<u8>>, key: u32, phase: int) -> Seq<u8>
    decreases chunks.len(),
{
    if chunks.len() == 0 {
        Seq::empty()
    } else {
        decoded(chunks[0], key, phase) + decoded_in_chunks(
            chunks.skip(1),
            key_after(key, phase, chunks[0].len() as int),
            (phase + chunks[0].len()) % 4,
        )
    }
}

/// The pieces of `chunks` joined in order.
pub open spec fn joined(chunks: Seq<Seq<u8>>) -> Seq<u8>
    decreases chunks.len(),
{
    if chunks.len() == 0 {
        Seq::empty()
    } else {
        chunks[0] + joined(chunks.skip(1))
    }
}

/// Resuming `count` bytes later, with the state and phase reached there,
/// continues the same keystream.
pub proof fn lemma_stream_resumes(key: u32, phase: int, count: int, j: int)
    requires
        0 <= phase,
        0 <= count,
        0 <= j,
    ensures
        stream_byte(key_after(key, phase, count), (phase + count) % 4 + j) == stream_byte(
            key,
            phase + count + j,
        ),
{
    let words = (phase + count) / 4;
    let rest = (phase + count) % 4;
    lemma_state_after_add(key, words as nat, ((rest + j) / 4) as nat);
}

/// Chunking does not change the result: decoding `head + tail` in one piece
/// gives what decoding `head` and then `tail`, from where `head` ended, gives.
pub proof fn lemma_decoded_split(head: Seq<u8>, tail: Seq<u8>, key: u32, phase: int)
    requires
        0 <= phase,
    ensures
        decoded(head + tail, key, phase) == decoded(head, key, phase) + decoded(
            tail,
            key_after(key, phase, head.len() as int),
            (phase + head.len()) % 4,
        ),
{
    let whole = decoded(head + tail, key, phase);
    let first = decoded(head, key, phase);
    let second = decoded(tail, key_after(key, phase, head.len() as int), (phase + head.len()) % 4);
    assert forall|j: int| 0 <= j < whole.len() implies whole[j] == (first + second)[j] by {
        if j >= head.len() {
            lemma_stream_resumes(key, phase, head.len() as int, j - head.len());
        }
    }
}

/// Cutting a payload at `count`: the plaintext before the cut is the decoding
/// of the bytes before it, and the plaintext behind the cut is the decoding of
/// the bytes behind it from the state and phase reached there.
pub proof fn lemma_decoded_cut(input: Seq<u8>, key: u32, phase: int, count: int)
    requires
        0 <= phase,
        0 <= count <= input.len(),
    ensures
        decoded(input, key, phase).take(count) == decoded(input.take(count), key, phase),
        decoded(input, key, phase).skip(count) == decoded(
            input.skip(count),
            key_after(key, phase, count),
            (phase + count) % 4,
        ),
{
    let head = input.take(count);
    let tail = input.skip(count);
    lemma_decoded_split(head, tail, key, phase);
    let first = decoded(head, key, phase);
    let second = decoded(tail, key_after(key, phase, count), (phase + count) % 4);
    assert((first + second).skip(count) =~= second);
}

/// For any split of a payload into pieces, decoding piece by piece gives the
/// decoding of the whole.
pub proof fn lemma_chunks_agree(chunks: Seq<Seq<u8>>, key: u32, phase: int)
    requires
        0 <= phase,
    ensures
        decoded_in_chunks(chunks, key, phase) == decoded(joined(chunks), key, phase),
    decreases chunks.len(),
{
    if chunks.len() > 0 {
        lemma_chunks_agree(
            chunks.skip(1),
            key_after(key, phase, chunks[0].len() as int),
            (phase + chunks[0].len()) % 4,
        );
        lemma_decoded_split(chunks[0], joined(chunks.skip(1)), key, phase);
    }
}

/// XOR with the keystream undoes itself: decoding what encoding gave, from
/// the same state and phase, returns the input.
pub proof fn lemma_decoded_twice(input: Seq<u8>, key: u32, phase: int)
    ensures
        decoded(decoded(input, key, phase), key, phase) == input,
{
    let once = decoded(input, key, phase);
    let twice = decoded(once, key, phase);
    assert forall|j: int| 0 <= j < input.len() implies twice[j] == input[j] by {
        let x = input[j];
        let k = stream_byte(key, phase + j);
        assert((x ^ k) ^ k == x) by (bit_vector);
    }
}

/// Round trip under any chunking: a buffer encoded in the pieces `forward`
/// and decoded in the pieces `back`, from the same starting key, comes out
/// as it went in.
pub proof fn lemma_round_trip(buffer: Seq<u8>, forward: Seq<Seq<u8>>, back: Seq<Seq<u8>>, key: u32)
    requires
        joined(forward) == buffer,
        joined(back) == decoded_in_chunks(forward, key, 0),
    ensures
        decoded_in_chunks(back, key, 0) == buffer,
{
    lemma_chunks_agree(forward, key, 0);
    lemma_chunks_agree(back, key, 0);
    lemma_decoded_twice(buffer, key, 0);
}

} // verus!
