use vstd::prelude::*;
use crate::cipher::{decoded, key_after, lemma_decoded_cut, stream_byte};
use crate::keystream::{advance_magic, byte_of, state_after};

verus! {

/// A reader over one entry's payload. It hands out the plaintext in the
/// pieces that its callers ask for and keeps the keystream aligned between
/// calls.
#[derive(Debug)]
pub struct Entry<'a> {
    /// Number of bytes handed out so far.
    pub offset: u32,
    /// Generator state for the word that the next byte falls into.
    pub magic: u32,
    /// The obfuscated payload, bounded to the entry's size.
    pub stream: &'a [u8],
}

impl<'a> View for Entry<'a> {
    type V = Seq<u8>;

    /// The plaintext that is still to come.
    open spec fn view(&self) -> Seq<u8> {
        decoded(self.stream@.skip(self.offset as int), self.magic, self.offset as int % 4)
    }
}

impl<'a> Entry<'a> {
    /// The reader is inside its payload, and the payload's length fits the
    /// 32-bit count of bytes handed out.
    pub open spec fn wf(&self) -> bool {
        self.offset <= self.stream@.len() <= u32::MAX
    }

    /// Pulls the next bytes of the plaintext into `buf`: as many as `buf`
    /// holds, or as are left. Returns their number; 0 says that the entry is
    /// at its end (or that `buf` is empty). What lies behind them in `buf`
    /// stays as it was.
    pub fn read(&mut self, buf: &mut [u8]) -> (count: usize)
        requires
            old(self).wf(),
        ensures
            final(self).wf(),
            final(self).stream == old(self).stream,
            final(self).offset == old(self).offset + count,
            final(self).magic == key_after(old(self).magic, old(self).offset as int % 4, count as int),
            count == if old(buf)@.len() <= old(self)@.len() {
                old(buf)@.len()
            } else {
                old(self)@.len()
            },
            final(buf)@.len() == old(buf)@.len(),
            final(buf)@.take(count as int) == old(self)@.take(count as int),
            final(buf)@.skip(count as int) == old(buf)@.skip(count as int),
            final(self)@ == old(self)@.skip(count as int),
    {
        let consumed: usize = self.offset as usize;
        let left: usize = self.stream.len() - consumed;
        let count: usize = if buf.len() < left {
            buf.len()
        } else {
            left
        };
        let ghost before = buf@;
        let mut i: usize = 0;
        while i < count
            invariant
                i <= count,
                consumed + count <= self.stream.len(),
                count <= before.len() == buf@.len(),
                forall|j: int| 0 <= j < i ==> buf@[j] == self.stream@[consumed + j],
                forall|j: int| i <= j < before.len() ==> buf@[j] == before[j],
            decreases count - i,
        {
            buf[i] = self.stream[consumed + i];
            i += 1;
        }
        proof {
            let rest = self.stream@.skip(consumed as int);
            lemma_decoded_cut(rest, self.magic, consumed as int % 4, count as int);
            assert((consumed as int % 4 + count) % 4 == (consumed + count) % 4);
        }
        self.decode(buf, count);
        count
    }

    /// Decodes the first `count` bytes of `buf` in place, as the next `count`
    /// bytes of the payload: the bytes up to the next word boundary with the
    /// rest of the current key word, then whole words with one fresh state
    /// each, then the bytes left over with bytes 0, 1, 2 of the state that
    /// follows. Each byte is XORed with its own byte of the keystream, so the
    /// plaintext does not depend on where the calls cut the payload. (A
    /// decoder that met every leftover byte with byte 0 of the key would give
    /// another plaintext for a call that ends two or three bytes into a word;
    /// that reading of the format is not followed here.)
    pub fn decode(&mut self, buf: &mut [u8], count: usize)
        requires
            old(self).wf(),
            count <= old(buf)@.len(),
            old(self).offset + count <= old(self).stream@.len(),
        ensures
            final(self).wf(),
            final(self).stream == old(self).stream,
            final(self).offset == old(self).offset + count,
            final(self).magic == key_after(old(self).magic, old(self).offset as int % 4, count as int),
            final(buf)@ == decoded(old(buf)@.take(count as int), old(self).magic, old(self).offset as int % 4)
                + old(buf)@.skip(count as int),
    {
        let ghost raw = buf@;
        let ghost key = self.magic;
        let ghost phase = self.offset as int % 4;
        let mut maski: u32 = self.offset % 4;
        let mut offset: usize = 0;
        let pre: usize = ((4 - maski) % 4) as usize;
        let lead: usize = if pre < count {
            pre
        } else {
            count
        };
        self.offset = self.offset + count as u32;

        while offset < lead
            invariant
                offset <= lead <= count <= raw.len() == buf@.len(),
                0 <= phase < 4,
                self.offset == old(self).offset + count,
                self.stream == old(self).stream,
                lead <= (4 - phase) % 4,
                maski == (phase + offset) % 4,
                self.magic == state_after(key, ((phase + offset) / 4) as nat),
                forall|j: int| 0 <= j < offset ==> buf@[j] == raw[j] ^ stream_byte(key, phase + j),
                forall|j: int| offset <= j < raw.len() ==> buf@[j] == raw[j],
            decreases lead - offset,
        {
            buf[offset] = buf[offset] ^ byte_of(self.magic, maski);
            maski += 1;
            offset += 1;
            if maski == 4 {
                advance_magic(&mut self.magic);
                maski = 0;
            }
        }

        if maski != 0 {
            return ;
        }
        let ghost base = (phase + lead) / 4;
        let words: usize = (count - lead) / 4;
        let mut done: usize = 0;
        while done < words
            invariant
                done <= words,
                offset == lead + 4 * done,
                lead + 4 * words <= count <= raw.len() == buf@.len(),
                0 <= phase < 4,
                self.offset == old(self).offset + count,
                self.stream == old(self).stream,
                phase + lead == 4 * base,
                self.magic == state_after(key, (base + done) as nat),
                forall|j: int| 0 <= j < offset ==> buf@[j] == raw[j] ^ stream_byte(key, phase + j),
                forall|j: int| offset <= j < raw.len() ==> buf@[j] == raw[j],
            decreases words - done,
        {
            let word: u32 = advance_magic(&mut self.magic);
            buf[offset] = buf[offset] ^ byte_of(word, 0);
            buf[offset + 1] = buf[offset + 1] ^ byte_of(word, 1);
            buf[offset + 2] = buf[offset + 2] ^ byte_of(word, 2);
            buf[offset + 3] = buf[offset + 3] ^ byte_of(word, 3);
            offset += 4;
            done += 1;
        }

        let rest: usize = (count - lead) % 4;
        let mut i: usize = 0;
        while i < rest
            invariant
                i <= rest < 4,
                offset + rest == count <= raw.len() == buf@.len(),
                0 <= phase < 4,
                self.offset == old(self).offset + count,
                self.stream == old(self).stream,
                phase + offset == 4 * (base + words),
                self.magic == state_after(key, (base + words) as nat),
                forall|j: int| 0 <= j < offset + i ==> buf@[j] == raw[j] ^ stream_byte(key, phase + j),
                forall|j: int| offset + i <= j < raw.len() ==> buf@[j] == raw[j],
            decreases rest - i,
        {
            buf[offset + i] = buf[offset + i] ^ byte_of(self.magic, i as u32);
            i += 1;
        }
    }
}

} // verus!
