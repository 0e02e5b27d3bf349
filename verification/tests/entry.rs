use rgssad::entry::Entry;

// The bytes 1 to 11 under the keystream of 0x11223344.
const CIPHER: [u8; 11] = [0x45, 0x31, 0x21, 0x15, 0xda, 0x60, 0xe8, 0x7f, 0x15, 0xda, 0x80];

fn payload(len: usize) -> Vec<u8> {
    (0..len).map(|i| (i * 37 + 11) as u8).collect()
}

fn pull(stream: &[u8], magic: u32, chunk: usize) -> Vec<u8> {
    let mut entry = Entry { offset: 0, magic, stream };
    let mut buf = vec![0u8; chunk];
    let mut out = Vec::new();
    loop {
        let count = entry.read(&mut buf);
        if count == 0 {
            break;
        }
        out.extend_from_slice(&buf[..count]);
    }
    assert_eq!(entry.offset as usize, stream.len());
    out
}

fn pull_in(stream: &[u8], magic: u32, chunks: &[usize]) -> Vec<u8> {
    let mut entry = Entry { offset: 0, magic, stream };
    let mut out = Vec::new();
    for chunk in chunks {
        let mut buf = vec![0u8; *chunk];
        let count = entry.read(&mut buf);
        out.extend_from_slice(&buf[..count]);
    }
    out
}

#[test]
fn each_byte_meets_its_byte_of_the_keystream() {
    // Words 0x11223344, 0x77ef66df, 0x478bd01c; bytes lowest first.
    assert_eq!(pull(&CIPHER, 0x11223344, 8192), vec![1, 2, 3, 4, 5, 6, 7, 8, 9, 10, 11]);
    let zeros = [0u8; 11];
    assert_eq!(
        pull(&zeros, 0x11223344, 8192),
        vec![0x44, 0x33, 0x22, 0x11, 0xdf, 0x66, 0xef, 0x77, 0x1c, 0xd0, 0x8b]
    );
}

#[test]
fn chunks_of_1_3_4_7_and_all_give_one_plaintext() {
    let cipher = payload(61);
    let whole = pull(&cipher, 0xCAFEBABE, cipher.len());
    assert_eq!(whole.len(), 61);
    for chunk in [1usize, 3, 4, 7, 61, 8192] {
        assert_eq!(pull(&cipher, 0xCAFEBABE, chunk), whole, "chunk {}", chunk);
    }
    assert_eq!(pull(&CIPHER, 0x11223344, 1), vec![1, 2, 3, 4, 5, 6, 7, 8, 9, 10, 11]);
    assert_eq!(pull(&CIPHER, 0x11223344, 3), vec![1, 2, 3, 4, 5, 6, 7, 8, 9, 10, 11]);
    assert_eq!(pull(&CIPHER, 0x11223344, 7), vec![1, 2, 3, 4, 5, 6, 7, 8, 9, 10, 11]);
}

#[test]
fn every_chunk_size_gives_one_plaintext() {
    for len in 0..40usize {
        let cipher = payload(len);
        let whole = pull(&cipher, 0xDEADCAFE, 64);
        for chunk in 1..=len + 1 {
            assert_eq!(pull(&cipher, 0xDEADCAFE, chunk), whole, "len {} chunk {}", len, chunk);
        }
    }
}

#[test]
fn uneven_chunks_give_the_same_plaintext() {
    let cipher = payload(50);
    let whole = pull(&cipher, 99, 50);
    assert_eq!(pull_in(&cipher, 99, &[1, 2, 3, 4, 5, 6, 7, 8, 9, 10]), whole);
    assert_eq!(pull_in(&cipher, 99, &[3, 3, 3, 1, 40]), whole);
    assert_eq!(pull_in(&cipher, 99, &[2, 0, 5, 0, 43]), whole);
    assert_eq!(pull_in(&cipher, 99, &[49, 1]), whole);
}

#[test]
fn encoding_then_decoding_returns_the_buffer() {
    let plain = payload(77);
    for forward in [1usize, 3, 4, 7, 77] {
        let cipher = pull(&plain, 0x12345678, forward);
        assert_ne!(cipher, plain);
        for back in [1usize, 3, 4, 7, 77] {
            assert_eq!(pull(&cipher, 0x12345678, back), plain, "forward {} back {}", forward, back);
        }
    }
}

#[test]
fn leftover_bytes_use_their_own_bytes_of_the_key() {
    // Three bytes from a word boundary: bytes 0, 1 and 2 of the key, and no
    // advance. Not byte 0 three times.
    let zeros = [0u8; 3];
    let mut entry = Entry { offset: 0, magic: 0x11223344, stream: &zeros };
    let mut buf = [0u8; 3];
    assert_eq!(entry.read(&mut buf), 3);
    assert_eq!(buf, [0x44, 0x33, 0x22]);
    assert_eq!(entry.magic, 0x11223344);
    assert_eq!(entry.offset, 3);

    // Seven bytes: one word, one advance, then bytes 0, 1, 2 of the next.
    let zeros = [0u8; 7];
    let mut entry = Entry { offset: 0, magic: 0x11223344, stream: &zeros };
    let mut buf = [0u8; 7];
    assert_eq!(entry.read(&mut buf), 7);
    assert_eq!(buf, [0x44, 0x33, 0x22, 0x11, 0xdf, 0x66, 0xef]);
    assert_eq!(entry.magic, 0x77ef66df);
}

#[test]
fn a_call_that_ends_on_a_word_boundary_advances() {
    let zeros = [0u8; 8];
    let mut entry = Entry { offset: 0, magic: 0x11223344, stream: &zeros };
    let mut buf = [0u8; 3];
    entry.read(&mut buf);
    assert_eq!(entry.magic, 0x11223344);
    let mut one = [0u8; 1];
    assert_eq!(entry.read(&mut one), 1);
    assert_eq!(one, [0x11]);
    assert_eq!(entry.magic, 0x77ef66df);
    assert_eq!(entry.offset, 4);
    let mut four = [0u8; 4];
    assert_eq!(entry.read(&mut four), 4);
    assert_eq!(four, [0xdf, 0x66, 0xef, 0x77]);
    assert_eq!(entry.magic, 0x478bd01c);
}

#[test]
fn a_call_inside_a_word_does_not_advance() {
    let zeros = [0u8; 4];
    let mut entry = Entry { offset: 0, magic: 0x11223344, stream: &zeros };
    let mut one = [0u8; 1];
    entry.read(&mut one);
    assert_eq!(one, [0x44]);
    entry.read(&mut one);
    assert_eq!(one, [0x33]);
    assert_eq!(entry.magic, 0x11223344);
    entry.read(&mut one);
    assert_eq!(one, [0x22]);
    assert_eq!(entry.magic, 0x11223344);
    assert_eq!(entry.offset, 3);
}

#[test]
fn read_returns_zero_at_the_end() {
    let mut entry = Entry { offset: 0, magic: 1, stream: &CIPHER };
    let mut buf = [0u8; 16];
    assert_eq!(entry.read(&mut buf), 11);
    assert_eq!(entry.read(&mut buf), 0);
    assert_eq!(entry.read(&mut buf), 0);
    assert_eq!(entry.offset, 11);
}

#[test]
fn read_of_an_empty_payload_returns_zero() {
    let mut entry = Entry { offset: 0, magic: 1, stream: &[] };
    let mut buf = [7u8; 4];
    assert_eq!(entry.read(&mut buf), 0);
    assert_eq!(buf, [7, 7, 7, 7]);
    assert_eq!(entry.magic, 1);
}

#[test]
fn read_into_an_empty_buffer_changes_nothing() {
    let mut entry = Entry { offset: 0, magic: 0x11223344, stream: &CIPHER };
    let mut buf: [u8; 0] = [];
    assert_eq!(entry.read(&mut buf), 0);
    assert_eq!(entry.offset, 0);
    assert_eq!(entry.magic, 0x11223344);
}

#[test]
fn read_leaves_the_rest_of_the_buffer() {
    let mut entry = Entry { offset: 0, magic: 0x11223344, stream: &CIPHER[..5] };
    let mut buf = [0xaau8; 8];
    assert_eq!(entry.read(&mut buf), 5);
    assert_eq!(buf, [1, 2, 3, 4, 5, 0xaa, 0xaa, 0xaa]);
}

#[test]
fn decode_works_in_place_on_the_first_bytes() {
    let stream = [0u8; 16];
    let mut entry = Entry { offset: 0, magic: 0x11223344, stream: &stream };
    let mut buf = [0x45, 0x31, 0x21, 0x15, 0xda, 0x60, 0xff, 0xff];
    entry.decode(&mut buf, 6);
    assert_eq!(buf, [1, 2, 3, 4, 5, 6, 0xff, 0xff]);
    assert_eq!(entry.offset, 6);
    assert_eq!(entry.magic, 0x77ef66df);
    // The next call starts two bytes into the second word.
    let mut buf = [0xe8, 0x7f, 0x15, 0xda, 0x80];
    entry.decode(&mut buf, 5);
    assert_eq!(buf, [7, 8, 9, 10, 11]);
    assert_eq!(entry.offset, 11);
    assert_eq!(entry.magic, 0x478bd01c);
}

#[test]
fn decode_of_no_bytes_changes_nothing() {
    let stream = [0u8; 4];
    let mut entry = Entry { offset: 2, magic: 9, stream: &stream };
    let mut buf = [1u8, 2, 3];
    entry.decode(&mut buf, 0);
    assert_eq!(buf, [1, 2, 3]);
    assert_eq!(entry.offset, 2);
    assert_eq!(entry.magic, 9);
}

#[test]
fn a_reader_resumed_mid_word_continues_the_keystream() {
    // Start five bytes in: the state is the second word's, the phase is 1.
    let zeros = [0u8; 11];
    let mut entry = Entry { offset: 5, magic: 0x77ef66df, stream: &zeros };
    let mut buf = [0u8; 6];
    assert_eq!(entry.read(&mut buf), 6);
    assert_eq!(buf, [0x66, 0xef, 0x77, 0x1c, 0xd0, 0x8b]);
}
