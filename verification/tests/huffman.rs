use lzc::bits::{BitReader, BitWriter};
use lzc::bytes::{push_le32, push_le64, push_len, read_le32};
use lzc::canonical::{build_decode_table, canonical_codes_from_lengths, kraft_sum};
use lzc::error::Error;
use lzc::huffman::{count_bytes, huffman_decode, huffman_encode};
use lzc::tree::compute_huffman_lengths;

#[test]
fn bits_are_written_most_significant_first() {
    let mut w = BitWriter::new();
    w.write_bits(0b101, 3);
    w.write_bits(0b01, 2);
    assert_eq!(w.finish(), vec![0xa8]);
    let mut w = BitWriter::new();
    w.write_bits(0xffff_ffff, 15);
    assert_eq!(w.finish(), vec![0xff, 0xfe]);
    assert_eq!(BitWriter::new().finish(), Vec::<u8>::new());
}

#[test]
fn bits_are_read_and_followed_by_zeros() {
    let data = [0xa8];
    let mut r = BitReader::new(&data);
    assert_eq!(r.peek_bits(3), 5);
    r.consume_bits(3);
    assert_eq!(r.peek_bits(2), 1);
    assert_eq!(r.peek_bits(15), 0x2000);
    r.consume_bits(15);
    assert_eq!(r.peek_bits(15), 0);
}

#[test]
fn bits_come_back() {
    let mut w = BitWriter::new();
    for i in 0..100u32 {
        w.write_bits(i * 7, 9);
    }
    let out = w.finish();
    assert_eq!(out.len(), 113);
    let mut r = BitReader::new(&out);
    for i in 0..100u32 {
        assert_eq!(r.peek_bits(9), (i * 7) & 0x1ff);
        r.consume_bits(9);
    }
}

#[test]
fn numbers_have_the_low_byte_first() {
    let mut out = Vec::new();
    push_le32(&mut out, 0x01020304);
    push_len(&mut out, 258);
    push_le64(&mut out, 0x0102030405060708);
    assert_eq!(out, vec![4, 3, 2, 1, 2, 1, 0, 0, 8, 7, 6, 5, 4, 3, 2, 1]);
    assert_eq!(read_le32(&out, 0), 0x01020304);
    assert_eq!(read_le32(&out, 4), 258);
}

#[test]
fn code_lengths_of_small_trees() {
    let mut freq = [0u32; 256];
    assert_eq!(compute_huffman_lengths(&freq), [0u8; 256]);
    freq[97] = 5;
    let one = compute_huffman_lengths(&freq);
    assert_eq!(one[97], 1);
    assert_eq!(one.iter().filter(|&&l| l > 0).count(), 1);
    freq[97] = 1;
    freq[98] = 1;
    freq[99] = 2;
    let three = compute_huffman_lengths(&freq);
    assert_eq!((three[97], three[98], three[99]), (2, 2, 1));
}

#[test]
fn deep_trees_fall_back_to_equal_lengths() {
    let mut freq = [0u32; 256];
    let (mut a, mut b) = (1u32, 1u32);
    for i in 0..16 {
        freq[i] = a;
        let c = a + b;
        a = b;
        b = c;
    }
    let lengths = compute_huffman_lengths(&freq);
    assert_eq!(lengths[0], 15);
    assert_eq!(lengths[1], 15);
    assert_eq!(lengths[15], 1);
    for i in 16..20 {
        freq[i] = a;
        let c = a + b;
        a = b;
        b = c;
    }
    let lengths = compute_huffman_lengths(&freq);
    for i in 0..20 {
        assert_eq!(lengths[i], 5);
    }
    assert_eq!(lengths[20], 0);
}

#[test]
fn codes_are_canonical() {
    let mut lengths = [0u8; 256];
    lengths[97] = 2;
    lengths[98] = 2;
    lengths[99] = 1;
    let codes = canonical_codes_from_lengths(&lengths);
    assert_eq!((codes[97], codes[98], codes[99]), (2, 3, 0));
    let table = build_decode_table(&lengths);
    assert_eq!(table.len(), 32768);
    assert_eq!(table[0], (99, 1));
    assert_eq!(table[16383], (99, 1));
    assert_eq!(table[16384], (97, 2));
    assert_eq!(table[24575], (97, 2));
    assert_eq!(table[24576], (98, 2));
    assert_eq!(table[32767], (98, 2));
}

#[test]
fn windows_without_a_code_are_empty() {
    let mut lengths = [0u8; 256];
    lengths[1] = 2;
    lengths[2] = 2;
    let table = build_decode_table(&lengths);
    assert_eq!(table[0], (1, 2));
    assert_eq!(table[8192], (2, 2));
    assert_eq!(table[16384], (0, 0));
}

#[test]
fn no_code_starts_with_another() {
    let freq = count_bytes(b"the quick brown fox jumps over the lazy dog");
    let lengths = compute_huffman_lengths(&freq);
    let codes = canonical_codes_from_lengths(&lengths);
    for s in 0..256 {
        for t in 0..256 {
            if s != t && lengths[s] > 0 && lengths[t] >= lengths[s] {
                assert_ne!(codes[t] >> (lengths[t] - lengths[s]), codes[s]);
            }
        }
    }
}

#[test]
fn sections_hold_a_count_a_table_and_codes() {
    let out = huffman_encode(b"abcc");
    assert_eq!(out.len(), 261);
    assert_eq!(out[0..4], [4, 0, 0, 0]);
    assert_eq!((out[4 + 97], out[4 + 98], out[4 + 99]), (2, 2, 1));
    assert_eq!(out[260], 0xb0);
    assert_eq!(huffman_encode(b""), Vec::<u8>::new());
}

#[test]
fn sections_come_back() {
    let mut data = Vec::new();
    for i in 0..5000u32 {
        data.push((i * i % 251) as u8);
    }
    assert_eq!(huffman_decode(&huffman_encode(&data)), Ok(data));
    assert_eq!(huffman_decode(&huffman_encode(b"zzzz")), Ok(b"zzzz".to_vec()));
    assert_eq!(huffman_decode(&huffman_encode(b"x")), Ok(b"x".to_vec()));
}

#[test]
fn bad_sections_are_refused() {
    assert_eq!(huffman_decode(&[]), Err(Error::HuffmanTooShort));
    assert_eq!(huffman_decode(&[0; 259]), Err(Error::HuffmanTooShort));
    assert_eq!(huffman_decode(&[0; 260]), Ok(Vec::new()));
    let mut section = vec![0u8; 261];
    section[0] = 3;
    assert_eq!(huffman_decode(&section), Err(Error::EmptyHuffmanTable));
    section[4 + 65] = 7;
    assert_eq!(huffman_decode(&section), Ok(vec![65, 65, 65]));
    section[4 + 66] = 7;
    section[260] = 0xff;
    assert_eq!(huffman_decode(&section), Err(Error::HuffmanDecode));
    section[4 + 66] = 16;
    assert_eq!(huffman_decode(&section), Err(Error::InvalidCodeLengths));
    section[4 + 65] = 1;
    section[4 + 66] = 1;
    section[4 + 67] = 1;
    assert_eq!(huffman_decode(&section), Err(Error::InvalidCodeLengths));
}

#[test]
fn long_peeks_keep_the_low_bits() {
    let data = [0x12, 0x34, 0x56, 0x78, 0x9a, 0xbc, 0xde, 0xf0, 0x11];
    let mut r = BitReader::new(&data);
    assert_eq!(r.peek_bits(32), 0x12345678);
    assert_eq!(r.peek_bits(40), 0x3456789a);
    assert_eq!(r.peek_bits(64), 0x9abcdef0);
}

#[test]
fn windows_add_up() {
    let mut lengths = [0u8; 256];
    assert_eq!(kraft_sum(&lengths), 0);
    lengths[97] = 2;
    lengths[98] = 2;
    lengths[99] = 1;
    assert_eq!(kraft_sum(&lengths), 32768);
    lengths[100] = 15;
    assert_eq!(kraft_sum(&lengths), 32769);
}

fn bits(freq: &[u32; 256], lengths: &[u8; 256]) -> u64 {
    (0..256).map(|s| freq[s] as u64 * lengths[s] as u64).sum()
}

#[test]
fn no_prefix_code_is_shorter() {
    let mut freq = [0u32; 256];
    for (s, f) in [(1, 40), (2, 30), (3, 20), (4, 7), (5, 3)] {
        freq[s] = f;
    }
    let best = compute_huffman_lengths(&freq);
    assert_eq!(bits(&freq, &best), 40 + 2 * 30 + 3 * 20 + 4 * 7 + 4 * 3);
    for code in 0..3125u32 {
        let mut lengths = [0u8; 256];
        for k in 0..5 {
            lengths[1 + k] = 1 + (code / 5u32.pow(k as u32) % 5) as u8;
        }
        if kraft_sum(&lengths) <= 32768 {
            assert!(bits(&freq, &best) <= bits(&freq, &lengths));
        }
    }
}

#[test]
fn frequent_symbols_have_short_codes() {
    let freq = count_bytes(b"the quick brown fox jumps over the lazy dog and the cat");
    let lengths = compute_huffman_lengths(&freq);
    for s in 0..256 {
        for t in 0..256 {
            if freq[s] > freq[t] && freq[t] > 0 {
                assert!(lengths[s] <= lengths[t]);
            }
        }
    }
}

#[test]
fn sections_add_no_more_than_their_head() {
    let all: Vec<u8> = (0..256).map(|i| i as u8).collect();
    assert_eq!(huffman_encode(&all).len(), 260 + 256);
    let mut skewed = Vec::new();
    for i in 0..14u32 {
        for _ in 0..(1 << i) {
            skewed.push(i as u8);
        }
    }
    assert!(huffman_encode(&skewed).len() <= 260 + skewed.len() / 2);
    assert_eq!(huffman_encode(b"x").len(), 260 + 1);
}
