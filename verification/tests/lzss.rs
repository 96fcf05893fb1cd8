use lzc::error::Error;
use lzc::huffman::huffman_encode;
use lzc::lzss::{flush_literals, lzss_compress, lzss_decompress};
use lzc::matcher::{find_best_match_at, hash4, MatchTables};
use lzc::streams::{lzss_huf3_decode, lzss_huf3_encode, lzss_huf4_decode, lzss_huf4_encode};

#[test]
fn hash_takes_the_high_half_of_a_product() {
    assert_eq!(hash4(&[1, 0, 0, 0], 0), 0x9e37);
    assert_eq!(hash4(&[9, 0, 0, 0, 0], 1), 0);
    assert_eq!(hash4(&[2, 0, 0, 0], 0), 0x3c6e);
}

#[test]
fn matches_are_found_in_the_tables() {
    let c = b"abcdabcdx";
    let mut tables = MatchTables::new(c.len());
    tables.insert_range(c, 0, 4);
    assert_eq!(find_best_match_at(c, 4, &mut tables), (4, 4));
    assert_eq!(find_best_match_at(c, 5, &mut tables), (0, 0));
    assert_eq!(find_best_match_at(c, 6, &mut tables), (0, 0));
}

#[test]
fn literals_are_cut_into_runs() {
    let data = vec![7u8; 300];
    let mut out = vec![1];
    flush_literals(&mut out, &data, 10, 129);
    assert_eq!(out.len(), 1 + 129 + 1 + 1);
    assert_eq!((out[1], out[130], out[131]), (128, 1, 7));
    let mut none = Vec::new();
    flush_literals(&mut none, &data, 300, 0);
    assert_eq!(none, Vec::<u8>::new());
}

#[test]
fn short_inputs_are_literals() {
    assert_eq!(lzss_compress(b"abc", b""), Vec::<u8>::new());
    assert_eq!(lzss_compress(b"abc", b"abc"), vec![3, b'a', b'b', b'c']);
}

#[test]
fn repeats_are_references() {
    assert_eq!(
        lzss_compress(b"", b"abcdabcd"),
        vec![4, b'a', b'b', b'c', b'd', 0x81, 3, 0]
    );
    assert_eq!(lzss_compress(b"abcd", b"abcd"), vec![0x81, 3, 0]);
    assert_eq!(lzss_compress(b"", &[b'a'; 64]), vec![1, b'a', 0xbc, 0, 0]);
}

#[test]
fn longer_matches_are_waited_for() {
    let input = b"XabcdYbcdefghabcdefgh";
    let mut expected = vec![14];
    expected.extend_from_slice(&input[..14]);
    expected.extend_from_slice(&[0x84, 7, 0]);
    assert_eq!(lzss_compress(b"", input), expected);
}

#[test]
fn commands_come_back() {
    let mut data = Vec::new();
    let mut x = 1u32;
    for i in 0..20000u32 {
        x = x.wrapping_mul(1664525).wrapping_add(1013904223);
        data.push(if i % 100 < 60 { (i % 37) as u8 } else { (x >> 28) as u8 });
    }
    for prefix in [&b""[..], &b"some bytes that came before"[..]] {
        let cmds = lzss_compress(prefix, &data);
        assert_eq!(lzss_decompress(prefix, &cmds, data.len()), Ok(data.clone()));
        assert_eq!(lzss_huf3_decode(&lzss_huf3_encode(&cmds)), Ok(cmds.clone()));
        assert_eq!(lzss_huf4_decode(&lzss_huf4_encode(&cmds)), Ok(cmds));
    }
}

#[test]
fn references_may_run_into_themselves() {
    assert_eq!(lzss_decompress(b"", &[1, b'a', 0x82, 0, 0], 6), Ok(b"aaaaaa".to_vec()));
    assert_eq!(lzss_decompress(b"ab", &[0x81, 1, 0], 4), Ok(b"abab".to_vec()));
}

#[test]
fn bad_commands_are_refused() {
    assert_eq!(lzss_decompress(b"", &[0], 0), Err(Error::ZeroLiteralCount));
    assert_eq!(lzss_decompress(b"", &[2, 1], 2), Err(Error::TruncatedLiteralRun));
    assert_eq!(lzss_decompress(b"a", &[0x81, 0], 4), Err(Error::TruncatedBackref));
    assert_eq!(lzss_decompress(b"", &[0x81, 0, 0], 4), Err(Error::BackrefOutOfBounds));
    assert_eq!(lzss_decompress(b"a", &[0x81, 1, 0], 4), Err(Error::BackrefOutOfBounds));
    assert_eq!(
        lzss_decompress(b"abc", &[1, 7], 2),
        Err(Error::SizeMismatch { got: 1, expected: 2 })
    );
}

fn le32(n: usize) -> Vec<u8> {
    (n as u32).to_le_bytes().to_vec()
}

#[test]
fn three_streams_stand_after_their_lengths() {
    let cmds = [2, b'x', b'y', 0x81, 1, 0, 1, b'z'];
    let (a, b, c) = (
        huffman_encode(&[2, 0x81, 1]),
        huffman_encode(b"xyz"),
        huffman_encode(&[1, 0]),
    );
    let expected = [le32(a.len()), le32(b.len()), a, b, c].concat();
    assert_eq!(lzss_huf3_encode(&cmds), expected);
    assert_eq!(lzss_huf3_decode(&expected), Ok(cmds.to_vec()));
    assert_eq!(lzss_huf3_encode(&[]), Vec::<u8>::new());
    assert_eq!(lzss_huf3_decode(&[]), Ok(Vec::new()));
}

#[test]
fn four_streams_stand_after_their_lengths() {
    let cmds = [2, b'x', b'y', 0x81, 1, 0, 1, b'z'];
    let (a, b) = (huffman_encode(&[2, 0x81, 1]), huffman_encode(b"xyz"));
    let (c, d) = (huffman_encode(&[1]), huffman_encode(&[0]));
    let expected = [le32(a.len()), le32(b.len()), le32(c.len()), a, b, c, d].concat();
    assert_eq!(lzss_huf4_encode(&cmds), expected);
    assert_eq!(lzss_huf4_decode(&expected), Ok(cmds.to_vec()));
    assert_eq!(lzss_huf4_encode(&[]), Vec::<u8>::new());
    assert_eq!(lzss_huf4_decode(&[]), Ok(Vec::new()));
}

#[test]
fn literals_alone_leave_the_other_streams_empty() {
    let cmds = [1, b'x'];
    let out = lzss_huf3_encode(&cmds);
    assert_eq!(out.len(), 8 + 261 + 261);
    assert_eq!(lzss_huf3_decode(&out), Ok(cmds.to_vec()));
    let out = lzss_huf4_encode(&cmds);
    assert_eq!(out.len(), 12 + 261 + 261);
    assert_eq!(lzss_huf4_decode(&out), Ok(cmds.to_vec()));
}

#[test]
fn bad_three_streams_are_refused() {
    assert_eq!(lzss_huf3_decode(&[0; 7]), Err(Error::Huf3TooShort));
    assert_eq!(
        lzss_huf3_decode(&[1, 0, 0, 0, 0, 0, 0, 0]),
        Err(Error::Huf3SectionOverflow)
    );
    assert_eq!(lzss_huf3_decode(&[255; 8]), Err(Error::Huf3SectionOverflow));
    assert_eq!(lzss_huf3_decode(&[0; 8]), Err(Error::HuffmanTooShort));
    let run = huffman_encode(&[3]);
    let lits = [le32(run.len()), le32(0), run].concat();
    assert_eq!(lzss_huf3_decode(&lits), Err(Error::Huf3LitsTruncated));
    let reference = huffman_encode(&[0x90]);
    let offs = [le32(reference.len()), le32(0), reference].concat();
    assert_eq!(lzss_huf3_decode(&offs), Err(Error::Huf3OffsTruncated));
}

#[test]
fn bad_four_streams_are_refused() {
    assert_eq!(lzss_huf4_decode(&[0; 11]), Err(Error::Huf4TooShort));
    assert_eq!(lzss_huf4_decode(&[255; 12]), Err(Error::Huf4SectionOverflow));
    assert_eq!(lzss_huf4_decode(&[0; 12]), Err(Error::HuffmanTooShort));
    let run = huffman_encode(&[3]);
    let lits = [le32(run.len()), le32(0), le32(0), run].concat();
    assert_eq!(lzss_huf4_decode(&lits), Err(Error::Huf4LitsTruncated));
    let reference = huffman_encode(&[0x90]);
    let lows = huffman_encode(&[5]);
    let offs = [le32(reference.len()), le32(0), le32(lows.len()), reference, lows].concat();
    assert_eq!(lzss_huf4_decode(&offs), Err(Error::Huf4OffsTruncated));
}

#[test]
fn commands_add_one_byte_for_each_run() {
    for n in [1usize, 3, 4, 127, 128, 129, 1000] {
        let mut x = 77u32;
        let mut data = Vec::new();
        for _ in 0..n {
            x = x.wrapping_mul(1664525).wrapping_add(1013904223);
            data.push((x >> 24) as u8);
        }
        assert_eq!(lzss_compress(b"", &data).len(), n + (n + 127) / 128);
    }
}
