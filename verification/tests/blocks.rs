use lzc::block::{
    compress_block, decode_block, push_history, BLOCK_DELTA1_LZSS, BLOCK_LZSS,
    BLOCK_PLANAR3_LZSS_HUF3, BLOCK_PLANAR4_S16_O2_LZSS_HUF4, BLOCK_STORED,
};
use lzc::error::Error;
use lzc::filter::Filter;
use lzc::huffman::huffman_encode;
use lzc::lzss::lzss_compress;
use lzc::predictor::{select_predictor, DeltaMode, Entropies};
use lzc::streams::{lzss_huf3_encode, lzss_huf4_encode};

fn flat() -> Entropies {
    Entropies {
        accept: 50,
        third_order: 40,
        planar: 30,
        stereo: 30,
        low: false,
        delta: [100; 4],
        delta_o2: [100; 4],
        lside_d4: 100,
        lside_d4_o2: 100,
        s16_o2: 100,
        s16_o3: 100,
        lside_s16_o2: 100,
        lside_s16_o3: 100,
        stereo_o2: 100,
        stereo_o3: 100,
    }
}

fn noise(n: usize, seed: u32) -> Vec<u8> {
    let mut x = seed;
    let mut v = Vec::new();
    for _ in 0..n {
        x = x.wrapping_mul(1664525).wrapping_add(1013904223);
        v.push((x >> 24) as u8);
    }
    v
}

fn mode(n: usize, e: &Entropies) -> DeltaMode {
    select_predictor(&vec![0; n], e).0
}

#[test]
fn nothing_is_selected_at_the_bound() {
    let mut e = flat();
    assert_eq!(select_predictor(&[1, 2, 3, 4], &e), (DeltaMode::Raw, Vec::new()));
    e.delta[0] = 50;
    assert_eq!(mode(12, &e), DeltaMode::Raw);
    e.delta[0] = 49;
    assert_eq!(mode(12, &e), DeltaMode::Delta1);
}

#[test]
fn the_first_of_the_lowest_is_selected() {
    let mut e = flat();
    e.delta = [20, 10, 10, 20];
    e.delta_o2 = [10, 10, 10, 10];
    assert_eq!(mode(12, &e), DeltaMode::Delta2);
    e.delta = [20; 4];
    assert_eq!(mode(12, &e), DeltaMode::Delta1O2);
    e.delta_o2[0] = 15;
    assert_eq!(mode(12, &e), DeltaMode::Delta4O2);
    e.delta_o2[3] = 15;
    assert_eq!(mode(12, &e), DeltaMode::Delta2O2);
    e.delta_o2[1] = 15;
    assert_eq!(mode(12, &e), DeltaMode::Delta3O2);
    assert_eq!(
        select_predictor(&[10, 12, 15, 15], &e),
        (DeltaMode::Delta3O2, Filter::DeltaO2(3).apply(&[10, 12, 15, 15]))
    );
}

#[test]
fn sample_predictors_depend_on_the_size() {
    let mut e = flat();
    e.s16_o2 = 10;
    assert_eq!(mode(4, &e), DeltaMode::DeltaS16O2);
    assert_eq!(mode(2, &e), DeltaMode::Raw);
    assert_eq!(mode(7, &e), DeltaMode::Raw);
    e.s16_o3 = 9;
    assert_eq!(mode(6, &e), DeltaMode::DeltaS16O3);
    assert_eq!(mode(4, &e), DeltaMode::DeltaS16O2);
    e.s16_o2 = 40;
    assert_eq!(mode(6, &e), DeltaMode::DeltaS16O2);
    e.s16_o2 = 9;
    assert_eq!(mode(6, &e), DeltaMode::DeltaS16O2);
}

#[test]
fn stereo_predictors_depend_on_the_size() {
    let mut e = flat();
    e.lside_d4 = 12;
    assert_eq!(mode(4, &e), DeltaMode::LsideD4);
    assert_eq!(mode(6, &e), DeltaMode::Raw);
    e.lside_d4_o2 = 11;
    assert_eq!(mode(4, &e), DeltaMode::LsideD4O2);
    e.lside_s16_o2 = 10;
    assert_eq!(mode(4, &e), DeltaMode::LsideD4O2);
    assert_eq!(mode(8, &e), DeltaMode::LsideS16O2);
    e.lside_s16_o3 = 9;
    assert_eq!(mode(8, &e), DeltaMode::LsideS16O2);
    assert_eq!(mode(12, &e), DeltaMode::LsideS16O3);
}

#[test]
fn only_the_order_of_figures_counts() {
    let block = noise(512, 2);
    let mut e = flat();
    e.delta = [31, 29, 28, 27];
    e.low = true;
    e.stereo_o2 = 5;
    e.stereo_o3 = 4;
    let mut f = e;
    for k in 0..4 {
        f.delta[k] = 3 * e.delta[k] - 1000;
        f.delta_o2[k] = 3 * e.delta_o2[k] - 1000;
    }
    f.accept = 3 * e.accept - 1000;
    f.third_order = 3 * e.third_order - 1000;
    f.planar = 3 * e.planar - 1000;
    f.stereo = 3 * e.stereo - 1000;
    f.lside_d4 = 3 * e.lside_d4 - 1000;
    f.lside_d4_o2 = 3 * e.lside_d4_o2 - 1000;
    f.s16_o2 = 3 * e.s16_o2 - 1000;
    f.s16_o3 = 3 * e.s16_o3 - 1000;
    f.lside_s16_o2 = 3 * e.lside_s16_o2 - 1000;
    f.lside_s16_o3 = 3 * e.lside_s16_o3 - 1000;
    f.stereo_o2 = 3 * e.stereo_o2 - 1000;
    f.stereo_o3 = 3 * e.stereo_o3 - 1000;
    assert_eq!(select_predictor(&block, &e), select_predictor(&block, &f));
    assert_eq!(compress_block(&[], &block, &e), compress_block(&[], &block, &f));
}

#[test]
fn history_keeps_the_last_bytes() {
    let mut h = Vec::new();
    push_history(&mut h, b"abc");
    push_history(&mut h, b"de");
    assert_eq!(h, b"abcde".to_vec());
    push_history(&mut h, &vec![1; 65533]);
    assert_eq!(h.len(), 65536);
    assert_eq!(h[0..4], [b'c', b'd', b'e', 1]);
    push_history(&mut h, &vec![2; 70000]);
    assert_eq!(h, vec![2; 65536]);
}

#[test]
fn history_does_not_depend_on_the_cuts() {
    let data = noise(150000, 5);
    let mut once = b"start".to_vec();
    push_history(&mut once, &data);
    let mut twice = b"start".to_vec();
    push_history(&mut twice, &data[..66000]);
    push_history(&mut twice, &data[66000..]);
    assert_eq!(once, twice);
    assert_eq!(once, data[150000 - 65536..].to_vec());
}

#[test]
fn blocks_that_do_not_shrink_are_stored() {
    let block = noise(300, 9);
    assert_eq!(compress_block(&[], &block, &flat()), (BLOCK_STORED, block));
    assert_eq!(compress_block(&[], &[], &flat()), (BLOCK_STORED, Vec::new()));
}

#[test]
fn repeats_become_references() {
    assert_eq!(
        compress_block(&[], &[b'a'; 64], &flat()),
        (BLOCK_LZSS, vec![1, b'a', 0xbc, 0, 0])
    );
    assert_eq!(compress_block(b"abcdefgh", b"abcdefgh", &flat()), (BLOCK_LZSS, vec![0x85, 7, 0]));
}

#[test]
fn a_ramp_becomes_distances() {
    let mut block = Vec::new();
    for i in 0..256 {
        block.push(i as u8);
    }
    let mut e = flat();
    e.delta[0] = 1;
    let (flag, data) = compress_block(&[], &block, &e);
    assert_eq!((flag, data.clone()), (BLOCK_DELTA1_LZSS, vec![2, 0, 1, 0xff, 0, 0, 0xf9, 0, 0]));
    assert_eq!(decode_block(&[], flag, 256, &data), Ok(block));
}

#[test]
fn planes_are_tried_on_regular_blocks() {
    let x = noise(1000, 4);
    let mut block = Vec::new();
    for i in 0..8000u32 {
        block.push((i / 40) as u8);
        block.push(x[(i % 1000) as usize]);
        block.push(200);
    }
    let mut e = flat();
    e.delta[2] = 10;
    e.accept = 0;
    let (without, _) = compress_block(&[], &block, &e);
    assert_ne!(without, BLOCK_PLANAR3_LZSS_HUF3);
    e.low = true;
    let (flag, data) = compress_block(&[], &block, &e);
    assert_eq!(flag, BLOCK_PLANAR3_LZSS_HUF3);
    let cmds = lzss_compress(&[], &Filter::Planar(3).apply(&block));
    assert_eq!(data, lzss_huf3_encode(&cmds));
    assert_eq!(decode_block(&[], flag, 24000, &data), Ok(block));
}

#[test]
fn channels_are_tried_on_regular_blocks() {
    let mut block = Vec::new();
    let x = noise(16000, 8);
    for i in 0..8000i32 {
        let left = (i * i / 100) as i16;
        let right = (i * 37 / 10) as i16 + (x[i as usize] & 1) as i16;
        block.extend_from_slice(&left.to_le_bytes());
        block.extend_from_slice(&right.to_le_bytes());
    }
    let mut e = flat();
    e.low = true;
    e.stereo_o2 = 10;
    let (flag, data) = compress_block(&[], &block, &e);
    assert_eq!(flag, BLOCK_PLANAR4_S16_O2_LZSS_HUF4);
    let cmds = lzss_compress(&[], &Filter::StereoS16O2.apply(&block));
    assert_eq!(data, lzss_huf4_encode(&cmds));
    assert_eq!(decode_block(&[], flag, 32000, &data), Ok(block));
}

fn types() -> Vec<(u8, u8, Filter)> {
    vec![
        (1, 1, Filter::Plain),
        (2, 1, Filter::Delta(2)),
        (3, 2, Filter::Plain),
        (4, 2, Filter::Delta(2)),
        (5, 1, Filter::Delta(1)),
        (6, 2, Filter::Delta(1)),
        (7, 3, Filter::Plain),
        (8, 3, Filter::Delta(1)),
        (9, 3, Filter::Delta(2)),
        (10, 1, Filter::Delta(3)),
        (11, 2, Filter::Delta(3)),
        (12, 3, Filter::Delta(3)),
        (13, 1, Filter::Delta(4)),
        (14, 2, Filter::Delta(4)),
        (15, 3, Filter::Delta(4)),
        (16, 3, Filter::DeltaO2(1)),
        (17, 3, Filter::DeltaO2(4)),
        (18, 3, Filter::LsideD4),
        (19, 3, Filter::LsideD4O2),
        (20, 3, Filter::S16O2),
        (21, 3, Filter::LsideS16O2),
        (22, 3, Filter::S16O3),
        (23, 3, Filter::LsideS16O3),
        (24, 3, Filter::DeltaO2(2)),
        (25, 3, Filter::DeltaO2(3)),
        (26, 4, Filter::Plain),
        (27, 4, Filter::S16O2),
        (28, 4, Filter::LsideS16O2),
        (29, 4, Filter::S16O3),
        (30, 4, Filter::LsideS16O3),
        (31, 3, Filter::Planar(2)),
        (32, 3, Filter::Planar(3)),
        (33, 3, Filter::Planar(4)),
        (34, 3, Filter::PlanarO2(2)),
        (35, 3, Filter::PlanarO2(3)),
        (36, 3, Filter::PlanarO2(4)),
        (37, 4, Filter::StereoS16O2),
        (38, 4, Filter::StereoS16O3),
    ]
}

#[test]
fn every_type_comes_back() {
    let mut block = noise(200, 1);
    block.extend_from_slice(&noise(100, 1));
    let history = noise(150, 1);
    for (flag, coding, filter) in types() {
        let window: &[u8] = if filter == Filter::Plain { &history } else { &[] };
        let cmds = lzss_compress(window, &filter.apply(&block));
        let data = match coding {
            1 => cmds,
            2 => huffman_encode(&cmds),
            3 => lzss_huf3_encode(&cmds),
            _ => lzss_huf4_encode(&cmds),
        };
        assert_eq!(decode_block(&history, flag, 300, &data), Ok(block.clone()));
    }
}

#[test]
fn stored_blocks_are_taken_as_they_are() {
    assert_eq!(decode_block(&[], 0, 99, b"abc"), Ok(b"abc".to_vec()));
}

#[test]
fn bad_blocks_are_refused() {
    assert_eq!(decode_block(&[], 39, 3, b"abc"), Err(Error::UnknownBlockType));
    assert_eq!(decode_block(&[], 255, 3, b"abc"), Err(Error::UnknownBlockType));
    assert_eq!(decode_block(&[], 1, 3, &[0]), Err(Error::ZeroLiteralCount));
    assert_eq!(
        decode_block(&[], 5, 3, &[1, 7]),
        Err(Error::SizeMismatch { got: 1, expected: 3 })
    );
    assert_eq!(decode_block(&[], 3, 3, &[1, 7]), Err(Error::HuffmanTooShort));
    assert_eq!(decode_block(&[], 7, 3, &[1, 7]), Err(Error::Huf3TooShort));
    assert_eq!(decode_block(&[], 26, 3, &[1, 7]), Err(Error::Huf4TooShort));
    assert_eq!(decode_block(b"abcd", 1, 4, &[0x81, 3, 0]), Ok(b"abcd".to_vec()));
    assert_eq!(decode_block(b"abcd", 5, 4, &[0x81, 3, 0]), Err(Error::BackrefOutOfBounds));
}
