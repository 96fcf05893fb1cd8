use lzc::container::{
    compress, decompress, is_magic, read_record, read_sizes, write_header, write_record,
};
use lzc::error::Error;
use lzc::filter::Filter;
use lzc::predictor::Entropies;

fn entropy(filter: Filter, block: &[u8]) -> f32 {
    let n = block.len() as f32;
    let mut h = 0.0f32;
    for f in filter.tally(block) {
        if f > 0 {
            let p = f as f32 / n;
            h -= p * p.log2();
        }
    }
    h
}

fn key(x: f32) -> i32 {
    let bits = (x + 0.0).to_bits() as i32;
    if bits < 0 {
        bits ^ 0x7fff_ffff
    } else {
        bits
    }
}

fn figures(block: &[u8]) -> Entropies {
    let raw = entropy(Filter::Plain, block);
    let of = |f: Filter| key(entropy(f, block));
    Entropies {
        accept: key(raw - 0.05),
        third_order: key(raw - 0.05 - 0.10),
        planar: key(raw - 0.5),
        stereo: key(raw - 0.3),
        low: raw < 7.0,
        delta: [
            of(Filter::Delta(1)),
            of(Filter::Delta(2)),
            of(Filter::Delta(3)),
            of(Filter::Delta(4)),
        ],
        delta_o2: [
            of(Filter::DeltaO2(1)),
            of(Filter::DeltaO2(2)),
            of(Filter::DeltaO2(3)),
            of(Filter::DeltaO2(4)),
        ],
        lside_d4: of(Filter::LsideD4),
        lside_d4_o2: of(Filter::LsideD4O2),
        s16_o2: of(Filter::S16O2),
        s16_o3: of(Filter::S16O3),
        lside_s16_o2: of(Filter::LsideS16O2),
        lside_s16_o3: of(Filter::LsideS16O3),
        stereo_o2: of(Filter::StereoS16O2),
        stereo_o3: of(Filter::StereoS16O3),
    }
}

fn packed(input: &[u8]) -> Vec<u8> {
    let e: Vec<Entropies> = input.chunks(65536).map(figures).collect();
    let mut out = Vec::new();
    compress(input, &e, &mut out);
    out
}

fn unpacked(data: &[u8]) -> (Vec<u8>, Result<(), Error>) {
    let mut out = Vec::new();
    let r = decompress(data, &mut out);
    (out, r)
}

fn check(input: &[u8]) -> Vec<u8> {
    let data = packed(input);
    let blocks = (input.len() + 65535) / 65536;
    assert!(data.len() <= 12 + input.len() + 9 * blocks);
    assert_eq!(unpacked(&data), (input.to_vec(), Ok(())));
    data
}

fn noise(n: usize, seed: u32) -> Vec<u8> {
    let mut x = seed;
    let mut v = Vec::new();
    for _ in 0..n {
        x = x.wrapping_mul(1664525).wrapping_add(1013904223);
        v.push((x >> 24) as u8);
    }
    v
}

#[test]
fn test_roundtrip() {
    let input: &[u8] = b"Hello, world!";
    let compressed = packed(input);

    let mut uncompressed = Vec::new();
    decompress(&compressed, &mut uncompressed).unwrap();

    let s = String::from_utf8(uncompressed).expect("Found invalid UTF-8");
    assert_eq!(s, "Hello, world!");
}

#[test]
fn a_short_text_is_stored() {
    let mut expected = b"LZC3".to_vec();
    expected.extend_from_slice(&[13, 0, 0, 0, 0, 0, 0, 0]);
    expected.extend_from_slice(&[0, 13, 0, 0, 0, 13, 0, 0, 0]);
    expected.extend_from_slice(b"Hello, world!");
    assert_eq!(packed(b"Hello, world!"), expected);
}

#[test]
fn an_empty_input_is_a_header() {
    let data = check(b"");
    assert_eq!(data, b"LZC3\0\0\0\0\0\0\0\0".to_vec());
}

#[test]
fn repeats_are_short() {
    let data = check(&[b'a'; 64]);
    assert_eq!(data[12..], [1, 64, 0, 0, 0, 5, 0, 0, 0, 1, b'a', 0xbc, 0, 0]);
}

#[test]
fn a_ramp_is_written_as_distances() {
    let ramp: Vec<u8> = (0..256).map(|i| i as u8).collect();
    let data = check(&ramp);
    assert_eq!(
        data[12..],
        [5, 0, 1, 0, 0, 9, 0, 0, 0, 2, 0, 1, 0xff, 0, 0, 0xf9, 0, 0]
    );
}

#[test]
fn small_inputs_come_back() {
    for n in 0..40 {
        check(&noise(n, 11));
        check(&vec![n as u8; n]);
    }
}

#[test]
fn several_blocks_come_back() {
    let mut input = noise(1000, 3);
    while input.len() < 65536 + 5000 {
        input.extend_from_slice(b"a phrase that comes again and again, ");
        let k = input.len() % 251;
        input.push(k as u8);
    }
    check(&input);
}

#[test]
fn later_blocks_refer_to_earlier_ones() {
    let first = noise(65536, 21);
    let mut input = first.clone();
    input.extend_from_slice(&first[20000..40000]);
    let data = check(&input);
    assert!(data.len() < 12 + 9 + 65536 + 9 + 600);
}

#[test]
fn sound_comes_back_smaller() {
    let mut input = Vec::new();
    for i in 0..4000 {
        let t = i as f32 / 4000.0;
        let left = (12000.0 * (t * 90.0).sin()) as i16;
        let right = left.wrapping_add((300.0 * (t * 50.0).cos()) as i16);
        input.extend_from_slice(&left.to_le_bytes());
        input.extend_from_slice(&right.to_le_bytes());
    }
    let data = check(&input);
    assert!(data.len() < input.len() / 2);
}

#[test]
fn any_figures_come_back() {
    let mut input = Vec::new();
    for i in 0..3000u32 {
        input.push((i * i / 900) as u8);
        input.push((i % 7) as u8);
        input.push(9);
        input.push((i / 11) as u8);
    }
    let base = figures(&input);
    for k in 0..12 {
        let mut e = base;
        e.low = true;
        e.accept = i32::MAX;
        e.third_order = i32::MAX;
        e.planar = i32::MAX;
        e.stereo = i32::MAX;
        match k {
            0 => e.delta[0] = -9,
            1 => e.delta[3] = -9,
            2 => e.delta_o2[1] = -9,
            3 => e.delta_o2[2] = -9,
            4 => e.lside_d4 = -9,
            5 => e.lside_d4_o2 = -9,
            6 => e.s16_o2 = -9,
            7 => e.s16_o3 = -9,
            8 => e.lside_s16_o2 = -9,
            9 => e.lside_s16_o3 = -9,
            10 => e.stereo_o3 = -9,
            _ => e.accept = i32::MIN,
        }
        let mut data = Vec::new();
        compress(&input, &[e], &mut data);
        assert_eq!(unpacked(&data), (input.clone(), Ok(())));
    }
}

#[test]
fn records_are_written_one_by_one() {
    let mut history = Vec::new();
    let mut out = Vec::new();
    write_header(&mut out, 16);
    write_record(&mut out, &mut history, b"qzmahxbw", &figures(b"qzmahxbw"));
    assert_eq!(history, b"qzmahxbw".to_vec());
    write_record(&mut out, &mut history, b"qzmahxbw", &figures(b"qzmahxbw"));
    assert_eq!(history, b"qzmahxbwqzmahxbw".to_vec());
    let mut expected = b"LZC3\x10\0\0\0\0\0\0\0".to_vec();
    expected.extend_from_slice(b"\0\x08\0\0\0\x08\0\0\0qzmahxbw");
    expected.extend_from_slice(b"\x01\x08\0\0\0\x03\0\0\0\x85\x07\0");
    assert_eq!(out, expected);
    assert_eq!(unpacked(&out), (b"qzmahxbwqzmahxbw".to_vec(), Ok(())));
}

#[test]
fn output_is_appended() {
    let mut out = b"before ".to_vec();
    let mut data = b"kept".to_vec();
    compress(b"Hello", &[figures(b"Hello")], &mut data);
    assert_eq!(data[..8], *b"keptLZC3");
    assert_eq!(decompress(&data[4..], &mut out), Ok(()));
    assert_eq!(out, b"before Hello".to_vec());
}

#[test]
fn the_size_in_the_header_is_not_looked_at() {
    let mut data = packed(b"Hello");
    data[4] = 99;
    assert_eq!(unpacked(&data), (b"Hello".to_vec(), Ok(())));
}

#[test]
fn cut_off_containers_are_refused() {
    let data = packed(b"Hello");
    for n in 0..12 {
        assert_eq!(unpacked(&data[..n]), (Vec::new(), Err(Error::UnexpectedEof)));
    }
    assert_eq!(unpacked(&data[..12]), (Vec::new(), Ok(())));
    for n in 13..data.len() {
        assert_eq!(unpacked(&data[..n]), (Vec::new(), Err(Error::UnexpectedEof)));
    }
}

#[test]
fn other_files_are_refused() {
    assert_eq!(unpacked(b"LZC2"), (Vec::new(), Err(Error::InvalidMagic)));
    assert_eq!(unpacked(b"LZ"), (Vec::new(), Err(Error::UnexpectedEof)));
    assert_eq!(unpacked(b"PK\x03\x04 and more"), (Vec::new(), Err(Error::InvalidMagic)));
}

#[test]
fn blocks_before_a_bad_one_are_kept() {
    let mut data = packed(b"Hello");
    data.extend_from_slice(&[77, 1, 0, 0, 0, 1, 0, 0, 0, 5]);
    assert_eq!(unpacked(&data), (b"Hello".to_vec(), Err(Error::UnknownBlockType)));
    let mut data = packed(b"Hello");
    data.extend_from_slice(&[1, 9, 0, 0, 0, 3, 0, 0, 0, 0x81, 4, 0]);
    assert_eq!(
        unpacked(&data),
        (b"Hello".to_vec(), Err(Error::SizeMismatch { got: 4, expected: 9 }))
    );
}

#[test]
fn records_one_by_one_make_up_the_container() {
    let mut input = noise(65536, 6);
    for i in 0..70000u32 {
        input.push((i / 300) as u8);
    }
    let mut out = Vec::new();
    let mut history = Vec::new();
    write_header(&mut out, input.len() as u64);
    for block in input.chunks(65536) {
        write_record(&mut out, &mut history, block, &figures(block));
    }
    assert_eq!(out, packed(&input));
    assert_eq!(history, input[input.len() - 65536..].to_vec());
}

#[test]
fn containers_are_read_record_by_record() {
    let data = packed(b"Hello, world!");
    assert!(is_magic(&data[..4]));
    assert!(!is_magic(b"LZC4"));
    assert_eq!(read_sizes(&data[13..21]), (13, 13));
    assert_eq!(read_sizes(&[1, 1, 0, 0, 0, 0, 0, 1]), (257, 16777216));
    let mut history = b"a".to_vec();
    assert_eq!(read_record(&mut history, data[12], 13, &data[21..]), Ok(b"Hello, world!".to_vec()));
    assert_eq!(history, b"aHello, world!".to_vec());
    assert_eq!(read_record(&mut history, 99, 13, b""), Err(Error::UnknownBlockType));
    assert_eq!(history, b"aHello, world!".to_vec());
}
