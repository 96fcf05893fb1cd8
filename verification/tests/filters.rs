use lzc::delta::{
    delta1_decode, delta2_decode, delta_n_decode, delta_n_encode, delta_n_order2_decode,
    delta_n_order2_encode, leftside_decode, leftside_encode,
};
use lzc::filter::Filter;
use lzc::planar::{
    planar_delta_decode, planar_delta_encode, planar_o2_delta_decode, planar_o2_delta_encode,
};
use lzc::sample::{
    delta_s16_o2_decode, delta_s16_o2_encode, delta_s16_o3_decode, delta_s16_o3_encode,
};
use lzc::stereo::{
    lside_s16_o2_decode, lside_s16_o2_encode, lside_s16_o3_decode, lside_s16_o3_encode,
    stereo_planar_s16_o2_decode, stereo_planar_s16_o2_encode, stereo_planar_s16_o3_decode,
    stereo_planar_s16_o3_encode,
};

fn noise(n: usize, seed: u32) -> Vec<u8> {
    let mut x = seed;
    let mut v = Vec::new();
    for _ in 0..n {
        x = x.wrapping_mul(1664525).wrapping_add(1013904223);
        v.push((x >> 24) as u8);
    }
    v
}

fn le16(samples: &[i16]) -> Vec<u8> {
    let mut v = Vec::new();
    for s in samples {
        v.extend_from_slice(&s.to_le_bytes());
    }
    v
}

#[test]
fn delta_takes_distances_at_a_stride() {
    assert_eq!(delta_n_encode(&[10, 12, 15, 15], 1), vec![10, 2, 3, 0]);
    assert_eq!(delta_n_encode(&[10, 12, 15, 15], 2), vec![10, 12, 5, 3]);
    assert_eq!(delta_n_encode(&[10, 5], 1), vec![10, 251]);
    assert_eq!(delta_n_encode(&[10, 5], 4), vec![10, 5]);
    assert_eq!(delta_n_encode(&[], 3), Vec::<u8>::new());
}

#[test]
fn delta_comes_back() {
    let data = noise(101, 7);
    for stride in 1..6 {
        assert_eq!(delta_n_decode(delta_n_encode(&data, stride), stride), data);
        assert_eq!(delta_n_order2_decode(delta_n_order2_encode(&data, stride), stride), data);
    }
    assert_eq!(delta1_decode(vec![10, 2, 3, 0]), vec![10, 12, 15, 15]);
    assert_eq!(delta2_decode(vec![10, 12, 5, 3]), vec![10, 12, 15, 15]);
}

#[test]
fn order_two_takes_distances_from_a_line() {
    assert_eq!(delta_n_order2_encode(&[10, 12, 15, 15], 1), vec![10, 2, 1, 253]);
    assert_eq!(
        delta_n_order2_encode(&[1, 2, 3, 5, 7, 9], 2),
        vec![1, 2, 2, 3, 2, 1]
    );
    assert_eq!(delta_n_order2_decode(vec![10, 2, 1, 253], 1), vec![10, 12, 15, 15]);
}

#[test]
fn left_half_is_taken_from_the_right_half() {
    assert_eq!(leftside_encode(&[1, 2, 10, 20, 9]), vec![1, 2, 9, 18, 9]);
    assert_eq!(leftside_decode(vec![1, 2, 9, 18, 9]), vec![1, 2, 10, 20, 9]);
    assert_eq!(leftside_encode(&[5, 6, 1, 2]), vec![5, 6, 252, 252]);
    let data = noise(103, 1);
    assert_eq!(leftside_decode(leftside_encode(&data)), data);
}

#[test]
fn samples_second_order() {
    let data = le16(&[100, 110, 125, 130]);
    let enc = vec![100, 0, 10, 0, 5, 0, 246, 255];
    assert_eq!(delta_s16_o2_encode(&data), enc);
    assert_eq!(delta_s16_o2_decode(enc), data);
}

#[test]
fn samples_third_order() {
    let data = le16(&[100, 110, 125, 130]);
    let enc = vec![100, 0, 10, 0, 5, 0, 241, 255];
    assert_eq!(delta_s16_o3_encode(&data), enc);
    assert_eq!(delta_s16_o3_decode(enc), data);
}

#[test]
fn samples_wrap() {
    let data = le16(&[i16::MIN, i16::MAX, i16::MIN, -1, i16::MAX, 0]);
    assert_eq!(delta_s16_o2_decode(delta_s16_o2_encode(&data)), data);
    assert_eq!(delta_s16_o3_decode(delta_s16_o3_encode(&data)), data);
    assert_eq!(delta_s16_o2_encode(&le16(&[i16::MIN, i16::MAX])), vec![0, 128, 255, 255]);
}

#[test]
fn strings_that_are_no_samples_stay() {
    assert_eq!(delta_s16_o2_encode(&[1, 2, 3, 4, 5]), vec![1, 2, 3, 4, 5]);
    assert_eq!(delta_s16_o2_encode(&[1, 2]), vec![1, 2]);
    assert_eq!(delta_s16_o3_encode(&[1, 2, 3, 4]), vec![1, 2, 3, 4]);
    assert_eq!(delta_s16_o3_decode(vec![1, 2, 3, 4]), vec![1, 2, 3, 4]);
    assert_eq!(lside_s16_o2_encode(&[1, 2, 3, 4]), vec![1, 2, 3, 4]);
    assert_eq!(lside_s16_o3_encode(&[9; 8]), vec![9; 8]);
    assert_eq!(lside_s16_o3_decode(vec![9; 10]), vec![9; 10]);
    assert_eq!(stereo_planar_s16_o2_encode(&[1, 2, 3, 4, 5, 6]), vec![1, 2, 3, 4, 5, 6]);
}

#[test]
fn stereo_side_second_order() {
    let data = le16(&[100, 103, 110, 112, 125, 130]);
    let enc = vec![100, 0, 3, 0, 10, 0, 255, 255, 5, 0, 4, 0];
    assert_eq!(lside_s16_o2_encode(&data), enc);
    assert_eq!(lside_s16_o2_decode(enc), data);
}

#[test]
fn stereo_side_third_order() {
    let data = le16(&[100, 103, 110, 112, 125, 130, 130, 131]);
    let enc = vec![100, 0, 3, 0, 10, 0, 255, 255, 5, 0, 4, 0, 241, 255, 245, 255];
    assert_eq!(lside_s16_o3_encode(&data), enc);
    assert_eq!(lside_s16_o3_decode(enc), data);
}

#[test]
fn channels_one_after_the_other_second_order() {
    let data = le16(&[100, 103, 110, 112, 125, 130]);
    let enc = vec![100, 0, 10, 0, 5, 0, 103, 0, 9, 0, 9, 0];
    assert_eq!(stereo_planar_s16_o2_encode(&data), enc);
    assert_eq!(stereo_planar_s16_o2_decode(&enc, 12), data);
}

#[test]
fn channels_one_after_the_other_third_order() {
    let data = le16(&[100, 103, 110, 112, 125, 130, 130, 131]);
    let enc = vec![100, 0, 10, 0, 5, 0, 241, 255, 103, 0, 9, 0, 9, 0, 230, 255];
    assert_eq!(stereo_planar_s16_o3_encode(&data), enc);
    assert_eq!(stereo_planar_s16_o3_decode(&enc, 16), data);
}

#[test]
fn two_frames_do_not_come_back_at_the_third_order() {
    let data = [1, 2, 3, 4, 5, 6, 7, 8];
    assert_eq!(stereo_planar_s16_o3_encode(&data), data.to_vec());
    assert_eq!(stereo_planar_s16_o3_decode(&data, 8), vec![1, 2, 5, 6, 3, 4, 7, 8]);
}

#[test]
fn planes_first_order() {
    let data = [1, 10, 2, 20, 4, 40, 7];
    let enc = vec![1, 1, 2, 10, 10, 20, 7];
    assert_eq!(planar_delta_encode(&data, 2), enc);
    assert_eq!(planar_delta_decode(&enc, 2, 7), data.to_vec());
}

#[test]
fn planes_second_order() {
    let data = [1, 10, 2, 20, 4, 40, 7];
    let enc = vec![1, 1, 1, 10, 10, 10, 7];
    assert_eq!(planar_o2_delta_encode(&data, 2), enc);
    assert_eq!(planar_o2_delta_decode(&enc, 2, 7), data.to_vec());
}

fn all_filters() -> Vec<Filter> {
    let mut v = vec![
        Filter::Plain,
        Filter::LsideD4,
        Filter::LsideD4O2,
        Filter::S16O2,
        Filter::S16O3,
        Filter::LsideS16O2,
        Filter::LsideS16O3,
        Filter::StereoS16O2,
        Filter::StereoS16O3,
    ];
    for k in 1..5 {
        v.push(Filter::Delta(k));
        v.push(Filter::DeltaO2(k));
        v.push(Filter::Planar(k));
        v.push(Filter::PlanarO2(k));
    }
    v
}

#[test]
fn every_filter_comes_back_and_keeps_the_length() {
    for n in [12, 16, 400, 1024] {
        let data = noise(n, n as u32);
        for f in all_filters() {
            let filtered = f.apply(&data);
            assert_eq!(filtered.len(), n);
            assert_eq!(f.undo(filtered), data);
        }
    }
    for n in [0, 1, 2, 3, 5, 7, 99] {
        let data = noise(n, 3);
        for f in all_filters() {
            if f != Filter::StereoS16O2 && f != Filter::StereoS16O3 {
                assert_eq!(f.undo(f.apply(&data)), data);
            }
        }
    }
}

#[test]
fn filters_are_the_ones_they_name() {
    let data = le16(&[100, 103, 110, 112, 125, 130, 130, 131]);
    assert_eq!(Filter::Plain.apply(&data), data);
    assert_eq!(Filter::Delta(3).apply(&data), delta_n_encode(&data, 3));
    assert_eq!(Filter::DeltaO2(3).apply(&data), delta_n_order2_encode(&data, 3));
    assert_eq!(Filter::LsideD4.apply(&data), delta_n_encode(&leftside_encode(&data), 4));
    assert_eq!(
        Filter::LsideD4O2.apply(&data),
        delta_n_order2_encode(&leftside_encode(&data), 4)
    );
    assert_eq!(Filter::S16O3.apply(&data), delta_s16_o3_encode(&data));
    assert_eq!(Filter::Planar(4).apply(&data), planar_delta_encode(&data, 4));
    assert_eq!(Filter::PlanarO2(4).apply(&data), planar_o2_delta_encode(&data, 4));
    assert_eq!(Filter::StereoS16O2.apply(&data), stereo_planar_s16_o2_encode(&data));
}

#[test]
fn tally_counts_filtered_bytes() {
    let freq = Filter::Delta(1).tally(&[10, 12, 14, 16]);
    assert_eq!(freq[10], 1);
    assert_eq!(freq[2], 3);
    assert_eq!(freq[12], 0);
    let raw = Filter::Plain.tally(&[10, 12, 14, 12]);
    assert_eq!(raw[12], 2);
}
