//! Filters for two interleaved channels of 16-bit little-endian samples.

use crate::predict;
use crate::sample;
use vstd::arithmetic::div_mod::*;
use vstd::prelude::*;
use vstd::slice::{slice_subrange, slice_to_vec};

verus! {

/// The samples at even places: the left channel of two.
pub open spec fn evens(x: Seq<int>) -> Seq<int> {
    Seq::new(x.len() / 2, |k: int| x[2 * k])
}

/// The samples at odd places: the right channel of two.
pub open spec fn odds(x: Seq<int>) -> Seq<int> {
    Seq::new(x.len() / 2, |k: int| x[2 * k + 1])
}

/// Two channels taken in turn.
pub open spec fn interleaved(left: Seq<int>, right: Seq<int>) -> Seq<int> {
    Seq::new(
        2 * left.len(),
        |i: int|
            if i % 2 == 0 {
                left[i / 2]
            } else {
                right[i / 2]
            },
    )
}

/// The distance of the right channel from the left one.
pub open spec fn side(left: Seq<int>, right: Seq<int>) -> Seq<int> {
    Seq::new(left.len(), |k: int| (right[k] - left[k]) % 65536)
}

/// The right channel at a given distance from the left one.
pub open spec fn unside(left: Seq<int>, distance: Seq<int>) -> Seq<int> {
    Seq::new(left.len(), |k: int| (distance[k] + left[k]) % 65536)
}

/// A byte string consists of whole pairs of samples, as many as the order at least.
pub open spec fn is_stereo(n: int, order: int) -> bool {
    n % 4 == 0 && n >= 4 * order
}

/// The residuals of the left channel and of the distance of the right channel from it.
pub open spec fn lside_filtered(data: Seq<u8>, order: int) -> Seq<u8> {
    if is_stereo(data.len() as int, order) {
        let left = evens(sample::samples(data));
        let right = odds(sample::samples(data));
        sample::sample_bytes(
            interleaved(
                sample::s16_residuals(left, order),
                sample::s16_residuals(side(left, right), order),
            ),
        )
    } else {
        data
    }
}

/// The two channels whose residuals are given.
pub open spec fn lside_unfiltered(data: Seq<u8>, order: int) -> Seq<u8> {
    if is_stereo(data.len() as int, order) {
        let left = sample::s16_restored(evens(sample::samples(data)), order);
        let distance = sample::s16_restored(odds(sample::samples(data)), order);
        sample::sample_bytes(interleaved(left, unside(left, distance)))
    } else {
        data
    }
}

/// The residuals of the left channel, then those of the right channel.
pub open spec fn stereo_planar_filtered(data: Seq<u8>, order: int) -> Seq<u8> {
    if is_stereo(data.len() as int, order) {
        sample::sample_bytes(
            sample::s16_residuals(evens(sample::samples(data)), order) + sample::s16_residuals(
                odds(sample::samples(data)),
                order,
            ),
        )
    } else {
        data
    }
}

/// The bytes of two channels, two bytes of each in turn, as many as make up whole pairs of samples
/// in `n` bytes; zeros fill up the rest.
pub open spec fn woven(left: Seq<u8>, right: Seq<u8>, n: int) -> Seq<u8> {
    Seq::new(
        n as nat,
        |i: int|
            if i >= n / 4 * 4 {
                0u8
            } else if i % 4 < 2 {
                left[i / 4 * 2 + i % 4]
            } else {
                right[i / 4 * 2 + i % 4 - 2]
            },
    )
}

/// The two channels that stand one after the other in `data`, restored and taken in turn.
pub open spec fn stereo_planar_unfiltered(data: Seq<u8>, n: int, order: int) -> Seq<u8> {
    let half = n / 4 * 2;
    woven(
        sample::s16_unfiltered(data.subrange(0, half), order),
        sample::s16_unfiltered(data.subrange(half, 2 * half), order),
        n,
    )
}

/// Weaving the two channels of a byte string gives that string.
proof fn lemma_woven_channels(data: Seq<u8>)
    requires
        data.len() % 4 == 0,
    ensures
        woven(
            sample::sample_bytes(evens(sample::samples(data))),
            sample::sample_bytes(odds(sample::samples(data))),
            data.len() as int,
        ) == data,
{
    let x = sample::samples(data);
    let l = evens(x);
    let r = odds(x);
    let out = woven(sample::sample_bytes(l), sample::sample_bytes(r), data.len() as int);
    assert forall|i: int| 0 <= i < data.len() implies out[i] == data[i] by {
        let q = i / 4;
        let j = i % 4;
        assert(i == 4 * q + j);
        assert(l[q] == data[4 * q] + 256 * data[4 * q + 1]);
        assert(r[q] == data[4 * q + 2] + 256 * data[4 * q + 3]);
        if j < 2 {
            assert((q * 2 + j) / 2 == q && (q * 2 + j) % 2 == j);
        } else {
            assert((q * 2 + j - 2) / 2 == q && (q * 2 + j - 2) % 2 == j - 2);
        }
    }
    assert(out =~= data);
}

proof fn lemma_channels_within(data: Seq<u8>)
    ensures
        predict::within(evens(sample::samples(data)), 65536),
        predict::within(odds(sample::samples(data)), 65536),
{
    let x = sample::samples(data);
    sample::lemma_samples_within(data);
    assert forall|k: int| 0 <= k < evens(x).len() implies 0 <= #[trigger] evens(x)[k] < 65536 by {
        assert(0 <= x[2 * k] < 65536);
    }
    assert forall|k: int| 0 <= k < odds(x).len() implies 0 <= #[trigger] odds(x)[k] < 65536 by {
        assert(0 <= x[2 * k + 1] < 65536);
    }
}

proof fn lemma_interleaved_push(a: Seq<int>, b: Seq<int>, x: int, y: int)
    requires
        a.len() == b.len(),
    ensures
        interleaved(a.push(x), b.push(y)) == interleaved(a, b).push(x).push(y),
{
    assert(interleaved(a.push(x), b.push(y)) =~= interleaved(a, b).push(x).push(y));
}

/// Interleaving puts the channels back where they were.
proof fn lemma_interleaved_channels(x: Seq<int>)
    requires
        x.len() % 2 == 0,
    ensures
        interleaved(evens(x), odds(x)) == x,
{
    assert forall|i: int| 0 <= i < x.len() implies interleaved(evens(x), odds(x))[i] == x[i] by {
        let k = i / 2;
        assert(2 * k == i || 2 * k + 1 == i);
    }
    assert(interleaved(evens(x), odds(x)) =~= x);
}

/// The channels of interleaved channels.
proof fn lemma_channels_of_interleaved(a: Seq<int>, b: Seq<int>)
    requires
        a.len() == b.len(),
    ensures
        evens(interleaved(a, b)) == a,
        odds(interleaved(a, b)) == b,
{
    assert(evens(interleaved(a, b)) =~= a);
    assert(odds(interleaved(a, b)) =~= b);
}

proof fn lemma_interleaved_within(a: Seq<int>, b: Seq<int>)
    requires
        a.len() == b.len(),
        predict::within(a, 65536),
        predict::within(b, 65536),
    ensures
        predict::within(interleaved(a, b), 65536),
{
}

proof fn lemma_bytes_of_both(a: Seq<int>, b: Seq<int>)
    ensures
        sample::sample_bytes(a + b) == sample::sample_bytes(a) + sample::sample_bytes(b),
{
    assert(sample::sample_bytes(a + b) =~= sample::sample_bytes(a) + sample::sample_bytes(b));
}

/// The right channel comes back from its distance to the left one.
proof fn lemma_unside(l: Seq<int>, r: Seq<int>)
    requires
        l.len() == r.len(),
        predict::within(r, 65536),
    ensures
        unside(l, side(l, r)) == r,
        predict::within(side(l, r), 65536),
{
    assert forall|k: int| 0 <= k < r.len() implies unside(l, side(l, r))[k] == r[k] by {
        lemma_add_mod_noop_right(l[k], r[k] - l[k], 65536);
        assert(0 <= r[k] < 65536);
    }
    assert(unside(l, side(l, r)) =~= r);
}

/// The two channels of `data`, each in bytes of its own; of the right channel the distance from
/// the left one if `as_side` is set.
fn split_channels(data: &[u8], as_side: bool) -> (out: (Vec<u8>, Vec<u8>))
    ensures
        out.0@ == sample::sample_bytes(evens(sample::samples(data@))),
        out.1@ == sample::sample_bytes(
            if as_side {
                side(evens(sample::samples(data@)), odds(sample::samples(data@)))
            } else {
                odds(sample::samples(data@))
            },
        ),
{
    let frames: usize = data.len() / 4;
    let mut left: Vec<u8> = Vec::new();
    let mut right: Vec<u8> = Vec::new();
    let ghost l = evens(sample::samples(data@));
    let ghost r = if as_side {
        side(l, odds(sample::samples(data@)))
    } else {
        odds(sample::samples(data@))
    };
    let mut i: usize = 0;
    assert(left@ =~= sample::sample_bytes(l.take(0)));
    assert(right@ =~= sample::sample_bytes(r.take(0)));
    while i < frames
        invariant
            frames == data@.len() / 4,
            i <= frames,
            l == evens(sample::samples(data@)),
            r == if as_side {
                side(l, odds(sample::samples(data@)))
            } else {
                odds(sample::samples(data@))
            },
            left@ == sample::sample_bytes(l.take(i as int)),
            right@ == sample::sample_bytes(r.take(i as int)),
        decreases frames - i,
    {
        assert(data.len() == data@.len());
        let a: u16 = sample::sample_at(data, 2 * i);
        let b: u16 = sample::sample_at(data, 2 * i + 1);
        let c: u16 = if as_side {
            ((b as u32 + 65536 - a as u32) % 65536) as u16
        } else {
            b
        };
        sample::push_sample(&mut left, a);
        sample::push_sample(&mut right, c);
        proof {
            let k = i as int;
            sample::lemma_push_sample(l.take(k), a as int);
            sample::lemma_push_sample(r.take(k), c as int);
            assert(l[k] == a);
            assert(r[k] == c);
            assert(l.take(k + 1) =~= l.take(k).push(l[k]));
            assert(r.take(k + 1) =~= r.take(k).push(r[k]));
        }
        i = i + 1;
    }
    assert(l.take(frames as int) =~= l);
    assert(r.take(frames as int) =~= r);
    (left, right)
}

/// Two channels taken in turn; the right one is at the given distance from the left one if
/// `as_side` is set.
fn merge_channels(left: &[u8], right: &[u8], as_side: bool) -> (out: Vec<u8>)
    requires
        left@.len() == right@.len(),
    ensures
        out@ == sample::sample_bytes(
            interleaved(
                sample::samples(left@),
                if as_side {
                    unside(sample::samples(left@), sample::samples(right@))
                } else {
                    sample::samples(right@)
                },
            ),
        ),
{
    let n: usize = left.len() / 2;
    let mut out: Vec<u8> = Vec::new();
    let ghost l = sample::samples(left@);
    let ghost r = if as_side {
        unside(l, sample::samples(right@))
    } else {
        sample::samples(right@)
    };
    let mut i: usize = 0;
    assert(out@ =~= sample::sample_bytes(interleaved(l.take(0), r.take(0))));
    while i < n
        invariant
            left@.len() == right@.len(),
            n == left@.len() / 2,
            i <= n,
            l == sample::samples(left@),
            r == if as_side {
                unside(l, sample::samples(right@))
            } else {
                sample::samples(right@)
            },
            out@ == sample::sample_bytes(interleaved(l.take(i as int), r.take(i as int))),
        decreases n - i,
    {
        let a: u16 = sample::sample_at(left, i);
        let d: u16 = sample::sample_at(right, i);
        let b: u16 = if as_side {
            ((d as u32 + a as u32) % 65536) as u16
        } else {
            d
        };
        sample::push_sample(&mut out, a);
        sample::push_sample(&mut out, b);
        proof {
            let k = i as int;
            let before = interleaved(l.take(k), r.take(k));
            sample::lemma_push_sample(before, a as int);
            sample::lemma_push_sample(before.push(a as int), b as int);
            lemma_interleaved_push(l.take(k), r.take(k), a as int, b as int);
            assert(l[k] == a);
            assert(r[k] == b);
            assert(l.take(k + 1) =~= l.take(k).push(l[k]));
            assert(r.take(k + 1) =~= r.take(k).push(r[k]));
        }
        i = i + 1;
    }
    assert(l.take(n as int) =~= l);
    assert(r.take(n as int) =~= r);
    out
}

/// Residuals of the left channel and of the distance of the right channel from it.
fn lside_s16_encode(data: &[u8], order: u8) -> (out: Vec<u8>)
    requires
        2 <= order <= 3,
    ensures
        out@ == lside_filtered(data@, order as int),
{
    let n: usize = data.len();
    if n % 4 != 0 || n < 4 * order as usize {
        return slice_to_vec(data);
    }
    let (left, right): (Vec<u8>, Vec<u8>) = split_channels(data, true);
    let left_enc: Vec<u8> = sample::s16_encode(left.as_slice(), order);
    let right_enc: Vec<u8> = sample::s16_encode(right.as_slice(), order);
    proof {
        let l = evens(sample::samples(data@));
        let d = side(l, odds(sample::samples(data@)));
        lemma_channels_within(data@);
        sample::lemma_filtered_samples(l, order as int);
        sample::lemma_filtered_samples(d, order as int);
    }
    merge_channels(left_enc.as_slice(), right_enc.as_slice(), false)
}

/// The channels whose residuals are given.
fn lside_s16_decode(data: Vec<u8>, order: u8) -> (out: Vec<u8>)
    requires
        2 <= order <= 3,
    ensures
        out@ == lside_unfiltered(data@, order as int),
{
    let n: usize = data.len();
    if n % 4 != 0 || n < 4 * order as usize {
        return data;
    }
    let (left, right): (Vec<u8>, Vec<u8>) = split_channels(data.as_slice(), false);
    let left_dec: Vec<u8> = sample::s16_decode(left, order);
    let right_dec: Vec<u8> = sample::s16_decode(right, order);
    proof {
        let l = evens(sample::samples(data@));
        let d = odds(sample::samples(data@));
        lemma_channels_within(data@);
        sample::lemma_unfiltered_samples(l, order as int);
        sample::lemma_unfiltered_samples(d, order as int);
    }
    merge_channels(left_dec.as_slice(), right_dec.as_slice(), true)
}

/// Second-order residuals of the left channel and of the distance of the right one from it.
pub fn lside_s16_o2_encode(data: &[u8]) -> (out: Vec<u8>)
    ensures
        out@ == lside_filtered(data@, 2),
{
    lside_s16_encode(data, 2)
}

/// Two channels from the second-order residuals of the left one and of the distance.
pub fn lside_s16_o2_decode(data: Vec<u8>) -> (out: Vec<u8>)
    ensures
        out@ == lside_unfiltered(data@, 2),
{
    lside_s16_decode(data, 2)
}

/// Third-order residuals of the left channel and of the distance of the right one from it.
pub fn lside_s16_o3_encode(data: &[u8]) -> (out: Vec<u8>)
    ensures
        out@ == lside_filtered(data@, 3),
{
    lside_s16_encode(data, 3)
}

/// Two channels from the third-order residuals of the left one and of the distance.
pub fn lside_s16_o3_decode(data: Vec<u8>) -> (out: Vec<u8>)
    ensures
        out@ == lside_unfiltered(data@, 3),
{
    lside_s16_decode(data, 3)
}

/// The residuals of the left channel, then those of the right channel.
fn stereo_planar_s16_encode(input: &[u8], order: u8) -> (out: Vec<u8>)
    requires
        2 <= order <= 3,
    ensures
        out@ == stereo_planar_filtered(input@, order as int),
{
    let n: usize = input.len();
    if n % 4 != 0 || n < 4 * order as usize {
        return slice_to_vec(input);
    }
    let (left, right): (Vec<u8>, Vec<u8>) = split_channels(input, false);
    let mut out: Vec<u8> = sample::s16_encode(left.as_slice(), order);
    let right_enc: Vec<u8> = sample::s16_encode(right.as_slice(), order);
    crate::bytes::append(&mut out, right_enc.as_slice());
    proof {
        let l = evens(sample::samples(input@));
        let r = odds(sample::samples(input@));
        lemma_channels_within(input@);
        sample::lemma_filtered_samples(l, order as int);
        sample::lemma_filtered_samples(r, order as int);
        lemma_bytes_of_both(
            sample::s16_residuals(l, order as int),
            sample::s16_residuals(r, order as int),
        );
    }
    out
}

/// Two channels that stand one after the other, restored and taken in turn.
fn stereo_planar_s16_decode(data: &[u8], orig_len: usize, order: u8) -> (out: Vec<u8>)
    requires
        2 <= order <= 3,
        orig_len / 4 * 4 <= data@.len(),
    ensures
        out@ == stereo_planar_unfiltered(data@, orig_len as int, order as int),
{
    let frames: usize = orig_len / 4;
    let half: usize = frames * 2;
    let left: Vec<u8> = sample::s16_decode(slice_to_vec(slice_subrange(data, 0, half)), order);
    let right: Vec<u8> = sample::s16_decode(
        slice_to_vec(slice_subrange(data, half, half * 2)),
        order,
    );
    proof {
        sample::lemma_unfiltered_len(data@.subrange(0, half as int), order as int);
        sample::lemma_unfiltered_len(data@.subrange(half as int, half * 2), order as int);
    }
    let mut out: Vec<u8> = Vec::with_capacity(orig_len);
    let ghost result = stereo_planar_unfiltered(data@, orig_len as int, order as int);
    let mut i: usize = 0;
    while i < frames
        invariant
            frames == orig_len / 4,
            half == frames * 2,
            i <= frames,
            half * 2 <= data@.len(),
            left@.len() == half,
            right@.len() == half,
            left@ == sample::s16_unfiltered(data@.subrange(0, half as int), order as int),
            right@ == sample::s16_unfiltered(data@.subrange(half as int, half * 2), order as int),
            result == stereo_planar_unfiltered(data@, orig_len as int, order as int),
            out@ == result.take(4 * i),
        decreases frames - i,
    {
        out.push(left[i * 2]);
        out.push(left[i * 2 + 1]);
        out.push(right[i * 2]);
        out.push(right[i * 2 + 1]);
        proof {
            let k = 4 * i as int;
            assert(result[k] == left@[i * 2]);
            assert(result[k + 1] == left@[i * 2 + 1]);
            assert(result[k + 2] == right@[i * 2]);
            assert(result[k + 3] == right@[i * 2 + 1]);
        }
        i = i + 1;
        assert(out@ =~= result.take(4 * i));
    }
    while out.len() < orig_len
        invariant
            half == orig_len / 4 * 2,
            2 * half <= out@.len() <= orig_len,
            result == stereo_planar_unfiltered(data@, orig_len as int, order as int),
            out@ == result.take(out@.len() as int),
        decreases orig_len - out@.len(),
    {
        out.push(0);
        assert(out@ =~= result.take(out@.len() as int));
    }
    assert(out@ =~= result);
    out
}

/// The second-order residuals of the left channel, then those of the right one.
pub fn stereo_planar_s16_o2_encode(input: &[u8]) -> (out: Vec<u8>)
    ensures
        out@ == stereo_planar_filtered(input@, 2),
{
    stereo_planar_s16_encode(input, 2)
}

/// Two channels from their second-order residuals, which stand one after the other.
pub fn stereo_planar_s16_o2_decode(data: &[u8], orig_len: usize) -> (out: Vec<u8>)
    requires
        orig_len / 4 * 4 <= data@.len(),
    ensures
        out@ == stereo_planar_unfiltered(data@, orig_len as int, 2),
{
    stereo_planar_s16_decode(data, orig_len, 2)
}

/// The third-order residuals of the left channel, then those of the right one.
pub fn stereo_planar_s16_o3_encode(input: &[u8]) -> (out: Vec<u8>)
    ensures
        out@ == stereo_planar_filtered(input@, 3),
{
    stereo_planar_s16_encode(input, 3)
}

/// Two channels from their third-order residuals, which stand one after the other.
pub fn stereo_planar_s16_o3_decode(data: &[u8], orig_len: usize) -> (out: Vec<u8>)
    requires
        orig_len / 4 * 4 <= data@.len(),
    ensures
        out@ == stereo_planar_unfiltered(data@, orig_len as int, 3),
{
    stereo_planar_s16_decode(data, orig_len, 3)
}

/// The left-side filter loses nothing.
pub proof fn lemma_lside_round_trip(data: Seq<u8>, order: int)
    requires
        order >= 0,
    ensures
        lside_unfiltered(lside_filtered(data, order), order) == data,
{
    if is_stereo(data.len() as int, order) {
        let x = sample::samples(data);
        let l = evens(x);
        let r = odds(x);
        let d = side(l, r);
        let lr = sample::s16_residuals(l, order);
        let dr = sample::s16_residuals(d, order);
        lemma_channels_within(data);
        lemma_unside(l, r);
        sample::lemma_residuals_within(l, order);
        sample::lemma_residuals_within(d, order);
        lemma_interleaved_within(lr, dr);
        sample::lemma_samples_of_bytes(interleaved(lr, dr));
        lemma_channels_of_interleaved(lr, dr);
        sample::lemma_s16_restore_residuals(l, order);
        sample::lemma_s16_restore_residuals(d, order);
        lemma_interleaved_channels(x);
        sample::lemma_bytes_of_samples(data);
    }
}

/// The stereo planar filter loses nothing on whole pairs of samples. The lengths that are left
/// out are those on which filtering does nothing while taking it back swaps or drops bytes.
pub proof fn lemma_stereo_planar_round_trip(data: Seq<u8>, order: int)
    requires
        order >= 2,
        data.len() % 4 == 0,
        data.len() <= 4 || data.len() >= 4 * order,
    ensures
        stereo_planar_unfiltered(
            stereo_planar_filtered(data, order),
            data.len() as int,
            order,
        ) == data,
{
    let n = data.len() as int;
    let f = stereo_planar_filtered(data, order);
    let half = n / 4 * 2;
    let out = stereo_planar_unfiltered(f, n, order);
    if is_stereo(n, order) {
        let x = sample::samples(data);
        let l = evens(x);
        let r = odds(x);
        let lr = sample::s16_residuals(l, order);
        let rr = sample::s16_residuals(r, order);
        lemma_channels_within(data);
        sample::lemma_residuals_within(l, order);
        sample::lemma_residuals_within(r, order);
        lemma_bytes_of_both(lr, rr);
        assert(f.subrange(0, half) =~= sample::sample_bytes(lr));
        assert(f.subrange(half, 2 * half) =~= sample::sample_bytes(rr));
        sample::lemma_unfiltered_samples(lr, order);
        sample::lemma_unfiltered_samples(rr, order);
        sample::lemma_s16_restore_residuals(l, order);
        sample::lemma_s16_restore_residuals(r, order);
        lemma_woven_channels(data);
    } else {
        assert forall|i: int| 0 <= i < n implies out[i] == data[i] by {
            assert(half == 2);
        }
        assert(out =~= data);
    }
}

} // verus!
