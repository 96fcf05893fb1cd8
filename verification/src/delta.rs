//! Filters that replace each byte by its distance from a prediction.

use crate::predict;
use vstd::arithmetic::div_mod::*;
use vstd::prelude::*;

verus! {

/// Each byte replaced by its distance from the prediction of the given order.
pub open spec fn filtered(data: Seq<u8>, stride: int, order: int) -> Seq<u8> {
    predict::octets(predict::residuals(predict::ints(data), stride, order, 256))
}

/// The bytes that have the given distances from their predictions.
pub open spec fn unfiltered(data: Seq<u8>, stride: int, order: int) -> Seq<u8> {
    predict::octets(predict::restored(predict::ints(data), stride, order, 256))
}

/// How far `x` is from `p`.
fn distance(x: u8, p: u8) -> (d: u8)
    ensures
        d == (x - p) % 256,
{
    x.wrapping_sub(p)
}

/// The byte at distance `d` from `p`.
fn moved(d: u8, p: u8) -> (x: u8)
    ensures
        x == (d + p) % 256,
{
    d.wrapping_add(p)
}

/// The next byte on the straight line through `b` and then `a`.
fn line_through(a: u8, b: u8) -> (p: u8)
    ensures
        p == (2 * a - b) % 256,
{
    ((2 * a as u16 + 256 - b as u16) % 256) as u8
}

/// The distance of each byte from the one `stride` places before it.
pub fn delta_n_encode(input: &[u8], stride: usize) -> (out: Vec<u8>)
    ensures
        out@ == filtered(input@, stride as int, 1),
{
    let n: usize = input.len();
    let mut out: Vec<u8> = Vec::with_capacity(n);
    let mut i: usize = 0;
    while i < n
        invariant
            n == input@.len(),
            i <= n,
            out@ == filtered(input@, stride as int, 1).take(i as int),
        decreases n - i,
    {
        let byte: u8 = if i < stride {
            input[i]
        } else {
            distance(input[i], input[i - stride])
        };
        out.push(byte);
        i = i + 1;
        assert(out@ =~= filtered(input@, stride as int, 1).take(i as int));
    }
    assert(out@ =~= filtered(input@, stride as int, 1));
    out
}

/// The bytes whose distances from the ones `stride` places before them are given.
pub fn delta_n_decode(data: Vec<u8>, stride: usize) -> (out: Vec<u8>)
    ensures
        out@ == unfiltered(data@, stride as int, 1),
{
    let ghost r = predict::ints(data@);
    let n: usize = data.len();
    let mut out: Vec<u8> = data;
    let mut i: usize = 0;
    while i < n
        invariant
            n == r.len(),
            n == out@.len(),
            i <= n,
            predict::ints(out@.take(i as int)) == predict::restored(
                r.take(i as int),
                stride as int,
                1,
                256,
            ),
            forall|k: int| i <= k < n ==> #[trigger] out@[k] == r[k],
        decreases n - i,
    {
        let ghost before = out@;
        if i >= stride {
            let prev: u8 = out[i - stride];
            out[i] = moved(out[i], prev);
        }
        proof {
            lemma_restored_step(before, out@, r, i as int, stride as int, 1);
        }
        i = i + 1;
    }
    proof {
        assert(r.take(n as int) =~= r);
        assert(out@.take(n as int) =~= out@);
        assert(predict::octets(predict::ints(out@)) =~= out@);
    }
    out
}

/// One step of restoring in place.
proof fn lemma_restored_step(
    before: Seq<u8>,
    after: Seq<u8>,
    r: Seq<int>,
    i: int,
    stride: int,
    order: int,
)
    requires
        0 <= i < r.len(),
        before.len() == r.len(),
        after.len() == r.len(),
        predict::ints(before.take(i)) == predict::restored(r.take(i), stride, order, 256),
        before[i] == r[i],
        forall|k: int| 0 <= k < i ==> #[trigger] after[k] == before[k],
        after[i] == (before[i] + predict::prediction(
            predict::ints(before.take(i + 1)),
            i,
            stride,
            order,
        )) % 256,
    ensures
        predict::ints(after.take(i + 1)) == predict::restored(r.take(i + 1), stride, order, 256),
{
    let p = predict::restored(r.take(i), stride, order, 256);
    assert(r.take(i + 1).drop_last() =~= r.take(i));
    assert(p.push(r[i]) =~= predict::ints(before.take(i + 1)));
    assert(predict::ints(after.take(i + 1)) =~= p.push(after[i] as int));
}

/// Restores bytes from their distances to the byte before.
pub fn delta1_decode(data: Vec<u8>) -> (out: Vec<u8>)
    ensures
        out@ == unfiltered(data@, 1, 1),
{
    delta_n_decode(data, 1)
}

/// Restores bytes from their distances to the byte two places before.
pub fn delta2_decode(data: Vec<u8>) -> (out: Vec<u8>)
    ensures
        out@ == unfiltered(data@, 2, 1),
{
    delta_n_decode(data, 2)
}

/// The distance of each byte from the straight line through the bytes `stride` and `2 * stride`
/// places before it.
pub fn delta_n_order2_encode(input: &[u8], stride: usize) -> (out: Vec<u8>)
    requires
        2 * stride <= usize::MAX,
    ensures
        out@ == filtered(input@, stride as int, 2),
{
    let n: usize = input.len();
    let mut out: Vec<u8> = Vec::with_capacity(n);
    let mut i: usize = 0;
    while i < n
        invariant
            2 * stride <= usize::MAX,
            n == input@.len(),
            i <= n,
            out@ == filtered(input@, stride as int, 2).take(i as int),
        decreases n - i,
    {
        let byte: u8 = if i < stride {
            input[i]
        } else if i < 2 * stride {
            distance(input[i], input[i - stride])
        } else {
            let a: u8 = input[i - stride];
            let b: u8 = input[i - 2 * stride];
            proof {
                lemma_sub_mod_noop_right(input@[i as int] as int, 2 * a - b, 256);
            }
            distance(input[i], line_through(a, b))
        };
        proof {
            let x = predict::ints(input@);
            assert(byte == (x[i as int] - predict::prediction(x, i as int, stride as int, 2)) % 256);
        }
        out.push(byte);
        i = i + 1;
        assert(out@ =~= filtered(input@, stride as int, 2).take(i as int));
    }
    assert(out@ =~= filtered(input@, stride as int, 2));
    out
}

/// The bytes whose distances from the straight line through earlier bytes are given.
pub fn delta_n_order2_decode(data: Vec<u8>, stride: usize) -> (out: Vec<u8>)
    requires
        2 * stride <= usize::MAX,
    ensures
        out@ == unfiltered(data@, stride as int, 2),
{
    let ghost r = predict::ints(data@);
    let n: usize = data.len();
    let mut out: Vec<u8> = data;
    let mut i: usize = 0;
    while i < n
        invariant
            2 * stride <= usize::MAX,
            n == r.len(),
            n == out@.len(),
            i <= n,
            predict::ints(out@.take(i as int)) == predict::restored(
                r.take(i as int),
                stride as int,
                2,
                256,
            ),
            forall|k: int| i <= k < n ==> #[trigger] out@[k] == r[k],
        decreases n - i,
    {
        let ghost before = out@;
        if i >= 2 * stride {
            let a: u8 = out[i - stride];
            let b: u8 = out[i - 2 * stride];
            proof {
                lemma_add_mod_noop_right(out@[i as int] as int, 2 * a - b, 256);
            }
            out[i] = moved(out[i], line_through(a, b));
        } else if i >= stride {
            let prev: u8 = out[i - stride];
            out[i] = moved(out[i], prev);
        }
        proof {
            lemma_restored_step(before, out@, r, i as int, stride as int, 2);
        }
        i = i + 1;
    }
    proof {
        assert(r.take(n as int) =~= r);
        assert(out@.take(n as int) =~= out@);
        assert(predict::octets(predict::ints(out@)) =~= out@);
    }
    out
}

/// Taking a filter back leaves the length alone.
pub proof fn lemma_unfiltered_len(data: Seq<u8>, stride: int, order: int)
    ensures
        unfiltered(data, stride, order).len() == data.len(),
{
    predict::lemma_restored_len(predict::ints(data), stride, order, 256);
}

/// Delta filters lose nothing: filtered bytes are taken back to what they were.
pub proof fn lemma_delta_round_trip(data: Seq<u8>, stride: int, order: int)
    requires
        stride >= 1,
    ensures
        unfiltered(filtered(data, stride, order), stride, order) == data,
{
    let x = predict::ints(data);
    let r = predict::residuals(x, stride, order, 256);
    predict::lemma_restore_residuals(x, stride, order, 256);
    assert(predict::ints(filtered(data, stride, order)) =~= r);
    assert(predict::octets(x) =~= data);
}

/// Byte `i` belongs to the right half of a frame of four bytes that is complete.
pub open spec fn in_right_half(i: int, n: int) -> bool {
    i % 4 >= 2 && i - i % 4 + 3 < n
}

/// The right half of each frame of four bytes replaced by its distance from the left half.
pub open spec fn side_filtered(data: Seq<u8>) -> Seq<u8> {
    Seq::new(
        data.len(),
        |i: int|
            if in_right_half(i, data.len() as int) {
                ((data[i] - data[i - 2]) % 256) as u8
            } else {
                data[i]
            },
    )
}

/// The left half of each frame of four bytes added to its right half.
pub open spec fn side_unfiltered(data: Seq<u8>) -> Seq<u8> {
    Seq::new(
        data.len(),
        |i: int|
            if in_right_half(i, data.len() as int) {
                ((data[i] + data[i - 2]) % 256) as u8
            } else {
                data[i]
            },
    )
}

/// Replaces the right half of each frame by its distance from the left half.
pub fn leftside_encode(data: &[u8]) -> (out: Vec<u8>)
    ensures
        out@ == side_filtered(data@),
{
    let mut out: Vec<u8> = vstd::slice::slice_to_vec(data);
    let mut i: usize = 0;
    while data.len() - i > 3
        invariant
            i <= data@.len(),
            i % 4 == 0,
            out@.len() == data@.len(),
            forall|k: int|
                0 <= k < out@.len() ==> #[trigger] out@[k] == if k < i {
                    side_filtered(data@)[k]
                } else {
                    data@[k]
                },
        decreases data@.len() - i,
    {
        out[i + 2] = data[i + 2].wrapping_sub(data[i]);
        out[i + 3] = data[i + 3].wrapping_sub(data[i + 1]);
        i = i + 4;
    }
    assert(out@ =~= side_filtered(data@));
    out
}

/// Adds the left half of each frame to its right half.
pub fn leftside_decode(data: Vec<u8>) -> (out: Vec<u8>)
    ensures
        out@ == side_unfiltered(data@),
{
    let ghost d = data@;
    let mut out: Vec<u8> = data;
    let mut i: usize = 0;
    while out.len() - i > 3
        invariant
            i <= d.len(),
            i % 4 == 0,
            out@.len() == d.len(),
            forall|k: int|
                0 <= k < out@.len() ==> #[trigger] out@[k] == if k < i {
                    side_unfiltered(d)[k]
                } else {
                    d[k]
                },
        decreases d.len() - i,
    {
        out[i + 2] = out[i + 2].wrapping_add(out[i]);
        out[i + 3] = out[i + 3].wrapping_add(out[i + 1]);
        i = i + 4;
    }
    assert(out@ =~= side_unfiltered(d));
    out
}

/// The side filter loses nothing.
pub proof fn lemma_side_round_trip(data: Seq<u8>)
    ensures
        side_unfiltered(side_filtered(data)) == data,
{
    assert forall|i: int| 0 <= i < data.len() implies side_unfiltered(side_filtered(data))[i]
        == data[i] by {
        let n = data.len() as int;
        if in_right_half(i, n) {
            assert((i - 2) % 4 < 2);
            assert(!in_right_half(i - 2, n));
        }
    }
    assert(side_unfiltered(side_filtered(data)) =~= data);
}

} // verus!
