//! What filters do to bytes and to samples.

use crate::delta;
use crate::filter::Filter;
use crate::planar;
use crate::predict;
use crate::sample;
use crate::stereo;
use vstd::arithmetic::div_mod::*;
use vstd::prelude::*;

verus! {

/// `y` holds the differences of `x` modulo `m`: the first value, the first difference, and so on up
/// to the difference of the given order, and from there on differences of that order.
pub open spec fn differences(x: Seq<int>, y: Seq<int>, order: int, m: int) -> bool {
    &&& y.len() == x.len()
    &&& x.len() > 0 ==> y[0] == x[0] % m
    &&& forall|k: int|
        1 <= k < x.len() && (k == 1 || order == 1) ==> #[trigger] y[k] == (x[k] - x[k - 1]) % m
    &&& forall|k: int|
        2 <= k < x.len() && (order == 2 || (order == 3 && k == 2)) ==> #[trigger] y[k] == (x[k] - 2
            * x[k - 1] + x[k - 2]) % m
    &&& forall|k: int|
        3 <= k < x.len() && order == 3 ==> #[trigger] y[k] == (x[k] - 3 * x[k - 1] + 3 * x[k - 2]
            - x[k - 3]) % m
}

/// The 16-bit number at place `k`, low byte first.
pub open spec fn word(data: Seq<u8>, k: int) -> int {
    data[2 * k] + 256 * data[2 * k + 1]
}

/// The 16-bit numbers at places `from`, `from + step`, `from + 2 * step` and so on, `n` of them.
pub open spec fn words(data: Seq<u8>, from: int, step: int, n: int) -> Seq<int> {
    Seq::new(n as nat, |k: int| word(data, from + step * k))
}

/// The bytes at places `from`, `from + step`, `from + 2 * step` and so on, `n` of them.
pub open spec fn every(data: Seq<u8>, from: int, step: int, n: int) -> Seq<int> {
    Seq::new(n as nat, |k: int| data[from + k * step] as int)
}

/// Values at a stride are filtered by themselves.
proof fn lemma_residuals_are_differences(x: Seq<int>, order: int, m: int)
    requires
        1 <= order <= 3,
    ensures
        differences(x, predict::residuals(x, 1, order, m), order, m),
{
    let y = predict::residuals(x, 1, order, m);
    assert forall|k: int| 0 <= k < x.len() implies #[trigger] y[k] == (x[k] - predict::prediction(
        x,
        k,
        1,
        order,
    )) % m by {}
}

/// A delta filter writes the difference of each byte from the one `stride` places before, and of
/// the second order the second difference at that stride. The first bytes stay.
pub proof fn law_delta(data: Seq<u8>, stride: int)
    requires
        stride >= 1,
    ensures
        ({
            let d = delta::filtered(data, stride, 1);
            let e = delta::filtered(data, stride, 2);
            &&& d.len() == data.len()
            &&& e.len() == data.len()
            &&& forall|i: int|
                0 <= i < data.len() && i < stride ==> #[trigger] d[i] == data[i] && e[i] == data[i]
            &&& forall|i: int|
                stride <= i < data.len() ==> #[trigger] d[i] == (data[i] - data[i - stride]) % 256
            &&& forall|i: int|
                stride <= i < data.len() && i < 2 * stride ==> #[trigger] e[i] == (data[i] - data[i
                    - stride]) % 256
            &&& forall|i: int|
                2 * stride <= i < data.len() ==> #[trigger] e[i] == (data[i] - 2 * data[i - stride]
                    + data[i - 2 * stride]) % 256
        }),
{
}

/// A delta filter can be undone on every block: what comes out is what the block is the filtered
/// form of.
pub proof fn law_delta_undone(r: Seq<u8>, stride: int, order: int)
    requires
        stride >= 1,
    ensures
        delta::filtered(delta::unfiltered(r, stride, order), stride, order) == r,
        delta::unfiltered(r, stride, order).len() == r.len(),
{
    let x = predict::ints(r);
    let y = predict::restored(x, stride, order, 256);
    predict::lemma_restored_len(x, stride, order, 256);
    predict::lemma_residuals_of_restored(x, stride, order, 256);
    assert(predict::ints(predict::octets(y)) =~= y);
    assert(predict::octets(x) =~= r);
}

/// The left-side filter takes the left half of each frame of four bytes from its right half, byte
/// by byte; what is no whole frame stays. Undoing it adds the left half again.
pub proof fn law_left_side(data: Seq<u8>)
    ensures
        ({
            let d = delta::side_filtered(data);
            let u = delta::side_unfiltered(data);
            &&& d.len() == data.len()
            &&& u.len() == data.len()
            &&& forall|i: int|
                0 <= i < data.len() && (i % 4 < 2 || i / 4 == data.len() as int / 4)
                    ==> #[trigger] d[i] == data[i] && u[i] == data[i]
            &&& forall|i: int|
                0 <= i < data.len() && i % 4 >= 2 && i / 4 < data.len() as int / 4
                    ==> #[trigger] d[i] == (data[i] - data[i - 2]) % 256 && u[i] == (data[i] + data[i
                    - 2]) % 256
        }),
{
    let n = data.len() as int;
    assert forall|i: int| 0 <= i < n implies (#[trigger] delta::in_right_half(i, n) <==> i % 4 >= 2
        && i / 4 < n / 4) by {}
    assert forall|i: int|
        0 <= i < data.len() && (i % 4 < 2 || i / 4 == n / 4) implies #[trigger] delta::side_filtered(
        data,
    )[i] == data[i] && delta::side_unfiltered(data)[i] == data[i] by {
        assert(!delta::in_right_half(i, n));
    }
    assert forall|i: int|
        0 <= i < data.len() && i % 4 >= 2 && i / 4 < n / 4 implies #[trigger] delta::side_filtered(
        data,
    )[i] == (data[i] - data[i - 2]) % 256 && delta::side_unfiltered(data)[i] == (data[i] + data[i
        - 2]) % 256 by {
        assert(delta::in_right_half(i, n));
    }
}

/// Residuals of samples are differences, at every place: they vanish on lines at the second order
/// and on parabolas at the third.
pub proof fn law_residuals(x: Seq<int>, order: int)
    requires
        1 <= order <= 3,
    ensures
        differences(x, sample::s16_residuals(x, order), order, 65536),
        order == 3 ==> forall|i: int|
            3 <= i < x.len() && (x[i] - 3 * x[i - 1] + 3 * x[i - 2] - x[i - 3]) % 65536 == 0
                ==> #[trigger] sample::s16_residuals(x, order)[i] == 0,
        order == 2 ==> forall|i: int|
            2 <= i < x.len() && (x[i] - 2 * x[i - 1] + x[i - 2]) % 65536 == 0
                ==> #[trigger] sample::s16_residuals(x, order)[i] == 0,
{
    reveal(sample::s16_residuals);
    lemma_residuals_are_differences(x, order, 65536);
}

/// The words of bytes that were made from numbers.
proof fn lemma_words_of_bytes(x: Seq<int>)
    requires
        predict::within(x, 65536),
    ensures
        sample::sample_bytes(x).len() == 2 * x.len(),
        words(sample::sample_bytes(x), 0, 1, x.len() as int) == x,
        forall|k: int| 0 <= k < x.len() ==> #[trigger] word(sample::sample_bytes(x), k) == x[k],
{
    sample::lemma_samples_of_bytes(x);
    let b = sample::sample_bytes(x);
    assert forall|k: int| 0 <= k < x.len() implies #[trigger] word(b, k) == x[k] by {
        assert(sample::samples(b)[k] == word(b, k));
    }
    assert(words(b, 0, 1, x.len() as int) =~= x);
}

/// The sample filters write differences of the 16-bit numbers in a block, where it has an even
/// number of bytes and as many samples as the order. Other blocks stay.
pub proof fn law_samples(data: Seq<u8>, order: int)
    requires
        2 <= order <= 3,
    ensures
        ({
            let out = sample::s16_filtered(data, order);
            let n = data.len() as int / 2;
            &&& out.len() == data.len()
            &&& data.len() % 2 == 0 && data.len() >= 2 * order ==> differences(
                words(data, 0, 1, n),
                words(out, 0, 1, n),
                order,
                65536,
            )
            &&& !(data.len() % 2 == 0 && data.len() >= 2 * order) ==> out == data
        }),
{
    if data.len() % 2 == 0 && data.len() >= 2 * order {
        let x = sample::samples(data);
        let r = sample::s16_residuals(x, order);
        assert(x =~= words(data, 0, 1, data.len() as int / 2));
        law_residuals(x, order);
        sample::lemma_residuals_within(x, order);
        lemma_words_of_bytes(r);
    }
}

/// The sample filters can be undone on every block, whether it was filtered or not: what comes out
/// is what the block is the filtered form of.
pub proof fn law_samples_undone(r: Seq<u8>, order: int)
    requires
        2 <= order <= 3,
    ensures
        sample::s16_unfiltered(r, order).len() == r.len(),
        sample::s16_filtered(sample::s16_unfiltered(r, order), order) == r,
{
    sample::lemma_unfiltered_len(r, order);
    if sample::is_mono(r.len() as int, order) {
        let x = sample::samples(r);
        let y = sample::s16_restored(x, order);
        sample::lemma_samples_within(r);
        sample::lemma_restored_within(x, order);
        sample::lemma_samples_of_bytes(y);
        lemma_s16_residuals_of_restored(x, order);
        sample::lemma_bytes_of_samples(r);
    }
}

proof fn lemma_s16_residuals_of_restored(x: Seq<int>, order: int)
    requires
        predict::within(x, 65536),
    ensures
        sample::s16_residuals(sample::s16_restored(x, order), order) == x,
{
    reveal(sample::s16_residuals);
    reveal(sample::s16_restored);
    predict::lemma_residuals_of_restored(x, 1, order, 65536);
}

/// The distances of the right channel from the left one.
pub open spec fn apart(left: Seq<int>, right: Seq<int>) -> Seq<int> {
    Seq::new(left.len(), |k: int| (right[k] - left[k]) % 65536)
}

/// The two-channel filter writes, in place of each pair of samples, the difference of the left
/// channel and the difference of how far the right channel is from it.
pub proof fn law_channels_apart(data: Seq<u8>, order: int)
    requires
        2 <= order <= 3,
    ensures
        ({
            let out = stereo::lside_filtered(data, order);
            let n = data.len() as int / 4;
            let (left, right) = (words(data, 0, 2, n), words(data, 1, 2, n));
            &&& out.len() == data.len()
            &&& data.len() % 4 == 0 && data.len() >= 4 * order ==> differences(
                left,
                words(out, 0, 2, n),
                order,
                65536,
            ) && differences(apart(left, right), words(out, 1, 2, n), order, 65536)
            &&& !(data.len() % 4 == 0 && data.len() >= 4 * order) ==> out == data
        }),
{
    if data.len() % 4 == 0 && data.len() >= 4 * order {
        let n = data.len() as int / 4;
        let x = sample::samples(data);
        let (left, right) = (stereo::evens(x), stereo::odds(x));
        assert(left =~= words(data, 0, 2, n));
        assert(right =~= words(data, 1, 2, n));
        assert(stereo::side(left, right) =~= apart(left, right));
        let a = sample::s16_residuals(left, order);
        let b = sample::s16_residuals(stereo::side(left, right), order);
        law_residuals(left, order);
        law_residuals(stereo::side(left, right), order);
        sample::lemma_residuals_within(left, order);
        sample::lemma_residuals_within(stereo::side(left, right), order);
        let both = stereo::interleaved(a, b);
        assert(predict::within(both, 65536));
        lemma_words_of_bytes(both);
        let out = sample::sample_bytes(both);
        assert forall|k: int| 0 <= k < n implies words(out, 0, 2, n)[k] == a[k] && words(
            out,
            1,
            2,
            n,
        )[k] == b[k] by {
            assert(word(out, 2 * k) == both[2 * k]);
            assert(word(out, 2 * k + 1) == both[2 * k + 1]);
            assert((2 * k) / 2 == k && (2 * k + 1) / 2 == k);
        }
        assert(words(out, 0, 2, n) =~= a);
        assert(words(out, 1, 2, n) =~= b);
    }
}

/// The distance of a channel that was moved by it.
proof fn lemma_side_of_unside(left: Seq<int>, distance: Seq<int>)
    requires
        left.len() == distance.len(),
        predict::within(distance, 65536),
    ensures
        stereo::side(left, stereo::unside(left, distance)) == distance,
        predict::within(stereo::unside(left, distance), 65536),
{
    let right = stereo::unside(left, distance);
    assert forall|k: int| 0 <= k < left.len() implies stereo::side(left, right)[k] == distance[k] by {
        let (d, l) = (distance[k], left[k]);
        lemma_sub_mod_noop(d + l, l, 65536);
        lemma_sub_mod_noop((d + l) % 65536, l, 65536);
        lemma_mod_twice(d + l, 65536);
        lemma_small_mod(d as nat, 65536);
    }
    assert(stereo::side(left, right) =~= distance);
}

/// The samples of channels, and the channels of samples.
proof fn lemma_two_channels(r: Seq<u8>)
    requires
        r.len() % 4 == 0,
    ensures
        ({
            let x = sample::samples(r);
            let (a, b) = (stereo::evens(x), stereo::odds(x));
            &&& predict::within(a, 65536)
            &&& predict::within(b, 65536)
            &&& a.len() == r.len() / 4
            &&& b.len() == r.len() / 4
            &&& sample::sample_bytes(stereo::interleaved(a, b)) == r
        }),
{
    let x = sample::samples(r);
    sample::lemma_samples_within(r);
    let (a, b) = (stereo::evens(x), stereo::odds(x));
    assert forall|k: int| 0 <= k < a.len() implies 0 <= #[trigger] a[k] < 65536 by {
        assert(0 <= x[2 * k] < 65536);
    }
    assert forall|k: int| 0 <= k < b.len() implies 0 <= #[trigger] b[k] < 65536 by {
        assert(0 <= x[2 * k + 1] < 65536);
    }
    assert(stereo::interleaved(a, b) =~= x);
    sample::lemma_bytes_of_samples(r);
}

/// Channels that were put in turn.
proof fn lemma_channels_of_turns(left: Seq<int>, right: Seq<int>)
    requires
        left.len() == right.len(),
        predict::within(left, 65536),
        predict::within(right, 65536),
    ensures
        ({
            let bytes = sample::sample_bytes(stereo::interleaved(left, right));
            &&& bytes.len() == 4 * left.len()
            &&& stereo::evens(sample::samples(bytes)) == left
            &&& stereo::odds(sample::samples(bytes)) == right
        }),
{
    let both = stereo::interleaved(left, right);
    lemma_turns(left, right);
    sample::lemma_samples_of_bytes(both);
}

/// Numbers that were put in turn.
proof fn lemma_turns(left: Seq<int>, right: Seq<int>)
    requires
        left.len() == right.len(),
        predict::within(left, 65536),
        predict::within(right, 65536),
    ensures
        ({
            let both = stereo::interleaved(left, right);
            &&& predict::within(both, 65536)
            &&& both.len() == 2 * left.len()
            &&& stereo::evens(both) == left
            &&& stereo::odds(both) == right
        }),
{
    let both = stereo::interleaved(left, right);
    assert forall|i: int| 0 <= i < both.len() implies 0 <= #[trigger] both[i] < 65536 by {
        assert(0 <= left[i / 2] < 65536 && 0 <= right[i / 2] < 65536);
    }
    assert(stereo::evens(both) =~= left);
    assert(stereo::odds(both) =~= right);
}

/// The two-channel filter can be undone on every block.
pub proof fn law_channels_apart_undone(r: Seq<u8>, order: int)
    requires
        2 <= order <= 3,
    ensures
        stereo::lside_unfiltered(r, order).len() == r.len(),
        stereo::lside_filtered(stereo::lside_unfiltered(r, order), order) == r,
{
    if stereo::is_stereo(r.len() as int, order) {
        let x = sample::samples(r);
        let (a, b) = (stereo::evens(x), stereo::odds(x));
        let left = sample::s16_restored(a, order);
        let distance = sample::s16_restored(b, order);
        lemma_two_channels(r);
        sample::lemma_restored_within(a, order);
        sample::lemma_restored_within(b, order);
        lemma_side_of_unside(left, distance);
        lemma_channels_of_turns(left, stereo::unside(left, distance));
        lemma_s16_residuals_of_restored(a, order);
        lemma_s16_residuals_of_restored(b, order);
    }
}

/// The filter that keeps the channels apart writes the differences of the left channel first and
/// those of the right channel after them.
pub proof fn law_channels_in_turn(data: Seq<u8>, order: int)
    requires
        2 <= order <= 3,
    ensures
        ({
            let out = stereo::stereo_planar_filtered(data, order);
            let n = data.len() as int / 4;
            &&& out.len() == data.len()
            &&& data.len() % 4 == 0 && data.len() >= 4 * order ==> differences(
                words(data, 0, 2, n),
                words(out, 0, 1, n),
                order,
                65536,
            ) && differences(words(data, 1, 2, n), words(out, n, 1, n), order, 65536)
            &&& !(data.len() % 4 == 0 && data.len() >= 4 * order) ==> out == data
        }),
{
    if data.len() % 4 == 0 && data.len() >= 4 * order {
        let n = data.len() as int / 4;
        let x = sample::samples(data);
        let (left, right) = (stereo::evens(x), stereo::odds(x));
        assert(left =~= words(data, 0, 2, n));
        assert(right =~= words(data, 1, 2, n));
        let a = sample::s16_residuals(left, order);
        let b = sample::s16_residuals(right, order);
        law_residuals(left, order);
        law_residuals(right, order);
        sample::lemma_residuals_within(left, order);
        sample::lemma_residuals_within(right, order);
        let both = a + b;
        assert(predict::within(both, 65536));
        lemma_words_of_bytes(both);
        let out = sample::sample_bytes(both);
        assert forall|k: int| 0 <= k < n implies words(out, 0, 1, n)[k] == a[k] && words(
            out,
            n,
            1,
            n,
        )[k] == b[k] by {
            assert(word(out, k) == both[k]);
            assert(word(out, n + k) == both[n + k]);
        }
        assert(words(out, 0, 1, n) =~= a);
        assert(words(out, n, 1, n) =~= b);
    }
}

/// Undoing the filter that keeps the channels apart takes each half of whole frames for a block of
/// samples, undoes the sample filter on it, and puts the samples of both in turn. What is no whole
/// frame becomes 0.
pub proof fn law_channels_in_turn_undone(data: Seq<u8>, n: int, order: int)
    requires
        2 <= order <= 3,
        0 <= n,
        n / 4 * 4 <= data.len(),
    ensures
        ({
            let out = stereo::stereo_planar_unfiltered(data, n, order);
            let m = n / 4;
            let left = sample::s16_unfiltered(data.subrange(0, 2 * m), order);
            let right = sample::s16_unfiltered(data.subrange(2 * m, 4 * m), order);
            &&& out.len() == n
            &&& forall|k: int|
                #![trigger out[4 * k]]
                0 <= k < m ==> out[4 * k] == left[2 * k] && out[4 * k + 1] == left[2 * k + 1]
                    && out[4 * k + 2] == right[2 * k] && out[4 * k + 3] == right[2 * k + 1]
            &&& forall|i: int| 4 * m <= i < n ==> #[trigger] out[i] == 0
        }),
{
    let out = stereo::stereo_planar_unfiltered(data, n, order);
    let m = n / 4;
    assert(n / 4 * 2 == 2 * m && 2 * (n / 4 * 2) == 4 * m);
    let left = sample::s16_unfiltered(data.subrange(0, 2 * m), order);
    let right = sample::s16_unfiltered(data.subrange(2 * m, 4 * m), order);
    assert forall|k: int|
        #![trigger out[4 * k]]
        0 <= k < m implies out[4 * k] == left[2 * k] && out[4 * k + 1] == left[2 * k + 1] && out[4
        * k + 2] == right[2 * k] && out[4 * k + 3] == right[2 * k + 1] by {
        assert((4 * k) / 4 == k && (4 * k + 1) / 4 == k && (4 * k + 2) / 4 == k && (4 * k + 3) / 4
            == k);
    }
}

/// A planar filter writes one plane after the other, each as differences: plane `ch` is made of
/// the bytes at places `ch`, `ch + stride` and so on. What fills no place in every plane stays at
/// the end.
pub proof fn law_planes(data: Seq<u8>, stride: int, order: int, ch: int)
    requires
        1 <= order <= 2,
        0 <= ch < stride,
    ensures
        ({
            let out = planar::planar_filtered(data, stride, order);
            let m = data.len() as int / stride;
            &&& out.len() == data.len()
            &&& differences(
                every(data, ch, stride, m),
                every(out, ch * m, 1, m),
                order,
                256,
            )
            &&& forall|i: int| m * stride <= i < data.len() ==> #[trigger] out[i] == data[i]
        }),
{
    let out = planar::planar_filtered(data, stride, order);
    let m = data.len() as int / stride;
    let n = data.len() as int;
    planar::lemma_planar_len(data, stride, order);
    lemma_fundamental_div_mod(n, stride);
    lemma_div_pos_is_pos(n, stride);
    lemma_mod_bound(n, stride);
    assert(m * stride == stride * m) by (nonlinear_arith);
    let planes = planar::filtered_planes(data, stride, order, m, stride as nat);
    lemma_plane_of_planes(data, stride, order, m, stride as nat, ch);
    let x = every(data, ch, stride, m);
    let p = planar::plane(data, stride, ch, m);
    assert(x =~= predict::ints(p)) by {
        assert forall|i: int| 0 <= i < m implies x[i] == p[i] by {
            assert(ch + i * stride == i * stride + ch);
        }
    }
    let r = predict::residuals(x, 1, order, 256);
    lemma_residuals_are_differences(x, order, 256);
    assert forall|i: int| 0 <= i < m implies every(out, ch * m, 1, m)[i] == r[i] by {
        assert(out[ch * m + i] == planes[ch * m + i]) by {
            assert(0 <= ch * m && (ch + 1) * m <= stride * m) by (nonlinear_arith)
                requires
                    0 <= ch < stride,
                    0 <= m,
            ;
            assert((ch + 1) * m == ch * m + m) by (nonlinear_arith);
        }
        assert(0 <= r[i] < 256);
    }
    assert(every(out, ch * m, 1, m) =~= r);
}

proof fn lemma_plane_of_planes(
    data: Seq<u8>,
    stride: int,
    order: int,
    m: int,
    count: nat,
    ch: int,
)
    requires
        0 <= ch < count,
        0 <= m,
    ensures
        planar::filtered_planes(data, stride, order, m, count).len() == count * m,
        forall|i: int|
            0 <= i < m ==> #[trigger] planar::filtered_planes(data, stride, order, m, count)[ch * m
                + i] == delta::filtered(planar::plane(data, stride, ch, m), 1, order)[i],
    decreases count,
{
    let before = planar::filtered_planes(data, stride, order, m, (count - 1) as nat);
    let all = planar::filtered_planes(data, stride, order, m, count);
    let last = delta::filtered(planar::plane(data, stride, count - 1, m), 1, order);
    assert((count - 1) * m + m == count * m) by (nonlinear_arith);
    if count == 1 {
        assert(before.len() == 0);
        assert(0 * m == 0);
    } else {
        lemma_plane_of_planes(data, stride, order, m, (count - 1) as nat, if ch < count - 1 {
            ch
        } else {
            0
        });
    }
    assert(before.len() == (count - 1) * m);
    assert(all.len() == count * m);
    assert forall|i: int| 0 <= i < m implies #[trigger] all[ch * m + i] == delta::filtered(
        planar::plane(data, stride, ch, m),
        1,
        order,
    )[i] by {
        if ch < count - 1 {
            assert(0 <= ch * m && (ch + 1) * m <= (count - 1) * m) by (nonlinear_arith)
                requires
                    0 <= ch < count - 1,
                    0 <= m,
            ;
            assert((ch + 1) * m == ch * m + m) by (nonlinear_arith);
            assert(all[ch * m + i] == before[ch * m + i]);
        } else {
            assert(all[ch * m + i] == last[i]);
        }
    }
}

/// Undoing a planar filter undoes the delta filter on each plane and puts the bytes of the planes
/// in turn.
pub proof fn law_planes_undone(data: Seq<u8>, stride: int, n: int, order: int, ch: int, i: int)
    requires
        0 <= n <= data.len(),
        0 <= ch < stride,
        0 <= i < n / stride,
    ensures
        ({
            let out = planar::planar_unfiltered(data, stride, n, order);
            let m = n / stride;
            &&& out.len() == n
            &&& 0 <= i * stride + ch < n
            &&& out[i * stride + ch] == delta::unfiltered(
                data.subrange(ch * m, ch * m + m),
                1,
                order,
            )[i]
            &&& forall|p: int| m * stride <= p < n ==> #[trigger] out[p] == data[p]
        }),
{
    let m = n / stride;
    lemma_fundamental_div_mod(n, stride);
    lemma_mod_bound(n, stride);
    assert(m * stride == stride * m) by (nonlinear_arith);
    assert(0 <= i * stride && i * stride + stride <= m * stride) by (nonlinear_arith)
        requires
            0 <= i < m,
            stride > 0,
    ;
    lemma_fundamental_div_mod_converse(i * stride + ch, stride, i, ch);
    assert((ch + 1) * m == ch * m + m) by (nonlinear_arith);
}

/// Each filter is the one that its name says.
pub proof fn law_filter_names(data: Seq<u8>, k: usize)
    ensures
        Filter::Plain.filtered(data) == data,
        Filter::Delta(k).filtered(data) == delta::filtered(data, k as int, 1),
        Filter::DeltaO2(k).filtered(data) == delta::filtered(data, k as int, 2),
        Filter::LsideD4.filtered(data) == delta::filtered(delta::side_filtered(data), 4, 1),
        Filter::LsideD4O2.filtered(data) == delta::filtered(delta::side_filtered(data), 4, 2),
        Filter::S16O2.filtered(data) == sample::s16_filtered(data, 2),
        Filter::S16O3.filtered(data) == sample::s16_filtered(data, 3),
        Filter::LsideS16O2.filtered(data) == stereo::lside_filtered(data, 2),
        Filter::LsideS16O3.filtered(data) == stereo::lside_filtered(data, 3),
        Filter::Planar(k).filtered(data) == planar::planar_filtered(data, k as int, 1),
        Filter::PlanarO2(k).filtered(data) == planar::planar_filtered(data, k as int, 2),
        Filter::StereoS16O2.filtered(data) == stereo::stereo_planar_filtered(data, 2),
        Filter::StereoS16O3.filtered(data) == stereo::stereo_planar_filtered(data, 3),
{
}

/// What taking each filter back undoes.
pub proof fn law_filter_names_undone(data: Seq<u8>, k: usize)
    ensures
        ({
            let n = data.len() as int;
            &&& Filter::Plain.unfiltered(data) == data
            &&& Filter::Delta(k).unfiltered(data) == delta::unfiltered(data, k as int, 1)
            &&& Filter::DeltaO2(k).unfiltered(data) == delta::unfiltered(data, k as int, 2)
            &&& Filter::LsideD4.unfiltered(data) == delta::side_unfiltered(
                delta::unfiltered(data, 4, 1),
            )
            &&& Filter::LsideD4O2.unfiltered(data) == delta::side_unfiltered(
                delta::unfiltered(data, 4, 2),
            )
            &&& Filter::S16O2.unfiltered(data) == sample::s16_unfiltered(data, 2)
            &&& Filter::S16O3.unfiltered(data) == sample::s16_unfiltered(data, 3)
            &&& Filter::LsideS16O2.unfiltered(data) == stereo::lside_unfiltered(data, 2)
            &&& Filter::LsideS16O3.unfiltered(data) == stereo::lside_unfiltered(data, 3)
            &&& Filter::Planar(k).unfiltered(data) == planar::planar_unfiltered(
                data,
                k as int,
                n,
                1,
            )
            &&& Filter::PlanarO2(k).unfiltered(data) == planar::planar_unfiltered(
                data,
                k as int,
                n,
                2,
            )
            &&& Filter::StereoS16O2.unfiltered(data) == stereo::stereo_planar_unfiltered(data, n, 2)
            &&& Filter::StereoS16O3.unfiltered(data) == stereo::stereo_planar_unfiltered(data, n, 3)
        }),
{
}

} // verus!
