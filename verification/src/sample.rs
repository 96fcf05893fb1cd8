//! Filters for 16-bit little-endian samples in one channel.
//!
//! Samples are taken as numbers from 0 to 65535 with arithmetic modulo 65536: on bytes this is
//! the same as wrapping two's complement arithmetic.

use crate::predict;
use vstd::arithmetic::div_mod::*;
use vstd::prelude::*;
use vstd::slice::slice_to_vec;

verus! {

/// The samples of a byte string; an odd byte at the end is left out.
pub open spec fn samples(data: Seq<u8>) -> Seq<int> {
    Seq::new(data.len() / 2, |k: int| data[2 * k] + 256 * data[2 * k + 1])
}

/// The bytes of a sequence of samples.
pub open spec fn sample_bytes(x: Seq<int>) -> Seq<u8> {
    Seq::new(
        2 * x.len(),
        |i: int|
            if i % 2 == 0 {
                (x[i / 2] % 256) as u8
            } else {
                (x[i / 2] / 256 % 256) as u8
            },
    )
}

/// The residuals of samples.
#[verifier::opaque]
pub open spec fn s16_residuals(x: Seq<int>, order: int) -> Seq<int> {
    predict::residuals(x, 1, order, 65536)
}

/// The samples with given residuals.
#[verifier::opaque]
pub open spec fn s16_restored(x: Seq<int>, order: int) -> Seq<int> {
    predict::restored(x, 1, order, 65536)
}

/// A byte string consists of whole samples, as many as the order at least.
pub open spec fn is_mono(n: int, order: int) -> bool {
    n % 2 == 0 && n >= 2 * order
}

/// Each sample replaced by its residual. Strings that are no samples stay as they are.
pub open spec fn s16_filtered(data: Seq<u8>, order: int) -> Seq<u8> {
    if is_mono(data.len() as int, order) {
        sample_bytes(s16_residuals(samples(data), order))
    } else {
        data
    }
}

/// Each residual replaced by its sample. Strings that are no samples stay as they are.
pub open spec fn s16_unfiltered(data: Seq<u8>, order: int) -> Seq<u8> {
    if is_mono(data.len() as int, order) {
        sample_bytes(s16_restored(samples(data), order))
    } else {
        data
    }
}

/// Samples have 16 bits.
pub proof fn lemma_samples_within(data: Seq<u8>)
    ensures
        predict::within(samples(data), 65536),
{
}

/// The samples of the bytes of samples.
pub proof fn lemma_samples_of_bytes(x: Seq<int>)
    requires
        predict::within(x, 65536),
    ensures
        samples(sample_bytes(x)) == x,
{
    assert forall|k: int| 0 <= k < x.len() implies samples(sample_bytes(x))[k] == x[k] by {
        assert((2 * k) / 2 == k && (2 * k) % 2 == 0);
        assert((2 * k + 1) / 2 == k && (2 * k + 1) % 2 == 1);
        assert(0 <= x[k] < 65536);
    }
    assert(samples(sample_bytes(x)) =~= x);
}

/// The bytes of the samples of bytes.
pub proof fn lemma_bytes_of_samples(data: Seq<u8>)
    requires
        data.len() % 2 == 0,
    ensures
        sample_bytes(samples(data)) == data,
{
    assert forall|i: int| 0 <= i < data.len() implies sample_bytes(samples(data))[i] == data[i] by {
        let k = i / 2;
        assert(2 * k == i || 2 * k + 1 == i);
    }
    assert(sample_bytes(samples(data)) =~= data);
}

/// Residuals have 16 bits and are as many as the samples.
pub proof fn lemma_residuals_within(x: Seq<int>, order: int)
    ensures
        predict::within(s16_residuals(x, order), 65536),
        s16_residuals(x, order).len() == x.len(),
{
    reveal(s16_residuals);
}

/// Restored samples have 16 bits and are as many as the residuals.
pub proof fn lemma_restored_within(r: Seq<int>, order: int)
    ensures
        predict::within(s16_restored(r, order), 65536),
        s16_restored(r, order).len() == r.len(),
{
    reveal(s16_restored);
    predict::lemma_restored_len(r, 1, order, 65536);
}

/// Samples are restored from their residuals.
pub proof fn lemma_s16_restore_residuals(x: Seq<int>, order: int)
    requires
        predict::within(x, 65536),
    ensures
        s16_restored(s16_residuals(x, order), order) == x,
{
    reveal(s16_residuals);
    reveal(s16_restored);
    predict::lemma_restore_residuals(x, 1, order, 65536);
}

/// Filtering the bytes of samples.
pub proof fn lemma_filtered_samples(x: Seq<int>, order: int)
    requires
        predict::within(x, 65536),
        x.len() >= order,
    ensures
        s16_filtered(sample_bytes(x), order) == sample_bytes(s16_residuals(x, order)),
        samples(s16_filtered(sample_bytes(x), order)) == s16_residuals(x, order),
        s16_filtered(sample_bytes(x), order).len() == 2 * x.len(),
{
    lemma_samples_of_bytes(x);
    lemma_residuals_within(x, order);
    lemma_samples_of_bytes(s16_residuals(x, order));
}

/// Restoring the bytes of samples.
pub proof fn lemma_unfiltered_samples(r: Seq<int>, order: int)
    requires
        predict::within(r, 65536),
        r.len() >= order,
    ensures
        s16_unfiltered(sample_bytes(r), order) == sample_bytes(s16_restored(r, order)),
        samples(s16_unfiltered(sample_bytes(r), order)) == s16_restored(r, order),
        s16_unfiltered(sample_bytes(r), order).len() == 2 * r.len(),
{
    lemma_samples_of_bytes(r);
    lemma_restored_within(r, order);
    lemma_samples_of_bytes(s16_restored(r, order));
}

/// Restoring samples leaves the length alone.
pub proof fn lemma_unfiltered_len(data: Seq<u8>, order: int)
    ensures
        s16_unfiltered(data, order).len() == data.len(),
{
    lemma_restored_within(samples(data), order);
}

/// Sample `k`.
pub(crate) fn sample_at(data: &[u8], k: usize) -> (v: u16)
    requires
        2 * k + 1 < data@.len(),
    ensures
        v == samples(data@)[k as int],
{
    assert(data.len() == data@.len());
    data[2 * k] as u16 + 256 * data[2 * k + 1] as u16
}

/// Appends a sample.
pub(crate) fn push_sample(out: &mut Vec<u8>, v: u16)
    ensures
        final(out)@ == old(out)@.push((v % 256) as u8).push((v / 256 % 256) as u8),
{
    out.push((v % 256) as u8);
    out.push((v / 256 % 256) as u8);
}

/// Appending a sample to bytes of samples.
pub proof fn lemma_push_sample(x: Seq<int>, v: int)
    ensures
        sample_bytes(x.push(v)) == sample_bytes(x).push((v % 256) as u8).push(
            (v / 256 % 256) as u8,
        ),
{
    assert(sample_bytes(x.push(v)) =~= sample_bytes(x).push((v % 256) as u8).push(
        (v / 256 % 256) as u8,
    ));
}

/// The prediction for sample `k` from the samples before it.
fn predicted_sample(data: &[u8], k: usize, order: u8) -> (p: u16)
    requires
        2 <= order <= 3,
        2 * k + 1 < data@.len(),
    ensures
        p == predict::prediction(samples(data@), k as int, 1, order as int) % 65536,
{
    if k == 0 {
        0
    } else if k == 1 {
        sample_at(data, k - 1)
    } else if order == 2 || k == 2 {
        let a: u32 = sample_at(data, k - 1) as u32;
        let b: u32 = sample_at(data, k - 2) as u32;
        proof {
            lemma_mod_multiples_vanish(1, 2 * a - b, 65536);
        }
        ((2 * a + 65536 - b) % 65536) as u16
    } else {
        let a: u32 = sample_at(data, k - 1) as u32;
        let b: u32 = sample_at(data, k - 2) as u32;
        let c: u32 = sample_at(data, k - 3) as u32;
        proof {
            lemma_mod_multiples_vanish(3, 3 * a - 3 * b + c, 65536);
        }
        ((3 * a + c + 196608 - 3 * b) % 65536) as u16
    }
}

/// The distance from a prediction is that from the prediction modulo 65536.
pub proof fn lemma_distance(s: int, p: int)
    ensures
        (s + 65536 - p % 65536) % 65536 == (s - p) % 65536,
{
    lemma_sub_mod_noop_right(s, p, 65536);
}

/// Replaces each sample by its residual.
pub(crate) fn s16_encode(data: &[u8], order: u8) -> (out: Vec<u8>)
    requires
        2 <= order <= 3,
    ensures
        out@ == s16_filtered(data@, order as int),
{
    let n: usize = data.len();
    if n % 2 != 0 || n < 2 * order as usize {
        return slice_to_vec(data);
    }
    let mut out: Vec<u8> = Vec::with_capacity(n);
    let ghost r = s16_residuals(samples(data@), order as int);
    proof {
        lemma_residuals_within(samples(data@), order as int);
    }
    let mut k: usize = 0;
    assert(out@ =~= sample_bytes(r.take(0)));
    while k < n / 2
        invariant
            2 <= order <= 3,
            n == data@.len(),
            k <= n / 2,
            r == s16_residuals(samples(data@), order as int),
            r.len() == n / 2,
            out@ == sample_bytes(r.take(k as int)),
        decreases n / 2 - k,
    {
        let p: u32 = predicted_sample(data, k, order) as u32;
        let s: u32 = sample_at(data, k) as u32;
        let d: u16 = ((s + 65536 - p) % 65536) as u16;
        push_sample(&mut out, d);
        proof {
            lemma_push_sample(r.take(k as int), d as int);
            lemma_distance(
                s as int,
                predict::prediction(samples(data@), k as int, 1, order as int),
            );
            reveal(s16_residuals);
            assert(d == r[k as int]);
            assert(r.take(k + 1) =~= r.take(k as int).push(r[k as int]));
        }
        k = k + 1;
    }
    assert(r.take(k as int) =~= r);
    out
}

/// One step of restoring samples in place.
proof fn lemma_s16_restored_step(
    x: Seq<int>,
    y: Seq<int>,
    r: Seq<int>,
    i: int,
    order: int,
    s: int,
)
    requires
        0 <= i < r.len(),
        x.len() == r.len(),
        y.len() == r.len(),
        x.take(i) == s16_restored(r.take(i), order),
        x[i] == r[i],
        s == (x[i] + predict::prediction(x, i, 1, order) % 65536) % 65536,
        forall|j: int| 0 <= j < i ==> #[trigger] y[j] == x[j],
        y[i] == s,
    ensures
        y.take(i + 1) == s16_restored(r.take(i + 1), order),
{
    reveal(s16_restored);
    let p = s16_restored(r.take(i), order);
    let q = p.push(r[i]);
    assert(r.take(i + 1).drop_last() =~= r.take(i));
    assert forall|j: int| 0 <= j <= i implies q[j] == x[j] by {
        if j < i {
            assert(x[j] == x.take(i)[j]);
        }
    }
    assert(predict::prediction(q, i, 1, order) == predict::prediction(x, i, 1, order));
    lemma_add_mod_noop_right(x[i], predict::prediction(x, i, 1, order), 65536);
    assert(y.take(i + 1) =~= p.push(s)) by {
        assert forall|j: int| 0 <= j < i implies y[j] == q[j] by {}
    }
}

/// Replaces each residual by its sample.
pub(crate) fn s16_decode(data: Vec<u8>, order: u8) -> (out: Vec<u8>)
    requires
        2 <= order <= 3,
    ensures
        out@ == s16_unfiltered(data@, order as int),
{
    let n: usize = data.len();
    if n % 2 != 0 || n < 2 * order as usize {
        return data;
    }
    let ghost r = samples(data@);
    let mut out: Vec<u8> = data;
    let mut k: usize = 0;
    proof {
        reveal(s16_restored);
        assert(samples(out@).take(0) =~= s16_restored(r.take(0), order as int));
    }
    while k < n / 2
        invariant
            2 <= order <= 3,
            n == out@.len(),
            n % 2 == 0,
            k <= n / 2,
            r.len() == n / 2,
            predict::within(r, 65536),
            samples(out@).take(k as int) == s16_restored(r.take(k as int), order as int),
            forall|j: int| k <= j < n / 2 ==> #[trigger] samples(out@)[j] == r[j],
        decreases n / 2 - k,
    {
        let ghost before = out@;
        let p: u32 = predicted_sample(out.as_slice(), k, order) as u32;
        let d: u32 = sample_at(out.as_slice(), k) as u32;
        let s: u16 = ((d + p) % 65536) as u16;
        out[2 * k] = (s % 256) as u8;
        out[2 * k + 1] = (s / 256) as u8;
        proof {
            assert(samples(out@)[k as int] == s);
            assert forall|j: int| 0 <= j < n / 2 && j != k implies #[trigger] samples(out@)[j]
                == samples(before)[j] by {}
            lemma_s16_restored_step(
                samples(before),
                samples(out@),
                r,
                k as int,
                order as int,
                s as int,
            );
        }
        k = k + 1;
    }
    proof {
        assert(r.take(k as int) =~= r);
        assert(samples(out@).take(k as int) =~= samples(out@));
        lemma_bytes_of_samples(out@);
    }
    out
}

/// Second-order residuals of samples.
pub fn delta_s16_o2_encode(data: &[u8]) -> (out: Vec<u8>)
    ensures
        out@ == s16_filtered(data@, 2),
{
    s16_encode(data, 2)
}

/// Samples from their second-order residuals.
pub fn delta_s16_o2_decode(data: Vec<u8>) -> (out: Vec<u8>)
    ensures
        out@ == s16_unfiltered(data@, 2),
{
    s16_decode(data, 2)
}

/// Third-order residuals of samples.
pub fn delta_s16_o3_encode(data: &[u8]) -> (out: Vec<u8>)
    ensures
        out@ == s16_filtered(data@, 3),
{
    s16_encode(data, 3)
}

/// Samples from their third-order residuals.
pub fn delta_s16_o3_decode(data: Vec<u8>) -> (out: Vec<u8>)
    ensures
        out@ == s16_unfiltered(data@, 3),
{
    s16_decode(data, 3)
}

/// Sample filters lose nothing.
pub proof fn lemma_s16_round_trip(data: Seq<u8>, order: int)
    ensures
        s16_unfiltered(s16_filtered(data, order), order) == data,
{
    if is_mono(data.len() as int, order) {
        let x = samples(data);
        let r = s16_residuals(x, order);
        lemma_s16_restore_residuals(x, order);
        lemma_residuals_within(x, order);
        lemma_samples_of_bytes(r);
        lemma_bytes_of_samples(data);
    }
}

} // verus!
