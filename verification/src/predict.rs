//! Prediction of a value from the values before it, in modular arithmetic.
//!
//! All filters of this library are built from one pair of functions: `residuals` takes each value
//! of a sequence to its distance from a prediction, and `restored` takes the distances back.

use vstd::arithmetic::div_mod::*;
use vstd::prelude::*;

verus! {

/// The value that the values `stride`, `2 * stride` and `3 * stride` places before place `i` let
/// expect there: 0 for order 0, the last value for order 1, the straight line through the last
/// two values for order 2, the parabola through the last three for order 3. Near the start of the
/// sequence, where there are too few values, the order is lower.
pub open spec fn prediction(x: Seq<int>, i: int, stride: int, order: int) -> int {
    if order <= 0 || i < stride {
        0
    } else if order == 1 || i < 2 * stride {
        x[i - stride]
    } else if order == 2 || i < 3 * stride {
        2 * x[i - stride] - x[i - 2 * stride]
    } else {
        3 * x[i - stride] - 3 * x[i - 2 * stride] + x[i - 3 * stride]
    }
}

/// The distance of each value from its prediction, modulo `m`.
pub open spec fn residuals(x: Seq<int>, stride: int, order: int, m: int) -> Seq<int> {
    Seq::new(x.len(), |i: int| (x[i] - prediction(x, i, stride, order)) % m)
}

/// The values that have the distances `r` from their predictions, worked out from first to last
/// in the place of the distances.
pub open spec fn restored(r: Seq<int>, stride: int, order: int, m: int) -> Seq<int>
    decreases r.len(),
{
    if r.len() == 0 {
        Seq::empty()
    } else {
        let before = restored(r.drop_last(), stride, order, m);
        let i = r.len() - 1;
        before.push((r[i] + prediction(before.push(r[i]), i, stride, order)) % m)
    }
}

/// All values lie from 0 up to `m`.
pub open spec fn within(x: Seq<int>, m: int) -> bool {
    forall|i: int| 0 <= i < x.len() ==> 0 <= #[trigger] x[i] < m
}

/// As many values are restored as distances are given.
pub proof fn lemma_restored_len(r: Seq<int>, stride: int, order: int, m: int)
    requires
        m > 0,
    ensures
        restored(r, stride, order, m).len() == r.len(),
        within(restored(r, stride, order, m), m),
    decreases r.len(),
{
    if r.len() > 0 {
        lemma_restored_len(r.drop_last(), stride, order, m);
        let i = r.len() - 1;
        let before = restored(r.drop_last(), stride, order, m);
        lemma_mod_bound(r[i] + prediction(before.push(r[i]), i, stride, order), m);
    }
}

/// A prediction looks only at earlier values.
proof fn lemma_prediction_looks_back(x: Seq<int>, y: Seq<int>, i: int, stride: int, order: int)
    requires
        stride >= 1,
        0 <= i,
        i <= x.len(),
        i <= y.len(),
        x.take(i) == y.take(i),
    ensures
        prediction(x, i, stride, order) == prediction(y, i, stride, order),
{
    assert forall|j: int| 0 <= j < i implies x[j] == y[j] by {
        assert(x[j] == x.take(i)[j]);
        assert(y[j] == y.take(i)[j]);
    }
}

/// Restoring undoes the prediction: a sequence is restored from its residuals.
pub proof fn lemma_restore_residuals(x: Seq<int>, stride: int, order: int, m: int)
    requires
        stride >= 1,
        m > 0,
        within(x, m),
    ensures
        restored(residuals(x, stride, order, m), stride, order, m) == x,
    decreases x.len(),
{
    let r = residuals(x, stride, order, m);
    if x.len() == 0 {
        assert(restored(r, stride, order, m) =~= x);
    } else {
        let i = x.len() - 1;
        let y = x.drop_last();
        assert forall|k: int| 0 <= k < i implies r.drop_last()[k] == residuals(
            y,
            stride,
            order,
            m,
        )[k] by {
            assert(x.take(k) =~= y.take(k));
            lemma_prediction_looks_back(x, y, k, stride, order);
        }
        assert(r.drop_last() =~= residuals(y, stride, order, m));
        lemma_restore_residuals(y, stride, order, m);
        assert(y.push(r[i]).take(i) =~= x.take(i));
        lemma_prediction_looks_back(y.push(r[i]), x, i, stride, order);
        let p = prediction(x, i, stride, order);
        lemma_add_mod_noop_right(p, x[i] - p, m);
        lemma_small_mod(x[i] as nat, m as nat);
        assert(restored(r, stride, order, m) =~= x);
    }
}

/// Prediction undoes restoring: a sequence of residuals is that of the sequence restored from it.
pub proof fn lemma_residuals_of_restored(r: Seq<int>, stride: int, order: int, m: int)
    requires
        stride >= 1,
        m > 0,
        within(r, m),
    ensures
        residuals(restored(r, stride, order, m), stride, order, m) == r,
    decreases r.len(),
{
    let x = restored(r, stride, order, m);
    lemma_restored_len(r, stride, order, m);
    if r.len() > 0 {
        let i = r.len() - 1;
        let s = r.drop_last();
        let y = restored(s, stride, order, m);
        lemma_residuals_of_restored(s, stride, order, m);
        lemma_restored_len(s, stride, order, m);
        assert(x.drop_last() =~= y);
        assert forall|k: int| 0 <= k < i implies residuals(x, stride, order, m)[k] == r[k] by {
            assert(x.take(k) =~= y.take(k));
            lemma_prediction_looks_back(x, y, k, stride, order);
            assert(residuals(y, stride, order, m)[k] == s[k]);
        }
        assert(y.push(r[i]).take(i) =~= x.take(i));
        lemma_prediction_looks_back(y.push(r[i]), x, i, stride, order);
        let p = prediction(x, i, stride, order);
        lemma_sub_mod_noop(r[i] + p, p, m);
        lemma_sub_mod_noop((r[i] + p) % m, p, m);
        lemma_mod_twice(r[i] + p, m);
        lemma_small_mod(r[i] as nat, m as nat);
    }
    assert(residuals(x, stride, order, m) =~= r);
}

/// Bytes as numbers.
pub open spec fn ints(data: Seq<u8>) -> Seq<int> {
    Seq::new(data.len(), |i: int| data[i] as int)
}

/// Numbers below 256 as bytes.
pub open spec fn octets(x: Seq<int>) -> Seq<u8> {
    Seq::new(x.len(), |i: int| x[i] as u8)
}

} // verus!
