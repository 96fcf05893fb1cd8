//! Filters that take every `stride`-th byte together and work on each such plane by itself.

use crate::bytes;
use crate::delta;
use vstd::arithmetic::div_mod::*;
use vstd::arithmetic::mul::*;
use vstd::prelude::*;
use vstd::slice::{slice_subrange, slice_to_vec};

verus! {

/// The first `m` bytes at places `ch`, `ch + stride`, `ch + 2 * stride` and so on.
pub open spec fn plane(data: Seq<u8>, stride: int, ch: int, m: int) -> Seq<u8> {
    Seq::new(m as nat, |i: int| data[i * stride + ch])
}

/// The filtered planes 0 to `count - 1`, one after the other.
pub open spec fn filtered_planes(
    data: Seq<u8>,
    stride: int,
    order: int,
    m: int,
    count: nat,
) -> Seq<u8>
    decreases count,
{
    if count == 0 {
        Seq::empty()
    } else {
        filtered_planes(data, stride, order, m, (count - 1) as nat) + delta::filtered(
            plane(data, stride, count - 1, m),
            1,
            order,
        )
    }
}

/// All filtered planes, then the bytes at the end that fill no place in each plane.
pub open spec fn planar_filtered(data: Seq<u8>, stride: int, order: int) -> Seq<u8> {
    let m = data.len() as int / stride;
    filtered_planes(data, stride, order, m, stride as nat) + data.skip(m * stride)
}

/// Plane `ch` of the `m` bytes per plane that stand one after the other in `data`, taken back.
pub open spec fn unfiltered_plane(data: Seq<u8>, order: int, m: int, ch: int) -> Seq<u8> {
    delta::unfiltered(data.subrange(ch * m, (ch + 1) * m), 1, order)
}

/// The `n` bytes whose filtered planes are given.
pub open spec fn planar_unfiltered(data: Seq<u8>, stride: int, n: int, order: int) -> Seq<u8> {
    let m = n / stride;
    Seq::new(
        n as nat,
        |p: int|
            if p < m * stride {
                unfiltered_plane(data, order, m, p % stride)[p / stride]
            } else {
                data[p]
            },
    )
}

/// Where the bytes of a plane stand.
proof fn lemma_plane_index(i: int, ch: int, stride: int, m: int, n: int)
    requires
        stride > 0,
        0 <= i < m,
        0 <= ch < stride,
        m == n / stride,
        0 <= n,
    ensures
        0 <= i * stride,
        0 <= i * stride + ch < m * stride <= n,
        m * stride == n - n % stride,
{
    lemma_fundamental_div_mod(n, stride);
    lemma_mul_is_commutative(stride, n / stride);
    assert(0 <= i * stride && i * stride + stride <= m * stride) by (nonlinear_arith)
        requires
            0 <= i < m,
            stride > 0,
    ;
}

proof fn lemma_planes_fit(ch: int, stride: int, m: int, n: int)
    requires
        stride > 0,
        0 <= ch < stride,
        m == n / stride,
        0 <= n,
    ensures
        0 <= ch * m <= (ch + 1) * m <= m * stride <= n,
        (ch + 1) * m == ch * m + m,
        0 <= m,
{
    lemma_fundamental_div_mod(n, stride);
    lemma_mul_is_commutative(stride, n / stride);
    lemma_div_pos_is_pos(n, stride);
    assert(0 <= ch * m && ch * m + m == (ch + 1) * m && (ch + 1) * m <= stride * m)
        by (nonlinear_arith)
        requires
            0 <= ch < stride,
            0 <= m,
    ;
}

/// Filters the planes of `input`.
fn planar_encode(input: &[u8], stride: usize, order: u8) -> (out: Vec<u8>)
    requires
        stride > 0,
        1 <= order <= 2,
    ensures
        out@ == planar_filtered(input@, stride as int, order as int),
{
    let n: usize = input.len();
    let m: usize = n / stride;
    let mut out: Vec<u8> = Vec::with_capacity(n);
    let mut ch: usize = 0;
    while ch < stride
        invariant
            stride > 0,
            1 <= order <= 2,
            n == input@.len(),
            m == n / stride,
            ch <= stride,
            out@ == filtered_planes(input@, stride as int, order as int, m as int, ch as nat),
        decreases stride - ch,
    {
        let mut one: Vec<u8> = Vec::with_capacity(m);
        let ghost p = plane(input@, stride as int, ch as int, m as int);
        while one.len() < m
            invariant
                stride > 0,
                ch < stride,
                n == input@.len(),
                m == n / stride,
                p == plane(input@, stride as int, ch as int, m as int),
                one@.len() <= m,
                one@ == p.take(one@.len() as int),
            decreases m - one@.len(),
        {
            let i: usize = one.len();
            proof {
                lemma_plane_index(i as int, ch as int, stride as int, m as int, n as int);
            }
            one.push(input[i * stride + ch]);
            assert(one@ =~= p.take(i + 1));
        }
        assert(one@ =~= p);
        let enc: Vec<u8> = if order == 1 {
            delta::delta_n_encode(one.as_slice(), 1)
        } else {
            delta::delta_n_order2_encode(one.as_slice(), 1)
        };
        bytes::append(&mut out, enc.as_slice());
        ch = ch + 1;
    }
    proof {
        lemma_planes_fit(0, stride as int, m as int, n as int);
    }
    let tail: &[u8] = slice_subrange(input, m * stride, n);
    bytes::append(&mut out, tail);
    assert(tail@ =~= input@.skip(m * stride));
    out
}

/// Takes filtered planes back to the bytes that they were made of.
fn planar_decode(data: &[u8], stride: usize, orig_len: usize, order: u8) -> (out: Vec<u8>)
    requires
        stride > 0,
        1 <= order <= 2,
        orig_len <= data@.len(),
    ensures
        out@ == planar_unfiltered(data@, stride as int, orig_len as int, order as int),
{
    let m: usize = orig_len / stride;
    let mut planes: Vec<Vec<u8>> = Vec::new();
    while planes.len() < stride
        invariant
            stride > 0,
            1 <= order <= 2,
            orig_len <= data@.len(),
            m == orig_len / stride,
            planes@.len() <= stride,
            forall|ch: int|
                0 <= ch < planes@.len() ==> (#[trigger] planes@[ch])@ == unfiltered_plane(
                    data@,
                    order as int,
                    m as int,
                    ch,
                ),
        decreases stride - planes@.len(),
    {
        let ch: usize = planes.len();
        proof {
            lemma_planes_fit(ch as int, stride as int, m as int, orig_len as int);
        }
        let part: Vec<u8> = slice_to_vec(slice_subrange(data, ch * m, ch * m + m));
        let dec: Vec<u8> = if order == 1 {
            delta::delta_n_decode(part, 1)
        } else {
            delta::delta_n_order2_decode(part, 1)
        };
        planes.push(dec);
    }
    let mut out: Vec<u8> = Vec::with_capacity(orig_len);
    let ghost result = planar_unfiltered(data@, stride as int, orig_len as int, order as int);
    proof {
        lemma_planes_fit(0, stride as int, m as int, orig_len as int);
    }
    let planar_end: usize = m * stride;
    let mut p: usize = 0;
    while p < planar_end
        invariant
            stride > 0,
            orig_len <= data@.len(),
            m == orig_len / stride,
            planar_end == m * stride,
            planar_end <= orig_len,
            planes@.len() == stride,
            forall|ch: int|
                0 <= ch < planes@.len() ==> (#[trigger] planes@[ch])@ == unfiltered_plane(
                    data@,
                    order as int,
                    m as int,
                    ch,
                ),
            result == planar_unfiltered(data@, stride as int, orig_len as int, order as int),
            p <= planar_end,
            out@ == result.take(p as int),
        decreases planar_end - p,
    {
        let ch: usize = p % stride;
        let i: usize = p / stride;
        proof {
            lemma_place_in_plane(p as int, stride as int, m as int);
            lemma_planes_fit(ch as int, stride as int, m as int, orig_len as int);
            delta::lemma_unfiltered_len(
                data@.subrange(ch * m, (ch + 1) * m),
                1,
                order as int,
            );
            assert(planes@[ch as int]@ == unfiltered_plane(
                data@,
                order as int,
                m as int,
                ch as int,
            ));
        }
        out.push(planes[ch][i]);
        p = p + 1;
        assert(out@ =~= result.take(p as int));
    }
    while out.len() < orig_len
        invariant
            orig_len <= data@.len(),
            m == orig_len / stride,
            m * stride <= out@.len() <= orig_len,
            result == planar_unfiltered(data@, stride as int, orig_len as int, order as int),
            out@ == result.take(out@.len() as int),
        decreases orig_len - out@.len(),
    {
        out.push(data[out.len()]);
        assert(out@ =~= result.take(out@.len() as int));
    }
    assert(out@ =~= result);
    out
}

proof fn lemma_place_in_plane(p: int, stride: int, m: int)
    requires
        stride > 0,
        0 <= p < m * stride,
    ensures
        0 <= p % stride < stride,
        0 <= p / stride < m,
        p / stride * stride + p % stride == p,
{
    lemma_fundamental_div_mod(p, stride);
    lemma_mul_is_commutative(stride, p / stride);
    lemma_mod_bound(p, stride);
    lemma_div_pos_is_pos(p, stride);
    let q = p / stride;
    assert(q < m) by (nonlinear_arith)
        requires
            q * stride <= p,
            p < m * stride,
            stride > 0,
    ;
}

/// The distance of each byte from the one before it in its plane.
pub fn planar_delta_encode(input: &[u8], stride: usize) -> (out: Vec<u8>)
    requires
        stride > 0,
    ensures
        out@ == planar_filtered(input@, stride as int, 1),
{
    planar_encode(input, stride, 1)
}

/// The bytes whose distances from the ones before them in their planes are given.
pub fn planar_delta_decode(data: &[u8], stride: usize, orig_len: usize) -> (out: Vec<u8>)
    requires
        stride > 0,
        orig_len <= data@.len(),
    ensures
        out@ == planar_unfiltered(data@, stride as int, orig_len as int, 1),
{
    planar_decode(data, stride, orig_len, 1)
}

/// The distance of each byte from the straight line through the two before it in its plane.
pub fn planar_o2_delta_encode(input: &[u8], stride: usize) -> (out: Vec<u8>)
    requires
        stride > 0,
    ensures
        out@ == planar_filtered(input@, stride as int, 2),
{
    planar_encode(input, stride, 2)
}

/// The bytes whose distances from the straight lines in their planes are given.
pub fn planar_o2_delta_decode(data: &[u8], stride: usize, orig_len: usize) -> (out: Vec<u8>)
    requires
        stride > 0,
        orig_len <= data@.len(),
    ensures
        out@ == planar_unfiltered(data@, stride as int, orig_len as int, 2),
{
    planar_decode(data, stride, orig_len, 2)
}

/// Where the filtered planes stand.
proof fn lemma_filtered_planes(data: Seq<u8>, stride: int, order: int, m: int, count: nat, ch: int)
    requires
        0 <= m,
        0 <= ch < count,
    ensures
        filtered_planes(data, stride, order, m, count).len() == count * m,
        0 <= ch * m <= (ch + 1) * m <= count * m,
        filtered_planes(data, stride, order, m, count).subrange(ch * m, (ch + 1) * m)
            == delta::filtered(plane(data, stride, ch, m), 1, order),
    decreases count,
{
    let before = filtered_planes(data, stride, order, m, (count - 1) as nat);
    let all = filtered_planes(data, stride, order, m, count);
    assert(0 <= ch * m && ch * m + m == (ch + 1) * m && (ch + 1) * m <= count * m && (count - 1) * m
        + m == count * m) by (nonlinear_arith)
        requires
            0 <= m,
            0 <= ch < count,
    ;
    if ch == count - 1 {
        lemma_filtered_planes_len(data, stride, order, m, (count - 1) as nat);
        assert(all.subrange(ch * m, (ch + 1) * m) =~= delta::filtered(
            plane(data, stride, ch, m),
            1,
            order,
        ));
    } else {
        lemma_filtered_planes(data, stride, order, m, (count - 1) as nat, ch);
        assert(all.subrange(ch * m, (ch + 1) * m) =~= before.subrange(ch * m, (ch + 1) * m));
    }
}

proof fn lemma_filtered_planes_len(data: Seq<u8>, stride: int, order: int, m: int, count: nat)
    requires
        0 <= m,
    ensures
        filtered_planes(data, stride, order, m, count).len() == count * m,
    decreases count,
{
    if count > 0 {
        lemma_filtered_planes_len(data, stride, order, m, (count - 1) as nat);
        assert((count - 1) * m + m == count * m) by (nonlinear_arith);
    } else {
        assert(0 * m == 0) by (nonlinear_arith);
    }
}

/// Planar filters keep the length.
pub proof fn lemma_planar_len(data: Seq<u8>, stride: int, order: int)
    requires
        stride > 0,
    ensures
        planar_filtered(data, stride, order).len() == data.len(),
{
    let m = data.len() as int / stride;
    lemma_planes_fit(0, stride, m, data.len() as int);
    lemma_filtered_planes_len(data, stride, order, m, stride as nat);
    lemma_mul_is_commutative(stride, m);
}

/// Planar filters lose nothing.
pub proof fn lemma_planar_round_trip(data: Seq<u8>, stride: int, order: int)
    requires
        stride > 0,
    ensures
        planar_unfiltered(
            planar_filtered(data, stride, order),
            stride,
            data.len() as int,
            order,
        ) == data,
{
    let n = data.len() as int;
    let m = n / stride;
    let f = planar_filtered(data, stride, order);
    let planes = filtered_planes(data, stride, order, m, stride as nat);
    let out = planar_unfiltered(f, stride, n, order);
    lemma_planes_fit(0, stride, m, n);
    lemma_filtered_planes_len(data, stride, order, m, stride as nat);
    lemma_mul_is_commutative(stride, m);
    assert forall|p: int| 0 <= p < n implies out[p] == data[p] by {
        if p < m * stride {
            let ch = p % stride;
            let i = p / stride;
            lemma_place_in_plane(p, stride, m);
            lemma_filtered_planes(data, stride, order, m, stride as nat, ch);
            assert(f.subrange(ch * m, (ch + 1) * m) =~= planes.subrange(ch * m, (ch + 1) * m));
            delta::lemma_delta_round_trip(plane(data, stride, ch, m), 1, order);
        }
    }
    assert(out =~= data);
}

} // verus!
