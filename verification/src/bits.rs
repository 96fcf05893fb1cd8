//! Bit streams packed into bytes, most significant bit first.

use vstd::prelude::*;

verus! {

/// Bit `k` of a byte, where bit 0 is the most significant one.
pub open spec fn byte_bit(b: u8, k: int) -> bool {
    (b >> ((7 - k) as u8)) & 1 == 1
}

/// All bits of a byte string, in order.
pub open spec fn unpack(data: Seq<u8>) -> Seq<bool> {
    Seq::new(8 * data.len(), |i: int| byte_bit(data[i / 8], i % 8))
}

/// The weight of bit `i` of a stream; the stream is followed by zero bits.
pub open spec fn weighted(bits: Seq<bool>, i: int, weight: int) -> int {
    if 0 <= i < bits.len() && bits[i] {
        weight
    } else {
        0
    }
}

/// The byte that bits `8 * k` to `8 * k + 7` of a stream make up.
pub open spec fn packed_byte(bits: Seq<bool>, k: int) -> u8 {
    (weighted(bits, 8 * k, 128) + weighted(bits, 8 * k + 1, 64) + weighted(bits, 8 * k + 2, 32)
        + weighted(bits, 8 * k + 3, 16) + weighted(bits, 8 * k + 4, 8) + weighted(
        bits,
        8 * k + 5,
        4,
    ) + weighted(bits, 8 * k + 6, 2) + weighted(bits, 8 * k + 7, 1)) as u8
}

/// The bytes that hold a bit stream; the last one is filled up with zero bits.
pub open spec fn pack(bits: Seq<bool>) -> Seq<u8> {
    Seq::new(((bits.len() + 7) / 8) as nat, |k: int| packed_byte(bits, k))
}

/// The low `count` bits of `value`, most significant first.
pub open spec fn low_bits(value: u32, count: int) -> Seq<bool> {
    Seq::new(count as nat, |k: int| (value >> ((count - 1 - k) as u32)) & 1 == 1)
}

/// The number that the first `n` bits of a stream make up, most significant bit first; the
/// stream is followed by zero bits.
pub open spec fn prefix_value(bits: Seq<bool>, n: nat) -> nat
    decreases n,
{
    if n == 0 {
        0
    } else {
        2 * prefix_value(bits, (n - 1) as nat) + if n <= bits.len() && bits[n - 1] {
            1nat
        } else {
            0nat
        }
    }
}

/// Bit `i` of the accumulator, where bit 0 is the most significant one.
spec fn acc_bit(acc: u64, i: int) -> bool {
    (acc >> ((63 - i) as u64)) & 1 == 1
}

/// The first `n` bits of the accumulator.
spec fn acc_bits(acc: u64, n: int) -> Seq<bool> {
    Seq::new(n as nat, |i: int| acc_bit(acc, i))
}

/// All bits of the accumulator from bit `n` on are zero.
spec fn clear_from(acc: u64, n: int) -> bool {
    forall|i: int| n <= i < 64 ==> !#[trigger] acc_bit(acc, i)
}

proof fn lemma_or_bit(acc: u64, value: u32, n: u64, count: u64, i: u64)
    by (bit_vector)
    requires
        n + count <= 64,
        1 <= count <= 15,
        i < 64,
    ensures
        ((acc | (((value as u64) & ((1u64 << count) - 1) as u64) << (64 - n - count) as u64)) >> (63
            - i) as u64) & 1 == 1 <==> ((acc >> (63 - i) as u64) & 1 == 1 || (n <= i < n + count
            && (value >> (n + count - 1 - i) as u32) & 1 == 1)),
{
}

proof fn lemma_shl_bit(acc: u64, n: u64, i: u64)
    by (bit_vector)
    requires
        n < 64,
        i < 64,
    ensures
        ((acc << n) >> (63 - i) as u64) & 1 == 1 <==> (i + n < 64 && (acc >> (63 - (i + n)) as u64) & 1
            == 1),
{
}

proof fn lemma_top_byte_bit(acc: u64, k: u64)
    by (bit_vector)
    requires
        k < 8,
    ensures
        (((acc >> 56) as u8) >> (7 - k) as u8) & 1 == 1 <==> (acc >> (63 - k) as u64) & 1 == 1,
{
}

proof fn lemma_load_bit(acc: u64, b: u8, n: u64, i: u64)
    by (bit_vector)
    requires
        n <= 56,
        i < 64,
    ensures
        ((acc | ((b as u64) << (56 - n) as u64)) >> (63 - i) as u64) & 1 == 1 <==> ((acc >> (63
            - i) as u64) & 1 == 1 || (n <= i < n + 8 && (b >> (7 - (i - n)) as u8) & 1 == 1)),
{
}

proof fn lemma_top_bits_step(acc: u64, n: u64)
    by (bit_vector)
    requires
        1 <= n < 64,
    ensures
        acc >> (64 - (n + 1)) as u64 == 2 * (acc >> (64 - n) as u64) + ((acc >> (63 - n) as u64) & 1),
{
}

proof fn lemma_top_bit(acc: u64)
    by (bit_vector)
    ensures
        acc >> 63 == (acc >> 63) & 1,
{
}

proof fn lemma_top_bits_fit(acc: u64, n: u64)
    by (bit_vector)
    requires
        1 <= n <= 32,
    ensures
        acc >> (64 - n) as u64 <= u32::MAX,
{
}

proof fn lemma_byte_weights(b: u8)
    by (bit_vector)
    ensures
        b == ((b >> 7) & 1) * 128 + ((b >> 6) & 1) * 64 + ((b >> 5) & 1) * 32 + ((b >> 4) & 1) * 16
            + ((b >> 3) & 1) * 8 + ((b >> 2) & 1) * 4 + ((b >> 1) & 1) * 2 + ((b >> 0) & 1),
        (b >> 7) & 1 <= 1,
        (b >> 6) & 1 <= 1,
        (b >> 5) & 1 <= 1,
        (b >> 4) & 1 <= 1,
        (b >> 3) & 1 <= 1,
        (b >> 2) & 1 <= 1,
        (b >> 1) & 1 <= 1,
        (b >> 0) & 1 <= 1,
{
}

proof fn lemma_shr_step(v: u32, j: u32)
    by (bit_vector)
    requires
        j < 31,
    ensures
        v >> j == 2 * (v >> (j + 1) as u32) + ((v >> j) & 1),
{
}

/// A byte is the byte packed from its own bits.
proof fn lemma_packed_byte(bits: Seq<bool>, k: int, b: u8)
    requires
        0 <= k,
        forall|j: int|
            0 <= j < 8 ==> (byte_bit(b, j) <==> (8 * k + j < bits.len() && bits[8 * k + j])),
    ensures
        packed_byte(bits, k) == b,
{
    lemma_byte_weights(b);
    assert(byte_bit(b, 0) <==> (8 * k < bits.len() && bits[8 * k + 0]));
    assert(byte_bit(b, 1) <==> (8 * k + 1 < bits.len() && bits[8 * k + 1]));
    assert(byte_bit(b, 2) <==> (8 * k + 2 < bits.len() && bits[8 * k + 2]));
    assert(byte_bit(b, 3) <==> (8 * k + 3 < bits.len() && bits[8 * k + 3]));
    assert(byte_bit(b, 4) <==> (8 * k + 4 < bits.len() && bits[8 * k + 4]));
    assert(byte_bit(b, 5) <==> (8 * k + 5 < bits.len() && bits[8 * k + 5]));
    assert(byte_bit(b, 6) <==> (8 * k + 6 < bits.len() && bits[8 * k + 6]));
    assert(byte_bit(b, 7) <==> (8 * k + 7 < bits.len() && bits[8 * k + 7]));
}

/// The bits of a byte string followed by those of one more byte.
proof fn lemma_unpack_push(data: Seq<u8>, b: u8)
    ensures
        unpack(data.push(b)) == unpack(data) + unpack(seq![b]),
{
    assert(unpack(data.push(b)) =~= unpack(data) + unpack(seq![b]));
}

/// Collects bits into bytes.
pub struct BitWriter {
    buf: Vec<u8>,
    accumulator: u64,
    bits_in_acc: u8,
}

impl BitWriter {
    /// The bits written so far.
    pub closed spec fn bits(&self) -> Seq<bool> {
        unpack(self.buf@) + acc_bits(self.accumulator, self.bits_in_acc as int)
    }

    /// Fewer than eight bits wait in the accumulator, and nothing stands behind them.
    pub closed spec fn wf(&self) -> bool {
        &&& self.bits_in_acc < 8
        &&& clear_from(self.accumulator, self.bits_in_acc as int)
    }

    /// An empty stream.
    pub fn new() -> (w: Self)
        ensures
            w.wf(),
            w.bits() == Seq::<bool>::empty(),
    {
        let w = BitWriter { buf: Vec::new(), accumulator: 0, bits_in_acc: 0 };
        proof {
            assert forall|i: int| 0 <= i < 64 implies !#[trigger] acc_bit(0, i) by {
                lemma_zero_bit((63 - i) as u64);
            }
            assert(w.bits() =~= Seq::<bool>::empty());
        }
        w
    }

    /// Appends the low `count` bits of `value`, most significant first.
    pub fn write_bits(&mut self, value: u32, count: u8)
        requires
            old(self).wf(),
            0 < count <= 15,
        ensures
            final(self).wf(),
            final(self).bits() == old(self).bits() + low_bits(value, count as int),
    {
        assert((1u64 << count) >= 1) by (bit_vector)
            requires
                count <= 15,
        ;
        let masked: u64 = (value as u64) & ((1u64 << count) - 1);
        let ghost n = self.bits_in_acc as int;
        let ghost acc0 = self.accumulator;
        self.accumulator = self.accumulator | (masked << (64 - self.bits_in_acc - count));
        self.bits_in_acc = self.bits_in_acc + count;
        let ghost target = old(self).bits() + low_bits(value, count as int);
        proof {
            assert forall|i: int| 0 <= i < 64 implies #[trigger] acc_bit(self.accumulator, i) == (
            acc_bit(acc0, i) || (n <= i < n + count && low_bits(value, count as int)[i - n])) by {
                lemma_or_bit(acc0, value, n as u64, count as u64, i as u64);
            }
            assert(acc_bits(self.accumulator, n + count) =~= acc_bits(acc0, n) + low_bits(
                value,
                count as int,
            ));
            assert(self.bits() =~= target);
        }
        while self.bits_in_acc >= 8
            invariant
                self.bits_in_acc <= 22,
                clear_from(self.accumulator, self.bits_in_acc as int),
                self.bits() == target,
            decreases self.bits_in_acc,
        {
            let ghost before = *self;
            let byte: u8 = (self.accumulator >> 56) as u8;
            self.buf.push(byte);
            self.accumulator = self.accumulator << 8;
            self.bits_in_acc = self.bits_in_acc - 8;
            proof {
                lemma_unpack_push(before.buf@, byte);
                assert forall|k: int| 0 <= k < 8 implies byte_bit(byte, k) == acc_bit(
                    before.accumulator,
                    k,
                ) by {
                    lemma_top_byte_bit(before.accumulator, k as u64);
                }
                assert forall|i: int| 0 <= i < 64 implies #[trigger] acc_bit(self.accumulator, i)
                    == (i + 8 < 64 && acc_bit(before.accumulator, i + 8)) by {
                    lemma_shl_bit(before.accumulator, 8, i as u64);
                }
                assert(acc_bits(before.accumulator, before.bits_in_acc as int) =~= unpack(
                    seq![byte],
                ) + acc_bits(self.accumulator, self.bits_in_acc as int));
                assert(self.bits() =~= target);
            }
        }
    }

    /// The bytes of the stream, the last one filled up with zero bits.
    pub fn finish(self) -> (out: Vec<u8>)
        requires
            self.wf(),
        ensures
            out@ == pack(self.bits()),
    {
        let ghost bits = self.bits();
        let mut out: Vec<u8> = self.buf;
        proof {
            assert forall|k: int| 0 <= k < out@.len() implies packed_byte(bits, k) == out@[k] by {
                assert forall|j: int| 0 <= j < 8 implies (byte_bit(out@[k], j) <==> (8 * k + j
                    < bits.len() && bits[8 * k + j])) by {
                    assert((8 * k + j) / 8 == k && (8 * k + j) % 8 == j);
                }
                lemma_packed_byte(bits, k, out@[k]);
            }
        }
        if self.bits_in_acc > 0 {
            let byte: u8 = (self.accumulator >> 56) as u8;
            proof {
                let k = out@.len() as int;
                assert forall|j: int| 0 <= j < 8 implies (byte_bit(byte, j) <==> (8 * k + j
                    < bits.len() && bits[8 * k + j])) by {
                    lemma_top_byte_bit(self.accumulator, j as u64);
                    assert(byte_bit(byte, j) == acc_bit(self.accumulator, j));
                }
                lemma_packed_byte(bits, k, byte);
            }
            out.push(byte);
        }
        assert(out@ =~= pack(bits));
        out
    }
}

/// Hands out the bits of a byte string, followed by as many zero bits as are asked for.
pub struct BitReader<'a> {
    data: &'a [u8],
    byte_pos: usize,
    accumulator: u64,
    bits_in_acc: u8,
}

impl<'a> BitReader<'a> {
    /// The bits that wait in the accumulator.
    pub closed spec fn loaded(&self) -> Seq<bool> {
        acc_bits(self.accumulator, self.bits_in_acc as int)
    }

    /// The bytes that have not been moved to the accumulator.
    pub closed spec fn unread(&self) -> Seq<u8> {
        self.data@.skip(self.byte_pos as int)
    }

    /// The bits that are left.
    pub open spec fn bits(&self) -> Seq<bool> {
        self.loaded() + unpack(self.unread())
    }

    /// The accumulator holds at most 64 bits and nothing behind them.
    pub closed spec fn wf(&self) -> bool {
        &&& self.bits_in_acc <= 64
        &&& self.byte_pos <= self.data@.len()
        &&& clear_from(self.accumulator, self.bits_in_acc as int)
    }

    /// A reader at the first bit of `data`.
    pub fn new(data: &'a [u8]) -> (r: Self)
        ensures
            r.wf(),
            r.loaded() == Seq::<bool>::empty(),
            r.unread() == data@,
            r.bits() == unpack(data@),
    {
        let r = BitReader { data, byte_pos: 0, accumulator: 0, bits_in_acc: 0 };
        proof {
            assert forall|i: int| 0 <= i < 64 implies !#[trigger] acc_bit(0, i) by {
                lemma_zero_bit((63 - i) as u64);
            }
            assert(r.loaded() =~= Seq::<bool>::empty());
            assert(r.unread() =~= data@);
            assert(r.bits() =~= unpack(data@));
        }
        r
    }

    /// Moves bytes to the accumulator while one more fits.
    pub fn fill(&mut self)
        requires
            old(self).wf(),
        ensures
            final(self).wf(),
            final(self).bits() == old(self).bits(),
            final(self).unread().len() == 0 || final(self).loaded().len() >= 57,
    {
        while self.bits_in_acc <= 56 && self.byte_pos < self.data.len()
            invariant
                self.wf(),
                self.bits() == old(self).bits(),
            decreases self.data@.len() - self.byte_pos,
        {
            let ghost before = *self;
            let byte: u8 = self.data[self.byte_pos];
            self.accumulator = self.accumulator | ((byte as u64) << (56 - self.bits_in_acc));
            self.byte_pos = self.byte_pos + 1;
            self.bits_in_acc = self.bits_in_acc + 8;
            proof {
                let n = before.bits_in_acc as int;
                assert forall|i: int| 0 <= i < 64 implies #[trigger] acc_bit(self.accumulator, i)
                    == (acc_bit(before.accumulator, i) || (n <= i < n + 8 && byte_bit(
                    byte,
                    i - n,
                ))) by {
                    lemma_load_bit(before.accumulator, byte, n as u64, i as u64);
                }
                let rest = self.unread();
                assert(before.unread() =~= seq![byte] + rest);
                assert(unpack(before.unread()) =~= unpack(seq![byte]) + unpack(rest));
                assert(self.loaded() =~= before.loaded() + unpack(seq![byte]));
                assert(self.bits() =~= before.bits());
            }
        }
    }

    /// The number that the next `n` bits make up, without taking them: its low 32 bits, and of the
    /// bits those that the accumulator can hold.
    pub fn peek_bits(&mut self, n: u8) -> (v: u32)
        requires
            old(self).wf(),
            1 <= n <= 64,
        ensures
            v == prefix_value(final(self).loaded(), n as nat) % 0x1_0000_0000,
            n <= 57 ==> v == prefix_value(old(self).bits(), n as nat) % 0x1_0000_0000,
            n <= 32 ==> v == prefix_value(old(self).bits(), n as nat),
            final(self).wf(),
            final(self).bits() == old(self).bits(),
            final(self).unread().len() == 0 || final(self).loaded().len() >= 57,
    {
        self.fill();
        proof {
            lemma_prefix_value_of_acc(self.accumulator, self.loaded(), n as u64);
            if n <= 57 {
                lemma_prefix_value_of_acc(self.accumulator, self.bits(), n as u64);
            }
            if n <= 32 {
                lemma_top_bits_fit(self.accumulator, n as u64);
            }
        }
        ((self.accumulator >> (64 - n)) % 0x1_0000_0000) as u32
    }

    /// Takes `n` bits from the accumulator, or all of them where it holds fewer.
    pub fn consume_bits(&mut self, n: u8)
        requires
            old(self).wf(),
            n < 64,
        ensures
            final(self).wf(),
            final(self).loaded() == old(self).loaded().skip(
                if n <= old(self).loaded().len() {
                    n as int
                } else {
                    old(self).loaded().len() as int
                },
            ),
            final(self).unread() == old(self).unread(),
    {
        let ghost before = *self;
        self.accumulator = self.accumulator << n;
        self.bits_in_acc = self.bits_in_acc.saturating_sub(n);
        proof {
            assert forall|i: int| 0 <= i < 64 implies #[trigger] acc_bit(self.accumulator, i) == (i
                + n < 64 && acc_bit(before.accumulator, i + n)) by {
                lemma_shl_bit(before.accumulator, n as u64, i as u64);
            }
            assert(self.loaded() =~= before.loaded().skip(
                if n <= before.loaded().len() {
                    n as int
                } else {
                    before.loaded().len() as int
                },
            ));
        }
    }
}

/// The top bits of the accumulator are the number that the next bits make up.
proof fn lemma_prefix_value_of_acc(acc: u64, bits: Seq<bool>, n: u64)
    requires
        1 <= n <= 64,
        forall|i: int|
            0 <= i < n ==> #[trigger] acc_bit(acc, i) == (i < bits.len() && bits[i]),
    ensures
        acc >> (64 - n) as u64 == prefix_value(bits, n as nat),
    decreases n,
{
    assert(acc_bit(acc, n - 1) == (n - 1 < bits.len() && bits[n - 1]));
    if n == 1 {
        reveal_with_fuel(prefix_value, 2);
        lemma_top_bit(acc);
        lemma_one_bit(acc, 63);
    } else {
        let m = (n - 1) as u64;
        lemma_prefix_value_of_acc(acc, bits, m);
        lemma_top_bits_step(acc, m);
        lemma_one_bit(acc, (63 - m) as u64);
    }
}

proof fn lemma_one_bit(x: u64, j: u64)
    by (bit_vector)
    ensures
        (x >> j) & 1 == 0 || (x >> j) & 1 == 1,
{
}

proof fn lemma_zero_bit(j: u64)
    by (bit_vector)
    ensures
        (0u64 >> j) & 1 == 0,
{
}

/// Packing loses no bit: the packed bytes start with the stream that went in.
pub proof fn lemma_unpack_pack(bits: Seq<bool>)
    ensures
        unpack(pack(bits)).len() >= bits.len(),
        unpack(pack(bits)).take(bits.len() as int) == bits,
{
    let all = unpack(pack(bits));
    assert forall|i: int| 0 <= i < bits.len() implies all[i] == bits[i] by {
        let k = i / 8;
        lemma_bits_of_packed_byte(bits, k);
        assert(8 * k + i % 8 == i);
        assert(byte_bit(packed_byte(bits, k), i % 8) == bits[i]);
    }
    assert(all.take(bits.len() as int) =~= bits);
}

proof fn lemma_bits_of_weights(
    b0: bool,
    b1: bool,
    b2: bool,
    b3: bool,
    b4: bool,
    b5: bool,
    b6: bool,
    b7: bool,
    s: u8,
)
    by (bit_vector)
    requires
        s == (if b0 { 128u8 } else { 0u8 }) + (if b1 { 64u8 } else { 0u8 }) + (if b2 { 32u8 } else {
            0u8
        }) + (if b3 { 16u8 } else { 0u8 }) + (if b4 { 8u8 } else { 0u8 }) + (if b5 { 4u8 } else {
            0u8
        }) + (if b6 { 2u8 } else { 0u8 }) + (if b7 { 1u8 } else { 0u8 }),
    ensures
        (s >> 7) & 1 == 1 <==> b0,
        (s >> 6) & 1 == 1 <==> b1,
        (s >> 5) & 1 == 1 <==> b2,
        (s >> 4) & 1 == 1 <==> b3,
        (s >> 3) & 1 == 1 <==> b4,
        (s >> 2) & 1 == 1 <==> b5,
        (s >> 1) & 1 == 1 <==> b6,
        (s >> 0) & 1 == 1 <==> b7,
{
}

/// A packed byte has the bits that it was packed from.
pub proof fn lemma_bits_of_packed_byte(bits: Seq<bool>, k: int)
    requires
        0 <= k,
    ensures
        forall|j: int|
            0 <= j < 8 ==> (#[trigger] byte_bit(packed_byte(bits, k), j) <==> (8 * k + j
                < bits.len() && bits[8 * k + j])),
{
    let at = |j: int| 8 * k + j < bits.len() && bits[8 * k + j];
    let s = packed_byte(bits, k);
    lemma_bits_of_weights(at(0), at(1), at(2), at(3), at(4), at(5), at(6), at(7), s);
    assert forall|j: int| 0 <= j < 8 implies (#[trigger] byte_bit(s, j) <==> at(j)) by {
        assert(j == 0 || j == 1 || j == 2 || j == 3 || j == 4 || j == 5 || j == 6 || j == 7);
    }
}

/// The first bits of a stream that starts with the low `count` bits of `value` make up the high
/// part of those bits.
proof fn lemma_prefix_value_of_low_bits(bits: Seq<bool>, value: u32, count: nat, n: nat)
    requires
        1 <= count <= 15,
        value >> (count as u32) == 0,
        n <= count,
        count <= bits.len(),
        bits.take(count as int) == low_bits(value, count as int),
    ensures
        prefix_value(bits, n) == value >> ((count - n) as u32),
    decreases n,
{
    if n > 0 {
        lemma_prefix_value_of_low_bits(bits, value, count, (n - 1) as nat);
        let j = (count - n) as u32;
        lemma_shr_step(value, j);
        assert(bits.take(count as int)[n - 1] == bits[n - 1]);
        lemma_one_low_bit(value, j);
    }
}

proof fn lemma_one_low_bit(x: u32, j: u32)
    by (bit_vector)
    ensures
        (x >> j) & 1 == 0 || (x >> j) & 1 == 1,
{
}

/// A longer prefix of a stream makes up a number whose high part is that of the shorter one.
proof fn lemma_prefix_value_extends(bits: Seq<bool>, n: nat, more: nat)
    ensures
        prefix_value(bits, n) * vstd::arithmetic::power2::pow2(more) <= prefix_value(bits, n + more),
        prefix_value(bits, n + more) < (prefix_value(bits, n) + 1)
            * vstd::arithmetic::power2::pow2(more),
    decreases more,
{
    vstd::arithmetic::power2::lemma2_to64();
    if more > 0 {
        let m = (more - 1) as nat;
        lemma_prefix_value_extends(bits, n, m);
        vstd::arithmetic::power2::lemma_pow2_unfold(more);
        let p = prefix_value(bits, n);
        let q = vstd::arithmetic::power2::pow2(m);
        assert(p * (2 * q) == 2 * (p * q)) by (nonlinear_arith);
        assert((p + 1) * (2 * q) == 2 * ((p + 1) * q)) by (nonlinear_arith);
    }
}

/// `n` bits make up a number below `2^n`.
pub proof fn lemma_prefix_value_bound(bits: Seq<bool>, n: nat)
    ensures
        prefix_value(bits, n) < vstd::arithmetic::power2::pow2(n),
{
    lemma_prefix_value_extends(bits, 0, n);
}

/// Where a stream starts with the low `count` bits of `value`, the number made up by its first
/// `window` bits has `value` as its high part.
pub proof fn lemma_window_of_low_bits(bits: Seq<bool>, value: u32, count: nat, window: nat)
    requires
        1 <= count <= window <= 15,
        value < vstd::arithmetic::power2::pow2(count),
        count <= bits.len(),
        bits.take(count as int) == low_bits(value, count as int),
    ensures
        value * vstd::arithmetic::power2::pow2((window - count) as nat) <= prefix_value(
            bits,
            window,
        ),
        prefix_value(bits, window) < (value + 1) * vstd::arithmetic::power2::pow2(
            (window - count) as nat,
        ),
{
    vstd::bits::lemma_u32_shr_is_div(value, count as u32);
    vstd::arithmetic::div_mod::lemma_basic_div(
        value as int,
        vstd::arithmetic::power2::pow2(count) as int,
    );
    lemma_prefix_value_of_low_bits(bits, value, count, count);
    assert(value >> 0u32 == value) by (bit_vector);
    lemma_prefix_value_extends(bits, count, (window - count) as nat);
}

} // verus!
