//! How symbols are written as bits, and bits as bytes.

use crate::bits;
use crate::bytes;
use crate::canonical;
use crate::error::Error;
use crate::huffman;
use crate::tree;
use vstd::arithmetic::div_mod::*;
use vstd::arithmetic::power2::*;
use vstd::prelude::*;

verus! {

/// The code of symbol `s` comes before that of `t`: it is shorter, or as long and for a lower
/// symbol.
pub open spec fn comes_before(lengths: Seq<u8>, s: int, t: int) -> bool {
    lengths[s] < lengths[t] || (lengths[s] == lengths[t] && s < t)
}

/// Codes are handed out in order and without gaps, from zero on: read as the start of 15 bits, the
/// first code is 0, and each code follows on the one before it.
pub proof fn law_codes_in_order(lengths: Seq<u8>, s: int, t: int)
    requires
        lengths.len() == 256,
        0 <= s < 256,
        0 <= t < 256,
        0 < lengths[s],
        0 < lengths[t],
    ensures
        (forall|u: int|
            0 <= u < 256 && #[trigger] lengths[u] > 0 ==> u == s || comes_before(lengths, s, u))
            ==> canonical::code_start(lengths, s) == 0,
        comes_before(lengths, s, t) && (forall|u: int|
            0 <= u < 256 && #[trigger] lengths[u] > 0 && u != s && u != t ==> comes_before(
                lengths,
                u,
                s,
            ) || comes_before(lengths, t, u)) ==> canonical::code_start(lengths, t)
            == canonical::code_start(lengths, s) + pow2((15 - lengths[s]) as nat),
{
    if forall|u: int|
        0 <= u < 256 && #[trigger] lengths[u] > 0 ==> u == s || comes_before(lengths, s, u) {
        lemma_nothing_before(lengths, s, 256);
    }
    if comes_before(lengths, s, t) && (forall|u: int|
        0 <= u < 256 && #[trigger] lengths[u] > 0 && u != s && u != t ==> comes_before(
            lengths,
            u,
            s,
        ) || comes_before(lengths, t, u)) {
        lemma_one_before(lengths, s, t, 256);
    }
}

proof fn lemma_nothing_before(lengths: Seq<u8>, s: int, n: nat)
    requires
        n <= 256,
        lengths.len() == 256,
        0 <= s < 256,
        forall|u: int|
            0 <= u < 256 && #[trigger] lengths[u] > 0 ==> u == s || comes_before(lengths, s, u),
    ensures
        canonical::slots_before(lengths, lengths[s] as int, s, n) == 0,
    decreases n,
{
    if n > 0 {
        lemma_nothing_before(lengths, s, (n - 1) as nat);
        assert(lengths[n - 1] > 0 ==> n - 1 == s || comes_before(lengths, s, n - 1));
    }
}

proof fn lemma_one_before(lengths: Seq<u8>, s: int, t: int, n: nat)
    requires
        n <= 256,
        lengths.len() == 256,
        0 <= s < 256,
        0 <= t < 256,
        0 < lengths[s],
        comes_before(lengths, s, t),
        forall|u: int|
            0 <= u < 256 && #[trigger] lengths[u] > 0 && u != s && u != t ==> comes_before(
                lengths,
                u,
                s,
            ) || comes_before(lengths, t, u),
    ensures
        canonical::slots_before(lengths, lengths[t] as int, t, n) == canonical::slots_before(
            lengths,
            lengths[s] as int,
            s,
            n,
        ) + if s < n {
            pow2((15 - lengths[s]) as nat)
        } else {
            0nat
        },
    decreases n,
{
    if n > 0 {
        let u = n - 1;
        lemma_one_before(lengths, s, t, u as nat);
        assert(lengths[u] > 0 && u != s && u != t ==> comes_before(lengths, u, s) || comes_before(
            lengths,
            t,
            u,
        ));
    }
}

/// The code of a symbol is a number of as many bits as its length, and 15 bits that start with it
/// are looked up to that symbol. Bits that start with no code are looked up to length 0.
pub proof fn law_lookup(lengths: Seq<u8>, s: int, w: int)
    requires
        canonical::valid_lengths(lengths),
        0 <= w < 32768,
        0 <= s < 256,
        lengths[s] > 0,
    ensures
        ({
            let size = pow2((15 - lengths[s]) as nat);
            let code = huffman::code_of(lengths, s);
            &&& code * size == canonical::code_start(lengths, s)
            &&& code < pow2(lengths[s] as nat)
            &&& code * size <= w < code * size + size ==> canonical::lookup(lengths, w) == (
                s as u8,
                lengths[s],
            )
            &&& canonical::lookup(lengths, w).1 > 0 && canonical::lookup(lengths, w).0 == s ==> code
                * size <= w < code * size + size && canonical::lookup(lengths, w).1 == lengths[s]
        }),
{
    let size = pow2((15 - lengths[s]) as nat);
    let start = canonical::code_start(lengths, s);
    let code = canonical::lemma_code_start_divides(lengths, s);
    canonical::lemma_code_in_range(lengths, s);
    canonical::lemma_slots_share(lengths[s]);
    let all = pow2(lengths[s] as nat);
    lemma_pow2_pos((15 - lengths[s]) as nat);
    assert(code < all) by (nonlinear_arith)
        requires
            code * size + size <= all * size,
            size > 0,
    ;
    lemma2_to64();
    lemma_pow2_strictly_increases(lengths[s] as nat, 16);
    lemma_div_multiples_vanish(code as int, size as int);
    assert(code * size == size * code) by (nonlinear_arith);
    assert(huffman::code_of(lengths, s) == code);
    if start <= w < start + size {
        assert(canonical::covers(lengths, s, w));
        canonical::lemma_lookup_finds(lengths, s, w);
    }
    if canonical::lookup(lengths, w).1 > 0 && canonical::lookup(lengths, w).0 == s {
        let t = choose|t: int| canonical::covers(lengths, t, w);
        assert(canonical::covers(lengths, t, w));
        assert(t == s);
    }
}

/// The codes of bytes stand one after the other, each with its most significant bit first.
pub proof fn law_code_stream(a: Seq<u8>, b: Seq<u8>, lengths: Seq<u8>, s: u8)
    ensures
        huffman::code_stream(a + b, lengths) == huffman::code_stream(a, lengths)
            + huffman::code_stream(b, lengths),
        ({
            let one = huffman::code_stream(seq![s], lengths);
            let len = lengths[s as int] as int;
            &&& one.len() == len
            &&& forall|j: int|
                0 <= j < len ==> #[trigger] one[j] == ((huffman::code_of(lengths, s as int) >> ((len
                    - 1 - j) as u32)) & 1 == 1)
        }),
    decreases a.len(),
{
    let one = huffman::code_stream(seq![s], lengths);
    let code = huffman::code_bits(lengths, s as int);
    assert(seq![s].skip(1) =~= Seq::<u8>::empty());
    assert(one =~= code) by {
        reveal_with_fuel(huffman::code_stream, 2);
    }
    let all = huffman::code_stream(a + b, lengths);
    if a.len() == 0 {
        assert(a + b =~= b);
        assert(all =~= huffman::code_stream(a, lengths) + huffman::code_stream(b, lengths));
    } else {
        law_code_stream(a.skip(1), b, lengths, s);
        assert((a + b).skip(1) =~= a.skip(1) + b);
        assert((a + b)[0] == a[0]);
        assert(all =~= huffman::code_stream(a, lengths) + huffman::code_stream(b, lengths));
    }
}

/// A byte holds eight bits of a stream, the first one in its most significant place. What is left
/// of the last byte is zero.
pub proof fn law_bits_in_bytes(stream: Seq<bool>, data: Seq<u8>, i: int)
    ensures
        bits::pack(stream).len() == (stream.len() + 7) / 8,
        bits::unpack(data).len() == 8 * data.len(),
        0 <= i < 8 * data.len() ==> bits::unpack(data)[i] == ((data[i / 8] >> ((7 - i % 8) as u8)) & 1
            == 1),
        0 <= i < 8 * bits::pack(stream).len() ==> ((bits::pack(stream)[i / 8] >> ((7 - i % 8) as u8))
            & 1 == 1) == (i < stream.len() && stream[i]),
{
    if 0 <= i < 8 * bits::pack(stream).len() {
        bits::lemma_bits_of_packed_byte(stream, i / 8);
        assert(8 * (i / 8) + i % 8 == i);
        assert(bits::byte_bit(bits::packed_byte(stream, i / 8), i % 8) == (i < stream.len()
            && stream[i]));
    }
}

/// Bits make up numbers with the most significant bit first; a stream is followed by zeros.
pub proof fn law_numbers_of_bits(stream: Seq<bool>, n: nat, i: int)
    requires
        0 <= i < n,
    ensures
        bits::prefix_value(stream, n) < pow2(n),
        (bits::prefix_value(stream, n) / pow2((n - 1 - i) as nat) % 2 == 1) == (i < stream.len()
            && stream[i]),
    decreases n,
{
    bits::lemma_prefix_value_bound(stream, n);
    let v = bits::prefix_value(stream, n);
    let before = bits::prefix_value(stream, (n - 1) as nat);
    lemma2_to64();
    if i < n - 1 {
        law_numbers_of_bits(stream, (n - 1) as nat, i);
        let p = pow2((n - 2 - i) as nat);
        lemma_pow2_pos((n - 2 - i) as nat);
        lemma_pow2_unfold((n - 1 - i) as nat);
        lemma_div_denominator(v as int, 2, p as int);
        assert(v / 2 == before);
        assert(v / pow2((n - 1 - i) as nat) == before / p);
    } else {
        assert(v / 1 == v);
    }
}

/// The bits of a number, most significant first.
pub proof fn law_bits_of_numbers(value: u32, count: int, k: int)
    requires
        0 <= k < count <= 32,
    ensures
        bits::low_bits(value, count).len() == count,
        bits::low_bits(value, count)[k] == ((value >> ((count - 1 - k) as u32)) & 1 == 1),
{
}

/// Little-endian numbers.
pub proof fn law_little_endian(v: int, w: int)
    requires
        0 <= v < 4294967296,
        0 <= w < 18446744073709551616,
    ensures
        ({
            let b = bytes::le32(v);
            &&& b.len() == 4
            &&& b[0] + 256 * b[1] + 65536 * b[2] + 16777216 * b[3] == v
        }),
        ({
            let b = bytes::le64(w);
            &&& b.len() == 8
            &&& bytes::le32_at(b, 0) + 4294967296 * bytes::le32_at(b, 4) == w
        }),
        forall|d: Seq<u8>, at: int|
            #[trigger] bytes::le32_at(d, at) == d[at] + 256 * d[at + 1] + 65536 * d[at + 2]
                + 16777216 * d[at + 3],
{
    let low = w % 4294967296;
    let high = w / 4294967296;
    lemma_le32(v);
    lemma_le32(low);
    lemma_le32(high);
    let b = bytes::le64(w);
    assert(b.len() == 8);
    assert(bytes::le32_at(b, 0) == low);
    assert(bytes::le32_at(b, 4) == high);
}

proof fn lemma_le32(v: int)
    requires
        0 <= v < 4294967296,
    ensures
        ({
            let b = bytes::le32(v);
            &&& b.len() == 4
            &&& b[0] + 256 * b[1] + 65536 * b[2] + 16777216 * b[3] == v
        }),
{
    bytes::lemma_le32_reads_back(Seq::empty(), v, Seq::empty());
    let b = bytes::le32(v);
    assert(Seq::<u8>::empty() + b + Seq::<u8>::empty() =~= b);
}

/// How often a byte value occurs: once more for each byte that has it, wherever it stands.
pub proof fn law_frequencies(a: Seq<u8>, x: u8, b: int)
    requires
        a.len() < 4294967295,
        0 <= b < 256,
    ensures
        huffman::frequencies(a).len() == 256,
        a.len() == 0 ==> huffman::frequencies(a)[b] == 0,
        huffman::frequencies(a.push(x))[b] == huffman::frequencies(a)[b] + if x == b {
            1int
        } else {
            0int
        },
{
    huffman::lemma_occurrences_bound(a, b);
    assert(a.push(x).drop_last() =~= a);
}

/// A section holds the number of bytes, the code lengths of their Huffman code, and their codes.
pub proof fn law_section(data: Seq<u8>)
    requires
        0 < data.len() <= u32::MAX,
    ensures
        ({
            let out = huffman::section(data);
            let lengths = tree::huffman_lengths(huffman::frequencies(data));
            &&& out.len() >= 260
            &&& bytes::le32_at(out, 0) == data.len()
            &&& out.subrange(4, 260) == lengths
            &&& out.skip(260) == bits::pack(huffman::code_stream(data, lengths))
        }),
        huffman::section(Seq::empty()) == Seq::<u8>::empty(),
{
    let lengths = tree::huffman_lengths(huffman::frequencies(data));
    huffman::lemma_section_parts(
        data.len() as int,
        lengths,
        bits::pack(huffman::code_stream(data, lengths)),
    );
}

/// A section is read by the code lengths that stand in it, whatever they were made from: any bytes
/// that have codes come back from their codes, whatever follows these.
pub proof fn law_section_read(lengths: Seq<u8>, data: Seq<u8>, packed: Seq<u8>)
    requires
        canonical::valid_lengths(lengths),
        huffman::coded_symbols(lengths, 256) >= 2,
        data.len() <= u32::MAX,
        forall|i: int| 0 <= i < data.len() ==> lengths[#[trigger] data[i] as int] > 0,
        huffman::code_stream(data, lengths).len() <= bits::unpack(packed).len(),
        bits::unpack(packed).take(huffman::code_stream(data, lengths).len() as int)
            == huffman::code_stream(data, lengths),
    ensures
        huffman::section_contents(bytes::le32(data.len() as int) + lengths + packed) == Ok::<
            Seq<u8>,
            Error,
        >(data),
{
    huffman::lemma_section_parts(data.len() as int, lengths, packed);
    huffman::lemma_decode_stream(lengths, data, bits::unpack(packed));
}

/// Sections that are refused, and those with no or one code.
pub proof fn law_section_refused(data: Seq<u8>)
    ensures
        ({
            let out = huffman::section_contents(data);
            let lengths = data.subrange(4, 260);
            let count = bytes::le32_at(data, 0);
            &&& data.len() < 260 ==> out == Err::<Seq<u8>, Error>(Error::HuffmanTooShort)
            &&& data.len() >= 260 && (forall|s: int|
                0 <= s < 256 ==> #[trigger] lengths[s] == 0) ==> out == if count == 0 {
                Ok::<Seq<u8>, Error>(Seq::empty())
            } else {
                Err(Error::EmptyHuffmanTable)
            }
            &&& data.len() >= 260 && out is Ok ==> out->Ok_0.len() == count
        }),
        forall|s: int|
            #![trigger data.subrange(4, 260)[s]]
            data.len() >= 260 && 0 <= s < 256 && data.subrange(4, 260)[s] > 0 && (forall|t: int|
                0 <= t < 256 && t != s ==> #[trigger] data.subrange(4, 260)[t] == 0)
                ==> huffman::section_contents(data) == Ok::<Seq<u8>, Error>(
                Seq::new(bytes::le32_at(data, 0) as nat, |i: int| s as u8),
            ),
{
    let out = huffman::section_contents(data);
    let lengths = data.subrange(4, 260);
    let count = bytes::le32_at(data, 0);
    if data.len() >= 260 {
        if forall|s: int| 0 <= s < 256 ==> #[trigger] lengths[s] == 0 {
            lemma_no_codes(lengths, 256);
        }
        lemma_decoded_len(lengths, bits::unpack(data.skip(260)), count as nat);
        assert forall|s: int|
            #![trigger data.subrange(4, 260)[s]]
            0 <= s < 256 && data.subrange(4, 260)[s] > 0 && (forall|t: int|
                0 <= t < 256 && t != s ==> #[trigger] data.subrange(4, 260)[t]
                    == 0) implies out == Ok::<Seq<u8>, Error>(
            Seq::new(count as nat, |i: int| s as u8),
        ) by {
            lemma_one_code(lengths, s, 256);
        }
    }
}

proof fn lemma_no_codes(lengths: Seq<u8>, n: nat)
    requires
        n <= 256,
        forall|s: int| 0 <= s < 256 ==> #[trigger] lengths[s] == 0,
    ensures
        huffman::coded_symbols(lengths, n) == 0,
    decreases n,
{
    if n > 0 {
        lemma_no_codes(lengths, (n - 1) as nat);
    }
}

proof fn lemma_one_code(lengths: Seq<u8>, s: int, n: nat)
    requires
        n <= 256,
        0 <= s < 256,
        lengths[s] > 0,
        forall|t: int| 0 <= t < 256 && t != s ==> #[trigger] lengths[t] == 0,
    ensures
        huffman::coded_symbols(lengths, n) == if s < n {
            1nat
        } else {
            0nat
        },
        s < n ==> huffman::coded_symbol(lengths, n) == s,
    decreases n,
{
    if n > 0 {
        lemma_one_code(lengths, s, (n - 1) as nat);
    }
}

proof fn lemma_decoded_len(lengths: Seq<u8>, stream: Seq<bool>, count: nat)
    ensures
        huffman::decode_symbols(lengths, stream, count) matches Some(v) ==> v.len() == count,
    decreases count,
{
    if count > 0 {
        let (symbol, len) = canonical::lookup(lengths, bits::prefix_value(stream, 15) as int);
        let rest = if len <= stream.len() {
            stream.skip(len as int)
        } else {
            Seq::empty()
        };
        lemma_decoded_len(lengths, rest, (count - 1) as nat);
    }
}

/// Two or more codes of lengths that no prefix code has are refused: one longer than 15 bits, or
/// lengths that take more than the 32768 numbers of 15 bits.
pub proof fn law_lengths_refused(data: Seq<u8>, s: int, t: int)
    requires
        data.len() >= 260,
        0 <= s < t < 256,
        data[4 + s] > 0,
        data[4 + t] > 0,
        (exists|u: int| 0 <= u < 256 && #[trigger] data.subrange(4, 260)[u] > 15)
            || canonical::kraft(data.subrange(4, 260), 256) > 32768,
    ensures
        huffman::section_contents(data) == Err::<Seq<u8>, Error>(Error::InvalidCodeLengths),
{
    let lengths = data.subrange(4, 260);
    assert(lengths[s] > 0 && lengths[t] > 0);
    lemma_two_codes(lengths, s, t, 256);
}

proof fn lemma_two_codes(lengths: Seq<u8>, s: int, t: int, n: nat)
    requires
        n <= 256,
        0 <= s < t < 256,
        lengths[s] > 0,
        lengths[t] > 0,
    ensures
        s < n ==> huffman::coded_symbols(lengths, n) >= 1,
        t < n ==> huffman::coded_symbols(lengths, n) >= 2,
    decreases n,
{
    if n > 0 {
        lemma_two_codes(lengths, s, t, (n - 1) as nat);
    }
}

/// How many numbers of 15 bits start with a code of given lengths.
pub proof fn law_kraft(lengths: Seq<u8>, n: nat)
    requires
        n < lengths.len(),
    ensures
        canonical::kraft(lengths, 0) == 0,
        canonical::kraft(lengths, n + 1) == canonical::kraft(lengths, n) + if lengths[n as int] == 0 {
            0nat
        } else {
            pow2((15 - lengths[n as int]) as nat)
        },
{
}

/// Bits are read code by code: each symbol is the one that the next 15 bits are looked up to, and
/// takes the bits of its code. Bits that start with no code are refused.
pub proof fn law_decode(lengths: Seq<u8>, stream: Seq<bool>, count: nat)
    requires
        count > 0,
    ensures
        ({
            let (symbol, len) = canonical::lookup(lengths, bits::prefix_value(stream, 15) as int);
            let all = huffman::decode_symbols(lengths, stream, count);
            &&& len == 0 ==> all == None::<Seq<u8>>
            &&& 0 < len <= stream.len() ==> all == match huffman::decode_symbols(
                lengths,
                stream.skip(len as int),
                (count - 1) as nat,
            ) {
                Some(v) => Some(seq![symbol] + v),
                None => None,
            }
            &&& len > stream.len() ==> all == match huffman::decode_symbols(
                lengths,
                Seq::empty(),
                (count - 1) as nat,
            ) {
                Some(v) => Some(seq![symbol] + v),
                None => None,
            }
        }),
        huffman::decode_symbols(lengths, stream, 0) == Some(Seq::<u8>::empty()),
{
}

} // verus!
