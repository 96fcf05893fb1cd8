//! Huffman sections: a byte string, coded symbol by symbol.
//!
//! A section is the number of bytes (four bytes, little-endian), the code lengths of the 256
//! byte values, and the codes of the bytes as a bit stream. The empty string has the empty
//! section.

use crate::bits;
use crate::bits::{BitReader, BitWriter};
use crate::bytes;
use crate::canonical;
use crate::error;
use crate::error::Error;
use crate::optimal;
use crate::tree;
use vstd::arithmetic::power2::*;
use vstd::prelude::*;
use vstd::slice::slice_subrange;

verus! {

/// How often byte `b` occurs.
pub open spec fn occurrences(data: Seq<u8>, b: int) -> nat
    decreases data.len(),
{
    if data.len() == 0 {
        0
    } else {
        occurrences(data.drop_last(), b) + if data.last() == b {
            1nat
        } else {
            0nat
        }
    }
}

/// How often each byte value occurs.
pub open spec fn frequencies(data: Seq<u8>) -> Seq<u32> {
    Seq::new(256, |b: int| occurrences(data, b) as u32)
}

/// The code of symbol `s` as a number.
pub open spec fn code_of(lengths: Seq<u8>, s: int) -> u32 {
    (canonical::code_start(lengths, s) / canonical::slots(lengths[s])) as u32
}

/// The code of symbol `s` as bits.
pub open spec fn code_bits(lengths: Seq<u8>, s: int) -> Seq<bool> {
    bits::low_bits(code_of(lengths, s), lengths[s] as int)
}

/// The codes of the bytes of `data`, one after the other.
pub open spec fn code_stream(data: Seq<u8>, lengths: Seq<u8>) -> Seq<bool>
    decreases data.len(),
{
    if data.len() == 0 {
        Seq::empty()
    } else {
        code_bits(lengths, data[0] as int) + code_stream(data.skip(1), lengths)
    }
}

/// The Huffman section of `data`.
pub open spec fn section(data: Seq<u8>) -> Seq<u8> {
    if data.len() == 0 {
        Seq::empty()
    } else {
        let lengths = tree::huffman_lengths(frequencies(data));
        bytes::le32(data.len() as int) + lengths + bits::pack(code_stream(data, lengths))
    }
}

/// How many of the first `n` symbols have a code.
pub open spec fn coded_symbols(lengths: Seq<u8>, n: nat) -> nat
    decreases n,
{
    if n == 0 {
        0
    } else {
        coded_symbols(lengths, (n - 1) as nat) + if lengths[n - 1] > 0 {
            1nat
        } else {
            0nat
        }
    }
}

/// The last of the first `n` symbols that has a code.
pub open spec fn coded_symbol(lengths: Seq<u8>, n: nat) -> int
    decreases n,
{
    if n == 0 {
        0
    } else if lengths[n - 1] > 0 {
        n - 1
    } else {
        coded_symbol(lengths, (n - 1) as nat)
    }
}

/// The first `count` symbols of a bit stream, which is followed by zero bits; nothing where the
/// stream comes to bits that start with no code.
pub open spec fn decode_symbols(lengths: Seq<u8>, stream: Seq<bool>, count: nat) -> Option<Seq<u8>>
    decreases count,
{
    if count == 0 {
        Some(Seq::empty())
    } else {
        let (symbol, len) = canonical::lookup(lengths, bits::prefix_value(stream, 15) as int);
        if len == 0 {
            None
        } else {
            let rest = if len <= stream.len() {
                stream.skip(len as int)
            } else {
                Seq::empty()
            };
            match decode_symbols(lengths, rest, (count - 1) as nat) {
                Some(symbols) => Some(seq![symbol] + symbols),
                None => None,
            }
        }
    }
}

/// What a Huffman section holds, or why it is refused.
pub open spec fn section_contents(data: Seq<u8>) -> Result<Seq<u8>, Error> {
    if data.len() < 260 {
        Err(Error::HuffmanTooShort)
    } else {
        let count = bytes::le32_at(data, 0);
        let lengths = data.subrange(4, 260);
        let coded = coded_symbols(lengths, 256);
        if coded == 0 {
            if count == 0 {
                Ok(Seq::empty())
            } else {
                Err(Error::EmptyHuffmanTable)
            }
        } else if coded == 1 {
            Ok(Seq::new(count as nat, |i: int| coded_symbol(lengths, 256) as u8))
        } else if !canonical::valid_lengths(lengths) {
            Err(Error::InvalidCodeLengths)
        } else {
            match decode_symbols(lengths, bits::unpack(data.skip(260)), count as nat) {
                Some(symbols) => Ok(symbols),
                None => Err(Error::HuffmanDecode),
            }
        }
    }
}

/// A byte value occurs no more often than there are bytes.
pub proof fn lemma_occurrences_bound(data: Seq<u8>, b: int)
    ensures
        occurrences(data, b) <= data.len(),
    decreases data.len(),
{
    if data.len() > 0 {
        lemma_occurrences_bound(data.drop_last(), b);
    }
}

proof fn lemma_occurs(data: Seq<u8>, i: int)
    requires
        0 <= i < data.len(),
    ensures
        occurrences(data, data[i] as int) > 0,
    decreases data.len(),
{
    if i < data.len() - 1 {
        lemma_occurs(data.drop_last(), i);
    }
}

/// How often each byte value occurs in `data`.
pub fn count_bytes(data: &[u8]) -> (freq: [u32; 256])
    requires
        data@.len() <= u32::MAX,
    ensures
        freq@ == frequencies(data@),
{
    let mut freq: [u32; 256] = [0u32; 256];
    let mut i: usize = 0;
    while i < data.len()
        invariant
            i <= data@.len(),
            data@.len() <= u32::MAX,
            forall|b: int|
                0 <= b < 256 ==> #[trigger] freq@[b] == occurrences(data@.take(i as int), b),
        decreases data@.len() - i,
    {
        let b: usize = data[i] as usize;
        proof {
            lemma_occurrences_bound(data@.take(i as int), b as int);
            assert(data@.take(i + 1).drop_last() =~= data@.take(i as int));
            assert(freq@[b as int] <= i);
        }
        freq[b] = freq[b] + 1;
        i = i + 1;
    }
    assert(data@.take(data@.len() as int) =~= data@);
    assert(freq@ =~= frequencies(data@));
    freq
}

/// The code of a symbol is shorter than its length allows, and multiplied out it is the first
/// window that starts with it.
proof fn lemma_code_of(lengths: Seq<u8>, s: int, code: u32)
    requires
        canonical::valid_lengths(lengths),
        0 <= s < 256,
        lengths[s] > 0,
        code * canonical::slots(lengths[s]) == canonical::code_start(lengths, s),
    ensures
        code == code_of(lengths, s),
        code < pow2(lengths[s] as nat),
{
    let k = canonical::slots(lengths[s]);
    canonical::lemma_slots_bound(lengths[s]);
    canonical::lemma_code_in_range(lengths, s);
    canonical::lemma_slots_share(lengths[s]);
    vstd::arithmetic::div_mod::lemma_div_multiples_vanish(code as int, k as int);
    assert(k * code == code * k) by (nonlinear_arith);
    let p = pow2(lengths[s] as nat);
    assert(code < p) by (nonlinear_arith)
        requires
            code * k + k <= p * k,
            k >= 1,
    ;
}

/// The Huffman section of `data`.
pub fn huffman_encode(data: &[u8]) -> (out: Vec<u8>)
    requires
        data@.len() <= u32::MAX,
    ensures
        out@ == section(data@),
{
    if data.is_empty() {
        return Vec::new();
    }
    let freq: [u32; 256] = count_bytes(data);
    let lengths: [u8; 256] = tree::compute_huffman_lengths(&freq);
    let codes: [u32; 256] = canonical::canonical_codes_from_lengths(&lengths);
    let mut out: Vec<u8> = Vec::new();
    bytes::push_le32(&mut out, data.len() as u32);
    bytes::append(&mut out, lengths.as_slice());
    let mut writer = BitWriter::new();
    let mut i: usize = 0;
    proof {
        assert(data@.skip(0) =~= data@);
    }
    while i < data.len()
        invariant
            i <= data@.len(),
            data@.len() <= u32::MAX,
            freq@ == frequencies(data@),
            canonical::valid_lengths(lengths@),
            forall|s: int| 0 <= s < 256 ==> (#[trigger] lengths@[s] > 0 <==> freq@[s] > 0),
            forall|s: int|
                0 <= s < 256 ==> if lengths@[s] == 0 {
                    #[trigger] codes@[s] == 0
                } else {
                    codes@[s] * canonical::slots(lengths@[s]) == canonical::code_start(lengths@, s)
                },
            writer.wf(),
            writer.bits() + code_stream(data@.skip(i as int), lengths@) == code_stream(
                data@,
                lengths@,
            ),
        decreases data@.len() - i,
    {
        let b: usize = data[i] as usize;
        proof {
            lemma_occurs(data@, i as int);
            lemma_occurrences_bound(data@, b as int);
            assert(freq@[b as int] > 0);
            assert(lengths@[b as int] > 0);
            assert(lengths@[b as int] <= 15);
            let code = codes@[b as int];
            assert(code * canonical::slots(lengths@[b as int]) == canonical::code_start(
                lengths@,
                b as int,
            ));
            lemma_code_of(lengths@, b as int, code);
        }
        let ghost before = writer.bits();
        writer.write_bits(codes[b], lengths[b]);
        proof {
            let rest = data@.skip(i as int);
            assert(rest.skip(1) =~= data@.skip(i + 1));
            assert(writer.bits() + code_stream(rest.skip(1), lengths@) =~= before + (code_bits(
                lengths@,
                b as int,
            ) + code_stream(rest.skip(1), lengths@)));
        }
        i = i + 1;
    }
    proof {
        assert(data@.skip(i as int) =~= Seq::<u8>::empty());
        assert(writer.bits() =~= code_stream(data@, lengths@));
    }
    let packed: Vec<u8> = writer.finish();
    bytes::append(&mut out, packed.as_slice());
    assert(out@ =~= section(data@));
    out
}

/// Whether code lengths are those of a prefix code.
fn are_valid_lengths(lengths: &[u8; 256]) -> (valid: bool)
    ensures
        valid == canonical::valid_lengths(lengths@),
{
    let mut i: usize = 0;
    while i < 256
        invariant
            i <= 256,
            forall|s: int| 0 <= s < i ==> #[trigger] lengths@[s] <= canonical::MAX_CODE_LEN,
        decreases 256 - i,
    {
        if lengths[i] > canonical::MAX_CODE_LEN {
            return false;
        }
        i = i + 1;
    }
    canonical::kraft_sum(lengths) <= 32768
}

/// What a Huffman section holds.
pub fn huffman_decode(data: &[u8]) -> (out: Result<Vec<u8>, Error>)
    ensures
        error::is_outcome(out, section_contents(data@)),
{
    if data.len() < 260 {
        return Err(Error::HuffmanTooShort);
    }
    let count: usize = bytes::read_le32(data, 0) as usize;
    let mut lengths: [u8; 256] = [0u8; 256];
    let mut coded: usize = 0;
    let mut symbol: u8 = 0;
    let mut s: usize = 0;
    while s < 256
        invariant
            s <= 256,
            260 <= data@.len(),
            forall|t: int| 0 <= t < s ==> #[trigger] lengths@[t] == data@.subrange(4, 260)[t],
            coded == coded_symbols(data@.subrange(4, 260), s as nat),
            symbol == coded_symbol(data@.subrange(4, 260), s as nat),
            coded <= s,
        decreases 256 - s,
    {
        lengths[s] = data[4 + s];
        if data[4 + s] > 0 {
            coded = coded + 1;
            symbol = s as u8;
        }
        s = s + 1;
    }
    assert(lengths@ =~= data@.subrange(4, 260));
    if coded == 0 {
        if count == 0 {
            return Ok(Vec::new());
        }
        return Err(Error::EmptyHuffmanTable);
    }
    let mut out: Vec<u8> = Vec::new();
    if coded == 1 {
        while out.len() < count
            invariant
                out@.len() <= count,
                forall|i: int| 0 <= i < out@.len() ==> #[trigger] out@[i] == symbol,
            decreases count - out@.len(),
        {
            out.push(symbol);
        }
        assert(out@ =~= Seq::new(count as nat, |i: int| coded_symbol(lengths@, 256) as u8));
        return Ok(out);
    }
    if !are_valid_lengths(&lengths) {
        return Err(Error::InvalidCodeLengths);
    }
    let table: Vec<(u8, u8)> = canonical::build_decode_table(&lengths);
    let payload: &[u8] = slice_subrange(data, 260, data.len());
    let mut reader = BitReader::new(payload);
    let ghost stream = bits::unpack(payload@);
    proof {
        assert(payload@ =~= data@.skip(260));
        assert(forall|r: Seq<u8>| #[trigger] (Seq::<u8>::empty() + r) =~= r);
    }
    while out.len() < count
        invariant
            out@.len() <= count,
            canonical::valid_lengths(lengths@),
            table@.len() == canonical::WINDOWS,
            forall|w: int|
                0 <= w < canonical::WINDOWS ==> #[trigger] table@[w] == canonical::lookup(
                    lengths@,
                    w,
                ),
            reader.wf(),
            260 <= data@.len(),
            lengths@ == data@.subrange(4, 260),
            count == bytes::le32_at(data@, 0),
            coded_symbols(lengths@, 256) >= 2,
            stream == bits::unpack(data@.skip(260)),
            decode_symbols(lengths@, stream, count as nat) == prefixed(
                out@,
                decode_symbols(lengths@, reader.bits(), (count - out@.len()) as nat),
            ),
        decreases count - out@.len(),
    {
        let ghost before = reader.bits();
        let window: usize = reader.peek_bits(15) as usize;
        proof {
            bits::lemma_prefix_value_bound(before, 15);
            lemma2_to64();
            assert(table@[window as int] == canonical::lookup(lengths@, window as int));
            canonical::lemma_lookup_len(lengths@, window as int);
        }
        let (symbol, consumed): (u8, u8) = table[window];
        if consumed == 0 {
            return Err(Error::HuffmanDecode);
        }
        let ghost out0 = out@;
        let ghost loaded = reader.loaded();
        let ghost unread = reader.unread();
        out.push(symbol);
        reader.consume_bits(consumed);
        proof {
            let rest = if consumed <= before.len() {
                before.skip(consumed as int)
            } else {
                Seq::empty()
            };
            if unread.len() == 0 {
                assert(bits::unpack(unread) =~= Seq::<bool>::empty());
            }
            assert(reader.bits() =~= rest);
            let tail = decode_symbols(lengths@, rest, (count - out@.len()) as nat);
            if let Some(symbols) = tail {
                assert(out@ + symbols =~= out0 + (seq![symbol] + symbols));
            }
        }
    }
    proof {
        assert(out@ + Seq::<u8>::empty() =~= out@);
    }
    Ok(out)
}

/// Symbols that come after `before`.
spec fn prefixed(before: Seq<u8>, symbols: Option<Seq<u8>>) -> Option<Seq<u8>> {
    match symbols {
        Some(s) => Some(before + s),
        None => None,
    }
}

/// A stream of codes decodes to the symbols that it was made of, whatever bits follow it.
pub proof fn lemma_decode_stream(lengths: Seq<u8>, data: Seq<u8>, stream: Seq<bool>)
    requires
        canonical::valid_lengths(lengths),
        forall|i: int| 0 <= i < data.len() ==> lengths[#[trigger] data[i] as int] > 0,
        code_stream(data, lengths).len() <= stream.len(),
        stream.take(code_stream(data, lengths).len() as int) == code_stream(data, lengths),
    ensures
        decode_symbols(lengths, stream, data.len()) == Some(data),
    decreases data.len(),
{
    if data.len() == 0 {
        assert(data =~= Seq::<u8>::empty());
    } else {
        let s = data[0] as int;
        let len = lengths[s];
        assert(len > 0);
        let code = code_bits(lengths, s);
        let tail = code_stream(data.skip(1), lengths);
        let all = code_stream(data, lengths);
        assert(all == code + tail);
        assert(code.len() == len);
        assert(stream.take(len as int) =~= all.take(len as int));
        assert(all.take(len as int) =~= code);
        lemma_code_window(lengths, s, stream);
        canonical::lemma_lookup_finds(lengths, s, bits::prefix_value(stream, 15) as int);
        let rest = stream.skip(len as int);
        assert(rest.take(tail.len() as int) =~= stream.take(all.len() as int).skip(len as int));
        assert(all.skip(len as int) =~= tail);
        assert forall|i: int| 0 <= i < data.skip(1).len() implies lengths[#[trigger] data.skip(
            1,
        )[i] as int] > 0 by {
            assert(data.skip(1)[i] == data[i + 1]);
        }
        lemma_decode_stream(lengths, data.skip(1), rest);
        assert(seq![data[0]] + data.skip(1) =~= data);
    }
}

/// The window at the start of a stream that starts with a code is one of that code.
proof fn lemma_code_window(lengths: Seq<u8>, s: int, stream: Seq<bool>)
    requires
        canonical::valid_lengths(lengths),
        0 <= s < 256,
        lengths[s] > 0,
        lengths[s] <= stream.len(),
        stream.take(lengths[s] as int) == code_bits(lengths, s),
    ensures
        canonical::covers(lengths, s, bits::prefix_value(stream, 15) as int),
{
    let len = lengths[s];
    let k = canonical::slots(len);
    let code = canonical::lemma_code_start_divides(lengths, s);
    canonical::lemma_slots_bound(len);
    canonical::lemma_code_in_range(lengths, s);
    assert(code <= 32768) by (nonlinear_arith)
        requires
            code * k <= 32768,
            k >= 1,
    ;
    lemma_code_of(lengths, s, code as u32);
    bits::lemma_window_of_low_bits(stream, code as u32, len as nat, 15);
    assert((code + 1) * k == code * k + k) by (nonlinear_arith);
}

proof fn lemma_one_symbol(lengths: Seq<u8>, data: Seq<u8>, n: nat)
    requires
        n <= lengths.len(),
        coded_symbols(lengths, n) <= 1,
        forall|i: int|
            0 <= i < data.len() ==> #[trigger] data[i] < n && lengths[data[i] as int] > 0,
        data.len() > 0,
    ensures
        coded_symbols(lengths, n) == 1,
        forall|i: int| 0 <= i < data.len() ==> #[trigger] data[i] == coded_symbol(lengths, n),
    decreases n,
{
    assert(data[0] < n);
    if lengths[n - 1] > 0 {
        lemma_no_symbol(lengths, (n - 1) as nat);
    } else {
        assert forall|i: int| 0 <= i < data.len() implies #[trigger] data[i] < n - 1 && lengths[
            data[i] as int
        ] > 0 by {
            if data[i] == n - 1 {
                assert(lengths[data[i] as int] > 0);
            }
        }
        lemma_one_symbol(lengths, data, (n - 1) as nat);
    }
}

proof fn lemma_no_symbol(lengths: Seq<u8>, n: nat)
    requires
        n <= lengths.len(),
        coded_symbols(lengths, n) == 0,
    ensures
        forall|s: int| 0 <= s < n ==> #[trigger] lengths[s] == 0,
    decreases n,
{
    if n > 0 {
        lemma_no_symbol(lengths, (n - 1) as nat);
    }
}

/// Where the parts of a section stand.
pub proof fn lemma_section_parts(count: int, lengths: Seq<u8>, packed: Seq<u8>)
    requires
        0 <= count <= u32::MAX,
        lengths.len() == 256,
    ensures
        ({
            let all = bytes::le32(count) + lengths + packed;
            &&& all.len() >= 260
            &&& bytes::le32_at(all, 0) == count
            &&& all.subrange(4, 260) == lengths
            &&& all.skip(260) == packed
        }),
{
    let all = bytes::le32(count) + lengths + packed;
    bytes::lemma_le32_reads_back(Seq::empty(), count, lengths + packed);
    assert(all =~= Seq::<u8>::empty() + bytes::le32(count) + (lengths + packed));
    assert(all.subrange(4, 260) =~= lengths);
    assert(all.skip(260) =~= packed);
}

/// Each byte of a string has a code.
proof fn lemma_bytes_have_codes(data: Seq<u8>)
    requires
        data.len() <= u32::MAX,
    ensures
        forall|i: int|
            0 <= i < data.len() ==> #[trigger] data[i] < 256 && tree::huffman_lengths(
                frequencies(data),
            )[data[i] as int] > 0,
{
    let freq = frequencies(data);
    let lengths = tree::huffman_lengths(freq);
    tree::lemma_huffman_lengths_valid(freq);
    assert forall|i: int| 0 <= i < data.len() implies #[trigger] data[i] < 256 && lengths[
        data[i] as int
    ] > 0 by {
        lemma_occurs(data, i);
        lemma_occurrences_bound(data, data[i] as int);
        assert(freq[data[i] as int] > 0);
        assert(lengths[data[i] as int] > 0);
    }
}

/// Huffman coding loses nothing: the section of a byte string holds that string.
pub proof fn lemma_huffman_round_trip(data: Seq<u8>)
    requires
        0 < data.len() <= u32::MAX,
    ensures
        section_contents(section(data)) == Ok::<Seq<u8>, Error>(data),
{
    let lengths = tree::huffman_lengths(frequencies(data));
    let stream = code_stream(data, lengths);
    let packed = bits::pack(stream);
    tree::lemma_huffman_lengths_valid(frequencies(data));
    lemma_bytes_have_codes(data);
    lemma_section_parts(data.len() as int, lengths, packed);
    if coded_symbols(lengths, 256) <= 1 {
        lemma_one_symbol(lengths, data, 256);
        assert(Seq::new(data.len(), |i: int| coded_symbol(lengths, 256) as u8) =~= data);
    } else {
        bits::lemma_unpack_pack(stream);
        lemma_decode_stream(lengths, data, bits::unpack(packed));
    }
}

/// The first byte counts once.
proof fn lemma_occurrences_first(data: Seq<u8>, b: int)
    requires
        data.len() > 0,
    ensures
        occurrences(data, b) == occurrences(data.skip(1), b) + if data[0] == b {
            1nat
        } else {
            0nat
        },
    decreases data.len(),
{
    if data.len() == 1 {
        reveal_with_fuel(occurrences, 2);
        assert(data.skip(1) =~= Seq::<u8>::empty());
        assert(data.drop_last() =~= Seq::<u8>::empty());
    } else {
        lemma_occurrences_first(data.drop_last(), b);
        assert(data.skip(1).drop_last() =~= data.drop_last().skip(1));
    }
}

/// The bits that the first `n` byte values take together in `data`, and how many bytes have one of
/// them.
spec fn spent_on(data: Seq<u8>, lengths: Seq<u8>, n: nat) -> (nat, nat)
    decreases n,
{
    if n == 0 {
        (0, 0)
    } else {
        let (bits, bytes) = spent_on(data, lengths, (n - 1) as nat);
        let k = occurrences(data, n - 1);
        (bits + k * lengths[n - 1] as nat, bytes + k)
    }
}

/// What the first byte adds.
proof fn lemma_spent_first(data: Seq<u8>, lengths: Seq<u8>, n: nat)
    requires
        data.len() > 0,
    ensures
        ({
            let here = data[0] < n;
            let now = spent_on(data, lengths, n);
            let later = spent_on(data.skip(1), lengths, n);
            &&& now.0 == later.0 + if here {
                lengths[data[0] as int] as nat
            } else {
                0nat
            }
            &&& now.1 == later.1 + if here {
                1nat
            } else {
                0nat
            }
        }),
    decreases n,
{
    if n > 0 {
        lemma_spent_first(data, lengths, (n - 1) as nat);
        lemma_occurrences_first(data, n - 1);
        let (k, len) = (occurrences(data.skip(1), n - 1), lengths[n - 1] as nat);
        assert((k + 1) * len == k * len + len) by (nonlinear_arith);
    }
}

/// The codes of all bytes take as many bits as those of each byte value together.
proof fn lemma_code_stream_len(data: Seq<u8>, lengths: Seq<u8>)
    ensures
        code_stream(data, lengths).len() == spent_on(data, lengths, 256).0,
        data.len() == spent_on(data, lengths, 256).1,
    decreases data.len(),
{
    if data.len() == 0 {
        lemma_nothing_spent(data, lengths, 256);
    } else {
        lemma_code_stream_len(data.skip(1), lengths);
        lemma_spent_first(data, lengths, 256);
    }
}

/// Nothing takes no bits.
proof fn lemma_nothing_spent(data: Seq<u8>, lengths: Seq<u8>, n: nat)
    requires
        data.len() == 0,
    ensures
        spent_on(data, lengths, n) == (0nat, 0nat),
    decreases n,
{
    if n > 0 {
        lemma_nothing_spent(data, lengths, (n - 1) as nat);
        let len = lengths[n - 1] as nat;
        assert(0 * len == 0) by (nonlinear_arith);
    }
}

/// Sums over the frequencies of bytes.
proof fn lemma_spent_is_frequent(data: Seq<u8>, lengths: Seq<u8>, n: nat)
    requires
        data.len() <= u32::MAX,
        lengths.len() == 256,
        n <= 256,
    ensures
        spent_on(data, lengths, n).0 == optimal::bits_spent(
            frequencies(data),
            optimal::numbers(lengths),
            n,
        ),
        spent_on(data, lengths, n).1 == optimal::occurring(frequencies(data), n),
    decreases n,
{
    if n > 0 {
        lemma_spent_is_frequent(data, lengths, (n - 1) as nat);
        lemma_occurrences_bound(data, n - 1);
    }
}

/// A section never takes more bytes than its head and the bytes in it.
pub proof fn lemma_section_len(data: Seq<u8>)
    requires
        data.len() <= u32::MAX,
    ensures
        section(data).len() <= 260 + data.len(),
        data.len() > 0 ==> section(data).len() >= 260,
{
    if data.len() > 0 {
        let freq = frequencies(data);
        let lengths = tree::huffman_lengths(freq);
        tree::lemma_huffman_lengths_valid(freq);
        lemma_code_stream_len(data, lengths);
        lemma_spent_is_frequent(data, lengths, 256);
        optimal::lemma_at_most_eight_bits(freq);
    }
}

} // verus!
