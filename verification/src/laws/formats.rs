//! How commands, streams and containers are laid out, and what is made of data that is laid out
//! otherwise.

use crate::block;
use crate::bytes;
use crate::container;
use crate::error;
use crate::error::Error;
use crate::huffman;
use crate::lzss;
use crate::predictor::Entropies;
use crate::streams;
use vstd::prelude::*;

verus! {

/// An outcome is the expected one where both succeed with the same bytes, or both fail with the
/// same error.
pub proof fn law_outcome(v: Vec<u8>, x: Seq<u8>, d: Error, e: Error)
    ensures
        error::is_outcome(Ok(v), Ok(x)) <==> v@ == x,
        error::is_outcome(Err(d), Err(e)) <==> d == e,
        !error::is_outcome(Ok(v), Err(e)),
        !error::is_outcome(Err(d), Ok(x)),
{
}

/// A run of literals is appended, up to 128 of them.
pub proof fn law_literals(out: Seq<u8>, run: Seq<u8>, rest: Seq<u8>)
    requires
        1 <= run.len() <= 128,
    ensures
        lzss::expanded(out, seq![run.len() as u8] + run + rest) == lzss::expanded(out + run, rest),
        lzss::expanded(out, Seq::empty()) == Ok::<Seq<u8>, Error>(out),
{
    let data = seq![run.len() as u8] + run + rest;
    let k = run.len() as int;
    assert(data[0] == k);
    assert(data.subrange(1, 1 + k) =~= run);
    assert(data.skip(1 + k) =~= rest);
}

/// A reference appends bytes one by one, each the same as the one its offset before it, which may
/// be one that was appended just now. The command byte counts the bytes from four on, and the
/// offset is one more than the two bytes after it say, low byte first.
pub proof fn law_reference(
    out: Seq<u8>,
    cmd: u8,
    low: u8,
    high: u8,
    rest: Seq<u8>,
    new: Seq<u8>,
)
    requires
        cmd >= 129,
        low + 256 * high + 1 <= out.len(),
        new.len() == out.len() + cmd - 125,
        new.take(out.len() as int) == out,
        forall|i: int|
            out.len() <= i < new.len() ==> #[trigger] new[i] == new[i - (low + 256 * high + 1)],
    ensures
        lzss::expanded(out, seq![cmd, low, high] + rest) == lzss::expanded(new, rest),
{
    let data = seq![cmd, low, high] + rest;
    let offset = low + 256 * high + 1;
    assert(data[0] == cmd && data[1] == low && data[2] == high);
    assert(data.skip(3) =~= rest);
    lemma_copied_is(out, offset, (cmd - 125) as nat, new);
    assert(new.take(new.len() as int) =~= new);
}

proof fn lemma_copied_is(out: Seq<u8>, offset: int, len: nat, new: Seq<u8>)
    requires
        1 <= offset <= out.len(),
        out.len() + len <= new.len(),
        new.take(out.len() as int) == out,
        forall|i: int| out.len() <= i < new.len() ==> #[trigger] new[i] == new[i - offset],
    ensures
        lzss::copied(out, offset, len) == new.take((out.len() + len) as int),
    decreases len,
{
    if len > 0 {
        lemma_copied_is(out, offset, (len - 1) as nat, new);
        let o = lzss::copied(out, offset, (len - 1) as nat);
        let i = out.len() + len - 1;
        assert(new[i] == new[i - offset]);
        assert(o[o.len() - offset] == new[i - offset]);
        assert(o.push(new[i]) =~= new.take(i + 1));
    }
}

/// Commands that are refused, and why.
pub proof fn law_commands_refused(out: Seq<u8>, data: Seq<u8>)
    requires
        data.len() > 0,
    ensures
        data[0] == 0 ==> lzss::expanded(out, data) == Err::<Seq<u8>, Error>(
            Error::ZeroLiteralCount,
        ),
        1 <= data[0] <= 128 && data.len() <= data[0] ==> lzss::expanded(out, data) == Err::<
            Seq<u8>,
            Error,
        >(Error::TruncatedLiteralRun),
        data[0] > 128 && data.len() < 3 ==> lzss::expanded(out, data) == Err::<Seq<u8>, Error>(
            Error::TruncatedBackref,
        ),
        data[0] > 128 && data.len() >= 3 && data[1] + 256 * data[2] >= out.len() ==> lzss::expanded(
            out,
            data,
        ) == Err::<Seq<u8>, Error>(Error::BackrefOutOfBounds),
{
}

/// What comes out of commands is what they append to the window; its size has to be the expected
/// one.
pub proof fn law_expected_size(prefix: Seq<u8>, data: Seq<u8>, new: Seq<u8>, expected: int)
    requires
        new.len() <= usize::MAX,
        0 <= expected <= usize::MAX,
        lzss::expanded(prefix, data) == Ok::<Seq<u8>, Error>(prefix + new),
    ensures
        new.len() == expected ==> lzss::decompressed(prefix, data, expected) == Ok::<Seq<u8>, Error>(
            new,
        ),
        new.len() != expected ==> lzss::decompressed(prefix, data, expected) == Err::<
            Seq<u8>,
            Error,
        >(Error::SizeMismatch { got: new.len() as usize, expected: expected as usize }),
{
    assert((prefix + new).skip(prefix.len() as int) =~= new);
}

/// Errors of commands are handed on.
pub proof fn law_errors_handed_on(prefix: Seq<u8>, data: Seq<u8>, expected: int, e: Error)
    requires
        lzss::expanded(prefix, data) == Err::<Seq<u8>, Error>(e),
    ensures
        lzss::decompressed(prefix, data, expected) == Err::<Seq<u8>, Error>(e),
{
}

/// Literals are written in runs of 128, but for the last one: one byte more for each.
pub proof fn law_literal_runs(s: Seq<u8>)
    ensures
        s.len() == 0 ==> lzss::literal_runs(s) == Seq::<u8>::empty(),
        1 <= s.len() <= 128 ==> lzss::literal_runs(s) == seq![s.len() as u8] + s,
        s.len() > 128 ==> lzss::literal_runs(s) == seq![128u8] + s.take(128) + lzss::literal_runs(
            s.skip(128),
        ),
{
}

/// LZSS commands take at most one byte more than the input for each 128 bytes of it, whole or
/// begun.
pub proof fn law_commands_len(prefix: Seq<u8>, input: Seq<u8>)
    ensures
        lzss::compressed(prefix, input).len() <= input.len() + (input.len() + 127) / 128,
{
    lzss::lemma_compressed(prefix, input);
}

/// Taking commands apart goes command by command: command bytes, literals and offset bytes each
/// keep their order.
pub proof fn law_streams_of_both(a: Seq<u8>, b: Seq<u8>)
    requires
        streams::framed(a),
    ensures
        streams::framed(a + b) == streams::framed(b),
        streams::cmds_of(a + b) == streams::cmds_of(a) + streams::cmds_of(b),
        streams::lits_of(a + b) == streams::lits_of(a) + streams::lits_of(b),
        streams::offs_of(a + b) == streams::offs_of(a) + streams::offs_of(b),
        streams::lows_of(a + b) == streams::lows_of(a) + streams::lows_of(b),
        streams::highs_of(a + b) == streams::highs_of(a) + streams::highs_of(b),
    decreases a.len(),
{
    let c = a + b;
    if a.len() == 0 {
        assert(c =~= b);
    } else {
        let n = streams::command_len(a[0]);
        assert(c[0] == a[0]);
        assert(c.skip(n) =~= a.skip(n) + b);
        law_streams_of_both(a.skip(n), b);
        if a[0] <= 0x80 {
            assert(c.subrange(1, n) =~= a.subrange(1, n));
        }
    }
    assert(streams::cmds_of(c) =~= streams::cmds_of(a) + streams::cmds_of(b));
    assert(streams::lits_of(c) =~= streams::lits_of(a) + streams::lits_of(b));
    assert(streams::offs_of(c) =~= streams::offs_of(a) + streams::offs_of(b));
    assert(streams::lows_of(c) =~= streams::lows_of(a) + streams::lows_of(b));
    assert(streams::highs_of(c) =~= streams::highs_of(a) + streams::highs_of(b));
}

/// The streams of a single command: literals of a run, or the two offset bytes of a reference.
pub proof fn law_streams_of_one(run: Seq<u8>, cmd: u8, low: u8, high: u8)
    requires
        run.len() <= 128,
        cmd >= 129,
    ensures
        ({
            let a = seq![run.len() as u8] + run;
            &&& streams::framed(a)
            &&& streams::cmds_of(a) == seq![run.len() as u8]
            &&& streams::lits_of(a) == run
            &&& streams::offs_of(a) == Seq::<u8>::empty()
            &&& streams::lows_of(a) == Seq::<u8>::empty()
            &&& streams::highs_of(a) == Seq::<u8>::empty()
        }),
        ({
            let b = seq![cmd, low, high];
            &&& streams::framed(b)
            &&& streams::cmds_of(b) == seq![cmd]
            &&& streams::lits_of(b) == Seq::<u8>::empty()
            &&& streams::offs_of(b) == seq![low, high]
            &&& streams::lows_of(b) == seq![low]
            &&& streams::highs_of(b) == seq![high]
        }),
{
    reveal_with_fuel(streams::framed, 2);
    reveal_with_fuel(streams::cmds_of, 2);
    reveal_with_fuel(streams::lits_of, 2);
    reveal_with_fuel(streams::offs_of, 2);
    reveal_with_fuel(streams::lows_of, 2);
    reveal_with_fuel(streams::highs_of, 2);
    let a = seq![run.len() as u8] + run;
    let n = 1 + run.len() as int;
    assert(a[0] == run.len());
    assert(a.skip(n) =~= Seq::<u8>::empty());
    assert(a.subrange(1, n) =~= run);
    assert(streams::cmds_of(a) =~= seq![run.len() as u8]);
    assert(streams::lits_of(a) =~= run);
    let b = seq![cmd, low, high];
    assert(b.skip(3) =~= Seq::<u8>::empty());
    assert(streams::cmds_of(b) =~= seq![cmd]);
    assert(streams::offs_of(b) =~= seq![low, high]);
    assert(streams::lows_of(b) =~= seq![low]);
    assert(streams::highs_of(b) =~= seq![high]);
}

/// A section of three streams: the lengths of the first two Huffman sections, then the sections of
/// commands, literals and offsets.
pub proof fn law_three_streams(data: Seq<u8>)
    requires
        0 < data.len(),
        data.len() + 260 <= u32::MAX,
    ensures
        ({
            let out = streams::huf3_section(data);
            let a = huffman::section(streams::cmds_of(data));
            let b = huffman::section(streams::lits_of(data));
            let c = huffman::section(streams::offs_of(data));
            &&& out.len() == 8 + a.len() + b.len() + c.len()
            &&& bytes::le32_at(out, 0) == a.len()
            &&& bytes::le32_at(out, 4) == b.len()
            &&& out.subrange(8, (8 + a.len()) as int) == a
            &&& out.subrange((8 + a.len()) as int, (8 + a.len() + b.len()) as int) == b
            &&& out.skip((8 + a.len() + b.len()) as int) == c
        }),
        streams::huf3_section(Seq::empty()) == Seq::<u8>::empty(),
{
    streams::lemma_stream_lens(data);
    huffman::lemma_section_len(streams::cmds_of(data));
    huffman::lemma_section_len(streams::lits_of(data));
    streams::lemma_parts3(
        huffman::section(streams::cmds_of(data)),
        huffman::section(streams::lits_of(data)),
        huffman::section(streams::offs_of(data)),
    );
}

/// A section of four streams: the lengths of the first three Huffman sections, then the sections of
/// commands, literals, low and high offset bytes.
pub proof fn law_four_streams(data: Seq<u8>)
    requires
        0 < data.len(),
        data.len() + 260 <= u32::MAX,
    ensures
        ({
            let out = streams::huf4_section(data);
            let a = huffman::section(streams::cmds_of(data));
            let b = huffman::section(streams::lits_of(data));
            let c = huffman::section(streams::lows_of(data));
            let d = huffman::section(streams::highs_of(data));
            let x = 12 + a.len();
            let y = x + b.len();
            let z = y + c.len();
            &&& out.len() == z + d.len()
            &&& bytes::le32_at(out, 0) == a.len()
            &&& bytes::le32_at(out, 4) == b.len()
            &&& bytes::le32_at(out, 8) == c.len()
            &&& out.subrange(12, x as int) == a
            &&& out.subrange(x as int, y as int) == b
            &&& out.subrange(y as int, z as int) == c
            &&& out.skip(z as int) == d
        }),
        streams::huf4_section(Seq::empty()) == Seq::<u8>::empty(),
{
    streams::lemma_stream_lens(data);
    huffman::lemma_section_len(streams::cmds_of(data));
    huffman::lemma_section_len(streams::lits_of(data));
    huffman::lemma_section_len(streams::lows_of(data));
    streams::lemma_parts4(
        huffman::section(streams::cmds_of(data)),
        huffman::section(streams::lits_of(data)),
        huffman::section(streams::lows_of(data)),
        huffman::section(streams::highs_of(data)),
    );
}

/// Streams are joined command by command; each takes its literals or its offset from where the one
/// before left off, and where these run out the streams are refused.
pub proof fn law_join(
    cmd: u8,
    cmds: Seq<u8>,
    lits: Seq<u8>,
    offs: Seq<u8>,
    lows: Seq<u8>,
    highs: Seq<u8>,
)
    ensures
        ({
            let all = seq![cmd] + cmds;
            let three = streams::joined3(all, lits, offs);
            let four = streams::joined4(all, lits, lows, highs);
            &&& cmd <= 128 && lits.len() < cmd ==> three == Err::<Seq<u8>, Error>(
                Error::Huf3LitsTruncated,
            ) && four == Err::<Seq<u8>, Error>(Error::Huf4LitsTruncated)
            &&& cmd > 128 && offs.len() < 2 ==> three == Err::<Seq<u8>, Error>(
                Error::Huf3OffsTruncated,
            )
            &&& cmd > 128 && (lows.len() == 0 || highs.len() == 0) ==> four == Err::<Seq<u8>, Error>(
                Error::Huf4OffsTruncated,
            )
            &&& cmd <= 128 && lits.len() >= cmd ==> {
                let head = seq![cmd] + lits.take(cmd as int);
                &&& three == streams::before(
                    head,
                    streams::joined3(cmds, lits.skip(cmd as int), offs),
                )
                &&& four == streams::before(
                    head,
                    streams::joined4(cmds, lits.skip(cmd as int), lows, highs),
                )
            }
            &&& cmd > 128 && offs.len() >= 2 ==> three == streams::before(
                seq![cmd, offs[0], offs[1]],
                streams::joined3(cmds, lits, offs.skip(2)),
            )
            &&& cmd > 128 && lows.len() > 0 && highs.len() > 0 ==> four == streams::before(
                seq![cmd, lows[0], highs[0]],
                streams::joined4(cmds, lits, lows.skip(1), highs.skip(1)),
            )
        }),
        streams::joined3(Seq::empty(), lits, offs) == Ok::<Seq<u8>, Error>(Seq::empty()),
        streams::joined4(Seq::empty(), lits, lows, highs) == Ok::<Seq<u8>, Error>(Seq::empty()),
{
    let all = seq![cmd] + cmds;
    assert(all.skip(1) =~= cmds);
    assert(all[0] == cmd);
}

/// What comes before an outcome changes no error.
pub proof fn law_before(a: Seq<u8>, b: Seq<u8>, e: Error)
    ensures
        streams::before(a, Ok(b)) == Ok::<Seq<u8>, Error>(a + b),
        streams::before(a, Err(e)) == Err::<Seq<u8>, Error>(e),
{
}

/// What a section of streams is made of decides what comes out of it: its Huffman sections are
/// read in order, the first of them that is refused decides, and then they are joined. A section
/// that is too short for its head or for the lengths in it is refused.
pub proof fn law_streams_read(data: Seq<u8>)
    ensures
        ({
            let out = streams::huf3_contents(data);
            let a = 8 + bytes::le32_at(data, 0);
            let b = a + bytes::le32_at(data, 4);
            let cmds = huffman::section_contents(data.subrange(8, a));
            let lits = streams::stream_contents(data.subrange(a, b));
            let offs = streams::stream_contents(data.skip(b));
            &&& data.len() == 0 ==> out == Ok::<Seq<u8>, Error>(Seq::empty())
            &&& 0 < data.len() < 8 ==> out == Err::<Seq<u8>, Error>(Error::Huf3TooShort)
            &&& data.len() >= 8 && b > data.len() ==> out == Err::<Seq<u8>, Error>(
                Error::Huf3SectionOverflow,
            )
            &&& data.len() >= 8 && b <= data.len() ==> {
                &&& cmds matches Err(e) ==> out == Err::<Seq<u8>, Error>(e)
                &&& cmds is Ok && lits is Err ==> out == lits
                &&& cmds is Ok && lits is Ok && offs is Err ==> out == offs
                &&& cmds is Ok && lits is Ok && offs is Ok ==> out == streams::joined3(
                    cmds->Ok_0,
                    lits->Ok_0,
                    offs->Ok_0,
                )
            }
        }),
        ({
            let out = streams::huf4_contents(data);
            let a = 12 + bytes::le32_at(data, 0);
            let b = a + bytes::le32_at(data, 4);
            let c = b + bytes::le32_at(data, 8);
            let cmds = huffman::section_contents(data.subrange(12, a));
            let lits = streams::stream_contents(data.subrange(a, b));
            let lows = streams::stream_contents(data.subrange(b, c));
            let highs = streams::stream_contents(data.skip(c));
            &&& data.len() == 0 ==> out == Ok::<Seq<u8>, Error>(Seq::empty())
            &&& 0 < data.len() < 12 ==> out == Err::<Seq<u8>, Error>(Error::Huf4TooShort)
            &&& data.len() >= 12 && c > data.len() ==> out == Err::<Seq<u8>, Error>(
                Error::Huf4SectionOverflow,
            )
            &&& data.len() >= 12 && c <= data.len() ==> {
                &&& cmds matches Err(e) ==> out == Err::<Seq<u8>, Error>(e)
                &&& cmds is Ok && lits is Err ==> out == lits
                &&& cmds is Ok && lits is Ok && lows is Err ==> out == lows
                &&& cmds is Ok && lits is Ok && lows is Ok && highs is Err ==> out == highs
                &&& cmds is Ok && lits is Ok && lows is Ok && highs is Ok ==> out == streams::joined4(
                    cmds->Ok_0,
                    lits->Ok_0,
                    lows->Ok_0,
                    highs->Ok_0,
                )
            }
        }),
        streams::stream_contents(Seq::empty()) == Ok::<Seq<u8>, Error>(Seq::empty()),
        data.len() > 0 ==> streams::stream_contents(data) == huffman::section_contents(data),
{
}

/// A container starts with the letters LZC3 and the size of the input. Then comes a record for the
/// first 65536 bytes, or for all where they are fewer: its type, its size, the size of what stands
/// for it, and that.
pub proof fn law_container(input: Seq<u8>, e: Seq<Entropies>)
    requires
        input.len() <= u64::MAX,
    ensures
        ({
            let out = container::archive(input, e);
            &&& out.len() >= 12
            &&& out[0] == 76 && out[1] == 90 && out[2] == 67 && out[3] == 51
            &&& bytes::le32_at(out, 4) + 4294967296 * bytes::le32_at(out, 8) == input.len()
            &&& input.len() == 0 ==> out.len() == 12
            &&& input.len() > 0 ==> {
                let k = if input.len() < 65536 {
                    input.len() as int
                } else {
                    65536
                };
                let (flag, data) = block::encoded(Seq::empty(), input.take(k), e[0]);
                &&& out.len() >= 21 + data.len()
                &&& out[12] == flag
                &&& bytes::le32_at(out, 13) == k
                &&& bytes::le32_at(out, 17) == data.len()
                &&& out.subrange(21, (21 + data.len()) as int) == data
            }
        }),
{
    let out = container::archive(input, e);
    let head = container::header(input.len() as int);
    let rest = container::records(Seq::empty(), input, e);
    crate::laws::codes::law_little_endian(0, input.len() as int);
    let size = bytes::le64(input.len() as int);
    assert(head.len() == 12);
    assert(out.subrange(4, 12) =~= size);
    assert(bytes::le32_at(out, 4) == bytes::le32_at(size, 0));
    assert(bytes::le32_at(out, 8) == bytes::le32_at(size, 4));
    if input.len() > 0 {
        let k = container::first_size(input.len() as int);
        let b = input.take(k);
        let (flag, data) = block::encoded(Seq::empty(), b, e[0]);
        block::lemma_block_round_trip(Seq::empty(), b, e[0]);
        let next = block::pushed(Seq::empty(), b);
        let after = container::records(next, input.skip(k), e.skip(1));
        container::lemma_record_parts(flag, k, data, after);
        let r = container::record(flag, k, data) + after;
        assert(rest == r);
        assert(out =~= head + r);
        lemma_shifted(head, r, data);
    }
}

/// A record after a header of twelve bytes.
proof fn lemma_shifted(head: Seq<u8>, r: Seq<u8>, data: Seq<u8>)
    requires
        head.len() == 12,
        r.len() >= 9 + data.len(),
        r.subrange(9, (9 + data.len()) as int) == data,
    ensures
        (head + r)[12] == r[0],
        bytes::le32_at(head + r, 13) == bytes::le32_at(r, 1),
        bytes::le32_at(head + r, 17) == bytes::le32_at(r, 5),
        (head + r).subrange(21, (21 + data.len()) as int) == data,
{
    assert((head + r).subrange(21, (21 + data.len()) as int) =~= r.subrange(9, (9 + data.len()) as int));
}

/// The blocks of an input are cut every 65536 bytes, each is written with the history that those
/// before it leave, and the figures are taken in order.
pub proof fn law_cuts(a: Seq<u8>, b: Seq<u8>, e: Seq<Entropies>, figures: Entropies)
    requires
        a.len() % 65536 == 0,
        e.len() == a.len() / 65536,
        0 < b.len() <= 65536,
    ensures
        container::records(Seq::empty(), a + b, e.push(figures)) == container::records(
            Seq::empty(),
            a,
            e,
        ) + container::block_record(block::pushed(Seq::empty(), a), b, figures),
        container::records(Seq::empty(), Seq::empty(), e) == Seq::<u8>::empty(),
{
    assert(container::block_count(a.len() as int) == a.len() / 65536);
    let one = seq![figures];
    container::lemma_records_in_parts(Seq::empty(), a, b, e, one);
    assert(e + one =~= e.push(figures));
    container::lemma_one_record(block::pushed(Seq::empty(), a), b, figures);
}

/// Containers that are refused: those of less than four bytes, those that start otherwise, and
/// those without a whole header. The size in the header is not looked at.
pub proof fn law_container_refused(data: Seq<u8>, size: Seq<u8>, rest: Seq<u8>)
    requires
        size.len() == 8,
    ensures
        data.len() < 4 ==> container::extracted(data) == (
            Seq::<u8>::empty(),
            Some(Error::UnexpectedEof),
        ),
        data.len() >= 4 && !(data[0] == 76 && data[1] == 90 && data[2] == 67 && data[3] == 51)
            ==> container::extracted(data) == (Seq::<u8>::empty(), Some(Error::InvalidMagic)),
        4 <= data.len() < 12 && data[0] == 76 && data[1] == 90 && data[2] == 67 && data[3] == 51
            ==> container::extracted(data) == (Seq::<u8>::empty(), Some(Error::UnexpectedEof)),
        container::extracted(seq![76u8, 90u8, 67u8, 51u8] + size + rest) == container::unpacked(
            Seq::empty(),
            rest,
        ),
{
    let magic = seq![76u8, 90u8, 67u8, 51u8];
    assert(container::MAGIC@ =~= magic);
    if data.len() >= 4 {
        let first = data.take(4);
        assert(first[0] == data[0] && first[1] == data[1] && first[2] == data[2] && first[3]
            == data[3]);
        if data[0] == 76 && data[1] == 90 && data[2] == 67 && data[3] == 51 {
            assert(first =~= magic);
        }
    }
    let all = magic + size + rest;
    assert(all.take(4) =~= magic);
    assert(all.skip(12) =~= rest);
}

/// The end of the records is the end of the container; a record that is cut off is refused.
pub proof fn law_records_end(history: Seq<u8>, data: Seq<u8>)
    ensures
        data.len() == 0 ==> container::unpacked(history, data) == (
            Seq::<u8>::empty(),
            None::<Error>,
        ),
        0 < data.len() < 9 ==> container::unpacked(history, data) == (
            Seq::<u8>::empty(),
            Some(Error::UnexpectedEof),
        ),
        data.len() >= 9 && data.len() < 9 + bytes::le32_at(data, 5) ==> container::unpacked(
            history,
            data,
        ) == (Seq::<u8>::empty(), Some(Error::UnexpectedEof)),
{
}

/// A record is its type, the size of its block, the size of what stands for it, and that.
pub proof fn law_record(flag: u8, raw_len: u32, data: Seq<u8>)
    requires
        data.len() <= u32::MAX,
    ensures
        ({
            let r = container::record(flag, raw_len as int, data);
            &&& r.len() == 9 + data.len()
            &&& r[0] == flag
            &&& bytes::le32_at(r, 1) == raw_len
            &&& bytes::le32_at(r, 5) == data.len()
            &&& r.skip(9) == data
        }),
{
    let r = container::record(flag, raw_len as int, data);
    container::lemma_record_parts(flag, raw_len as int, data, Seq::empty());
    assert(r + Seq::<u8>::empty() =~= r);
    assert(r.subrange(9, (9 + data.len()) as int) =~= r.skip(9));
}

/// The record of a block is the one for its type, its size, and what stands for it.
pub proof fn law_block_record(history: Seq<u8>, b: Seq<u8>, e: Entropies)
    ensures
        container::block_record(history, b, e) == container::record(
            block::encoded(history, b, e).0,
            b.len() as int,
            block::encoded(history, b, e).1,
        ),
{
}

} // verus!
