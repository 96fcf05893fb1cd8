//! LZSS commands taken apart into streams of their own kind, each coded as a Huffman section.
//!
//! In a three-stream section the lengths of the first two sections come first, each in four
//! bytes: command bytes, literals, and then the offset bytes. In a four-stream section the
//! lengths of the first three come first: command bytes, literals, low offset bytes, and then the
//! high offset bytes. A stream without bytes has an empty section. No commands at all have an
//! empty section.

use crate::bytes;
use crate::error;
use crate::error::Error;
use crate::huffman;
use crate::lzss;
use vstd::prelude::*;
use vstd::slice::slice_subrange;

verus! {

/// The number of bytes of a command with the given first byte.
pub open spec fn command_len(cmd: u8) -> int {
    if cmd <= 0x80 {
        1 + cmd
    } else {
        3
    }
}

/// The data is a sequence of whole commands.
pub open spec fn framed(data: Seq<u8>) -> bool
    decreases data.len(),
{
    data.len() == 0 || (command_len(data[0]) <= data.len() && framed(
        data.skip(command_len(data[0])),
    ))
}

/// The command bytes.
pub open spec fn cmds_of(data: Seq<u8>) -> Seq<u8>
    decreases data.len(),
{
    if data.len() == 0 || command_len(data[0]) > data.len() {
        Seq::empty()
    } else {
        seq![data[0]] + cmds_of(data.skip(command_len(data[0])))
    }
}

/// The literals.
pub open spec fn lits_of(data: Seq<u8>) -> Seq<u8>
    decreases data.len(),
{
    if data.len() == 0 || command_len(data[0]) > data.len() {
        Seq::empty()
    } else if data[0] <= 0x80 {
        data.subrange(1, command_len(data[0])) + lits_of(data.skip(command_len(data[0])))
    } else {
        lits_of(data.skip(3))
    }
}

/// The offset bytes.
pub open spec fn offs_of(data: Seq<u8>) -> Seq<u8>
    decreases data.len(),
{
    if data.len() == 0 || command_len(data[0]) > data.len() {
        Seq::empty()
    } else if data[0] <= 0x80 {
        offs_of(data.skip(command_len(data[0])))
    } else {
        seq![data[1], data[2]] + offs_of(data.skip(3))
    }
}

/// The low offset bytes.
pub open spec fn lows_of(data: Seq<u8>) -> Seq<u8>
    decreases data.len(),
{
    if data.len() == 0 || command_len(data[0]) > data.len() {
        Seq::empty()
    } else if data[0] <= 0x80 {
        lows_of(data.skip(command_len(data[0])))
    } else {
        seq![data[1]] + lows_of(data.skip(3))
    }
}

/// The high offset bytes.
pub open spec fn highs_of(data: Seq<u8>) -> Seq<u8>
    decreases data.len(),
{
    if data.len() == 0 || command_len(data[0]) > data.len() {
        Seq::empty()
    } else if data[0] <= 0x80 {
        highs_of(data.skip(command_len(data[0])))
    } else {
        seq![data[2]] + highs_of(data.skip(3))
    }
}

/// Bytes that come before an outcome.
pub open spec fn before(a: Seq<u8>, rest: Result<Seq<u8>, Error>) -> Result<Seq<u8>, Error> {
    match rest {
        Ok(s) => Ok(a + s),
        Err(e) => Err(e),
    }
}

/// The commands that three streams make up; streams may have bytes left over.
pub open spec fn joined3(cmds: Seq<u8>, lits: Seq<u8>, offs: Seq<u8>) -> Result<Seq<u8>, Error>
    decreases cmds.len(),
{
    if cmds.len() == 0 {
        Ok(Seq::empty())
    } else if cmds[0] <= 0x80 {
        let n = cmds[0] as int;
        if n > lits.len() {
            Err(Error::Huf3LitsTruncated)
        } else {
            before(seq![cmds[0]] + lits.take(n), joined3(cmds.skip(1), lits.skip(n), offs))
        }
    } else if offs.len() < 2 {
        Err(Error::Huf3OffsTruncated)
    } else {
        before(seq![cmds[0], offs[0], offs[1]], joined3(cmds.skip(1), lits, offs.skip(2)))
    }
}

/// The commands that four streams make up; streams may have bytes left over.
pub open spec fn joined4(
    cmds: Seq<u8>,
    lits: Seq<u8>,
    lows: Seq<u8>,
    highs: Seq<u8>,
) -> Result<Seq<u8>, Error>
    decreases cmds.len(),
{
    if cmds.len() == 0 {
        Ok(Seq::empty())
    } else if cmds[0] <= 0x80 {
        let n = cmds[0] as int;
        if n > lits.len() {
            Err(Error::Huf4LitsTruncated)
        } else {
            before(seq![cmds[0]] + lits.take(n), joined4(cmds.skip(1), lits.skip(n), lows, highs))
        }
    } else if lows.len() == 0 || highs.len() == 0 {
        Err(Error::Huf4OffsTruncated)
    } else {
        before(
            seq![cmds[0], lows[0], highs[0]],
            joined4(cmds.skip(1), lits, lows.skip(1), highs.skip(1)),
        )
    }
}

/// Three sections after the lengths of the first two.
#[verifier::opaque]
pub open spec fn frame3(cmds: Seq<u8>, lits: Seq<u8>, offs: Seq<u8>) -> Seq<u8> {
    bytes::le32(cmds.len() as int) + bytes::le32(lits.len() as int) + cmds + lits + offs
}

/// Four sections after the lengths of the first three.
#[verifier::opaque]
pub open spec fn frame4(cmds: Seq<u8>, lits: Seq<u8>, lows: Seq<u8>, highs: Seq<u8>) -> Seq<u8> {
    bytes::le32(cmds.len() as int) + bytes::le32(lits.len() as int) + bytes::le32(lows.len() as int)
        + cmds + lits + lows + highs
}

/// The three-stream section of LZSS commands.
pub open spec fn huf3_section(data: Seq<u8>) -> Seq<u8> {
    if data.len() == 0 {
        Seq::empty()
    } else {
        frame3(
            huffman::section(cmds_of(data)),
            huffman::section(lits_of(data)),
            huffman::section(offs_of(data)),
        )
    }
}

/// The four-stream section of LZSS commands.
pub open spec fn huf4_section(data: Seq<u8>) -> Seq<u8> {
    if data.len() == 0 {
        Seq::empty()
    } else {
        frame4(
            huffman::section(cmds_of(data)),
            huffman::section(lits_of(data)),
            huffman::section(lows_of(data)),
            huffman::section(highs_of(data)),
        )
    }
}

/// What a Huffman section holds; an empty one holds nothing.
pub open spec fn stream_contents(data: Seq<u8>) -> Result<Seq<u8>, Error> {
    if data.len() == 0 {
        Ok(Seq::empty())
    } else {
        huffman::section_contents(data)
    }
}

/// The LZSS commands in a three-stream section, or why it is refused.
pub open spec fn huf3_contents(data: Seq<u8>) -> Result<Seq<u8>, Error> {
    if data.len() == 0 {
        Ok(Seq::empty())
    } else if data.len() < 8 {
        Err(Error::Huf3TooShort)
    } else {
        let a = 8 + bytes::le32_at(data, 0);
        let b = a + bytes::le32_at(data, 4);
        if b > data.len() {
            Err(Error::Huf3SectionOverflow)
        } else {
            match huffman::section_contents(data.subrange(8, a)) {
                Err(e) => Err(e),
                Ok(cmds) => match stream_contents(data.subrange(a, b)) {
                    Err(e) => Err(e),
                    Ok(lits) => match stream_contents(data.skip(b)) {
                        Err(e) => Err(e),
                        Ok(offs) => joined3(cmds, lits, offs),
                    },
                },
            }
        }
    }
}

/// The LZSS commands in a four-stream section, or why it is refused.
pub open spec fn huf4_contents(data: Seq<u8>) -> Result<Seq<u8>, Error> {
    if data.len() == 0 {
        Ok(Seq::empty())
    } else if data.len() < 12 {
        Err(Error::Huf4TooShort)
    } else {
        let a = 12 + bytes::le32_at(data, 0);
        let b = a + bytes::le32_at(data, 4);
        let c = b + bytes::le32_at(data, 8);
        if c > data.len() {
            Err(Error::Huf4SectionOverflow)
        } else {
            match huffman::section_contents(data.subrange(12, a)) {
                Err(e) => Err(e),
                Ok(cmds) => match stream_contents(data.subrange(a, b)) {
                    Err(e) => Err(e),
                    Ok(lits) => match stream_contents(data.subrange(b, c)) {
                        Err(e) => Err(e),
                        Ok(lows) => match stream_contents(data.skip(c)) {
                            Err(e) => Err(e),
                            Ok(highs) => joined4(cmds, lits, lows, highs),
                        },
                    },
                },
            }
        }
    }
}

/// One command further in streams that are being taken apart.
proof fn lemma_next_command(data: Seq<u8>, pos: int)
    requires
        0 <= pos < data.len(),
        framed(data.skip(pos)),
    ensures
        ({
            let rest = data.skip(pos);
            let next = pos + command_len(data[pos]);
            &&& rest[0] == data[pos]
            &&& next <= data.len()
            &&& rest.skip(command_len(data[pos])) == data.skip(next)
            &&& framed(data.skip(next))
            &&& data[pos] <= 0x80 ==> rest.subrange(1, command_len(data[pos])) == data.subrange(
                pos + 1,
                next,
            )
            &&& data[pos] > 0x80 ==> rest[1] == data[pos + 1] && rest[2] == data[pos + 2]
        }),
{
    let rest = data.skip(pos);
    let n = command_len(data[pos]);
    assert(rest.skip(n) =~= data.skip(pos + n));
    if data[pos] <= 0x80 {
        assert(rest.subrange(1, n) =~= data.subrange(pos + 1, pos + n));
    }
}

/// The three-stream section of LZSS commands.
pub fn lzss_huf3_encode(data: &[u8]) -> (out: Vec<u8>)
    requires
        framed(data@),
        cmds_of(data@).len() <= u32::MAX,
        lits_of(data@).len() <= u32::MAX,
        offs_of(data@).len() <= u32::MAX,
    ensures
        out@ == huf3_section(data@),
{
    if data.is_empty() {
        return Vec::new();
    }
    let mut cmds: Vec<u8> = Vec::new();
    let mut lits: Vec<u8> = Vec::new();
    let mut offs: Vec<u8> = Vec::new();
    let mut pos: usize = 0;
    proof {
        assert(data@.skip(0) =~= data@);
        assert(cmds@ + cmds_of(data@) =~= cmds_of(data@));
        assert(lits@ + lits_of(data@) =~= lits_of(data@));
        assert(offs@ + offs_of(data@) =~= offs_of(data@));
    }
    while pos < data.len()
        invariant
            pos <= data@.len(),
            framed(data@.skip(pos as int)),
            cmds@ + cmds_of(data@.skip(pos as int)) == cmds_of(data@),
            lits@ + lits_of(data@.skip(pos as int)) == lits_of(data@),
            offs@ + offs_of(data@.skip(pos as int)) == offs_of(data@),
        decreases data@.len() - pos,
    {
        let ghost rest = data@.skip(pos as int);
        let ghost (c0, l0, o0) = (cmds@, lits@, offs@);
        let cmd: u8 = data[pos];
        proof {
            lemma_next_command(data@, pos as int);
        }
        let ghost next = data@.skip(pos + command_len(cmd));
        cmds.push(cmd);
        if cmd <= 0x80 {
            let count: usize = cmd as usize;
            bytes::append(&mut lits, slice_subrange(data, pos + 1, pos + 1 + count));
            pos = pos + 1 + count;
        } else {
            offs.push(data[pos + 1]);
            offs.push(data[pos + 2]);
            pos = pos + 3;
        }
        proof {
            assert(cmds@ + cmds_of(next) =~= c0 + cmds_of(rest));
            assert(lits@ + lits_of(next) =~= l0 + lits_of(rest));
            assert(offs@ + offs_of(next) =~= o0 + offs_of(rest));
        }
    }
    proof {
        assert(data@.skip(pos as int) =~= Seq::<u8>::empty());
        assert(cmds@ =~= cmds_of(data@));
        assert(lits@ =~= lits_of(data@));
        assert(offs@ =~= offs_of(data@));
    }
    let cmds_huf: Vec<u8> = huffman::huffman_encode(cmds.as_slice());
    let lits_huf: Vec<u8> = huffman::huffman_encode(lits.as_slice());
    let offs_huf: Vec<u8> = huffman::huffman_encode(offs.as_slice());
    let mut out: Vec<u8> = Vec::new();
    bytes::push_len(&mut out, cmds_huf.len());
    bytes::push_len(&mut out, lits_huf.len());
    bytes::append(&mut out, cmds_huf.as_slice());
    bytes::append(&mut out, lits_huf.as_slice());
    bytes::append(&mut out, offs_huf.as_slice());
    proof {
        reveal(frame3);
        assert(out@ =~= huf3_section(data@));
    }
    out
}

/// The four-stream section of LZSS commands.
pub fn lzss_huf4_encode(data: &[u8]) -> (out: Vec<u8>)
    requires
        framed(data@),
        cmds_of(data@).len() <= u32::MAX,
        lits_of(data@).len() <= u32::MAX,
        lows_of(data@).len() <= u32::MAX,
        highs_of(data@).len() <= u32::MAX,
    ensures
        out@ == huf4_section(data@),
{
    if data.is_empty() {
        return Vec::new();
    }
    let mut cmds: Vec<u8> = Vec::new();
    let mut lits: Vec<u8> = Vec::new();
    let mut lows: Vec<u8> = Vec::new();
    let mut highs: Vec<u8> = Vec::new();
    let mut pos: usize = 0;
    proof {
        assert(data@.skip(0) =~= data@);
        assert(cmds@ + cmds_of(data@) =~= cmds_of(data@));
        assert(lits@ + lits_of(data@) =~= lits_of(data@));
        assert(lows@ + lows_of(data@) =~= lows_of(data@));
        assert(highs@ + highs_of(data@) =~= highs_of(data@));
    }
    while pos < data.len()
        invariant
            pos <= data@.len(),
            framed(data@.skip(pos as int)),
            cmds@ + cmds_of(data@.skip(pos as int)) == cmds_of(data@),
            lits@ + lits_of(data@.skip(pos as int)) == lits_of(data@),
            lows@ + lows_of(data@.skip(pos as int)) == lows_of(data@),
            highs@ + highs_of(data@.skip(pos as int)) == highs_of(data@),
        decreases data@.len() - pos,
    {
        let ghost rest = data@.skip(pos as int);
        let ghost (c0, l0, o0, h0) = (cmds@, lits@, lows@, highs@);
        let cmd: u8 = data[pos];
        proof {
            lemma_next_command(data@, pos as int);
        }
        let ghost next = data@.skip(pos + command_len(cmd));
        cmds.push(cmd);
        if cmd <= 0x80 {
            let count: usize = cmd as usize;
            bytes::append(&mut lits, slice_subrange(data, pos + 1, pos + 1 + count));
            pos = pos + 1 + count;
        } else {
            lows.push(data[pos + 1]);
            highs.push(data[pos + 2]);
            pos = pos + 3;
        }
        proof {
            assert(cmds@ + cmds_of(next) =~= c0 + cmds_of(rest));
            assert(lits@ + lits_of(next) =~= l0 + lits_of(rest));
            assert(lows@ + lows_of(next) =~= o0 + lows_of(rest));
            assert(highs@ + highs_of(next) =~= h0 + highs_of(rest));
        }
    }
    proof {
        assert(data@.skip(pos as int) =~= Seq::<u8>::empty());
        assert(cmds@ =~= cmds_of(data@));
        assert(lits@ =~= lits_of(data@));
        assert(lows@ =~= lows_of(data@));
        assert(highs@ =~= highs_of(data@));
    }
    let cmds_huf: Vec<u8> = huffman::huffman_encode(cmds.as_slice());
    let lits_huf: Vec<u8> = huffman::huffman_encode(lits.as_slice());
    let lows_huf: Vec<u8> = huffman::huffman_encode(lows.as_slice());
    let highs_huf: Vec<u8> = huffman::huffman_encode(highs.as_slice());
    let mut out: Vec<u8> = Vec::new();
    bytes::push_len(&mut out, cmds_huf.len());
    bytes::push_len(&mut out, lits_huf.len());
    bytes::push_len(&mut out, lows_huf.len());
    bytes::append(&mut out, cmds_huf.as_slice());
    bytes::append(&mut out, lits_huf.as_slice());
    bytes::append(&mut out, lows_huf.as_slice());
    bytes::append(&mut out, highs_huf.as_slice());
    proof {
        reveal(frame4);
        assert(out@ =~= huf4_section(data@));
    }
    out
}

/// What a Huffman section holds; an empty one holds nothing.
fn decode_stream(data: &[u8]) -> (out: Result<Vec<u8>, Error>)
    ensures
        error::is_outcome(out, stream_contents(data@)),
{
    if data.is_empty() {
        Ok(Vec::new())
    } else {
        huffman::huffman_decode(data)
    }
}

/// The commands that three streams make up.
fn join3(cmds: &[u8], lits: &[u8], offs: &[u8]) -> (out: Result<Vec<u8>, Error>)
    ensures
        error::is_outcome(out, joined3(cmds@, lits@, offs@)),
{
    let mut out: Vec<u8> = Vec::new();
    let mut i: usize = 0;
    let mut lits_pos: usize = 0;
    let mut offs_pos: usize = 0;
    let ghost all = joined3(cmds@, lits@, offs@);
    proof {
        assert(cmds@.skip(0) =~= cmds@);
        assert(lits@.skip(0) =~= lits@);
        assert(offs@.skip(0) =~= offs@);
        lemma_before_nothing(all);
    }
    while i < cmds.len()
        invariant
            i <= cmds@.len(),
            lits_pos <= lits@.len(),
            offs_pos <= offs@.len(),
            all == joined3(cmds@, lits@, offs@),
            all == before(
                out@,
                joined3(
                    cmds@.skip(i as int),
                    lits@.skip(lits_pos as int),
                    offs@.skip(offs_pos as int),
                ),
            ),
        decreases cmds@.len() - i,
    {
        let ghost (c, l, o) = (
            cmds@.skip(i as int),
            lits@.skip(lits_pos as int),
            offs@.skip(offs_pos as int),
        );
        let ghost out0 = out@;
        let cmd: u8 = cmds[i];
        assert(c.skip(1) =~= cmds@.skip(i + 1));
        out.push(cmd);
        if cmd <= 0x80 {
            let count: usize = cmd as usize;
            if count > lits.len() - lits_pos {
                return Err(Error::Huf3LitsTruncated);
            }
            bytes::append(&mut out, slice_subrange(lits, lits_pos, lits_pos + count));
            proof {
                assert(l.skip(count as int) =~= lits@.skip(lits_pos + count));
                assert(l.take(count as int) =~= lits@.subrange(
                    lits_pos as int,
                    lits_pos + count,
                ));
                assert(out@ =~= out0 + (seq![cmd] + l.take(count as int)));
                lemma_before_twice(
                    out0,
                    seq![cmd] + l.take(count as int),
                    joined3(c.skip(1), l.skip(count as int), o),
                );
            }
            lits_pos = lits_pos + count;
        } else {
            if offs.len() - offs_pos < 2 {
                return Err(Error::Huf3OffsTruncated);
            }
            out.push(offs[offs_pos]);
            out.push(offs[offs_pos + 1]);
            proof {
                assert(o.skip(2) =~= offs@.skip(offs_pos + 2));
                assert(out@ =~= out0 + seq![cmd, o[0], o[1]]);
                lemma_before_twice(
                    out0,
                    seq![cmd, o[0], o[1]],
                    joined3(c.skip(1), l, o.skip(2)),
                );
            }
            offs_pos = offs_pos + 2;
        }
        i = i + 1;
    }
    assert(out@ + Seq::<u8>::empty() =~= out@);
    Ok(out)
}

/// The commands that four streams make up.
fn join4(cmds: &[u8], lits: &[u8], lows: &[u8], highs: &[u8]) -> (out: Result<Vec<u8>, Error>)
    ensures
        error::is_outcome(out, joined4(cmds@, lits@, lows@, highs@)),
{
    let mut out: Vec<u8> = Vec::new();
    let mut i: usize = 0;
    let mut lits_pos: usize = 0;
    let mut offs_pos: usize = 0;
    let ghost all = joined4(cmds@, lits@, lows@, highs@);
    proof {
        assert(cmds@.skip(0) =~= cmds@);
        assert(lits@.skip(0) =~= lits@);
        assert(lows@.skip(0) =~= lows@);
        assert(highs@.skip(0) =~= highs@);
        lemma_before_nothing(all);
    }
    while i < cmds.len()
        invariant
            i <= cmds@.len(),
            lits_pos <= lits@.len(),
            offs_pos <= lows@.len(),
            offs_pos <= highs@.len(),
            all == joined4(cmds@, lits@, lows@, highs@),
            all == before(
                out@,
                joined4(
                    cmds@.skip(i as int),
                    lits@.skip(lits_pos as int),
                    lows@.skip(offs_pos as int),
                    highs@.skip(offs_pos as int),
                ),
            ),
        decreases cmds@.len() - i,
    {
        let ghost (c, l) = (cmds@.skip(i as int), lits@.skip(lits_pos as int));
        let ghost (o, h) = (lows@.skip(offs_pos as int), highs@.skip(offs_pos as int));
        let ghost out0 = out@;
        let cmd: u8 = cmds[i];
        assert(c.skip(1) =~= cmds@.skip(i + 1));
        out.push(cmd);
        if cmd <= 0x80 {
            let count: usize = cmd as usize;
            if count > lits.len() - lits_pos {
                return Err(Error::Huf4LitsTruncated);
            }
            bytes::append(&mut out, slice_subrange(lits, lits_pos, lits_pos + count));
            proof {
                assert(l.skip(count as int) =~= lits@.skip(lits_pos + count));
                assert(l.take(count as int) =~= lits@.subrange(
                    lits_pos as int,
                    lits_pos + count,
                ));
                assert(out@ =~= out0 + (seq![cmd] + l.take(count as int)));
                lemma_before_twice(
                    out0,
                    seq![cmd] + l.take(count as int),
                    joined4(c.skip(1), l.skip(count as int), o, h),
                );
            }
            lits_pos = lits_pos + count;
        } else {
            if offs_pos >= lows.len() || offs_pos >= highs.len() {
                return Err(Error::Huf4OffsTruncated);
            }
            out.push(lows[offs_pos]);
            out.push(highs[offs_pos]);
            proof {
                assert(o.skip(1) =~= lows@.skip(offs_pos + 1));
                assert(h.skip(1) =~= highs@.skip(offs_pos + 1));
                assert(out@ =~= out0 + seq![cmd, o[0], h[0]]);
                lemma_before_twice(
                    out0,
                    seq![cmd, o[0], h[0]],
                    joined4(c.skip(1), l, o.skip(1), h.skip(1)),
                );
            }
            offs_pos = offs_pos + 1;
        }
        i = i + 1;
    }
    assert(out@ + Seq::<u8>::empty() =~= out@);
    Ok(out)
}

/// The LZSS commands in a three-stream section.
pub fn lzss_huf3_decode(data: &[u8]) -> (out: Result<Vec<u8>, Error>)
    ensures
        error::is_outcome(out, huf3_contents(data@)),
{
    if data.is_empty() {
        return Ok(Vec::new());
    }
    if data.len() < 8 {
        return Err(Error::Huf3TooShort);
    }
    let cmds_len: u64 = bytes::read_le32(data, 0) as u64;
    let lits_len: u64 = bytes::read_le32(data, 4) as u64;
    if 8 + cmds_len + lits_len > data.len() as u64 {
        return Err(Error::Huf3SectionOverflow);
    }
    let a: usize = 8 + cmds_len as usize;
    let b: usize = a + lits_len as usize;
    let ghost rest = data@.skip(b as int);
    assert(data@.subrange(b as int, data@.len() as int) =~= rest);
    let cmds: Vec<u8> = match huffman::huffman_decode(slice_subrange(data, 8, a)) {
        Ok(v) => v,
        Err(e) => {
            return Err(e);
        },
    };
    let lits: Vec<u8> = match decode_stream(slice_subrange(data, a, b)) {
        Ok(v) => v,
        Err(e) => {
            return Err(e);
        },
    };
    let offs: Vec<u8> = match decode_stream(slice_subrange(data, b, data.len())) {
        Ok(v) => v,
        Err(e) => {
            return Err(e);
        },
    };
    join3(cmds.as_slice(), lits.as_slice(), offs.as_slice())
}

/// The LZSS commands in a four-stream section.
pub fn lzss_huf4_decode(data: &[u8]) -> (out: Result<Vec<u8>, Error>)
    ensures
        error::is_outcome(out, huf4_contents(data@)),
{
    if data.is_empty() {
        return Ok(Vec::new());
    }
    if data.len() < 12 {
        return Err(Error::Huf4TooShort);
    }
    let cmds_len: u64 = bytes::read_le32(data, 0) as u64;
    let lits_len: u64 = bytes::read_le32(data, 4) as u64;
    let lows_len: u64 = bytes::read_le32(data, 8) as u64;
    if 12 + cmds_len + lits_len + lows_len > data.len() as u64 {
        return Err(Error::Huf4SectionOverflow);
    }
    let a: usize = 12 + cmds_len as usize;
    let b: usize = a + lits_len as usize;
    let c: usize = b + lows_len as usize;
    let ghost rest = data@.skip(c as int);
    assert(data@.subrange(c as int, data@.len() as int) =~= rest);
    let cmds: Vec<u8> = match huffman::huffman_decode(slice_subrange(data, 12, a)) {
        Ok(v) => v,
        Err(e) => {
            return Err(e);
        },
    };
    let lits: Vec<u8> = match decode_stream(slice_subrange(data, a, b)) {
        Ok(v) => v,
        Err(e) => {
            return Err(e);
        },
    };
    let lows: Vec<u8> = match decode_stream(slice_subrange(data, b, c)) {
        Ok(v) => v,
        Err(e) => {
            return Err(e);
        },
    };
    let highs: Vec<u8> = match decode_stream(slice_subrange(data, c, data.len())) {
        Ok(v) => v,
        Err(e) => {
            return Err(e);
        },
    };
    join4(cmds.as_slice(), lits.as_slice(), lows.as_slice(), highs.as_slice())
}

/// Nothing in front changes nothing.
proof fn lemma_before_nothing(rest: Result<Seq<u8>, Error>)
    ensures
        before(Seq::empty(), rest) == rest,
{
    if let Ok(s) = rest {
        assert(Seq::<u8>::empty() + s =~= s);
    }
}

/// Two runs of bytes in front are one.
proof fn lemma_before_twice(a: Seq<u8>, b: Seq<u8>, rest: Result<Seq<u8>, Error>)
    ensures
        before(a, before(b, rest)) == before(a + b, rest),
{
    if let Ok(s) = rest {
        assert(a + (b + s) =~= a + b + s);
    }
}

/// The streams take no more bytes than the commands.
pub proof fn lemma_stream_lens(data: Seq<u8>)
    ensures
        cmds_of(data).len() <= data.len(),
        lits_of(data).len() <= data.len(),
        offs_of(data).len() <= data.len(),
        lows_of(data).len() <= data.len(),
        highs_of(data).len() <= data.len(),
        data.len() > 0 && framed(data) ==> cmds_of(data).len() > 0,
    decreases data.len(),
{
    if data.len() > 0 && command_len(data[0]) <= data.len() {
        lemma_stream_lens(data.skip(command_len(data[0])));
    }
}

/// Commands that can be carried out are whole.
pub proof fn lemma_expanded_framed(out: Seq<u8>, data: Seq<u8>)
    requires
        lzss::expanded(out, data) is Ok,
    ensures
        framed(data),
    decreases data.len(),
{
    if data.len() > 0 {
        let cmd = data[0];
        if cmd <= 0x80 {
            lemma_expanded_framed(out + data.subrange(1, 1 + cmd), data.skip(1 + cmd));
        } else {
            let offset = data[1] + 256 * data[2] + 1;
            lemma_expanded_framed(
                lzss::copied(out, offset, (cmd - 0x81 + 4) as nat),
                data.skip(3),
            );
        }
    }
}

/// Commands that are taken apart into three streams come back together.
pub proof fn lemma_join3_split(data: Seq<u8>)
    requires
        framed(data),
    ensures
        joined3(cmds_of(data), lits_of(data), offs_of(data)) == Ok::<Seq<u8>, Error>(data),
    decreases data.len(),
{
    if data.len() == 0 {
        assert(data =~= Seq::<u8>::empty());
    } else {
        let n = command_len(data[0]);
        let rest = data.skip(n);
        lemma_join3_split(rest);
        assert(cmds_of(data).skip(1) =~= cmds_of(rest));
        if data[0] <= 0x80 {
            assert(lits_of(data).take(n - 1) =~= data.subrange(1, n));
            assert(lits_of(data).skip(n - 1) =~= lits_of(rest));
            assert(seq![data[0]] + data.subrange(1, n) + rest =~= data);
        } else {
            assert(offs_of(data).skip(2) =~= offs_of(rest));
            assert(seq![data[0], data[1], data[2]] + rest =~= data);
        }
    }
}

/// Commands that are taken apart into four streams come back together.
pub proof fn lemma_join4_split(data: Seq<u8>)
    requires
        framed(data),
    ensures
        joined4(cmds_of(data), lits_of(data), lows_of(data), highs_of(data)) == Ok::<
            Seq<u8>,
            Error,
        >(data),
    decreases data.len(),
{
    if data.len() == 0 {
        assert(data =~= Seq::<u8>::empty());
    } else {
        let n = command_len(data[0]);
        let rest = data.skip(n);
        lemma_join4_split(rest);
        assert(cmds_of(data).skip(1) =~= cmds_of(rest));
        if data[0] <= 0x80 {
            assert(lits_of(data).take(n - 1) =~= data.subrange(1, n));
            assert(lits_of(data).skip(n - 1) =~= lits_of(rest));
            assert(seq![data[0]] + data.subrange(1, n) + rest =~= data);
        } else {
            assert(lows_of(data).skip(1) =~= lows_of(rest));
            assert(highs_of(data).skip(1) =~= highs_of(rest));
            assert(seq![data[0], data[1], data[2]] + rest =~= data);
        }
    }
}

/// A stream comes back from its section.
proof fn lemma_stream_round_trip(s: Seq<u8>)
    requires
        s.len() <= u32::MAX,
    ensures
        stream_contents(huffman::section(s)) == Ok::<Seq<u8>, Error>(s),
{
    if s.len() == 0 {
        assert(s =~= Seq::<u8>::empty());
    } else {
        huffman::lemma_section_len(s);
        huffman::lemma_huffman_round_trip(s);
    }
}

/// Where the parts of a three-stream section stand.
#[verifier::rlimit(40)]
pub proof fn lemma_parts3(cmds: Seq<u8>, lits: Seq<u8>, offs: Seq<u8>)
    requires
        cmds.len() <= u32::MAX,
        lits.len() <= u32::MAX,
    ensures
        ({
            let all = frame3(cmds, lits, offs);
            let a = 8 + cmds.len();
            let b = a + lits.len();
            &&& all.len() == b + offs.len()
            &&& bytes::le32_at(all, 0) == cmds.len()
            &&& bytes::le32_at(all, 4) == lits.len()
            &&& all.subrange(8, a as int) == cmds
            &&& all.subrange(a as int, b as int) == lits
            &&& all.skip(b as int) == offs
        }),
{
    reveal(frame3);
    let x = bytes::le32(cmds.len() as int);
    let y = bytes::le32(lits.len() as int);
    let all = x + y + cmds + lits + offs;
    let a = 8 + cmds.len();
    let b = a + lits.len();
    bytes::lemma_le32_reads_back(Seq::empty(), cmds.len() as int, y + cmds + lits + offs);
    assert(Seq::<u8>::empty() + x + (y + cmds + lits + offs) =~= all);
    bytes::lemma_le32_reads_back(x, lits.len() as int, cmds + lits + offs);
    assert(x + y + (cmds + lits + offs) =~= all);
    assert(all.subrange(8, a as int) =~= cmds);
    assert(all.subrange(a as int, b as int) =~= lits);
    assert(all.skip(b as int) =~= offs);
}

/// Where the parts of a four-stream section stand.
#[verifier::rlimit(40)]
pub proof fn lemma_parts4(cmds: Seq<u8>, lits: Seq<u8>, lows: Seq<u8>, highs: Seq<u8>)
    requires
        cmds.len() <= u32::MAX,
        lits.len() <= u32::MAX,
        lows.len() <= u32::MAX,
    ensures
        ({
            let all = frame4(cmds, lits, lows, highs);
            let a = 12 + cmds.len();
            let b = a + lits.len();
            let c = b + lows.len();
            &&& all.len() == c + highs.len()
            &&& bytes::le32_at(all, 0) == cmds.len()
            &&& bytes::le32_at(all, 4) == lits.len()
            &&& bytes::le32_at(all, 8) == lows.len()
            &&& all.subrange(12, a as int) == cmds
            &&& all.subrange(a as int, b as int) == lits
            &&& all.subrange(b as int, c as int) == lows
            &&& all.skip(c as int) == highs
        }),
{
    reveal(frame4);
    let x = bytes::le32(cmds.len() as int);
    let y = bytes::le32(lits.len() as int);
    let z = bytes::le32(lows.len() as int);
    let tail = cmds + lits + lows + highs;
    let all = frame4(cmds, lits, lows, highs);
    let a = 12 + cmds.len() as int;
    let b = a + lits.len();
    let c = b + lows.len();
    assert(x.len() == 4 && y.len() == 4 && z.len() == 4);
    assert(bytes::le32_at(all, 0) == cmds.len()) by {
        bytes::lemma_le32_reads_back(Seq::empty(), cmds.len() as int, y + z + tail);
        assert(Seq::<u8>::empty() + x + (y + z + tail) =~= all);
    }
    assert(bytes::le32_at(all, 4) == lits.len()) by {
        bytes::lemma_le32_reads_back(x, lits.len() as int, z + tail);
        assert(x + y + (z + tail) =~= all);
    }
    assert(bytes::le32_at(all, 8) == lows.len()) by {
        bytes::lemma_le32_reads_back(x + y, lows.len() as int, tail);
        assert(x + y + z + tail =~= all);
    }
    lemma_bodies4(x + y + z, cmds, lits, lows, highs);
}

/// Where four sections stand after a head.
proof fn lemma_bodies4(
    head: Seq<u8>,
    cmds: Seq<u8>,
    lits: Seq<u8>,
    lows: Seq<u8>,
    highs: Seq<u8>,
)
    requires
        head.len() == 12,
    ensures
        ({
            let all = head + cmds + lits + lows + highs;
            let a = 12 + cmds.len();
            let b = a + lits.len();
            let c = b + lows.len();
            &&& all.len() == c + highs.len()
            &&& all.subrange(12, a as int) == cmds
            &&& all.subrange(a as int, b as int) == lits
            &&& all.subrange(b as int, c as int) == lows
            &&& all.skip(c as int) == highs
        }),
{
    let all = head + cmds + lits + lows + highs;
    let a = 12 + cmds.len() as int;
    let b = a + lits.len();
    let c = b + lows.len();
    assert(all.subrange(12, a) =~= cmds);
    assert(all.subrange(a, b) =~= lits);
    assert(all.subrange(b, c) =~= lows);
    assert(all.skip(c) =~= highs);
}

/// Three streams lose nothing where the streams and the sections whose lengths are written fit four
/// bytes: the section of LZSS commands holds those commands.
pub proof fn lemma_huf3_sections_round_trip(data: Seq<u8>)
    requires
        framed(data),
        cmds_of(data).len() <= u32::MAX,
        lits_of(data).len() <= u32::MAX,
        offs_of(data).len() <= u32::MAX,
        huffman::section(cmds_of(data)).len() <= u32::MAX,
        huffman::section(lits_of(data)).len() <= u32::MAX,
    ensures
        huf3_contents(huf3_section(data)) == Ok::<Seq<u8>, Error>(data),
{
    if data.len() == 0 {
        assert(data =~= Seq::<u8>::empty());
    } else {
        lemma_stream_lens(data);
        lemma_parts3(
            huffman::section(cmds_of(data)),
            huffman::section(lits_of(data)),
            huffman::section(offs_of(data)),
        );
        huffman::lemma_huffman_round_trip(cmds_of(data));
        lemma_stream_round_trip(lits_of(data));
        lemma_stream_round_trip(offs_of(data));
        lemma_join3_split(data);
    }
}

/// Four streams lose nothing where the streams and the sections whose lengths are written fit four
/// bytes: the section of LZSS commands holds those commands.
#[verifier::rlimit(40)]
pub proof fn lemma_huf4_sections_round_trip(data: Seq<u8>)
    requires
        framed(data),
        cmds_of(data).len() <= u32::MAX,
        lits_of(data).len() <= u32::MAX,
        lows_of(data).len() <= u32::MAX,
        highs_of(data).len() <= u32::MAX,
        huffman::section(cmds_of(data)).len() <= u32::MAX,
        huffman::section(lits_of(data)).len() <= u32::MAX,
        huffman::section(lows_of(data)).len() <= u32::MAX,
    ensures
        huf4_contents(huf4_section(data)) == Ok::<Seq<u8>, Error>(data),
{
    if data.len() == 0 {
        assert(data =~= Seq::<u8>::empty());
    } else {
        lemma_stream_lens(data);
        lemma_parts4(
            huffman::section(cmds_of(data)),
            huffman::section(lits_of(data)),
            huffman::section(lows_of(data)),
            huffman::section(highs_of(data)),
        );
        huffman::lemma_huffman_round_trip(cmds_of(data));
        lemma_stream_round_trip(lits_of(data));
        lemma_stream_round_trip(lows_of(data));
        lemma_stream_round_trip(highs_of(data));
        lemma_join4_split(data);
    }
}

/// Three streams lose nothing: the section of LZSS commands holds those commands. No commands of up
/// to four gigabytes less a section's head are left out.
pub proof fn lemma_huf3_round_trip(data: Seq<u8>)
    requires
        framed(data),
        260 + data.len() <= u32::MAX,
    ensures
        huf3_contents(huf3_section(data)) == Ok::<Seq<u8>, Error>(data),
{
    lemma_stream_lens(data);
    huffman::lemma_section_len(cmds_of(data));
    huffman::lemma_section_len(lits_of(data));
    lemma_huf3_sections_round_trip(data);
}

/// Four streams lose nothing: the section of LZSS commands holds those commands. No commands of up
/// to four gigabytes less a section's head are left out.
pub proof fn lemma_huf4_round_trip(data: Seq<u8>)
    requires
        framed(data),
        260 + data.len() <= u32::MAX,
    ensures
        huf4_contents(huf4_section(data)) == Ok::<Seq<u8>, Error>(data),
{
    lemma_stream_lens(data);
    huffman::lemma_section_len(cmds_of(data));
    huffman::lemma_section_len(lits_of(data));
    huffman::lemma_section_len(lows_of(data));
    lemma_huf4_sections_round_trip(data);
}

} // verus!
