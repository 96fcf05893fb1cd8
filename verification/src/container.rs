//! The container: a header, then one record for each block.
//!
//! The header is a magic number and the size of the input in eight bytes. A record is the type of
//! the block, the size of the block and the size of what stands for it, each in four bytes, and
//! then what stands for it. Numbers have the least significant byte first. Nothing marks the last
//! record: the container ends with it.

use crate::block;
use crate::block::BLOCK_SIZE;
use crate::bytes;
use crate::error;
use crate::error::Error;
use crate::matcher::WINDOW_SIZE;
use crate::predictor::Entropies;
use vstd::prelude::*;
use vstd::slice::slice_subrange;

verus! {

/// The first bytes of a container.
pub const MAGIC: [u8; 4] = [0x4c, 0x5a, 0x43, 0x33];

/// The number of bytes of a header.
pub const HEADER_SIZE: usize = 12;

/// The number of bytes of a record before what stands for the block.
pub const RECORD_HEAD: usize = 9;

/// The header for an input of the given size.
pub open spec fn header(size: int) -> Seq<u8> {
    MAGIC@ + bytes::le64(size)
}

/// The record of a block.
pub open spec fn record(flag: u8, raw_len: int, data: Seq<u8>) -> Seq<u8> {
    seq![flag] + bytes::le32(raw_len) + bytes::le32(data.len() as int) + data
}

/// The record of a block with the given history and figures.
pub open spec fn block_record(history: Seq<u8>, b: Seq<u8>, e: Entropies) -> Seq<u8> {
    let (flag, data) = block::encoded(history, b, e);
    record(flag, b.len() as int, data)
}

/// The number of blocks of an input of `n` bytes.
pub open spec fn block_count(n: int) -> int {
    (n + BLOCK_SIZE - 1) / (BLOCK_SIZE as int)
}

/// The size of the first block of an input of `n` bytes.
pub open spec fn first_size(n: int) -> int {
    if n < BLOCK_SIZE {
        n
    } else {
        BLOCK_SIZE as int
    }
}

/// The records of an input, with the figures of its blocks.
pub open spec fn records(history: Seq<u8>, input: Seq<u8>, e: Seq<Entropies>) -> Seq<u8>
    decreases input.len(),
{
    if input.len() == 0 {
        Seq::empty()
    } else {
        let k = first_size(input.len() as int);
        let b = input.take(k);
        let next = block::pushed(history, b);
        block_record(history, b, e[0]) + records(next, input.skip(k), e.skip(1))
    }
}

/// The container of an input, with the figures of its blocks.
pub open spec fn archive(input: Seq<u8>, e: Seq<Entropies>) -> Seq<u8> {
    header(input.len() as int) + records(Seq::empty(), input, e)
}

/// What comes out of records: the bytes of the blocks up to the first that is refused, and why that
/// one is.
pub open spec fn unpacked(history: Seq<u8>, data: Seq<u8>) -> (Seq<u8>, Option<Error>)
    decreases data.len(),
{
    if data.len() == 0 {
        (Seq::empty(), None)
    } else if data.len() < RECORD_HEAD || data.len() < RECORD_HEAD + bytes::le32_at(data, 5) {
        (Seq::empty(), Some(Error::UnexpectedEof))
    } else {
        let end = RECORD_HEAD + bytes::le32_at(data, 5);
        let stored = data.subrange(RECORD_HEAD as int, end);
        match block::contents(data[0], history, stored, bytes::le32_at(data, 1)) {
            Err(e) => (Seq::empty(), Some(e)),
            Ok(b) => {
                let (rest, e) = unpacked(block::pushed(history, b), data.skip(end));
                (b + rest, e)
            },
        }
    }
}

/// What comes out of a container. The size in the header is not looked at.
pub open spec fn extracted(data: Seq<u8>) -> (Seq<u8>, Option<Error>) {
    if data.len() < 4 {
        (Seq::empty(), Some(Error::UnexpectedEof))
    } else if data.take(4) != MAGIC@ {
        (Seq::empty(), Some(Error::InvalidMagic))
    } else if data.len() < HEADER_SIZE {
        (Seq::empty(), Some(Error::UnexpectedEof))
    } else {
        unpacked(Seq::empty(), data.skip(HEADER_SIZE as int))
    }
}

/// Whether the first four bytes are those of a container.
pub fn is_magic(first: &[u8]) -> (yes: bool)
    requires
        first@.len() == 4,
    ensures
        yes == (first@ == MAGIC@),
{
    let yes: bool = first[0] == MAGIC[0] && first[1] == MAGIC[1] && first[2] == MAGIC[2] && first[3]
        == MAGIC[3];
    assert(yes == (first@ =~= MAGIC@));
    yes
}

/// The size of a block and of what stands for it, from the eight bytes that hold them in a record.
pub fn read_sizes(sizes: &[u8]) -> (r: (u32, u32))
    requires
        sizes@.len() == 8,
    ensures
        r.0 == bytes::le32_at(sizes@, 0),
        r.1 == bytes::le32_at(sizes@, 4),
{
    (bytes::read_le32(sizes, 0), bytes::read_le32(sizes, 4))
}

/// Appends the header for an input of the given size.
pub fn write_header(output: &mut Vec<u8>, size: u64)
    ensures
        final(output)@ == old(output)@ + header(size as int),
{
    let ghost out0 = output@;
    output.push(MAGIC[0]);
    output.push(MAGIC[1]);
    output.push(MAGIC[2]);
    output.push(MAGIC[3]);
    bytes::push_le64(output, size);
    assert(output@ =~= out0 + header(size as int));
}

/// Appends the record of a block, and the block to the history.
pub fn write_record(output: &mut Vec<u8>, history: &mut Vec<u8>, b: &[u8], e: &Entropies)
    requires
        old(history)@.len() <= WINDOW_SIZE,
        b@.len() <= BLOCK_SIZE,
    ensures
        final(output)@ == old(output)@ + block_record(old(history)@, b@, *e),
        final(history)@ == block::pushed(old(history)@, b@),
        final(history)@.len() <= WINDOW_SIZE,
{
    let ghost (out0, h0) = (output@, history@);
    let (flag, data): (u8, Vec<u8>) = block::compress_block(history.as_slice(), b, e);
    output.push(flag);
    bytes::push_len(output, b.len());
    bytes::push_len(output, data.len());
    bytes::append(output, data.as_slice());
    assert(output@ =~= out0 + block_record(h0, b@, *e));
    block::push_history(history, b);
}

/// The block of a record. It is appended to the history.
pub fn read_record(history: &mut Vec<u8>, flag: u8, raw_len: u32, data: &[u8]) -> (out: Result<
    Vec<u8>,
    Error,
>)
    requires
        old(history)@.len() <= WINDOW_SIZE,
    ensures
        error::is_outcome(out, block::contents(flag, old(history)@, data@, raw_len as int)),
        out matches Ok(b) ==> final(history)@ == block::pushed(old(history)@, b@),
        out is Err ==> final(history)@ == old(history)@,
        final(history)@.len() <= WINDOW_SIZE,
{
    match block::decode_block(history.as_slice(), flag, raw_len, data) {
        Ok(b) => {
            block::push_history(history, b.as_slice());
            Ok(b)
        },
        Err(e) => Err(e),
    }
}

/// Compresses an input: appends its container. `entropies` holds the figures of each block.
pub fn compress(input: &[u8], entropies: &[Entropies], output: &mut Vec<u8>)
    requires
        entropies@.len() == block_count(input@.len() as int),
    ensures
        final(output)@ == old(output)@ + archive(input@, entropies@),
{
    let n: usize = input.len();
    let ghost all = output@ + archive(input@, entropies@);
    write_header(output, n as u64);
    let mut history: Vec<u8> = Vec::new();
    let mut pos: usize = 0;
    let mut i: usize = 0;
    proof {
        assert(input@.skip(0) =~= input@);
        assert(entropies@.skip(0) =~= entropies@);
        assert(history@ =~= Seq::<u8>::empty());
        assert(output@ + records(history@, input@, entropies@) =~= all);
    }
    while pos < n
        invariant
            n == input@.len(),
            pos <= n,
            entropies@.len() == i + block_count(n - pos),
            history@.len() <= WINDOW_SIZE,
            output@ + records(history@, input@.skip(pos as int), entropies@.skip(i as int)) == all,
        decreases n - pos,
    {
        let size: usize = if n - pos < BLOCK_SIZE {
            n - pos
        } else {
            BLOCK_SIZE
        };
        let ghost (out0, h0) = (output@, history@);
        let ghost rest = input@.skip(pos as int);
        let ghost figures = entropies@.skip(i as int);
        assert(block_count(n - pos) >= 1);
        let b: &[u8] = slice_subrange(input, pos, pos + size);
        write_record(output, &mut history, b, &entropies[i]);
        proof {
            assert(b@ =~= rest.take(size as int));
            assert(input@.skip(pos + size) =~= rest.skip(size as int));
            assert(entropies@.skip(i + 1) =~= figures.skip(1));
            let later = records(history@, rest.skip(size as int), figures.skip(1));
            assert(output@ + later =~= out0 + records(h0, rest, figures));
            assert(block_count(n - pos - size) == block_count(n - pos) - 1);
        }
        pos = pos + size;
        i = i + 1;
    }
    proof {
        assert(input@.skip(pos as int) =~= Seq::<u8>::empty());
        assert(output@ =~= all);
    }
}

/// Decompresses a container: appends the bytes of its blocks, up to the first that is refused.
pub fn decompress(input: &[u8], output: &mut Vec<u8>) -> (r: Result<(), Error>)
    ensures
        final(output)@ == old(output)@ + extracted(input@).0,
        r matches Err(e) ==> extracted(input@).1 == Some(e),
        r is Ok ==> extracted(input@).1 is None,
{
    let n: usize = input.len();
    let ghost out0 = output@;
    proof {
        assert(output@ + Seq::<u8>::empty() =~= output@);
    }
    if n < 4 {
        return Err(Error::UnexpectedEof);
    }
    assert(input@.subrange(0, 4) =~= input@.take(4));
    if !is_magic(slice_subrange(input, 0, 4)) {
        return Err(Error::InvalidMagic);
    }
    if n < HEADER_SIZE {
        return Err(Error::UnexpectedEof);
    }
    let mut history: Vec<u8> = Vec::new();
    let mut pos: usize = HEADER_SIZE;
    let ghost all = extracted(input@);
    proof {
        assert(history@ =~= Seq::<u8>::empty());
        assert(out0 + all.0 =~= output@ + unpacked(history@, input@.skip(pos as int)).0);
    }
    while pos < n
        invariant
            n == input@.len(),
            pos <= n,
            history@.len() <= WINDOW_SIZE,
            all == extracted(input@),
            out0 == old(output)@,
            out0 + all.0 == output@ + unpacked(history@, input@.skip(pos as int)).0,
            all.1 == unpacked(history@, input@.skip(pos as int)).1,
        decreases n - pos,
    {
        let ghost rest = input@.skip(pos as int);
        let ghost (before, h0) = (output@, history@);
        proof {
            assert(before + Seq::<u8>::empty() =~= before);
        }
        if n - pos < RECORD_HEAD {
            return Err(Error::UnexpectedEof);
        }
        let (raw_len, data_len): (u32, u32) = read_sizes(slice_subrange(input, pos + 1, pos + 9));
        assert(raw_len == bytes::le32_at(rest, 1));
        assert(data_len == bytes::le32_at(rest, 5));
        if data_len as u64 > (n - pos - RECORD_HEAD) as u64 {
            return Err(Error::UnexpectedEof);
        }
        let start: usize = pos + RECORD_HEAD;
        let end: usize = start + data_len as usize;
        let data: &[u8] = slice_subrange(input, start, end);
        proof {
            assert(data@ =~= rest.subrange(RECORD_HEAD as int, RECORD_HEAD + data_len));
            assert(input@.skip(end as int) =~= rest.skip(RECORD_HEAD + data_len));
            assert(rest[0] == input@[pos as int]);
        }
        let b: Vec<u8> = match read_record(&mut history, input[pos], raw_len, data) {
            Ok(b) => b,
            Err(e) => {
                return Err(e);
            },
        };
        bytes::append(output, b.as_slice());
        proof {
            let later = unpacked(history@, input@.skip(end as int)).0;
            assert(output@ + later =~= before + unpacked(h0, rest).0);
        }
        pos = end;
    }
    assert(input@.skip(pos as int) =~= Seq::<u8>::empty());
    assert(output@ =~= out0 + all.0);
    Ok(())
}

/// Where the parts of a record stand.
#[verifier::rlimit(60)]
pub proof fn lemma_record_parts(flag: u8, raw_len: int, data: Seq<u8>, after: Seq<u8>)
    requires
        0 <= raw_len <= u32::MAX,
        data.len() <= u32::MAX,
    ensures
        ({
            let all = record(flag, raw_len, data) + after;
            let end = RECORD_HEAD + data.len();
            &&& all.len() == end + after.len()
            &&& all[0] == flag
            &&& bytes::le32_at(all, 1) == raw_len
            &&& bytes::le32_at(all, 5) == data.len()
            &&& all.subrange(RECORD_HEAD as int, end as int) == data
            &&& all.skip(end as int) == after
        }),
{
    let all = record(flag, raw_len, data) + after;
    let x = bytes::le32(raw_len);
    let y = bytes::le32(data.len() as int);
    let end = RECORD_HEAD + data.len() as int;
    assert(bytes::le32_at(all, 1) == raw_len) by {
        bytes::lemma_le32_reads_back(seq![flag], raw_len, y + data + after);
        assert(seq![flag] + x + (y + data + after) =~= all);
    }
    assert(bytes::le32_at(all, 5) == data.len()) by {
        bytes::lemma_le32_reads_back(seq![flag] + x, data.len() as int, data + after);
        assert(seq![flag] + x + y + (data + after) =~= all);
    }
    assert(all.subrange(RECORD_HEAD as int, end) =~= data);
    assert(all.skip(end) =~= after);
}

/// The records of an input give it back, and take at most nine bytes for each block besides.
proof fn lemma_records(history: Seq<u8>, input: Seq<u8>, e: Seq<Entropies>)
    ensures
        unpacked(history, records(history, input, e)) == (input, None::<Error>),
        records(history, input, e).len() <= input.len() + RECORD_HEAD * block_count(
            input.len() as int,
        ),
    decreases input.len(),
{
    if input.len() == 0 {
        assert(input =~= Seq::<u8>::empty());
    } else {
        let n = input.len() as int;
        let k = first_size(n);
        let b = input.take(k);
        let (flag, data) = block::encoded(history, b, e[0]);
        let after = records(block::pushed(history, b), input.skip(k), e.skip(1));
        block::lemma_block_round_trip(history, b, e[0]);
        lemma_record_parts(flag, k, data, after);
        lemma_records(block::pushed(history, b), input.skip(k), e.skip(1));
        assert(b + input.skip(k) =~= input);
        assert(block_count(n - k) == block_count(n) - 1);
    }
}

/// The library loses nothing: decompressing the container of an input gives that input, without an
/// error, whatever the figures of its blocks are.
pub proof fn lemma_round_trip(input: Seq<u8>, e: Seq<Entropies>)
    requires
        e.len() == block_count(input.len() as int),
    ensures
        extracted(archive(input, e)) == (input, None::<Error>),
{
    let data = archive(input, e);
    let rest = records(Seq::empty(), input, e);
    lemma_records(Seq::empty(), input, e);
    assert(data.take(4) =~= MAGIC@);
    assert(data.skip(HEADER_SIZE as int) =~= rest);
}

/// A container is never much larger than its input: the header and the heads of the records are
/// all that is added.
pub proof fn lemma_archive_len(input: Seq<u8>, e: Seq<Entropies>)
    requires
        e.len() == block_count(input.len() as int),
    ensures
        archive(input, e).len() <= HEADER_SIZE + input.len() + RECORD_HEAD * block_count(
            input.len() as int,
        ),
{
    lemma_records(Seq::empty(), input, e);
}

/// Records can be written one block at a time: those of whole blocks `a`, and then those of `b`
/// with the history that `a` leaves, are those of both.
pub proof fn lemma_records_in_parts(
    history: Seq<u8>,
    a: Seq<u8>,
    b: Seq<u8>,
    e: Seq<Entropies>,
    f: Seq<Entropies>,
)
    requires
        a.len() % (BLOCK_SIZE as nat) == 0,
        e.len() == block_count(a.len() as int),
        history.len() <= WINDOW_SIZE,
    ensures
        records(history, a + b, e + f) == records(history, a, e) + records(
            block::pushed(history, a),
            b,
            f,
        ),
    decreases a.len(),
{
    if a.len() == 0 {
        assert(a + b =~= b);
        assert(e + f =~= f);
        assert(block::pushed(history, a) =~= history);
        assert(records(history, a, e) + records(history, b, f) =~= records(history, b, f));
    } else {
        let k = BLOCK_SIZE as int;
        let first = a.take(k);
        let next = block::pushed(history, first);
        assert((a + b).take(k) =~= first);
        assert((a + b).skip(k) =~= a.skip(k) + b);
        assert((e + f).skip(1) =~= e.skip(1) + f);
        lemma_records_in_parts(next, a.skip(k), b, e.skip(1), f);
        block::lemma_pushed_twice(history, first, a.skip(k));
        assert(first + a.skip(k) =~= a);
        let head = block_record(history, first, e[0]);
        let middle = records(next, a.skip(k), e.skip(1));
        let tail = records(block::pushed(history, a), b, f);
        assert(head + (middle + tail) =~= head + middle + tail);
    }
}

/// The records of one block.
pub proof fn lemma_one_record(history: Seq<u8>, b: Seq<u8>, figures: Entropies)
    requires
        0 < b.len() <= BLOCK_SIZE,
    ensures
        records(history, b, seq![figures]) == block_record(history, b, figures),
{
    let one = seq![figures];
    let record = block_record(history, b, figures);
    let n = b.len() as int;
    assert(b.take(n) =~= b);
    assert(b.skip(n) =~= Seq::<u8>::empty());
    assert(records(block::pushed(history, b), b.skip(n), one.skip(1)) =~= Seq::<u8>::empty());
    assert(record + Seq::<u8>::empty() =~= record);
}

/// A container is its header and then one record after the other: to the records of whole blocks
/// `a`, the record of the next block `b` with the history that `a` leaves is added.
pub proof fn lemma_next_record(a: Seq<u8>, b: Seq<u8>, e: Seq<Entropies>, figures: Entropies)
    requires
        a.len() % (BLOCK_SIZE as nat) == 0,
        e.len() == block_count(a.len() as int),
        0 < b.len() <= BLOCK_SIZE,
    ensures
        archive(a + b, e.push(figures)) == header((a + b).len() as int) + records(
            Seq::empty(),
            a,
            e,
        ) + block_record(block::pushed(Seq::empty(), a), b, figures),
        block::pushed(block::pushed(Seq::empty(), a), b) == block::pushed(Seq::empty(), a + b),
{
    let history = block::pushed(Seq::empty(), a);
    let one = seq![figures];
    let head = header((a + b).len() as int);
    let before = records(Seq::empty(), a, e);
    let last = block_record(history, b, figures);
    assert(records(Seq::empty(), a + b, e.push(figures)) == before + last) by {
        lemma_records_in_parts(Seq::empty(), a, b, e, one);
        assert(e + one =~= e.push(figures));
        lemma_one_record(history, b, figures);
    }
    assert(block::pushed(history, b) == block::pushed(Seq::empty(), a + b)) by {
        block::lemma_pushed_twice(Seq::empty(), a, b);
    }
    lemma_parts_in_order(head, before, last);
}

proof fn lemma_parts_in_order(a: Seq<u8>, b: Seq<u8>, c: Seq<u8>)
    ensures
        a + (b + c) == a + b + c,
{
    assert(a + (b + c) =~= a + b + c);
}

/// Records can be read one at a time: what comes out of a record and those after it is its block
/// and then what comes out of those with the history that the block leaves, or the error of the
/// block.
pub proof fn lemma_first_record(
    history: Seq<u8>,
    flag: u8,
    raw_len: u32,
    data: Seq<u8>,
    after: Seq<u8>,
)
    requires
        data.len() <= u32::MAX,
    ensures
        unpacked(history, record(flag, raw_len as int, data) + after) == match block::contents(
            flag,
            history,
            data,
            raw_len as int,
        ) {
            Err(e) => (Seq::<u8>::empty(), Some(e)),
            Ok(b) => {
                let (rest, e) = unpacked(block::pushed(history, b), after);
                (b + rest, e)
            },
        },
{
    lemma_record_parts(flag, raw_len as int, data, after);
}

} // verus!
