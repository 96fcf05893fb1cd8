//! LZSS: a byte string as runs of literals and references to earlier bytes.
//!
//! A command byte up to 0x80 is followed by that many literals. A command byte from 0x81 on is
//! followed by two bytes, least significant first, that hold an offset less one; it stands for
//! as many bytes as the command exceeds 0x81, and four more, copied from that offset back.

use crate::bytes;
use crate::error;
use crate::error::Error;
use crate::matcher;
use crate::matcher::{MatchTables, Tables, MAX_MATCH, MIN_MATCH, WINDOW_SIZE};
use vstd::prelude::*;
use vstd::slice::{slice_subrange, slice_to_vec};

verus! {

/// `out` followed by `len` bytes copied from `offset` back, one after the other: a copy may run
/// into the bytes that it writes.
pub open spec fn copied(out: Seq<u8>, offset: int, len: nat) -> Seq<u8>
    decreases len,
{
    if len == 0 {
        out
    } else {
        let o = copied(out, offset, (len - 1) as nat);
        o.push(o[o.len() - offset])
    }
}

/// `out` followed by the bytes that the commands in `data` stand for, or the first error.
pub open spec fn expanded(out: Seq<u8>, data: Seq<u8>) -> Result<Seq<u8>, Error>
    decreases data.len(),
{
    if data.len() == 0 {
        Ok(out)
    } else {
        let cmd = data[0];
        if cmd == 0 {
            Err(Error::ZeroLiteralCount)
        } else if cmd <= 0x80 {
            if 1 + cmd > data.len() {
                Err(Error::TruncatedLiteralRun)
            } else {
                expanded(out + data.subrange(1, 1 + cmd), data.skip(1 + cmd))
            }
        } else if data.len() < 3 {
            Err(Error::TruncatedBackref)
        } else {
            let offset = data[1] + 256 * data[2] + 1;
            if offset > out.len() {
                Err(Error::BackrefOutOfBounds)
            } else {
                expanded(copied(out, offset, (cmd - 0x81 + 4) as nat), data.skip(3))
            }
        }
    }
}

/// The bytes that the commands in `data` stand for where the window starts with `prefix`. Their
/// number must be `expected`.
pub open spec fn decompressed(prefix: Seq<u8>, data: Seq<u8>, expected: int) -> Result<
    Seq<u8>,
    Error,
> {
    match expanded(prefix, data) {
        Err(e) => Err(e),
        Ok(out) => if out.len() - prefix.len() != expected {
            Err(
                Error::SizeMismatch {
                    got: (out.len() - prefix.len()) as usize,
                    expected: expected as usize,
                },
            )
        } else {
            Ok(out.skip(prefix.len() as int))
        },
    }
}

/// Literal runs of at most 128 bytes.
pub open spec fn literal_runs(s: Seq<u8>) -> Seq<u8>
    decreases s.len(),
{
    if s.len() == 0 {
        Seq::empty()
    } else if s.len() <= 128 {
        seq![s.len() as u8] + s
    } else {
        seq![128u8] + s.take(128) + literal_runs(s.skip(128))
    }
}

/// The number of bytes that `n` literals take: one more for each run of 128, whole or begun.
pub open spec fn with_runs(n: int) -> int {
    n + (n + 127) / 128
}

/// The command that copies `len` bytes from `off` back.
pub open spec fn backref(off: int, len: int) -> Seq<u8> {
    seq![(0x81 + len - 4) as u8, ((off - 1) % 256) as u8, ((off - 1) / 256) as u8]
}

/// A match that may be put off: it starts `skip` bytes further on.
pub struct Choice {
    pub skip: int,
    pub off: int,
    pub len: int,
    pub tables: Tables,
}

/// Looks for a longer match one byte further on, and again from there, at most three times. The
/// positions that were looked at are entered in the tables.
pub open spec fn put_off(c: Seq<u8>, t: Tables, pos: int, skip: int, off: int, len: int) -> Choice
    decreases 3 - skip,
{
    if skip < 3 && len < MAX_MATCH && pos + skip + 1 + MIN_MATCH <= c.len() {
        let (next_off, next_len) = matcher::match_at(c, t, pos + skip + 1);
        let next = matcher::inserted(t, c, pos + skip + 1);
        if next_len > len {
            put_off(c, next, pos, skip + 1, next_off, next_len)
        } else {
            Choice { skip, off, len, tables: next }
        }
    } else {
        Choice { skip, off, len, tables: t }
    }
}

/// The commands for the bytes of `c` from `pos - lit` on, where the last `lit` bytes before `pos`
/// are literals that have not been written.
pub open spec fn commands(c: Seq<u8>, t: Tables, pos: int, lit: int) -> Seq<u8>
    decreases
            if pos < c.len() {
                c.len() - pos
            } else {
                0
            },
{
    if pos >= c.len() {
        literal_runs(c.subrange(pos - lit, pos))
    } else {
        let (off, len) = matcher::match_at(c, t, pos);
        let now = matcher::inserted(t, c, pos);
        if len < MIN_MATCH {
            commands(c, now, pos + 1, lit + 1)
        } else {
            proof {
                lemma_put_off_grows(c, now, pos, 0, off, len);
            }
            let choice = put_off(c, now, pos, 0, off, len);
            let start = pos + choice.skip;
            let end = start + choice.len;
            literal_runs(c.subrange(pos - lit, start)) + backref(choice.off, choice.len) + commands(
                c,
                matcher::inserted_range(choice.tables, c, start + 1, end),
                end,
                0,
            )
        }
    }
}

/// The tables with all positions of the first `k` bytes of `c`.
pub open spec fn primed(c: Seq<u8>, k: int) -> Tables {
    matcher::inserted_range(matcher::empty_tables(c.len() as int), c, 0, k)
}

/// The commands for `input` where the window starts with `prefix`.
pub open spec fn compressed(prefix: Seq<u8>, input: Seq<u8>) -> Seq<u8> {
    if input.len() < MIN_MATCH {
        literal_runs(input)
    } else {
        let c = prefix + input;
        commands(c, primed(c, prefix.len() as int), prefix.len() as int, 0)
    }
}

/// A match that is put off starts further on and is no shorter.
pub proof fn lemma_put_off_grows(c: Seq<u8>, t: Tables, pos: int, skip: int, off: int, len: int)
    ensures
        put_off(c, t, pos, skip, off, len).skip >= skip,
        put_off(c, t, pos, skip, off, len).len >= len,
    decreases 3 - skip,
{
    if skip < 3 && len < MAX_MATCH && pos + skip + 1 + MIN_MATCH <= c.len() {
        let (next_off, next_len) = matcher::match_at(c, t, pos + skip + 1);
        let next = matcher::inserted(t, c, pos + skip + 1);
        if next_len > len {
            lemma_put_off_grows(c, next, pos, skip + 1, next_off, next_len);
        }
    }
}

/// A match is one that can be written as a command at `pos`.
spec fn is_match(c: Seq<u8>, pos: int, off: int, len: int) -> bool {
    &&& MIN_MATCH <= len <= MAX_MATCH
    &&& pos + len <= c.len()
    &&& 1 <= off < WINDOW_SIZE
    &&& off <= pos
    &&& forall|j: int| 0 <= j < len ==> c[pos - off + j] == #[trigger] c[pos + j]
}

proof fn lemma_put_off(c: Seq<u8>, t: Tables, pos: int, skip: int, off: int, len: int)
    requires
        0 <= pos,
        0 <= skip <= 3,
        t.wf(c.len() as int, pos + skip + 1),
        is_match(c, pos + skip, off, len),
        len >= MIN_MATCH + skip,
    ensures
        ({
            let choice = put_off(c, t, pos, skip, off, len);
            &&& skip <= choice.skip <= 3
            &&& is_match(c, pos + choice.skip, choice.off, choice.len)
            &&& choice.tables.wf(c.len() as int, pos + choice.skip + choice.len)
        }),
    decreases 3 - skip,
{
    if skip < 3 && len < MAX_MATCH && pos + skip + 1 + MIN_MATCH <= c.len() {
        let p = pos + skip + 1;
        let (next_off, next_len) = matcher::match_at(c, t, p);
        let next = matcher::inserted(t, c, p);
        matcher::lemma_match_at(c, t, p);
        matcher::lemma_inserted_wf(t, c, p, p, p + 1);
        if next_len > len {
            lemma_put_off(c, next, pos, skip + 1, next_off, next_len);
        }
    }
}

/// Appends literal runs.
pub fn flush_literals(output: &mut Vec<u8>, data: &[u8], start: usize, len: usize)
    requires
        start + len <= data@.len(),
    ensures
        final(output)@ == old(output)@ + literal_runs(data@.subrange(start as int, start + len)),
{
    assert(data.len() == data@.len());
    let ghost s = data@.subrange(start as int, start + len);
    let ghost all = output@ + literal_runs(s);
    let mut remaining: usize = len;
    let mut offset: usize = start;
    while remaining > 0
        invariant
            offset + remaining == start + len,
            start + len <= data@.len() <= usize::MAX,
            output@ + literal_runs(data@.subrange(offset as int, offset + remaining)) == all,
        decreases remaining,
    {
        let chunk: usize = if remaining < 128 {
            remaining
        } else {
            128
        };
        let ghost before = output@;
        let ghost rest = data@.subrange(offset as int, offset + remaining);
        output.push(chunk as u8);
        let run: &[u8] = slice_subrange(data, offset, offset + chunk);
        bytes::append(output, run);
        offset = offset + chunk;
        remaining = remaining - chunk;
        proof {
            let left = data@.subrange(offset as int, offset + remaining);
            if rest.len() <= 128 {
                assert(run@ =~= rest);
                assert(left =~= Seq::<u8>::empty());
            } else {
                assert(run@ =~= rest.take(128));
                assert(left =~= rest.skip(128));
            }
            assert(output@ + literal_runs(left) =~= before + literal_runs(rest));
        }
    }
    proof {
        assert(data@.subrange(offset as int, offset + remaining) =~= Seq::<u8>::empty());
        assert(output@ =~= all);
    }
}

/// The LZSS commands for `input`; matches may reach back into `prefix`.
#[verifier::rlimit(40)]
pub fn lzss_compress(prefix: &[u8], input: &[u8]) -> (output: Vec<u8>)
    requires
        input@.len() >= MIN_MATCH ==> prefix@.len() + input@.len() <= usize::MAX,
    ensures
        output@ == compressed(prefix@, input@),
{
    let mut output: Vec<u8> = Vec::new();
    let n: usize = input.len();
    if n < MIN_MATCH {
        flush_literals(&mut output, input, 0, n);
        assert(input@.subrange(0, n as int) =~= input@);
        assert(output@ =~= literal_runs(input@));
        return output;
    }
    let prefix_len: usize = prefix.len();
    let len: usize = prefix_len + n;
    let mut combined: Vec<u8> = Vec::with_capacity(len);
    bytes::append(&mut combined, prefix);
    bytes::append(&mut combined, input);
    let c: &[u8] = combined.as_slice();
    assert(c@ =~= prefix@ + input@);
    let mut tables = MatchTables::new(len);
    tables.insert_range(c, 0, prefix_len);
    proof {
        matcher::lemma_inserted_range_wf(
            matcher::empty_tables(len as int),
            c@,
            0,
            prefix_len as int,
            0,
            prefix_len as int,
        );
    }
    let mut pos: usize = prefix_len;
    let mut lit_len: usize = 0;
    let ghost all = compressed(prefix@, input@);
    assert(output@ + all =~= all);
    while pos < len
        invariant
            len == c@.len(),
            pos <= len,
            lit_len <= pos,
            tables@.wf(len as int, pos as int),
            output@ + commands(c@, tables@, pos as int, lit_len as int) == all,
        decreases len - pos,
    {
        let ghost t = tables@;
        let ghost before = output@;
        proof {
            matcher::lemma_match_at(c@, t, pos as int);
        }
        let (off, ml): (usize, usize) = matcher::find_best_match_at(c, pos, &mut tables);
        if ml < MIN_MATCH {
            pos = pos + 1;
            lit_len = lit_len + 1;
        } else {
            let ghost choice = put_off(c@, tables@, pos as int, 0, off as int, ml as int);
            proof {
                lemma_put_off(c@, tables@, pos as int, 0, off as int, ml as int);
            }
            let mut skip: usize = 0;
            let mut use_off: usize = off;
            let mut use_len: usize = ml;
            let mut done: bool = false;
            while !done && skip < 3 && use_len < MAX_MATCH && len - pos >= skip + 1 + MIN_MATCH
                invariant
                    len == c@.len(),
                    pos < len,
                    skip <= 3,
                    done ==> choice == (Choice {
                        skip: skip as int,
                        off: use_off as int,
                        len: use_len as int,
                        tables: tables@,
                    }),
                    !done ==> {
                        &&& choice == put_off(
                            c@,
                            tables@,
                            pos as int,
                            skip as int,
                            use_off as int,
                            use_len as int,
                        )
                        &&& tables@.wf(len as int, pos + skip + 1)
                    },
                    tables@.head.len() == matcher::HASH_SIZE,
                    tables@.chain.len() == len,
                decreases
                    3 - skip,
                    if done {
                        0int
                    } else {
                        1int
                    },
            {
                let (next_off, next_len): (usize, usize) = matcher::find_best_match_at(
                    c,
                    pos + skip + 1,
                    &mut tables,
                );
                if next_len > use_len {
                    use_off = next_off;
                    use_len = next_len;
                    skip = skip + 1;
                } else {
                    done = true;
                }
            }
            assert(choice == (Choice {
                skip: skip as int,
                off: use_off as int,
                len: use_len as int,
                tables: tables@,
            }));
            flush_literals(&mut output, c, pos - lit_len, lit_len + skip);
            let ghost flushed = output@;
            let start: usize = pos + skip;
            let back: usize = use_off - 1;
            output.push((0x81 + (use_len - MIN_MATCH)) as u8);
            output.push((back % 256) as u8);
            output.push((back / 256) as u8);
            proof {
                assert(output@ =~= flushed + backref(use_off as int, use_len as int));
            }
            tables.insert_range(c, start + 1, start + use_len);
            proof {
                matcher::lemma_inserted_range_wf(
                    choice.tables,
                    c@,
                    start + 1,
                    start + use_len,
                    start + use_len,
                    start + use_len,
                );
                let rest = commands(c@, tables@, start + use_len, 0);
                assert(output@ + rest =~= before + (literal_runs(
                    c@.subrange(pos - lit_len, start as int),
                ) + backref(use_off as int, use_len as int) + rest));
            }
            pos = start + use_len;
            lit_len = 0;
        }
    }
    flush_literals(&mut output, c, pos - lit_len, lit_len);
    output
}

/// The bytes that LZSS commands stand for; references may reach back into `prefix`.
pub fn lzss_decompress(prefix: &[u8], data: &[u8], expected_size: usize) -> (out: Result<
    Vec<u8>,
    Error,
>)
    ensures
        error::is_outcome(out, decompressed(prefix@, data@, expected_size as int)),
{
    let prefix_len: usize = prefix.len();
    let mut output: Vec<u8> = Vec::new();
    bytes::append(&mut output, prefix);
    assert(output@ =~= prefix@);
    let mut pos: usize = 0;
    assert(data@.skip(0) =~= data@);
    while pos < data.len()
        invariant
            pos <= data@.len(),
            prefix_len == prefix@.len(),
            output@.len() >= prefix_len,
            expanded(prefix@, data@) == expanded(output@, data@.skip(pos as int)),
        decreases data@.len() - pos,
    {
        let ghost rest = data@.skip(pos as int);
        let cmd: u8 = data[pos];
        assert(rest[0] == cmd);
        let left: usize = data.len() - pos;
        if cmd <= 0x80 {
            let count: usize = cmd as usize;
            if count == 0 {
                return Err(Error::ZeroLiteralCount);
            }
            if count > left - 1 {
                return Err(Error::TruncatedLiteralRun);
            }
            let run: &[u8] = slice_subrange(data, pos + 1, pos + 1 + count);
            bytes::append(&mut output, run);
            proof {
                assert(run@ =~= rest.subrange(1, 1 + cmd));
                assert(data@.skip(pos + 1 + count) =~= rest.skip(1 + cmd));
            }
            pos = pos + 1 + count;
        } else {
            if left < 3 {
                return Err(Error::TruncatedBackref);
            }
            let length: usize = (cmd - 0x81) as usize + MIN_MATCH;
            let offset: usize = data[pos + 1] as usize + 256 * data[pos + 2] as usize + 1;
            proof {
                assert(rest[1] == data@[pos + 1]);
                assert(rest[2] == data@[pos + 2]);
                assert(data@.skip(pos + 3) =~= rest.skip(3));
            }
            if offset > output.len() {
                return Err(Error::BackrefOutOfBounds);
            }
            let ghost before = output@;
            let mut i: usize = 0;
            while i < length
                invariant
                    i <= length,
                    1 <= offset <= before.len(),
                    output@ == copied(before, offset as int, i as nat),
                    output@.len() == before.len() + i,
                decreases length - i,
            {
                let byte: u8 = output[output.len() - offset];
                output.push(byte);
                i = i + 1;
            }
            pos = pos + 3;
        }
    }
    assert(data@.skip(pos as int) =~= Seq::<u8>::empty());
    let new_len: usize = output.len() - prefix_len;
    if new_len != expected_size {
        return Err(Error::SizeMismatch { got: new_len, expected: expected_size });
    }
    let tail: &[u8] = slice_subrange(output.as_slice(), prefix_len, output.len());
    assert(tail@ =~= output@.skip(prefix_len as int));
    Ok(slice_to_vec(tail))
}

/// Commands that are carried out one after the other.
proof fn lemma_expanded_concat(out: Seq<u8>, a: Seq<u8>, b: Seq<u8>)
    ensures
        expanded(out, a) matches Ok(o) ==> expanded(out, a + b) == expanded(o, b),
    decreases a.len(),
{
    if a.len() == 0 {
        assert(a + b =~= b);
    } else {
        let cmd = a[0];
        let all = a + b;
        assert(all[0] == cmd);
        if 0 < cmd <= 0x80 {
            if 1 + cmd <= a.len() {
                assert(all.subrange(1, 1 + cmd) =~= a.subrange(1, 1 + cmd));
                assert(all.skip(1 + cmd) =~= a.skip(1 + cmd) + b);
                lemma_expanded_concat(out + a.subrange(1, 1 + cmd), a.skip(1 + cmd), b);
            }
        } else if cmd > 0x80 && a.len() >= 3 {
            let offset = a[1] + 256 * a[2] + 1;
            assert(all.skip(3) =~= a.skip(3) + b);
            lemma_expanded_concat(copied(out, offset, (cmd - 0x81 + 4) as nat), a.skip(3), b);
        }
    }
}

/// Literal runs stand for the literals in them.
proof fn lemma_literal_runs(out: Seq<u8>, s: Seq<u8>)
    ensures
        expanded(out, literal_runs(s)) == Ok::<Seq<u8>, Error>(out + s),
        literal_runs(s).len() == with_runs(s.len() as int),
    decreases s.len(),
{
    if s.len() == 0 {
        assert(out + s =~= out);
    } else if s.len() <= 128 {
        let run = literal_runs(s);
        let n = s.len() as int;
        assert(run.subrange(1, 1 + n) =~= s);
        assert(run.skip(1 + n) =~= Seq::<u8>::empty());
        reveal_with_fuel(expanded, 2);
    } else {
        let run = literal_runs(s);
        let rest = literal_runs(s.skip(128));
        assert(run.subrange(1, 129) =~= s.take(128));
        assert(run.skip(129) =~= rest);
        lemma_literal_runs(out + s.take(128), s.skip(128));
        assert(out + s.take(128) + s.skip(128) =~= out + s);
    }
}

/// Copying a match gives the bytes that it matches.
proof fn lemma_copied_match(c: Seq<u8>, pos: int, off: int, len: nat)
    requires
        0 <= pos,
        pos + len <= c.len(),
        1 <= off <= pos,
        forall|j: int| 0 <= j < len ==> c[pos - off + j] == #[trigger] c[pos + j],
    ensures
        copied(c.take(pos), off, len) == c.take(pos + len),
    decreases len,
{
    if len > 0 {
        lemma_copied_match(c, pos, off, (len - 1) as nat);
        assert(c[pos - off + (len - 1)] == c[pos + (len - 1)]);
        assert(copied(c.take(pos), off, len) =~= c.take(pos + len));
    }
}

/// The command for a match stands for the bytes that it matches.
proof fn lemma_backref(c: Seq<u8>, pos: int, off: int, len: int)
    requires
        0 <= pos,
        is_match(c, pos, off, len),
    ensures
        expanded(c.take(pos), backref(off, len)) == Ok::<Seq<u8>, Error>(c.take(pos + len)),
{
    let data = backref(off, len);
    assert(data[1] + 256 * data[2] + 1 == off);
    assert(data[0] - 0x81 + 4 == len);
    lemma_copied_match(c, pos, off, len as nat);
    assert(data.skip(3) =~= Seq::<u8>::empty());
    reveal_with_fuel(expanded, 2);
}

/// The commands for a byte string stand for that string.
#[verifier::rlimit(40)]
proof fn lemma_commands(c: Seq<u8>, t: Tables, pos: int, lit: int)
    requires
        0 <= lit <= pos <= c.len(),
        t.wf(c.len() as int, pos),
    ensures
        expanded(c.take(pos - lit), commands(c, t, pos, lit)) == Ok::<Seq<u8>, Error>(c),
        commands(c, t, pos, lit).len() <= with_runs(c.len() - pos + lit),
    decreases c.len() - pos,
{
    let done = c.take(pos - lit);
    if pos >= c.len() {
        lemma_literal_runs(done, c.subrange(pos - lit, pos));
        assert(done + c.subrange(pos - lit, pos) =~= c);
    } else {
        let (off, len) = matcher::match_at(c, t, pos);
        let now = matcher::inserted(t, c, pos);
        matcher::lemma_match_at(c, t, pos);
        matcher::lemma_inserted_wf(t, c, pos, pos, pos + 1);
        if len < MIN_MATCH {
            lemma_commands(c, now, pos + 1, lit + 1);
        } else {
            let choice = put_off(c, now, pos, 0, off, len);
            lemma_put_off(c, now, pos, 0, off, len);
            let start = pos + choice.skip;
            let end = start + choice.len;
            let tables = matcher::inserted_range(choice.tables, c, start + 1, end);
            matcher::lemma_inserted_range_wf(choice.tables, c, start + 1, end, end, end);
            lemma_commands(c, tables, end, 0);
            let literals = literal_runs(c.subrange(pos - lit, start));
            let reference = backref(choice.off, choice.len);
            let rest = commands(c, tables, end, 0);
            lemma_literal_runs(done, c.subrange(pos - lit, start));
            assert(done + c.subrange(pos - lit, start) =~= c.take(start));
            lemma_backref(c, start, choice.off, choice.len);
            lemma_expanded_concat(done, literals, reference);
            lemma_expanded_concat(done, literals + reference, rest);
        }
    }
}

/// What the commands for a byte string stand for, and how many bytes they take at most.
pub proof fn lemma_compressed(prefix: Seq<u8>, input: Seq<u8>)
    ensures
        expanded(prefix, compressed(prefix, input)) == Ok::<Seq<u8>, Error>(prefix + input),
        compressed(prefix, input).len() <= with_runs(input.len() as int),
{
    let c = prefix + input;
    if input.len() < MIN_MATCH {
        lemma_literal_runs(prefix, input);
    } else {
        let k = prefix.len() as int;
        matcher::lemma_inserted_range_wf(
            matcher::empty_tables(c.len() as int),
            c,
            0,
            k,
            0,
            k,
        );
        lemma_commands(c, primed(c, k), k, 0);
        assert(c.take(k) =~= prefix);
    }
}

/// LZSS loses nothing: the commands for a byte string stand for that string, where both sides
/// start with the same window.
pub proof fn lemma_lzss_round_trip(prefix: Seq<u8>, input: Seq<u8>)
    ensures
        decompressed(prefix, compressed(prefix, input), input.len() as int) == Ok::<
            Seq<u8>,
            Error,
        >(input),
{
    lemma_compressed(prefix, input);
    assert((prefix + input).skip(prefix.len() as int) =~= input);
}

} // verus!
