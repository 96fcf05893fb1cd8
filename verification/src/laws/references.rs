//! Which repeats LZSS commands refer to.

use crate::laws::repeats;
use crate::lzss;
use crate::matcher;
use crate::matcher::Tables;
use vstd::prelude::*;

verus! {

/// For each byte that commands stand for, whether it is a literal.
pub open spec fn literal_flags(data: Seq<u8>) -> Seq<bool>
    decreases data.len(),
{
    if data.len() == 0 || (data[0] <= 128 && data.len() <= data[0]) || (data[0] > 128 && data.len()
        < 3) {
        Seq::empty()
    } else if data[0] <= 128 {
        Seq::new(data[0] as nat, |i: int| true) + literal_flags(data.skip(1 + data[0]))
    } else {
        Seq::new((data[0] - 129 + 4) as nat, |i: int| false) + literal_flags(data.skip(3))
    }
}

/// A reference to earlier bytes: `len` bytes from `at` on are those `off` bytes before.
pub struct Reference {
    pub at: int,
    pub off: int,
    pub len: int,
}

/// The references in commands whose bytes stand from `at` on.
pub open spec fn references(data: Seq<u8>, at: int) -> Seq<Reference>
    decreases data.len(),
{
    if data.len() == 0 || (data[0] <= 128 && data.len() <= data[0]) || (data[0] > 128 && data.len()
        < 3) {
        Seq::empty()
    } else if data[0] <= 128 {
        references(data.skip(1 + data[0]), at + data[0])
    } else {
        let len = data[0] - 129 + 4;
        seq![Reference { at, off: data[1] + 256 * data[2] + 1, len }] + references(
            data.skip(3),
            at + len,
        )
    }
}

/// The way back from `p` along positions whose four bytes have the same hash, from the last one on:
/// at most 64 positions, the last of them less than 65536 back. It goes through no position in
/// `ends`, but may end there.
pub open spec fn way_back(c: Seq<u8>, ends: Set<int>, p: int, w: Seq<int>) -> bool {
    let h = matcher::hash_at(c, p);
    &&& 1 <= w.len() <= 64
    &&& w[0] == repeats::latest(c, h, p)
    &&& forall|i: int| 0 <= i < w.len() ==> 0 <= #[trigger] w[i]
    &&& forall|i: int|
        0 <= i < w.len() - 1 ==> w[i + 1] == repeats::latest(c, h, #[trigger] w[i])
            && !ends.contains(w[i])
    &&& p - w[w.len() - 1] < 65536
}

/// The `len` bytes from `p` on are no repeat of those at any position on the way back.
pub open spec fn no_repeat(c: Seq<u8>, ends: Set<int>, p: int, len: int) -> bool {
    forall|w: Seq<int>|
        #[trigger] way_back(c, ends, p, w) ==> !repeats::same(c, w[w.len() - 1], p, len)
}

/// Three literals stand before index `i`.
pub open spec fn three_before(flags: Seq<bool>, i: int) -> bool {
    i >= 3 && flags[i - 1] && flags[i - 2] && flags[i - 3]
}

/// A reference repeats its bytes, and goes on as far as they do.
pub open spec fn is_repeat(c: Seq<u8>, ends: Set<int>, x: Reference) -> bool {
    &&& 4 <= x.len <= 130
    &&& 1 <= x.off <= x.at
    &&& x.off < 65536
    &&& x.at + x.len <= c.len()
    &&& repeats::same(c, x.at - x.off, x.at, x.len)
    &&& x.len == 130 || x.at + x.len == c.len() || c[x.at - x.off + x.len] != c[x.at + x.len]
    &&& x.len < 130 && x.at + x.len < c.len() ==> no_repeat(c, ends, x.at, x.len + 1)
}

/// A reference is where it should be: no longer one starts a byte further on, unless three
/// literals were already written to wait for it, and a literal before it starts no repeat as long.
pub open spec fn is_in_place(c: Seq<u8>, ends: Set<int>, base: int, flags: Seq<bool>, x: Reference) -> bool {
    &&& base <= x.at
    &&& x.at - base + x.len <= flags.len()
    &&& x.len < 130 && x.at + x.len + 2 <= c.len() && !three_before(flags, x.at - base)
        ==> no_repeat(c, ends, x.at + 1, x.len + 1)
    &&& x.at > base && flags[x.at - base - 1] ==> no_repeat(c, ends, x.at - 1, x.len)
}

/// Commands refer to what repeats: four literals in a row start no repeat, and each reference is as
/// it should be.
pub open spec fn well_chosen(
    c: Seq<u8>,
    ends: Set<int>,
    base: int,
    flags: Seq<bool>,
    refs: Seq<Reference>,
) -> bool {
    &&& forall|i: int|
        0 <= i && i + 4 <= flags.len() && #[trigger] flags[i] && flags[i + 1] && flags[i + 2]
            && flags[i + 3] ==> no_repeat(c, ends, base + i, 4)
    &&& forall|k: int| 0 <= k < refs.len() ==> is_repeat(c, ends, #[trigger] refs[k])
    &&& forall|k: int| 0 <= k < refs.len() ==> is_in_place(c, ends, base, flags, #[trigger] refs[k])
}

/// Literal runs are literals.
proof fn lemma_flags_of_runs(s: Seq<u8>, rest: Seq<u8>, at: int)
    ensures
        literal_flags(lzss::literal_runs(s) + rest) == Seq::new(s.len(), |i: int| true)
            + literal_flags(rest),
        references(lzss::literal_runs(s) + rest, at) == references(rest, at + s.len()),
    decreases s.len(),
{
    let data = lzss::literal_runs(s) + rest;
    let flags = Seq::new(s.len(), |i: int| true) + literal_flags(rest);
    if s.len() == 0 {
        assert(data =~= rest);
        assert(flags =~= literal_flags(rest));
    } else if s.len() <= 128 {
        assert(data[0] == s.len());
        assert(data.skip(1 + data[0]) =~= rest);
        assert(literal_flags(data) =~= flags);
    } else {
        let more = lzss::literal_runs(s.skip(128)) + rest;
        assert(data[0] == 128);
        assert(data.skip(129) =~= more);
        lemma_flags_of_runs(s.skip(128), rest, at + 128);
        assert(literal_flags(data) =~= flags);
    }
}

/// A reference is none.
proof fn lemma_flags_of_reference(off: int, len: int, rest: Seq<u8>, at: int)
    requires
        4 <= len <= 130,
        1 <= off < 65536,
    ensures
        literal_flags(lzss::backref(off, len) + rest) == Seq::new(len as nat, |i: int| false)
            + literal_flags(rest),
        references(lzss::backref(off, len) + rest, at) == seq![Reference { at, off, len }]
            + references(rest, at + len),
{
    let data = lzss::backref(off, len) + rest;
    assert(data[0] == 129 + len - 4);
    assert(data[1] + 256 * data[2] + 1 == off);
    assert(data.skip(3) =~= rest);
}

/// How many positions before `pos` have four bytes.
spec fn entered(c: Seq<u8>, pos: int) -> int {
    if pos + 3 <= c.len() {
        pos
    } else if c.len() >= 3 {
        c.len() - 3
    } else {
        0
    }
}

/// Each hash leads to the last position before `pos` that has it, and each position to the last one
/// before it, unless the position is in `ends`.
spec fn current(c: Seq<u8>, ends: Set<int>, t: Tables, pos: int) -> bool {
    &&& forall|h: int|
        0 <= h < 65536 ==> #[trigger] t.head[h] == repeats::as_entry(
            repeats::latest(c, h, entered(c, pos)),
        )
    &&& forall|x: int|
        0 <= x < entered(c, pos) && !ends.contains(x) ==> #[trigger] t.chain[x] == repeats::as_entry(
            repeats::latest(c, matcher::hash_at(c, x), x),
        )
}

proof fn lemma_insert_current(c: Seq<u8>, ends: Set<int>, t: Tables, p: int, end: int)
    requires
        c.len() <= 0xffff_ffff,
        t.head.len() == matcher::HASH_SIZE,
        t.chain.len() == c.len(),
        0 <= p,
        end == p || (end == p + 1 && ends.contains(p)),
        current(c, ends, t, end),
    ensures
        current(c, ends, matcher::inserted(t, c, p), p + 1),
        matcher::inserted(t, c, p).head.len() == matcher::HASH_SIZE,
        matcher::inserted(t, c, p).chain.len() == c.len(),
{
    let u = matcher::inserted(t, c, p);
    if p + 4 <= c.len() {
        matcher::lemma_hash_bound(c, p);
        let g = matcher::hash_at(c, p);
        assert(entered(c, p + 1) == p + 1);
        assert(entered(c, p) == p);
        assert forall|h: int| 0 <= h < 65536 implies #[trigger] u.head[h] == repeats::as_entry(
            repeats::latest(c, h, p + 1),
        ) by {
            assert(t.head[h] == repeats::as_entry(repeats::latest(c, h, entered(c, end))));
        }
        assert forall|x: int| 0 <= x < p + 1 && !ends.contains(x) implies #[trigger] u.chain[x]
            == repeats::as_entry(repeats::latest(c, matcher::hash_at(c, x), x)) by {
            if x == p {
                assert(t.head[g] == repeats::as_entry(repeats::latest(c, g, p)));
            } else {
                assert(u.chain[x] == t.chain[x]);
            }
        }
    } else {
        assert(entered(c, p + 1) == entered(c, p));
        assert(entered(c, end) == entered(c, p));
    }
}

proof fn lemma_range_current(
    c: Seq<u8>,
    ends: Set<int>,
    t: Tables,
    from: int,
    to: int,
    end: int,
)
    requires
        c.len() <= 0xffff_ffff,
        t.head.len() == matcher::HASH_SIZE,
        t.chain.len() == c.len(),
        0 <= from,
        end == from || (end == from + 1 && ends.contains(from)),
        end <= to,
        current(c, ends, t, end),
    ensures
        current(c, ends, matcher::inserted_range(t, c, from, to), to),
        matcher::inserted_range(t, c, from, to).head.len() == matcher::HASH_SIZE,
        matcher::inserted_range(t, c, from, to).chain.len() == c.len(),
    decreases to - from,
{
    reveal_with_fuel(matcher::inserted_range, 2);
    if from < to {
        let before = matcher::inserted_range(t, c, from, to - 1);
        if to - 1 > from || end == from {
            lemma_range_current(c, ends, t, from, to - 1, if to - 1 > from {
                end
            } else {
                from
            });
            lemma_insert_current(c, ends, before, to - 1, to - 1);
        } else {
            lemma_insert_current(c, ends, before, to - 1, to);
        }
    }
}

/// A way back goes back.
proof fn lemma_way_goes_back(c: Seq<u8>, ends: Set<int>, p: int, w: Seq<int>, i: int)
    requires
        0 <= p,
        way_back(c, ends, p, w),
        0 <= i < w.len(),
    ensures
        w[w.len() - 1] <= w[i] < p,
        matcher::hash_at(c, w[i]) == matcher::hash_at(c, p),
    decreases i,
{
    let h = matcher::hash_at(c, p);
    if i == 0 {
        repeats::lemma_latest(c, h, p);
    } else {
        lemma_way_goes_back(c, ends, p, w, i - 1);
        repeats::lemma_latest(c, h, w[i - 1]);
        assert(w[(i - 1) + 1] == repeats::latest(c, h, w[i - 1]));
    }
    lemma_way_ends_last(c, ends, p, w, i);
}

proof fn lemma_way_ends_last(c: Seq<u8>, ends: Set<int>, p: int, w: Seq<int>, i: int)
    requires
        way_back(c, ends, p, w),
        0 <= i < w.len(),
    ensures
        w[w.len() - 1] <= w[i],
    decreases w.len() - i,
{
    if i < w.len() - 1 {
        lemma_way_ends_last(c, ends, p, w, i + 1);
        repeats::lemma_latest(c, matcher::hash_at(c, p), w[i]);
        assert(0 <= w[i]);
    }
}

/// A repeat on the way back is found.
proof fn lemma_repeat_found(
    c: Seq<u8>,
    ends: Set<int>,
    t: Tables,
    pos: int,
    w: Seq<int>,
    len: int,
)
    requires
        c.len() <= 0xffff_ffff,
        0 <= pos,
        t.wf(c.len() as int, pos),
        current(c, ends, t, pos),
        way_back(c, ends, pos, w),
        4 <= len <= 130,
        pos + len <= c.len(),
        repeats::same(c, w[w.len() - 1], pos, len),
    ensures
        matcher::match_at(c, t, pos).1 >= len,
{
    let h = matcher::hash_at(c, pos);
    matcher::lemma_hash_bound(c, pos);
    assert forall|i: int| 0 <= i < w.len() implies pos - 65536 < #[trigger] w[i] < pos by {
        lemma_way_goes_back(c, ends, pos, w, i);
    }
    assert(t.head[h] == repeats::as_entry(repeats::latest(c, h, pos)));
    assert(0 <= w[0]);
    assert forall|i: int| 0 <= i < w.len() - 1 implies t.chain[#[trigger] w[i]] == w[i + 1] by {
        lemma_way_goes_back(c, ends, pos, w, i);
        assert(0 <= w[i + 1]);
        assert(t.chain[w[i]] == repeats::as_entry(repeats::latest(c, h, w[i])));
    }
    assert(repeats::is_walk(t, h, pos, w));
    repeats::law_match(c, t, pos, w, w.len() - 1, len);
}

/// What a search leaves out is no repeat.
proof fn lemma_no_repeat(c: Seq<u8>, ends: Set<int>, t: Tables, pos: int, len: int)
    requires
        c.len() <= 0xffff_ffff,
        0 <= pos,
        t.wf(c.len() as int, pos),
        current(c, ends, t, pos),
        4 <= len <= 130,
        pos + len <= c.len(),
        matcher::match_at(c, t, pos).1 < len,
    ensures
        no_repeat(c, ends, pos, len),
{
    assert forall|w: Seq<int>| #[trigger] way_back(c, ends, pos, w) implies !repeats::same(
        c,
        w[w.len() - 1],
        pos,
        len,
    ) by {
        if repeats::same(c, w[w.len() - 1], pos, len) {
            lemma_repeat_found(c, ends, t, pos, w, len);
        }
    }
}

/// Where shorter runs are no repeats, longer ones are none.
proof fn lemma_no_longer_repeat(c: Seq<u8>, ends: Set<int>, p: int, short: int, long: int)
    requires
        no_repeat(c, ends, p, short),
        short <= long,
    ensures
        no_repeat(c, ends, p, long),
{
    assert forall|w: Seq<int>| #[trigger] way_back(c, ends, p, w) implies !repeats::same(
        c,
        w[w.len() - 1],
        p,
        long,
    ) by {
        if repeats::same(c, w[w.len() - 1], p, long) {
            assert(repeats::same(c, w[w.len() - 1], p, short));
        }
    }
}

/// A match that is found is a repeat.
proof fn lemma_found_is_repeat(c: Seq<u8>, ends: Set<int>, t: Tables, pos: int)
    requires
        c.len() <= 0xffff_ffff,
        0 <= pos <= c.len(),
        t.wf(c.len() as int, pos),
        current(c, ends, t, pos),
        matcher::match_at(c, t, pos).1 >= 4,
    ensures
        ({
            let (off, len) = matcher::match_at(c, t, pos);
            is_repeat(c, ends, Reference { at: pos, off, len })
        }),
{
    let (off, len) = matcher::match_at(c, t, pos);
    repeats::law_match_goes_on(c, t, pos);
    if len < 130 && pos + len < c.len() {
        lemma_no_repeat(c, ends, t, pos, len + 1);
    }
}

/// The tables hold all positions before `start + 1`, or one more.
spec fn up_to_date(c: Seq<u8>, ends: Set<int>, t: Tables, start: int) -> bool {
    ||| t.wf(c.len() as int, start + 1) && current(c, ends, t, start + 1)
    ||| t.wf(c.len() as int, start + 2) && current(c, ends, t, start + 2)
}

/// What a match is put off for.
proof fn lemma_put_off(c: Seq<u8>, ends: Set<int>, t: Tables, pos: int, skip: int, off: int, len: int)
    requires
        c.len() <= 0xffff_ffff,
        0 <= pos,
        0 <= skip <= 3,
        t.wf(c.len() as int, pos + skip + 1),
        current(c, ends, t, pos + skip + 1),
        is_repeat(c, ends, Reference { at: pos + skip, off, len }),
    ensures
        ({
            let choice = lzss::put_off(c, t, pos, skip, off, len);
            let start = pos + choice.skip;
            &&& skip <= choice.skip <= 3
            &&& is_repeat(c, ends, Reference { at: start, off: choice.off, len: choice.len })
            &&& choice.skip == skip ==> choice.off == off && choice.len == len
            &&& choice.skip > skip ==> no_repeat(c, ends, start - 1, choice.len)
            &&& choice.skip < 3 && choice.len < 130 && start + choice.len + 2 <= c.len()
                ==> no_repeat(c, ends, start + 1, choice.len + 1)
            &&& up_to_date(c, ends, choice.tables, start)
        }),
    decreases 3 - skip,
{
    if skip < 3 && len < matcher::MAX_MATCH && pos + skip + 1 + matcher::MIN_MATCH <= c.len() {
        let p = pos + skip + 1;
        let (next_off, next_len) = matcher::match_at(c, t, p);
        let next = matcher::inserted(t, c, p);
        matcher::lemma_match_at(c, t, p);
        matcher::lemma_inserted_wf(t, c, p, p, p + 1);
        lemma_insert_current(c, ends, t, p, p);
        if next_len > len {
            lemma_found_is_repeat(c, ends, t, p);
            lemma_put_off(c, ends, next, pos, skip + 1, next_off, next_len);
            lemma_no_longer_repeat(c, ends, p - 1, len + 1, next_len);
        } else if p + len + 1 <= c.len() {
            lemma_no_repeat(c, ends, t, p, len + 1);
        }
    }
}

/// Literals, then a reference, then what comes after it.
proof fn lemma_well_chosen_parts(
    c: Seq<u8>,
    ends: Set<int>,
    base: int,
    pos: int,
    x: Reference,
    flags: Seq<bool>,
    refs: Seq<Reference>,
)
    requires
        0 <= base <= pos <= x.at <= pos + 3,
        is_repeat(c, ends, x),
        forall|p: int| base <= p < pos && p + 4 <= c.len() ==> #[trigger] no_repeat(c, ends, p, 4),
        x.at > pos ==> no_repeat(c, ends, x.at - 1, x.len),
        x.at < pos + 3 && x.len < 130 && x.at + x.len + 2 <= c.len() ==> no_repeat(
            c,
            ends,
            x.at + 1,
            x.len + 1,
        ),
        well_chosen(c, ends, x.at + x.len, flags, refs),
        flags.len() == c.len() - x.at - x.len,
        forall|k: int| 0 <= k < refs.len() ==> x.at + x.len <= (#[trigger] refs[k]).at,
    ensures
        ({
            let all = Seq::new((x.at - base) as nat, |i: int| true) + (Seq::new(
                x.len as nat,
                |i: int| false,
            ) + flags);
            well_chosen(c, ends, base, all, seq![x] + refs)
        }),
{
    let k = x.at - base;
    let all = Seq::new(k as nat, |i: int| true) + (Seq::new(x.len as nat, |i: int| false) + flags);
    let list = seq![x] + refs;
    let end = k + x.len;
    assert forall|i: int| 0 <= i < all.len() implies #[trigger] all[i] == (if i < k {
        true
    } else if i < end {
        false
    } else {
        flags[i - end]
    }) by {}
    assert forall|i: int|
        0 <= i && i + 4 <= all.len() && #[trigger] all[i] && all[i + 1] && all[i + 2] && all[i
            + 3] implies no_repeat(c, ends, base + i, 4) by {
        if i < k {
            if i + 3 >= k {
                if i + 1 >= k {
                    assert(!all[i + 1]);
                } else if i + 2 >= k {
                    assert(!all[i + 2]);
                } else {
                    assert(!all[i + 3]);
                }
            }
            assert(base + i < pos);
        } else {
            assert(i >= end);
            assert(flags[i - end] && flags[i - end + 1] && flags[i - end + 2] && flags[i - end + 3]);
            assert(base + i == x.at + x.len + (i - end));
        }
    }
    assert forall|m: int| 0 <= m < list.len() implies is_repeat(c, ends, #[trigger] list[m]) by {
        if m > 0 {
            assert(list[m] == refs[m - 1]);
        }
    }
    assert forall|m: int| 0 <= m < list.len() implies is_in_place(
        c,
        ends,
        base,
        all,
        #[trigger] list[m],
    ) by {
        if m > 0 {
            let y = refs[m - 1];
            assert(list[m] == y);
            assert(is_in_place(c, ends, x.at + x.len, flags, y));
            let i = y.at - base;
            let l = y.at - x.at - x.len;
            assert(i == end + l);
            if l == 0 {
                assert(!all[i - 1]);
            } else {
                assert(all[i - 1] == flags[l - 1]);
            }
            if l < 3 && three_before(all, i) {
                if l == 1 {
                    assert(!all[i - 2]);
                } else if l == 2 {
                    assert(!all[i - 3]);
                }
            }
            if l >= 3 {
                assert(all[i - 2] == flags[l - 2] && all[i - 3] == flags[l - 3]);
            }
        } else {
            if x.at == pos + 3 {
                assert(all[k - 1] && all[k - 2] && all[k - 3]);
            }
            if x.at > base && x.at == pos {
                assert(no_repeat(c, ends, pos - 1, 4));
                lemma_no_longer_repeat(c, ends, pos - 1, 4, x.len);
            }
        }
    }
}

/// Commands are well chosen from any position on, where the literals before it start no repeat.
proof fn lemma_commands_well_chosen(c: Seq<u8>, ends: Set<int>, t: Tables, pos: int, lit: int)
    requires
        c.len() <= 0xffff_ffff,
        0 <= lit <= pos <= c.len(),
        t.wf(c.len() as int, pos),
        current(c, ends, t, pos),
        forall|p: int|
            pos - lit <= p < pos && p + 4 <= c.len() ==> #[trigger] no_repeat(c, ends, p, 4),
        forall|k: int|
            0 <= k < references(lzss::commands(c, t, pos, lit), pos - lit).len() ==> ends.contains(
                (#[trigger] references(lzss::commands(c, t, pos, lit), pos - lit)[k]).at + 1,
            ),
    ensures
        ({
            let data = lzss::commands(c, t, pos, lit);
            let refs = references(data, pos - lit);
            &&& literal_flags(data).len() == c.len() - pos + lit
            &&& well_chosen(c, ends, pos - lit, literal_flags(data), refs)
            &&& forall|k: int| 0 <= k < refs.len() ==> pos - lit <= (#[trigger] refs[k]).at
        }),
    decreases c.len() - pos,
{
    let data = lzss::commands(c, t, pos, lit);
    let base = pos - lit;
    let none = Seq::<u8>::empty();
    if pos >= c.len() {
        let s = c.subrange(base, pos);
        lemma_flags_of_runs(s, none, base);
        assert(lzss::literal_runs(s) + none =~= lzss::literal_runs(s));
        assert(literal_flags(data) =~= Seq::new(s.len(), |i: int| true));
        assert(references(data, base) =~= Seq::<Reference>::empty());
    } else {
        let (off, len) = matcher::match_at(c, t, pos);
        let now = matcher::inserted(t, c, pos);
        matcher::lemma_match_at(c, t, pos);
        matcher::lemma_inserted_wf(t, c, pos, pos, pos + 1);
        lemma_insert_current(c, ends, t, pos, pos);
        if len < matcher::MIN_MATCH {
            if pos + 4 <= c.len() {
                lemma_no_repeat(c, ends, t, pos, 4);
            }
            lemma_commands_well_chosen(c, ends, now, pos + 1, lit + 1);
        } else {
            lemma_found_is_repeat(c, ends, t, pos);
            lemma_put_off(c, ends, now, pos, 0, off, len);
            let choice = lzss::put_off(c, now, pos, 0, off, len);
            let start = pos + choice.skip;
            let end = start + choice.len;
            let tables = matcher::inserted_range(choice.tables, c, start + 1, end);
            let x = Reference { at: start, off: choice.off, len: choice.len };
            let rest = lzss::commands(c, tables, end, 0);
            let s = c.subrange(base, start);
            let refs = references(data, base);
            lemma_flags_of_reference(x.off, x.len, rest, start);
            lemma_flags_of_runs(s, lzss::backref(x.off, x.len) + rest, base);
            assert(data =~= lzss::literal_runs(s) + (lzss::backref(x.off, x.len) + rest));
            assert(refs == seq![x] + references(rest, end));
            assert(refs[0] == x);
            assert(ends.contains(refs[0].at + 1));
            lemma_up_to_date(c, ends, choice.tables, start, end);
            assert forall|k: int| 0 <= k < references(rest, end).len() implies ends.contains(
                (#[trigger] references(rest, end)[k]).at + 1,
            ) by {
                assert(refs[k + 1] == references(rest, end)[k]);
            }
            lemma_commands_well_chosen(c, ends, tables, end, 0);
            lemma_well_chosen_parts(
                c,
                ends,
                base,
                pos,
                x,
                literal_flags(rest),
                references(rest, end),
            );
        }
    }
}

proof fn lemma_up_to_date(c: Seq<u8>, ends: Set<int>, t: Tables, start: int, end: int)
    requires
        c.len() <= 0xffff_ffff,
        0 <= start,
        start + 4 <= end,
        ends.contains(start + 1),
        up_to_date(c, ends, t, start),
    ensures
        ({
            let u = matcher::inserted_range(t, c, start + 1, end);
            u.wf(c.len() as int, end) && current(c, ends, u, end)
        }),
{
    assert(t.wf(c.len() as int, end));
    matcher::lemma_inserted_range_wf(t, c, start + 1, end, end, end);
    if t.wf(c.len() as int, start + 1) && current(c, ends, t, start + 1) {
        lemma_range_current(c, ends, t, start + 1, end, start + 1);
    } else {
        lemma_range_current(c, ends, t, start + 1, end, start + 2);
    }
}

/// The positions right after the start of references.
pub open spec fn after_starts(refs: Seq<Reference>) -> Set<int> {
    Set::new(|p: int| exists|k: int| 0 <= k < refs.len() && (#[trigger] refs[k]).at + 1 == p)
}

/// LZSS finds repeats, in the input and in the window before it. Four literals in a row never
/// repeat bytes on the way back from them. A reference goes on as far as the bytes repeat, up to
/// 130, and nothing on the way back repeats longer. A longer repeat that starts a byte further on
/// is waited for, up to three times, and a literal is put before a reference only where it starts
/// no repeat as long. The way back ends at the first position that comes right after the start of
/// a reference. Inputs over four gigabytes are left out.
pub proof fn law_repeats(prefix: Seq<u8>, input: Seq<u8>)
    requires
        prefix.len() + input.len() <= 0xffff_ffff,
    ensures
        ({
            let data = lzss::compressed(prefix, input);
            let at = prefix.len() as int;
            let refs = references(data, at);
            &&& literal_flags(data).len() == input.len()
            &&& well_chosen(prefix + input, after_starts(refs), at, literal_flags(data), refs)
        }),
{
    let c = prefix + input;
    let k = prefix.len() as int;
    let data = lzss::compressed(prefix, input);
    let ends = after_starts(references(data, k));
    if input.len() < matcher::MIN_MATCH {
        let none = Seq::<u8>::empty();
        lemma_flags_of_runs(input, none, k);
        assert(data + none =~= data);
        assert(literal_flags(data) =~= Seq::new(input.len(), |i: int| true));
        assert(references(data, k) =~= Seq::<Reference>::empty());
    } else {
        let empty = matcher::empty_tables(c.len() as int);
        matcher::lemma_inserted_range_wf(empty, c, 0, k, 0, k);
        lemma_range_current(c, ends, empty, 0, k, 0);
        lemma_commands_well_chosen(c, ends, lzss::primed(c, k), k, 0);
    }
}

/// A match is put off only for one that is longer, and not where it is as long as can be.
proof fn lemma_put_off_for_longer(c: Seq<u8>, t: Tables, pos: int, skip: int, off: int, len: int)
    ensures
        ({
            let choice = lzss::put_off(c, t, pos, skip, off, len);
            &&& choice.skip >= skip
            &&& choice.len - len >= choice.skip - skip
            &&& skip <= 3 ==> choice.skip <= 3
            &&& len >= 130 ==> choice.skip == skip
        }),
    decreases 3 - skip,
{
    if skip < 3 && len < matcher::MAX_MATCH && pos + skip + 1 + matcher::MIN_MATCH <= c.len() {
        let (next_off, next_len) = matcher::match_at(c, t, pos + skip + 1);
        let next = matcher::inserted(t, c, pos + skip + 1);
        if next_len > len {
            lemma_put_off_for_longer(c, next, pos, skip + 1, next_off, next_len);
        }
    }
}

/// An input that repeats four or more bytes of the window, less than 65536 back, starts with a
/// reference at least that long, or with up to three literals and a longer one, as long as fewer
/// than 64 later positions of the window have the same hash.
pub proof fn law_window_repeat(prefix: Seq<u8>, input: Seq<u8>, q: int, len: int)
    requires
        prefix.len() + input.len() <= 0xffff_ffff,
        0 <= q < prefix.len(),
        prefix.len() - q < 65536,
        4 <= len <= 130,
        len <= input.len(),
        repeats::same(prefix + input, q, prefix.len() as int, len),
        repeats::crowd(
            prefix + input,
            matcher::hash_at(prefix + input, prefix.len() as int),
            q + 1,
            prefix.len() as int,
        ) < 64,
    ensures
        ({
            let at = prefix.len() as int;
            let refs = references(lzss::compressed(prefix, input), at);
            &&& refs.len() > 0
            &&& at <= refs[0].at <= at + 3
            &&& refs[0].len >= len + (refs[0].at - at)
            &&& len == 130 ==> refs[0].at == at
        }),
{
    let c = prefix + input;
    let k = prefix.len() as int;
    let t = lzss::primed(c, k);
    let ends = Set::<int>::empty();
    let empty = matcher::empty_tables(c.len() as int);
    repeats::law_repeat_found(c, k, q, len);
    matcher::lemma_inserted_range_wf(empty, c, 0, k, 0, k);
    lemma_range_current(c, ends, empty, 0, k, 0);
    let (off, found) = matcher::match_at(c, t, k);
    let now = matcher::inserted(t, c, k);
    matcher::lemma_inserted_wf(t, c, k, k, k + 1);
    lemma_insert_current(c, ends, t, k, k);
    lemma_found_is_repeat(c, ends, t, k);
    lemma_put_off(c, ends, now, k, 0, off, found);
    lemma_put_off_for_longer(c, now, k, 0, off, found);
    let choice = lzss::put_off(c, now, k, 0, off, found);
    let start = k + choice.skip;
    let end = start + choice.len;
    let tables = matcher::inserted_range(choice.tables, c, start + 1, end);
    let rest = lzss::commands(c, tables, end, 0);
    let s = c.subrange(k, start);
    let data = lzss::compressed(prefix, input);
    lemma_flags_of_reference(choice.off, choice.len, rest, start);
    lemma_flags_of_runs(s, lzss::backref(choice.off, choice.len) + rest, k);
    assert(data =~= lzss::literal_runs(s) + (lzss::backref(choice.off, choice.len) + rest));
}

} // verus!
