//! Which repeats the match finder finds.

use crate::matcher;
use crate::matcher::Tables;
use vstd::prelude::*;

verus! {

/// The `len` bytes from `a` on are the same as those from `b` on.
pub open spec fn same(c: Seq<u8>, a: int, b: int, len: int) -> bool {
    forall|j: int| 0 <= j < len ==> c[a + j] == #[trigger] c[b + j]
}

/// The hash of four bytes is the high half of their product with a constant, as 32-bit numbers.
pub proof fn law_hash(c: Seq<u8>, p: int)
    requires
        0 <= p,
        p + 4 <= c.len(),
    ensures
        ({
            let v = c[p] + 0x100 * c[p + 1] + 0x1_0000 * c[p + 2] + 0x100_0000 * c[p + 3];
            matcher::hash_at(c, p) == v * 2654435769 % 4294967296 / 65536
        }),
{
    reveal(matcher::hash_at);
}

/// Positions with the same four bytes have the same hash.
proof fn lemma_same_hash(c: Seq<u8>, a: int, b: int)
    requires
        same(c, a, b, 4),
    ensures
        matcher::hash_at(c, a) == matcher::hash_at(c, b),
{
    reveal(matcher::hash_at);
    assert(c[a + 0] == c[b + 0] && c[a + 1] == c[b + 1] && c[a + 2] == c[b + 2] && c[a + 3] == c[b
        + 3]);
}

/// Where bytes stop being the same.
proof fn lemma_common_stops(c: Seq<u8>, a: int, b: int, cap: nat)
    ensures
        matcher::common(c, a, b, cap) < cap ==> c[a + matcher::common(c, a, b, cap)] != c[b
            + matcher::common(c, a, b, cap)],
    decreases cap,
{
    if cap > 0 && c[a] == c[b] {
        lemma_common_stops(c, a + 1, b + 1, (cap - 1) as nat);
    }
}

/// The longest match is at least as long as each, and is the first of the longest.
proof fn lemma_longest_of(c: Seq<u8>, pos: int, ps: Seq<int>)
    ensures
        ({
            let cap = matcher::match_cap(c, pos);
            let (off, len) = matcher::longest(c, pos, ps);
            &&& forall|k: int|
                0 <= k < ps.len() ==> matcher::common(c, #[trigger] ps[k], pos, cap) <= len
            &&& len > 0 ==> exists|k: int|
                {
                    &&& 0 <= k < ps.len()
                    &&& #[trigger] ps[k] == pos - off
                    &&& matcher::common(c, ps[k], pos, cap) == len
                    &&& forall|i: int|
                        0 <= i < k ==> matcher::common(c, #[trigger] ps[i], pos, cap) < len
                }
            &&& len >= 0
        }),
    decreases ps.len(),
{
    if ps.len() > 0 {
        let rest = ps.drop_last();
        let last = ps.len() - 1;
        let cap = matcher::match_cap(c, pos);
        lemma_longest_of(c, pos, rest);
        let (off, len) = matcher::longest(c, pos, ps);
        let before = matcher::longest(c, pos, rest);
        assert forall|k: int| 0 <= k < ps.len() implies matcher::common(
            c,
            #[trigger] ps[k],
            pos,
            cap,
        ) <= len by {
            if k < last {
                assert(rest[k] == ps[k]);
            }
        }
        if matcher::common(c, ps[last], pos, cap) > before.1 {
            assert(ps[last] == pos - off);
            assert forall|i: int| 0 <= i < last implies matcher::common(
                c,
                #[trigger] ps[i],
                pos,
                cap,
            ) < len by {
                assert(rest[i] == ps[i]);
            }
        } else if len > 0 {
            let k = choose|k: int|
                {
                    &&& 0 <= k < rest.len()
                    &&& #[trigger] rest[k] == pos - off
                    &&& matcher::common(c, rest[k], pos, cap) == len
                    &&& forall|i: int|
                        0 <= i < k ==> matcher::common(c, #[trigger] rest[i], pos, cap) < len
                };
            assert(ps[k] == pos - off);
            assert forall|i: int| 0 <= i < k implies matcher::common(c, #[trigger] ps[i], pos, cap)
                < len by {
                assert(rest[i] == ps[i]);
            }
        }
    }
}

/// Positions that the chain leads to from its head on, one after the other, all of them earlier
/// than `pos` and less than 65536 back.
pub open spec fn is_walk(t: Tables, h: int, pos: int, w: Seq<int>) -> bool {
    &&& w.len() > 0 ==> t.head[h] == w[0]
    &&& forall|i: int| 0 <= i < w.len() ==> pos - 65536 < #[trigger] w[i] < pos
    &&& forall|i: int| 0 <= i < w.len() ==> 0 <= #[trigger] w[i] < 0xffff_ffff
    &&& forall|i: int| 0 <= i < w.len() - 1 ==> t.chain[#[trigger] w[i]] == w[i + 1]
}

/// A walk along the chain is tried from its start on.
proof fn lemma_walk_is_tried(chain: Seq<u32>, cur: u32, pos: int, fuel: nat, w: Seq<int>)
    requires
        w.len() > 0 ==> cur == w[0],
        w.len() <= fuel,
        forall|i: int| 0 <= i < w.len() ==> pos - 65536 < #[trigger] w[i] < pos,
        forall|i: int| 0 <= i < w.len() ==> 0 <= #[trigger] w[i] < 0xffff_ffff,
        forall|i: int| 0 <= i < w.len() - 1 ==> chain[#[trigger] w[i]] == w[i + 1],
    ensures
        ({
            let ps = matcher::tried(chain, cur, pos, fuel);
            &&& ps.len() >= w.len()
            &&& forall|i: int| 0 <= i < w.len() ==> #[trigger] ps[i] == w[i]
        }),
    decreases w.len(),
{
    if w.len() > 0 {
        let v = w.skip(1);
        let ps = matcher::tried(chain, cur, pos, fuel);
        let rest = matcher::tried(chain, chain[cur as int], pos, (fuel - 1) as nat);
        assert(0 <= w[0] < 0xffff_ffff && pos - 65536 < w[0]);
        assert forall|i: int| 0 <= i < v.len() implies pos - 65536 < #[trigger] v[i] < pos && 0
            <= v[i] < 0xffff_ffff by {
            assert(v[i] == w[i + 1]);
        }
        assert forall|i: int| 0 <= i < v.len() - 1 implies chain[#[trigger] v[i]] == v[i + 1] by {
            assert(v[i] == w[i + 1]);
        }
        if v.len() > 0 {
            assert(chain[w[0]] == w[1]);
        }
        lemma_walk_is_tried(chain, chain[cur as int], pos, (fuel - 1) as nat, v);
        assert forall|i: int| 0 <= i < w.len() implies #[trigger] ps[i] == w[i] by {
            if i > 0 {
                assert(ps[i] == rest[i - 1]);
                assert(rest[i - 1] == v[i - 1]);
            }
        }
    }
}

/// A match within reach is found: of the first 64 positions that the chain leads to, none has more
/// bytes in common with `pos` than the match that is found there, where it has four or more. No
/// match goes on after its end.
pub proof fn law_match(c: Seq<u8>, t: Tables, pos: int, w: Seq<int>, k: int, len: int)
    requires
        t.wf(c.len() as int, pos),
        0 <= pos,
        is_walk(t, matcher::hash_at(c, pos), pos, w),
        w.len() <= 64,
        0 <= k < w.len(),
        4 <= len <= 130,
        pos + len <= c.len(),
        same(c, w[k], pos, len),
    ensures
        matcher::match_at(c, t, pos).1 >= len,
{
    reveal(matcher::match_at);
    matcher::lemma_hash_bound(c, pos);
    let h = matcher::hash_at(c, pos);
    let chain = matcher::inserted(t, c, pos).chain;
    let cap = matcher::match_cap(c, pos);
    assert forall|i: int| 0 <= i < w.len() - 1 implies chain[#[trigger] w[i]] == w[i + 1] by {
        assert(t.chain[w[i]] == w[i + 1]);
    }
    lemma_walk_is_tried(chain, t.head[h], pos, 64, w);
    let ps = matcher::tried(chain, t.head[h], pos, 64);
    lemma_longest_of(c, pos, ps);
    assert(ps[k] == w[k]);
    matcher::lemma_common_from(c, w[k], pos, cap, len as nat);
}

/// A match ends only where it is 130 bytes long, where the bytes end, or where they differ.
pub proof fn law_match_goes_on(c: Seq<u8>, t: Tables, pos: int)
    requires
        t.wf(c.len() as int, pos),
        0 <= pos <= c.len(),
    ensures
        ({
            let (off, len) = matcher::match_at(c, t, pos);
            &&& len == 0 || len >= 4
            &&& len > 0 ==> 1 <= off <= pos && off < 65536 && same(c, pos - off, pos, len)
            &&& len > 0 ==> pos + len <= c.len() && len <= 130
            &&& len > 0 ==> len == 130 || pos + len == c.len() || c[pos - off + len] != c[pos + len]
        }),
{
    matcher::lemma_match_at(c, t, pos);
    reveal(matcher::match_at);
    let (off, len) = matcher::match_at(c, t, pos);
    if len > 0 {
        let ps = matcher::tried(
            matcher::inserted(t, c, pos).chain,
            t.head[matcher::hash_at(c, pos)],
            pos,
            matcher::MAX_CHAIN as nat,
        );
        let cap = matcher::match_cap(c, pos);
        lemma_longest_of(c, pos, ps);
        let k = choose|k: int|
            {
                &&& 0 <= k < ps.len()
                &&& #[trigger] ps[k] == pos - off
                &&& matcher::common(c, ps[k], pos, cap) == len
                &&& forall|i: int| 0 <= i < k ==> matcher::common(c, #[trigger] ps[i], pos, cap) < len
            };
        lemma_common_stops(c, ps[k], pos, cap);
    }
}

/// The last position before `p` with hash `h`, or -1.
pub open spec fn latest(c: Seq<u8>, h: int, p: int) -> int
    decreases p,
{
    if p <= 0 {
        -1
    } else if matcher::hash_at(c, p - 1) == h {
        p - 1
    } else {
        latest(c, h, p - 1)
    }
}

/// How many positions from `low` up to `high` have hash `h`.
pub open spec fn crowd(c: Seq<u8>, h: int, low: int, high: int) -> nat
    decreases high - low,
{
    if low >= high {
        0
    } else {
        crowd(c, h, low, high - 1) + if matcher::hash_at(c, high - 1) == h {
            1nat
        } else {
            0nat
        }
    }
}

/// What the last position with a hash is.
pub proof fn lemma_latest(c: Seq<u8>, h: int, p: int)
    ensures
        -1 <= latest(c, h, p),
        p >= 0 ==> latest(c, h, p) < p,
        latest(c, h, p) >= 0 ==> matcher::hash_at(c, latest(c, h, p)) == h,
        forall|x: int|
            latest(c, h, p) < x < p && 0 <= x ==> #[trigger] matcher::hash_at(c, x) != h,
    decreases p,
{
    if p > 0 {
        lemma_latest(c, h, p - 1);
    }
}

/// A position as a table entry; -1 stands for none.
pub open spec fn as_entry(p: int) -> u32 {
    if p < 0 {
        0xffff_ffff
    } else {
        p as u32
    }
}

/// The tables that hold the positions before `p` in order: each hash leads to the latest position
/// that has it, and each position to the latest one before it.
proof fn lemma_ordered_tables(c: Seq<u8>, p: int)
    requires
        0 <= p,
        p + 3 <= c.len(),
        c.len() <= 0xffff_ffff,
    ensures
        ({
            let t = matcher::inserted_range(matcher::empty_tables(c.len() as int), c, 0, p);
            &&& t.wf(c.len() as int, p)
            &&& forall|h: int| 0 <= h < 65536 ==> #[trigger] t.head[h] == as_entry(latest(c, h, p))
            &&& forall|x: int|
                0 <= x < p ==> #[trigger] t.chain[x] == as_entry(
                    latest(c, matcher::hash_at(c, x), x),
                )
        }),
    decreases p,
{
    let empty = matcher::empty_tables(c.len() as int);
    let t = matcher::inserted_range(empty, c, 0, p);
    matcher::lemma_inserted_range_wf(empty, c, 0, p, 0, p);
    if p > 0 {
        let before = matcher::inserted_range(empty, c, 0, p - 1);
        lemma_ordered_tables(c, p - 1);
        matcher::lemma_hash_bound(c, p - 1);
        let g = matcher::hash_at(c, p - 1);
        assert forall|h: int| 0 <= h < 65536 implies #[trigger] t.head[h] == as_entry(
            latest(c, h, p),
        ) by {
            assert(before.head[h] == as_entry(latest(c, h, p - 1)));
        }
        assert forall|x: int| 0 <= x < p implies #[trigger] t.chain[x] == as_entry(
            latest(c, matcher::hash_at(c, x), x),
        ) by {
            if x < p - 1 {
                assert(before.chain[x] == as_entry(latest(c, matcher::hash_at(c, x), x)));
            } else {
                assert(before.head[g] == as_entry(latest(c, g, p - 1)));
            }
        }
    }
}

/// The way from `p` back to `q` along positions with hash `h`.
spec fn way_back(c: Seq<u8>, h: int, p: int, q: int) -> Seq<int>
    decreases p,
{
    let x = latest(c, h, p);
    if x < 0 || x <= q || x >= p {
        seq![q]
    } else {
        seq![x] + way_back(c, h, x, q)
    }
}

proof fn lemma_crowd_gap(c: Seq<u8>, h: int, low: int, x: int, high: int)
    requires
        low <= x < high,
        matcher::hash_at(c, x) == h,
        forall|y: int| x < y < high ==> #[trigger] matcher::hash_at(c, y) != h,
    ensures
        crowd(c, h, low, high) == crowd(c, h, low, x) + 1,
    decreases high - x,
{
    if high - 1 > x {
        lemma_crowd_gap(c, h, low, x, high - 1);
    }
}

proof fn lemma_way_back(c: Seq<u8>, h: int, p: int, q: int)
    requires
        0 <= q < p,
        matcher::hash_at(c, q) == h,
    ensures
        ({
            let w = way_back(c, h, p, q);
            &&& w.len() == crowd(c, h, q + 1, p) + 1
            &&& w[0] == latest(c, h, p)
            &&& w[w.len() - 1] == q
            &&& forall|i: int| 0 <= i < w.len() ==> q <= #[trigger] w[i] < p
            &&& forall|i: int| 0 <= i < w.len() ==> matcher::hash_at(c, #[trigger] w[i]) == h
            &&& forall|i: int| 0 <= i < w.len() - 1 ==> latest(c, h, #[trigger] w[i]) == w[i + 1]
        }),
    decreases p,
{
    let x = latest(c, h, p);
    let w = way_back(c, h, p, q);
    lemma_latest(c, h, p);
    if x < q {
        assert(matcher::hash_at(c, q) != h);
    }
    if x == q {
        lemma_no_crowd(c, h, q + 1, p);
    } else {
        lemma_way_back(c, h, x, q);
        let v = way_back(c, h, x, q);
        lemma_crowd_gap(c, h, q + 1, x, p);
        assert forall|i: int| 0 <= i < w.len() implies q <= #[trigger] w[i] < p && matcher::hash_at(
            c,
            w[i],
        ) == h by {
            if i > 0 {
                assert(w[i] == v[i - 1]);
            }
        }
        assert forall|i: int| 0 <= i < w.len() - 1 implies latest(c, h, #[trigger] w[i]) == w[i
            + 1] by {
            if i > 0 {
                assert(w[i] == v[i - 1] && w[i + 1] == v[i]);
            } else {
                assert(w[1] == v[0]);
            }
        }
        assert(w[w.len() - 1] == v[v.len() - 1]);
    }
}

proof fn lemma_no_crowd(c: Seq<u8>, h: int, low: int, high: int)
    requires
        forall|y: int| low <= y < high ==> #[trigger] matcher::hash_at(c, y) != h,
    ensures
        crowd(c, h, low, high) == 0,
    decreases high - low,
{
    if low < high {
        lemma_no_crowd(c, h, low, high - 1);
    }
}

/// Repeats are found: where the bytes from `pos` on repeat four or more bytes from `q` on, less
/// than 65536 back, and fewer than 64 positions between have the same hash, a match is found that
/// is at least as long. The tables hold all positions before `pos`.
pub proof fn law_repeat_found(c: Seq<u8>, pos: int, q: int, len: int)
    requires
        c.len() <= 0xffff_ffff,
        0 <= q < pos,
        pos - q < 65536,
        4 <= len <= 130,
        pos + len <= c.len(),
        same(c, q, pos, len),
        crowd(c, matcher::hash_at(c, pos), q + 1, pos) < 64,
    ensures
        matcher::match_at(
            c,
            matcher::inserted_range(matcher::empty_tables(c.len() as int), c, 0, pos),
            pos,
        ).1 >= len,
{
    let t = matcher::inserted_range(matcher::empty_tables(c.len() as int), c, 0, pos);
    let h = matcher::hash_at(c, pos);
    assert(same(c, q, pos, 4));
    lemma_same_hash(c, q, pos);
    matcher::lemma_hash_bound(c, pos);
    lemma_ordered_tables(c, pos);
    lemma_way_back(c, h, pos, q);
    let w = way_back(c, h, pos, q);
    assert(t.head[h] == as_entry(latest(c, h, pos)));
    assert forall|i: int| 0 <= i < w.len() - 1 implies t.chain[#[trigger] w[i]] == w[i + 1] by {
        assert(t.chain[w[i]] == as_entry(latest(c, matcher::hash_at(c, w[i]), w[i])));
    }
    assert(w[0] >= 0);
    law_match(c, t, pos, w, w.len() - 1, len);
}

/// Of repeats that are equally long the nearest is taken.
pub proof fn law_nearest_repeat(c: Seq<u8>, pos: int, q: int)
    requires
        c.len() <= 0xffff_ffff,
        0 <= pos <= c.len(),
        0 <= q < pos,
    ensures
        ({
            let t = matcher::inserted_range(matcher::empty_tables(c.len() as int), c, 0, pos);
            let (off, len) = matcher::match_at(c, t, pos);
            len > 0 && pos - off < q ==> !same(c, q, pos, len)
        }),
{
    let t = matcher::inserted_range(matcher::empty_tables(c.len() as int), c, 0, pos);
    matcher::lemma_inserted_range_wf(matcher::empty_tables(c.len() as int), c, 0, pos, 0, pos);
    let (off, len) = matcher::match_at(c, t, pos);
    if len > 0 && pos - off < q && same(c, q, pos, len) {
        law_match_goes_on(c, t, pos);
        reveal(matcher::match_at);
        let h = matcher::hash_at(c, pos);
        let chain = matcher::inserted(t, c, pos).chain;
        let ps = matcher::tried(chain, t.head[h], pos, 64);
        let cap = matcher::match_cap(c, pos);
        matcher::lemma_hash_bound(c, pos);
        lemma_ordered_tables(c, pos);
        lemma_longest_of(c, pos, ps);
        let k = choose|k: int|
            {
                &&& 0 <= k < ps.len()
                &&& #[trigger] ps[k] == pos - off
                &&& matcher::common(c, ps[k], pos, cap) == len
                &&& forall|i: int| 0 <= i < k ==> matcher::common(c, #[trigger] ps[i], pos, cap) < len
            };
        assert(same(c, q, pos, 4));
        lemma_same_hash(c, q, pos);
        assert forall|x: int| 0 <= x < pos implies #[trigger] chain[x] == as_entry(
            latest(c, matcher::hash_at(c, x), x),
        ) by {
            assert(t.chain[x] == as_entry(latest(c, matcher::hash_at(c, x), x)));
        }
        assert(t.head[h] == as_entry(latest(c, h, pos)));
        let i = lemma_nearer_is_earlier(c, chain, pos, h, pos, 64, k, q);
        matcher::lemma_common_from(c, q, pos, cap, len as nat);
    }
}

/// A position with the hash of the chain that is nearer than one that is tried is tried earlier.
proof fn lemma_nearer_is_earlier(
    c: Seq<u8>,
    chain: Seq<u32>,
    pos: int,
    h: int,
    p: int,
    fuel: nat,
    k: int,
    q: int,
) -> (i: int)
    requires
        c.len() <= 0xffff_ffff,
        0 <= p <= pos <= c.len(),
        forall|x: int|
            0 <= x < pos ==> #[trigger] chain[x] == as_entry(latest(c, matcher::hash_at(c, x), x)),
        0 <= k < matcher::tried(chain, as_entry(latest(c, h, p)), pos, fuel).len(),
        matcher::tried(chain, as_entry(latest(c, h, p)), pos, fuel)[k] < q < p,
        0 <= q,
        matcher::hash_at(c, q) == h,
    ensures
        0 <= i < k,
        matcher::tried(chain, as_entry(latest(c, h, p)), pos, fuel)[i] == q,
    decreases fuel,
{
    let x = latest(c, h, p);
    lemma_latest(c, h, p);
    let cur = as_entry(x);
    let ps = matcher::tried(chain, cur, pos, fuel);
    let rest = matcher::tried(chain, chain[cur as int], pos, (fuel - 1) as nat);
    assert(x >= 0);
    assert(cur == x);
    assert(ps == seq![x] + rest);
    if q > x {
        assert(matcher::hash_at(c, q) != h);
    }
    if q == x {
        assert(ps[0] == q);
        0
    } else {
        assert(k > 0);
        assert(ps[k] == rest[k - 1]);
        let i = lemma_nearer_is_earlier(c, chain, pos, h, x, (fuel - 1) as nat, k - 1, q);
        assert(ps[i + 1] == rest[i]);
        i + 1
    }
}

} // verus!
