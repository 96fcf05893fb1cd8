//! The match finder: positions with the same four bytes are found through a hash table whose
//! entries are chained.

use crate::bytes;
use vstd::prelude::*;

verus! {

/// How far back a match may start.
pub const WINDOW_SIZE: usize = 65536;

/// The number of hash values.
pub const HASH_SIZE: usize = 65536;

/// The longest match.
pub const MAX_MATCH: usize = 130;

/// The shortest match.
pub const MIN_MATCH: usize = 4;

/// How many positions are tried for one match.
pub const MAX_CHAIN: usize = 64;

/// The table entry that stands for no position.
pub const NO_POSITION: u32 = 0xffff_ffff;

/// The hash of the four bytes from `pos` on.
#[verifier::opaque]
pub open spec fn hash_at(c: Seq<u8>, pos: int) -> int {
    (bytes::le32_at(c, pos) * 0x9E37_79B9) % 0x1_0000_0000 / 65536
}

/// A position as a table entry.
pub open spec fn entry(p: int) -> u32 {
    (p % 0x1_0000_0000) as u32
}

/// The hash of the four bytes from `pos` on.
pub fn hash4(b: &[u8], pos: usize) -> (h: usize)
    requires
        pos + 4 <= b@.len(),
    ensures
        h == hash_at(b@, pos as int),
        h < HASH_SIZE,
{
    proof {
        reveal(hash_at);
    }
    let v: u32 = bytes::read_le32(b, pos);
    (v.wrapping_mul(0x9E37_79B9) / 65536) as usize
}

/// For each hash the last position that was entered, and for each position the one that was the
/// last before it.
pub struct MatchTables {
    pub head: Vec<u32>,
    pub chain: Vec<u32>,
}

/// The contents of `MatchTables`.
pub struct Tables {
    pub head: Seq<u32>,
    pub chain: Seq<u32>,
}

impl View for MatchTables {
    type V = Tables;

    open spec fn view(&self) -> Tables {
        Tables { head: self.head@, chain: self.chain@ }
    }
}

impl Tables {
    /// The tables are those for `n` bytes, and all positions in them are before `end`.
    pub open spec fn wf(self, n: int, end: int) -> bool {
        &&& self.head.len() == HASH_SIZE
        &&& self.chain.len() == n
        &&& forall|h: int|
            0 <= h < HASH_SIZE ==> #[trigger] self.head[h] == NO_POSITION || self.head[h] < end
        &&& forall|p: int|
            0 <= p < n ==> #[trigger] self.chain[p] == NO_POSITION || self.chain[p] < end
    }
}

/// Tables without positions.
pub open spec fn empty_tables(n: int) -> Tables {
    Tables {
        head: Seq::new(HASH_SIZE as nat, |h: int| NO_POSITION),
        chain: Seq::new(n as nat, |p: int| NO_POSITION),
    }
}

/// The tables after position `p` has been entered. A position that fewer than four bytes follow
/// is left out.
pub open spec fn inserted(t: Tables, c: Seq<u8>, p: int) -> Tables {
    if p + 4 <= c.len() {
        let h = hash_at(c, p);
        Tables { head: t.head.update(h, entry(p)), chain: t.chain.update(p, t.head[h]) }
    } else {
        t
    }
}

/// The tables after the positions from `from` up to `to` have been entered in order.
pub open spec fn inserted_range(t: Tables, c: Seq<u8>, from: int, to: int) -> Tables
    decreases to - from,
{
    if from >= to {
        t
    } else {
        inserted(inserted_range(t, c, from, to - 1), c, to - 1)
    }
}

/// The positions that are tried for a match at `pos`: those that the chain leads to from `cur`
/// on, at most `fuel` of them and none that is too far back.
pub open spec fn tried(chain: Seq<u32>, cur: u32, pos: int, fuel: nat) -> Seq<int>
    decreases fuel,
{
    if fuel == 0 || cur == NO_POSITION || pos - cur >= WINDOW_SIZE {
        Seq::empty()
    } else {
        seq![cur as int] + tried(chain, chain[cur as int], pos, (fuel - 1) as nat)
    }
}

/// How many of the bytes from `a` on are the same as those from `b` on, at most `cap`.
pub open spec fn common(c: Seq<u8>, a: int, b: int, cap: nat) -> nat
    decreases cap,
{
    if cap == 0 || c[a] != c[b] {
        0
    } else {
        1 + common(c, a + 1, b + 1, (cap - 1) as nat)
    }
}

/// The longest match that could start at `pos`.
pub open spec fn match_cap(c: Seq<u8>, pos: int) -> nat {
    if c.len() - pos < MAX_MATCH {
        (c.len() - pos) as nat
    } else {
        MAX_MATCH as nat
    }
}

/// Offset and length of the longest match at `pos` with one of the given positions, the first of
/// them where several are longest.
pub open spec fn longest(c: Seq<u8>, pos: int, positions: Seq<int>) -> (int, int)
    decreases positions.len(),
{
    if positions.len() == 0 {
        (0, 0)
    } else {
        let best = longest(c, pos, positions.drop_last());
        let len = common(c, positions.last(), pos, match_cap(c, pos)) as int;
        if len > best.1 {
            (pos - positions.last(), len)
        } else {
            best
        }
    }
}

/// Offset and length of the match that is found at `pos`; both are 0 where there is none of at
/// least four bytes.
#[verifier::opaque]
pub open spec fn match_at(c: Seq<u8>, t: Tables, pos: int) -> (int, int) {
    if pos + 4 > c.len() {
        (0, 0)
    } else {
        let best = longest(
            c,
            pos,
            tried(
                inserted(t, c, pos).chain,
                t.head[hash_at(c, pos)],
                pos,
                MAX_CHAIN as nat,
            ),
        );
        if best.1 >= MIN_MATCH {
            best
        } else {
            (0, 0)
        }
    }
}

/// A hash is an index into the table.
pub proof fn lemma_hash_bound(c: Seq<u8>, pos: int)
    requires
        0 <= pos,
        pos + 4 <= c.len(),
    ensures
        0 <= hash_at(c, pos) < HASH_SIZE,
{
    reveal(hash_at);
}

/// Entering a position keeps the tables well formed.
pub proof fn lemma_inserted_wf(t: Tables, c: Seq<u8>, p: int, end: int, new_end: int)
    requires
        t.wf(c.len() as int, end),
        0 <= p < new_end,
        end <= new_end,
    ensures
        inserted(t, c, p).wf(c.len() as int, new_end),
{
    if p + 4 <= c.len() {
        lemma_hash_bound(c, p);
    }
}

/// Entering positions keeps the tables well-formed.
pub proof fn lemma_inserted_range_wf(
    t: Tables,
    c: Seq<u8>,
    from: int,
    to: int,
    end: int,
    new_end: int,
)
    requires
        t.wf(c.len() as int, end),
        0 <= from,
        to <= new_end,
        end <= new_end,
    ensures
        inserted_range(t, c, from, to).wf(c.len() as int, new_end),
    decreases to - from,
{
    if from < to {
        lemma_inserted_range_wf(t, c, from, to - 1, end, new_end);
        lemma_inserted_wf(inserted_range(t, c, from, to - 1), c, to - 1, new_end, new_end);
    }
}

/// Bytes that are the same count.
pub proof fn lemma_common_from(c: Seq<u8>, a: int, b: int, cap: nat, k: nat)
    requires
        k <= cap,
        forall|j: int| 0 <= j < k ==> c[a + j] == #[trigger] c[b + j],
    ensures
        common(c, a, b, cap) == k + common(c, a + k, b + k, (cap - k) as nat),
    decreases k,
{
    if k > 0 {
        assert(c[b + 0] == c[a + 0]);
        assert forall|j: int| 0 <= j < k - 1 implies c[a + 1 + j] == #[trigger] c[b + 1 + j] by {
            assert(c[b + (j + 1)] == c[a + (j + 1)]);
        }
        lemma_common_from(c, a + 1, b + 1, (cap - 1) as nat, (k - 1) as nat);
    }
}

/// What it means that bytes are the same.
pub proof fn lemma_common(c: Seq<u8>, a: int, b: int, cap: nat)
    ensures
        common(c, a, b, cap) <= cap,
        forall|j: int| 0 <= j < common(c, a, b, cap) ==> c[a + j] == #[trigger] c[b + j],
    decreases cap,
{
    if cap > 0 && c[a] == c[b] {
        lemma_common(c, a + 1, b + 1, (cap - 1) as nat);
        assert forall|j: int| 0 <= j < common(c, a, b, cap) implies c[a + j] == #[trigger] c[b
            + j] by {
            if j > 0 {
                assert(c[b + 1 + (j - 1)] == c[a + 1 + (j - 1)]);
            }
        }
    }
}

/// A match that is as long as one can be stays the longest.
proof fn lemma_longest_stays(c: Seq<u8>, pos: int, seen: Seq<int>, more: Seq<int>)
    requires
        longest(c, pos, seen).1 >= match_cap(c, pos),
    ensures
        longest(c, pos, seen + more) == longest(c, pos, seen),
    decreases more.len(),
{
    if more.len() == 0 {
        assert(seen + more =~= seen);
    } else {
        lemma_longest_stays(c, pos, seen, more.drop_last());
        assert((seen + more).drop_last() =~= seen + more.drop_last());
        lemma_common(c, more.last(), pos, match_cap(c, pos));
    }
}

/// All positions that are tried are before `pos` and in the window.
pub proof fn lemma_tried(chain: Seq<u32>, cur: u32, pos: int, fuel: nat)
    requires
        pos <= chain.len(),
        cur == NO_POSITION || cur < pos,
        forall|p: int|
            0 <= p < pos ==> #[trigger] chain[p] == NO_POSITION || chain[p] < pos,
    ensures
        forall|k: int|
            0 <= k < tried(chain, cur, pos, fuel).len() ==> 0 <= #[trigger] tried(
                chain,
                cur,
                pos,
                fuel,
            )[k] < pos && pos - tried(chain, cur, pos, fuel)[k] < WINDOW_SIZE,
    decreases fuel,
{
    if !(fuel == 0 || cur == NO_POSITION || pos - cur >= WINDOW_SIZE) {
        let rest = tried(chain, chain[cur as int], pos, (fuel - 1) as nat);
        lemma_tried(chain, chain[cur as int], pos, (fuel - 1) as nat);
        let all = tried(chain, cur, pos, fuel);
        assert forall|k: int| 0 <= k < all.len() implies 0 <= #[trigger] all[k] < pos && pos
            - all[k] < WINDOW_SIZE by {
            if k > 0 {
                assert(all[k] == rest[k - 1]);
            }
        }
    }
}

proof fn lemma_longest(c: Seq<u8>, pos: int, positions: Seq<int>)
    requires
        0 <= pos <= c.len(),
        forall|k: int|
            0 <= k < positions.len() ==> 0 <= #[trigger] positions[k] < pos && pos - positions[k]
                < WINDOW_SIZE,
    ensures
        ({
            let (off, len) = longest(c, pos, positions);
            &&& 0 <= len <= match_cap(c, pos)
            &&& len > 0 ==> 1 <= off < WINDOW_SIZE && off <= pos
            &&& forall|j: int| 0 <= j < len ==> c[pos - off + j] == #[trigger] c[pos + j]
        }),
    decreases positions.len(),
{
    if positions.len() > 0 {
        let last = positions.last();
        lemma_longest(c, pos, positions.drop_last());
        lemma_common(c, last, pos, match_cap(c, pos));
    }
}

/// What a match at `pos` is: bytes of the window that the bytes from `pos` on repeat.
pub proof fn lemma_match_at(c: Seq<u8>, t: Tables, pos: int)
    requires
        t.wf(c.len() as int, pos),
        0 <= pos <= c.len(),
    ensures
        ({
            let (off, len) = match_at(c, t, pos);
            &&& 0 <= len <= MAX_MATCH
            &&& pos + len <= c.len()
            &&& len == 0 || len >= MIN_MATCH
            &&& len > 0 ==> 1 <= off < WINDOW_SIZE && off <= pos
            &&& forall|j: int| 0 <= j < len ==> c[pos - off + j] == #[trigger] c[pos + j]
        }),
{
    reveal(match_at);
    if pos + 4 <= c.len() {
        lemma_hash_bound(c, pos);
        let chain = inserted(t, c, pos).chain;
        let cur = t.head[hash_at(c, pos)];
        lemma_tried(chain, cur, pos, MAX_CHAIN as nat);
        lemma_longest(c, pos, tried(chain, cur, pos, MAX_CHAIN as nat));
    }
}

impl MatchTables {
    /// Tables for `n` bytes, without positions.
    pub fn new(n: usize) -> (t: Self)
        ensures
            t@ == empty_tables(n as int),
            t@.wf(n as int, 0),
    {
        let head: Vec<u32> = vec![NO_POSITION; HASH_SIZE];
        let chain: Vec<u32> = vec![NO_POSITION; n];
        let t = MatchTables { head, chain };
        assert(t@.head =~= empty_tables(n as int).head);
        assert(t@.chain =~= empty_tables(n as int).chain);
        t
    }

    /// Enters position `p`, unless fewer than four bytes follow it.
    pub fn insert(&mut self, c: &[u8], p: usize)
        requires
            old(self)@.head.len() == HASH_SIZE,
            old(self)@.chain.len() == c@.len(),
        ensures
            final(self)@ == inserted(old(self)@, c@, p as int),
            final(self)@.head.len() == HASH_SIZE,
            final(self)@.chain.len() == c@.len(),
    {
        if c.len() >= 4 && p <= c.len() - 4 {
            let h: usize = hash4(c, p);
            self.chain[p] = self.head[h];
            self.head[h] = (p as u64 % 0x1_0000_0000) as u32;
        }
    }

    /// Enters the positions from `from` up to `to`.
    pub fn insert_range(&mut self, c: &[u8], from: usize, to: usize)
        requires
            old(self)@.head.len() == HASH_SIZE,
            old(self)@.chain.len() == c@.len(),
        ensures
            final(self)@ == inserted_range(old(self)@, c@, from as int, to as int),
            final(self)@.head.len() == HASH_SIZE,
            final(self)@.chain.len() == c@.len(),
    {
        let ghost start = self@;
        let mut p: usize = from;
        while p < to
            invariant
                from <= to ==> p <= to,
                from <= p,
                from > to ==> p == from,
                self@.head.len() == HASH_SIZE,
                self@.chain.len() == c@.len(),
                self@ == inserted_range(start, c@, from as int, p as int),
            decreases to - p,
        {
            self.insert(c, p);
            p = p + 1;
        }
    }
}

/// Enters position `pos` and finds the match there: its offset and its length, or 0 and 0.
pub fn find_best_match_at(c: &[u8], pos: usize, tables: &mut MatchTables) -> (found: (usize, usize))
    requires
        old(tables)@.wf(c@.len() as int, pos as int),
    ensures
        (found.0 as int, found.1 as int) == match_at(c@, old(tables)@, pos as int),
        final(tables)@ == inserted(old(tables)@, c@, pos as int),
        final(tables)@.wf(c@.len() as int, pos + 1),
{
    let ghost t = tables@;
    proof {
        reveal(match_at);
        lemma_inserted_wf(t, c@, pos as int, pos as int, pos + 1);
    }
    if c.len() < MIN_MATCH || pos > c.len() - MIN_MATCH {
        return (0, 0);
    }
    let h: usize = hash4(c, pos);
    let old_head: u32 = tables.head[h];
    tables.insert(c, pos);
    let max_len: usize = if c.len() - pos < MAX_MATCH {
        c.len() - pos
    } else {
        MAX_MATCH
    };
    let mut best_len: usize = 0;
    let mut best_off: usize = 0;
    let mut cur: u32 = old_head;
    let mut depth: usize = 0;
    assert(c.len() == c@.len());
    let ghost chain = tables@.chain;
    let ghost all = tried(chain, old_head, pos as int, MAX_CHAIN as nat);
    let ghost mut seen: Seq<int> = Seq::empty();
    proof {
        assert(seen + all =~= all);
    }
    while cur != NO_POSITION && depth < MAX_CHAIN && pos - cur as usize <= WINDOW_SIZE - 1
        && best_len < MAX_MATCH
        invariant
            pos + 4 <= c@.len(),
            depth <= MAX_CHAIN,
            chain == tables@.chain,
            chain.len() == c@.len(),
            cur == NO_POSITION || cur < pos,
            forall|p: int|
                0 <= p < pos ==> #[trigger] chain[p] == NO_POSITION || chain[p] < pos,
            max_len == match_cap(c@, pos as int),
            max_len <= MAX_MATCH,
            pos + max_len <= c@.len() <= usize::MAX,
            seen + tried(chain, cur, pos as int, (MAX_CHAIN - depth) as nat) == all,
            (best_off as int, best_len as int) == longest(c@, pos as int, seen),
        decreases MAX_CHAIN - depth,
    {
        let cp: usize = cur as usize;
        let mut ml: usize = 0;
        while ml < max_len && c[cp + ml] == c[pos + ml]
            invariant
                cp < pos,
                ml <= max_len,
                pos + max_len <= c@.len() <= usize::MAX,
                forall|j: int| 0 <= j < ml ==> c@[cp + j] == #[trigger] c@[pos + j],
            decreases max_len - ml,
        {
            ml = ml + 1;
        }
        proof {
            lemma_common_from(c@, cp as int, pos as int, max_len as nat, ml as nat);
            let rest = tried(chain, cur, pos as int, (MAX_CHAIN - depth) as nat);
            let next = tried(
                chain,
                chain[cp as int],
                pos as int,
                (MAX_CHAIN - depth - 1) as nat,
            );
            assert(rest == seq![cp as int] + next);
            assert(seen + rest =~= seen.push(cp as int) + next);
            assert(seen.push(cp as int).drop_last() =~= seen);
            seen = seen.push(cp as int);
        }
        if ml > best_len {
            best_len = ml;
            best_off = pos - cp;
        }
        cur = tables.chain[cp];
        depth = depth + 1;
    }
    proof {
        let rest = tried(chain, cur, pos as int, (MAX_CHAIN - depth) as nat);
        if best_len >= MAX_MATCH {
            lemma_longest_stays(c@, pos as int, seen, rest);
        } else {
            assert(seen + rest =~= seen);
        }
    }
    if best_len >= MIN_MATCH {
        (best_off, best_len)
    } else {
        (0, 0)
    }
}

} // verus!
