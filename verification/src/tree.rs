//! Huffman trees and the code lengths that are read off them.

use crate::canonical;
use crate::canonical::{MAX_CODE_LEN, WINDOWS};
use vstd::arithmetic::power2::*;
use vstd::prelude::*;

verus! {

/// A binary tree with symbols at its leaves.
pub enum HuffmanTree {
    Leaf { symbol: int },
    Node { left: Box<HuffmanTree>, right: Box<HuffmanTree> },
}

impl HuffmanTree {
    /// Symbol `s` stands at a leaf.
    pub open spec fn has(self, s: int) -> bool
        decreases self,
    {
        match self {
            HuffmanTree::Leaf { symbol } => s == symbol,
            HuffmanTree::Node { left, right } => left.has(s) || right.has(s),
        }
    }

    /// How many steps the leaf of symbol `s` is away from the root.
    pub open spec fn depth(self, s: int) -> nat
        decreases self,
    {
        match self {
            HuffmanTree::Leaf { symbol } => 0,
            HuffmanTree::Node { left, right } => 1 + if left.has(s) {
                left.depth(s)
            } else {
                right.depth(s)
            },
        }
    }
}

/// A tree that waits to be joined with another one. Trees are ranked in the order in which they
/// came up.
pub struct Candidate {
    pub weight: nat,
    pub rank: int,
    pub tree: HuffmanTree,
}

/// Candidate `a` is joined before `b`: it weighs less, or as much and has the lower rank.
pub open spec fn lighter(a: Candidate, b: Candidate) -> bool {
    a.weight < b.weight || (a.weight == b.weight && a.rank < b.rank)
}

/// Candidate `i` is joined before all others.
pub open spec fn is_lightest(queue: Seq<Candidate>, i: int) -> bool {
    &&& 0 <= i < queue.len()
    &&& forall|j: int| 0 <= j < queue.len() && j != i ==> lighter(queue[i], #[trigger] queue[j])
}

/// The position of the candidate that is joined before all others.
pub open spec fn lightest(queue: Seq<Candidate>) -> int {
    choose|i: int| is_lightest(queue, i)
}

/// The queue after the two lightest candidates have been joined into one of rank `rank`.
pub open spec fn join_lightest(queue: Seq<Candidate>, rank: int) -> Seq<Candidate> {
    let first = queue[lightest(queue)];
    let rest = queue.remove(lightest(queue));
    let second = rest[lightest(rest)];
    rest.remove(lightest(rest)).push(joined(first, second, rank))
}

/// Two candidates under one root.
pub open spec fn joined(first: Candidate, second: Candidate, rank: int) -> Candidate {
    Candidate {
        weight: first.weight + second.weight,
        rank,
        tree: HuffmanTree::Node { left: Box::new(first.tree), right: Box::new(second.tree) },
    }
}

/// The tree that remains when the two lightest candidates are joined until only one is left; the
/// next joined candidate gets rank `rank`. (`steps` is the number of candidates.)
pub open spec fn huffman_tree(queue: Seq<Candidate>, rank: int, steps: nat) -> HuffmanTree
    decreases steps,
{
    if steps <= 1 {
        queue[0].tree
    } else {
        huffman_tree(join_lightest(queue, rank), rank + 1, (steps - 1) as nat)
    }
}

/// One leaf for each of the first `n` symbols that occur, in the order of the symbols.
pub open spec fn leaves(freq: Seq<u32>, n: nat) -> Seq<Candidate>
    decreases n,
{
    if n == 0 {
        Seq::empty()
    } else {
        let before = leaves(freq, (n - 1) as nat);
        if freq[n - 1] > 0 {
            before.push(
                Candidate {
                    weight: freq[n - 1] as nat,
                    rank: before.len() as int,
                    tree: HuffmanTree::Leaf { symbol: n - 1 },
                },
            )
        } else {
            before
        }
    }
}

/// The Huffman tree of the symbols that occur.
pub open spec fn tree_of(freq: Seq<u32>) -> HuffmanTree {
    let queue = leaves(freq, 256);
    huffman_tree(queue, queue.len() as int, queue.len())
}

/// The smallest number of bits, at least `from`, that tells `n` symbols apart.
pub open spec fn bits_for(n: nat, from: nat) -> nat
    decreases 16 - from,
{
    if from >= 16 || n <= pow2(from) {
        from
    } else {
        bits_for(n, from + 1)
    }
}

/// Each symbol that occurs gets length `len`.
pub open spec fn uniform_lengths(freq: Seq<u32>, len: nat) -> Seq<u8> {
    Seq::new(
        256,
        |s: int|
            if freq[s] > 0 {
                len as u8
            } else {
                0u8
            },
    )
}

/// Each symbol that occurs gets its depth in the Huffman tree, but no more than the longest code
/// has.
pub open spec fn clamped_lengths(freq: Seq<u32>) -> Seq<u8> {
    Seq::new(
        256,
        |s: int|
            if freq[s] == 0 {
                0u8
            } else if tree_of(freq).depth(s) > MAX_CODE_LEN {
                MAX_CODE_LEN
            } else {
                tree_of(freq).depth(s) as u8
            },
    )
}

/// The code lengths for given symbol frequencies: those of the Huffman tree, unless cutting them
/// to the longest code leaves no prefix code. Then all symbols get codes of one length. A symbol
/// that occurs alone gets a code of one bit.
pub open spec fn huffman_lengths(freq: Seq<u32>) -> Seq<u8> {
    let n = leaves(freq, 256).len();
    if n <= 1 {
        uniform_lengths(freq, 1)
    } else if canonical::kraft(clamped_lengths(freq), 256) > WINDOWS {
        uniform_lengths(freq, bits_for(n, 1))
    } else {
        clamped_lengths(freq)
    }
}

proof fn lemma_lightest_is_unique(queue: Seq<Candidate>, i: int)
    requires
        is_lightest(queue, i),
    ensures
        lightest(queue) == i,
{
    let k = lightest(queue);
    assert(is_lightest(queue, k));
    if k != i {
        assert(lighter(queue[i], queue[k]));
        assert(lighter(queue[k], queue[i]));
    }
}

/// The total weight of the candidates.
pub open spec fn total(queue: Seq<Candidate>) -> nat
    decreases queue.len(),
{
    if queue.len() == 0 {
        0
    } else {
        total(queue.drop_last()) + queue.last().weight
    }
}

proof fn lemma_total_remove(queue: Seq<Candidate>, i: int)
    requires
        0 <= i < queue.len(),
    ensures
        total(queue.remove(i)) + queue[i].weight == total(queue),
    decreases queue.len(),
{
    if i == queue.len() - 1 {
        assert(queue.remove(i) =~= queue.drop_last());
    } else {
        lemma_total_remove(queue.drop_last(), i);
        assert(queue.remove(i).drop_last() =~= queue.drop_last().remove(i));
    }
}

proof fn lemma_total_push(queue: Seq<Candidate>, c: Candidate)
    ensures
        total(queue.push(c)) == total(queue) + c.weight,
{
    assert(queue.push(c).drop_last() =~= queue);
}

/// The executable queue holds the weights and ranks of the candidates.
spec fn mirrors(queue: Seq<(u64, usize)>, q: Seq<Candidate>) -> bool {
    &&& queue.len() == q.len()
    &&& forall|k: int|
        0 <= k < q.len() ==> (#[trigger] queue[k]).0 == q[k].weight && queue[k].1 == q[k].rank
}

/// No two candidates have the same rank, and all ranks are below `next`.
pub open spec fn ranked(q: Seq<Candidate>, next: int) -> bool {
    &&& forall|k: int| 0 <= k < q.len() ==> 0 <= (#[trigger] q[k]).rank < next
    &&& forall|k: int, l: int|
        0 <= k < q.len() && 0 <= l < q.len() && k != l ==> (#[trigger] q[k]).rank != (
        #[trigger] q[l]).rank
}

/// Symbol `s` stands in one of the trees.
pub open spec fn held(q: Seq<Candidate>, s: int) -> bool {
    exists|k: int| 0 <= k < q.len() && (#[trigger] q[k]).tree.has(s)
}

/// For each symbol that occurs, `group` is the rank of the candidate whose tree it stands in, and
/// `depth` is its depth there.
spec fn tracks(q: Seq<Candidate>, freq: Seq<u32>, group: Seq<usize>, depth: Seq<u8>) -> bool {
    &&& forall|k: int, s: int|
        0 <= k < q.len() && #[trigger] q[k].tree.has(s) ==> {
            &&& 0 <= s < 256
            &&& freq[s] > 0
            &&& group[s] == q[k].rank
            &&& depth[s] == q[k].tree.depth(s)
        }
    &&& forall|s: int| 0 <= s < 256 && #[trigger] freq[s] > 0 ==> held(q, s)
}

/// The position of element `k` before the element at `i` was removed.
pub open spec fn skipping(i: int, k: int) -> int {
    if k < i {
        k
    } else {
        k + 1
    }
}

/// The position of element `k` before the element at `i`, and then the one at `j`, was removed.
spec fn origin(i: int, j: int, k: int) -> int {
    skipping(i, skipping(j, k))
}

/// Joining two candidates moves their symbols to a new group and one step away from the root.
proof fn lemma_join_tracks(
    q: Seq<Candidate>,
    i: int,
    j: int,
    next: int,
    freq: Seq<u32>,
    group: Seq<usize>,
    depth: Seq<u8>,
    group2: Seq<usize>,
    depth2: Seq<u8>,
)
    requires
        0 <= i < q.len(),
        0 <= j < q.len() - 1,
        ranked(q, next),
        tracks(q, freq, group, depth),
        forall|s: int|
            0 <= s < 256 && #[trigger] freq[s] > 0 ==> if group[s] == q[i].rank || group[s]
                == q.remove(i)[j].rank {
                group2[s] == next && depth2[s] == depth[s] + 1
            } else {
                group2[s] == group[s] && depth2[s] == depth[s]
            },
    ensures
        ({
            let q2 = q.remove(i).remove(j).push(joined(q[i], q.remove(i)[j], next));
            ranked(q2, next + 1) && tracks(q2, freq, group2, depth2)
        }),
{
    let rest = q.remove(i);
    let a = q[i];
    let b = rest[j];
    let jj = skipping(i, j);
    assert(b == q[jj] && jj != i);
    let c = joined(a, b, next);
    let q2 = rest.remove(j).push(c);
    let n = q2.len() - 1;
    // Each candidate but the last one was in the queue before.
    assert forall|k: int| 0 <= k < n implies #[trigger] q2[k] == q[origin(i, j, k)] by {
        assert(q2[k] == rest[skipping(j, k)]);
    }
    assert forall|k: int| 0 <= k < q2.len() implies 0 <= (#[trigger] q2[k]).rank < next + 1 by {
        if k < n {
            assert(q2[k] == q[origin(i, j, k)]);
        }
    }
    assert forall|k: int, l: int| 0 <= k < q2.len() && 0 <= l < q2.len() && k != l implies (
    #[trigger] q2[k]).rank != (#[trigger] q2[l]).rank by {
        if k < n && l < n {
            assert(q2[k] == q[origin(i, j, k)]);
            assert(q2[l] == q[origin(i, j, l)]);
        }
    }
    assert forall|k: int, s: int| 0 <= k < q2.len() && #[trigger] q2[k].tree.has(s) implies {
        &&& 0 <= s < 256
        &&& freq[s] > 0
        &&& group2[s] == q2[k].rank
        &&& depth2[s] == q2[k].tree.depth(s)
    } by {
        if k < n {
            let m = origin(i, j, k);
            assert(q2[k] == q[m]);
            assert(q[m].tree.has(s));
            assert(group[s] == q[m].rank);
            assert(q[m].rank != q[i].rank && q[m].rank != q[jj].rank);
        } else {
            assert(c.tree.has(s) == (a.tree.has(s) || b.tree.has(s)));
            if a.tree.has(s) {
                assert(q[i].tree.has(s));
                assert(group[s] == q[i].rank);
            } else {
                assert(q[jj].tree.has(s));
                assert(group[s] == q[jj].rank);
            }
        }
    }
    assert forall|s: int| 0 <= s < 256 && #[trigger] freq[s] > 0 implies held(q2, s) by {
        assert(held(q, s));
        let m = choose|m: int| 0 <= m < q.len() && (#[trigger] q[m]).tree.has(s);
        if m == i || m == jj {
            assert(q2[n].tree.has(s));
        } else {
            let r = if m < i {
                m
            } else {
                m - 1
            };
            let k = if r < j {
                r
            } else {
                r - 1
            };
            assert(origin(i, j, k) == m);
            assert(q2[k].tree.has(s));
        }
    }
}

/// The position of the lightest candidate.
fn lightest_index(queue: &Vec<(u64, usize)>, Ghost(q): Ghost<Seq<Candidate>>, Ghost(next): Ghost<
    int,
>) -> (i: usize)
    requires
        queue@.len() > 0,
        mirrors(queue@, q),
        ranked(q, next),
    ensures
        i < queue@.len(),
        i == lightest(q),
        is_lightest(q, i as int),
{
    let mut best: usize = 0;
    let mut k: usize = 1;
    while k < queue.len()
        invariant
            best < k <= queue@.len(),
            mirrors(queue@, q),
            ranked(q, next),
            forall|j: int| 0 <= j < k && j != best ==> lighter(q[best as int], #[trigger] q[j]),
        decreases queue@.len() - k,
    {
        assert(queue@[k as int].1 == q[k as int].rank && queue@[best as int].1
            == q[best as int].rank);
        if queue[k].0 < queue[best].0 || (queue[k].0 == queue[best].0 && queue[k].1
            < queue[best].1) {
            best = k;
        }
        k = k + 1;
    }
    proof {
        lemma_lightest_is_unique(q, best as int);
    }
    best
}

/// What the leaves look like: one for each symbol that occurs, ranked in order.
pub proof fn lemma_leaves(freq: Seq<u32>, n: nat)
    requires
        n <= 256,
        freq.len() == 256,
    ensures
        leaves(freq, n).len() <= n,
        total(leaves(freq, n)) <= n * u32::MAX,
        forall|k: int|
            0 <= k < leaves(freq, n).len() ==> (#[trigger] leaves(freq, n)[k]).rank == k
                && leaves(freq, n)[k].tree is Leaf && 0 <= leaves(freq, n)[k].tree->symbol < n
                && freq[leaves(freq, n)[k].tree->symbol] > 0,
        forall|s: int| 0 <= s < n && #[trigger] freq[s] > 0 ==> held(leaves(freq, n), s),
    decreases n,
{
    if n > 0 {
        let m = (n - 1) as nat;
        lemma_leaves(freq, m);
        let before = leaves(freq, m);
        let now = leaves(freq, n);
        if freq[m as int] > 0 {
            lemma_total_push(before, now.last());
        }
        assert forall|s: int| 0 <= s < n && #[trigger] freq[s] > 0 implies held(now, s) by {
            if s < m {
                assert(held(before, s));
                let k = choose|k: int| 0 <= k < before.len() && (#[trigger] before[k]).tree.has(s);
                assert(now[k].tree.has(s));
            } else {
                assert(now[now.len() - 1].tree.has(s));
            }
        }
    }
}

/// A tree joined from two or more candidates has no leaf at its root.
pub proof fn lemma_joined_tree(queue: Seq<Candidate>, rank: int, steps: nat)
    requires
        steps >= 2,
        ranked(queue, rank),
        queue.len() == steps,
    ensures
        huffman_tree(queue, rank, steps) is Node,
    decreases steps,
{
    lemma_lightest_exists(queue, rank);
    let i = lightest(queue);
    let rest = queue.remove(i);
    lemma_ranked_remove(queue, i, rank);
    lemma_lightest_exists(rest, rank);
    let j = lightest(rest);
    let next = join_lightest(queue, rank);
    if steps == 2 {
        assert(next.len() == 1);
        reveal_with_fuel(huffman_tree, 2);
    } else {
        lemma_ranked_remove(rest, j, rank);
        assert(ranked(next, rank + 1));
        lemma_joined_tree(next, rank + 1, (steps - 1) as nat);
    }
}

/// Removing a candidate leaves the others ranked.
pub proof fn lemma_ranked_remove(q: Seq<Candidate>, i: int, next: int)
    requires
        0 <= i < q.len(),
        ranked(q, next),
    ensures
        ranked(q.remove(i), next),
{
    let rest = q.remove(i);
    assert forall|k: int| 0 <= k < rest.len() implies #[trigger] rest[k] == q[skipping(i, k)] by {}
}

/// One of the candidates is the lightest.
pub proof fn lemma_lightest_exists(q: Seq<Candidate>, next: int)
    requires
        q.len() > 0,
        ranked(q, next),
    ensures
        is_lightest(q, lightest(q)),
    decreases q.len(),
{
    if q.len() == 1 {
        assert(is_lightest(q, 0));
    } else {
        let rest = q.drop_last();
        let last = q.len() - 1;
        lemma_lightest_exists(rest, next);
        let b = lightest(rest);
        assert forall|j: int| 0 <= j < rest.len() implies #[trigger] q[j] == rest[j] by {}
        if lighter(q[b], q[last]) {
            assert(is_lightest(q, b));
        } else {
            assert(lighter(q[last], q[b]));
            assert(is_lightest(q, last));
        }
    }
}

/// `bits_for` bits tell `n` symbols apart.
pub proof fn lemma_bits_for(n: nat, from: nat)
    requires
        n <= 256,
        1 <= from <= 8,
    ensures
        from <= bits_for(n, from) <= 8,
        n <= pow2(bits_for(n, from)),
    decreases 16 - from,
{
    lemma2_to64();
    if from < 8 && n > pow2(from) {
        lemma_bits_for(n, from + 1);
    }
}

proof fn lemma_uniform_kraft(freq: Seq<u32>, len: nat, n: nat)
    requires
        n <= 256,
        freq.len() == 256,
        1 <= len <= 15,
    ensures
        canonical::kraft(uniform_lengths(freq, len), n) == leaves(freq, n).len() * canonical::slots(
            len as u8,
        ),
    decreases n,
{
    if n > 0 {
        lemma_uniform_kraft(freq, len, (n - 1) as nat);
        let c = leaves(freq, (n - 1) as nat).len();
        let k = canonical::slots(len as u8);
        assert((c + 1) * k == c * k + k) by (nonlinear_arith);
    }
}

/// The code lengths are those of a prefix code, and just the symbols that occur have a code.
pub proof fn lemma_huffman_lengths_valid(freq: Seq<u32>)
    requires
        freq.len() == 256,
    ensures
        canonical::valid_lengths(huffman_lengths(freq)),
        forall|s: int|
            0 <= s < 256 ==> (#[trigger] huffman_lengths(freq)[s] > 0 <==> freq[s] > 0),
{
    let queue = leaves(freq, 256);
    let n = queue.len();
    lemma_leaves(freq, 256);
    lemma_bits_for(n, 1);
    lemma2_to64();
    if n <= 1 {
        lemma_uniform_kraft(freq, 1, 256);
        assert(n * 16384 <= 32768) by (nonlinear_arith)
            requires
                n <= 1,
        ;
    } else if canonical::kraft(clamped_lengths(freq), 256) > WINDOWS {
        let b = bits_for(n, 1);
        lemma_uniform_kraft(freq, b, 256);
        canonical::lemma_slots_share(b as u8);
        let k = canonical::slots(b as u8);
        let p = pow2(b);
        assert(n * k <= p * k) by (nonlinear_arith)
            requires
                n <= p,
        ;
    } else {
        lemma_joined_tree(queue, n as int, n);
    }
}

/// The code lengths of a Huffman code for symbols that occur `freq` times.
pub fn compute_huffman_lengths(freq: &[u32; 256]) -> (lengths: [u8; 256])
    ensures
        lengths@ == huffman_lengths(freq@),
        canonical::valid_lengths(lengths@),
        forall|s: int| 0 <= s < 256 ==> (#[trigger] lengths@[s] > 0 <==> freq@[s] > 0),
{
    let mut queue: Vec<(u64, usize)> = Vec::new();
    let mut group: [usize; 256] = [0usize; 256];
    let mut depth: [u8; 256] = [0u8; 256];
    let mut s: usize = 0;
    while s < 256
        invariant
            s <= 256,
            mirrors(queue@, leaves(freq@, s as nat)),
            forall|k: int|
                0 <= k < queue@.len() ==> group@[(
                #[trigger] leaves(freq@, s as nat)[k]).tree->symbol] == k,
            forall|t: int| 0 <= t < 256 ==> #[trigger] depth@[t] == 0,
        decreases 256 - s,
    {
        proof {
            lemma_leaves(freq@, s as nat);
        }
        let ghost before = leaves(freq@, s as nat);
        if freq[s] > 0 {
            group[s] = queue.len();
            queue.push((freq[s] as u64, queue.len()));
        }
        s = s + 1;
        proof {
            let now = leaves(freq@, s as nat);
            assert forall|k: int| 0 <= k < queue@.len() implies group@[(
            #[trigger] now[k]).tree->symbol] == k by {
                if k < before.len() {
                    assert(now[k] == before[k]);
                }
            }
        }
    }
    proof {
        lemma_huffman_lengths_valid(freq@);
        lemma_leaves(freq@, 256);
        lemma2_to64();
    }
    let count: usize = queue.len();
    let mut next: usize = count;
    let ghost mut q = leaves(freq@, 256);
    proof {
        assert forall|k: int, t: int| 0 <= k < q.len() && #[trigger] q[k].tree.has(t) implies {
            &&& 0 <= t < 256
            &&& freq@[t] > 0
            &&& group@[t] == q[k].rank
            &&& depth@[t] == q[k].tree.depth(t)
        } by {
            assert(q[k].tree is Leaf);
            assert(group@[q[k].tree->symbol] == k);
        }
    }
    while queue.len() > 1
        invariant
            count <= 256,
            queue@.len() + next == 2 * count,
            count > 0 ==> queue@.len() >= 1,
            mirrors(queue@, q),
            ranked(q, next as int),
            total(q) <= 256 * u32::MAX,
            tracks(q, freq@, group@, depth@),
            forall|t: int| 0 <= t < 256 ==> #[trigger] depth@[t] <= next - count,
            huffman_tree(q, next as int, q.len()) == tree_of(freq@),
        decreases queue@.len(),
    {
        let i: usize = lightest_index(&queue, Ghost(q), Ghost(next as int));
        let ghost rest = q.remove(i as int);
        proof {
            lemma_total_remove(q, i as int);
            lemma_ranked_remove(q, i as int, next as int);
            assert(queue@[i as int].0 == q[i as int].weight);
        }
        let ghost queue0 = queue@;
        let a: (u64, usize) = queue.remove(i);
        proof {
            assert forall|k: int| 0 <= k < rest.len() implies (#[trigger] queue@[k]).0
                == rest[k].weight && queue@[k].1 == rest[k].rank by {
                assert(queue@[k] == queue0[skipping(i as int, k)]);
                assert(rest[k] == q[skipping(i as int, k)]);
            }
        }
        let j: usize = lightest_index(&queue, Ghost(rest), Ghost(next as int));
        proof {
            lemma_total_remove(rest, j as int);
            assert(queue@[j as int].0 == rest[j as int].weight);
        }
        let ghost queue1 = queue@;
        let b: (u64, usize) = queue.remove(j);
        queue.push((a.0 + b.0, next));
        let ghost group0 = group@;
        let ghost depth0 = depth@;
        let mut s: usize = 0;
        while s < 256
            invariant
                s <= 256,
                forall|t: int|
                    0 <= t < 256 ==> #[trigger] group@[t] == if t < s && freq@[t] > 0 && (group0[t]
                        == a.1 || group0[t] == b.1) {
                        next
                    } else {
                        group0[t]
                    },
                forall|t: int|
                    0 <= t < 256 ==> #[trigger] depth@[t] == depth0[t] + if t < s && freq@[t] > 0
                        && (group0[t] == a.1 || group0[t] == b.1) {
                        1int
                    } else {
                        0int
                    },
                forall|t: int| 0 <= t < 256 ==> #[trigger] depth0[t] < 255,
                group0.len() == 256,
                depth0.len() == 256,
            decreases 256 - s,
        {
            if freq[s] > 0 && (group[s] == a.1 || group[s] == b.1) {
                assert(group@[s as int] == group0[s as int]);
                assert(depth0[s as int] < 255);
                depth[s] = depth[s] + 1;
                group[s] = next;
            }
            s = s + 1;
        }
        proof {
            let q2 = join_lightest(q, next as int);
            lemma_join_tracks(
                q,
                i as int,
                j as int,
                next as int,
                freq@,
                group0,
                depth0,
                group@,
                depth@,
            );
            lemma_total_push(rest.remove(j as int), q2.last());
            assert forall|k: int| 0 <= k < q2.len() implies (#[trigger] queue@[k]).0
                == q2[k].weight && queue@[k].1 == q2[k].rank by {
                if k < q2.len() - 1 {
                    assert(queue@[k] == queue1[skipping(j as int, k)]);
                    assert(q2[k] == rest[skipping(j as int, k)]);
                }
            }
            q = q2;
        }
        next = next + 1;
    }
    let mut lengths: [u8; 256] = [0u8; 256];
    let mut s: usize = 0;
    while s < 256
        invariant
            s <= 256,
            count <= 256,
            count == leaves(freq@, 256).len(),
            count >= 2 ==> {
                &&& q.len() == 1
                &&& q[0].tree == tree_of(freq@)
                &&& tracks(q, freq@, group@, depth@)
            },
            forall|t: int|
                0 <= t < 256 ==> #[trigger] lengths@[t] == if t < s {
                    if count >= 2 {
                        clamped_lengths(freq@)[t]
                    } else {
                        uniform_lengths(freq@, 1)[t]
                    }
                } else {
                    0u8
                },
        decreases 256 - s,
    {
        if freq[s] > 0 {
            if count >= 2 {
                assert(held(q, s as int));
                lengths[s] = if depth[s] > MAX_CODE_LEN {
                    MAX_CODE_LEN
                } else {
                    depth[s]
                };
            } else {
                lengths[s] = 1;
            }
        }
        s = s + 1;
    }
    if count < 2 {
        assert(lengths@ =~= uniform_lengths(freq@, 1));
        return lengths;
    }
    assert(lengths@ =~= clamped_lengths(freq@));
    if canonical::kraft_sum(&lengths) > 32768 {
        let mut bits: u8 = 1;
        let mut capacity: usize = 2;
        while capacity < count
            invariant
                count <= 256,
                1 <= bits <= 8,
                capacity == pow2(bits as nat),
                bits_for(count as nat, 1) == bits_for(count as nat, bits as nat),
            decreases 8 - bits,
        {
            proof {
                lemma2_to64();
                lemma_pow2_unfold((bits + 1) as nat);
            }
            capacity = capacity * 2;
            bits = bits + 1;
        }
        let mut s: usize = 0;
        while s < 256
            invariant
                s <= 256,
                forall|t: int|
                    0 <= t < 256 ==> #[trigger] lengths@[t] == if t < s && freq@[t] > 0 {
                        bits
                    } else {
                        clamped_lengths(freq@)[t]
                    },
            decreases 256 - s,
        {
            if freq[s] > 0 {
                lengths[s] = bits;
            }
            s = s + 1;
        }
        assert(lengths@ =~= uniform_lengths(freq@, bits as nat));
    }
    lengths
}

} // verus!
