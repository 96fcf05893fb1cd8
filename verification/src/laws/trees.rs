//! Where symbols stand in their Huffman tree.

use crate::optimal;
use crate::tree;
use crate::tree::{Candidate, HuffmanTree};
use vstd::prelude::*;

verus! {

/// How many steps below the root of the tree that remains the tree of the candidate of rank `r`
/// ends up.
spec fn level(q: Seq<Candidate>, rank: int, steps: nat, r: int) -> nat
    decreases steps,
{
    if steps <= 1 {
        0
    } else {
        let rest = q.remove(tree::lightest(q));
        let next = tree::join_lightest(q, rank);
        if r == q[tree::lightest(q)].rank || r == rest[tree::lightest(rest)].rank {
            1 + level(next, rank + 1, (steps - 1) as nat, rank)
        } else {
            level(next, rank + 1, (steps - 1) as nat, r)
        }
    }
}

/// The position in the queue of the lightest candidate but one.
spec fn second(q: Seq<Candidate>) -> int {
    tree::skipping(tree::lightest(q), tree::lightest(q.remove(tree::lightest(q))))
}

/// The position of candidate `k` after the two lightest have been joined.
spec fn moved(q: Seq<Candidate>, k: int) -> int {
    let (i, j) = (tree::lightest(q), second(q));
    k - (if k > i {
        1int
    } else {
        0int
    }) - (if k > j {
        1int
    } else {
        0int
    })
}

/// What joining the two lightest candidates does.
proof fn lemma_step(q: Seq<Candidate>, rank: int)
    requires
        tree::ranked(q, rank),
        q.len() >= 2,
    ensures
        ({
            let (i, j) = (tree::lightest(q), second(q));
            let next = tree::join_lightest(q, rank);
            let last = next.len() - 1;
            &&& 0 <= i < q.len()
            &&& 0 <= j < q.len()
            &&& i != j
            &&& next.len() == q.len() - 1
            &&& tree::ranked(next, rank + 1)
            &&& next[last] == tree::joined(q[i], q[j], rank)
            &&& q.remove(i)[tree::lightest(q.remove(i))] == q[j]
            &&& forall|k: int| 0 <= k < q.len() && k != i ==> tree::lighter(q[i], #[trigger] q[k])
            &&& forall|k: int|
                0 <= k < q.len() && k != i && k != j ==> tree::lighter(q[j], #[trigger] q[k])
            &&& forall|k: int|
                0 <= k < q.len() && k != i && k != j ==> 0 <= moved(q, k) < last
                    && next[moved(q, k)] == #[trigger] q[k]
        }),
{
    let i = tree::lightest(q);
    let rest = q.remove(i);
    tree::lemma_lightest_exists(q, rank);
    tree::lemma_ranked_remove(q, i, rank);
    tree::lemma_lightest_exists(rest, rank);
    let r = tree::lightest(rest);
    tree::lemma_ranked_remove(rest, r, rank);
    let j = second(q);
    let rest2 = rest.remove(r);
    let next = tree::join_lightest(q, rank);
    assert(next == rest2.push(tree::joined(q[i], rest[r], rank)));
    assert(rest[r] == q[j]);
    assert forall|k: int| 0 <= k < q.len() && k != i && k != j implies tree::lighter(
        q[j],
        #[trigger] q[k],
    ) && 0 <= moved(q, k) < next.len() - 1 && next[moved(q, k)] == q[k] by {
        let m = if k > i {
            k - 1
        } else {
            k
        };
        assert(rest[m] == q[k]);
        assert(m != r);
        assert(tree::lighter(rest[r], rest[m]));
        let p = if m > r {
            m - 1
        } else {
            m
        };
        assert(rest2[p] == rest[m]);
        assert(p == moved(q, k));
    }
}

/// The levels of candidates before and after the two lightest have been joined.
proof fn lemma_level_step(q: Seq<Candidate>, rank: int, k: int)
    requires
        tree::ranked(q, rank),
        q.len() >= 2,
        0 <= k < q.len(),
    ensures
        ({
            let next = tree::join_lightest(q, rank);
            let n = next.len();
            level(q, rank, q.len(), q[k].rank) == if k == tree::lightest(q) || k == second(q) {
                1 + level(next, rank + 1, n, rank)
            } else {
                level(next, rank + 1, n, q[k].rank)
            }
        }),
{
    lemma_step(q, rank);
    let (i, j) = (tree::lightest(q), second(q));
    if k != i {
        assert(q[k].rank != q[i].rank);
    }
    if k != j {
        assert(q[k].rank != q[j].rank);
    }
}

/// A candidate that is joined before another one ends up no higher.
proof fn lemma_lighter_is_deeper(q: Seq<Candidate>, rank: int, x: int, y: int)
    requires
        tree::ranked(q, rank),
        0 <= x < q.len(),
        0 <= y < q.len(),
        x != y,
        tree::lighter(q[x], q[y]),
    ensures
        level(q, rank, q.len(), q[x].rank) >= level(q, rank, q.len(), q[y].rank),
    decreases q.len(),
{
    let (i, j) = (tree::lightest(q), second(q));
    let next = tree::join_lightest(q, rank);
    lemma_step(q, rank);
    lemma_level_step(q, rank, x);
    lemma_level_step(q, rank, y);
    let last = next.len() - 1;
    if y == i {
        assert(tree::lighter(q[i], q[x]));
    } else if y == j {
        if x != i {
            assert(tree::lighter(q[j], q[x]));
        }
    } else if x == i || x == j {
        let m = moved(q, y);
        assert(next[m] == q[y]);
        if tree::lighter(next[last], next[m]) {
            lemma_lighter_is_deeper(next, rank + 1, last, m);
        } else {
            assert(tree::lighter(next[m], next[last]));
            assert forall|p: int, r: int|
                0 <= p < next.len() && 0 <= r < next.len() && p != r && p != last && r
                    != last implies next[last].weight <= (#[trigger] next[p]).weight + (
            #[trigger] next[r]).weight by {
                lemma_rest_is_heavy(q, rank, p);
                lemma_rest_is_heavy(q, rank, r);
            }
            lemma_one_deeper(next, rank + 1, m, last);
        }
    } else {
        assert(next[moved(q, x)] == q[x] && next[moved(q, y)] == q[y]);
        lemma_lighter_is_deeper(next, rank + 1, moved(q, x), moved(q, y));
    }
}

/// What was not joined weighs no less than each of what was.
proof fn lemma_rest_is_heavy(q: Seq<Candidate>, rank: int, p: int)
    requires
        tree::ranked(q, rank),
        q.len() >= 2,
        0 <= p < q.len() - 2,
    ensures
        ({
            let next = tree::join_lightest(q, rank);
            &&& next[p].weight >= q[second(q)].weight
            &&& next[p].weight >= q[tree::lightest(q)].weight
        }),
{
    lemma_step(q, rank);
    let (i, j) = (tree::lightest(q), second(q));
    let next = tree::join_lightest(q, rank);
    let k = lemma_back(q, rank, p);
    assert(next[p] == q[k]);
    assert(tree::lighter(q[j], q[k]));
    assert(tree::lighter(q[i], q[k]));
}

/// Where a candidate that was not joined stood before.
proof fn lemma_back(q: Seq<Candidate>, rank: int, p: int) -> (k: int)
    requires
        tree::ranked(q, rank),
        q.len() >= 2,
        0 <= p < q.len() - 2,
    ensures
        0 <= k < q.len(),
        k != tree::lightest(q),
        k != second(q),
        moved(q, k) == p,
        tree::join_lightest(q, rank)[p] == q[k],
{
    lemma_step(q, rank);
    let (i, j) = (tree::lightest(q), second(q));
    let (a, b) = if i < j {
        (i, j)
    } else {
        (j, i)
    };
    let k = if p < a {
        p
    } else if p < b - 1 {
        p + 1
    } else {
        p + 2
    };
    assert(moved(q, k) == p);
    k
}

/// A candidate that is joined before `c` ends up at most one step lower, where any two others weigh
/// as much as `c`.
proof fn lemma_one_deeper(q: Seq<Candidate>, rank: int, y: int, c: int)
    requires
        tree::ranked(q, rank),
        0 <= y < q.len(),
        0 <= c < q.len(),
        y != c,
        tree::lighter(q[y], q[c]),
        forall|p: int, r: int|
            0 <= p < q.len() && 0 <= r < q.len() && p != r && p != c && r != c ==> q[c].weight <= (
            #[trigger] q[p]).weight + (#[trigger] q[r]).weight,
    ensures
        level(q, rank, q.len(), q[y].rank) <= level(q, rank, q.len(), q[c].rank) + 1,
    decreases q.len(),
{
    let (i, j) = (tree::lightest(q), second(q));
    let next = tree::join_lightest(q, rank);
    lemma_step(q, rank);
    lemma_level_step(q, rank, y);
    lemma_level_step(q, rank, c);
    let last = next.len() - 1;
    if c == i {
        assert(tree::lighter(q[i], q[y]));
    } else if c == j {
        if y != i {
            assert(tree::lighter(q[j], q[y]));
        }
    } else if y == i || y == j {
        let m = moved(q, c);
        assert(next[m] == q[c]);
        assert(q[c].weight <= q[i].weight + q[j].weight);
        assert(q[c].rank < rank);
        assert(tree::lighter(next[m], next[last]));
        lemma_lighter_is_deeper(next, rank + 1, m, last);
    } else {
        let m = moved(q, c);
        assert(next[m] == q[c] && next[moved(q, y)] == q[y]);
        assert forall|p: int, r: int|
            0 <= p < next.len() && 0 <= r < next.len() && p != r && p != m && r
                != m implies next[m].weight <= (#[trigger] next[p]).weight + (
        #[trigger] next[r]).weight by {
            assert(q[c].weight <= q[i].weight + q[j].weight);
            if p != last && r != last {
                let (a, b) = (lemma_back(q, rank, p), lemma_back(q, rank, r));
                assert(q[c].weight <= q[a].weight + q[b].weight);
            }
        }
        lemma_one_deeper(next, rank + 1, moved(q, y), m);
    }
}

/// A candidate `t` that weighs no more than `b` and any other together ends up at most one step
/// higher than `b`.
proof fn lemma_no_higher(q: Seq<Candidate>, rank: int, b: int, t: int)
    requires
        tree::ranked(q, rank),
        0 <= b < q.len(),
        0 <= t < q.len(),
        b != t,
        forall|m: int|
            0 <= m < q.len() && m != b && m != t ==> q[t].weight <= q[b].weight + (
            #[trigger] q[m]).weight,
    ensures
        level(q, rank, q.len(), q[t].rank) + 1 >= level(q, rank, q.len(), q[b].rank),
    decreases q.len(),
{
    if tree::lighter(q[t], q[b]) {
        lemma_lighter_is_deeper(q, rank, t, b);
    } else {
        assert(tree::lighter(q[b], q[t]));
        let (i, j) = (tree::lightest(q), second(q));
        let next = tree::join_lightest(q, rank);
        lemma_step(q, rank);
        lemma_level_step(q, rank, t);
        lemma_level_step(q, rank, b);
        let last = next.len() - 1;
        if t == i {
            assert(tree::lighter(q[i], q[b]));
        } else if t == j {
            if b != i {
                assert(tree::lighter(q[j], q[b]));
            }
        } else if b == i || b == j {
            let m = moved(q, t);
            let other = if b == i {
                j
            } else {
                i
            };
            assert(q[t].weight <= q[b].weight + q[other].weight);
            assert(next[m] == q[t]);
            assert(tree::lighter(next[m], next[last]));
            lemma_lighter_is_deeper(next, rank + 1, m, last);
        } else {
            let (nb, nt) = (moved(q, b), moved(q, t));
            assert(next[nb] == q[b] && next[nt] == q[t]);
            assert forall|m: int| 0 <= m < next.len() && m != nb && m != nt implies next[nt].weight
                <= next[nb].weight + (#[trigger] next[m]).weight by {
                if m == last {
                    assert(q[t].weight <= q[b].weight + q[i].weight);
                } else {
                    let k = lemma_back(q, rank, m);
                    assert(q[t].weight <= q[b].weight + q[k].weight);
                }
            }
            lemma_no_higher(next, rank + 1, nb, nt);
        }
    }
}

/// A candidate that weighs no more than two others together ends up at most one step higher than
/// the heavier of them.
proof fn lemma_before_their_sum(q: Seq<Candidate>, rank: int, a: int, b: int, t: int)
    requires
        tree::ranked(q, rank),
        0 <= a < q.len(),
        0 <= b < q.len(),
        0 <= t < q.len(),
        a != b,
        b != t,
        a != t,
        tree::lighter(q[a], q[b]),
        q[t].weight <= q[a].weight + q[b].weight,
    ensures
        level(q, rank, q.len(), q[t].rank) + 1 >= level(q, rank, q.len(), q[b].rank),
    decreases q.len(),
{
    if tree::lighter(q[t], q[b]) {
        lemma_lighter_is_deeper(q, rank, t, b);
    } else {
        assert(tree::lighter(q[b], q[t]));
        let (i, j) = (tree::lightest(q), second(q));
        let next = tree::join_lightest(q, rank);
        lemma_step(q, rank);
        lemma_level_step(q, rank, t);
        lemma_level_step(q, rank, b);
        let last = next.len() - 1;
        assert(t != i) by {
            if t == i {
                assert(tree::lighter(q[i], q[b]));
            }
        }
        assert(t != j) by {
            if t == j {
                if b != i {
                    assert(tree::lighter(q[j], q[b]));
                } else {
                    assert(tree::lighter(q[i], q[a]));
                }
            }
        }
        let nt = moved(q, t);
        assert(next[nt] == q[t]);
        if b == i || b == j {
            if b == i {
                assert(tree::lighter(q[i], q[a]));
            } else if a != i {
                assert(tree::lighter(q[j], q[a]));
            }
            assert(tree::lighter(next[nt], next[last]));
            lemma_lighter_is_deeper(next, rank + 1, nt, last);
        } else {
            let nb = moved(q, b);
            assert(next[nb] == q[b]);
            if a == i || a == j {
                assert forall|m: int|
                    0 <= m < next.len() && m != nb && m != nt implies next[nt].weight
                    <= next[nb].weight + (#[trigger] next[m]).weight by {
                    if m != last {
                        lemma_rest_is_heavy(q, rank, m);
                    }
                }
                lemma_no_higher(next, rank + 1, nb, nt);
            } else {
                let na = moved(q, a);
                assert(next[na] == q[a]);
                lemma_before_their_sum(next, rank + 1, na, nb, nt);
            }
        }
    }
}

/// A symbol stands as deep as its tree ends up and as it stands in its tree.
proof fn lemma_depth_is_level(q: Seq<Candidate>, rank: int, k: int, s: int)
    requires
        tree::ranked(q, rank),
        optimal::apart(q),
        0 <= k < q.len(),
        q[k].tree.has(s),
    ensures
        tree::huffman_tree(q, rank, q.len()).depth(s) == level(q, rank, q.len(), q[k].rank)
            + q[k].tree.depth(s),
    decreases q.len(),
{
    if q.len() >= 2 {
        let (i, j) = (tree::lightest(q), second(q));
        let next = tree::join_lightest(q, rank);
        lemma_step(q, rank);
        lemma_level_step(q, rank, k);
        let r = tree::lightest(q.remove(i));
        tree::lemma_ranked_remove(q, i, rank);
        tree::lemma_lightest_exists(q.remove(i), rank);
        optimal::lemma_apart_joined(q, i, r, rank);
        let last = next.len() - 1;
        if k == i || k == j {
            assert(!(q[i].tree.has(s) && q[j].tree.has(s)));
            assert(next[last].tree.has(s));
            assert(next[last].tree.depth(s) == 1 + q[k].tree.depth(s));
            lemma_depth_is_level(next, rank + 1, last, s);
        } else {
            assert(next[moved(q, k)] == q[k]);
            lemma_depth_is_level(next, rank + 1, moved(q, k), s);
        }
    }
}

/// The place of a symbol among the leaves.
proof fn lemma_leaf_of(freq: Seq<u32>, s: int, n: nat) -> (k: int)
    requires
        n <= 256,
        freq.len() == 256,
        0 <= s < n,
        freq[s] > 0,
    ensures
        ({
            let q = tree::leaves(freq, n);
            &&& 0 <= k < q.len()
            &&& k == optimal::symbols(freq, s as nat)
            &&& q[k].rank == k
            &&& q[k].weight == freq[s]
            &&& q[k].tree == (HuffmanTree::Leaf { symbol: s })
        }),
    decreases n,
{
    optimal::lemma_leaves_apart(freq, (n - 1) as nat);
    if s == n - 1 {
        tree::leaves(freq, s as nat).len() as int
    } else {
        lemma_leaf_of(freq, s, (n - 1) as nat)
    }
}

proof fn lemma_symbols_grow(freq: Seq<u32>, s: int, t: int)
    requires
        0 <= s < t,
        freq[s] > 0,
    ensures
        optimal::symbols(freq, s as nat) < optimal::symbols(freq, t as nat),
    decreases t,
{
    if s < t - 1 {
        lemma_symbols_grow(freq, s, t - 1);
    }
}

/// Symbol `s` is joined before `t`: it occurs less often, or as often and is the lower one.
pub open spec fn joined_before(freq: Seq<u32>, s: int, t: int) -> bool {
    freq[s] < freq[t] || (freq[s] == freq[t] && s < t)
}

/// Leaves are joined in the order of their symbols.
proof fn lemma_leaf_order(freq: Seq<u32>, s: int, t: int) -> (r: (int, int))
    requires
        freq.len() == 256,
        0 <= s < 256,
        0 <= t < 256,
        s != t,
        freq[s] > 0,
        freq[t] > 0,
    ensures
        ({
            let q = tree::leaves(freq, 256);
            let (x, y) = r;
            &&& 0 <= x < q.len()
            &&& 0 <= y < q.len()
            &&& x != y
            &&& tree::lighter(q[x], q[y]) == joined_before(freq, s, t)
            &&& q[x].weight == freq[s]
            &&& q[y].weight == freq[t]
            &&& q[x].tree == (HuffmanTree::Leaf { symbol: s })
            &&& q[y].tree == (HuffmanTree::Leaf { symbol: t })
            &&& x == optimal::symbols(freq, s as nat)
            &&& y == optimal::symbols(freq, t as nat)
        }),
{
    let x = lemma_leaf_of(freq, s, 256);
    let y = lemma_leaf_of(freq, t, 256);
    if s < t {
        lemma_symbols_grow(freq, s, t);
    } else {
        lemma_symbols_grow(freq, t, s);
    }
    (x, y)
}

/// A symbol that occurs less often than another one, or as often and is the lower of both, stands
/// at least as deep.
pub proof fn law_rare_is_deep(freq: Seq<u32>, s: int, t: int)
    requires
        freq.len() == 256,
        0 <= s < 256,
        0 <= t < 256,
        s != t,
        freq[s] > 0,
        freq[t] > 0,
        joined_before(freq, s, t),
    ensures
        tree::tree_of(freq).depth(s) >= tree::tree_of(freq).depth(t),
{
    let q = tree::leaves(freq, 256);
    let n = q.len() as int;
    let (x, y) = lemma_leaf_order(freq, s, t);
    tree::lemma_leaves(freq, 256);
    optimal::lemma_leaves_apart(freq, 256);
    lemma_lighter_is_deeper(q, n, x, y);
    lemma_depth_is_level(q, n, x, s);
    lemma_depth_is_level(q, n, y, t);
}

/// A symbol is joined before any pair that occurs as often together: where it occurs no more often
/// than two others together, it stands at most one step higher than the more frequent of them.
pub proof fn law_single_before_pair(freq: Seq<u32>, a: int, b: int, t: int)
    requires
        freq.len() == 256,
        0 <= a < 256,
        0 <= b < 256,
        0 <= t < 256,
        a != b,
        b != t,
        a != t,
        freq[a] > 0,
        freq[b] > 0,
        freq[t] > 0,
        joined_before(freq, a, b),
        freq[t] <= freq[a] + freq[b],
    ensures
        tree::tree_of(freq).depth(t) + 1 >= tree::tree_of(freq).depth(b),
{
    let q = tree::leaves(freq, 256);
    let n = q.len() as int;
    let (x, y) = lemma_leaf_order(freq, a, b);
    let (v, z) = lemma_leaf_order(freq, b, t);
    let (w, u) = lemma_leaf_order(freq, a, t);
    tree::lemma_leaves(freq, 256);
    optimal::lemma_leaves_apart(freq, 256);
    lemma_before_their_sum(q, n, x, y, z);
    lemma_depth_is_level(q, n, y, b);
    lemma_depth_is_level(q, n, z, t);
}

} // verus!
