//! Huffman codes are the shortest: no prefix code writes the same symbols with fewer bits.

use crate::canonical;
use crate::canonical::WINDOWS;
use crate::tree;
use crate::tree::{Candidate, HuffmanTree};
use vstd::arithmetic::power2::*;
use vstd::prelude::*;

verus! {

/// The sum of `f` over candidates.
pub open spec fn sum_of(q: Seq<Candidate>, f: spec_fn(Candidate) -> int) -> int
    decreases q.len(),
{
    if q.len() == 0 {
        0
    } else {
        sum_of(q.drop_last(), f) + f(q.last())
    }
}

proof fn lemma_sum_push(q: Seq<Candidate>, c: Candidate, f: spec_fn(Candidate) -> int)
    ensures
        sum_of(q.push(c), f) == sum_of(q, f) + f(c),
{
    assert(q.push(c).drop_last() =~= q);
}

proof fn lemma_sum_remove(q: Seq<Candidate>, i: int, f: spec_fn(Candidate) -> int)
    requires
        0 <= i < q.len(),
    ensures
        sum_of(q, f) == sum_of(q.remove(i), f) + f(q[i]),
    decreases q.len(),
{
    if i == q.len() - 1 {
        assert(q.remove(i) =~= q.drop_last());
    } else {
        lemma_sum_remove(q.drop_last(), i, f);
        assert(q.remove(i).drop_last() =~= q.drop_last().remove(i));
    }
}

/// Sums of `f` are `k` times those of `g` where that holds of each candidate.
proof fn lemma_sum_times(
    q: Seq<Candidate>,
    f: spec_fn(Candidate) -> int,
    g: spec_fn(Candidate) -> int,
    k: int,
)
    requires
        forall|i: int| 0 <= i < q.len() ==> f(#[trigger] q[i]) == k * g(q[i]),
    ensures
        sum_of(q, f) == k * sum_of(q, g),
    decreases q.len(),
{
    if q.len() > 0 {
        let rest = q.drop_last();
        assert forall|i: int| 0 <= i < rest.len() implies f(#[trigger] rest[i]) == k * g(rest[i]) by {
            assert(rest[i] == q[i]);
        }
        lemma_sum_times(rest, f, g, k);
        let (x, y) = (sum_of(rest, g), g(q.last()));
        assert(f(q[q.len() - 1]) == k * y);
        assert(k * (x + y) == k * x + k * y) by (nonlinear_arith);
    }
}

/// Sums of functions that agree on the candidates.
proof fn lemma_sum_same(
    q: Seq<Candidate>,
    f: spec_fn(Candidate) -> int,
    g: spec_fn(Candidate) -> int,
)
    requires
        forall|i: int| 0 <= i < q.len() ==> f(#[trigger] q[i]) == g(q[i]),
    ensures
        sum_of(q, f) == sum_of(q, g),
{
    lemma_sum_times(q, f, g, 1);
}

/// How much of the codes of length `top` starts with a code of the level of a candidate. Levels
/// are given by rank.
spec fn slot(l: Map<int, nat>, top: nat) -> spec_fn(Candidate) -> int {
    |c: Candidate| pow2((top - l[c.rank]) as nat) as int
}

/// The number of bits for a candidate whose code has the length of its level.
spec fn bits(l: Map<int, nat>) -> spec_fn(Candidate) -> int {
    |c: Candidate| (c.weight * l[c.rank]) as int
}

/// No level is below `top`.
spec fn within(q: Seq<Candidate>, l: Map<int, nat>, top: nat) -> bool {
    forall|k: int| 0 <= k < q.len() ==> l[(#[trigger] q[k]).rank] <= top
}

/// What all joins weigh together.
pub open spec fn join_cost(q: Seq<Candidate>, rank: int, steps: nat) -> nat
    decreases steps,
{
    if steps <= 1 {
        0
    } else {
        let first = q[tree::lightest(q)];
        let rest = q.remove(tree::lightest(q));
        let second = rest[tree::lightest(rest)];
        first.weight + second.weight + join_cost(
            tree::join_lightest(q, rank),
            rank + 1,
            (steps - 1) as nat,
        )
    }
}

/// What changes where the level of one candidate changes.
proof fn lemma_change(
    q: Seq<Candidate>,
    next: int,
    l: Map<int, nat>,
    top: nat,
    i: int,
    v: nat,
)
    requires
        tree::ranked(q, next),
        0 <= i < q.len(),
    ensures
        ({
            let l2 = l.insert(q[i].rank, v);
            &&& forall|k: int| 0 <= k < q.len() && k != i ==> l2[(#[trigger] q[k]).rank] == l[q[k].rank]
            &&& sum_of(q, slot(l2, top)) == sum_of(q, slot(l, top)) - slot(l, top)(q[i]) + slot(
                l2,
                top,
            )(q[i])
            &&& sum_of(q, bits(l2)) == sum_of(q, bits(l)) - q[i].weight * l[q[i].rank] + q[i].weight
                * v
        }),
{
    let l2 = l.insert(q[i].rank, v);
    let rest = q.remove(i);
    assert forall|k: int| 0 <= k < q.len() && k != i implies l2[(#[trigger] q[k]).rank]
        == l[q[k].rank] by {
        assert(q[k].rank != q[i].rank);
    }
    assert forall|k: int| 0 <= k < rest.len() implies l2[(#[trigger] rest[k]).rank]
        == l[rest[k].rank] by {
        assert(rest[k] == q[tree::skipping(i, k)]);
    }
    lemma_sum_remove(q, i, slot(l, top));
    lemma_sum_remove(q, i, slot(l2, top));
    lemma_sum_same(rest, slot(l, top), slot(l2, top));
    lemma_sum_remove(q, i, bits(l));
    lemma_sum_remove(q, i, bits(l2));
    lemma_sum_same(rest, bits(l), bits(l2));
}

/// A lighter candidate trades places with one at the lowest level, which costs nothing.
proof fn lemma_trade(q: Seq<Candidate>, next: int, l: Map<int, nat>, top: nat, i: int, x: int) -> (l2:
    Map<int, nat>)
    requires
        tree::ranked(q, next),
        within(q, l, top),
        0 <= i < q.len(),
        0 <= x < q.len(),
        i != x,
        l[q[x].rank] == top,
        q[i].weight <= q[x].weight,
    ensures
        within(q, l2, top),
        l2[q[i].rank] == top,
        forall|k: int|
            0 <= k < q.len() && k != i && k != x ==> l2[(#[trigger] q[k]).rank] == l[q[k].rank],
        sum_of(q, slot(l2, top)) == sum_of(q, slot(l, top)),
        sum_of(q, bits(l2)) <= sum_of(q, bits(l)),
{
    let v = l[q[i].rank];
    let l1 = l.insert(q[i].rank, top);
    let l2 = l1.insert(q[x].rank, v);
    assert(q[i].rank != q[x].rank);
    lemma_change(q, next, l, top, i, top);
    lemma_change(q, next, l1, top, x, v);
    let (a, b) = (q[i].weight, q[x].weight);
    assert(a * top + b * v <= a * v + b * top) by (nonlinear_arith)
        requires
            a <= b,
            v <= top,
    ;
    l2
}

/// There are at least as many codes of length `top` as candidates.
proof fn lemma_room_for_each(q: Seq<Candidate>, l: Map<int, nat>, top: nat)
    ensures
        sum_of(q, slot(l, top)) >= q.len(),
    decreases q.len(),
{
    if q.len() > 0 {
        lemma_room_for_each(q.drop_last(), l, top);
        lemma_pow2_pos((top - l[q.last().rank]) as nat);
    }
}

/// Where no candidate is at level `top`, that level can be left out.
proof fn lemma_lower(q: Seq<Candidate>, l: Map<int, nat>, top: nat)
    requires
        top >= 1,
        within(q, l, (top - 1) as nat),
    ensures
        sum_of(q, slot(l, top)) == 2 * sum_of(q, slot(l, (top - 1) as nat)),
{
    let below = (top - 1) as nat;
    assert forall|k: int| 0 <= k < q.len() implies slot(l, top)(#[trigger] q[k]) == 2 * slot(
        l,
        below,
    )(q[k]) by {
        lemma_pow2_unfold((top - l[q[k].rank]) as nat);
    }
    lemma_sum_times(q, slot(l, top), slot(l, below), 2);
}

/// Joining the lightest candidates weighs no more than any levels that leave room for all.
proof fn lemma_joins_are_cheapest(q: Seq<Candidate>, rank: int, l: Map<int, nat>, top: nat)
    requires
        tree::ranked(q, rank),
        q.len() >= 1,
        within(q, l, top),
        sum_of(q, slot(l, top)) <= pow2(top),
    ensures
        join_cost(q, rank, q.len()) <= sum_of(q, bits(l)),
    decreases q.len(), top, 1int,
{
    if q.len() == 1 {
        lemma_bits_positive(q, l);
    } else {
        lemma_room_for_each(q, l, top);
        lemma2_to64();
        lemma_pow2_unfold(top);
        let below = (top - 1) as nat;
        if within(q, l, below) {
            lemma_lower(q, l, top);
            lemma_joins_are_cheapest(q, rank, l, below);
        } else {
            let x = choose|x: int| 0 <= x < q.len() && l[(#[trigger] q[x]).rank] > below;
            assert(l[q[x].rank] == top);
            if exists|y: int| 0 <= y < q.len() && y != x && l[(#[trigger] q[y]).rank] == top {
                let y = choose|y: int|
                    0 <= y < q.len() && y != x && l[(#[trigger] q[y]).rank] == top;
                lemma_join_two(q, rank, l, top, x, y);
            } else {
                lemma_lift_one(q, rank, l, top, x);
                lemma_joins_are_cheapest(q, rank, l.insert(q[x].rank, below), below);
            }
        }
    }
}

proof fn lemma_bits_positive(q: Seq<Candidate>, l: Map<int, nat>)
    ensures
        sum_of(q, bits(l)) >= 0,
    decreases q.len(),
{
    if q.len() > 0 {
        lemma_bits_positive(q.drop_last(), l);
        let c = q.last();
        assert(c.weight * l[c.rank] >= 0) by (nonlinear_arith)
            requires
                c.weight >= 0,
                l[c.rank] >= 0,
        ;
    }
}

/// A candidate that is alone at level `top` can be lifted.
proof fn lemma_lift_one(q: Seq<Candidate>, rank: int, l: Map<int, nat>, top: nat, x: int)
    requires
        tree::ranked(q, rank),
        top >= 1,
        within(q, l, top),
        0 <= x < q.len(),
        l[q[x].rank] == top,
        forall|y: int| 0 <= y < q.len() && y != x ==> l[(#[trigger] q[y]).rank] != top,
        sum_of(q, slot(l, top)) <= pow2(top),
    ensures
        ({
            let below = (top - 1) as nat;
            let l2 = l.insert(q[x].rank, below);
            &&& within(q, l2, below)
            &&& sum_of(q, slot(l2, below)) <= pow2(below)
            &&& sum_of(q, bits(l2)) <= sum_of(q, bits(l))
        }),
{
    let below = (top - 1) as nat;
    let l2 = l.insert(q[x].rank, below);
    let rest = q.remove(x);
    lemma2_to64();
    lemma_pow2_unfold(top);
    lemma_change(q, rank, l, top, x, below);
    lemma_sum_remove(q, x, slot(l, top));
    assert forall|k: int| 0 <= k < rest.len() implies l[(#[trigger] rest[k]).rank] <= below by {
        assert(rest[k] == q[tree::skipping(x, k)]);
    }
    lemma_lower(rest, l, top);
    lemma_lower(q, l2, top);
    let w = q[x].weight;
    assert(w * below <= w * top) by (nonlinear_arith)
        requires
            below <= top,
    ;
}

/// Levels at which the two lightest candidates, `i` and `j`, are at level `top`, and which cost no
/// more.
proof fn lemma_lightest_at_top(
    q: Seq<Candidate>,
    rank: int,
    l: Map<int, nat>,
    top: nat,
    x: int,
    y: int,
    i: int,
    j: int,
) -> (l2: Map<int, nat>)
    requires
        tree::ranked(q, rank),
        within(q, l, top),
        0 <= x < q.len(),
        0 <= y < q.len(),
        x != y,
        l[q[x].rank] == top,
        l[q[y].rank] == top,
        0 <= i < q.len(),
        0 <= j < q.len(),
        i != j,
        forall|k: int| 0 <= k < q.len() ==> q[i].weight <= (#[trigger] q[k]).weight,
        forall|k: int| 0 <= k < q.len() && k != i ==> q[j].weight <= (#[trigger] q[k]).weight,
    ensures
        within(q, l2, top),
        l2[q[i].rank] == top,
        l2[q[j].rank] == top,
        sum_of(q, slot(l2, top)) == sum_of(q, slot(l, top)),
        sum_of(q, bits(l2)) <= sum_of(q, bits(l)),
{
    let at_top = l[q[i].rank] == top;
    let l1 = if at_top {
        l
    } else {
        lemma_trade(q, rank, l, top, i, x)
    };
    let z = if at_top && x != i {
        x
    } else {
        y
    };
    assert(z != i && l1[q[z].rank] == top);
    if l1[q[j].rank] == top {
        l1
    } else {
        lemma_trade(q, rank, l1, top, j, z)
    }
}

/// Two candidates at level `top` are joined into one at the level above.
proof fn lemma_joined_levels(
    q: Seq<Candidate>,
    rank: int,
    l: Map<int, nat>,
    top: nat,
    i: int,
    j: int,
)
    requires
        tree::ranked(q, rank),
        top >= 1,
        within(q, l, top),
        0 <= i < q.len(),
        0 <= j < q.len() - 1,
        l[q[i].rank] == top,
        l[q.remove(i)[j].rank] == top,
    ensures
        ({
            let first = q[i];
            let second = q.remove(i)[j];
            let q2 = q.remove(i).remove(j).push(tree::joined(first, second, rank));
            let l2 = l.insert(rank, (top - 1) as nat);
            &&& tree::ranked(q2, rank + 1)
            &&& within(q2, l2, top)
            &&& sum_of(q2, slot(l2, top)) == sum_of(q, slot(l, top))
            &&& sum_of(q2, bits(l2)) == sum_of(q, bits(l)) - first.weight - second.weight
        }),
{
    let rest = q.remove(i);
    let rest2 = rest.remove(j);
    let (first, second) = (q[i], rest[j]);
    let c = tree::joined(first, second, rank);
    let q2 = rest2.push(c);
    let below = (top - 1) as nat;
    let l2 = l.insert(rank, below);
    tree::lemma_ranked_remove(q, i, rank);
    tree::lemma_ranked_remove(rest, j, rank);
    assert forall|k: int| 0 <= k < rest2.len() implies l2[(#[trigger] rest2[k]).rank]
        == l[rest2[k].rank] && l[rest2[k].rank] <= top by {
        assert(rest2[k] == rest[tree::skipping(j, k)]);
        assert(rest2[k] == q[tree::skipping(i, tree::skipping(j, k))]);
    }
    assert(within(q2, l2, top)) by {
        assert forall|k: int| 0 <= k < q2.len() implies l2[(#[trigger] q2[k]).rank] <= top by {
            if k < rest2.len() {
                assert(q2[k] == rest2[k]);
            }
        }
    }
    lemma2_to64();
    lemma_sum_remove(q, i, slot(l, top));
    lemma_sum_remove(rest, j, slot(l, top));
    lemma_sum_same(rest2, slot(l, top), slot(l2, top));
    lemma_sum_push(rest2, c, slot(l2, top));
    lemma_sum_remove(q, i, bits(l));
    lemma_sum_remove(rest, j, bits(l));
    lemma_sum_same(rest2, bits(l), bits(l2));
    lemma_sum_push(rest2, c, bits(l2));
    let (v, w) = (first.weight, second.weight);
    assert((v + w) * below == v * top + w * top - v - w) by (nonlinear_arith)
        requires
            below == top - 1,
    ;
}

/// The case of two candidates at level `top`: the two lightest may be there, and are joined.
proof fn lemma_join_two(q: Seq<Candidate>, rank: int, l: Map<int, nat>, top: nat, x: int, y: int)
    requires
        tree::ranked(q, rank),
        q.len() >= 2,
        top >= 1,
        within(q, l, top),
        sum_of(q, slot(l, top)) <= pow2(top),
        0 <= x < q.len(),
        0 <= y < q.len(),
        x != y,
        l[q[x].rank] == top,
        l[q[y].rank] == top,
    ensures
        join_cost(q, rank, q.len()) <= sum_of(q, bits(l)),
    decreases q.len(), top, 0int,
{
    let i = tree::lightest(q);
    let rest = q.remove(i);
    tree::lemma_lightest_exists(q, rank);
    tree::lemma_ranked_remove(q, i, rank);
    tree::lemma_lightest_exists(rest, rank);
    let j = tree::lightest(rest);
    let jj = tree::skipping(i, j);
    assert(rest[j] == q[jj]);
    assert forall|k: int| 0 <= k < q.len() implies q[i].weight <= (#[trigger] q[k]).weight by {
        if k != i {
            assert(tree::lighter(q[i], q[k]));
        }
    }
    assert forall|k: int| 0 <= k < q.len() && k != i implies q[jj].weight <= (
    #[trigger] q[k]).weight by {
        let r = if k < i {
            k
        } else {
            k - 1
        };
        assert(rest[r] == q[k]);
        if r != j {
            assert(tree::lighter(rest[j], rest[r]));
        }
    }
    let l2 = lemma_lightest_at_top(q, rank, l, top, x, y, i, jj);
    lemma_joined_levels(q, rank, l2, top, i, j);
    let next = tree::join_lightest(q, rank);
    lemma_joins_are_cheapest(next, rank + 1, l2.insert(rank, (top - 1) as nat), top);
}

/// The symbol of a leaf.
spec fn symbol_of(c: Candidate) -> int {
    match c.tree {
        HuffmanTree::Leaf { symbol } => symbol,
        _ => 0,
    }
}

/// What the symbols of a tree weigh together.
spec fn weight_of(t: HuffmanTree, freq: Seq<u32>) -> nat
    decreases t,
{
    match t {
        HuffmanTree::Leaf { symbol } => freq[symbol] as nat,
        HuffmanTree::Node { left, right } => weight_of(*left, freq) + weight_of(*right, freq),
    }
}

/// What all joins that made a tree weigh together.
spec fn cost_of(t: HuffmanTree, freq: Seq<u32>) -> nat
    decreases t,
{
    match t {
        HuffmanTree::Leaf { symbol } => 0,
        HuffmanTree::Node { left, right } => cost_of(*left, freq) + cost_of(*right, freq)
            + weight_of(*left, freq) + weight_of(*right, freq),
    }
}

/// The weight of those of the first `n` symbols that stand in a tree.
spec fn symbol_weight(t: HuffmanTree, freq: Seq<u32>, n: nat) -> nat
    decreases n,
{
    if n == 0 {
        0
    } else {
        symbol_weight(t, freq, (n - 1) as nat) + if t.has(n - 1) {
            freq[n - 1] as nat
        } else {
            0nat
        }
    }
}

/// The bits that those of the first `n` symbols that stand in a tree take, each with a code as
/// long as its way from the root.
spec fn symbol_bits(t: HuffmanTree, freq: Seq<u32>, n: nat) -> nat
    decreases n,
{
    if n == 0 {
        0
    } else {
        symbol_bits(t, freq, (n - 1) as nat) + if t.has(n - 1) {
            freq[n - 1] as nat * t.depth(n - 1)
        } else {
            0nat
        }
    }
}

proof fn lemma_symbols_of_node(
    left: HuffmanTree,
    right: HuffmanTree,
    t: HuffmanTree,
    freq: Seq<u32>,
    n: nat,
)
    requires
        t == (HuffmanTree::Node { left: Box::new(left), right: Box::new(right) }),
    ensures
        symbol_weight(t, freq, n) <= symbol_weight(left, freq, n) + symbol_weight(right, freq, n),
        symbol_bits(t, freq, n) <= symbol_bits(left, freq, n) + symbol_bits(right, freq, n)
            + symbol_weight(left, freq, n) + symbol_weight(right, freq, n),
    decreases n,
{
    if n > 0 {
        let s = n - 1;
        lemma_symbols_of_node(left, right, t, freq, s as nat);
        let f = freq[s] as nat;
        let (a, b) = (left.depth(s), right.depth(s));
        assert(f * (1 + a) == f + f * a) by (nonlinear_arith);
        assert(f * (1 + b) == f + f * b) by (nonlinear_arith);
        assert(f * a >= 0 && f * b >= 0) by (nonlinear_arith);
    }
}

proof fn lemma_symbols_of_leaf(symbol: int, freq: Seq<u32>, n: nat)
    ensures
        symbol_weight(HuffmanTree::Leaf { symbol }, freq, n) == if 0 <= symbol < n {
            freq[symbol] as nat
        } else {
            0
        },
        symbol_bits(HuffmanTree::Leaf { symbol }, freq, n) == 0,
    decreases n,
{
    if n > 0 {
        lemma_symbols_of_leaf(symbol, freq, (n - 1) as nat);
        let f = freq[n - 1] as nat;
        assert(f * 0 == 0) by (nonlinear_arith);
    }
}

/// The symbols of a tree take no more bits than its joins weigh.
proof fn lemma_symbol_bits(t: HuffmanTree, freq: Seq<u32>, n: nat)
    ensures
        symbol_weight(t, freq, n) <= weight_of(t, freq),
        symbol_bits(t, freq, n) <= cost_of(t, freq),
    decreases t,
{
    match t {
        HuffmanTree::Leaf { symbol } => {
            lemma_symbols_of_leaf(symbol, freq, n);
        },
        HuffmanTree::Node { left, right } => {
            lemma_symbol_bits(*left, freq, n);
            lemma_symbol_bits(*right, freq, n);
            lemma_symbols_of_node(*left, *right, t, freq, n);
        },
    }
}

/// The trees of candidates have their weights.
spec fn weighed(q: Seq<Candidate>, freq: Seq<u32>) -> bool {
    forall|k: int| 0 <= k < q.len() ==> weight_of((#[trigger] q[k]).tree, freq) == q[k].weight
}

spec fn tree_cost(freq: Seq<u32>) -> spec_fn(Candidate) -> int {
    |c: Candidate| cost_of(c.tree, freq) as int
}

/// The tree that remains of candidates holds their symbols, and its joins weigh what theirs do and
/// what the joins that are still to come do.
#[verifier::rlimit(40)]
proof fn lemma_tree_cost(q: Seq<Candidate>, rank: int, freq: Seq<u32>)
    requires
        tree::ranked(q, rank),
        q.len() >= 1,
        weighed(q, freq),
    ensures
        cost_of(tree::huffman_tree(q, rank, q.len()), freq) == join_cost(q, rank, q.len())
            + sum_of(q, tree_cost(freq)),
        forall|s: int|
            #[trigger] tree::held(q, s) ==> tree::huffman_tree(q, rank, q.len()).has(s),
    decreases q.len(),
{
    if q.len() == 1 {
        reveal_with_fuel(sum_of, 2);
    } else {
        let i = tree::lightest(q);
        let rest = q.remove(i);
        tree::lemma_lightest_exists(q, rank);
        tree::lemma_ranked_remove(q, i, rank);
        tree::lemma_lightest_exists(rest, rank);
        let j = tree::lightest(rest);
        tree::lemma_ranked_remove(rest, j, rank);
        let rest2 = rest.remove(j);
        let c = tree::joined(q[i], rest[j], rank);
        let next = rest2.push(c);
        assert(next == tree::join_lightest(q, rank));
        assert(rest[j] == q[tree::skipping(i, j)]);
        assert forall|k: int| 0 <= k < next.len() implies weight_of((#[trigger] next[k]).tree, freq)
            == next[k].weight by {
            if k < rest2.len() {
                assert(next[k] == q[tree::skipping(i, tree::skipping(j, k))]);
            }
        }
        lemma_tree_cost(next, rank + 1, freq);
        lemma_sum_remove(q, i, tree_cost(freq));
        lemma_sum_remove(rest, j, tree_cost(freq));
        lemma_sum_push(rest2, c, tree_cost(freq));
        assert forall|s: int| #[trigger] tree::held(q, s) implies tree::held(next, s) by {
            let m = choose|m: int| 0 <= m < q.len() && (#[trigger] q[m]).tree.has(s);
            let r = if m < i {
                m
            } else {
                m - 1
            };
            if m == i || r == j {
                assert(next[rest2.len() as int].tree.has(s));
            } else {
                let k = if r < j {
                    r
                } else {
                    r - 1
                };
                assert(next[k] == q[m]);
            }
        }
    }
}

/// The bits that the first `n` symbols take with codes of the given lengths.
pub open spec fn bits_spent(freq: Seq<u32>, l: Seq<nat>, n: nat) -> nat
    decreases n,
{
    if n == 0 {
        0
    } else {
        bits_spent(freq, l, (n - 1) as nat) + freq[n - 1] as nat * l[n - 1]
    }
}

/// How many codes of length `top` start with the code of one of the first `n` symbols.
pub open spec fn codes_taken(freq: Seq<u32>, l: Seq<nat>, top: nat, n: nat) -> nat
    decreases n,
{
    if n == 0 {
        0
    } else {
        codes_taken(freq, l, top, (n - 1) as nat) + if freq[n - 1] > 0 {
            pow2((top - l[n - 1]) as nat)
        } else {
            0nat
        }
    }
}

/// There is a prefix code with the given lengths for the symbols that occur, and no length is over
/// `top`.
pub open spec fn is_prefix_code(freq: Seq<u32>, l: Seq<nat>, top: nat) -> bool {
    &&& l.len() == 256
    &&& forall|s: int| 0 <= s < 256 && freq[s] > 0 ==> 1 <= #[trigger] l[s] <= top
    &&& codes_taken(freq, l, top, 256) <= pow2(top)
}

/// Code lengths as numbers.
pub open spec fn numbers(lengths: Seq<u8>) -> Seq<nat> {
    Seq::new(lengths.len(), |s: int| lengths[s] as nat)
}

spec fn leaf_bits(l: Seq<nat>) -> spec_fn(Candidate) -> int {
    |c: Candidate| (c.weight * l[symbol_of(c)]) as int
}

spec fn leaf_slot(l: Seq<nat>, top: nat) -> spec_fn(Candidate) -> int {
    |c: Candidate| pow2((top - l[symbol_of(c)]) as nat) as int
}

/// Sums over leaves are sums over symbols.
proof fn lemma_leaf_sums(freq: Seq<u32>, l: Seq<nat>, top: nat, n: nat)
    ensures
        sum_of(tree::leaves(freq, n), leaf_bits(l)) == bits_spent(freq, l, n),
        sum_of(tree::leaves(freq, n), leaf_slot(l, top)) == codes_taken(freq, l, top, n),
        sum_of(tree::leaves(freq, n), tree_cost(freq)) == 0,
        weighed(tree::leaves(freq, n), freq),
    decreases n,
{
    if n > 0 {
        lemma_leaf_sums(freq, l, top, (n - 1) as nat);
        let before = tree::leaves(freq, (n - 1) as nat);
        let now = tree::leaves(freq, n);
        if freq[n - 1] > 0 {
            lemma_sum_push(before, now.last(), leaf_bits(l));
            lemma_sum_push(before, now.last(), leaf_slot(l, top));
            lemma_sum_push(before, now.last(), tree_cost(freq));
        } else {
            let (f, k) = (freq[n - 1] as nat, l[n - 1]);
            assert(f * k == 0) by (nonlinear_arith)
                requires
                    f == 0,
            ;
        }
    }
}

/// The Huffman tree takes no more bits than any prefix code.
proof fn lemma_tree_is_shortest(freq: Seq<u32>, l: Seq<nat>, top: nat)
    requires
        freq.len() == 256,
        is_prefix_code(freq, l, top),
        tree::leaves(freq, 256).len() >= 1,
    ensures
        symbol_bits(tree::tree_of(freq), freq, 256) <= bits_spent(freq, l, 256),
        forall|s: int| 0 <= s < 256 && #[trigger] freq[s] > 0 ==> tree::tree_of(freq).has(s),
{
    let q = tree::leaves(freq, 256);
    let m = q.len() as int;
    let levels = Map::<int, nat>::new(|r: int| 0 <= r < m, |r: int| l[symbol_of(q[r])]);
    tree::lemma_leaves(freq, 256);
    lemma_leaf_sums(freq, l, top, 256);
    assert forall|k: int| 0 <= k < q.len() implies levels[(#[trigger] q[k]).rank] == l[symbol_of(
        q[k],
    )] && levels[q[k].rank] <= top by {
        assert(q[k].rank == k);
    }
    lemma_sum_same(q, slot(levels, top), leaf_slot(l, top));
    lemma_sum_same(q, bits(levels), leaf_bits(l));
    lemma_joins_are_cheapest(q, m, levels, top);
    lemma_tree_cost(q, m, freq);
    lemma_symbol_bits(tree::tree_of(freq), freq, 256);
}

/// Lengths up to those in a tree take no more bits.
proof fn lemma_bits_up_to_depth(t: HuffmanTree, freq: Seq<u32>, l: Seq<nat>, n: nat)
    requires
        n <= 256,
        forall|s: int| 0 <= s < 256 && #[trigger] freq[s] > 0 ==> t.has(s) && l[s] <= t.depth(s),
    ensures
        bits_spent(freq, l, n) <= symbol_bits(t, freq, n),
    decreases n,
{
    if n > 0 {
        let s = n - 1;
        lemma_bits_up_to_depth(t, freq, l, s as nat);
        let (f, k, d) = (freq[s] as nat, l[s], t.depth(s));
        assert(f > 0 ==> f * k <= f * d) by (nonlinear_arith)
            requires
                f > 0 ==> k <= d,
        ;
        assert(f == 0 ==> f * k == 0) by (nonlinear_arith);
        assert(f * d >= 0) by (nonlinear_arith);
    }
}

/// Longer codes take more bits.
proof fn lemma_bits_grow(freq: Seq<u32>, a: Seq<nat>, b: Seq<nat>, n: nat)
    requires
        n <= 256,
        forall|s: int| 0 <= s < 256 && freq[s] > 0 ==> #[trigger] a[s] <= b[s],
    ensures
        bits_spent(freq, a, n) <= bits_spent(freq, b, n),
    decreases n,
{
    if n > 0 {
        let s = n - 1;
        lemma_bits_grow(freq, a, b, s as nat);
        let (f, x, y) = (freq[s] as nat, a[s], b[s]);
        assert(f * x <= f * y) by (nonlinear_arith)
            requires
                f > 0 ==> x <= y,
        ;
    }
}

/// Codes of the lengths of a Huffman code are the shortest: no prefix code takes fewer bits for the
/// same symbols. This leaves out the symbol frequencies whose Huffman tree has to be cut to the
/// longest code and has no prefix code left then.
pub proof fn lemma_shortest_code(freq: Seq<u32>, l: Seq<nat>, top: nat)
    requires
        freq.len() == 256,
        canonical::kraft(tree::clamped_lengths(freq), 256) <= WINDOWS,
        is_prefix_code(freq, l, top),
    ensures
        bits_spent(freq, numbers(tree::huffman_lengths(freq)), 256) <= bits_spent(freq, l, 256),
{
    let lengths = numbers(tree::huffman_lengths(freq));
    if tree::leaves(freq, 256).len() <= 1 {
        assert forall|s: int| 0 <= s < 256 && freq[s] > 0 implies #[trigger] lengths[s] <= l[s] by {
            assert(l[s] >= 1);
        }
        lemma_bits_grow(freq, lengths, l, 256);
    } else {
        lemma_tree_is_shortest(freq, l, top);
        lemma_bits_up_to_depth(tree::tree_of(freq), freq, lengths, 256);
    }
}

/// A Huffman code is a prefix code, as `is_prefix_code` counts.
proof fn lemma_is_prefix_code(freq: Seq<u32>)
    requires
        freq.len() == 256,
    ensures
        is_prefix_code(freq, numbers(tree::huffman_lengths(freq)), 15),
{
    let lengths = tree::huffman_lengths(freq);
    tree::lemma_huffman_lengths_valid(freq);
    lemma_codes_are_windows(freq, lengths, 256);
    lemma2_to64();
    assert forall|s: int| 0 <= s < 256 && freq[s] > 0 implies 1 <= #[trigger] numbers(lengths)[s]
        <= 15 by {
        assert(lengths[s] > 0 && lengths[s] <= canonical::MAX_CODE_LEN);
    }
}

proof fn lemma_codes_are_windows(freq: Seq<u32>, lengths: Seq<u8>, n: nat)
    requires
        n <= 256,
        lengths.len() == 256,
        forall|s: int| 0 <= s < 256 ==> (#[trigger] lengths[s] > 0 <==> freq[s] > 0),
    ensures
        codes_taken(freq, numbers(lengths), 15, n) == canonical::kraft(lengths, n),
    decreases n,
{
    if n > 0 {
        lemma_codes_are_windows(freq, lengths, (n - 1) as nat);
        assert(lengths[n - 1] > 0 <==> freq[n - 1] > 0);
        assert(numbers(lengths)[n - 1] == lengths[n - 1]);
    }
}

/// What changes where one length changes.
proof fn lemma_change_length(freq: Seq<u32>, l: Seq<nat>, top: nat, s: int, v: nat, n: nat)
    requires
        n <= l.len(),
        0 <= s < l.len(),
        freq[s] > 0,
    ensures
        bits_spent(freq, l.update(s, v), n) == bits_spent(freq, l, n) + if s < n {
            freq[s] * v - freq[s] * l[s]
        } else {
            0
        },
        codes_taken(freq, l.update(s, v), top, n) == codes_taken(freq, l, top, n) + if s < n {
            pow2((top - v) as nat) - pow2((top - l[s]) as nat)
        } else {
            0
        },
    decreases n,
{
    if n > 0 {
        lemma_change_length(freq, l, top, s, v, (n - 1) as nat);
    }
}

/// A symbol that occurs more often than another one has no longer code.
pub proof fn lemma_frequent_is_short(freq: Seq<u32>, s: int, t: int)
    requires
        freq.len() == 256,
        0 <= s < 256,
        0 <= t < 256,
        freq[s] > freq[t] > 0,
    ensures
        tree::huffman_lengths(freq)[s] <= tree::huffman_lengths(freq)[t],
{
    if tree::leaves(freq, 256).len() >= 2 && canonical::kraft(tree::clamped_lengths(freq), 256)
        <= WINDOWS {
        let l = numbers(tree::huffman_lengths(freq));
        let swapped = l.update(s, l[t]).update(t, l[s]);
        lemma_is_prefix_code(freq);
        lemma_change_length(freq, l, 15, s, l[t], 256);
        lemma_change_length(freq, l.update(s, l[t]), 15, t, l[s], 256);
        assert forall|k: int| 0 <= k < 256 && freq[k] > 0 implies 1 <= #[trigger] swapped[k] <= 15 by {
            assert(1 <= l[k] <= 15 && 1 <= l[s] <= 15 && 1 <= l[t] <= 15);
        }
        lemma_shortest_code(freq, swapped, 15);
        let (a, b) = (freq[s] as int, freq[t] as int);
        let (x, y) = (l[s] as int, l[t] as int);
        assert(x <= y) by (nonlinear_arith)
            requires
                a > b,
                a * x + b * y <= a * y + b * x,
        ;
    }
}

/// How often symbols occur together.
pub open spec fn occurring(freq: Seq<u32>, n: nat) -> nat
    decreases n,
{
    if n == 0 {
        0
    } else {
        occurring(freq, (n - 1) as nat) + freq[n - 1] as nat
    }
}

/// Equal lengths of eight bits.
proof fn lemma_eight_bits(freq: Seq<u32>, n: nat)
    requires
        n <= 256,
    ensures
        bits_spent(freq, Seq::new(256, |s: int| 8nat), n) == 8 * occurring(freq, n),
        codes_taken(freq, Seq::new(256, |s: int| 8nat), 8, n) <= n,
    decreases n,
{
    if n > 0 {
        lemma_eight_bits(freq, (n - 1) as nat);
        lemma2_to64();
    }
}

/// A Huffman code takes no more than eight bits for each symbol on average, which is what the
/// symbols take without a code.
pub proof fn lemma_at_most_eight_bits(freq: Seq<u32>)
    requires
        freq.len() == 256,
    ensures
        bits_spent(freq, numbers(tree::huffman_lengths(freq)), 256) <= 8 * occurring(freq, 256),
{
    let eight = Seq::new(256, |s: int| 8nat);
    let lengths = numbers(tree::huffman_lengths(freq));
    lemma_eight_bits(freq, 256);
    lemma2_to64();
    if canonical::kraft(tree::clamped_lengths(freq), 256) <= WINDOWS {
        lemma_shortest_code(freq, eight, 8);
    } else {
        tree::lemma_leaves(freq, 256);
        tree::lemma_bits_for(tree::leaves(freq, 256).len(), 1);
        assert forall|s: int| 0 <= s < 256 && freq[s] > 0 implies #[trigger] lengths[s]
            <= eight[s] by {}
        lemma_bits_grow(freq, lengths, eight, 256);
    }
}

/// No symbol stands at two leaves.
pub open spec fn distinct(t: HuffmanTree) -> bool
    decreases t,
{
    match t {
        HuffmanTree::Leaf { symbol } => true,
        HuffmanTree::Node { left, right } => {
            &&& distinct(*left)
            &&& distinct(*right)
            &&& forall|s: int| !(#[trigger] left.has(s) && right.has(s))
        },
    }
}

/// All symbols of a tree are among 256.
pub open spec fn bounded(t: HuffmanTree) -> bool {
    forall|s: int| #[trigger] t.has(s) ==> 0 <= s < 256
}

/// The longest way from the root.
spec fn height(t: HuffmanTree) -> nat
    decreases t,
{
    match t {
        HuffmanTree::Leaf { symbol } => 0,
        HuffmanTree::Node { left, right } => 1 + if height(*left) > height(*right) {
            height(*left)
        } else {
            height(*right)
        },
    }
}

proof fn lemma_height(t: HuffmanTree, s: int)
    requires
        t.has(s),
    ensures
        t.depth(s) <= height(t),
    decreases t,
{
    match t {
        HuffmanTree::Leaf { symbol } => {},
        HuffmanTree::Node { left, right } => {
            if left.has(s) {
                lemma_height(*left, s);
            } else {
                lemma_height(*right, s);
            }
        },
    }
}

/// How many codes of length `top` start with the way to one of the first `n` symbols.
spec fn ways(t: HuffmanTree, top: nat, n: nat) -> nat
    decreases n,
{
    if n == 0 {
        0
    } else {
        ways(t, top, (n - 1) as nat) + if t.has(n - 1) {
            pow2((top - t.depth(n - 1)) as nat)
        } else {
            0nat
        }
    }
}

proof fn lemma_ways_of_node(left: HuffmanTree, right: HuffmanTree, t: HuffmanTree, top: nat, n: nat)
    requires
        t == (HuffmanTree::Node { left: Box::new(left), right: Box::new(right) }),
        distinct(t),
        top >= 1,
    ensures
        ways(t, top, n) == ways(left, (top - 1) as nat, n) + ways(right, (top - 1) as nat, n),
    decreases n,
{
    if n > 0 {
        let s = n - 1;
        lemma_ways_of_node(left, right, t, top, s as nat);
        assert(!(left.has(s) && right.has(s)));
        assert(t.has(s) == (left.has(s) || right.has(s)));
    }
}

proof fn lemma_ways_of_leaf(symbol: int, top: nat, n: nat)
    ensures
        ways(HuffmanTree::Leaf { symbol }, top, n) == if 0 <= symbol < n {
            pow2(top)
        } else {
            0
        },
    decreases n,
{
    if n > 0 {
        lemma_ways_of_leaf(symbol, top, (n - 1) as nat);
    }
}

/// The ways to the symbols of a tree leave out no code.
proof fn lemma_ways(t: HuffmanTree, top: nat)
    requires
        distinct(t),
        bounded(t),
        height(t) <= top,
    ensures
        ways(t, top, 256) == pow2(top),
    decreases t,
{
    match t {
        HuffmanTree::Leaf { symbol } => {
            assert(t.has(symbol));
            lemma_ways_of_leaf(symbol, top, 256);
        },
        HuffmanTree::Node { left, right } => {
            let below = (top - 1) as nat;
            assert forall|s: int| #[trigger] left.has(s) implies 0 <= s < 256 by {
                assert(t.has(s));
            }
            assert forall|s: int| #[trigger] right.has(s) implies 0 <= s < 256 by {
                assert(t.has(s));
            }
            lemma_ways(*left, below);
            lemma_ways(*right, below);
            lemma_ways_of_node(*left, *right, t, top, 256);
            lemma_pow2_unfold(top);
        },
    }
}

/// The trees of candidates have no symbol twice and none in common.
pub open spec fn apart(q: Seq<Candidate>) -> bool {
    &&& forall|k: int| 0 <= k < q.len() ==> distinct((#[trigger] q[k]).tree)
    &&& forall|k: int, m: int, s: int|
        0 <= k < q.len() && 0 <= m < q.len() && k != m ==> !(#[trigger] q[k].tree.has(s)
            && #[trigger] q[m].tree.has(s))
}

/// Joining two candidates keeps their trees apart.
pub proof fn lemma_apart_joined(q: Seq<Candidate>, i: int, j: int, rank: int)
    requires
        apart(q),
        0 <= i < q.len(),
        0 <= j < q.len() - 1,
    ensures
        ({
            let rest = q.remove(i);
            let next = rest.remove(j).push(tree::joined(q[i], rest[j], rank));
            &&& apart(next)
            &&& forall|s: int| #[trigger] tree::held(next, s) ==> tree::held(q, s)
        }),
{
    let rest = q.remove(i);
    let rest2 = rest.remove(j);
    let jj = tree::skipping(i, j);
    let c = tree::joined(q[i], rest[j], rank);
    let next = rest2.push(c);
    let last = rest2.len() as int;
    assert(rest[j] == q[jj] && jj != i);
    assert forall|k: int| 0 <= k < last implies #[trigger] next[k] == q[tree::skipping(
        i,
        tree::skipping(j, k),
    )] by {}
    assert(distinct(c.tree)) by {
        assert forall|s: int| !(#[trigger] q[i].tree.has(s) && rest[j].tree.has(s)) by {
            assert(!(q[i].tree.has(s) && q[jj].tree.has(s)));
        }
    }
    assert forall|s: int| c.tree.has(s) == (q[i].tree.has(s) || #[trigger] q[jj].tree.has(s)) by {}
    assert forall|k: int, m: int, s: int|
        0 <= k < next.len() && 0 <= m < next.len() && k != m implies !(#[trigger] next[k].tree.has(s)
        && #[trigger] next[m].tree.has(s)) by {
        let a = tree::skipping(i, tree::skipping(j, k));
        let b = tree::skipping(i, tree::skipping(j, m));
        if k < last && m < last {
            assert(next[k] == q[a] && next[m] == q[b] && a != b);
            assert(!(q[a].tree.has(s) && q[b].tree.has(s)));
        } else if k < last {
            assert(next[k] == q[a] && a != i && a != jj);
            assert(!(q[a].tree.has(s) && q[i].tree.has(s)));
            assert(!(q[a].tree.has(s) && q[jj].tree.has(s)));
        } else {
            assert(next[m] == q[b] && b != i && b != jj);
            assert(!(q[b].tree.has(s) && q[i].tree.has(s)));
            assert(!(q[b].tree.has(s) && q[jj].tree.has(s)));
        }
    }
    assert forall|s: int| #[trigger] tree::held(next, s) implies tree::held(q, s) by {
        let k = choose|k: int| 0 <= k < next.len() && (#[trigger] next[k]).tree.has(s);
        if k < last {
            assert(q[tree::skipping(i, tree::skipping(j, k))].tree.has(s));
        } else if q[i].tree.has(s) {
        } else {
            assert(q[jj].tree.has(s));
        }
    }
}

/// The tree that remains of candidates has no symbol twice, and none but theirs.
proof fn lemma_tree_apart(q: Seq<Candidate>, rank: int)
    requires
        tree::ranked(q, rank),
        q.len() >= 1,
        apart(q),
    ensures
        distinct(tree::huffman_tree(q, rank, q.len())),
        forall|s: int|
            #[trigger] tree::huffman_tree(q, rank, q.len()).has(s) ==> tree::held(q, s),
    decreases q.len(),
{
    if q.len() == 1 {
        assert forall|s: int| #[trigger] tree::huffman_tree(q, rank, q.len()).has(s) implies tree::held(
            q,
            s,
        ) by {
            assert(q[0].tree.has(s));
        }
    } else {
        let i = tree::lightest(q);
        let rest = q.remove(i);
        tree::lemma_lightest_exists(q, rank);
        tree::lemma_ranked_remove(q, i, rank);
        tree::lemma_lightest_exists(rest, rank);
        let j = tree::lightest(rest);
        tree::lemma_ranked_remove(rest, j, rank);
        lemma_apart_joined(q, i, j, rank);
        let next = tree::join_lightest(q, rank);
        assert(tree::ranked(next, rank + 1));
        lemma_tree_apart(next, rank + 1);
    }
}

/// How many of the first `n` symbols occur.
pub open spec fn symbols(freq: Seq<u32>, n: nat) -> nat
    decreases n,
{
    if n == 0 {
        0
    } else {
        symbols(freq, (n - 1) as nat) + if freq[n - 1] > 0 {
            1nat
        } else {
            0nat
        }
    }
}

/// The leaves are as many as the symbols that occur, and apart.
pub proof fn lemma_leaves_apart(freq: Seq<u32>, n: nat)
    ensures
        tree::leaves(freq, n).len() == symbols(freq, n),
        apart(tree::leaves(freq, n)),
        forall|s: int| #[trigger] tree::held(tree::leaves(freq, n), s) ==> 0 <= s < n && freq[s] > 0,
    decreases n,
{
    let now = tree::leaves(freq, n);
    if n > 0 {
        let before = tree::leaves(freq, (n - 1) as nat);
        lemma_leaves_apart(freq, (n - 1) as nat);
        if freq[n - 1] > 0 {
            let last = before.len() as int;
            assert forall|k: int, m: int, s: int|
                0 <= k < now.len() && 0 <= m < now.len() && k != m implies !(
            #[trigger] now[k].tree.has(s) && #[trigger] now[m].tree.has(s)) by {
                if now[k].tree.has(s) && now[m].tree.has(s) {
                    if k < last && m < last {
                        assert(before[k].tree.has(s) && before[m].tree.has(s));
                    } else if k < last {
                        assert(before[k].tree.has(s));
                        assert(tree::held(before, s));
                    } else {
                        assert(before[m].tree.has(s));
                        assert(tree::held(before, s));
                    }
                }
            }
            assert forall|s: int| #[trigger] tree::held(now, s) implies 0 <= s < n && freq[s]
                > 0 by {
                let k = choose|k: int| 0 <= k < now.len() && (#[trigger] now[k]).tree.has(s);
                if k < last {
                    assert(before[k].tree.has(s));
                    assert(tree::held(before, s));
                }
            }
        }
    }
}

/// The Huffman tree has the symbols that occur, each once.
pub proof fn lemma_tree_symbols(freq: Seq<u32>)
    requires
        freq.len() == 256,
        symbols(freq, 256) >= 2,
    ensures
        ({
            let t = tree::tree_of(freq);
            &&& t is Node
            &&& distinct(t)
            &&& bounded(t)
            &&& forall|s: int| #[trigger] t.has(s) <==> 0 <= s < 256 && freq[s] > 0
        }),
{
    let q = tree::leaves(freq, 256);
    let t = tree::tree_of(freq);
    tree::lemma_leaves(freq, 256);
    lemma_leaves_apart(freq, 256);
    lemma_tree_apart(q, q.len() as int);
    lemma_leaf_sums(freq, Seq::empty(), 0, 256);
    lemma_tree_cost(q, q.len() as int, freq);
    tree::lemma_joined_tree(q, q.len() as int, q.len());
    assert forall|s: int| #[trigger] t.has(s) <==> 0 <= s < 256 && freq[s] > 0 by {
        if t.has(s) {
            assert(tree::held(q, s));
        }
        if 0 <= s < 256 && freq[s] > 0 {
            assert(tree::held(q, s));
        }
    }
}

/// Cut lengths take as many windows as the ways to the symbols, and more where one was cut.
proof fn lemma_cut_windows(freq: Seq<u32>, top: nat, n: nat)
    requires
        freq.len() == 256,
        n <= 256,
        top >= 15,
        tree::tree_of(freq) is Node,
        forall|s: int| #[trigger] tree::tree_of(freq).has(s) <==> 0 <= s < 256 && freq[s] > 0,
        height(tree::tree_of(freq)) <= top,
    ensures
        ({
            let t = tree::tree_of(freq);
            let windows = pow2((top - 15) as nat) * canonical::kraft(tree::clamped_lengths(freq), n);
            &&& windows >= ways(t, top, n)
            &&& (forall|s: int| 0 <= s < n && #[trigger] t.has(s) ==> t.depth(s) <= 15) ==> windows
                == ways(t, top, n)
            &&& (exists|s: int| 0 <= s < n && #[trigger] t.has(s) && t.depth(s) > 15) ==> windows
                > ways(t, top, n)
        }),
    decreases n,
{
    let t = tree::tree_of(freq);
    let p = pow2((top - 15) as nat);
    let lengths = tree::clamped_lengths(freq);
    if n == 0 {
        assert(p * 0 == 0) by (nonlinear_arith);
    } else {
        let s = n - 1;
        lemma_cut_windows(freq, top, s as nat);
        let k = canonical::kraft(lengths, s as nat);
        let more = canonical::slots(lengths[s]);
        assert(p * (k + more) == p * k + p * more) by (nonlinear_arith);
        assert(t.has(s) <==> freq[s] > 0);
        if t.has(s) {
            lemma_height(t, s);
            let d = t.depth(s);
            assert(d >= 1);
            if d <= 15 {
                lemma_pow2_adds((top - 15) as nat, (15 - d) as nat);
            } else {
                lemma2_to64();
                assert(more == 1);
                assert(p * 1 == p) by (nonlinear_arith);
                lemma_pow2_strictly_increases((top - d) as nat, (top - 15) as nat);
            }
        } else {
            assert(p * 0 == 0) by (nonlinear_arith);
        }
    }
}

/// Where two or more symbols occur and none lies deeper than 15 in their Huffman tree, the length
/// of each code is the depth of its symbol. Where one lies deeper, all codes have the same length,
/// the smallest that tells the symbols apart. Symbols that do not occur have no code.
pub proof fn lemma_lengths_are_depths(freq: Seq<u32>)
    requires
        freq.len() == 256,
        symbols(freq, 256) >= 2,
    ensures
        ({
            let t = tree::tree_of(freq);
            let lengths = tree::huffman_lengths(freq);
            &&& lengths.len() == 256
            &&& forall|s: int| 0 <= s < 256 && freq[s] == 0 ==> #[trigger] lengths[s] == 0
            &&& (forall|s: int| 0 <= s < 256 && #[trigger] freq[s] > 0 ==> t.depth(s) <= 15) ==> (
            forall|s: int| 0 <= s < 256 && freq[s] > 0 ==> #[trigger] lengths[s] == t.depth(s))
            &&& (exists|s: int| 0 <= s < 256 && #[trigger] freq[s] > 0 && t.depth(s) > 15) ==> (
            forall|s: int|
                0 <= s < 256 && freq[s] > 0 ==> 1 <= #[trigger] lengths[s] && symbols(freq, 256)
                    <= pow2(lengths[s] as nat) && (lengths[s] > 1 ==> symbols(freq, 256) > pow2(
                    (lengths[s] - 1) as nat,
                )))
        }),
{
    let t = tree::tree_of(freq);
    let lengths = tree::huffman_lengths(freq);
    let top = height(t) + 15;
    let p = pow2(height(t));
    let k = canonical::kraft(tree::clamped_lengths(freq), 256);
    lemma_leaves_apart(freq, 256);
    tree::lemma_leaves(freq, 256);
    lemma_tree_symbols(freq);
    lemma_ways(t, top);
    lemma_cut_windows(freq, top, 256);
    lemma_pow2_adds(height(t), 15);
    lemma2_to64();
    lemma_pow2_pos(height(t));
    if forall|s: int| 0 <= s < 256 && #[trigger] freq[s] > 0 ==> t.depth(s) <= 15 {
        assert forall|s: int| 0 <= s < 256 && #[trigger] t.has(s) implies t.depth(s) <= 15 by {
            assert(freq[s] > 0);
        }
        assert(k == 32768) by (nonlinear_arith)
            requires
                p * k == p * 32768,
                p > 0,
        ;
    } else {
        let s = choose|s: int| 0 <= s < 256 && #[trigger] freq[s] > 0 && t.depth(s) > 15;
        assert(t.has(s));
        assert(k > 32768) by (nonlinear_arith)
            requires
                p * k > p * 32768,
                p > 0,
        ;
        lemma_fewest_bits(symbols(freq, 256), 1);
    }
}

proof fn lemma_fewest_bits(n: nat, from: nat)
    requires
        n <= 256,
        1 <= from <= 8,
        from > 1 ==> n > pow2((from - 1) as nat),
    ensures
        ({
            let b = tree::bits_for(n, from);
            &&& from <= b <= 8
            &&& n <= pow2(b)
            &&& b > 1 ==> n > pow2((b - 1) as nat)
        }),
    decreases 16 - from,
{
    lemma2_to64();
    if from < 8 && n > pow2(from) {
        lemma_fewest_bits(n, from + 1);
    }
}

/// The depths of the symbols in their Huffman tree.
pub open spec fn depths(freq: Seq<u32>) -> Seq<nat> {
    Seq::new(256, |s: int| tree::tree_of(freq).depth(s))
}

proof fn lemma_depths_spent(t: HuffmanTree, freq: Seq<u32>, l: Seq<nat>, n: nat)
    requires
        n <= 256,
        forall|s: int| 0 <= s < 256 ==> #[trigger] l[s] == t.depth(s),
        forall|s: int| 0 <= s < 256 && #[trigger] freq[s] > 0 ==> t.has(s),
    ensures
        bits_spent(freq, l, n) <= symbol_bits(t, freq, n),
    decreases n,
{
    if n > 0 {
        let s = n - 1;
        lemma_depths_spent(t, freq, l, s as nat);
        let (f, d) = (freq[s] as nat, t.depth(s));
        assert(l[s] == d);
        if f == 0 {
            assert(f * d == 0) by (nonlinear_arith)
                requires
                    f == 0,
            ;
        }
    }
}

/// The Huffman tree is the shortest, for all frequencies and among prefix codes of all lengths:
/// with codes as long as the depths of their symbols no more bits are spent than with any prefix
/// code.
pub proof fn lemma_shortest_tree(freq: Seq<u32>, l: Seq<nat>, top: nat)
    requires
        freq.len() == 256,
        symbols(freq, 256) >= 2,
        is_prefix_code(freq, l, top),
    ensures
        bits_spent(freq, depths(freq), 256) <= bits_spent(freq, l, 256),
{
    lemma_leaves_apart(freq, 256);
    lemma_tree_is_shortest(freq, l, top);
    lemma_depths_spent(tree::tree_of(freq), freq, depths(freq), 256);
}

/// Where no symbol lies deeper than 15 in the Huffman tree, no prefix code takes fewer bits than
/// the code lengths do.
pub proof fn lemma_shortest_of_all(freq: Seq<u32>, l: Seq<nat>, top: nat)
    requires
        freq.len() == 256,
        symbols(freq, 256) >= 2,
        forall|s: int| 0 <= s < 256 && #[trigger] freq[s] > 0 ==> depths(freq)[s] <= 15,
        is_prefix_code(freq, l, top),
    ensures
        bits_spent(freq, numbers(tree::huffman_lengths(freq)), 256) <= bits_spent(freq, l, 256),
{
    let lengths = numbers(tree::huffman_lengths(freq));
    assert forall|s: int| 0 <= s < 256 && #[trigger] freq[s] > 0 implies tree::tree_of(freq).depth(s)
        <= 15 by {
        assert(depths(freq)[s] <= 15);
    }
    lemma_lengths_are_depths(freq);
    lemma_shortest_tree(freq, l, top);
    assert forall|s: int| 0 <= s < 256 && freq[s] > 0 implies #[trigger] lengths[s]
        <= depths(freq)[s] by {
        assert(tree::huffman_lengths(freq)[s] == tree::tree_of(freq).depth(s));
    }
    lemma_bits_grow(freq, lengths, depths(freq), 256);
}

/// A symbol that occurs alone has a code of one bit, and where none occurs there is no code.
pub proof fn lemma_lengths_of_few(freq: Seq<u32>)
    requires
        freq.len() == 256,
        symbols(freq, 256) <= 1,
    ensures
        forall|s: int|
            0 <= s < 256 ==> #[trigger] tree::huffman_lengths(freq)[s] == if freq[s] > 0 {
                1u8
            } else {
                0u8
            },
{
    lemma_leaves_apart(freq, 256);
}

} // verus!
