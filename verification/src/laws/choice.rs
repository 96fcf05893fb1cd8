//! Which predictor and which type a block gets.

use crate::block;
use crate::block::Coding;
use crate::error::Error;
use crate::filter::Filter;
use crate::huffman;
use crate::lzss;
use crate::planar;
use crate::predictor;
use crate::predictor::{DeltaMode, Entropies};
use crate::stereo;
use crate::streams;
use vstd::prelude::*;

verus! {

/// The predictors, in the order in which one is preferred to the next where both do equally well.
pub open spec fn predictor_at(j: int) -> DeltaMode {
    if j == 0 {
        DeltaMode::Delta1
    } else if j == 1 {
        DeltaMode::Delta2
    } else if j == 2 {
        DeltaMode::Delta3
    } else if j == 3 {
        DeltaMode::Delta4
    } else if j == 4 {
        DeltaMode::Delta1O2
    } else if j == 5 {
        DeltaMode::Delta4O2
    } else if j == 6 {
        DeltaMode::Delta2O2
    } else if j == 7 {
        DeltaMode::Delta3O2
    } else if j == 8 {
        DeltaMode::DeltaS16O3
    } else if j == 9 {
        DeltaMode::DeltaS16O2
    } else if j == 10 {
        DeltaMode::LsideD4
    } else if j == 11 {
        DeltaMode::LsideD4O2
    } else if j == 12 {
        DeltaMode::LsideS16O3
    } else {
        DeltaMode::LsideS16O2
    }
}

/// The figure that a predictor is judged by: that of its own filter.
pub open spec fn own_figure(e: Entropies, j: int) -> i32 {
    if j < 4 {
        e.delta@[j]
    } else if j == 4 {
        e.delta_o2@[0]
    } else if j == 5 {
        e.delta_o2@[3]
    } else if j == 6 {
        e.delta_o2@[1]
    } else if j == 7 {
        e.delta_o2@[2]
    } else if j == 8 {
        e.s16_o3
    } else if j == 9 {
        e.s16_o2
    } else if j == 10 {
        e.lside_d4
    } else if j == 11 {
        e.lside_d4_o2
    } else if j == 12 {
        e.lside_s16_o3
    } else {
        e.lside_s16_o2
    }
}

/// Blocks of `n` bytes admit a predictor. Samples come in pairs of bytes, pairs of samples in
/// fours. The third order is for blocks whose second order does clearly better than the raw block,
/// and then only where it does better still.
pub open spec fn admits(n: int, e: Entropies, j: int) -> bool {
    if j < 8 {
        true
    } else if j == 8 {
        n % 2 == 0 && n >= 6 && e.s16_o2 < e.third_order && e.s16_o3 < e.s16_o2
    } else if j == 9 {
        n % 2 == 0 && n >= 4
    } else if j == 10 || j == 11 {
        n % 4 == 0
    } else if j == 12 {
        n % 4 == 0 && n >= 12 && e.lside_s16_o2 < e.third_order && e.lside_s16_o3 < e.lside_s16_o2
    } else {
        n % 4 == 0 && n >= 8
    }
}

spec fn one_if(b: bool) -> int {
    if b {
        1
    } else {
        0
    }
}

/// The place of a predictor in the list of candidates.
spec fn place(n: int, e: Entropies, j: int) -> int {
    if j <= 8 {
        j
    } else if j == 9 {
        8 + one_if(admits(n, e, 8))
    } else {
        let mono = 8 + one_if(admits(n, e, 8)) + one_if(admits(n, e, 9));
        if j == 10 {
            mono
        } else if j == 11 {
            mono + 1
        } else if j == 12 {
            mono + 2
        } else {
            mono + 2 + one_if(admits(n, e, 12))
        }
    }
}

/// Entry `k` of a list of candidates is that of a predictor which is admitted.
spec fn listed(n: int, e: Entropies, k: int, entry: (DeltaMode, i32)) -> bool {
    exists|j: int|
        0 <= j < 14 && #[trigger] admits(n, e, j) && place(n, e, j) == k && entry == (
        predictor_at(j),
        own_figure(e, j),
    )
}

proof fn lemma_places(n: int, e: Entropies)
    ensures
        ({
            let c = predictor::candidates(n, e);
            &&& forall|j: int|
                0 <= j < 14 && #[trigger] admits(n, e, j) ==> 0 <= place(n, e, j) < c.len() && c[place(
                    n,
                    e,
                    j,
                )] == (predictor_at(j), own_figure(e, j))
            &&& forall|k: int|
                0 <= k < c.len() ==> listed(n, e, k, #[trigger] c[k])
        }),
{
    let c = predictor::candidates(n, e);
    let mono = predictor::mono_candidates(n, e);
    let stereo = predictor::stereo_candidates(n, e);
    let bytes = predictor::byte_candidates(e);
    assert(c == bytes + mono + stereo);
    assert(mono.len() == one_if(admits(n, e, 8)) + one_if(admits(n, e, 9)));
    assert(stereo.len() == 2 * one_if(admits(n, e, 10)) + one_if(admits(n, e, 12)) + one_if(
        admits(n, e, 13),
    ));
    assert forall|j: int| 0 <= j < 14 && #[trigger] admits(n, e, j) implies 0 <= place(n, e, j)
        < c.len() && c[place(n, e, j)] == (predictor_at(j), own_figure(e, j)) by {
        let p = place(n, e, j);
        if j < 8 {
            assert(c[p] == bytes[p]);
            assert(j == 0 || j == 1 || j == 2 || j == 3 || j == 4 || j == 5 || j == 6 || j == 7);
        } else if j < 10 {
            assert(c[p] == mono[p - 8]);
        } else {
            assert(c[p] == stereo[p - 8 - mono.len()]);
        }
    }
    assert forall|k: int| 0 <= k < c.len() implies listed(n, e, k, #[trigger] c[k]) by {
        if k < 8 {
            assert(admits(n, e, k) && place(n, e, k) == k);
        } else if k < 8 + mono.len() {
            let j = if admits(n, e, 8) && k == 8 {
                8int
            } else {
                9int
            };
            assert(admits(n, e, j) && place(n, e, j) == k);
        } else {
            let r = k - 8 - mono.len();
            let j = if r == 0 {
                10int
            } else if r == 1 {
                11int
            } else if r == 2 && admits(n, e, 12) {
                12int
            } else {
                13int
            };
            assert(admits(n, e, j) && place(n, e, j) == k);
        }
    }
}

/// Each predictor is judged by the figure of its own filter. One is selected exactly where blocks
/// of this size admit it, its figure is below the bound, and no other that is admitted has a lower
/// figure, nor an equal one and comes earlier. None is selected exactly where no figure is below
/// the bound.
pub proof fn law_predictor(n: int, e: Entropies, j: int)
    requires
        0 <= j < 14,
    ensures
        predictor::selected(n, e) == predictor_at(j) <==> {
            &&& admits(n, e, j)
            &&& own_figure(e, j) < e.accept
            &&& forall|i: int|
                0 <= i < 14 && #[trigger] admits(n, e, i) ==> own_figure(e, j) <= own_figure(e, i)
            &&& forall|i: int|
                0 <= i < j && #[trigger] admits(n, e, i) ==> own_figure(e, j) < own_figure(e, i)
        },
        predictor::selected(n, e) is Raw <==> (forall|i: int|
            0 <= i < 14 && #[trigger] admits(n, e, i) ==> e.accept <= own_figure(e, i)),
{
    let c = predictor::candidates(n, e);
    let mode = predictor::selected(n, e);
    predictor::lemma_selected(n, e);
    lemma_places(n, e);
    if mode is Raw {
        assert forall|i: int| 0 <= i < 14 && #[trigger] admits(n, e, i) implies e.accept
            <= own_figure(e, i) by {
            assert(e.accept <= c[place(n, e, i)].1);
        }
    } else {
        let k = choose|k: int|
            {
                &&& 0 <= k < c.len()
                &&& #[trigger] c[k].0 == mode
                &&& c[k].1 < e.accept
                &&& forall|i: int| 0 <= i < c.len() ==> c[k].1 <= #[trigger] c[i].1
                &&& forall|i: int| 0 <= i < k ==> c[k].1 < #[trigger] c[i].1
            };
        assert(listed(n, e, k, c[k]));
        let m = choose|m: int|
            0 <= m < 14 && #[trigger] admits(n, e, m) && place(n, e, m) == k && c[k] == (
            predictor_at(m),
            own_figure(e, m),
        );
        assert(mode == predictor_at(m) && admits(n, e, m));
        assert forall|i: int| 0 <= i < 14 && #[trigger] admits(n, e, i) implies own_figure(e, m)
            <= own_figure(e, i) && (i < m ==> own_figure(e, m) < own_figure(e, i)) by {
            assert(c[k].1 <= c[place(n, e, i)].1);
            if i < m {
                assert(place(n, e, i) < place(n, e, m));
                assert(c[k].1 < c[place(n, e, i)].1);
            }
        }
        if mode == predictor_at(j) {
            assert(j == m);
        }
        if {
            &&& admits(n, e, j)
            &&& own_figure(e, j) < e.accept
            &&& forall|i: int|
                0 <= i < 14 && #[trigger] admits(n, e, i) ==> own_figure(e, j) <= own_figure(e, i)
            &&& forall|i: int|
                0 <= i < j && #[trigger] admits(n, e, i) ==> own_figure(e, j) < own_figure(e, i)
        } {
            assert(admits(n, e, m));
            assert(own_figure(e, j) <= own_figure(e, m));
            assert(own_figure(e, m) <= own_figure(e, j));
            assert(j == m);
        }
    }
}

/// A delta predictor whose figure alone is lowest is selected, whatever the size of the block.
pub proof fn law_delta_selected(n: int, e: Entropies, k: int)
    requires
        1 <= k <= 4,
        e.delta@[k - 1] < e.accept,
        forall|i: int| 1 <= i <= 4 && i != k ==> e.delta@[k - 1] < #[trigger] e.delta@[i - 1],
        forall|i: int| 1 <= i <= 4 ==> e.delta@[k - 1] < #[trigger] e.delta_o2@[i - 1],
        e.delta@[k - 1] < e.lside_d4,
        e.delta@[k - 1] < e.lside_d4_o2,
        e.delta@[k - 1] < e.s16_o2,
        e.delta@[k - 1] < e.s16_o3,
        e.delta@[k - 1] < e.lside_s16_o2,
        e.delta@[k - 1] < e.lside_s16_o3,
    ensures
        k == 1 ==> predictor::selected(n, e) == DeltaMode::Delta1,
        k == 2 ==> predictor::selected(n, e) == DeltaMode::Delta2,
        k == 3 ==> predictor::selected(n, e) == DeltaMode::Delta3,
        k == 4 ==> predictor::selected(n, e) == DeltaMode::Delta4,
{
    law_predictor(n, e, k - 1);
    assert forall|i: int| 0 <= i < 14 && #[trigger] admits(n, e, i) implies own_figure(e, k - 1)
        <= own_figure(e, i) && (i < k - 1 ==> own_figure(e, k - 1) < own_figure(e, i)) by {
        if i < 4 {
            assert(i + 1 != k ==> e.delta@[k - 1] < e.delta@[(i + 1) - 1]);
        } else if i < 8 {
            assert(e.delta@[k - 1] < e.delta_o2@[1 - 1]);
            assert(e.delta@[k - 1] < e.delta_o2@[2 - 1]);
            assert(e.delta@[k - 1] < e.delta_o2@[3 - 1]);
            assert(e.delta@[k - 1] < e.delta_o2@[4 - 1]);
        }
    }
}

/// The filter of each predictor.
pub proof fn law_predictor_filters()
    ensures
        DeltaMode::Raw.filter() == Filter::Plain,
        DeltaMode::Delta1.filter() == Filter::Delta(1),
        DeltaMode::Delta2.filter() == Filter::Delta(2),
        DeltaMode::Delta3.filter() == Filter::Delta(3),
        DeltaMode::Delta4.filter() == Filter::Delta(4),
        DeltaMode::Delta1O2.filter() == Filter::DeltaO2(1),
        DeltaMode::Delta2O2.filter() == Filter::DeltaO2(2),
        DeltaMode::Delta3O2.filter() == Filter::DeltaO2(3),
        DeltaMode::Delta4O2.filter() == Filter::DeltaO2(4),
        DeltaMode::LsideD4.filter() == Filter::LsideD4,
        DeltaMode::LsideD4O2.filter() == Filter::LsideD4O2,
        DeltaMode::DeltaS16O2.filter() == Filter::S16O2,
        DeltaMode::DeltaS16O3.filter() == Filter::S16O3,
        DeltaMode::LsideS16O2.filter() == Filter::LsideS16O2,
        DeltaMode::LsideS16O3.filter() == Filter::LsideS16O3,
{
}

/// What the number of a block type stands for.
pub proof fn law_block_types(flag: u8)
    ensures
        block::method(0) == None::<(Coding, Filter)>,
        block::method(1) == Some((Coding::Lzss, Filter::Plain)),
        block::method(2) == Some((Coding::Lzss, Filter::Delta(2))),
        block::method(3) == Some((Coding::Huf, Filter::Plain)),
        block::method(4) == Some((Coding::Huf, Filter::Delta(2))),
        block::method(5) == Some((Coding::Lzss, Filter::Delta(1))),
        block::method(6) == Some((Coding::Huf, Filter::Delta(1))),
        block::method(7) == Some((Coding::Huf3, Filter::Plain)),
        block::method(8) == Some((Coding::Huf3, Filter::Delta(1))),
        block::method(9) == Some((Coding::Huf3, Filter::Delta(2))),
        block::method(10) == Some((Coding::Lzss, Filter::Delta(3))),
        block::method(11) == Some((Coding::Huf, Filter::Delta(3))),
        block::method(12) == Some((Coding::Huf3, Filter::Delta(3))),
        block::method(13) == Some((Coding::Lzss, Filter::Delta(4))),
        block::method(14) == Some((Coding::Huf, Filter::Delta(4))),
        block::method(15) == Some((Coding::Huf3, Filter::Delta(4))),
        block::method(16) == Some((Coding::Huf3, Filter::DeltaO2(1))),
        block::method(17) == Some((Coding::Huf3, Filter::DeltaO2(4))),
        block::method(18) == Some((Coding::Huf3, Filter::LsideD4)),
        block::method(19) == Some((Coding::Huf3, Filter::LsideD4O2)),
        block::method(20) == Some((Coding::Huf3, Filter::S16O2)),
        block::method(21) == Some((Coding::Huf3, Filter::LsideS16O2)),
        block::method(22) == Some((Coding::Huf3, Filter::S16O3)),
        block::method(23) == Some((Coding::Huf3, Filter::LsideS16O3)),
        block::method(24) == Some((Coding::Huf3, Filter::DeltaO2(2))),
        block::method(25) == Some((Coding::Huf3, Filter::DeltaO2(3))),
        block::method(26) == Some((Coding::Huf4, Filter::Plain)),
        block::method(27) == Some((Coding::Huf4, Filter::S16O2)),
        block::method(28) == Some((Coding::Huf4, Filter::LsideS16O2)),
        block::method(29) == Some((Coding::Huf4, Filter::S16O3)),
        block::method(30) == Some((Coding::Huf4, Filter::LsideS16O3)),
        block::method(31) == Some((Coding::Huf3, Filter::Planar(2))),
        block::method(32) == Some((Coding::Huf3, Filter::Planar(3))),
        block::method(33) == Some((Coding::Huf3, Filter::Planar(4))),
        block::method(34) == Some((Coding::Huf3, Filter::PlanarO2(2))),
        block::method(35) == Some((Coding::Huf3, Filter::PlanarO2(3))),
        block::method(36) == Some((Coding::Huf3, Filter::PlanarO2(4))),
        block::method(37) == Some((Coding::Huf4, Filter::StereoS16O2)),
        block::method(38) == Some((Coding::Huf4, Filter::StereoS16O3)),
        flag > 38 ==> block::method(flag) == None::<(Coding, Filter)>,
{
}

/// How LZSS commands are written.
pub proof fn law_codings(cmds: Seq<u8>)
    ensures
        Coding::Lzss.coded(cmds) == cmds,
        Coding::Huf.coded(cmds) == huffman::section(cmds),
        Coding::Huf3.coded(cmds) == streams::huf3_section(cmds),
        Coding::Huf4.coded(cmds) == streams::huf4_section(cmds),
{
}

/// What stands for a block of a type: the coded commands of the filtered block. Only a block
/// without a filter refers to what came before it.
pub proof fn law_payload(flag: u8, coding: Coding, filter: Filter, history: Seq<u8>, b: Seq<u8>)
    requires
        block::method(flag) == Some((coding, filter)),
    ensures
        filter is Plain ==> block::payload(flag, history, b) == coding.coded(
            lzss::compressed(history, b),
        ),
        !(filter is Plain) ==> block::payload(flag, history, b) == coding.coded(
            lzss::compressed(Seq::empty(), filter.filtered(b)),
        ),
{
}

/// The block types that are tried for a block of `n` bytes: those without a filter for every block,
/// those with the filter of the predictor that is selected, and for regular blocks those with
/// planes and with the channels in turn that the size of the block admits and the figures speak
/// for.
pub open spec fn is_tried(n: int, e: Entropies, flag: u8) -> bool {
    let mode = predictor::selected(n, e);
    ||| flag == 1 || flag == 3 || flag == 7 || flag == 26
    ||| (flag == 5 || flag == 6 || flag == 8) && mode == DeltaMode::Delta1
    ||| (flag == 2 || flag == 4 || flag == 9) && mode == DeltaMode::Delta2
    ||| (flag == 10 || flag == 11 || flag == 12) && mode == DeltaMode::Delta3
    ||| (flag == 13 || flag == 14 || flag == 15) && mode == DeltaMode::Delta4
    ||| flag == 16 && mode == DeltaMode::Delta1O2
    ||| flag == 17 && mode == DeltaMode::Delta4O2
    ||| flag == 24 && mode == DeltaMode::Delta2O2
    ||| flag == 25 && mode == DeltaMode::Delta3O2
    ||| flag == 18 && mode == DeltaMode::LsideD4
    ||| flag == 19 && mode == DeltaMode::LsideD4O2
    ||| (flag == 20 || flag == 27) && mode == DeltaMode::DeltaS16O2
    ||| (flag == 21 || flag == 28) && mode == DeltaMode::LsideS16O2
    ||| (flag == 22 || flag == 29) && mode == DeltaMode::DeltaS16O3
    ||| (flag == 23 || flag == 30) && mode == DeltaMode::LsideS16O3
    ||| (flag == 31 || flag == 34) && e.low && n % 2 == 0 && e.delta@[1] < e.planar
    ||| (flag == 32 || flag == 35) && e.low && n % 3 == 0 && e.delta@[2] < e.planar
    ||| (flag == 33 || flag == 36) && e.low && n % 4 == 0 && e.delta@[3] < e.planar
    ||| flag == 37 && e.low && n % 4 == 0 && n >= 8 && e.stereo_o2 < e.stereo
    ||| flag == 38 && e.low && n % 4 == 0 && n >= 12 && e.stereo_o2 < e.stereo && e.stereo_o3
        < e.stereo_o2
}

/// Which of two types is preferred where both are equally short: the one of the lower rank.
pub open spec fn preference(flag: u8) -> int {
    if flag == 1 {
        1
    } else if flag == 3 {
        2
    } else if flag == 7 {
        3
    } else if flag == 26 {
        4
    } else if flag == 2 || flag == 5 || flag == 10 || flag == 13 {
        5
    } else if flag == 4 || flag == 6 || flag == 11 || flag == 14 {
        6
    } else if flag <= 25 {
        7
    } else {
        flag as int
    }
}

/// Types in the order of preference, from rank `low` on and below rank `high`.
spec fn in_order(flags: Seq<u8>, low: int, high: int) -> bool {
    &&& forall|i: int| 0 <= i < flags.len() ==> low <= preference(#[trigger] flags[i]) < high
    &&& forall|i: int, j: int|
        0 <= i < j < flags.len() ==> preference(#[trigger] flags[i]) < preference(#[trigger] flags[j])
}

proof fn lemma_in_order(a: Seq<u8>, b: Seq<u8>, low: int, mid: int, high: int)
    requires
        in_order(a, low, mid),
        in_order(b, mid, high),
        low <= mid <= high,
    ensures
        in_order(a + b, low, high),
        forall|f: u8| #[trigger] (a + b).contains(f) <==> a.contains(f) || b.contains(f),
{
    let c = a + b;
    assert forall|i: int| 0 <= i < c.len() implies low <= preference(#[trigger] c[i]) < high by {
        if i < a.len() {
            assert(c[i] == a[i]);
        } else {
            assert(c[i] == b[i - a.len()]);
        }
    }
    assert forall|i: int, j: int| 0 <= i < j < c.len() implies preference(#[trigger] c[i])
        < preference(#[trigger] c[j]) by {
        if j < a.len() {
            assert(c[i] == a[i] && c[j] == a[j]);
        } else if i >= a.len() {
            assert(c[i] == b[i - a.len()] && c[j] == b[j - a.len()]);
        } else {
            assert(c[i] == a[i] && c[j] == b[j - a.len()]);
        }
    }
    assert forall|f: u8| #[trigger] c.contains(f) <==> a.contains(f) || b.contains(f) by {
        if a.contains(f) {
            let i = choose|i: int| 0 <= i < a.len() && a[i] == f;
            assert(c[i] == f);
        }
        if b.contains(f) {
            let i = choose|i: int| 0 <= i < b.len() && b[i] == f;
            assert(c[a.len() + i] == f);
        }
    }
}

proof fn lemma_one_type(f: u8, g: u8)
    ensures
        seq![f].contains(g) <==> f == g,
        seq![f].len() == 1,
{
    if f == g {
        assert(seq![f][0] == g);
    }
}

proof fn lemma_plane_types(n: int, e: Entropies)
    ensures
        in_order(block::plane_flags(n, e), 31, 37),
        forall|f: u8|
            e.low ==> (#[trigger] block::plane_flags(n, e).contains(f) <==> 31 <= f <= 36 && is_tried(
                n,
                e,
                f,
            )),
{
    let p1 = block::plane_flag(31, 2, n, e);
    let p2 = block::plane_flag(32, 3, n, e);
    let p3 = block::plane_flag(33, 4, n, e);
    let p4 = block::plane_flag(34, 2, n, e);
    let p5 = block::plane_flag(35, 3, n, e);
    let p6 = block::plane_flag(36, 4, n, e);
    lemma_in_order(p1, p2, 31, 32, 33);
    lemma_in_order(p1 + p2, p3, 31, 33, 34);
    lemma_in_order(p1 + p2 + p3, p4, 31, 34, 35);
    lemma_in_order(p1 + p2 + p3 + p4, p5, 31, 35, 36);
    lemma_in_order(p1 + p2 + p3 + p4 + p5, p6, 31, 36, 37);
    assert forall|f: u8| e.low implies (#[trigger] block::plane_flags(n, e).contains(f) <==> 31 <= f
        <= 36 && is_tried(n, e, f)) by {
        lemma_one_type(31, f);
        lemma_one_type(32, f);
        lemma_one_type(33, f);
        lemma_one_type(34, f);
        lemma_one_type(35, f);
        lemma_one_type(36, f);
        assert((p1 + p2).contains(f) <==> p1.contains(f) || p2.contains(f));
        assert((p1 + p2 + p3).contains(f) <==> (p1 + p2).contains(f) || p3.contains(f));
        assert((p1 + p2 + p3 + p4).contains(f) <==> (p1 + p2 + p3).contains(f) || p4.contains(f));
    }
}

proof fn lemma_two_types(a: u8, b: u8, g: u8)
    ensures
        seq![a, b].contains(g) <==> a == g || b == g,
{
    assert(seq![a, b][0] == a && seq![a, b][1] == b);
}

proof fn lemma_three_types(a: u8, b: u8, c: u8, g: u8)
    ensures
        seq![a, b, c].contains(g) <==> a == g || b == g || c == g,
{
    let s = seq![a, b, c];
    assert(s[0] == a && s[1] == b && s[2] == c);
}

proof fn lemma_four_types(a: u8, b: u8, c: u8, d: u8, g: u8)
    ensures
        seq![a, b, c, d].contains(g) <==> a == g || b == g || c == g || d == g,
{
    let s = seq![a, b, c, d];
    assert(s[0] == a && s[1] == b && s[2] == c && s[3] == d);
}

proof fn lemma_mode_types(n: int, e: Entropies)
    ensures
        in_order(block::mode_flags(predictor::selected(n, e)), 5, 31),
        forall|f: u8|
            #[trigger] block::mode_flags(predictor::selected(n, e)).contains(f) <==> is_tried(
                n,
                e,
                f,
            ) && preference(f) >= 5 && f <= 30,
{
    let mode = predictor::selected(n, e);
    let flags = block::mode_flags(mode);
    assert forall|f: u8| #[trigger] flags.contains(f) <==> is_tried(n, e, f) && preference(f) >= 5
        && f <= 30 by {
        match mode {
            DeltaMode::Raw => {},
            DeltaMode::Delta1 => lemma_three_types(5, 6, 8, f),
            DeltaMode::Delta2 => lemma_three_types(2, 4, 9, f),
            DeltaMode::Delta3 => lemma_three_types(10, 11, 12, f),
            DeltaMode::Delta4 => lemma_three_types(13, 14, 15, f),
            DeltaMode::Delta1O2 => lemma_one_type(16, f),
            DeltaMode::Delta4O2 => lemma_one_type(17, f),
            DeltaMode::Delta2O2 => lemma_one_type(24, f),
            DeltaMode::Delta3O2 => lemma_one_type(25, f),
            DeltaMode::LsideD4 => lemma_one_type(18, f),
            DeltaMode::LsideD4O2 => lemma_one_type(19, f),
            DeltaMode::DeltaS16O2 => lemma_two_types(20, 27, f),
            DeltaMode::LsideS16O2 => lemma_two_types(21, 28, f),
            DeltaMode::DeltaS16O3 => lemma_two_types(22, 29, f),
            DeltaMode::LsideS16O3 => lemma_two_types(23, 30, f),
        }
    }
}

/// The types that are tried, in order.
proof fn lemma_tried_types(n: int, e: Entropies)
    ensures
        in_order(block::tried_flags(n, e), 1, 39),
        forall|f: u8| #[trigger] block::tried_flags(n, e).contains(f) <==> is_tried(n, e, f),
{
    let mode = predictor::selected(n, e);
    let plain = block::plain_flags();
    let own = block::mode_flags(mode);
    let planes = block::plane_flags(n, e);
    let channels = block::channel_flags(n, e);
    lemma_mode_types(n, e);
    lemma_in_order(plain, own, 1, 5, 31);
    lemma_plane_types(n, e);
    lemma_in_order(plain + own, planes, 1, 31, 37);
    lemma_in_order(plain + own + planes, channels, 1, 37, 39);
    assert forall|f: u8| #[trigger] block::tried_flags(n, e).contains(f) <==> is_tried(n, e, f) by {
        lemma_four_types(1, 3, 7, 26, f);
        lemma_one_type(37, f);
        lemma_two_types(37, 38, f);
        assert((plain + own).contains(f) <==> plain.contains(f) || own.contains(f));
        assert((plain + own + planes).contains(f) <==> (plain + own).contains(f)
            || planes.contains(f));
    }
}

/// The shortest is the first of those that are equally short.
proof fn lemma_first_of_shortest(flags: Seq<u8>, history: Seq<u8>, b: Seq<u8>)
    ensures
        ({
            let (flag, data) = block::shortest(flags, history, b);
            ||| flag == 0 && data == b
            ||| data.len() < b.len() && exists|k: int|
                {
                    &&& 0 <= k < flags.len()
                    &&& #[trigger] flags[k] == flag
                    &&& forall|i: int|
                        0 <= i < k && block::payload(#[trigger] flags[i], history, b).len() > 0
                            ==> data.len() < block::payload(flags[i], history, b).len()
                }
        }),
    decreases flags.len(),
{
    if flags.len() > 0 {
        let rest = flags.drop_last();
        let last = flags.len() - 1;
        lemma_first_of_shortest(rest, history, b);
        block::lemma_shortest(rest, history, b);
        let (flag, data) = block::shortest(flags, history, b);
        let before = block::shortest(rest, history, b);
        let new = block::payload(flags.last(), history, b);
        if 0 < new.len() < before.1.len() {
            assert(flags[last] == flag);
            assert forall|i: int|
                0 <= i < last && block::payload(#[trigger] flags[i], history, b).len()
                    > 0 implies data.len() < block::payload(flags[i], history, b).len() by {
                assert(rest[i] == flags[i]);
            }
        } else if !(before.0 == 0 && before.1 == b) {
            let k = choose|k: int|
                {
                    &&& 0 <= k < rest.len()
                    &&& #[trigger] rest[k] == flag
                    &&& forall|i: int|
                        0 <= i < k && block::payload(#[trigger] rest[i], history, b).len() > 0
                            ==> data.len() < block::payload(rest[i], history, b).len()
                };
            assert(flags[k] == flag);
            assert forall|i: int|
                0 <= i < k && block::payload(#[trigger] flags[i], history, b).len() > 0 implies data.len()
                < block::payload(flags[i], history, b).len() by {
                assert(rest[i] == flags[i]);
            }
        }
    }
}

/// What is written for a block is the block itself, or one of the types that are tried, and then
/// shorter than the block. No type that is tried is shorter, and none of those that are preferred
/// is as short.
pub proof fn law_block(history: Seq<u8>, b: Seq<u8>, e: Entropies, other: u8)
    ensures
        ({
            let n = b.len() as int;
            let (flag, data) = block::encoded(history, b, e);
            let candidate = block::payload(other, history, b);
            &&& (flag == 0 && data == b) || (is_tried(n, e, flag) && data == block::payload(
                flag,
                history,
                b,
            ) && data.len() < b.len())
            &&& is_tried(n, e, other) && candidate.len() > 0 ==> data.len() <= candidate.len()
            &&& is_tried(n, e, other) && candidate.len() > 0 && flag != 0 && preference(other)
                < preference(flag) ==> data.len() < candidate.len()
        }),
{
    let n = b.len() as int;
    let flags = block::tried_flags(n, e);
    let (flag, data) = block::encoded(history, b, e);
    lemma_tried_types(n, e);
    block::lemma_shortest(flags, history, b);
    lemma_first_of_shortest(flags, history, b);
    assert(flags.contains(other) <==> is_tried(n, e, other));
    assert(flags.contains(flag) <==> is_tried(n, e, flag));
    if flags.contains(other) {
        let i = choose|i: int| 0 <= i < flags.len() && flags[i] == other;
        assert(block::payload(flags[i], history, b).len() == block::payload(other, history, b).len());
        if flag != 0 {
            let k = choose|k: int|
                {
                    &&& 0 <= k < flags.len()
                    &&& #[trigger] flags[k] == flag
                    &&& forall|i: int|
                        0 <= i < k && block::payload(#[trigger] flags[i], history, b).len() > 0
                            ==> data.len() < block::payload(flags[i], history, b).len()
                };
            if preference(other) < preference(flag) {
                if i > k {
                    assert(preference(flags[k]) < preference(flags[i]));
                }
                assert(i < k);
            }
        }
    }
}

/// LZSS commands for something are something, and so are their codings.
proof fn lemma_codings_hold_something(w: Seq<u8>, b: Seq<u8>)
    requires
        0 < b.len() <= 65536,
    ensures
        ({
            let c = lzss::compressed(w, b);
            &&& c.len() > 0
            &&& huffman::section(c).len() > 0
            &&& streams::huf3_section(c).len() > 0
            &&& streams::huf4_section(c).len() > 0
        }),
{
    let c = lzss::compressed(w, b);
    lzss::lemma_compressed(w, b);
    if c.len() == 0 {
        assert((w + b).len() == w.len());
    }
    huffman::lemma_section_len(c);
    reveal(streams::frame3);
    reveal(streams::frame4);
}

/// Every block is tried without a filter, as LZSS commands with its history, in all four codings:
/// what is written is no longer than any of them, nor than the block.
pub proof fn law_block_without_filter(history: Seq<u8>, b: Seq<u8>, e: Entropies)
    requires
        0 < b.len() <= 65536,
    ensures
        ({
            let c = lzss::compressed(history, b);
            let len = block::encoded(history, b, e).1.len();
            &&& len <= b.len()
            &&& len <= c.len()
            &&& len <= huffman::section(c).len()
            &&& len <= streams::huf3_section(c).len()
            &&& len <= streams::huf4_section(c).len()
        }),
{
    lemma_codings_hold_something(history, b);
    law_block(history, b, e, 1);
    law_block(history, b, e, 3);
    law_block(history, b, e, 7);
    law_block(history, b, e, 26);
}

/// A block is tried with the filter of its predictor: what is written is no longer than the coded
/// commands of the filtered block. A delta of the first order has three codings, samples have two,
/// the others one.
#[verifier::rlimit(60)]
pub proof fn law_block_with_predictor(history: Seq<u8>, b: Seq<u8>, e: Entropies)
    requires
        0 < b.len() <= 65536,
    ensures
        ({
            let mode = predictor::selected(b.len() as int, e);
            let c = lzss::compressed(Seq::empty(), mode.filter().filtered(b));
            let len = block::encoded(history, b, e).1.len();
            &&& mode is Delta1 || mode is Delta2 || mode is Delta3 || mode is Delta4 ==> len
                <= c.len() && len <= huffman::section(c).len()
            &&& !(mode is Raw) ==> len <= streams::huf3_section(c).len()
            &&& mode is DeltaS16O2 || mode is DeltaS16O3 || mode is LsideS16O2 || mode is LsideS16O3
                ==> len <= streams::huf4_section(c).len()
        }),
{
    let mode = predictor::selected(b.len() as int, e);
    match mode {
        DeltaMode::Raw => {},
        DeltaMode::Delta1 => {
            lemma_tried_with(history, b, e, 5, Coding::Lzss, Filter::Delta(1));
            lemma_tried_with(history, b, e, 6, Coding::Huf, Filter::Delta(1));
            lemma_tried_with(history, b, e, 8, Coding::Huf3, Filter::Delta(1));
        },
        DeltaMode::Delta2 => {
            lemma_tried_with(history, b, e, 2, Coding::Lzss, Filter::Delta(2));
            lemma_tried_with(history, b, e, 4, Coding::Huf, Filter::Delta(2));
            lemma_tried_with(history, b, e, 9, Coding::Huf3, Filter::Delta(2));
        },
        DeltaMode::Delta3 => {
            lemma_tried_with(history, b, e, 10, Coding::Lzss, Filter::Delta(3));
            lemma_tried_with(history, b, e, 11, Coding::Huf, Filter::Delta(3));
            lemma_tried_with(history, b, e, 12, Coding::Huf3, Filter::Delta(3));
        },
        DeltaMode::Delta4 => {
            lemma_tried_with(history, b, e, 13, Coding::Lzss, Filter::Delta(4));
            lemma_tried_with(history, b, e, 14, Coding::Huf, Filter::Delta(4));
            lemma_tried_with(history, b, e, 15, Coding::Huf3, Filter::Delta(4));
        },
        DeltaMode::Delta1O2 => {
            lemma_tried_with(history, b, e, 16, Coding::Huf3, Filter::DeltaO2(1));
        },
        DeltaMode::Delta4O2 => {
            lemma_tried_with(history, b, e, 17, Coding::Huf3, Filter::DeltaO2(4));
        },
        DeltaMode::Delta2O2 => {
            lemma_tried_with(history, b, e, 24, Coding::Huf3, Filter::DeltaO2(2));
        },
        DeltaMode::Delta3O2 => {
            lemma_tried_with(history, b, e, 25, Coding::Huf3, Filter::DeltaO2(3));
        },
        DeltaMode::LsideD4 => {
            lemma_tried_with(history, b, e, 18, Coding::Huf3, Filter::LsideD4);
        },
        DeltaMode::LsideD4O2 => {
            lemma_tried_with(history, b, e, 19, Coding::Huf3, Filter::LsideD4O2);
        },
        DeltaMode::DeltaS16O2 => {
            lemma_tried_with(history, b, e, 20, Coding::Huf3, Filter::S16O2);
            lemma_tried_with(history, b, e, 27, Coding::Huf4, Filter::S16O2);
        },
        DeltaMode::LsideS16O2 => {
            lemma_tried_with(history, b, e, 21, Coding::Huf3, Filter::LsideS16O2);
            lemma_tried_with(history, b, e, 28, Coding::Huf4, Filter::LsideS16O2);
        },
        DeltaMode::DeltaS16O3 => {
            lemma_tried_with(history, b, e, 22, Coding::Huf3, Filter::S16O3);
            lemma_tried_with(history, b, e, 29, Coding::Huf4, Filter::S16O3);
        },
        DeltaMode::LsideS16O3 => {
            lemma_tried_with(history, b, e, 23, Coding::Huf3, Filter::LsideS16O3);
            lemma_tried_with(history, b, e, 30, Coding::Huf4, Filter::LsideS16O3);
        },
    }
}

/// Where a type with a filter is tried, what is written is no longer.
proof fn lemma_tried_with(
    history: Seq<u8>,
    b: Seq<u8>,
    e: Entropies,
    flag: u8,
    coding: Coding,
    filter: Filter,
)
    requires
        0 < b.len() <= 65536,
        is_tried(b.len() as int, e, flag),
        block::method(flag) == Some((coding, filter)),
        filter.wf(),
        !(filter is Plain),
    ensures
        block::encoded(history, b, e).1.len() <= coding.coded(
            lzss::compressed(Seq::empty(), filter.filtered(b)),
        ).len(),
{
    let f = filter.filtered(b);
    crate::filter::lemma_filtered_len(filter, b);
    lemma_codings_hold_something(Seq::empty(), f);
    law_payload(flag, coding, filter, history, b);
    law_block(history, b, e, flag);
}

/// A regular block with whole rows whose distances at a stride come below the bound is tried with
/// that many planes, of the first and of the second order.
pub proof fn law_block_with_planes(history: Seq<u8>, b: Seq<u8>, e: Entropies, k: int)
    requires
        0 < b.len() <= 65536,
        2 <= k <= 4,
        e.low,
        b.len() as int % k == 0,
        e.delta@[k - 1] < e.planar,
    ensures
        ({
            let c1 = lzss::compressed(Seq::empty(), planar::planar_filtered(b, k, 1));
            let c2 = lzss::compressed(Seq::empty(), planar::planar_filtered(b, k, 2));
            let len = block::encoded(history, b, e).1.len();
            &&& len <= streams::huf3_section(c1).len()
            &&& len <= streams::huf3_section(c2).len()
        }),
{
    if k == 2 {
        lemma_planes_tried(history, b, e, 31, 2, 1);
        lemma_planes_tried(history, b, e, 34, 2, 2);
    } else if k == 3 {
        lemma_planes_tried(history, b, e, 32, 3, 1);
        lemma_planes_tried(history, b, e, 35, 3, 2);
    } else {
        lemma_planes_tried(history, b, e, 33, 4, 1);
        lemma_planes_tried(history, b, e, 36, 4, 2);
    }
}

proof fn lemma_planes_tried(
    history: Seq<u8>,
    b: Seq<u8>,
    e: Entropies,
    flag: u8,
    k: usize,
    order: int,
)
    requires
        0 < b.len() <= 65536,
        1 <= k <= 4,
        is_tried(b.len() as int, e, flag),
        order == 1 ==> block::method(flag) == Some((Coding::Huf3, Filter::Planar(k))),
        order != 1 ==> order == 2 && block::method(flag) == Some(
            (Coding::Huf3, Filter::PlanarO2(k)),
        ),
    ensures
        block::encoded(history, b, e).1.len() <= streams::huf3_section(
            lzss::compressed(Seq::empty(), planar::planar_filtered(b, k as int, order)),
        ).len(),
{
    if order == 1 {
        lemma_tried_with(history, b, e, flag, Coding::Huf3, Filter::Planar(k));
    } else {
        lemma_tried_with(history, b, e, flag, Coding::Huf3, Filter::PlanarO2(k));
    }
}

/// A regular block of pairs of samples whose second differences, channel by channel, come below
/// the bound is tried with them, and with the third differences where these do better.
#[verifier::rlimit(40)]
pub proof fn law_block_with_channels(history: Seq<u8>, b: Seq<u8>, e: Entropies)
    requires
        8 <= b.len() <= 65536,
        e.low,
        b.len() % 4 == 0,
        e.stereo_o2 < e.stereo,
    ensures
        ({
            let c2 = lzss::compressed(Seq::empty(), stereo::stereo_planar_filtered(b, 2));
            let c3 = lzss::compressed(Seq::empty(), stereo::stereo_planar_filtered(b, 3));
            let len = block::encoded(history, b, e).1.len();
            &&& len <= streams::huf4_section(c2).len()
            &&& b.len() >= 12 && e.stereo_o3 < e.stereo_o2 ==> len <= streams::huf4_section(
                c3,
            ).len()
        }),
{
    lemma_tried_with(history, b, e, 37, Coding::Huf4, Filter::StereoS16O2);
    if b.len() >= 12 && e.stereo_o3 < e.stereo_o2 {
        lemma_tried_with(history, b, e, 38, Coding::Huf4, Filter::StereoS16O3);
    }
}

/// How a record is read back by its type: coding, LZSS, filter. A stored block is taken as it is,
/// and no other types exist.
pub proof fn law_contents(flag: u8, history: Seq<u8>, data: Seq<u8>, n: int)
    ensures
        flag == 0 ==> block::contents(flag, history, data, n) == Ok::<Seq<u8>, Error>(data),
        flag > 38 ==> block::contents(flag, history, data, n) == Err::<Seq<u8>, Error>(
            Error::UnknownBlockType,
        ),
        block::method(flag) matches Some((coding, filter)) ==> {
            let w = if filter is Plain {
                history
            } else {
                Seq::empty()
            };
            match coding.contents(data) {
                Err(e) => block::contents(flag, history, data, n) == Err::<Seq<u8>, Error>(e),
                Ok(cmds) => match lzss::decompressed(w, cmds, n) {
                    Err(e) => block::contents(flag, history, data, n) == Err::<Seq<u8>, Error>(e),
                    Ok(s) => block::contents(flag, history, data, n) == Ok::<Seq<u8>, Error>(
                        filter.unfiltered(s),
                    ),
                },
            }
        },
        Coding::Lzss.contents(data) == Ok::<Seq<u8>, Error>(data),
        Coding::Huf.contents(data) == huffman::section_contents(data),
        Coding::Huf3.contents(data) == streams::huf3_contents(data),
        Coding::Huf4.contents(data) == streams::huf4_contents(data),
{
    reveal(block::contents);
}

/// The history is the last 65536 bytes that came before, or all of them where they are fewer.
pub proof fn law_history(history: Seq<u8>, b: Seq<u8>)
    ensures
        ({
            let all = history + b;
            let next = block::pushed(history, b);
            &&& all.len() <= 65536 ==> next == all
            &&& all.len() > 65536 ==> next.len() == 65536 && forall|i: int|
                0 <= i < 65536 ==> #[trigger] next[i] == all[all.len() - 65536 + i]
        }),
{
}

} // verus!
