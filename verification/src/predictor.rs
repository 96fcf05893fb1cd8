//! Which predictor a block goes through.

use crate::filter::Filter;
use vstd::prelude::*;

verus! {

/// A predictor for a block.
#[derive(Clone, Copy, Debug, PartialEq, Eq, Structural)]
pub enum DeltaMode {
    /// No predictor.
    Raw,
    Delta1,
    Delta2,
    Delta3,
    Delta4,
    Delta1O2,
    Delta4O2,
    Delta2O2,
    Delta3O2,
    LsideD4,
    LsideD4O2,
    DeltaS16O2,
    LsideS16O2,
    DeltaS16O3,
    LsideS16O3,
}

/// Figures for the entropy of a block through each filter, and the bounds that these figures are
/// held against. Only their order counts, so the figures may be on any scale that keeps it.
/// Figures of filters that the size of the block rules out are not looked at.
#[derive(Clone, Copy, Debug, PartialEq, Eq)]
pub struct Entropies {
    /// A predictor must come below this one to be used.
    pub accept: i32,
    /// The second order must come below this one for the third order to be tried.
    pub third_order: i32,
    /// `Filter::Delta` must come below this one for planes of its stride to be tried.
    pub planar: i32,
    /// `Filter::StereoS16O2` must come below this one to be tried.
    pub stereo: i32,
    /// The raw block is regular enough for planes and separate channels to be tried.
    pub low: bool,
    /// `Filter::Delta` at strides 1 to 4.
    pub delta: [i32; 4],
    /// `Filter::DeltaO2` at strides 1 to 4.
    pub delta_o2: [i32; 4],
    /// `Filter::LsideD4`.
    pub lside_d4: i32,
    /// `Filter::LsideD4O2`.
    pub lside_d4_o2: i32,
    /// `Filter::S16O2`.
    pub s16_o2: i32,
    /// `Filter::S16O3`.
    pub s16_o3: i32,
    /// `Filter::LsideS16O2`.
    pub lside_s16_o2: i32,
    /// `Filter::LsideS16O3`.
    pub lside_s16_o3: i32,
    /// `Filter::StereoS16O2`.
    pub stereo_o2: i32,
    /// `Filter::StereoS16O3`.
    pub stereo_o3: i32,
}

impl DeltaMode {
    /// The filter of a predictor.
    pub open spec fn filter(self) -> Filter {
        match self {
            DeltaMode::Raw => Filter::Plain,
            DeltaMode::Delta1 => Filter::Delta(1),
            DeltaMode::Delta2 => Filter::Delta(2),
            DeltaMode::Delta3 => Filter::Delta(3),
            DeltaMode::Delta4 => Filter::Delta(4),
            DeltaMode::Delta1O2 => Filter::DeltaO2(1),
            DeltaMode::Delta4O2 => Filter::DeltaO2(4),
            DeltaMode::Delta2O2 => Filter::DeltaO2(2),
            DeltaMode::Delta3O2 => Filter::DeltaO2(3),
            DeltaMode::LsideD4 => Filter::LsideD4,
            DeltaMode::LsideD4O2 => Filter::LsideD4O2,
            DeltaMode::DeltaS16O2 => Filter::S16O2,
            DeltaMode::LsideS16O2 => Filter::LsideS16O2,
            DeltaMode::DeltaS16O3 => Filter::S16O3,
            DeltaMode::LsideS16O3 => Filter::LsideS16O3,
        }
    }

    fn filter_of(self) -> (f: Filter)
        ensures
            f == self.filter(),
            f.wf(),
    {
        match self {
            DeltaMode::Raw => Filter::Plain,
            DeltaMode::Delta1 => Filter::Delta(1),
            DeltaMode::Delta2 => Filter::Delta(2),
            DeltaMode::Delta3 => Filter::Delta(3),
            DeltaMode::Delta4 => Filter::Delta(4),
            DeltaMode::Delta1O2 => Filter::DeltaO2(1),
            DeltaMode::Delta4O2 => Filter::DeltaO2(4),
            DeltaMode::Delta2O2 => Filter::DeltaO2(2),
            DeltaMode::Delta3O2 => Filter::DeltaO2(3),
            DeltaMode::LsideD4 => Filter::LsideD4,
            DeltaMode::LsideD4O2 => Filter::LsideD4O2,
            DeltaMode::DeltaS16O2 => Filter::S16O2,
            DeltaMode::LsideS16O2 => Filter::LsideS16O2,
            DeltaMode::DeltaS16O3 => Filter::S16O3,
            DeltaMode::LsideS16O3 => Filter::LsideS16O3,
        }
    }
}

/// The predictors for bytes, in the order in which they are tried, with their figures.
pub open spec fn byte_candidates(e: Entropies) -> Seq<(DeltaMode, i32)> {
    seq![
        (DeltaMode::Delta1, e.delta@[0]),
        (DeltaMode::Delta2, e.delta@[1]),
        (DeltaMode::Delta3, e.delta@[2]),
        (DeltaMode::Delta4, e.delta@[3]),
        (DeltaMode::Delta1O2, e.delta_o2@[0]),
        (DeltaMode::Delta4O2, e.delta_o2@[3]),
        (DeltaMode::Delta2O2, e.delta_o2@[1]),
        (DeltaMode::Delta3O2, e.delta_o2@[2]),
    ]
}

/// The predictors for 16-bit samples that blocks of `n` bytes admit. The third order is tried only
/// where the second one does clearly better than the raw block.
pub open spec fn mono_candidates(n: int, e: Entropies) -> Seq<(DeltaMode, i32)> {
    if n % 2 == 0 && n >= 4 {
        let o2 = seq![(DeltaMode::DeltaS16O2, e.s16_o2)];
        if n >= 6 && e.s16_o2 < e.third_order && e.s16_o3 < e.s16_o2 {
            seq![(DeltaMode::DeltaS16O3, e.s16_o3)] + o2
        } else {
            o2
        }
    } else {
        Seq::empty()
    }
}

/// The predictors for two channels of 16-bit samples that blocks of `n` bytes admit.
pub open spec fn stereo_candidates(n: int, e: Entropies) -> Seq<(DeltaMode, i32)> {
    if n % 4 == 0 {
        let bytes = seq![
            (DeltaMode::LsideD4, e.lside_d4),
            (DeltaMode::LsideD4O2, e.lside_d4_o2),
        ];
        let o2 = seq![(DeltaMode::LsideS16O2, e.lside_s16_o2)];
        if n >= 12 && e.lside_s16_o2 < e.third_order && e.lside_s16_o3 < e.lside_s16_o2 {
            bytes + seq![(DeltaMode::LsideS16O3, e.lside_s16_o3)] + o2
        } else if n >= 8 {
            bytes + o2
        } else {
            bytes
        }
    } else {
        Seq::empty()
    }
}

/// The predictors for blocks of `n` bytes, in the order in which they are tried, with their
/// figures.
pub open spec fn candidates(n: int, e: Entropies) -> Seq<(DeltaMode, i32)> {
    byte_candidates(e) + mono_candidates(n, e) + stereo_candidates(n, e)
}

/// The first of the candidates with the lowest figure below `bound`.
pub open spec fn lowest(c: Seq<(DeltaMode, i32)>, bound: i32) -> (DeltaMode, i32)
    decreases c.len(),
{
    if c.len() == 0 {
        (DeltaMode::Raw, bound)
    } else {
        let best = lowest(c.drop_last(), bound);
        if c.last().1 < best.1 {
            c.last()
        } else {
            best
        }
    }
}

/// The predictor for a block of `n` bytes.
pub open spec fn selected(n: int, e: Entropies) -> DeltaMode {
    lowest(candidates(n, e), e.accept).0
}

/// Lists the predictors for blocks of `n` bytes.
fn list_candidates(n: usize, e: &Entropies) -> (c: Vec<(DeltaMode, i32)>)
    ensures
        c@ == candidates(n as int, *e),
{
    let mut c: Vec<(DeltaMode, i32)> = Vec::new();
    c.push((DeltaMode::Delta1, e.delta[0]));
    c.push((DeltaMode::Delta2, e.delta[1]));
    c.push((DeltaMode::Delta3, e.delta[2]));
    c.push((DeltaMode::Delta4, e.delta[3]));
    c.push((DeltaMode::Delta1O2, e.delta_o2[0]));
    c.push((DeltaMode::Delta4O2, e.delta_o2[3]));
    c.push((DeltaMode::Delta2O2, e.delta_o2[1]));
    c.push((DeltaMode::Delta3O2, e.delta_o2[2]));
    assert(c@ =~= byte_candidates(*e));
    if n % 2 == 0 && n >= 4 {
        if n >= 6 && e.s16_o2 < e.third_order && e.s16_o3 < e.s16_o2 {
            c.push((DeltaMode::DeltaS16O3, e.s16_o3));
        }
        c.push((DeltaMode::DeltaS16O2, e.s16_o2));
    }
    assert(c@ =~= byte_candidates(*e) + mono_candidates(n as int, *e));
    if n % 4 == 0 {
        c.push((DeltaMode::LsideD4, e.lside_d4));
        c.push((DeltaMode::LsideD4O2, e.lside_d4_o2));
        if n >= 8 {
            if n >= 12 && e.lside_s16_o2 < e.third_order && e.lside_s16_o3 < e.lside_s16_o2 {
                c.push((DeltaMode::LsideS16O3, e.lside_s16_o3));
            }
            c.push((DeltaMode::LsideS16O2, e.lside_s16_o2));
        }
    }
    assert(c@ =~= candidates(n as int, *e));
    c
}

/// The predictor for a block, and what it makes of the block; nothing where no predictor does
/// better than the raw block.
pub fn select_predictor(block: &[u8], e: &Entropies) -> (r: (DeltaMode, Vec<u8>))
    ensures
        r.0 == selected(block@.len() as int, *e),
        r.0 is Raw ==> r.1@ == Seq::<u8>::empty(),
        !(r.0 is Raw) ==> r.1@ == r.0.filter().filtered(block@),
{
    let c: Vec<(DeltaMode, i32)> = list_candidates(block.len(), e);
    let mut mode: DeltaMode = DeltaMode::Raw;
    let mut best: i32 = e.accept;
    let mut i: usize = 0;
    while i < c.len()
        invariant
            i <= c@.len(),
            (mode, best) == lowest(c@.take(i as int), e.accept),
        decreases c@.len() - i,
    {
        assert(c@.take(i + 1).drop_last() =~= c@.take(i as int));
        let (m, figure): (DeltaMode, i32) = c[i];
        if figure < best {
            mode = m;
            best = figure;
        }
        i = i + 1;
    }
    assert(c@.take(i as int) =~= c@);
    match mode {
        DeltaMode::Raw => (mode, Vec::new()),
        _ => {
            let buf: Vec<u8> = mode.filter_of().apply(block);
            (mode, buf)
        },
    }
}

/// The predictor that is selected is the first of those with the lowest figure, and that figure is
/// below the bound; none is selected exactly where no figure is below the bound.
pub proof fn lemma_selected(n: int, e: Entropies)
    ensures
        ({
            let c = candidates(n, e);
            let mode = selected(n, e);
            &&& mode is Raw <==> (forall|i: int| 0 <= i < c.len() ==> e.accept <= #[trigger] c[i].1)
            &&& !(mode is Raw) ==> exists|k: int|
                {
                    &&& 0 <= k < c.len()
                    &&& #[trigger] c[k].0 == mode
                    &&& c[k].1 < e.accept
                    &&& forall|i: int| 0 <= i < c.len() ==> c[k].1 <= #[trigger] c[i].1
                    &&& forall|i: int| 0 <= i < k ==> c[k].1 < #[trigger] c[i].1
                }
        }),
{
    let c = candidates(n, e);
    assert forall|i: int| 0 <= i < c.len() implies !(#[trigger] c[i].0 is Raw) by {}
    lemma_lowest(c, e.accept);
    let (mode, figure) = lowest(c, e.accept);
    if !(mode is Raw) {
        let k = choose|k: int|
            {
                &&& 0 <= k < c.len()
                &&& #[trigger] c[k] == (mode, figure)
                &&& forall|i: int| 0 <= i < k ==> figure < #[trigger] c[i].1
            };
        assert(c[k].0 == mode);
    }
}

/// What `lowest` picks from predictors.
proof fn lemma_lowest(c: Seq<(DeltaMode, i32)>, bound: i32)
    requires
        forall|i: int| 0 <= i < c.len() ==> !(#[trigger] c[i].0 is Raw),
    ensures
        ({
            let (mode, figure) = lowest(c, bound);
            &&& forall|i: int| 0 <= i < c.len() ==> figure <= #[trigger] c[i].1
            &&& mode is Raw <==> (forall|i: int| 0 <= i < c.len() ==> bound <= #[trigger] c[i].1)
            &&& mode is Raw ==> figure == bound
            &&& !(mode is Raw) ==> figure < bound && exists|k: int|
                {
                    &&& 0 <= k < c.len()
                    &&& #[trigger] c[k] == (mode, figure)
                    &&& forall|i: int| 0 <= i < k ==> figure < #[trigger] c[i].1
                }
        }),
    decreases c.len(),
{
    if c.len() > 0 {
        let rest = c.drop_last();
        assert forall|i: int| 0 <= i < rest.len() implies !(#[trigger] rest[i].0 is Raw) by {
            assert(rest[i] == c[i]);
        }
        lemma_lowest(rest, bound);
        let n = c.len() - 1;
        let (mode, figure) = lowest(c, bound);
        let (before_mode, before) = lowest(rest, bound);
        assert forall|i: int| 0 <= i < c.len() implies figure <= #[trigger] c[i].1 by {
            if i < n {
                assert(rest[i] == c[i]);
            }
        }
        if c[n].1 < before {
            assert forall|i: int| 0 <= i < n implies figure < #[trigger] c[i].1 by {
                assert(rest[i] == c[i]);
            }
            assert(c[n] == (mode, figure));
            assert(c[n].1 < bound);
        } else if !(before_mode is Raw) {
            let k = choose|k: int|
                {
                    &&& 0 <= k < rest.len()
                    &&& #[trigger] rest[k] == (mode, figure)
                    &&& forall|i: int| 0 <= i < k ==> figure < #[trigger] rest[i].1
                };
            assert(c[k] == rest[k]);
            assert forall|i: int| 0 <= i < k implies figure < #[trigger] c[i].1 by {
                assert(rest[i] == c[i]);
            }
            assert(c[k].1 < bound);
        }
    }
}

/// The same figures on another scale.
pub open spec fn scaled(e: Entropies, f: spec_fn(i32) -> i32) -> Entropies {
    Entropies {
        accept: f(e.accept),
        third_order: f(e.third_order),
        planar: f(e.planar),
        stereo: f(e.stereo),
        low: e.low,
        delta: [f(e.delta@[0]), f(e.delta@[1]), f(e.delta@[2]), f(e.delta@[3])],
        delta_o2: [f(e.delta_o2@[0]), f(e.delta_o2@[1]), f(e.delta_o2@[2]), f(e.delta_o2@[3])],
        lside_d4: f(e.lside_d4),
        lside_d4_o2: f(e.lside_d4_o2),
        s16_o2: f(e.s16_o2),
        s16_o3: f(e.s16_o3),
        lside_s16_o2: f(e.lside_s16_o2),
        lside_s16_o3: f(e.lside_s16_o3),
        stereo_o2: f(e.stereo_o2),
        stereo_o3: f(e.stereo_o3),
    }
}

/// A scale keeps the order of figures.
pub open spec fn keeps_order(f: spec_fn(i32) -> i32) -> bool {
    forall|a: i32, b: i32| a < b <==> #[trigger] f(a) < #[trigger] f(b)
}

/// Only the order of the figures counts: on another scale that keeps it the same predictor is
/// selected.
pub proof fn lemma_selected_scaled(n: int, e: Entropies, f: spec_fn(i32) -> i32)
    requires
        keeps_order(f),
    ensures
        selected(n, scaled(e, f)) == selected(n, e),
{
    let g = scaled(e, f);
    let c = candidates(n, e);
    let d = candidates(n, g);
    assert(d =~= c.map_values(|p: (DeltaMode, i32)| (p.0, f(p.1))));
    lemma_lowest_scaled(c, e.accept, f);
}

/// What `lowest` picks on another scale.
proof fn lemma_lowest_scaled(c: Seq<(DeltaMode, i32)>, bound: i32, f: spec_fn(i32) -> i32)
    requires
        keeps_order(f),
    ensures
        ({
            let d = c.map_values(|p: (DeltaMode, i32)| (p.0, f(p.1)));
            &&& lowest(d, f(bound)).0 == lowest(c, bound).0
            &&& lowest(d, f(bound)).1 == f(lowest(c, bound).1)
        }),
    decreases c.len(),
{
    let g = |p: (DeltaMode, i32)| (p.0, f(p.1));
    let d = c.map_values(g);
    if c.len() > 0 {
        lemma_lowest_scaled(c.drop_last(), bound, f);
        assert(d.drop_last() =~= c.drop_last().map_values(g));
        let (a, b) = (c.last().1, lowest(c.drop_last(), bound).1);
        assert(a < b <==> f(a) < f(b));
    }
}

} // verus!
