//! The filters that a block can go through before it is compressed.

use crate::delta;
use crate::huffman;
use crate::planar;
use crate::sample;
use crate::stereo;
use vstd::prelude::*;

verus! {

/// A reversible change of a block that leaves its length alone.
#[derive(Clone, Copy, Debug, PartialEq, Eq, Structural)]
pub enum Filter {
    /// No change. A block without a filter may refer to the blocks before it.
    Plain,
    /// The distance from the byte the given number of places before.
    Delta(usize),
    /// The distance from the line through the two bytes at the given spacing before.
    DeltaO2(usize),
    /// The right half of each frame less the left half, then the distance from the frame before.
    LsideD4,
    /// The right half of each frame less the left half, then the distance from the line through
    /// the two frames before.
    LsideD4O2,
    /// Residuals of 16-bit samples, second order.
    S16O2,
    /// Residuals of 16-bit samples, third order.
    S16O3,
    /// Residuals of the left channel and of the distance of the right one from it, second order.
    LsideS16O2,
    /// Residuals of the left channel and of the distance of the right one from it, third order.
    LsideS16O3,
    /// The given number of planes, each as distances from the byte before.
    Planar(usize),
    /// The given number of planes, each as distances from the line through the two bytes before.
    PlanarO2(usize),
    /// Residuals of the left channel, then those of the right one, second order.
    StereoS16O2,
    /// Residuals of the left channel, then those of the right one, third order.
    StereoS16O3,
}

impl Filter {
    /// The filter has a stride that blocks use.
    pub open spec fn wf(self) -> bool {
        match self {
            Filter::Delta(k) | Filter::DeltaO2(k) | Filter::Planar(k) | Filter::PlanarO2(k) => {
                1 <= k <= 4
            },
            _ => true,
        }
    }

    /// The filter can be taken back on blocks of `n` bytes: the two channels of a block must have
    /// as many samples as the order.
    pub open spec fn fits(self, n: int) -> bool {
        match self {
            Filter::StereoS16O2 => stereo::is_stereo(n, 2),
            Filter::StereoS16O3 => stereo::is_stereo(n, 3),
            _ => true,
        }
    }

    /// What the filter makes of a block.
    pub open spec fn filtered(self, data: Seq<u8>) -> Seq<u8> {
        match self {
            Filter::Plain => data,
            Filter::Delta(k) => delta::filtered(data, k as int, 1),
            Filter::DeltaO2(k) => delta::filtered(data, k as int, 2),
            Filter::LsideD4 => delta::filtered(delta::side_filtered(data), 4, 1),
            Filter::LsideD4O2 => delta::filtered(delta::side_filtered(data), 4, 2),
            Filter::S16O2 => sample::s16_filtered(data, 2),
            Filter::S16O3 => sample::s16_filtered(data, 3),
            Filter::LsideS16O2 => stereo::lside_filtered(data, 2),
            Filter::LsideS16O3 => stereo::lside_filtered(data, 3),
            Filter::Planar(k) => planar::planar_filtered(data, k as int, 1),
            Filter::PlanarO2(k) => planar::planar_filtered(data, k as int, 2),
            Filter::StereoS16O2 => stereo::stereo_planar_filtered(data, 2),
            Filter::StereoS16O3 => stereo::stereo_planar_filtered(data, 3),
        }
    }

    /// The block that the filtered bytes come from.
    pub open spec fn unfiltered(self, data: Seq<u8>) -> Seq<u8> {
        let n = data.len() as int;
        match self {
            Filter::Plain => data,
            Filter::Delta(k) => delta::unfiltered(data, k as int, 1),
            Filter::DeltaO2(k) => delta::unfiltered(data, k as int, 2),
            Filter::LsideD4 => delta::side_unfiltered(delta::unfiltered(data, 4, 1)),
            Filter::LsideD4O2 => delta::side_unfiltered(delta::unfiltered(data, 4, 2)),
            Filter::S16O2 => sample::s16_unfiltered(data, 2),
            Filter::S16O3 => sample::s16_unfiltered(data, 3),
            Filter::LsideS16O2 => stereo::lside_unfiltered(data, 2),
            Filter::LsideS16O3 => stereo::lside_unfiltered(data, 3),
            Filter::Planar(k) => planar::planar_unfiltered(data, k as int, n, 1),
            Filter::PlanarO2(k) => planar::planar_unfiltered(data, k as int, n, 2),
            Filter::StereoS16O2 => stereo::stereo_planar_unfiltered(data, n, 2),
            Filter::StereoS16O3 => stereo::stereo_planar_unfiltered(data, n, 3),
        }
    }

    /// Filters a block.
    pub fn apply(self, block: &[u8]) -> (out: Vec<u8>)
        requires
            self.wf(),
        ensures
            out@ == self.filtered(block@),
    {
        match self {
            Filter::Plain => vstd::slice::slice_to_vec(block),
            Filter::Delta(k) => delta::delta_n_encode(block, k),
            Filter::DeltaO2(k) => delta::delta_n_order2_encode(block, k),
            Filter::LsideD4 => {
                let side: Vec<u8> = delta::leftside_encode(block);
                delta::delta_n_encode(side.as_slice(), 4)
            },
            Filter::LsideD4O2 => {
                let side: Vec<u8> = delta::leftside_encode(block);
                delta::delta_n_order2_encode(side.as_slice(), 4)
            },
            Filter::S16O2 => sample::delta_s16_o2_encode(block),
            Filter::S16O3 => sample::delta_s16_o3_encode(block),
            Filter::LsideS16O2 => stereo::lside_s16_o2_encode(block),
            Filter::LsideS16O3 => stereo::lside_s16_o3_encode(block),
            Filter::Planar(k) => planar::planar_delta_encode(block, k),
            Filter::PlanarO2(k) => planar::planar_o2_delta_encode(block, k),
            Filter::StereoS16O2 => stereo::stereo_planar_s16_o2_encode(block),
            Filter::StereoS16O3 => stereo::stereo_planar_s16_o3_encode(block),
        }
    }

    /// How often each byte value occurs in a filtered block: what the entropy of the block through
    /// this filter is worked out from.
    pub fn tally(self, block: &[u8]) -> (freq: [u32; 256])
        requires
            self.wf(),
            block@.len() <= u32::MAX,
        ensures
            freq@ == huffman::frequencies(self.filtered(block@)),
    {
        let filtered: Vec<u8> = self.apply(block);
        proof {
            lemma_filtered_len(self, block@);
        }
        huffman::count_bytes(filtered.as_slice())
    }

    /// Takes the filter back.
    pub fn undo(self, data: Vec<u8>) -> (out: Vec<u8>)
        requires
            self.wf(),
        ensures
            out@ == self.unfiltered(data@),
    {
        let n: usize = data.len();
        match self {
            Filter::Plain => data,
            Filter::Delta(k) => {
                if k == 1 {
                    delta::delta1_decode(data)
                } else if k == 2 {
                    delta::delta2_decode(data)
                } else {
                    delta::delta_n_decode(data, k)
                }
            },
            Filter::DeltaO2(k) => delta::delta_n_order2_decode(data, k),
            Filter::LsideD4 => delta::leftside_decode(delta::delta_n_decode(data, 4)),
            Filter::LsideD4O2 => delta::leftside_decode(delta::delta_n_order2_decode(data, 4)),
            Filter::S16O2 => sample::delta_s16_o2_decode(data),
            Filter::S16O3 => sample::delta_s16_o3_decode(data),
            Filter::LsideS16O2 => stereo::lside_s16_o2_decode(data),
            Filter::LsideS16O3 => stereo::lside_s16_o3_decode(data),
            Filter::Planar(k) => planar::planar_delta_decode(data.as_slice(), k, n),
            Filter::PlanarO2(k) => planar::planar_o2_delta_decode(data.as_slice(), k, n),
            Filter::StereoS16O2 => stereo::stereo_planar_s16_o2_decode(data.as_slice(), n),
            Filter::StereoS16O3 => stereo::stereo_planar_s16_o3_decode(data.as_slice(), n),
        }
    }
}

/// A filter leaves the length alone.
pub proof fn lemma_filtered_len(filter: Filter, data: Seq<u8>)
    requires
        filter.wf(),
    ensures
        filter.filtered(data).len() == data.len(),
{
    match filter {
        Filter::S16O2 => lemma_residuals_len(data, 2),
        Filter::S16O3 => lemma_residuals_len(data, 3),
        Filter::LsideS16O2 | Filter::StereoS16O2 => lemma_channels_len(data, 2),
        Filter::LsideS16O3 | Filter::StereoS16O3 => lemma_channels_len(data, 3),
        Filter::Planar(k) => planar::lemma_planar_len(data, k as int, 1),
        Filter::PlanarO2(k) => planar::lemma_planar_len(data, k as int, 2),
        _ => {},
    }
}

/// Residuals are as many as the samples.
proof fn lemma_residuals_len(data: Seq<u8>, order: int)
    ensures
        sample::s16_filtered(data, order).len() == data.len(),
{
    sample::lemma_residuals_within(sample::samples(data), order);
}

/// The residuals of two channels are as many as their samples.
proof fn lemma_channels_len(data: Seq<u8>, order: int)
    ensures
        stereo::lside_filtered(data, order).len() == data.len(),
        stereo::stereo_planar_filtered(data, order).len() == data.len(),
{
    let left = stereo::evens(sample::samples(data));
    let right = stereo::odds(sample::samples(data));
    sample::lemma_residuals_within(left, order);
    sample::lemma_residuals_within(right, order);
}

/// A filter loses nothing: taking it back gives the block.
pub proof fn lemma_filter_round_trip(filter: Filter, data: Seq<u8>)
    requires
        filter.wf(),
        filter.fits(data.len() as int),
    ensures
        filter.unfiltered(filter.filtered(data)) == data,
{
    lemma_filtered_len(filter, data);
    match filter {
        Filter::Plain => {},
        Filter::Delta(k) => delta::lemma_delta_round_trip(data, k as int, 1),
        Filter::DeltaO2(k) => delta::lemma_delta_round_trip(data, k as int, 2),
        Filter::LsideD4 => {
            delta::lemma_delta_round_trip(delta::side_filtered(data), 4, 1);
            delta::lemma_side_round_trip(data);
        },
        Filter::LsideD4O2 => {
            delta::lemma_delta_round_trip(delta::side_filtered(data), 4, 2);
            delta::lemma_side_round_trip(data);
        },
        Filter::S16O2 => sample::lemma_s16_round_trip(data, 2),
        Filter::S16O3 => sample::lemma_s16_round_trip(data, 3),
        Filter::LsideS16O2 => stereo::lemma_lside_round_trip(data, 2),
        Filter::LsideS16O3 => stereo::lemma_lside_round_trip(data, 3),
        Filter::Planar(k) => planar::lemma_planar_round_trip(data, k as int, 1),
        Filter::PlanarO2(k) => planar::lemma_planar_round_trip(data, k as int, 2),
        Filter::StereoS16O2 => stereo::lemma_stereo_planar_round_trip(data, 2),
        Filter::StereoS16O3 => stereo::lemma_stereo_planar_round_trip(data, 3),
    }
}

} // verus!
