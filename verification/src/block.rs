//! Blocks: a filter, LZSS and an entropy coding, by the block type that stands in the container.

use crate::error;
use crate::error::Error;
use crate::filter;
use crate::filter::Filter;
use crate::huffman;
use crate::lzss;
use crate::matcher::WINDOW_SIZE;
use crate::predictor;
use crate::predictor::{DeltaMode, Entropies};
use crate::streams;
use vstd::prelude::*;
use vstd::slice::{slice_subrange, slice_to_vec};

verus! {

/// A block holds at most this many bytes.
pub const BLOCK_SIZE: usize = 65536;

pub const BLOCK_STORED: u8 = 0;

pub const BLOCK_LZSS: u8 = 1;

pub const BLOCK_DELTA2_LZSS: u8 = 2;

pub const BLOCK_LZSS_HUF: u8 = 3;

pub const BLOCK_DELTA2_LZSS_HUF: u8 = 4;

pub const BLOCK_DELTA1_LZSS: u8 = 5;

pub const BLOCK_DELTA1_LZSS_HUF: u8 = 6;

pub const BLOCK_LZSS_HUF3: u8 = 7;

pub const BLOCK_DELTA1_LZSS_HUF3: u8 = 8;

pub const BLOCK_DELTA2_LZSS_HUF3: u8 = 9;

pub const BLOCK_DELTA3_LZSS: u8 = 10;

pub const BLOCK_DELTA3_LZSS_HUF: u8 = 11;

pub const BLOCK_DELTA3_LZSS_HUF3: u8 = 12;

pub const BLOCK_DELTA4_LZSS: u8 = 13;

pub const BLOCK_DELTA4_LZSS_HUF: u8 = 14;

pub const BLOCK_DELTA4_LZSS_HUF3: u8 = 15;

pub const BLOCK_DELTA1_O2_LZSS_HUF3: u8 = 16;

pub const BLOCK_DELTA4_O2_LZSS_HUF3: u8 = 17;

pub const BLOCK_LSIDE_D4_LZSS_HUF3: u8 = 18;

pub const BLOCK_LSIDE_D4O2_LZSS_HUF3: u8 = 19;

pub const BLOCK_DELTA_S16_O2_LZSS_HUF3: u8 = 20;

pub const BLOCK_LSIDE_S16_O2_LZSS_HUF3: u8 = 21;

pub const BLOCK_DELTA_S16_O3_LZSS_HUF3: u8 = 22;

pub const BLOCK_LSIDE_S16_O3_LZSS_HUF3: u8 = 23;

pub const BLOCK_DELTA2_O2_LZSS_HUF3: u8 = 24;

pub const BLOCK_DELTA3_O2_LZSS_HUF3: u8 = 25;

pub const BLOCK_LZSS_HUF4: u8 = 26;

pub const BLOCK_DELTA_S16_O2_LZSS_HUF4: u8 = 27;

pub const BLOCK_LSIDE_S16_O2_LZSS_HUF4: u8 = 28;

pub const BLOCK_DELTA_S16_O3_LZSS_HUF4: u8 = 29;

pub const BLOCK_LSIDE_S16_O3_LZSS_HUF4: u8 = 30;

pub const BLOCK_PLANAR2_LZSS_HUF3: u8 = 31;

pub const BLOCK_PLANAR3_LZSS_HUF3: u8 = 32;

pub const BLOCK_PLANAR4_LZSS_HUF3: u8 = 33;

pub const BLOCK_PLANAR2_O2_LZSS_HUF3: u8 = 34;

pub const BLOCK_PLANAR3_O2_LZSS_HUF3: u8 = 35;

pub const BLOCK_PLANAR4_O2_LZSS_HUF3: u8 = 36;

pub const BLOCK_PLANAR4_S16_O2_LZSS_HUF4: u8 = 37;

pub const BLOCK_PLANAR4_S16_O3_LZSS_HUF4: u8 = 38;

/// How LZSS commands are written.
#[derive(Clone, Copy, Debug, PartialEq, Eq, Structural)]
pub enum Coding {
    /// As they are.
    Lzss,
    /// As one Huffman section.
    Huf,
    /// As three streams.
    Huf3,
    /// As four streams.
    Huf4,
}

impl Coding {
    /// LZSS commands as they are written.
    pub open spec fn coded(self, cmds: Seq<u8>) -> Seq<u8> {
        match self {
            Coding::Lzss => cmds,
            Coding::Huf => huffman::section(cmds),
            Coding::Huf3 => streams::huf3_section(cmds),
            Coding::Huf4 => streams::huf4_section(cmds),
        }
    }

    /// The LZSS commands that are written in `data`, or why it is refused.
    pub open spec fn contents(self, data: Seq<u8>) -> Result<Seq<u8>, Error> {
        match self {
            Coding::Lzss => Ok(data),
            Coding::Huf => huffman::section_contents(data),
            Coding::Huf3 => streams::huf3_contents(data),
            Coding::Huf4 => streams::huf4_contents(data),
        }
    }

    /// Writes LZSS commands.
    fn encode(self, cmds: &[u8]) -> (out: Vec<u8>)
        requires
            streams::framed(cmds@),
            cmds@.len() <= u32::MAX,
        ensures
            out@ == self.coded(cmds@),
    {
        proof {
            streams::lemma_stream_lens(cmds@);
        }
        match self {
            Coding::Lzss => slice_to_vec(cmds),
            Coding::Huf => huffman::huffman_encode(cmds),
            Coding::Huf3 => streams::lzss_huf3_encode(cmds),
            Coding::Huf4 => streams::lzss_huf4_encode(cmds),
        }
    }

    /// Reads LZSS commands.
    fn decode(self, data: &[u8]) -> (out: Result<Vec<u8>, Error>)
        ensures
            error::is_outcome(out, self.contents(data@)),
    {
        match self {
            Coding::Lzss => Ok(slice_to_vec(data)),
            Coding::Huf => huffman::huffman_decode(data),
            Coding::Huf3 => streams::lzss_huf3_decode(data),
            Coding::Huf4 => streams::lzss_huf4_decode(data),
        }
    }
}

/// The coding and the filter of a block type.
pub open spec fn method(flag: u8) -> Option<(Coding, Filter)> {
    match flag {
        BLOCK_LZSS => Some((Coding::Lzss, Filter::Plain)),
        BLOCK_DELTA2_LZSS => Some((Coding::Lzss, Filter::Delta(2))),
        BLOCK_LZSS_HUF => Some((Coding::Huf, Filter::Plain)),
        BLOCK_DELTA2_LZSS_HUF => Some((Coding::Huf, Filter::Delta(2))),
        BLOCK_DELTA1_LZSS => Some((Coding::Lzss, Filter::Delta(1))),
        BLOCK_DELTA1_LZSS_HUF => Some((Coding::Huf, Filter::Delta(1))),
        BLOCK_LZSS_HUF3 => Some((Coding::Huf3, Filter::Plain)),
        BLOCK_DELTA1_LZSS_HUF3 => Some((Coding::Huf3, Filter::Delta(1))),
        BLOCK_DELTA2_LZSS_HUF3 => Some((Coding::Huf3, Filter::Delta(2))),
        BLOCK_DELTA3_LZSS => Some((Coding::Lzss, Filter::Delta(3))),
        BLOCK_DELTA3_LZSS_HUF => Some((Coding::Huf, Filter::Delta(3))),
        BLOCK_DELTA3_LZSS_HUF3 => Some((Coding::Huf3, Filter::Delta(3))),
        BLOCK_DELTA4_LZSS => Some((Coding::Lzss, Filter::Delta(4))),
        BLOCK_DELTA4_LZSS_HUF => Some((Coding::Huf, Filter::Delta(4))),
        BLOCK_DELTA4_LZSS_HUF3 => Some((Coding::Huf3, Filter::Delta(4))),
        BLOCK_DELTA1_O2_LZSS_HUF3 => Some((Coding::Huf3, Filter::DeltaO2(1))),
        BLOCK_DELTA4_O2_LZSS_HUF3 => Some((Coding::Huf3, Filter::DeltaO2(4))),
        BLOCK_LSIDE_D4_LZSS_HUF3 => Some((Coding::Huf3, Filter::LsideD4)),
        BLOCK_LSIDE_D4O2_LZSS_HUF3 => Some((Coding::Huf3, Filter::LsideD4O2)),
        BLOCK_DELTA_S16_O2_LZSS_HUF3 => Some((Coding::Huf3, Filter::S16O2)),
        BLOCK_LSIDE_S16_O2_LZSS_HUF3 => Some((Coding::Huf3, Filter::LsideS16O2)),
        BLOCK_DELTA_S16_O3_LZSS_HUF3 => Some((Coding::Huf3, Filter::S16O3)),
        BLOCK_LSIDE_S16_O3_LZSS_HUF3 => Some((Coding::Huf3, Filter::LsideS16O3)),
        BLOCK_DELTA2_O2_LZSS_HUF3 => Some((Coding::Huf3, Filter::DeltaO2(2))),
        BLOCK_DELTA3_O2_LZSS_HUF3 => Some((Coding::Huf3, Filter::DeltaO2(3))),
        BLOCK_LZSS_HUF4 => Some((Coding::Huf4, Filter::Plain)),
        BLOCK_DELTA_S16_O2_LZSS_HUF4 => Some((Coding::Huf4, Filter::S16O2)),
        BLOCK_LSIDE_S16_O2_LZSS_HUF4 => Some((Coding::Huf4, Filter::LsideS16O2)),
        BLOCK_DELTA_S16_O3_LZSS_HUF4 => Some((Coding::Huf4, Filter::S16O3)),
        BLOCK_LSIDE_S16_O3_LZSS_HUF4 => Some((Coding::Huf4, Filter::LsideS16O3)),
        BLOCK_PLANAR2_LZSS_HUF3 => Some((Coding::Huf3, Filter::Planar(2))),
        BLOCK_PLANAR3_LZSS_HUF3 => Some((Coding::Huf3, Filter::Planar(3))),
        BLOCK_PLANAR4_LZSS_HUF3 => Some((Coding::Huf3, Filter::Planar(4))),
        BLOCK_PLANAR2_O2_LZSS_HUF3 => Some((Coding::Huf3, Filter::PlanarO2(2))),
        BLOCK_PLANAR3_O2_LZSS_HUF3 => Some((Coding::Huf3, Filter::PlanarO2(3))),
        BLOCK_PLANAR4_O2_LZSS_HUF3 => Some((Coding::Huf3, Filter::PlanarO2(4))),
        BLOCK_PLANAR4_S16_O2_LZSS_HUF4 => Some((Coding::Huf4, Filter::StereoS16O2)),
        BLOCK_PLANAR4_S16_O3_LZSS_HUF4 => Some((Coding::Huf4, Filter::StereoS16O3)),
        _ => None,
    }
}

/// Looks a block type up.
fn method_of(flag: u8) -> (m: Option<(Coding, Filter)>)
    ensures
        m == method(flag),
        m matches Some(p) ==> p.1.wf(),
{
    match flag {
        BLOCK_LZSS => Some((Coding::Lzss, Filter::Plain)),
        BLOCK_DELTA2_LZSS => Some((Coding::Lzss, Filter::Delta(2))),
        BLOCK_LZSS_HUF => Some((Coding::Huf, Filter::Plain)),
        BLOCK_DELTA2_LZSS_HUF => Some((Coding::Huf, Filter::Delta(2))),
        BLOCK_DELTA1_LZSS => Some((Coding::Lzss, Filter::Delta(1))),
        BLOCK_DELTA1_LZSS_HUF => Some((Coding::Huf, Filter::Delta(1))),
        BLOCK_LZSS_HUF3 => Some((Coding::Huf3, Filter::Plain)),
        BLOCK_DELTA1_LZSS_HUF3 => Some((Coding::Huf3, Filter::Delta(1))),
        BLOCK_DELTA2_LZSS_HUF3 => Some((Coding::Huf3, Filter::Delta(2))),
        BLOCK_DELTA3_LZSS => Some((Coding::Lzss, Filter::Delta(3))),
        BLOCK_DELTA3_LZSS_HUF => Some((Coding::Huf, Filter::Delta(3))),
        BLOCK_DELTA3_LZSS_HUF3 => Some((Coding::Huf3, Filter::Delta(3))),
        BLOCK_DELTA4_LZSS => Some((Coding::Lzss, Filter::Delta(4))),
        BLOCK_DELTA4_LZSS_HUF => Some((Coding::Huf, Filter::Delta(4))),
        BLOCK_DELTA4_LZSS_HUF3 => Some((Coding::Huf3, Filter::Delta(4))),
        BLOCK_DELTA1_O2_LZSS_HUF3 => Some((Coding::Huf3, Filter::DeltaO2(1))),
        BLOCK_DELTA4_O2_LZSS_HUF3 => Some((Coding::Huf3, Filter::DeltaO2(4))),
        BLOCK_LSIDE_D4_LZSS_HUF3 => Some((Coding::Huf3, Filter::LsideD4)),
        BLOCK_LSIDE_D4O2_LZSS_HUF3 => Some((Coding::Huf3, Filter::LsideD4O2)),
        BLOCK_DELTA_S16_O2_LZSS_HUF3 => Some((Coding::Huf3, Filter::S16O2)),
        BLOCK_LSIDE_S16_O2_LZSS_HUF3 => Some((Coding::Huf3, Filter::LsideS16O2)),
        BLOCK_DELTA_S16_O3_LZSS_HUF3 => Some((Coding::Huf3, Filter::S16O3)),
        BLOCK_LSIDE_S16_O3_LZSS_HUF3 => Some((Coding::Huf3, Filter::LsideS16O3)),
        BLOCK_DELTA2_O2_LZSS_HUF3 => Some((Coding::Huf3, Filter::DeltaO2(2))),
        BLOCK_DELTA3_O2_LZSS_HUF3 => Some((Coding::Huf3, Filter::DeltaO2(3))),
        BLOCK_LZSS_HUF4 => Some((Coding::Huf4, Filter::Plain)),
        BLOCK_DELTA_S16_O2_LZSS_HUF4 => Some((Coding::Huf4, Filter::S16O2)),
        BLOCK_LSIDE_S16_O2_LZSS_HUF4 => Some((Coding::Huf4, Filter::LsideS16O2)),
        BLOCK_DELTA_S16_O3_LZSS_HUF4 => Some((Coding::Huf4, Filter::S16O3)),
        BLOCK_LSIDE_S16_O3_LZSS_HUF4 => Some((Coding::Huf4, Filter::LsideS16O3)),
        BLOCK_PLANAR2_LZSS_HUF3 => Some((Coding::Huf3, Filter::Planar(2))),
        BLOCK_PLANAR3_LZSS_HUF3 => Some((Coding::Huf3, Filter::Planar(3))),
        BLOCK_PLANAR4_LZSS_HUF3 => Some((Coding::Huf3, Filter::Planar(4))),
        BLOCK_PLANAR2_O2_LZSS_HUF3 => Some((Coding::Huf3, Filter::PlanarO2(2))),
        BLOCK_PLANAR3_O2_LZSS_HUF3 => Some((Coding::Huf3, Filter::PlanarO2(3))),
        BLOCK_PLANAR4_O2_LZSS_HUF3 => Some((Coding::Huf3, Filter::PlanarO2(4))),
        BLOCK_PLANAR4_S16_O2_LZSS_HUF4 => Some((Coding::Huf4, Filter::StereoS16O2)),
        BLOCK_PLANAR4_S16_O3_LZSS_HUF4 => Some((Coding::Huf4, Filter::StereoS16O3)),
        _ => None,
    }
}

/// The bytes that a block with the given filter may refer to.
pub open spec fn window(filter: Filter, history: Seq<u8>) -> Seq<u8> {
    if filter is Plain {
        history
    } else {
        Seq::empty()
    }
}

/// The LZSS commands of a block that goes through the given filter.
pub open spec fn commands(filter: Filter, history: Seq<u8>, block: Seq<u8>) -> Seq<u8> {
    lzss::compressed(window(filter, history), filter.filtered(block))
}

/// What stands in the container for a block of the given type.
pub open spec fn payload(flag: u8, history: Seq<u8>, block: Seq<u8>) -> Seq<u8> {
    match method(flag) {
        Some((coding, filter)) => coding.coded(commands(filter, history, block)),
        None => block,
    }
}

/// The block that stands in the container as `data`, or why it is refused.
#[verifier::opaque]
pub open spec fn contents(flag: u8, history: Seq<u8>, data: Seq<u8>, raw_len: int) -> Result<
    Seq<u8>,
    Error,
> {
    if flag == BLOCK_STORED {
        Ok(data)
    } else {
        match method(flag) {
            None => Err(Error::UnknownBlockType),
            Some((coding, filter)) => match coding.contents(data) {
                Err(e) => Err(e),
                Ok(cmds) => match lzss::decompressed(window(filter, history), cmds, raw_len) {
                    Err(e) => Err(e),
                    Ok(s) => Ok(filter.unfiltered(s)),
                },
            },
        }
    }
}

/// The block types that go with a predictor, in the order in which they are tried.
pub open spec fn mode_flags(mode: DeltaMode) -> Seq<u8> {
    match mode {
        DeltaMode::Raw => Seq::empty(),
        DeltaMode::Delta1 => seq![
            BLOCK_DELTA1_LZSS,
            BLOCK_DELTA1_LZSS_HUF,
            BLOCK_DELTA1_LZSS_HUF3,
        ],
        DeltaMode::Delta2 => seq![
            BLOCK_DELTA2_LZSS,
            BLOCK_DELTA2_LZSS_HUF,
            BLOCK_DELTA2_LZSS_HUF3,
        ],
        DeltaMode::Delta3 => seq![
            BLOCK_DELTA3_LZSS,
            BLOCK_DELTA3_LZSS_HUF,
            BLOCK_DELTA3_LZSS_HUF3,
        ],
        DeltaMode::Delta4 => seq![
            BLOCK_DELTA4_LZSS,
            BLOCK_DELTA4_LZSS_HUF,
            BLOCK_DELTA4_LZSS_HUF3,
        ],
        DeltaMode::Delta1O2 => seq![BLOCK_DELTA1_O2_LZSS_HUF3],
        DeltaMode::Delta4O2 => seq![BLOCK_DELTA4_O2_LZSS_HUF3],
        DeltaMode::Delta2O2 => seq![BLOCK_DELTA2_O2_LZSS_HUF3],
        DeltaMode::Delta3O2 => seq![BLOCK_DELTA3_O2_LZSS_HUF3],
        DeltaMode::LsideD4 => seq![BLOCK_LSIDE_D4_LZSS_HUF3],
        DeltaMode::LsideD4O2 => seq![BLOCK_LSIDE_D4O2_LZSS_HUF3],
        DeltaMode::DeltaS16O2 => seq![BLOCK_DELTA_S16_O2_LZSS_HUF3, BLOCK_DELTA_S16_O2_LZSS_HUF4],
        DeltaMode::LsideS16O2 => seq![BLOCK_LSIDE_S16_O2_LZSS_HUF3, BLOCK_LSIDE_S16_O2_LZSS_HUF4],
        DeltaMode::DeltaS16O3 => seq![BLOCK_DELTA_S16_O3_LZSS_HUF3, BLOCK_DELTA_S16_O3_LZSS_HUF4],
        DeltaMode::LsideS16O3 => seq![BLOCK_LSIDE_S16_O3_LZSS_HUF3, BLOCK_LSIDE_S16_O3_LZSS_HUF4],
    }
}

/// A block type with planes, where the block has whole rows and the distances at that stride come
/// below the bound.
pub open spec fn plane_flag(flag: u8, stride: int, n: int, e: Entropies) -> Seq<u8> {
    if n % stride == 0 && e.delta@[stride - 1] < e.planar {
        seq![flag]
    } else {
        Seq::empty()
    }
}

/// The block types with planes for blocks of `n` bytes.
pub open spec fn plane_flags(n: int, e: Entropies) -> Seq<u8> {
    plane_flag(BLOCK_PLANAR2_LZSS_HUF3, 2, n, e) + plane_flag(BLOCK_PLANAR3_LZSS_HUF3, 3, n, e)
        + plane_flag(BLOCK_PLANAR4_LZSS_HUF3, 4, n, e) + plane_flag(
        BLOCK_PLANAR2_O2_LZSS_HUF3,
        2,
        n,
        e,
    ) + plane_flag(BLOCK_PLANAR3_O2_LZSS_HUF3, 3, n, e) + plane_flag(
        BLOCK_PLANAR4_O2_LZSS_HUF3,
        4,
        n,
        e,
    )
}

/// The block types with one channel after the other for blocks of `n` bytes.
pub open spec fn channel_flags(n: int, e: Entropies) -> Seq<u8> {
    if n % 4 == 0 && n >= 8 && e.stereo_o2 < e.stereo {
        if n >= 12 && e.stereo_o3 < e.stereo_o2 {
            seq![BLOCK_PLANAR4_S16_O2_LZSS_HUF4, BLOCK_PLANAR4_S16_O3_LZSS_HUF4]
        } else {
            seq![BLOCK_PLANAR4_S16_O2_LZSS_HUF4]
        }
    } else {
        Seq::empty()
    }
}

/// The block types without a filter, in the order in which they are tried.
pub open spec fn plain_flags() -> Seq<u8> {
    seq![BLOCK_LZSS, BLOCK_LZSS_HUF, BLOCK_LZSS_HUF3, BLOCK_LZSS_HUF4]
}

/// The block types that are tried for a block of `n` bytes, in that order.
pub open spec fn tried_flags(n: int, e: Entropies) -> Seq<u8> {
    let filtered = plain_flags() + mode_flags(predictor::selected(n, e));
    if e.low {
        filtered + plane_flags(n, e) + channel_flags(n, e)
    } else {
        filtered
    }
}

/// The shortest way to write a block as one of the given types, or stored; of two that are equally
/// short the one that is tried first.
pub open spec fn shortest(flags: Seq<u8>, history: Seq<u8>, block: Seq<u8>) -> (u8, Seq<u8>)
    decreases flags.len(),
{
    if flags.len() == 0 {
        (BLOCK_STORED, block)
    } else {
        let best = shortest(flags.drop_last(), history, block);
        let data = payload(flags.last(), history, block);
        if 0 < data.len() < best.1.len() {
            (flags.last(), data)
        } else {
            best
        }
    }
}

/// The type of a block and what stands in the container for it.
pub open spec fn encoded(history: Seq<u8>, block: Seq<u8>, e: Entropies) -> (u8, Seq<u8>) {
    shortest(tried_flags(block.len() as int, e), history, block)
}

/// The last bytes of a history and of the block after it, as many as the window holds.
pub open spec fn pushed(history: Seq<u8>, block: Seq<u8>) -> Seq<u8> {
    let all = history + block;
    if all.len() > WINDOW_SIZE {
        all.skip(all.len() - WINDOW_SIZE)
    } else {
        all
    }
}

/// Appends a block to the history.
pub fn push_history(history: &mut Vec<u8>, block: &[u8])
    requires
        block@.len() < WINDOW_SIZE ==> old(history)@.len() + block@.len() <= usize::MAX,
    ensures
        final(history)@ == pushed(old(history)@, block@),
        final(history)@.len() <= WINDOW_SIZE,
{
    let n: usize = block.len();
    let ghost h0 = history@;
    if n >= WINDOW_SIZE {
        *history = slice_to_vec(slice_subrange(block, n - WINDOW_SIZE, n));
    } else {
        let total: usize = history.len() + n;
        if total > WINDOW_SIZE {
            let cut: usize = total - WINDOW_SIZE;
            *history = slice_to_vec(slice_subrange(history.as_slice(), cut, history.len()));
        }
        history.extend_from_slice(block);
    }
    assert(history@ =~= pushed(h0, block@));
}

/// The block that stands in the container as `data`.
pub fn decode_block(history: &[u8], flag: u8, raw_len: u32, data: &[u8]) -> (out: Result<
    Vec<u8>,
    Error,
>)
    ensures
        error::is_outcome(out, contents(flag, history@, data@, raw_len as int)),
{
    reveal(contents);
    if flag == BLOCK_STORED {
        return Ok(slice_to_vec(data));
    }
    let (coding, filter): (Coding, Filter) = match method_of(flag) {
        None => {
            return Err(Error::UnknownBlockType);
        },
        Some(m) => m,
    };
    let cmds: Vec<u8> = match coding.decode(data) {
        Ok(v) => v,
        Err(e) => {
            return Err(e);
        },
    };
    let decoded: Result<Vec<u8>, Error> = match filter {
        Filter::Plain => lzss::lzss_decompress(history, cmds.as_slice(), raw_len as usize),
        _ => {
            let none: Vec<u8> = Vec::new();
            assert(none@ =~= Seq::<u8>::empty());
            lzss::lzss_decompress(none.as_slice(), cmds.as_slice(), raw_len as usize)
        },
    };
    match decoded {
        Ok(v) => Ok(filter.undo(v)),
        Err(e) => Err(e),
    }
}

/// Lists the block types that go with a predictor, in the order in which they are tried.
fn flags_of(mode: DeltaMode) -> (flags: Vec<u8>)
    ensures
        flags@ == mode_flags(mode),
{
    let flags: Vec<u8> = match mode {
        DeltaMode::Raw => Vec::new(),
        DeltaMode::Delta1 => vec![
            BLOCK_DELTA1_LZSS,
            BLOCK_DELTA1_LZSS_HUF,
            BLOCK_DELTA1_LZSS_HUF3,
        ],
        DeltaMode::Delta2 => vec![
            BLOCK_DELTA2_LZSS,
            BLOCK_DELTA2_LZSS_HUF,
            BLOCK_DELTA2_LZSS_HUF3,
        ],
        DeltaMode::Delta3 => vec![
            BLOCK_DELTA3_LZSS,
            BLOCK_DELTA3_LZSS_HUF,
            BLOCK_DELTA3_LZSS_HUF3,
        ],
        DeltaMode::Delta4 => vec![
            BLOCK_DELTA4_LZSS,
            BLOCK_DELTA4_LZSS_HUF,
            BLOCK_DELTA4_LZSS_HUF3,
        ],
        DeltaMode::Delta1O2 => vec![BLOCK_DELTA1_O2_LZSS_HUF3],
        DeltaMode::Delta4O2 => vec![BLOCK_DELTA4_O2_LZSS_HUF3],
        DeltaMode::Delta2O2 => vec![BLOCK_DELTA2_O2_LZSS_HUF3],
        DeltaMode::Delta3O2 => vec![BLOCK_DELTA3_O2_LZSS_HUF3],
        DeltaMode::LsideD4 => vec![BLOCK_LSIDE_D4_LZSS_HUF3],
        DeltaMode::LsideD4O2 => vec![BLOCK_LSIDE_D4O2_LZSS_HUF3],
        DeltaMode::DeltaS16O2 => vec![BLOCK_DELTA_S16_O2_LZSS_HUF3, BLOCK_DELTA_S16_O2_LZSS_HUF4],
        DeltaMode::LsideS16O2 => vec![BLOCK_LSIDE_S16_O2_LZSS_HUF3, BLOCK_LSIDE_S16_O2_LZSS_HUF4],
        DeltaMode::DeltaS16O3 => vec![BLOCK_DELTA_S16_O3_LZSS_HUF3, BLOCK_DELTA_S16_O3_LZSS_HUF4],
        DeltaMode::LsideS16O3 => vec![BLOCK_LSIDE_S16_O3_LZSS_HUF3, BLOCK_LSIDE_S16_O3_LZSS_HUF4],
    };
    assert(flags@ =~= mode_flags(mode));
    flags
}

/// The block types have the given filter.
spec fn all_with(flags: Seq<u8>, filter: Filter) -> bool {
    forall|i: int|
        0 <= i < flags.len() ==> (method(#[trigger] flags[i]) matches Some(m) && m.1 == filter)
}

/// The shortest way so far to write a block.
struct Best {
    flag: u8,
    data: Vec<u8>,
}

impl Best {
    spec fn pair(self) -> (u8, Seq<u8>) {
        (self.flag, self.data@)
    }

    /// Tries block types that share their LZSS commands.
    fn consider(
        &mut self,
        flags: &[u8],
        cmds: &[u8],
        Ghost(tried): Ghost<Seq<u8>>,
        Ghost(filter): Ghost<Filter>,
        Ghost(history): Ghost<Seq<u8>>,
        Ghost(block): Ghost<Seq<u8>>,
    )
        requires
            all_with(flags@, filter),
            cmds@ == commands(filter, history, block),
            streams::framed(cmds@),
            cmds@.len() <= u32::MAX,
            old(self).pair() == shortest(tried, history, block),
        ensures
            final(self).pair() == shortest(tried + flags@, history, block),
    {
        let mut i: usize = 0;
        assert(tried + flags@.take(0) =~= tried);
        while i < flags.len()
            invariant
                i <= flags@.len(),
                all_with(flags@, filter),
                cmds@ == commands(filter, history, block),
                streams::framed(cmds@),
                cmds@.len() <= u32::MAX,
                self.pair() == shortest(tried + flags@.take(i as int), history, block),
            decreases flags@.len() - i,
        {
            let flag: u8 = flags[i];
            assert((tried + flags@.take(i + 1)).drop_last() =~= tried + flags@.take(i as int));
            if let Some((coding, _)) = method_of(flag) {
                let data: Vec<u8> = coding.encode(cmds);
                if data.len() > 0 && data.len() < self.data.len() {
                    self.flag = flag;
                    self.data = data;
                }
            }
            i = i + 1;
        }
        assert(flags@.take(i as int) =~= flags@);
    }

    /// Tries a block type with a filter.
    fn consider_filter(
        &mut self,
        flag: u8,
        filter: Filter,
        block: &[u8],
        Ghost(tried): Ghost<Seq<u8>>,
        Ghost(history): Ghost<Seq<u8>>,
    )
        requires
            method(flag) matches Some(m) && m.1 == filter,
            filter.wf(),
            !(filter is Plain),
            block@.len() <= BLOCK_SIZE,
            old(self).pair() == shortest(tried, history, block@),
        ensures
            final(self).pair() == shortest(tried.push(flag), history, block@),
    {
        let none: Vec<u8> = Vec::new();
        let filtered: Vec<u8> = filter.apply(block);
        proof {
            assert(none@ =~= Seq::<u8>::empty());
            filter::lemma_filtered_len(filter, block@);
            lemma_commands(filter, history, block@);
        }
        let cmds: Vec<u8> = lzss::lzss_compress(none.as_slice(), filtered.as_slice());
        let flags: Vec<u8> = vec![flag];
        assert(flags@ =~= seq![flag]);
        self.consider(
            flags.as_slice(),
            cmds.as_slice(),
            Ghost(tried),
            Ghost(filter),
            Ghost(history),
            Ghost(block@),
        );
        assert(tried + flags@ =~= tried.push(flag));
    }

    /// Tries a block type with planes, where there is reason to.
    fn consider_plane(
        &mut self,
        flag: u8,
        filter: Filter,
        stride: usize,
        block: &[u8],
        e: &Entropies,
        Ghost(tried): Ghost<Seq<u8>>,
        Ghost(history): Ghost<Seq<u8>>,
    )
        requires
            1 <= stride <= 4,
            method(flag) matches Some(m) && m.1 == filter,
            filter.wf(),
            !(filter is Plain),
            block@.len() <= BLOCK_SIZE,
            old(self).pair() == shortest(tried, history, block@),
        ensures
            final(self).pair() == shortest(
                tried + plane_flag(flag, stride as int, block@.len() as int, *e),
                history,
                block@,
            ),
    {
        let ghost added = plane_flag(flag, stride as int, block@.len() as int, *e);
        if block.len() % stride == 0 && e.delta[stride - 1] < e.planar {
            self.consider_filter(flag, filter, block, Ghost(tried), Ghost(history));
            assert(tried + added =~= tried.push(flag));
        } else {
            assert(tried + added =~= tried);
        }
    }

    /// Tries the block types with planes.
    #[verifier::rlimit(40)]
    fn consider_planes(
        &mut self,
        block: &[u8],
        e: &Entropies,
        Ghost(tried): Ghost<Seq<u8>>,
        Ghost(history): Ghost<Seq<u8>>,
    )
        requires
            block@.len() <= BLOCK_SIZE,
            old(self).pair() == shortest(tried, history, block@),
        ensures
            final(self).pair() == shortest(
                tried + plane_flags(block@.len() as int, *e),
                history,
                block@,
            ),
    {
        let ghost n = block@.len() as int;
        let ghost t2 = tried + plane_flag(BLOCK_PLANAR2_LZSS_HUF3, 2, n, *e);
        let ghost t3 = t2 + plane_flag(BLOCK_PLANAR3_LZSS_HUF3, 3, n, *e);
        let ghost t4 = t3 + plane_flag(BLOCK_PLANAR4_LZSS_HUF3, 4, n, *e);
        let ghost t5 = t4 + plane_flag(BLOCK_PLANAR2_O2_LZSS_HUF3, 2, n, *e);
        let ghost t6 = t5 + plane_flag(BLOCK_PLANAR3_O2_LZSS_HUF3, 3, n, *e);
        let ghost t7 = t6 + plane_flag(BLOCK_PLANAR4_O2_LZSS_HUF3, 4, n, *e);
        let (f2, f3, f4): (u8, u8, u8) = (
            BLOCK_PLANAR2_LZSS_HUF3,
            BLOCK_PLANAR3_LZSS_HUF3,
            BLOCK_PLANAR4_LZSS_HUF3,
        );
        let (g2, g3, g4): (u8, u8, u8) = (
            BLOCK_PLANAR2_O2_LZSS_HUF3,
            BLOCK_PLANAR3_O2_LZSS_HUF3,
            BLOCK_PLANAR4_O2_LZSS_HUF3,
        );
        self.consider_plane(f2, Filter::Planar(2), 2, block, e, Ghost(tried), Ghost(history));
        self.consider_plane(f3, Filter::Planar(3), 3, block, e, Ghost(t2), Ghost(history));
        self.consider_plane(f4, Filter::Planar(4), 4, block, e, Ghost(t3), Ghost(history));
        self.consider_plane(g2, Filter::PlanarO2(2), 2, block, e, Ghost(t4), Ghost(history));
        self.consider_plane(g3, Filter::PlanarO2(3), 3, block, e, Ghost(t5), Ghost(history));
        self.consider_plane(g4, Filter::PlanarO2(4), 4, block, e, Ghost(t6), Ghost(history));
        assert(t7 =~= tried + plane_flags(n, *e));
    }

    /// Tries the block types with one channel after the other.
    #[verifier::rlimit(40)]
    fn consider_channels(
        &mut self,
        block: &[u8],
        e: &Entropies,
        Ghost(tried): Ghost<Seq<u8>>,
        Ghost(history): Ghost<Seq<u8>>,
    )
        requires
            block@.len() <= BLOCK_SIZE,
            old(self).pair() == shortest(tried, history, block@),
        ensures
            final(self).pair() == shortest(
                tried + channel_flags(block@.len() as int, *e),
                history,
                block@,
            ),
    {
        let n: usize = block.len();
        let ghost added = channel_flags(n as int, *e);
        if n % 4 == 0 && n >= 8 && e.stereo_o2 < e.stereo {
            let o2: u8 = BLOCK_PLANAR4_S16_O2_LZSS_HUF4;
            let o3: u8 = BLOCK_PLANAR4_S16_O3_LZSS_HUF4;
            self.consider_filter(o2, Filter::StereoS16O2, block, Ghost(tried), Ghost(history));
            if n >= 12 && e.stereo_o3 < e.stereo_o2 {
                let ghost next = tried.push(o2);
                self.consider_filter(o3, Filter::StereoS16O3, block, Ghost(next), Ghost(history));
                assert(tried + added =~= next.push(o3));
            } else {
                assert(tried + added =~= tried.push(o2));
            }
        } else {
            assert(tried + added =~= tried);
        }
    }

    /// Tries the block types that go with the predictor of the block.
    fn consider_predictor(
        &mut self,
        block: &[u8],
        e: &Entropies,
        Ghost(tried): Ghost<Seq<u8>>,
        Ghost(history): Ghost<Seq<u8>>,
    )
        requires
            block@.len() <= BLOCK_SIZE,
            old(self).pair() == shortest(tried, history, block@),
        ensures
            final(self).pair() == shortest(
                tried + mode_flags(predictor::selected(block@.len() as int, *e)),
                history,
                block@,
            ),
    {
        let (mode, filtered): (DeltaMode, Vec<u8>) = predictor::select_predictor(block, e);
        if mode == DeltaMode::Raw {
            assert(tried + mode_flags(mode) =~= tried);
            return ;
        }
        let none: Vec<u8> = Vec::new();
        let flags: Vec<u8> = flags_of(mode);
        proof {
            assert(none@ =~= Seq::<u8>::empty());
            filter::lemma_filtered_len(mode.filter(), block@);
            lemma_commands(mode.filter(), history, block@);
        }
        let cmds: Vec<u8> = lzss::lzss_compress(none.as_slice(), filtered.as_slice());
        self.consider(
            flags.as_slice(),
            cmds.as_slice(),
            Ghost(tried),
            Ghost(mode.filter()),
            Ghost(history),
            Ghost(block@),
        );
    }
}

/// The LZSS commands of a block are whole, and not too many.
proof fn lemma_commands(filter: Filter, history: Seq<u8>, block: Seq<u8>)
    requires
        filter.wf(),
    ensures
        streams::framed(commands(filter, history, block)),
        commands(filter, history, block).len() <= lzss::with_runs(block.len() as int),
{
    filter::lemma_filtered_len(filter, block);
    let w = window(filter, history);
    let s = filter.filtered(block);
    lzss::lemma_compressed(w, s);
    streams::lemma_expanded_framed(w, lzss::compressed(w, s));
}

/// The type of a block and what stands in the container for it.
pub fn compress_block(history: &[u8], block: &[u8], e: &Entropies) -> (out: (u8, Vec<u8>))
    requires
        history@.len() <= WINDOW_SIZE,
        block@.len() <= BLOCK_SIZE,
    ensures
        (out.0, out.1@) == encoded(history@, block@, *e),
{
    let ghost (h, b) = (history@, block@);
    let mut best = Best { flag: BLOCK_STORED, data: slice_to_vec(block) };
    let plain: Vec<u8> = vec![BLOCK_LZSS, BLOCK_LZSS_HUF, BLOCK_LZSS_HUF3, BLOCK_LZSS_HUF4];
    let cmds: Vec<u8> = lzss::lzss_compress(history, block);
    let ghost none = Seq::<u8>::empty();
    proof {
        assert(best.pair() == shortest(none, h, b));
        assert(none + plain@ =~= plain_flags());
        lemma_commands(Filter::Plain, h, b);
    }
    best.consider(
        plain.as_slice(),
        cmds.as_slice(),
        Ghost(none),
        Ghost(Filter::Plain),
        Ghost(h),
        Ghost(b),
    );
    best.consider_predictor(block, e, Ghost(plain_flags()), Ghost(h));
    if e.low {
        let ghost n = b.len() as int;
        let ghost filtered = plain_flags() + mode_flags(predictor::selected(n, *e));
        best.consider_planes(block, e, Ghost(filtered), Ghost(h));
        best.consider_channels(block, e, Ghost(filtered + plane_flags(n, *e)), Ghost(h));
    }
    (best.flag, best.data)
}

/// LZSS commands come back from the way they are written.
proof fn lemma_coding_round_trip(coding: Coding, cmds: Seq<u8>)
    requires
        streams::framed(cmds),
        0 < cmds.len() <= 2 * BLOCK_SIZE,
    ensures
        coding.contents(coding.coded(cmds)) == Ok::<Seq<u8>, Error>(cmds),
{
    match coding {
        Coding::Lzss => {},
        Coding::Huf => huffman::lemma_huffman_round_trip(cmds),
        Coding::Huf3 => streams::lemma_huf3_round_trip(cmds),
        Coding::Huf4 => streams::lemma_huf4_round_trip(cmds),
    }
}

/// Every type of block loses nothing: what stands in the container for a block gives back that
/// block, where both sides have the same history. The block has at least one byte, and where its
/// type keeps two channels apart, whole pairs of samples, as many as the order.
pub proof fn lemma_payload_round_trip(flag: u8, history: Seq<u8>, block: Seq<u8>)
    requires
        method(flag) matches Some(m) && m.1.fits(block.len() as int),
        0 < block.len() <= BLOCK_SIZE,
    ensures
        contents(flag, history, payload(flag, history, block), block.len() as int) == Ok::<
            Seq<u8>,
            Error,
        >(block),
{
    reveal(contents);
    let (coding, filter) = method(flag).unwrap();
    let w = window(filter, history);
    let s = filter.filtered(block);
    let cmds = commands(filter, history, block);
    filter::lemma_filtered_len(filter, block);
    lemma_commands(filter, history, block);
    lzss::lemma_compressed(w, s);
    if cmds.len() == 0 {
        assert((w + s).len() == w.len());
    }
    lemma_coding_round_trip(coding, cmds);
    lzss::lemma_lzss_round_trip(w, s);
    filter::lemma_filter_round_trip(filter, block);
}

/// What is written for a block is the block itself or one of the types that were tried, and none
/// of those that make anything of the block is shorter.
pub proof fn lemma_shortest(flags: Seq<u8>, history: Seq<u8>, block: Seq<u8>)
    ensures
        ({
            let (flag, data) = shortest(flags, history, block);
            &&& data.len() <= block.len()
            &&& (flag == BLOCK_STORED && data == block) || (flags.contains(flag) && data == payload(
                flag,
                history,
                block,
            ))
            &&& forall|i: int|
                0 <= i < flags.len() && payload(#[trigger] flags[i], history, block).len() > 0
                    ==> data.len() <= payload(flags[i], history, block).len()
        }),
    decreases flags.len(),
{
    if flags.len() > 0 {
        let rest = flags.drop_last();
        lemma_shortest(rest, history, block);
        let (flag, data) = shortest(flags, history, block);
        assert forall|i: int|
            0 <= i < flags.len() && payload(#[trigger] flags[i], history, block).len()
                > 0 implies data.len() <= payload(flags[i], history, block).len() by {
            if i < rest.len() {
                assert(rest[i] == flags[i]);
            }
        }
        let before = shortest(rest, history, block).0;
        if rest.contains(before) {
            let k = choose|k: int| 0 <= k < rest.len() && rest[k] == before;
            assert(flags[k] == before);
        }
        assert(flags[flags.len() - 1] == flags.last());
    }
}

/// A block type that is tried fits the block.
proof fn lemma_tried_fits(n: int, e: Entropies)
    ensures
        all_fit(tried_flags(n, e), n),
{
    let mode = predictor::selected(n, e);
    assert(all_fit(plain_flags(), n));
    assert(all_fit(mode_flags(mode), n));
    lemma_all_fit(plain_flags(), mode_flags(mode), n);
    if e.low {
        lemma_planes_fit(n, e);
        assert(all_fit(channel_flags(n, e), n));
        lemma_all_fit(plain_flags() + mode_flags(mode), plane_flags(n, e), n);
        lemma_all_fit(
            plain_flags() + mode_flags(mode) + plane_flags(n, e),
            channel_flags(n, e),
            n,
        );
    }
}

/// The block types fit blocks of `n` bytes.
spec fn all_fit(flags: Seq<u8>, n: int) -> bool {
    forall|i: int|
        0 <= i < flags.len() ==> (method(#[trigger] flags[i]) matches Some(m) && m.1.fits(n))
}

/// Block types that fit, one group after another.
proof fn lemma_all_fit(a: Seq<u8>, b: Seq<u8>, n: int)
    requires
        all_fit(a, n),
        all_fit(b, n),
    ensures
        all_fit(a + b, n),
{
    let c = a + b;
    assert forall|i: int| 0 <= i < c.len() implies (method(#[trigger] c[i]) matches Some(m)
        && m.1.fits(n)) by {
        if i < a.len() {
            assert(c[i] == a[i]);
        } else {
            assert(c[i] == b[i - a.len()]);
        }
    }
}

/// The block types with planes fit every block.
proof fn lemma_planes_fit(n: int, e: Entropies)
    ensures
        all_fit(plane_flags(n, e), n),
{
    let p2 = plane_flag(BLOCK_PLANAR2_LZSS_HUF3, 2, n, e);
    let p3 = plane_flag(BLOCK_PLANAR3_LZSS_HUF3, 3, n, e);
    let p4 = plane_flag(BLOCK_PLANAR4_LZSS_HUF3, 4, n, e);
    let q2 = plane_flag(BLOCK_PLANAR2_O2_LZSS_HUF3, 2, n, e);
    let q3 = plane_flag(BLOCK_PLANAR3_O2_LZSS_HUF3, 3, n, e);
    let q4 = plane_flag(BLOCK_PLANAR4_O2_LZSS_HUF3, 4, n, e);
    lemma_all_fit(p2, p3, n);
    lemma_all_fit(p2 + p3, p4, n);
    lemma_all_fit(p2 + p3 + p4, q2, n);
    lemma_all_fit(p2 + p3 + p4 + q2, q3, n);
    lemma_all_fit(p2 + p3 + p4 + q2 + q3, q4, n);
}

/// A block loses nothing and never grows: what stands in the container for it gives it back,
/// whatever its figures are, and takes no more bytes than the block.
pub proof fn lemma_block_round_trip(history: Seq<u8>, block: Seq<u8>, e: Entropies)
    requires
        block.len() <= BLOCK_SIZE,
    ensures
        ({
            let (flag, data) = encoded(history, block, e);
            &&& contents(flag, history, data, block.len() as int) == Ok::<Seq<u8>, Error>(block)
            &&& data.len() <= block.len()
        }),
{
    reveal(contents);
    let n = block.len() as int;
    let flags = tried_flags(n, e);
    let (flag, data) = encoded(history, block, e);
    lemma_shortest(flags, history, block);
    lemma_tried_fits(n, e);
    if flag != BLOCK_STORED {
        let k = choose|k: int| 0 <= k < flags.len() && flags[k] == flag;
        assert(method(flags[k]) is Some);
        if block.len() > 0 {
            lemma_payload_round_trip(flag, history, block);
        } else {
            lemma_nothing_shorter(flags, history, block);
        }
    } else if flags.contains(flag) {
        let k = choose|k: int| 0 <= k < flags.len() && flags[k] == flag;
        assert(method(flags[k]) is Some);
    }
}

/// An empty block is stored.
proof fn lemma_nothing_shorter(flags: Seq<u8>, history: Seq<u8>, block: Seq<u8>)
    requires
        block.len() == 0,
    ensures
        shortest(flags, history, block) == (BLOCK_STORED, block),
    decreases flags.len(),
{
    if flags.len() > 0 {
        lemma_nothing_shorter(flags.drop_last(), history, block);
    }
}

/// Only the order of the figures counts: on another scale that keeps it a block is written in the
/// same way.
pub proof fn lemma_encoded_scaled(
    history: Seq<u8>,
    block: Seq<u8>,
    e: Entropies,
    f: spec_fn(i32) -> i32,
)
    requires
        predictor::keeps_order(f),
    ensures
        encoded(history, block, predictor::scaled(e, f)) == encoded(history, block, e),
{
    let n = block.len() as int;
    let g = predictor::scaled(e, f);
    predictor::lemma_selected_scaled(n, e, f);
    assert(g.delta@ =~= seq![f(e.delta@[0]), f(e.delta@[1]), f(e.delta@[2]), f(e.delta@[3])]);
    assert(plane_flags(n, g) =~= plane_flags(n, e));
    assert(channel_flags(n, g) =~= channel_flags(n, e));
}

/// The history depends on the bytes that came before and not on how they were cut into blocks.
pub proof fn lemma_pushed_twice(history: Seq<u8>, a: Seq<u8>, b: Seq<u8>)
    ensures
        pushed(pushed(history, a), b) == pushed(history, a + b),
{
    assert(pushed(pushed(history, a), b) =~= pushed(history, a + b));
}

} // verus!
