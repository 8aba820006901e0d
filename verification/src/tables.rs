//! Fixed tables: subband-group templates, frame layouts, and the identifiers
//! that select an entropy codebook.
use vstd::prelude::*;

verus! {

/// Number of QMF subbands, which is also the number of samples per QMF timeslot.
pub const NUM_QMF_SUBBANDS: u8 = 64;

/// Largest number of subband groups in a master table.
pub const MAX_SBG_MASTER: usize = 22;

/// Largest number of noise subband groups.
pub const MAX_SBG_NOISE: u8 = 5;

/// Largest nominal number of A-SPX timeslots in one interval.
pub const MAX_ASPX_TIMESLOTS: usize = 16;

/// Borders of the low-resolution subband-group template.
pub const SBG_TEMPLATE_LOWRES: [u8; 21] = [
    10, 11, 12, 13, 14, 15, 16, 17, 18, 19, 20, 22, 24, 26, 28, 30, 32, 35, 38, 42, 46,
];

/// Borders of the high-resolution subband-group template.
pub const SBG_TEMPLATE_HIGHRES: [u8; 23] = [
    18, 19, 20, 21, 22, 23, 24, 26, 28, 30, 32, 34, 36, 38, 40, 42, 44, 47, 50, 53, 56, 59, 62,
];

/// How the two ends of an A-SPX interval are placed.
#[derive(Debug, Clone, Copy, PartialEq, Eq, Structural)]
pub enum IntervalClass {
    /// Both ends sit on the frame boundaries.
    FixFix,
    /// The right end is transmitted.
    FixVar,
    /// The left end is transmitted.
    VarFix,
    /// Both ends are transmitted.
    VarVar,
}

/// Which of the two envelope families a value belongs to.
#[derive(Debug, Clone, Copy, PartialEq, Eq, Structural)]
pub enum EnvelopeKind {
    /// Signal envelopes.
    Signal,
    /// Noise envelopes.
    Noise,
}

/// How a channel's scale factors are to be read.
#[derive(Debug, Clone, Copy, PartialEq, Eq, Structural)]
pub enum StereoMode {
    /// Absolute levels.
    Level,
    /// The balance of a jointly coded channel pair.
    Balance,
}

/// Role of a symbol inside an envelope.
#[derive(Debug, Clone, Copy, PartialEq, Eq, Structural)]
pub enum HcbType {
    /// First value of an envelope coded along frequency.
    F0,
    /// Difference along frequency.
    Df,
    /// Difference along time.
    Dt,
}

/// Identifies one entropy codebook.
#[derive(Debug, Clone, Copy, PartialEq, Eq, Structural)]
pub struct AspxCodebook {
    /// Envelope family.
    pub kind: EnvelopeKind,
    /// Level or balance.
    pub stereo: StereoMode,
    /// Quantiser step of signal envelopes; noise envelopes have only one.
    pub coarse_quant: Option<bool>,
    /// Role of the symbol.
    pub hcb_type: HcbType,
}

/// The codebook that `get_aspx_hcb` selects.
pub open spec fn aspx_hcb(
    kind: EnvelopeKind,
    stereo: StereoMode,
    coarse_quant: bool,
    hcb_type: HcbType,
) -> AspxCodebook {
    AspxCodebook {
        kind,
        stereo,
        coarse_quant: if kind == EnvelopeKind::Signal {
            Some(coarse_quant)
        } else {
            None
        },
        hcb_type,
    }
}

/// Selects the codebook for one symbol.
///
/// The quantiser step only distinguishes signal codebooks.
pub fn get_aspx_hcb(
    kind: EnvelopeKind,
    stereo: StereoMode,
    coarse_quant: bool,
    hcb_type: HcbType,
) -> (book: AspxCodebook)
    ensures
        book == aspx_hcb(kind, stereo, coarse_quant, hcb_type),
{
    AspxCodebook {
        kind,
        stereo,
        coarse_quant: match kind {
            EnvelopeKind::Signal => Some(coarse_quant),
            EnvelopeKind::Noise => None,
        },
        hcb_type,
    }
}

/// Template borders selected by `master_freq_scale`.
pub open spec fn template(master_freq_scale: bool) -> Seq<u8> {
    if master_freq_scale {
        SBG_TEMPLATE_HIGHRES@
    } else {
        SBG_TEMPLATE_LOWRES@
    }
}

/// The `index`-th border of the template, in closed form.
pub open spec fn template_border(master_freq_scale: bool, index: int) -> int {
    if master_freq_scale {
        if index <= 6 {
            18 + index
        } else if index <= 16 {
            12 + 2 * index
        } else {
            3 * index - 4
        }
    } else {
        if index <= 10 {
            10 + index
        } else if index <= 16 {
            2 * index
        } else if index <= 18 {
            3 * index - 16
        } else {
            4 * index - 34
        }
    }
}

/// Every template border has its closed form, so both templates strictly
/// increase.
pub proof fn lemma_template_borders(master_freq_scale: bool)
    ensures
        template(master_freq_scale).len() == (if master_freq_scale {
            23int
        } else {
            21int
        }),
        forall|i: int|
            0 <= i < template(master_freq_scale).len() ==> #[trigger] template(master_freq_scale)[i]
                == template_border(master_freq_scale, i),
        forall|i: int, j: int|
            0 <= i < j < template(master_freq_scale).len() ==> #[trigger] template(
                master_freq_scale,
            )[i] < #[trigger] template(master_freq_scale)[j],
{
    let t = template(master_freq_scale);
    assert forall|i: int| 0 <= i < t.len() implies #[trigger] t[i] == template_border(
        master_freq_scale,
        i,
    ) by {
        if master_freq_scale {
            let a = SBG_TEMPLATE_HIGHRES;
            assert(a[0] == 18 && a[1] == 19 && a[2] == 20 && a[3] == 21 && a[4] == 22 && a[5]
                == 23);
            assert(a[6] == 24 && a[7] == 26 && a[8] == 28 && a[9] == 30 && a[10] == 32 && a[11]
                == 34);
            assert(a[12] == 36 && a[13] == 38 && a[14] == 40 && a[15] == 42 && a[16] == 44);
            assert(a[17] == 47 && a[18] == 50 && a[19] == 53 && a[20] == 56 && a[21] == 59 && a[22]
                == 62);
        } else {
            let a = SBG_TEMPLATE_LOWRES;
            assert(a[0] == 10 && a[1] == 11 && a[2] == 12 && a[3] == 13 && a[4] == 14 && a[5]
                == 15);
            assert(a[6] == 16 && a[7] == 17 && a[8] == 18 && a[9] == 19 && a[10] == 20 && a[11]
                == 22);
            assert(a[12] == 24 && a[13] == 26 && a[14] == 28 && a[15] == 30 && a[16] == 32);
            assert(a[17] == 35 && a[18] == 38 && a[19] == 42 && a[20] == 46);
        }
    }
}

/// Template borders selected by `master_freq_scale`.
pub fn sbg_template(master_freq_scale: bool) -> (borders: &'static [u8])
    ensures
        borders@ == template(master_freq_scale),
{
    if master_freq_scale {
        &SBG_TEMPLATE_HIGHRES
    } else {
        &SBG_TEMPLATE_LOWRES
    }
}

/// Number of groups in the template, one less than its number of borders.
pub fn template_group_count(master_freq_scale: bool) -> (count: u8)
    ensures
        count == template(master_freq_scale).len() - 1,
{
    if master_freq_scale {
        22
    } else {
        20
    }
}

/// Whether a frame of `samples` PCM samples is one of the eight legal lengths.
pub open spec fn is_frame_length(samples: int) -> bool {
    ||| samples == 2048
    ||| samples == 1920
    ||| samples == 1536
    ||| samples == 1024
    ||| samples == 960
    ||| samples == 768
    ||| samples == 512
    ||| samples == 384
}

/// QMF timeslots per A-SPX timeslot for a legal frame length.
pub open spec fn timeslot_factor(samples: int) -> int {
    if samples >= 1536 {
        2
    } else {
        1
    }
}

/// A-SPX timeslots of a legal frame length.
pub open spec fn aspx_timeslots(samples: int) -> int {
    samples / 64 / timeslot_factor(samples)
}

/// Whether `slots` is the number of A-SPX timeslots of some legal frame length.
pub open spec fn is_aspx_timeslot_count(slots: int) -> bool {
    slots == 6 || slots == 8 || slots == 12 || slots == 15 || slots == 16
}

/// Whether `slots` A-SPX timeslots of `factor` QMF timeslots each make up a
/// legal frame.
pub open spec fn is_aspx_layout(slots: int, factor: int) -> bool {
    &&& is_aspx_timeslot_count(slots)
    &&& factor == 1 || (factor == 2 && slots >= 12)
}

fn is_supported_frame_length(frame_len_base: u16) -> (supported: bool)
    ensures
        supported == is_frame_length(frame_len_base as int),
{
    frame_len_base == 2048 || frame_len_base == 1920 || frame_len_base == 1536 || frame_len_base
        == 1024 || frame_len_base == 960 || frame_len_base == 768 || frame_len_base == 512
        || frame_len_base == 384
}

/// QMF timeslots in a frame of `frame_len_base` samples.
pub fn num_qmf_timeslots(frame_len_base: u16) -> (slots: Option<u8>)
    ensures
        slots == (if is_frame_length(frame_len_base as int) {
            Some((frame_len_base as int / 64) as u8)
        } else {
            None
        }),
{
    if is_supported_frame_length(frame_len_base) {
        Some((frame_len_base / 64) as u8)
    } else {
        None
    }
}

/// QMF timeslots per A-SPX timeslot in a frame of `frame_len_base` samples.
pub fn num_ts_in_ats(frame_len_base: u16) -> (factor: Option<u8>)
    ensures
        factor == (if is_frame_length(frame_len_base as int) {
            Some(timeslot_factor(frame_len_base as int) as u8)
        } else {
            None
        }),
{
    if !is_supported_frame_length(frame_len_base) {
        None
    } else if frame_len_base >= 1536 {
        Some(2)
    } else {
        Some(1)
    }
}

/// A-SPX timeslots in a frame of `frame_len_base` samples.
pub fn num_aspx_timeslots(frame_len_base: u16) -> (slots: Option<u8>)
    ensures
        slots == (if is_frame_length(frame_len_base as int) {
            Some(aspx_timeslots(frame_len_base as int) as u8)
        } else {
            None
        }),
        slots matches Some(n) ==> is_aspx_timeslot_count(n as int),
{
    if !is_supported_frame_length(frame_len_base) {
        None
    } else if frame_len_base >= 1536 {
        Some((frame_len_base / 64 / 2) as u8)
    } else {
        Some((frame_len_base / 64) as u8)
    }
}

/// QMF timeslots by which the high-frequency generator lags: three A-SPX
/// timeslots.
pub fn ts_offset_hfgen(frame_len_base: u16) -> (offset: Option<u8>)
    ensures
        offset == (if is_frame_length(frame_len_base as int) {
            Some((3 * timeslot_factor(frame_len_base as int)) as u8)
        } else {
            None
        }),
{
    if !is_supported_frame_length(frame_len_base) {
        None
    } else if frame_len_base >= 1536 {
        Some(6)
    } else {
        Some(3)
    }
}

/// QMF timeslots of the frame that has `num_aspx_timeslots` A-SPX timeslots of
/// `factor` QMF timeslots each, if there is such a frame.
pub fn qmf_timeslots_for_aspx_layout(num_aspx_timeslots: u8, factor: u8) -> (slots: Option<u8>)
    ensures
        slots == (if is_aspx_layout(num_aspx_timeslots as int, factor as int) {
            Some((num_aspx_timeslots * factor) as u8)
        } else {
            None
        }),
{
    let supported = num_aspx_timeslots == 6 || num_aspx_timeslots == 8 || num_aspx_timeslots == 12
        || num_aspx_timeslots == 15 || num_aspx_timeslots == 16;
    if !supported {
        None
    } else if factor == 1 {
        Some(num_aspx_timeslots)
    } else if factor == 2 && num_aspx_timeslots >= 12 {
        Some(num_aspx_timeslots * 2)
    } else {
        None
    }
}

/// A layout pairs an A-SPX timeslot count with a factor exactly when some legal
/// frame length has both.
pub proof fn lemma_layouts_are_frame_lengths(slots: int, factor: int)
    ensures
        is_aspx_layout(slots, factor) <==> exists|samples: int|
            #![trigger is_frame_length(samples)]
            is_frame_length(samples) && aspx_timeslots(samples) == slots && timeslot_factor(samples)
                == factor,
{
    if is_aspx_layout(slots, factor) {
        let samples = 64 * (slots * factor);
        assert(slots * factor == slots || slots * factor == 2 * slots) by (nonlinear_arith)
            requires
                factor == 1 || factor == 2,
        ;
        assert(is_frame_length(samples));
    }
}

/// A frame is whole timeslots: its samples are 64 for each QMF timeslot, of which
/// an A-SPX timeslot has two in frames of 1536 samples and more and one in the
/// others.
pub proof fn lemma_frames_are_whole_timeslots(samples: int)
    requires
        is_frame_length(samples),
    ensures
        samples == 64 * (samples / 64),
        samples >= 1536 ==> timeslot_factor(samples) == 2 && samples == 128 * aspx_timeslots(
            samples,
        ),
        samples < 1536 ==> timeslot_factor(samples) == 1 && samples == 64 * aspx_timeslots(samples),
        aspx_timeslots(samples) == 16 || aspx_timeslots(samples) == 15 || aspx_timeslots(samples)
            == 12 || aspx_timeslots(samples) == 8 || aspx_timeslots(samples) == 6,
{
}

} // verus!
