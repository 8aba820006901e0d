//! Orchestration of the A-SPX tools.
//!
//! A frame passes through analysis, low-band filtering, high-frequency
//! generation, envelope adjustment, assembly and output. Everything that can be
//! decided from the parsed parameters, the frame length and what the last frame
//! left over is decided here, before any signal state is touched: a plan says
//! which timeslots and subbands every tool works on and with which scale
//! factors, and what is remembered once the frame has succeeded. The tools that
//! work on signals follow the plan.
use vstd::prelude::*;
use vstd::std_specs::convert::FromSpecImpl;
use crate::bands::{self, AspxBandTables, BandView};
use crate::dequant::{self, dequantise, dequantise_pair, DequantError, ScaleFactors, ScaleView};
use crate::element::AspxData;
use crate::envelope::{
    self, EnvelopeDeltas, EnvelopeError, EnvelopeHistory, EnvelopeScaleFactors, DeltasView,
    FactorsView, SbgIndexMap,
};
use crate::frames::{AspxInterval, IntervalView};
use crate::hfgain::GainError;
use crate::hfgen::{self, GenerationInput, HfGenError, TS_OFFSET_HFADJ};
use crate::patches::{self, PatchError, PatchTable, PatchView};
use crate::payload::{AspxEnvelopes, EnvelopesView};
use crate::preflatten::PreFlattenError;
use crate::qmf::{QmfError, SUBBANDS};
use crate::syntax::{self, AspxChannelFraming, AspxConfig, FramingView, Parsed};
use crate::tables::{
    self, num_ts_in_ats, qmf_timeslots_for_aspx_layout, ts_offset_hfgen, EnvelopeKind,
    MAX_SBG_NOISE,
};

verus! {

/// QMF timeslots of the longest frame.
pub const MAX_QMF_TIMESLOTS: usize = 32;

/// QMF timeslots of the longest frame together with the generator lag.
pub const MAX_EXTENDED_TIMESLOTS: usize = 38;

/// Number of noise borders that a table can hold.
const NOISE_BORDERS: usize = 6;

/// Why chirp modes are refused.
#[derive(Debug, Clone, Copy, PartialEq, Eq)]
pub enum TnaError {
    /// A mode does not fit in two bits.
    ModeOutOfRange {
        /// Noise group.
        group: usize,
        /// The mode.
        mode: u8,
    },
}

/// Why adjustment parameters are refused.
#[derive(Debug, Clone, Copy, PartialEq, Eq)]
pub enum HfAdjustError {
    /// There are fewer sinusoid flags than high-resolution groups.
    HarmonicDataTooShort {
        /// Number of groups.
        needed: usize,
        /// Number of flags.
        provided: usize,
    },
}

/// Why limiter groups cannot be derived.
#[derive(Debug, Clone, Copy, PartialEq, Eq)]
pub struct LimiterError {
    /// The reason, as the tool that derives the groups numbers them.
    pub reason: u32,
}

/// Why a high band does not fit its frame.
#[derive(Debug, Clone, Copy, PartialEq, Eq)]
pub enum AssembleError {
    /// The interval ends before its frame.
    TimeslotsBeyondInterval {
        /// Timeslots of the frame.
        timeslots: usize,
        /// End of the interval.
        stop: usize,
    },
    /// The interval starts too late, or ends too far behind its frame.
    CarryoverOutOfRange {
        /// The timeslots by which it does.
        carryover: usize,
    },
    /// What the last frame left over does not reach up to the interval.
    CarryoverMismatch {
        /// Timeslots that were left over.
        carried: usize,
        /// Timeslots in front of the interval.
        required: usize,
    },
}

/// Why a frame cannot be processed.
#[allow(inconsistent_fields)]
#[derive(Debug, Clone, Copy, PartialEq, Eq)]
pub enum PipelineError {
    /// The number of samples is not a multiple of the number of subbands.
    UnalignedInput {
        /// Number of samples.
        samples: usize,
    },
    /// The output is not as long as the input.
    OutputLengthMismatch {
        /// Samples of the input.
        expected: usize,
        /// Samples of the output.
        provided: usize,
    },
    /// The frame is longer than the longest one.
    FrameTooLong {
        /// Timeslots of the frame.
        timeslots: usize,
        /// Timeslots of the longest frame.
        capacity: usize,
    },
    /// The frame length is not a legal one.
    UnsupportedFrameLength {
        /// Number of samples.
        samples: usize,
    },
    /// The filter bank cannot run.
    Qmf(QmfError),
    /// The tables have no patches.
    Patch(PatchError),
    /// A chirp mode is not valid.
    Tna(TnaError),
    /// Pre-flattening gains cannot be computed.
    PreFlatten(PreFlattenError),
    /// The high-frequency generator cannot run.
    HfGen(HfGenError),
    /// The envelopes cannot be decoded.
    Envelope(EnvelopeError),
    /// The scale factors cannot be made linear.
    Dequant(DequantError),
    /// The adjustment parameters do not fit the tables.
    HfAdjust(HfAdjustError),
    /// Gains cannot be computed.
    Gain(GainError),
    /// The high band does not fit what the last frame left over.
    Assemble(AssembleError),
    /// There are no noise groups, or too many.
    TooManyNoiseGroups {
        /// Number of groups.
        groups: usize,
    },
    /// A noise border is missing.
    MissingNoiseBorder {
        /// Its index.
        index: usize,
    },
    /// There is not one chirp mode for each noise group.
    ChirpModeCountMismatch {
        /// Number of groups.
        expected: usize,
        /// Number of modes.
        provided: usize,
    },
    /// The interval has an envelope for which there are no differences or no
    /// direction.
    EnvelopeDataMismatch {
        /// Envelope family.
        kind: EnvelopeKind,
        /// The envelope.
        envelope: usize,
    },
    /// The channels of a balanced pair do not share one interval and quantiser.
    BalancedFramingMismatch,
    /// The frames of a balanced pair have different lengths.
    BalancedFrameLengthMismatch {
        /// Samples of the first channel.
        first: usize,
        /// Samples of the second channel.
        second: usize,
    },
    /// The frames of an independent pair have different lengths.
    PairedFrameLengthMismatch {
        /// Samples of the first channel.
        first: usize,
        /// Samples of the second channel.
        second: usize,
    },
    /// The number of QMF timeslots per A-SPX timeslot is neither one nor two.
    TimeslotFactorOutOfRange {
        /// The number.
        factor: u8,
    },
    /// No frame has so many A-SPX timeslots of this size.
    UnsupportedTimeslotLayout {
        /// Number of A-SPX timeslots.
        num_aspx_timeslots: u8,
        /// QMF timeslots per A-SPX timeslot.
        factor: u8,
    },
    /// The interval belongs to a frame of another length.
    IntervalFrameMismatch {
        /// QMF timeslots of the frame that it belongs to.
        expected: u8,
        /// QMF timeslots of this frame.
        frame: usize,
    },
    /// A border of the interval is missing.
    MissingIntervalBorder {
        /// Its index.
        index: usize,
    },
    /// The interval is empty, reversed, or starts before its frame.
    EmptyAspxInterval {
        /// First border.
        first: i16,
        /// Last border.
        last: i16,
    },
    /// The limiter is on, and its groups cannot be derived.
    Limiter(LimiterError),
    /// An element does not have this channel.
    MissingChannel {
        /// The channel.
        channel: usize,
    },
}

impl From<LimiterError> for PipelineError {
    fn from(error: LimiterError) -> (converted: Self) {
        PipelineError::Limiter(error)
    }
}

impl FromSpecImpl<LimiterError> for PipelineError {
    open spec fn obeys_from_spec() -> bool {
        true
    }

    open spec fn from_spec(error: LimiterError) -> Self {
        PipelineError::Limiter(error)
    }
}

impl From<QmfError> for PipelineError {
    fn from(error: QmfError) -> (converted: Self) {
        PipelineError::Qmf(error)
    }
}

impl FromSpecImpl<QmfError> for PipelineError {
    open spec fn obeys_from_spec() -> bool {
        true
    }

    open spec fn from_spec(error: QmfError) -> Self {
        PipelineError::Qmf(error)
    }
}

impl From<PatchError> for PipelineError {
    fn from(error: PatchError) -> (converted: Self) {
        PipelineError::Patch(error)
    }
}

impl FromSpecImpl<PatchError> for PipelineError {
    open spec fn obeys_from_spec() -> bool {
        true
    }

    open spec fn from_spec(error: PatchError) -> Self {
        PipelineError::Patch(error)
    }
}

impl From<TnaError> for PipelineError {
    fn from(error: TnaError) -> (converted: Self) {
        PipelineError::Tna(error)
    }
}

impl FromSpecImpl<TnaError> for PipelineError {
    open spec fn obeys_from_spec() -> bool {
        true
    }

    open spec fn from_spec(error: TnaError) -> Self {
        PipelineError::Tna(error)
    }
}

impl From<PreFlattenError> for PipelineError {
    fn from(error: PreFlattenError) -> (converted: Self) {
        PipelineError::PreFlatten(error)
    }
}

impl FromSpecImpl<PreFlattenError> for PipelineError {
    open spec fn obeys_from_spec() -> bool {
        true
    }

    open spec fn from_spec(error: PreFlattenError) -> Self {
        PipelineError::PreFlatten(error)
    }
}

impl From<HfGenError> for PipelineError {
    fn from(error: HfGenError) -> (converted: Self) {
        PipelineError::HfGen(error)
    }
}

impl FromSpecImpl<HfGenError> for PipelineError {
    open spec fn obeys_from_spec() -> bool {
        true
    }

    open spec fn from_spec(error: HfGenError) -> Self {
        PipelineError::HfGen(error)
    }
}

impl From<EnvelopeError> for PipelineError {
    fn from(error: EnvelopeError) -> (converted: Self) {
        PipelineError::Envelope(error)
    }
}

impl FromSpecImpl<EnvelopeError> for PipelineError {
    open spec fn obeys_from_spec() -> bool {
        true
    }

    open spec fn from_spec(error: EnvelopeError) -> Self {
        PipelineError::Envelope(error)
    }
}

impl From<DequantError> for PipelineError {
    fn from(error: DequantError) -> (converted: Self) {
        PipelineError::Dequant(error)
    }
}

impl FromSpecImpl<DequantError> for PipelineError {
    open spec fn obeys_from_spec() -> bool {
        true
    }

    open spec fn from_spec(error: DequantError) -> Self {
        PipelineError::Dequant(error)
    }
}

impl From<HfAdjustError> for PipelineError {
    fn from(error: HfAdjustError) -> (converted: Self) {
        PipelineError::HfAdjust(error)
    }
}

impl FromSpecImpl<HfAdjustError> for PipelineError {
    open spec fn obeys_from_spec() -> bool {
        true
    }

    open spec fn from_spec(error: HfAdjustError) -> Self {
        PipelineError::HfAdjust(error)
    }
}

impl From<GainError> for PipelineError {
    fn from(error: GainError) -> (converted: Self) {
        PipelineError::Gain(error)
    }
}

impl FromSpecImpl<GainError> for PipelineError {
    open spec fn obeys_from_spec() -> bool {
        true
    }

    open spec fn from_spec(error: GainError) -> Self {
        PipelineError::Gain(error)
    }
}

impl From<AssembleError> for PipelineError {
    fn from(error: AssembleError) -> (converted: Self) {
        PipelineError::Assemble(error)
    }
}

impl FromSpecImpl<AssembleError> for PipelineError {
    open spec fn obeys_from_spec() -> bool {
        true
    }

    open spec fn from_spec(error: AssembleError) -> Self {
        PipelineError::Assemble(error)
    }
}

/// Timeslots of a frame and the generator lag, or why the frame is refused.
pub open spec fn frame_layout(samples: usize, output_len: Option<usize>) -> Result<
    (usize, u8),
    PipelineError,
> {
    if samples % 64 != 0 {
        Err(PipelineError::UnalignedInput { samples })
    } else if output_len matches Some(provided) && provided != samples {
        Err(PipelineError::OutputLengthMismatch { expected: samples, provided: output_len->0 })
    } else if samples / 64 > MAX_QMF_TIMESLOTS {
        Err(
            PipelineError::FrameTooLong { timeslots: samples / 64, capacity: MAX_QMF_TIMESLOTS },
        )
    } else if !tables::is_frame_length(samples as int) {
        Err(PipelineError::UnsupportedFrameLength { samples })
    } else {
        Ok((samples / 64, (3 * tables::timeslot_factor(samples as int)) as u8))
    }
}

/// Checks the length of a frame, and of its output where there is one. Gives
/// the number of timeslots and the generator lag.
pub fn validate_frame(samples: usize, output_len: Option<usize>) -> (result: Result<
    (usize, u8),
    PipelineError,
>)
    ensures
        result == frame_layout(samples, output_len),
{
    if samples % SUBBANDS != 0 {
        return Err(PipelineError::UnalignedInput { samples });
    }
    if let Some(provided) = output_len {
        if provided != samples {
            return Err(PipelineError::OutputLengthMismatch { expected: samples, provided });
        }
    }
    let timeslots: usize = samples / SUBBANDS;
    if timeslots > MAX_QMF_TIMESLOTS {
        return Err(PipelineError::FrameTooLong { timeslots, capacity: MAX_QMF_TIMESLOTS });
    }
    match ts_offset_hfgen(samples as u16) {
        Some(delay) => Ok((timeslots, delay)),
        None => Err(PipelineError::UnsupportedFrameLength { samples }),
    }
}

/// QMF timeslots per A-SPX timeslot in a frame of `samples` samples.
pub fn frame_timeslot_factor(samples: usize) -> (result: Result<u8, PipelineError>)
    ensures
        result == (if tables::is_frame_length(samples as int) {
            Ok::<u8, PipelineError>(tables::timeslot_factor(samples as int) as u8)
        } else {
            Err(PipelineError::UnsupportedFrameLength { samples })
        }),
{
    if samples > 2048 {
        return Err(PipelineError::UnsupportedFrameLength { samples });
    }
    match num_ts_in_ats(samples as u16) {
        Some(factor) => Ok(factor),
        None => Err(PipelineError::UnsupportedFrameLength { samples }),
    }
}

/// QMF timeslots of the low band that the generator reads, or why they are too
/// many.
pub open spec fn read_timeslots(timeslots: usize, ts_offset: u8) -> Result<usize, PipelineError> {
    if timeslots > MAX_QMF_TIMESLOTS || timeslots + ts_offset > MAX_EXTENDED_TIMESLOTS {
        Err(PipelineError::FrameTooLong { timeslots, capacity: MAX_QMF_TIMESLOTS })
    } else {
        Ok((timeslots + ts_offset) as usize)
    }
}

/// QMF timeslots of the low band that the generator reads: those of the frame
/// and the lag.
pub fn extended_timeslots(timeslots: usize, ts_offset: u8) -> (result: Result<
    usize,
    PipelineError,
>)
    ensures
        result == read_timeslots(timeslots, ts_offset),
{
    if timeslots > MAX_QMF_TIMESLOTS || timeslots + ts_offset as usize > MAX_EXTENDED_TIMESLOTS {
        return Err(PipelineError::FrameTooLong { timeslots, capacity: MAX_QMF_TIMESLOTS });
    }
    Ok(timeslots + ts_offset as usize)
}

/// The QMF timeslots that the high band covers, relative to its frame.
#[derive(Debug, Clone, Copy, PartialEq, Eq)]
pub struct HighBandInterval {
    /// First timeslot.
    pub first: usize,
    /// Timeslot after the last one.
    pub last: usize,
}

impl HighBandInterval {
    /// Number of timeslots.
    #[must_use]
    pub fn timeslots(self) -> (count: usize)
        ensures
            count == if self.last >= self.first {
                self.last - self.first
            } else {
                0
            },
    {
        if self.last >= self.first {
            self.last - self.first
        } else {
            0
        }
    }
}

/// The QMF timeslots of an interval in a frame, or why it does not belong
/// there.
pub open spec fn interval_range(interval: IntervalView, timeslots: usize, factor: u8) -> Result<
    HighBandInterval,
    PipelineError,
> {
    if factor != 1 && factor != 2 {
        Err(PipelineError::TimeslotFactorOutOfRange { factor })
    } else if !tables::is_aspx_layout(interval.slots as int, factor as int) {
        Err(
            PipelineError::UnsupportedTimeslotLayout { num_aspx_timeslots: interval.slots, factor },
        )
    } else if interval.slots * factor != timeslots {
        Err(
            PipelineError::IntervalFrameMismatch {
                expected: (interval.slots * factor) as u8,
                frame: timeslots,
            },
        )
    } else {
        Ok(
            HighBandInterval {
                first: (interval.sig[0] * factor) as usize,
                last: (interval.sig.last() * factor) as usize,
            },
        )
    }
}

/// The QMF timeslots that the high band of an interval covers. The right end
/// may lie behind the frame.
pub fn high_band_interval(interval: &AspxInterval, timeslots: usize, num_ts_in_ats: u8) -> (result:
    Result<HighBandInterval, PipelineError>)
    ensures
        result == interval_range(interval@, timeslots, num_ts_in_ats),
        result matches Ok(aspx) ==> aspx.first < aspx.last <= 0xffff && interval@.ordered(),
{
    if num_ts_in_ats != 1 && num_ts_in_ats != 2 {
        return Err(PipelineError::TimeslotFactorOutOfRange { factor: num_ts_in_ats });
    }
    let num_aspx_timeslots: u8 = interval.source_num_aspx_timeslots();
    let expected: u8 = match qmf_timeslots_for_aspx_layout(num_aspx_timeslots, num_ts_in_ats) {
        Some(expected) => expected,
        None => {
            return Err(
                PipelineError::UnsupportedTimeslotLayout {
                    num_aspx_timeslots,
                    factor: num_ts_in_ats,
                },
            );
        },
    };
    if expected as usize != timeslots {
        return Err(PipelineError::IntervalFrameMismatch { expected, frame: timeslots });
    }
    let envelopes: usize = interval.num_atsg_sig() as usize;
    match (interval.sig_border(0), interval.sig_border(envelopes)) {
        (Some(first), Some(last)) => {
            assert(interval@.ordered());
            assert(interval@.sig[0] < interval@.sig[envelopes as int]);
            let factor: usize = num_ts_in_ats as usize;
            assert(0 <= first * factor < last * factor <= 0xffff) by (nonlinear_arith)
                requires
                    0 <= first < last <= 0x7fff,
                    1 <= factor <= 2,
            ;
            Ok(HighBandInterval { first: first as usize * factor, last: last as usize * factor })
        },
        _ => {
            assert(false);
            Err(PipelineError::MissingIntervalBorder { index: envelopes })
        },
    }
}

/// What is wrong with a high band that follows `carried` timeslots left over
/// from the last frame.
pub open spec fn carryover_error(
    aspx: HighBandInterval,
    carried: usize,
    factor: u8,
    timeslots: usize,
) -> Option<AssembleError> {
    if aspx.last < timeslots {
        Some(AssembleError::TimeslotsBeyondInterval { timeslots, stop: aspx.last })
    } else if aspx.first > 3 * factor {
        Some(AssembleError::CarryoverOutOfRange { carryover: aspx.first })
    } else if aspx.last - timeslots > 3 * factor {
        Some(AssembleError::CarryoverOutOfRange { carryover: (aspx.last - timeslots) as usize })
    } else if carried != aspx.first {
        Some(AssembleError::CarryoverMismatch { carried, required: aspx.first })
    } else {
        None
    }
}

/// Checks that a high band reaches the end of its frame, that it neither starts
/// nor ends more than three A-SPX timeslots late, and that the timeslots in
/// front of it are exactly those that the last frame left over.
pub fn validate_hf_carryover(
    aspx: HighBandInterval,
    carried: usize,
    num_ts_in_ats: u8,
    num_qmf_timeslots: usize,
) -> (result: Result<(), PipelineError>)
    ensures
        result == (match carryover_error(aspx, carried, num_ts_in_ats, num_qmf_timeslots) {
            Some(error) => Err::<(), PipelineError>(PipelineError::Assemble(error)),
            None => Ok(()),
        }),
{
    if aspx.last < num_qmf_timeslots {
        return Err(
            PipelineError::Assemble(
                AssembleError::TimeslotsBeyondInterval {
                    timeslots: num_qmf_timeslots,
                    stop: aspx.last,
                },
            ),
        );
    }
    let trailing: usize = aspx.last - num_qmf_timeslots;
    let limit: usize = 3 * (num_ts_in_ats as usize);
    if aspx.first > limit {
        return Err(
            PipelineError::Assemble(AssembleError::CarryoverOutOfRange { carryover: aspx.first }),
        );
    }
    if trailing > limit {
        return Err(
            PipelineError::Assemble(AssembleError::CarryoverOutOfRange { carryover: trailing }),
        );
    }
    if carried != aspx.first {
        return Err(
            PipelineError::Assemble(
                AssembleError::CarryoverMismatch { carried, required: aspx.first },
            ),
        );
    }
    Ok(())
}

/// Parameters of the high-frequency generator that the tables do not hold.
#[derive(Debug, Clone, Copy)]
pub struct HfGenParams<'a> {
    /// Which template the master table is cut from.
    pub master_freq_scale: bool,
    /// Whether the base sampling rate is 48 kHz.
    pub base_samp_freq_48: bool,
    /// Chirp mode of each noise group.
    pub chirp_modes: &'a [u8],
    /// Whether the low band is flattened.
    pub pre_flattening: bool,
}

/// The first noise group, from `group` on, whose chirp mode does not fit in two
/// bits.
pub open spec fn first_bad_mode(modes: Seq<u8>, group: int) -> Option<TnaError>
    decreases modes.len() - group,
{
    if group >= modes.len() {
        None
    } else if modes[group] > 3 {
        Some(TnaError::ModeOutOfRange { group: group as usize, mode: modes[group] })
    } else {
        first_bad_mode(modes, group + 1)
    }
}

/// Checks that every chirp mode fits in two bits.
pub fn validate_chirp_modes(modes: &[u8]) -> (result: Result<(), TnaError>)
    ensures
        result == (match first_bad_mode(modes@, 0) {
            Some(error) => Err::<(), TnaError>(error),
            None => Ok(()),
        }),
{
    let mut group: usize = 0;
    while group < modes.len()
        invariant
            group <= modes@.len(),
            first_bad_mode(modes@, 0) == first_bad_mode(modes@, group as int),
        decreases modes@.len() - group,
    {
        if modes[group] > 3 {
            return Err(TnaError::ModeOutOfRange { group, mode: modes[group] });
        }
        group = group + 1;
    }
    Ok(())
}

/// Tables of the high-frequency generator.
#[verifier::ext_equal]
pub struct TablesView {
    /// Patches.
    pub patches: PatchView,
    /// Noise borders.
    pub borders: Seq<u8>,
}

/// Tables of the high-frequency generator.
#[derive(Debug)]
pub struct HfGenTables {
    patches: PatchTable,
    noise_borders: [u8; NOISE_BORDERS],
    noise_groups: usize,
}

impl View for HfGenTables {
    type V = TablesView;

    closed spec fn view(&self) -> TablesView {
        TablesView {
            patches: self.patches@,
            borders: self.noise_borders@.take(self.noise_groups + 1),
        }
    }
}

impl HfGenTables {
    #[verifier::type_invariant]
    spec fn well_formed(self) -> bool {
        self.noise_groups < NOISE_BORDERS
    }

    /// The patches.
    #[must_use]
    pub fn patches(&self) -> (patches: &PatchTable)
        ensures
            patches@ == self@.patches,
    {
        &self.patches
    }

    /// The noise borders, one more than there are noise groups.
    #[must_use]
    pub fn borders(&self) -> (borders: &[u8])
        ensures
            borders@ == self@.borders,
    {
        proof {
            use_type_invariant(self);
        }
        vstd::slice::slice_subrange(&self.noise_borders, 0, self.noise_groups + 1)
    }
}

/// The tables of the high-frequency generator, or why there are none.
pub open spec fn generation_tables(
    bands: BandView,
    master_freq_scale: bool,
    base_samp_freq_48: bool,
    chirp_modes: Seq<u8>,
) -> Result<TablesView, PipelineError> {
    let groups = bands::group_count(bands.noise);
    match patches::derived_patches(bands, master_freq_scale, base_samp_freq_48) {
        Err(error) => Err(PipelineError::Patch(error)),
        Ok(patches) => if groups == 0 || groups > MAX_SBG_NOISE {
            Err(PipelineError::TooManyNoiseGroups { groups: groups as usize })
        } else if chirp_modes.len() != groups {
            Err(
                PipelineError::ChirpModeCountMismatch {
                    expected: groups as usize,
                    provided: chirp_modes.len() as usize,
                },
            )
        } else {
            match first_bad_mode(chirp_modes, 0) {
                Some(error) => Err(PipelineError::Tna(error)),
                None => Ok(TablesView { patches, borders: bands.noise }),
            }
        },
    }
}

/// Derives the patches and the noise borders, and checks the chirp modes.
pub fn hf_gen_tables(bands: &AspxBandTables, params: HfGenParams<'_>) -> (result: Result<
    HfGenTables,
    PipelineError,
>)
    ensures
        match result {
            Ok(tables) => {
                &&& generation_tables(
                    bands@,
                    params.master_freq_scale,
                    params.base_samp_freq_48,
                    params.chirp_modes@,
                ) == Ok::<TablesView, PipelineError>(tables@)
                &&& patches::derived_patches(
                    bands@,
                    params.master_freq_scale,
                    params.base_samp_freq_48,
                ) == Ok::<PatchView, PatchError>(tables@.patches)
                &&& tables@.borders == bands@.noise
            },
            Err(error) => generation_tables(
                bands@,
                params.master_freq_scale,
                params.base_samp_freq_48,
                params.chirp_modes@,
            ) == Err::<TablesView, PipelineError>(error),
        },
{
    let patches = match PatchTable::derive(
        bands,
        params.master_freq_scale,
        params.base_samp_freq_48,
    ) {
        Ok(patches) => patches,
        Err(error) => {
            return Err(PipelineError::from(error));
        },
    };
    let noise_groups: usize = bands.num_sbg_noise() as usize;
    if noise_groups == 0 || noise_groups > MAX_SBG_NOISE as usize {
        return Err(PipelineError::TooManyNoiseGroups { groups: noise_groups });
    }
    if params.chirp_modes.len() != noise_groups {
        return Err(
            PipelineError::ChirpModeCountMismatch {
                expected: noise_groups,
                provided: params.chirp_modes.len(),
            },
        );
    }
    match validate_chirp_modes(params.chirp_modes) {
        Ok(_) => {},
        Err(error) => {
            return Err(PipelineError::from(error));
        },
    }
    let mut noise_borders: [u8; NOISE_BORDERS] = [0; NOISE_BORDERS];
    let mut index: usize = 0;
    while index <= noise_groups
        invariant
            index <= noise_groups + 1 <= NOISE_BORDERS,
            noise_groups == bands::group_count(bands@.noise),
            noise_groups > 0,
            forall|i: int| 0 <= i < index ==> #[trigger] noise_borders@[i] == bands@.noise[i],
        decreases noise_groups + 1 - index,
    {
        match bands.noise_border(index) {
            Some(border) => {
                noise_borders[index] = border;
            },
            None => {
                assert(false);
            },
        }
        index = index + 1;
    }
    let tables = HfGenTables { patches, noise_borders, noise_groups };
    assert(tables@.borders =~= bands@.noise);
    Ok(tables)
}

/// What the envelopes of a channel are decoded from.
#[derive(Debug, Clone, Copy)]
pub struct EnvelopeInput<'a> {
    /// Interval and difference directions.
    pub framing: &'a AspxChannelFraming,
    /// Differences.
    pub data: &'a AspxEnvelopes,
}

/// The differences of signal envelope `env`, if they and their direction exist.
pub open spec fn signal_deltas(framing: FramingView, data: EnvelopesView, env: int) -> Option<
    DeltasView,
> {
    match syntax::flag_of(framing.sig_delta_dir, framing.params.num_env as int, env) {
        Some(time_direction) if env < data.sig.len() => Some(
            DeltasView {
                data: data.sig[env],
                time_direction,
                high_resolution: framing.interval.freq_res[env],
            },
        ),
        _ => None,
    }
}

/// The differences of noise envelope `env`, if they and their direction exist.
pub open spec fn noise_deltas(framing: FramingView, data: EnvelopesView, env: int) -> Option<
    DeltasView,
> {
    match syntax::flag_of(framing.noise_delta_dir, framing.params.num_noise as int, env) {
        Some(time_direction) if env < data.noise.len() => Some(
            DeltasView { data: data.noise[env], time_direction, high_resolution: false },
        ),
        _ => None,
    }
}

/// The differences of an envelope of either family.
pub open spec fn deltas_at(
    kind: EnvelopeKind,
    framing: FramingView,
    data: EnvelopesView,
    env: int,
) -> Option<DeltasView> {
    match kind {
        EnvelopeKind::Signal => signal_deltas(framing, data, env),
        EnvelopeKind::Noise => noise_deltas(framing, data, env),
    }
}

/// The differences of the first `count` envelopes of a family, or the first
/// envelope without them.
pub open spec fn gathered(
    kind: EnvelopeKind,
    framing: FramingView,
    data: EnvelopesView,
    count: int,
) -> Result<Seq<DeltasView>, PipelineError>
    decreases count,
{
    if count <= 0 {
        Ok(Seq::empty())
    } else {
        match gathered(kind, framing, data, count - 1) {
            Err(error) => Err(error),
            Ok(deltas) => match deltas_at(kind, framing, data, count - 1) {
                None => Err(
                    PipelineError::EnvelopeDataMismatch { kind, envelope: (count - 1) as usize },
                ),
                Some(next) => Ok(deltas.push(next)),
            },
        }
    }
}

proof fn lemma_gathered_failure_stays(
    kind: EnvelopeKind,
    framing: FramingView,
    data: EnvelopesView,
    count: int,
    total: int,
)
    requires
        count <= total,
        gathered(kind, framing, data, count) is Err,
    ensures
        gathered(kind, framing, data, total) == gathered(kind, framing, data, count),
    decreases total - count,
{
    if count < total {
        lemma_gathered_failure_stays(kind, framing, data, count, total - 1);
    }
}

/// The quantised scale factors of a channel, with the signal differences they
/// come from, or why there are none.
pub open spec fn decoded_input(
    bands: BandView,
    framing: FramingView,
    data: EnvelopesView,
    delta_is_two: bool,
    history: EnvelopeHistory,
) -> Result<(Seq<DeltasView>, FactorsView), PipelineError> {
    match gathered(EnvelopeKind::Signal, framing, data, framing.interval.num_sig()) {
        Err(error) => Err(error),
        Ok(signal) => match gathered(
            EnvelopeKind::Noise,
            framing,
            data,
            framing.interval.num_noise(),
        ) {
            Err(error) => Err(error),
            Ok(noise) => match envelope::decoded_factors(
                signal,
                noise,
                envelope::index_map(bands),
                delta_is_two,
                history,
            ) {
                Err(error) => Err(PipelineError::Envelope(error)),
                Ok(factors) => Ok((signal, factors)),
            },
        },
    }
}

/// Gathers the differences of the signal envelopes.
fn gather_signal<'a>(input: EnvelopeInput<'a>) -> (result: Result<
    Vec<EnvelopeDeltas<'a>>,
    PipelineError,
>)
    ensures
        match result {
            Ok(found) => gathered(
                EnvelopeKind::Signal,
                input.framing@,
                input.data@,
                input.framing@.interval.num_sig(),
            ) == Ok::<Seq<DeltasView>, PipelineError>(envelope::deltas_of(found@)),
            Err(error) => gathered(
                EnvelopeKind::Signal,
                input.framing@,
                input.data@,
                input.framing@.interval.num_sig(),
            ) == Err::<Seq<DeltasView>, PipelineError>(error),
        },
{
    let count: usize = input.framing.interval.num_atsg_sig() as usize;
    let ghost kind = EnvelopeKind::Signal;
    let mut found: Vec<EnvelopeDeltas<'a>> = Vec::new();
    let mut index: usize = 0;
    assert(envelope::deltas_of(found@) =~= Seq::empty());
    while index < count
        invariant
            index <= count,
            count == input.framing@.interval.num_sig(),
            kind == EnvelopeKind::Signal,
            gathered(kind, input.framing@, input.data@, index as int) == Ok::<
                Seq<DeltasView>,
                PipelineError,
            >(envelope::deltas_of(found@)),
        decreases count - index,
    {
        match (
            input.data.sig_slice(index),
            input.framing.sig_delta_dir(index),
            input.framing.interval.freq_res(index),
        ) {
            (Some(data), Some(time_direction), Some(high_resolution)) => {
                let next = EnvelopeDeltas { data, time_direction, high_resolution };
                let ghost before = found@;
                found.push(next);
                assert(envelope::deltas_of(found@) =~= envelope::deltas_of(before).push(next@));
            },
            _ => {
                proof {
                    lemma_gathered_failure_stays(
                        kind,
                        input.framing@,
                        input.data@,
                        index + 1,
                        count as int,
                    );
                }
                return Err(
                    PipelineError::EnvelopeDataMismatch {
                        kind: EnvelopeKind::Signal,
                        envelope: index,
                    },
                );
            },
        }
        index = index + 1;
    }
    Ok(found)
}

/// Gathers the differences of the noise envelopes.
fn gather_noise<'a>(input: EnvelopeInput<'a>) -> (result: Result<
    Vec<EnvelopeDeltas<'a>>,
    PipelineError,
>)
    ensures
        match result {
            Ok(found) => gathered(
                EnvelopeKind::Noise,
                input.framing@,
                input.data@,
                input.framing@.interval.num_noise(),
            ) == Ok::<Seq<DeltasView>, PipelineError>(envelope::deltas_of(found@)),
            Err(error) => gathered(
                EnvelopeKind::Noise,
                input.framing@,
                input.data@,
                input.framing@.interval.num_noise(),
            ) == Err::<Seq<DeltasView>, PipelineError>(error),
        },
{
    let count: usize = input.framing.interval.num_atsg_noise() as usize;
    let ghost kind = EnvelopeKind::Noise;
    let mut found: Vec<EnvelopeDeltas<'a>> = Vec::new();
    let mut index: usize = 0;
    assert(envelope::deltas_of(found@) =~= Seq::empty());
    while index < count
        invariant
            index <= count,
            count == input.framing@.interval.num_noise(),
            kind == EnvelopeKind::Noise,
            gathered(kind, input.framing@, input.data@, index as int) == Ok::<
                Seq<DeltasView>,
                PipelineError,
            >(envelope::deltas_of(found@)),
        decreases count - index,
    {
        match (input.data.noise_slice(index), input.framing.noise_delta_dir(index)) {
            (Some(data), Some(time_direction)) => {
                let next = EnvelopeDeltas { data, time_direction, high_resolution: false };
                let ghost before = found@;
                found.push(next);
                assert(envelope::deltas_of(found@) =~= envelope::deltas_of(before).push(next@));
            },
            _ => {
                proof {
                    lemma_gathered_failure_stays(
                        kind,
                        input.framing@,
                        input.data@,
                        index + 1,
                        count as int,
                    );
                }
                return Err(
                    PipelineError::EnvelopeDataMismatch {
                        kind: EnvelopeKind::Noise,
                        envelope: index,
                    },
                );
            },
        }
        index = index + 1;
    }
    Ok(found)
}

/// Decodes the envelopes of a channel on a copy of its history. Gives the
/// history after the interval and the quantised scale factors.
pub fn decode_envelope_input(
    bands: &AspxBandTables,
    envelopes: EnvelopeInput<'_>,
    delta_is_two: bool,
    history: EnvelopeHistory,
) -> (result: Result<(EnvelopeHistory, EnvelopeScaleFactors), PipelineError>)
    ensures
        match result {
            Ok((next, factors)) => decoded_input(
                bands@,
                envelopes.framing@,
                envelopes.data@,
                delta_is_two,
                history,
            ) matches Ok((signal, expected)) && {
                &&& expected == factors@
                &&& envelope::remembers(next, signal, expected)
            },
            Err(error) => decoded_input(
                bands@,
                envelopes.framing@,
                envelopes.data@,
                delta_is_two,
                history,
            ) == Err::<(Seq<DeltasView>, FactorsView), PipelineError>(error),
        },
{
    let map = match SbgIndexMap::derive(bands) {
        Ok(map) => map,
        Err(error) => {
            assert(false);
            return Err(PipelineError::from(error));
        },
    };
    let signal = gather_signal(envelopes)?;
    let noise = gather_noise(envelopes)?;
    let mut next: EnvelopeHistory = history;
    let mut factors = EnvelopeScaleFactors::new();
    match envelope::decode(
        signal.as_slice(),
        noise.as_slice(),
        &map,
        delta_is_two,
        &mut next,
        &mut factors,
    ) {
        Ok(_) => Ok((next, factors)),
        Err(error) => Err(PipelineError::from(error)),
    }
}

/// Parameters of the envelope adjustment and of the noise and tone generators.
#[derive(Debug, Clone, Copy)]
pub struct HfAdjustParams<'a> {
    /// Whether a sinusoid is added in each high-resolution group.
    pub add_harmonic: &'a [bool],
    /// Whether envelopes are estimated subband by subband.
    pub interpolation: bool,
    /// Whether gains are limited.
    pub limiter: bool,
    /// Whether the master table changed with this frame.
    pub master_reset: bool,
    /// Whether this is the first frame after start-up.
    pub first_frame: bool,
}

/// What is wrong with the adjustment parameters: too few sinusoid flags, or a
/// limiter without groups.
pub open spec fn adjustment_error(
    bands: BandView,
    flags: int,
    limiter: bool,
    limiter_failure: Option<LimiterError>,
) -> Option<PipelineError> {
    if flags < bands::group_count(bands.sig_highres) {
        Some(
            PipelineError::HfAdjust(
                HfAdjustError::HarmonicDataTooShort {
                    needed: bands::group_count(bands.sig_highres) as usize,
                    provided: flags as usize,
                },
            ),
        )
    } else if limiter {
        match limiter_failure {
            Some(error) => Some(PipelineError::Limiter(error)),
            None => None,
        }
    } else {
        None
    }
}

/// Checks the adjustment parameters. `limiter_failure` tells why the limiter
/// groups cannot be derived, if they cannot; it matters only where the limiter
/// is on.
pub fn hf_adjust_limiter(
    bands: &AspxBandTables,
    params: HfAdjustParams<'_>,
    limiter_failure: Option<LimiterError>,
) -> (result: Result<(), PipelineError>)
    ensures
        result == (match adjustment_error(
            bands@,
            params.add_harmonic@.len() as int,
            params.limiter,
            limiter_failure,
        ) {
            Some(error) => Err::<(), PipelineError>(error),
            None => Ok(()),
        }),
{
    let needed: usize = bands.num_sbg_sig_highres() as usize;
    if params.add_harmonic.len() < needed {
        return Err(
            PipelineError::HfAdjust(
                HfAdjustError::HarmonicDataTooShort { needed, provided: params.add_harmonic.len() },
            ),
        );
    }
    if params.limiter {
        if let Some(error) = limiter_failure {
            return Err(PipelineError::from(error));
        }
    }
    Ok(())
}

/// What decides whether a master table changed: which template it is cut from,
/// and where.
pub type MasterKey = (bool, u8, u8);

/// A decision about one frame.
pub struct DecisionView {
    /// The master configuration that came with the frame, if it is independent.
    pub current: Option<MasterKey>,
    /// Whether the master table changed.
    pub reset: bool,
}

/// Whether the master table changes with a frame. The same decision holds for
/// all channels of the frame and for every attempt at it.
#[derive(Debug, Clone, Copy, PartialEq, Eq)]
pub struct MasterResetDecision {
    current: Option<MasterKey>,
    reset: bool,
}

impl View for MasterResetDecision {
    type V = DecisionView;

    closed spec fn view(&self) -> DecisionView {
        DecisionView { current: self.current, reset: self.reset }
    }
}

impl MasterResetDecision {
    /// Whether the master table changes with the frame.
    #[must_use]
    pub fn is_reset(self) -> (reset: bool)
        ensures
            reset == self@.reset,
    {
        self.reset
    }
}

/// The master configuration of the last independent frame that succeeded.
#[derive(Debug, Clone, Copy, PartialEq, Eq)]
pub struct MasterResetTracker {
    previous: Option<MasterKey>,
}

impl View for MasterResetTracker {
    type V = Option<MasterKey>;

    closed spec fn view(&self) -> Option<MasterKey> {
        self.previous
    }
}

/// The master configuration of a frame.
pub open spec fn master_key(config: Option<AspxConfig>) -> Option<MasterKey> {
    match config {
        Some(config) => Some((config.master_freq_scale, config.start_freq, config.stop_freq)),
        None => None,
    }
}

/// The decision about a frame: the master table changes when an independent
/// frame brings another configuration than the last one, or the first one.
pub open spec fn decision(previous: Option<MasterKey>, current: Option<MasterKey>) -> DecisionView {
    DecisionView { current, reset: current is Some && previous != current }
}

impl MasterResetTracker {
    /// No independent frame has been seen.
    #[must_use]
    pub fn new() -> (tracker: Self)
        ensures
            tracker@ is None,
    {
        MasterResetTracker { previous: None }
    }

    /// Decides about a frame; only an independent one has a configuration. The
    /// tracker stays as it is until the decision is committed.
    #[must_use]
    pub fn frame(&self, config: Option<&AspxConfig>) -> (result: MasterResetDecision)
        ensures
            result@ == decision(
                self@,
                match config {
                    Some(config) => master_key(Some(*config)),
                    None => None,
                },
            ),
    {
        match config {
            None => MasterResetDecision { current: None, reset: false },
            Some(config) => {
                let (scale, start, stop): MasterKey = (
                    config.master_freq_scale,
                    config.start_freq,
                    config.stop_freq,
                );
                let same: bool = match self.previous {
                    Some((last_scale, last_start, last_stop)) => last_scale == scale && last_start
                        == start && last_stop == stop,
                    None => false,
                };
                MasterResetDecision { current: Some((scale, start, stop)), reset: !same }
            },
        }
    }

    /// Remembers the configuration of a frame once all its channels succeeded.
    pub fn commit(&mut self, decision: MasterResetDecision)
        ensures
            final(self)@ == if decision@.current is Some {
                decision@.current
            } else {
                old(self)@
            },
    {
        if let Some(current) = decision.current {
            self.previous = Some(current);
        }
    }
}

impl Default for MasterResetTracker {
    fn default() -> (tracker: Self)
        ensures
            tracker@ is None,
    {
        MasterResetTracker::new()
    }
}

/// A dependent frame never changes the master table, the first independent one
/// always does, and a later one does exactly when its configuration differs
/// from the last one that was committed.
pub proof fn lemma_reset_marks_changes(previous: Option<MasterKey>, current: Option<MasterKey>)
    ensures
        current is None ==> !decision(previous, current).reset,
        current is Some && previous is None ==> decision(previous, current).reset,
        current is Some ==> (decision(previous, current).reset <==> previous != current),
        current is Some ==> !decision(current, current).reset,
{
}

/// All inputs of a channel in one frame.
#[derive(Debug, Clone, Copy)]
pub struct ChannelInputs<'a> {
    /// Inputs of the high-frequency generator.
    pub hf_gen: HfGenParams<'a>,
    /// Inputs of the envelope adjustment.
    pub hf_adjust: HfAdjustParams<'a>,
    /// Envelopes.
    pub envelopes: EnvelopeInput<'a>,
}

impl<'a> ChannelInputs<'a> {
    /// The inputs of a channel of a parsed element. Three flags are not part of
    /// the element: the base sampling rate, whether the master table changed,
    /// and whether this is the first frame.
    pub fn from_parsed(
        data: &'a AspxData,
        config: &AspxConfig,
        channel: usize,
        base_samp_freq_48: bool,
        master_reset: bool,
        first_frame: bool,
    ) -> (result: Result<Self, PipelineError>)
        ensures
            match result {
                Ok(inputs) => {
                    &&& channel < data.channels && channel < 2
                    &&& inputs.hf_gen.master_freq_scale == config.master_freq_scale
                    &&& inputs.hf_gen.base_samp_freq_48 == base_samp_freq_48
                    &&& inputs.hf_gen.chirp_modes@ == data@.hfgen[channel as int].tna_mode
                    &&& inputs.hf_gen.pre_flattening == config.preflat
                    &&& inputs.hf_adjust.add_harmonic@ == data@.hfgen[channel as int].add_harmonic
                    &&& inputs.hf_adjust.interpolation == config.interpolation
                    &&& inputs.hf_adjust.limiter == config.limiter
                    &&& inputs.hf_adjust.master_reset == master_reset
                    &&& inputs.hf_adjust.first_frame == first_frame
                    &&& inputs.envelopes.framing@ == data@.framing[channel as int]
                    &&& inputs.envelopes.data@ == data@.envelopes[channel as int]
                },
                Err(error) => {
                    &&& channel >= data.channels || channel >= 2
                    &&& error == (PipelineError::MissingChannel { channel })
                },
            },
    {
        match (data.hfgen(channel), data.framing(channel), data.envelopes(channel)) {
            (Some(hfgen), Some(framing), Some(envelopes)) => {
                match (hfgen.tna_mode_slice(), hfgen.add_harmonic_slice()) {
                    (Some(chirp_modes), Some(add_harmonic)) => Ok(
                        ChannelInputs {
                            hf_gen: HfGenParams {
                                master_freq_scale: config.master_freq_scale,
                                base_samp_freq_48,
                                chirp_modes,
                                pre_flattening: config.preflat,
                            },
                            hf_adjust: HfAdjustParams {
                                add_harmonic,
                                interpolation: config.interpolation,
                                limiter: config.limiter,
                                master_reset,
                                first_frame,
                            },
                            envelopes: EnvelopeInput { framing, data: envelopes },
                        },
                    ),
                    _ => Err(PipelineError::MissingChannel { channel }),
                }
            },
            _ => Err(PipelineError::MissingChannel { channel }),
        }
    }
}

/// One channel of a frame that is to be processed.
#[derive(Debug, Clone, Copy)]
pub struct ChannelTask<'a> {
    /// Parsed inputs.
    pub inputs: ChannelInputs<'a>,
    /// Envelopes of the last interval.
    pub history: EnvelopeHistory,
    /// Samples of the frame.
    pub samples: usize,
    /// Samples of the output, if samples are put out.
    pub output_len: Option<usize>,
    /// Why the limiter groups cannot be derived, if they cannot; matters only
    /// where the limiter is on.
    pub limiter_failure: Option<LimiterError>,
    /// High-band timeslots that the last frame left over.
    pub carried: usize,
}

/// One channel of a frame that is to be processed.
pub struct TaskView {
    /// Which template the master table is cut from.
    pub master_freq_scale: bool,
    /// Whether the base sampling rate is 48 kHz.
    pub base_samp_freq_48: bool,
    /// Chirp modes.
    pub chirp_modes: Seq<u8>,
    /// Number of sinusoid flags.
    pub flags: int,
    /// Whether gains are limited.
    pub limiter: bool,
    /// Interval and directions.
    pub framing: FramingView,
    /// Differences.
    pub data: EnvelopesView,
    /// Envelopes of the last interval.
    pub history: EnvelopeHistory,
    /// Samples of the frame.
    pub samples: usize,
    /// Samples of the output.
    pub output_len: Option<usize>,
    /// Why the limiter groups cannot be derived, if they cannot.
    pub limiter_failure: Option<LimiterError>,
    /// Timeslots that the last frame left over.
    pub carried: usize,
}

impl<'a> View for ChannelTask<'a> {
    type V = TaskView;

    open spec fn view(&self) -> TaskView {
        TaskView {
            master_freq_scale: self.inputs.hf_gen.master_freq_scale,
            base_samp_freq_48: self.inputs.hf_gen.base_samp_freq_48,
            chirp_modes: self.inputs.hf_gen.chirp_modes@,
            flags: self.inputs.hf_adjust.add_harmonic@.len() as int,
            limiter: self.inputs.hf_adjust.limiter,
            framing: self.inputs.envelopes.framing@,
            data: self.inputs.envelopes.data@,
            history: self.history,
            samples: self.samples,
            output_len: self.output_len,
            limiter_failure: self.limiter_failure,
            carried: self.carried,
        }
    }
}

/// What the signal tools do with one channel of a frame.
pub struct PlanView {
    /// Signal differences of the interval.
    pub signal: Seq<DeltasView>,
    /// Quantised scale factors of the interval.
    pub quantised: FactorsView,
    /// Linear scale factors.
    pub factors: ScaleView,
    /// QMF timeslots of the frame.
    pub timeslots: usize,
    /// Lag of the generator.
    pub ts_offset: u8,
    /// Tables of the generator.
    pub tables: TablesView,
    /// QMF timeslots per A-SPX timeslot.
    pub factor: u8,
    /// Timeslots of the high band.
    pub aspx: HighBandInterval,
}

/// What the signal tools do with one channel of a frame, and what is remembered
/// once they have done it.
#[derive(Debug)]
pub struct FramePlan {
    /// Envelopes to remember.
    pub history: EnvelopeHistory,
    /// Linear scale factors.
    pub factors: ScaleFactors,
    /// QMF timeslots of the frame.
    pub timeslots: usize,
    /// Lag of the generator.
    pub ts_offset: u8,
    /// Tables of the generator.
    pub tables: HfGenTables,
    /// QMF timeslots per A-SPX timeslot.
    pub factor: u8,
    /// Timeslots of the high band.
    pub aspx: HighBandInterval,
}

impl FramePlan {
    /// Whether a plan is the expected one.
    pub open spec fn is(self, expected: PlanView) -> bool {
        &&& envelope::remembers(self.history, expected.signal, expected.quantised)
        &&& self.factors@ == expected.factors
        &&& self.timeslots == expected.timeslots
        &&& self.ts_offset == expected.ts_offset
        &&& self.tables@ == expected.tables
        &&& self.factor == expected.factor
        &&& self.aspx == expected.aspx
    }
}

/// Two outcomes, the first one deciding where both fail.
pub open spec fn both<A, B>(
    first: Result<A, PipelineError>,
    second: Result<B, PipelineError>,
) -> Result<(A, B), PipelineError> {
    match first {
        Err(error) => Err(error),
        Ok(left) => match second {
            Err(error) => Err(error),
            Ok(right) => Ok((left, right)),
        },
    }
}

/// The decoded envelopes of a channel.
pub open spec fn task_envelopes(bands: BandView, task: TaskView, delta_is_two: bool) -> Result<
    (Seq<DeltasView>, FactorsView),
    PipelineError,
> {
    decoded_input(bands, task.framing, task.data, delta_is_two, task.history)
}

/// The linear scale factors of a channel.
pub open spec fn task_factors(task: TaskView, quantised: FactorsView) -> Result<
    ScaleView,
    PipelineError,
> {
    match dequant::dequantised(quantised, task.framing.qmode_env) {
        Err(error) => Err(PipelineError::Dequant(error)),
        Ok(factors) => Ok(factors),
    }
}

/// The generator tables of a channel.
pub open spec fn task_tables(bands: BandView, task: TaskView) -> Result<TablesView, PipelineError> {
    generation_tables(bands, task.master_freq_scale, task.base_samp_freq_48, task.chirp_modes)
}

/// The timeslot factor of a channel.
pub open spec fn task_factor(task: TaskView) -> Result<u8, PipelineError> {
    if tables::is_frame_length(task.samples as int) {
        Ok(tables::timeslot_factor(task.samples as int) as u8)
    } else {
        Err(PipelineError::UnsupportedFrameLength { samples: task.samples })
    }
}

/// The check of the adjustment parameters of a channel.
pub open spec fn task_adjustment(bands: BandView, task: TaskView) -> Result<(), PipelineError> {
    match adjustment_error(bands, task.flags, task.limiter, task.limiter_failure) {
        Some(error) => Err(error),
        None => Ok(()),
    }
}

/// The check of what the last frame left over for a channel.
pub open spec fn task_carryover(
    task: TaskView,
    aspx: HighBandInterval,
    factor: u8,
    timeslots: usize,
) -> Result<(), PipelineError> {
    match carryover_error(aspx, task.carried, factor, timeslots) {
        Some(error) => Err(PipelineError::Assemble(error)),
        None => Ok(()),
    }
}

/// The plan of a single channel, or why there is none.
pub open spec fn frame_plan(bands: BandView, task: TaskView) -> Result<PlanView, PipelineError> {
    match task_envelopes(bands, task, false) {
        Err(error) => Err(error),
        Ok((signal, quantised)) => match both(
            task_factors(task, quantised),
            frame_layout(task.samples, task.output_len),
        ) {
            Err(error) => Err(error),
            Ok((factors, (timeslots, ts_offset))) => match both(
                task_tables(bands, task),
                task_factor(task),
            ) {
                Err(error) => Err(error),
                Ok((tables, factor)) => match interval_range(
                    task.framing.interval,
                    timeslots,
                    factor,
                ) {
                    Err(error) => Err(error),
                    Ok(aspx) => match both(
                        task_adjustment(bands, task),
                        task_carryover(task, aspx, factor, timeslots),
                    ) {
                        Err(error) => Err(error),
                        Ok(_) => Ok(
                            PlanView {
                                signal,
                                quantised,
                                factors,
                                timeslots,
                                ts_offset,
                                tables,
                                factor,
                                aspx,
                            },
                        ),
                    },
                },
            },
        },
    }
}

/// Plans a frame of a single channel.
pub fn plan_frame(bands: &AspxBandTables, task: &ChannelTask<'_>) -> (result: Result<
    FramePlan,
    PipelineError,
>)
    ensures
        match result {
            Ok(plan) => frame_plan(bands@, task@) matches Ok(expected) && plan.is(expected),
            Err(error) => frame_plan(bands@, task@) == Err::<PlanView, PipelineError>(error),
        },
{
    let envelopes = task.inputs.envelopes;
    let (history, quantised) = decode_envelope_input(bands, envelopes, false, task.history)?;
    let factors = make_linear(&quantised, envelopes.framing.qmode_env)?;
    let (timeslots, ts_offset): (usize, u8) = validate_frame(task.samples, task.output_len)?;
    let tables = hf_gen_tables(bands, task.inputs.hf_gen)?;
    let factor: u8 = frame_timeslot_factor(task.samples)?;
    let aspx = high_band_interval(&envelopes.framing.interval, timeslots, factor)?;
    hf_adjust_limiter(bands, task.inputs.hf_adjust, task.limiter_failure)?;
    validate_hf_carryover(aspx, task.carried, factor, timeslots)?;
    Ok(FramePlan { history, factors, timeslots, ts_offset, tables, factor, aspx })
}

/// Makes the scale factors of a channel linear.
fn make_linear(quantised: &EnvelopeScaleFactors, coarse_quant: bool) -> (result: Result<
    ScaleFactors,
    PipelineError,
>)
    ensures
        match result {
            Ok(factors) => dequant::dequantised(quantised@, coarse_quant) == Ok::<
                ScaleView,
                DequantError,
            >(factors@),
            Err(error) => dequant::dequantised(quantised@, coarse_quant) matches Err(cause)
                && error == PipelineError::Dequant(cause),
        },
{
    let mut factors = ScaleFactors::new();
    match dequantise(quantised, coarse_quant, &mut factors) {
        Ok(_) => Ok(factors),
        Err(error) => Err(PipelineError::from(error)),
    }
}

/// The plans of two independent channels, or why there are none. Every check is
/// made for both channels before the next one.
pub open spec fn pair_plan(
    bands: (BandView, BandView),
    first: TaskView,
    second: TaskView,
) -> Result<(PlanView, PlanView), PipelineError> {
    if first.samples != second.samples {
        Err(
            PipelineError::PairedFrameLengthMismatch {
                first: first.samples,
                second: second.samples,
            },
        )
    } else {
        match both(task_envelopes(bands.0, first, false), task_envelopes(bands.1, second, false)) {
            Err(error) => Err(error),
            Ok((left, right)) => match both(
                both(task_factors(first, left.1), task_factors(second, right.1)),
                both(
                    frame_layout(first.samples, first.output_len),
                    frame_layout(second.samples, second.output_len),
                ),
            ) {
                Err(error) => Err(error),
                Ok((factors, layouts)) => match both(
                    both(task_tables(bands.0, first), task_tables(bands.1, second)),
                    both(task_factor(first), task_factor(second)),
                ) {
                    Err(error) => Err(error),
                    Ok((tables, ratios)) => match both(
                        interval_range(first.framing.interval, layouts.0.0, ratios.0),
                        interval_range(second.framing.interval, layouts.1.0, ratios.1),
                    ) {
                        Err(error) => Err(error),
                        Ok(ranges) => match both(
                            both(
                                task_adjustment(bands.0, first),
                                task_adjustment(bands.1, second),
                            ),
                            both(
                                task_carryover(first, ranges.0, ratios.0, layouts.0.0),
                                task_carryover(second, ranges.1, ratios.1, layouts.1.0),
                            ),
                        ) {
                            Err(error) => Err(error),
                            Ok(_) => Ok(
                                (
                                    PlanView {
                                        signal: left.0,
                                        quantised: left.1,
                                        factors: factors.0,
                                        timeslots: layouts.0.0,
                                        ts_offset: layouts.0.1,
                                        tables: tables.0,
                                        factor: ratios.0,
                                        aspx: ranges.0,
                                    },
                                    PlanView {
                                        signal: right.0,
                                        quantised: right.1,
                                        factors: factors.1,
                                        timeslots: layouts.1.0,
                                        ts_offset: layouts.1.1,
                                        tables: tables.1,
                                        factor: ratios.1,
                                        aspx: ranges.1,
                                    },
                                ),
                            ),
                        },
                    },
                },
            },
        }
    }
}

/// Plans a frame of two independent channels. Nothing about either channel is
/// decided before everything about both has been checked.
pub fn plan_pair(
    first_bands: &AspxBandTables,
    second_bands: &AspxBandTables,
    first: &ChannelTask<'_>,
    second: &ChannelTask<'_>,
) -> (result: Result<(FramePlan, FramePlan), PipelineError>)
    ensures
        match result {
            Ok((left, right)) => pair_plan(
                (first_bands@, second_bands@),
                first@,
                second@,
            ) matches Ok(expected) && left.is(expected.0) && right.is(expected.1),
            Err(error) => pair_plan((first_bands@, second_bands@), first@, second@) == Err::<
                (PlanView, PlanView),
                PipelineError,
            >(error),
        },
{
    if first.samples != second.samples {
        return Err(
            PipelineError::PairedFrameLengthMismatch {
                first: first.samples,
                second: second.samples,
            },
        );
    }
    let (left_input, right_input) = (first.inputs.envelopes, second.inputs.envelopes);
    let (left_history, left_quantised) = decode_envelope_input(
        first_bands,
        left_input,
        false,
        first.history,
    )?;
    let (right_history, right_quantised) = decode_envelope_input(
        second_bands,
        right_input,
        false,
        second.history,
    )?;
    let left_factors = make_linear(&left_quantised, left_input.framing.qmode_env)?;
    let right_factors = make_linear(&right_quantised, right_input.framing.qmode_env)?;
    let (left_slots, left_offset): (usize, u8) = validate_frame(first.samples, first.output_len)?;
    let (right_slots, right_offset): (usize, u8) = validate_frame(
        second.samples,
        second.output_len,
    )?;
    let left_tables = hf_gen_tables(first_bands, first.inputs.hf_gen)?;
    let right_tables = hf_gen_tables(second_bands, second.inputs.hf_gen)?;
    let left_factor: u8 = frame_timeslot_factor(first.samples)?;
    let right_factor: u8 = frame_timeslot_factor(second.samples)?;
    let left_aspx = high_band_interval(&left_input.framing.interval, left_slots, left_factor)?;
    let right_aspx = high_band_interval(&right_input.framing.interval, right_slots, right_factor)?;
    hf_adjust_limiter(first_bands, first.inputs.hf_adjust, first.limiter_failure)?;
    hf_adjust_limiter(second_bands, second.inputs.hf_adjust, second.limiter_failure)?;
    validate_hf_carryover(left_aspx, first.carried, left_factor, left_slots)?;
    validate_hf_carryover(right_aspx, second.carried, right_factor, right_slots)?;
    Ok(
        (
            FramePlan {
                history: left_history,
                factors: left_factors,
                timeslots: left_slots,
                ts_offset: left_offset,
                tables: left_tables,
                factor: left_factor,
                aspx: left_aspx,
            },
            FramePlan {
                history: right_history,
                factors: right_factors,
                timeslots: right_slots,
                ts_offset: right_offset,
                tables: right_tables,
                factor: right_factor,
                aspx: right_aspx,
            },
        ),
    )
}

/// The linear scale factors of a balanced pair.
pub open spec fn balanced_factors(
    coarse_quant: bool,
    sum: FactorsView,
    balance: FactorsView,
) -> Result<(ScaleView, ScaleView), PipelineError> {
    match dequant::dequantised_pair(sum, balance, coarse_quant) {
        Err(error) => Err(PipelineError::Dequant(error)),
        Ok(factors) => Ok(factors),
    }
}

/// The plans of a balanced pair, or why there are none. The differences of the
/// second channel count double, the scale factors are made linear together,
/// and both channels follow the interval of the first.
pub open spec fn balanced_plan(bands: BandView, first: TaskView, second: TaskView) -> Result<
    (PlanView, PlanView),
    PipelineError,
> {
    if first.framing.interval != second.framing.interval || first.framing.qmode_env
        != second.framing.qmode_env {
        Err(PipelineError::BalancedFramingMismatch)
    } else if first.samples != second.samples {
        Err(
            PipelineError::BalancedFrameLengthMismatch {
                first: first.samples,
                second: second.samples,
            },
        )
    } else {
        match both(task_envelopes(bands, first, false), task_envelopes(bands, second, true)) {
            Err(error) => Err(error),
            Ok((left, right)) => match both(
                balanced_factors(first.framing.qmode_env, left.1, right.1),
                both(
                    frame_layout(first.samples, first.output_len),
                    frame_layout(second.samples, second.output_len),
                ),
            ) {
                Err(error) => Err(error),
                Ok((factors, layouts)) => match task_factor(first) {
                    Err(error) => Err(error),
                    Ok(factor) => match both(
                        interval_range(first.framing.interval, layouts.0.0, factor),
                        both(task_tables(bands, first), task_tables(bands, second)),
                    ) {
                        Err(error) => Err(error),
                        Ok((aspx, tables)) => match both(
                            both(task_adjustment(bands, first), task_adjustment(bands, second)),
                            both(
                                task_carryover(first, aspx, factor, layouts.0.0),
                                task_carryover(second, aspx, factor, layouts.1.0),
                            ),
                        ) {
                            Err(error) => Err(error),
                            Ok(_) => Ok(
                                (
                                    PlanView {
                                        signal: left.0,
                                        quantised: left.1,
                                        factors: factors.0,
                                        timeslots: layouts.0.0,
                                        ts_offset: layouts.0.1,
                                        tables: tables.0,
                                        factor,
                                        aspx,
                                    },
                                    PlanView {
                                        signal: right.0,
                                        quantised: right.1,
                                        factors: factors.1,
                                        timeslots: layouts.1.0,
                                        ts_offset: layouts.1.1,
                                        tables: tables.1,
                                        factor,
                                        aspx,
                                    },
                                ),
                            ),
                        },
                    },
                },
            },
        }
    }
}

/// Makes the scale factors of a balanced pair linear.
fn make_pair_linear(
    sum: &EnvelopeScaleFactors,
    balance: &EnvelopeScaleFactors,
    coarse_quant: bool,
) -> (result: Result<(ScaleFactors, ScaleFactors), PipelineError>)
    ensures
        match result {
            Ok((left, right)) => balanced_factors(coarse_quant, sum@, balance@) == Ok::<
                (ScaleView, ScaleView),
                PipelineError,
            >((left@, right@)),
            Err(error) => balanced_factors(coarse_quant, sum@, balance@) == Err::<
                (ScaleView, ScaleView),
                PipelineError,
            >(error),
        },
{
    let mut left = ScaleFactors::new();
    let mut right = ScaleFactors::new();
    match dequantise_pair(sum, balance, coarse_quant, &mut left, &mut right) {
        Ok(_) => Ok((left, right)),
        Err(error) => Err(PipelineError::from(error)),
    }
}

/// Plans a frame of a balanced pair. Nothing about either channel is decided
/// before everything about both has been checked.
pub fn plan_balanced_pair(
    bands: &AspxBandTables,
    first: &ChannelTask<'_>,
    second: &ChannelTask<'_>,
) -> (result: Result<(FramePlan, FramePlan), PipelineError>)
    ensures
        match result {
            Ok((left, right)) => balanced_plan(bands@, first@, second@) matches Ok(expected)
                && left.is(expected.0) && right.is(expected.1),
            Err(error) => balanced_plan(bands@, first@, second@) == Err::<
                (PlanView, PlanView),
                PipelineError,
            >(error),
        },
{
    let (left_input, right_input) = (first.inputs.envelopes, second.inputs.envelopes);
    let same_interval: bool = left_input.framing.interval.same_as(&right_input.framing.interval);
    if !same_interval || left_input.framing.qmode_env != right_input.framing.qmode_env {
        return Err(PipelineError::BalancedFramingMismatch);
    }
    if first.samples != second.samples {
        return Err(
            PipelineError::BalancedFrameLengthMismatch {
                first: first.samples,
                second: second.samples,
            },
        );
    }
    let (left_history, left_quantised) = decode_envelope_input(
        bands,
        left_input,
        false,
        first.history,
    )?;
    let (right_history, right_quantised) = decode_envelope_input(
        bands,
        right_input,
        true,
        second.history,
    )?;
    let (left_factors, right_factors) = make_pair_linear(
        &left_quantised,
        &right_quantised,
        left_input.framing.qmode_env,
    )?;
    let (left_slots, left_offset): (usize, u8) = validate_frame(first.samples, first.output_len)?;
    let (right_slots, right_offset): (usize, u8) = validate_frame(
        second.samples,
        second.output_len,
    )?;
    let factor: u8 = frame_timeslot_factor(first.samples)?;
    let aspx = high_band_interval(&left_input.framing.interval, left_slots, factor)?;
    let left_tables = hf_gen_tables(bands, first.inputs.hf_gen)?;
    let right_tables = hf_gen_tables(bands, second.inputs.hf_gen)?;
    hf_adjust_limiter(bands, first.inputs.hf_adjust, first.limiter_failure)?;
    hf_adjust_limiter(bands, second.inputs.hf_adjust, second.limiter_failure)?;
    validate_hf_carryover(aspx, first.carried, factor, left_slots)?;
    validate_hf_carryover(aspx, second.carried, factor, right_slots)?;
    Ok(
        (
            FramePlan {
                history: left_history,
                factors: left_factors,
                timeslots: left_slots,
                ts_offset: left_offset,
                tables: left_tables,
                factor,
                aspx,
            },
            FramePlan {
                history: right_history,
                factors: right_factors,
                timeslots: right_slots,
                ts_offset: right_offset,
                tables: right_tables,
                factor,
                aspx,
            },
        ),
    )
}

/// What the signal tools do with a frame whose whole length is generated.
#[derive(Debug)]
pub struct WholeFramePlan {
    /// QMF timeslots of the frame.
    pub timeslots: usize,
    /// Lag of the generator.
    pub ts_offset: u8,
    /// Tables of the generator.
    pub tables: HfGenTables,
    /// Timeslots of the high band: all of the frame.
    pub aspx: HighBandInterval,
}

/// Plans a frame whose whole length is generated, without envelopes.
pub fn plan_whole_frame(
    bands: &AspxBandTables,
    params: HfGenParams<'_>,
    samples: usize,
    output_len: Option<usize>,
) -> (result: Result<WholeFramePlan, PipelineError>)
    ensures
        match (
            result,
            both(
                frame_layout(samples, output_len),
                generation_tables(
                    bands@,
                    params.master_freq_scale,
                    params.base_samp_freq_48,
                    params.chirp_modes@,
                ),
            ),
        ) {
            (Ok(plan), Ok(((timeslots, ts_offset), tables))) => {
                &&& plan.timeslots == timeslots
                &&& plan.ts_offset == ts_offset
                &&& plan.tables@ == tables
                &&& plan.aspx == (HighBandInterval { first: 0, last: timeslots })
            },
            (Err(error), Err(expected)) => error == expected,
            _ => false,
        },
{
    let (timeslots, ts_offset): (usize, u8) = validate_frame(samples, output_len)?;
    let tables = hf_gen_tables(bands, params)?;
    Ok(
        WholeFramePlan {
            timeslots,
            ts_offset,
            tables,
            aspx: HighBandInterval { first: 0, last: timeslots },
        },
    )
}

/// What the generator leaves unwritten: a last patch that was too narrow is
/// dropped, and the subbands from there to the top of the range stay empty.
pub fn uncovered_subbands(bands: &AspxBandTables, tables: &HfGenTables) -> (range: (usize, usize))
    ensures
        range.0 == tables@.patches.borders.last(),
        range.1 == bands@.sbz(),
{
    let patches = tables.patches();
    let end: u8 = match patches.border(patches.count() as usize) {
        Some(border) => border,
        None => bands.sbx(),
    };
    (end as usize, bands.sbz() as usize)
}

/// A pair is planned exactly when both channels are planned on their own and
/// have the same length, and the plans are the same.
pub proof fn lemma_pair_plan_is_two_plans(
    bands: (BandView, BandView),
    first: TaskView,
    second: TaskView,
)
    ensures
        pair_plan(bands, first, second) is Ok <==> (first.samples == second.samples && frame_plan(
            bands.0,
            first,
        ) is Ok && frame_plan(bands.1, second) is Ok),
        pair_plan(bands, first, second) matches Ok((left, right)) ==> frame_plan(bands.0, first)
            == Ok::<PlanView, PipelineError>(left) && frame_plan(bands.1, second) == Ok::<
            PlanView,
            PipelineError,
        >(right),
{
}

/// Whether the buffers of a frame are large enough for a plan.
pub open spec fn plan_fits(plan: PlanView) -> bool {
    &&& plan.timeslots <= MAX_QMF_TIMESLOTS
    &&& plan.timeslots + plan.ts_offset <= MAX_EXTENDED_TIMESLOTS
    &&& plan.ts_offset == 3 * plan.factor
    &&& plan.aspx.first < plan.aspx.last <= plan.timeslots + plan.ts_offset
    &&& plan.aspx.last >= plan.timeslots
}

proof fn lemma_range_is_ordered(interval: IntervalView, timeslots: usize, factor: u8)
    requires
        interval.ordered(),
    ensures
        interval_range(interval, timeslots, factor) matches Ok(aspx) ==> aspx.first < aspx.last
            && aspx.first == interval.sig[0] * factor && aspx.last == interval.sig.last() * factor,
{
    if interval_range(interval, timeslots, factor) is Ok {
        let (first, last) = (interval.sig[0], interval.sig.last());
        assert(interval.sig[0] < interval.sig[interval.sig.len() - 1]);
        assert(0 <= first * factor < last * factor <= 0xffff) by (nonlinear_arith)
            requires
                0 <= first < last <= 0x7fff,
                1 <= factor <= 2,
        ;
    }
}

/// A planned frame fits its buffers: the high band is not empty, it reaches the
/// end of its frame, and it ends inside the low band that has been filtered.
pub proof fn lemma_planned_frames_fit(bands: BandView, task: TaskView)
    requires
        task.framing.interval.ordered(),
    ensures
        frame_plan(bands, task) matches Ok(plan) ==> plan_fits(plan),
{
    if let Ok(plan) = frame_plan(bands, task) {
        lemma_range_is_ordered(task.framing.interval, plan.timeslots, plan.factor);
    }
}

/// Both plans of a balanced pair fit their buffers, and cover the same
/// timeslots.
pub proof fn lemma_balanced_plans_fit(bands: BandView, first: TaskView, second: TaskView)
    requires
        first.framing.interval.ordered(),
    ensures
        balanced_plan(bands, first, second) matches Ok((left, right)) ==> {
            &&& plan_fits(left)
            &&& plan_fits(right)
            &&& left.aspx == right.aspx
            &&& left.timeslots == right.timeslots
            &&& left.factor == right.factor
        },
{
    if let Ok((left, right)) = balanced_plan(bands, first, second) {
        lemma_range_is_ordered(first.framing.interval, left.timeslots, left.factor);
    }
}

/// The generator input that goes with a plan.
pub open spec fn generation_input(
    bands: BandView,
    plan: PlanView,
    flattened: bool,
) -> GenerationInput {
    GenerationInput {
        first: plan.aspx.first,
        last: plan.aspx.last,
        out_slots: (plan.aspx.last - plan.aspx.first) as usize,
        extended_slots: (TS_OFFSET_HFADJ + plan.timeslots + plan.ts_offset) as usize,
        filters: bands.sba(),
        chirps: bands::group_count(bands.noise) as usize,
        gains: if flattened {
            Some(bands.sbx())
        } else {
            None
        },
    }
}

/// A planned frame can be generated, flattened or not.
pub proof fn lemma_planned_frames_can_be_generated(
    bands: BandView,
    task: TaskView,
    plan: PlanView,
    flattened: bool,
)
    requires
        bands.legal(),
        task.framing.interval.ordered(),
        frame_plan(bands, task) == Ok::<PlanView, PipelineError>(plan),
    ensures
        hfgen::generation_plan(
            generation_input(bands, plan, flattened),
            plan.tables.patches,
            plan.tables.borders,
        ) is Ok,
        4 <= bands.sbx() <= 64,
        plan.aspx.last <= plan.timeslots + plan.ts_offset,
{
    lemma_planned_frames_fit(bands, task);
    bands::lemma_bands_are_structured(bands);
    hfgen::lemma_legal_tables_have_a_plan(
        bands,
        task.master_freq_scale,
        task.base_samp_freq_48,
        plan.tables.patches,
        generation_input(bands, plan, flattened),
    );
}

/// What one frame leaves over is exactly what the next one asks for, if the
/// next interval continues where this one ended.
pub proof fn lemma_carryover_chains_frames(
    interval: IntervalView,
    next: IntervalView,
    timeslots: usize,
    factor: u8,
    aspx: HighBandInterval,
    next_aspx: HighBandInterval,
)
    requires
        interval.ordered(),
        next.ordered(),
        next.sig.first() + next.slots == interval.stop_pos(),
        interval_range(interval, timeslots, factor) == Ok::<HighBandInterval, PipelineError>(aspx),
        interval_range(next, timeslots, factor) == Ok::<HighBandInterval, PipelineError>(next_aspx),
    ensures
        aspx.last - timeslots == next_aspx.first,
{
    lemma_range_is_ordered(interval, timeslots, factor);
    lemma_range_is_ordered(next, timeslots, factor);
    let (stop, start, slots) = (interval.stop_pos(), next.sig[0], next.slots);
    assert(stop * factor == start * factor + slots * factor) by (nonlinear_arith)
        requires
            start + slots == stop,
    ;
}

/// A parsed interval is never refused by what it leaves to the next frame or
/// takes from the last one, as long as the last frame left over exactly the
/// timeslots in front of it, and the last interval was a parsed one as well.
pub proof fn lemma_parsed_intervals_are_carried_over(
    bits: Seq<bool>,
    pos: int,
    config: AspxConfig,
    slots: u8,
    b_iframe: bool,
    previous_stop_pos: i16,
    timeslots: usize,
    factor: u8,
)
    requires
        previous_stop_pos <= slots + 3,
    ensures
        syntax::framing_at(bits, pos, config, slots, b_iframe, previous_stop_pos)
            matches Parsed::Done(framing, p) ==> (interval_range(
            framing.interval,
            timeslots,
            factor,
        ) matches Ok(aspx) ==> {
            &&& carryover_error(aspx, aspx.first, factor, timeslots) is None
            &&& framing.interval.stop_pos() <= slots + 3
        }),
{
    syntax::lemma_parsed_intervals_fit(bits, pos, config, slots, b_iframe, previous_stop_pos);
    if let Parsed::Done(framing, p) = syntax::framing_at(
        bits,
        pos,
        config,
        slots,
        b_iframe,
        previous_stop_pos,
    ) {
        let interval = framing.interval;
        lemma_range_is_ordered(interval, timeslots, factor);
        if let Ok(aspx) = interval_range(interval, timeslots, factor) {
            let (first, last) = (interval.sig[0], interval.sig.last());
            assert(first * factor <= 3 * factor) by (nonlinear_arith)
                requires
                    first <= 3,
                    factor > 0,
            ;
            assert(slots * factor <= last * factor <= slots * factor + 3 * factor)
                by (nonlinear_arith)
                requires
                    slots <= last <= slots + 3,
                    factor > 0,
            ;
        }
    }
}

/// Each channel of a balanced pair is decoded from its own differences and its
/// own history, those of the second channel counting double; only the linear
/// scale factors depend on both.
pub proof fn lemma_balanced_channels_keep_their_histories(
    bands: BandView,
    first: TaskView,
    second: TaskView,
)
    ensures
        balanced_plan(bands, first, second) matches Ok((left, right)) ==> {
            &&& task_envelopes(bands, first, false) == Ok::<
                (Seq<DeltasView>, FactorsView),
                PipelineError,
            >((left.signal, left.quantised))
            &&& task_envelopes(bands, second, true) == Ok::<
                (Seq<DeltasView>, FactorsView),
                PipelineError,
            >((right.signal, right.quantised))
            &&& balanced_factors(first.framing.qmode_env, left.quantised, right.quantised) == Ok::<
                (ScaleView, ScaleView),
                PipelineError,
            >((left.factors, right.factors))
        },
{
}

} // verus!
