//! What every plan of a frame keeps, whichever way the frame was planned.
//!
//! The laws here tie each part of a plan to the inputs it comes from: the tables
//! of the generator, the lengths and the place of the high band, the differences
//! that were decoded, and what must hold for a plan to exist at all.
use vstd::prelude::*;
use crate::bands::BandView;
use crate::dequant::{self, DequantError, ScaleView};
use crate::envelope::{self, DeltasView, EnvelopeError, FactorsView};
use crate::frames::IntervalView;
use crate::patches::{self, PatchError, PatchView};
use crate::pipeline::{
    self, AssembleError, ChannelTask, FramePlan, HfAdjustError, HighBandInterval, LimiterError,
    PipelineError, PlanView, TablesView, TaskView, TnaError,
};
use crate::syntax::AspxConfig;
use crate::tables::EnvelopeKind;

verus! {

proof fn lemma_first_bad_mode(modes: Seq<u8>, group: int)
    requires
        0 <= group <= modes.len() <= usize::MAX,
    ensures
        match pipeline::first_bad_mode(modes, group) {
            None => forall|i: int| group <= i < modes.len() ==> #[trigger] modes[i] <= 3,
            Some(TnaError::ModeOutOfRange { group: found, mode }) => {
                &&& group <= found < modes.len()
                &&& mode == modes[found as int]
                &&& mode > 3
                &&& forall|i: int| group <= i < found ==> #[trigger] modes[i] <= 3
            },
        },
    decreases modes.len() - group,
{
    if group < modes.len() && modes[group] <= 3 {
        lemma_first_bad_mode(modes, group + 1);
    }
}

/// The generator tables are the patches of the same tables, template and base
/// sampling rate, and the noise borders. They exist exactly when those patches
/// do, there are one to five noise groups, and each has one chirp mode of at
/// most 3. Whatever is refused is refused for the first reason in that order,
/// a chirp mode for the first one that is too large.
pub proof fn lemma_generator_tables(
    bands: BandView,
    master_freq_scale: bool,
    base_samp_freq_48: bool,
    modes: Seq<u8>,
)
    requires
        modes.len() <= usize::MAX,
        bands.noise.len() <= 256,
    ensures
        ({
            let derived = patches::derived_patches(bands, master_freq_scale, base_samp_freq_48);
            let tables = pipeline::generation_tables(
                bands,
                master_freq_scale,
                base_samp_freq_48,
                modes,
            );
            &&& tables is Ok <==> {
                &&& derived is Ok
                &&& 2 <= bands.noise.len() <= 6
                &&& modes.len() + 1 == bands.noise.len()
                &&& forall|i: int| 0 <= i < modes.len() ==> #[trigger] modes[i] <= 3
            }
            &&& tables matches Ok(found) ==> {
                &&& derived == Ok::<PatchView, PatchError>(found.patches)
                &&& found.borders == bands.noise
            }
            &&& derived matches Err(error) ==> tables == Err::<TablesView, PipelineError>(
                PipelineError::Patch(error),
            )
            &&& derived is Ok && bands.noise.len() > 6 ==> tables == Err::<
                TablesView,
                PipelineError,
            >(PipelineError::TooManyNoiseGroups { groups: (bands.noise.len() - 1) as usize })
            &&& derived is Ok && bands.noise.len() < 2 ==> tables == Err::<
                TablesView,
                PipelineError,
            >(PipelineError::TooManyNoiseGroups { groups: 0 })
            &&& derived is Ok && 2 <= bands.noise.len() <= 6 && modes.len() + 1 != bands.noise.len()
                ==> tables == Err::<TablesView, PipelineError>(
                PipelineError::ChirpModeCountMismatch {
                    expected: (bands.noise.len() - 1) as usize,
                    provided: modes.len() as usize,
                },
            )
            &&& forall|i: int|
                derived is Ok && 2 <= bands.noise.len() <= 6 && modes.len() + 1
                    == bands.noise.len() && 0 <= i < modes.len() && (#[trigger] modes[i]) > 3 && (
                forall|j: int| 0 <= j < i ==> #[trigger] modes[j] <= 3) ==> tables == Err::<
                    TablesView,
                    PipelineError,
                >(
                    PipelineError::Tna(
                        TnaError::ModeOutOfRange { group: i as usize, mode: modes[i] },
                    ),
                )
        }),
{
    lemma_first_bad_mode(modes, 0);
}

/// The signal differences of a channel: each envelope has its own row, its own
/// direction and its own resolution.
pub open spec fn own_signal(task: TaskView) -> Seq<DeltasView> {
    Seq::new(
        task.framing.interval.freq_res.len(),
        |env: int|
            DeltasView {
                data: task.data.sig[env],
                time_direction: task.framing.sig_delta_dir[env],
                high_resolution: task.framing.interval.freq_res[env],
            },
    )
}

/// The noise differences of a channel: each envelope has its own row and its own
/// direction.
pub open spec fn own_noise(task: TaskView) -> Seq<DeltasView> {
    Seq::new(
        (task.framing.interval.noise.len() - 1) as nat,
        |env: int|
            DeltasView {
                data: task.data.noise[env],
                time_direction: task.framing.noise_delta_dir[env],
                high_resolution: false,
            },
    )
}

/// Whether a channel has as many rows and directions as its interval has
/// envelopes.
pub open spec fn rows_suffice(task: TaskView) -> bool {
    &&& task.framing.interval.freq_res.len() <= task.data.sig.len()
    &&& task.framing.interval.freq_res.len() <= task.framing.params.num_env
    &&& task.framing.interval.noise.len() - 1 <= task.data.noise.len()
    &&& task.framing.interval.noise.len() - 1 <= task.framing.params.num_noise
}

proof fn lemma_gathered_rows(kind: EnvelopeKind, task: TaskView, count: int)
    requires
        0 <= count,
        task.framing.sig_delta_dir.len() == 5,
        task.framing.noise_delta_dir.len() == 2,
        kind == EnvelopeKind::Signal ==> count <= 5,
        kind == EnvelopeKind::Noise ==> count <= 2,
    ensures
        pipeline::gathered(kind, task.framing, task.data, count) is Ok <==> (match kind {
            EnvelopeKind::Signal => count <= task.data.sig.len() && count
                <= task.framing.params.num_env,
            EnvelopeKind::Noise => count <= task.data.noise.len() && count
                <= task.framing.params.num_noise,
        } || count == 0),
        pipeline::gathered(kind, task.framing, task.data, count) matches Err(error) ==> error
            is EnvelopeDataMismatch,
        pipeline::gathered(kind, task.framing, task.data, count) matches Ok(rows) ==> {
            &&& rows.len() == count
            &&& forall|env: int|
                0 <= env < count ==> (#[trigger] rows[env]) == (match kind {
                    EnvelopeKind::Signal => DeltasView {
                        data: task.data.sig[env],
                        time_direction: task.framing.sig_delta_dir[env],
                        high_resolution: task.framing.interval.freq_res[env],
                    },
                    EnvelopeKind::Noise => DeltasView {
                        data: task.data.noise[env],
                        time_direction: task.framing.noise_delta_dir[env],
                        high_resolution: false,
                    },
                })
        },
    decreases count,
{
    if count > 0 {
        lemma_gathered_rows(kind, task, count - 1);
    }
}

/// A channel is decoded from its own rows, directions and resolutions, against
/// its own history and the groups of the tables at hand; a channel with fewer
/// rows or directions than envelopes is refused.
#[verifier::rlimit(40)]
pub proof fn lemma_channels_are_decoded_from_their_own_rows(
    bands: BandView,
    task: TaskView,
    delta_is_two: bool,
)
    requires
        task.framing.interval.ordered(),
        task.framing.sig_delta_dir.len() == 5,
        task.framing.noise_delta_dir.len() == 2,
    ensures
        ({
            let decoded = envelope::decoded_factors(
                own_signal(task),
                own_noise(task),
                envelope::index_map(bands),
                delta_is_two,
                task.history,
            );
            match pipeline::task_envelopes(bands, task, delta_is_two) {
                Ok((signal, quantised)) => {
                    &&& rows_suffice(task)
                    &&& signal == own_signal(task)
                    &&& decoded == Ok::<FactorsView, EnvelopeError>(quantised)
                },
                Err(PipelineError::Envelope(error)) => {
                    &&& rows_suffice(task)
                    &&& decoded == Err::<FactorsView, EnvelopeError>(error)
                },
                Err(_) => !rows_suffice(task),
            }
        }),
{
    let interval = task.framing.interval;
    lemma_gathered_rows(EnvelopeKind::Signal, task, interval.num_sig());
    lemma_gathered_rows(EnvelopeKind::Noise, task, interval.num_noise());
    if let Ok(signal) = pipeline::gathered(
        EnvelopeKind::Signal,
        task.framing,
        task.data,
        interval.num_sig(),
    ) {
        assert(signal =~= own_signal(task));
    }
    if let Ok(noise) = pipeline::gathered(
        EnvelopeKind::Noise,
        task.framing,
        task.data,
        interval.num_noise(),
    ) {
        assert(noise =~= own_noise(task));
    }
}

/// Whether a plan is made of the inputs of its channel: the patches of its
/// tables, template and base sampling rate and the noise borders; the length of
/// the frame in timeslots of 64 samples; one or two of these to an A-SPX
/// timeslot, three of which are the lag; the ends of the interval in those
/// timeslots; and the rows and the history of the channel.
pub open spec fn plan_is_of(
    bands: BandView,
    task: TaskView,
    delta_is_two: bool,
    plan: PlanView,
) -> bool {
    let interval = task.framing.interval;
    let factor: int = if task.samples >= 1536 {
        2
    } else {
        1
    };
    &&& patches::derived_patches(bands, task.master_freq_scale, task.base_samp_freq_48) == Ok::<
        PatchView,
        PatchError,
    >(plan.tables.patches)
    &&& plan.tables.borders == bands.noise
    &&& plan.timeslots * 64 == task.samples
    &&& plan.factor == factor
    &&& plan.ts_offset == 3 * factor
    &&& plan.aspx.first == interval.sig[0] * factor
    &&& plan.aspx.last == interval.sig[interval.sig.len() - 1] * factor
    &&& plan.signal == own_signal(task)
    &&& envelope::decoded_factors(
        own_signal(task),
        own_noise(task),
        envelope::index_map(bands),
        delta_is_two,
        task.history,
    ) == Ok::<FactorsView, EnvelopeError>(plan.quantised)
}

/// Whether nothing but its envelopes can keep a channel from being planned: the
/// frame is one of the eight lengths and the output as long; the interval is of
/// a frame of that length; the generator tables exist; there is a sinusoid flag
/// for each high-resolution group, and the limiter has its groups where it is
/// on; and the high band takes exactly the timeslots that the last frame left,
/// at most three A-SPX timeslots of them, and ends with the frame or up to as
/// many behind it.
pub open spec fn can_be_planned(bands: BandView, task: TaskView) -> bool {
    let interval = task.framing.interval;
    let factor: int = if task.samples >= 1536 {
        2
    } else {
        1
    };
    let first = interval.sig[0] * factor;
    let last = interval.sig[interval.sig.len() - 1] * factor;
    &&& task.samples == 2048 || task.samples == 1920 || task.samples == 1536 || task.samples == 1024
        || task.samples == 960 || task.samples == 768 || task.samples == 512 || task.samples == 384
    &&& task.output_len matches Some(provided) ==> provided == task.samples
    &&& 64 * (interval.slots * factor) == task.samples
    &&& patches::derived_patches(bands, task.master_freq_scale, task.base_samp_freq_48) is Ok
    &&& 2 <= bands.noise.len() <= 6
    &&& task.chirp_modes.len() + 1 == bands.noise.len()
    &&& forall|i: int| 0 <= i < task.chirp_modes.len() ==> #[trigger] task.chirp_modes[i] <= 3
    &&& task.flags >= bands.sig_highres.len() - 1
    &&& task.limiter ==> task.limiter_failure is None
    &&& task.carried == first
    &&& first <= 3 * factor
    &&& task.samples <= 64 * last <= task.samples + 64 * (3 * factor)
}

proof fn lemma_interval_in_frame(task: TaskView, timeslots: usize, factor: u8)
    requires
        task.framing.interval.ordered(),
        timeslots * 64 == task.samples,
        factor == (if task.samples >= 1536 {
            2int
        } else {
            1
        }),
        crate::tables::is_frame_length(task.samples as int),
    ensures
        ({
            let interval = task.framing.interval;
            let first = interval.sig[0] * factor;
            let last = interval.sig[interval.sig.len() - 1] * factor;
            &&& 0 <= first < last <= 0xffff
            &&& pipeline::interval_range(interval, timeslots, factor) is Ok <==> 64 * (
            interval.slots * factor) == task.samples
            &&& pipeline::interval_range(interval, timeslots, factor) matches Ok(aspx) ==> {
                &&& aspx.first == first
                &&& aspx.last == last
            }
        }),
{
    let interval = task.framing.interval;
    let (start, stop) = (interval.sig[0], interval.sig[interval.sig.len() - 1]);
    assert(interval.sig[0] < interval.sig[interval.sig.len() - 1]);
    assert(0 <= start * factor < stop * factor <= 0xffff) by (nonlinear_arith)
        requires
            0 <= start < stop <= 0x7fff,
            1 <= factor <= 2,
    ;
    assert(interval.slots * factor == interval.slots || interval.slots * factor == 2
        * interval.slots) by (nonlinear_arith)
        requires
            factor == 1 || factor == 2,
    ;
}

/// A single channel is planned exactly when nothing stands against it and its
/// envelopes can be decoded and made linear, with the quantiser step of its
/// framing. The plan is then made of its own inputs.
#[verifier::rlimit(40)]
pub proof fn lemma_frame_plans(bands: BandView, task: TaskView)
    requires
        task.framing.interval.ordered(),
        task.framing.sig_delta_dir.len() == 5,
        task.framing.noise_delta_dir.len() == 2,
        task.chirp_modes.len() <= usize::MAX,
        0 <= task.flags,
        bands.noise.len() <= 256,
    ensures
        ({
            let decoded = envelope::decoded_factors(
                own_signal(task),
                own_noise(task),
                envelope::index_map(bands),
                false,
                task.history,
            );
            &&& pipeline::frame_plan(bands, task) is Ok <==> {
                &&& can_be_planned(bands, task)
                &&& rows_suffice(task)
                &&& decoded matches Ok(quantised) && dequant::dequantised(
                    quantised,
                    task.framing.qmode_env,
                ) is Ok
            }
            &&& pipeline::frame_plan(bands, task) matches Ok(plan) ==> {
                &&& plan_is_of(bands, task, false, plan)
                &&& dequant::dequantised(plan.quantised, task.framing.qmode_env) == Ok::<
                    ScaleView,
                    DequantError,
                >(plan.factors)
            }
        }),
{
    lemma_channels_are_decoded_from_their_own_rows(bands, task, false);
    lemma_generator_tables(
        bands,
        task.master_freq_scale,
        task.base_samp_freq_48,
        task.chirp_modes,
    );
    if crate::tables::is_frame_length(task.samples as int) {
        let timeslots = (task.samples / 64) as usize;
        if task.samples >= 1536 {
            lemma_interval_in_frame(task, timeslots, 2);
        } else {
            lemma_interval_in_frame(task, timeslots, 1);
        }
    }
}

/// Two independent channels are planned exactly when each of them is and their
/// frames have the same length; either plan is made of the inputs of its own
/// channel and of the tables of that channel.
pub proof fn lemma_pair_plans(bands: (BandView, BandView), first: TaskView, second: TaskView)
    requires
        first.framing.interval.ordered(),
        first.framing.sig_delta_dir.len() == 5,
        first.framing.noise_delta_dir.len() == 2,
        first.chirp_modes.len() <= usize::MAX,
        0 <= first.flags,
        second.framing.interval.ordered(),
        second.framing.sig_delta_dir.len() == 5,
        second.framing.noise_delta_dir.len() == 2,
        second.chirp_modes.len() <= usize::MAX,
        0 <= second.flags,
        bands.0.noise.len() <= 256,
        bands.1.noise.len() <= 256,
    ensures
        pipeline::pair_plan(bands, first, second) is Ok <==> {
            &&& first.samples == second.samples
            &&& pipeline::frame_plan(bands.0, first) is Ok
            &&& pipeline::frame_plan(bands.1, second) is Ok
        },
        pipeline::pair_plan(bands, first, second) matches Ok((left, right)) ==> {
            &&& plan_is_of(bands.0, first, false, left)
            &&& plan_is_of(bands.1, second, false, right)
            &&& dequant::dequantised(left.quantised, first.framing.qmode_env) == Ok::<
                ScaleView,
                DequantError,
            >(left.factors)
            &&& dequant::dequantised(right.quantised, second.framing.qmode_env) == Ok::<
                ScaleView,
                DequantError,
            >(right.factors)
        },
{
    pipeline::lemma_pair_plan_is_two_plans(bands, first, second);
    lemma_frame_plans(bands.0, first);
    lemma_frame_plans(bands.1, second);
}

/// The checks of a channel that its envelopes have no part in, taken together.
#[verifier::rlimit(40)]
proof fn lemma_channel_checks(bands: BandView, task: TaskView)
    requires
        task.framing.interval.ordered(),
        task.chirp_modes.len() <= usize::MAX,
        0 <= task.flags,
        bands.noise.len() <= 256,
    ensures
        ({
            let layout = pipeline::frame_layout(task.samples, task.output_len);
            let factor = pipeline::task_factor(task);
            let range = pipeline::interval_range(
                task.framing.interval,
                layout->Ok_0.0,
                factor->Ok_0,
            );
            can_be_planned(bands, task) <==> {
                &&& layout is Ok
                &&& factor is Ok
                &&& pipeline::task_tables(bands, task) is Ok
                &&& range is Ok
                &&& pipeline::task_adjustment(bands, task) is Ok
                &&& pipeline::task_carryover(
                    task,
                    range->Ok_0,
                    factor->Ok_0,
                    layout->Ok_0.0,
                ) is Ok
            }
        }),
{
    lemma_generator_tables(
        bands,
        task.master_freq_scale,
        task.base_samp_freq_48,
        task.chirp_modes,
    );
    if crate::tables::is_frame_length(task.samples as int) {
        let timeslots = (task.samples / 64) as usize;
        if task.samples >= 1536 {
            lemma_interval_in_frame(task, timeslots, 2);
        } else {
            lemma_interval_in_frame(task, timeslots, 1);
        }
    }
}

#[verifier::rlimit(40)]
proof fn lemma_balanced_plan_is_made_of_its_channels(
    bands: BandView,
    first: TaskView,
    second: TaskView,
    left: PlanView,
    right: PlanView,
)
    requires
        first.framing.interval.ordered(),
        first.framing.sig_delta_dir.len() == 5,
        first.framing.noise_delta_dir.len() == 2,
        first.chirp_modes.len() <= usize::MAX,
        second.framing.sig_delta_dir.len() == 5,
        second.framing.noise_delta_dir.len() == 2,
        second.chirp_modes.len() <= usize::MAX,
        bands.noise.len() <= 256,
        pipeline::balanced_plan(bands, first, second) == Ok::<(PlanView, PlanView), PipelineError>(
            (left, right),
        ),
    ensures
        plan_is_of(bands, first, false, left),
        plan_is_of(bands, second, true, right),
        dequant::dequantised_pair(left.quantised, right.quantised, first.framing.qmode_env) == Ok::<
            (ScaleView, ScaleView),
            DequantError,
        >((left.factors, right.factors)),
{
    lemma_channels_are_decoded_from_their_own_rows(bands, first, false);
    lemma_channels_are_decoded_from_their_own_rows(bands, second, true);
    lemma_generator_tables(
        bands,
        first.master_freq_scale,
        first.base_samp_freq_48,
        first.chirp_modes,
    );
    lemma_generator_tables(
        bands,
        second.master_freq_scale,
        second.base_samp_freq_48,
        second.chirp_modes,
    );
    let timeslots = (first.samples / 64) as usize;
    if first.samples >= 1536 {
        lemma_interval_in_frame(first, timeslots, 2);
    } else {
        lemma_interval_in_frame(first, timeslots, 1);
    }
}

/// A balanced pair is planned exactly when both channels have one interval, one
/// quantiser step and one length, nothing stands against either of them, and
/// their envelopes can be decoded, with double differences in the second, and
/// made linear together. Either plan is made of the inputs of its own channel.
#[verifier::rlimit(40)]
pub proof fn lemma_balanced_plans(bands: BandView, first: TaskView, second: TaskView)
    requires
        first.framing.interval.ordered(),
        first.framing.sig_delta_dir.len() == 5,
        first.framing.noise_delta_dir.len() == 2,
        first.chirp_modes.len() <= usize::MAX,
        0 <= first.flags,
        second.framing.interval.ordered(),
        second.framing.sig_delta_dir.len() == 5,
        second.framing.noise_delta_dir.len() == 2,
        second.chirp_modes.len() <= usize::MAX,
        0 <= second.flags,
        bands.noise.len() <= 256,
    ensures
        ({
            let sum = envelope::decoded_factors(
                own_signal(first),
                own_noise(first),
                envelope::index_map(bands),
                false,
                first.history,
            );
            let balance = envelope::decoded_factors(
                own_signal(second),
                own_noise(second),
                envelope::index_map(bands),
                true,
                second.history,
            );
            &&& pipeline::balanced_plan(bands, first, second) is Ok <==> {
                &&& first.framing.interval == second.framing.interval
                &&& first.framing.qmode_env == second.framing.qmode_env
                &&& first.samples == second.samples
                &&& can_be_planned(bands, first)
                &&& can_be_planned(bands, second)
                &&& rows_suffice(first)
                &&& rows_suffice(second)
                &&& sum is Ok
                &&& balance is Ok
                &&& dequant::dequantised_pair(
                    sum->Ok_0,
                    balance->Ok_0,
                    first.framing.qmode_env,
                ) is Ok
            }
            &&& pipeline::balanced_plan(bands, first, second) matches Ok((left, right)) ==> {
                &&& plan_is_of(bands, first, false, left)
                &&& plan_is_of(bands, second, true, right)
                &&& dequant::dequantised_pair(
                    left.quantised,
                    right.quantised,
                    first.framing.qmode_env,
                ) == Ok::<(ScaleView, ScaleView), DequantError>((left.factors, right.factors))
            }
        }),
{
    lemma_channels_are_decoded_from_their_own_rows(bands, first, false);
    lemma_channels_are_decoded_from_their_own_rows(bands, second, true);
    lemma_channel_checks(bands, first);
    lemma_channel_checks(bands, second);
    if let Ok((left, right)) = pipeline::balanced_plan(bands, first, second) {
        lemma_balanced_plan_is_made_of_its_channels(bands, first, second, left, right);
    }
}

/// The master table changes with a frame exactly when its template, its start
/// frequency or its stop frequency differs from that of the configuration before
/// it; nothing else in a configuration matters.
pub proof fn lemma_what_changes_the_master_table(previous: AspxConfig, current: AspxConfig)
    ensures
        pipeline::decision(
            pipeline::master_key(Some(previous)),
            pipeline::master_key(Some(current)),
        ).reset <==> {
            ||| previous.master_freq_scale != current.master_freq_scale
            ||| previous.start_freq != current.start_freq
            ||| previous.stop_freq != current.stop_freq
        },
        pipeline::decision(None, pipeline::master_key(Some(current))).reset,
        !pipeline::decision(pipeline::master_key(Some(previous)), None).reset,
{
}

/// When the high band is taken over: it takes exactly the timeslots that were
/// left, no more than three A-SPX timeslots, reaches the end of its frame, and
/// leaves no more than three A-SPX timeslots itself. Each error says which of
/// these is the first to fail, in the order end, start, rest and match.
pub proof fn lemma_when_a_high_band_is_taken_over(
    aspx: HighBandInterval,
    carried: usize,
    factor: u8,
    timeslots: usize,
)
    requires
        factor == 1 || factor == 2,
    ensures
        ({
            let limit = factor + factor + factor;
            match pipeline::carryover_error(aspx, carried, factor, timeslots) {
                None => {
                    &&& timeslots <= aspx.last <= timeslots + limit
                    &&& aspx.first == carried
                    &&& carried <= limit
                },
                Some(AssembleError::TimeslotsBeyondInterval { timeslots: frame, stop }) => {
                    &&& aspx.last < timeslots
                    &&& frame == timeslots
                    &&& stop == aspx.last
                },
                Some(AssembleError::CarryoverOutOfRange { carryover }) => {
                    &&& aspx.last >= timeslots
                    &&& carryover > limit
                    &&& if aspx.first > limit {
                        carryover == aspx.first
                    } else {
                        carryover == aspx.last - timeslots
                    }
                },
                Some(AssembleError::CarryoverMismatch { carried: left, required }) => {
                    &&& timeslots <= aspx.last <= timeslots + limit
                    &&& aspx.first <= limit
                    &&& left == carried
                    &&& required == aspx.first
                    &&& left != required
                },
            }
        }),
{
}

/// The adjustment is refused for want of a sinusoid flag for some
/// high-resolution group, and otherwise only for a failed limiter that is on.
pub proof fn lemma_when_an_adjustment_is_refused(
    bands: BandView,
    flags: int,
    limiter: bool,
    limiter_failure: Option<LimiterError>,
)
    requires
        0 <= flags,
    ensures
        pipeline::adjustment_error(bands, flags, limiter, limiter_failure) is None <==> {
            &&& flags >= bands.sig_highres.len() - 1
            &&& limiter ==> limiter_failure is None
        },
        flags < bands.sig_highres.len() - 1 && bands.sig_highres.len() <= 256
            ==> pipeline::adjustment_error(bands, flags, limiter, limiter_failure) == Some(
            PipelineError::HfAdjust(
                HfAdjustError::HarmonicDataTooShort {
                    needed: (bands.sig_highres.len() - 1) as usize,
                    provided: flags as usize,
                },
            ),
        ),
        flags >= bands.sig_highres.len() - 1 && limiter && limiter_failure is Some
            ==> pipeline::adjustment_error(bands, flags, limiter, limiter_failure) == Some(
            PipelineError::Limiter(limiter_failure->0),
        ),
{
}

/// Which frames are accepted: those of the eight lengths with an output of the
/// same length, if any. A timeslot is 64 samples, and the lag is six timeslots
/// in the three long frames and three in the others.
pub proof fn lemma_accepted_frames(samples: usize, output_len: Option<usize>)
    ensures
        pipeline::frame_layout(samples, output_len) is Ok <==> {
            &&& samples == 2048 || samples == 1920 || samples == 1536 || samples == 1024 || samples
                == 960 || samples == 768 || samples == 512 || samples == 384
            &&& output_len matches Some(provided) ==> provided == samples
        },
        pipeline::frame_layout(samples, output_len) matches Ok((timeslots, lag)) ==> {
            &&& 64 * timeslots == samples
            &&& lag == (if samples == 2048 || samples == 1920 || samples == 1536 {
                6int
            } else {
                3
            })
        },
        match pipeline::frame_layout(samples, output_len) {
            Ok(_) => true,
            Err(PipelineError::UnalignedInput { samples: given }) => samples % 64 != 0 && given
                == samples,
            Err(PipelineError::OutputLengthMismatch { expected, provided }) => samples % 64 == 0
                && expected == samples && output_len == Some(provided) && provided != samples,
            Err(PipelineError::FrameTooLong { timeslots, capacity }) => samples % 64 == 0 && samples
                > 2048 && 64 * timeslots == samples && capacity == 32,
            Err(PipelineError::UnsupportedFrameLength { samples: given }) => samples % 64 == 0
                && samples <= 2048 && given == samples,
            Err(_) => false,
        },
{
}

/// A plan that was handed out holds every part of the plan it stands for, and
/// the history to keep once it was carried out.
pub proof fn lemma_plans_hold_what_was_planned(plan: FramePlan, expected: PlanView)
    requires
        plan.is(expected),
        expected.signal.len() > 0,
        expected.quantised.sig.len() > 0,
        expected.quantised.noise.len() > 0,
    ensures
        plan.factors@ == expected.factors,
        plan.timeslots == expected.timeslots,
        plan.ts_offset == expected.ts_offset,
        plan.tables@ == expected.tables,
        plan.factor == expected.factor,
        plan.aspx == expected.aspx,
        plan.history.primed,
        plan.history.sig_freq_res == expected.signal[expected.signal.len() - 1].high_resolution,
        ({
            let row = expected.quantised.sig[expected.quantised.sig.len() - 1];
            forall|i: int|
                0 <= i < 22 && i < row.len() ==> #[trigger] plan.history.sig@[i] == row[i]
        }),
        ({
            let row = expected.quantised.noise[expected.quantised.noise.len() - 1];
            forall|i: int|
                0 <= i < 5 && i < row.len() ==> #[trigger] plan.history.noise@[i] == row[i]
        }),
{
}

/// Where the high band of an interval lies in its frame: from the first to the
/// last signal border, in QMF timeslots of which an A-SPX timeslot has one or
/// two. The interval must be of a frame with as many timeslots; with two to an
/// A-SPX timeslot there are at least twelve of the latter.
pub proof fn lemma_where_a_high_band_lies(interval: IntervalView, timeslots: usize, factor: u8)
    requires
        interval.ordered(),
    ensures
        ({
            let slots = interval.slots as int;
            let whole = if factor == 1 {
                slots
            } else {
                2 * slots
            };
            match pipeline::interval_range(interval, timeslots, factor) {
                Ok(aspx) => {
                    let first = interval.sig[0] as int;
                    let last = interval.sig[interval.sig.len() - 1] as int;
                    &&& factor == 1 || factor == 2
                    &&& factor == 2 ==> slots >= 12
                    &&& timeslots == whole
                    &&& factor == 1 ==> aspx.first == first && aspx.last == last
                    &&& factor == 2 ==> aspx.first == first + first && aspx.last == last + last
                },
                Err(PipelineError::TimeslotFactorOutOfRange { factor: given }) => factor != 1
                    && factor != 2 && given == factor,
                Err(
                    PipelineError::UnsupportedTimeslotLayout { num_aspx_timeslots, factor: given },
                ) => factor == 2 && slots < 12 && num_aspx_timeslots == slots && given == 2,
                Err(PipelineError::IntervalFrameMismatch { expected, frame }) => (factor == 1 || (
                factor == 2 && slots >= 12)) && expected == whole && frame == timeslots && timeslots
                    != whole,
                Err(_) => false,
            }
        }),
{
    let (start, stop) = (interval.sig[0], interval.sig[interval.sig.len() - 1]);
    assert(interval.sig[0] < interval.sig[interval.sig.len() - 1]);
    if factor == 1 {
        assert(start * 1 == start && stop * 1 == stop && interval.slots * 1 == interval.slots);
    } else if factor == 2 {
        assert(start * 2 == start + start && stop * 2 == stop + stop && interval.slots * 2 == 2
            * interval.slots);
    }
}

/// The first check of a channel that fails decides its error: its envelopes,
/// their linear values, the length of the frame, the generator tables, the
/// interval, the adjustment, and what the last frame left over.
pub proof fn lemma_the_first_failed_check_decides(bands: BandView, task: TaskView)
    ensures
        ({
            let plan = pipeline::frame_plan(bands, task);
            let envelopes = pipeline::task_envelopes(bands, task, false);
            let factors = dequant::dequantised((envelopes->Ok_0).1, task.framing.qmode_env);
            let layout = pipeline::frame_layout(task.samples, task.output_len);
            let tables = pipeline::generation_tables(
                bands,
                task.master_freq_scale,
                task.base_samp_freq_48,
                task.chirp_modes,
            );
            let factor: u8 = if task.samples >= 1536 {
                2
            } else {
                1
            };
            let range = pipeline::interval_range(
                task.framing.interval,
                layout->Ok_0.0,
                factor,
            );
            let adjustment = pipeline::adjustment_error(
                bands,
                task.flags,
                task.limiter,
                task.limiter_failure,
            );
            let carryover = pipeline::carryover_error(
                range->Ok_0,
                task.carried,
                factor,
                layout->Ok_0.0,
            );
            plan == (if let Err(error) = envelopes {
                Err::<PlanView, PipelineError>(error)
            } else if let Err(error) = factors {
                Err(PipelineError::Dequant(error))
            } else if let Err(error) = layout {
                Err(error)
            } else if let Err(error) = tables {
                Err(error)
            } else if let Err(error) = range {
                Err(error)
            } else if let Some(error) = adjustment {
                Err(error)
            } else if let Some(error) = carryover {
                Err(PipelineError::Assemble(error))
            } else {
                Ok(
                    PlanView {
                        signal: (envelopes->Ok_0).0,
                        quantised: (envelopes->Ok_0).1,
                        factors: factors->Ok_0,
                        timeslots: layout->Ok_0.0,
                        ts_offset: layout->Ok_0.1,
                        tables: tables->Ok_0,
                        factor,
                        aspx: range->Ok_0,
                    },
                )
            })
        }),
{
}

/// In a pair every check is made for both channels before the next one is made
/// for either: where a later check of the first channel and an earlier one of the
/// second fail, the error is that of the second. Where the same check fails for
/// both, it is that of the first.
pub proof fn lemma_pairs_are_checked_side_by_side(
    bands: (BandView, BandView),
    first: TaskView,
    second: TaskView,
)
    ensures
        ({
            let plan = pipeline::pair_plan(bands, first, second);
            let left = pipeline::task_envelopes(bands.0, first, false);
            let right = pipeline::task_envelopes(bands.1, second, false);
            let left_linear = dequant::dequantised((left->Ok_0).1, first.framing.qmode_env);
            let right_linear = dequant::dequantised((right->Ok_0).1, second.framing.qmode_env);
            &&& first.samples != second.samples ==> plan == Err::<
                (PlanView, PlanView),
                PipelineError,
            >(
                PipelineError::PairedFrameLengthMismatch {
                    first: first.samples,
                    second: second.samples,
                },
            )
            &&& first.samples == second.samples ==> (left matches Err(error) ==> plan == Err::<
                (PlanView, PlanView),
                PipelineError,
            >(error))
            &&& first.samples == second.samples && left is Ok ==> (right matches Err(error) ==> plan
                == Err::<(PlanView, PlanView), PipelineError>(error))
            &&& first.samples == second.samples && left is Ok && right is Ok ==> (
            left_linear matches Err(error) ==> plan == Err::<(PlanView, PlanView), PipelineError>(
                PipelineError::Dequant(error),
            ))
            &&& first.samples == second.samples && left is Ok && right is Ok && left_linear is Ok
                ==> (right_linear matches Err(error) ==> plan == Err::<
                (PlanView, PlanView),
                PipelineError,
            >(PipelineError::Dequant(error)))
        }),
{
}

/// A balanced pair is refused before anything else when its channels have
/// different intervals or quantiser steps, and next when their frames differ in
/// length.
pub proof fn lemma_balanced_channels_must_agree(bands: BandView, first: TaskView, second: TaskView)
    ensures
        first.framing.interval != second.framing.interval || first.framing.qmode_env
            != second.framing.qmode_env ==> pipeline::balanced_plan(bands, first, second) == Err::<
            (PlanView, PlanView),
            PipelineError,
        >(PipelineError::BalancedFramingMismatch),
        first.framing.interval == second.framing.interval && first.framing.qmode_env
            == second.framing.qmode_env && first.samples != second.samples
            ==> pipeline::balanced_plan(bands, first, second) == Err::<
            (PlanView, PlanView),
            PipelineError,
        >(
            PipelineError::BalancedFrameLengthMismatch {
                first: first.samples,
                second: second.samples,
            },
        ),
{
}

/// The envelope that is missing is the first one without a row or a direction.
pub proof fn lemma_which_envelope_is_missing(kind: EnvelopeKind, task: TaskView, count: int)
    requires
        0 <= count <= 5,
        kind == EnvelopeKind::Noise ==> count <= 2,
        task.framing.sig_delta_dir.len() == 5,
        task.framing.noise_delta_dir.len() == 2,
    ensures
        ({
            let rows = match kind {
                EnvelopeKind::Signal => task.data.sig.len(),
                EnvelopeKind::Noise => task.data.noise.len(),
            };
            let directions = match kind {
                EnvelopeKind::Signal => task.framing.params.num_env as nat,
                EnvelopeKind::Noise => task.framing.params.num_noise as nat,
            };
            let present = if rows < directions {
                rows
            } else {
                directions
            };
            pipeline::gathered(kind, task.framing, task.data, count) matches Err(error) ==> error
                == PipelineError::EnvelopeDataMismatch { kind, envelope: present as usize }
        }),
    decreases count,
{
    if count > 0 {
        lemma_which_envelope_is_missing(kind, task, count - 1);
        lemma_gathered_rows(kind, task, count - 1);
    }
}

/// A task is planned from the inputs it was given, each from its own.
pub proof fn lemma_tasks_keep_their_inputs(task: ChannelTask<'_>)
    ensures
        task@.master_freq_scale == task.inputs.hf_gen.master_freq_scale,
        task@.base_samp_freq_48 == task.inputs.hf_gen.base_samp_freq_48,
        task@.chirp_modes == task.inputs.hf_gen.chirp_modes@,
        task@.flags == task.inputs.hf_adjust.add_harmonic@.len(),
        task@.limiter == task.inputs.hf_adjust.limiter,
        task@.framing == task.inputs.envelopes.framing@,
        task@.data == task.inputs.envelopes.data@,
        task@.history == task.history,
        task@.samples == task.samples,
        task@.output_len == task.output_len,
        task@.limiter_failure == task.limiter_failure,
        task@.carried == task.carried,
{
}

/// The generator reads the timeslots of a frame and the lag behind them; every
/// accepted frame leaves room for both.
pub proof fn lemma_what_the_generator_reads(samples: usize, output_len: Option<usize>)
    ensures
        pipeline::frame_layout(samples, output_len) matches Ok((timeslots, lag)) ==> (
        pipeline::read_timeslots(timeslots, lag) matches Ok(count) && count == timeslots + lag),
{
}

/// More than 32 timeslots, or more than 38 with the lag, are never read.
pub proof fn lemma_what_is_too_long_to_read(timeslots: usize, lag: u8)
    ensures
        match pipeline::read_timeslots(timeslots, lag) {
            Ok(count) => timeslots <= 32 && count == timeslots + lag && count <= 38,
            Err(error) => (timeslots > 32 || timeslots + lag > 38) && error
                == (PipelineError::FrameTooLong { timeslots, capacity: 32 }),
        },
{
}

} // verus!
