use aspx::bands::AspxBandTables;
use aspx::dequant::ScaleFactors;
use aspx::element::AspxData;
use aspx::envelope::{EnvelopeError, EnvelopeHistory};
use aspx::frames::{AspxInterval, AspxIntervalParams};
use aspx::hfgen::{plan_generation, GenerationInput, TS_OFFSET_HFADJ};
use aspx::patches::{PatchError, PatchTable};
use aspx::payload::AspxEnvelopes;
use aspx::pipeline::{
    extended_timeslots, frame_timeslot_factor, hf_gen_tables, high_band_interval,
    plan_balanced_pair, plan_frame, plan_pair, plan_whole_frame, uncovered_subbands,
    validate_chirp_modes, validate_frame, validate_hf_carryover, AssembleError, ChannelInputs,
    ChannelTask, EnvelopeInput, FramePlan, HfAdjustError, HfAdjustParams, HfGenParams,
    HighBandInterval, LimiterError, MasterResetTracker, PipelineError, TnaError,
    MAX_QMF_TIMESLOTS,
};
use aspx::qmf::SUBBANDS;
use aspx::syntax::{AspxChannelFraming, AspxConfig, AspxHfGen};
use aspx::tables::{ts_offset_hfgen, EnvelopeKind, IntervalClass};

const SLOTS: usize = 16;
const FRAME: usize = SLOTS * SUBBANDS;

/// Samples, QMF timeslots, timeslot factor and A-SPX timeslots of a frame of either factor.
const FACTOR_TIERS: [(usize, usize, u8, u8); 2] =
    [(FRAME, SLOTS, 1, SLOTS as u8), (24 * SUBBANDS, 24, 2, 12)];

static HARMONICS: [bool; 32] = [true; 32];

fn hf_bands() -> AspxBandTables {
    let bands = AspxBandTables::derive(false, 0, 0, 0, 1).expect("the tables exist");
    assert_ne!(bands.sba(), bands.sbx(), "the master table starts below the crossover");
    let patches = PatchTable::derive(&bands, false, true).expect("the patches exist");
    assert!(
        (0..usize::from(patches.count())).any(|index| {
            patches
                .start_sb(index)
                .zip(patches.num_sb(index))
                .is_some_and(|(start, count)| start.saturating_add(count) == bands.sba())
        }),
        "some patch reads the subband below the master table"
    );
    bands
}

fn chirp_modes(bands: &AspxBandTables) -> Vec<u8> {
    vec![2u8; usize::from(bands.num_sbg_noise())]
}

fn hf_params(modes: &[u8]) -> HfGenParams<'_> {
    HfGenParams {
        master_freq_scale: false,
        base_samp_freq_48: true,
        chirp_modes: modes,
        pre_flattening: false,
    }
}

fn adjust_params(bands: &AspxBandTables) -> HfAdjustParams<'static> {
    HfAdjustParams {
        add_harmonic: &HARMONICS[..usize::from(bands.num_sbg_sig_highres())],
        interpolation: true,
        limiter: true,
        master_reset: false,
        first_frame: false,
    }
}

/// An interval of two envelopes, the first of high and the second of low resolution.
fn split_interval(slots: u8) -> (AspxIntervalParams, AspxInterval) {
    split_interval_at(slots, slots / 2)
}

fn split_interval_at(slots: u8, step: u8) -> (AspxIntervalParams, AspxInterval) {
    let mut params = AspxIntervalParams::fixfix(2);
    params.int_class = IntervalClass::FixVar;
    params.num_rel_right = 1;
    params.rel_bord_right[0] = step;
    params.var_bord_right = Some(0);
    params.freq_res = [true, false, false, false, false];
    let interval =
        AspxInterval::derive(&params, slots, 0, true, i16::from(slots)).expect("the interval");
    assert_eq!(interval.num_atsg_sig(), 2, "two signal envelopes");
    assert_eq!(
        (interval.freq_res(0), interval.freq_res(1)),
        (Some(true), Some(false)),
        "the resolutions differ"
    );
    (params, interval)
}

/// An interval that starts and ends `edge` timeslots late.
fn steady_state_interval(slots: u8, edge: u8) -> (AspxIntervalParams, AspxInterval) {
    let mut params = AspxIntervalParams::fixfix(2);
    params.int_class = IntervalClass::VarVar;
    params.var_bord_left = Some(edge);
    params.var_bord_right = Some(edge);
    params.num_rel_right = 1;
    params.rel_bord_right[0] = slots / 2;
    params.freq_res = [true, false, false, false, false];
    let interval =
        AspxInterval::derive(&params, slots, 0, true, i16::from(slots)).expect("the interval");
    (params, interval)
}

fn envelope_data(bands: &AspxBandTables, seed: i16) -> AspxEnvelopes {
    let ramp = |count: u8, offset: i16| -> Vec<i16> {
        (0..i16::from(count))
            .map(|index| index.wrapping_add(offset).rem_euclid(5).wrapping_sub(2))
            .collect()
    };
    let high = ramp(bands.num_sbg_sig_highres(), seed);
    let low = ramp(bands.num_sbg_sig_lowres(), seed.wrapping_add(2));
    let noise_a = ramp(bands.num_sbg_noise(), seed.wrapping_add(1));
    let noise_b = ramp(bands.num_sbg_noise(), seed.wrapping_add(3));
    AspxEnvelopes::from_parts(&[&high, &low], &[&noise_a, &noise_b])
}

fn framing(
    params: AspxIntervalParams,
    interval: AspxInterval,
    coarse: bool,
    time_first: bool,
) -> AspxChannelFraming {
    framing_dirs(params, interval, coarse, [time_first, false])
}

fn framing_dirs(
    params: AspxIntervalParams,
    interval: AspxInterval,
    coarse: bool,
    sig_dirs: [bool; 2],
) -> AspxChannelFraming {
    AspxChannelFraming::from_parts(params, interval, coarse, &sig_dirs, &[false, false])
}

/// A row whose factors all have the same value when it runs along frequency.
fn frequency_deltas(count: u8, first: i16) -> Vec<i16> {
    let mut row = vec![0i16; usize::from(count)];
    if let Some(slot) = row.first_mut() {
        *slot = first;
    }
    row
}

fn task<'a>(
    bands: &AspxBandTables,
    modes: &'a [u8],
    framing: &'a AspxChannelFraming,
    data: &'a AspxEnvelopes,
) -> ChannelTask<'a> {
    ChannelTask {
        inputs: ChannelInputs {
            hf_gen: hf_params(modes),
            hf_adjust: adjust_params(bands),
            envelopes: EnvelopeInput { framing, data },
        },
        history: EnvelopeHistory::new(),
        samples: FRAME,
        output_len: Some(FRAME),
        limiter_failure: None,
        carried: 0,
    }
}

/// The linear signal factors, envelope by envelope.
fn sig_rows(factors: &ScaleFactors) -> Vec<Vec<f32>> {
    let (envelopes, _) = factors.counts();
    (0..usize::from(envelopes))
        .map(|env| {
            (0..)
                .map_while(|group| factors.sig(env, group).map(f32::from_bits))
                .collect::<Vec<f32>>()
        })
        .collect()
}

fn error_of(result: Result<FramePlan, PipelineError>) -> Option<PipelineError> {
    result.err()
}

#[test]
fn every_table_189_frame_length_is_accepted() {
    for samples in [2048usize, 1920, 1536, 1024, 960, 768, 512, 384] {
        let (timeslots, offset) = validate_frame(samples, Some(samples))
            .unwrap_or_else(|error| panic!("legal length {samples} is refused: {error:?}"));
        assert_eq!(timeslots * SUBBANDS, samples);
        assert_eq!(ts_offset_hfgen(samples as u16), Some(offset));
        let factor = frame_timeslot_factor(samples).expect("a legal length");
        assert_eq!(offset, 3 * factor);
        assert_eq!(extended_timeslots(timeslots, offset), Ok(timeslots + usize::from(offset)));
    }
}

#[test]
fn hf_parameters_are_checked_before_any_state_moves() {
    let bands = hf_bands();
    let groups = usize::from(bands.num_sbg_noise());
    let short = vec![0u8; groups.saturating_sub(1)];
    let mut invalid = chirp_modes(&bands);
    invalid[0] = 4;
    let cases = [
        (
            "count",
            short.as_slice(),
            PipelineError::ChirpModeCountMismatch {
                expected: groups,
                provided: groups.saturating_sub(1),
            },
        ),
        (
            "value",
            invalid.as_slice(),
            PipelineError::Tna(TnaError::ModeOutOfRange { group: 0, mode: 4 }),
        ),
    ];
    let (params, interval) = split_interval(SLOTS as u8);
    let frame = framing(params, interval, false, false);
    let data = envelope_data(&bands, 0);

    for (label, modes, expected) in cases {
        assert_eq!(
            plan_whole_frame(&bands, hf_params(modes), FRAME, Some(FRAME)).err(),
            Some(expected),
            "{label}"
        );
        let single = task(&bands, modes, &frame, &data);
        assert_eq!(error_of(plan_frame(&bands, &single)), Some(expected), "{label}");
        assert_eq!(
            plan_balanced_pair(&bands, &single, &single).err(),
            Some(expected),
            "{label}"
        );
    }
}

#[test]
fn rejected_input_is_reported_before_any_work() {
    assert_eq!(
        validate_frame(63, Some(FRAME)),
        Err(PipelineError::UnalignedInput { samples: 63 })
    );
    assert_eq!(
        validate_frame(FRAME, Some(64)),
        Err(PipelineError::OutputLengthMismatch { expected: FRAME, provided: 64 })
    );
    let too_long = (MAX_QMF_TIMESLOTS + 1) * SUBBANDS;
    assert_eq!(
        validate_frame(too_long, Some(too_long)),
        Err(PipelineError::FrameTooLong {
            timeslots: MAX_QMF_TIMESLOTS + 1,
            capacity: MAX_QMF_TIMESLOTS
        })
    );
    // Seven timeslots are aligned and short enough, and still no frame has them.
    assert_eq!(
        validate_frame(7 * SUBBANDS, Some(7 * SUBBANDS)),
        Err(PipelineError::UnsupportedFrameLength { samples: 7 * SUBBANDS })
    );
}

#[test]
fn each_envelope_takes_its_resolution_from_the_interval() {
    let bands = hf_bands();
    let modes = chirp_modes(&bands);
    let high = usize::from(bands.num_sbg_sig_highres());
    let low = usize::from(bands.num_sbg_sig_lowres());
    assert_ne!(high, low, "the resolutions differ");

    let (params, interval) = split_interval(SLOTS as u8);
    let frame = framing(params, interval, false, false);
    let data = envelope_data(&bands, 0);
    let plan = plan_frame(&bands, &task(&bands, &modes, &frame, &data)).expect("a plan");

    let rows = sig_rows(&plan.factors);
    assert_eq!(rows.len(), 2, "two signal envelopes");
    assert_eq!(rows[0].len(), high, "the first envelope is high");
    assert_eq!(rows[1].len(), low, "the second envelope is low");
}

#[test]
fn the_envelope_history_carries_a_value_not_just_a_flag() {
    let bands = hf_bands();
    let modes = chirp_modes(&bands);
    let (params, interval) = split_interval(SLOTS as u8);
    let first_frame = framing(params, interval, false, false);
    let second_frame = framing(params, interval, false, true);
    let second_data = envelope_data(&bands, 0);

    let second_factors = |seed: i16| {
        let first_data = envelope_data(&bands, seed);
        let first =
            plan_frame(&bands, &task(&bands, &modes, &first_frame, &first_data)).expect("a plan");
        let mut next = task(&bands, &modes, &second_frame, &second_data);
        next.history = first.history;
        let second = plan_frame(&bands, &next).expect("a plan");
        sig_rows(&second.factors)
    };

    assert_ne!(second_factors(0), second_factors(1), "the last envelope is added to");
}

#[test]
fn the_first_envelope_may_not_reference_a_history_that_does_not_exist() {
    let bands = hf_bands();
    let modes = chirp_modes(&bands);
    let (params, interval) = split_interval(SLOTS as u8);
    let frame = framing(params, interval, false, true);
    let data = envelope_data(&bands, 0);
    assert_eq!(
        error_of(plan_frame(&bands, &task(&bands, &modes, &frame, &data))),
        Some(PipelineError::Envelope(EnvelopeError::MissingHistory { envelope: 0 }))
    );
}

#[test]
fn qmode_env_reaches_the_dequantiser() {
    let bands = hf_bands();
    let modes = chirp_modes(&bands);
    let (params, interval) = split_interval(SLOTS as u8);
    let data = envelope_data(&bands, 0);

    let run = |coarse: bool| {
        let frame = framing(params, interval, coarse, false);
        let plan = plan_frame(&bands, &task(&bands, &modes, &frame, &data)).expect("a plan");
        sig_rows(&plan.factors)
    };
    let fine = run(false);
    let coarse = run(true);

    assert!(
        fine.iter().flatten().any(|value| *value != 64.0),
        "some quantised factor is not zero"
    );
    assert_ne!(fine, coarse, "the step matters");
    for (fine_row, coarse_row) in fine.iter().zip(coarse.iter()) {
        for (fine_value, coarse_value) in fine_row.iter().zip(coarse_row.iter()) {
            let expected = fine_value * fine_value / 64.0;
            assert!(
                (expected - coarse_value).abs() <= coarse_value.abs() * 1e-5,
                "{fine_value} squared over 64 is {expected}, not {coarse_value}"
            );
        }
    }
}

#[test]
fn the_interval_and_the_parsed_data_must_agree_on_the_envelope_count() {
    let bands = hf_bands();
    let modes = chirp_modes(&bands);
    let (params, interval) = split_interval(SLOTS as u8);
    let full = envelope_data(&bands, 0);

    let high: Vec<i16> = (0..i16::from(bands.num_sbg_sig_highres())).collect();
    let noise: Vec<i16> = (0..i16::from(bands.num_sbg_noise())).collect();
    let one_signal = AspxEnvelopes::from_parts(&[&high], &[&noise, &noise]);
    let one_noise = AspxEnvelopes::from_parts(&[&high, &high], &[&noise]);

    let mut short_params = params;
    short_params.num_env = 1;
    let short_dirs = AspxChannelFraming::from_parts(
        short_params,
        interval,
        false,
        &[false, false],
        &[false, false],
    );

    let cases: [(&str, &AspxChannelFraming, &AspxEnvelopes, PipelineError); 3] = [
        (
            "one signal row",
            &framing(params, interval, false, false),
            &one_signal,
            PipelineError::EnvelopeDataMismatch { kind: EnvelopeKind::Signal, envelope: 1 },
        ),
        (
            "one noise row",
            &framing(params, interval, false, false),
            &one_noise,
            PipelineError::EnvelopeDataMismatch { kind: EnvelopeKind::Noise, envelope: 1 },
        ),
        (
            "one direction",
            &short_dirs,
            &full,
            PipelineError::EnvelopeDataMismatch { kind: EnvelopeKind::Signal, envelope: 1 },
        ),
    ];
    for (label, frame, data, expected) in cases {
        assert_eq!(
            error_of(plan_frame(&bands, &task(&bands, &modes, frame, data))),
            Some(expected),
            "{label}"
        );
    }
}

#[test]
fn balanced_stereo_decodes_the_pair_jointly() {
    let bands = hf_bands();
    let modes = chirp_modes(&bands);
    let (params, interval) = split_interval(SLOTS as u8);
    let frame = framing(params, interval, false, false);
    let sum_high = frequency_deltas(bands.num_sbg_sig_highres(), 2);
    let sum_low = frequency_deltas(bands.num_sbg_sig_lowres(), 2);
    let sum_noise = frequency_deltas(bands.num_sbg_noise(), 0);
    let balance_high = frequency_deltas(bands.num_sbg_sig_highres(), 13);
    let balance_low = frequency_deltas(bands.num_sbg_sig_lowres(), 13);
    let balance_noise = frequency_deltas(bands.num_sbg_noise(), 6);
    let sum = AspxEnvelopes::from_parts(&[&sum_high, &sum_low], &[&sum_noise, &sum_noise]);
    let balance = AspxEnvelopes::from_parts(
        &[&balance_high, &balance_low],
        &[&balance_noise, &balance_noise],
    );

    let (first, second) = plan_balanced_pair(
        &bands,
        &task(&bands, &modes, &frame, &sum),
        &task(&bands, &modes, &frame, &balance),
    )
    .expect("two plans");
    let (first_factors, second_factors) = (&first.factors, &second.factors);

    let (signal_envelopes, noise_envelopes) = first_factors.counts();
    assert_eq!(second_factors.counts(), (signal_envelopes, noise_envelopes));
    for envelope in 0..usize::from(signal_envelopes) {
        for group in 0.. {
            let (Some(first), Some(second)) = (
                first_factors.sig(envelope, group).map(f32::from_bits),
                second_factors.sig(envelope, group).map(f32::from_bits),
            ) else {
                break;
            };
            assert!((first + second - 256.0).abs() < 1e-4, "the total is 256");
            assert!((first - 2.0 * second).abs() < 1e-4, "the shares are two to one");
        }
    }
    for factors in [&first_factors, &second_factors] {
        for envelope in 0..usize::from(noise_envelopes) {
            for group in 0..usize::from(bands.num_sbg_noise()) {
                assert_eq!(
                    factors.noise(envelope, group).map(f32::from_bits),
                    Some(64.0),
                    "the noise is shared evenly"
                );
            }
        }
    }
}

#[test]
fn a_short_envelope_row_is_rejected_rather_than_padded() {
    let bands = hf_bands();
    let modes = chirp_modes(&bands);
    let high = usize::from(bands.num_sbg_sig_highres());
    let low = usize::from(bands.num_sbg_sig_lowres());
    let short: Vec<i16> = (0..i16::try_from(high).expect("a small count").wrapping_sub(1)).collect();
    let full: Vec<i16> = (0..i16::try_from(low).expect("a small count")).collect();
    let noise: Vec<i16> = (0..i16::from(bands.num_sbg_noise())).collect();
    let data = AspxEnvelopes::from_parts(&[&short, &full], &[&noise, &noise]);

    let (params, interval) = split_interval(SLOTS as u8);
    let frame = framing(params, interval, false, false);
    assert_eq!(
        error_of(plan_frame(&bands, &task(&bands, &modes, &frame, &data))),
        Some(PipelineError::Envelope(EnvelopeError::OutputTooSmall {
            needed: high,
            provided: short.len(),
        })),
        "a short row is not padded"
    );
}

#[test]
fn balanced_channels_must_share_one_interval_and_quantiser() {
    let bands = hf_bands();
    let modes = chirp_modes(&bands);
    let (params, interval) = split_interval(SLOTS as u8);
    let (other_params, other_interval) = split_interval_at(SLOTS as u8, SLOTS as u8 / 4);
    assert_ne!(interval, other_interval, "the intervals differ");
    assert_eq!(
        (interval.num_atsg_sig(), interval.freq_res(0), interval.freq_res(1)),
        (
            other_interval.num_atsg_sig(),
            other_interval.freq_res(0),
            other_interval.freq_res(1)
        ),
        "only the borders differ"
    );

    let base = framing(params, interval, false, false);
    let other_borders = framing(other_params, other_interval, false, false);
    let other_qmode = framing(params, interval, true, false);
    let data = envelope_data(&bands, 0);

    for (label, second) in [("borders", &other_borders), ("quantiser", &other_qmode)] {
        assert_eq!(
            plan_balanced_pair(
                &bands,
                &task(&bands, &modes, &base, &data),
                &task(&bands, &modes, second, &data),
            )
            .err(),
            Some(PipelineError::BalancedFramingMismatch),
            "{label}"
        );
    }
}

#[test]
fn balanced_channels_must_have_the_same_frame_length() {
    let bands = hf_bands();
    let modes = chirp_modes(&bands);
    let (params, interval) = split_interval(SLOTS as u8);
    let frame = framing(params, interval, false, false);
    let data = envelope_data(&bands, 0);

    let first = task(&bands, &modes, &frame, &data);
    let mut second = first;
    second.samples = FRAME + SUBBANDS * 8;
    second.output_len = Some(second.samples);
    assert_eq!(
        plan_balanced_pair(&bands, &first, &second).err(),
        Some(PipelineError::BalancedFrameLengthMismatch {
            first: FRAME,
            second: FRAME + SUBBANDS * 8,
        })
    );
}

#[test]
fn neither_workspace_is_prepared_until_both_channels_validate() {
    let bands = hf_bands();
    let modes = chirp_modes(&bands);
    let (params, interval) = split_interval(SLOTS as u8);
    let frame = framing(params, interval, false, false);
    let data = envelope_data(&bands, 0);

    let first = task(&bands, &modes, &frame, &data);
    let mut second = first;
    second.output_len = Some(FRAME - SUBBANDS);
    assert_eq!(
        plan_balanced_pair(&bands, &first, &second).err(),
        Some(PipelineError::OutputLengthMismatch {
            expected: FRAME,
            provided: FRAME - SUBBANDS,
        })
    );
}

#[test]
fn each_balanced_channel_reads_its_own_envelope_history() {
    let bands = hf_bands();
    let modes = chirp_modes(&bands);
    let (params, interval) = split_interval(SLOTS as u8);
    let frequency = framing(params, interval, false, false);
    let time_first = framing(params, interval, false, true);
    let balance_data = envelope_data(&bands, 3);
    let sum_second = envelope_data(&bands, 7);

    let run = |sum_seed: i16| {
        let sum_first = envelope_data(&bands, sum_seed);
        let (first, second) = plan_balanced_pair(
            &bands,
            &task(&bands, &modes, &frequency, &sum_first),
            &task(&bands, &modes, &frequency, &balance_data),
        )
        .expect("two plans");
        let history = [first.history, second.history];
        let mut sum = task(&bands, &modes, &frequency, &sum_second);
        sum.history = history[0];
        let mut balance = task(&bands, &modes, &time_first, &balance_data);
        balance.history = history[1];
        let (_, second) = plan_balanced_pair(&bands, &sum, &balance).expect("two plans");
        (history, sig_rows(&second.factors))
    };

    let (base_history, base_rows) = run(0);
    let (other_history, other_rows) = run(1);
    assert_ne!(base_history[0], other_history[0], "the sum channel has another history");
    assert_eq!(base_history[1], other_history[1], "the balance channel has the same history");
    assert_eq!(base_rows, other_rows, "the balance channel reads its own history");
}

#[test]
fn a_failure_after_the_envelope_decode_does_not_commit_the_history() {
    let bands = hf_bands();
    let modes = chirp_modes(&bands);
    let mut extra_modes = modes.clone();
    extra_modes.push(2);
    let (params, interval) = split_interval(SLOTS as u8);
    let first = framing(params, interval, false, false);
    let second = framing_dirs(params, interval, false, [true, true]);
    let data = envelope_data(&bands, 0);

    let second_frame = |second_modes: &[u8]| {
        let plan = plan_frame(&bands, &task(&bands, &modes, &first, &data)).expect("a plan");
        let after_first = plan.history;
        let mut next = task(&bands, second_modes, &second, &data);
        next.history = after_first;
        match plan_frame(&bands, &next) {
            Ok(plan) => (after_first, plan.history, None),
            Err(error) => (after_first, next.history, Some(error)),
        }
    };

    let (after_first, committed, ok) = second_frame(&modes);
    assert_eq!(ok, None, "the second frame has a plan");
    assert_ne!(after_first, committed, "a plan changes the history");

    let (baseline, unchanged, failed) = second_frame(&extra_modes);
    assert_eq!(
        failed,
        Some(PipelineError::ChirpModeCountMismatch {
            expected: modes.len(),
            provided: extra_modes.len(),
        })
    );
    assert_eq!(baseline, after_first, "the first frames agree");
    assert_eq!(unchanged, after_first, "a failure leaves the history");
}

#[test]
fn an_interval_from_another_frame_layout_is_rejected() {
    let bands = hf_bands();
    let modes = chirp_modes(&bands);
    let data = envelope_data(&bands, 0);
    let (params, interval) = split_interval(12);
    let frame = framing(params, interval, false, false);
    assert_eq!(
        error_of(plan_frame(&bands, &task(&bands, &modes, &frame, &data))),
        Some(PipelineError::IntervalFrameMismatch { expected: 12, frame: SLOTS })
    );
}

#[test]
fn hf_adjust_parameters_are_checked_before_any_state_moves() {
    let bands = hf_bands();
    let modes = chirp_modes(&bands);
    let (params, interval) = split_interval(SLOTS as u8);
    let frame = framing(params, interval, false, false);
    let data = envelope_data(&bands, 0);
    let valid = task(&bands, &modes, &frame, &data);
    let mut invalid = valid;
    invalid.inputs.hf_adjust.add_harmonic = &[];
    let expected = PipelineError::HfAdjust(HfAdjustError::HarmonicDataTooShort {
        needed: usize::from(bands.num_sbg_sig_highres()),
        provided: 0,
    });
    assert_eq!(error_of(plan_frame(&bands, &invalid)), Some(expected));
    assert_eq!(plan_balanced_pair(&bands, &valid, &invalid).err(), Some(expected));
}

#[test]
fn the_gains_carry_this_frames_timeslot_factor() {
    let bands = hf_bands();
    let modes = chirp_modes(&bands);
    let data = envelope_data(&bands, 0);

    for (samples, _, factor, aspx_slots) in FACTOR_TIERS {
        let (params, interval) = split_interval(aspx_slots);
        let frame = framing(params, interval, false, false);
        let mut next = task(&bands, &modes, &frame, &data);
        next.samples = samples;
        next.output_len = Some(samples);
        let plan = plan_frame(&bands, &next).expect("a plan");
        assert_eq!(plan.factor, factor, "{samples} samples");
    }
}

#[test]
fn hf_carryover_is_checked_before_any_state_moves() {
    let bands = hf_bands();
    let modes = chirp_modes(&bands);
    let (params, interval) = steady_state_interval(SLOTS as u8, 2);
    let frame = framing(params, interval, false, false);
    let data = envelope_data(&bands, 0);
    let expected =
        PipelineError::Assemble(AssembleError::CarryoverMismatch { carried: 0, required: 2 });

    let missing = task(&bands, &modes, &frame, &data);
    assert_eq!(error_of(plan_frame(&bands, &missing)), Some(expected));

    let mut carried = missing;
    carried.carried = 2;
    assert_eq!(plan_balanced_pair(&bands, &carried, &missing).err(), Some(expected));
    assert!(plan_balanced_pair(&bands, &carried, &carried).is_ok());
}

#[test]
fn out_of_range_carryover_is_checked_before_any_state_moves() {
    let bands = hf_bands();
    let modes = chirp_modes(&bands);
    let data = envelope_data(&bands, 0);
    let cases: [(&str, u8, u8, usize); 2] = [("left", 5, 2, 5), ("right", 0, 4, 4)];

    for (name, left, right, carryover) in cases {
        let mut params = AspxIntervalParams::fixfix(2);
        params.int_class = IntervalClass::VarVar;
        params.var_bord_left = Some(left);
        params.var_bord_right = Some(right);
        params.num_rel_right = 1;
        params.rel_bord_right[0] = 8;
        params.freq_res = [true, false, false, false, false];
        let interval =
            AspxInterval::derive(&params, SLOTS as u8, 0, true, SLOTS as i16).expect("an interval");

        let frame = framing(params, interval, false, false);
        let mut next = task(&bands, &modes, &frame, &data);
        next.carried = usize::from(left);
        assert_eq!(
            error_of(plan_frame(&bands, &next)),
            Some(PipelineError::Assemble(AssembleError::CarryoverOutOfRange { carryover })),
            "{name}"
        );
    }
}

/// A configuration in which the bits of `pattern` set four flags.
fn config_with(pattern: u8) -> AspxConfig {
    AspxConfig {
        quant_mode_env: false,
        start_freq: 0,
        stop_freq: 0,
        master_freq_scale: pattern & 1 != 0,
        interpolation: pattern & 2 != 0,
        preflat: pattern & 4 != 0,
        limiter: pattern & 8 != 0,
        noise_sbg: 0,
        num_env_bits_fixfix: false,
        freq_res_mode: 0,
    }
}

fn element(
    channels: u8,
    bands: AspxBandTables,
    framing: [AspxChannelFraming; 2],
    hfgen: [AspxHfGen; 2],
    envelopes: [AspxEnvelopes; 2],
) -> AspxData {
    let balance = if channels == 2 { Some(false) } else { None };
    AspxData { channels, balance, bands, framing, hfgen, envelopes }
}

#[test]
fn each_config_flag_lands_on_its_own_parameter() {
    let bands = hf_bands();
    let (params, interval) = split_interval(SLOTS as u8);
    let framing = framing(params, interval, false, false);
    let hfgen = AspxHfGen::from_parts(&[2], &[true, false]);
    let data = element(
        1,
        bands,
        [framing, framing],
        [hfgen, hfgen],
        [envelope_data(&bands, 0), envelope_data(&bands, 0)],
    );

    for pattern in 0..16u8 {
        let config = config_with(pattern);
        let inputs = ChannelInputs::from_parsed(&data, &config, 0, false, false, false)
            .expect("the channel exists");
        assert_eq!(
            inputs.hf_gen.master_freq_scale,
            pattern & 1 != 0,
            "master_freq_scale, pattern={pattern}"
        );
        assert_eq!(
            inputs.hf_adjust.interpolation,
            pattern & 2 != 0,
            "interpolation, pattern={pattern}"
        );
        assert_eq!(inputs.hf_gen.pre_flattening, pattern & 4 != 0, "preflat, pattern={pattern}");
        assert_eq!(inputs.hf_adjust.limiter, pattern & 8 != 0, "limiter, pattern={pattern}");
    }
}

#[test]
fn the_three_caller_side_flags_pass_straight_through() {
    let bands = hf_bands();
    let (params, interval) = split_interval(SLOTS as u8);
    let framing = framing(params, interval, false, false);
    let hfgen = AspxHfGen::from_parts(&[2], &[true, false]);
    let data = element(
        1,
        bands,
        [framing, framing],
        [hfgen, hfgen],
        [envelope_data(&bands, 0), envelope_data(&bands, 0)],
    );
    let config = config_with(0);

    for pattern in 0..8u8 {
        let inputs = ChannelInputs::from_parsed(
            &data,
            &config,
            0,
            pattern & 1 != 0,
            pattern & 2 != 0,
            pattern & 4 != 0,
        )
        .expect("the channel exists");
        assert_eq!(inputs.hf_gen.base_samp_freq_48, pattern & 1 != 0);
        assert_eq!(inputs.hf_adjust.master_reset, pattern & 2 != 0);
        assert_eq!(inputs.hf_adjust.first_frame, pattern & 4 != 0);
    }
}

#[test]
fn the_two_per_channel_vectors_come_from_that_channel() {
    let bands = hf_bands();
    let (params, interval) = split_interval(SLOTS as u8);
    let framing = framing(params, interval, false, false);
    let first = AspxHfGen::from_parts(&[1], &[true, false, true]);
    let second = AspxHfGen::from_parts(&[3], &[false, true, false]);
    assert_ne!(first, second, "the channels differ");
    let data = element(
        2,
        bands,
        [framing, framing],
        [first, second],
        [envelope_data(&bands, 0), envelope_data(&bands, 1)],
    );
    let config = config_with(0);

    let a = ChannelInputs::from_parsed(&data, &config, 0, false, false, false)
        .expect("the first channel");
    let b = ChannelInputs::from_parsed(&data, &config, 1, false, false, false)
        .expect("the second channel");
    assert_eq!(a.hf_gen.chirp_modes, &[1]);
    assert_eq!(b.hf_gen.chirp_modes, &[3]);
    assert_eq!(a.hf_adjust.add_harmonic, &[true, false, true]);
    assert_eq!(b.hf_adjust.add_harmonic, &[false, true, false]);
    assert_ne!(
        a.envelopes.data.sig(0, 0),
        b.envelopes.data.sig(0, 0),
        "the envelopes are taken channel by channel"
    );

    let mono = element(
        1,
        bands,
        [framing, framing],
        [first, second],
        [envelope_data(&bands, 0), envelope_data(&bands, 1)],
    );
    assert_eq!(
        ChannelInputs::from_parsed(&mono, &config, 1, false, false, false).err(),
        Some(PipelineError::MissingChannel { channel: 1 })
    );
}

#[test]
fn master_reset_compares_against_the_previous_i_frame() {
    let mut tracker = MasterResetTracker::new();
    let base = config_with(0);
    let first = tracker.frame(Some(&base));
    assert!(first.is_reset(), "the first independent frame resets");
    tracker.commit(first);
    let same = tracker.frame(Some(&base));
    assert!(!same.is_reset(), "the same configuration does not");
    tracker.commit(same);
    let inter = tracker.frame(None);
    assert!(!inter.is_reset(), "a dependent frame never does");
    tracker.commit(inter);
    assert!(
        !tracker.frame(Some(&base)).is_reset(),
        "a dependent frame leaves the history"
    );

    let mut scale = base;
    scale.master_freq_scale = true;
    let scale_frame = tracker.frame(Some(&scale));
    assert!(scale_frame.is_reset(), "master_freq_scale");
    tracker.commit(scale_frame);
    let mut start = scale;
    start.start_freq = 3;
    let start_frame = tracker.frame(Some(&start));
    assert!(start_frame.is_reset(), "start_freq");
    tracker.commit(start_frame);
    let mut stop = start;
    stop.stop_freq = 2;
    let stop_frame = tracker.frame(Some(&stop));
    assert!(stop_frame.is_reset(), "stop_freq");
    tracker.commit(stop_frame);

    let mut other = stop;
    other.limiter = !other.limiter;
    other.interpolation = !other.interpolation;
    other.preflat = !other.preflat;
    other.noise_sbg = 1;
    other.freq_res_mode = 2;
    assert!(!tracker.frame(Some(&other)).is_reset(), "no other field matters");
}

#[test]
fn master_reset_decision_survives_retry_and_applies_to_every_channel() {
    let mut tracker = MasterResetTracker::new();
    let base = config_with(0);
    let first = tracker.frame(Some(&base));
    tracker.commit(first);

    let mut changed = base;
    changed.start_freq = 1;
    let attempt = tracker.frame(Some(&changed));
    assert!(attempt.is_reset(), "the configuration changed");
    assert_eq!(
        tracker.frame(Some(&changed)),
        attempt,
        "the decision is the same until it is committed"
    );

    tracker.commit(attempt);
    assert!(
        !tracker.frame(Some(&changed)).is_reset(),
        "the committed configuration is the last one"
    );
}

#[test]
fn a_pair_is_planned_as_two_single_channels() {
    let bands = hf_bands();
    let modes = chirp_modes(&bands);
    let (params, interval) = split_interval(SLOTS as u8);
    let frame = framing(params, interval, false, false);
    let (first_data, second_data) = (envelope_data(&bands, 0), envelope_data(&bands, 1));
    let first = task(&bands, &modes, &frame, &first_data);
    let second = task(&bands, &modes, &frame, &second_data);
    let (left, right) = plan_pair(&bands, &bands, &first, &second).expect("two plans");
    for (plan, alone) in [(&left, &first), (&right, &second)] {
        let single = plan_frame(&bands, alone).expect("a plan");
        assert_eq!(plan.history, single.history);
        assert_eq!(sig_rows(&plan.factors), sig_rows(&single.factors));
        assert_eq!(plan.aspx, single.aspx);
        assert_eq!(plan.tables.patches(), single.tables.patches());
        assert_eq!(plan.tables.borders(), single.tables.borders());
    }

    let mut longer = second;
    longer.samples = 2 * FRAME;
    longer.output_len = None;
    assert_eq!(
        plan_pair(&bands, &bands, &first, &longer).err(),
        Some(PipelineError::PairedFrameLengthMismatch { first: FRAME, second: 2 * FRAME })
    );
}

#[test]
fn a_right_end_behind_the_frame_fits_the_low_band() {
    let bands = hf_bands();
    let modes = chirp_modes(&bands);
    let data = envelope_data(&bands, 0);
    for (samples, slots, factor, aspx_slots) in FACTOR_TIERS {
        let overrun = 3 * usize::from(factor);
        let mut params = AspxIntervalParams::fixfix(2);
        params.int_class = IntervalClass::FixVar;
        params.var_bord_right = Some(3);
        params.num_rel_right = 1;
        params.rel_bord_right[0] = aspx_slots / 2;
        params.freq_res = [true, false, false, false, false];
        let interval =
            AspxInterval::derive(&params, aspx_slots, 0, true, i16::from(aspx_slots))
                .expect("an interval");
        let frame = framing(params, interval, false, false);
        let mut next = task(&bands, &modes, &frame, &data);
        next.samples = samples;
        next.output_len = None;
        let plan = plan_frame(&bands, &next).expect("a plan");
        assert_eq!(plan.aspx, HighBandInterval { first: 0, last: slots + overrun });
        let extended = extended_timeslots(plan.timeslots, plan.ts_offset).expect("fits");
        assert_eq!(extended, plan.aspx.last);

        let input = GenerationInput {
            first: plan.aspx.first,
            last: plan.aspx.last,
            out_slots: plan.aspx.timeslots(),
            extended_slots: TS_OFFSET_HFADJ + extended,
            filters: bands.sba(),
            chirps: modes.len(),
            gains: None,
        };
        let sources =
            plan_generation(&input, plan.tables.patches(), plan.tables.borders()).expect("sources");
        assert_eq!(sources.first().map(|source| source.sb_high), Some(usize::from(bands.sbx())));
    }
}

#[test]
fn a_dropped_patch_leaves_the_top_uncovered() {
    let bands = AspxBandTables::derive(false, 0, 3, 0, 0).expect("the tables exist");
    let modes = chirp_modes(&bands);
    let tables = hf_gen_tables(&bands, hf_params(&modes)).expect("the generator tables");
    let patches = tables.patches();
    let end = patches.border(usize::from(patches.count())).expect("the last border");
    assert!(end < bands.sbz(), "the last patch was dropped");
    assert_eq!(
        uncovered_subbands(&bands, &tables),
        (usize::from(end), usize::from(bands.sbz()))
    );
}

#[test]
fn what_one_frame_leaves_over_the_next_one_takes() {
    let (_, interval) = steady_state_interval(SLOTS as u8, 2);
    let aspx = high_band_interval(&interval, SLOTS, 1).expect("a range");
    assert_eq!(aspx, HighBandInterval { first: 2, last: 18 });
    assert_eq!(aspx.timeslots(), 16);
    // The next interval starts where this one stops.
    let mut params = AspxIntervalParams::fixfix(1);
    params.int_class = IntervalClass::VarFix;
    let next = AspxInterval::derive(&params, SLOTS as u8, 1, false, interval.stop_pos())
        .expect("an interval");
    let next_aspx = high_band_interval(&next, SLOTS, 1).expect("a range");
    assert_eq!(validate_hf_carryover(next_aspx, aspx.last - SLOTS, 1, SLOTS), Ok(()));
}

#[test]
fn intervals_are_placed_in_their_frame() {
    let (_, interval) = split_interval(12);
    assert_eq!(
        high_band_interval(&interval, 24, 2),
        Ok(HighBandInterval { first: 0, last: 24 })
    );
    assert_eq!(
        high_band_interval(&interval, 24, 3),
        Err(PipelineError::TimeslotFactorOutOfRange { factor: 3 })
    );
    assert_eq!(
        high_band_interval(&AspxInterval::empty(), 24, 2),
        Err(PipelineError::UnsupportedTimeslotLayout { num_aspx_timeslots: 0, factor: 2 })
    );
}

#[test]
fn a_high_band_must_reach_the_end_of_its_frame() {
    let short = HighBandInterval { first: 0, last: 15 };
    assert_eq!(
        validate_hf_carryover(short, 0, 1, 16),
        Err(PipelineError::Assemble(AssembleError::TimeslotsBeyondInterval {
            timeslots: 16,
            stop: 15
        }))
    );
    assert_eq!(HighBandInterval { first: 3, last: 1 }.timeslots(), 0);
}

#[test]
fn generator_tables_need_groups_and_patches() {
    let modes = [0u8; 5];
    assert_eq!(
        hf_gen_tables(&AspxBandTables::empty(), hf_params(&modes)).err(),
        Some(PipelineError::Patch(PatchError::SourceExhausted { sba: 0, source_band_low: 2 }))
    );
    assert_eq!(validate_chirp_modes(&[0, 1, 2, 3]), Ok(()));
    assert_eq!(
        validate_chirp_modes(&[0, 9]),
        Err(TnaError::ModeOutOfRange { group: 1, mode: 9 })
    );
}

#[test]
fn a_limiter_without_groups_is_reported() {
    let bands = hf_bands();
    let modes = chirp_modes(&bands);
    let (params, interval) = split_interval(SLOTS as u8);
    let frame = framing(params, interval, false, false);
    let data = envelope_data(&bands, 0);
    let mut next = task(&bands, &modes, &frame, &data);
    let failure = LimiterError { reason: 3 };
    next.limiter_failure = Some(failure);
    assert_eq!(error_of(plan_frame(&bands, &next)), Some(PipelineError::Limiter(failure)));
    assert_eq!(PipelineError::from(failure), PipelineError::Limiter(failure));
    next.inputs.hf_adjust.limiter = false;
    assert!(plan_frame(&bands, &next).is_ok());
}

#[test]
fn frame_lengths_have_a_factor() {
    assert_eq!(frame_timeslot_factor(1024), Ok(1));
    assert_eq!(frame_timeslot_factor(1536), Ok(2));
    for samples in [0usize, 640, 4096, 65536 + 1024] {
        assert_eq!(
            frame_timeslot_factor(samples),
            Err(PipelineError::UnsupportedFrameLength { samples })
        );
    }
    assert_eq!(
        extended_timeslots(33, 0),
        Err(PipelineError::FrameTooLong { timeslots: 33, capacity: MAX_QMF_TIMESLOTS })
    );
    assert_eq!(
        extended_timeslots(32, 7),
        Err(PipelineError::FrameTooLong { timeslots: 32, capacity: MAX_QMF_TIMESLOTS })
    );
}

#[test]
fn a_whole_frame_is_generated_from_its_start() {
    let bands = hf_bands();
    let modes = chirp_modes(&bands);
    for samples in [1024usize, 1536] {
        let plan = plan_whole_frame(&bands, hf_params(&modes), samples, None).expect("a plan");
        assert_eq!(plan.aspx, HighBandInterval { first: 0, last: samples / SUBBANDS });
        assert_eq!(Some(plan.ts_offset), ts_offset_hfgen(samples as u16));
    }
}
