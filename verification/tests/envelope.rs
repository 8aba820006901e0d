use aspx::bands::AspxBandTables;
use aspx::envelope::{
    decode, EnvelopeDeltas, EnvelopeError, EnvelopeHistory, EnvelopeScaleFactors, SbgIndexMap,
    NOISE_GROUPS,
};
use aspx::frames::MAX_ATSG_SIG;
use aspx::syntax::MAX_SBG_PER_ENVELOPE;
use aspx::tables::EnvelopeKind;

fn tables() -> AspxBandTables {
    AspxBandTables::derive(true, 0, 0, 1, 0).expect("the configuration has tables")
}

fn high_groups() -> usize {
    usize::from(tables().num_sbg_sig_highres())
}

fn low_groups() -> usize {
    usize::from(tables().num_sbg_sig_lowres())
}

fn deltas<'a>(data: &'a [i16], time: bool, high: bool) -> EnvelopeDeltas<'a> {
    EnvelopeDeltas { data, time_direction: time, high_resolution: high }
}

fn zero_noise(map: &SbgIndexMap) -> Vec<i16> {
    vec![0; usize::from(map.noise_groups())]
}

#[test]
fn the_index_map_is_consistent_with_the_border_tables() {
    let bands = tables();
    let map = SbgIndexMap::derive(&bands).expect("the map exists");
    let high = usize::from(bands.num_sbg_sig_highres());
    let low = usize::from(bands.num_sbg_sig_lowres());
    assert!(high >= low && low > 0, "there are no fewer high-resolution groups");

    assert_eq!(map.high_to_low(0), Some(0));
    let mut previous = 0u8;
    for sbg in 0..high {
        let mapped = map.high_to_low(sbg).expect("a high-resolution group is mapped");
        assert!(mapped >= previous, "the map does not decrease");
        assert!(usize::from(mapped) < low, "the image is a low-resolution group");
        previous = mapped;
    }
    assert_eq!(
        previous,
        u8::try_from(low - 1).expect("a small count"),
        "the last group is reached"
    );

    let mut last = None;
    for sbg in 0..low {
        let start = map.low_to_high(sbg).expect("a low-resolution group has a start");
        if let Some(previous) = last {
            assert!(start > previous, "the starts increase");
        }
        last = Some(start);
        assert_eq!(
            map.high_to_low(usize::from(start)),
            Some(u8::try_from(sbg).expect("a small count")),
            "the maps invert each other"
        );
        // The borders at the start agree by definition.
        assert_eq!(
            bands.sig_highres_border(usize::from(start)),
            bands.sig_lowres_border(sbg),
            "low-resolution group {sbg} starts at a high-resolution border"
        );
    }
}

#[test]
fn the_frequency_direction_is_a_prefix_sum_independent_of_history() {
    let map = SbgIndexMap::derive(&tables()).expect("the map exists");
    let groups = high_groups();
    let data: Vec<i16> = (0..groups).map(|index| (index as i16) - 3).collect();
    let noise = zero_noise(&map);

    let run = |seed: i16| {
        let mut history = EnvelopeHistory::new();
        history.sig = [seed; MAX_SBG_PER_ENVELOPE];
        history.noise = [seed; NOISE_GROUPS];
        history.primed = true;
        let mut out = EnvelopeScaleFactors::new();
        decode(
            &[deltas(&data, false, true)],
            &[deltas(&noise, false, false)],
            &map,
            false,
            &mut history,
            &mut out,
        )
        .expect("the envelopes decode");
        (0..groups).map(|sbg| out.sig(0, sbg).expect("a factor")).collect::<Vec<_>>()
    };

    let expected: Vec<i16> = data
        .iter()
        .scan(0i16, |sum, value| {
            *sum += value;
            Some(*sum)
        })
        .collect();
    assert_eq!(run(0), expected, "prefix sums");
    assert_eq!(run(1000), expected, "the history is not read");
}

#[test]
fn the_time_direction_chains_within_and_across_intervals() {
    let map = SbgIndexMap::derive(&tables()).expect("the map exists");
    let groups = high_groups();
    let base: Vec<i16> = (0..groups).map(|index| (index as i16) % 5 - 2).collect();
    let step: Vec<i16> = vec![2; groups];
    let noise = zero_noise(&map);

    let mut history = EnvelopeHistory::new();
    let mut out = EnvelopeScaleFactors::new();
    decode(
        &[deltas(&base, false, true), deltas(&step, true, true)],
        &[deltas(&noise, false, false)],
        &map,
        false,
        &mut history,
        &mut out,
    )
    .expect("the first interval decodes");
    for sbg in 0..groups {
        let first = out.sig(0, sbg).expect("a factor");
        assert_eq!(out.sig(1, sbg), Some(first + 2), "the second envelope adds to the first");
    }
    let last: Vec<i16> = (0..groups).map(|sbg| out.sig(1, sbg).expect("a factor")).collect();
    assert!(history.is_primed());

    let mut next = EnvelopeScaleFactors::new();
    decode(
        &[deltas(&step, true, true)],
        &[deltas(&noise, false, false)],
        &map,
        false,
        &mut history,
        &mut next,
    )
    .expect("the next interval decodes");
    for sbg in 0..groups {
        assert_eq!(
            next.sig(0, sbg),
            Some(last[sbg] + 2),
            "the next interval adds to the last envelope"
        );
    }
}

#[test]
fn the_balance_channel_doubles_every_delta() {
    let map = SbgIndexMap::derive(&tables()).expect("the map exists");
    let groups = high_groups();
    let data: Vec<i16> = vec![3; groups];
    let noise = zero_noise(&map);

    let run = |doubled: bool| {
        let mut history = EnvelopeHistory::new();
        let mut out = EnvelopeScaleFactors::new();
        decode(
            &[deltas(&data, false, true)],
            &[deltas(&noise, false, false)],
            &map,
            doubled,
            &mut history,
            &mut out,
        )
        .expect("the envelopes decode");
        out.sig(0, groups - 1).expect("a factor")
    };
    assert_eq!(run(true), run(false) * 2, "every difference counts twice");
}

#[test]
fn resolution_changes_map_the_previous_envelope_in_both_directions() {
    let map = SbgIndexMap::derive(&tables()).expect("the map exists");
    let high = high_groups();
    let low = low_groups();
    assert!(high > low, "the resolutions differ");

    let first: Vec<i16> = (0..high).map(|index| index as i16 + 1).collect();
    let second: Vec<i16> = vec![0; low];
    let third: Vec<i16> = vec![0; high];
    let noise = zero_noise(&map);
    let mut history = EnvelopeHistory::new();
    let mut out = EnvelopeScaleFactors::new();
    decode(
        &[
            deltas(&first, false, true),
            deltas(&second, true, false),
            deltas(&third, true, true),
        ],
        &[deltas(&noise, false, false)],
        &map,
        false,
        &mut history,
        &mut out,
    )
    .expect("the envelopes decode");

    for sbg in 0..low {
        let source = usize::from(map.low_to_high(sbg).expect("a start"));
        assert_eq!(
            out.sig(1, sbg),
            out.sig(0, source),
            "low-resolution group {sbg} takes high-resolution group {source}"
        );
    }
    for sbg in 0..high {
        let source = usize::from(map.high_to_low(sbg).expect("a group"));
        assert_eq!(
            out.sig(2, sbg),
            out.sig(1, source),
            "high-resolution group {sbg} takes low-resolution group {source}"
        );
    }
}

#[test]
fn a_time_delta_without_history_is_rejected() {
    let map = SbgIndexMap::derive(&tables()).expect("the map exists");
    let groups = high_groups();
    let data: Vec<i16> = vec![1; groups];
    let noise_zero = zero_noise(&map);
    let mut history = EnvelopeHistory::new();
    let mut out = EnvelopeScaleFactors::new();
    assert_eq!(
        decode(
            &[deltas(&data, true, true)],
            &[deltas(&noise_zero, false, false)],
            &map,
            false,
            &mut history,
            &mut out
        ),
        Err(EnvelopeError::MissingHistory { envelope: 0 })
    );
    assert!(!history.is_primed(), "a rejection leaves the history");

    let noise: Vec<i16> = vec![1; usize::from(map.noise_groups())];
    assert_eq!(
        decode(
            &[deltas(&data, false, true)],
            &[deltas(&noise, true, true)],
            &map,
            false,
            &mut history,
            &mut out
        ),
        Err(EnvelopeError::MissingHistory { envelope: 0 }),
        "noise envelopes need a history as well"
    );
    assert!(!history.is_primed());
}

#[test]
fn noise_envelopes_chain_without_a_resolution_map() {
    let map = SbgIndexMap::derive(&tables()).expect("the map exists");
    let groups = usize::from(map.noise_groups());
    assert!(groups > 0);
    let sig: Vec<i16> = vec![0; high_groups()];
    let first: Vec<i16> = (0..groups).map(|index| index as i16 + 1).collect();
    let step: Vec<i16> = vec![-1; groups];

    let mut history = EnvelopeHistory::new();
    let mut out = EnvelopeScaleFactors::new();
    decode(
        &[deltas(&sig, false, true)],
        &[deltas(&first, false, true), deltas(&step, true, true)],
        &map,
        false,
        &mut history,
        &mut out,
    )
    .expect("the noise envelopes decode");

    let expected: Vec<i16> = first
        .iter()
        .scan(0i16, |sum, value| {
            *sum += value;
            Some(*sum)
        })
        .collect();
    for sbg in 0..groups {
        assert_eq!(out.noise(0, sbg), Some(expected[sbg]), "prefix sums");
        assert_eq!(
            out.noise(1, sbg),
            Some(expected[sbg] - 1),
            "the second envelope adds to the first"
        );
    }
}

#[test]
fn invalid_input_is_rejected_without_touching_history() {
    let map = SbgIndexMap::derive(&tables()).expect("the map exists");
    let groups = high_groups();
    let full: Vec<i16> = vec![1; groups];
    let short: Vec<i16> = vec![1; groups - 1];
    let noise = zero_noise(&map);
    let mut history = EnvelopeHistory::new();
    let mut out = EnvelopeScaleFactors::new();

    assert_eq!(
        decode(
            &[],
            &[deltas(&noise, false, false)],
            &map,
            false,
            &mut history,
            &mut out
        ),
        Err(EnvelopeError::MissingEnvelopes { signal: 0, noise: 1 })
    );
    assert_eq!(
        decode(&[deltas(&full, false, true)], &[], &map, false, &mut history, &mut out),
        Err(EnvelopeError::MissingEnvelopes { signal: 1, noise: 0 })
    );

    assert_eq!(
        decode(
            &[deltas(&short, false, true)],
            &[deltas(&noise, false, false)],
            &map,
            false,
            &mut history,
            &mut out
        ),
        Err(EnvelopeError::OutputTooSmall { needed: groups, provided: groups - 1 })
    );

    let many: Vec<EnvelopeDeltas<'_>> =
        (0..MAX_ATSG_SIG + 1).map(|_| deltas(&full, false, true)).collect();
    assert_eq!(
        decode(
            &many,
            &[deltas(&noise, false, false)],
            &map,
            false,
            &mut history,
            &mut out
        ),
        Err(EnvelopeError::TooManyEnvelopes { signal: MAX_ATSG_SIG + 1, noise: 1 })
    );
    assert!(!history.is_primed(), "a rejection leaves the history");
}

#[test]
fn scale_factor_overflow_is_rejected_without_touching_history() {
    let map = SbgIndexMap::derive(&tables()).expect("the map exists");
    let mut signal_overflow = vec![0; high_groups()];
    signal_overflow[0] = i16::MAX;
    let signal_zero = vec![0; high_groups()];
    let mut noise_overflow = zero_noise(&map);
    noise_overflow[0] = i16::MAX;
    let noise_zero = zero_noise(&map);

    for (signal, noise, kind) in [
        (&signal_overflow, &noise_zero, EnvelopeKind::Signal),
        (&signal_zero, &noise_overflow, EnvelopeKind::Noise),
    ] {
        let mut history = EnvelopeHistory::new();
        let mut out = EnvelopeScaleFactors::new();
        assert_eq!(
            decode(
                &[deltas(signal, false, true)],
                &[deltas(noise, false, false)],
                &map,
                true,
                &mut history,
                &mut out
            ),
            Err(EnvelopeError::ScaleFactorOverflow { kind, envelope: 0, group: 0 })
        );
        assert!(!history.is_primed(), "an overflow leaves the history");
        assert_eq!(out.counts(), (0, 0), "an overflow leaves the output");
    }

    // Here the product fits and the sum with the history does not.
    let mut history = EnvelopeHistory::new();
    history.sig[0] = i16::MAX;
    history.sig_freq_res = true;
    history.primed = true;
    let mut step = signal_zero;
    step[0] = 1;
    let mut out = EnvelopeScaleFactors::new();
    assert_eq!(
        decode(
            &[deltas(&step, true, true)],
            &[deltas(&noise_zero, false, false)],
            &map,
            false,
            &mut history,
            &mut out
        ),
        Err(EnvelopeError::ScaleFactorOverflow {
            kind: EnvelopeKind::Signal,
            envelope: 0,
            group: 0
        })
    );
    assert_eq!(history.sig[0], i16::MAX, "an overflow leaves the history");
    assert_eq!(out.counts(), (0, 0), "an overflow leaves the output");
}

#[test]
fn counts_describe_what_was_decoded() {
    let map = SbgIndexMap::derive(&tables()).expect("the map exists");
    let high: Vec<i16> = vec![1; high_groups()];
    let low: Vec<i16> = vec![1; low_groups()];
    let noise: Vec<i16> = vec![1; usize::from(map.noise_groups())];
    let mut history = EnvelopeHistory::new();
    let mut out = EnvelopeScaleFactors::new();
    assert_eq!(out.counts(), (0, 0));
    decode(
        &[deltas(&high, false, true), deltas(&low, false, false)],
        &[deltas(&noise, false, false)],
        &map,
        false,
        &mut history,
        &mut out,
    )
    .expect("the envelopes decode");
    assert_eq!(out.counts(), (2, 1));
    assert_eq!(out.sig_group_count(0), Some(22));
    assert_eq!(out.sig_group_count(1), Some(11));
    assert_eq!(out.sig_group_count(2), None);
    assert_eq!(out.noise_group_count(), 2);
    assert_eq!(out.sig(0, 21), Some(22));
    assert_eq!(out.sig(0, 22), None);
    assert_eq!(out.sig(1, 10), Some(11));
    assert_eq!(out.sig(1, 11), None);
    assert_eq!(out.noise(0, 1), Some(2));
    assert_eq!(out.noise(0, 2), None);
    // The history keeps the last envelope, which had low resolution.
    assert!(!history.sig_freq_res);
    assert_eq!(history.sig[10], 11);
    assert_eq!(history.noise[1], 2);
}

#[test]
fn tables_that_were_never_derived_have_an_empty_index_map() {
    let map = SbgIndexMap::derive(&AspxBandTables::empty()).expect("an empty map");
    assert_eq!(map.high_to_low(0), None);
    assert_eq!(map.low_to_high(0), None);
    assert_eq!(map.noise_groups(), 0);
}

#[test]
fn the_next_interval_may_change_the_resolution() {
    let map = SbgIndexMap::derive(&tables()).expect("the map exists");
    let first: Vec<i16> = (0..high_groups()).map(|index| index as i16).collect();
    let step: Vec<i16> = vec![3; low_groups()];
    let noise: Vec<i16> = vec![4; usize::from(map.noise_groups())];
    let noise_step: Vec<i16> = vec![-1; usize::from(map.noise_groups())];
    let mut history = EnvelopeHistory::new();
    let mut out = EnvelopeScaleFactors::new();
    decode(
        &[deltas(&first, false, true)],
        &[deltas(&noise, false, false)],
        &map,
        false,
        &mut history,
        &mut out,
    )
    .expect("the first interval decodes");

    let mut next = EnvelopeScaleFactors::new();
    decode(
        &[deltas(&step, true, false)],
        &[deltas(&noise_step, true, false)],
        &map,
        true,
        &mut history,
        &mut next,
    )
    .expect("the next interval decodes");
    for sbg in 0..low_groups() {
        let source = usize::from(map.low_to_high(sbg).expect("a start"));
        assert_eq!(next.sig(0, sbg), out.sig(0, source).map(|value| value + 6));
    }
    for sbg in 0..noise.len() {
        assert_eq!(next.noise(0, sbg), out.noise(0, sbg).map(|value| value - 2));
    }
    assert_eq!(next.noise(0, 1), Some(6));
}
