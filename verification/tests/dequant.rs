use aspx::bands::AspxBandTables;
use aspx::binary32;
use aspx::dequant::{self, dequantise, dequantise_pair, DequantError, ScaleFactors};
use aspx::envelope::{
    decode, EnvelopeDeltas, EnvelopeHistory, EnvelopeScaleFactors, SbgIndexMap,
};
use aspx::tables::EnvelopeKind;

fn exp2i(n: i32) -> Option<f32> {
    dequant::exp2i(n).map(f32::from_bits)
}

fn exp2_quantised(qscf: i16, coarse_quant: bool, shift: i32) -> Option<f32> {
    dequant::exp2_quantised(qscf, coarse_quant, shift).map(f32::from_bits)
}

fn sig(factors: &ScaleFactors, env: usize, group: usize) -> Option<f32> {
    factors.sig(env, group).map(f32::from_bits)
}

fn noise(factors: &ScaleFactors, env: usize, group: usize) -> Option<f32> {
    factors.noise(env, group).map(f32::from_bits)
}

fn tables() -> AspxBandTables {
    AspxBandTables::derive(true, 0, 0, 1, 0).expect("the configuration has tables")
}

/// Quantised factors with the given values: differences along frequency add up.
fn quantised(target: &[i16], noise_target: &[i16]) -> EnvelopeScaleFactors {
    let map = SbgIndexMap::derive(&tables()).expect("the map exists");
    let mut sig_deltas = Vec::new();
    let mut previous = 0i16;
    for &value in target {
        sig_deltas.push(value - previous);
        previous = value;
    }
    let mut noise_deltas = Vec::new();
    previous = 0;
    for &value in noise_target {
        noise_deltas.push(value - previous);
        previous = value;
    }
    let mut history = EnvelopeHistory::new();
    let mut out = EnvelopeScaleFactors::new();
    decode(
        &[EnvelopeDeltas { data: &sig_deltas, time_direction: false, high_resolution: true }],
        &[EnvelopeDeltas { data: &noise_deltas, time_direction: false, high_resolution: false }],
        &map,
        false,
        &mut history,
        &mut out,
    )
    .expect("the factors decode");
    out
}

fn high_groups() -> usize {
    usize::from(tables().num_sbg_sig_highres())
}

fn noise_groups() -> usize {
    usize::from(tables().num_sbg_noise())
}

#[test]
fn the_power_of_two_matches_repeated_multiplication() {
    for n in -60..=60i32 {
        let mut expected = 1.0f32;
        for _ in 0..n.abs() {
            if n > 0 {
                expected *= 2.0;
            } else {
                expected /= 2.0;
            }
        }
        assert_eq!(exp2i(n), Some(expected), "2^{n}");
    }
    assert_eq!(exp2i(-126), Some(f32::MIN_POSITIVE), "the smallest normal number");
    assert_eq!(exp2i(-127), None, "a subnormal number is rejected");
    assert_eq!(exp2i(128), None, "an overflow is rejected");
    assert!(exp2i(127).is_some_and(f32::is_finite), "the largest normal exponent");
}

#[test]
fn the_two_quantisation_steps_are_one_and_a_half_and_three_decibels() {
    let ratio_in_decibels = |from: f32, to: f32| 10.0 * (f64::from(to / from)).log10();

    for (coarse_quant, expected) in [(false, 1.505_15f64), (true, 3.010_3)] {
        for quantised in -20..20i16 {
            let low = exp2_quantised(quantised, coarse_quant, 0).expect("in range");
            let high = exp2_quantised(quantised + 1, coarse_quant, 0).expect("in range");
            let step = ratio_in_decibels(low, high);
            assert!(
                (step - expected).abs() < 1e-3,
                "from {quantised} to {} the step is {step} dB, not {expected}",
                quantised + 1
            );
        }
    }
}

#[test]
fn the_fine_step_separates_odd_and_even_quantised_values() {
    for quantised in -30..30i16 {
        let low = exp2_quantised(quantised, false, 0).expect("in range");
        let high = exp2_quantised(quantised + 1, false, 0).expect("in range");
        assert!(low < high, "{quantised} and its successor differ");
    }
    let unit = exp2_quantised(0, false, 0).expect("in range");
    let half = exp2_quantised(1, false, 0).expect("in range");
    assert_eq!(half, unit * std::f32::consts::SQRT_2, "an odd value is a root of two apart");
}

#[test]
fn the_dequantised_factors_follow_the_two_formulas() {
    let high = high_groups();
    let target: Vec<i16> = (0..high).map(|index| (index as i16) % 7 - 3).collect();
    let noise_target: Vec<i16> = vec![2, -1, 0, 3, 1];
    let noise_groups = noise_groups();
    let quantised = quantised(&target, &noise_target[..noise_groups]);

    let mut out = ScaleFactors::new();
    dequantise(&quantised, true, &mut out).expect("the factors are in range");
    for group in 0..high {
        let expected = exp2i(6 + i32::from(target[group])).expect("in range");
        assert_eq!(sig(&out, 0, group), Some(expected), "signal group {group}");
    }
    for group in 0..noise_groups {
        let expected = exp2i(6 - i32::from(noise_target[group])).expect("in range");
        assert_eq!(noise(&out, 0, group), Some(expected), "noise group {group}");
    }
}

#[test]
fn every_dequantised_factor_is_strictly_positive() {
    let high = high_groups();
    let noise_groups = noise_groups();
    for base in [-40i16, -7, 0, 5, 41] {
        let target: Vec<i16> = (0..high).map(|index| base + (index as i16)).collect();
        let noise_target: Vec<i16> = (0..noise_groups).map(|index| base + index as i16).collect();
        let quantised = quantised(&target, &noise_target);
        for coarse_quant in [false, true] {
            let mut out = ScaleFactors::new();
            dequantise(&quantised, coarse_quant, &mut out).expect("the factors are in range");
            for group in 0..high {
                let value = sig(&out, 0, group).expect("a factor");
                assert!(value > 0.0 && value.is_finite(), "a signal factor");
            }
            for group in 0..noise_groups {
                let value = noise(&out, 0, group).expect("a factor");
                assert!(value > 0.0 && value.is_finite(), "a noise factor");
            }
        }
    }
}

#[test]
fn the_stereo_pair_conserves_the_sum_channel_energy() {
    let high = high_groups();
    let noise_groups = noise_groups();
    let sum_target: Vec<i16> = (0..high).map(|index| (index as i16) % 5 - 2).collect();
    let noise_sum: Vec<i16> = (0..noise_groups).map(|index| index as i16 - 1).collect();
    let sum = quantised(&sum_target, &noise_sum);

    for offset in [-9i16, -1, 0, 1, 12, 25] {
        let balance_target: Vec<i16> = (0..high).map(|_| offset).collect();
        let noise_balance: Vec<i16> = (0..noise_groups).map(|_| offset).collect();
        let balance = quantised(&balance_target, &noise_balance);

        let mut mono = ScaleFactors::new();
        dequantise(&sum, false, &mut mono).expect("the factors are in range");
        let mut out_sum = ScaleFactors::new();
        let mut out_balance = ScaleFactors::new();
        dequantise_pair(&sum, &balance, false, &mut out_sum, &mut out_balance)
            .expect("the factors are in range");

        for group in 0..high {
            let total = sig(&out_sum, 0, group).expect("a factor")
                + sig(&out_balance, 0, group).expect("a factor");
            let expected = 2.0 * sig(&mono, 0, group).expect("a factor");
            let error = (f64::from(total) - f64::from(expected)).abs() / f64::from(expected);
            assert!(
                error < 1e-6,
                "offset {offset}, signal group {group}: {total} is not {expected}"
            );
        }
        for group in 0..noise_groups {
            let total = noise(&out_sum, 0, group).expect("a factor")
                + noise(&out_balance, 0, group).expect("a factor");
            let expected = 2.0 * noise(&mono, 0, group).expect("a factor");
            let error = (f64::from(total) - f64::from(expected)).abs() / f64::from(expected);
            assert!(
                error < 1e-6,
                "offset {offset}, noise group {group}: {total} is not {expected}"
            );
        }
    }
}

#[test]
fn the_pan_centre_splits_the_energy_evenly() {
    const PAN_OFFSET: i16 = 12;
    let high = high_groups();
    let noise_groups = noise_groups();
    let sum_target: Vec<i16> = vec![3; high];
    let noise_sum: Vec<i16> = vec![1; noise_groups];
    let sum = quantised(&sum_target, &noise_sum);

    // In the fine step two quantised units make one whole exponent.
    for (coarse_quant, centre) in [(true, PAN_OFFSET), (false, 2 * PAN_OFFSET)] {
        let balance_target: Vec<i16> = vec![centre; high];
        let noise_balance: Vec<i16> = vec![PAN_OFFSET; noise_groups];
        let balance = quantised(&balance_target, &noise_balance);
        let mut out_sum = ScaleFactors::new();
        let mut out_balance = ScaleFactors::new();
        dequantise_pair(&sum, &balance, coarse_quant, &mut out_sum, &mut out_balance)
            .expect("the factors are in range");
        for group in 0..high {
            assert_eq!(
                sig(&out_sum, 0, group),
                sig(&out_balance, 0, group),
                "signal group {group} is even"
            );
        }
        for group in 0..noise_groups {
            assert_eq!(
                noise(&out_sum, 0, group),
                noise(&out_balance, 0, group),
                "noise group {group} is even"
            );
        }
    }
}

#[test]
fn the_balance_parameter_moves_energy_monotonically() {
    let high = high_groups();
    let noise_groups = noise_groups();
    let sum = quantised(&vec![0; high], &vec![0; noise_groups]);

    let mut previous: Option<(f32, f32)> = None;
    for offset in -6..=6i16 {
        let balance = quantised(&vec![24 + offset; high], &vec![12 + offset; noise_groups]);
        let mut out_sum = ScaleFactors::new();
        let mut out_balance = ScaleFactors::new();
        dequantise_pair(&sum, &balance, false, &mut out_sum, &mut out_balance)
            .expect("the factors are in range");
        let current = (
            sig(&out_sum, 0, 0).expect("a factor"),
            sig(&out_balance, 0, 0).expect("a factor"),
        );
        if let Some((last_sum, last_balance)) = previous {
            assert!(current.0 > last_sum, "offset {offset}: the sum channel grows");
            assert!(current.1 < last_balance, "offset {offset}: the balance channel shrinks");
        }
        previous = Some(current);
    }
}

#[test]
fn an_out_of_range_exponent_is_rejected_without_touching_the_output() {
    let high = high_groups();
    let noise_groups = noise_groups();
    let mut target: Vec<i16> = vec![0; high];
    target[2] = 200;
    let quantised_signal = quantised(&target, &vec![0; noise_groups]);
    let mut out = ScaleFactors::new();
    assert_eq!(
        dequantise(&quantised_signal, true, &mut out),
        Err(DequantError::ExponentOutOfRange {
            kind: EnvelopeKind::Signal,
            envelope: 0,
            group: 2
        })
    );
    assert_eq!(out.counts(), (0, 0), "a rejection leaves the output");

    // The noise exponent falls with the quantised value.
    let mut noise_target: Vec<i16> = vec![0; noise_groups];
    noise_target[1] = -200;
    let quantised_noise = quantised(&vec![0; high], &noise_target);
    let mut out = ScaleFactors::new();
    assert_eq!(
        dequantise(&quantised_noise, true, &mut out),
        Err(DequantError::ExponentOutOfRange {
            kind: EnvelopeKind::Noise,
            envelope: 0,
            group: 1
        })
    );
    assert_eq!(out.counts(), (0, 0), "a rejection leaves the output");
}

#[test]
fn a_stereo_quotient_underflow_is_rejected_without_touching_the_outputs() {
    let high = high_groups();
    let noise_groups = noise_groups();

    // 2^-126 over 1 + 2^127 underflows.
    let sum = quantised(&vec![-133; high], &vec![0; noise_groups]);
    let balance = quantised(&vec![-115; high], &vec![12; noise_groups]);
    let mut out_sum = ScaleFactors::new();
    let mut out_balance = ScaleFactors::new();
    assert_eq!(
        dequantise_pair(&sum, &balance, true, &mut out_sum, &mut out_balance),
        Err(DequantError::ExponentOutOfRange {
            kind: EnvelopeKind::Signal,
            envelope: 0,
            group: 0
        })
    );
    assert_eq!(out_sum.counts(), (0, 0), "an underflow leaves the sum channel");
    assert_eq!(out_balance.counts(), (0, 0), "an underflow leaves the balance channel");

    // Here the signal succeeds first, and still nothing is written.
    let sum = quantised(&vec![0; high], &vec![133; noise_groups]);
    let balance = quantised(&vec![12; high], &vec![-115; noise_groups]);
    assert_eq!(
        dequantise_pair(&sum, &balance, true, &mut out_sum, &mut out_balance),
        Err(DequantError::ExponentOutOfRange {
            kind: EnvelopeKind::Noise,
            envelope: 0,
            group: 0
        })
    );
    assert_eq!(out_sum.counts(), (0, 0), "an underflow leaves the sum channel");
    assert_eq!(out_balance.counts(), (0, 0), "an underflow leaves the balance channel");
}

#[test]
fn the_largest_finite_half_exponent_avoids_an_overflowing_intermediate() {
    let high = high_groups();
    let noise_groups = noise_groups();
    // Dividend and power are both 2^127.5.
    let sum = quantised(&vec![241; high], &vec![0; noise_groups]);
    let balance = quantised(&vec![-231; high], &vec![12; noise_groups]);
    let mut out_sum = ScaleFactors::new();
    let mut out_balance = ScaleFactors::new();
    dequantise_pair(&sum, &balance, false, &mut out_sum, &mut out_balance)
        .expect("the power is finite");

    for group in 0..high {
        assert!(
            sig(&out_sum, 0, group).is_some_and(f32::is_normal),
            "sum channel, group {group}"
        );
        assert!(
            sig(&out_balance, 0, group).is_some_and(f32::is_normal),
            "balance channel, group {group}"
        );
    }
}

#[test]
fn a_mismatched_stereo_grid_is_rejected() {
    let map = SbgIndexMap::derive(&tables()).expect("the map exists");
    let high = high_groups();
    let low = usize::from(tables().num_sbg_sig_lowres());
    let noise_groups = usize::from(map.noise_groups());
    let sum = quantised(&vec![0; high], &vec![0; noise_groups]);

    // The second channel has low resolution, hence fewer groups.
    let mut history = EnvelopeHistory::new();
    let mut balance = EnvelopeScaleFactors::new();
    decode(
        &[EnvelopeDeltas { data: &vec![0; low], time_direction: false, high_resolution: false }],
        &[EnvelopeDeltas {
            data: &vec![0; noise_groups],
            time_direction: false,
            high_resolution: false,
        }],
        &map,
        false,
        &mut history,
        &mut balance,
    )
    .expect("the factors decode");

    let mut out_sum = ScaleFactors::new();
    let mut out_balance = ScaleFactors::new();
    assert_eq!(
        dequantise_pair(&sum, &balance, false, &mut out_sum, &mut out_balance),
        Err(DequantError::GridMismatch { kind: EnvelopeKind::Signal, envelope: 0 })
    );
    assert_eq!(out_sum.counts(), (0, 0), "a rejection leaves the output");
    assert_eq!(out_balance.counts(), (0, 0), "a rejection leaves the output");

    // Here the signals agree and the second channel has one noise envelope more.
    let sig = vec![0; high];
    let noise = vec![0; noise_groups];
    let mut history = EnvelopeHistory::new();
    let mut balance = EnvelopeScaleFactors::new();
    decode(
        &[EnvelopeDeltas { data: &sig, time_direction: false, high_resolution: true }],
        &[
            EnvelopeDeltas { data: &noise, time_direction: false, high_resolution: false },
            EnvelopeDeltas { data: &noise, time_direction: false, high_resolution: false },
        ],
        &map,
        false,
        &mut history,
        &mut balance,
    )
    .expect("the factors decode");
    assert_eq!(
        dequantise_pair(&sum, &balance, false, &mut out_sum, &mut out_balance),
        Err(DequantError::GridMismatch { kind: EnvelopeKind::Noise, envelope: 0 })
    );
    assert_eq!(out_sum.counts(), (0, 0), "a rejection leaves the output");
    assert_eq!(out_balance.counts(), (0, 0), "a rejection leaves the output");
}

#[test]
fn half_powers_agree_with_the_machine() {
    for half in -252..=255i32 {
        let whole = half.div_euclid(2);
        let mut expected = exp2i(whole).expect("in range");
        if half.rem_euclid(2) == 1 {
            expected *= std::f32::consts::SQRT_2;
        }
        assert_eq!(binary32::exp2_half(half).map(f32::from_bits), Some(expected), "half {half}");
    }
    assert_eq!(binary32::exp2_half(-253), None);
    assert_eq!(binary32::exp2_half(256), None);
}

#[test]
fn sums_and_quotients_agree_with_the_machine() {
    for half in -252..=255i32 {
        let power = binary32::exp2_half(half).expect("in range");
        let sum = binary32::one_plus(power);
        assert_eq!(f32::from_bits(sum), 1.0 + f32::from_bits(power), "half {half}");
        for dividend in [-252, -251, -60, -3, 0, 1, 64, 199, 254, 255] {
            let top = binary32::exp2_half(dividend).expect("in range");
            let quotient = f32::from_bits(top) / f32::from_bits(sum);
            let expected = if quotient.is_normal() { Some(quotient) } else { None };
            assert_eq!(
                binary32::divide_normal(top, sum).map(f32::from_bits),
                expected,
                "2^({dividend}/2) over 1 + 2^({half}/2)"
            );
        }
    }
}

#[test]
fn opposite_balances_swap_the_shares() {
    let high = high_groups();
    let noise_groups = noise_groups();
    let sum = quantised(&vec![5; high], &vec![2; noise_groups]);
    for offset in 1..=9i16 {
        let left = quantised(&vec![24 + offset; high], &vec![12 + offset; noise_groups]);
        let right = quantised(&vec![24 - offset; high], &vec![12 - offset; noise_groups]);
        let mut a = (ScaleFactors::new(), ScaleFactors::new());
        let mut b = (ScaleFactors::new(), ScaleFactors::new());
        dequantise_pair(&sum, &left, false, &mut a.0, &mut a.1).expect("in range");
        dequantise_pair(&sum, &right, false, &mut b.0, &mut b.1).expect("in range");
        assert_eq!(a.0.sig(0, 3), b.1.sig(0, 3));
        assert_eq!(a.1.sig(0, 3), b.0.sig(0, 3));
        assert_eq!(a.0.noise(0, 0), b.1.noise(0, 0));
        assert_eq!(a.1.noise(0, 0), b.0.noise(0, 0));
    }
}

#[test]
fn the_envelope_counts_must_agree() {
    let map = SbgIndexMap::derive(&tables()).expect("the map exists");
    let high = vec![0i16; high_groups()];
    let noise = vec![0i16; noise_groups()];
    let one = quantised(&high, &noise);
    let row = EnvelopeDeltas { data: &high, time_direction: false, high_resolution: true };
    let noise_row = EnvelopeDeltas { data: &noise, time_direction: false, high_resolution: false };
    let again = EnvelopeDeltas { data: &high, time_direction: false, high_resolution: true };
    let mut history = EnvelopeHistory::new();
    let mut two = EnvelopeScaleFactors::new();
    decode(&[row, again], &[noise_row], &map, false, &mut history, &mut two).expect("two decode");
    let mut out_sum = ScaleFactors::new();
    let mut out_balance = ScaleFactors::new();
    assert_eq!(
        dequantise_pair(&one, &two, false, &mut out_sum, &mut out_balance),
        Err(DequantError::GridMismatch { kind: EnvelopeKind::Signal, envelope: 0 })
    );
}

#[test]
fn factors_start_empty() {
    let factors = ScaleFactors::default();
    assert_eq!(factors.counts(), (0, 0));
    assert_eq!(factors.sig(0, 0), None);
    assert_eq!(factors.noise(0, 0), None);
}
