use aspx::frames::{
    noise_mid_border, tab_border, AspxInterval, AspxIntervalParams, FrameError, TAB_BORDER,
};
use aspx::tables::{
    num_aspx_timeslots, num_qmf_timeslots, num_ts_in_ats, qmf_timeslots_for_aspx_layout,
    ts_offset_hfgen, IntervalClass,
};

/// Every frame length that has a time-slot layout.
const FRAME_LENGTHS: [u16; 8] = [2048, 1920, 1536, 1024, 960, 768, 512, 384];

#[test]
fn tab_border_rows_cover_every_reachable_timeslot_count() {
    let mut seen = [false; 5];
    for frame_len_base in FRAME_LENGTHS {
        let Some(slots) = num_aspx_timeslots(frame_len_base) else {
            panic!("frame length {frame_len_base} has a time-slot count");
        };
        let Some(index) = TAB_BORDER.iter().position(|&(value, _, _, _)| value == slots) else {
            panic!("{slots} time slots have no row");
        };
        if let Some(slot) = seen.get_mut(index) {
            *slot = true;
        }
    }
    assert!(seen.iter().all(|&hit| hit), "a row is out of reach");
}

#[test]
fn tab_border_rows_span_the_whole_interval() {
    for &(slots, ref one, ref two, ref four) in &TAB_BORDER {
        for (num_env, borders) in
            [(1u8, one.as_slice()), (2, two.as_slice()), (4, four.as_slice())]
        {
            assert_eq!(
                borders.len(),
                usize::from(num_env).saturating_add(1),
                "{slots} slots: {num_env} envelopes have one border more"
            );
            assert_eq!(borders.first(), Some(&0), "the first border is zero");
            assert_eq!(borders.last(), Some(&slots), "the last border is the slot count");
            for pair in borders.windows(2) {
                let (Some(low), Some(high)) = (pair.first(), pair.get(1)) else {
                    unreachable!("a window has two entries");
                };
                assert!(low < high, "{slots} slots: the borders do not increase");
            }
        }
    }
}

#[test]
fn fixfix_noise_borders_are_a_subset_of_the_signal_borders() {
    for &(slots, _, _, _) in &TAB_BORDER {
        for num_env in [1u8, 2, 4] {
            let params = AspxIntervalParams::fixfix(num_env);
            let Ok(interval) = AspxInterval::derive(&params, slots, 1, true, i16::from(slots))
            else {
                panic!("{slots} slots with {num_env} envelopes have an interval");
            };
            assert_eq!(interval.num_atsg_sig(), num_env);
            assert_eq!(interval.sig_border(0), Some(0));
            assert_eq!(interval.sig_border(usize::from(num_env)), Some(i16::from(slots)));
            for index in 0..=usize::from(interval.num_atsg_noise()) {
                let Some(border) = interval.noise_border(index) else {
                    panic!("noise border {index} is missing");
                };
                assert!(
                    (0..=usize::from(num_env)).any(|i| interval.sig_border(i) == Some(border)),
                    "noise border {border} is no signal border"
                );
            }
        }
    }
}

#[test]
fn envelope_limits_follow_table_128() {
    let params = AspxIntervalParams::fixfix(8);
    assert_eq!(
        AspxInterval::derive(&params, 16, 1, true, 16),
        Err(FrameError::TooManyEnvelopes { num_env: 8, limit: 4 })
    );

    let mut varvar = AspxIntervalParams::fixfix(6);
    varvar.int_class = IntervalClass::VarVar;
    assert_eq!(
        AspxInterval::derive(&varvar, 16, 1, true, 16),
        Err(FrameError::TooManyEnvelopes { num_env: 6, limit: 5 })
    );
}

#[test]
fn varvar_fills_from_both_ends() {
    let mut params = AspxIntervalParams::fixfix(3);
    params.int_class = IntervalClass::VarVar;
    params.var_bord_left = Some(2);
    params.var_bord_right = Some(1);
    params.num_rel_left = 1;
    params.num_rel_right = 1;
    params.rel_bord_left = [4, 0, 0];
    params.rel_bord_right = [6, 0, 0];
    params.tsg_ptr = 1;

    let Ok(interval) = AspxInterval::derive(&params, 16, 1, true, 16) else {
        panic!("the combination has an interval");
    };
    // From 2 the left side steps to 6; from 16 + 1 the right side steps back to 11.
    assert_eq!(interval.sig_border(0), Some(2));
    assert_eq!(interval.sig_border(1), Some(6));
    assert_eq!(interval.sig_border(2), Some(11));
    assert_eq!(interval.sig_border(3), Some(17));
    assert_eq!(interval.stop_pos(), 17);
}

#[test]
fn non_iframe_takes_the_start_from_the_previous_interval() {
    let mut params = AspxIntervalParams::fixfix(1);
    params.int_class = IntervalClass::VarFix;
    params.var_bord_left = Some(3);

    // An independent frame reads the transmitted border.
    let Ok(iframe) = AspxInterval::derive(&params, 16, 1, true, 16) else {
        panic!("the independent frame has an interval");
    };
    assert_eq!(iframe.sig_border(0), Some(3));

    // Any other starts where the previous interval stopped, here at 19 - 16.
    let Ok(inter) = AspxInterval::derive(&params, 16, 1, false, 19) else {
        panic!("the dependent frame has an interval");
    };
    assert_eq!(inter.sig_border(0), Some(3));
    assert_eq!(inter.sig_border(1), Some(16), "the right end is fixed");
}

#[test]
fn rejects_borders_that_cross_over() {
    let mut params = AspxIntervalParams::fixfix(2);
    params.int_class = IntervalClass::VarVar;
    params.var_bord_left = Some(0);
    params.var_bord_right = Some(0);
    params.num_rel_left = 1;
    params.num_rel_right = 0;
    params.rel_bord_left = [8, 0, 0];
    params.tsg_ptr = 0;

    // With six slots the left border at 8 is past the right end at 6.
    assert!(matches!(
        AspxInterval::derive(&params, 6, 1, true, 6),
        Err(FrameError::BordersNotIncreasing { .. })
    ));
}

#[test]
fn frequency_resolution_modes_zero_one_and_three() {
    let mut params = AspxIntervalParams::fixfix(2);
    params.freq_res = [true, false, false, false, false];

    let Ok(explicit) = AspxInterval::derive(&params, 16, 0, true, 16) else {
        panic!("mode 0 has an interval");
    };
    assert_eq!(explicit.freq_res(0), Some(true));
    assert_eq!(explicit.freq_res(1), Some(true));

    let Ok(low) = AspxInterval::derive(&params, 16, 1, true, 16) else {
        panic!("mode 1 has an interval");
    };
    assert_eq!(low.freq_res(0), Some(false));

    let Ok(high) = AspxInterval::derive(&params, 16, 3, true, 16) else {
        panic!("mode 3 has an interval");
    };
    assert_eq!(high.freq_res(0), Some(true));
    assert_eq!(high.freq_res(2), None, "nothing is exposed past the envelopes");
}

#[test]
fn rejects_noise_count_inconsistent_with_signal_envelopes() {
    let mut single = AspxIntervalParams::fixfix(1);
    single.num_noise = 2;
    assert_eq!(
        AspxInterval::derive(&single, 16, 1, true, 16),
        Err(FrameError::NoiseEnvelopeCountMismatch { num_env: 1, num_noise: 2, expected: 1 })
    );

    let mut multiple = AspxIntervalParams::fixfix(2);
    multiple.num_noise = 1;
    assert_eq!(
        AspxInterval::derive(&multiple, 16, 1, true, 16),
        Err(FrameError::NoiseEnvelopeCountMismatch { num_env: 2, num_noise: 1, expected: 2 })
    );
}

#[test]
fn duration_threshold_matches_the_floating_point_definition() {
    for &(slots, _, _, _) in &TAB_BORDER {
        for span in 0i16..=24 {
            let exact = f64::from(span) > f64::from(slots) / 6.0 + 3.25;
            let threshold = i32::from(slots).saturating_mul(2).saturating_add(39);
            let integer = i32::from(span).saturating_mul(12) > threshold;
            assert_eq!(integer, exact, "{slots} slots, span {span}");
        }
    }
}

#[test]
fn duration_mode_marks_long_envelopes_as_high_resolution() {
    let params = AspxIntervalParams::fixfix(1);
    // One envelope of 16 slots spans more than 16 / 6 + 3.25.
    let Ok(long) = AspxInterval::derive(&params, 16, 2, true, 16) else {
        panic!("the interval exists");
    };
    assert_eq!(long.freq_res(0), Some(true));

    // Four envelopes span four slots each.
    let short = AspxIntervalParams::fixfix(4);
    let Ok(interval) = AspxInterval::derive(&short, 16, 2, true, 16) else {
        panic!("the interval exists");
    };
    for atsg in 0..4 {
        assert_eq!(interval.freq_res(atsg), Some(false), "envelope {atsg}");
    }
}

#[test]
fn noise_mid_border_follows_table_193() {
    assert_eq!(noise_mid_border(IntervalClass::VarFix, -1, 4), 1);
    assert_eq!(noise_mid_border(IntervalClass::VarFix, 2, 4), 3);
    assert_eq!(noise_mid_border(IntervalClass::FixVar, -1, 4), 3);
    assert_eq!(noise_mid_border(IntervalClass::VarVar, 0, 4), 1);
    assert_eq!(noise_mid_border(IntervalClass::VarVar, 2, 4), 2);
    assert_eq!(noise_mid_border(IntervalClass::VarVar, 9, 4), 3);
}

#[test]
fn rejects_timeslot_counts_outside_table_194() {
    let params = AspxIntervalParams::fixfix(1);
    for slots in [0u8, 5, 7, 9, 14, 17, 32] {
        assert_eq!(
            AspxInterval::derive(&params, slots, 1, true, 16),
            Err(FrameError::UnsupportedTimeslots { num_aspx_timeslots: slots })
        );
    }
}

#[test]
fn rejects_fixfix_envelope_counts_absent_from_table_194() {
    let num_env = 3u8;
    let params = AspxIntervalParams::fixfix(num_env);
    assert_eq!(
        AspxInterval::derive(&params, 16, 1, true, 16),
        Err(FrameError::UnsupportedFixfixEnvelopes { num_env })
    );
}

#[test]
fn empty_interval_exposes_no_borders() {
    let interval = AspxInterval::empty();
    assert_eq!(interval.num_atsg_sig(), 0);
    assert_eq!(interval.num_atsg_noise(), 0);
    for index in [0, 1] {
        assert_eq!(interval.sig_border(index), None);
        assert_eq!(interval.noise_border(index), None);
        assert_eq!(interval.freq_res(index), None);
    }
}

#[test]
fn every_frame_length_has_a_consistent_layout() {
    for frame_len_base in FRAME_LENGTHS {
        let qmf = num_qmf_timeslots(frame_len_base).expect("legal length");
        let factor = num_ts_in_ats(frame_len_base).expect("legal length");
        let slots = num_aspx_timeslots(frame_len_base).expect("legal length");
        assert_eq!(u16::from(qmf) * 64, frame_len_base);
        assert_eq!(slots * factor, qmf);
        assert_eq!(ts_offset_hfgen(frame_len_base), Some(3 * factor));
        assert_eq!(qmf_timeslots_for_aspx_layout(slots, factor), Some(qmf));
    }
    for frame_len_base in [0u16, 64, 640, 2047, 2049, 4096] {
        assert_eq!(num_qmf_timeslots(frame_len_base), None);
        assert_eq!(num_ts_in_ats(frame_len_base), None);
        assert_eq!(num_aspx_timeslots(frame_len_base), None);
        assert_eq!(ts_offset_hfgen(frame_len_base), None);
    }
    assert_eq!(qmf_timeslots_for_aspx_layout(8, 2), None);
    assert_eq!(qmf_timeslots_for_aspx_layout(12, 1), Some(12));
    assert_eq!(qmf_timeslots_for_aspx_layout(12, 2), Some(24));
    assert_eq!(qmf_timeslots_for_aspx_layout(16, 3), None);
}

#[test]
fn fixed_borders_are_looked_up() {
    assert_eq!(tab_border(16, 4), Ok([0u8, 4, 8, 12, 16].as_slice()));
    assert_eq!(tab_border(6, 2), Ok([0u8, 3, 6].as_slice()));
    assert_eq!(
        tab_border(16, 3),
        Err(FrameError::UnsupportedFixfixEnvelopes { num_env: 3 })
    );
    assert_eq!(
        tab_border(7, 3),
        Err(FrameError::UnsupportedTimeslots { num_aspx_timeslots: 7 })
    );
}

#[test]
fn too_many_relative_borders_are_reported() {
    let mut params = AspxIntervalParams::fixfix(5);
    params.int_class = IntervalClass::VarVar;
    params.var_bord_left = Some(0);
    params.var_bord_right = Some(0);
    params.num_rel_left = 4;
    assert_eq!(
        AspxInterval::derive(&params, 16, 1, true, 16),
        Err(FrameError::TooManyRelativeBorders { count: 4 })
    );
}

#[test]
fn an_interval_before_its_frame_is_reported() {
    let mut params = AspxIntervalParams::fixfix(1);
    params.int_class = IntervalClass::VarFix;
    // The previous interval stopped two slots before the end of its frame.
    assert_eq!(
        AspxInterval::derive(&params, 16, 1, false, 14),
        Err(FrameError::NegativeStartBorder { border: -2 })
    );
}

#[test]
fn the_first_pair_of_crossed_borders_is_named() {
    let mut params = AspxIntervalParams::fixfix(2);
    params.int_class = IntervalClass::VarVar;
    params.var_bord_left = Some(0);
    params.var_bord_right = Some(0);
    params.num_rel_left = 1;
    params.rel_bord_left = [8, 0, 0];
    assert_eq!(
        AspxInterval::derive(&params, 6, 1, true, 6),
        Err(FrameError::BordersNotIncreasing { index: 1 })
    );
}

#[test]
fn no_envelope_at_all_is_reported() {
    let params = AspxIntervalParams::fixfix(0);
    assert_eq!(
        AspxInterval::derive(&params, 16, 1, true, 16),
        Err(FrameError::TooManyEnvelopes { num_env: 0, limit: 4 })
    );
}

#[test]
fn consecutive_intervals_join() {
    let mut right = AspxIntervalParams::fixfix(1);
    right.int_class = IntervalClass::FixVar;
    right.var_bord_right = Some(3);
    let first = AspxInterval::derive(&right, 16, 1, true, 16).expect("interval");
    assert_eq!(first.stop_pos(), 19);

    let mut left = AspxIntervalParams::fixfix(1);
    left.int_class = IntervalClass::VarFix;
    let second = AspxInterval::derive(&left, 16, 1, false, first.stop_pos()).expect("interval");
    assert_eq!(second.sig_border(0), Some(first.stop_pos() - 16));
    assert_eq!(second.source_num_aspx_timeslots(), 16);
}

#[test]
fn intervals_are_compared_by_content() {
    let one = AspxInterval::derive(&AspxIntervalParams::fixfix(1), 16, 1, true, 16).expect("one");
    let two = AspxInterval::derive(&AspxIntervalParams::fixfix(2), 16, 1, true, 16).expect("two");
    let high = AspxInterval::derive(&AspxIntervalParams::fixfix(1), 16, 3, true, 16).expect("high");
    assert!(one.same_as(&one));
    assert!(!one.same_as(&two));
    assert!(!one.same_as(&high));
}

#[test]
fn as_many_relative_borders_as_envelopes_move_one_end() {
    // One on the left: it takes the place of the right end.
    let mut left = AspxIntervalParams::fixfix(1);
    left.int_class = IntervalClass::VarFix;
    left.num_rel_left = 1;
    left.rel_bord_left = [4, 0, 0];
    let interval = AspxInterval::derive(&left, 16, 1, false, 18).expect("interval");
    assert_eq!((interval.sig_border(0), interval.sig_border(1)), (Some(2), Some(6)));
    assert_eq!((interval.noise_border(0), interval.noise_border(1)), (Some(2), Some(16)));

    // One on the right: it takes the place of the left end.
    let mut right = AspxIntervalParams::fixfix(1);
    right.int_class = IntervalClass::VarVar;
    right.var_bord_right = Some(1);
    right.num_rel_right = 1;
    right.rel_bord_right = [4, 0, 0];
    let interval = AspxInterval::derive(&right, 16, 1, false, 18).expect("interval");
    assert_eq!((interval.sig_border(0), interval.sig_border(1)), (Some(13), Some(17)));
    assert_eq!((interval.noise_border(0), interval.noise_border(1)), (Some(2), Some(17)));
}
