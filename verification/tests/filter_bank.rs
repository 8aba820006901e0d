use aspx::preflatten::{check_range, PreFlattenError, ORDER};
use aspx::qmf::{
    advance_synthesis, check_lengths, feed_analysis, modulation, synthesis_tap, QmfError, FOLDED,
    NUM_QMF_WIN_COEF, SUBBANDS, SYNTH_STATE,
};

#[test]
fn synthesis_phase_rows_form_exact_negated_conjugate_pairs() {
    for n in 0..SUBBANDS {
        for sb in 0..SUBBANDS {
            let root = modulation(sb, 2 * n as i32 + 1);
            let low = modulation(sb, 2 * n as i32 - 255);
            let high = modulation(sb, 2 * (FOLDED - 1 - n) as i32 - 255);
            // Half a turn negates both parts; the negative angle only the imaginary one.
            assert_eq!(low, (root + 256) % 512);
            assert_eq!(high, (512 - root) % 512);
        }
    }
}

#[test]
fn invalid_lengths_are_rejected_without_touching_state() {
    assert_eq!(check_lengths(100, 2), Err(QmfError::UnalignedInput { samples: 100 }));
    assert_eq!(
        check_lengths(3 * SUBBANDS, 2),
        Err(QmfError::SlotCountMismatch { expected: 3, provided: 2 })
    );
    assert_eq!(check_lengths(2 * SUBBANDS, 2), Ok(2));
    assert_eq!(check_lengths(0, 0), Ok(0));
}

#[test]
fn the_analysis_line_holds_the_newest_samples() {
    let mut line = [0usize; NUM_QMF_WIN_COEF];
    let samples: Vec<usize> = (1..=12 * SUBBANDS).collect();
    for block in samples.chunks(SUBBANDS) {
        feed_analysis(&mut line, block);
    }
    for (age, &value) in line.iter().enumerate() {
        assert_eq!(value, samples[samples.len() - 1 - age]);
    }
}

#[test]
fn the_synthesis_line_moves_by_one_block() {
    let mut line = [0usize; SYNTH_STATE];
    for (index, slot) in line.iter_mut().enumerate() {
        *slot = index;
    }
    advance_synthesis(&mut line);
    for index in 0..FOLDED {
        assert_eq!(line[index], index);
    }
    for index in FOLDED..SYNTH_STATE {
        assert_eq!(line[index], index - FOLDED);
    }
}

#[test]
fn synthesis_taps_alternate_between_runs() {
    let starts: Vec<usize> = (0..10).map(|run| synthesis_tap(run, 0)).collect();
    assert_eq!(starts, [0, 192, 256, 448, 512, 704, 768, 960, 1024, 1216]);
    assert_eq!(synthesis_tap(9, 63), SYNTH_STATE - 1);
}

#[test]
fn phases_are_odd_points_of_the_circle() {
    for sb in 0..SUBBANDS {
        for n in 0..FOLDED {
            assert_eq!(modulation(sb, 2 * n as i32 - 1) % 2, 1);
        }
    }
    assert_eq!(modulation(0, -1), 511);
    assert_eq!(modulation(63, 255), (127 * 255) % 512);
}

#[test]
fn flattening_ranges_are_checked() {
    assert_eq!(
        check_range(ORDER, 0, 6, 6),
        Err(PreFlattenError::UnsupportedCrossover { sbx: ORDER }),
        "a cubic needs four points"
    );
    assert_eq!(
        check_range(SUBBANDS + 1, 0, 6, 6),
        Err(PreFlattenError::UnsupportedCrossover { sbx: SUBBANDS + 1 })
    );
    assert_eq!(
        check_range(20, 3, 3, 6),
        Err(PreFlattenError::EmptyInterval { first: 3, last: 3 })
    );
    assert_eq!(
        check_range(20, 0, 9, 6),
        Err(PreFlattenError::IntervalTooShort { needed: 9, provided: 6 })
    );
    assert_eq!(check_range(ORDER + 1, 0, 5, 5), Ok(5));
    assert_eq!(check_range(20, 2, 6, 6), Ok(4));
}
