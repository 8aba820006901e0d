use aspx::bands::AspxBandTables;
use aspx::hfgen::{plan_generation, GenerationInput, HfGenError, HfSource, TS_OFFSET_HFADJ};
use aspx::patches::PatchTable;
use aspx::tables::MAX_SBG_NOISE;

const N: usize = 8;
const HFGEN: usize = 3;

fn single_patch(start: u8, num: u8, sbx: u8) -> PatchTable {
    PatchTable::from_parts(&[num], &[start], sbx)
}

/// One timeslot of a short low band, with filters for `filters` subbands.
fn input(filters: u8, chirps: usize) -> GenerationInput {
    GenerationInput {
        first: 2,
        last: 3,
        out_slots: 1,
        extended_slots: TS_OFFSET_HFADJ + N + HFGEN,
        filters,
        chirps,
        gains: None,
    }
}

#[test]
fn the_noise_envelope_index_follows_the_high_subband_not_the_source() {
    let sbx = 20u8;
    let patches = single_patch(4, 4, sbx);
    // The border at 22 lies in the middle of the patch.
    let steps = plan_generation(&input(8, 2), &patches, &[sbx, 22, 63]).expect("a plan");
    assert_eq!(steps.len(), 4);
    for (sb, step) in steps.iter().enumerate() {
        let sb_high = usize::from(sbx) + sb;
        let group = if sb_high < 22 { 0 } else { 1 };
        assert_eq!(*step, HfSource { sb_high, source: 4 + sb, group }, "subband {sb_high}");
    }
}

#[test]
fn consecutive_patches_stack_without_gaps_or_overlap() {
    let sbx = 20u8;
    let patches = PatchTable::from_parts(&[2, 3], &[6, 1], sbx);
    let steps = plan_generation(&input(10, 1), &patches, &[sbx, 63]).expect("a plan");
    let expected = [6usize, 7, 1, 2, 3];
    assert_eq!(steps.len(), expected.len(), "nothing is written outside the patches");
    for (offset, &source) in expected.iter().enumerate() {
        assert_eq!(steps[offset].sb_high, usize::from(sbx) + offset);
        assert_eq!(steps[offset].source, source, "subband {}", usize::from(sbx) + offset);
    }
}

#[test]
fn hfgen_rejected_input_leaves_the_output_untouched() {
    let sbx = 20u8;
    let patches = single_patch(4, 2, sbx);
    let borders = [sbx, 63];
    let mut empty = input(8, 1);
    empty.first = 3;
    assert_eq!(
        plan_generation(&empty, &patches, &borders),
        Err(HfGenError::EmptyInterval { first: 3, last: 3 })
    );
    let mut length = input(8, 1);
    length.first = 0;
    length.last = 4;
    assert_eq!(
        plan_generation(&length, &patches, &borders),
        Err(HfGenError::OutputLengthMismatch { expected: 4, provided: 1 })
    );
    assert_eq!(
        plan_generation(&input(4, 1), &patches, &borders),
        Err(HfGenError::SourceWithoutFilter { source: 4, filters: 4 })
    );
    let mut overflow = input(8, 1);
    overflow.first = usize::MAX - 1;
    overflow.last = usize::MAX;
    assert_eq!(
        plan_generation(&overflow, &patches, &borders),
        Err(HfGenError::IntervalOutOfRange {
            last: usize::MAX,
            available: TS_OFFSET_HFADJ + N + HFGEN
        })
    );
}

#[test]
fn noise_table_errors_are_precise_and_atomic() {
    let sbx = 20u8;
    let patches = single_patch(4, 2, sbx);
    let expect = |chirps: usize, borders: &[u8], expected: HfGenError| {
        assert_eq!(plan_generation(&input(8, chirps), &patches, borders), Err(expected));
    };

    expect(0, &[], HfGenError::NoiseGroupCountOutOfRange { groups: 0 });
    expect(0, &[sbx], HfGenError::NoiseGroupCountOutOfRange { groups: 0 });

    let mut too_many_borders = [0u8; MAX_SBG_NOISE as usize + 2];
    for (offset, border) in too_many_borders.iter_mut().enumerate() {
        *border = sbx + u8::try_from(offset).expect("a small count");
    }
    expect(
        MAX_SBG_NOISE as usize + 1,
        &too_many_borders,
        HfGenError::NoiseGroupCountOutOfRange { groups: MAX_SBG_NOISE as usize + 1 },
    );

    expect(2, &[sbx, 63], HfGenError::ChirpCountMismatch { groups: 1, provided: 2 });
    expect(
        2,
        &[sbx, sbx, 63],
        HfGenError::NoiseBordersNotIncreasing { index: 1, previous: sbx, current: sbx },
    );
}

#[test]
fn a_crossover_disagreement_between_the_two_tables_is_rejected() {
    let patches = single_patch(4, 2, 20);
    assert_eq!(
        plan_generation(&input(8, 1), &patches, &[21, 63]),
        Err(HfGenError::CrossoverMismatch { patches: 20, noise: 21 })
    );
}

#[test]
fn a_source_beyond_the_available_filters_is_rejected() {
    let sbx = 20u8;
    let patches = single_patch(6, 4, sbx);
    assert_eq!(
        plan_generation(&input(8, 1), &patches, &[sbx, 63]),
        Err(HfGenError::SourceWithoutFilter { source: 8, filters: 8 })
    );
}

#[test]
fn a_source_without_a_gain_is_reported() {
    let sbx = 20u8;
    let patches = single_patch(4, 2, sbx);
    let mut flattened = input(8, 1);
    flattened.gains = Some(5);
    assert_eq!(
        plan_generation(&flattened, &patches, &[sbx, 63]),
        Err(HfGenError::MissingGain { source: 5 })
    );
    flattened.gains = Some(6);
    assert!(plan_generation(&flattened, &patches, &[sbx, 63]).is_ok());
}

#[test]
fn a_patch_past_the_highest_subband_is_reported() {
    let patches = single_patch(4, 3, 62);
    assert_eq!(
        plan_generation(&input(8, 1), &patches, &[62, 63]),
        Err(HfGenError::SubbandOutOfRange { sb_high: 64 })
    );
}

#[test]
fn legal_tables_have_a_plan_that_is_consecutive() {
    for scale in [false, true] {
        for start in 0u8..8 {
            let Ok(bands) = AspxBandTables::derive(scale, start, 1, 2, 3) else {
                continue;
            };
            let patches = PatchTable::derive(&bands, scale, true).expect("patches");
            let borders: Vec<u8> =
                (0..).map_while(|index| bands.noise_border(index)).collect();
            let steps = plan_generation(
                &input(bands.sba(), usize::from(bands.num_sbg_noise())),
                &patches,
                &borders,
            )
            .expect("a plan");
            for (offset, step) in steps.iter().enumerate() {
                assert_eq!(step.sb_high, usize::from(bands.sbx()) + offset);
                assert!(step.source < usize::from(bands.sba()));
                assert!(usize::from(borders[step.group]) <= step.sb_high);
                assert!(step.sb_high < usize::from(borders[step.group + 1]));
            }
        }
    }
}
