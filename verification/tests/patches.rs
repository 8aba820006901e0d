use aspx::bands::AspxBandTables;
use aspx::patches::{PatchError, PatchTable};

type PatchAnchor =
    (bool, u8, u8, u8, bool, &'static [u8], &'static [u8], &'static [u8]);

/// Scale, start, stop, crossover and rate, with the widths, sources and borders that
/// go with them.
const PATCH_ANCHORS: &[PatchAnchor] = &[
    (false, 0, 0, 0, false, &[8, 8, 6, 6, 8], &[2, 2, 4, 4, 2], &[10, 18, 26, 32, 38, 46]),
    (false, 0, 0, 7, false, &[1, 8, 6, 6, 8], &[9, 2, 4, 4, 2], &[17, 18, 26, 32, 38, 46]),
    (false, 0, 0, 7, true, &[1, 8, 6, 6, 8], &[9, 2, 4, 4, 2], &[17, 18, 26, 32, 38, 46]),
    (false, 0, 1, 0, false, &[8, 8, 6, 6], &[2, 2, 4, 4], &[10, 18, 26, 32, 38]),
    (false, 0, 1, 7, false, &[1, 8, 6, 6], &[9, 2, 4, 4], &[17, 18, 26, 32, 38]),
    (false, 0, 2, 0, false, &[8, 8, 6], &[2, 2, 4], &[10, 18, 26, 32]),
    (false, 0, 3, 0, false, &[8, 8], &[2, 2], &[10, 18, 26]),
    (false, 2, 3, 0, false, &[12], &[2], &[14, 26]),
    (true, 0, 0, 0, false, &[14, 12, 3, 12, 3], &[4, 6, 14, 5, 15], &[18, 32, 44, 47, 59, 62]),
    (true, 0, 0, 0, true, &[14, 12, 12, 6], &[4, 6, 6, 12], &[18, 32, 44, 56, 62]),
    (true, 0, 0, 1, false, &[13, 12, 3, 12, 3], &[5, 6, 14, 5, 15], &[19, 32, 44, 47, 59, 62]),
    (true, 0, 0, 1, true, &[13, 12, 12, 6], &[5, 6, 6, 12], &[19, 32, 44, 56, 62]),
    (true, 0, 0, 2, false, &[12, 12, 3, 12, 3], &[6, 6, 14, 5, 15], &[20, 32, 44, 47, 59, 62]),
    (true, 0, 0, 2, true, &[12, 12, 12, 6], &[6, 6, 6, 12], &[20, 32, 44, 56, 62]),
    (true, 0, 0, 3, false, &[11, 12, 3, 12, 3], &[7, 6, 14, 5, 15], &[21, 32, 44, 47, 59, 62]),
    (true, 0, 0, 3, true, &[11, 12, 12, 6], &[7, 6, 6, 12], &[21, 32, 44, 56, 62]),
    (true, 0, 1, 0, true, &[14, 12, 12], &[4, 6, 6], &[18, 32, 44, 56]),
    (true, 0, 3, 0, false, &[14, 12], &[4, 6], &[18, 32, 44]),
    (true, 3, 3, 0, false, &[20], &[4], &[24, 44]),
    (true, 5, 0, 6, true, &[18], &[14], &[44, 62]),
    (true, 5, 0, 7, false, &[15], &[17], &[47, 62]),
    (true, 5, 0, 7, true, &[15], &[17], &[47, 62]),
    (false, 3, 3, 7, false, &[2], &[14], &[26, 28]),
    (false, 3, 3, 7, true, &[2], &[14], &[26, 28]),
    (false, 4, 2, 7, false, &[2], &[16], &[30, 32]),
];

const PATCH_SWEEP_FNV64: u64 = 0x8f35_1fb5_db6a_0de2;
const CONFIGURATION_COUNT: usize = 904;
const FNV64_OFFSET_BASIS: u64 = 0xcbf2_9ce4_8422_2325;
const FNV64_PRIME: u64 = 0x0000_0100_0000_01b3;

fn hash_byte(digest: &mut u64, value: u8) {
    *digest ^= u64::from(value);
    *digest = digest.wrapping_mul(FNV64_PRIME);
}

fn hash_configuration(
    digest: &mut u64,
    master_freq_scale: bool,
    start_freq: u8,
    stop_freq: u8,
    xover: u8,
    base_samp_freq_48: bool,
    patches: PatchTable,
) {
    for value in [
        u8::from(master_freq_scale),
        start_freq,
        stop_freq,
        xover,
        u8::from(base_samp_freq_48),
        patches.count(),
    ] {
        hash_byte(digest, value);
    }
    for index in 0..usize::from(patches.count()) {
        hash_byte(digest, patches.num_sb(index).expect("a patch has a width"));
        hash_byte(digest, patches.start_sb(index).expect("a patch has a source"));
    }
    for index in 0..=usize::from(patches.count()) {
        hash_byte(digest, patches.border(index).expect("a patch has a border"));
    }
    // Every field is below 255, which therefore ends a configuration.
    hash_byte(digest, u8::MAX);
}

/// Runs `check` on the patch table of every legal configuration.
fn for_every_configuration(mut check: impl FnMut(&AspxBandTables, bool, bool, PatchTable)) {
    let mut seen = 0usize;
    for master_freq_scale in [false, true] {
        for start_freq in 0..8 {
            for stop_freq in 0..4 {
                for xover in 0..8 {
                    let Ok(tables) =
                        AspxBandTables::derive(master_freq_scale, start_freq, stop_freq, 0, xover)
                    else {
                        continue;
                    };
                    for base_samp_freq_48 in [false, true] {
                        let patches =
                            PatchTable::derive(&tables, master_freq_scale, base_samp_freq_48)
                                .expect("legal tables have patches");
                        check(&tables, master_freq_scale, base_samp_freq_48, patches);
                        seen += 1;
                    }
                }
            }
        }
    }
    assert!(seen > 100, "only {seen} configurations were visited");
}

#[test]
fn the_anchor_table_is_reproduced_exactly() {
    for &(scale, start_freq, stop_freq, xover, base_48, nums, starts, borders) in PATCH_ANCHORS {
        let tables = AspxBandTables::derive(scale, start_freq, stop_freq, 0, xover)
            .expect("the configuration has tables");
        let patches = PatchTable::derive(&tables, scale, base_48).expect("the tables have patches");
        assert_eq!(
            usize::from(patches.count()),
            nums.len(),
            "scale={scale} start={start_freq} stop={stop_freq} xover={xover} f48={base_48}"
        );
        for (index, &want) in nums.iter().enumerate() {
            assert_eq!(
                patches.num_sb(index),
                Some(want),
                "num_sb[{index}]: scale={scale} start={start_freq} stop={stop_freq} xover={xover} f48={base_48}"
            );
        }
        for (index, &want) in starts.iter().enumerate() {
            assert_eq!(
                patches.start_sb(index),
                Some(want),
                "start_sb[{index}]: scale={scale} start={start_freq} stop={stop_freq} xover={xover} f48={base_48}"
            );
        }
        for (index, &want) in borders.iter().enumerate() {
            assert_eq!(
                patches.border(index),
                Some(want),
                "border[{index}]: scale={scale} start={start_freq} stop={stop_freq} xover={xover} f48={base_48}"
            );
        }
    }
}

#[test]
fn the_full_sweep_matches_the_independent_reference_digest() {
    let mut digest = FNV64_OFFSET_BASIS;
    let mut seen = 0usize;
    for master_freq_scale in [false, true] {
        for start_freq in 0..8 {
            for stop_freq in 0..4 {
                for xover in 0..8 {
                    let Ok(tables) =
                        AspxBandTables::derive(master_freq_scale, start_freq, stop_freq, 0, xover)
                    else {
                        continue;
                    };
                    for base_samp_freq_48 in [false, true] {
                        let patches =
                            PatchTable::derive(&tables, master_freq_scale, base_samp_freq_48)
                                .expect("legal tables have patches");
                        hash_configuration(
                            &mut digest,
                            master_freq_scale,
                            start_freq,
                            stop_freq,
                            xover,
                            base_samp_freq_48,
                            patches,
                        );
                        seen += 1;
                    }
                }
            }
        }
    }

    assert_eq!(seen, CONFIGURATION_COUNT, "the number of legal configurations");
    assert_eq!(digest, PATCH_SWEEP_FNV64, "the digest of all patch tables");
}

#[test]
fn every_patch_source_stays_inside_the_low_band() {
    for_every_configuration(|tables, _, _, patches| {
        for index in 0..usize::from(patches.count()) {
            let start = u16::from(patches.start_sb(index).expect("a patch has a source"));
            let num = u16::from(patches.num_sb(index).expect("a patch has a width"));
            let sba = u16::from(tables.sba());
            assert!(
                start + num <= sba,
                "patch {index} copies [{start}, {}) past sba = {sba}",
                start + num
            );
        }
    });
}

#[test]
fn every_patch_is_nonempty_and_within_the_count_limit() {
    const MAX_PATCHES: u8 = 5;
    for_every_configuration(|_, _, _, patches| {
        assert!(patches.count() <= MAX_PATCHES, "too many patches");
        for index in 0..usize::from(patches.count()) {
            assert!(
                patches.num_sb(index).expect("a patch has a width") > 0,
                "patch {index} is empty"
            );
        }
    });
}

#[test]
fn the_borders_start_at_the_crossover_and_accumulate_the_segments() {
    for_every_configuration(|tables, _, _, patches| {
        assert_eq!(patches.border(0), Some(tables.sbx()), "the first border is sbx");
        let mut running = tables.sbx();
        for index in 0..usize::from(patches.count()) {
            running = running.saturating_add(patches.num_sb(index).expect("a patch has a width"));
            assert_eq!(
                patches.border(index + 1),
                Some(running),
                "border {} is a prefix sum",
                index + 1
            );
        }
        // A dropped last patch leaves the top border strictly below.
        assert!(running <= tables.sbz(), "a border is past sbz");
    });
}

#[test]
fn the_borders_are_strictly_increasing() {
    for_every_configuration(|_, _, _, patches| {
        for index in 0..usize::from(patches.count()) {
            let low = patches.border(index).expect("the border exists");
            let high = patches.border(index + 1).expect("the border exists");
            assert!(low < high, "{low} is followed by {high}");
        }
    });
}

#[test]
fn accessors_reject_indices_past_the_end() {
    for_every_configuration(|_, _, _, patches| {
        let count = usize::from(patches.count());
        assert_eq!(patches.num_sb(count), None);
        assert_eq!(patches.start_sb(count), None);
        // There is one border more than there are patches.
        assert!(patches.border(count).is_some());
        assert_eq!(patches.border(count + 1), None);
    });
}

#[test]
fn the_sampling_rate_only_matters_when_its_goal_falls_inside_the_range() {
    const GOAL_48: u8 = 43;
    const GOAL_441: u8 = 46;
    let mut differing = 0usize;
    let mut identical_above = 0usize;
    for_every_configuration(|tables, scale, base_48, patches| {
        if !base_48 {
            return;
        }
        let other = PatchTable::derive(tables, scale, false).expect("legal tables have patches");
        if tables.sbz() <= GOAL_48.min(GOAL_441) {
            assert_eq!(patches, other, "neither goal is inside the range");
            identical_above += 1;
        } else if patches != other {
            differing += 1;
        }
    });
    assert!(identical_above > 0, "some range is below both goals");
    assert!(differing > 0, "some table depends on the sampling rate");
}

#[test]
fn a_table_is_assembled_from_parts() {
    let table = PatchTable::from_parts(&[3, 4], &[2, 1], 10);
    assert_eq!(table.count(), 2);
    assert_eq!([table.num_sb(0), table.num_sb(1), table.num_sb(2)], [Some(3), Some(4), None]);
    assert_eq!([table.start_sb(0), table.start_sb(1)], [Some(2), Some(1)]);
    assert_eq!(
        [table.border(0), table.border(1), table.border(2), table.border(3)],
        [Some(10), Some(13), Some(17), None]
    );
}

#[test]
fn tables_that_were_never_derived_have_no_source() {
    assert_eq!(
        PatchTable::derive(&AspxBandTables::empty(), true, true),
        Err(PatchError::SourceExhausted { sba: 0, source_band_low: 4 })
    );
}

#[test]
fn the_lowest_subbands_are_never_copied() {
    for_every_configuration(|_, scale, _, patches| {
        let lowest = if scale { 4 } else { 2 };
        for index in 0..usize::from(patches.count()) {
            assert!(
                patches.start_sb(index).expect("a patch has a source") >= lowest,
                "patch {index} copies one of the lowest subbands"
            );
        }
    });
}

#[test]
fn fewer_than_three_subbands_stay_uncovered() {
    let mut short = 0;
    for_every_configuration(|tables, _, _, patches| {
        let top = patches.border(usize::from(patches.count())).expect("the border exists");
        assert!(tables.sbz() - top < 3, "the patches end at {top}");
        if top < tables.sbz() {
            short += 1;
        }
    });
    assert!(short > 0, "a narrow last patch is dropped somewhere");
}

#[test]
fn patch_tables_are_compared_by_their_contents() {
    let tables = AspxBandTables::derive(true, 0, 0, 0, 0).expect("the tables exist");
    let low = PatchTable::derive(&tables, true, false).expect("the patches exist");
    let high = PatchTable::derive(&tables, true, true).expect("the patches exist");
    assert!(low.same_as(&low));
    assert!(!low.same_as(&high), "the goals differ");
}
