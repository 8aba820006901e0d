use aspx::bands::AspxBandTables;
use aspx::hfgain::{
    noise_counts_in_boost, noise_terms, plan_adjustment, EstimateShape, GainError, LimiterMode,
    NoiseTerms, MAX_SBG_LIM,
};
use aspx::patches::PatchTable;

/// Limiter borders of [`bands`].
const BORDERS: [u8; 7] = [10, 12, 18, 26, 32, 38, 46];

fn bands() -> AspxBandTables {
    AspxBandTables::derive(false, 0, 0, 0, 0).expect("the tables exist")
}

fn patches(bands: &AspxBandTables) -> PatchTable {
    PatchTable::derive(bands, false, false).expect("the patches exist")
}

fn shape(source: &AspxBandTables) -> EstimateShape<'_> {
    EstimateShape { envelopes: 1, subbands: source.num_sb_aspx(), source_bands: source }
}

/// A limiter that was made with the tables and patches that are in use.
fn limiter<'a>(
    borders: &'a [u8],
    bands: &'a AspxBandTables,
    patches: &'a PatchTable,
) -> LimiterMode<'a> {
    LimiterMode::On { borders, source_bands: bands, source_patches: patches, patches }
}

#[test]
fn the_fixture_has_the_layout_the_other_criteria_assume() {
    let bands = bands();
    assert_eq!(bands.sbx(), 10);
    assert_eq!(usize::from(bands.num_sb_aspx()), 36);
    assert_eq!(bands.sig_highres_border(0), Some(10));
    assert_eq!(bands.sig_highres_border(1), Some(11));
    assert_eq!(bands.sig_highres_border(2), Some(12));
}

#[test]
fn a_same_width_foreign_band_layout_is_rejected() {
    let a = AspxBandTables::derive(false, 0, 1, 0, 6).expect("tables a");
    let b = AspxBandTables::derive(false, 0, 2, 0, 0).expect("tables b");
    assert_eq!(a.num_sb_aspx(), 22);
    assert_eq!(b.num_sb_aspx(), 22);
    assert_eq!(a.sbx(), 16);
    assert_eq!(b.sbx(), 10);
    let patches = patches(&b);
    let mode = limiter(&[10, 12, 18, 26, 32], &b, &patches);
    assert_eq!(plan_adjustment(shape(&a), &b, mode), Err(GainError::BandLayoutMismatch));
}

#[test]
fn a_limiter_from_another_patch_layout_is_rejected() {
    let bands = AspxBandTables::derive(true, 0, 0, 0, 0).expect("the tables exist");
    let patches_44 = PatchTable::derive(&bands, true, false).expect("patches at 44.1 kHz");
    let patches_48 = PatchTable::derive(&bands, true, true).expect("patches at 48 kHz");
    assert_ne!(patches_44, patches_48);
    let borders = [18u8, 32, 44, 47, 59, 62];
    let mode = LimiterMode::On {
        borders: &borders,
        source_bands: &bands,
        source_patches: &patches_44,
        patches: &patches_48,
    };
    assert_eq!(
        plan_adjustment(shape(&bands), &bands, mode),
        Err(GainError::LimiterSourceMismatch)
    );
}

#[test]
fn a_limiter_from_a_noise_only_foreign_band_layout_is_rejected() {
    let source = AspxBandTables::derive(false, 0, 0, 0, 0).expect("the source tables");
    let current = AspxBandTables::derive(false, 0, 0, 1, 0).expect("the current tables");
    assert_ne!(source, current);
    assert_eq!(source.num_sbg_noise(), 1);
    assert_eq!(current.num_sbg_noise(), 2);
    let source_patches = PatchTable::derive(&source, false, false).expect("patches");
    let current_patches = PatchTable::derive(&current, false, false).expect("patches");
    assert_eq!(source_patches, current_patches);
    let mode = LimiterMode::On {
        borders: &BORDERS,
        source_bands: &source,
        source_patches: &source_patches,
        patches: &current_patches,
    };
    assert_eq!(
        plan_adjustment(shape(&current), &current, mode),
        Err(GainError::LimiterSourceMismatch)
    );
}

#[test]
fn hfgain_rejected_input_leaves_the_output_untouched() {
    let bands = bands();
    let other = AspxBandTables::derive(false, 1, 0, 0, 0).expect("the tables exist");
    assert_eq!(other.num_sb_aspx(), 34);
    let other_borders = [12u8, 18, 26, 32, 38, 46];
    let other_patches = patches(&other);
    let other_mode = limiter(&other_borders, &other, &other_patches);

    assert_eq!(
        plan_adjustment(shape(&bands), &bands, other_mode),
        Err(GainError::LimiterRangeMismatch { first: 12, last: 46, sbx: 10, num_sb_aspx: 36 })
    );
    assert_eq!(
        plan_adjustment(shape(&bands), &other, other_mode),
        Err(GainError::SubbandCountMismatch { estimate: 36, bands: 34 })
    );
    let no_bands = AspxBandTables::empty();
    let empty = EstimateShape { envelopes: 0, subbands: 0, source_bands: &no_bands };
    let patches = patches(&bands);
    assert_eq!(
        plan_adjustment(empty, &bands, limiter(&BORDERS, &bands, &patches)),
        Err(GainError::EnvelopeCountOutOfRange { envelopes: 0 })
    );
}

#[test]
fn limiter_groups_cover_the_extended_range() {
    let bands = bands();
    let patches = patches(&bands);
    let groups = plan_adjustment(shape(&bands), &bands, limiter(&BORDERS, &bands, &patches))
        .expect("a plan")
        .expect("the limiter is on");
    assert_eq!(groups.len(), 36);
    for (sb, &group) in groups.iter().enumerate() {
        let subband = usize::from(bands.sbx()) + sb;
        assert!(usize::from(BORDERS[group]) <= subband && subband < usize::from(BORDERS[group + 1]));
    }
    assert_eq!(&groups[..4], &[0, 0, 1, 1]);
    assert_eq!(groups[35], 5);
    assert_eq!(plan_adjustment(shape(&bands), &bands, LimiterMode::Off), Ok(None));
}

#[test]
fn malformed_limiter_groups_are_reported() {
    let bands = bands();
    let patches = patches(&bands);
    let plan = |borders: &[u8]| {
        plan_adjustment(shape(&bands), &bands, limiter(borders, &bands, &patches))
    };
    assert_eq!(plan(&[]), Err(GainError::LimiterGroupsOutOfRange { groups: 0 }));
    assert_eq!(plan(&[10]), Err(GainError::LimiterGroupsOutOfRange { groups: 0 }));
    let many = vec![10u8; MAX_SBG_LIM + 2];
    assert_eq!(plan(&many), Err(GainError::LimiterGroupsOutOfRange { groups: MAX_SBG_LIM + 1 }));
    assert_eq!(
        plan(&[10, 20, 20, 46]),
        Err(GainError::LimiterBordersNotIncreasing { index: 2 })
    );
    let mut too_many = shape(&bands);
    too_many.envelopes = 6;
    assert_eq!(
        plan_adjustment(too_many, &bands, LimiterMode::Off),
        Err(GainError::EnvelopeCountOutOfRange { envelopes: 6 })
    );
}

#[test]
fn noise_enters_the_gains_where_it_counts() {
    let both = NoiseTerms { numerator: true, denominator: true };
    let below = NoiseTerms { numerator: false, denominator: true };
    let nowhere = NoiseTerms { numerator: false, denominator: false };
    assert_eq!(noise_terms(true, false), both);
    assert_eq!(noise_terms(true, true), both);
    assert_eq!(noise_terms(false, false), below);
    assert_eq!(noise_terms(false, true), nowhere);
    assert!(noise_counts_in_boost(false, false));
    assert!(!noise_counts_in_boost(true, false));
    assert!(!noise_counts_in_boost(false, true));
}
