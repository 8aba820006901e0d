use aspx::bands::{num_sbg_noise, AspxBandTables, BandError, MAX_SBG_SIG_LOWRES};
use aspx::tables::{sbg_template, template_group_count, MAX_SBG_NOISE};

/// Runs `body` on every combination of configuration values that has tables.
fn for_each_config(mut body: impl FnMut(bool, u8, u8, u8, u8, &AspxBandTables)) {
    for scale in [false, true] {
        for start in 0u8..=7 {
            for stop in 0u8..=3 {
                for noise in 0u8..=3 {
                    for xover in 0u8..=7 {
                        if let Ok(tables) = AspxBandTables::derive(scale, start, stop, noise, xover)
                        {
                            body(scale, start, stop, noise, xover, &tables);
                        }
                    }
                }
            }
        }
    }
}

#[test]
fn master_table_is_a_slice_of_the_template() {
    for_each_config(|scale, start, _stop, _noise, _xover, tables| {
        let template = sbg_template(scale);
        let base = usize::from(start).saturating_mul(2);
        for sbg in 0..=usize::from(tables.num_sbg_master()) {
            assert_eq!(
                tables.master_border(sbg),
                template.get(base.saturating_add(sbg)).copied(),
                "master border {sbg} comes from the template"
            );
        }
        assert_eq!(tables.master_border(0), Some(tables.sba()));
        assert_eq!(
            tables.master_border(usize::from(tables.num_sbg_master())),
            Some(tables.sbz())
        );
    });
}

#[test]
fn derived_tables_are_strictly_increasing() {
    for_each_config(|_scale, _start, _stop, _noise, _xover, tables| {
        let check = |count: u8, get: &dyn Fn(usize) -> Option<u8>, name: &str| {
            for sbg in 0..usize::from(count) {
                let (Some(low), Some(high)) = (get(sbg), get(sbg.saturating_add(1))) else {
                    panic!("{name}: entry {sbg} is missing");
                };
                assert!(low < high, "{name}: {low} is followed by {high}");
            }
        };
        check(tables.num_sbg_master(), &|i| tables.master_border(i), "master");
        check(tables.num_sbg_sig_highres(), &|i| tables.sig_highres_border(i), "high resolution");
        check(tables.num_sbg_sig_lowres(), &|i| tables.sig_lowres_border(i), "low resolution");
        check(tables.num_sbg_noise(), &|i| tables.noise_border(i), "noise");
        assert!(tables.sba() <= tables.sbx(), "the crossover is not below the master table");
        assert!(tables.sbx() < tables.sbz(), "the extension range is not empty");
    });
}

#[test]
fn derived_borders_come_from_the_master_table() {
    for_each_config(|_scale, _start, _stop, _noise, _xover, tables| {
        let in_master = |value: u8| {
            (0..=usize::from(tables.num_sbg_master())).any(|i| tables.master_border(i) == Some(value))
        };
        for sbg in 0..=usize::from(tables.num_sbg_sig_highres()) {
            let Some(border) = tables.sig_highres_border(sbg) else {
                panic!("high-resolution entry {sbg} is missing");
            };
            assert!(in_master(border), "high-resolution border {border} is not in the master table");
        }
        for sbg in 0..=usize::from(tables.num_sbg_sig_lowres()) {
            let Some(border) = tables.sig_lowres_border(sbg) else {
                panic!("low-resolution entry {sbg} is missing");
            };
            assert!(in_master(border), "low-resolution border {border} is not in the master table");
        }
        for sbg in 0..=usize::from(tables.num_sbg_noise()) {
            let Some(border) = tables.noise_border(sbg) else {
                panic!("noise entry {sbg} is missing");
            };
            assert!(in_master(border), "noise border {border} is not in the master table");
        }
        let top = tables.sig_highres_border(usize::from(tables.num_sbg_sig_highres()));
        assert_eq!(top, Some(tables.sbz()), "the high-resolution table ends at sbz");
        let low_top = tables.sig_lowres_border(usize::from(tables.num_sbg_sig_lowres()));
        assert_eq!(low_top, Some(tables.sbz()), "the low-resolution table ends at sbz");
        let noise_top = tables.noise_border(usize::from(tables.num_sbg_noise()));
        assert_eq!(noise_top, Some(tables.sbz()), "the noise table ends at sbz");
    });
}

#[test]
fn lowres_is_a_halving_of_highres() {
    for_each_config(|_scale, _start, _stop, _noise, _xover, tables| {
        let high = tables.num_sbg_sig_highres();
        let low = tables.num_sbg_sig_lowres();
        assert_eq!(
            usize::from(low),
            usize::from(high).div_ceil(2),
            "the low-resolution count is half the high-resolution one, rounded up"
        );
        assert!(low <= MAX_SBG_SIG_LOWRES as u8);
    });
}

#[test]
fn aspx_range_width_matches_the_borders() {
    for_each_config(|_scale, _start, _stop, _noise, _xover, tables| {
        assert_eq!(
            tables.num_sb_aspx(),
            tables.sbz().saturating_sub(tables.sbx()),
            "num_sb_aspx is the distance of sbz from sbx"
        );
        assert!(tables.num_sb_aspx() > 0);
    });
}

#[test]
fn noise_group_count_stays_within_the_specified_bound() {
    for_each_config(|_scale, _start, _stop, noise, _xover, tables| {
        let count = tables.num_sbg_noise();
        assert!((1..=MAX_SBG_NOISE).contains(&count), "{count} noise groups");
        if noise == 0 {
            assert_eq!(count, 1, "a zero density leaves one group");
        }
        assert!(
            count <= tables.num_sbg_sig_lowres().max(1),
            "there are no more noise groups than low-resolution groups"
        );
    });
}

#[test]
fn integer_criterion_matches_the_floating_point_definition() {
    let mut checked = 0usize;
    for noise in 0u8..=3 {
        for sbx in 1u8..=62 {
            for sbz in sbx.saturating_add(1)..=62 {
                let ratio = f64::from(sbz) / f64::from(sbx);
                let exact = f64::from(noise) * ratio.log2() + 0.5;
                let expected = {
                    let floored = exact.floor();
                    if floored < 1.0 {
                        1u32
                    } else {
                        floored as u32
                    }
                };
                let actual = num_sbg_noise(noise, sbx, sbz);
                if expected > u32::from(MAX_SBG_NOISE) {
                    assert!(actual.is_err(), "noise={noise} sbx={sbx} sbz={sbz} is out of range");
                } else {
                    assert_eq!(
                        actual.map(u32::from),
                        Ok(expected),
                        "noise={noise} sbx={sbx} sbz={sbz}"
                    );
                }
                checked = checked.saturating_add(1);
            }
        }
    }
    assert!(checked > 7_000, "only {checked} combinations were compared");
}

#[test]
fn rejects_the_degenerate_start_stop_combination() {
    assert_eq!(
        AspxBandTables::derive(false, 7, 3, 0, 0),
        Err(BandError::EmptyMasterTable { start_freq: 7, stop_freq: 3 })
    );
    // The high-resolution template has two groups more.
    assert!(AspxBandTables::derive(true, 7, 3, 0, 0).is_ok());
}

#[test]
fn rejects_crossover_at_or_past_the_master_count() {
    let Ok(tables) = AspxBandTables::derive(true, 7, 3, 0, 0) else {
        panic!("the combination has tables");
    };
    let count = tables.num_sbg_master();
    assert_eq!(
        AspxBandTables::derive(true, 7, 3, 0, count),
        Err(BandError::CrossoverOutOfRange { xover: count, num_sbg_master: count })
    );
}

#[test]
fn rejects_out_of_range_configuration_values() {
    assert_eq!(
        AspxBandTables::derive(true, 8, 0, 0, 0),
        Err(BandError::StartFrequencyOutOfRange { start_freq: 8 })
    );
    assert_eq!(
        AspxBandTables::derive(true, 0, 4, 0, 0),
        Err(BandError::StopFrequencyOutOfRange { stop_freq: 4 })
    );
    assert_eq!(
        AspxBandTables::derive(true, 0, 0, 4, 0),
        Err(BandError::NoiseSbgOutOfRange { noise_sbg: 4 })
    );
    assert_eq!(
        AspxBandTables::derive(true, 0, 0, 0, 8),
        Err(BandError::CrossoverOffsetOutOfRange { xover: 8 })
    );
}

#[test]
fn empty_tables_expose_no_borders() {
    let tables = AspxBandTables::empty();
    assert_eq!(tables.num_sbg_master(), 0);
    assert_eq!(tables.num_sbg_sig_highres(), 0);
    assert_eq!(tables.num_sbg_sig_lowres(), 0);
    assert_eq!(tables.num_sbg_noise(), 0);
    for index in [0, 1] {
        assert_eq!(tables.master_border(index), None);
        assert_eq!(tables.sig_highres_border(index), None);
        assert_eq!(tables.sig_lowres_border(index), None);
        assert_eq!(tables.noise_border(index), None);
    }
}

#[test]
fn a_known_configuration_has_known_tables() {
    let tables = AspxBandTables::derive(true, 0, 0, 1, 0).expect("legal configuration");
    assert_eq!((tables.sba(), tables.sbx(), tables.sbz()), (18, 18, 62));
    assert_eq!(tables.num_sbg_master(), 22);
    assert_eq!(tables.num_sbg_sig_highres(), 22);
    assert_eq!(tables.num_sbg_sig_lowres(), 11);
    // floor(log2(62 / 18) + 1/2) is two.
    assert_eq!(tables.num_sbg_noise(), 2);
    assert_eq!(tables.noise_border(0), Some(18));
    assert_eq!(tables.noise_border(2), Some(62));
}

#[test]
fn too_many_noise_groups_are_reported() {
    let too_many = |num_sbg_noise| BandError::TooManyNoiseGroups { num_sbg_noise, limit: 5 };
    // floor(3 * log2(62) + 1/2) is eighteen, floor(3 * log2(46 / 10) + 1/2) is seven.
    assert_eq!(num_sbg_noise(3, 1, 62), Err(too_many(18)));
    assert_eq!(num_sbg_noise(3, 10, 46), Err(too_many(7)));
    assert_eq!(AspxBandTables::derive(false, 0, 0, 3, 0), Err(too_many(7)));
    // The largest powers that fit in 64 bits.
    assert_eq!(num_sbg_noise(31, 1, 2), Err(too_many(31)));
    assert_eq!(num_sbg_noise(32, 1, 2), Err(BandError::NoiseSbgOutOfRange { noise_sbg: 32 }));
    // Above a crossover of zero any number fits.
    assert_eq!(num_sbg_noise(1, 0, 62), Err(too_many(6)));
    assert_eq!(num_sbg_noise(0, 0, 62), Ok(1));
    assert_eq!(num_sbg_noise(0, 1, 62), Ok(1));
    assert_eq!(num_sbg_noise(3, 20, 62), Ok(5));
}

#[test]
fn templates_hold_one_border_more_than_groups() {
    for scale in [false, true] {
        assert_eq!(sbg_template(scale).len(), usize::from(template_group_count(scale)) + 1);
    }
    assert_eq!(template_group_count(false), 20);
    assert_eq!(template_group_count(true), 22);
}

#[test]
fn tables_are_the_same_when_their_borders_are() {
    let tables = AspxBandTables::derive(false, 0, 0, 0, 0).expect("legal configuration");
    let again = AspxBandTables::derive(false, 0, 0, 0, 0).expect("legal configuration");
    let finer = AspxBandTables::derive(false, 0, 0, 1, 0).expect("legal configuration");
    assert!(tables.same_as(&again));
    assert!(!tables.same_as(&finer), "the noise borders differ");
    assert!(!tables.same_as(&AspxBandTables::empty()));
    assert!(AspxBandTables::empty().same_as(&AspxBandTables::empty()));
}
