use aspx::codebooks::{cb_off, codebook_index, table_for, AspxCodebooks, SYMBOL_RANGES};
use aspx::huffman::{Codeword, HuffmanError, HuffmanTable};
use aspx::reader::BitReader;
use aspx::tables::{get_aspx_hcb, AspxCodebook, EnvelopeKind, HcbType, StereoMode};

/// A table of `len` symbols whose codewords all have the same length.
fn flat_table(len: usize) -> HuffmanTable {
    let mut length = 0u32;
    while (1usize << length) < len {
        length += 1;
    }
    let words = (0..len).map(|code| Codeword { length: length as u8, code: code as u32 }).collect();
    HuffmanTable::new(words).expect("a prefix-free table")
}

/// Codebooks with the prescribed numbers of symbols.
fn books() -> AspxCodebooks {
    let mut tables = Vec::new();
    for range in SYMBOL_RANGES {
        let len = usize::from(range);
        tables.push(flat_table(len));
        tables.push(flat_table(2 * len - 1));
        tables.push(flat_table(2 * len - 1));
    }
    AspxCodebooks::new(tables).expect("the symbol counts fit")
}

fn every_codebook() -> [AspxCodebook; 18] {
    let mut out = [get_aspx_hcb(EnvelopeKind::Signal, StereoMode::Level, false, HcbType::F0); 18];
    let mut index = 0usize;
    for kind in [EnvelopeKind::Signal, EnvelopeKind::Noise] {
        for stereo in [StereoMode::Level, StereoMode::Balance] {
            for quant in [false, true] {
                if kind == EnvelopeKind::Noise && quant {
                    continue;
                }
                for hcb in [HcbType::F0, HcbType::Df, HcbType::Dt] {
                    if let Some(slot) = out.get_mut(index) {
                        *slot = get_aspx_hcb(kind, stereo, quant, hcb);
                    }
                    index = index.saturating_add(1);
                }
            }
        }
    }
    assert_eq!(index, 18);
    out
}

/// The names of the codebooks, in the order in which they are held.
const NAMES: [&str; 18] = [
    "ASPX_HCB_ENV_LEVEL_15_F0",
    "ASPX_HCB_ENV_LEVEL_15_DF",
    "ASPX_HCB_ENV_LEVEL_15_DT",
    "ASPX_HCB_ENV_LEVEL_30_F0",
    "ASPX_HCB_ENV_LEVEL_30_DF",
    "ASPX_HCB_ENV_LEVEL_30_DT",
    "ASPX_HCB_ENV_BALANCE_15_F0",
    "ASPX_HCB_ENV_BALANCE_15_DF",
    "ASPX_HCB_ENV_BALANCE_15_DT",
    "ASPX_HCB_ENV_BALANCE_30_F0",
    "ASPX_HCB_ENV_BALANCE_30_DF",
    "ASPX_HCB_ENV_BALANCE_30_DT",
    "ASPX_HCB_NOISE_LEVEL_F0",
    "ASPX_HCB_NOISE_LEVEL_DF",
    "ASPX_HCB_NOISE_LEVEL_DT",
    "ASPX_HCB_NOISE_BALANCE_F0",
    "ASPX_HCB_NOISE_BALANCE_DF",
    "ASPX_HCB_NOISE_BALANCE_DT",
];

fn codebook_name(books: &AspxCodebooks, table: &HuffmanTable) -> &'static str {
    for (index, name) in NAMES.iter().enumerate() {
        if books.table(index).is_some_and(|candidate| core::ptr::eq(candidate, table)) {
            return name;
        }
    }
    panic!("the table is not one of the eighteen");
}

#[test]
fn identifiers_map_to_the_codebooks_named_in_the_specification() {
    const SIGNAL: EnvelopeKind = EnvelopeKind::Signal;
    const NOISE: EnvelopeKind = EnvelopeKind::Noise;
    const LEVEL: StereoMode = StereoMode::Level;
    const BALANCE: StereoMode = StereoMode::Balance;
    const F0: HcbType = HcbType::F0;
    const DF: HcbType = HcbType::Df;
    const DT: HcbType = HcbType::Dt;

    let expected: [(EnvelopeKind, StereoMode, bool, HcbType, &str); 18] = [
        (SIGNAL, LEVEL, false, F0, "ASPX_HCB_ENV_LEVEL_15_F0"),
        (SIGNAL, LEVEL, false, DF, "ASPX_HCB_ENV_LEVEL_15_DF"),
        (SIGNAL, LEVEL, false, DT, "ASPX_HCB_ENV_LEVEL_15_DT"),
        (SIGNAL, LEVEL, true, F0, "ASPX_HCB_ENV_LEVEL_30_F0"),
        (SIGNAL, LEVEL, true, DF, "ASPX_HCB_ENV_LEVEL_30_DF"),
        (SIGNAL, LEVEL, true, DT, "ASPX_HCB_ENV_LEVEL_30_DT"),
        (SIGNAL, BALANCE, false, F0, "ASPX_HCB_ENV_BALANCE_15_F0"),
        (SIGNAL, BALANCE, false, DF, "ASPX_HCB_ENV_BALANCE_15_DF"),
        (SIGNAL, BALANCE, false, DT, "ASPX_HCB_ENV_BALANCE_15_DT"),
        (SIGNAL, BALANCE, true, F0, "ASPX_HCB_ENV_BALANCE_30_F0"),
        (SIGNAL, BALANCE, true, DF, "ASPX_HCB_ENV_BALANCE_30_DF"),
        (SIGNAL, BALANCE, true, DT, "ASPX_HCB_ENV_BALANCE_30_DT"),
        (NOISE, LEVEL, false, F0, "ASPX_HCB_NOISE_LEVEL_F0"),
        (NOISE, LEVEL, false, DF, "ASPX_HCB_NOISE_LEVEL_DF"),
        (NOISE, LEVEL, false, DT, "ASPX_HCB_NOISE_LEVEL_DT"),
        (NOISE, BALANCE, false, F0, "ASPX_HCB_NOISE_BALANCE_F0"),
        (NOISE, BALANCE, false, DF, "ASPX_HCB_NOISE_BALANCE_DF"),
        (NOISE, BALANCE, false, DT, "ASPX_HCB_NOISE_BALANCE_DT"),
    ];
    let books = books();
    for (kind, stereo, quant, hcb, name) in expected {
        let book = get_aspx_hcb(kind, stereo, quant, hcb);
        assert_eq!(codebook_name(&books, table_for(&books, book)), name, "{book:?} is {name}");
    }
}

#[test]
fn every_identifier_maps_to_a_distinct_table() {
    let held = books();
    let books = every_codebook();
    for (i, &left) in books.iter().enumerate() {
        for &right in books.iter().skip(i.saturating_add(1)) {
            assert!(
                !core::ptr::eq(table_for(&held, left), table_for(&held, right)),
                "{left:?} and {right:?} share a table"
            );
        }
    }
}

#[test]
fn difference_codebooks_are_twice_the_absolute_one_minus_one() {
    let books = books();
    for kind in [EnvelopeKind::Signal, EnvelopeKind::Noise] {
        for stereo in [StereoMode::Level, StereoMode::Balance] {
            for quant in [false, true] {
                if kind == EnvelopeKind::Noise && quant {
                    continue;
                }
                let base = table_for(&books, get_aspx_hcb(kind, stereo, quant, HcbType::F0)).len();
                for hcb in [HcbType::Df, HcbType::Dt] {
                    let diff = table_for(&books, get_aspx_hcb(kind, stereo, quant, hcb)).len();
                    assert_eq!(
                        diff,
                        base.saturating_mul(2).saturating_sub(1),
                        "{kind:?}/{stereo:?}/{quant}/{hcb:?}"
                    );
                }
            }
        }
    }
}

#[test]
fn derived_offsets_match_the_specification() {
    let books = books();
    let expected: [(EnvelopeKind, StereoMode, bool, i16); 6] = [
        (EnvelopeKind::Signal, StereoMode::Level, false, 70),
        (EnvelopeKind::Signal, StereoMode::Balance, false, 24),
        (EnvelopeKind::Signal, StereoMode::Level, true, 35),
        (EnvelopeKind::Signal, StereoMode::Balance, true, 12),
        (EnvelopeKind::Noise, StereoMode::Level, false, 29),
        (EnvelopeKind::Noise, StereoMode::Balance, false, 12),
    ];
    for (kind, stereo, quant, offset) in expected {
        for hcb in [HcbType::Df, HcbType::Dt] {
            assert_eq!(
                cb_off(&books, get_aspx_hcb(kind, stereo, quant, hcb)),
                offset,
                "{kind:?}/{stereo:?}/{quant}/{hcb:?}"
            );
        }
        assert_eq!(
            cb_off(&books, get_aspx_hcb(kind, stereo, quant, HcbType::F0)),
            0,
            "an absolute codebook has no offset"
        );
    }
}

#[test]
fn difference_range_is_symmetric_around_zero() {
    let books = books();
    for kind in [EnvelopeKind::Signal, EnvelopeKind::Noise] {
        for stereo in [StereoMode::Level, StereoMode::Balance] {
            for hcb in [HcbType::Df, HcbType::Dt] {
                let book = get_aspx_hcb(kind, stereo, false, hcb);
                let len = i16::try_from(table_for(&books, book).len()).unwrap_or(i16::MAX);
                let offset = cb_off(&books, book);
                let low = 0i16.saturating_sub(offset);
                let high = len.saturating_sub(1).saturating_sub(offset);
                assert_eq!(low, 0i16.saturating_sub(high), "{book:?}");
            }
        }
    }
}

#[test]
fn indices_follow_the_identifiers() {
    for (position, book) in every_codebook().into_iter().enumerate() {
        let index = codebook_index(book);
        assert!(index < 18);
        // Kind, stereo mode and step in the order in which they are visited above.
        assert_eq!(index, position, "{book:?}");
    }
}

#[test]
fn noise_has_one_quantisation_step() {
    for stereo in [StereoMode::Level, StereoMode::Balance] {
        for hcb in [HcbType::F0, HcbType::Df, HcbType::Dt] {
            assert_eq!(
                get_aspx_hcb(EnvelopeKind::Noise, stereo, true, hcb),
                get_aspx_hcb(EnvelopeKind::Noise, stereo, false, hcb)
            );
        }
    }
}

#[test]
fn sets_with_other_symbol_counts_are_rejected() {
    assert!(AspxCodebooks::new(Vec::new()).is_none());
    let mut tables = Vec::new();
    for range in SYMBOL_RANGES {
        let len = usize::from(range);
        tables.push(flat_table(len));
        tables.push(flat_table(2 * len - 1));
        tables.push(flat_table(2 * len));
    }
    assert!(AspxCodebooks::new(tables).is_none());
    assert!(books().table(17).is_some());
    assert!(books().table(18).is_none());
}

#[test]
fn symbols_are_decoded_bit_by_bit() {
    // 0, 10, 110, 111
    let table = HuffmanTable::new(vec![
        Codeword { length: 1, code: 0b0 },
        Codeword { length: 2, code: 0b10 },
        Codeword { length: 3, code: 0b110 },
        Codeword { length: 3, code: 0b111 },
    ])
    .expect("a prefix-free table");
    assert_eq!(table.len(), 4);
    // 110 0 111 1|0 ...
    let data = [0b1100_1111, 0b0000_0000];
    let mut reader = BitReader::new(&data);
    assert_eq!(table.decode(&mut reader), Ok(2));
    assert_eq!(table.decode(&mut reader), Ok(0));
    assert_eq!(table.decode(&mut reader), Ok(3));
    assert_eq!(table.decode(&mut reader), Ok(1));
    assert_eq!(reader.bit_position(), 9);
}

#[test]
fn ambiguous_or_malformed_tables_are_rejected() {
    // 1 is a prefix of 10.
    assert!(HuffmanTable::new(vec![
        Codeword { length: 1, code: 1 },
        Codeword { length: 2, code: 0b10 },
    ])
    .is_none());
    // Two symbols share a codeword.
    assert!(HuffmanTable::new(vec![
        Codeword { length: 2, code: 1 },
        Codeword { length: 2, code: 1 },
    ])
    .is_none());
    // A codeword does not fit its length.
    assert!(HuffmanTable::new(vec![Codeword { length: 1, code: 2 }]).is_none());
}

#[test]
fn undecodable_bits_are_reported() {
    let table = HuffmanTable::new(vec![Codeword { length: 2, code: 0 }]).expect("a table");
    let mut reader = BitReader::new(&[0b1100_0000]);
    assert_eq!(table.decode(&mut reader), Err(HuffmanError::UnknownCodeword));
    let mut short = BitReader::new(&[]);
    assert!(matches!(table.decode(&mut short), Err(HuffmanError::Read(_))));
}
