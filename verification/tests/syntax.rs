use aspx::bands::{AspxBandTables, BandError};
use aspx::codebooks::{cb_off, codebook_index, AspxCodebooks, SYMBOL_RANGES};
use aspx::element::{parse_hfgen_1ch, parse_hfgen_2ch, AspxData};
use aspx::frames::FrameError;
use aspx::huffman::{Codeword, HuffmanError, HuffmanTable};
use aspx::reader::BitReader;
use aspx::syntax::{
    parse_framing, parse_interval_class, tsg_ptr_bits, AspxConfig, AspxError, AspxState,
};
use aspx::tables::{
    get_aspx_hcb, AspxCodebook, EnvelopeKind, HcbType, IntervalClass, StereoMode,
};

/// Number of symbols of the codebook at a position.
fn symbols_at(position: usize) -> usize {
    let absolute = usize::from(SYMBOL_RANGES[position / 3]);
    if position % 3 == 0 {
        absolute
    } else {
        2 * absolute - 1
    }
}

/// Number of bits that tell `len` symbols apart.
fn symbol_width(len: usize) -> u32 {
    let mut width = 0;
    while (1usize << width) < len {
        width += 1;
    }
    width
}

/// Codebooks in which all symbols of a table have codewords of one length.
fn books() -> AspxCodebooks {
    let tables = (0..18)
        .map(|position| {
            let len = symbols_at(position);
            let length = symbol_width(len) as u8;
            let words = (0..len).map(|code| Codeword { length, code: code as u32 }).collect();
            HuffmanTable::new(words).expect("a prefix-free table")
        })
        .collect();
    AspxCodebooks::new(tables).expect("the symbol counts fit")
}

/// Writes the codeword of a symbol of [`books`].
fn push_symbol(buf: &mut BitBuf, book: AspxCodebook, symbol: u16) {
    let len = symbols_at(codebook_index(book));
    assert!(usize::from(symbol) < len);
    buf.push_bits(u32::from(symbol), symbol_width(len));
}

struct BitBuf {
    bytes: [u8; 512],
    len: usize,
}

impl BitBuf {
    fn new() -> Self {
        Self {
            bytes: [0; 512],
            len: 0,
        }
    }

    fn push(&mut self, bit: bool) {
        let index = self.len / 8;
        let shift = 7usize.saturating_sub(self.len % 8);
        if bit {
            if let Some(slot) = self.bytes.get_mut(index) {
                *slot |= 1u8
                    .checked_shl(u32::try_from(shift).unwrap_or(0))
                    .unwrap_or(0);
            }
        }
        self.len = self.len.saturating_add(1);
    }

    fn push_bits(&mut self, value: u32, width: u32) {
        for bit in (0..width).rev() {
            self.push((value >> bit) & 1 == 1);
        }
    }

    fn push_config(&mut self, config: &AspxConfig) {
        self.push(config.quant_mode_env);
        self.push_bits(u32::from(config.start_freq), 3);
        self.push_bits(u32::from(config.stop_freq), 2);
        self.push(config.master_freq_scale);
        self.push(config.interpolation);
        self.push(config.preflat);
        self.push(config.limiter);
        self.push_bits(u32::from(config.noise_sbg), 2);
        self.push(config.num_env_bits_fixfix);
        self.push_bits(u32::from(config.freq_res_mode), 2);
    }
}

fn base_config() -> AspxConfig {
    AspxConfig {
        quant_mode_env: false,
        start_freq: 0,
        stop_freq: 0,
        master_freq_scale: true,
        interpolation: false,
        preflat: false,
        limiter: false,
        noise_sbg: 1,
        num_env_bits_fixfix: false,
        freq_res_mode: 3,
    }
}

fn state_with(_config: AspxConfig) -> AspxState {
    let mut state = AspxState::new();
    state.reset_stop_pos(16);
    state
}

#[test]
fn config_consumes_exactly_fifteen_bits() {
    let config = AspxConfig {
        quant_mode_env: true,
        start_freq: 5,
        stop_freq: 2,
        master_freq_scale: true,
        interpolation: true,
        preflat: false,
        limiter: true,
        noise_sbg: 3,
        num_env_bits_fixfix: true,
        freq_res_mode: 2,
    };
    let mut buf = BitBuf::new();
    buf.push_config(&config);
    assert_eq!(buf.len, 15);

    let mut reader = BitReader::new(&buf.bytes);
    let parsed = AspxConfig::parse(&mut reader).expect("the element parses");
    assert_eq!(parsed, config);
    assert_eq!(reader.bit_position(), 15);
}

#[test]
fn interval_class_is_a_prefix_code() {
    let cases: [(&[bool], IntervalClass, u64); 4] = [
        (&[false], IntervalClass::FixFix, 1),
        (&[true, false], IntervalClass::FixVar, 2),
        (&[true, true, false], IntervalClass::VarFix, 3),
        (&[true, true, true], IntervalClass::VarVar, 3),
    ];
    for (bits, expected, width) in cases {
        let mut buf = BitBuf::new();
        for &bit in bits {
            buf.push(bit);
        }
        let mut reader = BitReader::new(&buf.bytes);
        assert_eq!(parse_interval_class(&mut reader), Ok(expected));
        assert_eq!(reader.bit_position(), width, "the length of {expected:?}");
    }
}

#[test]
fn tsg_pointer_width_matches_the_ceiling_logarithm() {
    for num_env in 1u8..=5 {
        let exact = (f64::from(num_env) + 2.0).log2().ceil();
        let exact = u32::try_from(exact as i64).unwrap_or(0);
        assert_eq!(
            tsg_ptr_bits(num_env),
            exact,
            "{num_env} envelopes"
        );
    }
}

#[test]
fn rejects_eight_envelopes_without_committing_state() {
    let books = books();
    let mut config = base_config();
    config.num_env_bits_fixfix = true; // the count takes two bits
    let mut state = state_with(config);
    let before = state;

    let mut buf = BitBuf::new();
    buf.push_bits(5, 3); // xover, not to be committed
    buf.push(false); // FIXFIX
    buf.push_bits(3, 2); // eight envelopes
    let mut reader = BitReader::new(&buf.bytes);

    assert_eq!(
        AspxData::parse_1ch(&mut reader, &books, &config, &mut state, 2048, true),
        Err(AspxError::EightEnvelopesProhibited)
    );
    assert_eq!(state, before, "a failed frame leaves the state");
}

#[test]
fn rejects_unsupported_frame_len_base_before_reading() {
    let books = books();
    let config = base_config();
    let mut state = state_with(config);
    let buf = BitBuf::new();
    let mut reader = BitReader::new(&buf.bytes);
    assert_eq!(
        AspxData::parse_1ch(&mut reader, &books, &config, &mut state, 1000, true),
        Err(AspxError::UnsupportedFrameLenBase {
            frame_len_base: 1000
        })
    );
    assert_eq!(reader.bit_position(), 0);
}

#[test]
fn crossover_offset_is_only_transmitted_on_iframes() {
    let books = books();
    let config = base_config();
    let mut state = state_with(config);

    let mut buf = BitBuf::new();
    buf.push_bits(3, 3); // xover = 3
    buf.push(false); // FIXFIX
    buf.push_bits(0, 1); // one envelope
    let mut reader = BitReader::new(&buf.bytes);
    let iframe = AspxData::parse_1ch(&mut reader, &books, &config, &mut state, 2048, true);
    assert!(iframe.is_ok(), "{iframe:?}");
    assert_eq!(state.xover(), 3);
    let after_iframe = reader.bit_position();

    // A dependent frame has no offset, so the same content starts three bits earlier.
    let mut buf = BitBuf::new();
    buf.push(false); // FIXFIX
    buf.push_bits(0, 1);
    let mut reader = BitReader::new(&buf.bytes);
    let inter = AspxData::parse_1ch(&mut reader, &books, &config, &mut state, 2048, false);
    assert!(inter.is_ok(), "{inter:?}");
    assert_eq!(state.xover(), 3, "the offset is kept");
    assert_eq!(
        reader.bit_position(),
        after_iframe.saturating_sub(3),
        "three bits fewer are read"
    );
}

#[test]
fn single_channel_element_lands_exactly() {
    let books = books();
    let config = base_config();
    let mut state = state_with(config);
    let Ok(bands) = AspxBandTables::derive(
        config.master_freq_scale,
        config.start_freq,
        config.stop_freq,
        config.noise_sbg,
        0,
    ) else {
        panic!("the tables exist");
    };
    let highres = bands.num_sbg_sig_highres();
    let noise_sbg = bands.num_sbg_noise();

    let mut buf = BitBuf::new();
    buf.push_bits(0, 3); // xover = 0
    buf.push(false); // FIXFIX
    buf.push_bits(0, 1); // one envelope
    // In this mode no resolution is transmitted.
    buf.push(false); // sig_delta_dir[0]
    buf.push(false); // noise_delta_dir[0]
    for _ in 0..noise_sbg {
        buf.push_bits(0, 2); // tna_mode
    }
    buf.push(false); // aspx_ah_present
    buf.push(false); // aspx_fic_present
    buf.push(false); // aspx_tic_present

    // One absolute symbol and then differences.
    let sig_f0 = get_aspx_hcb(EnvelopeKind::Signal, StereoMode::Level, false, HcbType::F0);
    let sig_df = get_aspx_hcb(EnvelopeKind::Signal, StereoMode::Level, false, HcbType::Df);
    push_symbol(&mut buf, sig_f0, 0);
    for _ in 1..highres {
        push_symbol(&mut buf, sig_df, 0);
    }
    // The same for noise.
    let noise_f0 = get_aspx_hcb(EnvelopeKind::Noise, StereoMode::Level, false, HcbType::F0);
    let noise_df = get_aspx_hcb(EnvelopeKind::Noise, StereoMode::Level, false, HcbType::Df);
    push_symbol(&mut buf, noise_f0, 0);
    for _ in 1..noise_sbg {
        push_symbol(&mut buf, noise_df, 0);
    }

    let expected = buf.len;
    let mut reader = BitReader::new(&buf.bytes);
    let data =
        AspxData::parse_1ch(&mut reader, &books, &config, &mut state, 2048, true).expect("the element parses");
    assert_eq!(
        reader.bit_position(),
        u64::try_from(expected).unwrap_or(0),
        "the reader stops where the element ends"
    );

    assert_eq!(data.channels, 1);
    assert_eq!(data.balance, None);
    let Some(envelopes) = data.envelopes(0) else {
        panic!("the first channel exists");
    };
    assert_eq!(envelopes.sig_sbg_count(0), Some(highres));
    assert_eq!(envelopes.noise_sbg_count(), noise_sbg);
    assert_eq!(data.envelopes(1), None, "there is no second channel");
}

#[test]
fn per_envelope_resolution_switches_the_subband_count() {
    let books = books();
    let mut config = base_config();
    config.freq_res_mode = 0; // one resolution per envelope
    let mut state = state_with(config);
    let Ok(bands) = AspxBandTables::derive(true, 0, 0, config.noise_sbg, 0) else {
        panic!("the tables exist");
    };
    let highres = bands.num_sbg_sig_highres();
    let lowres = bands.num_sbg_sig_lowres();
    let noise_sbg = bands.num_sbg_noise();
    assert_ne!(highres, lowres, "the resolutions differ");

    let mut buf = BitBuf::new();
    buf.push_bits(0, 3); // xover
    buf.push(true); // prefix
    buf.push(false); // FIXVAR
    buf.push_bits(0, 2); // var_bord_right = 0
    buf.push_bits(1, 2); // one relative border, hence two envelopes
    buf.push_bits(0, 2); // rel_bord_right[0] is 2
    buf.push_bits(1, 2); // tsg_ptr is 0
    buf.push(true); // freq_res[0] is high
    buf.push(false); // freq_res[1] is low
    buf.push(false); // sig_delta_dir[0]
    buf.push(false); // sig_delta_dir[1]
    buf.push(false); // noise_delta_dir[0]
    buf.push(false); // noise_delta_dir[1]
    for _ in 0..noise_sbg {
        buf.push_bits(0, 2); // tna_mode
    }
    buf.push(false); // ah_present
    buf.push(false); // fic_present
    buf.push(false); // tic_present

    let sig_f0 = get_aspx_hcb(EnvelopeKind::Signal, StereoMode::Level, false, HcbType::F0);
    let sig_df = get_aspx_hcb(EnvelopeKind::Signal, StereoMode::Level, false, HcbType::Df);
    for count in [highres, lowres] {
        push_symbol(&mut buf, sig_f0, 0);
        for _ in 1..count {
            push_symbol(&mut buf, sig_df, 0);
        }
    }
    let noise_f0 = get_aspx_hcb(EnvelopeKind::Noise, StereoMode::Level, false, HcbType::F0);
    let noise_df = get_aspx_hcb(EnvelopeKind::Noise, StereoMode::Level, false, HcbType::Df);
    for _ in 0..2 {
        push_symbol(&mut buf, noise_f0, 0);
        for _ in 1..noise_sbg {
            push_symbol(&mut buf, noise_df, 0);
        }
    }

    let expected = buf.len;
    let mut reader = BitReader::new(&buf.bytes);
    let data =
        AspxData::parse_1ch(&mut reader, &books, &config, &mut state, 2048, true).expect("the element parses");
    assert_eq!(
        reader.bit_position(),
        u64::try_from(expected).unwrap_or(0),
        "the reader stops where the element ends"
    );

    let Some(envelopes) = data.envelopes(0) else {
        panic!("the first channel exists");
    };
    assert_eq!(
        envelopes.sig_sbg_count(0),
        Some(highres),
        "the first envelope is high"
    );
    assert_eq!(envelopes.sig_sbg_count(1), Some(lowres), "the second envelope is low");
    assert_eq!(envelopes.sig_sbg_count(2), None, "nothing past the envelopes");
    assert_eq!(envelopes.sig(1, usize::from(lowres)), None, "nothing past the groups");
}

#[test]
fn low_resolution_mode_uses_the_decimated_table() {
    let books = books();
    let mut config = base_config();
    config.freq_res_mode = 1;
    let mut state = state_with(config);
    let Ok(bands) = AspxBandTables::derive(true, 0, 0, config.noise_sbg, 0) else {
        panic!("the tables exist");
    };
    let lowres = bands.num_sbg_sig_lowres();
    let noise_sbg = bands.num_sbg_noise();

    let mut buf = BitBuf::new();
    buf.push_bits(0, 3); // xover
    buf.push(false); // FIXFIX
    buf.push_bits(0, 1); // one envelope
    buf.push(false); // sig_delta_dir[0]
    buf.push(false); // noise_delta_dir[0]
    for _ in 0..noise_sbg {
        buf.push_bits(0, 2);
    }
    buf.push(false); // ah_present
    buf.push(false); // fic_present
    buf.push(false); // tic_present

    let sig_f0 = get_aspx_hcb(EnvelopeKind::Signal, StereoMode::Level, false, HcbType::F0);
    let sig_df = get_aspx_hcb(EnvelopeKind::Signal, StereoMode::Level, false, HcbType::Df);
    push_symbol(&mut buf, sig_f0, 0);
    for _ in 1..lowres {
        push_symbol(&mut buf, sig_df, 0);
    }
    let noise_f0 = get_aspx_hcb(EnvelopeKind::Noise, StereoMode::Level, false, HcbType::F0);
    let noise_df = get_aspx_hcb(EnvelopeKind::Noise, StereoMode::Level, false, HcbType::Df);
    push_symbol(&mut buf, noise_f0, 0);
    for _ in 1..noise_sbg {
        push_symbol(&mut buf, noise_df, 0);
    }

    let expected = buf.len;
    let mut reader = BitReader::new(&buf.bytes);
    let data =
        AspxData::parse_1ch(&mut reader, &books, &config, &mut state, 2048, true).expect("the element parses");
    assert_eq!(
        reader.bit_position(),
        u64::try_from(expected).unwrap_or(0),
        "the reader stops where the element ends"
    );
    let Some(envelopes) = data.envelopes(0) else {
        panic!("the first channel exists");
    };
    assert_eq!(envelopes.sig_sbg_count(0), Some(lowres));
}

fn hfgen_fixture(channels: u8) -> (AspxData, u8, u8) {
    let config = base_config();
    let Ok(bands) = AspxBandTables::derive(true, 0, 0, config.noise_sbg, 0) else {
        panic!("the tables exist");
    };
    let highres = bands.num_sbg_sig_highres();
    let noise_sbg = bands.num_sbg_noise();
    let mut data = AspxData::empty();
    data.bands = bands;
    data.channels = channels;
    (data, highres, noise_sbg)
}

#[test]
fn two_channel_time_interleaving_branches_are_billed_exactly() {
    // present, copy, left, right, flag bits apart from the slots, right copies left
    let cases: [(bool, bool, bool, bool, usize, bool); 6] = [
        (false, false, false, false, 1, false),
        (true, true, false, false, 2, true),
        (true, false, true, false, 4, false),
        (true, false, false, true, 4, false),
        (true, false, true, true, 4, false),
        (true, false, false, false, 4, false),
    ];
    for (present, copy, left, right, base_bits, copied) in cases {
        let (mut data, highres, noise_sbg) = hfgen_fixture(2);
        let slots = 16u8;

        let mut buf = BitBuf::new();
        for _ in 0..noise_sbg.saturating_mul(2) {
            buf.push_bits(0, 2); // tna_mode of either channel
        }
        buf.push(false); // ah_left
        buf.push(false); // ah_right
        buf.push(false); // fic_present
        buf.push(present);
        if present {
            buf.push(copy);
            if !copy {
                buf.push(left);
                buf.push(right);
            }
            if copy || left {
                for slot in 0..slots {
                    buf.push(slot % 2 == 0);
                }
            }
            if right {
                for slot in 0..slots {
                    buf.push(slot % 3 == 0);
                }
            }
        }
        let expected = buf.len;

        let mut slot_reads = 0usize;
        if present && (copy || left) {
            slot_reads = slot_reads.saturating_add(usize::from(slots));
        }
        if present && right {
            slot_reads = slot_reads.saturating_add(usize::from(slots));
        }
        let predicted = usize::from(noise_sbg)
            .saturating_mul(4)
            .saturating_add(3)
            .saturating_add(base_bits)
            .saturating_add(slot_reads);
        assert_eq!(expected, predicted, "the number of bits written");

        let mut reader = BitReader::new(&buf.bytes);
        parse_hfgen_2ch(&mut reader, &mut data, false, slots).expect("the element parses");
        assert_eq!(
            reader.bit_position(),
            u64::try_from(expected).unwrap_or(0),
            "present={present} copy={copy} left={left} right={right}"
        );

        let (Some(l), Some(r)) = (data.hfgen(0), data.hfgen(1)) else {
            panic!("both channels exist");
        };
        if copied {
            for slot in 0..usize::from(slots) {
                assert_eq!(
                    l.tic_used_in_slot(slot),
                    r.tic_used_in_slot(slot),
                    "the right channel copies the left"
                );
            }
        }
        assert_eq!(l.add_harmonic(usize::from(highres)), None, "nothing past the groups");
    }
}

#[test]
fn balanced_pair_copies_the_tna_mode() {
    let (mut data, _, noise_sbg) = hfgen_fixture(2);
    assert!(noise_sbg >= 1);

    let mut buf = BitBuf::new();
    for sbg in 0..noise_sbg {
        buf.push_bits(u32::from(sbg % 4), 2); // left channel only
    }
    buf.push(false); // ah_left
    buf.push(false); // ah_right
    buf.push(false); // fic_present
    buf.push(false); // tic_present
    let expected = buf.len;

    let mut reader = BitReader::new(&buf.bytes);
    parse_hfgen_2ch(&mut reader, &mut data, true, 16).expect("the element parses");
    assert_eq!(
        reader.bit_position(),
        u64::try_from(expected).unwrap_or(0),
        "the modes are read once"
    );

    let (Some(left), Some(right)) = (data.hfgen(0), data.hfgen(1)) else {
        panic!("both channels exist");
    };
    for sbg in 0..usize::from(noise_sbg) {
        assert_eq!(
            left.tna_mode(sbg),
            right.tna_mode(sbg),
            "group {sbg}"
        );
    }
    assert_eq!(left.tna_mode(usize::from(noise_sbg)), None);
}

#[test]
fn frequency_interleaving_has_nested_presence_flags() {
    for (fic_left, fic_right) in [(false, false), (true, false), (false, true), (true, true)] {
        let (mut data, highres, noise_sbg) = hfgen_fixture(2);

        let mut buf = BitBuf::new();
        for _ in 0..noise_sbg.saturating_mul(2) {
            buf.push_bits(0, 2);
        }
        buf.push(false); // ah_left
        buf.push(false); // ah_right
        buf.push(true); // fic_present
        buf.push(fic_left);
        if fic_left {
            for sbg in 0..highres {
                buf.push(sbg % 2 == 0);
            }
        }
        buf.push(fic_right);
        if fic_right {
            for sbg in 0..highres {
                buf.push(sbg % 3 == 0);
            }
        }
        buf.push(false); // tic_present
        let expected = buf.len;

        let mut reader = BitReader::new(&buf.bytes);
        parse_hfgen_2ch(&mut reader, &mut data, false, 16).expect("the element parses");
        assert_eq!(
            reader.bit_position(),
            u64::try_from(expected).unwrap_or(0),
            "fic_left={fic_left} fic_right={fic_right}"
        );

        let (Some(left), Some(right)) = (data.hfgen(0), data.hfgen(1)) else {
            panic!("both channels exist");
        };
        assert_eq!(left.fic_used_in_sfb(0), Some(fic_left));
        assert_eq!(right.fic_used_in_sfb(0), Some(fic_right));
    }
}

#[test]
fn single_channel_hfgen_presence_flags_are_independent() {
    for (ah, fic, tic) in [
        (false, false, false),
        (true, false, false),
        (false, true, false),
        (false, false, true),
        (true, true, true),
    ] {
        let (mut data, highres, noise_sbg) = hfgen_fixture(1);
        let slots = 16u8;

        let mut buf = BitBuf::new();
        for _ in 0..noise_sbg {
            buf.push_bits(0, 2);
        }
        buf.push(ah);
        if ah {
            for sbg in 0..highres {
                buf.push(sbg % 2 == 0);
            }
        }
        buf.push(fic);
        if fic {
            for sbg in 0..highres {
                buf.push(sbg % 3 == 0);
            }
        }
        buf.push(tic);
        if tic {
            for slot in 0..slots {
                buf.push(slot % 2 == 0);
            }
        }
        let expected = buf.len;

        let mut reader = BitReader::new(&buf.bytes);
        parse_hfgen_1ch(&mut reader, &mut data, slots).expect("the element parses");
        assert_eq!(
            reader.bit_position(),
            u64::try_from(expected).unwrap_or(0),
            "ah={ah} fic={fic} tic={tic}"
        );

        let Some(hfgen) = data.hfgen(0) else {
            panic!("the channel exists");
        };
        assert_eq!(hfgen.add_harmonic(0), Some(ah));
        assert_eq!(hfgen.fic_used_in_sfb(0), Some(fic));
        assert_eq!(hfgen.tic_used_in_slot(0), Some(tic));
        assert_eq!(hfgen.tic_used_in_slot(usize::from(slots)), None);
    }
}

#[test]
fn balanced_pair_shares_framing_and_follows_table_52_order() {
    let books = books();
    let config = base_config();
    let mut state = state_with(config);
    let Ok(bands) = AspxBandTables::derive(true, 0, 0, config.noise_sbg, 0) else {
        panic!("the tables exist");
    };
    let highres = bands.num_sbg_sig_highres();
    let noise_sbg = bands.num_sbg_noise();

    let mut buf = BitBuf::new();
    buf.push_bits(0, 3); // xover
    buf.push(false); // channel 0: FIXFIX
    buf.push_bits(0, 1); // one envelope
    buf.push(true); // balance: the second channel has no framing of its own
    buf.push(false); // channel 0 sig_delta_dir
    buf.push(false); // channel 0 noise_delta_dir
    buf.push(false); // channel 1 sig_delta_dir
    buf.push(false); // channel 1 noise_delta_dir
    for _ in 0..noise_sbg {
        buf.push_bits(0, 2); // tna_mode, sent once
    }
    buf.push(false); // aspx_ah_left
    buf.push(false); // aspx_ah_right
    buf.push(false); // aspx_fic_present
    buf.push(false); // aspx_tic_present

    // Both signal rows come before both noise rows. Their first symbols differ, so that
    // reading channel by channel cannot pass.
    for (stereo, first_symbol) in [(StereoMode::Level, 1u16), (StereoMode::Balance, 2)] {
        let f0 = get_aspx_hcb(EnvelopeKind::Signal, stereo, false, HcbType::F0);
        let df = get_aspx_hcb(EnvelopeKind::Signal, stereo, false, HcbType::Df);
        push_symbol(&mut buf, f0, first_symbol);
        let zero_diff = u16::try_from(cb_off(&books, df)).unwrap_or(0);
        for _ in 1..highres {
            push_symbol(&mut buf, df, zero_diff);
        }
    }
    for (stereo, first_symbol) in [(StereoMode::Level, 3u16), (StereoMode::Balance, 4)] {
        let nf0 = get_aspx_hcb(EnvelopeKind::Noise, stereo, false, HcbType::F0);
        let ndf = get_aspx_hcb(EnvelopeKind::Noise, stereo, false, HcbType::Df);
        push_symbol(&mut buf, nf0, first_symbol);
        let zero_diff = u16::try_from(cb_off(&books, ndf)).unwrap_or(0);
        for _ in 1..noise_sbg {
            push_symbol(&mut buf, ndf, zero_diff);
        }
    }

    let expected = buf.len;
    let mut reader = BitReader::new(&buf.bytes);
    let data =
        AspxData::parse_2ch(&mut reader, &books, &config, &mut state, 2048, true).expect("the element parses");
    assert_eq!(
        reader.bit_position(),
        u64::try_from(expected).unwrap_or(0),
        "the reader stops where the element ends"
    );
    assert_eq!(data.balance, Some(true));

    let (Some(first), Some(second)) = (data.framing(0), data.framing(1)) else {
        panic!("both channels exist");
    };
    assert_eq!(
        first.params, second.params,
        "the framing is shared"
    );
    assert_eq!(first.interval, second.interval);

    let (Some(left), Some(right)) = (data.envelopes(0), data.envelopes(1)) else {
        panic!("both channels exist");
    };
    assert_eq!(left.sig(0, 0), Some(1));
    assert_eq!(right.sig(0, 0), Some(2));
    assert_eq!(left.noise(0, 0), Some(3));
    assert_eq!(right.noise(0, 0), Some(4));
}

#[test]
fn single_envelope_fixfix_forces_fine_quantization() {
    let mut config = base_config();
    config.quant_mode_env = true; // coarse step
    let mut state = state_with(config);

    let mut buf = BitBuf::new();
    buf.push_bits(0, 3);
    buf.push(false); // FIXFIX
    buf.push_bits(0, 1); // one envelope
    let mut reader = BitReader::new(&buf.bytes);
    let framing = parse_framing(&mut reader, &config, 16, true, 16);
    let Ok(framing) = framing else {
        panic!("{framing:?}");
    };
    let _ = &mut state;
    assert!(!framing.qmode_env, "one envelope takes the fine step");

    // With two envelopes the configured step stays.
    let mut buf = BitBuf::new();
    buf.push(false); // FIXFIX
    buf.push_bits(1, 1); // two envelopes
    let mut reader = BitReader::new(&buf.bytes);
    let Ok(framing) = parse_framing(&mut reader, &config, 16, true, 16) else {
        panic!("the element parses");
    };
    assert!(framing.qmode_env, "two envelopes keep the coarse step");
}

#[test]
fn relative_border_fields_narrow_for_short_frames() {
    let config = base_config();

    // With 8 slots the fields take one bit.
    let mut buf = BitBuf::new();
    buf.push(true); // prefix
    buf.push(false); // FIXVAR
    buf.push_bits(0, 2); // var_bord_right
    buf.push_bits(1, 1); // num_rel_right, one bit
    buf.push_bits(0, 1); // rel_bord_right[0] is 2
    buf.push_bits(0, 2); // tsg_ptr, two bits
    let short_len = buf.len;
    let mut reader = BitReader::new(&buf.bytes);
    let Ok(framing) = parse_framing(&mut reader, &config, 8, true, 8) else {
        panic!("the short frame parses");
    };
    assert_eq!(reader.bit_position(), u64::try_from(short_len).unwrap_or(0));
    assert_eq!(framing.params.num_rel_right, 1);
    assert_eq!(framing.params.rel_bord_right.first(), Some(&2));

    // With 16 slots the same fields take two bits.
    let mut buf = BitBuf::new();
    buf.push(true);
    buf.push(false); // FIXVAR
    buf.push_bits(0, 2); // var_bord_right
    buf.push_bits(1, 2); // num_rel_right, two bits
    buf.push_bits(0, 2); // rel_bord_right[0]
    buf.push_bits(0, 2); // tsg_ptr
    let long_len = buf.len;
    let mut reader = BitReader::new(&buf.bytes);
    let Ok(framing) = parse_framing(&mut reader, &config, 16, true, 16) else {
        panic!("the long frame parses");
    };
    assert_eq!(reader.bit_position(), u64::try_from(long_len).unwrap_or(0));
    assert_eq!(framing.params.num_rel_right, 1);
    assert_eq!(
        long_len.saturating_sub(short_len),
        2,
        "two fields are one bit wider"
    );
}

#[test]
fn a_truncated_element_is_reported_and_leaves_the_state() {
    let books = books();
    let config = base_config();
    let mut state = state_with(config);
    let before = state;
    let mut reader = BitReader::new(&[0u8; 2]);
    let result = AspxData::parse_1ch(&mut reader, &books, &config, &mut state, 2048, true);
    assert!(
        matches!(
            result,
            Err(AspxError::Read(_)) | Err(AspxError::Huffman(HuffmanError::Read(_)))
        ),
        "{result:?}"
    );
    assert_eq!(state, before);
}

#[test]
fn an_unknown_codeword_is_reported() {
    let books = books();
    let config = base_config();
    let mut state = state_with(config);
    let mut buf = BitBuf::new();
    buf.push_bits(0, 3); // xover
    buf.push(false); // FIXFIX
    buf.push_bits(0, 1); // one envelope
    buf.push_bits(0, 2); // directions
    buf.push_bits(0, 4); // tna_mode
    buf.push_bits(0, 3); // no flags
    // The first table has 71 symbols of seven bits; 127 is none of them.
    buf.push_bits(127, 7);
    let mut reader = BitReader::new(&buf.bytes);
    assert_eq!(
        AspxData::parse_1ch(&mut reader, &books, &config, &mut state, 2048, true),
        Err(AspxError::Huffman(HuffmanError::UnknownCodeword))
    );
}

#[test]
fn a_configuration_without_tables_is_reported() {
    let books = books();
    let mut config = base_config();
    config.master_freq_scale = false;
    config.start_freq = 7;
    config.stop_freq = 3;
    let mut state = state_with(config);
    let buf = BitBuf::new();
    let mut reader = BitReader::new(&buf.bytes);
    assert_eq!(
        AspxData::parse_1ch(&mut reader, &books, &config, &mut state, 2048, true),
        Err(AspxError::Bands(BandError::EmptyMasterTable { start_freq: 7, stop_freq: 3 }))
    );
}

#[test]
fn a_framing_without_an_interval_is_reported() {
    let config = base_config();
    let mut buf = BitBuf::new();
    buf.push_bits(0b110, 3); // VARFIX
    buf.push_bits(0, 2); // no relative border
    buf.push_bits(0, 2); // tsg_ptr
    let mut reader = BitReader::new(&buf.bytes);
    assert_eq!(
        parse_framing(&mut reader, &config, 16, false, 14),
        Err(AspxError::Frames(FrameError::NegativeStartBorder { border: -2 }))
    );
}

#[test]
fn the_state_follows_the_interval() {
    let books = books();
    let config = base_config();
    let mut state = AspxState::default();
    assert_eq!(state, AspxState::new());
    state.reset_stop_pos(16);
    let mut buf = BitBuf::new();
    buf.push_bits(2, 3); // xover
    buf.push_bits(0b10, 2); // FIXVAR
    buf.push_bits(3, 2); // the right end lies three slots behind the frame
    let mut reader = BitReader::new(&buf.bytes);
    let first = AspxData::parse_1ch(&mut reader, &books, &config, &mut state, 2048, true)
        .expect("the element parses");
    assert_eq!(first.framing(0).map(|framing| framing.interval.stop_pos()), Some(19));
    assert_eq!(state.xover(), 2);

    let mut buf = BitBuf::new();
    buf.push_bits(0b110, 3); // VARFIX, no left border in a dependent frame
    let mut reader = BitReader::new(&buf.bytes);
    let second = AspxData::parse_1ch(&mut reader, &books, &config, &mut state, 2048, false)
        .expect("the element parses");
    assert_eq!(
        second.framing(0).and_then(|framing| framing.interval.sig_border(0)),
        Some(3),
        "the next interval starts where the last one stopped"
    );
}

#[test]
fn rows_along_time_have_no_absolute_value() {
    let books = books();
    let config = base_config();
    let mut state = state_with(config);
    let bands = AspxBandTables::derive(true, 0, 0, 1, 0).expect("the tables exist");
    let mut buf = BitBuf::new();
    buf.push_bits(0, 3); // xover
    buf.push(false); // FIXFIX
    buf.push_bits(0, 1); // one envelope
    buf.push(true); // sig_delta_dir[0] along time
    buf.push(false); // noise_delta_dir[0]
    buf.push_bits(0, 4); // tna_mode
    buf.push_bits(0, 3); // no flags
    let dt = get_aspx_hcb(EnvelopeKind::Signal, StereoMode::Level, false, HcbType::Dt);
    for _ in 0..bands.num_sbg_sig_highres() {
        push_symbol(&mut buf, dt, 73);
    }
    let mut reader = BitReader::new(&buf.bytes);
    let data = AspxData::parse_1ch(&mut reader, &books, &config, &mut state, 2048, true)
        .expect("the element parses");
    let envelopes = data.envelopes(0).expect("the channel exists");
    assert_eq!(cb_off(&books, dt), 70);
    for sbg in 0..usize::from(bands.num_sbg_sig_highres()) {
        assert_eq!(envelopes.sig(0, sbg), Some(3));
    }
    assert_eq!(envelopes.sig_slice(0).map(<[i16]>::len), Some(22));
    assert_eq!(envelopes.sig_slice(1), None);
    assert_eq!(envelopes.noise_slice(0).map(<[i16]>::len), Some(2));
    assert_eq!(data.framing(0).and_then(|framing| framing.sig_delta_dir(0)), Some(true));
    assert_eq!(data.framing(0).and_then(|framing| framing.noise_delta_dir(0)), Some(false));
    assert_eq!(data.framing(0).and_then(|framing| framing.sig_delta_dir(1)), None);
}
