//! How the values of an envelope are spelled in the bits of a stream.
//!
//! A row of values is spelled by one codeword for each of them. Parsing a row
//! gives exactly the values whose codewords stand in the bits, and gives back
//! every row that has been spelled there. An element is its parts in a fixed
//! order, and ends with the rows of its channels.
use vstd::prelude::*;
use crate::bands::{self, BandError, BandView};
use crate::codebooks;
use crate::element::{self, AspxData, DataView};
use crate::huffman::{self, Codeword};
use crate::payload::{self, EnvelopesView, RowCoding};
use crate::reader::{self, ReaderView};
use crate::syntax::{self, AspxConfig, AspxError, FramingView, Parsed, StateView};
use crate::tables::{EnvelopeKind, StereoMode};

verus! {

/// Whether the bits from `pos` to `end` are the given codewords in turn.
pub open spec fn spells(bits: Seq<bool>, pos: int, words: Seq<Codeword>, end: int) -> bool
    decreases words.len(),
{
    if words.len() == 0 {
        pos == end
    } else {
        let start = end - words.last().length;
        &&& huffman::begins_with(bits, start, words.last())
        &&& spells(bits, pos, words.drop_last(), start)
    }
}

/// Which of the six ranges the values of a row belong to: signal levels in fine
/// and in coarse steps, signal balances in fine and in coarse steps, noise levels
/// and noise balances.
pub open spec fn value_range(kind: EnvelopeKind, stereo: StereoMode, coarse: bool) -> int {
    match (kind, stereo) {
        (EnvelopeKind::Signal, StereoMode::Level) => if coarse {
            1
        } else {
            0
        },
        (EnvelopeKind::Signal, StereoMode::Balance) => if coarse {
            3
        } else {
            2
        },
        (EnvelopeKind::Noise, StereoMode::Level) => 4,
        (EnvelopeKind::Noise, StereoMode::Balance) => 5,
    }
}

/// The largest value of a range.
pub open spec fn largest_value(range: int) -> int {
    if range == 0 {
        70
    } else if range == 1 {
        35
    } else if range == 2 {
        24
    } else if range == 4 {
        29
    } else {
        12
    }
}

/// The codeword of a value in a row: along time every value is a difference, and
/// along frequency every value but the first. Differences count from the least
/// one on.
pub open spec fn word_of(
    books: Seq<Seq<Codeword>>,
    coding: RowCoding,
    sbg: int,
    value: int,
) -> Codeword {
    let range = value_range(coding.kind, coding.stereo, coding.coarse_quant);
    if coding.time {
        books[3 * range + 2][value + largest_value(range)]
    } else if sbg == 0 {
        books[3 * range][value]
    } else {
        books[3 * range + 1][value + largest_value(range)]
    }
}

/// Whether a value of a row has a codeword.
pub open spec fn has_word(coding: RowCoding, sbg: int, value: int) -> bool {
    let largest = largest_value(value_range(coding.kind, coding.stereo, coding.coarse_quant));
    if !coding.time && sbg == 0 {
        0 <= value <= largest
    } else {
        -largest <= value <= largest
    }
}

/// The codewords of a row.
pub open spec fn row_words(
    books: Seq<Seq<Codeword>>,
    coding: RowCoding,
    row: Seq<i16>,
) -> Seq<Codeword> {
    Seq::new(row.len(), |sbg: int| word_of(books, coding, sbg, row[sbg] as int))
}

proof fn lemma_book_of_value(books: Seq<Seq<Codeword>>, coding: RowCoding, sbg: int)
    requires
        codebooks::is_codebook_set(books),
        sbg >= 0,
    ensures
        ({
            let book = coding.book(sbg);
            let words = books[codebooks::codebook_position(book)];
            let offset = codebooks::codebook_offset(book);
            &&& forall|value: int|
                has_word(coding, sbg, value) <==> 0 <= #[trigger] (value + offset) < words.len()
            &&& forall|value: int|
                has_word(coding, sbg, value) ==> words[#[trigger] (value + offset)] == word_of(
                    books,
                    coding,
                    sbg,
                    value,
                )
            &&& 0 <= offset <= 70
            &&& words.len() <= 141
        }),
{
    let ranges = codebooks::SYMBOL_RANGES@;
    assert(ranges[0] == 71 && ranges[1] == 36 && ranges[2] == 25 && ranges[3] == 13 && ranges[4]
        == 30 && ranges[5] == 13);
    let book = coding.book(sbg);
    let range = value_range(coding.kind, coding.stereo, coding.coarse_quant);
    assert(codebooks::range_of(book) == range);
    let position = codebooks::codebook_position(book);
    assert(0 <= position < 18);
    assert(position / 3 == range);
    assert(books[position].len() == codebooks::symbol_count(position));
}

/// A parsed row is spelled by the bits it was parsed from, codeword by codeword.
pub proof fn lemma_parsed_rows_are_spelled(
    books: Seq<Seq<Codeword>>,
    bits: Seq<bool>,
    pos: int,
    coding: RowCoding,
    groups: int,
)
    requires
        codebooks::is_codebook_set(books),
        0 <= groups,
    ensures
        payload::row_at(books, bits, pos, coding, groups) matches Parsed::Done(row, end) ==> {
            &&& row.len() == groups
            &&& forall|sbg: int|
                0 <= sbg < groups ==> has_word(coding, sbg, #[trigger] row[sbg] as int)
            &&& spells(bits, pos, row_words(books, coding, row), end)
        },
    decreases groups,
{
    if groups > 0 {
        lemma_parsed_rows_are_spelled(books, bits, pos, coding, groups - 1);
        lemma_book_of_value(books, coding, groups - 1);
        if let Parsed::Done(row, end) = payload::row_at(books, bits, pos, coding, groups) {
            let before = payload::row_at(books, bits, pos, coding, groups - 1);
            let shorter = before->Done_0;
            let start = before->Done_1;
            let book = coding.book(groups - 1);
            let words = books[codebooks::codebook_position(book)];
            let offset = codebooks::codebook_offset(book);
            let symbol = huffman::symbol_at(words, bits, start)->0;
            assert(0 <= symbol < words.len());
            assert(row[groups - 1] == symbol - offset);
            assert(symbol == row[groups - 1] + offset);
            assert(row_words(books, coding, row).last() == words[symbol]);
            assert(row_words(books, coding, row).drop_last() =~= row_words(books, coding, shorter));
        }
    }
}

/// Every row that is spelled in the bits is parsed back from them.
pub proof fn lemma_spelled_rows_are_parsed(
    books: Seq<Seq<Codeword>>,
    bits: Seq<bool>,
    pos: int,
    coding: RowCoding,
    row: Seq<i16>,
    end: int,
)
    requires
        codebooks::is_codebook_set(books),
        forall|i: int| 0 <= i < books.len() ==> huffman::is_prefix_code(#[trigger] books[i]),
        forall|sbg: int|
            0 <= sbg < row.len() ==> has_word(coding, sbg, #[trigger] row[sbg] as int),
        spells(bits, pos, row_words(books, coding, row), end),
    ensures
        payload::row_at(books, bits, pos, coding, row.len() as int) == Parsed::Done(row, end),
    decreases row.len(),
{
    let groups = row.len() as int;
    if groups > 0 {
        let shorter = row.drop_last();
        let all = row_words(books, coding, row);
        assert(all.drop_last() =~= row_words(books, coding, shorter));
        let start = end - all.last().length;
        assert forall|sbg: int| 0 <= sbg < shorter.len() implies has_word(
            coding,
            sbg,
            #[trigger] shorter[sbg] as int,
        ) by {
            assert(shorter[sbg] == row[sbg]);
        }
        lemma_spelled_rows_are_parsed(books, bits, pos, coding, shorter, start);
        lemma_book_of_value(books, coding, groups - 1);
        let book = coding.book(groups - 1);
        let words = books[codebooks::codebook_position(book)];
        let symbol = row[groups - 1] + codebooks::codebook_offset(book);
        assert(has_word(coding, groups - 1, row[groups - 1] as int));
        assert(all.last() == words[symbol]);
        huffman::lemma_symbol_is_unique(words, bits, start, symbol, symbol);
        assert(shorter.push(row[groups - 1]) =~= row);
    } else {
        assert(row =~= Seq::empty());
    }
}

/// What spells two lists one behind the other spells them as one.
pub proof fn lemma_spelling_joins(
    bits: Seq<bool>,
    pos: int,
    first: Seq<Codeword>,
    middle: int,
    second: Seq<Codeword>,
    end: int,
)
    requires
        spells(bits, pos, first, middle),
        spells(bits, middle, second, end),
    ensures
        spells(bits, pos, first + second, end),
    decreases second.len(),
{
    if second.len() == 0 {
        assert(first + second =~= first);
    } else {
        let start = end - second.last().length;
        lemma_spelling_joins(bits, pos, first, middle, second.drop_last(), start);
        assert((first + second).drop_last() =~= first + second.drop_last());
        assert((first + second).last() == second.last());
    }
}

/// How an envelope of a channel is coded: a signal envelope with the quantiser
/// step of its framing, either one along its own direction.
pub open spec fn own_coding(
    kind: EnvelopeKind,
    framing: FramingView,
    stereo: StereoMode,
    env: int,
) -> RowCoding {
    RowCoding {
        kind,
        stereo,
        coarse_quant: kind == EnvelopeKind::Signal && framing.qmode_env,
        time: if kind == EnvelopeKind::Signal {
            framing.sig_delta_dir[env]
        } else {
            framing.noise_delta_dir[env]
        },
    }
}

/// The codewords of the first `count` envelopes of a family, in their order.
pub open spec fn family_words(
    books: Seq<Seq<Codeword>>,
    kind: EnvelopeKind,
    framing: FramingView,
    stereo: StereoMode,
    rows: Seq<Seq<i16>>,
    count: int,
) -> Seq<Codeword>
    decreases count,
{
    if count <= 0 {
        Seq::empty()
    } else {
        family_words(books, kind, framing, stereo, rows, count - 1) + row_words(
            books,
            own_coding(kind, framing, stereo, count - 1),
            rows[count - 1],
        )
    }
}

proof fn lemma_family_words_prefix(
    books: Seq<Seq<Codeword>>,
    kind: EnvelopeKind,
    framing: FramingView,
    stereo: StereoMode,
    rows: Seq<Seq<i16>>,
    longer: Seq<Seq<i16>>,
    count: int,
)
    requires
        count <= rows.len(),
        rows.len() <= longer.len(),
        forall|env: int| 0 <= env < count ==> #[trigger] rows[env] == longer[env],
    ensures
        family_words(books, kind, framing, stereo, rows, count) == family_words(
            books,
            kind,
            framing,
            stereo,
            longer,
            count,
        ),
    decreases count,
{
    if count > 0 {
        lemma_family_words_prefix(books, kind, framing, stereo, rows, longer, count - 1);
        assert(rows[count - 1] == longer[count - 1]);
    }
}

/// A parsed family of envelopes is spelled by the bits it was parsed from,
/// envelope by envelope. A signal envelope has a value for each group of its own
/// resolution, a noise envelope one for each noise group.
pub proof fn lemma_parsed_families_are_spelled(
    books: Seq<Seq<Codeword>>,
    bits: Seq<bool>,
    pos: int,
    kind: EnvelopeKind,
    bands: BandView,
    framing: FramingView,
    stereo: StereoMode,
    count: int,
)
    requires
        codebooks::is_codebook_set(books),
        0 <= count,
        bands.sig_highres.len() > 0,
        bands.sig_lowres.len() > 0,
        bands.noise.len() > 0,
    ensures
        payload::rows_at(books, bits, pos, kind, bands, framing, stereo, count) matches
            Parsed::Done(rows, end) ==> {
            &&& rows.len() == count
            &&& forall|env: int|
                0 <= env < count ==> (#[trigger] rows[env]).len() == (match kind {
                    EnvelopeKind::Signal => if env < framing.interval.freq_res.len()
                        && framing.interval.freq_res[env] {
                        bands.sig_highres.len() - 1
                    } else {
                        bands.sig_lowres.len() - 1
                    },
                    EnvelopeKind::Noise => bands.noise.len() - 1,
                })
            &&& spells(
                bits,
                pos,
                family_words(books, kind, framing, stereo, rows, count),
                end,
            )
        },
    decreases count,
{
    if count > 0 {
        lemma_parsed_families_are_spelled(
            books,
            bits,
            pos,
            kind,
            bands,
            framing,
            stereo,
            count - 1,
        );
        if let Parsed::Done(rows, end) = payload::rows_at(
            books,
            bits,
            pos,
            kind,
            bands,
            framing,
            stereo,
            count,
        ) {
            let before = payload::rows_at(
                books,
                bits,
                pos,
                kind,
                bands,
                framing,
                stereo,
                count - 1,
            );
            let shorter = before->Done_0;
            let middle = before->Done_1;
            let coding = own_coding(kind, framing, stereo, count - 1);
            assert(coding == payload::coding_of(kind, framing, stereo, count - 1));
            lemma_parsed_rows_are_spelled(
                books,
                bits,
                middle,
                coding,
                payload::groups_of(kind, bands, framing, count - 1),
            );
            assert forall|env: int| 0 <= env < count - 1 implies #[trigger] shorter[env]
                == rows[env] by {}
            assert forall|env: int| 0 <= env < count - 1 implies #[trigger] rows[env]
                == shorter[env] by {}
            lemma_family_words_prefix(books, kind, framing, stereo, shorter, rows, count - 1);
            lemma_spelling_joins(
                bits,
                pos,
                family_words(books, kind, framing, stereo, shorter, count - 1),
                middle,
                row_words(books, coding, rows[count - 1]),
                end,
            );
        }
    }
}

/// The codewords of all envelopes of a family of one channel.
pub open spec fn channel_words(
    books: Seq<Seq<Codeword>>,
    kind: EnvelopeKind,
    data: DataView,
    ch: int,
) -> Seq<Codeword> {
    let stereo = if ch == 1 && data.balance == Some(true) {
        StereoMode::Balance
    } else {
        StereoMode::Level
    };
    let rows = match kind {
        EnvelopeKind::Signal => data.envelopes[ch].sig,
        EnvelopeKind::Noise => data.envelopes[ch].noise,
    };
    family_words(books, kind, data.framing[ch], stereo, rows, rows.len() as int)
}

proof fn lemma_channel_payload(
    books: Seq<Seq<Codeword>>,
    bits: Seq<bool>,
    pos: int,
    bands: BandView,
    framing: FramingView,
    kind: EnvelopeKind,
    stereo: StereoMode,
    envelopes: EnvelopesView,
)
    requires
        codebooks::is_codebook_set(books),
        bands.sig_highres.len() > 0,
        bands.sig_lowres.len() > 0,
        bands.noise.len() > 0,
    ensures
        payload::ec_data_at(books, bits, pos, bands, framing, kind, stereo, envelopes) matches
            Parsed::Done(filled, end) ==> {
            &&& kind == EnvelopeKind::Signal ==> {
                &&& filled.noise == envelopes.noise
                &&& filled.sig.len() == framing.params.num_env
                &&& spells(
                    bits,
                    pos,
                    family_words(
                        books,
                        kind,
                        framing,
                        stereo,
                        filled.sig,
                        filled.sig.len() as int,
                    ),
                    end,
                )
            }
            &&& kind == EnvelopeKind::Noise ==> {
                &&& filled.noise_sbg == (bands.noise.len() - 1) as u8
                &&& filled.sig == envelopes.sig
                &&& filled.noise.len() == framing.params.num_noise
                &&& spells(
                    bits,
                    pos,
                    family_words(
                        books,
                        kind,
                        framing,
                        stereo,
                        filled.noise,
                        filled.noise.len() as int,
                    ),
                    end,
                )
            }
        },
{
    lemma_parsed_families_are_spelled(
        books,
        bits,
        pos,
        kind,
        bands,
        framing,
        stereo,
        payload::envelope_count(kind, framing),
    );
}

proof fn lemma_payload_is_spelled(
    books: Seq<Seq<Codeword>>,
    bits: Seq<bool>,
    pos: int,
    data: DataView,
    end: int,
)
    requires
        codebooks::is_codebook_set(books),
        data.bands.sig_highres.len() > 0,
        data.bands.sig_lowres.len() > 0,
        data.bands.noise.len() > 0,
        element::envelopes_at(
            books,
            bits,
            pos,
            data.bands,
            (data.framing[0], data.framing[1]),
            data.balance,
        ) == Parsed::Done((data.envelopes[0], data.envelopes[1]), end),
    ensures
        data.envelopes[0].noise_sbg == (data.bands.noise.len() - 1) as u8,
        data.balance is Some ==> data.envelopes[1].noise_sbg == (data.bands.noise.len() - 1) as u8,
        data.balance is None ==> data.envelopes[1] == payload::no_envelopes(),
        data.balance is None ==> spells(
            bits,
            pos,
            channel_words(books, EnvelopeKind::Signal, data, 0) + channel_words(
                books,
                EnvelopeKind::Noise,
                data,
                0,
            ),
            end,
        ),
        data.balance is Some ==> spells(
            bits,
            pos,
            channel_words(books, EnvelopeKind::Signal, data, 0) + channel_words(
                books,
                EnvelopeKind::Signal,
                data,
                1,
            ) + channel_words(books, EnvelopeKind::Noise, data, 0) + channel_words(
                books,
                EnvelopeKind::Noise,
                data,
                1,
            ),
            end,
        ),
{
    reveal(element::envelopes_at);
    let bands = data.bands;
    let (first, second) = (data.framing[0], data.framing[1]);
    let none = payload::no_envelopes();
    let other = element::second_stereo(data.balance);
    let level = StereoMode::Level;
    let signal = EnvelopeKind::Signal;
    let noise = EnvelopeKind::Noise;
    let s0 = channel_words(books, signal, data, 0);
    let s1 = channel_words(books, signal, data, 1);
    let n0 = channel_words(books, noise, data, 0);
    let n1 = channel_words(books, noise, data, 1);
    let a = payload::ec_data_at(books, bits, pos, bands, first, signal, level, none);
    lemma_channel_payload(books, bits, pos, bands, first, signal, level, none);
    if data.balance is None {
        lemma_channel_payload(books, bits, a->Done_1, bands, first, noise, level, a->Done_0);
        lemma_spelling_joins(bits, pos, s0, a->Done_1, n0, end);
    } else {
        let b = payload::ec_data_at(
            books,
            bits,
            a->Done_1,
            bands,
            second,
            signal,
            other,
            none,
        );
        lemma_channel_payload(books, bits, a->Done_1, bands, second, signal, other, none);
        let c = payload::ec_data_at(
            books,
            bits,
            b->Done_1,
            bands,
            first,
            noise,
            level,
            a->Done_0,
        );
        lemma_channel_payload(books, bits, b->Done_1, bands, first, noise, level, a->Done_0);
        lemma_channel_payload(books, bits, c->Done_1, bands, second, noise, other, b->Done_0);
        lemma_spelling_joins(bits, pos, s0, a->Done_1, s1, b->Done_1);
        lemma_spelling_joins(bits, pos, s0 + s1, b->Done_1, n0, c->Done_1);
        lemma_spelling_joins(bits, pos, s0 + s1 + n0, c->Done_1, n1, end);
    }
}

/// A-SPX timeslots of a frame: one for each 64 samples, or for each 128 in the
/// three longest frames.
pub open spec fn slots_of(samples: u16) -> u8 {
    if samples >= 1536 {
        (samples as int / 128) as u8
    } else {
        (samples as int / 64) as u8
    }
}

/// Where the framing of an element begins: behind the crossover offset of three
/// bits that an independently decodable frame transmits.
pub open spec fn framing_start(pos: int, b_iframe: bool) -> int {
    if b_iframe {
        pos + 3
    } else {
        pos
    }
}

/// The parts of an element of one channel, in their order: the crossover offset,
/// the framing, the difference directions, the generator flags, the signal
/// envelopes and the noise envelopes.
#[verifier::rlimit(40)]
pub proof fn lemma_single_channel_layout(
    books: Seq<Seq<Codeword>>,
    bits: Seq<bool>,
    pos: int,
    config: AspxConfig,
    state: StateView,
    frame_len_base: u16,
    b_iframe: bool,
)
    requires
        codebooks::is_codebook_set(books),
        0 <= pos,
    ensures
        element::element_at(books, bits, pos, config, state, frame_len_base, b_iframe, false)
            matches Parsed::Done((xover, data), end) ==> {
            let slots = slots_of(frame_len_base);
            let framing = syntax::framing_at(
                bits,
                framing_start(pos, b_iframe),
                config,
                slots,
                b_iframe,
                state.stop_pos[0],
            );
            let directions = syntax::directions_at(bits, framing->Done_1, framing->Done_0);
            let flags = syntax::hfgen_mono_at(
                bits,
                directions->Done_1,
                data.bands.noise.len() - 1,
                data.bands.sig_highres.len() - 1,
                slots as int,
            );
            &&& data.channels == 1
            &&& data.balance is None
            &&& b_iframe ==> xover == reader::bits_value(bits, pos, 3)
            &&& !b_iframe ==> xover == state.xover
            &&& bands::derived_bands(
                config.master_freq_scale,
                config.start_freq,
                config.stop_freq,
                config.noise_sbg,
                xover,
            ) == Ok::<BandView, BandError>(data.bands)
            &&& framing is Done
            &&& directions is Done
            &&& directions->Done_0 == data.framing[0]
            &&& flags is Done
            &&& flags->Done_0 == data.hfgen[0]
            &&& data.framing[1].interval.sig.len() == 0
            &&& data.hfgen[1].add_harmonic.len() == 0
            &&& data.envelopes[1].sig.len() == 0
            &&& data.envelopes[1].noise.len() == 0
            &&& data.envelopes[0].noise_sbg == data.bands.noise.len() - 1
            &&& spells(
                bits,
                flags->Done_1,
                channel_words(books, EnvelopeKind::Signal, data, 0) + channel_words(
                    books,
                    EnvelopeKind::Noise,
                    data,
                    0,
                ),
                end,
            )
        },
{
    reveal(element::framings_at);
    reveal(element::directed_at);
    reveal(element::hfgens_at);
    if let Parsed::Done((xover, data), end) = element::element_at(
        books,
        bits,
        pos,
        config,
        state,
        frame_len_base,
        b_iframe,
        false,
    ) {
        let slots = slots_of(frame_len_base);
        assert(slots == crate::tables::aspx_timeslots(frame_len_base as int) as u8);
        lemma_offset_field(bits, pos);
        lemma_tables_are_filled(config, xover, data.bands);
        let framing = syntax::framing_at(
            bits,
            framing_start(pos, b_iframe),
            config,
            slots,
            b_iframe,
            state.stop_pos[0],
        );
        let directions = syntax::directions_at(bits, framing->Done_1, framing->Done_0);
        let flags = syntax::hfgen_mono_at(
            bits,
            directions->Done_1,
            data.bands.noise.len() - 1,
            data.bands.sig_highres.len() - 1,
            slots as int,
        );
        lemma_payload_is_spelled(books, bits, flags->Done_1, data, end);
    }
}

proof fn lemma_offset_field(bits: Seq<bool>, pos: int)
    ensures
        reader::bits_value(bits, pos, 3) < 8,
{
    reader::lemma_bits_value_range(bits, pos, 3);
    vstd::arithmetic::power2::lemma2_to64();
}

proof fn lemma_tables_are_filled(config: AspxConfig, xover: u8, bands: BandView)
    requires
        bands::derived_bands(
            config.master_freq_scale,
            config.start_freq,
            config.stop_freq,
            config.noise_sbg,
            xover,
        ) == Ok::<BandView, BandError>(bands),
    ensures
        bands.sig_highres.len() > 1,
        bands.sig_lowres.len() > 1,
        1 < bands.noise.len() <= 6,
{
    reveal(BandView::legal);
    bands::lemma_bands_are_structured(bands);
}

/// The parts of a channel pair, in their order: the crossover offset, the framing
/// of the first channel, a bit that says whether the pair is balanced, the
/// framing of the second channel unless it is, the difference directions of
/// both, the generator flags of both, the signal envelopes of both, and the
/// noise envelopes of both. The second channel of a balanced pair has the
/// framing of the first and the balance codebooks; each channel that has its own
/// framing continues its own last interval.
#[verifier::rlimit(40)]
pub proof fn lemma_channel_pair_layout(
    books: Seq<Seq<Codeword>>,
    bits: Seq<bool>,
    pos: int,
    config: AspxConfig,
    state: StateView,
    frame_len_base: u16,
    b_iframe: bool,
)
    requires
        codebooks::is_codebook_set(books),
        0 <= pos,
    ensures
        element::element_at(books, bits, pos, config, state, frame_len_base, b_iframe, true) matches
            Parsed::Done((xover, data), end) ==> {
            let slots = slots_of(frame_len_base);
            let first = syntax::framing_at(
                bits,
                framing_start(pos, b_iframe),
                config,
                slots,
                b_iframe,
                state.stop_pos[0],
            );
            let balance = bits[first->Done_1];
            let own = syntax::framing_at(
                bits,
                first->Done_1 + 1,
                config,
                slots,
                b_iframe,
                state.stop_pos[1],
            );
            let second = if balance {
                Parsed::Done(first->Done_0, first->Done_1 + 1)
            } else {
                own
            };
            let left = syntax::directions_at(bits, second->Done_1, first->Done_0);
            let right = syntax::directions_at(bits, left->Done_1, second->Done_0);
            let flags = syntax::hfgen_pair_at(
                bits,
                right->Done_1,
                data.bands.noise.len() - 1,
                data.bands.sig_highres.len() - 1,
                slots as int,
                balance,
            );
            &&& data.channels == 2
            &&& data.balance == Some(balance)
            &&& b_iframe ==> xover == reader::bits_value(bits, pos, 3)
            &&& !b_iframe ==> xover == state.xover
            &&& bands::derived_bands(
                config.master_freq_scale,
                config.start_freq,
                config.stop_freq,
                config.noise_sbg,
                xover,
            ) == Ok::<BandView, BandError>(data.bands)
            &&& first is Done
            &&& second is Done
            &&& left is Done
            &&& left->Done_0 == data.framing[0]
            &&& right is Done
            &&& right->Done_0 == data.framing[1]
            &&& flags is Done
            &&& (flags->Done_0).0 == data.hfgen[0]
            &&& (flags->Done_0).1 == data.hfgen[1]
            &&& data.envelopes[0].noise_sbg == data.bands.noise.len() - 1
            &&& data.envelopes[1].noise_sbg == data.bands.noise.len() - 1
            &&& spells(
                bits,
                flags->Done_1,
                channel_words(books, EnvelopeKind::Signal, data, 0) + channel_words(
                    books,
                    EnvelopeKind::Signal,
                    data,
                    1,
                ) + channel_words(books, EnvelopeKind::Noise, data, 0) + channel_words(
                    books,
                    EnvelopeKind::Noise,
                    data,
                    1,
                ),
                end,
            )
        },
{
    reveal(element::framings_at);
    reveal(element::directed_at);
    reveal(element::hfgens_at);
    if let Parsed::Done((xover, data), end) = element::element_at(
        books,
        bits,
        pos,
        config,
        state,
        frame_len_base,
        b_iframe,
        true,
    ) {
        let slots = slots_of(frame_len_base);
        assert(slots == crate::tables::aspx_timeslots(frame_len_base as int) as u8);
        lemma_offset_field(bits, pos);
        lemma_tables_are_filled(config, xover, data.bands);
        let first = syntax::framing_at(
            bits,
            framing_start(pos, b_iframe),
            config,
            slots,
            b_iframe,
            state.stop_pos[0],
        );
        let balance = bits[first->Done_1];
        let own = syntax::framing_at(
            bits,
            first->Done_1 + 1,
            config,
            slots,
            b_iframe,
            state.stop_pos[1],
        );
        let second = if balance {
            Parsed::Done(first->Done_0, first->Done_1 + 1)
        } else {
            own
        };
        let left = syntax::directions_at(bits, second->Done_1, first->Done_0);
        let right = syntax::directions_at(bits, left->Done_1, second->Done_0);
        let flags = syntax::hfgen_pair_at(
            bits,
            right->Done_1,
            data.bands.noise.len() - 1,
            data.bands.sig_highres.len() - 1,
            slots as int,
            balance,
        );
        lemma_payload_is_spelled(books, bits, flags->Done_1, data, end);
    }
}

/// What parsing an element leaves behind. A failure changes nothing but the
/// position. A success remembers its crossover offset and where the interval of
/// each of its channels ended; what is remembered of an absent second channel
/// stays.
pub proof fn lemma_what_parsing_leaves_behind(
    expected: Parsed<(u8, DataView)>,
    result: Result<AspxData, AspxError>,
    before: ReaderView,
    after: ReaderView,
    state_before: StateView,
    state_now: StateView,
)
    requires
        element::parsed_as(expected, result, before, after, state_before, state_now),
        state_before.stop_pos.len() == 2,
    ensures
        result is Ok == expected is Done,
        result matches Err(error) ==> {
            &&& state_now == state_before
            &&& expected->Failed_0 == error
            &&& expected->Failed_1 == after.pos
        },
        result matches Ok(data) ==> {
            let first = data@.framing[0].interval.sig;
            let second = data@.framing[1].interval.sig;
            &&& expected->Done_0 == (state_now.xover, data@)
            &&& expected->Done_1 == after.pos
            &&& state_now.stop_pos.len() == 2
            &&& first.len() > 0 ==> state_now.stop_pos[0] == first[first.len() - 1]
            &&& data@.channels == 2 && second.len() > 0 ==> state_now.stop_pos[1]
                == second[second.len() - 1]
            &&& data@.channels != 2 ==> state_now.stop_pos[1] == state_before.stop_pos[1]
        },
{
}

/// Why an element is refused before its framing is read: its frame has none of
/// the eight lengths, and then not a bit is read; too few bits are left for the
/// crossover offset; or the configuration has no tables with that offset.
pub proof fn lemma_why_an_element_is_refused_early(
    books: Seq<Seq<Codeword>>,
    bits: Seq<bool>,
    pos: int,
    config: AspxConfig,
    state: StateView,
    frame_len_base: u16,
    b_iframe: bool,
    two_channels: bool,
)
    requires
        0 <= pos <= bits.len(),
    ensures
        ({
            let parsed = element::element_at(
                books,
                bits,
                pos,
                config,
                state,
                frame_len_base,
                b_iframe,
                two_channels,
            );
            let known = frame_len_base == 2048 || frame_len_base == 1920 || frame_len_base == 1536
                || frame_len_base == 1024 || frame_len_base == 960 || frame_len_base == 768
                || frame_len_base == 512 || frame_len_base == 384;
            let xover = if b_iframe {
                reader::bits_value(bits, pos, 3) as u8
            } else {
                state.xover
            };
            &&& !known ==> parsed == Parsed::<(u8, DataView)>::Failed(
                AspxError::UnsupportedFrameLenBase { frame_len_base },
                pos,
            )
            &&& known && b_iframe && pos + 3 > bits.len() ==> parsed is Failed && parsed->Failed_1
                == pos
            &&& known && framing_start(pos, b_iframe) <= bits.len() ==> (bands::derived_bands(
                config.master_freq_scale,
                config.start_freq,
                config.stop_freq,
                config.noise_sbg,
                xover,
            ) matches Err(error) ==> parsed == Parsed::<(u8, DataView)>::Failed(
                AspxError::Bands(error),
                framing_start(pos, b_iframe),
            ))
        }),
{
}

/// Flags are kept for all timeslots of a frame, sixteen at most.
pub proof fn lemma_kept_slots(slots: u8)
    ensures
        element::stored_slots(slots) <= 16,
        slots <= 16 ==> element::stored_slots(slots) == slots,
        slots > 16 ==> element::stored_slots(slots) == 16,
{
}

/// What spells a list spells its two parts one behind the other. Gives where the
/// second part begins.
pub proof fn lemma_spelling_splits(
    bits: Seq<bool>,
    pos: int,
    first: Seq<Codeword>,
    second: Seq<Codeword>,
    end: int,
) -> (middle: int)
    requires
        spells(bits, pos, first + second, end),
    ensures
        spells(bits, pos, first, middle),
        spells(bits, middle, second, end),
    decreases second.len(),
{
    if second.len() == 0 {
        assert(first + second =~= first);
        end
    } else {
        let start = end - second.last().length;
        assert((first + second).drop_last() =~= first + second.drop_last());
        assert((first + second).last() == second.last());
        lemma_spelling_splits(bits, pos, first, second.drop_last(), start)
    }
}

/// Every family of envelopes that is spelled in the bits is parsed back from
/// them, if its rows have the lengths that the tables and the resolutions give
/// them.
pub proof fn lemma_spelled_families_are_parsed(
    books: Seq<Seq<Codeword>>,
    bits: Seq<bool>,
    pos: int,
    kind: EnvelopeKind,
    bands: BandView,
    framing: FramingView,
    stereo: StereoMode,
    rows: Seq<Seq<i16>>,
    end: int,
)
    requires
        codebooks::is_codebook_set(books),
        forall|i: int| 0 <= i < books.len() ==> huffman::is_prefix_code(#[trigger] books[i]),
        bands.sig_highres.len() > 0,
        bands.sig_lowres.len() > 0,
        bands.noise.len() > 0,
        forall|env: int|
            0 <= env < rows.len() ==> (#[trigger] rows[env]).len() == (match kind {
                EnvelopeKind::Signal => if env < framing.interval.freq_res.len()
                    && framing.interval.freq_res[env] {
                    bands.sig_highres.len() - 1
                } else {
                    bands.sig_lowres.len() - 1
                },
                EnvelopeKind::Noise => bands.noise.len() - 1,
            }),
        forall|env: int, sbg: int|
            0 <= env < rows.len() && 0 <= sbg < rows[env].len() ==> has_word(
                own_coding(kind, framing, stereo, env),
                sbg,
                #[trigger] rows[env][sbg] as int,
            ),
        spells(
            bits,
            pos,
            family_words(books, kind, framing, stereo, rows, rows.len() as int),
            end,
        ),
    ensures
        payload::rows_at(books, bits, pos, kind, bands, framing, stereo, rows.len() as int)
            == Parsed::Done(rows, end),
    decreases rows.len(),
{
    let count = rows.len() as int;
    if count > 0 {
        let shorter = rows.drop_last();
        let last = rows[count - 1];
        let coding = own_coding(kind, framing, stereo, count - 1);
        let leading = family_words(books, kind, framing, stereo, rows, count - 1);
        let middle = lemma_spelling_splits(
            bits,
            pos,
            leading,
            row_words(books, coding, last),
            end,
        );
        assert forall|env: int| 0 <= env < count - 1 implies #[trigger] shorter[env]
            == rows[env] by {}
        lemma_family_words_prefix(books, kind, framing, stereo, shorter, rows, count - 1);
        assert forall|env: int, sbg: int|
            0 <= env < shorter.len() && 0 <= sbg < shorter[env].len() implies has_word(
            own_coding(kind, framing, stereo, env),
            sbg,
            #[trigger] shorter[env][sbg] as int,
        ) by {
            assert(shorter[env][sbg] == rows[env][sbg]);
        }
        lemma_spelled_families_are_parsed(
            books,
            bits,
            pos,
            kind,
            bands,
            framing,
            stereo,
            shorter,
            middle,
        );
        assert forall|sbg: int| 0 <= sbg < last.len() implies has_word(
            coding,
            sbg,
            #[trigger] last[sbg] as int,
        ) by {
            assert(rows[count - 1][sbg] == last[sbg]);
        }
        lemma_spelled_rows_are_parsed(books, bits, middle, coding, last, end);
        assert(coding == payload::coding_of(kind, framing, stereo, count - 1));
        assert(last.len() == payload::groups_of(kind, bands, framing, count - 1));
        assert(shorter.push(last) =~= rows);
    } else {
        assert(rows =~= Seq::empty());
    }
}

/// An element is parsed exactly when each of its parts is: the frame has one of
/// the eight lengths, the crossover offset is there, the configuration has tables
/// with it, and the framing, the directions, the generator flags and the
/// envelopes of all channels can be read one behind the other.
#[verifier::rlimit(40)]
pub proof fn lemma_elements_are_parsed_by_parts(
    books: Seq<Seq<Codeword>>,
    bits: Seq<bool>,
    pos: int,
    config: AspxConfig,
    state: StateView,
    frame_len_base: u16,
    b_iframe: bool,
    two_channels: bool,
)
    requires
        0 <= pos <= bits.len(),
    ensures
        ({
            let known = frame_len_base == 2048 || frame_len_base == 1920 || frame_len_base == 1536
                || frame_len_base == 1024 || frame_len_base == 960 || frame_len_base == 768
                || frame_len_base == 512 || frame_len_base == 384;
            let slots = slots_of(frame_len_base);
            let start = framing_start(pos, b_iframe);
            let xover = if b_iframe {
                reader::bits_value(bits, pos, 3) as u8
            } else {
                state.xover
            };
            let bands = bands::derived_bands(
                config.master_freq_scale,
                config.start_freq,
                config.stop_freq,
                config.noise_sbg,
                xover,
            );
            let framings = element::framings_at(
                bits,
                start,
                config,
                slots,
                b_iframe,
                state.stop_pos,
                two_channels,
            );
            let (balance, first, second) = framings->Done_0;
            let directed = element::directed_at(
                bits,
                framings->Done_1,
                first,
                second,
                two_channels,
            );
            let flags = element::hfgens_at(bits, directed->Done_1, bands->Ok_0, slots, balance);
            let envelopes = element::envelopes_at(
                books,
                bits,
                flags->Done_1,
                bands->Ok_0,
                directed->Done_0,
                balance,
            );
            element::element_at(
                books,
                bits,
                pos,
                config,
                state,
                frame_len_base,
                b_iframe,
                two_channels,
            ) is Done <==> {
                &&& known
                &&& start <= bits.len()
                &&& bands is Ok
                &&& framings is Done
                &&& directed is Done
                &&& flags is Done
                &&& envelopes is Done
            }
        }),
{
    if crate::tables::is_frame_length(frame_len_base as int) {
        assert(slots_of(frame_len_base) == crate::tables::aspx_timeslots(frame_len_base as int)
            as u8);
    }
}

} // verus!
