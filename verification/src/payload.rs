//! The entropy-coded payload of an A-SPX element.
//!
//! Every envelope is a row of symbols, one for each subband group. Along
//! frequency the first symbol is an absolute value and the others are
//! differences; along time all of them are differences.
use vstd::prelude::*;
use crate::bands::{self, AspxBandTables, BandView};
use crate::codebooks::{self, cb_off, table_for, AspxCodebooks};
use crate::envelope::{self, NOISE_GROUPS};
use crate::frames::{IntervalView, MAX_ATSG_NOISE, MAX_ATSG_SIG};
use crate::huffman::{self, Codeword, HuffmanError, HuffmanTable};
use crate::reader::{BitReader, ReadError};
use crate::syntax::{self, AspxChannelFraming, AspxError, FramingView, Parsed, MAX_SBG_PER_ENVELOPE};
use crate::tables::{self, get_aspx_hcb, AspxCodebook, EnvelopeKind, HcbType, StereoMode};

verus! {

/// The value that the codeword at a position stands for in a codebook.
pub open spec fn value_at(words: Seq<Codeword>, offset: int, bits: Seq<bool>, pos: int) -> Parsed<
    i16,
> {
    match huffman::symbol_at(words, bits, pos) {
        Some(symbol) => Parsed::Done((symbol - offset) as i16, pos + words[symbol].length),
        None => if bits.len() - pos < huffman::longest(words, words.len() as int) {
            Parsed::Failed(
                AspxError::Huffman(
                    HuffmanError::Read(ReadError::EndOfData { needed: 1, available: 0 }),
                ),
                bits.len() as int,
            )
        } else {
            Parsed::Failed(
                AspxError::Huffman(HuffmanError::UnknownCodeword),
                pos + huffman::longest(words, words.len() as int),
            )
        },
    }
}

/// What distinguishes the codebooks of the groups of one envelope.
pub struct RowCoding {
    /// Envelope family.
    pub kind: EnvelopeKind,
    /// Level or balance.
    pub stereo: StereoMode,
    /// Quantiser step.
    pub coarse_quant: bool,
    /// Whether the differences run along time.
    pub time: bool,
}

impl RowCoding {
    /// The codebook of group `sbg`: along time all values are differences;
    /// along frequency the first one is absolute.
    pub open spec fn book(self, sbg: int) -> AspxCodebook {
        tables::aspx_hcb(
            self.kind,
            self.stereo,
            self.coarse_quant,
            if self.time {
                HcbType::Dt
            } else if sbg == 0 {
                HcbType::F0
            } else {
                HcbType::Df
            },
        )
    }
}

/// The values of the first `groups` groups of one envelope.
pub open spec fn row_at(
    books: Seq<Seq<Codeword>>,
    bits: Seq<bool>,
    pos: int,
    coding: RowCoding,
    groups: int,
) -> Parsed<Seq<i16>>
    decreases groups,
{
    if groups <= 0 {
        Parsed::Done(Seq::empty(), pos)
    } else {
        match row_at(books, bits, pos, coding, groups - 1) {
            Parsed::Failed(error, p) => Parsed::Failed(error, p),
            Parsed::Done(values, p) => {
                let book = coding.book(groups - 1);
                match value_at(
                    books[codebooks::codebook_position(book)],
                    codebooks::codebook_offset(book),
                    bits,
                    p,
                ) {
                    Parsed::Failed(error, q) => Parsed::Failed(error, q),
                    Parsed::Done(value, q) => Parsed::Done(values.push(value), q),
                }
            },
        }
    }
}

proof fn lemma_row_failure_stays(
    books: Seq<Seq<Codeword>>,
    bits: Seq<bool>,
    pos: int,
    coding: RowCoding,
    count: int,
    total: int,
)
    requires
        count <= total,
        row_at(books, bits, pos, coding, count) is Failed,
    ensures
        row_at(books, bits, pos, coding, total) == row_at(books, bits, pos, coding, count),
    decreases total - count,
{
    if count < total {
        lemma_row_failure_stays(books, bits, pos, coding, count, total - 1);
    }
}

/// Decodes one value.
fn decode_one(reader: &mut BitReader<'_>, table: &HuffmanTable, offset: i16) -> (result: Result<
    i16,
    AspxError,
>)
    requires
        table@.len() <= 1000,
        0 <= offset <= 1000,
    ensures
        syntax::as_expected(
            value_at(table@, offset as int, old(reader)@.bits, old(reader)@.pos),
            result,
            old(reader)@,
            final(reader)@,
        ),
{
    match table.decode(reader) {
        Ok(symbol) => Ok(symbol as i16 - offset),
        Err(error) => Err(AspxError::from(error)),
    }
}

/// Reads the values of one envelope into the front of `out`.
fn parse_huff_data(
    reader: &mut BitReader<'_>,
    books: &AspxCodebooks,
    kind: EnvelopeKind,
    stereo: StereoMode,
    coarse_quant: bool,
    time: bool,
    groups: usize,
    out: &mut [i16],
) -> (result: Result<(), AspxError>)
    requires
        groups <= old(out)@.len(),
    ensures
        final(out)@.len() == old(out)@.len(),
        match result {
            Ok(_) => {
                &&& syntax::as_expected(
                    row_at(
                        books@,
                        old(reader)@.bits,
                        old(reader)@.pos,
                        (RowCoding { kind, stereo, coarse_quant, time }),
                        groups as int,
                    ),
                    Ok(final(out)@.take(groups as int)),
                    old(reader)@,
                    final(reader)@,
                )
                &&& forall|i: int|
                    groups <= i < old(out)@.len() ==> final(out)@[i] == old(out)@[i]
            },
            Err(error) => syntax::as_expected(
                row_at(
                    books@,
                    old(reader)@.bits,
                    old(reader)@.pos,
                    (RowCoding { kind, stereo, coarse_quant, time }),
                    groups as int,
                ),
                Err(error),
                old(reader)@,
                final(reader)@,
            ),
        },
{
    let ghost start = reader@;
    let ghost before = out@;
    let ghost coding = RowCoding { kind, stereo, coarse_quant, time };
    let mut sbg: usize = 0;
    assert(out@.take(0) =~= Seq::empty());
    while sbg < groups
        invariant
            sbg <= groups <= out@.len(),
            start == old(reader)@,
            before == old(out)@,
            out@.len() == before.len(),
            coding == (RowCoding { kind, stereo, coarse_quant, time }),
            reader@.bits == start.bits,
            row_at(books@, start.bits, start.pos, coding, sbg as int) == Parsed::Done(
                out@.take(sbg as int),
                reader@.pos,
            ),
            forall|i: int| groups <= i < before.len() ==> out@[i] == before[i],
        decreases groups - sbg,
    {
        let hcb_type = if time {
            HcbType::Dt
        } else if sbg == 0 {
            HcbType::F0
        } else {
            HcbType::Df
        };
        let book = get_aspx_hcb(kind, stereo, coarse_quant, hcb_type);
        let table = table_for(books, book);
        let offset: i16 = cb_off(books, book);
        proof {
            let ranges = codebooks::SYMBOL_RANGES@;
            assert(ranges[0] == 71 && ranges[1] == 36 && ranges[2] == 25 && ranges[3] == 13
                && ranges[4] == 30 && ranges[5] == 13);
            assert(books@[codebooks::codebook_position(book)].len() == codebooks::symbol_count(
                codebooks::codebook_position(book),
            ));
        }
        let value: i16 = match decode_one(reader, table, offset) {
            Ok(value) => value,
            Err(error) => {
                proof {
                    lemma_row_failure_stays(
                        books@,
                        start.bits,
                        start.pos,
                        coding,
                        sbg + 1,
                        groups as int,
                    );
                }
                return Err(error);
            },
        };
        let ghost kept = out@.take(sbg as int);
        out[sbg] = value;
        assert(out@.take(sbg + 1) =~= kept.push(value));
        sbg = sbg + 1;
    }
    Ok(())
}

/// Entropy-coded values of one channel.
#[verifier::ext_equal]
pub struct EnvelopesView {
    /// Values of each signal envelope, one per group.
    pub sig: Seq<Seq<i16>>,
    /// Values of each noise envelope, one per group.
    pub noise: Seq<Seq<i16>>,
    /// Number of noise groups.
    pub noise_sbg: u8,
}

/// The values of a channel that has none.
pub open spec fn no_envelopes() -> EnvelopesView {
    EnvelopesView { sig: Seq::empty(), noise: Seq::empty(), noise_sbg: 0 }
}

/// Entropy-coded values of one channel: differences and absolute values, not
/// yet added up.
#[derive(Debug, Clone, Copy, PartialEq, Eq)]
pub struct AspxEnvelopes {
    sig: [[i16; MAX_SBG_PER_ENVELOPE]; MAX_ATSG_SIG],
    sig_sbg: [u8; MAX_ATSG_SIG],
    num_env: u8,
    noise: [[i16; NOISE_GROUPS]; MAX_ATSG_NOISE],
    noise_sbg: u8,
    num_noise: u8,
}

impl View for AspxEnvelopes {
    type V = EnvelopesView;

    closed spec fn view(&self) -> EnvelopesView {
        EnvelopesView {
            sig: Seq::new(
                self.num_env as nat,
                |env: int| self.sig@[env]@.take(self.sig_sbg@[env] as int),
            ),
            noise: Seq::new(
                self.num_noise as nat,
                |env: int| self.noise@[env]@.take(self.noise_sbg as int),
            ),
            noise_sbg: self.noise_sbg,
        }
    }
}

impl AspxEnvelopes {
    #[verifier::type_invariant]
    spec fn well_formed(self) -> bool {
        &&& self.num_env <= MAX_ATSG_SIG
        &&& self.num_noise <= MAX_ATSG_NOISE
        &&& self.noise_sbg <= NOISE_GROUPS
        &&& forall|env: int|
            0 <= env < self.num_env ==> #[trigger] self.sig_sbg@[env] <= MAX_SBG_PER_ENVELOPE
    }

    /// The values of a channel that has none.
    pub(crate) fn empty() -> (envelopes: Self)
        ensures
            envelopes@ == no_envelopes(),
    {
        let envelopes = AspxEnvelopes {
            sig: [[0; MAX_SBG_PER_ENVELOPE]; MAX_ATSG_SIG],
            sig_sbg: [0; MAX_ATSG_SIG],
            num_env: 0,
            noise: [[0; NOISE_GROUPS]; MAX_ATSG_NOISE],
            noise_sbg: 0,
            num_noise: 0,
        };
        assert(envelopes@ =~= no_envelopes());
        envelopes
    }

    /// Assembles the values of a channel; every signal envelope has as many
    /// groups as its slice, and all noise envelopes have as many as the first.
    pub fn from_parts(sig: &[&[i16]], noise: &[&[i16]]) -> (envelopes: Self)
        requires
            sig@.len() <= MAX_ATSG_SIG,
            noise@.len() <= MAX_ATSG_NOISE,
            forall|env: int|
                0 <= env < sig@.len() ==> (#[trigger] sig@[env])@.len() <= MAX_SBG_PER_ENVELOPE,
            forall|env: int|
                0 <= env < noise@.len() ==> (#[trigger] noise@[env])@.len() <= NOISE_GROUPS,
        ensures
            envelopes@.sig == Seq::new(sig@.len(), |env: int| sig@[env]@),
            envelopes@.noise == Seq::new(
                noise@.len(),
                |env: int|
                    envelope::padded(
                        noise@[env]@.take(
                            if noise@[env]@.len() <= noise@[0]@.len() {
                                noise@[env]@.len() as int
                            } else {
                                noise@[0]@.len() as int
                            },
                        ),
                        noise@[0]@.len() as int,
                    ),
            ),
            envelopes@.noise_sbg == if noise@.len() == 0 {
                0
            } else {
                noise@[0]@.len()
            },
    {
        let mut sig_rows: [[i16; MAX_SBG_PER_ENVELOPE]; MAX_ATSG_SIG] = [[0; MAX_SBG_PER_ENVELOPE];
            MAX_ATSG_SIG];
        let mut sig_sbg: [u8; MAX_ATSG_SIG] = [0; MAX_ATSG_SIG];
        let mut env: usize = 0;
        while env < sig.len()
            invariant
                env <= sig@.len() <= MAX_ATSG_SIG,
                forall|e: int|
                    0 <= e < sig@.len() ==> (#[trigger] sig@[e])@.len() <= MAX_SBG_PER_ENVELOPE,
                forall|e: int|
                    0 <= e < env ==> {
                        &&& #[trigger] sig_sbg@[e] == sig@[e]@.len()
                        &&& sig_rows@[e]@.take(sig@[e]@.len() as int) == sig@[e]@
                    },
            decreases sig@.len() - env,
        {
            let row = copy_row(sig[env]);
            let ghost rows_before = sig_rows@;
            let ghost sbg_before = sig_sbg@;
            sig_rows[env] = row;
            sig_sbg[env] = sig[env].len() as u8;
            assert forall|e: int| 0 <= e <= env implies {
                &&& #[trigger] sig_sbg@[e] == sig@[e]@.len()
                &&& sig_rows@[e]@.take(sig@[e]@.len() as int) == sig@[e]@
            } by {
                if e < env {
                    assert(sig_sbg@[e] == sbg_before[e]);
                    assert(sig_rows@[e] == rows_before[e]);
                }
            }
            env = env + 1;
        }
        let groups: usize = if noise.len() == 0 {
            0
        } else {
            noise[0].len()
        };
        let mut noise_rows: [[i16; NOISE_GROUPS]; MAX_ATSG_NOISE] = [[0; NOISE_GROUPS];
            MAX_ATSG_NOISE];
        env = 0;
        while env < noise.len()
            invariant
                env <= noise@.len() <= MAX_ATSG_NOISE,
                noise@.len() > 0 ==> groups == noise@[0]@.len(),
                forall|e: int|
                    0 <= e < noise@.len() ==> (#[trigger] noise@[e])@.len() <= NOISE_GROUPS,
                forall|e: int|
                    0 <= e < env ==> #[trigger] noise_rows@[e]@ == envelope::padded(
                        noise@[e]@,
                        5,
                    ),
            decreases noise@.len() - env,
        {
            let row = copy_noise_row(noise[env]);
            let ghost rows_before = noise_rows@;
            noise_rows[env] = row;
            assert forall|e: int| 0 <= e <= env implies #[trigger] noise_rows@[e]@
                == envelope::padded(noise@[e]@, 5) by {
                if e < env {
                    assert(noise_rows@[e] == rows_before[e]);
                    assert(rows_before[e]@ == envelope::padded(noise@[e]@, 5));
                }
            }
            env = env + 1;
        }
        proof {
            if noise@.len() > 0 {
                assert(noise@[0]@.len() <= NOISE_GROUPS);
            }
            assert forall|e: int| 0 <= e < sig@.len() implies sig_sbg@[e]
                <= MAX_SBG_PER_ENVELOPE by {
                assert(sig@[e]@.len() <= MAX_SBG_PER_ENVELOPE);
            }
        }
        let envelopes = AspxEnvelopes {
            sig: sig_rows,
            sig_sbg,
            num_env: sig.len() as u8,
            noise: noise_rows,
            noise_sbg: groups as u8,
            num_noise: noise.len() as u8,
        };
        proof {
            assert forall|e: int| 0 <= e < sig@.len() implies #[trigger] envelopes@.sig[e]
                == sig@[e]@ by {
                assert(sig_sbg@[e] == sig@[e]@.len());
            }
            assert(envelopes@.sig =~= Seq::new(sig@.len(), |env: int| sig@[env]@));
            assert forall|e: int| 0 <= e < noise@.len() implies #[trigger] envelopes@.noise[e]
                == envelope::padded(
                noise@[e]@.take(
                    if noise@[e]@.len() <= noise@[0]@.len() {
                        noise@[e]@.len() as int
                    } else {
                        noise@[0]@.len() as int
                    },
                ),
                noise@[0]@.len() as int,
            ) by {
                assert(noise_rows@[e]@ == envelope::padded(noise@[e]@, 5));
                assert(noise_rows@[e]@.take(groups as int) =~= envelope::padded(
                    noise@[e]@.take(
                        if noise@[e]@.len() <= noise@[0]@.len() {
                            noise@[e]@.len() as int
                        } else {
                            noise@[0]@.len() as int
                        },
                    ),
                    noise@[0]@.len() as int,
                ));
            }
        }
        envelopes
    }

    /// Number of groups in signal envelope `env`.
    #[must_use]
    pub fn sig_sbg_count(&self, env: usize) -> (count: Option<u8>)
        ensures
            match count {
                Some(groups) => env < self@.sig.len() && groups == self@.sig[env as int].len(),
                None => env >= self@.sig.len(),
            },
    {
        proof {
            use_type_invariant(self);
        }
        if env >= self.num_env as usize {
            return None;
        }
        Some(self.sig_sbg[env])
    }

    /// Value of group `sbg` in signal envelope `env`.
    #[must_use]
    pub fn sig(&self, env: usize, sbg: usize) -> (value: Option<i16>)
        ensures
            value == envelope::cell(self@.sig, env as int, sbg as int),
    {
        proof {
            use_type_invariant(self);
        }
        if env >= self.num_env as usize || sbg >= self.sig_sbg[env] as usize {
            return None;
        }
        Some(self.sig[env][sbg])
    }

    /// Value of group `sbg` in noise envelope `env`.
    #[must_use]
    pub fn noise(&self, env: usize, sbg: usize) -> (value: Option<i16>)
        ensures
            value == envelope::cell(self@.noise, env as int, sbg as int),
    {
        proof {
            use_type_invariant(self);
        }
        if env >= self.num_noise as usize || sbg >= self.noise_sbg as usize {
            return None;
        }
        Some(self.noise[env][sbg])
    }

    /// Number of groups in every noise envelope.
    #[must_use]
    pub fn noise_sbg_count(&self) -> (count: u8)
        ensures
            count == self@.noise_sbg,
    {
        self.noise_sbg
    }

    /// All values of signal envelope `env`.
    #[must_use]
    pub fn sig_slice(&self, env: usize) -> (values: Option<&[i16]>)
        ensures
            match values {
                Some(slice) => env < self@.sig.len() && slice@ == self@.sig[env as int],
                None => env >= self@.sig.len(),
            },
    {
        proof {
            use_type_invariant(self);
        }
        if env >= self.num_env as usize {
            return None;
        }
        Some(vstd::slice::slice_subrange(&self.sig[env], 0, self.sig_sbg[env] as usize))
    }

    /// All values of noise envelope `env`.
    #[must_use]
    pub fn noise_slice(&self, env: usize) -> (values: Option<&[i16]>)
        ensures
            match values {
                Some(slice) => env < self@.noise.len() && slice@ == self@.noise[env as int],
                None => env >= self@.noise.len(),
            },
    {
        proof {
            use_type_invariant(self);
        }
        if env >= self.num_noise as usize {
            return None;
        }
        Some(vstd::slice::slice_subrange(&self.noise[env], 0, self.noise_sbg as usize))
    }
}

/// A stored signal row that begins with the given values.
fn copy_row(values: &[i16]) -> (row: [i16; MAX_SBG_PER_ENVELOPE])
    requires
        values@.len() <= MAX_SBG_PER_ENVELOPE,
    ensures
        row@.take(values@.len() as int) == values@,
{
    let mut row: [i16; MAX_SBG_PER_ENVELOPE] = [0; MAX_SBG_PER_ENVELOPE];
    let mut index: usize = 0;
    while index < values.len()
        invariant
            index <= values@.len() <= MAX_SBG_PER_ENVELOPE,
            forall|i: int| 0 <= i < index ==> #[trigger] row@[i] == values@[i],
        decreases values@.len() - index,
    {
        row[index] = values[index];
        index = index + 1;
    }
    assert(row@.take(values@.len() as int) =~= values@);
    row
}

/// A stored noise row that begins with the given values.
fn copy_noise_row(values: &[i16]) -> (row: [i16; NOISE_GROUPS])
    requires
        values@.len() <= NOISE_GROUPS,
    ensures
        row@ == envelope::padded(values@, 5),
{
    let mut row: [i16; NOISE_GROUPS] = [0; NOISE_GROUPS];
    let mut index: usize = 0;
    while index < values.len()
        invariant
            index <= values@.len() <= NOISE_GROUPS,
            forall|i: int| 0 <= i < index ==> #[trigger] row@[i] == values@[i],
            forall|i: int| index <= i < 5 ==> #[trigger] row@[i] == 0,
        decreases values@.len() - index,
    {
        row[index] = values[index];
        index = index + 1;
    }
    assert(row@ =~= envelope::padded(values@, 5));
    row
}

/// Number of groups of signal envelope `env`: it depends on the frequency
/// resolution of the envelope.
pub open spec fn signal_groups(bands: BandView, interval: IntervalView, env: int) -> int {
    if 0 <= env < interval.num_sig() && interval.freq_res[env] {
        bands::group_count(bands.sig_highres)
    } else {
        bands::group_count(bands.sig_lowres)
    }
}

/// How signal envelope `env` of a channel is coded.
pub open spec fn signal_coding(framing: FramingView, stereo: StereoMode, env: int) -> RowCoding {
    RowCoding {
        kind: EnvelopeKind::Signal,
        stereo,
        coarse_quant: framing.qmode_env,
        time: framing.sig_delta_dir[env],
    }
}

/// How noise envelope `env` of a channel is coded; the quantiser step does not
/// apply.
pub open spec fn noise_coding(framing: FramingView, stereo: StereoMode, env: int) -> RowCoding {
    RowCoding {
        kind: EnvelopeKind::Noise,
        stereo,
        coarse_quant: false,
        time: framing.noise_delta_dir[env],
    }
}

/// How an envelope of either family is coded.
pub open spec fn coding_of(
    kind: EnvelopeKind,
    framing: FramingView,
    stereo: StereoMode,
    env: int,
) -> RowCoding {
    match kind {
        EnvelopeKind::Signal => signal_coding(framing, stereo, env),
        EnvelopeKind::Noise => noise_coding(framing, stereo, env),
    }
}

/// Number of groups of an envelope of either family.
pub open spec fn groups_of(
    kind: EnvelopeKind,
    bands: BandView,
    framing: FramingView,
    env: int,
) -> int {
    match kind {
        EnvelopeKind::Signal => signal_groups(bands, framing.interval, env),
        EnvelopeKind::Noise => bands::group_count(bands.noise),
    }
}

/// The first `count` envelopes of a family.
pub open spec fn rows_at(
    books: Seq<Seq<Codeword>>,
    bits: Seq<bool>,
    pos: int,
    kind: EnvelopeKind,
    bands: BandView,
    framing: FramingView,
    stereo: StereoMode,
    count: int,
) -> Parsed<Seq<Seq<i16>>>
    decreases count,
{
    if count <= 0 {
        Parsed::Done(Seq::empty(), pos)
    } else {
        match rows_at(books, bits, pos, kind, bands, framing, stereo, count - 1) {
            Parsed::Failed(error, p) => Parsed::Failed(error, p),
            Parsed::Done(rows, p) => match row_at(
                books,
                bits,
                p,
                coding_of(kind, framing, stereo, count - 1),
                groups_of(kind, bands, framing, count - 1),
            ) {
                Parsed::Failed(error, q) => Parsed::Failed(error, q),
                Parsed::Done(row, q) => Parsed::Done(rows.push(row), q),
            },
        }
    }
}

proof fn lemma_rows_failure_stays(
    books: Seq<Seq<Codeword>>,
    bits: Seq<bool>,
    pos: int,
    kind: EnvelopeKind,
    bands: BandView,
    framing: FramingView,
    stereo: StereoMode,
    count: int,
    total: int,
)
    requires
        count <= total,
        rows_at(books, bits, pos, kind, bands, framing, stereo, count) is Failed,
    ensures
        rows_at(books, bits, pos, kind, bands, framing, stereo, total) == rows_at(
            books,
            bits,
            pos,
            kind,
            bands,
            framing,
            stereo,
            count,
        ),
    decreases total - count,
{
    if count < total {
        lemma_rows_failure_stays(
            books,
            bits,
            pos,
            kind,
            bands,
            framing,
            stereo,
            count,
            total - 1,
        );
    }
}

/// Number of envelopes of a family.
pub open spec fn envelope_count(kind: EnvelopeKind, framing: FramingView) -> int {
    match kind {
        EnvelopeKind::Signal => framing.params.num_env as int,
        EnvelopeKind::Noise => framing.params.num_noise as int,
    }
}

/// `envelopes` with the rows of one family replaced.
pub open spec fn with_rows(
    envelopes: EnvelopesView,
    kind: EnvelopeKind,
    bands: BandView,
    rows: Seq<Seq<i16>>,
) -> EnvelopesView {
    match kind {
        EnvelopeKind::Signal => EnvelopesView { sig: rows, ..envelopes },
        EnvelopeKind::Noise => EnvelopesView {
            noise: rows,
            noise_sbg: bands::group_count(bands.noise) as u8,
            ..envelopes
        },
    }
}

/// The payload of one channel and family, put into `envelopes`.
pub open spec fn ec_data_at(
    books: Seq<Seq<Codeword>>,
    bits: Seq<bool>,
    pos: int,
    bands: BandView,
    framing: FramingView,
    kind: EnvelopeKind,
    stereo: StereoMode,
    envelopes: EnvelopesView,
) -> Parsed<EnvelopesView> {
    match rows_at(
        books,
        bits,
        pos,
        kind,
        bands,
        framing,
        stereo,
        envelope_count(kind, framing),
    ) {
        Parsed::Failed(error, p) => Parsed::Failed(error, p),
        Parsed::Done(rows, p) => Parsed::Done(with_rows(envelopes, kind, bands, rows), p),
    }
}

/// Reads the signal envelopes of one channel.
fn parse_signal_rows(
    reader: &mut BitReader<'_>,
    books: &AspxCodebooks,
    bands: &AspxBandTables,
    framing: &AspxChannelFraming,
    stereo: StereoMode,
    envelopes: &AspxEnvelopes,
) -> (result: Result<AspxEnvelopes, AspxError>)
    requires
        framing.params.num_env <= MAX_ATSG_SIG,
    ensures
        match result {
            Ok(updated) => syntax::as_expected(
                ec_data_at(
                    books@,
                    old(reader)@.bits,
                    old(reader)@.pos,
                    bands@,
                    framing@,
                    EnvelopeKind::Signal,
                    stereo,
                    envelopes@,
                ),
                Ok(updated@),
                old(reader)@,
                final(reader)@,
            ),
            Err(error) => syntax::as_expected(
                ec_data_at(
                    books@,
                    old(reader)@.bits,
                    old(reader)@.pos,
                    bands@,
                    framing@,
                    EnvelopeKind::Signal,
                    stereo,
                    envelopes@,
                ),
                Err(error),
                old(reader)@,
                final(reader)@,
            ),
        },
{
    let ghost start = reader@;
    let ghost kind = EnvelopeKind::Signal;
    let highres: u8 = bands.num_sbg_sig_highres();
    let lowres: u8 = bands.num_sbg_sig_lowres();
    proof {
        use_type_invariant(envelopes);
        if bands@.legal() {
            bands::lemma_bands_are_structured(bands@);
        }
    }
    let mut sig: [[i16; MAX_SBG_PER_ENVELOPE]; MAX_ATSG_SIG] = [[0; MAX_SBG_PER_ENVELOPE];
        MAX_ATSG_SIG];
    let mut sig_sbg: [u8; MAX_ATSG_SIG] = [0; MAX_ATSG_SIG];
    let ghost mut rows: Seq<Seq<i16>> = Seq::empty();
    let mut env: usize = 0;
    while env < framing.params.num_env as usize
        invariant
            env <= framing.params.num_env <= MAX_ATSG_SIG,
            start == old(reader)@,
            kind == EnvelopeKind::Signal,
            reader@.bits == start.bits,
            highres == bands::group_count(bands@.sig_highres) <= MAX_SBG_PER_ENVELOPE,
            lowres == bands::group_count(bands@.sig_lowres) <= MAX_SBG_PER_ENVELOPE,
            rows.len() == env,
            rows_at(books@, start.bits, start.pos, kind, bands@, framing@, stereo, env as int)
                == Parsed::Done(rows, reader@.pos),
            forall|e: int|
                0 <= e < env ==> {
                    &&& #[trigger] sig_sbg@[e] <= MAX_SBG_PER_ENVELOPE
                    &&& sig@[e]@.take(sig_sbg@[e] as int) == rows[e]
                },
        decreases framing.params.num_env - env,
    {
        let high: bool = match framing.interval.freq_res(env) {
            Some(high) => high,
            None => false,
        };
        let groups: u8 = if high {
            highres
        } else {
            lowres
        };
        assert(groups == groups_of(kind, bands@, framing@, env as int));
        let mut row: [i16; MAX_SBG_PER_ENVELOPE] = [0; MAX_SBG_PER_ENVELOPE];
        match parse_huff_data(
            reader,
            books,
            EnvelopeKind::Signal,
            stereo,
            framing.qmode_env,
            framing.sig_delta_dir[env],
            groups as usize,
            &mut row,
        ) {
            Ok(_) => {},
            Err(error) => {
                proof {
                    lemma_rows_failure_stays(
                        books@,
                        start.bits,
                        start.pos,
                        kind,
                        bands@,
                        framing@,
                        stereo,
                        env + 1,
                        framing.params.num_env as int,
                    );
                }
                return Err(error);
            },
        }
        let ghost sig_before = sig@;
        let ghost sbg_before = sig_sbg@;
        let ghost rows_before = rows;
        sig[env] = row;
        sig_sbg[env] = groups;
        proof {
            rows = rows.push(row@.take(groups as int));
            assert forall|e: int| 0 <= e <= env implies {
                &&& #[trigger] sig_sbg@[e] <= MAX_SBG_PER_ENVELOPE
                &&& sig@[e]@.take(sig_sbg@[e] as int) == rows[e]
            } by {
                if e < env {
                    assert(sig_sbg@[e] == sbg_before[e]);
                    assert(sig@[e] == sig_before[e]);
                    assert(rows[e] == rows_before[e]);
                }
            }
        }
        env = env + 1;
    }
    let updated = AspxEnvelopes {
        sig,
        sig_sbg,
        num_env: framing.params.num_env,
        noise: envelopes.noise,
        noise_sbg: envelopes.noise_sbg,
        num_noise: envelopes.num_noise,
    };
    assert(updated@.sig =~= rows) by {
        assert forall|e: int| 0 <= e < rows.len() implies #[trigger] updated@.sig[e] == rows[e] by {
            assert(sig_sbg@[e] <= MAX_SBG_PER_ENVELOPE);
        }
    }
    Ok(updated)
}

/// Reads the noise envelopes of one channel.
fn parse_noise_rows(
    reader: &mut BitReader<'_>,
    books: &AspxCodebooks,
    bands: &AspxBandTables,
    framing: &AspxChannelFraming,
    stereo: StereoMode,
    envelopes: &AspxEnvelopes,
) -> (result: Result<AspxEnvelopes, AspxError>)
    requires
        framing.params.num_noise <= MAX_ATSG_NOISE,
    ensures
        match result {
            Ok(updated) => syntax::as_expected(
                ec_data_at(
                    books@,
                    old(reader)@.bits,
                    old(reader)@.pos,
                    bands@,
                    framing@,
                    EnvelopeKind::Noise,
                    stereo,
                    envelopes@,
                ),
                Ok(updated@),
                old(reader)@,
                final(reader)@,
            ),
            Err(error) => syntax::as_expected(
                ec_data_at(
                    books@,
                    old(reader)@.bits,
                    old(reader)@.pos,
                    bands@,
                    framing@,
                    EnvelopeKind::Noise,
                    stereo,
                    envelopes@,
                ),
                Err(error),
                old(reader)@,
                final(reader)@,
            ),
        },
{
    let ghost start = reader@;
    let ghost kind = EnvelopeKind::Noise;
    let groups: u8 = bands.num_sbg_noise();
    proof {
        use_type_invariant(envelopes);
        if bands@.legal() {
            bands::lemma_bands_are_structured(bands@);
        }
    }
    let mut noise: [[i16; NOISE_GROUPS]; MAX_ATSG_NOISE] = [[0; NOISE_GROUPS]; MAX_ATSG_NOISE];
    let ghost mut rows: Seq<Seq<i16>> = Seq::empty();
    let mut env: usize = 0;
    while env < framing.params.num_noise as usize
        invariant
            env <= framing.params.num_noise <= MAX_ATSG_NOISE,
            start == old(reader)@,
            kind == EnvelopeKind::Noise,
            reader@.bits == start.bits,
            groups == bands::group_count(bands@.noise) <= NOISE_GROUPS,
            rows.len() == env,
            rows_at(books@, start.bits, start.pos, kind, bands@, framing@, stereo, env as int)
                == Parsed::Done(rows, reader@.pos),
            forall|e: int| 0 <= e < env ==> #[trigger] noise@[e]@.take(groups as int) == rows[e],
        decreases framing.params.num_noise - env,
    {
        let mut row: [i16; NOISE_GROUPS] = [0; NOISE_GROUPS];
        match parse_huff_data(
            reader,
            books,
            EnvelopeKind::Noise,
            stereo,
            false,
            framing.noise_delta_dir[env],
            groups as usize,
            &mut row,
        ) {
            Ok(_) => {},
            Err(error) => {
                proof {
                    lemma_rows_failure_stays(
                        books@,
                        start.bits,
                        start.pos,
                        kind,
                        bands@,
                        framing@,
                        stereo,
                        env + 1,
                        framing.params.num_noise as int,
                    );
                }
                return Err(error);
            },
        }
        let ghost noise_before = noise@;
        let ghost rows_before = rows;
        noise[env] = row;
        proof {
            rows = rows.push(row@.take(groups as int));
            assert forall|e: int| 0 <= e <= env implies #[trigger] noise@[e]@.take(groups as int)
                == rows[e] by {
                if e < env {
                    assert(noise@[e] == noise_before[e]);
                    assert(noise_before[e]@.take(groups as int) == rows_before[e]);
                    assert(rows[e] == rows_before[e]);
                }
            }
        }
        env = env + 1;
    }
    let updated = AspxEnvelopes {
        sig: envelopes.sig,
        sig_sbg: envelopes.sig_sbg,
        num_env: envelopes.num_env,
        noise,
        noise_sbg: groups,
        num_noise: framing.params.num_noise,
    };
    assert(updated@.noise =~= rows) by {
        assert forall|e: int| 0 <= e < rows.len() implies #[trigger] updated@.noise[e]
            == rows[e] by {
            assert(noise@[e]@.take(groups as int) == rows[e]);
        }
    }
    Ok(updated)
}

/// Reads the envelopes of one channel and family, and gives back `envelopes`
/// with them put in.
pub(crate) fn parse_ec_data(
    reader: &mut BitReader<'_>,
    books: &AspxCodebooks,
    bands: &AspxBandTables,
    framing: &AspxChannelFraming,
    kind: EnvelopeKind,
    stereo: StereoMode,
    envelopes: &AspxEnvelopes,
) -> (result: Result<AspxEnvelopes, AspxError>)
    requires
        framing.params.num_env <= MAX_ATSG_SIG,
        framing.params.num_noise <= MAX_ATSG_NOISE,
    ensures
        match result {
            Ok(updated) => syntax::as_expected(
                ec_data_at(
                    books@,
                    old(reader)@.bits,
                    old(reader)@.pos,
                    bands@,
                    framing@,
                    kind,
                    stereo,
                    envelopes@,
                ),
                Ok(updated@),
                old(reader)@,
                final(reader)@,
            ),
            Err(error) => syntax::as_expected(
                ec_data_at(
                    books@,
                    old(reader)@.bits,
                    old(reader)@.pos,
                    bands@,
                    framing@,
                    kind,
                    stereo,
                    envelopes@,
                ),
                Err(error),
                old(reader)@,
                final(reader)@,
            ),
        },
{
    match kind {
        EnvelopeKind::Signal => parse_signal_rows(reader, books, bands, framing, stereo, envelopes),
        EnvelopeKind::Noise => parse_noise_rows(reader, books, bands, framing, stereo, envelopes),
    }
}

proof fn lemma_row_length(
    books: Seq<Seq<Codeword>>,
    bits: Seq<bool>,
    pos: int,
    coding: RowCoding,
    groups: int,
)
    requires
        groups >= 0,
    ensures
        row_at(books, bits, pos, coding, groups) matches Parsed::Done(row, p) ==> row.len()
            == groups,
    decreases groups,
{
    if groups > 0 {
        lemma_row_length(books, bits, pos, coding, groups - 1);
    }
}

/// A parsed family has as many envelopes as the framing counts, and every
/// envelope has as many values as its frequency resolution asks for.
pub proof fn lemma_rows_match_groups(
    books: Seq<Seq<Codeword>>,
    bits: Seq<bool>,
    pos: int,
    kind: EnvelopeKind,
    bands: BandView,
    framing: FramingView,
    stereo: StereoMode,
    count: int,
)
    requires
        count >= 0,
    ensures
        rows_at(books, bits, pos, kind, bands, framing, stereo, count) matches Parsed::Done(
            rows,
            p,
        ) ==> {
            &&& rows.len() == count
            &&& forall|env: int|
                0 <= env < count ==> (#[trigger] rows[env]).len() == groups_of(
                    kind,
                    bands,
                    framing,
                    env,
                )
        },
    decreases count,
{
    if count > 0 {
        lemma_rows_match_groups(books, bits, pos, kind, bands, framing, stereo, count - 1);
        if let Parsed::Done(rows, p) = rows_at(
            books,
            bits,
            pos,
            kind,
            bands,
            framing,
            stereo,
            count - 1,
        ) {
            lemma_row_length(
                books,
                bits,
                p,
                coding_of(kind, framing, stereo, count - 1),
                groups_of(kind, bands, framing, count - 1),
            );
        }
    }
}

} // verus!
