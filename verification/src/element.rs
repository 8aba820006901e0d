//! A-SPX elements.
//!
//! An element covers one channel or a pair. It holds the framing of each
//! channel, the flags of the high-frequency generator, and the entropy-coded
//! envelopes. A balanced pair shares its framing and its chirp modes.
use vstd::prelude::*;
use crate::bands::{self, AspxBandTables, BandView};
use crate::codebooks::AspxCodebooks;
use crate::frames::{MAX_ATSG_NOISE, MAX_ATSG_SIG};
use crate::huffman::Codeword;
use crate::payload::{self, parse_ec_data, AspxEnvelopes, EnvelopesView};
use crate::reader::{BitReader, ReaderView};
use crate::syntax::{
    self, read_flag, read_hfgen_mono, read_hfgen_pair, read_u8, parse_delta_dir, parse_framing,
    AspxChannelFraming, AspxConfig, AspxError, AspxHfGen, AspxState, FramingView, HfGenView, Parsed,
    StateView,
};
use crate::tables::{self, num_aspx_timeslots, EnvelopeKind, StereoMode, MAX_ASPX_TIMESLOTS};

verus! {

/// Contents of an element.
#[verifier::ext_equal]
pub struct DataView {
    /// Number of channels.
    pub channels: u8,
    /// Whether a pair is balanced; absent for a single channel.
    pub balance: Option<bool>,
    /// Subband-group tables.
    pub bands: BandView,
    /// Framing of either channel.
    pub framing: Seq<FramingView>,
    /// Generator flags of either channel.
    pub hfgen: Seq<HfGenView>,
    /// Envelopes of either channel.
    pub envelopes: Seq<EnvelopesView>,
}

/// A parsed element of one or two channels.
#[derive(Debug, Clone, PartialEq, Eq)]
pub struct AspxData {
    /// Number of channels: one or two.
    pub channels: u8,
    /// Whether a pair is balanced; absent for a single channel.
    pub balance: Option<bool>,
    /// Subband-group tables.
    pub bands: AspxBandTables,
    /// Framing of either channel.
    pub framing: [AspxChannelFraming; 2],
    /// Generator flags of either channel.
    pub hfgen: [AspxHfGen; 2],
    /// Envelopes of either channel.
    pub envelopes: [AspxEnvelopes; 2],
}

impl View for AspxData {
    type V = DataView;

    open spec fn view(&self) -> DataView {
        DataView {
            channels: self.channels,
            balance: self.balance,
            bands: self.bands@,
            framing: Seq::new(2, |ch: int| self.framing@[ch]@),
            hfgen: Seq::new(2, |ch: int| self.hfgen@[ch]@),
            envelopes: Seq::new(2, |ch: int| self.envelopes@[ch]@),
        }
    }
}

/// An element without channels.
pub open spec fn no_element() -> DataView {
    DataView {
        channels: 0,
        balance: None,
        bands: BandView::empty(),
        framing: seq![syntax::no_framing(), syntax::no_framing()],
        hfgen: seq![syntax::no_hfgen(), syntax::no_hfgen()],
        envelopes: seq![payload::no_envelopes(), payload::no_envelopes()],
    }
}

impl AspxData {
    /// An element without channels.
    #[must_use]
    pub fn empty() -> (data: Self)
        ensures
            data@ == no_element(),
    {
        let data = AspxData {
            channels: 0,
            balance: None,
            bands: AspxBandTables::empty(),
            framing: [AspxChannelFraming::empty(); 2],
            hfgen: [AspxHfGen::empty(); 2],
            envelopes: [AspxEnvelopes::empty(); 2],
        };
        assert(data@ =~= no_element());
        data
    }

    /// Framing of channel `ch`.
    #[must_use]
    pub fn framing(&self, ch: usize) -> (framing: Option<&AspxChannelFraming>)
        ensures
            match framing {
                Some(found) => {
                    &&& ch < self.channels && ch < 2
                    &&& *found == self.framing@[ch as int]
                    &&& found@ == self@.framing[ch as int]
                },
                None => ch >= self.channels || ch >= 2,
            },
    {
        if ch >= self.channels as usize || ch >= 2 {
            return None;
        }
        Some(&self.framing[ch])
    }

    /// Generator flags of channel `ch`.
    #[must_use]
    pub fn hfgen(&self, ch: usize) -> (hfgen: Option<&AspxHfGen>)
        ensures
            match hfgen {
                Some(found) => {
                    &&& ch < self.channels && ch < 2
                    &&& *found == self.hfgen@[ch as int]
                    &&& found@ == self@.hfgen[ch as int]
                },
                None => ch >= self.channels || ch >= 2,
            },
    {
        if ch >= self.channels as usize || ch >= 2 {
            return None;
        }
        Some(&self.hfgen[ch])
    }

    /// Envelopes of channel `ch`.
    #[must_use]
    pub fn envelopes(&self, ch: usize) -> (envelopes: Option<&AspxEnvelopes>)
        ensures
            match envelopes {
                Some(found) => {
                    &&& ch < self.channels && ch < 2
                    &&& *found == self.envelopes@[ch as int]
                    &&& found@ == self@.envelopes[ch as int]
                },
                None => ch >= self.channels || ch >= 2,
            },
    {
        if ch >= self.channels as usize || ch >= 2 {
            return None;
        }
        Some(&self.envelopes[ch])
    }
}

/// The crossover offset: transmitted with independent frames, kept otherwise.
pub open spec fn xover_at(bits: Seq<bool>, pos: int, b_iframe: bool, kept: u8) -> Parsed<u8> {
    if b_iframe {
        syntax::field_at(bits, pos, 3)
    } else {
        Parsed::Done(kept, pos)
    }
}

/// The framing of both channels and whether they are balanced. The second
/// channel of a balanced pair repeats the first; a single channel has no
/// second one.
#[verifier::opaque]
pub open spec fn framings_at(
    bits: Seq<bool>,
    pos: int,
    config: AspxConfig,
    slots: u8,
    b_iframe: bool,
    stop_pos: Seq<i16>,
    two_channels: bool,
) -> Parsed<(Option<bool>, FramingView, FramingView)> {
    match syntax::framing_at(bits, pos, config, slots, b_iframe, stop_pos[0]) {
        Parsed::Failed(error, p) => Parsed::Failed(error, p),
        Parsed::Done(first, p) => if !two_channels {
            Parsed::Done((None, first, syntax::no_framing()), p)
        } else {
            match syntax::flag_at(bits, p) {
                Parsed::Failed(error, q) => Parsed::Failed(error, q),
                Parsed::Done(balance, q) => if balance {
                    Parsed::Done((Some(balance), first, first), q)
                } else {
                    match syntax::framing_at(bits, q, config, slots, b_iframe, stop_pos[1]) {
                        Parsed::Failed(error, r) => Parsed::Failed(error, r),
                        Parsed::Done(second, r) => Parsed::Done((Some(balance), first, second), r),
                    }
                },
            }
        },
    }
}

/// The framing of both channels with their difference directions.
#[verifier::opaque]
pub open spec fn directed_at(
    bits: Seq<bool>,
    pos: int,
    first: FramingView,
    second: FramingView,
    two_channels: bool,
) -> Parsed<(FramingView, FramingView)> {
    match syntax::directions_at(bits, pos, first) {
        Parsed::Failed(error, p) => Parsed::Failed(error, p),
        Parsed::Done(left, p) => if !two_channels {
            Parsed::Done((left, second), p)
        } else {
            match syntax::directions_at(bits, p, second) {
                Parsed::Failed(error, q) => Parsed::Failed(error, q),
                Parsed::Done(right, q) => Parsed::Done((left, right), q),
            }
        },
    }
}

/// The generator flags of both channels; a single channel has no second one.
#[verifier::opaque]
pub open spec fn hfgens_at(
    bits: Seq<bool>,
    pos: int,
    bands: BandView,
    slots: u8,
    balance: Option<bool>,
) -> Parsed<(HfGenView, HfGenView)> {
    match balance {
        Some(balanced) => syntax::hfgen_pair_at(
            bits,
            pos,
            bands::group_count(bands.noise),
            bands::group_count(bands.sig_highres),
            slots as int,
            balanced,
        ),
        None => match syntax::hfgen_mono_at(
            bits,
            pos,
            bands::group_count(bands.noise),
            bands::group_count(bands.sig_highres),
            slots as int,
        ) {
            Parsed::Failed(error, p) => Parsed::Failed(error, p),
            Parsed::Done(first, p) => Parsed::Done((first, syntax::no_hfgen()), p),
        },
    }
}

/// The codebook family of the second channel.
pub open spec fn second_stereo(balance: Option<bool>) -> StereoMode {
    if balance == Some(true) {
        StereoMode::Balance
    } else {
        StereoMode::Level
    }
}

/// The envelopes of one family of both channels, the first channel leading.
pub open spec fn family_at(
    books: Seq<Seq<Codeword>>,
    bits: Seq<bool>,
    pos: int,
    bands: BandView,
    framing: (FramingView, FramingView),
    balance: Option<bool>,
    kind: EnvelopeKind,
    envelopes: (EnvelopesView, EnvelopesView),
) -> Parsed<(EnvelopesView, EnvelopesView)> {
    match payload::ec_data_at(
        books,
        bits,
        pos,
        bands,
        framing.0,
        kind,
        StereoMode::Level,
        envelopes.0,
    ) {
        Parsed::Failed(error, p) => Parsed::Failed(error, p),
        Parsed::Done(left, p) => if balance is None {
            Parsed::Done((left, envelopes.1), p)
        } else {
            match payload::ec_data_at(
                books,
                bits,
                p,
                bands,
                framing.1,
                kind,
                second_stereo(balance),
                envelopes.1,
            ) {
                Parsed::Failed(error, q) => Parsed::Failed(error, q),
                Parsed::Done(right, q) => Parsed::Done((left, right), q),
            }
        },
    }
}

/// The envelopes of both channels: all signal envelopes lead all noise
/// envelopes.
#[verifier::opaque]
pub open spec fn envelopes_at(
    books: Seq<Seq<Codeword>>,
    bits: Seq<bool>,
    pos: int,
    bands: BandView,
    framing: (FramingView, FramingView),
    balance: Option<bool>,
) -> Parsed<(EnvelopesView, EnvelopesView)> {
    match family_at(
        books,
        bits,
        pos,
        bands,
        framing,
        balance,
        EnvelopeKind::Signal,
        (payload::no_envelopes(), payload::no_envelopes()),
    ) {
        Parsed::Failed(error, p) => Parsed::Failed(error, p),
        Parsed::Done(signal, p) => family_at(
            books,
            bits,
            p,
            bands,
            framing,
            balance,
            EnvelopeKind::Noise,
            signal,
        ),
    }
}

/// What follows the subband-group tables of an element.
pub open spec fn channels_at(
    books: Seq<Seq<Codeword>>,
    bits: Seq<bool>,
    pos: int,
    config: AspxConfig,
    stop_pos: Seq<i16>,
    bands: BandView,
    slots: u8,
    b_iframe: bool,
    two_channels: bool,
) -> Parsed<DataView> {
    match framings_at(bits, pos, config, slots, b_iframe, stop_pos, two_channels) {
        Parsed::Failed(error, p) => Parsed::Failed(error, p),
        Parsed::Done((balance, first, second), p) => match directed_at(
            bits,
            p,
            first,
            second,
            two_channels,
        ) {
            Parsed::Failed(error, q) => Parsed::Failed(error, q),
            Parsed::Done(framing, q) => match hfgens_at(bits, q, bands, slots, balance) {
                Parsed::Failed(error, r) => Parsed::Failed(error, r),
                Parsed::Done(hfgen, r) => match envelopes_at(
                    books,
                    bits,
                    r,
                    bands,
                    framing,
                    balance,
                ) {
                    Parsed::Failed(error, t) => Parsed::Failed(error, t),
                    Parsed::Done(envelopes, t) => Parsed::Done(
                        DataView {
                            channels: if two_channels {
                                2
                            } else {
                                1
                            },
                            balance,
                            bands,
                            framing: seq![framing.0, framing.1],
                            hfgen: seq![hfgen.0, hfgen.1],
                            envelopes: seq![envelopes.0, envelopes.1],
                        },
                        t,
                    ),
                },
            },
        },
    }
}

/// An element, and the crossover offset in force with it.
pub open spec fn element_at(
    books: Seq<Seq<Codeword>>,
    bits: Seq<bool>,
    pos: int,
    config: AspxConfig,
    state: StateView,
    frame_len_base: u16,
    b_iframe: bool,
    two_channels: bool,
) -> Parsed<(u8, DataView)> {
    if !tables::is_frame_length(frame_len_base as int) {
        Parsed::Failed(AspxError::UnsupportedFrameLenBase { frame_len_base }, pos)
    } else {
        match xover_at(bits, pos, b_iframe, state.xover) {
            Parsed::Failed(error, p) => Parsed::Failed(error, p),
            Parsed::Done(xover, p) => match bands::derived_bands(
                config.master_freq_scale,
                config.start_freq,
                config.stop_freq,
                config.noise_sbg,
                xover,
            ) {
                Err(error) => Parsed::Failed(AspxError::Bands(error), p),
                Ok(bands) => match channels_at(
                    books,
                    bits,
                    p,
                    config,
                    state.stop_pos,
                    bands,
                    tables::aspx_timeslots(frame_len_base as int) as u8,
                    b_iframe,
                    two_channels,
                ) {
                    Parsed::Failed(error, q) => Parsed::Failed(error, q),
                    Parsed::Done(data, q) => Parsed::Done((xover, data), q),
                },
            },
        }
    }
}

/// The state after an element: its crossover offset, and where the intervals
/// of its channels ended. The state of an absent channel is kept.
pub open spec fn state_after(before: StateView, xover: u8, data: DataView) -> StateView {
    let first = before.stop_pos.update(0, data.framing[0].interval.stop_pos());
    StateView {
        xover,
        stop_pos: if data.channels == 2 {
            first.update(1, data.framing[1].interval.stop_pos())
        } else {
            first
        },
    }
}

/// Whether parsing an element went as expected. A failure leaves the state as
/// it was.
pub open spec fn parsed_as(
    expected: Parsed<(u8, DataView)>,
    result: Result<AspxData, AspxError>,
    before: ReaderView,
    after: ReaderView,
    state_before: StateView,
    state_now: StateView,
) -> bool {
    &&& after.bits == before.bits
    &&& match result {
        Ok(data) => {
            &&& expected == Parsed::Done((state_now.xover, data@), after.pos)
            &&& state_now == state_after(state_before, state_now.xover, data@)
        },
        Err(error) => {
            &&& expected == Parsed::<(u8, DataView)>::Failed(error, after.pos)
            &&& state_now == state_before
        },
    }
}

/// Whether a framing counts no more envelopes than an interval can have.
pub open spec fn counts_fit(framing: FramingView) -> bool {
    framing.params.num_env <= MAX_ATSG_SIG && framing.params.num_noise <= MAX_ATSG_NOISE
}

proof fn lemma_framing_counts_fit(
    bits: Seq<bool>,
    pos: int,
    config: AspxConfig,
    slots: u8,
    b_iframe: bool,
    previous_stop_pos: i16,
)
    ensures
        syntax::framing_at(bits, pos, config, slots, b_iframe, previous_stop_pos)
            matches Parsed::Done(framing, p) ==> counts_fit(framing),
{
}

/// Parses the framing of all channels.
fn parse_framings(
    reader: &mut BitReader<'_>,
    config: &AspxConfig,
    state: &AspxState,
    slots: u8,
    b_iframe: bool,
    two_channels: bool,
) -> (result: Result<(Option<bool>, AspxChannelFraming, AspxChannelFraming), AspxError>)
    ensures
        match result {
            Ok((balance, first, second)) => syntax::as_expected(
                framings_at(
                    old(reader)@.bits,
                    old(reader)@.pos,
                    *config,
                    slots,
                    b_iframe,
                    state@.stop_pos,
                    two_channels,
                ),
                Ok((balance, first@, second@)),
                old(reader)@,
                final(reader)@,
            ),
            Err(error) => syntax::as_expected(
                framings_at(
                    old(reader)@.bits,
                    old(reader)@.pos,
                    *config,
                    slots,
                    b_iframe,
                    state@.stop_pos,
                    two_channels,
                ),
                Err(error),
                old(reader)@,
                final(reader)@,
            ),
        },
        result matches Ok((balance, first, second)) ==> {
            &&& counts_fit(first@)
            &&& counts_fit(second@)
            &&& balance is Some == two_channels
        },
{
    reveal(framings_at);
    proof {
        lemma_framing_counts_fit(
            reader@.bits,
            reader@.pos,
            *config,
            slots,
            b_iframe,
            state@.stop_pos[0],
        );
    }
    let first = parse_framing(reader, config, slots, b_iframe, state.stop_pos(0))?;
    if !two_channels {
        return Ok((None, first, AspxChannelFraming::empty()));
    }
    let balance: bool = read_flag(reader)?;
    if balance {
        return Ok((Some(balance), first, first));
    }
    proof {
        lemma_framing_counts_fit(
            reader@.bits,
            reader@.pos,
            *config,
            slots,
            b_iframe,
            state@.stop_pos[1],
        );
    }
    let second = parse_framing(reader, config, slots, b_iframe, state.stop_pos(1))?;
    Ok((Some(balance), first, second))
}

/// Parses the difference directions of all channels.
fn parse_directions(
    reader: &mut BitReader<'_>,
    first: &AspxChannelFraming,
    second: &AspxChannelFraming,
    two_channels: bool,
) -> (result: Result<(AspxChannelFraming, AspxChannelFraming), AspxError>)
    requires
        counts_fit(first@),
        counts_fit(second@),
    ensures
        match result {
            Ok((left, right)) => syntax::as_expected(
                directed_at(
                    old(reader)@.bits,
                    old(reader)@.pos,
                    first@,
                    second@,
                    two_channels,
                ),
                Ok((left@, right@)),
                old(reader)@,
                final(reader)@,
            ),
            Err(error) => syntax::as_expected(
                directed_at(
                    old(reader)@.bits,
                    old(reader)@.pos,
                    first@,
                    second@,
                    two_channels,
                ),
                Err(error),
                old(reader)@,
                final(reader)@,
            ),
        },
        result matches Ok((left, right)) ==> counts_fit(left@) && counts_fit(right@),
{
    reveal(directed_at);
    let left = parse_delta_dir(reader, first)?;
    if !two_channels {
        return Ok((left, *second));
    }
    let right = parse_delta_dir(reader, second)?;
    Ok((left, right))
}

/// Number of timeslots that flags are kept for.
pub open spec fn stored_slots(slots: u8) -> int {
    if slots <= MAX_ASPX_TIMESLOTS {
        slots as int
    } else {
        MAX_ASPX_TIMESLOTS as int
    }
}

/// Number of timeslots that flags are kept for.
fn limit_slots(slots: u8) -> (kept: u8)
    ensures
        kept == stored_slots(slots),
{
    if slots as usize <= MAX_ASPX_TIMESLOTS {
        slots
    } else {
        MAX_ASPX_TIMESLOTS as u8
    }
}

/// Parses the generator flags of a single channel into `data`, whose tables
/// give the numbers of groups. A failure leaves `data` as it was.
pub fn parse_hfgen_1ch(reader: &mut BitReader<'_>, data: &mut AspxData, slots: u8) -> (result:
    Result<(), AspxError>)
    ensures
        match result {
            Ok(_) => {
                &&& syntax::as_expected(
                    syntax::hfgen_mono_at(
                        old(reader)@.bits,
                        old(reader)@.pos,
                        bands::group_count(old(data)@.bands.noise),
                        bands::group_count(old(data)@.bands.sig_highres),
                        stored_slots(slots),
                    ),
                    Ok(final(data)@.hfgen[0]),
                    old(reader)@,
                    final(reader)@,
                )
                &&& final(data)@ == (DataView {
                    hfgen: old(data)@.hfgen.update(0, final(data)@.hfgen[0]),
                    ..old(data)@
                })
            },
            Err(error) => {
                &&& syntax::as_expected(
                    syntax::hfgen_mono_at(
                        old(reader)@.bits,
                        old(reader)@.pos,
                        bands::group_count(old(data)@.bands.noise),
                        bands::group_count(old(data)@.bands.sig_highres),
                        stored_slots(slots),
                    ),
                    Err(error),
                    old(reader)@,
                    final(reader)@,
                )
                &&& *final(data) == *old(data)
            },
        },
{
    let noise: u8 = data.bands.num_sbg_noise();
    let highres: u8 = data.bands.num_sbg_sig_highres();
    proof {
        if data@.bands.legal() {
            bands::lemma_bands_are_structured(data@.bands);
        }
    }
    let hfgen = read_hfgen_mono(reader, noise, highres, limit_slots(slots))?;
    data.hfgen[0] = hfgen;
    assert(data@.hfgen =~= old(data)@.hfgen.update(0, hfgen@));
    Ok(())
}

/// Parses the generator flags of a channel pair into `data`, whose tables give
/// the numbers of groups. A failure leaves `data` as it was.
pub fn parse_hfgen_2ch(
    reader: &mut BitReader<'_>,
    data: &mut AspxData,
    balance: bool,
    slots: u8,
) -> (result: Result<(), AspxError>)
    ensures
        match result {
            Ok(_) => {
                &&& syntax::as_expected(
                    syntax::hfgen_pair_at(
                        old(reader)@.bits,
                        old(reader)@.pos,
                        bands::group_count(old(data)@.bands.noise),
                        bands::group_count(old(data)@.bands.sig_highres),
                        stored_slots(slots),
                        balance,
                    ),
                    Ok((final(data)@.hfgen[0], final(data)@.hfgen[1])),
                    old(reader)@,
                    final(reader)@,
                )
                &&& final(data)@ == (DataView { hfgen: final(data)@.hfgen, ..old(data)@ })
            },
            Err(error) => {
                &&& syntax::as_expected(
                    syntax::hfgen_pair_at(
                        old(reader)@.bits,
                        old(reader)@.pos,
                        bands::group_count(old(data)@.bands.noise),
                        bands::group_count(old(data)@.bands.sig_highres),
                        stored_slots(slots),
                        balance,
                    ),
                    Err(error),
                    old(reader)@,
                    final(reader)@,
                )
                &&& *final(data) == *old(data)
            },
        },
{
    let noise: u8 = data.bands.num_sbg_noise();
    let highres: u8 = data.bands.num_sbg_sig_highres();
    proof {
        if data@.bands.legal() {
            bands::lemma_bands_are_structured(data@.bands);
        }
    }
    let (left, right) = read_hfgen_pair(reader, noise, highres, limit_slots(slots), balance)?;
    data.hfgen = [left, right];
    Ok(())
}

/// Parses the envelopes of one family of all channels.
fn parse_family(
    reader: &mut BitReader<'_>,
    books: &AspxCodebooks,
    bands: &AspxBandTables,
    first: &AspxChannelFraming,
    second: &AspxChannelFraming,
    balance: Option<bool>,
    kind: EnvelopeKind,
    left: &AspxEnvelopes,
    right: &AspxEnvelopes,
) -> (result: Result<(AspxEnvelopes, AspxEnvelopes), AspxError>)
    requires
        counts_fit(first@),
        counts_fit(second@),
    ensures
        match result {
            Ok((new_left, new_right)) => syntax::as_expected(
                family_at(
                    books@,
                    old(reader)@.bits,
                    old(reader)@.pos,
                    bands@,
                    (first@, second@),
                    balance,
                    kind,
                    (left@, right@),
                ),
                Ok((new_left@, new_right@)),
                old(reader)@,
                final(reader)@,
            ),
            Err(error) => syntax::as_expected(
                family_at(
                    books@,
                    old(reader)@.bits,
                    old(reader)@.pos,
                    bands@,
                    (first@, second@),
                    balance,
                    kind,
                    (left@, right@),
                ),
                Err(error),
                old(reader)@,
                final(reader)@,
            ),
        },
{
    let new_left = parse_ec_data(reader, books, bands, first, kind, StereoMode::Level, left)?;
    match balance {
        None => Ok((new_left, *right)),
        Some(balanced) => {
            let stereo = if balanced {
                StereoMode::Balance
            } else {
                StereoMode::Level
            };
            let new_right = parse_ec_data(reader, books, bands, second, kind, stereo, right)?;
            Ok((new_left, new_right))
        },
    }
}

/// Parses the envelopes of all channels.
fn parse_envelopes(
    reader: &mut BitReader<'_>,
    books: &AspxCodebooks,
    bands: &AspxBandTables,
    first: &AspxChannelFraming,
    second: &AspxChannelFraming,
    balance: Option<bool>,
) -> (result: Result<(AspxEnvelopes, AspxEnvelopes), AspxError>)
    requires
        counts_fit(first@),
        counts_fit(second@),
    ensures
        match result {
            Ok((left, right)) => syntax::as_expected(
                envelopes_at(
                    books@,
                    old(reader)@.bits,
                    old(reader)@.pos,
                    bands@,
                    (first@, second@),
                    balance,
                ),
                Ok((left@, right@)),
                old(reader)@,
                final(reader)@,
            ),
            Err(error) => syntax::as_expected(
                envelopes_at(
                    books@,
                    old(reader)@.bits,
                    old(reader)@.pos,
                    bands@,
                    (first@, second@),
                    balance,
                ),
                Err(error),
                old(reader)@,
                final(reader)@,
            ),
        },
{
    reveal(envelopes_at);
    let none = AspxEnvelopes::empty();
    let (left, right) = parse_family(
        reader,
        books,
        bands,
        first,
        second,
        balance,
        EnvelopeKind::Signal,
        &none,
        &none,
    )?;
    parse_family(
        reader,
        books,
        bands,
        first,
        second,
        balance,
        EnvelopeKind::Noise,
        &left,
        &right,
    )
}

/// Parses what follows the subband-group tables of an element.
fn parse_channels(
    reader: &mut BitReader<'_>,
    books: &AspxCodebooks,
    config: &AspxConfig,
    state: &AspxState,
    bands: AspxBandTables,
    slots: u8,
    b_iframe: bool,
    two_channels: bool,
) -> (result: Result<AspxData, AspxError>)
    requires
        slots <= MAX_ASPX_TIMESLOTS,
    ensures
        match result {
            Ok(data) => syntax::as_expected(
                channels_at(
                    books@,
                    old(reader)@.bits,
                    old(reader)@.pos,
                    *config,
                    state@.stop_pos,
                    bands@,
                    slots,
                    b_iframe,
                    two_channels,
                ),
                Ok(data@),
                old(reader)@,
                final(reader)@,
            ),
            Err(error) => syntax::as_expected(
                channels_at(
                    books@,
                    old(reader)@.bits,
                    old(reader)@.pos,
                    *config,
                    state@.stop_pos,
                    bands@,
                    slots,
                    b_iframe,
                    two_channels,
                ),
                Err(error),
                old(reader)@,
                final(reader)@,
            ),
        },
{
    let (balance, first, second) = parse_framings(
        reader,
        config,
        state,
        slots,
        b_iframe,
        two_channels,
    )?;
    let (left, right) = parse_directions(reader, &first, &second, two_channels)?;
    let ghost hfgen_start = reader@;
    proof {
        reveal(hfgens_at);
    }
    let channels: u8 = if two_channels {
        2
    } else {
        1
    };
    let mut data = AspxData::empty();
    data.channels = channels;
    data.balance = balance;
    data.bands = bands;
    data.framing = [left, right];
    assert(data@.framing =~= seq![left@, right@]);
    match balance {
        Some(balanced) => {
            parse_hfgen_2ch(reader, &mut data, balanced, slots)?;
            assert(data@.hfgen =~= seq![data@.hfgen[0], data@.hfgen[1]]);
        },
        None => {
            parse_hfgen_1ch(reader, &mut data, slots)?;
            assert(data@.hfgen =~= seq![data@.hfgen[0], syntax::no_hfgen()]);
        },
    }
    assert(hfgens_at(hfgen_start.bits, hfgen_start.pos, bands@, slots, balance) == Parsed::Done(
        (data@.hfgen[0], data@.hfgen[1]),
        reader@.pos,
    ));
    let (left_envelopes, right_envelopes) = parse_envelopes(
        reader,
        books,
        &bands,
        &left,
        &right,
        balance,
    )?;
    data.envelopes = [left_envelopes, right_envelopes];
    assert(data@.envelopes =~= seq![left_envelopes@, right_envelopes@]);
    Ok(data)
}

impl AspxData {
    /// Parses an element; only a whole one changes the state.
    fn parse(
        reader: &mut BitReader<'_>,
        books: &AspxCodebooks,
        config: &AspxConfig,
        state: &mut AspxState,
        frame_len_base: u16,
        b_iframe: bool,
        two_channels: bool,
    ) -> (result: Result<AspxData, AspxError>)
        ensures
            parsed_as(
                element_at(
                    books@,
                    old(reader)@.bits,
                    old(reader)@.pos,
                    *config,
                    old(state)@,
                    frame_len_base,
                    b_iframe,
                    two_channels,
                ),
                result,
                old(reader)@,
                final(reader)@,
                old(state)@,
                final(state)@,
            ),
    {
        let slots: u8 = match num_aspx_timeslots(frame_len_base) {
            Some(slots) => slots,
            None => {
                return Err(AspxError::UnsupportedFrameLenBase { frame_len_base });
            },
        };
        let xover: u8 = if b_iframe {
            read_u8(reader, 3)?
        } else {
            state.xover()
        };
        let bands = match AspxBandTables::derive(
            config.master_freq_scale,
            config.start_freq,
            config.stop_freq,
            config.noise_sbg,
            xover,
        ) {
            Ok(bands) => bands,
            Err(error) => {
                return Err(AspxError::from(error));
            },
        };
        let data = parse_channels(
            reader,
            books,
            config,
            state,
            bands,
            slots,
            b_iframe,
            two_channels,
        )?;
        state.set_xover(xover);
        state.set_stop_pos(0, data.framing[0].interval.stop_pos());
        if two_channels {
            state.set_stop_pos(1, data.framing[1].interval.stop_pos());
        }
        Ok(data)
    }

    /// Parses an element of one channel. Entropy-coded values are decoded with
    /// `books`.
    pub fn parse_1ch(
        reader: &mut BitReader<'_>,
        books: &AspxCodebooks,
        config: &AspxConfig,
        state: &mut AspxState,
        frame_len_base: u16,
        b_iframe: bool,
    ) -> (result: Result<Self, AspxError>)
        ensures
            parsed_as(
                element_at(
                    books@,
                    old(reader)@.bits,
                    old(reader)@.pos,
                    *config,
                    old(state)@,
                    frame_len_base,
                    b_iframe,
                    false,
                ),
                result,
                old(reader)@,
                final(reader)@,
                old(state)@,
                final(state)@,
            ),
    {
        AspxData::parse(reader, books, config, state, frame_len_base, b_iframe, false)
    }

    /// Parses an element of a channel pair. Entropy-coded values are decoded
    /// with `books`.
    pub fn parse_2ch(
        reader: &mut BitReader<'_>,
        books: &AspxCodebooks,
        config: &AspxConfig,
        state: &mut AspxState,
        frame_len_base: u16,
        b_iframe: bool,
    ) -> (result: Result<Self, AspxError>)
        ensures
            parsed_as(
                element_at(
                    books@,
                    old(reader)@.bits,
                    old(reader)@.pos,
                    *config,
                    old(state)@,
                    frame_len_base,
                    b_iframe,
                    true,
                ),
                result,
                old(reader)@,
                final(reader)@,
                old(state)@,
                final(state)@,
            ),
    {
        AspxData::parse(reader, books, config, state, frame_len_base, b_iframe, true)
    }
}

/// A frame that is not independent keeps the crossover offset.
pub proof fn lemma_offset_is_kept_between_independent_frames(
    books: Seq<Seq<Codeword>>,
    bits: Seq<bool>,
    pos: int,
    config: AspxConfig,
    state: StateView,
    frame_len_base: u16,
    two_channels: bool,
)
    ensures
        element_at(books, bits, pos, config, state, frame_len_base, false, two_channels)
            matches Parsed::Done((xover, data), p) ==> xover == state.xover && state_after(
            state,
            xover,
            data,
        ).xover == state.xover,
{
}

/// A balanced pair shares its framing, up to the difference directions, and its
/// chirp modes. An element says whether it is balanced exactly when it is a
/// pair.
pub proof fn lemma_balanced_pair_shares_framing(
    books: Seq<Seq<Codeword>>,
    bits: Seq<bool>,
    pos: int,
    config: AspxConfig,
    state: StateView,
    frame_len_base: u16,
    b_iframe: bool,
    two_channels: bool,
)
    ensures
        element_at(books, bits, pos, config, state, frame_len_base, b_iframe, two_channels)
            matches Parsed::Done((xover, data), p) ==> {
            &&& data.balance is Some == two_channels
            &&& data.channels == if two_channels {
                2int
            } else {
                1
            }
            &&& data.balance == Some(true) ==> {
                &&& data.framing[1].params == data.framing[0].params
                &&& data.framing[1].interval == data.framing[0].interval
                &&& data.framing[1].qmode_env == data.framing[0].qmode_env
                &&& data.hfgen[1].tna_mode == data.hfgen[0].tna_mode
            }
        },
{
    reveal(framings_at);
    reveal(directed_at);
    reveal(hfgens_at);
}

proof fn lemma_family_shape(
    books: Seq<Seq<Codeword>>,
    bits: Seq<bool>,
    pos: int,
    bands: BandView,
    framing: FramingView,
    kind: EnvelopeKind,
    stereo: StereoMode,
    envelopes: EnvelopesView,
)
    ensures
        payload::ec_data_at(books, bits, pos, bands, framing, kind, stereo, envelopes)
            matches Parsed::Done(after, p) ==> match kind {
            EnvelopeKind::Signal => signal_fits(bands, framing, after) && after.noise
                == envelopes.noise,
            EnvelopeKind::Noise => noise_fits(bands, framing, after) && after.sig == envelopes.sig,
        },
{
    payload::lemma_rows_match_groups(
        books,
        bits,
        pos,
        kind,
        bands,
        framing,
        stereo,
        payload::envelope_count(kind, framing),
    );
}

/// Whether the signal envelopes have the shape that the framing and the tables
/// give them.
pub open spec fn signal_fits(
    bands: BandView,
    framing: FramingView,
    envelopes: EnvelopesView,
) -> bool {
    &&& envelopes.sig.len() == framing.params.num_env
    &&& forall|env: int|
        0 <= env < framing.params.num_env ==> (#[trigger] envelopes.sig[env]).len()
            == payload::signal_groups(bands, framing.interval, env)
}

/// Whether the noise envelopes have the shape that the framing and the tables
/// give them.
pub open spec fn noise_fits(
    bands: BandView,
    framing: FramingView,
    envelopes: EnvelopesView,
) -> bool {
    &&& envelopes.noise.len() == framing.params.num_noise
    &&& forall|env: int|
        0 <= env < framing.params.num_noise ==> (#[trigger] envelopes.noise[env]).len()
            == bands::group_count(bands.noise)
}

/// Every channel of a parsed element has as many envelopes as its framing
/// counts. A signal envelope has one value for each group at its frequency
/// resolution, a noise envelope one for each noise group.
pub proof fn lemma_envelopes_fit_the_framing(
    books: Seq<Seq<Codeword>>,
    bits: Seq<bool>,
    pos: int,
    config: AspxConfig,
    state: StateView,
    frame_len_base: u16,
    b_iframe: bool,
    two_channels: bool,
)
    ensures
        element_at(books, bits, pos, config, state, frame_len_base, b_iframe, two_channels)
            matches Parsed::Done((xover, data), p) ==> forall|ch: int|
            0 <= ch < data.channels ==> {
                &&& #[trigger] signal_fits(data.bands, data.framing[ch], data.envelopes[ch])
                &&& noise_fits(data.bands, data.framing[ch], data.envelopes[ch])
            },
{
    if let Parsed::Done((xover, data), p) = element_at(
        books,
        bits,
        pos,
        config,
        state,
        frame_len_base,
        b_iframe,
        two_channels,
    ) {
        lemma_balanced_pair_shares_framing(
            books,
            bits,
            pos,
            config,
            state,
            frame_len_base,
            b_iframe,
            two_channels,
        );
        assert forall|start: int|
            (#[trigger] envelopes_at(
                books,
                bits,
                start,
                data.bands,
                (data.framing[0], data.framing[1]),
                data.balance,
            )) == Parsed::Done((data.envelopes[0], data.envelopes[1]), p) implies {
            &&& signal_fits(data.bands, data.framing[0], data.envelopes[0])
            &&& noise_fits(data.bands, data.framing[0], data.envelopes[0])
            &&& two_channels ==> signal_fits(data.bands, data.framing[1], data.envelopes[1])
            &&& two_channels ==> noise_fits(data.bands, data.framing[1], data.envelopes[1])
        } by {
            lemma_payload_shape(
                books,
                bits,
                start,
                data.bands,
                (data.framing[0], data.framing[1]),
                data.balance,
            );
        }
    }
}

proof fn lemma_payload_shape(
    books: Seq<Seq<Codeword>>,
    bits: Seq<bool>,
    pos: int,
    bands: BandView,
    framing: (FramingView, FramingView),
    balance: Option<bool>,
)
    ensures
        envelopes_at(books, bits, pos, bands, framing, balance) matches Parsed::Done(
            (left, right),
            p,
        ) ==> {
            &&& signal_fits(bands, framing.0, left)
            &&& noise_fits(bands, framing.0, left)
            &&& balance is Some ==> signal_fits(bands, framing.1, right)
            &&& balance is Some ==> noise_fits(bands, framing.1, right)
        },
{
    reveal(envelopes_at);
    let none = payload::no_envelopes();
    let sig = EnvelopeKind::Signal;
    let noise = EnvelopeKind::Noise;
    let level = StereoMode::Level;
    let second = second_stereo(balance);
    lemma_family_shape(books, bits, pos, bands, framing.0, sig, level, none);
    if let Parsed::Done(left, p) = payload::ec_data_at(
        books,
        bits,
        pos,
        bands,
        framing.0,
        sig,
        level,
        none,
    ) {
        lemma_family_shape(books, bits, p, bands, framing.1, sig, second, none);
    }
    if let Parsed::Done((left, right), p) = family_at(
        books,
        bits,
        pos,
        bands,
        framing,
        balance,
        sig,
        (none, none),
    ) {
        lemma_family_shape(books, bits, p, bands, framing.0, noise, level, left);
        if let Parsed::Done(full, q) = payload::ec_data_at(
            books,
            bits,
            p,
            bands,
            framing.0,
            noise,
            level,
            left,
        ) {
            lemma_family_shape(books, bits, q, bands, framing.1, noise, second, right);
        }
    }
}

} // verus!
