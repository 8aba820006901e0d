//! Syntax of the A-SPX elements.
//!
//! An element holds, for one or two channels, the framing of an interval, the
//! directions of its differences, flags for the high-frequency generator, and
//! the entropy-coded envelopes. Three things outlive an element and are kept by
//! the caller: the configuration, the crossover offset, and where each
//! channel's interval ended.
use vstd::prelude::*;
use vstd::std_specs::convert::FromSpecImpl;
use crate::bands::{self, BandError};
use crate::envelope::NOISE_GROUPS;
use crate::frames::{
    self, AspxInterval, AspxIntervalParams, FrameError, IntervalView, ParamsView, MAX_ATSG_NOISE,
    MAX_ATSG_SIG, MAX_REL_BORDERS,
};
use crate::huffman::HuffmanError;
use crate::reader::{self, BitReader, ReadError, ReaderView};
use crate::tables::{IntervalClass, MAX_ASPX_TIMESLOTS, MAX_SBG_MASTER};

verus! {

/// Largest number of groups in one envelope.
pub const MAX_SBG_PER_ENVELOPE: usize = 22;

/// Why an element could not be parsed.
#[derive(Debug, Clone, Copy, PartialEq, Eq, Structural)]
pub enum AspxError {
    /// The data ended.
    Read(ReadError),
    /// No symbol could be decoded.
    Huffman(HuffmanError),
    /// The configuration has no subband-group tables.
    Bands(BandError),
    /// The framing describes no interval.
    Frames(FrameError),
    /// The frame length is not a legal one.
    UnsupportedFrameLenBase {
        /// The offending length.
        frame_len_base: u16,
    },
    /// An interval with two fixed ends asks for eight envelopes.
    EightEnvelopesProhibited,
}

impl From<ReadError> for AspxError {
    fn from(error: ReadError) -> (converted: Self) {
        AspxError::Read(error)
    }
}

impl FromSpecImpl<ReadError> for AspxError {
    open spec fn obeys_from_spec() -> bool {
        true
    }

    open spec fn from_spec(error: ReadError) -> Self {
        AspxError::Read(error)
    }
}

impl From<HuffmanError> for AspxError {
    fn from(error: HuffmanError) -> (converted: Self) {
        AspxError::Huffman(error)
    }
}

impl FromSpecImpl<HuffmanError> for AspxError {
    open spec fn obeys_from_spec() -> bool {
        true
    }

    open spec fn from_spec(error: HuffmanError) -> Self {
        AspxError::Huffman(error)
    }
}

impl From<BandError> for AspxError {
    fn from(error: BandError) -> (converted: Self) {
        AspxError::Bands(error)
    }
}

impl FromSpecImpl<BandError> for AspxError {
    open spec fn obeys_from_spec() -> bool {
        true
    }

    open spec fn from_spec(error: BandError) -> Self {
        AspxError::Bands(error)
    }
}

impl From<FrameError> for AspxError {
    fn from(error: FrameError) -> (converted: Self) {
        AspxError::Frames(error)
    }
}

impl FromSpecImpl<FrameError> for AspxError {
    open spec fn obeys_from_spec() -> bool {
        true
    }

    open spec fn from_spec(error: FrameError) -> Self {
        AspxError::Frames(error)
    }
}

/// Outcome of parsing: a value or an error, and the position after it.
pub enum Parsed<T> {
    /// A value, and the position of the first bit after it.
    Done(T, int),
    /// An error, and the position at which the reader is left.
    Failed(AspxError, int),
}

/// An unsigned field of `width` bits.
pub open spec fn field_at(bits: Seq<bool>, pos: int, width: int) -> Parsed<u8> {
    if pos + width <= bits.len() {
        Parsed::Done(reader::bits_value(bits, pos, width) as u8, pos + width)
    } else {
        Parsed::Failed(
            AspxError::Read(
                ReadError::EndOfData {
                    needed: width as u32,
                    available: (bits.len() - pos) as u64,
                },
            ),
            pos,
        )
    }
}

/// A single bit.
pub open spec fn flag_at(bits: Seq<bool>, pos: int) -> Parsed<bool> {
    if pos < bits.len() {
        Parsed::Done(bits[pos], pos + 1)
    } else {
        Parsed::Failed(AspxError::Read(ReadError::EndOfData { needed: 1, available: 0 }), pos)
    }
}

/// `count` fields of `width` bits each.
pub open spec fn fields_at(bits: Seq<bool>, pos: int, width: int, count: int) -> Parsed<Seq<u8>>
    decreases count,
{
    if count <= 0 {
        Parsed::Done(Seq::empty(), pos)
    } else {
        match fields_at(bits, pos, width, count - 1) {
            Parsed::Failed(error, p) => Parsed::Failed(error, p),
            Parsed::Done(values, p) => match field_at(bits, p, width) {
                Parsed::Failed(error, q) => Parsed::Failed(error, q),
                Parsed::Done(value, q) => Parsed::Done(values.push(value), q),
            },
        }
    }
}

/// `count` single bits.
pub open spec fn flags_at(bits: Seq<bool>, pos: int, count: int) -> Parsed<Seq<bool>>
    decreases count,
{
    if count <= 0 {
        Parsed::Done(Seq::empty(), pos)
    } else {
        match flags_at(bits, pos, count - 1) {
            Parsed::Failed(error, p) => Parsed::Failed(error, p),
            Parsed::Done(values, p) => match flag_at(bits, p) {
                Parsed::Failed(error, q) => Parsed::Failed(error, q),
                Parsed::Done(value, q) => Parsed::Done(values.push(value), q),
            },
        }
    }
}

/// Whether reading went as expected: same bits, same outcome, same position.
pub open spec fn as_expected<T>(
    expected: Parsed<T>,
    result: Result<T, AspxError>,
    before: ReaderView,
    after: ReaderView,
) -> bool {
    &&& after.bits == before.bits
    &&& match result {
        Ok(value) => expected == Parsed::<T>::Done(value, after.pos),
        Err(error) => expected == Parsed::<T>::Failed(error, after.pos),
    }
}

/// Reads an unsigned field of up to eight bits.
pub(crate) fn read_u8(reader: &mut BitReader<'_>, width: u32) -> (result: Result<u8, AspxError>)
    requires
        width <= 8,
    ensures
        as_expected(
            field_at(old(reader)@.bits, old(reader)@.pos, width as int),
            result,
            old(reader)@,
            final(reader)@,
        ),
        result matches Ok(value) ==> value < vstd::arithmetic::power2::pow2(width as nat),
{
    proof {
        reader::lemma_bits_value_range(reader@.bits, reader@.pos, width as int);
        vstd::arithmetic::power2::lemma2_to64();
        if width < 8 {
            vstd::arithmetic::power2::lemma_pow2_strictly_increases(width as nat, 8);
        }
    }
    match reader.read_bits(width) {
        Ok(value) => Ok(value as u8),
        Err(error) => Err(AspxError::from(error)),
    }
}

/// Reads a single bit.
pub(crate) fn read_flag(reader: &mut BitReader<'_>) -> (result: Result<bool, AspxError>)
    ensures
        as_expected(
            flag_at(old(reader)@.bits, old(reader)@.pos),
            result,
            old(reader)@,
            final(reader)@,
        ),
{
    match reader.read_flag() {
        Ok(flag) => Ok(flag),
        Err(error) => Err(AspxError::from(error)),
    }
}

/// A failure among the first flags remains one however many follow.
proof fn lemma_flags_failure_stays(bits: Seq<bool>, pos: int, count: int, total: int)
    requires
        count <= total,
        flags_at(bits, pos, count) is Failed,
    ensures
        flags_at(bits, pos, total) == flags_at(bits, pos, count),
    decreases total - count,
{
    if count < total {
        lemma_flags_failure_stays(bits, pos, count, total - 1);
    }
}

proof fn lemma_fields_failure_stays(bits: Seq<bool>, pos: int, width: int, count: int, total: int)
    requires
        count <= total,
        fields_at(bits, pos, width, count) is Failed,
    ensures
        fields_at(bits, pos, width, total) == fields_at(bits, pos, width, count),
    decreases total - count,
{
    if count < total {
        lemma_fields_failure_stays(bits, pos, width, count, total - 1);
    }
}

/// Reads `count` bits into the front of `out`.
fn read_flags(reader: &mut BitReader<'_>, count: usize, out: &mut [bool]) -> (result: Result<
    (),
    AspxError,
>)
    requires
        count <= old(out)@.len(),
    ensures
        final(out)@.len() == old(out)@.len(),
        match result {
            Ok(_) => {
                &&& as_expected(
                    flags_at(old(reader)@.bits, old(reader)@.pos, count as int),
                    Ok(final(out)@.take(count as int)),
                    old(reader)@,
                    final(reader)@,
                )
                &&& forall|i: int|
                    count <= i < old(out)@.len() ==> final(out)@[i] == old(out)@[i]
            },
            Err(error) => as_expected(
                flags_at(old(reader)@.bits, old(reader)@.pos, count as int),
                Err(error),
                old(reader)@,
                final(reader)@,
            ),
        },
{
    let ghost start = reader@;
    let ghost before = out@;
    let mut index: usize = 0;
    assert(out@.take(0) =~= Seq::empty());
    while index < count
        invariant
            index <= count <= out@.len(),
            start == old(reader)@,
            before == old(out)@,
            out@.len() == before.len(),
            reader@.bits == start.bits,
            flags_at(start.bits, start.pos, index as int) == Parsed::Done(
                out@.take(index as int),
                reader@.pos,
            ),
            forall|i: int| count <= i < before.len() ==> out@[i] == before[i],
        decreases count - index,
    {
        let flag: bool = match read_flag(reader) {
            Ok(flag) => flag,
            Err(error) => {
                proof {
                    lemma_flags_failure_stays(start.bits, start.pos, index + 1, count as int);
                }
                return Err(error);
            },
        };
        let ghost kept = out@.take(index as int);
        out[index] = flag;
        assert(out@.take(index + 1) =~= kept.push(flag));
        index = index + 1;
    }
    Ok(())
}

/// Reads `count` fields of `width` bits into the front of `out`.
fn read_fields(reader: &mut BitReader<'_>, width: u32, count: usize, out: &mut [u8]) -> (result:
    Result<(), AspxError>)
    requires
        width <= 8,
        count <= old(out)@.len(),
    ensures
        final(out)@.len() == old(out)@.len(),
        match result {
            Ok(_) => {
                &&& as_expected(
                    fields_at(old(reader)@.bits, old(reader)@.pos, width as int, count as int),
                    Ok(final(out)@.take(count as int)),
                    old(reader)@,
                    final(reader)@,
                )
                &&& forall|i: int|
                    count <= i < old(out)@.len() ==> final(out)@[i] == old(out)@[i]
                &&& forall|i: int|
                    0 <= i < count ==> #[trigger] final(out)@[i]
                        < vstd::arithmetic::power2::pow2(width as nat)
            },
            Err(error) => as_expected(
                fields_at(old(reader)@.bits, old(reader)@.pos, width as int, count as int),
                Err(error),
                old(reader)@,
                final(reader)@,
            ),
        },
{
    let ghost start = reader@;
    let ghost before = out@;
    let mut index: usize = 0;
    assert(out@.take(0) =~= Seq::empty());
    while index < count
        invariant
            width <= 8,
            index <= count <= out@.len(),
            start == old(reader)@,
            before == old(out)@,
            out@.len() == before.len(),
            reader@.bits == start.bits,
            fields_at(start.bits, start.pos, width as int, index as int) == Parsed::Done(
                out@.take(index as int),
                reader@.pos,
            ),
            forall|i: int| count <= i < before.len() ==> out@[i] == before[i],
            forall|i: int|
                0 <= i < index ==> #[trigger] out@[i] < vstd::arithmetic::power2::pow2(
                    width as nat,
                ),
        decreases count - index,
    {
        let value: u8 = match read_u8(reader, width) {
            Ok(value) => value,
            Err(error) => {
                proof {
                    lemma_fields_failure_stays(
                        start.bits,
                        start.pos,
                        width as int,
                        index + 1,
                        count as int,
                    );
                }
                return Err(error);
            },
        };
        let ghost kept = out@.take(index as int);
        out[index] = value;
        assert(out@.take(index + 1) =~= kept.push(value));
        index = index + 1;
    }
    Ok(())
}

/// Sum of the first `count` widths.
pub open spec fn width_sum(widths: Seq<u8>, count: int) -> int
    decreases count,
{
    if count <= 0 {
        0
    } else {
        width_sum(widths, count - 1) + widths[count - 1]
    }
}

/// The first `count` fields of a layout with the given widths.
pub open spec fn layout_at(bits: Seq<bool>, pos: int, widths: Seq<u8>, count: int) -> Parsed<
    Seq<u8>,
>
    decreases count,
{
    if count <= 0 {
        Parsed::Done(Seq::empty(), pos)
    } else {
        match layout_at(bits, pos, widths, count - 1) {
            Parsed::Failed(error, p) => Parsed::Failed(error, p),
            Parsed::Done(values, p) => match field_at(bits, p, widths[count - 1] as int) {
                Parsed::Failed(error, q) => Parsed::Failed(error, q),
                Parsed::Done(value, q) => Parsed::Done(values.push(value), q),
            },
        }
    }
}

proof fn lemma_layout_failure_stays(
    bits: Seq<bool>,
    pos: int,
    widths: Seq<u8>,
    count: int,
    total: int,
)
    requires
        count <= total,
        layout_at(bits, pos, widths, count) is Failed,
    ensures
        layout_at(bits, pos, widths, total) == layout_at(bits, pos, widths, count),
    decreases total - count,
{
    if count < total {
        lemma_layout_failure_stays(bits, pos, widths, count, total - 1);
    }
}

/// A layout is parsed if and only if enough bits are left for all of its
/// fields, and takes exactly as many.
pub proof fn lemma_layout_length(bits: Seq<bool>, pos: int, widths: Seq<u8>, count: int)
    requires
        0 <= count <= widths.len(),
        pos <= bits.len(),
    ensures
        layout_at(bits, pos, widths, count) is Done <==> pos + width_sum(widths, count)
            <= bits.len(),
        layout_at(bits, pos, widths, count) matches Parsed::Done(values, p) ==> {
            &&& p == pos + width_sum(widths, count)
            &&& values.len() == count
        },
    decreases count,
{
    if count > 0 {
        lemma_layout_length(bits, pos, widths, count - 1);
    }
}

/// Configuration that a stream keeps until its next independently decodable
/// frame.
#[derive(Debug, Clone, Copy, PartialEq, Eq, Structural)]
pub struct AspxConfig {
    /// Quantiser step of signal envelopes: 1.5 dB or, when set, 3 dB.
    pub quant_mode_env: bool,
    /// Start frequency, three bits.
    pub start_freq: u8,
    /// Stop frequency, two bits.
    pub stop_freq: u8,
    /// Whether the master table is cut from the high-resolution template.
    pub master_freq_scale: bool,
    /// Whether envelopes are interpolated.
    pub interpolation: bool,
    /// Whether the low band is flattened before it is copied.
    pub preflat: bool,
    /// Whether gains are limited.
    pub limiter: bool,
    /// Density of the noise groups, two bits.
    pub noise_sbg: u8,
    /// Whether the number of envelopes between fixed ends has two bits rather
    /// than one.
    pub num_env_bits_fixfix: bool,
    /// How frequency resolutions are determined, two bits.
    pub freq_res_mode: u8,
}

/// Widths of the fields of a configuration.
pub const CONFIG_WIDTHS: [u8; 10] = [1, 3, 2, 1, 1, 1, 1, 2, 1, 2];

/// The configuration with the given field values.
pub open spec fn config_of(values: Seq<u8>) -> AspxConfig {
    AspxConfig {
        quant_mode_env: values[0] == 1,
        start_freq: values[1],
        stop_freq: values[2],
        master_freq_scale: values[3] == 1,
        interpolation: values[4] == 1,
        preflat: values[5] == 1,
        limiter: values[6] == 1,
        noise_sbg: values[7],
        num_env_bits_fixfix: values[8] == 1,
        freq_res_mode: values[9],
    }
}

/// The configuration at a position.
pub open spec fn config_at(bits: Seq<bool>, pos: int) -> Parsed<AspxConfig> {
    match layout_at(bits, pos, CONFIG_WIDTHS@, 10) {
        Parsed::Done(values, p) => Parsed::Done(config_of(values), p),
        Parsed::Failed(error, p) => Parsed::Failed(error, p),
    }
}

/// A configuration takes fifteen bits, and there is one wherever that many are
/// left.
pub proof fn lemma_config_takes_fifteen_bits(bits: Seq<bool>, pos: int)
    requires
        pos <= bits.len(),
    ensures
        config_at(bits, pos) is Done <==> pos + 15 <= bits.len(),
        config_at(bits, pos) matches Parsed::Done(_, p) ==> p == pos + 15,
{
    lemma_layout_length(bits, pos, CONFIG_WIDTHS@, 10);
    let widths = CONFIG_WIDTHS@;
    assert(widths[0] == 1 && widths[1] == 3 && widths[2] == 2 && widths[3] == 1 && widths[4] == 1
        && widths[5] == 1 && widths[6] == 1 && widths[7] == 2 && widths[8] == 1 && widths[9] == 2);
    reveal_with_fuel(width_sum, 11);
}

impl AspxConfig {
    /// Parses a configuration.
    pub fn parse(reader: &mut BitReader<'_>) -> (result: Result<Self, AspxError>)
        ensures
            as_expected(
                config_at(old(reader)@.bits, old(reader)@.pos),
                result,
                old(reader)@,
                final(reader)@,
            ),
            result matches Ok(config) ==> {
                &&& config.start_freq <= 7
                &&& config.stop_freq <= 3
                &&& config.noise_sbg <= 3
                &&& config.freq_res_mode <= 3
            },
    {
        let ghost start = reader@;
        let ghost widths = CONFIG_WIDTHS@;
        assert(widths[0] == 1 && widths[1] == 3 && widths[2] == 2 && widths[3] == 1 && widths[4]
            == 1 && widths[5] == 1 && widths[6] == 1 && widths[7] == 2 && widths[8] == 1
            && widths[9] == 2);
        let mut values: [u8; 10] = [0; 10];
        let mut index: usize = 0;
        assert(values@.take(0) =~= Seq::empty());
        while index < 10
            invariant
                index <= 10,
                start == old(reader)@,
                widths == CONFIG_WIDTHS@,
                forall|i: int| 0 <= i < 10 ==> #[trigger] widths[i] <= 3,
                reader@.bits == start.bits,
                layout_at(start.bits, start.pos, widths, index as int) == Parsed::Done(
                    values@.take(index as int),
                    reader@.pos,
                ),
                forall|i: int|
                    0 <= i < index ==> #[trigger] values@[i] < vstd::arithmetic::power2::pow2(
                        widths[i] as nat,
                    ),
            decreases 10 - index,
        {
            let value: u8 = match read_u8(reader, CONFIG_WIDTHS[index] as u32) {
                Ok(value) => value,
                Err(error) => {
                    proof {
                        lemma_layout_failure_stays(start.bits, start.pos, widths, index + 1, 10);
                    }
                    return Err(error);
                },
            };
            let ghost kept = values@.take(index as int);
            values[index] = value;
            assert(values@.take(index + 1) =~= kept.push(value));
            index = index + 1;
        }
        proof {
            assert(values@.take(10) =~= values@);
            vstd::arithmetic::power2::lemma2_to64();
        }
        Ok(
            AspxConfig {
                quant_mode_env: values[0] == 1,
                start_freq: values[1],
                stop_freq: values[2],
                master_freq_scale: values[3] == 1,
                interpolation: values[4] == 1,
                preflat: values[5] == 1,
                limiter: values[6] == 1,
                noise_sbg: values[7],
                num_env_bits_fixfix: values[8] == 1,
                freq_res_mode: values[9],
            },
        )
    }
}

/// What one element keeps from frame to frame.
#[verifier::ext_equal]
pub struct StateView {
    /// Crossover offset.
    pub xover: u8,
    /// Where the interval of each of the two channels ended.
    pub stop_pos: Seq<i16>,
}

/// What one element keeps from frame to frame.
#[derive(Debug, Clone, Copy, PartialEq, Eq)]
pub struct AspxState {
    xover: u8,
    previous_stop_pos: [i16; 2],
}

impl View for AspxState {
    type V = StateView;

    closed spec fn view(&self) -> StateView {
        StateView { xover: self.xover, stop_pos: self.previous_stop_pos@ }
    }
}

impl AspxState {
    /// The state before the first frame.
    #[must_use]
    pub fn new() -> (state: Self)
        ensures
            state@ == (StateView { xover: 0, stop_pos: seq![0i16, 0i16] }),
    {
        let state = AspxState { xover: 0, previous_stop_pos: [0; 2] };
        assert(state@.stop_pos =~= seq![0i16, 0i16]);
        state
    }

    /// The crossover offset in force.
    #[must_use]
    pub fn xover(&self) -> (xover: u8)
        ensures
            xover == self@.xover,
    {
        self.xover
    }

    /// Pretends that the previous intervals ended with their frame.
    pub fn reset_stop_pos(&mut self, num_aspx_timeslots: u8)
        ensures
            final(self)@ == (StateView {
                xover: old(self)@.xover,
                stop_pos: seq![num_aspx_timeslots as i16, num_aspx_timeslots as i16],
            }),
    {
        self.previous_stop_pos = [num_aspx_timeslots as i16; 2];
        assert(self@.stop_pos =~= seq![num_aspx_timeslots as i16, num_aspx_timeslots as i16]);
    }

    /// Where the previous interval of channel `ch` ended.
    pub(crate) fn stop_pos(&self, ch: usize) -> (stop: i16)
        requires
            ch < 2,
        ensures
            stop == self@.stop_pos[ch as int],
    {
        self.previous_stop_pos[ch]
    }

    /// Sets the crossover offset.
    pub(crate) fn set_xover(&mut self, xover: u8)
        ensures
            final(self)@ == (StateView { xover, ..old(self)@ }),
    {
        self.xover = xover;
    }

    /// Sets where the interval of channel `ch` ended.
    pub(crate) fn set_stop_pos(&mut self, ch: usize, stop: i16)
        requires
            ch < 2,
        ensures
            final(self)@ == (StateView {
                stop_pos: old(self)@.stop_pos.update(ch as int, stop),
                ..old(self)@
            }),
            final(self)@.stop_pos.len() == 2,
            old(self)@.stop_pos.len() == 2,
    {
        self.previous_stop_pos[ch] = stop;
    }
}

impl Default for AspxState {
    fn default() -> (state: Self)
        ensures
            state@ == (StateView { xover: 0, stop_pos: seq![0i16, 0i16] }),
    {
        AspxState::new()
    }
}

/// The interval class: one of the codewords `0`, `10`, `110` and `111`.
pub open spec fn class_at(bits: Seq<bool>, pos: int) -> Parsed<IntervalClass> {
    match flag_at(bits, pos) {
        Parsed::Failed(error, p) => Parsed::Failed(error, p),
        Parsed::Done(first, p) => if !first {
            Parsed::Done(IntervalClass::FixFix, p)
        } else {
            match flag_at(bits, p) {
                Parsed::Failed(error, q) => Parsed::Failed(error, q),
                Parsed::Done(second, q) => if !second {
                    Parsed::Done(IntervalClass::FixVar, q)
                } else {
                    match flag_at(bits, q) {
                        Parsed::Failed(error, r) => Parsed::Failed(error, r),
                        Parsed::Done(third, r) => Parsed::Done(
                            if third {
                                IntervalClass::VarVar
                            } else {
                                IntervalClass::VarFix
                            },
                            r,
                        ),
                    }
                },
            }
        },
    }
}

/// Parses an interval class.
pub fn parse_interval_class(reader: &mut BitReader<'_>) -> (result: Result<
    IntervalClass,
    AspxError,
>)
    ensures
        as_expected(
            class_at(old(reader)@.bits, old(reader)@.pos),
            result,
            old(reader)@,
            final(reader)@,
        ),
{
    if !read_flag(reader)? {
        return Ok(IntervalClass::FixFix);
    }
    if !read_flag(reader)? {
        return Ok(IntervalClass::FixVar);
    }
    if read_flag(reader)? {
        Ok(IntervalClass::VarVar)
    } else {
        Ok(IntervalClass::VarFix)
    }
}

/// Number of bits of the envelope pointer.
pub open spec fn ptr_bits(num_env: int) -> int {
    if num_env + 2 <= 2 {
        1
    } else if num_env + 2 <= 4 {
        2
    } else if num_env + 2 <= 8 {
        3
    } else if num_env + 2 <= 16 {
        4
    } else if num_env + 2 <= 32 {
        5
    } else if num_env + 2 <= 64 {
        6
    } else if num_env + 2 <= 128 {
        7
    } else if num_env + 2 <= 256 {
        8
    } else {
        9
    }
}

/// Number of bits of the envelope pointer: enough for `num_env + 2` values and
/// no more.
#[must_use]
pub fn tsg_ptr_bits(num_env: u8) -> (bits: u32)
    ensures
        bits == ptr_bits(num_env as int),
        num_env + 2 <= vstd::arithmetic::power2::pow2(bits as nat),
        vstd::arithmetic::power2::pow2((bits - 1) as nat) < num_env + 2,
{
    let value: u32 = num_env as u32 + 2;
    let mut bits: u32 = 1;
    let mut range: u32 = 2;
    proof {
        vstd::arithmetic::power2::lemma2_to64();
    }
    while range < value
        invariant
            value == num_env + 2,
            1 <= bits <= 9,
            bits == 9 ==> range == 512,
            bits == 8 ==> range == 256,
            bits == 7 ==> range == 128,
            bits == 6 ==> range == 64,
            bits == 5 ==> range == 32,
            bits == 4 ==> range == 16,
            bits == 3 ==> range == 8,
            bits == 2 ==> range == 4,
            bits == 1 ==> range == 2,
            bits > 1 ==> range < 2 * value,
        decreases 1024 - range,
    {
        range = range * 2;
        bits = bits + 1;
    }
    bits
}

/// One side of an interval: its transmitted border, if any, and the distances
/// of the borders next to it.
#[verifier::ext_equal]
pub struct SideView {
    /// Transmitted border.
    pub border: Option<u8>,
    /// Distances, from the end of the interval on.
    pub steps: Seq<u8>,
}

/// A two-bit border, if one is transmitted.
pub open spec fn border_field_at(bits: Seq<bool>, pos: int, present: bool) -> Parsed<Option<u8>> {
    if !present {
        Parsed::Done(None, pos)
    } else {
        match field_at(bits, pos, 2) {
            Parsed::Failed(error, p) => Parsed::Failed(error, p),
            Parsed::Done(value, p) => Parsed::Done(Some(value), p),
        }
    }
}

/// The distances that raw field values stand for: even, and at least two.
pub open spec fn distances(raw: Seq<u8>) -> Seq<u8> {
    raw.map_values(|value: u8| (2 * value + 2) as u8)
}

/// One side of an interval.
pub open spec fn side_at(bits: Seq<bool>, pos: int, with_border: bool, rel_bits: int) -> Parsed<
    SideView,
> {
    match border_field_at(bits, pos, with_border) {
        Parsed::Failed(error, p) => Parsed::Failed(error, p),
        Parsed::Done(border, p) => match field_at(bits, p, rel_bits) {
            Parsed::Failed(error, q) => Parsed::Failed(error, q),
            Parsed::Done(count, q) => match fields_at(bits, q, rel_bits, count as int) {
                Parsed::Failed(error, r) => Parsed::Failed(error, r),
                Parsed::Done(raw, r) => Parsed::Done(
                    SideView { border, steps: distances(raw) },
                    r,
                ),
            },
        },
    }
}

/// One side of an interval, if it is variable.
pub open spec fn optional_side_at(
    bits: Seq<bool>,
    pos: int,
    variable: bool,
    with_border: bool,
    rel_bits: int,
) -> Parsed<SideView> {
    if variable {
        side_at(bits, pos, with_border, rel_bits)
    } else {
        Parsed::Done(SideView { border: None, steps: Seq::empty() }, pos)
    }
}

/// The first three distances, followed by zeros.
pub open spec fn three_steps(steps: Seq<u8>) -> Seq<u8> {
    Seq::new(
        3,
        |i: int|
            if i < steps.len() {
                steps[i]
            } else {
                0
            },
    )
}

/// The first `length` flags, followed by unset ones.
pub open spec fn padded_flags(flags: Seq<bool>, length: int) -> Seq<bool> {
    Seq::new(length as nat, |i: int| i < flags.len() && flags[i])
}

/// `count` flags if `present`, none otherwise.
pub open spec fn optional_flags_at(
    bits: Seq<bool>,
    pos: int,
    present: bool,
    count: int,
) -> Parsed<Seq<bool>> {
    if present {
        flags_at(bits, pos, count)
    } else {
        Parsed::Done(Seq::empty(), pos)
    }
}

/// Number of bits of the fields about relative borders.
pub open spec fn relative_bits(slots: u8) -> int {
    if slots > 8 {
        2
    } else {
        1
    }
}

/// Framing fields between two fixed ends, after the interval class.
pub open spec fn fixfix_params_at(bits: Seq<bool>, pos: int, config: AspxConfig) -> Parsed<
    ParamsView,
> {
    match field_at(
        bits,
        pos,
        if config.num_env_bits_fixfix {
            2
        } else {
            1
        },
    ) {
        Parsed::Failed(error, p) => Parsed::Failed(error, p),
        Parsed::Done(exponent, p) => if exponent >= 3 {
            Parsed::Failed(AspxError::EightEnvelopesProhibited, p)
        } else {
            match optional_flags_at(bits, p, config.freq_res_mode == 0, 1) {
                Parsed::Failed(error, q) => Parsed::Failed(error, q),
                Parsed::Done(flags, q) => Parsed::Done(
                    ParamsView {
                        freq_res: padded_flags(flags, 5),
                        ..frames::fixfix_view(
                            if exponent == 0 {
                                1
                            } else if exponent == 1 {
                                2
                            } else {
                                4
                            },
                        )
                    },
                    q,
                ),
            }
        },
    }
}

/// The framing fields that two sides, a raw pointer and transmitted
/// resolutions amount to.
pub open spec fn variable_params(
    int_class: IntervalClass,
    left: SideView,
    right: SideView,
    pointer: u8,
    flags: Seq<bool>,
) -> ParamsView {
    let num_env = (left.steps.len() + right.steps.len() + 1) as u8;
    ParamsView {
        int_class,
        num_env,
        num_noise: frames::expected_noise(num_env),
        var_bord_left: left.border,
        var_bord_right: right.border,
        num_rel_left: left.steps.len() as u8,
        num_rel_right: right.steps.len() as u8,
        rel_bord_left: three_steps(left.steps),
        rel_bord_right: three_steps(right.steps),
        tsg_ptr: (pointer - 1) as i8,
        freq_res: padded_flags(flags, 5),
    }
}

/// Framing fields with a variable end, after the interval class.
pub open spec fn variable_params_at(
    bits: Seq<bool>,
    pos: int,
    config: AspxConfig,
    int_class: IntervalClass,
    slots: u8,
    b_iframe: bool,
) -> Parsed<ParamsView> {
    let rel = relative_bits(slots);
    match optional_side_at(bits, pos, int_class != IntervalClass::FixVar, b_iframe, rel) {
        Parsed::Failed(error, p) => Parsed::Failed(error, p),
        Parsed::Done(left, p) => match optional_side_at(
            bits,
            p,
            int_class != IntervalClass::VarFix,
            true,
            rel,
        ) {
            Parsed::Failed(error, q) => Parsed::Failed(error, q),
            Parsed::Done(right, q) => {
                let num_env = left.steps.len() + right.steps.len() + 1;
                match field_at(bits, q, ptr_bits(num_env as int)) {
                    Parsed::Failed(error, r) => Parsed::Failed(error, r),
                    Parsed::Done(pointer, r) => match optional_flags_at(
                        bits,
                        r,
                        config.freq_res_mode == 0,
                        num_env as int,
                    ) {
                        Parsed::Failed(error, t) => Parsed::Failed(error, t),
                        Parsed::Done(flags, t) => Parsed::Done(
                            variable_params(int_class, left, right, pointer, flags),
                            t,
                        ),
                    },
                }
            },
        },
    }
}

/// Framing fields, without what follows from them.
pub open spec fn params_at(
    bits: Seq<bool>,
    pos: int,
    config: AspxConfig,
    slots: u8,
    b_iframe: bool,
) -> Parsed<ParamsView> {
    match class_at(bits, pos) {
        Parsed::Failed(error, p) => Parsed::Failed(error, p),
        Parsed::Done(int_class, p) => if int_class == IntervalClass::FixFix {
            fixfix_params_at(bits, p, config)
        } else {
            variable_params_at(bits, p, config, int_class, slots, b_iframe)
        },
    }
}

/// One side of an interval as it is read: the border, the number of distances,
/// and the distances.
type Side = (Option<u8>, u8, [u8; MAX_REL_BORDERS]);

/// Reads one side of an interval, if it is variable.
fn read_side(
    reader: &mut BitReader<'_>,
    variable: bool,
    with_border: bool,
    rel_bits: u32,
) -> (result: Result<Side, AspxError>)
    requires
        1 <= rel_bits <= 2,
    ensures
        match result {
            Ok(side) => {
                &&& side.1 <= MAX_REL_BORDERS
                &&& three_steps(side.2@.take(side.1 as int)) == side.2@
                &&& as_expected(
                    optional_side_at(
                        old(reader)@.bits,
                        old(reader)@.pos,
                        variable,
                        with_border,
                        rel_bits as int,
                    ),
                    Ok(SideView { border: side.0, steps: side.2@.take(side.1 as int) }),
                    old(reader)@,
                    final(reader)@,
                )
            },
            Err(error) => as_expected(
                optional_side_at(
                    old(reader)@.bits,
                    old(reader)@.pos,
                    variable,
                    with_border,
                    rel_bits as int,
                ),
                Err(error),
                old(reader)@,
                final(reader)@,
            ),
        },
{
    let mut steps: [u8; MAX_REL_BORDERS] = [0; MAX_REL_BORDERS];
    if !variable {
        assert(steps@.take(0) =~= Seq::empty());
        assert(three_steps(steps@.take(0)) =~= steps@);
        return Ok((None, 0, steps));
    }
    let border: Option<u8> = if with_border {
        Some(read_u8(reader, 2)?)
    } else {
        None
    };
    let count: u8 = read_u8(reader, rel_bits)?;
    proof {
        vstd::arithmetic::power2::lemma2_to64();
    }
    let mut raw: [u8; MAX_REL_BORDERS] = [0; MAX_REL_BORDERS];
    read_fields(reader, rel_bits, count as usize, &mut raw)?;
    let mut index: usize = 0;
    while index < count as usize
        invariant
            index <= count <= MAX_REL_BORDERS,
            forall|i: int| 0 <= i < count ==> #[trigger] raw@[i] < 4,
            forall|i: int| 0 <= i < index ==> #[trigger] steps@[i] == 2 * raw@[i] + 2,
            forall|i: int| index <= i < MAX_REL_BORDERS ==> #[trigger] steps@[i] == 0,
        decreases count - index,
    {
        steps[index] = raw[index] * 2 + 2;
        index = index + 1;
    }
    proof {
        assert(steps@.take(count as int) =~= distances(raw@.take(count as int)));
        assert(three_steps(steps@.take(count as int)) =~= steps@);
    }
    Ok((border, count, steps))
}

/// Reads `count` resolutions, of which the first five are kept.
fn read_resolutions(reader: &mut BitReader<'_>, present: bool, count: usize) -> (result: Result<
    [bool; MAX_ATSG_SIG],
    AspxError,
>)
    requires
        count <= 7,
    ensures
        match result {
            Ok(kept) => optional_flags_at(
                old(reader)@.bits,
                old(reader)@.pos,
                present,
                count as int,
            ) matches Parsed::Done(flags, p) && {
                &&& kept@ == padded_flags(flags, 5)
                &&& final(reader)@ == old(reader)@.at(p)
            },
            Err(error) => as_expected(
                optional_flags_at(old(reader)@.bits, old(reader)@.pos, present, count as int),
                Err(error),
                old(reader)@,
                final(reader)@,
            ),
        },
{
    let mut kept: [bool; MAX_ATSG_SIG] = [false; MAX_ATSG_SIG];
    if !present {
        assert(kept@ =~= padded_flags(Seq::empty(), 5));
        return Ok(kept);
    }
    let mut flags: [bool; 7] = [false; 7];
    read_flags(reader, count, &mut flags)?;
    let mut index: usize = 0;
    while index < MAX_ATSG_SIG
        invariant
            index <= MAX_ATSG_SIG,
            forall|i: int| 0 <= i < index ==> #[trigger] kept@[i] == flags@[i],
        decreases MAX_ATSG_SIG - index,
    {
        kept[index] = flags[index];
        index = index + 1;
    }
    assert(kept@ =~= padded_flags(flags@.take(count as int), 5));
    Ok(kept)
}

fn parse_fixfix_params(reader: &mut BitReader<'_>, config: &AspxConfig) -> (result: Result<
    AspxIntervalParams,
    AspxError,
>)
    ensures
        match result {
            Ok(params) => as_expected(
                fixfix_params_at(old(reader)@.bits, old(reader)@.pos, *config),
                Ok(params@),
                old(reader)@,
                final(reader)@,
            ),
            Err(error) => as_expected(
                fixfix_params_at(old(reader)@.bits, old(reader)@.pos, *config),
                Err(error),
                old(reader)@,
                final(reader)@,
            ),
        },
{
    let width: u32 = if config.num_env_bits_fixfix {
        2
    } else {
        1
    };
    let exponent: u8 = read_u8(reader, width)?;
    if exponent >= 3 {
        return Err(AspxError::EightEnvelopesProhibited);
    }
    let num_env: u8 = if exponent == 0 {
        1
    } else if exponent == 1 {
        2
    } else {
        4
    };
    let freq_res = read_resolutions(reader, config.freq_res_mode == 0, 1)?;
    let mut params = AspxIntervalParams::fixfix(num_env);
    params.freq_res = freq_res;
    Ok(params)
}

fn parse_variable_params(
    reader: &mut BitReader<'_>,
    config: &AspxConfig,
    int_class: IntervalClass,
    slots: u8,
    b_iframe: bool,
) -> (result: Result<AspxIntervalParams, AspxError>)
    requires
        int_class != IntervalClass::FixFix,
    ensures
        match result {
            Ok(params) => as_expected(
                variable_params_at(
                    old(reader)@.bits,
                    old(reader)@.pos,
                    *config,
                    int_class,
                    slots,
                    b_iframe,
                ),
                Ok(params@),
                old(reader)@,
                final(reader)@,
            ),
            Err(error) => as_expected(
                variable_params_at(
                    old(reader)@.bits,
                    old(reader)@.pos,
                    *config,
                    int_class,
                    slots,
                    b_iframe,
                ),
                Err(error),
                old(reader)@,
                final(reader)@,
            ),
        },
{
    let rel_bits: u32 = if slots > 8 {
        2
    } else {
        1
    };
    let left: Side = read_side(reader, int_class != IntervalClass::FixVar, b_iframe, rel_bits)?;
    let right: Side = read_side(reader, int_class != IntervalClass::VarFix, true, rel_bits)?;
    let num_env: u8 = left.1 + right.1 + 1;
    let raw: u8 = read_u8(reader, tsg_ptr_bits(num_env))?;
    proof {
        vstd::arithmetic::power2::lemma2_to64();
    }
    let freq_res = read_resolutions(reader, config.freq_res_mode == 0, num_env as usize)?;
    let params = AspxIntervalParams {
        int_class,
        num_env,
        num_noise: if num_env > 1 {
            2
        } else {
            1
        },
        var_bord_left: left.0,
        var_bord_right: right.0,
        num_rel_left: left.1,
        num_rel_right: right.1,
        rel_bord_left: left.2,
        rel_bord_right: right.2,
        tsg_ptr: raw as i8 - 1,
        freq_res,
    };
    Ok(params)
}

/// Framing and difference directions of one channel.
#[verifier::ext_equal]
pub struct FramingView {
    /// Framing fields.
    pub params: ParamsView,
    /// The interval they describe.
    pub interval: IntervalView,
    /// Quantiser step of the signal envelopes.
    pub qmode_env: bool,
    /// Five directions of signal envelopes; set means along time.
    pub sig_delta_dir: Seq<bool>,
    /// Two directions of noise envelopes; set means along time.
    pub noise_delta_dir: Seq<bool>,
}

/// Framing and difference directions of one channel.
#[derive(Debug, Clone, Copy, PartialEq, Eq)]
pub struct AspxChannelFraming {
    /// Framing fields.
    pub params: AspxIntervalParams,
    /// The interval they describe.
    pub interval: AspxInterval,
    /// Quantiser step of the signal envelopes; fine for a single envelope
    /// between fixed ends.
    pub qmode_env: bool,
    /// Directions of the signal envelopes; set means along time.
    pub sig_delta_dir: [bool; MAX_ATSG_SIG],
    /// Directions of the noise envelopes; set means along time.
    pub noise_delta_dir: [bool; MAX_ATSG_NOISE],
}

impl View for AspxChannelFraming {
    type V = FramingView;

    open spec fn view(&self) -> FramingView {
        FramingView {
            params: self.params@,
            interval: self.interval@,
            qmode_env: self.qmode_env,
            sig_delta_dir: self.sig_delta_dir@,
            noise_delta_dir: self.noise_delta_dir@,
        }
    }
}

/// The `index`-th of `count` stored flags, if there is one.
pub open spec fn flag_of(flags: Seq<bool>, count: int, index: int) -> Option<bool> {
    if 0 <= index < count && index < flags.len() {
        Some(flags[index])
    } else {
        None
    }
}

/// The framing of a channel that has none.
pub open spec fn no_framing() -> FramingView {
    FramingView {
        params: frames::fixfix_view(1),
        interval: IntervalView::empty(),
        qmode_env: false,
        sig_delta_dir: padded_flags(Seq::empty(), 5),
        noise_delta_dir: padded_flags(Seq::empty(), 2),
    }
}

impl AspxChannelFraming {
    /// The framing of a channel that has none.
    pub(crate) fn empty() -> (framing: Self)
        ensures
            framing@ == no_framing(),
    {
        let framing = AspxChannelFraming {
            params: AspxIntervalParams::fixfix(1),
            interval: AspxInterval::empty(),
            qmode_env: false,
            sig_delta_dir: [false; MAX_ATSG_SIG],
            noise_delta_dir: [false; MAX_ATSG_NOISE],
        };
        assert(framing@.sig_delta_dir =~= padded_flags(Seq::empty(), 5));
        assert(framing@.noise_delta_dir =~= padded_flags(Seq::empty(), 2));
        framing
    }

    /// Assembles a framing from its parts; directions beyond the slices run
    /// along frequency.
    pub fn from_parts(
        params: AspxIntervalParams,
        interval: AspxInterval,
        qmode_env: bool,
        sig_delta_dir: &[bool],
        noise_delta_dir: &[bool],
    ) -> (framing: Self)
        ensures
            framing@ == (FramingView {
                params: params@,
                interval: interval@,
                qmode_env,
                sig_delta_dir: padded_flags(sig_delta_dir@, 5),
                noise_delta_dir: padded_flags(noise_delta_dir@, 2),
            }),
            framing.params == params,
            framing.interval == interval,
            framing.qmode_env == qmode_env,
    {
        let mut sig: [bool; MAX_ATSG_SIG] = [false; MAX_ATSG_SIG];
        let mut noise: [bool; MAX_ATSG_NOISE] = [false; MAX_ATSG_NOISE];
        let mut index: usize = 0;
        while index < MAX_ATSG_SIG
            invariant
                index <= MAX_ATSG_SIG,
                forall|i: int|
                    0 <= i < index ==> #[trigger] sig@[i] == (i < sig_delta_dir@.len()
                        && sig_delta_dir@[i]),
            decreases MAX_ATSG_SIG - index,
        {
            sig[index] = index < sig_delta_dir.len() && sig_delta_dir[index];
            index = index + 1;
        }
        index = 0;
        while index < MAX_ATSG_NOISE
            invariant
                index <= MAX_ATSG_NOISE,
                forall|i: int|
                    0 <= i < index ==> #[trigger] noise@[i] == (i < noise_delta_dir@.len()
                        && noise_delta_dir@[i]),
            decreases MAX_ATSG_NOISE - index,
        {
            noise[index] = index < noise_delta_dir.len() && noise_delta_dir[index];
            index = index + 1;
        }
        assert(sig@ =~= padded_flags(sig_delta_dir@, 5));
        assert(noise@ =~= padded_flags(noise_delta_dir@, 2));
        AspxChannelFraming {
            params,
            interval,
            qmode_env,
            sig_delta_dir: sig,
            noise_delta_dir: noise,
        }
    }

    /// Direction of signal envelope `env`; set means along time.
    #[must_use]
    pub fn sig_delta_dir(&self, env: usize) -> (direction: Option<bool>)
        ensures
            direction == flag_of(self@.sig_delta_dir, self@.params.num_env as int, env as int),
    {
        if env >= self.params.num_env as usize || env >= MAX_ATSG_SIG {
            return None;
        }
        Some(self.sig_delta_dir[env])
    }

    /// Direction of noise envelope `env`; set means along time.
    #[must_use]
    pub fn noise_delta_dir(&self, env: usize) -> (direction: Option<bool>)
        ensures
            direction == flag_of(self@.noise_delta_dir, self@.params.num_noise as int, env as int),
    {
        if env >= self.params.num_noise as usize || env >= MAX_ATSG_NOISE {
            return None;
        }
        Some(self.noise_delta_dir[env])
    }
}

/// The framing of one channel, without its difference directions.
pub open spec fn framing_at(
    bits: Seq<bool>,
    pos: int,
    config: AspxConfig,
    slots: u8,
    b_iframe: bool,
    previous_stop_pos: i16,
) -> Parsed<FramingView> {
    match params_at(bits, pos, config, slots, b_iframe) {
        Parsed::Failed(error, p) => Parsed::Failed(error, p),
        Parsed::Done(params, p) => match frames::derived_interval(
            params,
            slots,
            config.freq_res_mode,
            b_iframe,
            previous_stop_pos,
        ) {
            Err(error) => Parsed::Failed(AspxError::Frames(error), p),
            Ok(interval) => Parsed::Done(
                FramingView {
                    params,
                    interval,
                    qmode_env: config.quant_mode_env && !(params.int_class == IntervalClass::FixFix
                        && params.num_env == 1),
                    sig_delta_dir: padded_flags(Seq::empty(), 5),
                    noise_delta_dir: padded_flags(Seq::empty(), 2),
                },
                p,
            ),
        },
    }
}

/// Whether framing fields can have been transmitted. Between two fixed ends
/// there are one, two or four envelopes. With a variable end, the relative
/// borders are all the inner borders there are, at most three on either side;
/// a fixed side has none. A border is transmitted for a variable right end, and
/// in an independent frame for a variable left end, and lies at most three
/// timeslots inside or behind the frame.
pub open spec fn transmittable(params: ParamsView, b_iframe: bool) -> bool {
    &&& params.num_noise == frames::expected_noise(params.num_env)
    &&& if params.int_class == IntervalClass::FixFix {
        params.num_env == 1 || params.num_env == 2 || params.num_env == 4
    } else {
        &&& params.num_env == params.num_rel_left + params.num_rel_right + 1
        &&& params.num_rel_left <= MAX_REL_BORDERS
        &&& params.num_rel_right <= MAX_REL_BORDERS
        &&& params.int_class == IntervalClass::FixVar ==> params.num_rel_left == 0
        &&& params.int_class == IntervalClass::VarFix ==> params.num_rel_right == 0
        &&& params.var_bord_left is Some <==> (b_iframe && params.int_class
            != IntervalClass::FixVar)
        &&& params.var_bord_right is Some <==> params.int_class != IntervalClass::VarFix
        &&& params.var_bord_left matches Some(border) ==> border <= 3
        &&& params.var_bord_right matches Some(border) ==> border <= 3
    }
}

proof fn lemma_field_range(bits: Seq<bool>, pos: int, width: int)
    requires
        0 <= width <= 2,
    ensures
        field_at(bits, pos, width) matches Parsed::Done(value, p) ==> value <= 3,
{
    reader::lemma_bits_value_range(bits, pos, width);
    vstd::arithmetic::power2::lemma2_to64();
}

proof fn lemma_fields_len(bits: Seq<bool>, pos: int, width: int, count: int)
    requires
        0 <= count,
    ensures
        fields_at(bits, pos, width, count) matches Parsed::Done(values, p) ==> values.len()
            == count,
    decreases count,
{
    if count > 0 {
        lemma_fields_len(bits, pos, width, count - 1);
    }
}

proof fn lemma_side_is_short(bits: Seq<bool>, pos: int, with_border: bool, rel_bits: int)
    requires
        0 <= rel_bits <= 2,
    ensures
        side_at(bits, pos, with_border, rel_bits) matches Parsed::Done(side, p) ==> {
            &&& side.steps.len() <= MAX_REL_BORDERS
            &&& side.border is Some <==> with_border
            &&& side.border matches Some(border) ==> border <= 3
        },
{
    lemma_field_range(bits, pos, 2);
    if let Parsed::Done(border, p) = border_field_at(bits, pos, with_border) {
        lemma_field_range(bits, p, rel_bits);
        if let Parsed::Done(count, q) = field_at(bits, p, rel_bits) {
            lemma_fields_len(bits, q, rel_bits, count as int);
        }
    }
}

/// Parsed framing fields are transmittable.
pub proof fn lemma_parsed_params_are_transmittable(
    bits: Seq<bool>,
    pos: int,
    config: AspxConfig,
    slots: u8,
    b_iframe: bool,
)
    ensures
        params_at(bits, pos, config, slots, b_iframe) matches Parsed::Done(params, p)
            ==> transmittable(params, b_iframe),
{
    if let Parsed::Done(int_class, p) = class_at(bits, pos) {
        if int_class != IntervalClass::FixFix {
            let rel = relative_bits(slots);
            lemma_side_is_short(bits, p, b_iframe, rel);
            if let Parsed::Done(left, q) = optional_side_at(
                bits,
                p,
                int_class != IntervalClass::FixVar,
                b_iframe,
                rel,
            ) {
                lemma_side_is_short(bits, q, true, rel);
            }
        }
    }
}

/// A parsed interval is ordered, starts at most three timeslots inside an
/// independent frame, and ends at most three behind any; otherwise it starts
/// where the previous one ended, unless its left end is fixed. Every noise
/// border is a signal border.
pub proof fn lemma_parsed_intervals_fit(
    bits: Seq<bool>,
    pos: int,
    config: AspxConfig,
    slots: u8,
    b_iframe: bool,
    previous_stop_pos: i16,
)
    ensures
        framing_at(bits, pos, config, slots, b_iframe, previous_stop_pos) matches Parsed::Done(
            framing,
            p,
        ) ==> {
            let interval = framing.interval;
            let fixed = framing.params.int_class == IntervalClass::FixFix
                || framing.params.int_class == IntervalClass::FixVar;
            &&& interval.ordered()
            &&& interval.slots == slots
            &&& slots <= interval.stop_pos() <= slots + 3
            &&& fixed ==> interval.sig.first() == 0
            &&& b_iframe ==> interval.sig.first() <= 3
            &&& !fixed && !b_iframe ==> interval.sig.first() + slots == previous_stop_pos
            &&& forall|i: int|
                0 <= i < interval.noise.len() ==> interval.sig.contains(
                    #[trigger] interval.noise[i],
                )
        },
{
    lemma_parsed_params_are_transmittable(bits, pos, config, slots, b_iframe);
    if let Parsed::Done(framing, p) = framing_at(
        bits,
        pos,
        config,
        slots,
        b_iframe,
        previous_stop_pos,
    ) {
        let (params, mode) = (framing.params, config.freq_res_mode);
        frames::lemma_derived_interval_is_ordered(params, slots, mode, b_iframe, previous_stop_pos);
        if params.int_class == IntervalClass::FixFix {
            frames::lemma_fixfix_interval(params, slots, mode, b_iframe, previous_stop_pos);
        } else {
            frames::lemma_variable_interval(params, slots, mode, b_iframe, previous_stop_pos);
        }
    }
}

/// Parses the framing of one channel.
pub fn parse_framing(
    reader: &mut BitReader<'_>,
    config: &AspxConfig,
    slots: u8,
    b_iframe: bool,
    previous_stop_pos: i16,
) -> (result: Result<AspxChannelFraming, AspxError>)
    ensures
        match result {
            Ok(framing) => as_expected(
                framing_at(
                    old(reader)@.bits,
                    old(reader)@.pos,
                    *config,
                    slots,
                    b_iframe,
                    previous_stop_pos,
                ),
                Ok(framing@),
                old(reader)@,
                final(reader)@,
            ),
            Err(error) => as_expected(
                framing_at(
                    old(reader)@.bits,
                    old(reader)@.pos,
                    *config,
                    slots,
                    b_iframe,
                    previous_stop_pos,
                ),
                Err(error),
                old(reader)@,
                final(reader)@,
            ),
        },
{
    let int_class = parse_interval_class(reader)?;
    let params = if int_class == IntervalClass::FixFix {
        parse_fixfix_params(reader, config)?
    } else {
        parse_variable_params(reader, config, int_class, slots, b_iframe)?
    };
    let interval = match AspxInterval::derive(
        &params,
        slots,
        config.freq_res_mode,
        b_iframe,
        previous_stop_pos,
    ) {
        Ok(interval) => interval,
        Err(error) => {
            return Err(AspxError::from(error));
        },
    };
    let single: bool = params.int_class == IntervalClass::FixFix && params.num_env == 1;
    let mut framing = AspxChannelFraming::empty();
    framing.params = params;
    framing.interval = interval;
    framing.qmode_env = config.quant_mode_env && !single;
    Ok(framing)
}

/// `framing` with the given difference directions.
pub open spec fn with_directions(
    framing: FramingView,
    sig: Seq<bool>,
    noise: Seq<bool>,
) -> FramingView {
    FramingView {
        sig_delta_dir: padded_flags(sig, 5),
        noise_delta_dir: padded_flags(noise, 2),
        ..framing
    }
}

/// `framing` with the difference directions at a position.
pub open spec fn directions_at(bits: Seq<bool>, pos: int, framing: FramingView) -> Parsed<
    FramingView,
> {
    match flags_at(bits, pos, framing.params.num_env as int) {
        Parsed::Failed(error, p) => Parsed::Failed(error, p),
        Parsed::Done(sig, p) => match flags_at(bits, p, framing.params.num_noise as int) {
            Parsed::Failed(error, q) => Parsed::Failed(error, q),
            Parsed::Done(noise, q) => Parsed::Done(with_directions(framing, sig, noise), q),
        },
    }
}

/// Reads the difference directions of one channel.
pub(crate) fn parse_delta_dir(
    reader: &mut BitReader<'_>,
    framing: &AspxChannelFraming,
) -> (result: Result<AspxChannelFraming, AspxError>)
    requires
        framing.params.num_env <= MAX_ATSG_SIG,
        framing.params.num_noise <= MAX_ATSG_NOISE,
    ensures
        match result {
            Ok(updated) => as_expected(
                directions_at(old(reader)@.bits, old(reader)@.pos, framing@),
                Ok(updated@),
                old(reader)@,
                final(reader)@,
            ),
            Err(error) => as_expected(
                directions_at(old(reader)@.bits, old(reader)@.pos, framing@),
                Err(error),
                old(reader)@,
                final(reader)@,
            ),
        },
{
    let mut sig: [bool; MAX_ATSG_SIG] = [false; MAX_ATSG_SIG];
    let mut noise: [bool; MAX_ATSG_NOISE] = [false; MAX_ATSG_NOISE];
    read_flags(reader, framing.params.num_env as usize, &mut sig)?;
    read_flags(reader, framing.params.num_noise as usize, &mut noise)?;
    assert(sig@ =~= padded_flags(sig@.take(framing.params.num_env as int), 5));
    assert(noise@ =~= padded_flags(noise@.take(framing.params.num_noise as int), 2));
    let mut updated: AspxChannelFraming = *framing;
    updated.sig_delta_dir = sig;
    updated.noise_delta_dir = noise;
    Ok(updated)
}

/// Flags for the high-frequency generator and the interleaved coding of one
/// channel.
#[verifier::ext_equal]
pub struct HfGenView {
    /// Chirp mode of each noise group.
    pub tna_mode: Seq<u8>,
    /// Whether a sinusoid is added in each high-resolution group.
    pub add_harmonic: Seq<bool>,
    /// Whether each high-resolution group is interleaved along frequency.
    pub fic: Seq<bool>,
    /// Whether each timeslot is interleaved along time.
    pub tic: Seq<bool>,
}

/// `count` unset flags.
pub open spec fn no_flags(count: int) -> Seq<bool> {
    Seq::new(count as nat, |i: int| false)
}

/// A presence flag, followed by `count` flags if it is set; otherwise none of
/// them is set.
pub open spec fn present_flags_at(bits: Seq<bool>, pos: int, count: int) -> Parsed<Seq<bool>> {
    match flag_at(bits, pos) {
        Parsed::Failed(error, p) => Parsed::Failed(error, p),
        Parsed::Done(present, p) => if present {
            flags_at(bits, p, count)
        } else {
            Parsed::Done(no_flags(count), p)
        },
    }
}

/// Flags of a single channel.
pub open spec fn hfgen_mono_at(
    bits: Seq<bool>,
    pos: int,
    noise: int,
    highres: int,
    slots: int,
) -> Parsed<HfGenView> {
    match fields_at(bits, pos, 2, noise) {
        Parsed::Failed(error, p) => Parsed::Failed(error, p),
        Parsed::Done(tna_mode, p) => match present_flags_at(bits, p, highres) {
            Parsed::Failed(error, q) => Parsed::Failed(error, q),
            Parsed::Done(add_harmonic, q) => match present_flags_at(bits, q, highres) {
                Parsed::Failed(error, r) => Parsed::Failed(error, r),
                Parsed::Done(fic, r) => match present_flags_at(bits, r, slots) {
                    Parsed::Failed(error, t) => Parsed::Failed(error, t),
                    Parsed::Done(tic, t) => Parsed::Done(
                        HfGenView { tna_mode, add_harmonic, fic, tic },
                        t,
                    ),
                },
            },
        },
    }
}

/// Chirp modes of a channel pair; a balanced pair shares them.
pub open spec fn modes_pair_at(bits: Seq<bool>, pos: int, noise: int, balance: bool) -> Parsed<
    (Seq<u8>, Seq<u8>),
> {
    match fields_at(bits, pos, 2, noise) {
        Parsed::Failed(error, p) => Parsed::Failed(error, p),
        Parsed::Done(left, p) => if balance {
            Parsed::Done((left, left), p)
        } else {
            match fields_at(bits, p, 2, noise) {
                Parsed::Failed(error, q) => Parsed::Failed(error, q),
                Parsed::Done(right, q) => Parsed::Done((left, right), q),
            }
        },
    }
}

/// Two lists of flags, each with its own presence flag.
pub open spec fn present_pair_at(bits: Seq<bool>, pos: int, count: int) -> Parsed<
    (Seq<bool>, Seq<bool>),
> {
    match present_flags_at(bits, pos, count) {
        Parsed::Failed(error, p) => Parsed::Failed(error, p),
        Parsed::Done(left, p) => match present_flags_at(bits, p, count) {
            Parsed::Failed(error, q) => Parsed::Failed(error, q),
            Parsed::Done(right, q) => Parsed::Done((left, right), q),
        },
    }
}

/// Frequency interleaving of a channel pair, under a common presence flag.
pub open spec fn fic_pair_at(bits: Seq<bool>, pos: int, highres: int) -> Parsed<
    (Seq<bool>, Seq<bool>),
> {
    match flag_at(bits, pos) {
        Parsed::Failed(error, p) => Parsed::Failed(error, p),
        Parsed::Done(present, p) => if present {
            present_pair_at(bits, p, highres)
        } else {
            Parsed::Done((no_flags(highres), no_flags(highres)), p)
        },
    }
}

/// `count` flags if `present`; otherwise none of them is set.
pub open spec fn flags_or_none_at(bits: Seq<bool>, pos: int, present: bool, count: int) -> Parsed<
    Seq<bool>,
> {
    if present {
        flags_at(bits, pos, count)
    } else {
        Parsed::Done(no_flags(count), pos)
    }
}

/// Which channels transmit their own time interleaving: nothing is said when
/// the right one copies the left one.
pub open spec fn tic_presence_at(bits: Seq<bool>, pos: int, copy: bool) -> Parsed<(bool, bool)> {
    if copy {
        Parsed::Done((false, false), pos)
    } else {
        match flag_at(bits, pos) {
            Parsed::Failed(error, p) => Parsed::Failed(error, p),
            Parsed::Done(left, p) => match flag_at(bits, p) {
                Parsed::Failed(error, q) => Parsed::Failed(error, q),
                Parsed::Done(right, q) => Parsed::Done((left, right), q),
            },
        }
    }
}

/// Time interleaving of a channel pair, after its presence flag.
pub open spec fn tic_body_at(bits: Seq<bool>, pos: int, slots: int) -> Parsed<
    (Seq<bool>, Seq<bool>),
> {
    match flag_at(bits, pos) {
        Parsed::Failed(error, p) => Parsed::Failed(error, p),
        Parsed::Done(copy, p) => match tic_presence_at(bits, p, copy) {
            Parsed::Failed(error, q) => Parsed::Failed(error, q),
            Parsed::Done((left, right), q) => match flags_or_none_at(
                bits,
                q,
                copy || left,
                slots,
            ) {
                Parsed::Failed(error, r) => Parsed::Failed(error, r),
                Parsed::Done(left_flags, r) => match flags_or_none_at(bits, r, right, slots) {
                    Parsed::Failed(error, t) => Parsed::Failed(error, t),
                    Parsed::Done(right_flags, t) => Parsed::Done(
                        (
                            left_flags,
                            if copy {
                                left_flags
                            } else {
                                right_flags
                            },
                        ),
                        t,
                    ),
                },
            },
        },
    }
}

/// Time interleaving of a channel pair.
pub open spec fn tic_pair_at(bits: Seq<bool>, pos: int, slots: int) -> Parsed<
    (Seq<bool>, Seq<bool>),
> {
    match flag_at(bits, pos) {
        Parsed::Failed(error, p) => Parsed::Failed(error, p),
        Parsed::Done(present, p) => if present {
            tic_body_at(bits, p, slots)
        } else {
            Parsed::Done((no_flags(slots), no_flags(slots)), p)
        },
    }
}

/// Flags of a channel pair.
pub open spec fn hfgen_pair_at(
    bits: Seq<bool>,
    pos: int,
    noise: int,
    highres: int,
    slots: int,
    balance: bool,
) -> Parsed<(HfGenView, HfGenView)> {
    match modes_pair_at(bits, pos, noise, balance) {
        Parsed::Failed(error, p) => Parsed::Failed(error, p),
        Parsed::Done(modes, p) => match present_pair_at(bits, p, highres) {
            Parsed::Failed(error, q) => Parsed::Failed(error, q),
            Parsed::Done(harmonics, q) => match fic_pair_at(bits, q, highres) {
                Parsed::Failed(error, r) => Parsed::Failed(error, r),
                Parsed::Done(fics, r) => match tic_pair_at(bits, r, slots) {
                    Parsed::Failed(error, t) => Parsed::Failed(error, t),
                    Parsed::Done(tics, t) => Parsed::Done(
                        (
                            HfGenView {
                                tna_mode: modes.0,
                                add_harmonic: harmonics.0,
                                fic: fics.0,
                                tic: tics.0,
                            },
                            HfGenView {
                                tna_mode: modes.1,
                                add_harmonic: harmonics.1,
                                fic: fics.1,
                                tic: tics.1,
                            },
                        ),
                        t,
                    ),
                },
            },
        },
    }
}

/// Flags for the high-frequency generator and the interleaved coding of one
/// channel.
#[derive(Debug, Clone, Copy, PartialEq, Eq)]
pub struct AspxHfGen {
    tna_mode: [u8; NOISE_GROUPS],
    add_harmonic: [bool; MAX_SBG_MASTER],
    fic_used_in_sfb: [bool; MAX_SBG_MASTER],
    tic_used_in_slot: [bool; MAX_ASPX_TIMESLOTS],
    num_sbg_noise: u8,
    num_sbg_sig_highres: u8,
    num_timeslots: u8,
}

impl View for AspxHfGen {
    type V = HfGenView;

    closed spec fn view(&self) -> HfGenView {
        HfGenView {
            tna_mode: self.tna_mode@.take(self.num_sbg_noise as int),
            add_harmonic: self.add_harmonic@.take(self.num_sbg_sig_highres as int),
            fic: self.fic_used_in_sfb@.take(self.num_sbg_sig_highres as int),
            tic: self.tic_used_in_slot@.take(self.num_timeslots as int),
        }
    }
}

/// The flags of a channel that has none.
pub open spec fn no_hfgen() -> HfGenView {
    HfGenView {
        tna_mode: Seq::empty(),
        add_harmonic: Seq::empty(),
        fic: Seq::empty(),
        tic: Seq::empty(),
    }
}

impl AspxHfGen {
    #[verifier::type_invariant]
    spec fn well_formed(self) -> bool {
        &&& self.num_sbg_noise <= NOISE_GROUPS
        &&& self.num_sbg_sig_highres <= MAX_SBG_MASTER
        &&& self.num_timeslots <= MAX_ASPX_TIMESLOTS
    }

    /// The flags of a channel that has none.
    pub(crate) fn empty() -> (hfgen: Self)
        ensures
            hfgen@ == no_hfgen(),
    {
        let hfgen = AspxHfGen {
            tna_mode: [0; NOISE_GROUPS],
            add_harmonic: [false; MAX_SBG_MASTER],
            fic_used_in_sfb: [false; MAX_SBG_MASTER],
            tic_used_in_slot: [false; MAX_ASPX_TIMESLOTS],
            num_sbg_noise: 0,
            num_sbg_sig_highres: 0,
            num_timeslots: 0,
        };
        assert(hfgen@ =~= no_hfgen());
        hfgen
    }

    /// Assembles flags without any interleaving, for no timeslots.
    pub fn from_parts(tna_mode: &[u8], add_harmonic: &[bool]) -> (hfgen: Self)
        requires
            tna_mode@.len() <= NOISE_GROUPS,
            add_harmonic@.len() <= MAX_SBG_MASTER,
        ensures
            hfgen@ == (HfGenView {
                tna_mode: tna_mode@,
                add_harmonic: add_harmonic@,
                fic: no_flags(add_harmonic@.len() as int),
                tic: Seq::empty(),
            }),
    {
        let mut modes: [u8; NOISE_GROUPS] = [0; NOISE_GROUPS];
        let mut harmonics: [bool; MAX_SBG_MASTER] = [false; MAX_SBG_MASTER];
        let mut index: usize = 0;
        while index < tna_mode.len()
            invariant
                index <= tna_mode@.len() <= NOISE_GROUPS,
                forall|i: int| 0 <= i < index ==> #[trigger] modes@[i] == tna_mode@[i],
            decreases tna_mode@.len() - index,
        {
            modes[index] = tna_mode[index];
            index = index + 1;
        }
        index = 0;
        while index < add_harmonic.len()
            invariant
                index <= add_harmonic@.len() <= MAX_SBG_MASTER,
                forall|i: int| 0 <= i < index ==> #[trigger] harmonics@[i] == add_harmonic@[i],
            decreases add_harmonic@.len() - index,
        {
            harmonics[index] = add_harmonic[index];
            index = index + 1;
        }
        let hfgen = AspxHfGen {
            tna_mode: modes,
            add_harmonic: harmonics,
            fic_used_in_sfb: [false; MAX_SBG_MASTER],
            tic_used_in_slot: [false; MAX_ASPX_TIMESLOTS],
            num_sbg_noise: tna_mode.len() as u8,
            num_sbg_sig_highres: add_harmonic.len() as u8,
            num_timeslots: 0,
        };
        assert(hfgen@.tna_mode =~= tna_mode@);
        assert(hfgen@.add_harmonic =~= add_harmonic@);
        assert(hfgen@.fic =~= no_flags(add_harmonic@.len() as int));
        assert(hfgen@.tic =~= Seq::empty());
        hfgen
    }

    /// Chirp mode of noise group `sbg`.
    #[must_use]
    pub fn tna_mode(&self, sbg: usize) -> (mode: Option<u8>)
        ensures
            mode == bands::border_at(self@.tna_mode, sbg as int),
    {
        proof {
            use_type_invariant(self);
        }
        if sbg >= self.num_sbg_noise as usize {
            return None;
        }
        Some(self.tna_mode[sbg])
    }

    /// Whether a sinusoid is added in high-resolution group `sbg`.
    #[must_use]
    pub fn add_harmonic(&self, sbg: usize) -> (flag: Option<bool>)
        ensures
            flag == flag_of(self@.add_harmonic, self@.add_harmonic.len() as int, sbg as int),
    {
        proof {
            use_type_invariant(self);
        }
        if sbg >= self.num_sbg_sig_highres as usize {
            return None;
        }
        Some(self.add_harmonic[sbg])
    }

    /// Chirp modes of all noise groups.
    #[must_use]
    pub fn tna_mode_slice(&self) -> (modes: Option<&[u8]>)
        ensures
            modes matches Some(slice) && slice@ == self@.tna_mode,
    {
        proof {
            use_type_invariant(self);
        }
        Some(vstd::slice::slice_subrange(&self.tna_mode, 0, self.num_sbg_noise as usize))
    }

    /// For all high-resolution groups whether a sinusoid is added.
    #[must_use]
    pub fn add_harmonic_slice(&self) -> (flags: Option<&[bool]>)
        ensures
            flags matches Some(slice) && slice@ == self@.add_harmonic,
    {
        proof {
            use_type_invariant(self);
        }
        Some(vstd::slice::slice_subrange(&self.add_harmonic, 0, self.num_sbg_sig_highres as usize))
    }

    /// Whether high-resolution group `sbg` is interleaved along frequency.
    #[must_use]
    pub fn fic_used_in_sfb(&self, sbg: usize) -> (flag: Option<bool>)
        ensures
            flag == flag_of(self@.fic, self@.fic.len() as int, sbg as int),
    {
        proof {
            use_type_invariant(self);
        }
        if sbg >= self.num_sbg_sig_highres as usize {
            return None;
        }
        Some(self.fic_used_in_sfb[sbg])
    }

    /// Whether timeslot `slot` is interleaved along time.
    #[must_use]
    pub fn tic_used_in_slot(&self, slot: usize) -> (flag: Option<bool>)
        ensures
            flag == flag_of(self@.tic, self@.tic.len() as int, slot as int),
            self@.tic.len() <= MAX_ASPX_TIMESLOTS,
    {
        proof {
            use_type_invariant(self);
        }
        if slot >= self.num_timeslots as usize {
            return None;
        }
        Some(self.tic_used_in_slot[slot])
    }
}

/// Whether the first `count` flags are unset.
spec fn unset(flags: Seq<bool>, count: int) -> bool {
    forall|i: int| 0 <= i < count ==> !(#[trigger] flags[i])
}

/// Reads a presence flag and, if it is set, `count` flags.
fn read_present_flags(reader: &mut BitReader<'_>, count: usize, out: &mut [bool]) -> (result:
    Result<(), AspxError>)
    requires
        count <= old(out)@.len(),
        unset(old(out)@, count as int),
    ensures
        final(out)@.len() == old(out)@.len(),
        match result {
            Ok(_) => as_expected(
                present_flags_at(old(reader)@.bits, old(reader)@.pos, count as int),
                Ok(final(out)@.take(count as int)),
                old(reader)@,
                final(reader)@,
            ),
            Err(error) => as_expected(
                present_flags_at(old(reader)@.bits, old(reader)@.pos, count as int),
                Err(error),
                old(reader)@,
                final(reader)@,
            ),
        },
{
    if read_flag(reader)? {
        read_flags(reader, count, out)?;
    } else {
        assert(out@.take(count as int) =~= no_flags(count as int));
    }
    Ok(())
}

/// Reads `count` flags if `present`.
fn read_flags_or_none(
    reader: &mut BitReader<'_>,
    present: bool,
    count: usize,
    out: &mut [bool],
) -> (result: Result<(), AspxError>)
    requires
        count <= old(out)@.len(),
        unset(old(out)@, count as int),
    ensures
        final(out)@.len() == old(out)@.len(),
        match result {
            Ok(_) => as_expected(
                flags_or_none_at(old(reader)@.bits, old(reader)@.pos, present, count as int),
                Ok(final(out)@.take(count as int)),
                old(reader)@,
                final(reader)@,
            ),
            Err(error) => as_expected(
                flags_or_none_at(old(reader)@.bits, old(reader)@.pos, present, count as int),
                Err(error),
                old(reader)@,
                final(reader)@,
            ),
        },
{
    if present {
        read_flags(reader, count, out)?;
    } else {
        assert(out@.take(count as int) =~= no_flags(count as int));
    }
    Ok(())
}

/// Reads the flags of a single channel.
pub(crate) fn read_hfgen_mono(
    reader: &mut BitReader<'_>,
    noise: u8,
    highres: u8,
    slots: u8,
) -> (result: Result<AspxHfGen, AspxError>)
    requires
        noise <= NOISE_GROUPS,
        highres <= MAX_SBG_MASTER,
        slots <= MAX_ASPX_TIMESLOTS,
    ensures
        match result {
            Ok(hfgen) => as_expected(
                hfgen_mono_at(
                    old(reader)@.bits,
                    old(reader)@.pos,
                    noise as int,
                    highres as int,
                    slots as int,
                ),
                Ok(hfgen@),
                old(reader)@,
                final(reader)@,
            ),
            Err(error) => as_expected(
                hfgen_mono_at(
                    old(reader)@.bits,
                    old(reader)@.pos,
                    noise as int,
                    highres as int,
                    slots as int,
                ),
                Err(error),
                old(reader)@,
                final(reader)@,
            ),
        },
{
    let mut tna_mode: [u8; NOISE_GROUPS] = [0; NOISE_GROUPS];
    let mut add_harmonic: [bool; MAX_SBG_MASTER] = [false; MAX_SBG_MASTER];
    let mut fic_used_in_sfb: [bool; MAX_SBG_MASTER] = [false; MAX_SBG_MASTER];
    let mut tic_used_in_slot: [bool; MAX_ASPX_TIMESLOTS] = [false; MAX_ASPX_TIMESLOTS];
    read_fields(reader, 2, noise as usize, &mut tna_mode)?;
    read_present_flags(reader, highres as usize, &mut add_harmonic)?;
    read_present_flags(reader, highres as usize, &mut fic_used_in_sfb)?;
    read_present_flags(reader, slots as usize, &mut tic_used_in_slot)?;
    Ok(
        AspxHfGen {
            tna_mode,
            add_harmonic,
            fic_used_in_sfb,
            tic_used_in_slot,
            num_sbg_noise: noise,
            num_sbg_sig_highres: highres,
            num_timeslots: slots,
        },
    )
}

/// Reads two lists of flags, each with its own presence flag.
fn read_present_pair(
    reader: &mut BitReader<'_>,
    count: usize,
    left: &mut [bool],
    right: &mut [bool],
) -> (result: Result<(), AspxError>)
    requires
        count <= old(left)@.len(),
        count <= old(right)@.len(),
        unset(old(left)@, count as int),
        unset(old(right)@, count as int),
    ensures
        final(left)@.len() == old(left)@.len(),
        final(right)@.len() == old(right)@.len(),
        match result {
            Ok(_) => as_expected(
                present_pair_at(old(reader)@.bits, old(reader)@.pos, count as int),
                Ok((final(left)@.take(count as int), final(right)@.take(count as int))),
                old(reader)@,
                final(reader)@,
            ),
            Err(error) => as_expected(
                present_pair_at(old(reader)@.bits, old(reader)@.pos, count as int),
                Err(error),
                old(reader)@,
                final(reader)@,
            ),
        },
{
    read_present_flags(reader, count, left)?;
    read_present_flags(reader, count, right)?;
    Ok(())
}

/// The interleaved timeslots of a channel pair, as they are read.
type SlotPair = ([bool; MAX_ASPX_TIMESLOTS], [bool; MAX_ASPX_TIMESLOTS]);

/// Reads the time interleaving of a channel pair, after its presence flag.
fn read_tic_body(reader: &mut BitReader<'_>, slots: usize) -> (result: Result<SlotPair, AspxError>)
    requires
        slots <= MAX_ASPX_TIMESLOTS,
    ensures
        match result {
            Ok((left, right)) => as_expected(
                tic_body_at(old(reader)@.bits, old(reader)@.pos, slots as int),
                Ok((left@.take(slots as int), right@.take(slots as int))),
                old(reader)@,
                final(reader)@,
            ),
            Err(error) => as_expected(
                tic_body_at(old(reader)@.bits, old(reader)@.pos, slots as int),
                Err(error),
                old(reader)@,
                final(reader)@,
            ),
        },
{
    let mut left: [bool; MAX_ASPX_TIMESLOTS] = [false; MAX_ASPX_TIMESLOTS];
    let mut right: [bool; MAX_ASPX_TIMESLOTS] = [false; MAX_ASPX_TIMESLOTS];
    let copy: bool = read_flag(reader)?;
    let (tic_left, tic_right) = if copy {
        (false, false)
    } else {
        let first: bool = read_flag(reader)?;
        let second: bool = read_flag(reader)?;
        (first, second)
    };
    read_flags_or_none(reader, copy || tic_left, slots, &mut left)?;
    read_flags_or_none(reader, tic_right, slots, &mut right)?;
    if copy {
        right = left;
    }
    Ok((left, right))
}

/// Reads the time interleaving of a channel pair.
fn read_tic_pair(reader: &mut BitReader<'_>, slots: usize) -> (result: Result<SlotPair, AspxError>)
    requires
        slots <= MAX_ASPX_TIMESLOTS,
    ensures
        match result {
            Ok((left, right)) => as_expected(
                tic_pair_at(old(reader)@.bits, old(reader)@.pos, slots as int),
                Ok((left@.take(slots as int), right@.take(slots as int))),
                old(reader)@,
                final(reader)@,
            ),
            Err(error) => as_expected(
                tic_pair_at(old(reader)@.bits, old(reader)@.pos, slots as int),
                Err(error),
                old(reader)@,
                final(reader)@,
            ),
        },
{
    if read_flag(reader)? {
        read_tic_body(reader, slots)
    } else {
        let none: [bool; MAX_ASPX_TIMESLOTS] = [false; MAX_ASPX_TIMESLOTS];
        assert(none@.take(slots as int) =~= no_flags(slots as int));
        Ok((none, none))
    }
}

/// Reads the flags of a channel pair.
pub(crate) fn read_hfgen_pair(
    reader: &mut BitReader<'_>,
    noise: u8,
    highres: u8,
    slots: u8,
    balance: bool,
) -> (result: Result<(AspxHfGen, AspxHfGen), AspxError>)
    requires
        noise <= NOISE_GROUPS,
        highres <= MAX_SBG_MASTER,
        slots <= MAX_ASPX_TIMESLOTS,
    ensures
        match result {
            Ok((left, right)) => as_expected(
                hfgen_pair_at(
                    old(reader)@.bits,
                    old(reader)@.pos,
                    noise as int,
                    highres as int,
                    slots as int,
                    balance,
                ),
                Ok((left@, right@)),
                old(reader)@,
                final(reader)@,
            ),
            Err(error) => as_expected(
                hfgen_pair_at(
                    old(reader)@.bits,
                    old(reader)@.pos,
                    noise as int,
                    highres as int,
                    slots as int,
                    balance,
                ),
                Err(error),
                old(reader)@,
                final(reader)@,
            ),
        },
{
    let mut left_modes: [u8; NOISE_GROUPS] = [0; NOISE_GROUPS];
    let mut right_modes: [u8; NOISE_GROUPS] = [0; NOISE_GROUPS];
    let mut left_harmonic: [bool; MAX_SBG_MASTER] = [false; MAX_SBG_MASTER];
    let mut right_harmonic: [bool; MAX_SBG_MASTER] = [false; MAX_SBG_MASTER];
    let mut left_fic: [bool; MAX_SBG_MASTER] = [false; MAX_SBG_MASTER];
    let mut right_fic: [bool; MAX_SBG_MASTER] = [false; MAX_SBG_MASTER];
    read_fields(reader, 2, noise as usize, &mut left_modes)?;
    if balance {
        right_modes = left_modes;
    } else {
        read_fields(reader, 2, noise as usize, &mut right_modes)?;
    }
    read_present_pair(reader, highres as usize, &mut left_harmonic, &mut right_harmonic)?;
    if read_flag(reader)? {
        read_present_pair(reader, highres as usize, &mut left_fic, &mut right_fic)?;
    } else {
        assert(left_fic@.take(highres as int) =~= no_flags(highres as int));
        assert(right_fic@.take(highres as int) =~= no_flags(highres as int));
    }
    let (left_tic, right_tic) = read_tic_pair(reader, slots as usize)?;
    Ok(
        (
            AspxHfGen {
                tna_mode: left_modes,
                add_harmonic: left_harmonic,
                fic_used_in_sfb: left_fic,
                tic_used_in_slot: left_tic,
                num_sbg_noise: noise,
                num_sbg_sig_highres: highres,
                num_timeslots: slots,
            },
            AspxHfGen {
                tna_mode: right_modes,
                add_harmonic: right_harmonic,
                fic_used_in_sfb: right_fic,
                tic_used_in_slot: right_tic,
                num_sbg_noise: noise,
                num_sbg_sig_highres: highres,
                num_timeslots: slots,
            },
        ),
    )
}

} // verus!
