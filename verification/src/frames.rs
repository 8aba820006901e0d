//! Time axis of an A-SPX interval.
//!
//! An interval is cut into signal and noise envelopes. The borders of these
//! envelopes, in A-SPX timeslots, and the frequency resolution of every signal
//! envelope are derived here from the transmitted framing fields.
use vstd::prelude::*;
use crate::tables::{self, IntervalClass};

verus! {

/// Largest number of signal envelopes in one interval.
pub const MAX_ATSG_SIG: usize = 5;

/// Largest number of noise envelopes in one interval.
pub const MAX_ATSG_NOISE: usize = 2;

/// Largest number of relative borders on either side of an interval.
pub const MAX_REL_BORDERS: usize = 3;

/// Storage for the borders of the signal envelopes.
const SIG_BORDERS: usize = 6;

/// Storage for the borders of the noise envelopes.
const NOISE_BORDERS: usize = 3;

/// Borders of one, two and four equal-class envelopes for each supported number
/// of timeslots.
pub const TAB_BORDER: [(u8, [u8; 2], [u8; 3], [u8; 5]); 5] = [
    (6, [0, 6], [0, 3, 6], [0, 2, 3, 4, 6]),
    (8, [0, 8], [0, 4, 8], [0, 2, 4, 6, 8]),
    (12, [0, 12], [0, 6, 12], [0, 3, 6, 9, 12]),
    (15, [0, 15], [0, 8, 15], [0, 4, 8, 12, 15]),
    (16, [0, 16], [0, 8, 16], [0, 4, 8, 12, 16]),
];

/// Why no interval could be derived.
#[derive(Debug, Clone, Copy, PartialEq, Eq, Structural)]
pub enum FrameError {
    /// The number of timeslots is not one of the supported five.
    UnsupportedTimeslots {
        /// The offending number.
        num_aspx_timeslots: u8,
    },
    /// An interval with two fixed ends has neither one, two nor four envelopes.
    UnsupportedFixfixEnvelopes {
        /// The offending number.
        num_env: u8,
    },
    /// The number of envelopes is zero or above the limit of the interval class.
    TooManyEnvelopes {
        /// The offending number.
        num_env: u8,
        /// The limit.
        limit: u8,
    },
    /// The number of noise envelopes does not go with that of the signal
    /// envelopes.
    NoiseEnvelopeCountMismatch {
        /// Number of signal envelopes.
        num_env: u8,
        /// Number of noise envelopes.
        num_noise: u8,
        /// Number of noise envelopes that would have gone with it.
        expected: u8,
    },
    /// More relative borders than [`MAX_REL_BORDERS`].
    TooManyRelativeBorders {
        /// The offending number.
        count: u8,
    },
    /// Two neighbouring borders do not increase.
    BordersNotIncreasing {
        /// Index of the lower one.
        index: u8,
    },
    /// The interval starts before its frame.
    NegativeStartBorder {
        /// The offending border.
        border: i16,
    },
}

/// The framing fields that determine an interval.
#[derive(Debug, Clone, Copy, PartialEq, Eq)]
pub struct AspxIntervalParams {
    /// Interval class.
    pub int_class: IntervalClass,
    /// Number of signal envelopes.
    pub num_env: u8,
    /// Number of noise envelopes.
    pub num_noise: u8,
    /// Transmitted left border, if any.
    pub var_bord_left: Option<u8>,
    /// Transmitted right border, relative to the end of the frame, if any.
    pub var_bord_right: Option<u8>,
    /// Number of borders given relative to the left end.
    pub num_rel_left: u8,
    /// Number of borders given relative to the right end.
    pub num_rel_right: u8,
    /// Distances between borders, from the left end on.
    pub rel_bord_left: [u8; MAX_REL_BORDERS],
    /// Distances between borders, from the right end on.
    pub rel_bord_right: [u8; MAX_REL_BORDERS],
    /// Envelope pointer; -1 when it points nowhere.
    pub tsg_ptr: i8,
    /// Transmitted frequency resolutions.
    pub freq_res: [bool; MAX_ATSG_SIG],
}

/// The framing fields as a mathematical value.
#[verifier::ext_equal]
pub struct ParamsView {
    /// Interval class.
    pub int_class: IntervalClass,
    /// Number of signal envelopes.
    pub num_env: u8,
    /// Number of noise envelopes.
    pub num_noise: u8,
    /// Transmitted left border, if any.
    pub var_bord_left: Option<u8>,
    /// Transmitted right border, if any.
    pub var_bord_right: Option<u8>,
    /// Number of borders given relative to the left end.
    pub num_rel_left: u8,
    /// Number of borders given relative to the right end.
    pub num_rel_right: u8,
    /// Three distances, from the left end on.
    pub rel_bord_left: Seq<u8>,
    /// Three distances, from the right end on.
    pub rel_bord_right: Seq<u8>,
    /// Envelope pointer.
    pub tsg_ptr: i8,
    /// Five frequency resolutions.
    pub freq_res: Seq<bool>,
}

impl View for AspxIntervalParams {
    type V = ParamsView;

    open spec fn view(&self) -> ParamsView {
        ParamsView {
            int_class: self.int_class,
            num_env: self.num_env,
            num_noise: self.num_noise,
            var_bord_left: self.var_bord_left,
            var_bord_right: self.var_bord_right,
            num_rel_left: self.num_rel_left,
            num_rel_right: self.num_rel_right,
            rel_bord_left: self.rel_bord_left@,
            rel_bord_right: self.rel_bord_right@,
            tsg_ptr: self.tsg_ptr,
            freq_res: self.freq_res@,
        }
    }
}

/// Fields of an interval with two fixed ends and `num_env` envelopes.
pub open spec fn fixfix_view(num_env: u8) -> ParamsView {
    ParamsView {
        int_class: IntervalClass::FixFix,
        num_env,
        num_noise: expected_noise(num_env),
        var_bord_left: None,
        var_bord_right: None,
        num_rel_left: 0,
        num_rel_right: 0,
        rel_bord_left: seq![0u8, 0, 0],
        rel_bord_right: seq![0u8, 0, 0],
        tsg_ptr: -1i8,
        freq_res: seq![false, false, false, false, false],
    }
}

impl AspxIntervalParams {
    /// Fields of an interval with two fixed ends and `num_env` envelopes.
    #[must_use]
    pub fn fixfix(num_env: u8) -> (params: Self)
        ensures
            params@ == fixfix_view(num_env),
    {
        let params = AspxIntervalParams {
            int_class: IntervalClass::FixFix,
            num_env,
            num_noise: if num_env > 1 {
                2
            } else {
                1
            },
            var_bord_left: None,
            var_bord_right: None,
            num_rel_left: 0,
            num_rel_right: 0,
            rel_bord_left: [0; MAX_REL_BORDERS],
            rel_bord_right: [0; MAX_REL_BORDERS],
            tsg_ptr: -1,
            freq_res: [false; MAX_ATSG_SIG],
        };
        assert(params@ =~= fixfix_view(num_env)) by {
            assert(params@.rel_bord_left =~= seq![0u8, 0, 0]);
            assert(params@.rel_bord_right =~= seq![0u8, 0, 0]);
            assert(params@.freq_res =~= seq![false, false, false, false, false]);
        }
        params
    }
}

/// Contents of an interval.
#[verifier::ext_equal]
pub struct IntervalView {
    /// Borders of the signal envelopes; none when never derived.
    pub sig: Seq<i16>,
    /// Borders of the noise envelopes; none when never derived.
    pub noise: Seq<i16>,
    /// Whether each signal envelope has high frequency resolution.
    pub freq_res: Seq<bool>,
    /// Nominal number of timeslots.
    pub slots: u8,
}

/// `value`, held within 16 bits.
pub open spec fn saturate(value: int) -> i16 {
    if value > i16::MAX {
        i16::MAX
    } else if value < i16::MIN {
        i16::MIN
    } else {
        value as i16
    }
}

/// Number of noise envelopes that goes with `num_env` signal envelopes.
pub open spec fn expected_noise(num_env: u8) -> u8 {
    if num_env > 1 {
        2
    } else {
        1
    }
}

/// Largest number of signal envelopes of an interval class.
pub open spec fn envelope_limit_of(int_class: IntervalClass) -> u8 {
    if int_class == IntervalClass::FixFix {
        4
    } else {
        5
    }
}

/// The envelope borders of an interval with two fixed ends.
pub open spec fn fixed_borders(slots: u8, num_env: u8) -> Seq<u8> {
    if slots == 6 {
        if num_env == 1 {
            seq![0u8, 6]
        } else if num_env == 2 {
            seq![0u8, 3, 6]
        } else {
            seq![0u8, 2, 3, 4, 6]
        }
    } else if slots == 8 {
        if num_env == 1 {
            seq![0u8, 8]
        } else if num_env == 2 {
            seq![0u8, 4, 8]
        } else {
            seq![0u8, 2, 4, 6, 8]
        }
    } else if slots == 12 {
        if num_env == 1 {
            seq![0u8, 12]
        } else if num_env == 2 {
            seq![0u8, 6, 12]
        } else {
            seq![0u8, 3, 6, 9, 12]
        }
    } else if slots == 15 {
        if num_env == 1 {
            seq![0u8, 15]
        } else if num_env == 2 {
            seq![0u8, 8, 15]
        } else {
            seq![0u8, 4, 8, 12, 15]
        }
    } else {
        if num_env == 1 {
            seq![0u8, 16]
        } else if num_env == 2 {
            seq![0u8, 8, 16]
        } else {
            seq![0u8, 4, 8, 12, 16]
        }
    }
}

fn is_supported_timeslots(num_aspx_timeslots: u8) -> (supported: bool)
    ensures
        supported == tables::is_aspx_timeslot_count(num_aspx_timeslots as int),
{
    num_aspx_timeslots == 6 || num_aspx_timeslots == 8 || num_aspx_timeslots == 12
        || num_aspx_timeslots == 15 || num_aspx_timeslots == 16
}

/// Looks up the envelope borders of an interval with two fixed ends.
pub fn tab_border(num_aspx_timeslots: u8, num_env: u8) -> (result: Result<
    &'static [u8],
    FrameError,
>)
    ensures
        match result {
            Ok(borders) => {
                &&& tables::is_aspx_timeslot_count(num_aspx_timeslots as int)
                &&& (num_env == 1 || num_env == 2 || num_env == 4)
                &&& borders@ == fixed_borders(num_aspx_timeslots, num_env)
            },
            Err(error) => if !tables::is_aspx_timeslot_count(num_aspx_timeslots as int) {
                error == FrameError::UnsupportedTimeslots { num_aspx_timeslots }
            } else {
                &&& num_env != 1 && num_env != 2 && num_env != 4
                &&& error == FrameError::UnsupportedFixfixEnvelopes { num_env }
            },
        },
{
    let row: usize = if num_aspx_timeslots == 6 {
        0
    } else if num_aspx_timeslots == 8 {
        1
    } else if num_aspx_timeslots == 12 {
        2
    } else if num_aspx_timeslots == 15 {
        3
    } else if num_aspx_timeslots == 16 {
        4
    } else {
        return Err(FrameError::UnsupportedTimeslots { num_aspx_timeslots });
    };
    let borders: &'static [u8] = if num_env == 1 {
        &TAB_BORDER[row].1
    } else if num_env == 2 {
        &TAB_BORDER[row].2
    } else if num_env == 4 {
        &TAB_BORDER[row].3
    } else {
        return Err(FrameError::UnsupportedFixfixEnvelopes { num_env });
    };
    assert(borders@ =~= fixed_borders(num_aspx_timeslots, num_env));
    Ok(borders)
}

/// What is wrong with the envelope counts, if anything.
pub open spec fn envelope_count_error(params: ParamsView) -> Option<FrameError> {
    let limit = envelope_limit_of(params.int_class);
    if params.num_env == 0 || params.num_env > limit {
        Some(FrameError::TooManyEnvelopes { num_env: params.num_env, limit })
    } else if params.num_noise == 0 || params.num_noise > MAX_ATSG_NOISE {
        Some(
            FrameError::TooManyEnvelopes { num_env: params.num_noise, limit: MAX_ATSG_NOISE as u8 },
        )
    } else if params.num_noise != expected_noise(params.num_env) {
        Some(
            FrameError::NoiseEnvelopeCountMismatch {
                num_env: params.num_env,
                num_noise: params.num_noise,
                expected: expected_noise(params.num_env),
            },
        )
    } else {
        None
    }
}

/// Left end of an interval with a variable end.
pub open spec fn start_border(
    params: ParamsView,
    slots: u8,
    b_iframe: bool,
    previous_stop_pos: i16,
) -> i16 {
    if params.int_class == IntervalClass::FixVar {
        0
    } else if b_iframe {
        match params.var_bord_left {
            Some(border) => border as i16,
            None => 0,
        }
    } else {
        saturate(previous_stop_pos - slots)
    }
}

/// Right end of an interval with a variable end.
pub open spec fn stop_border(params: ParamsView, slots: u8) -> i16 {
    if params.int_class == IntervalClass::VarFix {
        slots as i16
    } else {
        match params.var_bord_right {
            Some(border) => (slots + border) as i16,
            None => slots as i16,
        }
    }
}

/// `borders` with the first `count` relative borders laid out from the left end.
pub open spec fn filled_from_left(borders: Seq<i16>, steps: Seq<u8>, count: int) -> Seq<i16>
    decreases count,
{
    if count <= 0 {
        borders
    } else {
        let filled = filled_from_left(borders, steps, count - 1);
        filled.update(count, saturate(filled[count - 1] + steps[count - 1]))
    }
}

/// `a - b`, but not below zero.
pub open spec fn monus(a: int, b: int) -> int {
    if a <= b {
        0
    } else {
        a - b
    }
}

/// `borders` with the first `count` relative borders laid out from the right
/// end, which is at index `last`.
pub open spec fn filled_from_right(
    borders: Seq<i16>,
    steps: Seq<u8>,
    last: int,
    count: int,
) -> Seq<i16>
    decreases count,
{
    if count <= 0 {
        borders
    } else {
        let filled = filled_from_right(borders, steps, last, count - 1);
        let upper = monus(last, count - 1);
        filled.update(monus(upper, 1), saturate(filled[upper] - steps[count - 1]))
    }
}

/// The six stored signal borders of an interval with a variable end.
pub open spec fn variable_borders(params: ParamsView, start: i16, stop: i16) -> Seq<i16> {
    let ends = Seq::new(6, |i: int| 0i16).update(0, start).update(params.num_env as int, stop);
    let left = filled_from_left(ends, params.rel_bord_left, params.num_rel_left as int);
    filled_from_right(
        left,
        params.rel_bord_right,
        params.num_env as int,
        params.num_rel_right as int,
    )
}

/// Index of the signal border at which the second noise envelope starts.
pub open spec fn noise_mid_index(int_class: IntervalClass, tsg_ptr: i8, num_env: u8) -> int {
    let last = monus(num_env as int, 1);
    if int_class == IntervalClass::VarFix {
        if tsg_ptr < 0 {
            1
        } else {
            last
        }
    } else if tsg_ptr < 0 {
        last
    } else if tsg_ptr > last {
        if last < 1 {
            1
        } else {
            last
        }
    } else if tsg_ptr < 1 {
        1
    } else {
        tsg_ptr as int
    }
}

/// Signal and noise borders, or why there are none.
pub open spec fn laid_out_borders(
    params: ParamsView,
    slots: u8,
    b_iframe: bool,
    previous_stop_pos: i16,
) -> Result<(Seq<i16>, Seq<i16>), FrameError> {
    if params.int_class == IntervalClass::FixFix {
        if params.num_env == 3 {
            Err(FrameError::UnsupportedFixfixEnvelopes { num_env: params.num_env })
        } else {
            Ok(
                (
                    fixed_borders(slots, params.num_env).map_values(|border: u8| border as i16),
                    fixed_borders(slots, params.num_noise).map_values(|border: u8| border as i16),
                ),
            )
        }
    } else {
        let start = start_border(params, slots, b_iframe, previous_stop_pos);
        let stop = stop_border(params, slots);
        if params.num_rel_left > MAX_REL_BORDERS {
            Err(FrameError::TooManyRelativeBorders { count: params.num_rel_left })
        } else if params.num_rel_right > MAX_REL_BORDERS {
            Err(FrameError::TooManyRelativeBorders { count: params.num_rel_right })
        } else if start < 0 {
            Err(FrameError::NegativeStartBorder { border: start })
        } else {
            let sig = variable_borders(params, start, stop);
            let mid = sig[noise_mid_index(params.int_class, params.tsg_ptr, params.num_env)];
            Ok(
                (
                    sig.take(params.num_env + 1),
                    if params.num_noise > 1 {
                        seq![start, mid, stop]
                    } else {
                        seq![start, stop]
                    },
                ),
            )
        }
    }
}

/// The first index from `index` on at which two neighbours do not increase.
pub open spec fn first_fall(borders: Seq<i16>, index: int) -> Option<int>
    decreases borders.len() - index,
{
    if index < 0 || index + 1 >= borders.len() {
        None
    } else if borders[index] >= borders[index + 1] {
        Some(index)
    } else {
        first_fall(borders, index + 1)
    }
}

/// What is wrong with the order of the borders, if anything.
pub open spec fn order_error(sig: Seq<i16>, noise: Seq<i16>) -> Option<FrameError> {
    if sig[0] < 0 {
        Some(FrameError::NegativeStartBorder { border: sig[0] })
    } else {
        match first_fall(sig, 0) {
            Some(index) => Some(FrameError::BordersNotIncreasing { index: index as u8 }),
            None => match first_fall(noise, 0) {
                Some(index) => Some(FrameError::BordersNotIncreasing { index: index as u8 }),
                None => None,
            },
        }
    }
}

/// Whether an envelope counts as long: it spans more than
/// `slots / 6 + 3.25` timeslots, or it lies before the pointed-to envelope of an
/// interval of more than eight timeslots.
pub open spec fn is_long_envelope(sig: Seq<i16>, tsg_ptr: i8, atsg: int, slots: u8) -> bool {
    ||| tsg_ptr > 0 && slots > 8 && atsg < tsg_ptr
    ||| 12 * saturate(sig[atsg + 1] - sig[atsg]) > 2 * slots + 39
}

/// Frequency resolution of the `atsg`-th signal envelope.
pub open spec fn resolution(
    params: ParamsView,
    sig: Seq<i16>,
    slots: u8,
    freq_res_mode: u8,
    atsg: int,
) -> bool {
    let fixed = params.int_class == IntervalClass::FixFix;
    if freq_res_mode == 0 {
        params.freq_res[if fixed {
            0
        } else {
            atsg
        }]
    } else if freq_res_mode == 1 {
        false
    } else if freq_res_mode == 2 {
        if fixed {
            is_long_envelope(sig, 0, 0, slots)
        } else {
            is_long_envelope(sig, params.tsg_ptr, atsg, slots)
        }
    } else {
        true
    }
}

/// The interval that a set of framing fields describes, or why there is none.
pub open spec fn derived_interval(
    params: ParamsView,
    slots: u8,
    freq_res_mode: u8,
    b_iframe: bool,
    previous_stop_pos: i16,
) -> Result<IntervalView, FrameError> {
    if !tables::is_aspx_timeslot_count(slots as int) {
        Err(FrameError::UnsupportedTimeslots { num_aspx_timeslots: slots })
    } else {
        match envelope_count_error(params) {
            Some(error) => Err(error),
            None => match laid_out_borders(params, slots, b_iframe, previous_stop_pos) {
                Err(error) => Err(error),
                Ok((sig, noise)) => match order_error(sig, noise) {
                    Some(error) => Err(error),
                    None => Ok(
                        IntervalView {
                            sig,
                            noise,
                            freq_res: Seq::new(
                                params.num_env as nat,
                                |atsg: int| resolution(params, sig, slots, freq_res_mode, atsg),
                            ),
                            slots,
                        },
                    ),
                },
            },
        }
    }
}

/// Whether each border is later than the one before it.
pub open spec fn borders_increase(borders: Seq<i16>) -> bool {
    forall|i: int, j: int|
        0 <= i < j < borders.len() ==> #[trigger] borders[i] < #[trigger] borders[j]
}

impl IntervalView {
    /// The contents of an unfilled interval.
    pub open spec fn empty() -> IntervalView {
        IntervalView { sig: Seq::empty(), noise: Seq::empty(), freq_res: Seq::empty(), slots: 0 }
    }

    /// Number of signal envelopes.
    pub open spec fn num_sig(self) -> int {
        self.freq_res.len() as int
    }

    /// Number of noise envelopes.
    pub open spec fn num_noise(self) -> int {
        if self.noise.len() == 0 {
            0
        } else {
            self.noise.len() - 1
        }
    }

    /// End of the interval.
    pub open spec fn stop_pos(self) -> i16 {
        if self.sig.len() == 0 {
            0
        } else {
            self.sig.last()
        }
    }

    /// Whether the interval has at least one envelope of each kind, its borders
    /// increase, and it does not start before its frame.
    pub open spec fn ordered(self) -> bool {
        &&& tables::is_aspx_timeslot_count(self.slots as int)
        &&& 1 <= self.num_sig() <= MAX_ATSG_SIG
        &&& self.sig.len() == self.num_sig() + 1
        &&& self.num_noise() == expected_noise(self.num_sig() as u8)
        &&& self.sig[0] >= 0
        &&& borders_increase(self.sig)
        &&& borders_increase(self.noise)
    }

    /// Whether the interval is unfilled or ordered.
    pub open spec fn valid(self) -> bool {
        self == IntervalView::empty() || self.ordered()
    }
}

/// Where no two neighbours fall, the borders increase.
proof fn lemma_no_fall_increases(borders: Seq<i16>, i: int, j: int)
    requires
        0 <= i < j < borders.len(),
        first_fall(borders, i) is None,
    ensures
        borders[i] < borders[j],
    decreases j - i,
{
    if i + 1 < j {
        lemma_no_fall_increases(borders, i + 1, j);
    }
}

proof fn lemma_no_fall_from(borders: Seq<i16>, i: int)
    requires
        0 <= i,
        first_fall(borders, 0) is None,
    ensures
        first_fall(borders, i) is None,
    decreases i,
{
    if i > 0 {
        lemma_no_fall_from(borders, i - 1);
    }
}

proof fn lemma_increases(borders: Seq<i16>)
    requires
        first_fall(borders, 0) is None,
    ensures
        borders_increase(borders),
{
    assert forall|i: int, j: int| 0 <= i < j < borders.len() implies #[trigger] borders[i]
        < #[trigger] borders[j] by {
        lemma_no_fall_from(borders, i);
        lemma_no_fall_increases(borders, i, j);
    }
}

proof fn lemma_left_len(borders: Seq<i16>, steps: Seq<u8>, count: int)
    requires
        count < borders.len(),
    ensures
        filled_from_left(borders, steps, count).len() == borders.len(),
    decreases count,
{
    if count > 0 {
        lemma_left_len(borders, steps, count - 1);
    }
}

proof fn lemma_right_len(borders: Seq<i16>, steps: Seq<u8>, last: int, count: int)
    requires
        0 <= last < borders.len(),
    ensures
        filled_from_right(borders, steps, last, count).len() == borders.len(),
    decreases count,
{
    if count > 0 {
        lemma_right_len(borders, steps, last, count - 1);
    }
}

proof fn lemma_variable_len(params: ParamsView, start: i16, stop: i16)
    requires
        params.num_env <= MAX_ATSG_SIG,
        params.num_rel_left <= MAX_REL_BORDERS,
    ensures
        variable_borders(params, start, stop).len() == 6,
{
    let ends = Seq::new(6, |i: int| 0i16).update(0, start).update(params.num_env as int, stop);
    let left = filled_from_left(ends, params.rel_bord_left, params.num_rel_left as int);
    lemma_left_len(ends, params.rel_bord_left, params.num_rel_left as int);
    lemma_right_len(
        left,
        params.rel_bord_right,
        params.num_env as int,
        params.num_rel_right as int,
    );
}

/// The borders of every derived interval strictly increase and start inside the
/// frame.
pub proof fn lemma_derived_interval_is_ordered(
    params: ParamsView,
    slots: u8,
    freq_res_mode: u8,
    b_iframe: bool,
    previous_stop_pos: i16,
)
    ensures
        derived_interval(params, slots, freq_res_mode, b_iframe, previous_stop_pos) matches Ok(
            interval,
        ) ==> interval.ordered(),
{
    if let Ok(interval) = derived_interval(
        params,
        slots,
        freq_res_mode,
        b_iframe,
        previous_stop_pos,
    ) {
        if params.int_class != IntervalClass::FixFix {
            lemma_variable_len(
                params,
                start_border(params, slots, b_iframe, previous_stop_pos),
                stop_border(params, slots),
            );
        }
        lemma_increases(interval.sig);
        lemma_increases(interval.noise);
    }
}

/// `a + b`, held within 16 bits.
fn saturating_sum(a: i16, b: i16) -> (sum: i16)
    ensures
        sum == saturate(a + b),
{
    let wide: i32 = a as i32 + b as i32;
    if wide > i16::MAX as i32 {
        i16::MAX
    } else if wide < i16::MIN as i32 {
        i16::MIN
    } else {
        wide as i16
    }
}

/// `a - b`, held within 16 bits.
fn saturating_difference(a: i16, b: i16) -> (difference: i16)
    ensures
        difference == saturate(a - b),
{
    let wide: i32 = a as i32 - b as i32;
    if wide > i16::MAX as i32 {
        i16::MAX
    } else if wide < i16::MIN as i32 {
        i16::MIN
    } else {
        wide as i16
    }
}

/// Index of the signal border at which the second noise envelope starts.
pub fn noise_mid_border(int_class: IntervalClass, tsg_ptr: i8, num_atsg_sig: u8) -> (index: u8)
    ensures
        index == noise_mid_index(int_class, tsg_ptr, num_atsg_sig),
{
    let last: u8 = num_atsg_sig.saturating_sub(1);
    if int_class == IntervalClass::VarFix {
        if tsg_ptr < 0 {
            1
        } else {
            last
        }
    } else if tsg_ptr < 0 {
        last
    } else {
        let pointed: u8 = tsg_ptr as u8;
        let low: u8 = if pointed > last {
            last
        } else {
            pointed
        };
        if low < 1 {
            1
        } else {
            low
        }
    }
}

/// Largest number of signal envelopes of an interval class.
fn envelope_limit(int_class: IntervalClass) -> (limit: u8)
    ensures
        limit == envelope_limit_of(int_class),
{
    match int_class {
        IntervalClass::FixFix => 4,
        IntervalClass::FixVar => 5,
        IntervalClass::VarFix => 5,
        IntervalClass::VarVar => 5,
    }
}

fn ensure_envelope_count(params: &AspxIntervalParams) -> (result: Result<(), FrameError>)
    ensures
        match result {
            Ok(_) => envelope_count_error(params@) is None,
            Err(error) => envelope_count_error(params@) == Some(error),
        },
{
    let limit: u8 = envelope_limit(params.int_class);
    if params.num_env == 0 || params.num_env > limit {
        return Err(FrameError::TooManyEnvelopes { num_env: params.num_env, limit });
    }
    if params.num_noise == 0 || params.num_noise as usize > MAX_ATSG_NOISE {
        return Err(
            FrameError::TooManyEnvelopes { num_env: params.num_noise, limit: MAX_ATSG_NOISE as u8 },
        );
    }
    let expected: u8 = if params.num_env > 1 {
        2
    } else {
        1
    };
    if params.num_noise != expected {
        return Err(
            FrameError::NoiseEnvelopeCountMismatch {
                num_env: params.num_env,
                num_noise: params.num_noise,
                expected,
            },
        );
    }
    Ok(())
}

/// Signal and noise borders of an interval with two fixed ends.
fn derive_fixfix(params: &AspxIntervalParams, num_aspx_timeslots: u8) -> (result: Result<
    ([i16; SIG_BORDERS], [i16; NOISE_BORDERS]),
    FrameError,
>)
    requires
        params.int_class == IntervalClass::FixFix,
        tables::is_aspx_timeslot_count(num_aspx_timeslots as int),
        envelope_count_error(params@) is None,
    ensures
        match result {
            Ok((sig, noise)) => laid_out_borders(params@, num_aspx_timeslots, true, 0) == Ok::<
                (Seq<i16>, Seq<i16>),
                FrameError,
            >((sig@.take(params.num_env + 1), noise@.take(params.num_noise + 1))),
            Err(error) => laid_out_borders(params@, num_aspx_timeslots, true, 0) == Err::<
                (Seq<i16>, Seq<i16>),
                FrameError,
            >(error),
        },
{
    let sig_borders: &'static [u8] = match tab_border(num_aspx_timeslots, params.num_env) {
        Ok(borders) => borders,
        Err(error) => {
            return Err(error);
        },
    };
    let noise_borders: &'static [u8] = match tab_border(num_aspx_timeslots, params.num_noise) {
        Ok(borders) => borders,
        Err(error) => {
            return Err(error);
        },
    };
    let mut sig: [i16; SIG_BORDERS] = [0; SIG_BORDERS];
    let mut index: usize = 0;
    while index < sig_borders.len()
        invariant
            index <= sig_borders.len() <= SIG_BORDERS,
            forall|i: int| 0 <= i < index ==> #[trigger] sig@[i] == sig_borders@[i],
        decreases sig_borders.len() - index,
    {
        sig[index] = sig_borders[index] as i16;
        index = index + 1;
    }
    let mut noise: [i16; NOISE_BORDERS] = [0; NOISE_BORDERS];
    index = 0;
    while index < noise_borders.len()
        invariant
            index <= noise_borders.len() <= NOISE_BORDERS,
            forall|i: int| 0 <= i < index ==> #[trigger] noise@[i] == noise_borders@[i],
        decreases noise_borders.len() - index,
    {
        noise[index] = noise_borders[index] as i16;
        index = index + 1;
    }
    assert(sig@.take(params.num_env + 1) =~= sig_borders@.map_values(|border: u8| border as i16));
    assert(noise@.take(params.num_noise + 1) =~= noise_borders@.map_values(
        |border: u8| border as i16,
    ));
    Ok((sig, noise))
}

/// Signal and noise borders of an interval with a variable end.
///
/// The two ends are placed first; the relative borders are then laid out from
/// either end towards the middle.
fn derive_variable(
    params: &AspxIntervalParams,
    num_aspx_timeslots: u8,
    b_iframe: bool,
    previous_stop_pos: i16,
) -> (result: Result<([i16; SIG_BORDERS], [i16; NOISE_BORDERS]), FrameError>)
    requires
        params.int_class != IntervalClass::FixFix,
        tables::is_aspx_timeslot_count(num_aspx_timeslots as int),
        envelope_count_error(params@) is None,
    ensures
        match result {
            Ok((sig, noise)) => laid_out_borders(
                params@,
                num_aspx_timeslots,
                b_iframe,
                previous_stop_pos,
            ) == Ok::<(Seq<i16>, Seq<i16>), FrameError>(
                (sig@.take(params.num_env + 1), noise@.take(params.num_noise + 1)),
            ),
            Err(error) => laid_out_borders(
                params@,
                num_aspx_timeslots,
                b_iframe,
                previous_stop_pos,
            ) == Err::<(Seq<i16>, Seq<i16>), FrameError>(error),
        },
{
    if params.num_rel_left as usize > MAX_REL_BORDERS {
        return Err(FrameError::TooManyRelativeBorders { count: params.num_rel_left });
    }
    if params.num_rel_right as usize > MAX_REL_BORDERS {
        return Err(FrameError::TooManyRelativeBorders { count: params.num_rel_right });
    }
    let slots: i16 = num_aspx_timeslots as i16;
    let last: usize = params.num_env as usize;
    let start: i16 = if params.int_class == IntervalClass::FixVar {
        0
    } else if b_iframe {
        match params.var_bord_left {
            Some(border) => border as i16,
            None => 0,
        }
    } else {
        saturating_difference(previous_stop_pos, slots)
    };
    if start < 0 {
        return Err(FrameError::NegativeStartBorder { border: start });
    }
    let stop: i16 = if params.int_class == IntervalClass::VarFix {
        slots
    } else {
        match params.var_bord_right {
            Some(border) => slots + border as i16,
            None => slots,
        }
    };

    let mut sig: [i16; SIG_BORDERS] = [0; SIG_BORDERS];
    sig[0] = start;
    sig[last] = stop;
    let ghost ends = Seq::new(6, |i: int| 0i16).update(0, start).update(last as int, stop);
    assert(sig@ =~= ends);
    let mut tsg: usize = 0;
    while tsg < params.num_rel_left as usize
        invariant
            tsg <= params.num_rel_left <= MAX_REL_BORDERS,
            sig@ == filled_from_left(ends, params.rel_bord_left@, tsg as int),
        decreases params.num_rel_left - tsg,
    {
        sig[tsg + 1] = saturating_sum(sig[tsg], params.rel_bord_left[tsg] as i16);
        tsg = tsg + 1;
    }
    let ghost left = sig@;
    tsg = 0;
    while tsg < params.num_rel_right as usize
        invariant
            tsg <= params.num_rel_right <= MAX_REL_BORDERS,
            last == params.num_env <= MAX_ATSG_SIG,
            sig@ == filled_from_right(left, params.rel_bord_right@, last as int, tsg as int),
        decreases params.num_rel_right - tsg,
    {
        let upper: usize = last.saturating_sub(tsg);
        sig[upper.saturating_sub(1)] = saturating_difference(
            sig[upper],
            params.rel_bord_right[tsg] as i16,
        );
        tsg = tsg + 1;
    }

    let mut noise: [i16; NOISE_BORDERS] = [0; NOISE_BORDERS];
    noise[0] = start;
    noise[params.num_noise as usize] = stop;
    if params.num_noise > 1 {
        let middle: usize = noise_mid_border(
            params.int_class,
            params.tsg_ptr,
            params.num_env,
        ) as usize;
        noise[1] = sig[middle];
        assert(noise@.take(params.num_noise + 1) =~= seq![start, sig@[middle as int], stop]);
    } else {
        assert(noise@.take(params.num_noise + 1) =~= seq![start, stop]);
    }
    Ok((sig, noise))
}

/// Index of the first of `count + 1` borders that is not below its successor.
fn find_fall(borders: &[i16], count: usize) -> (fall: Option<usize>)
    requires
        count + 1 <= borders@.len(),
    ensures
        match fall {
            Some(index) => {
                &&& first_fall(borders@.take(count + 1), 0) == Some(index as int)
                &&& index < count
            },
            None => first_fall(borders@.take(count + 1), 0) is None,
        },
{
    let ghost kept = borders@.take(count + 1);
    let mut index: usize = 0;
    while index < count
        invariant
            index <= count,
            count + 1 <= borders@.len(),
            kept == borders@.take(count + 1),
            first_fall(kept, 0) == first_fall(kept, index as int),
        decreases count - index,
    {
        if borders[index] >= borders[index + 1] {
            return Some(index);
        }
        index = index + 1;
    }
    None
}

fn check_monotonic(
    sig: &[i16; SIG_BORDERS],
    num_sig: u8,
    noise: &[i16; NOISE_BORDERS],
    num_noise: u8,
) -> (result: Result<(), FrameError>)
    requires
        1 <= num_sig < SIG_BORDERS,
        1 <= num_noise < NOISE_BORDERS,
    ensures
        match result {
            Ok(_) => order_error(sig@.take(num_sig + 1), noise@.take(num_noise + 1)) is None,
            Err(error) => order_error(sig@.take(num_sig + 1), noise@.take(num_noise + 1)) == Some(
                error,
            ),
        },
{
    if sig[0] < 0 {
        return Err(FrameError::NegativeStartBorder { border: sig[0] });
    }
    if let Some(index) = find_fall(sig, num_sig as usize) {
        return Err(FrameError::BordersNotIncreasing { index: index as u8 });
    }
    if let Some(index) = find_fall(noise, num_noise as usize) {
        return Err(FrameError::BordersNotIncreasing { index: index as u8 });
    }
    Ok(())
}

/// Whether an envelope counts as long.
///
/// The comparison with `slots / 6 + 3.25` is made after multiplying by twelve.
fn freq_res_by_duration(sig: &[i16; SIG_BORDERS], tsg_ptr: i8, atsg: usize, slots: u8) -> (long:
    bool)
    requires
        atsg < MAX_ATSG_SIG,
    ensures
        long == is_long_envelope(sig@, tsg_ptr, atsg as int, slots),
{
    if tsg_ptr > 0 && slots > 8 && (atsg as i16) < tsg_ptr as i16 {
        return true;
    }
    let span: i32 = saturating_difference(sig[atsg + 1], sig[atsg]) as i32;
    span * 12 > slots as i32 * 2 + 39
}

/// Frequency resolution of every signal envelope.
fn derive_freq_res(
    params: &AspxIntervalParams,
    sig: &[i16; SIG_BORDERS],
    num_aspx_timeslots: u8,
    freq_res_mode: u8,
) -> (freq_res: [bool; MAX_ATSG_SIG])
    requires
        1 <= params.num_env <= MAX_ATSG_SIG,
    ensures
        freq_res@.take(params.num_env as int) == Seq::new(
            params.num_env as nat,
            |atsg: int|
                resolution(
                    params@,
                    sig@.take(params.num_env + 1),
                    num_aspx_timeslots,
                    freq_res_mode,
                    atsg,
                ),
        ),
{
    let ghost kept = sig@.take(params.num_env + 1);
    let fixed = params.int_class == IntervalClass::FixFix;
    let mut freq_res: [bool; MAX_ATSG_SIG] = [false; MAX_ATSG_SIG];
    let mut atsg: usize = 0;
    while atsg < params.num_env as usize
        invariant
            atsg <= params.num_env <= MAX_ATSG_SIG,
            1 <= params.num_env,
            kept == sig@.take(params.num_env + 1),
            fixed == (params.int_class == IntervalClass::FixFix),
            forall|i: int|
                0 <= i < atsg ==> #[trigger] freq_res@[i] == resolution(
                    params@,
                    kept,
                    num_aspx_timeslots,
                    freq_res_mode,
                    i,
                ),
        decreases params.num_env - atsg,
    {
        let value: bool = if freq_res_mode == 0 {
            if fixed {
                params.freq_res[0]
            } else {
                params.freq_res[atsg]
            }
        } else if freq_res_mode == 1 {
            false
        } else if freq_res_mode == 2 {
            if fixed {
                freq_res_by_duration(sig, 0, 0, num_aspx_timeslots)
            } else {
                freq_res_by_duration(sig, params.tsg_ptr, atsg, num_aspx_timeslots)
            }
        } else {
            true
        };
        freq_res[atsg] = value;
        atsg = atsg + 1;
    }
    assert(freq_res@.take(params.num_env as int) =~= Seq::new(
        params.num_env as nat,
        |atsg: int| resolution(params@, kept, num_aspx_timeslots, freq_res_mode, atsg),
    ));
    freq_res
}

/// The first `count + 1` borders, or nothing when `count` is zero.
spec fn stored_borders(borders: Seq<i16>, count: u8) -> Seq<i16> {
    if count == 0 {
        Seq::empty()
    } else {
        borders.take(count + 1)
    }
}

/// Envelope borders and frequency resolutions of one interval.
///
/// An instance is either empty or has increasing borders.
#[derive(Debug, Clone, Copy, PartialEq, Eq)]
pub struct AspxInterval {
    sig: [i16; SIG_BORDERS],
    num_atsg_sig: u8,
    noise: [i16; NOISE_BORDERS],
    num_atsg_noise: u8,
    freq_res: [bool; MAX_ATSG_SIG],
    source_num_aspx_timeslots: u8,
}

impl View for AspxInterval {
    type V = IntervalView;

    closed spec fn view(&self) -> IntervalView {
        IntervalView {
            sig: stored_borders(self.sig@, self.num_atsg_sig),
            noise: stored_borders(self.noise@, self.num_atsg_noise),
            freq_res: self.freq_res@.take(self.num_atsg_sig as int),
            slots: self.source_num_aspx_timeslots,
        }
    }
}

impl AspxInterval {
    #[verifier::type_invariant]
    spec fn well_formed(self) -> bool {
        &&& self.num_atsg_sig < SIG_BORDERS
        &&& self.num_atsg_noise < NOISE_BORDERS
        &&& self.num_atsg_sig == 0 ==> self.sig@[0] == 0
        &&& self@.valid()
    }

    /// An interval without any envelopes.
    #[must_use]
    pub fn empty() -> (interval: Self)
        ensures
            interval@ == IntervalView::empty(),
    {
        let sig: [i16; SIG_BORDERS] = [0; SIG_BORDERS];
        let freq_res: [bool; MAX_ATSG_SIG] = [false; MAX_ATSG_SIG];
        assert(freq_res@.take(0) =~= Seq::empty());
        AspxInterval {
            sig,
            num_atsg_sig: 0,
            noise: [0; NOISE_BORDERS],
            num_atsg_noise: 0,
            freq_res,
            source_num_aspx_timeslots: 0,
        }
    }

    /// Derives the interval that a set of framing fields describes.
    ///
    /// `previous_stop_pos` is where the previous interval ended; outside
    /// independently decodable frames it takes the place of a transmitted left
    /// border.
    pub fn derive(
        params: &AspxIntervalParams,
        num_aspx_timeslots: u8,
        freq_res_mode: u8,
        b_iframe: bool,
        previous_stop_pos: i16,
    ) -> (result: Result<Self, FrameError>)
        ensures
            match result {
                Ok(interval) => derived_interval(
                    params@,
                    num_aspx_timeslots,
                    freq_res_mode,
                    b_iframe,
                    previous_stop_pos,
                ) == Ok::<IntervalView, FrameError>(interval@),
                Err(error) => derived_interval(
                    params@,
                    num_aspx_timeslots,
                    freq_res_mode,
                    b_iframe,
                    previous_stop_pos,
                ) == Err::<IntervalView, FrameError>(error),
            },
    {
        if !is_supported_timeslots(num_aspx_timeslots) {
            return Err(FrameError::UnsupportedTimeslots { num_aspx_timeslots });
        }
        match ensure_envelope_count(params) {
            Ok(_) => {},
            Err(error) => {
                return Err(error);
            },
        }
        let laid_out = if params.int_class == IntervalClass::FixFix {
            derive_fixfix(params, num_aspx_timeslots)
        } else {
            derive_variable(params, num_aspx_timeslots, b_iframe, previous_stop_pos)
        };
        let (sig, noise) = match laid_out {
            Ok(borders) => borders,
            Err(error) => {
                return Err(error);
            },
        };
        match check_monotonic(&sig, params.num_env, &noise, params.num_noise) {
            Ok(_) => {},
            Err(error) => {
                return Err(error);
            },
        }
        let freq_res = derive_freq_res(params, &sig, num_aspx_timeslots, freq_res_mode);
        proof {
            lemma_derived_interval_is_ordered(
                params@,
                num_aspx_timeslots,
                freq_res_mode,
                b_iframe,
                previous_stop_pos,
            );
        }
        Ok(
            AspxInterval {
                sig,
                num_atsg_sig: params.num_env,
                noise,
                num_atsg_noise: params.num_noise,
                freq_res,
                source_num_aspx_timeslots: num_aspx_timeslots,
            },
        )
    }

    /// Number of signal envelopes.
    #[must_use]
    pub fn num_atsg_sig(&self) -> (count: u8)
        ensures
            count == self@.num_sig(),
            self@.valid(),
    {
        proof {
            use_type_invariant(self);
        }
        self.num_atsg_sig
    }

    /// Number of noise envelopes.
    #[must_use]
    pub fn num_atsg_noise(&self) -> (count: u8)
        ensures
            count == self@.num_noise(),
            self@.valid(),
    {
        proof {
            use_type_invariant(self);
        }
        self.num_atsg_noise
    }

    /// Nominal number of timeslots of the frame that the interval belongs to.
    ///
    /// A variable right end may lie beyond it.
    #[must_use]
    pub fn source_num_aspx_timeslots(&self) -> (slots: u8)
        ensures
            slots == self@.slots,
    {
        self.source_num_aspx_timeslots
    }

    /// The `index`-th border of the signal envelopes.
    #[must_use]
    pub fn sig_border(&self, index: usize) -> (border: Option<i16>)
        ensures
            border == (if index < self@.sig.len() {
                Some(self@.sig[index as int])
            } else {
                None
            }),
    {
        proof {
            use_type_invariant(self);
        }
        if self.num_atsg_sig == 0 || index > self.num_atsg_sig as usize {
            return None;
        }
        Some(self.sig[index])
    }

    /// The `index`-th border of the noise envelopes.
    #[must_use]
    pub fn noise_border(&self, index: usize) -> (border: Option<i16>)
        ensures
            border == (if index < self@.noise.len() {
                Some(self@.noise[index as int])
            } else {
                None
            }),
    {
        proof {
            use_type_invariant(self);
        }
        if self.num_atsg_noise == 0 || index > self.num_atsg_noise as usize {
            return None;
        }
        Some(self.noise[index])
    }

    /// Whether the `atsg`-th signal envelope has high frequency resolution.
    #[must_use]
    pub fn freq_res(&self, atsg: usize) -> (high: Option<bool>)
        ensures
            high == (if atsg < self@.num_sig() {
                Some(self@.freq_res[atsg as int])
            } else {
                None
            }),
    {
        proof {
            use_type_invariant(self);
        }
        if atsg >= self.num_atsg_sig as usize {
            return None;
        }
        Some(self.freq_res[atsg])
    }

    /// End of the interval.
    #[must_use]
    pub fn stop_pos(&self) -> (stop: i16)
        ensures
            stop == self@.stop_pos(),
    {
        proof {
            use_type_invariant(self);
        }
        self.sig[self.num_atsg_sig as usize]
    }

    /// Whether two intervals are the same: borders, resolutions and frame.
    #[must_use]
    pub fn same_as(&self, other: &Self) -> (same: bool)
        ensures
            same == (self@ == other@),
    {
        proof {
            use_type_invariant(self);
            use_type_invariant(other);
        }
        if self.source_num_aspx_timeslots != other.source_num_aspx_timeslots || self.num_atsg_sig
            != other.num_atsg_sig || self.num_atsg_noise != other.num_atsg_noise {
            assert(self@.slots != other@.slots || self@.num_sig() != other@.num_sig()
                || self@.num_noise() != other@.num_noise());
            return false;
        }
        let mut index: usize = 0;
        while index < self.num_atsg_sig as usize
            invariant
                index <= self.num_atsg_sig == other.num_atsg_sig,
                self.num_atsg_sig == self@.num_sig(),
                other.num_atsg_sig == other@.num_sig(),
                self@.valid(),
                other@.valid(),
                forall|i: int|
                    0 <= i < index ==> #[trigger] self@.freq_res[i] == other@.freq_res[i],
            decreases self.num_atsg_sig - index,
        {
            if let (Some(high), Some(other_high)) = (self.freq_res(index), other.freq_res(index)) {
                if high != other_high {
                    assert(self@.freq_res[index as int] != other@.freq_res[index as int]);
                    return false;
                }
            }
            index = index + 1;
        }
        let sig: usize = if self.num_atsg_sig == 0 {
            0
        } else {
            self.num_atsg_sig as usize + 1
        };
        index = 0;
        while index < sig
            invariant
                index <= sig,
                sig == self@.sig.len() == other@.sig.len(),
                forall|i: int| 0 <= i < index ==> #[trigger] self@.sig[i] == other@.sig[i],
            decreases sig - index,
        {
            if let (Some(border), Some(other_border)) = (
                self.sig_border(index),
                other.sig_border(index),
            ) {
                if border != other_border {
                    assert(self@.sig[index as int] != other@.sig[index as int]);
                    return false;
                }
            }
            index = index + 1;
        }
        let noise: usize = if self.num_atsg_noise == 0 {
            0
        } else {
            self.num_atsg_noise as usize + 1
        };
        index = 0;
        while index < noise
            invariant
                index <= noise,
                noise == self@.noise.len() == other@.noise.len(),
                forall|i: int| 0 <= i < index ==> #[trigger] self@.noise[i] == other@.noise[i],
            decreases noise - index,
        {
            if let (Some(border), Some(other_border)) = (
                self.noise_border(index),
                other.noise_border(index),
            ) {
                if border != other_border {
                    assert(self@.noise[index as int] != other@.noise[index as int]);
                    return false;
                }
            }
            index = index + 1;
        }
        assert(self@ =~= other@);
        true
    }
}

/// With two fixed ends every supported envelope count can be laid out; the
/// interval is exactly the frame, and every noise border is a signal border.
pub proof fn lemma_fixfix_interval(
    params: ParamsView,
    slots: u8,
    freq_res_mode: u8,
    b_iframe: bool,
    previous_stop_pos: i16,
)
    requires
        params.int_class == IntervalClass::FixFix,
        params.num_env == 1 || params.num_env == 2 || params.num_env == 4,
        params.num_noise == expected_noise(params.num_env),
        tables::is_aspx_timeslot_count(slots as int),
    ensures
        derived_interval(params, slots, freq_res_mode, b_iframe, previous_stop_pos) matches Ok(
            interval,
        ) && {
            &&& interval.num_sig() == params.num_env
            &&& interval.sig.first() == 0
            &&& interval.sig.last() == slots
            &&& forall|i: int|
                0 <= i < interval.noise.len() ==> interval.sig.contains(
                    #[trigger] interval.noise[i],
                )
        },
{
    let sig = fixed_borders(slots, params.num_env).map_values(|border: u8| border as i16);
    let noise = fixed_borders(slots, params.num_noise).map_values(|border: u8| border as i16);
    reveal_with_fuel(first_fall, 6);
    assert(order_error(sig, noise) is None);
    assert(sig.last() == slots);
    assert forall|i: int| 0 <= i < noise.len() implies sig.contains(#[trigger] noise[i]) by {
        if i == 0 {
            assert(sig[0] == noise[i]);
        } else if i == noise.len() - 1 {
            assert(sig[sig.len() - 1] == noise[i]);
        } else if params.num_env == 2 {
            assert(sig[1] == noise[i]);
        } else {
            assert(sig[2] == noise[i]);
        }
    }
}

/// Sum of the first `count` distances.
pub open spec fn steps_sum(steps: Seq<u8>, count: int) -> int
    decreases count,
{
    if count <= 0 {
        0
    } else {
        steps_sum(steps, count - 1) + steps[count - 1]
    }
}

proof fn lemma_steps_sum_range(steps: Seq<u8>, count: int)
    ensures
        0 <= count ==> 0 <= steps_sum(steps, count) <= 255 * count,
    decreases count,
{
    if count > 0 {
        lemma_steps_sum_range(steps, count - 1);
    }
}

proof fn lemma_left_layout(borders: Seq<i16>, steps: Seq<u8>, count: int)
    requires
        0 <= count < borders.len(),
        borders[0] >= 0,
    ensures
        filled_from_left(borders, steps, count).len() == borders.len(),
        forall|i: int|
            0 <= i <= count ==> #[trigger] filled_from_left(borders, steps, count)[i] == saturate(
                borders[0] + steps_sum(steps, i),
            ),
        forall|i: int|
            count < i < borders.len() ==> #[trigger] filled_from_left(borders, steps, count)[i]
                == borders[i],
    decreases count,
{
    if count > 0 {
        lemma_left_layout(borders, steps, count - 1);
        lemma_steps_sum_range(steps, count - 1);
    }
}

proof fn lemma_right_layout(borders: Seq<i16>, steps: Seq<u8>, last: int, count: int)
    requires
        0 <= count <= last < borders.len(),
        count <= 3,
        0 <= borders[last],
    ensures
        filled_from_right(borders, steps, last, count).len() == borders.len(),
        forall|i: int|
            last - count <= i <= last ==> #[trigger] filled_from_right(
                borders,
                steps,
                last,
                count,
            )[i] == borders[last] - steps_sum(steps, last - i),
        forall|i: int|
            0 <= i < last - count ==> #[trigger] filled_from_right(borders, steps, last, count)[i]
                == borders[i],
    decreases count,
{
    if count > 0 {
        lemma_right_layout(borders, steps, last, count - 1);
        lemma_steps_sum_range(steps, count - 1);
    }
}

/// Relative borders laid out from the right touch neither the right end itself
/// nor anything in front of them.
proof fn lemma_right_keeps(borders: Seq<i16>, steps: Seq<u8>, last: int, count: int)
    requires
        1 <= last < borders.len(),
    ensures
        filled_from_right(borders, steps, last, count).len() == borders.len(),
        filled_from_right(borders, steps, last, count)[last] == borders[last],
        forall|i: int|
            0 <= i < last - count ==> #[trigger] filled_from_right(borders, steps, last, count)[i]
                == borders[i],
    decreases count,
{
    if count > 0 {
        lemma_right_keeps(borders, steps, last, count - 1);
    }
}

/// With a variable end, the noise borders start at the left end and stop at the
/// right end, which is never before the end of the frame. With fewer relative
/// borders on the right than envelopes, the signal borders start at the left
/// end as well; with fewer on the left, they stop at the right end. Where both
/// hold, every noise border is a signal border. Where the relative borders of
/// both sides together are fewer than the envelopes, the borders add up from
/// the left end on one side, and from the right end on the other.
pub proof fn lemma_variable_interval(
    params: ParamsView,
    slots: u8,
    freq_res_mode: u8,
    b_iframe: bool,
    previous_stop_pos: i16,
)
    requires
        params.int_class != IntervalClass::FixFix,
    ensures
        derived_interval(params, slots, freq_res_mode, b_iframe, previous_stop_pos) matches Ok(
            interval,
        ) ==> {
            let start = start_border(params, slots, b_iframe, previous_stop_pos);
            let stop = stop_border(params, slots);
            let last = params.num_env as int;
            &&& stop >= slots
            &&& interval.noise.first() == start
            &&& interval.noise.last() == stop
            &&& params.num_rel_right < params.num_env ==> interval.sig.first() == start
            &&& params.num_rel_left < params.num_env ==> interval.stop_pos() == stop
            &&& params.num_rel_left < params.num_env && params.num_rel_right < params.num_env
                ==> forall|i: int|
                0 <= i < interval.noise.len() ==> interval.sig.contains(
                    #[trigger] interval.noise[i],
                )
            &&& params.num_rel_left + params.num_rel_right < params.num_env ==> {
                &&& forall|i: int|
                    0 <= i <= params.num_rel_left ==> #[trigger] interval.sig[i] == saturate(
                        start + steps_sum(params.rel_bord_left, i),
                    )
                &&& forall|i: int|
                    last - params.num_rel_right <= i <= last ==> #[trigger] interval.sig[i] == stop
                        - steps_sum(params.rel_bord_right, last - i)
            }
        },
{
    if let Ok(interval) = derived_interval(
        params,
        slots,
        freq_res_mode,
        b_iframe,
        previous_stop_pos,
    ) {
        let start = start_border(params, slots, b_iframe, previous_stop_pos);
        let stop = stop_border(params, slots);
        let last = params.num_env as int;
        let ends = Seq::new(6, |i: int| 0i16).update(0, start).update(last, stop);
        let left = filled_from_left(ends, params.rel_bord_left, params.num_rel_left as int);
        let all = variable_borders(params, start, stop);
        lemma_left_layout(ends, params.rel_bord_left, params.num_rel_left as int);
        lemma_right_keeps(left, params.rel_bord_right, last, params.num_rel_right as int);
        assert(interval.sig == all.take(last + 1));
        assert(steps_sum(params.rel_bord_left, 0) == 0);
        assert(left[0] == start);
        if params.num_rel_right < params.num_env {
            assert(all[0] == left[0]);
        }
        if params.num_rel_left < params.num_env {
            assert(left[last] == ends[last]);
        }
        if params.num_rel_left < params.num_env && params.num_rel_right < params.num_env {
            let mid = noise_mid_index(params.int_class, params.tsg_ptr, params.num_env);
            assert forall|i: int| 0 <= i < interval.noise.len() implies interval.sig.contains(
                #[trigger] interval.noise[i],
            ) by {
                if i == 0 {
                    assert(interval.sig[0] == interval.noise[i]);
                } else if i == interval.noise.len() - 1 {
                    assert(interval.sig[last] == interval.noise[i]);
                } else {
                    assert(interval.sig[mid] == interval.noise[i]);
                }
            }
        }
        if params.num_rel_left + params.num_rel_right < params.num_env {
            lemma_right_layout(left, params.rel_bord_right, last, params.num_rel_right as int);
            assert forall|i: int| 0 <= i <= params.num_rel_left implies #[trigger] interval.sig[i]
                == saturate(start + steps_sum(params.rel_bord_left, i)) by {
                assert(all[i] == left[i]);
            }
            assert forall|i: int|
                last - params.num_rel_right <= i <= last implies #[trigger] interval.sig[i] == stop
                - steps_sum(params.rel_bord_right, last - i) by {
                assert(interval.sig[i] == all[i]);
            }
        }
    }
}

/// Outside independently decodable frames an interval with a variable left end
/// continues where the previous one ended: its noise borders always, and its
/// signal borders unless as many relative borders on the right as there are
/// envelopes reach back to its start.
pub proof fn lemma_intervals_join(
    params: ParamsView,
    slots: u8,
    freq_res_mode: u8,
    previous_stop_pos: i16,
)
    requires
        params.int_class == IntervalClass::VarFix || params.int_class == IntervalClass::VarVar,
    ensures
        derived_interval(params, slots, freq_res_mode, false, previous_stop_pos) matches Ok(
            interval,
        ) ==> {
            &&& interval.noise.first() + slots == previous_stop_pos
            &&& params.num_rel_right < params.num_env ==> interval.sig.first() + slots
                == previous_stop_pos
        },
{
    lemma_variable_interval(params, slots, freq_res_mode, false, previous_stop_pos);
}

/// How the frequency resolution of every envelope comes about. Mode 0 takes the
/// transmitted flags, of which an interval with two fixed ends has one for all
/// its envelopes; mode 1 gives low and any mode above 2 high resolution. In mode
/// 2 an envelope has high resolution exactly when it is longer than
/// `slots / 6 + 13 / 4` timeslots, or lies before the pointed-to envelope of an
/// interval of more than eight timeslots; with two fixed ends the first envelope
/// decides for all. As spans are whole timeslots, five and more are long in
/// frames of six or eight of them, and six and more in longer frames.
pub proof fn lemma_frequency_resolution(
    params: ParamsView,
    slots: u8,
    freq_res_mode: u8,
    b_iframe: bool,
    previous_stop_pos: i16,
    envelope: int,
)
    requires
        0 <= envelope < params.num_env,
    ensures
        derived_interval(params, slots, freq_res_mode, b_iframe, previous_stop_pos) matches Ok(
            interval,
        ) ==> {
            let fixed = params.int_class == IntervalClass::FixFix;
            let decisive = if fixed {
                0
            } else {
                envelope
            };
            let span = interval.sig[decisive + 1] - interval.sig[decisive];
            let before_pointer = !fixed && slots > 8 && envelope < params.tsg_ptr;
            let high = interval.freq_res[envelope];
            &&& interval.slots == slots
            &&& interval.freq_res.len() == params.num_env
            &&& interval.sig.len() == params.num_env + 1
            &&& freq_res_mode == 0 ==> high == params.freq_res[decisive]
            &&& freq_res_mode == 1 ==> !high
            &&& freq_res_mode == 2 ==> high == (before_pointer || 24 * span > 4 * slots + 78)
            &&& freq_res_mode == 2 ==> high == (before_pointer || span >= (if slots <= 8 {
                5int
            } else {
                6
            }))
            &&& freq_res_mode > 2 ==> high
        },
{
    lemma_derived_interval_is_ordered(params, slots, freq_res_mode, b_iframe, previous_stop_pos);
    if let Ok(interval) = derived_interval(
        params,
        slots,
        freq_res_mode,
        b_iframe,
        previous_stop_pos,
    ) {
        let decisive = if params.int_class == IntervalClass::FixFix {
            0
        } else {
            envelope
        };
        let span = interval.sig[decisive + 1] - interval.sig[decisive];
        assert(interval.sig[decisive] < interval.sig[decisive + 1]);
        if decisive > 0 {
            assert(interval.sig[0] < interval.sig[decisive]);
        }
        assert(saturate(span) == span);
        assert((24 * span > 4 * slots + 78) == (12 * span > 2 * slots + 39));
        assert(interval.freq_res[envelope] == resolution(
            params,
            interval.sig,
            slots,
            freq_res_mode,
            envelope,
        ));
    }
}

/// With two fixed ends two envelopes meet in the middle of the frame, rounded
/// up, and so do the second and the third of four; the first of four is half of
/// that, rounded up, and the last begins as far behind the middle, but for the
/// shortest frame, where it begins one timeslot earlier. Two noise envelopes
/// meet in the middle too. Any other number of envelopes is refused.
pub proof fn lemma_fixed_borders_divide_the_frame(
    params: ParamsView,
    slots: u8,
    freq_res_mode: u8,
    b_iframe: bool,
    previous_stop_pos: i16,
)
    requires
        params.int_class == IntervalClass::FixFix,
    ensures
        match derived_interval(params, slots, freq_res_mode, b_iframe, previous_stop_pos) {
            Ok(interval) => {
                let middle = (slots + 1) / 2;
                let quarter = (middle + 1) / 2;
                &&& slots == 6 || slots == 8 || slots == 12 || slots == 15 || slots == 16
                &&& params.num_env == 1 || params.num_env == 2 || params.num_env == 4
                &&& interval.sig.len() == params.num_env + 1
                &&& interval.sig[0] == 0
                &&& interval.sig[params.num_env as int] == slots
                &&& params.num_env == 2 ==> interval.sig[1] == middle
                &&& params.num_env == 4 ==> {
                    &&& interval.sig[1] == quarter
                    &&& interval.sig[2] == middle
                    &&& interval.sig[3] == middle + quarter - (if slots == 6 {
                        1int
                    } else {
                        0
                    })
                }
                &&& params.num_env == 1 ==> params.num_noise == 1 && interval.noise.len() == 2
                &&& params.num_env > 1 ==> params.num_noise == 2 && interval.noise.len() == 3
                    && interval.noise[1] == middle
                &&& interval.noise[0] == 0
                &&& interval.noise.last() == slots
            },
            Err(error) => {
                ||| slots != 6 && slots != 8 && slots != 12 && slots != 15 && slots != 16
                ||| params.num_env != 1 && params.num_env != 2 && params.num_env != 4
                ||| params.num_noise != (if params.num_env == 1 {
                    1int
                } else {
                    2
                })
            },
        },
{
    reveal_with_fuel(first_fall, 6);
    if let Ok(interval) = derived_interval(
        params,
        slots,
        freq_res_mode,
        b_iframe,
        previous_stop_pos,
    ) {
        let sig = fixed_borders(slots, params.num_env).map_values(|border: u8| border as i16);
        let noise = fixed_borders(slots, params.num_noise).map_values(|border: u8| border as i16);
        assert(interval.sig == sig);
        assert(interval.noise == noise);
    } else if tables::is_aspx_timeslot_count(slots as int) && (params.num_env == 1
        || params.num_env == 2 || params.num_env == 4) && params.num_noise == (if params.num_env
        == 1 {
        1int
    } else {
        2
    }) {
        lemma_fixfix_interval(params, slots, freq_res_mode, b_iframe, previous_stop_pos);
    }
}

/// Where a variable interval lies. It starts with the frame when its left end is
/// fixed, at the transmitted left border in an independently decodable frame,
/// and otherwise where the previous interval ended. It stops with the frame when
/// its right end is fixed, and otherwise as far behind it as transmitted. The
/// relative borders are the distances between neighbouring borders, counted from
/// the two ends inwards.
#[verifier::rlimit(40)]
pub proof fn lemma_variable_borders_keep_their_distances(
    params: ParamsView,
    slots: u8,
    freq_res_mode: u8,
    b_iframe: bool,
    previous_stop_pos: i16,
)
    requires
        params.int_class != IntervalClass::FixFix,
        params.num_rel_left + params.num_rel_right < params.num_env,
    ensures
        derived_interval(params, slots, freq_res_mode, b_iframe, previous_stop_pos) matches Ok(
            interval,
        ) ==> {
            let last = params.num_env as int;
            let sig = interval.sig;
            &&& sig.len() == last + 1
            &&& params.int_class == IntervalClass::FixVar ==> sig[0] == 0
            &&& params.int_class != IntervalClass::FixVar && !b_iframe ==> sig[0] + slots
                == previous_stop_pos
            &&& params.int_class != IntervalClass::FixVar && b_iframe ==> sig[0] == (
            match params.var_bord_left {
                Some(border) => border as int,
                None => 0,
            })
            &&& params.int_class == IntervalClass::VarFix ==> sig[last] == slots
            &&& params.int_class != IntervalClass::VarFix ==> sig[last] == slots + (
            match params.var_bord_right {
                Some(border) => border as int,
                None => 0,
            })
            &&& forall|i: int|
                0 <= i < params.num_rel_left ==> sig[i + 1] - sig[i]
                    == #[trigger] params.rel_bord_left[i] || sig[i + 1] == i16::MAX
            &&& forall|i: int|
                0 <= i < params.num_rel_right ==> sig[last - i] - sig[last - i - 1]
                    == #[trigger] params.rel_bord_right[i]
            &&& interval.noise.first() == sig[0]
            &&& interval.noise.last() == sig[last]
        },
{
    lemma_variable_interval(params, slots, freq_res_mode, b_iframe, previous_stop_pos);
    if let Ok(interval) = derived_interval(
        params,
        slots,
        freq_res_mode,
        b_iframe,
        previous_stop_pos,
    ) {
        let start = start_border(params, slots, b_iframe, previous_stop_pos);
        let last = params.num_env as int;
        lemma_variable_len(params, start, stop_border(params, slots));
        assert forall|i: int| 0 <= i < params.num_rel_left implies interval.sig[i + 1]
            - interval.sig[i] == #[trigger] params.rel_bord_left[i] || interval.sig[i + 1]
            == i16::MAX by {
            lemma_steps_sum_range(params.rel_bord_left, i);
            assert(interval.sig[i] == saturate(start + steps_sum(params.rel_bord_left, i)));
            assert(interval.sig[i + 1] == saturate(start + steps_sum(params.rel_bord_left, i + 1)));
        }
        assert forall|i: int| 0 <= i < params.num_rel_right implies interval.sig[last - i]
            - interval.sig[last - i - 1] == #[trigger] params.rel_bord_right[i] by {
            assert(steps_sum(params.rel_bord_right, i + 1) == steps_sum(params.rel_bord_right, i)
                + params.rel_bord_right[i]);
        }
    }
}

/// Where two noise envelopes of a variable interval meet: at the pointed-to
/// signal border, held within the inner borders. With a fixed right end any
/// pointer means the last inner border and none the first; otherwise no pointer
/// means the last inner border.
pub proof fn lemma_noise_envelopes_meet_at_a_signal_border(
    params: ParamsView,
    slots: u8,
    freq_res_mode: u8,
    b_iframe: bool,
    previous_stop_pos: i16,
)
    requires
        params.int_class != IntervalClass::FixFix,
        params.num_env > 1,
    ensures
        derived_interval(params, slots, freq_res_mode, b_iframe, previous_stop_pos) matches Ok(
            interval,
        ) ==> {
            let sig = interval.sig;
            let pointer = params.tsg_ptr as int;
            let inner = params.num_env - 1;
            &&& interval.noise.len() == 3
            &&& sig.len() == inner + 2
            &&& params.int_class == IntervalClass::VarFix && pointer < 0 ==> interval.noise[1]
                == sig[1]
            &&& params.int_class == IntervalClass::VarFix && pointer >= 0 ==> interval.noise[1]
                == sig[inner]
            &&& params.int_class != IntervalClass::VarFix && pointer < 0 ==> interval.noise[1]
                == sig[inner]
            &&& params.int_class != IntervalClass::VarFix && pointer == 0 ==> interval.noise[1]
                == sig[1]
            &&& params.int_class != IntervalClass::VarFix && 1 <= pointer <= inner
                ==> interval.noise[1] == sig[pointer]
            &&& params.int_class != IntervalClass::VarFix && pointer > inner ==> interval.noise[1]
                == sig[inner]
        },
{
    if let Ok(interval) = derived_interval(
        params,
        slots,
        freq_res_mode,
        b_iframe,
        previous_stop_pos,
    ) {
        lemma_variable_len(
            params,
            start_border(params, slots, b_iframe, previous_stop_pos),
            stop_border(params, slots),
        );
    }
}

proof fn lemma_rising_has_no_fall(borders: Seq<i16>, index: int)
    requires
        0 <= index,
        forall|i: int| 0 <= i < borders.len() - 1 ==> #[trigger] borders[i] < borders[i + 1],
    ensures
        first_fall(borders, index) is None,
    decreases borders.len() - index,
{
    if index + 1 < borders.len() {
        lemma_rising_has_no_fall(borders, index + 1);
    }
}

/// Where all inner borders are relative ones, they are in order exactly when
/// every distance is positive and the two sides do not meet.
#[verifier::rlimit(40)]
proof fn lemma_when_variable_borders_are_ordered(params: ParamsView, start: i16, stop: i16)
    requires
        params.int_class != IntervalClass::FixFix,
        params.num_rel_left + params.num_rel_right + 1 == params.num_env,
        params.num_env <= 5,
        params.num_rel_left <= 3,
        params.num_rel_right <= 3,
        params.num_noise == expected_noise(params.num_env),
        0 <= start < stop <= 600,
    ensures
        ({
            let all = variable_borders(params, start, stop);
            let mid = noise_mid_index(params.int_class, params.tsg_ptr, params.num_env);
            order_error(
                all.take(params.num_env + 1),
                if params.num_noise > 1 {
                    seq![start, all[mid], stop]
                } else {
                    seq![start, stop]
                },
            ) is None
        }) <==> {
            &&& forall|i: int|
                0 <= i < params.num_rel_left ==> #[trigger] params.rel_bord_left[i] > 0
            &&& forall|i: int|
                0 <= i < params.num_rel_right ==> #[trigger] params.rel_bord_right[i] > 0
            &&& start + steps_sum(params.rel_bord_left, params.num_rel_left as int) < stop
                - steps_sum(params.rel_bord_right, params.num_rel_right as int)
        },
{
    let last = params.num_env as int;
    let rel_left = params.num_rel_left as int;
    let rel_right = params.num_rel_right as int;
    let left_steps = params.rel_bord_left;
    let right_steps = params.rel_bord_right;
    let ends = Seq::new(6, |i: int| 0i16).update(0, start).update(last, stop);
    let left = filled_from_left(ends, left_steps, rel_left);
    let all = variable_borders(params, start, stop);
    let sig = all.take(last + 1);
    lemma_left_layout(ends, left_steps, rel_left);
    lemma_right_layout(left, right_steps, last, rel_right);
    lemma_variable_len(params, start, stop);
    assert(forall|i: int|
        0 <= i <= rel_left ==> #[trigger] sig[i] == start + steps_sum(left_steps, i)) by {
        assert forall|i: int| 0 <= i <= rel_left implies #[trigger] sig[i] == start + steps_sum(
            left_steps,
            i,
        ) by {
            lemma_steps_sum_range(left_steps, i);
            assert(sig[i] == left[i]);
        }
    }
    assert(forall|i: int|
        rel_left < i <= last ==> #[trigger] sig[i] == stop - steps_sum(right_steps, last - i))
        by {
        assert forall|i: int| rel_left < i <= last implies #[trigger] sig[i] == stop
            - steps_sum(right_steps, last - i) by {
            assert(sig[i] == all[i]);
        }
    }
    let mid = noise_mid_index(params.int_class, params.tsg_ptr, params.num_env);
    let noise = if params.num_noise > 1 {
        seq![start, all[mid], stop]
    } else {
        seq![start, stop]
    };
    assert(sig[0] == start) by {
        assert(steps_sum(left_steps, 0) == 0);
    }
    assert(sig[last] == stop) by {
        assert(steps_sum(right_steps, 0) == 0);
    }
    assert(sig[rel_left] == start + steps_sum(left_steps, rel_left));
    assert(sig[rel_left + 1] == stop - steps_sum(right_steps, rel_right));
    assert forall|i: int| 0 <= i < rel_left implies sig[i + 1] - sig[i]
        == #[trigger] left_steps[i] by {
        assert(sig[i + 1] == start + steps_sum(left_steps, i + 1));
    }
    assert forall|i: int| 0 <= i < rel_right implies sig[last - i] - sig[last - i - 1]
        == #[trigger] right_steps[i] by {
        assert(sig[last - i - 1] == stop - steps_sum(right_steps, i + 1));
    }
    if order_error(sig, noise) is None {
        lemma_increases(sig);
        assert(sig[rel_left] < sig[rel_left + 1]);
        assert forall|i: int| 0 <= i < rel_left implies #[trigger] left_steps[i] > 0 by {
            assert(sig[i] < sig[i + 1]);
        }
        assert forall|i: int| 0 <= i < rel_right implies #[trigger] right_steps[i] > 0 by {
            assert(sig[last - i - 1] < sig[last - i]);
        }
    } else if {
        &&& forall|i: int| 0 <= i < rel_left ==> #[trigger] left_steps[i] > 0
        &&& forall|i: int| 0 <= i < rel_right ==> #[trigger] right_steps[i] > 0
        &&& sig[rel_left] < sig[rel_left + 1]
    } {
        assert forall|i: int| 0 <= i < last implies #[trigger] sig[i] < sig[i + 1] by {
            if i < rel_left {
                assert(left_steps[i] > 0);
            } else if i > rel_left {
                assert(right_steps[last - i - 1] > 0);
            }
        }
        lemma_rising_has_no_fall(sig, 0);
        lemma_increases(sig);
        if last > 1 {
            assert(noise[1] == sig[mid]);
            assert(sig[0] < sig[mid] < sig[last]);
        }
        lemma_rising_has_no_fall(noise, 0);
        assert(false);
    }
}

/// Which variable intervals exist, where the relative borders are all inner
/// borders: the frame has a supported number of timeslots, the noise envelopes
/// go with the signal envelopes, no side has more than three relative borders,
/// every distance is positive, and what the two sides take up leaves at least
/// one timeslot between an end inside the frame and the other.
#[verifier::rlimit(40)]
pub proof fn lemma_which_variable_intervals_exist(
    params: ParamsView,
    slots: u8,
    freq_res_mode: u8,
    b_iframe: bool,
    previous_stop_pos: i16,
)
    requires
        params.int_class != IntervalClass::FixFix,
        params.num_rel_left + params.num_rel_right + 1 == params.num_env,
    ensures
        derived_interval(params, slots, freq_res_mode, b_iframe, previous_stop_pos) is Ok <==> {
            let start = if params.int_class == IntervalClass::FixVar {
                0
            } else if !b_iframe {
                previous_stop_pos - slots
            } else if let Some(border) = params.var_bord_left {
                border as int
            } else {
                0
            };
            let stop = if params.int_class == IntervalClass::VarFix {
                slots as int
            } else if let Some(border) = params.var_bord_right {
                slots + border
            } else {
                slots as int
            };
            &&& slots == 6 || slots == 8 || slots == 12 || slots == 15 || slots == 16
            &&& params.num_env <= 5
            &&& params.num_noise == (if params.num_env > 1 {
                2int
            } else {
                1
            })
            &&& params.num_rel_left <= 3
            &&& params.num_rel_right <= 3
            &&& start >= 0
            &&& forall|i: int|
                0 <= i < params.num_rel_left ==> #[trigger] params.rel_bord_left[i] > 0
            &&& forall|i: int|
                0 <= i < params.num_rel_right ==> #[trigger] params.rel_bord_right[i] > 0
            &&& start + steps_sum(params.rel_bord_left, params.num_rel_left as int) < stop
                - steps_sum(params.rel_bord_right, params.num_rel_right as int)
        },
{
    let start = start_border(params, slots, b_iframe, previous_stop_pos);
    let stop = stop_border(params, slots);
    lemma_steps_sum_range(params.rel_bord_left, params.num_rel_left as int);
    lemma_steps_sum_range(params.rel_bord_right, params.num_rel_right as int);
    if start >= stop {
        lemma_variable_interval(params, slots, freq_res_mode, b_iframe, previous_stop_pos);
        lemma_derived_interval_is_ordered(
            params,
            slots,
            freq_res_mode,
            b_iframe,
            previous_stop_pos,
        );
        if let Ok(interval) = derived_interval(
            params,
            slots,
            freq_res_mode,
            b_iframe,
            previous_stop_pos,
        ) {
            assert(interval.sig[0] < interval.sig[params.num_env as int]);
        }
    } else if tables::is_aspx_timeslot_count(slots as int) && envelope_count_error(params) is None
        && params.num_rel_left <= 3 && params.num_rel_right <= 3 && start >= 0 {
        lemma_when_variable_borders_are_ordered(params, start, stop);
    }
}

/// Why an interval is refused: each error names the first condition that fails,
/// in the order number of timeslots, envelope counts, relative borders, start and
/// order of the borders, and gives the values that fail it.
#[verifier::rlimit(40)]
pub proof fn lemma_why_an_interval_is_refused(
    params: ParamsView,
    slots: u8,
    freq_res_mode: u8,
    b_iframe: bool,
    previous_stop_pos: i16,
)
    ensures
        ({
            let supported = slots == 6 || slots == 8 || slots == 12 || slots == 15 || slots == 16;
            let fixed = params.int_class == IntervalClass::FixFix;
            let most: int = if fixed {
                4
            } else {
                5
            };
            let some_signal = 1 <= params.num_env <= most;
            let some_noise = params.num_noise == 1 || params.num_noise == 2;
            let wanted: int = if params.num_env > 1 {
                2
            } else {
                1
            };
            let counted = supported && some_signal && params.num_noise == wanted;
            let start = if params.int_class == IntervalClass::FixVar {
                0
            } else if !b_iframe {
                previous_stop_pos - slots
            } else if let Some(border) = params.var_bord_left {
                border as int
            } else {
                0
            };
            match derived_interval(params, slots, freq_res_mode, b_iframe, previous_stop_pos) {
                Ok(_) => counted,
                Err(FrameError::UnsupportedTimeslots { num_aspx_timeslots }) => !supported
                    && num_aspx_timeslots == slots,
                Err(FrameError::TooManyEnvelopes { num_env, limit }) => supported && if some_signal
                {
                    !some_noise && num_env == params.num_noise && limit == 2
                } else {
                    num_env == params.num_env && limit == most
                },
                Err(
                    FrameError::NoiseEnvelopeCountMismatch { num_env, num_noise, expected },
                ) => supported && some_signal && some_noise && num_env == params.num_env
                    && num_noise == params.num_noise && expected == wanted && num_noise != wanted,
                Err(FrameError::UnsupportedFixfixEnvelopes { num_env }) => counted && fixed
                    && num_env == 3 && params.num_env == 3,
                Err(FrameError::TooManyRelativeBorders { count }) => counted && !fixed && count > 3
                    && if params.num_rel_left > 3 {
                    count == params.num_rel_left
                } else {
                    count == params.num_rel_right
                },
                Err(FrameError::NegativeStartBorder { border }) => counted && !fixed && border < 0
                    && (start >= i16::MIN && params.num_rel_right < params.num_env ==> border
                    == start),
                Err(FrameError::BordersNotIncreasing { index }) => counted && !fixed && index
                    <= params.num_env && params.num_rel_left <= 3 && params.num_rel_right <= 3
                    && start >= 0,
            }
        }),
{
    if let Err(error) = derived_interval(
        params,
        slots,
        freq_res_mode,
        b_iframe,
        previous_stop_pos,
    ) {
        if params.int_class == IntervalClass::FixFix {
            if tables::is_aspx_timeslot_count(slots as int) && (params.num_env == 1
                || params.num_env == 2 || params.num_env == 4) && params.num_noise
                == expected_noise(params.num_env) {
                lemma_fixfix_interval(params, slots, freq_res_mode, b_iframe, previous_stop_pos);
            }
        } else if params.num_env >= 1 && params.num_env <= 5 && params.num_rel_left <= 3
            && params.num_rel_right <= 3 {
            let start_at = start_border(params, slots, b_iframe, previous_stop_pos);
            let stop = stop_border(params, slots);
            if start_at >= 0 {
                lemma_refused_order(params, start_at, stop);
            }
        }
    }
}

proof fn lemma_first_fall_index(borders: Seq<i16>, index: int)
    requires
        0 <= index,
        borders.len() <= 256,
    ensures
        first_fall(borders, index) matches Some(found) ==> index <= found < borders.len() - 1,
    decreases borders.len() - index,
{
    if index + 1 < borders.len() {
        lemma_first_fall_index(borders, index + 1);
    }
}

proof fn lemma_refused_order(params: ParamsView, start: i16, stop: i16)
    requires
        1 <= params.num_env <= 5,
        params.num_rel_left <= 3,
        params.num_rel_right <= 3,
        0 <= start,
        0 <= stop,
    ensures
        ({
            let all = variable_borders(params, start, stop);
            let sig = all.take(params.num_env + 1);
            &&& sig.len() == params.num_env + 1
            &&& params.num_rel_right < params.num_env ==> sig[0] == start
            &&& first_fall(sig, 0) matches Some(found) ==> 0 <= found < params.num_env
            &&& first_fall(
                seq![
                    start,
                    all[noise_mid_index(params.int_class, params.tsg_ptr, params.num_env)],
                    stop,
                ],
                0,
            ) matches Some(found) ==> 0 <= found < 2
            &&& first_fall(seq![start, stop], 0) matches Some(found) ==> found == 0
        }),
{
    let last = params.num_env as int;
    let ends = Seq::new(6, |i: int| 0i16).update(0, start).update(last, stop);
    let left = filled_from_left(ends, params.rel_bord_left, params.num_rel_left as int);
    let sig = variable_borders(params, start, stop).take(last + 1);
    lemma_variable_len(params, start, stop);
    lemma_left_layout(ends, params.rel_bord_left, params.num_rel_left as int);
    lemma_right_keeps(left, params.rel_bord_right, last, params.num_rel_right as int);
    assert(steps_sum(params.rel_bord_left, 0) == 0);
    lemma_first_fall_index(sig, 0);
    let all = variable_borders(params, start, stop);
    let mid = all[noise_mid_index(params.int_class, params.tsg_ptr, params.num_env)];
    lemma_first_fall_index(seq![start, mid, stop], 0);
    lemma_first_fall_index(seq![start, stop], 0);
}

/// Which signal border parts the noise envelopes. Without a pointer it is the
/// last inner one, or the first if the right end is fixed. A pointer means the
/// last inner one if the right end is fixed, and otherwise the border it points
/// to, or the nearest inner one.
pub proof fn lemma_border_between_noise_envelopes(
    int_class: IntervalClass,
    tsg_ptr: i8,
    num_env: u8,
)
    ensures
        ({
            let index = noise_mid_index(int_class, tsg_ptr, num_env);
            let last: int = if num_env == 0 {
                0
            } else {
                num_env - 1
            };
            &&& int_class == IntervalClass::VarFix && tsg_ptr < 0 ==> index == 1
            &&& int_class == IntervalClass::VarFix && tsg_ptr >= 0 ==> index == last
            &&& int_class != IntervalClass::VarFix && tsg_ptr < 0 ==> index == last
            &&& int_class != IntervalClass::VarFix && 1 <= tsg_ptr <= last ==> index == tsg_ptr
            &&& int_class != IntervalClass::VarFix && tsg_ptr == 0 ==> index == 1
            &&& int_class != IntervalClass::VarFix && tsg_ptr > last ==> index == (if last < 1 {
                1
            } else {
                last
            })
        }),
{
}

} // verus!
