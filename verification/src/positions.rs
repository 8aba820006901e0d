//! Where the fields of the syntax stand among the bits of a stream.
//!
//! Nothing here is parsed: each law takes what a parsing contract promises and
//! names, bit by bit, where every value comes from and how far the reader goes.
use vstd::prelude::*;
use crate::frames::{self, FrameError, IntervalView, ParamsView};
use crate::reader;
use crate::syntax::{self, AspxConfig, AspxError, FramingView, Parsed, SideView};
use crate::tables::IntervalClass;

verus! {

/// A bit as a number.
pub open spec fn digit(bit: bool) -> int {
    if bit {
        1
    } else {
        0
    }
}

/// The number that the two bits from `pos` on stand for.
pub open spec fn two_bits(bits: Seq<bool>, pos: int) -> int {
    2 * digit(bits[pos]) + digit(bits[pos + 1])
}

/// A field of one bit is that bit, a field of two bits counts the first one
/// double, and a field of three bits the first one fourfold.
pub proof fn lemma_short_fields(bits: Seq<bool>, pos: int)
    ensures
        reader::bits_value(bits, pos, 1) == digit(bits[pos]),
        reader::bits_value(bits, pos, 2) == 2 * digit(bits[pos]) + digit(bits[pos + 1]),
        reader::bits_value(bits, pos, 3) == 4 * digit(bits[pos]) + 2 * digit(bits[pos + 1]) + digit(
            bits[pos + 2],
        ),
        reader::bits_value(bits, pos, 4) == 8 * digit(bits[pos]) + 4 * digit(bits[pos + 1]) + 2
            * digit(bits[pos + 2]) + digit(bits[pos + 3]),
{
    reveal_with_fuel(reader::bits_value, 5);
}

/// A list of flags is the run of bits at its position, and there is one exactly
/// when that many bits are left.
pub proof fn lemma_flags_are_bits(bits: Seq<bool>, pos: int, count: int)
    requires
        0 <= count,
        0 <= pos <= bits.len(),
    ensures
        syntax::flags_at(bits, pos, count) is Done <==> pos + count <= bits.len(),
        syntax::flags_at(bits, pos, count) matches Parsed::Done(flags, end) ==> {
            &&& end == pos + count
            &&& flags.len() == count
            &&& forall|i: int| 0 <= i < count ==> #[trigger] flags[i] == bits[pos + i]
        },
    decreases count,
{
    if count > 0 {
        lemma_flags_are_bits(bits, pos, count - 1);
    }
}

/// A list of two-bit fields is read from consecutive pairs of bits, and there is
/// one exactly when that many bits are left.
pub proof fn lemma_fields_are_bit_pairs(bits: Seq<bool>, pos: int, count: int)
    requires
        0 <= count,
        0 <= pos <= bits.len(),
    ensures
        syntax::fields_at(bits, pos, 2, count) is Done <==> pos + 2 * count <= bits.len(),
        syntax::fields_at(bits, pos, 2, count) matches Parsed::Done(values, end) ==> {
            &&& end == pos + 2 * count
            &&& values.len() == count
            &&& forall|i: int|
                0 <= i < count ==> #[trigger] values[i] == two_bits(bits, pos + 2 * i)
        },
    decreases count,
{
    if count > 0 {
        lemma_fields_are_bit_pairs(bits, pos, count - 1);
        lemma_short_fields(bits, pos + 2 * (count - 1));
    }
}

/// A list of one-bit fields is read from consecutive bits.
pub proof fn lemma_fields_are_bits(bits: Seq<bool>, pos: int, count: int)
    requires
        0 <= count,
        0 <= pos <= bits.len(),
    ensures
        syntax::fields_at(bits, pos, 1, count) is Done <==> pos + count <= bits.len(),
        syntax::fields_at(bits, pos, 1, count) matches Parsed::Done(values, end) ==> {
            &&& end == pos + count
            &&& values.len() == count
            &&& forall|i: int| 0 <= i < count ==> #[trigger] values[i] == digit(bits[pos + i])
        },
    decreases count,
{
    if count > 0 {
        lemma_fields_are_bits(bits, pos, count - 1);
        lemma_short_fields(bits, pos + (count - 1));
    }
}

/// Behind a presence bit that is unset no flag is set and no bit is taken;
/// behind one that is set stand the flags themselves.
pub proof fn lemma_flags_behind_a_presence_bit(bits: Seq<bool>, pos: int, count: int)
    requires
        0 <= count,
        0 <= pos <= bits.len(),
    ensures
        syntax::present_flags_at(bits, pos, count) matches Parsed::Done(flags, end) ==> {
            &&& pos < bits.len()
            &&& end == pos + 1 + count * digit(bits[pos])
            &&& end <= bits.len()
            &&& flags.len() == count
            &&& forall|i: int|
                0 <= i < count ==> #[trigger] flags[i] == (bits[pos] && bits[pos + 1 + i])
        },
        pos + 1 + count <= bits.len() ==> syntax::present_flags_at(bits, pos, count) is Done,
{
    if pos < bits.len() {
        lemma_flags_are_bits(bits, pos + 1, count);
        assert(count * 1 == count && count * 0 == 0);
    }
}

/// Whether `flags` are `count` flags of which the `i`-th is bit `pos + i` if
/// `present`, and unset otherwise.
pub open spec fn are_bits(
    flags: Seq<bool>,
    count: int,
    present: bool,
    bits: Seq<bool>,
    pos: int,
) -> bool {
    &&& flags.len() == count
    &&& forall|i: int| 0 <= i < count ==> #[trigger] flags[i] == (present && bits[pos + i])
}

/// The flags of a single channel: two bits of chirp mode for each noise group,
/// and three lists, each behind a presence bit of its own: added sinusoids and
/// frequency interleaving, one flag for each high-resolution group, and time
/// interleaving, one flag for each timeslot.
pub proof fn lemma_single_channel_flags(
    bits: Seq<bool>,
    pos: int,
    noise: int,
    highres: int,
    slots: int,
)
    requires
        0 <= pos <= bits.len(),
        0 <= noise,
        0 <= highres,
        0 <= slots,
    ensures
        syntax::hfgen_mono_at(bits, pos, noise, highres, slots) matches Parsed::Done(flags, end)
            ==> {
            let harmonic = pos + 2 * noise;
            let fic = harmonic + 1 + highres * digit(bits[harmonic]);
            let tic = fic + 1 + highres * digit(bits[fic]);
            &&& flags.tna_mode.len() == noise
            &&& forall|i: int|
                0 <= i < noise ==> #[trigger] flags.tna_mode[i] == two_bits(bits, pos + 2 * i)
            &&& are_bits(flags.add_harmonic, highres, bits[harmonic], bits, harmonic + 1)
            &&& are_bits(flags.fic, highres, bits[fic], bits, fic + 1)
            &&& are_bits(flags.tic, slots, bits[tic], bits, tic + 1)
            &&& end == tic + 1 + slots * digit(bits[tic])
            &&& end <= bits.len()
        },
        pos + 2 * noise + 2 * highres + slots + 3 <= bits.len() ==> syntax::hfgen_mono_at(
            bits,
            pos,
            noise,
            highres,
            slots,
        ) is Done,
{
    let harmonic = pos + 2 * noise;
    lemma_fields_are_bit_pairs(bits, pos, noise);
    if harmonic <= bits.len() {
        lemma_flags_behind_a_presence_bit(bits, harmonic, highres);
        let fic = harmonic + 1 + highres * digit(bits[harmonic]);
        assert(0 <= highres * digit(bits[harmonic]) <= highres) by {
            assert(highres * 1 == highres && highres * 0 == 0);
        }
        if fic <= bits.len() {
            lemma_flags_behind_a_presence_bit(bits, fic, highres);
            let tic = fic + 1 + highres * digit(bits[fic]);
            assert(0 <= highres * digit(bits[fic]) <= highres) by {
                assert(highres * 1 == highres && highres * 0 == 0);
            }
            if tic <= bits.len() {
                lemma_flags_behind_a_presence_bit(bits, tic, slots);
            }
        }
    }
}

/// The chirp modes and the added sinusoids of a channel pair. The modes of the
/// first channel lead; those of the second follow, unless the pair is balanced:
/// it shares them. The sinusoids of the first channel stand behind the first
/// presence bit after the modes, those of the second behind the second one.
pub proof fn lemma_pair_modes_and_sinusoids(
    bits: Seq<bool>,
    pos: int,
    noise: int,
    highres: int,
    slots: int,
    balance: bool,
)
    requires
        0 <= pos <= bits.len(),
        0 <= noise,
        0 <= highres,
        0 <= slots,
    ensures
        syntax::hfgen_pair_at(bits, pos, noise, highres, slots, balance) matches Parsed::Done(
            pair,
            end,
        ) ==> {
            let first = pos + 2 * noise + (if balance {
                0
            } else {
                2 * noise
            });
            let second = first + 1 + highres * digit(bits[first]);
            &&& pair.0.tna_mode.len() == noise
            &&& pair.1.tna_mode.len() == noise
            &&& forall|i: int|
                0 <= i < noise ==> #[trigger] pair.0.tna_mode[i] == two_bits(bits, pos + 2 * i)
            &&& forall|i: int|
                0 <= i < noise ==> #[trigger] pair.1.tna_mode[i] == two_bits(
                    bits,
                    (if balance {
                        pos
                    } else {
                        pos + 2 * noise
                    }) + 2 * i,
                )
            &&& are_bits(pair.0.add_harmonic, highres, bits[first], bits, first + 1)
            &&& are_bits(pair.1.add_harmonic, highres, bits[second], bits, second + 1)
        },
{
    lemma_fields_are_bit_pairs(bits, pos, noise);
    if pos + 2 * noise <= bits.len() {
        lemma_fields_are_bit_pairs(bits, pos + 2 * noise, noise);
    }
    let first = pos + 2 * noise + (if balance {
        0
    } else {
        2 * noise
    });
    if first <= bits.len() {
        lemma_flags_behind_a_presence_bit(bits, first, highres);
        let second = first + 1 + highres * digit(bits[first]);
        assert(0 <= highres * digit(bits[first]) <= highres) by {
            assert(highres * 1 == highres && highres * 0 == 0);
        }
        if second <= bits.len() {
            lemma_flags_behind_a_presence_bit(bits, second, highres);
        }
    }
}

/// The interleaving of a channel pair, which follows its sinusoids. One bit says
/// whether there is interleaving along frequency; if so, either channel has a
/// list behind a presence bit. Another bit says whether there is interleaving
/// along time; if so, a copy bit follows. A set copy bit gives both channels the
/// one list behind it; an unset one is followed by the presence bits of both
/// channels and by the lists that are present, the first channel leading.
#[verifier::rlimit(40)]
pub proof fn lemma_pair_interleaving(
    bits: Seq<bool>,
    pos: int,
    noise: int,
    highres: int,
    slots: int,
    balance: bool,
)
    requires
        0 <= pos <= bits.len(),
        0 <= noise,
        0 <= highres,
        0 <= slots,
    ensures
        syntax::hfgen_pair_at(bits, pos, noise, highres, slots, balance) matches Parsed::Done(
            pair,
            end,
        ) ==> {
            let first = pos + 2 * noise + (if balance {
                0
            } else {
                2 * noise
            });
            let second = first + 1 + highres * digit(bits[first]);
            let fic = second + 1 + highres * digit(bits[second]);
            let fic_left = fic + 1;
            let fic_right = fic_left + 1 + highres * digit(bits[fic_left]);
            let tic = if bits[fic] {
                fic_right + 1 + highres * digit(bits[fic_right])
            } else {
                fic + 1
            };
            let copy = tic + 1;
            let left = tic + 2;
            let right = tic + 3;
            &&& are_bits(pair.0.fic, highres, bits[fic] && bits[fic_left], bits, fic_left + 1)
            &&& are_bits(pair.1.fic, highres, bits[fic] && bits[fic_right], bits, fic_right + 1)
            &&& !bits[tic] ==> {
                &&& are_bits(pair.0.tic, slots, false, bits, 0)
                &&& are_bits(pair.1.tic, slots, false, bits, 0)
                &&& end == tic + 1
            }
            &&& bits[tic] && bits[copy] ==> {
                &&& are_bits(pair.0.tic, slots, true, bits, copy + 1)
                &&& are_bits(pair.1.tic, slots, true, bits, copy + 1)
                &&& end == copy + 1 + slots
            }
            &&& bits[tic] && !bits[copy] ==> {
                let left_flags = right + 1;
                let right_flags = left_flags + slots * digit(bits[left]);
                &&& are_bits(pair.0.tic, slots, bits[left], bits, left_flags)
                &&& are_bits(pair.1.tic, slots, bits[right], bits, right_flags)
                &&& end == right_flags + slots * digit(bits[right])
            }
            &&& end <= bits.len()
        },
{
    let first = pos + 2 * noise + (if balance {
        0
    } else {
        2 * noise
    });
    lemma_fields_are_bit_pairs(bits, pos, noise);
    if pos + 2 * noise <= bits.len() {
        lemma_fields_are_bit_pairs(bits, pos + 2 * noise, noise);
    }
    assert(highres * 1 == highres && highres * 0 == 0);
    assert(slots * 1 == slots && slots * 0 == 0);
    if syntax::hfgen_pair_at(bits, pos, noise, highres, slots, balance) is Done {
        lemma_flags_behind_a_presence_bit(bits, first, highres);
        let second = first + 1 + highres * digit(bits[first]);
        lemma_flags_behind_a_presence_bit(bits, second, highres);
        let fic = second + 1 + highres * digit(bits[second]);
        let fic_left = fic + 1;
        assert(syntax::fic_pair_at(bits, fic, highres) is Done);
        if bits[fic] {
            lemma_flags_behind_a_presence_bit(bits, fic_left, highres);
            let fic_right = fic_left + 1 + highres * digit(bits[fic_left]);
            lemma_flags_behind_a_presence_bit(bits, fic_right, highres);
            lemma_pair_slots(bits, fic_right + 1 + highres * digit(bits[fic_right]), slots);
        } else {
            lemma_pair_slots(bits, fic + 1, slots);
        }
    }
}

proof fn lemma_pair_slots(bits: Seq<bool>, tic: int, slots: int)
    requires
        0 <= tic <= bits.len(),
        0 <= slots,
    ensures
        syntax::tic_pair_at(bits, tic, slots) matches Parsed::Done(pair, end) ==> {
            let copy = tic + 1;
            let left = tic + 2;
            let right = tic + 3;
            &&& !bits[tic] ==> {
                &&& are_bits(pair.0, slots, false, bits, 0)
                &&& are_bits(pair.1, slots, false, bits, 0)
                &&& end == tic + 1
            }
            &&& bits[tic] && bits[copy] ==> {
                &&& are_bits(pair.0, slots, true, bits, copy + 1)
                &&& are_bits(pair.1, slots, true, bits, copy + 1)
                &&& end == copy + 1 + slots
            }
            &&& bits[tic] && !bits[copy] ==> {
                let left_flags = right + 1;
                let right_flags = left_flags + slots * digit(bits[left]);
                &&& are_bits(pair.0, slots, bits[left], bits, left_flags)
                &&& are_bits(pair.1, slots, bits[right], bits, right_flags)
                &&& end == right_flags + slots * digit(bits[right])
            }
            &&& end <= bits.len()
        },
{
    assert(slots * 1 == slots && slots * 0 == 0);
    if tic < bits.len() && bits[tic] && tic + 1 < bits.len() {
        lemma_flags_are_bits(bits, tic + 2, slots);
        if tic + 3 < bits.len() {
            lemma_flags_are_bits(bits, tic + 4, slots);
            let right_flags = tic + 4 + slots * digit(bits[tic + 2]);
            if right_flags <= bits.len() {
                lemma_flags_are_bits(bits, right_flags, slots);
            }
        }
    }
}

/// A configuration is ten fields side by side: the quantiser, the start and the
/// stop frequency, the template, interpolation, flattening, the limiter, the
/// noise density, the width of the envelope count, and the resolution mode.
#[verifier::rlimit(40)]
pub proof fn lemma_configuration_fields(bits: Seq<bool>, pos: int)
    requires
        0 <= pos <= bits.len(),
    ensures
        syntax::config_at(bits, pos) matches Parsed::Done(config, end) ==> {
            &&& config.quant_mode_env == bits[pos]
            &&& config.start_freq == 4 * digit(bits[pos + 1]) + 2 * digit(bits[pos + 2]) + digit(
                bits[pos + 3],
            )
            &&& config.stop_freq == two_bits(bits, pos + 4)
            &&& config.master_freq_scale == bits[pos + 6]
            &&& config.interpolation == bits[pos + 7]
            &&& config.preflat == bits[pos + 8]
            &&& config.limiter == bits[pos + 9]
            &&& config.noise_sbg == two_bits(bits, pos + 10)
            &&& config.num_env_bits_fixfix == bits[pos + 12]
            &&& config.freq_res_mode == two_bits(bits, pos + 13)
            &&& end == pos + 15
        },
{
    let widths = syntax::CONFIG_WIDTHS@;
    reveal_with_fuel(syntax::layout_at, 11);
    assert(widths[0] == 1 && widths[1] == 3 && widths[2] == 2 && widths[3] == 1 && widths[4] == 1
        && widths[5] == 1 && widths[6] == 1 && widths[7] == 2 && widths[8] == 1 && widths[9] == 2);
    lemma_short_fields(bits, pos);
    lemma_short_fields(bits, pos + 1);
    lemma_short_fields(bits, pos + 4);
    lemma_short_fields(bits, pos + 6);
    lemma_short_fields(bits, pos + 7);
    lemma_short_fields(bits, pos + 8);
    lemma_short_fields(bits, pos + 9);
    lemma_short_fields(bits, pos + 10);
    lemma_short_fields(bits, pos + 12);
    lemma_short_fields(bits, pos + 13);
}

/// Number of bits of the codeword of an interval class.
pub open spec fn class_length(int_class: IntervalClass) -> int {
    match int_class {
        IntervalClass::FixFix => 1,
        IntervalClass::FixVar => 2,
        IntervalClass::VarFix => 3,
        IntervalClass::VarVar => 3,
    }
}

/// The interval classes have the codewords `0`, `10`, `110` and `111`: each is
/// recognised wherever its codeword stands, and only there.
pub proof fn lemma_interval_class_codewords(bits: Seq<bool>, pos: int)
    requires
        0 <= pos <= bits.len(),
    ensures
        pos < bits.len() && !bits[pos] <==> syntax::class_at(bits, pos) == Parsed::Done(
            IntervalClass::FixFix,
            pos + 1,
        ),
        pos + 1 < bits.len() && bits[pos] && !bits[pos + 1] <==> syntax::class_at(bits, pos)
            == Parsed::Done(IntervalClass::FixVar, pos + 2),
        pos + 2 < bits.len() && bits[pos] && bits[pos + 1] && !bits[pos + 2] <==> syntax::class_at(
            bits,
            pos,
        ) == Parsed::Done(IntervalClass::VarFix, pos + 3),
        pos + 2 < bits.len() && bits[pos] && bits[pos + 1] && bits[pos + 2] <==> syntax::class_at(
            bits,
            pos,
        ) == Parsed::Done(IntervalClass::VarVar, pos + 3),
{
}

/// With two fixed ends, behind the one-bit class, one or two bits hold the binary
/// logarithm of the envelope count, of which 3 is refused. In resolution mode 0
/// one more bit holds the resolution of the first envelope.
pub proof fn lemma_fixed_framing_fields(
    bits: Seq<bool>,
    pos: int,
    config: AspxConfig,
    slots: u8,
    b_iframe: bool,
)
    requires
        0 <= pos < bits.len(),
        !bits[pos],
    ensures
        ({
            let width: int = if config.num_env_bits_fixfix {
                2
            } else {
                1
            };
            let exponent = if config.num_env_bits_fixfix {
                two_bits(bits, pos + 1)
            } else {
                digit(bits[pos + 1])
            };
            let with_resolution = config.freq_res_mode == 0;
            let end = pos + 1 + width + digit(with_resolution);
            &&& end <= bits.len() && exponent == 3 ==> syntax::params_at(
                bits,
                pos,
                config,
                slots,
                b_iframe,
            ) == Parsed::<ParamsView>::Failed(
                AspxError::EightEnvelopesProhibited,
                pos + 3,
            )
            &&& end <= bits.len() && exponent < 3 ==> (syntax::params_at(
                bits,
                pos,
                config,
                slots,
                b_iframe,
            ) matches Parsed::Done(params, p) && {
                &&& p == end
                &&& params.int_class == IntervalClass::FixFix
                &&& params.num_env == (if exponent == 0 {
                    1int
                } else {
                    2 * exponent
                })
                &&& params.num_noise == (if exponent == 0 {
                    1int
                } else {
                    2
                })
                &&& params.tsg_ptr == -1
                &&& params.freq_res.len() == 5
                &&& params.freq_res[0] == (with_resolution && bits[end - 1])
                &&& forall|i: int| 1 <= i < 5 ==> !#[trigger] params.freq_res[i]
                &&& params.var_bord_left is None
                &&& params.var_bord_right is None
                &&& params.num_rel_left == 0
                &&& params.num_rel_right == 0
            })
        }),
{
    lemma_short_fields(bits, pos + 1);
    if config.num_env_bits_fixfix {
        if pos + 3 <= bits.len() {
            lemma_flags_are_bits(bits, pos + 3, 1);
        }
    } else if pos + 2 <= bits.len() {
        lemma_flags_are_bits(bits, pos + 2, 1);
    }
}

/// Number of bits of `count` fields about relative borders: one for each in
/// frames of up to eight timeslots, two in longer ones.
pub open spec fn border_bits(slots: u8, count: int) -> int {
    if slots <= 8 {
        count
    } else {
        2 * count
    }
}

/// The number that the field about relative borders at `pos` stands for.
pub open spec fn border_field(bits: Seq<bool>, pos: int, slots: u8) -> int {
    if slots <= 8 {
        digit(bits[pos])
    } else {
        two_bits(bits, pos)
    }
}

/// Whether the distances `steps` are those of a side at `pos`: after the number
/// of relative borders, a field for each of them with half its distance less
/// one.
pub open spec fn are_distances(
    steps: Seq<u8>,
    count: int,
    bits: Seq<bool>,
    pos: int,
    slots: u8,
) -> bool {
    &&& count == border_field(bits, pos, slots)
    &&& forall|i: int|
        0 <= i < count ==> #[trigger] steps[i] == 2 * border_field(
            bits,
            pos + border_bits(slots, i + 1),
            slots,
        ) + 2
}

/// A variable side is its border of two bits, where one is transmitted, the
/// number of its relative borders, and a field for each of them.
pub proof fn lemma_variable_side_fields(bits: Seq<bool>, pos: int, with_border: bool, slots: u8)
    requires
        0 <= pos <= bits.len(),
    ensures
        syntax::side_at(bits, pos, with_border, border_bits(slots, 1)) matches Parsed::Done(
            side,
            end,
        ) ==> {
            let start = pos + 2 * digit(with_border);
            &&& side.border is Some <==> with_border
            &&& with_border ==> side.border->0 == two_bits(bits, pos)
            &&& side.steps.len() <= 3
            &&& are_distances(side.steps, side.steps.len() as int, bits, start, slots)
            &&& end == start + border_bits(slots, side.steps.len() as int + 1)
            &&& end <= bits.len()
        },
{
    let start = pos + 2 * digit(with_border);
    lemma_short_fields(bits, pos);
    lemma_short_fields(bits, start);
    if syntax::side_at(bits, pos, with_border, border_bits(slots, 1)) is Done {
        let count = border_field(bits, start, slots);
        if slots <= 8 {
            lemma_fields_are_bits(bits, start + 1, count);
        } else {
            lemma_fields_are_bit_pairs(bits, start + 2, count);
        }
    }
}

/// Where the left side of a variable interval begins: behind its class.
pub open spec fn left_side(params: ParamsView, pos: int) -> int {
    pos + class_length(params.int_class)
}

/// Where the right side of a variable interval begins: behind its left side,
/// which has a border only in an independently decodable frame.
pub open spec fn right_side(params: ParamsView, pos: int, slots: u8, b_iframe: bool) -> int {
    if params.int_class == IntervalClass::FixVar {
        left_side(params, pos)
    } else {
        left_side(params, pos) + 2 * digit(b_iframe) + border_bits(slots, params.num_rel_left + 1)
    }
}

/// Where the pointer of a variable interval begins: behind its right side.
pub open spec fn pointer_field(params: ParamsView, pos: int, slots: u8, b_iframe: bool) -> int {
    if params.int_class == IntervalClass::VarFix {
        right_side(params, pos, slots, b_iframe)
    } else {
        right_side(params, pos, slots, b_iframe) + 2 + border_bits(slots, params.num_rel_right + 1)
    }
}

#[verifier::rlimit(40)]
proof fn lemma_sides_of_variable_framing(
    bits: Seq<bool>,
    pos: int,
    config: AspxConfig,
    slots: u8,
    b_iframe: bool,
) -> (sides: (SideView, SideView, u8, Seq<bool>))
    requires
        0 <= pos < bits.len(),
        bits[pos],
        syntax::params_at(bits, pos, config, slots, b_iframe) is Done,
    ensures
        syntax::params_at(bits, pos, config, slots, b_iframe) matches Parsed::Done(params, end) && {
            let num_env = (sides.0.steps.len() + sides.1.steps.len() + 1) as int;
            let pointer = pointer_field(params, pos, slots, b_iframe);
            let resolutions = pointer + syntax::ptr_bits(num_env);
            &&& params.int_class == (if !bits[pos + 1] {
                IntervalClass::FixVar
            } else if !bits[pos + 2] {
                IntervalClass::VarFix
            } else {
                IntervalClass::VarVar
            })
            &&& params == syntax::variable_params(
                params.int_class,
                sides.0,
                sides.1,
                sides.2,
                sides.3,
            )
            &&& sides.0.steps.len() <= 3
            &&& sides.1.steps.len() <= 3
            &&& if params.int_class == IntervalClass::FixVar {
                sides.0.border is None && sides.0.steps.len() == 0
            } else {
                &&& sides.0.border is Some <==> b_iframe
                &&& b_iframe ==> sides.0.border->0 == two_bits(bits, left_side(params, pos))
                &&& are_distances(
                    sides.0.steps,
                    sides.0.steps.len() as int,
                    bits,
                    left_side(params, pos) + 2 * digit(b_iframe),
                    slots,
                )
            }
            &&& if params.int_class == IntervalClass::VarFix {
                sides.1.border is None && sides.1.steps.len() == 0
            } else {
                &&& sides.1.border is Some
                &&& sides.1.border->0 == two_bits(bits, right_side(params, pos, slots, b_iframe))
                &&& are_distances(
                    sides.1.steps,
                    sides.1.steps.len() as int,
                    bits,
                    right_side(params, pos, slots, b_iframe) + 2,
                    slots,
                )
            }
            &&& resolutions <= bits.len()
            &&& sides.2 == reader::bits_value(bits, pointer, syntax::ptr_bits(num_env)) as u8
            &&& syntax::optional_flags_at(bits, resolutions, config.freq_res_mode == 0, num_env)
                == Parsed::Done(sides.3, end)
            &&& 0 <= pointer
        },
{
    lemma_interval_class_codewords(bits, pos);
    let int_class = if !bits[pos + 1] {
        IntervalClass::FixVar
    } else if !bits[pos + 2] {
        IntervalClass::VarFix
    } else {
        IntervalClass::VarVar
    };
    let after_class = pos + class_length(int_class);
    let rel = border_bits(slots, 1);
    lemma_variable_side_fields(bits, after_class, b_iframe, slots);
    match syntax::optional_side_at(
        bits,
        after_class,
        int_class != IntervalClass::FixVar,
        b_iframe,
        rel,
    ) {
        Parsed::Failed(error, p) => arbitrary(),
        Parsed::Done(left, p) => {
            lemma_variable_side_fields(bits, p, true, slots);
            match syntax::optional_side_at(
                bits,
                p,
                int_class != IntervalClass::VarFix,
                true,
                rel,
            ) {
                Parsed::Failed(error, q) => arbitrary(),
                Parsed::Done(right, q) => {
                    let num_env = left.steps.len() + right.steps.len() + 1;
                    let width = syntax::ptr_bits(num_env as int);
                    let flags = syntax::optional_flags_at(
                        bits,
                        q + width,
                        config.freq_res_mode == 0,
                        num_env as int,
                    );
                    (
                        left,
                        right,
                        reader::bits_value(bits, q, width) as u8,
                        flags->Done_0,
                    )
                },
            }
        },
    }
}

/// With a variable end, behind the class stand the variable sides, the left one
/// leading. Only an independently decodable frame transmits a left border. The
/// relative borders of both sides part the envelopes.
#[verifier::rlimit(40)]
pub proof fn lemma_variable_framing_sides(
    bits: Seq<bool>,
    pos: int,
    config: AspxConfig,
    slots: u8,
    b_iframe: bool,
)
    requires
        0 <= pos < bits.len(),
        bits[pos],
    ensures
        syntax::params_at(bits, pos, config, slots, b_iframe) matches Parsed::Done(params, end)
            ==> {
            let left = left_side(params, pos);
            let right = right_side(params, pos, slots, b_iframe);
            &&& params.int_class == (if !bits[pos + 1] {
                IntervalClass::FixVar
            } else if !bits[pos + 2] {
                IntervalClass::VarFix
            } else {
                IntervalClass::VarVar
            })
            &&& params.num_env == params.num_rel_left + params.num_rel_right + 1
            &&& params.num_noise == (if params.num_env > 1 {
                2int
            } else {
                1
            })
            &&& params.int_class == IntervalClass::FixVar ==> {
                &&& params.var_bord_left is None
                &&& params.num_rel_left == 0
            }
            &&& params.int_class != IntervalClass::FixVar ==> {
                &&& params.var_bord_left is Some <==> b_iframe
                &&& b_iframe ==> params.var_bord_left->0 == two_bits(bits, left)
                &&& are_distances(
                    params.rel_bord_left,
                    params.num_rel_left as int,
                    bits,
                    left + 2 * digit(b_iframe),
                    slots,
                )
            }
            &&& params.int_class == IntervalClass::VarFix ==> {
                &&& params.var_bord_right is None
                &&& params.num_rel_right == 0
            }
            &&& params.int_class != IntervalClass::VarFix ==> {
                &&& params.var_bord_right is Some
                &&& params.var_bord_right->0 == two_bits(bits, right)
                &&& are_distances(
                    params.rel_bord_right,
                    params.num_rel_right as int,
                    bits,
                    right + 2,
                    slots,
                )
            }
        },
{
    if let Parsed::Done(params, end) = syntax::params_at(bits, pos, config, slots, b_iframe) {
        let (left, right, pointer, flags) = lemma_sides_of_variable_framing(
            bits,
            pos,
            config,
            slots,
            b_iframe,
        );
        assert forall|i: int| 0 <= i < left.steps.len() implies #[trigger] params.rel_bord_left[i]
            == left.steps[i] by {}
        assert forall|i: int| 0 <= i < right.steps.len() implies #[trigger] params.rel_bord_right[i]
            == right.steps[i] by {}
    }
}

/// With a variable end, behind the sides stands the envelope pointer plus one,
/// in the fewest bits that hold two values more than there are envelopes. In
/// resolution mode 0 one bit for each envelope follows.
#[verifier::rlimit(40)]
pub proof fn lemma_variable_framing_pointer(
    bits: Seq<bool>,
    pos: int,
    config: AspxConfig,
    slots: u8,
    b_iframe: bool,
)
    requires
        0 <= pos < bits.len(),
        bits[pos],
    ensures
        syntax::params_at(bits, pos, config, slots, b_iframe) matches Parsed::Done(params, end)
            ==> {
            let pointer = pointer_field(params, pos, slots, b_iframe);
            let pointer_bits: int = if params.num_env <= 2 {
                2
            } else if params.num_env <= 6 {
                3
            } else {
                4
            };
            let resolutions = pointer + pointer_bits;
            &&& params.num_env <= 7
            &&& params.tsg_ptr + 1 == (if pointer_bits == 2 {
                two_bits(bits, pointer)
            } else if pointer_bits == 3 {
                4 * digit(bits[pointer]) + two_bits(bits, pointer + 1)
            } else {
                8 * digit(bits[pointer]) + 4 * digit(bits[pointer + 1]) + two_bits(
                    bits,
                    pointer + 2,
                )
            })
            &&& params.freq_res.len() == 5
            &&& forall|i: int|
                0 <= i < 5 ==> #[trigger] params.freq_res[i] == (config.freq_res_mode == 0 && i
                    < params.num_env && bits[resolutions + i])
            &&& end == resolutions + (if config.freq_res_mode == 0 {
                params.num_env as int
            } else {
                0
            })
            &&& end <= bits.len()
        },
{
    if let Parsed::Done(params, end) = syntax::params_at(bits, pos, config, slots, b_iframe) {
        let (left, right, raw, flags) = lemma_sides_of_variable_framing(
            bits,
            pos,
            config,
            slots,
            b_iframe,
        );
        let pointer = pointer_field(params, pos, slots, b_iframe);
        lemma_short_fields(bits, pointer);
        lemma_flags_are_bits(
            bits,
            pointer + syntax::ptr_bits(params.num_env as int),
            params.num_env as int,
        );
    }
}

/// The difference directions are one bit for each signal envelope, followed by
/// one for each noise envelope; nothing else of the framing changes.
pub proof fn lemma_directions_are_bits(bits: Seq<bool>, pos: int, framing: FramingView)
    requires
        0 <= pos <= bits.len(),
    ensures
        syntax::directions_at(bits, pos, framing) matches Parsed::Done(directed, end) ==> {
            let sig = framing.params.num_env as int;
            let noise = framing.params.num_noise as int;
            &&& directed.sig_delta_dir.len() == 5
            &&& forall|i: int|
                0 <= i < 5 ==> #[trigger] directed.sig_delta_dir[i] == (i < sig && bits[pos + i])
            &&& directed.noise_delta_dir.len() == 2
            &&& forall|i: int|
                0 <= i < 2 ==> #[trigger] directed.noise_delta_dir[i] == (i < noise && bits[pos
                    + sig + i])
            &&& directed.params == framing.params
            &&& directed.interval == framing.interval
            &&& directed.qmode_env == framing.qmode_env
            &&& end == pos + sig + noise
        },
        pos + framing.params.num_env + framing.params.num_noise <= bits.len()
            ==> syntax::directions_at(bits, pos, framing) is Done,
{
    let sig = framing.params.num_env as int;
    lemma_flags_are_bits(bits, pos, sig);
    if pos + sig <= bits.len() {
        lemma_flags_are_bits(bits, pos + sig, framing.params.num_noise as int);
    }
}

/// A framing holds the interval of its own fields in the frame at hand. Its
/// signal envelopes are coarsely quantised where the configuration says so, but
/// never when a single one spans a frame with two fixed ends.
pub proof fn lemma_framing_follows_its_fields(
    bits: Seq<bool>,
    pos: int,
    config: AspxConfig,
    slots: u8,
    b_iframe: bool,
    previous_stop_pos: i16,
)
    ensures
        syntax::framing_at(bits, pos, config, slots, b_iframe, previous_stop_pos) matches
            Parsed::Done(framing, end) ==> {
            &&& syntax::params_at(bits, pos, config, slots, b_iframe) == Parsed::Done(
                framing.params,
                end,
            )
            &&& frames::derived_interval(
                framing.params,
                slots,
                config.freq_res_mode,
                b_iframe,
                previous_stop_pos,
            ) == Ok::<IntervalView, FrameError>(framing.interval)
            &&& framing.params.int_class == IntervalClass::FixFix && framing.params.num_env == 1
                ==> !framing.qmode_env
            &&& framing.params.int_class != IntervalClass::FixFix || framing.params.num_env != 1
                ==> framing.qmode_env == config.quant_mode_env
        },
{
}

/// Why a framing is refused: its fields are, or no interval follows from them;
/// then all of the fields have been read.
pub proof fn lemma_why_a_framing_is_refused(
    bits: Seq<bool>,
    pos: int,
    config: AspxConfig,
    slots: u8,
    b_iframe: bool,
    previous_stop_pos: i16,
)
    ensures
        syntax::framing_at(bits, pos, config, slots, b_iframe, previous_stop_pos) matches
            Parsed::Failed(error, end) ==> {
            let params = syntax::params_at(bits, pos, config, slots, b_iframe);
            ||| params == Parsed::<ParamsView>::Failed(error, end)
            ||| params is Done && params->Done_1 == end && (error matches AspxError::Frames(cause)
                && frames::derived_interval(
                params->Done_0,
                slots,
                config.freq_res_mode,
                b_iframe,
                previous_stop_pos,
            ) == Err::<IntervalView, FrameError>(cause))
        },
{
}

/// The flags of a channel pair are read wherever enough bits are left for all of
/// them.
#[verifier::rlimit(40)]
pub proof fn lemma_pair_flags_are_read(
    bits: Seq<bool>,
    pos: int,
    noise: int,
    highres: int,
    slots: int,
    balance: bool,
)
    requires
        0 <= pos,
        0 <= noise,
        0 <= highres,
        0 <= slots,
        pos + 4 * noise + 4 * highres + 2 * slots + 9 <= bits.len(),
    ensures
        syntax::hfgen_pair_at(bits, pos, noise, highres, slots, balance) is Done,
{
    assert(highres * 1 == highres && highres * 0 == 0);
    assert(slots * 1 == slots && slots * 0 == 0);
    let first = pos + 2 * noise + (if balance {
        0
    } else {
        2 * noise
    });
    lemma_fields_are_bit_pairs(bits, pos, noise);
    lemma_fields_are_bit_pairs(bits, pos + 2 * noise, noise);
    lemma_flags_behind_a_presence_bit(bits, first, highres);
    let second = first + 1 + highres * digit(bits[first]);
    lemma_flags_behind_a_presence_bit(bits, second, highres);
    let fic = second + 1 + highres * digit(bits[second]);
    lemma_flags_behind_a_presence_bit(bits, fic + 1, highres);
    let fic_right = fic + 2 + highres * digit(bits[fic + 1]);
    lemma_flags_behind_a_presence_bit(bits, fic_right, highres);
    let tic = if bits[fic] {
        fic_right + 1 + highres * digit(bits[fic_right])
    } else {
        fic + 1
    };
    assert(syntax::fic_pair_at(bits, fic, highres) is Done);
    lemma_flags_are_bits(bits, tic + 2, slots);
    lemma_flags_are_bits(bits, tic + 4, slots);
    lemma_flags_are_bits(bits, tic + 4 + slots * digit(bits[tic + 2]), slots);
    assert(syntax::tic_pair_at(bits, tic, slots) is Done);
}

proof fn lemma_side_is_read(bits: Seq<bool>, pos: int, with_border: bool, slots: u8)
    requires
        0 <= pos,
        pos + 10 <= bits.len(),
    ensures
        syntax::side_at(bits, pos, with_border, border_bits(slots, 1)) is Done,
        pos <= syntax::side_at(bits, pos, with_border, border_bits(slots, 1))->Done_1 <= pos + 10,
{
    let start = pos + 2 * digit(with_border);
    lemma_short_fields(bits, pos);
    lemma_short_fields(bits, start);
    let count = border_field(bits, start, slots);
    if slots <= 8 {
        lemma_fields_are_bits(bits, start + 1, count);
    } else {
        lemma_fields_are_bit_pairs(bits, start + 2, count);
    }
}

/// Framing fields with a variable end are read wherever enough bits are left for
/// the longest of them.
#[verifier::rlimit(40)]
pub proof fn lemma_variable_framing_is_read(
    bits: Seq<bool>,
    pos: int,
    config: AspxConfig,
    slots: u8,
    b_iframe: bool,
)
    requires
        0 <= pos,
        pos + 34 <= bits.len(),
        bits[pos],
    ensures
        syntax::params_at(bits, pos, config, slots, b_iframe) is Done,
{
    lemma_interval_class_codewords(bits, pos);
    let int_class = if !bits[pos + 1] {
        IntervalClass::FixVar
    } else if !bits[pos + 2] {
        IntervalClass::VarFix
    } else {
        IntervalClass::VarVar
    };
    let after_class = pos + class_length(int_class);
    let rel = border_bits(slots, 1);
    lemma_side_is_read(bits, after_class, b_iframe, slots);
    lemma_variable_side_fields(bits, after_class, b_iframe, slots);
    let left = syntax::optional_side_at(
        bits,
        after_class,
        int_class != IntervalClass::FixVar,
        b_iframe,
        rel,
    );
    let middle = left->Done_1;
    lemma_side_is_read(bits, middle, true, slots);
    lemma_variable_side_fields(bits, middle, true, slots);
    let right = syntax::optional_side_at(
        bits,
        middle,
        int_class != IntervalClass::VarFix,
        true,
        rel,
    );
    let num_env = left->Done_0.steps.len() + right->Done_0.steps.len() + 1;
    let pointer = right->Done_1;
    lemma_flags_are_bits(
        bits,
        pointer + syntax::ptr_bits(num_env as int),
        num_env as int,
    );
}

} // verus!
