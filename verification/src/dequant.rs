//! Linear scale factors.
//!
//! A quantised scale factor is an exponent. For a single channel, or a pair
//! that is not balanced, the signal scale factor is `64 * 2^(q / a)`, where `a`
//! is two for the fine step and one for the coarse step, and the noise scale
//! factor is `2^(6 - q)`. In a balanced pair the first channel gives twice that
//! as a total and the second channel divides it among the two. All exponents
//! are integers or half integers, so that the single-precision results follow
//! from integer arithmetic; a result that is not a normal number is refused.
use vstd::prelude::*;
use crate::binary32::{self, divide_normal, exp2_half, one_plus, ONE};
use crate::envelope::{EnvelopeScaleFactors, FactorsView, NOISE_GROUPS};
use crate::frames::{MAX_ATSG_NOISE, MAX_ATSG_SIG};
use crate::syntax::MAX_SBG_PER_ENVELOPE;
use crate::tables::EnvelopeKind;

verus! {

/// Why scale factors cannot be made linear.
#[derive(Debug, Clone, Copy, PartialEq, Eq)]
pub enum DequantError {
    /// The result is not a normal single-precision number.
    ExponentOutOfRange {
        /// Envelope family.
        kind: EnvelopeKind,
        /// Envelope.
        envelope: usize,
        /// Group.
        group: usize,
    },
    /// The channels of a balanced pair have different numbers of envelopes or
    /// groups.
    GridMismatch {
        /// Envelope family.
        kind: EnvelopeKind,
        /// Envelope.
        envelope: usize,
    },
}

/// Linear scale factors of one channel, as single-precision patterns.
#[verifier::ext_equal]
pub struct ScaleView {
    /// Scale factors of each signal envelope, one per group.
    pub sig: Seq<Seq<u32>>,
    /// Scale factors of each noise envelope, one per group.
    pub noise: Seq<Seq<u32>>,
}

/// The pattern in row `env` and column `sbg`, if there is one.
pub open spec fn pattern_at(rows: Seq<Seq<u32>>, env: int, sbg: int) -> Option<u32> {
    if 0 <= env < rows.len() && 0 <= sbg < rows[env].len() {
        Some(rows[env][sbg])
    } else {
        None
    }
}

/// Whether all patterns stand for positive normal numbers.
pub open spec fn all_normal(rows: Seq<Seq<u32>>) -> bool {
    forall|env: int, sbg: int|
        0 <= env < rows.len() && 0 <= sbg < rows[env].len() ==> binary32::is_normal(
            #[trigger] rows[env][sbg] as int,
        )
}

/// Linear scale factors of one channel, as single-precision patterns.
#[derive(Debug, Clone, Copy)]
pub struct ScaleFactors {
    sig: [[u32; MAX_SBG_PER_ENVELOPE]; MAX_ATSG_SIG],
    sig_groups: [u8; MAX_ATSG_SIG],
    num_sig: u8,
    noise: [[u32; NOISE_GROUPS]; MAX_ATSG_NOISE],
    noise_groups: u8,
    num_noise: u8,
}

impl View for ScaleFactors {
    type V = ScaleView;

    closed spec fn view(&self) -> ScaleView {
        ScaleView {
            sig: Seq::new(
                self.num_sig as nat,
                |env: int| self.sig@[env]@.take(self.sig_groups@[env] as int),
            ),
            noise: Seq::new(
                self.num_noise as nat,
                |env: int| self.noise@[env]@.take(self.noise_groups as int),
            ),
        }
    }
}

impl ScaleFactors {
    #[verifier::type_invariant]
    spec fn well_formed(self) -> bool {
        &&& self.num_sig <= MAX_ATSG_SIG
        &&& self.num_noise <= MAX_ATSG_NOISE
        &&& self.noise_groups <= NOISE_GROUPS
        &&& forall|env: int|
            0 <= env < self.num_sig ==> #[trigger] self.sig_groups@[env] <= MAX_SBG_PER_ENVELOPE
    }

    /// No envelopes at all.
    #[must_use]
    pub fn new() -> (factors: Self)
        ensures
            factors@.sig == Seq::<Seq<u32>>::empty(),
            factors@.noise == Seq::<Seq<u32>>::empty(),
    {
        let factors = ScaleFactors {
            sig: [[0; MAX_SBG_PER_ENVELOPE]; MAX_ATSG_SIG],
            sig_groups: [0; MAX_ATSG_SIG],
            num_sig: 0,
            noise: [[0; NOISE_GROUPS]; MAX_ATSG_NOISE],
            noise_groups: 0,
            num_noise: 0,
        };
        assert(factors@.sig =~= Seq::<Seq<u32>>::empty());
        assert(factors@.noise =~= Seq::<Seq<u32>>::empty());
        factors
    }

    /// Pattern of the scale factor of group `sbg` in signal envelope `env`.
    #[must_use]
    pub fn sig(&self, env: usize, sbg: usize) -> (value: Option<u32>)
        ensures
            value == pattern_at(self@.sig, env as int, sbg as int),
    {
        proof {
            use_type_invariant(self);
        }
        if env >= self.num_sig as usize || sbg >= self.sig_groups[env] as usize {
            return None;
        }
        Some(self.sig[env][sbg])
    }

    /// Pattern of the scale factor of group `sbg` in noise envelope `env`.
    #[must_use]
    pub fn noise(&self, env: usize, sbg: usize) -> (value: Option<u32>)
        ensures
            value == pattern_at(self@.noise, env as int, sbg as int),
    {
        proof {
            use_type_invariant(self);
        }
        if env >= self.num_noise as usize || sbg >= self.noise_groups as usize {
            return None;
        }
        Some(self.noise[env][sbg])
    }

    /// Number of signal and of noise envelopes.
    #[must_use]
    pub fn counts(&self) -> (counts: (u8, u8))
        ensures
            counts.0 == self@.sig.len() <= MAX_ATSG_SIG,
            counts.1 == self@.noise.len() <= MAX_ATSG_NOISE,
    {
        proof {
            use_type_invariant(self);
        }
        (self.num_sig, self.num_noise)
    }
}

impl Default for ScaleFactors {
    fn default() -> (factors: Self)
        ensures
            factors@.sig == Seq::<Seq<u32>>::empty(),
            factors@.noise == Seq::<Seq<u32>>::empty(),
    {
        ScaleFactors::new()
    }
}

/// A quantised value in half steps.
pub open spec fn in_half_steps(quantised: i16, coarse_quant: bool) -> int {
    if coarse_quant {
        2 * quantised
    } else {
        quantised as int
    }
}

/// Twice the exponent of a scale factor; `raised` is one for the total of a
/// balanced pair and zero otherwise.
pub open spec fn twice_exponent(
    kind: EnvelopeKind,
    quantised: i16,
    coarse_quant: bool,
    raised: int,
) -> int {
    match kind {
        EnvelopeKind::Signal => 2 * (6 + raised) + in_half_steps(quantised, coarse_quant),
        EnvelopeKind::Noise => 2 * (6 + raised - quantised),
    }
}

/// The linear value of a quantised scale factor.
pub open spec fn linear(kind: EnvelopeKind, quantised: i16, coarse_quant: bool) -> Option<u32> {
    binary32::half_power(twice_exponent(kind, quantised, coarse_quant, 0))
}

/// How far a balance value lies above the centre, in half steps. Noise always
/// has the coarse step.
pub open spec fn pan(kind: EnvelopeKind, quantised: i16, coarse_quant: bool) -> int {
    in_half_steps(quantised, coarse_quant || kind == EnvelopeKind::Noise) - 24
}

/// The pattern of `1 + 2^(half / 2)`. A power below the normal numbers leaves
/// no trace.
pub open spec fn divisor(half: int) -> Option<u32> {
    if half < -252 {
        Some(ONE)
    } else {
        match binary32::half_power(half) {
            Some(power) => Some(binary32::one_more(power as int) as u32),
            None => None,
        }
    }
}

/// The two shares of a total: it is divided by `1 + 2^-p` and by `1 + 2^p`,
/// where `p` is the pan.
pub open spec fn shares(total: Option<u32>, half: int) -> Option<(u32, u32)> {
    match (total, divisor(-half), divisor(half)) {
        (Some(total), Some(first), Some(second)) => match (
            binary32::quotient(total as int, first as int),
            binary32::quotient(total as int, second as int),
        ) {
            (Some(left), Some(right)) => Some((left, right)),
            _ => None,
        },
        _ => None,
    }
}

/// The linear values of a pair of quantised scale factors.
pub open spec fn linear_pair(
    kind: EnvelopeKind,
    sum: i16,
    balance: i16,
    coarse_quant: bool,
) -> Option<(u32, u32)> {
    shares(
        binary32::half_power(twice_exponent(kind, sum, coarse_quant, 1)),
        pan(kind, balance, coarse_quant),
    )
}

/// The first `count` values of a row, or the first group that has none.
pub open spec fn linear_row(
    kind: EnvelopeKind,
    row: Seq<i16>,
    coarse_quant: bool,
    count: int,
) -> Result<Seq<u32>, int>
    decreases count,
{
    if count <= 0 {
        Ok(Seq::empty())
    } else {
        match linear_row(kind, row, coarse_quant, count - 1) {
            Err(group) => Err(group),
            Ok(values) => match linear(kind, row[count - 1], coarse_quant) {
                None => Err(count - 1),
                Some(value) => Ok(values.push(value)),
            },
        }
    }
}

/// The first `count` rows, or the first value that does not exist.
pub open spec fn linear_rows(
    kind: EnvelopeKind,
    rows: Seq<Seq<i16>>,
    coarse_quant: bool,
    count: int,
) -> Result<Seq<Seq<u32>>, DequantError>
    decreases count,
{
    if count <= 0 {
        Ok(Seq::empty())
    } else {
        match linear_rows(kind, rows, coarse_quant, count - 1) {
            Err(error) => Err(error),
            Ok(done) => match linear_row(
                kind,
                rows[count - 1],
                coarse_quant,
                rows[count - 1].len() as int,
            ) {
                Err(group) => Err(
                    DequantError::ExponentOutOfRange {
                        kind,
                        envelope: (count - 1) as usize,
                        group: group as usize,
                    },
                ),
                Ok(values) => Ok(done.push(values)),
            },
        }
    }
}

/// The linear scale factors of a channel, or why there are none.
pub open spec fn dequantised(factors: FactorsView, coarse_quant: bool) -> Result<
    ScaleView,
    DequantError,
> {
    match linear_rows(
        EnvelopeKind::Signal,
        factors.sig,
        coarse_quant,
        factors.sig.len() as int,
    ) {
        Err(error) => Err(error),
        Ok(sig) => match linear_rows(
            EnvelopeKind::Noise,
            factors.noise,
            coarse_quant,
            factors.noise.len() as int,
        ) {
            Err(error) => Err(error),
            Ok(noise) => Ok(ScaleView { sig, noise }),
        },
    }
}

/// The first `count` pairs of values of two rows, or the first group that has
/// none.
pub open spec fn pair_row(
    kind: EnvelopeKind,
    sum: Seq<i16>,
    balance: Seq<i16>,
    coarse_quant: bool,
    count: int,
) -> Result<(Seq<u32>, Seq<u32>), int>
    decreases count,
{
    if count <= 0 {
        Ok((Seq::empty(), Seq::empty()))
    } else {
        match pair_row(kind, sum, balance, coarse_quant, count - 1) {
            Err(group) => Err(group),
            Ok((left, right)) => match linear_pair(
                kind,
                sum[count - 1],
                balance[count - 1],
                coarse_quant,
            ) {
                None => Err(count - 1),
                Some(value) => Ok((left.push(value.0), right.push(value.1))),
            },
        }
    }
}

/// The first `count` pairs of rows, or the first obstacle: two rows of
/// different lengths, or a value that does not exist.
pub open spec fn pair_rows(
    kind: EnvelopeKind,
    sum: Seq<Seq<i16>>,
    balance: Seq<Seq<i16>>,
    coarse_quant: bool,
    count: int,
) -> Result<(Seq<Seq<u32>>, Seq<Seq<u32>>), DequantError>
    decreases count,
{
    if count <= 0 {
        Ok((Seq::empty(), Seq::empty()))
    } else {
        match pair_rows(kind, sum, balance, coarse_quant, count - 1) {
            Err(error) => Err(error),
            Ok((left, right)) => if sum[count - 1].len() != balance[count - 1].len() {
                Err(DequantError::GridMismatch { kind, envelope: (count - 1) as usize })
            } else {
                match pair_row(
                    kind,
                    sum[count - 1],
                    balance[count - 1],
                    coarse_quant,
                    sum[count - 1].len() as int,
                ) {
                    Err(group) => Err(
                        DequantError::ExponentOutOfRange {
                            kind,
                            envelope: (count - 1) as usize,
                            group: group as usize,
                        },
                    ),
                    Ok((first, second)) => Ok((left.push(first), right.push(second))),
                }
            },
        }
    }
}

/// The linear scale factors of a balanced pair, or why there are none.
pub open spec fn dequantised_pair(
    sum: FactorsView,
    balance: FactorsView,
    coarse_quant: bool,
) -> Result<(ScaleView, ScaleView), DequantError> {
    if sum.sig.len() != balance.sig.len() {
        Err(DequantError::GridMismatch { kind: EnvelopeKind::Signal, envelope: 0 })
    } else if sum.noise.len() != balance.noise.len() || sum.noise_groups != balance.noise_groups {
        Err(DequantError::GridMismatch { kind: EnvelopeKind::Noise, envelope: 0 })
    } else {
        match pair_rows(
            EnvelopeKind::Signal,
            sum.sig,
            balance.sig,
            coarse_quant,
            sum.sig.len() as int,
        ) {
            Err(error) => Err(error),
            Ok((left, right)) => match pair_rows(
                EnvelopeKind::Noise,
                sum.noise,
                balance.noise,
                coarse_quant,
                sum.noise.len() as int,
            ) {
                Err(error) => Err(error),
                Ok((left_noise, right_noise)) => Ok(
                    (
                        ScaleView { sig: left, noise: left_noise },
                        ScaleView { sig: right, noise: right_noise },
                    ),
                ),
            },
        }
    }
}

/// The pattern of `2^n`, where that is a normal number.
pub fn exp2i(n: i32) -> (power: Option<u32>)
    ensures
        power == binary32::half_power(2 * n),
        power matches Some(bits) ==> binary32::is_normal(bits as int),
{
    if n < -126 || n > 127 {
        return None;
    }
    exp2_half(2 * n)
}

/// The pattern of `2^(shift + qscf / a)`, where that is a normal number; `a` is
/// one for the coarse step and two for the fine step.
pub fn exp2_quantised(qscf: i16, coarse_quant: bool, shift: i32) -> (power: Option<u32>)
    ensures
        power == binary32::half_power(2 * shift + in_half_steps(qscf, coarse_quant)),
        power matches Some(bits) ==> binary32::is_normal(bits as int),
{
    let steps: i64 = if coarse_quant {
        2 * (qscf as i64)
    } else {
        qscf as i64
    };
    let half: i64 = 2 * (shift as i64) + steps;
    if half < -252 || half > 255 {
        return None;
    }
    exp2_half(half as i32)
}

/// The linear value of a quantised scale factor.
fn linear_value(kind: EnvelopeKind, quantised: i16, coarse_quant: bool) -> (value: Option<u32>)
    ensures
        value == linear(kind, quantised, coarse_quant),
        value matches Some(bits) ==> binary32::is_normal(bits as int),
{
    match kind {
        EnvelopeKind::Signal => exp2_quantised(quantised, coarse_quant, 6),
        EnvelopeKind::Noise => exp2i(6 - quantised as i32),
    }
}

/// The pattern of `1 + 2^(half / 2)`. A power below the normal numbers leaves
/// no trace.
fn one_plus_exp2_half(half: i32) -> (sum: Option<u32>)
    ensures
        sum == divisor(half as int),
        sum matches Some(bits) ==> binary32::is_normal(bits as int),
{
    if half < -252 {
        return Some(ONE);
    }
    match exp2_half(half) {
        Some(power) => Some(one_plus(power)),
        None => None,
    }
}

/// The divisors of both channels at a pan.
fn pan_denominators(half: i32) -> (divisors: Option<(u32, u32)>)
    requires
        -0x1_0018 <= half <= 0x1_0018,
    ensures
        match divisors {
            Some((first, second)) => {
                &&& divisor(-half) == Some(first)
                &&& divisor(half as int) == Some(second)
                &&& binary32::is_normal(first as int)
                &&& binary32::is_normal(second as int)
            },
            None => divisor(-half) is None || divisor(half as int) is None,
        },
{
    match (one_plus_exp2_half(-half), one_plus_exp2_half(half)) {
        (Some(first), Some(second)) => Some((first, second)),
        _ => None,
    }
}

/// The two shares of a total.
fn divide_total(total: u32, half: i32) -> (result: Option<(u32, u32)>)
    requires
        binary32::is_normal(total as int),
        -0x1_0018 <= half <= 0x1_0018,
    ensures
        result == shares(Some(total), half as int),
        result matches Some((left, right)) ==> binary32::is_normal(left as int)
            && binary32::is_normal(right as int),
{
    match pan_denominators(half) {
        None => None,
        Some((first, second)) => {
            match (divide_normal(total, first), divide_normal(total, second)) {
                (Some(left), Some(right)) => Some((left, right)),
                _ => None,
            }
        },
    }
}

/// The linear values of a pair of quantised scale factors.
fn linear_values(kind: EnvelopeKind, sum: i16, balance: i16, coarse_quant: bool) -> (values: Option<
    (u32, u32),
>)
    ensures
        values == linear_pair(kind, sum, balance, coarse_quant),
        values matches Some((left, right)) ==> binary32::is_normal(left as int)
            && binary32::is_normal(right as int),
{
    let (total, coarse_balance): (Option<u32>, bool) = match kind {
        EnvelopeKind::Signal => (exp2_quantised(sum, coarse_quant, 7), coarse_quant),
        EnvelopeKind::Noise => (exp2i(7 - sum as i32), true),
    };
    let steps: i32 = if coarse_balance {
        2 * (balance as i32)
    } else {
        balance as i32
    };
    match total {
        None => None,
        Some(total) => divide_total(total, steps - 24),
    }
}

proof fn lemma_linear_row_failure_stays(
    kind: EnvelopeKind,
    row: Seq<i16>,
    coarse_quant: bool,
    count: int,
    total: int,
)
    requires
        count <= total,
        linear_row(kind, row, coarse_quant, count) is Err,
    ensures
        linear_row(kind, row, coarse_quant, total) == linear_row(kind, row, coarse_quant, count),
    decreases total - count,
{
    if count < total {
        lemma_linear_row_failure_stays(kind, row, coarse_quant, count, total - 1);
    }
}

proof fn lemma_linear_rows_failure_stays(
    kind: EnvelopeKind,
    rows: Seq<Seq<i16>>,
    coarse_quant: bool,
    count: int,
    total: int,
)
    requires
        count <= total,
        linear_rows(kind, rows, coarse_quant, count) is Err,
    ensures
        linear_rows(kind, rows, coarse_quant, total) == linear_rows(
            kind,
            rows,
            coarse_quant,
            count,
        ),
    decreases total - count,
{
    if count < total {
        lemma_linear_rows_failure_stays(kind, rows, coarse_quant, count, total - 1);
    }
}

proof fn lemma_pair_row_failure_stays(
    kind: EnvelopeKind,
    sum: Seq<i16>,
    balance: Seq<i16>,
    coarse_quant: bool,
    count: int,
    total: int,
)
    requires
        count <= total,
        pair_row(kind, sum, balance, coarse_quant, count) is Err,
    ensures
        pair_row(kind, sum, balance, coarse_quant, total) == pair_row(
            kind,
            sum,
            balance,
            coarse_quant,
            count,
        ),
    decreases total - count,
{
    if count < total {
        lemma_pair_row_failure_stays(kind, sum, balance, coarse_quant, count, total - 1);
    }
}

proof fn lemma_pair_rows_failure_stays(
    kind: EnvelopeKind,
    sum: Seq<Seq<i16>>,
    balance: Seq<Seq<i16>>,
    coarse_quant: bool,
    count: int,
    total: int,
)
    requires
        count <= total,
        pair_rows(kind, sum, balance, coarse_quant, count) is Err,
    ensures
        pair_rows(kind, sum, balance, coarse_quant, total) == pair_rows(
            kind,
            sum,
            balance,
            coarse_quant,
            count,
        ),
    decreases total - count,
{
    if count < total {
        lemma_pair_rows_failure_stays(kind, sum, balance, coarse_quant, count, total - 1);
    }
}

/// The rows of one family.
pub open spec fn rows_of(factors: FactorsView, kind: EnvelopeKind) -> Seq<Seq<i16>> {
    match kind {
        EnvelopeKind::Signal => factors.sig,
        EnvelopeKind::Noise => factors.noise,
    }
}

/// A quantised scale factor of either family.
fn quantised_at(
    factors: &EnvelopeScaleFactors,
    kind: EnvelopeKind,
    env: usize,
    group: usize,
) -> (value: i16)
    requires
        env < rows_of(factors@, kind).len(),
        group < rows_of(factors@, kind)[env as int].len(),
    ensures
        value == rows_of(factors@, kind)[env as int][group as int],
{
    let found: Option<i16> = match kind {
        EnvelopeKind::Signal => factors.sig(env, group),
        EnvelopeKind::Noise => factors.noise(env, group),
    };
    match found {
        Some(value) => value,
        None => 0,
    }
}

/// Number of groups of an envelope of either family.
fn group_count_of(factors: &EnvelopeScaleFactors, kind: EnvelopeKind, env: usize) -> (groups: u8)
    requires
        env < rows_of(factors@, kind).len(),
    ensures
        groups == rows_of(factors@, kind)[env as int].len(),
        groups <= match kind {
            EnvelopeKind::Signal => MAX_SBG_PER_ENVELOPE,
            EnvelopeKind::Noise => NOISE_GROUPS,
        },
{
    match kind {
        EnvelopeKind::Signal => match factors.sig_group_count(env) {
            Some(groups) => groups,
            None => 0,
        },
        EnvelopeKind::Noise => factors.noise_group_count(),
    }
}

/// Makes one envelope linear.
fn fill_row(
    factors: &EnvelopeScaleFactors,
    kind: EnvelopeKind,
    coarse_quant: bool,
    env: usize,
    out: &mut [u32],
) -> (result: Result<(), DequantError>)
    requires
        env < rows_of(factors@, kind).len(),
        rows_of(factors@, kind)[env as int].len() <= old(out)@.len(),
    ensures
        final(out)@.len() == old(out)@.len(),
        match (
            result,
            linear_row(
                kind,
                rows_of(factors@, kind)[env as int],
                coarse_quant,
                rows_of(factors@, kind)[env as int].len() as int,
            ),
        ) {
            (Ok(_), Ok(values)) => final(out)@.take(values.len() as int) == values && values.len()
                == rows_of(factors@, kind)[env as int].len(),
            (Err(error), Err(group)) => error == (DequantError::ExponentOutOfRange {
                kind,
                envelope: env,
                group: group as usize,
            }),
            _ => false,
        },
{
    let groups: usize = group_count_of(factors, kind, env) as usize;
    let ghost row = rows_of(factors@, kind)[env as int];
    let ghost length = out@.len();
    let mut group: usize = 0;
    assert(out@.take(0) =~= Seq::empty());
    while group < groups
        invariant
            group <= groups == row.len() <= length,
            env < rows_of(factors@, kind).len(),
            row == rows_of(factors@, kind)[env as int],
            out@.len() == length == old(out)@.len(),
            linear_row(kind, row, coarse_quant, group as int) == Ok::<Seq<u32>, int>(
                out@.take(group as int),
            ),
        decreases groups - group,
    {
        match linear_value(kind, quantised_at(factors, kind, env, group), coarse_quant) {
            None => {
                proof {
                    lemma_linear_row_failure_stays(
                        kind,
                        row,
                        coarse_quant,
                        group + 1,
                        groups as int,
                    );
                }
                return Err(DequantError::ExponentOutOfRange { kind, envelope: env, group });
            },
            Some(value) => {
                let ghost kept = out@.take(group as int);
                out[group] = value;
                assert(out@.take(group + 1) =~= kept.push(value));
            },
        }
        group = group + 1;
    }
    Ok(())
}

/// Makes one envelope of a balanced pair linear.
fn fill_pair(
    sum: &EnvelopeScaleFactors,
    balance: &EnvelopeScaleFactors,
    kind: EnvelopeKind,
    coarse_quant: bool,
    env: usize,
    left: &mut [u32],
    right: &mut [u32],
) -> (result: Result<(), DequantError>)
    requires
        env < rows_of(sum@, kind).len(),
        env < rows_of(balance@, kind).len(),
        rows_of(sum@, kind)[env as int].len() == rows_of(balance@, kind)[env as int].len(),
        rows_of(sum@, kind)[env as int].len() <= old(left)@.len(),
        rows_of(sum@, kind)[env as int].len() <= old(right)@.len(),
    ensures
        final(left)@.len() == old(left)@.len(),
        final(right)@.len() == old(right)@.len(),
        match (
            result,
            pair_row(
                kind,
                rows_of(sum@, kind)[env as int],
                rows_of(balance@, kind)[env as int],
                coarse_quant,
                rows_of(sum@, kind)[env as int].len() as int,
            ),
        ) {
            (Ok(_), Ok((first, second))) => {
                &&& final(left)@.take(first.len() as int) == first
                &&& final(right)@.take(second.len() as int) == second
                &&& first.len() == rows_of(sum@, kind)[env as int].len()
                &&& second.len() == rows_of(sum@, kind)[env as int].len()
            },
            (Err(error), Err(group)) => error == (DequantError::ExponentOutOfRange {
                kind,
                envelope: env,
                group: group as usize,
            }),
            _ => false,
        },
{
    let groups: usize = group_count_of(sum, kind, env) as usize;
    let ghost row = rows_of(sum@, kind)[env as int];
    let ghost other = rows_of(balance@, kind)[env as int];
    let mut group: usize = 0;
    assert(left@.take(0) =~= Seq::empty());
    assert(right@.take(0) =~= Seq::empty());
    while group < groups
        invariant
            group <= groups == row.len() == other.len(),
            groups <= left@.len() == old(left)@.len(),
            groups <= right@.len() == old(right)@.len(),
            env < rows_of(sum@, kind).len(),
            env < rows_of(balance@, kind).len(),
            row == rows_of(sum@, kind)[env as int],
            other == rows_of(balance@, kind)[env as int],
            pair_row(kind, row, other, coarse_quant, group as int) == Ok::<
                (Seq<u32>, Seq<u32>),
                int,
            >((left@.take(group as int), right@.take(group as int))),
        decreases groups - group,
    {
        match linear_values(
            kind,
            quantised_at(sum, kind, env, group),
            quantised_at(balance, kind, env, group),
            coarse_quant,
        ) {
            None => {
                proof {
                    lemma_pair_row_failure_stays(
                        kind,
                        row,
                        other,
                        coarse_quant,
                        group + 1,
                        groups as int,
                    );
                }
                return Err(DequantError::ExponentOutOfRange { kind, envelope: env, group });
            },
            Some((first, second)) => {
                let ghost kept_left = left@.take(group as int);
                let ghost kept_right = right@.take(group as int);
                left[group] = first;
                right[group] = second;
                assert(left@.take(group + 1) =~= kept_left.push(first));
                assert(right@.take(group + 1) =~= kept_right.push(second));
            },
        }
        group = group + 1;
    }
    Ok(())
}

/// Makes the scale factors of a channel linear. A failure leaves `out` as it
/// was.
pub fn dequantise(
    qscf: &EnvelopeScaleFactors,
    coarse_quant: bool,
    out: &mut ScaleFactors,
) -> (result: Result<(), DequantError>)
    ensures
        match result {
            Ok(_) => dequantised(qscf@, coarse_quant) == Ok::<ScaleView, DequantError>(
                final(out)@,
            ),
            Err(error) => dequantised(qscf@, coarse_quant) == Err::<ScaleView, DequantError>(error)
                && *final(out) == *old(out),
        },
{
    let (num_sig, num_noise): (u8, u8) = qscf.counts();
    let noise_groups: u8 = qscf.noise_group_count();
    let mut sig: [[u32; MAX_SBG_PER_ENVELOPE]; MAX_ATSG_SIG] = [[0; MAX_SBG_PER_ENVELOPE];
        MAX_ATSG_SIG];
    let mut sig_groups: [u8; MAX_ATSG_SIG] = [0; MAX_ATSG_SIG];
    let mut noise: [[u32; NOISE_GROUPS]; MAX_ATSG_NOISE] = [[0; NOISE_GROUPS]; MAX_ATSG_NOISE];
    let ghost sig_kind = EnvelopeKind::Signal;
    let ghost noise_kind = EnvelopeKind::Noise;
    let ghost mut rows: Seq<Seq<u32>> = Seq::empty();
    let mut env: usize = 0;
    while env < num_sig as usize
        invariant
            env <= num_sig == qscf@.sig.len() <= MAX_ATSG_SIG,
            *out == *old(out),
            sig_kind == EnvelopeKind::Signal,
            rows.len() == env,
            linear_rows(sig_kind, qscf@.sig, coarse_quant, env as int) == Ok::<
                Seq<Seq<u32>>,
                DequantError,
            >(rows),
            forall|e: int|
                0 <= e < env ==> {
                    &&& #[trigger] sig_groups@[e] <= MAX_SBG_PER_ENVELOPE
                    &&& sig@[e]@.take(sig_groups@[e] as int) == rows[e]
                },
        decreases num_sig - env,
    {
        let groups: u8 = group_count_of(qscf, EnvelopeKind::Signal, env);
        let mut row: [u32; MAX_SBG_PER_ENVELOPE] = [0; MAX_SBG_PER_ENVELOPE];
        match fill_row(qscf, EnvelopeKind::Signal, coarse_quant, env, &mut row) {
            Ok(_) => {},
            Err(error) => {
                proof {
                    lemma_linear_rows_failure_stays(
                        sig_kind,
                        qscf@.sig,
                        coarse_quant,
                        env + 1,
                        num_sig as int,
                    );
                }
                return Err(error);
            },
        }
        let ghost sig_before = sig@;
        let ghost groups_before = sig_groups@;
        let ghost rows_before = rows;
        sig[env] = row;
        sig_groups[env] = groups;
        proof {
            rows = rows.push(row@.take(groups as int));
            assert forall|e: int| 0 <= e <= env implies {
                &&& #[trigger] sig_groups@[e] <= MAX_SBG_PER_ENVELOPE
                &&& sig@[e]@.take(sig_groups@[e] as int) == rows[e]
            } by {
                if e < env {
                    assert(sig_groups@[e] == groups_before[e]);
                    assert(sig@[e] == sig_before[e]);
                    assert(rows[e] == rows_before[e]);
                }
            }
        }
        env = env + 1;
    }
    let ghost mut noise_rows: Seq<Seq<u32>> = Seq::empty();
    env = 0;
    while env < num_noise as usize
        invariant
            env <= num_noise == qscf@.noise.len() <= MAX_ATSG_NOISE,
            noise_groups <= NOISE_GROUPS,
            forall|e: int|
                0 <= e < qscf@.noise.len() ==> (#[trigger] qscf@.noise[e]).len() == noise_groups,
            *out == *old(out),
            noise_kind == EnvelopeKind::Noise,
            num_sig == qscf@.sig.len(),
            linear_rows(EnvelopeKind::Signal, qscf@.sig, coarse_quant, num_sig as int) == Ok::<
                Seq<Seq<u32>>,
                DequantError,
            >(rows),
            noise_rows.len() == env,
            linear_rows(noise_kind, qscf@.noise, coarse_quant, env as int) == Ok::<
                Seq<Seq<u32>>,
                DequantError,
            >(noise_rows),
            forall|e: int|
                0 <= e < env ==> #[trigger] noise@[e]@.take(noise_groups as int) == noise_rows[e],
        decreases num_noise - env,
    {
        let mut row: [u32; NOISE_GROUPS] = [0; NOISE_GROUPS];
        match fill_row(qscf, EnvelopeKind::Noise, coarse_quant, env, &mut row) {
            Ok(_) => {},
            Err(error) => {
                proof {
                    lemma_linear_rows_failure_stays(
                        noise_kind,
                        qscf@.noise,
                        coarse_quant,
                        env + 1,
                        num_noise as int,
                    );
                }
                return Err(error);
            },
        }
        let ghost noise_before = noise@;
        let ghost rows_before = noise_rows;
        noise[env] = row;
        proof {
            noise_rows = noise_rows.push(row@.take(noise_groups as int));
            assert forall|e: int| 0 <= e <= env implies #[trigger] noise@[e]@.take(
                noise_groups as int,
            ) == noise_rows[e] by {
                if e < env {
                    assert(noise@[e] == noise_before[e]);
                    assert(noise_before[e]@.take(noise_groups as int) == rows_before[e]);
                    assert(noise_rows[e] == rows_before[e]);
                }
            }
        }
        env = env + 1;
    }
    let filled = ScaleFactors { sig, sig_groups, num_sig, noise, noise_groups, num_noise };
    proof {
        assert forall|e: int| 0 <= e < rows.len() implies #[trigger] filled@.sig[e] == rows[e] by {
            assert(sig_groups@[e] <= MAX_SBG_PER_ENVELOPE);
        }
        assert(filled@.sig =~= rows);
        assert forall|e: int| 0 <= e < noise_rows.len() implies #[trigger] filled@.noise[e]
            == noise_rows[e] by {
            assert(noise@[e]@.take(noise_groups as int) == noise_rows[e]);
        }
        assert(filled@.noise =~= noise_rows);
    }
    *out = filled;
    Ok(())
}

/// The signal envelopes of a balanced pair, made linear.
struct SignalPair {
    left: [[u32; MAX_SBG_PER_ENVELOPE]; MAX_ATSG_SIG],
    right: [[u32; MAX_SBG_PER_ENVELOPE]; MAX_ATSG_SIG],
    groups: [u8; MAX_ATSG_SIG],
}

/// The noise envelopes of a balanced pair, made linear.
struct NoisePair {
    left: [[u32; NOISE_GROUPS]; MAX_ATSG_NOISE],
    right: [[u32; NOISE_GROUPS]; MAX_ATSG_NOISE],
}

/// Makes the signal envelopes of a balanced pair linear.
fn signal_pair(
    sum: &EnvelopeScaleFactors,
    balance: &EnvelopeScaleFactors,
    coarse_quant: bool,
    num_sig: usize,
) -> (result: Result<SignalPair, DequantError>)
    requires
        num_sig == sum@.sig.len() == balance@.sig.len() <= MAX_ATSG_SIG,
    ensures
        match (
            result,
            pair_rows(
                EnvelopeKind::Signal,
                sum@.sig,
                balance@.sig,
                coarse_quant,
                num_sig as int,
            ),
        ) {
            (Ok(pair), Ok((left, right))) => {
                &&& left.len() == num_sig && right.len() == num_sig
                &&& forall|e: int|
                    0 <= e < num_sig ==> {
                        &&& #[trigger] pair.groups@[e] <= MAX_SBG_PER_ENVELOPE
                        &&& pair.left@[e]@.take(pair.groups@[e] as int) == left[e]
                        &&& pair.right@[e]@.take(pair.groups@[e] as int) == right[e]
                    }
            },
            (Err(error), Err(expected)) => error == expected,
            _ => false,
        },
{
    let mut pair = SignalPair {
        left: [[0; MAX_SBG_PER_ENVELOPE]; MAX_ATSG_SIG],
        right: [[0; MAX_SBG_PER_ENVELOPE]; MAX_ATSG_SIG],
        groups: [0; MAX_ATSG_SIG],
    };
    let ghost kind = EnvelopeKind::Signal;
    let ghost mut rows: (Seq<Seq<u32>>, Seq<Seq<u32>>) = (Seq::empty(), Seq::empty());
    let mut env: usize = 0;
    while env < num_sig
        invariant
            env <= num_sig == sum@.sig.len() == balance@.sig.len() <= MAX_ATSG_SIG,
            kind == EnvelopeKind::Signal,
            rows.0.len() == env,
            rows.1.len() == env,
            pair_rows(kind, sum@.sig, balance@.sig, coarse_quant, env as int) == Ok::<
                (Seq<Seq<u32>>, Seq<Seq<u32>>),
                DequantError,
            >(rows),
            forall|e: int|
                0 <= e < env ==> {
                    &&& #[trigger] pair.groups@[e] <= MAX_SBG_PER_ENVELOPE
                    &&& pair.left@[e]@.take(pair.groups@[e] as int) == rows.0[e]
                    &&& pair.right@[e]@.take(pair.groups@[e] as int) == rows.1[e]
                },
        decreases num_sig - env,
    {
        let groups: u8 = group_count_of(sum, EnvelopeKind::Signal, env);
        if groups != group_count_of(balance, EnvelopeKind::Signal, env) {
            proof {
                lemma_pair_rows_failure_stays(
                    kind,
                    sum@.sig,
                    balance@.sig,
                    coarse_quant,
                    env + 1,
                    num_sig as int,
                );
            }
            return Err(DequantError::GridMismatch { kind: EnvelopeKind::Signal, envelope: env });
        }
        let mut left: [u32; MAX_SBG_PER_ENVELOPE] = [0; MAX_SBG_PER_ENVELOPE];
        let mut right: [u32; MAX_SBG_PER_ENVELOPE] = [0; MAX_SBG_PER_ENVELOPE];
        match fill_pair(
            sum,
            balance,
            EnvelopeKind::Signal,
            coarse_quant,
            env,
            &mut left,
            &mut right,
        ) {
            Ok(_) => {},
            Err(error) => {
                proof {
                    lemma_pair_rows_failure_stays(
                        kind,
                        sum@.sig,
                        balance@.sig,
                        coarse_quant,
                        env + 1,
                        num_sig as int,
                    );
                }
                return Err(error);
            },
        }
        let ghost pair_before = pair;
        let ghost rows_before = rows;
        pair.left[env] = left;
        pair.right[env] = right;
        pair.groups[env] = groups;
        proof {
            rows = (
                rows.0.push(left@.take(groups as int)),
                rows.1.push(right@.take(groups as int)),
            );
            assert forall|e: int| 0 <= e <= env implies {
                &&& #[trigger] pair.groups@[e] <= MAX_SBG_PER_ENVELOPE
                &&& pair.left@[e]@.take(pair.groups@[e] as int) == rows.0[e]
                &&& pair.right@[e]@.take(pair.groups@[e] as int) == rows.1[e]
            } by {
                if e < env {
                    assert(pair.groups@[e] == pair_before.groups@[e]);
                    assert(pair.left@[e] == pair_before.left@[e]);
                    assert(pair.right@[e] == pair_before.right@[e]);
                    assert(rows.0[e] == rows_before.0[e]);
                    assert(rows.1[e] == rows_before.1[e]);
                }
            }
        }
        env = env + 1;
    }
    Ok(pair)
}

/// Makes the noise envelopes of a balanced pair linear.
fn noise_pair(
    sum: &EnvelopeScaleFactors,
    balance: &EnvelopeScaleFactors,
    coarse_quant: bool,
    num_noise: usize,
    groups: u8,
) -> (result: Result<NoisePair, DequantError>)
    requires
        num_noise == sum@.noise.len() == balance@.noise.len() <= MAX_ATSG_NOISE,
        groups <= NOISE_GROUPS,
        forall|e: int| 0 <= e < num_noise ==> (#[trigger] sum@.noise[e]).len() == groups,
        forall|e: int| 0 <= e < num_noise ==> (#[trigger] balance@.noise[e]).len() == groups,
    ensures
        match (
            result,
            pair_rows(
                EnvelopeKind::Noise,
                sum@.noise,
                balance@.noise,
                coarse_quant,
                num_noise as int,
            ),
        ) {
            (Ok(pair), Ok((left, right))) => {
                &&& left.len() == num_noise && right.len() == num_noise
                &&& forall|e: int|
                    0 <= e < num_noise ==> #[trigger] pair.left@[e]@.take(groups as int) == left[e]
                &&& forall|e: int|
                    0 <= e < num_noise ==> #[trigger] pair.right@[e]@.take(groups as int)
                        == right[e]
            },
            (Err(error), Err(expected)) => error == expected,
            _ => false,
        },
{
    let mut pair = NoisePair {
        left: [[0; NOISE_GROUPS]; MAX_ATSG_NOISE],
        right: [[0; NOISE_GROUPS]; MAX_ATSG_NOISE],
    };
    let ghost kind = EnvelopeKind::Noise;
    let ghost mut rows: (Seq<Seq<u32>>, Seq<Seq<u32>>) = (Seq::empty(), Seq::empty());
    let mut env: usize = 0;
    while env < num_noise
        invariant
            env <= num_noise == sum@.noise.len() == balance@.noise.len() <= MAX_ATSG_NOISE,
            groups <= NOISE_GROUPS,
            forall|e: int| 0 <= e < num_noise ==> (#[trigger] sum@.noise[e]).len() == groups,
            forall|e: int| 0 <= e < num_noise ==> (#[trigger] balance@.noise[e]).len() == groups,
            kind == EnvelopeKind::Noise,
            rows.0.len() == env,
            rows.1.len() == env,
            pair_rows(kind, sum@.noise, balance@.noise, coarse_quant, env as int) == Ok::<
                (Seq<Seq<u32>>, Seq<Seq<u32>>),
                DequantError,
            >(rows),
            forall|e: int|
                0 <= e < env ==> #[trigger] pair.left@[e]@.take(groups as int) == rows.0[e],
            forall|e: int|
                0 <= e < env ==> #[trigger] pair.right@[e]@.take(groups as int) == rows.1[e],
        decreases num_noise - env,
    {
        let mut left: [u32; NOISE_GROUPS] = [0; NOISE_GROUPS];
        let mut right: [u32; NOISE_GROUPS] = [0; NOISE_GROUPS];
        match fill_pair(
            sum,
            balance,
            EnvelopeKind::Noise,
            coarse_quant,
            env,
            &mut left,
            &mut right,
        ) {
            Ok(_) => {},
            Err(error) => {
                proof {
                    lemma_pair_rows_failure_stays(
                        kind,
                        sum@.noise,
                        balance@.noise,
                        coarse_quant,
                        env + 1,
                        num_noise as int,
                    );
                }
                return Err(error);
            },
        }
        let ghost pair_before = pair;
        let ghost rows_before = rows;
        pair.left[env] = left;
        pair.right[env] = right;
        proof {
            rows = (
                rows.0.push(left@.take(groups as int)),
                rows.1.push(right@.take(groups as int)),
            );
            assert forall|e: int| 0 <= e <= env implies #[trigger] pair.left@[e]@.take(
                groups as int,
            ) == rows.0[e] by {
                if e < env {
                    assert(pair.left@[e] == pair_before.left@[e]);
                    assert(pair_before.left@[e]@.take(groups as int) == rows_before.0[e]);
                    assert(rows.0[e] == rows_before.0[e]);
                }
            }
            assert forall|e: int| 0 <= e <= env implies #[trigger] pair.right@[e]@.take(
                groups as int,
            ) == rows.1[e] by {
                if e < env {
                    assert(pair.right@[e] == pair_before.right@[e]);
                    assert(pair_before.right@[e]@.take(groups as int) == rows_before.1[e]);
                    assert(rows.1[e] == rows_before.1[e]);
                }
            }
        }
        env = env + 1;
    }
    Ok(pair)
}

/// Makes the scale factors of a balanced pair linear: `sum` gives the totals
/// and `balance` divides them. A failure leaves the outputs as they were.
pub fn dequantise_pair(
    sum: &EnvelopeScaleFactors,
    balance: &EnvelopeScaleFactors,
    coarse_quant: bool,
    out_sum: &mut ScaleFactors,
    out_balance: &mut ScaleFactors,
) -> (result: Result<(), DequantError>)
    ensures
        match result {
            Ok(_) => dequantised_pair(sum@, balance@, coarse_quant) == Ok::<
                (ScaleView, ScaleView),
                DequantError,
            >((final(out_sum)@, final(out_balance)@)),
            Err(error) => {
                &&& dequantised_pair(sum@, balance@, coarse_quant) == Err::<
                    (ScaleView, ScaleView),
                    DequantError,
                >(error)
                &&& *final(out_sum) == *old(out_sum)
                &&& *final(out_balance) == *old(out_balance)
            },
        },
{
    let (num_sig, num_noise): (u8, u8) = sum.counts();
    let (balance_sig, balance_noise): (u8, u8) = balance.counts();
    let noise_groups: u8 = sum.noise_group_count();
    if num_sig != balance_sig {
        return Err(DequantError::GridMismatch { kind: EnvelopeKind::Signal, envelope: 0 });
    }
    if num_noise != balance_noise || noise_groups != balance.noise_group_count() {
        return Err(DequantError::GridMismatch { kind: EnvelopeKind::Noise, envelope: 0 });
    }
    let signal = signal_pair(sum, balance, coarse_quant, num_sig as usize)?;
    let noise = noise_pair(sum, balance, coarse_quant, num_noise as usize, noise_groups)?;
    let first = ScaleFactors {
        sig: signal.left,
        sig_groups: signal.groups,
        num_sig,
        noise: noise.left,
        noise_groups,
        num_noise,
    };
    let second = ScaleFactors {
        sig: signal.right,
        sig_groups: signal.groups,
        num_sig,
        noise: noise.right,
        noise_groups,
        num_noise,
    };
    proof {
        let sig_rows = pair_rows(
            EnvelopeKind::Signal,
            sum@.sig,
            balance@.sig,
            coarse_quant,
            num_sig as int,
        )->Ok_0;
        let noise_rows = pair_rows(
            EnvelopeKind::Noise,
            sum@.noise,
            balance@.noise,
            coarse_quant,
            num_noise as int,
        )->Ok_0;
        assert forall|e: int| 0 <= e < num_sig implies #[trigger] first@.sig[e] == sig_rows.0[e]
            && #[trigger] second@.sig[e] == sig_rows.1[e] by {
            assert(signal.groups@[e] <= MAX_SBG_PER_ENVELOPE);
        }
        assert forall|e: int| 0 <= e < num_noise implies #[trigger] first@.noise[e]
            == noise_rows.0[e] && #[trigger] second@.noise[e] == noise_rows.1[e] by {
            assert(noise.left@[e]@.take(noise_groups as int) == noise_rows.0[e]);
            assert(noise.right@[e]@.take(noise_groups as int) == noise_rows.1[e]);
        }
        assert(first@.sig =~= sig_rows.0);
        assert(second@.sig =~= sig_rows.1);
        assert(first@.noise =~= noise_rows.0);
        assert(second@.noise =~= noise_rows.1);
    }
    *out_sum = first;
    *out_balance = second;
    Ok(())
}

/// The divisors never fall below one, and are normal.
proof fn lemma_divisor_range(half: int)
    requires
        divisor(half) is Some,
    ensures
        ONE <= divisor(half)->0,
        binary32::is_normal(divisor(half)->0 as int),
        half >= -252 ==> divisor(half)->0 == binary32::one_more(
            binary32::half_power(half)->0 as int,
        ),
{
    if half >= -252 {
        let power = binary32::half_power(half)->0 as int;
        binary32::lemma_one_more_range(power);
    }
}

/// The divisors grow with the exponent.
proof fn lemma_divisors_grow(half: int, other: int)
    requires
        half <= other,
        divisor(half) is Some,
        divisor(other) is Some,
    ensures
        divisor(half)->0 <= divisor(other)->0,
{
    lemma_divisor_range(half);
    lemma_divisor_range(other);
    if half >= -252 {
        if half < other {
            binary32::lemma_half_steps_increase(half, other);
        }
        binary32::lemma_one_more_is_monotone(
            binary32::half_power(half)->0 as int,
            binary32::half_power(other)->0 as int,
        );
    }
}

/// A greater balance value moves the total from the second channel to the
/// first, and never back.
pub proof fn lemma_balance_moves_monotonically(total: u32, half: int, other: int)
    requires
        binary32::is_normal(total as int),
        half <= other,
        shares(Some(total), half) is Some,
        shares(Some(total), other) is Some,
    ensures
        (shares(Some(total), half)->0).0 <= (shares(Some(total), other)->0).0,
        (shares(Some(total), half)->0).1 >= (shares(Some(total), other)->0).1,
{
    lemma_divisor_range(half);
    lemma_divisor_range(-half);
    lemma_divisor_range(other);
    lemma_divisor_range(-other);
    lemma_divisors_grow(half, other);
    lemma_divisors_grow(-other, -half);
    binary32::lemma_quotient_is_antitone(
        total as int,
        divisor(-other)->0 as int,
        divisor(-half)->0 as int,
    );
    binary32::lemma_quotient_is_antitone(
        total as int,
        divisor(half)->0 as int,
        divisor(other)->0 as int,
    );
}

/// At the centre both channels get the same share, and mirrored balance values
/// give mirrored shares.
pub proof fn lemma_balance_is_symmetric(total: Option<u32>, half: int)
    ensures
        shares(total, 0) matches Some((left, right)) ==> left == right,
        shares(total, half) matches Some((left, right)) ==> shares(total, -half) == Some(
            (right, left),
        ),
{
}

/// Whether two shares add up to a total, up to a part in `2^20`.
pub open spec fn adds_up(left: int, right: int, total: int) -> bool {
    -total <= 0x10_0000 * (left + right - total) <= total
}

/// Shares by `1 + x` and `1 + 1 / x` add up, however the parts were rounded.
proof fn lemma_rounded_shares_add_up(
    left: int,
    right: int,
    total: int,
    one: int,
    x: int,
    y: int,
    first: int,
    second: int,
)
    requires
        0 <= left,
        0 <= right,
        0 < total,
        0 < one,
        0 < x,
        0 < y,
        binary32::close(left * first, total * one),
        binary32::close(right * second, total * one),
        binary32::close(first, one + x),
        binary32::close(second, one + y),
        binary32::close(x * y, one * one),
    ensures
        adds_up(left, right, total),
{
    let p = one + x;
    let q = one + y;
    let t = total * one;
    let both = left + right;
    assert(p > 0 && q > 0);
    // The product of the exact divisors.
    let product = p * q;
    let square = one * one;
    assert(product >= square && square > 0) by (nonlinear_arith)
        requires
            product == p * q,
            square == one * one,
            p >= one,
            q >= one,
            one > 0,
    ;
    let cross = one * (p + q);
    assert(cross == product + square - x * y) by (nonlinear_arith)
        requires
            p == one + x,
            q == one + y,
            product == p * q,
            square == one * one,
            cross == one * (p + q),
    ;
    assert(0x7f_ffff * product <= 0x80_0000 * cross <= 0x80_0001 * product);
    let lp = left * p;
    let rq = right * q;
    assert(lp * q == left * product) by (nonlinear_arith)
        requires
            lp == left * p,
            product == p * q,
    ;
    assert(rq * p == right * product) by (nonlinear_arith)
        requires
            rq == right * q,
            product == p * q,
    ;
    assert(both * product == lp * q + rq * p) by (nonlinear_arith)
        requires
            both == left + right,
            lp * q == left * product,
            rq * p == right * product,
    ;
    let sum = both * product;
    let parts = t * q + t * p;
    assert(parts == total * cross) by (nonlinear_arith)
        requires
            parts == t * q + t * p,
            t == total * one,
            cross == one * (p + q),
    ;
    let whole = total * product;
    // Upper bound.
    assert(0x7f_ffff * lp <= 0x80_0001 * t) by (nonlinear_arith)
        requires
            0 <= left,
            lp == left * p,
            0x7f_ffff * p <= 0x80_0000 * first,
            0x80_0000 * (left * first) <= 0x80_0001 * t,
    ;
    assert(0x7f_ffff * rq <= 0x80_0001 * t) by (nonlinear_arith)
        requires
            0 <= right,
            rq == right * q,
            0x7f_ffff * q <= 0x80_0000 * second,
            0x80_0000 * (right * second) <= 0x80_0001 * t,
    ;
    assert(0x7f_ffff * (lp * q) <= 0x80_0001 * (t * q)) by (nonlinear_arith)
        requires
            0x7f_ffff * lp <= 0x80_0001 * t,
            q > 0,
    ;
    assert(0x7f_ffff * (rq * p) <= 0x80_0001 * (t * p)) by (nonlinear_arith)
        requires
            0x7f_ffff * rq <= 0x80_0001 * t,
            p > 0,
    ;
    assert(0x80_0000 * (total * cross) <= 0x80_0001 * whole) by (nonlinear_arith)
        requires
            0x80_0000 * cross <= 0x80_0001 * product,
            whole == total * product,
            total > 0,
    ;
    assert(0x3fff_ff80_0000 * sum <= 0x4000_0100_0001 * whole);
    assert(0x3fff_ff80_0000 * both <= 0x4000_0100_0001 * total) by (nonlinear_arith)
        requires
            0x3fff_ff80_0000 * sum <= 0x4000_0100_0001 * whole,
            sum == both * product,
            whole == total * product,
            product > 0,
    ;
    // Lower bound.
    assert(0x80_0001 * lp >= 0x7f_ffff * t) by (nonlinear_arith)
        requires
            0 <= left,
            lp == left * p,
            0x80_0001 * p >= 0x80_0000 * first,
            0x80_0000 * (left * first) >= 0x7f_ffff * t,
    ;
    assert(0x80_0001 * rq >= 0x7f_ffff * t) by (nonlinear_arith)
        requires
            0 <= right,
            rq == right * q,
            0x80_0001 * q >= 0x80_0000 * second,
            0x80_0000 * (right * second) >= 0x7f_ffff * t,
    ;
    assert(0x80_0001 * (lp * q) >= 0x7f_ffff * (t * q)) by (nonlinear_arith)
        requires
            0x80_0001 * lp >= 0x7f_ffff * t,
            q > 0,
    ;
    assert(0x80_0001 * (rq * p) >= 0x7f_ffff * (t * p)) by (nonlinear_arith)
        requires
            0x80_0001 * rq >= 0x7f_ffff * t,
            p > 0,
    ;
    assert(0x80_0000 * (total * cross) >= 0x7f_ffff * whole) by (nonlinear_arith)
        requires
            0x80_0000 * cross >= 0x7f_ffff * product,
            whole == total * product,
            total > 0,
    ;
    assert(0x4000_0080_0000 * sum >= 0x3fff_ff00_0001 * whole);
    assert(0x4000_0080_0000 * both >= 0x3fff_ff00_0001 * total) by (nonlinear_arith)
        requires
            0x4000_0080_0000 * sum >= 0x3fff_ff00_0001 * whole,
            sum == both * product,
            whole == total * product,
            product > 0,
    ;
}

proof fn lemma_value_positive(bits: int)
    requires
        binary32::is_normal(bits),
    ensures
        binary32::value(bits) > 0,
{
    let exponent = (binary32::unit_exponent(bits) + 149) as nat;
    vstd::arithmetic::power2::lemma_pow2_pos(exponent);
    assert(binary32::significand(bits) * vstd::arithmetic::power2::pow2(exponent) > 0)
        by (nonlinear_arith)
        requires
            binary32::significand(bits) > 0,
            vstd::arithmetic::power2::pow2(exponent) > 0,
    ;
}

/// Far from the centre one channel gets next to nothing.
proof fn lemma_far_share(total: u32, half: int)
    requires
        binary32::is_normal(total as int),
        half > 252,
        shares(Some(total), half) is Some,
    ensures
        adds_up(
            binary32::value((shares(Some(total), half)->0).0 as int),
            binary32::value((shares(Some(total), half)->0).1 as int),
            binary32::value(total as int),
        ),
{
    let (left, right) = shares(Some(total), half)->0;
    let one = binary32::value(ONE as int);
    let t = binary32::value(total as int);
    let l = binary32::value(left as int);
    let r = binary32::value(right as int);
    let power = binary32::half_power(half)->0 as int;
    let d = binary32::value(divisor(half)->0 as int);
    let x = binary32::value(power);
    lemma_divisor_range(half);
    lemma_value_positive(ONE as int);
    lemma_value_positive(total as int);
    lemma_value_positive(left as int);
    lemma_value_positive(right as int);
    binary32::lemma_quotient_is_close(total as int, ONE as int);
    binary32::lemma_quotient_is_close(total as int, divisor(half)->0 as int);
    binary32::lemma_sum_is_close(power);
    binary32::lemma_close_scaled(l, t, one);
    // The power is far greater than one.
    assert(x >= 0x100_0000 * one) by {
        let high = (binary32::unit_exponent(power) + 149) as nat;
        let base = (binary32::unit_exponent(ONE as int) + 149) as nat;
        assert(high >= base + 24);
        vstd::arithmetic::power2::lemma2_to64();
        vstd::arithmetic::power2::lemma_pow2_adds(base, 24);
        binary32::lemma_pow2_at_least(base + 24, high);
        let unit = vstd::arithmetic::power2::pow2(base);
        let wide = vstd::arithmetic::power2::pow2(high);
        assert(wide >= 0x100_0000 * unit) by (nonlinear_arith)
            requires
                wide >= unit * 0x100_0000,
        ;
        assert(binary32::significand(ONE as int) == 0x80_0000);
        assert(one == 0x80_0000 * unit);
        let own = binary32::significand(power);
        assert(x == own * wide);
        assert(own * wide >= 0x8000_0000_0000 * unit) by (nonlinear_arith)
            requires
                own >= 0x80_0000,
                wide >= 0x100_0000 * unit,
                unit >= 0,
        ;
        assert(0x100_0000 * one == 0x8000_0000_0000 * unit) by (nonlinear_arith)
            requires
                one == 0x80_0000 * unit,
        ;
        assert(x >= 0x8000_0000_0000 * unit);
    }
    assert(d >= 0x80_0000 * one);
    assert(0x40_0000 * r <= t) by (nonlinear_arith)
        requires
            0x80_0000 * (r * d) <= 0x80_0001 * (t * one),
            d >= 0x80_0000 * one,
            r > 0,
            t > 0,
            one > 0,
    ;
}

/// The shares of a total add up to it, up to a part in `2^20`: the second
/// channel only decides how the energy is divided.
pub proof fn lemma_shares_conserve_the_total(total: u32, half: int)
    requires
        binary32::is_normal(total as int),
        shares(Some(total), half) is Some,
    ensures
        adds_up(
            binary32::value((shares(Some(total), half)->0).0 as int),
            binary32::value((shares(Some(total), half)->0).1 as int),
            binary32::value(total as int),
        ),
{
    if half > 252 {
        lemma_far_share(total, half);
    } else if half < -252 {
        lemma_balance_is_symmetric(Some(total), half);
        lemma_far_share(total, -half);
    } else {
        let (left, right) = shares(Some(total), half)->0;
        let power = binary32::half_power(half)->0 as int;
        let inverse = binary32::half_power(-half)->0 as int;
        lemma_divisor_range(half);
        lemma_divisor_range(-half);
        lemma_value_positive(ONE as int);
        lemma_value_positive(total as int);
        lemma_value_positive(left as int);
        lemma_value_positive(right as int);
        lemma_value_positive(power);
        lemma_value_positive(inverse);
        binary32::lemma_quotient_is_close(total as int, divisor(-half)->0 as int);
        binary32::lemma_quotient_is_close(total as int, divisor(half)->0 as int);
        binary32::lemma_sum_is_close(power);
        binary32::lemma_sum_is_close(inverse);
        binary32::lemma_inverse_powers_are_close(-half);
        lemma_rounded_shares_add_up(
            binary32::value(left as int),
            binary32::value(right as int),
            binary32::value(total as int),
            binary32::value(ONE as int),
            binary32::value(inverse),
            binary32::value(power),
            binary32::value(divisor(-half)->0 as int),
            binary32::value(divisor(half)->0 as int),
        );
    }
}

proof fn lemma_linear_row_is_normal(
    kind: EnvelopeKind,
    row: Seq<i16>,
    coarse_quant: bool,
    count: int,
)
    requires
        count >= 0,
    ensures
        linear_row(kind, row, coarse_quant, count) matches Ok(values) ==> {
            &&& values.len() == count
            &&& forall|sbg: int|
                0 <= sbg < count ==> binary32::is_normal(#[trigger] values[sbg] as int) && Some(
                    values[sbg],
                ) == linear(kind, row[sbg], coarse_quant)
        },
    decreases count,
{
    if count > 0 {
        lemma_linear_row_is_normal(kind, row, coarse_quant, count - 1);
    }
}

/// Every linear scale factor of a channel is a positive normal number: the
/// power that its quantised value asks for. There are as many as quantised
/// ones.
pub proof fn lemma_factors_are_positive(
    kind: EnvelopeKind,
    rows: Seq<Seq<i16>>,
    coarse_quant: bool,
    count: int,
)
    requires
        0 <= count <= rows.len(),
    ensures
        linear_rows(kind, rows, coarse_quant, count) matches Ok(values) ==> {
            &&& values.len() == count
            &&& all_normal(values)
            &&& forall|env: int, sbg: int|
                0 <= env < count && 0 <= sbg < values[env].len() ==> Some(
                    #[trigger] values[env][sbg],
                ) == linear(kind, rows[env][sbg], coarse_quant)
            &&& forall|env: int|
                0 <= env < count ==> (#[trigger] values[env]).len() == rows[env].len()
        },
    decreases count,
{
    if count > 0 {
        lemma_factors_are_positive(kind, rows, coarse_quant, count - 1);
        lemma_linear_row_is_normal(
            kind,
            rows[count - 1],
            coarse_quant,
            rows[count - 1].len() as int,
        );
    }
}

proof fn lemma_pair_row_cells(
    kind: EnvelopeKind,
    sum: Seq<i16>,
    balance: Seq<i16>,
    coarse_quant: bool,
    count: int,
)
    requires
        count >= 0,
    ensures
        pair_row(kind, sum, balance, coarse_quant, count) matches Ok((left, right)) ==> {
            &&& left.len() == count
            &&& right.len() == count
            &&& forall|sbg: int|
                0 <= sbg < count ==> Some((#[trigger] left[sbg], right[sbg])) == linear_pair(
                    kind,
                    sum[sbg],
                    balance[sbg],
                    coarse_quant,
                )
        },
    decreases count,
{
    if count > 0 {
        lemma_pair_row_cells(kind, sum, balance, coarse_quant, count - 1);
    }
}

/// Every scale factor of a balanced pair is what its quantised total and
/// balance ask for.
pub proof fn lemma_pair_factors(
    kind: EnvelopeKind,
    sum: Seq<Seq<i16>>,
    balance: Seq<Seq<i16>>,
    coarse_quant: bool,
    count: int,
)
    requires
        0 <= count <= sum.len(),
    ensures
        pair_rows(kind, sum, balance, coarse_quant, count) matches Ok((left, right)) ==> {
            &&& left.len() == count
            &&& right.len() == count
            &&& forall|env: int|
                0 <= env < count ==> (#[trigger] left[env]).len() == sum[env].len()
                    == right[env].len()
            &&& forall|env: int, sbg: int|
                0 <= env < count && 0 <= sbg < left[env].len() ==> Some(
                    (#[trigger] left[env][sbg], right[env][sbg]),
                ) == linear_pair(kind, sum[env][sbg], balance[env][sbg], coarse_quant)
        },
    decreases count,
{
    if count > 0 {
        lemma_pair_factors(kind, sum, balance, coarse_quant, count - 1);
        lemma_pair_row_cells(
            kind,
            sum[count - 1],
            balance[count - 1],
            coarse_quant,
            sum[count - 1].len() as int,
        );
    }
}

/// The scale factors of a balanced pair add up to twice the scale factor that
/// the total alone would give, up to a part in `2^20`.
pub proof fn lemma_pair_conserves_energy(
    kind: EnvelopeKind,
    sum: i16,
    balance: i16,
    coarse_quant: bool,
)
    requires
        linear_pair(kind, sum, balance, coarse_quant) is Some,
        linear(kind, sum, coarse_quant) is Some,
    ensures
        adds_up(
            binary32::value((linear_pair(kind, sum, balance, coarse_quant)->0).0 as int),
            binary32::value((linear_pair(kind, sum, balance, coarse_quant)->0).1 as int),
            2 * binary32::value(linear(kind, sum, coarse_quant)->0 as int),
        ),
{
    let half = twice_exponent(kind, sum, coarse_quant, 0);
    let total = binary32::half_power(half + 2)->0;
    assert(twice_exponent(kind, sum, coarse_quant, 1) == half + 2);
    binary32::lemma_two_half_steps_double(half);
    lemma_shares_conserve_the_total(total, pan(kind, balance, coarse_quant));
    let single = binary32::half_power(half)->0 as int;
    let exponent = (binary32::unit_exponent(single) + 149) as nat;
    vstd::arithmetic::power2::lemma_pow2_unfold(exponent + 1);
    let unit = vstd::arithmetic::power2::pow2(exponent);
    let own = binary32::significand(single);
    assert(own * (2 * unit) == 2 * (own * unit)) by (nonlinear_arith);
}

/// What the linear value of a signal scale factor is. With the coarse step it is
/// 64 times the power of two of the quantised value. With the fine step two
/// quantised steps double it, and an odd one adds a factor of the square root of
/// two, to the nearest significand. It exists exactly where it is a normal
/// number.
pub proof fn lemma_linear_signal(quantised: i16)
    ensures
        linear(EnvelopeKind::Signal, quantised, true) is Some <==> -132 <= quantised <= 121,
        linear(EnvelopeKind::Signal, quantised, true) matches Some(bits) ==> {
            &&& binary32::significand(bits as int) == 0x80_0000
            &&& binary32::unit_exponent(bits as int) + 23 == 6 + quantised
        },
        linear(EnvelopeKind::Signal, quantised, false) is Some <==> -264 <= quantised <= 243,
        linear(EnvelopeKind::Signal, quantised, false) matches Some(bits) ==> {
            &&& binary32::significand(bits as int) == (if quantised % 2 == 0 {
                0x80_0000int
            } else {
                0xb5_04f3
            })
            &&& 2 * (binary32::unit_exponent(bits as int) + 23) == 12 + quantised - quantised as int
                % 2
        },
{
}

/// What the linear value of a noise scale factor is: 64 divided by the power of
/// two of the quantised value, whatever the step of the signal.
pub proof fn lemma_linear_noise(quantised: i16, coarse_quant: bool)
    ensures
        linear(EnvelopeKind::Noise, quantised, coarse_quant) is Some <==> -121 <= quantised <= 132,
        linear(EnvelopeKind::Noise, quantised, coarse_quant) matches Some(bits) ==> {
            &&& binary32::significand(bits as int) == 0x80_0000
            &&& binary32::unit_exponent(bits as int) + 23 == 6 - quantised
        },
{
}

proof fn lemma_linear_row_exists(
    kind: EnvelopeKind,
    row: Seq<i16>,
    coarse_quant: bool,
    count: int,
)
    requires
        0 <= count <= row.len(),
    ensures
        match linear_row(kind, row, coarse_quant, count) {
            Ok(_) => forall|sbg: int|
                0 <= sbg < count ==> linear(kind, #[trigger] row[sbg], coarse_quant) is Some,
            Err(group) => {
                &&& 0 <= group < count
                &&& linear(kind, row[group], coarse_quant) is None
                &&& forall|sbg: int|
                    0 <= sbg < group ==> linear(kind, #[trigger] row[sbg], coarse_quant) is Some
            },
        },
    decreases count,
{
    if count > 0 {
        lemma_linear_row_exists(kind, row, coarse_quant, count - 1);
    }
}

proof fn lemma_linear_rows_exist(
    kind: EnvelopeKind,
    rows: Seq<Seq<i16>>,
    coarse_quant: bool,
    count: int,
)
    requires
        0 <= count <= rows.len(),
    ensures
        linear_rows(kind, rows, coarse_quant, count) is Ok <==> forall|env: int, sbg: int|
            0 <= env < count && 0 <= sbg < rows[env].len() ==> linear(
                kind,
                #[trigger] rows[env][sbg],
                coarse_quant,
            ) is Some,
    decreases count,
{
    if count > 0 {
        let row = rows[count - 1];
        lemma_linear_rows_exist(kind, rows, coarse_quant, count - 1);
        lemma_linear_row_exists(kind, row, coarse_quant, row.len() as int);
        if let Err(group) = linear_row(kind, row, coarse_quant, row.len() as int) {
            assert(linear(kind, rows[count - 1][group], coarse_quant) is None);
        } else {
            assert forall|env: int, sbg: int|
                0 <= env < count && 0 <= sbg < rows[env].len() && linear_rows(
                    kind,
                    rows,
                    coarse_quant,
                    count - 1,
                ) is Ok implies linear(kind, #[trigger] rows[env][sbg], coarse_quant) is Some by {
                if env == count - 1 {
                    assert(linear(kind, row[sbg], coarse_quant) is Some);
                }
            }
        }
    }
}

/// A channel is made linear cell by cell: each family by its own rule, and only
/// when every cell of both exists.
pub proof fn lemma_channels_are_made_linear_by_cells(factors: FactorsView, coarse_quant: bool)
    ensures
        dequantised(factors, coarse_quant) is Ok <==> {
            &&& forall|env: int, sbg: int|
                0 <= env < factors.sig.len() && 0 <= sbg < factors.sig[env].len() ==> linear(
                    EnvelopeKind::Signal,
                    #[trigger] factors.sig[env][sbg],
                    coarse_quant,
                ) is Some
            &&& forall|env: int, sbg: int|
                0 <= env < factors.noise.len() && 0 <= sbg < factors.noise[env].len() ==> linear(
                    EnvelopeKind::Noise,
                    #[trigger] factors.noise[env][sbg],
                    coarse_quant,
                ) is Some
        },
        dequantised(factors, coarse_quant) matches Ok(scale) ==> {
            &&& scale.sig.len() == factors.sig.len()
            &&& scale.noise.len() == factors.noise.len()
            &&& forall|env: int|
                0 <= env < factors.sig.len() ==> (#[trigger] scale.sig[env]).len()
                    == factors.sig[env].len()
            &&& forall|env: int|
                0 <= env < factors.noise.len() ==> (#[trigger] scale.noise[env]).len()
                    == factors.noise[env].len()
            &&& forall|env: int, sbg: int|
                0 <= env < factors.sig.len() && 0 <= sbg < factors.sig[env].len() ==> Some(
                    #[trigger] scale.sig[env][sbg],
                ) == linear(EnvelopeKind::Signal, factors.sig[env][sbg], coarse_quant)
            &&& forall|env: int, sbg: int|
                0 <= env < factors.noise.len() && 0 <= sbg < factors.noise[env].len() ==> Some(
                    #[trigger] scale.noise[env][sbg],
                ) == linear(EnvelopeKind::Noise, factors.noise[env][sbg], coarse_quant)
        },
{
    let (sig, noise) = (factors.sig.len() as int, factors.noise.len() as int);
    lemma_linear_rows_exist(EnvelopeKind::Signal, factors.sig, coarse_quant, sig);
    lemma_linear_rows_exist(EnvelopeKind::Noise, factors.noise, coarse_quant, noise);
    lemma_factors_are_positive(EnvelopeKind::Signal, factors.sig, coarse_quant, sig);
    lemma_factors_are_positive(EnvelopeKind::Noise, factors.noise, coarse_quant, noise);
}

/// A balanced pair is made linear cell by cell, from the total and the balance
/// of the same family, envelope and group.
pub proof fn lemma_pairs_are_made_linear_by_cells(
    sum: FactorsView,
    balance: FactorsView,
    coarse_quant: bool,
)
    ensures
        dequantised_pair(sum, balance, coarse_quant) matches Ok((left, right)) ==> {
            &&& sum.sig.len() == balance.sig.len() == left.sig.len() == right.sig.len()
            &&& sum.noise.len() == balance.noise.len() == left.noise.len() == right.noise.len()
            &&& forall|env: int, sbg: int|
                0 <= env < sum.sig.len() && 0 <= sbg < sum.sig[env].len() ==> Some(
                    (#[trigger] left.sig[env][sbg], right.sig[env][sbg]),
                ) == linear_pair(
                    EnvelopeKind::Signal,
                    sum.sig[env][sbg],
                    balance.sig[env][sbg],
                    coarse_quant,
                )
            &&& forall|env: int, sbg: int|
                0 <= env < sum.noise.len() && 0 <= sbg < sum.noise[env].len() ==> Some(
                    (#[trigger] left.noise[env][sbg], right.noise[env][sbg]),
                ) == linear_pair(
                    EnvelopeKind::Noise,
                    sum.noise[env][sbg],
                    balance.noise[env][sbg],
                    coarse_quant,
                )
        },
{
    let (sig, noise) = (sum.sig.len() as int, sum.noise.len() as int);
    lemma_pair_factors(EnvelopeKind::Signal, sum.sig, balance.sig, coarse_quant, sig);
    lemma_pair_factors(EnvelopeKind::Noise, sum.noise, balance.noise, coarse_quant, noise);
}

/// The balance value at which both channels get the same.
pub open spec fn centre(kind: EnvelopeKind, coarse_quant: bool) -> int {
    if kind == EnvelopeKind::Signal && !coarse_quant {
        24
    } else {
        12
    }
}

proof fn lemma_half_of_a_power(half: int)
    requires
        binary32::half_power(half) is Some,
        binary32::half_power(half + 2) is Some,
    ensures
        shares(binary32::half_power(half + 2), 0) == Some(
            (binary32::half_power(half)->0, binary32::half_power(half)->0),
        ),
{
    let total = binary32::half_power(half + 2)->0 as int;
    let two = 0x4000_0000int;
    vstd::arithmetic::power2::lemma2_to64();
    assert(binary32::half_power(0) == Some(ONE));
    assert(binary32::significand(ONE as int) == 0x80_0000);
    assert(ONE as int / 0x80_0000 - 127 == 0);
    assert(vstd::arithmetic::power2::pow2(23) == 0x80_0000);
    assert(binary32::one_more(ONE as int) == two);
    let own = binary32::significand(total);
    assert(binary32::shift_of(total, two) == 23);
    let scaled = own * vstd::arithmetic::power2::pow2(23);
    assert(scaled == own * 0x80_0000);
    assert(binary32::nearest(scaled, 0x80_0000) == own) by {
        assert(scaled % 0x80_0000 == 0);
        assert(scaled / 0x80_0000 == own);
    }
    assert(binary32::significand(two) == 0x80_0000);
    assert(binary32::quotient_pattern(total, two) == total - 0x80_0000);
}

/// At the centre each channel gets what the total alone would give.
pub proof fn lemma_the_centre_splits_evenly(kind: EnvelopeKind, sum: i16, coarse_quant: bool)
    requires
        linear(kind, sum, coarse_quant) is Some,
        linear_pair(kind, sum, centre(kind, coarse_quant) as i16, coarse_quant) is Some,
    ensures
        linear_pair(kind, sum, centre(kind, coarse_quant) as i16, coarse_quant) == Some(
            (linear(kind, sum, coarse_quant)->0, linear(kind, sum, coarse_quant)->0),
        ),
{
    let half = twice_exponent(kind, sum, coarse_quant, 0);
    assert(twice_exponent(kind, sum, coarse_quant, 1) == half + 2);
    assert(pan(kind, centre(kind, coarse_quant) as i16, coarse_quant) == 0);
    lemma_half_of_a_power(half);
}

/// Balance values at the same distance on either side of the centre give
/// mirrored shares.
pub proof fn lemma_opposite_balances_mirror(
    kind: EnvelopeKind,
    sum: i16,
    coarse_quant: bool,
    above: i16,
    below: i16,
)
    requires
        above + below == 2 * centre(kind, coarse_quant),
    ensures
        linear_pair(kind, sum, above, coarse_quant) matches Some((left, right)) ==> linear_pair(
            kind,
            sum,
            below,
            coarse_quant,
        ) == Some((right, left)),
{
    lemma_balance_is_symmetric(
        binary32::half_power(twice_exponent(kind, sum, coarse_quant, 1)),
        pan(kind, above, coarse_quant),
    );
    assert(pan(kind, below, coarse_quant) == -pan(kind, above, coarse_quant));
}

/// How a balance value divides the total: the first channel gets it divided by
/// one plus a power of two, whose exponent is how far the balance lies below the
/// centre, in whole steps where the step is coarse and in half steps where it is
/// fine; the second channel gets it divided by one plus the inverse power. The
/// total is twice what the first value alone would give.
pub proof fn lemma_how_a_balance_divides(
    kind: EnvelopeKind,
    sum: i16,
    balance: i16,
    coarse_quant: bool,
)
    requires
        linear(kind, sum, coarse_quant) is Some,
        linear_pair(kind, sum, balance, coarse_quant) is Some,
        -126 <= balance - centre(kind, coarse_quant) <= 126,
    ensures
        ({
            let above = balance - centre(kind, coarse_quant);
            let half = if kind == EnvelopeKind::Signal && !coarse_quant {
                above
            } else {
                2 * above
            };
            let (left, right) = linear_pair(kind, sum, balance, coarse_quant)->0;
            let first = binary32::one_more(binary32::half_power(-half)->0 as int);
            let second = binary32::one_more(binary32::half_power(half)->0 as int);
            let total = 2 * binary32::value(linear(kind, sum, coarse_quant)->0 as int);
            let one = binary32::value(ONE as int);
            &&& binary32::close(binary32::value(left as int) * binary32::value(first), total * one)
            &&& binary32::close(
                binary32::value(right as int) * binary32::value(second),
                total * one,
            )
        }),
{
    let above = balance - centre(kind, coarse_quant);
    let half = pan(kind, balance, coarse_quant);
    let exponent = twice_exponent(kind, sum, coarse_quant, 0);
    assert(twice_exponent(kind, sum, coarse_quant, 1) == exponent + 2);
    let total = binary32::half_power(exponent + 2)->0 as int;
    binary32::lemma_two_half_steps_double(exponent);
    lemma_divisor_range(half);
    lemma_divisor_range(-half);
    binary32::lemma_quotient_is_close(total, divisor(-half)->0 as int);
    binary32::lemma_quotient_is_close(total, divisor(half)->0 as int);
    let single = binary32::half_power(exponent)->0 as int;
    let unit_place = (binary32::unit_exponent(single) + 149) as nat;
    vstd::arithmetic::power2::lemma_pow2_unfold(unit_place + 1);
    let unit = vstd::arithmetic::power2::pow2(unit_place);
    let own = binary32::significand(single);
    assert(own * (2 * unit) == 2 * (own * unit)) by (nonlinear_arith);
}

proof fn lemma_pair_row_exists(
    kind: EnvelopeKind,
    sum: Seq<i16>,
    balance: Seq<i16>,
    coarse_quant: bool,
    count: int,
)
    requires
        0 <= count,
    ensures
        match pair_row(kind, sum, balance, coarse_quant, count) {
            Ok(_) => forall|sbg: int|
                0 <= sbg < count ==> linear_pair(
                    kind,
                    #[trigger] sum[sbg],
                    balance[sbg],
                    coarse_quant,
                ) is Some,
            Err(group) => {
                &&& 0 <= group < count
                &&& linear_pair(kind, sum[group], balance[group], coarse_quant) is None
                &&& forall|sbg: int|
                    0 <= sbg < group ==> linear_pair(
                        kind,
                        #[trigger] sum[sbg],
                        balance[sbg],
                        coarse_quant,
                    ) is Some
            },
        },
    decreases count,
{
    if count > 0 {
        lemma_pair_row_exists(kind, sum, balance, coarse_quant, count - 1);
    }
}

proof fn lemma_pair_rows_exist(
    kind: EnvelopeKind,
    sum: Seq<Seq<i16>>,
    balance: Seq<Seq<i16>>,
    coarse_quant: bool,
    count: int,
)
    requires
        0 <= count <= usize::MAX,
    ensures
        match pair_rows(kind, sum, balance, coarse_quant, count) {
            Ok(_) => forall|env: int|
                0 <= env < count ==> #[trigger] sum[env].len() == balance[env].len() && (forall|
                    sbg: int,
                |
                    0 <= sbg < sum[env].len() ==> linear_pair(
                        kind,
                        #[trigger] sum[env][sbg],
                        balance[env][sbg],
                        coarse_quant,
                    ) is Some),
            Err(DequantError::GridMismatch { kind: family, envelope }) => {
                &&& family == kind
                &&& envelope < count
                &&& sum[envelope as int].len() != balance[envelope as int].len()
            },
            Err(DequantError::ExponentOutOfRange { kind: family, envelope, group }) => {
                &&& family == kind
                &&& envelope < count
                &&& sum[envelope as int].len() <= usize::MAX ==> linear_pair(
                    kind,
                    sum[envelope as int][group as int],
                    balance[envelope as int][group as int],
                    coarse_quant,
                ) is None
            },
        },
    decreases count,
{
    if count > 0 {
        lemma_pair_rows_exist(kind, sum, balance, coarse_quant, count - 1);
        lemma_pair_row_exists(
            kind,
            sum[count - 1],
            balance[count - 1],
            coarse_quant,
            sum[count - 1].len() as int,
        );
    }
}

/// When a balanced pair can be made linear: both channels have the same
/// envelopes with the same groups, and every cell exists. An error of a cell
/// names one that does not exist.
pub proof fn lemma_when_pairs_are_made_linear(
    sum: FactorsView,
    balance: FactorsView,
    coarse_quant: bool,
)
    requires
        sum.sig.len() <= usize::MAX,
        sum.noise.len() <= usize::MAX,
    ensures
        match dequantised_pair(sum, balance, coarse_quant) {
            Ok(_) => {
                &&& sum.sig.len() == balance.sig.len()
                &&& sum.noise.len() == balance.noise.len()
                &&& sum.noise_groups == balance.noise_groups
                &&& forall|env: int|
                    0 <= env < sum.sig.len() ==> #[trigger] sum.sig[env].len()
                        == balance.sig[env].len()
                &&& forall|env: int|
                    0 <= env < sum.noise.len() ==> #[trigger] sum.noise[env].len()
                        == balance.noise[env].len()
            },
            Err(DequantError::GridMismatch { kind: EnvelopeKind::Signal, envelope }) => {
                ||| sum.sig.len() != balance.sig.len()
                ||| sum.sig[envelope as int].len() != balance.sig[envelope as int].len()
            },
            Err(DequantError::GridMismatch { kind: EnvelopeKind::Noise, envelope }) => {
                ||| sum.noise.len() != balance.noise.len()
                ||| sum.noise_groups != balance.noise_groups
                ||| sum.noise[envelope as int].len() != balance.noise[envelope as int].len()
            },
            Err(
                DequantError::ExponentOutOfRange { kind: EnvelopeKind::Signal, envelope, group },
            ) => {
                let row = sum.sig[envelope as int];
                row.len() <= usize::MAX ==> linear_pair(
                    EnvelopeKind::Signal,
                    row[group as int],
                    balance.sig[envelope as int][group as int],
                    coarse_quant,
                ) is None
            },
            Err(
                DequantError::ExponentOutOfRange { kind: EnvelopeKind::Noise, envelope, group },
            ) => {
                let row = sum.noise[envelope as int];
                row.len() <= usize::MAX ==> linear_pair(
                    EnvelopeKind::Noise,
                    row[group as int],
                    balance.noise[envelope as int][group as int],
                    coarse_quant,
                ) is None
            },
        },
{
    let (sig, noise) = (sum.sig.len() as int, sum.noise.len() as int);
    lemma_pair_rows_exist(EnvelopeKind::Signal, sum.sig, balance.sig, coarse_quant, sig);
    lemma_pair_rows_exist(EnvelopeKind::Noise, sum.noise, balance.noise, coarse_quant, noise);
}

/// A pattern is found exactly in its row and column.
pub proof fn lemma_patterns_are_found_in_place(rows: Seq<Seq<u32>>, env: int, sbg: int)
    ensures
        pattern_at(rows, env, sbg) is Some <==> 0 <= env < rows.len() && 0 <= sbg
            < rows[env].len(),
        pattern_at(rows, env, sbg) matches Some(bits) ==> bits == rows[env][sbg],
{
}

} // verus!
