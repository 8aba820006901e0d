//! Subband-group tables.
//!
//! A configuration and a crossover offset determine a master table, the two
//! signal-envelope tables cut from it, and the noise table. The group counts of
//! these tables decide how many symbols the entropy-coded payload holds.
use vstd::prelude::*;
use vstd::arithmetic::power::*;
use crate::tables::{self, sbg_template, template_group_count, MAX_SBG_NOISE};

verus! {

/// Largest number of groups in the low-resolution signal table.
pub const MAX_SBG_SIG_LOWRES: usize = 11;

/// Storage for the borders of a master or high-resolution table.
const MASTER_BORDERS: usize = 23;

/// Storage for the borders of a low-resolution table.
const LOWRES_BORDERS: usize = 12;

/// Storage for the borders of a noise table.
const NOISE_BORDERS: usize = 6;

/// Why no subband-group tables could be derived.
#[derive(Debug, Clone, Copy, PartialEq, Eq, Structural)]
pub enum BandError {
    /// The start frequency does not fit in three bits.
    StartFrequencyOutOfRange {
        /// The offending value.
        start_freq: u8,
    },
    /// The stop frequency does not fit in two bits.
    StopFrequencyOutOfRange {
        /// The offending value.
        stop_freq: u8,
    },
    /// The start and stop frequencies leave no master group at all.
    EmptyMasterTable {
        /// The start frequency.
        start_freq: u8,
        /// The stop frequency.
        stop_freq: u8,
    },
    /// The crossover offset leaves no group above the crossover.
    CrossoverOutOfRange {
        /// The crossover offset.
        xover: u8,
        /// The number of master groups.
        num_sbg_master: u8,
    },
    /// The crossover offset does not fit in three bits.
    CrossoverOffsetOutOfRange {
        /// The offending value.
        xover: u8,
    },
    /// The noise density does not fit in two bits, or is too large to evaluate.
    NoiseSbgOutOfRange {
        /// The offending value.
        noise_sbg: u8,
    },
    /// More noise groups than the format allows.
    TooManyNoiseGroups {
        /// The number that was derived.
        num_sbg_noise: u8,
        /// The largest allowed number.
        limit: u8,
    },
}

/// The four border tables of a configuration.
///
/// A table of `n` groups has `n + 1` borders; a table that was never derived has
/// none.
#[verifier::ext_equal]
pub struct BandView {
    /// Master borders.
    pub master: Seq<u8>,
    /// High-resolution signal borders.
    pub sig_highres: Seq<u8>,
    /// Low-resolution signal borders.
    pub sig_lowres: Seq<u8>,
    /// Noise borders.
    pub noise: Seq<u8>,
}

/// Number of groups of a table with the given borders.
pub open spec fn group_count(borders: Seq<u8>) -> int {
    if borders.len() == 0 {
        0
    } else {
        borders.len() - 1
    }
}

/// The `index`-th border of a table, if there is one.
pub open spec fn border_at(borders: Seq<u8>, index: int) -> Option<u8> {
    if 0 <= index < borders.len() {
        Some(borders[index])
    } else {
        None
    }
}

impl BandView {
    /// The tables of an unfilled instance.
    pub open spec fn empty() -> BandView {
        BandView {
            master: Seq::empty(),
            sig_highres: Seq::empty(),
            sig_lowres: Seq::empty(),
            noise: Seq::empty(),
        }
    }

    /// Lowest master border.
    pub open spec fn sba(self) -> u8 {
        if self.master.len() == 0 {
            0
        } else {
            self.master.first()
        }
    }

    /// Highest master border.
    pub open spec fn sbz(self) -> u8 {
        if self.master.len() == 0 {
            0
        } else {
            self.master.last()
        }
    }

    /// Crossover subband, the lowest border above which the band is extended.
    pub open spec fn sbx(self) -> u8 {
        if self.sig_highres.len() == 0 {
            0
        } else {
            self.sig_highres.first()
        }
    }

    /// Whether the tables are unfilled or belong to some configuration.
    pub open spec fn valid(self) -> bool {
        self == BandView::empty() || self.legal()
    }

    /// Whether some configuration has exactly these tables.
    #[verifier::opaque]
    pub open spec fn legal(self) -> bool {
        exists|scale: bool, start: u8, stop: u8, noise_sbg: u8, xover: u8|
            #[trigger] derived_bands(scale, start, stop, noise_sbg, xover)
                == Ok::<BandView, BandError>(self)
    }
}

/// Number of master groups; not positive when none are left.
pub open spec fn master_count(scale: bool, start: u8, stop: u8) -> int {
    tables::template(scale).len() - 1 - 2 * (start + stop)
}

/// The master table: the template without its first `2 * start` and last
/// `2 * stop` groups.
pub open spec fn master_borders(scale: bool, start: u8, stop: u8) -> Seq<u8> {
    tables::template(scale).subrange(2 * start, 2 * start + master_count(scale, start, stop) + 1)
}

/// The low-resolution table: every second border, counted so that the last
/// border is kept, and the first border.
pub open spec fn lowres_borders(highres: Seq<u8>) -> Seq<u8> {
    let high = group_count(highres);
    Seq::new(
        ((high + 1) / 2 + 1) as nat,
        |i: int|
            highres[if i == 0 {
                0
            } else {
                2 * i - high % 2
            }],
    )
}

/// Whether `groups` noise groups are not too many, that is whether
/// `noise_sbg * log2(sbz / sbx) >= groups - 1/2`.
pub open spec fn noise_groups_fit(noise_sbg: int, sbx: int, sbz: int, groups: int) -> bool {
    2 * pow(sbz, (2 * noise_sbg) as nat) >= pow(sbx, (2 * noise_sbg) as nat) * pow(4, groups as nat)
}

/// Whether `groups` is the number of noise groups: the largest number that
/// fits, or one where none does.
pub open spec fn is_noise_group_count(noise_sbg: int, sbx: int, sbz: int, groups: int) -> bool {
    &&& groups >= 1
    &&& groups > 1 ==> noise_groups_fit(noise_sbg, sbx, sbz, groups)
    &&& !noise_groups_fit(noise_sbg, sbx, sbz, groups + 1)
}

/// Number of noise groups: `noise_sbg * log2(sbz / sbx)` rounded to the nearest
/// integer, and at least one. Above a crossover of zero any number fits when
/// the density is not zero; that counts as one more than the format allows.
#[verifier::opaque]
pub open spec fn noise_groups(noise_sbg: int, sbx: int, sbz: int) -> int {
    if sbx == 0 && noise_sbg > 0 {
        MAX_SBG_NOISE + 1
    } else {
        choose|groups: int| #[trigger] is_noise_group_count(noise_sbg, sbx, sbz, groups)
    }
}

/// Index of the `sbg`-th noise border in the low-resolution table, when `low`
/// groups are shared out over `groups` noise groups.
pub open spec fn noise_index(low: int, groups: int, sbg: int) -> int
    decreases sbg,
{
    if sbg <= 0 {
        0
    } else {
        noise_index(low, groups, sbg - 1) + (low - noise_index(low, groups, sbg - 1)) / (groups + 1
            - sbg)
    }
}

/// The noise table.
pub open spec fn noise_borders(lowres: Seq<u8>, groups: int) -> Seq<u8> {
    Seq::new(
        (groups + 1) as nat,
        |i: int| lowres[noise_index(group_count(lowres), groups, i)],
    )
}

/// The tables of a configuration, or why there are none.
pub open spec fn derived_bands(
    scale: bool,
    start: u8,
    stop: u8,
    noise_sbg: u8,
    xover: u8,
) -> Result<BandView, BandError> {
    let count = master_count(scale, start, stop);
    let master = master_borders(scale, start, stop);
    let highres = master.subrange(xover as int, master.len() as int);
    let lowres = lowres_borders(highres);
    let groups = noise_groups(noise_sbg as int, highres.first() as int, master.last() as int);
    if start > 7 {
        Err(BandError::StartFrequencyOutOfRange { start_freq: start })
    } else if stop > 3 {
        Err(BandError::StopFrequencyOutOfRange { stop_freq: stop })
    } else if noise_sbg > 3 {
        Err(BandError::NoiseSbgOutOfRange { noise_sbg })
    } else if xover > 7 {
        Err(BandError::CrossoverOffsetOutOfRange { xover })
    } else if count <= 0 {
        Err(BandError::EmptyMasterTable { start_freq: start, stop_freq: stop })
    } else if xover >= count {
        Err(BandError::CrossoverOutOfRange { xover, num_sbg_master: count as u8 })
    } else if groups > MAX_SBG_NOISE {
        Err(BandError::TooManyNoiseGroups { num_sbg_noise: groups as u8, limit: MAX_SBG_NOISE })
    } else {
        Ok(
            BandView {
                master,
                sig_highres: highres,
                sig_lowres: lowres,
                noise: noise_borders(lowres, groups),
            },
        )
    }
}

/// Fewer noise groups fit wherever more do.
proof fn lemma_fit_is_antitone(noise_sbg: int, sbx: int, sbz: int, groups: int)
    requires
        noise_sbg >= 0,
        sbx >= 0,
        groups >= 0,
        noise_groups_fit(noise_sbg, sbx, sbz, groups + 1),
    ensures
        noise_groups_fit(noise_sbg, sbx, sbz, groups),
{
    let low = pow(sbx, (2 * noise_sbg) as nat);
    lemma_pow_nonnegative(sbx, (2 * noise_sbg) as nat);
    lemma_pow_increases(4, groups as nat, (groups + 1) as nat);
    let small = pow(4, groups as nat);
    let large = pow(4, (groups + 1) as nat);
    assert(low * small <= low * large) by (nonlinear_arith)
        requires
            0 <= low,
            small <= large,
    ;
}

proof fn lemma_pow_nonnegative(base: int, exponent: nat)
    requires
        base >= 0,
    ensures
        pow(base, exponent) >= 0,
{
    if base > 0 {
        lemma_pow_positive(base, exponent);
    } else if exponent == 0 {
        lemma_pow0(base);
    } else {
        vstd::arithmetic::power::lemma0_pow(exponent);
    }
}

/// Fewer noise groups fit wherever more do, however many fewer.
proof fn lemma_fewer_fit(noise_sbg: int, sbx: int, sbz: int, fewer: int, groups: int)
    requires
        noise_sbg >= 0,
        sbx >= 0,
        0 <= fewer <= groups,
        noise_groups_fit(noise_sbg, sbx, sbz, groups),
    ensures
        noise_groups_fit(noise_sbg, sbx, sbz, fewer),
    decreases groups - fewer,
{
    if fewer < groups {
        lemma_fit_is_antitone(noise_sbg, sbx, sbz, groups - 1);
        lemma_fewer_fit(noise_sbg, sbx, sbz, fewer, groups - 1);
    }
}

proof fn lemma_power_of_four_is_large(exponent: nat)
    ensures
        pow(4, exponent) > exponent,
    decreases exponent,
{
    reveal(pow);
    if exponent > 0 {
        lemma_power_of_four_is_large((exponent - 1) as nat);
    }
}

/// Where some number does not fit, there is a largest one that does.
proof fn lemma_some_count(noise_sbg: int, sbx: int, sbz: int, groups: int)
    requires
        groups >= 1,
        !noise_groups_fit(noise_sbg, sbx, sbz, groups + 1),
    ensures
        exists|k: int| #[trigger] is_noise_group_count(noise_sbg, sbx, sbz, k),
    decreases groups,
{
    if groups == 1 || noise_groups_fit(noise_sbg, sbx, sbz, groups) {
        assert(is_noise_group_count(noise_sbg, sbx, sbz, groups));
    } else {
        lemma_some_count(noise_sbg, sbx, sbz, groups - 1);
    }
}

/// The power that a noise group count is compared with.
proof fn lemma_low_power(noise_sbg: int, sbx: int)
    requires
        noise_sbg >= 0,
        sbx > 0 || (sbx == 0 && noise_sbg == 0),
    ensures
        pow(sbx, (2 * noise_sbg) as nat) >= 1,
{
    if sbx > 0 {
        lemma_pow_positive(sbx, (2 * noise_sbg) as nat);
    } else {
        lemma_pow0(sbx);
    }
}

/// There is exactly one number of noise groups, unless any number fits.
pub proof fn lemma_noise_groups(noise_sbg: int, sbx: int, sbz: int)
    requires
        noise_sbg >= 0,
        sbx > 0 || (sbx == 0 && noise_sbg == 0),
        sbz >= 0,
    ensures
        is_noise_group_count(noise_sbg, sbx, sbz, noise_groups(noise_sbg, sbx, sbz)),
        forall|groups: int| #[trigger]
            is_noise_group_count(noise_sbg, sbx, sbz, groups) ==> groups == noise_groups(
                noise_sbg,
                sbx,
                sbz,
            ),
{
    reveal(noise_groups);
    let low = pow(sbx, (2 * noise_sbg) as nat);
    let bound = 2 * pow(sbz, (2 * noise_sbg) as nat);
    lemma_low_power(noise_sbg, sbx);
    lemma_pow_nonnegative(sbz, (2 * noise_sbg) as nat);
    let far = bound + 1;
    lemma_power_of_four_is_large((far + 1) as nat);
    let large = pow(4, (far + 1) as nat);
    assert(low * large > bound) by (nonlinear_arith)
        requires
            low >= 1,
            large > bound,
            bound >= 0,
    ;
    lemma_some_count(noise_sbg, sbx, sbz, far);
    let chosen = noise_groups(noise_sbg, sbx, sbz);
    assert forall|groups: int| #[trigger]
        is_noise_group_count(noise_sbg, sbx, sbz, groups) implies groups == chosen by {
        if groups < chosen {
            lemma_fewer_fit(noise_sbg, sbx, sbz, groups + 1, chosen);
        } else if chosen < groups {
            lemma_fewer_fit(noise_sbg, sbx, sbz, chosen + 1, groups);
        }
    }
}

/// `base` to the power of `exponent`, unless that exceeds 64 bits.
fn power(base: u8, exponent: u16) -> (result: Option<u64>)
    ensures
        result == (if pow(base as int, exponent as nat) <= u64::MAX {
            Some(pow(base as int, exponent as nat) as u64)
        } else {
            None
        }),
{
    let mut value: u64 = 1;
    let mut done: u16 = 0;
    proof {
        lemma_pow0(base as int);
        if base == 0 && exponent > 0 {
            vstd::arithmetic::power::lemma0_pow(exponent as nat);
        }
    }
    if base == 0 && exponent > 0 {
        return Some(0);
    }
    while done < exponent
        invariant
            done <= exponent,
            base > 0 || exponent == 0,
            value == pow(base as int, done as nat),
        decreases exponent - done,
    {
        proof {
            reveal(pow);
            assert(pow(base as int, (done + 1) as nat) == base * pow(base as int, done as nat));
            assert(base * value == value * base) by (nonlinear_arith);
            lemma_pow_increases(base as nat, (done + 1) as nat, exponent as nat);
        }
        match value.checked_mul(base as u64) {
            Some(next) => {
                value = next;
            },
            None => {
                return None;
            },
        }
        done = done + 1;
    }
    Some(value)
}

/// Number of noise groups: `noise_sbg * log2(sbz / sbx)` rounded to the nearest
/// integer, and at least one.
///
/// The logarithm is never evaluated; the comparison is made between integer
/// powers.
pub fn num_sbg_noise(noise_sbg: u8, sbx: u8, sbz: u8) -> (result: Result<u8, BandError>)
    ensures
        ({
            let exponent = (2 * noise_sbg) as nat;
            let groups = noise_groups(noise_sbg as int, sbx as int, sbz as int);
            result == (if 2 * pow(sbz as int, exponent) > u64::MAX || pow(sbx as int, exponent)
                > u64::MAX {
                Err(BandError::NoiseSbgOutOfRange { noise_sbg })
            } else if groups > MAX_SBG_NOISE {
                Err(
                    BandError::TooManyNoiseGroups {
                        num_sbg_noise: groups as u8,
                        limit: MAX_SBG_NOISE,
                    },
                )
            } else {
                Ok::<u8, BandError>(groups as u8)
            })
        }),
        match result {
            Ok(groups) => groups == noise_groups(noise_sbg as int, sbx as int, sbz as int),
            Err(BandError::TooManyNoiseGroups { num_sbg_noise, limit }) => num_sbg_noise
                == noise_groups(noise_sbg as int, sbx as int, sbz as int),
            Err(_) => true,
        },
{
    let exponent: u16 = noise_sbg as u16 * 2;
    proof {
        lemma_pow_nonnegative(sbz as int, exponent as nat);
        lemma_pow_nonnegative(sbx as int, exponent as nat);
    }
    let high: u64 = match power(sbz, exponent) {
        Some(value) => value,
        None => {
            return Err(BandError::NoiseSbgOutOfRange { noise_sbg });
        },
    };
    let low: u64 = match power(sbx, exponent) {
        Some(value) => value,
        None => {
            return Err(BandError::NoiseSbgOutOfRange { noise_sbg });
        },
    };
    let bound: u64 = match high.checked_mul(2) {
        Some(value) => value,
        None => {
            return Err(BandError::NoiseSbgOutOfRange { noise_sbg });
        },
    };

    if low == 0 {
        proof {
            reveal(noise_groups);
            if sbx > 0 || noise_sbg == 0 {
                lemma_low_power(noise_sbg as int, sbx as int);
            }
        }
        return Err(
            BandError::TooManyNoiseGroups {
                num_sbg_noise: MAX_SBG_NOISE + 1,
                limit: MAX_SBG_NOISE,
            },
        );
    }
    let ghost n = noise_sbg as int;
    let ghost x = sbx as int;
    let ghost z = sbz as int;
    let mut groups: u8 = 0;
    let mut scale: u64 = 1;
    proof {
        lemma_pow0(4);
        if sbx == 0 && noise_sbg > 0 {
            lemma0_pow(exponent as nat);
        }
    }
    loop
        invariant
            n == noise_sbg,
            x == sbx,
            z == sbz,
            low == pow(x, (2 * n) as nat) >= 1,
            bound == 2 * pow(z, (2 * n) as nat),
            groups < 32,
            scale == pow(4, groups as nat),
            groups >= 1 ==> noise_groups_fit(n, x, z, groups as int),
        ensures
            !noise_groups_fit(n, x, z, groups + 1),
        decreases 32 - groups,
    {
        proof {
            reveal(pow);
            assert(pow(4, (groups + 1) as nat) == 4 * pow(4, groups as nat));
        }
        let next: u64 = match scale.checked_mul(4) {
            Some(next) => next,
            None => {
                assert(low * (4 * scale) > bound) by (nonlinear_arith)
                    requires
                        low >= 1,
                        4 * scale > bound,
                ;
                break;
            },
        };
        match low.checked_mul(next) {
            Some(threshold) => {
                if bound < threshold {
                    break;
                }
            },
            None => {
                break;
            },
        }
        proof {
            // As many as 32 groups need a bound of more than 64 bits.
            assert(next <= low * next) by (nonlinear_arith)
                requires
                    low >= 1,
            ;
            if groups == 31 {
                assert(pow(4, 32) == 0x1_0000_0000_0000_0000) by {
                    lemma_pow_multiplies(4, 8, 4);
                    assert(pow(4, 8) == 65536) by {
                        reveal_with_fuel(pow, 9);
                    }
                    reveal_with_fuel(pow, 5);
                }
            }
        }
        groups = groups + 1;
        scale = next;
    }
    let result: u8 = if groups == 0 {
        1
    } else {
        groups
    };
    proof {
        if groups == 0 && noise_groups_fit(n, x, z, 2) {
            lemma_fit_is_antitone(n, x, z, 1);
        }
        lemma_noise_groups(n, x, z);
        assert(is_noise_group_count(n, x, z, result as int));
    }
    if result > MAX_SBG_NOISE {
        return Err(
            BandError::TooManyNoiseGroups { num_sbg_noise: result, limit: MAX_SBG_NOISE },
        );
    }
    Ok(result)
}

/// Cuts the master table out of the template.
fn derive_master(master_freq_scale: bool, start_freq: u8, stop_freq: u8) -> (result: Result<
    ([u8; MASTER_BORDERS], u8),
    BandError,
>)
    requires
        start_freq <= 7,
        stop_freq <= 3,
    ensures
        match result {
            Ok((master, count)) => {
                &&& count == master_count(master_freq_scale, start_freq, stop_freq)
                &&& 0 < count < MASTER_BORDERS
                &&& master@.subrange(0, count + 1) == master_borders(
                    master_freq_scale,
                    start_freq,
                    stop_freq,
                )
            },
            Err(error) => {
                &&& master_count(master_freq_scale, start_freq, stop_freq) <= 0
                &&& error == BandError::EmptyMasterTable { start_freq, stop_freq }
            },
        },
{
    let borders = sbg_template(master_freq_scale);
    let groups: u8 = template_group_count(master_freq_scale);
    let trimmed: u8 = (start_freq + stop_freq) * 2;
    if groups <= trimmed {
        return Err(BandError::EmptyMasterTable { start_freq, stop_freq });
    }
    let count: u8 = groups - trimmed;
    let base: usize = start_freq as usize * 2;
    let mut master: [u8; MASTER_BORDERS] = [0; MASTER_BORDERS];
    let mut sbg: usize = 0;
    while sbg <= count as usize
        invariant
            sbg <= count + 1,
            count < MASTER_BORDERS,
            base + count < borders.len(),
            master@.len() == MASTER_BORDERS,
            forall|i: int| 0 <= i < sbg ==> #[trigger] master@[i] == borders@[base + i],
        decreases count + 1 - sbg,
    {
        master[sbg] = borders[base + sbg];
        sbg = sbg + 1;
    }
    assert(master@.subrange(0, count + 1) =~= master_borders(
        master_freq_scale,
        start_freq,
        stop_freq,
    ));
    Ok((master, count))
}

/// The part of the master table from the crossover upwards.
fn derive_sig_highres(master: &[u8; MASTER_BORDERS], num_sbg_master: u8, xover: u8) -> (result: (
    [u8; MASTER_BORDERS],
    u8,
))
    requires
        xover < num_sbg_master < MASTER_BORDERS,
    ensures
        result.1 == num_sbg_master - xover,
        result.0@.subrange(0, result.1 + 1) == master@.subrange(xover as int, num_sbg_master + 1),
{
    let count: u8 = num_sbg_master - xover;
    let mut highres: [u8; MASTER_BORDERS] = [0; MASTER_BORDERS];
    let mut sbg: usize = 0;
    while sbg <= count as usize
        invariant
            sbg <= count + 1,
            xover + count == num_sbg_master < MASTER_BORDERS,
            highres@.len() == MASTER_BORDERS,
            forall|i: int| 0 <= i < sbg ==> #[trigger] highres@[i] == master@[xover + i],
        decreases count + 1 - sbg,
    {
        highres[sbg] = master[xover as usize + sbg];
        sbg = sbg + 1;
    }
    assert(highres@.subrange(0, count + 1) =~= master@.subrange(xover as int, num_sbg_master + 1));
    (highres, count)
}

/// Every second border of the high-resolution table.
fn derive_sig_lowres(highres: &[u8; MASTER_BORDERS], high: u8) -> (result: (
    [u8; LOWRES_BORDERS],
    u8,
))
    requires
        0 < high < MASTER_BORDERS,
    ensures
        result.1 == (high + 1) / 2,
        result.0@.subrange(0, result.1 + 1) == lowres_borders(highres@.subrange(0, high + 1)),
{
    let count: u8 = high - high / 2;
    let odd: usize = (high % 2) as usize;
    let mut lowres: [u8; LOWRES_BORDERS] = [0; LOWRES_BORDERS];
    lowres[0] = highres[0];
    let mut sbg: usize = 1;
    while sbg <= count as usize
        invariant
            1 <= sbg <= count + 1,
            0 < high < MASTER_BORDERS,
            count == (high + 1) / 2,
            odd == high % 2,
            lowres@.len() == LOWRES_BORDERS,
            lowres@[0] == highres@[0],
            forall|i: int| 1 <= i < sbg ==> #[trigger] lowres@[i] == highres@[2 * i - odd],
        decreases count + 1 - sbg,
    {
        lowres[sbg] = highres[sbg * 2 - odd];
        sbg = sbg + 1;
    }
    assert(lowres@.subrange(0, count + 1) =~= lowres_borders(highres@.subrange(0, high + 1)));
    (lowres, count)
}

/// A noise border index never passes the end of the low-resolution table, and
/// each step leaves at least one low-resolution group for every noise group
/// still to come.
proof fn lemma_noise_index(low: int, groups: int, sbg: int)
    requires
        low >= 0,
        0 <= sbg <= groups,
    ensures
        0 <= noise_index(low, groups, sbg) <= low,
        groups > 0 && sbg == groups ==> noise_index(low, groups, sbg) == low,
        groups <= low ==> low - noise_index(low, groups, sbg) >= groups - sbg,
        groups <= low && sbg > 0 ==> noise_index(low, groups, sbg - 1) < noise_index(
            low,
            groups,
            sbg,
        ),
    decreases sbg,
{
    if sbg > 0 {
        lemma_noise_index(low, groups, sbg - 1);
        let rest = low - noise_index(low, groups, sbg - 1);
        let share = groups + 1 - sbg;
        assert(0 <= rest / share <= rest) by (nonlinear_arith)
            requires
                rest >= 0,
                share >= 1,
        ;
        if share == 1 {
            assert(rest / share == rest) by (nonlinear_arith)
                requires
                    share == 1,
            ;
        }
        if groups <= low {
            assert(rest / share >= 1 && rest - rest / share >= share - 1) by (nonlinear_arith)
                requires
                    rest >= share,
                    share >= 1,
            ;
        }
    }
}

/// Shares the low-resolution groups out over `count` noise groups.
fn derive_noise(lowres: &[u8; LOWRES_BORDERS], low: u8, count: u8) -> (noise: [u8; NOISE_BORDERS])
    requires
        0 < low < LOWRES_BORDERS,
        0 < count < NOISE_BORDERS,
    ensures
        noise@.subrange(0, count + 1) == noise_borders(
            lowres@.subrange(0, low + 1),
            count as int,
        ),
{
    let mut noise: [u8; NOISE_BORDERS] = [0; NOISE_BORDERS];
    noise[0] = lowres[0];
    let mut idx: u8 = 0;
    let mut sbg: u8 = 1;
    while sbg <= count
        invariant
            1 <= sbg <= count + 1,
            0 < low < LOWRES_BORDERS,
            0 < count < NOISE_BORDERS,
            idx == noise_index(low as int, count as int, sbg - 1),
            idx <= low,
            noise@.len() == NOISE_BORDERS,
            forall|i: int|
                0 <= i < sbg ==> #[trigger] noise@[i] == lowres@[noise_index(
                    low as int,
                    count as int,
                    i,
                )],
        decreases count + 1 - sbg,
    {
        proof {
            lemma_noise_index(low as int, count as int, sbg - 1);
            lemma_noise_index(low as int, count as int, sbg as int);
        }
        idx = idx + (low - idx) / (count + 1 - sbg);
        noise[sbg as usize] = lowres[idx as usize];
        sbg = sbg + 1;
    }
    proof {
        let low_borders = lowres@.subrange(0, low + 1);
        assert forall|i: int| 0 <= i <= count implies noise@[i] == #[trigger] noise_borders(
            low_borders,
            count as int,
        )[i] by {
            lemma_noise_index(low as int, count as int, i);
        }
        assert(noise@.subrange(0, count + 1) =~= noise_borders(low_borders, count as int));
    }
    noise
}

/// The powers compared for legal configurations fit in 64 bits.
proof fn lemma_powers_are_small(noise_sbg: u8, border: u8)
    requires
        noise_sbg <= 3,
        1 <= border <= 62,
    ensures
        1 <= pow(border as int, (2 * noise_sbg) as nat),
        2 * pow(border as int, (2 * noise_sbg) as nat) <= u64::MAX,
{
    let b = border as int;
    lemma_pow_positive(b, (2 * noise_sbg) as nat);
    lemma_pow_increases(b as nat, (2 * noise_sbg) as nat, 6);
    reveal_with_fuel(pow, 7);
    assert(b * b <= 62 * 62) by (nonlinear_arith)
        requires
            1 <= b <= 62,
    ;
    let square = b * b;
    assert(pow(b, 6) == square * square * square) by (nonlinear_arith)
        requires
            pow(b, 6) == b * (b * (b * (b * (b * (b * 1))))),
            square == b * b,
    ;
    assert(square * square * square <= 3844 * 3844 * 3844) by (nonlinear_arith)
        requires
            0 <= square <= 3844,
    ;
}

/// The first `count + 1` entries of a border array, or nothing when `count` is
/// zero.
spec fn stored_borders(borders: Seq<u8>, count: u8) -> Seq<u8> {
    if count == 0 {
        Seq::empty()
    } else {
        borders.subrange(0, count + 1)
    }
}

/// The borders of a table with `count` groups.
fn stored_slice(borders: &[u8], count: u8) -> (slice: &[u8])
    requires
        count < borders@.len(),
    ensures
        slice@ == stored_borders(borders@, count),
{
    if count == 0 {
        vstd::slice::slice_subrange(borders, 0, 0)
    } else {
        vstd::slice::slice_subrange(borders, 0, count as usize + 1)
    }
}

/// Whether two slices hold the same bytes.
pub(crate) fn same_bytes(first: &[u8], second: &[u8]) -> (same: bool)
    ensures
        same == (first@ == second@),
{
    if first.len() != second.len() {
        return false;
    }
    let mut index: usize = 0;
    while index < first.len()
        invariant
            index <= first@.len() == second@.len(),
            forall|i: int| 0 <= i < index ==> #[trigger] first@[i] == second@[i],
        decreases first@.len() - index,
    {
        if first[index] != second[index] {
            return false;
        }
        index = index + 1;
    }
    assert(first@ =~= second@);
    true
}

/// Master, signal and noise subband-group tables of one configuration.
///
/// An instance is either empty or holds the tables of a legal configuration.
#[derive(Debug, Clone, Copy, PartialEq, Eq)]
pub struct AspxBandTables {
    master: [u8; MASTER_BORDERS],
    num_sbg_master: u8,
    sig_highres: [u8; MASTER_BORDERS],
    num_sbg_sig_highres: u8,
    sig_lowres: [u8; LOWRES_BORDERS],
    num_sbg_sig_lowres: u8,
    noise: [u8; NOISE_BORDERS],
    num_sbg_noise: u8,
    sba: u8,
    sbx: u8,
    sbz: u8,
    num_sb_aspx: u8,
}

impl View for AspxBandTables {
    type V = BandView;

    closed spec fn view(&self) -> BandView {
        BandView {
            master: stored_borders(self.master@, self.num_sbg_master),
            sig_highres: stored_borders(self.sig_highres@, self.num_sbg_sig_highres),
            sig_lowres: stored_borders(self.sig_lowres@, self.num_sbg_sig_lowres),
            noise: stored_borders(self.noise@, self.num_sbg_noise),
        }
    }
}

impl AspxBandTables {
    #[verifier::type_invariant]
    spec fn well_formed(self) -> bool {
        &&& self.num_sbg_master < MASTER_BORDERS
        &&& self.num_sbg_sig_highres < MASTER_BORDERS
        &&& self.num_sbg_sig_lowres < LOWRES_BORDERS
        &&& self.num_sbg_noise < NOISE_BORDERS
        &&& self.sba == self@.sba()
        &&& self.sbx == self@.sbx()
        &&& self.sbz == self@.sbz()
        &&& self.num_sb_aspx == self@.sbz() - self@.sbx()
        &&& self@.valid()
    }

    /// An instance without any tables.
    #[must_use]
    pub fn empty() -> (tables: Self)
        ensures
            tables@ == BandView::empty(),
    {
        AspxBandTables {
            master: [0; MASTER_BORDERS],
            num_sbg_master: 0,
            sig_highres: [0; MASTER_BORDERS],
            num_sbg_sig_highres: 0,
            sig_lowres: [0; LOWRES_BORDERS],
            num_sbg_sig_lowres: 0,
            noise: [0; NOISE_BORDERS],
            num_sbg_noise: 0,
            sba: 0,
            sbx: 0,
            sbz: 0,
            num_sb_aspx: 0,
        }
    }

    /// Derives all tables of a configuration.
    ///
    /// The arguments are checked in the order start, stop, noise density,
    /// crossover offset; only afterwards are the tables built.
    pub fn derive(
        master_freq_scale: bool,
        start_freq: u8,
        stop_freq: u8,
        noise_sbg: u8,
        xover: u8,
    ) -> (result: Result<Self, BandError>)
        ensures
            match result {
                Ok(tables) => derived_bands(
                    master_freq_scale,
                    start_freq,
                    stop_freq,
                    noise_sbg,
                    xover,
                ) == Ok::<BandView, BandError>(tables@),
                Err(error) => derived_bands(
                    master_freq_scale,
                    start_freq,
                    stop_freq,
                    noise_sbg,
                    xover,
                ) == Err::<BandView, BandError>(error),
            },
    {
        if start_freq > 7 {
            return Err(BandError::StartFrequencyOutOfRange { start_freq });
        }
        if stop_freq > 3 {
            return Err(BandError::StopFrequencyOutOfRange { stop_freq });
        }
        if noise_sbg > 3 {
            return Err(BandError::NoiseSbgOutOfRange { noise_sbg });
        }
        if xover > 7 {
            return Err(BandError::CrossoverOffsetOutOfRange { xover });
        }
        let (master, num_sbg_master) = match derive_master(
            master_freq_scale,
            start_freq,
            stop_freq,
        ) {
            Ok(table) => table,
            Err(error) => {
                return Err(error);
            },
        };
        if xover >= num_sbg_master {
            return Err(BandError::CrossoverOutOfRange { xover, num_sbg_master });
        }
        let ghost borders = master_borders(master_freq_scale, start_freq, stop_freq);
        let (sig_highres, num_sbg_sig_highres) = derive_sig_highres(&master, num_sbg_master, xover);
        let ghost highres = borders.subrange(xover as int, borders.len() as int);
        let (sig_lowres, num_sbg_sig_lowres) = derive_sig_lowres(&sig_highres, num_sbg_sig_highres);
        let ghost lowres = lowres_borders(highres);

        let sba: u8 = master[0];
        let sbz: u8 = master[num_sbg_master as usize];
        let sbx: u8 = sig_highres[0];
        proof {
            assert(sig_highres@.subrange(0, num_sbg_sig_highres + 1) == highres);
            assert(highres[0] == sig_highres@[0]);
            assert(borders.last() == master@[num_sbg_master as int]);
            assert(borders.first() == master@[0]);
            assert(1 <= sbx <= sbz <= 62) by {
                tables::lemma_template_borders(master_freq_scale);
            }
            lemma_powers_are_small(noise_sbg, sbx);
            lemma_powers_are_small(noise_sbg, sbz);
            assert(noise_groups(noise_sbg as int, sbx as int, sbz as int) >= 1) by {
                lemma_noise_groups(noise_sbg as int, sbx as int, sbz as int);
            }
        }
        let count: u8 = match num_sbg_noise(noise_sbg, sbx, sbz) {
            Ok(count) => count,
            Err(error) => {
                return Err(error);
            },
        };
        let ghost groups = noise_groups(noise_sbg as int, sbx as int, sbz as int);
        let noise = derive_noise(&sig_lowres, num_sbg_sig_lowres, count);
        proof {
            let derived = BandView {
                master: borders,
                sig_highres: highres,
                sig_lowres: lowres,
                noise: noise_borders(lowres, groups),
            };
            assert(derived_bands(master_freq_scale, start_freq, stop_freq, noise_sbg, xover)
                == Ok::<BandView, BandError>(derived));
            assert(derived.legal()) by {
                reveal(BandView::legal);
            }
            assert(stored_borders(master@, num_sbg_master) =~= derived.master);
            assert(stored_borders(sig_highres@, num_sbg_sig_highres) =~= derived.sig_highres);
            assert(stored_borders(sig_lowres@, num_sbg_sig_lowres) =~= derived.sig_lowres);
            assert(stored_borders(noise@, count) =~= derived.noise);
        }
        Ok(
            AspxBandTables {
                master,
                num_sbg_master,
                sig_highres,
                num_sbg_sig_highres,
                sig_lowres,
                num_sbg_sig_lowres,
                noise,
                num_sbg_noise: count,
                sba,
                sbx,
                sbz,
                num_sb_aspx: sbz - sbx,
            },
        )
    }

    /// Master borders.
    fn master_slice(&self) -> (borders: &[u8])
        ensures
            borders@ == self@.master,
    {
        proof {
            use_type_invariant(self);
        }
        stored_slice(&self.master, self.num_sbg_master)
    }

    /// High-resolution signal borders.
    fn sig_highres_slice(&self) -> (borders: &[u8])
        ensures
            borders@ == self@.sig_highres,
    {
        proof {
            use_type_invariant(self);
        }
        stored_slice(&self.sig_highres, self.num_sbg_sig_highres)
    }

    /// Low-resolution signal borders.
    fn sig_lowres_slice(&self) -> (borders: &[u8])
        ensures
            borders@ == self@.sig_lowres,
    {
        proof {
            use_type_invariant(self);
        }
        stored_slice(&self.sig_lowres, self.num_sbg_sig_lowres)
    }

    /// Noise borders.
    fn noise_slice(&self) -> (borders: &[u8])
        ensures
            borders@ == self@.noise,
    {
        proof {
            use_type_invariant(self);
        }
        stored_slice(&self.noise, self.num_sbg_noise)
    }

    /// Whether two sets of tables have the same borders.
    #[must_use]
    pub fn same_as(&self, other: &Self) -> (same: bool)
        ensures
            same == (self@ == other@),
    {
        same_bytes(self.master_slice(), other.master_slice()) && same_bytes(
            self.sig_highres_slice(),
            other.sig_highres_slice(),
        ) && same_bytes(self.sig_lowres_slice(), other.sig_lowres_slice()) && same_bytes(
            self.noise_slice(),
            other.noise_slice(),
        )
    }

    /// Number of master groups.
    #[must_use]
    pub fn num_sbg_master(&self) -> (count: u8)
        ensures
            self@.valid(),
            count == group_count(self@.master),
    {
        proof {
            use_type_invariant(self);
        }
        self.num_sbg_master
    }

    /// Number of high-resolution signal groups.
    #[must_use]
    pub fn num_sbg_sig_highres(&self) -> (count: u8)
        ensures
            self@.valid(),
            count == group_count(self@.sig_highres),
    {
        proof {
            use_type_invariant(self);
        }
        self.num_sbg_sig_highres
    }

    /// Number of low-resolution signal groups.
    #[must_use]
    pub fn num_sbg_sig_lowres(&self) -> (count: u8)
        ensures
            self@.valid(),
            count == group_count(self@.sig_lowres),
    {
        proof {
            use_type_invariant(self);
        }
        self.num_sbg_sig_lowres
    }

    /// Number of noise groups.
    #[must_use]
    pub fn num_sbg_noise(&self) -> (count: u8)
        ensures
            self@.valid(),
            count == group_count(self@.noise),
    {
        proof {
            use_type_invariant(self);
        }
        self.num_sbg_noise
    }

    /// Lowest master border.
    #[must_use]
    pub fn sba(&self) -> (subband: u8)
        ensures
            subband == self@.sba(),
    {
        proof {
            use_type_invariant(self);
        }
        self.sba
    }

    /// Crossover subband.
    #[must_use]
    pub fn sbx(&self) -> (subband: u8)
        ensures
            subband == self@.sbx(),
    {
        proof {
            use_type_invariant(self);
        }
        self.sbx
    }

    /// Highest master border.
    #[must_use]
    pub fn sbz(&self) -> (subband: u8)
        ensures
            subband == self@.sbz(),
    {
        proof {
            use_type_invariant(self);
        }
        self.sbz
    }

    /// Number of subbands between the crossover and the highest master border.
    #[must_use]
    pub fn num_sb_aspx(&self) -> (width: u8)
        ensures
            width == self@.sbz() - self@.sbx(),
    {
        proof {
            use_type_invariant(self);
        }
        self.num_sb_aspx
    }

    /// The `index`-th master border.
    #[must_use]
    pub fn master_border(&self, index: usize) -> (border: Option<u8>)
        ensures
            border == border_at(self@.master, index as int),
    {
        proof {
            use_type_invariant(self);
        }
        if self.num_sbg_master == 0 || index > self.num_sbg_master as usize {
            return None;
        }
        Some(self.master[index])
    }

    /// The `index`-th high-resolution signal border.
    #[must_use]
    pub fn sig_highres_border(&self, index: usize) -> (border: Option<u8>)
        ensures
            border == border_at(self@.sig_highres, index as int),
    {
        proof {
            use_type_invariant(self);
        }
        if self.num_sbg_sig_highres == 0 || index > self.num_sbg_sig_highres as usize {
            return None;
        }
        Some(self.sig_highres[index])
    }

    /// The `index`-th low-resolution signal border.
    #[must_use]
    pub fn sig_lowres_border(&self, index: usize) -> (border: Option<u8>)
        ensures
            border == border_at(self@.sig_lowres, index as int),
    {
        proof {
            use_type_invariant(self);
        }
        if self.num_sbg_sig_lowres == 0 || index > self.num_sbg_sig_lowres as usize {
            return None;
        }
        Some(self.sig_lowres[index])
    }

    /// The `index`-th noise border.
    #[must_use]
    pub fn noise_border(&self, index: usize) -> (border: Option<u8>)
        ensures
            border == border_at(self@.noise, index as int),
    {
        proof {
            use_type_invariant(self);
        }
        if self.num_sbg_noise == 0 || index > self.num_sbg_noise as usize {
            return None;
        }
        Some(self.noise[index])
    }
}

/// Whether each border is larger than the one before it.
pub open spec fn strictly_increasing(borders: Seq<u8>) -> bool {
    forall|i: int, j: int|
        0 <= i < j < borders.len() ==> #[trigger] borders[i] < #[trigger] borders[j]
}

/// Whether every border of `part` occurs in `whole`.
pub open spec fn borders_within(part: Seq<u8>, whole: Seq<u8>) -> bool {
    forall|i: int| 0 <= i < part.len() ==> whole.contains(#[trigger] part[i])
}

/// What all tables derived from a configuration have in common.
pub open spec fn structured(bands: BandView) -> bool {
    &&& 1 <= group_count(bands.master) <= 22
    &&& 1 <= group_count(bands.sig_highres) <= group_count(bands.master)
    &&& group_count(bands.sig_lowres) == (group_count(bands.sig_highres) + 1) / 2
    &&& 1 <= group_count(bands.noise) <= MAX_SBG_NOISE
    &&& group_count(bands.noise) <= group_count(bands.sig_lowres)
    &&& strictly_increasing(bands.master)
    &&& strictly_increasing(bands.sig_highres)
    &&& strictly_increasing(bands.sig_lowres)
    &&& strictly_increasing(bands.noise)
    &&& 10 <= bands.sba() <= bands.sbx() < bands.sbz() <= 62
    &&& borders_within(bands.sig_highres, bands.master)
    &&& borders_within(bands.sig_lowres, bands.sig_highres)
    &&& borders_within(bands.sig_lowres, bands.master)
    &&& borders_within(bands.noise, bands.sig_lowres)
    &&& borders_within(bands.noise, bands.master)
    &&& bands.sig_lowres.first() == bands.sbx()
    &&& bands.noise.first() == bands.sbx()
    &&& bands.sig_highres.last() == bands.sbz()
    &&& bands.sig_lowres.last() == bands.sbz()
    &&& bands.noise.last() == bands.sbz()
}

proof fn lemma_pow_base_monotone(a: int, b: int, e: nat)
    requires
        0 <= a <= b,
    ensures
        0 <= pow(a, e) <= pow(b, e),
    decreases e,
{
    reveal(pow);
    if e > 0 {
        lemma_pow_base_monotone(a, b, (e - 1) as nat);
        let x = pow(a, (e - 1) as nat);
        let y = pow(b, (e - 1) as nat);
        assert(0 <= a * x <= b * y) by (nonlinear_arith)
            requires
                0 <= a <= b,
                0 <= x <= y,
        ;
    }
}

/// Neighbouring template borders are so close that their ratio, raised to any
/// of the exponents in use, stays below two.
proof fn lemma_neighbour_ratio(low: int, high: int, noise_sbg: int)
    requires
        0 < low,
        0 < high,
        19 * high <= 21 * low,
        0 <= noise_sbg <= 3,
    ensures
        pow(high, (2 * noise_sbg) as nat) <= 2 * pow(low, (2 * noise_sbg) as nat),
{
    let e = (2 * noise_sbg) as nat;
    lemma_pow_base_monotone(19 * high, 21 * low, e);
    lemma_pow_distributes(19, high, e);
    lemma_pow_distributes(21, low, e);
    lemma_pow_positive(19, e);
    lemma_pow_positive(low, e);
    assert(pow(21, e) <= 2 * pow(19, e)) by {
        reveal_with_fuel(pow, 7);
    }
    let p19 = pow(19, e);
    let p21 = pow(21, e);
    let ph = pow(high, e);
    let pl = pow(low, e);
    assert(ph <= 2 * pl) by (nonlinear_arith)
        requires
            p19 * ph <= p21 * pl,
            p21 <= 2 * p19,
            p19 > 0,
            pl > 0,
    ;
}

/// Over `steps` neighbouring groups a power grows by at most `2^steps`.
proof fn lemma_span_ratio(borders: Seq<u8>, noise_sbg: int, first: int, steps: nat)
    requires
        0 <= noise_sbg <= 3,
        0 <= first,
        first + steps < borders.len(),
        forall|i: int| 0 <= i < borders.len() ==> 0 < #[trigger] borders[i],
        forall|i: int, j: int|
            0 <= i && j == i + 1 && j < borders.len() ==> 19 * #[trigger] borders[j] <= 21
                * #[trigger] borders[i],
    ensures
        pow(borders[first + steps] as int, (2 * noise_sbg) as nat) <= pow(2, steps) * pow(
            borders[first] as int,
            (2 * noise_sbg) as nat,
        ),
    decreases steps,
{
    let e = (2 * noise_sbg) as nat;
    reveal(pow);
    if steps > 0 {
        let previous = (steps - 1) as nat;
        lemma_span_ratio(borders, noise_sbg, first, previous);
        lemma_neighbour_ratio(
            borders[first + previous] as int,
            borders[first + steps] as int,
            noise_sbg,
        );
        let base = pow(borders[first] as int, e);
        let half = pow(2, previous);
        assert(2 * (half * base) == (2 * half) * base) by (nonlinear_arith);
    }
}

/// There are never more noise groups than low-resolution signal groups.
proof fn lemma_noise_groups_bound(highres: Seq<u8>, noise_sbg: int)
    requires
        0 <= noise_sbg <= 3,
        highres.len() >= 2,
        forall|i: int| 0 <= i < highres.len() ==> 0 < #[trigger] highres[i],
        forall|i: int, j: int|
            0 <= i && j == i + 1 && j < highres.len() ==> 19 * #[trigger] highres[j] <= 21
                * #[trigger] highres[i],
    ensures
        noise_groups(noise_sbg, highres.first() as int, highres.last() as int) <= group_count(
            lowres_borders(highres),
        ),
{
    let x = highres.first() as int;
    let z = highres.last() as int;
    let high = (highres.len() - 1) as nat;
    let k = noise_groups(noise_sbg, x, z);
    lemma_noise_groups(noise_sbg, x, z);
    if k > 1 {
        let e = (2 * noise_sbg) as nat;
        assert(noise_groups_fit(noise_sbg, x, z, k));
        lemma_span_ratio(highres, noise_sbg, 0, high);
        lemma_pow_positive(x, e);
        let px = pow(x, e);
        let pz = pow(z, e);
        let p4 = pow(4, k as nat);
        let p2 = pow(2, high);
        assert(p4 <= 2 * p2) by (nonlinear_arith)
            requires
                px * p4 <= 2 * pz,
                pz <= p2 * px,
                px > 0,
        ;
        lemma_pow_multiplies(2, 2, k as nat);
        assert(pow(2, 2) == 4) by {
            reveal_with_fuel(pow, 3);
        }
        assert(pow(2, high + 1) == 2 * p2) by {
            reveal(pow);
        }
        lemma_pow_increases_converse(2, 2 * (k as nat), high + 1);
    }
}

proof fn lemma_noise_index_increases(low: int, groups: int, i: int, j: int)
    requires
        0 <= i < j <= groups <= low,
    ensures
        noise_index(low, groups, i) < noise_index(low, groups, j),
    decreases j,
{
    lemma_noise_index(low, groups, j);
    if i < j - 1 {
        lemma_noise_index_increases(low, groups, i, j - 1);
    }
}

proof fn lemma_master_table(scale: bool, start: u8, stop: u8)
    requires
        start <= 7,
        stop <= 3,
        master_count(scale, start, stop) > 0,
    ensures
        strictly_increasing(master_borders(scale, start, stop)),
        1 <= group_count(master_borders(scale, start, stop)) <= 22,
        10 <= master_borders(scale, start, stop).first(),
        master_borders(scale, start, stop).last() <= 62,
        forall|i: int|
            0 <= i < master_borders(scale, start, stop).len() ==> 0 < #[trigger] master_borders(
                scale,
                start,
                stop,
            )[i],
        forall|i: int, j: int|
            0 <= i && j == i + 1 && j < master_borders(scale, start, stop).len() ==> 19
                * #[trigger] master_borders(scale, start, stop)[j] <= 21
                * #[trigger] master_borders(scale, start, stop)[i],
{
    tables::lemma_template_borders(scale);
    let master = master_borders(scale, start, stop);
    let base = 2 * start as int;
    assert forall|i: int| 0 <= i < master.len() implies #[trigger] master[i]
        == tables::template_border(scale, base + i) by {
        assert(master[i] == tables::template(scale)[base + i]);
    }
}

proof fn lemma_lowres_table(highres: Seq<u8>)
    requires
        highres.len() >= 2,
        strictly_increasing(highres),
    ensures
        group_count(lowres_borders(highres)) == (group_count(highres) + 1) / 2,
        strictly_increasing(lowres_borders(highres)),
        borders_within(lowres_borders(highres), highres),
        lowres_borders(highres).first() == highres.first(),
        lowres_borders(highres).last() == highres.last(),
{
    let lowres = lowres_borders(highres);
    let high = group_count(highres);
    assert forall|i: int| 0 <= i < lowres.len() implies highres.contains(#[trigger] lowres[i]) by {
        let source = if i == 0 {
            0
        } else {
            2 * i - high % 2
        };
        assert(highres[source] == lowres[i]);
    }
}

proof fn lemma_noise_table(lowres: Seq<u8>, groups: int)
    requires
        lowres.len() >= 2,
        strictly_increasing(lowres),
        1 <= groups <= group_count(lowres),
    ensures
        group_count(noise_borders(lowres, groups)) == groups,
        strictly_increasing(noise_borders(lowres, groups)),
        borders_within(noise_borders(lowres, groups), lowres),
        noise_borders(lowres, groups).first() == lowres.first(),
        noise_borders(lowres, groups).last() == lowres.last(),
{
    let noise = noise_borders(lowres, groups);
    let low = group_count(lowres);
    assert forall|i: int, j: int| 0 <= i < j < noise.len() implies #[trigger] noise[i]
        < #[trigger] noise[j] by {
        lemma_noise_index(low, groups, i);
        lemma_noise_index(low, groups, j);
        lemma_noise_index_increases(low, groups, i, j);
    }
    assert forall|i: int| 0 <= i < noise.len() implies lowres.contains(#[trigger] noise[i]) by {
        lemma_noise_index(low, groups, i);
        assert(lowres[noise_index(low, groups, i)] == noise[i]);
    }
    lemma_noise_index(low, groups, groups);
}

proof fn lemma_within_transitive(part: Seq<u8>, middle: Seq<u8>, whole: Seq<u8>)
    requires
        borders_within(part, middle),
        borders_within(middle, whole),
    ensures
        borders_within(part, whole),
{
    assert forall|i: int| 0 <= i < part.len() implies whole.contains(#[trigger] part[i]) by {
        let j = choose|j: int| 0 <= j < middle.len() && middle[j] == part[i];
        assert(whole.contains(middle[j]));
    }
}

/// The tables of every legal configuration are ordered and nested: they
/// strictly increase, the low-resolution table halves the high-resolution one,
/// there are between one and five noise groups, no more than there are
/// low-resolution groups, every derived border is a master border, and all four
/// tables end at the same subband.
pub proof fn lemma_bands_are_structured(bands: BandView)
    requires
        bands.legal(),
    ensures
        structured(bands),
{
    reveal(BandView::legal);
    let (scale, start, stop, noise_sbg, xover) = choose|
        scale: bool,
        start: u8,
        stop: u8,
        noise_sbg: u8,
        xover: u8,
    |
        #[trigger] derived_bands(scale, start, stop, noise_sbg, xover) == Ok::<BandView, BandError>(
            bands,
        );
    let master = bands.master;
    let highres = bands.sig_highres;
    let lowres = bands.sig_lowres;
    let groups = noise_groups(noise_sbg as int, highres.first() as int, master.last() as int);
    lemma_master_table(scale, start, stop);
    assert(highres.last() == master.last());
    assert forall|i: int| 0 <= i < highres.len() implies #[trigger] highres[i] == master[xover
        + i] by {}
    assert(borders_within(highres, master)) by {
        assert forall|i: int| 0 <= i < highres.len() implies master.contains(
            #[trigger] highres[i],
        ) by {
            assert(master[xover + i] == highres[i]);
        }
    }
    lemma_lowres_table(highres);
    lemma_noise_groups_bound(highres, noise_sbg as int);
    lemma_noise_groups(noise_sbg as int, highres.first() as int, master.last() as int);
    lemma_noise_table(lowres, groups);
    lemma_within_transitive(lowres, highres, master);
    lemma_within_transitive(bands.noise, lowres, master);
}

/// A noise density of zero asks for exactly one noise group.
pub proof fn lemma_zero_density_gives_one_noise_group(
    bands: BandView,
    scale: bool,
    start: u8,
    stop: u8,
    xover: u8,
)
    requires
        derived_bands(scale, start, stop, 0, xover) == Ok::<BandView, BandError>(bands),
    ensures
        group_count(bands.noise) == 1,
{
    let sbx = bands.sig_highres.first() as int;
    let sbz = bands.master.last() as int;
    lemma_noise_groups(0, sbx, sbz);
    assert(is_noise_group_count(0, sbx, sbz, 1)) by {
        reveal_with_fuel(pow, 3);
    }
}

/// Number of borders after the first one that do not lie above `subband`.
pub open spec fn started_groups(borders: Seq<u8>, subband: int) -> int
    decreases borders.len(),
{
    if borders.len() <= 1 {
        0
    } else {
        started_groups(borders.drop_last(), subband) + (if borders.last() <= subband {
            1int
        } else {
            0
        })
    }
}

/// The number of groups that started up to a subband is the index of the group
/// that holds it.
pub proof fn lemma_last_started_group(borders: Seq<u8>, subband: int, group: int)
    requires
        0 <= group < borders.len(),
        forall|i: int| 1 <= i <= group ==> #[trigger] borders[i] <= subband,
        forall|i: int| group < i < borders.len() ==> #[trigger] borders[i] > subband,
    ensures
        started_groups(borders, subband) == group,
    decreases borders.len(),
{
    if borders.len() > 1 {
        let shorter = borders.drop_last();
        let rest = if group == borders.len() - 1 {
            group - 1
        } else {
            group
        };
        assert forall|i: int| 1 <= i <= rest implies #[trigger] shorter[i] <= subband by {
            assert(shorter[i] == borders[i]);
        }
        assert forall|i: int| rest < i < shorter.len() implies #[trigger] shorter[i] > subband by {
            assert(shorter[i] == borders[i]);
        }
        lemma_last_started_group(shorter, subband, rest);
        assert(borders.last() == borders[borders.len() - 1]);
    }
}

/// No more groups start than there are borders after the first one.
pub proof fn lemma_started_groups_bound(borders: Seq<u8>, subband: int)
    requires
        borders.len() >= 1,
    ensures
        0 <= started_groups(borders, subband) <= borders.len() - 1,
    decreases borders.len(),
{
    if borders.len() > 1 {
        lemma_started_groups_bound(borders.drop_last(), subband);
    }
}

/// The low-resolution groups are shared out evenly over the noise groups: each
/// noise group holds the same number of them, and what is left over goes, one
/// each, to the last noise groups.
proof fn lemma_noise_index_is_even(low: int, groups: int, sbg: int)
    requires
        1 <= groups <= low,
        0 <= sbg <= groups,
    ensures
        noise_index(low, groups, sbg) == sbg * (low / groups) + (if sbg > groups - low % groups {
            sbg - (groups - low % groups)
        } else {
            0
        }),
    decreases sbg,
{
    vstd::arithmetic::div_mod::lemma_mod_bound(low, groups);
    if sbg > 0 {
        lemma_noise_index_is_even(low, groups, sbg - 1);
        let q = low / groups;
        let r = low % groups;
        let left = groups + 1 - sbg;
        let before = noise_index(low, groups, sbg - 1);
        vstd::arithmetic::div_mod::lemma_fundamental_div_mod(low, groups);
        let extra = if sbg - 1 > groups - r {
            sbg - 1 - (groups - r)
        } else {
            0
        };
        assert(low - before == q * left + (r - extra)) by (nonlinear_arith)
            requires
                low == groups * q + r,
                before == (sbg - 1) * q + extra,
                left == groups + 1 - sbg,
        ;
        assert(sbg * q == (sbg - 1) * q + q) by (nonlinear_arith);
        let rest = r - extra;
        assert(0 <= rest <= left);
        if rest == left {
            assert((low - before) == (q + 1) * left) by (nonlinear_arith)
                requires
                    low - before == q * left + rest,
                    rest == left,
            ;
            vstd::arithmetic::div_mod::lemma_fundamental_div_mod_converse(
                low - before,
                left,
                q + 1,
                0,
            );
            assert(noise_index(low, groups, sbg) == before + q + 1);
            assert(sbg > groups - r);
        } else {
            vstd::arithmetic::div_mod::lemma_fundamental_div_mod_converse(
                low - before,
                left,
                q,
                rest,
            );
            assert(noise_index(low, groups, sbg) == before + q);
            assert(sbg <= groups - r);
        }
    } else {
        assert(sbg * (low / groups) == 0) by (nonlinear_arith)
            requires
                sbg == 0,
        ;
    }
}

proof fn lemma_derived_bands_are_legal(
    scale: bool,
    start: u8,
    stop: u8,
    noise_sbg: u8,
    xover: u8,
    bands: BandView,
)
    requires
        derived_bands(scale, start, stop, noise_sbg, xover) == Ok::<BandView, BandError>(bands),
    ensures
        bands.legal(),
        structured(bands),
{
    reveal(BandView::legal);
    lemma_bands_are_structured(bands);
}

/// What the signal tables of a configuration are. The master table is the
/// template without its first two groups for each step of the start frequency
/// and its last two for each step of the stop frequency. The high-resolution
/// table is the master table from the crossover on, and the low-resolution table
/// joins its groups by twos from the top, so that a single one may be left at
/// the bottom.
#[verifier::rlimit(40)]
pub proof fn lemma_tables_of_a_configuration(
    scale: bool,
    start: u8,
    stop: u8,
    noise_sbg: u8,
    xover: u8,
)
    ensures
        derived_bands(scale, start, stop, noise_sbg, xover) matches Ok(bands) ==> {
            let high = bands.sig_highres.len() - 1;
            let low = bands.sig_lowres.len() - 1;
            &&& bands.master.len() == (if scale {
                23int
            } else {
                21
            }) - 2 * start - 2 * stop
            &&& forall|i: int|
                0 <= i < bands.master.len() ==> #[trigger] bands.master[i]
                    == tables::template_border(scale, 2 * start + i)
            &&& bands.sig_highres.len() == bands.master.len() - xover
            &&& forall|i: int|
                0 <= i < bands.sig_highres.len() ==> #[trigger] bands.sig_highres[i]
                    == bands.master[xover + i]
            &&& low == (high + 1) / 2
            &&& bands.sig_lowres[0] == bands.sig_highres[0]
            &&& forall|i: int|
                0 < i <= low ==> #[trigger] bands.sig_lowres[i] == bands.sig_highres[high - 2 * (low
                    - i)]
        },
{
    if let Ok(bands) = derived_bands(scale, start, stop, noise_sbg, xover) {
        lemma_master_borders(scale, start, stop);
        lemma_lowres_borders(bands.sig_highres);
    }
}

proof fn lemma_master_borders(scale: bool, start: u8, stop: u8)
    requires
        master_count(scale, start, stop) > 0,
    ensures
        ({
            let master = master_borders(scale, start, stop);
            &&& master.len() == (if scale {
                23int
            } else {
                21
            }) - 2 * start - 2 * stop
            &&& forall|i: int|
                0 <= i < master.len() ==> #[trigger] master[i] == tables::template_border(
                    scale,
                    2 * start + i,
                )
        }),
{
    tables::lemma_template_borders(scale);
    let master = master_borders(scale, start, stop);
    let template = tables::template(scale);
    assert forall|i: int| 0 <= i < master.len() implies #[trigger] master[i]
        == tables::template_border(scale, 2 * start + i) by {
        assert(master[i] == template[2 * start + i]);
    }
}

proof fn lemma_lowres_borders(highres: Seq<u8>)
    requires
        highres.len() > 1,
    ensures
        ({
            let lowres = lowres_borders(highres);
            let high = highres.len() - 1;
            let low = lowres.len() - 1;
            &&& low == (high + 1) / 2
            &&& lowres[0] == highres[0]
            &&& forall|i: int|
                0 < i <= low ==> #[trigger] lowres[i] == highres[high - 2 * (low - i)]
        }),
{
    let lowres = lowres_borders(highres);
    let high = highres.len() - 1;
    let low = lowres.len() - 1;
    assert forall|i: int| 0 < i <= low implies #[trigger] lowres[i] == highres[high - 2 * (low
        - i)] by {
        assert(2 * i - high % 2 == high - 2 * (low - i));
    }
}

/// What the noise table of a configuration is: it joins low-resolution groups,
/// as evenly as whole groups allow and the larger noise groups last.
#[verifier::rlimit(40)]
pub proof fn lemma_noise_table_of_a_configuration(
    scale: bool,
    start: u8,
    stop: u8,
    noise_sbg: u8,
    xover: u8,
    sbg: int,
)
    ensures
        derived_bands(scale, start, stop, noise_sbg, xover) matches Ok(bands) ==> {
            let low = bands.sig_lowres.len() - 1;
            let groups = bands.noise.len() - 1;
            let even = groups - low % groups;
            &&& 1 <= groups <= low
            &&& 0 <= sbg <= even ==> bands.noise[sbg] == bands.sig_lowres[sbg * (low / groups)]
            &&& even < sbg <= groups ==> bands.noise[sbg] == bands.sig_lowres[sbg * (low / groups)
                + (sbg - even)]
        },
{
    if let Ok(bands) = derived_bands(scale, start, stop, noise_sbg, xover) {
        let low = bands.sig_lowres.len() - 1;
        let groups = bands.noise.len() - 1;
        lemma_derived_bands_are_legal(scale, start, stop, noise_sbg, xover, bands);
        vstd::arithmetic::div_mod::lemma_mod_bound(low, groups);
        if 0 <= sbg <= groups {
            lemma_noise_index_is_even(low, groups, sbg);
            let count = noise_groups(
                noise_sbg as int,
                bands.sig_highres.first() as int,
                bands.master.last() as int,
            );
            lemma_noise_groups(
                noise_sbg as int,
                bands.sig_highres.first() as int,
                bands.master.last() as int,
            );
            assert(bands.noise == noise_borders(bands.sig_lowres, count));
            assert(bands.noise.len() == (count + 1) as nat);
            assert(bands.noise[sbg] == bands.sig_lowres[noise_index(low, groups, sbg)]);
        }
    }
}

/// How many noise groups a configuration has: their number is the density times
/// the octaves between crossover and top, rounded to the nearest whole number,
/// or one where that is less. Stated without logarithms, both sides are raised
/// to a power of four.
pub proof fn lemma_noise_groups_of_a_configuration(
    scale: bool,
    start: u8,
    stop: u8,
    noise_sbg: u8,
    xover: u8,
)
    ensures
        derived_bands(scale, start, stop, noise_sbg, xover) matches Ok(bands) ==> {
            let groups = bands.noise.len() - 1;
            let top = pow(bands.master.last() as int, (2 * noise_sbg) as nat);
            let bottom = pow(bands.sig_highres.first() as int, (2 * noise_sbg) as nat);
            &&& 1 <= groups <= 5
            &&& groups > 1 ==> bottom * pow(4, groups as nat) <= 2 * top
            &&& 2 * top < bottom * pow(4, (groups + 1) as nat)
        },
{
    if let Ok(bands) = derived_bands(scale, start, stop, noise_sbg, xover) {
        lemma_derived_bands_are_legal(scale, start, stop, noise_sbg, xover, bands);
        lemma_noise_groups(
            noise_sbg as int,
            bands.sig_highres.first() as int,
            bands.master.last() as int,
        );
    }
}

/// Which configurations have tables: the start frequency and the crossover have
/// eight steps, the stop frequency and the noise density four, the crossover
/// leaves at least one group of the master table, and the density asks for no
/// more than five noise groups. The other configurations are refused for the
/// first of these that fails.
#[verifier::rlimit(40)]
pub proof fn lemma_which_configurations_have_tables(
    scale: bool,
    start: u8,
    stop: u8,
    noise_sbg: u8,
    xover: u8,
)
    ensures
        ({
            let groups = (if scale {
                22int
            } else {
                20
            }) - 2 * start - 2 * stop;
            match derived_bands(scale, start, stop, noise_sbg, xover) {
                Ok(bands) => start <= 7 && stop <= 3 && noise_sbg <= 3 && xover <= 7 && xover
                    < groups,
                Err(BandError::StartFrequencyOutOfRange { start_freq }) => start > 7 && start_freq
                    == start,
                Err(BandError::StopFrequencyOutOfRange { stop_freq }) => start <= 7 && stop > 3
                    && stop_freq == stop,
                Err(BandError::NoiseSbgOutOfRange { noise_sbg: density }) => start <= 7 && stop <= 3
                    && noise_sbg > 3 && density == noise_sbg,
                Err(BandError::CrossoverOffsetOutOfRange { xover: offset }) => start <= 7 && stop
                    <= 3 && noise_sbg <= 3 && xover > 7 && offset == xover,
                Err(BandError::EmptyMasterTable { start_freq, stop_freq }) => start <= 7 && stop
                    <= 3 && noise_sbg <= 3 && xover <= 7 && groups <= 0 && start_freq == start
                    && stop_freq == stop,
                Err(BandError::CrossoverOutOfRange { xover: offset, num_sbg_master }) => start <= 7
                    && stop <= 3 && noise_sbg <= 3 && xover <= 7 && 0 < groups <= xover && offset
                    == xover && num_sbg_master == groups,
                Err(BandError::TooManyNoiseGroups { num_sbg_noise, limit }) => start <= 7 && stop
                    <= 3 && noise_sbg <= 3 && xover <= 7 && xover < groups && limit == 5,
            }
        }),
{
    tables::lemma_template_borders(scale);
}

/// The noise group count of a configuration, in terms of the template.
#[verifier::rlimit(40)]
proof fn lemma_noise_count(scale: bool, start: u8, stop: u8, noise_sbg: u8, xover: u8)
    requires
        start <= 7,
        stop <= 3,
        noise_sbg <= 3,
        xover <= 7,
        xover < master_count(scale, start, stop),
    ensures
        ({
            let count = master_count(scale, start, stop);
            let master = master_borders(scale, start, stop);
            let highres = master.subrange(xover as int, master.len() as int);
            let groups = noise_groups(
                noise_sbg as int,
                highres.first() as int,
                master.last() as int,
            );
            &&& 1 <= groups <= 11
            &&& is_noise_group_count(
                noise_sbg as int,
                tables::template_border(scale, 2 * start + xover),
                tables::template_border(scale, 2 * start + count),
                groups,
            )
        }),
{
    let master = master_borders(scale, start, stop);
    let highres = master.subrange(xover as int, master.len() as int);
    lemma_master_table(scale, start, stop);
    assert forall|i: int| 0 <= i < highres.len() implies #[trigger] highres[i] == master[xover
        + i] by {}
    assert(highres.last() == master.last());
    lemma_noise_groups_bound(highres, noise_sbg as int);
    lemma_noise_groups(noise_sbg as int, highres.first() as int, master.last() as int);
    lemma_master_borders(scale, start, stop);
    assert(highres.first() == master[xover as int]);
    assert(master.last() == master[master.len() - 1]);
}

/// When a noise density is refused: it asks for more than five noise groups, and
/// the error says for how many.
#[verifier::rlimit(40)]
pub proof fn lemma_when_a_noise_density_is_refused(
    scale: bool,
    start: u8,
    stop: u8,
    noise_sbg: u8,
    xover: u8,
)
    requires
        start <= 7,
        stop <= 3,
        noise_sbg <= 3,
        xover <= 7,
        xover < (if scale {
            22int
        } else {
            20
        }) - 2 * start - 2 * stop,
    ensures
        derived_bands(scale, start, stop, noise_sbg, xover) matches Err(error) ==> {
            let last = (if scale {
                22int
            } else {
                20
            }) - 2 * stop;
            let top = pow(tables::template_border(scale, last), (2 * noise_sbg) as nat);
            let bottom = pow(
                tables::template_border(scale, 2 * start + xover),
                (2 * noise_sbg) as nat,
            );
            &&& error matches BandError::TooManyNoiseGroups { num_sbg_noise, limit } && {
                &&& num_sbg_noise > 5
                &&& bottom * pow(4, num_sbg_noise as nat) <= 2 * top
                &&& 2 * top < bottom * pow(4, (num_sbg_noise + 1) as nat)
            }
        },
{
    tables::lemma_template_borders(scale);
    lemma_noise_count(scale, start, stop, noise_sbg, xover);
    assert(2 * start + master_count(scale, start, stop) == (if scale {
        22int
    } else {
        20
    }) - 2 * stop);
}

/// The edges of tables that are not empty: the low band ends at the first master
/// border, the crossover is the first high-resolution border, and the range ends
/// at the last master border. A border is found exactly at its index.
pub proof fn lemma_band_edges(bands: BandView, index: int)
    requires
        bands.master.len() > 0,
        bands.sig_highres.len() > 0,
    ensures
        bands.sba() == bands.master[0],
        bands.sbz() == bands.master[bands.master.len() - 1],
        bands.sbx() == bands.sig_highres[0],
        border_at(bands.master, index) is Some <==> 0 <= index < bands.master.len(),
        border_at(bands.master, index) matches Some(border) ==> border == bands.master[index],
        group_count(bands.master) == bands.master.len() - 1,
{
}

} // verus!
