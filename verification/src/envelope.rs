//! Decoding of signal and noise envelopes.
//!
//! The payload holds differences. Along frequency they add up from the lowest
//! group on; along time they add to the previous envelope, which for the first
//! envelope of an interval is the last one of the interval before. The result
//! is a set of quantised scale factors.
use vstd::prelude::*;
use crate::bands::{self, AspxBandTables, BandView};
use crate::frames::{MAX_ATSG_NOISE, MAX_ATSG_SIG};
use crate::syntax::MAX_SBG_PER_ENVELOPE;
use crate::tables::EnvelopeKind;

verus! {

/// Largest number of noise groups.
pub const NOISE_GROUPS: usize = 5;

/// Why envelopes could not be decoded.
#[derive(Debug, Clone, Copy, PartialEq, Eq, Structural)]
pub enum EnvelopeError {
    /// More groups than one envelope can hold.
    TooManyGroups {
        /// Number of high-resolution groups.
        high: usize,
        /// Number of low-resolution groups.
        low: usize,
    },
    /// A border table has no border with this index.
    MissingBorder {
        /// The index.
        index: usize,
    },
    /// More envelopes than one interval can hold.
    TooManyEnvelopes {
        /// Number of signal envelopes.
        signal: usize,
        /// Number of noise envelopes.
        noise: usize,
    },
    /// No signal or no noise envelope.
    MissingEnvelopes {
        /// Number of signal envelopes.
        signal: usize,
        /// Number of noise envelopes.
        noise: usize,
    },
    /// A time difference refers to an interval that was never decoded.
    MissingHistory {
        /// Index of the envelope.
        envelope: usize,
    },
    /// An envelope holds fewer differences than it has groups.
    OutputTooSmall {
        /// Number of groups.
        needed: usize,
        /// Number of differences.
        provided: usize,
    },
    /// A scale factor does not fit in 16 bits.
    ScaleFactorOverflow {
        /// Envelope family.
        kind: EnvelopeKind,
        /// Index of the envelope.
        envelope: usize,
        /// Index of the group.
        group: usize,
    },
}

/// Correspondence between high- and low-resolution groups.
#[verifier::ext_equal]
pub struct IndexMapView {
    /// For each high-resolution group the low-resolution group that holds it.
    pub high2low: Seq<u8>,
    /// For each low-resolution group its first high-resolution group.
    pub low2high: Seq<u8>,
    /// Number of noise groups.
    pub num_noise: u8,
}

/// The correspondence in tables with `high` high-resolution groups.
///
/// A low-resolution group holds two high-resolution groups, except that the
/// first one holds a single one when their number is odd.
pub open spec fn index_map(bands: BandView) -> IndexMapView {
    let high = bands::group_count(bands.sig_highres);
    IndexMapView {
        high2low: Seq::new(high as nat, |h: int| ((h + high % 2) / 2) as u8),
        low2high: Seq::new(
            ((high + 1) / 2) as nat,
            |l: int|
                if l == 0 {
                    0
                } else {
                    (2 * l - high % 2) as u8
                },
        ),
        num_noise: bands::group_count(bands.noise) as u8,
    }
}

impl IndexMapView {
    /// Number of groups of an envelope with the given resolution.
    pub open spec fn groups(self, high_resolution: bool) -> int {
        if high_resolution {
            self.high2low.len() as int
        } else {
            self.low2high.len() as int
        }
    }

    /// The group of the previous envelope that group `sbg` refers to.
    pub open spec fn source(self, high: bool, previous_high: bool, sbg: int) -> int {
        if high == previous_high {
            sbg
        } else if high {
            self.high2low[sbg] as int
        } else {
            self.low2high[sbg] as int
        }
    }

    /// Whether the map stays inside the groups of either resolution.
    pub open spec fn consistent(self) -> bool {
        &&& self.high2low.len() <= MAX_SBG_PER_ENVELOPE
        &&& self.low2high.len() <= self.high2low.len()
        &&& self.num_noise <= NOISE_GROUPS
        &&& forall|h: int|
            0 <= h < self.high2low.len() ==> #[trigger] self.high2low[h] < self.low2high.len()
        &&& forall|l: int|
            0 <= l < self.low2high.len() ==> #[trigger] self.low2high[l] < self.high2low.len()
    }
}

/// Bidirectional map between high- and low-resolution groups.
#[derive(Debug, Clone, Copy)]
pub struct SbgIndexMap {
    high2low: [u8; MAX_SBG_PER_ENVELOPE],
    low2high: [u8; MAX_SBG_PER_ENVELOPE],
    num_high: u8,
    num_low: u8,
    num_noise: u8,
}

impl View for SbgIndexMap {
    type V = IndexMapView;

    closed spec fn view(&self) -> IndexMapView {
        IndexMapView {
            high2low: self.high2low@.take(self.num_high as int),
            low2high: self.low2high@.take(self.num_low as int),
            num_noise: self.num_noise,
        }
    }
}

/// The tables of valid bands have as many groups as the map expects.
proof fn lemma_group_counts(bands: BandView)
    requires
        bands.valid(),
    ensures
        bands::group_count(bands.sig_highres) <= 22,
        bands::group_count(bands.sig_lowres) == (bands::group_count(bands.sig_highres) + 1) / 2,
        bands::group_count(bands.noise) <= NOISE_GROUPS,
        bands.legal() ==> bands.sig_lowres == bands::lowres_borders(bands.sig_highres),
{
    if bands.legal() {
        bands::lemma_bands_are_structured(bands);
        reveal(BandView::legal);
    }
}

impl SbgIndexMap {
    #[verifier::type_invariant]
    spec fn well_formed(self) -> bool {
        &&& self.num_high <= MAX_SBG_PER_ENVELOPE
        &&& self.num_low <= MAX_SBG_PER_ENVELOPE
        &&& self@.consistent()
    }

    /// Derives the map of a set of subband-group tables.
    ///
    /// Low-resolution borders are a subset of the high-resolution ones, so one
    /// pass over the latter suffices.
    pub fn derive(bands: &AspxBandTables) -> (result: Result<Self, EnvelopeError>)
        ensures
            result matches Ok(map) && map@ == index_map(bands@),
    {
        let num_high: u8 = bands.num_sbg_sig_highres();
        let num_low: u8 = bands.num_sbg_sig_lowres();
        let num_noise: u8 = bands.num_sbg_noise();
        let ghost b = bands@;
        let ghost odd = bands::group_count(b.sig_highres) % 2;
        proof {
            lemma_group_counts(b);
            if b.legal() {
                bands::lemma_bands_are_structured(b);
            }
        }
        if num_high as usize > MAX_SBG_PER_ENVELOPE || num_low as usize > MAX_SBG_PER_ENVELOPE {
            return Err(
                EnvelopeError::TooManyGroups { high: num_high as usize, low: num_low as usize },
            );
        }
        let mut high2low: [u8; MAX_SBG_PER_ENVELOPE] = [0; MAX_SBG_PER_ENVELOPE];
        let mut low2high: [u8; MAX_SBG_PER_ENVELOPE] = [0; MAX_SBG_PER_ENVELOPE];
        let mut low: usize = 0;
        let mut high: usize = 0;
        while high < num_high as usize
            invariant
                high <= num_high <= MAX_SBG_PER_ENVELOPE,
                b == bands@,
                num_high == bands::group_count(b.sig_highres),
                num_low == bands::group_count(b.sig_lowres),
                num_low == (num_high + 1) / 2,
                odd == num_high % 2,
                num_high > 0 ==> {
                    &&& b.sig_lowres == bands::lowres_borders(b.sig_highres)
                    &&& bands::strictly_increasing(b.sig_highres)
                },
                low == if high == 0 {
                    0int
                } else {
                    (high - 1 + odd) / 2
                },
                forall|h: int| 0 <= h < high ==> #[trigger] high2low@[h] == (h + odd) / 2,
                low2high@[0] == 0,
                forall|l: int| 1 <= l <= low ==> #[trigger] low2high@[l] == 2 * l - odd,
            decreases num_high - high,
        {
            let next_low_border: u8 = match bands.sig_lowres_border(low + 1) {
                Some(border) => border,
                None => {
                    return Err(EnvelopeError::MissingBorder { index: low + 1 });
                },
            };
            let high_border: u8 = match bands.sig_highres_border(high) {
                Some(border) => border,
                None => {
                    return Err(EnvelopeError::MissingBorder { index: high });
                },
            };
            proof {
                let source = 2 * (low + 1) - odd;
                assert(next_low_border == b.sig_highres[source]);
                if source < high {
                    assert(b.sig_highres[source] < b.sig_highres[high as int]);
                } else if source > high {
                    assert(b.sig_highres[high as int] < b.sig_highres[source]);
                }
            }
            if next_low_border == high_border {
                low = low + 1;
                low2high[low] = high as u8;
            }
            high2low[high] = low as u8;
            high = high + 1;
        }
        proof {
            let view = index_map(b);
            assert(high2low@.take(num_high as int) =~= view.high2low);
            assert(low2high@.take(num_low as int) =~= view.low2high);
        }
        Ok(SbgIndexMap { high2low, low2high, num_high, num_low, num_noise })
    }

    /// The low-resolution group that holds high-resolution group `sbg`.
    #[must_use]
    pub fn high_to_low(&self, sbg: usize) -> (group: Option<u8>)
        ensures
            group == bands::border_at(self@.high2low, sbg as int),
    {
        proof {
            use_type_invariant(self);
        }
        if sbg >= self.num_high as usize {
            return None;
        }
        Some(self.high2low[sbg])
    }

    /// Number of noise groups.
    #[must_use]
    pub fn noise_groups(&self) -> (groups: u8)
        ensures
            groups == self@.num_noise,
            self@.consistent(),
    {
        proof {
            use_type_invariant(self);
        }
        self.num_noise
    }

    /// The first high-resolution group of low-resolution group `sbg`.
    #[must_use]
    pub fn low_to_high(&self, sbg: usize) -> (group: Option<u8>)
        ensures
            group == bands::border_at(self@.low2high, sbg as int),
    {
        proof {
            use_type_invariant(self);
        }
        if sbg >= self.num_low as usize {
            return None;
        }
        Some(self.low2high[sbg])
    }

    /// Number of groups of an envelope with the given resolution.
    fn groups(&self, high_resolution: bool) -> (groups: usize)
        ensures
            groups == self@.groups(high_resolution),
            self@.consistent(),
    {
        proof {
            use_type_invariant(self);
        }
        if high_resolution {
            self.num_high as usize
        } else {
            self.num_low as usize
        }
    }

    /// The group of the previous envelope that group `sbg` refers to.
    fn source(&self, high: bool, previous_high: bool, sbg: usize) -> (source: usize)
        requires
            sbg < self@.groups(high),
        ensures
            source == self@.source(high, previous_high, sbg as int),
            source < self@.groups(previous_high),
    {
        proof {
            use_type_invariant(self);
            assert(high && !previous_high ==> self@.high2low[sbg as int] < self@.low2high.len());
            assert(!high && previous_high ==> self@.low2high[sbg as int] < self@.high2low.len());
        }
        if high == previous_high {
            sbg
        } else if high {
            self.high2low[sbg] as usize
        } else {
            self.low2high[sbg] as usize
        }
    }
}

/// The two maps are inverse to each other in the sense that the first
/// high-resolution group of a low-resolution group lies in it and shares its
/// lower border; the one map never decreases and covers every low-resolution
/// group, the other strictly increases.
pub proof fn lemma_index_map_is_consistent(bands: BandView)
    requires
        bands.legal(),
    ensures
        index_map(bands).consistent(),
        index_map(bands).high2low.len() == bands::group_count(bands.sig_highres),
        index_map(bands).low2high.len() == bands::group_count(bands.sig_lowres),
        index_map(bands).high2low.first() == 0,
        index_map(bands).high2low.last() == bands::group_count(bands.sig_lowres) - 1,
        forall|l: int|
            0 <= l < bands::group_count(bands.sig_lowres) ==> {
                let h = #[trigger] index_map(bands).low2high[l] as int;
                &&& index_map(bands).high2low[h] == l
                &&& bands.sig_highres[h] == bands.sig_lowres[l]
            },
        forall|i: int, j: int|
            0 <= i < j < bands::group_count(bands.sig_highres) ==> #[trigger] index_map(
                bands,
            ).high2low[i] <= #[trigger] index_map(bands).high2low[j],
        forall|i: int, j: int|
            0 <= i < j < bands::group_count(bands.sig_lowres) ==> #[trigger] index_map(
                bands,
            ).low2high[i] < #[trigger] index_map(bands).low2high[j],
{
    bands::lemma_bands_are_structured(bands);
    lemma_group_counts(bands);
    let map = index_map(bands);
    let high = bands::group_count(bands.sig_highres);
    assert forall|l: int| 0 <= l < bands::group_count(bands.sig_lowres) implies {
        let h = #[trigger] map.low2high[l] as int;
        &&& map.high2low[h] == l
        &&& bands.sig_highres[h] == bands.sig_lowres[l]
    } by {
        let h = map.low2high[l] as int;
        assert(bands.sig_lowres[l] == bands::lowres_borders(bands.sig_highres)[l]);
    }
}

/// The last envelopes of the previous interval.
///
/// Differences along time refer to them at the start of the next interval.
#[derive(Debug, Clone, Copy, PartialEq, Eq)]
pub struct EnvelopeHistory {
    /// Scale factors of the last signal envelope.
    pub sig: [i16; MAX_SBG_PER_ENVELOPE],
    /// Whether that envelope had high frequency resolution.
    pub sig_freq_res: bool,
    /// Scale factors of the last noise envelope.
    pub noise: [i16; NOISE_GROUPS],
    /// Whether there was a previous interval at all.
    pub primed: bool,
}

impl EnvelopeHistory {
    /// A history before the first interval.
    #[must_use]
    pub fn new() -> (history: Self)
        ensures
            !history.primed,
            !history.sig_freq_res,
            history.sig@ == Seq::new(22, |i: int| 0i16),
            history.noise@ == Seq::new(5, |i: int| 0i16),
    {
        let sig: [i16; MAX_SBG_PER_ENVELOPE] = [0; MAX_SBG_PER_ENVELOPE];
        let noise: [i16; NOISE_GROUPS] = [0; NOISE_GROUPS];
        assert(sig@ =~= Seq::new(22, |i: int| 0i16));
        assert(noise@ =~= Seq::new(5, |i: int| 0i16));
        EnvelopeHistory { sig, sig_freq_res: false, noise, primed: false }
    }

    /// Whether there was a previous interval.
    #[must_use]
    pub fn is_primed(&self) -> (primed: bool)
        ensures
            primed == self.primed,
    {
        self.primed
    }
}

impl Default for EnvelopeHistory {
    fn default() -> (history: Self)
        ensures
            !history.primed,
            !history.sig_freq_res,
            history.sig@ == Seq::new(22, |i: int| 0i16),
            history.noise@ == Seq::new(5, |i: int| 0i16),
    {
        EnvelopeHistory::new()
    }
}

/// Quantised scale factors of one interval.
#[verifier::ext_equal]
pub struct FactorsView {
    /// Scale factors of each signal envelope, one per group.
    pub sig: Seq<Seq<i16>>,
    /// Scale factors of each noise envelope, one per group.
    pub noise: Seq<Seq<i16>>,
    /// Number of noise groups.
    pub noise_groups: u8,
}

/// The value in row `env` and column `sbg`, if there is one.
pub open spec fn cell(rows: Seq<Seq<i16>>, env: int, sbg: int) -> Option<i16> {
    if 0 <= env < rows.len() && 0 <= sbg < rows[env].len() {
        Some(rows[env][sbg])
    } else {
        None
    }
}

/// Quantised scale factors of one channel in one interval.
#[derive(Debug, Clone, Copy)]
pub struct EnvelopeScaleFactors {
    sig: [[i16; MAX_SBG_PER_ENVELOPE]; MAX_ATSG_SIG],
    sig_groups: [u8; MAX_ATSG_SIG],
    num_sig: u8,
    noise: [[i16; NOISE_GROUPS]; MAX_ATSG_NOISE],
    noise_groups: u8,
    num_noise: u8,
}

impl View for EnvelopeScaleFactors {
    type V = FactorsView;

    closed spec fn view(&self) -> FactorsView {
        FactorsView {
            sig: Seq::new(
                self.num_sig as nat,
                |env: int| self.sig@[env]@.take(self.sig_groups@[env] as int),
            ),
            noise: Seq::new(
                self.num_noise as nat,
                |env: int| self.noise@[env]@.take(self.noise_groups as int),
            ),
            noise_groups: self.noise_groups,
        }
    }
}

impl EnvelopeScaleFactors {
    #[verifier::type_invariant]
    spec fn well_formed(self) -> bool {
        &&& self.num_sig <= MAX_ATSG_SIG
        &&& self.num_noise <= MAX_ATSG_NOISE
        &&& self.noise_groups <= NOISE_GROUPS
        &&& forall|env: int|
            0 <= env < self.num_sig ==> #[trigger] self.sig_groups@[env] <= MAX_SBG_PER_ENVELOPE
    }

    /// No envelopes at all.
    #[must_use]
    pub fn new() -> (factors: Self)
        ensures
            factors@.sig == Seq::<Seq<i16>>::empty(),
            factors@.noise == Seq::<Seq<i16>>::empty(),
            factors@.noise_groups == 0,
    {
        let factors = EnvelopeScaleFactors {
            sig: [[0; MAX_SBG_PER_ENVELOPE]; MAX_ATSG_SIG],
            sig_groups: [0; MAX_ATSG_SIG],
            num_sig: 0,
            noise: [[0; NOISE_GROUPS]; MAX_ATSG_NOISE],
            noise_groups: 0,
            num_noise: 0,
        };
        assert(factors@.sig =~= Seq::<Seq<i16>>::empty());
        assert(factors@.noise =~= Seq::<Seq<i16>>::empty());
        factors
    }

    /// Scale factor of group `sbg` in signal envelope `env`.
    #[must_use]
    pub fn sig(&self, env: usize, sbg: usize) -> (value: Option<i16>)
        ensures
            value == cell(self@.sig, env as int, sbg as int),
    {
        proof {
            use_type_invariant(self);
        }
        if env >= self.num_sig as usize || sbg >= self.sig_groups[env] as usize {
            return None;
        }
        Some(self.sig[env][sbg])
    }

    /// Scale factor of group `sbg` in noise envelope `env`.
    #[must_use]
    pub fn noise(&self, env: usize, sbg: usize) -> (value: Option<i16>)
        ensures
            value == cell(self@.noise, env as int, sbg as int),
    {
        proof {
            use_type_invariant(self);
        }
        if env >= self.num_noise as usize || sbg >= self.noise_groups as usize {
            return None;
        }
        Some(self.noise[env][sbg])
    }

    /// Number of signal and of noise envelopes.
    #[must_use]
    pub fn counts(&self) -> (counts: (u8, u8))
        ensures
            counts.0 == self@.sig.len() <= MAX_ATSG_SIG,
            counts.1 == self@.noise.len() <= MAX_ATSG_NOISE,
    {
        proof {
            use_type_invariant(self);
        }
        (self.num_sig, self.num_noise)
    }

    /// Number of groups in signal envelope `env`.
    #[must_use]
    pub fn sig_group_count(&self, env: usize) -> (count: Option<u8>)
        ensures
            match count {
                Some(groups) => {
                    &&& env < self@.sig.len()
                    &&& groups == self@.sig[env as int].len() <= MAX_SBG_PER_ENVELOPE
                },
                None => env >= self@.sig.len(),
            },
    {
        proof {
            use_type_invariant(self);
        }
        if env >= self.num_sig as usize {
            return None;
        }
        Some(self.sig_groups[env])
    }

    /// Number of groups in every noise envelope.
    #[must_use]
    pub fn noise_group_count(&self) -> (count: u8)
        ensures
            count == self@.noise_groups <= NOISE_GROUPS,
            forall|env: int|
                0 <= env < self@.noise.len() ==> (#[trigger] self@.noise[env]).len() == count,
    {
        proof {
            use_type_invariant(self);
        }
        self.noise_groups
    }
}

impl Default for EnvelopeScaleFactors {
    fn default() -> (factors: Self)
        ensures
            factors@.sig == Seq::<Seq<i16>>::empty(),
            factors@.noise == Seq::<Seq<i16>>::empty(),
            factors@.noise_groups == 0,
    {
        EnvelopeScaleFactors::new()
    }
}

/// The differences of one envelope.
#[derive(Debug, Clone, Copy)]
pub struct EnvelopeDeltas<'a> {
    /// One difference per group.
    pub data: &'a [i16],
    /// Whether the differences run along time rather than along frequency.
    pub time_direction: bool,
    /// Whether the envelope has high frequency resolution; without meaning for
    /// noise envelopes.
    pub high_resolution: bool,
}

/// The differences of one envelope.
#[verifier::ext_equal]
pub struct DeltasView {
    /// One difference per group.
    pub data: Seq<i16>,
    /// Whether the differences run along time rather than along frequency.
    pub time_direction: bool,
    /// Whether the envelope has high frequency resolution.
    pub high_resolution: bool,
}

impl<'a> View for EnvelopeDeltas<'a> {
    type V = DeltasView;

    open spec fn view(&self) -> DeltasView {
        DeltasView {
            data: self.data@,
            time_direction: self.time_direction,
            high_resolution: self.high_resolution,
        }
    }
}

/// The differences of several envelopes.
pub open spec fn deltas_of(envelopes: Seq<EnvelopeDeltas<'_>>) -> Seq<DeltasView> {
    Seq::new(envelopes.len(), |index: int| envelopes[index]@)
}

/// Whether a value fits in 16 bits.
pub open spec fn fits(value: int) -> bool {
    i16::MIN <= value <= i16::MAX
}

/// Sum of the first `count` differences.
pub open spec fn prefix_sum(data: Seq<i16>, count: int) -> int
    decreases count,
{
    if count <= 0 {
        0
    } else {
        prefix_sum(data, count - 1) + data[count - 1]
    }
}

/// How one envelope refers to the one before it.
#[verifier::ext_equal]
pub struct RowInput {
    /// Differences.
    pub data: Seq<i16>,
    /// Weight of every difference.
    pub delta: int,
    /// Whether the differences run along time.
    pub time: bool,
    /// For each group the value of the previous envelope it refers to.
    pub previous: Seq<i16>,
}

impl RowInput {
    /// The scale factor of group `sbg`.
    pub open spec fn value(self, sbg: int) -> int {
        if self.time {
            self.previous[sbg] + self.delta * self.data[sbg]
        } else {
            self.delta * prefix_sum(self.data, sbg + 1)
        }
    }

    /// Whether neither the weighted difference nor the sum leaves 16 bits.
    pub open spec fn value_fits(self, sbg: int) -> bool {
        fits(self.delta * self.data[sbg]) && fits(self.value(sbg))
    }

    /// The first group from `sbg` on, below `groups`, that does not fit.
    pub open spec fn first_overflow(self, groups: int, sbg: int) -> Option<int>
        decreases groups - sbg,
    {
        if sbg >= groups {
            None
        } else if !self.value_fits(sbg) {
            Some(sbg)
        } else {
            self.first_overflow(groups, sbg + 1)
        }
    }

    /// The scale factors of `groups` groups, or the first group that does not
    /// fit.
    pub open spec fn row(self, groups: int) -> Result<Seq<i16>, int> {
        match self.first_overflow(groups, 0) {
            Some(sbg) => Err(sbg),
            None => Ok(Seq::new(groups as nat, |sbg: int| self.value(sbg) as i16)),
        }
    }
}

/// What has been decoded after some number of envelopes: the rows, or the
/// envelope and group that did not fit.
pub enum DecodedRows {
    /// All scale factors fit.
    Rows(Seq<Seq<i16>>),
    /// Index of the envelope and of the group that did not fit.
    Overflow(int, int),
}

/// Weight of every difference.
pub open spec fn delta_of(delta_is_two: bool) -> int {
    if delta_is_two {
        2
    } else {
        1
    }
}

/// The resolution of the envelope before signal envelope `index`.
pub open spec fn previous_resolution(
    signal: Seq<DeltasView>,
    history: EnvelopeHistory,
    index: int,
) -> bool {
    if index == 0 {
        history.sig_freq_res
    } else {
        signal[index - 1].high_resolution
    }
}

/// Signal envelope `index`, given the rows before it.
pub open spec fn signal_input(
    signal: Seq<DeltasView>,
    map: IndexMapView,
    delta: int,
    history: EnvelopeHistory,
    rows: Seq<Seq<i16>>,
    index: int,
) -> RowInput {
    let high = signal[index].high_resolution;
    let previous_high = previous_resolution(signal, history, index);
    let before = if index == 0 {
        history.sig@
    } else {
        rows[index - 1]
    };
    RowInput {
        data: signal[index].data,
        delta,
        time: signal[index].time_direction,
        previous: Seq::new(
            map.groups(high) as nat,
            |sbg: int| before[map.source(high, previous_high, sbg)],
        ),
    }
}

/// The first `count` signal envelopes.
pub open spec fn signal_rows(
    signal: Seq<DeltasView>,
    map: IndexMapView,
    delta: int,
    history: EnvelopeHistory,
    count: int,
) -> DecodedRows
    decreases count,
{
    if count <= 0 {
        DecodedRows::Rows(Seq::empty())
    } else {
        match signal_rows(signal, map, delta, history, count - 1) {
            DecodedRows::Overflow(env, sbg) => DecodedRows::Overflow(env, sbg),
            DecodedRows::Rows(rows) => {
                let input = signal_input(signal, map, delta, history, rows, count - 1);
                match input.row(map.groups(signal[count - 1].high_resolution)) {
                    Ok(row) => DecodedRows::Rows(rows.push(row)),
                    Err(sbg) => DecodedRows::Overflow(count - 1, sbg),
                }
            },
        }
    }
}

/// Noise envelope `index`, given the rows before it.
pub open spec fn noise_input(
    noise: Seq<DeltasView>,
    delta: int,
    history: EnvelopeHistory,
    rows: Seq<Seq<i16>>,
    index: int,
) -> RowInput {
    RowInput {
        data: noise[index].data,
        delta,
        time: noise[index].time_direction,
        previous: if index == 0 {
            history.noise@
        } else {
            rows[index - 1]
        },
    }
}

/// The first `count` noise envelopes.
pub open spec fn noise_rows(
    noise: Seq<DeltasView>,
    groups: int,
    delta: int,
    history: EnvelopeHistory,
    count: int,
) -> DecodedRows
    decreases count,
{
    if count <= 0 {
        DecodedRows::Rows(Seq::empty())
    } else {
        match noise_rows(noise, groups, delta, history, count - 1) {
            DecodedRows::Overflow(env, sbg) => DecodedRows::Overflow(env, sbg),
            DecodedRows::Rows(rows) => {
                match noise_input(noise, delta, history, rows, count - 1).row(groups) {
                    Ok(row) => DecodedRows::Rows(rows.push(row)),
                    Err(sbg) => DecodedRows::Overflow(count - 1, sbg),
                }
            },
        }
    }
}

/// What is wrong with envelope `index` or a later one before any decoding:
/// too few differences, or a time difference without a history.
pub open spec fn first_bad_input(
    envelopes: Seq<DeltasView>,
    groups: spec_fn(bool) -> int,
    primed: bool,
    index: int,
) -> Option<EnvelopeError>
    decreases envelopes.len() - index,
{
    if index >= envelopes.len() {
        None
    } else {
        let needed = groups(envelopes[index].high_resolution);
        if envelopes[index].data.len() < needed {
            Some(
                EnvelopeError::OutputTooSmall {
                    needed: needed as usize,
                    provided: envelopes[index].data.len() as usize,
                },
            )
        } else if index == 0 && envelopes[index].time_direction && !primed {
            Some(EnvelopeError::MissingHistory { envelope: 0 })
        } else {
            first_bad_input(envelopes, groups, primed, index + 1)
        }
    }
}

/// What is wrong with the input of a decoding, if anything.
pub open spec fn input_error(
    signal: Seq<DeltasView>,
    noise: Seq<DeltasView>,
    map: IndexMapView,
    primed: bool,
) -> Option<EnvelopeError> {
    if signal.len() == 0 || noise.len() == 0 {
        Some(
            EnvelopeError::MissingEnvelopes {
                signal: signal.len() as usize,
                noise: noise.len() as usize,
            },
        )
    } else if signal.len() > MAX_ATSG_SIG || noise.len() > MAX_ATSG_NOISE {
        Some(
            EnvelopeError::TooManyEnvelopes {
                signal: signal.len() as usize,
                noise: noise.len() as usize,
            },
        )
    } else {
        match first_bad_input(signal, |high: bool| map.groups(high), primed, 0) {
            Some(error) => Some(error),
            None => first_bad_input(noise, |high: bool| map.num_noise as int, primed, 0),
        }
    }
}

/// The scale factors of one interval, or why there are none.
pub open spec fn decoded_factors(
    signal: Seq<DeltasView>,
    noise: Seq<DeltasView>,
    map: IndexMapView,
    delta_is_two: bool,
    history: EnvelopeHistory,
) -> Result<FactorsView, EnvelopeError> {
    let delta = delta_of(delta_is_two);
    match input_error(signal, noise, map, history.primed) {
        Some(error) => Err(error),
        None => match signal_rows(signal, map, delta, history, signal.len() as int) {
            DecodedRows::Overflow(env, sbg) => Err(
                EnvelopeError::ScaleFactorOverflow {
                    kind: EnvelopeKind::Signal,
                    envelope: env as usize,
                    group: sbg as usize,
                },
            ),
            DecodedRows::Rows(sig) => match noise_rows(
                noise,
                map.num_noise as int,
                delta,
                history,
                noise.len() as int,
            ) {
                DecodedRows::Overflow(env, sbg) => Err(
                    EnvelopeError::ScaleFactorOverflow {
                        kind: EnvelopeKind::Noise,
                        envelope: env as usize,
                        group: sbg as usize,
                    },
                ),
                DecodedRows::Rows(noise) => Ok(
                    FactorsView { sig, noise, noise_groups: map.num_noise },
                ),
            },
        },
    }
}

/// `row`, followed by zeros up to `length`.
pub open spec fn padded(row: Seq<i16>, length: int) -> Seq<i16> {
    Seq::new(
        length as nat,
        |i: int|
            if i < row.len() {
                row[i]
            } else {
                0
            },
    )
}

/// Whether `history` holds the last envelopes of `factors`.
pub open spec fn remembers(
    history: EnvelopeHistory,
    signal: Seq<DeltasView>,
    factors: FactorsView,
) -> bool {
    &&& history.primed
    &&& history.sig_freq_res == signal.last().high_resolution
    &&& history.sig@ == padded(factors.sig.last(), 22)
    &&& history.noise@ == padded(factors.noise.last(), 5)
}

/// `previous + delta * value`, unless either step leaves 16 bits.
fn checked_accumulate(
    previous: i16,
    delta: i16,
    value: i16,
    kind: EnvelopeKind,
    envelope: usize,
    group: usize,
) -> (result: Result<i16, EnvelopeError>)
    requires
        delta == 1 || delta == 2,
    ensures
        match result {
            Ok(sum) => {
                &&& fits(delta * value)
                &&& sum == previous + delta * value
            },
            Err(error) => {
                &&& !(fits(delta * value) && fits(previous + delta * value))
                &&& error == EnvelopeError::ScaleFactorOverflow { kind, envelope, group }
            },
        },
{
    let scaled: i16 = match delta.checked_mul(value) {
        Some(scaled) => scaled,
        None => {
            return Err(EnvelopeError::ScaleFactorOverflow { kind, envelope, group });
        },
    };
    match previous.checked_add(scaled) {
        Some(sum) => Ok(sum),
        None => Err(EnvelopeError::ScaleFactorOverflow { kind, envelope, group }),
    }
}

/// Decodes one envelope into the first `groups` entries of `out`.
fn decode_row(
    deltas: &EnvelopeDeltas<'_>,
    delta: i16,
    previous: &[i16],
    groups: usize,
    kind: EnvelopeKind,
    envelope: usize,
    out: &mut [i16],
) -> (result: Result<(), EnvelopeError>)
    requires
        delta == 1 || delta == 2,
        groups <= deltas.data@.len(),
        groups <= previous@.len(),
        groups <= old(out)@.len(),
    ensures
        final(out)@.len() == old(out)@.len(),
        ({
            let input = RowInput {
                data: deltas.data@,
                delta: delta as int,
                time: deltas.time_direction,
                previous: previous@,
            };
            match result {
                Ok(_) => {
                    &&& input.row(groups as int) == Ok::<Seq<i16>, int>(
                        final(out)@.take(groups as int),
                    )
                    &&& forall|i: int|
                        groups <= i < old(out)@.len() ==> final(out)@[i] == old(out)@[i]
                },
                Err(error) => input.row(groups as int) matches Err(sbg) && {
                    &&& 0 <= sbg < groups
                    &&& error == EnvelopeError::ScaleFactorOverflow {
                        kind,
                        envelope,
                        group: sbg as usize,
                    }
                },
            }
        }),
{
    let ghost input = RowInput {
        data: deltas.data@,
        delta: delta as int,
        time: deltas.time_direction,
        previous: previous@,
    };
    let ghost before = out@;
    let mut running: i16 = 0;
    let mut sbg: usize = 0;
    while sbg < groups
        invariant
            sbg <= groups,
            delta == 1 || delta == 2,
            groups <= deltas.data@.len(),
            groups <= previous@.len(),
            groups <= out@.len(),
            before == old(out)@,
            out@.len() == before.len(),
            input == (RowInput {
                data: deltas.data@,
                delta: delta as int,
                time: deltas.time_direction,
                previous: previous@,
            }),
            !deltas.time_direction ==> running == delta * prefix_sum(deltas.data@, sbg as int),
            input.first_overflow(groups as int, 0) == input.first_overflow(
                groups as int,
                sbg as int,
            ),
            forall|i: int| 0 <= i < sbg ==> #[trigger] out@[i] == input.value(i),
            forall|i: int| groups <= i < before.len() ==> out@[i] == before[i],
        decreases groups - sbg,
    {
        proof {
            let sum = prefix_sum(deltas.data@, sbg as int);
            let next = deltas.data@[sbg as int] as int;
            assert(prefix_sum(deltas.data@, sbg + 1) == sum + next);
            assert(delta * (sum + next) == delta * sum + delta * next) by (nonlinear_arith);
        }
        let base: i16 = if deltas.time_direction {
            previous[sbg]
        } else {
            running
        };
        let value: i16 = checked_accumulate(base, delta, deltas.data[sbg], kind, envelope, sbg)?;
        running = value;
        out[sbg] = value;
        sbg = sbg + 1;
    }
    proof {
        assert(out@.take(groups as int) =~= Seq::new(
            groups as nat,
            |sbg: int| input.value(sbg) as i16,
        ));
    }
    Ok(())
}

/// Checks the lengths and the first direction of a family of envelopes.
fn check_input(
    envelopes: &[EnvelopeDeltas<'_>],
    high_groups: usize,
    low_groups: usize,
    primed: bool,
    groups: Ghost<spec_fn(bool) -> int>,
) -> (result: Result<(), EnvelopeError>)
    requires
        groups@(true) == high_groups,
        groups@(false) == low_groups,
    ensures
        match result {
            Ok(_) => first_bad_input(deltas_of(envelopes@), groups@, primed, 0) is None,
            Err(error) => first_bad_input(deltas_of(envelopes@), groups@, primed, 0) == Some(error),
        },
{
    let mut index: usize = 0;
    while index < envelopes.len()
        invariant
            index <= envelopes@.len(),
            groups@(true) == high_groups,
            groups@(false) == low_groups,
            first_bad_input(deltas_of(envelopes@), groups@, primed, 0) == first_bad_input(
                deltas_of(envelopes@),
                groups@,
                primed,
                index as int,
            ),
        decreases envelopes@.len() - index,
    {
        let needed: usize = if envelopes[index].high_resolution {
            high_groups
        } else {
            low_groups
        };
        if envelopes[index].data.len() < needed {
            return Err(
                EnvelopeError::OutputTooSmall { needed, provided: envelopes[index].data.len() },
            );
        }
        if index == 0 && envelopes[index].time_direction && !primed {
            return Err(EnvelopeError::MissingHistory { envelope: 0 });
        }
        index = index + 1;
    }
    Ok(())
}

/// Once the input is good, every envelope holds enough differences.
proof fn lemma_lengths(
    envelopes: Seq<DeltasView>,
    groups: spec_fn(bool) -> int,
    primed: bool,
    index: int,
    later: int,
)
    requires
        0 <= index <= later < envelopes.len(),
        first_bad_input(envelopes, groups, primed, index) is None,
    ensures
        envelopes[later].data.len() >= groups(envelopes[later].high_resolution),
    decreases later - index,
{
    if index < later {
        lemma_lengths(envelopes, groups, primed, index + 1, later);
    }
}

/// An overflow among the first envelopes remains one however many follow.
proof fn lemma_signal_overflow_stays(
    signal: Seq<DeltasView>,
    map: IndexMapView,
    delta: int,
    history: EnvelopeHistory,
    count: int,
    total: int,
)
    requires
        count <= total,
        signal_rows(signal, map, delta, history, count) is Overflow,
    ensures
        signal_rows(signal, map, delta, history, total) == signal_rows(
            signal,
            map,
            delta,
            history,
            count,
        ),
    decreases total - count,
{
    if count < total {
        lemma_signal_overflow_stays(signal, map, delta, history, count, total - 1);
    }
}

proof fn lemma_noise_overflow_stays(
    noise: Seq<DeltasView>,
    groups: int,
    delta: int,
    history: EnvelopeHistory,
    count: int,
    total: int,
)
    requires
        count <= total,
        noise_rows(noise, groups, delta, history, count) is Overflow,
    ensures
        noise_rows(noise, groups, delta, history, total) == noise_rows(
            noise,
            groups,
            delta,
            history,
            count,
        ),
    decreases total - count,
{
    if count < total {
        lemma_noise_overflow_stays(noise, groups, delta, history, count, total - 1);
    }
}

/// The values of a stored envelope that the groups of the next one refer to.
fn map_previous(
    map: &SbgIndexMap,
    high: bool,
    previous_high: bool,
    before: &[i16; MAX_SBG_PER_ENVELOPE],
) -> (previous: [i16; MAX_SBG_PER_ENVELOPE])
    ensures
        forall|i: int|
            0 <= i < map@.groups(high) ==> #[trigger] previous@[i] == before@[map@.source(
                high,
                previous_high,
                i,
            )],
        forall|i: int|
            0 <= i < map@.groups(high) ==> 0 <= #[trigger] map@.source(high, previous_high, i)
                < map@.groups(previous_high),
        map@.groups(high) <= MAX_SBG_PER_ENVELOPE,
        map@.groups(previous_high) <= MAX_SBG_PER_ENVELOPE,
{
    let groups: usize = map.groups(high);
    let mut previous: [i16; MAX_SBG_PER_ENVELOPE] = [0; MAX_SBG_PER_ENVELOPE];
    let mut sbg: usize = 0;
    while sbg < groups
        invariant
            sbg <= groups <= MAX_SBG_PER_ENVELOPE,
            groups == map@.groups(high),
            map@.consistent(),
            forall|i: int|
                0 <= i < sbg ==> #[trigger] previous@[i] == before@[map@.source(
                    high,
                    previous_high,
                    i,
                )],
            forall|i: int|
                0 <= i < sbg ==> 0 <= #[trigger] map@.source(high, previous_high, i) < map@.groups(
                    previous_high,
                ),
        decreases groups - sbg,
    {
        let source: usize = map.source(high, previous_high, sbg);
        assert(map@.groups(previous_high) <= MAX_SBG_PER_ENVELOPE);
        previous[sbg] = before[source];
        sbg = sbg + 1;
    }
    previous
}

/// Whether the stored rows hold the decoded ones, padded with zeros.
spec fn stores(
    rows: Seq<[i16; MAX_SBG_PER_ENVELOPE]>,
    groups: Seq<u8>,
    decoded: Seq<Seq<i16>>,
) -> bool {
    forall|env: int|
        0 <= env < decoded.len() ==> {
            &&& #[trigger] groups[env] == decoded[env].len() <= MAX_SBG_PER_ENVELOPE
            &&& rows[env]@ == padded(decoded[env], 22)
        }
}

/// Decodes signal envelope `index`, given the stored envelope before it.
fn decode_signal_row(
    signal: &[EnvelopeDeltas<'_>],
    map: &SbgIndexMap,
    delta: i16,
    before: &[i16; MAX_SBG_PER_ENVELOPE],
    previous_high: bool,
    index: usize,
    Ghost(history): Ghost<EnvelopeHistory>,
    Ghost(decoded): Ghost<Seq<Seq<i16>>>,
) -> (result: Result<[i16; MAX_SBG_PER_ENVELOPE], EnvelopeError>)
    requires
        delta == 1 || delta == 2,
        index < signal@.len(),
        decoded.len() == index,
        deltas_of(signal@)[index as int].data.len() >= map@.groups(
            deltas_of(signal@)[index as int].high_resolution,
        ),
        previous_high == previous_resolution(deltas_of(signal@), history, index as int),
        index == 0 ==> before@ == history.sig@,
        index > 0 ==> decoded[index - 1].len() == map@.groups(previous_high) && before@ == padded(
            decoded[index - 1],
            22,
        ),
    ensures
        ({
            let input = signal_input(
                deltas_of(signal@),
                map@,
                delta as int,
                history,
                decoded,
                index as int,
            );
            let groups = map@.groups(deltas_of(signal@)[index as int].high_resolution);
            match result {
                Ok(row) => input.row(groups) matches Ok(kept) && {
                    &&& kept.len() == groups <= MAX_SBG_PER_ENVELOPE
                    &&& row@ == padded(kept, 22)
                },
                Err(error) => input.row(groups) matches Err(sbg) && error
                    == EnvelopeError::ScaleFactorOverflow {
                    kind: EnvelopeKind::Signal,
                    envelope: index,
                    group: sbg as usize,
                },
            }
        }),
{
    let envelope = &signal[index];
    let groups: usize = map.groups(envelope.high_resolution);
    let previous = map_previous(map, envelope.high_resolution, previous_high, before);
    let mut row: [i16; MAX_SBG_PER_ENVELOPE] = [0; MAX_SBG_PER_ENVELOPE];
    proof {
        let full = RowInput {
            data: envelope.data@,
            delta: delta as int,
            time: envelope.time_direction,
            previous: previous@,
        };
        let input = signal_input(
            deltas_of(signal@),
            map@,
            delta as int,
            history,
            decoded,
            index as int,
        );
        assert forall|i: int| 0 <= i < groups implies full.previous[i] == input.previous[i] by {
            assert(previous@[i] == before@[map@.source(
                envelope.high_resolution,
                previous_high,
                i,
            )]);
        }
        lemma_row_prefix(full, input, groups as int);
    }
    decode_row(envelope, delta, &previous, groups, EnvelopeKind::Signal, index, &mut row)?;
    assert(row@ =~= padded(row@.take(groups as int), 22));
    Ok(row)
}

/// Decodes the signal envelopes.
fn decode_signal(
    signal: &[EnvelopeDeltas<'_>],
    map: &SbgIndexMap,
    delta: i16,
    history: &EnvelopeHistory,
) -> (result: Result<
    ([[i16; MAX_SBG_PER_ENVELOPE]; MAX_ATSG_SIG], [u8; MAX_ATSG_SIG]),
    EnvelopeError,
>)
    requires
        delta == 1 || delta == 2,
        signal@.len() <= MAX_ATSG_SIG,
        forall|env: int|
            0 <= env < signal@.len() ==> (#[trigger] deltas_of(signal@)[env]).data.len()
                >= map@.groups(deltas_of(signal@)[env].high_resolution),
    ensures
        match result {
            Ok((rows, groups)) => signal_rows(
                deltas_of(signal@),
                map@,
                delta as int,
                *history,
                signal@.len() as int,
            ) matches DecodedRows::Rows(decoded) && {
                &&& decoded.len() == signal@.len()
                &&& stores(rows@, groups@, decoded)
            },
            Err(error) => signal_rows(
                deltas_of(signal@),
                map@,
                delta as int,
                *history,
                signal@.len() as int,
            ) matches DecodedRows::Overflow(env, sbg) && error
                == EnvelopeError::ScaleFactorOverflow {
                kind: EnvelopeKind::Signal,
                envelope: env as usize,
                group: sbg as usize,
            },
        },
{
    let mut rows: [[i16; MAX_SBG_PER_ENVELOPE]; MAX_ATSG_SIG] = [[0; MAX_SBG_PER_ENVELOPE];
        MAX_ATSG_SIG];
    let mut groups_out: [u8; MAX_ATSG_SIG] = [0; MAX_ATSG_SIG];
    let mut before: [i16; MAX_SBG_PER_ENVELOPE] = history.sig;
    let mut previous_high: bool = history.sig_freq_res;
    let ghost mut decoded: Seq<Seq<i16>> = Seq::empty();
    let mut index: usize = 0;
    while index < signal.len()
        invariant
            index <= signal@.len() <= MAX_ATSG_SIG,
            delta == 1 || delta == 2,
            forall|env: int|
                0 <= env < signal@.len() ==> (#[trigger] deltas_of(signal@)[env]).data.len()
                    >= map@.groups(deltas_of(signal@)[env].high_resolution),
            previous_high == previous_resolution(deltas_of(signal@), *history, index as int),
            signal_rows(deltas_of(signal@), map@, delta as int, *history, index as int)
                == DecodedRows::Rows(decoded),
            decoded.len() == index,
            index == 0 ==> before@ == history.sig@,
            index > 0 ==> {
                &&& decoded[index - 1].len() == map@.groups(previous_high)
                &&& before@ == padded(decoded[index - 1], 22)
            },
            stores(rows@, groups_out@, decoded),
        decreases signal@.len() - index,
    {
        let row = match decode_signal_row(
            signal,
            map,
            delta,
            &before,
            previous_high,
            index,
            Ghost(*history),
            Ghost(decoded),
        ) {
            Ok(row) => row,
            Err(error) => {
                proof {
                    lemma_signal_overflow_stays(
                        deltas_of(signal@),
                        map@,
                        delta as int,
                        *history,
                        index + 1,
                        signal@.len() as int,
                    );
                }
                return Err(error);
            },
        };
        let high: bool = signal[index].high_resolution;
        let groups: usize = map.groups(high);
        proof {
            let input = signal_input(
                deltas_of(signal@),
                map@,
                delta as int,
                *history,
                decoded,
                index as int,
            );
            let kept = input.row(groups as int)->Ok_0;
            decoded = decoded.push(kept);
        }
        let ghost rows_before = rows@;
        let ghost groups_before = groups_out@;
        rows[index] = row;
        groups_out[index] = groups as u8;
        proof {
            assert forall|env: int| 0 <= env < decoded.len() implies {
                &&& #[trigger] groups_out@[env] == decoded[env].len() <= MAX_SBG_PER_ENVELOPE
                &&& rows@[env]@ == padded(decoded[env], 22)
            } by {
                if env < index {
                    assert(groups_out@[env] == groups_before[env]);
                    assert(rows@[env] == rows_before[env]);
                }
            }
        }
        before = row;
        previous_high = high;
        index = index + 1;
    }
    Ok((rows, groups_out))
}

/// Rows agree when their inputs agree on the groups in use.
proof fn lemma_row_prefix(a: RowInput, b: RowInput, groups: int)
    requires
        a.data == b.data,
        a.delta == b.delta,
        a.time == b.time,
        0 <= groups,
        forall|i: int| 0 <= i < groups ==> a.previous[i] == b.previous[i],
    ensures
        a.row(groups) == b.row(groups),
{
    lemma_overflow_prefix(a, b, groups, 0);
    if a.first_overflow(groups, 0) is None {
        assert forall|sbg: int| 0 <= sbg < groups implies a.value(sbg) == b.value(sbg) by {
            assert(a.previous[sbg] == b.previous[sbg]);
        }
        assert(Seq::new(groups as nat, |sbg: int| a.value(sbg) as i16) =~= Seq::new(
            groups as nat,
            |sbg: int| b.value(sbg) as i16,
        ));
    }
}

proof fn lemma_overflow_prefix(a: RowInput, b: RowInput, groups: int, sbg: int)
    requires
        a.data == b.data,
        a.delta == b.delta,
        a.time == b.time,
        0 <= sbg,
        forall|i: int| 0 <= i < groups ==> a.previous[i] == b.previous[i],
    ensures
        a.first_overflow(groups, sbg) == b.first_overflow(groups, sbg),
    decreases groups - sbg,
{
    if sbg < groups {
        lemma_overflow_prefix(a, b, groups, sbg + 1);
    }
}

/// Whether the stored noise rows hold the decoded ones, padded with zeros.
spec fn stores_noise(
    rows: Seq<[i16; NOISE_GROUPS]>,
    groups: int,
    decoded: Seq<Seq<i16>>,
) -> bool {
    forall|env: int|
        0 <= env < decoded.len() ==> {
            &&& #[trigger] rows[env]@ == padded(decoded[env], 5)
            &&& decoded[env].len() == groups
        }
}

/// Decodes the noise envelopes.
fn decode_noise(
    noise: &[EnvelopeDeltas<'_>],
    groups: usize,
    delta: i16,
    history: &EnvelopeHistory,
) -> (result: Result<[[i16; NOISE_GROUPS]; MAX_ATSG_NOISE], EnvelopeError>)
    requires
        delta == 1 || delta == 2,
        noise@.len() <= MAX_ATSG_NOISE,
        groups <= NOISE_GROUPS,
        forall|env: int|
            0 <= env < noise@.len() ==> (#[trigger] deltas_of(noise@)[env]).data.len() >= groups,
    ensures
        match result {
            Ok(rows) => noise_rows(
                deltas_of(noise@),
                groups as int,
                delta as int,
                *history,
                noise@.len() as int,
            ) matches DecodedRows::Rows(decoded) && {
                &&& decoded.len() == noise@.len()
                &&& stores_noise(rows@, groups as int, decoded)
            },
            Err(error) => noise_rows(
                deltas_of(noise@),
                groups as int,
                delta as int,
                *history,
                noise@.len() as int,
            ) matches DecodedRows::Overflow(env, sbg) && error
                == EnvelopeError::ScaleFactorOverflow {
                kind: EnvelopeKind::Noise,
                envelope: env as usize,
                group: sbg as usize,
            },
        },
{
    let mut rows: [[i16; NOISE_GROUPS]; MAX_ATSG_NOISE] = [[0; NOISE_GROUPS]; MAX_ATSG_NOISE];
    let mut before: [i16; NOISE_GROUPS] = history.noise;
    let ghost mut decoded: Seq<Seq<i16>> = Seq::empty();
    let mut index: usize = 0;
    while index < noise.len()
        invariant
            index <= noise@.len() <= MAX_ATSG_NOISE,
            groups <= NOISE_GROUPS,
            delta == 1 || delta == 2,
            forall|env: int|
                0 <= env < noise@.len() ==> (#[trigger] deltas_of(noise@)[env]).data.len()
                    >= groups,
            noise_rows(deltas_of(noise@), groups as int, delta as int, *history, index as int)
                == DecodedRows::Rows(decoded),
            decoded.len() == index,
            index == 0 ==> before@ == history.noise@,
            index > 0 ==> decoded[index - 1].len() == groups && before@ == padded(
                decoded[index - 1],
                5,
            ),
            stores_noise(rows@, groups as int, decoded),
        decreases noise@.len() - index,
    {
        let envelope = &noise[index];
        let mut row: [i16; NOISE_GROUPS] = [0; NOISE_GROUPS];
        let ghost input = noise_input(
            deltas_of(noise@),
            delta as int,
            *history,
            decoded,
            index as int,
        );
        proof {
            let full = RowInput {
                data: envelope.data@,
                delta: delta as int,
                time: envelope.time_direction,
                previous: before@,
            };
            lemma_row_prefix(full, input, groups as int);
        }
        match decode_row(envelope, delta, &before, groups, EnvelopeKind::Noise, index, &mut row) {
            Ok(_) => {},
            Err(error) => {
                proof {
                    lemma_noise_overflow_stays(
                        deltas_of(noise@),
                        groups as int,
                        delta as int,
                        *history,
                        index + 1,
                        noise@.len() as int,
                    );
                }
                return Err(error);
            },
        }
        proof {
            let kept = row@.take(groups as int);
            decoded = decoded.push(kept);
            assert(row@ =~= padded(kept, 5));
        }
        let ghost rows_before = rows@;
        rows[index] = row;
        proof {
            assert forall|env: int| 0 <= env < decoded.len() implies {
                &&& #[trigger] rows@[env]@ == padded(decoded[env], 5)
                &&& decoded[env].len() == groups
            } by {
                if env < index {
                    assert(rows@[env] == rows_before[env]);
                    assert(rows_before[env]@ == padded(decoded[env], 5));
                }
            }
        }
        before = row;
        index = index + 1;
    }
    Ok(rows)
}

/// Decodes the signal and noise envelopes of one channel in one interval.
///
/// With `delta_is_two` every difference counts double, as it does for the second
/// channel of a jointly coded pair. Neither `history` nor `out` changes unless decoding
/// succeeds.
pub fn decode(
    signal: &[EnvelopeDeltas<'_>],
    noise: &[EnvelopeDeltas<'_>],
    map: &SbgIndexMap,
    delta_is_two: bool,
    history: &mut EnvelopeHistory,
    out: &mut EnvelopeScaleFactors,
) -> (result: Result<(), EnvelopeError>)
    ensures
        match result {
            Ok(_) => {
                &&& decoded_factors(
                    deltas_of(signal@),
                    deltas_of(noise@),
                    map@,
                    delta_is_two,
                    *old(history),
                ) == Ok::<FactorsView, EnvelopeError>(final(out)@)
                &&& remembers(*final(history), deltas_of(signal@), final(out)@)
            },
            Err(error) => {
                &&& decoded_factors(
                    deltas_of(signal@),
                    deltas_of(noise@),
                    map@,
                    delta_is_two,
                    *old(history),
                ) == Err::<FactorsView, EnvelopeError>(error)
                &&& *final(history) == *old(history)
                &&& *final(out) == *old(out)
            },
        },
{
    if signal.len() == 0 || noise.len() == 0 {
        return Err(
            EnvelopeError::MissingEnvelopes { signal: signal.len(), noise: noise.len() },
        );
    }
    if signal.len() > MAX_ATSG_SIG || noise.len() > MAX_ATSG_NOISE {
        return Err(
            EnvelopeError::TooManyEnvelopes { signal: signal.len(), noise: noise.len() },
        );
    }
    let num_noise: u8 = map.noise_groups();
    let noise_groups: usize = num_noise as usize;
    let ghost sig_needed = |high: bool| map@.groups(high);
    let ghost noise_needed = |high: bool| map@.num_noise as int;
    check_input(signal, map.groups(true), map.groups(false), history.primed, Ghost(sig_needed))?;
    check_input(noise, noise_groups, noise_groups, history.primed, Ghost(noise_needed))?;
    proof {
        assert forall|env: int| 0 <= env < signal@.len() implies (
        #[trigger] deltas_of(signal@)[env]).data.len() >= map@.groups(
            deltas_of(signal@)[env].high_resolution,
        ) by {
            lemma_lengths(deltas_of(signal@), sig_needed, history.primed, 0, env);
        }
        assert forall|env: int| 0 <= env < noise@.len() implies (
        #[trigger] deltas_of(noise@)[env]).data.len() >= noise_groups by {
            lemma_lengths(deltas_of(noise@), noise_needed, history.primed, 0, env);
        }
    }
    let delta: i16 = if delta_is_two {
        2
    } else {
        1
    };
    let (sig_rows, sig_groups) = decode_signal(signal, map, delta, history)?;
    let noise_rows_out = decode_noise(noise, noise_groups, delta, history)?;
    let factors = EnvelopeScaleFactors {
        sig: sig_rows,
        sig_groups,
        num_sig: signal.len() as u8,
        noise: noise_rows_out,
        noise_groups: num_noise,
        num_noise: noise.len() as u8,
    };
    proof {
        let sig = signal_rows(
            deltas_of(signal@),
            map@,
            delta as int,
            *history,
            signal@.len() as int,
        )->Rows_0;
        let noisy = noise_rows(
            deltas_of(noise@),
            noise_groups as int,
            delta as int,
            *history,
            noise@.len() as int,
        )->Rows_0;
        assert forall|env: int| 0 <= env < sig.len() implies #[trigger] factors@.sig[env]
            == sig[env] by {
            assert(sig_groups@[env] == sig[env].len());
            assert(sig_rows@[env]@.take(sig_groups@[env] as int) =~= sig[env]);
        }
        assert(factors@.sig =~= sig);
        assert forall|env: int| 0 <= env < noisy.len() implies #[trigger] factors@.noise[env]
            == noisy[env] by {
            assert(noise_rows_out@[env]@ == padded(noisy[env], 5));
            assert(noise_rows_out@[env]@.take(noise_groups as int) =~= noisy[env]);
        }
        assert(factors@.noise =~= noisy);
        assert(sig_groups@[sig.len() - 1] == sig.last().len());
    }
    history.sig = sig_rows[signal.len() - 1];
    history.sig_freq_res = signal[signal.len() - 1].high_resolution;
    history.noise = noise_rows_out[noise.len() - 1];
    history.primed = true;
    *out = factors;
    Ok(())
}

/// Without an overflow a row holds the value of every group.
proof fn lemma_row_holds_values(input: RowInput, groups: int, sbg: int)
    requires
        0 <= sbg < groups,
        input.row(groups) is Ok,
    ensures
        input.row(groups)->Ok_0.len() == groups,
        input.row(groups)->Ok_0[sbg] == input.value(sbg),
        input.value_fits(sbg),
{
    lemma_no_overflow_before(input, groups, 0, sbg);
}

proof fn lemma_no_overflow_before(input: RowInput, groups: int, from: int, sbg: int)
    requires
        from <= sbg < groups,
        input.first_overflow(groups, from) is None,
    ensures
        input.value_fits(sbg),
    decreases sbg - from,
{
    if from < sbg {
        lemma_no_overflow_before(input, groups, from + 1, sbg);
    }
}

/// The rows of the first envelopes do not depend on how many follow.
proof fn lemma_signal_rows_prefix(
    signal: Seq<DeltasView>,
    map: IndexMapView,
    delta: int,
    history: EnvelopeHistory,
    part: int,
    count: int,
)
    requires
        0 <= part <= count,
        signal_rows(signal, map, delta, history, count) is Rows,
    ensures
        signal_rows(signal, map, delta, history, part) is Rows,
        signal_rows(signal, map, delta, history, part)->Rows_0.len() == part,
        signal_rows(signal, map, delta, history, count)->Rows_0.len() == count,
        signal_rows(signal, map, delta, history, count)->Rows_0.take(part) == signal_rows(
            signal,
            map,
            delta,
            history,
            part,
        )->Rows_0,
    decreases count,
{
    if count > 0 {
        if part < count {
            lemma_signal_rows_prefix(signal, map, delta, history, part, count - 1);
            assert(signal_rows(signal, map, delta, history, count)->Rows_0.take(part)
                =~= signal_rows(signal, map, delta, history, count - 1)->Rows_0.take(part));
        } else {
            lemma_signal_rows_prefix(signal, map, delta, history, count - 1, count - 1);
            let rows = signal_rows(signal, map, delta, history, count)->Rows_0;
            assert(rows.take(count) =~= rows);
        }
    } else {
        let rows = signal_rows(signal, map, delta, history, 0)->Rows_0;
        assert(rows.take(0) =~= rows);
    }
}

/// Every decoded signal scale factor is what its direction says: a weighted
/// prefix sum along frequency, or the mapped value of the previous envelope
/// plus a weighted difference along time. Before the first envelope stands the
/// history.
pub proof fn lemma_signal_factors(
    signal: Seq<DeltasView>,
    map: IndexMapView,
    delta: int,
    history: EnvelopeHistory,
    rows: Seq<Seq<i16>>,
    env: int,
    sbg: int,
)
    requires
        map.consistent(),
        signal_rows(signal, map, delta, history, signal.len() as int) == DecodedRows::Rows(rows),
        0 <= env < signal.len(),
        0 <= sbg < map.groups(signal[env].high_resolution),
    ensures
        rows.len() == signal.len(),
        rows[env].len() == map.groups(signal[env].high_resolution),
        !signal[env].time_direction ==> rows[env][sbg] == delta * prefix_sum(
            signal[env].data,
            sbg + 1,
        ),
        signal[env].time_direction ==> {
            let source = map.source(
                signal[env].high_resolution,
                previous_resolution(signal, history, env),
                sbg,
            );
            rows[env][sbg] == (if env == 0 {
                history.sig@[source]
            } else {
                rows[env - 1][source]
            }) + delta * signal[env].data[sbg]
        },
{
    let count = signal.len() as int;
    lemma_signal_rows_prefix(signal, map, delta, history, env, count);
    lemma_signal_rows_prefix(signal, map, delta, history, env + 1, count);
    let before = signal_rows(signal, map, delta, history, env)->Rows_0;
    let after = signal_rows(signal, map, delta, history, env + 1)->Rows_0;
    let input = signal_input(signal, map, delta, history, before, env);
    lemma_row_holds_values(input, map.groups(signal[env].high_resolution), sbg);
    assert(rows[env] == rows.take(env + 1)[env]);
    assert(after[env] == rows[env]);
    if env > 0 {
        assert(before[env - 1] == rows.take(env)[env - 1]);
    }
}

/// Signal envelopes that start along frequency do not depend on the history.
proof fn lemma_signal_ignores_history(
    signal: Seq<DeltasView>,
    map: IndexMapView,
    delta: int,
    first: EnvelopeHistory,
    second: EnvelopeHistory,
    count: int,
)
    requires
        count <= signal.len(),
        signal.len() > 0 ==> !signal[0].time_direction,
        map.consistent(),
    ensures
        signal_rows(signal, map, delta, first, count) == signal_rows(
            signal,
            map,
            delta,
            second,
            count,
        ),
    decreases count,
{
    if count > 0 {
        lemma_signal_ignores_history(signal, map, delta, first, second, count - 1);
        if let DecodedRows::Rows(rows) = signal_rows(signal, map, delta, first, count - 1) {
            let a = signal_input(signal, map, delta, first, rows, count - 1);
            let b = signal_input(signal, map, delta, second, rows, count - 1);
            let groups = map.groups(signal[count - 1].high_resolution);
            if count == 1 {
                lemma_row_along_frequency(a, b, groups, 0);
                assert(Seq::new(groups as nat, |sbg: int| a.value(sbg) as i16) =~= Seq::new(
                    groups as nat,
                    |sbg: int| b.value(sbg) as i16,
                ));
            } else {
                assert(a == b);
            }
        }
    }
}

/// Noise envelopes that start along frequency do not depend on the history.
proof fn lemma_noise_ignores_history(
    noise: Seq<DeltasView>,
    groups: int,
    delta: int,
    first: EnvelopeHistory,
    second: EnvelopeHistory,
    count: int,
)
    requires
        count <= noise.len(),
        noise.len() > 0 ==> !noise[0].time_direction,
    ensures
        noise_rows(noise, groups, delta, first, count) == noise_rows(
            noise,
            groups,
            delta,
            second,
            count,
        ),
    decreases count,
{
    if count > 0 {
        lemma_noise_ignores_history(noise, groups, delta, first, second, count - 1);
        if let DecodedRows::Rows(rows) = noise_rows(noise, groups, delta, first, count - 1) {
            let a = noise_input(noise, delta, first, rows, count - 1);
            let b = noise_input(noise, delta, second, rows, count - 1);
            if count == 1 {
                lemma_row_along_frequency(a, b, groups, 0);
                assert(Seq::new(groups as nat, |sbg: int| a.value(sbg) as i16) =~= Seq::new(
                    groups as nat,
                    |sbg: int| b.value(sbg) as i16,
                ));
            } else {
                assert(a == b);
            }
        }
    }
}

proof fn lemma_later_input_ignores_history(
    envelopes: Seq<DeltasView>,
    groups: spec_fn(bool) -> int,
    index: int,
)
    requires
        index >= 0,
        envelopes.len() > 0 ==> !envelopes[0].time_direction,
    ensures
        first_bad_input(envelopes, groups, true, index) == first_bad_input(
            envelopes,
            groups,
            false,
            index,
        ),
    decreases envelopes.len() - index,
{
    if index < envelopes.len() {
        lemma_later_input_ignores_history(envelopes, groups, index + 1);
    }
}

/// An interval whose first signal and first noise envelope run along frequency
/// decodes to the same result whatever the history, also when there is none.
pub proof fn lemma_frequency_direction_ignores_history(
    signal: Seq<DeltasView>,
    noise: Seq<DeltasView>,
    map: IndexMapView,
    delta_is_two: bool,
    first: EnvelopeHistory,
    second: EnvelopeHistory,
)
    requires
        map.consistent(),
        signal.len() > 0 ==> !signal[0].time_direction,
        noise.len() > 0 ==> !noise[0].time_direction,
    ensures
        decoded_factors(signal, noise, map, delta_is_two, first) == decoded_factors(
            signal,
            noise,
            map,
            delta_is_two,
            second,
        ),
{
    let delta = delta_of(delta_is_two);
    lemma_signal_ignores_history(signal, map, delta, first, second, signal.len() as int);
    lemma_noise_ignores_history(
        noise,
        map.num_noise as int,
        delta,
        first,
        second,
        noise.len() as int,
    );
    lemma_later_input_ignores_history(signal, |high: bool| map.groups(high), 0);
    lemma_later_input_ignores_history(noise, |high: bool| map.num_noise as int, 0);
}

proof fn lemma_row_along_frequency(a: RowInput, b: RowInput, groups: int, sbg: int)
    requires
        a.data == b.data,
        a.delta == b.delta,
        !a.time,
        !b.time,
    ensures
        a.first_overflow(groups, sbg) == b.first_overflow(groups, sbg),
    decreases groups - sbg,
{
    if sbg < groups {
        lemma_row_along_frequency(a, b, groups, sbg + 1);
    }
}

/// Along frequency, counting every difference double doubles every scale
/// factor, as long as everything fits.
pub proof fn lemma_double_weight_doubles(data: Seq<i16>, previous: Seq<i16>, groups: int, sbg: int)
    requires
        0 <= sbg < groups,
        (RowInput { data, delta: 1, time: false, previous }).row(groups) is Ok,
        (RowInput { data, delta: 2, time: false, previous }).row(groups) is Ok,
    ensures
        (RowInput { data, delta: 2, time: false, previous }).row(groups)->Ok_0[sbg] == 2 * (
        RowInput { data, delta: 1, time: false, previous }).row(groups)->Ok_0[sbg],
{
    let single = RowInput { data, delta: 1, time: false, previous };
    let double = RowInput { data, delta: 2, time: false, previous };
    lemma_row_holds_values(single, groups, sbg);
    lemma_row_holds_values(double, groups, sbg);
}

/// The rows of the first noise envelopes do not depend on how many follow.
proof fn lemma_noise_rows_prefix(
    noise: Seq<DeltasView>,
    groups: int,
    delta: int,
    history: EnvelopeHistory,
    part: int,
    count: int,
)
    requires
        0 <= part <= count,
        noise_rows(noise, groups, delta, history, count) is Rows,
    ensures
        noise_rows(noise, groups, delta, history, part) is Rows,
        noise_rows(noise, groups, delta, history, part)->Rows_0.len() == part,
        noise_rows(noise, groups, delta, history, count)->Rows_0.len() == count,
        noise_rows(noise, groups, delta, history, count)->Rows_0.take(part) == noise_rows(
            noise,
            groups,
            delta,
            history,
            part,
        )->Rows_0,
    decreases count,
{
    if count > 0 {
        if part < count {
            lemma_noise_rows_prefix(noise, groups, delta, history, part, count - 1);
            assert(noise_rows(noise, groups, delta, history, count)->Rows_0.take(part)
                =~= noise_rows(noise, groups, delta, history, count - 1)->Rows_0.take(part));
        } else {
            lemma_noise_rows_prefix(noise, groups, delta, history, count - 1, count - 1);
            let rows = noise_rows(noise, groups, delta, history, count)->Rows_0;
            assert(rows.take(count) =~= rows);
        }
    } else {
        let rows = noise_rows(noise, groups, delta, history, 0)->Rows_0;
        assert(rows.take(0) =~= rows);
    }
}

/// Every decoded noise scale factor is what its direction says: a weighted
/// prefix sum along frequency, or the value of the same group in the previous
/// envelope plus a weighted difference along time. Before the first envelope
/// stands the history.
pub proof fn lemma_noise_factors(
    noise: Seq<DeltasView>,
    groups: int,
    delta: int,
    history: EnvelopeHistory,
    rows: Seq<Seq<i16>>,
    env: int,
    sbg: int,
)
    requires
        noise_rows(noise, groups, delta, history, noise.len() as int) == DecodedRows::Rows(rows),
        0 <= env < noise.len(),
        0 <= sbg < groups,
    ensures
        rows.len() == noise.len(),
        rows[env].len() == groups,
        !noise[env].time_direction ==> rows[env][sbg] == delta * prefix_sum(
            noise[env].data,
            sbg + 1,
        ),
        noise[env].time_direction ==> rows[env][sbg] == (if env == 0 {
            history.noise@[sbg]
        } else {
            rows[env - 1][sbg]
        }) + delta * noise[env].data[sbg],
{
    let count = noise.len() as int;
    lemma_noise_rows_prefix(noise, groups, delta, history, env, count);
    lemma_noise_rows_prefix(noise, groups, delta, history, env + 1, count);
    let before = noise_rows(noise, groups, delta, history, env)->Rows_0;
    let after = noise_rows(noise, groups, delta, history, env + 1)->Rows_0;
    lemma_row_holds_values(noise_input(noise, delta, history, before, env), groups, sbg);
    assert(rows[env] == rows.take(env + 1)[env]);
    assert(after[env] == rows[env]);
    if env > 0 {
        assert(before[env - 1] == rows.take(env)[env - 1]);
    }
}

/// A history that remembers an interval makes the time differences at the start
/// of the next one refer to the last envelopes of the former, whatever the
/// frequency resolution of either. A group that those envelopes did not have
/// counts as zero.
pub proof fn lemma_history_chains_intervals(
    history: EnvelopeHistory,
    signal: Seq<DeltasView>,
    factors: FactorsView,
    next_signal: Seq<DeltasView>,
    next_noise: Seq<DeltasView>,
    map: IndexMapView,
    delta_is_two: bool,
    next_factors: FactorsView,
    sbg: int,
)
    requires
        map.consistent(),
        remembers(history, signal, factors),
        decoded_factors(next_signal, next_noise, map, delta_is_two, history) == Ok::<
            FactorsView,
            EnvelopeError,
        >(next_factors),
        sbg >= 0,
    ensures
        next_signal[0].time_direction && sbg < map.groups(next_signal[0].high_resolution)
            ==> next_factors.sig[0][sbg] == padded(factors.sig.last(), 22)[map.source(
            next_signal[0].high_resolution,
            signal.last().high_resolution,
            sbg,
        )] + delta_of(delta_is_two) * next_signal[0].data[sbg],
        next_noise[0].time_direction && sbg < map.num_noise ==> next_factors.noise[0][sbg]
            == padded(factors.noise.last(), 5)[sbg] + delta_of(delta_is_two)
            * next_noise[0].data[sbg],
{
    let delta = delta_of(delta_is_two);
    if sbg < map.groups(next_signal[0].high_resolution) {
        lemma_signal_factors(next_signal, map, delta, history, next_factors.sig, 0, sbg);
    }
    if sbg < map.num_noise {
        lemma_noise_factors(
            next_noise,
            map.num_noise as int,
            delta,
            history,
            next_factors.noise,
            0,
            sbg,
        );
    }
}

/// The table of the groups of an envelope with the given resolution.
pub open spec fn table_of(bands: BandView, high_resolution: bool) -> Seq<u8> {
    if high_resolution {
        bands.sig_highres
    } else {
        bands.sig_lowres
    }
}

/// A time difference refers to the group of the previous envelope in which its
/// own group begins.
#[verifier::rlimit(40)]
pub proof fn lemma_source_is_where_the_group_begins(
    bands: BandView,
    high: bool,
    previous_high: bool,
    sbg: int,
    source: int,
)
    requires
        bands.legal(),
        0 <= sbg < table_of(bands, high).len() - 1,
        0 <= source < table_of(bands, previous_high).len() - 1,
        table_of(bands, previous_high)[source] <= table_of(bands, high)[sbg] < table_of(
            bands,
            previous_high,
        )[source + 1],
    ensures
        index_map(bands).source(high, previous_high, sbg) == source,
{
    bands::lemma_bands_are_structured(bands);
    lemma_group_counts(bands);
    let own = table_of(bands, high);
    let before = table_of(bands, previous_high);
    let found = index_map(bands).source(high, previous_high, sbg);
    if high == previous_high {
        assert(own[sbg] < own[sbg + 1]);
    } else if high {
        lemma_high_group_lies_in(bands, sbg);
    } else {
        lemma_low_group_begins(bands, sbg);
    }
    lemma_one_group_holds(before, own[sbg] as int, found, source);
}

proof fn lemma_one_group_holds(table: Seq<u8>, subband: int, first: int, second: int)
    requires
        bands::strictly_increasing(table),
        0 <= first < table.len() - 1,
        0 <= second < table.len() - 1,
        table[first] <= subband < table[first + 1],
        table[second] <= subband < table[second + 1],
    ensures
        first == second,
{
    if first < second {
        assert(first + 1 < second ==> table[first + 1] < table[second]);
    } else if second < first {
        assert(second + 1 < first ==> table[second + 1] < table[first]);
    }
}

proof fn lemma_high_group_lies_in(bands: BandView, sbg: int)
    requires
        bands.legal(),
        bands.sig_lowres == bands::lowres_borders(bands.sig_highres),
        bands::strictly_increasing(bands.sig_highres),
        0 <= sbg < bands.sig_highres.len() - 1 <= 22,
    ensures
        ({
            let found = index_map(bands).high2low[sbg] as int;
            &&& 0 <= found < bands.sig_lowres.len() - 1
            &&& bands.sig_lowres[found] <= bands.sig_highres[sbg] < bands.sig_lowres[found + 1]
        }),
{
    let high = bands::group_count(bands.sig_highres);
    let found = index_map(bands).high2low[sbg] as int;
    let start = if found == 0 {
        0
    } else {
        2 * found - high % 2
    };
    let stop = 2 * (found + 1) - high % 2;
    assert(found == (sbg + high % 2) / 2);
    assert(start <= sbg < stop <= high);
    assert(start < sbg ==> bands.sig_highres[start] < bands.sig_highres[sbg]);
    assert(bands.sig_highres[sbg] < bands.sig_highres[stop]);
}

proof fn lemma_low_group_begins(bands: BandView, sbg: int)
    requires
        bands.legal(),
        bands.sig_lowres == bands::lowres_borders(bands.sig_highres),
        bands::strictly_increasing(bands.sig_highres),
        0 <= sbg < bands.sig_lowres.len() - 1,
        2 <= bands.sig_highres.len() <= 23,
    ensures
        ({
            let found = index_map(bands).low2high[sbg] as int;
            &&& 0 <= found < bands.sig_highres.len() - 1
            &&& bands.sig_highres[found] <= bands.sig_lowres[sbg] < bands.sig_highres[found + 1]
        }),
{
    let found = index_map(bands).low2high[sbg] as int;
    assert(bands.sig_highres[found] < bands.sig_highres[found + 1]);
}

/// What a decoded signal scale factor is. Along frequency the first one is the
/// first difference, and every other one exceeds the one below it by its
/// difference. Along time a scale factor exceeds that of the previous envelope,
/// or of the history before the first one, by its difference, taken in the group
/// in which its own group begins, here `source`. The differences of the second
/// channel of a balanced pair count double.
#[verifier::rlimit(40)]
pub proof fn lemma_decoded_signal(
    bands: BandView,
    signal: Seq<DeltasView>,
    noise: Seq<DeltasView>,
    delta_is_two: bool,
    history: EnvelopeHistory,
    env: int,
    sbg: int,
    source: int,
)
    requires
        bands.legal(),
        0 <= env < signal.len(),
        0 <= sbg < table_of(bands, signal[env].high_resolution).len() - 1,
    ensures
        decoded_factors(signal, noise, index_map(bands), delta_is_two, history) matches Ok(factors)
            ==> {
            let own = table_of(bands, signal[env].high_resolution);
            let previous_high = if env == 0 {
                history.sig_freq_res
            } else {
                signal[env - 1].high_resolution
            };
            let before = table_of(bands, previous_high);
            let previous = if env == 0 {
                history.sig@
            } else {
                factors.sig[env - 1]
            };
            let step = if delta_is_two {
                signal[env].data[sbg] + signal[env].data[sbg]
            } else {
                signal[env].data[sbg] as int
            };
            &&& factors.sig.len() == signal.len()
            &&& factors.sig[env].len() == own.len() - 1
            &&& !signal[env].time_direction && sbg == 0 ==> factors.sig[env][0] == step
            &&& !signal[env].time_direction && sbg > 0 ==> factors.sig[env][sbg]
                - factors.sig[env][sbg - 1] == step
            &&& signal[env].time_direction && 0 <= source < before.len() - 1 && before[source]
                <= own[sbg] < before[source + 1] ==> factors.sig[env][sbg] - previous[source]
                == step
        },
{
    let map = index_map(bands);
    bands::lemma_bands_are_structured(bands);
    lemma_index_map_is_consistent(bands);
    lemma_group_counts(bands);
    if let Ok(factors) = decoded_factors(signal, noise, map, delta_is_two, history) {
        let delta = delta_of(delta_is_two);
        let high = signal[env].high_resolution;
        let own = table_of(bands, high);
        let previous_high = previous_resolution(signal, history, env);
        let before = table_of(bands, previous_high);
        lemma_signal_factors(signal, map, delta, history, factors.sig, env, sbg);
        let data = signal[env].data;
        if !signal[env].time_direction {
            assert(prefix_sum(data, sbg + 1) == prefix_sum(data, sbg) + data[sbg]);
            if sbg > 0 {
                lemma_signal_factors(signal, map, delta, history, factors.sig, env, sbg - 1);
            }
        } else if 0 <= source < before.len() - 1 && before[source] <= own[sbg] < before[source
            + 1] {
            lemma_source_is_where_the_group_begins(bands, high, previous_high, sbg, source);
        }
    }
}

/// What a decoded noise scale factor is: along frequency as for the signal, and
/// along time the difference from the same group of the previous envelope.
pub proof fn lemma_decoded_noise(
    bands: BandView,
    signal: Seq<DeltasView>,
    noise: Seq<DeltasView>,
    delta_is_two: bool,
    history: EnvelopeHistory,
    env: int,
    sbg: int,
)
    requires
        bands.legal(),
        0 <= env < noise.len(),
        0 <= sbg < bands.noise.len() - 1,
    ensures
        decoded_factors(signal, noise, index_map(bands), delta_is_two, history) matches Ok(factors)
            ==> {
            let previous = if env == 0 {
                history.noise@
            } else {
                factors.noise[env - 1]
            };
            let step = if delta_is_two {
                noise[env].data[sbg] + noise[env].data[sbg]
            } else {
                noise[env].data[sbg] as int
            };
            &&& factors.noise_groups == bands.noise.len() - 1
            &&& factors.noise.len() == noise.len()
            &&& factors.noise[env].len() == bands.noise.len() - 1
            &&& !noise[env].time_direction && sbg == 0 ==> factors.noise[env][0] == step
            &&& !noise[env].time_direction && sbg > 0 ==> factors.noise[env][sbg]
                - factors.noise[env][sbg - 1] == step
            &&& noise[env].time_direction ==> factors.noise[env][sbg] - previous[sbg] == step
        },
{
    let map = index_map(bands);
    bands::lemma_bands_are_structured(bands);
    if let Ok(factors) = decoded_factors(signal, noise, map, delta_is_two, history) {
        let delta = delta_of(delta_is_two);
        let groups = map.num_noise as int;
        let data = noise[env].data;
        lemma_noise_factors(noise, groups, delta, history, factors.noise, env, sbg);
        assert(prefix_sum(data, sbg + 1) == prefix_sum(data, sbg) + data[sbg]);
        if sbg > 0 {
            lemma_noise_factors(noise, groups, delta, history, factors.noise, env, sbg - 1);
        }
    }
}

/// What is remembered of an interval: the last row of either family, as far as
/// it goes, and the resolution of the last signal envelope.
pub proof fn lemma_what_is_remembered(
    history: EnvelopeHistory,
    signal: Seq<DeltasView>,
    factors: FactorsView,
)
    requires
        remembers(history, signal, factors),
        signal.len() > 0,
        factors.sig.len() > 0,
        factors.noise.len() > 0,
    ensures
        history.primed,
        history.sig_freq_res == signal[signal.len() - 1].high_resolution,
        forall|i: int|
            0 <= i < 22 && i < factors.sig[factors.sig.len() - 1].len()
                ==> #[trigger] history.sig@[i] == factors.sig[factors.sig.len() - 1][i],
        forall|i: int|
            0 <= i < 5 && i < factors.noise[factors.noise.len() - 1].len()
                ==> #[trigger] history.noise@[i] == factors.noise[factors.noise.len() - 1][i],
{
}

proof fn lemma_first_bad_input(
    envelopes: Seq<DeltasView>,
    groups: spec_fn(bool) -> int,
    primed: bool,
    index: int,
)
    requires
        0 <= index,
    ensures
        first_bad_input(envelopes, groups, primed, index) is None <==> {
            &&& forall|env: int|
                index <= env < envelopes.len() ==> (#[trigger] envelopes[env]).data.len() >= groups(
                    envelopes[env].high_resolution,
                )
            &&& index == 0 && envelopes.len() > 0 && envelopes[0].time_direction ==> primed
        },
    decreases envelopes.len() - index,
{
    if index < envelopes.len() {
        lemma_first_bad_input(envelopes, groups, primed, index + 1);
    }
}

/// When envelopes are decoded: there are one to five signal and one or two noise
/// envelopes, each has a difference for each of its groups, and the first of
/// either family runs along time only if there is a history. What meets this is
/// refused only where a scale factor leaves its range.
pub proof fn lemma_when_envelopes_are_decoded(
    bands: BandView,
    signal: Seq<DeltasView>,
    noise: Seq<DeltasView>,
    delta_is_two: bool,
    history: EnvelopeHistory,
)
    requires
        bands.legal(),
    ensures
        ({
            let decoded = decoded_factors(
                signal,
                noise,
                index_map(bands),
                delta_is_two,
                history,
            );
            (decoded is Ok || decoded->Err_0 is ScaleFactorOverflow) <==> {
                &&& 1 <= signal.len() <= 5
                &&& 1 <= noise.len() <= 2
                &&& forall|env: int|
                    0 <= env < signal.len() ==> (#[trigger] signal[env]).data.len() >= table_of(
                        bands,
                        signal[env].high_resolution,
                    ).len() - 1
                &&& forall|env: int|
                    0 <= env < noise.len() ==> (#[trigger] noise[env]).data.len()
                        >= bands.noise.len() - 1
                &&& signal[0].time_direction || noise[0].time_direction ==> history.primed
            }
        }),
{
    let map = index_map(bands);
    bands::lemma_bands_are_structured(bands);
    lemma_index_map_is_consistent(bands);
    lemma_group_counts(bands);
    lemma_first_bad_input(signal, |high: bool| map.groups(high), history.primed, 0);
    lemma_first_bad_input(noise, |high: bool| map.num_noise as int, history.primed, 0);
    lemma_bad_input_is_no_overflow(signal, |high: bool| map.groups(high), history.primed, 0);
    lemma_bad_input_is_no_overflow(noise, |high: bool| map.num_noise as int, history.primed, 0);
}

proof fn lemma_bad_input_is_no_overflow(
    envelopes: Seq<DeltasView>,
    groups: spec_fn(bool) -> int,
    primed: bool,
    index: int,
)
    ensures
        first_bad_input(envelopes, groups, primed, index) matches Some(error) ==> !(error
            is ScaleFactorOverflow),
    decreases envelopes.len() - index,
{
    if index < envelopes.len() {
        lemma_bad_input_is_no_overflow(envelopes, groups, primed, index + 1);
    }
}

proof fn lemma_bad_input_is_named(
    envelopes: Seq<DeltasView>,
    groups: spec_fn(bool) -> int,
    primed: bool,
    index: int,
)
    requires
        0 <= index,
        envelopes.len() <= usize::MAX,
    ensures
        match first_bad_input(envelopes, groups, primed, index) {
            None => true,
            Some(EnvelopeError::OutputTooSmall { needed, provided }) => exists|env: int|
                index <= env < envelopes.len() && provided == (#[trigger] envelopes[env]).data.len()
                    as usize && needed == groups(envelopes[env].high_resolution) as usize
                    && envelopes[env].data.len() < groups(envelopes[env].high_resolution),
            Some(EnvelopeError::MissingHistory { envelope }) => envelope == 0 && index == 0
                && !primed && envelopes.len() > 0 && envelopes[0].time_direction,
            Some(_) => false,
        },
    decreases envelopes.len() - index,
{
    if index < envelopes.len() {
        lemma_bad_input_is_named(envelopes, groups, primed, index + 1);
        if envelopes[index].data.len() < groups(envelopes[index].high_resolution) {
            assert(envelopes[index].data.len() as usize == envelopes[index].data.len() as usize);
        }
    }
}

/// Why envelopes are refused before any of them is decoded: a family has none or
/// too many, a row is shorter than its groups, or there is no history for the
/// first time difference.
pub proof fn lemma_why_envelopes_are_refused(
    signal: Seq<DeltasView>,
    noise: Seq<DeltasView>,
    map: IndexMapView,
    delta_is_two: bool,
    history: EnvelopeHistory,
)
    requires
        signal.len() <= usize::MAX,
        noise.len() <= usize::MAX,
    ensures
        ({
            let error = decoded_factors(signal, noise, map, delta_is_two, history);
            &&& error matches Err(EnvelopeError::MissingEnvelopes { signal: sig, noise: other })
                ==> sig == signal.len() && other == noise.len() && (sig == 0 || other == 0)
            &&& error matches Err(EnvelopeError::TooManyEnvelopes { signal: sig, noise: other })
                ==> sig == signal.len() && other == noise.len() && (sig > 5 || other > 2)
            &&& error matches Err(EnvelopeError::MissingHistory { envelope }) ==> envelope == 0
                && !history.primed && (signal[0].time_direction || noise[0].time_direction)
            &&& signal.len() == 0 || noise.len() == 0 ==> error is Err && error->Err_0
                is MissingEnvelopes
            &&& signal.len() > 0 && noise.len() > 0 && (signal.len() > 5 || noise.len() > 2)
                ==> error is Err && error->Err_0 is TooManyEnvelopes
        }),
{
    lemma_bad_input_is_named(signal, |high: bool| map.groups(high), history.primed, 0);
    lemma_bad_input_is_named(noise, |high: bool| map.num_noise as int, history.primed, 0);
}

/// A scale factor is found exactly in its row and column.
pub proof fn lemma_cells_are_found_in_place(rows: Seq<Seq<i16>>, env: int, sbg: int)
    ensures
        cell(rows, env, sbg) is Some <==> 0 <= env < rows.len() && 0 <= sbg < rows[env].len(),
        cell(rows, env, sbg) matches Some(value) ==> value == rows[env][sbg],
{
}

proof fn lemma_first_overflow_is_first(input: RowInput, groups: int, from: int)
    requires
        0 <= from <= groups,
    ensures
        match input.first_overflow(groups, from) {
            None => forall|sbg: int| from <= sbg < groups ==> #[trigger] input.value_fits(sbg),
            Some(found) => {
                &&& from <= found < groups
                &&& !input.value_fits(found)
                &&& forall|sbg: int| from <= sbg < found ==> #[trigger] input.value_fits(sbg)
            },
        },
    decreases groups - from,
{
    if from < groups {
        lemma_first_overflow_is_first(input, groups, from + 1);
    }
}

/// When a row is refused: at the first group whose weighted difference or whose
/// scale factor leaves 16 bits. A scale factor along frequency is the one below
/// it, or zero, plus its weighted difference; one along time is that of the
/// previous envelope plus its weighted difference.
pub proof fn lemma_when_a_row_overflows(input: RowInput, groups: int, sbg: int)
    requires
        0 <= sbg < groups,
    ensures
        ({
            let step = input.delta * input.data[sbg];
            let base = if input.time {
                input.previous[sbg] as int
            } else if sbg == 0 {
                0
            } else {
                input.value(sbg - 1)
            };
            &&& input.value(sbg) == base + step
            &&& input.row(groups) is Ok ==> -32768 <= step <= 32767 && -32768 <= base + step
                <= 32767
            &&& input.row(groups) matches Err(found) ==> {
                &&& 0 <= found < groups
                &&& sbg < found ==> -32768 <= step <= 32767 && -32768 <= base + step <= 32767
                &&& sbg == found ==> !(-32768 <= step <= 32767 && -32768 <= base + step <= 32767)
            }
        }),
{
    lemma_first_overflow_is_first(input, groups, 0);
    let before = prefix_sum(input.data, sbg);
    let next = input.data[sbg] as int;
    assert(prefix_sum(input.data, sbg + 1) == before + next);
    assert(input.delta * (before + next) == input.delta * before + input.delta * next)
        by (nonlinear_arith);
    assert(input.delta * 0 == 0) by (nonlinear_arith);
    assert(input.row(groups) is Ok ==> input.value_fits(sbg));
    if let Err(found) = input.row(groups) {
        assert(sbg < found ==> input.value_fits(sbg));
    }
}

} // verus!
