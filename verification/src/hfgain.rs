//! Checks and grouping for the compensation gains.
//!
//! The gains are computed for every subband of the extended range. With the
//! limiter on, a ceiling and a boost are computed for every limiter group and
//! mapped onto its subbands. The mapping walks the limiter borders without
//! looking at the end of the table: that is sound because the borders strictly
//! increase and the last one is the top of the range, which is checked first.
use vstd::prelude::*;
use crate::bands::{self, AspxBandTables, BandView, MAX_SBG_SIG_LOWRES};
use crate::frames::MAX_ATSG_SIG;
use crate::patches::{PatchTable, PatchView, MAX_SBG_PATCHES};

verus! {

/// Largest number of limiter groups: the low-resolution groups, cut by the
/// inner patch borders.
pub const MAX_SBG_LIM: usize = MAX_SBG_SIG_LOWRES + MAX_SBG_PATCHES - 1;

/// Why gains cannot be computed.
#[derive(Debug, Clone, Copy, PartialEq, Eq)]
pub enum GainError {
    /// There are no envelopes, or too many.
    EnvelopeCountOutOfRange {
        /// Number of envelopes.
        envelopes: usize,
    },
    /// The estimate does not cover the extended range.
    SubbandCountMismatch {
        /// Subbands of the estimate.
        estimate: u8,
        /// Subbands of the tables.
        bands: u8,
    },
    /// The estimate was made with other tables.
    BandLayoutMismatch,
    /// There are no limiter groups, or too many.
    LimiterGroupsOutOfRange {
        /// Number of limiter groups.
        groups: usize,
    },
    /// The limiter groups do not cover the extended range.
    LimiterRangeMismatch {
        /// First limiter border.
        first: u8,
        /// Last limiter border.
        last: u8,
        /// Crossover subband.
        sbx: u8,
        /// Width of the extended range.
        num_sb_aspx: u8,
    },
    /// The limiter borders do not strictly increase.
    LimiterBordersNotIncreasing {
        /// Index of the second of two borders.
        index: usize,
    },
    /// The limiter groups were made with other tables or patches.
    LimiterSourceMismatch,
    /// A signal gain is zero where it has to be divided by.
    DegenerateSignalGain {
        /// Subband above the crossover.
        subband: usize,
        /// Envelope.
        envelope: usize,
    },
}

/// Whether the limiter is on, and with which groups.
#[derive(Debug, Clone, Copy)]
pub enum LimiterMode<'a> {
    /// Gains are not limited.
    Off,
    /// Gains are limited group by group.
    On {
        /// Limiter borders, one more than there are groups.
        borders: &'a [u8],
        /// The tables that the groups were made with.
        source_bands: &'a AspxBandTables,
        /// The patches that the groups were made with.
        source_patches: &'a PatchTable,
        /// The patches that the high band was generated with.
        patches: &'a PatchTable,
    },
}

/// What the gains are computed from.
#[derive(Debug, Clone, Copy)]
pub struct EstimateShape<'a> {
    /// Number of envelopes.
    pub envelopes: u8,
    /// Number of subbands.
    pub subbands: u8,
    /// The tables that the estimate was made with.
    pub source_bands: &'a AspxBandTables,
}

/// The first index, from `index` on, whose border does not lie above the one
/// before it.
pub open spec fn first_stuck_limit(borders: Seq<u8>, index: int) -> Option<int>
    decreases borders.len() - index,
{
    if index >= borders.len() {
        None
    } else if borders[index] <= borders[index - 1] {
        Some(index)
    } else {
        first_stuck_limit(borders, index + 1)
    }
}

/// What is wrong with the limiter groups.
pub open spec fn limiter_error(
    borders: Seq<u8>,
    source_bands: BandView,
    source_patches: PatchView,
    bands: BandView,
    patches: PatchView,
) -> Option<GainError> {
    let groups = bands::group_count(borders);
    if groups == 0 || groups > MAX_SBG_LIM {
        Some(GainError::LimiterGroupsOutOfRange { groups: groups as usize })
    } else if borders[0] != bands.sbx() || borders.last() != bands.sbz() {
        Some(
            GainError::LimiterRangeMismatch {
                first: borders[0],
                last: borders.last(),
                sbx: bands.sbx(),
                num_sb_aspx: (bands.sbz() - bands.sbx()) as u8,
            },
        )
    } else if first_stuck_limit(borders, 1) is Some {
        Some(
            GainError::LimiterBordersNotIncreasing {
                index: first_stuck_limit(borders, 1)->0 as usize,
            },
        )
    } else if source_bands != bands || source_patches != patches {
        Some(GainError::LimiterSourceMismatch)
    } else {
        None
    }
}

/// What is wrong with the estimate.
pub open spec fn estimate_error(shape: EstimateShape<'_>, bands: BandView) -> Option<GainError> {
    if shape.envelopes == 0 || shape.envelopes > MAX_ATSG_SIG {
        Some(GainError::EnvelopeCountOutOfRange { envelopes: shape.envelopes as usize })
    } else if shape.subbands != bands.sbz() - bands.sbx() {
        Some(
            GainError::SubbandCountMismatch {
                estimate: shape.subbands,
                bands: (bands.sbz() - bands.sbx()) as u8,
            },
        )
    } else if shape.source_bands@ != bands {
        Some(GainError::BandLayoutMismatch)
    } else {
        None
    }
}

/// The limiter group of each of the first `count` subbands from `sbx` on.
pub open spec fn groups_from(borders: Seq<u8>, sbx: u8, count: int) -> Seq<usize> {
    Seq::new(count as nat, |sb: int| bands::started_groups(borders, sbx + sb) as usize)
}

/// The limiter group of each subband of the extended range, if the limiter is
/// on; or why gains cannot be computed.
pub open spec fn adjustment_plan(
    shape: EstimateShape<'_>,
    bands: BandView,
    mode: LimiterMode<'_>,
) -> Result<Option<Seq<usize>>, GainError> {
    match estimate_error(shape, bands) {
        Some(error) => Err(error),
        None => match mode {
            LimiterMode::Off => Ok(None),
            LimiterMode::On { borders, source_bands, source_patches, patches } => {
                match limiter_error(borders@, source_bands@, source_patches@, bands, patches@) {
                    Some(error) => Err(error),
                    None => Ok(Some(groups_from(borders@, bands.sbx(), shape.subbands as int))),
                }
            },
        },
    }
}

proof fn lemma_limit_step(borders: Seq<u8>, index: int, i: int)
    requires
        1 <= index <= i < borders.len(),
        first_stuck_limit(borders, index) is None,
    ensures
        borders[i - 1] < borders[i],
    decreases i - index,
{
    if index < i {
        lemma_limit_step(borders, index + 1, i);
    }
}

proof fn lemma_limits_rise(borders: Seq<u8>, i: int, j: int)
    requires
        0 <= i < j < borders.len(),
        first_stuck_limit(borders, 1) is None,
    ensures
        borders[i] < borders[j],
    decreases j - i,
{
    lemma_limit_step(borders, 1, j);
    if i < j - 1 {
        lemma_limits_rise(borders, i, j - 1);
    }
}

/// Checks the limiter groups.
fn check_limiter(
    borders: &[u8],
    source_bands: &AspxBandTables,
    source_patches: &PatchTable,
    bands: &AspxBandTables,
    patches: &PatchTable,
) -> (result: Result<(), GainError>)
    ensures
        match result {
            Ok(_) => limiter_error(
                borders@,
                source_bands@,
                source_patches@,
                bands@,
                patches@,
            ) is None,
            Err(error) => limiter_error(
                borders@,
                source_bands@,
                source_patches@,
                bands@,
                patches@,
            ) == Some(error),
        },
{
    let groups: usize = if borders.len() == 0 {
        0
    } else {
        borders.len() - 1
    };
    if groups == 0 || groups > MAX_SBG_LIM {
        return Err(GainError::LimiterGroupsOutOfRange { groups });
    }
    let (first, last): (u8, u8) = (borders[0], borders[groups]);
    if first != bands.sbx() || last != bands.sbz() {
        return Err(
            GainError::LimiterRangeMismatch {
                first,
                last,
                sbx: bands.sbx(),
                num_sb_aspx: bands.num_sb_aspx(),
            },
        );
    }
    let mut index: usize = 1;
    while index < borders.len()
        invariant
            1 <= index <= borders@.len(),
            first_stuck_limit(borders@, 1) == first_stuck_limit(borders@, index as int),
            bands::group_count(borders@) > 0,
            bands::group_count(borders@) <= MAX_SBG_LIM,
            borders@[0] == bands@.sbx(),
            borders@.last() == bands@.sbz(),
        decreases borders@.len() - index,
    {
        if borders[index] <= borders[index - 1] {
            return Err(GainError::LimiterBordersNotIncreasing { index });
        }
        index = index + 1;
    }
    if !source_bands.same_as(bands) || !source_patches.same_as(patches) {
        return Err(GainError::LimiterSourceMismatch);
    }
    Ok(())
}

/// Maps the subbands of the extended range onto limiter groups.
fn map_groups(borders: &[u8], sbx: u8, count: usize) -> (groups: Vec<usize>)
    requires
        borders@.len() >= 2,
        borders@[0] == sbx,
        borders@.last() == sbx + count,
        first_stuck_limit(borders@, 1) is None,
    ensures
        groups@ == groups_from(borders@, sbx, count as int),
        forall|sb: int|
            0 <= sb < count ==> {
                &&& (#[trigger] groups@[sb]) < borders@.len() - 1
                &&& borders@[groups@[sb] as int] <= sbx + sb < borders@[groups@[sb] + 1]
            },
{
    let total: usize = borders.len();
    let mut groups: Vec<usize> = Vec::new();
    let mut group: usize = 0;
    let mut sb: usize = 0;
    assert forall|i: int, j: int| 0 <= i < j < borders@.len() implies #[trigger] borders@[i]
        < #[trigger] borders@[j] by {
        lemma_limits_rise(borders@, i, j);
    }
    while sb < count
        invariant
            sb <= count,
            total == borders@.len(),
            borders@[0] == sbx,
            borders@.last() == sbx + count,
            forall|i: int, j: int|
                0 <= i < j < borders@.len() ==> #[trigger] borders@[i] < #[trigger] borders@[j],
            group < borders@.len() - 1,
            forall|i: int| 1 <= i <= group ==> #[trigger] borders@[i] < sbx + sb,
            forall|i: int| group < i < borders@.len() ==> #[trigger] borders@[i] >= sbx + sb,
            groups@ == groups_from(borders@, sbx, sb as int),
            forall|k: int|
                0 <= k < sb ==> {
                    &&& (#[trigger] groups@[k]) < borders@.len() - 1
                    &&& borders@[groups@[k] as int] <= sbx + k < borders@[groups@[k] + 1]
                },
        decreases count - sb,
    {
        assert(borders@[borders@.len() - 1] == borders@.last());
        if borders[group + 1] as usize == sbx as usize + sb {
            group = group + 1;
        }
        proof {
            bands::lemma_last_started_group(borders@, sbx + sb, group as int);
        }
        let ghost before = groups@;
        groups.push(group);
        assert(groups@ =~= groups_from(borders@, sbx, sb + 1));
        assert forall|k: int| 0 <= k <= sb implies {
            &&& (#[trigger] groups@[k]) < borders@.len() - 1
            &&& borders@[groups@[k] as int] <= sbx + k < borders@[groups@[k] + 1]
        } by {
            if k < sb {
                assert(groups@[k] == before[k]);
            }
        }
        sb = sb + 1;
    }
    groups
}

/// Checks what gains are computed from. With the limiter on, gives the limiter
/// group of each subband of the extended range; every subband lies inside its
/// group.
pub fn plan_adjustment(
    shape: EstimateShape<'_>,
    bands: &AspxBandTables,
    mode: LimiterMode<'_>,
) -> (result: Result<Option<Vec<usize>>, GainError>)
    ensures
        match result {
            Ok(Some(groups)) => {
                &&& adjustment_plan(shape, bands@, mode) == Ok::<Option<Seq<usize>>, GainError>(
                    Some(groups@),
                )
                &&& mode matches LimiterMode::On { borders, .. } && forall|sb: int|
                    0 <= sb < groups@.len() ==> {
                        &&& (#[trigger] groups@[sb]) < borders@.len() - 1
                        &&& borders@[groups@[sb] as int] <= bands@.sbx() + sb
                            < borders@[groups@[sb] + 1]
                    }
            },
            Ok(None) => adjustment_plan(shape, bands@, mode) == Ok::<
                Option<Seq<usize>>,
                GainError,
            >(None),
            Err(error) => adjustment_plan(shape, bands@, mode) == Err::<
                Option<Seq<usize>>,
                GainError,
            >(error),
        },
{
    if shape.envelopes == 0 || shape.envelopes as usize > MAX_ATSG_SIG {
        return Err(GainError::EnvelopeCountOutOfRange { envelopes: shape.envelopes as usize });
    }
    if shape.subbands != bands.num_sb_aspx() {
        return Err(
            GainError::SubbandCountMismatch {
                estimate: shape.subbands,
                bands: bands.num_sb_aspx(),
            },
        );
    }
    if !shape.source_bands.same_as(bands) {
        return Err(GainError::BandLayoutMismatch);
    }
    match mode {
        LimiterMode::Off => Ok(None),
        LimiterMode::On { borders, source_bands, source_patches, patches } => {
            check_limiter(borders, source_bands, source_patches, bands, patches)?;
            Ok(Some(map_groups(borders, bands.sbx(), shape.subbands as usize)))
        },
    }
}

/// Where the noise scale factor enters the initial gain of a subband.
#[derive(Debug, Clone, Copy, PartialEq, Eq)]
pub struct NoiseTerms {
    /// The signal scale factor is multiplied by it.
    pub numerator: bool,
    /// The energy of the generated signal is multiplied by one more than it.
    pub denominator: bool,
}

/// Whether the noise scale factor enters the initial gain above the fraction.
pub open spec fn noise_above(sine_area: bool, onset: bool) -> bool {
    sine_area
}

/// Whether the noise scale factor enters the initial gain below the fraction.
pub open spec fn noise_below(sine_area: bool, onset: bool) -> bool {
    sine_area || !onset
}

/// Where the noise scale factor enters the initial gain: above and below the
/// fraction where a sinusoid lies in the group; otherwise only below, and not
/// at all in the envelope in which a sinusoid starts.
#[must_use]
pub fn noise_terms(sine_area: bool, onset: bool) -> (terms: NoiseTerms)
    ensures
        terms.numerator == noise_above(sine_area, onset),
        terms.denominator == noise_below(sine_area, onset),
{
    NoiseTerms { numerator: sine_area, denominator: sine_area || !onset }
}

/// Whether the noise of a subband counts as energy when the loss through the
/// limiter is made up for.
pub open spec fn noise_boosted(has_sine: bool, onset: bool) -> bool {
    !(has_sine || onset)
}

/// Whether the noise of a subband counts as energy when the loss through the
/// limiter is made up for: only without a sinusoid, and not in the envelope in
/// which one starts.
#[must_use]
pub fn noise_counts_in_boost(has_sine: bool, onset: bool) -> (counts: bool)
    ensures
        counts == noise_boosted(has_sine, onset),
{
    !has_sine && !onset
}

proof fn lemma_neighbours_rise(borders: Seq<u8>, index: int)
    requires
        1 <= index,
    ensures
        first_stuck_limit(borders, index) is None <==> forall|i: int|
            index <= i < borders.len() ==> borders[i - 1] < #[trigger] borders[i],
    decreases borders.len() - index,
{
    if index < borders.len() {
        lemma_neighbours_rise(borders, index + 1);
        if borders[index] <= borders[index - 1] {
            assert(!(borders[index - 1] < borders[index]));
        }
    }
}

/// When gains can be computed: for one to five envelopes, over all subbands from
/// the crossover to the top, with tables like those of the estimate; and where
/// gains are limited, with one to fifteen rising groups over the same subbands
/// that were made with the same tables and patches.
pub proof fn lemma_when_gains_can_be_computed(
    shape: EstimateShape<'_>,
    bands: BandView,
    mode: LimiterMode<'_>,
)
    ensures
        adjustment_plan(shape, bands, mode) is Ok <==> {
            &&& 1 <= shape.envelopes <= 5
            &&& shape.subbands == bands.sbz() - bands.sbx()
            &&& shape.source_bands@ == bands
            &&& mode matches LimiterMode::On { borders, source_bands, source_patches, patches }
                ==> {
                &&& 2 <= borders@.len() <= 16
                &&& borders@[0] == bands.sbx()
                &&& borders@[borders@.len() - 1] == bands.sbz()
                &&& forall|i: int|
                    1 <= i < borders@.len() ==> borders@[i - 1] < #[trigger] borders@[i]
                &&& source_bands@ == bands
                &&& source_patches@ == patches@
            }
        },
        adjustment_plan(shape, bands, mode) matches Ok(plan) ==> (plan is Some <==> mode is On),
{
    if let LimiterMode::On { borders, source_bands, source_patches, patches } = mode {
        lemma_neighbours_rise(borders@, 1);
    }
}

/// Each subband from the crossover on belongs to the limiter group whose borders
/// enclose it.
pub proof fn lemma_limiter_groups_enclose_their_subbands(
    shape: EstimateShape<'_>,
    bands: BandView,
    borders: &[u8],
    source_bands: &AspxBandTables,
    source_patches: &PatchTable,
    patches: &PatchTable,
    sb: int,
    group: int,
)
    requires
        0 <= sb < shape.subbands,
        0 <= group < borders@.len() - 1,
        borders@[group] <= bands.sbx() + sb < borders@[group + 1],
    ensures
        adjustment_plan(
            shape,
            bands,
            LimiterMode::On { borders, source_bands, source_patches, patches },
        ) matches Ok(Some(groups)) ==> {
            &&& groups.len() == shape.subbands
            &&& groups[sb] == group
        },
{
    let mode = LimiterMode::On { borders, source_bands, source_patches, patches };
    if adjustment_plan(shape, bands, mode) is Ok {
        assert forall|i: int| 1 <= i <= group implies #[trigger] borders@[i] <= bands.sbx()
            + sb by {
            if i < group {
                lemma_limits_rise(borders@, i, group);
            }
        }
        assert forall|i: int| group < i < borders@.len() implies #[trigger] borders@[i]
            > bands.sbx() + sb by {
            if group + 1 < i {
                lemma_limits_rise(borders@, group + 1, i);
            }
        }
        bands::lemma_last_started_group(borders@, bands.sbx() + sb, group);
    }
}

/// Noise enters a gain above the fraction only together with below; in a group
/// with a sinusoid it always does both, in one without never above. The onset
/// takes it out of a gain only where no sinusoid lies in the group. It is boosted
/// exactly where neither a sinusoid nor an onset takes its place.
pub proof fn lemma_where_noise_counts(sine: bool, onset: bool)
    ensures
        noise_above(sine, onset) ==> noise_below(sine, onset),
        noise_above(true, onset) && noise_below(true, onset),
        !noise_above(false, onset),
        noise_below(false, onset) != onset,
        noise_boosted(sine, onset) ==> !sine && !onset,
        noise_boosted(false, false),
{
}

} // verus!
