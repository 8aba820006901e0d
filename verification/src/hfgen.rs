//! Plan of the high-frequency generator.
//!
//! The generator fills the subbands above the crossover with filtered copies of
//! low subbands. Three indices run side by side: the subband that is written,
//! which goes on from patch to patch; the low subband that is read, which
//! starts anew with each patch and selects the prediction filter and the
//! flattening gain; and the noise group of the written subband, which selects
//! the chirp factor. The plan lists them in the order of writing. It is the
//! same for all timeslots, and nothing is written unless all of it is valid.
use vstd::prelude::*;
use crate::bands::{self, BandView};
use crate::patches::{self, PatchError, PatchTable, PatchView};
use crate::qmf::SUBBANDS;
use crate::tables::MAX_SBG_NOISE;

verus! {

/// Timeslots of history in front of the extended low band; the longest filter
/// tap reaches this far back.
pub const TS_OFFSET_HFADJ: usize = 4;

/// Why the generator cannot run.
#[derive(Debug, Clone, Copy, PartialEq, Eq)]
pub enum HfGenError {
    /// The interval is empty or reversed.
    EmptyInterval {
        /// First timeslot.
        first: usize,
        /// Timeslot after the last one.
        last: usize,
    },
    /// The interval passes the end of the extended low band.
    IntervalOutOfRange {
        /// Timeslot after the last one.
        last: usize,
        /// Timeslots of the extended low band.
        available: usize,
    },
    /// A patch passes the highest subband.
    SubbandOutOfRange {
        /// The subband that would be written.
        sb_high: usize,
    },
    /// A patch reads a subband that has no prediction filter.
    SourceWithoutFilter {
        /// The subband that would be read.
        source: usize,
        /// Number of subbands with a filter.
        filters: u8,
    },
    /// There is not one chirp factor for each noise group.
    ChirpCountMismatch {
        /// Number of noise groups.
        groups: usize,
        /// Number of chirp factors.
        provided: usize,
    },
    /// There are no noise groups, or too many.
    NoiseGroupCountOutOfRange {
        /// Number of noise groups.
        groups: usize,
    },
    /// The noise borders do not strictly increase.
    NoiseBordersNotIncreasing {
        /// Index of the second of two borders.
        index: usize,
        /// The first of them.
        previous: u8,
        /// The second of them.
        current: u8,
    },
    /// A patch reads a subband that has no flattening gain.
    MissingGain {
        /// The subband that would be read.
        source: usize,
    },
    /// The output does not have one timeslot for each of the interval.
    OutputLengthMismatch {
        /// Timeslots of the interval.
        expected: usize,
        /// Timeslots of the output.
        provided: usize,
    },
    /// The patches and the noise groups do not start at the same subband.
    CrossoverMismatch {
        /// Where the patches start.
        patches: usize,
        /// Where the noise groups start.
        noise: usize,
    },
}

/// One subband that the generator writes.
#[derive(Debug, Clone, Copy, PartialEq, Eq)]
pub struct HfSource {
    /// The subband that is written.
    pub sb_high: usize,
    /// The low subband that is read.
    pub source: usize,
    /// The noise group of the subband that is written.
    pub group: usize,
}

/// What the generator is given.
pub struct GenerationInput {
    /// First timeslot of the interval.
    pub first: usize,
    /// Timeslot after the last one.
    pub last: usize,
    /// Timeslots of the output.
    pub out_slots: usize,
    /// Timeslots of the extended low band.
    pub extended_slots: usize,
    /// Number of subbands with a prediction filter.
    pub filters: u8,
    /// Number of chirp factors.
    pub chirps: usize,
    /// Number of subbands with a flattening gain, if flattening is on.
    pub gains: Option<u8>,
}

/// Widths of the first `count` patches.
pub open spec fn total_width(num_sb: Seq<u8>, count: int) -> int
    decreases count,
{
    if count <= 0 {
        0
    } else {
        total_width(num_sb, count - 1) + num_sb[count - 1]
    }
}

/// The subband at offset `sb` of patch `index`.
pub open spec fn source_at(
    patches: PatchView,
    borders: Seq<u8>,
    index: int,
    sb: int,
) -> HfSource {
    let sb_high = patches.borders[0] + total_width(patches.num_sb, index) + sb;
    HfSource {
        sb_high: sb_high as usize,
        source: (patches.start_sb[index] + sb) as usize,
        group: bands::started_groups(borders, sb_high) as usize,
    }
}

/// The first `width` subbands of patch `index`.
pub open spec fn patch_sources(
    patches: PatchView,
    borders: Seq<u8>,
    index: int,
    width: int,
) -> Seq<HfSource> {
    Seq::new(width as nat, |sb: int| source_at(patches, borders, index, sb))
}

/// The subbands of the first `count` patches, in the order of writing.
pub open spec fn all_sources(patches: PatchView, borders: Seq<u8>, count: int) -> Seq<HfSource>
    decreases count,
{
    if count <= 0 {
        Seq::empty()
    } else {
        all_sources(patches, borders, count - 1) + patch_sources(
            patches,
            borders,
            count - 1,
            patches.num_sb[count - 1] as int,
        )
    }
}

/// What is wrong with a subband of the plan.
pub open spec fn source_error(step: HfSource, filters: u8, gains: Option<u8>) -> Option<
    HfGenError,
> {
    if step.sb_high >= SUBBANDS {
        Some(HfGenError::SubbandOutOfRange { sb_high: step.sb_high })
    } else if step.source >= filters {
        Some(HfGenError::SourceWithoutFilter { source: step.source, filters })
    } else if gains matches Some(count) && step.source >= count {
        Some(HfGenError::MissingGain { source: step.source })
    } else {
        None
    }
}

/// The first error among the subbands of the plan.
pub open spec fn first_source_error(
    steps: Seq<HfSource>,
    filters: u8,
    gains: Option<u8>,
) -> Option<HfGenError>
    decreases steps.len(),
{
    if steps.len() == 0 {
        None
    } else {
        match first_source_error(steps.drop_last(), filters, gains) {
            Some(error) => Some(error),
            None => source_error(steps.last(), filters, gains),
        }
    }
}

/// The first border, from `index` on, that does not lie above the one before
/// it.
pub open spec fn first_stuck_border(borders: Seq<u8>, index: int) -> Option<HfGenError>
    decreases borders.len() - index,
{
    if index >= borders.len() {
        None
    } else if borders[index - 1] >= borders[index] {
        Some(
            HfGenError::NoiseBordersNotIncreasing {
                index: index as usize,
                previous: borders[index - 1],
                current: borders[index],
            },
        )
    } else {
        first_stuck_border(borders, index + 1)
    }
}

/// What is wrong with the lengths and the noise borders.
pub open spec fn input_error(
    input: GenerationInput,
    patches: PatchView,
    borders: Seq<u8>,
) -> Option<HfGenError> {
    if input.last <= input.first {
        Some(HfGenError::EmptyInterval { first: input.first, last: input.last })
    } else if input.out_slots != input.last - input.first {
        Some(
            HfGenError::OutputLengthMismatch {
                expected: (input.last - input.first) as usize,
                provided: input.out_slots,
            },
        )
    } else if input.last + TS_OFFSET_HFADJ > input.extended_slots {
        Some(
            HfGenError::IntervalOutOfRange { last: input.last, available: input.extended_slots },
        )
    } else if borders.len() < 2 || borders.len() > MAX_SBG_NOISE + 1 {
        Some(
            HfGenError::NoiseGroupCountOutOfRange {
                groups: if borders.len() == 0 {
                    0
                } else {
                    (borders.len() - 1) as usize
                },
            },
        )
    } else if input.chirps != borders.len() - 1 {
        Some(
            HfGenError::ChirpCountMismatch {
                groups: (borders.len() - 1) as usize,
                provided: input.chirps,
            },
        )
    } else if first_stuck_border(borders, 1) is Some {
        first_stuck_border(borders, 1)
    } else if borders[0] != patches.borders[0] {
        Some(
            HfGenError::CrossoverMismatch {
                patches: patches.borders[0] as usize,
                noise: borders[0] as usize,
            },
        )
    } else {
        None
    }
}

/// The plan of the generator, or why there is none.
pub open spec fn generation_plan(
    input: GenerationInput,
    patches: PatchView,
    borders: Seq<u8>,
) -> Result<Seq<HfSource>, HfGenError> {
    let steps = all_sources(patches, borders, patches.num_sb.len() as int);
    match input_error(input, patches, borders) {
        Some(error) => Err(error),
        None => match first_source_error(steps, input.filters, input.gains) {
            Some(error) => Err(error),
            None => Ok(steps),
        },
    }
}

proof fn lemma_no_stuck_border(borders: Seq<u8>, index: int, i: int)
    requires
        1 <= index <= i < borders.len(),
        first_stuck_border(borders, index) is None,
    ensures
        borders[i - 1] < borders[i],
    decreases i - index,
{
    if index < i {
        lemma_no_stuck_border(borders, index + 1, i);
    }
}

proof fn lemma_rising_step(borders: Seq<u8>, i: int, j: int)
    requires
        0 <= i < j < borders.len(),
        first_stuck_border(borders, 1) is None,
    ensures
        borders[i] < borders[j],
    decreases j - i,
{
    lemma_no_stuck_border(borders, 1, j);
    if i < j - 1 {
        lemma_rising_step(borders, i, j - 1);
    }
}

proof fn lemma_rising(borders: Seq<u8>)
    requires
        first_stuck_border(borders, 1) is None,
    ensures
        bands::strictly_increasing(borders),
{
    assert forall|i: int, j: int| 0 <= i < j < borders.len() implies #[trigger] borders[i]
        < #[trigger] borders[j] by {
        lemma_rising_step(borders, i, j);
    }
}

proof fn lemma_sources_grow(patches: PatchView, borders: Seq<u8>, index: int, width: int)
    requires
        width >= 0,
    ensures
        patch_sources(patches, borders, index, width + 1) == patch_sources(
            patches,
            borders,
            index,
            width,
        ).push(source_at(patches, borders, index, width)),
{
    assert(patch_sources(patches, borders, index, width + 1) =~= patch_sources(
        patches,
        borders,
        index,
        width,
    ).push(source_at(patches, borders, index, width)));
}

proof fn lemma_error_of_longer(
    steps: Seq<HfSource>,
    longer: Seq<HfSource>,
    filters: u8,
    gains: Option<u8>,
)
    requires
        steps.len() <= longer.len(),
        longer.take(steps.len() as int) == steps,
        first_source_error(steps, filters, gains) is Some,
    ensures
        first_source_error(longer, filters, gains) == first_source_error(steps, filters, gains),
    decreases longer.len(),
{
    if steps.len() < longer.len() {
        let shorter = longer.drop_last();
        assert(shorter.take(steps.len() as int) =~= steps);
        lemma_error_of_longer(steps, shorter, filters, gains);
    } else {
        assert(longer =~= steps);
    }
}

/// The plan of the first patches is the beginning of the whole plan.
proof fn lemma_sources_prefix(
    patches: PatchView,
    borders: Seq<u8>,
    index: int,
    width: int,
    count: int,
)
    requires
        0 <= index < count,
        0 <= width <= patches.num_sb[index],
    ensures
        ({
            let steps = all_sources(patches, borders, index) + patch_sources(
                patches,
                borders,
                index,
                width,
            );
            let whole = all_sources(patches, borders, count);
            steps.len() <= whole.len() && whole.take(steps.len() as int) == steps
        }),
    decreases count,
{
    let steps = all_sources(patches, borders, index) + patch_sources(
        patches,
        borders,
        index,
        width,
    );
    let whole = all_sources(patches, borders, count);
    if index == count - 1 {
        assert(whole.take(steps.len() as int) =~= steps);
    } else {
        lemma_sources_prefix(patches, borders, index, width, count - 1);
        let shorter = all_sources(patches, borders, count - 1);
        assert(whole.take(shorter.len() as int) =~= shorter);
        assert(whole.take(steps.len() as int) =~= shorter.take(steps.len() as int));
    }
}

/// Checks the noise borders.
fn check_borders(borders: &[u8]) -> (result: Result<(), HfGenError>)
    requires
        borders@.len() >= 1,
    ensures
        match result {
            Ok(_) => first_stuck_border(borders@, 1) is None,
            Err(error) => first_stuck_border(borders@, 1) == Some(error),
        },
{
    let mut index: usize = 1;
    while index < borders.len()
        invariant
            1 <= index <= borders@.len(),
            first_stuck_border(borders@, 1) == first_stuck_border(borders@, index as int),
        decreases borders@.len() - index,
    {
        if borders[index - 1] >= borders[index] {
            return Err(
                HfGenError::NoiseBordersNotIncreasing {
                    index,
                    previous: borders[index - 1],
                    current: borders[index],
                },
            );
        }
        index = index + 1;
    }
    Ok(())
}

/// Checks the lengths and the noise borders.
fn check_input(
    input: &GenerationInput,
    sbx: u8,
    borders: &[u8],
    Ghost(patches): Ghost<PatchView>,
) -> (result: Result<(), HfGenError>)
    requires
        sbx == patches.borders[0],
    ensures
        match result {
            Ok(_) => input_error(*input, patches, borders@) is None,
            Err(error) => input_error(*input, patches, borders@) == Some(error),
        },
{
    let (first, last): (usize, usize) = (input.first, input.last);
    if last <= first {
        return Err(HfGenError::EmptyInterval { first, last });
    }
    if input.out_slots != last - first {
        return Err(
            HfGenError::OutputLengthMismatch { expected: last - first, provided: input.out_slots },
        );
    }
    if last > usize::MAX - TS_OFFSET_HFADJ || last + TS_OFFSET_HFADJ > input.extended_slots {
        return Err(HfGenError::IntervalOutOfRange { last, available: input.extended_slots });
    }
    if borders.len() < 2 || borders.len() > MAX_SBG_NOISE as usize + 1 {
        return Err(
            HfGenError::NoiseGroupCountOutOfRange {
                groups: if borders.len() == 0 {
                    0
                } else {
                    borders.len() - 1
                },
            },
        );
    }
    if input.chirps != borders.len() - 1 {
        return Err(
            HfGenError::ChirpCountMismatch { groups: borders.len() - 1, provided: input.chirps },
        );
    }
    check_borders(borders)?;
    if borders[0] != sbx {
        return Err(
            HfGenError::CrossoverMismatch { patches: sbx as usize, noise: borders[0] as usize },
        );
    }
    Ok(())
}

/// Checks one subband of the plan.
fn check_source(step: &HfSource, filters: u8, gains: Option<u8>) -> (result: Result<(), HfGenError>)
    ensures
        match result {
            Ok(_) => source_error(*step, filters, gains) is None,
            Err(error) => source_error(*step, filters, gains) == Some(error),
        },
{
    if step.sb_high >= SUBBANDS {
        return Err(HfGenError::SubbandOutOfRange { sb_high: step.sb_high });
    }
    if step.source >= filters as usize {
        return Err(HfGenError::SourceWithoutFilter { source: step.source, filters });
    }
    if let Some(count) = gains {
        if step.source >= count as usize {
            return Err(HfGenError::MissingGain { source: step.source });
        }
    }
    Ok(())
}

/// The plan of the generator: the subbands that it writes in every timeslot of
/// the interval, with what it reads for each.
pub fn plan_generation(
    input: &GenerationInput,
    patches: &PatchTable,
    noise_borders: &[u8],
) -> (result: Result<Vec<HfSource>, HfGenError>)
    ensures
        match result {
            Ok(steps) => generation_plan(*input, patches@, noise_borders@) == Ok::<
                Seq<HfSource>,
                HfGenError,
            >(steps@),
            Err(error) => generation_plan(*input, patches@, noise_borders@) == Err::<
                Seq<HfSource>,
                HfGenError,
            >(error),
        },
{
    let count: usize = patches.count() as usize;
    let sbx: u8 = match patches.border(0) {
        Some(border) => border,
        None => 0,
    };
    check_input(input, sbx, noise_borders, Ghost(patches@))?;
    proof {
        lemma_rising(noise_borders@);
    }
    let mut steps: Vec<HfSource> = Vec::new();
    let mut next: usize = sbx as usize;
    let mut group: usize = 0;
    let mut index: usize = 0;
    while index < count
        invariant
            index <= count <= 5,
            count == patches@.num_sb.len() == patches@.start_sb.len(),
            patches@.borders.len() == count + 1,
            sbx == patches@.borders[0] == noise_borders@[0],
            bands::strictly_increasing(noise_borders@),
            input_error(*input, patches@, noise_borders@) is None,
            next == sbx + total_width(patches@.num_sb, index as int),
            next <= 255 + 255 * index,
            group < noise_borders@.len() <= 6,
            forall|i: int| 1 <= i <= group ==> #[trigger] noise_borders@[i] < next,
            forall|i: int|
                group < i < noise_borders@.len() ==> #[trigger] noise_borders@[i] >= next,
            steps@ == all_sources(patches@, noise_borders@, index as int),
            first_source_error(steps@, input.filters, input.gains) is None,
        decreases count - index,
    {
        let width: usize = match patches.num_sb(index) {
            Some(width) => width as usize,
            None => 0,
        };
        let start: usize = match patches.start_sb(index) {
            Some(start) => start as usize,
            None => 0,
        };
        let ghost done = steps@;
        let base: usize = next;
        let mut sb: usize = 0;
        assert(steps@ =~= done + patch_sources(patches@, noise_borders@, index as int, 0));
        while sb < width
            invariant
                sb <= width <= 255,
                index < count <= 5,
                count == patches@.num_sb.len() == patches@.start_sb.len(),
                width == patches@.num_sb[index as int],
                start == patches@.start_sb[index as int],
                sbx == patches@.borders[0] == noise_borders@[0],
                bands::strictly_increasing(noise_borders@),
                input_error(*input, patches@, noise_borders@) is None,
                base == sbx + total_width(patches@.num_sb, index as int),
                base <= 255 + 255 * index,
                next == base + sb,
                group < noise_borders@.len() <= 6,
                forall|i: int| 1 <= i <= group ==> #[trigger] noise_borders@[i] < next,
                forall|i: int|
                    group < i < noise_borders@.len() ==> #[trigger] noise_borders@[i] >= next,
                done == all_sources(patches@, noise_borders@, index as int),
                steps@ == done + patch_sources(
                    patches@,
                    noise_borders@,
                    index as int,
                    sb as int,
                ),
                first_source_error(steps@, input.filters, input.gains) is None,
            decreases width - sb,
        {
            if group + 1 < noise_borders.len() && noise_borders[group + 1] as usize == next {
                group = group + 1;
            }
            proof {
                bands::lemma_last_started_group(noise_borders@, next as int, group as int);
            }
            let step = HfSource { sb_high: next, source: start + sb, group };
            let ghost before = steps@;
            proof {
                lemma_sources_grow(patches@, noise_borders@, index as int, sb as int);
                assert(done + patch_sources(patches@, noise_borders@, index as int, sb + 1)
                    =~= before.push(step));
                assert(before.push(step).drop_last() =~= before);
                lemma_sources_prefix(
                    patches@,
                    noise_borders@,
                    index as int,
                    sb + 1,
                    count as int,
                );
            }
            match check_source(&step, input.filters, input.gains) {
                Ok(_) => {},
                Err(error) => {
                    proof {
                        lemma_error_of_longer(
                            before.push(step),
                            all_sources(patches@, noise_borders@, count as int),
                            input.filters,
                            input.gains,
                        );
                    }
                    return Err(error);
                },
            }
            steps.push(step);
            next = next + 1;
            sb = sb + 1;
        }
        index = index + 1;
    }
    Ok(steps)
}

proof fn lemma_width_bound(num_sb: Seq<u8>, count: int)
    requires
        0 <= count,
    ensures
        0 <= total_width(num_sb, count) <= 255 * count,
    decreases count,
{
    if count > 0 {
        lemma_width_bound(num_sb, count - 1);
    }
}

/// The generator writes consecutive subbands from the crossover on: patches
/// leave no gap and do not overlap.
pub proof fn lemma_written_subbands_are_consecutive(
    patches: PatchView,
    borders: Seq<u8>,
    count: int,
    k: int,
)
    requires
        0 <= count <= patches.num_sb.len() <= 5,
        0 <= k < all_sources(patches, borders, count).len(),
    ensures
        all_sources(patches, borders, count)[k].sb_high == patches.borders[0] + k,
        all_sources(patches, borders, count).len() == total_width(patches.num_sb, count),
        all_sources(patches, borders, count)[k].group == bands::started_groups(
            borders,
            patches.borders[0] + k,
        ) as usize,
    decreases count,
{
    if count > 0 {
        let shorter = all_sources(patches, borders, count - 1);
        lemma_source_count(patches, borders, count);
        lemma_source_count(patches, borders, count - 1);
        lemma_width_bound(patches.num_sb, count - 1);
        if k < shorter.len() {
            lemma_written_subbands_are_consecutive(patches, borders, count - 1, k);
        }
    }
}

proof fn lemma_source_count(patches: PatchView, borders: Seq<u8>, count: int)
    requires
        0 <= count,
    ensures
        all_sources(patches, borders, count).len() == total_width(patches.num_sb, count),
    decreases count,
{
    if count > 0 {
        lemma_source_count(patches, borders, count - 1);
    }
}

proof fn lemma_sound_sources(steps: Seq<HfSource>, filters: u8, gains: Option<u8>)
    requires
        forall|k: int|
            0 <= k < steps.len() ==> source_error(#[trigger] steps[k], filters, gains) is None,
    ensures
        first_source_error(steps, filters, gains) is None,
    decreases steps.len(),
{
    if steps.len() > 0 {
        let shorter = steps.drop_last();
        assert forall|k: int| 0 <= k < shorter.len() implies source_error(
            #[trigger] shorter[k],
            filters,
            gains,
        ) is None by {
            assert(shorter[k] == steps[k]);
        }
        lemma_sound_sources(shorter, filters, gains);
        assert(steps.last() == steps[steps.len() - 1]);
    }
}

proof fn lemma_source_range(
    bands: BandView,
    patches: PatchView,
    borders: Seq<u8>,
    count: int,
    k: int,
)
    requires
        patches::structured_patches(bands, patches),
        bands::structured(bands),
        0 <= count <= patches.num_sb.len() <= 5,
        0 <= k < all_sources(patches, borders, count).len(),
    ensures
        all_sources(patches, borders, count)[k].source < bands.sba(),
        patches.borders[count] == patches.borders[0] + total_width(patches.num_sb, count),
    decreases count,
{
    lemma_border_is_total(bands, patches, count);
    if count > 0 {
        let shorter = all_sources(patches, borders, count - 1);
        if k < shorter.len() {
            lemma_source_range(bands, patches, borders, count - 1, k);
        } else {
            assert(patches.num_sb[count - 1] > 0);
        }
    }
}

proof fn lemma_border_is_total(bands: BandView, patches: PatchView, count: int)
    requires
        patches::structured_patches(bands, patches),
        0 <= count <= patches.num_sb.len(),
    ensures
        patches.borders[count] == patches.borders[0] + total_width(patches.num_sb, count),
    decreases count,
{
    if count > 0 {
        lemma_border_is_total(bands, patches, count - 1);
        assert(patches.num_sb[count - 1] > 0);
    }
}

proof fn lemma_no_stuck_in_rising(borders: Seq<u8>, index: int)
    requires
        1 <= index,
        bands::strictly_increasing(borders),
    ensures
        first_stuck_border(borders, index) is None,
    decreases borders.len() - index,
{
    if index < borders.len() {
        assert(borders[index - 1] < borders[index]);
        lemma_no_stuck_in_rising(borders, index + 1);
    }
}

/// With tables of one legal configuration, filters for the subbands below the
/// master range and gains for those below the crossover, the plan exists for
/// every interval that fits, and every written subband lies in a noise group.
pub proof fn lemma_legal_tables_have_a_plan(
    bands: BandView,
    master_freq_scale: bool,
    base_samp_freq_48: bool,
    patches: PatchView,
    input: GenerationInput,
)
    requires
        bands.legal(),
        patches::derived_patches(bands, master_freq_scale, base_samp_freq_48) == Ok::<
            PatchView,
            PatchError,
        >(patches),
        input.first < input.last,
        input.out_slots == input.last - input.first,
        input.last + TS_OFFSET_HFADJ <= input.extended_slots,
        input.filters == bands.sba(),
        input.chirps == bands::group_count(bands.noise),
        input.gains matches Some(gains) ==> gains == bands.sbx(),
    ensures
        generation_plan(input, patches, bands.noise) is Ok,
        forall|k: int|
            0 <= k < generation_plan(input, patches, bands.noise)->Ok_0.len() ==> (
            #[trigger] generation_plan(input, patches, bands.noise)->Ok_0[k]).group
                < bands::group_count(bands.noise),
{
    bands::lemma_bands_are_structured(bands);
    patches::lemma_patches_are_structured(bands, master_freq_scale, base_samp_freq_48);
    let borders = bands.noise;
    let count = patches.num_sb.len() as int;
    let steps = all_sources(patches, borders, count);
    assert(bands::strictly_increasing(borders));
    lemma_no_stuck_in_rising(borders, 1);
    lemma_border_is_total(bands, patches, count);
    lemma_source_count(patches, borders, count);
    assert forall|k: int| 0 <= k < steps.len() implies source_error(
        #[trigger] steps[k],
        input.filters,
        input.gains,
    ) is None && steps[k].group < bands::group_count(borders) by {
        lemma_written_subbands_are_consecutive(patches, borders, count, k);
        lemma_source_range(bands, patches, borders, count, k);
        lemma_group_below_top(borders, patches.borders[0] + k);
    }
    lemma_sound_sources(steps, input.filters, input.gains);
}

/// Below the last border there is always a group left.
proof fn lemma_group_below_top(borders: Seq<u8>, subband: int)
    requires
        borders.len() >= 2,
        bands::strictly_increasing(borders),
        subband < borders.last(),
    ensures
        0 <= bands::started_groups(borders, subband) < borders.len() - 1,
{
    bands::lemma_started_groups_bound(borders.drop_last(), subband);
}

proof fn lemma_source_of_patch(
    patches: PatchView,
    borders: Seq<u8>,
    index: int,
    sb: int,
    count: int,
)
    requires
        0 <= index < count,
        0 <= sb < patches.num_sb[index],
    ensures
        total_width(patches.num_sb, index) + sb < total_width(patches.num_sb, count),
        all_sources(patches, borders, count)[total_width(patches.num_sb, index) + sb] == source_at(
            patches,
            borders,
            index,
            sb,
        ),
    decreases count,
{
    lemma_source_count(patches, borders, count - 1);
    lemma_width_bound(patches.num_sb, index);
    if index < count - 1 {
        lemma_source_of_patch(patches, borders, index, sb, count - 1);
    }
}

proof fn lemma_border_adds_widths(patches: PatchView, count: int)
    requires
        0 <= count <= patches.num_sb.len(),
        forall|i: int|
            0 <= i < patches.num_sb.len() ==> patches.borders[i + 1] == patches.borders[i]
                + #[trigger] patches.num_sb[i],
    ensures
        patches.borders[count] == patches.borders[0] + total_width(patches.num_sb, count),
    decreases count,
{
    if count > 0 {
        lemma_border_adds_widths(patches, count - 1);
        assert(patches.borders[count - 1 + 1] == patches.borders[count - 1] + patches.num_sb[count
            - 1]);
    }
}

/// Inside a patch the subband that is read advances with the subband that is
/// written: the plan has one entry for every subband between the crossover and
/// the last patch border, in their order, and the one that writes offset `sb` of
/// patch `index` reads offset `sb` of that patch's source. The entry names the
/// noise group whose borders enclose the written subband.
pub proof fn lemma_patches_are_copied_in_order(
    input: GenerationInput,
    patches: PatchView,
    borders: Seq<u8>,
    index: int,
    sb: int,
)
    requires
        patches.num_sb.len() <= 5,
        patches.borders.len() == patches.num_sb.len() + 1,
        forall|i: int|
            0 <= i < patches.num_sb.len() ==> patches.borders[i + 1] == patches.borders[i]
                + #[trigger] patches.num_sb[i],
        0 <= index < patches.num_sb.len(),
        0 <= sb < patches.num_sb[index],
    ensures
        generation_plan(input, patches, borders) matches Ok(steps) ==> {
            let k = patches.borders[index] + sb - patches.borders[0];
            &&& steps.len() == patches.borders.last() - patches.borders[0]
            &&& 0 <= k < steps.len()
            &&& steps[k].sb_high == patches.borders[index] + sb
            &&& steps[k].source == patches.start_sb[index] + sb
            &&& forall|group: int|
                0 <= group < borders.len() - 1 && #[trigger] borders[group]
                    <= patches.borders[index] + sb < borders[group + 1] ==> steps[k].group == group
            &&& patches.borders[index] + sb >= borders.last() ==> steps[k].group == borders.len()
                - 1
        },
{
    let count = patches.num_sb.len() as int;
    lemma_border_adds_widths(patches, index);
    lemma_border_adds_widths(patches, count);
    lemma_source_count(patches, borders, count);
    lemma_source_of_patch(patches, borders, index, sb, count);
    lemma_width_bound(patches.num_sb, index);
    if let Ok(steps) = generation_plan(input, patches, borders) {
        let written = patches.borders[index] + sb;
        lemma_rising(borders);
        assert forall|group: int|
            0 <= group < borders.len() - 1 && #[trigger] borders[group] <= written < borders[group
                + 1] implies steps[written - patches.borders[0]].group == group by {
            lemma_group_encloses(borders, written, group);
        }
        if written >= borders.last() {
            assert forall|i: int| 1 <= i <= borders.len() - 1 implies #[trigger] borders[i]
                <= written by {
                assert(i < borders.len() - 1 ==> borders[i] < borders[borders.len() - 1]);
            }
            bands::lemma_last_started_group(borders, written, borders.len() - 1);
        }
    }
}

proof fn lemma_group_encloses(borders: Seq<u8>, subband: int, group: int)
    requires
        bands::strictly_increasing(borders),
        0 <= group < borders.len() - 1,
        borders[group] <= subband < borders[group + 1],
    ensures
        bands::started_groups(borders, subband) == group,
{
    assert forall|i: int| 1 <= i <= group implies #[trigger] borders[i] <= subband by {
        assert(i < group ==> borders[i] < borders[group]);
    }
    assert forall|i: int| group < i < borders.len() implies #[trigger] borders[i] > subband by {
        assert(group + 1 < i ==> borders[group + 1] < borders[i]);
    }
    bands::lemma_last_started_group(borders, subband, group);
}

proof fn lemma_first_source_error(steps: Seq<HfSource>, filters: u8, gains: Option<u8>)
    ensures
        first_source_error(steps, filters, gains) is None <==> forall|k: int|
            0 <= k < steps.len() ==> {
                &&& (#[trigger] steps[k]).sb_high < 64
                &&& steps[k].source < filters
                &&& gains matches Some(count) ==> steps[k].source < count
            },
    decreases steps.len(),
{
    if steps.len() > 0 {
        let shorter = steps.drop_last();
        lemma_first_source_error(shorter, filters, gains);
        assert forall|k: int| 0 <= k < shorter.len() implies #[trigger] steps[k] == shorter[k] by {}
        assert forall|k: int| 0 <= k < shorter.len() implies #[trigger] shorter[k] == steps[k] by {}
        assert(steps.last() == steps[steps.len() - 1]);
    }
}

/// When there is a plan: the interval is not empty, the output has its length,
/// the low band reaches four timeslots behind it, there are one to five noise
/// groups with a chirp factor each and rising borders that start where the
/// patches start, no subband above the highest is written, and no subband is
/// read that lacks a filter or, where gains are given, a gain.
#[verifier::rlimit(40)]
pub proof fn lemma_when_there_is_a_plan(
    input: GenerationInput,
    patches: PatchView,
    borders: Seq<u8>,
)
    requires
        patches.num_sb.len() <= 5,
        patches.borders.len() == patches.num_sb.len() + 1,
        forall|i: int|
            0 <= i < patches.num_sb.len() ==> patches.borders[i + 1] == patches.borders[i]
                + #[trigger] patches.num_sb[i],
    ensures
        generation_plan(input, patches, borders) is Ok <==> {
            &&& input.first < input.last
            &&& input.first + input.out_slots == input.last
            &&& input.last + 4 <= input.extended_slots
            &&& 2 <= borders.len() <= 6
            &&& input.chirps + 1 == borders.len()
            &&& forall|i: int| 0 <= i < borders.len() - 1 ==> #[trigger] borders[i] < borders[i + 1]
            &&& borders[0] == patches.borders[0]
            &&& forall|i: int|
                0 <= i < patches.num_sb.len() && #[trigger] patches.num_sb[i] > 0 ==> {
                    let top = patches.start_sb[i] + patches.num_sb[i];
                    &&& patches.borders[i + 1] <= 64
                    &&& top <= input.filters
                    &&& input.gains matches Some(gains) ==> top <= gains
                }
        },
{
    let count = patches.num_sb.len() as int;
    let steps = all_sources(patches, borders, count);
    lemma_border_adds_widths(patches, count);
    lemma_source_count(patches, borders, count);
    lemma_first_source_error(steps, input.filters, input.gains);
    if first_stuck_border(borders, 1) is None {
        lemma_rising(borders);
        assert forall|i: int| 0 <= i < borders.len() - 1 implies #[trigger] borders[i] < borders[i
            + 1] by {}
    } else if forall|i: int| 0 <= i < borders.len() - 1 ==> #[trigger] borders[i] < borders[i + 1] {
        lemma_no_stuck_between_neighbours(borders, 1);
    }
    if first_source_error(steps, input.filters, input.gains) is None {
        assert forall|i: int|
            0 <= i < patches.num_sb.len() && #[trigger] patches.num_sb[i] > 0 implies {
            let top = patches.start_sb[i] + patches.num_sb[i];
            &&& patches.borders[i + 1] <= 64
            &&& top <= input.filters
            &&& input.gains matches Some(gains) ==> top <= gains
        } by {
            let sb = patches.num_sb[i] - 1;
            let k = total_width(patches.num_sb, i) + sb;
            lemma_source_of_patch(patches, borders, i, sb, count);
            lemma_width_bound(patches.num_sb, i);
            lemma_border_adds_widths(patches, i);
            assert(steps[k] == source_at(patches, borders, i, sb));
        }
    }
    if forall|i: int|
        0 <= i < patches.num_sb.len() && #[trigger] patches.num_sb[i] > 0 ==> {
            let top = patches.start_sb[i] + patches.num_sb[i];
            &&& patches.borders[i + 1] <= 64
            &&& top <= input.filters
            &&& input.gains matches Some(gains) ==> top <= gains
        } {
        assert forall|k: int| 0 <= k < steps.len() implies {
            &&& (#[trigger] steps[k]).sb_high < 64
            &&& steps[k].source < input.filters
            &&& input.gains matches Some(gains) ==> steps[k].source < gains
        } by {
            let (i, sb) = lemma_patch_of_source(patches, borders, count, k);
            lemma_width_bound(patches.num_sb, i);
            lemma_border_adds_widths(patches, i);
            assert(patches.num_sb[i] > 0);
        }
    }
}

proof fn lemma_no_stuck_between_neighbours(borders: Seq<u8>, index: int)
    requires
        1 <= index,
        forall|i: int| 0 <= i < borders.len() - 1 ==> #[trigger] borders[i] < borders[i + 1],
    ensures
        first_stuck_border(borders, index) is None,
    decreases borders.len() - index,
{
    if index < borders.len() {
        assert(borders[index - 1] < borders[index - 1 + 1]);
        lemma_no_stuck_between_neighbours(borders, index + 1);
    }
}

/// The patch and the offset inside it that entry `k` belongs to.
proof fn lemma_patch_of_source(
    patches: PatchView,
    borders: Seq<u8>,
    count: int,
    k: int,
) -> (found: (int, int))
    requires
        0 <= count,
        0 <= k < all_sources(patches, borders, count).len(),
    ensures
        0 <= found.0 < count,
        0 <= found.1 < patches.num_sb[found.0],
        k == total_width(patches.num_sb, found.0) + found.1,
        all_sources(patches, borders, count)[k] == source_at(patches, borders, found.0, found.1),
    decreases count,
{
    let shorter = all_sources(patches, borders, count - 1);
    lemma_source_count(patches, borders, count - 1);
    if k < shorter.len() {
        lemma_patch_of_source(patches, borders, count - 1, k)
    } else {
        (count - 1, k - shorter.len())
    }
}

proof fn lemma_source_error_is_first(steps: Seq<HfSource>, filters: u8, gains: Option<u8>)
    ensures
        first_source_error(steps, filters, gains) matches Some(error) ==> exists|k: int|
            0 <= k < steps.len() && source_error(#[trigger] steps[k], filters, gains) == Some(error)
                && (forall|j: int|
                0 <= j < k ==> source_error(#[trigger] steps[j], filters, gains) is None),
        first_source_error(steps, filters, gains) is None ==> forall|k: int|
            0 <= k < steps.len() ==> source_error(#[trigger] steps[k], filters, gains) is None,
    decreases steps.len(),
{
    if steps.len() > 0 {
        let shorter = steps.drop_last();
        let last = steps.len() - 1;
        lemma_source_error_is_first(shorter, filters, gains);
        assert forall|k: int| 0 <= k < last implies #[trigger] steps[k] == shorter[k] by {}
        if let Some(error) = first_source_error(shorter, filters, gains) {
            let k = choose|k: int|
                0 <= k < shorter.len() && source_error(#[trigger] shorter[k], filters, gains)
                    == Some(error) && (forall|j: int|
                    0 <= j < k ==> source_error(#[trigger] shorter[j], filters, gains) is None);
            assert(source_error(steps[k], filters, gains) == Some(error));
            assert forall|j: int| 0 <= j < k implies source_error(
                #[trigger] steps[j],
                filters,
                gains,
            ) is None by {
                assert(shorter[j] == steps[j]);
            }
        } else {
            assert forall|j: int| 0 <= j < last implies source_error(
                #[trigger] steps[j],
                filters,
                gains,
            ) is None by {
                assert(shorter[j] == steps[j]);
            }
            assert(steps.last() == steps[last]);
        }
    }
}

/// Why there is no plan: the interval is empty, the output has another length,
/// the low band is too short, there are too few or too many noise groups, another
/// number of chirp factors, noise borders that do not rise or start elsewhere
/// than the patches, or a subband that cannot be written or read. The errors are
/// found in this order and give the values at fault.
#[verifier::rlimit(40)]
pub proof fn lemma_why_there_is_no_plan(
    input: GenerationInput,
    patches: PatchView,
    borders: Seq<u8>,
)
    requires
        borders.len() <= 256,
    ensures
        ({
            let timed = input.first < input.last && input.first + input.out_slots == input.last
                && input.last + 4 <= input.extended_slots;
            let grouped = timed && 2 <= borders.len() <= 6 && input.chirps + 1 == borders.len();
            match generation_plan(input, patches, borders) {
                Ok(_) => grouped && borders[0] == patches.borders[0],
                Err(HfGenError::EmptyInterval { first, last }) => input.first >= input.last && first
                    == input.first && last == input.last,
                Err(HfGenError::OutputLengthMismatch { expected, provided }) => input.first
                    < input.last && input.first + expected == input.last && provided
                    == input.out_slots && provided != expected,
                Err(HfGenError::IntervalOutOfRange { last, available }) => input.first < input.last
                    && input.first + input.out_slots == input.last && last == input.last
                    && available == input.extended_slots && last + 4 > available,
                Err(HfGenError::NoiseGroupCountOutOfRange { groups }) => timed && if borders.len()
                    == 0 {
                    groups == 0
                } else {
                    groups == borders.len() - 1 && (groups == 0 || groups > 5)
                },
                Err(HfGenError::ChirpCountMismatch { groups, provided }) => timed && 2
                    <= borders.len() <= 6 && groups == borders.len() - 1 && provided == input.chirps
                    && provided != groups,
                Err(HfGenError::NoiseBordersNotIncreasing { index, previous, current }) => grouped
                    && 1 <= index < borders.len() && previous == borders[index - 1] && current
                    == borders[index as int] && previous >= current,
                Err(HfGenError::CrossoverMismatch { patches: start, noise }) => grouped && start
                    == patches.borders[0] && noise == borders[0] && start != noise,
                Err(HfGenError::SubbandOutOfRange { sb_high }) => grouped && borders[0]
                    == patches.borders[0] && sb_high >= 64,
                Err(HfGenError::SourceWithoutFilter { source, filters }) => grouped && borders[0]
                    == patches.borders[0] && filters == input.filters && source >= filters,
                Err(HfGenError::MissingGain { source }) => grouped && borders[0]
                    == patches.borders[0] && input.gains is Some && source >= input.gains->0,
                Err(_) => false,
            }
        }),
{
    let steps = all_sources(patches, borders, patches.num_sb.len() as int);
    lemma_source_error_is_first(steps, input.filters, input.gains);
    lemma_stuck_border_is_named(borders, 1);
}

proof fn lemma_stuck_border_is_named(borders: Seq<u8>, index: int)
    requires
        1 <= index,
        borders.len() <= 256,
    ensures
        match first_stuck_border(borders, index) {
            None => true,
            Some(HfGenError::NoiseBordersNotIncreasing { index: found, previous, current }) => {
                &&& index <= found < borders.len()
                &&& previous == borders[found - 1]
                &&& current == borders[found as int]
                &&& previous >= current
            },
            Some(_) => false,
        },
    decreases borders.len() - index,
{
    if index < borders.len() {
        lemma_stuck_border_is_named(borders, index + 1);
    }
}

} // verus!
