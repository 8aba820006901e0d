//! Checks for the pre-flattening gains.
//!
//! A cubic is fitted to the spectral envelope of the low band, so that at least
//! four subbands are needed.
use vstd::prelude::*;
use crate::qmf::SUBBANDS;

verus! {

/// Order of the fitted polynomial.
pub const ORDER: usize = 3;

/// Why the gains cannot be computed.
#[derive(Debug, Clone, Copy, PartialEq, Eq)]
pub enum PreFlattenError {
    /// There are too few or too many subbands below the crossover.
    UnsupportedCrossover {
        /// Crossover subband.
        sbx: usize,
    },
    /// The interval is empty or reversed.
    EmptyInterval {
        /// First timeslot.
        first: usize,
        /// Timeslot after the last one.
        last: usize,
    },
    /// The interval passes the end of the low band.
    IntervalTooShort {
        /// Timeslots that are needed.
        needed: usize,
        /// Timeslots of the low band.
        provided: usize,
    },
    /// The fit broke down.
    FitFailed {
        /// Index of the pivot.
        pivot: usize,
    },
    /// A gain is not a positive number.
    NonFiniteGain {
        /// Subband.
        subband: usize,
    },
}

/// The number of timeslots that are averaged, or why the range is refused.
pub open spec fn averaged_timeslots(
    sbx: usize,
    first: usize,
    last: usize,
    provided: usize,
) -> Result<usize, PreFlattenError> {
    if sbx < 4 || sbx > 64 {
        Err(PreFlattenError::UnsupportedCrossover { sbx })
    } else if last <= first {
        Err(PreFlattenError::EmptyInterval { first, last })
    } else if last > provided {
        Err(PreFlattenError::IntervalTooShort { needed: last, provided })
    } else {
        Ok((last - first) as usize)
    }
}

/// Checks the range that is flattened, and gives the number of timeslots that
/// are averaged.
pub fn check_range(sbx: usize, first: usize, last: usize, provided: usize) -> (result: Result<
    usize,
    PreFlattenError,
>)
    ensures
        result == averaged_timeslots(sbx, first, last, provided),
{
    if sbx <= ORDER || sbx > SUBBANDS {
        return Err(PreFlattenError::UnsupportedCrossover { sbx });
    }
    if last <= first {
        return Err(PreFlattenError::EmptyInterval { first, last });
    }
    if last > provided {
        return Err(PreFlattenError::IntervalTooShort { needed: last, provided });
    }
    Ok(last - first)
}

/// Which ranges are flattened: those below a crossover of four to all subbands,
/// over an interval that is not empty and lies inside the low band. All its
/// timeslots are averaged. The other ranges are refused for the first of these
/// that fails.
pub proof fn lemma_which_ranges_are_flattened(
    sbx: usize,
    first: usize,
    last: usize,
    provided: usize,
)
    ensures
        match averaged_timeslots(sbx, first, last, provided) {
            Ok(count) => 4 <= sbx <= 64 && first < last <= provided && first + count == last,
            Err(PreFlattenError::UnsupportedCrossover { sbx: given }) => !(4 <= sbx <= 64) && given
                == sbx,
            Err(PreFlattenError::EmptyInterval { first: from, last: to }) => 4 <= sbx <= 64 && first
                >= last && from == first && to == last,
            Err(PreFlattenError::IntervalTooShort { needed, provided: given }) => 4 <= sbx <= 64
                && first < last && needed == last && given == provided && needed > given,
            Err(_) => false,
        },
{
}

} // verus!
