//! Indexing of the 64-band complex filter bank.
//!
//! The analysis keeps a line of the newest 640 samples, newest first; the
//! synthesis keeps a line of 1280 values, of which every second run of 64 is
//! used. Phases are multiples of a full turn divided by 512, so that a phase is
//! an index into a table of the unit circle.
use vstd::prelude::*;

verus! {

/// Number of subbands, and of samples in a timeslot.
pub const SUBBANDS: usize = 64;

/// Taps of the prototype window.
pub const NUM_QMF_WIN_COEF: usize = 640;

/// Length of a folded block.
pub const FOLDED: usize = 128;

/// Length of the synthesis line.
pub const SYNTH_STATE: usize = 1280;

/// Points of the unit circle.
pub const MODULATION_POINTS: u32 = 512;

/// Why the filter bank cannot run.
#[derive(Debug, Clone, Copy, PartialEq, Eq)]
pub enum QmfError {
    /// The number of samples is not a multiple of the number of subbands.
    UnalignedInput {
        /// Number of samples.
        samples: usize,
    },
    /// There is not one timeslot for each block of samples.
    SlotCountMismatch {
        /// Number of blocks.
        expected: usize,
        /// Number of timeslots.
        provided: usize,
    },
}

/// Number of timeslots of a run of samples, or why it cannot be processed.
pub open spec fn processed_timeslots(samples: usize, slots: usize) -> Result<usize, QmfError> {
    if samples % 64 != 0 {
        Err(QmfError::UnalignedInput { samples })
    } else if slots != samples / 64 {
        Err(QmfError::SlotCountMismatch { expected: samples / 64, provided: slots })
    } else {
        Ok(slots)
    }
}

/// Number of timeslots of a run of samples, where there are as many slots.
pub fn check_lengths(samples: usize, slots: usize) -> (result: Result<usize, QmfError>)
    ensures
        result == processed_timeslots(samples, slots),
{
    if samples % SUBBANDS != 0 {
        return Err(QmfError::UnalignedInput { samples });
    }
    let timeslots: usize = samples / SUBBANDS;
    if slots != timeslots {
        return Err(QmfError::SlotCountMismatch { expected: timeslots, provided: slots });
    }
    Ok(timeslots)
}

/// A line after one more block: the block comes first, its newest sample in
/// front, and the oldest samples drop out.
pub open spec fn fed<T>(line: Seq<T>, block: Seq<T>) -> Seq<T> {
    Seq::new(
        line.len(),
        |i: int|
            if i < block.len() {
                block[block.len() - 1 - i]
            } else {
                line[i - block.len()]
            },
    )
}

/// Feeds one block of samples, oldest first, into the analysis line.
pub fn feed_analysis<T: Copy>(line: &mut [T; NUM_QMF_WIN_COEF], block: &[T])
    requires
        block@.len() == SUBBANDS,
    ensures
        final(line)@ == fed(old(line)@, block@),
{
    let ghost before = line@;
    let mut index: usize = NUM_QMF_WIN_COEF;
    while index > SUBBANDS
        invariant
            SUBBANDS <= index <= NUM_QMF_WIN_COEF,
            line@.len() == before.len() == NUM_QMF_WIN_COEF,
            forall|i: int| 0 <= i < index ==> #[trigger] line@[i] == before[i],
            forall|i: int|
                index <= i < NUM_QMF_WIN_COEF ==> #[trigger] line@[i] == before[i - SUBBANDS],
        decreases index,
    {
        index = index - 1;
        line[index] = line[index - SUBBANDS];
    }
    let mut sb: usize = 0;
    while sb < SUBBANDS
        invariant
            sb <= SUBBANDS,
            block@.len() == SUBBANDS,
            line@.len() == before.len() == NUM_QMF_WIN_COEF,
            forall|i: int|
                SUBBANDS - sb <= i < SUBBANDS ==> #[trigger] line@[i] == block@[SUBBANDS - 1 - i],
            forall|i: int|
                SUBBANDS <= i < NUM_QMF_WIN_COEF ==> #[trigger] line@[i] == before[i - SUBBANDS],
        decreases SUBBANDS - sb,
    {
        line[SUBBANDS - 1 - sb] = block[sb];
        sb = sb + 1;
    }
    assert(line@ =~= fed(before, block@));
}

/// A line moved on by one folded block, whose place is left as it was.
pub open spec fn moved_on<T>(line: Seq<T>) -> Seq<T> {
    Seq::new(
        line.len(),
        |i: int|
            if i < FOLDED {
                line[i]
            } else {
                line[i - FOLDED]
            },
    )
}

/// Moves the synthesis line on by one folded block, whose place is left as it
/// was.
pub fn advance_synthesis<T: Copy>(line: &mut [T; SYNTH_STATE])
    ensures
        final(line)@ == moved_on(old(line)@),
{
    let ghost before = line@;
    let mut index: usize = SYNTH_STATE;
    while index > FOLDED
        invariant
            FOLDED <= index <= SYNTH_STATE,
            line@.len() == before.len() == SYNTH_STATE,
            forall|i: int| 0 <= i < index ==> #[trigger] line@[i] == before[i],
            forall|i: int| index <= i < SYNTH_STATE ==> #[trigger] line@[i] == before[i - FOLDED],
        decreases index,
    {
        index = index - 1;
        line[index] = line[index - FOLDED];
    }
    assert(line@ =~= moved_on(before));
}

/// Where the synthesis line holds what tap `64 * run + sb` of the window is
/// applied to.
pub open spec fn tap_place(run: int, sb: int) -> int {
    256 * (run / 2) + 192 * (run % 2) + sb
}

/// Where the synthesis line holds what tap `64 * run + sb` of the window is
/// applied to: of every four runs of 64 the first and the last are used.
pub fn synthesis_tap(run: usize, sb: usize) -> (index: usize)
    requires
        run < 10,
        sb < SUBBANDS,
    ensures
        index == tap_place(run as int, sb as int),
        index < SYNTH_STATE,
{
    256 * (run / 2) + 192 * (run % 2) + sb
}

/// The phase `(2 * sb + 1) * m`, in points of the unit circle.
pub open spec fn phase(sb: int, m: int) -> int {
    ((2 * sb + 1) * m) % 512
}

/// The point of the unit circle that subband `sb` is modulated with at the odd
/// half step `m`.
pub fn modulation(sb: usize, m: i32) -> (point: usize)
    requires
        sb < SUBBANDS,
        -255 <= m <= 255,
    ensures
        point == phase(sb as int, m as int),
        point < MODULATION_POINTS,
{
    let turns: i32 = 2 * (sb as i32) + 1;
    assert(-32385 <= turns * m <= 32385) by (nonlinear_arith)
        requires
            1 <= turns <= 127,
            -255 <= m <= 255,
    ;
    let lifted: u32 = (turns * m + 32768) as u32;
    (lifted % MODULATION_POINTS) as usize
}

/// The half step of analysis row `n`.
pub open spec fn analysis_step(n: int) -> int {
    2 * n - 1
}

/// The half step of synthesis row `n`.
pub open spec fn synthesis_step(n: int) -> int {
    2 * n - 255
}

/// Synthesis rows come in pairs: the phases of rows `n` and `127 - n` are the
/// phase of one root turned by half a turn, and its negative. Both rows follow
/// from one table entry.
pub proof fn lemma_synthesis_rows_pair_up(sb: int, n: int)
    requires
        0 <= sb < 64,
        0 <= n < 64,
    ensures
        phase(sb, synthesis_step(n)) == (phase(sb, 2 * n + 1) + 256) % 512,
        phase(sb, synthesis_step(127 - n)) == (512 - phase(sb, 2 * n + 1)) % 512,
{
    let root = (2 * sb + 1) * (2 * n + 1);
    assert((2 * sb + 1) * (2 * n - 255) == root - 512 * sb - 256) by (nonlinear_arith)
        requires
            root == (2 * sb + 1) * (2 * n + 1),
    ;
    assert((2 * sb + 1) * (2 * (127 - n) - 255) == -root) by (nonlinear_arith)
        requires
            root == (2 * sb + 1) * (2 * n + 1),
    ;
}

proof fn lemma_odd_step(sb: int, half: int)
    ensures
        phase(sb, 2 * half + 1) % 2 == 1,
{
    let product = (2 * sb + 1) * (2 * half + 1);
    assert(product == 2 * (2 * sb * half + sb + half) + 1) by (nonlinear_arith)
        requires
            product == (2 * sb + 1) * (2 * half + 1),
    ;
    assert((product % 512) % 2 == product % 2);
}

/// The phases of all rows are odd points of the circle.
pub proof fn lemma_phases_are_odd(sb: int, n: int)
    ensures
        phase(sb, analysis_step(n)) % 2 == 1,
        phase(sb, synthesis_step(n)) % 2 == 1,
{
    lemma_odd_step(sb, n - 1);
    lemma_odd_step(sb, n - 128);
}

/// A line that was fed blocks one after the other holds the newest samples,
/// newest first, as one that was fed all of them at once: it does not matter
/// how samples are split over calls.
pub proof fn lemma_feeding_in_parts<T>(line: Seq<T>, first: Seq<T>, second: Seq<T>)
    requires
        first.len() + second.len() <= line.len(),
    ensures
        fed(fed(line, first), second) == fed(line, first + second),
{
    assert(fed(fed(line, first), second) =~= fed(line, first + second));
}

/// A line after a block: the newest sample of the block comes first, the block
/// runs backwards, and behind it stands what was at the front before.
pub proof fn lemma_newest_samples_come_first<T>(line: Seq<T>, block: Seq<T>, age: int)
    requires
        block.len() <= line.len(),
        0 <= age < line.len(),
    ensures
        fed(line, block).len() == line.len(),
        age < block.len() ==> fed(line, block)[age] == block[block.len() - 1 - age],
        age >= block.len() ==> fed(line, block)[age] == line[age - block.len()],
{
}

/// A phase advances by its odd multiple of the step: one step further turns
/// subband `sb` by `2 * sb + 1` points, and 512 steps are whole turns.
pub proof fn lemma_phase_advances(sb: int, m: int)
    ensures
        phase(sb, 0) == 0,
        phase(sb, m + 1) == (phase(sb, m) + 2 * sb + 1) % 512,
        phase(sb, m + 512) == phase(sb, m),
        phase(0, m) == m % 512,
{
    let turn = 2 * sb + 1;
    assert(turn * (m + 1) == turn * m + turn) by (nonlinear_arith);
    assert(turn * (m + 512) == turn * m + 512 * turn) by (nonlinear_arith);
    assert(turn * 0 == 0) by (nonlinear_arith);
    assert((2 * 0 + 1) * m == m) by (nonlinear_arith);
}

/// Rows of the analysis and of the synthesis are one odd step of two apart; the
/// analysis starts one half step before the middle and the synthesis 255.
pub proof fn lemma_rows_are_two_half_steps_apart(n: int)
    ensures
        analysis_step(0) == -1,
        synthesis_step(0) == -255,
        analysis_step(n + 1) == analysis_step(n) + 2,
        synthesis_step(n + 1) == synthesis_step(n) + 2,
{
}

/// Which runs of samples are processed: whole timeslots of 64 samples, with a
/// slot for each.
pub proof fn lemma_which_runs_are_processed(samples: usize, slots: usize)
    ensures
        match processed_timeslots(samples, slots) {
            Ok(count) => count == slots && 64 * slots == samples,
            Err(QmfError::UnalignedInput { samples: given }) => given == samples && samples % 64
                != 0,
            Err(QmfError::SlotCountMismatch { expected, provided }) => 64 * expected == samples
                && provided == slots && provided != expected,
        },
{
}

/// A line that moves on keeps its order: what was at a place is one folded block
/// further on.
pub proof fn lemma_the_line_moves_by_a_block<T>(line: Seq<T>, place: int)
    requires
        0 <= place,
    ensures
        moved_on(line).len() == line.len(),
        place + 128 < line.len() ==> moved_on(line)[place + 128] == line[place],
        place < 128 && place < line.len() ==> moved_on(line)[place] == line[place],
{
}

/// The taps of a run stand side by side, in the order of the subbands. The first
/// run starts the line, the second follows three runs later, and every second
/// run is two folded blocks further on.
pub proof fn lemma_taps_stand_in_runs(run: int, sb: int)
    requires
        0 <= run,
    ensures
        tap_place(0, sb) == sb,
        tap_place(1, sb) == 3 * 64 + sb,
        tap_place(run + 2, sb) == tap_place(run, sb) + 2 * 128,
        tap_place(run, sb + 1) == tap_place(run, sb) + 1,
{
}

} // verus!
