//! High-frequency patch table.
//!
//! A patch copies a run of low-band subbands into the range above the
//! crossover. The table lists, for every patch, how many subbands it holds, at
//! which low-band subband its source starts, and where its borders lie in the
//! extended range.
use vstd::prelude::*;
use crate::bands::{self, same_bytes, AspxBandTables, BandError, BandView};
use crate::tables;

verus! {

/// Largest number of patches.
pub const MAX_SBG_PATCHES: usize = 5;

/// Storage for the borders of the patches.
const PATCH_BORDERS: usize = 6;

/// Why no patch table could be derived.
#[derive(Debug, Clone, Copy, PartialEq, Eq, Structural)]
pub enum PatchError {
    /// No master border is low enough for a patch to end at.
    SourceExhausted {
        /// Lowest master border.
        sba: u8,
        /// Number of lowest subbands that are never copied.
        source_band_low: u8,
    },
    /// More patches would be needed than a table can hold.
    TooManyPatches {
        /// Largest number of patches.
        limit: u8,
    },
    /// The search did not reach the top of the range within its budget.
    LoopStuck {
        /// Number of master groups.
        num_sbg_master: u8,
    },
}

/// Contents of a patch table.
#[verifier::ext_equal]
pub struct PatchView {
    /// Number of subbands of each patch.
    pub num_sb: Seq<u8>,
    /// First source subband of each patch.
    pub start_sb: Seq<u8>,
    /// Patch borders, one more than there are patches.
    pub borders: Seq<u8>,
}

/// `a + b`, held at the largest byte.
pub open spec fn saturating_sum(a: u8, b: u8) -> u8 {
    if a + b > 255 {
        255
    } else {
        (a + b) as u8
    }
}

/// The border after the first `index` patches: `sbx` plus their widths.
pub open spec fn patch_border(num_sb: Seq<u8>, sbx: u8, index: int) -> u8
    decreases index,
{
    if index <= 0 {
        sbx
    } else {
        saturating_sum(patch_border(num_sb, sbx, index - 1), num_sb[index - 1])
    }
}

/// The table of patches with the given widths and sources, starting at `sbx`.
pub open spec fn patch_view(num_sb: Seq<u8>, start_sb: Seq<u8>, sbx: u8) -> PatchView {
    PatchView {
        num_sb,
        start_sb,
        borders: Seq::new(num_sb.len() + 1, |i: int| patch_border(num_sb, sbx, i)),
    }
}

/// The `index`-th master border, or the top of the range past the end.
pub open spec fn master_or_top(bands: BandView, index: int) -> int {
    if 0 <= index < bands.master.len() {
        bands.master[index] as int
    } else {
        bands.sbz() as int
    }
}

/// The subband at which the search for patches first aims.
pub open spec fn goal_subband(base_samp_freq_48: bool) -> int {
    if base_samp_freq_48 {
        43
    } else {
        46
    }
}

/// Number of lowest subbands that are never copied.
pub open spec fn source_band_low(master_freq_scale: bool) -> int {
    if master_freq_scale {
        4
    } else {
        2
    }
}

/// One when a patch ending at `sb` must start one subband lower to keep the
/// parity of its source.
pub open spec fn parity(bands: BandView, sb: int) -> int {
    (sb - 2 + bands.sba()) % 2
}

/// Whether a patch may end at the `index`-th master border when the previous
/// one ended at `msb`.
pub open spec fn reachable(bands: BandView, low: int, msb: int, index: int) -> bool {
    let sb = master_or_top(bands, index);
    sb <= bands.sba() - low + msb - parity(bands, sb)
}

/// The largest index up to `from` at which a patch may end.
pub open spec fn highest_reachable(bands: BandView, low: int, msb: int, from: int) -> Option<int>
    decreases from,
{
    if reachable(bands, low, msb, from) {
        Some(from)
    } else if from <= 0 {
        None
    } else {
        highest_reachable(bands, low, msb, from - 1)
    }
}

/// The first index from `index` on whose border is not below `goal`.
pub open spec fn first_not_below(bands: BandView, goal: int, index: int) -> int
    decreases bands::group_count(bands.master) + 1 - index,
{
    if index <= bands::group_count(bands.master) && master_or_top(bands, index) < goal {
        first_not_below(bands, goal, index + 1)
    } else {
        index
    }
}

/// State of the search for patches.
#[verifier::ext_equal]
pub struct PatchSearch {
    /// Index of the highest master border that the next patch may end at.
    pub sbg: int,
    /// Subband that limits how far the next patch reaches.
    pub msb: int,
    /// Subband at which the next patch begins.
    pub usb: int,
    /// Widths of the patches found.
    pub num_sb: Seq<u8>,
    /// First source subbands of the patches found.
    pub start_sb: Seq<u8>,
}

/// The search before any patch is found.
pub open spec fn search_start(bands: BandView, base_samp_freq_48: bool) -> PatchSearch {
    let goal = goal_subband(base_samp_freq_48);
    PatchSearch {
        sbg: if goal < bands.sbz() {
            first_not_below(bands, goal, 0)
        } else {
            bands::group_count(bands.master)
        },
        msb: bands.sba() as int,
        usb: bands.sbx() as int,
        num_sb: Seq::empty(),
        start_sb: Seq::empty(),
    }
}

/// The search after one more round that ended at the border with index `end`.
pub open spec fn search_step(bands: BandView, search: PatchSearch, end: int) -> PatchSearch {
    let sb = master_or_top(bands, end);
    let width = sb - search.usb;
    let sbg = if master_or_top(bands, search.sbg) - sb < 3 {
        bands::group_count(bands.master)
    } else {
        search.sbg
    };
    if width > 0 {
        PatchSearch {
            sbg,
            msb: sb,
            usb: sb,
            num_sb: search.num_sb.push(width as u8),
            start_sb: search.start_sb.push((bands.sba() - parity(bands, sb) - width) as u8),
        }
    } else {
        PatchSearch { sbg, msb: bands.sbx() as int, ..search }
    }
}

/// Runs the search to the top of the range, with at most `budget` further
/// rounds.
pub open spec fn search_patches(
    bands: BandView,
    low: int,
    search: PatchSearch,
    budget: int,
) -> Result<PatchSearch, PatchError>
    decreases budget,
{
    match highest_reachable(bands, low, search.msb, search.sbg) {
        None => Err(PatchError::SourceExhausted { sba: bands.sba(), source_band_low: low as u8 }),
        Some(end) => {
            let sb = master_or_top(bands, end);
            let next = search_step(bands, search, end);
            if sb > search.usb && search.num_sb.len() >= MAX_SBG_PATCHES {
                Err(PatchError::TooManyPatches { limit: MAX_SBG_PATCHES as u8 })
            } else if sb == bands.sbz() {
                Ok(next)
            } else if budget <= 0 {
                Err(
                    PatchError::LoopStuck {
                        num_sbg_master: bands::group_count(bands.master) as u8,
                    },
                )
            } else {
                search_patches(bands, low, next, budget - 1)
            }
        },
    }
}

/// Number of patches kept: a last patch of fewer than three subbands is dropped
/// unless it is the only one.
pub open spec fn kept_patches(num_sb: Seq<u8>) -> int {
    if num_sb.len() > 1 && num_sb.last() < 3 {
        num_sb.len() - 1
    } else {
        num_sb.len() as int
    }
}

/// The number of rounds after the first that the search may take.
pub open spec fn search_budget(bands: BandView) -> int {
    2 * (bands::group_count(bands.master) + MAX_SBG_PATCHES) + 4
}

/// The patch table of a set of subband-group tables, or why there is none.
pub open spec fn derived_patches(
    bands: BandView,
    master_freq_scale: bool,
    base_samp_freq_48: bool,
) -> Result<PatchView, PatchError> {
    match search_patches(
        bands,
        source_band_low(master_freq_scale),
        search_start(bands, base_samp_freq_48),
        search_budget(bands),
    ) {
        Ok(found) => {
            let count = kept_patches(found.num_sb);
            Ok(patch_view(found.num_sb.take(count), found.start_sb.take(count), bands.sbx()))
        },
        Err(error) => Err(error),
    }
}

/// Patches that fill the range above the crossover.
#[derive(Debug, Clone, Copy, PartialEq, Eq)]
pub struct PatchTable {
    num_sb: [u8; MAX_SBG_PATCHES],
    start_sb: [u8; MAX_SBG_PATCHES],
    borders: [u8; PATCH_BORDERS],
    count: u8,
}

impl View for PatchTable {
    type V = PatchView;

    closed spec fn view(&self) -> PatchView {
        PatchView {
            num_sb: self.num_sb@.take(self.count as int),
            start_sb: self.start_sb@.take(self.count as int),
            borders: self.borders@.take(self.count + 1),
        }
    }
}

/// The `index`-th master border, or the top of the range past the end.
fn border_or_top(tables: &AspxBandTables, index: usize) -> (border: i32)
    ensures
        border == master_or_top(tables@, index as int),
{
    match tables.master_border(index) {
        Some(border) => border as i32,
        None => tables.sbz() as i32,
    }
}

/// One when a patch ending at `sb` must start one subband lower.
fn odd_offset(sb: i32, sba: u8) -> (odd: i32)
    requires
        0 <= sb <= 255,
    ensures
        odd == (sb - 2 + sba) % 2,
        0 <= odd <= 1,
{
    (sb + sba as i32) % 2
}

/// Index of the first master border that is not below `goal`.
fn find_goal(tables: &AspxBandTables, goal: i32, num_master: usize) -> (index: usize)
    requires
        goal < tables@.sbz(),
        num_master == bands::group_count(tables@.master),
        tables@.valid(),
    ensures
        index == first_not_below(tables@, goal as int, 0),
        index <= num_master,
{
    let mut index: usize = 0;
    while index <= num_master && border_or_top(tables, index) < goal
        invariant
            goal < tables@.sbz(),
            num_master == bands::group_count(tables@.master),
            num_master == 0 || num_master == tables@.master.len() - 1,
            index <= num_master,
            first_not_below(tables@, goal as int, 0) == first_not_below(
                tables@,
                goal as int,
                index as int,
            ),
        decreases num_master + 1 - index,
    {
        assert(index == num_master ==> master_or_top(tables@, index as int) == tables@.sbz());
        index = index + 1;
    }
    index
}

/// The largest index up to `from` at which a patch may end.
fn find_end(tables: &AspxBandTables, low: i32, msb: i32, from: usize) -> (end: Option<usize>)
    requires
        2 <= low <= 4,
        0 <= msb <= 255,
    ensures
        match end {
            Some(end) => {
                &&& highest_reachable(tables@, low as int, msb as int, from as int) == Some(
                    end as int,
                )
                &&& end <= from
                &&& reachable(tables@, low as int, msb as int, end as int)
            },
            None => highest_reachable(tables@, low as int, msb as int, from as int) is None,
        },
{
    let sba: u8 = tables.sba();
    let mut j: usize = from;
    loop
        invariant
            2 <= low <= 4,
            0 <= msb <= 255,
            sba == tables@.sba(),
            j <= from,
            highest_reachable(tables@, low as int, msb as int, from as int) == highest_reachable(
                tables@,
                low as int,
                msb as int,
                j as int,
            ),
        decreases j,
    {
        let sb: i32 = border_or_top(tables, j);
        if sb <= sba as i32 - low + msb - odd_offset(sb, sba) {
            return Some(j);
        }
        if j == 0 {
            return None;
        }
        j = j - 1;
    }
}

/// Bounds that every step of the search keeps.
spec fn in_range(bands: BandView, search: PatchSearch) -> bool {
    &&& bands.sba() <= search.msb <= search.usb <= bands.sbz() <= 62
    &&& bands.sbx() <= search.usb
    &&& bands.sba() <= bands.sbx() <= bands.sbz()
    &&& 0 <= search.sbg <= bands::group_count(bands.master)
    &&& bands::group_count(bands.master) <= 22
    &&& search.num_sb.len() == search.start_sb.len() <= MAX_SBG_PATCHES
}

/// Every border of valid tables lies between their lowest and highest border.
proof fn lemma_master_range(bands: BandView, index: int)
    requires
        bands.valid(),
    ensures
        bands.sba() <= master_or_top(bands, index) <= bands.sbz() <= 62,
        bands.sba() <= bands.sbx() <= bands.sbz(),
        bands::group_count(bands.master) <= 22,
{
    if bands.legal() {
        bands::lemma_bands_are_structured(bands);
        if 0 <= index < bands.master.len() {
            assert(bands.master[0] <= bands.master[index]);
            assert(bands.master[index] <= bands.master[bands.master.len() - 1]);
        }
    }
}

impl PatchTable {
    #[verifier::type_invariant]
    spec fn well_formed(self) -> bool {
        self.count <= MAX_SBG_PATCHES
    }

    /// Derives the patch table of a set of subband-group tables.
    ///
    /// `base_samp_freq_48` tells whether the base sampling rate is 48 kHz.
    pub fn derive(
        tables: &AspxBandTables,
        master_freq_scale: bool,
        base_samp_freq_48: bool,
    ) -> (result: Result<Self, PatchError>)
        ensures
            match result {
                Ok(patches) => derived_patches(tables@, master_freq_scale, base_samp_freq_48)
                    == Ok::<PatchView, PatchError>(patches@),
                Err(error) => derived_patches(tables@, master_freq_scale, base_samp_freq_48)
                    == Err::<PatchView, PatchError>(error),
            },
    {
        let sba: u8 = tables.sba();
        let sbx: u8 = tables.sbx();
        let sbz: u8 = tables.sbz();
        let goal: i32 = if base_samp_freq_48 {
            43
        } else {
            46
        };
        let low: i32 = if master_freq_scale {
            4
        } else {
            2
        };
        let num_sbg_master: u8 = tables.num_sbg_master();
        let num_master: usize = num_sbg_master as usize;
        let mut sbg: usize = if goal < sbz as i32 {
            find_goal(tables, goal, num_master)
        } else {
            num_master
        };
        let mut num_sb_out: [u8; MAX_SBG_PATCHES] = [0; MAX_SBG_PATCHES];
        let mut start_sb_out: [u8; MAX_SBG_PATCHES] = [0; MAX_SBG_PATCHES];
        let mut msb: i32 = sba as i32;
        let mut usb: i32 = sbx as i32;
        let mut count: usize = 0;
        proof {
            lemma_master_range(tables@, 0);
        }
        let mut budget: usize = 2 * (num_master + MAX_SBG_PATCHES) + 4;

        let ghost bands = tables@;
        let ghost start = search_start(bands, base_samp_freq_48);
        let ghost mut search = start;
        assert(num_sb_out@.take(0) =~= search.num_sb);
        assert(start_sb_out@.take(0) =~= search.start_sb);
        loop
            invariant_except_break
                search_patches(bands, low as int, start, search_budget(bands)) == search_patches(
                    bands,
                    low as int,
                    search,
                    budget as int,
                ),
            invariant
                bands == tables@,
                bands.valid(),
                start == search_start(bands, base_samp_freq_48),
                sba == bands.sba(),
                sbx == bands.sbx(),
                sbz == bands.sbz(),
                low == source_band_low(master_freq_scale),
                num_sbg_master == num_master,
                num_master == bands::group_count(bands.master),
                count <= MAX_SBG_PATCHES,
                search.sbg == sbg,
                search.msb == msb,
                search.usb == usb,
                search.num_sb == num_sb_out@.take(count as int),
                search.start_sb == start_sb_out@.take(count as int),
                in_range(bands, search),
            ensures
                search_patches(bands, low as int, start, search_budget(bands)) == Ok::<
                    PatchSearch,
                    PatchError,
                >(search),
            decreases budget,
        {
            let end: usize = match find_end(tables, low, msb, sbg) {
                Some(end) => end,
                None => {
                    return Err(PatchError::SourceExhausted { sba, source_band_low: low as u8 });
                },
            };
            proof {
                lemma_master_range(bands, end as int);
                lemma_master_range(bands, sbg as int);
                search = search_step(bands, search, end as int);
            }
            let sb: i32 = border_or_top(tables, end);
            let odd: i32 = odd_offset(sb, sba);
            let width: i32 = sb - usb;
            if width > 0 {
                if count >= MAX_SBG_PATCHES {
                    return Err(PatchError::TooManyPatches { limit: MAX_SBG_PATCHES as u8 });
                }
                num_sb_out[count] = width as u8;
                start_sb_out[count] = (sba as i32 - odd - width) as u8;
                usb = sb;
                msb = sb;
                count = count + 1;
                assert(num_sb_out@.take(count as int) =~= search.num_sb);
                assert(start_sb_out@.take(count as int) =~= search.start_sb);
            } else {
                msb = sbx as i32;
            }
            if border_or_top(tables, sbg) - sb < 3 {
                sbg = num_master;
            }
            if sb == sbz as i32 {
                break;
            }
            if budget == 0 {
                return Err(PatchError::LoopStuck { num_sbg_master });
            }
            budget = budget - 1;
        }

        let ghost found = search;
        if count > 1 && num_sb_out[count - 1] < 3 {
            count = count - 1;
        }
        proof {
            assert(count == kept_patches(found.num_sb));
            assert(num_sb_out@.take(count as int) =~= found.num_sb.take(count as int));
            assert(start_sb_out@.take(count as int) =~= found.start_sb.take(count as int));
        }
        let borders = accumulate_borders(&num_sb_out, count, sbx);
        let table = PatchTable {
            num_sb: num_sb_out,
            start_sb: start_sb_out,
            borders,
            count: count as u8,
        };
        assert(table@ =~= patch_view(
            found.num_sb.take(count as int),
            found.start_sb.take(count as int),
            sbx,
        ));
        Ok(table)
    }

    /// Assembles a table from given widths and sources.
    pub fn from_parts(num_sb: &[u8], start_sb: &[u8], sbx: u8) -> (table: Self)
        requires
            num_sb@.len() == start_sb@.len() <= MAX_SBG_PATCHES,
        ensures
            table@ == patch_view(num_sb@, start_sb@, sbx),
    {
        let count: usize = num_sb.len();
        let mut num_sb_out: [u8; MAX_SBG_PATCHES] = [0; MAX_SBG_PATCHES];
        let mut start_sb_out: [u8; MAX_SBG_PATCHES] = [0; MAX_SBG_PATCHES];
        let mut index: usize = 0;
        while index < count
            invariant
                index <= count <= MAX_SBG_PATCHES,
                count == num_sb@.len() == start_sb@.len(),
                num_sb_out@.take(index as int) =~= num_sb@.take(index as int),
                start_sb_out@.take(index as int) =~= start_sb@.take(index as int),
            decreases count - index,
        {
            num_sb_out[index] = num_sb[index];
            start_sb_out[index] = start_sb[index];
            index = index + 1;
        }
        let borders = accumulate_borders(&num_sb_out, count, sbx);
        assert(num_sb@.take(count as int) =~= num_sb@);
        assert(start_sb@.take(count as int) =~= start_sb@);
        let table = PatchTable {
            num_sb: num_sb_out,
            start_sb: start_sb_out,
            borders,
            count: count as u8,
        };
        assert(table@ =~= patch_view(num_sb@, start_sb@, sbx));
        table
    }

    /// Whether two tables have the same patches and borders.
    #[must_use]
    pub fn same_as(&self, other: &Self) -> (same: bool)
        ensures
            same == (self@ == other@),
    {
        proof {
            use_type_invariant(self);
            use_type_invariant(other);
        }
        let (count, other_count): (usize, usize) = (self.count as usize, other.count as usize);
        same_bytes(
            vstd::slice::slice_subrange(&self.num_sb, 0, count),
            vstd::slice::slice_subrange(&other.num_sb, 0, other_count),
        ) && same_bytes(
            vstd::slice::slice_subrange(&self.start_sb, 0, count),
            vstd::slice::slice_subrange(&other.start_sb, 0, other_count),
        ) && same_bytes(
            vstd::slice::slice_subrange(&self.borders, 0, count + 1),
            vstd::slice::slice_subrange(&other.borders, 0, other_count + 1),
        )
    }

    /// Number of patches.
    #[must_use]
    pub fn count(&self) -> (count: u8)
        ensures
            count == self@.num_sb.len() == self@.start_sb.len(),
            self@.borders.len() == count + 1,
            count <= MAX_SBG_PATCHES,
    {
        proof {
            use_type_invariant(self);
        }
        self.count
    }

    /// Number of subbands of the `index`-th patch.
    #[must_use]
    pub fn num_sb(&self, index: usize) -> (width: Option<u8>)
        ensures
            width == bands::border_at(self@.num_sb, index as int),
    {
        proof {
            use_type_invariant(self);
        }
        if index >= self.count as usize {
            return None;
        }
        Some(self.num_sb[index])
    }

    /// First source subband of the `index`-th patch.
    #[must_use]
    pub fn start_sb(&self, index: usize) -> (start: Option<u8>)
        ensures
            start == bands::border_at(self@.start_sb, index as int),
    {
        proof {
            use_type_invariant(self);
        }
        if index >= self.count as usize {
            return None;
        }
        Some(self.start_sb[index])
    }

    /// The `index`-th patch border; there is one more than there are patches.
    #[must_use]
    pub fn border(&self, index: usize) -> (border: Option<u8>)
        ensures
            border == bands::border_at(self@.borders, index as int),
    {
        proof {
            use_type_invariant(self);
        }
        if index > self.count as usize {
            return None;
        }
        Some(self.borders[index])
    }
}

/// Borders of `count` patches that start at `sbx`.
fn accumulate_borders(num_sb: &[u8; MAX_SBG_PATCHES], count: usize, sbx: u8) -> (borders:
    [u8; PATCH_BORDERS])
    requires
        count <= MAX_SBG_PATCHES,
    ensures
        forall|i: int|
            0 <= i <= count ==> #[trigger] borders@[i] == patch_border(
                num_sb@.take(count as int),
                sbx,
                i,
            ),
{
    let mut borders: [u8; PATCH_BORDERS] = [0; PATCH_BORDERS];
    borders[0] = sbx;
    let mut index: usize = 1;
    while index <= count
        invariant
            1 <= index <= count + 1,
            count <= MAX_SBG_PATCHES,
            borders@.len() == PATCH_BORDERS,
            forall|i: int|
                0 <= i < index ==> #[trigger] borders@[i] == patch_border(
                    num_sb@.take(count as int),
                    sbx,
                    i,
                ),
        decreases count + 1 - index,
    {
        borders[index] = borders[index - 1].saturating_add(num_sb[index - 1]);
        index = index + 1;
    }
    borders
}

/// A border depends only on the widths before it.
proof fn lemma_border_prefix(a: Seq<u8>, b: Seq<u8>, sbx: u8, index: int)
    requires
        index <= a.len(),
        index <= b.len(),
        forall|i: int| 0 <= i < index ==> a[i] == b[i],
    ensures
        patch_border(a, sbx, index) == patch_border(b, sbx, index),
    decreases index,
{
    if index > 0 {
        lemma_border_prefix(a, b, sbx, index - 1);
    }
}

/// What the patches found so far have in common.
spec fn consistent(bands: BandView, low: int, search: PatchSearch) -> bool {
    &&& in_range(bands, search)
    &&& forall|i: int|
        0 <= i < search.num_sb.len() ==> {
            &&& #[trigger] search.num_sb[i] > 0
            &&& low <= search.start_sb[i]
            &&& bands.sba() - 1 <= search.start_sb[i] + search.num_sb[i] <= bands.sba()
            &&& (patch_border(search.num_sb, bands.sbx(), i) - search.start_sb[i]) % 2 == 0
            &&& patch_border(search.num_sb, bands.sbx(), i + 1) == patch_border(
                search.num_sb,
                bands.sbx(),
                i,
            ) + search.num_sb[i]
        }
    &&& patch_border(search.num_sb, bands.sbx(), search.num_sb.len() as int) == search.usb
}

proof fn lemma_step_is_consistent(bands: BandView, low: int, search: PatchSearch, end: int)
    requires
        bands.valid(),
        consistent(bands, low, search),
        2 <= low <= 4,
        reachable(bands, low, search.msb, end),
        search.num_sb.len() < MAX_SBG_PATCHES || master_or_top(bands, end) <= search.usb,
    ensures
        consistent(bands, low, search_step(bands, search, end)),
{
    let sbx = bands.sbx();
    let next = search_step(bands, search, end);
    let sb = master_or_top(bands, end);
    let count = search.num_sb.len() as int;
    lemma_master_range(bands, end);
    lemma_master_range(bands, search.sbg);
    if sb > search.usb {
        assert forall|i: int| 0 <= i < next.num_sb.len() implies {
            &&& #[trigger] next.num_sb[i] > 0
            &&& low <= next.start_sb[i]
            &&& bands.sba() - 1 <= next.start_sb[i] + next.num_sb[i] <= bands.sba()
            &&& (patch_border(next.num_sb, sbx, i) - next.start_sb[i]) % 2 == 0
            &&& patch_border(next.num_sb, sbx, i + 1) == patch_border(next.num_sb, sbx, i)
                + next.num_sb[i]
        } by {
            lemma_border_prefix(search.num_sb, next.num_sb, sbx, i);
            if i < count {
                assert(search.num_sb[i] > 0);
                lemma_border_prefix(search.num_sb, next.num_sb, sbx, i + 1);
            }
        }
        lemma_border_prefix(search.num_sb, next.num_sb, sbx, count);
        assert(next.num_sb[count] > 0);
    }
}

proof fn lemma_search_is_consistent(bands: BandView, low: int, search: PatchSearch, budget: int)
    requires
        bands.valid(),
        consistent(bands, low, search),
        2 <= low <= 4,
    ensures
        search_patches(bands, low, search, budget) matches Ok(found) ==> {
            &&& consistent(bands, low, found)
            &&& found.usb == bands.sbz()
        },
    decreases budget,
{
    lemma_highest_is_reachable(bands, low, search.msb, search.sbg);
    match highest_reachable(bands, low, search.msb, search.sbg) {
        None => {},
        Some(end) => {
            let sb = master_or_top(bands, end);
            lemma_master_range(bands, end);
            if !(sb > search.usb && search.num_sb.len() >= MAX_SBG_PATCHES) {
                lemma_step_is_consistent(bands, low, search, end);
                if sb != bands.sbz() && budget > 0 {
                    lemma_search_is_consistent(
                        bands,
                        low,
                        search_step(bands, search, end),
                        budget - 1,
                    );
                }
            }
        },
    }
}

proof fn lemma_highest_is_reachable(bands: BandView, low: int, msb: int, from: int)
    ensures
        highest_reachable(bands, low, msb, from) matches Some(end) ==> end <= from && reachable(
            bands,
            low,
            msb,
            end,
        ),
    decreases from,
{
    if !reachable(bands, low, msb, from) && from > 0 {
        lemma_highest_is_reachable(bands, low, msb, from - 1);
    }
}

/// What every derived patch table has in common.
pub open spec fn structured_patches(bands: BandView, patches: PatchView) -> bool {
    let count = patches.num_sb.len() as int;
    &&& count <= MAX_SBG_PATCHES
    &&& patches.start_sb.len() == count
    &&& patches.borders.len() == count + 1
    &&& patches.borders[0] == bands.sbx()
    &&& patches.borders[count] <= bands.sbz()
    &&& forall|i: int|
        0 <= i < count ==> {
            &&& #[trigger] patches.num_sb[i] > 0
            &&& patches.start_sb[i] + patches.num_sb[i] <= bands.sba()
            &&& patches.borders[i + 1] == patches.borders[i] + patches.num_sb[i]
        }
}

/// Every patch of a derived table is nonempty and is copied from inside the low
/// band; the borders start at the crossover, accumulate the widths without
/// saturating, and do not pass the top of the range.
pub proof fn lemma_patches_are_structured(
    bands: BandView,
    master_freq_scale: bool,
    base_samp_freq_48: bool,
)
    requires
        bands.valid(),
    ensures
        derived_patches(bands, master_freq_scale, base_samp_freq_48) matches Ok(patches)
            ==> structured_patches(bands, patches),
{
    let low = source_band_low(master_freq_scale);
    let start = search_start(bands, base_samp_freq_48);
    lemma_master_range(bands, 0);
    if goal_subband(base_samp_freq_48) < bands.sbz() {
        lemma_goal_in_range(bands, goal_subband(base_samp_freq_48), 0);
    }
    lemma_search_is_consistent(bands, low, start, search_budget(bands));
    if let Ok(found) = search_patches(bands, low, start, search_budget(bands)) {
        let count = kept_patches(found.num_sb);
        let kept = found.num_sb.take(count);
        let sbx = bands.sbx();
        let patches = patch_view(kept, found.start_sb.take(count), sbx);
        assert forall|i: int| 0 <= i < count implies {
            &&& #[trigger] patches.num_sb[i] > 0
            &&& patches.start_sb[i] + patches.num_sb[i] <= bands.sba()
            &&& patches.borders[i + 1] == patches.borders[i] + patches.num_sb[i]
        } by {
            assert(found.num_sb[i] > 0);
            lemma_border_prefix(found.num_sb, kept, sbx, i);
            lemma_border_prefix(found.num_sb, kept, sbx, i + 1);
        }
        lemma_border_prefix(found.num_sb, kept, sbx, count);
        if count < found.num_sb.len() {
            assert(found.num_sb[count] > 0);
        }
    }
}

/// The lowest subbands are never copied, and the patches of a derived table
/// leave fewer than three subbands at the top of the range uncovered.
pub proof fn lemma_patches_cover_the_range(
    bands: BandView,
    master_freq_scale: bool,
    base_samp_freq_48: bool,
)
    requires
        bands.valid(),
    ensures
        derived_patches(bands, master_freq_scale, base_samp_freq_48) matches Ok(patches) ==> {
            &&& bands.sbz() - patches.borders.last() < 3
            &&& forall|i: int|
                0 <= i < patches.start_sb.len() ==> #[trigger] patches.start_sb[i]
                    >= source_band_low(master_freq_scale)
        },
{
    let low = source_band_low(master_freq_scale);
    let start = search_start(bands, base_samp_freq_48);
    lemma_master_range(bands, 0);
    if goal_subband(base_samp_freq_48) < bands.sbz() {
        lemma_goal_in_range(bands, goal_subband(base_samp_freq_48), 0);
    }
    lemma_search_is_consistent(bands, low, start, search_budget(bands));
    if let Ok(found) = search_patches(bands, low, start, search_budget(bands)) {
        let count = kept_patches(found.num_sb);
        lemma_border_prefix(found.num_sb, found.num_sb.take(count), bands.sbx(), count);
        assert forall|i: int| 0 <= i < count implies found.start_sb.take(count)[i] >= low by {
            assert(found.num_sb[i] > 0);
        }
        if count < found.num_sb.len() {
            assert(found.num_sb[count] > 0);
        }
    }
}

proof fn lemma_goal_in_range(bands: BandView, goal: int, index: int)
    requires
        bands.valid(),
        goal < bands.sbz(),
        0 <= index <= bands::group_count(bands.master),
    ensures
        index <= first_not_below(bands, goal, index) <= bands::group_count(bands.master),
        master_or_top(bands, first_not_below(bands, goal, index)) >= goal,
        first_not_below(bands, goal, index) > index ==> master_or_top(
            bands,
            first_not_below(bands, goal, index) - 1,
        ) < goal,
    decreases bands::group_count(bands.master) + 1 - index,
{
    if master_or_top(bands, index) < goal {
        assert(index < bands::group_count(bands.master));
        lemma_goal_in_range(bands, goal, index + 1);
    }
}

/// The borders of a derived patch table strictly increase.
pub proof fn lemma_patch_borders_increase(bands: BandView, patches: PatchView, i: int, j: int)
    requires
        structured_patches(bands, patches),
        0 <= i < j < patches.borders.len(),
    ensures
        patches.borders[i] < patches.borders[j],
    decreases j,
{
    assert(patches.num_sb[j - 1] > 0);
    if i < j - 1 {
        lemma_patch_borders_increase(bands, patches, i, j - 1);
    }
}

/// The sampling rate has no influence where neither of the two goals lies
/// inside the range.
pub proof fn lemma_sampling_rate_is_irrelevant(bands: BandView, master_freq_scale: bool)
    requires
        bands.sbz() <= 43,
    ensures
        derived_patches(bands, master_freq_scale, true) == derived_patches(
            bands,
            master_freq_scale,
            false,
        ),
{
}

/// The master borders follow the template from index `2 * start` on.
spec fn follows_template(bands: BandView, scale: bool, start: int, stop: int, xover: int) -> bool {
    let count = bands::group_count(bands.master);
    &&& 0 <= start <= 7
    &&& 0 <= stop <= 3
    &&& 0 <= xover <= 7
    &&& xover < count
    &&& count == (if scale {
        22int
    } else {
        20
    }) - 2 * start - 2 * stop
    &&& forall|i: int|
        0 <= i <= count ==> #[trigger] master_or_top(bands, i) == tables::template_border(
            scale,
            2 * start + i,
        )
    &&& bands.sba() == tables::template_border(scale, 2 * start)
    &&& bands.sbx() == tables::template_border(scale, 2 * start + xover)
    &&& bands.sbz() == tables::template_border(scale, 2 * start + count)
}

proof fn lemma_follows_template(
    bands: BandView,
    scale: bool,
    start: u8,
    stop: u8,
    noise_sbg: u8,
    xover: u8,
)
    requires
        bands::derived_bands(scale, start, stop, noise_sbg, xover) == Ok::<BandView, BandError>(
            bands,
        ),
    ensures
        follows_template(bands, scale, start as int, stop as int, xover as int),
{
    tables::lemma_template_borders(scale);
    let count = bands::master_count(scale, start, stop);
    assert(bands.master.len() == count + 1);
    assert forall|i: int| 0 <= i <= count implies #[trigger] master_or_top(bands, i)
        == tables::template_border(scale, 2 * start + i) by {
        assert(bands.master[i] == tables::template(scale)[2 * start + i]);
    }
    assert(bands.sba() == master_or_top(bands, 0));
    assert(bands.sbz() == master_or_top(bands, count));
    assert(bands.sbx() == master_or_top(bands, xover as int));
}

/// If the border at `index` is reachable, the search ends there or higher.
proof fn lemma_end_at_least(bands: BandView, low: int, msb: int, from: int, index: int)
    requires
        0 <= index <= from,
        reachable(bands, low, msb, index),
    ensures
        highest_reachable(bands, low, msb, from) matches Some(end) && index <= end <= from
            && reachable(bands, low, msb, end),
    decreases from,
{
    if !reachable(bands, low, msb, from) {
        lemma_end_at_least(bands, low, msb, from - 1, index);
    }
}

/// A subband that the search has certainly passed when at most `rounds` more
/// rounds are needed.
spec fn course_floor(bands: BandView, scale: bool, sbg: int, rounds: int) -> int {
    if !scale {
        if bands.sba() < 12 {
            if rounds >= 5 {
                10
            } else if rounds == 4 {
                18
            } else if rounds == 3 {
                26
            } else if rounds == 2 {
                32
            } else if rounds == 1 {
                38
            } else {
                46
            }
        } else {
            if rounds >= 4 {
                12
            } else if rounds == 3 {
                22
            } else if rounds == 2 {
                32
            } else if rounds == 1 {
                42
            } else {
                46
            }
        }
    } else if sbg == bands::group_count(bands.master) {
        if rounds >= 4 {
            18
        } else if rounds == 3 {
            32
        } else if rounds == 2 {
            44
        } else if rounds == 1 {
            56
        } else {
            62
        }
    } else if master_or_top(bands, sbg) == 44 {
        if rounds >= 4 {
            18
        } else if rounds == 3 {
            32
        } else {
            44
        }
    } else {
        if rounds >= 5 {
            18
        } else if rounds == 4 {
            32
        } else {
            44
        }
    }
}

/// The search is far enough along to finish within `rounds` more rounds.
spec fn on_course(bands: BandView, scale: bool, search: PatchSearch, rounds: int) -> bool {
    &&& in_range(bands, search)
    &&& search.usb < bands.sbz()
    &&& search.num_sb.len() + rounds <= 5
    &&& search.msb >= course_floor(bands, scale, search.sbg, rounds)
    &&& search.sbg == bands::group_count(bands.master) || {
        &&& scale
        &&& search.sbg < bands::group_count(bands.master)
        &&& (master_or_top(bands, search.sbg) == 44 || master_or_top(bands, search.sbg) == 47)
        &&& rounds >= 3
    }
    &&& {
        ||| search.msb == bands.sba() && search.usb == bands.sbx()
        ||| {
            &&& search.msb == search.usb
            &&& search.usb < master_or_top(bands, search.sbg)
        }
    }
    &&& exists|k: int|
        0 <= k < bands::group_count(bands.master) && #[trigger] master_or_top(bands, k)
            == search.usb
}

proof fn lemma_template_order(scale: bool, i: int, j: int)
    requires
        0 <= i < j <= (if scale {
            22int
        } else {
            20
        }),
    ensures
        tables::template_border(scale, i) < tables::template_border(scale, j),
{
}

proof fn lemma_template_even(scale: bool, half: int)
    requires
        0 <= half <= (if scale {
            11int
        } else {
            10
        }),
    ensures
        tables::template_border(scale, 2 * half) % 2 == 0,
        tables::template_border(scale, 2 * half) >= 10,
{
}

/// An even template border that is near enough is reached in the next round,
/// unless the top of the range comes first.
proof fn lemma_reaches(
    bands: BandView,
    scale: bool,
    start: int,
    stop: int,
    xover: int,
    msb: int,
    sbg: int,
    target: int,
)
    requires
        follows_template(bands, scale, start, stop, xover),
        0 <= target <= (if scale {
            22int
        } else {
            20
        }),
        tables::template_border(scale, target) % 2 == 0,
        bands.sba() <= msb,
        tables::template_border(scale, target) <= bands.sba() - source_band_low(scale) + msb,
        0 <= sbg <= bands::group_count(bands.master),
        sbg == bands::group_count(bands.master) || tables::template_border(scale, target)
            <= master_or_top(bands, sbg),
    ensures
        highest_reachable(bands, source_band_low(scale), msb, sbg) matches Some(end) && {
            &&& 0 <= end <= sbg
            &&& master_or_top(bands, end) == tables::template_border(scale, 2 * start + end)
            &&& (master_or_top(bands, end) >= tables::template_border(scale, target)
                || master_or_top(bands, end) == bands.sbz())
        },
{
    let low = source_band_low(scale);
    let count = bands::group_count(bands.master);
    let base = 2 * start;
    lemma_template_even(scale, start);
    lemma_template_even(scale, if scale {
        11 - stop
    } else {
        10 - stop
    });
    let index = if target < base {
        0
    } else if target - base > count {
        count
    } else {
        target - base
    };
    let sb = master_or_top(bands, index);
    assert(sb == tables::template_border(scale, base + index));
    if target < base {
        lemma_template_order(scale, target, base);
    } else if target - base > count {
        lemma_template_order(scale, base + count, target);
    }
    if sbg < count && index > sbg {
        assert(master_or_top(bands, sbg) == tables::template_border(scale, base + sbg));
        lemma_template_order(scale, base + sbg, target);
    }
    assert(reachable(bands, low, msb, index));
    lemma_end_at_least(bands, low, msb, sbg, index);
    let end = highest_reachable(bands, low, msb, sbg).unwrap();
    assert(master_or_top(bands, end) == tables::template_border(scale, base + end));
    if index < end {
        lemma_template_order(scale, base + index, base + end);
    }
}

/// When a round starts at a border below the one it may end at, it ends above
/// where it started.
proof fn lemma_advances(
    bands: BandView,
    scale: bool,
    start: int,
    stop: int,
    xover: int,
    usb: int,
    sbg: int,
)
    requires
        follows_template(bands, scale, start, stop, xover),
        0 <= sbg <= bands::group_count(bands.master),
        usb < master_or_top(bands, sbg),
        exists|k: int|
            0 <= k < bands::group_count(bands.master) && #[trigger] master_or_top(bands, k) == usb,
    ensures
        highest_reachable(bands, source_band_low(scale), usb, sbg) matches Some(end)
            && master_or_top(bands, end) > usb,
{
    let low = source_band_low(scale);
    let base = 2 * start;
    let k = choose|k: int|
        0 <= k < bands::group_count(bands.master) && #[trigger] master_or_top(bands, k) == usb;
    assert(master_or_top(bands, k) == tables::template_border(scale, base + k));
    assert(master_or_top(bands, k + 1) == tables::template_border(scale, base + k + 1));
    assert(master_or_top(bands, sbg) == tables::template_border(scale, base + sbg));
    assert(k < sbg);
    assert(bands.sba() >= if scale {
        18int
    } else {
        10
    });
    assert(reachable(bands, low, usb, k + 1));
    lemma_end_at_least(bands, low, usb, sbg, k + 1);
    let end = highest_reachable(bands, low, usb, sbg).unwrap();
    assert(master_or_top(bands, end) == tables::template_border(scale, base + end));
}

/// The highest border that the round after one ending at `sb` may end at.
spec fn next_sbg(bands: BandView, sbg: int, sb: int) -> int {
    if master_or_top(bands, sbg) - sb < 3 {
        bands::group_count(bands.master)
    } else {
        sbg
    }
}

/// A round on course ends at the top of the range or high enough that one round
/// fewer remains.
proof fn lemma_round_floor(
    bands: BandView,
    scale: bool,
    start: int,
    stop: int,
    xover: int,
    search: PatchSearch,
    rounds: int,
)
    requires
        follows_template(bands, scale, start, stop, xover),
        on_course(bands, scale, search, rounds),
        rounds >= 1,
    ensures
        highest_reachable(bands, source_band_low(scale), search.msb, search.sbg) matches Some(end)
            && {
            let sb = master_or_top(bands, end);
            let sbg = next_sbg(bands, search.sbg, sb);
            &&& 0 <= end <= search.sbg
            &&& sb == tables::template_border(scale, 2 * start + end)
            &&& sb == bands.sbz() || {
                &&& rounds >= 2
                &&& sb >= course_floor(bands, scale, sbg, rounds - 1)
                &&& sbg == bands::group_count(bands.master) || rounds >= 4
            }
        },
{
    let msb = search.msb;
    let sbg = search.sbg;
    let count = bands::group_count(bands.master);
    if !scale {
        let target = if bands.sba() < 12 {
            if rounds >= 5 {
                8int
            } else if rounds == 4 {
                13
            } else if rounds == 3 {
                16
            } else if rounds == 2 {
                18
            } else {
                20
            }
        } else {
            if rounds >= 4 {
                11int
            } else if rounds == 3 {
                16
            } else if rounds == 2 {
                19
            } else {
                20
            }
        };
        lemma_reaches(bands, scale, start, stop, xover, msb, sbg, target);
    } else if sbg == count {
        let target = if rounds >= 4 {
            10int
        } else if rounds == 3 {
            16
        } else if rounds == 2 {
            20
        } else {
            22
        };
        lemma_reaches(bands, scale, start, stop, xover, msb, sbg, target);
    } else if master_or_top(bands, sbg) == 44 {
        let target = if rounds >= 4 {
            10int
        } else {
            16
        };
        lemma_reaches(bands, scale, start, stop, xover, msb, sbg, target);
    } else if rounds >= 4 {
        let target = if rounds >= 5 {
            10int
        } else {
            16
        };
        lemma_reaches(bands, scale, start, stop, xover, msb, sbg, target);
    } else {
        assert(reachable(bands, source_band_low(scale), msb, sbg));
        assert(master_or_top(bands, sbg) == tables::template_border(scale, 2 * start + sbg));
    }
}

/// A round on course leaves the search on course with one round fewer.
proof fn lemma_round_on_course(
    bands: BandView,
    scale: bool,
    start: int,
    stop: int,
    xover: int,
    search: PatchSearch,
    rounds: int,
)
    requires
        follows_template(bands, scale, start, stop, xover),
        on_course(bands, scale, search, rounds),
        rounds >= 1,
        bands.legal(),
    ensures
        highest_reachable(bands, source_band_low(scale), search.msb, search.sbg) matches Some(end)
            && {
            let sb = master_or_top(bands, end);
            &&& sb > search.usb ==> search.num_sb.len() < MAX_SBG_PATCHES
            &&& sb != bands.sbz() ==> rounds >= 2 && on_course(
                bands,
                scale,
                search_step(bands, search, end),
                rounds - 1,
            )
        },
{
    lemma_round_floor(bands, scale, start, stop, xover, search, rounds);
    let low = source_band_low(scale);
    let count = bands::group_count(bands.master);
    let end = highest_reachable(bands, low, search.msb, search.sbg).unwrap();
    let sb = master_or_top(bands, end);
    let next = search_step(bands, search, end);
    lemma_master_range(bands, end);
    lemma_master_range(bands, search.sbg);
    if search.msb == search.usb && search.usb < master_or_top(bands, search.sbg) {
        lemma_advances(bands, scale, start, stop, xover, search.usb, search.sbg);
    }
    if sb != bands.sbz() {
        assert(next.sbg == next_sbg(bands, search.sbg, sb));
        if sb > search.usb {
            assert(master_or_top(bands, end) == next.usb);
            assert(next.usb < master_or_top(bands, next.sbg));
        } else {
            assert(search.msb == bands.sba() && search.usb == bands.sbx());
            assert(master_or_top(bands, xover) == next.usb);
            if next.sbg < count {
                assert(master_or_top(bands, search.sbg) == tables::template_border(
                    scale,
                    2 * start + search.sbg,
                ));
                if bands.sbx() >= master_or_top(bands, search.sbg) {
                    assert(start >= 5);
                    assert(reachable(bands, low, search.msb, search.sbg));
                }
            }
            assert(next.usb < master_or_top(bands, next.sbg));
        }
    }
}

proof fn lemma_search_succeeds(
    bands: BandView,
    scale: bool,
    start: int,
    stop: int,
    xover: int,
    search: PatchSearch,
    rounds: int,
    budget: int,
)
    requires
        follows_template(bands, scale, start, stop, xover),
        on_course(bands, scale, search, rounds),
        1 <= rounds <= budget,
        bands.legal(),
    ensures
        search_patches(bands, source_band_low(scale), search, budget) is Ok,
    decreases rounds,
{
    lemma_round_on_course(bands, scale, start, stop, xover, search, rounds);
    let low = source_band_low(scale);
    let end = highest_reachable(bands, low, search.msb, search.sbg).unwrap();
    if master_or_top(bands, end) != bands.sbz() {
        lemma_search_succeeds(
            bands,
            scale,
            start,
            stop,
            xover,
            search_step(bands, search, end),
            rounds - 1,
            budget - 1,
        );
    }
}

/// Every legal configuration has a patch table, at either sampling rate.
pub proof fn lemma_legal_bands_have_patches(
    bands: BandView,
    master_freq_scale: bool,
    start: u8,
    stop: u8,
    noise_sbg: u8,
    xover: u8,
    base_samp_freq_48: bool,
)
    requires
        bands::derived_bands(master_freq_scale, start, stop, noise_sbg, xover) == Ok::<
            BandView,
            BandError,
        >(bands),
    ensures
        derived_patches(bands, master_freq_scale, base_samp_freq_48) is Ok,
{
    let scale = master_freq_scale;
    assert(bands.legal()) by {
        reveal(BandView::legal);
    }
    lemma_follows_template(bands, scale, start, stop, noise_sbg, xover);
    lemma_master_range(bands, 0);
    let first = search_start(bands, base_samp_freq_48);
    let goal = goal_subband(base_samp_freq_48);
    let count = bands::group_count(bands.master);
    let s = start as int;
    let x = xover as int;
    if goal < bands.sbz() {
        lemma_goal_in_range(bands, goal, 0);
        assert(master_or_top(bands, first.sbg) == tables::template_border(
            scale,
            2 * s + first.sbg,
        ));
        if first.sbg > 0 {
            assert(master_or_top(bands, first.sbg - 1) == tables::template_border(
                scale,
                2 * s + first.sbg - 1,
            ));
        }
    }
    assert(master_or_top(bands, x) == bands.sbx());
    assert(master_or_top(bands, count) == tables::template_border(scale, 2 * s + count));
    assert(on_course(bands, scale, first, 5));
    lemma_search_succeeds(bands, scale, s, stop as int, x, first, 5, search_budget(bands));
}

/// Every patch is copied from the top of the low band, over an even distance: it
/// ends where the low band ends, or one subband below where the distance would
/// be odd otherwise.
#[verifier::rlimit(40)]
pub proof fn lemma_patches_are_copied_from_the_top(
    bands: BandView,
    master_freq_scale: bool,
    base_samp_freq_48: bool,
    index: int,
)
    requires
        bands.valid(),
        0 <= index,
    ensures
        derived_patches(bands, master_freq_scale, base_samp_freq_48) matches Ok(patches) ==> index
            < patches.num_sb.len() ==> {
            let source_end = patches.start_sb[index] + patches.num_sb[index];
            &&& (patches.borders[index] - patches.start_sb[index]) % 2 == 0
            &&& source_end == (if (patches.borders[index + 1] - bands.sba()) % 2 == 0 {
                bands.sba() as int
            } else {
                bands.sba() - 1
            })
        },
{
    let low = source_band_low(master_freq_scale);
    let start = search_start(bands, base_samp_freq_48);
    lemma_master_range(bands, 0);
    if goal_subband(base_samp_freq_48) < bands.sbz() {
        lemma_goal_in_range(bands, goal_subband(base_samp_freq_48), 0);
    }
    lemma_search_is_consistent(bands, low, start, search_budget(bands));
    if let Ok(found) = search_patches(bands, low, start, search_budget(bands)) {
        let count = kept_patches(found.num_sb);
        let kept = found.num_sb.take(count);
        let patches = patch_view(kept, found.start_sb.take(count), bands.sbx());
        assert(derived_patches(bands, master_freq_scale, base_samp_freq_48) == Ok::<
            PatchView,
            PatchError,
        >(patches));
        if index < count {
            assert(found.num_sb[index] > 0);
            lemma_border_prefix(found.num_sb, kept, bands.sbx(), index);
            lemma_border_prefix(found.num_sb, kept, bands.sbx(), index + 1);
            lemma_even_distance(
                bands.sba() as int,
                patches.start_sb[index] as int,
                patches.num_sb[index] as int,
                patches.borders[index] as int,
            );
        }
    }
}

proof fn lemma_even_distance(top: int, source: int, width: int, written: int)
    requires
        top - 1 <= source + width <= top,
        (written - source) % 2 == 0,
    ensures
        source + width == (if (written + width - top) % 2 == 0 {
            top
        } else {
            top - 1
        }),
{
}

proof fn lemma_reach_follows_the_master_table(
    a: BandView,
    b: BandView,
    low: int,
    msb: int,
    from: int,
)
    requires
        a.master == b.master,
    ensures
        highest_reachable(a, low, msb, from) == highest_reachable(b, low, msb, from),
    decreases from,
{
    assert(reachable(a, low, msb, from) == reachable(b, low, msb, from));
    if !reachable(a, low, msb, from) && from > 0 {
        lemma_reach_follows_the_master_table(a, b, low, msb, from - 1);
    }
}

proof fn lemma_goal_follows_the_master_table(a: BandView, b: BandView, goal: int, index: int)
    requires
        a.master == b.master,
    ensures
        first_not_below(a, goal, index) == first_not_below(b, goal, index),
    decreases bands::group_count(a.master) + 1 - index,
{
    if index <= bands::group_count(a.master) && master_or_top(a, index) < goal {
        lemma_goal_follows_the_master_table(a, b, goal, index + 1);
    }
}

proof fn lemma_search_follows_the_master_table(
    a: BandView,
    b: BandView,
    low: int,
    search: PatchSearch,
    budget: int,
)
    requires
        a.master == b.master,
        a.sbx() == b.sbx(),
    ensures
        search_patches(a, low, search, budget) == search_patches(b, low, search, budget),
    decreases budget,
{
    lemma_reach_follows_the_master_table(a, b, low, search.msb, search.sbg);
    if let Some(end) = highest_reachable(a, low, search.msb, search.sbg) {
        assert(search_step(a, search, end) == search_step(b, search, end));
        if budget > 0 {
            lemma_search_follows_the_master_table(
                a,
                b,
                low,
                search_step(a, search, end),
                budget - 1,
            );
        }
    }
}

/// The patches follow from the master table and the crossover alone: neither the
/// low-resolution groups nor the noise groups have a part in them.
pub proof fn lemma_patches_follow_the_master_table(
    a: BandView,
    b: BandView,
    master_freq_scale: bool,
    base_samp_freq_48: bool,
)
    requires
        a.master == b.master,
        a.sig_highres == b.sig_highres,
    ensures
        derived_patches(a, master_freq_scale, base_samp_freq_48) == derived_patches(
            b,
            master_freq_scale,
            base_samp_freq_48,
        ),
{
    lemma_goal_follows_the_master_table(a, b, goal_subband(base_samp_freq_48), 0);
    lemma_search_follows_the_master_table(
        a,
        b,
        source_band_low(master_freq_scale),
        search_start(a, base_samp_freq_48),
        search_budget(a),
    );
}

/// The borders of a table that was put together start at the crossover and add
/// up the widths; none passes the largest byte.
pub proof fn lemma_borders_add_up(num_sb: Seq<u8>, start_sb: Seq<u8>, sbx: u8, index: int)
    requires
        0 <= index < num_sb.len(),
    ensures
        ({
            let patches = patch_view(num_sb, start_sb, sbx);
            let sum = patches.borders[index] + num_sb[index];
            &&& patches.num_sb == num_sb
            &&& patches.start_sb == start_sb
            &&& patches.borders.len() == num_sb.len() + 1
            &&& patches.borders[0] == sbx
            &&& sum <= 255 ==> patches.borders[index + 1] == sum
            &&& sum > 255 ==> patches.borders[index + 1] == 255
        }),
{
}

} // verus!
