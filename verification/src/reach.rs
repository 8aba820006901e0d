//! Which decoding branches a frame takes.
use vstd::prelude::*;
use crate::bands;
use crate::element::{AspxData, DataView};
use crate::syntax::{AspxHfGen, HfGenView};
use crate::tables::{IntervalClass, MAX_ASPX_TIMESLOTS};

verus! {

/// Which decoding branches a frame takes.
pub struct ReachView {
    /// Some subband group asks for a sinusoid.
    pub add_harmonic: bool,
    /// Some group or timeslot is interleaved.
    pub interleaved: bool,
    /// Some interval does not have two fixed ends.
    pub variable_framing: bool,
    /// Some element is balanced.
    pub balance: bool,
}

/// Which decoding branches a frame takes: an observation, not a statement of
/// what can be decoded.
#[derive(Debug, Clone, Copy, PartialEq, Eq)]
pub struct AspxReach {
    add_harmonic: bool,
    interleaved: bool,
    variable_framing: bool,
    balance: bool,
}

impl View for AspxReach {
    type V = ReachView;

    closed spec fn view(&self) -> ReachView {
        ReachView {
            add_harmonic: self.add_harmonic,
            interleaved: self.interleaved,
            variable_framing: self.variable_framing,
            balance: self.balance,
        }
    }
}

impl ReachView {
    /// No branch at all.
    pub open spec fn none() -> ReachView {
        ReachView {
            add_harmonic: false,
            interleaved: false,
            variable_framing: false,
            balance: false,
        }
    }

    /// The branches that either observation took.
    pub open spec fn merged(self, other: ReachView) -> ReachView {
        ReachView {
            add_harmonic: self.add_harmonic || other.add_harmonic,
            interleaved: self.interleaved || other.interleaved,
            variable_framing: self.variable_framing || other.variable_framing,
            balance: self.balance || other.balance,
        }
    }
}

impl AspxReach {
    /// An observation of the given branches.
    #[must_use]
    pub fn new(
        add_harmonic: bool,
        interleaved: bool,
        variable_framing: bool,
        balance: bool,
    ) -> (reach: Self)
        ensures
            reach@ == (ReachView { add_harmonic, interleaved, variable_framing, balance }),
    {
        AspxReach { add_harmonic, interleaved, variable_framing, balance }
    }

    /// Whether some subband group asks for a sinusoid.
    #[must_use]
    pub fn add_harmonic(self) -> (flag: bool)
        ensures
            flag == self@.add_harmonic,
    {
        self.add_harmonic
    }

    /// Whether some group or timeslot is interleaved.
    #[must_use]
    pub fn interleaved(self) -> (flag: bool)
        ensures
            flag == self@.interleaved,
    {
        self.interleaved
    }

    /// Whether some interval does not have two fixed ends.
    #[must_use]
    pub fn variable_framing(self) -> (flag: bool)
        ensures
            flag == self@.variable_framing,
    {
        self.variable_framing
    }

    /// Whether some element is balanced.
    #[must_use]
    pub fn balance(self) -> (flag: bool)
        ensures
            flag == self@.balance,
    {
        self.balance
    }

    /// Adds the branches that another observation took.
    pub fn merge(&mut self, other: Self)
        ensures
            final(self)@ == old(self)@.merged(other@),
    {
        self.add_harmonic = self.add_harmonic || other.add_harmonic;
        self.interleaved = self.interleaved || other.interleaved;
        self.variable_framing = self.variable_framing || other.variable_framing;
        self.balance = self.balance || other.balance;
    }
}

impl Default for AspxReach {
    fn default() -> (reach: Self)
        ensures
            reach@ == ReachView::none(),
    {
        AspxReach::new(false, false, false, false)
    }
}

/// Whether one of the first `limit` flags is set.
pub open spec fn some_set(flags: Seq<bool>, limit: int) -> bool {
    exists|i: int| 0 <= i < limit && i < flags.len() && #[trigger] flags[i]
}

/// Whether a channel has an interleaved group or timeslot.
pub open spec fn channel_interleaved(hfgen: HfGenView, groups: int) -> bool {
    some_set(hfgen.fic, groups) || some_set(hfgen.tic, MAX_ASPX_TIMESLOTS as int)
}

/// Whether `ch` is a channel of an element.
pub open spec fn has_channel(data: DataView, ch: int) -> bool {
    0 <= ch < data.channels && ch < 2
}

/// The branches that an element takes.
pub open spec fn element_reach(data: DataView) -> ReachView {
    let groups = bands::group_count(data.bands.master);
    ReachView {
        add_harmonic: exists|ch: int| #[trigger]
            has_channel(data, ch) && some_set(data.hfgen[ch].add_harmonic, groups),
        interleaved: exists|ch: int| #[trigger]
            has_channel(data, ch) && channel_interleaved(data.hfgen[ch], groups),
        variable_framing: exists|ch: int| #[trigger]
            has_channel(data, ch) && data.framing[ch].params.int_class != IntervalClass::FixFix,
        balance: data.balance == Some(true),
    }
}

/// Whether some of the first `count` elements takes the branch that `branch`
/// picks.
pub open spec fn some_element(
    elements: Seq<AspxData>,
    count: int,
    branch: spec_fn(ReachView) -> bool,
) -> bool {
    exists|i: int| 0 <= i < count && branch(#[trigger] element_reach(elements[i]@))
}

/// The branches that some of the first `count` elements takes.
pub open spec fn elements_reach(elements: Seq<AspxData>, count: int) -> ReachView {
    ReachView {
        add_harmonic: some_element(elements, count, |reach: ReachView| reach.add_harmonic),
        interleaved: some_element(elements, count, |reach: ReachView| reach.interleaved),
        variable_framing: some_element(elements, count, |reach: ReachView| reach.variable_framing),
        balance: some_element(elements, count, |reach: ReachView| reach.balance),
    }
}

proof fn lemma_elements_reach_step(elements: Seq<AspxData>, count: int)
    requires
        0 <= count < elements.len(),
    ensures
        elements_reach(elements, count + 1) == elements_reach(elements, count).merged(
            element_reach(elements[count]@),
        ),
{
    let last = element_reach(elements[count]@);
    assert forall|branch: spec_fn(ReachView) -> bool| #[trigger]
        some_element(elements, count + 1, branch) == (some_element(elements, count, branch)
            || branch(last)) by {
        if some_element(elements, count, branch) {
            let i = choose|i: int|
                0 <= i < count && branch(#[trigger] element_reach(elements[i]@));
            assert(0 <= i < count + 1 && branch(element_reach(elements[i]@)));
        }
        if branch(last) {
            assert(0 <= count < count + 1 && branch(element_reach(elements[count]@)));
        }
    }
}

/// Whether one of the first `groups` groups of a channel asks for a sinusoid.
fn harmonic_requested(hfgen: &AspxHfGen, groups: usize) -> (found: bool)
    ensures
        found == some_set(hfgen@.add_harmonic, groups as int),
{
    let mut group: usize = 0;
    while group < groups
        invariant
            group <= groups,
            forall|i: int|
                0 <= i < group && i < hfgen@.add_harmonic.len() ==> !hfgen@.add_harmonic[i],
        decreases groups - group,
    {
        if let Some(flag) = hfgen.add_harmonic(group) {
            if flag {
                assert(hfgen@.add_harmonic[group as int]);
                return true;
            }
        }
        group = group + 1;
    }
    false
}

/// Whether one of the first `groups` groups or a timeslot of a channel is
/// interleaved.
fn interleaving_used(hfgen: &AspxHfGen, groups: usize) -> (found: bool)
    ensures
        found == channel_interleaved(hfgen@, groups as int),
{
    let mut group: usize = 0;
    while group < groups
        invariant
            group <= groups,
            forall|i: int| 0 <= i < group && i < hfgen@.fic.len() ==> !hfgen@.fic[i],
        decreases groups - group,
    {
        if let Some(flag) = hfgen.fic_used_in_sfb(group) {
            if flag {
                assert(hfgen@.fic[group as int]);
                return true;
            }
        }
        group = group + 1;
    }
    let mut slot: usize = 0;
    while slot < MAX_ASPX_TIMESLOTS
        invariant
            slot <= MAX_ASPX_TIMESLOTS,
            forall|i: int| 0 <= i < groups && i < hfgen@.fic.len() ==> !hfgen@.fic[i],
            forall|i: int| 0 <= i < slot && i < hfgen@.tic.len() ==> !hfgen@.tic[i],
        decreases MAX_ASPX_TIMESLOTS - slot,
    {
        if let Some(flag) = hfgen.tic_used_in_slot(slot) {
            if flag {
                assert(hfgen@.tic[slot as int]);
                return true;
            }
        }
        slot = slot + 1;
    }
    false
}

/// The branches that an element takes.
fn observe(data: &AspxData) -> (reach: AspxReach)
    ensures
        reach@ == element_reach(data@),
{
    let groups: usize = data.bands.num_sbg_master() as usize;
    let mut reach = AspxReach::default();
    reach.balance = data.balance == Some(true);
    let mut ch: usize = 0;
    while ch < data.channels as usize && ch < 2
        invariant
            ch <= 2,
            ch <= data.channels,
            groups == bands::group_count(data@.bands.master),
            reach@.balance == (data@.balance == Some(true)),
            reach@.add_harmonic == (exists|c: int| #[trigger]
                has_channel(data@, c) && c < ch && some_set(
                    data@.hfgen[c].add_harmonic,
                    groups as int,
                )),
            reach@.interleaved == (exists|c: int| #[trigger]
                has_channel(data@, c) && c < ch && channel_interleaved(
                    data@.hfgen[c],
                    groups as int,
                )),
            reach@.variable_framing == (exists|c: int| #[trigger]
                has_channel(data@, c) && c < ch && data@.framing[c].params.int_class
                    != IntervalClass::FixFix),
        decreases 2 - ch,
    {
        assert(has_channel(data@, ch as int));
        reach.variable_framing = reach.variable_framing || data.framing[ch].params.int_class
            != IntervalClass::FixFix;
        let harmonic: bool = harmonic_requested(&data.hfgen[ch], groups);
        reach.add_harmonic = reach.add_harmonic || harmonic;
        let interleaved: bool = interleaving_used(&data.hfgen[ch], groups);
        reach.interleaved = reach.interleaved || interleaved;
        assert(data@.hfgen[ch as int] == data.hfgen@[ch as int]@);
        assert(data@.framing[ch as int] == data.framing@[ch as int]@);
        ch = ch + 1;
    }
    reach
}

/// The branches that the elements of a substream take.
#[must_use]
pub fn collect_aspx_reach(elements: &[AspxData]) -> (reach: AspxReach)
    ensures
        reach@ == elements_reach(elements@, elements@.len() as int),
{
    let mut reach = AspxReach::default();
    let mut index: usize = 0;
    while index < elements.len()
        invariant
            index <= elements@.len(),
            reach@ == elements_reach(elements@, index as int),
        decreases elements@.len() - index,
    {
        proof {
            lemma_elements_reach_step(elements@, index as int);
        }
        reach.merge(observe(&elements[index]));
        index = index + 1;
    }
    reach
}

/// Merging is commutative, associative and idempotent, so the order in which
/// substreams are observed does not matter.
pub proof fn lemma_merge_order_is_irrelevant(a: ReachView, b: ReachView, c: ReachView)
    ensures
        a.merged(b) == b.merged(a),
        a.merged(b).merged(c) == a.merged(b.merged(c)),
        a.merged(a) == a,
        a.merged(ReachView::none()) == a,
{
}

/// Observing two runs of elements one after the other is merging the two
/// observations.
pub proof fn lemma_reach_of_concatenation(first: Seq<AspxData>, second: Seq<AspxData>)
    ensures
        elements_reach(first + second, (first + second).len() as int) == elements_reach(
            first,
            first.len() as int,
        ).merged(elements_reach(second, second.len() as int)),
{
    let all = first + second;
    assert forall|branch: spec_fn(ReachView) -> bool| #[trigger]
        some_element(all, all.len() as int, branch) == (some_element(
            first,
            first.len() as int,
            branch,
        ) || some_element(second, second.len() as int, branch)) by {
        if some_element(first, first.len() as int, branch) {
            let i = choose|i: int|
                0 <= i < first.len() && branch(#[trigger] element_reach(first[i]@));
            assert(all[i] == first[i]);
            assert(branch(element_reach(all[i]@)));
        }
        if some_element(second, second.len() as int, branch) {
            let i = choose|i: int|
                0 <= i < second.len() && branch(#[trigger] element_reach(second[i]@));
            assert(all[first.len() + i] == second[i]);
            assert(branch(element_reach(all[first.len() + i]@)));
        }
        if some_element(all, all.len() as int, branch) {
            let i = choose|i: int| 0 <= i < all.len() && branch(#[trigger] element_reach(all[i]@));
            if i < first.len() {
                assert(branch(element_reach(first[i]@)));
            } else {
                assert(branch(element_reach(second[i - first.len()]@)));
            }
        }
    }
}

/// What is observed of an element that holds a flag for each of its groups and
/// timeslots: a sinusoid or an interleaving exactly when some flag for it is set
/// in some channel, a variable framing when some channel has one, and a balance
/// when the pair is balanced.
pub proof fn lemma_what_is_observed(data: DataView)
    requires
        data.channels == 1 || data.channels == 2,
        forall|ch: int|
            0 <= ch < data.channels ==> {
                &&& (#[trigger] data.hfgen[ch]).add_harmonic.len() <= bands::group_count(
                    data.bands.master,
                )
                &&& data.hfgen[ch].fic.len() <= bands::group_count(data.bands.master)
                &&& data.hfgen[ch].tic.len() <= 16
            },
    ensures
        element_reach(data).add_harmonic <==> exists|ch: int, i: int|
            0 <= ch < data.channels && 0 <= i < data.hfgen[ch].add_harmonic.len()
                && #[trigger] data.hfgen[ch].add_harmonic[i],
        element_reach(data).interleaved <==> {
            ||| exists|ch: int, i: int|
                0 <= ch < data.channels && 0 <= i < data.hfgen[ch].fic.len()
                    && #[trigger] data.hfgen[ch].fic[i]
            ||| exists|ch: int, i: int|
                0 <= ch < data.channels && 0 <= i < data.hfgen[ch].tic.len()
                    && #[trigger] data.hfgen[ch].tic[i]
        },
        element_reach(data).variable_framing <==> exists|ch: int|
            0 <= ch < data.channels && (#[trigger] data.framing[ch]).params.int_class
                != IntervalClass::FixFix,
        element_reach(data).balance <==> data.balance == Some(true),
{
    let groups = bands::group_count(data.bands.master);
    let reach = element_reach(data);
    if exists|ch: int, i: int|
        0 <= ch < data.channels && 0 <= i < data.hfgen[ch].add_harmonic.len()
            && #[trigger] data.hfgen[ch].add_harmonic[i] {
        let (ch, i) = choose|ch: int, i: int|
            0 <= ch < data.channels && 0 <= i < data.hfgen[ch].add_harmonic.len()
                && #[trigger] data.hfgen[ch].add_harmonic[i];
        assert(data.hfgen[ch].add_harmonic.len() <= groups);
        assert(has_channel(data, ch));
        assert(some_set(data.hfgen[ch].add_harmonic, groups));
    }
    if reach.add_harmonic {
        let ch = choose|ch: int| #[trigger]
            has_channel(data, ch) && some_set(data.hfgen[ch].add_harmonic, groups);
        let i = choose|i: int|
            0 <= i < groups && i < data.hfgen[ch].add_harmonic.len()
                && #[trigger] data.hfgen[ch].add_harmonic[i];
        assert(data.hfgen[ch].add_harmonic[i]);
    }
    if exists|ch: int, i: int|
        0 <= ch < data.channels && 0 <= i < data.hfgen[ch].fic.len()
            && #[trigger] data.hfgen[ch].fic[i] {
        let (ch, i) = choose|ch: int, i: int|
            0 <= ch < data.channels && 0 <= i < data.hfgen[ch].fic.len()
                && #[trigger] data.hfgen[ch].fic[i];
        assert(data.hfgen[ch].fic.len() <= groups);
        assert(has_channel(data, ch));
        assert(some_set(data.hfgen[ch].fic, groups));
        assert(channel_interleaved(data.hfgen[ch], groups));
    }
    if exists|ch: int, i: int|
        0 <= ch < data.channels && 0 <= i < data.hfgen[ch].tic.len()
            && #[trigger] data.hfgen[ch].tic[i] {
        let (ch, i) = choose|ch: int, i: int|
            0 <= ch < data.channels && 0 <= i < data.hfgen[ch].tic.len()
                && #[trigger] data.hfgen[ch].tic[i];
        assert(data.hfgen[ch].tic.len() <= 16);
        assert(has_channel(data, ch));
        assert(some_set(data.hfgen[ch].tic, MAX_ASPX_TIMESLOTS as int));
        assert(channel_interleaved(data.hfgen[ch], groups));
    }
    if reach.interleaved {
        let ch = choose|ch: int| #[trigger]
            has_channel(data, ch) && channel_interleaved(data.hfgen[ch], groups);
        if some_set(data.hfgen[ch].fic, groups) {
            let i = choose|i: int|
                0 <= i < groups && i < data.hfgen[ch].fic.len()
                    && #[trigger] data.hfgen[ch].fic[i];
            assert(data.hfgen[ch].fic[i]);
        } else {
            let i = choose|i: int|
                0 <= i < MAX_ASPX_TIMESLOTS as int && i < data.hfgen[ch].tic.len()
                    && #[trigger] data.hfgen[ch].tic[i];
            assert(data.hfgen[ch].tic[i]);
        }
    }
    if exists|ch: int|
        0 <= ch < data.channels && (#[trigger] data.framing[ch]).params.int_class
            != IntervalClass::FixFix {
        let ch = choose|ch: int|
            0 <= ch < data.channels && (#[trigger] data.framing[ch]).params.int_class
                != IntervalClass::FixFix;
        assert(has_channel(data, ch));
    }
    if reach.variable_framing {
        let ch = choose|ch: int| #[trigger]
            has_channel(data, ch) && data.framing[ch].params.int_class != IntervalClass::FixFix;
        assert(data.framing[ch].params.int_class != IntervalClass::FixFix);
    }
}

/// What is observed of several elements is what is observed of any of them.
pub proof fn lemma_any_element_is_observed(elements: Seq<AspxData>, index: int)
    requires
        0 <= index < elements.len(),
    ensures
        ({
            let one = element_reach(elements[index]@);
            let all = elements_reach(elements, elements.len() as int);
            &&& one.add_harmonic ==> all.add_harmonic
            &&& one.interleaved ==> all.interleaved
            &&& one.variable_framing ==> all.variable_framing
            &&& one.balance ==> all.balance
        }),
        elements_reach(elements, 0) == ReachView::none(),
{
    assert(element_reach(elements[index]@) == element_reach(elements[index]@));
}

} // verus!
