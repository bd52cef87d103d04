//! User-defined intervals: named regions of code, entered at a start address
//! and left at an end address.
//!
//! The registry keeps the definitions in a list and refers to them by index
//! from two tables: the definitions that start at an address, and those that
//! end there. Whether a definition is open, and since when, is the only part
//! that changes once the registry is built.

use std::collections::HashMap;
use vstd::prelude::*;
use vstd::std_specs::hash::*;
use crate::profiling::{TraceEvent, TraceEventView, duration_event, events_view};

verus! {

/// A definition: the name its events carry and the lane they go to.
#[derive(Debug, Clone, PartialEq, Eq)]
pub struct IntervalInfo {
    pub name: String,
    pub tid: u32,
}

/// A definition with its state, as plain values. `reached_at` is the cycle
/// at which the interval was opened, or `None` while it is closed.
pub struct IntervalInfoView {
    pub name: Seq<char>,
    pub tid: u32,
    pub reached_at: Option<u64>,
}

/// The registry of intervals.
#[derive(Debug, Clone)]
pub struct Intervals {
    intervals_info: Vec<IntervalInfo>,
    reached_at: Vec<Option<u64>>,
    starts: HashMap<u32, Vec<usize>>,
    ends: HashMap<u32, Vec<usize>>,
    addresses: Vec<u32>,
}

/// A registry, as plain values.
pub struct IntervalsView {
    pub infos: Seq<IntervalInfoView>,
    pub starts: Map<u32, Seq<usize>>,
    pub ends: Map<u32, Seq<usize>>,
}

/// `infos` with the definition at `index` closed.
pub open spec fn close_one(infos: Seq<IntervalInfoView>, index: int) -> Seq<IntervalInfoView> {
    infos.update(
        index,
        IntervalInfoView { name: infos[index].name, tid: infos[index].tid, reached_at: None },
    )
}

/// `infos` with the definition at `index` opened at `cycle`, unless it is
/// open already.
pub open spec fn open_one(infos: Seq<IntervalInfoView>, index: int, cycle: u64) -> Seq<
    IntervalInfoView,
> {
    if infos[index].reached_at is None {
        infos.update(
            index,
            IntervalInfoView {
                name: infos[index].name,
                tid: infos[index].tid,
                reached_at: Some(cycle),
            },
        )
    } else {
        infos
    }
}

/// The event for closing, at `cycle`, an interval that is open since `since`.
pub open spec fn interval_event(info: IntervalInfoView, since: u64, cycle: u64) -> TraceEventView {
    duration_event(info.name, since, (cycle - since) as u64, info.tid)
}

/// The definitions after those at `indices` were closed, one after another.
pub open spec fn after_closing(infos: Seq<IntervalInfoView>, indices: Seq<usize>) -> Seq<
    IntervalInfoView,
>
    decreases indices.len(),
{
    if indices.len() == 0 {
        infos
    } else {
        close_one(after_closing(infos, indices.drop_last()), indices.last() as int)
    }
}

/// The events of closing the definitions at `indices` at `cycle`, one after
/// another: one event for each that was open when its turn came.
pub open spec fn closing_events(
    infos: Seq<IntervalInfoView>,
    indices: Seq<usize>,
    cycle: u64,
) -> Seq<TraceEventView>
    decreases indices.len(),
{
    if indices.len() == 0 {
        Seq::empty()
    } else {
        let before = after_closing(infos, indices.drop_last());
        let events = closing_events(infos, indices.drop_last(), cycle);
        let info = before[indices.last() as int];
        match info.reached_at {
            Some(since) => events.push(interval_event(info, since, cycle)),
            None => events,
        }
    }
}

/// The definitions after those at `indices` were opened at `cycle`, one
/// after another.
pub open spec fn after_opening(
    infos: Seq<IntervalInfoView>,
    indices: Seq<usize>,
    cycle: u64,
) -> Seq<IntervalInfoView>
    decreases indices.len(),
{
    if indices.len() == 0 {
        infos
    } else {
        open_one(after_opening(infos, indices.drop_last(), cycle), indices.last() as int, cycle)
    }
}

/// Every index in `indices` is below `len`.
pub open spec fn indices_below(indices: Seq<usize>, len: nat) -> bool {
    forall|k: int| 0 <= k < indices.len() ==> #[trigger] indices[k] < len
}

/// None of the definitions at `indices` is open since a cycle after `cycle`.
pub open spec fn closable_at(infos: Seq<IntervalInfoView>, indices: Seq<usize>, cycle: u64) -> bool {
    forall|j: int|
        0 <= j < indices.len() ==> match infos[(#[trigger] indices[j]) as int].reached_at {
            Some(since) => since <= cycle,
            None => true,
        }
}

impl IntervalsView {
    /// The definitions that start at `pc`, in the order they were added.
    pub open spec fn starts_at(self, pc: u32) -> Seq<usize> {
        if self.starts.contains_key(pc) {
            self.starts[pc]
        } else {
            Seq::empty()
        }
    }

    /// The definitions that end at `pc`, in the order they were added.
    pub open spec fn ends_at(self, pc: u32) -> Seq<usize> {
        if self.ends.contains_key(pc) {
            self.ends[pc]
        } else {
            Seq::empty()
        }
    }

    /// Every table entry refers to a definition.
    pub open spec fn wf(self) -> bool {
        &&& forall|pc: u32| #[trigger]
            self.starts.contains_key(pc) ==> indices_below(self.starts[pc], self.infos.len())
        &&& forall|pc: u32| #[trigger]
            self.ends.contains_key(pc) ==> indices_below(self.ends[pc], self.infos.len())
    }

    /// No interval that ends at `pc` is open since a cycle after `cycle`:
    /// the breakpoint at `pc` can be hit at `cycle`.
    pub open spec fn can_close(self, pc: u32, cycle: u64) -> bool {
        closable_at(self.infos, self.ends_at(pc), cycle)
    }

    /// Every interval is closed.
    pub open spec fn all_closed(self) -> bool {
        forall|k: int| 0 <= k < self.infos.len() ==> (#[trigger] self.infos[k]).reached_at is None
    }

    /// The registry after the breakpoint at `pc` was hit at `cycle`: first
    /// the intervals that end there are closed, then those that start there
    /// are opened.
    pub open spec fn reach(self, pc: u32, cycle: u64) -> IntervalsView {
        IntervalsView {
            infos: after_opening(
                after_closing(self.infos, self.ends_at(pc)),
                self.starts_at(pc),
                cycle,
            ),
            starts: self.starts,
            ends: self.ends,
        }
    }

    /// The events of hitting the breakpoint at `pc` at `cycle`.
    pub open spec fn reach_events(self, pc: u32, cycle: u64) -> Seq<TraceEventView> {
        closing_events(self.infos, self.ends_at(pc), cycle)
    }
}

/// The definitions and their states, side by side.
pub open spec fn infos_view(infos: Seq<IntervalInfo>, reached_at: Seq<Option<u64>>) -> Seq<
    IntervalInfoView,
> {
    Seq::new(
        infos.len(),
        |k: int|
            IntervalInfoView {
                name: infos[k].name@,
                tid: infos[k].tid,
                reached_at: reached_at[k],
            },
    )
}

/// A table of index lists, as plain values.
pub open spec fn table_view(table: Map<u32, Vec<usize>>) -> Map<u32, Seq<usize>> {
    table.map_values(|list: Vec<usize>| list@)
}

/// Whether `indices` holds the index `k`.
pub open spec fn mentions(indices: Seq<usize>, k: int) -> bool {
    exists|j: int| 0 <= j < indices.len() && #[trigger] indices[j] as int == k
}

/// A non-empty list holds an index if its front does or its last element is
/// that index.
proof fn lemma_mentions_last(indices: Seq<usize>)
    requires
        indices.len() > 0,
    ensures
        forall|k: int| #[trigger]
            mentions(indices, k) == (mentions(indices.drop_last(), k) || indices.last() as int
                == k),
{
    let front = indices.drop_last();
    assert forall|k: int| #[trigger]
        mentions(indices, k) == (mentions(front, k) || indices.last() as int == k) by {
        if mentions(front, k) {
            let j = choose|j: int| 0 <= j < front.len() && #[trigger] front[j] as int == k;
            assert(indices[j] as int == k);
        }
        if indices.last() as int == k {
            assert(indices[indices.len() - 1] as int == k);
        }
        if mentions(indices, k) {
            let j = choose|j: int| 0 <= j < indices.len() && #[trigger] indices[j] as int == k;
            if j < front.len() {
                assert(front[j] as int == k);
            }
        }
    }
}

/// Closing changes no name, no lane and not the number of definitions; it
/// closes the definitions among `indices` and leaves every other state as
/// it was.
pub proof fn lemma_closing_keeps_definitions(infos: Seq<IntervalInfoView>, indices: Seq<usize>)
    requires
        indices_below(indices, infos.len()),
    ensures
        after_closing(infos, indices).len() == infos.len(),
        forall|k: int|
            0 <= k < infos.len() ==> {
                &&& (#[trigger] after_closing(infos, indices)[k]).name == infos[k].name
                &&& after_closing(infos, indices)[k].tid == infos[k].tid
                &&& after_closing(infos, indices)[k].reached_at == if mentions(indices, k) {
                    None
                } else {
                    infos[k].reached_at
                }
            },
    decreases indices.len(),
{
    if indices.len() > 0 {
        let front = indices.drop_last();
        lemma_closing_keeps_definitions(infos, front);
        lemma_mentions_last(indices);
    }
}

/// Opening changes no name, no lane and not the number of definitions; it
/// opens at `cycle` the closed definitions among `indices` and leaves every
/// other state as it was.
pub proof fn lemma_opening_keeps_definitions(
    infos: Seq<IntervalInfoView>,
    indices: Seq<usize>,
    cycle: u64,
)
    requires
        indices_below(indices, infos.len()),
    ensures
        after_opening(infos, indices, cycle).len() == infos.len(),
        forall|k: int|
            0 <= k < infos.len() ==> {
                &&& (#[trigger] after_opening(infos, indices, cycle)[k]).name == infos[k].name
                &&& after_opening(infos, indices, cycle)[k].tid == infos[k].tid
                &&& after_opening(infos, indices, cycle)[k].reached_at == if mentions(indices, k)
                    && infos[k].reached_at is None {
                    Some(cycle)
                } else {
                    infos[k].reached_at
                }
            },
    decreases indices.len(),
{
    if indices.len() > 0 {
        let front = indices.drop_last();
        lemma_opening_keeps_definitions(infos, front, cycle);
        lemma_mentions_last(indices);
    }
}

/// The event of the step at place `j` of closing the definitions at
/// `indices`: that of the definition whose turn it is, if it is still open
/// then.
pub open spec fn closing_event_at(
    infos: Seq<IntervalInfoView>,
    indices: Seq<usize>,
    cycle: u64,
    j: int,
) -> Option<TraceEventView> {
    let info = after_closing(infos, indices.take(j))[indices[j] as int];
    match info.reached_at {
        Some(since) => Some(interval_event(info, since, cycle)),
        None => None,
    }
}

/// The events of closing are those of its steps, in the order of the steps.
pub proof fn lemma_closing_events_by_step(
    infos: Seq<IntervalInfoView>,
    indices: Seq<usize>,
    cycle: u64,
    j: int,
)
    requires
        0 <= j < indices.len(),
    ensures
        closing_events(infos, indices.take(j + 1), cycle) == closing_events(
            infos,
            indices.take(j),
            cycle,
        ) + match closing_event_at(infos, indices, cycle, j) {
            Some(event) => seq![event],
            None => Seq::empty(),
        },
{
    let upto = indices.take(j + 1);
    assert(upto.drop_last() =~= indices.take(j));
    assert(upto.last() == indices[j]);
    let front = closing_events(infos, indices.take(j), cycle);
    match closing_event_at(infos, indices, cycle, j) {
        Some(event) => {
            assert(front.push(event) =~= front + seq![event]);
        },
        None => {
            assert(front =~= front + Seq::<TraceEventView>::empty());
        },
    }
}

/// An interval that was hit at its start twice, at `first` and then at
/// `second`, is open since `first`. The hit at one of its ends that follows
/// yields one event for it, from `first` to the cycle of that hit, at the
/// first step that is its turn, whatever other intervals end there; and it
/// leaves the interval closed.
pub proof fn lemma_repeated_start_yields_one_event(
    registry: IntervalsView,
    start_pc: u32,
    end_pc: u32,
    k: int,
    first: u64,
    second: u64,
    end_cycle: u64,
)
    requires
        registry.wf(),
        0 <= k < registry.infos.len(),
        registry.infos[k].reached_at is None,
        mentions(registry.starts_at(start_pc), k),
        !mentions(registry.ends_at(start_pc), k),
        mentions(registry.ends_at(end_pc), k),
        !mentions(registry.starts_at(end_pc), k),
    ensures
        registry.reach(start_pc, first).reach(start_pc, second).infos[k].reached_at == Some(first),
        forall|j: int|
            0 <= j < registry.ends_at(end_pc).len() && (#[trigger] registry.ends_at(end_pc)[j]) as int
                == k ==> closing_event_at(
                registry.reach(start_pc, first).reach(start_pc, second).infos,
                registry.ends_at(end_pc),
                end_cycle,
                j,
            ) == if mentions(registry.ends_at(end_pc).take(j), k) {
                None
            } else {
                Some(interval_event(registry.infos[k], first, end_cycle))
            },
        registry.reach(start_pc, first).reach(start_pc, second).reach(
            end_pc,
            end_cycle,
        ).infos[k].reached_at is None,
{
    let once = registry.reach(start_pc, first);
    let twice = once.reach(start_pc, second);
    lemma_reach_state(registry, start_pc, first, k);
    lemma_reach_state(once, start_pc, second, k);
    lemma_reach_state(twice, end_pc, end_cycle, k);
    let indices = registry.ends_at(end_pc);
    assert(registry.ends.contains_key(end_pc));
    assert(indices_below(indices, registry.infos.len()));
    assert forall|j: int| 0 <= j < indices.len() && (#[trigger] indices[j]) as int
        == k implies closing_event_at(twice.infos, indices, end_cycle, j) == if mentions(
        indices.take(j),
        k,
    ) {
        None
    } else {
        Some(interval_event(registry.infos[k], first, end_cycle))
    } by {
        let front = indices.take(j);
        assert forall|m: int| 0 <= m < front.len() implies #[trigger] front[m]
            < twice.infos.len() by {
            assert(front[m] == indices[m]);
        }
        lemma_closing_keeps_definitions(twice.infos, front);
    }
}

impl View for Intervals {
    type V = IntervalsView;

    closed spec fn view(&self) -> IntervalsView {
        IntervalsView {
            infos: infos_view(self.intervals_info@, self.reached_at@),
            starts: table_view(self.starts@),
            ends: table_view(self.ends@),
        }
    }
}

/// Appends `index` to the list that `table` holds for `address`.
fn push_index(table: &mut HashMap<u32, Vec<usize>>, address: u32, index: usize)
    ensures
        table_view(final(table)@) == table_view(old(table)@).insert(
            address,
            (if old(table)@.contains_key(address) {
                old(table)@[address]@
            } else {
                Seq::empty()
            }).push(index),
        ),
        final(table)@.dom() == old(table)@.dom().insert(address),
{
    broadcast use group_hash_axioms;

    let mut list: Vec<usize> = match table.remove(&address) {
        Some(found) => found,
        None => Vec::new(),
    };
    list.push(index);
    table.insert(address, list);
    assert(table_view(table@) =~= table_view(old(table)@).insert(
        address,
        (if old(table)@.contains_key(address) {
            old(table)@[address]@
        } else {
            Seq::empty()
        }).push(index),
    ));
    assert(table@.dom() =~= old(table)@.dom().insert(address));
}

/// Closes the definitions at `indices`, one after another, and appends an
/// event for each that was open.
fn close_all(
    infos: &Vec<IntervalInfo>,
    reached_at: &mut Vec<Option<u64>>,
    indices: &Vec<usize>,
    trace_events: &mut Vec<TraceEvent>,
    cycle: u64,
)
    requires
        old(reached_at)@.len() == infos@.len(),
        indices_below(indices@, infos@.len()),
        closable_at(infos_view(infos@, old(reached_at)@), indices@, cycle),
    ensures
        final(reached_at)@.len() == infos@.len(),
        infos_view(infos@, final(reached_at)@) == after_closing(
            infos_view(infos@, old(reached_at)@),
            indices@,
        ),
        events_view(final(trace_events)@) == events_view(old(trace_events)@) + closing_events(
            infos_view(infos@, old(reached_at)@),
            indices@,
            cycle,
        ),
        old(trace_events)@.is_prefix_of(final(trace_events)@),
{
    let ghost first = infos_view(infos@, reached_at@);
    let ghost events_before = events_view(trace_events@);
    let ghost kept = trace_events@;
    proof {
        assert(kept.subrange(0, kept.len() as int) =~= kept);
    }
    let mut j: usize = 0;
    proof {
        assert(indices@.take(0) =~= Seq::<usize>::empty());
        assert(events_before + Seq::<TraceEventView>::empty() =~= events_before);
    }
    while j < indices.len()
        invariant
            j <= indices.len(),
            reached_at@.len() == infos@.len(),
            indices_below(indices@, infos@.len()),
            infos_view(infos@, reached_at@) == after_closing(first, indices@.take(j as int)),
            events_view(trace_events@) == events_before + closing_events(
                first,
                indices@.take(j as int),
                cycle,
            ),
            closable_at(infos_view(infos@, reached_at@), indices@, cycle),
            kept.is_prefix_of(trace_events@),
        decreases indices.len() - j,
    {
        let k: usize = indices[j];
        let ghost current = infos_view(infos@, reached_at@);
        let ghost events_now = events_view(trace_events@);
        let ghost held = trace_events@;
        proof {
            assert(indices@.take(j + 1).drop_last() =~= indices@.take(j as int));
            assert(indices@.take(j + 1).last() == k);
            assert(k < infos@.len());
            assert(current[indices@[j as int] as int].reached_at == reached_at@[k as int]);
        }
        match reached_at[k] {
            Some(since) => {
                let event = TraceEvent::duration(
                    infos[k].name.clone(),
                    since,
                    cycle - since,
                    infos[k].tid,
                );
                trace_events.push(event);
                reached_at.set(k, None);
                proof {
                    assert(events_view(trace_events@) =~= events_now.push(
                        interval_event(current[k as int], since, cycle),
                    ));
                    assert(trace_events@.subrange(0, kept.len() as int) =~= held.subrange(
                        0,
                        kept.len() as int,
                    ));
                }
            },
            None => {},
        }
        proof {
            assert(infos_view(infos@, reached_at@) =~= close_one(current, k as int));
            assert(events_view(trace_events@) =~= events_before + closing_events(
                first,
                indices@.take(j + 1),
                cycle,
            ));
        }
        j = j + 1;
    }
    proof {
        assert(indices@.take(indices@.len() as int) =~= indices@);
    }
}

/// Opens at `cycle` the definitions at `indices` that are closed, one after
/// another.
fn open_all(
    infos: &Vec<IntervalInfo>,
    reached_at: &mut Vec<Option<u64>>,
    indices: &Vec<usize>,
    cycle: u64,
)
    requires
        old(reached_at)@.len() == infos@.len(),
        indices_below(indices@, infos@.len()),
    ensures
        final(reached_at)@.len() == infos@.len(),
        infos_view(infos@, final(reached_at)@) == after_opening(
            infos_view(infos@, old(reached_at)@),
            indices@,
            cycle,
        ),
{
    let ghost first = infos_view(infos@, reached_at@);
    let mut j: usize = 0;
    proof {
        assert(indices@.take(0) =~= Seq::<usize>::empty());
    }
    while j < indices.len()
        invariant
            j <= indices.len(),
            reached_at@.len() == infos@.len(),
            indices_below(indices@, infos@.len()),
            infos_view(infos@, reached_at@) == after_opening(first, indices@.take(j as int), cycle),
        decreases indices.len() - j,
    {
        let k: usize = indices[j];
        let ghost current = infos_view(infos@, reached_at@);
        proof {
            assert(indices@.take(j + 1).drop_last() =~= indices@.take(j as int));
            assert(indices@.take(j + 1).last() == k);
            assert(k < infos@.len());
            assert(current[k as int].reached_at == reached_at@[k as int]);
        }
        if reached_at[k].is_none() {
            reached_at.set(k, Some(cycle));
        }
        proof {
            assert(infos_view(infos@, reached_at@) =~= open_one(current, k as int, cycle));
        }
        j = j + 1;
    }
    proof {
        assert(indices@.take(indices@.len() as int) =~= indices@);
    }
}

/// Appending a value that a list without duplicates lacks keeps it without
/// duplicates, and adds that value and no other.
proof fn lemma_push_new(list: Seq<u32>, value: u32)
    ensures
        forall|a: u32| #[trigger]
            list.push(value).contains(a) <==> (list.contains(a) || a == value),
        list.no_duplicates() && !list.contains(value) ==> list.push(value).no_duplicates(),
{
    let longer = list.push(value);
    assert forall|a: u32| #[trigger] longer.contains(a) <==> (list.contains(a) || a == value) by {
        if list.contains(a) {
            let j = choose|j: int| 0 <= j < list.len() && list[j] == a;
            assert(longer[j] == a);
        }
        if a == value {
            assert(longer[list.len() as int] == a);
        }
    }
}

impl Default for Intervals {
    fn default() -> (registry: Intervals)
        ensures
            registry.wf(),
            registry@.infos == Seq::<IntervalInfoView>::empty(),
            registry@.starts == Map::<u32, Seq<usize>>::empty(),
            registry@.ends == Map::<u32, Seq<usize>>::empty(),
    {
        Intervals::new()
    }
}

impl Intervals {
    /// The registry is consistent: every table entry refers to a definition,
    /// and the list of addresses holds each address of the tables once.
    pub closed spec fn wf(&self) -> bool {
        &&& self.reached_at@.len() == self.intervals_info@.len()
        &&& self@.wf()
        &&& self.addresses@.no_duplicates()
        &&& forall|a: u32|
            self.addresses@.contains(a) <==> (self.starts@.contains_key(a)
                || self.ends@.contains_key(a))
    }

    /// A consistent registry has a consistent view.
    pub proof fn lemma_wf_view(&self)
        requires
            self.wf(),
        ensures
            self@.wf(),
    {
    }

    /// The registry without definitions.
    pub fn new() -> (registry: Intervals)
        ensures
            registry.wf(),
            registry@.infos == Seq::<IntervalInfoView>::empty(),
            registry@.starts == Map::<u32, Seq<usize>>::empty(),
            registry@.ends == Map::<u32, Seq<usize>>::empty(),
    {
        broadcast use group_hash_axioms;

        let registry = Intervals {
            intervals_info: Vec::new(),
            reached_at: Vec::new(),
            starts: HashMap::new(),
            ends: HashMap::new(),
            addresses: Vec::new(),
        };
        assert(registry@.infos =~= Seq::<IntervalInfoView>::empty());
        assert(registry@.starts =~= Map::<u32, Seq<usize>>::empty());
        assert(registry@.ends =~= Map::<u32, Seq<usize>>::empty());
        registry
    }

    /// Number of definitions.
    pub fn len(&self) -> (n: usize)
        requires
            self.wf(),
        ensures
            n == self@.infos.len(),
    {
        self.intervals_info.len()
    }

    /// Adds a definition, closed, and returns its index.
    pub fn add_interval(&mut self, name: String, tid: u32) -> (index: usize)
        requires
            old(self).wf(),
        ensures
            final(self).wf(),
            index == old(self)@.infos.len(),
            final(self)@.infos == old(self)@.infos.push(
                IntervalInfoView { name: name@, tid, reached_at: None },
            ),
            final(self)@.starts == old(self)@.starts,
            final(self)@.ends == old(self)@.ends,
    {
        let index: usize = self.intervals_info.len();
        self.intervals_info.push(IntervalInfo { name, tid });
        self.reached_at.push(None);
        proof {
            assert(self@.infos =~= old(self)@.infos.push(
                IntervalInfoView { name: name@, tid, reached_at: None },
            ));
            assert(self@.starts == old(self)@.starts);
            assert(self@.ends == old(self)@.ends);
            assert forall|pc: u32| #[trigger] self@.starts.contains_key(pc) implies indices_below(
                self@.starts[pc],
                self@.infos.len(),
            ) by {
                assert(indices_below(old(self)@.starts[pc], old(self)@.infos.len()));
            }
            assert forall|pc: u32| #[trigger] self@.ends.contains_key(pc) implies indices_below(
                self@.ends[pc],
                self@.infos.len(),
            ) by {
                assert(indices_below(old(self)@.ends[pc], old(self)@.infos.len()));
            }
        }
        index
    }

    /// Lets the definition at `index` start at `address`.
    pub fn add_start(&mut self, address: u32, index: usize)
        requires
            old(self).wf(),
            index < old(self)@.infos.len(),
        ensures
            final(self).wf(),
            final(self)@.infos == old(self)@.infos,
            final(self)@.starts == old(self)@.starts.insert(
                address,
                old(self)@.starts_at(address).push(index),
            ),
            final(self)@.ends == old(self)@.ends,
    {
        broadcast use group_hash_axioms;

        let known: bool = self.starts.contains_key(&address) || self.ends.contains_key(&address);
        push_index(&mut self.starts, address, index);
        if !known {
            self.addresses.push(address);
        }
        proof {
            lemma_push_new(old(self).addresses@, address);
            assert(self@.starts =~= old(self)@.starts.insert(
                address,
                old(self)@.starts_at(address).push(index),
            ));
            assert(self@.ends == old(self)@.ends);
            assert(self@.infos == old(self)@.infos);
            assert forall|pc: u32| #[trigger] self@.starts.contains_key(pc) implies indices_below(
                self@.starts[pc],
                self@.infos.len(),
            ) by {
                if pc != address {
                    assert(old(self)@.starts.contains_key(pc));
                    assert(indices_below(old(self)@.starts[pc], old(self)@.infos.len()));
                } else if old(self)@.starts.contains_key(pc) {
                    assert(indices_below(old(self)@.starts[pc], old(self)@.infos.len()));
                }
            }
            assert forall|pc: u32| #[trigger] self@.ends.contains_key(pc) implies indices_below(
                self@.ends[pc],
                self@.infos.len(),
            ) by {
                assert(indices_below(old(self)@.ends[pc], old(self)@.infos.len()));
            }
            assert(self@.wf());
        }
    }

    /// Lets the definition at `index` end at `address`.
    pub fn add_end(&mut self, address: u32, index: usize)
        requires
            old(self).wf(),
            index < old(self)@.infos.len(),
        ensures
            final(self).wf(),
            final(self)@.infos == old(self)@.infos,
            final(self)@.starts == old(self)@.starts,
            final(self)@.ends == old(self)@.ends.insert(
                address,
                old(self)@.ends_at(address).push(index),
            ),
    {
        broadcast use group_hash_axioms;

        let known: bool = self.starts.contains_key(&address) || self.ends.contains_key(&address);
        push_index(&mut self.ends, address, index);
        if !known {
            self.addresses.push(address);
        }
        proof {
            lemma_push_new(old(self).addresses@, address);
            assert(self@.ends =~= old(self)@.ends.insert(
                address,
                old(self)@.ends_at(address).push(index),
            ));
            assert(self@.starts == old(self)@.starts);
            assert(self@.infos == old(self)@.infos);
            assert forall|pc: u32| #[trigger] self@.ends.contains_key(pc) implies indices_below(
                self@.ends[pc],
                self@.infos.len(),
            ) by {
                if pc != address {
                    assert(old(self)@.ends.contains_key(pc));
                    assert(indices_below(old(self)@.ends[pc], old(self)@.infos.len()));
                } else if old(self)@.ends.contains_key(pc) {
                    assert(indices_below(old(self)@.ends[pc], old(self)@.infos.len()));
                }
            }
            assert forall|pc: u32| #[trigger] self@.starts.contains_key(pc) implies indices_below(
                self@.starts[pc],
                self@.infos.len(),
            ) by {
                assert(indices_below(old(self)@.starts[pc], old(self)@.infos.len()));
            }
            assert(self@.wf());
        }
    }

    /// The addresses at which a definition starts or ends, each once.
    pub fn addresses(&self) -> (addresses: &Vec<u32>)
        requires
            self.wf(),
        ensures
            addresses@.no_duplicates(),
            forall|a: u32|
                addresses@.contains(a) <==> (self@.starts.contains_key(a)
                    || self@.ends.contains_key(a)),
    {
        &self.addresses
    }

    /// Whether the breakpoint at `pc` can be hit at `cycle`: no interval
    /// that ends at `pc` is open since a later cycle.
    pub fn can_close(&self, pc: u32, cycle: u64) -> (yes: bool)
        requires
            self.wf(),
        ensures
            yes == self@.can_close(pc, cycle),
    {
        broadcast use group_hash_axioms;

        match self.ends.get(&pc) {
            Some(indices) => {
                proof {
                    assert(self@.ends.contains_key(pc));
                    assert(self@.ends[pc] == indices@);
                }
                let mut j: usize = 0;
                while j < indices.len()
                    invariant
                        j <= indices@.len(),
                        self.wf(),
                        indices@ == self@.ends_at(pc),
                        indices_below(indices@, self@.infos.len()),
                        closable_at(self@.infos, indices@.take(j as int), cycle),
                    decreases indices.len() - j,
                {
                    let k: usize = indices[j];
                    proof {
                        assert(k < self@.infos.len());
                        assert(self@.infos[k as int].reached_at == self.reached_at@[k as int]);
                    }
                    match self.reached_at[k] {
                        Some(since) => {
                            if since > cycle {
                                return false;
                            }
                        },
                        None => {},
                    }
                    proof {
                        assert forall|m: int| 0 <= m < j + 1 implies match self@.infos[(
                        #[trigger] indices@.take(j + 1)[m]) as int].reached_at {
                            Some(since) => since <= cycle,
                            None => true,
                        } by {
                            if m < j {
                                assert(indices@.take(j as int)[m] == indices@[m]);
                            }
                        }
                    }
                    j = j + 1;
                }
                proof {
                    assert(indices@.take(indices@.len() as int) =~= indices@);
                }
                true
            },
            None => true,
        }
    }

    /// Records that the breakpoint at `pc` was hit at `cycle`.
    ///
    /// Every open interval that ends at `pc` is closed, and an event from
    /// its opening to `cycle` is appended to `trace_events`. Then every
    /// closed interval that starts at `pc` is opened at `cycle`. An interval
    /// that is open already keeps the cycle of its first opening.
    ///
    /// No interval that ends at `pc` may be open since a cycle after
    /// `cycle`. Where none of them is open at all, no event is appended.
    pub fn reach(&mut self, pc: u32, trace_events: &mut Vec<TraceEvent>, cycle: u64)
        requires
            old(self).wf(),
            old(self)@.can_close(pc, cycle),
        ensures
            final(self).wf(),
            final(self)@ == old(self)@.reach(pc, cycle),
            events_view(final(trace_events)@) == events_view(old(trace_events)@) + old(
                self,
            )@.reach_events(pc, cycle),
            old(trace_events)@.is_prefix_of(final(trace_events)@),
            (forall|k: int| #[trigger]
                mentions(old(self)@.ends_at(pc), k) ==> old(self)@.infos[k].reached_at is None)
                ==> final(trace_events)@ == old(trace_events)@,
    {
        broadcast use group_hash_axioms;

        let ghost events_before = events_view(trace_events@);
        let ghost before = self@;
        let ghost kept = trace_events@;
        proof {
            assert(kept.subrange(0, kept.len() as int) =~= kept);
        }
        match self.ends.get(&pc) {
            Some(indices) => {
                proof {
                    assert(before.ends.contains_key(pc));
                    assert(before.ends[pc] == indices@);
                }
                close_all(&self.intervals_info, &mut self.reached_at, indices, trace_events, cycle);
            },
            None => {
                proof {
                    assert(!before.ends.contains_key(pc));
                    assert(events_before + Seq::<TraceEventView>::empty() =~= events_before);
                }
            },
        }
        let ghost closed = self@;
        proof {
            assert(closed.infos == after_closing(before.infos, before.ends_at(pc)));
            assert(closed.starts == before.starts);
        }
        match self.starts.get(&pc) {
            Some(indices) => {
                proof {
                    assert(before.starts.contains_key(pc));
                    assert(before.starts[pc] == indices@);
                    assert(closed.infos.len() == before.infos.len());
                }
                open_all(&self.intervals_info, &mut self.reached_at, indices, cycle);
            },
            None => {
                proof {
                    assert(!before.starts.contains_key(pc));
                }
            },
        }
        proof {
            if forall|k: int| #[trigger]
                mentions(before.ends_at(pc), k) ==> before.infos[k].reached_at is None {
                lemma_end_hit_on_closed_is_silent(before, pc, cycle);
                assert(events_view(trace_events@).len() == events_view(kept).len());
                assert(trace_events@ =~= kept);
            }
            assert(self@.infos.len() == before.infos.len());
            assert(self@.starts == before.starts);
            assert(self@.ends == before.ends);
        }
    }
}

/// Closing intervals that are all closed already yields no event.
pub proof fn lemma_closing_closed_is_silent(
    infos: Seq<IntervalInfoView>,
    indices: Seq<usize>,
    cycle: u64,
)
    requires
        indices_below(indices, infos.len()),
        forall|k: int| #[trigger] mentions(indices, k) ==> infos[k].reached_at is None,
    ensures
        closing_events(infos, indices, cycle) == Seq::<TraceEventView>::empty(),
    decreases indices.len(),
{
    if indices.len() > 0 {
        let front = indices.drop_last();
        lemma_mentions_last(indices);
        assert forall|k: int| #[trigger] mentions(front, k) implies infos[k].reached_at is None by {
            assert(mentions(indices, k));
        }
        lemma_closing_closed_is_silent(infos, front, cycle);
        lemma_closing_keeps_definitions(infos, front);
        let k = indices.last() as int;
        assert(indices[indices.len() - 1] < infos.len());
        assert(mentions(indices, k));
    }
}

/// Hitting an end address while none of the intervals that end there is
/// open yields no event.
pub proof fn lemma_end_hit_on_closed_is_silent(registry: IntervalsView, pc: u32, cycle: u64)
    requires
        registry.wf(),
        forall|k: int| #[trigger]
            mentions(registry.ends_at(pc), k) ==> registry.infos[k].reached_at is None,
    ensures
        registry.reach_events(pc, cycle) == Seq::<TraceEventView>::empty(),
{
    lemma_closing_closed_is_silent(registry.infos, registry.ends_at(pc), cycle);
}

/// A hit changes no definition and keeps the registry consistent. The
/// interval `k` is afterwards open since `cycle` if it starts at `pc` and was
/// closed before the hit or ends at `pc`; closed if it only ends at `pc`;
/// and as it was otherwise.
pub proof fn lemma_reach_state(registry: IntervalsView, pc: u32, cycle: u64, k: int)
    requires
        registry.wf(),
        0 <= k < registry.infos.len(),
    ensures
        registry.reach(pc, cycle).wf(),
        registry.reach(pc, cycle).infos.len() == registry.infos.len(),
        registry.reach(pc, cycle).infos[k].name == registry.infos[k].name,
        registry.reach(pc, cycle).infos[k].tid == registry.infos[k].tid,
        registry.reach(pc, cycle).infos[k].reached_at == if mentions(registry.starts_at(pc), k) && (
        mentions(registry.ends_at(pc), k) || registry.infos[k].reached_at is None) {
            Some(cycle)
        } else if mentions(registry.ends_at(pc), k) {
            None
        } else {
            registry.infos[k].reached_at
        },
{
    let closed = after_closing(registry.infos, registry.ends_at(pc));
    lemma_closing_keeps_definitions(registry.infos, registry.ends_at(pc));
    lemma_opening_keeps_definitions(closed, registry.starts_at(pc), cycle);
}

/// Hitting a start address again before the interval has ended changes
/// nothing: the interval stays open since the first hit, and the end hit
/// that follows yields one event, timed from the first hit.
pub proof fn lemma_repeated_start_is_absorbed(
    registry: IntervalsView,
    start_pc: u32,
    end_pc: u32,
    k: usize,
    first: u64,
    second: u64,
    end_cycle: u64,
)
    requires
        registry.wf(),
        k < registry.infos.len(),
        registry.infos[k as int].reached_at is None,
        mentions(registry.starts_at(start_pc), k as int),
        !mentions(registry.ends_at(start_pc), k as int),
        registry.ends_at(end_pc) == seq![k],
    ensures
        registry.reach(start_pc, first).infos[k as int].reached_at == Some(first),
        registry.reach(start_pc, first).reach(start_pc, second).infos[k as int].reached_at == Some(
            first,
        ),
        registry.reach(start_pc, first).reach(start_pc, second).reach_events(end_pc, end_cycle)
            == seq![interval_event(registry.infos[k as int], first, end_cycle)],
{
    let once = registry.reach(start_pc, first);
    let twice = once.reach(start_pc, second);
    lemma_reach_state(registry, start_pc, first, k as int);
    lemma_reach_state(once, start_pc, second, k as int);
    let indices = seq![k];
    assert(twice.ends_at(end_pc) == indices);
    assert(indices.drop_last() =~= Seq::<usize>::empty());
    assert(indices.last() == k);
    assert(after_closing(twice.infos, indices.drop_last()) == twice.infos);
    assert(closing_events(twice.infos, indices.drop_last(), end_cycle) =~= Seq::<
        TraceEventView,
    >::empty());
    assert(closing_events(twice.infos, indices, end_cycle) =~= seq![
        interval_event(twice.infos[k as int], first, end_cycle),
    ]);
}

fn copy_indices(list: &Vec<usize>) -> (copy: Vec<usize>)
    ensures
        copy@ == list@,
{
    let mut copy: Vec<usize> = Vec::new();
    let mut i: usize = 0;
    while i < list.len()
        invariant
            i <= list@.len(),
            copy@ == list@.take(i as int),
        decreases list.len() - i,
    {
        copy.push(list[i]);
        proof {
            assert(copy@ =~= list@.take(i + 1));
        }
        i = i + 1;
    }
    proof {
        assert(list@.take(list@.len() as int) =~= list@);
    }
    copy
}

impl Intervals {
    /// The definition at `index`.
    pub fn info(&self, index: usize) -> (info: &IntervalInfo)
        requires
            self.wf(),
            index < self@.infos.len(),
        ensures
            info.name@ == self@.infos[index as int].name,
            info.tid == self@.infos[index as int].tid,
    {
        &self.intervals_info[index]
    }

    /// The cycle at which the interval at `index` was opened, or `None`
    /// while it is closed.
    pub fn opened_at(&self, index: usize) -> (since: Option<u64>)
        requires
            self.wf(),
            index < self@.infos.len(),
        ensures
            since == self@.infos[index as int].reached_at,
    {
        self.reached_at[index]
    }

    /// The definitions that start at `address`, in the order in which they
    /// were added.
    pub fn starts_at(&self, address: u32) -> (indices: Vec<usize>)
        ensures
            indices@ == self@.starts_at(address),
    {
        broadcast use group_hash_axioms;

        match self.starts.get(&address) {
            Some(list) => copy_indices(list),
            None => Vec::new(),
        }
    }

    /// The definitions that end at `address`, in the order in which they
    /// were added.
    pub fn ends_at(&self, address: u32) -> (indices: Vec<usize>)
        ensures
            indices@ == self@.ends_at(address),
    {
        broadcast use group_hash_axioms;

        match self.ends.get(&address) {
            Some(list) => copy_indices(list),
            None => Vec::new(),
        }
    }
}

} // verus!
