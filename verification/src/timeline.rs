//! From packets to the events of the timeline.
//!
//! The packets are walked once, in file order. A subroutine entry is paired
//! with the nearest later exit whose stack pointer shows that the frame was
//! left; an interrupt entry with the nearest later interrupt exit. An entry
//! without such an exit lasts until one cycle after the last packet.

use vstd::prelude::*;
use vstd::string::*;
use crate::interval_table::lanes_view;
use crate::intervals::{
    Intervals,
    IntervalsView,
    after_closing,
    indices_below,
    lemma_closing_keeps_definitions,
    lemma_opening_keeps_definitions,
    lemma_reach_state,
};
use crate::profiling::{
    INTERRUPT_LANE,
    MAIN_LANE,
    ParsedProfilingFile,
    ProfilingPacket,
    ProfilingPacketInner,
    TraceEvent,
    TraceEventArgs,
    TraceEventArgsView,
    TraceEventView,
    duration_event,
    events_view,
    instant_event,
    metadata_event,
};
use crate::symbols::{Symbols, last_label_at};
use crate::text::{format_hex, hex_literal};

verus! {

/// Size of the return address that is still on the stack when a subroutine
/// exit is recorded.
pub const RETURN_ADDRESS_LEN: u32 = 4;

/// The document that a trace viewer reads: the events, and the unit in which
/// the viewer shows times.
#[derive(Debug, Clone, PartialEq, Eq)]
pub struct ProfilingJson {
    pub trace_events: Vec<TraceEvent>,
    pub display_time_unit: String,
}

/// The cycles never decrease, and one cycle after the last packet can still
/// be written.
pub open spec fn well_timed(packets: Seq<ProfilingPacket>) -> bool {
    &&& forall|i: int, j: int|
        0 <= i <= j < packets.len() ==> (#[trigger] packets[i]).cycle <= (
        #[trigger] packets[j]).cycle
    &&& packets.len() > 0 ==> packets.last().cycle < u64::MAX
}

/// The cycle that stands for the end of the trace.
pub open spec fn end_of_trace(packets: Seq<ProfilingPacket>) -> u64 {
    (packets.last().cycle + 1) as u64
}

/// Whether `packet` is the exit of a subroutine that was entered with the
/// stack pointer `enter_sp`.
pub open spec fn is_return_for(packet: ProfilingPacket, enter_sp: u32) -> bool {
    packet.inner is SubroutineExit && packet.stack_pointer + RETURN_ADDRESS_LEN >= enter_sp
}

/// The cycle of the first packet from index `from` on that is a return for
/// `enter_sp`; `otherwise` if there is none.
pub open spec fn subroutine_end(
    packets: Seq<ProfilingPacket>,
    from: int,
    enter_sp: u32,
    otherwise: u64,
) -> u64
    decreases packets.len() - from,
{
    if from < 0 || from >= packets.len() {
        otherwise
    } else if is_return_for(packets[from], enter_sp) {
        packets[from].cycle
    } else {
        subroutine_end(packets, from + 1, enter_sp, otherwise)
    }
}

/// The cycle of the first interrupt exit from index `from` on; `otherwise`
/// if there is none.
pub open spec fn interrupt_end(packets: Seq<ProfilingPacket>, from: int, otherwise: u64) -> u64
    decreases packets.len() - from,
{
    if from < 0 || from >= packets.len() {
        otherwise
    } else if packets[from].inner is InterruptExit {
        packets[from].cycle
    } else {
        interrupt_end(packets, from + 1, otherwise)
    }
}

/// The name an address is shown under: its last label, or the address as a
/// hexadecimal literal where it has none.
pub open spec fn display_name(symbols: Seq<(Seq<char>, u32)>, address: u32) -> Seq<char> {
    match last_label_at(symbols, address) {
        Some(label) => label,
        None => hex_literal(address as nat),
    }
}

/// The lane after `packet`, where it was `lane` before.
pub open spec fn lane_after(lane: u32, packet: ProfilingPacket) -> u32 {
    match packet.inner {
        ProfilingPacketInner::InterruptEnter { .. } => INTERRUPT_LANE,
        ProfilingPacketInner::InterruptExit => MAIN_LANE,
        _ => lane,
    }
}

/// The registry after `packet`.
pub open spec fn intervals_after(intervals: IntervalsView, packet: ProfilingPacket) -> IntervalsView {
    match packet.inner {
        ProfilingPacketInner::ManualBreakpoint { pc } => intervals.reach(pc, packet.cycle),
        _ => intervals,
    }
}

/// The events of the packet at index `i`, met on lane `lane` with the
/// registry `intervals`.
pub open spec fn packet_events(
    packets: Seq<ProfilingPacket>,
    i: int,
    lane: u32,
    intervals: IntervalsView,
    symbols: Seq<(Seq<char>, u32)>,
) -> Seq<TraceEventView> {
    let packet = packets[i];
    match packet.inner {
        ProfilingPacketInner::SubroutineEnter { target_subroutine } => {
            let end = subroutine_end(packets, i + 1, packet.stack_pointer, end_of_trace(packets));
            seq![
                duration_event(
                    display_name(symbols, target_subroutine),
                    packet.cycle,
                    (end - packet.cycle) as u64,
                    lane,
                ),
            ]
        },
        ProfilingPacketInner::InterruptEnter { target_interrupt } => {
            let end = interrupt_end(packets, i + 1, end_of_trace(packets));
            seq![
                duration_event(
                    display_name(symbols, target_interrupt),
                    packet.cycle,
                    (end - packet.cycle) as u64,
                    INTERRUPT_LANE,
                ),
            ]
        },
        ProfilingPacketInner::VInt => seq![instant_event("VInt"@, packet.cycle, INTERRUPT_LANE)],
        ProfilingPacketInner::ManualBreakpoint { pc } => intervals.reach_events(pc, packet.cycle),
        _ => Seq::empty(),
    }
}

/// The lane on which the packet at index `n` is met.
pub open spec fn lane_before(packets: Seq<ProfilingPacket>, n: int) -> u32
    decreases n,
{
    if n <= 0 {
        MAIN_LANE
    } else {
        lane_after(lane_before(packets, n - 1), packets[n - 1])
    }
}

/// The registry with which the packet at index `n` is met, where the walk
/// began with `intervals`.
pub open spec fn intervals_before(
    packets: Seq<ProfilingPacket>,
    n: int,
    intervals: IntervalsView,
) -> IntervalsView
    decreases n,
{
    if n <= 0 {
        intervals
    } else {
        intervals_after(intervals_before(packets, n - 1, intervals), packets[n - 1])
    }
}

/// The events of the first `n` packets, in the order of the packets.
pub open spec fn timeline_events(
    packets: Seq<ProfilingPacket>,
    n: int,
    intervals: IntervalsView,
    symbols: Seq<(Seq<char>, u32)>,
) -> Seq<TraceEventView>
    decreases n,
{
    if n <= 0 {
        Seq::empty()
    } else {
        timeline_events(packets, n - 1, intervals, symbols) + packet_events(
            packets,
            n - 1,
            lane_before(packets, n - 1),
            intervals_before(packets, n - 1, intervals),
            symbols,
        )
    }
}

/// The arguments that give a process or a lane its name.
pub open spec fn name_args(name: Seq<char>) -> TraceEventArgsView {
    TraceEventArgsView { name: Some(name), sort_index: None }
}

/// The arguments that give a lane its place among the lanes.
pub open spec fn sort_args(sort_index: u32) -> TraceEventArgsView {
    TraceEventArgsView { name: None, sort_index: Some(sort_index) }
}

/// The metadata every document begins with: the name of the process, then
/// the names and the places of the main lane and of the interrupts.
pub open spec fn fixed_metadata() -> Seq<TraceEventView> {
    seq![
        metadata_event("process_name"@, MAIN_LANE, name_args("M68000"@)),
        metadata_event("thread_name"@, MAIN_LANE, name_args("Main thread"@)),
        metadata_event("thread_name"@, INTERRUPT_LANE, name_args("Interrupts"@)),
        metadata_event("thread_sort_index"@, MAIN_LANE, sort_args(MAIN_LANE)),
        metadata_event("thread_sort_index"@, INTERRUPT_LANE, sort_args(INTERRUPT_LANE)),
    ]
}

/// The metadata of the first `n` named lanes: for each its name, then its
/// place, which is its id.
pub open spec fn lane_metadata(lanes: Seq<(Seq<char>, u32)>, n: int) -> Seq<TraceEventView>
    decreases n,
{
    if n <= 0 {
        Seq::empty()
    } else {
        lane_metadata(lanes, n - 1).push(
            metadata_event("thread_name"@, lanes[n - 1].1, name_args(lanes[n - 1].0)),
        ).push(metadata_event("thread_sort_index"@, lanes[n - 1].1, sort_args(lanes[n - 1].1)))
    }
}

/// No interval is open since a cycle after a breakpoint, among the packets
/// from index `from` on, at which it ends: every one of these breakpoints
/// can be hit.
pub open spec fn closable(packets: Seq<ProfilingPacket>, from: int, intervals: IntervalsView) -> bool {
    forall|j: int|
        from <= j < packets.len() ==> match (#[trigger] packets[j]).inner {
            ProfilingPacketInner::ManualBreakpoint { pc } => intervals.can_close(
                pc,
                packets[j].cycle,
            ),
            _ => true,
        }
}

/// Where the cycles do not decrease, a packet leaves the registry such that
/// the breakpoints behind it can be hit, if those from it on could before.
pub proof fn lemma_reach_keeps_closable(
    packets: Seq<ProfilingPacket>,
    i: int,
    intervals: IntervalsView,
)
    requires
        intervals.wf(),
        well_timed(packets),
        0 <= i < packets.len(),
        closable(packets, i, intervals),
    ensures
        intervals_after(intervals, packets[i]).wf(),
        closable(packets, i + 1, intervals_after(intervals, packets[i])),
{
    let after = intervals_after(intervals, packets[i]);
    match packets[i].inner {
        ProfilingPacketInner::ManualBreakpoint { pc } => {
            let cycle = packets[i].cycle;
            if intervals.infos.len() > 0 {
                lemma_reach_state(intervals, pc, cycle, 0);
            } else {
                lemma_closing_keeps_definitions(intervals.infos, intervals.ends_at(pc));
                lemma_opening_keeps_definitions(
                    after_closing(intervals.infos, intervals.ends_at(pc)),
                    intervals.starts_at(pc),
                    cycle,
                );
            }
            assert forall|j: int| i + 1 <= j < packets.len() implies match (
            #[trigger] packets[j]).inner {
                ProfilingPacketInner::ManualBreakpoint { pc } => after.can_close(
                    pc,
                    packets[j].cycle,
                ),
                _ => true,
            } by {
                match packets[j].inner {
                    ProfilingPacketInner::ManualBreakpoint { pc: later } => {
                        let indices = intervals.ends_at(later);
                        assert(packets[i].cycle <= packets[j].cycle);
                        assert(intervals.can_close(later, packets[j].cycle));
                        assert forall|m: int| 0 <= m < indices.len() implies match after.infos[(
                        #[trigger] indices[m]) as int].reached_at {
                            Some(since) => since <= packets[j].cycle,
                            None => true,
                        } by {
                            assert(intervals.ends.contains_key(later));
                            assert(indices_below(intervals.ends[later], intervals.infos.len()));
                            lemma_reach_state(intervals, pc, cycle, indices[m] as int);
                        }
                    },
                    _ => {},
                }
            }
        },
        _ => {},
    }
}

/// Whether every breakpoint among `packets` can be hit in `intervals`.
pub fn is_closable(packets: &Vec<ProfilingPacket>, intervals: &Intervals) -> (yes: bool)
    requires
        intervals.wf(),
    ensures
        yes == closable(packets@, 0, intervals@),
{
    let mut j: usize = 0;
    while j < packets.len()
        invariant
            j <= packets@.len(),
            intervals.wf(),
            forall|m: int|
                0 <= m < j ==> match (#[trigger] packets@[m]).inner {
                    ProfilingPacketInner::ManualBreakpoint { pc } => intervals@.can_close(
                        pc,
                        packets@[m].cycle,
                    ),
                    _ => true,
                },
        decreases packets.len() - j,
    {
        match packets[j].inner {
            ProfilingPacketInner::ManualBreakpoint { pc } => {
                if !intervals.can_close(pc, packets[j].cycle) {
                    return false;
                }
            },
            _ => {},
        }
        j = j + 1;
    }
    true
}

/// Whether the cycles of `packets` never decrease and leave room for the
/// end of the trace.
pub fn is_well_timed(packets: &Vec<ProfilingPacket>) -> (yes: bool)
    ensures
        yes == well_timed(packets@),
{
    let n: usize = packets.len();
    if n == 0 {
        return true;
    }
    if packets[n - 1].cycle == u64::MAX {
        return false;
    }
    let mut k: usize = 1;
    while k < n
        invariant
            1 <= k <= n,
            n == packets@.len(),
            forall|i: int, j: int|
                0 <= i <= j < k ==> (#[trigger] packets@[i]).cycle <= (#[trigger] packets@[j]).cycle,
        decreases n - k,
    {
        if packets[k - 1].cycle > packets[k].cycle {
            return false;
        }
        proof {
            assert forall|i: int, j: int| 0 <= i <= j < k + 1 implies (#[trigger] packets@[i]).cycle
                <= (#[trigger] packets@[j]).cycle by {
                if j == k && i < k {
                    assert(packets@[i].cycle <= packets@[k - 1].cycle);
                }
            }
        }
        k = k + 1;
    }
    true
}

/// Looks for the return of a subroutine entered with `enter_sp`.
fn find_subroutine_end(
    packets: &Vec<ProfilingPacket>,
    from: usize,
    enter_sp: u32,
    otherwise: u64,
) -> (end: u64)
    requires
        from <= packets@.len(),
    ensures
        end == subroutine_end(packets@, from as int, enter_sp, otherwise),
{
    let mut j: usize = from;
    while j < packets.len()
        invariant
            from <= j <= packets@.len(),
            subroutine_end(packets@, from as int, enter_sp, otherwise) == subroutine_end(
                packets@,
                j as int,
                enter_sp,
                otherwise,
            ),
        decreases packets.len() - j,
    {
        let packet = &packets[j];
        match packet.inner {
            ProfilingPacketInner::SubroutineExit => {
                if packet.stack_pointer as u64 + RETURN_ADDRESS_LEN as u64 >= enter_sp as u64 {
                    return packet.cycle;
                }
            },
            _ => {},
        }
        j = j + 1;
    }
    otherwise
}

/// Looks for the exit of an interrupt.
fn find_interrupt_end(packets: &Vec<ProfilingPacket>, from: usize, otherwise: u64) -> (end: u64)
    requires
        from <= packets@.len(),
    ensures
        end == interrupt_end(packets@, from as int, otherwise),
{
    let mut j: usize = from;
    while j < packets.len()
        invariant
            from <= j <= packets@.len(),
            interrupt_end(packets@, from as int, otherwise) == interrupt_end(
                packets@,
                j as int,
                otherwise,
            ),
        decreases packets.len() - j,
    {
        match packets[j].inner {
            ProfilingPacketInner::InterruptExit => {
                return packets[j].cycle;
            },
            _ => {},
        }
        j = j + 1;
    }
    otherwise
}

/// The end of a subroutine is the cycle of one of the packets searched, or
/// the fallback: so it is not before a cycle that none of them is before.
pub proof fn lemma_subroutine_end_not_before(
    packets: Seq<ProfilingPacket>,
    from: int,
    enter_sp: u32,
    otherwise: u64,
    floor: u64,
)
    requires
        0 <= from,
        floor <= otherwise,
        forall|j: int| from <= j < packets.len() ==> floor <= (#[trigger] packets[j]).cycle,
    ensures
        floor <= subroutine_end(packets, from, enter_sp, otherwise),
    decreases packets.len() - from,
{
    if from < packets.len() && !is_return_for(packets[from], enter_sp) {
        lemma_subroutine_end_not_before(packets, from + 1, enter_sp, otherwise, floor);
    }
}

/// The end of an interrupt is not before a cycle that none of the packets
/// searched, nor the fallback, is before.
pub proof fn lemma_interrupt_end_not_before(
    packets: Seq<ProfilingPacket>,
    from: int,
    otherwise: u64,
    floor: u64,
)
    requires
        0 <= from,
        floor <= otherwise,
        forall|j: int| from <= j < packets.len() ==> floor <= (#[trigger] packets[j]).cycle,
    ensures
        floor <= interrupt_end(packets, from, otherwise),
    decreases packets.len() - from,
{
    if from < packets.len() && !(packets[from].inner is InterruptExit) {
        lemma_interrupt_end_not_before(packets, from + 1, otherwise, floor);
    }
}

/// The name an address is shown under.
pub fn name_of(symbols: &Symbols, address: u32) -> (name: String)
    ensures
        name@ == display_name(symbols@, address),
{
    match symbols.label_at(address) {
        Some(label) => label.clone(),
        None => format_hex(address),
    }
}

fn name_event(kind: &str, tid: u32, name: String) -> (event: TraceEvent)
    ensures
        event@ == metadata_event(kind@, tid, name_args(name@)),
{
    TraceEvent::metadata(
        String::from_str(kind),
        tid,
        TraceEventArgs { name: Some(name), sort_index: None },
    )
}

fn sort_event(tid: u32, sort_index: u32) -> (event: TraceEvent)
    ensures
        event@ == metadata_event("thread_sort_index"@, tid, sort_args(sort_index)),
{
    TraceEvent::metadata(
        String::from_str("thread_sort_index"),
        tid,
        TraceEventArgs { name: None, sort_index: Some(sort_index) },
    )
}

/// The metadata events: the fixed ones, then those of the named lanes.
fn metadata_events(custom_threads: &Vec<(String, u32)>) -> (events: Vec<TraceEvent>)
    ensures
        events_view(events@) == fixed_metadata() + lane_metadata(
            lanes_view(custom_threads@),
            custom_threads@.len() as int,
        ),
{
    let mut events: Vec<TraceEvent> = Vec::new();
    events.push(name_event("process_name", MAIN_LANE, String::from_str("M68000")));
    events.push(name_event("thread_name", MAIN_LANE, String::from_str("Main thread")));
    events.push(name_event("thread_name", INTERRUPT_LANE, String::from_str("Interrupts")));
    events.push(sort_event(MAIN_LANE, MAIN_LANE));
    events.push(sort_event(INTERRUPT_LANE, INTERRUPT_LANE));
    let ghost lanes = lanes_view(custom_threads@);
    proof {
        assert(events_view(events@) =~= fixed_metadata());
        assert(fixed_metadata() + lane_metadata(lanes, 0) =~= fixed_metadata());
    }
    let mut k: usize = 0;
    while k < custom_threads.len()
        invariant
            k <= custom_threads@.len(),
            lanes == lanes_view(custom_threads@),
            events_view(events@) == fixed_metadata() + lane_metadata(lanes, k as int),
        decreases custom_threads.len() - k,
    {
        let ghost before = events_view(events@);
        let tid: u32 = custom_threads[k].1;
        let name_entry = name_event("thread_name", tid, custom_threads[k].0.clone());
        let sort_entry = sort_event(tid, tid);
        events.push(name_entry);
        events.push(sort_entry);
        proof {
            assert(lanes[k as int] == (custom_threads@[k as int].0@, tid));
            assert(events_view(events@) =~= before.push(name_entry@).push(sort_entry@));
            assert(events_view(events@) =~= fixed_metadata() + lane_metadata(lanes, k + 1));
        }
        k = k + 1;
    }
    events
}

/// Builds the document for a trace.
///
/// The events are the metadata, then those of the packets in file order:
/// one event for every subroutine entry and every interrupt entry, a marker
/// for every vertical blank, and for every breakpoint the events of the
/// intervals that it closes. `intervals` is left in the state after the last
/// packet; an interval that is still open then has no event.
///
/// The cycles of the packets must not decrease ([`is_well_timed`] tells),
/// and no interval may be open since a cycle after a breakpoint at which it
/// ends ([`is_closable`] tells).
pub fn generate_profiling_json(
    input: &ParsedProfilingFile,
    symbols: &Symbols,
    intervals: &mut Intervals,
    custom_threads: Vec<(String, u32)>,
) -> (json: ProfilingJson)
    requires
        old(intervals).wf(),
        well_timed(input.packets@),
        closable(input.packets@, 0, old(intervals)@),
    ensures
        final(intervals).wf(),
        final(intervals)@ == intervals_before(
            input.packets@,
            input.packets@.len() as int,
            old(intervals)@,
        ),
        events_view(json.trace_events@) == fixed_metadata() + lane_metadata(
            lanes_view(custom_threads@),
            custom_threads@.len() as int,
        ) + timeline_events(
            input.packets@,
            input.packets@.len() as int,
            old(intervals)@,
            symbols@,
        ),
        json.display_time_unit@ == "ms"@,
{
    let mut trace_events = metadata_events(&custom_threads);
    let packets = &input.packets;
    let n: usize = packets.len();
    let last_cycle: u64 = if n > 0 {
        packets[n - 1].cycle + 1
    } else {
        0
    };
    let ghost start = intervals@;
    let ghost metadata = events_view(trace_events@);
    let mut tid: u32 = MAIN_LANE;
    let mut i: usize = 0;
    proof {
        assert(metadata + Seq::<TraceEventView>::empty() =~= metadata);
    }
    while i < n
        invariant
            i <= n,
            n == packets@.len(),
            well_timed(packets@),
            n > 0 ==> last_cycle == end_of_trace(packets@),
            intervals.wf(),
            intervals@ == intervals_before(packets@, i as int, start),
            closable(packets@, i as int, intervals@),
            tid == lane_before(packets@, i as int),
            events_view(trace_events@) == metadata + timeline_events(
                packets@,
                i as int,
                start,
                symbols@,
            ),
        decreases n - i,
    {
        let packet = packets[i];
        let ghost before = events_view(trace_events@);
        let ghost registry = intervals@;
        let ghost lane = tid;
        proof {
            intervals.lemma_wf_view();
            assert(closable(packets@, i as int, registry));
            assert(packets@[i as int].cycle <= packets@[n - 1].cycle);
            assert forall|j: int| i + 1 <= j < packets@.len() implies packet.cycle <= (
            #[trigger] packets@[j]).cycle by {
                assert(packets@[i as int].cycle <= packets@[j].cycle);
            }
        }
        match packet.inner {
            ProfilingPacketInner::SubroutineEnter { target_subroutine } => {
                let end_cycle = find_subroutine_end(packets, i + 1, packet.stack_pointer, last_cycle);
                proof {
                    lemma_subroutine_end_not_before(
                        packets@,
                        i + 1,
                        packet.stack_pointer,
                        last_cycle,
                        packet.cycle,
                    );
                }
                let event = TraceEvent::duration(
                    name_of(symbols, target_subroutine),
                    packet.cycle,
                    end_cycle - packet.cycle,
                    tid,
                );
                trace_events.push(event);
                proof {
                    assert(events_view(trace_events@) =~= before.push(event@));
                }
            },
            ProfilingPacketInner::InterruptEnter { target_interrupt } => {
                tid = INTERRUPT_LANE;
                let end_cycle = find_interrupt_end(packets, i + 1, last_cycle);
                proof {
                    lemma_interrupt_end_not_before(packets@, i + 1, last_cycle, packet.cycle);
                }
                let event = TraceEvent::duration(
                    name_of(symbols, target_interrupt),
                    packet.cycle,
                    end_cycle - packet.cycle,
                    tid,
                );
                trace_events.push(event);
                proof {
                    assert(events_view(trace_events@) =~= before.push(event@));
                }
            },
            ProfilingPacketInner::InterruptExit => {
                tid = MAIN_LANE;
            },
            ProfilingPacketInner::VInt => {
                let event = TraceEvent::instant(String::from_str("VInt"), packet.cycle, INTERRUPT_LANE);
                trace_events.push(event);
                proof {
                    assert(events_view(trace_events@) =~= before.push(event@));
                }
            },
            ProfilingPacketInner::ManualBreakpoint { pc } => {
                intervals.reach(pc, &mut trace_events, packet.cycle);
            },
            _ => {},
        }
        proof {
            let events = packet_events(packets@, i as int, lane, registry, symbols@);
            assert(events_view(trace_events@) =~= before + events);
            assert(before + events =~= metadata + (timeline_events(
                packets@,
                i as int,
                start,
                symbols@,
            ) + events));
            assert(intervals@ == intervals_after(registry, packet));
            lemma_reach_keeps_closable(packets@, i as int, registry);
        }
        i = i + 1;
    }
    ProfilingJson { trace_events, display_time_unit: String::from_str("ms") }
}

/// The events of the packet at index `i` stand in the timeline of the first
/// `n` packets, right behind those of the packets before it.
pub proof fn lemma_timeline_holds_packet_events(
    packets: Seq<ProfilingPacket>,
    n: int,
    i: int,
    intervals: IntervalsView,
    symbols: Seq<(Seq<char>, u32)>,
)
    requires
        0 <= i < n,
    ensures
        ({
            let at = timeline_events(packets, i, intervals, symbols).len() as int;
            let events = packet_events(
                packets,
                i,
                lane_before(packets, i),
                intervals_before(packets, i, intervals),
                symbols,
            );
            &&& at + events.len() <= timeline_events(packets, n, intervals, symbols).len()
            &&& timeline_events(packets, n, intervals, symbols).subrange(at, at + events.len())
                == events
        }),
    decreases n,
{
    let at = timeline_events(packets, i, intervals, symbols).len() as int;
    let events = packet_events(
        packets,
        i,
        lane_before(packets, i),
        intervals_before(packets, i, intervals),
        symbols,
    );
    let whole = timeline_events(packets, n, intervals, symbols);
    if n == i + 1 {
        assert(whole.subrange(at, at + events.len()) =~= events);
    } else {
        lemma_timeline_holds_packet_events(packets, n - 1, i, intervals, symbols);
        let shorter = timeline_events(packets, n - 1, intervals, symbols);
        assert(whole.subrange(at, at + events.len()) =~= shorter.subrange(at, at + events.len()));
    }
}

/// Builds the document for a trace, if its durations can be written:
/// [`generate_profiling_json`] for a trace whose cycles do not decrease and
/// whose breakpoints can all be hit, and nothing for any other trace, which
/// leaves `intervals` as it was.
pub fn try_generate_profiling_json(
    input: &ParsedProfilingFile,
    symbols: &Symbols,
    intervals: &mut Intervals,
    custom_threads: Vec<(String, u32)>,
) -> (json: Option<ProfilingJson>)
    requires
        old(intervals).wf(),
    ensures
        final(intervals).wf(),
        json is Some <==> well_timed(input.packets@) && closable(
            input.packets@,
            0,
            old(intervals)@,
        ),
        json is None ==> final(intervals)@ == old(intervals)@,
        json is Some ==> {
            &&& final(intervals)@ == intervals_before(
                input.packets@,
                input.packets@.len() as int,
                old(intervals)@,
            )
            &&& events_view(json->Some_0.trace_events@) == fixed_metadata() + lane_metadata(
                lanes_view(custom_threads@),
                custom_threads@.len() as int,
            ) + timeline_events(
                input.packets@,
                input.packets@.len() as int,
                old(intervals)@,
                symbols@,
            )
            &&& json->Some_0.display_time_unit@ == "ms"@
        },
{
    if is_well_timed(&input.packets) && is_closable(&input.packets, intervals) {
        Some(generate_profiling_json(input, symbols, intervals, custom_threads))
    } else {
        None
    }
}

/// Where the packets from index `from` up to `to` hold no return for
/// `enter_sp`, the search goes on at `to`.
pub proof fn lemma_subroutine_end_skips(
    packets: Seq<ProfilingPacket>,
    from: int,
    to: int,
    enter_sp: u32,
    otherwise: u64,
)
    requires
        0 <= from <= to <= packets.len(),
        forall|m: int| from <= m < to ==> !is_return_for(#[trigger] packets[m], enter_sp),
    ensures
        subroutine_end(packets, from, enter_sp, otherwise) == subroutine_end(
            packets,
            to,
            enter_sp,
            otherwise,
        ),
    decreases to - from,
{
    if from < to {
        lemma_subroutine_end_skips(packets, from + 1, to, enter_sp, otherwise);
    }
}

/// The event of a subroutine entry is on the lane the entry is met on and
/// begins at the cycle of the entry. It ends at the cycle of the nearest
/// later return, where that is no earlier cycle; or, where no return
/// follows, one cycle after the last packet, where that cycle is no earlier
/// and can be written.
pub proof fn lemma_subroutine_event_span(
    packets: Seq<ProfilingPacket>,
    i: int,
    lane: u32,
    intervals: IntervalsView,
    symbols: Seq<(Seq<char>, u32)>,
)
    requires
        0 <= i < packets.len(),
        packets[i].inner is SubroutineEnter,
    ensures
        packet_events(packets, i, lane, intervals, symbols).len() == 1,
        packet_events(packets, i, lane, intervals, symbols)[0].ph == 'X',
        packet_events(packets, i, lane, intervals, symbols)[0].tid == lane,
        packet_events(packets, i, lane, intervals, symbols)[0].ts == packets[i].cycle,
        forall|j: int|
            i < j < packets.len() && is_return_for(#[trigger] packets[j], packets[i].stack_pointer)
                && (forall|m: int|
                i < m < j ==> !is_return_for(#[trigger] packets[m], packets[i].stack_pointer))
                && packets[i].cycle <= packets[j].cycle ==> packet_events(
                packets,
                i,
                lane,
                intervals,
                symbols,
            )[0].ts + packet_events(packets, i, lane, intervals, symbols)[0].dur
                == packets[j].cycle,
        (forall|m: int|
            i < m < packets.len() ==> !is_return_for(#[trigger] packets[m], packets[i].stack_pointer))
            && packets[i].cycle <= packets.last().cycle < u64::MAX ==> packet_events(
            packets,
            i,
            lane,
            intervals,
            symbols,
        )[0].ts + packet_events(packets, i, lane, intervals, symbols)[0].dur
            == packets.last().cycle + 1,
{
    let sp = packets[i].stack_pointer;
    let last = end_of_trace(packets);
    let event = packet_events(packets, i, lane, intervals, symbols)[0];
    assert(event.dur == (subroutine_end(packets, i + 1, sp, last) - packets[i].cycle) as u64);
    assert forall|j: int|
        i < j < packets.len() && is_return_for(#[trigger] packets[j], sp) && (forall|m: int|
            i < m < j ==> !is_return_for(#[trigger] packets[m], sp)) && packets[i].cycle
            <= packets[j].cycle implies event.ts + event.dur == packets[j].cycle by {
        lemma_subroutine_end_skips(packets, i + 1, j, sp, last);
    }
    if forall|m: int| i < m < packets.len() ==> !is_return_for(#[trigger] packets[m], sp) {
        lemma_subroutine_end_skips(packets, i + 1, packets.len() as int, sp, last);
    }
}

/// Where the packets from index `from` up to `to` hold no interrupt exit,
/// the search goes on at `to`.
pub proof fn lemma_interrupt_end_skips(
    packets: Seq<ProfilingPacket>,
    from: int,
    to: int,
    otherwise: u64,
)
    requires
        0 <= from <= to <= packets.len(),
        forall|m: int| from <= m < to ==> !((#[trigger] packets[m]).inner is InterruptExit),
    ensures
        interrupt_end(packets, from, otherwise) == interrupt_end(packets, to, otherwise),
    decreases to - from,
{
    if from < to {
        lemma_interrupt_end_skips(packets, from + 1, to, otherwise);
    }
}

/// The event of an interrupt entry is on the lane of the interrupts and
/// begins at the cycle of the entry. It ends at the cycle of the nearest
/// later interrupt exit, where that is no earlier cycle; or, where none
/// follows, one cycle after the last packet, where that cycle is no earlier
/// and can be written.
pub proof fn lemma_interrupt_event_span(
    packets: Seq<ProfilingPacket>,
    i: int,
    lane: u32,
    intervals: IntervalsView,
    symbols: Seq<(Seq<char>, u32)>,
)
    requires
        0 <= i < packets.len(),
        packets[i].inner is InterruptEnter,
    ensures
        packet_events(packets, i, lane, intervals, symbols).len() == 1,
        packet_events(packets, i, lane, intervals, symbols)[0].ph == 'X',
        packet_events(packets, i, lane, intervals, symbols)[0].tid == INTERRUPT_LANE,
        packet_events(packets, i, lane, intervals, symbols)[0].ts == packets[i].cycle,
        forall|j: int|
            i < j < packets.len() && (#[trigger] packets[j]).inner is InterruptExit && (forall|
                m: int,
            |
                i < m < j ==> !((#[trigger] packets[m]).inner is InterruptExit)) && packets[i].cycle
                <= packets[j].cycle ==> packet_events(packets, i, lane, intervals, symbols)[0].ts
                + packet_events(packets, i, lane, intervals, symbols)[0].dur == packets[j].cycle,
        (forall|m: int| i < m < packets.len() ==> !((#[trigger] packets[m]).inner is InterruptExit))
            && packets[i].cycle <= packets.last().cycle < u64::MAX ==> packet_events(
            packets,
            i,
            lane,
            intervals,
            symbols,
        )[0].ts + packet_events(packets, i, lane, intervals, symbols)[0].dur
            == packets.last().cycle + 1,
{
    let last = end_of_trace(packets);
    let event = packet_events(packets, i, lane, intervals, symbols)[0];
    assert(event.dur == (interrupt_end(packets, i + 1, last) - packets[i].cycle) as u64);
    assert forall|j: int|
        i < j < packets.len() && (#[trigger] packets[j]).inner is InterruptExit && (forall|m: int|
            i < m < j ==> !((#[trigger] packets[m]).inner is InterruptExit)) && packets[i].cycle
            <= packets[j].cycle implies event.ts + event.dur == packets[j].cycle by {
        lemma_interrupt_end_skips(packets, i + 1, j, last);
    }
    if forall|m: int| i < m < packets.len() ==> !((#[trigger] packets[m]).inner is InterruptExit) {
        lemma_interrupt_end_skips(packets, i + 1, packets.len() as int, last);
    }
}

/// A vertical blank yields one marker at its cycle, on the lane of the
/// interrupts and without a duration, whatever the lane it is met on.
pub proof fn lemma_vint_marker(
    packets: Seq<ProfilingPacket>,
    i: int,
    lane: u32,
    intervals: IntervalsView,
    symbols: Seq<(Seq<char>, u32)>,
)
    requires
        0 <= i < packets.len(),
        packets[i].inner is VInt,
    ensures
        packet_events(packets, i, lane, intervals, symbols) == seq![
            instant_event("VInt"@, packets[i].cycle, INTERRUPT_LANE),
        ],
        packet_events(packets, i, lane, intervals, symbols)[0].ph == 'i',
        packet_events(packets, i, lane, intervals, symbols)[0].dur == 0,
        packet_events(packets, i, lane, intervals, symbols)[0].tid == 1,
        lane_after(lane, packets[i]) == lane,
{
}

} // verus!
