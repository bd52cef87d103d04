use md_profiler::intervals::Intervals;
use md_profiler::profiling::{
    read_profiling_file, ParsedProfilingFile, ProfilingPacket, ProfilingPacketInner, TraceEvent,
    TraceEventArgs,
};
use md_profiler::symbols::Symbols;
use md_profiler::timeline::{
    generate_profiling_json, is_closable, is_well_timed, name_of, try_generate_profiling_json,
};

fn packet(cycle: u64, stack_pointer: u32, inner: ProfilingPacketInner) -> ProfilingPacket {
    ProfilingPacket { cycle, stack_pointer, inner }
}

fn enter(cycle: u64, sp: u32, target: u32) -> ProfilingPacket {
    packet(cycle, sp, ProfilingPacketInner::SubroutineEnter { target_subroutine: target })
}

fn exit(cycle: u64, sp: u32) -> ProfilingPacket {
    packet(cycle, sp, ProfilingPacketInner::SubroutineExit)
}

fn trace(packets: Vec<ProfilingPacket>) -> ParsedProfilingFile {
    ParsedProfilingFile { packets, mclk: 1_000_000, m68k_divider: 7, version: 1 }
}

fn span(name: &str, ts: u64, dur: u64, tid: u32) -> TraceEvent {
    TraceEvent { name: name.to_string(), ph: 'X', ts, dur, pid: 0, tid, args: None, s: None }
}

fn meta(name: &str, tid: u32, label: Option<&str>, sort_index: Option<u32>) -> TraceEvent {
    TraceEvent {
        name: name.to_string(),
        ph: 'M',
        ts: 0,
        dur: 0,
        pid: 0,
        tid,
        args: Some(TraceEventArgs { name: label.map(|l| l.to_string()), sort_index }),
        s: None,
    }
}

fn timeline_of(packets: Vec<ProfilingPacket>, symbols: &Symbols) -> Vec<TraceEvent> {
    let input = trace(packets);
    assert!(is_well_timed(&input.packets));
    let mut intervals = Intervals::new();
    let json = generate_profiling_json(&input, symbols, &mut intervals, Vec::new());
    assert_eq!(json.display_time_unit, "ms");
    json.trace_events[5..].to_vec()
}

fn cycle_to_us(cycle: u64, mclk: f64) -> f64 {
    cycle as f64 / mclk * 1_000_000.0
}

#[test]
fn metadata_comes_first() {
    let input = trace(vec![packet(1, 0, ProfilingPacketInner::HInt)]);
    let mut intervals = Intervals::new();
    let lanes = vec![("gfx".to_string(), 2), ("audio".to_string(), 3)];
    let json = generate_profiling_json(&input, &Symbols::new(), &mut intervals, lanes);
    assert_eq!(
        json.trace_events,
        vec![
            meta("process_name", 0, Some("M68000"), None),
            meta("thread_name", 0, Some("Main thread"), None),
            meta("thread_name", 1, Some("Interrupts"), None),
            meta("thread_sort_index", 0, None, Some(0)),
            meta("thread_sort_index", 1, None, Some(1)),
            meta("thread_name", 2, Some("gfx"), None),
            meta("thread_sort_index", 2, None, Some(2)),
            meta("thread_name", 3, Some("audio"), None),
            meta("thread_sort_index", 3, None, Some(3)),
        ]
    );
    assert_eq!(json.display_time_unit, "ms");
}

#[test]
fn trace_without_packets_has_only_metadata() {
    let input = trace(Vec::new());
    let mut intervals = Intervals::new();
    let json = generate_profiling_json(&input, &Symbols::new(), &mut intervals, Vec::new());
    assert_eq!(json.trace_events.len(), 5);
}

#[test]
fn round_trip_of_one_call() {
    let mut bytes = vec![0u8; 256];
    bytes[3] = 1;
    bytes[4..8].copy_from_slice(&1_000_000u32.to_le_bytes());
    bytes[8..12].copy_from_slice(&7u32.to_le_bytes());
    bytes.push(0);
    bytes.extend_from_slice(&10u32.to_le_bytes());
    bytes.extend_from_slice(&0x2000u32.to_le_bytes());
    bytes.extend_from_slice(&0x100u32.to_le_bytes());
    bytes.push(1);
    bytes.extend_from_slice(&50u32.to_le_bytes());
    bytes.extend_from_slice(&0x2000u32.to_le_bytes());
    let input = read_profiling_file(&bytes).unwrap();
    let mut symbols = Symbols::new();
    symbols.insert("Foo".to_string(), 0x100);
    let mut intervals = Intervals::new();
    assert!(is_well_timed(&input.packets));
    let json = generate_profiling_json(&input, &symbols, &mut intervals, Vec::new());
    let events = &json.trace_events[5..];
    assert_eq!(events.len(), 1);
    assert_eq!(events[0].name, "Foo");
    assert_eq!(events[0].ph, 'X');
    assert_eq!(events[0].tid, 0);
    assert_eq!(events[0].pid, 0);
    assert_eq!(cycle_to_us(events[0].ts, input.mclk as f64), 10.0);
    assert_eq!(cycle_to_us(events[0].dur, input.mclk as f64), 40.0);
}

#[test]
fn call_is_matched_by_the_stack_pointer() {
    let events = timeline_of(
        vec![
            enter(10, 0x2000, 0x100),
            enter(20, 0x1ffc, 0x200),
            exit(30, 0x1ff8),
            exit(40, 0x1ffc),
            exit(50, 0x2000),
        ],
        &Symbols::new(),
    );
    assert_eq!(events, vec![span("0x100", 10, 30, 0), span("0x200", 20, 10, 0)]);
}

#[test]
fn return_address_still_on_the_stack_counts() {
    let events = timeline_of(
        vec![enter(10, 0x2000, 0x100), exit(20, 0x1ffb), exit(30, 0x1ffc)],
        &Symbols::new(),
    );
    assert_eq!(events, vec![span("0x100", 10, 20, 0)]);
}

#[test]
fn stack_pointer_near_the_top_of_the_range() {
    let events = timeline_of(
        vec![enter(10, 0xffff_ffff, 0x100), exit(20, 0xffff_fffa), exit(30, 0xffff_fffe)],
        &Symbols::new(),
    );
    assert_eq!(events, vec![span("0x100", 10, 20, 0)]);
}

#[test]
fn call_without_return_lasts_to_the_end_of_the_trace() {
    let events = timeline_of(
        vec![
            enter(10, 0x2000, 0x100),
            exit(20, 0x1000),
            packet(90, 0, ProfilingPacketInner::HInt),
        ],
        &Symbols::new(),
    );
    assert_eq!(events, vec![span("0x100", 10, 81, 0)]);
    let events = timeline_of(vec![enter(10, 0x2000, 0x100)], &Symbols::new());
    assert_eq!(events, vec![span("0x100", 10, 1, 0)]);
}

#[test]
fn earlier_returns_are_not_matched() {
    let events = timeline_of(vec![exit(5, 0x2000), enter(10, 0x2000, 0x100)], &Symbols::new());
    assert_eq!(events, vec![span("0x100", 10, 1, 0)]);
}

#[test]
fn interrupt_switches_the_lane() {
    let mut symbols = Symbols::new();
    symbols.insert("VBlank".to_string(), 0x80);
    symbols.insert("Work".to_string(), 0x100);
    symbols.insert("Work2".to_string(), 0x100);
    let events = timeline_of(
        vec![
            enter(10, 0x2000, 0x100),
            packet(20, 0x1ff0, ProfilingPacketInner::InterruptEnter { target_interrupt: 0x80 }),
            enter(25, 0x1fe0, 0x300),
            exit(30, 0x1fdc),
            packet(40, 0x1ff0, ProfilingPacketInner::InterruptExit),
            enter(45, 0x1ff0, 0x100),
            exit(50, 0x1fec),
            exit(60, 0x1ffc),
        ],
        &symbols,
    );
    assert_eq!(
        events,
        vec![
            span("Work2", 10, 50, 0),
            span("VBlank", 20, 20, 1),
            span("0x300", 25, 5, 1),
            span("Work2", 45, 5, 0),
        ]
    );
}

#[test]
fn interrupt_without_exit_lasts_to_the_end_of_the_trace() {
    let events = timeline_of(
        vec![
            packet(20, 0, ProfilingPacketInner::InterruptEnter { target_interrupt: 0x80 }),
            enter(30, 0x100, 0x10),
        ],
        &Symbols::new(),
    );
    assert_eq!(events, vec![span("0x80", 20, 11, 1), span("0x10", 30, 1, 1)]);
}

#[test]
fn vertical_blank_is_a_marker_on_the_interrupt_lane() {
    let marker = TraceEvent {
        name: "VInt".to_string(),
        ph: 'i',
        ts: 33,
        dur: 0,
        pid: 0,
        tid: 1,
        args: None,
        s: Some('g'),
    };
    let events = timeline_of(vec![packet(33, 0, ProfilingPacketInner::VInt)], &Symbols::new());
    assert_eq!(events, vec![marker.clone()]);
    let events = timeline_of(
        vec![
            packet(20, 0, ProfilingPacketInner::InterruptEnter { target_interrupt: 0x80 }),
            packet(33, 0, ProfilingPacketInner::VInt),
            packet(40, 0, ProfilingPacketInner::InterruptExit),
        ],
        &Symbols::new(),
    );
    assert_eq!(events, vec![span("0x80", 20, 20, 1), marker]);
}

#[test]
fn horizontal_blank_and_exits_yield_nothing() {
    let events = timeline_of(
        vec![
            packet(1, 0, ProfilingPacketInner::HInt),
            exit(2, 0),
            packet(3, 0, ProfilingPacketInner::InterruptExit),
        ],
        &Symbols::new(),
    );
    assert!(events.is_empty());
}

#[test]
fn breakpoints_drive_the_intervals() {
    let input = trace(vec![
        packet(10, 0, ProfilingPacketInner::ManualBreakpoint { pc: 0x100 }),
        packet(15, 0, ProfilingPacketInner::ManualBreakpoint { pc: 0x100 }),
        packet(20, 0, ProfilingPacketInner::InterruptEnter { target_interrupt: 0x80 }),
        packet(30, 0, ProfilingPacketInner::ManualBreakpoint { pc: 0x180 }),
        packet(35, 0, ProfilingPacketInner::ManualBreakpoint { pc: 0x180 }),
        packet(40, 0, ProfilingPacketInner::ManualBreakpoint { pc: 0x100 }),
    ]);
    let mut intervals = Intervals::new();
    let index = intervals.add_interval("region".to_string(), 4);
    intervals.add_start(0x100, index);
    intervals.add_end(0x180, index);
    assert!(is_well_timed(&input.packets));
    let json = generate_profiling_json(&input, &Symbols::new(), &mut intervals, Vec::new());
    assert_eq!(json.trace_events[5..], [span("0x80", 20, 21, 1), span("region", 10, 20, 4)]);
    assert_eq!(intervals.opened_at(index), Some(40));
}

#[test]
fn names_fall_back_to_hexadecimal() {
    let mut symbols = Symbols::new();
    symbols.insert("Main".to_string(), 0x200);
    assert_eq!(name_of(&symbols, 0x200), "Main");
    assert_eq!(name_of(&symbols, 0x201), "0x201");
    assert_eq!(name_of(&symbols, 0), "0x0");
    assert_eq!(name_of(&symbols, 0xffff_ffff), "0xffffffff");
}

#[test]
fn cycles_must_not_decrease() {
    assert!(is_well_timed(&Vec::new()));
    assert!(is_well_timed(&vec![exit(5, 0)]));
    assert!(is_well_timed(&vec![exit(5, 0), exit(5, 0), exit(6, 0)]));
    assert!(!is_well_timed(&vec![exit(5, 0), exit(4, 0)]));
    assert!(!is_well_timed(&vec![exit(1, 0), exit(3, 0), exit(2, 0), exit(4, 0)]));
    assert!(is_well_timed(&vec![exit(u64::MAX - 1, 0)]));
    assert!(!is_well_timed(&vec![exit(u64::MAX, 0)]));
}

#[test]
fn cycles_convert_to_microseconds() {
    assert_eq!(cycle_to_us(53_693_175, 53_693_175.0), 1_000_000.0);
    assert_eq!(cycle_to_us(0, 1_000_000.0), 0.0);
    assert_eq!(cycle_to_us(5, 2_000_000.0), 2.5);
}

#[test]
fn interval_open_since_later_cannot_be_closed() {
    let mut intervals = Intervals::new();
    let region = intervals.add_interval("region".to_string(), 0);
    let other = intervals.add_interval("other".to_string(), 0);
    intervals.add_start(0x100, region);
    intervals.add_end(0x180, region);
    intervals.add_start(0x200, other);
    intervals.add_end(0x280, other);
    let mut events = Vec::new();
    intervals.reach(0x100, &mut events, 50);
    assert!(intervals.can_close(0x180, 50));
    assert!(intervals.can_close(0x180, 51));
    assert!(!intervals.can_close(0x180, 49));
    assert!(intervals.can_close(0x280, 0));
    assert!(intervals.can_close(0x999, 0));
    let early = vec![packet(40, 0, ProfilingPacketInner::ManualBreakpoint { pc: 0x180 })];
    assert!(!is_closable(&early, &intervals));
    let elsewhere = vec![
        packet(40, 0, ProfilingPacketInner::ManualBreakpoint { pc: 0x280 }),
        packet(45, 0, ProfilingPacketInner::ManualBreakpoint { pc: 0x100 }),
        enter(46, 0x2000, 0x180),
        packet(60, 0, ProfilingPacketInner::ManualBreakpoint { pc: 0x180 }),
    ];
    assert!(is_closable(&elsewhere, &intervals));
    assert!(is_closable(&Vec::new(), &intervals));
    let input = trace(elsewhere);
    assert!(is_well_timed(&input.packets));
    let json = generate_profiling_json(&input, &Symbols::new(), &mut intervals, Vec::new());
    assert_eq!(json.trace_events[5..], [span("0x180", 46, 15, 0), span("region", 50, 10, 0)]);
}

#[test]
fn trace_that_cannot_be_timed_yields_no_document() {
    let mut intervals = Intervals::new();
    let region = intervals.add_interval("region".to_string(), 0);
    intervals.add_start(0x100, region);
    intervals.add_end(0x180, region);
    let backwards = trace(vec![enter(10, 0x2000, 0x100), exit(5, 0x2000)]);
    assert!(try_generate_profiling_json(&backwards, &Symbols::new(), &mut intervals, Vec::new())
        .is_none());
    let full = trace(vec![enter(u64::MAX, 0x2000, 0x100)]);
    assert!(try_generate_profiling_json(&full, &Symbols::new(), &mut intervals, Vec::new())
        .is_none());
    let mut events = Vec::new();
    intervals.reach(0x100, &mut events, 50);
    let early = trace(vec![packet(40, 0, ProfilingPacketInner::ManualBreakpoint { pc: 0x180 })]);
    assert!(try_generate_profiling_json(&early, &Symbols::new(), &mut intervals, Vec::new())
        .is_none());
    assert_eq!(intervals.opened_at(region), Some(50));
    let later = trace(vec![
        packet(50, 0, ProfilingPacketInner::VInt),
        packet(70, 0, ProfilingPacketInner::ManualBreakpoint { pc: 0x180 }),
    ]);
    let json = try_generate_profiling_json(&later, &Symbols::new(), &mut intervals, Vec::new())
        .unwrap();
    assert_eq!(json.trace_events.len(), 7);
    assert_eq!(json.trace_events[5].name, "VInt");
    assert_eq!(json.trace_events[6], span("region", 50, 20, 0));
    assert_eq!(intervals.opened_at(region), None);
    let empty = trace(Vec::new());
    let json = try_generate_profiling_json(&empty, &Symbols::new(), &mut intervals, Vec::new())
        .unwrap();
    assert_eq!(json.trace_events.len(), 5);
}
