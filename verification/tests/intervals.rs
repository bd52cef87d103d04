use md_profiler::interval_table::{
    parse_intervals, read_interval_elm, read_intervals, IntervalError, END_SUFFIX, START_SUFFIX,
};
use md_profiler::intervals::Intervals;
use md_profiler::profiling::TraceEvent;
use md_profiler::symbols::Symbols;

fn interval_symbols() -> Symbols {
    let mut symbols = Symbols::new();
    symbols.insert("Main".to_string(), 0x200);
    symbols.insert("Draw_start".to_string(), 0x300);
    symbols.insert("Draw_end".to_string(), 0x340);
    symbols.insert("Sound_a".to_string(), 0x400);
    symbols.insert("Sound_b".to_string(), 0x410);
    symbols.insert("beef".to_string(), 0x10);
    symbols
}

fn duration(name: &str, ts: u64, dur: u64, tid: u32) -> TraceEvent {
    TraceEvent {
        name: name.to_string(),
        ph: 'X',
        ts,
        dur,
        pid: 0,
        tid,
        args: None,
        s: None,
    }
}

fn one_interval(start: u32, end: u32) -> Intervals {
    let mut intervals = Intervals::new();
    let index = intervals.add_interval("region".to_string(), 0);
    intervals.add_start(start, index);
    intervals.add_end(end, index);
    intervals
}

#[test]
fn start_then_end_yields_one_event() {
    let mut intervals = one_interval(0x100, 0x180);
    let mut events = Vec::new();
    intervals.reach(0x100, &mut events, 10);
    assert!(events.is_empty());
    assert_eq!(intervals.opened_at(0), Some(10));
    intervals.reach(0x180, &mut events, 50);
    assert_eq!(events, vec![duration("region", 10, 40, 0)]);
    assert_eq!(intervals.opened_at(0), None);
}

#[test]
fn repeated_start_keeps_the_first_hit() {
    let mut intervals = one_interval(0x100, 0x180);
    let mut events = Vec::new();
    intervals.reach(0x100, &mut events, 10);
    intervals.reach(0x100, &mut events, 25);
    assert_eq!(intervals.opened_at(0), Some(10));
    intervals.reach(0x180, &mut events, 50);
    assert_eq!(events, vec![duration("region", 10, 40, 0)]);
    intervals.reach(0x180, &mut events, 60);
    assert_eq!(events.len(), 1);
}

#[test]
fn end_without_start_yields_nothing() {
    let mut intervals = one_interval(0x100, 0x180);
    let mut events = Vec::new();
    intervals.reach(0x180, &mut events, 50);
    assert!(events.is_empty());
    assert_eq!(intervals.opened_at(0), None);
}

#[test]
fn unknown_address_changes_nothing() {
    let mut intervals = one_interval(0x100, 0x180);
    let mut events = vec![duration("kept", 1, 2, 3)];
    intervals.reach(0x999, &mut events, 50);
    assert_eq!(events, vec![duration("kept", 1, 2, 3)]);
    assert_eq!(intervals.opened_at(0), None);
}

#[test]
fn closing_comes_before_opening() {
    let mut intervals = Intervals::new();
    let first = intervals.add_interval("first".to_string(), 0);
    let second = intervals.add_interval("second".to_string(), 2);
    intervals.add_start(0x100, first);
    intervals.add_end(0x200, first);
    intervals.add_start(0x200, second);
    intervals.add_end(0x300, second);
    let mut events = Vec::new();
    intervals.reach(0x100, &mut events, 5);
    intervals.reach(0x200, &mut events, 15);
    assert_eq!(events, vec![duration("first", 5, 10, 0)]);
    assert_eq!(intervals.opened_at(first), None);
    assert_eq!(intervals.opened_at(second), Some(15));
    intervals.reach(0x300, &mut events, 40);
    assert_eq!(events, vec![duration("first", 5, 10, 0), duration("second", 15, 25, 2)]);
}

#[test]
fn interval_that_starts_and_ends_at_one_address_restarts() {
    let mut intervals = one_interval(0x100, 0x100);
    let mut events = Vec::new();
    intervals.reach(0x100, &mut events, 5);
    assert!(events.is_empty());
    assert_eq!(intervals.opened_at(0), Some(5));
    intervals.reach(0x100, &mut events, 9);
    assert_eq!(events, vec![duration("region", 5, 4, 0)]);
    assert_eq!(intervals.opened_at(0), Some(9));
}

#[test]
fn several_intervals_at_one_end_close_in_order() {
    let mut intervals = Intervals::new();
    let a = intervals.add_interval("a".to_string(), 0);
    let b = intervals.add_interval("b".to_string(), 3);
    intervals.add_start(0x10, a);
    intervals.add_start(0x20, b);
    intervals.add_end(0x30, b);
    intervals.add_end(0x30, a);
    let mut events = Vec::new();
    intervals.reach(0x10, &mut events, 1);
    intervals.reach(0x20, &mut events, 2);
    intervals.reach(0x30, &mut events, 10);
    assert_eq!(events, vec![duration("b", 2, 8, 3), duration("a", 1, 9, 0)]);
}

#[test]
fn zero_length_interval() {
    let mut intervals = one_interval(0x100, 0x180);
    let mut events = Vec::new();
    intervals.reach(0x100, &mut events, 7);
    intervals.reach(0x180, &mut events, 7);
    assert_eq!(events, vec![duration("region", 7, 0, 0)]);
}

#[test]
fn addresses_are_listed_once() {
    let mut intervals = Intervals::new();
    assert!(intervals.addresses().is_empty());
    assert_eq!(intervals.len(), 0);
    let a = intervals.add_interval("a".to_string(), 0);
    let b = intervals.add_interval("b".to_string(), 0);
    intervals.add_start(0x10, a);
    intervals.add_end(0x20, a);
    intervals.add_start(0x20, b);
    intervals.add_end(0x10, b);
    intervals.add_end(0x30, b);
    let mut addresses = intervals.addresses().clone();
    addresses.sort();
    assert_eq!(addresses, vec![0x10, 0x20, 0x30]);
    assert_eq!(intervals.len(), 2);
    assert_eq!(intervals.starts_at(0x20), vec![b]);
    assert_eq!(intervals.ends_at(0x20), vec![a]);
    assert_eq!(intervals.ends_at(0x10), vec![b]);
    assert!(intervals.starts_at(0x30).is_empty());
    assert_eq!(intervals.info(b).name, "b");
}

#[test]
fn tokens_resolve_to_labels_then_numbers_then_prefixes() {
    let symbols = interval_symbols();
    assert_eq!(read_interval_elm("Main", &symbols), Some(vec![0x200]));
    assert_eq!(read_interval_elm("1f", &symbols), Some(vec![0x1f]));
    assert_eq!(read_interval_elm("FFFFFFFF", &symbols), Some(vec![0xffff_ffff]));
    assert_eq!(read_interval_elm("beef", &symbols), Some(vec![0x10]));
    assert_eq!(read_interval_elm("Sound_", &symbols), Some(vec![0x400, 0x410]));
    assert_eq!(read_interval_elm("Draw", &symbols), Some(vec![0x300, 0x340]));
    assert_eq!(read_interval_elm("Missing", &symbols), None);
    assert_eq!(read_interval_elm("", &symbols), None);
    assert_eq!(read_interval_elm(" Main", &symbols), None);
    assert_eq!(read_interval_elm("100000000", &symbols), None);
}

#[test]
fn definitions_are_read_line_by_line() {
    let symbols = interval_symbols();
    let text = "Draw_start,Draw_end,Drawing,gfx\n100;Main , 180;1c0\n\n// a comment, with a comma\nSound_a,Sound_b, Music ,audio\nMain,Main,,gfx\n";
    let (mut intervals, lanes) = parse_intervals(text, &symbols).unwrap();
    assert_eq!(intervals.len(), 4);
    assert_eq!(lanes, vec![("gfx".to_string(), 2), ("audio".to_string(), 3)]);
    assert_eq!(intervals.info(0).name, "Drawing");
    assert_eq!(intervals.info(0).tid, 2);
    assert_eq!(intervals.info(1).name, "100;Main , 180;1c0");
    assert_eq!(intervals.info(1).tid, 0);
    assert_eq!(intervals.info(2).name, "Music");
    assert_eq!(intervals.info(2).tid, 3);
    assert_eq!(intervals.info(3).name, "");
    assert_eq!(intervals.info(3).tid, 2);
    assert_eq!(intervals.starts_at(0x300), vec![0]);
    assert_eq!(intervals.ends_at(0x340), vec![0]);
    assert_eq!(intervals.starts_at(0x100), vec![1]);
    assert_eq!(intervals.starts_at(0x200), vec![1, 3]);
    assert_eq!(intervals.ends_at(0x200), vec![3]);
    assert_eq!(intervals.ends_at(0x180), vec![1]);
    assert_eq!(intervals.ends_at(0x1c0), vec![1]);
    assert_eq!(intervals.starts_at(0x400), vec![2]);
    assert_eq!(intervals.ends_at(0x410), vec![2]);
    for index in 0..4 {
        assert_eq!(intervals.opened_at(index), None);
    }
    let mut events = Vec::new();
    intervals.reach(0x300, &mut events, 100);
    intervals.reach(0x340, &mut events, 160);
    assert_eq!(events, vec![duration("Drawing", 100, 60, 2)]);
}

#[test]
fn untrimmed_tokens_of_a_list_are_not_found() {
    let symbols = interval_symbols();
    assert_eq!(
        parse_intervals("100;Main , 180 ; 1c0", &symbols).unwrap_err(),
        IntervalError::UnknownSymbol { line: 0 }
    );
    let (intervals, _) = parse_intervals(" 100;Main , 180;1c0 ", &symbols).unwrap();
    assert_eq!(intervals.starts_at(0x100), vec![0]);
    assert_eq!(intervals.starts_at(0x200), vec![0]);
    assert_eq!(intervals.ends_at(0x180), vec![0]);
    assert_eq!(intervals.ends_at(0x1c0), vec![0]);
    assert_eq!(intervals.info(0).name, " 100;Main , 180;1c0 ");
}

#[test]
fn same_lane_name_gets_the_same_id() {
    let symbols = interval_symbols();
    let text = "10,20,a,video\n30,40,b,audio\n50,60,c, video \n70,80,d\n90,a0,e,audio";
    let (intervals, lanes) = parse_intervals(text, &symbols).unwrap();
    assert_eq!(lanes, vec![("video".to_string(), 2), ("audio".to_string(), 3)]);
    assert_eq!(intervals.info(0).tid, 2);
    assert_eq!(intervals.info(1).tid, 3);
    assert_eq!(intervals.info(2).tid, 2);
    assert_eq!(intervals.info(3).tid, 0);
    assert_eq!(intervals.info(4).tid, 3);
}

#[test]
fn blank_lines_and_comments_define_nothing() {
    let symbols = interval_symbols();
    let text = "\n//Missing,Missing\n   \n// note\n\t\r\n//Draw\n";
    let (intervals, lanes) = parse_intervals(text, &symbols).unwrap();
    assert_eq!(intervals.len(), 0);
    assert!(lanes.is_empty());
    assert!(intervals.addresses().is_empty());
}

#[test]
fn line_of_one_field_is_short_for_a_pair_of_labels() {
    let symbols = interval_symbols();
    assert_eq!(START_SUFFIX, "_start");
    assert_eq!(END_SUFFIX, "_end");
    let (mut intervals, lanes) = parse_intervals("Draw", &symbols).unwrap();
    assert!(lanes.is_empty());
    assert_eq!(intervals.len(), 1);
    assert_eq!(intervals.info(0).name, "Draw");
    assert_eq!(intervals.info(0).tid, 0);
    assert_eq!(intervals.opened_at(0), None);
    assert_eq!(intervals.starts_at(0x300), vec![0]);
    assert_eq!(intervals.ends_at(0x340), vec![0]);
    assert!(intervals.ends_at(0x300).is_empty());
    assert!(intervals.starts_at(0x340).is_empty());
    let mut addresses = intervals.addresses().clone();
    addresses.sort();
    assert_eq!(addresses, vec![0x300, 0x340]);
    let mut events = Vec::new();
    intervals.reach(0x300, &mut events, 7);
    intervals.reach(0x340, &mut events, 19);
    assert_eq!(events, vec![duration("Draw", 7, 12, 0)]);
}

#[test]
fn short_line_is_trimmed_and_named_by_the_whole_line() {
    let symbols = interval_symbols();
    let (intervals, _) = parse_intervals("10,20,first\n  Draw \r\nDraw", &symbols).unwrap();
    assert_eq!(intervals.len(), 3);
    assert_eq!(intervals.info(1).name, "  Draw \r");
    assert_eq!(intervals.info(2).name, "Draw");
    assert_eq!(intervals.starts_at(0x300), vec![1, 2]);
    assert_eq!(intervals.ends_at(0x340), vec![1, 2]);
}

#[test]
fn short_line_without_both_labels_is_refused() {
    let mut symbols = interval_symbols();
    assert_eq!(
        parse_intervals("Main", &symbols).unwrap_err(),
        IntervalError::UnknownSymbol { line: 0 }
    );
    assert_eq!(
        parse_intervals("Draw\n\nSound", &symbols).unwrap_err(),
        IntervalError::UnknownSymbol { line: 2 }
    );
    symbols.insert("Sound_start".to_string(), 0x500);
    assert_eq!(
        parse_intervals("Sound", &symbols).unwrap_err(),
        IntervalError::UnknownSymbol { line: 0 }
    );
    symbols.insert("Sound_end".to_string(), 0x580);
    let (intervals, _) = parse_intervals("Sound", &symbols).unwrap();
    assert_eq!(intervals.starts_at(0x500), vec![0]);
    assert_eq!(intervals.ends_at(0x580), vec![0]);
    assert_eq!(
        parse_intervals("Draw_start", &symbols).unwrap_err(),
        IntervalError::UnknownSymbol { line: 0 }
    );
}

#[test]
fn short_line_may_stand_for_several_labels() {
    let mut symbols = interval_symbols();
    symbols.insert("Blit_start_a".to_string(), 0x600);
    symbols.insert("Blit_start_b".to_string(), 0x610);
    symbols.insert("Blit_end".to_string(), 0x680);
    let (intervals, _) = parse_intervals("Blit", &symbols).unwrap();
    assert_eq!(intervals.starts_at(0x600), vec![0]);
    assert_eq!(intervals.starts_at(0x610), vec![0]);
    assert_eq!(intervals.ends_at(0x680), vec![0]);
}

#[test]
fn unknown_token_is_refused_with_its_line() {
    let symbols = interval_symbols();
    assert_eq!(
        parse_intervals("10,20\nMain,Missing\n", &symbols).unwrap_err(),
        IntervalError::UnknownSymbol { line: 1 }
    );
    assert_eq!(
        parse_intervals("Missing,20", &symbols).unwrap_err(),
        IntervalError::UnknownSymbol { line: 0 }
    );
    assert_eq!(
        parse_intervals("10;,20", &symbols).unwrap_err(),
        IntervalError::UnknownSymbol { line: 0 }
    );
    assert_eq!(
        parse_intervals("// fine\n\n /,/", &symbols).unwrap_err(),
        IntervalError::UnknownSymbol { line: 2 }
    );
}

#[test]
fn prefix_defines_several_starts() {
    let symbols = interval_symbols();
    let (intervals, _) = parse_intervals("Sound_,Main,sound", &symbols).unwrap();
    assert_eq!(intervals.starts_at(0x400), vec![0]);
    assert_eq!(intervals.starts_at(0x410), vec![0]);
    assert_eq!(intervals.ends_at(0x200), vec![0]);
    let mut addresses = intervals.addresses().clone();
    addresses.sort();
    assert_eq!(addresses, vec![0x200, 0x400, 0x410]);
}

#[test]
fn bytes_are_decoded_before_they_are_read() {
    let symbols = interval_symbols();
    let (intervals, lanes) = read_intervals(b"10,20,caf\xc3\xa9,l\xffane\n", &symbols).unwrap();
    assert_eq!(intervals.info(0).name, "caf\u{e9}");
    assert_eq!(lanes, vec![("l\u{fffd}ane".to_string(), 2)]);
    let (intervals, _) = read_intervals(b"10,20,\xc2\xa0name\xe3\x80\x80", &symbols).unwrap();
    assert_eq!(intervals.info(0).name, "name");
}
