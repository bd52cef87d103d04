//! The binary trace: its packets and the decoder that reads them.
//!
//! A trace file is a 256-byte header followed by packets. Each packet is a
//! tag byte, a 32-bit cycle count relative to the running cycle offset, a
//! 32-bit stack pointer and, for some tags, a 32-bit payload. All fields are
//! little-endian.

use vstd::prelude::*;
use crate::bytes::{read_u32_le, u32_le_at};

verus! {

/// The format version this decoder was written for.
pub const MDP_VERSION: u8 = 1;

/// Offset of the first packet.
pub const HEADER_LEN: usize = 256;

/// Bytes of the header that carry fields; a shorter file has no header.
pub const HEADER_FIELDS_LEN: usize = 12;

/// Tag, relative cycle and stack pointer: the part every packet has.
pub const PACKET_PREFIX_LEN: usize = 9;

pub const PROFILER_PACKET_SUBROUTINE_ENTER: u8 = 0;

pub const PROFILER_PACKET_SUBROUTINE_EXIT: u8 = 1;

pub const PROFILER_PACKET_INTERRUPT_ENTER: u8 = 2;

pub const PROFILER_PACKET_INTERRUPT_EXIT: u8 = 3;

pub const PROFILER_PACKET_HINT: u8 = 4;

pub const PROFILER_PACKET_VINT: u8 = 5;

pub const PROFILER_PACKET_ADJUST_CYCLES: u8 = 6;

pub const PROFILER_PACKET_MANUAL_BREAKPOINT: u8 = 7;

/// What a packet reports, with its payload.
#[derive(Debug, Clone, Copy, PartialEq, Eq, Structural)]
pub enum ProfilingPacketInner {
    SubroutineEnter { target_subroutine: u32 },
    SubroutineExit,
    InterruptEnter { target_interrupt: u32 },
    InterruptExit,
    HInt,
    VInt,
    ManualBreakpoint { pc: u32 },
}

/// One decoded packet. `cycle` is absolute: the cycle offset in force when
/// the packet was read is already added in.
#[derive(Debug, Clone, Copy, PartialEq, Eq, Structural)]
pub struct ProfilingPacket {
    pub cycle: u64,
    pub stack_pointer: u32,
    pub inner: ProfilingPacketInner,
}

/// A decoded trace file.
#[derive(Debug, Clone, PartialEq, Eq)]
pub struct ParsedProfilingFile {
    pub packets: Vec<ProfilingPacket>,
    /// Clock rate of the traced processor, in cycles per second.
    pub mclk: u32,
    pub m68k_divider: u64,
    /// The format version the file declares. A version other than
    /// [`MDP_VERSION`] is decoded all the same.
    pub version: u8,
}

/// The arguments of a metadata event.
#[derive(Debug, Clone, PartialEq, Eq)]
pub struct TraceEventArgs {
    pub name: Option<String>,
    pub sort_index: Option<u32>,
}

/// What a [`TraceEventArgs`] holds, as plain values.
pub struct TraceEventArgsView {
    pub name: Option<Seq<char>>,
    pub sort_index: Option<u32>,
}

impl View for TraceEventArgs {
    type V = TraceEventArgsView;

    open spec fn view(&self) -> TraceEventArgsView {
        TraceEventArgsView {
            name: match self.name {
                Some(n) => Some(n@),
                None => None,
            },
            sort_index: self.sort_index,
        }
    }
}

/// One event of the timeline. `ts` and `dur` are in processor cycles.
///
/// `ph` is the phase: `'X'` for an event with a duration, `'i'` for a
/// marker, `'M'` for metadata. `tid` is the lane, `s` the scope of a marker.
#[derive(Debug, Clone, PartialEq, Eq)]
pub struct TraceEvent {
    pub name: String,
    pub ph: char,
    pub ts: u64,
    pub dur: u64,
    pub pid: u32,
    pub tid: u32,
    pub args: Option<TraceEventArgs>,
    pub s: Option<char>,
}

/// What a [`TraceEvent`] holds, as plain values.
pub struct TraceEventView {
    pub name: Seq<char>,
    pub ph: char,
    pub ts: u64,
    pub dur: u64,
    pub pid: u32,
    pub tid: u32,
    pub args: Option<TraceEventArgsView>,
    pub s: Option<char>,
}

impl View for TraceEvent {
    type V = TraceEventView;

    open spec fn view(&self) -> TraceEventView {
        TraceEventView {
            name: self.name@,
            ph: self.ph,
            ts: self.ts,
            dur: self.dur,
            pid: self.pid,
            tid: self.tid,
            args: match self.args {
                Some(a) => Some(a@),
                None => None,
            },
            s: self.s,
        }
    }
}

/// The lane of the main execution.
pub const MAIN_LANE: u32 = 0;

/// The lane of the interrupts.
pub const INTERRUPT_LANE: u32 = 1;

/// The first lane id given to a named lane.
pub const FIRST_CUSTOM_LANE: u32 = 2;

/// A list of events, as plain values.
pub open spec fn events_view(events: Seq<TraceEvent>) -> Seq<TraceEventView> {
    events.map_values(|e: TraceEvent| e@)
}

/// The event for something that ran from cycle `start` for `dur` cycles on
/// lane `tid`.
pub open spec fn duration_event(name: Seq<char>, start: u64, dur: u64, tid: u32) -> TraceEventView {
    TraceEventView { name, ph: 'X', ts: start, dur, pid: 0, tid, args: None, s: None }
}

/// The marker for something that happened at cycle `at`, shown across all
/// lanes.
pub open spec fn instant_event(name: Seq<char>, at: u64, tid: u32) -> TraceEventView {
    TraceEventView { name, ph: 'i', ts: at, dur: 0, pid: 0, tid, args: None, s: Some('g') }
}

/// The metadata event of kind `name` for lane `tid`.
pub open spec fn metadata_event(
    name: Seq<char>,
    tid: u32,
    args: TraceEventArgsView,
) -> TraceEventView {
    TraceEventView { name, ph: 'M', ts: 0, dur: 0, pid: 0, tid, args: Some(args), s: None }
}

impl TraceEvent {
    /// An event with a duration.
    pub fn duration(name: String, start: u64, dur: u64, tid: u32) -> (event: TraceEvent)
        ensures
            event@ == duration_event(name@, start, dur, tid),
    {
        TraceEvent { name, ph: 'X', ts: start, dur, pid: 0, tid, args: None, s: None }
    }

    /// A marker.
    pub fn instant(name: String, at: u64, tid: u32) -> (event: TraceEvent)
        ensures
            event@ == instant_event(name@, at, tid),
    {
        TraceEvent { name, ph: 'i', ts: at, dur: 0, pid: 0, tid, args: None, s: Some('g') }
    }

    /// A metadata event.
    pub fn metadata(name: String, tid: u32, args: TraceEventArgs) -> (event: TraceEvent)
        ensures
            event@ == metadata_event(name@, tid, args@),
    {
        TraceEvent { name, ph: 'M', ts: 0, dur: 0, pid: 0, tid, args: Some(args), s: None }
    }
}

/// Why a trace could not be decoded. `offset` is the position of the tag
/// byte of the packet at fault.
#[derive(Debug, Clone, Copy, PartialEq, Eq, Structural)]
pub enum DecodeError {
    /// The file is shorter than the header's fields.
    TruncatedHeader,
    /// The file ends inside the packet that starts at `offset`.
    TruncatedPacket { offset: usize },
    /// The packet at `offset` has a tag that names no packet type.
    UnknownPacketType { offset: usize, tag: u8 },
    /// The absolute cycle of the packet at `offset`, or the cycle offset
    /// after it, does not fit in 64 bits.
    CycleOverflow { offset: usize },
}

/// Number of payload bytes that follow the nine-byte prefix of a packet.
pub open spec fn payload_len(tag: u8) -> int {
    if tag == PROFILER_PACKET_SUBROUTINE_ENTER || tag == PROFILER_PACKET_INTERRUPT_ENTER || tag
        == PROFILER_PACKET_ADJUST_CYCLES || tag == PROFILER_PACKET_MANUAL_BREAKPOINT {
        4
    } else {
        0
    }
}

/// The kind of packet a tag and payload stand for. Not meant for the
/// cycle-adjustment tag, which yields no packet.
pub open spec fn inner_of(tag: u8, payload: u32) -> ProfilingPacketInner {
    if tag == PROFILER_PACKET_SUBROUTINE_ENTER {
        ProfilingPacketInner::SubroutineEnter { target_subroutine: payload }
    } else if tag == PROFILER_PACKET_SUBROUTINE_EXIT {
        ProfilingPacketInner::SubroutineExit
    } else if tag == PROFILER_PACKET_INTERRUPT_ENTER {
        ProfilingPacketInner::InterruptEnter { target_interrupt: payload }
    } else if tag == PROFILER_PACKET_INTERRUPT_EXIT {
        ProfilingPacketInner::InterruptExit
    } else if tag == PROFILER_PACKET_HINT {
        ProfilingPacketInner::HInt
    } else if tag == PROFILER_PACKET_VINT {
        ProfilingPacketInner::VInt
    } else {
        ProfilingPacketInner::ManualBreakpoint { pc: payload }
    }
}

/// A full packet with a known tag starts at `pos`.
pub open spec fn frame_at(bytes: Seq<u8>, pos: int) -> bool {
    &&& 0 <= pos
    &&& pos + PACKET_PREFIX_LEN <= bytes.len()
    &&& bytes[pos] <= PROFILER_PACKET_MANUAL_BREAKPOINT
    &&& pos + PACKET_PREFIX_LEN + payload_len(bytes[pos]) <= bytes.len()
}

/// Length in bytes of the packet at `pos`.
pub open spec fn frame_len(bytes: Seq<u8>, pos: int) -> int {
    PACKET_PREFIX_LEN + payload_len(bytes[pos])
}

/// `packets` in front of what the rest of the stream decodes to.
pub open spec fn prepend(
    packets: Seq<ProfilingPacket>,
    rest: Result<Seq<ProfilingPacket>, DecodeError>,
) -> Result<Seq<ProfilingPacket>, DecodeError> {
    match rest {
        Ok(tail) => Ok(packets + tail),
        Err(e) => Err(e),
    }
}

/// The packets of the stream that starts at `pos`, read with the running
/// cycle offset `cycle_offset`; or the first error met.
///
/// A cycle-adjustment packet adds its payload to the cycle offset and yields
/// no packet. Every other packet gets the absolute cycle
/// `cycle_offset + relative cycle`.
pub open spec fn decode_stream(bytes: Seq<u8>, pos: int, cycle_offset: int) -> Result<
    Seq<ProfilingPacket>,
    DecodeError,
>
    decreases bytes.len() - pos,
{
    if pos < 0 || pos >= bytes.len() {
        Ok(Seq::empty())
    } else if pos + PACKET_PREFIX_LEN > bytes.len() {
        Err(DecodeError::TruncatedPacket { offset: pos as usize })
    } else if bytes[pos] > PROFILER_PACKET_MANUAL_BREAKPOINT {
        Err(DecodeError::UnknownPacketType { offset: pos as usize, tag: bytes[pos] })
    } else if pos + PACKET_PREFIX_LEN + payload_len(bytes[pos]) > bytes.len() {
        Err(DecodeError::TruncatedPacket { offset: pos as usize })
    } else if bytes[pos] == PROFILER_PACKET_ADJUST_CYCLES {
        let delta = u32_le_at(bytes, pos + PACKET_PREFIX_LEN);
        if cycle_offset + delta > u64::MAX {
            Err(DecodeError::CycleOverflow { offset: pos as usize })
        } else {
            decode_stream(bytes, pos + frame_len(bytes, pos), cycle_offset + delta)
        }
    } else {
        let cycle = cycle_offset + u32_le_at(bytes, pos + 1);
        if cycle > u64::MAX {
            Err(DecodeError::CycleOverflow { offset: pos as usize })
        } else {
            let packet = ProfilingPacket {
                cycle: cycle as u64,
                stack_pointer: u32_le_at(bytes, pos + 5) as u32,
                inner: inner_of(bytes[pos], u32_le_at(bytes, pos + PACKET_PREFIX_LEN) as u32),
            };
            prepend(seq![packet], decode_stream(bytes, pos + frame_len(bytes, pos), cycle_offset))
        }
    }
}

/// Decodes a trace file.
///
/// A file shorter than the header's fields is refused. Otherwise the result
/// is what [`decode_stream`] gives from the end of the header with a cycle
/// offset of zero, together with the header's fields. A file that ends inside
/// the header's padding has no packets.
pub fn read_profiling_file(input: &[u8]) -> (result: Result<ParsedProfilingFile, DecodeError>)
    ensures
        input@.len() < HEADER_FIELDS_LEN ==> result == Err::<ParsedProfilingFile, DecodeError>(
            DecodeError::TruncatedHeader,
        ),
        input@.len() >= HEADER_FIELDS_LEN ==> match decode_stream(input@, HEADER_LEN as int, 0) {
            Ok(packets) => {
                &&& result is Ok
                &&& result->Ok_0.packets@ == packets
                &&& result->Ok_0.version == input@[3]
                &&& result->Ok_0.mclk == u32_le_at(input@, 4)
                &&& result->Ok_0.m68k_divider == u32_le_at(input@, 8)
            },
            Err(e) => result == Err::<ParsedProfilingFile, DecodeError>(e),
        },
{
    if input.len() < HEADER_FIELDS_LEN {
        return Err(DecodeError::TruncatedHeader);
    }
    let version: u8 = input[3];
    let mclk: u32 = read_u32_le(input, 4);
    let m68k_divider: u64 = read_u32_le(input, 8) as u64;
    let mut packets: Vec<ProfilingPacket> = Vec::new();
    let mut cycle_offset: u64 = 0;
    let mut i: usize = HEADER_LEN;
    while i < input.len()
        invariant
            HEADER_LEN <= i,
            decode_stream(input@, HEADER_LEN as int, 0) == prepend(
                packets@,
                decode_stream(input@, i as int, cycle_offset as int),
            ),
        decreases input.len() - i,
    {
        let remaining: usize = input.len() - i;
        if remaining < PACKET_PREFIX_LEN {
            return Err(DecodeError::TruncatedPacket { offset: i });
        }
        let tag: u8 = input[i];
        let cycle32: u32 = read_u32_le(input, i + 1);
        let stack_pointer: u32 = read_u32_le(input, i + 5);
        if tag > PROFILER_PACKET_MANUAL_BREAKPOINT {
            return Err(DecodeError::UnknownPacketType { offset: i, tag });
        }
        let has_payload: bool = tag == PROFILER_PACKET_SUBROUTINE_ENTER || tag
            == PROFILER_PACKET_INTERRUPT_ENTER || tag == PROFILER_PACKET_ADJUST_CYCLES || tag
            == PROFILER_PACKET_MANUAL_BREAKPOINT;
        let mut payload: u32 = 0;
        let mut next: usize = i + PACKET_PREFIX_LEN;
        if has_payload {
            if remaining - PACKET_PREFIX_LEN < 4 {
                return Err(DecodeError::TruncatedPacket { offset: i });
            }
            payload = read_u32_le(input, next);
            next = next + 4;
        }
        if tag == PROFILER_PACKET_ADJUST_CYCLES {
            if u64::MAX - cycle_offset < payload as u64 {
                return Err(DecodeError::CycleOverflow { offset: i });
            }
            cycle_offset = cycle_offset + payload as u64;
        } else {
            if u64::MAX - cycle_offset < cycle32 as u64 {
                return Err(DecodeError::CycleOverflow { offset: i });
            }
            let inner = if tag == PROFILER_PACKET_SUBROUTINE_ENTER {
                ProfilingPacketInner::SubroutineEnter { target_subroutine: payload }
            } else if tag == PROFILER_PACKET_SUBROUTINE_EXIT {
                ProfilingPacketInner::SubroutineExit
            } else if tag == PROFILER_PACKET_INTERRUPT_ENTER {
                ProfilingPacketInner::InterruptEnter { target_interrupt: payload }
            } else if tag == PROFILER_PACKET_INTERRUPT_EXIT {
                ProfilingPacketInner::InterruptExit
            } else if tag == PROFILER_PACKET_HINT {
                ProfilingPacketInner::HInt
            } else if tag == PROFILER_PACKET_VINT {
                ProfilingPacketInner::VInt
            } else {
                ProfilingPacketInner::ManualBreakpoint { pc: payload }
            };
            let packet = ProfilingPacket {
                cycle: cycle_offset + cycle32 as u64,
                stack_pointer,
                inner,
            };
            proof {
                let rest = decode_stream(input@, next as int, cycle_offset as int);
                match rest {
                    Ok(tail) => {
                        assert(packets@ + (seq![packet] + tail) =~= packets@.push(packet) + tail);
                    },
                    Err(_) => {},
                }
            }
            packets.push(packet);
        }
        i = next;
    }
    proof {
        assert(packets@ + Seq::<ProfilingPacket>::empty() =~= packets@);
    }
    Ok(ParsedProfilingFile { packets, mclk, m68k_divider, version })
}

/// Total length in bytes of the run of full packets that starts at `pos`.
pub open spec fn wire_len(bytes: Seq<u8>, pos: int) -> int
    decreases bytes.len() - pos,
{
    if frame_at(bytes, pos) {
        frame_len(bytes, pos) + wire_len(bytes, pos + frame_len(bytes, pos))
    } else {
        0
    }
}

/// Number of packets, in the run of full packets that starts at `pos`, that
/// are not cycle adjustments.
pub open spec fn emitted_count(bytes: Seq<u8>, pos: int) -> nat
    decreases bytes.len() - pos,
{
    if frame_at(bytes, pos) {
        let here: nat = if bytes[pos] == PROFILER_PACKET_ADJUST_CYCLES {
            0
        } else {
            1
        };
        here + emitted_count(bytes, pos + frame_len(bytes, pos))
    } else {
        0
    }
}

/// `shifted` is `packets` with `delta` added to every cycle.
pub open spec fn shifted_by(
    shifted: Seq<ProfilingPacket>,
    packets: Seq<ProfilingPacket>,
    delta: int,
) -> bool {
    &&& shifted.len() == packets.len()
    &&& forall|k: int|
        0 <= k < packets.len() ==> {
            &&& (#[trigger] shifted[k]).cycle == packets[k].cycle + delta
            &&& shifted[k].stack_pointer == packets[k].stack_pointer
            &&& shifted[k].inner == packets[k].inner
        }
}

/// A stream that decodes is made of full packets up to its last byte: no
/// byte is left over, and every packet but the cycle adjustments is in the
/// result.
pub proof fn lemma_decode_consumes_stream(bytes: Seq<u8>, pos: int, cycle_offset: int)
    requires
        0 <= pos <= bytes.len(),
        decode_stream(bytes, pos, cycle_offset) is Ok,
    ensures
        pos + wire_len(bytes, pos) == bytes.len(),
        decode_stream(bytes, pos, cycle_offset)->Ok_0.len() == emitted_count(bytes, pos),
    decreases bytes.len() - pos,
{
    if pos < bytes.len() {
        let next = pos + frame_len(bytes, pos);
        if bytes[pos] == PROFILER_PACKET_ADJUST_CYCLES {
            let delta = u32_le_at(bytes, pos + PACKET_PREFIX_LEN);
            lemma_decode_consumes_stream(bytes, next, cycle_offset + delta);
        } else {
            lemma_decode_consumes_stream(bytes, next, cycle_offset);
        }
    }
}

/// Decoding with a cycle offset that is larger by `delta` gives the same
/// packets with `delta` added to every cycle.
pub proof fn lemma_offset_shifts_cycles(bytes: Seq<u8>, pos: int, cycle_offset: int, delta: int)
    requires
        0 <= cycle_offset,
        0 <= delta,
        decode_stream(bytes, pos, cycle_offset + delta) is Ok,
    ensures
        decode_stream(bytes, pos, cycle_offset) is Ok,
        shifted_by(
            decode_stream(bytes, pos, cycle_offset + delta)->Ok_0,
            decode_stream(bytes, pos, cycle_offset)->Ok_0,
            delta,
        ),
    decreases bytes.len() - pos,
{
    if 0 <= pos < bytes.len() {
        let next = pos + frame_len(bytes, pos);
        if bytes[pos] == PROFILER_PACKET_ADJUST_CYCLES {
            let step = u32_le_at(bytes, pos + PACKET_PREFIX_LEN);
            lemma_offset_shifts_cycles(bytes, next, cycle_offset + step, delta);
        } else {
            lemma_offset_shifts_cycles(bytes, next, cycle_offset, delta);
        }
    }
}

/// A cycle adjustment yields no packet of its own, and every packet after it
/// has the adjustment's payload added to its cycle.
pub proof fn lemma_adjustment_shifts_later_packets(bytes: Seq<u8>, pos: int, cycle_offset: int)
    requires
        0 <= cycle_offset,
        frame_at(bytes, pos),
        bytes[pos] == PROFILER_PACKET_ADJUST_CYCLES,
        decode_stream(bytes, pos, cycle_offset) is Ok,
    ensures
        decode_stream(bytes, pos + frame_len(bytes, pos), cycle_offset) is Ok,
        shifted_by(
            decode_stream(bytes, pos, cycle_offset)->Ok_0,
            decode_stream(bytes, pos + frame_len(bytes, pos), cycle_offset)->Ok_0,
            u32_le_at(bytes, pos + PACKET_PREFIX_LEN),
        ),
{
    let delta = u32_le_at(bytes, pos + PACKET_PREFIX_LEN);
    lemma_offset_shifts_cycles(bytes, pos + frame_len(bytes, pos), cycle_offset, delta);
}

} // verus!
