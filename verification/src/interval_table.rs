//! The text that defines intervals, one definition to a line.
//!
//! A line holds up to four fields, separated by commas: the addresses at
//! which the interval starts, those at which it ends, its name, and the name
//! of its lane. Starts and ends are lists separated by semicolons; each is a
//! label, a hexadecimal number, or the beginning of one or more labels.
//!
//! A line of one field is short for a pair of labels: the interval starts at
//! the field with [`START_SUFFIX`] behind it and ends at the field with
//! [`END_SUFFIX`] behind it. A blank line, and a line that begins with two
//! slashes, defines nothing.
//!
//! A lane is given its id when it is first named: the ids run from the
//! first one that is not taken by the main lane and the interrupts.

use vstd::prelude::*;
use crate::intervals::{IntervalInfoView, Intervals, IntervalsView};
use crate::profiling::{FIRST_CUSTOM_LANE, MAIN_LANE};
use crate::symbols::{
    Symbols,
    address_of_label,
    addresses_with_prefix,
    last_index_of,
    lemma_last_index_of,
};
use crate::text::{
    chars_of,
    decode_lossy,
    hex_parse,
    parse_hex,
    pieces_view,
    split,
    split_chars,
    string_of,
    trim,
    trim_chars,
    utf8_lossy,
};

verus! {

/// Why a list of interval definitions was refused. `line` counts the lines
/// from zero.
#[derive(Debug, Clone, Copy, PartialEq, Eq, Structural)]
pub enum IntervalError {
    /// A start or an end on this line is no label, no hexadecimal number
    /// and the beginning of no label.
    UnknownSymbol { line: usize },
    /// This line names a new lane, and no lane id is left for it.
    TooManyLanes { line: usize },
}

/// A list of named lanes, as plain values.
pub open spec fn lanes_view(lanes: Seq<(String, u32)>) -> Seq<(Seq<char>, u32)> {
    lanes.map_values(|lane: (String, u32)| (lane.0@, lane.1))
}

/// What a list of interval definitions builds: the registry, and the named
/// lanes in the order in which they were first named.
pub struct IntervalTable {
    pub intervals: IntervalsView,
    pub lanes: Seq<(Seq<char>, u32)>,
}

/// The addresses a start or an end stands for: that of the label it is; else
/// the number it writes in hexadecimal; else those of the labels that begin
/// with it, for a token that is not empty.
pub open spec fn resolve(token: Seq<char>, symbols: Seq<(Seq<char>, u32)>) -> Option<Seq<u32>> {
    match address_of_label(symbols, token) {
        Some(address) => Some(seq![address]),
        None => match hex_parse(token, u32::MAX as int) {
            Some(value) => Some(seq![value as u32]),
            None => {
                let found = addresses_with_prefix(symbols, token, symbols.len() as int);
                if token.len() > 0 && found.len() > 0 {
                    Some(found)
                } else {
                    None
                }
            },
        },
    }
}

/// The addresses that `tokens` stand for, one token after another; `None`
/// if one of them stands for none.
pub open spec fn resolve_all(tokens: Seq<Seq<char>>, symbols: Seq<(Seq<char>, u32)>) -> Option<
    Seq<u32>,
>
    decreases tokens.len(),
{
    if tokens.len() == 0 {
        Some(Seq::empty())
    } else {
        match (resolve_all(tokens.drop_last(), symbols), resolve(tokens.last(), symbols)) {
            (Some(front), Some(last)) => Some(front + last),
            _ => None,
        }
    }
}

/// `registry` with the definition at `index` starting at each of
/// `addresses`.
pub open spec fn with_starts(
    registry: IntervalsView,
    addresses: Seq<u32>,
    index: usize,
) -> IntervalsView
    decreases addresses.len(),
{
    if addresses.len() == 0 {
        registry
    } else {
        let front = with_starts(registry, addresses.drop_last(), index);
        IntervalsView {
            infos: front.infos,
            starts: front.starts.insert(
                addresses.last(),
                front.starts_at(addresses.last()).push(index),
            ),
            ends: front.ends,
        }
    }
}

/// `registry` with the definition at `index` ending at each of `addresses`.
pub open spec fn with_ends(
    registry: IntervalsView,
    addresses: Seq<u32>,
    index: usize,
) -> IntervalsView
    decreases addresses.len(),
{
    if addresses.len() == 0 {
        registry
    } else {
        let front = with_ends(registry, addresses.drop_last(), index);
        IntervalsView {
            infos: front.infos,
            starts: front.starts,
            ends: front.ends.insert(addresses.last(), front.ends_at(addresses.last()).push(index)),
        }
    }
}

/// `registry` with one more definition, closed, that starts at `starts` and
/// ends at `ends`.
pub open spec fn with_definition(
    registry: IntervalsView,
    name: Seq<char>,
    tid: u32,
    starts: Seq<u32>,
    ends: Seq<u32>,
) -> IntervalsView {
    let index = registry.infos.len() as usize;
    let added = IntervalsView {
        infos: registry.infos.push(IntervalInfoView { name, tid, reached_at: None }),
        starts: registry.starts,
        ends: registry.ends,
    };
    with_ends(with_starts(added, starts, index), ends, index)
}

/// Whether the line is a comment: it begins with two slashes.
pub open spec fn is_comment(line: Seq<char>) -> bool {
    line.len() >= 2 && line[0] == '/' && line[1] == '/'
}

/// The id of the lane `name`: the one it has in `lanes`, or the next free
/// one.
pub open spec fn lane_id(lanes: Seq<(Seq<char>, u32)>, name: Seq<char>) -> int {
    match address_of_label(lanes, name) {
        Some(id) => id as int,
        None => FIRST_CUSTOM_LANE + lanes.len(),
    }
}

/// `lanes` after the lane `name` was named: with `name` at its end if it was
/// not there.
pub open spec fn lanes_with(lanes: Seq<(Seq<char>, u32)>, name: Seq<char>) -> Seq<(Seq<char>, u32)> {
    match address_of_label(lanes, name) {
        Some(_) => lanes,
        None => lanes.push((name, (FIRST_CUSTOM_LANE + lanes.len()) as u32)),
    }
}

/// The name of the lane that a definition line asks for, if it asks for one:
/// its fourth field, trimmed.
pub open spec fn lane_name(line: Seq<char>) -> Option<Seq<char>> {
    let fields = split(line, ',');
    if !is_comment(line) && fields.len() >= 4 {
        Some(trim(fields[3]))
    } else {
        None
    }
}

/// What stands behind the only field of a line for the label at which its
/// interval starts.
pub const START_SUFFIX: &'static str = "_start";

/// What stands behind the only field of a line for the label at which its
/// interval ends.
pub const END_SUFFIX: &'static str = "_end";

/// Whether the line is short for a pair of labels: it has one field.
pub open spec fn is_shorthand(line: Seq<char>) -> bool {
    split(line, ',').len() == 1
}

/// Whether the line defines an interval: it is no comment, and it has at
/// least two fields or one field that is not blank.
pub open spec fn is_definition(line: Seq<char>) -> bool {
    !is_comment(line) && (split(line, ',').len() >= 2 || trim(split(line, ',')[0]).len() > 0)
}

/// The starts of the interval that a line defines: the field with
/// [`START_SUFFIX`] behind it where the line has one field, else the pieces
/// of its first field.
pub open spec fn start_tokens(line: Seq<char>) -> Seq<Seq<char>> {
    let fields = split(line, ',');
    if is_shorthand(line) {
        seq![trim(fields[0]) + START_SUFFIX@]
    } else {
        split(trim(fields[0]), ';')
    }
}

/// The ends of the interval that a line defines: the field with
/// [`END_SUFFIX`] behind it where the line has one field, else the pieces of
/// its second field.
pub open spec fn end_tokens(line: Seq<char>) -> Seq<Seq<char>> {
    let fields = split(line, ',');
    if is_shorthand(line) {
        seq![trim(fields[0]) + END_SUFFIX@]
    } else {
        split(trim(fields[1]), ';')
    }
}

/// The table after one more line.
///
/// A comment and a blank line change nothing. Any other line defines an
/// interval. Where it has two fields or more, its first field holds the
/// starts and its second the ends, each a list separated by semicolons.
/// Where it has one field, the interval starts at that field with
/// [`START_SUFFIX`] behind it and ends at that field with [`END_SUFFIX`]
/// behind it. The third field is the name, which is the whole line where
/// there is no third field; the fourth field names the lane, which is the
/// main lane where there is no fourth field. The line is refused where one
/// of its starts or ends stands for no address.
pub open spec fn add_line(
    table: IntervalTable,
    line: Seq<char>,
    line_no: usize,
    symbols: Seq<(Seq<char>, u32)>,
) -> Result<IntervalTable, IntervalError> {
    let fields = split(line, ',');
    if !is_definition(line) {
        Ok(table)
    } else {
        match (
            resolve_all(start_tokens(line), symbols),
            resolve_all(end_tokens(line), symbols),
        ) {
            (Some(starts), Some(ends)) => {
                let name = if fields.len() >= 3 {
                    trim(fields[2])
                } else {
                    line
                };
                match lane_name(line) {
                    Some(lane) => if lane_id(table.lanes, lane) > u32::MAX {
                        Err(IntervalError::TooManyLanes { line: line_no })
                    } else {
                        Ok(
                            IntervalTable {
                                intervals: with_definition(
                                    table.intervals,
                                    name,
                                    lane_id(table.lanes, lane) as u32,
                                    starts,
                                    ends,
                                ),
                                lanes: lanes_with(table.lanes, lane),
                            },
                        )
                    },
                    None => Ok(
                        IntervalTable {
                            intervals: with_definition(
                                table.intervals,
                                name,
                                MAIN_LANE,
                                starts,
                                ends,
                            ),
                            lanes: table.lanes,
                        },
                    ),
                }
            },
            _ => Err(IntervalError::UnknownSymbol { line: line_no }),
        }
    }
}

/// The table without definitions and without named lanes.
pub open spec fn empty_table() -> IntervalTable {
    IntervalTable {
        intervals: IntervalsView { infos: Seq::empty(), starts: Map::empty(), ends: Map::empty() },
        lanes: Seq::empty(),
    }
}

/// The table that the first `n` of `lines` build, or the error of the first
/// line that is refused.
pub open spec fn table_of_lines(
    lines: Seq<Seq<char>>,
    n: int,
    symbols: Seq<(Seq<char>, u32)>,
) -> Result<IntervalTable, IntervalError>
    decreases n,
{
    if n <= 0 {
        Ok(empty_table())
    } else {
        match table_of_lines(lines, n - 1, symbols) {
            Ok(table) => add_line(table, lines[n - 1], (n - 1) as usize, symbols),
            Err(e) => Err(e),
        }
    }
}

/// The table that a text of interval definitions builds, one definition to
/// a line.
pub open spec fn interval_table(text: Seq<char>, symbols: Seq<(Seq<char>, u32)>) -> Result<
    IntervalTable,
    IntervalError,
> {
    table_of_lines(split(text, '\n'), split(text, '\n').len() as int, symbols)
}

fn resolve_token(token: &[char], symbols: &Symbols) -> (addresses: Option<Vec<u32>>)
    ensures
        match addresses {
            Some(found) => resolve(token@, symbols@) == Some(found@),
            None => resolve(token@, symbols@) is None,
        },
{
    let label = string_of(token);
    match symbols.address_of(&label) {
        Some(address) => {
            let mut found: Vec<u32> = Vec::new();
            found.push(address);
            assert(found@ =~= seq![address]);
            Some(found)
        },
        None => match parse_hex(token, 0xffff_ffff) {
            Some(value) => {
                let mut found: Vec<u32> = Vec::new();
                found.push(value as u32);
                assert(found@ =~= seq![value as u32]);
                Some(found)
            },
            None => {
                let found = symbols.addresses_with_prefix(token);
                if token.len() > 0 && found.len() > 0 {
                    Some(found)
                } else {
                    None
                }
            },
        },
    }
}

/// Finds the addresses that a start or an end of a definition stands for.
pub fn read_interval_elm(input: &str, symbols: &Symbols) -> (addresses: Option<Vec<u32>>)
    ensures
        match addresses {
            Some(found) => resolve(input@, symbols@) == Some(found@),
            None => resolve(input@, symbols@) is None,
        },
{
    let token = chars_of(input);
    resolve_token(token.as_slice(), symbols)
}

fn resolve_field(field: &Vec<char>, symbols: &Symbols) -> (addresses: Option<Vec<u32>>)
    ensures
        match addresses {
            Some(found) => resolve_all(split(trim(field@), ';'), symbols@) == Some(found@),
            None => resolve_all(split(trim(field@), ';'), symbols@) is None,
        },
{
    let trimmed = trim_chars(field.as_slice());
    let tokens = split_chars(trimmed.as_slice(), ';');
    let ghost all = pieces_view(tokens@);
    let mut found: Vec<u32> = Vec::new();
    let mut k: usize = 0;
    proof {
        assert(all.take(0) =~= Seq::<Seq<char>>::empty());
    }
    while k < tokens.len()
        invariant
            k <= tokens@.len(),
            all == pieces_view(tokens@),
            all == split(trim(field@), ';'),
            resolve_all(all.take(k as int), symbols@) == Some(found@),
        decreases tokens.len() - k,
    {
        proof {
            assert(all.take(k + 1).drop_last() =~= all.take(k as int));
            assert(all.take(k + 1).last() == tokens@[k as int]@);
        }
        match resolve_token(tokens[k].as_slice(), symbols) {
            Some(more) => {
                let ghost before = found@;
                let mut m: usize = 0;
                while m < more.len()
                    invariant
                        m <= more@.len(),
                        found@ == before + more@.take(m as int),
                    decreases more.len() - m,
                {
                    found.push(more[m]);
                    proof {
                        assert(found@ =~= before + more@.take(m + 1));
                    }
                    m = m + 1;
                }
                proof {
                    assert(more@.take(more@.len() as int) =~= more@);
                }
            },
            None => {
                proof {
                    if resolve_all(all, symbols@) is Some {
                        lemma_resolve_all_prefix(all, k + 1, symbols@);
                    }
                }
                return None;
            },
        }
        k = k + 1;
    }
    proof {
        assert(all.take(all.len() as int) =~= all);
    }
    Some(found)
}

/// Where all of `tokens` stand for addresses, so do the first `n` of them.
pub proof fn lemma_resolve_all_prefix(
    tokens: Seq<Seq<char>>,
    n: int,
    symbols: Seq<(Seq<char>, u32)>,
)
    requires
        0 <= n <= tokens.len(),
        resolve_all(tokens, symbols) is Some,
    ensures
        resolve_all(tokens.take(n), symbols) is Some,
    decreases tokens.len(),
{
    if n == tokens.len() {
        assert(tokens.take(n) =~= tokens);
    } else {
        assert(tokens.drop_last().take(n) =~= tokens.take(n));
        lemma_resolve_all_prefix(tokens.drop_last(), n, symbols);
    }
}

fn lane_of(lanes: &Vec<(String, u32)>, name: &String) -> (id: Option<u32>)
    ensures
        id == address_of_label(lanes_view(lanes@), name@),
{
    let ghost table = lanes_view(lanes@);
    let mut i: usize = lanes.len();
    proof {
        assert(table.take(table.len() as int) =~= table);
    }
    while i > 0
        invariant
            i <= lanes@.len(),
            table == lanes_view(lanes@),
            last_index_of(table, name@) == last_index_of(
                table.take(i as int),
                name@,
            ),
        decreases i,
    {
        proof {
            assert(table.take(i as int).drop_last() =~= table.take(i - 1));
            assert(table[i - 1] == (lanes@[i - 1].0@, lanes@[i - 1].1));
        }
        if lanes[i - 1].0 == *name {
            return Some(lanes[i - 1].1);
        }
        i = i - 1;
    }
    None
}

impl Intervals {
    /// Lets the definition at `index` start at each of `addresses`.
    pub fn add_starts(&mut self, addresses: &Vec<u32>, index: usize)
        requires
            old(self).wf(),
            index < old(self)@.infos.len(),
        ensures
            final(self).wf(),
            final(self)@ == with_starts(old(self)@, addresses@, index),
            final(self)@.infos == old(self)@.infos,
    {
        let ghost first = self@;
        let mut m: usize = 0;
        proof {
            assert(addresses@.take(0) =~= Seq::<u32>::empty());
        }
        while m < addresses.len()
            invariant
                m <= addresses@.len(),
                self.wf(),
                self@.infos == first.infos,
                index < first.infos.len(),
                self@ == with_starts(first, addresses@.take(m as int), index),
            decreases addresses.len() - m,
        {
            proof {
                assert(addresses@.take(m + 1).drop_last() =~= addresses@.take(m as int));
            }
            self.add_start(addresses[m], index);
            m = m + 1;
        }
        proof {
            assert(addresses@.take(addresses@.len() as int) =~= addresses@);
        }
    }

    /// Lets the definition at `index` end at each of `addresses`.
    pub fn add_ends(&mut self, addresses: &Vec<u32>, index: usize)
        requires
            old(self).wf(),
            index < old(self)@.infos.len(),
        ensures
            final(self).wf(),
            final(self)@ == with_ends(old(self)@, addresses@, index),
            final(self)@.infos == old(self)@.infos,
    {
        let ghost first = self@;
        let mut m: usize = 0;
        proof {
            assert(addresses@.take(0) =~= Seq::<u32>::empty());
        }
        while m < addresses.len()
            invariant
                m <= addresses@.len(),
                self.wf(),
                self@.infos == first.infos,
                index < first.infos.len(),
                self@ == with_ends(first, addresses@.take(m as int), index),
            decreases addresses.len() - m,
        {
            proof {
                assert(addresses@.take(m + 1).drop_last() =~= addresses@.take(m as int));
            }
            self.add_end(addresses[m], index);
            m = m + 1;
        }
        proof {
            assert(addresses@.take(addresses@.len() as int) =~= addresses@);
        }
    }
}

/// Finds the addresses that `token` with `suffix` behind it stands for.
fn resolve_variant(token: &Vec<char>, suffix: &str, symbols: &Symbols) -> (addresses: Option<
    Vec<u32>,
>)
    ensures
        match addresses {
            Some(found) => resolve_all(seq![token@ + suffix@], symbols@) == Some(found@),
            None => resolve_all(seq![token@ + suffix@], symbols@) is None,
        },
{
    let tail = chars_of(suffix);
    let mut label: Vec<char> = Vec::new();
    let mut i: usize = 0;
    while i < token.len()
        invariant
            i <= token@.len(),
            label@ == token@.take(i as int),
        decreases token.len() - i,
    {
        label.push(token[i]);
        proof {
            assert(label@ =~= token@.take(i + 1));
        }
        i = i + 1;
    }
    let mut j: usize = 0;
    proof {
        assert(token@.take(token@.len() as int) =~= token@);
        assert(label@ =~= token@ + tail@.take(0));
    }
    while j < tail.len()
        invariant
            j <= tail@.len(),
            label@ == token@ + tail@.take(j as int),
        decreases tail.len() - j,
    {
        label.push(tail[j]);
        proof {
            assert(label@ =~= token@ + tail@.take(j + 1));
        }
        j = j + 1;
    }
    proof {
        assert(tail@.take(tail@.len() as int) =~= tail@);
        let tokens = seq![token@ + suffix@];
        assert(tokens.drop_last() =~= Seq::<Seq<char>>::empty());
        assert(tokens.last() == label@);
    }
    let found = resolve_token(label.as_slice(), symbols);
    proof {
        let tokens = seq![token@ + suffix@];
        assert(resolve_all(tokens.drop_last(), symbols@) == Some(Seq::<u32>::empty()));
        if found is Some {
            assert(Seq::<u32>::empty() + found->Some_0@ =~= found->Some_0@);
        }
    }
    found
}

fn comment_line(line: &Vec<char>) -> (yes: bool)
    ensures
        yes == is_comment(line@),
{
    line.len() >= 2 && line[0] == '/' && line[1] == '/'
}

/// Reads one line of definitions into the registry and the list of lanes.
fn define_line(
    intervals: &mut Intervals,
    lanes: &mut Vec<(String, u32)>,
    line: &Vec<char>,
    line_no: usize,
    symbols: &Symbols,
) -> (done: Result<(), IntervalError>)
    requires
        old(intervals).wf(),
        old(intervals)@.all_closed(),
    ensures
        final(intervals).wf(),
        final(intervals)@.all_closed(),
        match add_line(
            IntervalTable { intervals: old(intervals)@, lanes: lanes_view(old(lanes)@) },
            line@,
            line_no,
            symbols@,
        ) {
            Ok(table) => {
                &&& done is Ok
                &&& final(intervals)@ == table.intervals
                &&& lanes_view(final(lanes)@) == table.lanes
            },
            Err(e) => done == Err::<(), IntervalError>(e),
        },
{
    if comment_line(line) {
        return Ok(());
    }
    let fields = split_chars(line.as_slice(), ',');
    proof {
        assert(pieces_view(fields@)[0] == fields@[0]@);
    }
    let shorthand: bool = fields.len() == 1;
    let token = trim_chars(fields[0].as_slice());
    if shorthand && token.len() == 0 {
        return Ok(());
    }
    let resolved_starts = if shorthand {
        resolve_variant(&token, START_SUFFIX, symbols)
    } else {
        resolve_field(&fields[0], symbols)
    };
    let starts = match resolved_starts {
        Some(found) => found,
        None => {
            return Err(IntervalError::UnknownSymbol { line: line_no });
        },
    };
    let resolved_ends = if shorthand {
        resolve_variant(&token, END_SUFFIX, symbols)
    } else {
        proof {
            assert(pieces_view(fields@)[1] == fields@[1]@);
        }
        resolve_field(&fields[1], symbols)
    };
    let ends = match resolved_ends {
        Some(found) => found,
        None => {
            return Err(IntervalError::UnknownSymbol { line: line_no });
        },
    };
    let name: String = if fields.len() >= 3 {
        proof {
            assert(pieces_view(fields@)[2] == fields@[2]@);
        }
        let trimmed = trim_chars(fields[2].as_slice());
        string_of(trimmed.as_slice())
    } else {
        string_of(line.as_slice())
    };
    let ghost lanes_before = lanes_view(lanes@);
    let tid: u32 = if fields.len() >= 4 {
        proof {
            assert(pieces_view(fields@)[3] == fields@[3]@);
        }
        let trimmed = trim_chars(fields[3].as_slice());
        let lane = string_of(trimmed.as_slice());
        match lane_of(lanes, &lane) {
            Some(id) => id,
            None => {
                if lanes.len() > 0xffff_fffd {
                    return Err(IntervalError::TooManyLanes { line: line_no });
                }
                let id: u32 = FIRST_CUSTOM_LANE + lanes.len() as u32;
                lanes.push((lane, id));
                proof {
                    assert(lanes_view(lanes@) =~= lanes_before.push((lane@, id)));
                }
                id
            },
        }
    } else {
        MAIN_LANE
    };
    let index = intervals.add_interval(name, tid);
    intervals.add_starts(&starts, index);
    intervals.add_ends(&ends, index);
    Ok(())
}

/// Reads a text of interval definitions, one definition to a line, against
/// the symbol table `symbols`.
///
/// Returns the registry, with every interval closed, and the named lanes in
/// the order in which they were first named.
pub fn parse_intervals(text: &str, symbols: &Symbols) -> (result: Result<
    (Intervals, Vec<(String, u32)>),
    IntervalError,
>)
    ensures
        match interval_table(text@, symbols@) {
            Ok(table) => {
                &&& result is Ok
                &&& result->Ok_0.0.wf()
                &&& result->Ok_0.0@ == table.intervals
                &&& result->Ok_0.0@.all_closed()
                &&& lanes_view(result->Ok_0.1@) == table.lanes
            },
            Err(e) => result is Err && result->Err_0 == e,
        },
{
    let chars = chars_of(text);
    let lines = split_chars(chars.as_slice(), '\n');
    let ghost all = pieces_view(lines@);
    let mut intervals = Intervals::new();
    let mut lanes: Vec<(String, u32)> = Vec::new();
    let mut k: usize = 0;
    proof {
        assert(lanes_view(lanes@) =~= Seq::<(Seq<char>, u32)>::empty());
        assert(intervals@ == empty_table().intervals);
    }
    while k < lines.len()
        invariant
            k <= lines@.len(),
            all == pieces_view(lines@),
            all == split(text@, '\n'),
            intervals.wf(),
            intervals@.all_closed(),
            table_of_lines(all, k as int, symbols@) == Ok::<IntervalTable, IntervalError>(
                IntervalTable { intervals: intervals@, lanes: lanes_view(lanes@) },
            ),
        decreases lines.len() - k,
    {
        proof {
            assert(all[k as int] == lines@[k as int]@);
        }
        match define_line(&mut intervals, &mut lanes, &lines[k], k, symbols) {
            Ok(_) => {},
            Err(e) => {
                proof {
                    lemma_table_error_stays(all, k + 1, all.len() as int, symbols@);
                }
                return Err(e);
            },
        }
        k = k + 1;
    }
    Ok((intervals, lanes))
}

/// Reads the bytes of a file of interval definitions: the text that they
/// decode to, read as [`parse_intervals`] reads it.
pub fn read_intervals(input: &[u8], symbols: &Symbols) -> (result: Result<
    (Intervals, Vec<(String, u32)>),
    IntervalError,
>)
    ensures
        match interval_table(utf8_lossy(input@), symbols@) {
            Ok(table) => {
                &&& result is Ok
                &&& result->Ok_0.0.wf()
                &&& result->Ok_0.0@ == table.intervals
                &&& result->Ok_0.0@.all_closed()
                &&& lanes_view(result->Ok_0.1@) == table.lanes
            },
            Err(e) => result is Err && result->Err_0 == e,
        },
{
    let text = decode_lossy(input);
    parse_intervals(text.as_str(), symbols)
}

/// Once a line is refused, every longer run of lines is refused with the
/// same error.
pub proof fn lemma_table_error_stays(
    lines: Seq<Seq<char>>,
    n: int,
    m: int,
    symbols: Seq<(Seq<char>, u32)>,
)
    requires
        0 <= n <= m,
        table_of_lines(lines, n, symbols) is Err,
    ensures
        table_of_lines(lines, m, symbols) == table_of_lines(lines, n, symbols),
    decreases m - n,
{
    if n < m {
        lemma_table_error_stays(lines, n, m - 1, symbols);
    }
}

/// The lanes are numbered from the first free id on, in the order in which
/// they were named, and no name stands twice.
pub open spec fn lanes_wf(lanes: Seq<(Seq<char>, u32)>) -> bool {
    &&& forall|k: int| 0 <= k < lanes.len() ==> (#[trigger] lanes[k]).1 == FIRST_CUSTOM_LANE + k
    &&& forall|i: int, j: int|
        0 <= i < j < lanes.len() ==> (#[trigger] lanes[i]).0 != (#[trigger] lanes[j]).0
}

/// The id that the definition on the line at index `i` is given: that of
/// the lane it names, or the main lane where it names none.
pub open spec fn line_lane(lines: Seq<Seq<char>>, i: int, symbols: Seq<(Seq<char>, u32)>) -> int {
    match (table_of_lines(lines, i, symbols), lane_name(lines[i])) {
        (Ok(table), Some(lane)) => lane_id(table.lanes, lane),
        _ => MAIN_LANE as int,
    }
}

/// In a well-numbered list, a lane is found under its name with its id.
pub proof fn lemma_lane_found(lanes: Seq<(Seq<char>, u32)>, k: int)
    requires
        lanes_wf(lanes),
        0 <= k < lanes.len(),
    ensures
        address_of_label(lanes, lanes[k].0) == Some(lanes[k].1),
{
    lemma_last_index_of(lanes, lanes[k].0);
    let found = last_index_of(lanes, lanes[k].0);
    assert(found is Some);
    if found->Some_0 < k {
        assert(lanes[found->Some_0].0 != lanes[k].0);
    }
}

/// Naming a lane keeps the list well-numbered and what it held; the lane is
/// then found with the id it was given, which is none of the two fixed
/// lanes' ids.
pub proof fn lemma_lanes_with(lanes: Seq<(Seq<char>, u32)>, name: Seq<char>)
    requires
        lanes_wf(lanes),
        lane_id(lanes, name) <= u32::MAX,
    ensures
        lanes_wf(lanes_with(lanes, name)),
        lanes.is_prefix_of(lanes_with(lanes, name)),
        address_of_label(lanes_with(lanes, name), name) == Some(lane_id(lanes, name) as u32),
        lane_id(lanes, name) >= FIRST_CUSTOM_LANE,
{
    lemma_last_index_of(lanes, name);
    let longer = lanes_with(lanes, name);
    match address_of_label(lanes, name) {
        Some(_) => {
            assert(longer.subrange(0, lanes.len() as int) =~= lanes);
        },
        None => {
            assert(longer.subrange(0, lanes.len() as int) =~= lanes);
            assert forall|i: int, j: int| 0 <= i < j < longer.len() implies (#[trigger] longer[i]).0
                != (#[trigger] longer[j]).0 by {
                if j < lanes.len() {
                    assert(lanes[i].0 != lanes[j].0);
                } else {
                    assert(lanes[i].0 != name);
                }
            }
            assert(lanes_wf(longer));
            lemma_lane_found(longer, lanes.len() as int);
        },
    }
}

/// A line keeps the list of lanes well-numbered and what it held.
pub proof fn lemma_add_line_lanes(
    table: IntervalTable,
    line: Seq<char>,
    line_no: usize,
    symbols: Seq<(Seq<char>, u32)>,
)
    requires
        lanes_wf(table.lanes),
        add_line(table, line, line_no, symbols) is Ok,
    ensures
        lanes_wf(add_line(table, line, line_no, symbols)->Ok_0.lanes),
        table.lanes.is_prefix_of(add_line(table, line, line_no, symbols)->Ok_0.lanes),
        is_definition(line) ==> match lane_name(line) {
            Some(lane) => {
                &&& lane_id(table.lanes, lane) >= FIRST_CUSTOM_LANE
                &&& address_of_label(add_line(table, line, line_no, symbols)->Ok_0.lanes, lane)
                    == Some(lane_id(table.lanes, lane) as u32)
            },
            None => true,
        },
{
    assert(table.lanes.subrange(0, table.lanes.len() as int) =~= table.lanes);
    if is_definition(line) {
        match lane_name(line) {
            Some(lane) => {
                lemma_lanes_with(table.lanes, lane);
            },
            None => {},
        }
    }
}

/// The lists of lanes that a run of lines and a longer run build are both
/// well-numbered, and the longer run's list begins with the shorter run's.
pub proof fn lemma_table_lanes(
    lines: Seq<Seq<char>>,
    n: int,
    m: int,
    symbols: Seq<(Seq<char>, u32)>,
)
    requires
        0 <= n <= m,
        table_of_lines(lines, m, symbols) is Ok,
    ensures
        table_of_lines(lines, n, symbols) is Ok,
        lanes_wf(table_of_lines(lines, n, symbols)->Ok_0.lanes),
        lanes_wf(table_of_lines(lines, m, symbols)->Ok_0.lanes),
        table_of_lines(lines, n, symbols)->Ok_0.lanes.is_prefix_of(
            table_of_lines(lines, m, symbols)->Ok_0.lanes,
        ),
    decreases m,
{
    let last = table_of_lines(lines, m, symbols)->Ok_0.lanes;
    if m == 0 {
        assert(last.subrange(0, last.len() as int) =~= last);
    } else {
        lemma_table_lanes(lines, if n < m {
            n
        } else {
            m - 1
        }, m - 1, symbols);
        let before = table_of_lines(lines, m - 1, symbols)->Ok_0;
        lemma_add_line_lanes(before, lines[m - 1], (m - 1) as usize, symbols);
        if n < m {
            let first = table_of_lines(lines, n, symbols)->Ok_0.lanes;
            assert(first =~= last.subrange(0, first.len() as int)) by {
                assert(first == before.lanes.subrange(0, first.len() as int));
                assert(before.lanes == last.subrange(0, before.lanes.len() as int));
            }
        } else {
            assert(last.subrange(0, last.len() as int) =~= last);
        }
    }
}

/// Two definitions that name the same lane are given the same lane id, and
/// that id is none of the two fixed lanes' ids.
pub proof fn lemma_same_lane_same_id(
    lines: Seq<Seq<char>>,
    symbols: Seq<(Seq<char>, u32)>,
    i: int,
    j: int,
)
    requires
        0 <= i < j < lines.len(),
        table_of_lines(lines, j + 1, symbols) is Ok,
        is_definition(lines[i]),
        is_definition(lines[j]),
        lane_name(lines[i]) is Some,
        lane_name(lines[i]) == lane_name(lines[j]),
    ensures
        line_lane(lines, i, symbols) == line_lane(lines, j, symbols),
        line_lane(lines, i, symbols) >= FIRST_CUSTOM_LANE,
{
    let lane = lane_name(lines[i])->Some_0;
    lemma_table_lanes(lines, i, j + 1, symbols);
    lemma_table_lanes(lines, i + 1, j, symbols);
    lemma_table_lanes(lines, j, j + 1, symbols);
    let before = table_of_lines(lines, i, symbols)->Ok_0;
    let after = table_of_lines(lines, i + 1, symbols)->Ok_0;
    let later = table_of_lines(lines, j, symbols)->Ok_0;
    lemma_add_line_lanes(before, lines[i], i as usize, symbols);
    let id = lane_id(before.lanes, lane) as u32;
    assert(address_of_label(after.lanes, lane) == Some(id));
    lemma_last_index_of(after.lanes, lane);
    let k = last_index_of(after.lanes, lane)->Some_0;
    assert(later.lanes[k] == after.lanes[k]) by {
        assert(after.lanes == later.lanes.subrange(0, after.lanes.len() as int));
    }
    lemma_lane_found(later.lanes, k);
}

/// Letting a definition start somewhere changes no definition.
pub proof fn lemma_with_starts_infos(registry: IntervalsView, addresses: Seq<u32>, index: usize)
    ensures
        with_starts(registry, addresses, index).infos == registry.infos,
    decreases addresses.len(),
{
    if addresses.len() > 0 {
        lemma_with_starts_infos(registry, addresses.drop_last(), index);
    }
}

/// Letting a definition end somewhere changes no definition.
pub proof fn lemma_with_ends_infos(registry: IntervalsView, addresses: Seq<u32>, index: usize)
    ensures
        with_ends(registry, addresses, index).infos == registry.infos,
    decreases addresses.len(),
{
    if addresses.len() > 0 {
        lemma_with_ends_infos(registry, addresses.drop_last(), index);
    }
}

/// A line that defines an interval adds one definition behind those that
/// are there: closed, and on the lane that the line is given. Any other line
/// adds none.
pub proof fn lemma_line_definition(lines: Seq<Seq<char>>, i: int, symbols: Seq<(Seq<char>, u32)>)
    requires
        0 <= i < lines.len(),
        table_of_lines(lines, i + 1, symbols) is Ok,
    ensures
        table_of_lines(lines, i, symbols) is Ok,
        !is_definition(lines[i]) ==> table_of_lines(lines, i + 1, symbols)
            == table_of_lines(lines, i, symbols),
        is_definition(lines[i]) ==> {
            let before = table_of_lines(lines, i, symbols)->Ok_0.intervals.infos;
            let after = table_of_lines(lines, i + 1, symbols)->Ok_0.intervals.infos;
            &&& after.len() == before.len() + 1
            &&& after.drop_last() == before
            &&& after.last().tid == line_lane(lines, i, symbols)
            &&& after.last().reached_at is None
        },
{
    let table = table_of_lines(lines, i, symbols)->Ok_0;
    let line = lines[i];
    if is_definition(line) {
        let fields = split(line, ',');
        let starts = resolve_all(start_tokens(line), symbols)->Some_0;
        let ends = resolve_all(end_tokens(line), symbols)->Some_0;
        let name = if fields.len() >= 3 {
            trim(fields[2])
        } else {
            line
        };
        let tid = line_lane(lines, i, symbols) as u32;
        let index = table.intervals.infos.len() as usize;
        let added = IntervalsView {
            infos: table.intervals.infos.push(IntervalInfoView { name, tid, reached_at: None }),
            starts: table.intervals.starts,
            ends: table.intervals.ends,
        };
        lemma_with_starts_infos(added, starts, index);
        lemma_with_ends_infos(with_starts(added, starts, index), ends, index);
        let after = table_of_lines(lines, i + 1, symbols)->Ok_0.intervals;
        assert(after == with_definition(table.intervals, name, tid, starts, ends));
        assert(after.infos.drop_last() =~= table.intervals.infos);
    }
}

/// The definitions that a run of lines builds stand at the beginning of
/// those that a longer run builds.
pub proof fn lemma_table_infos(
    lines: Seq<Seq<char>>,
    n: int,
    m: int,
    symbols: Seq<(Seq<char>, u32)>,
)
    requires
        0 <= n <= m <= lines.len(),
        table_of_lines(lines, m, symbols) is Ok,
    ensures
        table_of_lines(lines, n, symbols) is Ok,
        table_of_lines(lines, n, symbols)->Ok_0.intervals.infos.is_prefix_of(
            table_of_lines(lines, m, symbols)->Ok_0.intervals.infos,
        ),
    decreases m - n,
{
    let last = table_of_lines(lines, m, symbols)->Ok_0.intervals.infos;
    if n == m {
        assert(last.subrange(0, last.len() as int) =~= last);
    } else {
        lemma_line_definition(lines, m - 1, symbols);
        lemma_table_infos(lines, n, m - 1, symbols);
        let first = table_of_lines(lines, n, symbols)->Ok_0.intervals.infos;
        let before = table_of_lines(lines, m - 1, symbols)->Ok_0.intervals.infos;
        assert(first == before.subrange(0, first.len() as int));
        if is_definition(lines[m - 1]) {
            assert(before == last.drop_last());
        }
        assert(first =~= last.subrange(0, first.len() as int));
    }
}

/// In the registry that lines build, the definitions of two lines that name
/// the same lane are on the same lane, and that lane is none of the two
/// fixed ones.
pub proof fn lemma_same_lane_same_tid(
    lines: Seq<Seq<char>>,
    symbols: Seq<(Seq<char>, u32)>,
    i: int,
    j: int,
    n: int,
)
    requires
        0 <= i < j < n <= lines.len(),
        table_of_lines(lines, n, symbols) is Ok,
        is_definition(lines[i]),
        is_definition(lines[j]),
        lane_name(lines[i]) is Some,
        lane_name(lines[i]) == lane_name(lines[j]),
    ensures
        table_of_lines(lines, i, symbols) is Ok,
        table_of_lines(lines, j, symbols) is Ok,
        ({
            let infos = table_of_lines(lines, n, symbols)->Ok_0.intervals.infos;
            let first = table_of_lines(lines, i, symbols)->Ok_0.intervals.infos.len() as int;
            let second = table_of_lines(lines, j, symbols)->Ok_0.intervals.infos.len() as int;
            &&& first < second < infos.len()
            &&& infos[first].tid == infos[second].tid
            &&& infos[first].tid >= FIRST_CUSTOM_LANE
        }),
{
    lemma_table_infos(lines, j + 1, n, symbols);
    lemma_table_infos(lines, i + 1, j, symbols);
    lemma_table_infos(lines, i + 1, n, symbols);
    lemma_line_definition(lines, i, symbols);
    lemma_line_definition(lines, j, symbols);
    lemma_same_lane_same_id(lines, symbols, i, j);
    let infos = table_of_lines(lines, n, symbols)->Ok_0.intervals.infos;
    let after_i = table_of_lines(lines, i + 1, symbols)->Ok_0.intervals.infos;
    let after_j = table_of_lines(lines, j + 1, symbols)->Ok_0.intervals.infos;
    assert(after_i == infos.subrange(0, after_i.len() as int));
    assert(after_j == infos.subrange(0, after_j.len() as int));
    assert(after_i.last() == infos[after_i.len() - 1]);
    assert(after_j.last() == infos[after_j.len() - 1]);
}

} // verus!
