//! The symbol table: labels and the addresses they stand for.
//!
//! A table is the list of its registrations, oldest first. An address may
//! carry several labels; the one registered last is the name it is shown
//! under. A label registered again stands for the address it was given last.
//!
//! Three kinds of symbol file fill a table: the binary symbol file of an
//! assembler, the listing of an assembler, and a name list.

use std::collections::HashMap;
use vstd::prelude::*;
use vstd::slice::slice_subrange;
use vstd::std_specs::hash::*;
use vstd::string::*;
use crate::bytes::{read_u32_le, u32_le_at};
use crate::text::{
    chars_of,
    decode_lossy,
    find,
    find_from,
    hex_parse,
    parse_hex,
    pieces_view,
    same_chars,
    split,
    split_chars,
    split_words,
    starts_with,
    string_of,
    utf8_lossy,
    words,
};

verus! {

/// One registration: `label` stands for `address`.
#[derive(Debug, Clone, PartialEq, Eq)]
pub struct Symbol {
    pub label: String,
    pub address: u32,
}

impl View for Symbol {
    type V = (Seq<char>, u32);

    open spec fn view(&self) -> (Seq<char>, u32) {
        (self.label@, self.address)
    }
}

/// A symbol table.
///
/// Beside the registrations it keeps, for every address, the place of the
/// registration that gives the address its name.
#[derive(Debug, PartialEq, Eq)]
pub struct Symbols {
    entries: Vec<Symbol>,
    by_address: HashMap<u32, usize>,
}

impl View for Symbols {
    type V = Seq<(Seq<char>, u32)>;

    closed spec fn view(&self) -> Seq<(Seq<char>, u32)> {
        registrations(self.entries@)
    }
}

/// A list of registrations, as plain values.
pub open spec fn registrations(entries: Seq<Symbol>) -> Seq<(Seq<char>, u32)> {
    entries.map_values(|s: Symbol| s@)
}

/// Index of the last registration for `address`, if there is one.
pub open spec fn last_index_at(table: Seq<(Seq<char>, u32)>, address: u32) -> Option<int>
    decreases table.len(),
{
    if table.len() == 0 {
        None
    } else if table.last().1 == address {
        Some(table.len() - 1)
    } else {
        last_index_at(table.drop_last(), address)
    }
}

/// The last registration for an address is the one that gives it its name.
pub proof fn lemma_last_index_at(table: Seq<(Seq<char>, u32)>, address: u32)
    ensures
        match last_index_at(table, address) {
            Some(k) => {
                &&& 0 <= k < table.len()
                &&& table[k].1 == address
                &&& last_label_at(table, address) == Some(table[k].0)
            },
            None => last_label_at(table, address) is None,
        },
    decreases table.len(),
{
    if table.len() > 0 && table.last().1 != address {
        lemma_last_index_at(table.drop_last(), address);
    }
}

/// `index` holds, for every address that has a registration, the place of
/// its last one, and nothing else.
pub open spec fn indexes(index: Map<u32, usize>, table: Seq<(Seq<char>, u32)>) -> bool {
    forall|address: u32|
        match #[trigger] last_index_at(table, address) {
            Some(k) => index.contains_key(address) && index[address] == k,
            None => !index.contains_key(address),
        }
}

/// Registers `label` for `address` in the list and in its index.
fn register(
    entries: &mut Vec<Symbol>,
    by_address: &mut HashMap<u32, usize>,
    label: String,
    address: u32,
)
    requires
        indexes(old(by_address)@, registrations(old(entries)@)),
    ensures
        indexes(final(by_address)@, registrations(final(entries)@)),
        registrations(final(entries)@) == registrations(old(entries)@).push((label@, address)),
{
    broadcast use group_hash_axioms;

    let ghost before = registrations(entries@);
    let place: usize = entries.len();
    entries.push(Symbol { label, address });
    by_address.insert(address, place);
    proof {
        let after = registrations(entries@);
        assert(after =~= before.push((label@, address)));
        assert(after.drop_last() =~= before);
        assert forall|a: u32|
            match #[trigger] last_index_at(after, a) {
                Some(k) => by_address@.contains_key(a) && by_address@[a] == k,
                None => !by_address@.contains_key(a),
            } by {
            if a != address {
                assert(last_index_at(after, a) == last_index_at(before, a));
            }
        }
    }
}

/// The label registered last for `address`, if it has any.
pub open spec fn last_label_at(table: Seq<(Seq<char>, u32)>, address: u32) -> Option<Seq<char>>
    decreases table.len(),
{
    if table.len() == 0 {
        None
    } else if table.last().1 == address {
        Some(table.last().0)
    } else {
        last_label_at(table.drop_last(), address)
    }
}

/// All labels registered for `address`, oldest first.
pub open spec fn labels_at(table: Seq<(Seq<char>, u32)>, address: u32) -> Seq<Seq<char>>
    decreases table.len(),
{
    if table.len() == 0 {
        Seq::empty()
    } else if table.last().1 == address {
        labels_at(table.drop_last(), address).push(table.last().0)
    } else {
        labels_at(table.drop_last(), address)
    }
}

/// Index of the last registration of `label`, if there is one.
pub open spec fn last_index_of(table: Seq<(Seq<char>, u32)>, label: Seq<char>) -> Option<int>
    decreases table.len(),
{
    if table.len() == 0 {
        None
    } else if table.last().0 == label {
        Some(table.len() - 1)
    } else {
        last_index_of(table.drop_last(), label)
    }
}

/// The address that `label` stands for: the one it was registered with last.
pub open spec fn address_of_label(table: Seq<(Seq<char>, u32)>, label: Seq<char>) -> Option<u32> {
    match last_index_of(table, label) {
        Some(k) => Some(table[k].1),
        None => None,
    }
}

/// The greatest registered address below `address`, if there is one.
pub open spec fn greatest_below(table: Seq<(Seq<char>, u32)>, address: u32) -> Option<u32>
    decreases table.len(),
{
    if table.len() == 0 {
        None
    } else {
        let rest = greatest_below(table.drop_last(), address);
        let here = table.last().1;
        if here < address && (rest is None || rest->Some_0 <= here) {
            Some(here)
        } else {
            rest
        }
    }
}

/// The label that a local label at `address` hangs under: the one registered
/// last at the greatest registered address below `address`.
pub open spec fn parent_label(table: Seq<(Seq<char>, u32)>, address: u32) -> Option<Seq<char>> {
    match greatest_below(table, address) {
        Some(parent) => last_label_at(table, parent),
        None => None,
    }
}

/// The addresses of the symbols whose label begins with `prefix`, in the
/// order of their registrations. A label registered more than once counts
/// once, at its last registration.
pub open spec fn addresses_with_prefix(
    table: Seq<(Seq<char>, u32)>,
    prefix: Seq<char>,
    upto: int,
) -> Seq<u32>
    decreases upto,
{
    if upto <= 0 {
        Seq::empty()
    } else {
        let rest = addresses_with_prefix(table, prefix, upto - 1);
        let entry = table[upto - 1];
        if prefix.is_prefix_of(entry.0) && last_index_of(table, entry.0) == Some(upto - 1) {
            rest.push(entry.1)
        } else {
            rest
        }
    }
}

/// What [`last_index_of`] finds: the registration of `label` that no other
/// registration of it follows; nothing, where `label` was never registered.
pub proof fn lemma_last_index_of(table: Seq<(Seq<char>, u32)>, label: Seq<char>)
    ensures
        match last_index_of(table, label) {
            Some(k) => {
                &&& 0 <= k < table.len()
                &&& table[k].0 == label
                &&& forall|j: int| k < j < table.len() ==> (#[trigger] table[j]).0 != label
            },
            None => forall|j: int| 0 <= j < table.len() ==> (#[trigger] table[j]).0 != label,
        },
    decreases table.len(),
{
    if table.len() > 0 && table.last().0 != label {
        let front = table.drop_last();
        lemma_last_index_of(front, label);
        match last_index_of(front, label) {
            Some(k) => {
                assert forall|j: int| k < j < table.len() implies (#[trigger] table[j]).0
                    != label by {
                    if j < front.len() {
                        assert(front[j].0 != label);
                    }
                }
            },
            None => {
                assert forall|j: int| 0 <= j < table.len() implies (#[trigger] table[j]).0
                    != label by {
                    if j < front.len() {
                        assert(front[j].0 != label);
                    }
                }
            },
        }
    }
}

impl Default for Symbols {
    fn default() -> (table: Symbols)
        ensures
            table@ == Seq::<(Seq<char>, u32)>::empty(),
    {
        Symbols::new()
    }
}

impl Symbols {
    #[verifier::type_invariant]
    spec fn indexed(&self) -> bool {
        indexes(self.by_address@, registrations(self.entries@))
    }

    /// The empty table.
    pub fn new() -> (table: Symbols)
        ensures
            table@ == Seq::<(Seq<char>, u32)>::empty(),
    {
        broadcast use group_hash_axioms;

        let table = Symbols { entries: Vec::new(), by_address: HashMap::new() };
        assert(table@ =~= Seq::<(Seq<char>, u32)>::empty());
        table
    }

    /// Number of registrations.
    pub fn len(&self) -> (n: usize)
        ensures
            n == self@.len(),
    {
        self.entries.len()
    }

    /// Registers `label` for `address`.
    pub fn insert(&mut self, label: String, address: u32)
        ensures
            final(self)@ == old(self)@.push((label@, address)),
    {
        let mut taken = Symbols::new();
        core::mem::swap(self, &mut taken);
        proof {
            use_type_invariant(&taken);
        }
        let Symbols { mut entries, mut by_address } = taken;
        register(&mut entries, &mut by_address, label, address);
        *self = Symbols { entries, by_address };
    }

    /// The label that `address` is shown under.
    pub fn label_at(&self, address: u32) -> (label: Option<&String>)
        ensures
            match label {
                Some(l) => last_label_at(self@, address) == Some(l@),
                None => last_label_at(self@, address) is None,
            },
    {
        broadcast use group_hash_axioms;

        proof {
            use_type_invariant(self);
            lemma_last_index_at(self@, address);
        }
        match self.by_address.get(&address) {
            Some(place) => Some(&self.entries[*place].label),
            None => None,
        }
    }

    /// The registrations, oldest first.
    pub fn entries(&self) -> (entries: &Vec<Symbol>)
        ensures
            registrations(entries@) == self@,
    {
        &self.entries
    }

    /// All labels of `address`, oldest first.
    pub fn labels_at(&self, address: u32) -> (labels: Vec<String>)
        ensures
            labels@.map_values(|l: String| l@) == labels_at(self@, address),
    {
        let mut labels: Vec<String> = Vec::new();
        let mut i: usize = 0;
        assert(self@.take(0) =~= Seq::<(Seq<char>, u32)>::empty());
        assert(labels@.map_values(|l: String| l@) =~= Seq::<Seq<char>>::empty());
        while i < self.entries.len()
            invariant
                i <= self.entries.len(),
                labels@.map_values(|l: String| l@) == labels_at(self@.take(i as int), address),
            decreases self.entries.len() - i,
        {
            proof {
                assert(self@.take(i + 1).drop_last() =~= self@.take(i as int));
            }
            if self.entries[i].address == address {
                let ghost before = labels@;
                let label = self.entries[i].label.clone();
                labels.push(label);
                assert(labels@.map_values(|l: String| l@) =~= before.map_values(|l: String| l@).push(
                    label@,
                ));
            }
            i = i + 1;
        }
        assert(self@.take(self@.len() as int) =~= self@);
        labels
    }

    /// Index of the registration that gives `label` its address.
    pub fn position_of(&self, label: &String) -> (position: Option<usize>)
        ensures
            match position {
                Some(k) => last_index_of(self@, label@) == Some(k as int) && k < self@.len(),
                None => last_index_of(self@, label@) is None,
            },
    {
        let mut i: usize = self.entries.len();
        assert(self@.take(self@.len() as int) =~= self@);
        while i > 0
            invariant
                i <= self.entries.len(),
                last_index_of(self@, label@) == last_index_of(self@.take(i as int), label@),
            decreases i,
        {
            proof {
                assert(self@.take(i as int).drop_last() =~= self@.take(i - 1));
            }
            if self.entries[i - 1].label == *label {
                return Some(i - 1);
            }
            i = i - 1;
        }
        None
    }

    /// The address that `label` stands for.
    pub fn address_of(&self, label: &String) -> (address: Option<u32>)
        ensures
            address == address_of_label(self@, label@),
    {
        match self.position_of(label) {
            Some(k) => Some(self.entries[k].address),
            None => None,
        }
    }

    /// The label under which a local label at `address` hangs.
    pub fn parent_label_of(&self, address: u32) -> (label: Option<&String>)
        ensures
            match label {
                Some(l) => parent_label(self@, address) == Some(l@),
                None => parent_label(self@, address) is None,
            },
    {
        let mut best: Option<u32> = None;
        let mut i: usize = 0;
        assert(self@.take(0) =~= Seq::<(Seq<char>, u32)>::empty());
        while i < self.entries.len()
            invariant
                i <= self.entries.len(),
                best == greatest_below(self@.take(i as int), address),
            decreases self.entries.len() - i,
        {
            proof {
                assert(self@.take(i + 1).drop_last() =~= self@.take(i as int));
            }
            let here: u32 = self.entries[i].address;
            if here < address {
                best = match best {
                    Some(b) => if b <= here {
                        Some(here)
                    } else {
                        Some(b)
                    },
                    None => Some(here),
                };
            }
            i = i + 1;
        }
        assert(self@.take(self@.len() as int) =~= self@);
        match best {
            Some(parent) => self.label_at(parent),
            None => None,
        }
    }

    /// The addresses of the symbols whose label begins with `prefix`.
    pub fn addresses_with_prefix(&self, prefix: &[char]) -> (addresses: Vec<u32>)
        ensures
            addresses@ == addresses_with_prefix(self@, prefix@, self@.len() as int),
    {
        let mut addresses: Vec<u32> = Vec::new();
        let mut i: usize = 0;
        while i < self.entries.len()
            invariant
                i <= self.entries.len(),
                addresses@ == addresses_with_prefix(self@, prefix@, i as int),
            decreases self.entries.len() - i,
        {
            let name = chars_of(self.entries[i].label.as_str());
            if starts_with(name.as_slice(), prefix) {
                let position = self.position_of(&self.entries[i].label);
                if position == Some(i) {
                    addresses.push(self.entries[i].address);
                }
            }
            i = i + 1;
        }
        addresses
    }
}

/// Why a symbol file was refused.
#[derive(Debug, Clone, Copy, PartialEq, Eq, Structural)]
pub enum SymbolError {
    /// A listing without the heading of its symbol section.
    MissingSymbolSection,
    /// The line of the symbol section at this index, counted from the
    /// heading, lacks a field.
    MalformedLine { line: usize },
    /// The file ends inside the entry that starts at `offset`.
    Truncated { offset: usize },
    /// The entry at `offset` has a type that is neither a global nor a
    /// local label.
    UnknownLabelType { offset: usize, kind: u8 },
    /// The entry at `offset` is a local label, and no label is registered
    /// at a lower address.
    OrphanLocalLabel { offset: usize },
}

/// The table after one more line of a name list: a line of three words
/// whose first is a hexadecimal address registers its third word for that
/// address. Any other line changes nothing.
pub open spec fn nm_line(table: Seq<(Seq<char>, u32)>, line: Seq<char>) -> Seq<(Seq<char>, u32)> {
    let fields = words(line);
    if fields.len() == 3 {
        match hex_parse(fields[0], u32::MAX as int) {
            Some(address) => table.push((fields[2], address as u32)),
            None => table,
        }
    } else {
        table
    }
}

/// The table that the first `n` of `lines` of a name list build.
pub open spec fn nm_table(lines: Seq<Seq<char>>, n: int) -> Seq<(Seq<char>, u32)>
    decreases n,
{
    if n <= 0 {
        Seq::empty()
    } else {
        nm_line(nm_table(lines, n - 1), lines[n - 1])
    }
}

/// The table that a name list builds: lines of an address, a type and a
/// label.
pub open spec fn nm_symbols(text: Seq<char>) -> Seq<(Seq<char>, u32)> {
    nm_table(split(text, '\n'), split(text, '\n').len() as int)
}

/// `line` without the carriage return at its end, if it has one.
pub open spec fn strip_cr(line: Seq<char>) -> Seq<char> {
    if line.len() > 0 && line.last() == '\r' {
        line.drop_last()
    } else {
        line
    }
}

/// The line at index `k` as it is read: without its carriage return, unless
/// it is the last piece of the text, which no line feed ends.
pub open spec fn line_text(lines: Seq<Seq<char>>, k: int) -> Seq<char> {
    if k + 1 < lines.len() {
        strip_cr(lines[k])
    } else {
        lines[k]
    }
}

/// The table after one more line of the symbol section of a listing.
///
/// An empty line changes nothing. Any other line holds a name and a type,
/// and an address where the type is `Int`: such a line registers the name
/// for the address, cut to 32 bits, if the address is a hexadecimal number
/// of at most 64 bits.
pub open spec fn as_line(table: Seq<(Seq<char>, u32)>, line: Seq<char>, line_no: usize) -> Result<
    Seq<(Seq<char>, u32)>,
    SymbolError,
> {
    let fields = words(line);
    if line.len() == 0 {
        Ok(table)
    } else if fields.len() < 2 {
        Err(SymbolError::MalformedLine { line: line_no })
    } else if fields[1] != "Int"@ {
        Ok(table)
    } else if fields.len() < 3 {
        Err(SymbolError::MalformedLine { line: line_no })
    } else {
        match hex_parse(fields[2], u64::MAX as int) {
            Some(address) => Ok(table.push((fields[0], (address % 0x1_0000_0000) as u32))),
            None => Ok(table),
        }
    }
}

/// The table that the lines of a symbol section build, from the line after
/// the heading up to the `n`th.
pub open spec fn as_table(lines: Seq<Seq<char>>, n: int) -> Result<
    Seq<(Seq<char>, u32)>,
    SymbolError,
>
    decreases n,
{
    if n <= 1 {
        Ok(Seq::empty())
    } else {
        match as_table(lines, n - 1) {
            Ok(table) => as_line(table, line_text(lines, n - 1), (n - 1) as usize),
            Err(e) => Err(e),
        }
    }
}

/// The table that a listing builds: the lines that follow the first
/// `Symbols in Segment` heading, read by [`as_line`].
pub open spec fn as_symbols(text: Seq<char>) -> Result<Seq<(Seq<char>, u32)>, SymbolError> {
    match find_from(text, "Symbols in Segment"@, 0) {
        Some(at) => {
            let lines = split(text.skip(at + "Symbols in Segment"@.len()), '\n');
            as_table(lines, lines.len() as int)
        },
        None => Err(SymbolError::MissingSymbolSection),
    }
}

/// Once a line is refused, every longer run of lines is refused with the
/// same error.
pub proof fn lemma_as_error_stays(lines: Seq<Seq<char>>, n: int, m: int)
    requires
        0 <= n <= m,
        as_table(lines, n) is Err,
    ensures
        as_table(lines, m) == as_table(lines, n),
    decreases m - n,
{
    if n < m {
        lemma_as_error_stays(lines, n, m - 1);
    }
}

/// Reads a name list.
pub fn parse_nm_symbols(text: &str) -> (table: Symbols)
    ensures
        table@ == nm_symbols(text@),
{
    let chars = chars_of(text);
    let lines = split_chars(chars.as_slice(), '\n');
    let ghost all = pieces_view(lines@);
    let mut table = Symbols::new();
    let mut k: usize = 0;
    while k < lines.len()
        invariant
            k <= lines@.len(),
            all == pieces_view(lines@),
            all == split(text@, '\n'),
            table@ == nm_table(all, k as int),
        decreases lines.len() - k,
    {
        proof {
            assert(all[k as int] == lines@[k as int]@);
        }
        let fields = split_words(lines[k].as_slice());
        if fields.len() == 3 {
            proof {
                assert(pieces_view(fields@)[0] == fields@[0]@);
                assert(pieces_view(fields@)[2] == fields@[2]@);
            }
            match parse_hex(fields[0].as_slice(), 0xffff_ffff) {
                Some(address) => {
                    table.insert(string_of(fields[2].as_slice()), address as u32);
                },
                None => {},
            }
        }
        k = k + 1;
    }
    table
}

/// Reads the bytes of a name list: the text that they decode to, read as
/// [`parse_nm_symbols`] reads it.
pub fn read_nm_symbols(input: &[u8]) -> (table: Symbols)
    ensures
        table@ == nm_symbols(utf8_lossy(input@)),
{
    let text = decode_lossy(input);
    parse_nm_symbols(text.as_str())
}

/// Reads one line of a symbol section into the table.
fn read_as_line(table: &mut Symbols, line: &[char], line_no: usize) -> (done: Result<
    (),
    SymbolError,
>)
    ensures
        match as_line(old(table)@, line@, line_no) {
            Ok(after) => done is Ok && final(table)@ == after,
            Err(e) => done == Err::<(), SymbolError>(e),
        },
{
    if line.len() == 0 {
        return Ok(());
    }
    let fields = split_words(line);
    if fields.len() < 2 {
        return Err(SymbolError::MalformedLine { line: line_no });
    }
    proof {
        assert(pieces_view(fields@)[0] == fields@[0]@);
        assert(pieces_view(fields@)[1] == fields@[1]@);
    }
    let int_type = chars_of("Int");
    if !same_chars(fields[1].as_slice(), int_type.as_slice()) {
        return Ok(());
    }
    if fields.len() < 3 {
        return Err(SymbolError::MalformedLine { line: line_no });
    }
    proof {
        assert(pieces_view(fields@)[2] == fields@[2]@);
    }
    match parse_hex(fields[2].as_slice(), 0xffff_ffff_ffff_ffff) {
        Some(address) => {
            table.insert(string_of(fields[0].as_slice()), (address % 0x1_0000_0000) as u32);
        },
        None => {},
    }
    Ok(())
}

/// Reads a listing.
pub fn parse_as_symbols(text: &str) -> (result: Result<Symbols, SymbolError>)
    ensures
        match as_symbols(text@) {
            Ok(table) => result is Ok && result->Ok_0@ == table,
            Err(e) => result is Err && result->Err_0 == e,
        },
{
    let chars = chars_of(text);
    let marker = chars_of("Symbols in Segment");
    let at: usize = match find(chars.as_slice(), marker.as_slice()) {
        Some(at) => at,
        None => {
            return Err(SymbolError::MissingSymbolSection);
        },
    };
    assert(marker@ == "Symbols in Segment"@);
    assert(at + marker@.len() <= chars@.len());
    let rest = slice_subrange(chars.as_slice(), at + marker.len(), chars.len());
    proof {
        assert(rest@ =~= text@.skip(at + "Symbols in Segment"@.len()));
    }
    let lines = split_chars(rest, '\n');
    let ghost all = pieces_view(lines@);
    let mut table = Symbols::new();
    let mut k: usize = 1;
    while k < lines.len()
        invariant
            1 <= k <= lines@.len(),
            all == pieces_view(lines@),
            as_symbols(text@) == as_table(all, all.len() as int),
            as_table(all, k as int) == Ok::<Seq<(Seq<char>, u32)>, SymbolError>(table@),
        decreases lines.len() - k,
    {
        proof {
            assert(all[k as int] == lines@[k as int]@);
        }
        let line = &lines[k];
        let n: usize = line.len();
        let cut: usize = if k + 1 < lines.len() && n > 0 && line[n - 1] == '\r' {
            n - 1
        } else {
            n
        };
        let read = slice_subrange(line.as_slice(), 0, cut);
        proof {
            assert(read@ =~= line_text(all, k as int));
        }
        match read_as_line(&mut table, read, k) {
            Ok(_) => {},
            Err(e) => {
                proof {
                    lemma_as_error_stays(all, k + 1, all.len() as int);
                }
                return Err(e);
            },
        }
        k = k + 1;
    }
    Ok(table)
}

/// Reads the bytes of a listing: the text that they decode to, read as
/// [`parse_as_symbols`] reads it.
pub fn read_as_symbols(input: &[u8]) -> (result: Result<Symbols, SymbolError>)
    ensures
        match as_symbols(utf8_lossy(input@)) {
            Ok(table) => result is Ok && result->Ok_0@ == table,
            Err(e) => result is Err && result->Err_0 == e,
        },
{
    let text = decode_lossy(input);
    parse_as_symbols(text.as_str())
}

/// Offset of the first entry of a binary symbol file.
pub const ASM68K_HEADER_LEN: usize = 8;

/// Address, type and length: the part every entry of a binary symbol file
/// has before its label.
pub const ASM68K_ENTRY_PREFIX_LEN: usize = 6;

/// Type of an entry that holds a global label.
pub const GLOBAL_LABEL: u8 = 2;

/// Type of an entry that holds a local label.
pub const LOCAL_LABEL: u8 = 6;

/// The table with one more label. A global label is registered as it is; a
/// local label is registered behind the label it hangs under, and cannot be
/// registered where there is none.
pub open spec fn with_label(
    table: Seq<(Seq<char>, u32)>,
    local: bool,
    address: u32,
    text: Seq<char>,
) -> Option<Seq<(Seq<char>, u32)>> {
    if local {
        match parent_label(table, address) {
            Some(parent) => Some(table.push((parent + text, address))),
            None => None,
        }
    } else {
        Some(table.push((text, address)))
    }
}

/// The table that the entries from `pos` on add to `table`, or the error of
/// the first entry that is refused.
///
/// An entry is an address of four bytes, a type of one byte, the length of
/// the label in one byte, and the label.
pub open spec fn asm68k_entries(bytes: Seq<u8>, pos: int, table: Seq<(Seq<char>, u32)>) -> Result<
    Seq<(Seq<char>, u32)>,
    SymbolError,
>
    decreases bytes.len() - pos,
{
    if pos < 0 || pos >= bytes.len() {
        Ok(table)
    } else if pos + ASM68K_ENTRY_PREFIX_LEN > bytes.len() {
        Err(SymbolError::Truncated { offset: pos as usize })
    } else {
        let kind = bytes[pos + 4];
        let end = pos + ASM68K_ENTRY_PREFIX_LEN + bytes[pos + 5];
        if kind != GLOBAL_LABEL && kind != LOCAL_LABEL {
            Err(SymbolError::UnknownLabelType { offset: pos as usize, kind })
        } else if end > bytes.len() {
            Err(SymbolError::Truncated { offset: pos as usize })
        } else {
            match with_label(
                table,
                kind == LOCAL_LABEL,
                u32_le_at(bytes, pos) as u32,
                utf8_lossy(bytes.subrange(pos + ASM68K_ENTRY_PREFIX_LEN, end)),
            ) {
                Some(longer) => asm68k_entries(bytes, end, longer),
                None => Err(SymbolError::OrphanLocalLabel { offset: pos as usize }),
            }
        }
    }
}

/// The table that a binary symbol file builds.
pub open spec fn asm68k_symbols(bytes: Seq<u8>) -> Result<Seq<(Seq<char>, u32)>, SymbolError> {
    asm68k_entries(bytes, ASM68K_HEADER_LEN as int, Seq::empty())
}

impl Symbols {
    /// Registers a label of a binary symbol file, and says whether it did:
    /// a local label needs a label to hang under.
    pub fn add_label(&mut self, local: bool, address: u32, text: String) -> (added: bool)
        ensures
            match with_label(old(self)@, local, address, text@) {
                Some(longer) => added && final(self)@ == longer,
                None => !added && final(self)@ == old(self)@,
            },
    {
        if local {
            let mut label: String = match self.parent_label_of(address) {
                Some(parent) => parent.clone(),
                None => {
                    return false;
                },
            };
            label.append(text.as_str());
            self.insert(label, address);
        } else {
            self.insert(text, address);
        }
        true
    }
}

/// Reads a binary symbol file.
pub fn read_asm68k_symbols(input: &[u8]) -> (result: Result<Symbols, SymbolError>)
    ensures
        match asm68k_symbols(input@) {
            Ok(table) => result is Ok && result->Ok_0@ == table,
            Err(e) => result is Err && result->Err_0 == e,
        },
{
    let mut table = Symbols::new();
    let n: usize = input.len();
    let mut i: usize = ASM68K_HEADER_LEN;
    while i < n
        invariant
            ASM68K_HEADER_LEN <= i,
            n == input@.len(),
            asm68k_symbols(input@) == asm68k_entries(input@, i as int, table@),
        decreases n - i,
    {
        if n - i < ASM68K_ENTRY_PREFIX_LEN {
            return Err(SymbolError::Truncated { offset: i });
        }
        let address: u32 = read_u32_le(input, i);
        let kind: u8 = input[i + 4];
        let label_len: usize = input[i + 5] as usize;
        if kind != GLOBAL_LABEL && kind != LOCAL_LABEL {
            return Err(SymbolError::UnknownLabelType { offset: i, kind });
        }
        if n - i - ASM68K_ENTRY_PREFIX_LEN < label_len {
            return Err(SymbolError::Truncated { offset: i });
        }
        let from: usize = i + ASM68K_ENTRY_PREFIX_LEN;
        let text = decode_lossy(slice_subrange(input, from, from + label_len));
        if !table.add_label(kind == LOCAL_LABEL, address, text) {
            return Err(SymbolError::OrphanLocalLabel { offset: i });
        }
        i = from + label_len;
    }
    Ok(table)
}

/// The formats of symbol files.
#[derive(Debug, Clone, Copy, PartialEq, Eq, Structural)]
pub enum SymbolFormat {
    /// The binary symbol file of an assembler; it begins with `MND`.
    Asm68k,
    /// The listing of an assembler; it begins with `Segment CODE`.
    As,
    /// A name list: lines of an address, a type and a label.
    Nm,
}

/// The bytes `MND`.
pub open spec fn asm68k_signature() -> Seq<u8> {
    seq![0x4du8, 0x4eu8, 0x44u8]
}

/// The bytes `Segment CODE`.
pub open spec fn as_signature() -> Seq<u8> {
    seq![
        0x53u8,
        0x65u8,
        0x67u8,
        0x6du8,
        0x65u8,
        0x6eu8,
        0x74u8,
        0x20u8,
        0x43u8,
        0x4fu8,
        0x44u8,
        0x45u8,
    ]
}

/// The format that a symbol file is read as: the one whose signature it
/// begins with, and a name list where it begins with neither.
pub open spec fn format_of(bytes: Seq<u8>) -> SymbolFormat {
    if asm68k_signature().is_prefix_of(bytes) {
        SymbolFormat::Asm68k
    } else if as_signature().is_prefix_of(bytes) {
        SymbolFormat::As
    } else {
        SymbolFormat::Nm
    }
}

/// Whether `bytes` begins with `signature`.
pub fn begins_with(bytes: &[u8], signature: &[u8]) -> (yes: bool)
    ensures
        yes == signature@.is_prefix_of(bytes@),
{
    if signature.len() > bytes.len() {
        return false;
    }
    let mut i: usize = 0;
    while i < signature.len()
        invariant
            i <= signature.len() <= bytes.len(),
            bytes@.subrange(0, i as int) == signature@.subrange(0, i as int),
        decreases signature.len() - i,
    {
        if bytes[i] != signature[i] {
            proof {
                if signature@.is_prefix_of(bytes@) {
                    assert(bytes@.subrange(0, signature@.len() as int)[i as int] == signature@[i as int]);
                }
            }
            return false;
        }
        proof {
            assert(bytes@.subrange(0, i + 1) =~= bytes@.subrange(0, i as int).push(bytes@[i as int]));
            assert(signature@.subrange(0, i + 1) =~= signature@.subrange(0, i as int).push(
                signature@[i as int],
            ));
        }
        i = i + 1;
    }
    proof {
        assert(signature@.subrange(0, signature@.len() as int) =~= signature@);
    }
    true
}

/// Tells the format of a symbol file by the bytes it begins with.
pub fn detect_format(input: &[u8]) -> (format: SymbolFormat)
    ensures
        format == format_of(input@),
{
    let mnd: [u8; 3] = [0x4d, 0x4e, 0x44];
    let segment_code: [u8; 12] = [
        0x53,
        0x65,
        0x67,
        0x6d,
        0x65,
        0x6e,
        0x74,
        0x20,
        0x43,
        0x4f,
        0x44,
        0x45,
    ];
    proof {
        assert(mnd@ =~= asm68k_signature());
        assert(segment_code@ =~= as_signature());
    }
    if begins_with(input, mnd.as_slice()) {
        SymbolFormat::Asm68k
    } else if begins_with(input, segment_code.as_slice()) {
        SymbolFormat::As
    } else {
        SymbolFormat::Nm
    }
}

/// Reads a symbol file in the format that its first bytes tell.
pub fn read_symbols(input: &[u8]) -> (result: Result<Symbols, SymbolError>)
    ensures
        match format_of(input@) {
            SymbolFormat::Asm68k => match asm68k_symbols(input@) {
                Ok(table) => result is Ok && result->Ok_0@ == table,
                Err(e) => result is Err && result->Err_0 == e,
            },
            SymbolFormat::As => match as_symbols(utf8_lossy(input@)) {
                Ok(table) => result is Ok && result->Ok_0@ == table,
                Err(e) => result is Err && result->Err_0 == e,
            },
            SymbolFormat::Nm => result is Ok && result->Ok_0@ == nm_symbols(utf8_lossy(input@)),
        },
{
    match detect_format(input) {
        SymbolFormat::Asm68k => read_asm68k_symbols(input),
        SymbolFormat::As => read_as_symbols(input),
        SymbolFormat::Nm => Ok(read_nm_symbols(input)),
    }
}

} // verus!
