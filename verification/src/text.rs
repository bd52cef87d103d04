//! Text: characters, pieces of lines, and hexadecimal numbers.
//!
//! Text is handled as a sequence of `char`s. Decoding bytes, and appending a
//! character to a `String`, are left to the standard library: what is said of
//! these two is not proved here.

use vstd::prelude::*;
use vstd::slice::slice_subrange;

verus! {

/// The text that `String::from_utf8_lossy` makes of `bytes`: their UTF-8
/// decoding, with U+FFFD in place of every ill-formed part.
pub uninterp spec fn utf8_lossy(bytes: Seq<u8>) -> Seq<char>;

/// Calls `String::from_utf8_lossy` and takes the result as an owned string.
/// The contract only gives that result its name, [`utf8_lossy`].
#[verifier::external_body]
pub(crate) fn decode_lossy(bytes: &[u8]) -> (text: String)
    ensures
        text@ == utf8_lossy(bytes@),
{
    std::string::String::from_utf8_lossy(bytes).into_owned()
}

/// `String::push` appends the character to the end of the string.
pub assume_specification[ String::push ](text: &mut String, ch: char)
    ensures
        final(text)@ == old(text)@.push(ch),
;

/// The characters of `text`, in order.
pub fn chars_of(text: &str) -> (chars: Vec<char>)
    ensures
        chars@ == text@,
{
    broadcast use vstd::string::axiom_spec_iter;

    let mut chars: Vec<char> = Vec::new();
    for c in it: text.chars()
        invariant
            it.seq() == text@,
            chars@ == it.seq().take(it.index() as int),
    {
        chars.push(c);
        proof {
            assert(chars@ =~= it.seq().take(it.index() + 1));
        }
    }
    proof {
        assert(text@.take(text@.len() as int) =~= text@);
    }
    chars
}

/// The string that holds `chars`, in order.
pub fn string_of(chars: &[char]) -> (text: String)
    ensures
        text@ == chars@,
{
    let mut text = String::new();
    let mut i: usize = 0;
    proof {
        assert(chars@.take(0) =~= Seq::<char>::empty());
    }
    while i < chars.len()
        invariant
            i <= chars@.len(),
            text@ == chars@.take(i as int),
        decreases chars.len() - i,
    {
        text.push(chars[i]);
        proof {
            assert(chars@.take(i + 1) =~= chars@.take(i as int).push(chars@[i as int]));
        }
        i = i + 1;
    }
    proof {
        assert(chars@.take(chars@.len() as int) =~= chars@);
    }
    text
}

/// The lower-case hexadecimal digit for a value below sixteen.
pub open spec fn hex_digit(d: int) -> char {
    if d == 0 {
        '0'
    } else if d == 1 {
        '1'
    } else if d == 2 {
        '2'
    } else if d == 3 {
        '3'
    } else if d == 4 {
        '4'
    } else if d == 5 {
        '5'
    } else if d == 6 {
        '6'
    } else if d == 7 {
        '7'
    } else if d == 8 {
        '8'
    } else if d == 9 {
        '9'
    } else if d == 10 {
        'a'
    } else if d == 11 {
        'b'
    } else if d == 12 {
        'c'
    } else if d == 13 {
        'd'
    } else if d == 14 {
        'e'
    } else {
        'f'
    }
}

/// The hexadecimal digits of `n`, most significant first, without leading
/// zeros; a single `0` for zero.
pub open spec fn hex_digits(n: nat) -> Seq<char>
    decreases n,
{
    if n < 16 {
        seq![hex_digit(n as int)]
    } else {
        hex_digits(n / 16).push(hex_digit((n % 16) as int))
    }
}

/// `n` written as a hexadecimal literal: `0x` and its digits.
pub open spec fn hex_literal(n: nat) -> Seq<char> {
    seq!['0', 'x'] + hex_digits(n)
}

fn hex_digit_char(d: u32) -> (c: char)
    requires
        d < 16,
    ensures
        c == hex_digit(d as int),
{
    if d == 0 {
        '0'
    } else if d == 1 {
        '1'
    } else if d == 2 {
        '2'
    } else if d == 3 {
        '3'
    } else if d == 4 {
        '4'
    } else if d == 5 {
        '5'
    } else if d == 6 {
        '6'
    } else if d == 7 {
        '7'
    } else if d == 8 {
        '8'
    } else if d == 9 {
        '9'
    } else if d == 10 {
        'a'
    } else if d == 11 {
        'b'
    } else if d == 12 {
        'c'
    } else if d == 13 {
        'd'
    } else if d == 14 {
        'e'
    } else {
        'f'
    }
}

fn push_hex_digits(n: u32, out: &mut Vec<char>)
    ensures
        final(out)@ == old(out)@ + hex_digits(n as nat),
    decreases n,
{
    if n >= 16 {
        push_hex_digits(n / 16, out);
    }
    out.push(hex_digit_char(n % 16));
    proof {
        assert(final(out)@ =~= old(out)@ + hex_digits(n as nat));
    }
}

/// Writes `n` as a hexadecimal literal, as in `0x1f`.
pub fn format_hex(n: u32) -> (text: String)
    ensures
        text@ == hex_literal(n as nat),
{
    let mut out: Vec<char> = Vec::new();
    out.push('0');
    out.push('x');
    assert(out@ =~= seq!['0', 'x']);
    push_hex_digits(n, &mut out);
    string_of(out.as_slice())
}

/// The value of a hexadecimal digit, in either case.
pub open spec fn hex_value(c: char) -> Option<int> {
    if '0' <= c && c <= '9' {
        Some(c as int - '0' as int)
    } else if 'a' <= c && c <= 'f' {
        Some(c as int - 'a' as int + 10)
    } else if 'A' <= c && c <= 'F' {
        Some(c as int - 'A' as int + 10)
    } else {
        None
    }
}

/// The number that a non-empty run of hexadecimal digits writes.
pub open spec fn hex_number(digits: Seq<char>) -> Option<int>
    decreases digits.len(),
{
    if digits.len() == 0 {
        None
    } else {
        match hex_value(digits.last()) {
            None => None,
            Some(d) => if digits.len() == 1 {
                Some(d)
            } else {
                match hex_number(digits.drop_last()) {
                    Some(v) => Some(16 * v + d),
                    None => None,
                }
            },
        }
    }
}

/// The digits of a hexadecimal number: `text` without one leading `+`.
pub open spec fn unsigned_part(text: Seq<char>) -> Seq<char> {
    if text.len() > 0 && text[0] == '+' {
        text.drop_first()
    } else {
        text
    }
}

/// `text` read as a hexadecimal number of at most `max`: an optional `+`,
/// then one or more digits and nothing else.
pub open spec fn hex_parse(text: Seq<char>, max: int) -> Option<int> {
    match hex_number(unsigned_part(text)) {
        Some(v) => if v <= max {
            Some(v)
        } else {
            None
        },
        None => None,
    }
}

/// Every non-empty prefix of a hexadecimal number is one, and of no greater
/// value.
pub proof fn lemma_hex_number_prefix(digits: Seq<char>, n: int)
    requires
        0 < n <= digits.len(),
        hex_number(digits) is Some,
    ensures
        hex_number(digits.take(n)) is Some,
        0 <= hex_number(digits.take(n))->Some_0 <= hex_number(digits)->Some_0,
    decreases digits.len(),
{
    if n == digits.len() {
        assert(digits.take(n) =~= digits);
        if digits.len() > 1 {
            lemma_hex_number_prefix(digits.drop_last(), n - 1);
        }
    } else {
        assert(digits.drop_last().take(n) =~= digits.take(n));
        lemma_hex_number_prefix(digits.drop_last(), n);
    }
}

fn hex_value_of(c: char) -> (d: Option<u64>)
    ensures
        match d {
            Some(v) => hex_value(c) == Some(v as int) && v < 16,
            None => hex_value(c) is None,
        },
{
    if '0' <= c && c <= '9' {
        Some((c as u32 - '0' as u32) as u64)
    } else if 'a' <= c && c <= 'f' {
        Some((c as u32 - 'a' as u32 + 10) as u64)
    } else if 'A' <= c && c <= 'F' {
        Some((c as u32 - 'A' as u32 + 10) as u64)
    } else {
        None
    }
}

/// Reads `text` as a hexadecimal number of at most `max`.
pub fn parse_hex(text: &[char], max: u64) -> (value: Option<u64>)
    ensures
        match value {
            Some(v) => hex_parse(text@, max as int) == Some(v as int),
            None => hex_parse(text@, max as int) is None,
        },
{
    let start: usize = if text.len() > 0 && text[0] == '+' {
        1
    } else {
        0
    };
    let ghost digits = unsigned_part(text@);
    assert(digits =~= text@.subrange(start as int, text@.len() as int));
    if start == text.len() {
        return None;
    }
    let mut acc: u64 = 0;
    let mut i: usize = start;
    while i < text.len()
        invariant
            start <= i <= text.len(),
            start < text.len(),
            digits == unsigned_part(text@),
            digits == text@.subrange(start as int, text@.len() as int),
            i == start ==> acc == 0,
            i > start ==> hex_number(digits.take(i - start)) == Some(acc as int),
            acc <= max,
        decreases text.len() - i,
    {
        let ghost k = i - start;
        let ghost prefix = digits.take(k + 1);
        proof {
            assert(prefix.drop_last() =~= digits.take(k));
            assert(prefix.last() == text@[i as int]);
            assert(prefix.len() == k + 1);
        }
        match hex_value_of(text[i]) {
            None => {
                proof {
                    assert(hex_number(prefix) is None);
                    if hex_number(digits) is Some {
                        lemma_hex_number_prefix(digits, k + 1);
                    }
                }
                return None;
            },
            Some(d) => {
                proof {
                    assert(hex_number(prefix) == Some(16 * acc + d));
                }
                if max < d || acc > (max - d) / 16 {
                    proof {
                        if hex_number(digits) is Some {
                            lemma_hex_number_prefix(digits, k + 1);
                        }
                    }
                    return None;
                }
                acc = acc * 16 + d;
            },
        }
        i = i + 1;
    }
    proof {
        assert(digits.take(digits.len() as int) =~= digits);
    }
    Some(acc)
}

/// Whether `c` has the Unicode property `White_Space`.
pub open spec fn is_whitespace(c: char) -> bool {
    let v = c as u32;
    ||| 0x09 <= v <= 0x0d
    ||| v == 0x20
    ||| v == 0x85
    ||| v == 0xa0
    ||| v == 0x1680
    ||| 0x2000 <= v <= 0x200a
    ||| v == 0x2028
    ||| v == 0x2029
    ||| v == 0x202f
    ||| v == 0x205f
    ||| v == 0x3000
}

/// Whether `c` is a space, a tab, a line feed, a form feed or a carriage
/// return.
pub open spec fn is_ascii_space(c: char) -> bool {
    c == ' ' || c == '\t' || c == '\n' || c == '\x0c' || c == '\r'
}

/// Tests [`is_whitespace`].
pub fn whitespace(c: char) -> (yes: bool)
    ensures
        yes == is_whitespace(c),
{
    let v: u32 = c as u32;
    (0x09 <= v && v <= 0x0d) || v == 0x20 || v == 0x85 || v == 0xa0 || v == 0x1680 || (0x2000 <= v
        && v <= 0x200a) || v == 0x2028 || v == 0x2029 || v == 0x202f || v == 0x205f || v == 0x3000
}

/// Tests [`is_ascii_space`].
pub fn ascii_space(c: char) -> (yes: bool)
    ensures
        yes == is_ascii_space(c),
{
    c == ' ' || c == '\t' || c == '\n' || c == '\x0c' || c == '\r'
}

/// `text` without the white space it begins with.
pub open spec fn trim_start(text: Seq<char>) -> Seq<char>
    decreases text.len(),
{
    if text.len() > 0 && is_whitespace(text[0]) {
        trim_start(text.drop_first())
    } else {
        text
    }
}

/// `text` without the white space it ends with.
pub open spec fn trim_end(text: Seq<char>) -> Seq<char>
    decreases text.len(),
{
    if text.len() > 0 && is_whitespace(text.last()) {
        trim_end(text.drop_last())
    } else {
        text
    }
}

/// `text` without the white space at either end.
pub open spec fn trim(text: Seq<char>) -> Seq<char> {
    trim_end(trim_start(text))
}

/// The pieces of `text` between the occurrences of `separator`. There is
/// one piece more than there are separators; a piece may be empty.
pub open spec fn split(text: Seq<char>, separator: char) -> Seq<Seq<char>>
    decreases text.len(),
{
    if text.len() == 0 {
        seq![Seq::empty()]
    } else {
        let front = split(text.drop_last(), separator);
        if text.last() == separator {
            front.push(Seq::empty())
        } else {
            front.drop_last().push(front.last().push(text.last()))
        }
    }
}

/// The words of `text`: its longest runs of characters that are no ASCII
/// white space.
pub open spec fn words(text: Seq<char>) -> Seq<Seq<char>>
    decreases text.len(),
{
    if text.len() == 0 {
        Seq::empty()
    } else {
        let front = words(text.drop_last());
        if is_ascii_space(text.last()) {
            front
        } else if text.len() >= 2 && !is_ascii_space(text[text.len() - 2]) {
            front.drop_last().push(front.last().push(text.last()))
        } else {
            front.push(seq![text.last()])
        }
    }
}

/// A list of pieces of text, as plain values.
pub open spec fn pieces_view(pieces: Seq<Vec<char>>) -> Seq<Seq<char>> {
    pieces.map_values(|piece: Vec<char>| piece@)
}

/// Copies the characters from `from` up to `to`.
pub fn copy_range(text: &[char], from: usize, to: usize) -> (piece: Vec<char>)
    requires
        from <= to <= text@.len(),
    ensures
        piece@ == text@.subrange(from as int, to as int),
{
    let mut piece: Vec<char> = Vec::new();
    let mut i: usize = from;
    while i < to
        invariant
            from <= i <= to <= text@.len(),
            piece@ == text@.subrange(from as int, i as int),
        decreases to - i,
    {
        piece.push(text[i]);
        proof {
            assert(piece@ =~= text@.subrange(from as int, i + 1));
        }
        i = i + 1;
    }
    piece
}

/// Cuts the white space off both ends of `text`.
pub fn trim_chars(text: &[char]) -> (trimmed: Vec<char>)
    ensures
        trimmed@ == trim(text@),
{
    let n: usize = text.len();
    let mut a: usize = 0;
    proof {
        assert(text@.skip(0) =~= text@);
    }
    while a < n && whitespace(text[a])
        invariant
            a <= n,
            n == text@.len(),
            trim_start(text@) == trim_start(text@.skip(a as int)),
        decreases n - a,
    {
        proof {
            assert(text@.skip(a as int).drop_first() =~= text@.skip(a + 1));
        }
        a = a + 1;
    }
    proof {
        assert(trim_start(text@) == text@.skip(a as int));
        assert(text@.skip(a as int) =~= text@.subrange(a as int, n as int));
    }
    let mut b: usize = n;
    while b > a && whitespace(text[b - 1])
        invariant
            a <= b <= n,
            n == text@.len(),
            trim(text@) == trim_end(text@.subrange(a as int, b as int)),
        decreases b,
    {
        proof {
            assert(text@.subrange(a as int, b as int).drop_last() =~= text@.subrange(
                a as int,
                b - 1,
            ));
        }
        b = b - 1;
    }
    copy_range(text, a, b)
}

/// Splits `text` at every occurrence of `separator`.
pub fn split_chars(text: &[char], separator: char) -> (pieces: Vec<Vec<char>>)
    ensures
        pieces_view(pieces@) == split(text@, separator),
        pieces@.len() >= 1,
{
    let mut pieces: Vec<Vec<char>> = Vec::new();
    let mut current: Vec<char> = Vec::new();
    let mut i: usize = 0;
    proof {
        assert(text@.take(0) =~= Seq::<char>::empty());
        assert(pieces_view(pieces@).push(current@) =~= seq![Seq::<char>::empty()]);
    }
    while i < text.len()
        invariant
            i <= text@.len(),
            split(text@.take(i as int), separator) == pieces_view(pieces@).push(current@),
        decreases text.len() - i,
    {
        let ghost done = pieces_view(pieces@);
        let ghost piece = current@;
        proof {
            assert(text@.take(i + 1).drop_last() =~= text@.take(i as int));
            assert(done.push(piece).drop_last() =~= done);
        }
        if text[i] == separator {
            pieces.push(current);
            current = Vec::new();
            proof {
                assert(pieces_view(pieces@) =~= done.push(piece));
            }
        } else {
            current.push(text[i]);
        }
        i = i + 1;
    }
    proof {
        assert(text@.take(text@.len() as int) =~= text@);
    }
    let ghost done = pieces_view(pieces@);
    let ghost piece = current@;
    pieces.push(current);
    proof {
        assert(pieces_view(pieces@) =~= done.push(piece));
    }
    pieces
}

/// Splits `text` into its words.
pub fn split_words(text: &[char]) -> (found: Vec<Vec<char>>)
    ensures
        pieces_view(found@) == words(text@),
{
    let mut found: Vec<Vec<char>> = Vec::new();
    let mut current: Vec<char> = Vec::new();
    let mut in_word: bool = false;
    let mut i: usize = 0;
    proof {
        assert(text@.take(0) =~= Seq::<char>::empty());
        assert(pieces_view(found@) =~= Seq::<Seq<char>>::empty());
    }
    while i < text.len()
        invariant
            i <= text@.len(),
            in_word <==> (i > 0 && !is_ascii_space(text@[i - 1])),
            words(text@.take(i as int)) == if in_word {
                pieces_view(found@).push(current@)
            } else {
                pieces_view(found@)
            },
        decreases text.len() - i,
    {
        let ghost done = pieces_view(found@);
        let ghost piece = current@;
        proof {
            assert(text@.take(i + 1).drop_last() =~= text@.take(i as int));
            assert(done.push(piece).drop_last() =~= done);
            if i > 0 {
                assert(text@.take(i + 1)[i - 1] == text@[i - 1]);
            }
        }
        if ascii_space(text[i]) {
            if in_word {
                found.push(current);
                current = Vec::new();
                proof {
                    assert(pieces_view(found@) =~= done.push(piece));
                }
            }
            in_word = false;
        } else {
            if !in_word {
                current = Vec::new();
                proof {
                    assert(current@.push(text@[i as int]) =~= seq![text@[i as int]]);
                }
            }
            current.push(text[i]);
            in_word = true;
        }
        i = i + 1;
    }
    proof {
        assert(text@.take(text@.len() as int) =~= text@);
    }
    if in_word {
        let ghost done = pieces_view(found@);
        let ghost piece = current@;
        found.push(current);
        proof {
            assert(pieces_view(found@) =~= done.push(piece));
        }
    }
    found
}

/// Whether `name` begins with `prefix`.
pub fn starts_with(name: &[char], prefix: &[char]) -> (yes: bool)
    ensures
        yes == prefix@.is_prefix_of(name@),
{
    if prefix.len() > name.len() {
        return false;
    }
    let mut i: usize = 0;
    while i < prefix.len()
        invariant
            i <= prefix.len() <= name.len(),
            name@.subrange(0, i as int) == prefix@.subrange(0, i as int),
        decreases prefix.len() - i,
    {
        if name[i] != prefix[i] {
            proof {
                if prefix@.is_prefix_of(name@) {
                    assert(name@.subrange(0, prefix@.len() as int)[i as int] == prefix@[i as int]);
                }
            }
            return false;
        }
        proof {
            assert(name@.subrange(0, i + 1) =~= name@.subrange(0, i as int).push(name@[i as int]));
            assert(prefix@.subrange(0, i + 1) =~= prefix@.subrange(0, i as int).push(
                prefix@[i as int],
            ));
        }
        i = i + 1;
    }
    proof {
        assert(prefix@.subrange(0, prefix@.len() as int) =~= prefix@);
    }
    true
}

/// Whether two texts hold the same characters.
pub fn same_chars(a: &[char], b: &[char]) -> (yes: bool)
    ensures
        yes == (a@ == b@),
{
    if a.len() != b.len() {
        return false;
    }
    let same = starts_with(a, b);
    proof {
        assert(a@.subrange(0, b@.len() as int) =~= a@);
    }
    same
}

/// The first place from `from` on at which `pattern` stands in `text`.
pub open spec fn find_from(text: Seq<char>, pattern: Seq<char>, from: int) -> Option<int>
    decreases text.len() + 1 - from,
{
    if from < 0 || from > text.len() {
        None
    } else if pattern.is_prefix_of(text.skip(from)) {
        Some(from)
    } else {
        find_from(text, pattern, from + 1)
    }
}

/// Finds the first place at which `pattern` stands in `text`.
pub fn find(text: &[char], pattern: &[char]) -> (place: Option<usize>)
    ensures
        match place {
            Some(at) => find_from(text@, pattern@, 0) == Some(at as int) && at + pattern@.len()
                <= text@.len(),
            None => find_from(text@, pattern@, 0) is None,
        },
{
    let n: usize = text.len();
    let mut from: usize = 0;
    loop
        invariant
            from <= n,
            n == text@.len(),
            find_from(text@, pattern@, 0) == find_from(text@, pattern@, from as int),
        decreases n - from,
    {
        let rest = slice_subrange(text, from, n);
        proof {
            assert(rest@ =~= text@.skip(from as int));
        }
        if starts_with(rest, pattern) {
            return Some(from);
        }
        if from == n {
            return None;
        }
        from = from + 1;
    }
}

} // verus!
