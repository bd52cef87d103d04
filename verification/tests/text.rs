use md_profiler::text::{
    ascii_space, copy_range, find, format_hex, parse_hex, same_chars, split_chars, split_words,
    starts_with, trim_chars, whitespace,
};

fn text_chars(s: &str) -> Vec<char> {
    s.chars().collect()
}

fn text_strings(pieces: &[Vec<char>]) -> Vec<String> {
    pieces.iter().map(|p| p.iter().collect()).collect()
}

#[test]
fn hex_literals_are_lower_case_without_leading_zeros() {
    assert_eq!(format_hex(0), "0x0");
    assert_eq!(format_hex(9), "0x9");
    assert_eq!(format_hex(0xa), "0xa");
    assert_eq!(format_hex(0x100), "0x100");
    assert_eq!(format_hex(0xdead_beef), "0xdeadbeef");
    assert_eq!(format_hex(u32::MAX), "0xffffffff");
    assert_eq!(format_hex(0x00ff_0010), format!("{:#x}", 0x00ff_0010u32));
}

#[test]
fn hex_numbers_are_read_in_either_case() {
    assert_eq!(parse_hex(&text_chars("0"), 0xffff_ffff), Some(0));
    assert_eq!(parse_hex(&text_chars("ff"), 0xffff_ffff), Some(255));
    assert_eq!(parse_hex(&text_chars("FF"), 0xffff_ffff), Some(255));
    assert_eq!(parse_hex(&text_chars("00E0fC"), 0xffff_ffff), Some(0xe0fc));
    assert_eq!(parse_hex(&text_chars("+1f"), 0xffff_ffff), Some(0x1f));
    assert_eq!(parse_hex(&text_chars("ffffffff"), 0xffff_ffff), Some(0xffff_ffff));
    assert_eq!(parse_hex(&text_chars("ffffffffffffffff"), u64::MAX), Some(u64::MAX));
}

#[test]
fn hex_numbers_with_anything_else_are_refused() {
    for text in ["", "+", "-1", "0x10", "12g", " 12", "12 ", "1_0", "++1"] {
        assert_eq!(parse_hex(&text_chars(text), 0xffff_ffff), None, "{:?}", text);
    }
}

#[test]
fn hex_numbers_above_the_limit_are_refused() {
    assert_eq!(parse_hex(&text_chars("100000000"), 0xffff_ffff), None);
    assert_eq!(parse_hex(&text_chars("10000000000000000"), u64::MAX), None);
    assert_eq!(parse_hex(&text_chars("fffffffffffffffff"), u64::MAX), None);
    assert_eq!(parse_hex(&text_chars("10"), 15), None);
    assert_eq!(parse_hex(&text_chars("f"), 15), Some(15));
    assert_eq!(parse_hex(&text_chars("0"), 0), Some(0));
    assert_eq!(parse_hex(&text_chars("1"), 0), None);
}

#[test]
fn whitespace_is_the_unicode_property() {
    for code in 0u32..0x3100 {
        if let Some(c) = char::from_u32(code) {
            assert_eq!(whitespace(c), c.is_whitespace(), "{:#x}", code);
            assert_eq!(ascii_space(c), c.is_ascii_whitespace(), "{:#x}", code);
        }
    }
}

#[test]
fn trimming_cuts_both_ends_only() {
    assert_eq!(trim_chars(&text_chars("  a b \t\r\n")), text_chars("a b"));
    assert_eq!(trim_chars(&text_chars("\u{a0}x\u{3000}")), text_chars("x"));
    assert_eq!(trim_chars(&text_chars("   ")), text_chars(""));
    assert_eq!(trim_chars(&text_chars("")), text_chars(""));
    assert_eq!(trim_chars(&text_chars("abc")), text_chars("abc"));
}

#[test]
fn splitting_keeps_empty_pieces() {
    assert_eq!(text_strings(&split_chars(&text_chars("a,b,,c"), ',')), ["a", "b", "", "c"]);
    assert_eq!(text_strings(&split_chars(&text_chars(""), ',')), [""]);
    assert_eq!(text_strings(&split_chars(&text_chars(","), ',')), ["", ""]);
    assert_eq!(text_strings(&split_chars(&text_chars("abc"), ';')), ["abc"]);
    assert_eq!(text_strings(&split_chars(&text_chars("a\nb\n"), '\n')), ["a", "b", ""]);
}

#[test]
fn words_are_runs_of_non_space() {
    assert_eq!(text_strings(&split_words(&text_chars("  00ff  T\tmain \r "))), ["00ff", "T", "main"]);
    assert!(split_words(&text_chars(" \t\n")).is_empty());
    assert!(split_words(&text_chars("")).is_empty());
    assert_eq!(text_strings(&split_words(&text_chars("a"))), ["a"]);
    assert_eq!(text_strings(&split_words(&text_chars("a\x0bb c"))), ["a\x0bb", "c"]);
}

#[test]
fn finding_gives_the_first_place() {
    assert_eq!(find(&text_chars("abcabc"), &text_chars("bc")), Some(1));
    assert_eq!(find(&text_chars("abcabc"), &text_chars("")), Some(0));
    assert_eq!(find(&text_chars("abc"), &text_chars("abcd")), None);
    assert_eq!(find(&text_chars("abc"), &text_chars("c")), Some(2));
    assert_eq!(find(&text_chars(""), &text_chars("")), Some(0));
    assert_eq!(find(&text_chars("aab"), &text_chars("ab")), Some(1));
}

#[test]
fn prefixes_and_equality() {
    assert!(starts_with(&text_chars("VDP_Init"), &text_chars("VDP_")));
    assert!(starts_with(&text_chars("VDP_"), &text_chars("VDP_")));
    assert!(starts_with(&text_chars("x"), &text_chars("")));
    assert!(!starts_with(&text_chars("VD"), &text_chars("VDP_")));
    assert!(!starts_with(&text_chars("VDQ_Init"), &text_chars("VDP_")));
    assert!(same_chars(&text_chars("Int"), &text_chars("Int")));
    assert!(!same_chars(&text_chars("Int"), &text_chars("Inu")));
    assert!(!same_chars(&text_chars("Int"), &text_chars("In")));
    assert_eq!(copy_range(&text_chars("hello"), 1, 3), text_chars("el"));
    assert_eq!(copy_range(&text_chars("hello"), 2, 2), text_chars(""));
}
