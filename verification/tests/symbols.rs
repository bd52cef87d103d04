use md_profiler::symbols::{
    begins_with, detect_format, parse_as_symbols, parse_nm_symbols, read_as_symbols,
    read_asm68k_symbols, read_nm_symbols, read_symbols, Symbol, SymbolError, SymbolFormat,
    Symbols,
};

fn entry(label: &str, address: u32) -> Symbol {
    Symbol { label: label.to_string(), address }
}

fn asm68k_file(entries: &[(u32, u8, &[u8])]) -> Vec<u8> {
    let mut bytes = b"MND\x01\0\0\0\0".to_vec();
    for (address, kind, label) in entries {
        bytes.extend_from_slice(&address.to_le_bytes());
        bytes.push(*kind);
        bytes.push(label.len() as u8);
        bytes.extend_from_slice(label);
    }
    bytes
}

#[test]
fn last_label_is_the_display_name() {
    let mut symbols = Symbols::default();
    assert_eq!(symbols.len(), 0);
    symbols.insert("Start".to_string(), 0x100);
    symbols.insert("Other".to_string(), 0x200);
    symbols.insert("Alias".to_string(), 0x100);
    assert_eq!(symbols.len(), 3);
    assert_eq!(symbols.label_at(0x100), Some(&"Alias".to_string()));
    assert_eq!(symbols.label_at(0x200), Some(&"Other".to_string()));
    assert_eq!(symbols.label_at(0x300), None);
    assert_eq!(symbols.labels_at(0x100), vec!["Start".to_string(), "Alias".to_string()]);
    assert!(symbols.labels_at(0x300).is_empty());
}

#[test]
fn label_registered_again_moves() {
    let mut symbols = Symbols::new();
    symbols.insert("Loop".to_string(), 0x100);
    symbols.insert("Other".to_string(), 0x150);
    symbols.insert("Loop".to_string(), 0x200);
    assert_eq!(symbols.address_of(&"Loop".to_string()), Some(0x200));
    assert_eq!(symbols.position_of(&"Loop".to_string()), Some(2));
    assert_eq!(symbols.address_of(&"Other".to_string()), Some(0x150));
    assert_eq!(symbols.address_of(&"loop".to_string()), None);
    assert_eq!(symbols.label_at(0x100), Some(&"Loop".to_string()));
    let prefix: Vec<char> = "Lo".chars().collect();
    assert_eq!(symbols.addresses_with_prefix(&prefix), vec![0x200]);
    let all: Vec<char> = Vec::new();
    assert_eq!(symbols.addresses_with_prefix(&all), vec![0x150, 0x200]);
}

#[test]
fn parent_is_the_last_label_at_the_greatest_lower_address() {
    let mut symbols = Symbols::new();
    assert_eq!(symbols.parent_label_of(0x100), None);
    symbols.insert("A".to_string(), 0x100);
    symbols.insert("C".to_string(), 0x300);
    symbols.insert("B".to_string(), 0x200);
    symbols.insert("B2".to_string(), 0x200);
    assert_eq!(symbols.parent_label_of(0x100), None);
    assert_eq!(symbols.parent_label_of(0x101), Some(&"A".to_string()));
    assert_eq!(symbols.parent_label_of(0x200), Some(&"A".to_string()));
    assert_eq!(symbols.parent_label_of(0x250), Some(&"B2".to_string()));
    assert_eq!(symbols.parent_label_of(0x300), Some(&"B2".to_string()));
    assert_eq!(symbols.parent_label_of(0xffff_ffff), Some(&"C".to_string()));
}

#[test]
fn local_label_hangs_under_its_parent() {
    let mut symbols = Symbols::new();
    assert!(!symbols.add_label(true, 0x104, ".loop".to_string()));
    assert!(symbols.entries().is_empty());
    assert!(symbols.add_label(false, 0x100, "Main".to_string()));
    assert!(symbols.add_label(true, 0x104, ".loop".to_string()));
    assert!(symbols.add_label(true, 0x108, ".end".to_string()));
    assert_eq!(
        symbols.entries().clone(),
        vec![entry("Main", 0x100), entry("Main.loop", 0x104), entry("Main.loop.end", 0x108)]
    );
}

#[test]
fn name_list_is_read() {
    let text = "00000200 T main\n00ff0000 B ram_start\n\nnot a line\nzz T broken\n 300  t\tlocal_fn \r\n00000200 T main_alias";
    let symbols = parse_nm_symbols(text);
    assert_eq!(
        symbols.entries().clone(),
        vec![
            entry("main", 0x200),
            entry("ram_start", 0xff_0000),
            entry("local_fn", 0x300),
            entry("main_alias", 0x200),
        ]
    );
    assert_eq!(symbols.label_at(0x200), Some(&"main_alias".to_string()));
    assert_eq!(symbols.address_of(&"main".to_string()), Some(0x200));
}

#[test]
fn name_list_skips_what_it_cannot_read() {
    assert!(parse_nm_symbols("").entries().is_empty());
    assert!(parse_nm_symbols("100 T\n100 T a b\n100000000 T big\n-1 T neg").entries().is_empty());
    assert_eq!(parse_nm_symbols("+10 T plus").entries().clone(), vec![entry("plus", 0x10)]);
    assert_eq!(parse_nm_symbols("ffffffff T top").entries().clone(), vec![entry("top", 0xffff_ffff)]);
}

#[test]
fn name_list_bytes_are_decoded_lossily() {
    let symbols = read_nm_symbols(b"100 T f\xffoo\n200 T caf\xc3\xa9\n");
    assert_eq!(symbols.entries().clone(), vec![entry("f\u{fffd}oo", 0x100), entry("caf\u{e9}", 0x200)]);
}

#[test]
fn listing_is_read_after_its_heading() {
    let text = "Segment CODE\n  Main Int 100 ignored\n  Symbols in Segment CODE :\nMain : Int 200\nMain Int 200 extra\r\nSize Real 1.5\n\nFlag Bool\nBig Int 1234567890AB\nBad Int xyz\nTail Int ff";
    let symbols = parse_as_symbols(text).unwrap();
    assert_eq!(
        symbols.entries().clone(),
        vec![entry("Main", 0x200), entry("Big", 0x5678_90ab), entry("Tail", 0xff)]
    );
}

#[test]
fn listing_without_heading_is_refused() {
    assert_eq!(
        parse_as_symbols("Segment CODE\nMain Int 200\n").unwrap_err(),
        SymbolError::MissingSymbolSection
    );
    assert_eq!(parse_as_symbols("").unwrap_err(), SymbolError::MissingSymbolSection);
}

#[test]
fn listing_uses_the_first_heading() {
    let text = "Symbols in Segment A\nx Int 1\nSymbols in Segment B\ny Int 2\n";
    let symbols = parse_as_symbols(text).unwrap();
    assert_eq!(symbols.entries().clone(), vec![entry("x", 1), entry("y", 2)]);
    assert!(parse_as_symbols("Symbols in Segment").unwrap().entries().is_empty());
    assert!(parse_as_symbols("Symbols in Segment x Int 1").unwrap().entries().is_empty());
}

#[test]
fn listing_line_without_its_fields_is_refused() {
    assert_eq!(
        parse_as_symbols("Symbols in Segment\nMain Int 200\nLonely\n").unwrap_err(),
        SymbolError::MalformedLine { line: 2 }
    );
    assert_eq!(
        parse_as_symbols("Symbols in Segment\nMain Int\n").unwrap_err(),
        SymbolError::MalformedLine { line: 1 }
    );
    assert_eq!(
        parse_as_symbols("Symbols in Segment\n   \n").unwrap_err(),
        SymbolError::MalformedLine { line: 1 }
    );
    assert_eq!(
        parse_as_symbols("Symbols in Segment\nMain Int 1\n\r").unwrap_err(),
        SymbolError::MalformedLine { line: 2 }
    );
    assert!(parse_as_symbols("Symbols in Segment\n\r\n\r\n").unwrap().entries().is_empty());
}

#[test]
fn listing_bytes_are_decoded_lossily() {
    let symbols = read_as_symbols(b"Symbols in Segment CODE\n\xffn Int 10\n").unwrap();
    assert_eq!(symbols.entries().clone(), vec![entry("\u{fffd}n", 0x10)]);
}

#[test]
fn binary_symbols_are_read() {
    let bytes = asm68k_file(&[
        (0x200, 2, b"Main"),
        (0x400, 2, b"Draw"),
        (0x204, 6, b".loop"),
        (0x404, 6, b"@end"),
        (0x200, 2, b"Entry"),
        (0x210, 6, b".x"),
        (0x500, 2, b""),
    ]);
    let symbols = read_asm68k_symbols(&bytes).unwrap();
    assert_eq!(
        symbols.entries().clone(),
        vec![
            entry("Main", 0x200),
            entry("Draw", 0x400),
            entry("Main.loop", 0x204),
            entry("Draw@end", 0x404),
            entry("Entry", 0x200),
            entry("Main.loop.x", 0x210),
            entry("", 0x500),
        ]
    );
}

#[test]
fn binary_symbols_decode_labels_lossily() {
    let bytes = asm68k_file(&[(0x10, 2, b"a\xffb"), (0x20, 6, b"\xc3\xa9")]);
    let symbols = read_asm68k_symbols(&bytes).unwrap();
    assert_eq!(symbols.entries().clone(), vec![entry("a\u{fffd}b", 0x10), entry("a\u{fffd}b\u{e9}", 0x20)]);
}

#[test]
fn binary_symbols_without_entries() {
    assert!(read_asm68k_symbols(b"MND").unwrap().entries().is_empty());
    assert!(read_asm68k_symbols(b"MND\x01\0\0\0\0").unwrap().entries().is_empty());
}

#[test]
fn truncated_binary_entry_is_refused() {
    let mut bytes = asm68k_file(&[(0x200, 2, b"Main")]);
    bytes.extend_from_slice(&[1, 2, 3, 4, 2]);
    assert_eq!(read_asm68k_symbols(&bytes).unwrap_err(), SymbolError::Truncated { offset: 18 });
    let mut bytes = asm68k_file(&[]);
    bytes.extend_from_slice(&[0, 1, 0, 0, 2, 3, b'a', b'b']);
    assert_eq!(read_asm68k_symbols(&bytes).unwrap_err(), SymbolError::Truncated { offset: 8 });
}

#[test]
fn unknown_label_type_is_refused() {
    let bytes = asm68k_file(&[(0x200, 2, b"Main"), (0x300, 3, b"What")]);
    assert_eq!(
        read_asm68k_symbols(&bytes).unwrap_err(),
        SymbolError::UnknownLabelType { offset: 18, kind: 3 }
    );
    let mut bytes = asm68k_file(&[]);
    bytes.extend_from_slice(&[0, 1, 0, 0, 9, 200]);
    assert_eq!(
        read_asm68k_symbols(&bytes).unwrap_err(),
        SymbolError::UnknownLabelType { offset: 8, kind: 9 }
    );
}

#[test]
fn local_label_without_parent_is_refused() {
    let bytes = asm68k_file(&[(0x200, 2, b"Main"), (0x200, 6, b".x")]);
    assert_eq!(
        read_asm68k_symbols(&bytes).unwrap_err(),
        SymbolError::OrphanLocalLabel { offset: 18 }
    );
    let bytes = asm68k_file(&[(0x0, 6, b".x")]);
    assert_eq!(
        read_asm68k_symbols(&bytes).unwrap_err(),
        SymbolError::OrphanLocalLabel { offset: 8 }
    );
}

#[test]
fn format_is_told_by_the_first_bytes() {
    assert_eq!(detect_format(b"MND\x01"), SymbolFormat::Asm68k);
    assert_eq!(detect_format(b"MND"), SymbolFormat::Asm68k);
    assert_eq!(detect_format(b"MN"), SymbolFormat::Nm);
    assert_eq!(detect_format(b""), SymbolFormat::Nm);
    assert_eq!(detect_format(b"Segment CODE\n"), SymbolFormat::As);
    assert_eq!(detect_format(b"Segment COD"), SymbolFormat::Nm);
    assert_eq!(detect_format(b"segment CODE"), SymbolFormat::Nm);
    assert_eq!(detect_format(b"00000200 T main"), SymbolFormat::Nm);
    assert!(begins_with(b"abc", b""));
    assert!(begins_with(b"abc", b"abc"));
    assert!(!begins_with(b"abc", b"abd"));
    assert!(!begins_with(b"ab", b"abc"));
}

#[test]
fn symbol_files_are_read_in_their_format() {
    let binary = asm68k_file(&[(0x200, 2, b"Main")]);
    assert_eq!(read_symbols(&binary).unwrap().entries().clone(), vec![entry("Main", 0x200)]);
    let listing = b"Segment CODE\nSymbols in Segment CODE\nMain Int 300\n";
    assert_eq!(read_symbols(listing).unwrap().entries().clone(), vec![entry("Main", 0x300)]);
    assert_eq!(
        read_symbols(b"Segment CODE\nMain Int 300\n").unwrap_err(),
        SymbolError::MissingSymbolSection
    );
    assert_eq!(read_symbols(b"00000400 T main\n").unwrap().entries().clone(), vec![entry("main", 0x400)]);
    assert!(read_symbols(b"").unwrap().entries().is_empty());
    assert!(read_symbols(b"no symbols here").unwrap().entries().is_empty());
}
