use comment_stripper::{find_tree_sitter_function, select_candidate, Error};

use object::write::{Object, Symbol, SymbolSection};
use object::{Architecture, BinaryFormat, Endianness, SymbolFlags, SymbolKind, SymbolScope};

fn strings(names: &[&str]) -> Vec<String> {
    names.iter().map(|s| s.to_string()).collect()
}

#[test]
fn shortest_candidate_wins() {
    let symbols = strings(&["tree_sitter_go", "go_tree_sitter_extra"]);
    let picked = select_candidate(&symbols, "go");
    assert_eq!(picked, Some("tree_sitter_go".to_string()));
}

#[test]
fn order_does_not_matter_for_shortest() {
    let symbols = strings(&["go_tree_sitter_extra", "tree_sitter_go"]);
    let picked = select_candidate(&symbols, "go");
    assert_eq!(picked, Some("tree_sitter_go".to_string()));
}

#[test]
fn tie_keeps_earliest() {
    let symbols = strings(&["go_tree_sitter", "tree_sitter_go"]);
    let picked = select_candidate(&symbols, "go");
    assert_eq!(picked, Some("go_tree_sitter".to_string()));
}

#[test]
fn both_markers_are_required() {
    // has the language but not the marker, or the marker but not the language
    let symbols = strings(&["go_parse_entry", "tree_sitter_python", "gopher_helper"]);
    assert_eq!(select_candidate(&symbols, "go"), None);
}

#[test]
fn empty_symbol_table_is_no_match() {
    let symbols: Vec<String> = Vec::new();
    assert_eq!(select_candidate(&symbols, "go"), None);
}

fn object_with_symbols(names: &[&str]) -> Vec<u8> {
    let mut obj = Object::new(BinaryFormat::Elf, Architecture::X86_64, Endianness::Little);
    for name in names {
        obj.add_symbol(Symbol {
            name: name.as_bytes().to_vec(),
            value: 0,
            size: 0,
            kind: SymbolKind::Text,
            scope: SymbolScope::Dynamic,
            weak: false,
            section: SymbolSection::Absolute,
            flags: SymbolFlags::None,
        });
    }
    obj.write().expect("failed to build test object file")
}

#[test]
fn resolves_symbol_from_real_object_file() {
    let data = object_with_symbols(&["helper", "tree_sitter_go", "go_tree_sitter_extra"]);
    let found = find_tree_sitter_function(&data, "go");
    assert_eq!(found, Ok(Some("tree_sitter_go".to_string())));
}

#[test]
fn module_without_matching_symbol_is_no_match_not_error() {
    let data = object_with_symbols(&["helper", "tree_sitter_python"]);
    let found = find_tree_sitter_function(&data, "go");
    assert_eq!(found, Ok(None));
}

#[test]
fn unrecognized_bytes_are_a_parse_error() {
    let data = b"this is not an object file at all".to_vec();
    let found = find_tree_sitter_function(&data, "go");
    assert_eq!(found, Err(Error::ParseError));
}
