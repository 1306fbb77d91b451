use comment_stripper::stripper::{strip_nodes, strip_nodes_no_ws, SyntaxNode};

fn leaf(kind: &str, start: usize, end: usize) -> SyntaxNode {
    SyntaxNode { kind: kind.to_string(), start, end, children: Vec::new() }
}

fn kinds(names: &[&str]) -> Vec<String> {
    names.iter().map(|s| s.to_string()).collect()
}

#[test]
fn whitespace_mode_end_to_end() {
    let root = SyntaxNode {
        kind: "source_file".to_string(),
        start: 0,
        end: 16,
        children: vec![leaf("call", 0, 4), leaf("comment", 4, 10), leaf("call", 11, 15)],
    };
    let mut buf = b"a(); // hi\nb();\n".to_vec();
    strip_nodes(&root, &mut buf, &kinds(&["comment"]));
    assert_eq!(buf, b"a();      \nb();\n".to_vec());
}

#[test]
fn newline_mode_end_to_end() {
    let root = SyntaxNode {
        kind: "source_file".to_string(),
        start: 0,
        end: 16,
        children: vec![leaf("call", 0, 4), leaf("comment", 4, 10), leaf("call", 11, 15)],
    };
    let mut buf = b"a(); // hi\nb();\n".to_vec();
    let mut offset: isize = 0;
    strip_nodes_no_ws(&root, &mut buf, &kinds(&["comment"]), &mut offset);
    assert_eq!(buf, b"a();\nb();\n".to_vec());
    assert_eq!(offset, -6);
}

#[test]
fn whitespace_mode_keeps_length() {
    let root = SyntaxNode {
        kind: "module".to_string(),
        start: 0,
        end: 11,
        children: vec![leaf("block_comment", 2, 9)],
    };
    let mut buf = b"x /*a\nb*/ y".to_vec();
    let before = buf.len();
    strip_nodes(&root, &mut buf, &kinds(&["block_comment"]));
    assert_eq!(buf.len(), before);
    assert_eq!(buf, b"x         y".to_vec());
}

#[test]
fn newline_mode_keeps_embedded_newlines() {
    let root = SyntaxNode {
        kind: "module".to_string(),
        start: 0,
        end: 11,
        children: vec![leaf("block_comment", 2, 9)],
    };
    let mut buf = b"x /*a\nb*/ y".to_vec();
    let newlines_before = buf.iter().filter(|&&b| b == b'\n').count();
    let mut offset: isize = 0;
    strip_nodes_no_ws(&root, &mut buf, &kinds(&["block_comment"]), &mut offset);
    assert_eq!(buf, b"x \n y".to_vec());
    let newlines_after = buf.iter().filter(|&&b| b == b'\n').count();
    assert_eq!(newlines_before, newlines_after);
    // output length = input length - (span length - embedded newline count)
    assert_eq!(buf.len(), 11 - (7 - 1));
}

#[test]
fn newline_mode_two_siblings() {
    let root = SyntaxNode {
        kind: "source_file".to_string(),
        start: 0,
        end: 14,
        children: vec![leaf("comment", 2, 6), leaf("comment", 9, 13)],
    };
    let mut buf = b"a // x\nb // y\n".to_vec();
    let mut offset: isize = 0;
    strip_nodes_no_ws(&root, &mut buf, &kinds(&["comment"]), &mut offset);
    assert_eq!(buf, b"a \nb \n".to_vec());
    assert_eq!(offset, -8);
}

#[test]
fn whitespace_mode_idempotent() {
    let root = SyntaxNode {
        kind: "source_file".to_string(),
        start: 0,
        end: 16,
        children: vec![leaf("comment", 4, 10)],
    };
    let comment_types = kinds(&["comment"]);
    let mut once = b"a(); // hi\nb();\n".to_vec();
    strip_nodes(&root, &mut once, &comment_types);
    let mut twice = once.clone();
    strip_nodes(&root, &mut twice, &comment_types);
    assert_eq!(once, twice);
}

#[test]
fn children_of_stripped_node_are_skipped() {
    let root = SyntaxNode {
        kind: "comment".to_string(),
        start: 0,
        end: 4,
        children: vec![leaf("comment", 1, 3)],
    };
    let mut buf = b"abcd".to_vec();
    strip_nodes(&root, &mut buf, &kinds(&["comment"]));
    assert_eq!(buf, b"    ".to_vec());

    let mut buf2 = b"abcd".to_vec();
    let mut offset: isize = 0;
    strip_nodes_no_ws(&root, &mut buf2, &kinds(&["comment"]), &mut offset);
    assert_eq!(buf2, b"".to_vec());
    assert_eq!(offset, -4);
}

#[test]
fn no_comment_kinds_changes_nothing() {
    let root = SyntaxNode {
        kind: "source_file".to_string(),
        start: 0,
        end: 6,
        children: vec![leaf("comment", 0, 6)],
    };
    let empty: Vec<String> = Vec::new();
    let mut buf = b"// abc".to_vec();
    strip_nodes(&root, &mut buf, &empty);
    assert_eq!(buf, b"// abc".to_vec());

    let mut offset: isize = 0;
    strip_nodes_no_ws(&root, &mut buf, &empty, &mut offset);
    assert_eq!(buf, b"// abc".to_vec());
    assert_eq!(offset, 0);
}

#[test]
fn empty_buffer_empty_tree() {
    let root = leaf("source_file", 0, 0);
    let mut buf: Vec<u8> = Vec::new();
    strip_nodes(&root, &mut buf, &kinds(&["comment"]));
    assert_eq!(buf, Vec::<u8>::new());
}
