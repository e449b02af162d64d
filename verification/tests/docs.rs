use zed_mojom::docs::{
    documentation_is_defined, collect_block_comment, collect_line_comments, extract_leading_documentation,
    leading_documentation_bytes, normalize_doc_lines,
};
use zed_mojom::lines::{is_attribute_line, line_index_for_offset, line_ranges, line_text, offset_from_line_col};

fn offset_of(text: &str, needle: &str) -> usize {
    text.find(needle).expect("needle present")
}

#[test]
fn line_ranges_split_at_newlines() {
    assert_eq!(line_ranges(b"a\nb"), vec![(0, 1), (2, 3)]);
    assert_eq!(line_ranges(b"a\n"), vec![(0, 1)]);
    assert_eq!(line_ranges(b""), vec![(0, 0)]);
    assert_eq!(line_ranges(b"a\r\n\r\nb"), vec![(0, 1), (3, 3), (5, 6)]);
    assert_eq!(line_ranges(b"\n\n"), vec![(0, 0), (1, 1)]);
}

#[test]
fn line_index_includes_line_end() {
    let lines = line_ranges(b"ab\ncd");
    assert_eq!(line_index_for_offset(&lines, 0), Some(0));
    assert_eq!(line_index_for_offset(&lines, 2), Some(0));
    assert_eq!(line_index_for_offset(&lines, 3), Some(1));
    assert_eq!(line_index_for_offset(&lines, 5), Some(1));
    assert_eq!(line_index_for_offset(&lines, 6), None);
}

#[test]
fn line_text_slices() {
    let text = b"first\nsecond";
    let lines = line_ranges(text);
    assert_eq!(line_text(text, lines[1]), b"second");
}

#[test]
fn attribute_lines() {
    assert!(is_attribute_line(b"  [Stable]  "));
    assert!(is_attribute_line(b"[]"));
    assert!(!is_attribute_line(b"["));
    assert!(!is_attribute_line(b"struct S {"));
    assert!(!is_attribute_line(b""));
}

#[test]
fn offsets_of_positions() {
    let text = b"ab\ncd";
    assert_eq!(offset_from_line_col(text, 0, 0), Some(0));
    assert_eq!(offset_from_line_col(text, 1, 1), Some(4));
    assert_eq!(offset_from_line_col(text, 1, 10), Some(5));
    assert_eq!(offset_from_line_col(text, 0, 10), Some(2));
    assert_eq!(offset_from_line_col(text, 2, 0), None);
    assert_eq!(offset_from_line_col(b"ab\n", 1, 3), Some(3));
}

#[test]
fn normalize_drops_blank_edges() {
    let lines = vec![b"".to_vec(), b"  ".to_vec(), b"a".to_vec(), b"".to_vec(), b"b".to_vec(), b"\t".to_vec()];
    assert_eq!(normalize_doc_lines(lines), Some(b"a\n\nb".to_vec()));
    assert_eq!(normalize_doc_lines(vec![b" ".to_vec(), b"".to_vec()]), None);
    assert_eq!(normalize_doc_lines(vec![]), None);
}

#[test]
fn line_comment_run() {
    let text = b"// one\n//  two\ncode";
    let lines = line_ranges(text);
    assert_eq!(collect_line_comments(text, &lines, 1), Some(b"one\ntwo".to_vec()));
    assert_eq!(collect_line_comments(text, &lines, 2), None);
}

#[test]
fn block_comment_body() {
    let text = b"/**\n * Block doc\n * second\n */\ncode";
    let lines = line_ranges(text);
    assert_eq!(collect_block_comment(text, &lines, 3), Some(b"Block doc\nsecond".to_vec()));
}

#[test]
fn documentation_from_line_comments() {
    let text = "module m;\n// Doc line one\n// Doc line two\ninterface Foo {};\n";
    let offset = offset_of(text, "Foo");
    assert_eq!(
        extract_leading_documentation(text, offset),
        Some("Doc line one\nDoc line two".to_string())
    );
}

#[test]
fn documentation_skips_attributes() {
    let text = "// Hello\n[Stable]\n  [Extensible]\nstruct S {};";
    assert_eq!(extract_leading_documentation(text, offset_of(text, "S {")), Some("Hello".to_string()));
}

#[test]
fn documentation_from_block_comment() {
    let text = "module m;\n/**\n * Block doc\n * second\n */\nstruct S {};";
    assert_eq!(
        extract_leading_documentation(text, offset_of(text, "S {")),
        Some("Block doc\nsecond".to_string())
    );
    let inline = "/* inline */\nconst int32 K = 1;";
    assert_eq!(extract_leading_documentation(inline, offset_of(inline, "K")), Some("inline".to_string()));
}

#[test]
fn first_line_has_no_documentation() {
    let text = "struct S {};\n// trailing";
    assert_eq!(extract_leading_documentation(text, 7), None);
}

#[test]
fn no_comment_no_documentation() {
    let text = "const int32 A = 1;\nconst int32 B = 2;";
    assert_eq!(extract_leading_documentation(text, offset_of(text, "B")), None);
    let blank = "// x\n\nconst int32 B = 2;";
    assert_eq!(extract_leading_documentation(blank, offset_of(blank, "B")), None);
    assert_eq!(extract_leading_documentation("a", 5), None);
}

#[test]
fn comment_markers_and_blank_comment_lines() {
    let text = "//\n//// x\n//\nstruct S {};";
    assert_eq!(extract_leading_documentation(text, offset_of(text, "S {")), Some("x".to_string()));
    let empty = "//\n//\nstruct S {};";
    assert_eq!(extract_leading_documentation(empty, offset_of(empty, "S {")), None);
}

#[test]
fn documentation_keeps_unicode() {
    let text = "// h\u{e9}llo w\u{f6}rld\nstruct S {};";
    assert_eq!(
        extract_leading_documentation(text, offset_of(text, "S {")),
        Some("h\u{e9}llo w\u{f6}rld".to_string())
    );
    let spaced = "//\u{3000}Doc\u{3000}\u{a0}\nstruct S {};";
    assert_eq!(extract_leading_documentation(spaced, offset_of(spaced, "S {")), Some("Doc".to_string()));
}

#[test]
fn documentation_bytes_agree_with_text() {
    let text = "// a\n// b\nconst int32 C = 0;";
    let offset = offset_of(text, "C");
    assert_eq!(leading_documentation_bytes(text.as_bytes(), offset), Some(b"a\nb".to_vec()));
}

#[test]
fn crlf_documentation() {
    let text = "/*\r\n * one\r\n */\r\nstruct S {};";
    assert_eq!(extract_leading_documentation(text, offset_of(text, "S {")), Some("one".to_string()));
}

#[test]
fn overlapping_block_markers_are_undefined() {
    let text = "x /*/\nstruct S {};";
    assert!(!documentation_is_defined(text.as_bytes(), offset_of(text, "S {")));
    let fine = "/* ok */\nstruct S {};";
    assert!(documentation_is_defined(fine.as_bytes(), offset_of(fine, "S {")));
    let line = "// a /*/\nstruct S {};";
    assert!(documentation_is_defined(line.as_bytes(), offset_of(line, "S {")));
}

#[test]
fn normalized_documentation_is_normalized_again_unchanged() {
    let lines = vec![b"  ".to_vec(), b"first".to_vec(), b"".to_vec(), b"  second".to_vec(), b"\t".to_vec()];
    let doc = normalize_doc_lines(lines).unwrap();
    assert_eq!(doc, b"first\n\n  second".to_vec());
    let again: Vec<Vec<u8>> = doc.split(|b| *b == b'\n').map(|l| l.to_vec()).collect();
    assert_eq!(normalize_doc_lines(again), Some(doc));
}

#[test]
fn text_without_slash_star_slash_is_defined_everywhere() {
    let text = "/* one\n * two */\n[Stable]\nstruct A {};\n/**/\nstruct B {};\n/* x */ /* y */\nconst int32 k = 1;\n";
    for offset in 0..=text.len() + 2 {
        assert!(documentation_is_defined(text.as_bytes(), offset));
    }
    assert_eq!(extract_leading_documentation(text, offset_of(text, "struct A")), Some("one\ntwo".to_string()));
    assert_eq!(extract_leading_documentation(text, offset_of(text, "struct B")), None);
    assert_eq!(extract_leading_documentation(text, offset_of(text, "const")), Some("x */ /* y".to_string()));
}
