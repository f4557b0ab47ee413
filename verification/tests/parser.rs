use merch::{parse_merch_doc, ParseError};

fn b(s: &str) -> Vec<u8> {
    s.as_bytes().to_vec()
}

#[test]
fn parses_a_plain_document() {
    let text = "\
// ====================
// merch::setup: </home/user/project>
// merch::existing-file: <a.txt> <0> <0123456789abcdef0123>
// merch::existing-file: <sub/b.txt> <1> <aaaaaaaaaaaaaaaaaaaa>
// ====================

// merch::file: <a.txt> <0>:
hello
// merch::file: <sub/b.txt> <1>
";
    let doc = parse_merch_doc(text.as_bytes()).unwrap();
    assert_eq!(doc.base_path, b("/home/user/project"));
    assert_eq!(doc.existing_files.len(), 2);
    assert_eq!(doc.existing_files[0].idx, 0);
    assert_eq!(doc.existing_files[0].path, b("a.txt"));
    assert_eq!(doc.existing_files[0].hash, b("0123456789abcdef0123"));
    assert_eq!(doc.existing_files[1].idx, 1);
    assert_eq!(doc.existing_files[1].path, b("sub/b.txt"));
    assert_eq!(doc.updated_files.len(), 2);
    assert_eq!(doc.updated_files[0].idx, 0);
    assert_eq!(doc.updated_files[0].new_path, b("a.txt"));
    assert_eq!(doc.updated_files[0].content, Some(b("hello")));
    assert_eq!(doc.updated_files[1].idx, 1);
    assert_eq!(doc.updated_files[1].content, None);
}

#[test]
fn missing_setup_is_an_error() {
    let text = "// merch::file: <a.txt> <0>\n";
    assert_eq!(parse_merch_doc(text.as_bytes()), Err(ParseError::MissingSetup));
}

#[test]
fn empty_document_is_missing_setup() {
    assert_eq!(parse_merch_doc(b""), Err(ParseError::MissingSetup));
}

#[test]
fn malformed_arity_is_an_error() {
    let text = "// merch::setup: </b>\n// merch::file: <a.txt>\n";
    let off = text.find("merch::file").unwrap() - "// ".len();
    assert_eq!(
        parse_merch_doc(text.as_bytes()),
        Err(ParseError::MalformedInstruction(off))
    );
}

#[test]
fn malformed_index_is_an_error() {
    let text = "// merch::setup: </b>\n// merch::file: <a.txt> <abc>\n";
    assert!(matches!(
        parse_merch_doc(text.as_bytes()),
        Err(ParseError::MalformedInstruction(_))
    ));
}

#[test]
fn setup_without_brackets_is_malformed() {
    let text = "// merch::setup: /b\n";
    assert_eq!(parse_merch_doc(text.as_bytes()), Err(ParseError::MalformedInstruction(0)));
}

#[test]
fn unrecognized_commands_are_ignored() {
    let text = "// merch::setup: </b>\n// merch::frobnicate: <x> <y>\n";
    let doc = parse_merch_doc(text.as_bytes()).unwrap();
    assert_eq!(doc.base_path, b("/b"));
    assert_eq!(doc.existing_files.len(), 0);
    assert_eq!(doc.updated_files.len(), 0);
}

#[test]
fn decorative_lines_are_ignored() {
    let text = "\
hello world
// ====================
// merch::setup: </b>
banner text with no marker
";
    let doc = parse_merch_doc(text.as_bytes()).unwrap();
    assert_eq!(doc.base_path, b("/b"));
}

#[test]
fn content_excludes_exactly_one_trailing_newline() {
    let text = "// merch::setup: </b>\n// merch::file: <a> <0>:\nbody\n// merch::file: <c> <1>\n";
    let doc = parse_merch_doc(text.as_bytes()).unwrap();
    assert_eq!(doc.updated_files[0].content, Some(b("body")));
}

#[test]
fn content_keeps_inner_blank_lines_verbatim() {
    let text =
        "// merch::setup: </b>\n// merch::file: <a> <0>:\nline1\n\nline3\n\n// merch::file: <c> <1>\n";
    let doc = parse_merch_doc(text.as_bytes()).unwrap();
    // only the single newline before the next instruction line is stripped
    assert_eq!(doc.updated_files[0].content, Some(b("line1\n\nline3\n")));
}

#[test]
fn content_excludes_carriage_return_newline_pair() {
    let text = "// merch::setup: </b>\r\n// merch::file: <a> <0>:\r\nbody\r\n// merch::file: <c> <1>\r\n";
    let doc = parse_merch_doc(text.as_bytes()).unwrap();
    assert_eq!(doc.updated_files[0].content, Some(b("body")));
}

#[test]
fn content_runs_to_end_of_document() {
    let text = "// merch::setup: </b>\n// merch::file: <a> <0>:\nlast line without newline";
    let doc = parse_merch_doc(text.as_bytes()).unwrap();
    assert_eq!(doc.updated_files[0].content, Some(b("last line without newline")));
}

#[test]
fn empty_content_is_empty() {
    let text = "// merch::setup: </b>\n// merch::file: <a> <0>:\n\n// merch::file: <c> <1>\n";
    let doc = parse_merch_doc(text.as_bytes()).unwrap();
    assert_eq!(doc.updated_files[0].content, Some(b("")));
}

#[test]
fn content_keeps_marker_lookalikes_verbatim() {
    let text = "// merch::setup: </b>\n// merch::file: <a> <0>:\nnearly merch: not an instruction\nmerch::missing colon\n// merch::file: <c> <1>\n";
    let doc = parse_merch_doc(text.as_bytes()).unwrap();
    assert_eq!(
        doc.updated_files[0].content,
        Some(b("nearly merch: not an instruction\nmerch::missing colon"))
    );
}

#[test]
fn suffix_comment_style_is_recognized() {
    let text = "<!-- merch::setup: </b> -->\n<!-- merch::file: <a.txt> <0>: -->\nbody\n<!-- merch::file: <c> <1> -->\n";
    let doc = parse_merch_doc(text.as_bytes()).unwrap();
    assert_eq!(doc.base_path, b("/b"));
    assert_eq!(doc.updated_files[0].content, Some(b("body")));
    assert_eq!(doc.updated_files[1].content, None);
}

#[test]
fn file_without_colon_captures_nothing() {
    let text = "// merch::setup: </b>\n// merch::file: <a> <0>\nstray text\n";
    let doc = parse_merch_doc(text.as_bytes()).unwrap();
    assert_eq!(doc.updated_files[0].content, None);
}

#[test]
fn later_file_instruction_replaces_earlier_record() {
    let text = "// merch::setup: </b>\n// merch::file: <old.txt> <0>\n// merch::file: <new.txt> <0>\n";
    let doc = parse_merch_doc(text.as_bytes()).unwrap();
    assert_eq!(doc.updated_files.len(), 1);
    assert_eq!(doc.updated_files[0].new_path, b("new.txt"));
}

#[test]
fn later_setup_wins() {
    let text = "// merch::setup: </first>\n// merch::setup: </second>\n";
    let doc = parse_merch_doc(text.as_bytes()).unwrap();
    assert_eq!(doc.base_path, b("/second"));
}

#[test]
fn index_accepts_leading_plus() {
    let text = "// merch::setup: </b>\n// merch::file: <a> <+3>\n";
    let doc = parse_merch_doc(text.as_bytes()).unwrap();
    assert_eq!(doc.updated_files[0].idx, 3);
}

#[test]
fn huge_index_is_malformed() {
    let text = "// merch::setup: </b>\n// merch::file: <a> <99999999999999999999999999>\n";
    assert!(matches!(
        parse_merch_doc(text.as_bytes()),
        Err(ParseError::MalformedInstruction(_))
    ));
}
