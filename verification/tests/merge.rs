use merch::{build_actions, compute_hash, merge_files, parse_merch_doc, Action, LineFormatter};

fn b(s: &str) -> Vec<u8> {
    s.as_bytes().to_vec()
}

fn slashes() -> LineFormatter {
    LineFormatter { prefix: b("// "), suffix: b("") }
}

#[test]
fn merged_document_has_the_expected_text() {
    let entries = vec![(b("a.txt"), b("hello\n"))];
    let mut out = Vec::new();
    merge_files(&entries, &mut out, &slashes(), &b("/base"), false);
    let hash = String::from_utf8(compute_hash(b"hello\n")).unwrap();
    let expected = format!(
        "// ====================\n\
         // merch::setup: </base>\n\
         // merch::existing-file: <a.txt> <0> <{hash}>\n\
         // ====================\n\
         \n\
         // merch::file: <a.txt> <0>:\n\
         hello\n\
         \n"
    );
    assert_eq!(String::from_utf8(out).unwrap(), expected);
}

#[test]
fn without_content_elides_bodies_and_colons() {
    let entries = vec![(b("a.txt"), b("hello\n"))];
    let mut out = Vec::new();
    merge_files(&entries, &mut out, &slashes(), &b("/base"), true);
    let text = String::from_utf8(out).unwrap();
    assert!(text.contains("// merch::file: <a.txt> <0>\n"));
    assert!(!text.contains("<0>:"));
    assert!(!text.contains("hello"));
}

#[test]
fn round_trip_of_untouched_files_plans_nothing() {
    let entries = vec![
        (b("a.txt"), b("alpha\n")),
        (b("sub/b.txt"), b("beta\nlines\n")),
        (b("empty.txt"), b("")),
    ];
    let mut out = Vec::new();
    merge_files(&entries, &mut out, &slashes(), &b("/base"), false);
    let doc = parse_merch_doc(&out).unwrap();
    assert_eq!(doc.base_path, b("/base"));
    assert_eq!(doc.existing_files.len(), 3);
    assert_eq!(doc.updated_files.len(), 3);
    let plan = build_actions(doc);
    assert_eq!(plan, vec![]);
}

#[test]
fn round_trip_without_content_plans_nothing() {
    let entries = vec![(b("a.txt"), b("alpha\n")), (b("b.txt"), b("beta\n"))];
    let mut out = Vec::new();
    merge_files(&entries, &mut out, &slashes(), &b("/base"), true);
    let doc = parse_merch_doc(&out).unwrap();
    let plan = build_actions(doc);
    assert_eq!(plan, vec![]);
}

#[test]
fn round_trip_with_edited_content_plans_one_write() {
    let entries = vec![(b("a.txt"), b("old content\n"))];
    let mut out = Vec::new();
    merge_files(&entries, &mut out, &slashes(), &b("/base"), false);
    let text = String::from_utf8(out).unwrap().replace("old content", "new content");
    let doc = parse_merch_doc(text.as_bytes()).unwrap();
    let plan = build_actions(doc);
    assert_eq!(plan, vec![Action::Write(b("/base/a.txt"), b("new content\n"))]);
}

#[test]
fn round_trip_with_html_comment_style() {
    let entries = vec![(b("a.txt"), b("alpha\n"))];
    let fmt = LineFormatter { prefix: b("<!-- "), suffix: b(" -->") };
    let mut out = Vec::new();
    merge_files(&entries, &mut out, &fmt, &b("/base"), false);
    let doc = parse_merch_doc(&out).unwrap();
    assert_eq!(doc.updated_files[0].content, Some(b("alpha\n")));
    let plan = build_actions(doc);
    assert_eq!(plan, vec![]);
}

#[test]
fn writeln_wraps_a_line() {
    let fmt = LineFormatter { prefix: b("# "), suffix: b(" !") };
    let mut out = Vec::new();
    fmt.writeln(&mut out, b"text");
    assert_eq!(out, b("# text !\n"));
}

#[test]
fn two_digit_indices_render_in_decimal() {
    let entries: Vec<(Vec<u8>, Vec<u8>)> =
        (0..12).map(|i| (b(&format!("f{i}.txt")), b("x"))).collect();
    let mut out = Vec::new();
    merge_files(&entries, &mut out, &slashes(), &b("/base"), true);
    let text = String::from_utf8(out).unwrap();
    assert!(text.contains("// merch::file: <f11.txt> <11>\n"));
}
