use merch::{build_actions, Action, ExistingFileInfo, ParsedMerchDoc, UpdatedFileInfo};
use std::collections::HashMap;

fn existing(idx: usize, path: &str, hash: &str) -> ExistingFileInfo {
    ExistingFileInfo { idx, path: path.as_bytes().to_vec(), hash: hash.as_bytes().to_vec() }
}

fn updated(idx: usize, new_path: &str, content: Option<&str>) -> UpdatedFileInfo {
    UpdatedFileInfo {
        idx,
        new_path: new_path.as_bytes().to_vec(),
        content: content.map(|c| c.as_bytes().to_vec()),
    }
}

fn doc(
    base: &str,
    existing_files: Vec<ExistingFileInfo>,
    updated_files: Vec<UpdatedFileInfo>,
) -> ParsedMerchDoc {
    ParsedMerchDoc { base_path: base.as_bytes().to_vec(), existing_files, updated_files }
}

fn b(s: &str) -> Vec<u8> {
    s.as_bytes().to_vec()
}

/// Applies actions in order to a simulated filesystem, failing on any
/// rename that would clobber a live path, any rename or delete of a
/// missing path, and any rename to an occupied path.
fn apply(
    mut fs: HashMap<Vec<u8>, Vec<u8>>,
    actions: &[Action],
) -> HashMap<Vec<u8>, Vec<u8>> {
    for a in actions {
        match a {
            Action::Write(path, content) => {
                fs.insert(path.clone(), content.clone());
            }
            Action::Rename(from, to) => {
                assert!(fs.contains_key(from), "rename source missing");
                assert!(!fs.contains_key(to), "rename would overwrite a live path");
                let v = fs.remove(from).unwrap();
                fs.insert(to.clone(), v);
            }
            Action::Delete(path) => {
                assert!(fs.contains_key(path), "delete of a missing path");
                fs.remove(path);
            }
        }
    }
    fs
}

#[test]
fn simple_rename() {
    let d = doc(
        "/base",
        vec![existing(1, "a.txt", "h1")],
        vec![updated(1, "b.txt", None)],
    );
    let plan = build_actions(d);
    assert_eq!(plan, vec![Action::Rename(b("/base/a.txt"), b("/base/b.txt"))]);
}

#[test]
fn two_cycle_rename() {
    let d = doc(
        "/base",
        vec![existing(1, "a.txt", "h1"), existing(2, "b.txt", "h2")],
        vec![updated(1, "b.txt", None), updated(2, "a.txt", None)],
    );
    let plan = build_actions(d);
    assert_eq!(
        plan,
        vec![
            Action::Rename(b("/base/b.txt"), b("/base/a.txt_temp")),
            Action::Rename(b("/base/a.txt"), b("/base/b.txt")),
            Action::Rename(b("/base/a.txt_temp"), b("/base/a.txt")),
        ]
    );
    // exactly one synthesized temporary path
    let temps: Vec<_> = plan
        .iter()
        .filter_map(|a| match a {
            Action::Rename(_, to) if to.ends_with(b"_temp") => Some(to.clone()),
            _ => None,
        })
        .collect();
    assert_eq!(temps.len(), 1);
    // applying the renames swaps the contents without ever overwriting
    let mut fs = HashMap::new();
    fs.insert(b("/base/a.txt"), b("A"));
    fs.insert(b("/base/b.txt"), b("B"));
    let fs = apply(fs, &plan);
    assert_eq!(fs.len(), 2);
    assert_eq!(fs[&b("/base/a.txt")], b("B"));
    assert_eq!(fs[&b("/base/b.txt")], b("A"));
}

#[test]
fn chain_rename() {
    let d = doc(
        "/base",
        vec![
            existing(1, "a", "h1"),
            existing(2, "b", "h2"),
            existing(3, "c", "h3"),
        ],
        vec![updated(1, "b", None), updated(2, "c", None), updated(3, "d", None)],
    );
    let plan = build_actions(d);
    assert_eq!(
        plan,
        vec![
            Action::Rename(b("/base/c"), b("/base/d")),
            Action::Rename(b("/base/b"), b("/base/c")),
            Action::Rename(b("/base/a"), b("/base/b")),
        ]
    );
    let mut fs = HashMap::new();
    fs.insert(b("/base/a"), b("A"));
    fs.insert(b("/base/b"), b("B"));
    fs.insert(b("/base/c"), b("C"));
    let fs = apply(fs, &plan);
    assert_eq!(fs.len(), 3);
    assert_eq!(fs[&b("/base/b")], b("A"));
    assert_eq!(fs[&b("/base/c")], b("B"));
    assert_eq!(fs[&b("/base/d")], b("C"));
}

#[test]
fn deletion() {
    let d = doc("/base", vec![existing(3, "gone.txt", "h3")], vec![]);
    let plan = build_actions(d);
    assert_eq!(plan, vec![Action::Delete(b("/base/gone.txt"))]);
}

#[test]
fn content_change_yields_write() {
    // the stored fingerprint cannot match the re-embedded content
    let d = doc(
        "/base",
        vec![existing(0, "a.txt", "not-a-real-fingerprint")],
        vec![updated(0, "a.txt", Some("new content"))],
    );
    let plan = build_actions(d);
    assert_eq!(plan, vec![Action::Write(b("/base/a.txt"), b("new content"))]);
}

#[test]
fn write_precedes_rename_of_same_file() {
    let d = doc(
        "/base",
        vec![existing(0, "a.txt", "not-a-real-fingerprint")],
        vec![updated(0, "b.txt", Some("new content"))],
    );
    let plan = build_actions(d);
    assert_eq!(
        plan,
        vec![
            Action::Write(b("/base/a.txt"), b("new content")),
            Action::Rename(b("/base/a.txt"), b("/base/b.txt")),
        ]
    );
}

#[test]
fn without_content_never_writes() {
    // content elided: even a bogus stored fingerprint yields no write
    let d = doc(
        "/base",
        vec![existing(0, "a.txt", "bogus")],
        vec![updated(0, "a.txt", None)],
    );
    let plan = build_actions(d);
    assert_eq!(plan, vec![]);
}

#[test]
fn unmatched_updated_record_is_ignored() {
    let d = doc(
        "/base",
        vec![existing(0, "a.txt", "h")],
        vec![updated(0, "a.txt", None), updated(7, "new.txt", Some("body"))],
    );
    let plan = build_actions(d);
    assert_eq!(plan, vec![]);
}

#[test]
fn unchanged_content_yields_no_write() {
    let content = "same old content";
    let hash = merch::compute_hash(content.as_bytes());
    let d = ParsedMerchDoc {
        base_path: b("/base"),
        existing_files: vec![ExistingFileInfo { idx: 0, path: b("a.txt"), hash }],
        updated_files: vec![updated(0, "a.txt", Some(content))],
    };
    let plan = build_actions(d);
    assert_eq!(plan, vec![]);
}
