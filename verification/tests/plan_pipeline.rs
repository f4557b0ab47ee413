use merch::{plan, Action, ParseError};

fn b(s: &str) -> Vec<u8> {
    s.as_bytes().to_vec()
}

#[test]
fn plan_parses_and_plans_in_one_step() {
    let text = "\
// merch::setup: </base>
// merch::existing-file: <a.txt> <0> <stalehash>
// merch::existing-file: <b.txt> <1> <stalehash>
// merch::file: <renamed.txt> <0>
";
    let actions = plan(text.as_bytes()).unwrap();
    assert_eq!(
        actions,
        vec![
            Action::Delete(b("/base/b.txt")),
            Action::Rename(b("/base/a.txt"), b("/base/renamed.txt")),
        ]
    );
}

#[test]
fn plan_propagates_parse_errors() {
    assert_eq!(plan(b"no instructions here\n"), Err(ParseError::MissingSetup));
}

#[test]
fn absolute_paths_stand_alone() {
    let text = "\
// merch::setup: </base>
// merch::existing-file: </abs/a.txt> <0> <h>
";
    let actions = plan(text.as_bytes()).unwrap();
    assert_eq!(actions, vec![Action::Delete(b("/abs/a.txt"))]);
}

#[test]
fn base_with_trailing_slash_adds_no_second_separator() {
    let text = "\
// merch::setup: </base/>
// merch::existing-file: <a.txt> <0> <h>
";
    let actions = plan(text.as_bytes()).unwrap();
    assert_eq!(actions, vec![Action::Delete(b("/base/a.txt"))]);
}
