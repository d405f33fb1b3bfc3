use kladde::editor::{invocation, NO_EDITOR};

#[test]
fn open_requires_a_command() {
    assert_eq!(invocation(None).expect_err("no editor fails"), NO_EDITOR);
    assert_eq!(invocation(Some(" \t")).expect_err("blank editor fails"), NO_EDITOR);
}

#[test]
fn open_treats_an_empty_program_as_no_editor() {
    assert_eq!(invocation(Some("'' --wait")).expect_err("empty program fails"), NO_EDITOR);
}

#[test]
fn open_reports_an_unparsable_command() {
    assert_eq!(
        invocation(Some("'unclosed")).expect_err("unclosed quote fails"),
        "cannot parse editor command: missing closing quote"
    );
}

#[test]
fn invocation_splits_the_program_from_its_arguments() {
    assert_eq!(
        invocation(Some("'/opt/my editor/ed' -w --new")).expect("command parses"),
        ("/opt/my editor/ed".to_owned(), vec!["-w".to_owned(), "--new".to_owned()])
    );
    assert_eq!(
        invocation(Some(r#""C:\Program Files\Sublime Text\subl.exe" -w"#)).expect("command parses"),
        (r"C:\Program Files\Sublime Text\subl.exe".to_owned(), vec!["-w".to_owned()])
    );
    assert_eq!(invocation(Some("vim")).expect("command parses"), ("vim".to_owned(), vec![]));
}
