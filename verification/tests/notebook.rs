use std::path::PathBuf;

use kladde::notebook::{
    hidden, landing, reserved_name, resolution_start, resolution_step, target_parts,
    temp_suffixed, visit, Action, Landing, NotePath, Notebook, Resolution, Visit,
};

fn notes(paths: &[&str]) -> Vec<PathBuf> {
    paths.iter().map(PathBuf::from).collect()
}

#[test]
fn reserved_name_folds_case() {
    assert!(reserved_name(".kladde.toml"));
    assert!(reserved_name(".KLADDE.TOML"));
    assert!(!reserved_name("kladde.toml"));
    assert!(!reserved_name("note.md"));
}

#[test]
fn temp_suffixed_lowercases_the_name() {
    assert!(temp_suffixed(".abc.kladde-tmp"));
    assert!(temp_suffixed("NOTE.KLADDE-TMP"));
    assert!(!temp_suffixed("note.md"));
    assert!(!temp_suffixed("kladde-tmp"));
}

#[test]
fn target_parts_drops_current_components() {
    let names = target_parts(&PathBuf::from("./daily/./x.md")).expect("target is relative");
    assert_eq!(names, vec!["daily".to_owned(), "x.md".to_owned()]);
}

#[test]
fn target_parts_refuses_rooted_escaping_and_empty_targets() {
    let error = target_parts(&PathBuf::from("/x.md")).expect_err("rooted fails");
    assert_eq!(
        error.message(),
        "note targets are relative paths inside the notebook, got \"/x.md\""
    );
    let error = target_parts(&PathBuf::from("a/../x.md")).expect_err("parent fails");
    assert_eq!(
        error.message(),
        "note targets cannot leave the notebook, got \"a/../x.md\""
    );
    let error = target_parts(&PathBuf::from(".")).expect_err("empty fails");
    assert_eq!(error.message(), "note target is empty");
}

#[test]
fn find_resolves_a_unique_name_case_insensitively() {
    let notebook = Notebook::at(PathBuf::from("/nb"));
    let list = notes(&["a/Foo.md", "b/bar.md"]);
    let found = notebook.find("foo", &list).expect("one note matches");
    assert_eq!(found.relative(), &PathBuf::from("a/Foo.md"));
    assert_eq!(found.as_path(), &PathBuf::from("/nb/a/Foo.md"));
    assert_eq!(found.root(), &PathBuf::from("/nb"));
    let found = notebook.find("BAR.md", &list).expect("the suffix is dropped");
    assert_eq!(found.relative(), &PathBuf::from("b/bar.md"));
}

#[test]
fn find_keeps_an_uppercase_suffix() {
    let notebook = Notebook::at(PathBuf::from("/nb"));
    let error = notebook
        .find("foo.MD", &notes(&["foo.md"]))
        .expect_err("uppercase suffix is part of the name");
    assert_eq!(error.message(), "no note named \"foo.MD\"");
}

#[test]
fn find_reports_empty_missing_and_ambiguous_names() {
    let notebook = Notebook::at(PathBuf::from("/nb"));
    let list = notes(&["a/x.md", "b/X.md"]);
    assert_eq!(notebook.find(".md", &list).expect_err("empty").message(), "note target is empty");
    assert_eq!(notebook.find("y", &list).expect_err("missing").message(), "no note named \"y\"");
    assert_eq!(
        notebook.find("x", &list).expect_err("ambiguous").message(),
        "multiple notes named \"x\": a/x.md, b/X.md"
    );
}

#[test]
fn config_file_sits_at_the_root() {
    let notebook = Notebook::at(PathBuf::from("/nb"));
    assert_eq!(notebook.root(), &PathBuf::from("/nb"));
    assert_eq!(notebook.config_file(), PathBuf::from("/nb/.kladde.toml"));
}

#[test]
fn note_paths_know_their_place() {
    let note = NotePath::inside(PathBuf::from("/nb/d/x.md"), PathBuf::from("/nb")).expect("inside");
    assert_eq!(note.relative(), &PathBuf::from("d/x.md"));
    assert!(NotePath::inside(PathBuf::from("/elsewhere/x.md"), PathBuf::from("/nb")).is_none());
    let notebook = Notebook::at(PathBuf::from("/nb"));
    assert!(notebook.reserved(&PathBuf::from("/nb/.KLADDE.toml/x.md")));
    assert!(!notebook.reserved(&PathBuf::from("/nb/d/.kladde.toml")));
    assert!(Notebook::temp_named(&PathBuf::from("/nb/x.kladde-tmp")));
    assert_eq!(
        Notebook::spelled(&vec![".kladde.toml".to_owned(), "a.kladde-tmp".to_owned()]),
        (true, true)
    );
}

#[test]
fn printable_refuses_a_name_holding_a_line_break() {
    assert!(kladde::notebook::printable(std::path::Path::new("daily/x.md")).is_ok());
    assert_eq!(
        kladde::notebook::printable(std::path::Path::new("a\nb.md")).expect_err("line feed fails"),
        "note name \"a\\nb.md\" contains a line break"
    );
    assert!(kladde::notebook::printable(std::path::Path::new("a\rb.md")).is_err());
}

#[test]
fn title_is_the_file_name_without_its_extension() {
    let note = NotePath::inside(PathBuf::from("/nb/daily/2026-01-02.md"), PathBuf::from("/nb"))
        .expect("note lies inside");
    assert_eq!(kladde::notebook::title(&note), "2026-01-02");
}

#[test]
fn folded_starts_with_matches_components_with_case_folded() {
    let path = PathBuf::from("Archive/2026/x.md");
    assert!(kladde::notebook::folded_starts_with(&path, &PathBuf::from("archive")));
    assert!(kladde::notebook::folded_starts_with(&path, &PathBuf::from("ARCHIVE/2026")));
    assert!(!kladde::notebook::folded_starts_with(&path, &PathBuf::from("arch")));
    assert!(!kladde::notebook::folded_starts_with(
        &PathBuf::from("archive"),
        &PathBuf::from("archive/2026")
    ));
}

#[test]
fn excluded_matches_the_spelling_or_what_the_entry_resolves_to() {
    let relative = PathBuf::from("real/x.md");
    assert!(kladde::notebook::excluded(&relative, &PathBuf::from("REAL"), &None));
    assert!(!kladde::notebook::excluded(&relative, &PathBuf::from("link"), &None));
    assert!(kladde::notebook::excluded(
        &relative,
        &PathBuf::from("link"),
        &Some(PathBuf::from("real"))
    ));
}

#[test]
fn search_folds_case_on_both_sides() {
    let needle = kladde::notebook::search_needle("STRASSE").expect("query is not empty");
    assert!(kladde::notebook::mentions("die Stra\u{00df}e entlang", &needle));
    assert!(!kladde::notebook::mentions("the road", &needle));
    assert_eq!(
        kladde::notebook::search_needle("").expect_err("empty query fails"),
        "nothing to search for: the query is empty"
    );
}

#[test]
fn listing_walks_folders_and_keeps_markdown_files() {
    assert!(hidden(".git"));
    assert!(!hidden("notes"));
    assert_eq!(visit(&PathBuf::from("a/sub"), true, false), Visit::Descend);
    assert_eq!(visit(&PathBuf::from("a/x.md"), false, true), Visit::Note);
    assert_eq!(visit(&PathBuf::from("a/x.txt"), false, true), Visit::Skip);
    assert_eq!(visit(&PathBuf::from("a/link.md"), false, false), Visit::Skip);
}

#[test]
fn resolution_probes_until_the_first_missing_name() {
    let (state, action) = resolution_start(3);
    assert_eq!(state, Resolution { existing: 0, deferred: 0 });
    assert_eq!(action, Action::Probe(0));
    let (state, action) = resolution_step(state, 3, true);
    assert_eq!(state, Resolution { existing: 1, deferred: 0 });
    assert_eq!(action, Action::Probe(1));
    let (state, action) = resolution_step(state, 3, false);
    assert_eq!(state, Resolution { existing: 1, deferred: 2 });
    assert_eq!(action, Action::Resolve);
    let (after, action) = resolution_step(state, 3, true);
    assert_eq!(after, state);
    assert_eq!(action, Action::Resolve);
}

#[test]
fn resolution_of_a_fully_existing_target_resolves_after_the_last_name() {
    let (state, action) = resolution_start(1);
    assert_eq!(action, Action::Probe(0));
    let (state, action) = resolution_step(state, 1, true);
    assert_eq!(state, Resolution { existing: 1, deferred: 0 });
    assert_eq!(action, Action::Resolve);
    let (_, action) = resolution_start(0);
    assert_eq!(action, Action::Resolve);
}

#[test]
fn landing_judges_containment_then_the_ancestor() {
    assert_eq!(landing(false, true, true, false), Landing::Escape);
    assert_eq!(landing(true, true, true, false), Landing::Existing);
    assert_eq!(landing(true, true, false, true), Landing::NotAFile);
    assert_eq!(landing(true, false, false, true), Landing::Below);
    assert_eq!(landing(true, false, true, false), Landing::NotADirectory);
}
