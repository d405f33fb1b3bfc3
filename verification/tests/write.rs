use std::path::{Path, PathBuf};

use kladde::frontmatter;
use kladde::structure::{Indent, Placement};
use kladde::frontmatter::{Stamp, Value};
use kladde::write::{appended_note, lock_dir, lock_name, temp_name};

/// An absolute path on this platform.
fn abs(value: &str) -> PathBuf {
    PathBuf::from(value)
}

#[test]
fn lock_dir_prefers_xdg_state_home() {
    assert_eq!(
        lock_dir(Some(abs("/xdg")), Some(abs("/home/me"))),
        Some(abs("/xdg/kladde/locks"))
    );
}

#[test]
fn lock_dir_treats_relative_bases_as_unset() {
    assert_eq!(
        lock_dir(Some(PathBuf::new()), Some(abs("/home/me"))),
        Some(abs("/home/me/.local/state/kladde/locks"))
    );
    assert_eq!(
        lock_dir(Some(PathBuf::from("relative")), Some(abs("/home/me"))),
        Some(abs("/home/me/.local/state/kladde/locks"))
    );
}

#[test]
fn lock_dir_falls_back_to_home() {
    assert_eq!(
        lock_dir(None, Some(abs("/home/me"))),
        Some(abs("/home/me/.local/state/kladde/locks"))
    );
}

#[test]
fn lock_dir_needs_an_absolute_base() {
    assert_eq!(lock_dir(None, None), None);
    assert_eq!(lock_dir(None, Some(PathBuf::from("relative"))), None);
}

/// Pins the hash so a change to the function surfaces here: two kladde
/// versions hashing differently would lock different files.
#[test]
fn lock_name_is_stable() {
    assert_eq!(lock_name(Path::new("kladde")), "92d4ee658d96b024.lock");
}

#[test]
fn lock_name_distinguishes_paths() {
    assert_ne!(lock_name(Path::new("a.md")), lock_name(Path::new("b.md")));
}

/// Pins the temporary name too: the integration suite cannot call
/// this function and hardcodes this hash for a note named `x.md`.
#[test]
fn temp_name_is_stable() {
    assert_eq!(temp_name(Path::new("x.md")), ".72d8d45320ac7f62.kladde-tmp");
}

#[test]
fn appended_note_writes_the_text_on_its_own_line() {
    assert_eq!(appended_note("", "- first", None).expect("append succeeds"), "- first\n");
    assert_eq!(appended_note("start\n", "- next", None).expect("append succeeds"), "start\n- next\n");
    assert_eq!(appended_note("start", "- next\r\n\n", None).expect("append succeeds"), "start\n- next\n");
}

#[test]
fn appended_note_refuses_empty_text() {
    let error = appended_note("x\n", "\n\r\n", None).expect_err("nothing to append");
    assert_eq!(error.message(), "nothing to append: the text is empty");
}

#[test]
fn appended_note_stamps_when_given_a_stamp() {
    let stamp = Stamp::new("created", "updated", "T").expect("stamp validates");
    assert_eq!(
        appended_note("", "- first", Some(&stamp)).expect("append succeeds"),
        "---\ncreated: T\nupdated: T\n---\n- first\n"
    );
}

#[test]
fn appending_keeps_the_frontmatter() {
    let note = "---\ntags: [a]\n---\nbody";
    let out = appended_note(note, "---\nx: y", None).expect("append succeeds");
    assert_eq!(out, "---\ntags: [a]\n---\nbody\n---\nx: y\n");
    assert_eq!(
        frontmatter::get(&out, "tags").expect("get succeeds"),
        Some(Value::List(vec!["a".to_owned()]))
    );
    assert_eq!(frontmatter::get(&out, "x").expect("get succeeds"), None);
    let closed_at_end = "---\nk: v\n---";
    let out = appended_note(closed_at_end, "- item", None).expect("append succeeds");
    assert_eq!(out, "---\nk: v\n---\n- item\n");
    assert_eq!(
        frontmatter::get(&out, "k").expect("get succeeds"),
        Some(Value::Scalar("v".to_owned()))
    );
}

#[test]
fn placed_note_lands_the_trimmed_text_where_the_placement_names() {
    let placement = Placement {
        headings: vec!["Log".to_owned()],
        bullets: vec![],
        indent: Indent::Tab,
    };
    let note = "# Log\n- a\n\n# Other\n";
    let out = kladde::write::placed_note(note, "- b\n\n", &placement).expect("placement lands");
    assert_eq!(out, "# Log\n- a\n- b\n\n# Other\n");
    assert_eq!(
        kladde::write::placed_note(note, "\r\n", &placement).expect_err("empty text fails"),
        "nothing to append: the text is empty"
    );
    let plain = Placement { headings: vec![], bullets: vec![], indent: Indent::Tab };
    assert_eq!(kladde::write::placed_note("x", "- y\n", &plain).expect("append lands"), "x\n- y\n");
}
