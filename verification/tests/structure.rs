use std::ops::Range;

use kladde::structure::locate::closed_fence;
use kladde::structure::markdown::events_of;
use kladde::structure::outline::{outline, Contained, Heading, Outline};
use kladde::structure::{
    inserted, inserted_with, removed, removed_with, toggled, toggled_with, Indent, Placement,
};
use kladde::structure::markdown::MdEvent;

fn outline_of(text: &str) -> Outline {
    let chars: Vec<char> = text.chars().collect();
    let events = events_of(&chars);
    outline(&chars, &events)
}

fn quotes_of(text: &str) -> Vec<Range<usize>> {
    outline_of(text)
        .quotes
        .iter()
        .map(|quote| quote.start..quote.end)
        .collect()
}

fn span_of(heading: &Heading) -> Range<usize> {
    heading.start..heading.end
}


fn placed(headings: &[&str], bullets: &[&str]) -> Placement {
    Placement {
        headings: headings.iter().map(|&query| query.to_owned()).collect(),
        bullets: bullets.iter().map(|&query| query.to_owned()).collect(),
        indent: Indent::Tab,
    }
}

fn spaced(headings: &[&str], bullets: &[&str]) -> Placement {
    Placement {
        indent: Indent::Spaces,
        ..placed(headings, bullets)
    }
}

/// The parser reads bare carriage returns inconsistently — fence
/// scanning runs through them while other blocks break at them — so
/// no placement into such a note can be trusted, and every one is
/// refused. An entry's own bare returns are still normalized: they
/// never reach the note.
#[test]
fn inserted_refuses_bare_carriage_returns() {
    let cases = [
        ("# A\rbody\r", placed(&["A"], &[])),
        ("- p\r  - c\r", placed(&[], &["p"])),
        ("# A\r\nbody\r", placed(&["A"], &[])),
        ("# A\n```\r#\r`", placed(&["A"], &[])),
    ];
    for (text, placement) in cases {
        let error = inserted(text, "- e", &placement).expect_err("bare CR refuses");
        assert_eq!(
            error.message(),
            "the note uses bare carriage-return line endings",
            "for {text:?}"
        );
    }
    let entry = inserted("- a\n", "- e\rmore", &placed(&[], &["a"])).expect("insert succeeds");
    assert_eq!(entry, "- a\n\t- e\n\tmore\n");
}

/// The one fence in `text`'s outline, as its span and container
/// content column.
fn fence_of(text: &str) -> (Range<usize>, usize) {
    let outline = outline_of(text);
    assert_eq!(outline.fenced.len(), 1, "for {text:?}");
    let fence = &outline.fenced[0];
    (fence.start..fence.end, fence.container)
}

/// See [`outline_pins_heading_spans`]; a CLOSED fence's span drops
/// the newline after its closing line, so an insertion offset can
/// only reach a closed span's end when the note cut that newline
/// off — every other in-span offset means the fence is open. An
/// over-indented fence line is code, not a closer, and the block
/// runs on.
#[test]
fn outline_pins_fenced_spans() {
    assert_eq!(fence_of("```\ncode\n```\npara\n"), (0..12, 0));
    assert_eq!(fence_of("~~~\ncode\n"), (0..9, 0));
    assert_eq!(fence_of("```\n"), (0..4, 0));
    assert_eq!(fence_of("```rust\ncode\n```"), (0..16, 0));
    assert_eq!(fence_of("- p\n  ```\n  code\n"), (6..17, 2));
    assert_eq!(fence_of("~~~\ncode\n    ~~~\npara\n"), (0..22, 0));
    assert_eq!(fence_of("-\n  ```\n  code\n"), (4..15, 2));
}

#[test]
fn closed_fence_reads_closing_lines() {
    let cases = [
        ("```\ncode\n```", 0, true),
        ("```rust\ncode\n  ```  ", 0, true),
        ("~~~\ncode\n~~~~", 0, true),
        ("```", 0, false),
        ("```\ncode", 0, false),
        ("````\ncode\n```", 0, false),
        ("~~~\ncode\n```", 0, false),
        ("~~~\ncode\n    ~~~", 0, false),
        ("```\ncode\n     ```", 2, true),
        ("```\ncode\n     ```", 1, false),
        ("```\ncode\n``` ", 0, true),
        ("```\ncode\n```\t", 0, false),
    ];
    for (source, container, closed) in cases {
        let chars: Vec<char> = source.chars().collect();
        let fence = Contained {
            start: 0,
            end: chars.len(),
            container,
        };
        assert_eq!(closed_fence(&chars, fence), closed, "for {source:?}");
    }
}

/// See [`outline_pins_heading_spans`]; a quote's span excludes its
/// terminating blank like raw HTML's, and lazy continuation lines
/// belong to the quote.
#[test]
fn outline_pins_quote_spans() {
    assert_eq!(quotes_of("> a\n\npara\n"), vec![0..4]);
    assert_eq!(quotes_of("# A\n> quoted\nplain\n# B\n"), vec![4..19]);
    assert_eq!(quotes_of("- p\n  > q\n- q2\n"), vec![6..10]);
    assert_eq!(quotes_of("> > a\n"), vec![0..6]);
}

/// A plain entry directly after a quotation would read as its lazy
/// continuation, so the quote is terminated first: the entry lands
/// past an existing terminating blank, or a blank is written.
#[test]
fn inserted_stays_out_of_quotations() {
    let text = "# A\n> quoted\n# B\n";
    let new = inserted(text, "plain", &placed(&["A"], &[])).expect("insert succeeds");
    assert_eq!(new, "# A\n> quoted\n\nplain\n# B\n");
    let blanked = "# A\n> quoted\n\n# B\n";
    let new = inserted(blanked, "plain", &placed(&["A"], &[])).expect("insert succeeds");
    assert_eq!(new, "# A\n> quoted\n\nplain\n# B\n");
    let lazy = "# A\n> quoted\nplain\n# B\n";
    let new = inserted(lazy, "- e", &placed(&["A"], &[])).expect("insert succeeds");
    assert_eq!(new, "# A\n> quoted\nplain\n\n- e\n# B\n");
    let item = "- p\n  > q\n- q2\n";
    let new = inserted(item, "- e", &placed(&[], &["p"])).expect("insert succeeds");
    assert_eq!(new, "- p\n  > q\n\n\t- e\n- q2\n");
    let cut = "# A\n> q";
    let new = inserted(cut, "plain", &placed(&["A"], &[])).expect("insert succeeds");
    assert_eq!(new, "# A\n> q\n\nplain\n");
    let behind = "# A\n> early\n\nlate\n# B\n";
    let new = inserted(behind, "- e", &placed(&["A"], &[])).expect("insert succeeds");
    assert_eq!(new, "# A\n> early\n\nlate\n- e\n# B\n");
}

/// The one HTML span in `text`'s outline, with its container column.
fn html_span(text: &str) -> (Range<usize>, usize) {
    let outline = outline_of(text);
    assert_eq!(outline.html.len(), 1, "for {text:?}");
    let block = &outline.html[0];
    (block.start..block.end, block.container)
}

/// See [`outline_pins_heading_spans`]; a raw HTML block's span
/// EXCLUDES the blank line that terminates it (even a padded one),
/// and a block cut off by the end of the note runs to the end.
#[test]
fn outline_pins_html_spans() {
    assert_eq!(html_span("<div>\nraw\n\npara\n"), (0..10, 0));
    assert_eq!(html_span("<div>\nraw\n \t\npara\n"), (0..10, 0));
    assert_eq!(html_span("<div>\nraw"), (0..9, 0));
    assert_eq!(html_span("- p\n  <div>\n  raw\n\n- q\n"), (6..18, 2));
    assert_eq!(html_span("<script>\na\n</script>\npara\n"), (0..21, 0));
}

#[test]
fn indent_spells_both_units() {
    assert_eq!(Indent::Tab.as_str(), "tab");
    assert_eq!(Indent::Spaces.as_str(), "spaces");
}

#[test]
fn indent_defaults_to_tab() {
    assert_eq!(Indent::default(), Indent::Tab);
}

/// The empty placement is the plain append: verbatim entry, very end
/// of the note, one terminating newline, a separating one only when
/// the note lacks it — the bytes [`crate::write`] always wrote.
#[test]
fn inserted_with_an_empty_placement_appends_at_the_end() {
    let cases = [
        ("", "- e", "- e\n"),
        ("x\n", "- e", "x\n- e\n"),
        ("x", "- e", "x\n- e\n"),
        ("x\n\n\n", "- e", "x\n\n\n- e\n"),
        ("# A\r\nx\r\n", "- e", "# A\r\nx\r\n- e\n"),
        ("x\n", "- e\nmore", "x\n- e\nmore\n"),
    ];
    for (text, entry, expected) in cases {
        let new = inserted(text, entry, &Placement::default()).expect("append succeeds");
        assert_eq!(new, expected, "for {text:?}");
    }
}

/// Pins the span shapes pulldown-cmark reports, the measured truth
/// the module is built on: block spans include their terminators, an
/// indented heading's span starts at its marker rather than its
/// line, and a tab-nested item's span reaches back to the terminator
/// before its indent. An upgrade that moves any edge surfaces here.
#[test]
fn outline_pins_heading_spans() {
    let atx = outline_of("# A\nbody\n");
    assert_eq!(span_of(&atx.headings[0]), 0..4);
    assert_eq!(atx.headings[0].level, 1);
    let indented = outline_of("  ## A\nbody\n");
    assert_eq!(span_of(&indented.headings[0]), 2..7);
    assert_eq!(indented.headings[0].level, 2);
    let setext = outline_of("Title\n=====\nbody\n");
    assert_eq!(span_of(&setext.headings[0]), 0..12);
    assert_eq!(setext.headings[0].level, 1);
    let dashes = outline_of("a\nb\n---\nbody\n");
    assert_eq!(span_of(&dashes.headings[0]), 0..8);
    assert_eq!(dashes.headings[0].level, 2);
    let unterminated = outline_of("# A");
    assert_eq!(span_of(&unterminated.headings[0]), 0..3);
    let crlf = outline_of("# A\r\nbody\r\n");
    assert_eq!(span_of(&crlf.headings[0]), 0..5);
}

/// See [`outline_pins_heading_spans`]; the loose item's span keeps
/// its trailing blank line, which insertion must not land after.
#[test]
fn outline_pins_item_spans() {
    let nested = outline_of("- a\n  - b\n- c\n");
    let spans: Vec<_> = nested
        .bullets
        .iter()
        .map(|bullet| bullet.start..bullet.end)
        .collect();
    assert_eq!(spans, [0..10, 6..10, 10..14]);
    let tabbed = outline_of("- a\n\t- b\n");
    let spans: Vec<_> = tabbed
        .bullets
        .iter()
        .map(|bullet| bullet.start..bullet.end)
        .collect();
    assert_eq!(spans, [0..9, 3..9]);
    let loose = outline_of("- a\n\n- b\n\npara\n");
    let spans: Vec<_> = loose
        .bullets
        .iter()
        .map(|bullet| bullet.start..bullet.end)
        .collect();
    assert_eq!(spans, [0..5, 5..10]);
    let ordered = outline_of("1. a\n1) b\n");
    let spans: Vec<_> = ordered
        .bullets
        .iter()
        .map(|bullet| bullet.start..bullet.end)
        .collect();
    assert_eq!(spans, [0..5, 5..10]);
    let unterminated = outline_of("- a");
    assert_eq!(unterminated.bullets[0].start..unterminated.bullets[0].end, 0..3);
}

/// Fenced and indented code and quoted structure never reach the
/// outline, and a heading indented into a list item is item content.
#[test]
fn outline_skips_disguised_structure() {
    let cases = [
        ("```\n# fake\n- fake\n```\n", 0, 0),
        ("para\n\n    # fake\n", 0, 0),
        ("> # H\n> - x\n", 0, 0),
        ("- a\n  # inner\n- c\n", 0, 2),
    ];
    for (text, headings, bullets) in cases {
        let outline = outline_of(text);
        assert_eq!(outline.headings.len(), headings, "for {text:?}");
        assert_eq!(outline.bullets.len(), bullets, "for {text:?}");
    }
}

#[test]
fn inserted_lands_at_a_section_end() {
    let text = "# A\nalpha\n# B\nbeta\n";
    let new = inserted(text, "- e", &placed(&["A"], &[])).expect("insert succeeds");
    assert_eq!(new, "# A\nalpha\n- e\n# B\nbeta\n");
    let new = inserted(text, "- e", &placed(&["B"], &[])).expect("insert succeeds");
    assert_eq!(new, "# A\nalpha\n# B\nbeta\n- e\n");
}

#[test]
fn inserted_matches_a_prefix_case_sensitively() {
    let text = "# Decisions\nx\n";
    let new = inserted(text, "- e", &placed(&["Dec"], &[])).expect("insert succeeds");
    assert_eq!(new, "# Decisions\nx\n- e\n");
    let error = inserted(text, "- e", &placed(&["dec"], &[])).expect_err("miss fails");
    assert_eq!(error.message(), "no heading matching \"dec\"");
}

#[test]
fn inserted_descends_nested_headings() {
    let text = "# A\n## kladde\nx\n## other\ny\n# B\n## kladde\nz\n";
    let new = inserted(text, "- e", &placed(&["A", "kladde"], &[])).expect("insert succeeds");
    assert_eq!(
        new,
        "# A\n## kladde\nx\n- e\n## other\ny\n# B\n## kladde\nz\n"
    );
    let skipping = "# A\n### Deep\nx\n# B\n";
    let new = inserted(skipping, "- e", &placed(&["A", "Deep"], &[])).expect("insert succeeds");
    assert_eq!(new, "# A\n### Deep\nx\n- e\n# B\n");
}

#[test]
fn inserted_disambiguates_a_duplicate_by_path() {
    let text = "# A\n## Notes\nx\n# B\n## Notes\ny\n";
    let error = inserted(text, "- e", &placed(&["Notes"], &[])).expect_err("ambiguous fails");
    assert_eq!(error.message(), "multiple headings matching \"Notes\"");
    let new = inserted(text, "- e", &placed(&["B", "Notes"], &[])).expect("path succeeds");
    assert_eq!(new, "# A\n## Notes\nx\n# B\n## Notes\ny\n- e\n");
}

#[test]
fn inserted_reports_an_ambiguous_prefix() {
    let text = "# Alpha\n# Alp\n";
    let error = inserted(text, "- e", &placed(&["Alp"], &[])).expect_err("ambiguous fails");
    assert_eq!(error.message(), "multiple headings matching \"Alp\"");
}

#[test]
fn inserted_reads_every_heading_shape() {
    let setext = "Title\n=====\nx\n";
    let new = inserted(setext, "- e", &placed(&["Tit"], &[])).expect("insert succeeds");
    assert_eq!(new, "Title\n=====\nx\n- e\n");
    let closing = "## Foo ##\nx\n";
    let new = inserted(closing, "- e", &placed(&["Foo"], &[])).expect("insert succeeds");
    assert_eq!(new, "## Foo ##\nx\n- e\n");
    let hashes = "#hash\n===\nx\n";
    let new = inserted(hashes, "- e", &placed(&["#hash"], &[])).expect("insert succeeds");
    assert_eq!(new, "#hash\n===\nx\n- e\n");
    let seven = "####### Foo\n===\nx\n";
    let new = inserted(seven, "- e", &placed(&["####### Foo"], &[])).expect("insert succeeds");
    assert_eq!(new, "####### Foo\n===\nx\n- e\n");
    let error = inserted(seven, "- e", &placed(&["Foo"], &[])).expect_err("hashes are text");
    assert_eq!(error.message(), "no heading matching \"Foo\"");
    let indented = "  # A\nx\n# B\n";
    let new = inserted(indented, "- e", &placed(&["A"], &[])).expect("insert succeeds");
    assert_eq!(new, "  # A\nx\n- e\n# B\n");
    let empty = "#\nx\n";
    let error = inserted(empty, "- e", &placed(&["x"], &[])).expect_err("no text to match");
    assert_eq!(error.message(), "no heading matching \"x\"");
}

#[test]
fn inserted_keeps_trailing_blanks_after_the_entry() {
    let text = "# A\nx\n\n\n# B\n";
    let new = inserted(text, "- e", &placed(&["A"], &[])).expect("insert succeeds");
    assert_eq!(new, "# A\nx\n- e\n\n\n# B\n");
}

#[test]
fn inserted_fills_an_empty_section() {
    let empty = "# A\n# B\n";
    let new = inserted(empty, "- e", &placed(&["A"], &[])).expect("insert succeeds");
    assert_eq!(new, "# A\n- e\n# B\n");
    let blank = "# A\n\n# B\n";
    let new = inserted(blank, "- e", &placed(&["A"], &[])).expect("insert succeeds");
    assert_eq!(new, "# A\n- e\n\n# B\n");
}

#[test]
fn inserted_appends_at_an_unterminated_end() {
    let body = "# A\nbody";
    let new = inserted(body, "- e", &placed(&["A"], &[])).expect("insert succeeds");
    assert_eq!(new, "# A\nbody\n- e\n");
    let bare = "# A";
    let new = inserted(bare, "- e", &placed(&["A"], &[])).expect("insert succeeds");
    assert_eq!(new, "# A\n- e\n");
}

#[test]
fn inserted_treats_code_as_content_not_structure() {
    let text = "# A\n```\n# fake\n- fake\n```\n# B\n";
    let error = inserted(text, "- e", &placed(&["fake"], &[])).expect_err("fence hides it");
    assert_eq!(error.message(), "no heading matching \"fake\"");
    let error = inserted(text, "- e", &placed(&[], &["fake"])).expect_err("fence hides it");
    assert_eq!(error.message(), "no bullet matching \"fake\"");
    let new = inserted(text, "- e", &placed(&["A"], &[])).expect("insert succeeds");
    assert_eq!(new, "# A\n```\n# fake\n- fake\n```\n- e\n# B\n");
}

#[test]
fn inserted_validates_queries() {
    let cases = [
        (placed(&[""], &[]), "invalid heading \"\": it is empty"),
        (placed(&[], &[""]), "invalid bullet \"\": it is empty"),
        (
            placed(&["a\nb"], &[]),
            "invalid heading \"a\\nb\": it contains a line break",
        ),
        (
            placed(&[], &["a\rb"]),
            "invalid bullet \"a\\rb\": it contains a line break",
        ),
    ];
    for (placement, message) in cases {
        let error = inserted("# A\n", "- e", &placement).expect_err("invalid query fails");
        assert_eq!(error.message(), message);
    }
}

#[test]
fn inserted_nests_under_a_childless_bullet_with_a_tab() {
    let text = "- parent\n- other\n";
    let new = inserted(text, "- e", &placed(&[], &["parent"])).expect("insert succeeds");
    assert_eq!(new, "- parent\n\t- e\n- other\n");
}

#[test]
fn inserted_copies_an_existing_child_indent() {
    let text = "- parent\n  - child\n";
    let new = inserted(text, "- e", &placed(&[], &["parent"])).expect("insert succeeds");
    assert_eq!(new, "- parent\n  - child\n  - e\n");
    let tabbed = "- parent\n\t- child\n";
    let new = inserted(tabbed, "- e", &spaced(&[], &["parent"])).expect("insert succeeds");
    assert_eq!(new, "- parent\n\t- child\n\t- e\n");
}

#[test]
fn inserted_nests_with_spaces_to_the_content_column() {
    let cases = [
        ("- p\n", "p", "- p\n  - e\n"),
        ("1. p\n", "p", "1. p\n   - e\n"),
        ("10. p\n", "p", "10. p\n    - e\n"),
        ("  - p\n", "p", "  - p\n    - e\n"),
        ("- a\n\t- p\n", "p", "- a\n\t- p\n      - e\n"),
        ("-     p\n", "p", "-     p\n  - e\n"),
    ];
    for (text, query, expected) in cases {
        let new = inserted(text, "- e", &spaced(&[], &[query])).expect("insert succeeds");
        assert_eq!(new, expected, "for {text:?}");
    }
}

/// One tab is not always enough: the child must reach the parent's
/// content column, measured in tab-stop columns, or it silently
/// fails to parse as a child at all.
#[test]
fn inserted_reaches_a_wide_content_column_with_tabs() {
    let cases = [
        ("100. p\n", "100. p\n\t\t- e\n"),
        ("-    p\n", "-    p\n\t\t- e\n"),
        ("  - p\n", "  - p\n  \t- e\n"),
        ("-     p\n", "-     p\n\t- e\n"),
    ];
    for (text, expected) in cases {
        let new = inserted(text, "- e", &placed(&[], &["p"])).expect("insert succeeds");
        assert_eq!(new, expected, "for {text:?}");
    }
}

#[test]
fn inserted_lands_past_a_raw_html_terminator() {
    let text = "# A\n<div>\nraw\n\n# B\n";
    let new = inserted(text, "- e", &placed(&["A"], &[])).expect("insert succeeds");
    assert_eq!(new, "# A\n<div>\nraw\n\n- e\n# B\n");
    let item = "- p\n  <div>\n  raw\n\n- q\n";
    let new = inserted(item, "- e", &placed(&[], &["p"])).expect("insert succeeds");
    assert_eq!(new, "- p\n  <div>\n  raw\n\n\t- e\n- q\n");
    let passed = "# A\n<div>\nraw\n\npara\n# B\n";
    let new = inserted(passed, "- e", &placed(&["A"], &[])).expect("insert succeeds");
    assert_eq!(new, "# A\n<div>\nraw\n\npara\n- e\n# B\n");
    // A tag that merely starts like a raw-text element is not one:
    // it terminates at a blank like any other tag.
    let pretend = "# A\n<pretend>\nraw\n\n# B\n";
    let new = inserted(pretend, "- e", &placed(&["A"], &[])).expect("insert succeeds");
    assert_eq!(new, "# A\n<pretend>\nraw\n\n- e\n# B\n");
}

/// A block cut off by the end of the note has no terminating blank,
/// so one is written: without it the entry would continue the HTML.
#[test]
fn inserted_terminates_html_cut_by_the_notes_end() {
    let text = "# A\n<div>\nraw\n";
    let new = inserted(text, "- e", &placed(&["A"], &[])).expect("insert succeeds");
    assert_eq!(new, "# A\n<div>\nraw\n\n- e\n");
    let bare = "# A\n<div>\nraw";
    let new = inserted(bare, "- e", &placed(&["A"], &[])).expect("insert succeeds");
    assert_eq!(new, "# A\n<div>\nraw\n\n- e\n");
}

/// HTML that closed itself with a marker line is already over; the
/// entry lands right after it, and no blank is invented.
#[test]
fn inserted_leaves_self_closed_html_alone() {
    let text = "# A\n<script>\na\n</script>\n# B\n";
    let new = inserted(text, "- e", &placed(&["A"], &[])).expect("insert succeeds");
    assert_eq!(new, "# A\n<script>\na\n</script>\n- e\n# B\n");
    let declaration = "# A\n<!DOCTYPE html>\n# B\n";
    let new = inserted(declaration, "- e", &placed(&["A"], &[])).expect("insert succeeds");
    assert_eq!(new, "# A\n<!DOCTYPE html>\n- e\n# B\n");
    // A blank after a marker-closed block is separation, not a
    // terminator, and stays after the entry like any trailing blank.
    let separated = "# A\n<script>\na\n</script>\n\n# B\n";
    let new = inserted(separated, "- e", &placed(&["A"], &[])).expect("insert succeeds");
    assert_eq!(new, "# A\n<script>\na\n</script>\n- e\n\n# B\n");
    let thread = "- p\n  <script>\n  a\n  </script>\n\n- q\n";
    let new = inserted(thread, "- e", &placed(&[], &["p"])).expect("insert succeeds");
    assert_eq!(new, "- p\n  <script>\n  a\n  </script>\n\t- e\n\n- q\n");
}

/// A blank-terminated block cut off by its container before any
/// blank gets the blank written, closing the HTML before the entry.
#[test]
fn inserted_closes_html_cut_by_a_sibling() {
    let text = "- p\n  <div>\n  raw\n- q\n";
    let new = inserted(text, "- e", &placed(&[], &["p"])).expect("insert succeeds");
    assert_eq!(new, "- p\n  <div>\n  raw\n\n\t- e\n- q\n");
}

/// Marker-terminated HTML that never reached its marker cannot be
/// closed by whitespace, so the placement is refused.
#[test]
fn inserted_rejects_unclosed_raw_html() {
    let cases = [
        ("# A\n<script>\nraw\n", placed(&["A"], &[])),
        ("# A\n<script>\nraw\n</style>\npara\n", placed(&["A"], &[])),
        ("# A\n<script\u{c}>\nraw\n", placed(&["A"], &[])),
        ("# A\n<script>\né", placed(&["A"], &[])),
        ("# A\n<!-- note\n", placed(&["A"], &[])),
        ("# A\n<?process\n", placed(&["A"], &[])),
        ("# A\n<![CDATA[\n", placed(&["A"], &[])),
        ("- p\n  <script>\n  raw\n- q\n", placed(&[], &["p"])),
    ];
    for (text, placement) in cases {
        let error = inserted(text, "- e", &placement).expect_err("open HTML rejects");
        assert_eq!(
            error.message(),
            "the target ends inside unclosed raw HTML",
            "for {text:?}"
        );
    }
}

/// An entry inside an unclosed fence would read as code, and only a
/// closing fence — content, not kladde's to write — could stop it.
/// An over-indented fence line never closed anything.
#[test]
fn inserted_rejects_an_unclosed_fence() {
    let cases = [
        ("# A\n~~~\ncode\n", placed(&["A"], &[])),
        ("# A\n```\n", placed(&["A"], &[])),
        ("# A\n````\ncode\n```\n", placed(&["A"], &[])),
        ("# A\n~~~\ncode\n    ~~~\n", placed(&["A"], &[])),
        ("# A\n```\ncode\n```\t\n", placed(&["A"], &[])),
        ("- p\n  ```\n  code\n", placed(&[], &["p"])),
        ("- p\n  ```\n  code\n      ```\n", placed(&[], &["p"])),
    ];
    for (text, placement) in cases {
        let error = inserted(text, "- e", &placement).expect_err("open fence rejects");
        assert_eq!(
            error.message(),
            "the target ends inside an unclosed code fence",
            "for {text:?}"
        );
    }
}

/// A closed fence whose trailing newline the note cut off is the one
/// closed fence an insertion offset can reach; the entry follows it,
/// inside a list item too, where the closing indent is measured
/// against the item's content column.
#[test]
fn inserted_appends_after_a_closed_fence_cut_by_the_notes_end() {
    let text = "# A\n```rust\ncode\n```";
    let new = inserted(text, "- e", &placed(&["A"], &[])).expect("insert succeeds");
    assert_eq!(new, "# A\n```rust\ncode\n```\n- e\n");
    let nested = "- p\n  ```\n  code\n  ```";
    let new = inserted(nested, "- e", &placed(&[], &["p"])).expect("insert succeeds");
    assert_eq!(new, "- p\n  ```\n  code\n  ```\n\t- e\n");
}

#[test]
fn inserted_strips_a_closing_hash_run() {
    let text = "# Foo #\nx\n# Foo # bar\ny\n";
    let new = inserted(text, "- e", &placed(&["Foo #"], &[])).expect("insert succeeds");
    assert_eq!(new, "# Foo #\nx\n# Foo # bar\ny\n- e\n");
    let glued = "# C#\nx\n";
    let new = inserted(glued, "- e", &placed(&["C#"], &[])).expect("insert succeeds");
    assert_eq!(new, "# C#\nx\n- e\n");
    let hashes = "# #\nx\n";
    let error = inserted(hashes, "- e", &placed(&["#"], &[])).expect_err("no text to match");
    assert_eq!(error.message(), "no heading matching \"#\"");
}

#[test]
fn inserted_descends_a_bullet_thread() {
    let text = "- a\n\t- b\n\t\t- c\n- d\n";
    let new = inserted(text, "- e", &placed(&[], &["a", "b"])).expect("insert succeeds");
    assert_eq!(new, "- a\n\t- b\n\t\t- c\n\t\t- e\n- d\n");
}

#[test]
fn inserted_matches_a_deep_bullet_from_the_top() {
    let text = "- a\n\t- unique\n";
    let new = inserted(text, "- e", &placed(&[], &["unique"])).expect("insert succeeds");
    assert_eq!(new, "- a\n\t- unique\n\t\t- e\n");
}

#[test]
fn inserted_reports_bullets_ambiguous_across_depths() {
    let text = "- x\n\t- xy\n";
    let error = inserted(text, "- e", &placed(&[], &["x"])).expect_err("ambiguous fails");
    assert_eq!(error.message(), "multiple bullets matching \"x\"");
}

#[test]
fn inserted_scopes_bullets_to_the_section() {
    let text = "# A\n- todo\n# B\n- todo\n";
    let error = inserted(text, "- e", &placed(&[], &["todo"])).expect_err("ambiguous fails");
    assert_eq!(error.message(), "multiple bullets matching \"todo\"");
    let new = inserted(text, "- e", &placed(&["B"], &["todo"])).expect("insert succeeds");
    assert_eq!(new, "# A\n- todo\n# B\n- todo\n\t- e\n");
}

#[test]
fn inserted_reads_every_marker() {
    let cases = [
        ("* a\n", "a", "* a\n\t- e\n"),
        ("+ a\n", "a", "+ a\n\t- e\n"),
        ("1. a\n", "a", "1. a\n\t- e\n"),
        ("1) a\n", "a", "1) a\n\t- e\n"),
        ("-   wide\n", "wide", "-   wide\n\t- e\n"),
    ];
    for (text, query, expected) in cases {
        let new = inserted(text, "- e", &placed(&[], &[query])).expect("insert succeeds");
        assert_eq!(new, expected, "for {text:?}");
    }
}

#[test]
fn inserted_lands_before_a_loose_items_blank() {
    let text = "- a\n\n- b\n";
    let new = inserted(text, "- e", &placed(&[], &["a"])).expect("insert succeeds");
    assert_eq!(new, "- a\n\t- e\n\n- b\n");
}

#[test]
fn inserted_extends_an_unterminated_bullet() {
    let text = "- a";
    let new = inserted(text, "- e", &placed(&[], &["a"])).expect("insert succeeds");
    assert_eq!(new, "- a\n\t- e\n");
}

#[test]
fn inserted_keeps_a_crlf_note_crlf() {
    let text = "# A\r\nx\r\n# B\r\n";
    let new = inserted(text, "- e", &placed(&["A"], &[])).expect("insert succeeds");
    assert_eq!(new, "# A\r\nx\r\n- e\r\n# B\r\n");
    let bullets = "- a\r\n- b\r\n";
    let new = inserted(bullets, "- e", &placed(&[], &["a"])).expect("insert succeeds");
    assert_eq!(new, "- a\r\n\t- e\r\n- b\r\n");
}

#[test]
fn inserted_indents_every_entry_line() {
    let text = "- a\n";
    let new = inserted(text, "- e\nmore", &placed(&[], &["a"])).expect("insert succeeds");
    assert_eq!(new, "- a\n\t- e\n\tmore\n");
    let new = inserted(text, "- e\n\nmore", &placed(&[], &["a"])).expect("insert succeeds");
    assert_eq!(new, "- a\n\t- e\n\n\tmore\n");
    let new = inserted(text, "- e\r\nmore", &placed(&[], &["a"])).expect("insert succeeds");
    assert_eq!(new, "- a\n\t- e\n\tmore\n");
}

#[test]
fn inserted_skips_frontmatter() {
    let text = "---\ntitle: x\n---\n# A\nbody\n";
    let new = inserted(text, "- e", &placed(&["A"], &[])).expect("insert succeeds");
    assert_eq!(new, "---\ntitle: x\n---\n# A\nbody\n- e\n");
    let error = inserted(text, "- e", &placed(&["title"], &[])).expect_err("keys hidden");
    assert_eq!(error.message(), "no heading matching \"title\"");
    let bom = "\u{feff}# A\nx\n";
    let new = inserted(bom, "- e", &placed(&["A"], &[])).expect("insert succeeds");
    assert_eq!(new, "\u{feff}# A\nx\n- e\n");
    // The block's endings carry the style when the body has none of
    // its own to show.
    let crlf = "---\r\nk: v\r\n---\r\n# A";
    let new = inserted(crlf, "- e", &placed(&["A"], &[])).expect("insert succeeds");
    assert_eq!(new, "---\r\nk: v\r\n---\r\n# A\r\n- e\r\n");
}

/// A list entry directly above a setext heading would absorb it,
/// and plain text directly below a list would be absorbed by it:
/// the splice check restores the boundary with a blank line, and
/// refuses when no blank can.
#[test]
fn inserted_preserves_the_structure_around_the_entry() {
    let setext = "# A\n```\nc\n```\nB\n===\ny\n";
    let new = inserted(setext, "- e", &placed(&["A"], &[])).expect("insert succeeds");
    assert_eq!(new, "# A\n```\nc\n```\n- e\n\nB\n===\ny\n");
    let empty = "# A\nB\n===\n";
    let new = inserted(empty, "- e", &placed(&["A"], &[])).expect("insert succeeds");
    assert_eq!(new, "# A\n- e\n\nB\n===\n");
    let list = "# A\n- item\n# B\n";
    let new = inserted(list, "plain", &placed(&["A"], &[])).expect("insert succeeds");
    assert_eq!(new, "# A\n- item\n\nplain\n# B\n");
    let quoted = "- p\n  > q\n\npara\n";
    let new = inserted(quoted, "- e", &placed(&[], &["p"])).expect("insert succeeds");
    assert_eq!(new, "- p\n  > q\n\n\t- e\n\npara\n");
    let indented = "# A\np\n  # B\ny\n";
    let error = inserted(indented, "- e", &placed(&["A"], &[])).expect_err("no safe splice");
    assert_eq!(
        error.message(),
        "the entry would change the structure around it"
    );
    let inline = "# A\n*em* text\n# B\n";
    let new = inserted(inline, "- e", &placed(&["A"], &[])).expect("insert succeeds");
    assert_eq!(new, "# A\n*em* text\n- e\n# B\n");
}

/// An entry carrying a heading of its own must not reparent the
/// sections after it.
#[test]
fn inserted_guards_heading_ancestry() {
    let text = "# A\n## B\nx\n## C\ny\n";
    let error = inserted(text, "# New", &placed(&["A", "B"], &[])).expect_err("reparents C");
    assert_eq!(
        error.message(),
        "the entry would change the structure around it"
    );
    let deep = inserted(text, "### deep", &placed(&["A", "B"], &[])).expect("insert succeeds");
    assert_eq!(deep, "# A\n## B\nx\n### deep\n## C\ny\n");
    let tail = inserted("# A\nx\n", "## Sub", &placed(&["A"], &[])).expect("insert succeeds");
    assert_eq!(tail, "# A\nx\n## Sub\n");
}

/// Plain text under a parent with children lands as the parent's
/// own paragraph, never as a lazy continuation of the last child.
#[test]
fn inserted_keeps_plain_entries_out_of_children() {
    let text = "- parent\n  - child\n";
    let new = inserted(text, "plain", &placed(&[], &["parent"])).expect("insert succeeds");
    assert_eq!(new, "- parent\n  - child\n\n  plain\n");
}

/// Leaf blocks the parser reports without a start tag, and entries
/// it renders invisible, both place cleanly.
#[test]
fn inserted_accepts_leaf_block_entries() {
    let rule = inserted("# A\nx\n# B\n", "---", &placed(&["A"], &[])).expect("insert succeeds");
    assert_eq!(rule, "# A\nx\n\n---\n# B\n");
    let definition =
        inserted("# A\nx\n", "[ref]: /url", &placed(&["A"], &[])).expect("insert succeeds");
    assert_eq!(definition, "# A\nx\n\n[ref]: /url\n");
}

/// A multiline entry owns its block at its FIRST line; a later line
/// starting one does not excuse the first being absorbed.
#[test]
fn inserted_requires_the_first_line_to_own_its_block() {
    let text = "# A\n- item\n# B\n";
    let new = inserted(text, "new\n- later", &placed(&["A"], &[])).expect("insert succeeds");
    assert_eq!(new, "# A\n- item\n\nnew\n- later\n# B\n");
}

/// An entry that would complete a half-open frontmatter fence moves
/// the body boundary itself, and is refused rather than misjudged.
#[test]
fn inserted_refuses_completing_frontmatter() {
    let text = "---\n# A\nx\n";
    let error = inserted(text, "---", &placed(&["A"], &[])).expect_err("boundary moves");
    assert_eq!(
        error.message(),
        "the entry would change the structure around it"
    );
}

/// The entry lands at the end of the thread, so its sibling context
/// is the LAST direct child, whatever the first one was indented.
#[test]
fn inserted_copies_the_last_direct_childs_indent() {
    let text = "- p\n    - deep\n  - shallow\n";
    let new = inserted(text, "- e", &placed(&[], &["p"])).expect("insert succeeds");
    assert_eq!(new, "- p\n    - deep\n  - shallow\n  - e\n");
}

/// A sublist can open on its parent's marker line; the indent
/// written beside it is column-equivalent whitespace, never a
/// copied marker, and descent can reach it.
#[test]
fn inserted_handles_marker_line_sublists() {
    let outer = inserted("- - p\n", "- e", &placed(&[], &["- p"])).expect("insert succeeds");
    assert_eq!(outer, "- - p\n  - e\n");
    let inner = inserted("- - p\n", "- e", &placed(&[], &["p"])).expect("insert succeeds");
    assert_eq!(inner, "- - p\n\t- e\n");
    let chain = inserted("- - beta\n", "- e", &placed(&[], &["- beta", "beta"]))
        .expect("descent succeeds");
    assert_eq!(chain, "- - beta\n\t- e\n");
}

/// An entry indented below an unclosed block's container ends the
/// container — and the block with it — so the placement is safe.
#[test]
fn inserted_deindents_past_contained_blocks() {
    let fence = "- p\n  - c\n    ```\n    code\n";
    let new = inserted(fence, "- e", &placed(&[], &["p"])).expect("insert succeeds");
    assert_eq!(new, "- p\n  - c\n    ```\n    code\n  - e\n");
    let html = "- p\n  - c\n    <script>\n    raw\n";
    let new = inserted(html, "- e", &placed(&[], &["p"])).expect("insert succeeds");
    assert_eq!(new, "- p\n  - c\n    <script>\n    raw\n  - e\n");
}

/// Without an opening fence there is no frontmatter, and the
/// would-be properties read as markdown: a setext heading. The
/// contract is the frontmatter module's, applied consistently.
#[test]
fn inserted_reads_an_unopened_block_as_markdown() {
    let text = "title: x\n---\nbody\n";
    let new = inserted(text, "- e", &placed(&["title"], &[])).expect("insert succeeds");
    assert_eq!(new, "title: x\n---\nbody\n- e\n");
}

/// A placed entry must be immediately addressable through the path
/// that placed it: the parser has to read kladde's own output as
/// the structure it claims to have written, never as code, HTML, or
/// a stray sibling. Asserted in both indent modes across the note
/// shapes that make an insertion easy to get wrong.
#[test]
fn inserted_entries_are_addressable() {
    let cases: &[(&str, &[&str], &[&str])] = &[
        ("# A\nalpha\n# B\n", &["A"], &[]),
        ("# A\n## kladde\nx\n# B\n", &["A", "kladde"], &[]),
        ("Title\n=====\nx\n", &["Tit"], &[]),
        ("# A\n```\n# fake\n```\n# B\n", &["A"], &[]),
        ("# A\n```rust\ncode\n```", &["A"], &[]),
        ("# A\n<div>\nraw\n\n# B\n", &["A"], &[]),
        ("# A\n<script>\na\n</script>\n\n# B\n", &["A"], &[]),
        ("# A\n<!DOCTYPE html>\n# B\n", &["A"], &[]),
        ("# A\r\nx\r\n# B\r\n", &["A"], &[]),
        ("# A\n> quoted\n# B\n", &["A"], &[]),
        ("---\nt: v\n---\n# A\nx\n", &["A"], &[]),
        ("---\r\nt: v\r\n---\r\n# A", &["A"], &[]),
        ("- parent\n- other\n", &[], &["parent"]),
        ("- parent\n  - child\n", &[], &["parent"]),
        ("- a\n\t- b\n\t\t- c\n- d\n", &[], &["a", "b"]),
        ("1. p\n", &[], &["p"]),
        ("100. p\n", &[], &["p"]),
        ("-    p\n", &[], &["p"]),
        ("-     p\n", &[], &["p"]),
        ("- a\n\n- b\n", &[], &["a"]),
        ("- a", &[], &["a"]),
        ("- p\n  > q\n- q2\n", &[], &["p"]),
        ("- p\n    - deep\n  - shallow\n", &[], &["p"]),
        ("- - p\n", &[], &["p"]),
        ("- p\n  - c\n    ```\n    code\n", &[], &["p"]),
        ("- p\n  - c\n    <script>\n    raw\n", &[], &["p"]),
        ("# A\n```\nc\n```\nB\n===\ny\n", &["A"], &[]),
        ("# A\n- item\n# B\n", &["A"], &[]),
        ("- p\n  <div>\n  raw\n- q\n", &[], &["p"]),
        ("- p\n  <script>\n  a\n  </script>\n\n- q\n", &[], &["p"]),
        ("- p\n  ```\n  code\n  ```", &[], &["p"]),
        ("# A\n- todo\n# B\n- todo\n", &["B"], &["todo"]),
    ];
    for indent in [Indent::Tab, Indent::Spaces] {
        for (text, headings, bullets) in cases {
            let placement = Placement {
                headings: headings.iter().map(|&query| query.to_owned()).collect(),
                bullets: bullets.iter().map(|&query| query.to_owned()).collect(),
                indent,
            };
            let placed = inserted(text, "- zz probe", &placement);
            assert!(placed.is_ok(), "for {text:?} with {indent:?}: {placed:?}");
            let new = placed.expect("asserted above");
            let mut descent = placement;
            descent.bullets.push("zz probe".to_owned());
            let again = inserted(&new, "- again", &descent);
            assert!(again.is_ok(), "for {new:?} with {indent:?}: {again:?}");
        }
    }
}

#[test]
fn removed_takes_the_matched_line() {
    let text = "## A\n\n- one\n- two\n- three\n";
    let new = removed(text, "two", &placed(&["A"], &[])).expect("removal succeeds");
    assert_eq!(new, "## A\n\n- one\n- three\n");
}

/// Cutting the first line would promote the fence below it to byte
/// zero, turning the remainder into a frontmatter block and moving
/// the body boundary itself, so the removal is refused.
#[test]
fn removed_refuses_moving_the_body_boundary() {
    let error = removed("- drop\n---\nk: v\n---\n", "drop", &placed(&[], &[]))
        .expect_err("boundary move refuses");
    assert_eq!(
        error.message(),
        "the removal would change the structure around it"
    );
}

#[test]
fn removed_defaults_to_the_whole_body() {
    let new = removed("- one\n- two\n", "one", &placed(&[], &[])).expect("removal succeeds");
    assert_eq!(new, "- two\n");
}

#[test]
fn removed_descends_headings_and_bullets() {
    let text = "# A\n- p\n\t- keep\n\t- drop\n# B\n- p\n\t- drop\n";
    let new = removed(text, "drop", &placed(&["A"], &["p"])).expect("removal succeeds");
    assert_eq!(new, "# A\n- p\n\t- keep\n# B\n- p\n\t- drop\n");
}

/// A following nested sibling's span reaches back into the removed
/// line's terminator; matching by content lead sees past that.
#[test]
fn removed_takes_a_leading_nested_sibling() {
    let text = "- p\n\t- drop\n\t- keep\n";
    let new = removed(text, "drop", &placed(&[], &["p"])).expect("removal succeeds");
    assert_eq!(new, "- p\n\t- keep\n");
}

#[test]
fn removed_reads_every_marker() {
    let cases = [
        ("- x\n- y\n", "- x\n"),
        ("* x\n* y\n", "* x\n"),
        ("+ x\n+ y\n", "+ x\n"),
        ("1. x\n2. y\n", "1. x\n"),
        ("1) x\n2) y\n", "1) x\n"),
    ];
    for (text, expected) in cases {
        let new = removed(text, "y", &placed(&[], &[])).expect("removal succeeds");
        assert_eq!(new, expected, "for {text:?}");
    }
}

#[test]
fn removed_refuses_nested_content() {
    let cases = [
        "- drop\n\t- child\n",
        "- drop\n  more text\n",
        "- drop\n\n  ```\n  code\n  ```\n",
        "- drop\n  > quoted\n",
    ];
    for text in cases {
        let error =
            removed(text, "drop", &placed(&[], &[])).expect_err("nested content refuses");
        assert_eq!(
            error.message(),
            "the bullet matching \"drop\" holds nested content",
            "for {text:?}"
        );
    }
}

/// The cut takes exactly the named line: blank lines around it,
/// the loose list's separators, all stay.
#[test]
fn removed_takes_only_the_line_in_a_loose_list() {
    let text = "- a\n\n- b\n\n- c\n";
    let new = removed(text, "b", &placed(&[], &[])).expect("removal succeeds");
    assert_eq!(new, "- a\n\n\n- c\n");
}

#[test]
fn removed_takes_the_only_item() {
    let text = "## A\n\n- solo\n\ntext\n";
    let new = removed(text, "solo", &placed(&["A"], &[])).expect("removal succeeds");
    assert_eq!(new, "## A\n\n\ntext\n");
}

/// A last item's span holds the blank after its list; the survivor
/// absorbs that residue and the blank separator stays in the note.
#[test]
fn removed_takes_the_last_item_before_a_block() {
    let cases = [
        ("- a\n- zdrop\n\nparagraph\n", "- a\n\nparagraph\n"),
        (
            "## S\n\n- x\n- zdrop\n\n## Next\n",
            "## S\n\n- x\n\n## Next\n",
        ),
        ("- a\n- zdrop\n\n* other\n", "- a\n\n* other\n"),
        ("- a\n\t- zdrop\n\n> quote\n", "- a\n\n> quote\n"),
        (
            "- a\n- zdrop\n\n```\ncode\n```\n",
            "- a\n\n```\ncode\n```\n",
        ),
    ];
    for (text, expected) in cases {
        let new = removed(text, "zdrop", &placed(&[], &[])).expect("removal succeeds");
        assert_eq!(new, expected, "for {text:?}");
    }
}

/// The daily-note shape: retracting the last sub-bullet of a
/// session thread keeps the blank separating session groups.
#[test]
fn removed_takes_the_last_nested_child() {
    let text = "## Stream\n\n- Session A\n\t- did x\n\t- did y\n\n- Session B\n\t- did z\n";
    let new =
        removed(text, "did y", &placed(&["Stream"], &["Session A"])).expect("removal succeeds");
    assert_eq!(
        new,
        "## Stream\n\n- Session A\n\t- did x\n\n- Session B\n\t- did z\n"
    );
}

/// A cut that would promote a nested blank line into a top-level
/// separator reshapes untouched siblings, so it is refused.
#[test]
fn removed_refuses_promoting_a_nested_blank() {
    let text = "- a\n\t- b\n\n\t- b2\n\n\t- zd\n- last\n";
    let error = removed(text, "zd", &placed(&[], &[])).expect_err("loose flip refuses");
    assert_eq!(
        error.message(),
        "the removal would change the structure around it"
    );
}

/// A bullet whose own text spells a heading parses as a heading
/// block inside the item; it vanishes with the cut like anything
/// else on the removed line.
#[test]
fn removed_takes_a_bullet_spelling_a_heading() {
    let cases = [
        ("- # of retries hit 3\n- next\n", "# of retries", "- next\n"),
        ("- first\n- # ZZ\n", "# ZZ", "- first\n"),
        ("- x\n\t- ## deep\n", "## deep", "- x\n"),
    ];
    for (text, query, expected) in cases {
        let new = removed(text, query, &placed(&[], &[])).expect("removal succeeds");
        assert_eq!(new, expected, "for {text:?}");
    }
}

/// A container's span reaches into the next line's indentation, so
/// blocks compare by content edges, not span edges.
#[test]
fn removed_reads_indent_wobble() {
    let text = "- a\n  - b\n  1. x\n";
    let new = removed(text, "b", &placed(&[], &[])).expect("removal succeeds");
    assert_eq!(new, "- a\n  1. x\n");
    let new = removed(text, "x", &placed(&[], &[])).expect("removal succeeds");
    assert_eq!(new, "- a\n  - b\n");
}

/// The vanished nested list's span runs into the continuation
/// line's indent; content edges see past it.
#[test]
fn removed_takes_the_only_child_before_a_continuation() {
    let text = "## S\n\n- Session A\n\t- did x\n\n  wrap up line\n";
    let new = removed(text, "did x", &placed(&["S"], &[])).expect("removal succeeds");
    assert_eq!(new, "## S\n\n- Session A\n\n  wrap up line\n");
}

/// A surviving sibling list's span absorbs its own terminator when
/// a differently-marked sibling vanishes; its content edge stays.
#[test]
fn removed_takes_a_mixed_marker_sibling() {
    let text = "- Session A\n\t1. reviewed the PR\n\t- shipped it\n";
    let new =
        removed(text, "shipped it", &placed(&[], &["Session A"])).expect("removal succeeds");
    assert_eq!(new, "- Session A\n\t1. reviewed the PR\n");
}

/// The blank a removed last item leaves behind would become
/// content inside an unclosed fence or raw HTML block, so the
/// removal is refused rather than silently editing code.
#[test]
fn removed_refuses_feeding_a_code_block() {
    let cases = [
        "- notes\n\t```\n\tlet a = 1;\n- scratch\n\n\n",
        "- notes\n\t<pre>x\n- scratch\n\n\n",
    ];
    for text in cases {
        let error = removed(text, "scratch", &placed(&[], &[])).expect_err("code feed refuses");
        assert_eq!(
            error.message(),
            "the removal would change the structure around it",
            "for {text:?}"
        );
    }
}

/// Cutting the first item of an ordered list promotes the next
/// item's marker to the list's start: a sequential list renders
/// unchanged and passes, a gapped one renumbers and is refused.
/// Cutting a later item renumbers the rest downward, the way
/// deleting from a numbered list does everywhere, and passes.
#[test]
fn removed_guards_ordered_list_starts() {
    let new = removed("1. one\n2. two\n3. three\n", "one", &placed(&[], &[]))
        .expect("sequential start succeeds");
    assert_eq!(new, "2. two\n3. three\n");
    let new = removed("1. keep\n2. drop\n3. later\n", "drop", &placed(&[], &[]))
        .expect("natural renumbering succeeds");
    assert_eq!(new, "1. keep\n3. later\n");
    let new = removed("1. drop\n1. keep\n", "drop", &placed(&[], &[]))
        .expect("an all-ones list renumbers downward");
    assert_eq!(new, "1. keep\n");
    let error = removed("1. zdrop\n5. five\n7. seven\n", "zdrop", &placed(&[], &[]))
        .expect_err("renumbering refuses");
    assert_eq!(
        error.message(),
        "the removal would change the structure around it"
    );
}

/// A bullet's own single line goes whole, whatever blocks its text
/// parses into: a quoted child is not separately addressable, so
/// it vanishes with its bullet the way a spelled heading does.
#[test]
fn removed_takes_a_bullet_quoting_content() {
    let new = removed("- > - child\n- keep\n", "> - child", &placed(&[], &[]))
        .expect("removal succeeds");
    assert_eq!(new, "- keep\n");
}

/// A marker-line sublist nests a child on the parent's own line:
/// removing the parent is refused for the child it holds, and
/// removing the child is refused for the line it shares.
#[test]
fn removed_refuses_marker_line_nesting() {
    let text = "- - child\n- keep\n";
    let error = removed(text, "- child", &placed(&[], &[])).expect_err("nested child refuses");
    assert_eq!(
        error.message(),
        "the bullet matching \"- child\" holds nested content"
    );
    let error = removed(text, "child", &placed(&[], &[])).expect_err("shared line refuses");
    assert_eq!(
        error.message(),
        "the bullet matching \"child\" shares its line with another bullet"
    );
}

/// Removing the last item of a loose list would leave a tight one,
/// reshaping the survivor's blocks, so the removal is refused.
#[test]
fn removed_refuses_a_reshaping_removal() {
    let cases = ["- a\n\n- b\n", "- a\n\n- b\n\ntail\n"];
    for text in cases {
        let error = removed(text, "b", &placed(&[], &[])).expect_err("loose survivor refuses");
        assert_eq!(
            error.message(),
            "the removal would change the structure around it",
            "for {text:?}"
        );
    }
}

#[test]
fn removed_reports_unmatched_and_ambiguous_targets() {
    let cases = [
        ("- x\n", "y", "no bullet matching \"y\""),
        ("- x\n- xy\n", "x", "multiple bullets matching \"x\""),
    ];
    for (text, query, message) in cases {
        let error = removed(text, query, &placed(&[], &[])).expect_err("bad target fails");
        assert_eq!(error.message(), message, "for {text:?}");
    }
    let error = removed("- x\n", "x", &placed(&["A"], &[])).expect_err("missing scope fails");
    assert_eq!(error.message(), "no heading matching \"A\"");
}

#[test]
fn removed_validates_queries() {
    let cases: [(&[&str], &[&str], &str, &str); 3] = [
        (&["A"], &[], "", "invalid bullet \"\": it is empty"),
        (&[""], &[], "x", "invalid heading \"\": it is empty"),
        (
            &[],
            &["a\nb"],
            "x",
            "invalid bullet \"a\\nb\": it contains a line break",
        ),
    ];
    for (headings, bullets, query, message) in cases {
        let error =
            removed("- x\n", query, &placed(headings, bullets)).expect_err("invalid fails");
        assert_eq!(error.message(), message, "for {query:?}");
    }
}

#[test]
fn removed_refuses_bare_carriage_returns() {
    let error = removed("- a\r- b\r", "b", &placed(&[], &[])).expect_err("bare CR refuses");
    assert_eq!(
        error.message(),
        "the note uses bare carriage-return line endings"
    );
}

#[test]
fn removed_skips_frontmatter() {
    let text = "---\nk: v\n---\n- a\n- b\n";
    let new = removed(text, "b", &placed(&[], &[])).expect("removal succeeds");
    assert_eq!(new, "---\nk: v\n---\n- a\n");
}

#[test]
fn removed_keeps_a_crlf_note_crlf() {
    let text = "## A\r\n\r\n- one\r\n- two\r\n";
    let new = removed(text, "two", &placed(&["A"], &[])).expect("removal succeeds");
    assert_eq!(new, "## A\r\n\r\n- one\r\n");
}

#[test]
fn removed_takes_an_unterminated_last_line() {
    let new = removed("- a\n- b", "b", &placed(&[], &[])).expect("removal succeeds");
    assert_eq!(new, "- a\n");
}

/// A probe an insertion placed must remove back to the original
/// note: the removal-side analogue of addressability.
#[test]
fn removed_round_trips_an_appended_probe() {
    let cases: [(&str, &[&str], &[&str]); 5] = [
        ("# A\nalpha\n", &["A"], &[]),
        ("- p\n\t- c\n", &[], &["p", "c"]),
        ("## A\n\n- p\nx\n", &["A"], &["p"]),
        ("#### Thoughts\n\n#### Stream\n", &["Thoughts"], &[]),
        (
            "## S\n\n- Session A\n\t- did x\n\n- Session B\n",
            &["S"],
            &["Session A"],
        ),
    ];
    for (text, headings, bullets) in cases {
        let grown =
            inserted(text, "- zq probe", &placed(headings, bullets)).expect("insert succeeds");
        let back =
            removed(&grown, "zq probe", &placed(headings, bullets)).expect("removal succeeds");
        assert_eq!(back, text, "for {text:?}");
    }
}

#[test]
fn toggled_flips_the_matched_task() {
    let text = "- [ ] milk\n- [x] bob\n";
    let new = toggled(text, "milk", &placed(&[], &[]), true).expect("check succeeds");
    assert_eq!(new, "- [x] milk\n- [x] bob\n");
    let new = toggled(&new, "bob", &placed(&[], &[]), false).expect("uncheck succeeds");
    assert_eq!(new, "- [x] milk\n- [ ] bob\n");
}

/// The query names the task's text past the box, so the same query
/// checks a task and unchecks it again.
#[test]
fn toggled_matches_past_the_box() {
    let text = "- [ ] milk\n";
    let checked = toggled(text, "milk", &placed(&[], &[]), true).expect("check succeeds");
    let back = toggled(&checked, "milk", &placed(&[], &[]), false).expect("uncheck succeeds");
    assert_eq!(back, text);
}

#[test]
fn toggled_leaves_the_asked_state() {
    let cases = [
        ("- [x] t\n", true),
        ("- [X] t\n", true),
        ("- [ ] t\n", false),
    ];
    for (text, checked) in cases {
        let new = toggled(text, "t", &placed(&[], &[]), checked).expect("no-op succeeds");
        assert_eq!(new, text, "for {text:?}");
    }
}

#[test]
fn toggled_reads_task_shapes() {
    let cases = [
        ("- [X] t\n", "- [ ] t\n"),
        ("* [x] t\n", "* [ ] t\n"),
        ("+ [x] t\n", "+ [ ] t\n"),
        ("1. [x] t\n", "1. [ ] t\n"),
    ];
    for (text, expected) in cases {
        let new = toggled(text, "t", &placed(&[], &[]), false).expect("uncheck succeeds");
        assert_eq!(new, expected, "for {text:?}");
    }
}

/// Only task bullets are candidates: a plain bullet or a bracketed
/// line that is no box never matches, whatever its text.
#[test]
fn toggled_skips_non_tasks() {
    let cases = ["- t\n", "- [y] t\n", "- [ ]t\n", "- [x]t\n", "-\n"];
    for text in cases {
        let error =
            toggled(text, "t", &placed(&[], &[]), true).expect_err("non-task never matches");
        assert_eq!(error.message(), "no task matching \"t\"", "for {text:?}");
    }
    let new =
        toggled("- t\n- [ ] t\n", "t", &placed(&[], &[]), true).expect("the one task matches");
    assert_eq!(new, "- t\n- [x] t\n");
}

#[test]
fn toggled_accepts_a_bare_box() {
    let new = toggled("- [ ]\n", "x", &placed(&[], &[]), true).expect_err("nothing matches");
    assert_eq!(new.message(), "no task matching \"x\"");
}

/// Whitespace after the box is separator, not text: a tab or extra
/// spaces never have to be spelled in the query.
#[test]
fn toggled_reads_separator_whitespace() {
    let cases = [
        ("- [ ]\tship it\n", "- [x]\tship it\n"),
        ("- [ ]  ship it\n", "- [x]  ship it\n"),
        ("- [ ] \t ship it\n", "- [x] \t ship it\n"),
    ];
    for (text, expected) in cases {
        let new = toggled(text, "ship it", &placed(&[], &[]), true).expect("check succeeds");
        assert_eq!(new, expected, "for {text:?}");
    }
}

/// A wide gap after the marker turns the rest of the line into
/// indented code inside the item; a box the parser reads as code
/// is content, never a task.
#[test]
fn toggled_skips_a_boxed_code_sample() {
    let cases = ["-     [ ] code sample\n", "-\t\t[ ] code sample\n"];
    for text in cases {
        let error = toggled(text, "code sample", &placed(&[], &[]), true)
            .expect_err("code is never a task");
        assert_eq!(
            error.message(),
            "no task matching \"code sample\"",
            "for {text:?}"
        );
    }
}

#[test]
fn toggled_scopes_and_descends() {
    let text = "# A\n- p\n\t- [ ] t\n# B\n- p\n\t- [ ] t\n";
    let new = toggled(text, "t", &placed(&["A"], &["p"]), true).expect("check succeeds");
    assert_eq!(new, "# A\n- p\n\t- [x] t\n# B\n- p\n\t- [ ] t\n");
}

#[test]
fn toggled_reports_no_and_multiple_tasks() {
    let error = toggled("- [ ] t\n- [x] tu\n", "t", &placed(&[], &[]), true)
        .expect_err("two tasks are ambiguous");
    assert_eq!(error.message(), "multiple tasks matching \"t\"");
    let error =
        toggled("- [ ] t\n", "t", &placed(&["A"], &[]), true).expect_err("missing scope");
    assert_eq!(error.message(), "no heading matching \"A\"");
}

#[test]
fn toggled_validates_queries() {
    let error = toggled("- [ ] t\n", "", &placed(&[], &[]), true).expect_err("empty query");
    assert_eq!(error.message(), "invalid bullet \"\": it is empty");
    let error = toggled("- [ ] t\n", "t", &placed(&["a\nb"], &["c"]), true)
        .expect_err("broken heading query");
    assert_eq!(
        error.message(),
        "invalid heading \"a\\nb\": it contains a line break"
    );
}

#[test]
fn toggled_refuses_bare_carriage_returns() {
    let error =
        toggled("- [ ] t\r", "t", &placed(&[], &[]), true).expect_err("bare CR refuses");
    assert_eq!(
        error.message(),
        "the note uses bare carriage-return line endings"
    );
}

#[test]
fn toggled_skips_frontmatter_and_keeps_crlf() {
    let text = "---\nk: v\n---\n- [ ] t\r\n";
    let new = toggled(text, "t", &placed(&[], &[]), true).expect("check succeeds");
    assert_eq!(new, "---\nk: v\n---\n- [x] t\r\n");
}

/// The markdown events of `text` past its frontmatter.
fn body_events(text: &str) -> Vec<MdEvent> {
    let chars = kladde::text::chars_of(text);
    let start = kladde::frontmatter::body_start(&chars);
    events_of(&chars[start..])
}

#[test]
fn the_with_forms_take_the_parse_of_the_body() {
    let note = "---\nk: v\n---\n# Log\n- [ ] milk\n- a\n";
    let events = body_events(note);
    let log = Placement {
        headings: vec!["Log".to_owned()],
        bullets: vec![],
        indent: Indent::Tab,
    };
    assert_eq!(
        toggled_with(note, "milk", &log, true, &events).expect("task flips"),
        "---\nk: v\n---\n# Log\n- [x] milk\n- a\n"
    );
    assert_eq!(
        removed_with(note, "a", &log, &events).expect("bullet goes"),
        "---\nk: v\n---\n# Log\n- [ ] milk\n"
    );
    assert_eq!(
        inserted_with(note, "- b", &log, &events).expect("entry lands"),
        inserted(note, "- b", &log).expect("entry lands")
    );
}

#[test]
fn toggling_back_restores_the_note_and_the_held_state_is_kept() {
    let cases = [
        ("- [ ] milk\n", true),
        ("- [x] milk\n", false),
        ("# Shop\n\n- [ ] milk\n- [x] eggs\n", true),
    ];
    for (text, checked) in cases {
        let toggled_once = toggled(text, "milk", &placed(&[], &[]), checked).expect("toggle succeeds");
        assert_ne!(toggled_once, text, "for {text:?}");
        let again = toggled(&toggled_once, "milk", &placed(&[], &[]), checked).expect("held state succeeds");
        assert_eq!(again, toggled_once, "for {text:?}");
        let back = toggled(&toggled_once, "milk", &placed(&[], &[]), !checked).expect("toggle back succeeds");
        assert_eq!(back, text, "for {text:?}");
    }
}

#[test]
fn toggling_an_upper_case_box_back_writes_lower_case() {
    let text = "- [X] milk\n";
    let unchecked = toggled(text, "milk", &placed(&[], &[]), false).expect("uncheck succeeds");
    assert_eq!(unchecked, "- [ ] milk\n");
    let back = toggled(&unchecked, "milk", &placed(&[], &[]), true).expect("check succeeds");
    assert_eq!(back, "- [x] milk\n");
}

#[test]
fn toggling_in_a_scope_round_trips() {
    let text = "# Shop\n\n- food\n\t- [ ] milk\n";
    let scope = placed(&["Shop"], &["food"]);
    let checked = toggled(text, "milk", &scope, true).expect("check succeeds");
    assert_eq!(checked, "# Shop\n\n- food\n\t- [x] milk\n");
    let back = toggled(&checked, "milk", &scope, false).expect("uncheck succeeds");
    assert_eq!(back, text);
}
