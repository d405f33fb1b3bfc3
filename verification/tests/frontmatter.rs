use kladde::frontmatter::document::{parse_document, render_document};
use kladde::frontmatter;
use kladde::frontmatter::{Stamp, Value, DEFAULT_CREATED_KEY, DEFAULT_UPDATED_KEY};
use kladde::text::chars_of;

/// The note parsed and rendered back.
fn round_tripped(text: &str) -> String {
    let chars = chars_of(text);
    render_document(&parse_document(&chars)).iter().collect()
}

fn scalar(value: &str) -> Value {
    Value::Scalar(value.to_owned())
}

fn listed(items: &[&str]) -> Value {
    Value::List(items.iter().map(|&item| item.to_owned()).collect())
}

#[test]
fn get_finds_nothing_without_a_block() {
    assert_eq!(frontmatter::get("body\n", "k").expect("get succeeds"), None);
    assert_eq!(frontmatter::get("", "k").expect("get succeeds"), None);
}

/// Measured empirically: a byte order mark before the fence is
/// tolerated.
#[test]
fn get_tolerates_a_byte_order_mark() {
    assert_eq!(
        frontmatter::get("\u{feff}---\nk: v\n---\n", "k").expect("get succeeds"),
        Some(scalar("v"))
    );
}

/// Measured empirically: a blank line before the fence means no
/// frontmatter.
#[test]
fn get_rejects_a_leading_blank_line() {
    assert_eq!(frontmatter::get("\n---\nk: v\n---\n", "k").expect("get succeeds"), None);
}

/// Measured empirically: CRLF fences and lines parse.
#[test]
fn get_reads_a_crlf_block() {
    assert_eq!(
        frontmatter::get("---\r\nk: v\r\n---\r\nbody\r\n", "k").expect("get succeeds"),
        Some(scalar("v"))
    );
}

/// Measured empirically: trailing spaces disqualify a fence.
#[test]
fn get_rejects_a_fence_with_trailing_space() {
    assert_eq!(frontmatter::get("--- \nk: v\n---\n", "k").expect("get succeeds"), None);
}

#[test]
fn get_rejects_an_unclosed_fence() {
    assert_eq!(frontmatter::get("---\nk: v\nbody\n", "k").expect("get succeeds"), None);
    assert_eq!(frontmatter::get("---", "k").expect("get succeeds"), None);
}

/// Measured empirically: YAML's `...` does not close a block.
#[test]
fn get_rejects_a_dots_closer() {
    assert_eq!(frontmatter::get("---\nk: v\n...\n", "k").expect("get succeeds"), None);
}

#[test]
fn get_rejects_a_fence_after_content() {
    assert_eq!(frontmatter::get("x\n---\nk: v\n---\n", "k").expect("get succeeds"), None);
}

#[test]
fn get_misses_in_an_empty_block() {
    assert_eq!(frontmatter::get("---\n---\nbody\n", "k").expect("get succeeds"), None);
}

#[test]
fn get_reads_a_scalar() {
    assert_eq!(
        frontmatter::get("---\nk: v\n---\n", "k").expect("get succeeds"),
        Some(scalar("v"))
    );
}

/// `tags: solo` reads as text, matching editors that keep
/// property types outside the note.
#[test]
fn get_reads_a_scalar_tags_as_text() {
    assert_eq!(
        frontmatter::get("---\ntags: solo\n---\n", "tags").expect("get succeeds"),
        Some(scalar("solo"))
    );
}

#[test]
fn get_trims_around_a_plain_scalar() {
    assert_eq!(
        frontmatter::get("---\nk:   v  \n---\n", "k").expect("get succeeds"),
        Some(scalar("v"))
    );
}

#[test]
fn get_reads_an_empty_value_as_empty_text() {
    assert_eq!(
        frontmatter::get("---\nk:\n---\n", "k").expect("get succeeds"),
        Some(scalar(""))
    );
    assert_eq!(
        frontmatter::get("---\nk: \n---\n", "k").expect("get succeeds"),
        Some(scalar(""))
    );
}

#[test]
fn get_unquotes_double_quotes() {
    assert_eq!(
        frontmatter::get("---\nk: \"a \\\"b\\\" \\\\ c\"\n---\n", "k").expect("get succeeds"),
        Some(scalar("a \"b\" \\ c"))
    );
}

#[test]
fn get_unquotes_single_quotes() {
    assert_eq!(
        frontmatter::get("---\nk: 'it''s'\n---\n", "k").expect("get succeeds"),
        Some(scalar("it's"))
    );
}

#[test]
fn get_reads_an_inline_list() {
    assert_eq!(
        frontmatter::get("---\nk: [a, \"b c\", 'd']\n---\n", "k").expect("get succeeds"),
        Some(listed(&["a", "b c", "d"]))
    );
}

#[test]
fn get_reads_an_empty_inline_list() {
    assert_eq!(
        frontmatter::get("---\nk: []\n---\n", "k").expect("get succeeds"),
        Some(listed(&[]))
    );
    assert_eq!(
        frontmatter::get("---\nk: [ ]\n---\n", "k").expect("get succeeds"),
        Some(listed(&[]))
    );
}

#[test]
fn get_reads_a_block_list() {
    assert_eq!(
        frontmatter::get("---\nk:\n  - a\n  - b c\n---\n", "k").expect("get succeeds"),
        Some(listed(&["a", "b c"]))
    );
}

#[test]
fn get_reads_a_bare_dash_as_an_empty_item() {
    assert_eq!(
        frontmatter::get("---\nk:\n  - a\n  -\n---\n", "k").expect("get succeeds"),
        Some(listed(&["a", ""]))
    );
}

#[test]
fn get_reads_a_zero_indent_list() {
    assert_eq!(
        frontmatter::get("---\nk:\n- a\n- b\n---\n", "k").expect("get succeeds"),
        Some(listed(&["a", "b"]))
    );
}

#[test]
fn get_ignores_non_property_lines() {
    let text = "---\n# comment\n\n: v\nplain\nk:value\nk2: x\n---\n";
    assert_eq!(frontmatter::get(text, "k2").expect("get succeeds"), Some(scalar("x")));
    assert_eq!(frontmatter::get(text, "k").expect("get succeeds"), None);
}

#[test]
fn get_reads_around_separating_lines() {
    let text = "---\na:\n  - x\n\n# note\nb: y\n---\n";
    assert_eq!(frontmatter::get(text, "a").expect("get succeeds"), Some(listed(&["x"])));
    assert_eq!(frontmatter::get(text, "b").expect("get succeeds"), Some(scalar("y")));
}

#[test]
fn get_errors_on_duplicates() {
    let error = frontmatter::get("---\nk: a\nk: b\n---\n", "k").expect_err("duplicates fail");
    assert_eq!(error.message(), "multiple properties named \"k\"");
}

#[test]
fn get_reads_past_other_keys_duplicates() {
    assert_eq!(
        frontmatter::get("---\nk: a\nk: b\nother: v\n---\n", "other").expect("get succeeds"),
        Some(scalar("v"))
    );
}

fn opaque_error(text: &str) {
    let error = frontmatter::get(text, "k").expect_err("out-of-subset value fails");
    assert_eq!(
        error.message(),
        "property \"k\" is not a text or list value"
    );
}

#[test]
fn get_rejects_a_nested_mapping() {
    opaque_error("---\nk:\n  sub: x\n---\n");
}

/// A list item that is itself YAML structure — a mapping, a
/// sequence, a flow collection — must stay opaque, or an edit would
/// rewrite it as a quoted string.
#[test]
fn get_rejects_structured_list_items() {
    opaque_error("---\nk:\n  - name: Alice\n---\n");
    opaque_error("---\nk:\n  - - a\n---\n");
    opaque_error("---\nk:\n  - [a, b]\n---\n");
    opaque_error("---\nk: [a: b]\n---\n");
}

#[test]
fn get_rejects_a_scalar_holding_a_mapping() {
    opaque_error("---\nk: a: b\n---\n");
    opaque_error("---\nk: ends:\n---\n");
}

/// YAML reads a tab as separator whitespace, so an unquoted tab
/// cannot be trusted as part of a plain value.
#[test]
fn get_rejects_a_plain_value_with_a_tab() {
    opaque_error("---\nk: a\tb\n---\n");
    opaque_error("---\nk:\n  - a\tb\n---\n");
}

/// A control character has no writable spelling in the subset and
/// could drive the reader's terminal, so it stays opaque however it
/// is quoted.
#[test]
fn get_rejects_values_holding_control_characters() {
    opaque_error("---\nk: a\u{7}b\n---\n");
    opaque_error("---\nk: \"a\u{7}b\"\n---\n");
    opaque_error("---\nk: 'a\u{1b}[31mb'\n---\n");
}

/// A dash is only YAML syntax as a bare `-` or a `- ` prefix, so a
/// negative number reads as the text it is and round-trips unquoted,
/// keeping its number reading.
#[test]
fn get_reads_negative_numbers_as_plain_text() {
    assert_eq!(
        frontmatter::get("---\nk: -1\n---\n", "k").expect("get succeeds"),
        Some(scalar("-1"))
    );
    assert_eq!(
        frontmatter::get("---\nk:\n  - -1\n---\n", "k").expect("get succeeds"),
        Some(listed(&["-1"]))
    );
}

/// A column-zero line the parser does not read as a key — a stray
/// word, a lone quoted scalar — is its own line, never part of the
/// property above it, so editing that property leaves it untouched.
#[test]
fn edits_leave_unrecognized_neighbor_lines_alone() {
    let text = "---\nk: old\nplain stray\nnext: kept\n---\nbody\n";
    assert_eq!(frontmatter::get(text, "k").expect("get succeeds"), Some(scalar("old")));
    assert_eq!(
        frontmatter::set(text, "k", "new").expect("set succeeds"),
        "---\nk: new\nplain stray\nnext: kept\n---\nbody\n"
    );
    assert_eq!(
        frontmatter::unset(text, "k").expect("unset succeeds"),
        "---\nplain stray\nnext: kept\n---\nbody\n"
    );
    assert_eq!(
        frontmatter::get("---\nk: v\nstray\n---\n", "k").expect("get succeeds"),
        Some(scalar("v"))
    );
}

/// A quoted key names the same property as its plain spelling:
/// lookups find it, an edit rewrites it in canonical plain form, and
/// a plain twin collides as the duplicate it is.
#[test]
fn quoted_keys_name_the_property_they_spell() {
    let text = "---\n\"status\": old\n---\n";
    assert_eq!(
        frontmatter::get(text, "status").expect("get succeeds"),
        Some(scalar("old"))
    );
    assert_eq!(
        frontmatter::set(text, "status", "new").expect("set succeeds"),
        "---\nstatus: new\n---\n"
    );
    frontmatter::get("---\n\"status\": a\nstatus: b\n---\n", "status").expect_err("duplicates fail");
    assert_eq!(
        frontmatter::get("---\n'it''s': v\n---\n", "it's").expect("get succeeds"),
        Some(scalar("v"))
    );
    assert_eq!(
        frontmatter::get("---\n\"tags\":\n  - a\n---\n", "tags").expect("get succeeds"),
        Some(listed(&["a"]))
    );
    assert_eq!(
        frontmatter::get("---\n\"padded\" : v\n---\n", "padded").expect("get succeeds"),
        Some(scalar("v"))
    );
}

/// A quote without a colon directly after it is a value or a stray
/// line, not a key: past the block's property root, it stays raw and
/// edits leave it alone.
#[test]
fn quoted_lines_without_a_colon_stay_raw() {
    let text = "---\nfirst: p\n\"just a scalar\"\n\"\": odd\n\"q\" x: v\nk: v\n---\n";
    assert_eq!(frontmatter::get(text, "k").expect("get succeeds"), Some(scalar("v")));
    assert_eq!(
        frontmatter::set(text, "k", "w").expect("set succeeds"),
        "---\nfirst: p\n\"just a scalar\"\n\"\": odd\n\"q\" x: v\nk: w\n---\n"
    );
}

/// A list item can only continue a key line with no inline value; a
/// dash line after a scalar is its own line and survives edits.
#[test]
fn edits_leave_a_dash_line_after_a_scalar_alone() {
    let text = "---\nk: old\n- stray\nnext: kept\n---\n";
    assert_eq!(frontmatter::get(text, "k").expect("get succeeds"), Some(scalar("old")));
    assert_eq!(
        frontmatter::set(text, "k", "new").expect("set succeeds"),
        "---\nk: new\n- stray\nnext: kept\n---\n"
    );
}

#[test]
fn get_rejects_inline_items_holding_control_characters() {
    opaque_error("---\nk: [a\u{7}b]\n---\n");
}

/// YAML trims whitespace between a key and its colon, so kladde must
/// find the property under its trimmed name.
#[test]
fn get_trims_whitespace_before_the_colon() {
    assert_eq!(
        frontmatter::get("---\nstatus : draft\n---\n", "status").expect("get succeeds"),
        Some(scalar("draft"))
    );
    frontmatter::get("---\nstatus : a\nstatus: b\n---\n", "status").expect_err("duplicates fail");
}

#[test]
fn set_replaces_a_property_spelled_with_padding() {
    assert_eq!(
        frontmatter::set("---\nstatus : draft\n---\n", "status", "done").expect("set succeeds"),
        "---\nstatus: done\n---\n"
    );
}

#[test]
fn get_rejects_a_scalar_with_continuation_lines() {
    opaque_error("---\nk: v\n  continued\n---\n");
}

#[test]
fn get_rejects_block_scalars() {
    opaque_error("---\nk: |\n  text\n---\n");
    opaque_error("---\nk: >\n  text\n---\n");
    opaque_error("---\nk: |\n---\n");
}

#[test]
fn get_rejects_an_inline_mapping() {
    opaque_error("---\nk: {a: b}\n---\n");
}

#[test]
fn get_rejects_an_inline_comment() {
    opaque_error("---\nk: v # note\n---\n");
}

#[test]
fn get_rejects_yaml_syntax_starts() {
    opaque_error("---\nk: &anchor\n---\n");
    opaque_error("---\nk: *alias\n---\n");
}

#[test]
fn get_rejects_bad_escapes() {
    opaque_error("---\nk: \"a \\q\"\n---\n");
}

/// Every double-quote escape decodes, so an escaped spelling is the
/// same logical text as its plain twin.
#[test]
fn double_quoted_escapes_decode() {
    let cases = [
        ("\\/", "/"),
        ("\\ ", " "),
        ("\\t", "\t"),
        ("\\_", "\u{a0}"),
        ("\\x41", "A"),
        ("\\u0064", "d"),
        ("\\U0001F4DD", "\u{1f4dd}"),
    ];
    for (escape, decoded) in cases {
        let text = format!("---\nk: \"a{escape}b\"\n---\n");
        assert_eq!(
            frontmatter::get(&text, "k").expect("get succeeds"),
            Some(scalar(&format!("a{decoded}b"))),
            "for {escape}"
        );
    }
}

/// An escape that decodes to a forbidden character is out of the
/// subset, exactly like the raw form would be; the line and
/// paragraph separators count, since older YAML readers break lines
/// on them.
#[test]
fn control_escapes_stay_opaque() {
    for escape in [
        "\\0", "\\a", "\\b", "\\n", "\\v", "\\f", "\\r", "\\e", "\\N", "\\L", "\\P",
    ] {
        opaque_error(&format!("---\nk: \"a{escape}b\"\n---\n"));
    }
}

#[test]
fn bad_hex_escapes_stay_opaque() {
    opaque_error("---\nk: \"\\uZZZZ\"\n---\n");
    opaque_error("---\nk: \"\\u00\"\n---\n");
    opaque_error("---\nk: \"\\uD800\"\n---\n");
}

/// An escaped spelling of a key collides with its plain twin instead
/// of slipping past duplicate detection.
#[test]
fn escaped_quoted_keys_collide_with_their_plain_twin() {
    assert_eq!(
        frontmatter::get("---\n\"up\\u0064ated\": old\n---\n", "updated").expect("get succeeds"),
        Some(scalar("old"))
    );
    frontmatter::get("---\n\"up\\u0064ated\": a\nupdated: b\n---\n", "updated")
        .expect_err("duplicates fail");
    assert_eq!(
        frontmatter::set("---\n\"up\\u0064ated\": old\n---\n", "updated", "new").expect("set succeeds"),
        "---\nupdated: new\n---\n"
    );
}

#[test]
fn get_rejects_unterminated_quotes() {
    opaque_error("---\nk: \"a\n---\n");
    opaque_error("---\nk: 'a\n---\n");
}

#[test]
fn get_rejects_content_after_a_quote() {
    opaque_error("---\nk: \"a\" b\n---\n");
    opaque_error("---\nk: 'a' b\n---\n");
}

#[test]
fn get_rejects_nested_inline_lists() {
    opaque_error("---\nk: [[a], b]\n---\n");
    opaque_error("---\nk: [a, {b: c}]\n---\n");
}

#[test]
fn get_rejects_a_dangling_comma() {
    opaque_error("---\nk: [a,]\n---\n");
    opaque_error("---\nk: [a, , b]\n---\n");
}

#[test]
fn get_rejects_an_unbalanced_bracket() {
    opaque_error("---\nk: [a\n---\n");
}

#[test]
fn get_rejects_content_after_a_quoted_item() {
    opaque_error("---\nk: [\"a\" b]\n---\n");
}

#[test]
fn get_rejects_mixed_list_indent() {
    opaque_error("---\nk:\n  - a\n    - b\n---\n");
}

#[test]
fn get_rejects_an_interior_comment_in_a_list() {
    opaque_error("---\nk:\n  - a\n  # note\n  - b\n---\n");
}

#[test]
fn get_rejects_an_interior_blank_in_a_list() {
    opaque_error("---\nk:\n  - a\n\n  - b\n---\n");
}

#[test]
fn get_rejects_an_item_with_an_inline_comment() {
    opaque_error("---\nk:\n  - a # note\n---\n");
}

#[test]
fn keys_are_validated_uniformly() {
    let cases = [
        ("", "it is empty"),
        ("a:b", "it contains a colon"),
        ("a#b", "it contains a hash"),
        ("a\nb", "it contains a line break"),
        ("a\tb", "it contains an unprintable character"),
        ("a\u{fffe}b", "it contains an unprintable character"),
        ("a\u{2028}b", "it contains an unprintable character"),
        (" a", "it has leading or trailing whitespace"),
        ("-a", "it starts with a character YAML reserves"),
        ("\"a", "it starts with a character YAML reserves"),
        ("@a", "it starts with a character YAML reserves"),
        ("*a", "it starts with a character YAML reserves"),
        ("[a", "it starts with a character YAML reserves"),
    ];
    for (key, reason) in cases {
        let error = frontmatter::get("---\n---\n", key).expect_err("invalid key fails");
        let message = error.message();
        assert!(message.starts_with("invalid property key"), "{message}");
        assert!(message.ends_with(reason), "{message}");
    }
}

#[test]
fn values_must_be_single_lines() {
    let error = frontmatter::set("", "k", "a\nb").expect_err("multiline value fails");
    assert_eq!(
        error.message(),
        "property values are single lines, got \"a\\nb\""
    );
    frontmatter::add("", "k", "a\rb").expect_err("multiline item fails");
    frontmatter::remove("", "k", "a\nb").expect_err("multiline item fails");
}

/// A tab is the one control character a value may hold: it survives
/// inside quotes, while the rest have no escape in the subset.
#[test]
fn values_cannot_hold_other_control_characters() {
    let error = frontmatter::set("", "k", "a\u{7}b").expect_err("control character fails");
    assert_eq!(
        error.message(),
        "property values cannot hold unprintable characters, got \"a\\u{7}b\""
    );
    frontmatter::add("", "k", "a\u{8}b").expect_err("control item fails");
    frontmatter::remove("", "k", "a\u{7}b").expect_err("control item fails");
    frontmatter::set("", "k", "a\tb").expect("a tab is allowed");
}

/// The two noncharacters YAML's printable set excludes, and the two
/// separators older YAML readers break lines on, are rejected like
/// controls — on the way in and on the way out.
#[test]
fn noncharacters_and_line_separators_are_forbidden() {
    frontmatter::set("", "k", "a\u{fffe}b").expect_err("noncharacter fails");
    frontmatter::add("", "k", "a\u{ffff}b").expect_err("noncharacter item fails");
    frontmatter::set("", "k", "a\u{2028}b").expect_err("line separator fails");
    frontmatter::set("", "k", "a\u{2029}b").expect_err("paragraph separator fails");
    opaque_error("---\nk: a\u{fffe}b\n---\n");
    opaque_error("---\nk: a\u{2028}b\n---\n");
    opaque_error("---\nk: \"\\uFFFF\"\n---\n");
}

/// A stamp cannot be built from parts a property could not hold, so
/// holding one proves it renders cleanly.
#[test]
fn stamps_are_validated_at_construction() {
    Stamp::new("a:b", "updated", "T").expect_err("bad created key fails");
    Stamp::new("created", "-a", "T").expect_err("bad updated key fails");
    Stamp::new("created", "updated", "T\nx: y").expect_err("multiline timestamp fails");
}

/// A block rooted in anything but property lines — a flow value, a
/// bare scalar, a block sequence — is preserved whole: writing
/// property lines into it would corrupt the value, so edits refuse
/// and stamping skips.
#[test]
fn foreign_rooted_blocks_are_never_edited_or_stamped() {
    let text = "---\n{foo: bar}\n---\nbody\n";
    let error = frontmatter::set(text, "k", "v").expect_err("set refuses");
    assert_eq!(
        error.message(),
        "the frontmatter is a single value, not properties"
    );
    frontmatter::add(text, "k", "a").expect_err("add refuses");
    frontmatter::unset(text, "k").expect_err("unset refuses");
    assert_eq!(frontmatter::stamped(text, true, &stamp()), text);
    let mixed = "---\n- item\nk: v\n---\n";
    frontmatter::unset(mixed, "k").expect_err("unset refuses a trailing property");
    frontmatter::remove(mixed, "k", "a").expect_err("remove refuses a trailing property");
    frontmatter::set("---\n[a, b]\n---\n", "k", "v").expect_err("flow sequence root refuses");
    frontmatter::set("---\n# c\n{foo: bar}\n---\n", "k", "v").expect_err("commented flow root refuses");
    let sequence = "---\n- a\n- b\n---\n";
    frontmatter::set(sequence, "k", "v").expect_err("block sequence root refuses");
    assert_eq!(frontmatter::stamped(sequence, true, &stamp()), sequence);
    let scalar_root = "---\njust a scalar\n---\n";
    frontmatter::add(scalar_root, "k", "a").expect_err("scalar root refuses");
    assert_eq!(frontmatter::stamped(scalar_root, true, &stamp()), scalar_root);
    let anchored = "---\n&props {foo: bar}\n---\n";
    frontmatter::set(anchored, "k", "v").expect_err("anchored flow root refuses");
    assert_eq!(frontmatter::stamped(anchored, true, &stamp()), anchored);
    frontmatter::set("---\n!!map {foo: bar}\n---\n", "k", "v").expect_err("tagged flow root refuses");
}

/// Commentary never decides the root, whatever its indent: a block
/// opening with an indented comment is still a property block.
#[test]
fn indented_root_comments_do_not_make_a_block_foreign() {
    assert_eq!(
        frontmatter::set("---\n  # note\na: x\n---\n", "k", "v").expect("set succeeds"),
        "---\n  # note\na: x\nk: v\n---\n"
    );
}

/// An indented comment after a completed value is a standalone
/// comment, not the property's content: edits leave it in place.
/// Only a value-bearing extent, like a block scalar, owns one.
#[test]
fn indented_comments_after_a_value_stand_alone() {
    let text = "---\nk: old\n  # keep\nnext: v\n---\n";
    assert_eq!(frontmatter::get(text, "k").expect("get succeeds"), Some(scalar("old")));
    assert_eq!(
        frontmatter::set(text, "k", "new").expect("set succeeds"),
        "---\nk: new\n  # keep\nnext: v\n---\n"
    );
    assert_eq!(
        frontmatter::unset(text, "k").expect("unset succeeds"),
        "---\n  # keep\nnext: v\n---\n"
    );
}

/// A no-break space is content, not separation: a key ending in one
/// is a different key, a line starting with one is its own line, and
/// a value keeps its wide whitespace through a round trip.
#[test]
fn unicode_whitespace_is_content_not_separation() {
    let text = "---\na\u{a0}: kept\n---\n";
    assert_eq!(frontmatter::get(text, "a").expect("get succeeds"), None);
    assert_eq!(
        frontmatter::set(text, "a", "v").expect("set succeeds"),
        "---\na\u{a0}: kept\na: v\n---\n"
    );
    let neighbor = "---\nk: v\n\u{a0}x: y\n---\n";
    assert_eq!(frontmatter::get(neighbor, "k").expect("get succeeds"), Some(scalar("v")));
    assert_eq!(
        frontmatter::set(neighbor, "k", "w").expect("set succeeds"),
        "---\nk: w\n\u{a0}x: y\n---\n"
    );
    assert_eq!(
        frontmatter::get("---\nk: \u{a0}v\u{a0}\n---\n", "k").expect("get succeeds"),
        Some(scalar("\u{a0}v\u{a0}"))
    );
    let wide = "---\nk: \u{a0}\n- raw\n---\n";
    assert_eq!(
        frontmatter::get(wide, "k").expect("get succeeds"),
        Some(scalar("\u{a0}"))
    );
    assert_eq!(
        frontmatter::set(wide, "k", "new").expect("set succeeds"),
        "---\nk: new\n- raw\n---\n"
    );
}

/// YAML rejects a tab as indentation, so a tab-indented extent is
/// outside the subset.
#[test]
fn get_rejects_tab_indented_lists() {
    opaque_error("---\nk:\n\t- a\n---\n");
}

/// A trailing indented comment belongs to the extent above it, where
/// a block scalar owns it as content: edits take it with the
/// property instead of leaving half the value behind.
#[test]
fn block_scalar_content_stays_with_its_property() {
    assert_eq!(
        frontmatter::set("---\nk: |\n  value\n  # literal\n---\n", "k", "new").expect("set succeeds"),
        "---\nk: new\n---\n"
    );
    assert_eq!(
        frontmatter::unset("---\nk: |\n  value\n  # literal\n---\nbody\n", "k").expect("unset succeeds"),
        "body\n"
    );
    opaque_error("---\nk:\n  - a\n  # trailing\n---\n");
}

/// YAML reads a tab after the colon as the separator, exactly like a
/// space: the property is visible to lookups, duplicate detection,
/// and edits, which rewrite it canonically.
#[test]
fn tabs_after_the_colon_separate_like_spaces() {
    assert_eq!(
        frontmatter::get("---\nk:\tv\n---\n", "k").expect("get succeeds"),
        Some(scalar("v"))
    );
    frontmatter::get("---\nk:\ta\nk: b\n---\n", "k").expect_err("duplicates fail");
    assert_eq!(
        frontmatter::set("---\nk:\told\n---\n", "k", "new").expect("set succeeds"),
        "---\nk: new\n---\n"
    );
    assert_eq!(
        frontmatter::get("---\n\"k\":\tv\n---\n", "k").expect("get succeeds"),
        Some(scalar("v"))
    );
}

#[test]
fn set_creates_a_block_on_an_empty_note() {
    assert_eq!(frontmatter::set("", "k", "v").expect("set succeeds"), "---\nk: v\n---\n");
}

#[test]
fn set_creates_a_block_above_a_body() {
    assert_eq!(
        frontmatter::set("body\n", "k", "v").expect("set succeeds"),
        "---\nk: v\n---\nbody\n"
    );
}

#[test]
fn set_prepends_above_a_body_starting_with_a_fence() {
    assert_eq!(
        frontmatter::set("---\nnot closed\n", "k", "v").expect("set succeeds"),
        "---\nk: v\n---\n---\nnot closed\n"
    );
}

/// Measured empirically: an empty block is recognized as
/// frontmatter, so a property lands inside it, never in a second
/// block.
#[test]
fn set_reuses_an_empty_block() {
    assert_eq!(
        frontmatter::set("---\n---\nbody\n", "k", "v").expect("set succeeds"),
        "---\nk: v\n---\nbody\n"
    );
}

#[test]
fn set_replaces_in_place_and_preserves_neighbors() {
    let text = "---\na: 'kept'\n# note\nk: old\nz:\n  - kept\n---\nbody\n";
    assert_eq!(
        frontmatter::set(text, "k", "new").expect("set succeeds"),
        "---\na: 'kept'\n# note\nk: new\nz:\n  - kept\n---\nbody\n"
    );
}

#[test]
fn set_overwrites_a_list() {
    assert_eq!(
        frontmatter::set("---\nk:\n  - a\n---\n", "k", "v").expect("set succeeds"),
        "---\nk: v\n---\n"
    );
}

#[test]
fn set_overwrites_an_opaque_value() {
    assert_eq!(
        frontmatter::set("---\nk:\n  sub: x\n---\n", "k", "v").expect("set succeeds"),
        "---\nk: v\n---\n"
    );
}

#[test]
fn set_appends_a_new_property_at_the_end() {
    assert_eq!(
        frontmatter::set("---\na: x\n---\n", "b", "y").expect("set succeeds"),
        "---\na: x\nb: y\n---\n"
    );
}

#[test]
fn set_errors_on_duplicates() {
    frontmatter::set("---\nk: a\nk: b\n---\n", "k", "v").expect_err("duplicates fail");
}

#[test]
fn set_quotes_only_when_needed() {
    let cases = [
        ("", "k: \"\""),
        (" padded ", "k: \" padded \""),
        ("[[Link]]", "k: \"[[Link]]\""),
        ("a: b", "k: \"a: b\""),
        ("ends:", "k: \"ends:\""),
        ("a #b", "k: \"a #b\""),
        ("-x", "k: -x"),
        ("-1", "k: -1"),
        ("-", "k: \"-\""),
        ("- x", "k: \"- x\""),
        ("a\tb", "k: \"a\tb\""),
        ("\u{a0}v\u{a0}", "k: \u{a0}v\u{a0}"),
        ("a\"b\\c", "k: a\"b\\c"),
        ("x: a\"b\\c", "k: \"x: a\\\"b\\\\c\""),
        ("true", "k: true"),
        ("123", "k: 123"),
        ("2026-08-05", "k: 2026-08-05"),
        ("plain text", "k: plain text"),
    ];
    for (value, line) in cases {
        let text = frontmatter::set("", "k", value).expect("set succeeds");
        assert_eq!(text, format!("---\n{line}\n---\n"));
        assert_eq!(frontmatter::get(&text, "k").expect("get succeeds"), Some(scalar(value)));
    }
}

#[test]
fn set_keeps_a_crlf_block_crlf() {
    let text = "---\r\na: x\r\n---\r\nbody\r\n";
    assert_eq!(
        frontmatter::set(text, "k", "v").expect("set succeeds"),
        "---\r\na: x\r\nk: v\r\n---\r\nbody\r\n"
    );
}

#[test]
fn set_keeps_a_byte_order_mark() {
    assert_eq!(
        frontmatter::set("\u{feff}---\na: x\n---\n", "k", "v").expect("set succeeds"),
        "\u{feff}---\na: x\nk: v\n---\n"
    );
}

/// A new block lands after the byte order mark, never above it: a
/// BOM belongs at byte zero, and a fence still parses after one.
#[test]
fn set_creates_the_block_after_a_byte_order_mark() {
    assert_eq!(
        frontmatter::set("\u{feff}body\n", "k", "v").expect("set succeeds"),
        "\u{feff}---\nk: v\n---\nbody\n"
    );
}

#[test]
fn unset_removes_the_property() {
    assert_eq!(
        frontmatter::unset("---\na: x\nk: v\n---\nbody\n", "k").expect("unset succeeds"),
        "---\na: x\n---\nbody\n"
    );
}

#[test]
fn unset_removes_the_fences_with_the_last_property() {
    assert_eq!(
        frontmatter::unset("---\nk: v\n---\nbody\n", "k").expect("unset succeeds"),
        "body\n"
    );
}

#[test]
fn unset_keeps_fences_holding_other_lines() {
    assert_eq!(
        frontmatter::unset("---\n# note\nk: v\n---\n", "k").expect("unset succeeds"),
        "---\n# note\n---\n"
    );
}

/// Dropping the fences must never promote body text into
/// frontmatter: a body that reads as a block keeps an empty block
/// fencing it off.
#[test]
fn unset_keeps_fences_when_the_body_reads_as_a_block() {
    assert_eq!(
        frontmatter::unset("---\nk: v\n---\n---\nevil: y\n---\nbody\n", "k").expect("unset succeeds"),
        "---\n---\n---\nevil: y\n---\nbody\n"
    );
    assert_eq!(
        frontmatter::get(
            &frontmatter::unset("---\nk: v\n---\n---\nevil: y\n---\nbody\n", "k").expect("unset succeeds"),
            "evil"
        )
        .expect("get succeeds"),
        None
    );
}

#[test]
fn unset_of_a_missing_property_changes_nothing() {
    let text = "---\na: x\n---\nweird  bytes\n";
    assert_eq!(frontmatter::unset(text, "k").expect("unset succeeds"), text);
    assert_eq!(
        frontmatter::unset("no block\n", "k").expect("unset succeeds"),
        "no block\n"
    );
}

#[test]
fn unset_errors_on_duplicates() {
    frontmatter::unset("---\nk: a\nk: b\n---\n", "k").expect_err("duplicates fail");
}

#[test]
fn add_creates_the_block_and_the_list() {
    assert_eq!(
        frontmatter::add("", "k", "a").expect("add succeeds"),
        "---\nk:\n  - a\n---\n"
    );
}

#[test]
fn add_appends_to_an_existing_list() {
    assert_eq!(
        frontmatter::add("---\nk:\n  - a\n---\n", "k", "b").expect("add succeeds"),
        "---\nk:\n  - a\n  - b\n---\n"
    );
}

#[test]
fn add_rewrites_an_inline_list_in_block_style() {
    assert_eq!(
        frontmatter::add("---\nk: [a]\n---\n", "k", "b").expect("add succeeds"),
        "---\nk:\n  - a\n  - b\n---\n"
    );
}

#[test]
fn add_fills_an_empty_list() {
    assert_eq!(
        frontmatter::add("---\nk: []\n---\n", "k", "a").expect("add succeeds"),
        "---\nk:\n  - a\n---\n"
    );
}

#[test]
fn add_of_a_present_item_changes_nothing() {
    let text = "---\nk: [a]\n---\n";
    assert_eq!(frontmatter::add(text, "k", "a").expect("add succeeds"), text);
}

#[test]
fn add_quotes_items_that_need_it() {
    assert_eq!(
        frontmatter::add("", "k", "[[Link]]").expect("add succeeds"),
        "---\nk:\n  - \"[[Link]]\"\n---\n"
    );
}

#[test]
fn add_rejects_a_text_property() {
    let error = frontmatter::add("---\nk: v\n---\n", "k", "a").expect_err("text property fails");
    assert_eq!(error.message(), "property \"k\" is not a list");
}

#[test]
fn add_rejects_an_opaque_property() {
    frontmatter::add("---\nk:\n  sub: x\n---\n", "k", "a").expect_err("opaque fails");
}

#[test]
fn add_errors_on_duplicates() {
    frontmatter::add("---\nk: [a]\nk: [b]\n---\n", "k", "c").expect_err("duplicates fail");
}

#[test]
fn remove_removes_an_item() {
    assert_eq!(
        frontmatter::remove("---\nk:\n  - a\n  - b\n---\n", "k", "a").expect("remove succeeds"),
        "---\nk:\n  - b\n---\n"
    );
}

#[test]
fn remove_of_the_last_item_leaves_an_empty_list() {
    assert_eq!(
        frontmatter::remove("---\nk:\n  - a\n---\n", "k", "a").expect("remove succeeds"),
        "---\nk: []\n---\n"
    );
}

#[test]
fn remove_of_an_absent_item_changes_nothing() {
    let text = "---\nk:\n  - a\n---\n";
    assert_eq!(frontmatter::remove(text, "k", "b").expect("remove succeeds"), text);
    assert_eq!(
        frontmatter::remove("---\nk: []\n---\n", "k", "a").expect("remove succeeds"),
        "---\nk: []\n---\n"
    );
}

#[test]
fn remove_of_a_missing_property_changes_nothing() {
    assert_eq!(
        frontmatter::remove("body\n", "k", "a").expect("remove succeeds"),
        "body\n"
    );
    assert_eq!(
        frontmatter::remove("---\na: x\n---\n", "k", "a").expect("remove succeeds"),
        "---\na: x\n---\n"
    );
}

#[test]
fn remove_rejects_a_text_property() {
    frontmatter::remove("---\nk: v\n---\n", "k", "a").expect_err("text property fails");
}

fn stamp() -> Stamp<'static> {
    Stamp::new(DEFAULT_CREATED_KEY, DEFAULT_UPDATED_KEY, "T").expect("stamp validates")
}

#[test]
fn has_block_detects_a_block() {
    assert!(frontmatter::has_block("---\n---\n"));
    assert!(!frontmatter::has_block("body\n"));
}

#[test]
fn stamped_creates_a_block_with_both_stamps() {
    assert_eq!(
        frontmatter::stamped("- x\n", false, &stamp()),
        "---\ncreated: T\nupdated: T\n---\n- x\n"
    );
}

#[test]
fn stamped_only_updates_an_existing_block() {
    assert_eq!(
        frontmatter::stamped("---\nk: v\nupdated: old\n---\n", true, &stamp()),
        "---\nk: v\nupdated: T\n---\n"
    );
    assert_eq!(
        frontmatter::stamped("---\nk: v\n---\n", true, &stamp()),
        "---\nk: v\nupdated: T\n---\n"
    );
}

/// A created stamp the same edit set by hand survives: the automatic
/// stamp only fills the key in when it is absent.
#[test]
fn stamped_preserves_a_manual_created_value() {
    assert_eq!(
        frontmatter::stamped("---\ncreated: mine\n---\n", false, &stamp()),
        "---\ncreated: mine\nupdated: T\n---\n"
    );
}

#[test]
fn stamped_never_resurrects_a_removed_block() {
    assert_eq!(frontmatter::stamped("body\n", true, &stamp()), "body\n");
}

#[test]
fn stamped_skips_notes_whose_stamp_keys_misbehave() {
    let duplicated = "---\nupdated: a\nupdated: b\n---\n";
    assert_eq!(frontmatter::stamped(duplicated, true, &stamp()), duplicated);
    let listed = "---\nupdated:\n  - a\n---\n";
    assert_eq!(frontmatter::stamped(listed, true, &stamp()), listed);
}

/// A quoted or tab-separated spelling of the updated key is the same
/// property, so the stamp replaces it instead of writing a duplicate
/// beside it.
#[test]
fn stamped_replaces_alternate_updated_spellings() {
    assert_eq!(
        frontmatter::stamped("---\n\"updated\": old\nk: v\n---\n", true, &stamp()),
        "---\nupdated: T\nk: v\n---\n"
    );
    assert_eq!(
        frontmatter::stamped("---\nupdated:\told\n---\n", true, &stamp()),
        "---\nupdated: T\n---\n"
    );
}

/// A misbehaving created key skips the whole stamp, updated
/// included: stamping is all or nothing.
#[test]
fn stamped_skips_wholly_when_the_created_key_misbehaves() {
    let listed = "---\ncreated:\n  - mine\n---\n";
    assert_eq!(frontmatter::stamped(listed, false, &stamp()), listed);
    let duplicated = "---\ncreated: a\ncreated: b\n---\n";
    assert_eq!(frontmatter::stamped(duplicated, false, &stamp()), duplicated);
}

#[test]
fn stamped_keeps_a_byte_order_mark_at_byte_zero() {
    assert_eq!(
        frontmatter::stamped("\u{feff}- x\n", false, &stamp()),
        "\u{feff}---\ncreated: T\nupdated: T\n---\n- x\n"
    );
}

#[test]
fn stamped_writes_one_line_when_the_keys_coincide() {
    let one = Stamp::new("touched", "touched", "T").expect("stamp validates");
    assert_eq!(frontmatter::stamped("- x\n", false, &one), "---\ntouched: T\n---\n- x\n");
}

/// Every canonical spelling survives parse and render byte for byte,
/// and every logical value survives a write and a read: the
/// composition of shapes and neighbors is generated rather than
/// enumerated.
#[test]
fn canonical_documents_round_trip() {
    let scalars = ["plain", "", "a: b", " padded ", "tr\"icky\\", "true"];
    let lists: [&[&str]; 3] = [&["one"], &["a", "b c", "[[link]]"], &[]];
    let neighbors = ["", "# note\n", "\n", "deep:\n  sub: x\n"];
    for neighbor in neighbors {
        let base = if neighbor.is_empty() {
            String::new()
        } else {
            format!("---\n{neighbor}---\nbody\n")
        };
        for value in scalars {
            let text = frontmatter::set(&base, "k", value).expect("set succeeds");
            assert_eq!(round_tripped(&text), text, "in {text:?}");
            assert_eq!(frontmatter::get(&text, "k").expect("get succeeds"), Some(scalar(value)));
            assert_eq!(frontmatter::set(&text, "k", value).expect("set succeeds"), text);
        }
        for items in lists {
            let mut text = frontmatter::add(&base, "k", "seed").expect("add succeeds");
            for item in items {
                text = frontmatter::add(&text, "k", item).expect("add succeeds");
            }
            text = frontmatter::remove(&text, "k", "seed").expect("remove succeeds");
            assert_eq!(round_tripped(&text), text, "in {text:?}");
            assert_eq!(frontmatter::get(&text, "k").expect("get succeeds"), Some(listed(items)));
        }
    }
}

#[test]
fn add_to_inline_list_before_a_list_line_reads_opaque() {
    let text = "---\nk: [a]\n- x\n---\n";
    let added = frontmatter::add(text, "k", "b").expect("add succeeds");
    assert_eq!(added, "---\nk:\n  - a\n  - b\n- x\n---\n");
    frontmatter::get(&added, "k").expect_err("the regrouped block no longer reads");
}

#[test]
fn add_twice_writes_what_the_first_add_wrote() {
    let once = frontmatter::add("---\nk:\n  - a\n---\n", "k", "b").expect("add succeeds");
    assert_eq!(once, "---\nk:\n  - a\n  - b\n---\n");
    assert_eq!(frontmatter::add(&once, "k", "b").expect("add succeeds"), once);
}

#[test]
fn stamped_stamps_read_back_as_the_timestamp() {
    let stamp = Stamp::new("made", "touched", "2026-01-02").expect("stamp builds");
    let out = frontmatter::stamped("body\n", false, &stamp);
    assert_eq!(frontmatter::get(&out, "made").expect("get succeeds"), Some(scalar("2026-01-02")));
    assert_eq!(frontmatter::get(&out, "touched").expect("get succeeds"), Some(scalar("2026-01-02")));
    let kept = frontmatter::stamped("---\nmade: old\n---\n", true, &stamp);
    assert_eq!(frontmatter::get(&kept, "made").expect("get succeeds"), Some(scalar("old")));
    assert_eq!(frontmatter::get(&kept, "touched").expect("get succeeds"), Some(scalar("2026-01-02")));
}
