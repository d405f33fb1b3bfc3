use jiff::civil::Time;

use kladde::template::{decimal, rendered};

fn render(template: &str, time: Time) -> String {
    rendered(template, jiff::civil::date(2026, 1, 5), time, "2026-01-05")
        .expect("template renders")
}

fn afternoon() -> Time {
    jiff::civil::time(14, 3, 9, 0)
}

#[test]
fn rendered_leaves_plain_text_alone() {
    assert_eq!(
        render("no variables here\n", afternoon()),
        "no variables here\n"
    );
    assert_eq!(render("", afternoon()), "");
}

#[test]
fn rendered_renders_the_default_variables() {
    assert_eq!(
        render("# {{title}}\n{{date}} {{time}}\n", afternoon()),
        "# 2026-01-05\n2026-01-05 14:03\n"
    );
}

#[test]
fn rendered_renders_every_date_token() {
    assert_eq!(
        render("{{date:YYYY YY MMMM MMM MM M DD D dddd ddd}}", afternoon()),
        "2026 26 January Jan 01 1 05 5 Monday Mon"
    );
}

#[test]
fn rendered_renders_every_time_token() {
    let cases = [
        (afternoon(), "14 14 02 2 03 3 09 9 PM pm"),
        (jiff::civil::time(9, 5, 7, 0), "09 9 09 9 05 5 07 7 AM am"),
        (
            jiff::civil::time(0, 30, 0, 0),
            "00 0 12 12 30 30 00 0 AM am",
        ),
        (
            jiff::civil::time(12, 0, 0, 0),
            "12 12 12 12 00 0 00 0 PM pm",
        ),
    ];
    for (time, expected) in cases {
        assert_eq!(
            render("{{time:HH H hh h mm m ss s A a}}", time),
            expected,
            "at {time}"
        );
    }
}

/// One renderer serves both variables: the split is only about the
/// default format, so date tokens work in `{{time:…}}` and clock
/// tokens in `{{date:…}}`.
#[test]
fn rendered_mixes_dates_and_times_in_either_variable() {
    assert_eq!(render("{{time:YYYY}} {{date:HH}}", afternoon()), "2026 14");
}

#[test]
fn rendered_keeps_bracket_literals() {
    assert_eq!(
        render("{{date:[on] dddd [at MM]}}", afternoon()),
        "on Monday at MM"
    );
    assert_eq!(render("{{date:[]YYYY}}", afternoon()), "2026");
}

#[test]
fn rendered_copies_format_punctuation_and_non_ascii() {
    assert_eq!(render("{{date:D. M. YYYY г}}", afternoon()), "5. 1. 2026 г");
}

#[test]
fn rendered_renders_an_empty_format_as_nothing() {
    assert_eq!(render("x{{date:}}y", afternoon()), "xy");
}

#[test]
fn rendered_passes_unknown_variables_through() {
    let template = "{{tags}} {{ date }} {{DATE}} {{title:x}}";
    assert_eq!(render(template, afternoon()), template);
}

#[test]
fn rendered_keeps_unclosed_braces() {
    assert_eq!(render("still {{date", afternoon()), "still {{date");
    assert_eq!(render("{{", afternoon()), "{{");
}

/// A stray opener swallows up to the next closer, so the variable
/// inside never renders; the text passes through unchanged, which is
/// the refusal-free reading of a malformed template.
#[test]
fn rendered_passes_a_stray_opener_through() {
    assert_eq!(render("x {{ y {{date}}", afternoon()), "x {{ y {{date}}");
}

#[test]
fn rendered_reports_an_unsupported_token() {
    let error = rendered(
        "{{date:Q}}",
        jiff::civil::date(2026, 1, 5),
        afternoon(),
        "t",
    )
    .expect_err("unsupported token fails");
    assert_eq!(
        error.message(),
        "the template format \"Q\" holds an unsupported token \"Q\""
    );
    let error = rendered(
        "{{time:hh:mm:YYYYY}}",
        jiff::civil::date(2026, 1, 5),
        afternoon(),
        "t",
    )
    .expect_err("overlong run fails");
    assert_eq!(
        error.message(),
        "the template format \"hh:mm:YYYYY\" holds an unsupported token \"YYYYY\""
    );
}

#[test]
fn rendered_reports_an_unclosed_bracket() {
    let error = rendered(
        "{{date:[oops}}",
        jiff::civil::date(2026, 1, 5),
        afternoon(),
        "t",
    )
    .expect_err("unclosed bracket fails");
    assert_eq!(
        error.message(),
        "the template format \"[oops\" has an unclosed '['"
    );
}

#[test]
fn rendered_uses_the_given_title() {
    assert_eq!(
        rendered(
            "{{title}}!",
            jiff::civil::date(2026, 1, 5),
            afternoon(),
            "My Note"
        )
        .expect("template renders"),
        "My Note!"
    );
}

#[test]
fn rendered_pads_a_negative_year_after_its_sign() {
    let text = rendered("{{date:YYYY YY}}", jiff::civil::date(-5, 1, 5), afternoon(), "t")
        .expect("template renders");
    assert_eq!(text, "-005 95");
}

#[test]
fn decimal_pads_to_the_width() {
    assert_eq!(decimal(7, 2), vec!['0', '7']);
    assert_eq!(decimal(123, 2), vec!['1', '2', '3']);
    assert_eq!(decimal(-42, 4), vec!['-', '0', '4', '2']);
    assert_eq!(decimal(0, 0), vec!['0']);
}

#[test]
fn seeding_hands_on_the_rendered_template_or_its_failure() {
    assert_eq!(kladde::template::seeding(&None), Ok(None));
    assert_eq!(kladde::template::seeding(&Some(Ok("seed".to_owned()))), Ok(Some("seed")));
    assert_eq!(kladde::template::seeding(&Some(Err("broken".to_owned()))), Err("broken"));
}
