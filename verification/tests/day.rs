use jiff::civil::{date, datetime, Date};
use kladde::day::{parse, Format, StampFormat, DEFAULT_FORMAT, DEFAULT_STAMP_FORMAT};

#[test]
fn format_renders_a_validated_format() {
    let format = Format::new("%Y/%m/%d").expect("format validates");
    assert_eq!(format.render(date(2026, 8, 4)), "2026/08/04");
    assert_eq!(format.as_str(), "%Y/%m/%d");
}

#[test]
fn format_default_is_iso() {
    assert_eq!(Format::default().render(date(2026, 8, 4)), "2026-08-04");
    assert_eq!(
        Format::default(),
        Format::new(DEFAULT_FORMAT).expect("default validates")
    );
}

#[test]
fn format_rejects_unknown_directives() {
    let error = Format::new("%Q").expect_err("unknown directive fails");
    assert!(error.message().contains("date format \"%Q\" is invalid"));
}

/// The probe is a date without a clock, so time-of-day directives are
/// rejected too.
#[test]
fn format_rejects_time_directives() {
    Format::new("%Y-%H").expect_err("time directive fails");
}

#[test]
fn format_rejects_an_empty_rendering() {
    let error = Format::new("").expect_err("empty format fails");
    assert!(error.message().contains("renders an empty file name"));
}

/// `%n` renders a real newline, which a file name may legally hold
/// on Unix — and which would then break the one-path-per-line
/// output of the listing commands, so it never gets that far.
#[test]
fn format_rejects_a_line_break_rendering() {
    let error = Format::new("%Y%n").expect_err("line break fails");
    assert!(
        error
            .message()
            .contains("renders a line break into a file name")
    );
}

#[test]
fn parse_accepts_today() {
    assert_eq!(
        parse("today", date(2026, 8, 4)).expect("parses"),
        date(2026, 8, 4)
    );
}

#[test]
fn parse_accepts_yesterday() {
    assert_eq!(
        parse("yesterday", date(2026, 8, 4)).expect("parses"),
        date(2026, 8, 3)
    );
    assert_eq!(
        parse("yesterday", date(2026, 3, 1)).expect("parses"),
        date(2026, 2, 28)
    );
}

#[test]
fn parse_saturates_yesterday_at_the_first_date() {
    assert_eq!(parse("yesterday", Date::MIN).expect("parses"), Date::MIN);
}

#[test]
fn parse_accepts_tomorrow() {
    assert_eq!(
        parse("tomorrow", date(2026, 8, 4)).expect("parses"),
        date(2026, 8, 5)
    );
    assert_eq!(
        parse("tomorrow", date(2026, 2, 28)).expect("parses"),
        date(2026, 3, 1)
    );
}

#[test]
fn parse_saturates_tomorrow_at_the_last_date() {
    assert_eq!(parse("tomorrow", Date::MAX).expect("parses"), Date::MAX);
}

#[test]
fn parse_accepts_iso_dates() {
    assert_eq!(
        parse("2026-01-05", date(2026, 8, 4)).expect("parses"),
        date(2026, 1, 5)
    );
}

/// jiff's strptime does not require zero padding; pin that laxness so a
/// change in jiff surfaces here rather than in the field.
#[test]
fn parse_accepts_unpadded_iso_dates() {
    assert_eq!(
        parse("2026-1-5", date(2026, 8, 4)).expect("parses"),
        date(2026, 1, 5)
    );
}

#[test]
fn parse_rejects_unknown_words() {
    let error = parse("someday", date(2026, 8, 4)).expect_err("word fails");
    assert!(error.message().contains("invalid date \"someday\""));
    assert!(
        error
            .message()
            .contains("expected today, yesterday, tomorrow")
    );
}

#[test]
fn parse_rejects_impossible_dates() {
    parse("2026-02-30", date(2026, 8, 4)).expect_err("bad calendar date fails");
}

#[test]
fn parse_rejects_trailing_input() {
    parse("2026-08-03T10:00", date(2026, 8, 4)).expect_err("datetime fails");
}

#[test]
fn stamp_format_renders_a_validated_format() {
    let format = StampFormat::new("%Y-%m-%dT%H:%M:%S").expect("format validates");
    assert_eq!(
        format.render(datetime(2026, 8, 5, 10, 11, 12, 0)),
        "2026-08-05T10:11:12"
    );
    assert_eq!(format.as_str(), "%Y-%m-%dT%H:%M:%S");
}

#[test]
fn stamp_format_default_is_the_datetime_shape() {
    assert_eq!(
        StampFormat::default(),
        StampFormat::new(DEFAULT_STAMP_FORMAT).expect("default validates")
    );
    assert_eq!(
        StampFormat::default().render(datetime(2026, 8, 5, 1, 2, 3, 0)),
        "2026-08-05T01:02:03"
    );
}

/// A date-only stamp format is allowed: it degrades to a date-shaped
/// value, not an error.
#[test]
fn stamp_format_accepts_date_only_formats() {
    let format = StampFormat::new("%Y-%m-%d").expect("format validates");
    assert_eq!(
        format.render(datetime(2026, 8, 5, 10, 11, 12, 0)),
        "2026-08-05"
    );
}

#[test]
fn stamp_format_rejects_unknown_directives() {
    let error = StampFormat::new("%Q").expect_err("unknown directive fails");
    assert!(
        error
            .message()
            .contains("timestamp format \"%Q\" is invalid")
    );
}

/// The probe is a civil datetime without a zone, so zone directives
/// are rejected.
#[test]
fn stamp_format_rejects_zone_directives() {
    StampFormat::new("%Y %Z").expect_err("zone directive fails");
}

#[test]
fn stamp_format_rejects_an_empty_rendering() {
    let error = StampFormat::new("").expect_err("empty format fails");
    assert!(error.message().contains("renders nothing"));
}

/// A stamp must stay a writable property value, so the rendering may
/// hold a tab and no other control character.
#[test]
fn stamp_format_rejects_control_renderings() {
    let error = StampFormat::new("%Y\n%m").expect_err("line break fails");
    assert!(
        error
            .message()
            .contains("renders an unprintable character")
    );
    StampFormat::new("%Y\r%m").expect_err("carriage return fails");
    StampFormat::new("a\u{7}b").expect_err("control character fails");
    StampFormat::new("a\u{fffe}b").expect_err("noncharacter fails");
    StampFormat::new("a\u{2028}b").expect_err("line separator fails");
    StampFormat::new("%H\t%M").expect("a tab is allowed");
}
