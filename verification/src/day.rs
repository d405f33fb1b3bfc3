//! Date formats for daily note file names and stamp values: a format is
//! accepted only once a probe rendering shows it renders cleanly.
use jiff::ToSpan;
use vstd::prelude::*;

use crate::frontmatter::scalar::{forbidden, holds_forbidden, holds_forbidden_character};
use crate::frontmatter::document::same_chars;
use crate::template::{day_of, month_of, year_of};
use crate::text::{chars_of, contains_char, has_char, push_all, string_of};

verus! {

/// Format for daily note file names when `daily-date-format` is unset.
pub const DEFAULT_FORMAT: &'static str = "%Y-%m-%d";

/// Format for stamp values when `stamp-format` is unset: a shape markdown
/// editors read as a date and time.
pub const DEFAULT_STAMP_FORMAT: &'static str = "%Y-%m-%dT%H:%M:%S";

/// What jiff's strftime-style formatting renders for `format` at the
/// given calendar date, or the message of the error it reports.
pub uninterp spec fn date_rendering(format: Seq<char>, year: int, month: int, day: int) -> Result<
    Seq<char>,
    Seq<char>,
>;

/// The rendering an outcome holds, `None` for a failure.
pub open spec fn rendering_of(r: Result<Seq<char>, Seq<char>>) -> Option<Seq<char>> {
    match r {
        Ok(s) => Some(s),
        Err(_) => None,
    }
}

/// The logical content of a rendering's outcome.
pub open spec fn text_outcome(r: Result<String, String>) -> Result<Seq<char>, Seq<char>> {
    match r {
        Ok(s) => Ok(s@),
        Err(m) => Err(m@),
    }
}

/// What jiff's strftime-style formatting renders for `format` at the
/// given civil datetime, no fraction of a second, or the message of the
/// error it reports.
pub uninterp spec fn datetime_rendering(
    format: Seq<char>,
    year: int,
    month: int,
    day: int,
    hour: int,
    minute: int,
    second: int,
) -> Result<Seq<char>, Seq<char>>;

/// Renders a calendar date through a strftime-style format; wraps
/// `jiff::fmt::strtime::format` on `jiff::civil::date`, which accepts the
/// given day of any month in range. A failure comes back as jiff's
/// message.
#[verifier::external_body]
fn render_date(format: &str, year: i16, month: i8, day: i8) -> (r: Result<String, String>)
    requires
        -9999 <= year <= 9999,
        1 <= month <= 12,
        1 <= day <= 28,
    ensures
        text_outcome(r) == date_rendering(format@, year as int, month as int, day as int),
{
    jiff::fmt::strtime::format(format, jiff::civil::date(year, month, day)).map_err(|e| e.to_string())
}

/// Renders a civil datetime through a strftime-style format; wraps
/// `jiff::fmt::strtime::format` on `jiff::civil::datetime`. A failure
/// comes back as jiff's message.
#[verifier::external_body]
fn render_datetime(
    format: &str,
    year: i16,
    month: i8,
    day: i8,
    hour: i8,
    minute: i8,
    second: i8,
) -> (r: Result<String, String>)
    requires
        -9999 <= year <= 9999,
        1 <= month <= 12,
        1 <= day <= 28,
        0 <= hour <= 23,
        0 <= minute <= 59,
        0 <= second <= 59,
    ensures
        text_outcome(r) == datetime_rendering(
            format@,
            year as int,
            month as int,
            day as int,
            hour as int,
            minute as int,
            second as int,
        ),
{
    jiff::fmt::strtime::format(format, jiff::civil::datetime(year, month, day, hour, minute, second, 0))
        .map_err(|e| e.to_string())
}

/// Failure while validating a date format.
#[derive(Debug)]
pub enum Error {
    Invalid { value: String, cause: String },
    InvalidFormat { value: String, cause: String },
    EmptyFormat { value: String },
    LineBreakFormat { value: String },
    InvalidStamp { value: String, cause: String },
    EmptyStamp { value: String },
    UnprintableStamp { value: String },
}

/// The probe date a daily format is validated on.
pub open spec fn probe_date(format: Seq<char>) -> Option<Seq<char>> {
    rendering_of(date_rendering(format, 2001, 2, 3))
}

/// The probe datetime a stamp format is validated on.
pub open spec fn probe_datetime(format: Seq<char>) -> Option<Seq<char>> {
    rendering_of(datetime_rendering(format, 2001, 2, 3, 4, 5, 6))
}

/// Whether a daily format renders the probe date to a non-empty single
/// line.
pub open spec fn valid_date_format(format: Seq<char>) -> bool {
    probe_date(format) matches Some(r) && r.len() > 0 && !has_char(r, '\n') && !has_char(r, '\r')
}

/// Whether a stamp format renders the probe datetime to a non-empty value
/// a property can hold.
pub open spec fn valid_stamp_format(format: Seq<char>) -> bool {
    probe_datetime(format) matches Some(r) && r.len() > 0 && !holds_forbidden(r)
}

/// Whether `e` is the error a daily format `value` is refused with: a
/// format that cannot render the probe date, one rendering nothing, or
/// one rendering a line break.
pub open spec fn format_refusal(value: Seq<char>, e: Error) -> bool {
    match probe_date(value) {
        None => e matches Error::InvalidFormat { value: v, cause: c } && v@ == value
            && date_rendering(value, 2001, 2, 3) == Err::<Seq<char>, Seq<char>>(c@),
        Some(r) => if r.len() == 0 {
            e matches Error::EmptyFormat { value: v } && v@ == value
        } else {
            e matches Error::LineBreakFormat { value: v } && v@ == value
        },
    }
}

/// Whether `e` is the error a stamp format `value` is refused with: a
/// format that cannot render the probe datetime, one rendering nothing,
/// or one rendering a character a property value cannot hold.
pub open spec fn stamp_refusal(value: Seq<char>, e: Error) -> bool {
    match probe_datetime(value) {
        None => e matches Error::InvalidStamp { value: v, cause: c } && v@ == value
            && datetime_rendering(value, 2001, 2, 3, 4, 5, 6) == Err::<Seq<char>, Seq<char>>(c@),
        Some(r) => if r.len() == 0 {
            e matches Error::EmptyStamp { value: v } && v@ == value
        } else {
            e matches Error::UnprintableStamp { value: v } && v@ == value
        },
    }
}

/// A strftime format proven, at construction, to render a date to a
/// non-empty file name.
#[derive(Debug, Clone, PartialEq, Eq)]
pub struct Format(String);

impl Format {
    /// The format as it was given.
    pub closed spec fn spec_text(&self) -> Seq<char> {
        self.0@
    }

    /// Validates `value` by rendering a probe date through it.
    ///
    /// # Errors
    ///
    /// Returns an error when `value` cannot render a date, renders an
    /// empty file name, or renders a line break into it.
    pub fn new(value: &str) -> (r: Result<Self, Error>)
        ensures
            r is Ok <==> valid_date_format(value@),
            r matches Ok(f) ==> f.spec_text() == value@,
            r matches Err(e) ==> format_refusal(value@, e),
    {
        let rendered = match render_date(value, 2001, 2, 3) {
            Ok(r) => r,
            Err(cause) => {
                return Err(Error::InvalidFormat { value: value.to_owned(), cause });
            },
        };
        let chars = chars_of(rendered.as_str());
        let n = chars.len();
        assert(chars@.subrange(0, n as int) =~= chars@);
        if n == 0 {
            return Err(Error::EmptyFormat { value: value.to_owned() });
        }
        if contains_char(chars.as_slice(), 0, n, '\n') || contains_char(chars.as_slice(), 0, n, '\r') {
            return Err(Error::LineBreakFormat { value: value.to_owned() });
        }
        Ok(Format(value.to_owned()))
    }

    /// The format as it was given.
    pub fn as_str(&self) -> (s: &str)
        ensures
            s@ == self.spec_text(),
    {
        self.0.as_str()
    }
}

impl Default for Format {
    /// The [`DEFAULT_FORMAT`] format.
    fn default() -> (f: Self)
        ensures
            f.spec_text() == DEFAULT_FORMAT@,
    {
        Format(DEFAULT_FORMAT.to_owned())
    }
}

/// A strftime format proven, at construction, to render a datetime to a
/// non-empty single-line value.
#[derive(Debug, Clone, PartialEq, Eq)]
pub struct StampFormat(String);

impl StampFormat {
    /// The format as it was given.
    pub closed spec fn spec_text(&self) -> Seq<char> {
        self.0@
    }

    /// Validates `value` by rendering a probe datetime through it.
    ///
    /// # Errors
    ///
    /// Returns an error when `value` cannot render a datetime, or when it
    /// renders nothing or a character a property value cannot hold.
    pub fn new(value: &str) -> (r: Result<Self, Error>)
        ensures
            r is Ok <==> valid_stamp_format(value@),
            r matches Ok(f) ==> f.spec_text() == value@,
            r matches Err(e) ==> stamp_refusal(value@, e),
    {
        let rendered = match render_datetime(value, 2001, 2, 3, 4, 5, 6) {
            Ok(r) => r,
            Err(cause) => {
                return Err(Error::InvalidStamp { value: value.to_owned(), cause });
            },
        };
        let chars = chars_of(rendered.as_str());
        let n = chars.len();
        assert(chars@.subrange(0, n as int) =~= chars@);
        if n == 0 {
            return Err(Error::EmptyStamp { value: value.to_owned() });
        }
        if holds_forbidden_character(chars.as_slice(), 0, n) {
            return Err(Error::UnprintableStamp { value: value.to_owned() });
        }
        Ok(StampFormat(value.to_owned()))
    }

    /// The format as it was given.
    pub fn as_str(&self) -> (s: &str)
        ensures
            s@ == self.spec_text(),
    {
        self.0.as_str()
    }
}

impl Default for StampFormat {
    /// The [`DEFAULT_STAMP_FORMAT`] format.
    fn default() -> (f: Self)
        ensures
            f.spec_text() == DEFAULT_STAMP_FORMAT@,
    {
        StampFormat(DEFAULT_STAMP_FORMAT.to_owned())
    }
}


/// A calendar date.
#[verifier::external_type_specification]
#[verifier::external_body]
pub struct ExDate(jiff::civil::Date);

/// A civil date and time of day.
#[verifier::external_type_specification]
#[verifier::external_body]
pub struct ExDateTime(jiff::civil::DateTime);

/// What jiff renders for `format` at `date`, or `None` when it fails: a
/// date is its year, month and day.
pub open spec fn date_value_rendering(format: Seq<char>, date: jiff::civil::Date) -> Option<
    Seq<char>,
> {
    rendering_of(date_rendering(format, year_of(date), month_of(date), day_of(date)))
}

/// What jiff renders for `format` at `datetime`, or `None` when it fails.
pub uninterp spec fn datetime_value_rendering(
    format: Seq<char>,
    datetime: jiff::civil::DateTime,
) -> Option<Seq<char>>;

/// The date `days` days from `date`, clamped to jiff's supported range.
pub uninterp spec fn shifted_date(date: jiff::civil::Date, days: int) -> jiff::civil::Date;

/// The date jiff parses from `value` under the strptime-style `format`.
pub uninterp spec fn parsed_date(format: Seq<char>, value: Seq<char>) -> Option<jiff::civil::Date>;

/// Renders `date` through a strftime-style format; wraps
/// `jiff::fmt::strtime::format`, which renders a date from its year,
/// month and day. A failure comes back as jiff's message.
#[verifier::external_body]
pub(crate) fn format_date_value(format: &str, date: jiff::civil::Date) -> (r: Result<String, String>)
    ensures
        text_outcome(r) == date_rendering(format@, year_of(date), month_of(date), day_of(date)),
{
    jiff::fmt::strtime::format(format, date).map_err(|e| e.to_string())
}

/// Renders `datetime` through a strftime-style format; wraps
/// `jiff::fmt::strtime::format`. A failure comes back as jiff's message.
#[verifier::external_body]
fn format_datetime_value(format: &str, datetime: jiff::civil::DateTime) -> (r: Result<String, String>)
    ensures
        r is Ok <==> datetime_value_rendering(format@, datetime) is Some,
        r matches Ok(s) ==> datetime_value_rendering(format@, datetime) == Some(s@),
{
    jiff::fmt::strtime::format(format, datetime).map_err(|e| e.to_string())
}

/// `date` moved by `days` days, saturating at jiff's first and last
/// dates; wraps `Date::saturating_add` with a span of days. A span holds
/// at most 7,304,484 days either way, and jiff panics beyond that.
#[verifier::external_body]
fn shift_date(date: jiff::civil::Date, days: i32) -> (r: jiff::civil::Date)
    requires
        -7304484 <= days <= 7304484,
    ensures
        r == shifted_date(date, days as int),
{
    date.saturating_add(days.days())
}

/// Parses `value` as a date under a strptime-style `format`; wraps
/// `Date::strptime`. A failure comes back as jiff's message.
#[verifier::external_body]
fn strptime_date(format: &str, value: &str) -> (r: Result<jiff::civil::Date, String>)
    ensures
        r is Ok <==> parsed_date(format@, value@) is Some,
        r matches Ok(d) ==> parsed_date(format@, value@) == Some(d),
{
    jiff::civil::Date::strptime(format, value).map_err(|e| e.to_string())
}

impl Format {
    /// Renders `date` through the format. Construction proved the format
    /// renders a calendar date; should jiff still refuse one, the
    /// rendering is empty.
    pub fn render(&self, date: jiff::civil::Date) -> (r: String)
        ensures
            date_value_rendering(self.spec_text(), date) matches Some(s) ==> r@ == s,
            date_value_rendering(self.spec_text(), date) is None ==> r@.len() == 0,
    {
        match format_date_value(self.0.as_str(), date) {
            Ok(s) => s,
            Err(_) => String::new(),
        }
    }
}

impl StampFormat {
    /// Renders `datetime` through the format. Construction proved the
    /// format renders a civil datetime; should jiff still refuse one, the
    /// rendering is empty.
    pub fn render(&self, datetime: jiff::civil::DateTime) -> (r: String)
        ensures
            datetime_value_rendering(self.spec_text(), datetime) matches Some(s) ==> r@ == s,
            datetime_value_rendering(self.spec_text(), datetime) is None ==> r@.len() == 0,
    {
        match format_datetime_value(self.0.as_str(), datetime) {
            Ok(s) => s,
            Err(_) => String::new(),
        }
    }
}

/// The day `value` names relative to `today`: `today`, `yesterday`,
/// `tomorrow`, or a `YYYY-MM-DD` date.
pub open spec fn parse_spec(value: Seq<char>, today: jiff::civil::Date) -> Option<jiff::civil::Date> {
    if value == "today"@ {
        Some(today)
    } else if value == "yesterday"@ {
        Some(shifted_date(today, -1))
    } else if value == "tomorrow"@ {
        Some(shifted_date(today, 1))
    } else {
        parsed_date("%Y-%m-%d"@, value)
    }
}

/// Interprets `value` as a calendar day: `today`, `yesterday`,
/// `tomorrow`, or a `YYYY-MM-DD` date, whose digits need not be
/// zero-padded. The caller supplies what day today is.
///
/// # Errors
///
/// Returns an error when `value` is none of the accepted forms.
pub fn parse(value: &str, today: jiff::civil::Date) -> (r: Result<jiff::civil::Date, Error>)
    ensures
        r matches Ok(d) ==> parse_spec(value@, today) == Some(d),
        r is Err ==> parse_spec(value@, today) is None,
        r matches Err(e) ==> e matches Error::Invalid { value: v, .. } && v@ == value@,
{
    let v = chars_of(value);
    let today_chars = chars_of("today");
    let yesterday_chars = chars_of("yesterday");
    let tomorrow_chars = chars_of("tomorrow");
    if same_chars(v.as_slice(), today_chars.as_slice()) {
        Ok(today)
    } else if same_chars(v.as_slice(), yesterday_chars.as_slice()) {
        Ok(shift_date(today, -1))
    } else if same_chars(v.as_slice(), tomorrow_chars.as_slice()) {
        Ok(shift_date(today, 1))
    } else {
        match strptime_date("%Y-%m-%d", value) {
            Ok(d) => Ok(d),
            Err(cause) => Err(Error::Invalid { value: value.to_owned(), cause }),
        }
    }
}

/// `a` followed by `b`, `c`, `d`, and `e`, as one string.
fn joined5(a: &str, b: &str, c: &str, d: &str, e: &str) -> (r: String)
    ensures
        r@ == a@ + b@ + c@ + d@ + e@,
{
    let mut out = chars_of(a);
    let parts = [chars_of(b), chars_of(c), chars_of(d), chars_of(e)];
    push_all(&mut out, parts[0].as_slice());
    push_all(&mut out, parts[1].as_slice());
    push_all(&mut out, parts[2].as_slice());
    push_all(&mut out, parts[3].as_slice());
    string_of(out.as_slice())
}

/// The message an error displays.
pub open spec fn error_message(e: Error) -> Seq<char> {
    match e {
        Error::Invalid { value, cause } => "invalid date \""@ + value@
            + "\": expected today, yesterday, tomorrow, or YYYY-MM-DD ("@ + cause@ + ")"@,
        Error::InvalidFormat { value, cause } => "date format \""@ + value@ + "\" is invalid: "@
            + cause@ + ""@,
        Error::EmptyFormat { value } => "date format \""@ + value@
            + "\" renders an empty file name"@ + ""@ + ""@,
        Error::LineBreakFormat { value } => "date format \""@ + value@
            + "\" renders a line break into a file name"@ + ""@ + ""@,
        Error::InvalidStamp { value, cause } => "timestamp format \""@ + value@
            + "\" is invalid: "@ + cause@ + ""@,
        Error::EmptyStamp { value } => "timestamp format \""@ + value@ + "\" renders nothing"@
            + ""@ + ""@,
        Error::UnprintableStamp { value } => "timestamp format \""@ + value@
            + "\" renders an unprintable character"@ + ""@ + ""@,
    }
}

impl Error {
    /// The message the error displays.
    pub fn message(&self) -> (m: String)
        ensures
            m@ == error_message(*self),
    {
        match self {
            Error::Invalid { value, cause } => joined5(
                "invalid date \"",
                value.as_str(),
                "\": expected today, yesterday, tomorrow, or YYYY-MM-DD (",
                cause.as_str(),
                ")",
            ),
            Error::InvalidFormat { value, cause } => joined5(
                "date format \"",
                value.as_str(),
                "\" is invalid: ",
                cause.as_str(),
                "",
            ),
            Error::EmptyFormat { value } => joined5(
                "date format \"",
                value.as_str(),
                "\" renders an empty file name",
                "",
                "",
            ),
            Error::LineBreakFormat { value } => joined5(
                "date format \"",
                value.as_str(),
                "\" renders a line break into a file name",
                "",
                "",
            ),
            Error::InvalidStamp { value, cause } => joined5(
                "timestamp format \"",
                value.as_str(),
                "\" is invalid: ",
                cause.as_str(),
                "",
            ),
            Error::EmptyStamp { value } => joined5(
                "timestamp format \"",
                value.as_str(),
                "\" renders nothing",
                "",
                "",
            ),
            Error::UnprintableStamp { value } => joined5(
                "timestamp format \"",
                value.as_str(),
                "\" renders an unprintable character",
                "",
                "",
            ),
        }
    }
}

} // verus!
