//! Rendering a daily note template: the `{{title}}`, `{{date}}`, and
//! `{{time}}` variables, with Moment-style formats after a colon, over a
//! note's date, the clock, and the note's title.
use vstd::prelude::*;

use crate::day::{date_value_rendering, format_date_value};
use crate::text::{chars_of, debug_escaped, escape_debug, has_infix, joined, push_all, push_range, sliced, string_of};

verus! {

/// A time of day.
#[verifier::external_type_specification]
#[verifier::external_body]
pub struct ExTime(jiff::civil::Time);

/// The year of `date`.
pub uninterp spec fn year_of(date: jiff::civil::Date) -> int;

/// The month of `date`.
pub uninterp spec fn month_of(date: jiff::civil::Date) -> int;

/// The day of the month of `date`.
pub uninterp spec fn day_of(date: jiff::civil::Date) -> int;

/// The hour of `time`.
pub uninterp spec fn hour_of(time: jiff::civil::Time) -> int;

/// The minute of `time`.
pub uninterp spec fn minute_of(time: jiff::civil::Time) -> int;

/// The second of `time`.
pub uninterp spec fn second_of(time: jiff::civil::Time) -> int;

/// The year of `date`, in jiff's range; wraps `Date::year`.
#[verifier::external_body]
fn year(date: jiff::civil::Date) -> (r: i16)
    ensures
        r == year_of(date),
        -9999 <= r <= 9999,
{
    date.year()
}

/// The month of `date`, one through twelve; wraps `Date::month`.
#[verifier::external_body]
fn month(date: jiff::civil::Date) -> (r: i8)
    ensures
        r == month_of(date),
        1 <= r <= 12,
{
    date.month()
}

/// The day of `date`, one through thirty-one; wraps `Date::day`.
#[verifier::external_body]
fn day(date: jiff::civil::Date) -> (r: i8)
    ensures
        r == day_of(date),
        1 <= r <= 31,
{
    date.day()
}

/// The hour of `time`, zero through twenty-three; wraps `Time::hour`.
#[verifier::external_body]
fn hour(time: jiff::civil::Time) -> (r: i8)
    ensures
        r == hour_of(time),
        0 <= r <= 23,
{
    time.hour()
}

/// The minute of `time`, zero through fifty-nine; wraps `Time::minute`.
#[verifier::external_body]
fn minute(time: jiff::civil::Time) -> (r: i8)
    ensures
        r == minute_of(time),
        0 <= r <= 59,
{
    time.minute()
}

/// The second of `time`, zero through fifty-nine; wraps `Time::second`.
#[verifier::external_body]
fn second(time: jiff::civil::Time) -> (r: i8)
    ensures
        r == second_of(time),
        0 <= r <= 59,
{
    time.second()
}

/// Failure while rendering a template.
#[derive(Debug)]
pub enum Error {
    UnsupportedToken { format: String, token: String },
    UnclosedBracket { format: String },
}

/// The logical content of an [`Error`].
pub enum ErrorModel {
    UnsupportedToken(Seq<char>, Seq<char>),
    UnclosedBracket(Seq<char>),
}

impl View for Error {
    type V = ErrorModel;

    open spec fn view(&self) -> ErrorModel {
        match self {
            Error::UnsupportedToken { format, token } => ErrorModel::UnsupportedToken(format@, token@),
            Error::UnclosedBracket { format } => ErrorModel::UnclosedBracket(format@),
        }
    }
}

/// The message an error displays.
pub open spec fn error_message(e: Error) -> Seq<char> {
    match e {
        Error::UnsupportedToken { format, token } => "the template format \""@ + debug_escaped(
            format@,
        ) + "\" holds an unsupported token \""@ + token@ + "\""@,
        Error::UnclosedBracket { format } => "the template format \""@ + debug_escaped(format@)
            + "\" has an unclosed '['"@,
    }
}

impl Error {
    /// The message the error displays.
    pub fn message(&self) -> (m: String)
        ensures
            m@ == error_message(*self),
    {
        match self {
            Error::UnsupportedToken { format, token } => {
                let escaped = escape_debug(format.as_str());
                let head = joined("the template format \"", escaped.as_str(), "\" holds an unsupported token \"");
                joined(head.as_str(), token.as_str(), "\"")
            },
            Error::UnclosedBracket { format } => {
                let escaped = escape_debug(format.as_str());
                joined("the template format \"", escaped.as_str(), "\" has an unclosed '['")
            },
        }
    }
}

/// The ASCII digit for `d`, below ten.
pub open spec fn digit(d: nat) -> char {
    if d == 0 {
        '0'
    } else if d == 1 {
        '1'
    } else if d == 2 {
        '2'
    } else if d == 3 {
        '3'
    } else if d == 4 {
        '4'
    } else if d == 5 {
        '5'
    } else if d == 6 {
        '6'
    } else if d == 7 {
        '7'
    } else if d == 8 {
        '8'
    } else {
        '9'
    }
}

/// The decimal digits of `n`, most significant first.
pub open spec fn digits(n: nat) -> Seq<char>
    decreases n,
{
    if n < 10 {
        seq![digit(n)]
    } else {
        digits(n / 10) + seq![digit(n % 10)]
    }
}

/// `n` zeros.
pub open spec fn zeros(n: int) -> Seq<char> {
    Seq::new(if n < 0 { 0 } else { n as nat }, |i: int| '0')
}

/// `n` in decimal, zero-padded after its sign to at least `width`
/// characters, the way `{:0width}` formats an integer.
pub open spec fn padded(n: int, width: nat) -> Seq<char> {
    let sign: Seq<char> = if n < 0 {
        seq!['-']
    } else {
        Seq::empty()
    };
    let d = digits(if n < 0 { (-n) as nat } else { n as nat });
    sign + zeros(width - sign.len() - d.len()) + d
}

fn digit_char(d: u32) -> (c: char)
    requires
        d < 10,
    ensures
        c == digit(d as nat),
{
    match d {
        0 => '0',
        1 => '1',
        2 => '2',
        3 => '3',
        4 => '4',
        5 => '5',
        6 => '6',
        7 => '7',
        8 => '8',
        _ => '9',
    }
}

fn decimal_digits(n: u32) -> (out: Vec<char>)
    ensures
        out@ == digits(n as nat),
    decreases n,
{
    if n < 10 {
        let mut out: Vec<char> = Vec::new();
        out.push(digit_char(n));
        assert(out@ =~= digits(n as nat));
        out
    } else {
        let mut out = decimal_digits(n / 10);
        out.push(digit_char(n % 10));
        assert(out@ =~= digits(n as nat));
        out
    }
}

/// `n` in decimal, zero-padded after its sign to at least `width`.
pub fn decimal(n: i32, width: usize) -> (out: Vec<char>)
    requires
        -100000 <= n <= 100000,
        width <= 8,
    ensures
        out@ == padded(n as int, width as nat),
{
    let magnitude: u32 = if n < 0 {
        (-n) as u32
    } else {
        n as u32
    };
    let d = decimal_digits(magnitude);
    let mut out: Vec<char> = Vec::new();
    if n < 0 {
        out.push('-');
    }
    let fill: usize = if d.len() < width && out.len() < width - d.len() {
        width - d.len() - out.len()
    } else {
        0
    };
    let ghost head = out@;
    let mut i: usize = 0;
    while i < fill
        invariant
            i <= fill,
            out@ == head + Seq::new(i as nat, |j: int| '0'),
        decreases fill - i,
    {
        out.push('0');
        i += 1;
        assert(out@ =~= head + Seq::new(i as nat, |j: int| '0'));
    }
    push_all(&mut out, d.as_slice());
    assert(out@ =~= padded(n as int, width as nat));
    out
}

/// The clock hour on a twelve-hour dial, where 0 and 12 both read 12.
pub open spec fn twelve(hour: int) -> int {
    if hour % 12 == 0 {
        12
    } else {
        hour % 12
    }
}

/// The name-producing strftime directive rendered for `date`, as jiff
/// renders it; the directives passed are statically valid.
pub open spec fn named(directive: Seq<char>, date: jiff::civil::Date) -> Option<Seq<char>> {
    date_value_rendering(directive, date)
}

/// One Moment token's rendering, or `None` outside the supported set.
pub open spec fn token_spec(letter: char, length: nat, date: jiff::civil::Date, time: jiff::civil::Time) -> Option<Seq<char>> {
    let y = year_of(date);
    let h = hour_of(time);
    if letter == 'Y' && length == 4 {
        Some(padded(y, 4))
    } else if letter == 'Y' && length == 2 {
        Some(padded(y % 100, 2))
    } else if letter == 'M' && length == 4 {
        named("%B"@, date)
    } else if letter == 'M' && length == 3 {
        named("%b"@, date)
    } else if letter == 'M' && length == 2 {
        Some(padded(month_of(date), 2))
    } else if letter == 'M' && length == 1 {
        Some(padded(month_of(date), 0))
    } else if letter == 'D' && length == 2 {
        Some(padded(day_of(date), 2))
    } else if letter == 'D' && length == 1 {
        Some(padded(day_of(date), 0))
    } else if letter == 'd' && length == 4 {
        named("%A"@, date)
    } else if letter == 'd' && length == 3 {
        named("%a"@, date)
    } else if letter == 'H' && length == 2 {
        Some(padded(h, 2))
    } else if letter == 'H' && length == 1 {
        Some(padded(h, 0))
    } else if letter == 'h' && length == 2 {
        Some(padded(twelve(h), 2))
    } else if letter == 'h' && length == 1 {
        Some(padded(twelve(h), 0))
    } else if letter == 'm' && length == 2 {
        Some(padded(minute_of(time), 2))
    } else if letter == 'm' && length == 1 {
        Some(padded(minute_of(time), 0))
    } else if letter == 's' && length == 2 {
        Some(padded(second_of(time), 2))
    } else if letter == 's' && length == 1 {
        Some(padded(second_of(time), 0))
    } else if letter == 'A' && length == 1 {
        Some(if h < 12 { "AM"@ } else { "PM"@ })
    } else if letter == 'a' && length == 1 {
        Some(if h < 12 { "am"@ } else { "pm"@ })
    } else {
        None
    }
}

/// A name-producing directive rendered for `date`.
fn name(directive: &str, date: jiff::civil::Date) -> (r: Option<Vec<char>>)
    ensures
        r matches Some(s) ==> named(directive@, date) == Some(s@),
        r is None ==> named(directive@, date) is None,
{
    match format_date_value(directive, date) {
        Ok(s) => Some(chars_of(s.as_str())),
        Err(_) => None,
    }
}

/// One Moment token's rendering, or `None` outside the supported set.
pub fn token(letter: char, length: usize, date: jiff::civil::Date, time: jiff::civil::Time) -> (r: Option<Vec<char>>)
    ensures
        match token_spec(letter, length as nat, date, time) {
            Some(s) => r matches Some(x) && x@ == s,
            None => r is None,
        },
{
    let y = year(date) as i32;
    let h = hour(time) as i32;
    let hu = hour(time) as u32;
    let twelve_hour: i32 = if hu % 12 == 0 {
        12
    } else {
        (hu % 12) as i32
    };
    let month = month(date) as i32;
    let day = day(date) as i32;
    let minute = minute(time) as i32;
    let second = second(time) as i32;
    proof {
        reveal_strlit("AM");
        reveal_strlit("PM");
        reveal_strlit("am");
        reveal_strlit("pm");
    }
    if letter == 'Y' && length == 4 {
        Some(decimal(y, 4))
    } else if letter == 'Y' && length == 2 {
        let shifted = (y + 10000) as u32;
        let r = (shifted % 100) as i32;
        assert(r == (y as int) % 100) by (nonlinear_arith)
            requires
                shifted == y + 10000,
                r == shifted % 100,
                -9999 <= y <= 9999,
        ;
        Some(decimal(r, 2))
    } else if letter == 'M' && length == 4 {
        name("%B", date)
    } else if letter == 'M' && length == 3 {
        name("%b", date)
    } else if letter == 'M' && length == 2 {
        Some(decimal(month, 2))
    } else if letter == 'M' && length == 1 {
        Some(decimal(month, 0))
    } else if letter == 'D' && length == 2 {
        Some(decimal(day, 2))
    } else if letter == 'D' && length == 1 {
        Some(decimal(day, 0))
    } else if letter == 'd' && length == 4 {
        name("%A", date)
    } else if letter == 'd' && length == 3 {
        name("%a", date)
    } else if letter == 'H' && length == 2 {
        Some(decimal(h, 2))
    } else if letter == 'H' && length == 1 {
        Some(decimal(h, 0))
    } else if letter == 'h' && length == 2 {
        Some(decimal(twelve_hour, 2))
    } else if letter == 'h' && length == 1 {
        Some(decimal(twelve_hour, 0))
    } else if letter == 'm' && length == 2 {
        Some(decimal(minute, 2))
    } else if letter == 'm' && length == 1 {
        Some(decimal(minute, 0))
    } else if letter == 's' && length == 2 {
        Some(decimal(second, 2))
    } else if letter == 's' && length == 1 {
        Some(decimal(second, 0))
    } else if letter == 'A' && length == 1 {
        Some(chars_of(if h < 12 { "AM" } else { "PM" }))
    } else if letter == 'a' && length == 1 {
        Some(chars_of(if h < 12 { "am" } else { "pm" }))
    } else {
        None
    }
}

/// Whether `c` is an ASCII letter.
pub open spec fn ascii_letter(c: char) -> bool {
    ('a' <= c && c <= 'z') || ('A' <= c && c <= 'Z')
}

/// The first `]` in `f` at or after `i`, or the end.
pub open spec fn bracket_end(f: Seq<char>, i: int) -> int
    decreases f.len() - i,
{
    if i >= f.len() || f[i] == ']' {
        i
    } else {
        bracket_end(f, i + 1)
    }
}

/// Where the run of `c` starting at `i` in `f` ends.
pub open spec fn run_end(f: Seq<char>, i: int, c: char) -> int
    decreases f.len() - i,
{
    if i >= f.len() || f[i] != c {
        i
    } else {
        run_end(f, i + 1, c)
    }
}

/// `r` with `p` in front of its text.
pub open spec fn prefixed(p: Seq<char>, r: Result<Seq<char>, ErrorModel>) -> Result<Seq<char>, ErrorModel> {
    match r {
        Ok(s) => Ok(p + s),
        Err(e) => Err(e),
    }
}

/// The rendering of the Moment-style format `f` from position `i` on.
pub open spec fn moment_from(f: Seq<char>, i: int, date: jiff::civil::Date, time: jiff::civil::Time) -> Result<Seq<char>, ErrorModel>
    decreases f.len() - i,
{
    if i < 0 || i >= f.len() {
        Ok(Seq::empty())
    } else if f[i] == '[' {
        let end = bracket_end(f, i + 1);
        if end >= f.len() {
            Err(ErrorModel::UnclosedBracket(f))
        } else {
            proof {
                lemma_bracket_end(f, i + 1);
            }
            prefixed(f.subrange(i + 1, end), moment_from(f, end + 1, date, time))
        }
    } else if ascii_letter(f[i]) {
        let end = run_end(f, i + 1, f[i]);
        match token_spec(f[i], (end - i) as nat, date, time) {
            Some(r) => if end > i {
                proof {
                    lemma_run_end(f, i + 1, f[i]);
                }
                prefixed(r, moment_from(f, end, date, time))
            } else {
                Ok(Seq::empty())
            },
            None => Err(ErrorModel::UnsupportedToken(f, f.subrange(i, end))),
        }
    } else {
        prefixed(seq![f[i]], moment_from(f, i + 1, date, time))
    }
}

pub proof fn lemma_prefixed(a: Seq<char>, b: Seq<char>, r: Result<Seq<char>, ErrorModel>)
    ensures
        prefixed(a, prefixed(b, r)) == prefixed(a + b, r),
{
    if let Ok(x) = r {
        assert(a + (b + x) =~= (a + b) + x);
    }
}

pub proof fn lemma_bracket_end(f: Seq<char>, i: int)
    requires
        0 <= i,
    ensures
        i <= bracket_end(f, i),
        bracket_end(f, i) <= f.len() || bracket_end(f, i) == i,
    decreases f.len() - i,
{
    if i < f.len() && f[i] != ']' {
        lemma_bracket_end(f, i + 1);
    }
}

pub proof fn lemma_run_end(f: Seq<char>, i: int, c: char)
    requires
        0 <= i,
    ensures
        i <= run_end(f, i, c),
        run_end(f, i, c) <= f.len() || run_end(f, i, c) == i,
    decreases f.len() - i,
{
    if i < f.len() && f[i] == c {
        lemma_run_end(f, i + 1, c);
    }
}

/// Renders a Moment-style format into `out`: `[bracketed]` text is
/// literal, a run of one repeated ASCII letter is a token, and any other
/// character copies through.
fn moment(format: &[char], date: jiff::civil::Date, time: jiff::civil::Time, out: &mut Vec<char>) -> (r: Result<(), Error>)
    ensures
        match moment_from(format@, 0, date, time) {
            Ok(s) => r is Ok && final(out)@ == old(out)@ + s,
            Err(e) => r matches Err(x) && x@ == e,
        },
{
    let n = format.len();
    let ghost f = format@;
    let ghost start = out@;
    let mut i: usize = 0;
    while i < n
        invariant
            i <= n == format@.len(),
            f == format@,
            moment_from(f, 0, date, time) == prefixed(out@.skip(start.len() as int), moment_from(f, i as int, date, time)),
            out@.len() >= start.len(),
            out@.take(start.len() as int) == start,
        decreases n - i,
    {
        let c = format[i];
        let ghost before = out@;
        if c == '[' {
            let mut end = i + 1;
            while end < n && format[end] != ']'
                invariant
                    i < end <= n == format@.len(),
                    f == format@,
                    bracket_end(f, i + 1) == bracket_end(f, end as int),
                decreases n - end,
            {
                end += 1;
            }
            if end == n {
                return Err(Error::UnclosedBracket { format: string_of(format) });
            }
            push_range(out, format, i + 1, end);
            assert(out@.skip(start.len() as int) =~= before.skip(start.len() as int) + f.subrange(i + 1, end as int));
            assert(moment_from(f, i as int, date, time) == prefixed(f.subrange(i + 1, end as int), moment_from(f, end + 1, date, time)));
            proof {
                lemma_prefixed(before.skip(start.len() as int), f.subrange(i + 1, end as int), moment_from(f, end + 1, date, time));
            }
            i = end + 1;
        } else if ('a' <= c && c <= 'z') || ('A' <= c && c <= 'Z') {
            let mut end = i + 1;
            while end < n && format[end] == c
                invariant
                    i < end <= n == format@.len(),
                    f == format@,
                    run_end(f, i + 1, c) == run_end(f, end as int, c),
                decreases n - end,
            {
                end += 1;
            }
            match token(c, end - i, date, time) {
                Some(rendered) => {
                    push_all(out, rendered.as_slice());
                    assert(out@.skip(start.len() as int) =~= before.skip(start.len() as int) + rendered@);
                    assert(moment_from(f, i as int, date, time) == prefixed(rendered@, moment_from(f, end as int, date, time)));
                    proof {
                        lemma_prefixed(before.skip(start.len() as int), rendered@, moment_from(f, end as int, date, time));
                    }
                },
                None => {
                    let token = sliced(format, i, end);
                    return Err(
                        Error::UnsupportedToken {
                            format: string_of(format),
                            token: string_of(token.as_slice()),
                        },
                    );
                },
            }
            i = end;
        } else {
            out.push(c);
            assert(out@.skip(start.len() as int) =~= before.skip(start.len() as int) + seq![c]);
            assert(moment_from(f, i as int, date, time) == prefixed(seq![c], moment_from(f, i + 1, date, time)));
            proof {
                lemma_prefixed(before.skip(start.len() as int), seq![c], moment_from(f, i + 1, date, time));
            }
            i += 1;
        }
        assert(out@.take(start.len() as int) =~= start);
    }
    assert(out@ =~= start + out@.skip(start.len() as int));
    Ok(())
}

/// Whether `s[from..to]` spells `word`.
fn spells(s: &[char], from: usize, to: usize, word: &str) -> (b: bool)
    requires
        from <= to <= s@.len(),
    ensures
        b == (s@.subrange(from as int, to as int) == word@),
{
    let w = chars_of(word);
    if to - from != w.len() {
        assert(s@.subrange(from as int, to as int).len() != word@.len());
        return false;
    }
    let mut k: usize = 0;
    while k < w.len()
        invariant
            k <= w@.len(),
            w@ == word@,
            to - from == w@.len(),
            to <= s@.len(),
            forall|j: int| 0 <= j < k ==> s@[from + j] == w@[j],
        decreases w@.len() - k,
    {
        if s[from + k] != w[k] {
            assert(s@.subrange(from as int, to as int)[k as int] != w@[k as int]);
            return false;
        }
        k += 1;
    }
    assert(s@.subrange(from as int, to as int) =~= w@);
    true
}

/// The first `:` in `s` at or after `i`, or the end.
pub open spec fn colon_at(s: Seq<char>, i: int) -> int
    decreases s.len() - i,
{
    if i >= s.len() || s[i] == ':' {
        i
    } else {
        colon_at(s, i + 1)
    }
}

/// `inner` written back inside its braces.
pub open spec fn braced(inner: Seq<char>) -> Seq<char> {
    seq!['{', '{'] + inner + seq!['}', '}']
}

/// The rendering of one `{{…}}` body `inner`.
pub open spec fn expansion(inner: Seq<char>, date: jiff::civil::Date, time: jiff::civil::Time, title: Seq<char>) -> Result<Seq<char>, ErrorModel> {
    let colon = colon_at(inner, 0);
    if colon >= inner.len() {
        if inner == "title"@ {
            Ok(title)
        } else if inner == "date"@ {
            moment_from("YYYY-MM-DD"@, 0, date, time)
        } else if inner == "time"@ {
            moment_from("HH:mm"@, 0, date, time)
        } else {
            Ok(braced(inner))
        }
    } else if inner.take(colon) == "date"@ || inner.take(colon) == "time"@ {
        moment_from(inner.skip(colon + 1), 0, date, time)
    } else {
        Ok(braced(inner))
    }
}

/// Renders one `{{…}}` body `inner` into `out`: the three template
/// variables, matched exactly, with `YYYY-MM-DD` and `HH:mm` as their
/// defaults; anything else is written back as it was.
fn expanded(
    inner: &[char],
    date: jiff::civil::Date,
    time: jiff::civil::Time,
    title: &[char],
    out: &mut Vec<char>,
) -> (r: Result<(), Error>)
    ensures
        match expansion(inner@, date, time, title@) {
            Ok(s) => r is Ok && final(out)@ == old(out)@ + s,
            Err(e) => r matches Err(x) && x@ == e,
        },
{
    let n = inner.len();
    let mut colon: usize = 0;
    while colon < n && inner[colon] != ':'
        invariant
            colon <= n == inner@.len(),
            colon_at(inner@, 0) == colon_at(inner@, colon as int),
        decreases n - colon,
    {
        colon += 1;
    }
    assert(inner@.subrange(0, n as int) =~= inner@);
    assert(inner@.subrange(0, colon as int) =~= inner@.take(colon as int));
    if colon == n {
        if spells(inner, 0, n, "title") {
            push_all(out, title);
            return Ok(());
        } else if spells(inner, 0, n, "date") {
            let format = chars_of("YYYY-MM-DD");
            return moment(format.as_slice(), date, time, out);
        } else if spells(inner, 0, n, "time") {
            let format = chars_of("HH:mm");
            return moment(format.as_slice(), date, time, out);
        }
    } else if spells(inner, 0, colon, "date") || spells(inner, 0, colon, "time") {
        let format = sliced(inner, colon + 1, n);
        assert(format@ =~= inner@.skip(colon + 1));
        return moment(format.as_slice(), date, time, out);
    }
    let ghost before = out@;
    out.push('{');
    out.push('{');
    push_all(out, inner);
    out.push('}');
    out.push('}');
    assert(out@ =~= before + braced(inner@));
    Ok(())
}

/// The first `c` doubled in `s` at or after `i`.
pub open spec fn pair_from(s: Seq<char>, i: int, c: char) -> Option<int>
    decreases s.len() - i,
{
    if i < 0 || i + 1 >= s.len() {
        None
    } else if s[i] == c && s[i + 1] == c {
        Some(i)
    } else {
        pair_from(s, i + 1, c)
    }
}

pub proof fn lemma_pair_from(s: Seq<char>, i: int, c: char)
    requires
        0 <= i,
    ensures
        pair_from(s, i, c) matches Some(j) ==> i <= j && j + 1 < s.len(),
    decreases s.len() - i,
{
    if i + 1 < s.len() && !(s[i] == c && s[i + 1] == c) {
        lemma_pair_from(s, i + 1, c);
    }
}

/// The rendering of template `t` from position `rest` on.
pub open spec fn rendered_from(t: Seq<char>, rest: int, date: jiff::civil::Date, time: jiff::civil::Time, title: Seq<char>) -> Result<Seq<char>, ErrorModel>
    decreases t.len() - rest,
{
    if rest < 0 || rest > t.len() {
        Ok(Seq::empty())
    } else {
        match pair_from(t, rest, '{') {
            None => Ok(t.skip(rest)),
            Some(start) => match pair_from(t, start + 2, '}') {
                None => Ok(t.skip(rest)),
                Some(end) => match expansion(t.subrange(start + 2, end), date, time, title) {
                    Err(e) => Err(e),
                    Ok(x) => {
                        proof {
                            lemma_pair_from(t, rest, '{');
                            lemma_pair_from(t, start + 2, '}');
                        }
                        prefixed(t.subrange(rest, start) + x, rendered_from(t, end + 2, date, time, title))
                    },
                },
            },
        }
    }
}

/// The first `{{` or `}}` (as `c`, twice) in `s` at or after `from`.
fn find_pair(s: &[char], from: usize, c: char) -> (r: Option<usize>)
    requires
        from <= s@.len(),
    ensures
        pair_from(s@, from as int, c) == match r {
            Some(i) => Some(i as int),
            None => None::<int>,
        },
        r matches Some(i) ==> from <= i && i + 1 < s@.len() && s@[i as int] == c && s@[i + 1] == c,
        r is None ==> forall|i: int| from <= i && i + 1 < s@.len() ==> !(#[trigger] s@[i] == c && s@[i + 1] == c),
{
    let mut i = from;
    while i < s.len() && s.len() - i > 1
        invariant
            from <= i <= s@.len(),
            pair_from(s@, from as int, c) == pair_from(s@, i as int, c),
            forall|j: int| from <= j < i && j + 1 < s@.len() ==> !(#[trigger] s@[j] == c && s@[j + 1] == c),
        decreases s@.len() - i,
    {
        if s[i] == c && s[i + 1] == c {
            return Some(i);
        }
        i += 1;
    }
    None
}

/// Renders `template` for a note: `{{title}}` becomes `title`, `{{date}}`
/// the note's date as `YYYY-MM-DD`, `{{time}}` the given time as `HH:mm`,
/// and `{{date:FORMAT}}` or `{{time:FORMAT}}` a Moment-style format; both
/// variables accept every token, they differ only in their default. Any
/// other `{{…}}`, including an unclosed one, passes through as written.
///
/// Fails when a format holds an alphabetic token outside the supported
/// set or an unclosed `[` literal.
pub fn rendered(template: &str, date: jiff::civil::Date, time: jiff::civil::Time, title: &str) -> (r: Result<String, Error>)
    ensures
        !has_infix(template@, "{{"@) ==> (r matches Ok(s) && s@ == template@),
        match rendered_from(template@, 0, date, time, title@) {
            Ok(s) => r matches Ok(x) && x@ == s,
            Err(e) => r matches Err(x) && x@ == e,
        },
{
    let t = chars_of(template);
    let title_chars = chars_of(title);
    let n = t.len();
    let mut out: Vec<char> = Vec::new();
    let mut rest: usize = 0;
    proof {
        reveal_strlit("{{");
    }
    loop
        invariant
            rest <= n == t@.len(),
            t@ == template@,
            !has_infix(t@, "{{"@) ==> rest == 0 && out@.len() == 0,
            title@ == title_chars@,
            rendered_from(t@, 0, date, time, title@) == prefixed(out@, rendered_from(t@, rest as int, date, time, title@)),
        ensures
            rest <= n == t@.len(),
            rendered_from(t@, rest as int, date, time, title@) == Ok::<Seq<char>, ErrorModel>(t@.skip(rest as int)),
            rendered_from(t@, 0, date, time, title@) == prefixed(out@, rendered_from(t@, rest as int, date, time, title@)),
            !has_infix(t@, "{{"@) ==> rest == 0 && out@.len() == 0,
        decreases n - rest,
    {
        let ghost out0 = out@;
        let start = match find_pair(t.as_slice(), rest, '{') {
            Some(start) => start,
            None => {
                break;
            },
        };
        proof {
            reveal_strlit("{{");
            assert(t@.subrange(start as int, start + 2) =~= "{{"@);
            assert(has_infix(t@, "{{"@));
        }
        let after = start + 2;
        let end = match find_pair(t.as_slice(), after, '}') {
            Some(end) => end,
            None => {
                break;
            },
        };
        push_range(&mut out, t.as_slice(), rest, start);
        let inner = sliced(t.as_slice(), after, end);
        let ghost before = out@;
        assert(before =~= out0 + t@.subrange(rest as int, start as int));
        assert(inner@ =~= t@.subrange(after as int, end as int));
        match expanded(inner.as_slice(), date, time, title_chars.as_slice(), &mut out) {
            Ok(()) => {},
            Err(e) => {
                assert(rendered_from(t@, rest as int, date, time, title@) == Err::<Seq<char>, ErrorModel>(e@));
                return Err(e);
            },
        }
        proof {
            let x = out@.skip(before.len() as int);
            let r2 = rendered_from(t@, end + 2, date, time, title@);
            assert(out@ =~= before + x);
            assert(expansion(inner@, date, time, title_chars@) is Ok);
            if let Ok(s) = expansion(inner@, date, time, title_chars@) {
                assert(out@ == before + s);
                assert(s =~= out@.skip(before.len() as int));
            }
            assert(expansion(inner@, date, time, title_chars@) == Ok::<Seq<char>, ErrorModel>(x));
            assert(expansion(t@.subrange(after as int, end as int), date, time, title@) == Ok::<Seq<char>, ErrorModel>(x));
            assert(rendered_from(t@, rest as int, date, time, title@) == prefixed(t@.subrange(rest as int, start as int) + x, r2));
            lemma_prefixed(out0, t@.subrange(rest as int, start as int) + x, r2);
            assert(out0 + (t@.subrange(rest as int, start as int) + x) =~= out@);
        }
        rest = end + 2;
    }
    let ghost out0 = out@;
    push_range(&mut out, t.as_slice(), rest, n);
    proof {
        assert(t@.subrange(rest as int, n as int) =~= t@.skip(rest as int));
        if !has_infix(t@, "{{"@) {
            assert(out@ =~= t@);
        }
    }
    Ok(string_of(out.as_slice()))
}

/// Resolves the seed a write is handed: none when the note already
/// existed, the rendered template, or the message of a template that
/// could not be resolved, read or rendered, which fails exactly the
/// write that needed it.
pub fn seeding(seed: &Option<Result<String, String>>) -> (r: Result<Option<&str>, &str>)
    ensures
        match *seed {
            None => r == Ok::<Option<&str>, &str>(None),
            Some(Ok(text)) => r matches Ok(Some(t)) && t@ == text@,
            Some(Err(message)) => r matches Err(m) && m@ == message@,
        },
{
    match seed {
        None => Ok(None),
        Some(Ok(text)) => Ok(Some(text.as_str())),
        Some(Err(message)) => Err(message.as_str()),
    }
}

} // verus!
