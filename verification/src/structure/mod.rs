//! Locating markdown structure — headings, sections, and bullet threads —
//! so an append can land inside a note instead of at its end. Pure text
//! in, text out: no I/O, environment, or clock.
use vstd::prelude::*;

pub mod blocks;
pub mod laws;
pub mod locate;
pub mod markdown;
pub mod outline;
pub mod scan;

use crate::frontmatter::document::parse;
use crate::frontmatter::{body_start, strings};
use crate::structure::blocks::{blocks, blocks_of, removal_keeps, removal_kept, splice_keeps, splice_owns, splice_check, Block, BlockKind, Splice};
use crate::structure::locate::{
    begins, bullet_choice, bullet_path, edit_span, fence_traps, heading_path, hit_from, indent_for, interior_span, landing_from, moved_past, pick, task_at, within, Pick,
    blank_indent, contains, edit_scope, entry_indent, first_problem, heading_scope, insertion_at,
    interior, matched_bullet, one_bullet, outside_fences, past_blocks, task_text, validated,
    validated_all, Kind,
};
use crate::structure::markdown::{char_events, events_of, events_within, MdEvent};
use crate::structure::outline::{outline, outline_bullets, outline_fenced, outline_headings, outline_html, outline_quotes, Heading};
use crate::structure::scan::{
    assembled, assembled_lines, bare_carriage_return, begins_with, blank, break_at, column_at, columns, content_at, edge_space, line_begin, line_stop,
    content_start, excised, first_break, has_bare_carriage_return, insertion_eol,
    insertion_eol_of, line_break, line_len, line_start, rendered, rendered_entry, spliced,
    spliced_text, Span,
};
use crate::text::{chars_of, debug_escaped, escape_debug, joined, push_all, sliced, string_of};

verus! {

/// The indent unit written for an entry nested under a bullet that has no
/// child bullet yet. A bullet that already has a child copies the child's
/// indent instead.
#[derive(Debug, Clone, Copy, PartialEq, Eq)]
pub enum Indent {
    /// The bullet's own leading whitespace plus tabs enough to reach the
    /// column where the bullet's text starts.
    Tab,
    /// Spaces up to that same column.
    Spaces,
}

impl Default for Indent {
    /// [`Indent::Tab`].
    fn default() -> (i: Self)
        ensures
            i == Indent::Tab,
    {
        Indent::Tab
    }
}

impl Indent {
    /// The spelling the config file stores.
    pub open spec fn spelling(self) -> Seq<char> {
        match self {
            Indent::Tab => "tab"@,
            Indent::Spaces => "spaces"@,
        }
    }

    /// The spelling the config file stores.
    pub fn as_str(self) -> (s: &'static str)
        ensures
            s@ == self.spelling(),
    {
        match self {
            Indent::Tab => "tab",
            Indent::Spaces => "spaces",
        }
    }
}

/// Where inside a note an appended entry lands: a chain of headings
/// narrowing to a section, then a chain of bullets descending a thread
/// inside it. Both chains empty places the entry verbatim at the very end
/// of the note.
#[derive(Debug, Default)]
pub struct Placement {
    /// Heading queries, outermost first: each a prefix of the heading's
    /// text as written, its `#` marks excluded.
    pub headings: Vec<String>,
    /// Bullet queries, outermost first: each a prefix of a bullet's first
    /// line past its marker.
    pub bullets: Vec<String>,
    /// Indent unit under a childless bullet.
    pub indent: Indent,
}


/// Failure while locating a structural target in a note.
#[derive(Debug)]
pub enum Error {
    InvalidHeading { query: String, reason: &'static str },
    InvalidBullet { query: String, reason: &'static str },
    NoHeading { query: String },
    AmbiguousHeading { query: String },
    NoBullet { query: String },
    AmbiguousBullet { query: String },
    UnclosedFence,
    UnclosedHtml,
    BareCarriageReturn,
    AbsorbedStructure,
    NestedContent { query: String },
    RemovalReshapes,
    NoTask { query: String },
    AmbiguousTask { query: String },
    SharedLine { query: String },
}

/// The logical content of an [`Error`].
pub enum ErrorModel {
    InvalidHeading(Seq<char>, Seq<char>),
    InvalidBullet(Seq<char>, Seq<char>),
    NoHeading(Seq<char>),
    AmbiguousHeading(Seq<char>),
    NoBullet(Seq<char>),
    AmbiguousBullet(Seq<char>),
    UnclosedFence,
    UnclosedHtml,
    BareCarriageReturn,
    AbsorbedStructure,
    NestedContent(Seq<char>),
    RemovalReshapes,
    NoTask(Seq<char>),
    AmbiguousTask(Seq<char>),
    SharedLine(Seq<char>),
}

impl View for Error {
    type V = ErrorModel;

    open spec fn view(&self) -> ErrorModel {
        match self {
            Error::InvalidHeading { query, reason } => ErrorModel::InvalidHeading(query@, reason@),
            Error::InvalidBullet { query, reason } => ErrorModel::InvalidBullet(query@, reason@),
            Error::NoHeading { query } => ErrorModel::NoHeading(query@),
            Error::AmbiguousHeading { query } => ErrorModel::AmbiguousHeading(query@),
            Error::NoBullet { query } => ErrorModel::NoBullet(query@),
            Error::AmbiguousBullet { query } => ErrorModel::AmbiguousBullet(query@),
            Error::UnclosedFence => ErrorModel::UnclosedFence,
            Error::UnclosedHtml => ErrorModel::UnclosedHtml,
            Error::BareCarriageReturn => ErrorModel::BareCarriageReturn,
            Error::AbsorbedStructure => ErrorModel::AbsorbedStructure,
            Error::NestedContent { query } => ErrorModel::NestedContent(query@),
            Error::RemovalReshapes => ErrorModel::RemovalReshapes,
            Error::NoTask { query } => ErrorModel::NoTask(query@),
            Error::AmbiguousTask { query } => ErrorModel::AmbiguousTask(query@),
            Error::SharedLine { query } => ErrorModel::SharedLine(query@),
        }
    }
}

/// The message an error displays.
pub open spec fn error_message(e: ErrorModel) -> Seq<char> {
    match e {
        ErrorModel::InvalidHeading(query, reason) => "invalid heading \""@ + debug_escaped(query)
            + "\": "@ + reason,
        ErrorModel::InvalidBullet(query, reason) => "invalid bullet \""@ + debug_escaped(query)
            + "\": "@ + reason,
        ErrorModel::NoHeading(query) => "no heading matching \""@ + debug_escaped(query) + "\""@,
        ErrorModel::AmbiguousHeading(query) => "multiple headings matching \""@ + debug_escaped(
            query,
        ) + "\""@,
        ErrorModel::NoBullet(query) => "no bullet matching \""@ + debug_escaped(query) + "\""@,
        ErrorModel::AmbiguousBullet(query) => "multiple bullets matching \""@ + debug_escaped(query)
            + "\""@,
        ErrorModel::UnclosedFence => "the target ends inside an unclosed code fence"@,
        ErrorModel::UnclosedHtml => "the target ends inside unclosed raw HTML"@,
        ErrorModel::BareCarriageReturn => "the note uses bare carriage-return line endings"@,
        ErrorModel::AbsorbedStructure => "the entry would change the structure around it"@,
        ErrorModel::NestedContent(query) => "the bullet matching \""@ + debug_escaped(query)
            + "\" holds nested content"@,
        ErrorModel::RemovalReshapes => "the removal would change the structure around it"@,
        ErrorModel::NoTask(query) => "no task matching \""@ + debug_escaped(query) + "\""@,
        ErrorModel::AmbiguousTask(query) => "multiple tasks matching \""@ + debug_escaped(query)
            + "\""@,
        ErrorModel::SharedLine(query) => "the bullet matching \""@ + debug_escaped(query)
            + "\" shares its line with another bullet"@,
    }
}

impl Error {
    /// The message the error displays.
    pub fn message(&self) -> (m: String)
        ensures
            m@ == error_message(self@),
    {
        proof {
            reveal_strlit("");
        }
        match self {
            Error::InvalidHeading { query, reason } => {
                let escaped = escape_debug(query.as_str());
                let head = joined("invalid heading \"", escaped.as_str(), "\": ");
                joined(head.as_str(), reason, "")
            },
            Error::InvalidBullet { query, reason } => {
                let escaped = escape_debug(query.as_str());
                let head = joined("invalid bullet \"", escaped.as_str(), "\": ");
                joined(head.as_str(), reason, "")
            },
            Error::NoHeading { query } => {
                let escaped = escape_debug(query.as_str());
                joined("no heading matching \"", escaped.as_str(), "\"")
            },
            Error::AmbiguousHeading { query } => {
                let escaped = escape_debug(query.as_str());
                joined("multiple headings matching \"", escaped.as_str(), "\"")
            },
            Error::NoBullet { query } => {
                let escaped = escape_debug(query.as_str());
                joined("no bullet matching \"", escaped.as_str(), "\"")
            },
            Error::AmbiguousBullet { query } => {
                let escaped = escape_debug(query.as_str());
                joined("multiple bullets matching \"", escaped.as_str(), "\"")
            },
            Error::UnclosedFence => joined("the target ends inside an unclosed code fence", "", ""),
            Error::UnclosedHtml => joined("the target ends inside unclosed raw HTML", "", ""),
            Error::BareCarriageReturn => joined(
                "the note uses bare carriage-return line endings",
                "",
                "",
            ),
            Error::AbsorbedStructure => joined(
                "the entry would change the structure around it",
                "",
                "",
            ),
            Error::NestedContent { query } => {
                let escaped = escape_debug(query.as_str());
                joined("the bullet matching \"", escaped.as_str(), "\" holds nested content")
            },
            Error::RemovalReshapes => joined(
                "the removal would change the structure around it",
                "",
                "",
            ),
            Error::NoTask { query } => {
                let escaped = escape_debug(query.as_str());
                joined("no task matching \"", escaped.as_str(), "\"")
            },
            Error::AmbiguousTask { query } => {
                let escaped = escape_debug(query.as_str());
                joined("multiple tasks matching \"", escaped.as_str(), "\"")
            },
            Error::SharedLine { query } => {
                let escaped = escape_debug(query.as_str());
                joined(
                    "the bullet matching \"",
                    escaped.as_str(),
                    "\" shares its line with another bullet",
                )
            },
        }
    }
}

/// Where the body of `t` starts, past its frontmatter block.
pub open spec fn body_offset(t: Seq<char>) -> int {
    t.len() - parse(t).body.len()
}

/// The note with `entry` appended verbatim at its very end: one
/// terminating newline is written, with a separating one first when the
/// note does not already end in one.
pub open spec fn appended(current: Seq<char>, entry: Seq<char>) -> Seq<char> {
    current + (if current.len() > 0 && current.last() != '\n' {
        seq!['\n']
    } else {
        Seq::empty()
    }) + entry + seq!['\n']
}

/// Exec twin of [`appended`].
fn appended_text(current: &[char], entry: &[char]) -> (out: Vec<char>)
    ensures
        out@ == appended(current@, entry@),
{
    let mut out: Vec<char> = Vec::new();
    push_all(&mut out, current);
    if current.len() > 0 && current[current.len() - 1] != '\n' {
        out.push('\n');
    }
    push_all(&mut out, entry);
    out.push('\n');
    assert(out@ =~= appended(current@, entry@));
    out
}

/// The error of the first query of a placement that cannot name a line:
/// headings first, then bullets.
pub open spec fn placement_problem(headings: Seq<String>, bullets: Seq<String>) -> Option<ErrorModel> {
    match first_problem(strings(headings), Kind::Heading) {
        Some(e) => Some(e),
        None => first_problem(strings(bullets), Kind::Bullet),
    }
}

/// The error of the first query of a scoped edit that cannot name a
/// line: the scope's headings and bullets, then the edit's own query.
pub open spec fn scoped_problem(headings: Seq<String>, bullets: Seq<String>, query: Seq<char>) -> Option<ErrorModel> {
    match placement_problem(headings, bullets) {
        Some(e) => Some(e),
        None => match crate::structure::locate::query_problem(query) {
            Some(reason) => Some(ErrorModel::InvalidBullet(query, reason)),
            None => None,
        },
    }
}

/// Whether `s` is `t` with an entry's lines landed at offset `at` of its
/// body: each entry line indented by `indent` and ended by `eol`, the
/// terminator used before `at`, with a blank line before or after as
/// `prefixed` and `suffixed` say; nothing else of `t` changes.
pub open spec fn landed(
    t: Seq<char>,
    entry: Seq<char>,
    s: Seq<char>,
    at: int,
    indent: Seq<char>,
    eol: Seq<char>,
    prefixed: bool,
    suffixed: bool,
) -> bool {
    &&& body_offset(t) <= at <= t.len()
    &&& eol == insertion_eol(t.take(at))
    &&& blank_indent(indent)
    &&& s == spliced(t, at, assembled(rendered(entry, indent, eol), prefixed, suffixed, eol), eol)
}

/// Which blank lines around the entry the `k`th attempt writes: first as
/// the place asks, then with a blank line before, then after, then both.
pub open spec fn variant(k: int, terminated: bool) -> (bool, bool) {
    if k == 0 {
        (terminated, false)
    } else if k == 1 {
        (true, false)
    } else if k == 2 {
        (terminated, true)
    } else {
        (true, true)
    }
}

/// The first attempt from the `k`th on whose spliced note keeps the
/// structure around the entry and lets the entry begin its own block.
pub open spec fn first_landing(
    t: Seq<char>,
    point: int,
    base: Seq<char>,
    eol: Seq<char>,
    before: Seq<Block>,
    at: int,
    old_len: int,
    owning: bool,
    indent_len: int,
    shift: int,
    terminated: bool,
    k: int,
) -> Option<Seq<char>>
    decreases 4 - k,
{
    if k < 0 || k >= 4 {
        None
    } else {
        let (p, x) = variant(k, terminated);
        let candidate = spliced(t, point, assembled(base, p, x, eol), eol);
        if splice_keeps(candidate, before, at, point - at, old_len, eol.len() as int) && splice_owns(
            candidate,
            point - at,
            old_len,
            at,
            owning,
            indent_len,
            shift,
            eol.len() as int,
            p,
        ) {
            Some(candidate)
        } else {
            first_landing(t, point, base, eol, before, at, old_len, owning, indent_len, shift, terminated, k + 1)
        }
    }
}

/// Where a placed entry lands in the body, before raw HTML and quotations
/// are accounted for, and the indent it is written with.
pub open spec fn placed_at(body: Seq<char>, hs: Seq<Heading>, bs: Seq<Span>, headings: Seq<Seq<char>>, bullets: Seq<Seq<char>>, indent: Indent) -> Result<(int, Seq<char>), ErrorModel> {
    match heading_path(body, hs, headings, headings.len() as int) {
        Err(e) => Err(e),
        Ok(scope) => if bullets.len() == 0 {
            Ok((landing_from(body, scope.0, scope.1, scope.0), Seq::<char>::empty()))
        } else {
            match bullet_path(body, bs, scope, bullets, bullets.len() as int) {
                Err(e) => Err(e),
                Ok(i) => Ok((landing_from(body, bs[i].start as int, bs[i].end as int, bs[i].start as int), indent_for(body, bs, i, indent))),
            }
        },
    }
}

/// The note `t` with `entry` landed where the placement names, as
/// [`inserted`] writes it.
pub open spec fn inserted_spec(t: Seq<char>, entry: Seq<char>, headings: Seq<String>, bullets: Seq<String>, indent: Indent) -> Result<Seq<char>, ErrorModel> {
    inserted_on(t, entry, headings, bullets, indent, char_events(t.skip(body_offset(t))))
}

/// The note `t` with `entry` landed where the placement names, as
/// [`inserted_with`] writes it when `ev` are the markdown events of the
/// note's body.
pub open spec fn inserted_on(t: Seq<char>, entry: Seq<char>, headings: Seq<String>, bullets: Seq<String>, indent: Indent, ev: Seq<MdEvent>) -> Result<Seq<char>, ErrorModel> {
    if headings.len() == 0 && bullets.len() == 0 {
        Ok(appended(t, entry))
    } else if placement_problem(headings, bullets) is Some {
        Err(placement_problem(headings, bullets).unwrap())
    } else if bare_carriage_return(t) {
        Err(ErrorModel::BareCarriageReturn)
    } else {
        let off = body_offset(t);
        let body = t.skip(off);
        match placed_at(body, outline_headings(ev), outline_bullets(ev), strings(headings), strings(bullets), indent) {
            Err(e) => Err(e),
            Ok((at, ind)) => {
                let cols = column_at(ind, 0, ind.len() as int);
                if exists|i: int| 0 <= i < outline_fenced(body, ev).len() && #[trigger] fence_traps(body, outline_fenced(body, ev)[i], at, cols) {
                    Err(ErrorModel::UnclosedFence)
                } else {
                    match moved_past(body, outline_html(body, ev), outline_quotes(ev), at, cols) {
                        Err(e) => Err(e),
                        Ok((at2, terminated)) => {
                            let point = off + at2;
                            let eol = insertion_eol(t.take(point));
                            let shift = if point > 0 && t[point - 1] == '\n' {
                                0
                            } else {
                                eol.len() as int
                            };
                            match first_landing(
                                t,
                                point,
                                rendered(entry, ind, eol),
                                eol,
                                blocks_of(ev),
                                at2,
                                body.len() as int,
                                blocks_of(char_events(entry)).len() > 0,
                                ind.len() as int,
                                shift,
                                terminated,
                                0,
                            ) {
                                Some(s) => Ok(s),
                                None => Err(ErrorModel::AbsorbedStructure),
                            }
                        },
                    }
                }
            },
        }
    }
}

/// The `k`th attempt's blank lines around the entry.
fn variant_at(k: usize, terminated: bool) -> (r: (bool, bool))
    ensures
        r == variant(k as int, terminated),
{
    if k == 0 {
        (terminated, false)
    } else if k == 1 {
        (true, false)
    } else if k == 2 {
        (terminated, true)
    } else {
        (true, true)
    }
}

/// `text` with `entry` landed at the place `placement` names: the end of
/// the innermost matched section, or nested at the end of the matched
/// bullet's thread. Entry lines are terminated like their new neighbors,
/// so a CRLF note stays CRLF throughout. An empty placement appends the
/// entry verbatim at the very end of the note instead.
///
/// Fails when a query is empty or spans lines, when a query matches no
/// heading or bullet in its scope or more than one, when the entry would
/// land inside an unclosed code fence or unclosed raw HTML, when the note
/// uses bare carriage-return line endings, or when no blank line around
/// the entry keeps the structure around it.
#[verifier::spinoff_prover]
#[verifier::rlimit(80)]
pub fn inserted(text: &str, entry: &str, placement: &Placement) -> (r: Result<String, Error>)
    ensures
        placement.headings@.len() == 0 && placement.bullets@.len() == 0 ==> (r matches Ok(s)
            && s@ == appended(text@, entry@)),
        !(placement.headings@.len() == 0 && placement.bullets@.len() == 0) ==> match placement_problem(
            placement.headings@,
            placement.bullets@,
        ) {
            Some(e) => r matches Err(x) && x@ == e,
            None => bare_carriage_return(text@) ==> (r matches Err(x) && x@
                == ErrorModel::BareCarriageReturn),
        },
        !(placement.headings@.len() == 0 && placement.bullets@.len() == 0) ==> (r is Ok ==> placement_problem(placement.headings@, placement.bullets@) is None),
        !(placement.headings@.len() == 0 && placement.bullets@.len() == 0) ==> (r is Ok ==> !bare_carriage_return(text@)),
        !(placement.headings@.len() == 0 && placement.bullets@.len() == 0) ==> (r matches Ok(s) ==> exists|at: int, indent: Seq<char>, eol: Seq<char>, prefixed: bool, suffixed: bool|
                #[trigger] landed(text@, entry@, s@, at, indent, eol, prefixed, suffixed)),
        outcome(r) == inserted_spec(text@, entry@, placement.headings@, placement.bullets@, placement.indent),
{
    let t = chars_of(text);
    let bs = body_start(t.as_slice());
    let body = sliced(t.as_slice(), bs, t.len());
    let events = events_of(body.as_slice());
    proof {
        crate::frontmatter::document::lemma_parse_body(t@);
        assert(body@ =~= t@.skip(bs as int));
    }
    inserted_with(text, entry, placement, &events)
}

/// [`inserted`] once the note's body has been parsed: `events` are the
/// markdown events of `text` past its frontmatter. The rest of the
/// behavior is [`inserted`]'s.
///
/// `text` with `entry` landed at the place `placement` names: the end of
/// the innermost matched section, or nested at the end of the matched
/// bullet's thread. Entry lines are terminated like their new neighbors,
/// so a CRLF note stays CRLF throughout. An empty placement appends the
/// entry verbatim at the very end of the note instead.
///
/// Fails when a query is empty or spans lines, when a query matches no
/// heading or bullet in its scope or more than one, when the entry would
/// land inside an unclosed code fence or unclosed raw HTML, when the note
/// uses bare carriage-return line endings, or when no blank line around
/// the entry keeps the structure around it.
#[verifier::spinoff_prover]
#[verifier::rlimit(80)]
pub fn inserted_with(text: &str, entry: &str, placement: &Placement, events: &Vec<MdEvent>) -> (r: Result<String, Error>)
    requires
        events_within(events@, (text@.len() - body_offset(text@)) as nat),
    ensures
        placement.headings@.len() == 0 && placement.bullets@.len() == 0 ==> (r matches Ok(s)
            && s@ == appended(text@, entry@)),
        !(placement.headings@.len() == 0 && placement.bullets@.len() == 0) ==> match placement_problem(
            placement.headings@,
            placement.bullets@,
        ) {
            Some(e) => r matches Err(x) && x@ == e,
            None => bare_carriage_return(text@) ==> (r matches Err(x) && x@
                == ErrorModel::BareCarriageReturn),
        },
        !(placement.headings@.len() == 0 && placement.bullets@.len() == 0) ==> (r is Ok ==> placement_problem(placement.headings@, placement.bullets@) is None),
        !(placement.headings@.len() == 0 && placement.bullets@.len() == 0) ==> (r is Ok ==> !bare_carriage_return(text@)),
        !(placement.headings@.len() == 0 && placement.bullets@.len() == 0) ==> (r matches Ok(s) ==> exists|at: int, indent: Seq<char>, eol: Seq<char>, prefixed: bool, suffixed: bool|
                #[trigger] landed(text@, entry@, s@, at, indent, eol, prefixed, suffixed)),
        outcome(r) == inserted_on(text@, entry@, placement.headings@, placement.bullets@, placement.indent, events@),
{
    let t = chars_of(text);
    let e = chars_of(entry);
    if placement.headings.len() == 0 && placement.bullets.len() == 0 {
        let out = appended_text(t.as_slice(), e.as_slice());
        return Ok(string_of(out.as_slice()));
    }
    validated_all(&placement.headings, Kind::Heading)?;
    validated_all(&placement.bullets, Kind::Bullet)?;
    if has_bare_carriage_return(t.as_slice()) {
        return Err(Error::BareCarriageReturn);
    }
    let bs = body_start(t.as_slice());
    let body = sliced(t.as_slice(), bs, t.len());
    proof {
        crate::frontmatter::document::lemma_parse_body(t@);
        assert(body@ =~= t@.skip(bs as int));
        assert(body_offset(text@) == bs);
    }
    let outline = outline(body.as_slice(), events.as_slice());
    let scope = match heading_scope(body.as_slice(), &outline, &placement.headings) {
        Ok(s) => s,
        Err(e) => {
            return Err(e);
        },
    };
    let (at, indent) = if placement.bullets.len() == 0 {
        (insertion_at(body.as_slice(), scope), Vec::new())
    } else {
        let index = match matched_bullet(body.as_slice(), &outline, scope, &placement.bullets) {
            Ok(i) => i,
            Err(e) => {
                return Err(e);
            },
        };
        let b = outline.bullets[index];
        assert(b.start <= b.end <= body@.len()) by {
            assert(outline.bullets@[index as int] == b);
        }
        assert(outline.bullets@[index as int] == b);
        (
            insertion_at(body.as_slice(), Span { start: b.start, end: b.end }),
            entry_indent(body.as_slice(), &outline, index, placement.indent),
        )
    };
    assert(placed_at(body@, outline.headings@, outline.bullets@, strings(placement.headings@), strings(placement.bullets@), placement.indent) == Ok::<(int, Seq<char>), ErrorModel>((at as int, indent@)));
    let entry_columns = columns(indent.as_slice(), 0, indent.len());
    match outside_fences(body.as_slice(), &outline, at, entry_columns) {
        Ok(()) => {},
        Err(e) => {
            return Err(e);
        },
    }
    let (at, terminated) = match past_blocks(body.as_slice(), &outline, at, entry_columns) {
        Ok(p) => p,
        Err(e) => {
            return Err(e);
        },
    };
    let point = bs + at;
    let eol = insertion_eol_of(t.as_slice(), point);
    let before = blocks(events.as_slice(), body.len());
    let entry_events = events_of(e.as_slice());
    let owning = blocks(entry_events.as_slice(), e.len()).len() > 0;
    let shift = if point > 0 && t[point - 1] == '\n' {
        0
    } else {
        eol.len()
    };
    let splice = Splice {
        before,
        at,
        boundary: bs,
        old_len: body.len(),
        owning,
        indent: indent.len(),
        shift,
        eol_len: eol.len(),
    };
    let base = rendered_entry(e.as_slice(), indent.as_slice(), eol.as_slice());
    assert(inserted_on(text@, entry@, placement.headings@, placement.bullets@, placement.indent, events@) == match first_landing(t@, point as int, base@, eol@, splice.before@, splice.at as int, splice.old_len as int, splice.owning, splice.indent as int, splice.shift as int, terminated, 0) {
        Some(s) => Ok::<Seq<char>, ErrorModel>(s),
        None => Err(ErrorModel::AbsorbedStructure),
    });
    let mut k: usize = 0;
    while k < 4
        invariant
            splice.at <= splice.old_len,
            crate::structure::blocks::blocks_within(splice.before@, splice.old_len as nat),
            body_offset(t@) <= point <= t@.len(),
            t@ == text@,
            e@ == entry@,
            !(placement.headings@.len() == 0 && placement.bullets@.len() == 0),
            eol@ == insertion_eol(t@.take(point as int)),
            base@ == rendered(e@, indent@, eol@),
            blank_indent(indent@),
            splice.boundary == bs,
            point == bs + splice.at,
            splice.eol_len == eol@.len(),
            inserted_on(text@, entry@, placement.headings@, placement.bullets@, placement.indent, events@) == match first_landing(t@, point as int, base@, eol@, splice.before@, splice.at as int, splice.old_len as int, splice.owning, splice.indent as int, splice.shift as int, terminated, k as int) {
                Some(s) => Ok::<Seq<char>, ErrorModel>(s),
                None => Err(ErrorModel::AbsorbedStructure),
            },
        decreases 4 - k,
    {
        let (prefixed, suffixed) = variant_at(k, terminated);
        let lines = assembled_lines(base.as_slice(), prefixed, suffixed, eol.as_slice());
        let candidate = spliced_text(t.as_slice(), point, lines.as_slice(), eol.as_slice());
        let (kept, own) = splice_check(candidate.as_slice(), &splice, prefixed);
        if kept && own {
            let out = string_of(candidate.as_slice());
            let ghost seen = out@;
            assert(landed(text@, entry@, seen, point as int, indent@, eol@, prefixed, suffixed));
            let r: Result<String, Error> = Ok(out);
            assert(r matches Ok(s) ==> s@ == seen);
            return r;
        }
        k += 1;
    }
    Err(Error::AbsorbedStructure)
}

/// Whether `t[from..to]` is one whole line of `t`'s body, its terminator
/// included.
pub open spec fn cut_line(t: Seq<char>, from: int, to: int) -> bool {
    &&& body_offset(t) <= from <= to <= t.len()
    &&& from == body_offset(t) || line_break(t[from - 1])
    &&& to == t.len() || (from < to && line_break(t[to - 1]))
    &&& forall|j: int|
        from <= j < to && line_break(#[trigger] t[j]) ==> j == to - 1 || (j == to - 2 && t[j]
            == '\r' && t[j + 1] == '\n')
}

/// `text` with the one bullet `query` names removed: its own line cut
/// out, never its thread. The bullet is matched inside the scope the
/// placement names, by a prefix of its first line past its marker; the
/// placement's indent is ignored. A bullet holding content beyond its
/// first line, or another bullet on it, is refused, and so is a bullet
/// sharing its line with the parent that opened it. Cutting an ordered
/// item renumbers the items after it downward; a cut that would raise a
/// survivor's number is refused.
///
/// Fails when a query is empty or spans lines, when the scope or `query`
/// matches no bullet or more than one, when the matched bullet holds
/// nested content or shares its line, when the removal would change the
/// structure around what it removes, or when the note uses bare
/// carriage-return line endings.
#[verifier::spinoff_prover]
#[verifier::rlimit(80)]
pub fn removed(text: &str, query: &str, scope: &Placement) -> (r: Result<String, Error>)
    ensures
        match scoped_problem(scope.headings@, scope.bullets@, query@) {
            Some(e) => r matches Err(x) && x@ == e,
            None => bare_carriage_return(text@) ==> (r matches Err(x) && x@
                == ErrorModel::BareCarriageReturn),
        },
        r is Ok ==> scoped_problem(scope.headings@, scope.bullets@, query@) is None,
        r is Ok ==> !bare_carriage_return(text@),
        r matches Ok(s) ==> exists|from: int, to: int|
            #[trigger] cut_line(text@, from, to) && s@ == text@.take(from) + text@.skip(to),
        outcome(r) == removed_spec(text@, scope.headings@, scope.bullets@, query@),
{
    let t = chars_of(text);
    let bs = body_start(t.as_slice());
    let body = sliced(t.as_slice(), bs, t.len());
    let events = events_of(body.as_slice());
    proof {
        crate::frontmatter::document::lemma_parse_body(t@);
        assert(body@ =~= t@.skip(bs as int));
    }
    removed_with(text, query, scope, &events)
}

/// [`removed`] once the note's body has been parsed: `events` are the
/// markdown events of `text` past its frontmatter. The rest of the
/// behavior is [`removed`]'s.
///
/// `text` with the one bullet `query` names removed: its own line cut
/// out, never its thread. The bullet is matched inside the scope the
/// placement names, by a prefix of its first line past its marker; the
/// placement's indent is ignored. A bullet holding content beyond its
/// first line, or another bullet on it, is refused, and so is a bullet
/// sharing its line with the parent that opened it. Cutting an ordered
/// item renumbers the items after it downward; a cut that would raise a
/// survivor's number is refused.
///
/// Fails when a query is empty or spans lines, when the scope or `query`
/// matches no bullet or more than one, when the matched bullet holds
/// nested content or shares its line, when the removal would change the
/// structure around what it removes, or when the note uses bare
/// carriage-return line endings.
#[verifier::spinoff_prover]
#[verifier::rlimit(80)]
pub fn removed_with(text: &str, query: &str, scope: &Placement, events: &Vec<MdEvent>) -> (r: Result<String, Error>)
    requires
        events_within(events@, (text@.len() - body_offset(text@)) as nat),
    ensures
        match scoped_problem(scope.headings@, scope.bullets@, query@) {
            Some(e) => r matches Err(x) && x@ == e,
            None => bare_carriage_return(text@) ==> (r matches Err(x) && x@
                == ErrorModel::BareCarriageReturn),
        },
        r is Ok ==> scoped_problem(scope.headings@, scope.bullets@, query@) is None,
        r is Ok ==> !bare_carriage_return(text@),
        r matches Ok(s) ==> exists|from: int, to: int|
            #[trigger] cut_line(text@, from, to) && s@ == text@.take(from) + text@.skip(to),
        outcome(r) == removed_on(text@, scope.headings@, scope.bullets@, query@, events@),
{
    validated_all(&scope.headings, Kind::Heading)?;
    validated_all(&scope.bullets, Kind::Bullet)?;
    let owned = query.to_owned();
    validated(&owned, Kind::Bullet)?;
    let t = chars_of(text);
    if has_bare_carriage_return(t.as_slice()) {
        return Err(Error::BareCarriageReturn);
    }
    let bs = body_start(t.as_slice());
    let body = sliced(t.as_slice(), bs, t.len());
    let outline = outline(body.as_slice(), events.as_slice());
    let range = match edit_scope(body.as_slice(), &outline, &scope.headings, &scope.bullets) {
        Ok(r) => r,
        Err(e) => {
            return Err(e);
        },
    };
    let index = match one_bullet(body.as_slice(), &outline, range, &owned) {
        Ok(i) => i,
        Err(e) => {
            return Err(e);
        },
    };
    proof {
        crate::frontmatter::document::lemma_parse_body(t@);
        assert(body@ =~= t@.skip(bs as int));
        assert(body_offset(text@) == bs);
    }
    let bullet = outline.bullets[index];
    assert(bullet.start <= bullet.end <= body@.len()) by {
        assert(outline.bullets@[index as int] == bullet);
    }
    assert(outline.bullets@[index as int] == bullet);
    let lead = content_start(body.as_slice(), bullet.start, bullet.end);
    let start = line_start(body.as_slice(), lead);
    let line_end = start + line_len(body.as_slice(), start, body.len());
    let within = interior(body.as_slice(), bullet.start, bullet.end);
    let ghost inner = (within.start as int, within.end as int);
    let mut other: usize = 0;
    while other < outline.bullets.len()
        invariant
            other <= outline.bullets@.len(),
            crate::structure::outline::outline_within(outline, body@.len()),
            scoped_problem(scope.headings@, scope.bullets@, query@) is None,
            !bare_carriage_return(text@),
            owned@ == query@,
            t@ == text@,
            bs == body_offset(text@),
            body@ == text@.skip(bs as int),
            outline.bullets@ == outline_bullets(events@),
            outline.headings@ == outline_headings(events@),
            edit_span(body@, outline.headings@, outline.bullets@, strings(scope.headings@), strings(scope.bullets@)) == Ok::<(int, int), ErrorModel>((range.start as int, range.end as int)),
            bullet_choice(body@, outline.bullets@, (range.start as int, range.end as int), query@) == Ok::<int, ErrorModel>(index as int),
            index < outline.bullets@.len(),
            bullet == outline.bullets@[index as int],
            inner == (within.start as int, within.end as int),
            inner == interior_span(body@, bullet),
            forall|o: int| 0 <= o < other ==> !(o != index && crate::structure::locate::within(body@, inner, #[trigger] outline.bullets@[o].start as int, outline.bullets@[o].end as int)),
        decreases outline.bullets@.len() - other,
    {
        let child = outline.bullets[other];
        assert(child.start <= child.end <= body@.len()) by {
            assert(outline.bullets@[other as int] == child);
        }
        assert(outline.bullets@[other as int] == child);
        if other != index && contains(within, body.as_slice(), child.start, child.end) {
            return Err(Error::NestedContent { query: owned });
        }
        other += 1;
    }
    if line_end < bullet.end && !blank(body.as_slice(), line_end, bullet.end) {
        return Err(Error::NestedContent { query: owned });
    }
    if content_start(body.as_slice(), start, line_end) != lead {
        return Err(Error::SharedLine { query: owned });
    }
    let before = blocks(events.as_slice(), body.len());
    let candidate = excised(t.as_slice(), bs + start, bs + line_end);
    if removal_kept(candidate.as_slice(), before.as_slice(), body.as_slice(), bs, start, line_end) {
        let out = string_of(candidate.as_slice());
        let ghost seen = out@;
        proof {
            let from = bs + start;
            let to = bs + line_end;
            assert(body@ == t@.subrange(bs as int, t@.len() as int));
            assert forall|j: int| from <= j < to && line_break(#[trigger] t@[j]) implies j == to - 1
                || (j == to - 2 && t@[j] == '\r' && t@[j + 1] == '\n') by {
                assert(t@[j] == body@[j - bs]);
                assert(line_break(body@[j - bs]));
                if j == to - 2 {
                    assert(t@[j + 1] == body@[j + 1 - bs]);
                }
            }
            if start > 0 {
                assert(t@[from - 1] == body@[start - 1]);
            }
            if line_end < body@.len() {
                assert(t@[to - 1] == body@[line_end - 1]);
            }
            assert(cut_line(text@, from as int, to as int));
        }
        let r: Result<String, Error> = Ok(out);
        assert(r matches Ok(s) ==> s@ == seen);
        return r;
    }
    Err(Error::RemovalReshapes)
}

/// Whether `s` is `t` with the task box whose state character sits at
/// `at` set to `checked`: unchanged when it already reads so, its state
/// character replaced otherwise.
pub open spec fn flipped(t: Seq<char>, s: Seq<char>, at: int, checked: bool) -> bool {
    &&& body_offset(t) < at && at + 1 < t.len()
    &&& t[at - 1] == '[' && t[at + 1] == ']'
    &&& t[at] == ' ' || t[at] == 'x' || t[at] == 'X'
    &&& s == if (t[at] == 'x' || t[at] == 'X') == checked {
        t
    } else {
        t.update(at, if checked { 'x' } else { ' ' })
    }
}

/// Whether offset `at` lies inside one of the code blocks among
/// `blocks`.
pub open spec fn in_code_at(blocks: Seq<Block>, at: int) -> bool {
    exists|i: int| 0 <= i < blocks.len() && (#[trigger] blocks[i]).kind is Code && blocks[i].start <= at < blocks[i].end
}

/// Whether offset `at` lies inside a code block among `blocks`.
fn in_code(blocks: &Vec<Block>, at: usize) -> (r: bool)
    ensures
        r == in_code_at(blocks@, at as int),
{
    let mut i: usize = 0;
    while i < blocks.len()
        invariant
            i <= blocks@.len(),
            forall|j: int| 0 <= j < i ==> !((#[trigger] blocks@[j]).kind is Code && blocks@[j].start <= at < blocks@[j].end),
        decreases blocks@.len() - i,
    {
        let b = blocks[i];
        assert(blocks@[i as int] == b);
        if matches!(b.kind, BlockKind::Code) && b.start <= at && at < b.end {
            return true;
        }
        i += 1;
    }
    false
}

/// The logical content of an edit's outcome.
pub open spec fn outcome(r: Result<String, Error>) -> Result<Seq<char>, ErrorModel> {
    match r {
        Ok(s) => Ok(s@),
        Err(e) => Err(e@),
    }
}

/// Whether `s[from..to]` holds nothing but spaces, tabs and line breaks.
pub open spec fn blank_run(s: Seq<char>, from: int, to: int) -> bool {
    forall|j: int| from <= j < to ==> edge_space(#[trigger] s[j])
}

/// The note `t` with the one bullet `query` names in the scope the
/// placement names cut out, as [`removed`] writes it.
pub open spec fn removed_spec(t: Seq<char>, headings: Seq<String>, bullets: Seq<String>, query: Seq<char>) -> Result<Seq<char>, ErrorModel> {
    removed_on(t, headings, bullets, query, char_events(t.skip(body_offset(t))))
}

/// The note `t` with the bullet `query` names removed, as
/// [`removed_with`] writes it when `ev` are the markdown events of the
/// note's body.
pub open spec fn removed_on(t: Seq<char>, headings: Seq<String>, bullets: Seq<String>, query: Seq<char>, ev: Seq<MdEvent>) -> Result<Seq<char>, ErrorModel> {
    match scoped_problem(headings, bullets, query) {
        Some(e) => Err(e),
        None => if bare_carriage_return(t) {
            Err(ErrorModel::BareCarriageReturn)
        } else {
            let off = body_offset(t);
            let body = t.skip(off);
                let bs = outline_bullets(ev);
            match edit_span(body, outline_headings(ev), bs, strings(headings), strings(bullets)) {
                Err(e) => Err(e),
                Ok(range) => match bullet_choice(body, bs, range, query) {
                    Err(e) => Err(e),
                    Ok(index) => {
                        let b = bs[index];
                        let lead = content_at(body, b.start as int, b.end as int);
                        let start = line_begin(body, lead);
                        let stop = line_stop(body, start, body.len() as int);
                        let inner = interior_span(body, b);
                        if exists|o: int| 0 <= o < bs.len() && o != index && within(body, inner, #[trigger] bs[o].start as int, bs[o].end as int) {
                            Err(ErrorModel::NestedContent(query))
                        } else if stop < b.end && !blank_run(body, stop, b.end as int) {
                            Err(ErrorModel::NestedContent(query))
                        } else if content_at(body, start, stop) != lead {
                            Err(ErrorModel::SharedLine(query))
                        } else {
                            let candidate = t.take(off + start) + t.skip(off + stop);
                            if removal_keeps(candidate, blocks_of(ev), body, off, start, stop) {
                                Ok(candidate)
                            } else {
                                Err(ErrorModel::RemovalReshapes)
                            }
                        }
                    },
                },
            }
        },
    }
}

/// Whether bullet `i` lies in `range` and is a task, outside code, whose
/// text past the box begins with `q`.
pub open spec fn task_fits(body: Seq<char>, bs: Seq<Span>, range: (int, int), code: Seq<Block>, q: Seq<char>, i: int) -> bool {
    let b = bs[i];
    let lead = content_at(body, b.start as int, b.end as int);
    let first = break_at(body, lead, b.end as int);
    &&& within(body, range, b.start as int, b.end as int)
    &&& task_at(body, lead, first) matches Some((task, at))
    &&& !in_code_at(code, at)
    &&& begins(body, task, first, q)
}

/// The offset of bullet `b`'s box state character.
pub open spec fn task_box(body: Seq<char>, b: Span) -> int {
    let lead = content_at(body, b.start as int, b.end as int);
    task_at(body, lead, break_at(body, lead, b.end as int)).unwrap().1
}

/// The note `t` with the task `query` names in the scope the placement
/// names set to `checked`, as [`toggled`] writes it.
pub open spec fn toggled_spec(t: Seq<char>, headings: Seq<String>, bullets: Seq<String>, query: Seq<char>, checked: bool) -> Result<Seq<char>, ErrorModel> {
    toggled_on(t, headings, bullets, query, checked, char_events(t.skip(body_offset(t))))
}

/// The note `t` with the task `query` names set to `checked`, as
/// [`toggled_with`] writes it when `ev` are the markdown events of the
/// note's body.
pub open spec fn toggled_on(t: Seq<char>, headings: Seq<String>, bullets: Seq<String>, query: Seq<char>, checked: bool, ev: Seq<MdEvent>) -> Result<Seq<char>, ErrorModel> {
    match scoped_problem(headings, bullets, query) {
        Some(e) => Err(e),
        None => if bare_carriage_return(t) {
            Err(ErrorModel::BareCarriageReturn)
        } else {
            let off = body_offset(t);
            let body = t.skip(off);
            let bs = outline_bullets(ev);
            match edit_span(body, outline_headings(ev), bs, strings(headings), strings(bullets)) {
                Err(e) => Err(e),
                Ok(range) => match pick(bs.len() as int, |i: int| task_fits(body, bs, range, blocks_of(ev), query, i)) {
                    Pick::Zero => Err(ErrorModel::NoTask(query)),
                    Pick::Many => Err(ErrorModel::AmbiguousTask(query)),
                    Pick::One(i) => {
                        let at = off + task_box(body, bs[i]);
                        Ok(if (t[at] == 'x' || t[at] == 'X') == checked {
                            t
                        } else {
                            t.update(at, if checked { 'x' } else { ' ' })
                        })
                    },
                },
            }
        },
    }
}

/// `text` with the one task `query` names checked or unchecked: the box's
/// state character flipped in place, nothing else touched. A task is a
/// bullet whose text starts with `[ ]`, `[x]`, or `[X]`; `query` is a
/// prefix of the task's text past the box, so the same query matches
/// before and after checking. A task already in the asked state comes
/// back unchanged.
///
/// Fails when a query is empty or spans lines, when the scope matches no
/// heading or bullet or more than one, when `query` matches no task or
/// more than one, or when the note uses bare carriage-return line
/// endings.
pub fn toggled(text: &str, query: &str, scope: &Placement, checked: bool) -> (r: Result<String, Error>)
    ensures
        match scoped_problem(scope.headings@, scope.bullets@, query@) {
            Some(e) => r matches Err(x) && x@ == e,
            None => bare_carriage_return(text@) ==> (r matches Err(x) && x@
                == ErrorModel::BareCarriageReturn),
        },
        r is Ok ==> scoped_problem(scope.headings@, scope.bullets@, query@) is None,
        r is Ok ==> !bare_carriage_return(text@),
        r matches Ok(s) ==> exists|at: int| #[trigger] flipped(text@, s@, at, checked),
        outcome(r) == toggled_spec(text@, scope.headings@, scope.bullets@, query@, checked),
{
    let t = chars_of(text);
    let bs = body_start(t.as_slice());
    let body = sliced(t.as_slice(), bs, t.len());
    let events = events_of(body.as_slice());
    proof {
        crate::frontmatter::document::lemma_parse_body(t@);
        assert(body@ =~= t@.skip(bs as int));
    }
    toggled_with(text, query, scope, checked, &events)
}

/// [`toggled`] once the note's body has been parsed: `events` are the
/// markdown events of `text` past its frontmatter. The rest of the
/// behavior is [`toggled`]'s.
///
/// `text` with the one task `query` names checked or unchecked: the box's
/// state character flipped in place, nothing else touched. A task is a
/// bullet whose text starts with `[ ]`, `[x]`, or `[X]`; `query` is a
/// prefix of the task's text past the box, so the same query matches
/// before and after checking. A task already in the asked state comes
/// back unchanged.
///
/// Fails when a query is empty or spans lines, when the scope matches no
/// heading or bullet or more than one, when `query` matches no task or
/// more than one, or when the note uses bare carriage-return line
/// endings.
pub fn toggled_with(text: &str, query: &str, scope: &Placement, checked: bool, events: &Vec<MdEvent>) -> (r: Result<String, Error>)
    requires
        events_within(events@, (text@.len() - body_offset(text@)) as nat),
    ensures
        match scoped_problem(scope.headings@, scope.bullets@, query@) {
            Some(e) => r matches Err(x) && x@ == e,
            None => bare_carriage_return(text@) ==> (r matches Err(x) && x@
                == ErrorModel::BareCarriageReturn),
        },
        r is Ok ==> scoped_problem(scope.headings@, scope.bullets@, query@) is None,
        r is Ok ==> !bare_carriage_return(text@),
        r matches Ok(s) ==> exists|at: int| #[trigger] flipped(text@, s@, at, checked),
        outcome(r) == toggled_on(text@, scope.headings@, scope.bullets@, query@, checked, events@),
{
    validated_all(&scope.headings, Kind::Heading)?;
    validated_all(&scope.bullets, Kind::Bullet)?;
    let owned = query.to_owned();
    validated(&owned, Kind::Bullet)?;
    let t = chars_of(text);
    if has_bare_carriage_return(t.as_slice()) {
        return Err(Error::BareCarriageReturn);
    }
    let bs = body_start(t.as_slice());
    let body = sliced(t.as_slice(), bs, t.len());
    proof {
        crate::frontmatter::document::lemma_parse_body(t@);
        assert(body@ =~= t@.skip(bs as int));
    }
    let outline = outline(body.as_slice(), events.as_slice());
    let range = match edit_scope(body.as_slice(), &outline, &scope.headings, &scope.bullets) {
        Ok(r) => r,
        Err(e) => {
            return Err(e);
        },
    };
    let code = blocks(events.as_slice(), body.len());
    let q = chars_of(owned.as_str());
    proof {
        crate::frontmatter::document::lemma_parse_body(t@);
        assert(body@ =~= t@.skip(bs as int));
        assert(body_offset(text@) == bs);
    }
    let ghost rg = (range.start as int, range.end as int);
    let ghost n = outline.bullets@.len() as int;
    let ghost p = |i: int| task_fits(body@, outline.bullets@, rg, code@, query@, i);
    let ghost mut fi: int = 0;
    let mut found: Option<usize> = None;
    let mut i: usize = 0;
    while i < outline.bullets.len()
        invariant
            i <= outline.bullets@.len(),
            crate::structure::outline::outline_within(outline, body@.len()),
            scoped_problem(scope.headings@, scope.bullets@, query@) is None,
            !bare_carriage_return(text@),
            owned@ == query@,
            q@ == query@,
            n == outline.bullets@.len(),
            rg == (range.start as int, range.end as int),
            p == (|i: int| task_fits(body@, outline.bullets@, rg, code@, query@, i)),
            t@ == text@,
            bs == body_offset(text@),
            body@ == text@.skip(bs as int),
            code@ == blocks_of(events@),
            outline.bullets@ == outline_bullets(events@),
            outline.headings@ == outline_headings(events@),
            edit_span(body@, outline.headings@, outline.bullets@, strings(scope.headings@), strings(scope.bullets@)) == Ok::<(int, int), ErrorModel>(rg),
            found is None ==> hit_from(n, 0, p) == hit_from(n, i as int, p),
            found matches Some(at) ==> {
                &&& hit_from(n, 0, p) == Some(fi)
                &&& hit_from(n, fi + 1, p) == hit_from(n, i as int, p)
                &&& 0 <= fi < n
                &&& at == task_box(body@, outline.bullets@[fi])
            },
            found matches Some(at) ==> {
                &&& 0 < at && at + 1 < body@.len()
                &&& body@[at - 1] == '['
                &&& body@[at + 1] == ']'
                &&& body@[at as int] == ' ' || body@[at as int] == 'x' || body@[at as int] == 'X'
            },
        decreases outline.bullets@.len() - i,
    {
        let b = outline.bullets[i];
        assert(b.start <= b.end <= body@.len()) by {
            assert(outline.bullets@[i as int] == b);
        }
        assert(outline.bullets@[i as int] == b);
        if contains(range, body.as_slice(), b.start, b.end) {
            let lead = content_start(body.as_slice(), b.start, b.end);
            let first = first_break(body.as_slice(), lead, b.end);
            if let Some((task, at)) = task_text(body.as_slice(), lead, first) {
                if !in_code(&code, at) && begins_with(body.as_slice(), task, first, q.as_slice()) {
                    assert(p(i as int));
                    if found.is_some() {
                        assert(hit_from(n, i as int, p) == Some(i as int));
                        assert(pick(n, p) == Pick::Many);
                        assert(toggled_on(text@, scope.headings@, scope.bullets@, query@, checked, events@) == Err::<Seq<char>, ErrorModel>(ErrorModel::AmbiguousTask(query@)));
                        return Err(Error::AmbiguousTask { query: owned });
                    }
                    found = Some(at);
                    proof {
                        fi = i as int;
                    }
                }
            }
        }
        i += 1;
    }
    let at = match found {
        Some(at) => at,
        None => {
            return Err(Error::NoTask { query: owned });
        },
    };
    let point = bs + at;
    proof {
        assert(body@ == t@.subrange(bs as int, t@.len() as int));
        assert(t@[point as int] == body@[at as int]);
        assert(t@[point - 1] == body@[at - 1]);
        assert(t@[point + 1] == body@[at + 1]);
    }
    let current = t[point];
    let done = current == 'x' || current == 'X';
    let ghost was = t@;
    let mut new = t;
    if done != checked {
        let state = if checked {
            'x'
        } else {
            ' '
        };
        new[point] = state;
    }
    let out = string_of(new.as_slice());
    let ghost seen = out@;
    assert(flipped(text@, seen, point as int, checked));
    assert(body_offset(text@) == bs);
    let r: Result<String, Error> = Ok(out);
    assert(r matches Ok(s) ==> s@ == seen);
    r
}

} // verus!
