//! Finding the place a structural query names: query validation, heading
//! and bullet matching, section and thread scopes, and the offset an
//! entry lands at once fences, raw HTML and quotations are accounted for.
use vstd::prelude::*;

use crate::frontmatter::strings;
use crate::structure::outline::{content_column, outline_within, Contained, Heading, Outline};
use crate::structure::scan::{
    begins_with, blank, break_at, bullet_text, column_at, columns, content_at, content_start, edge_space, first_break, line_stop,
    heading_span, heading_text, line_begin, line_break, line_len, line_start, text_start, Span,
};
use crate::structure::{Error, ErrorModel, Indent};
use crate::text::{chars_of, contains_char, has_char, leading, leading_count, lemma_leading_bound, in_class, trailing, trailing_count, CharClass};

verus! {

/// Which kind of query failed validation, for the error it reports.
#[derive(Clone, Copy)]
pub enum Kind {
    Heading,
    Bullet,
}

/// Why a query cannot name one line of a note, if it cannot.
pub open spec fn query_problem(q: Seq<char>) -> Option<Seq<char>> {
    if q.len() == 0 {
        Some("it is empty"@)
    } else if has_char(q, '\n') || has_char(q, '\r') {
        Some("it contains a line break"@)
    } else {
        None
    }
}

/// The error a query of `kind` with `reason` reports.
pub open spec fn invalid(kind: Kind, q: Seq<char>, reason: Seq<char>) -> ErrorModel {
    match kind {
        Kind::Heading => ErrorModel::InvalidHeading(q, reason),
        Kind::Bullet => ErrorModel::InvalidBullet(q, reason),
    }
}

/// The error of the first query in `qs` that cannot name a line.
pub open spec fn first_problem(qs: Seq<Seq<char>>, kind: Kind) -> Option<ErrorModel>
    decreases qs.len(),
{
    if qs.len() == 0 {
        None
    } else {
        match query_problem(qs[0]) {
            Some(reason) => Some(invalid(kind, qs[0], reason)),
            None => first_problem(qs.drop_first(), kind),
        }
    }
}

/// A query names one line of the note, so it must be one non-empty line.
pub fn validated(query: &String, kind: Kind) -> (r: Result<(), Error>)
    ensures
        r is Ok <==> query_problem(query@) is None,
        r matches Err(e) ==> e@ == invalid(kind, query@, query_problem(query@).unwrap()),
{
    let q = chars_of(query.as_str());
    let reason = if q.len() == 0 {
        "it is empty"
    } else if contains_char(q.as_slice(), 0, q.len(), '\n') || contains_char(
        q.as_slice(),
        0,
        q.len(),
        '\r',
    ) {
        assert(q@.subrange(0, q@.len() as int) =~= q@);
        "it contains a line break"
    } else {
        assert(q@.subrange(0, q@.len() as int) =~= q@);
        return Ok(());
    };
    let query = query.clone();
    match kind {
        Kind::Heading => Err(Error::InvalidHeading { query, reason }),
        Kind::Bullet => Err(Error::InvalidBullet { query, reason }),
    }
}

/// Validates every query in order, reporting the first that cannot name
/// a line.
pub fn validated_all(queries: &Vec<String>, kind: Kind) -> (r: Result<(), Error>)
    ensures
        first_problem(strings(queries@), kind) is None <==> r is Ok,
        r matches Err(e) ==> first_problem(strings(queries@), kind) == Some(e@),
{
    let ghost qs = strings(queries@);
    assert(qs.skip(0) =~= qs);
    let mut i: usize = 0;
    while i < queries.len()
        invariant
            i <= queries@.len(),
            qs == strings(queries@),
            first_problem(qs, kind) == first_problem(qs.skip(i as int), kind),
        decreases queries@.len() - i,
    {
        proof {
            assert(qs.skip(i as int)[0] == queries@[i as int]@);
            assert(qs.skip(i as int).drop_first() =~= qs.skip(i + 1));
        }
        validated(&queries[i], kind)?;
        i += 1;
    }
    assert(qs.skip(i as int).len() == 0);
    Ok(())
}

/// Whether a span sits inside `scope`; its content start stands in for
/// its leading edge, which is not a line boundary.
pub fn contains(scope: Span, body: &[char], start: usize, end: usize) -> (b: bool)
    requires
        start <= end <= body@.len(),
    ensures
        b == within(body@, (scope.start as int, scope.end as int), start as int, end as int),
{
    scope.start <= content_start(body, start, end) && end <= scope.end
}

/// Whether the element spanning `body[start..end]` lies inside `scope`,
/// judged from its first non-space character.
pub open spec fn within(body: Seq<char>, scope: (int, int), start: int, end: int) -> bool {
    scope.0 <= content_at(body, start, end) && end <= scope.1
}

/// Whether `body[from..to]` begins with `q`.
pub open spec fn begins(body: Seq<char>, from: int, to: int, q: Seq<char>) -> bool {
    q.len() <= to - from && body.subrange(from, from + q.len()) == q
}

/// Whether heading `h`'s text begins with `q`.
pub open spec fn heading_hit(body: Seq<char>, h: Heading, q: Seq<char>) -> bool {
    let lead = content_at(body, h.start as int, h.end as int);
    let first = break_at(body, lead, h.end as int);
    let text = heading_span(body, lead, first);
    begins(body, text.0, text.1, q)
}

/// How many indices below `n` a predicate holds at: none, exactly one
/// (named), or more.
pub enum Pick {
    Zero,
    One(int),
    Many,
}

/// The first index in `[i, n)` where `p` holds.
pub open spec fn hit_from(n: int, i: int, p: spec_fn(int) -> bool) -> Option<int>
    decreases n - i,
{
    if i >= n {
        None
    } else if p(i) {
        Some(i)
    } else {
        hit_from(n, i + 1, p)
    }
}

/// Whether `p` holds at no index, one, or several below `n`.
pub open spec fn pick(n: int, p: spec_fn(int) -> bool) -> Pick {
    match hit_from(n, 0, p) {
        None => Pick::Zero,
        Some(i) => match hit_from(n, i + 1, p) {
            None => Pick::One(i),
            Some(_) => Pick::Many,
        },
    }
}

pub proof fn lemma_hit_from(n: int, i: int, p: spec_fn(int) -> bool)
    ensures
        hit_from(n, i, p) matches Some(j) ==> i <= j < n && p(j),
    decreases n - i,
{
    if i < n && !p(i) {
        lemma_hit_from(n, i + 1, p);
    }
}

/// Whether heading `i` lies in `scope` and begins with `q`.
pub open spec fn heading_fits(body: Seq<char>, hs: Seq<Heading>, scope: (int, int), q: Seq<char>, i: int) -> bool {
    within(body, scope, hs[i].start as int, hs[i].end as int) && heading_hit(body, hs[i], q)
}

/// The heading `q` names in `scope`, or why none can be chosen.
pub open spec fn heading_choice(body: Seq<char>, hs: Seq<Heading>, scope: (int, int), q: Seq<char>) -> Result<int, ErrorModel> {
    match pick(hs.len() as int, |i: int| heading_fits(body, hs, scope, q, i)) {
        Pick::Zero => Err(ErrorModel::NoHeading(q)),
        Pick::One(i) => Ok(i),
        Pick::Many => Err(ErrorModel::AmbiguousHeading(q)),
    }
}

/// Whether the heading's text begins with `query`, character-exact: a
/// target is quoted from the note, not searched for.
pub fn heading_matches(body: &[char], heading: Heading, query: &[char]) -> (b: bool)
    requires
        heading.start <= heading.end <= body@.len(),
    ensures
        b == heading_hit(body@, heading, query@),
{
    let lead = content_start(body, heading.start, heading.end);
    let first = first_break(body, lead, heading.end);
    let text = heading_text(body, lead, first);
    begins_with(body, text.start, text.end, query)
}

/// The one heading inside `scope` whose text begins with `query`.
pub fn matched_heading(body: &[char], outline: &Outline, scope: Span, query: &String) -> (r: Result<usize, Error>)
    requires
        outline_within(*outline, body@.len()),
    ensures
        r matches Ok(i) ==> i < outline.headings@.len(),
        choice_view(r) == heading_choice(body@, outline.headings@, (scope.start as int, scope.end as int), query@),
{
    let q = chars_of(query.as_str());
    let ghost n = outline.headings@.len() as int;
    let ghost p = |i: int| heading_fits(body@, outline.headings@, (scope.start as int, scope.end as int), query@, i);
    let mut found: Option<usize> = None;
    let mut i: usize = 0;
    while i < outline.headings.len()
        invariant
            i <= outline.headings@.len(),
            outline_within(*outline, body@.len()),
            found matches Some(f) ==> f < i,
            q@ == query@,
            n == outline.headings@.len(),
            p == (|i: int| heading_fits(body@, outline.headings@, (scope.start as int, scope.end as int), query@, i)),
            found is None ==> hit_from(n, 0, p) == hit_from(n, i as int, p),
            found matches Some(f) ==> hit_from(n, 0, p) == Some(f as int) && hit_from(n, f + 1, p) == hit_from(n, i as int, p),
        decreases outline.headings@.len() - i,
    {
        let h = outline.headings[i];
        assert(h.start <= h.end <= body@.len()) by {
            assert(outline.headings@[i as int] == h);
        }
        assert(outline.headings@[i as int] == h);
        if contains(scope, body, h.start, h.end) && heading_matches(body, h, q.as_slice()) {
            assert(p(i as int));
            if found.is_some() {
                return Err(Error::AmbiguousHeading { query: query.clone() });
            }
            found = Some(i);
        }
        i += 1;
    }
    match found {
        Some(i) => Ok(i),
        None => Err(Error::NoHeading { query: query.clone() }),
    }
}

/// The logical content of a choice's outcome.
pub open spec fn choice_view(r: Result<usize, Error>) -> Result<int, ErrorModel> {
    match r {
        Ok(i) => Ok(i as int),
        Err(e) => Err(e@),
    }
}

/// The section heading `index` opens.
pub open spec fn section_span(body: Seq<char>, hs: Seq<Heading>, index: int) -> (int, int) {
    let h = hs[index];
    match hit_from(hs.len() as int, index + 1, |j: int| hs[j].level <= h.level) {
        Some(j) => (h.end as int, line_begin(body, hs[j].start as int)),
        None => (h.end as int, body.len() as int),
    }
}

/// The scope the first `k` headings of `path` narrow the body to.
pub open spec fn heading_path(body: Seq<char>, hs: Seq<Heading>, path: Seq<Seq<char>>, k: int) -> Result<(int, int), ErrorModel>
    decreases k,
{
    if k <= 0 {
        Ok((0, body.len() as int))
    } else {
        match heading_path(body, hs, path, k - 1) {
            Err(e) => Err(e),
            Ok(scope) => match heading_choice(body, hs, scope, path[k - 1]) {
                Err(e) => Err(e),
                Ok(i) => Ok(section_span(body, hs, i)),
            },
        }
    }
}

/// A path that fails at some heading fails the same way for every longer
/// prefix.
pub proof fn lemma_heading_path_err(body: Seq<char>, hs: Seq<Heading>, path: Seq<Seq<char>>, k: int, k2: int)
    requires
        0 <= k <= k2,
        heading_path(body, hs, path, k) is Err,
    ensures
        heading_path(body, hs, path, k2) == heading_path(body, hs, path, k),
    decreases k2 - k,
{
    if k < k2 {
        lemma_heading_path_err(body, hs, path, k, k2 - 1);
    }
}

/// The section a heading opens: from past its source to the line of the
/// next heading of the same or a shallower level, or the body's end.
pub fn section(body: &[char], outline: &Outline, index: usize) -> (s: Span)
    requires
        outline_within(*outline, body@.len()),
        index < outline.headings@.len(),
    ensures
        s.start <= body@.len(),
        s.end <= body@.len(),
        (s.start as int, s.end as int) == section_span(body@, outline.headings@, index as int),
{
    let heading = outline.headings[index];
    assert(heading.end <= body@.len()) by {
        assert(outline.headings@[index as int] == heading);
    }
    let mut end = body.len();
    let count = outline.headings.len();
    let mut j = index + 1;
    let ghost p = |j: int| outline.headings@[j].level <= heading.level;
    while j < outline.headings.len()
        invariant
            index < j <= outline.headings@.len(),
            outline_within(*outline, body@.len()),
            end == body@.len(),
            heading.end <= body@.len(),
            heading == outline.headings@[index as int],
            p == (|j: int| outline.headings@[j].level <= heading.level),
            hit_from(outline.headings@.len() as int, index + 1, p) == hit_from(outline.headings@.len() as int, j as int, p),
        decreases outline.headings@.len() - j,
    {
        let next = outline.headings[j];
        assert(next.start <= body@.len()) by {
            assert(outline.headings@[j as int] == next);
        }
        assert(outline.headings@[j as int] == next);
        if next.level <= heading.level {
            return Span { start: heading.end, end: line_start(body, next.start) };
        }
        j += 1;
    }
    Span { start: heading.end, end }
}

/// The scope a heading path narrows to: the whole body for an empty path,
/// else the innermost matched section.
pub fn heading_scope(body: &[char], outline: &Outline, path: &Vec<String>) -> (r: Result<Span, Error>)
    requires
        outline_within(*outline, body@.len()),
    ensures
        r matches Ok(s) ==> s.start <= body@.len() && s.end <= body@.len(),
        span_view(r) == heading_path(body@, outline.headings@, strings(path@), path@.len() as int),
{
    let mut scope = Span { start: 0, end: body.len() };
    let mut i: usize = 0;
    while i < path.len()
        invariant
            i <= path@.len(),
            outline_within(*outline, body@.len()),
            scope.start <= body@.len(),
            scope.end <= body@.len(),
            heading_path(body@, outline.headings@, strings(path@), i as int) == Ok::<(int, int), ErrorModel>((scope.start as int, scope.end as int)),
        decreases path@.len() - i,
    {
        assert(strings(path@)[i as int] == path@[i as int]@);
        let index = match matched_heading(body, outline, scope, &path[i]) {
            Ok(index) => index,
            Err(e) => {
                proof {
                    lemma_heading_path_err(body@, outline.headings@, strings(path@), i + 1, path@.len() as int);
                }
                return Err(e);
            },
        };
        scope = section(body, outline, index);
        i += 1;
    }
    Ok(scope)
}

/// The logical content of a scope's outcome.
pub open spec fn span_view(r: Result<Span, Error>) -> Result<(int, int), ErrorModel> {
    match r {
        Ok(s) => Ok((s.start as int, s.end as int)),
        Err(e) => Err(e@),
    }
}

/// Where the matchable text of the bullet spanning `body[start..end]`
/// starts, and where its first line ends.
pub open spec fn bullet_line_of(body: Seq<char>, start: int, end: int) -> (int, int) {
    let lead = content_at(body, start, end);
    let first = break_at(body, lead, end);
    (text_start(body, lead, first), first)
}

/// Whether bullet `i` lies in `scope` and its text begins with `q`.
pub open spec fn bullet_fits(body: Seq<char>, bs: Seq<Span>, scope: (int, int), q: Seq<char>, i: int) -> bool {
    let line = bullet_line_of(body, bs[i].start as int, bs[i].end as int);
    within(body, scope, bs[i].start as int, bs[i].end as int) && begins(body, line.0, line.1, q)
}

/// The bullet `q` names in `scope`, or why none can be chosen.
pub open spec fn bullet_choice(body: Seq<char>, bs: Seq<Span>, scope: (int, int), q: Seq<char>) -> Result<int, ErrorModel> {
    match pick(bs.len() as int, |i: int| bullet_fits(body, bs, scope, q, i)) {
        Pick::Zero => Err(ErrorModel::NoBullet(q)),
        Pick::One(i) => Ok(i),
        Pick::Many => Err(ErrorModel::AmbiguousBullet(q)),
    }
}

/// The descendant range of bullet `b`.
pub open spec fn interior_span(body: Seq<char>, b: Span) -> (int, int) {
    (bullet_line_of(body, b.start as int, b.end as int).0, b.end as int)
}

/// The bullet the first `k` segments of a bullet path name inside
/// `scope`, each later segment inside the previous match's thread.
pub open spec fn bullet_path(body: Seq<char>, bs: Seq<Span>, scope: (int, int), path: Seq<Seq<char>>, k: int) -> Result<int, ErrorModel>
    decreases k,
{
    if k <= 1 {
        bullet_choice(body, bs, scope, path[0])
    } else {
        match bullet_path(body, bs, scope, path, k - 1) {
            Err(e) => Err(e),
            Ok(i) => bullet_choice(body, bs, interior_span(body, bs[i]), path[k - 1]),
        }
    }
}

pub proof fn lemma_bullet_path_err(body: Seq<char>, bs: Seq<Span>, scope: (int, int), path: Seq<Seq<char>>, k: int, k2: int)
    requires
        1 <= k <= k2,
        bullet_path(body, bs, scope, path, k) is Err,
    ensures
        bullet_path(body, bs, scope, path, k2) == bullet_path(body, bs, scope, path, k),
    decreases k2 - k,
{
    if k < k2 {
        lemma_bullet_path_err(body, bs, scope, path, k, k2 - 1);
    }
}

/// The scope a placement narrows an edit to.
pub open spec fn edit_span(body: Seq<char>, hs: Seq<Heading>, bs: Seq<Span>, headings: Seq<Seq<char>>, bullets: Seq<Seq<char>>) -> Result<(int, int), ErrorModel> {
    match heading_path(body, hs, headings, headings.len() as int) {
        Err(e) => Err(e),
        Ok(section) => if bullets.len() == 0 {
            Ok(section)
        } else {
            match bullet_path(body, bs, section, bullets, bullets.len() as int) {
                Err(e) => Err(e),
                Ok(i) => Ok(interior_span(body, bs[i])),
            }
        },
    }
}

/// Where a bullet's matchable text starts, and where its first line ends.
pub fn bullet_line(body: &[char], start: usize, end: usize) -> (r: (usize, usize))
    requires
        start <= end <= body@.len(),
    ensures
        start <= r.0 <= r.1 <= end,
        (r.0 as int, r.1 as int) == bullet_line_of(body@, start as int, end as int),
        forall|j: int| r.0 <= j < r.1 ==> !line_break(#[trigger] body@[j]),
{
    let lead = content_start(body, start, end);
    let first = first_break(body, lead, end);
    (bullet_text(body, lead, first), first)
}

/// The one bullet inside `scope` whose text begins with `query`.
pub fn one_bullet(body: &[char], outline: &Outline, scope: Span, query: &String) -> (r: Result<usize, Error>)
    requires
        outline_within(*outline, body@.len()),
    ensures
        r matches Ok(i) ==> i < outline.bullets@.len(),
        choice_view(r) == bullet_choice(body@, outline.bullets@, (scope.start as int, scope.end as int), query@),
{
    let q = chars_of(query.as_str());
    let ghost n = outline.bullets@.len() as int;
    let ghost p = |i: int| bullet_fits(body@, outline.bullets@, (scope.start as int, scope.end as int), query@, i);
    let mut found: Option<usize> = None;
    let mut i: usize = 0;
    while i < outline.bullets.len()
        invariant
            i <= outline.bullets@.len(),
            outline_within(*outline, body@.len()),
            found matches Some(f) ==> f < i,
            q@ == query@,
            n == outline.bullets@.len(),
            p == (|i: int| bullet_fits(body@, outline.bullets@, (scope.start as int, scope.end as int), query@, i)),
            found is None ==> hit_from(n, 0, p) == hit_from(n, i as int, p),
            found matches Some(f) ==> hit_from(n, 0, p) == Some(f as int) && hit_from(n, f + 1, p) == hit_from(n, i as int, p),
        decreases outline.bullets@.len() - i,
    {
        let b = outline.bullets[i];
        assert(b.start <= b.end <= body@.len()) by {
            assert(outline.bullets@[i as int] == b);
        }
        assert(outline.bullets@[i as int] == b);
        let (text, first) = bullet_line(body, b.start, b.end);
        if contains(scope, body, b.start, b.end) && begins_with(body, text, first, q.as_slice()) {
            assert(p(i as int));
            if found.is_some() {
                return Err(Error::AmbiguousBullet { query: query.clone() });
            }
            found = Some(i);
        }
        i += 1;
    }
    match found {
        Some(i) => Ok(i),
        None => Err(Error::NoBullet { query: query.clone() }),
    }
}

/// The descendant range of a bullet: past its marker and the gap after
/// it, through the end of its thread.
pub fn interior(body: &[char], start: usize, end: usize) -> (s: Span)
    requires
        start <= end <= body@.len(),
    ensures
        start <= s.start <= s.end == end,
        (s.start as int, s.end as int) == interior_span(body@, Span { start, end }),
{
    let (text, _) = bullet_line(body, start, end);
    Span { start: text, end }
}

/// The one bullet a bullet path names inside `scope`: the first segment
/// anywhere in the scope, each later one strictly inside the previous
/// match's thread.
pub fn matched_bullet(body: &[char], outline: &Outline, scope: Span, path: &Vec<String>) -> (r: Result<usize, Error>)
    requires
        outline_within(*outline, body@.len()),
        path@.len() > 0,
    ensures
        r matches Ok(i) ==> i < outline.bullets@.len(),
        choice_view(r) == bullet_path(body@, outline.bullets@, (scope.start as int, scope.end as int), strings(path@), path@.len() as int),
{
    let ghost sc = (scope.start as int, scope.end as int);
    assert(strings(path@)[0] == path@[0]@);
    let mut index = match one_bullet(body, outline, scope, &path[0]) {
        Ok(index) => index,
        Err(e) => {
            proof {
                lemma_bullet_path_err(body@, outline.bullets@, sc, strings(path@), 1, path@.len() as int);
            }
            return Err(e);
        },
    };
    let mut i: usize = 1;
    while i < path.len()
        invariant
            1 <= i <= path@.len(),
            outline_within(*outline, body@.len()),
            index < outline.bullets@.len(),
            sc == (scope.start as int, scope.end as int),
            bullet_path(body@, outline.bullets@, sc, strings(path@), i as int) == Ok::<int, ErrorModel>(index as int),
        decreases path@.len() - i,
    {
        let b = outline.bullets[index];
        assert(b.start <= b.end <= body@.len()) by {
            assert(outline.bullets@[index as int] == b);
        }
        assert(outline.bullets@[index as int] == b);
        assert(strings(path@)[i as int] == path@[i as int]@);
        let within = interior(body, b.start, b.end);
        index = match one_bullet(body, outline, within, &path[i]) {
            Ok(index) => index,
            Err(e) => {
                proof {
                    lemma_bullet_path_err(body@, outline.bullets@, sc, strings(path@), i + 1, path@.len() as int);
                }
                return Err(e);
            },
        };
        i += 1;
    }
    Ok(index)
}

/// The scope a placement narrows a placed edit to: the innermost matched
/// section, then the interior of the last scoped bullet when the
/// placement descends a thread.
pub fn edit_scope(body: &[char], outline: &Outline, headings: &Vec<String>, bullets: &Vec<String>) -> (r: Result<Span, Error>)
    requires
        outline_within(*outline, body@.len()),
    ensures
        r matches Ok(s) ==> s.start <= body@.len() && s.end <= body@.len(),
        span_view(r) == edit_span(body@, outline.headings@, outline.bullets@, strings(headings@), strings(bullets@)),
{
    let section = match heading_scope(body, outline, headings) {
        Ok(s) => s,
        Err(e) => {
            return Err(e);
        },
    };
    if bullets.len() == 0 {
        return Ok(section);
    }
    let index = match matched_bullet(body, outline, section, bullets) {
        Ok(i) => i,
        Err(e) => {
            return Err(e);
        },
    };
    let b = outline.bullets[index];
    assert(b.start <= b.end <= body@.len()) by {
        assert(outline.bullets@[index as int] == b);
    }
    assert(outline.bullets@[index as int] == b);
    Ok(interior(body, b.start, b.end))
}

/// Where an entry lands among the lines of `body[offset..end]`: past the
/// last line holding more than whitespace, or at `at` when none does.
pub open spec fn landing_from(body: Seq<char>, offset: int, end: int, at: int) -> int
    decreases end - offset,
{
    if offset >= end {
        at
    } else {
        let stop = line_stop(body, offset, end);
        if stop <= offset || stop > end {
            at
        } else if forall|j: int| offset <= j < stop ==> edge_space(#[trigger] body[j]) {
            landing_from(body, stop, end, at)
        } else {
            landing_from(body, stop, end, stop)
        }
    }
}

/// The insertion offset for a scope: just past its last non-blank line,
/// so trailing blank lines stay after the entry. An all-blank scope
/// inserts at its start.
pub fn insertion_at(body: &[char], scope: Span) -> (at: usize)
    requires
        scope.start <= body@.len(),
        scope.end <= body@.len(),
    ensures
        at <= body@.len(),
        at == landing_from(body@, scope.start as int, scope.end as int, scope.start as int),
{
    let mut at = scope.start;
    let mut offset = scope.start;
    while offset < scope.end
        invariant
            scope.start <= offset <= body@.len(),
            at <= body@.len(),
            scope.end <= body@.len(),
            landing_from(body@, scope.start as int, scope.end as int, scope.start as int) == landing_from(body@, offset as int, scope.end as int, at as int),
        decreases scope.end - offset,
    {
        let length = line_len(body, offset, scope.end);
        if !blank(body, offset, offset + length) {
            at = offset + length;
        }
        offset += length;
    }
    at
}

/// The start of the line ending at `i`, not before `start`.
pub open spec fn back_to_break(body: Seq<char>, start: int, i: int) -> int
    decreases i - start,
{
    if i <= start || line_break(body[i - 1]) {
        i
    } else {
        back_to_break(body, start, i - 1)
    }
}

/// How many copies of `c` run from `i` up to `to`.
pub open spec fn run_from(body: Seq<char>, i: int, to: int, c: char) -> int
    decreases to - i,
{
    if i >= to || body[i] != c {
        0
    } else {
        1 + run_from(body, i + 1, to, c)
    }
}

/// Whether fenced code block `f` ends with its closing fence, as
/// [`closed_fence`] decides.
pub open spec fn fence_closed(body: Seq<char>, f: Contained) -> bool {
    let start = f.start as int;
    let trimmed = f.end - trailing(CharClass::LineEnd, body.subrange(start, f.end as int));
    let last = back_to_break(body, start, trimmed);
    let opening_end = break_at(body, start, f.end as int);
    let character = body[start];
    let run = run_from(body, start, opening_end, character);
    let line_end = break_at(body, last, f.end as int);
    let closing = last + leading(CharClass::Blank, body.subrange(last, line_end));
    let indent = column_at(body, last, closing);
    let closing_end = line_end - trailing(CharClass::Space, body.subrange(closing, line_end));
    &&& last != start
    &&& opening_end != start
    &&& !(indent > f.container && indent - f.container > 3)
    &&& closing_end - closing >= run
    &&& forall|j: int| closing <= j < closing_end ==> #[trigger] body[j] == character
}

/// Whether a fenced code block's source ends with a valid closing fence:
/// a line of at least as many of the opening's fence characters and
/// nothing else but trailing spaces, indented at most three columns past
/// the container's content column. The opening line never closes itself.
#[verifier::loop_isolation(false)]
pub fn closed_fence(body: &[char], fence: Contained) -> (b: bool)
    requires
        fence.start <= fence.end <= body@.len(),
    ensures
        b == fence_closed(body@, fence),
{
    let start = fence.start;
    let trimmed = fence.end - trailing_count(CharClass::LineEnd, body, start, fence.end);
    let mut last = trimmed;
    while last > start && body[last - 1] != '\n' && body[last - 1] != '\r'
        invariant
            start <= last <= trimmed <= body@.len(),
            back_to_break(body@, start as int, trimmed as int) == back_to_break(body@, start as int, last as int),
        decreases last,
    {
        last -= 1;
    }
    if last == start {
        return false;
    }
    let opening_end = first_break(body, start, fence.end);
    if opening_end == start {
        return false;
    }
    let character = body[start];
    let mut run: usize = 0;
    while start + run < opening_end && body[start + run] == character
        invariant
            start + run <= opening_end <= body@.len(),
            run_from(body@, start as int, opening_end as int, character) == run + run_from(body@, start + run, opening_end as int, character),
        decreases opening_end - start - run,
    {
        run += 1;
    }
    let line_end = first_break(body, last, fence.end);
    let closing = last + leading_count(CharClass::Blank, body, last, line_end);
    let indent = columns(body, last, closing);
    let closing_end = line_end - trailing_count(CharClass::Space, body, closing, line_end);
    if indent > fence.container && indent - fence.container > 3 {
        return false;
    }
    if closing_end - closing < run {
        return false;
    }
    let mut k = closing;
    while k < closing_end
        invariant
            closing <= k <= closing_end <= body@.len(),
            forall|j: int| closing <= j < k ==> #[trigger] body@[j] == character,
        decreases closing_end - k,
    {
        if body[k] != character {
            return false;
        }
        k += 1;
    }
    true
}

/// Whether an entry indented `entry` columns landing at `at` would fall
/// inside fenced code block `f` that never closes.
pub open spec fn fence_traps(body: Seq<char>, f: Contained, at: int, entry: int) -> bool {
    !(f.start >= at || at > f.end || entry < f.container) && !fence_closed(body, f)
}

/// Refuses an insertion offset inside an unclosed fenced code block: the
/// entry would read as code, and only a closing fence could keep it out.
/// An entry indented below the fence's container ends that container, and
/// the fence with it.
pub fn outside_fences(body: &[char], outline: &Outline, at: usize, entry: usize) -> (r: Result<(), Error>)
    requires
        outline_within(*outline, body@.len()),
    ensures
        r matches Err(e) ==> e@ == ErrorModel::UnclosedFence,
        r is Err <==> exists|i: int| 0 <= i < outline.fenced@.len() && #[trigger] fence_traps(body@, outline.fenced@[i], at as int, entry as int),
{
    let mut i: usize = 0;
    while i < outline.fenced.len()
        invariant
            i <= outline.fenced@.len(),
            outline_within(*outline, body@.len()),
            forall|j: int| 0 <= j < i ==> !#[trigger] fence_traps(body@, outline.fenced@[j], at as int, entry as int),
        decreases outline.fenced@.len() - i,
    {
        let fence = outline.fenced[i];
        assert(fence.start <= fence.end <= body@.len()) by {
            assert(outline.fenced@[i as int] == fence);
        }
        assert(outline.fenced@[i as int] == fence);
        if !(fence.start >= at || at > fence.end || entry < fence.container) {
            if !closed_fence(body, fence) {
                assert(fence_traps(body@, outline.fenced@[i as int], at as int, entry as int));
                return Err(Error::UnclosedFence);
            }
        }
        i += 1;
    }
    Ok(())
}

/// The end marker that closes a raw HTML block of a marker-terminated
/// kind: raw-text elements, comments, processing instructions, CDATA and
/// declarations.
#[derive(Clone, Copy, Debug, PartialEq, Eq)]
pub enum HtmlEnd {
    Script,
    Pre,
    Style,
    Textarea,
    Comment,
    Instruction,
    Cdata,
    Declaration,
}

/// Whether `c` equals the lowercase ASCII character `lower`, ignoring
/// ASCII case.
pub open spec fn ascii_fold_eq(c: char, lower: char) -> bool {
    c == lower || ('a' <= lower <= 'z' && (c as u32) + 32 == (lower as u32))
}

fn fold_eq(c: char, lower: char) -> (b: bool)
    ensures
        b == ascii_fold_eq(c, lower),
{
    c == lower || ('a' <= lower && lower <= 'z' && (c as u32) + 32 == (lower as u32))
}

/// Whether `s[at..to]` begins with `p`, ignoring ASCII case.
pub open spec fn folded_at(s: Seq<char>, at: int, to: int, p: Seq<char>) -> bool {
    at + p.len() <= to && forall|k: int| 0 <= k < p.len() ==> ascii_fold_eq(#[trigger] s[at + k], p[k])
}

/// Whether `s[from..to]` holds `p` anywhere, ignoring ASCII case.
pub open spec fn holds_folded_in(s: Seq<char>, from: int, to: int, p: Seq<char>) -> bool {
    (exists|a: int| from <= a < to && #[trigger] folded_at(s, a, to, p)) || p.len() == 0
}

/// Whether `s[at..to]` begins with `pattern`, ignoring ASCII case;
/// `pattern` is lowercase.
fn begins_folded(s: &[char], at: usize, to: usize, pattern: &[char]) -> (b: bool)
    requires
        at <= to <= s@.len(),
    ensures
        b ==> at + pattern@.len() <= to,
        b == folded_at(s@, at as int, to as int, pattern@),
{
    if to - at < pattern.len() {
        return false;
    }
    let mut k: usize = 0;
    while k < pattern.len()
        invariant
            k <= pattern@.len(),
            at + pattern@.len() <= to <= s@.len(),
            forall|j: int| 0 <= j < k ==> ascii_fold_eq(#[trigger] s@[at + j], pattern@[j]),
        decreases pattern@.len() - k,
    {
        if !fold_eq(s[at + k], pattern[k]) {
            assert(!ascii_fold_eq(s@[at + k as int], pattern@[k as int]));
            return false;
        }
        k += 1;
    }
    true
}

/// Whether `s[from..to]` holds `pattern` anywhere, ignoring ASCII case;
/// `pattern` is lowercase.
fn holds_folded(s: &[char], from: usize, to: usize, pattern: &[char]) -> (b: bool)
    requires
        from <= to <= s@.len(),
    ensures
        b == holds_folded_in(s@, from as int, to as int, pattern@),
{
    let mut at = from;
    while at < to
        invariant
            from <= at <= to <= s@.len(),
            forall|a: int| from <= a < at ==> !#[trigger] folded_at(s@, a, to as int, pattern@),
        decreases to - at,
    {
        if begins_folded(s, at, to, pattern) {
            return true;
        }
        at += 1;
    }
    pattern.len() == 0
}

/// The marker that closes an HTML block of kind `kind`.
pub open spec fn marker_of(kind: HtmlEnd) -> Seq<char> {
    match kind {
        HtmlEnd::Script => "</script>"@,
        HtmlEnd::Pre => "</pre>"@,
        HtmlEnd::Style => "</style>"@,
        HtmlEnd::Textarea => "</textarea>"@,
        HtmlEnd::Comment => "-->"@,
        HtmlEnd::Instruction => "?>"@,
        HtmlEnd::Cdata => "]]>"@,
        HtmlEnd::Declaration => ">"@,
    }
}

/// The marker of a marker-terminated HTML block kind.
fn end_marker(kind: HtmlEnd) -> (m: Vec<char>)
    ensures
        m@ == marker_of(kind),
{
    match kind {
        HtmlEnd::Script => chars_of("</script>"),
        HtmlEnd::Pre => chars_of("</pre>"),
        HtmlEnd::Style => chars_of("</style>"),
        HtmlEnd::Textarea => chars_of("</textarea>"),
        HtmlEnd::Comment => chars_of("-->"),
        HtmlEnd::Instruction => chars_of("?>"),
        HtmlEnd::Cdata => chars_of("]]>"),
        HtmlEnd::Declaration => chars_of(">"),
    }
}

/// Whether `c` may follow a raw-text tag name on an opening line.
pub open spec fn tag_gap_char(c: char) -> bool {
    c == ' ' || c == '\t' || c == '>' || c == '\r' || c == '\u{b}' || c == '\u{c}'
}

/// Exec twin of [`tag_gap_char`].
fn tag_gap(c: char) -> (b: bool)
    ensures
        b == tag_gap_char(c),
{
    c == ' ' || c == '\t' || c == '>' || c == '\r' || c == '\u{b}' || c == '\u{c}'
}

/// Whether the line `body[start..end]` opens the raw-text element `tag`.
pub open spec fn opens_tag(body: Seq<char>, start: int, end: int, tag: Seq<char>) -> bool {
    folded_at(body, start, end, tag) && (start + tag.len() == end || tag_gap_char(body[start + tag.len()]))
}

/// Exec twin of [`opens_tag`].
fn tag_opens(body: &[char], start: usize, end: usize, tag: &str) -> (b: bool)
    requires
        start <= end <= body@.len(),
    ensures
        b == opens_tag(body@, start as int, end as int, tag@),
{
    let t = chars_of(tag);
    if begins_folded(body, start, end, t.as_slice()) {
        let next = start + t.len();
        next == end || tag_gap(body[next])
    } else {
        false
    }
}

/// The kind of marker that can close a raw HTML block opening with the
/// line `body[start..end]`, as [`html_end`] finds it.
pub open spec fn html_kind(body: Seq<char>, start: int, end: int) -> Option<HtmlEnd> {
    if opens_tag(body, start, end, "<script"@) {
        Some(HtmlEnd::Script)
    } else if opens_tag(body, start, end, "<pre"@) {
        Some(HtmlEnd::Pre)
    } else if opens_tag(body, start, end, "<style"@) {
        Some(HtmlEnd::Style)
    } else if opens_tag(body, start, end, "<textarea"@) {
        Some(HtmlEnd::Textarea)
    } else if begins(body, start, end, "<!--"@) {
        Some(HtmlEnd::Comment)
    } else if begins(body, start, end, "<?"@) {
        Some(HtmlEnd::Instruction)
    } else if begins(body, start, end, "<![CDATA["@) {
        Some(HtmlEnd::Cdata)
    } else if begins(body, start, end, "<!"@) && start + 2 < end && (('a' <= body[start + 2]
        && body[start + 2] <= 'z') || ('A' <= body[start + 2] && body[start + 2] <= 'Z')) {
        Some(HtmlEnd::Declaration)
    } else {
        None
    }
}

/// The kind of marker that can close a raw HTML block, from its opening
/// line `body[start..end]`; `None` for every block only a blank line, or
/// the end of its container, ends. A raw-text element closes only at its
/// own closing tag.
pub fn html_end(body: &[char], start: usize, end: usize) -> (r: Option<HtmlEnd>)
    requires
        start <= end <= body@.len(),
    ensures
        r == html_kind(body@, start as int, end as int),
{
    if tag_opens(body, start, end, "<script") {
        return Some(HtmlEnd::Script);
    }
    if tag_opens(body, start, end, "<pre") {
        return Some(HtmlEnd::Pre);
    }
    if tag_opens(body, start, end, "<style") {
        return Some(HtmlEnd::Style);
    }
    if tag_opens(body, start, end, "<textarea") {
        return Some(HtmlEnd::Textarea);
    }
    let comment = chars_of("<!--");
    let instruction = chars_of("<?");
    let cdata = chars_of("<![CDATA[");
    let declaration = chars_of("<!");
    proof {
        reveal_strlit("<!");
    }
    if begins_with(body, start, end, comment.as_slice()) {
        Some(HtmlEnd::Comment)
    } else if begins_with(body, start, end, instruction.as_slice()) {
        Some(HtmlEnd::Instruction)
    } else if begins_with(body, start, end, cdata.as_slice()) {
        Some(HtmlEnd::Cdata)
    } else if begins_with(body, start, end, declaration.as_slice()) && declaration.len() == 2
        && start + 2 < end && (('a' <= body[start + 2] && body[start + 2] <= 'z') || ('A'
        <= body[start + 2] && body[start + 2] <= 'Z')) {
        Some(HtmlEnd::Declaration)
    } else {
        None
    }
}

/// Whether the HTML block `body[start..end]` of kind `kind` holds its end
/// marker on its last line, as [`closed_html`] decides.
pub open spec fn html_closed(body: Seq<char>, start: int, end: int, kind: HtmlEnd) -> bool {
    let c1 = if end > start && body[end - 1] == '\n' {
        end - 1
    } else {
        end
    };
    let c2 = if c1 > start && body[c1 - 1] == '\r' {
        c1 - 1
    } else {
        c1
    };
    holds_folded_in(body, back_to_break(body, start, c2), end, marker_of(kind))
}

/// Where an entry lands after a blank-terminated block ending at `end`,
/// and whether a blank line must precede it, as [`past_terminator`]
/// finds it.
pub open spec fn terminated(body: Seq<char>, end: int, at: int) -> (int, bool) {
    let stop = line_stop(body, end, body.len() as int);
    if stop > end && (forall|j: int| end <= j < stop ==> edge_space(#[trigger] body[j])) {
        (stop, false)
    } else {
        (at, true)
    }
}

/// Whether raw HTML block `h` holds an entry indented `entry` columns
/// landing at `at`.
pub open spec fn html_holds(h: Contained, at: int, entry: int) -> bool {
    !(h.start >= at || at > h.end || entry < h.container)
}

/// Where an entry lands once moved out of raw HTML and block quotes, and
/// whether a blank line must precede it, as [`past_blocks`] finds it.
pub open spec fn moved_past(body: Seq<char>, html: Seq<Contained>, quotes: Seq<Span>, at: int, entry: int) -> Result<(int, bool), ErrorModel> {
    match hit_from(html.len() as int, 0, |i: int| html_holds(html[i], at, entry)) {
        Some(i) => {
            let h = html[i];
            match html_kind(body, h.start as int, break_at(body, h.start as int, h.end as int)) {
                Some(kind) => if html_closed(body, h.start as int, h.end as int, kind) {
                    Ok((at, false))
                } else {
                    Err(ErrorModel::UnclosedHtml)
                },
                None => Ok(terminated(body, h.end as int, at)),
            }
        },
        None => match hit_from(quotes.len() as int, 0, |i: int| quotes[i].start < at <= quotes[i].end) {
            Some(i) => Ok(terminated(body, quotes[i].end as int, at)),
            None => Ok((at, false)),
        },
    }
}

/// Whether a marker-terminated HTML block's last line holds its end
/// marker, compared ignoring ASCII case. The last line is found past one
/// stripped terminator.
pub fn closed_html(body: &[char], start: usize, end: usize, kind: HtmlEnd) -> (b: bool)
    requires
        start <= end <= body@.len(),
    ensures
        b == html_closed(body@, start as int, end as int, kind),
{
    let mut content = end;
    if content > start && body[content - 1] == '\n' {
        content -= 1;
    }
    if content > start && body[content - 1] == '\r' {
        content -= 1;
    }
    let mut last = content;
    while last > start && body[last - 1] != '\n' && body[last - 1] != '\r'
        invariant
            start <= last <= content <= end <= body@.len(),
            back_to_break(body@, start as int, content as int) == back_to_break(body@, start as int, last as int),
        decreases last,
    {
        last -= 1;
    }
    let marker = end_marker(kind);
    holds_folded(body, last, end, marker.as_slice())
}

/// Where an entry lands after a blank-terminated block ending at `end`:
/// past the terminating blank when the note holds one, else at `at`, with
/// a blank line to be written before the entry.
pub fn past_terminator(body: &[char], end: usize, at: usize) -> (r: (usize, bool))
    requires
        end <= body@.len(),
        at <= body@.len(),
    ensures
        r.0 <= body@.len(),
        (r.0 as int, r.1) == terminated(body@, end as int, at as int),
{
    let length = line_len(body, end, body.len());
    if length > 0 && blank(body, end, end + length) {
        (end + length, false)
    } else {
        (at, true)
    }
}

/// The insertion offset moved out of raw HTML and block quotes, with
/// whether a blank line must precede the entry. A marker-terminated HTML
/// block that closed itself needs neither, an unclosed one is refused,
/// and an entry indented below a block's container ends the container.
pub fn past_blocks(body: &[char], outline: &Outline, at: usize, entry: usize) -> (r: Result<(usize, bool), Error>)
    requires
        outline_within(*outline, body@.len()),
        at <= body@.len(),
    ensures
        r matches Ok(p) ==> p.0 <= body@.len(),
        r matches Err(e) ==> e@ == ErrorModel::UnclosedHtml,
        match r {
            Ok(p) => Ok::<(int, bool), ErrorModel>((p.0 as int, p.1)),
            Err(e) => Err(e@),
        } == moved_past(body@, outline.html@, outline.quotes@, at as int, entry as int),
{
    let ghost ph = |i: int| html_holds(outline.html@[i], at as int, entry as int);
    let mut i: usize = 0;
    while i < outline.html.len()
        invariant
            i <= outline.html@.len(),
            outline_within(*outline, body@.len()),
            at <= body@.len(),
            ph == (|i: int| html_holds(outline.html@[i], at as int, entry as int)),
            hit_from(outline.html@.len() as int, 0, ph) == hit_from(outline.html@.len() as int, i as int, ph),
        decreases outline.html@.len() - i,
    {
        let block = outline.html[i];
        assert(block.start <= block.end <= body@.len()) by {
            assert(outline.html@[i as int] == block);
        }
        assert(outline.html@[i as int] == block);
        if !(block.start >= at || at > block.end || entry < block.container) {
            let first = first_break(body, block.start, block.end);
            return match html_end(body, block.start, first) {
                Some(kind) => {
                    if closed_html(body, block.start, block.end, kind) {
                        Ok((at, false))
                    } else {
                        Err(Error::UnclosedHtml)
                    }
                },
                None => Ok(past_terminator(body, block.end, at)),
            };
        }
        i += 1;
    }
    let ghost pq = |i: int| outline.quotes@[i].start < at <= outline.quotes@[i].end;
    let mut i: usize = 0;
    while i < outline.quotes.len()
        invariant
            i <= outline.quotes@.len(),
            outline_within(*outline, body@.len()),
            at <= body@.len(),
            pq == (|i: int| outline.quotes@[i].start < at <= outline.quotes@[i].end),
            hit_from(outline.quotes@.len() as int, 0, pq) == hit_from(outline.quotes@.len() as int, i as int, pq),
            hit_from(outline.html@.len() as int, 0, ph) is None,
            ph == (|i: int| html_holds(outline.html@[i], at as int, entry as int)),
        decreases outline.quotes@.len() - i,
    {
        let quote = outline.quotes[i];
        assert(quote.start <= quote.end <= body@.len()) by {
            assert(outline.quotes@[i as int] == quote);
        }
        assert(outline.quotes@[i as int] == quote);
        if quote.start < at && at <= quote.end {
            return Ok(past_terminator(body, quote.end, at));
        }
        i += 1;
    }
    Ok((at, false))
}

/// Whether every character of `s` is a space or a tab.
pub open spec fn blank_indent(s: Seq<char>) -> bool {
    forall|i: int| 0 <= i < s.len() ==> #[trigger] s[i] == ' ' || s[i] == '\t'
}

/// `n` spaces.
fn spaces(n: usize) -> (out: Vec<char>)
    ensures
        blank_indent(out@),
        out@ == Seq::new(n as nat, |i: int| ' '),
{
    let mut out: Vec<char> = Vec::new();
    let mut i: usize = 0;
    while i < n
        invariant
            i <= n,
            blank_indent(out@),
            out@ == Seq::new(i as nat, |i: int| ' '),
        decreases n - i,
    {
        out.push(' ');
        i += 1;
        assert(out@ =~= Seq::new(i as nat, |i: int| ' '));
    }
    out
}

/// A copy of `body[from..to]`, which holds only spaces and tabs.
fn blank_copy(body: &[char], from: usize, to: usize) -> (out: Vec<char>)
    requires
        from <= to <= body@.len(),
        from + leading(CharClass::Blank, body@.subrange(from as int, to as int)) == to,
    ensures
        blank_indent(out@),
        out@ == body@.subrange(from as int, to as int),
{
    let ghost t = body@.subrange(from as int, to as int);
    proof {
        lemma_leading_bound(CharClass::Blank, t);
    }
    let mut out: Vec<char> = Vec::new();
    let mut i = from;
    while i < to
        invariant
            from <= i <= to <= body@.len(),
            t == body@.subrange(from as int, to as int),
            forall|j: int| 0 <= j < t.len() ==> in_class(CharClass::Blank, #[trigger] t[j]),
            blank_indent(out@),
            out@ == body@.subrange(from as int, i as int),
        decreases to - i,
    {
        assert(in_class(CharClass::Blank, t[i - from]));
        out.push(body[i]);
        i += 1;
        assert(out@ =~= body@.subrange(from as int, i as int));
    }
    out
}

/// `n` spaces.
pub open spec fn spaces_of(n: int) -> Seq<char> {
    Seq::new(n as nat, |i: int| ' ')
}

/// `n` tabs.
pub open spec fn tabs(n: int) -> Seq<char> {
    Seq::new(n as nat, |i: int| '\t')
}

/// How many tabs carry column `reached` to `content`, at least one.
pub open spec fn tab_count(reached: int, content: int) -> int
    decreases content - reached,
{
    let step = 4 - reached % 4;
    if reached >= content || content - reached <= step || step <= 0 {
        1
    } else {
        1 + tab_count(reached + step, content)
    }
}

pub proof fn lemma_tab_count(reached: int, content: int)
    ensures
        tab_count(reached, content) >= 1,
    decreases content - reached,
{
    let step = 4 - reached % 4;
    if !(reached >= content || content - reached <= step || step <= 0) {
        lemma_tab_count(reached + step, content);
    }
}

/// The last direct child of bullet `index` among bullets `j..`, given
/// the one found so far.
pub open spec fn sibling_from(body: Seq<char>, bs: Seq<Span>, index: int, j: int, sib: Option<Span>) -> Option<Span>
    decreases bs.len() - j,
{
    if j < 0 || j >= bs.len() {
        sib
    } else {
        let child = bs[j];
        let inside = within(body, interior_span(body, bs[index]), child.start as int, child.end as int);
        let nested = match sib {
            Some(p) => within(body, interior_span(body, p), child.start as int, child.end as int),
            None => false,
        };
        sibling_from(body, bs, index, j + 1, if inside && !nested { Some(child) } else { sib })
    }
}

/// The indent an entry nested under bullet `index` is written with, as
/// [`entry_indent`] finds it.
pub open spec fn indent_for(body: Seq<char>, bs: Seq<Span>, index: int, indent: Indent) -> Seq<char> {
    match sibling_from(body, bs, index, index + 1, None) {
        Some(child) => {
            let start = content_at(body, child.start as int, child.end as int);
            let line = line_begin(body, start);
            if line + leading(CharClass::Blank, body.subrange(line, start)) == start {
                body.subrange(line, start)
            } else {
                spaces_of(column_at(body, line, start))
            }
        },
        None => {
            let b = bs[index];
            let start = content_at(body, b.start as int, b.end as int);
            let line = line_begin(body, start);
            let lead = leading(CharClass::Blank, body.subrange(line, start));
            let content = crate::structure::outline::item_column(body, b.start as int, b.end as int);
            match indent {
                Indent::Tab => body.subrange(line, line + lead) + tabs(tab_count(column_at(body, line, line + lead), content)),
                Indent::Spaces => spaces_of(content),
            }
        },
    }
}

/// The indent for an entry nested under the bullet at `index`: the last
/// direct child's indent when children exist, where the entry lands as
/// its sibling; else enough of the configured unit to reach the bullet's
/// content column. A child that opens on its parent's marker line has a
/// marker where its indent would be, and gets column-equivalent spaces.
#[verifier::loop_isolation(false)]
pub fn entry_indent(body: &[char], outline: &Outline, index: usize, indent: Indent) -> (out: Vec<char>)
    requires
        outline_within(*outline, body@.len()),
        index < outline.bullets@.len(),
    ensures
        blank_indent(out@),
        out@ == indent_for(body@, outline.bullets@, index as int, indent),
{
    let bullet = outline.bullets[index];
    assert(bullet.start <= bullet.end <= body@.len()) by {
        assert(outline.bullets@[index as int] == bullet);
    }
    assert(outline.bullets@[index as int] == bullet);
    let within = interior(body, bullet.start, bullet.end);
    let mut sibling: Option<Span> = None;
    let count = outline.bullets.len();
    let mut j = index + 1;
    while j < outline.bullets.len()
        invariant
            index < j <= outline.bullets@.len(),
            outline_within(*outline, body@.len()),
            sibling matches Some(p) ==> p.start <= p.end <= body@.len(),
            sibling_from(body@, outline.bullets@, index as int, index + 1, None) == sibling_from(body@, outline.bullets@, index as int, j as int, sibling),
        decreases outline.bullets@.len() - j,
    {
        let child = outline.bullets[j];
        assert(child.start <= child.end <= body@.len()) by {
            assert(outline.bullets@[j as int] == child);
        }
        assert(outline.bullets@[j as int] == child);
        if contains(within, body, child.start, child.end) {
            let descendant = match sibling {
                Some(prev) => {
                    let inner = interior(body, prev.start, prev.end);
                    contains(inner, body, child.start, child.end)
                },
                None => false,
            };
            if !descendant {
                sibling = Some(child);
            }
        }
        j += 1;
    }
    if let Some(child) = sibling {
        let start = content_start(body, child.start, child.end);
        let line = line_start(body, start);
        let lead = leading_count(CharClass::Blank, body, line, start);
        if line + lead == start {
            return blank_copy(body, line, start);
        }
        return spaces(columns(body, line, start));
    }
    let start = content_start(body, bullet.start, bullet.end);
    let line = line_start(body, start);
    let lead = leading_count(CharClass::Blank, body, line, start);
    let content = content_column(body, bullet.start, bullet.end);
    match indent {
        Indent::Tab => {
            proof {
                let t = body@.subrange(line as int, start as int);
                lemma_leading_bound(CharClass::Blank, t);
                assert(body@.subrange(line as int, line + lead) =~= t.subrange(0, lead as int));
                crate::text::lemma_leading_is(CharClass::Blank, t.subrange(0, lead as int), lead as int);
            }
            let mut prefix = blank_copy(body, line, line + lead);
            let mut reached = columns(body, line, line + lead);
            let ghost base = prefix@;
            let ghost r0 = reached as int;
            loop
                invariant
                    blank_indent(prefix@),
                    prefix@ + tabs(tab_count(reached as int, content as int)) == base + tabs(tab_count(r0, content as int)),
                decreases content - reached,
            {
                let ghost was = prefix@;
                let ghost tc = tab_count(reached as int, content as int);
                proof {
                    lemma_tab_count(reached as int, content as int);
                }
                prefix.push('\t');
                let step: usize = 4 - reached % 4;
                assert(tabs(tc) =~= seq!['\t'] + tabs(tc - 1));
                if reached >= content || content - reached <= step {
                    assert(tc == 1);
                    assert(prefix@ =~= was + tabs(tc));
                    return prefix;
                }
                assert(tc == 1 + tab_count(reached + step, content as int));
                reached = reached + step;
                assert(prefix@ + tabs(tab_count(reached as int, content as int)) =~= was + tabs(tc));
            }
        },
        Indent::Spaces => spaces(content),
    }
}

/// Where the text of the task line `body[lead..first]` starts past its
/// box, and the offset of the box's state character; `None` for a line
/// that is no task.
pub open spec fn task_at(body: Seq<char>, lead: int, first: int) -> Option<(int, int)> {
    let text = text_start(body, lead, first);
    if first - text < 3 {
        None
    } else if body[text] != '[' || body[text + 2] != ']' {
        None
    } else if !(body[text + 1] == ' ' || body[text + 1] == 'x' || body[text + 1] == 'X') {
        None
    } else if text + 3 == first {
        Some((first, text + 1))
    } else {
        let gap = leading(CharClass::Blank, body.subrange(text + 3, first));
        if gap == 0 {
            None
        } else {
            Some((text + 3 + gap, text + 1))
        }
    }
}

/// The text of a task line `body[lead..first]` past its box, and the
/// offset of the box's state character. A task's text begins `[ ]`,
/// `[x]`, or `[X]` directly past the marker, followed by whitespace or
/// the line's end; the whitespace is separator, not text.
pub fn task_text(body: &[char], lead: usize, first: usize) -> (r: Option<(usize, usize)>)
    requires
        lead <= first <= body@.len(),
    ensures
        task_at(body@, lead as int, first as int) == match r {
            Some(p) => Some((p.0 as int, p.1 as int)),
            None => None::<(int, int)>,
        },
        r matches Some(p) ==> {
            &&& lead < p.1 && p.1 + 1 < first && p.0 <= first
            &&& body@[p.1 - 1] == '['
            &&& body@[p.1 + 1] == ']'
            &&& body@[p.1 as int] == ' ' || body@[p.1 as int] == 'x' || body@[p.1 as int] == 'X'
        },
{
    let text = bullet_text(body, lead, first);
    if first - text < 3 {
        return None;
    }
    if body[text] != '[' || body[text + 2] != ']' {
        return None;
    }
    let state = body[text + 1];
    if !(state == ' ' || state == 'x' || state == 'X') {
        return None;
    }
    let rest = text + 3;
    if rest == first {
        return Some((first, text + 1));
    }
    let gap = leading_count(CharClass::Blank, body, rest, first);
    if gap == 0 {
        return None;
    }
    Some((rest + gap, text + 1))
}

} // verus!
