//! Line and marker scanning over a note body: where lines start and end,
//! what a heading or bullet line says, and how entries are spelled into
//! the note. Offsets count characters of the body.
use vstd::prelude::*;

use crate::text::{leading, leading_count, push_all, push_range, trailing, trailing_count, CharClass};

verus! {

/// A range of offsets into a body, `start <= end`.
#[derive(Clone, Copy, Debug, PartialEq, Eq)]
pub struct Span {
    pub start: usize,
    pub end: usize,
}

/// Whether a character ends a line: a newline or a carriage return.
pub open spec fn line_break(c: char) -> bool {
    c == '\n' || c == '\r'
}

/// Whether a character is whitespace a span edge can absorb.
pub open spec fn edge_space(c: char) -> bool {
    c == ' ' || c == '\t' || c == '\r' || c == '\n'
}

/// The first line break at or after `i` in `s[..to]`, or `to`.
pub open spec fn break_at(s: Seq<char>, i: int, to: int) -> int
    decreases to - i,
{
    if i >= to || line_break(s[i]) {
        i
    } else {
        break_at(s, i + 1, to)
    }
}

/// The first line break in `s[from..to]`, or `to`.
pub fn first_break(s: &[char], from: usize, to: usize) -> (e: usize)
    requires
        from <= to <= s@.len(),
    ensures
        from <= e <= to,
        e == break_at(s@, from as int, to as int),
        forall|j: int| from <= j < e ==> !line_break(#[trigger] s@[j]),
        e < to ==> line_break(s@[e as int]),
{
    let mut i = from;
    while i < to && s[i] != '\n' && s[i] != '\r'
        invariant
            from <= i <= to <= s@.len(),
            break_at(s@, from as int, to as int) == break_at(s@, i as int, to as int),
            forall|j: int| from <= j < i ==> !line_break(#[trigger] s@[j]),
        decreases to - i,
    {
        i += 1;
    }
    i
}

/// The first offset at or after `i` in `s[..to]` that is not edge space,
/// or `to`.
pub open spec fn content_at(s: Seq<char>, i: int, to: int) -> int
    decreases to - i,
{
    if i >= to || !edge_space(s[i]) {
        i
    } else {
        content_at(s, i + 1, to)
    }
}

/// The first non-edge-space offset of `s[from..to]`, or `to` when the
/// range holds none. A heading or item span always holds its marker.
pub fn content_start(s: &[char], from: usize, to: usize) -> (e: usize)
    requires
        from <= to <= s@.len(),
    ensures
        from <= e <= to,
        e == content_at(s@, from as int, to as int),
        forall|j: int| from <= j < e ==> edge_space(#[trigger] s@[j]),
        e < to ==> !edge_space(s@[e as int]),
{
    let mut i = from;
    while i < to && (s[i] == ' ' || s[i] == '\t' || s[i] == '\r' || s[i] == '\n')
        invariant
            from <= i <= to <= s@.len(),
            content_at(s@, from as int, to as int) == content_at(s@, i as int, to as int),
            forall|j: int| from <= j < i ==> edge_space(#[trigger] s@[j]),
        decreases to - i,
    {
        i += 1;
    }
    i
}

/// Where the content of `s[from..to]` ends, trailing whitespace dropped.
pub open spec fn content_stop(s: Seq<char>, from: int, to: int) -> int {
    to - trailing(CharClass::Whitespace, s.subrange(from, to))
}

/// The offset just past the last non-edge-space character of
/// `s[from..to]`, or `from`.
pub fn content_end(s: &[char], from: usize, to: usize) -> (e: usize)
    requires
        from <= to <= s@.len(),
    ensures
        from <= e <= to,
        e == content_stop(s@, from as int, to as int),
{
    to - trailing_count(CharClass::Whitespace, s, from, to)
}

/// The start of the line holding offset `i`.
pub open spec fn line_begin(s: Seq<char>, i: int) -> int
    decreases i,
{
    if i <= 0 {
        0
    } else if line_break(s[i - 1]) {
        i
    } else {
        line_begin(s, i - 1)
    }
}

/// The start of the line holding `offset`: just past the last line break
/// before it, or `0`.
pub fn line_start(s: &[char], offset: usize) -> (e: usize)
    requires
        offset <= s@.len(),
    ensures
        e <= offset,
        e == line_begin(s@, offset as int),
        forall|j: int| e <= j < offset ==> !line_break(#[trigger] s@[j]),
        e > 0 ==> line_break(s@[e - 1]),
{
    let mut i = offset;
    while i > 0 && s[i - 1] != '\n' && s[i - 1] != '\r'
        invariant
            i <= offset <= s@.len(),
            line_begin(s@, offset as int) == line_begin(s@, i as int),
            forall|j: int| i <= j < offset ==> !line_break(#[trigger] s@[j]),
        decreases i,
    {
        i -= 1;
    }
    i
}

/// The length of the first line of `s[from..to]`, its terminator
/// included; the whole range when nothing ends it.
pub fn line_len(s: &[char], from: usize, to: usize) -> (n: usize)
    requires
        from <= to <= s@.len(),
    ensures
        from + n == line_stop(s@, from as int, to as int),
        from + n <= to,
        from < to ==> n > 0,
        from + n == to || line_break(s@[from + n - 1]),
        forall|j: int|
            from <= j < from + n && line_break(#[trigger] s@[j]) ==> j == from + n - 1 || (j == from
                + n - 2 && s@[j] == '\r' && s@[j + 1] == '\n'),
{
    let e = first_break(s, from, to);
    if e == to {
        to - from
    } else if s[e] == '\r' && e + 1 < to && s[e + 1] == '\n' {
        e + 2 - from
    } else {
        e + 1 - from
    }
}

/// Where the line of `s[..to]` starting at `from` ends, its terminator
/// included.
pub open spec fn line_stop(s: Seq<char>, from: int, to: int) -> int {
    let e = break_at(s, from, to);
    if e == to {
        to
    } else if s[e] == '\r' && e + 1 < to && s[e + 1] == '\n' {
        e + 2
    } else {
        e + 1
    }
}

/// Whether `s[from..to]` holds nothing but spaces, tabs, and line breaks.
pub fn blank(s: &[char], from: usize, to: usize) -> (b: bool)
    requires
        from <= to <= s@.len(),
    ensures
        b == (forall|j: int| from <= j < to ==> edge_space(#[trigger] s@[j])),
{
    content_start(s, from, to) == to
}

/// `c` capped at the platform's limit.
pub open spec fn capped(c: int) -> int {
    if c > usize::MAX {
        usize::MAX as int
    } else {
        c
    }
}

/// The column reached from column `c` past character `ch`.
pub open spec fn column_step(c: int, ch: char) -> int {
    if ch == '\t' {
        capped(c + (4 - c % 4))
    } else {
        capped(c + 1)
    }
}

/// The display column reached after `s[from..i]`.
pub open spec fn column_at(s: Seq<char>, from: int, i: int) -> int
    decreases i - from,
{
    if i <= from {
        0
    } else {
        column_step(column_at(s, from, i - 1), s[i - 1])
    }
}

/// The display column reached after `s[from..to]`, a tab advancing to the
/// next four-column stop; saturating at the platform's limit.
pub fn columns(s: &[char], from: usize, to: usize) -> (c: usize)
    requires
        from <= to <= s@.len(),
    ensures
        c == column_at(s@, from as int, to as int),
{
    let mut column: usize = 0;
    let mut i = from;
    while i < to
        invariant
            from <= i <= to <= s@.len(),
            column == column_at(s@, from as int, i as int),
        decreases to - i,
    {
        if s[i] == '\t' {
            column = column.saturating_add(4 - column % 4);
        } else {
            column = column.saturating_add(1);
        }
        i += 1;
    }
    column
}

/// Where the matchable text of `s[from..to]` ends once an ATX closing
/// sequence is stripped.
pub open spec fn closing_cut(s: Seq<char>, from: int, to: int) -> int {
    let trimmed = to - trailing(CharClass::Blank, s.subrange(from, to));
    let stripped = trimmed - trailing(CharClass::Hash, s.subrange(from, trimmed));
    if stripped == trimmed {
        trimmed
    } else if stripped == from {
        from
    } else if s[stripped - 1] == ' ' || s[stripped - 1] == '\t' {
        stripped - trailing(CharClass::Blank, s.subrange(from, stripped))
    } else {
        trimmed
    }
}

/// The matchable text of the heading line `s[from..to]`, as a range.
pub open spec fn heading_span(s: Seq<char>, from: int, to: int) -> (int, int) {
    let hashes = leading(CharClass::Hash, s.subrange(from, to));
    if hashes == 0 || hashes > 6 {
        (from, to)
    } else if from + hashes == to {
        (to, to)
    } else {
        let rest = from + hashes;
        let gap = leading(CharClass::Blank, s.subrange(rest, to));
        if gap == 0 {
            (from, to)
        } else {
            (rest + gap, closing_cut(s, rest + gap, to))
        }
    }
}

/// The matchable text of a heading's first line `s[from..to]`: past an
/// ATX marker run and its separating whitespace, closing sequence
/// stripped; or the setext line as written.
pub fn heading_text(s: &[char], from: usize, to: usize) -> (r: Span)
    requires
        from <= to <= s@.len(),
    ensures
        from <= r.start <= r.end <= to,
        (r.start as int, r.end as int) == heading_span(s@, from as int, to as int),
{
    let hashes = leading_count(CharClass::Hash, s, from, to);
    if hashes == 0 || hashes > 6 {
        return Span { start: from, end: to };
    }
    let rest = from + hashes;
    if rest == to {
        return Span { start: rest, end: rest };
    }
    let gap = leading_count(CharClass::Blank, s, rest, to);
    if gap == 0 {
        return Span { start: from, end: to };
    }
    closing_stripped(s, rest + gap, to)
}

/// ATX text without its optional closing sequence: a trailing `#` run
/// preceded by whitespace, or standing alone, is syntax.
pub fn closing_stripped(s: &[char], from: usize, to: usize) -> (r: Span)
    requires
        from <= to <= s@.len(),
    ensures
        r.start == from,
        from <= r.end <= to,
        r.end == closing_cut(s@, from as int, to as int),
{
    let trimmed = to - trailing_count(CharClass::Blank, s, from, to);
    let stripped = trimmed - trailing_count(CharClass::Hash, s, from, trimmed);
    if stripped == trimmed {
        return Span { start: from, end: trimmed };
    }
    if stripped == from {
        return Span { start: from, end: from };
    }
    if s[stripped - 1] == ' ' || s[stripped - 1] == '\t' {
        Span { start: from, end: stripped - trailing_count(CharClass::Blank, s, from, stripped) }
    } else {
        Span { start: from, end: trimmed }
    }
}

/// Where an item's marker ends on the line `s[from..to]`.
pub open spec fn marker_end(s: Seq<char>, from: int, to: int) -> int {
    if from < to && (s[from] == '-' || s[from] == '*' || s[from] == '+') {
        from + 1
    } else {
        let digits = leading(CharClass::Digit, s.subrange(from, to));
        if from + digits < to {
            from + digits + 1
        } else {
            to
        }
    }
}

/// Where an item's matchable text starts on the line `s[from..to]`.
pub open spec fn text_start(s: Seq<char>, from: int, to: int) -> int {
    let rest = marker_end(s, from, to);
    rest + leading(CharClass::Blank, s.subrange(rest, to))
}

/// The line past an item's marker: one of `-*+`, or digits and one
/// delimiter.
pub fn past_marker(s: &[char], from: usize, to: usize) -> (e: usize)
    requires
        from <= to <= s@.len(),
    ensures
        from <= e <= to,
        e == marker_end(s@, from as int, to as int),
{
    if from < to && (s[from] == '-' || s[from] == '*' || s[from] == '+') {
        return from + 1;
    }
    let digits = leading_count(CharClass::Digit, s, from, to);
    if from + digits < to {
        from + digits + 1
    } else {
        to
    }
}

/// The matchable text of a bullet's first line `s[from..to]`: past its
/// marker and the whitespace separating it from the text.
pub fn bullet_text(s: &[char], from: usize, to: usize) -> (e: usize)
    requires
        from <= to <= s@.len(),
    ensures
        from <= e <= to,
        e == text_start(s@, from as int, to as int),
{
    let rest = past_marker(s, from, to);
    rest + leading_count(CharClass::Blank, s, rest, to)
}

/// Whether `s[from..to]` begins with `q`.
pub fn begins_with(s: &[char], from: usize, to: usize, q: &[char]) -> (b: bool)
    requires
        from <= to <= s@.len(),
    ensures
        b == (q@.len() <= to - from && s@.subrange(from as int, from + q@.len()) == q@),
{
    if to - from < q.len() {
        return false;
    }
    let mut i: usize = 0;
    while i < q.len()
        invariant
            i <= q@.len(),
            from + q@.len() <= to <= s@.len(),
            forall|j: int| 0 <= j < i ==> s@[from + j] == q@[j],
        decreases q@.len() - i,
    {
        if s[from + i] != q[i] {
            assert(s@.subrange(from as int, from + q@.len())[i as int] != q@[i as int]);
            return false;
        }
        i += 1;
    }
    assert(s@.subrange(from as int, from + q@.len()) =~= q@);
    true
}

/// Whether the text holds a carriage return with no newline after it.
pub open spec fn bare_carriage_return(t: Seq<char>) -> bool {
    exists|i: int| 0 <= i < t.len() && #[trigger] t[i] == '\r' && (i + 1 >= t.len() || t[i + 1] != '\n')
}

/// Exec twin of [`bare_carriage_return`].
pub fn has_bare_carriage_return(t: &[char]) -> (b: bool)
    ensures
        b == bare_carriage_return(t@),
{
    let mut i: usize = 0;
    while i < t.len()
        invariant
            i <= t@.len(),
            forall|j: int|
                0 <= j < i ==> !(#[trigger] t@[j] == '\r' && (j + 1 >= t@.len() || t@[j + 1] != '\n')),
        decreases t@.len() - i,
    {
        if t[i] == '\r' && (i + 1 >= t.len() || t[i + 1] != '\n') {
            return true;
        }
        i += 1;
    }
    false
}

/// The terminator for inserted lines: CRLF when the last newline before
/// the insertion point closes a CRLF pair, LF otherwise.
pub open spec fn insertion_eol(before: Seq<char>) -> Seq<char>
    decreases before.len(),
{
    if before.len() == 0 {
        seq!['\n']
    } else if before.last() == '\n' {
        if before.len() >= 2 && before[before.len() - 2] == '\r' {
            seq!['\r', '\n']
        } else {
            seq!['\n']
        }
    } else {
        insertion_eol(before.drop_last())
    }
}

proof fn lemma_insertion_eol_skips(t: Seq<char>, i: int, at: int)
    requires
        0 <= i <= at <= t.len(),
        forall|j: int| i <= j < at ==> t[j] != '\n',
    ensures
        insertion_eol(t.take(at)) == insertion_eol(t.take(i)),
    decreases at - i,
{
    if i < at {
        assert(t.take(at).drop_last() =~= t.take(at - 1));
        lemma_insertion_eol_skips(t, i, at - 1);
    }
}

/// Exec twin of [`insertion_eol`] on `t[..at]`.
pub fn insertion_eol_of(t: &[char], at: usize) -> (eol: Vec<char>)
    requires
        at <= t@.len(),
    ensures
        eol@ == insertion_eol(t@.take(at as int)),
        eol@ == seq!['\n'] || eol@ == seq!['\r', '\n'],
{
    let mut i = at;
    while i > 0 && t[i - 1] != '\n'
        invariant
            i <= at <= t@.len(),
            forall|j: int| i <= j < at ==> t@[j] != '\n',
        decreases i,
    {
        i -= 1;
    }
    proof {
        lemma_insertion_eol_skips(t@, i as int, at as int);
    }
    if i >= 2 && t[i - 2] == '\r' {
        let eol: Vec<char> = vec!['\r', '\n'];
        assert(eol@ =~= seq!['\r', '\n']);
        eol
    } else {
        let eol: Vec<char> = vec!['\n'];
        assert(eol@ =~= seq!['\n']);
        eol
    }
}

/// Whether `s` is one of the two line terminators.
pub open spec fn terminator(s: Seq<char>) -> bool {
    s == seq!['\n'] || s == seq!['\r', '\n']
}

/// The lines of an entry from `i`: each non-empty one prefixed with
/// `indent` and closed with `eol`, terminators inside the entry
/// normalized to `eol`; a blank line stays bare.
pub open spec fn rendered_from(entry: Seq<char>, i: int, indent: Seq<char>, eol: Seq<char>) -> Seq<
    char,
>
    decreases entry.len() - i,
{
    if i < 0 || i > entry.len() {
        Seq::empty()
    } else {
        let e = line_content_end(entry, i);
        let next = line_next(entry, i);
        let line = if e == i {
            eol
        } else {
            indent + entry.subrange(i, e) + eol
        };
        if next >= entry.len() || next <= i {
            line
        } else {
            line + rendered_from(entry, next, indent, eol)
        }
    }
}

/// The end of the content of the line of `s` starting at `i`.
pub open spec fn line_content_end(s: Seq<char>, i: int) -> int
    decreases s.len() - i,
{
    if i < 0 || i >= s.len() || line_break(s[i]) {
        i
    } else {
        line_content_end(s, i + 1)
    }
}

/// The start of the line after the one of `s` starting at `i`.
pub open spec fn line_next(s: Seq<char>, i: int) -> int {
    let e = line_content_end(s, i);
    if e >= s.len() {
        s.len() as int
    } else if s[e] == '\r' && e + 1 < s.len() && s[e + 1] == '\n' {
        e + 2
    } else {
        e + 1
    }
}

pub proof fn lemma_line_content_end(s: Seq<char>, i: int)
    requires
        0 <= i <= s.len(),
    ensures
        i <= line_content_end(s, i) <= s.len(),
        forall|j: int| i <= j < line_content_end(s, i) ==> !line_break(#[trigger] s[j]),
        line_content_end(s, i) < s.len() ==> line_break(s[line_content_end(s, i)]),
    decreases s.len() - i,
{
    if i < s.len() && !line_break(s[i]) {
        lemma_line_content_end(s, i + 1);
    }
}

/// The entry as spliceable lines.
pub open spec fn rendered(entry: Seq<char>, indent: Seq<char>, eol: Seq<char>) -> Seq<char> {
    rendered_from(entry, 0, indent, eol)
}

/// Exec twin of [`rendered`].
pub fn rendered_entry(entry: &[char], indent: &[char], eol: &[char]) -> (out: Vec<char>)
    ensures
        out@ == rendered(entry@, indent@, eol@),
{
    let n = entry.len();
    let mut out: Vec<char> = Vec::new();
    let mut i: usize = 0;
    loop
        invariant
            i <= n == entry@.len(),
            rendered(entry@, indent@, eol@) == out@ + rendered_from(entry@, i as int, indent@, eol@),
        decreases n - i,
    {
        let e = first_break(entry, i, n);
        proof {
            lemma_line_content_end(entry@, i as int);
            lemma_content_end_is(entry@, i as int, e as int);
        }
        let next = if e == n {
            n
        } else if entry[e] == '\r' && e + 1 < n && entry[e + 1] == '\n' {
            e + 2
        } else {
            e + 1
        };
        let ghost before = out@;
        if e == i {
            push_all(&mut out, eol);
        } else {
            push_all(&mut out, indent);
            push_range(&mut out, entry, i, e);
            push_all(&mut out, eol);
        }
        assert(out@ =~= before + (if e == i {
            eol@
        } else {
            indent@ + entry@.subrange(i as int, e as int) + eol@
        }));
        if next >= n {
            assert(out@ =~= rendered(entry@, indent@, eol@));
            return out;
        }
        assert(rendered(entry@, indent@, eol@) =~= out@ + rendered_from(
            entry@,
            next as int,
            indent@,
            eol@,
        ));
        i = next;
    }
}

pub proof fn lemma_content_end_is(s: Seq<char>, i: int, e: int)
    requires
        0 <= i <= e <= s.len(),
        forall|j: int| i <= j < e ==> !line_break(#[trigger] s[j]),
        e < s.len() ==> line_break(s[e]),
    ensures
        line_content_end(s, i) == e,
    decreases e - i,
{
    if i < e {
        lemma_content_end_is(s, i + 1, e);
    }
}

/// The entry's lines with a blank line before, after, neither, or both.
pub open spec fn assembled(base: Seq<char>, prefixed: bool, suffixed: bool, eol: Seq<char>) -> Seq<
    char,
> {
    (if prefixed {
        eol
    } else {
        Seq::empty()
    }) + base + (if suffixed {
        eol
    } else {
        Seq::empty()
    })
}

/// Exec twin of [`assembled`].
pub fn assembled_lines(base: &[char], prefixed: bool, suffixed: bool, eol: &[char]) -> (out: Vec<
    char,
>)
    ensures
        out@ == assembled(base@, prefixed, suffixed, eol@),
{
    let mut out: Vec<char> = Vec::new();
    if prefixed {
        push_all(&mut out, eol);
    }
    push_all(&mut out, base);
    if suffixed {
        push_all(&mut out, eol);
    }
    assert(out@ =~= assembled(base@, prefixed, suffixed, eol@));
    out
}

/// `t` with `lines` inserted at `at`, preceded by a terminator when the
/// text before the insertion point does not end in a newline.
pub open spec fn spliced(t: Seq<char>, at: int, lines: Seq<char>, eol: Seq<char>) -> Seq<char> {
    t.take(at) + (if at > 0 && t[at - 1] == '\n' {
        Seq::empty()
    } else {
        eol
    }) + lines + t.skip(at)
}

/// Exec twin of [`spliced`].
pub fn spliced_text(t: &[char], at: usize, lines: &[char], eol: &[char]) -> (out: Vec<char>)
    requires
        at <= t@.len(),
    ensures
        out@ == spliced(t@, at as int, lines@, eol@),
{
    let mut out: Vec<char> = Vec::new();
    push_range(&mut out, t, 0, at);
    if !(at > 0 && t[at - 1] == '\n') {
        push_all(&mut out, eol);
    }
    push_all(&mut out, lines);
    push_range(&mut out, t, at, t.len());
    assert(out@ =~= spliced(t@, at as int, lines@, eol@));
    out
}

/// `t` with `t[from..to]` cut out.
pub fn excised(t: &[char], from: usize, to: usize) -> (out: Vec<char>)
    requires
        from <= to <= t@.len(),
    ensures
        out@ == t@.take(from as int) + t@.skip(to as int),
{
    let mut out: Vec<char> = Vec::new();
    push_range(&mut out, t, 0, from);
    push_range(&mut out, t, to, t.len());
    assert(out@ =~= t@.take(from as int) + t@.skip(to as int));
    out
}

} // verus!
