//! What locating and toggling promise: a bullet path descends thread by
//! thread, and the task a toggle checks is found again past its box, so
//! asking for the former state gives the note back and asking for the
//! held state changes nothing.
use vstd::prelude::*;

use crate::frontmatter::document::{closing_from, fence_line, head_len, lemma_closing_from, lemma_line_end, line_end, parse};
use crate::frontmatter::lines::content;
use crate::frontmatter::strings;
use crate::structure::blocks::blocks_of;
use crate::structure::locate::{begins, bullet_path, edit_span, hit_from, pick, task_at, within, Pick};
use crate::structure::markdown::{char_events, events_within, lemma_char_events_within, Mark, MdEvent};
use crate::structure::outline::{open_quotes, outline_bullets, outline_headings, stack_after};
use crate::structure::scan::{bare_carriage_return, break_at, content_at, edge_space, line_break, marker_end, text_start, Span};
use crate::structure::{body_offset, task_box, task_fits, toggled_on, toggled_spec, ErrorModel};
use crate::text::{find_from, in_class, leading, lemma_find_from, CharClass};

verus! {

/// Whether `c` can stand inside a task box.
pub open spec fn box_state(c: char) -> bool {
    c == ' ' || c == 'x' || c == 'X'
}

/// Whether `s` is `t` with the state character of the task box at `p`
/// replaced by another state character, and nothing else changed.
pub open spec fn box_flip(t: Seq<char>, s: Seq<char>, p: int) -> bool {
    &&& 0 < p && p + 1 < t.len()
    &&& t[p - 1] == '[' && t[p + 1] == ']'
    &&& box_state(t[p]) && box_state(s[p])
    &&& s.len() == t.len()
    &&& forall|k: int| 0 <= k < t.len() && k != p ==> #[trigger] s[k] == t[k]
}

/// The offset in `t` of the box the toggle of `query` in the scope sets,
/// reading `ev` as the parse of `t`'s body; `None` where the toggle finds
/// no single task.
pub open spec fn toggle_target(t: Seq<char>, headings: Seq<String>, bullets: Seq<String>, query: Seq<char>, ev: Seq<MdEvent>) -> Option<int> {
    let off = body_offset(t);
    let body = t.skip(off);
    let bs = outline_bullets(ev);
    match edit_span(body, outline_headings(ev), bs, strings(headings), strings(bullets)) {
        Err(_) => None,
        Ok(range) => match pick(bs.len() as int, |i: int| task_fits(body, bs, range, blocks_of(ev), query, i)) {
            Pick::One(i) => Some(off + task_box(body, bs[i])),
            _ => None,
        },
    }
}

/// Whether bullet `b` of `body` reads the character at `a` only as a
/// box's state: the bullet does not start there, and a task's text past
/// its box does not run over it within the query's length.
pub open spec fn box_unread(body: Seq<char>, b: Span, a: int, query: Seq<char>) -> bool {
    let lead = content_at(body, b.start as int, b.end as int);
    let first = break_at(body, lead, b.end as int);
    &&& b.start != a
    &&& task_at(body, lead, first) matches Some((task, _)) ==> !(task <= a < task + query.len())
}

/// Whether the toggled note `c` reads as the original `t` did: the parser
/// reports the same events for its body, the scope names the same range in
/// it, and no bullet reads the flipped character but as a box's state.
pub open spec fn reads_alike(t: Seq<char>, c: Seq<char>, headings: Seq<String>, bullets: Seq<String>, query: Seq<char>) -> bool {
    let off = body_offset(t);
    let ev = char_events(t.skip(off));
    let bs = outline_bullets(ev);
    let hs = outline_headings(ev);
    &&& char_events(c.skip(body_offset(c))) == ev
    &&& edit_span(c.skip(body_offset(c)), hs, bs, strings(headings), strings(bullets)) == edit_span(t.skip(off), hs, bs, strings(headings), strings(bullets))
    &&& (toggle_target(t, headings, bullets, query, ev) matches Some(p) ==> forall|j: int|
        0 <= j < bs.len() ==> #[trigger] box_unread(t.skip(off), bs[j], p - off, query))
}

/// Asking for the state a task already holds changes nothing: where a
/// toggle finds its task, one of the two states gives the note back
/// unchanged and the other flips the box.
pub proof fn toggled_to_held_state(t: Seq<char>, headings: Seq<String>, bullets: Seq<String>, query: Seq<char>, checked: bool)
    requires
        toggled_spec(t, headings, bullets, query, checked) is Ok,
    ensures
        toggled_spec(t, headings, bullets, query, !checked) is Ok,
        toggled_spec(t, headings, bullets, query, checked) == Ok::<Seq<char>, ErrorModel>(t)
            || toggled_spec(t, headings, bullets, query, !checked) == Ok::<Seq<char>, ErrorModel>(t),
{
}

/// Toggling a task and then asking the toggled note for the task's former
/// state gives the note back, unless the box read `X`, which comes back
/// as `x`; asking the toggled note for the state it now holds changes
/// nothing. Both hold wherever the toggled note reads as the original did
/// ([`reads_alike`]): the query names the task by its text past the box,
/// so the flip does not move what it finds.
pub proof fn toggled_round_trip(t: Seq<char>, headings: Seq<String>, bullets: Seq<String>, query: Seq<char>, checked: bool)
    requires
        t.len() <= usize::MAX,
        toggled_spec(t, headings, bullets, query, checked) is Ok,
        reads_alike(t, toggled_spec(t, headings, bullets, query, checked)->Ok_0, headings, bullets, query),
    ensures
        ({
            let c = toggled_spec(t, headings, bullets, query, checked)->Ok_0;
            let p = toggle_target(t, headings, bullets, query, char_events(t.skip(body_offset(t))))->Some_0;
            &&& toggle_target(t, headings, bullets, query, char_events(t.skip(body_offset(t)))) is Some
            &&& toggled_spec(c, headings, bullets, query, checked) == Ok::<Seq<char>, ErrorModel>(c)
            &&& (c != t && t[p] != 'X' ==> toggled_spec(c, headings, bullets, query, !checked) == Ok::<Seq<char>, ErrorModel>(t))
        }),
{
    let c = toggled_spec(t, headings, bullets, query, checked)->Ok_0;
    let off = body_offset(t);
    let bx = t.skip(off);
    let ev = char_events(bx);
    let bs = outline_bullets(ev);
    let hs = outline_headings(ev);
    let range = edit_span(bx, hs, bs, strings(headings), strings(bullets))->Ok_0;
    let fx = |i: int| task_fits(bx, bs, range, blocks_of(ev), query, i);
    let i = pick(bs.len() as int, fx)->One_0;
    assert(toggled_spec(t, headings, bullets, query, checked) == toggled_on(t, headings, bullets, query, checked, ev));
    let p = off + task_box(bx, bs[i]);
    assert(toggle_target(t, headings, bullets, query, ev) == Some(p));
    if c != t {
        lemma_flip_back(t, headings, bullets, query, checked, i, p);
    }
}

/// The case of [`toggled_round_trip`] where the toggle flipped the box at
/// `p`, the state character of task `i`'s box.
proof fn lemma_flip_back(t: Seq<char>, headings: Seq<String>, bullets: Seq<String>, query: Seq<char>, checked: bool, i: int, p: int)
    requires
        t.len() <= usize::MAX,
        toggled_spec(t, headings, bullets, query, checked) is Ok,
        toggled_spec(t, headings, bullets, query, checked)->Ok_0 != t,
        reads_alike(t, toggled_spec(t, headings, bullets, query, checked)->Ok_0, headings, bullets, query),
        ({
            let off = body_offset(t);
            let bx = t.skip(off);
            let ev = char_events(bx);
            let bs = outline_bullets(ev);
            let range = edit_span(bx, outline_headings(ev), bs, strings(headings), strings(bullets))->Ok_0;
            &&& edit_span(bx, outline_headings(ev), bs, strings(headings), strings(bullets)) is Ok
            &&& pick(bs.len() as int, |j: int| task_fits(bx, bs, range, blocks_of(ev), query, j)) == Pick::One(i)
            &&& p == off + task_box(bx, bs[i])
            &&& toggle_target(t, headings, bullets, query, ev) == Some(p)
        }),
    ensures
        ({
            let c = toggled_spec(t, headings, bullets, query, checked)->Ok_0;
            &&& toggled_spec(c, headings, bullets, query, checked) == Ok::<Seq<char>, ErrorModel>(c)
            &&& (t[p] != 'X' ==> toggled_spec(c, headings, bullets, query, !checked) == Ok::<Seq<char>, ErrorModel>(t))
        }),
{
    let c = toggled_spec(t, headings, bullets, query, checked)->Ok_0;
    let off = body_offset(t);
    let bx = t.skip(off);
    let ev = char_events(bx);
    let bs = outline_bullets(ev);
    let hs = outline_headings(ev);
    let range = edit_span(bx, hs, bs, strings(headings), strings(bullets))->Ok_0;
    let fx = |j: int| task_fits(bx, bs, range, blocks_of(ev), query, j);
    assert(toggled_spec(t, headings, bullets, query, checked) == toggled_on(t, headings, bullets, query, checked, ev));
    // The flipped box, in the body and in the whole note.
    lemma_offset_bounds(t);
    lemma_char_events_within(bx);
    lemma_bullets_within(ev, bx.len());
    crate::structure::locate::lemma_hit_from(bs.len() as int, 0, fx);
    let b = bs[i];
    let lead = content_at(bx, b.start as int, b.end as int);
    let first = break_at(bx, lead, b.end as int);
    lemma_content_range(bx, b.start as int, b.end as int);
    lemma_break_range(bx, lead, b.end as int);
    lemma_task_range(bx, lead, first);
    let a = task_box(bx, b);
    assert(p == off + a);
    let new = if checked { 'x' } else { ' ' };
    assert(c == t.update(p, new));
    assert(box_flip(t, c, p));
    // The toggled note splits where the original does, and its body is
    // the original's with the same box flipped.
    lemma_offset_alike(t, c, p);
    let by = c.skip(off);
    assert(box_flip(bx, by, a)) by {
        assert forall|k: int| 0 <= k < bx.len() && k != a implies #[trigger] by[k] == bx[k] by {
            assert(by[k] == c[k + off]);
            assert(bx[k] == t[k + off]);
        }
    }
    lemma_bare_alike(t, c, p);
    // Every bullet fits the query in the toggled body as in the original.
    assert(reads_alike(t, c, headings, bullets, query));
    assert forall|j: int| 0 <= j < bs.len() implies #[trigger] box_unread(bx, bs[j], a, query) by {
        let pp = toggle_target(t, headings, bullets, query, ev)->Some_0;
        assert(pp == p);
        assert(box_unread(t.skip(off), bs[j], pp - off, query));
    }
    let fy = |j: int| task_fits(by, bs, range, blocks_of(ev), query, j);
    assert forall|j: int| 0 <= j < bs.len() implies #[trigger] fy(j) == fx(j) by {
        assert(box_unread(bx, bs[j], a, query));
        lemma_fits_alike(bx, by, a, bs, range, blocks_of(ev), query, j);
    }
    lemma_pick_alike(bs.len() as int, fx, fy);
    lemma_content_alike(bx, by, a, b.start as int, b.end as int);
    lemma_break_alike(bx, by, a, lead, b.end as int);
    lemma_task_alike(bx, by, a, lead, first);
    assert(task_box(by, b) == a);
    assert(toggled_spec(c, headings, bullets, query, checked) == toggled_on(c, headings, bullets, query, checked, ev));
    assert(toggled_spec(c, headings, bullets, query, !checked) == toggled_on(c, headings, bullets, query, !checked, ev));
    assert(c[p] == new);
    if t[p] != 'X' {
        assert(c.update(p, if !checked { 'x' } else { ' ' }) =~= t);
    }
}

/// Every bullet `events` open lies within a body of `n` characters when
/// every event does.
proof fn lemma_bullets_within(events: Seq<MdEvent>, n: nat)
    requires
        events_within(events, n),
    ensures
        forall|j: int| 0 <= j < outline_bullets(events).len() ==> #[trigger] outline_bullets(events)[j].start <= outline_bullets(events)[j].end <= n,
    decreases events.len(),
{
    if events.len() > 0 {
        assert forall|i: int| 0 <= i < events.drop_last().len() implies #[trigger] events.drop_last()[i].start <= events.drop_last()[i].end <= n by {
            assert(events.drop_last()[i] == events[i]);
        }
        lemma_bullets_within(events.drop_last(), n);
        let e = events.last();
        assert(e == events[events.len() - 1]);
        let prev = outline_bullets(events.drop_last());
        if e.mark == Mark::Item && open_quotes(stack_after(events.drop_last())) == 0 {
            let now = prev.push(Span { start: e.start, end: e.end });
            assert(outline_bullets(events) == now);
            assert forall|j: int| 0 <= j < outline_bullets(events).len() implies #[trigger] outline_bullets(events)[j].start <= outline_bullets(events)[j].end <= n by {
                if j < prev.len() {
                    assert(now[j] == prev[j]);
                    assert(prev[j].start <= prev[j].end <= n);
                } else {
                    assert(now[j] == Span { start: e.start, end: e.end });
                }
            }
        } else {
            assert(outline_bullets(events) == prev);
            assert forall|j: int| 0 <= j < outline_bullets(events).len() implies #[trigger] outline_bullets(events)[j].start <= outline_bullets(events)[j].end <= n by {
                assert(prev[j].start <= prev[j].end <= n);
            }
        }
    }
}

/// A note's body starts within it.
proof fn lemma_offset_bounds(t: Seq<char>)
    ensures
        0 <= body_offset(t) <= t.len(),
{
    crate::frontmatter::document::lemma_parse_body(t);
}

/// A scan for content stays within its range.
proof fn lemma_content_range(s: Seq<char>, i: int, to: int)
    requires
        0 <= i <= to,
    ensures
        i <= content_at(s, i, to) <= to,
    decreases to - i,
{
    if i < to && edge_space(s[i]) {
        lemma_content_range(s, i + 1, to);
    }
}

/// A scan for a line break stays within its range.
proof fn lemma_break_range(s: Seq<char>, i: int, to: int)
    requires
        0 <= i <= to,
    ensures
        i <= break_at(s, i, to) <= to,
    decreases to - i,
{
    if i < to && !line_break(s[i]) {
        lemma_break_range(s, i + 1, to);
    }
}

/// A run of leading characters is no longer than its text.
proof fn lemma_leading_bound(class: CharClass, s: Seq<char>)
    ensures
        leading(class, s) <= s.len(),
    decreases s.len(),
{
    if s.len() > 0 && in_class(class, s[0]) {
        lemma_leading_bound(class, s.drop_first());
    }
}

/// An item marker ends within its line.
proof fn lemma_marker_range(s: Seq<char>, from: int, to: int)
    requires
        0 <= from <= to <= s.len(),
    ensures
        from <= marker_end(s, from, to) <= to,
{
    lemma_leading_bound(CharClass::Digit, s.subrange(from, to));
}

/// An item's text starts within its line.
proof fn lemma_text_range(s: Seq<char>, from: int, to: int)
    requires
        0 <= from <= to <= s.len(),
    ensures
        from <= text_start(s, from, to) <= to,
{
    lemma_marker_range(s, from, to);
    let rest = marker_end(s, from, to);
    lemma_leading_bound(CharClass::Blank, s.subrange(rest, to));
}

/// A task's box sits inside its line, its text past the box.
proof fn lemma_task_range(s: Seq<char>, lead: int, first: int)
    requires
        0 <= lead <= first <= s.len(),
    ensures
        task_at(s, lead, first) matches Some((task, at)) ==> {
            &&& lead < at && at + 1 < first && task <= first && at + 2 <= task
            &&& s[at - 1] == '[' && s[at + 1] == ']' && box_state(s[at])
        },
{
    lemma_text_range(s, lead, first);
    let text = text_start(s, lead, first);
    if first - text >= 3 {
        lemma_leading_bound(CharClass::Blank, s.subrange(text + 3, first));
    }
}

/// `find_from` reads only whether each character is the one sought.
proof fn lemma_find_alike(t: Seq<char>, s: Seq<char>, x: char, i: int)
    requires
        s.len() == t.len(),
        forall|k: int| 0 <= k < t.len() ==> (#[trigger] s[k] == x) == (t[k] == x),
    ensures
        find_from(s, x, i) == find_from(t, x, i),
    decreases t.len() - i,
{
    if 0 <= i < t.len() {
        lemma_find_alike(t, s, x, i + 1);
    }
}

/// A box state is no newline, so lines end where they did.
proof fn lemma_line_end_alike(t: Seq<char>, s: Seq<char>, p: int, i: int)
    requires
        box_flip(t, s, p),
    ensures
        line_end(s, i) == line_end(t, i),
{
    assert forall|k: int| 0 <= k < t.len() implies (#[trigger] s[k] == '\n') == (t[k] == '\n') by {
        if k != p {
            assert(s[k] == t[k]);
        }
    }
    lemma_find_alike(t, s, '\n', i);
}

/// A fence line holds only dashes and its terminator.
proof fn lemma_fence_chars(line: Seq<char>, k: int)
    requires
        content(line) == seq!['-', '-', '-'],
        0 <= k < line.len(),
    ensures
        line[k] == '-' || line[k] == '\r' || line[k] == '\n',
{
    let dashes = seq!['-', '-', '-'];
    let a = if line.len() > 0 && line.last() == '\n' {
        line.drop_last()
    } else {
        line
    };
    let cc = if a.len() > 0 && a.last() == '\r' {
        a.drop_last()
    } else {
        a
    };
    assert(cc == content(line));
    if k < a.len() {
        assert(line[k] == a[k]);
        if k < cc.len() {
            assert(cc[k] == a[k]);
            assert(dashes[k] == '-');
        }
    }
}

/// No line that holds a task box is a fence, before or after the flip.
proof fn lemma_fence_alike(t: Seq<char>, s: Seq<char>, p: int, i: int)
    requires
        box_flip(t, s, p),
        0 <= i < t.len(),
        i != p,
    ensures
        fence_line(s, i) == fence_line(t, i),
{
    lemma_line_end_alike(t, s, p, i);
    lemma_line_end(t, i);
    let le = line_end(t, i);
    if p < i || p >= le {
        assert(s.subrange(i, le) =~= t.subrange(i, le));
    } else {
        assert(s[p - 1] == t[p - 1]);
        if fence_line(t, i) {
            lemma_fence_chars(t.subrange(i, le), p - 1 - i);
        }
        if fence_line(s, i) {
            lemma_fence_chars(s.subrange(i, le), p - 1 - i);
        }
    }
}

/// The line after the one starting at `i` never starts at a box's state
/// character.
proof fn lemma_next_line_off_box(t: Seq<char>, p: int, i: int)
    requires
        0 < p && p + 1 < t.len(),
        t[p - 1] == '[',
        0 <= i < t.len(),
    ensures
        line_end(t, i) != p,
{
    lemma_find_from(t, '\n', i);
}

/// The closing fence is found where it was.
proof fn lemma_closing_alike(t: Seq<char>, s: Seq<char>, p: int, i: int)
    requires
        box_flip(t, s, p),
        0 <= i,
        i != p,
    ensures
        closing_from(s, i) == closing_from(t, i),
    decreases t.len() - i,
{
    if i < t.len() {
        lemma_fence_alike(t, s, p, i);
        lemma_line_end_alike(t, s, p, i);
        lemma_line_end(t, i);
        if !fence_line(t, i) && line_end(t, i) > i && line_end(t, i) <= t.len() {
            lemma_next_line_off_box(t, p, i);
            lemma_closing_alike(t, s, p, line_end(t, i));
        }
    }
}

/// Flipping a box in the body leaves the frontmatter boundary in place.
proof fn lemma_offset_alike(t: Seq<char>, s: Seq<char>, p: int)
    requires
        box_flip(t, s, p),
    ensures
        body_offset(s) == body_offset(t),
{
    assert(s[0] == t[0]);
    assert(head_len(s) == head_len(t));
    let h = head_len(t);
    assert(h != p);
    if h < t.len() {
        lemma_line_end_alike(t, s, p, h);
        lemma_line_end(t, h);
        let o = line_end(t, h);
        lemma_fence_alike(t, s, p, h);
        if o - 1 != p {
            assert(s[o - 1] == t[o - 1]);
        }
        lemma_next_line_off_box(t, p, h);
        lemma_closing_alike(t, s, p, o);
        lemma_closing_from(t, o);
        if t[o - 1] != '\n' || !fence_line(t, h) {
            assert(parse(t).body == t.skip(h));
            assert(parse(s).body == s.skip(h));
        } else {
            match closing_from(t, o) {
                Some(cl) => {
                    lemma_line_end_alike(t, s, p, cl);
                    lemma_line_end(t, cl);
                    assert(parse(t).body == t.skip(line_end(t, cl)));
                    assert(parse(s).body == s.skip(line_end(t, cl)));
                },
                None => {
                    assert(parse(t).body == t.skip(h));
                    assert(parse(s).body == s.skip(h));
                },
            }
        }
    } else {
        assert(parse(t).body == t.skip(h));
        assert(parse(s).body == s.skip(h));
    }
}

/// Flipping a box state adds or removes no bare carriage return.
proof fn lemma_bare_alike(t: Seq<char>, s: Seq<char>, p: int)
    requires
        box_flip(t, s, p),
    ensures
        bare_carriage_return(s) == bare_carriage_return(t),
{
    if bare_carriage_return(s) {
        let i = choose|i: int| 0 <= i < s.len() && #[trigger] s[i] == '\r' && (i + 1 >= s.len() || s[i + 1] != '\n');
        assert(i != p);
        assert(t[i] == '\r');
        if i + 1 < s.len() && i + 1 != p {
            assert(t[i + 1] == s[i + 1]);
        }
    }
    if bare_carriage_return(t) {
        let i = choose|i: int| 0 <= i < t.len() && #[trigger] t[i] == '\r' && (i + 1 >= t.len() || t[i + 1] != '\n');
        assert(i != p);
        assert(s[i] == '\r');
        if i + 1 < t.len() && i + 1 != p {
            assert(t[i + 1] == s[i + 1]);
        }
    }
}

/// A scan for content stops before the box unless it starts on it.
proof fn lemma_content_alike(x: Seq<char>, y: Seq<char>, a: int, i: int, to: int)
    requires
        box_flip(x, y, a),
        0 <= i,
        i != a,
        to <= x.len(),
    ensures
        content_at(y, i, to) == content_at(x, i, to),
    decreases to - i,
{
    if i < to {
        assert(y[i] == x[i]);
        if edge_space(x[i]) {
            assert(i + 1 != a);
            lemma_content_alike(x, y, a, i + 1, to);
        }
    }
}

/// A box state is never a line break, so line ends stay put.
proof fn lemma_break_alike(x: Seq<char>, y: Seq<char>, a: int, i: int, to: int)
    requires
        box_flip(x, y, a),
        0 <= i,
        to <= x.len(),
    ensures
        break_at(y, i, to) == break_at(x, i, to),
    decreases to - i,
{
    if i < to {
        if i != a {
            assert(y[i] == x[i]);
        }
        if !line_break(x[i]) {
            lemma_break_alike(x, y, a, i + 1, to);
        }
    }
}

/// Two texts alike in class membership run alike.
proof fn lemma_leading_class(class: CharClass, u: Seq<char>, v: Seq<char>)
    requires
        u.len() == v.len(),
        forall|k: int| 0 <= k < u.len() ==> in_class(class, #[trigger] u[k]) == in_class(class, v[k]),
    ensures
        leading(class, u) == leading(class, v),
    decreases u.len(),
{
    if u.len() > 0 {
        assert(in_class(class, u[0]) == in_class(class, v[0]));
        assert forall|k: int| 0 <= k < u.drop_first().len() implies in_class(class, #[trigger] u.drop_first()[k]) == in_class(class, v.drop_first()[k]) by {
            assert(in_class(class, u[k + 1]) == in_class(class, v[k + 1]));
        }
        lemma_leading_class(class, u.drop_first(), v.drop_first());
    }
}

/// Two texts equal up to a character outside the class, inclusive, run
/// alike.
proof fn lemma_leading_stop(class: CharClass, u: Seq<char>, v: Seq<char>, m: int)
    requires
        0 <= m < u.len(),
        m < v.len(),
        forall|k: int| 0 <= k <= m ==> #[trigger] u[k] == v[k],
        !in_class(class, u[m]),
    ensures
        leading(class, u) == leading(class, v),
    decreases m,
{
    assert(u[0] == v[0]);
    if in_class(class, u[0]) {
        assert forall|k: int| 0 <= k <= m - 1 implies #[trigger] u.drop_first()[k] == v.drop_first()[k] by {
            assert(u[k + 1] == v[k + 1]);
        }
        lemma_leading_stop(class, u.drop_first(), v.drop_first(), m - 1);
    }
}

/// A box state is neither an item marker nor a digit.
proof fn lemma_marker_alike(x: Seq<char>, y: Seq<char>, a: int, from: int, to: int)
    requires
        box_flip(x, y, a),
        0 <= from <= to <= x.len(),
    ensures
        marker_end(y, from, to) == marker_end(x, from, to),
{
    if from < to && from != a {
        assert(y[from] == x[from]);
    }
    let u = x.subrange(from, to);
    let v = y.subrange(from, to);
    assert forall|k: int| 0 <= k < u.len() implies in_class(CharClass::Digit, #[trigger] u[k]) == in_class(CharClass::Digit, v[k]) by {
        if from + k != a {
            assert(y[from + k] == x[from + k]);
        }
    }
    lemma_leading_class(CharClass::Digit, u, v);
}

/// Where a task's text is read is unmoved by the flip unless the marker
/// ends right on the box.
proof fn lemma_text_alike(x: Seq<char>, y: Seq<char>, a: int, from: int, to: int)
    requires
        box_flip(x, y, a),
        0 <= from <= to <= x.len(),
        marker_end(x, from, to) != a,
    ensures
        text_start(y, from, to) == text_start(x, from, to),
{
    lemma_marker_alike(x, y, a, from, to);
    lemma_marker_range(x, from, to);
    let rest = marker_end(x, from, to);
    let u = x.subrange(rest, to);
    let v = y.subrange(rest, to);
    if rest < a && a < to {
        assert forall|k: int| 0 <= k <= a - 1 - rest implies #[trigger] u[k] == v[k] by {
            assert(y[rest + k] == x[rest + k]);
        }
        lemma_leading_stop(CharClass::Blank, u, v, a - 1 - rest);
    } else {
        assert forall|k: int| 0 <= k < u.len() implies #[trigger] u[k] == v[k] by {
            assert(y[rest + k] == x[rest + k]);
        }
        assert(u =~= v);
    }
}

/// A line whose marker ends right on a box's state character is no task.
proof fn lemma_task_none_at_box(z: Seq<char>, a: int, lead: int, first: int)
    requires
        0 < a && a + 1 < z.len(),
        z[a - 1] == '[' && z[a + 1] == ']' && box_state(z[a]),
        0 <= lead <= first <= z.len(),
        marker_end(z, lead, first) == a,
    ensures
        task_at(z, lead, first) is None,
{
    let u = z.subrange(a, first);
    if a < first {
        assert(u[0] == z[a]);
        if z[a] == ' ' && a + 1 < first {
            assert(u.drop_first()[0] == z[a + 1]);
            assert(leading(CharClass::Blank, u.drop_first()) == 0);
        }
    } else {
        assert(u.len() == 0);
    }
}

/// Whether a line is a task, where its text starts, and where its box
/// sits, are all unmoved by flipping a box's state.
proof fn lemma_task_alike(x: Seq<char>, y: Seq<char>, a: int, lead: int, first: int)
    requires
        box_flip(x, y, a),
        0 <= lead <= first <= x.len(),
    ensures
        task_at(y, lead, first) == task_at(x, lead, first),
{
    lemma_marker_alike(x, y, a, lead, first);
    if marker_end(x, lead, first) == a {
        assert(y[a - 1] == x[a - 1] && y[a + 1] == x[a + 1]);
        lemma_task_none_at_box(x, a, lead, first);
        lemma_task_none_at_box(y, a, lead, first);
    } else {
        lemma_text_alike(x, y, a, lead, first);
        lemma_text_range(x, lead, first);
        let text = text_start(x, lead, first);
        if first - text >= 3 {
            if text != a {
                assert(y[text] == x[text]);
            }
            if text + 1 != a {
                assert(y[text + 1] == x[text + 1]);
            }
            if text + 2 != a {
                assert(y[text + 2] == x[text + 2]);
            }
            if text + 3 < first && x[text] == '[' && x[text + 2] == ']' {
                let u = x.subrange(text + 3, first);
                let v = y.subrange(text + 3, first);
                if text + 3 < a && a < first {
                    assert forall|k: int| 0 <= k <= a - 1 - (text + 3) implies #[trigger] u[k] == v[k] by {
                        assert(y[text + 3 + k] == x[text + 3 + k]);
                    }
                    lemma_leading_stop(CharClass::Blank, u, v, a - 1 - (text + 3));
                } else if text + 3 != a {
                    assert forall|k: int| 0 <= k < u.len() implies #[trigger] u[k] == v[k] by {
                        assert(y[text + 3 + k] == x[text + 3 + k]);
                    }
                    assert(u =~= v);
                }
            }
        }
    }
}

/// Reading a query off text that does not hold the box is unmoved by the
/// flip.
proof fn lemma_begins_alike(x: Seq<char>, y: Seq<char>, a: int, from: int, to: int, q: Seq<char>)
    requires
        box_flip(x, y, a),
        0 <= from <= to <= x.len(),
        !(from <= a < from + q.len()),
    ensures
        begins(y, from, to, q) == begins(x, from, to, q),
{
    if q.len() <= to - from {
        assert forall|k: int| 0 <= k < q.len() implies #[trigger] y.subrange(from, from + q.len())[k] == x.subrange(from, from + q.len())[k] by {
            assert(y[from + k] == x[from + k]);
        }
        assert(y.subrange(from, from + q.len()) =~= x.subrange(from, from + q.len()));
    }
}

/// A bullet that reads the flipped character only as a box's state fits a
/// task query in the toggled body exactly when it did in the original.
proof fn lemma_fits_alike(x: Seq<char>, y: Seq<char>, a: int, bs: Seq<Span>, range: (int, int), code: Seq<crate::structure::blocks::Block>, q: Seq<char>, j: int)
    requires
        box_flip(x, y, a),
        0 <= j < bs.len(),
        bs[j].start <= bs[j].end <= x.len(),
        box_unread(x, bs[j], a, q),
    ensures
        task_fits(y, bs, range, code, q, j) == task_fits(x, bs, range, code, q, j),
{
    let b = bs[j];
    lemma_content_alike(x, y, a, b.start as int, b.end as int);
    lemma_content_range(x, b.start as int, b.end as int);
    let lead = content_at(x, b.start as int, b.end as int);
    lemma_break_alike(x, y, a, lead, b.end as int);
    lemma_break_range(x, lead, b.end as int);
    let first = break_at(x, lead, b.end as int);
    lemma_task_alike(x, y, a, lead, first);
    lemma_task_range(x, lead, first);
    assert(within(y, range, b.start as int, b.end as int) == within(x, range, b.start as int, b.end as int));
    match task_at(x, lead, first) {
        Some((task, at)) => {
            lemma_begins_alike(x, y, a, task, first, q);
        },
        None => {},
    }
}

/// Predicates that agree below `n` find the same first hit.
proof fn lemma_hit_alike(n: int, k: int, f: spec_fn(int) -> bool, g: spec_fn(int) -> bool)
    requires
        forall|i: int| 0 <= i < n ==> #[trigger] f(i) == g(i),
        0 <= k,
    ensures
        hit_from(n, k, f) == hit_from(n, k, g),
    decreases n - k,
{
    if k < n {
        lemma_hit_alike(n, k + 1, f, g);
    }
}

/// Predicates that agree below `n` pick alike.
proof fn lemma_pick_alike(n: int, f: spec_fn(int) -> bool, g: spec_fn(int) -> bool)
    requires
        forall|i: int| 0 <= i < n ==> #[trigger] f(i) == g(i),
    ensures
        pick(n, f) == pick(n, g),
{
    lemma_hit_alike(n, 0, f, g);
    match hit_from(n, 0, f) {
        Some(i) => {
            crate::structure::locate::lemma_hit_from(n, 0, f);
            lemma_hit_alike(n, i + 1, f, g);
        },
        None => {},
    }
}


/// Whether the bullet spanning `body[start..end]` lies in `range`, judged
/// from its first non-space character.
pub open spec fn lies_in(body: Seq<char>, range: (int, int), start: int, end: int) -> bool {
    range.0 <= content_at(body, start, end) && end <= range.1
}

/// Where the text of bullet `b`'s first line starts, past its marker, and
/// where that line ends.
pub open spec fn item_line(body: Seq<char>, b: Span) -> (int, int) {
    let lead = content_at(body, b.start as int, b.end as int);
    let first = break_at(body, lead, b.end as int);
    (text_start(body, lead, first), first)
}

/// Whether bullet `b`'s first line of text begins with `q`.
pub open spec fn says(body: Seq<char>, b: Span, q: Seq<char>) -> bool {
    let line = item_line(body, b);
    q.len() <= line.1 - line.0 && body.subrange(line.0, line.0 + q.len()) == q
}

/// Where a bullet path may look for its `k`th segment: the scope for the
/// first, the thread below the previous segment's bullet for every later
/// one: from the start of that bullet's text to its end.
pub open spec fn segment_range(body: Seq<char>, bs: Seq<Span>, scope: (int, int), path: Seq<Seq<char>>, k: int) -> (int, int) {
    if k <= 1 {
        scope
    } else {
        let parent = bs[bullet_path(body, bs, scope, path, k - 1)->Ok_0];
        (item_line(body, parent).0, parent.end as int)
    }
}

/// A bullet path descends: the bullet its first `k` segments name is the
/// one bullet whose text begins with the `k`th segment among the bullets
/// lying in that segment's range, the scope for the first segment and,
/// for each later one, the thread of the bullet the segments before it
/// name. So `Home > todo` picks the `todo` under `Home` even where another
/// `todo` sits under `Work`.
pub proof fn bullet_path_descends(body: Seq<char>, bs: Seq<Span>, scope: (int, int), path: Seq<Seq<char>>, k: int)
    requires
        1 <= k <= path.len(),
        bullet_path(body, bs, scope, path, k) is Ok,
    ensures
        k >= 2 ==> bullet_path(body, bs, scope, path, k - 1) is Ok,
        ({
            let j = bullet_path(body, bs, scope, path, k)->Ok_0;
            let range = segment_range(body, bs, scope, path, k);
            &&& 0 <= j < bs.len()
            &&& lies_in(body, range, bs[j].start as int, bs[j].end as int)
            &&& says(body, bs[j], path[k - 1])
            &&& forall|m: int| 0 <= m < bs.len() && m != j && lies_in(body, range, bs[m].start as int, bs[m].end as int)
                ==> !says(body, #[trigger] bs[m], path[k - 1])
        }),
{
    let range = segment_range(body, bs, scope, path, k);
    if k >= 2 {
        assert(bullet_path(body, bs, scope, path, k - 1) is Ok);
    }
    let f = |i: int| crate::structure::locate::bullet_fits(body, bs, range, path[k - 1], i);
    assert(bullet_path(body, bs, scope, path, k) == crate::structure::locate::bullet_choice(body, bs, range, path[k - 1]));
    let j = bullet_path(body, bs, scope, path, k)->Ok_0;
    assert(pick(bs.len() as int, f) == Pick::One(j));
    lemma_one_pick(bs.len() as int, f, j);
    assert forall|m: int| 0 <= m < bs.len() && m != j && lies_in(body, range, bs[m].start as int, bs[m].end as int)
        implies !says(body, #[trigger] bs[m], path[k - 1]) by {
        assert(!f(m));
    }
}

/// What a single pick names: the one index the predicate holds at.
proof fn lemma_one_pick(n: int, f: spec_fn(int) -> bool, j: int)
    requires
        pick(n, f) == Pick::One(j),
    ensures
        0 <= j < n,
        f(j),
        forall|m: int| 0 <= m < n && m != j ==> !#[trigger] f(m),
{
    crate::structure::locate::lemma_hit_from(n, 0, f);
    lemma_no_hit_before(n, 0, f);
    lemma_no_hit_from(n, j + 1, f);
}

/// Nothing before the first hit holds the predicate.
proof fn lemma_no_hit_before(n: int, k: int, f: spec_fn(int) -> bool)
    requires
        0 <= k,
    ensures
        hit_from(n, k, f) matches Some(j) ==> forall|m: int| k <= m < j ==> !#[trigger] f(m),
    decreases n - k,
{
    if k < n && !f(k) {
        lemma_no_hit_before(n, k + 1, f);
    }
}

/// Where no hit is found, nothing from there on holds the predicate.
proof fn lemma_no_hit_from(n: int, k: int, f: spec_fn(int) -> bool)
    ensures
        hit_from(n, k, f) is None ==> forall|m: int| k <= m < n ==> !#[trigger] f(m),
    decreases n - k,
{
    if k < n && !f(k) {
        lemma_no_hit_from(n, k + 1, f);
    }
}

} // verus!
