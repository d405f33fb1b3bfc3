//! The outline of a body: every heading and bullet that can be a target,
//! and the blocks an insertion must stay out of.
use vstd::prelude::*;

use crate::structure::markdown::{events_within, Mark, MdEvent};
use crate::structure::scan::{
    Span, break_at, bullet_text, capped, column_at, columns, content_at, content_start, first_break,
    line_begin, line_start, marker_end, past_marker, text_start,
};

verus! {

/// A heading in the body: its level and the range of its source, the
/// underline included for setext.
#[derive(Clone, Copy, Debug)]
pub struct Heading {
    pub level: u8,
    pub start: usize,
    pub end: usize,
}

/// A block an insertion must stay out of, fenced code or raw HTML, with
/// the content column of its container.
#[derive(Clone, Copy, Debug)]
pub struct Contained {
    pub start: usize,
    pub end: usize,
    pub container: usize,
}

/// Every heading and bullet that can be a target, in document order, and
/// the raw HTML, fenced code and block quotes an insertion must stay out
/// of.
pub struct Outline {
    pub headings: Vec<Heading>,
    pub bullets: Vec<Span>,
    pub html: Vec<Contained>,
    pub fenced: Vec<Contained>,
    pub quotes: Vec<Span>,
}

/// Whether every range of the outline lies within a body of `n`
/// characters.
pub open spec fn outline_within(o: Outline, n: nat) -> bool {
    &&& forall|i: int| #![trigger o.headings@[i]] 0 <= i < o.headings@.len() ==> o.headings@[i].start <= o.headings@[i].end <= n
    &&& forall|i: int| #![trigger o.bullets@[i]] 0 <= i < o.bullets@.len() ==> o.bullets@[i].start <= o.bullets@[i].end <= n
    &&& forall|i: int| #![trigger o.html@[i]] 0 <= i < o.html@.len() ==> o.html@[i].start <= o.html@[i].end <= n
    &&& forall|i: int| #![trigger o.fenced@[i]] 0 <= i < o.fenced@.len() ==> o.fenced@[i].start <= o.fenced@[i].end <= n
    &&& forall|i: int| #![trigger o.quotes@[i]] 0 <= i < o.quotes@.len() ==> o.quotes@[i].start <= o.quotes@[i].end <= n
}

/// How many block quotes are open on `stack`.
pub open spec fn open_quotes(stack: Seq<Mark>) -> nat
    decreases stack.len(),
{
    if stack.len() == 0 {
        0
    } else {
        open_quotes(stack.drop_last()) + if stack.last() == Mark::Quote {
            1nat
        } else {
            0nat
        }
    }
}

/// How many list items are open on `stack`.
pub open spec fn open_items(stack: Seq<Mark>) -> nat
    decreases stack.len(),
{
    if stack.len() == 0 {
        0
    } else {
        open_items(stack.drop_last()) + if stack.last() == Mark::Item {
            1nat
        } else {
            0nat
        }
    }
}

proof fn lemma_open_bound(stack: Seq<Mark>)
    ensures
        open_quotes(stack) <= stack.len(),
        open_items(stack) <= stack.len(),
    decreases stack.len(),
{
    if stack.len() > 0 {
        lemma_open_bound(stack.drop_last());
    }
}

/// The column where the text of the item spanning `body[start..end]`
/// starts, as [`content_column`] finds it.
pub open spec fn item_column(body: Seq<char>, start: int, end: int) -> int {
    let lead = content_at(body, start, end);
    let line = line_begin(body, lead);
    let first = break_at(body, lead, end);
    let marker = column_at(body, line, marker_end(body, lead, first));
    let text = text_start(body, lead, first);
    if text == first {
        capped(marker + 1)
    } else {
        let column = column_at(body, line, text);
        if column > marker && column - marker > 4 {
            capped(marker + 1)
        } else {
            column
        }
    }
}

/// The content columns of the list items open after `events`, innermost
/// last.
pub open spec fn column_stack(body: Seq<char>, events: Seq<MdEvent>) -> Seq<usize>
    decreases events.len(),
{
    if events.len() == 0 {
        Seq::empty()
    } else {
        let cs = column_stack(body, events.drop_last());
        let st = stack_after(events.drop_last());
        let e = events.last();
        match e.mark {
            Mark::Close => if st.len() > 0 && st.last() == Mark::Item && cs.len() > 0 {
                cs.drop_last()
            } else {
                cs
            },
            Mark::Item => cs.push(item_column(body, e.start as int, e.end as int) as usize),
            _ => cs,
        }
    }
}

/// The container column innermost on `cs`, or zero.
pub open spec fn container_of(cs: Seq<usize>) -> usize {
    if cs.len() > 0 {
        cs.last()
    } else {
        0
    }
}

/// The raw HTML blocks outside block quotes that `events` open.
pub open spec fn outline_html(body: Seq<char>, events: Seq<MdEvent>) -> Seq<Contained>
    decreases events.len(),
{
    if events.len() == 0 {
        Seq::empty()
    } else {
        let prev = outline_html(body, events.drop_last());
        let e = events.last();
        if e.mark == Mark::Html && open_quotes(stack_after(events.drop_last())) == 0 {
            prev.push(Contained { start: e.start, end: e.end, container: container_of(column_stack(body, events.drop_last())) })
        } else {
            prev
        }
    }
}

/// The fenced code blocks outside block quotes that `events` open.
pub open spec fn outline_fenced(body: Seq<char>, events: Seq<MdEvent>) -> Seq<Contained>
    decreases events.len(),
{
    if events.len() == 0 {
        Seq::empty()
    } else {
        let prev = outline_fenced(body, events.drop_last());
        let e = events.last();
        if e.mark == Mark::Code(true) && open_quotes(stack_after(events.drop_last())) == 0 {
            prev.push(Contained { start: e.start, end: e.end, container: container_of(column_stack(body, events.drop_last())) })
        } else {
            prev
        }
    }
}

/// The outermost block quotes `events` open.
pub open spec fn outline_quotes(events: Seq<MdEvent>) -> Seq<Span>
    decreases events.len(),
{
    if events.len() == 0 {
        Seq::empty()
    } else {
        let prev = outline_quotes(events.drop_last());
        let e = events.last();
        if e.mark == Mark::Quote && open_quotes(stack_after(events.drop_last())) == 0 {
            prev.push(Span { start: e.start, end: e.end })
        } else {
            prev
        }
    }
}

/// The column where an item's own text starts, where `CommonMark` nests
/// its children. More than four columns of padding reads as one space of
/// padding plus indented code, and a bare marker never wrote its space,
/// so both snap back to the column past the marker.
pub fn content_column(body: &[char], start: usize, end: usize) -> (c: usize)
    requires
        start <= end <= body@.len(),
    ensures
        c == item_column(body@, start as int, end as int),
{
    let lead = content_start(body, start, end);
    let line = line_start(body, lead);
    let first = first_break(body, lead, end);
    let after = past_marker(body, lead, first);
    let marker = columns(body, line, after);
    let text = bullet_text(body, lead, first);
    if text == first {
        return marker.saturating_add(1);
    }
    let column = columns(body, line, text);
    if column > marker && column - marker > 4 {
        marker.saturating_add(1)
    } else {
        column
    }
}

/// The elements open after `events`, innermost last.
pub open spec fn stack_after(events: Seq<MdEvent>) -> Seq<Mark>
    decreases events.len(),
{
    if events.len() == 0 {
        Seq::empty()
    } else {
        let st = stack_after(events.drop_last());
        match events.last().mark {
            Mark::Close => if st.len() > 0 {
                st.drop_last()
            } else {
                st
            },
            Mark::Rule | Mark::Leaf => st,
            m => st.push(m),
        }
    }
}

/// The bullets outside block quotes that `events` open, in order.
pub open spec fn outline_bullets(events: Seq<MdEvent>) -> Seq<Span>
    decreases events.len(),
{
    if events.len() == 0 {
        Seq::empty()
    } else {
        let prev = outline_bullets(events.drop_last());
        let e = events.last();
        if e.mark == Mark::Item && open_quotes(stack_after(events.drop_last())) == 0 {
            prev.push(Span { start: e.start, end: e.end })
        } else {
            prev
        }
    }
}

/// The headings outside block quotes and list items that `events` open,
/// in order.
pub open spec fn outline_headings(events: Seq<MdEvent>) -> Seq<Heading>
    decreases events.len(),
{
    if events.len() == 0 {
        Seq::empty()
    } else {
        let prev = outline_headings(events.drop_last());
        let e = events.last();
        let st = stack_after(events.drop_last());
        match e.mark {
            Mark::Heading(level) => if open_quotes(st) == 0 && open_items(st) == 0 {
                prev.push(Heading { level, start: e.start, end: e.end })
            } else {
                prev
            },
            _ => prev,
        }
    }
}

/// One walk over the body's events. Quoted structure is skipped, because
/// an append cannot extend a quotation, and a heading inside a list item
/// is item content, not a section boundary.
pub fn outline(body: &[char], events: &[MdEvent]) -> (o: Outline)
    requires
        events_within(events@, body@.len()),
    ensures
        outline_within(o, body@.len()),
        o.bullets@ == outline_bullets(events@),
        o.headings@ == outline_headings(events@),
        o.html@ == outline_html(body@, events@),
        o.fenced@ == outline_fenced(body@, events@),
        o.quotes@ == outline_quotes(events@),
{
    let mut o = Outline {
        headings: Vec::new(),
        bullets: Vec::new(),
        html: Vec::new(),
        fenced: Vec::new(),
        quotes: Vec::new(),
    };
    let mut stack: Vec<Mark> = Vec::new();
    let mut depth: usize = 0;
    let mut item_columns: Vec<usize> = Vec::new();
    let mut i: usize = 0;
    while i < events.len()
        invariant
            i <= events@.len(),
            events_within(events@, body@.len()),
            outline_within(o, body@.len()),
            depth == open_quotes(stack@),
            item_columns@.len() == open_items(stack@),
            stack@.len() <= i,
            stack@ == stack_after(events@.take(i as int)),
            o.bullets@ == outline_bullets(events@.take(i as int)),
            o.headings@ == outline_headings(events@.take(i as int)),
            item_columns@ == column_stack(body@, events@.take(i as int)),
            o.html@ == outline_html(body@, events@.take(i as int)),
            o.fenced@ == outline_fenced(body@, events@.take(i as int)),
            o.quotes@ == outline_quotes(events@.take(i as int)),
        decreases events@.len() - i,
    {
        let e = events[i];
        assert(events@.take(i + 1).drop_last() =~= events@.take(i as int));
        assert(events@.take(i + 1).last() == e);
        assert(e.start <= e.end <= body@.len()) by {
            assert(events@[i as int] == e);
            let k = i as int;
            assert(0 <= k < events@.len());
            assert(events_within(events@, body@.len()));
            assert(events@[k].start <= events@[k].end <= body@.len());
        }
        proof {
            lemma_open_bound(stack@);
        }
        let ghost was = stack@;
        match e.mark {
            Mark::Close => {
                if stack.len() > 0 {
                    let mark = stack.pop().unwrap();
                    assert(was.drop_last() =~= stack@);
                    assert(mark == was.last());
                    match mark {
                        Mark::Quote => {
                            depth -= 1;
                        },
                        Mark::Item => {
                            item_columns.pop();
                        },
                        _ => {},
                    }
                }
            },
            Mark::Rule | Mark::Leaf => {},
            opened => {
                match opened {
                    Mark::Quote => {
                        if depth == 0 {
                            o.quotes.push(Span { start: e.start, end: e.end });
                        }
                        depth += 1;
                    },
                    Mark::Item => {
                        if depth == 0 {
                            o.bullets.push(Span { start: e.start, end: e.end });
                        }
                        item_columns.push(content_column(body, e.start, e.end));
                    },
                    Mark::Heading(level) => {
                        if depth == 0 && item_columns.len() == 0 {
                            o.headings.push(Heading { level, start: e.start, end: e.end });
                        }
                    },
                    Mark::Html => {
                        if depth == 0 {
                            let container = if item_columns.len() > 0 {
                                item_columns[item_columns.len() - 1]
                            } else {
                                0
                            };
                            o.html.push(Contained { start: e.start, end: e.end, container });
                        }
                    },
                    Mark::Code(true) => {
                        if depth == 0 {
                            let container = if item_columns.len() > 0 {
                                item_columns[item_columns.len() - 1]
                            } else {
                                0
                            };
                            o.fenced.push(Contained { start: e.start, end: e.end, container });
                        }
                    },
                    _ => {},
                }
                stack.push(opened);
                assert(stack@.drop_last() =~= was);
            },
        }
        i += 1;
    }
    assert(events@.take(events@.len() as int) =~= events@);
    o
}

} // verus!
