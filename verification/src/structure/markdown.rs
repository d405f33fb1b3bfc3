//! The markdown parse a placement is located in: pulldown-cmark's event
//! stream, reduced to the block structure this crate reads and moved from
//! byte offsets to character offsets.
use vstd::prelude::*;

use pulldown_cmark::Event::{End, Rule, Start};
use pulldown_cmark::Parser;
use pulldown_cmark::Tag::{BlockQuote, CodeBlock, Heading, HtmlBlock, Item, List, Paragraph};

use crate::text::string_of;

verus! {

/// What a parser event marks: the opening of a block of a given kind,
/// the opening of an inline element, which never holds a block, the
/// closing of the innermost open element, a thematic break, or a leaf
/// such as text.
#[derive(Clone, Copy, Debug, PartialEq, Eq)]
pub enum Mark {
    Paragraph,
    /// A heading of the given level, one through six.
    Heading(u8),
    Quote,
    /// A code block; `true` when fenced rather than indented.
    Code(bool),
    Html,
    /// A list; the number of its first item when ordered.
    List(Option<u64>),
    Item,
    Inline,
    Close,
    Rule,
    Leaf,
}

/// Whether a mark opens an element, block or inline.
pub open spec fn opens(mark: Mark) -> bool {
    !(mark is Close || mark is Rule || mark is Leaf)
}

/// A parser event and the source range it covers.
#[derive(Clone, Copy, Debug, PartialEq, Eq)]
pub struct MdEvent {
    pub mark: Mark,
    pub start: usize,
    pub end: usize,
}

/// The events pulldown-cmark reports for `text` under its default
/// options, in order, with byte ranges into the UTF-8 encoding of `text`.
pub uninterp spec fn markdown_events(text: Seq<char>) -> Seq<MdEvent>;

/// Parses `text`; wraps `Parser::new` and `into_offset_iter`, reducing
/// each event to its [`Mark`] and keeping its byte range as reported.
#[verifier::external_body]
fn parse_markdown(text: &str) -> (events: Vec<MdEvent>)
    ensures
        events@ == markdown_events(text@),
{
    Parser::new(text).into_offset_iter().map(|(event, span)| MdEvent {
        start: span.start, end: span.end,
        mark: match event {
            Start(Paragraph) => Mark::Paragraph,
            Start(Heading { level, .. }) => Mark::Heading(level as u8),
            Start(BlockQuote(_)) => Mark::Quote,
            Start(CodeBlock(kind)) => Mark::Code(kind.is_fenced()),
            Start(HtmlBlock) => Mark::Html,
            Start(List(first)) => Mark::List(first),
            Start(Item) => Mark::Item,
            Start(_) => Mark::Inline,
            End(_) => Mark::Close,
            Rule => Mark::Rule,
            _ => Mark::Leaf,
        }, }).collect()
}

/// The number of bytes UTF-8 spends on `c`.
pub open spec fn utf8_width(c: char) -> nat {
    if (c as u32) < 0x80 {
        1
    } else if (c as u32) < 0x800 {
        2
    } else if (c as u32) < 0x10000 {
        3
    } else {
        4
    }
}

/// The byte offset at which the character at index `i` of `s` starts.
pub open spec fn byte_offset(s: Seq<char>, i: int) -> nat
    decreases i,
{
    if i <= 0 || s.len() == 0 {
        0
    } else if i > s.len() {
        byte_offset(s, s.len() as int)
    } else {
        byte_offset(s, i - 1) + utf8_width(s[i - 1])
    }
}

/// How many of the first `n` characters of `s` start before byte `b`.
pub open spec fn count_before(s: Seq<char>, b: int, n: int) -> nat
    decreases n,
{
    if n <= 0 {
        0
    } else {
        count_before(s, b, n - 1) + if byte_offset(s, n - 1) < b {
            1nat
        } else {
            0nat
        }
    }
}

/// The character offset of byte offset `b` of `s`: how many characters
/// start before it. A byte inside a character maps past that character.
pub open spec fn char_offset(s: Seq<char>, b: int) -> nat {
    count_before(s, b, s.len() as int)
}

/// An event moved to character offsets, its end kept at or past its
/// start.
pub open spec fn in_chars(s: Seq<char>, e: MdEvent) -> MdEvent {
    MdEvent {
        mark: e.mark,
        start: char_offset(s, e.start as int) as usize,
        end: char_offset(s, if e.end < e.start { e.start as int } else { e.end as int }) as usize,
    }
}

/// The events of `s` in character offsets.
pub open spec fn char_events(s: Seq<char>) -> Seq<MdEvent> {
    markdown_events(s).map_values(|e: MdEvent| in_chars(s, e))
}

/// Whether every event's range lies within a text of `n` characters.
pub open spec fn events_within(events: Seq<MdEvent>, n: nat) -> bool {
    forall|i: int| 0 <= i < events.len() ==> #[trigger] events[i].start <= events[i].end <= n
}

proof fn lemma_byte_offset_step(s: Seq<char>, i: int)
    requires
        0 <= i < s.len(),
    ensures
        byte_offset(s, i + 1) == byte_offset(s, i) + utf8_width(s[i]),
{
}

proof fn lemma_byte_offset_mono(s: Seq<char>, i: int, j: int)
    requires
        0 <= i <= j <= s.len(),
    ensures
        byte_offset(s, i) <= byte_offset(s, j),
        i < j ==> byte_offset(s, i) < byte_offset(s, j),
    decreases j - i,
{
    if i < j {
        lemma_byte_offset_mono(s, i, j - 1);
        lemma_byte_offset_step(s, j - 1);
    }
}

/// Characters from index `m` on start at or past byte `b` when `b` is at
/// most the offset of index `m`, so they add nothing to the count.
proof fn lemma_count_settles(s: Seq<char>, b: int, m: int, n: int)
    requires
        0 <= m <= n <= s.len(),
        b <= byte_offset(s, m),
    ensures
        count_before(s, b, n) == count_before(s, b, m),
    decreases n - m,
{
    if m < n {
        lemma_count_settles(s, b, m, n - 1);
        lemma_byte_offset_mono(s, m, n - 1);
    }
}

/// Every one of the first `m` characters starts before byte `b` when `b`
/// is past the start of the last of them.
proof fn lemma_count_full(s: Seq<char>, b: int, m: int)
    requires
        0 <= m <= s.len(),
        m > 0 ==> byte_offset(s, m - 1) < b,
    ensures
        count_before(s, b, m) == m,
    decreases m,
{
    if m > 0 {
        if m > 1 {
            lemma_byte_offset_mono(s, m - 2, m - 1);
        }
        lemma_count_full(s, b, m - 1);
    }
}

/// The character offset of every byte offset of `s` up to its length.
fn offset_table(s: &[char]) -> (table: Vec<usize>)
    ensures
        table@.len() == byte_offset(s@, s@.len() as int) + 1,
        forall|b: int| 0 <= b < table@.len() ==> #[trigger] table@[b] == char_offset(s@, b),
{
    let n = s.len();
    let mut table: Vec<usize> = Vec::new();
    let mut i: usize = 0;
    while i < n
        invariant
            i <= n == s@.len(),
            table@.len() == byte_offset(s@, i as int),
            forall|b: int| 0 <= b < table@.len() ==> #[trigger] table@[b] == count_before(s@, b, i as int),
        decreases n - i,
    {
        let c = s[i];
        let width: usize = if (c as u32) < 0x80 {
            1
        } else if (c as u32) < 0x800 {
            2
        } else if (c as u32) < 0x10000 {
            3
        } else {
            4
        };
        proof {
            lemma_byte_offset_step(s@, i as int);
        }
        let ghost before = table@;
        let base = table.len();
        table.push(i);
        let mut k: usize = 1;
        while k < width
            invariant
                1 <= k <= width <= 4,
                i < n,
                width == utf8_width(s@[i as int]),
                table@.len() == base + k,
                base == before.len() == byte_offset(s@, i as int),
                table@.subrange(0, base as int) == before,
                table@[base as int] == i,
                forall|j: int| base < j < table@.len() ==> #[trigger] table@[j] == i + 1,
            decreases width - k,
        {
            table.push(i + 1);
            k += 1;
        }
        proof {
            assert forall|b: int| 0 <= b < table@.len() implies #[trigger] table@[b] == count_before(
                s@,
                b,
                i + 1,
            ) by {
                if b < base {
                    assert(table@[b] == table@.subrange(0, base as int)[b]);
                    assert(b <= byte_offset(s@, i as int));
                } else {
                    if i > 0 {
                        lemma_byte_offset_mono(s@, i - 1, i as int);
                    }
                    lemma_count_full(s@, b, i as int);
                }
            }
        }
        i += 1;
    }
    proof {
        assert forall|b: int| 0 <= b < table@.len() implies #[trigger] table@[b] == count_before(
            s@,
            b,
            n as int,
        ) by {}
    }
    let total = table.len();
    table.push(n);
    proof {
        if n > 0 {
            lemma_byte_offset_step(s@, n - 1);
        }
        lemma_count_full(s@, total as int, n as int);
    }
    table
}

/// The character offset of byte offset `b` of `s`, read off its table.
fn char_at(s: &[char], table: &Vec<usize>, b: usize) -> (i: usize)
    requires
        table@.len() == byte_offset(s@, s@.len() as int) + 1,
        forall|k: int| 0 <= k < table@.len() ==> #[trigger] table@[k] == char_offset(s@, k),
    ensures
        i == char_offset(s@, b as int),
        i <= s@.len(),
{
    let n = s.len();
    if b < table.len() {
        let i = table[b];
        proof {
            lemma_count_bound(s@, b as int, n as int);
        }
        i
    } else {
        proof {
            if n > 0 {
                lemma_byte_offset_mono(s@, n - 1, n as int);
            }
            lemma_count_full(s@, b as int, n as int);
        }
        n
    }
}

proof fn lemma_count_bound(s: Seq<char>, b: int, n: int)
    requires
        0 <= n,
    ensures
        count_before(s, b, n) <= n,
    decreases n,
{
    if n > 0 {
        lemma_count_bound(s, b, n - 1);
    }
}

proof fn lemma_count_mono(s: Seq<char>, b: int, c: int, n: int)
    requires
        0 <= n,
        b <= c,
    ensures
        count_before(s, b, n) <= count_before(s, c, n),
    decreases n,
{
    if n > 0 {
        lemma_count_mono(s, b, c, n - 1);
    }
}

/// Every event of `s` in character offsets lies within `s`.
pub proof fn lemma_char_events_within(s: Seq<char>)
    requires
        s.len() <= usize::MAX,
    ensures
        events_within(char_events(s), s.len()),
{
    assert forall|i: int| 0 <= i < char_events(s).len() implies #[trigger] char_events(s)[i].start <= char_events(s)[i].end <= s.len() by {
        let e = markdown_events(s)[i];
        assert(char_events(s)[i] == in_chars(s, e));
        let last = if e.end < e.start { e.start as int } else { e.end as int };
        lemma_count_mono(s, e.start as int, last, s.len() as int);
        lemma_count_bound(s, last, s.len() as int);
    }
}

/// The parse of `s`, in character offsets.
pub fn events_of(s: &[char]) -> (events: Vec<MdEvent>)
    ensures
        events@ == char_events(s@),
        events_within(events@, s@.len()),
{
    let text = string_of(s);
    let raw = parse_markdown(text.as_str());
    let table = offset_table(s);
    let mut events: Vec<MdEvent> = Vec::new();
    let mut i: usize = 0;
    while i < raw.len()
        invariant
            i <= raw@.len(),
            raw@ == markdown_events(s@),
            table@.len() == byte_offset(s@, s@.len() as int) + 1,
            forall|k: int| 0 <= k < table@.len() ==> #[trigger] table@[k] == char_offset(s@, k),
            events@.len() == i,
            forall|j: int| 0 <= j < i ==> #[trigger] events@[j] == in_chars(s@, raw@[j]),
            events_within(events@, s@.len()),
        decreases raw@.len() - i,
    {
        let e = raw[i];
        let last = if e.end < e.start {
            e.start
        } else {
            e.end
        };
        let start = char_at(s, &table, e.start);
        let end = char_at(s, &table, last);
        proof {
            lemma_count_mono(s@, e.start as int, last as int, s@.len() as int);
        }
        events.push(MdEvent { mark: e.mark, start, end });
        i += 1;
    }
    assert(events@ =~= char_events(s@));
    events
}

} // verus!
