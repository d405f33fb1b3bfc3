//! The block snapshot an edit is checked against: every block of a body
//! as kind, container depth and span, and the comparisons that decide
//! whether an insertion or a removal left its surroundings meaning what
//! they meant.
use vstd::prelude::*;

use crate::frontmatter::body_start;
use crate::structure::markdown::{events_of, events_within, Mark, MdEvent};
use crate::structure::scan::{capped, content_at, content_end, content_start, content_stop};
use crate::structure::markdown::char_events;
use crate::frontmatter::document::parse;
use crate::text::sliced;

verus! {

/// The block-level kinds an edit must not disturb.
#[derive(Clone, Copy, Debug, PartialEq, Eq)]
pub enum BlockKind {
    Paragraph,
    Heading(u8),
    List(Option<u64>),
    Item,
    Code,
    Html,
    Quote,
    Rule,
}

/// A block of a body: its kind, how many blocks contain it, and its span.
#[derive(Clone, Copy, Debug, PartialEq, Eq)]
pub struct Block {
    pub kind: BlockKind,
    pub depth: usize,
    pub start: usize,
    pub end: usize,
}

/// Whether every block's span lies within a body of `n` characters.
pub open spec fn blocks_within(blocks: Seq<Block>, n: nat) -> bool {
    forall|i: int| 0 <= i < blocks.len() ==> #[trigger] blocks[i].start <= blocks[i].end <= n
}

/// How many of the open elements on `stack` are blocks.
pub open spec fn open_blocks(stack: Seq<bool>) -> nat
    decreases stack.len(),
{
    if stack.len() == 0 {
        0
    } else {
        open_blocks(stack.drop_last()) + if stack.last() {
            1nat
        } else {
            0nat
        }
    }
}

proof fn lemma_open_blocks_bound(stack: Seq<bool>)
    ensures
        open_blocks(stack) <= stack.len(),
    decreases stack.len(),
{
    if stack.len() > 0 {
        lemma_open_blocks_bound(stack.drop_last());
    }
}

/// Whether two block kinds are the same kind.
pub fn same_kind(a: BlockKind, b: BlockKind) -> (r: bool)
    ensures
        r == (a == b),
{
    match (a, b) {
        (BlockKind::Paragraph, BlockKind::Paragraph) => true,
        (BlockKind::Heading(x), BlockKind::Heading(y)) => x == y,
        (BlockKind::List(x), BlockKind::List(y)) => match (x, y) {
            (Some(p), Some(q)) => p == q,
            (None, None) => true,
            _ => false,
        },
        (BlockKind::Item, BlockKind::Item) => true,
        (BlockKind::Code, BlockKind::Code) => true,
        (BlockKind::Html, BlockKind::Html) => true,
        (BlockKind::Quote, BlockKind::Quote) => true,
        (BlockKind::Rule, BlockKind::Rule) => true,
        _ => false,
    }
}

/// The block kind a mark opens, if it opens a block.
pub open spec fn block_kind(m: Mark) -> Option<BlockKind> {
    match m {
        Mark::Paragraph => Some(BlockKind::Paragraph),
        Mark::Heading(level) => Some(BlockKind::Heading(level)),
        Mark::List(first) => Some(BlockKind::List(first)),
        Mark::Item => Some(BlockKind::Item),
        Mark::Code(_) => Some(BlockKind::Code),
        Mark::Html => Some(BlockKind::Html),
        Mark::Quote => Some(BlockKind::Quote),
        _ => None,
    }
}

/// For each element open after `events`, innermost last, whether it is a
/// block.
pub open spec fn block_stack(events: Seq<MdEvent>) -> Seq<bool>
    decreases events.len(),
{
    if events.len() == 0 {
        Seq::empty()
    } else {
        let st = block_stack(events.drop_last());
        match events.last().mark {
            Mark::Close => if st.len() > 0 {
                st.drop_last()
            } else {
                st
            },
            Mark::Rule | Mark::Leaf => st,
            m => st.push(block_kind(m) is Some),
        }
    }
}

/// Every block `events` open, in order, with the number of blocks open
/// around it.
pub open spec fn blocks_of(events: Seq<MdEvent>) -> Seq<Block>
    decreases events.len(),
{
    if events.len() == 0 {
        Seq::empty()
    } else {
        let prev = blocks_of(events.drop_last());
        let e = events.last();
        let depth = open_blocks(block_stack(events.drop_last())) as usize;
        match e.mark {
            Mark::Rule => prev.push(Block { kind: BlockKind::Rule, depth, start: e.start, end: e.end }),
            Mark::Close | Mark::Leaf => prev,
            m => match block_kind(m) {
                Some(kind) => prev.push(Block { kind, depth, start: e.start, end: e.end }),
                None => prev,
            },
        }
    }
}

/// Every block the events open, in document order, with the number of
/// blocks open around it. Inline elements neither count nor appear.
pub fn blocks(events: &[MdEvent], n: usize) -> (out: Vec<Block>)
    requires
        events_within(events@, n as nat),
    ensures
        blocks_within(out@, n as nat),
        out@ == blocks_of(events@),
{
    let mut out: Vec<Block> = Vec::new();
    let mut stack: Vec<bool> = Vec::new();
    let mut depth: usize = 0;
    let mut i: usize = 0;
    while i < events.len()
        invariant
            i <= events@.len(),
            events_within(events@, n as nat),
            blocks_within(out@, n as nat),
            depth == open_blocks(stack@),
            stack@.len() <= i,
            stack@ == block_stack(events@.take(i as int)),
            out@ == blocks_of(events@.take(i as int)),
        decreases events@.len() - i,
    {
        let e = events[i];
        assert(events@.take(i + 1).drop_last() =~= events@.take(i as int));
        assert(events@.take(i + 1).last() == e);
        assert(e.start <= e.end <= n) by {
            assert(events@[i as int] == e);
            assert(events@[i as int].start <= events@[i as int].end <= n);
        }
        proof {
            lemma_open_blocks_bound(stack@);
        }
        let kind = match e.mark {
            Mark::Paragraph => Some(BlockKind::Paragraph),
            Mark::Heading(level) => Some(BlockKind::Heading(level)),
            Mark::List(first) => Some(BlockKind::List(first)),
            Mark::Item => Some(BlockKind::Item),
            Mark::Code(_) => Some(BlockKind::Code),
            Mark::Html => Some(BlockKind::Html),
            Mark::Quote => Some(BlockKind::Quote),
            _ => None,
        };
        match e.mark {
            Mark::Close => {
                if stack.len() > 0 {
                    let ghost was = stack@;
                    let block = stack.pop().unwrap();
                    assert(was.drop_last() =~= stack@);
                    assert(block == was.last());
                    if block {
                        depth -= 1;
                    }
                }
            },
            Mark::Rule => {
                out.push(Block { kind: BlockKind::Rule, depth, start: e.start, end: e.end });
            },
            Mark::Leaf => {},
            _ => match kind {
                Some(kind) => {
                    out.push(Block { kind, depth, start: e.start, end: e.end });
                    let ghost was = stack@;
                    stack.push(true);
                    depth += 1;
                    assert(stack@.drop_last() =~= was);
                },
                None => {
                    let ghost was = stack@;
                    stack.push(false);
                    assert(stack@.drop_last() =~= was);
                },
            },
        }
        i += 1;
    }
    assert(events@.take(events@.len() as int) =~= events@);
    out
}

/// `stack` with every heading of level `level` or deeper popped off its
/// top.
pub open spec fn popped(stack: Seq<(u8, usize)>, level: u8) -> Seq<(u8, usize)>
    decreases stack.len(),
{
    if stack.len() > 0 && stack.last().0 >= level {
        popped(stack.drop_last(), level)
    } else {
        stack
    }
}

/// The chain of open headings once the first `i` of `hs` are placed.
pub open spec fn heading_stack(hs: Seq<(u8, usize)>, i: int) -> Seq<(u8, usize)>
    decreases i,
{
    if i <= 0 {
        Seq::empty()
    } else {
        popped(heading_stack(hs, i - 1), hs[i - 1].0).push(hs[i - 1])
    }
}

/// The parent of heading `i` of `hs`: the start of the nearest earlier
/// heading with a shallower level.
pub open spec fn parent_of(hs: Seq<(u8, usize)>, i: int) -> Option<usize> {
    let st = popped(heading_stack(hs, i), hs[i].0);
    if st.len() > 0 {
        Some(st.last().1)
    } else {
        None
    }
}

/// Each heading's start and parent.
pub open spec fn parents_of(hs: Seq<(u8, usize)>) -> Seq<(usize, Option<usize>)> {
    Seq::new(hs.len(), |i: int| (hs[i].1, parent_of(hs, i)))
}

/// Each heading's parent: the start of the nearest earlier heading with a
/// shallower level, or none at the top of the outline.
pub fn parented(headings: &[(u8, usize)]) -> (out: Vec<(usize, Option<usize>)>)
    ensures
        out@.len() == headings@.len(),
        out@ == parents_of(headings@),
{
    let mut stack: Vec<(u8, usize)> = Vec::new();
    let mut parents: Vec<(usize, Option<usize>)> = Vec::new();
    let mut i: usize = 0;
    while i < headings.len()
        invariant
            i <= headings@.len(),
            parents@.len() == i,
            stack@ == heading_stack(headings@, i as int),
            parents@ == parents_of(headings@).take(i as int),
        decreases headings@.len() - i,
    {
        let (level, start) = headings[i];
        assert(headings@[i as int] == (level, start));
        let ghost s0 = stack@;
        while stack.len() > 0 && stack[stack.len() - 1].0 >= level
            invariant
                parents@.len() == i,
                popped(stack@, level) == popped(s0, level),
            decreases stack@.len(),
        {
            let ghost was = stack@;
            stack.pop();
            assert(was.drop_last() =~= stack@);
        }
        assert(stack@ == popped(s0, level));
        let parent = if stack.len() > 0 {
            Some(stack[stack.len() - 1].1)
        } else {
            None
        };
        parents.push((start, parent));
        stack.push((level, start));
        assert(parents_of(headings@).take(i + 1) =~= parents_of(headings@).take(i as int).push((start, parent)));
        i += 1;
    }
    assert(parents_of(headings@).take(headings@.len() as int) =~= parents_of(headings@));
    parents
}

/// Whether two optional parents are the same.
fn same_parent(a: Option<usize>, b: Option<usize>) -> (r: bool)
    ensures
        r == (a == b),
{
    match (a, b) {
        (Some(x), Some(y)) => x == y,
        (None, None) => true,
        _ => false,
    }
}

/// Whether every heading of `expected` appears among `found` with the
/// same parent.
pub open spec fn parents_held(expected: Seq<(u8, usize)>, found: Seq<(u8, usize)>) -> bool {
    forall|i: int|
        0 <= i < expected.len() ==> parents_of(found).contains(#[trigger] parents_of(expected)[i])
}

/// Whether every heading keeps, among `found`, the parent it has among
/// `expected`.
pub fn parents_kept(expected: &[(u8, usize)], found: &[(u8, usize)]) -> (r: bool)
    ensures
        r == parents_held(expected@, found@),
{
    let wanted = parented(expected);
    let actual = parented(found);
    let mut i: usize = 0;
    while i < wanted.len()
        invariant
            i <= wanted@.len(),
            wanted@ == parents_of(expected@),
            actual@ == parents_of(found@),
            forall|x: int| 0 <= x < i ==> actual@.contains(#[trigger] wanted@[x]),
        decreases wanted@.len() - i,
    {
        let (start, parent) = wanted[i];
        assert(wanted@[i as int] == (start, parent));
        let mut j: usize = 0;
        let mut seen = false;
        while j < actual.len() && !seen
            invariant
                j <= actual@.len(),
                seen ==> actual@.contains((start, parent)),
                !seen ==> forall|y: int| 0 <= y < j ==> actual@[y] != (start, parent),
            decreases actual@.len() - j,
        {
            let (other, above) = actual[j];
            assert(actual@[j as int] == (other, above));
            if other == start && same_parent(above, parent) {
                seen = true;
            }
            j += 1;
        }
        if !seen {
            assert(!actual@.contains(wanted@[i as int]));
            return false;
        }
        assert(actual@.contains(wanted@[i as int]));
        i += 1;
    }
    true
}

/// The headings among `blocks`, as level and start.
pub open spec fn heads(blocks: Seq<Block>) -> Seq<(u8, usize)>
    decreases blocks.len(),
{
    if blocks.len() == 0 {
        Seq::empty()
    } else {
        let prev = heads(blocks.drop_last());
        match blocks.last().kind {
            BlockKind::Heading(level) => prev.push((level, blocks.last().start)),
            _ => prev,
        }
    }
}

/// The headings among `blocks`, as level and start.
fn headings_of(blocks: &[Block]) -> (out: Vec<(u8, usize)>)
    ensures
        out@ == heads(blocks@),
{
    let mut out: Vec<(u8, usize)> = Vec::new();
    let mut i: usize = 0;
    while i < blocks.len()
        invariant
            i <= blocks@.len(),
            out@ == heads(blocks@.take(i as int)),
        decreases blocks@.len() - i,
    {
        assert(blocks@.take(i + 1).drop_last() =~= blocks@.take(i as int));
        assert(blocks@.take(i + 1).last() == blocks@[i as int]);
        if let BlockKind::Heading(level) = blocks[i].kind {
            out.push((level, blocks[i].start));
        }
        i += 1;
    }
    assert(blocks@.take(blocks@.len() as int) =~= blocks@);
    out
}

/// Whether a surviving block of kind `before` reads as kind `after`.
pub open spec fn kind_fits(before: BlockKind, after: BlockKind, first_cut: bool) -> bool {
    match (before, after) {
        (BlockKind::List(Some(start)), BlockKind::List(Some(new))) if first_cut => new <= if start
            == u64::MAX {
            start as int
        } else {
            start + 1
        },
        _ => before == after,
    }
}

/// Whether a surviving block keeps its kind. An ordered list whose first
/// item was cut takes its start from the next item's marker, so its
/// survivors renumber downward or hold; only a raised number reshapes.
pub fn kind_kept(before: BlockKind, after: BlockKind, first_cut: bool) -> (r: bool)
    ensures
        r == kind_fits(before, after, first_cut),
{
    match (before, after) {
        (BlockKind::List(Some(start)), BlockKind::List(Some(new))) if first_cut => new
            <= start.saturating_add(1),
        _ => same_kind(before, after),
    }
}

/// What an insertion is checked against: the original body's blocks and
/// the geometry of the insertion.
pub struct Splice {
    pub before: Vec<Block>,
    pub at: usize,
    pub boundary: usize,
    pub old_len: usize,
    pub owning: bool,
    pub indent: usize,
    pub shift: usize,
    pub eol_len: usize,
}

/// Where block `b` of the old body is expected in the spliced body, and
/// whether it holds the splice point.
pub open spec fn placed_span(b: Block, at: int, added: int) -> (int, int, bool) {
    if b.end < at {
        (b.start as int, b.end as int, false)
    } else if b.start >= at {
        (b.start + added, b.end + added, false)
    } else {
        (b.start as int, b.end as int, true)
    }
}

/// Whether block `c` of the spliced body is block `b` kept.
pub open spec fn splice_fits(c: Block, b: Block, at: int, added: int, eol_len: int) -> bool {
    let (start, end, holds) = placed_span(b, at, added);
    let end_ok = if !holds {
        c.end == end
    } else if b.kind is Paragraph && b.end == at {
        c.end >= end && c.end - end <= eol_len
    } else {
        true
    };
    c.kind == b.kind && c.depth == b.depth && c.start == start && end_ok
}

/// The cursor past the scan for block `b` among `after` from `cursor`,
/// and whether `b` was found kept there.
pub open spec fn splice_scan(after: Seq<Block>, cursor: int, b: Block, at: int, added: int, eol_len: int) -> (int, bool)
    decreases after.len() - cursor,
{
    if cursor < 0 || cursor >= after.len() {
        (cursor, false)
    } else if splice_fits(after[cursor], b, at, added, eol_len) {
        (cursor + 1, true)
    } else if after[cursor].start > placed_span(b, at, added).0 {
        (cursor + 1, false)
    } else {
        splice_scan(after, cursor + 1, b, at, added, eol_len)
    }
}

/// Whether every block of `before` from `k` on is found kept, in order,
/// among `after` from `cursor` on.
pub open spec fn splice_kept_from(after: Seq<Block>, before: Seq<Block>, k: int, cursor: int, at: int, added: int, eol_len: int) -> bool
    decreases before.len() - k,
{
    if k < 0 || k >= before.len() {
        true
    } else {
        let (c, found) = splice_scan(after, cursor, before[k], at, added, eol_len);
        found && splice_kept_from(after, before, k + 1, c, at, added, eol_len)
    }
}

/// The headings of `before` at their starts in the spliced body.
pub open spec fn shifted_heads(before: Seq<Block>, at: int, added: int) -> Seq<(u8, usize)>
    decreases before.len(),
{
    if before.len() == 0 {
        Seq::empty()
    } else {
        let prev = shifted_heads(before.drop_last(), at, added);
        let b = before.last();
        match b.kind {
            BlockKind::Heading(level) => prev.push((level, (if b.start >= at { b.start + added } else { b.start as int }) as usize)),
            _ => prev,
        }
    }
}

/// Whether splicing `new` around the blocks `before` of the old body kept
/// them, as [`splice_check`] decides.
pub open spec fn splice_keeps(new: Seq<char>, before: Seq<Block>, at: int, boundary: int, old_len: int, eol_len: int) -> bool {
    let body = new.skip(boundary);
    let after = blocks_of(char_events(body));
    let added = body.len() - old_len;
    &&& new.len() - parse(new).body.len() == boundary
    &&& new.len() - boundary >= old_len
    &&& splice_kept_from(after, before, 0, 0, at, added, eol_len)
    &&& parents_held(shifted_heads(before, at, added), heads(after))
}

/// Whether a block starting at `s` starts where the entry does.
pub open spec fn near_entry(s: int, entry: int, indent: int, eol_len: int) -> bool {
    (s >= entry || entry - s <= eol_len) && (s <= entry || s - entry <= indent)
}

/// Where the entry's first line starts in the spliced body.
pub open spec fn entry_offset(at: int, shift: int, prefixed: bool, eol_len: int) -> int {
    capped(capped(at + shift) + if prefixed {
        eol_len
    } else {
        0
    })
}

/// Whether the spliced entry begins a block of its own, as
/// [`splice_check`] decides.
pub open spec fn splice_owns(new: Seq<char>, boundary: int, old_len: int, at: int, owning: bool, indent: int, shift: int, eol_len: int, prefixed: bool) -> bool {
    let body = new.skip(boundary);
    let after = blocks_of(char_events(body));
    let entry = entry_offset(at, shift, prefixed, eol_len);
    &&& new.len() - parse(new).body.len() == boundary
    &&& new.len() - boundary >= old_len
    &&& (!owning || exists|x: int| 0 <= x < after.len() && #[trigger] near_entry(after[x].start as int, entry, indent, eol_len))
}

/// Checks a spliced note against the blocks of the original body: blocks
/// before the splice unchanged, blocks after it intact at their shifted
/// offsets, blocks holding the splice point allowed to grow around it,
/// except a paragraph ending exactly there, and every heading keeping its
/// parent. The entry must also begin a block of its own at its first
/// line. Returns (surroundings kept, entry its own).
pub fn splice_check(new: &[char], splice: &Splice, prefixed: bool) -> (r: (bool, bool))
    requires
        blocks_within(splice.before@, splice.old_len as nat),
        splice.at <= splice.old_len,
    ensures
        r.0 == splice_keeps(new@, splice.before@, splice.at as int, splice.boundary as int, splice.old_len as int, splice.eol_len as int),
        r.1 == splice_owns(new@, splice.boundary as int, splice.old_len as int, splice.at as int, splice.owning, splice.indent as int, splice.shift as int, splice.eol_len as int, prefixed),
{
    if body_start(new) != splice.boundary {
        return (false, false);
    }
    let boundary = splice.boundary;
    let body_len = new.len() - boundary;
    if body_len < splice.old_len {
        return (false, false);
    }
    let body = sliced(new, boundary, new.len());
    assert(body@ =~= new@.skip(boundary as int));
    let added = body_len - splice.old_len;
    let at = splice.at;
    let events = events_of(body.as_slice());
    let after = blocks(events.as_slice(), body_len);
    let before = &splice.before;
    let mut kept = true;
    let mut cursor: usize = 0;
    let mut k: usize = 0;
    while k < before.len()
        invariant_except_break
            kept,
            splice_kept_from(after@, before@, 0, 0, at as int, added as int, splice.eol_len as int) == splice_kept_from(after@, before@, k as int, cursor as int, at as int, added as int, splice.eol_len as int),
        invariant
            k <= before@.len(),
            cursor <= after@.len(),
            blocks_within(before@, splice.old_len as nat),
            splice.old_len + added == body_len,
            before == &splice.before,
            at == splice.at,
        ensures
            kept == splice_kept_from(after@, before@, 0, 0, at as int, added as int, splice.eol_len as int),
        decreases before@.len() - k,
    {
        let b = before[k];
        assert(b.start <= b.end <= splice.old_len) by {
            assert(before@[k as int] == b);
            assert(before@[k as int].start <= before@[k as int].end <= splice.old_len);
        }
        assert(before@[k as int] == b);
        let (start, end, holds) = if b.end < at {
            (b.start, b.end, false)
        } else if b.start >= at {
            (b.start + added, b.end + added, false)
        } else {
            (b.start, b.end, true)
        };
        let ghost c0 = cursor as int;
        let mut matched = false;
        while cursor < after.len()
            invariant_except_break
                !matched,
                splice_scan(after@, c0, b, at as int, added as int, splice.eol_len as int) == splice_scan(after@, cursor as int, b, at as int, added as int, splice.eol_len as int),
            invariant
                cursor <= after@.len(),
                (start as int, end as int, holds) == placed_span(b, at as int, added as int),
            ensures
                splice_scan(after@, c0, b, at as int, added as int, splice.eol_len as int) == (cursor as int, matched),
            decreases after@.len() - cursor,
        {
            let c = after[cursor];
            assert(after@[cursor as int] == c);
            cursor += 1;
            let end_ok = if !holds {
                c.end == end
            } else if matches!(b.kind, BlockKind::Paragraph) && b.end == at {
                c.end >= end && c.end - end <= splice.eol_len
            } else {
                true
            };
            if same_kind(c.kind, b.kind) && c.depth == b.depth && c.start == start && end_ok {
                matched = true;
                break;
            }
            if c.start > start {
                break;
            }
        }
        if !matched {
            kept = false;
            break;
        }
        k += 1;
    }
    let ghost first_pass = kept;
    if kept {
        let mut expected: Vec<(u8, usize)> = Vec::new();
        let mut k: usize = 0;
        while k < before.len()
            invariant
                k <= before@.len(),
                blocks_within(before@, splice.old_len as nat),
                splice.old_len + added == body_len,
                before == &splice.before,
                expected@ == shifted_heads(before@.take(k as int), at as int, added as int),
            decreases before@.len() - k,
        {
            let b = before[k];
            assert(b.start <= b.end <= splice.old_len) by {
                assert(before@[k as int] == b);
                assert(before@[k as int].start <= before@[k as int].end <= splice.old_len);
            }
            assert(before@.take(k + 1).drop_last() =~= before@.take(k as int));
            assert(before@.take(k + 1).last() == b);
            if let BlockKind::Heading(level) = b.kind {
                let start = if b.start >= at {
                    b.start + added
                } else {
                    b.start
                };
                expected.push((level, start));
            }
            k += 1;
        }
        assert(before@.take(before@.len() as int) =~= before@);
        let found = headings_of(after.as_slice());
        kept = parents_kept(expected.as_slice(), found.as_slice());
    }
    let entry = at.saturating_add(splice.shift).saturating_add(
        if prefixed {
            splice.eol_len
        } else {
            0
        },
    );
    assert(entry as int == entry_offset(at as int, splice.shift as int, prefixed, splice.eol_len as int));
    let mut own = !splice.owning;
    let mut j: usize = 0;
    while !own && j < after.len()
        invariant
            j <= after@.len(),
            own ==> (!splice.owning || exists|x: int| 0 <= x < after@.len() && #[trigger] near_entry(after@[x].start as int, entry as int, splice.indent as int, splice.eol_len as int)),
            !own ==> splice.owning && forall|x: int| 0 <= x < j ==> !#[trigger] near_entry(after@[x].start as int, entry as int, splice.indent as int, splice.eol_len as int),
        decreases after@.len() - j,
    {
        let s = after[j].start;
        if (s >= entry || entry - s <= splice.eol_len) && (s <= entry || s - entry <= splice.indent) {
            own = true;
            assert(near_entry(after@[j as int].start as int, entry as int, splice.indent as int, splice.eol_len as int));
        }
        j += 1;
    }
    assert(after@ == blocks_of(char_events(new@.skip(boundary as int))));
    (kept, own)
}

/// Where offset `offset` of the old body lands once `[from, to)` is cut.
pub open spec fn mapped_at(offset: int, from: int, to: int) -> int {
    if offset <= from {
        offset
    } else if offset - (to - from) < from {
        from
    } else {
        offset - (to - from)
    }
}

/// Whether block `b`'s content lies inside the cut `[from, to)`.
pub open spec fn vanishes(body: Seq<char>, b: Block, from: int, to: int) -> bool {
    content_at(body, b.start as int, b.end as int) >= from && content_stop(body, b.start as int, b.end as int) <= to
}

/// Whether the cut leaves block `b`'s content start where it can be
/// found again.
pub open spec fn lead_known(body: Seq<char>, b: Block, from: int, to: int) -> bool {
    let l = content_at(body, b.start as int, b.end as int);
    l < from || l >= to
}

/// Whether the cut leaves block `b`'s content end where it can be found
/// again.
pub open spec fn tail_known(body: Seq<char>, b: Block, from: int, to: int) -> bool {
    let e = content_stop(body, b.start as int, b.end as int);
    e <= from || e > to
}

/// Where block `b`'s content starts in the cut body.
pub open spec fn want_lead(body: Seq<char>, b: Block, from: int, to: int) -> int {
    if lead_known(body, b, from, to) {
        mapped_at(content_at(body, b.start as int, b.end as int), from, to)
    } else {
        from
    }
}

/// Where block `b`'s content ends in the cut body.
pub open spec fn want_tail(body: Seq<char>, b: Block, from: int, to: int) -> int {
    mapped_at(content_stop(body, b.start as int, b.end as int), from, to)
}

/// Whether block `c` of the cut body `nb` is block `b` surviving.
pub open spec fn survives_as(nb: Seq<char>, c: Block, body: Seq<char>, b: Block, from: int, to: int) -> bool {
    &&& kind_fits(b.kind, c.kind, !lead_known(body, b, from, to))
    &&& c.depth == b.depth
    &&& (!lead_known(body, b, from, to) || content_at(nb, c.start as int, c.end as int) == want_lead(body, b, from, to))
    &&& (!tail_known(body, b, from, to) || content_stop(nb, c.start as int, c.end as int) == want_tail(body, b, from, to))
    &&& (!(b.kind is Code || b.kind is Html) || c.end == mapped_at(b.end as int, from, to))
}

/// Whether block `c` of the cut body starts past where block `b` could
/// survive.
pub open spec fn past_want(nb: Seq<char>, c: Block, body: Seq<char>, b: Block, from: int, to: int) -> bool {
    let found = content_at(nb, c.start as int, c.end as int);
    found > want_lead(body, b, from, to) && (lead_known(body, b, from, to) || found >= want_tail(body, b, from, to))
}

/// The cursor past the block of `after`, from `cursor` on, that block `b`
/// survives as; `None` when it survives as none before one starts past
/// it.
pub open spec fn survival_from(nb: Seq<char>, after: Seq<Block>, cursor: int, body: Seq<char>, b: Block, from: int, to: int) -> Option<int>
    decreases after.len() - cursor,
{
    if cursor < 0 || cursor >= after.len() {
        None
    } else if past_want(nb, after[cursor], body, b, from, to) {
        None
    } else if survives_as(nb, after[cursor], body, b, from, to) {
        Some(cursor + 1)
    } else {
        survival_from(nb, after, cursor + 1, body, b, from, to)
    }
}

/// Whether the blocks of `before` from `k` on that the cut leaves survive,
/// in order, among `after` from `cursor` on, and then nothing else is
/// left among `after`.
pub open spec fn kept_from(nb: Seq<char>, after: Seq<Block>, before: Seq<Block>, body: Seq<char>, from: int, to: int, k: int, cursor: int, matched: int) -> bool
    decreases before.len() - k,
{
    if k < 0 || k >= before.len() {
        matched == after.len()
    } else if vanishes(body, before[k], from, to) {
        kept_from(nb, after, before, body, from, to, k + 1, cursor, matched)
    } else {
        match survival_from(nb, after, cursor, body, before[k], from, to) {
            None => false,
            Some(c) => kept_from(nb, after, before, body, from, to, k + 1, c, matched + 1),
        }
    }
}

/// The headings among `before` the cut leaves, at their new starts.
pub open spec fn surviving_heads(before: Seq<Block>, body: Seq<char>, from: int, to: int) -> Seq<(u8, usize)>
    decreases before.len(),
{
    if before.len() == 0 {
        Seq::empty()
    } else {
        let prev = surviving_heads(before.drop_last(), body, from, to);
        let b = before.last();
        match b.kind {
            BlockKind::Heading(level) => if !vanishes(body, b, from, to) {
                prev.push((level, mapped_at(b.start as int, from, to) as usize))
            } else {
                prev
            },
            _ => prev,
        }
    }
}

/// Whether cutting `body[from..to]` out of a note whose body starts at
/// `boundary`, giving `new`, leaves its surroundings meaning what they
/// meant, as [`removal_kept`] decides.
pub open spec fn removal_keeps(new: Seq<char>, before: Seq<Block>, body: Seq<char>, boundary: int, from: int, to: int) -> bool {
    let nb = new.skip(boundary);
    let after = blocks_of(char_events(nb));
    &&& new.len() - parse(new).body.len() == boundary
    &&& kept_from(nb, after, before, body, from, to, 0, 0, 0)
    &&& parents_held(surviving_heads(before, body, from, to), heads(after))
}

/// Where a content edge of the old body lands once `body[from..to]` is
/// cut: unmoved before the cut, shifted back past it, and clamped to the
/// cut start from inside it.
fn mapped(offset: usize, from: usize, to: usize) -> (r: usize)
    requires
        from <= to,
    ensures
        r == mapped_at(offset as int, from as int, to as int),
{
    if offset <= from {
        offset
    } else {
        let shifted = offset.saturating_sub(to - from);
        if shifted < from {
            from
        } else {
            shifted
        }
    }
}

/// Checks an excised note against the blocks of the original body. A
/// block whose content sits inside the cut vanishes with it; every other
/// block survives with kind, depth and its known content edges intact;
/// code and raw HTML keep their spans exactly; nothing appears that was
/// not there; and every remaining heading keeps its parent.
pub fn removal_kept(new: &[char], before: &[Block], body: &[char], boundary: usize, from: usize, to: usize) -> (r: bool)
    requires
        blocks_within(before@, body@.len()),
        from <= to <= body@.len(),
    ensures
        r == removal_keeps(new@, before@, body@, boundary as int, from as int, to as int),
{
    if body_start(new) != boundary {
        return false;
    }
    let new_body = sliced(new, boundary, new.len());
    assert(new_body@ =~= new@.skip(boundary as int));
    let events = events_of(new_body.as_slice());
    let after = blocks(events.as_slice(), new_body.len());
    let ghost nb = new_body@;
    let ghost fr = from as int;
    let ghost tt = to as int;
    let mut cursor: usize = 0;
    let mut matched: usize = 0;
    let mut k: usize = 0;
    while k < before.len()
        invariant
            k <= before@.len(),
            matched <= cursor <= after@.len(),
            blocks_within(before@, body@.len()),
            blocks_within(after@, new_body@.len()),
            from <= to <= body@.len(),
            nb == new_body@,
            fr == from as int,
            tt == to as int,
            kept_from(nb, after@, before@, body@, fr, tt, 0, 0, 0) == kept_from(nb, after@, before@, body@, fr, tt, k as int, cursor as int, matched as int),
            after@ == blocks_of(char_events(nb)),
            nb == new@.skip(boundary as int),
            new@.len() - parse(new@).body.len() == boundary,
        decreases before@.len() - k,
    {
        let b = before[k];
        assert(b.start <= b.end <= body@.len()) by {
            assert(before@[k as int] == b);
            assert(before@[k as int].start <= before@[k as int].end <= body@.len());
        }
        assert(before@[k as int] == b);
        let lead = content_start(body, b.start, b.end);
        let tail = content_end(body, b.start, b.end);
        if lead >= from && tail <= to {
            k += 1;
            continue;
        }
        let lead_known = lead < from || lead >= to;
        let tail_known = tail <= from || tail > to;
        let lead = if lead_known {
            mapped(lead, from, to)
        } else {
            from
        };
        let tail = mapped(tail, from, to);
        let literal = matches!(b.kind, BlockKind::Code | BlockKind::Html);
        let end = mapped(b.end, from, to);
        let mut found_match = false;
        let ghost c0 = cursor as int;
        let ghost m0 = matched;
        while cursor < after.len()
            invariant_except_break
                !found_match,
                matched == m0,
                survival_from(nb, after@, c0, body@, b, fr, tt) == survival_from(nb, after@, cursor as int, body@, b, fr, tt),
            invariant
                matched <= cursor <= after@.len(),
                blocks_within(after@, new_body@.len()),
                nb == new_body@,
                lead_known == crate::structure::blocks::lead_known(body@, b, fr, tt),
                tail_known == crate::structure::blocks::tail_known(body@, b, fr, tt),
                lead == want_lead(body@, b, fr, tt),
                tail == want_tail(body@, b, fr, tt),
                end == mapped_at(b.end as int, fr, tt),
                literal == (b.kind is Code || b.kind is Html),
            ensures
                found_match ==> survival_from(nb, after@, c0, body@, b, fr, tt) == Some(cursor as int) && matched == m0 + 1,
                !found_match ==> survival_from(nb, after@, c0, body@, b, fr, tt) is None,
            decreases after@.len() - cursor,
        {
            let c = after[cursor];
            assert(c.start <= c.end <= new_body@.len()) by {
                assert(after@[cursor as int] == c);
                assert(after@[cursor as int].start <= after@[cursor as int].end <= new_body@.len());
            }
            assert(after@[cursor as int] == c);
            let found = content_start(new_body.as_slice(), c.start, c.end);
            if found > lead && (lead_known || found >= tail) {
                break;
            }
            if kind_kept(b.kind, c.kind, !lead_known) && c.depth == b.depth && (!lead_known || found
                == lead) && (!tail_known || content_end(new_body.as_slice(), c.start, c.end) == tail)
                && (!literal || c.end == end) {
                cursor += 1;
                matched += 1;
                found_match = true;
                break;
            }
            cursor += 1;
        }
        assert(!vanishes(body@, b, fr, tt));
        if !found_match {
            assert(!kept_from(nb, after@, before@, body@, fr, tt, k as int, c0, m0 as int));
            assert(!kept_from(nb, after@, before@, body@, fr, tt, 0, 0, 0));
            assert(!removal_keeps(new@, before@, body@, boundary as int, from as int, to as int));
            return false;
        }
        assert(kept_from(nb, after@, before@, body@, fr, tt, k as int, c0, m0 as int) == kept_from(nb, after@, before@, body@, fr, tt, k + 1, cursor as int, matched as int));
        k += 1;
    }
    if matched != after.len() {
        return false;
    }
    let mut expected: Vec<(u8, usize)> = Vec::new();
    let mut k: usize = 0;
    while k < before.len()
        invariant
            k <= before@.len(),
            blocks_within(before@, body@.len()),
            from <= to <= body@.len(),
            expected@ == surviving_heads(before@.take(k as int), body@, from as int, to as int),
        decreases before@.len() - k,
    {
        let b = before[k];
        assert(b.start <= b.end <= body@.len()) by {
            assert(before@[k as int] == b);
            assert(before@[k as int].start <= before@[k as int].end <= body@.len());
        }
        assert(before@.take(k + 1).drop_last() =~= before@.take(k as int));
        assert(before@.take(k + 1).last() == b);
        if let BlockKind::Heading(level) = b.kind {
            let lead = content_start(body, b.start, b.end);
            if !(lead >= from && content_end(body, b.start, b.end) <= to) {
                expected.push((level, mapped(b.start, from, to)));
            }
        }
        k += 1;
    }
    assert(before@.take(before@.len() as int) =~= before@);
    let found = headings_of(after.as_slice());
    parents_kept(expected.as_slice(), found.as_slice())
}

} // verus!
