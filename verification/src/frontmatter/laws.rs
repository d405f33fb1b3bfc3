//! What holds of the frontmatter operations across calls: a note splits
//! and reassembles to itself, and a written value reads back.
use vstd::prelude::*;

use crate::frontmatter::document::{
    BlockModel, DocumentModel, closing_from, fence_line, head_len, interior_lines, item_text, lemma_closing_from,
    lemma_line_end, line_end, parse, render, render_items,
};
use crate::frontmatter::readback::lemma_rendered_reads;
use crate::frontmatter::regroup::{
    drawn_from, fits_at, lemma_append_group, lemma_append_lines, lemma_classify_cut, lemma_key_line_fresh,
    lemma_find_group, lemma_group_tail, lemma_splice_members, lemma_replace_group, lemma_replace_lines,
    reads_back,
};
use crate::frontmatter::readback::lemma_parsed_writable;
use crate::frontmatter::written::{lemma_list_block, list_block, writable};
use crate::frontmatter::value::skip_blank;
use crate::frontmatter::{block_or_new, stamp_writable, stamped_spec, with_block, with_items};
use crate::frontmatter::scalar::rendered_scalar;
use crate::frontmatter::value::{parsed_value, ParsedModel};
use crate::frontmatter::{
    unset_spec, add_spec, get_spec, holds_item, key_problem, remove_spec, set_spec, value_problem, without,
    ErrorModel, ValueModel,
};
use crate::frontmatter::document::{list_property, block_eol, foreign_from, foreign_start, holds_key, key_index, lemma_key_index, lookup, put, scalar_property, Lookup};
use crate::text::{find_from, has_char, leading, trailing, trim, trim_end, CharClass};
use crate::frontmatter::lines::{
    classify_from, concat, group_end, group_peeled, key_line, lemma_extent_end, lemma_peel,
    property_group, raw_items, content, contents, ItemModel, PropertyModel, blank_line, colon_from,
};

verus! {

pub proof fn lemma_concat_append(a: Seq<Seq<char>>, b: Seq<Seq<char>>)
    ensures
        concat(a + b) == concat(a) + concat(b),
    decreases b.len(),
{
    if b.len() == 0 {
        assert(a + b =~= a);
        assert(concat(b) =~= Seq::<char>::empty());
        assert(concat(a) + concat(b) =~= concat(a));
    } else {
        lemma_concat_append(a, b.drop_last());
        assert((a + b).drop_last() =~= a + b.drop_last());
        assert((a + b).last() == b.last());
        assert(concat(a + b) =~= concat(a) + concat(b));
    }
}

pub proof fn lemma_render_items_append(a: Seq<ItemModel>, b: Seq<ItemModel>)
    ensures
        render_items(a + b) == render_items(a) + render_items(b),
    decreases b.len(),
{
    if b.len() == 0 {
        assert(a + b =~= a);
        assert(render_items(a) + render_items(b) =~= render_items(a));
    } else {
        lemma_render_items_append(a, b.drop_last());
        assert((a + b).drop_last() =~= a + b.drop_last());
        assert((a + b).last() == b.last());
        assert(render_items(a + b) =~= render_items(a) + render_items(b));
    }
}

pub proof fn lemma_render_one(it: ItemModel)
    ensures
        render_items(seq![it]) == item_text(it),
{
    assert(seq![it].drop_last() =~= Seq::<ItemModel>::empty());
    assert(render_items(Seq::<ItemModel>::empty()) + item_text(it) =~= item_text(it));
}

pub proof fn lemma_concat_one(l: Seq<char>)
    ensures
        concat(seq![l]) == l,
{
    assert(seq![l].drop_last() =~= Seq::<Seq<char>>::empty());
    assert(concat(Seq::<Seq<char>>::empty()) + l =~= l);
}

pub proof fn lemma_render_raw(ls: Seq<Seq<char>>)
    ensures
        render_items(raw_items(ls)) == concat(ls),
    decreases ls.len(),
{
    if ls.len() > 0 {
        lemma_render_raw(ls.drop_last());
        assert(raw_items(ls).drop_last() =~= raw_items(ls.drop_last()));
    }
}

pub proof fn lemma_concat_split(ls: Seq<Seq<char>>, lo: int, mid: int, hi: int)
    requires
        0 <= lo <= mid <= hi <= ls.len(),
    ensures
        concat(ls.subrange(lo, hi)) == concat(ls.subrange(lo, mid)) + concat(ls.subrange(mid, hi)),
{
    assert(ls.subrange(lo, hi) =~= ls.subrange(lo, mid) + ls.subrange(mid, hi));
    lemma_concat_append(ls.subrange(lo, mid), ls.subrange(mid, hi));
}

/// The items grouped from `lines[i..]` stand for exactly those lines.
pub proof fn lemma_classify_renders(lines: Seq<Seq<char>>, i: int)
    requires
        0 <= i <= lines.len(),
    ensures
        render_items(classify_from(lines, i)) == concat(lines.subrange(i, lines.len() as int)),
    decreases lines.len() - i,
{
    let n = lines.len() as int;
    if i == n {
        assert(lines.subrange(i, n) =~= Seq::<Seq<char>>::empty());
    } else {
        lemma_classify_renders(lines, i + 1);
        match key_line(content(lines[i])) {
            None => {
                let one = seq![ItemModel::Raw(lines[i])];
                lemma_render_items_append(one, classify_from(lines, i + 1));
                lemma_render_one(one[0]);
                assert(lines.subrange(i, i + 1) =~= seq![lines[i]]);
                lemma_concat_one(lines[i]);
                lemma_concat_split(lines, i, i + 1, n);
            },
            Some((key, rest)) => {
                let end = group_end(lines, i, rest);
                lemma_extent_end(lines, i + 1, crate::frontmatter::lines::blank_line(rest));
                let peeled = group_peeled(lines, i, rest);
                lemma_peel(lines, i + 1, end);
                assert(i + 1 <= peeled <= end);
                lemma_classify_renders(lines, end);
                let g = property_group(lines, i, key, rest);
                let head = seq![g[0]];
                let tail = raw_items(lines.subrange(peeled, end));
                assert(g =~= head + tail);
                lemma_render_items_append(head, tail);
                lemma_render_one(g[0]);
                lemma_render_raw(lines.subrange(peeled, end));
                assert(lines.subrange(i, n).subrange(0, peeled - i) =~= lines.subrange(i, peeled));
                assert(lines.subrange(peeled, end) =~= lines.subrange(i, n).subrange(
                    peeled - i,
                    end - i,
                ));
                assert(lines.subrange(end, n) =~= lines.subrange(i, n).subrange(end - i, n - i));
                lemma_concat_split(lines, i, peeled, end);
                lemma_concat_split(lines, i, end, n);
                lemma_render_items_append(g, classify_from(lines, end));
            },
        }
    }
}

/// The interior lines from `i` up to the closing fence at `c` stand for
/// exactly the text between them.
pub proof fn lemma_interior_concat(t: Seq<char>, i: int)
    requires
        0 <= i,
        closing_from(t, i) is Some,
    ensures
        i <= closing_from(t, i).unwrap(),
        concat(interior_lines(t, i)) == t.subrange(i, closing_from(t, i).unwrap()),
    decreases t.len() - i,
{
    lemma_closing_from(t, i);
    let c = closing_from(t, i).unwrap();
    if fence_line(t, i) {
        assert(t.subrange(i, c) =~= Seq::<char>::empty());
    } else {
        let e = line_end(t, i);
        lemma_interior_concat(t, e);
        let rest = interior_lines(t, e);
        let one = seq![t.subrange(i, e)];
        assert(interior_lines(t, i) == one + rest);
        lemma_concat_append(one, rest);
        lemma_concat_one(t.subrange(i, e));
        assert(t.subrange(i, c) =~= t.subrange(i, e) + t.subrange(e, c));
    }
}

/// A note split at its frontmatter boundary reassembles to itself: no
/// character of the note is lost or changed by reading it.
pub proof fn parse_render_round_trip(t: Seq<char>)
    ensures
        render(parse(t)) == t,
{
    let h = head_len(t);
    let d = parse(t);
    if h >= t.len() {
        assert(t.take(h) + Seq::<char>::empty() + t.skip(h) =~= t);
        return ;
    }
    lemma_line_end(t, h);
    let o = line_end(t, h);
    if t[o - 1] != '\n' || !fence_line(t, h) || closing_from(t, o) is None {
        assert(t.take(h) + Seq::<char>::empty() + t.skip(h) =~= t);
        return ;
    }
    let c = closing_from(t, o).unwrap();
    lemma_closing_from(t, o);
    lemma_line_end(t, c);
    let ce = line_end(t, c);
    let lines = interior_lines(t, o);
    lemma_interior_concat(t, o);
    lemma_classify_renders(lines, 0);
    assert(lines.subrange(0, lines.len() as int) =~= lines);
    assert(t.take(h) + (t.subrange(h, o) + t.subrange(o, c) + t.subrange(c, ce)) + t.skip(ce)
        =~= t);
}

/// A whole line: terminated by its only line feed.
pub open spec fn proper_line(l: Seq<char>) -> bool {
    &&& l.len() > 0
    &&& l.last() == '\n'
    &&& forall|x: int| 0 <= x < l.len() - 1 ==> #[trigger] l[x] != '\n'
}

/// A whole line that is not a fence.
pub open spec fn plain_line(l: Seq<char>) -> bool {
    proper_line(l) && content(l) != seq!['-', '-', '-']
}

pub proof fn lemma_find_in_line(t: Seq<char>, i: int, l: Seq<char>, j: int)
    requires
        0 <= i <= j < i + l.len() <= t.len(),
        t.subrange(i, i + l.len()) == l,
        proper_line(l),
    ensures
        find_from(t, '\n', j) == Some(i + l.len() - 1),
    decreases i + l.len() - j,
{
    assert(t[j] == l[j - i]);
    if j < i + l.len() - 1 {
        lemma_find_in_line(t, i, l, j + 1);
    }
}

/// A whole line laid at `i` ends where it ends.
pub proof fn lemma_line_end_at(t: Seq<char>, i: int, l: Seq<char>)
    requires
        0 <= i,
        i + l.len() <= t.len(),
        t.subrange(i, i + l.len()) == l,
        proper_line(l),
    ensures
        line_end(t, i) == i + l.len(),
        t.subrange(i, line_end(t, i)) == l,
{
    lemma_find_in_line(t, i, l, i);
}

pub proof fn lemma_no_feed(t: Seq<char>, j: int)
    requires
        0 <= j,
        forall|x: int| j <= x < t.len() ==> #[trigger] t[x] != '\n',
    ensures
        find_from(t, '\n', j) is None,
    decreases t.len() - j,
{
    if j < t.len() {
        lemma_no_feed(t, j + 1);
    }
}

pub proof fn lemma_concat_front(ls: Seq<Seq<char>>)
    requires
        ls.len() > 0,
    ensures
        concat(ls) == ls[0] + concat(ls.skip(1)),
{
    assert(ls =~= seq![ls[0]] + ls.skip(1));
    lemma_concat_append(seq![ls[0]], ls.skip(1));
    lemma_concat_one(ls[0]);
}

/// Whole non-fence lines laid from `o` up to a fence at `c` are the
/// interior that fence closes.
pub proof fn lemma_interior_of(t: Seq<char>, o: int, ls: Seq<Seq<char>>, c: int)
    requires
        0 <= o <= c < t.len(),
        t.subrange(o, c) == concat(ls),
        forall|x: int| 0 <= x < ls.len() ==> plain_line(#[trigger] ls[x]),
        fence_line(t, c),
    ensures
        closing_from(t, o) == Some(c),
        interior_lines(t, o) == ls,
    decreases ls.len(),
{
    if ls.len() == 0 {
        assert(concat(ls) =~= Seq::<char>::empty());
        assert(o == c);
    } else {
        let l = ls[0];
        assert(plain_line(l));
        lemma_concat_front(ls);
        let e = o + l.len();
        assert(t.subrange(o, c).subrange(0, l.len() as int) =~= t.subrange(o, e));
        assert(t.subrange(o, e) == l);
        lemma_line_end_at(t, o, l);
        assert(t.subrange(e, c) =~= t.subrange(o, c).skip(l.len() as int));
        assert((l + concat(ls.skip(1))).skip(l.len() as int) =~= concat(ls.skip(1)));
        assert forall|x: int| 0 <= x < ls.skip(1).len() implies plain_line(#[trigger] ls.skip(1)[x]) by {
            assert(ls.skip(1)[x] == ls[x + 1]);
        }
        lemma_interior_of(t, e, ls.skip(1), c);
        assert(!fence_line(t, o));
        assert(interior_lines(t, o) =~= seq![l] + ls.skip(1));
    }
}

/// A note laid out as a head, an opening fence, whole non-fence lines, a
/// closing fence and a body parses back into exactly those parts.
#[verifier::spinoff_prover]
#[verifier::rlimit(40)]
pub proof fn lemma_parse_laid(
    head: Seq<char>,
    opening: Seq<char>,
    ls: Seq<Seq<char>>,
    closing: Seq<char>,
    body: Seq<char>,
)
    requires
        head.len() <= 1,
        head.len() == 1 ==> head[0] == '\u{feff}',
        proper_line(opening),
        content(opening) == seq!['-', '-', '-'],
        forall|x: int| 0 <= x < ls.len() ==> plain_line(#[trigger] ls[x]),
        content(closing) == seq!['-', '-', '-'],
        proper_line(closing) || (body.len() == 0 && forall|x: int|
            0 <= x < closing.len() ==> #[trigger] closing[x] != '\n'),
    ensures
        parse(head + opening + concat(ls) + closing + body) == (DocumentModel {
            head,
            block: Some(BlockModel { opening, items: classify_from(ls, 0), closing }),
            body,
        }),
{
    let t = head + opening + concat(ls) + closing + body;
    let h = head.len() as int;
    let o = h + opening.len();
    let c = o + concat(ls).len();
    let ce = c + closing.len();
    assert(opening.len() >= 3) by {
        assert(content(opening).len() == 3);
    }
    assert(opening[0] == '-') by {
        assert(content(opening)[0] == opening[0]);
    }
    assert(t[h] == opening[0]);
    if h == 1 {
        assert(t[0] == head[0]);
    }
    assert(head_len(t) == h);
    assert(t.subrange(h, o) =~= opening);
    lemma_line_end_at(t, h, opening);
    assert(t[o - 1] == opening.last());
    assert(fence_line(t, h));
    assert(closing.len() >= 3) by {
        assert(content(closing).len() == 3);
    }
    assert(t.subrange(c, ce) =~= closing);
    if proper_line(closing) {
        lemma_line_end_at(t, c, closing);
    } else {
        assert(ce == t.len());
        assert forall|x: int| c <= x < t.len() implies #[trigger] t[x] != '\n' by {
            assert(t[x] == closing[x - c]);
        }
        lemma_no_feed(t, c);
    }
    assert(line_end(t, c) == ce);
    assert(fence_line(t, c));
    assert(t.subrange(o, c) =~= concat(ls));
    lemma_interior_of(t, o, ls, c);
    assert(t.take(h) =~= head);
    assert(t.skip(ce) =~= body);
}

/// The line starting at `i` is whole when a line feed ends it.
pub proof fn lemma_line_at(t: Seq<char>, i: int)
    requires
        0 <= i < t.len(),
    ensures
        find_from(t, '\n', i) is Some ==> proper_line(t.subrange(i, line_end(t, i))),
        find_from(t, '\n', i) is None ==> line_end(t, i) == t.len() && forall|x: int|
            0 <= x < t.len() - i ==> #[trigger] t.subrange(i, line_end(t, i))[x] != '\n',
{
    crate::text::lemma_find_from(t, '\n', i);
    let l = t.subrange(i, line_end(t, i));
    if find_from(t, '\n', i) is Some {
        assert forall|x: int| 0 <= x < l.len() - 1 implies #[trigger] l[x] != '\n' by {
            assert(l[x] == t[i + x]);
        }
    } else {
        assert forall|x: int| 0 <= x < t.len() - i implies #[trigger] l[x] != '\n' by {
            assert(l[x] == t[i + x]);
        }
    }
}

pub proof fn lemma_interior_plain(t: Seq<char>, i: int)
    requires
        0 <= i,
        closing_from(t, i) is Some,
    ensures
        forall|x: int|
            0 <= x < interior_lines(t, i).len() ==> plain_line(#[trigger] interior_lines(t, i)[x]),
    decreases t.len() - i,
{
    lemma_closing_from(t, i);
    if !fence_line(t, i) {
        let e = line_end(t, i);
        lemma_interior_plain(t, e);
        lemma_closing_from(t, e);
        lemma_line_at(t, i);
        let l = t.subrange(i, e);
        assert(plain_line(l));
        assert forall|x: int| 0 <= x < interior_lines(t, i).len() implies plain_line(
            #[trigger] interior_lines(t, i)[x],
        ) by {
            if x > 0 {
                assert(interior_lines(t, i)[x] == interior_lines(t, e)[x - 1]);
            }
        }
    }
}

pub proof fn lemma_closing_fence(t: Seq<char>, i: int)
    requires
        0 <= i,
        closing_from(t, i) is Some,
    ensures
        fence_line(t, closing_from(t, i).unwrap()),
    decreases t.len() - i,
{
    if !fence_line(t, i) {
        lemma_line_end(t, i);
        lemma_closing_fence(t, line_end(t, i));
    }
}

/// The interior lines of a note's block, when it has one.
pub open spec fn block_lines(t: Seq<char>) -> Seq<Seq<char>> {
    interior_lines(t, line_end(t, head_len(t)))
}

/// What parsing a note with a block finds: fence lines and whole interior
/// lines that the block's items group.
pub proof fn lemma_parse_facts(t: Seq<char>) -> (ls: Seq<Seq<char>>)
    requires
        parse(t).block is Some,
    ensures
        parse(t).head.len() <= 1,
        parse(t).head.len() == 1 ==> parse(t).head[0] == '\u{feff}',
        proper_line(parse(t).block.unwrap().opening),
        content(parse(t).block.unwrap().opening) == seq!['-', '-', '-'],
        content(parse(t).block.unwrap().closing) == seq!['-', '-', '-'],
        proper_line(parse(t).block.unwrap().closing) || (parse(t).body.len() == 0 && forall|x: int|
            0 <= x < parse(t).block.unwrap().closing.len() ==> #[trigger] parse(
                t,
            ).block.unwrap().closing[x] != '\n'),
        forall|x: int| 0 <= x < ls.len() ==> plain_line(#[trigger] ls[x]),
        parse(t).block.unwrap().items == classify_from(ls, 0),
        ls == block_lines(t),
{
    let h = head_len(t);
    lemma_line_end(t, h);
    let o = line_end(t, h);
    lemma_line_at(t, h);
    let c = closing_from(t, o).unwrap();
    lemma_closing_from(t, o);
    lemma_closing_fence(t, o);
    lemma_line_end(t, c);
    lemma_line_at(t, c);
    lemma_interior_plain(t, o);
    let d = parse(t);
    assert(d.head =~= t.take(h));
    if h == 1 {
        assert(d.head[0] == t[0]);
    }
    let b = d.block.unwrap();
    if find_from(t, '\n', h) is None {
        assert(b.opening[b.opening.len() - 1] == t[o - 1]);
        assert(false);
    }
    let ce = line_end(t, c);
    if find_from(t, '\n', c) is None {
        assert(d.body.len() == 0);
    }
    interior_lines(t, o)
}

pub proof fn lemma_colon_at(c: Seq<char>, i: int, at: int)
    requires
        0 <= i <= at,
        at + 1 < c.len(),
        c[at] == ':',
        c[at + 1] == ' ',
        forall|x: int| i <= x < at ==> #[trigger] c[x] != ':',
    ensures
        colon_from(c, i) == Some(at),
    decreases at - i,
{
    if i < at {
        lemma_colon_at(c, i + 1, at);
    }
}

/// A line feed or carriage return ending a written property line.
pub open spec fn line_break(eol: Seq<char>) -> bool {
    eol == seq!['\n'] || eol == seq!['\r', '\n']
}

/// A valid key, a colon and a space, then the rest: the line reads as
/// that key and that rest.
pub proof fn lemma_key_line_of(k: Seq<char>, rv: Seq<char>)
    requires
        key_problem(k) is None,
    ensures
        key_line(k + seq![':', ' '] + rv) == Some((k, rv)),
{
    let c = k + seq![':', ' '] + rv;
    assert(c[0] == k[0]);
    assert forall|x: int| 0 <= x < k.len() implies #[trigger] c[x] != ':' by {
        assert(c[x] == k[x]);
    }
    lemma_colon_at(c, 0, k.len() as int);
    assert(c.take(k.len() as int) =~= k);
    assert(c.skip(k.len() + 2int) =~= rv);
    assert(trailing(CharClass::Blank, k) == 0) by {
        assert(k.last() == k[k.len() - 1]);
    }
    assert(trim_end(CharClass::Blank, k) =~= k);
}

/// A written property line is whole: its one line feed ends it.
pub proof fn lemma_written_whole(k: Seq<char>, rv: Seq<char>, eol: Seq<char>)
    requires
        !has_char(k, '\n'),
        !has_char(rv, '\n'),
        line_break(eol),
    ensures
        proper_line(k + seq![':', ' '] + rv + eol),
{
    let c = k + seq![':', ' '] + rv;
    let raw = c + eol;
    assert forall|x: int| 0 <= x < raw.len() - 1 implies #[trigger] raw[x] != '\n' by {
        if x < k.len() {
            assert(raw[x] == k[x]);
        } else if x >= k.len() + 2 && x < c.len() {
            assert(raw[x] == rv[x - k.len() - 2]);
        } else if x >= c.len() {
            assert(raw[x] == eol[x - c.len()]);
        }
    }
}

/// The content of a line the writer terminated.
pub proof fn lemma_written_content(c: Seq<char>, eol: Seq<char>)
    requires
        line_break(eol),
        c.len() > 0,
        c.last() != '\r',
    ensures
        content(c + eol) == c,
{
    if eol == seq!['\r', '\n'] {
        assert((c + eol).drop_last() =~= c.push('\r'));
        assert(c.push('\r').drop_last() =~= c);
    } else {
        assert((c + eol).drop_last() =~= c);
    }
}

/// A valid key and writable value give a property line that is whole and
/// reads back as the property written.
pub proof fn lemma_scalar_line(k: Seq<char>, v: Seq<char>, eol: Seq<char>)
    requires
        key_problem(k) is None,
        value_problem(v) is None,
        line_break(eol),
    ensures
        reads_back(scalar_property(k, v, eol).raw, scalar_property(k, v, eol)),
        plain_line(scalar_property(k, v, eol).raw),
{
    let p = scalar_property(k, v, eol);
    let rv = rendered_scalar(v);
    lemma_rendered_reads(v);
    let c = k + seq![':', ' '] + rv;
    assert(c.last() == rv.last());
    lemma_written_content(c, eol);
    lemma_key_line_of(k, rv);
    assert(!blank_line(rv)) by {
        assert(leading(CharClass::Blank, rv) == 0);
    }
    assert(parsed_value(rv, Seq::empty()) == ParsedModel::Scalar(v));
    lemma_written_whole(k, rv, eol);
    assert(content(p.raw).len() != 3);
}

/// The fence a new block is written with.
pub proof fn lemma_new_fence()
    ensures
        proper_line(seq!['-', '-', '-', '\n']),
        content(seq!['-', '-', '-', '\n']) == seq!['-', '-', '-'],
{
    let fence = seq!['-', '-', '-', '\n'];
    assert(fence.drop_last() =~= seq!['-', '-', '-']);
}

/// What parsing any note finds in front of its block.
pub proof fn lemma_head_facts(t: Seq<char>)
    ensures
        parse(t).head.len() <= 1,
        parse(t).head.len() == 1 ==> parse(t).head[0] == '\u{feff}',
{
    let h = head_len(t);
    assert(parse(t).head =~= t.take(h));
    if h == 1 {
        assert(parse(t).head[0] == t[0]);
    }
}

/// The whole lines a block with a one-line property put in it groups
/// from.
pub proof fn lemma_put_lines(t: Seq<char>, p: PropertyModel) -> (ls: Seq<Seq<char>>)
    requires
        reads_back(p.raw, p),
        plain_line(p.raw),
    ensures
        classify_from(ls, 0) == put(block_or_new(parse(t)).items, p),
        forall|x: int| 0 <= x < ls.len() ==> plain_line(#[trigger] ls[x]),
{
    let d = parse(t);
    let b = block_or_new(d);
    if d.block is None {
        assert(b.items.len() == 0);
        assert(put(b.items, p) =~= seq![ItemModel::Property(p)]);
        lemma_append_group(Seq::<Seq<char>>::empty(), p.raw, p);
        assert(Seq::<Seq<char>>::empty().push(p.raw) =~= seq![p.raw]);
        assert(classify_from(Seq::<Seq<char>>::empty(), 0) =~= Seq::<ItemModel>::empty());
        seq![p.raw]
    } else {
        let old = lemma_parse_facts(t);
        lemma_key_index(b.items, p.key);
        match key_index(b.items, p.key) {
            Some(j) => {
                let new = lemma_replace_group(old, j, p.raw, p);
                assert forall|x: int| 0 <= x < new.len() implies plain_line(#[trigger] new[x]) by {
                    if new[x] != p.raw {
                        let y = choose|y: int| 0 <= y < old.len() && new[x] == old[y];
                        assert(plain_line(old[y]));
                    }
                }
                new
            },
            None => {
                lemma_append_group(old, p.raw, p);
                let new = old.push(p.raw);
                assert forall|x: int| 0 <= x < new.len() implies plain_line(#[trigger] new[x]) by {
                    if x < old.len() {
                        assert(new[x] == old[x]);
                    }
                }
                new
            },
        }
    }
}

/// A note whose block, kept or created, holds items grouped from whole
/// non-fence lines parses back into exactly that note.
#[verifier::spinoff_prover]
#[verifier::rlimit(50)]
pub proof fn lemma_relaid(t: Seq<char>, items: Seq<ItemModel>, ls: Seq<Seq<char>>)
    requires
        classify_from(ls, 0) == items,
        forall|x: int| 0 <= x < ls.len() ==> plain_line(#[trigger] ls[x]),
    ensures
        parse(render(with_block(parse(t), with_items(block_or_new(parse(t)), items)))) == with_block(
            parse(t),
            with_items(block_or_new(parse(t)), items),
        ),
{
    let d = parse(t);
    let b = block_or_new(d);
    let e = with_block(d, with_items(b, items));
    lemma_head_facts(t);
    if d.block is None {
        lemma_new_fence();
    } else {
        let _ = lemma_parse_facts(t);
    }
    lemma_classify_renders(ls, 0);
    assert(ls.subrange(0, ls.len() as int) =~= ls);
    let laid = d.head + b.opening + concat(ls) + b.closing + d.body;
    assert(render(e) =~= laid);
    lemma_parse_laid(d.head, b.opening, ls, b.closing, d.body);
    assert(parse(laid) == e);
}

/// A note with a one-line property put into its block, created when it
/// has none, parses back into exactly that edited note.
pub proof fn lemma_put_reparse(t: Seq<char>, p: PropertyModel)
    requires
        reads_back(p.raw, p),
        plain_line(p.raw),
    ensures
        parse(render(with_block(parse(t), with_items(block_or_new(parse(t)), put(block_or_new(parse(t)).items, p)))))
            == with_block(parse(t), with_items(block_or_new(parse(t)), put(block_or_new(parse(t)).items, p))),
{
    let ls = lemma_put_lines(t, p);
    lemma_relaid(t, put(block_or_new(parse(t)).items, p), ls);
}

/// A key found once is held by no other item.
pub proof fn lemma_lookup_unique(items: Seq<ItemModel>, key: Seq<char>)
    ensures
        lookup(items, key) is Missing ==> forall|x: int|
            0 <= x < items.len() ==> !holds_key(#[trigger] items[x], key),
        lookup(items, key) is Found ==> (key_index(items, key) matches Some(i) && forall|x: int|
            0 <= x < items.len() && x != i ==> !holds_key(#[trigger] items[x], key)),
    decreases items.len(),
{
    lemma_key_index(items, key);
    if items.len() > 0 {
        let rest = items.drop_last();
        let n = items.len() - 1;
        lemma_lookup_unique(rest, key);
        lemma_key_index(rest, key);
        if lookup(items, key) is Missing {
            assert(!holds_key(items.last(), key));
            assert forall|x: int| 0 <= x < items.len() implies !holds_key(#[trigger] items[x], key) by {
                if x < n {
                    assert(items[x] == rest[x]);
                }
            }
        }
        if lookup(items, key) is Found {
            if holds_key(items.last(), key) {
                assert(lookup(rest, key) is Missing);
                assert(key_index(items, key) == Some(n));
                assert forall|x: int| 0 <= x < items.len() && x != n implies !holds_key(
                    #[trigger] items[x],
                    key,
                ) by {
                    assert(items[x] == rest[x]);
                }
            } else {
                let i = key_index(rest, key).unwrap();
                assert(key_index(items, key) == Some(i));
                assert forall|x: int| 0 <= x < items.len() && x != i implies !holds_key(
                    #[trigger] items[x],
                    key,
                ) by {
                    if x < n {
                        assert(items[x] == rest[x]);
                    }
                }
            }
        }
    }
}

/// The only item holding a key, replaced by a property under that key,
/// is found under it.
pub proof fn lemma_lookup_replaced(items: Seq<ItemModel>, key: Seq<char>, j: int, p: PropertyModel)
    requires
        lookup(items, key) is Found,
        key_index(items, key) == Some(j),
        p.key == key,
    ensures
        lookup(items.update(j, ItemModel::Property(p)), key) == Lookup::Found(p.value),
        key_index(items.update(j, ItemModel::Property(p)), key) == Some(j),
{
    lemma_lookup_unique(items, key);
    lemma_key_index(items, key);
    let u = items.update(j, ItemModel::Property(p));
    assert forall|x: int| 0 <= x < u.len() && x != j implies !holds_key(#[trigger] u[x], key) by {
        assert(u[x] == items[x]);
    }
    lemma_lookup_single(u, key, j);
}

/// Items holding a key at exactly one index find it there.
pub proof fn lemma_lookup_single(items: Seq<ItemModel>, key: Seq<char>, j: int)
    requires
        0 <= j < items.len(),
        holds_key(items[j], key),
        forall|x: int| 0 <= x < items.len() && x != j ==> !holds_key(#[trigger] items[x], key),
    ensures
        lookup(items, key) == Lookup::Found(items[j]->Property_0.value),
        key_index(items, key) == Some(j),
    decreases items.len(),
{
    let rest = items.drop_last();
    if j == items.len() - 1 {
        assert forall|x: int| 0 <= x < rest.len() implies !holds_key(#[trigger] rest[x], key) by {
            assert(rest[x] == items[x]);
        }
        lemma_lookup_none(rest, key);
    } else {
        assert(rest[j] == items[j]);
        assert forall|x: int| 0 <= x < rest.len() && x != j implies !holds_key(#[trigger] rest[x], key) by {
            assert(rest[x] == items[x]);
        }
        lemma_lookup_single(rest, key, j);
        assert(!holds_key(items[items.len() - 1], key));
    }
}

pub proof fn lemma_lookup_none(items: Seq<ItemModel>, key: Seq<char>)
    requires
        forall|x: int| 0 <= x < items.len() ==> !holds_key(#[trigger] items[x], key),
    ensures
        lookup(items, key) is Missing,
        key_index(items, key) is None,
    decreases items.len(),
{
    if items.len() > 0 {
        let rest = items.drop_last();
        assert forall|x: int| 0 <= x < rest.len() implies !holds_key(#[trigger] rest[x], key) by {
            assert(rest[x] == items[x]);
        }
        lemma_lookup_none(rest, key);
        assert(!holds_key(items[items.len() - 1], key));
    }
}

/// Putting a property into items where its key is at most once finds it
/// there after.
pub proof fn lemma_lookup_put(items: Seq<ItemModel>, p: PropertyModel)
    requires
        !(lookup(items, p.key) is Duplicate),
    ensures
        lookup(put(items, p), p.key) == Lookup::Found(p.value),
        put(put(items, p), p) == put(items, p),
{
    let key = p.key;
    lemma_key_index(items, key);
    lemma_lookup_unique(items, key);
    match key_index(items, key) {
        Some(j) => {
            lemma_lookup_replaced(items, key, j, p);
            let u = put(items, p);
            assert(u.update(j, ItemModel::Property(p)) =~= u);
        },
        None => {
            let u = items.push(ItemModel::Property(p));
            let n = items.len() as int;
            assert forall|x: int| 0 <= x < u.len() && x != n implies !holds_key(#[trigger] u[x], key) by {
                assert(u[x] == items[x]);
            }
            lemma_lookup_single(u, key, n);
            assert(u.update(n, ItemModel::Property(p)) =~= u);
        },
    }
}

pub proof fn lemma_foreign_update(items: Seq<ItemModel>, i: int, j: int, p: PropertyModel)
    requires
        0 <= i,
        0 <= j < items.len(),
        !foreign_from(items, i),
        p.raw.len() > 0,
        !foreign_start(p.raw[0]),
    ensures
        !foreign_from(items.update(j, ItemModel::Property(p)), i),
    decreases items.len() - i,
{
    let u = items.update(j, ItemModel::Property(p));
    if i < items.len() && i != j {
        assert(u[i] == items[i]);
        if items[i] is Raw {
            lemma_foreign_update(items, i + 1, j, p);
        }
    }
}

pub proof fn lemma_foreign_push(items: Seq<ItemModel>, i: int, p: PropertyModel)
    requires
        0 <= i,
        !foreign_from(items, i),
        p.raw.len() > 0,
        !foreign_start(p.raw[0]),
    ensures
        !foreign_from(items.push(ItemModel::Property(p)), i),
    decreases items.len() - i,
{
    let u = items.push(ItemModel::Property(p));
    if i < items.len() {
        assert(u[i] == items[i]);
        if items[i] is Raw {
            lemma_foreign_push(items, i + 1, p);
        }
    }
}

/// A property whose line starts with its key keeps a block rooted in
/// property lines.
pub proof fn lemma_foreign_put(items: Seq<ItemModel>, p: PropertyModel)
    requires
        !foreign_from(items, 0),
        p.raw.len() > 0,
        !foreign_start(p.raw[0]),
    ensures
        !foreign_from(put(items, p), 0),
{
    lemma_key_index(items, p.key);
    match key_index(items, p.key) {
        Some(j) => lemma_foreign_update(items, 0, j, p),
        None => lemma_foreign_push(items, 0, p),
    }
}

/// Setting a text property and reading it back gives the value set: a
/// written value survives a write and a read.
pub proof fn set_then_get(text: Seq<char>, key: Seq<char>, value: Seq<char>)
    requires
        set_spec(text, key, value) is Ok,
    ensures
        get_spec(set_spec(text, key, value)->Ok_0, key) == Ok::<Option<ValueModel>, ErrorModel>(Some(ValueModel::Scalar(value))),
{
    let d = parse(text);
    let b = block_or_new(d);
    let eol = block_eol(b);
    let p = scalar_property(key, value, eol);
    lemma_scalar_line(key, value, eol);
    lemma_put_reparse(text, p);
    lemma_lookup_put(b.items, p);
}

/// Setting a text property twice writes the note the first set wrote.
pub proof fn set_twice(text: Seq<char>, key: Seq<char>, value: Seq<char>)
    requires
        set_spec(text, key, value) is Ok,
    ensures
        set_spec(set_spec(text, key, value)->Ok_0, key, value) == set_spec(text, key, value),
{
    let d = parse(text);
    let b = block_or_new(d);
    let eol = block_eol(b);
    let p = scalar_property(key, value, eol);
    lemma_scalar_line(key, value, eol);
    lemma_put_reparse(text, p);
    lemma_lookup_put(b.items, p);
    assert(p.raw[0] == key[0]);
    lemma_foreign_put(b.items, p);
    let e = with_block(d, with_items(b, put(b.items, p)));
    assert(with_block(e, with_items(block_or_new(e), put(block_or_new(e).items, p))) == e);
}

/// Every list a grouping reads holds writable items.
pub proof fn lemma_classify_writable(lines: Seq<Seq<char>>, i: int)
    requires
        0 <= i <= lines.len(),
    ensures
        forall|x: int|
            0 <= x < classify_from(lines, i).len() ==> (#[trigger] classify_from(lines, i)[x] matches ItemModel::Property(
                p,
            ) ==> (p.value matches ParsedModel::List(l) ==> writable(l))),
    decreases lines.len() - i,
{
    let items = classify_from(lines, i);
    if i < lines.len() {
        match key_line(content(lines[i])) {
            None => {
                lemma_classify_writable(lines, i + 1);
                assert forall|x: int| 0 <= x < items.len() implies (#[trigger] items[x] matches ItemModel::Property(
                    p,
                ) ==> (p.value matches ParsedModel::List(l) ==> writable(l))) by {
                    if x > 0 {
                        assert(items[x] == classify_from(lines, i + 1)[x - 1]);
                    }
                }
            },
            Some((key, rest)) => {
                lemma_extent_end(lines, i + 1, blank_line(rest));
                let end = group_end(lines, i, rest);
                lemma_peel(lines, i + 1, end);
                let pe = group_peeled(lines, i, rest);
                lemma_classify_writable(lines, end);
                let g = property_group(lines, i, key, rest);
                lemma_parsed_writable(rest, contents(lines.subrange(i + 1, pe)));
                assert forall|x: int| 0 <= x < items.len() implies (#[trigger] items[x] matches ItemModel::Property(
                    p,
                ) ==> (p.value matches ParsedModel::List(l) ==> writable(l))) by {
                    if x >= g.len() {
                        assert(items[x] == classify_from(lines, end)[x - g.len()]);
                    } else {
                        assert(items[x] == g[x]);
                    }
                }
            },
        }
    }
}

/// A list a note's block holds under a key holds writable items.
pub proof fn lemma_found_writable(t: Seq<char>, k: Seq<char>)
    requires
        parse(t).block is Some,
    ensures
        lookup(parse(t).block.unwrap().items, k) matches Lookup::Found(ParsedModel::List(l)) ==> writable(l),
{
    let ls = lemma_parse_facts(t);
    let items = parse(t).block.unwrap().items;
    lemma_classify_writable(ls, 0);
    lemma_key_index(items, k);
    if let Some(i) = key_index(items, k) {
        assert(items[i] matches ItemModel::Property(_));
    }
}

/// The empty list is written on its key line and reads back.
pub proof fn lemma_empty_list_line(k: Seq<char>, eol: Seq<char>)
    requires
        key_problem(k) is None,
        line_break(eol),
    ensures
        reads_back(list_property(k, Seq::empty(), eol).raw, list_property(k, Seq::empty(), eol)),
        plain_line(list_property(k, Seq::empty(), eol).raw),
{
    let p = list_property(k, Seq::empty(), eol);
    let rv = seq!['[', ']'];
    let c = k + seq![':', ' '] + rv;
    assert(p.raw =~= c + eol);
    assert(c.last() == ']');
    lemma_written_content(c, eol);
    lemma_key_line_of(k, rv);
    assert(!blank_line(rv)) by {
        assert(leading(CharClass::Blank, rv) == 0);
    }
    assert(trim(CharClass::Blank, rv) =~= rv) by {
        assert(leading(CharClass::Blank, rv) == 0);
        assert(trailing(CharClass::Blank, rv) == 0);
    }
    assert(rv.subrange(1, 1) =~= Seq::<char>::empty());
    assert(skip_blank(Seq::<char>::empty(), 0) == 0);
    assert(parsed_value(rv, Seq::empty()) == ParsedModel::List(Seq::<Seq<char>>::empty()));
    assert(!has_char(rv, '\n')) by {
        if has_char(rv, '\n') {
            let x = choose|x: int| 0 <= x < rv.len() && rv[x] == '\n';
        }
    }
    lemma_written_whole(k, rv, eol);
    assert(content(p.raw).len() != 3);
}

/// Whether, under `key`, the note's block holds a property whose lines
/// after it a list written over several lines would take in: an inline
/// list followed by lines that are not between properties, or by a list
/// item line.
pub open spec fn spills(t: Seq<char>, key: Seq<char>) -> bool {
    &&& parse(t).block is Some
    &&& exists|s: int| 0 <= s < block_lines(t).len() && !#[trigger] fits_at(block_lines(t), s, key)
}

/// The whole lines a block with a non-empty list property put in it
/// groups from.
pub proof fn lemma_put_list_lines(t: Seq<char>, k: Seq<char>, l: Seq<Seq<char>>, eol: Seq<char>) -> (ls: Seq<Seq<char>>)
    requires
        key_problem(k) is None,
        line_break(eol),
        l.len() > 0,
        writable(l),
        !spills(t, k),
    ensures
        classify_from(ls, 0) == put(block_or_new(parse(t)).items, list_property(k, l, eol)),
        forall|x: int| 0 <= x < ls.len() ==> plain_line(#[trigger] ls[x]),
{
    let d = parse(t);
    let b = block_or_new(d);
    let p = list_property(k, l, eol);
    let nl = list_block(k, l, eol);
    lemma_list_block(k, l, eol);
    if d.block is None {
        assert(b.items.len() == 0);
        assert(put(b.items, p) =~= seq![ItemModel::Property(p)]);
        lemma_append_lines(Seq::<Seq<char>>::empty(), nl, p);
        assert(Seq::<Seq<char>>::empty() + nl =~= nl);
        assert(classify_from(Seq::<Seq<char>>::empty(), 0) =~= Seq::<ItemModel>::empty());
        nl
    } else {
        let old = lemma_parse_facts(t);
        lemma_key_index(b.items, k);
        assert forall|s: int| 0 <= s < old.len() implies #[trigger] fits_at(old, s, k) by {}
        match key_index(b.items, k) {
            Some(j) => {
                let new = lemma_replace_lines(old, j, nl, p);
                assert forall|x: int| 0 <= x < new.len() implies plain_line(#[trigger] new[x]) by {
                    assert(drawn_from(new[x], nl, old));
                    if exists|y: int| 0 <= y < nl.len() && new[x] == #[trigger] nl[y] {
                        let y = choose|y: int| 0 <= y < nl.len() && new[x] == #[trigger] nl[y];
                        assert(plain_line(nl[y]));
                    } else {
                        let y = choose|y: int| 0 <= y < old.len() && new[x] == #[trigger] old[y];
                        assert(plain_line(old[y]));
                    }
                }
                new
            },
            None => {
                lemma_append_lines(old, nl, p);
                let new = old + nl;
                assert forall|x: int| 0 <= x < new.len() implies plain_line(#[trigger] new[x]) by {
                    if x < old.len() {
                        assert(new[x] == old[x]);
                    } else {
                        assert(new[x] == nl[x - old.len()]);
                    }
                }
                new
            },
        }
    }
}

/// The list property a note gains: written on one line when empty, over
/// several otherwise.
pub proof fn lemma_list_reparse(t: Seq<char>, k: Seq<char>, l: Seq<Seq<char>>, eol: Seq<char>)
    requires
        key_problem(k) is None,
        line_break(eol),
        writable(l),
        l.len() == 0 || !spills(t, k),
    ensures
        parse(render(with_block(parse(t), with_items(block_or_new(parse(t)), put(block_or_new(parse(t)).items, list_property(k, l, eol))))))
            == with_block(parse(t), with_items(block_or_new(parse(t)), put(block_or_new(parse(t)).items, list_property(k, l, eol)))),
{
    let p = list_property(k, l, eol);
    if l.len() == 0 {
        assert(l =~= Seq::<Seq<char>>::empty());
        lemma_empty_list_line(k, eol);
        lemma_put_reparse(t, p);
    } else {
        let ls = lemma_put_list_lines(t, k, l, eol);
        lemma_relaid(t, put(block_or_new(parse(t)).items, p), ls);
    }
}

/// Taking out an item that is not there leaves the list as it was, and
/// what is left of a writable list is writable.
pub proof fn lemma_without(l: Seq<Seq<char>>, x: Seq<char>)
    ensures
        without(l, x).len() <= l.len(),
        without(l, x).len() == l.len() ==> without(l, x) == l,
        writable(l) ==> writable(without(l, x)),
    decreases l.len(),
{
    if l.len() > 0 {
        let r = l.drop_last();
        lemma_without(r, x);
        if writable(l) {
            assert(writable(r)) by {
                assert forall|i: int| 0 <= i < r.len() implies value_problem(#[trigger] r[i]) is None by {
                    assert(r[i] == l[i]);
                }
            }
            let w = without(l, x);
            assert forall|i: int| 0 <= i < w.len() implies value_problem(#[trigger] w[i]) is None by {
                if l.last() != x && i == w.len() - 1 {
                    assert(w[i] == l.last());
                    assert(l.last() == l[l.len() - 1]);
                } else {
                    assert(w[i] == without(r, x)[i]);
                }
            }
        }
        if without(l, x).len() == l.len() {
            assert(l.last() != x);
            assert(without(l, x) =~= l);
        }
    }
}

/// The list a note holds under a key, empty when it holds none.
pub open spec fn listed(t: Seq<char>, key: Seq<char>) -> Seq<Seq<char>> {
    match get_spec(t, key) {
        Ok(Some(ValueModel::List(l))) => l,
        _ => Seq::empty(),
    }
}

/// Adding an item to a list property and reading it back gives the list
/// with the item at its end, or unchanged when it already held the item.
/// A note whose property under the key is an inline list followed by lines
/// the rewritten list would take in is left out.
pub proof fn add_then_get(text: Seq<char>, key: Seq<char>, item: Seq<char>)
    requires
        add_spec(text, key, item) is Ok,
        !spills(text, key) || holds_item(listed(text, key), item),
    ensures
        get_spec(add_spec(text, key, item)->Ok_0, key) == Ok::<Option<ValueModel>, ErrorModel>(
            Some(
                ValueModel::List(
                    if holds_item(listed(text, key), item) {
                        listed(text, key)
                    } else {
                        listed(text, key).push(item)
                    },
                ),
            ),
        ),
{
    let d = parse(text);
    let b = block_or_new(d);
    let eol = block_eol(b);
    if d.block is Some {
        lemma_found_writable(text, key);
    }
    match lookup(b.items, key) {
        Lookup::Found(ParsedModel::List(l)) => {
            assert(listed(text, key) == l);
            if !holds_item(l, item) {
                let n = l.push(item);
                assert(writable(n)) by {
                    assert forall|i: int| 0 <= i < n.len() implies value_problem(#[trigger] n[i]) is None by {
                        if i < l.len() {
                            assert(n[i] == l[i]);
                        }
                    }
                }
                lemma_list_reparse(text, key, n, eol);
                lemma_lookup_put(b.items, list_property(key, n, eol));
            }
        },
        _ => {
            assert(listed(text, key) =~= Seq::<Seq<char>>::empty());
            assert(!holds_item(Seq::<Seq<char>>::empty(), item));
            let n = seq![item];
            assert(Seq::<Seq<char>>::empty().push(item) =~= n);
            assert(writable(n));
            lemma_list_reparse(text, key, n, eol);
            lemma_lookup_put(b.items, list_property(key, n, eol));
        },
    }
}

/// Removing an item from a list property and reading it back gives the
/// list without every copy of the item; a note without the list reads as
/// before. A note whose property under the key is an inline list followed
/// by lines the rewritten list would take in is left out when items stay
/// and one goes.
pub proof fn remove_then_get(text: Seq<char>, key: Seq<char>, item: Seq<char>)
    requires
        remove_spec(text, key, item) is Ok,
        !spills(text, key) || without(listed(text, key), item).len() == 0 || without(
            listed(text, key),
            item,
        ).len() == listed(text, key).len(),
    ensures
        get_spec(remove_spec(text, key, item)->Ok_0, key) == match get_spec(text, key) {
            Ok(Some(ValueModel::List(l))) => Ok(Some(ValueModel::List(without(l, item)))),
            r => r,
        },
{
    let d = parse(text);
    if let Some(b) = d.block {
        let eol = block_eol(b);
        lemma_found_writable(text, key);
        if let Lookup::Found(ParsedModel::List(l)) = lookup(b.items, key) {
            assert(listed(text, key) == l);
            lemma_without(l, item);
            let n = without(l, item);
            if n.len() != l.len() {
                assert(block_or_new(d) == b);
                lemma_list_reparse(text, key, n, eol);
                lemma_lookup_put(b.items, list_property(key, n, eol));
            }
        }
    }
}

/// Whether no line from `i` on declares `key`.
pub open spec fn undeclared(lines: Seq<Seq<char>>, i: int, key: Seq<char>) -> bool {
    forall|y: int|
        i <= y < lines.len() ==> !(#[trigger] key_line(content(lines[y])) matches Some((k, _)) && k == key)
}

/// Grouping lines that declare no property under `key` finds none.
pub proof fn lemma_undeclared_missing(lines: Seq<Seq<char>>, i: int, key: Seq<char>)
    requires
        0 <= i <= lines.len(),
        undeclared(lines, i, key),
    ensures
        forall|x: int|
            0 <= x < classify_from(lines, i).len() ==> !holds_key(
                #[trigger] classify_from(lines, i)[x],
                key,
            ),
    decreases lines.len() - i,
{
    let items = classify_from(lines, i);
    if i < lines.len() {
        assert(!(key_line(content(lines[i])) matches Some((k, _)) && k == key));
        match key_line(content(lines[i])) {
            None => {
                lemma_undeclared_missing(lines, i + 1, key);
                assert forall|x: int| 0 <= x < items.len() implies !holds_key(#[trigger] items[x], key) by {
                    if x > 0 {
                        assert(items[x] == classify_from(lines, i + 1)[x - 1]);
                    }
                }
            },
            Some((k, rest)) => {
                lemma_extent_end(lines, i + 1, blank_line(rest));
                let end = group_end(lines, i, rest);
                lemma_peel(lines, i + 1, end);
                lemma_undeclared_missing(lines, end, key);
                let g = property_group(lines, i, k, rest);
                assert forall|x: int| 0 <= x < items.len() implies !holds_key(#[trigger] items[x], key) by {
                    if x >= g.len() {
                        assert(items[x] == classify_from(lines, end)[x - g.len()]);
                    } else {
                        assert(items[x] == g[x]);
                    }
                }
            },
        }
    }
}

/// Every line declaring a property starts an item of the grouping.
pub proof fn lemma_declared_item(lines: Seq<Seq<char>>, y: int)
    requires
        0 <= y < lines.len(),
        key_line(content(lines[y])) is Some,
    ensures
        classify_from(lines.take(y), 0).len() < classify_from(lines, 0).len(),
        holds_key(
            classify_from(lines, 0)[classify_from(lines.take(y), 0).len() as int],
            key_line(content(lines[y])).unwrap().0,
        ),
{
    let (k, rest) = key_line(content(lines[y])).unwrap();
    lemma_key_line_fresh(lines[y]);
    lemma_classify_cut(lines, 0, y);
    lemma_extent_end(lines, y + 1, blank_line(rest));
    let x = classify_from(lines.take(y), 0);
    assert(classify_from(lines, 0)[x.len() as int] == classify_from(lines, y)[0]);
}

/// Item counts grow along the lines: more lines before a fresh line group
/// into more items.
pub proof fn lemma_declared_order(lines: Seq<Seq<char>>, s: int, y: int)
    requires
        0 <= s < y < lines.len(),
        key_line(content(lines[s])) is Some,
        key_line(content(lines[y])) is Some,
    ensures
        classify_from(lines.take(s), 0).len() < classify_from(lines.take(y), 0).len(),
{
    let t = lines.take(y);
    assert(t[s] == lines[s]);
    assert(t.take(s) =~= lines.take(s));
    lemma_declared_item(t, s);
}

/// A key found once is declared on one line only.
pub proof fn lemma_declared_once(lines: Seq<Seq<char>>, key: Seq<char>, s: int, y: int)
    requires
        lookup(classify_from(lines, 0), key) is Found,
        0 <= s < lines.len(),
        0 <= y < lines.len(),
        key_line(content(lines[s])) matches Some((k, _)) && k == key,
        key_line(content(lines[y])) matches Some((k, _)) && k == key,
    ensures
        s == y,
{
    let items = classify_from(lines, 0);
    lemma_lookup_unique(items, key);
    lemma_declared_item(lines, s);
    lemma_declared_item(lines, y);
    if s < y {
        lemma_declared_order(lines, s, y);
    } else if y < s {
        lemma_declared_order(lines, y, s);
    }
}

pub proof fn lemma_find_shift(b: Seq<char>, c: char, i: int)
    requires
        0 <= i,
    ensures
        find_from(seq!['\u{feff}'] + b, c, 1 + i) == match find_from(b, c, i) {
            Some(j) => Some(j + 1),
            None => None::<int>,
        },
    decreases b.len() - i,
{
    let u = seq!['\u{feff}'] + b;
    if i < b.len() {
        assert(u[1 + i] == b[i]);
        lemma_find_shift(b, c, i + 1);
    }
}

pub proof fn lemma_line_shift(b: Seq<char>, i: int)
    requires
        0 <= i < b.len(),
    ensures
        line_end(seq!['\u{feff}'] + b, 1 + i) == 1 + line_end(b, i),
        fence_line(seq!['\u{feff}'] + b, 1 + i) == fence_line(b, i),
{
    let u = seq!['\u{feff}'] + b;
    lemma_find_shift(b, '\n', i);
    lemma_line_end(b, i);
    assert(u.subrange(1 + i, 1 + line_end(b, i)) =~= b.subrange(i, line_end(b, i)));
}

pub proof fn lemma_closing_shift(b: Seq<char>, i: int)
    requires
        0 <= i,
    ensures
        closing_from(seq!['\u{feff}'] + b, 1 + i) == match closing_from(b, i) {
            Some(j) => Some(j + 1),
            None => None::<int>,
        },
    decreases b.len() - i,
{
    if i < b.len() {
        lemma_line_shift(b, i);
        lemma_line_end(b, i);
        if !fence_line(b, i) {
            lemma_closing_shift(b, line_end(b, i));
        }
    }
}

/// A body that reads as no block still reads as none behind a byte
/// order mark.
pub proof fn lemma_marked_body(b: Seq<char>)
    requires
        parse(b).block is None,
    ensures
        parse(seq!['\u{feff}'] + b).block is None,
{
    let u = seq!['\u{feff}'] + b;
    assert(u[0] == '\u{feff}');
    if b.len() > 0 {
        lemma_line_shift(b, 0);
        lemma_line_end(b, 0);
        let o = line_end(b, 0);
        if b[0] == '\u{feff}' {
            let l = u.subrange(1, 1 + o);
            assert(l[0] == b[0]);
            if content(l) == seq!['-', '-', '-'] {
                assert(content(l)[0] == l[0]);
            }
            assert(!fence_line(u, 1));
        } else {
            assert(head_len(b) == 0);
            assert(u[1 + o - 1] == b[o - 1]);
            lemma_closing_shift(b, o);
        }
    }
}

/// Removing a key's property from a note, and its fences with its last
/// line when the body would not read as a block, leaves no property under
/// that key: a removed value reads back as absent.
#[verifier::spinoff_prover]
pub proof fn unset_then_get(text: Seq<char>, key: Seq<char>)
    requires
        unset_spec(text, key) is Ok,
    ensures
        get_spec(unset_spec(text, key)->Ok_0, key) == Ok::<Option<ValueModel>, ErrorModel>(None),
{
    let d = parse(text);
    if let Some(b) = d.block {
        let ls = lemma_parse_facts(text);
        let items = b.items;
        lemma_key_index(items, key);
        if lookup(items, key) is Found {
            let j = key_index(items, key).unwrap();
            let left = items.remove(j);
            if left.len() == 0 && parse(d.body).block is None {
                lemma_head_facts(text);
                if d.head.len() == 0 {
                    assert(d.head + d.body =~= d.body);
                } else {
                    assert(d.head =~= seq!['\u{feff}']);
                    lemma_marked_body(d.body);
                }
                assert(render(DocumentModel { head: d.head, block: None, body: d.body }) =~= d.head
                    + d.body);
            } else {
                let nl = lemma_unset_lines(ls, key, j);
                lemma_parse_laid(d.head, b.opening, nl, b.closing, d.body);
                let e = with_block(d, with_items(b, left));
                assert(render(e) =~= d.head + b.opening + concat(nl) + b.closing + d.body);
                lemma_undeclared_missing(nl, 0, key);
                lemma_lookup_none(classify_from(nl, 0), key);
            }
        }
    }
}

/// Where the lines of property item `j` start, and where its own lines
/// end.
pub proof fn lemma_unset_cut(ls: Seq<Seq<char>>, key: Seq<char>, j: int) -> (r: (int, int))
    requires
        0 <= j < classify_from(ls, 0).len(),
        holds_key(classify_from(ls, 0)[j], key),
    ensures
        0 <= r.0 < r.1 <= ls.len(),
        key_line(content(ls[r.0])) matches Some((k, rest)) && k == key && r.1 == group_peeled(ls, r.0, rest),
        classify_from(ls.take(r.0), 0).len() == j,
{
    let s = lemma_find_group(ls, 0, j);
    let (k, rest) = key_line(content(ls[s])).unwrap();
    lemma_key_line_fresh(ls[s]);
    lemma_classify_cut(ls, 0, s);
    lemma_group_tail(ls, s, k, rest);
    assert(classify_from(ls, 0)[j] == classify_from(ls, s)[0]);
    (s, group_peeled(ls, s, rest))
}

/// The lines left when a found property's own lines are cut out: whole
/// non-fence lines that stand for the items left and declare no property
/// under its key.
pub proof fn lemma_unset_lines(ls: Seq<Seq<char>>, key: Seq<char>, j: int) -> (nl: Seq<Seq<char>>)
    requires
        lookup(classify_from(ls, 0), key) is Found,
        key_index(classify_from(ls, 0), key) == Some(j),
        forall|x: int| 0 <= x < ls.len() ==> plain_line(#[trigger] ls[x]),
    ensures
        forall|x: int| 0 <= x < nl.len() ==> plain_line(#[trigger] nl[x]),
        concat(nl) == render_items(classify_from(ls, 0).remove(j)),
        undeclared(nl, 0, key),
{
    let items = classify_from(ls, 0);
    lemma_key_index(items, key);
    let (s, pe) = lemma_unset_cut(ls, key, j);
    let (k, rest) = key_line(content(ls[s])).unwrap();
    lemma_group_tail(ls, s, k, rest);
    lemma_classify_cut(ls, 0, s);
    let end = group_end(ls, s, rest);
    let nl = ls.take(s) + ls.skip(pe);
    lemma_splice_members(ls, Seq::<Seq<char>>::empty(), s, pe, nl);
    assert(ls.take(s) + Seq::<Seq<char>>::empty() + ls.skip(pe) =~= nl);
    assert forall|x: int| 0 <= x < nl.len() implies plain_line(#[trigger] nl[x]) by {
        if x < s {
            assert(nl[x] == ls[x]);
        } else {
            assert(nl[x] == ls[pe + x - s]);
        }
    }
    let xs = classify_from(ls.take(s), 0);
    let g = property_group(ls, s, k, rest);
    assert(items == xs + g + classify_from(ls, end));
    assert(g == seq![g[0]] + raw_items(ls.subrange(pe, end)));
    assert(items.remove(j) =~= xs + raw_items(ls.subrange(pe, end)) + classify_from(ls, end));
    lemma_render_items_append(xs + raw_items(ls.subrange(pe, end)), classify_from(ls, end));
    lemma_render_items_append(xs, raw_items(ls.subrange(pe, end)));
    lemma_render_raw(ls.subrange(pe, end));
    lemma_classify_renders(ls.take(s), 0);
    assert(ls.take(s).subrange(0, s) =~= ls.take(s));
    lemma_classify_renders(ls, end);
    lemma_concat_append(ls.take(s), ls.skip(pe));
    assert(ls.skip(pe) =~= ls.subrange(pe, end) + ls.subrange(end, ls.len() as int));
    lemma_concat_append(ls.subrange(pe, end), ls.subrange(end, ls.len() as int));
    assert forall|y: int| 0 <= y < nl.len() implies !(#[trigger] key_line(content(nl[y])) matches Some((k2, _)) && k2 == key) by {
        let z = if y < s { y } else { pe + y - s };
        assert(nl[y] == ls[z]);
        if key_line(content(ls[z])) matches Some((k2, _)) && k2 == key {
            lemma_declared_once(ls, key, s, z);
        }
    }
    nl
}

/// Removing a property the note does not have changes nothing.
pub proof fn unset_missing(text: Seq<char>, key: Seq<char>)
    requires
        unset_spec(text, key) is Ok,
        get_spec(text, key) == Ok::<Option<ValueModel>, ErrorModel>(None),
    ensures
        unset_spec(text, key) == Ok::<Seq<char>, ErrorModel>(text),
{
}

/// Taking out an item a list does not hold leaves the list as it was.
pub proof fn lemma_without_absent(l: Seq<Seq<char>>, x: Seq<char>)
    requires
        !holds_item(l, x),
    ensures
        without(l, x) == l,
    decreases l.len(),
{
    if l.len() > 0 {
        let r = l.drop_last();
        assert(!holds_item(r, x)) by {
            if holds_item(r, x) {
                let i = choose|i: int| 0 <= i < r.len() && r[i] == x;
                assert(l[i] == x);
            }
        }
        lemma_without_absent(r, x);
        assert(l.last() == l[l.len() - 1]);
        assert(without(l, x) =~= l);
    }
}

/// Adding an item the list already holds is already the requested state:
/// the note comes back unchanged.
pub proof fn add_present(text: Seq<char>, key: Seq<char>, item: Seq<char>)
    requires
        add_spec(text, key, item) is Ok,
        get_spec(text, key) matches Ok(Some(ValueModel::List(l))) && holds_item(l, item),
    ensures
        add_spec(text, key, item) == Ok::<Seq<char>, ErrorModel>(text),
{
}

/// Removing an item the note does not hold, under a missing property or
/// from a list without it, is already the requested state: the note comes
/// back unchanged.
pub proof fn remove_absent(text: Seq<char>, key: Seq<char>, item: Seq<char>)
    requires
        remove_spec(text, key, item) is Ok,
        get_spec(text, key) == Ok::<Option<ValueModel>, ErrorModel>(None) || (get_spec(
            text,
            key,
        ) matches Ok(Some(ValueModel::List(l))) && !holds_item(l, item)),
    ensures
        remove_spec(text, key, item) == Ok::<Seq<char>, ErrorModel>(text),
{
    if let Ok(Some(ValueModel::List(l))) = get_spec(text, key) {
        lemma_without_absent(l, item);
    }
}

/// Adding an item twice writes the note the first add wrote: once the
/// list holds the item, adding it again is already the requested state.
/// Notes whose list spills, as [`add_then_get`] leaves them out, are left
/// out here too.
pub proof fn add_twice(text: Seq<char>, key: Seq<char>, item: Seq<char>)
    requires
        add_spec(text, key, item) is Ok,
        !spills(text, key) || holds_item(listed(text, key), item),
    ensures
        add_spec(add_spec(text, key, item)->Ok_0, key, item) == add_spec(text, key, item),
{
    let d = parse(text);
    let b = block_or_new(d);
    let eol = block_eol(b);
    if d.block is Some {
        lemma_found_writable(text, key);
    }
    let l = listed(text, key);
    if holds_item(l, item) {
        return;
    }
    let n = l.push(item);
    assert(n[l.len() as int] == item);
    match lookup(b.items, key) {
        Lookup::Found(ParsedModel::List(x)) => {
            assert(x == l);
            assert(writable(n)) by {
                assert forall|i: int| 0 <= i < n.len() implies value_problem(#[trigger] n[i]) is None by {
                    if i < l.len() {
                        assert(n[i] == l[i]);
                    }
                }
            }
        },
        _ => {
            assert(l =~= Seq::<Seq<char>>::empty());
            assert(n =~= seq![item]);
            assert(writable(n));
        },
    }
    let p = list_property(key, n, eol);
    lemma_list_reparse(text, key, n, eol);
    lemma_lookup_put(b.items, p);
    assert(p.raw[0] == key[0]);
    lemma_foreign_put(b.items, p);
    let e = with_block(d, with_items(b, put(b.items, p)));
    assert(block_or_new(e) == with_items(b, put(b.items, p)));
    assert(block_eol(block_or_new(e)) == eol);
}

/// Putting a property leaves what the items hold under any other key.
pub proof fn lemma_lookup_other(items: Seq<ItemModel>, p: PropertyModel, key: Seq<char>)
    requires
        p.key != key,
        !(lookup(items, key) is Duplicate),
    ensures
        lookup(put(items, p), key) == lookup(items, key),
{
    lemma_key_index(items, p.key);
    lemma_lookup_unique(items, key);
    let u = put(items, p);
    assert(!holds_key(ItemModel::Property(p), key));
    match lookup(items, key) {
        Lookup::Missing => {
            assert forall|x: int| 0 <= x < u.len() implies !holds_key(#[trigger] u[x], key) by {
                if x < items.len() {
                    assert(u[x] == items[x] || u[x] == ItemModel::Property(p));
                }
            }
            lemma_lookup_none(u, key);
        },
        _ => {
            lemma_key_index(items, key);
            let j = key_index(items, key).unwrap();
            match key_index(items, p.key) {
                Some(q) => {
                    assert(q != j);
                    assert(u[j] == items[j]);
                },
                None => {
                    assert(u[j] == items[j]);
                },
            }
            assert forall|x: int| 0 <= x < u.len() && x != j implies !holds_key(#[trigger] u[x], key) by {
                if x < items.len() {
                    assert(u[x] == items[x] || u[x] == ItemModel::Property(p));
                }
            }
            lemma_lookup_single(u, key, j);
        },
    }
}

/// Stamping a note that can be stamped, and reading the stamps back,
/// gives the timestamp: the updated property always, and the created
/// property when the edit made the block and the key was absent (and is
/// not the updated key itself).
pub proof fn stamped_then_get(
    t: Seq<char>,
    had_block: bool,
    created: Seq<char>,
    updated: Seq<char>,
    time: Seq<char>,
)
    requires
        key_problem(created) is None,
        key_problem(updated) is None,
        value_problem(time) is None,
        !(parse(t).block is None && had_block),
        !foreign_from(block_or_new(parse(t)).items, 0),
        stamp_writable(lookup(block_or_new(parse(t)).items, updated)),
        had_block || stamp_writable(lookup(block_or_new(parse(t)).items, created)),
    ensures
        get_spec(stamped_spec(t, had_block, created, updated, time), updated) == Ok::<
            Option<ValueModel>,
            ErrorModel,
        >(Some(ValueModel::Scalar(time))),
        !had_block && lookup(block_or_new(parse(t)).items, created) is Missing && created != updated
            ==> get_spec(stamped_spec(t, had_block, created, updated, time), created) == Ok::<
            Option<ValueModel>,
            ErrorModel,
        >(Some(ValueModel::Scalar(time))),
{
    let d = parse(t);
    let b = block_or_new(d);
    let eol = block_eol(b);
    let pc = scalar_property(created, time, eol);
    let pu = scalar_property(updated, time, eol);
    lemma_scalar_line(created, time, eol);
    lemma_scalar_line(updated, time, eol);
    if !had_block && lookup(b.items, created) is Missing {
        let items = put(b.items, pc);
        lemma_put_reparse(t, pc);
        let t1 = render(with_block(d, with_items(b, items)));
        let b1 = with_items(b, items);
        assert(parse(t1) == with_block(d, b1));
        assert(block_or_new(parse(t1)) == b1);
        assert(block_eol(b1) == eol);
        lemma_put_reparse(t1, pu);
        assert(with_block(parse(t1), with_items(b1, put(b1.items, pu))) == with_block(
            d,
            with_items(b, put(items, pu)),
        ));
        lemma_lookup_put(b.items, pc);
        if created == updated {
        } else {
            lemma_lookup_other(b.items, pc, updated);
        }
        lemma_lookup_put(items, pu);
        if created != updated {
            lemma_lookup_other(items, pu, created);
        }
    } else {
        lemma_put_reparse(t, pu);
        lemma_lookup_put(b.items, pu);
    }
}

} // verus!
