//! The lines a list property is written as, and why they read back as
//! the list written.
use vstd::prelude::*;

use crate::frontmatter::document::{list_lines, list_property};
use crate::frontmatter::laws::{
    lemma_concat_append, lemma_concat_one, lemma_written_content, line_break, plain_line,
    proper_line,
};
use crate::frontmatter::lines::{blank_line, commentary, concat, content, contents, key_line};
use crate::frontmatter::readback::lemma_rendered_reads;
use crate::frontmatter::regroup::lines_read_back;
use crate::frontmatter::scalar::rendered_scalar;
use crate::frontmatter::value::{indent_of, is_list_extent, list_extent, list_item, parsed_value, ParsedModel};
use crate::frontmatter::{key_problem, value_problem};
use crate::text::{
    has_char, leading, lemma_leading_is, starts_with, trailing, trim, trim_end, trim_start,
    CharClass,
};

verus! {

/// The line one list item is written as.
pub open spec fn item_line(x: Seq<char>, eol: Seq<char>) -> Seq<char> {
    seq![' ', ' ', '-', ' '] + rendered_scalar(x) + eol
}

/// The lines a list's items are written as.
pub open spec fn item_lines(l: Seq<Seq<char>>, eol: Seq<char>) -> Seq<Seq<char>> {
    Seq::new(l.len(), |i: int| item_line(l[i], eol))
}

/// The lines a non-empty list property is written as.
pub open spec fn list_block(k: Seq<char>, l: Seq<Seq<char>>, eol: Seq<char>) -> Seq<Seq<char>> {
    seq![k + seq![':'] + eol] + item_lines(l, eol)
}

/// Whether every item can be written as a property value.
pub open spec fn writable(l: Seq<Seq<char>>) -> bool {
    forall|i: int| 0 <= i < l.len() ==> value_problem(#[trigger] l[i]) is None
}

pub proof fn lemma_list_lines(l: Seq<Seq<char>>, eol: Seq<char>)
    ensures
        list_lines(l, eol) == concat(item_lines(l, eol)),
    decreases l.len(),
{
    if l.len() > 0 {
        lemma_list_lines(l.drop_last(), eol);
        assert(item_lines(l, eol).drop_last() =~= item_lines(l.drop_last(), eol));
        assert(item_lines(l, eol).last() == item_line(l.last(), eol));
        assert(list_lines(l, eol) =~= concat(item_lines(l, eol)));
    } else {
        assert(item_lines(l, eol) =~= Seq::<Seq<char>>::empty());
    }
}

/// One written item line: whole, indented, and read back as the item.
pub proof fn lemma_item_line(x: Seq<char>, eol: Seq<char>)
    requires
        value_problem(x) is None,
        line_break(eol),
    ensures
        plain_line(item_line(x, eol)),
        content(item_line(x, eol)) == seq![' ', ' ', '-', ' '] + rendered_scalar(x),
        content(item_line(x, eol)).len() > 0,
        content(item_line(x, eol))[0] == ' ',
        !commentary(content(item_line(x, eol))),
        list_item(content(item_line(x, eol))) == Some(x),
        indent_of(content(item_line(x, eol))) == seq![' ', ' '],
{
    let rv = rendered_scalar(x);
    lemma_rendered_reads(x);
    let c = seq![' ', ' ', '-', ' '] + rv;
    let l = c + eol;
    assert(c.last() == rv.last());
    lemma_written_content(c, eol);
    assert(proper_line(l)) by {
        assert forall|i: int| 0 <= i < l.len() - 1 implies #[trigger] l[i] != '\n' by {
            if 4 <= i < c.len() {
                assert(l[i] == rv[i - 4]);
            } else if i >= c.len() {
                assert(l[i] == eol[i - c.len()]);
            }
        }
    }
    assert(content(l).len() != 3);
    lemma_leading_is(CharClass::Blank, c, 2);
    assert(!blank_line(c));
    assert(!commentary(c));
    assert(indent_of(c) =~= seq![' ', ' ']);
    let t = trim_start(CharClass::Blank, c);
    assert(t =~= seq!['-', ' '] + rv);
    assert(t != seq!['-']);
    assert(t.take(2) =~= seq!['-', ' ']);
    assert(starts_with(t, seq!['-', ' ']));
    assert(t.skip(2) =~= rv);
}

/// The key line of a written list: the key, its colon, the line break.
pub proof fn lemma_list_key_line(k: Seq<char>, eol: Seq<char>)
    requires
        key_problem(k) is None,
        line_break(eol),
    ensures
        plain_line(k + seq![':'] + eol),
        key_line(content(k + seq![':'] + eol)) == Some((k, Seq::<char>::empty())),
{
    let c = k + seq![':'];
    let l = c + eol;
    lemma_written_content(c, eol);
    assert(!has_char(k, '\n'));
    assert(proper_line(l)) by {
        assert forall|i: int| 0 <= i < l.len() - 1 implies #[trigger] l[i] != '\n' by {
            if i < k.len() {
                assert(l[i] == k[i]);
            } else if i >= c.len() {
                assert(l[i] == eol[i - c.len()]);
            }
        }
    }
    assert(content(l) != seq!['-', '-', '-']) by {
        if c.len() == 3 {
            assert(c[2] == ':');
        }
    }
    assert(c[0] == k[0]);
    assert forall|i: int| 0 <= i < k.len() implies #[trigger] c[i] != ':' by {
        assert(c[i] == k[i]);
    }
    lemma_colon_last(c, 0, k.len() as int);
    assert(c.take(k.len() as int) =~= k);
    assert(trailing(CharClass::Blank, k) == 0) by {
        assert(k.last() == k[k.len() - 1]);
    }
    assert(trim_end(CharClass::Blank, k) =~= k);
}

pub proof fn lemma_colon_last(c: Seq<char>, i: int, at: int)
    requires
        0 <= i <= at,
        at + 1 == c.len(),
        c[at] == ':',
        forall|x: int| i <= x < at ==> #[trigger] c[x] != ':',
    ensures
        crate::frontmatter::lines::colon_from(c, i) == Some(at),
    decreases at - i,
{
    if i < at {
        lemma_colon_last(c, i + 1, at);
    }
}

/// A non-empty list of writable items is written as lines that read back
/// as the list property written.
pub proof fn lemma_list_block(k: Seq<char>, l: Seq<Seq<char>>, eol: Seq<char>)
    requires
        key_problem(k) is None,
        line_break(eol),
        l.len() > 0,
        writable(l),
    ensures
        lines_read_back(list_block(k, l, eol), list_property(k, l, eol)),
        forall|x: int|
            0 <= x < list_block(k, l, eol).len() ==> plain_line(#[trigger] list_block(k, l, eol)[x]),
{
    let nl = list_block(k, l, eol);
    let p = list_property(k, l, eol);
    let il = item_lines(l, eol);
    lemma_list_key_line(k, eol);
    assert(nl[0] == k + seq![':'] + eol);
    assert forall|i: int| 0 <= i < l.len() implies #[trigger] il[i] == item_line(l[i], eol) by {}
    assert forall|x: int| 1 <= x < nl.len() implies {
        &&& content(#[trigger] nl[x]).len() > 0
        &&& content(nl[x])[0] == ' '
        &&& !commentary(content(nl[x]))
        &&& plain_line(nl[x])
    } by {
        assert(nl[x] == il[x - 1]);
        assert(value_problem(l[x - 1]) is None);
        lemma_item_line(l[x - 1], eol);
    }
    assert(nl.skip(1) =~= il);
    let ext = contents(il);
    assert(trim(CharClass::Blank, Seq::<char>::empty()) =~= Seq::<char>::empty());
    assert forall|i: int| 0 <= i < ext.len() implies {
        &&& !has_char(indent_of(#[trigger] ext[i]), '\t')
        &&& indent_of(ext[i]) == indent_of(ext[0])
        &&& list_item(ext[i]) is Some
    } by {
        lemma_item_line(l[i], eol);
        lemma_item_line(l[0], eol);
        assert(ext[i] == content(il[i]));
        assert(ext[0] == content(il[0]));
        assert(!has_char(seq![' ', ' '], '\t')) by {
            if has_char(seq![' ', ' '], '\t') {
                let j = choose|j: int| 0 <= j < 2 && seq![' ', ' '][j] == '\t';
            }
        }
    }
    assert(is_list_extent(ext));
    assert(Seq::new(ext.len(), |i: int| list_item(ext[i]).unwrap()) =~= l) by {
        assert forall|i: int| 0 <= i < l.len() implies list_item(ext[i]).unwrap() == l[i] by {
            lemma_item_line(l[i], eol);
        }
    }
    assert(parsed_value(Seq::<char>::empty(), ext) == ParsedModel::List(l));
    lemma_list_lines(l, eol);
    lemma_concat_append(seq![nl[0]], il);
    lemma_concat_one(nl[0]);
    assert(nl =~= seq![nl[0]] + il);
    assert(p.raw =~= concat(nl));
    assert(blank_line(Seq::<char>::empty()));
    assert(plain_line(nl[0]));
}

} // verus!
