//! Splitting a note at its frontmatter boundary and grouping the block's
//! lines into properties and raw lines.
use vstd::prelude::*;

use crate::frontmatter::scalar::{scan_double, scan_double_from, scan_single, scan_single_from};
use crate::frontmatter::value::{parsed_value, parsed_value_of, seqs, lemma_seqs_push, Parsed, ParsedModel};
use crate::text::{
    find_char, find_from, leading, leading_count, lemma_find_from, lemma_leading_bound,
    push_all, sliced, starts_with, trailing, trailing_count, trim_end, trim_start, CharClass,
};

verus! {

/// Unicode's White_Space property.
pub open spec fn unicode_whitespace(c: char) -> bool {
    let u = c as u32;
    (0x9 <= u && u <= 0xd) || u == 0x20 || u == 0x85 || u == 0xa0 || u == 0x1680 || (0x2000 <= u
        && u <= 0x200a) || u == 0x2028 || u == 0x2029 || u == 0x202f || u == 0x205f || u == 0x3000
}

/// Exec twin of [`unicode_whitespace`].
pub fn is_unicode_whitespace(c: char) -> (b: bool)
    ensures
        b == unicode_whitespace(c),
{
    let u = c as u32;
    (0x9 <= u && u <= 0xd) || u == 0x20 || u == 0x85 || u == 0xa0 || u == 0x1680 || (0x2000 <= u
        && u <= 0x200a) || u == 0x2028 || u == 0x2029 || u == 0x202f || u == 0x205f || u == 0x3000
}

/// A line without its terminator, whether that was LF or CRLF.
pub open spec fn content(line: Seq<char>) -> Seq<char> {
    let a = if line.len() > 0 && line.last() == '\n' {
        line.drop_last()
    } else {
        line
    };
    if a.len() > 0 && a.last() == '\r' {
        a.drop_last()
    } else {
        a
    }
}

/// The length of `s[from..to]` without its terminator.
pub fn content_len(s: &[char], from: usize, to: usize) -> (n: usize)
    requires
        from <= to <= s@.len(),
    ensures
        from + n <= to,
        s@.subrange(from as int, from + n) == content(s@.subrange(from as int, to as int)),
{
    let ghost l = s@.subrange(from as int, to as int);
    let mut end = to;
    if end > from && s[end - 1] == '\n' {
        end -= 1;
    }
    if end > from && s[end - 1] == '\r' {
        end -= 1;
    }
    assert(s@.subrange(from as int, end as int) =~= content(l));
    end - from
}

/// A line's content is blank: nothing but spaces and tabs.
pub open spec fn blank_line(c: Seq<char>) -> bool {
    leading(CharClass::Blank, c) == c.len()
}

/// Whether a line at the end of an extent separates properties rather
/// than continuing one: a blank line, or a comment at column zero.
pub open spec fn between_properties(c: Seq<char>) -> bool {
    blank_line(c) || (c.len() > 0 && c[0] == '#')
}

/// Whether a line is commentary: blank, or a comment at any indent.
pub open spec fn commentary(c: Seq<char>) -> bool {
    blank_line(c) || c[leading(CharClass::Blank, c) as int] == '#'
}

/// Whether a line can continue the property above it: an indented line,
/// a blank or column-zero comment, or, under a key with no inline value,
/// a list item.
pub open spec fn continues_property(c: Seq<char>, listable: bool) -> bool {
    (c.len() > 0 && (c[0] == ' ' || c[0] == '\t')) || between_properties(c) || (listable && (c
        == seq!['-'] || starts_with(c, seq!['-', ' '])))
}

/// Exec twin of [`blank_line`] on `s[from..to]`.
pub fn is_blank_line(s: &[char], from: usize, to: usize) -> (b: bool)
    requires
        from <= to <= s@.len(),
    ensures
        b == blank_line(s@.subrange(from as int, to as int)),
{
    leading_count(CharClass::Blank, s, from, to) == to - from
}

/// Exec twin of [`between_properties`].
pub fn is_between_properties(s: &[char], from: usize, to: usize) -> (b: bool)
    requires
        from <= to <= s@.len(),
    ensures
        b == between_properties(s@.subrange(from as int, to as int)),
{
    is_blank_line(s, from, to) || (to > from && s[from] == '#')
}

/// Exec twin of [`commentary`].
pub fn is_commentary(s: &[char], from: usize, to: usize) -> (b: bool)
    requires
        from <= to <= s@.len(),
    ensures
        b == commentary(s@.subrange(from as int, to as int)),
{
    let lead = leading_count(CharClass::Blank, s, from, to);
    lead == to - from || s[from + lead] == '#'
}

/// Exec twin of [`continues_property`].
pub fn is_continuation(s: &[char], from: usize, to: usize, listable: bool) -> (b: bool)
    requires
        from <= to <= s@.len(),
    ensures
        b == continues_property(s@.subrange(from as int, to as int), listable),
{
    let ghost c = s@.subrange(from as int, to as int);
    let indented = to > from && (s[from] == ' ' || s[from] == '\t');
    let dash = to - from == 1 && s[from] == '-';
    assert(dash == (c == seq!['-'])) by {
        if c == seq!['-'] {
            assert(c.len() == 1 && c[0] == '-');
        }
        if dash {
            assert(c =~= seq!['-']);
        }
    }
    let dash_space = to - from >= 2 && s[from] == '-' && s[from + 1] == ' ';
    assert(dash_space == starts_with(c, seq!['-', ' '])) by {
        if to - from >= 2 {
            assert(c.take(2)[0] == c[0]);
            assert(c.take(2)[1] == c[1]);
            if dash_space {
                assert(c.take(2) =~= seq!['-', ' ']);
            }
        }
    }
    indented || is_between_properties(s, from, to) || (listable && (dash || dash_space))
}

/// The first colon YAML reads as a key separator, at or after `i`: one
/// followed by a space, a tab, or the end of the line.
pub open spec fn colon_from(c: Seq<char>, i: int) -> Option<int>
    decreases c.len() - i,
{
    if i < 0 || i >= c.len() {
        None
    } else if c[i] == ':' && (i + 1 == c.len() || c[i + 1] == ' ' || c[i + 1] == '\t') {
        Some(i)
    } else {
        colon_from(c, i + 1)
    }
}

/// A line split at its key separator: the text before it and the rest
/// after the one separating character.
pub open spec fn split_at_colon(c: Seq<char>) -> Option<(Seq<char>, Seq<char>)> {
    match colon_from(c, 0) {
        Some(i) => Some(
            (
                c.take(i),
                if i + 1 == c.len() {
                    Seq::empty()
                } else {
                    c.skip(i + 2)
                },
            ),
        ),
        None => None,
    }
}

pub proof fn lemma_colon_from(c: Seq<char>, i: int)
    requires
        0 <= i,
    ensures
        colon_from(c, i) matches Some(k) ==> i <= k < c.len(),
    decreases c.len() - i,
{
    if i < c.len() && !(c[i] == ':' && (i + 1 == c.len() || c[i + 1] == ' ' || c[i + 1]
        == '\t')) {
        lemma_colon_from(c, i + 1);
    }
}

/// The index of the key separator of `s[from..to]`, counted from `from`.
pub fn colon_index(s: &[char], from: usize, to: usize) -> (r: Option<usize>)
    requires
        from <= to <= s@.len(),
    ensures
        r == (match colon_from(s@.subrange(from as int, to as int), 0) {
            Some(k) => Some(k as usize),
            None => None::<usize>,
        }),
        r matches Some(k) ==> from + k < to && colon_from(s@.subrange(from as int, to as int), 0)
            == Some(k as int),
        r is None ==> colon_from(s@.subrange(from as int, to as int), 0) is None,
{
    let ghost c = s@.subrange(from as int, to as int);
    proof {
        lemma_colon_from(c, 0);
    }
    let mut i: usize = from;
    while i < to
        invariant
            from <= i <= to <= s@.len(),
            c == s@.subrange(from as int, to as int),
            colon_from(c, 0) == colon_from(c, i - from),
        decreases to - i,
    {
        if s[i] == ':' && (i + 1 == to || s[i + 1] == ' ' || s[i + 1] == '\t') {
            return Some(i - from);
        }
        i += 1;
    }
    None
}

/// Pairs a quoted key with the value after its colon, or `None` when no
/// colon directly follows.
pub open spec fn keyed(key: Seq<char>, after: Seq<char>) -> Option<(Seq<char>, Seq<char>)> {
    if key.len() == 0 {
        None
    } else {
        match split_at_colon(trim_start(CharClass::Blank, after)) {
            Some((gap, rest)) => if gap.len() == 0 {
                Some((key, rest))
            } else {
                None
            },
            None => None,
        }
    }
}

/// Splits a key line into its key and the rest after the colon, or `None`
/// for a line that declares no property.
pub open spec fn key_line(c: Seq<char>) -> Option<(Seq<char>, Seq<char>)> {
    if c.len() == 0 {
        None
    } else if unicode_whitespace(c[0]) || c[0] == '#' || c[0] == '-' {
        None
    } else if c[0] == '"' {
        match scan_double_from(c, 1, Seq::empty()) {
            Some((key, e)) => keyed(key, c.skip(e)),
            None => None,
        }
    } else if c[0] == '\'' {
        match scan_single_from(c, 1, Seq::empty()) {
            Some((key, e)) => keyed(key, c.skip(e)),
            None => None,
        }
    } else {
        match split_at_colon(c) {
            Some((key, rest)) => {
                let k = trim_end(CharClass::Blank, key);
                if k.len() == 0 {
                    None
                } else {
                    Some((k, rest))
                }
            },
            None => None,
        }
    }
}

/// The rest of `s[from..to]` past its key separator at `from + k`.
fn rest_after_colon(s: &[char], from: usize, to: usize, k: usize) -> (rest: Vec<char>)
    requires
        from <= to <= s@.len(),
        from + k < to,
    ensures
        rest@ == (if k + 1 == to - from {
            Seq::empty()
        } else {
            s@.subrange(from as int, to as int).skip(k + 2)
        }),
{
    if from + k + 1 == to {
        Vec::new()
    } else {
        let r = sliced(s, from + k + 2, to);
        assert(r@ =~= s@.subrange(from as int, to as int).skip(k + 2));
        r
    }
}

/// Exec twin of [`keyed`], with the text after the key at `s[from..to]`.
fn keyed_of(key: Vec<char>, s: &[char], from: usize, to: usize) -> (r: Option<(Vec<char>, Vec<char>)>)
    requires
        from <= to <= s@.len(),
    ensures
        r matches Some((k, rest)) ==> keyed(key@, s@.subrange(from as int, to as int)) == Some(
            (k@, rest@),
        ),
        r is None ==> keyed(key@, s@.subrange(from as int, to as int)) is None,
{
    if key.len() == 0 {
        return None;
    }
    let lead = leading_count(CharClass::Blank, s, from, to);
    let start = from + lead;
    assert(trim_start(CharClass::Blank, s@.subrange(from as int, to as int)) =~= s@.subrange(
        start as int,
        to as int,
    ));
    let ghost x = s@.subrange(start as int, to as int);
    match colon_index(s, start, to) {
        Some(k) => {
            let rest = rest_after_colon(s, start, to, k);
            assert(split_at_colon(x) == Some((x.take(k as int), rest@)));
            if k == 0 {
                assert(x.take(0) =~= Seq::<char>::empty());
                Some((key, rest))
            } else {
                assert(x.take(k as int).len() == k);
                None
            }
        },
        None => {
            assert(split_at_colon(x) is None);
            None
        },
    }
}

/// Exec twin of [`key_line`] on the content `c`.
pub fn key_line_of(c: &[char]) -> (r: Option<(Vec<char>, Vec<char>)>)
    ensures
        r matches Some((k, rest)) ==> key_line(c@) == Some((k@, rest@)),
        r is None ==> key_line(c@) is None,
{
    let n = c.len();
    if n == 0 {
        return None;
    }
    let first = c[0];
    if is_unicode_whitespace(first) || first == '#' || first == '-' {
        return None;
    }
    if first == '"' {
        return match scan_double(c, 1) {
            Some((key, e)) => {
                assert(c@.skip(e as int) =~= c@.subrange(e as int, n as int));
                keyed_of(key, c, e, n)
            },
            None => None,
        };
    }
    if first == '\'' {
        return match scan_single(c, 1) {
            Some((key, e)) => {
                assert(c@.skip(e as int) =~= c@.subrange(e as int, n as int));
                keyed_of(key, c, e, n)
            },
            None => None,
        };
    }
    assert(c@.subrange(0, n as int) =~= c@);
    match colon_index(c, 0, n) {
        Some(k) => {
            let trail = trailing_count(CharClass::Blank, c, 0, k);
            if trail == k {
                assert(trim_end(CharClass::Blank, c@.take(k as int)).len() == 0) by {
                    assert(c@.subrange(0, k as int) =~= c@.take(k as int));
                }
                None
            } else {
                let key = sliced(c, 0, k - trail);
                assert(c@.subrange(0, k as int) =~= c@.take(k as int));
                assert(key@ =~= trim_end(CharClass::Blank, c@.take(k as int)));
                let rest = rest_after_colon(c, 0, n, k);
                Some((key, rest))
            }
        },
        None => None,
    }
}

/// A property: its key, its logical value, and its lines as written.
pub struct Property {
    pub key: Vec<char>,
    pub value: Parsed,
    pub raw: Vec<char>,
}

/// One interior unit of a block: a property, or a raw line preserved
/// verbatim.
pub enum Item {
    Property(Property),
    Raw(Vec<char>),
}

/// The logical content of a [`Property`].
pub struct PropertyModel {
    pub key: Seq<char>,
    pub value: ParsedModel,
    pub raw: Seq<char>,
}

/// The logical content of an [`Item`].
pub enum ItemModel {
    Property(PropertyModel),
    Raw(Seq<char>),
}

impl View for Property {
    type V = PropertyModel;

    open spec fn view(&self) -> PropertyModel {
        PropertyModel { key: self.key@, value: self.value@, raw: self.raw@ }
    }
}

impl View for Item {
    type V = ItemModel;

    open spec fn view(&self) -> ItemModel {
        match self {
            Item::Property(p) => ItemModel::Property(p@),
            Item::Raw(l) => ItemModel::Raw(l@),
        }
    }
}

/// The logical content of a vector of items.
pub open spec fn items_view(v: Seq<Item>) -> Seq<ItemModel> {
    v.map_values(|x: Item| x@)
}

pub proof fn lemma_items_push(v: Seq<Item>, x: Item)
    ensures
        items_view(v.push(x)) == items_view(v).push(x@),
{
    assert(items_view(v.push(x)) =~= items_view(v).push(x@));
}

/// The lines of `ls`, concatenated.
pub open spec fn concat(ls: Seq<Seq<char>>) -> Seq<char>
    decreases ls.len(),
{
    if ls.len() == 0 {
        Seq::empty()
    } else {
        concat(ls.drop_last()) + ls.last()
    }
}

/// The contents of `ls`, terminators dropped.
pub open spec fn contents(ls: Seq<Seq<char>>) -> Seq<Seq<char>> {
    ls.map_values(|l: Seq<char>| content(l))
}

/// Raw items holding `ls`.
pub open spec fn raw_items(ls: Seq<Seq<char>>) -> Seq<ItemModel> {
    ls.map_values(|l: Seq<char>| ItemModel::Raw(l))
}

/// Where a property's extent ends: past every line from `i` that can
/// continue it.
pub open spec fn extent_end(lines: Seq<Seq<char>>, i: int, listable: bool) -> int
    decreases lines.len() - i,
{
    if i < 0 || i >= lines.len() {
        lines.len() as int
    } else if continues_property(content(lines[i]), listable) {
        extent_end(lines, i + 1, listable)
    } else {
        i
    }
}

/// The extent `[lo, hi)` with trailing blank lines and column-zero
/// comments peeled off: those lie between properties.
pub open spec fn peel(lines: Seq<Seq<char>>, lo: int, hi: int) -> int
    decreases hi - lo,
{
    if hi > lo && 0 < hi <= lines.len() && between_properties(content(lines[hi - 1])) {
        peel(lines, lo, hi - 1)
    } else {
        hi
    }
}

/// Whether every line of `[lo, hi)` is commentary.
pub open spec fn all_commentary(lines: Seq<Seq<char>>, lo: int, hi: int) -> bool {
    forall|j: int| lo <= j < hi ==> commentary(content(#[trigger] lines[j]))
}

/// Where the extent of the property keyed at line `index` ends.
pub open spec fn group_end(lines: Seq<Seq<char>>, index: int, rest: Seq<char>) -> int {
    extent_end(lines, index + 1, blank_line(rest))
}

/// Where the property keyed at line `index` ends once trailing
/// separators are peeled off; an extent of nothing but commentary
/// stands alone.
pub open spec fn group_peeled(lines: Seq<Seq<char>>, index: int, rest: Seq<char>) -> int {
    let end = group_end(lines, index, rest);
    let peeled0 = peel(lines, index + 1, end);
    if all_commentary(lines, index + 1, peeled0) {
        index + 1
    } else {
        peeled0
    }
}

/// The items the property keyed at line `index` contributes: the
/// property, then the separator lines peeled off its extent.
pub open spec fn property_group(
    lines: Seq<Seq<char>>,
    index: int,
    key: Seq<char>,
    rest: Seq<char>,
) -> Seq<ItemModel> {
    let end = group_end(lines, index, rest);
    let peeled = group_peeled(lines, index, rest);
    seq![
        ItemModel::Property(
            PropertyModel {
                key,
                value: parsed_value(rest, contents(lines.subrange(index + 1, peeled))),
                raw: concat(lines.subrange(index, peeled)),
            },
        ),
    ] + raw_items(lines.subrange(peeled, end))
}

/// Groups a block's interior lines from `index` into properties and raw
/// lines. A property's extent runs while lines can continue it, except
/// that trailing blank and comment lines belong between properties, and
/// an extent of nothing but commentary stands alone.
pub open spec fn classify_from(lines: Seq<Seq<char>>, index: int) -> Seq<ItemModel>
    decreases lines.len() - index,
{
    if index < 0 || index >= lines.len() {
        Seq::empty()
    } else {
        match key_line(content(lines[index])) {
            None => seq![ItemModel::Raw(lines[index])] + classify_from(lines, index + 1),
            Some((key, rest)) => {
                let end = group_end(lines, index, rest);
                if end <= index || end > lines.len() {
                    Seq::empty()
                } else {
                    property_group(lines, index, key, rest) + classify_from(lines, end)
                }
            },
        }
    }
}

pub proof fn lemma_extent_end(lines: Seq<Seq<char>>, i: int, listable: bool)
    requires
        0 <= i <= lines.len(),
    ensures
        i <= extent_end(lines, i, listable) <= lines.len(),
    decreases lines.len() - i,
{
    if i < lines.len() && continues_property(content(lines[i]), listable) {
        lemma_extent_end(lines, i + 1, listable);
    }
}

pub proof fn lemma_peel(lines: Seq<Seq<char>>, lo: int, hi: int)
    requires
        0 <= lo <= hi <= lines.len(),
    ensures
        lo <= peel(lines, lo, hi) <= hi,
    decreases hi - lo,
{
    if hi > lo && 0 < hi && between_properties(content(lines[hi - 1])) {
        lemma_peel(lines, lo, hi - 1);
    }
}

/// Appends lines `[from, to)` of `lines` to `out`.
fn push_lines(out: &mut Vec<char>, lines: &Vec<Vec<char>>, from: usize, to: usize)
    requires
        from <= to <= lines@.len(),
    ensures
        final(out)@ == old(out)@ + concat(seqs(lines@).subrange(from as int, to as int)),
{
    let ghost ls = seqs(lines@);
    let mut i: usize = from;
    assert(ls.subrange(from as int, from as int) =~= Seq::<Seq<char>>::empty());
    assert(out@ =~= old(out)@ + concat(ls.subrange(from as int, from as int)));
    while i < to
        invariant
            from <= i <= to <= lines@.len(),
            ls == seqs(lines@),
            out@ == old(out)@ + concat(ls.subrange(from as int, i as int)),
        decreases to - i,
    {
        let ghost before = out@;
        push_all(out, lines[i].as_slice());
        assert(ls.subrange(from as int, i + 1).drop_last() =~= ls.subrange(from as int, i as int));
        assert(ls.subrange(from as int, i + 1).last() == lines@[i as int]@);
        assert(out@ =~= old(out)@ + concat(ls.subrange(from as int, i + 1)));
        i += 1;
    }
}

/// The content of line `i`, as a vector.
fn line_content(lines: &Vec<Vec<char>>, i: usize) -> (c: Vec<char>)
    requires
        i < lines@.len(),
    ensures
        c@ == content(lines@[i as int]@),
{
    let line = lines[i].as_slice();
    let n = content_len(line, 0, line.len());
    assert(line@.subrange(0, line@.len() as int) =~= line@);
    let c = sliced(line, 0, n);
    c
}

/// Appends the items of the property keyed at line `index` to `items`,
/// returning where its extent ends.
fn classify_property(
    lines: &Vec<Vec<char>>,
    index: usize,
    key: Vec<char>,
    rest: Vec<char>,
    items: &mut Vec<Item>,
) -> (end: usize)
    requires
        index < lines@.len(),
    ensures
        end as int == group_end(seqs(lines@), index as int, rest@),
        index < end <= lines@.len(),
        items_view(final(items)@) == items_view(old(items)@) + property_group(
            seqs(lines@),
            index as int,
            key@,
            rest@,
        ),
{
    let ghost ls = seqs(lines@);
    let n = lines.len();
    let ghost start_items = items_view(items@);
    let listable = is_blank_line(rest.as_slice(), 0, rest.len());
    assert(rest@.subrange(0, rest@.len() as int) =~= rest@);
    let mut end: usize = index + 1;
    while end < n && continues_at(lines, end, listable)
        invariant
            index < end <= n == lines@.len(),
            ls == seqs(lines@),
            extent_end(ls, index + 1, listable) == extent_end(ls, end as int, listable),
        decreases n - end,
    {
        proof {
            let line = lines@[end as int]@;
            assert(line.subrange(0, line.len() as int) =~= line);
            assert(ls[end as int] == line);
        }
        end += 1;
    }
    proof {
        if end < n {
            let line = lines@[end as int]@;
            assert(line.subrange(0, line.len() as int) =~= line);
            assert(ls[end as int] == line);
        }
    }
    let mut peeled: usize = end;
    while peeled > index + 1 && between_at(lines, peeled - 1)
        invariant
            index + 1 <= peeled <= end <= n == lines@.len(),
            ls == seqs(lines@),
            peel(ls, index + 1, end as int) == peel(ls, index + 1, peeled as int),
        decreases peeled,
    {
        proof {
            let line = lines@[peeled - 1]@;
            assert(line.subrange(0, line.len() as int) =~= line);
            assert(ls[peeled - 1] == line);
        }
        peeled -= 1;
    }
    proof {
        if peeled > index + 1 {
            let line = lines@[peeled - 1]@;
            assert(line.subrange(0, line.len() as int) =~= line);
            assert(ls[peeled - 1] == line);
        }
    }
    let ghost peeled0 = peeled as int;
    let mut all = true;
    let mut j: usize = index + 1;
    while j < peeled
        invariant
            index + 1 <= j <= peeled <= n == lines@.len(),
            ls == seqs(lines@),
            all == all_commentary(ls, index + 1, j as int),
        decreases peeled - j,
    {
        let line = lines[j].as_slice();
        let k = content_len(line, 0, line.len());
        proof {
            assert(line@.subrange(0, line@.len() as int) =~= line@);
            assert(ls[j as int] == line@);
        }
        let here = is_commentary(line, 0, k);
        proof {
            if all && here {
                assert(all_commentary(ls, index + 1, j + 1));
            }
            if !here {
                assert(!all_commentary(ls, index + 1, j + 1));
            }
        }
        all = all && here;
        j += 1;
    }
    if all {
        peeled = index + 1;
    }
    let mut extent: Vec<Vec<char>> = Vec::new();
    let mut e: usize = index + 1;
    while e < peeled
        invariant
            index + 1 <= e <= peeled <= n == lines@.len(),
            ls == seqs(lines@),
            seqs(extent@) == contents(ls.subrange(index + 1, e as int)),
        decreases peeled - e,
    {
        let c = line_content(lines, e);
        proof {
            lemma_seqs_push(extent@, c);
            assert(contents(ls.subrange(index + 1, e + 1)) =~= contents(
                ls.subrange(index + 1, e as int),
            ).push(content(ls[e as int])));
        }
        extent.push(c);
        e += 1;
    }
    let value = parsed_value_of(rest.as_slice(), &extent);
    let mut raw: Vec<char> = Vec::new();
    push_lines(&mut raw, lines, index, peeled);
    assert(raw@ =~= concat(ls.subrange(index as int, peeled as int)));
    let item = Item::Property(Property { key, value, raw });
    proof {
        lemma_items_push(items@, item);
    }
    items.push(item);
    let ghost before = items_view(items@);
    let mut r: usize = peeled;
    while r < end
        invariant
            peeled <= r <= end <= n == lines@.len(),
            ls == seqs(lines@),
            items_view(items@) == before + raw_items(ls.subrange(peeled as int, r as int)),
        decreases end - r,
    {
        let raw = vstd::slice::slice_to_vec(lines[r].as_slice());
        proof {
            lemma_items_push(items@, Item::Raw(raw));
            assert(raw_items(ls.subrange(peeled as int, r + 1)) =~= raw_items(
                ls.subrange(peeled as int, r as int),
            ).push(ItemModel::Raw(ls[r as int])));
        }
        items.push(Item::Raw(raw));
        r += 1;
    }
    proof {
        lemma_extent_end(ls, index + 1, listable);
        lemma_peel(ls, index + 1, end as int);
        assert(extent_end(ls, end as int, listable) == end);
    }
    assert(items_view(items@) =~= start_items + property_group(ls, index as int, key@, rest@));
    end
}

/// Whether line `i` can continue a property above it.
fn continues_at(lines: &Vec<Vec<char>>, i: usize, listable: bool) -> (b: bool)
    requires
        i < lines@.len(),
    ensures
        b == continues_property(content(seqs(lines@)[i as int]), listable),
{
    let line = lines[i].as_slice();
    let k = content_len(line, 0, line.len());
    assert(line@.subrange(0, line@.len() as int) =~= line@);
    is_continuation(line, 0, k, listable)
}

/// Whether line `i` lies between properties.
fn between_at(lines: &Vec<Vec<char>>, i: usize) -> (b: bool)
    requires
        i < lines@.len(),
    ensures
        b == between_properties(content(seqs(lines@)[i as int])),
{
    let line = lines[i].as_slice();
    let k = content_len(line, 0, line.len());
    assert(line@.subrange(0, line@.len() as int) =~= line@);
    is_between_properties(line, 0, k)
}

/// Exec twin of [`classify_from`] from the first line.
pub fn classify(lines: &Vec<Vec<char>>) -> (items: Vec<Item>)
    ensures
        items_view(items@) == classify_from(seqs(lines@), 0),
{
    let ghost ls = seqs(lines@);
    let n = lines.len();
    let mut items: Vec<Item> = Vec::new();
    let mut index: usize = 0;
    assert(items_view(items@) =~= Seq::<ItemModel>::empty());
    while index < n
        invariant
            index <= n == lines@.len(),
            ls == seqs(lines@),
            ls.len() == n,
            classify_from(ls, 0) == items_view(items@) + classify_from(ls, index as int),
        decreases n - index,
    {
        let c = line_content(lines, index);
        assert(ls[index as int] == lines@[index as int]@);
        match key_line_of(c.as_slice()) {
            None => {
                let raw = vstd::slice::slice_to_vec(lines[index].as_slice());
                proof {
                    lemma_items_push(items@, Item::Raw(raw));
                }
                items.push(Item::Raw(raw));
                assert(classify_from(ls, index as int) == seq![ItemModel::Raw(ls[index as int])]
                    + classify_from(ls, index + 1));
                assert(classify_from(ls, 0) =~= items_view(items@) + classify_from(
                    ls,
                    index + 1,
                ));
                index += 1;
            },
            Some((key, rest)) => {
                let ghost k = key@;
                let ghost r = rest@;
                let end = classify_property(lines, index, key, rest, &mut items);
                proof {
                    lemma_extent_end(ls, index + 1, crate::frontmatter::lines::blank_line(r));
                }
                assert(classify_from(ls, 0) =~= items_view(items@) + classify_from(ls, end as int));
                index = end;
            },
        }
    }
    assert(classify_from(ls, n as int) =~= Seq::<ItemModel>::empty());
    assert(classify_from(ls, 0) =~= items_view(items@));
    items
}

} // verus!
