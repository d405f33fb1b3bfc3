//! Classifying a property's value: text, a list of texts, or a shape
//! outside the subset.
use vstd::prelude::*;

use crate::frontmatter::scalar::{
    holds_forbidden, holds_forbidden_character, needs_quotes, needs_quoting, plain_or_quoted,
    plain_or_quoted_value, scan_double, scan_double_from, scan_single, scan_single_from,
};
use crate::text::{
    find_char, find_from, has_char, leading, leading_count, lemma_find_from, sliced, starts_with,
    trailing, trailing_count, trim, trim_start, CharClass,
};

verus! {

/// The logical content of a sequence of character vectors.
pub open spec fn seqs(v: Seq<Vec<char>>) -> Seq<Seq<char>> {
    v.map_values(|x: Vec<char>| x@)
}

pub proof fn lemma_seqs_push(v: Seq<Vec<char>>, x: Vec<char>)
    ensures
        seqs(v.push(x)) == seqs(v).push(x@),
{
    assert(seqs(v.push(x)) =~= seqs(v).push(x@));
}

/// A parsed value: text, a list, or a shape the subset does not cover,
/// which is preserved but never read or edited item-wise.
pub enum Parsed {
    Scalar(Vec<char>),
    List(Vec<Vec<char>>),
    Opaque,
}

/// The logical content of a [`Parsed`].
pub enum ParsedModel {
    Scalar(Seq<char>),
    List(Seq<Seq<char>>),
    Opaque,
}

impl View for Parsed {
    type V = ParsedModel;

    open spec fn view(&self) -> ParsedModel {
        match self {
            Parsed::Scalar(v) => ParsedModel::Scalar(v@),
            Parsed::List(items) => ParsedModel::List(seqs(items@)),
            Parsed::Opaque => ParsedModel::Opaque,
        }
    }
}

/// The first non-blank index at or after `p`.
pub open spec fn skip_blank(s: Seq<char>, p: int) -> int {
    p + leading(CharClass::Blank, s.subrange(p, s.len() as int))
}

/// Whether a character would make a plain inline item something else.
pub open spec fn flow_char(c: char) -> bool {
    c == '[' || c == ']' || c == '{' || c == '}' || c == '"' || c == '\''
}

/// Whether `s` holds a [`flow_char`].
pub open spec fn has_flow_char(s: Seq<char>) -> bool {
    exists|i: int| 0 <= i < s.len() && flow_char(#[trigger] s[i])
}

/// The item of an inline list starting at `p`, and the index past it.
pub open spec fn item_at(s: Seq<char>, p: int) -> Option<(Seq<char>, int)> {
    if s[p] == '"' {
        scan_double_from(s, p + 1, Seq::empty())
    } else if s[p] == '\'' {
        scan_single_from(s, p + 1, Seq::empty())
    } else {
        let end = match find_from(s, ',', p) {
            Some(e) => e,
            None => s.len() as int,
        };
        let piece = trim(CharClass::Blank, s.subrange(p, end));
        if piece.len() == 0 || has_flow_char(piece) || needs_quotes(piece) || holds_forbidden(
            piece,
        ) {
            None
        } else {
            Some((piece, end))
        }
    }
}

/// The items of an inline list from the item starting at `p`, appended to
/// `items`; `None` for a shape outside the subset.
pub open spec fn split_inline_from(s: Seq<char>, p: int, items: Seq<Seq<char>>) -> Option<
    Seq<Seq<char>>,
>
    decreases s.len() - p,
{
    if p < 0 || p >= s.len() {
        None
    } else {
        match item_at(s, p) {
            None => None,
            Some((item, a)) => if a <= p || a > s.len() {
                None
            } else {
                let q = skip_blank(s, a);
                if q >= s.len() {
                    Some(items.push(item))
                } else if s[q] != ',' {
                    None
                } else {
                    let r = skip_blank(s, q + 1);
                    if r >= s.len() {
                        None
                    } else {
                        split_inline_from(s, r, items.push(item))
                    }
                }
            },
        }
    }
}

/// The items of the interior of an inline `[...]` list.
pub open spec fn split_inline(s: Seq<char>) -> Option<Seq<Seq<char>>> {
    let p = skip_blank(s, 0);
    if p >= s.len() {
        Some(Seq::empty())
    } else {
        split_inline_from(s, p, Seq::empty())
    }
}

/// Exec check of [`has_flow_char`] on `s[from..to]`.
fn holds_flow_char(s: &[char], from: usize, to: usize) -> (b: bool)
    requires
        from <= to <= s@.len(),
    ensures
        b == has_flow_char(s@.subrange(from as int, to as int)),
{
    let ghost t = s@.subrange(from as int, to as int);
    let mut i: usize = from;
    while i < to
        invariant
            from <= i <= to <= s@.len(),
            t == s@.subrange(from as int, to as int),
            forall|j: int| 0 <= j < i - from ==> !flow_char(#[trigger] t[j]),
        decreases to - i,
    {
        let c = s[i];
        if c == '[' || c == ']' || c == '{' || c == '}' || c == '"' || c == '\'' {
            assert(flow_char(t[i - from]));
            return true;
        }
        i += 1;
    }
    false
}

/// The first non-blank index of `s` at or after `p`.
fn skip_blanks(s: &[char], p: usize) -> (q: usize)
    requires
        p <= s@.len(),
    ensures
        q == skip_blank(s@, p as int),
        p <= q <= s@.len(),
{
    let n = leading_count(CharClass::Blank, s, p, s.len());
    p + n
}

/// The item of an inline list starting at `p`.
fn inline_item(s: &[char], p: usize) -> (r: Option<(Vec<char>, usize)>)
    requires
        p < s@.len(),
    ensures
        r matches Some((v, a)) ==> item_at(s@, p as int) == Some((v@, a as int)),
        r is None ==> item_at(s@, p as int) is None,
        r matches Some((_, a)) ==> p < a <= s@.len(),
{
    if s[p] == '"' {
        scan_double(s, p + 1)
    } else if s[p] == '\'' {
        scan_single(s, p + 1)
    } else {
        let end = match find_char(s, ',', p) {
            Some(e) => e,
            None => s.len(),
        };
        proof {
            lemma_find_from(s@, ',', p as int);
        }
        let lead = leading_count(CharClass::Blank, s, p, end);
        let trail = trailing_count(CharClass::Blank, s, p + lead, end);
        let ghost raw = s@.subrange(p as int, end as int);
        assert(raw.skip(lead as int) =~= s@.subrange(p + lead, end as int));
        let from = p + lead;
        let to = end - trail;
        assert(trim(CharClass::Blank, raw) =~= s@.subrange(from as int, to as int));
        if from == to || holds_flow_char(s, from, to) || needs_quoting(s, from, to)
            || holds_forbidden_character(s, from, to) {
            None
        } else {
            Some((sliced(s, from, to), end))
        }
    }
}

/// Splits the interior of an inline `[...]` list into logical items.
pub fn split_inline_items(s: &[char]) -> (r: Option<Vec<Vec<char>>>)
    ensures
        r matches Some(v) ==> split_inline(s@) == Some(seqs(v@)),
        r is None ==> split_inline(s@) is None,
{
    let mut items: Vec<Vec<char>> = Vec::new();
    let mut p = skip_blanks(s, 0);
    if p >= s.len() {
        assert(seqs(items@) =~= Seq::<Seq<char>>::empty());
        return Some(items);
    }
    assert(seqs(items@) =~= Seq::<Seq<char>>::empty());
    loop
        invariant
            p < s@.len(),
            split_inline(s@) == split_inline_from(s@, p as int, seqs(items@)),
        decreases s@.len() - p,
    {
        let (item, a) = match inline_item(s, p) {
            Some(found) => found,
            None => {
                return None;
            },
        };
        proof {
            lemma_seqs_push(items@, item);
        }
        let q = skip_blanks(s, a);
        if q >= s.len() {
            items.push(item);
            return Some(items);
        }
        if s[q] != ',' {
            return None;
        }
        let r = skip_blanks(s, q + 1);
        if r >= s.len() {
            return None;
        }
        items.push(item);
        p = r;
    }
}

/// One line of a block-style list as its logical item, or `None`.
pub open spec fn list_item(line: Seq<char>) -> Option<Seq<char>> {
    let t = trim_start(CharClass::Blank, line);
    if t == seq!['-'] {
        Some(Seq::empty())
    } else if starts_with(t, seq!['-', ' ']) {
        plain_or_quoted(trim(CharClass::Blank, t.skip(2)))
    } else {
        None
    }
}

/// A line's leading blank run.
pub open spec fn indent_of(line: Seq<char>) -> Seq<char> {
    line.take(leading(CharClass::Blank, line) as int)
}

/// Whether an extent is a block-style list: every line one `- item` at one
/// shared, tab-free indent.
pub open spec fn is_list_extent(extent: Seq<Seq<char>>) -> bool {
    forall|i: int|
        0 <= i < extent.len() ==> {
            &&& !has_char(indent_of(#[trigger] extent[i]), '\t')
            &&& indent_of(extent[i]) == indent_of(extent[0])
            &&& list_item(extent[i]) is Some
        }
}

/// Classifies an extent as a block-style list, or a shape outside the
/// subset.
pub open spec fn list_extent(extent: Seq<Seq<char>>) -> ParsedModel {
    if is_list_extent(extent) {
        ParsedModel::List(Seq::new(extent.len(), |i: int| list_item(extent[i]).unwrap()))
    } else {
        ParsedModel::Opaque
    }
}

/// Exec twin of [`list_item`].
fn list_line_item(line: &[char]) -> (r: Option<Vec<char>>)
    ensures
        r matches Some(v) ==> list_item(line@) == Some(v@),
        r is None ==> list_item(line@) is None,
{
    let n = line.len();
    let lead = leading_count(CharClass::Blank, line, 0, n);
    assert(line@.subrange(0, n as int) =~= line@);
    let ghost t = trim_start(CharClass::Blank, line@);
    assert(t =~= line@.subrange(lead as int, n as int));
    if n - lead == 1 && line[lead] == '-' {
        assert(t =~= seq!['-']);
        return Some(Vec::new());
    }
    assert(t != seq!['-']) by {
        if t == seq!['-'] {
            assert(t.len() == 1);
            assert(t[0] == line@[lead as int]);
        }
    }
    if n - lead >= 2 && line[lead] == '-' && line[lead + 1] == ' ' {
        assert(t.take(2) =~= seq!['-', ' ']);
        let from = lead + 2;
        let l2 = leading_count(CharClass::Blank, line, from, n);
        let t2 = trailing_count(CharClass::Blank, line, from + l2, n);
        assert(t.skip(2) =~= line@.subrange(from as int, n as int));
        assert(line@.subrange(from as int, n as int).skip(l2 as int) =~= line@.subrange(
            from + l2,
            n as int,
        ));
        assert(trim(CharClass::Blank, t.skip(2)) =~= line@.subrange(from + l2, n - t2));
        plain_or_quoted_value(line, from + l2, n - t2)
    } else {
        assert(!starts_with(t, seq!['-', ' '])) by {
            if starts_with(t, seq!['-', ' ']) {
                assert(t.take(2)[0] == '-');
                assert(t.take(2)[1] == ' ');
            }
        }
        None
    }
}

/// The leading blank run of `line`, with whether it holds a tab.
fn line_indent(line: &[char]) -> (r: (usize, bool))
    ensures
        r.0 == leading(CharClass::Blank, line@),
        r.0 <= line@.len(),
        r.1 == has_char(indent_of(line@), '\t'),
{
    let n = line.len();
    let lead = leading_count(CharClass::Blank, line, 0, n);
    assert(line@.subrange(0, n as int) =~= line@);
    let mut i: usize = 0;
    while i < lead
        invariant
            i <= lead <= line@.len(),
            lead == leading(CharClass::Blank, line@),
            forall|j: int| 0 <= j < i ==> line@[j] != '\t',
        decreases lead - i,
    {
        if line[i] == '\t' {
            assert(indent_of(line@)[i as int] == '\t');
            return (lead, true);
        }
        i += 1;
    }
    assert(!has_char(indent_of(line@), '\t')) by {
        assert forall|j: int| 0 <= j < indent_of(line@).len() implies indent_of(line@)[j]
            != '\t' by {
            assert(indent_of(line@)[j] == line@[j]);
        }
    }
    (lead, false)
}

/// Whether two lines share their first `n` characters.
fn same_prefix(a: &[char], b: &[char], n: usize) -> (r: bool)
    requires
        n <= a@.len(),
        n <= b@.len(),
    ensures
        r == (a@.take(n as int) == b@.take(n as int)),
{
    let mut i: usize = 0;
    while i < n
        invariant
            i <= n <= a@.len(),
            n <= b@.len(),
            forall|j: int| 0 <= j < i ==> a@[j] == b@[j],
        decreases n - i,
    {
        if a[i] != b[i] {
            assert(a@.take(n as int)[i as int] != b@.take(n as int)[i as int]);
            return false;
        }
        i += 1;
    }
    assert(a@.take(n as int) =~= b@.take(n as int));
    true
}

/// Classifies an extent as a block-style list.
pub fn list_extent_value(extent: &Vec<Vec<char>>) -> (r: Parsed)
    requires
        extent@.len() > 0,
    ensures
        r@ == list_extent(seqs(extent@)),
{
    let ghost e = seqs(extent@);
    let (first_lead, _) = line_indent(extent[0].as_slice());
    let mut items: Vec<Vec<char>> = Vec::new();
    let mut i: usize = 0;
    while i < extent.len()
        invariant
            i <= extent@.len(),
            e == seqs(extent@),
            e.len() == extent@.len(),
            extent@.len() > 0,
            first_lead == leading(CharClass::Blank, e[0]),
            items@.len() == i,
            forall|j: int|
                0 <= j < i ==> {
                    &&& !has_char(indent_of(#[trigger] e[j]), '\t')
                    &&& indent_of(e[j]) == indent_of(e[0])
                    &&& list_item(e[j]) is Some
                },
            forall|j: int| 0 <= j < i ==> Some(#[trigger] items@[j]@) == list_item(e[j]),
        decreases extent@.len() - i,
    {
        let line = extent[i].as_slice();
        assert(e[i as int] == line@);
        assert(e[0] == extent@[0]@);
        proof {
            crate::text::lemma_leading_bound(CharClass::Blank, e[0]);
        }
        let (lead, tab) = line_indent(line);
        if tab {
            assert(!is_list_extent(e));
            return Parsed::Opaque;
        }
        if lead != first_lead || !same_prefix(line, extent[0].as_slice(), lead) {
            assert(indent_of(e[i as int]) != indent_of(e[0]));
            assert(!is_list_extent(e));
            return Parsed::Opaque;
        }
        assert(indent_of(e[i as int]) =~= indent_of(e[0]));
        match list_line_item(line) {
            None => {
                assert(!is_list_extent(e));
                return Parsed::Opaque;
            },
            Some(item) => {
                items.push(item);
            },
        }
        i += 1;
    }
    assert(seqs(items@) =~= Seq::new(e.len(), |k: int| list_item(e[k]).unwrap()));
    Parsed::List(items)
}

/// Classifies an inline value: a flow list, a quoted or plain scalar, or a
/// shape outside the subset.
pub open spec fn scalar_or_inline(v: Seq<char>) -> ParsedModel {
    if v.len() > 0 && v[0] == '[' {
        if v.len() >= 2 && v.last() == ']' {
            match split_inline(v.subrange(1, v.len() - 1)) {
                Some(items) => ParsedModel::List(items),
                None => ParsedModel::Opaque,
            }
        } else {
            ParsedModel::Opaque
        }
    } else {
        match plain_or_quoted(v) {
            Some(l) => ParsedModel::Scalar(l),
            None => ParsedModel::Opaque,
        }
    }
}

/// Classifies a property's value from the rest of its key line and its
/// extent's lines.
pub open spec fn parsed_value(rest: Seq<char>, extent: Seq<Seq<char>>) -> ParsedModel {
    let value = trim(CharClass::Blank, rest);
    if extent.len() > 0 {
        if value.len() == 0 {
            list_extent(extent)
        } else {
            ParsedModel::Opaque
        }
    } else if value.len() == 0 {
        ParsedModel::Scalar(Seq::empty())
    } else {
        scalar_or_inline(value)
    }
}

/// Exec twin of [`parsed_value`].
pub fn parsed_value_of(rest: &[char], extent: &Vec<Vec<char>>) -> (r: Parsed)
    ensures
        r@ == parsed_value(rest@, seqs(extent@)),
{
    let n = rest.len();
    let lead = leading_count(CharClass::Blank, rest, 0, n);
    let trail = trailing_count(CharClass::Blank, rest, lead, n);
    assert(rest@.subrange(0, n as int) =~= rest@);
    assert(rest@.skip(lead as int) =~= rest@.subrange(lead as int, n as int));
    let from = lead;
    let to = n - trail;
    let ghost value = trim(CharClass::Blank, rest@);
    assert(value =~= rest@.subrange(from as int, to as int));
    if extent.len() > 0 {
        if from == to {
            return list_extent_value(extent);
        }
        return Parsed::Opaque;
    }
    if from == to {
        return Parsed::Scalar(Vec::new());
    }
    if rest[from] == '[' {
        if to - from >= 2 && rest[to - 1] == ']' {
            let inner = sliced(rest, from + 1, to - 1);
            assert(inner@ =~= value.subrange(1, value.len() - 1));
            match split_inline_items(inner.as_slice()) {
                Some(items) => Parsed::List(items),
                None => Parsed::Opaque,
            }
        } else {
            Parsed::Opaque
        }
    } else {
        match plain_or_quoted_value(rest, from, to) {
            Some(l) => Parsed::Scalar(l),
            None => Parsed::Opaque,
        }
    }
}

} // verus!
