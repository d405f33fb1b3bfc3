//! How grouping a block's lines behaves under cutting and splicing the
//! lines: what the frontmatter laws rest on.
use vstd::prelude::*;

use crate::frontmatter::lines::{
    all_commentary, between_properties, blank_line, classify_from, commentary, content,
    continues_property, contents, extent_end, group_end, group_peeled, key_line, lemma_extent_end,
    lemma_peel, peel, property_group, raw_items, ItemModel, PropertyModel,
};
use crate::frontmatter::value::parsed_value;

verus! {

/// Where an extent ends does not depend on the lines before it.
pub proof fn lemma_extent_shift(lines: Seq<Seq<char>>, i: int, j: int, f: bool)
    requires
        0 <= i <= j <= lines.len(),
    ensures
        extent_end(lines, j, f) == i + extent_end(lines.skip(i), j - i, f),
    decreases lines.len() - j,
{
    if j < lines.len() {
        assert(lines.skip(i)[j - i] == lines[j]);
        if continues_property(content(lines[j]), f) {
            lemma_extent_shift(lines, i, j + 1, f);
        }
    }
}

/// Peeling does not depend on the lines before the extent.
pub proof fn lemma_peel_shift(lines: Seq<Seq<char>>, i: int, lo: int, hi: int)
    requires
        0 <= i <= lo <= hi <= lines.len(),
    ensures
        peel(lines, lo, hi) == i + peel(lines.skip(i), lo - i, hi - i),
    decreases hi - lo,
{
    if hi > lo {
        assert(lines.skip(i)[hi - i - 1] == lines[hi - 1]);
        if between_properties(content(lines[hi - 1])) {
            lemma_peel_shift(lines, i, lo, hi - 1);
        }
    }
}

pub proof fn lemma_commentary_shift(lines: Seq<Seq<char>>, i: int, lo: int, hi: int)
    requires
        0 <= i <= lo <= hi <= lines.len(),
    ensures
        all_commentary(lines, lo, hi) == all_commentary(lines.skip(i), lo - i, hi - i),
{
    if all_commentary(lines, lo, hi) {
        assert forall|j: int| lo - i <= j < hi - i implies commentary(
            content(#[trigger] lines.skip(i)[j]),
        ) by {
            assert(lines.skip(i)[j] == lines[j + i]);
        }
    }
    if all_commentary(lines.skip(i), lo - i, hi - i) {
        assert forall|j: int| lo <= j < hi implies commentary(content(#[trigger] lines[j])) by {
            assert(lines.skip(i)[j - i] == lines[j]);
        }
    }
}

/// A property group read at line `i` is the one read at the start of the
/// lines from `i` on.
pub proof fn lemma_group_shift(lines: Seq<Seq<char>>, i: int, key: Seq<char>, rest: Seq<char>)
    requires
        0 <= i < lines.len(),
    ensures
        i < group_end(lines, i, rest) <= lines.len(),
        group_end(lines, i, rest) == i + group_end(lines.skip(i), 0, rest),
        property_group(lines, i, key, rest) == property_group(lines.skip(i), 0, key, rest),
{
    let m = lines.skip(i);
    let f = blank_line(rest);
    lemma_extent_shift(lines, i, i + 1, f);
    lemma_extent_end(lines, i + 1, f);
    let end = group_end(lines, i, rest);
    let mend = group_end(m, 0, rest);
    lemma_peel_shift(lines, i, i + 1, end);
    lemma_peel(lines, i + 1, end);
    let p0 = peel(lines, i + 1, end);
    lemma_commentary_shift(lines, i, i + 1, p0);
    let pe = group_peeled(lines, i, rest);
    assert(pe == i + group_peeled(m, 0, rest));
    assert(lines.subrange(i + 1, pe) =~= m.subrange(1, pe - i));
    assert(lines.subrange(i, pe) =~= m.subrange(0, pe - i));
    assert(lines.subrange(pe, end) =~= m.subrange(pe - i, mend));
}

/// Grouping from line `i` depends only on the lines from `i` on.
#[verifier::spinoff_prover]
pub proof fn lemma_classify_shift(lines: Seq<Seq<char>>, i: int)
    requires
        0 <= i <= lines.len(),
    ensures
        classify_from(lines, i) == classify_from(lines.skip(i), 0),
    decreases lines.len() - i,
{
    let n = lines.len() as int;
    let m = lines.skip(i);
    if i < n {
        assert(m[0] == lines[i]);
        match key_line(content(lines[i])) {
            None => {
                lemma_classify_shift(lines, i + 1);
                lemma_classify_shift(m, 1);
                assert(m.skip(1) =~= lines.skip(i + 1));
            },
            Some((key, rest)) => {
                lemma_group_shift(lines, i, key, rest);
                let end = group_end(lines, i, rest);
                let mend = group_end(m, 0, rest);
                lemma_classify_shift(lines, end);
                lemma_classify_shift(m, mend);
                assert(m.skip(mend) =~= lines.skip(end));
            },
        }
    } else {
        assert(m.len() == 0);
    }
}

/// Whether a line starts a fresh item: no property can continue over it.
pub open spec fn fresh_line(l: Seq<char>) -> bool {
    !continues_property(content(l), true)
}

pub proof fn lemma_fresh_stops(c: Seq<char>, f: bool)
    requires
        !continues_property(c, true),
    ensures
        !continues_property(c, f),
{
}

/// A line that declares a property is a fresh line.
pub proof fn lemma_key_line_fresh(l: Seq<char>)
    requires
        key_line(content(l)) is Some,
    ensures
        fresh_line(l),
{
    let c = content(l);
    if blank_line(c) {
        crate::text::lemma_leading_bound(crate::text::CharClass::Blank, c);
        assert(crate::text::in_class(crate::text::CharClass::Blank, c[0]));
    }
    if c.len() >= 2 && crate::text::starts_with(c, seq!['-', ' ']) {
        assert(c.take(2)[0] == c[0]);
    }
}

/// An extent that stops at a fresh line reads the same without the lines
/// from there on.
pub proof fn lemma_extent_cut(lines: Seq<Seq<char>>, s: int, j: int, f: bool)
    requires
        0 <= j <= s <= lines.len(),
        s == lines.len() || fresh_line(lines[s]),
    ensures
        extent_end(lines, j, f) == extent_end(lines.take(s), j, f),
        extent_end(lines, j, f) <= s,
    decreases s - j,
{
    if j < s {
        assert(lines.take(s)[j] == lines[j]);
        lemma_extent_cut(lines, s, j + 1, f);
    } else if s < lines.len() {
        lemma_fresh_stops(content(lines[s]), f);
    }
}

pub proof fn lemma_peel_cut(lines: Seq<Seq<char>>, s: int, lo: int, hi: int)
    requires
        0 <= lo <= hi <= s <= lines.len(),
    ensures
        peel(lines, lo, hi) == peel(lines.take(s), lo, hi),
    decreases hi - lo,
{
    if hi > lo {
        assert(lines.take(s)[hi - 1] == lines[hi - 1]);
        lemma_peel_cut(lines, s, lo, hi - 1);
    }
}

/// A property group read before a fresh line reads the same without the
/// lines from there on.
pub proof fn lemma_group_cut(
    lines: Seq<Seq<char>>,
    s: int,
    i: int,
    key: Seq<char>,
    rest: Seq<char>,
)
    requires
        0 <= i < s <= lines.len(),
        s == lines.len() || fresh_line(lines[s]),
    ensures
        i < group_end(lines, i, rest) <= s,
        group_end(lines, i, rest) == group_end(lines.take(s), i, rest),
        property_group(lines, i, key, rest) == property_group(lines.take(s), i, key, rest),
{
    let t = lines.take(s);
    let f = blank_line(rest);
    lemma_extent_cut(lines, s, i + 1, f);
    lemma_extent_end(lines, i + 1, f);
    let end = group_end(lines, i, rest);
    lemma_peel_cut(lines, s, i + 1, end);
    lemma_peel(lines, i + 1, end);
    let p0 = peel(lines, i + 1, end);
    assert(all_commentary(lines, i + 1, p0) == all_commentary(t, i + 1, p0)) by {
        if all_commentary(lines, i + 1, p0) {
            assert forall|j: int| i + 1 <= j < p0 implies commentary(content(#[trigger] t[j])) by {
                assert(t[j] == lines[j]);
            }
        }
        if all_commentary(t, i + 1, p0) {
            assert forall|j: int| i + 1 <= j < p0 implies commentary(content(#[trigger] lines[j])) by {
                assert(t[j] == lines[j]);
            }
        }
    }
    let pe = group_peeled(lines, i, rest);
    assert(lines.subrange(i + 1, pe) =~= t.subrange(i + 1, pe));
    assert(lines.subrange(i, pe) =~= t.subrange(i, pe));
    assert(lines.subrange(pe, end) =~= t.subrange(pe, end));
}

/// Grouping runs through a fresh line as through a boundary: the items
/// before it are those of the lines before it.
#[verifier::spinoff_prover]
pub proof fn lemma_classify_cut(lines: Seq<Seq<char>>, i: int, s: int)
    requires
        0 <= i <= s <= lines.len(),
        s == lines.len() || fresh_line(lines[s]),
    ensures
        classify_from(lines, i) == classify_from(lines.take(s), i) + classify_from(lines, s),
    decreases s - i,
{
    let t = lines.take(s);
    if i == s {
        assert(classify_from(t, i) =~= Seq::<ItemModel>::empty());
        assert(classify_from(lines, i) =~= classify_from(t, i) + classify_from(lines, s));
    } else {
        assert(t[i] == lines[i]);
        match key_line(content(lines[i])) {
            None => {
                lemma_classify_cut(lines, i + 1, s);
                assert(classify_from(lines, i) =~= classify_from(t, i) + classify_from(lines, s));
            },
            Some((key, rest)) => {
                lemma_group_cut(lines, s, i, key, rest);
                let end = group_end(lines, i, rest);
                lemma_classify_cut(lines, end, s);
                assert(classify_from(lines, i) =~= classify_from(t, i) + classify_from(lines, s));
            },
        }
    }
}

/// Every property item of a grouping starts at a key line, with the items
/// before it grouped from the lines before that line.
pub proof fn lemma_find_group(lines: Seq<Seq<char>>, i: int, j: int) -> (s: int)
    requires
        0 <= i <= lines.len(),
        0 <= j < classify_from(lines, i).len(),
        classify_from(lines, i)[j] is Property,
    ensures
        i <= s < lines.len(),
        key_line(content(lines[s])) is Some,
        classify_from(lines.take(s), i).len() == j,
    decreases lines.len() - i,
{
    let n = lines.len() as int;
    if i >= n {
        assert(false);
        0
    } else {
        match key_line(content(lines[i])) {
            None => {
                assert(classify_from(lines, i)[j] == classify_from(lines, i + 1)[j - 1]);
                let s = lemma_find_group(lines, i + 1, j - 1);
                assert(lines.take(s)[i] == lines[i]);
                s
            },
            Some((key, rest)) => {
                if j == 0 {
                    assert(classify_from(lines.take(i), i) =~= Seq::<ItemModel>::empty());
                    i
                } else {
                    lemma_extent_end(lines, i + 1, blank_line(rest));
                    let end = group_end(lines, i, rest);
                    lemma_peel(lines, i + 1, end);
                    let pe = group_peeled(lines, i, rest);
                    let g = property_group(lines, i, key, rest);
                    assert(g.len() == 1 + (end - pe));
                    if j < g.len() {
                        assert(classify_from(lines, i)[j] == g[j]);
                        assert(g[j] == ItemModel::Raw(lines[pe + j - 1]));
                        assert(false);
                        0
                    } else {
                        assert(classify_from(lines, i)[j] == classify_from(lines, end)[j - g.len()]);
                        let s = lemma_find_group(lines, end, j - g.len());
                        lemma_key_line_fresh(lines[s]);
                        lemma_classify_cut(lines, i, s);
                        lemma_classify_cut(lines, end, s);
                        s
                    }
                }
            },
        }
    }
}

/// A commentary line continues any property above it.
pub proof fn lemma_commentary_continues(c: Seq<char>, f: bool)
    requires
        commentary(c),
    ensures
        continues_property(c, f),
{
    crate::text::lemma_leading_bound(crate::text::CharClass::Blank, c);
    if !blank_line(c) && crate::text::leading(crate::text::CharClass::Blank, c) > 0 {
        assert(crate::text::in_class(crate::text::CharClass::Blank, c[0]));
    }
}

/// An extent runs exactly over the lines that continue it.
pub proof fn lemma_extent_exact(lines: Seq<Seq<char>>, j: int, e: int, f: bool)
    requires
        0 <= j <= e <= lines.len(),
        forall|x: int| j <= x < e ==> continues_property(content(#[trigger] lines[x]), f),
        e == lines.len() || !continues_property(content(lines[e]), f),
    ensures
        extent_end(lines, j, f) == e,
    decreases e - j,
{
    if j < e {
        assert(continues_property(content(lines[j]), f));
        lemma_extent_exact(lines, j + 1, e, f);
    }
}

/// What a property line needs to read back as the property it renders.
pub open spec fn reads_back(line: Seq<char>, p: PropertyModel) -> bool {
    &&& key_line(content(line)) matches Some((key, rest))
    &&& key == p.key
    &&& !blank_line(rest)
    &&& parsed_value(rest, Seq::empty()) == p.value
    &&& p.raw == line
}

/// A one-line property spliced in front of commentary lines groups as
/// itself, the commentary staying separate lines.
#[verifier::spinoff_prover]
pub proof fn lemma_fresh_group(line: Seq<char>, p: PropertyModel, r: Seq<Seq<char>>, m: int)
    requires
        reads_back(line, p),
        0 <= m <= r.len(),
        forall|x: int| 0 <= x < m ==> commentary(content(#[trigger] r[x])),
        m == r.len() || !continues_property(content(r[m]), false),
    ensures
        classify_from(seq![line] + r, 0) == seq![ItemModel::Property(p)] + raw_items(r.take(m))
            + classify_from(r, m),
{
    let n = seq![line] + r;
    let (key, rest) = key_line(content(line)).unwrap();
    assert(n[0] == line);
    assert forall|x: int| 1 <= x < m + 1 implies continues_property(
        content(#[trigger] n[x]),
        false,
    ) by {
        assert(n[x] == r[x - 1]);
        lemma_commentary_continues(content(r[x - 1]), false);
    }
    if m < r.len() {
        assert(n[m + 1] == r[m]);
    }
    lemma_extent_exact(n, 1, m + 1, false);
    let end = group_end(n, 0, rest);
    assert(end == m + 1);
    lemma_peel(n, 1, end);
    let p0 = peel(n, 1, end);
    assert(all_commentary(n, 1, p0)) by {
        assert forall|x: int| 1 <= x < p0 implies commentary(content(#[trigger] n[x])) by {
            assert(n[x] == r[x - 1]);
        }
    }
    assert(group_peeled(n, 0, rest) == 1);
    assert(n.subrange(1, 1) =~= Seq::<Seq<char>>::empty());
    assert(contents(n.subrange(1, 1)) =~= Seq::<Seq<char>>::empty());
    assert(n.subrange(0, 1) =~= seq![line]);
    crate::frontmatter::laws::lemma_concat_one(line);
    assert(n.subrange(1, end) =~= r.take(m));
    let g = property_group(n, 0, key, rest);
    assert(g == seq![ItemModel::Property(p)] + raw_items(r.take(m)));
    lemma_classify_shift(n, end);
    lemma_classify_shift(r, m);
    assert(n.skip(end) =~= r.skip(m));
}

/// The lines of a group's extent past its peeled end are commentary.
pub proof fn lemma_peeled_between(lines: Seq<Seq<char>>, lo: int, hi: int)
    requires
        0 <= lo <= hi <= lines.len(),
    ensures
        forall|x: int|
            peel(lines, lo, hi) <= x < hi ==> between_properties(content(#[trigger] lines[x])),
    decreases hi - lo,
{
    if hi > lo && between_properties(content(lines[hi - 1])) {
        lemma_peeled_between(lines, lo, hi - 1);
    }
}

/// The lines of the property group at `s` past its own lines: commentary
/// up to where the next item starts.
pub proof fn lemma_group_tail(lines: Seq<Seq<char>>, s: int, key: Seq<char>, rest: Seq<char>)
    requires
        0 <= s < lines.len(),
        key_line(content(lines[s])) == Some((key, rest)),
    ensures
        s < group_peeled(lines, s, rest) <= group_end(lines, s, rest) <= lines.len(),
        forall|x: int|
            group_peeled(lines, s, rest) <= x < group_end(lines, s, rest) ==> commentary(
                content(#[trigger] lines[x]),
            ),
        group_end(lines, s, rest) == lines.len() || !continues_property(
            content(lines[group_end(lines, s, rest)]),
            false,
        ),
        classify_from(lines, s) == property_group(lines, s, key, rest) + classify_from(
            lines,
            group_end(lines, s, rest),
        ),
{
    let f = blank_line(rest);
    lemma_extent_end(lines, s + 1, f);
    let end = group_end(lines, s, rest);
    lemma_peel(lines, s + 1, end);
    lemma_peeled_between(lines, s + 1, end);
    let p0 = peel(lines, s + 1, end);
    lemma_extent_stop(lines, s + 1, f);
    if end < lines.len() {
        lemma_fresh_stops_under(content(lines[end]), f);
    }
    assert forall|x: int|
        group_peeled(lines, s, rest) <= x < end implies commentary(content(#[trigger] lines[x])) by {
        if x >= p0 {
            assert(between_properties(content(lines[x])));
        }
    }
}

pub proof fn lemma_fresh_stops_under(c: Seq<char>, f: bool)
    requires
        !continues_property(c, f),
    ensures
        !continues_property(c, false),
{
}

pub proof fn lemma_extent_stop(lines: Seq<Seq<char>>, j: int, f: bool)
    requires
        0 <= j <= lines.len(),
    ensures
        extent_end(lines, j, f) == lines.len() || !continues_property(
            content(lines[extent_end(lines, j, f)]),
            f,
        ),
    decreases lines.len() - j,
{
    if j < lines.len() && continues_property(content(lines[j]), f) {
        lemma_extent_stop(lines, j + 1, f);
    }
}

/// Replacing the lines of the property item `j` by one property line
/// regroups as the items with item `j` replaced.
#[verifier::spinoff_prover]
pub proof fn lemma_replace_group(lines: Seq<Seq<char>>, j: int, line: Seq<char>, p: PropertyModel) -> (new: Seq<Seq<char>>)
    requires
        0 <= j < classify_from(lines, 0).len(),
        classify_from(lines, 0)[j] is Property,
        reads_back(line, p),
    ensures
        classify_from(new, 0) == classify_from(lines, 0).update(j, ItemModel::Property(p)),
        forall|x: int| 0 <= x < new.len() ==> #[trigger] new[x] == line || exists|y: int| 0 <= y < lines.len() && new[x] == lines[y],
{
    let s = lemma_find_group(lines, 0, j);
    let (key, rest) = key_line(content(lines[s])).unwrap();
    lemma_key_line_fresh(lines[s]);
    lemma_classify_cut(lines, 0, s);
    lemma_group_tail(lines, s, key, rest);
    let pe = group_peeled(lines, s, rest);
    let end = group_end(lines, s, rest);
    let x = classify_from(lines.take(s), 0);
    let r = lines.skip(pe);
    let new = lines.take(s) + seq![line] + r;
    assert forall|y: int| 0 <= y < end - pe implies commentary(content(#[trigger] r[y])) by {
        assert(r[y] == lines[pe + y]);
    }
    if end < lines.len() {
        assert(r[end - pe] == lines[end]);
    }
    lemma_fresh_group(line, p, r, end - pe);
    lemma_key_line_fresh(line);
    assert(new[s] == line);
    lemma_classify_cut(new, 0, s);
    assert(new.take(s) =~= lines.take(s));
    lemma_classify_shift(new, s);
    assert(new.skip(s) =~= seq![line] + r);
    lemma_classify_shift(r, end - pe);
    lemma_classify_shift(lines, end);
    assert(r.skip(end - pe) =~= lines.skip(end));
    assert(r.take(end - pe) =~= lines.subrange(pe, end));
    let g = property_group(lines, s, key, rest);
    assert(classify_from(lines, 0) == x + g + classify_from(lines, end));
    assert(g == seq![g[0]] + raw_items(lines.subrange(pe, end)));
    assert(classify_from(new, 0) =~= classify_from(lines, 0).update(j, ItemModel::Property(p)));
    assert forall|z: int| 0 <= z < new.len() implies #[trigger] new[z] == line || exists|y: int| 0 <= y < lines.len() && new[z] == lines[y] by {
        if z < s {
            assert(new[z] == lines[z]);
        } else if z > s {
            assert(new[z] == lines[pe + z - s - 1]);
        }
    }
    new
}

/// Appending one property line regroups as the items with the property
/// appended.
pub proof fn lemma_append_group(lines: Seq<Seq<char>>, line: Seq<char>, p: PropertyModel)
    requires
        reads_back(line, p),
    ensures
        classify_from(lines.push(line), 0) == classify_from(lines, 0).push(ItemModel::Property(p)),
{
    let new = lines.push(line);
    let n = lines.len() as int;
    lemma_key_line_fresh(line);
    lemma_classify_cut(new, 0, n);
    assert(new.take(n) =~= lines);
    lemma_classify_shift(new, n);
    assert(new.skip(n) =~= seq![line] + Seq::<Seq<char>>::empty());
    lemma_fresh_group(line, p, Seq::<Seq<char>>::empty(), 0);
    assert(raw_items(Seq::<Seq<char>>::empty().take(0)) =~= Seq::<ItemModel>::empty());
    assert(classify_from(Seq::<Seq<char>>::empty(), 0) =~= Seq::<ItemModel>::empty());
    assert(classify_from(new, 0) =~= classify_from(lines, 0).push(ItemModel::Property(p)));
}

/// Peeling stops at the first line from the end that is not between
/// properties.
pub proof fn lemma_peel_exact(lines: Seq<Seq<char>>, lo: int, q: int, hi: int)
    requires
        0 <= lo <= q <= hi <= lines.len(),
        forall|x: int| q <= x < hi ==> between_properties(content(#[trigger] lines[x])),
        q == lo || !between_properties(content(lines[q - 1])),
    ensures
        peel(lines, lo, hi) == q,
    decreases hi - lo,
{
    if hi > q {
        lemma_peel_exact(lines, lo, q, hi - 1);
    }
}

/// What a property spanning several lines needs to read back as itself:
/// a key line with nothing after the colon, then indented lines that are
/// not commentary.
pub open spec fn lines_read_back(nl: Seq<Seq<char>>, p: PropertyModel) -> bool {
    &&& nl.len() >= 2
    &&& key_line(content(nl[0])) matches Some((key, rest))
    &&& key == p.key
    &&& blank_line(rest)
    &&& p.value == parsed_value(rest, contents(nl.skip(1)))
    &&& p.raw == crate::frontmatter::lines::concat(nl)
    &&& forall|x: int|
        1 <= x < nl.len() ==> {
            &&& content(#[trigger] nl[x]).len() > 0
            &&& content(nl[x])[0] == ' '
            &&& !commentary(content(nl[x]))
        }
}

/// A property spanning several lines, spliced in front of lines between
/// properties that end where a fresh item starts, groups as itself.
#[verifier::spinoff_prover]
pub proof fn lemma_lines_group(nl: Seq<Seq<char>>, p: PropertyModel, r: Seq<Seq<char>>, m: int)
    requires
        lines_read_back(nl, p),
        0 <= m <= r.len(),
        forall|x: int| 0 <= x < m ==> between_properties(content(#[trigger] r[x])),
        m == r.len() || !continues_property(content(r[m]), true),
    ensures
        classify_from(nl + r, 0) == seq![ItemModel::Property(p)] + raw_items(r.take(m))
            + classify_from(r, m),
{
    let n = nl + r;
    let a = nl.len() as int;
    let (key, rest) = key_line(content(nl[0])).unwrap();
    assert(n[0] == nl[0]);
    assert forall|x: int| 1 <= x < a + m implies continues_property(content(#[trigger] n[x]), true) by {
        if x < a {
            assert(n[x] == nl[x]);
        } else {
            assert(n[x] == r[x - a]);
        }
    }
    if m < r.len() {
        assert(n[a + m] == r[m]);
    }
    lemma_extent_exact(n, 1, a + m, true);
    let end = group_end(n, 0, rest);
    assert(end == a + m);
    assert forall|x: int| a <= x < end implies between_properties(content(#[trigger] n[x])) by {
        assert(n[x] == r[x - a]);
    }
    assert(n[a - 1] == nl[a - 1]);
    assert(!between_properties(content(n[a - 1])));
    lemma_peel_exact(n, 1, a, end);
    assert(n[1] == nl[1]);
    assert(!all_commentary(n, 1, a));
    assert(group_peeled(n, 0, rest) == a);
    assert(n.subrange(1, a) =~= nl.skip(1));
    assert(n.subrange(0, a) =~= nl);
    assert(n.subrange(a, end) =~= r.take(m));
    let g = property_group(n, 0, key, rest);
    assert(g == seq![ItemModel::Property(p)] + raw_items(r.take(m)));
    lemma_classify_shift(n, end);
    lemma_classify_shift(r, m);
    assert(n.skip(end) =~= r.skip(m));
}

/// Whether the lines a property group at `s` peels off are all between
/// properties, up to a line that not even a list continues over: a
/// property written over several lines in its place would keep them out.
pub open spec fn tail_fits(lines: Seq<Seq<char>>, s: int, rest: Seq<char>) -> bool {
    &&& forall|x: int|
        group_peeled(lines, s, rest) <= x < group_end(lines, s, rest) ==> between_properties(
            content(#[trigger] lines[x]),
        )
    &&& (group_end(lines, s, rest) == lines.len() || !continues_property(
        content(lines[group_end(lines, s, rest)]),
        true,
    ))
}

/// Whether a group keyed `key` at line `s`, if any, has a tail that fits.
pub open spec fn fits_at(lines: Seq<Seq<char>>, s: int, key: Seq<char>) -> bool {
    match key_line(content(lines[s])) {
        Some((k, rest)) => k == key ==> tail_fits(lines, s, rest),
        None => true,
    }
}

/// Replacing the lines of the property item `j` by the lines of a
/// property spanning several lines regroups as the items with item `j`
/// replaced, where the replaced group's tail fits.
#[verifier::spinoff_prover]
#[verifier::rlimit(40)]
pub proof fn lemma_replace_lines(lines: Seq<Seq<char>>, j: int, nl: Seq<Seq<char>>, p: PropertyModel) -> (new: Seq<Seq<char>>)
    requires
        0 <= j < classify_from(lines, 0).len(),
        classify_from(lines, 0)[j] matches ItemModel::Property(q) && q.key == p.key,
        lines_read_back(nl, p),
        forall|s: int| 0 <= s < lines.len() ==> #[trigger] fits_at(lines, s, p.key),
    ensures
        classify_from(new, 0) == classify_from(lines, 0).update(j, ItemModel::Property(p)),
        forall|x: int| 0 <= x < new.len() ==> drawn_from(#[trigger] new[x], nl, lines),
{
    let s = lemma_find_group(lines, 0, j);
    let (key, rest) = key_line(content(lines[s])).unwrap();
    lemma_key_line_fresh(lines[s]);
    lemma_classify_cut(lines, 0, s);
    lemma_group_tail(lines, s, key, rest);
    let pe = group_peeled(lines, s, rest);
    let end = group_end(lines, s, rest);
    let x = classify_from(lines.take(s), 0);
    let g = property_group(lines, s, key, rest);
    assert(classify_from(lines, 0) == x + g + classify_from(lines, end));
    assert(classify_from(lines, 0)[j] == g[0]);
    assert(key == p.key);
    assert(fits_at(lines, s, p.key));
    assert(tail_fits(lines, s, rest));
    let r = lines.skip(pe);
    let a = nl.len() as int;
    let new = lines.take(s) + nl + r;
    assert forall|y: int| 0 <= y < end - pe implies between_properties(content(#[trigger] r[y])) by {
        assert(r[y] == lines[pe + y]);
    }
    if end < lines.len() {
        assert(r[end - pe] == lines[end]);
    }
    lemma_lines_group(nl, p, r, end - pe);
    lemma_key_line_fresh(nl[0]);
    assert(new[s] == nl[0]);
    lemma_classify_cut(new, 0, s);
    assert(new.take(s) =~= lines.take(s));
    lemma_classify_shift(new, s);
    assert(new.skip(s) =~= nl + r);
    lemma_classify_shift(r, end - pe);
    lemma_classify_shift(lines, end);
    assert(r.skip(end - pe) =~= lines.skip(end));
    assert(r.take(end - pe) =~= lines.subrange(pe, end));
    assert(g == seq![g[0]] + raw_items(lines.subrange(pe, end)));
    assert(classify_from(new, 0) =~= classify_from(lines, 0).update(j, ItemModel::Property(p)));
    lemma_splice_members(lines, nl, s, pe, new);
    new
}

/// Every line of a splice is a spliced line or one of the original lines.
pub proof fn lemma_splice_members(lines: Seq<Seq<char>>, nl: Seq<Seq<char>>, s: int, pe: int, new: Seq<Seq<char>>)
    requires
        0 <= s <= pe <= lines.len(),
        new == lines.take(s) + nl + lines.skip(pe),
    ensures
        forall|x: int| 0 <= x < new.len() ==> drawn_from(#[trigger] new[x], nl, lines),
{
    let a = nl.len() as int;
    assert forall|z: int| 0 <= z < new.len() implies drawn_from(#[trigger] new[z], nl, lines) by {
        if z < s {
            assert(new[z] == lines[z]);
        } else if z < s + a {
            assert(new[z] == nl[z - s]);
        } else {
            assert(new[z] == lines[pe + z - s - a]);
        }
    }
}

/// Whether `l` is one of the lines of `nl` or of `lines`.
pub open spec fn drawn_from(l: Seq<char>, nl: Seq<Seq<char>>, lines: Seq<Seq<char>>) -> bool {
    (exists|y: int| 0 <= y < nl.len() && l == #[trigger] nl[y]) || (exists|y: int|
        0 <= y < lines.len() && l == #[trigger] lines[y])
}

/// Appending the lines of a property spanning several lines regroups as
/// the items with the property appended.
pub proof fn lemma_append_lines(lines: Seq<Seq<char>>, nl: Seq<Seq<char>>, p: PropertyModel)
    requires
        lines_read_back(nl, p),
    ensures
        classify_from(lines + nl, 0) == classify_from(lines, 0).push(ItemModel::Property(p)),
{
    let new = lines + nl;
    let n = lines.len() as int;
    lemma_key_line_fresh(nl[0]);
    assert(new[n] == nl[0]);
    lemma_classify_cut(new, 0, n);
    assert(new.take(n) =~= lines);
    lemma_classify_shift(new, n);
    assert(new.skip(n) =~= nl + Seq::<Seq<char>>::empty());
    lemma_lines_group(nl, p, Seq::<Seq<char>>::empty(), 0);
    assert(raw_items(Seq::<Seq<char>>::empty().take(0)) =~= Seq::<ItemModel>::empty());
    assert(classify_from(Seq::<Seq<char>>::empty(), 0) =~= Seq::<ItemModel>::empty());
    assert(classify_from(new, 0) =~= classify_from(lines, 0).push(ItemModel::Property(p)));
}

} // verus!
