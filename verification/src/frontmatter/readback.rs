//! Written values read back: the spelling [`rendered_scalar`] gives a
//! value is one the scalar reader takes back to that value.
use vstd::prelude::*;

use crate::frontmatter::scalar::{
    escaped, escaped_char, forbidden, hex_from, hex_width, holds_forbidden, needs_quotes,
    plain_or_quoted, rendered_scalar, scalar_of, scan_double_from, scan_single_from,
    simple_escape, syntax_start,
};
use crate::frontmatter::value_problem;
use crate::frontmatter::value::{item_at, list_item, parsed_value, skip_blank, split_inline_from, ParsedModel};
use crate::text::{has_char, leading, trailing, trim, trim_end, trim_start, CharClass};

verus! {

pub proof fn lemma_escaped_append(a: Seq<char>, b: Seq<char>)
    ensures
        escaped(a + b) == escaped(a) + escaped(b),
    decreases b.len(),
{
    if b.len() == 0 {
        assert(a + b =~= a);
        assert(escaped(b) =~= Seq::<char>::empty());
        assert(escaped(a) + escaped(b) =~= escaped(a));
    } else {
        lemma_escaped_append(a, b.drop_last());
        assert((a + b).drop_last() =~= a + b.drop_last());
        assert((a + b).last() == b.last());
        assert(escaped(a + b) =~= escaped(a) + escaped(b));
    }
}

pub proof fn lemma_escaped_front(w: Seq<char>)
    requires
        w.len() > 0,
    ensures
        escaped(w) == escaped_char(w[0]) + escaped(w.skip(1)),
{
    assert(w =~= seq![w[0]] + w.skip(1));
    lemma_escaped_append(seq![w[0]], w.skip(1));
    assert(seq![w[0]].drop_last() =~= Seq::<char>::empty());
    assert(seq![w[0]].last() == w[0]);
    assert(escaped(Seq::<char>::empty()) =~= Seq::<char>::empty());
    assert(escaped(seq![w[0]]) == escaped(seq![w[0]].drop_last()) + escaped_char(w[0]));
    assert(escaped(seq![w[0]]) =~= escaped_char(w[0]));
}

/// Escaping adds no line feed or carriage return.
pub proof fn lemma_escaped_chars(w: Seq<char>, c: char)
    requires
        c != '\\',
        c != '"',
        !has_char(w, c),
    ensures
        !has_char(escaped(w), c),
    decreases w.len(),
{
    if w.len() > 0 {
        assert(!has_char(w.drop_last(), c)) by {
            if has_char(w.drop_last(), c) {
                let i = choose|i: int| 0 <= i < w.drop_last().len() && w.drop_last()[i] == c;
                assert(w[i] == c);
            }
        }
        lemma_escaped_chars(w.drop_last(), c);
        let e = escaped_char(w.last());
        assert(w.last() != c);
        assert(!has_char(escaped(w), c)) by {
            if has_char(escaped(w), c) {
                let i = choose|i: int| 0 <= i < escaped(w).len() && escaped(w)[i] == c;
                if i < escaped(w.drop_last()).len() {
                    assert(escaped(w.drop_last())[i] == c);
                } else {
                    assert(e[i - escaped(w.drop_last()).len()] == c);
                }
            }
        }
    }
}

/// The double-quoted reader takes an escaped spelling back to its value.
pub proof fn lemma_scan_escaped(s: Seq<char>, i: int, w: Seq<char>, acc: Seq<char>)
    requires
        0 <= i,
        i + escaped(w).len() < s.len(),
        s.subrange(i, i + escaped(w).len()) == escaped(w),
        s[i + escaped(w).len()] == '"',
        !holds_forbidden(w),
        !holds_forbidden(acc),
    ensures
        scan_double_from(s, i, acc) == Some((acc + w, i + escaped(w).len() + 1)),
    decreases w.len(),
{
    if w.len() == 0 {
        assert(escaped(w) =~= Seq::<char>::empty());
        assert(acc + w =~= acc);
    } else {
        let c = w[0];
        let r = w.skip(1);
        lemma_escaped_front(w);
        let e = escaped_char(c);
        let j = i + e.len();
        assert(!forbidden(c));
        assert(!holds_forbidden(r)) by {
            if holds_forbidden(r) {
                let x = choose|x: int| 0 <= x < r.len() && forbidden(#[trigger] r[x]);
                assert(w[x + 1] == r[x]);
            }
        }
        assert(!holds_forbidden(acc.push(c))) by {
            if holds_forbidden(acc.push(c)) {
                let x = choose|x: int| 0 <= x < acc.push(c).len() && forbidden(#[trigger] acc.push(c)[x]);
                if x < acc.len() {
                    assert(acc.push(c)[x] == acc[x]);
                }
            }
        }
        assert(s.subrange(i, i + escaped(w).len()).subrange(e.len() as int, escaped(w).len() as int)
            =~= s.subrange(j, j + escaped(r).len()));
        assert((e + escaped(r)).subrange(e.len() as int, escaped(w).len() as int) =~= escaped(r));
        lemma_scan_escaped(s, j, r, acc.push(c));
        assert(acc.push(c) + r =~= acc + w);
        assert(s[i] == escaped(w)[0]);
        if c == '\\' || c == '"' {
            assert(s[i + 1] == escaped(w)[1]);
            assert(simple_escape(s[i + 1]) == Some(c));
        }
    }
}

/// A value with no line break and no forbidden character reads back from
/// its written spelling.
pub proof fn lemma_rendered_reads(v: Seq<char>)
    requires
        !has_char(v, '\n'),
        !has_char(v, '\r'),
        !holds_forbidden(v),
    ensures
        rendered_scalar(v).len() > 0,
        rendered_scalar(v)[0] != ' ' && rendered_scalar(v)[0] != '\t',
        rendered_scalar(v)[0] != '[',
        rendered_scalar(v).last() != ' ' && rendered_scalar(v).last() != '\t',
        rendered_scalar(v).last() != '\r',
        !has_char(rendered_scalar(v), '\n'),
        trim(CharClass::Blank, rendered_scalar(v)) == rendered_scalar(v),
        plain_or_quoted(rendered_scalar(v)) == Some(v),
{
    let rv = rendered_scalar(v);
    if needs_quotes(v) {
        let e = escaped(v);
        assert(rv =~= seq!['"'] + e + seq!['"']);
        assert(rv.subrange(1, 1 + e.len() as int) =~= e);
        lemma_scan_escaped(rv, 1, v, Seq::empty());
        assert(Seq::<char>::empty() + v =~= v);
        assert(!holds_forbidden(Seq::<char>::empty()));
        lemma_escaped_chars(v, '\n');
        assert(!has_char(rv, '\n')) by {
            if has_char(rv, '\n') {
                let x = choose|x: int| 0 <= x < rv.len() && rv[x] == '\n';
                assert(e[x - 1] == '\n');
            }
        }
    } else {
        assert(v.len() > 0);
        assert(leading(CharClass::Blank, v) == 0);
        assert(trailing(CharClass::Blank, v) == 0);
        assert(!syntax_start(v[0]));
        assert(v.last() != '\r') by {
            assert(v[v.len() - 1] == v.last());
        }
    }
    assert(leading(CharClass::Blank, rv) == 0);
    assert(trailing(CharClass::Blank, rv) == 0);
    assert(trim_start(CharClass::Blank, rv) =~= rv);
    assert(trim_end(CharClass::Blank, rv) =~= rv);
}

/// The double-quoted reader never yields a forbidden character.
pub proof fn lemma_scan_double_clean(s: Seq<char>, i: int, acc: Seq<char>)
    ensures
        scan_double_from(s, i, acc) matches Some((l, _)) ==> !holds_forbidden(l),
    decreases s.len() - i,
{
    if 0 <= i < s.len() && s[i] != '"' {
        if s[i] == '\\' {
            if i + 1 < s.len() {
                let e = s[i + 1];
                match simple_escape(e) {
                    Some(x) => lemma_scan_double_clean(s, i + 2, acc.push(x)),
                    None => {
                        if hex_width(e) > 0 {
                            match hex_from(s, i + 2, hex_width(e), 0) {
                                Some(code) => match scalar_of(code) {
                                    Some(ch) => if i + 2 + hex_width(e) <= s.len() {
                                        lemma_scan_double_clean(s, i + 2 + hex_width(e), acc.push(ch));
                                    },
                                    None => {},
                                },
                                None => {},
                            }
                        }
                    },
                }
            }
        } else if !forbidden(s[i]) {
            lemma_scan_double_clean(s, i + 1, acc.push(s[i]));
        }
    }
}

pub proof fn lemma_push_clean(acc: Seq<char>, c: char)
    requires
        !holds_forbidden(acc),
        !forbidden(c),
    ensures
        !holds_forbidden(acc.push(c)),
{
    if holds_forbidden(acc.push(c)) {
        let x = choose|x: int| 0 <= x < acc.push(c).len() && forbidden(#[trigger] acc.push(c)[x]);
        if x < acc.len() {
            assert(acc.push(c)[x] == acc[x]);
        }
    }
}

/// The single-quoted reader never yields a forbidden character.
pub proof fn lemma_scan_single_clean(s: Seq<char>, i: int, acc: Seq<char>)
    requires
        !holds_forbidden(acc),
    ensures
        scan_single_from(s, i, acc) matches Some((l, _)) ==> !holds_forbidden(l),
    decreases s.len() - i,
{
    if 0 <= i < s.len() {
        if s[i] == '\'' {
            if i + 1 < s.len() && s[i + 1] == '\'' {
                lemma_push_clean(acc, '\'');
                lemma_scan_single_clean(s, i + 2, acc.push('\''));
            }
        } else if !forbidden(s[i]) {
            lemma_push_clean(acc, s[i]);
            lemma_scan_single_clean(s, i + 1, acc.push(s[i]));
        }
    }
}

/// A scalar read plain or quoted holds no forbidden character.
pub proof fn lemma_scalar_clean(v: Seq<char>)
    ensures
        plain_or_quoted(v) matches Some(l) ==> !holds_forbidden(l),
{
    lemma_scan_double_clean(v, 1, Seq::empty());
    assert(!holds_forbidden(Seq::<char>::empty()));
    lemma_scan_single_clean(v, 1, Seq::empty());
}

/// A value free of forbidden characters can be written: line breaks are
/// forbidden too.
pub proof fn lemma_clean_writable(v: Seq<char>)
    requires
        !holds_forbidden(v),
    ensures
        value_problem(v) is None,
{
    if has_char(v, '\n') {
        let x = choose|x: int| 0 <= x < v.len() && v[x] == '\n';
        assert(forbidden(v[x]));
    }
    if has_char(v, '\r') {
        let x = choose|x: int| 0 <= x < v.len() && v[x] == '\r';
        assert(forbidden(v[x]));
    }
}

/// Whether no item of `l` holds a forbidden character.
pub open spec fn clean_items(l: Seq<Seq<char>>) -> bool {
    forall|i: int| 0 <= i < l.len() ==> !holds_forbidden(#[trigger] l[i])
}

pub proof fn lemma_item_at_clean(s: Seq<char>, p: int)
    requires
        0 <= p < s.len(),
    ensures
        item_at(s, p) matches Some((item, _)) ==> !holds_forbidden(item),
{
    lemma_scan_double_clean(s, p + 1, Seq::empty());
    assert(!holds_forbidden(Seq::<char>::empty()));
    lemma_scan_single_clean(s, p + 1, Seq::empty());
}

pub proof fn lemma_inline_clean(s: Seq<char>, p: int, items: Seq<Seq<char>>)
    requires
        clean_items(items),
    ensures
        split_inline_from(s, p, items) matches Some(out) ==> clean_items(out),
    decreases s.len() - p,
{
    if 0 <= p < s.len() {
        lemma_item_at_clean(s, p);
        if let Some((item, a)) = item_at(s, p) {
            if p < a <= s.len() {
                assert(clean_items(items.push(item))) by {
                    assert forall|i: int| 0 <= i < items.push(item).len() implies !holds_forbidden(
                        #[trigger] items.push(item)[i],
                    ) by {
                        if i < items.len() {
                            assert(items.push(item)[i] == items[i]);
                        }
                    }
                }
                let q = skip_blank(s, a);
                if q < s.len() && s[q] == ',' {
                    let r = skip_blank(s, q + 1);
                    crate::text::lemma_leading_bound(CharClass::Blank, s.subrange(q + 1, s.len() as int));
                    lemma_inline_clean(s, r, items.push(item));
                }
            }
        }
    }
}

/// Every list a property value reads as holds writable items.
pub proof fn lemma_parsed_writable(rest: Seq<char>, ext: Seq<Seq<char>>)
    ensures
        parsed_value(rest, ext) matches ParsedModel::List(l) ==> forall|i: int|
            0 <= i < l.len() ==> value_problem(#[trigger] l[i]) is None,
{
    if let ParsedModel::List(l) = parsed_value(rest, ext) {
        let value = trim(CharClass::Blank, rest);
        if ext.len() > 0 {
            assert forall|i: int| 0 <= i < l.len() implies value_problem(#[trigger] l[i]) is None by {
                assert(list_item(ext[i]) is Some);
                assert(l[i] == list_item(ext[i]).unwrap());
                let t = trim_start(CharClass::Blank, ext[i]);
                lemma_scalar_clean(trim(CharClass::Blank, t.skip(2)));
                if t == seq!['-'] {
                    assert(!holds_forbidden(Seq::<char>::empty()));
                }
                lemma_clean_writable(l[i]);
            }
        } else {
            let inner = value.subrange(1, value.len() - 1);
            let p0 = skip_blank(inner, 0);
            assert(clean_items(Seq::<Seq<char>>::empty()));
            lemma_inline_clean(inner, p0, Seq::empty());
            assert forall|i: int| 0 <= i < l.len() implies value_problem(#[trigger] l[i]) is None by {
                lemma_clean_writable(l[i]);
            }
        }
    }
}

} // verus!
