//! Character-level text helpers shared by the note editing modules.
//!
//! Notes are handled as sequences of characters: every offset in this
//! crate counts characters, never bytes, so slicing can never split one.
use vstd::prelude::*;

verus! {

/// The characters of `s`, in order.
pub fn chars_of(s: &str) -> (out: Vec<char>)
    ensures
        out@ == s@,
{
    let mut out: Vec<char> = Vec::new();
    for c in it: s.chars()
        invariant
            out@ == it.seq().take(it.index() as int),
    {
        out.push(c);
    }
    out
}

/// Collects characters into a `String`; wraps std's `FromIterator`, which
/// appends the characters in order.
#[verifier::external_body]
pub(crate) fn string_of(chars: &[char]) -> (out: String)
    ensures
        out@ == chars@,
{
    chars.iter().collect()
}

/// A copy of `s`.
pub fn copied(s: &[char]) -> (out: Vec<char>)
    ensures
        out@ == s@,
{
    vstd::slice::slice_to_vec(s)
}

/// A copy of `s[from..to]`.
pub fn sliced(s: &[char], from: usize, to: usize) -> (out: Vec<char>)
    requires
        from <= to <= s@.len(),
    ensures
        out@ == s@.subrange(from as int, to as int),
{
    let mut out: Vec<char> = Vec::new();
    let mut i: usize = from;
    while i < to
        invariant
            from <= i <= to <= s@.len(),
            out@ == s@.subrange(from as int, i as int),
        decreases to - i,
    {
        out.push(s[i]);
        i += 1;
    }
    out
}

/// Appends `s[from..to]` to `out`.
pub fn push_range(out: &mut Vec<char>, s: &[char], from: usize, to: usize)
    requires
        from <= to <= s@.len(),
    ensures
        final(out)@ == old(out)@ + s@.subrange(from as int, to as int),
{
    let mut i: usize = from;
    while i < to
        invariant
            from <= i <= to <= s@.len(),
            out@ == old(out)@ + s@.subrange(from as int, i as int),
        decreases to - i,
    {
        out.push(s[i]);
        i += 1;
    }
}

/// Appends all of `s` to `out`.
pub fn push_all(out: &mut Vec<char>, s: &[char])
    ensures
        final(out)@ == old(out)@ + s@,
{
    push_range(out, s, 0, s.len());
    assert(s@.subrange(0, s@.len() as int) =~= s@);
}

/// The sets of characters that text is trimmed or scanned by.
#[derive(Clone, Copy, PartialEq, Eq, Debug)]
pub enum CharClass {
    /// Space and tab, YAML's separation whitespace.
    Blank,
    /// The space alone.
    Space,
    /// Space, tab, carriage return, and newline.
    Whitespace,
    /// Carriage return and newline.
    LineEnd,
    /// The number sign.
    Hash,
    /// The ASCII digits.
    Digit,
}

pub open spec fn in_class(class: CharClass, c: char) -> bool {
    match class {
        CharClass::Blank => c == ' ' || c == '\t',
        CharClass::Space => c == ' ',
        CharClass::Whitespace => c == ' ' || c == '\t' || c == '\r' || c == '\n',
        CharClass::LineEnd => c == '\r' || c == '\n',
        CharClass::Hash => c == '#',
        CharClass::Digit => '0' <= c && c <= '9',
    }
}

/// Whether `c` belongs to `class`.
pub fn is_in(class: CharClass, c: char) -> (b: bool)
    ensures
        b == in_class(class, c),
{
    match class {
        CharClass::Blank => c == ' ' || c == '\t',
        CharClass::Space => c == ' ',
        CharClass::Whitespace => c == ' ' || c == '\t' || c == '\r' || c == '\n',
        CharClass::LineEnd => c == '\r' || c == '\n',
        CharClass::Hash => c == '#',
        CharClass::Digit => '0' <= c && c <= '9',
    }
}

/// The length of the longest prefix of `s` drawn from `class`.
pub open spec fn leading(class: CharClass, s: Seq<char>) -> nat
    decreases s.len(),
{
    if s.len() > 0 && in_class(class, s[0]) {
        1 + leading(class, s.drop_first())
    } else {
        0
    }
}

/// The length of the longest suffix of `s` drawn from `class`.
pub open spec fn trailing(class: CharClass, s: Seq<char>) -> nat
    decreases s.len(),
{
    if s.len() > 0 && in_class(class, s.last()) {
        1 + trailing(class, s.drop_last())
    } else {
        0
    }
}

/// `s` without its leading `class` characters.
pub open spec fn trim_start(class: CharClass, s: Seq<char>) -> Seq<char> {
    s.skip(leading(class, s) as int)
}

/// `s` without its trailing `class` characters.
pub open spec fn trim_end(class: CharClass, s: Seq<char>) -> Seq<char> {
    s.take(s.len() - trailing(class, s))
}

/// `s` without leading or trailing `class` characters.
pub open spec fn trim(class: CharClass, s: Seq<char>) -> Seq<char> {
    trim_end(class, trim_start(class, s))
}

pub proof fn lemma_leading_bound(class: CharClass, s: Seq<char>)
    ensures
        leading(class, s) <= s.len(),
        forall|j: int| 0 <= j < leading(class, s) ==> in_class(class, #[trigger] s[j]),
        leading(class, s) < s.len() ==> !in_class(class, s[leading(class, s) as int]),
    decreases s.len(),
{
    if s.len() > 0 && in_class(class, s[0]) {
        lemma_leading_bound(class, s.drop_first());
        assert forall|j: int| 0 <= j < leading(class, s) implies in_class(class, #[trigger] s[j]) by {
            if j > 0 {
                assert(s[j] == s.drop_first()[j - 1]);
            }
        }
        if leading(class, s) < s.len() {
            assert(s[leading(class, s) as int] == s.drop_first()[leading(class, s.drop_first()) as int]);
        }
    }
}

/// `leading` is pinned by its two defining facts.
pub proof fn lemma_leading_is(class: CharClass, s: Seq<char>, n: int)
    requires
        0 <= n <= s.len(),
        forall|j: int| 0 <= j < n ==> in_class(class, #[trigger] s[j]),
        n < s.len() ==> !in_class(class, s[n]),
    ensures
        leading(class, s) == n,
    decreases n,
{
    if n > 0 {
        assert forall|j: int| 0 <= j < n - 1 implies in_class(class, #[trigger] s.drop_first()[j]) by {
            assert(s.drop_first()[j] == s[j + 1]);
        }
        if n - 1 < s.drop_first().len() {
            assert(s.drop_first()[n - 1] == s[n]);
        }
        lemma_leading_is(class, s.drop_first(), n - 1);
    }
}

pub proof fn lemma_trailing_bound(class: CharClass, s: Seq<char>)
    ensures
        trailing(class, s) <= s.len(),
        forall|j: int|
            s.len() - trailing(class, s) <= j < s.len() ==> in_class(class, #[trigger] s[j]),
        trailing(class, s) < s.len() ==> !in_class(class, s[s.len() - trailing(class, s) - 1]),
    decreases s.len(),
{
    if s.len() > 0 && in_class(class, s.last()) {
        lemma_trailing_bound(class, s.drop_last());
        assert forall|j: int|
            s.len() - trailing(class, s) <= j < s.len() implies in_class(class, #[trigger] s[j]) by {
            if j < s.len() - 1 {
                assert(s[j] == s.drop_last()[j]);
            }
        }
        if trailing(class, s) < s.len() {
            assert(s[s.len() - trailing(class, s) - 1] == s.drop_last()[s.drop_last().len()
                - trailing(class, s.drop_last()) - 1]);
        }
    }
}

/// `trailing` is pinned by its two defining facts.
pub proof fn lemma_trailing_is(class: CharClass, s: Seq<char>, n: int)
    requires
        0 <= n <= s.len(),
        forall|j: int| s.len() - n <= j < s.len() ==> in_class(class, #[trigger] s[j]),
        n < s.len() ==> !in_class(class, s[s.len() - n - 1]),
    ensures
        trailing(class, s) == n,
    decreases n,
{
    if n > 0 {
        let d = s.drop_last();
        assert forall|j: int| d.len() - (n - 1) <= j < d.len() implies in_class(class, #[trigger] d[j]) by {
            assert(d[j] == s[j]);
        }
        if n - 1 < d.len() {
            assert(d[d.len() - (n - 1) - 1] == s[s.len() - n - 1]);
        }
        lemma_trailing_is(class, d, n - 1);
    }
}

/// The number of leading `class` characters of `s[from..to]`.
pub fn leading_count(class: CharClass, s: &[char], from: usize, to: usize) -> (n: usize)
    requires
        from <= to <= s@.len(),
    ensures
        n == leading(class, s@.subrange(from as int, to as int)),
        from + n <= to,
{
    let ghost t = s@.subrange(from as int, to as int);
    let mut i: usize = from;
    while i < to && is_in(class, s[i])
        invariant
            from <= i <= to <= s@.len(),
            t == s@.subrange(from as int, to as int),
            forall|j: int| 0 <= j < i - from ==> in_class(class, #[trigger] t[j]),
        decreases to - i,
    {
        i += 1;
    }
    proof {
        lemma_leading_is(class, t, (i - from) as int);
    }
    i - from
}

/// The number of trailing `class` characters of `s[from..to]`.
pub fn trailing_count(class: CharClass, s: &[char], from: usize, to: usize) -> (n: usize)
    requires
        from <= to <= s@.len(),
    ensures
        n == trailing(class, s@.subrange(from as int, to as int)),
        from + n <= to,
{
    let ghost t = s@.subrange(from as int, to as int);
    let mut i: usize = to;
    while i > from && is_in(class, s[i - 1])
        invariant
            from <= i <= to <= s@.len(),
            t == s@.subrange(from as int, to as int),
            forall|j: int| i - from <= j < t.len() ==> in_class(class, #[trigger] t[j]),
        decreases i - from,
    {
        i -= 1;
    }
    proof {
        lemma_trailing_is(class, t, (to - i) as int);
    }
    to - i
}

/// The index of the first `c` in `s` at or after `from`, if any.
pub open spec fn find_from(s: Seq<char>, c: char, from: int) -> Option<int>
    decreases s.len() - from,
{
    if from < 0 || from >= s.len() {
        None
    } else if s[from] == c {
        Some(from)
    } else {
        find_from(s, c, from + 1)
    }
}

pub proof fn lemma_find_from(s: Seq<char>, c: char, from: int)
    requires
        0 <= from,
    ensures
        find_from(s, c, from) matches Some(i) ==> from <= i < s.len() && s[i] == c && forall|
            j: int,
        | from <= j < i ==> s[j] != c,
        find_from(s, c, from) is None ==> forall|j: int| from <= j < s.len() ==> s[j] != c,
    decreases s.len() - from,
{
    if from < s.len() && s[from] != c {
        lemma_find_from(s, c, from + 1);
    }
}

/// The first `c` in `s` at or after `from`.
pub fn find_char(s: &[char], c: char, from: usize) -> (r: Option<usize>)
    ensures
        r == (match find_from(s@, c, from as int) {
            Some(i) => Some(i as usize),
            None => None::<usize>,
        }),
        r matches Some(i) ==> from <= i < s@.len() && s@[i as int] == c && find_from(
            s@,
            c,
            from as int,
        ) == Some(i as int),
        r is None ==> forall|j: int| from <= j < s@.len() ==> s@[j] != c,
        r is None ==> find_from(s@, c, from as int) is None,
{
    proof {
        lemma_find_from(s@, c, from as int);
    }
    let mut i: usize = from;
    while i < s.len()
        invariant
            from <= i,
            find_from(s@, c, from as int) == find_from(s@, c, i as int),
        decreases s.len() - i,
    {
        if s[i] == c {
            return Some(i);
        }
        i += 1;
    }
    None
}

/// Whether `s` begins with `prefix`.
pub open spec fn starts_with(s: Seq<char>, prefix: Seq<char>) -> bool {
    prefix.len() <= s.len() && s.take(prefix.len() as int) == prefix
}

/// Whether `s` ends with `suffix`.
pub open spec fn ends_with(s: Seq<char>, suffix: Seq<char>) -> bool {
    suffix.len() <= s.len() && s.skip(s.len() - suffix.len()) == suffix
}

/// Whether `s[at..]` begins with `prefix`.
pub fn starts_with_at(s: &[char], at: usize, prefix: &[char]) -> (b: bool)
    requires
        at <= s@.len(),
    ensures
        b == starts_with(s@.skip(at as int), prefix@),
{
    if s.len() - at < prefix.len() {
        return false;
    }
    let mut i: usize = 0;
    while i < prefix.len()
        invariant
            at + prefix@.len() <= s@.len(),
            s@.len() == s.len(),
            i <= prefix@.len(),
            forall|j: int| 0 <= j < i ==> s@[at + j] == prefix@[j],
        decreases prefix.len() - i,
    {
        if s[at + i] != prefix[i] {
            assert(s@.skip(at as int).take(prefix@.len() as int)[i as int] != prefix@[i as int]);
            return false;
        }
        i += 1;
    }
    assert(s@.skip(at as int).take(prefix@.len() as int) =~= prefix@);
    true
}

/// Whether `s[from..to]` ends with `suffix`.
pub fn ends_with_in(s: &[char], from: usize, to: usize, suffix: &[char]) -> (b: bool)
    requires
        from <= to <= s@.len(),
    ensures
        b == ends_with(s@.subrange(from as int, to as int), suffix@),
{
    let ghost t = s@.subrange(from as int, to as int);
    if to - from < suffix.len() {
        return false;
    }
    let start: usize = to - suffix.len();
    let mut i: usize = 0;
    while i < suffix.len()
        invariant
            from <= start,
            start + suffix@.len() == to <= s@.len(),
            t == s@.subrange(from as int, to as int),
            i <= suffix@.len(),
            forall|j: int| 0 <= j < i ==> s@[start + j] == suffix@[j],
        decreases suffix.len() - i,
    {
        if s[start + i] != suffix[i] {
            assert(t.skip(t.len() - suffix@.len())[i as int] != suffix@[i as int]);
            return false;
        }
        i += 1;
    }
    assert(t.skip(t.len() - suffix@.len()) =~= suffix@);
    true
}

/// Whether some character of `s` is `c`.
pub open spec fn has_char(s: Seq<char>, c: char) -> bool {
    exists|i: int| 0 <= i < s.len() && s[i] == c
}

/// Whether `s[from..to]` holds `c`.
pub fn contains_char(s: &[char], from: usize, to: usize, c: char) -> (b: bool)
    requires
        from <= to <= s@.len(),
    ensures
        b == has_char(s@.subrange(from as int, to as int), c),
{
    let ghost t = s@.subrange(from as int, to as int);
    let mut i: usize = from;
    while i < to
        invariant
            from <= i <= to <= s@.len(),
            t == s@.subrange(from as int, to as int),
            forall|j: int| 0 <= j < i - from ==> t[j] != c,
        decreases to - i,
    {
        if s[i] == c {
            assert(t[i - from] == c);
            return true;
        }
        i += 1;
    }
    false
}

/// Whether `s` holds `pattern` anywhere.
pub open spec fn has_infix(s: Seq<char>, pattern: Seq<char>) -> bool {
    exists|i: int| 0 <= i <= s.len() - pattern.len() && #[trigger] s.subrange(i, i + pattern.len()) == pattern
}

/// Whether `s` holds `pattern` anywhere.
pub fn contains_infix(s: &[char], pattern: &[char]) -> (b: bool)
    ensures
        b == has_infix(s@, pattern@),
{
    if pattern.len() > s.len() {
        return false;
    }
    if pattern.len() == 0 {
        assert(s@.subrange(0int, 0int + pattern@.len()) =~= pattern@);
        return true;
    }
    let mut i: usize = 0;
    while i <= s.len() - pattern.len()
        invariant
            0 < pattern@.len() <= s@.len(),
            s@.len() == s.len(),
            i <= s@.len() - pattern@.len() + 1,
            forall|k: int| 0 <= k < i ==> #[trigger] s@.subrange(k, k + pattern@.len()) != pattern@,
        decreases s.len() - pattern.len() + 1 - i,
    {
        if starts_with_at(s, i, pattern) {
            assert(s@.subrange(i as int, i + pattern@.len()) =~= s@.skip(i as int).take(
                pattern@.len() as int,
            ));
            return true;
        }
        assert(s@.subrange(i as int, i + pattern@.len()) =~= s@.skip(i as int).take(
            pattern@.len() as int,
        ));
        i += 1;
    }
    false
}


/// The text `s` spells with every character that is not plainly printable
/// escaped, as std's `str::escape_debug` renders it.
pub uninterp spec fn debug_escaped(s: Seq<char>) -> Seq<char>;

/// `s` escaped for display inside quotes; wraps std's `str::escape_debug`.
#[verifier::external_body]
pub(crate) fn escape_debug(s: &str) -> (r: String)
    ensures
        r@ == debug_escaped(s@),
{
    s.escape_debug().to_string()
}

/// `a` followed by `b` and `c`, as one string.
pub fn joined(a: &str, b: &str, c: &str) -> (r: String)
    ensures
        r@ == a@ + b@ + c@,
{
    let mut out = chars_of(a);
    let bs = chars_of(b);
    let cs = chars_of(c);
    push_all(&mut out, bs.as_slice());
    push_all(&mut out, cs.as_slice());
    string_of(out.as_slice())
}

/// Whether `c` has the Unicode White_Space property, the characters
/// std's `char::is_whitespace` and `str::trim` treat as white space: tab
/// through carriage return, space, next line, no-break space, ogham space
/// mark, the spaces from en quad to hair space, line and paragraph
/// separator, narrow no-break space, medium mathematical space and
/// ideographic space.
pub open spec fn white_space(c: char) -> bool {
    ||| '\u{9}' <= c <= '\u{d}'
    ||| c == ' '
    ||| c == '\u{85}'
    ||| c == '\u{a0}'
    ||| c == '\u{1680}'
    ||| '\u{2000}' <= c <= '\u{200a}'
    ||| c == '\u{2028}'
    ||| c == '\u{2029}'
    ||| c == '\u{202f}'
    ||| c == '\u{205f}'
    ||| c == '\u{3000}'
}

/// Whether `c` is white space.
fn is_white_space(c: char) -> (b: bool)
    ensures
        b == white_space(c),
{
    ('\u{9}' <= c && c <= '\u{d}') || c == ' ' || c == '\u{85}' || c == '\u{a0}' || c == '\u{1680}'
        || ('\u{2000}' <= c && c <= '\u{200a}') || c == '\u{2028}' || c == '\u{2029}' || c
        == '\u{202f}' || c == '\u{205f}' || c == '\u{3000}'
}

/// The first index from `i` on whose character is not white space, or
/// the end.
pub open spec fn solid_from(s: Seq<char>, i: int) -> int
    decreases s.len() - i,
{
    if i >= s.len() || i < 0 {
        s.len() as int
    } else if white_space(s[i]) {
        solid_from(s, i + 1)
    } else {
        i
    }
}

/// The end of the last character before `j`, and from `lo` on, that is
/// not white space, or `lo`.
pub open spec fn solid_until(s: Seq<char>, j: int, lo: int) -> int
    decreases j - lo,
{
    if j <= lo {
        lo
    } else if white_space(s[j - 1]) {
        solid_until(s, j - 1, lo)
    } else {
        j
    }
}

/// `s` with leading and trailing white space removed, as `str::trim`
/// leaves it.
pub open spec fn trimmed(s: Seq<char>) -> Seq<char> {
    let a = solid_from(s, 0);
    s.subrange(a, solid_until(s, s.len() as int, a))
}

/// `s` with leading and trailing white space removed.
pub fn trim_white(s: &[char]) -> (out: Vec<char>)
    ensures
        out@ == trimmed(s@),
{
    let mut a: usize = 0;
    while a < s.len() && is_white_space(s[a])
        invariant
            a <= s@.len(),
            solid_from(s@, a as int) == solid_from(s@, 0),
        decreases s@.len() - a,
    {
        a += 1;
    }
    let mut b: usize = s.len();
    while b > a && is_white_space(s[b - 1])
        invariant
            a <= b <= s@.len(),
            a == solid_from(s@, 0),
            solid_until(s@, b as int, a as int) == solid_until(s@, s@.len() as int, a as int),
        decreases b,
    {
        b -= 1;
    }
    sliced(s, a, b)
}

/// The pieces of `s[..n]` between the occurrences of `sep`, as
/// `str::split` yields them: one piece more than there are separators.
pub open spec fn pieces(s: Seq<char>, sep: char, n: int) -> Seq<Seq<char>>
    decreases n,
{
    if n <= 0 {
        seq![Seq::empty()]
    } else if s[n - 1] == sep {
        pieces(s, sep, n - 1).push(Seq::empty())
    } else {
        let p = pieces(s, sep, n - 1);
        p.update(p.len() - 1, p.last().push(s[n - 1]))
    }
}

/// Every piece of a split is there.
pub proof fn lemma_pieces_len(s: Seq<char>, sep: char, n: int)
    ensures
        pieces(s, sep, n).len() >= 1,
    decreases n,
{
    if n > 0 {
        lemma_pieces_len(s, sep, n - 1);
    }
}

/// The pieces of `s` between the occurrences of `sep`.
pub fn split_at(s: &[char], sep: char) -> (out: Vec<Vec<char>>)
    ensures
        out@.map_values(|p: Vec<char>| p@) == pieces(s@, sep, s@.len() as int),
{
    let mut out: Vec<Vec<char>> = Vec::new();
    let mut current: Vec<char> = Vec::new();
    let mut i: usize = 0;
    while i < s.len()
        invariant
            i <= s@.len(),
            out@.map_values(|p: Vec<char>| p@).push(current@) == pieces(s@, sep, i as int),
        decreases s@.len() - i,
    {
        proof {
            lemma_pieces_len(s@, sep, i as int);
        }
        if s[i] == sep {
            let ghost before = out@.map_values(|p: Vec<char>| p@);
            let done = current;
            out.push(done);
            current = Vec::new();
            assert(out@.map_values(|p: Vec<char>| p@) =~= before.push(done@));
            assert(out@.map_values(|p: Vec<char>| p@).push(current@) =~= pieces(s@, sep, i + 1));
        } else {
            let ghost p = pieces(s@, sep, i as int);
            current.push(s[i]);
            assert(out@.map_values(|p: Vec<char>| p@).push(current@) =~= p.update(
                p.len() - 1,
                p.last().push(s@[i as int]),
            ));
        }
        i += 1;
    }
    let ghost before = out@.map_values(|p: Vec<char>| p@);
    out.push(current);
    assert(out@.map_values(|p: Vec<char>| p@) =~= before.push(out@.last()@));
    out
}

/// `items` joined into one text with `sep` between neighbors, as
/// `join` on a slice of strings writes it.
pub open spec fn joined_with(items: Seq<Seq<char>>, sep: char) -> Seq<char>
    decreases items.len(),
{
    if items.len() == 0 {
        Seq::empty()
    } else if items.len() == 1 {
        items[0]
    } else {
        joined_with(items.drop_last(), sep).push(sep) + items.last()
    }
}

/// `items` joined with `sep` between neighbors.
pub fn join_with(items: &Vec<String>, sep: char) -> (out: String)
    ensures
        out@ == joined_with(items@.map_values(|s: String| s@), sep),
{
    let ghost all = items@.map_values(|s: String| s@);
    let mut out: Vec<char> = Vec::new();
    let mut i: usize = 0;
    while i < items.len()
        invariant
            i <= items@.len(),
            all == items@.map_values(|s: String| s@),
            out@ == joined_with(all.take(i as int), sep),
        decreases items@.len() - i,
    {
        let piece = chars_of(items[i].as_str());
        proof {
            assert(all[i as int] == items@[i as int]@);
            assert(all.take(i + 1).drop_last() =~= all.take(i as int));
            assert(all.take(i + 1).last() == all[i as int]);
            if i == 0 {
                assert(all.take(0) =~= Seq::<Seq<char>>::empty());
            }
        }
        if i > 0 {
            out.push(sep);
        }
        push_all(&mut out, piece.as_slice());
        proof {
            if i == 0 {
                assert(out@ =~= all[0]);
                assert(all.take(1) =~= seq![all[0]]);
            }
        }
        i += 1;
    }
    assert(all.take(items@.len() as int) =~= all);
    string_of(out.as_slice())
}

} // verus!
