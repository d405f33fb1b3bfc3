//! Spelling single values: which characters a property may hold, how a
//! plain or quoted scalar reads, and how a value is written back.
use vstd::prelude::*;

use crate::text::{
    contains_char, has_char, has_infix, leading, leading_count, push_range, sliced, starts_with,
    ends_with, trailing, trailing_count, CharClass,
};

verus! {

/// A control character in Unicode's sense (general category Cc).
pub open spec fn is_control(c: char) -> bool {
    let u = c as u32;
    u <= 0x1f || (0x7f <= u && u <= 0x9f)
}

/// A character no written property may hold: a control character other
/// than tab, a noncharacter YAML's printable set excludes, or a separator
/// older YAML readers treat as a line break.
pub open spec fn forbidden(c: char) -> bool {
    (is_control(c) && c != '\t') || c == '\u{fffe}' || c == '\u{ffff}' || c == '\u{2028}' || c
        == '\u{2029}'
}

/// Whether a value holds a forbidden character.
pub open spec fn holds_forbidden(s: Seq<char>) -> bool {
    exists|i: int| 0 <= i < s.len() && forbidden(#[trigger] s[i])
}

/// Whether `c` is a control character.
pub fn control(c: char) -> (b: bool)
    ensures
        b == is_control(c),
{
    let u = c as u32;
    u <= 0x1f || (0x7f <= u && u <= 0x9f)
}

/// Whether a character can never appear in a written property.
pub fn forbidden_character(c: char) -> (b: bool)
    ensures
        b == forbidden(c),
{
    (control(c) && c != '\t') || c == '\u{fffe}' || c == '\u{ffff}' || c == '\u{2028}' || c
        == '\u{2029}'
}

/// Whether `s[from..to]` holds a character the subset can never write.
pub fn holds_forbidden_character(s: &[char], from: usize, to: usize) -> (b: bool)
    requires
        from <= to <= s@.len(),
    ensures
        b == holds_forbidden(s@.subrange(from as int, to as int)),
{
    let ghost t = s@.subrange(from as int, to as int);
    let mut i: usize = from;
    while i < to
        invariant
            from <= i <= to <= s@.len(),
            t == s@.subrange(from as int, to as int),
            forall|j: int| 0 <= j < i - from ==> !forbidden(#[trigger] t[j]),
        decreases to - i,
    {
        if forbidden_character(s[i]) {
            assert(forbidden(t[i - from]));
            return true;
        }
        i += 1;
    }
    false
}

/// Whether a plain value starting with `c` would read as YAML syntax.
pub open spec fn syntax_start(c: char) -> bool {
    c == '?' || c == ':' || c == ',' || c == '[' || c == ']' || c == '{' || c == '}' || c == '#'
        || c == '&' || c == '*' || c == '!' || c == '|' || c == '>' || c == '\'' || c == '"' || c
        == '%' || c == '@' || c == '`'
}

/// Whether a plain spelling of `value` would misread: as empty, as
/// trimmed, as YAML syntax, or as a comment. A tab always forces quotes.
pub open spec fn needs_quotes(value: Seq<char>) -> bool {
    ||| value.len() == 0
    ||| leading(CharClass::Blank, value) > 0
    ||| trailing(CharClass::Blank, value) > 0
    ||| syntax_start(value[0])
    ||| value == seq!['-']
    ||| starts_with(value, seq!['-', ' '])
    ||| has_infix(value, seq![':', ' '])
    ||| ends_with(value, seq![':'])
    ||| has_infix(value, seq![' ', '#'])
    ||| has_char(value, '\t')
}

/// Whether `s[from..to]` holds `a` directly followed by `b`.
pub fn contains_pair(s: &[char], from: usize, to: usize, a: char, b: char) -> (r: bool)
    requires
        from <= to <= s@.len(),
    ensures
        r == has_infix(s@.subrange(from as int, to as int), seq![a, b]),
{
    let ghost t = s@.subrange(from as int, to as int);
    let ghost p = seq![a, b];
    if to - from < 2 {
        return false;
    }
    let mut i: usize = from;
    while i + 1 < to
        invariant
            from <= i,
            i < to <= s@.len(),
            to - from >= 2,
            t == s@.subrange(from as int, to as int),
            p == seq![a, b],
            forall|k: int| 0 <= k < i - from ==> #[trigger] t.subrange(k, k + 2) != p,
        decreases to - i,
    {
        if s[i] == a && s[i + 1] == b {
            assert(t.subrange(i - from, i - from + 2) =~= p);
            return true;
        }
        assert(t.subrange(i - from, i - from + 2)[0] == s@[i as int]);
        assert(t.subrange(i - from, i - from + 2)[1] == s@[i + 1]);
        i += 1;
    }
    assert forall|k: int| 0 <= k <= t.len() - p.len() implies #[trigger] t.subrange(k, k + p.len())
        != p by {
        assert(k < i - from);
    }
    false
}

/// Exec check of [`needs_quotes`] on `s[from..to]`.
pub fn needs_quoting(s: &[char], from: usize, to: usize) -> (r: bool)
    requires
        from <= to <= s@.len(),
    ensures
        r == needs_quotes(s@.subrange(from as int, to as int)),
{
    let ghost v = s@.subrange(from as int, to as int);
    if from == to {
        return true;
    }
    let lead = leading_count(CharClass::Blank, s, from, to);
    let trail = trailing_count(CharClass::Blank, s, from, to);
    let first = s[from];
    assert(v[0] == first);
    let dash_only = to - from == 1 && first == '-';
    assert(dash_only == (v == seq!['-'])) by {
        if to - from == 1 && first == '-' {
            assert(v =~= seq!['-']);
        }
    }
    let dash_space = to - from >= 2 && first == '-' && s[from + 1] == ' ';
    assert(dash_space == starts_with(v, seq!['-', ' '])) by {
        if to - from >= 2 {
            assert(v.take(2)[0] == v[0]);
            assert(v.take(2)[1] == v[1]);
            if dash_space {
                assert(v.take(2) =~= seq!['-', ' ']);
            }
        }
    }
    let colon_end = s[to - 1] == ':';
    assert(colon_end == ends_with(v, seq![':'])) by {
        assert(v.skip(v.len() - 1)[0] == v[v.len() - 1]);
        if colon_end {
            assert(v.skip(v.len() - 1) =~= seq![':']);
        }
    }
    lead > 0 || trail > 0 || syntax_start_char(first) || dash_only || dash_space || contains_pair(
        s,
        from,
        to,
        ':',
        ' ',
    ) || colon_end || contains_pair(s, from, to, ' ', '#') || contains_char(s, from, to, '\t')
}

/// Exec check of [`syntax_start`].
pub fn syntax_start_char(c: char) -> (b: bool)
    ensures
        b == syntax_start(c),
{
    c == '?' || c == ':' || c == ',' || c == '[' || c == ']' || c == '{' || c == '}' || c == '#'
        || c == '&' || c == '*' || c == '!' || c == '|' || c == '>' || c == '\'' || c == '"' || c
        == '%' || c == '@' || c == '`'
}

/// The double-quoted spelling of one character.
pub open spec fn escaped_char(c: char) -> Seq<char> {
    if c == '\\' {
        seq!['\\', '\\']
    } else if c == '"' {
        seq!['\\', '"']
    } else {
        seq![c]
    }
}

/// The double-quoted spelling of a value's characters.
pub open spec fn escaped(s: Seq<char>) -> Seq<char>
    decreases s.len(),
{
    if s.len() == 0 {
        Seq::empty()
    } else {
        escaped(s.drop_last()) + escaped_char(s.last())
    }
}

/// How a logical value is written: plain unless the plain spelling would
/// read back as something else, then double-quoted with backslashes and
/// quotes escaped.
pub open spec fn rendered_scalar(value: Seq<char>) -> Seq<char> {
    if needs_quotes(value) {
        seq!['"'] + escaped(value) + seq!['"']
    } else {
        value
    }
}

/// Appends the written form of `s[from..to]` to `out`.
pub fn push_rendered_scalar(out: &mut Vec<char>, s: &[char], from: usize, to: usize)
    requires
        from <= to <= s@.len(),
    ensures
        final(out)@ == old(out)@ + rendered_scalar(s@.subrange(from as int, to as int)),
{
    let ghost v = s@.subrange(from as int, to as int);
    if needs_quoting(s, from, to) {
        out.push('"');
        let ghost base = out@;
        let mut i: usize = from;
        while i < to
            invariant
                from <= i <= to <= s@.len(),
                v == s@.subrange(from as int, to as int),
                out@ == base + escaped(v.take(i - from)),
            decreases to - i,
        {
            let c = s[i];
            let ghost before = out@;
            if c == '\\' {
                out.push('\\');
                out.push('\\');
            } else if c == '"' {
                out.push('\\');
                out.push('"');
            } else {
                out.push(c);
            }
            assert(v.take(i + 1 - from).drop_last() =~= v.take(i - from));
            assert(v.take(i + 1 - from).last() == c);
            assert(out@ =~= before + escaped_char(c));
            i += 1;
        }
        assert(v.take(to - from) =~= v);
        out.push('"');
        assert(out@ =~= old(out)@ + (seq!['"'] + escaped(v) + seq!['"']));
    } else {
        push_range(out, s, from, to);
    }
}

/// The character a simple backslash escape stands for.
pub open spec fn simple_escape(e: char) -> Option<char> {
    if e == '"' {
        Some('"')
    } else if e == '\\' {
        Some('\\')
    } else if e == '/' {
        Some('/')
    } else if e == ' ' {
        Some(' ')
    } else if e == '0' {
        Some('\0')
    } else if e == 'a' {
        Some('\u{7}')
    } else if e == 'b' {
        Some('\u{8}')
    } else if e == 't' {
        Some('\t')
    } else if e == 'n' {
        Some('\n')
    } else if e == 'v' {
        Some('\u{b}')
    } else if e == 'f' {
        Some('\u{c}')
    } else if e == 'r' {
        Some('\r')
    } else if e == 'e' {
        Some('\u{1b}')
    } else if e == 'N' {
        Some('\u{85}')
    } else if e == '_' {
        Some('\u{a0}')
    } else if e == 'L' {
        Some('\u{2028}')
    } else if e == 'P' {
        Some('\u{2029}')
    } else {
        None
    }
}

/// Exec twin of [`simple_escape`].
pub fn simple_escaped(e: char) -> (r: Option<char>)
    ensures
        r == simple_escape(e),
{
    if e == '"' {
        Some('"')
    } else if e == '\\' {
        Some('\\')
    } else if e == '/' {
        Some('/')
    } else if e == ' ' {
        Some(' ')
    } else if e == '0' {
        Some('\0')
    } else if e == 'a' {
        Some('\u{7}')
    } else if e == 'b' {
        Some('\u{8}')
    } else if e == 't' {
        Some('\t')
    } else if e == 'n' {
        Some('\n')
    } else if e == 'v' {
        Some('\u{b}')
    } else if e == 'f' {
        Some('\u{c}')
    } else if e == 'r' {
        Some('\r')
    } else if e == 'e' {
        Some('\u{1b}')
    } else if e == 'N' {
        Some('\u{85}')
    } else if e == '_' {
        Some('\u{a0}')
    } else if e == 'L' {
        Some('\u{2028}')
    } else if e == 'P' {
        Some('\u{2029}')
    } else {
        None
    }
}

/// The number of hex digits a `\x`, `\u`, or `\U` escape takes.
pub open spec fn hex_width(e: char) -> nat {
    if e == 'x' {
        2
    } else if e == 'u' {
        4
    } else if e == 'U' {
        8
    } else {
        0
    }
}

/// The value of a hex digit.
pub open spec fn hex_value(c: char) -> Option<u32> {
    if '0' <= c && c <= '9' {
        Some((c as u32 - '0' as u32) as u32)
    } else if 'a' <= c && c <= 'f' {
        Some((c as u32 - 'a' as u32 + 10) as u32)
    } else if 'A' <= c && c <= 'F' {
        Some((c as u32 - 'A' as u32 + 10) as u32)
    } else {
        None
    }
}

/// Exec twin of [`hex_value`].
pub fn hex_digit(c: char) -> (r: Option<u32>)
    ensures
        r == hex_value(c),
        r matches Some(d) ==> d < 16,
{
    if '0' <= c && c <= '9' {
        Some(c as u32 - '0' as u32)
    } else if 'a' <= c && c <= 'f' {
        Some(c as u32 - 'a' as u32 + 10)
    } else if 'A' <= c && c <= 'F' {
        Some(c as u32 - 'A' as u32 + 10)
    } else {
        None
    }
}

/// The code point spelled by `n` hex digits of `s` starting at `i`,
/// accumulated onto `code`.
pub open spec fn hex_from(s: Seq<char>, i: int, n: nat, code: int) -> Option<int>
    decreases n,
{
    if n == 0 {
        Some(code)
    } else if i < 0 || i >= s.len() {
        None
    } else {
        match hex_value(s[i]) {
            None => None,
            Some(d) => hex_from(s, i + 1, (n - 1) as nat, code * 16 + d),
        }
    }
}

/// The character a code point names, if any.
pub open spec fn scalar_of(code: int) -> Option<char> {
    if 0 <= code <= 0x10FFFF && !(0xD800 <= code <= 0xDFFF) {
        Some(code as char)
    } else {
        None
    }
}

/// The character `code` names; wraps std's `char::from_u32`, which
/// accepts exactly the Unicode scalar values.
#[verifier::external_body]
pub(crate) fn char_from_code(code: u32) -> (r: Option<char>)
    ensures
        r == scalar_of(code as int),
{
    char::from_u32(code)
}

pub open spec fn pow16(n: nat) -> int
    decreases n,
{
    if n == 0 {
        1
    } else {
        16 * pow16((n - 1) as nat)
    }
}

/// Reads `n` hex digits of `s` from `i`.
fn hex_escape(s: &[char], i: usize, n: usize) -> (r: Option<u32>)
    requires
        n <= 8,
    ensures
        r == (match hex_from(s@, i as int, n as nat, 0) {
            Some(code) => Some(code as u32),
            None => None::<u32>,
        }),
        r matches Some(code) ==> hex_from(s@, i as int, n as nat, 0) == Some(code as int),
{
    let mut code: u32 = 0;
    let mut k: usize = 0;
    while k < n
        invariant
            k <= n <= 8,
            code < pow16(k as nat),
            hex_from(s@, i as int, n as nat, 0) == hex_from(
                s@,
                i + k,
                (n - k) as nat,
                code as int,
            ),
        decreases n - k,
    {
        if i >= s.len() || k >= s.len() - i {
            return None;
        }
        match hex_digit(s[i + k]) {
            None => {
                return None;
            },
            Some(d) => {
                assert(pow16((k + 1) as nat) == 16 * pow16(k as nat));
                assert(pow16(k as nat) <= 0x10000000) by {
                    lemma_pow16_mono(k as nat, 7);
                    reveal_with_fuel(pow16, 8);
                }
                code = code * 16 + d;
            },
        }
        k += 1;
    }
    Some(code)
}

proof fn lemma_pow16_mono(a: nat, b: nat)
    requires
        a <= b,
    ensures
        pow16(a) <= pow16(b),
        pow16(a) >= 1,
    decreases b,
{
    if a < b {
        lemma_pow16_mono(a, (b - 1) as nat);
    } else if a > 0 {
        lemma_pow16_mono((a - 1) as nat, (a - 1) as nat);
    }
}

/// Reads a double-quoted value whose body starts at `i`: the logical
/// value and the index just past the closing quote. A decoded value
/// holding a forbidden character stays out of the subset.
pub open spec fn scan_double_from(s: Seq<char>, i: int, acc: Seq<char>) -> Option<(Seq<char>, int)>
    decreases s.len() - i,
{
    if i < 0 || i >= s.len() {
        None
    } else if s[i] == '"' {
        if holds_forbidden(acc) {
            None
        } else {
            Some((acc, i + 1))
        }
    } else if s[i] == '\\' {
        if i + 1 >= s.len() {
            None
        } else {
            let e = s[i + 1];
            match simple_escape(e) {
                Some(x) => scan_double_from(s, i + 2, acc.push(x)),
                None => if hex_width(e) > 0 {
                    match hex_from(s, i + 2, hex_width(e), 0) {
                        Some(code) => match scalar_of(code) {
                            Some(ch) => if i + 2 + hex_width(e) <= s.len() {
                                scan_double_from(s, i + 2 + hex_width(e), acc.push(ch))
                            } else {
                                None
                            },
                            None => None,
                        },
                        None => None,
                    }
                } else {
                    None
                },
            }
        }
    } else if forbidden(s[i]) {
        None
    } else {
        scan_double_from(s, i + 1, acc.push(s[i]))
    }
}

pub proof fn lemma_scan_double_end(s: Seq<char>, i: int, acc: Seq<char>)
    ensures
        scan_double_from(s, i, acc) matches Some((_, e)) ==> i < e <= s.len(),
    decreases s.len() - i,
{
    if 0 <= i < s.len() && s[i] != '"' {
        if s[i] == '\\' {
            if i + 1 < s.len() {
                let e = s[i + 1];
                match simple_escape(e) {
                    Some(x) => lemma_scan_double_end(s, i + 2, acc.push(x)),
                    None => {
                        if hex_width(e) > 0 {
                            match hex_from(s, i + 2, hex_width(e), 0) {
                                Some(code) => match scalar_of(code) {
                                    Some(ch) if i + 2 + hex_width(e) > s.len() => {
                                        lemma_hex_within(s, i + 2, hex_width(e), 0);
                                    },
                                    Some(ch) => lemma_scan_double_end(
                                        s,
                                        i + 2 + hex_width(e),
                                        acc.push(ch),
                                    ),
                                    None => {},
                                },
                                None => {},
                            }
                        }
                    },
                }
            }
        } else if !forbidden(s[i]) {
            lemma_scan_double_end(s, i + 1, acc.push(s[i]));
        }
    }
}

/// Reads a double-quoted value from `s[i..]`, just past its opening
/// quote.
pub fn scan_double(s: &[char], i: usize) -> (r: Option<(Vec<char>, usize)>)
    ensures
        r matches Some((v, e)) ==> scan_double_from(s@, i as int, Seq::empty()) == Some(
            (v@, e as int),
        ),
        r is None ==> scan_double_from(s@, i as int, Seq::empty()) is None,
        r matches Some((_, e)) ==> i < e <= s@.len(),
{
    let mut logical: Vec<char> = Vec::new();
    let mut k: usize = i;
    proof {
        lemma_scan_double_end(s@, i as int, Seq::empty());
    }
    while k < s.len()
        invariant
            i <= k,
            scan_double_from(s@, i as int, Seq::empty()) == scan_double_from(
                s@,
                k as int,
                logical@,
            ),
        decreases s.len() - k,
    {
        let c = s[k];
        if c == '"' {
            if holds_forbidden_character(logical.as_slice(), 0, logical.len()) {
                assert(logical@.subrange(0, logical@.len() as int) =~= logical@);
                return None;
            }
            assert(logical@.subrange(0, logical@.len() as int) =~= logical@);
            return Some((logical, k + 1));
        } else if c == '\\' {
            if k + 1 >= s.len() {
                return None;
            }
            let e = s[k + 1];
            match simple_escaped(e) {
                Some(x) => {
                    logical.push(x);
                    k = k + 2;
                },
                None => {
                    let width: usize = if e == 'x' {
                        2
                    } else if e == 'u' {
                        4
                    } else if e == 'U' {
                        8
                    } else {
                        0
                    };
                    if width == 0 {
                        return None;
                    }
                    match hex_escape(s, k + 2, width) {
                        None => {
                            return None;
                        },
                        Some(code) => match char_from_code(code) {
                            None => {
                                return None;
                            },
                            Some(ch) => {
                                logical.push(ch);
                                proof {
                                    lemma_hex_within(s@, (k + 2) as int, width as nat, 0);
                                }
                                k = k + 2 + width;
                            },
                        },
                    }
                },
            }
        } else if forbidden_character(c) {
            return None;
        } else {
            logical.push(c);
            k += 1;
        }
    }
    None
}

proof fn lemma_hex_within(s: Seq<char>, i: int, n: nat, code: int)
    requires
        hex_from(s, i, n, code) is Some,
        0 <= i,
    ensures
        n == 0 || i + n <= s.len(),
    decreases n,
{
    if n > 0 {
        let d = hex_value(s[i]).unwrap();
        lemma_hex_within(s, i + 1, (n - 1) as nat, code * 16 + d);
    }
}

/// Reads a single-quoted value whose body starts at `i`; `''` is the only
/// escape.
pub open spec fn scan_single_from(s: Seq<char>, i: int, acc: Seq<char>) -> Option<(Seq<char>, int)>
    decreases s.len() - i,
{
    if i < 0 || i >= s.len() {
        None
    } else if s[i] == '\'' {
        if i + 1 < s.len() && s[i + 1] == '\'' {
            scan_single_from(s, i + 2, acc.push('\''))
        } else {
            Some((acc, i + 1))
        }
    } else if forbidden(s[i]) {
        None
    } else {
        scan_single_from(s, i + 1, acc.push(s[i]))
    }
}

pub proof fn lemma_scan_single_end(s: Seq<char>, i: int, acc: Seq<char>)
    ensures
        scan_single_from(s, i, acc) matches Some((_, e)) ==> i < e <= s.len(),
    decreases s.len() - i,
{
    if 0 <= i < s.len() {
        if s[i] == '\'' {
            if i + 1 < s.len() && s[i + 1] == '\'' {
                lemma_scan_single_end(s, i + 2, acc.push('\''));
            }
        } else if !forbidden(s[i]) {
            lemma_scan_single_end(s, i + 1, acc.push(s[i]));
        }
    }
}

/// Reads a single-quoted value from `s[i..]`, just past its opening
/// quote.
pub fn scan_single(s: &[char], i: usize) -> (r: Option<(Vec<char>, usize)>)
    ensures
        r matches Some((v, e)) ==> scan_single_from(s@, i as int, Seq::empty()) == Some(
            (v@, e as int),
        ),
        r is None ==> scan_single_from(s@, i as int, Seq::empty()) is None,
        r matches Some((_, e)) ==> i < e <= s@.len(),
{
    let mut logical: Vec<char> = Vec::new();
    let mut k: usize = i;
    proof {
        lemma_scan_single_end(s@, i as int, Seq::empty());
    }
    while k < s.len()
        invariant
            i <= k,
            scan_single_from(s@, i as int, Seq::empty()) == scan_single_from(
                s@,
                k as int,
                logical@,
            ),
        decreases s.len() - k,
    {
        let c = s[k];
        if c == '\'' {
            if k + 1 < s.len() && s[k + 1] == '\'' {
                logical.push('\'');
                k = k + 2;
            } else {
                return Some((logical, k + 1));
            }
        } else if forbidden_character(c) {
            return None;
        } else {
            logical.push(c);
            k += 1;
        }
    }
    None
}

/// Reads a whole plain or quoted scalar as its logical value. `None` is a
/// shape outside the subset: a malformed or trailing-content quote, or a
/// plain spelling this module would not itself write.
pub open spec fn plain_or_quoted(v: Seq<char>) -> Option<Seq<char>> {
    if v.len() > 0 && v[0] == '"' {
        match scan_double_from(v, 1, Seq::empty()) {
            Some((l, e)) => if e == v.len() {
                Some(l)
            } else {
                None
            },
            None => None,
        }
    } else if v.len() > 0 && v[0] == '\'' {
        match scan_single_from(v, 1, Seq::empty()) {
            Some((l, e)) => if e == v.len() {
                Some(l)
            } else {
                None
            },
            None => None,
        }
    } else if needs_quotes(v) || holds_forbidden(v) {
        None
    } else {
        Some(v)
    }
}

/// Exec twin of [`plain_or_quoted`] on `s[from..to]`.
pub fn plain_or_quoted_value(s: &[char], from: usize, to: usize) -> (r: Option<Vec<char>>)
    requires
        from <= to <= s@.len(),
    ensures
        r matches Some(v) ==> plain_or_quoted(s@.subrange(from as int, to as int)) == Some(v@),
        r is None ==> plain_or_quoted(s@.subrange(from as int, to as int)) is None,
{
    let value = sliced(s, from, to);
    let n = value.len();
    if n > 0 && value[0] == '"' {
        match scan_double(value.as_slice(), 1) {
            Some((l, e)) => if e == n {
                Some(l)
            } else {
                None
            },
            None => None,
        }
    } else if n > 0 && value[0] == '\'' {
        match scan_single(value.as_slice(), 1) {
            Some((l, e)) => if e == n {
                Some(l)
            } else {
                None
            },
            None => None,
        }
    } else {
        assert(value@.subrange(0, n as int) =~= value@);
        if needs_quoting(value.as_slice(), 0, n) || holds_forbidden_character(
            value.as_slice(),
            0,
            n,
        ) {
            None
        } else {
            Some(value)
        }
    }
}

} // verus!
