//! Names and places for kladde's locked, atomic writes: the lock
//! directory, the lock file of a notebook, the temporary file of a note,
//! and the text an append leaves behind. The locking and the filesystem
//! work itself sit with the binary.
use vstd::prelude::*;

use crate::frontmatter::{has_block, stamped, stamped_spec, Stamp};
use crate::structure;
use crate::frontmatter::document::parse;
use crate::frontmatter::get_spec;
use crate::frontmatter::laws::{
    lemma_classify_renders, lemma_parse_facts, lemma_parse_laid, parse_render_round_trip,
    plain_line, proper_line,
};
use crate::frontmatter::lines::{classify_from, concat as concat_lines, content};
use crate::paths::{absolute, displayed, is_absolute, join, joined, lossy, lossy_string, path_text};
use vstd::utf8::encode_utf8;
use crate::text::{chars_of, joined as concat, push_all, string_of};

verus! {

/// The suffix of every temporary file kladde writes; notes never carry it.
pub const TEMP_SUFFIX: &'static str = ".kladde-tmp";

/// Directory holding kladde's lock files: `$XDG_STATE_HOME/kladde/locks`,
/// falling back to `$HOME/.local/state/kladde/locks`. A relative base
/// (which includes an empty one) counts as unset. `None` when neither
/// variable provides an absolute base.
pub fn lock_dir(
    xdg_state_home: Option<std::path::PathBuf>,
    home: Option<std::path::PathBuf>,
) -> (r: Option<std::path::PathBuf>)
    ensures
        r == (if xdg_state_home is Some && absolute(xdg_state_home.unwrap()) {
            Some(joined(joined(xdg_state_home.unwrap(), "kladde"@), "locks"@))
        } else if home is Some && absolute(home.unwrap()) {
            Some(
                joined(
                    joined(joined(joined(home.unwrap(), ".local"@), "state"@), "kladde"@),
                    "locks"@,
                ),
            )
        } else {
            None
        }),
{
    if let Some(base) = &xdg_state_home {
        if is_absolute(base) {
            return Some(join(&join(base, "kladde"), "locks"));
        }
    }
    if let Some(base) = &home {
        if is_absolute(base) {
            let state = join(&join(base, ".local"), "state");
            return Some(join(&join(&state, "kladde"), "locks"));
        }
    }
    None
}

/// The FNV-1a offset basis.
pub const FNV_OFFSET: u64 = 0xcbf2_9ce4_8422_2325;

/// The FNV-1a prime.
pub const FNV_PRIME: u64 = 0x0000_0100_0000_01b3;

/// The 64-bit FNV-1a hash of `bytes`.
pub open spec fn fnv1a(bytes: Seq<u8>) -> u64
    decreases bytes.len(),
{
    if bytes.len() == 0 {
        FNV_OFFSET
    } else {
        (fnv1a(bytes.drop_last()) ^ (bytes.last() as u64)).wrapping_mul(FNV_PRIME)
    }
}

/// The lowercase hex digit for `d`.
pub open spec fn hex_digit_char(d: u64) -> char {
    if d < 10 {
        (d + 48) as u8 as char
    } else {
        (d + 87) as u8 as char
    }
}

/// `h` as sixteen lowercase hex digits, most significant first.
pub open spec fn hex16(h: u64) -> Seq<char> {
    Seq::new(16, |i: int| hex_digit_char((h >> ((60 - 4 * i) as u64)) & 0xf))
}

/// The FNV-1a hash of `bytes`.
pub fn fnv1a_hash(bytes: &[u8]) -> (h: u64)
    ensures
        h == fnv1a(bytes@),
{
    let mut hash: u64 = FNV_OFFSET;
    let mut i: usize = 0;
    while i < bytes.len()
        invariant
            i <= bytes@.len(),
            hash == fnv1a(bytes@.take(i as int)),
        decreases bytes@.len() - i,
    {
        assert(bytes@.take(i + 1).drop_last() =~= bytes@.take(i as int));
        hash = (hash ^ (bytes[i] as u64)).wrapping_mul(FNV_PRIME);
        i += 1;
    }
    assert(bytes@.take(bytes@.len() as int) =~= bytes@);
    hash
}

/// Appends `h` as sixteen lowercase hex digits to `out`.
fn push_hex16(out: &mut Vec<char>, h: u64)
    ensures
        final(out)@ == old(out)@ + hex16(h),
{
    let mut i: u64 = 0;
    while i < 16
        invariant
            i <= 16,
            out@ == old(out)@ + hex16(h).take(i as int),
        decreases 16 - i,
    {
        let sh: u64 = 60 - 4 * i;
        let d = (h >> sh) & 0xf;
        assert(d < 16) by (bit_vector)
            requires
                d == (h >> sh) & 0xf,
        ;
        assert(hex16(h)[i as int] == hex_digit_char(d));
        let c = if d < 10 {
            (d as u8 + 48) as char
        } else {
            (d as u8 + 87) as char
        };
        assert(c == hex_digit_char(d));
        out.push(c);
        assert(hex16(h).take(i + 1) =~= hex16(h).take(i as int).push(c));
        i += 1;
    }
    assert(hex16(h).take(16) =~= hex16(h));
}

/// The lock file name for a notebook, from its canonical root: the
/// FNV-1a hash of the UTF-8 bytes of the root's lossy spelling, as
/// sixteen hex digits, then `.lock`. Two kladde versions running at once
/// agree on it.
pub fn lock_name(root: &std::path::Path) -> (name: String)
    ensures
        name@ == hex16(fnv1a(encode_utf8(lossy_string(root)))) + ".lock"@,
{
    let text = lossy(root);
    let hash = fnv1a_hash(text.as_str().as_bytes());
    let mut out: Vec<char> = Vec::new();
    push_hex16(&mut out, hash);
    let suffix = chars_of(".lock");
    push_all(&mut out, suffix.as_slice());
    string_of(out.as_slice())
}

/// The temporary file name for a note, from its notebook-relative path:
/// a dot, the hash of the path, then [`TEMP_SUFFIX`].
pub fn temp_name(relative: &std::path::Path) -> (name: String)
    ensures
        name@ == seq!['.'] + hex16(fnv1a(encode_utf8(lossy_string(relative)))) + TEMP_SUFFIX@,
{
    let text = lossy(relative);
    let hash = fnv1a_hash(text.as_str().as_bytes());
    let mut out: Vec<char> = Vec::new();
    out.push('.');
    push_hex16(&mut out, hash);
    let suffix = chars_of(TEMP_SUFFIX);
    push_all(&mut out, suffix.as_slice());
    string_of(out.as_slice())
}

/// Text with trailing line breaks dropped.
pub open spec fn without_trailing_breaks(t: Seq<char>) -> Seq<char>
    decreases t.len(),
{
    if t.len() > 0 && (t.last() == '\n' || t.last() == '\r') {
        without_trailing_breaks(t.drop_last())
    } else {
        t
    }
}

/// The note `current` with `text` appended verbatim as its own line:
/// a separating newline first when the note does not already end in one,
/// and one terminating newline after.
pub open spec fn appended(current: Seq<char>, text: Seq<char>) -> Seq<char> {
    current + (if current.len() > 0 && current.last() != '\n' {
        seq!['\n']
    } else {
        Seq::empty()
    }) + text + seq!['\n']
}

/// Appending at the end of a note never disturbs its frontmatter, which
/// ends where the body begins: a note that has a block keeps its head,
/// its opening fence and every property line, and each property reads
/// back as before.
#[verifier::spinoff_prover]
pub proof fn append_keeps_frontmatter(current: Seq<char>, text: Seq<char>, key: Seq<char>)
    requires
        parse(current).block is Some,
    ensures
        parse(appended(current, text)).head == parse(current).head,
        parse(appended(current, text)).block matches Some(b) && b.opening == parse(
            current,
        ).block.unwrap().opening && b.items == parse(current).block.unwrap().items,
        get_spec(appended(current, text), key) == get_spec(current, key),
{
    lemma_append_parse(current, text);
}

/// What [`append_keeps_frontmatter`] states of the parse.
#[verifier::spinoff_prover]
proof fn lemma_append_parse(current: Seq<char>, text: Seq<char>)
    requires
        parse(current).block is Some,
    ensures
        parse(appended(current, text)).head == parse(current).head,
        parse(appended(current, text)).block matches Some(b) && b.opening == parse(
            current,
        ).block.unwrap().opening && b.items == parse(current).block.unwrap().items,
{
    let d = parse(current);
    let b = d.block.unwrap();
    let ls = lemma_laid_out(current);
    let front = d.head + b.opening + concat_lines(ls);
    let out = appended(current, text);
    if proper_line(b.closing) {
        let body = d.body + (if current.len() > 0 && current.last() != '\n' {
            seq!['\n']
        } else {
            Seq::empty()
        }) + text + seq!['\n'];
        assert(out =~= front + b.closing + body);
        lemma_parse_laid(d.head, b.opening, ls, b.closing, body);
    } else {
        let closing = b.closing + seq!['\n'];
        lemma_closed_line(b.closing);
        assert(current.last() == b.closing.last());
        assert(out =~= front + closing + (text + seq!['\n']));
        lemma_parse_laid(d.head, b.opening, ls, closing, text + seq!['\n']);
    }
}

/// A note with a block is its head, opening fence, the block's lines,
/// closing fence and body, end to end.
#[verifier::spinoff_prover]
proof fn lemma_laid_out(current: Seq<char>) -> (ls: Seq<Seq<char>>)
    requires
        parse(current).block is Some,
    ensures
        current == parse(current).head + parse(current).block.unwrap().opening + concat_lines(ls)
            + parse(current).block.unwrap().closing + parse(current).body,
        parse(current).head.len() <= 1,
        parse(current).head.len() == 1 ==> parse(current).head[0] == '\u{feff}',
        proper_line(parse(current).block.unwrap().opening),
        content(parse(current).block.unwrap().opening) == seq!['-', '-', '-'],
        content(parse(current).block.unwrap().closing) == seq!['-', '-', '-'],
        proper_line(parse(current).block.unwrap().closing) || (parse(current).body.len() == 0
            && forall|x: int|
            0 <= x < parse(current).block.unwrap().closing.len() ==> #[trigger] parse(
                current,
            ).block.unwrap().closing[x] != '\n'),
        forall|x: int| 0 <= x < ls.len() ==> plain_line(#[trigger] ls[x]),
        parse(current).block.unwrap().items == classify_from(ls, 0),
{
    let ls = lemma_parse_facts(current);
    parse_render_round_trip(current);
    lemma_classify_renders(ls, 0);
    assert(ls.subrange(0, ls.len() as int) =~= ls);
    ls
}

/// A fence line missing its line feed becomes a whole fence line with
/// one.
proof fn lemma_closed_line(closing: Seq<char>)
    requires
        content(closing) == seq!['-', '-', '-'],
        forall|x: int| 0 <= x < closing.len() ==> #[trigger] closing[x] != '\n',
    ensures
        closing.len() >= 3,
        proper_line(closing + seq!['\n']),
        content(closing + seq!['\n']) == seq!['-', '-', '-'],
{
    assert(content(closing).len() == 3);
    assert((closing + seq!['\n']).drop_last() =~= closing);
}

/// Exec twin of [`appended`].
pub fn appended_text(current: &[char], text: &[char]) -> (out: Vec<char>)
    ensures
        out@ == appended(current@, text@),
{
    let mut out: Vec<char> = Vec::new();
    push_all(&mut out, current);
    if current.len() > 0 && current[current.len() - 1] != '\n' {
        out.push('\n');
    }
    push_all(&mut out, text);
    out.push('\n');
    assert(out@ =~= appended(current@, text@));
    out
}

/// The text an append writes: `text` with its trailing line breaks
/// dropped, or `None` when nothing is left to append.
pub fn append_text(text: &str) -> (r: Option<Vec<char>>)
    ensures
        r is None <==> without_trailing_breaks(text@).len() == 0,
        r matches Some(v) ==> v@ == without_trailing_breaks(text@),
{
    let mut chars = chars_of(text);
    while chars.len() > 0 && (chars[chars.len() - 1] == '\n' || chars[chars.len() - 1] == '\r')
        invariant
            without_trailing_breaks(text@) == without_trailing_breaks(chars@),
        decreases chars@.len(),
    {
        let ghost before = chars@;
        chars.pop();
        assert(chars@ =~= before.drop_last());
    }
    if chars.len() == 0 {
        None
    } else {
        Some(chars)
    }
}

/// Failure while appending to or rewriting a note.
#[derive(Debug)]
pub enum Error {
    EmptyText,
    LockDir { path: std::path::PathBuf, cause: String },
    Lock { path: std::path::PathBuf, cause: String },
    Read { path: std::path::PathBuf, cause: String },
    Escaped { path: std::path::PathBuf },
    Write { path: std::path::PathBuf, cause: String },
}

/// The message an error displays.
pub open spec fn error_message(e: Error) -> Seq<char> {
    match e {
        Error::EmptyText => "nothing to append: the text is empty"@,
        Error::LockDir { path, cause } => "cannot create lock directory "@ + path_text(path) + ": "@
            + cause@,
        Error::Lock { path, cause } => "cannot lock "@ + path_text(path) + ": "@ + cause@,
        Error::Read { path, cause } => "cannot read "@ + path_text(path) + ": "@ + cause@,
        Error::Escaped { path } => path_text(path) + " escaped the notebook"@,
        Error::Write { path, cause } => "cannot write "@ + path_text(path) + ": "@ + cause@,
    }
}

impl Error {
    /// The message the error displays.
    pub fn message(&self) -> (m: String)
        ensures
            m@ == error_message(*self),
    {
        proof {
            reveal_strlit("");
        }
        match self {
            Error::EmptyText => concat("nothing to append: the text is empty", "", ""),
            Error::LockDir { path, cause } => {
                let p = displayed(path);
                let head = concat("cannot create lock directory ", p.as_str(), ": ");
                concat(head.as_str(), cause.as_str(), "")
            },
            Error::Lock { path, cause } => {
                let p = displayed(path);
                let head = concat("cannot lock ", p.as_str(), ": ");
                concat(head.as_str(), cause.as_str(), "")
            },
            Error::Read { path, cause } => {
                let p = displayed(path);
                let head = concat("cannot read ", p.as_str(), ": ");
                concat(head.as_str(), cause.as_str(), "")
            },
            Error::Escaped { path } => {
                let p = displayed(path);
                concat(p.as_str(), " escaped the notebook", "")
            },
            Error::Write { path, cause } => {
                let p = displayed(path);
                let head = concat("cannot write ", p.as_str(), ": ");
                concat(head.as_str(), cause.as_str(), "")
            },
        }
    }
}

/// What an append leaves of the note `current`: `text`, its trailing line
/// breaks dropped, on a line of its own at the very end, and the note
/// stamped when a stamp is given.
pub open spec fn appended_note_spec(
    current: Seq<char>,
    text: Seq<char>,
    stamp: Option<(Seq<char>, Seq<char>, Seq<char>)>,
) -> Seq<char> {
    let new = appended(current, without_trailing_breaks(text));
    match stamp {
        None => new,
        Some((created, updated, time)) => stamped_spec(
            new,
            parse(current).block is Some,
            created,
            updated,
            time,
        ),
    }
}

/// The note an append writes, from its current contents: `text` appended
/// verbatim as its own line, its trailing line breaks dropped and exactly
/// one terminating newline written, with a separating newline first when
/// the note does not already end in one; then, with a stamp, the note
/// stamped in the same write. Appending at the end never disturbs
/// frontmatter, which ends where the body begins.
///
/// Fails when `text` is empty or nothing but line breaks.
pub fn appended_note(current: &str, text: &str, stamp: Option<&Stamp<'_>>) -> (r: Result<String, Error>)
    ensures
        without_trailing_breaks(text@).len() == 0 <==> r is Err,
        r is Err ==> r matches Err(Error::EmptyText),
        r matches Ok(s) ==> s@ == appended_note_spec(
            current@,
            text@,
            match stamp {
                None => None,
                Some(st) => Some((st.created(), st.updated(), st.time())),
            },
        ),
{
    let text = match append_text(text) {
        Some(text) => text,
        None => {
            return Err(Error::EmptyText);
        },
    };
    let c = chars_of(current);
    let new = appended_text(c.as_slice(), text.as_slice());
    let new = string_of(new.as_slice());
    match stamp {
        None => Ok(new),
        Some(stamp) => {
            let had_block = has_block(current);
            Ok(stamped(new.as_str(), had_block, stamp))
        },
    }
}

/// The note `current` with `text`, its trailing line breaks dropped,
/// landed at the place `placement` names, or appended at the very end
/// when it names none. Fails with the message of the refusal: empty text,
/// or what [`structure::inserted`] refuses.
pub fn placed_note(current: &str, text: &str, placement: &structure::Placement) -> (r: Result<String, String>)
    ensures
        without_trailing_breaks(text@).len() == 0 ==> (r matches Err(m) && m@ == error_message(
            Error::EmptyText,
        )),
        without_trailing_breaks(text@).len() > 0 ==> match structure::inserted_spec(
            current@,
            without_trailing_breaks(text@),
            placement.headings@,
            placement.bullets@,
            placement.indent,
        ) {
            Ok(s) => r matches Ok(x) && x@ == s,
            Err(e) => r matches Err(m) && m@ == structure::error_message(e),
        },
{
    let entry = match append_text(text) {
        Some(entry) => string_of(entry.as_slice()),
        None => {
            return Err(Error::EmptyText.message());
        },
    };
    match structure::inserted(current, entry.as_str(), placement) {
        Ok(landed) => Ok(landed),
        Err(e) => Err(e.message()),
    }
}

} // verus!
