//! Reading and editing a note's frontmatter.
//!
//! The format is the flat properties subset markdown note editors read:
//! a block of `key: value` lines between `---` fences at the very start
//! of the file, holding text values and lists. Everything the subset does
//! not cover — nested values, block scalars, comments — is opaque:
//! preserved verbatim, never edited through, and reported as an error
//! when named directly. An edit rewrites only the named property, in one
//! canonical form; every other character of the note survives untouched.
//!
//! A byte order mark before the opening fence is tolerated, and fences may
//! end in CRLF; a leading blank line, trailing spaces on a fence, an
//! unclosed fence, and YAML's `...` closer are not frontmatter. Edits
//! inside a CRLF block stay CRLF; new blocks are written with LF.
pub mod document;
pub mod laws;
pub mod readback;
pub mod regroup;
pub mod lines;
pub mod scalar;
pub mod value;
pub mod written;

use vstd::prelude::*;

use crate::frontmatter::document::{
    block_eol, eol_of, foreign_from, foreign_rooted, key_index, list_property, list_property_of,
    lookup, lookup_key, new_block, new_block_model, parse, parse_document, put, put_property,
    render, render_document, scalar_property, scalar_property_of, value_at, BlockModel,
    DocumentModel, Lookup,
};
use crate::frontmatter::lines::{items_view, unicode_whitespace, is_unicode_whitespace, Item, ItemModel};
use crate::frontmatter::scalar::{forbidden, forbidden_character, holds_forbidden, holds_forbidden_character, is_control, control};
use crate::frontmatter::value::{seqs, Parsed, ParsedModel};
use crate::text::{
    chars_of, contains_char, copied, debug_escaped, escape_debug, has_char, joined, push_all, string_of,
};

verus! {

/// Property name for the created stamp when `stamp-created-key` is unset.
pub const DEFAULT_CREATED_KEY: &'static str = "created";

/// Property name for the updated stamp when `stamp-updated-key` is unset.
pub const DEFAULT_UPDATED_KEY: &'static str = "updated";

/// A property's value: text, or a list of texts. Values are logical:
/// quoting is a spelling concern of the file.
#[derive(Debug, Clone, PartialEq, Eq)]
pub enum Value {
    /// A single-line text value.
    Scalar(String),
    /// A list of single-line text values.
    List(Vec<String>),
}

/// The logical content of a [`Value`].
pub enum ValueModel {
    Scalar(Seq<char>),
    List(Seq<Seq<char>>),
}

/// The logical content of strings.
pub open spec fn strings(v: Seq<String>) -> Seq<Seq<char>> {
    v.map_values(|s: String| s@)
}

impl View for Value {
    type V = ValueModel;

    open spec fn view(&self) -> ValueModel {
        match self {
            Value::Scalar(s) => ValueModel::Scalar(s@),
            Value::List(items) => ValueModel::List(strings(items@)),
        }
    }
}

/// Failure while reading or editing a property.
#[derive(Debug)]
pub enum Error {
    InvalidKey { key: String, reason: &'static str },
    MultilineValue { value: String },
    ForeignBlock,
    UnprintableValue { value: String },
    DuplicateKey { key: String },
    Opaque { key: String },
    NotAList { key: String },
}

/// The logical content of an [`Error`].
pub enum ErrorModel {
    InvalidKey(Seq<char>, Seq<char>),
    MultilineValue(Seq<char>),
    ForeignBlock,
    UnprintableValue(Seq<char>),
    DuplicateKey(Seq<char>),
    Opaque(Seq<char>),
    NotAList(Seq<char>),
}

impl View for Error {
    type V = ErrorModel;

    open spec fn view(&self) -> ErrorModel {
        match self {
            Error::InvalidKey { key, reason } => ErrorModel::InvalidKey(key@, reason@),
            Error::MultilineValue { value } => ErrorModel::MultilineValue(value@),
            Error::ForeignBlock => ErrorModel::ForeignBlock,
            Error::UnprintableValue { value } => ErrorModel::UnprintableValue(value@),
            Error::DuplicateKey { key } => ErrorModel::DuplicateKey(key@),
            Error::Opaque { key } => ErrorModel::Opaque(key@),
            Error::NotAList { key } => ErrorModel::NotAList(key@),
        }
    }
}

/// A character YAML reserves at the start of a plain key.
pub open spec fn reserved_key_start(c: char) -> bool {
    c == '-' || c == '"' || c == '\'' || c == '&' || c == '*' || c == '!' || c == '%' || c == '@'
        || c == '`' || c == '?' || c == '|' || c == '>' || c == '[' || c == ']' || c == '{' || c
        == '}' || c == ','
}

/// Whether a key holds a character that is a control character or
/// forbidden in a property.
pub open spec fn holds_unprintable(k: Seq<char>) -> bool {
    exists|i: int| 0 <= i < k.len() && (is_control(#[trigger] k[i]) || forbidden(k[i]))
}

/// Why `k` cannot name a property, or `None` when it can: the rejections
/// keep every key this module writes readable as a key here and wherever
/// the note is read.
pub open spec fn key_problem(k: Seq<char>) -> Option<Seq<char>> {
    if k.len() == 0 {
        Some("it is empty"@)
    } else if has_char(k, ':') {
        Some("it contains a colon"@)
    } else if has_char(k, '#') {
        Some("it contains a hash"@)
    } else if has_char(k, '\n') || has_char(k, '\r') {
        Some("it contains a line break"@)
    } else if holds_unprintable(k) {
        Some("it contains an unprintable character"@)
    } else if unicode_whitespace(k[0]) || unicode_whitespace(k.last()) {
        Some("it has leading or trailing whitespace"@)
    } else if reserved_key_start(k[0]) {
        Some("it starts with a character YAML reserves"@)
    } else {
        None
    }
}

/// The error for a value that cannot be written, or `None`.
pub open spec fn value_problem(v: Seq<char>) -> Option<ErrorModel> {
    if has_char(v, '\n') || has_char(v, '\r') {
        Some(ErrorModel::MultilineValue(v))
    } else if holds_forbidden(v) {
        Some(ErrorModel::UnprintableValue(v))
    } else {
        None
    }
}

/// Whether `k[0..n]` holds an unprintable character.
fn holds_unprintable_char(k: &[char]) -> (b: bool)
    ensures
        b == holds_unprintable(k@),
{
    let mut i: usize = 0;
    while i < k.len()
        invariant
            i <= k@.len(),
            forall|j: int| 0 <= j < i ==> !(is_control(#[trigger] k@[j]) || forbidden(k@[j])),
        decreases k@.len() - i,
    {
        if control(k[i]) || forbidden_character(k[i]) {
            return true;
        }
        i += 1;
    }
    false
}

/// Why `key` cannot name a property, or `None`.
fn key_reason(key: &[char]) -> (r: Option<&'static str>)
    ensures
        r matches Some(s) ==> key_problem(key@) == Some(s@),
        r is None ==> key_problem(key@) is None,
{
    let n = key.len();
    assert(key@.subrange(0, n as int) =~= key@);
    if n == 0 {
        Some("it is empty")
    } else if contains_char(key, 0, n, ':') {
        Some("it contains a colon")
    } else if contains_char(key, 0, n, '#') {
        Some("it contains a hash")
    } else if contains_char(key, 0, n, '\n') || contains_char(key, 0, n, '\r') {
        Some("it contains a line break")
    } else if holds_unprintable_char(key) {
        Some("it contains an unprintable character")
    } else if is_unicode_whitespace(key[0]) || is_unicode_whitespace(key[n - 1]) {
        Some("it has leading or trailing whitespace")
    } else {
        let c = key[0];
        if c == '-' || c == '"' || c == '\'' || c == '&' || c == '*' || c == '!' || c == '%' || c
            == '@' || c == '`' || c == '?' || c == '|' || c == '>' || c == '[' || c == ']' || c
            == '{' || c == '}' || c == ',' {
            Some("it starts with a character YAML reserves")
        } else {
            None
        }
    }
}

/// Checks that `key` can name a property.
pub fn validated_key_chars(key: &[char]) -> (r: Result<(), Error>)
    ensures
        r is Ok <==> key_problem(key@) is None,
        r matches Err(e) ==> e@ == ErrorModel::InvalidKey(key@, key_problem(key@).unwrap()),
{
    match key_reason(key) {
        Some(reason) => Err(Error::InvalidKey { key: string_of(key), reason }),
        None => Ok(()),
    }
}

/// Checks that `key` can name a property; the configuration shares these
/// rules for its stamp key settings, so a configured stamp key is always
/// writable.
pub fn validated_key(key: &str) -> (r: Result<(), Error>)
    ensures
        r is Ok <==> key_problem(key@) is None,
        r matches Err(e) ==> e@ == ErrorModel::InvalidKey(key@, key_problem(key@).unwrap()),
{
    let k = chars_of(key);
    validated_key_chars(k.as_slice())
}

/// Checks that a value or list item stays on one line and carries no
/// character the quoted form cannot hold.
pub fn validated_value(value: &[char]) -> (r: Result<(), Error>)
    ensures
        r is Ok <==> value_problem(value@) is None,
        r matches Err(e) ==> Some(e@) == value_problem(value@),
{
    let n = value.len();
    assert(value@.subrange(0, n as int) =~= value@);
    if contains_char(value, 0, n, '\n') || contains_char(value, 0, n, '\r') {
        return Err(Error::MultilineValue { value: string_of(value) });
    }
    if holds_forbidden_character(value, 0, n) {
        return Err(Error::UnprintableValue { value: string_of(value) });
    }
    Ok(())
}

/// The value of `key` in `t`, as [`get`] reads it.
pub open spec fn get_spec(t: Seq<char>, k: Seq<char>) -> Result<Option<ValueModel>, ErrorModel> {
    match key_problem(k) {
        Some(reason) => Err(ErrorModel::InvalidKey(k, reason)),
        None => match parse(t).block {
            None => Ok(None),
            Some(b) => match lookup(b.items, k) {
                Lookup::Missing => Ok(None),
                Lookup::Duplicate => Err(ErrorModel::DuplicateKey(k)),
                Lookup::Found(ParsedModel::Scalar(v)) => Ok(Some(ValueModel::Scalar(v))),
                Lookup::Found(ParsedModel::List(items)) => Ok(Some(ValueModel::List(items))),
                Lookup::Found(ParsedModel::Opaque) => Err(ErrorModel::Opaque(k)),
            },
        },
    }
}

/// The logical content of a read's outcome.
pub open spec fn get_view(r: Result<Option<Value>, Error>) -> Result<Option<ValueModel>, ErrorModel> {
    match r {
        Ok(Some(v)) => Ok(Some(v@)),
        Ok(None) => Ok(None),
        Err(e) => Err(e@),
    }
}

/// The logical content of an edit's outcome.
pub open spec fn edit_view(r: Result<String, Error>) -> Result<Seq<char>, ErrorModel> {
    match r {
        Ok(s) => Ok(s@),
        Err(e) => Err(e@),
    }
}

/// Strings holding the given character vectors.
fn strings_of(v: &Vec<Vec<char>>) -> (out: Vec<String>)
    ensures
        strings(out@) == seqs(v@),
{
    let mut out: Vec<String> = Vec::new();
    let mut i: usize = 0;
    while i < v.len()
        invariant
            i <= v@.len(),
            strings(out@) == seqs(v@.take(i as int)),
        decreases v@.len() - i,
    {
        let s = string_of(v[i].as_slice());
        let ghost before = out@;
        out.push(s);
        assert(out@ == before.push(s));
        assert(strings(out@) =~= strings(before).push(s@));
        assert(v@.take(i + 1) =~= v@.take(i as int).push(v@[i as int]));
        assert(seqs(v@.take(i + 1)) =~= seqs(v@.take(i as int)).push(v@[i as int]@));
        i += 1;
    }
    assert(v@.take(v@.len() as int) =~= v@);
    out
}

/// Reads the value of `key`, or `None` when the note has no frontmatter
/// or no such property.
///
/// # Errors
///
/// Returns an error when `key` is not a valid property key, names
/// duplicated properties, or names a property whose value is outside the
/// subset this module edits.
pub fn get(text: &str, key: &str) -> (r: Result<Option<Value>, Error>)
    ensures
        get_view(r) == get_spec(text@, key@),
{
    let k = chars_of(key);
    validated_key_chars(k.as_slice())?;
    let t = chars_of(text);
    let document = parse_document(t.as_slice());
    let block = match &document.block {
        Some(b) => b,
        None => {
            return Ok(None);
        },
    };
    let (state, at) = lookup_key(block, k.as_slice());
    if state == 0 {
        return Ok(None);
    }
    if state == 2 {
        return Err(Error::DuplicateKey { key: string_of(k.as_slice()) });
    }
    proof {
        crate::frontmatter::document::lemma_key_index(block@.items, k@);
    }
    match value_at(block, at) {
        Some(Parsed::Scalar(v)) => Ok(Some(Value::Scalar(string_of(v.as_slice())))),
        Some(Parsed::List(items)) => Ok(Some(Value::List(strings_of(items)))),
        Some(Parsed::Opaque) => Err(Error::Opaque { key: string_of(k.as_slice()) }),
        None => Ok(None),
    }
}

/// The document with its block, or a new empty one when it has none.
pub open spec fn block_or_new(d: DocumentModel) -> BlockModel {
    match d.block {
        Some(b) => b,
        None => new_block_model(),
    }
}

/// The document `d` holding block `b`.
pub open spec fn with_block(d: DocumentModel, b: BlockModel) -> DocumentModel {
    DocumentModel { head: d.head, block: Some(b), body: d.body }
}

/// The block `b` with items `items`.
pub open spec fn with_items(b: BlockModel, items: Seq<ItemModel>) -> BlockModel {
    BlockModel { opening: b.opening, items, closing: b.closing }
}

/// The note `t` with the text property `k` set to `v`, as [`set`] writes it.
pub open spec fn set_spec(t: Seq<char>, k: Seq<char>, v: Seq<char>) -> Result<Seq<char>, ErrorModel> {
    if key_problem(k) is Some {
        Err(ErrorModel::InvalidKey(k, key_problem(k).unwrap()))
    } else if value_problem(v) is Some {
        Err(value_problem(v).unwrap())
    } else {
        let d = parse(t);
        let b = block_or_new(d);
        if foreign_from(b.items, 0) {
            Err(ErrorModel::ForeignBlock)
        } else if lookup(b.items, k) is Duplicate {
            Err(ErrorModel::DuplicateKey(k))
        } else {
            Ok(
                render(
                    with_block(
                        d,
                        with_items(b, put(b.items, scalar_property(k, v, block_eol(b)))),
                    ),
                ),
            )
        }
    }
}

/// The parsed note with its block, a new one when it had none.
fn document_with_block(t: &[char]) -> (r: (crate::frontmatter::document::Document, bool))
    ensures
        r.0@.block == Some(block_or_new(parse(t@))),
        r.0@.head == parse(t@).head,
        r.0@.body == parse(t@).body,
        r.1 == parse(t@).block is Some,
{
    let mut d = parse_document(t);
    let had = d.block.is_some();
    if d.block.is_none() {
        d.block = Some(new_block());
    }
    (d, had)
}

/// Sets `key` to the text value `value`, replacing any existing value
/// whatever its shape, and creating the frontmatter block if the note has
/// none.
///
/// # Errors
///
/// Returns an error when `key` is not a valid property key or names
/// duplicated properties, when `value` spans lines or holds a character
/// no property can, or when the frontmatter is not property lines.
pub fn set(text: &str, key: &str, value: &str) -> (r: Result<String, Error>)
    ensures
        edit_view(r) == set_spec(text@, key@, value@),
{
    let k = chars_of(key);
    validated_key_chars(k.as_slice())?;
    let v = chars_of(value);
    validated_value(v.as_slice())?;
    let t = chars_of(text);
    let (mut document, _) = document_with_block(t.as_slice());
    let ghost d = parse(t@);
    let mut block = document.block.take().unwrap();
    if foreign_rooted(&block) {
        return Err(Error::ForeignBlock);
    }
    let (state, _) = lookup_key(&block, k.as_slice());
    if state == 2 {
        return Err(Error::DuplicateKey { key: string_of(k.as_slice()) });
    }
    let eol = eol_of(&block);
    let property = scalar_property_of(k.as_slice(), v.as_slice(), eol.as_slice());
    put_property(&mut block, property);
    document.block = Some(block);
    let out = render_document(&document);
    Ok(string_of(out.as_slice()))
}


/// The note `t` without the property `k`, as [`unset`] writes it.
pub open spec fn unset_spec(t: Seq<char>, k: Seq<char>) -> Result<Seq<char>, ErrorModel> {
    if key_problem(k) is Some {
        Err(ErrorModel::InvalidKey(k, key_problem(k).unwrap()))
    } else {
        let d = parse(t);
        match d.block {
            None => Ok(t),
            Some(b) => if foreign_from(b.items, 0) {
                Err(ErrorModel::ForeignBlock)
            } else {
                match lookup(b.items, k) {
                    Lookup::Duplicate => Err(ErrorModel::DuplicateKey(k)),
                    Lookup::Missing => Ok(t),
                    Lookup::Found(_) => {
                        let items = b.items.remove(key_index(b.items, k).unwrap());
                        if items.len() == 0 && parse(d.body).block is None {
                            Ok(render(DocumentModel { head: d.head, block: None, body: d.body }))
                        } else {
                            Ok(render(with_block(d, with_items(b, items))))
                        }
                    },
                }
            },
        }
    }
}

/// Removes the property `key`. A missing property, or a note without
/// frontmatter, is already the requested state and returns the note
/// unchanged. Removing the last interior line removes the fences too —
/// unless the body would then read as a block itself, in which case an
/// empty block stays behind to fence it off.
///
/// # Errors
///
/// Returns an error when `key` is not a valid property key, names
/// duplicated properties, or when the frontmatter is not property lines.
pub fn unset(text: &str, key: &str) -> (r: Result<String, Error>)
    ensures
        edit_view(r) == unset_spec(text@, key@),
{
    let k = chars_of(key);
    validated_key_chars(k.as_slice())?;
    let t = chars_of(text);
    let mut document = parse_document(t.as_slice());
    let mut block = match document.block.take() {
        Some(b) => b,
        None => {
            return Ok(string_of(t.as_slice()));
        },
    };
    if foreign_rooted(&block) {
        return Err(Error::ForeignBlock);
    }
    let (state, at) = lookup_key(&block, k.as_slice());
    if state == 0 {
        return Ok(string_of(t.as_slice()));
    }
    if state == 2 {
        return Err(Error::DuplicateKey { key: string_of(k.as_slice()) });
    }
    proof {
        crate::frontmatter::document::lemma_key_index(block@.items, k@);
    }
    let ghost before = block.items@;
    block.items.remove(at);
    assert(items_view(block.items@) =~= items_view(before).remove(at as int));
    if block.items.len() == 0 && !has_block_chars(document.body.as_slice()) {
        let out = render_document(&document);
        return Ok(string_of(out.as_slice()));
    }
    document.block = Some(block);
    let out = render_document(&document);
    Ok(string_of(out.as_slice()))
}

/// Whether the note `t` begins with a well-formed frontmatter block.
pub fn has_block_chars(t: &[char]) -> (b: bool)
    ensures
        b == parse(t@).block is Some,
{
    parse_document(t).block.is_some()
}

/// Whether the note begins with a well-formed frontmatter block.
pub fn has_block(text: &str) -> (b: bool)
    ensures
        b == parse(text@).block is Some,
{
    let t = chars_of(text);
    has_block_chars(t.as_slice())
}

/// Where the body of `t` starts: past the frontmatter block, or past a
/// leading byte order mark when there is none.
pub fn body_start(t: &[char]) -> (n: usize)
    ensures
        n == t@.len() - parse(t@).body.len(),
        n <= t@.len(),
        t@.skip(n as int) == parse(t@).body,
{
    let d = parse_document(t);
    proof {
        crate::frontmatter::document::lemma_parse_body(t@);
    }
    t.len() - d.body.len()
}

/// Whether `l` holds `x`.
pub open spec fn holds_item(l: Seq<Seq<char>>, x: Seq<char>) -> bool {
    exists|i: int| 0 <= i < l.len() && l[i] == x
}

/// `l` without every item equal to `x`, order kept.
pub open spec fn without(l: Seq<Seq<char>>, x: Seq<char>) -> Seq<Seq<char>>
    decreases l.len(),
{
    if l.len() == 0 {
        Seq::empty()
    } else if l.last() == x {
        without(l.drop_last(), x)
    } else {
        without(l.drop_last(), x).push(l.last())
    }
}

/// The note `t` with `x` added to the list property `k`, as [`add`]
/// writes it.
pub open spec fn add_spec(t: Seq<char>, k: Seq<char>, x: Seq<char>) -> Result<Seq<char>, ErrorModel> {
    if key_problem(k) is Some {
        Err(ErrorModel::InvalidKey(k, key_problem(k).unwrap()))
    } else if value_problem(x) is Some {
        Err(value_problem(x).unwrap())
    } else {
        let d = parse(t);
        let b = block_or_new(d);
        let eol = block_eol(b);
        if foreign_from(b.items, 0) {
            Err(ErrorModel::ForeignBlock)
        } else {
            match lookup(b.items, k) {
                Lookup::Duplicate => Err(ErrorModel::DuplicateKey(k)),
                Lookup::Found(ParsedModel::Scalar(_)) => Err(ErrorModel::NotAList(k)),
                Lookup::Found(ParsedModel::Opaque) => Err(ErrorModel::Opaque(k)),
                Lookup::Missing => Ok(
                    render(
                        with_block(
                            d,
                            with_items(b, put(b.items, list_property(k, seq![x], eol))),
                        ),
                    ),
                ),
                Lookup::Found(ParsedModel::List(l)) => if holds_item(l, x) {
                    Ok(t)
                } else {
                    Ok(
                        render(
                            with_block(
                                d,
                                with_items(b, put(b.items, list_property(k, l.push(x), eol))),
                            ),
                        ),
                    )
                },
            }
        }
    }
}

/// Whether `l` holds `x`.
fn holds_item_exec(l: &Vec<Vec<char>>, x: &[char]) -> (b: bool)
    ensures
        b == holds_item(seqs(l@), x@),
{
    let mut i: usize = 0;
    while i < l.len()
        invariant
            i <= l@.len(),
            forall|j: int| 0 <= j < i ==> seqs(l@)[j] != x@,
        decreases l@.len() - i,
    {
        if crate::frontmatter::document::same_chars(l[i].as_slice(), x) {
            assert(seqs(l@)[i as int] == x@);
            return true;
        }
        i += 1;
    }
    false
}

/// Copies of the given character vectors.
fn copied_all(l: &Vec<Vec<char>>) -> (out: Vec<Vec<char>>)
    ensures
        seqs(out@) == seqs(l@),
{
    let mut out: Vec<Vec<char>> = Vec::new();
    let mut i: usize = 0;
    while i < l.len()
        invariant
            i <= l@.len(),
            seqs(out@) == seqs(l@).take(i as int),
        decreases l@.len() - i,
    {
        let c = copied(l[i].as_slice());
        proof {
            crate::frontmatter::value::lemma_seqs_push(out@, c);
        }
        out.push(c);
        assert(seqs(l@).take(i + 1) =~= seqs(l@).take(i as int).push(c@));
        i += 1;
    }
    assert(seqs(l@).take(l@.len() as int) =~= seqs(l@));
    out
}

/// Adds `item` to the list property `key`, creating the note's block and
/// the property as needed. An item already present is already the
/// requested state and returns the note unchanged.
///
/// # Errors
///
/// Returns an error when `key` is not a valid property key, names
/// duplicated properties, or holds a text or out-of-subset value, when
/// `item` spans lines, or when the frontmatter is not property lines.
pub fn add(text: &str, key: &str, item: &str) -> (r: Result<String, Error>)
    ensures
        edit_view(r) == add_spec(text@, key@, item@),
{
    let k = chars_of(key);
    validated_key_chars(k.as_slice())?;
    let x = chars_of(item);
    validated_value(x.as_slice())?;
    let t = chars_of(text);
    let (mut document, _) = document_with_block(t.as_slice());
    let mut block = document.block.take().unwrap();
    if foreign_rooted(&block) {
        return Err(Error::ForeignBlock);
    }
    let (state, at) = lookup_key(&block, k.as_slice());
    if state == 2 {
        return Err(Error::DuplicateKey { key: string_of(k.as_slice()) });
    }
    proof {
        crate::frontmatter::document::lemma_key_index(block@.items, k@);
    }
    let mut items: Vec<Vec<char>> = if state == 1 {
        match value_at(&block, at) {
            Some(Parsed::Scalar(_)) => {
                return Err(Error::NotAList { key: string_of(k.as_slice()) });
            },
            Some(Parsed::Opaque) => {
                return Err(Error::Opaque { key: string_of(k.as_slice()) });
            },
            Some(Parsed::List(l)) => {
                if holds_item_exec(l, x.as_slice()) {
                    return Ok(string_of(t.as_slice()));
                }
                copied_all(l)
            },
            None => Vec::new(),
        }
    } else {
        Vec::new()
    };
    let ghost listed = seqs(items@);
    proof {
        crate::frontmatter::value::lemma_seqs_push(items@, x);
    }
    items.push(x);
    assert(state == 0 ==> seqs(items@) =~= seq![x@]);
    let eol = eol_of(&block);
    let property = list_property_of(k.as_slice(), items, eol.as_slice());
    put_property(&mut block, property);
    document.block = Some(block);
    let out = render_document(&document);
    Ok(string_of(out.as_slice()))
}

/// The note `t` with `x` removed from the list property `k`, as
/// [`remove`] writes it.
pub open spec fn remove_spec(t: Seq<char>, k: Seq<char>, x: Seq<char>) -> Result<Seq<char>, ErrorModel> {
    if key_problem(k) is Some {
        Err(ErrorModel::InvalidKey(k, key_problem(k).unwrap()))
    } else if value_problem(x) is Some {
        Err(value_problem(x).unwrap())
    } else {
        let d = parse(t);
        match d.block {
            None => Ok(t),
            Some(b) => if foreign_from(b.items, 0) {
                Err(ErrorModel::ForeignBlock)
            } else {
                match lookup(b.items, k) {
                    Lookup::Duplicate => Err(ErrorModel::DuplicateKey(k)),
                    Lookup::Missing => Ok(t),
                    Lookup::Found(ParsedModel::Scalar(_)) => Err(ErrorModel::NotAList(k)),
                    Lookup::Found(ParsedModel::Opaque) => Err(ErrorModel::Opaque(k)),
                    Lookup::Found(ParsedModel::List(l)) => {
                        let rest = without(l, x);
                        if rest.len() == l.len() {
                            Ok(t)
                        } else {
                            Ok(
                                render(
                                    with_block(
                                        d,
                                        with_items(
                                            b,
                                            put(b.items, list_property(k, rest, block_eol(b))),
                                        ),
                                    ),
                                ),
                            )
                        }
                    },
                }
            },
        }
    }
}

/// `l` without every item equal to `x`.
fn without_item(l: &Vec<Vec<char>>, x: &[char]) -> (out: Vec<Vec<char>>)
    ensures
        seqs(out@) == without(seqs(l@), x@),
{
    let ghost ls = seqs(l@);
    let mut out: Vec<Vec<char>> = Vec::new();
    let mut i: usize = 0;
    while i < l.len()
        invariant
            i <= l@.len(),
            ls == seqs(l@),
            seqs(out@) == without(ls.take(i as int), x@),
        decreases l@.len() - i,
    {
        assert(ls.take(i + 1).drop_last() =~= ls.take(i as int));
        assert(ls.take(i + 1).last() == l@[i as int]@);
        if !crate::frontmatter::document::same_chars(l[i].as_slice(), x) {
            let c = copied(l[i].as_slice());
            proof {
                crate::frontmatter::value::lemma_seqs_push(out@, c);
            }
            out.push(c);
        }
        i += 1;
    }
    assert(ls.take(l@.len() as int) =~= ls);
    out
}

/// Removes `item` from the list property `key`. An absent item, a
/// missing property, or a note without frontmatter is already the
/// requested state and returns the note unchanged; removing the last
/// item leaves an empty list.
///
/// # Errors
///
/// Returns an error when `key` is not a valid property key, names
/// duplicated properties, or holds a text or out-of-subset value, when
/// `item` spans lines, or when the frontmatter is not property lines.
pub fn remove(text: &str, key: &str, item: &str) -> (r: Result<String, Error>)
    ensures
        edit_view(r) == remove_spec(text@, key@, item@),
{
    let k = chars_of(key);
    validated_key_chars(k.as_slice())?;
    let x = chars_of(item);
    validated_value(x.as_slice())?;
    let t = chars_of(text);
    let mut document = parse_document(t.as_slice());
    let mut block = match document.block.take() {
        Some(b) => b,
        None => {
            return Ok(string_of(t.as_slice()));
        },
    };
    if foreign_rooted(&block) {
        return Err(Error::ForeignBlock);
    }
    let (state, at) = lookup_key(&block, k.as_slice());
    if state == 0 {
        return Ok(string_of(t.as_slice()));
    }
    if state == 2 {
        return Err(Error::DuplicateKey { key: string_of(k.as_slice()) });
    }
    proof {
        crate::frontmatter::document::lemma_key_index(block@.items, k@);
    }
    let rest = match value_at(&block, at) {
        Some(Parsed::Scalar(_)) => {
            return Err(Error::NotAList { key: string_of(k.as_slice()) });
        },
        Some(Parsed::Opaque) => {
            return Err(Error::Opaque { key: string_of(k.as_slice()) });
        },
        Some(Parsed::List(l)) => {
            let rest = without_item(l, x.as_slice());
            if rest.len() == l.len() {
                return Ok(string_of(t.as_slice()));
            }
            rest
        },
        None => {
            return Ok(string_of(t.as_slice()));
        },
    };
    let eol = eol_of(&block);
    let property = list_property_of(k.as_slice(), rest, eol.as_slice());
    put_property(&mut block, property);
    document.block = Some(block);
    let out = render_document(&document);
    Ok(string_of(out.as_slice()))
}


/// The stamp properties a write records: who created the block, who last
/// wrote the note, and the already-rendered timestamp for both. A stamp
/// can only be built through [`Stamp::new`], which validates its parts.
#[derive(Debug)]
pub struct Stamp<'a> {
    created_key: &'a str,
    updated_key: &'a str,
    timestamp: &'a str,
}

impl<'a> Stamp<'a> {
    /// A stamp's parts render cleanly: both keys can name a property and
    /// the timestamp can be a property value.
    #[verifier::type_invariant]
    pub closed spec fn wf(self) -> bool {
        &&& key_problem(self.created_key@) is None
        &&& key_problem(self.updated_key@) is None
        &&& value_problem(self.timestamp@) is None
    }

    /// The property recording when the block was created.
    pub closed spec fn created(self) -> Seq<char> {
        self.created_key@
    }

    /// The property recording when the note was last written.
    pub closed spec fn updated(self) -> Seq<char> {
        self.updated_key@
    }

    /// The timestamp both stamps record.
    pub closed spec fn time(self) -> Seq<char> {
        self.timestamp@
    }

    /// Builds a stamp whose parts are proven writable.
    ///
    /// # Errors
    ///
    /// Returns an error when either key cannot name a property or the
    /// timestamp cannot be a property value.
    pub fn new(created_key: &'a str, updated_key: &'a str, timestamp: &'a str) -> (r: Result<
        Self,
        Error,
    >)
        ensures
            r is Ok <==> (key_problem(created_key@) is None && key_problem(updated_key@) is None
                && value_problem(timestamp@) is None),
            r matches Ok(s) ==> s.created() == created_key@ && s.updated() == updated_key@
                && s.time() == timestamp@,
            r matches Err(e) ==> e@ == (if key_problem(created_key@) is Some {
                ErrorModel::InvalidKey(created_key@, key_problem(created_key@).unwrap())
            } else if key_problem(updated_key@) is Some {
                ErrorModel::InvalidKey(updated_key@, key_problem(updated_key@).unwrap())
            } else {
                value_problem(timestamp@).unwrap()
            }),
    {
        validated_key(created_key)?;
        validated_key(updated_key)?;
        let ts = chars_of(timestamp);
        validated_value(ts.as_slice())?;
        Ok(Stamp { created_key, updated_key, timestamp })
    }
}

/// Whether a lookup leaves a stamp key writable as text: absent or a
/// single text value.
pub open spec fn stamp_writable(l: Lookup) -> bool {
    l is Missing || l matches Lookup::Found(ParsedModel::Scalar(_))
}

/// The note `t` stamped after an edit, as [`stamped`] writes it.
pub open spec fn stamped_spec(
    t: Seq<char>,
    had_block: bool,
    created: Seq<char>,
    updated: Seq<char>,
    time: Seq<char>,
) -> Seq<char> {
    let d = parse(t);
    let b = block_or_new(d);
    let eol = block_eol(b);
    if d.block is None && had_block {
        t
    } else if foreign_from(b.items, 0) {
        t
    } else if !stamp_writable(lookup(b.items, updated)) {
        t
    } else if !had_block && !stamp_writable(lookup(b.items, created)) {
        t
    } else {
        let items = if !had_block && lookup(b.items, created) is Missing {
            put(b.items, scalar_property(created, time, eol))
        } else {
            b.items
        };
        render(with_block(d, with_items(b, put(items, scalar_property(updated, time, eol)))))
    }
}

/// Whether the block's property `key` can be stamped: absent or text.
fn stamp_state(b: &crate::frontmatter::document::Block, key: &[char]) -> (r: u8)
    ensures
        r <= 2,
        r == 0 <==> lookup(b@.items, key@) is Missing,
        r == 1 <==> lookup(b@.items, key@) matches Lookup::Found(ParsedModel::Scalar(_)),
{
    let (state, at) = lookup_key(b, key);
    if state == 0 {
        return 0;
    }
    if state == 2 {
        return 2;
    }
    proof {
        crate::frontmatter::document::lemma_key_index(b@.items, key@);
    }
    match value_at(b, at) {
        Some(Parsed::Scalar(_)) => 1,
        _ => 2,
    }
}

/// Stamps a note after an edit: the updated stamp is set, and the
/// created stamp too when the edit made a block where `had_block` says
/// there was none — a text stamp value the same edit set by hand
/// survives. Stamping is best effort and all or nothing: when the edit
/// removed the block, or either stamp key exists as a list, a duplicate,
/// or an out-of-subset value, the note is returned unchanged.
pub fn stamped(text: &str, had_block: bool, stamp: &Stamp<'_>) -> (r: String)
    ensures
        r@ == stamped_spec(text@, had_block, stamp.created(), stamp.updated(), stamp.time()),
{
    let t = chars_of(text);
    let (mut document, existed) = document_with_block(t.as_slice());
    if !existed && had_block {
        return string_of(t.as_slice());
    }
    let mut block = document.block.take().unwrap();
    if foreign_rooted(&block) {
        return string_of(t.as_slice());
    }
    let updated = chars_of(stamp.updated_key);
    let created = chars_of(stamp.created_key);
    let time = chars_of(stamp.timestamp);
    if stamp_state(&block, updated.as_slice()) == 2 {
        return string_of(t.as_slice());
    }
    let eol = eol_of(&block);
    if !had_block {
        let state = stamp_state(&block, created.as_slice());
        if state == 2 {
            return string_of(t.as_slice());
        }
        if state == 0 {
            let property = scalar_property_of(created.as_slice(), time.as_slice(), eol.as_slice());
            put_property(&mut block, property);
        }
    }
    let property = scalar_property_of(updated.as_slice(), time.as_slice(), eol.as_slice());
    put_property(&mut block, property);
    document.block = Some(block);
    let out = render_document(&document);
    string_of(out.as_slice())
}

/// The message an error displays.
pub open spec fn error_message(e: ErrorModel) -> Seq<char> {
    match e {
        ErrorModel::InvalidKey(key, reason) => "invalid property key \""@ + debug_escaped(key)
            + "\": "@ + reason,
        ErrorModel::MultilineValue(value) => "property values are single lines, got \""@
            + debug_escaped(value) + "\""@,
        ErrorModel::ForeignBlock => "the frontmatter is a single value, not properties"@,
        ErrorModel::UnprintableValue(value) =>
            "property values cannot hold unprintable characters, got \""@ + debug_escaped(value)
            + "\""@,
        ErrorModel::DuplicateKey(key) => "multiple properties named \""@ + key + "\""@,
        ErrorModel::Opaque(key) => "property \""@ + key + "\" is not a text or list value"@,
        ErrorModel::NotAList(key) => "property \""@ + key + "\" is not a list"@,
    }
}

impl Error {
    /// The message the error displays.
    pub fn message(&self) -> (m: String)
        ensures
            m@ == error_message(self@),
    {
        proof {
            reveal_strlit("");
        }
        match self {
            Error::InvalidKey { key, reason } => {
                let escaped = escape_debug(key.as_str());
                let head = joined("invalid property key \"", escaped.as_str(), "\": ");
                joined(head.as_str(), reason, "")
            },
            Error::MultilineValue { value } => {
                let escaped = escape_debug(value.as_str());
                joined("property values are single lines, got \"", escaped.as_str(), "\"")
            },
            Error::ForeignBlock => joined("the frontmatter is a single value, not properties", "", ""),
            Error::UnprintableValue { value } => {
                let escaped = escape_debug(value.as_str());
                joined(
                    "property values cannot hold unprintable characters, got \"",
                    escaped.as_str(),
                    "\"",
                )
            },
            Error::DuplicateKey { key } => joined("multiple properties named \"", key.as_str(), "\""),
            Error::Opaque { key } => joined("property \"", key.as_str(), "\" is not a text or list value"),
            Error::NotAList { key } => joined("property \"", key.as_str(), "\" is not a list"),
        }
    }
}

} // verus!
