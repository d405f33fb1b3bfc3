//! A note split at its frontmatter boundary, and the block-level edits
//! the public operations are built from.
use vstd::prelude::*;

use crate::frontmatter::lines::{
    classify, classify_from, commentary, content, content_len, is_commentary, items_view,
    lemma_items_push, Item, ItemModel, Property, PropertyModel,
};
use crate::frontmatter::scalar::{push_rendered_scalar, rendered_scalar};
use crate::frontmatter::value::{seqs, lemma_seqs_push, Parsed, ParsedModel};
use crate::text::{ends_with, ends_with_in, find_char, find_from, lemma_find_from, push_all, sliced};

verus! {

/// A frontmatter block: its fence lines verbatim, and its interior.
pub struct Block {
    pub opening: Vec<char>,
    pub items: Vec<Item>,
    pub closing: Vec<char>,
}

/// A note split at the frontmatter boundary: the byte order mark before
/// an opening fence, if any; the block; and the remainder verbatim.
pub struct Document {
    pub head: Vec<char>,
    pub block: Option<Block>,
    pub body: Vec<char>,
}

/// The logical content of a [`Block`].
pub struct BlockModel {
    pub opening: Seq<char>,
    pub items: Seq<ItemModel>,
    pub closing: Seq<char>,
}

/// The logical content of a [`Document`].
pub struct DocumentModel {
    pub head: Seq<char>,
    pub block: Option<BlockModel>,
    pub body: Seq<char>,
}

impl View for Block {
    type V = BlockModel;

    open spec fn view(&self) -> BlockModel {
        BlockModel { opening: self.opening@, items: items_view(self.items@), closing: self.closing@ }
    }
}

impl View for Document {
    type V = DocumentModel;

    open spec fn view(&self) -> DocumentModel {
        DocumentModel {
            head: self.head@,
            block: match self.block {
                Some(b) => Some(b@),
                None => None,
            },
            body: self.body@,
        }
    }
}

/// The length of the byte order mark the note starts with, if any.
pub open spec fn head_len(t: Seq<char>) -> int {
    if t.len() > 0 && t[0] == '\u{feff}' {
        1
    } else {
        0
    }
}

/// The index just past the line starting at `i`.
pub open spec fn line_end(t: Seq<char>, i: int) -> int {
    match find_from(t, '\n', i) {
        Some(j) => j + 1,
        None => t.len() as int,
    }
}

/// Whether the line starting at `i` is a fence: exactly `---`.
pub open spec fn fence_line(t: Seq<char>, i: int) -> bool {
    content(t.subrange(i, line_end(t, i))) == seq!['-', '-', '-']
}

/// The start of the first fence line at or after `i`.
pub open spec fn closing_from(t: Seq<char>, i: int) -> Option<int>
    decreases t.len() - i,
{
    if i < 0 || i >= t.len() {
        None
    } else if fence_line(t, i) {
        Some(i)
    } else if line_end(t, i) <= i || line_end(t, i) > t.len() {
        None
    } else {
        closing_from(t, line_end(t, i))
    }
}

/// The lines from `i` up to the next fence line or the end.
pub open spec fn interior_lines(t: Seq<char>, i: int) -> Seq<Seq<char>>
    decreases t.len() - i,
{
    if i < 0 || i >= t.len() || fence_line(t, i) || line_end(t, i) <= i || line_end(t, i)
        > t.len() {
        Seq::empty()
    } else {
        seq![t.subrange(i, line_end(t, i))] + interior_lines(t, line_end(t, i))
    }
}

/// Splits a note at the frontmatter boundary. A note whose head is not a
/// well-formed block is all body.
pub open spec fn parse(t: Seq<char>) -> DocumentModel {
    let h = head_len(t);
    let o = line_end(t, h);
    let body_only = DocumentModel { head: t.take(h), block: None, body: t.skip(h) };
    if h >= t.len() || t[o - 1] != '\n' || !fence_line(t, h) {
        body_only
    } else {
        match closing_from(t, o) {
            None => body_only,
            Some(c) => DocumentModel {
                head: t.take(h),
                block: Some(
                    BlockModel {
                        opening: t.subrange(h, o),
                        items: classify_from(interior_lines(t, o), 0),
                        closing: t.subrange(c, line_end(t, c)),
                    },
                ),
                body: t.skip(line_end(t, c)),
            },
        }
    }
}

pub proof fn lemma_line_end(t: Seq<char>, i: int)
    requires
        0 <= i < t.len(),
    ensures
        i < line_end(t, i) <= t.len(),
        line_end(t, i) < t.len() ==> t[line_end(t, i) - 1] == '\n',
        find_from(t, '\n', i) is None ==> line_end(t, i) == t.len(),
{
    lemma_find_from(t, '\n', i);
}

/// The index just past the line of `t` starting at `i`.
fn next_line(t: &[char], i: usize) -> (e: usize)
    requires
        i < t@.len(),
    ensures
        e == line_end(t@, i as int),
        i < e <= t@.len(),
{
    proof {
        lemma_line_end(t@, i as int);
    }
    let n = t.len();
    match find_char(t, '\n', i) {
        Some(j) => j + 1,
        None => t.len(),
    }
}

/// Whether the line `t[i..e]` is a fence.
fn is_fence_at(t: &[char], i: usize, e: usize) -> (b: bool)
    requires
        i <= e <= t@.len(),
    ensures
        b == (content(t@.subrange(i as int, e as int)) == seq!['-', '-', '-']),
{
    let k = content_len(t, i, e);
    let ghost c = t@.subrange(i as int, i + k);
    if k == 3 && t[i] == '-' && t[i + 1] == '-' && t[i + 2] == '-' {
        assert(c =~= seq!['-', '-', '-']);
        true
    } else {
        assert(c != seq!['-', '-', '-']) by {
            if c == seq!['-', '-', '-'] {
                assert(c.len() == 3);
                assert(c[0] == t@[i as int] && c[1] == t@[i + 1] && c[2] == t@[i + 2]);
            }
        }
        false
    }
}

/// Splits a note at the frontmatter boundary.
pub fn parse_document(t: &[char]) -> (d: Document)
    ensures
        d@ == parse(t@),
{
    let n = t.len();
    let h: usize = if n > 0 && t[0] == '\u{feff}' {
        1
    } else {
        0
    };
    if h >= n {
        return Document { head: sliced(t, 0, h), block: None, body: sliced(t, h, n) };
    }
    let o = next_line(t, h);
    if t[o - 1] != '\n' || !is_fence_at(t, h, o) {
        assert(t@.subrange(h as int, n as int) =~= t@.skip(h as int));
        return Document { head: sliced(t, 0, h), block: None, body: sliced(t, h, n) };
    }
    let mut lines: Vec<Vec<char>> = Vec::new();
    let mut i: usize = o;
    assert(seqs(lines@) =~= Seq::<Seq<char>>::empty());
    while i < n && !is_fence_at(t, i, next_line(t, i))
        invariant
            o <= i <= n == t@.len(),
            closing_from(t@, o as int) == closing_from(t@, i as int),
            interior_lines(t@, o as int) == seqs(lines@) + interior_lines(t@, i as int),
        decreases n - i,
    {
        let e = next_line(t, i);
        let line = sliced(t, i, e);
        proof {
            lemma_seqs_push(lines@, line);
            assert(interior_lines(t@, o as int) =~= seqs(lines@).push(line@) + interior_lines(
                t@,
                e as int,
            ));
        }
        lines.push(line);
        i = e;
    }
    assert(t@.subrange(h as int, n as int) =~= t@.skip(h as int));
    if i >= n {
        return Document { head: sliced(t, 0, h), block: None, body: sliced(t, h, n) };
    }
    let ce = next_line(t, i);
    assert(interior_lines(t@, i as int) =~= Seq::<Seq<char>>::empty());
    assert(seqs(lines@) =~= interior_lines(t@, o as int));
    assert(t@.subrange(ce as int, n as int) =~= t@.skip(ce as int));
    let items = classify(&lines);
    Document {
        head: sliced(t, 0, h),
        block: Some(Block { opening: sliced(t, h, o), items, closing: sliced(t, i, ce) }),
        body: sliced(t, ce, n),
    }
}

pub proof fn lemma_parse_body(t: Seq<char>)
    ensures
        parse(t).body.len() <= t.len(),
        t.skip(t.len() - parse(t).body.len()) == parse(t).body,
{
    let h = head_len(t);
    if h < t.len() {
        lemma_line_end(t, h);
        let o = line_end(t, h);
        if t[o - 1] == '\n' && fence_line(t, h) {
            lemma_closing_from(t, o);
            if let Some(c) = closing_from(t, o) {
                lemma_line_end(t, c);
                assert(t.skip(t.len() - parse(t).body.len()) =~= parse(t).body);
            }
        }
    }
    assert(t.skip(t.len() - parse(t).body.len()) =~= parse(t).body);
}

pub proof fn lemma_closing_from(t: Seq<char>, i: int)
    requires
        0 <= i,
    ensures
        closing_from(t, i) matches Some(c) ==> i <= c < t.len(),
    decreases t.len() - i,
{
    if 0 <= i < t.len() && !fence_line(t, i) && i < line_end(t, i) <= t.len() {
        lemma_closing_from(t, line_end(t, i));
    }
}

/// The text an item stands for.
pub open spec fn item_text(it: ItemModel) -> Seq<char> {
    match it {
        ItemModel::Property(p) => p.raw,
        ItemModel::Raw(l) => l,
    }
}

/// The text a run of items stands for.
pub open spec fn render_items(items: Seq<ItemModel>) -> Seq<char>
    decreases items.len(),
{
    if items.len() == 0 {
        Seq::empty()
    } else {
        render_items(items.drop_last()) + item_text(items.last())
    }
}

/// Reassembles a note from its parts; untouched parts come back verbatim.
pub open spec fn render(d: DocumentModel) -> Seq<char> {
    d.head + match d.block {
        Some(b) => b.opening + render_items(b.items) + b.closing,
        None => Seq::empty(),
    } + d.body
}

/// Exec twin of [`render`].
pub fn render_document(d: &Document) -> (out: Vec<char>)
    ensures
        out@ == render(d@),
{
    let mut out: Vec<char> = Vec::new();
    push_all(&mut out, d.head.as_slice());
    let ghost after_head = out@;
    match &d.block {
        Some(b) => {
            push_all(&mut out, b.opening.as_slice());
            let ghost base = out@;
            let mut i: usize = 0;
            while i < b.items.len()
                invariant
                    i <= b.items@.len(),
                    out@ == base + render_items(items_view(b.items@).take(i as int)),
                decreases b.items@.len() - i,
            {
                let ghost before = out@;
                match &b.items[i] {
                    Item::Property(p) => push_all(&mut out, p.raw.as_slice()),
                    Item::Raw(l) => push_all(&mut out, l.as_slice()),
                }
                proof {
                    let iv = items_view(b.items@);
                    assert(iv.take(i + 1).drop_last() =~= iv.take(i as int));
                    assert(iv.take(i + 1).last() == b.items@[i as int]@);
                }
                i += 1;
            }
            assert(items_view(b.items@).take(b.items@.len() as int) =~= items_view(b.items@));
            push_all(&mut out, b.closing.as_slice());
        },
        None => {},
    }
    push_all(&mut out, d.body.as_slice());
    assert(out@ =~= render(d@));
    out
}

/// Whether a property line starting with `c` roots the block in a flow
/// value or other YAML syntax rather than property lines.
pub open spec fn foreign_start(c: char) -> bool {
    c == '{' || c == '[' || c == ']' || c == '}' || c == '&' || c == '*' || c == '!' || c == '%'
        || c == '@' || c == '`' || c == '?' || c == '|' || c == '>' || c == ','
}

/// Whether the block's interior, from item `i`, is rooted in something
/// other than property lines: the first content line decides.
pub open spec fn foreign_from(items: Seq<ItemModel>, i: int) -> bool
    decreases items.len() - i,
{
    if i < 0 || i >= items.len() {
        false
    } else {
        match items[i] {
            ItemModel::Property(p) => p.raw.len() > 0 && foreign_start(p.raw[0]),
            ItemModel::Raw(l) => if commentary(content(l)) {
                foreign_from(items, i + 1)
            } else {
                true
            },
        }
    }
}

/// Exec twin of [`foreign_from`] from the first item.
pub fn foreign_rooted(b: &Block) -> (r: bool)
    ensures
        r == foreign_from(b@.items, 0),
{
    let ghost iv = items_view(b.items@);
    let mut i: usize = 0;
    while i < b.items.len()
        invariant
            i <= b.items@.len(),
            iv == items_view(b.items@),
            foreign_from(iv, 0) == foreign_from(iv, i as int),
        decreases b.items@.len() - i,
    {
        match &b.items[i] {
            Item::Property(p) => {
                let c = if p.raw.len() > 0 {
                    p.raw[0]
                } else {
                    ' '
                };
                return p.raw.len() > 0 && (c == '{' || c == '[' || c == ']' || c == '}' || c
                    == '&' || c == '*' || c == '!' || c == '%' || c == '@' || c == '`' || c == '?'
                    || c == '|' || c == '>' || c == ',');
            },
            Item::Raw(l) => {
                let k = content_len(l.as_slice(), 0, l.len());
                assert(l@.subrange(0, l@.len() as int) =~= l@);
                if !is_commentary(l.as_slice(), 0, k) {
                    return true;
                }
            },
        }
        i += 1;
    }
    false
}

/// Whether an item is the property named `key`.
pub open spec fn holds_key(it: ItemModel, key: Seq<char>) -> bool {
    it matches ItemModel::Property(p) && p.key == key
}

/// What a block holds under a key: nothing, one value, or duplicates.
pub enum Lookup {
    Missing,
    Found(ParsedModel),
    Duplicate,
}

/// What `items` hold under `key`.
pub open spec fn lookup(items: Seq<ItemModel>, key: Seq<char>) -> Lookup
    decreases items.len(),
{
    if items.len() == 0 {
        Lookup::Missing
    } else {
        let rest = lookup(items.drop_last(), key);
        if holds_key(items.last(), key) {
            match rest {
                Lookup::Missing => Lookup::Found(items.last()->Property_0.value),
                _ => Lookup::Duplicate,
            }
        } else {
            rest
        }
    }
}

/// The index of the first property named `key`.
pub open spec fn key_index(items: Seq<ItemModel>, key: Seq<char>) -> Option<int>
    decreases items.len(),
{
    if items.len() == 0 {
        None
    } else {
        match key_index(items.drop_last(), key) {
            Some(i) => Some(i),
            None => if holds_key(items.last(), key) {
                Some(items.len() - 1)
            } else {
                None
            },
        }
    }
}

pub proof fn lemma_key_index(items: Seq<ItemModel>, key: Seq<char>)
    ensures
        key_index(items, key) matches Some(i) ==> 0 <= i < items.len() && holds_key(
            items[i],
            key,
        ),
        key_index(items, key) is None <==> lookup(items, key) is Missing,
        lookup(items, key) matches Lookup::Found(v) ==> key_index(items, key) matches Some(i)
            && items[i]->Property_0.value == v,
    decreases items.len(),
{
    if items.len() > 0 {
        lemma_key_index(items.drop_last(), key);
        if key_index(items.drop_last(), key) is Some {
            let i = key_index(items.drop_last(), key).unwrap();
            assert(items[i] == items.drop_last()[i]);
        }
    }
}

/// Whether the key of `it` equals `key`.
fn item_has_key(it: &Item, key: &[char]) -> (b: bool)
    ensures
        b == holds_key(it@, key@),
{
    match it {
        Item::Property(p) => same_chars(p.key.as_slice(), key),
        Item::Raw(_) => false,
    }
}

/// Whether two character slices are equal.
pub fn same_chars(a: &[char], b: &[char]) -> (r: bool)
    ensures
        r == (a@ == b@),
{
    if a.len() != b.len() {
        return false;
    }
    let mut i: usize = 0;
    while i < a.len()
        invariant
            i <= a@.len() == b@.len(),
            forall|j: int| 0 <= j < i ==> a@[j] == b@[j],
        decreases a@.len() - i,
    {
        if a[i] != b[i] {
            return false;
        }
        i += 1;
    }
    assert(a@ =~= b@);
    true
}

/// What the block holds under `key`, with the index of its first match.
pub fn lookup_key(b: &Block, key: &[char]) -> (r: (u8, usize))
    ensures
        r.0 == 0 ==> lookup(b@.items, key@) is Missing,
        r.0 == 1 ==> lookup(b@.items, key@) is Found && key_index(b@.items, key@) == Some(
            r.1 as int,
        ),
        r.0 == 2 ==> lookup(b@.items, key@) is Duplicate,
        r.0 <= 2,
{
    let ghost iv = items_view(b.items@);
    let mut state: u8 = 0;
    let mut at: usize = 0;
    let mut i: usize = 0;
    while i < b.items.len()
        invariant
            i <= b.items@.len(),
            iv == items_view(b.items@),
            state <= 2,
            state == 0 ==> lookup(iv.take(i as int), key@) is Missing && key_index(
                iv.take(i as int),
                key@,
            ) is None,
            state == 1 ==> lookup(iv.take(i as int), key@) is Found && key_index(
                iv.take(i as int),
                key@,
            ) == Some(at as int),
            state == 2 ==> lookup(iv.take(i as int), key@) is Duplicate && key_index(
                iv.take(i as int),
                key@,
            ) is Some,
        decreases b.items@.len() - i,
    {
        let hit = item_has_key(&b.items[i], key);
        proof {
            assert(iv.take(i + 1).drop_last() =~= iv.take(i as int));
            assert(iv.take(i + 1).last() == b.items@[i as int]@);
        }
        if hit {
            if state == 0 {
                state = 1;
                at = i;
            } else {
                state = 2;
            }
        }
        i += 1;
    }
    assert(iv.take(b.items@.len() as int) =~= iv);
    (state, at)
}

/// The value of the property at item `at`.
pub fn value_at(b: &Block, at: usize) -> (v: Option<&Parsed>)
    requires
        at < b.items@.len(),
        b.items@[at as int] is Property,
    ensures
        v matches Some(x) && *x == b.items@[at as int]->Property_0.value,
{
    match &b.items[at] {
        Item::Property(p) => Some(&p.value),
        Item::Raw(_) => None,
    }
}

/// The items with `new` replacing the property sharing its key, or
/// appended at the end.
pub open spec fn put(items: Seq<ItemModel>, new: PropertyModel) -> Seq<ItemModel> {
    match key_index(items, new.key) {
        Some(i) => items.update(i, ItemModel::Property(new)),
        None => items.push(ItemModel::Property(new)),
    }
}

/// Exec twin of [`put`].
pub fn put_property(b: &mut Block, new: Property)
    ensures
        final(b)@.items == put(old(b)@.items, new@),
        final(b)@.opening == old(b)@.opening,
        final(b)@.closing == old(b)@.closing,
{
    let ghost iv = items_view(b.items@);
    let mut i: usize = 0;
    let mut found: Option<usize> = None;
    while i < b.items.len()
        invariant
            i <= b.items@.len(),
            iv == items_view(b.items@),
            found == (match key_index(iv.take(i as int), new.key@) {
                Some(k) => Some(k as usize),
                None => None::<usize>,
            }),
            found matches Some(k) ==> k < i && key_index(iv.take(i as int), new.key@) == Some(
                k as int,
            ),
        decreases b.items@.len() - i,
    {
        let hit = item_has_key(&b.items[i], new.key.as_slice());
        proof {
            assert(iv.take(i + 1).drop_last() =~= iv.take(i as int));
            assert(iv.take(i + 1).last() == b.items@[i as int]@);
        }
        if hit && found.is_none() {
            found = Some(i);
        }
        i += 1;
    }
    assert(iv.take(b.items@.len() as int) =~= iv);
    let ghost newv = new@;
    match found {
        Some(k) => {
            b.items.set(k, Item::Property(new));
            assert(items_view(b.items@) =~= iv.update(k as int, ItemModel::Property(newv)));
        },
        None => {
            proof {
                lemma_items_push(b.items@, Item::Property(new));
            }
            b.items.push(Item::Property(new));
        },
    }
}

/// The line terminator for lines written into the block, matching the
/// opening fence.
pub open spec fn block_eol(b: BlockModel) -> Seq<char> {
    if ends_with(b.opening, seq!['\r', '\n']) {
        seq!['\r', '\n']
    } else {
        seq!['\n']
    }
}

/// Exec twin of [`block_eol`].
pub fn eol_of(b: &Block) -> (eol: Vec<char>)
    ensures
        eol@ == block_eol(b@),
{
    let crlf: Vec<char> = vec!['\r', '\n'];
    assert(crlf@ =~= seq!['\r', '\n']);
    assert(b.opening@.subrange(0, b.opening@.len() as int) =~= b.opening@);
    if ends_with_in(b.opening.as_slice(), 0, b.opening.len(), crlf.as_slice()) {
        crlf
    } else {
        let lf: Vec<char> = vec!['\n'];
        assert(lf@ =~= seq!['\n']);
        lf
    }
}

/// The empty block a note gains with its first property.
pub open spec fn new_block_model() -> BlockModel {
    BlockModel { opening: seq!['-', '-', '-', '\n'], items: Seq::empty(), closing: seq!['-', '-', '-', '\n'] }
}

/// Exec twin of [`new_block_model`].
pub fn new_block() -> (b: Block)
    ensures
        b@ == new_block_model(),
{
    let opening: Vec<char> = vec!['-', '-', '-', '\n'];
    let closing: Vec<char> = vec!['-', '-', '-', '\n'];
    let items: Vec<Item> = Vec::new();
    let b = Block { opening, items, closing };
    assert(b@.opening =~= seq!['-', '-', '-', '\n']);
    assert(b@.closing =~= seq!['-', '-', '-', '\n']);
    assert(b@.items =~= Seq::<ItemModel>::empty());
    b
}

/// A freshly rendered text property: `key: value` in canonical spelling.
pub open spec fn scalar_property(key: Seq<char>, value: Seq<char>, eol: Seq<char>) -> PropertyModel {
    PropertyModel {
        key,
        value: ParsedModel::Scalar(value),
        raw: key + seq![':', ' '] + rendered_scalar(value) + eol,
    }
}

/// Exec twin of [`scalar_property`].
pub fn scalar_property_of(key: &[char], value: &[char], eol: &[char]) -> (p: Property)
    ensures
        p@ == scalar_property(key@, value@, eol@),
{
    let mut raw: Vec<char> = Vec::new();
    push_all(&mut raw, key);
    raw.push(':');
    raw.push(' ');
    push_rendered_scalar(&mut raw, value, 0, value.len());
    push_all(&mut raw, eol);
    assert(value@.subrange(0, value@.len() as int) =~= value@);
    assert(raw@ =~= key@ + seq![':', ' '] + rendered_scalar(value@) + eol@);
    Property {
        key: vstd::slice::slice_to_vec(key),
        value: Parsed::Scalar(vstd::slice::slice_to_vec(value)),
        raw,
    }
}

/// The lines of a block-style list's items.
pub open spec fn list_lines(items: Seq<Seq<char>>, eol: Seq<char>) -> Seq<char>
    decreases items.len(),
{
    if items.len() == 0 {
        Seq::empty()
    } else {
        list_lines(items.drop_last(), eol) + seq![' ', ' ', '-', ' '] + rendered_scalar(items.last())
            + eol
    }
}

/// A freshly rendered list property, in block style; an empty list
/// renders inline as `[]`.
pub open spec fn list_property(key: Seq<char>, items: Seq<Seq<char>>, eol: Seq<char>) -> PropertyModel {
    PropertyModel {
        key,
        value: ParsedModel::List(items),
        raw: if items.len() == 0 {
            key + seq![':', ' ', '[', ']'] + eol
        } else {
            key + seq![':'] + eol + list_lines(items, eol)
        },
    }
}

/// Exec twin of [`list_property`].
pub fn list_property_of(key: &[char], items: Vec<Vec<char>>, eol: &[char]) -> (p: Property)
    ensures
        p@ == list_property(key@, seqs(items@), eol@),
{
    let ghost iv = seqs(items@);
    let mut raw: Vec<char> = Vec::new();
    push_all(&mut raw, key);
    if items.len() == 0 {
        raw.push(':');
        raw.push(' ');
        raw.push('[');
        raw.push(']');
        push_all(&mut raw, eol);
        assert(raw@ =~= key@ + seq![':', ' ', '[', ']'] + eol@);
    } else {
        raw.push(':');
        push_all(&mut raw, eol);
        let ghost base = raw@;
        let mut i: usize = 0;
        while i < items.len()
            invariant
                i <= items@.len(),
                iv == seqs(items@),
                raw@ == base + list_lines(iv.take(i as int), eol@),
            decreases items@.len() - i,
        {
            let ghost before = raw@;
            raw.push(' ');
            raw.push(' ');
            raw.push('-');
            raw.push(' ');
            let item = items[i].as_slice();
            push_rendered_scalar(&mut raw, item, 0, item.len());
            push_all(&mut raw, eol);
            proof {
                assert(item@.subrange(0, item@.len() as int) =~= item@);
                assert(iv.take(i + 1).drop_last() =~= iv.take(i as int));
                assert(iv.take(i + 1).last() == item@);
                assert(raw@ =~= before + seq![' ', ' ', '-', ' '] + rendered_scalar(item@)
                    + eol@);
            }
            i += 1;
        }
        assert(iv.take(items@.len() as int) =~= iv);
        assert(raw@ =~= key@ + seq![':'] + eol@ + list_lines(iv, eol@));
    }
    Property { key: vstd::slice::slice_to_vec(key), value: Parsed::List(items), raw }
}

} // verus!
