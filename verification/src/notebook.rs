//! Notebooks and the paths of notes inside them: what a note target may
//! spell, which names are reserved, and how a name finds its note among
//! the notebook's notes. Walking and probing the filesystem is the
//! binary's work; this module decides what it finds means.
use vstd::prelude::*;

use unicase::UniCase;

use crate::config::NOTEBOOK_FILE;
use crate::paths::{
    component_spellings, component_texts, components, displayed, has_root, join, join_path, joined,
    joined_path, lossy, lossy_string, path_text, rooted, Part, PartModel,
};
use crate::text::{
    chars_of, contains_char, contains_infix, debug_escaped, ends_with, ends_with_in, escape_debug,
    has_char, has_infix, joined as concat, string_of, sliced,
};
use crate::write::TEMP_SUFFIX;

verus! {

/// Whether two names match under Unicode case folding, as unicase
/// compares them.
pub uninterp spec fn folded_eq(a: Seq<char>, b: Seq<char>) -> bool;

/// Whether `a` and `b` match case-insensitively; wraps `UniCase::eq`.
#[verifier::external_body]
fn same_folded(a: &str, b: &str) -> (r: bool)
    ensures
        r == folded_eq(a@, b@),
{
    UniCase::new(a) == UniCase::new(b)
}

/// The lowercase spelling std gives `s`.
pub uninterp spec fn lowercase(s: Seq<char>) -> Seq<char>;

/// `s` lowercased; wraps `str::to_lowercase`.
#[verifier::external_body]
fn lowered(s: &str) -> (r: String)
    ensures
        r@ == lowercase(s@),
{
    s.to_lowercase()
}

/// The file stem std reads from `p`, when it has one in Unicode.
pub uninterp spec fn stem_of(p: std::path::PathBuf) -> Option<Seq<char>>;

/// The stem of `p`; wraps `Path::file_stem` and `OsStr::to_str`.
#[verifier::external_body]
fn file_stem(p: &std::path::PathBuf) -> (r: Option<String>)
    ensures
        r matches Some(s) ==> stem_of(*p) == Some(s@),
        r is None ==> stem_of(*p) is None,
{
    p.file_stem().and_then(|stem| stem.to_str()).map(str::to_owned)
}

/// The file name std reads from `p`, when it has one in Unicode.
pub uninterp spec fn name_of(p: std::path::PathBuf) -> Option<Seq<char>>;

/// The file name of `p`; wraps `Path::file_name` and `OsStr::to_str`.
#[verifier::external_body]
fn file_name(p: &std::path::PathBuf) -> (r: Option<String>)
    ensures
        r matches Some(s) ==> name_of(*p) == Some(s@),
        r is None ==> name_of(*p) is None,
{
    p.file_name().and_then(|name| name.to_str()).map(str::to_owned)
}

/// The path std leaves of `p` once `root` is stripped from its front, when
/// `p` lies under `root`.
pub uninterp spec fn stripped(p: std::path::PathBuf, root: std::path::PathBuf) -> Option<std::path::PathBuf>;

/// `p` relative to `root`; wraps `Path::strip_prefix`.
#[verifier::external_body]
fn strip_root(p: &std::path::PathBuf, root: &std::path::PathBuf) -> (r: Option<std::path::PathBuf>)
    ensures
        r == stripped(*p, *root),
{
    p.strip_prefix(root).ok().map(|relative| relative.to_path_buf())
}

/// A copy of `p`; wraps `PathBuf::clone`.
#[verifier::external_body]
fn copied_path(p: &std::path::PathBuf) -> (r: std::path::PathBuf)
    ensures
        r == *p,
{
    p.clone()
}

/// Failure while opening a notebook or targeting a note inside it.
#[derive(Debug)]
pub enum Error {
    Open { path: std::path::PathBuf, cause: String },
    NotADirectory { path: std::path::PathBuf },
    NotRelative { target: std::path::PathBuf },
    InvalidComponent { target: std::path::PathBuf },
    EmptyTarget,
    Resolve { path: std::path::PathBuf, cause: String },
    Escape { target: std::path::PathBuf },
    ReservedTarget { target: std::path::PathBuf },
    TempTarget { target: std::path::PathBuf },
    NotAFile { path: std::path::PathBuf },
    ConfigNotRegular { path: std::path::PathBuf },
    NoSuchName { name: String },
    AmbiguousName { name: String, matches: Vec<std::path::PathBuf> },
}

/// The paths of a list, as std displays them, joined by commas.
pub open spec fn listed(paths: Seq<std::path::PathBuf>) -> Seq<char>
    decreases paths.len(),
{
    if paths.len() == 0 {
        Seq::empty()
    } else if paths.len() == 1 {
        path_text(paths[0])
    } else {
        listed(paths.drop_last()) + ", "@ + path_text(paths.last())
    }
}

/// The message an error displays.
pub open spec fn error_message(e: Error) -> Seq<char> {
    match e {
        Error::Open { path, cause } => "cannot open notebook "@ + path_text(path) + ": "@ + cause@,
        Error::NotADirectory { path } => "not a directory: "@ + path_text(path),
        Error::NotRelative { target } =>
            "note targets are relative paths inside the notebook, got \""@ + path_text(target)
            + "\""@,
        Error::InvalidComponent { target } => "note targets cannot leave the notebook, got \""@
            + path_text(target) + "\""@,
        Error::EmptyTarget => "note target is empty"@,
        Error::Resolve { path, cause } => "cannot resolve "@ + path_text(path) + ": "@ + cause@,
        Error::Escape { target } => "\""@ + path_text(target) + "\" escapes the notebook"@,
        Error::ReservedTarget { target } => "\""@ + path_text(target)
            + "\" names the notebook config, not a note"@,
        Error::TempTarget { target } => "\""@ + path_text(target)
            + "\" names a kladde temporary file, not a note"@,
        Error::NotAFile { path } => "not a file: "@ + path_text(path),
        Error::ConfigNotRegular { path } => "the notebook config "@ + path_text(path)
            + " is not a regular file"@,
        Error::NoSuchName { name } => "no note named \""@ + name@ + "\""@,
        Error::AmbiguousName { name, matches } => "multiple notes named \""@ + name@ + "\": "@
            + listed(matches@),
    }
}

/// The displayed paths of `paths`, joined by commas.
fn list(paths: &Vec<std::path::PathBuf>) -> (r: String)
    ensures
        r@ == listed(paths@),
{
    let mut out: Vec<char> = Vec::new();
    let mut i: usize = 0;
    while i < paths.len()
        invariant
            i <= paths@.len(),
            out@ == listed(paths@.take(i as int)),
        decreases paths@.len() - i,
    {
        let shown = displayed(&paths[i]);
        let shown = chars_of(shown.as_str());
        if i > 0 {
            out.push(',');
            out.push(' ');
        }
        crate::text::push_all(&mut out, shown.as_slice());
        proof {
            reveal_strlit(", ");
            assert(paths@.take(i + 1).drop_last() =~= paths@.take(i as int));
            assert(paths@.take(i + 1).last() == paths@[i as int]);
        }
        assert(out@ =~= listed(paths@.take(i + 1)));
        i += 1;
    }
    assert(paths@.take(paths@.len() as int) =~= paths@);
    string_of(out.as_slice())
}

/// `a`, `b`, `c` and `d` as one string.
fn concat4(a: &str, b: &str, c: &str, d: &str) -> (r: String)
    ensures
        r@ == a@ + b@ + c@ + d@,
{
    proof {
        reveal_strlit("");
    }
    let head = concat(a, b, c);
    concat(head.as_str(), d, "")
}

impl Error {
    /// The message the error displays.
    pub fn message(&self) -> (m: String)
        ensures
            m@ == error_message(*self),
    {
        proof {
            reveal_strlit("");
        }
        match self {
            Error::Open { path, cause } => {
                let p = displayed(path);
                concat4("cannot open notebook ", p.as_str(), ": ", cause.as_str())
            },
            Error::NotADirectory { path } => {
                let p = displayed(path);
                concat("not a directory: ", p.as_str(), "")
            },
            Error::NotRelative { target } => {
                let p = displayed(target);
                concat("note targets are relative paths inside the notebook, got \"", p.as_str(), "\"")
            },
            Error::InvalidComponent { target } => {
                let p = displayed(target);
                concat("note targets cannot leave the notebook, got \"", p.as_str(), "\"")
            },
            Error::EmptyTarget => concat("note target is empty", "", ""),
            Error::Resolve { path, cause } => {
                let p = displayed(path);
                concat4("cannot resolve ", p.as_str(), ": ", cause.as_str())
            },
            Error::Escape { target } => {
                let p = displayed(target);
                concat("\"", p.as_str(), "\" escapes the notebook")
            },
            Error::ReservedTarget { target } => {
                let p = displayed(target);
                concat("\"", p.as_str(), "\" names the notebook config, not a note")
            },
            Error::TempTarget { target } => {
                let p = displayed(target);
                concat("\"", p.as_str(), "\" names a kladde temporary file, not a note")
            },
            Error::NotAFile { path } => {
                let p = displayed(path);
                concat("not a file: ", p.as_str(), "")
            },
            Error::ConfigNotRegular { path } => {
                let p = displayed(path);
                concat("the notebook config ", p.as_str(), " is not a regular file")
            },
            Error::NoSuchName { name } => concat("no note named \"", name.as_str(), "\""),
            Error::AmbiguousName { name, matches } => {
                let shown = list(matches);
                concat4("multiple notes named \"", name.as_str(), "\": ", shown.as_str())
            },
        }
    }
}

/// Whether a single name is the notebook config's, compared case-folded
/// so a spelling that aliases it on a case-insensitive filesystem is
/// caught before it exists.
pub fn reserved_name(name: &str) -> (b: bool)
    ensures
        b == folded_eq(name@, NOTEBOOK_FILE@),
{
    same_folded(name, NOTEBOOK_FILE)
}

/// Whether a file name carries kladde's temporary-file suffix, lowercased
/// so a case-insensitive alias counts.
pub fn temp_suffixed(name: &str) -> (b: bool)
    ensures
        b == ends_with(lowercase(name@), TEMP_SUFFIX@),
{
    let lower = lowered(name);
    let chars = chars_of(lower.as_str());
    let suffix = chars_of(TEMP_SUFFIX);
    assert(chars@.subrange(0, chars@.len() as int) =~= chars@);
    ends_with_in(chars.as_slice(), 0, chars.len(), suffix.as_slice())
}

/// The plain names a note target spells, once `.` components are
/// dropped.
pub open spec fn target_names(parts: Seq<PartModel>) -> Seq<Seq<char>>
    decreases parts.len(),
{
    if parts.len() == 0 {
        Seq::empty()
    } else {
        let rest = target_names(parts.drop_last());
        match parts.last() {
            PartModel::Normal(name) => rest.push(name),
            _ => rest,
        }
    }
}

/// The names a note target spells, in order: a relative path of plain
/// names and `.` components, at least one of them a name.
pub fn target_parts(target: &std::path::PathBuf) -> (r: Result<Vec<String>, Error>)
    ensures
        rooted(*target) ==> (r matches Err(Error::NotRelative { target: t }) && t == *target),
        r matches Ok(names) ==> !rooted(*target) && names@.map_values(|n: String| n@) == target_names(
            components(*target),
        ) && names@.len() > 0 && forall|i: int| 0 <= i < components(*target).len()
            ==> !(#[trigger] components(*target)[i] is Other),
        !rooted(*target) && (exists|i: int| 0 <= i < components(*target).len()
            && #[trigger] components(*target)[i] is Other) ==> (r matches Err(
            Error::InvalidComponent { target: t },
        ) && t == *target),
        !rooted(*target) && (forall|i: int| 0 <= i < components(*target).len() ==> !(
        #[trigger] components(*target)[i] is Other)) ==> if target_names(components(*target)).len()
            == 0 {
            r matches Err(Error::EmptyTarget)
        } else {
            r is Ok
        },
{
    if has_root(target) {
        return Err(Error::NotRelative { target: copied_path(target) });
    }
    let parts = crate::paths::parts(target);
    let ghost model = components(*target);
    let mut names: Vec<String> = Vec::new();
    let mut i: usize = 0;
    while i < parts.len()
        invariant
            i <= parts@.len(),
            parts@.map_values(|p: Part| p@) == model,
            model == components(*target),
            !rooted(*target),
            names@.map_values(|n: String| n@) == target_names(model.take(i as int)),
            forall|j: int| 0 <= j < i ==> !(#[trigger] model[j] is Other),
        decreases parts@.len() - i,
    {
        proof {
            assert(parts@.map_values(|p: Part| p@)[i as int] == parts@[i as int]@);
            assert(model.take(i + 1).drop_last() =~= model.take(i as int));
            assert(model.take(i + 1).last() == model[i as int]);
        }
        match &parts[i] {
            Part::Normal(name) => {
                let ghost before = names@;
                names.push(name.clone());
                assert(names@.map_values(|n: String| n@) =~= before.map_values(|n: String| n@).push(
                    name@,
                ));
            },
            Part::Current => {},
            Part::Other => {
                return Err(Error::InvalidComponent { target: copied_path(target) });
            },
        }
        i += 1;
    }
    assert(model.take(i as int) =~= model);
    if names.len() == 0 {
        return Err(Error::EmptyTarget);
    }
    Ok(names)
}

/// Whether a note's name, its file name without `.md`, matches `wanted`
/// under Unicode case folding.
pub open spec fn named(path: std::path::PathBuf, wanted: Seq<char>) -> bool {
    stem_of(path) matches Some(stem) && folded_eq(stem, wanted)
}

/// The first `n` of `notes` whose names match `wanted`, in order.
pub open spec fn named_among(notes: Seq<std::path::PathBuf>, wanted: Seq<char>, n: int) -> Seq<
    std::path::PathBuf,
>
    decreases n,
{
    if n <= 0 {
        Seq::empty()
    } else if named(notes[n - 1], wanted) {
        named_among(notes, wanted, n - 1).push(notes[n - 1])
    } else {
        named_among(notes, wanted, n - 1)
    }
}

/// `name` without one trailing `.md`.
pub open spec fn stem_wanted(name: Seq<char>) -> Seq<char> {
    if ends_with(name, ".md"@) {
        name.take(name.len() - 3)
    } else {
        name
    }
}

/// Whether a path's stem matches `wanted` under Unicode case folding.
fn has_stem(path: &std::path::PathBuf, wanted: &str) -> (b: bool)
    ensures
        b == named(*path, wanted@),
{
    match file_stem(path) {
        Some(stem) => same_folded(stem.as_str(), wanted),
        None => false,
    }
}

/// Whether a notebook-relative path starts with the config's name.
pub open spec fn under_config(relative: std::path::PathBuf) -> bool {
    components(relative).len() > 0 && match components(relative)[0] {
        PartModel::Normal(first) => folded_eq(first, NOTEBOOK_FILE@),
        _ => false,
    }
}

/// A notebook: a directory of markdown notes, known by its canonical
/// root.
#[derive(Debug)]
pub struct Notebook {
    root: std::path::PathBuf,
}

/// The note name `name` asks for: `name` without one trailing `.md`.
/// An empty name is refused before any note is looked at.
pub fn wanted_stem(name: &str) -> (r: Result<String, Error>)
    ensures
        stem_wanted(name@).len() == 0 ==> r matches Err(Error::EmptyTarget),
        stem_wanted(name@).len() > 0 ==> (r matches Ok(s) && s@ == stem_wanted(name@)),
{
    let chars = chars_of(name);
    let suffix = chars_of(".md");
    let n = chars.len();
    let stem_chars = if ends_with_in(chars.as_slice(), 0, n, suffix.as_slice()) {
        proof {
            reveal_strlit(".md");
            assert(chars@.subrange(0, n as int) =~= chars@);
        }
        sliced(chars.as_slice(), 0, n - 3)
    } else {
        proof {
            assert(chars@.subrange(0, n as int) =~= chars@);
        }
        sliced(chars.as_slice(), 0, n)
    };
    proof {
        reveal_strlit(".md");
        assert(stem_chars@ =~= stem_wanted(name@));
    }
    if stem_chars.len() == 0 {
        return Err(Error::EmptyTarget);
    }
    Ok(string_of(stem_chars.as_slice()))
}

/// The absolute path of a note inside its notebook, with the notebook's
/// root and the note's path relative to it.
#[derive(Debug)]
pub struct NotePath {
    absolute: std::path::PathBuf,
    root: std::path::PathBuf,
    relative: std::path::PathBuf,
}

impl NotePath {
    /// The note's absolute path.
    pub closed spec fn spec_absolute(&self) -> std::path::PathBuf {
        self.absolute
    }

    /// The root of the notebook the note was resolved in.
    pub closed spec fn spec_root(&self) -> std::path::PathBuf {
        self.root
    }

    /// The note's path relative to its notebook root.
    pub closed spec fn spec_relative(&self) -> std::path::PathBuf {
        self.relative
    }

    /// The note at `absolute` inside the notebook rooted at `root`; `None`
    /// when it does not lie under the root.
    pub fn inside(absolute: std::path::PathBuf, root: std::path::PathBuf) -> (r: Option<NotePath>)
        ensures
            r is Some <==> stripped(absolute, root) is Some,
            r matches Some(n) ==> n.spec_absolute() == absolute && n.spec_root() == root
                && stripped(absolute, root) == Some(n.spec_relative()),
    {
        match strip_root(&absolute, &root) {
            Some(relative) => Some(NotePath { absolute, root, relative }),
            None => None,
        }
    }

    /// The note's absolute path.
    pub fn as_path(&self) -> (p: &std::path::PathBuf)
        ensures
            *p == self.spec_absolute(),
    {
        &self.absolute
    }

    /// The root of the notebook the note was resolved in.
    pub fn root(&self) -> (p: &std::path::PathBuf)
        ensures
            *p == self.spec_root(),
    {
        &self.root
    }

    /// The note's path relative to its notebook root, which is what
    /// notebook-relative settings like `stamp-exclude` match against.
    pub fn relative(&self) -> (p: &std::path::PathBuf)
        ensures
            *p == self.spec_relative(),
    {
        &self.relative
    }
}

impl Notebook {
    /// The notebook's canonical root.
    pub closed spec fn spec_root(&self) -> std::path::PathBuf {
        self.root
    }

    /// The notebook rooted at `canonical`, a canonical directory.
    pub fn at(canonical: std::path::PathBuf) -> (n: Notebook)
        ensures
            n.spec_root() == canonical,
    {
        Notebook { root: canonical }
    }

    /// The notebook's canonical root, the identity its lock is keyed on.
    pub fn root(&self) -> (p: &std::path::PathBuf)
        ensures
            *p == self.spec_root(),
    {
        &self.root
    }

    /// The notebook's own config file at the root.
    pub fn config_file(&self) -> (p: std::path::PathBuf)
        ensures
            p == joined(self.spec_root(), NOTEBOOK_FILE@),
    {
        join(&self.root, NOTEBOOK_FILE)
    }

    /// The unique note among `notes`, the notebook-relative paths of
    /// every note, whose name matches `name` case-insensitively: the way
    /// a wikilink resolves, with ambiguity as an error and never a guess.
    /// A trailing `.md` on `name` is ignored. The note is placed inside
    /// the notebook the way [`NotePath::inside`] places any note.
    ///
    /// Fails when `name` is empty, when no note or several notes match,
    /// or when the match, joined to the root, does not lie under it.
    pub fn find(&self, name: &str, notes: &Vec<std::path::PathBuf>) -> (r: Result<NotePath, Error>)
        ensures
            stem_wanted(name@).len() == 0 ==> r matches Err(Error::EmptyTarget),
            stem_wanted(name@).len() > 0 ==> ({
                let found = named_among(notes@, stem_wanted(name@), notes@.len() as int);
                &&& found.len() == 0 ==> (r matches Err(Error::NoSuchName { name: n }) && n@
                    == stem_wanted(name@))
                &&& found.len() > 1 ==> (r matches Err(Error::AmbiguousName { name: n, matches })
                    && n@ == stem_wanted(name@) && matches@ == found)
                &&& found.len() == 1 && stripped(joined_path(self.spec_root(), found[0]), self.spec_root()) is Some
                    ==> (r matches Ok(n) && n.spec_root() == self.spec_root() && n.spec_absolute()
                    == joined_path(self.spec_root(), found[0]) && stripped(n.spec_absolute(), n.spec_root())
                    == Some(n.spec_relative()))
                &&& found.len() == 1 && stripped(joined_path(self.spec_root(), found[0]), self.spec_root()) is None
                    ==> (r matches Err(Error::Escape { target }) && target == found[0])
            }),
    {
        let stem = wanted_stem(name)?;
        let mut matches: Vec<std::path::PathBuf> = Vec::new();
        let mut i: usize = 0;
        while i < notes.len()
            invariant
                i <= notes@.len(),
                stem@ == stem_wanted(name@),
                matches@ == named_among(notes@, stem@, i as int),
            decreases notes@.len() - i,
        {
            if has_stem(&notes[i], stem.as_str()) {
                matches.push(copied_path(&notes[i]));
            }
            i += 1;
        }
        if matches.len() > 1 {
            return Err(Error::AmbiguousName { name: stem, matches });
        }
        if matches.len() == 0 {
            return Err(Error::NoSuchName { name: stem });
        }
        let found = copied_path(&matches[0]);
        let absolute = join_path(&self.root, &found);
        match NotePath::inside(absolute, copied_path(&self.root)) {
            Some(note) => Ok(note),
            None => Err(Error::Escape { target: found }),
        }
    }

    /// Whether the resolved path lies at or under the notebook's own
    /// config file: the first component of its notebook-relative path
    /// carries the reserved name.
    pub fn reserved(&self, absolute: &std::path::PathBuf) -> (b: bool)
        ensures
            b == match stripped(*absolute, self.spec_root()) {
                Some(relative) => under_config(relative),
                None => false,
            },
    {
        match strip_root(absolute, &self.root) {
            Some(relative) => {
                let parts = crate::paths::parts(&relative);
                if parts.len() == 0 {
                    return false;
                }
                proof {
                    assert(parts@.map_values(|p: Part| p@)[0] == parts@[0]@);
                }
                match &parts[0] {
                    Part::Normal(first) => reserved_name(first.as_str()),
                    _ => false,
                }
            },
            None => false,
        }
    }

    /// Whether a note target spells a reserved name: the config's at its
    /// first component, or a temporary file's at its last.
    pub fn spelled(names: &Vec<String>) -> (r: (bool, bool))
        requires
            names@.len() > 0,
        ensures
            r.0 == folded_eq(names@[0]@, NOTEBOOK_FILE@),
            r.1 == ends_with(lowercase(names@.last()@), TEMP_SUFFIX@),
    {
        (reserved_name(names[0].as_str()), temp_suffixed(names[names.len() - 1].as_str()))
    }

    /// Whether the file name of a resolved note carries the temporary-file
    /// suffix.
    pub fn temp_named(absolute: &std::path::PathBuf) -> (b: bool)
        ensures
            b == (name_of(*absolute) matches Some(n) && ends_with(lowercase(n), TEMP_SUFFIX@)),
    {
        match file_name(absolute) {
            Some(name) => temp_suffixed(name.as_str()),
            None => false,
        }
    }
}

/// The file stem std reads from `p`, spelled lossily.
pub uninterp spec fn lossy_stem(p: std::path::PathBuf) -> Option<Seq<char>>;

/// The stem of `p`, spelled lossily; wraps `Path::file_stem` and
/// `OsStr::to_string_lossy`.
#[verifier::external_body]
fn stem_text(p: &std::path::PathBuf) -> (r: Option<String>)
    ensures
        r matches Some(s) ==> lossy_stem(*p) == Some(s@),
        r is None ==> lossy_stem(*p) is None,
{
    p.file_stem().map(|stem| stem.to_string_lossy().into_owned())
}

/// The note's title, the value `{{title}}` renders to: the file name
/// without its `.md` extension, empty when the path has none.
pub fn title(note: &NotePath) -> (r: String)
    ensures
        r@ == match lossy_stem(note.spec_absolute()) {
            Some(s) => s,
            None => Seq::empty(),
        },
{
    match stem_text(note.as_path()) {
        Some(stem) => stem,
        None => String::new(),
    }
}

/// A note name that holds a line break would print as several: such a
/// name is refused, with the message the listing commands fail with.
pub fn printable(note: &std::path::Path) -> (r: Result<(), String>)
    ensures
        r is Err <==> has_char(lossy_string(note), '\n') || has_char(lossy_string(note), '\r'),
        r matches Err(m) ==> m@ == "note name \""@ + debug_escaped(lossy_string(note))
            + "\" contains a line break"@,
{
    let name = lossy(note);
    let chars = chars_of(name.as_str());
    let n = chars.len();
    assert(chars@.subrange(0, n as int) =~= chars@);
    if contains_char(chars.as_slice(), 0, n, '\n') || contains_char(chars.as_slice(), 0, n, '\r') {
        let escaped = escape_debug(name.as_str());
        return Err(concat("note name \"", escaped.as_str(), "\" contains a line break"));
    }
    Ok(())
}

/// Whether the first components of `path` match those of `prefix`, one
/// for one, under Unicode case folding.
pub open spec fn folded_prefix(path: Seq<Seq<char>>, prefix: Seq<Seq<char>>) -> bool {
    prefix.len() <= path.len() && forall|i: int|
        0 <= i < prefix.len() ==> #[trigger] folded_eq(path[i], prefix[i])
}

/// Whether `path` begins with `prefix`, component by component, with case
/// folded.
pub fn folded_starts_with(path: &std::path::PathBuf, prefix: &std::path::PathBuf) -> (b: bool)
    ensures
        b == folded_prefix(component_spellings(*path), component_spellings(*prefix)),
{
    let have = component_texts(path);
    let want = component_texts(prefix);
    let ghost a = component_spellings(*path);
    let ghost w = component_spellings(*prefix);
    if want.len() > have.len() {
        return false;
    }
    let mut i: usize = 0;
    while i < want.len()
        invariant
            i <= want@.len() <= have@.len(),
            a == component_spellings(*path),
            w == component_spellings(*prefix),
            a == have@.map_values(|s: String| s@),
            w == want@.map_values(|s: String| s@),
            forall|j: int| 0 <= j < i ==> #[trigger] folded_eq(a[j], w[j]),
        decreases want@.len() - i,
    {
        assert(a[i as int] == have@[i as int]@);
        assert(w[i as int] == want@[i as int]@);
        if !same_folded(have[i].as_str(), want[i].as_str()) {
            assert(!folded_eq(a[i as int], w[i as int]));
            return false;
        }
        i += 1;
    }
    true
}

/// Whether the note at `relative` sits under the `stamp-exclude` entry
/// `entry`: by spelling with case folded, or by `resolved`, what the
/// entry resolves to inside the notebook when it does.
pub open spec fn excluded_by(relative: std::path::PathBuf, entry: std::path::PathBuf, resolved: Option<std::path::PathBuf>) -> bool {
    folded_prefix(component_spellings(relative), component_spellings(entry)) || (
    resolved matches Some(r) && folded_prefix(component_spellings(relative), component_spellings(r)))
}

/// Whether the note at `relative` sits under the excluded `entry`, matched
/// the way notes are identified: by spelling with case folded, and by
/// `resolved`, what the entry resolves to inside the notebook, which the
/// filesystem decides.
pub fn excluded(relative: &std::path::PathBuf, entry: &std::path::PathBuf, resolved: &Option<std::path::PathBuf>) -> (b: bool)
    ensures
        b == excluded_by(*relative, *entry, *resolved),
{
    if folded_starts_with(relative, entry) {
        return true;
    }
    match resolved {
        Some(r) => folded_starts_with(relative, r),
        None => false,
    }
}

/// `s` under Unicode default case folding, as caseless folds it.
pub uninterp spec fn case_folded(s: Seq<char>) -> Seq<char>;

/// `s` case folded; wraps `caseless::default_case_fold_str`.
#[verifier::external_body]
fn fold_case(s: &str) -> (r: String)
    ensures
        r@ == case_folded(s@),
{
    caseless::default_case_fold_str(s)
}

/// What a search looks for: `query` case folded. An empty query is
/// refused with the message the search command fails with.
pub fn search_needle(query: &str) -> (r: Result<String, String>)
    ensures
        query@.len() == 0 ==> (r matches Err(m) && m@ == "nothing to search for: the query is empty"@),
        query@.len() > 0 ==> (r matches Ok(n) && n@ == case_folded(query@)),
{
    if query.is_empty() {
        proof {
            reveal_strlit("");
        }
        return Err(concat("nothing to search for: the query is empty", "", ""));
    }
    Ok(fold_case(query))
}

/// Whether a note's `contents`, case folded, hold the search `needle`.
pub fn mentions(contents: &str, needle: &str) -> (b: bool)
    ensures
        b == has_infix(case_folded(contents@), needle@),
{
    let folded = fold_case(contents);
    let f = chars_of(folded.as_str());
    let n = chars_of(needle);
    contains_infix(f.as_slice(), n.as_slice())
}

/// The extension std reads from `p`, when it has one in Unicode.
pub uninterp spec fn extension_text(p: std::path::PathBuf) -> Option<Seq<char>>;

/// The extension of `p`; wraps `Path::extension` and `OsStr::to_str`.
#[verifier::external_body]
fn extension_of(p: &std::path::PathBuf) -> (r: Option<String>)
    ensures
        r matches Some(s) ==> extension_text(*p) == Some(s@),
        r is None ==> extension_text(*p) is None,
{
    p.extension().and_then(|extension| extension.to_str()).map(str::to_owned)
}

/// What listing the notes does with one folder entry.
#[derive(Debug, PartialEq, Eq)]
pub enum Visit {
    /// Passed over: a link, or a file that is no note.
    Skip,
    /// A real folder, walked in turn.
    Descend,
    /// A note.
    Note,
}

/// Whether listing the notes passes over the folder entry spelled `name`
/// (lossily) without looking at it: dot-prefixed entries are hidden.
pub fn hidden(name: &str) -> (b: bool)
    ensures
        b == (name@.len() > 0 && name@[0] == '.'),
{
    let chars = chars_of(name);
    chars.len() > 0 && chars[0] == '.'
}

/// What listing the notes does with a folder entry that is not hidden, at
/// the notebook-relative path `entry`: real folders are walked and `.md`
/// files listed. An entry that is neither a real folder nor a file, a
/// link among them, is skipped.
pub fn visit(entry: &std::path::PathBuf, is_dir: bool, is_file: bool) -> (v: Visit)
    ensures
        v == if is_dir {
            Visit::Descend
        } else if is_file && extension_text(*entry) == Some("md"@) {
            Visit::Note
        } else {
            Visit::Skip
        },
{
    if is_dir {
        return Visit::Descend;
    }
    if is_file {
        if let Some(extension) = extension_of(entry) {
            if same_chars_text(extension.as_str(), "md") {
                return Visit::Note;
            }
        }
    }
    Visit::Skip
}

/// Whether two texts are equal.
fn same_chars_text(a: &str, b: &str) -> (r: bool)
    ensures
        r == (a@ == b@),
{
    let x = chars_of(a);
    let y = chars_of(b);
    crate::frontmatter::document::same_chars(x.as_slice(), y.as_slice())
}


/// How far the resolution of a target's names has come: the first
/// `existing` names were found on disk, each inside the one before it,
/// starting at the root; the `deferred` names after them are left to
/// create.
#[derive(Debug, Clone, Copy, PartialEq, Eq)]
pub struct Resolution {
    pub existing: usize,
    pub deferred: usize,
}

/// What the resolution of a target asks of the filesystem next.
#[derive(Debug, Clone, Copy, PartialEq, Eq)]
pub enum Action {
    /// Probe the existing prefix joined with the name at this index.
    Probe(usize),
    /// Every name is placed: canonicalize the existing prefix.
    Resolve,
}

/// Where the resolution of a target's `names` names starts: nothing found
/// yet, and the first name to probe, if there is one.
pub fn resolution_start(names: usize) -> (r: (Resolution, Action))
    ensures
        r.0 == (Resolution { existing: 0, deferred: 0 }),
        r.1 == if names == 0 {
            Action::Resolve
        } else {
            Action::Probe(0)
        },
{
    let state = Resolution { existing: 0, deferred: 0 };
    if names == 0 {
        (state, Action::Resolve)
    } else {
        (state, Action::Probe(0))
    }
}

/// One step of a target's resolution, given whether the entry the last
/// [`Action::Probe`] asked about exists: a found name extends the
/// existing prefix and the next name is probed; the first missing name
/// ends the probing, and it and every later name are left to create. A
/// state with nothing left to probe only resolves.
pub fn resolution_step(state: Resolution, names: usize, found: bool) -> (r: (Resolution, Action))
    ensures
        state.deferred == 0 && state.existing < names && found ==> r == (
            Resolution { existing: (state.existing + 1) as usize, deferred: 0 },
            if state.existing + 1 < names {
                Action::Probe((state.existing + 1) as usize)
            } else {
                Action::Resolve
            },
        ),
        state.deferred == 0 && state.existing < names && !found ==> r == (
            Resolution { existing: state.existing, deferred: (names - state.existing) as usize },
            Action::Resolve,
        ),
        !(state.deferred == 0 && state.existing < names) ==> r == (state, Action::Resolve),
{
    if state.deferred != 0 || state.existing >= names {
        return (state, Action::Resolve);
    }
    if found {
        let next = state.existing + 1;
        let action = if next < names {
            Action::Probe(next)
        } else {
            Action::Resolve
        };
        (Resolution { existing: next, deferred: 0 }, action)
    } else {
        (Resolution { existing: state.existing, deferred: names - state.existing }, Action::Resolve)
    }
}

/// Where a target lands once its deepest existing ancestor is
/// canonicalized.
#[derive(Debug, Clone, Copy, PartialEq, Eq)]
pub enum Landing {
    /// The ancestor lies outside the notebook's root.
    Escape,
    /// The whole target exists and is no file.
    NotAFile,
    /// Names are left to create below an ancestor that is no folder.
    NotADirectory,
    /// The whole target exists: the note is the ancestor itself.
    Existing,
    /// The note is the ancestor joined with the names left to create.
    Below,
}

/// Where a target lands: `contained` whether the canonical ancestor lies
/// under the root, `complete` whether every name was found, and what the
/// ancestor is on disk. Containment is judged first, then the ancestor
/// must be a file when nothing is left to create and a folder otherwise.
pub fn landing(contained: bool, complete: bool, is_file: bool, is_dir: bool) -> (l: Landing)
    ensures
        l == if !contained {
            Landing::Escape
        } else if complete {
            if is_file {
                Landing::Existing
            } else {
                Landing::NotAFile
            }
        } else if is_dir {
            Landing::Below
        } else {
            Landing::NotADirectory
        },
{
    if !contained {
        Landing::Escape
    } else if complete {
        if is_file {
            Landing::Existing
        } else {
            Landing::NotAFile
        }
    } else if is_dir {
        Landing::Below
    } else {
        Landing::NotADirectory
    }
}


/// A note is under a `stamp-exclude` entry exactly when it has at least as
/// many components as the entry, or as what the entry resolves to, and
/// every one of those components matches, case folded, the note's
/// component at the same position: a note in `archive/2025` is not under
/// `archive/2026`.
pub proof fn excluded_matches_every_component(
    relative: std::path::PathBuf,
    entry: std::path::PathBuf,
    resolved: Option<std::path::PathBuf>,
)
    ensures
        ({
            let a = component_spellings(relative);
            let e = component_spellings(entry);
            excluded_by(relative, entry, resolved) <==> {
                ||| e.len() <= a.len() && forall|i: int| 0 <= i < e.len() ==> #[trigger] folded_eq(a[i], e[i])
                ||| resolved matches Some(r) && component_spellings(r).len() <= a.len() && forall|i: int|
                    0 <= i < component_spellings(r).len() ==> #[trigger] folded_eq(a[i], component_spellings(r)[i])
            }
        }),
{
}

/// A note answers to a wanted name exactly when its whole stem, its file
/// name without `.md`, equals the name under case folding: a longer stem
/// that merely begins with the name does not.
pub proof fn named_by_whole_stem(path: std::path::PathBuf, wanted: Seq<char>)
    ensures
        named(path, wanted) <==> (stem_of(path) matches Some(stem) && folded_eq(stem, wanted)),
{
}

/// The notes a name search collects are exactly the notes, in order,
/// whose whole stem equals the wanted name under case folding: every
/// collected note has such a stem, and every note with such a stem is
/// collected.
pub proof fn names_collected_by_whole_stem(notes: Seq<std::path::PathBuf>, wanted: Seq<char>, n: int)
    requires
        0 <= n <= notes.len(),
    ensures
        forall|k: int| 0 <= k < named_among(notes, wanted, n).len() ==> (stem_of(
            #[trigger] named_among(notes, wanted, n)[k],
        ) matches Some(stem) && folded_eq(stem, wanted)),
        forall|j: int| 0 <= j < n && (stem_of(#[trigger] notes[j]) matches Some(stem) && folded_eq(stem, wanted))
            ==> named_among(notes, wanted, n).contains(notes[j]),
    decreases n,
{
    if n > 0 {
        names_collected_by_whole_stem(notes, wanted, n - 1);
        let prev = named_among(notes, wanted, n - 1);
        let now = named_among(notes, wanted, n);
        if named(notes[n - 1], wanted) {
            assert(now == prev.push(notes[n - 1]));
            assert forall|k: int| 0 <= k < now.len() implies (stem_of(#[trigger] now[k]) matches Some(stem)
                && folded_eq(stem, wanted)) by {
                if k < prev.len() {
                    assert(now[k] == prev[k]);
                }
            }
            assert forall|j: int| 0 <= j < n && (stem_of(#[trigger] notes[j]) matches Some(stem) && folded_eq(stem, wanted))
                implies now.contains(notes[j]) by {
                if j < n - 1 {
                    let x = choose|x: int| 0 <= x < prev.len() && prev[x] == notes[j];
                    assert(now[x] == notes[j]);
                } else {
                    assert(now[now.len() - 1] == notes[j]);
                }
            }
        } else {
            assert(now == prev);
        }
    }
}

} // verus!
