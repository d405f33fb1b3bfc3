//! Filesystem paths, carried through the library opaquely: what a path
//! means is std's business, and only the few questions asked of it here
//! are answered by std.
use vstd::prelude::*;

verus! {

/// An owned filesystem path.
#[verifier::external_type_specification]
#[verifier::external_body]
pub struct ExPathBuf(std::path::PathBuf);

/// A borrowed filesystem path.
#[verifier::external_type_specification]
#[verifier::external_body]
pub struct ExPath(std::path::Path);

/// Whether std reads `p` as absolute: independent of the current
/// directory, on this platform.
pub uninterp spec fn absolute(p: std::path::PathBuf) -> bool;

/// The path std builds by joining `name` onto `p`.
pub uninterp spec fn joined(p: std::path::PathBuf, name: Seq<char>) -> std::path::PathBuf;

/// The lossy Unicode spelling std gives `p`: every part that is not
/// Unicode replaced by U+FFFD.
pub uninterp spec fn lossy_string(p: &std::path::Path) -> Seq<char>;

/// Whether `p` is absolute; wraps `Path::is_absolute`.
#[verifier::external_body]
pub(crate) fn is_absolute(p: &std::path::PathBuf) -> (b: bool)
    ensures
        b == absolute(*p),
{
    p.is_absolute()
}

/// `p` with `name` joined on; wraps `Path::join`.
#[verifier::external_body]
pub(crate) fn join(p: &std::path::PathBuf, name: &str) -> (r: std::path::PathBuf)
    ensures
        r == joined(*p, name@),
{
    p.join(name)
}

/// `p`'s lossy Unicode spelling; wraps `Path::to_string_lossy`.
#[verifier::external_body]
pub(crate) fn lossy(p: &std::path::Path) -> (r: String)
    ensures
        r@ == lossy_string(p),
{
    p.to_string_lossy().into_owned()
}

/// The path std builds from the text `s`.
pub uninterp spec fn path_of(s: Seq<char>) -> std::path::PathBuf;

/// The path `s` names; wraps `PathBuf::from`.
#[verifier::external_body]
pub(crate) fn path_from(s: &str) -> (r: std::path::PathBuf)
    ensures
        r == path_of(s@),
{
    std::path::PathBuf::from(s)
}

/// Whether std reads `p` as having a root.
pub uninterp spec fn rooted(p: std::path::PathBuf) -> bool;

/// Whether `p` has a root; wraps `Path::has_root`.
#[verifier::external_body]
pub(crate) fn has_root(p: &std::path::PathBuf) -> (b: bool)
    ensures
        b == rooted(*p),
{
    p.has_root()
}

/// One component of a path: a plain name, `.`, or anything else (a
/// prefix, the root, or `..`).
#[derive(Debug)]
pub enum Part {
    Normal(String),
    Current,
    Other,
}

/// The logical content of a [`Part`].
pub enum PartModel {
    Normal(Seq<char>),
    Current,
    Other,
}

impl View for Part {
    type V = PartModel;

    open spec fn view(&self) -> PartModel {
        match self {
            Part::Normal(name) => PartModel::Normal(name@),
            Part::Current => PartModel::Current,
            Part::Other => PartModel::Other,
        }
    }
}

/// The components std reads from `p`, in order, names spelled lossily.
pub uninterp spec fn components(p: std::path::PathBuf) -> Seq<PartModel>;

/// The components of `p`; wraps `Path::components`.
#[verifier::external_body]
pub(crate) fn parts(p: &std::path::PathBuf) -> (r: Vec<Part>)
    ensures
        r@.map_values(|part: Part| part@) == components(*p),
{
    p.components().map(|component| match component {
        std::path::Component::Normal(name) => Part::Normal(name.to_string_lossy().into_owned()),
        std::path::Component::CurDir => Part::Current,
        _ => Part::Other,
    }).collect()
}

/// The text std displays for `p`.
pub uninterp spec fn path_text(p: std::path::PathBuf) -> Seq<char>;

/// How `p` displays; wraps `Path::display`.
#[verifier::external_body]
pub(crate) fn displayed(p: &std::path::PathBuf) -> (r: String)
    ensures
        r@ == path_text(*p),
{
    p.display().to_string()
}

/// The path std builds by joining the path `q` onto `p`.
pub uninterp spec fn joined_path(p: std::path::PathBuf, q: std::path::PathBuf) -> std::path::PathBuf;

/// `p` with the path `q` joined on; wraps `Path::join`.
#[verifier::external_body]
pub(crate) fn join_path(p: &std::path::PathBuf, q: &std::path::PathBuf) -> (r: std::path::PathBuf)
    ensures
        r == joined_path(*p, *q),
{
    p.join(q)
}

/// The lossy Unicode spelling std gives each component of `p`, in order.
pub uninterp spec fn component_spellings(p: std::path::PathBuf) -> Seq<Seq<char>>;

/// The spellings of `p`'s components; wraps `Path::components`, each
/// component spelled with `OsStr::to_string_lossy`.
#[verifier::external_body]
pub(crate) fn component_texts(p: &std::path::PathBuf) -> (r: Vec<String>)
    ensures
        r@.map_values(|s: String| s@) == component_spellings(*p),
{
    p.components().map(|part| part.as_os_str().to_string_lossy().into_owned()).collect()
}

} // verus!
