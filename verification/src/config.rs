//! Kladde's configuration: the keys, their validation, and how a
//! notebook's own config layers over the base one. Reading and writing
//! the files is the binary's work; this module decides what their
//! contents mean.
use vstd::prelude::*;

use toml_edit::DocumentMut;

use crate::day;
use crate::frontmatter;
use crate::notebook::{excluded, excluded_by};
use crate::paths::{
    absolute, component_spellings, component_texts, components, displayed, has_root, is_absolute, join, joined, path_from, path_of,
    path_text, rooted, Part, PartModel,
};
use crate::structure;
use crate::text::{
    chars_of, join_with, joined as concat, joined_with, pieces, split_at, string_of, trim_white,
    trimmed,
};

verus! {

/// Config key naming the notebook used when a command is not given an
/// explicit notebook.
pub const DEFAULT_NOTEBOOK: &'static str = "default-notebook";

/// Config key naming the command that opens files in an editor.
pub const EDITOR: &'static str = "editor";

/// Config key naming the folder, inside the notebook, that holds daily
/// notes.
pub const DAILY_FOLDER: &'static str = "daily-folder";

/// Config key naming the strftime format for daily note file names.
pub const DAILY_DATE_FORMAT: &'static str = "daily-date-format";

/// Config key naming the note, inside the notebook, that seeds a daily
/// note kladde creates.
pub const DAILY_TEMPLATE: &'static str = "daily-template";

/// Config key switching created/updated stamping on or off.
pub const STAMP: &'static str = "stamp";

/// Config key naming the property that records when kladde created a
/// note's frontmatter block.
pub const STAMP_CREATED_KEY: &'static str = "stamp-created-key";

/// Config key naming the property that records when kladde last wrote
/// the note.
pub const STAMP_UPDATED_KEY: &'static str = "stamp-updated-key";

/// Config key naming the strftime format for stamp values.
pub const STAMP_FORMAT: &'static str = "stamp-format";

/// Config key listing notebook-relative paths whose notes are never
/// stamped.
pub const STAMP_EXCLUDE: &'static str = "stamp-exclude";

/// Config key choosing the indent unit for entries nested under a
/// childless bullet.
pub const BULLET_INDENT: &'static str = "bullet-indent";

/// File name of a notebook's own config, at the notebook root.
pub const NOTEBOOK_FILE: &'static str = ".kladde.toml";

/// Settings read from the config file.
#[derive(Debug, Default, PartialEq, Eq)]
pub struct Config {
    /// Notebook used when a command is not given an explicit notebook.
    pub default_notebook: Option<std::path::PathBuf>,
    /// Command that opens files in an editor, parsed with shell quoting
    /// rules when run.
    pub editor: Option<String>,
    /// Folder inside the notebook that holds daily notes; unset means the
    /// notebook root.
    pub daily_folder: Option<std::path::PathBuf>,
    /// strftime format for daily note file names.
    pub daily_date_format: Option<day::Format>,
    /// Notebook-relative path of the note that seeds a daily note.
    pub daily_template: Option<std::path::PathBuf>,
    /// Whether writes stamp created/updated properties; unset means true.
    pub stamp: Option<bool>,
    /// Property name for the created stamp; unset means `created`.
    pub stamp_created_key: Option<String>,
    /// Property name for the updated stamp; unset means `updated`.
    pub stamp_updated_key: Option<String>,
    /// strftime format for stamp values.
    pub stamp_format: Option<day::StampFormat>,
    /// Notebook-relative paths whose notes are never stamped.
    pub stamp_exclude: Option<Vec<std::path::PathBuf>>,
    /// Indent unit for entries nested under a childless bullet.
    pub bullet_indent: Option<structure::Indent>,
}

/// `a` when it holds a value, `b` otherwise.
pub open spec fn either<T>(a: Option<T>, b: Option<T>) -> Option<T> {
    if a is Some {
        a
    } else {
        b
    }
}

/// Exec twin of [`either`].
fn or<T>(a: Option<T>, b: Option<T>) -> (r: Option<T>)
    ensures
        r == either(a, b),
{
    match a {
        Some(x) => Some(x),
        None => b,
    }
}

impl Config {
    /// This config with `notebook`'s notebook-scoped keys layered over it:
    /// a key set in both takes the notebook's value whole, so list values
    /// replace rather than merge. The machine-scoped keys always keep this
    /// config's values.
    pub fn layered(self, notebook: Config) -> (r: Config)
        ensures
            r.default_notebook == self.default_notebook,
            r.editor == self.editor,
            r.daily_folder == either(notebook.daily_folder, self.daily_folder),
            r.daily_date_format == either(notebook.daily_date_format, self.daily_date_format),
            r.daily_template == either(notebook.daily_template, self.daily_template),
            r.stamp == either(notebook.stamp, self.stamp),
            r.stamp_created_key == either(notebook.stamp_created_key, self.stamp_created_key),
            r.stamp_updated_key == either(notebook.stamp_updated_key, self.stamp_updated_key),
            r.stamp_format == either(notebook.stamp_format, self.stamp_format),
            r.stamp_exclude == either(notebook.stamp_exclude, self.stamp_exclude),
            r.bullet_indent == either(notebook.bullet_indent, self.bullet_indent),
    {
        Config {
            default_notebook: self.default_notebook,
            editor: self.editor,
            daily_folder: or(notebook.daily_folder, self.daily_folder),
            daily_date_format: or(notebook.daily_date_format, self.daily_date_format),
            daily_template: or(notebook.daily_template, self.daily_template),
            stamp: or(notebook.stamp, self.stamp),
            stamp_created_key: or(notebook.stamp_created_key, self.stamp_created_key),
            stamp_updated_key: or(notebook.stamp_updated_key, self.stamp_updated_key),
            stamp_format: or(notebook.stamp_format, self.stamp_format),
            stamp_exclude: or(notebook.stamp_exclude, self.stamp_exclude),
            bullet_indent: or(notebook.bullet_indent, self.bullet_indent),
        }
    }
}

/// Whether two strings are equal.
fn same_str(a: &str, b: &str) -> (r: bool)
    ensures
        r == (a@ == b@),
{
    let x = chars_of(a);
    let y = chars_of(b);
    crate::frontmatter::document::same_chars(x.as_slice(), y.as_slice())
}

/// Whether `key` may only be set in the base config, never in a notebook
/// config: a notebook that syncs between machines is data, so it must not
/// choose the machine's notebook or supply commands kladde executes.
pub fn machine_scoped(key: &str) -> (b: bool)
    ensures
        b == (key@ == DEFAULT_NOTEBOOK@ || key@ == EDITOR@),
{
    same_str(key, DEFAULT_NOTEBOOK) || same_str(key, EDITOR)
}

/// Directory holding kladde's configuration: `$XDG_CONFIG_HOME/kladde`,
/// falling back to `$HOME/.config/kladde`. A relative base (which
/// includes an empty one) counts as unset. `None` when neither variable
/// provides an absolute base.
pub fn dir(xdg_config_home: Option<std::path::PathBuf>, home: Option<std::path::PathBuf>) -> (r:
    Option<std::path::PathBuf>)
    ensures
        r == (if xdg_config_home is Some && absolute(xdg_config_home.unwrap()) {
            Some(joined(xdg_config_home.unwrap(), "kladde"@))
        } else if home is Some && absolute(home.unwrap()) {
            Some(joined(joined(home.unwrap(), ".config"@), "kladde"@))
        } else {
            None
        }),
{
    if let Some(base) = &xdg_config_home {
        if is_absolute(base) {
            return Some(join(base, "kladde"));
        }
    }
    if let Some(base) = &home {
        if is_absolute(base) {
            return Some(join(&join(base, ".config"), "kladde"));
        }
    }
    None
}

/// Path of the config file inside [`dir`].
pub fn file(xdg_config_home: Option<std::path::PathBuf>, home: Option<std::path::PathBuf>) -> (r:
    Option<std::path::PathBuf>)
    ensures
        r == (if xdg_config_home is Some && absolute(xdg_config_home.unwrap()) {
            Some(joined(joined(xdg_config_home.unwrap(), "kladde"@), "config.toml"@))
        } else if home is Some && absolute(home.unwrap()) {
            Some(joined(joined(joined(home.unwrap(), ".config"@), "kladde"@), "config.toml"@))
        } else {
            None
        }),
{
    match dir(xdg_config_home, home) {
        Some(d) => Some(join(&d, "config.toml")),
        None => None,
    }
}

/// A config value, as far as the keys read it: text, a boolean, an
/// array whose elements are text or not, or anything else.
#[derive(Debug)]
pub enum Setting {
    Text(String),
    Flag(bool),
    List(Vec<Option<String>>),
    Other,
}

/// The logical content of a [`Setting`].
pub enum SettingModel {
    Text(Seq<char>),
    Flag(bool),
    List(Seq<Option<Seq<char>>>),
    Other,
}

/// The text of an optional string.
pub open spec fn option_text(o: Option<String>) -> Option<Seq<char>> {
    match o {
        Some(s) => Some(s@),
        None => None,
    }
}

impl View for Setting {
    type V = SettingModel;

    open spec fn view(&self) -> SettingModel {
        match self {
            Setting::Text(s) => SettingModel::Text(s@),
            Setting::Flag(b) => SettingModel::Flag(*b),
            Setting::List(l) => SettingModel::List(l@.map_values(|o: Option<String>| option_text(o))),
            Setting::Other => SettingModel::Other,
        }
    }
}

/// A top-level key of a config file and its value.
#[derive(Debug)]
pub struct Entry {
    pub key: String,
    pub value: Setting,
}

/// The logical content of a list of entries.
pub open spec fn entries_view(v: Seq<Entry>) -> Seq<(Seq<char>, SettingModel)> {
    v.map_values(|e: Entry| (e.key@, e.value@))
}

/// The logical content of a parsed document or its error message.
pub open spec fn document_view(r: Result<Vec<Entry>, String>) -> Result<Seq<(Seq<char>, SettingModel)>, Seq<char>> {
    match r {
        Ok(v) => Ok(entries_view(v@)),
        Err(m) => Err(m@),
    }
}

/// The top-level entries toml_edit reads from `contents`, in document
/// order, or the message of the error it reports.
pub uninterp spec fn toml_document(contents: Seq<char>) -> Result<Seq<(Seq<char>, SettingModel)>, Seq<char>>;

/// Parses `contents` as a TOML document; wraps `DocumentMut::from_str`,
/// iterating its top-level table and reading each item with `as_str`,
/// `as_bool` and `as_array`.
#[verifier::external_body]
fn toml_entries(contents: &str) -> (r: Result<Vec<Entry>, String>)
    ensures
        document_view(r) == toml_document(contents@),
{
    let document: DocumentMut = contents.parse().map_err(|cause: toml_edit::TomlError| cause.to_string())?;
    Ok(document.iter().map(|(key, item)| Entry {
        key: key.to_owned(),
        value: if let Some(text) = item.as_str() {
            Setting::Text(text.to_owned())
        } else if let Some(flag) = item.as_bool() {
            Setting::Flag(flag)
        } else if let Some(array) = item.as_array() {
            Setting::List(array.iter().map(|element| element.as_str().map(str::to_owned)).collect())
        } else {
            Setting::Other
        },
    }).collect())
}

/// The words shell-words splits `s` into under shell quoting rules, or
/// `None` when a quote is left open.
pub uninterp spec fn shell_words(s: Seq<char>) -> Option<Seq<Seq<char>>>;

/// Splits `s` into words; wraps `shell_words::split`, whose only error
/// displays as `missing closing quote`.
#[verifier::external_body]
pub(crate) fn shell_split(s: &str) -> (r: Result<Vec<String>, String>)
    ensures
        r matches Ok(words) ==> shell_words(s@) == Some(words@.map_values(|w: String| w@)),
        r matches Err(m) ==> shell_words(s@) is None && m@ == "missing closing quote"@,
{
    shell_words::split(s).map_err(|cause| cause.to_string())
}

/// Failure while reading, validating, or writing the config file.
#[derive(Debug)]
pub enum Error {
    Read { path: std::path::PathBuf, cause: String },
    Parse { path: std::path::PathBuf, cause: String },
    UnknownKey { path: std::path::PathBuf, key: String },
    MachineKey { path: std::path::PathBuf, key: String },
    NotebookValue { path: std::path::PathBuf, cause: Box<Error> },
    NotAString { key: &'static str },
    NotAbsolute { key: &'static str, value: String },
    EmptyEditor,
    UnparsableEditor { cause: String },
    NotRelative { key: &'static str, value: String },
    EmptyDailyFolder,
    EmptyDailyTemplate,
    InvalidDateFormat { cause: day::Error },
    NotABoolean { key: &'static str },
    InvalidStampKey { key: &'static str, cause: frontmatter::Error },
    InvalidStampFormat { cause: day::Error },
    NotAnArray { key: &'static str },
    RootedExclude { value: String },
    EmptyExclude,
    EscapingExclude { value: String },
    InvalidBulletIndent,
    NotADirectory { path: std::path::PathBuf },
    CreateDir { path: std::path::PathBuf, cause: String },
    Write { path: std::path::PathBuf, cause: String },
}

/// Whether an error comes from the file as a whole rather than from one
/// of its values.
pub open spec fn file_error(e: Error) -> bool {
    e is Read || e is Parse || e is UnknownKey || e is MachineKey
}

/// The message an error displays.
pub open spec fn error_message(e: Error) -> Seq<char>
    decreases e,
{
    match e {
        Error::Read { path, cause } => "cannot read "@ + path_text(path) + ": "@ + cause@,
        Error::Parse { path, cause } => "invalid TOML in "@ + path_text(path) + ": "@ + cause@,
        Error::UnknownKey { path, key } => "unknown key `"@ + key@ + "` in "@ + path_text(path),
        Error::MachineKey { path, key } => "the notebook config "@ + path_text(path) + " sets `"@
            + key@ + "`, which is machine-scoped"@,
        Error::NotebookValue { path, cause } => "in notebook config "@ + path_text(path) + ": "@
            + error_message(*cause),
        Error::NotAString { key } => "`"@ + key@ + "` must be a string"@,
        Error::NotAbsolute { key, value } => "`"@ + key@ + "` must be an absolute path, got \""@
            + value@ + "\""@,
        Error::EmptyEditor => "`editor` must contain a command"@,
        Error::UnparsableEditor { cause } => "`editor`: "@ + cause@,
        Error::NotRelative { key, value } => "`"@ + key@ + "` must be a relative path, got \""@
            + value@ + "\""@,
        Error::EmptyDailyFolder => "`daily-folder` must not be empty"@,
        Error::EmptyDailyTemplate => "`daily-template` must not be empty"@,
        Error::InvalidDateFormat { cause } => "`daily-date-format`: "@ + day::error_message(cause),
        Error::NotABoolean { key } => "`"@ + key@ + "` must be true or false"@,
        Error::InvalidStampKey { key, cause } => "`"@ + key@ + "`: "@ + frontmatter::error_message(
            cause@,
        ),
        Error::InvalidStampFormat { cause } => "`stamp-format`: "@ + day::error_message(cause),
        Error::NotAnArray { key } => "`"@ + key@ + "` must be an array of strings"@,
        Error::RootedExclude { value } => "`stamp-exclude` entries must be relative paths, got \""@
            + value@ + "\""@,
        Error::EmptyExclude => "`stamp-exclude` entries must not be empty"@,
        Error::EscapingExclude { value } =>
            "`stamp-exclude` entries must name a place inside the notebook, got \""@ + value@
            + "\""@,
        Error::InvalidBulletIndent => "`bullet-indent` must be \"tab\" or \"spaces\""@,
        Error::NotADirectory { path } => "not a directory: "@ + path_text(path),
        Error::CreateDir { path, cause } => "cannot create "@ + path_text(path) + ": "@ + cause@,
        Error::Write { path, cause } => "cannot write "@ + path_text(path) + ": "@ + cause@,
    }
}

/// `a`, `b`, `c` and `d` as one string.
fn concat4(a: &str, b: &str, c: &str, d: &str) -> (r: String)
    ensures
        r@ == a@ + b@ + c@ + d@,
{
    proof {
        reveal_strlit("");
    }
    let head = concat(a, b, c);
    concat(head.as_str(), d, "")
}

impl Error {
    /// The message the error displays.
    pub fn message(&self) -> (m: String)
        ensures
            m@ == error_message(*self),
        decreases *self,
    {
        proof {
            reveal_strlit("");
        }
        match self {
            Error::Read { path, cause } => {
                let p = displayed(path);
                concat4("cannot read ", p.as_str(), ": ", cause.as_str())
            },
            Error::Parse { path, cause } => {
                let p = displayed(path);
                concat4("invalid TOML in ", p.as_str(), ": ", cause.as_str())
            },
            Error::UnknownKey { path, key } => {
                let p = displayed(path);
                concat4("unknown key `", key.as_str(), "` in ", p.as_str())
            },
            Error::MachineKey { path, key } => {
                let p = displayed(path);
                let head = concat4("the notebook config ", p.as_str(), " sets `", key.as_str());
                concat(head.as_str(), "`, which is machine-scoped", "")
            },
            Error::NotebookValue { path, cause } => {
                let p = displayed(path);
                let inner = cause.message();
                concat4("in notebook config ", p.as_str(), ": ", inner.as_str())
            },
            Error::NotAString { key } => concat("`", key, "` must be a string"),
            Error::NotAbsolute { key, value } => {
                let head = concat4("`", key, "` must be an absolute path, got \"", value.as_str());
                concat(head.as_str(), "\"", "")
            },
            Error::EmptyEditor => concat("`editor` must contain a command", "", ""),
            Error::UnparsableEditor { cause } => concat("`editor`: ", cause.as_str(), ""),
            Error::NotRelative { key, value } => {
                let head = concat4("`", key, "` must be a relative path, got \"", value.as_str());
                concat(head.as_str(), "\"", "")
            },
            Error::EmptyDailyFolder => concat("`daily-folder` must not be empty", "", ""),
            Error::EmptyDailyTemplate => concat("`daily-template` must not be empty", "", ""),
            Error::InvalidDateFormat { cause } => {
                let inner = cause.message();
                concat("`daily-date-format`: ", inner.as_str(), "")
            },
            Error::NotABoolean { key } => concat("`", key, "` must be true or false"),
            Error::InvalidStampKey { key, cause } => {
                let inner = cause.message();
                concat4("`", key, "`: ", inner.as_str())
            },
            Error::InvalidStampFormat { cause } => {
                let inner = cause.message();
                concat("`stamp-format`: ", inner.as_str(), "")
            },
            Error::NotAnArray { key } => concat("`", key, "` must be an array of strings"),
            Error::RootedExclude { value } => concat(
                "`stamp-exclude` entries must be relative paths, got \"",
                value.as_str(),
                "\"",
            ),
            Error::EmptyExclude => concat("`stamp-exclude` entries must not be empty", "", ""),
            Error::EscapingExclude { value } => concat(
                "`stamp-exclude` entries must name a place inside the notebook, got \"",
                value.as_str(),
                "\"",
            ),
            Error::InvalidBulletIndent => concat(
                "`bullet-indent` must be \"tab\" or \"spaces\"",
                "",
                "",
            ),
            Error::NotADirectory { path } => {
                let p = displayed(path);
                concat("not a directory: ", p.as_str(), "")
            },
            Error::CreateDir { path, cause } => {
                let p = displayed(path);
                concat4("cannot create ", p.as_str(), ": ", cause.as_str())
            },
            Error::Write { path, cause } => {
                let p = displayed(path);
                concat4("cannot write ", p.as_str(), ": ", cause.as_str())
            },
        }
    }
}

/// An `editor` value must parse under shell quoting rules, and its first
/// word, the program, must not be empty, which is also how a blank value
/// is rejected.
pub fn validated_editor(value: &str) -> (r: Result<(), Error>)
    ensures
        r is Ok <==> (shell_words(value@) matches Some(words) && words.len() > 0 && words[0].len()
            > 0),
        r matches Err(e) ==> (shell_words(value@) is None && e == (Error::UnparsableEditor {
            cause: e->UnparsableEditor_cause,
        }) && e->UnparsableEditor_cause@ == "missing closing quote"@) || (shell_words(
            value@,
        ) is Some && e is EmptyEditor),
{
    match shell_split(value) {
        Err(cause) => Err(Error::UnparsableEditor { cause }),
        Ok(words) => {
            if words.len() > 0 && !words[0].as_str().is_empty() {
                proof {
                    assert(words@.map_values(|w: String| w@)[0] == words@[0]@);
                }
                Ok(())
            } else {
                proof {
                    if words.len() > 0 {
                        assert(words@.map_values(|w: String| w@)[0] == words@[0]@);
                    }
                }
                Err(Error::EmptyEditor)
            }
        },
    }
}

/// The indent unit a `bullet-indent` value names, if it names one.
pub open spec fn indent_named(value: Seq<char>) -> Option<structure::Indent> {
    if value == "tab"@ {
        Some(structure::Indent::Tab)
    } else if value == "spaces"@ {
        Some(structure::Indent::Spaces)
    } else {
        None
    }
}

/// A `bullet-indent` value names one of the two indent units.
pub fn validated_bullet_indent(value: &str) -> (r: Result<structure::Indent, Error>)
    ensures
        r matches Ok(i) ==> indent_named(value@) == Some(i),
        r is Err ==> indent_named(value@) is None && r matches Err(Error::InvalidBulletIndent),
{
    if same_str(value, "tab") {
        Ok(structure::Indent::Tab)
    } else if same_str(value, "spaces") {
        Ok(structure::Indent::Spaces)
    } else {
        Err(Error::InvalidBulletIndent)
    }
}

/// A stamp key must be writable as a property by the frontmatter module,
/// which shares its key rules with every property edit.
pub fn validated_stamp_key(key: &'static str, value: &str) -> (r: Result<String, Error>)
    ensures
        r is Ok <==> frontmatter::key_problem(value@) is None,
        r matches Ok(s) ==> s@ == value@,
        r matches Err(e) ==> e matches Error::InvalidStampKey { key: k, cause } && k == key
            && cause@ == frontmatter::ErrorModel::InvalidKey(
            value@,
            frontmatter::key_problem(value@).unwrap(),
        ),
{
    match frontmatter::validated_key(value) {
        Ok(()) => Ok(value.to_owned()),
        Err(cause) => Err(Error::InvalidStampKey { key, cause }),
    }
}

/// A `daily-folder` or `daily-template` value must name a place inside
/// the notebook, so it has to be non-empty and relative; containment
/// proper is enforced when the path is resolved against a notebook.
fn validated_inside(key: &'static str, value: &str) -> (r: Result<std::path::PathBuf, Error>)
    ensures
        value@.len() == 0 && key@ == DAILY_FOLDER@ ==> r matches Err(Error::EmptyDailyFolder),
        value@.len() == 0 && key@ != DAILY_FOLDER@ ==> r matches Err(Error::EmptyDailyTemplate),
        value@.len() > 0 && rooted(path_of(value@)) ==> (r matches Err(Error::NotRelative { key: k, value: v }) && k == key && v@ == value@),
        r matches Ok(p) ==> value@.len() > 0 && !rooted(path_of(value@)) && p == path_of(value@),
        r is Ok <==> value@.len() > 0 && !rooted(path_of(value@)),
{
    if value.is_empty() {
        return Err(if same_str(key, DAILY_FOLDER) {
            Error::EmptyDailyFolder
        } else {
            Error::EmptyDailyTemplate
        });
    }
    let path = path_from(value);
    if has_root(&path) {
        return Err(Error::NotRelative { key, value: value.to_owned() });
    }
    Ok(path)
}

/// A `daily-folder` value must be a non-empty relative path.
pub fn validated_daily_folder(value: &str) -> (r: Result<std::path::PathBuf, Error>)
    ensures
        value@.len() == 0 ==> r matches Err(Error::EmptyDailyFolder),
        value@.len() > 0 && rooted(path_of(value@)) ==> (r matches Err(Error::NotRelative { key: k, value: v }) && k@ == DAILY_FOLDER@ && v@ == value@),
        r matches Ok(p) ==> value@.len() > 0 && !rooted(path_of(value@)) && p == path_of(value@),
        r is Ok <==> value@.len() > 0 && !rooted(path_of(value@)),
{
    proof {
        reveal_strlit("daily-folder");
    }
    validated_inside(DAILY_FOLDER, value)
}

/// A `daily-template` value must be a non-empty relative path.
pub fn validated_daily_template(value: &str) -> (r: Result<std::path::PathBuf, Error>)
    ensures
        value@.len() == 0 ==> r matches Err(Error::EmptyDailyTemplate),
        value@.len() > 0 && rooted(path_of(value@)) ==> (r matches Err(Error::NotRelative { key: k, value: v }) && k@ == DAILY_TEMPLATE@ && v@ == value@),
        r matches Ok(p) ==> value@.len() > 0 && !rooted(path_of(value@)) && p == path_of(value@),
        r is Ok <==> value@.len() > 0 && !rooted(path_of(value@)),
{
    proof {
        reveal_strlit("daily-folder");
        reveal_strlit("daily-template");
        assert(DAILY_TEMPLATE@.len() != DAILY_FOLDER@.len());
    }
    validated_inside(DAILY_TEMPLATE, value)
}

/// Whether the components of a path are plain names and `.` only, with
/// at least one name.
pub open spec fn names_inside(parts: Seq<PartModel>) -> bool {
    (forall|i: int| 0 <= i < parts.len() ==> !(#[trigger] parts[i] is Other))
        && exists|i: int| 0 <= i < parts.len() && #[trigger] parts[i] is Normal
}

/// The path joined from the plain names among the first `n` components,
/// in order.
pub open spec fn names_joined(parts: Seq<PartModel>, n: int) -> std::path::PathBuf
    decreases n,
{
    if n <= 0 {
        path_of(""@)
    } else {
        match parts[n - 1] {
            PartModel::Normal(name) => joined(names_joined(parts, n - 1), name),
            _ => names_joined(parts, n - 1),
        }
    }
}

/// The path a `stamp-exclude` entry normalizes to: its plain names.
pub open spec fn exclusion(value: Seq<char>) -> std::path::PathBuf {
    let parts = components(path_of(value));
    names_joined(parts, parts.len() as int)
}

/// Whether `e` is the error the `stamp-exclude` entry `value` is refused
/// with: an empty entry, a rooted one, or one naming no place inside the
/// notebook.
pub open spec fn exclude_refusal(value: Seq<char>, e: Error) -> bool {
    if value.len() == 0 {
        e is EmptyExclude
    } else if rooted(path_of(value)) {
        e matches Error::RootedExclude { value: v } && v@ == value
    } else {
        e matches Error::EscapingExclude { value: v } && v@ == value
    }
}

/// A `stamp-exclude` entry must name a place inside the notebook: it has
/// to be non-empty and relative, and is normalized to its plain names,
/// because exclusion matches a note's notebook-relative path component by
/// component: a `./` would never match anything, and a `..` could only
/// name a place outside.
pub fn validated_exclude(value: &str) -> (r: Result<std::path::PathBuf, Error>)
    ensures
        value@.len() == 0 ==> r matches Err(Error::EmptyExclude),
        value@.len() > 0 && rooted(path_of(value@)) ==> (r matches Err(Error::RootedExclude { value: v }) && v@ == value@),
        r is Ok <==> value@.len() > 0 && !rooted(path_of(value@)) && names_inside(components(path_of(value@))),
        r matches Ok(p) ==> p == exclusion(value@),
        r matches Err(e) ==> exclude_refusal(value@, e),
{
    if value.is_empty() {
        return Err(Error::EmptyExclude);
    }
    let path = path_from(value);
    if has_root(&path) {
        return Err(Error::RootedExclude { value: value.to_owned() });
    }
    let parts = crate::paths::parts(&path);
    let mut normalized = path_from("");
    let mut named = false;
    let mut i: usize = 0;
    while i < parts.len()
        invariant
            i <= parts@.len(),
            parts@.map_values(|p: Part| p@) == components(path_of(value@)),
            forall|j: int| 0 <= j < i ==> !(#[trigger] parts@[j]@ is Other),
            named <==> exists|j: int| 0 <= j < i && #[trigger] parts@[j]@ is Normal,
            normalized == names_joined(components(path_of(value@)), i as int),
            value@.len() > 0,
            !rooted(path_of(value@)),
        decreases parts@.len() - i,
    {
        proof {
            assert(parts@.map_values(|p: Part| p@)[i as int] == parts@[i as int]@);
        }
        match &parts[i] {
            Part::Normal(name) => {
                normalized = join(&normalized, name.as_str());
                named = true;
            },
            Part::Current => {},
            Part::Other => {
                proof {
                    assert(components(path_of(value@))[i as int] is Other);
                }
                return Err(Error::EscapingExclude { value: value.to_owned() });
            },
        }
        i += 1;
    }
    proof {
        let c = components(path_of(value@));
        assert forall|j: int| 0 <= j < c.len() implies !(#[trigger] c[j] is Other) by {
            assert(parts@.map_values(|p: Part| p@)[j] == parts@[j]@);
        }
        if named {
            let j = choose|j: int| 0 <= j < i && #[trigger] parts@[j]@ is Normal;
            assert(parts@.map_values(|p: Part| p@)[j] == parts@[j]@);
            assert(c[j] is Normal);
        } else {
            assert forall|j: int| 0 <= j < c.len() implies !(#[trigger] c[j] is Normal) by {
                assert(parts@.map_values(|p: Part| p@)[j] == parts@[j]@);
            }
        }
    }
    if !named {
        return Err(Error::EscapingExclude { value: value.to_owned() });
    }
    Ok(normalized)
}

/// A copy of `p`; wraps `PathBuf::clone`.
#[verifier::external_body]
fn owned_path(p: &std::path::PathBuf) -> (r: std::path::PathBuf)
    ensures
        r == *p,
{
    p.clone()
}

/// Whether `k` is one of the config keys.
pub open spec fn known_key(k: Seq<char>) -> bool {
    k == DEFAULT_NOTEBOOK@ || k == EDITOR@ || k == DAILY_FOLDER@ || k == DAILY_DATE_FORMAT@ || k
        == DAILY_TEMPLATE@ || k == STAMP@ || k == STAMP_CREATED_KEY@ || k == STAMP_UPDATED_KEY@
        || k == STAMP_FORMAT@ || k == STAMP_EXCLUDE@ || k == BULLET_INDENT@
}

/// The value the last of the first `n` entries keyed `k` holds, if one
/// is.
pub open spec fn setting_at(entries: Seq<(Seq<char>, SettingModel)>, k: Seq<char>, n: int) -> Option<SettingModel>
    decreases n,
{
    if n <= 0 {
        None
    } else if entries[n - 1].0 == k {
        Some(entries[n - 1].1)
    } else {
        setting_at(entries, k, n - 1)
    }
}

/// Whether a text field holds the text of `s`, and only when `s` is set.
pub open spec fn text_read(o: Option<String>, s: Option<SettingModel>) -> bool {
    match (o, s) {
        (None, None) => true,
        (Some(x), Some(SettingModel::Text(v))) => x@ == v,
        _ => false,
    }
}

/// Whether a path field holds the path `s` spells, absolute or relative
/// as `whole` says, and only when `s` is set.
pub open spec fn path_read(o: Option<std::path::PathBuf>, s: Option<SettingModel>, whole: bool) -> bool {
    match (o, s) {
        (None, None) => true,
        (Some(p), Some(SettingModel::Text(v))) => p == path_of(v) && if whole {
            absolute(p)
        } else {
            !rooted(p)
        },
        _ => false,
    }
}

/// Whether `paths` are the normalized paths of the `stamp-exclude` items
/// `listed`, one for one.
pub open spec fn exclusions_read(paths: Seq<std::path::PathBuf>, listed: Seq<Option<Seq<char>>>) -> bool {
    paths.len() == listed.len() && forall|y: int| 0 <= y < paths.len() ==> #[trigger] excluded_at(paths, listed, y)
}

/// Whether the `y`th of `paths` is the normalized path of the `y`th item
/// of `listed`, a string.
pub open spec fn excluded_at(paths: Seq<std::path::PathBuf>, listed: Seq<Option<Seq<char>>>, y: int) -> bool {
    listed[y] is Some && paths[y] == exclusion(listed[y]->Some_0)
}

/// What a loaded config says of the first `n` entries it was read from:
/// every field is set exactly when its key occurs, to what the entry of
/// that key holds.
pub open spec fn read_from(c: Config, entries: Seq<(Seq<char>, SettingModel)>, n: int) -> bool {
    &&& path_read(c.default_notebook, setting_at(entries, DEFAULT_NOTEBOOK@, n), true)
    &&& text_read(c.editor, setting_at(entries, EDITOR@, n))
    &&& path_read(c.daily_folder, setting_at(entries, DAILY_FOLDER@, n), false)
    &&& match (c.daily_date_format, setting_at(entries, DAILY_DATE_FORMAT@, n)) {
        (None, None) => true,
        (Some(f), Some(SettingModel::Text(v))) => f.spec_text() == v,
        _ => false,
    }
    &&& path_read(c.daily_template, setting_at(entries, DAILY_TEMPLATE@, n), false)
    &&& match (c.stamp, setting_at(entries, STAMP@, n)) {
        (None, None) => true,
        (Some(b), Some(SettingModel::Flag(x))) => b == x,
        _ => false,
    }
    &&& text_read(c.stamp_created_key, setting_at(entries, STAMP_CREATED_KEY@, n))
    &&& text_read(c.stamp_updated_key, setting_at(entries, STAMP_UPDATED_KEY@, n))
    &&& match (c.stamp_format, setting_at(entries, STAMP_FORMAT@, n)) {
        (None, None) => true,
        (Some(f), Some(SettingModel::Text(v))) => f.spec_text() == v,
        _ => false,
    }
    &&& match (c.stamp_exclude, setting_at(entries, STAMP_EXCLUDE@, n)) {
        (None, None) => true,
        (Some(paths), Some(SettingModel::List(listed))) => exclusions_read(paths@, listed),
        _ => false,
    }
    &&& match (c.bullet_indent, setting_at(entries, BULLET_INDENT@, n)) {
        (None, None) => true,
        (Some(i), Some(SettingModel::Text(v))) => indent_named(v) == Some(i),
        _ => false,
    }
}

/// The config keys are pairwise distinct.
pub proof fn lemma_keys_distinct()
    ensures
        DEFAULT_NOTEBOOK@ != EDITOR@,
        DEFAULT_NOTEBOOK@ != DAILY_FOLDER@,
        DEFAULT_NOTEBOOK@ != DAILY_DATE_FORMAT@,
        DEFAULT_NOTEBOOK@ != DAILY_TEMPLATE@,
        DEFAULT_NOTEBOOK@ != STAMP@,
        DEFAULT_NOTEBOOK@ != STAMP_CREATED_KEY@,
        DEFAULT_NOTEBOOK@ != STAMP_UPDATED_KEY@,
        DEFAULT_NOTEBOOK@ != STAMP_FORMAT@,
        DEFAULT_NOTEBOOK@ != STAMP_EXCLUDE@,
        DEFAULT_NOTEBOOK@ != BULLET_INDENT@,
        EDITOR@ != DAILY_FOLDER@,
        EDITOR@ != DAILY_DATE_FORMAT@,
        EDITOR@ != DAILY_TEMPLATE@,
        EDITOR@ != STAMP@,
        EDITOR@ != STAMP_CREATED_KEY@,
        EDITOR@ != STAMP_UPDATED_KEY@,
        EDITOR@ != STAMP_FORMAT@,
        EDITOR@ != STAMP_EXCLUDE@,
        EDITOR@ != BULLET_INDENT@,
        DAILY_FOLDER@ != DAILY_DATE_FORMAT@,
        DAILY_FOLDER@ != DAILY_TEMPLATE@,
        DAILY_FOLDER@ != STAMP@,
        DAILY_FOLDER@ != STAMP_CREATED_KEY@,
        DAILY_FOLDER@ != STAMP_UPDATED_KEY@,
        DAILY_FOLDER@ != STAMP_FORMAT@,
        DAILY_FOLDER@ != STAMP_EXCLUDE@,
        DAILY_FOLDER@ != BULLET_INDENT@,
        DAILY_DATE_FORMAT@ != DAILY_TEMPLATE@,
        DAILY_DATE_FORMAT@ != STAMP@,
        DAILY_DATE_FORMAT@ != STAMP_CREATED_KEY@,
        DAILY_DATE_FORMAT@ != STAMP_UPDATED_KEY@,
        DAILY_DATE_FORMAT@ != STAMP_FORMAT@,
        DAILY_DATE_FORMAT@ != STAMP_EXCLUDE@,
        DAILY_DATE_FORMAT@ != BULLET_INDENT@,
        DAILY_TEMPLATE@ != STAMP@,
        DAILY_TEMPLATE@ != STAMP_CREATED_KEY@,
        DAILY_TEMPLATE@ != STAMP_UPDATED_KEY@,
        DAILY_TEMPLATE@ != STAMP_FORMAT@,
        DAILY_TEMPLATE@ != STAMP_EXCLUDE@,
        DAILY_TEMPLATE@ != BULLET_INDENT@,
        STAMP@ != STAMP_CREATED_KEY@,
        STAMP@ != STAMP_UPDATED_KEY@,
        STAMP@ != STAMP_FORMAT@,
        STAMP@ != STAMP_EXCLUDE@,
        STAMP@ != BULLET_INDENT@,
        STAMP_CREATED_KEY@ != STAMP_UPDATED_KEY@,
        STAMP_CREATED_KEY@ != STAMP_FORMAT@,
        STAMP_CREATED_KEY@ != STAMP_EXCLUDE@,
        STAMP_CREATED_KEY@ != BULLET_INDENT@,
        STAMP_UPDATED_KEY@ != STAMP_FORMAT@,
        STAMP_UPDATED_KEY@ != STAMP_EXCLUDE@,
        STAMP_UPDATED_KEY@ != BULLET_INDENT@,
        STAMP_FORMAT@ != STAMP_EXCLUDE@,
        STAMP_FORMAT@ != BULLET_INDENT@,
        STAMP_EXCLUDE@ != BULLET_INDENT@,
{
    reveal_strlit("default-notebook");
    reveal_strlit("editor");
    reveal_strlit("daily-folder");
    reveal_strlit("daily-date-format");
    reveal_strlit("daily-template");
    reveal_strlit("stamp");
    reveal_strlit("stamp-created-key");
    reveal_strlit("stamp-updated-key");
    reveal_strlit("stamp-format");
    reveal_strlit("stamp-exclude");
    reveal_strlit("bullet-indent");
    assert(DEFAULT_NOTEBOOK@.len() == 16);
    assert(EDITOR@.len() == 6);
    assert(DAILY_FOLDER@.len() == 12);
    assert(DAILY_DATE_FORMAT@.len() == 17);
    assert(DAILY_TEMPLATE@.len() == 14);
    assert(STAMP@.len() == 5);
    assert(STAMP_CREATED_KEY@.len() == 17);
    assert(STAMP_UPDATED_KEY@.len() == 17);
    assert(STAMP_FORMAT@.len() == 12);
    assert(STAMP_EXCLUDE@.len() == 13);
    assert(BULLET_INDENT@.len() == 13);
    assert(DAILY_DATE_FORMAT@[0] != STAMP_CREATED_KEY@[0]);
    assert(DAILY_DATE_FORMAT@[0] != STAMP_UPDATED_KEY@[0]);
    assert(STAMP_CREATED_KEY@[6] != STAMP_UPDATED_KEY@[6]);
    assert(DAILY_FOLDER@[0] != STAMP_FORMAT@[0]);
    assert(STAMP_EXCLUDE@[0] != BULLET_INDENT@[0]);
}

/// Whether a `stamp-exclude` item can stand.
pub open spec fn excludable(item: Option<Seq<char>>) -> bool {
    match item {
        Some(v) => v.len() > 0 && !rooted(path_of(v)) && names_inside(components(path_of(v))),
        None => false,
    }
}

/// Whether an editor command parses with a program.
pub open spec fn editor_ok(v: Seq<char>) -> bool {
    shell_words(v) matches Some(words) && words.len() > 0 && words[0].len() > 0
}

/// Whether a non-empty relative path can stand for a folder or note.
pub open spec fn relative_ok(v: Seq<char>) -> bool {
    v.len() > 0 && !rooted(path_of(v))
}

/// Whether the entry `key = value` can stand in a config file, or in a
/// notebook's own when `notebook` is set.
pub open spec fn entry_valid(key: Seq<char>, value: SettingModel, notebook: bool) -> bool {
    &&& !(notebook && (key == DEFAULT_NOTEBOOK@ || key == EDITOR@))
    &&& if key == DEFAULT_NOTEBOOK@ {
        value matches SettingModel::Text(v) && absolute(path_of(v))
    } else if key == EDITOR@ {
        value matches SettingModel::Text(v) && editor_ok(v)
    } else if key == DAILY_FOLDER@ || key == DAILY_TEMPLATE@ {
        value matches SettingModel::Text(v) && relative_ok(v)
    } else if key == DAILY_DATE_FORMAT@ {
        value matches SettingModel::Text(v) && day::valid_date_format(v)
    } else if key == STAMP@ {
        value is Flag
    } else if key == STAMP_CREATED_KEY@ || key == STAMP_UPDATED_KEY@ {
        value matches SettingModel::Text(v) && frontmatter::key_problem(v) is None
    } else if key == STAMP_FORMAT@ {
        value matches SettingModel::Text(v) && day::valid_stamp_format(v)
    } else if key == STAMP_EXCLUDE@ {
        value matches SettingModel::List(items) && forall|i: int| 0 <= i < items.len() ==> #[trigger] excludable(items[i])
    } else if key == BULLET_INDENT@ {
        value matches SettingModel::Text(v) && indent_named(v) is Some
    } else {
        false
    }
}

/// Whether `e` is the error the `stamp-exclude` item `item` is refused
/// with: an item that is not a string makes the value no array of
/// strings, a string is refused as [`validated_exclude`] refuses it.
pub open spec fn item_fails_as(item: Option<Seq<char>>, e: Error) -> bool {
    match item {
        None => e matches Error::NotAnArray { key: k } && k@ == STAMP_EXCLUDE@,
        Some(v) => exclude_refusal(v, e),
    }
}

/// Whether `e` is the error a `stamp-exclude` array fails with: the first
/// item that cannot stand decides.
pub open spec fn items_fail_as(items: Seq<Option<Seq<char>>>, e: Error) -> bool {
    exists|i: int|
        0 <= i < items.len() && (forall|j: int| 0 <= j < i ==> #[trigger] excludable(items[j]))
            && !excludable(items[i]) && #[trigger] item_fails_as(items[i], e)
}

/// Whether `e` is the error the entry `key = value` of `file` fails with.
pub open spec fn entry_fails_as(e: Error, file: std::path::PathBuf, key: Seq<char>, value: SettingModel, notebook: bool) -> bool {
    if notebook && (key == DEFAULT_NOTEBOOK@ || key == EDITOR@) {
        e matches Error::MachineKey { path, key: k } && path == file && k@ == key
    } else if !known_key(key) {
        e matches Error::UnknownKey { path, key: k } && path == file && k@ == key
    } else if key == STAMP@ {
        e matches Error::NotABoolean { key: k } && k@ == key
    } else if key == STAMP_EXCLUDE@ {
        match value {
            SettingModel::List(items) => items_fail_as(items, e),
            _ => e matches Error::NotAnArray { key: k } && k@ == key,
        }
    } else if !(value is Text) {
        e matches Error::NotAString { key: k } && k@ == key
    } else {
        let v = value->Text_0;
        if key == DEFAULT_NOTEBOOK@ {
            e matches Error::NotAbsolute { key: k, value: x } && k@ == key && x@ == v
        } else if key == EDITOR@ {
            (shell_words(v) is None && (e matches Error::UnparsableEditor { cause }
                && cause@ == "missing closing quote"@)) || (shell_words(v) is Some && e is EmptyEditor)
        } else if key == DAILY_FOLDER@ {
            (v.len() == 0 && e is EmptyDailyFolder) || (v.len() > 0 && (e matches Error::NotRelative { key: k, value: x } && k@ == key && x@ == v))
        } else if key == DAILY_TEMPLATE@ {
            (v.len() == 0 && e is EmptyDailyTemplate) || (v.len() > 0 && (e matches Error::NotRelative { key: k, value: x } && k@ == key && x@ == v))
        } else if key == DAILY_DATE_FORMAT@ {
            e matches Error::InvalidDateFormat { cause } && day::format_refusal(v, cause)
        } else if key == STAMP_CREATED_KEY@ || key == STAMP_UPDATED_KEY@ {
            e matches Error::InvalidStampKey { key: k, cause } && k@ == key && cause@ == frontmatter::ErrorModel::InvalidKey(v, frontmatter::key_problem(v).unwrap())
        } else if key == STAMP_FORMAT@ {
            e matches Error::InvalidStampFormat { cause } && day::stamp_refusal(v, cause)
        } else {
            e is InvalidBulletIndent
        }
    }
}

/// Whether `e` is the error reading `entries` fails with: the first
/// entry that cannot stand decides.
pub open spec fn entries_fail_as(e: Error, file: std::path::PathBuf, entries: Seq<(Seq<char>, SettingModel)>, notebook: bool) -> bool {
    exists|i: int|
        0 <= i < entries.len() && (forall|j: int| 0 <= j < i ==> #[trigger] entry_valid(entries[j].0, entries[j].1, notebook))
            && !entry_valid(entries[i].0, entries[i].1, notebook) && #[trigger] entry_fails_as(e, file, entries[i].0, entries[i].1, notebook)
}

/// Whether `after` is `before` with the entry `key = value` read into
/// it: the field of `key` holds what `value` spells, every other field
/// is kept.
pub open spec fn stepped(before: Config, after: Config, key: Seq<char>, value: SettingModel) -> bool {
    &&& if key == DEFAULT_NOTEBOOK@ {
        path_read(after.default_notebook, Some(value), true)
    } else {
        after.default_notebook == before.default_notebook
    }
    &&& if key == EDITOR@ {
        text_read(after.editor, Some(value))
    } else {
        after.editor == before.editor
    }
    &&& if key == DAILY_FOLDER@ {
        path_read(after.daily_folder, Some(value), false)
    } else {
        after.daily_folder == before.daily_folder
    }
    &&& if key == DAILY_DATE_FORMAT@ {
        after.daily_date_format matches Some(f) && value matches SettingModel::Text(v)
            && f.spec_text() == v
    } else {
        after.daily_date_format == before.daily_date_format
    }
    &&& if key == DAILY_TEMPLATE@ {
        path_read(after.daily_template, Some(value), false)
    } else {
        after.daily_template == before.daily_template
    }
    &&& if key == STAMP@ {
        after.stamp matches Some(b) && value matches SettingModel::Flag(x) && b == x
    } else {
        after.stamp == before.stamp
    }
    &&& if key == STAMP_CREATED_KEY@ {
        text_read(after.stamp_created_key, Some(value))
    } else {
        after.stamp_created_key == before.stamp_created_key
    }
    &&& if key == STAMP_UPDATED_KEY@ {
        text_read(after.stamp_updated_key, Some(value))
    } else {
        after.stamp_updated_key == before.stamp_updated_key
    }
    &&& if key == STAMP_FORMAT@ {
        after.stamp_format matches Some(f) && value matches SettingModel::Text(v)
            && f.spec_text() == v
    } else {
        after.stamp_format == before.stamp_format
    }
    &&& if key == STAMP_EXCLUDE@ {
        after.stamp_exclude matches Some(paths) && value matches SettingModel::List(listed)
            && exclusions_read(paths@, listed)
    } else {
        after.stamp_exclude == before.stamp_exclude
    }
    &&& if key == BULLET_INDENT@ {
        after.bullet_indent matches Some(i) && value matches SettingModel::Text(v)
            && indent_named(v) == Some(i)
    } else {
        after.bullet_indent == before.bullet_indent
    }
}

/// Reading one more entry extends what a config says of the entries
/// before it.
proof fn lemma_read_step(
    before: Config,
    after: Config,
    entries: Seq<(Seq<char>, SettingModel)>,
    n: int,
)
    requires
        0 <= n < entries.len(),
        read_from(before, entries, n),
        stepped(before, after, entries[n].0, entries[n].1),
    ensures
        read_from(after, entries, n + 1),
{
    lemma_keys_distinct();
}

/// A `stamp-exclude` array with an item that cannot stand does not
/// stand.
proof fn lemma_exclude_fails(listed: Seq<Option<Seq<char>>>, y: int, notebook: bool)
    requires
        0 <= y < listed.len(),
        !excludable(listed[y]),
    ensures
        !entry_valid(STAMP_EXCLUDE@, SettingModel::List(listed), notebook),
{
    lemma_keys_distinct();
    let value = SettingModel::List(listed);
    assert(value matches SettingModel::List(items) && items == listed);
    if entry_valid(STAMP_EXCLUDE@, value, notebook) {
        assert(value matches SettingModel::List(items) && forall|i: int| 0 <= i < items.len() ==> #[trigger] excludable(items[i]));
        assert(excludable(listed[y]));
    }
}

/// The paths a `stamp-exclude` array names, each checked by
/// [`validated_exclude`]; an element that is not a string fails as a
/// value that is not an array of strings.
fn excluded_paths(items: &Vec<Option<String>>) -> (r: Result<Vec<std::path::PathBuf>, Error>)
    ensures
        r is Ok <==> forall|y: int| 0 <= y < items@.len() ==> #[trigger] excludable(
            option_text(items@[y]),
        ),
        r matches Ok(paths) ==> exclusions_read(
            paths@,
            items@.map_values(|x: Option<String>| option_text(x)),
        ),
        r matches Err(e) ==> items_fail_as(items@.map_values(|x: Option<String>| option_text(x)), e),
{
    let ghost listed = items@.map_values(|x: Option<String>| option_text(x));
    let mut excluded: Vec<std::path::PathBuf> = Vec::new();
    let mut j: usize = 0;
    while j < items.len()
        invariant
            j <= items@.len(),
            forall|y: int| 0 <= y < j ==> #[trigger] excludable(option_text(items@[y])),
            listed == items@.map_values(|x: Option<String>| option_text(x)),
            excluded@.len() == j,
            forall|y: int| 0 <= y < j ==> #[trigger] excluded_at(excluded@, listed, y),
        decreases items@.len() - j,
    {
        assert(listed[j as int] == option_text(items@[j as int]));
        let value = match &items[j] {
            Some(value) => value,
            None => {
                let e = Error::NotAnArray { key: STAMP_EXCLUDE };
                proof {
                    reveal_strlit("stamp-exclude");
                    assert(!excludable(listed[j as int]));
                    assert(item_fails_as(listed[j as int], e));
                    assert(forall|y: int| 0 <= y < j ==> #[trigger] excludable(listed[y])) by {
                        assert forall|y: int| 0 <= y < j implies #[trigger] excludable(listed[y]) by {
                            assert(listed[y] == option_text(items@[y]));
                        }
                    }
                }
                return Err(e);
            },
        };
        let p = match validated_exclude(value.as_str()) {
            Ok(p) => p,
            Err(e) => {
                proof {
                    assert(!excludable(listed[j as int]));
                    assert(item_fails_as(listed[j as int], e));
                    assert(forall|y: int| 0 <= y < j ==> #[trigger] excludable(listed[y])) by {
                        assert forall|y: int| 0 <= y < j implies #[trigger] excludable(listed[y]) by {
                            assert(listed[y] == option_text(items@[y]));
                        }
                    }
                }
                return Err(e);
            },
        };
        let ghost prev = excluded@;
        excluded.push(p);
        assert forall|y: int| 0 <= y < j + 1 implies #[trigger] excluded_at(excluded@, listed, y) by {
            if y < j {
                assert(excluded_at(prev, listed, y));
                assert(excluded@[y] == prev[y]);
            }
        }
        j += 1;
    }
    Ok(excluded)
}

/// Reads the entry `key = value` into `config`, checking it first: the
/// machine-scoped rejection when `notebook` is set, then the rule of the
/// key.
fn read_entry(config: &mut Config, file: &std::path::PathBuf, entry: &Entry, notebook: bool) -> (r:
    Result<(), Error>)
    ensures
        r is Ok <==> entry_valid(entry.key@, entry.value@, notebook),
        r matches Err(e) ==> entry_fails_as(e, *file, entry.key@, entry.value@, notebook),
        r is Ok ==> stepped(*old(config), *final(config), entry.key@, entry.value@),
{
    proof {
        lemma_keys_distinct();
    }
    let key = entry.key.as_str();
    if notebook && machine_scoped(key) {
        return Err(Error::MachineKey { path: owned_path(file), key: key.to_owned() });
    }
    if same_str(key, STAMP) {
        return match entry.value {
            Setting::Flag(flag) => {
                config.stamp = Some(flag);
                Ok(())
            },
            _ => Err(Error::NotABoolean { key: STAMP }),
        };
    }
    if same_str(key, STAMP_EXCLUDE) {
        return match &entry.value {
            Setting::List(items) => {
                assert(entry.value@ == SettingModel::List(
                    items@.map_values(|x: Option<String>| option_text(x)),
                ));
                assert(forall|y: int|
                    0 <= y < items@.len() ==> items@.map_values(|x: Option<String>| option_text(x))[y]
                        == option_text(#[trigger] items@[y]));
                match excluded_paths(items) {
                    Ok(excluded) => {
                        proof {
                            let listed = items@.map_values(|x: Option<String>| option_text(x));
                            assert forall|y: int| 0 <= y < listed.len() implies #[trigger] excludable(
                                listed[y],
                            ) by {
                                assert(listed[y] == option_text(items@[y]));
                            }
                        }
                        config.stamp_exclude = Some(excluded);
                        Ok(())
                    },
                    Err(e) => {
                        proof {
                            let y = choose|y: int|
                                0 <= y < items@.len() && !#[trigger] excludable(
                                    option_text(items@[y]),
                                );
                            let listed = items@.map_values(|x: Option<String>| option_text(x));
                            assert(listed[y] == option_text(items@[y]));
                            lemma_exclude_fails(listed, y, notebook);
                        }
                        Err(e)
                    },
                }
            },
            _ => Err(Error::NotAnArray { key: STAMP_EXCLUDE }),
        };
    }
    if !(same_str(key, DEFAULT_NOTEBOOK) || same_str(key, EDITOR) || same_str(key, DAILY_FOLDER)
        || same_str(key, DAILY_DATE_FORMAT) || same_str(key, DAILY_TEMPLATE) || same_str(
        key,
        STAMP_CREATED_KEY,
    ) || same_str(key, STAMP_UPDATED_KEY) || same_str(key, STAMP_FORMAT) || same_str(
        key,
        BULLET_INDENT,
    )) {
        return Err(Error::UnknownKey { path: owned_path(file), key: key.to_owned() });
    }
    let value = match &entry.value {
        Setting::Text(s) => s.as_str(),
        _ => {
            let name = if same_str(key, DEFAULT_NOTEBOOK) {
                DEFAULT_NOTEBOOK
            } else if same_str(key, EDITOR) {
                EDITOR
            } else if same_str(key, DAILY_FOLDER) {
                DAILY_FOLDER
            } else if same_str(key, DAILY_DATE_FORMAT) {
                DAILY_DATE_FORMAT
            } else if same_str(key, DAILY_TEMPLATE) {
                DAILY_TEMPLATE
            } else if same_str(key, STAMP_CREATED_KEY) {
                STAMP_CREATED_KEY
            } else if same_str(key, STAMP_UPDATED_KEY) {
                STAMP_UPDATED_KEY
            } else if same_str(key, STAMP_FORMAT) {
                STAMP_FORMAT
            } else {
                BULLET_INDENT
            };
            return Err(Error::NotAString { key: name });
        },
    };
    if same_str(key, DEFAULT_NOTEBOOK) {
        let path = path_from(value);
        if !is_absolute(&path) {
            return Err(Error::NotAbsolute { key: DEFAULT_NOTEBOOK, value: value.to_owned() });
        }
        config.default_notebook = Some(path);
    } else if same_str(key, EDITOR) {
        validated_editor(value)?;
        config.editor = Some(value.to_owned());
    } else if same_str(key, DAILY_FOLDER) {
        config.daily_folder = Some(validated_daily_folder(value)?);
    } else if same_str(key, DAILY_DATE_FORMAT) {
        match day::Format::new(value) {
            Ok(format) => {
                config.daily_date_format = Some(format);
            },
            Err(cause) => {
                return Err(Error::InvalidDateFormat { cause });
            },
        }
    } else if same_str(key, DAILY_TEMPLATE) {
        config.daily_template = Some(validated_daily_template(value)?);
    } else if same_str(key, STAMP_CREATED_KEY) {
        config.stamp_created_key = Some(validated_stamp_key(STAMP_CREATED_KEY, value)?);
    } else if same_str(key, STAMP_UPDATED_KEY) {
        config.stamp_updated_key = Some(validated_stamp_key(STAMP_UPDATED_KEY, value)?);
    } else if same_str(key, STAMP_FORMAT) {
        match day::StampFormat::new(value) {
            Ok(format) => {
                config.stamp_format = Some(format);
            },
            Err(cause) => {
                return Err(Error::InvalidStampFormat { cause });
            },
        }
    } else {
        config.bullet_indent = Some(validated_bullet_indent(value)?);
    }
    Ok(())
}

/// The first entry that cannot stand decides the error of the whole.
proof fn lemma_first_failure(
    e: Error,
    file: std::path::PathBuf,
    entries: Seq<(Seq<char>, SettingModel)>,
    n: int,
    notebook: bool,
)
    requires
        0 <= n < entries.len(),
        forall|j: int| 0 <= j < n ==> #[trigger] entry_valid(entries[j].0, entries[j].1, notebook),
        !entry_valid(entries[n].0, entries[n].1, notebook),
        entry_fails_as(e, file, entries[n].0, entries[n].1, notebook),
    ensures
        entries_fail_as(e, file, entries, notebook),
        !(forall|j: int| 0 <= j < entries.len() ==> #[trigger] entry_valid(entries[j].0, entries[j].1, notebook)),
{
}

/// The shared reader behind [`load`] and [`load_notebook`]: one set of
/// per-key rules, with the machine-scoped rejection ahead of them when
/// `notebook` is set.
fn parsed(file: &std::path::PathBuf, contents: &str, notebook: bool) -> (r: Result<Config, Error>)
    ensures
        toml_document(contents@) matches Err(m) ==> (r matches Err(Error::Parse { path, cause })
            && path == *file && cause@ == m),
        r matches Ok(c) ==> toml_document(contents@) matches Ok(entries) && read_from(c, entries, entries.len() as int),
        r is Ok <==> (toml_document(contents@) matches Ok(entries) && forall|j: int| 0 <= j < entries.len() ==> #[trigger] entry_valid(entries[j].0, entries[j].1, notebook)),
        r matches Err(e) ==> toml_document(contents@) matches Ok(entries) ==> entries_fail_as(e, *file, entries, notebook),
{
    match toml_entries(contents) {
        Ok(entries) => {
            let r = read_entries(file, &entries, notebook);
            proof {
                let model = entries_view(entries@);
                assert(toml_document(contents@) == Ok::<_, Seq<char>>(model));
                if r is Ok {
                    assert forall|j: int| 0 <= j < model.len() implies #[trigger] entry_valid(
                        model[j].0,
                        model[j].1,
                        notebook,
                    ) by {
                        assert(entry_valid(model[j].0, model[j].1, notebook));
                    }
                    assert(toml_document(contents@) matches Ok(x) && forall|j: int| 0 <= j < x.len() ==> #[trigger] entry_valid(x[j].0, x[j].1, notebook));
                } else {
                    let e = r->Err_0;
                    let i = choose|i: int|
                        0 <= i < model.len() && (forall|j: int| 0 <= j < i ==> #[trigger] entry_valid(model[j].0, model[j].1, notebook))
                            && !entry_valid(model[i].0, model[i].1, notebook) && #[trigger] entry_fails_as(e, *file, model[i].0, model[i].1, notebook);
                    assert(!entry_valid(model[i].0, model[i].1, notebook));
                    let x = toml_document(contents@)->Ok_0;
                    assert(x == model);
                    assert(x[i] == model[i]);
                    assert(!entry_valid(x[i].0, x[i].1, notebook));
                    assert(!(toml_document(contents@) matches Ok(x) && forall|j: int| 0 <= j < x.len() ==> #[trigger] entry_valid(x[j].0, x[j].1, notebook)));
                }
            }
            r
        },
        Err(cause) => Err(Error::Parse { path: owned_path(file), cause }),
    }
}

/// Reads a config file's top-level entries, in document order, into a
/// config: every key and value checked by its rule, the machine-scoped
/// keys refused first when `notebook` is set, and the first entry that
/// cannot stand deciding the error. `file` names the file in errors.
pub fn read_entries(file: &std::path::PathBuf, entries: &Vec<Entry>, notebook: bool) -> (r: Result<Config, Error>)
    ensures
        r matches Ok(c) ==> read_from(c, entries_view(entries@), entries@.len() as int),
        r is Ok <==> forall|j: int| 0 <= j < entries@.len() ==> #[trigger] entry_valid(
            entries_view(entries@)[j].0,
            entries_view(entries@)[j].1,
            notebook,
        ),
        r matches Err(e) ==> entries_fail_as(e, *file, entries_view(entries@), notebook),
{
    let ghost model = entries_view(entries@);
    let mut config = Config {
        default_notebook: None,
        editor: None,
        daily_folder: None,
        daily_date_format: None,
        daily_template: None,
        stamp: None,
        stamp_created_key: None,
        stamp_updated_key: None,
        stamp_format: None,
        stamp_exclude: None,
        bullet_indent: None,
    };
    let mut i: usize = 0;
    while i < entries.len()
        invariant
            i <= entries@.len(),
            model == entries_view(entries@),
            read_from(config, model, i as int),
            forall|j: int| 0 <= j < i ==> #[trigger] entry_valid(model[j].0, model[j].1, notebook),
        decreases entries@.len() - i,
    {
        assert(model[i as int] == (entries@[i as int].key@, entries@[i as int].value@));
        let ghost before = config;
        match read_entry(&mut config, file, &entries[i], notebook) {
            Ok(()) => {},
            Err(e) => {
                proof {
                    assert(!entry_valid(model[i as int].0, model[i as int].1, notebook));
                    lemma_first_failure(e, *file, model, i as int, notebook);
                    assert(!(forall|j: int| 0 <= j < model.len() ==> #[trigger] entry_valid(model[j].0, model[j].1, notebook)));
                }
                return Err(e);
            },
        }
        proof {
            lemma_read_step(before, config, model, i as int);
        }
        i += 1;
    }
    Ok(config)
}

/// A notebook config that sets no machine-scoped key reads as the base
/// config would: its entries stand exactly when they stand in the base
/// config, and they fail with the same error, which `load_notebook` then
/// wraps with the file's path when it is a value error.
pub proof fn notebook_reads_as_base(e: Error, file: std::path::PathBuf, entries: Seq<(Seq<char>, SettingModel)>)
    requires
        forall|j: int| 0 <= j < entries.len() ==> !(#[trigger] entries[j].0 == DEFAULT_NOTEBOOK@
            || entries[j].0 == EDITOR@),
    ensures
        (forall|j: int| 0 <= j < entries.len() ==> #[trigger] entry_valid(entries[j].0, entries[j].1, true))
            <==> (forall|j: int| 0 <= j < entries.len() ==> #[trigger] entry_valid(entries[j].0, entries[j].1, false)),
        entries_fail_as(e, file, entries, true) <==> entries_fail_as(e, file, entries, false),
{
    assert forall|j: int| 0 <= j < entries.len() implies entry_valid(entries[j].0, entries[j].1, true)
        == entry_valid(entries[j].0, entries[j].1, false) && entry_fails_as(e, file, entries[j].0, entries[j].1, true)
        == entry_fails_as(e, file, entries[j].0, entries[j].1, false) by {
        assert(!(entries[j].0 == DEFAULT_NOTEBOOK@ || entries[j].0 == EDITOR@));
    }
    if entries_fail_as(e, file, entries, true) {
        let i = choose|i: int|
            0 <= i < entries.len() && (forall|j: int| 0 <= j < i ==> #[trigger] entry_valid(entries[j].0, entries[j].1, true))
                && !entry_valid(entries[i].0, entries[i].1, true) && #[trigger] entry_fails_as(e, file, entries[i].0, entries[i].1, true);
        assert(forall|j: int| 0 <= j < i ==> #[trigger] entry_valid(entries[j].0, entries[j].1, false));
        assert(entry_fails_as(e, file, entries[i].0, entries[i].1, false));
    }
    if entries_fail_as(e, file, entries, false) {
        let i = choose|i: int|
            0 <= i < entries.len() && (forall|j: int| 0 <= j < i ==> #[trigger] entry_valid(entries[j].0, entries[j].1, false))
                && !entry_valid(entries[i].0, entries[i].1, false) && #[trigger] entry_fails_as(e, file, entries[i].0, entries[i].1, false);
        assert(forall|j: int| 0 <= j < i ==> #[trigger] entry_valid(entries[j].0, entries[j].1, true));
        assert(entry_fails_as(e, file, entries[i].0, entries[i].1, true));
    }
}

/// Two errors an entry fails with display the same message: what an
/// entry fails with is fixed up to the identity of its text values.
proof fn lemma_entry_message(
    e1: Error,
    e2: Error,
    file: std::path::PathBuf,
    key: Seq<char>,
    value: SettingModel,
    notebook: bool,
)
    requires
        entry_fails_as(e1, file, key, value, notebook),
        entry_fails_as(e2, file, key, value, notebook),
    ensures
        error_message(e1) == error_message(e2),
{
    if let SettingModel::List(items) = value {
        if key == STAMP_EXCLUDE@ && !(notebook && (key == DEFAULT_NOTEBOOK@ || key == EDITOR@)) {
            lemma_keys_distinct();
            let i1 = choose|i: int|
                0 <= i < items.len() && (forall|j: int| 0 <= j < i ==> #[trigger] excludable(items[j]))
                    && !excludable(items[i]) && #[trigger] item_fails_as(items[i], e1);
            let i2 = choose|i: int|
                0 <= i < items.len() && (forall|j: int| 0 <= j < i ==> #[trigger] excludable(items[j]))
                    && !excludable(items[i]) && #[trigger] item_fails_as(items[i], e2);
            if i1 < i2 {
                assert(excludable(items[i1]));
            } else if i2 < i1 {
                assert(excludable(items[i2]));
            }
        }
    }
}

/// Two errors the same entries fail with display the same message: the
/// first entry that cannot stand decides both.
proof fn lemma_entries_message(
    e1: Error,
    e2: Error,
    file: std::path::PathBuf,
    entries: Seq<(Seq<char>, SettingModel)>,
    notebook: bool,
)
    requires
        entries_fail_as(e1, file, entries, notebook),
        entries_fail_as(e2, file, entries, notebook),
    ensures
        error_message(e1) == error_message(e2),
{
    let i1 = choose|i: int|
        0 <= i < entries.len() && (forall|j: int| 0 <= j < i ==> #[trigger] entry_valid(entries[j].0, entries[j].1, notebook))
            && !entry_valid(entries[i].0, entries[i].1, notebook) && #[trigger] entry_fails_as(e1, file, entries[i].0, entries[i].1, notebook);
    let i2 = choose|i: int|
        0 <= i < entries.len() && (forall|j: int| 0 <= j < i ==> #[trigger] entry_valid(entries[j].0, entries[j].1, notebook))
            && !entry_valid(entries[i].0, entries[i].1, notebook) && #[trigger] entry_fails_as(e2, file, entries[i].0, entries[i].1, notebook);
    if i1 < i2 {
        assert(entry_valid(entries[i1].0, entries[i1].1, notebook));
    } else if i2 < i1 {
        assert(entry_valid(entries[i2].0, entries[i2].1, notebook));
    } else {
        lemma_entry_message(e1, e2, file, entries[i1].0, entries[i1].1, notebook);
    }
}

/// A notebook config that sets no machine-scoped key fails, when it
/// fails, with the message the base config reading of the same contents
/// fails with: `load_notebook` reports what `load` would, value errors
/// wrapped with the file's path.
pub proof fn notebook_fails_as_base(
    notebook_error: Error,
    base_error: Error,
    file: std::path::PathBuf,
    entries: Seq<(Seq<char>, SettingModel)>,
)
    requires
        forall|j: int| 0 <= j < entries.len() ==> !(#[trigger] entries[j].0 == DEFAULT_NOTEBOOK@
            || entries[j].0 == EDITOR@),
        entries_fail_as(notebook_error, file, entries, true),
        entries_fail_as(base_error, file, entries, false),
    ensures
        error_message(notebook_error) == error_message(base_error),
        file_error(notebook_error) <==> file_error(base_error),
{
    notebook_reads_as_base(notebook_error, file, entries);
    lemma_entries_message(notebook_error, base_error, file, entries, false);
    lemma_entries_kind(notebook_error, base_error, file, entries, false);
}

/// Two errors the same entries fail with are both errors of the file as a
/// whole, or both value errors.
proof fn lemma_entries_kind(
    e1: Error,
    e2: Error,
    file: std::path::PathBuf,
    entries: Seq<(Seq<char>, SettingModel)>,
    notebook: bool,
)
    requires
        entries_fail_as(e1, file, entries, notebook),
        entries_fail_as(e2, file, entries, notebook),
    ensures
        file_error(e1) <==> file_error(e2),
{
    let i1 = choose|i: int|
        0 <= i < entries.len() && (forall|j: int| 0 <= j < i ==> #[trigger] entry_valid(entries[j].0, entries[j].1, notebook))
            && !entry_valid(entries[i].0, entries[i].1, notebook) && #[trigger] entry_fails_as(e1, file, entries[i].0, entries[i].1, notebook);
    let i2 = choose|i: int|
        0 <= i < entries.len() && (forall|j: int| 0 <= j < i ==> #[trigger] entry_valid(entries[j].0, entries[j].1, notebook))
            && !entry_valid(entries[i].0, entries[i].1, notebook) && #[trigger] entry_fails_as(e2, file, entries[i].0, entries[i].1, notebook);
    if i1 < i2 {
        assert(entry_valid(entries[i1].0, entries[i1].1, notebook));
    } else if i2 < i1 {
        assert(entry_valid(entries[i2].0, entries[i2].1, notebook));
    } else {
        let (k, v) = entries[i1];
        if let SettingModel::List(items) = v {
            if k == STAMP_EXCLUDE@ {
                lemma_keys_distinct();
                let j1 = choose|i: int|
                    0 <= i < items.len() && (forall|j: int| 0 <= j < i ==> #[trigger] excludable(items[j]))
                        && !excludable(items[i]) && #[trigger] item_fails_as(items[i], e1);
                let j2 = choose|i: int|
                    0 <= i < items.len() && (forall|j: int| 0 <= j < i ==> #[trigger] excludable(items[j]))
                        && !excludable(items[i]) && #[trigger] item_fails_as(items[i], e2);
                if j1 < j2 {
                    assert(excludable(items[j1]));
                } else if j2 < j1 {
                    assert(excludable(items[j2]));
                }
            }
        }
    }
}

/// Reads and validates a config file's contents; a missing file reads as
/// empty contents. `file` names the file in errors.
///
/// Fails when the contents are not valid TOML, hold an unknown key, or
/// hold a value of the wrong shape: `default-notebook` must be an
/// absolute path, `editor` a shell-parsable command, `daily-folder` and
/// `daily-template` non-empty relative paths, `daily-date-format` and
/// `stamp-format` formats that render, the stamp keys writable property
/// names, `stamp` a boolean, `stamp-exclude` an array of paths inside the
/// notebook, and `bullet-indent` `tab` or `spaces`.
pub fn load(file: &std::path::PathBuf, contents: &str) -> (r: Result<Config, Error>)
    ensures
        toml_document(contents@) matches Err(m) ==> (r matches Err(Error::Parse { path, cause })
            && path == *file && cause@ == m),
        r is Ok <==> (toml_document(contents@) matches Ok(entries) && forall|j: int|
            0 <= j < entries.len() ==> #[trigger] entry_valid(entries[j].0, entries[j].1, false)),
        r matches Ok(c) ==> toml_document(contents@) matches Ok(entries) && read_from(
            c,
            entries,
            entries.len() as int,
        ),
        r matches Err(e) ==> toml_document(contents@) matches Ok(entries) ==> entries_fail_as(
            e,
            *file,
            entries,
            false,
        ),
{
    parsed(file, contents, false)
}

/// Whether `e` is what a notebook config reports for the error `inner`
/// of its contents: errors of the file as a whole stand as they are,
/// value errors are wrapped with the file's path.
pub open spec fn notebook_error(e: Error, file: std::path::PathBuf, inner: Error) -> bool {
    if file_error(inner) {
        e == inner
    } else {
        e matches Error::NotebookValue { path, cause } && path == file && *cause == inner
    }
}

/// Reads and validates a notebook's own config contents, with the same
/// keys, shapes and empty-contents behavior as [`load`], except that the
/// machine-scoped keys are rejected. A value error is wrapped with the
/// file's path, because by then there are two files a bad value could
/// live in.
pub fn load_notebook(file: &std::path::PathBuf, contents: &str) -> (r: Result<Config, Error>)
    ensures
        toml_document(contents@) matches Err(m) ==> (r matches Err(Error::Parse { path, cause })
            && path == *file && cause@ == m),
        r is Ok <==> (toml_document(contents@) matches Ok(entries) && forall|j: int|
            0 <= j < entries.len() ==> #[trigger] entry_valid(entries[j].0, entries[j].1, true)),
        r matches Ok(c) ==> toml_document(contents@) matches Ok(entries) && read_from(
            c,
            entries,
            entries.len() as int,
        ),
        r matches Err(e) ==> toml_document(contents@) matches Ok(entries) ==> exists|inner: Error|
            #[trigger] entries_fail_as(inner, *file, entries, true) && notebook_error(e, *file, inner),
{
    match parsed(file, contents, true) {
        Ok(config) => Ok(config),
        Err(error) => {
            let ghost inner = error;
            let wrapped = match error {
                Error::Read { .. } | Error::Parse { .. } | Error::UnknownKey { .. } | Error::MachineKey { .. } => error,
                _ => Error::NotebookValue { path: owned_path(file), cause: Box::new(error) },
            };
            proof {
                if toml_document(contents@) is Ok {
                    assert(entries_fail_as(inner, *file, toml_document(contents@)->Ok_0, true));
                }
            }
            Err(wrapped)
        },
    }
}

/// The contents toml_edit leaves of `contents` with `key` removed from
/// its top-level table: `None` when the key is absent, or the message of
/// the parse error it reports.
pub uninterp spec fn toml_removed(contents: Seq<char>, key: Seq<char>) -> Result<Option<Seq<char>>, Seq<char>>;

/// The logical content of an edit's outcome.
pub open spec fn removal_view(r: Result<Option<String>, String>) -> Result<Option<Seq<char>>, Seq<char>> {
    match r {
        Ok(Some(s)) => Ok(Some(s@)),
        Ok(None) => Ok(None),
        Err(m) => Err(m@),
    }
}

/// Removes `key` from `contents`; wraps `DocumentMut::from_str`,
/// `Table::remove` and `DocumentMut::to_string`.
#[verifier::external_body]
fn toml_without(contents: &str, key: &str) -> (r: Result<Option<String>, String>)
    ensures
        removal_view(r) == toml_removed(contents@, key@),
{
    let mut document: DocumentMut = contents.parse().map_err(|cause: toml_edit::TomlError| cause.to_string())?;
    Ok(document.as_table_mut().remove(key).map(|_| document.to_string()))
}

/// The contents a config file is left with once `key` is removed,
/// comments and every other key kept; `None` when the key is absent,
/// which leaves the file untouched. `file` names the file in errors.
pub fn unset(file: &std::path::PathBuf, contents: &str, key: &str) -> (r: Result<Option<String>, Error>)
    ensures
        toml_removed(contents@, key@) matches Err(m) ==> (r matches Err(Error::Parse { path, cause })
            && path == *file && cause@ == m),
        toml_removed(contents@, key@) matches Ok(o) ==> (r matches Ok(x) && o == match x {
            Some(s) => Some(s@),
            None => None::<Seq<char>>,
        }),
{
    match toml_without(contents, key) {
        Ok(kept) => Ok(kept),
        Err(cause) => Err(Error::Parse { path: owned_path(file), cause }),
    }
}

/// A value a config key is stored as: text, a boolean, or an array of
/// text.
#[derive(Debug)]
pub enum Stored {
    Text(String),
    Flag(bool),
    Texts(Vec<String>),
}

/// The logical content of a [`Stored`] value.
pub enum StoredModel {
    Text(Seq<char>),
    Flag(bool),
    Texts(Seq<Seq<char>>),
}

impl View for Stored {
    type V = StoredModel;

    open spec fn view(&self) -> StoredModel {
        match self {
            Stored::Text(s) => StoredModel::Text(s@),
            Stored::Flag(b) => StoredModel::Flag(*b),
            Stored::Texts(l) => StoredModel::Texts(l@.map_values(|s: String| s@)),
        }
    }
}

/// The contents toml_edit leaves of `contents` once its top-level `key`
/// holds `value`, or the message of the parse error it reports.
pub uninterp spec fn toml_set(contents: Seq<char>, key: Seq<char>, value: StoredModel) -> Result<Seq<char>, Seq<char>>;

/// The logical content of a text outcome.
pub open spec fn text_view(r: Result<String, String>) -> Result<Seq<char>, Seq<char>> {
    match r {
        Ok(s) => Ok(s@),
        Err(m) => Err(m@),
    }
}

/// Stores `value` under `key` in `contents`; wraps `DocumentMut::from_str`,
/// indexing the document, `toml_edit::value` and `DocumentMut::to_string`.
#[verifier::external_body]
fn toml_with(contents: &str, key: &str, value: &Stored) -> (r: Result<String, String>)
    ensures
        text_view(r) == toml_set(contents@, key@, value@),
{
    let mut document: DocumentMut = contents.parse().map_err(|cause: toml_edit::TomlError| cause.to_string())?;
    document[key] = match value {
        Stored::Text(text) => toml_edit::value(text.as_str()),
        Stored::Flag(flag) => toml_edit::value(*flag),
        Stored::Texts(texts) => {
            let mut array = toml_edit::Array::new();
            for text in texts {
                array.push(text.as_str());
            }
            toml_edit::value(array)
        },
    };
    Ok(document.to_string())
}

/// Whether `r` is what storing `value` under `key` leaves of a config
/// file: the error reading it when `contents` holds one, the parse error
/// toml_edit reports, or the edited contents.
pub open spec fn store_outcome(
    r: Result<String, Error>,
    file: std::path::PathBuf,
    contents: Result<String, Error>,
    key: Seq<char>,
    value: StoredModel,
) -> bool {
    match contents {
        Err(e) => r == Err::<String, Error>(e),
        Ok(c) => match toml_set(c@, key, value) {
            Ok(s) => r matches Ok(x) && x@ == s,
            Err(m) => r matches Err(Error::Parse { path, cause }) && path == file && cause@ == m,
        },
    }
}

/// The contents a config file is left with once `key` holds `value`,
/// comments and every other key kept. `contents` is the file as read, a
/// missing file read as empty, or the error reading it.
fn stored(file: &std::path::PathBuf, contents: Result<String, Error>, key: &str, value: &Stored) -> (r:
    Result<String, Error>)
    ensures
        store_outcome(r, *file, contents, key@, value@),
{
    let text = contents?;
    match toml_with(text.as_str(), key, value) {
        Ok(edited) => Ok(edited),
        Err(cause) => Err(Error::Parse { path: owned_path(file), cause }),
    }
}

/// Stores the notebook path spelled `notebook` under `default-notebook`,
/// the rest of the file kept, once `is_dir` says it is a directory.
pub fn set_default_notebook(
    file: &std::path::PathBuf,
    contents: Result<String, Error>,
    notebook: &str,
    is_dir: bool,
) -> (r: Result<String, Error>)
    ensures
        !is_dir ==> (r matches Err(Error::NotADirectory { path }) && path == path_of(notebook@)),
        is_dir ==> store_outcome(r, *file, contents, DEFAULT_NOTEBOOK@, StoredModel::Text(notebook@)),
{
    if !is_dir {
        return Err(Error::NotADirectory { path: path_from(notebook) });
    }
    stored(file, contents, DEFAULT_NOTEBOOK, &Stored::Text(notebook.to_owned()))
}

/// Stores `editor` under `editor`, the rest of the file kept, once it
/// parses as a command.
pub fn set_editor(file: &std::path::PathBuf, contents: Result<String, Error>, editor: &str) -> (r:
    Result<String, Error>)
    ensures
        editor_ok(editor@) ==> store_outcome(r, *file, contents, EDITOR@, StoredModel::Text(editor@)),
        !editor_ok(editor@) && shell_words(editor@) is None ==> (r matches Err(
            Error::UnparsableEditor { cause },
        ) && cause@ == "missing closing quote"@),
        !editor_ok(editor@) && shell_words(editor@) is Some ==> r matches Err(Error::EmptyEditor),
{
    validated_editor(editor)?;
    stored(file, contents, EDITOR, &Stored::Text(editor.to_owned()))
}

/// Stores `folder` under `daily-folder`, the rest of the file kept, once
/// it is a non-empty relative path.
pub fn set_daily_folder(file: &std::path::PathBuf, contents: Result<String, Error>, folder: &str) -> (r:
    Result<String, Error>)
    ensures
        folder@.len() == 0 ==> r matches Err(Error::EmptyDailyFolder),
        folder@.len() > 0 && rooted(path_of(folder@)) ==> (r matches Err(Error::NotRelative { key: k, value: v }) && k@ == DAILY_FOLDER@ && v@ == folder@),
        relative_ok(folder@) ==> store_outcome(r, *file, contents, DAILY_FOLDER@, StoredModel::Text(folder@)),
{
    validated_daily_folder(folder)?;
    stored(file, contents, DAILY_FOLDER, &Stored::Text(folder.to_owned()))
}

/// Stores `template` under `daily-template`, the rest of the file kept,
/// once it is a non-empty relative path.
pub fn set_daily_template(file: &std::path::PathBuf, contents: Result<String, Error>, template: &str) -> (r:
    Result<String, Error>)
    ensures
        template@.len() == 0 ==> r matches Err(Error::EmptyDailyTemplate),
        template@.len() > 0 && rooted(path_of(template@)) ==> (r matches Err(Error::NotRelative { key: k, value: v }) && k@ == DAILY_TEMPLATE@ && v@ == template@),
        relative_ok(template@) ==> store_outcome(r, *file, contents, DAILY_TEMPLATE@, StoredModel::Text(template@)),
{
    validated_daily_template(template)?;
    stored(file, contents, DAILY_TEMPLATE, &Stored::Text(template.to_owned()))
}

/// Stores `format` under `daily-date-format`, the rest of the file kept,
/// once it renders a date to a non-empty single line.
pub fn set_daily_date_format(file: &std::path::PathBuf, contents: Result<String, Error>, format: &str) -> (r:
    Result<String, Error>)
    ensures
        day::valid_date_format(format@) ==> store_outcome(r, *file, contents, DAILY_DATE_FORMAT@, StoredModel::Text(format@)),
        !day::valid_date_format(format@) ==> (r matches Err(Error::InvalidDateFormat { cause }) && day::format_refusal(format@, cause)),
{
    match day::Format::new(format) {
        Ok(_) => stored(file, contents, DAILY_DATE_FORMAT, &Stored::Text(format.to_owned())),
        Err(cause) => Err(Error::InvalidDateFormat { cause }),
    }
}

/// Stores `value` under `stamp` as a boolean, the rest of the file kept,
/// once it spells `true` or `false`.
pub fn set_stamp(file: &std::path::PathBuf, contents: Result<String, Error>, value: &str) -> (r:
    Result<String, Error>)
    ensures
        value@ == "true"@ ==> store_outcome(r, *file, contents, STAMP@, StoredModel::Flag(true)),
        value@ == "false"@ ==> store_outcome(r, *file, contents, STAMP@, StoredModel::Flag(false)),
        value@ != "true"@ && value@ != "false"@ ==> (r matches Err(Error::NotABoolean { key: k }) && k@ == STAMP@),
{
    proof {
        reveal_strlit("true");
        reveal_strlit("false");
        assert("true"@.len() != "false"@.len());
    }
    let flag = if same_str(value, "true") {
        true
    } else if same_str(value, "false") {
        false
    } else {
        return Err(Error::NotABoolean { key: STAMP });
    };
    stored(file, contents, STAMP, &Stored::Flag(flag))
}

/// Stores `value` under `stamp-created-key`, the rest of the file kept,
/// once it can name a property.
pub fn set_stamp_created_key(file: &std::path::PathBuf, contents: Result<String, Error>, value: &str) -> (r:
    Result<String, Error>)
    ensures
        frontmatter::key_problem(value@) is None ==> store_outcome(r, *file, contents, STAMP_CREATED_KEY@, StoredModel::Text(value@)),
        frontmatter::key_problem(value@) is Some ==> (r matches Err(Error::InvalidStampKey { key: k, cause })
            && k@ == STAMP_CREATED_KEY@ && cause@ == frontmatter::ErrorModel::InvalidKey(value@, frontmatter::key_problem(value@).unwrap())),
{
    let key = validated_stamp_key(STAMP_CREATED_KEY, value)?;
    stored(file, contents, STAMP_CREATED_KEY, &Stored::Text(key))
}

/// Stores `value` under `stamp-updated-key`, the rest of the file kept,
/// once it can name a property.
pub fn set_stamp_updated_key(file: &std::path::PathBuf, contents: Result<String, Error>, value: &str) -> (r:
    Result<String, Error>)
    ensures
        frontmatter::key_problem(value@) is None ==> store_outcome(r, *file, contents, STAMP_UPDATED_KEY@, StoredModel::Text(value@)),
        frontmatter::key_problem(value@) is Some ==> (r matches Err(Error::InvalidStampKey { key: k, cause })
            && k@ == STAMP_UPDATED_KEY@ && cause@ == frontmatter::ErrorModel::InvalidKey(value@, frontmatter::key_problem(value@).unwrap())),
{
    let key = validated_stamp_key(STAMP_UPDATED_KEY, value)?;
    stored(file, contents, STAMP_UPDATED_KEY, &Stored::Text(key))
}

/// Stores `value` under `stamp-format`, the rest of the file kept, once it
/// renders a datetime to a value a property can hold.
pub fn set_stamp_format(file: &std::path::PathBuf, contents: Result<String, Error>, value: &str) -> (r:
    Result<String, Error>)
    ensures
        day::valid_stamp_format(value@) ==> store_outcome(r, *file, contents, STAMP_FORMAT@, StoredModel::Text(value@)),
        !day::valid_stamp_format(value@) ==> (r matches Err(Error::InvalidStampFormat { cause }) && day::stamp_refusal(value@, cause)),
{
    match day::StampFormat::new(value) {
        Ok(_) => stored(file, contents, STAMP_FORMAT, &Stored::Text(value.to_owned())),
        Err(cause) => Err(Error::InvalidStampFormat { cause }),
    }
}

/// The entries a comma-separated `stamp-exclude` value lists, each with
/// the white space around it dropped.
pub open spec fn exclude_entries(value: Seq<char>) -> Seq<Seq<char>> {
    pieces(value, ',', value.len() as int).map_values(|p: Seq<char>| trimmed(p))
}

/// Stores the comma-separated `value` under `stamp-exclude` as an array,
/// the rest of the file kept, once every entry, its surrounding white
/// space dropped, names a place inside the notebook; the first entry
/// that does not decides the error.
pub fn set_stamp_exclude(file: &std::path::PathBuf, contents: Result<String, Error>, value: &str) -> (r:
    Result<String, Error>)
    ensures
        (forall|i: int| 0 <= i < exclude_entries(value@).len() ==> #[trigger] excludable(Some(exclude_entries(value@)[i])))
            ==> store_outcome(r, *file, contents, STAMP_EXCLUDE@, StoredModel::Texts(exclude_entries(value@))),
        !(forall|i: int| 0 <= i < exclude_entries(value@).len() ==> #[trigger] excludable(Some(exclude_entries(value@)[i])))
            ==> exists|i: int|
            0 <= i < exclude_entries(value@).len() && (forall|j: int| 0 <= j < i ==> #[trigger] excludable(Some(exclude_entries(value@)[j])))
                && !#[trigger] excludable(Some(exclude_entries(value@)[i])) && (r matches Err(e)
                && exclude_refusal(exclude_entries(value@)[i], e)),
{
    let chars = chars_of(value);
    let raw = split_at(chars.as_slice(), ',');
    let ghost entries = exclude_entries(value@);
    let mut texts: Vec<String> = Vec::new();
    let mut i: usize = 0;
    while i < raw.len()
        invariant
            i <= raw@.len(),
            raw@.map_values(|p: Vec<char>| p@) == pieces(value@, ',', value@.len() as int),
            entries == exclude_entries(value@),
            entries.len() == raw@.len(),
            texts@.len() == i,
            forall|j: int| 0 <= j < i ==> #[trigger] texts@[j]@ == entries[j],
            forall|j: int| 0 <= j < i ==> #[trigger] excludable(Some(entries[j])),
        decreases raw@.len() - i,
    {
        proof {
            assert(raw@.map_values(|p: Vec<char>| p@)[i as int] == raw@[i as int]@);
            assert(entries[i as int] == trimmed(raw@[i as int]@));
        }
        let entry = trim_white(raw[i].as_slice());
        let text = string_of(entry.as_slice());
        match validated_exclude(text.as_str()) {
            Ok(_) => {},
            Err(e) => {
                proof {
                    assert(text@ == entries[i as int]);
                    assert(!excludable(Some(entries[i as int])));
                    assert(exclude_refusal(entries[i as int], e));
                }
                return Err(e);
            },
        }
        texts.push(text);
        i += 1;
    }
    let ghost listed = texts@.map_values(|s: String| s@);
    assert(listed =~= entries);
    stored(file, contents, STAMP_EXCLUDE, &Stored::Texts(texts))
}

/// Stores `value` under `bullet-indent`, the rest of the file kept, once
/// it names an indent unit.
pub fn set_bullet_indent(file: &std::path::PathBuf, contents: Result<String, Error>, value: &str) -> (r:
    Result<String, Error>)
    ensures
        indent_named(value@) is Some ==> store_outcome(r, *file, contents, BULLET_INDENT@, StoredModel::Text(value@)),
        indent_named(value@) is None ==> r matches Err(Error::InvalidBulletIndent),
{
    validated_bullet_indent(value)?;
    stored(file, contents, BULLET_INDENT, &Stored::Text(value.to_owned()))
}

/// A key the `config` command reads or writes.
#[derive(Clone, Copy, Debug, PartialEq, Eq)]
pub enum ConfigKey {
    DefaultNotebook,
    Editor,
    DailyFolder,
    DailyDateFormat,
    DailyTemplate,
    Stamp,
    StampCreatedKey,
    StampUpdatedKey,
    StampFormat,
    StampExclude,
    BulletIndent,
}

/// The name a config key is spelled with in the file.
pub open spec fn key_name(key: ConfigKey) -> Seq<char> {
    match key {
        ConfigKey::DefaultNotebook => DEFAULT_NOTEBOOK@,
        ConfigKey::Editor => EDITOR@,
        ConfigKey::DailyFolder => DAILY_FOLDER@,
        ConfigKey::DailyDateFormat => DAILY_DATE_FORMAT@,
        ConfigKey::DailyTemplate => DAILY_TEMPLATE@,
        ConfigKey::Stamp => STAMP@,
        ConfigKey::StampCreatedKey => STAMP_CREATED_KEY@,
        ConfigKey::StampUpdatedKey => STAMP_UPDATED_KEY@,
        ConfigKey::StampFormat => STAMP_FORMAT@,
        ConfigKey::StampExclude => STAMP_EXCLUDE@,
        ConfigKey::BulletIndent => BULLET_INDENT@,
    }
}

impl ConfigKey {
    /// The name the key is spelled with in the file.
    pub fn name(self) -> (n: &'static str)
        ensures
            n@ == key_name(self),
    {
        match self {
            ConfigKey::DefaultNotebook => DEFAULT_NOTEBOOK,
            ConfigKey::Editor => EDITOR,
            ConfigKey::DailyFolder => DAILY_FOLDER,
            ConfigKey::DailyDateFormat => DAILY_DATE_FORMAT,
            ConfigKey::DailyTemplate => DAILY_TEMPLATE,
            ConfigKey::Stamp => STAMP,
            ConfigKey::StampCreatedKey => STAMP_CREATED_KEY,
            ConfigKey::StampUpdatedKey => STAMP_UPDATED_KEY,
            ConfigKey::StampFormat => STAMP_FORMAT,
            ConfigKey::StampExclude => STAMP_EXCLUDE,
            ConfigKey::BulletIndent => BULLET_INDENT,
        }
    }
}

/// The refusal for a machine-scoped key aimed at a notebook config,
/// `None` when the key is allowed there.
pub fn barred(key: ConfigKey, in_notebook: bool) -> (r: Option<String>)
    ensures
        r is Some <==> in_notebook && (key_name(key) == DEFAULT_NOTEBOOK@ || key_name(key) == EDITOR@),
        r matches Some(m) ==> m@ == "`"@ + key_name(key) + "` is machine-scoped: a notebook config cannot hold it"@,
{
    let name = key.name();
    if in_notebook && machine_scoped(name) {
        Some(concat("`", name, "` is machine-scoped: a notebook config cannot hold it"))
    } else {
        None
    }
}

/// How writes stamp notes, resolved from the config: whether they do, the
/// two property names, the timestamp format, and the notebook-relative
/// paths whose notes are never stamped.
#[derive(Debug)]
pub struct Stamping {
    pub enabled: bool,
    pub created_key: String,
    pub updated_key: String,
    pub format: day::StampFormat,
    pub excludes: Vec<std::path::PathBuf>,
}

/// Resolves stamping from the config, each unset key taking its default:
/// stamping on, the `created` and `updated` properties, the default
/// stamp format, and no exclusions. The clock is read later, per write.
pub fn stamping(config: Config) -> (s: Stamping)
    ensures
        s.enabled == match config.stamp {
            Some(b) => b,
            None => true,
        },
        s.created_key@ == match config.stamp_created_key {
            Some(k) => k@,
            None => frontmatter::DEFAULT_CREATED_KEY@,
        },
        s.updated_key@ == match config.stamp_updated_key {
            Some(k) => k@,
            None => frontmatter::DEFAULT_UPDATED_KEY@,
        },
        s.format.spec_text() == match config.stamp_format {
            Some(f) => f.spec_text(),
            None => day::DEFAULT_STAMP_FORMAT@,
        },
        s.excludes@ == match config.stamp_exclude {
            Some(v) => v@,
            None => Seq::<std::path::PathBuf>::empty(),
        },
{
    Stamping {
        enabled: match config.stamp {
            Some(b) => b,
            None => true,
        },
        created_key: match config.stamp_created_key {
            Some(k) => k,
            None => frontmatter::DEFAULT_CREATED_KEY.to_owned(),
        },
        updated_key: match config.stamp_updated_key {
            Some(k) => k,
            None => frontmatter::DEFAULT_UPDATED_KEY.to_owned(),
        },
        format: match config.stamp_format {
            Some(f) => f,
            None => day::StampFormat::default(),
        },
        excludes: match config.stamp_exclude {
            Some(v) => v,
            None => Vec::new(),
        },
    }
}

/// What a stamp format renders at `now`, empty should jiff refuse it.
pub open spec fn stamp_text(format: Seq<char>, now: jiff::civil::DateTime) -> Seq<char> {
    match day::datetime_value_rendering(format, now) {
        Some(s) => s,
        None => Seq::empty(),
    }
}

impl Stamping {
    /// Whether a note at `relative` sits under one of the excluded paths;
    /// `resolved` holds what each resolves to inside the notebook, as the
    /// filesystem says.
    pub open spec fn excludes_note(&self, relative: std::path::PathBuf, resolved: Seq<Option<std::path::PathBuf>>) -> bool {
        exists|i: int| 0 <= i < self.excludes@.len() && #[trigger] excluded_by(relative, self.excludes@[i], resolved[i])
    }

    /// The timestamp to stamp the note at `relative` with, rendered at
    /// `now`: `None` when stamping is off or the note sits under an
    /// excluded path. `resolved` holds, for each excluded path in order,
    /// what it resolves to inside the notebook.
    pub fn timestamp(
        &self,
        relative: &std::path::PathBuf,
        resolved: &Vec<Option<std::path::PathBuf>>,
        now: jiff::civil::DateTime,
    ) -> (r: Option<String>)
        requires
            resolved@.len() == self.excludes@.len(),
        ensures
            r is Some <==> self.enabled && !self.excludes_note(*relative, resolved@),
            r matches Some(t) ==> t@ == stamp_text(self.format.spec_text(), now),
    {
        let mut i: usize = 0;
        while i < self.excludes.len()
            invariant
                i <= self.excludes@.len(),
                resolved@.len() == self.excludes@.len(),
                forall|j: int| 0 <= j < i ==> !#[trigger] excluded_by(*relative, self.excludes@[j], resolved@[j]),
            decreases self.excludes@.len() - i,
        {
            if excluded(relative, &self.excludes[i], &resolved[i]) {
                return None;
            }
            i += 1;
        }
        if self.enabled {
            Some(self.format.render(now))
        } else {
            None
        }
    }
}

/// How the `config` command prints a `stamp-exclude` value: each path's
/// components joined with `/`, the paths joined with `,`, the shape
/// `set` reads back.
pub open spec fn exclude_listing(entries: Seq<std::path::PathBuf>) -> Seq<char> {
    joined_with(entries.map_values(|e: std::path::PathBuf| joined_with(component_spellings(e), '/')), ',')
}

/// The printed form of a `stamp-exclude` value.
pub fn listed_excludes(entries: &Vec<std::path::PathBuf>) -> (r: String)
    ensures
        r@ == exclude_listing(entries@),
{
    let mut spelled: Vec<String> = Vec::new();
    let mut i: usize = 0;
    while i < entries.len()
        invariant
            i <= entries@.len(),
            spelled@.len() == i,
            forall|j: int| 0 <= j < i ==> #[trigger] spelled@[j]@ == joined_with(component_spellings(entries@[j]), '/'),
        decreases entries@.len() - i,
    {
        let parts = component_texts(&entries[i]);
        spelled.push(join_with(&parts, '/'));
        i += 1;
    }
    assert(spelled@.map_values(|s: String| s@) =~= entries@.map_values(
        |e: std::path::PathBuf| joined_with(component_spellings(e), '/'),
    ));
    join_with(&spelled, ',')
}

} // verus!
