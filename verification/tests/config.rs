use std::path::PathBuf;

use kladde::config::{
    machine_scoped, Config, ConfigKey, BULLET_INDENT, DAILY_DATE_FORMAT, DAILY_FOLDER,
    DAILY_TEMPLATE, DEFAULT_NOTEBOOK, EDITOR, STAMP, STAMP_CREATED_KEY, STAMP_EXCLUDE,
    STAMP_FORMAT, STAMP_UPDATED_KEY,
};
use kladde::{config, day, structure};

/// An absolute path on this platform.
fn abs(value: &str) -> PathBuf {
    PathBuf::from(value)
}

/// A config with every key set, one side of the layering tests.
fn base_config() -> Config {
    Config {
        default_notebook: Some(abs("/machine")),
        editor: Some("vim".to_owned()),
        daily_folder: Some(PathBuf::from("base")),
        daily_date_format: Some(day::Format::new("%Y").expect("format builds")),
        daily_template: Some(PathBuf::from("base.md")),
        stamp: Some(true),
        stamp_created_key: Some("base-created".to_owned()),
        stamp_updated_key: Some("base-updated".to_owned()),
        stamp_format: Some(day::StampFormat::new("%Y").expect("format builds")),
        stamp_exclude: Some(vec![PathBuf::from("base")]),
        bullet_indent: Some(structure::Indent::Tab),
    }
}

/// A config setting every notebook-scoped key, differing from
/// [`base_config`] in each.
fn notebook_config() -> Config {
    Config {
        default_notebook: None,
        editor: None,
        daily_folder: Some(PathBuf::from("nb")),
        daily_date_format: Some(day::Format::new("%d").expect("format builds")),
        daily_template: Some(PathBuf::from("nb.md")),
        stamp: Some(false),
        stamp_created_key: Some("nb-created".to_owned()),
        stamp_updated_key: Some("nb-updated".to_owned()),
        stamp_format: Some(day::StampFormat::new("%H").expect("format builds")),
        stamp_exclude: Some(vec![PathBuf::from("nb")]),
        bullet_indent: Some(structure::Indent::Spaces),
    }
}

#[test]
fn dir_prefers_xdg_config_home() {
    assert_eq!(
        config::dir(Some(abs("/xdg")), Some(abs("/home/me"))),
        Some(abs("/xdg/kladde"))
    );
}

#[test]
fn dir_treats_empty_xdg_config_home_as_unset() {
    assert_eq!(
        config::dir(Some(PathBuf::new()), Some(abs("/home/me"))),
        Some(abs("/home/me/.config/kladde"))
    );
}

#[test]
fn dir_treats_relative_xdg_config_home_as_unset() {
    assert_eq!(
        config::dir(
            Some(PathBuf::from("relative/config")),
            Some(abs("/home/me"))
        ),
        Some(abs("/home/me/.config/kladde"))
    );
}

#[test]
fn dir_falls_back_to_home() {
    assert_eq!(
        config::dir(None, Some(abs("/home/me"))),
        Some(abs("/home/me/.config/kladde"))
    );
}

#[test]
fn dir_needs_an_absolute_base() {
    assert_eq!(config::dir(None, None), None);
    assert_eq!(config::dir(Some(PathBuf::new()), None), None);
    assert_eq!(config::dir(None, Some(PathBuf::from("relative"))), None);
}

#[test]
fn file_is_config_toml_inside_dir() {
    assert_eq!(
        config::file(Some(abs("/xdg")), None),
        Some(abs("/xdg/kladde/config.toml"))
    );
}

#[test]
fn machine_scoped_names_only_the_machine_keys() {
    assert!(machine_scoped(DEFAULT_NOTEBOOK));
    assert!(machine_scoped(EDITOR));
    for key in [
        DAILY_FOLDER,
        DAILY_DATE_FORMAT,
        DAILY_TEMPLATE,
        STAMP,
        STAMP_CREATED_KEY,
        STAMP_UPDATED_KEY,
        STAMP_FORMAT,
        STAMP_EXCLUDE,
        BULLET_INDENT,
    ] {
        assert!(!machine_scoped(key), "{key} is notebook-scoped");
    }
}

#[test]
fn layered_takes_the_notebook_value_for_keys_set_in_both() {
    let layered = base_config().layered(notebook_config());
    let expected = Config {
        default_notebook: Some(abs("/machine")),
        editor: Some("vim".to_owned()),
        ..notebook_config()
    };
    assert_eq!(layered, expected);
}

#[test]
fn layered_falls_back_to_the_base_for_unset_keys() {
    assert_eq!(base_config().layered(Config::default()), base_config());
}

/// Only a hand-built notebook config can hold machine keys, but the
/// contract stands: layering never takes them.
#[test]
fn layered_keeps_machine_keys_from_the_base() {
    let layered = Config::default().layered(base_config());
    let expected = Config {
        default_notebook: None,
        editor: None,
        ..base_config()
    };
    assert_eq!(layered, expected);
}

fn loaded(contents: &str) -> Result<Config, config::Error> {
    config::load(&PathBuf::from("/cfg/config.toml"), contents)
}

fn load_message(contents: &str) -> String {
    loaded(contents).expect_err("the contents are refused").message()
}

#[test]
fn load_reads_empty_contents_as_an_empty_config() {
    assert_eq!(loaded("").expect("empty loads"), Config::default());
}

#[test]
fn load_reads_every_key_from_contents() {
    let contents = "default-notebook = '/notes'\neditor = 'vim'\ndaily-folder = 'journal'\n\
        daily-date-format = '%Y-%m-%d'\ndaily-template = 'tpl.md'\nstamp = false\n\
        stamp-created-key = 'born'\nstamp-updated-key = 'touched'\nstamp-format = '%Y'\n\
        stamp-exclude = ['./inbox', 'a/b']\nbullet-indent = 'spaces'\n";
    let config = loaded(contents).expect("every key loads");
    assert_eq!(config.default_notebook, Some(abs("/notes")));
    assert_eq!(config.editor, Some("vim".to_owned()));
    assert_eq!(config.daily_folder, Some(PathBuf::from("journal")));
    assert_eq!(config.daily_date_format.expect("format set").as_str(), "%Y-%m-%d");
    assert_eq!(config.daily_template, Some(PathBuf::from("tpl.md")));
    assert_eq!(config.stamp, Some(false));
    assert_eq!(config.stamp_created_key, Some("born".to_owned()));
    assert_eq!(config.stamp_updated_key, Some("touched".to_owned()));
    assert_eq!(config.stamp_format.expect("format set").as_str(), "%Y");
    assert_eq!(
        config.stamp_exclude,
        Some(vec![PathBuf::from("inbox"), PathBuf::from("a/b")])
    );
    assert_eq!(config.bullet_indent, Some(structure::Indent::Spaces));
}

#[test]
fn load_reports_invalid_toml_contents() {
    assert!(load_message("editor = [oops\n").starts_with("invalid TOML in /cfg/config.toml: "));
}

#[test]
fn load_rejects_an_unknown_key_in_contents() {
    assert_eq!(load_message("unknown = 1\n"), "unknown key `unknown` in /cfg/config.toml");
}

#[test]
fn load_rejects_values_of_the_wrong_shape() {
    let cases = [
        ("default-notebook = 3\n", "`default-notebook` must be a string"),
        ("default-notebook = 'notes'\n", "`default-notebook` must be an absolute path, got \"notes\""),
        ("editor = ' '\n", "`editor` must contain a command"),
        ("editor = \"'' --wait\"\n", "`editor` must contain a command"),
        ("editor = \"'unclosed\"\n", "`editor`: missing closing quote"),
        ("daily-folder = ''\n", "`daily-folder` must not be empty"),
        ("daily-folder = '/abs'\n", "`daily-folder` must be a relative path, got \"/abs\""),
        ("daily-template = ''\n", "`daily-template` must not be empty"),
        ("stamp = 'yes'\n", "`stamp` must be true or false"),
        ("stamp-exclude = 'a'\n", "`stamp-exclude` must be an array of strings"),
        ("stamp-exclude = [1]\n", "`stamp-exclude` must be an array of strings"),
        ("stamp-exclude = ['']\n", "`stamp-exclude` entries must not be empty"),
        ("stamp-exclude = ['/x']\n", "`stamp-exclude` entries must be relative paths, got \"/x\""),
        ("stamp-exclude = ['../x']\n", "`stamp-exclude` entries must name a place inside the notebook, got \"../x\""),
        ("stamp-exclude = ['.']\n", "`stamp-exclude` entries must name a place inside the notebook, got \".\""),
        ("bullet-indent = 'tabs'\n", "`bullet-indent` must be \"tab\" or \"spaces\""),
    ];
    for (contents, message) in cases {
        assert_eq!(load_message(contents), message, "for {contents:?}");
    }
}

#[test]
fn load_reports_format_and_stamp_key_causes() {
    assert!(load_message("daily-date-format = ''\n").starts_with("`daily-date-format`: "));
    assert!(load_message("stamp-format = ''\n").starts_with("`stamp-format`: "));
    assert!(load_message("stamp-created-key = ''\n").starts_with("`stamp-created-key`: invalid property key"));
}

#[test]
fn load_notebook_rejects_machine_keys_from_contents() {
    let file = PathBuf::from("/nb/.kladde.toml");
    let error = config::load_notebook(&file, "editor = 'vim'\n").expect_err("machine key fails");
    assert_eq!(
        error.message(),
        "the notebook config /nb/.kladde.toml sets `editor`, which is machine-scoped"
    );
}

#[test]
fn load_notebook_wraps_value_errors_with_the_path() {
    let file = PathBuf::from("/nb/.kladde.toml");
    let error = config::load_notebook(&file, "stamp = 1\n").expect_err("bad value fails");
    assert_eq!(
        error.message(),
        "in notebook config /nb/.kladde.toml: `stamp` must be true or false"
    );
    let error = config::load_notebook(&file, "bogus = 1\n").expect_err("unknown key fails");
    assert_eq!(error.message(), "unknown key `bogus` in /nb/.kladde.toml");
}

#[test]
fn unset_drops_a_present_key_and_keeps_the_rest() {
    let file = PathBuf::from("/cfg/config.toml");
    let kept = config::unset(&file, "default-notebook = '/old'\n# mine\neditor = 'vim'\n", DEFAULT_NOTEBOOK)
        .expect("unset succeeds")
        .expect("the key was present");
    assert!(kept.contains("# mine"));
    assert!(kept.contains("editor = 'vim'"));
    assert!(!kept.contains("default-notebook"));
}

#[test]
fn unset_leaves_contents_without_the_key_alone() {
    let file = PathBuf::from("/cfg/config.toml");
    assert_eq!(config::unset(&file, "editor = 'vim'\n", STAMP).expect("unset succeeds"), None);
    assert_eq!(config::unset(&file, "", STAMP).expect("unset succeeds"), None);
}

#[test]
fn validated_editor_accepts_a_quoted_program() {
    assert!(config::validated_editor("'/opt/spaced out/editor' --wait").is_ok());
    assert_eq!(
        config::validated_editor(" \t").expect_err("blank fails").message(),
        "`editor` must contain a command"
    );
}

#[test]
fn load_reports_the_first_entry_that_fails() {
    assert_eq!(load_message("stamp = 1\nbogus = 2\n"), "`stamp` must be true or false");
    assert_eq!(load_message("bogus = 2\nstamp = 1\n"), "unknown key `bogus` in /cfg/config.toml");
}

/// The contents a missing config file reads as.
fn missing() -> Result<String, config::Error> {
    Ok(String::new())
}

fn config_file() -> PathBuf {
    PathBuf::from("/cfg/config.toml")
}

#[test]
fn set_default_notebook_creates_file_and_directories() {
    let file = PathBuf::from("/base/nested/config.toml");
    let notebook = abs("/notes");
    let contents =
        config::set_default_notebook(&file, missing(), "/notes", true).expect("set succeeds");
    let config = config::load(&file, &contents).expect("written config loads");
    assert_eq!(config.default_notebook, Some(notebook));
}

#[test]
fn set_default_notebook_rejects_a_path_that_is_no_directory() {
    let error = config::set_default_notebook(&config_file(), missing(), "/nope", false)
        .expect_err("missing dir fails");
    assert!(error.message().contains("not a directory"));
}

#[test]
fn set_daily_template_round_trips_and_validates() {
    let file = config_file();
    let contents = config::set_daily_template(&file, missing(), "templates/Daily.md")
        .expect("set succeeds");
    let config = config::load(&file, &contents).expect("written config loads");
    assert_eq!(config.daily_template, Some(PathBuf::from("templates/Daily.md")));
    let missing_file = PathBuf::from("/base/nested/config.toml");
    let error = config::set_daily_template(&missing_file, missing(), "")
        .expect_err("empty template fails");
    assert!(error.message().contains("`daily-template` must not be empty"));
    let error = config::set_daily_template(&missing_file, missing(), "/rooted.md")
        .expect_err("rooted template fails");
    assert!(error.message().contains("`daily-template` must be a relative path"));
}

#[test]
fn set_daily_folder_round_trips() {
    let file = config_file();
    let contents =
        config::set_daily_folder(&file, missing(), "Daily Notes").expect("set succeeds");
    let config = config::load(&file, &contents).expect("written config loads");
    assert_eq!(config.daily_folder, Some(PathBuf::from("Daily Notes")));
}

#[test]
fn set_daily_folder_rejects_rooted_path() {
    config::set_daily_folder(&config_file(), missing(), "/daily").expect_err("rooted folder fails");
}

#[test]
fn set_daily_date_format_round_trips() {
    let file = config_file();
    let contents =
        config::set_daily_date_format(&file, missing(), "%Y/%m/%d").expect("set succeeds");
    let config = config::load(&file, &contents).expect("written config loads");
    assert_eq!(
        config.daily_date_format,
        Some(day::Format::new("%Y/%m/%d").expect("valid format"))
    );
}

#[test]
fn set_daily_date_format_rejects_invalid_format() {
    config::set_daily_date_format(&config_file(), missing(), "%Q")
        .expect_err("unknown directive fails");
}

#[test]
fn set_daily_date_format_rejects_empty_format() {
    let error = config::set_daily_date_format(&config_file(), missing(), "")
        .expect_err("empty format fails");
    assert!(error.message().contains("renders an empty file name"));
}

#[test]
fn set_editor_stores_command() {
    let file = config_file();
    let contents = config::set_editor(&file, missing(), "code --wait").expect("set succeeds");
    let config = config::load(&file, &contents).expect("written config loads");
    assert_eq!(config.editor, Some("code --wait".to_owned()));
}

#[test]
fn set_editor_rejects_blank_command() {
    let error = config::set_editor(&config_file(), missing(), " \t").expect_err("blank editor fails");
    assert!(error.message().contains("`editor` must contain a command"));
}

#[test]
fn set_editor_stores_quoted_command() {
    let file = config_file();
    let contents = config::set_editor(&file, missing(), "'/opt/spaced out/editor' --wait")
        .expect("set succeeds");
    let config = config::load(&file, &contents).expect("written config loads");
    assert_eq!(config.editor, Some("'/opt/spaced out/editor' --wait".to_owned()));
}

#[test]
fn set_editor_rejects_unparsable_command() {
    let error = config::set_editor(&config_file(), missing(), "'unclosed")
        .expect_err("unclosed quote fails");
    assert!(error.message().contains("`editor`:"), "unexpected: {}", error.message());
}

#[test]
fn set_stamp_round_trips_and_rejects_other_words() {
    let file = config_file();
    let contents = config::set_stamp(&file, missing(), "false").expect("set succeeds");
    assert_eq!(config::load(&file, &contents).expect("config loads").stamp, Some(false));
    let contents = config::set_stamp(&file, Ok(contents), "true").expect("set succeeds");
    assert_eq!(config::load(&file, &contents).expect("config loads").stamp, Some(true));
    let error = config::set_stamp(&file, missing(), "maybe").expect_err("bad value fails");
    assert!(error.message().contains("must be true or false"));
}

#[test]
fn set_stamp_keys_round_trip_and_validate() {
    let file = config_file();
    let contents = config::set_stamp_created_key(&file, missing(), "made").expect("set succeeds");
    let contents =
        config::set_stamp_updated_key(&file, Ok(contents), "touched").expect("set succeeds");
    let config = config::load(&file, &contents).expect("config loads");
    assert_eq!(config.stamp_created_key, Some("made".to_owned()));
    assert_eq!(config.stamp_updated_key, Some("touched".to_owned()));
    config::set_stamp_created_key(&file, missing(), "a:b").expect_err("bad key fails");
    config::set_stamp_updated_key(&file, missing(), "-a").expect_err("bad key fails");
}

#[test]
fn set_stamp_format_round_trips_and_validates() {
    let file = config_file();
    let contents =
        config::set_stamp_format(&file, missing(), "%Y-%m-%d %H:%M").expect("set succeeds");
    assert_eq!(
        config::load(&file, &contents).expect("config loads").stamp_format,
        Some(day::StampFormat::new("%Y-%m-%d %H:%M").expect("format validates"))
    );
    config::set_stamp_format(&file, missing(), "%Q").expect_err("bad format fails");
}

#[test]
fn set_bullet_indent_round_trips_and_validates() {
    let file = config_file();
    let contents = config::set_bullet_indent(&file, missing(), "spaces").expect("set succeeds");
    assert_eq!(
        config::load(&file, &contents).expect("config loads").bullet_indent,
        Some(structure::Indent::Spaces)
    );
    let contents = config::set_bullet_indent(&file, Ok(contents), "tab").expect("set succeeds");
    assert_eq!(
        config::load(&file, &contents).expect("config loads").bullet_indent,
        Some(structure::Indent::Tab)
    );
    let error = config::set_bullet_indent(&file, missing(), "wide").expect_err("bad value fails");
    assert!(error.message().contains("must be \"tab\" or \"spaces\""));
}

#[test]
fn set_stamp_exclude_splits_on_commas_and_trims() {
    let file = config_file();
    let contents = config::set_stamp_exclude(&file, missing(), " templates , archive/2026 ")
        .expect("set succeeds");
    assert_eq!(
        config::load(&file, &contents).expect("config loads").stamp_exclude,
        Some(vec![PathBuf::from("templates"), PathBuf::from("archive/2026")])
    );
}

#[test]
fn set_stamp_exclude_validates_every_entry() {
    let file = config_file();
    config::set_stamp_exclude(&file, missing(), "").expect_err("empty entry fails");
    config::set_stamp_exclude(&file, missing(), "a,,b").expect_err("empty entry fails");
    config::set_stamp_exclude(&file, missing(), "/abs").expect_err("rooted entry fails");
    config::set_stamp_exclude(&file, missing(), "..").expect_err("escaping entry fails");
    config::set_stamp_exclude(&file, missing(), ".").expect_err("escaping entry fails");
}

#[test]
fn set_keeps_comments_and_other_keys() {
    let file = config_file();
    let contents = config::set_daily_folder(&file, Ok("# mine\neditor = 'vim'\n".to_owned()), "Journal")
        .expect("set succeeds");
    assert!(contents.contains("# mine"));
    assert!(contents.contains("editor = 'vim'"));
    assert!(contents.contains("daily-folder = \"Journal\""));
}

#[test]
fn set_reports_the_read_error_it_is_handed_and_invalid_toml() {
    let file = config_file();
    let read = config::Error::Read { path: file.clone(), cause: "denied".to_owned() };
    let error = config::set_editor(&file, Err(read), "vim").expect_err("read error stands");
    assert_eq!(error.message(), "cannot read /cfg/config.toml: denied");
    let error = config::set_editor(&file, Ok("editor = [oops\n".to_owned()), "vim")
        .expect_err("invalid toml fails");
    assert!(error.message().starts_with("invalid TOML in /cfg/config.toml: "));
}

#[test]
fn barred_refuses_machine_keys_in_a_notebook_config() {
    assert_eq!(
        config::barred(ConfigKey::Editor, true),
        Some("`editor` is machine-scoped: a notebook config cannot hold it".to_owned())
    );
    assert_eq!(config::barred(ConfigKey::Editor, false), None);
    assert_eq!(config::barred(ConfigKey::DailyFolder, true), None);
    assert_eq!(ConfigKey::StampExclude.name(), STAMP_EXCLUDE);
    assert_eq!(ConfigKey::DefaultNotebook.name(), DEFAULT_NOTEBOOK);
}

#[test]
fn stamping_takes_the_defaults_for_unset_keys() {
    let stamping = config::stamping(Config::default());
    assert!(stamping.enabled);
    assert_eq!(stamping.created_key, "created");
    assert_eq!(stamping.updated_key, "updated");
    assert_eq!(stamping.format.as_str(), day::StampFormat::default().as_str());
    assert!(stamping.excludes.is_empty());
    let stamping = config::stamping(base_config());
    assert_eq!(stamping.created_key, "base-created");
    assert_eq!(stamping.format.as_str(), "%Y");
}

#[test]
fn timestamp_is_withheld_when_off_or_excluded() {
    let now = jiff::civil::date(2026, 3, 4).at(5, 6, 7, 0);
    let mut config = Config::default();
    config.stamp_format = Some(day::StampFormat::new("%Y-%m-%d %H:%M").expect("format builds"));
    config.stamp_exclude = Some(vec![PathBuf::from("templates")]);
    let stamping = config::stamping(config);
    assert_eq!(
        stamping.timestamp(&PathBuf::from("daily/x.md"), &vec![None], now),
        Some("2026-03-04 05:06".to_owned())
    );
    assert_eq!(stamping.timestamp(&PathBuf::from("Templates/t.md"), &vec![None], now), None);
    assert_eq!(
        stamping.timestamp(&PathBuf::from("real/t.md"), &vec![Some(PathBuf::from("real"))], now),
        None
    );
    let mut off = Config::default();
    off.stamp = Some(false);
    assert_eq!(config::stamping(off).timestamp(&PathBuf::from("x.md"), &vec![], now), None);
}

#[test]
fn load_reports_the_first_bad_stamp_exclude_item() {
    assert_eq!(
        load_message("stamp-exclude = ['/abs', '']\n"),
        "`stamp-exclude` entries must be relative paths, got \"/abs\""
    );
    assert_eq!(
        load_message("stamp-exclude = ['ok', 1, '']\n"),
        "`stamp-exclude` must be an array of strings"
    );
}

#[test]
fn load_notebook_reads_as_load_with_value_errors_wrapped() {
    let file = PathBuf::from("/nb/.kladde.toml");
    for contents in [
        "stamp-exclude = ['../x']\n",
        "daily-folder = ''\n",
        "daily-date-format = '%Q'\n",
        "bogus = 1\n",
        "stamp = true\n",
    ] {
        let base = config::load(&file, contents);
        let notebook = config::load_notebook(&file, contents);
        match (base, notebook) {
            (Ok(a), Ok(b)) => assert_eq!(a, b),
            (Err(a), Err(b)) => {
                let expected = match a {
                    config::Error::UnknownKey { .. } => a.message(),
                    other => format!("in notebook config /nb/.kladde.toml: {}", other.message()),
                };
                assert_eq!(b.message(), expected, "for {contents:?}");
            }
            _ => panic!("the two reads disagree for {contents:?}"),
        }
    }
}

#[test]
fn set_stamp_exclude_trims_unicode_white_space() {
    let file = config_file();
    let contents = config::set_stamp_exclude(&file, missing(), "\u{3000}templates\u{a0},\tarchive ")
        .expect("set succeeds");
    assert_eq!(
        config::load(&file, &contents).expect("config loads").stamp_exclude,
        Some(vec![PathBuf::from("templates"), PathBuf::from("archive")])
    );
}
