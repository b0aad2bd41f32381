use std::collections::BTreeMap;
use std::path::PathBuf;
use tab_notes_core::config::{Config, DEFAULT_ICON};

fn map(pairs: &[(&str, &str)]) -> BTreeMap<String, String> {
    pairs.iter().map(|(k, v)| (k.to_string(), v.to_string())).collect()
}

#[test]
fn reads_notes_dir_and_defaults_the_icon() {
    let config = Config::from_map(&map(&[("notes_dir", "/notes")])).unwrap();
    assert_eq!(PathBuf::from(&config.notes_dir), PathBuf::from("/notes"));
    assert_eq!(config.icon, "📝");
}

#[test]
fn honours_a_custom_icon() {
    let config = Config::from_map(&map(&[("notes_dir", "/notes"), ("icon", "*")])).unwrap();
    assert_eq!(config.icon, "*");
}

#[test]
fn rejects_a_missing_notes_dir() {
    assert!(Config::from_map(&map(&[])).is_err());
}

#[test]
fn rejects_a_relative_notes_dir_because_there_is_no_shell_to_expand_it() {
    assert!(Config::from_map(&map(&[("notes_dir", "~/notes")])).is_err());
    assert!(Config::from_map(&map(&[("notes_dir", "notes")])).is_err());
}

#[test]
fn the_missing_notes_dir_error_names_the_key() {
    let err = Config::from_map(&map(&[("icon", "*")])).unwrap_err();
    assert_eq!(err, "tab-notes: missing required plugin configuration `notes_dir`");
}

#[test]
fn the_relative_notes_dir_error_quotes_the_value() {
    let err = Config::from_map(&map(&[("notes_dir", "~/notes")])).unwrap_err();
    assert_eq!(
        err,
        "tab-notes: `notes_dir` must be an absolute path (got `~/notes`). \
         Commands run without a shell, so `~` is not expanded."
    );
}

#[test]
fn an_empty_notes_dir_is_not_absolute() {
    assert!(Config::from_map(&map(&[("notes_dir", "")])).is_err());
}

#[test]
fn the_default_icon_is_the_memo_glyph() {
    assert_eq!(DEFAULT_ICON, "📝");
    let config = Config::from_map(&map(&[("notes_dir", "/n"), ("other", "x")])).unwrap();
    assert_eq!(config.icon, DEFAULT_ICON);
    assert_eq!(config.notes_dir, "/n");
}
