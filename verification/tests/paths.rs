use std::path::PathBuf;
use tab_notes_core::paths::{note_path, sanitize_tab_name, session_dir, MAX_NAME_LEN};

#[test]
fn keeps_ordinary_names_untouched() {
    assert_eq!(sanitize_tab_name("dotfiles"), "dotfiles");
    assert_eq!(sanitize_tab_name("my project"), "my project");
}

#[test]
fn replaces_path_separators() {
    assert_eq!(sanitize_tab_name("feature/login"), "feature-login");
    assert_eq!(sanitize_tab_name("a\\b"), "a-b");
}

#[test]
fn trims_surrounding_whitespace() {
    assert_eq!(sanitize_tab_name("  dotfiles  "), "dotfiles");
}

#[test]
fn replaces_names_that_would_escape_the_directory() {
    assert_eq!(sanitize_tab_name("."), "_");
    assert_eq!(sanitize_tab_name(".."), "_");
    assert_eq!(sanitize_tab_name("   "), "_");
    assert_eq!(sanitize_tab_name(""), "_");
}

#[test]
fn truncates_on_a_character_boundary() {
    let long = "à".repeat(300);
    let result = sanitize_tab_name(&long);
    assert_eq!(result.chars().count(), MAX_NAME_LEN);
}

#[test]
fn builds_a_note_path_under_the_session_directory() {
    let dir = "/notes";
    assert_eq!(
        PathBuf::from(note_path(dir, "dotfiles", "feature/login")),
        PathBuf::from("/notes/dotfiles/feature-login.md")
    );
}

#[test]
fn builds_a_session_directory() {
    assert_eq!(
        PathBuf::from(session_dir("/notes", "dotfiles")),
        PathBuf::from("/notes/dotfiles")
    );
}

#[test]
fn control_characters_become_spaces_and_are_trimmed() {
    assert_eq!(sanitize_tab_name("a\tb"), "a b");
    assert_eq!(sanitize_tab_name("\u{7}name\u{9f}"), "name");
    assert_eq!(sanitize_tab_name("x\u{a0}"), "x");
}

#[test]
fn whitespace_left_at_the_cut_is_trimmed() {
    let name = format!("{} tail", "b".repeat(199));
    assert_eq!(sanitize_tab_name(&name), "b".repeat(199));
}

#[test]
fn dots_inside_a_longer_name_are_kept() {
    assert_eq!(sanitize_tab_name(" ... "), "...");
    assert_eq!(sanitize_tab_name("../up"), "..-up");
}

#[test]
fn a_trailing_slash_in_the_notes_dir_is_not_doubled() {
    assert_eq!(session_dir("/notes/", "s"), "/notes/s");
    assert_eq!(note_path("/notes/", "s/t", ".."), "/notes/s-t/_.md");
}

#[test]
fn joining_matches_the_standard_path_join() {
    for (dir, session, tab) in [("/notes", "dotfiles", "a b"), ("/", "x", "y"), ("/n/", " ", "\\")] {
        let expected = PathBuf::from(dir)
            .join(sanitize_tab_name(session))
            .join(format!("{}.md", sanitize_tab_name(tab)));
        assert_eq!(PathBuf::from(note_path(dir, session, tab)), expected);
        assert_eq!(
            PathBuf::from(session_dir(dir, session)),
            PathBuf::from(dir).join(sanitize_tab_name(session))
        );
    }
}

#[test]
fn character_classes_agree_with_the_standard_library() {
    for code in 0u32..=0x10FFFF {
        let Some(c) = char::from_u32(code) else { continue };
        let mapped = if c == '/' || c == '\\' {
            '-'
        } else if c.is_control() {
            ' '
        } else {
            c
        };
        let expected = format!("x{}y{}", mapped, mapped);
        let expected = expected.trim();
        assert_eq!(sanitize_tab_name(&format!("x{}y{}", c, c)), expected, "U+{:04X}", code);
    }
}

#[test]
fn sanitizing_twice_changes_nothing() {
    for name in ["dotfiles", " a/b\\c ", ".", "..", "", "  \t x \u{7} ", "feature/login"] {
        let once = sanitize_tab_name(name);
        assert_eq!(sanitize_tab_name(&once), once);
    }
    let long = "y".repeat(MAX_NAME_LEN + 5);
    let once = sanitize_tab_name(&long);
    assert_eq!(sanitize_tab_name(&once), once);
}

#[test]
fn a_name_that_is_already_clean_is_a_fixed_point() {
    assert_eq!(sanitize_tab_name("my project"), "my project");
    assert_ne!(sanitize_tab_name(" my project"), " my project");
    assert_ne!(sanitize_tab_name("a/b"), "a/b");
}
