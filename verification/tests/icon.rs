use tab_notes_core::icon::{decorate, strip_icon};

const ICON: &str = "📝";

#[test]
fn strips_the_icon_and_its_separating_space() {
    assert_eq!(strip_icon("📝 dotfiles", ICON), "dotfiles");
}

#[test]
fn leaves_undecorated_names_alone() {
    assert_eq!(strip_icon("dotfiles", ICON), "dotfiles");
}

#[test]
fn strips_an_icon_written_without_a_space() {
    assert_eq!(strip_icon("📝dotfiles", ICON), "dotfiles");
}

#[test]
fn a_bare_icon_strips_to_the_empty_string() {
    assert_eq!(strip_icon("📝", ICON), "");
}

#[test]
fn does_not_strip_an_icon_that_only_appears_later() {
    assert_eq!(strip_icon("dotfiles 📝", ICON), "dotfiles 📝");
}

#[test]
fn decorates_only_when_a_note_exists() {
    assert_eq!(decorate("dotfiles", ICON, true), "📝 dotfiles");
    assert_eq!(decorate("dotfiles", ICON, false), "dotfiles");
}

#[test]
fn decorate_and_strip_round_trip() {
    for has_note in [true, false] {
        let decorated = decorate("dotfiles", ICON, has_note);
        assert_eq!(strip_icon(&decorated, ICON), "dotfiles");
    }
}

#[test]
fn strips_only_one_separating_space() {
    assert_eq!(strip_icon("📝  two spaces", ICON), " two spaces");
}

#[test]
fn round_trip_holds_for_decorated_names_of_any_shape() {
    for name in ["", " lead", "📝 already", "a b c", "ü"] {
        let decorated = decorate(name, ICON, true);
        assert_eq!(strip_icon(&decorated, ICON), name);
    }
}

#[test]
fn an_undecorated_name_starting_with_the_icon_does_not_round_trip() {
    let decorated = decorate("📝x", ICON, false);
    assert_eq!(strip_icon(&decorated, ICON), "x");
}
