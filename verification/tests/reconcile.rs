use tab_notes_core::notes::NoteSet;
use tab_notes_core::reconcile::{Action, Reconciler, TabView};

const ICON: &str = "📝";

fn tab(id: usize, position: usize, name: &str) -> TabView {
    TabView { id, position, name: name.to_string() }
}

fn notes(names: &[&str]) -> NoteSet {
    let mut set = NoteSet::new();
    for n in names {
        set.insert(n.to_string());
    }
    set
}

#[test]
fn adds_the_icon_to_a_tab_that_has_a_note() {
    let mut r = Reconciler::new(ICON);
    let mut n = notes(&["dotfiles"]);
    let actions = r.reconcile(&[tab(1, 0, "dotfiles")], &mut n);
    assert_eq!(
        actions,
        vec![Action::RenameTab { position: 0, name: "📝 dotfiles".to_string() }]
    );
}

#[test]
fn leaves_a_tab_without_a_note_alone() {
    let mut r = Reconciler::new(ICON);
    let mut n = notes(&[]);
    assert_eq!(r.reconcile(&[tab(1, 0, "dotfiles")], &mut n), vec![]);
}

#[test]
fn removes_a_stale_icon_when_the_note_is_gone() {
    let mut r = Reconciler::new(ICON);
    let mut n = notes(&[]);
    let actions = r.reconcile(&[tab(1, 0, "📝 dotfiles")], &mut n);
    assert_eq!(
        actions,
        vec![Action::RenameTab { position: 0, name: "dotfiles".to_string() }]
    );
}

#[test]
fn is_idempotent() {
    let mut r = Reconciler::new(ICON);
    let mut n = notes(&["dotfiles"]);
    let first = r.reconcile(&[tab(1, 0, "dotfiles")], &mut n);
    assert_eq!(first.len(), 1);
    // Zellij has now applied the rename; the tab comes back decorated.
    let second = r.reconcile(&[tab(1, 0, "📝 dotfiles")], &mut n);
    assert_eq!(second, vec![], "a settled state must produce no actions");
    let third = r.reconcile(&[tab(1, 0, "📝 dotfiles")], &mut n);
    assert_eq!(third, vec![]);
}

#[test]
fn follows_a_rename_by_tab_id() {
    let mut r = Reconciler::new(ICON);
    let mut n = notes(&["old"]);
    r.reconcile(&[tab(7, 0, "old")], &mut n);
    let actions = r.reconcile(&[tab(7, 0, "new")], &mut n);
    assert_eq!(
        actions,
        vec![
            Action::MoveNote { from: "old".to_string(), to: "new".to_string() },
            Action::RenameTab { position: 0, name: "📝 new".to_string() },
        ]
    );
    assert_eq!(n, notes(&["new"]), "the note set must be updated in place");
}

#[test]
fn follows_a_rename_that_kept_the_icon_in_the_typed_name() {
    let mut r = Reconciler::new(ICON);
    let mut n = notes(&["old"]);
    r.reconcile(&[tab(7, 0, "old")], &mut n);
    let actions = r.reconcile(&[tab(7, 0, "📝 new")], &mut n);
    assert_eq!(
        actions,
        vec![Action::MoveNote { from: "old".to_string(), to: "new".to_string() }],
        "the name is already correct, only the file moves"
    );
}

#[test]
fn does_not_move_a_note_for_a_tab_that_never_had_one() {
    let mut r = Reconciler::new(ICON);
    let mut n = notes(&[]);
    r.reconcile(&[tab(7, 0, "old")], &mut n);
    assert_eq!(r.reconcile(&[tab(7, 0, "new")], &mut n), vec![]);
}

#[test]
fn moving_a_tab_does_not_look_like_a_rename() {
    let mut r = Reconciler::new(ICON);
    let mut n = notes(&["a"]);
    r.reconcile(&[tab(1, 0, "a"), tab(2, 1, "b")], &mut n);
    // MoveTab swaps positions but leaves tab ids untouched.
    let actions = r.reconcile(&[tab(2, 0, "b"), tab(1, 1, "📝 a")], &mut n);
    assert_eq!(actions, vec![], "positions changed, names did not");
}

#[test]
fn forgets_closed_tabs() {
    let mut r = Reconciler::new(ICON);
    let mut n = notes(&["a"]);
    r.reconcile(&[tab(1, 0, "a")], &mut n);
    r.reconcile(&[], &mut n);
    // Tab id 1 is reused by a brand new tab named "b": no note must be moved.
    assert_eq!(r.reconcile(&[tab(1, 0, "b")], &mut n), vec![]);
}

#[test]
fn does_not_move_a_note_onto_another_open_tabs_note() {
    let mut r = Reconciler::new(ICON);
    let mut n = notes(&["old", "y"]);
    // Settle with two tabs and two notes
    r.reconcile(&[tab(1, 0, "old"), tab(2, 1, "y")], &mut n);
    // Rename tab 1 from "old" to "y" — destination has a note
    let actions = r.reconcile(&[tab(1, 0, "y"), tab(2, 1, "📝 y")], &mut n);
    // Should not emit MoveNote, but may emit RenameTab
    let has_move_note = actions.iter().any(|a| matches!(a, Action::MoveNote { .. }));
    assert!(!has_move_note, "must not emit MoveNote when destination has a note");
    // Note set must be unchanged
    assert_eq!(n, notes(&["old", "y"]), "both notes must survive");
}

#[test]
fn does_not_move_a_note_onto_an_orphan_note_file() {
    let mut r = Reconciler::new(ICON);
    let mut n = notes(&["old", "z"]);
    // Settle with one tab; "z" has no tab
    r.reconcile(&[tab(1, 0, "old")], &mut n);
    // Rename tab 1 from "old" to "z" — destination has an orphan note
    let actions = r.reconcile(&[tab(1, 0, "z")], &mut n);
    // Should not emit MoveNote
    let has_move_note = actions.iter().any(|a| matches!(a, Action::MoveNote { .. }));
    assert!(!has_move_note, "must not emit MoveNote when destination has an orphan note");
    // Note set must be unchanged
    assert_eq!(n, notes(&["old", "z"]), "both notes must survive");
}

#[test]
fn a_settled_multi_tab_state_asks_for_nothing() {
    let mut r = Reconciler::new(ICON);
    let mut n = notes(&["a", "c"]);
    let tabs = [tab(1, 0, "a"), tab(2, 1, "b"), tab(3, 2, "📝 c")];
    let first = r.reconcile(&tabs, &mut n);
    assert_eq!(
        first,
        vec![Action::RenameTab { position: 0, name: "📝 a".to_string() }]
    );
    let settled = [tab(1, 0, "📝 a"), tab(2, 1, "b"), tab(3, 2, "📝 c")];
    assert_eq!(r.reconcile(&settled, &mut n), vec![]);
    assert_eq!(n, notes(&["c", "a"]));
}

#[test]
fn a_pass_keeps_the_number_of_notes() {
    let mut r = Reconciler::new(ICON);
    let mut n = notes(&["a", "b", "c"]);
    r.reconcile(&[tab(1, 0, "a"), tab(2, 1, "b")], &mut n);
    r.reconcile(&[tab(1, 0, "x"), tab(2, 1, "a")], &mut n);
    assert_eq!(n.len(), 3);
    assert_eq!(n, notes(&["x", "a", "c"]));
}

#[test]
fn note_sets_compare_by_content() {
    assert_eq!(notes(&["a", "b"]), notes(&["b", "a"]));
    assert_ne!(notes(&["a", "b"]), notes(&["a"]));
    assert_ne!(notes(&["a", "b"]), notes(&["a", "c"]));
    let mut n = notes(&["a"]);
    assert!(!n.insert("a".to_string()));
    assert!(n.remove("a"));
    assert!(!n.remove("a"));
    assert!(n.is_empty());
}

#[test]
fn a_first_pass_only_renames_and_in_tab_order() {
    let mut r = Reconciler::new(ICON);
    let mut n = notes(&["b", "c"]);
    let actions = r.reconcile(
        &[tab(7, 0, "📝 a"), tab(3, 1, "b"), tab(9, 2, "📝 c"), tab(1, 3, "c2")],
        &mut n,
    );
    assert_eq!(
        actions,
        vec![
            Action::RenameTab { position: 0, name: "a".to_string() },
            Action::RenameTab { position: 1, name: "📝 b".to_string() },
        ]
    );
    assert!(n == notes(&["b", "c"]));
}

#[test]
fn new_tabs_that_already_show_their_icon_are_left_alone() {
    let mut r = Reconciler::new(ICON);
    let mut n = notes(&["a"]);
    assert_eq!(r.reconcile(&[tab(1, 0, "📝 a")], &mut n), vec![]);
    let again = r.reconcile(&[tab(1, 0, "📝 a"), tab(2, 1, "fresh")], &mut n);
    assert_eq!(again, vec![]);
    assert!(n == notes(&["a"]));
}

#[test]
fn notes_change_only_by_the_reported_moves() {
    let mut r = Reconciler::new(ICON);
    let mut n = notes(&["a", "b", "taken"]);
    r.reconcile(&[tab(1, 0, "📝 a"), tab(2, 1, "📝 b")], &mut n);
    let actions = r.reconcile(&[tab(1, 0, "x"), tab(2, 1, "taken")], &mut n);
    assert_eq!(
        actions,
        vec![
            Action::MoveNote { from: "a".to_string(), to: "x".to_string() },
            Action::RenameTab { position: 0, name: "📝 x".to_string() },
            Action::RenameTab { position: 1, name: "📝 taken".to_string() },
        ]
    );
    assert!(n == notes(&["x", "b", "taken"]));
}
