use tab_notes_core::config::Config;
use tab_notes_core::plugin::{Effect, Op, OpenTab, PluginEvent};
use tab_notes_core::watcher::Watcher;

fn config() -> Result<Config, String> {
    Ok(Config { notes_dir: "/notes".to_string(), icon: "📝".to_string() })
}

fn tabs(names: &[(usize, &str)]) -> PluginEvent {
    PluginEvent::TabUpdate {
        tabs: names
            .iter()
            .enumerate()
            .map(|(pos, (id, name))| OpenTab { id: *id, position: pos, name: name.to_string(), active: pos == 0 })
            .collect(),
    }
}

fn listed(stdout: &str) -> PluginEvent {
    PluginEvent::CommandResult { op: Some(Op::List), exit_code: Some(0), stdout: stdout.to_string() }
}

fn started() -> Watcher {
    let mut w = Watcher::new(config());
    assert_eq!(
        w.update(PluginEvent::SessionUpdate { current: Some("s".to_string()) }),
        vec![Effect::EnsureDir { dir: "/notes/s".to_string() }]
    );
    w
}

#[test]
fn a_new_session_creates_its_directory_then_lists_it() {
    let mut w = started();
    let ready = PluginEvent::CommandResult { op: Some(Op::EnsureDir), exit_code: Some(0), stdout: String::new() };
    assert_eq!(w.update(ready), vec![Effect::ListNotes { dir: "/notes/s".to_string() }]);
    assert_eq!(w.update(PluginEvent::SessionUpdate { current: Some("s".to_string()) }), vec![]);
}

#[test]
fn the_icon_appears_on_tabs_with_a_non_empty_note() {
    let mut w = started();
    assert_eq!(w.update(tabs(&[(1, "dotfiles"), (2, "empty")])), vec![]);
    assert_eq!(
        w.update(listed("/notes/s/dotfiles.md\n")),
        vec![Effect::RenameTab { position: 0, name: "📝 dotfiles".to_string() }]
    );
}

#[test]
fn renaming_a_tab_moves_its_note_file_by_key() {
    let mut w = started();
    w.update(listed("/notes/s/old.md\n"));
    w.update(tabs(&[(7, "📝 old")]));
    assert_eq!(
        w.update(tabs(&[(7, "new/one")])),
        vec![
            Effect::MoveNote { from: "/notes/s/old.md".to_string(), to: "/notes/s/new/one.md".to_string() },
            Effect::RenameTab { position: 0, name: "📝 new/one".to_string() },
        ]
    );
}

#[test]
fn a_failed_listing_means_no_notes() {
    let mut w = started();
    w.update(tabs(&[(1, "📝 a")]));
    let failed = PluginEvent::CommandResult { op: Some(Op::List), exit_code: Some(2), stdout: "/notes/s/a.md".to_string() };
    assert_eq!(w.update(failed), vec![Effect::RenameTab { position: 0, name: "a".to_string() }]);
}

#[test]
fn file_operations_are_followed_by_a_refresh() {
    let mut w = started();
    for op in [Op::Cleanup, Op::Move, Op::Delete] {
        let done = PluginEvent::CommandResult { op: Some(op), exit_code: Some(1), stdout: String::new() };
        assert_eq!(w.update(done), vec![Effect::ListNotes { dir: "/notes/s".to_string() }]);
    }
    let read = PluginEvent::CommandResult { op: Some(Op::Read), exit_code: Some(0), stdout: String::new() };
    assert_eq!(w.update(read), vec![]);
}

#[test]
fn pipes_refresh_and_open_the_editor() {
    let w = started();
    assert_eq!(w.pipe("notes-changed", None), vec![Effect::ListNotes { dir: "/notes/s".to_string() }]);
    assert_eq!(
        w.pipe("tab-notes:notes-changed", None),
        vec![Effect::ListNotes { dir: "/notes/s".to_string() }]
    );
    assert_eq!(
        w.pipe("edit-note", Some("a/b".to_string())),
        vec![Effect::OpenEditor { path: "/notes/s/a-b.md".to_string(), tab: "a/b".to_string() }]
    );
    assert_eq!(w.pipe("edit-note", None), vec![]);
    assert_eq!(w.pipe("something-else", None), vec![]);
}

#[test]
fn an_aborted_edit_leaves_no_empty_file() {
    let mut w = started();
    let exited = PluginEvent::EditPaneExited { op: Some(Op::Edit), tab: Some("dotfiles".to_string()) };
    assert_eq!(w.update(exited), vec![Effect::DeleteIfEmpty { path: "/notes/s/dotfiles.md".to_string() }]);
    let other = PluginEvent::EditPaneExited { op: Some(Op::Read), tab: Some("dotfiles".to_string()) };
    assert_eq!(w.update(other), vec![]);
}

#[test]
fn a_refused_permission_makes_the_watcher_inert() {
    let mut w = started();
    assert_eq!(w.update(PluginEvent::PermissionDenied), vec![]);
    assert_eq!(w.update(listed("/notes/s/a.md")), vec![]);
    assert_eq!(w.pipe("notes-changed", None), vec![]);
}

#[test]
fn nothing_happens_before_the_session_is_known() {
    let mut w = Watcher::new(config());
    assert_eq!(w.update(tabs(&[(1, "a")])), vec![]);
    assert_eq!(w.refresh(), vec![]);
    assert_eq!(w.pipe("notes-changed", None), vec![]);
}
