use tab_notes_core::config::Config;
use tab_notes_core::markdown::{render, LineKind, RenderedLine, Span, SpanKind};
use tab_notes_core::modal::{unbold_ranges, Modal};
use tab_notes_core::plugin::{Effect, Key, Op, OpenTab, PluginEvent};

fn config() -> Result<Config, String> {
    Ok(Config { notes_dir: "/notes".to_string(), icon: "📝".to_string() })
}

fn session(name: &str) -> PluginEvent {
    PluginEvent::SessionUpdate { current: Some(name.to_string()) }
}

fn active_tab(name: &str) -> PluginEvent {
    PluginEvent::TabUpdate {
        tabs: vec![
            OpenTab { id: 0, position: 0, name: "other".to_string(), active: false },
            OpenTab { id: 1, position: 1, name: name.to_string(), active: true },
        ],
    }
}

fn read(stdout: &str) -> PluginEvent {
    PluginEvent::CommandResult { op: Some(Op::Read), exit_code: Some(0), stdout: stdout.to_string() }
}

fn key(c: char) -> PluginEvent {
    PluginEvent::Key(Key::Char(c))
}

fn open_on(note: &str) -> Modal {
    let mut m = Modal::new(config());
    m.update(session("s"));
    m.update(active_tab("📝 dotfiles"));
    m.update(read(note));
    m
}

#[test]
fn reads_the_note_once_both_session_and_tab_are_known() {
    let mut m = Modal::new(config());
    assert_eq!(m.update(session("s")), (true, vec![]));
    assert_eq!(
        m.update(active_tab("📝 dotfiles")),
        (true, vec![Effect::ReadNote { path: "/notes/s/dotfiles.md".to_string() }])
    );
    assert_eq!(m.update(active_tab("dotfiles")), (true, vec![]), "same clean name, no re-read");
}

#[test]
fn shows_a_placeholder_without_a_note() {
    let mut m = Modal::new(config());
    let frame = m.render(10, 40);
    assert_eq!(frame.title, "Note");
    assert_eq!(frame.placeholder.as_deref(), Some("Loading…"));
    m.update(session("s"));
    m.update(active_tab("dotfiles"));
    m.update(read("   \n"));
    let frame = m.render(10, 40);
    assert_eq!(frame.title, "Note · dotfiles");
    assert_eq!(frame.placeholder.as_deref(), Some("No note for «dotfiles» — press e to create one"));
    assert!(frame.lines.is_empty());
    assert_eq!(frame.footer, "e edit · d delete · j/k scroll · Esc close");
}

#[test]
fn renders_and_scrolls_the_note() {
    let mut m = open_on("# T\nuno\ndue\ntre\nquattro");
    let frame = m.render(5, 20);
    // Two body rows: the heading and its rule.
    assert_eq!(frame.lines.len(), 2);
    assert_eq!(frame.lines[0].text, "T");
    for _ in 0..50 {
        m.update(PluginEvent::Key(Key::Down));
    }
    let frame = m.render(5, 20);
    let texts: Vec<_> = frame.lines.iter().map(|l| l.text.clone()).collect();
    assert_eq!(texts, vec!["tre", "quattro"], "scrolling stops at the last full screen");
    m.update(PluginEvent::Key(Key::PageUp));
    let frame = m.render(5, 20);
    assert_eq!(frame.lines[0].kind, LineKind::Heading1);
}

#[test]
fn deleting_asks_first_and_reports_the_outcome() {
    let mut m = open_on("testo");
    assert_eq!(m.update(key('d')), (true, vec![]));
    assert_eq!(m.render(10, 40).footer, "delete this note? y/n");
    assert_eq!(
        m.update(key('y')),
        (true, vec![Effect::DeleteNote { path: "/notes/s/dotfiles.md".to_string() }])
    );
    assert_eq!(m.render(10, 40).footer, "deleting…");
    let done = PluginEvent::CommandResult { op: Some(Op::Delete), exit_code: Some(0), stdout: String::new() };
    assert_eq!(m.update(done), (true, vec![Effect::NotifyWatcher]));
    let frame = m.render(10, 40);
    assert_eq!(frame.footer, "note deleted");
    assert!(frame.placeholder.is_some());
}

#[test]
fn a_failed_delete_is_reported() {
    let mut m = open_on("testo");
    m.update(key('d'));
    m.update(key('y'));
    let failed = PluginEvent::CommandResult { op: Some(Op::Delete), exit_code: Some(1), stdout: String::new() };
    assert_eq!(m.update(failed), (true, vec![]));
    assert_eq!(m.render(10, 40).footer, "delete failed — see the Zellij log");
}

#[test]
fn declining_the_delete_keeps_the_note() {
    let mut m = open_on("testo");
    m.update(key('d'));
    assert_eq!(m.update(key('n')), (true, vec![]));
    assert_eq!(m.update(key('y')), (false, vec![]), "y means nothing once declined");
}

#[test]
fn the_delete_question_does_not_survive_a_change_of_tab() {
    let mut m = open_on("testo");
    m.update(key('d'));
    m.update(active_tab("altro"));
    assert_eq!(m.update(key('y')), (false, vec![]));
}

#[test]
fn there_is_nothing_to_delete_without_a_note() {
    let mut m = open_on("  ");
    assert_eq!(m.update(key('d')), (false, vec![]));
}

#[test]
fn e_opens_the_editor_and_its_exit_cleans_up() {
    let mut m = open_on("");
    assert_eq!(
        m.update(key('e')),
        (
            true,
            vec![Effect::OpenEditor {
                path: "/notes/s/dotfiles.md".to_string(),
                tab: "dotfiles".to_string()
            }]
        )
    );
    assert_eq!(m.render(10, 40).footer, "editing in $EDITOR…");
    let exited = PluginEvent::EditPaneExited { op: Some(Op::Edit), tab: None };
    assert_eq!(
        m.update(exited),
        (true, vec![Effect::DeleteIfEmpty { path: "/notes/s/dotfiles.md".to_string() }])
    );
    let cleaned = PluginEvent::CommandResult { op: Some(Op::Cleanup), exit_code: Some(0), stdout: String::new() };
    assert_eq!(
        m.update(cleaned),
        (
            true,
            vec![
                Effect::ReadNote { path: "/notes/s/dotfiles.md".to_string() },
                Effect::NotifyWatcher
            ]
        )
    );
}

#[test]
fn escape_and_q_close_the_modal() {
    let mut m = open_on("x");
    assert_eq!(m.update(PluginEvent::Key(Key::Esc)), (false, vec![Effect::CloseSelf]));
    assert_eq!(m.update(key('q')), (false, vec![Effect::CloseSelf]));
    assert_eq!(m.update(key('z')), (false, vec![]));
}

#[test]
fn a_refused_permission_makes_the_modal_inert() {
    let mut m = open_on("x");
    assert_eq!(m.update(PluginEvent::PermissionDenied), (true, vec![]));
    assert_eq!(m.update(key('e')), (false, vec![]));
    let frame = m.render(10, 40);
    assert_eq!(
        frame.error.as_deref(),
        Some("tab-notes: permissions denied — close this pane, reload the plugin and accept the request")
    );
}

#[test]
fn an_unconfigured_modal_shows_its_error() {
    let mut m = Modal::new(Err("tab-notes: missing".to_string()));
    assert_eq!(m.update(session("s")), (false, vec![]));
    assert_eq!(m.render(3, 3).error.as_deref(), Some("tab-notes: missing"));
}

#[test]
fn strong_runs_are_what_is_left_bold() {
    let line = &render("a **bb** c **d**")[0];
    assert_eq!(line.text, "a bb c d");
    assert_eq!(unbold_ranges(line), Some(vec![(0, 2), (4, 7)]));
    let plain = RenderedLine { text: "xyz".to_string(), kind: LineKind::Plain, spans: vec![] };
    assert_eq!(unbold_ranges(&plain), None);
    let code_only = RenderedLine {
        text: "xyz".to_string(),
        kind: LineKind::Plain,
        spans: vec![Span { start: 0, end: 1, kind: SpanKind::Code }],
    };
    assert_eq!(unbold_ranges(&code_only), None);
}

#[test]
fn unbolding_leaves_exactly_the_strong_runs_bold() {
    let line = &render("a **bb** c `d` **e**")[0];
    assert_eq!(line.text, "a bb c d e");
    let ranges = unbold_ranges(line).unwrap();
    let n = line.text.chars().count();
    for p in 0..n {
        let unbolded = ranges.iter().any(|(s, e)| *s <= p && p < *e);
        let strong = line
            .spans
            .iter()
            .any(|s| s.kind == SpanKind::Strong && s.start <= p && p < s.end);
        assert_eq!(unbolded, !strong, "offset {}", p);
    }
    assert_eq!(ranges, vec![(0, 2), (4, 9)]);
}
