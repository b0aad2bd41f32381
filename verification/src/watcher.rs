//! The background watcher: keeps tab names in step with the notes on disk and carries a
//! note along when its tab is renamed.
//!
//! Every decision is here, as a step from the watcher's state and an event to its next
//! state and the effects for the host to run.
use crate::config::Config;
use crate::listing::{listed_names, parse_note_listing};
use crate::modal::{config_text, event_view, tab_view, EventView};
use crate::notes::NoteSet;
use crate::paths::{key_path_of, note_path, note_path_from_key, note_path_of, session_dir,
    session_dir_of};
use crate::plugin::{effect_views, holds, opt_text, Effect, EffectView, Op, OpenTab, PluginEvent};
use crate::reconcile::{reconciled, tab_texts, Action, ActionView, Reconciler, TabText, TabView};
use crate::text::lines_of;
use vstd::prelude::*;

verus! {

pub const WATCHER_PERMISSION_DENIED: &'static str = "tab-notes: permissions denied";

pub const NOTES_CHANGED: &'static str = "notes-changed";

pub const NOTES_CHANGED_PREFIXED: &'static str = "tab-notes:notes-changed";

pub const EDIT_NOTE: &'static str = "edit-note";

pub const EDIT_NOTE_PREFIXED: &'static str = "tab-notes:edit-note";

/// The watcher's state as text.
pub struct WatcherState {
    /// `(notes_dir, icon)`, or why the watcher is inert.
    pub config: Result<(Seq<char>, Seq<char>), Seq<char>>,
    /// The reconciler's icon and remembered names, when configured.
    pub reconciler: Option<(Seq<char>, Map<usize, Seq<char>>)>,
    pub session: Option<Seq<char>>,
    pub tabs: Seq<TabText>,
    pub notes: Set<Seq<char>>,
}

/// Asking for the session's notes to be listed again, when the session is known.
pub open spec fn refresh_effects(s: WatcherState) -> Seq<EffectView> {
    match (s.config, s.session) {
        (Ok((dir, _)), Some(session)) => seq![EffectView::ListNotes(session_dir_of(dir, session))],
        _ => Seq::empty(),
    }
}

/// What the host must do for a reconcile action: rename a tab, or move a note file
/// between the files of two note keys.
pub open spec fn action_effect(dir: Seq<char>, session: Seq<char>, a: ActionView) -> EffectView {
    match a {
        ActionView::RenameTab { position, name } => EffectView::RenameTab(position, name),
        ActionView::MoveNote { from, to } => EffectView::MoveNote(
            key_path_of(dir, session, from),
            key_path_of(dir, session, to),
        ),
    }
}

/// Reconciles the tabs with the notes, when configured and the session is known.
pub open spec fn apply(s: WatcherState) -> (WatcherState, Seq<EffectView>) {
    match (s.config, s.session, s.reconciler) {
        (Ok((dir, _)), Some(session), Some((icon, known))) => {
            let r = reconciled(icon, known, s.notes, s.tabs);
            (
                WatcherState { reconciler: Some((icon, r.0)), notes: r.1, ..s },
                r.2.map_values(|a: ActionView| action_effect(dir, session, a)),
            )
        },
        _ => (s, Seq::empty()),
    }
}

/// The tabs of a tab update as the reconciler sees them.
pub open spec fn seen_tabs(tabs: Seq<(usize, usize, Seq<char>, bool)>) -> Seq<TabText> {
    tabs.map_values(
        |t: (usize, usize, Seq<char>, bool)| TabText { id: t.0, position: t.1, name: t.2 },
    )
}

/// What an event does to the watcher: the next state and the effects.
pub open spec fn watcher_step(s: WatcherState, e: EventView) -> (
    WatcherState,
    Seq<EffectView>,
) {
    if s.config is Err {
        (s, Seq::empty())
    } else {
        let dir = s.config->Ok_0.0;
        match e {
            EventView::SessionUpdate(Some(name)) => if s.session == Some(name) {
                (s, Seq::empty())
            } else {
                (
                    WatcherState { session: Some(name), ..s },
                    seq![EffectView::EnsureDir(session_dir_of(dir, name))],
                )
            },
            EventView::TabUpdate(tabs) => apply(WatcherState { tabs: seen_tabs(tabs), ..s }),
            EventView::CommandResult(op, exit_code, stdout) => match op {
                Some(Op::EnsureDir) => (s, refresh_effects(s)),
                Some(Op::List) => apply(
                    WatcherState {
                        notes: if exit_code == Some(0i32) {
                            listed_names(lines_of(stdout))
                        } else {
                            Set::empty()
                        },
                        ..s
                    },
                ),
                Some(Op::Cleanup) | Some(Op::Move) | Some(Op::Delete) => (s, refresh_effects(s)),
                _ => (s, Seq::empty()),
            },
            EventView::PermissionDenied => (
                WatcherState { config: Err(WATCHER_PERMISSION_DENIED@), ..s },
                Seq::empty(),
            ),
            EventView::EditPaneExited(op, tab) => if op != Some(Op::Edit) {
                (s, Seq::empty())
            } else {
                match (tab, s.session) {
                    (Some(t), Some(session)) => (
                        s,
                        seq![EffectView::DeleteIfEmpty(note_path_of(dir, session, t))],
                    ),
                    _ => (s, Seq::empty()),
                }
            },
            _ => (s, Seq::empty()),
        }
    }
}

/// What a message piped to the watcher asks for: a fresh listing on `notes-changed`, and
/// the editor on `edit-note` with the tab name as payload. Both names are also taken with
/// the `tab-notes:` prefix, which is how other panes reach the watcher.
pub open spec fn pipe_effects(s: WatcherState, name: Seq<char>, payload: Option<Seq<char>>) -> Seq<
    EffectView,
> {
    match (s.config, s.session) {
        (Ok((dir, _)), Some(session)) => if name == NOTES_CHANGED@ || name
            == NOTES_CHANGED_PREFIXED@ {
            refresh_effects(s)
        } else if name == EDIT_NOTE@ || name == EDIT_NOTE_PREFIXED@ {
            match payload {
                Some(tab) => seq![EffectView::OpenEditor(note_path_of(dir, session, tab), tab)],
                None => Seq::empty(),
            }
        } else {
            Seq::empty()
        },
        _ => Seq::empty(),
    }
}

/// The background watcher.
pub struct Watcher {
    config: Result<Config, String>,
    reconciler: Option<Reconciler>,
    session: Option<String>,
    tabs: Vec<TabView>,
    notes: NoteSet,
}

impl View for Watcher {
    type V = WatcherState;

    closed spec fn view(&self) -> WatcherState {
        WatcherState {
            config: config_text(self.config),
            reconciler: match self.reconciler {
                Some(r) => Some((r.icon(), r.known())),
                None => None,
            },
            session: opt_text(self.session),
            tabs: tab_texts(self.tabs@),
            notes: self.notes@,
        }
    }
}

fn same_text(a: &str, b: &str) -> (r: bool)
    ensures
        r == (a@ == b@),
{
    a.to_owned() == b.to_owned()
}

impl Watcher {
    pub fn new(config: Result<Config, String>) -> (w: Self)
        ensures
            w@.config == config_text(config),
            w@.reconciler == match config {
                Ok(c) => Some((c.icon@, Map::<usize, Seq<char>>::empty())),
                Err(_) => None,
            },
            w@.session is None,
            w@.tabs.len() == 0,
            w@.notes == Set::<Seq<char>>::empty(),
    {
        let reconciler = match &config {
            Ok(c) => Some(Reconciler::new(c.icon.as_str())),
            Err(_) => None,
        };
        Watcher { config, reconciler, session: None, tabs: Vec::new(), notes: NoteSet::new() }
    }

    /// Asks for the session's notes to be listed again.
    pub fn refresh(&self) -> (effects: Vec<Effect>)
        ensures
            effect_views(effects@) == refresh_effects(self@),
    {
        let mut effects: Vec<Effect> = Vec::new();
        match (&self.config, &self.session) {
            (Ok(c), Some(session)) => {
                effects.push(
                    Effect::ListNotes { dir: session_dir(c.notes_dir.as_str(), session.as_str()) },
                );
            },
            _ => {},
        }
        assert(effect_views(effects@) =~= refresh_effects(self@));
        effects
    }

    fn apply(&mut self) -> (effects: Vec<Effect>)
        ensures
            (final(self)@, effect_views(effects@)) == apply(old(self)@),
    {
        let mut effects: Vec<Effect> = Vec::new();
        let ghost s = self@;
        match (&self.config, &self.session, &mut self.reconciler) {
            (Ok(c), Some(session), Some(reconciler)) => {
                let actions = reconciler.reconcile(&self.tabs, &mut self.notes);
                let ghost acts = crate::reconcile::action_views(actions@);
                let mut i: usize = 0;
                while i < actions.len()
                    invariant
                        i <= actions@.len(),
                        acts == crate::reconcile::action_views(actions@),
                        effect_views(effects@) == acts.take(i as int).map_values(
                            |a: ActionView| action_effect(c.notes_dir@, session@, a),
                        ),
                    decreases actions.len() - i,
                {
                    let e = match &actions[i] {
                        Action::RenameTab { position, name } => Effect::RenameTab {
                            position: *position,
                            name: name.clone(),
                        },
                        Action::MoveNote { from, to } => Effect::MoveNote {
                            from: note_path_from_key(
                                c.notes_dir.as_str(),
                                session.as_str(),
                                from.as_str(),
                            ),
                            to: note_path_from_key(
                                c.notes_dir.as_str(),
                                session.as_str(),
                                to.as_str(),
                            ),
                        },
                    };
                    let ghost before = effect_views(effects@);
                    effects.push(e);
                    assert(effect_views(effects@) =~= acts.take(i + 1).map_values(
                        |a: ActionView| action_effect(c.notes_dir@, session@, a),
                    )) by {
                        assert(acts.take(i + 1) =~= acts.take(i as int).push(acts[i as int]));
                        assert(effect_views(effects@) =~= before.push(e@));
                    }
                    i = i + 1;
                }
                assert(acts.take(acts.len() as int) =~= acts);
            },
            _ => {
                assert(effect_views(effects@) =~= Seq::<EffectView>::empty());
            },
        }
        effects
    }

    /// Handles an event: updates the state and tells what to run. The watcher never asks
    /// to be redrawn.
    pub fn update(&mut self, event: PluginEvent) -> (effects: Vec<Effect>)
        ensures
            (final(self)@, effect_views(effects@)) == watcher_step(old(self)@, event_view(event)),
    {
        let mut effects: Vec<Effect> = Vec::new();
        let ghost s = self@;
        let ghost ev = event_view(event);
        assert(effect_views(effects@) =~= Seq::<EffectView>::empty());
        let dir = match &self.config {
            Ok(c) => c.notes_dir.clone(),
            Err(_) => {
                assert(watcher_step(s, ev) == (s, Seq::<EffectView>::empty()));
                return effects;
            },
        };
        match event {
            PluginEvent::SessionUpdate { current } => {
                match current {
                    Some(name) => {
                        if !holds(&self.session, &name) {
                            effects.push(
                                Effect::EnsureDir { dir: session_dir(dir.as_str(), name.as_str()) },
                            );
                            self.session = Some(name);
                            assert(effect_views(effects@) =~= watcher_step(s, ev).1);
                        }
                    },
                    None => {},
                }
                assert((self@, effect_views(effects@)) == watcher_step(s, ev));
                effects
            },
            PluginEvent::TabUpdate { tabs } => {
                let mut seen: Vec<TabView> = Vec::new();
                let mut i: usize = 0;
                let ghost tv = tabs@.map_values(|t: OpenTab| tab_view(t));
                while i < tabs.len()
                    invariant
                        i <= tabs@.len(),
                        tv == tabs@.map_values(|t: OpenTab| tab_view(t)),
                        tab_texts(seen@) == seen_tabs(tv.take(i as int)),
                    decreases tabs.len() - i,
                {
                    let t = &tabs[i];
                    let ghost before = tab_texts(seen@);
                    seen.push(TabView { id: t.id, position: t.position, name: t.name.clone() });
                    assert(tv.take(i + 1) =~= tv.take(i as int).push(tab_view(tabs@[i as int])));
                    let ghost nt = TabText { id: t.id, position: t.position, name: t.name@ };
                    assert(tab_texts(seen@) =~= before.push(nt));
                    assert(seen_tabs(tv.take(i + 1)) =~= seen_tabs(tv.take(i as int)).push(nt));
                    assert(tab_texts(seen@) =~= seen_tabs(tv.take(i + 1)));
                    i = i + 1;
                }
                assert(tv.take(tabs@.len() as int) =~= tv);
                self.tabs = seen;
                let effects = self.apply();
                assert((self@, effect_views(effects@)) == watcher_step(s, ev));
                effects
            },
            PluginEvent::CommandResult { op, exit_code, stdout } => {
                match op {
                    Some(Op::EnsureDir) => {
                        let effects = self.refresh();
                        assert((self@, effect_views(effects@)) == watcher_step(s, ev));
                        effects
                    },
                    Some(Op::List) => {
                        self.notes = if exit_code == Some(0i32) {
                            parse_note_listing(stdout.as_str())
                        } else {
                            NoteSet::new()
                        };
                        let effects = self.apply();
                        assert((self@, effect_views(effects@)) == watcher_step(s, ev));
                        effects
                    },
                    Some(Op::Cleanup) | Some(Op::Move) | Some(Op::Delete) => {
                        let effects = self.refresh();
                        assert((self@, effect_views(effects@)) == watcher_step(s, ev));
                        effects
                    },
                    _ => {
                        assert((self@, effect_views(effects@)) == watcher_step(s, ev));
                        effects
                    },
                }
            },
            PluginEvent::PermissionDenied => {
                self.config = Err(WATCHER_PERMISSION_DENIED.to_owned());
                assert((self@, effect_views(effects@)) == watcher_step(s, ev));
                effects
            },
            PluginEvent::EditPaneExited { op, tab } => {
                if op == Some(Op::Edit) {
                    match (tab, &self.session) {
                        (Some(t), Some(session)) => {
                            effects.push(
                                Effect::DeleteIfEmpty {
                                    path: note_path(dir.as_str(), session.as_str(), t.as_str()),
                                },
                            );
                            assert(effect_views(effects@) =~= watcher_step(s, ev).1);
                        },
                        _ => {},
                    }
                }
                assert((self@, effect_views(effects@)) == watcher_step(s, ev));
                effects
            },
            PluginEvent::Key(_) | PluginEvent::Other => {
                assert((self@, effect_views(effects@)) == watcher_step(s, ev));
                effects
            },
        }
    }

    /// Handles a message piped to the watcher (see `pipe_effects`). The watcher never
    /// asks to be redrawn.
    pub fn pipe(&self, name: &str, payload: Option<String>) -> (effects: Vec<Effect>)
        ensures
            effect_views(effects@) == pipe_effects(self@, name@, opt_text(payload)),
    {
        let mut effects: Vec<Effect> = Vec::new();
        match (&self.config, &self.session) {
            (Ok(c), Some(session)) => {
                if same_text(name, NOTES_CHANGED) || same_text(name, NOTES_CHANGED_PREFIXED) {
                    return self.refresh();
                }
                if same_text(name, EDIT_NOTE) || same_text(name, EDIT_NOTE_PREFIXED) {
                    match payload {
                        Some(tab) => {
                            let path = note_path(c.notes_dir.as_str(), session.as_str(), tab.as_str());
                            effects.push(Effect::OpenEditor { path, tab });
                        },
                        None => {},
                    }
                }
            },
            _ => {},
        }
        assert(effect_views(effects@) =~= pipe_effects(self@, name@, opt_text(payload)));
        effects
    }
}

/// Once a note file operation (a clean-up, a move or a delete) has finished, whether it
/// succeeded or failed, a configured watcher that knows its session lists that session's
/// notes again, so that tab names follow what is really on disk; nothing else changes.
pub proof fn lemma_file_operations_always_refresh(
    s: WatcherState,
    op: Op,
    exit_code: Option<i32>,
    stdout: Seq<char>,
)
    requires
        s.config is Ok,
        s.session is Some,
        op == Op::Cleanup || op == Op::Move || op == Op::Delete,
    ensures
        watcher_step(s, EventView::CommandResult(Some(op), exit_code, stdout)) == (
            s,
            seq![EffectView::ListNotes(session_dir_of(s.config->Ok_0.0, s.session->0))],
        ),
{
}

} // verus!
