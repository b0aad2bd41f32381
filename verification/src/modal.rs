//! The note modal: shows the current tab's note, scrolls it, and edits or deletes it.
//!
//! Every decision is here, as a step from the modal's state and an event to its next
//! state, whether to redraw, and the effects for the host to run.
use crate::config::Config;
use crate::icon::{strip_icon, stripped};
use crate::markdown::{line_views, render, rendered, spans_in_order, spans_within, wrap, wrapped,
    LineView, RenderedLine, Span, SpanKind};
use crate::paths::{note_path, note_path_of};
use crate::plugin::{copy_opt, effect_views, holds, opt_text, Effect, EffectView, Key, Op,
    OpenTab, PluginEvent};
use crate::text::{chars_of, concat, string_of, trim, trimmed};
use crate::viewport::{clamp_scroll, max_scroll};
use vstd::prelude::*;

verus! {

pub const PERMISSION_DENIED: &'static str =
    "tab-notes: permissions denied — close this pane, reload the plugin and accept the request";

pub const NOTE_DELETED: &'static str = "note deleted";

pub const DELETE_FAILED: &'static str = "delete failed — see the Zellij log";

pub const EDITING: &'static str = "editing in $EDITOR…";

pub const DELETING: &'static str = "deleting…";

pub const CONFIRM_DELETE: &'static str = "delete this note? y/n";

pub const HELP: &'static str = "e edit · d delete · j/k scroll · Esc close";

pub const TITLE: &'static str = "Note";

pub const TITLE_SEPARATOR: &'static str = " · ";

pub const NO_NOTE_HEAD: &'static str = "No note for «";

pub const NO_NOTE_TAIL: &'static str = "» — press e to create one";

pub const LOADING: &'static str = "Loading…";

/// The modal's state as text.
pub struct ModalState {
    /// `(notes_dir, icon)`, or why the modal is inert.
    pub config: Result<(Seq<char>, Seq<char>), Seq<char>>,
    pub session: Option<Seq<char>>,
    /// The clean name of the active tab.
    pub tab: Option<Seq<char>>,
    /// The note as last read; `None` while unread or when there is no file.
    pub content: Option<Seq<char>>,
    pub status: Option<Seq<char>>,
    pub scroll: usize,
    pub confirming_delete: bool,
}

/// An event with its text as character sequences; a tab is `(id, position, name, active)`.
pub enum EventView {
    SessionUpdate(Option<Seq<char>>),
    TabUpdate(Seq<(usize, usize, Seq<char>, bool)>),
    CommandResult(Option<Op>, Option<i32>, Seq<char>),
    EditPaneExited(Option<Op>, Option<Seq<char>>),
    Key(Key),
    PermissionDenied,
    Other,
}

/// A tab as `(id, position, name, active)`.
pub open spec fn tab_view(t: OpenTab) -> (usize, usize, Seq<char>, bool) {
    (t.id, t.position, t.name@, t.active)
}

/// The text of an event.
pub open spec fn event_view(e: PluginEvent) -> EventView {
    match e {
        PluginEvent::SessionUpdate { current } => EventView::SessionUpdate(opt_text(current)),
        PluginEvent::TabUpdate { tabs } => EventView::TabUpdate(
            tabs@.map_values(|t: OpenTab| tab_view(t)),
        ),
        PluginEvent::CommandResult { op, exit_code, stdout } => EventView::CommandResult(
            op,
            exit_code,
            stdout@,
        ),
        PluginEvent::EditPaneExited { op, tab } => EventView::EditPaneExited(op, opt_text(tab)),
        PluginEvent::Key(k) => EventView::Key(k),
        PluginEvent::PermissionDenied => EventView::PermissionDenied,
        PluginEvent::Other => EventView::Other,
    }
}

/// The name of the first active tab, if any.
pub open spec fn first_active(tabs: Seq<(usize, usize, Seq<char>, bool)>) -> Option<Seq<char>>
    decreases tabs.len(),
{
    if tabs.len() == 0 {
        None
    } else if tabs[0].3 {
        Some(tabs[0].2)
    } else {
        first_active(tabs.drop_first())
    }
}

/// The note file the modal is about, once configured and both session and tab are known.
pub open spec fn note_of(s: ModalState) -> Option<Seq<char>> {
    match (s.config, s.session, s.tab) {
        (Ok((dir, _)), Some(session), Some(tab)) => Some(note_path_of(dir, session, tab)),
        _ => None,
    }
}

/// Asking for the note to be read, when there is a note file to read.
pub open spec fn read_effects(s: ModalState) -> Seq<EffectView> {
    match note_of(s) {
        Some(p) => seq![EffectView::ReadNote(p)],
        None => Seq::empty(),
    }
}

/// The modal holds a note: content was read and is not blank.
pub open spec fn shows_note(s: ModalState) -> bool {
    s.content is Some && trim(s.content->0).len() > 0
}

/// `x + by`, or `usize::MAX` when that does not fit.
pub open spec fn up_to_max(x: usize, by: usize) -> usize {
    if x + by > usize::MAX {
        usize::MAX
    } else {
        (x + by) as usize
    }
}

/// `x - by`, or 0 when that would be negative.
pub open spec fn down_to_zero(x: usize, by: usize) -> usize {
    if x < by {
        0
    } else {
        (x - by) as usize
    }
}

/// What a key press does: the next state, whether to redraw, and the effects.
pub open spec fn key_step(s: ModalState, k: Key) -> (ModalState, bool, Seq<EffectView>) {
    match k {
        Key::Esc => (s, false, seq![EffectView::CloseSelf]),
        Key::Char('q') => (s, false, seq![EffectView::CloseSelf]),
        Key::Char('j') | Key::Down => (ModalState { scroll: up_to_max(s.scroll, 1), ..s }, true, Seq::empty()),
        Key::Char('k') | Key::Up => (ModalState { scroll: down_to_zero(s.scroll, 1), ..s }, true, Seq::empty()),
        Key::PageDown => (ModalState { scroll: up_to_max(s.scroll, 10), ..s }, true, Seq::empty()),
        Key::PageUp => (ModalState { scroll: down_to_zero(s.scroll, 10), ..s }, true, Seq::empty()),
        Key::Char(c) => {
            if c == 'e' && s.tab is Some {
                match note_of(s) {
                    Some(p) => (
                        ModalState { status: Some(EDITING@), ..s },
                        true,
                        seq![EffectView::OpenEditor(p, s.tab->0)],
                    ),
                    None => (s, true, Seq::empty()),
                }
            } else if c == 'd' && shows_note(s) && !s.confirming_delete {
                (ModalState { confirming_delete: true, ..s }, true, Seq::empty())
            } else if c == 'y' && s.confirming_delete {
                let s2 = ModalState { confirming_delete: false, ..s };
                match note_of(s2) {
                    Some(p) => (
                        ModalState { status: Some(DELETING@), ..s2 },
                        true,
                        seq![EffectView::DeleteNote(p)],
                    ),
                    None => (s2, true, Seq::empty()),
                }
            } else if c == 'n' && s.confirming_delete {
                (ModalState { confirming_delete: false, ..s }, true, Seq::empty())
            } else {
                (s, false, Seq::empty())
            }
        },
        Key::Other => (s, false, Seq::empty()),
    }
}

/// What an event does to the modal: the next state, whether to redraw, and the effects.
/// An inert (unconfigured or refused) modal ignores everything.
pub open spec fn modal_step(s: ModalState, e: EventView) -> (ModalState, bool, Seq<EffectView>) {
    if s.config is Err {
        (s, false, Seq::empty())
    } else {
        match e {
            EventView::SessionUpdate(None) => (s, false, Seq::empty()),
            EventView::SessionUpdate(Some(name)) => {
                if s.session == Some(name) {
                    (s, true, Seq::empty())
                } else {
                    let s2 = ModalState {
                        session: Some(name),
                        confirming_delete: false,
                        status: None,
                        content: None,
                        ..s
                    };
                    (s2, true, read_effects(s2))
                }
            },
            EventView::TabUpdate(tabs) => match first_active(tabs) {
                None => (s, false, Seq::empty()),
                Some(name) => {
                    let clean = stripped(name, s.config->Ok_0.1);
                    if s.tab == Some(clean) {
                        (s, true, Seq::empty())
                    } else {
                        let s2 = ModalState {
                            tab: Some(clean),
                            scroll: 0,
                            confirming_delete: false,
                            status: None,
                            content: None,
                            ..s
                        };
                        (s2, true, read_effects(s2))
                    }
                },
            },
            EventView::CommandResult(op, exit_code, stdout) => match op {
                Some(Op::Read) => (
                    ModalState {
                        content: if exit_code == Some(0i32) {
                            Some(stdout)
                        } else {
                            None
                        },
                        ..s
                    },
                    true,
                    Seq::empty(),
                ),
                Some(Op::Delete) => if exit_code == Some(0i32) {
                    (
                        ModalState { content: None, status: Some(NOTE_DELETED@), ..s },
                        true,
                        seq![EffectView::NotifyWatcher],
                    )
                } else {
                    (ModalState { status: Some(DELETE_FAILED@), ..s }, true, Seq::empty())
                },
                Some(Op::Cleanup) => (s, true, read_effects(s).push(EffectView::NotifyWatcher)),
                _ => (s, false, Seq::empty()),
            },
            EventView::EditPaneExited(op, _) => if op != Some(Op::Edit) {
                (s, false, Seq::empty())
            } else {
                match note_of(s) {
                    Some(p) => (
                        ModalState { status: None, ..s },
                        true,
                        seq![EffectView::DeleteIfEmpty(p)],
                    ),
                    None => (s, false, Seq::empty()),
                }
            },
            EventView::Key(k) => key_step(s, k),
            EventView::PermissionDenied => (
                ModalState { config: Err(PERMISSION_DENIED@), ..s },
                true,
                Seq::empty(),
            ),
            EventView::Other => (s, false, Seq::empty()),
        }
    }
}

/// Scrolling: `j` and Down move the view one line down, `k` and Up one line up, PageDown
/// and PageUp ten lines; the view never goes above the top line, nothing but the scroll
/// changes, the modal redraws and asks for nothing; and one line down then one line up
/// (or up then down, away from the top) comes back to where it was.
pub proof fn lemma_scroll_keys(s: ModalState)
    requires
        s.config is Ok,
    ensures
        forall|k: Key|
            (k == Key::Char('j') || k == Key::Down) ==> #[trigger] modal_step(s, EventView::Key(k))
                == (
                ModalState {
                    scroll: if s.scroll < usize::MAX {
                        (s.scroll + 1) as usize
                    } else {
                        s.scroll
                    },
                    ..s
                },
                true,
                Seq::<EffectView>::empty(),
            ),
        forall|k: Key|
            (k == Key::Char('k') || k == Key::Up) ==> #[trigger] modal_step(s, EventView::Key(k))
                == (
                ModalState {
                    scroll: if s.scroll == 0 {
                        0
                    } else {
                        (s.scroll - 1) as usize
                    },
                    ..s
                },
                true,
                Seq::<EffectView>::empty(),
            ),
        modal_step(s, EventView::Key(Key::PageDown)).0 == (ModalState {
            scroll: if s.scroll + 10 <= usize::MAX {
                (s.scroll + 10) as usize
            } else {
                usize::MAX
            },
            ..s
        }),
        modal_step(s, EventView::Key(Key::PageUp)).0 == (ModalState {
            scroll: if s.scroll >= 10 {
                (s.scroll - 10) as usize
            } else {
                0
            },
            ..s
        }),
        s.scroll < usize::MAX ==> modal_step(
            modal_step(s, EventView::Key(Key::Char('j'))).0,
            EventView::Key(Key::Char('k')),
        ).0 == s,
        s.scroll > 0 ==> modal_step(
            modal_step(s, EventView::Key(Key::Char('k'))).0,
            EventView::Key(Key::Char('j')),
        ).0 == s,
{
}

/// Note-scoped state does not survive a change of which note is shown: when the session
/// or the active tab's clean name changes, the delete question, the status and the read
/// content are dropped, so a `y` pressed next deletes nothing.
pub proof fn lemma_note_change_resets_note_state(s: ModalState, e: EventView)
    requires
        s.config is Ok,
        match e {
            EventView::SessionUpdate(Some(name)) => s.session != Some(name),
            EventView::TabUpdate(tabs) => first_active(tabs) is Some && s.tab != Some(
                stripped(first_active(tabs)->0, s.config->Ok_0.1),
            ),
            _ => false,
        },
    ensures
        ({
            let (s2, redraw, _) = modal_step(s, e);
            &&& redraw
            &&& !s2.confirming_delete
            &&& s2.status is None
            &&& s2.content is None
            &&& key_step(s2, Key::Char('y')) == (s2, false, Seq::<EffectView>::empty())
        }),
{
}

/// The watcher is told that the notes changed only once a command has really finished:
/// no key press asks for it.
pub proof fn lemma_keys_never_notify_the_watcher(s: ModalState, k: Key)
    ensures
        forall|i: int|
            0 <= i < key_step(s, k).2.len() ==> !(#[trigger] key_step(s, k).2[i] is NotifyWatcher),
{
}

/// The configuration as text.
pub open spec fn config_text(c: Result<Config, String>) -> Result<(Seq<char>, Seq<char>), Seq<char>> {
    match c {
        Ok(c) => Ok((c.notes_dir@, c.icon@)),
        Err(e) => Err(e@),
    }
}

/// The note modal.
pub struct Modal {
    config: Result<Config, String>,
    session: Option<String>,
    tab: Option<String>,
    content: Option<String>,
    status: Option<String>,
    scroll: usize,
    confirming_delete: bool,
}

impl View for Modal {
    type V = ModalState;

    closed spec fn view(&self) -> ModalState {
        ModalState {
            config: config_text(self.config),
            session: opt_text(self.session),
            tab: opt_text(self.tab),
            content: opt_text(self.content),
            status: opt_text(self.status),
            scroll: self.scroll,
            confirming_delete: self.confirming_delete,
        }
    }
}

/// What to draw: the error of an inert modal, or a title, the visible note lines or a
/// placeholder, and a footer.
#[derive(Debug)]
pub struct Frame {
    pub error: Option<String>,
    pub title: String,
    pub lines: Vec<RenderedLine>,
    pub placeholder: Option<String>,
    pub footer: String,
}

/// The title: `Note · <tab>`, or `Note` while no tab is known.
pub open spec fn title_of(tab: Option<Seq<char>>) -> Seq<char> {
    match tab {
        Some(t) => TITLE@ + TITLE_SEPARATOR@ + t,
        None => TITLE@,
    }
}

/// What stands in place of a missing note.
pub open spec fn placeholder_of(tab: Option<Seq<char>>) -> Seq<char> {
    match tab {
        Some(t) => NO_NOTE_HEAD@ + t + NO_NOTE_TAIL@,
        None => LOADING@,
    }
}

/// The footer: the delete question, the last status, or the key help.
pub open spec fn footer_of(s: ModalState) -> Seq<char> {
    if s.confirming_delete {
        CONFIRM_DELETE@
    } else {
        match s.status {
            Some(st) => st,
            None => HELP@,
        }
    }
}

/// The rendered note wrapped to `cols`, as it scrolls.
pub open spec fn note_lines(content: Seq<char>, cols: int) -> Seq<LineView> {
    wrapped(rendered(content), cols)
}

/// `x` clamped by `clamp_scroll`.
pub open spec fn clamped(scroll: int, total: int, rows: int) -> int {
    if scroll <= max_scroll(total, rows) {
        scroll
    } else {
        max_scroll(total, rows)
    }
}

/// The rows under the title that hold note lines.
pub open spec fn body_rows(rows: int) -> int {
    if rows >= 3 {
        rows - 3
    } else {
        0
    }
}

fn literal(s: &str) -> (r: String)
    ensures
        r@ == s@,
{
    s.to_owned()
}

impl Modal {
    pub fn new(config: Result<Config, String>) -> (m: Self)
        ensures
            m@ == (ModalState {
                config: config_text(config),
                session: None,
                tab: None,
                content: None,
                status: None,
                scroll: 0,
                confirming_delete: false,
            }),
    {
        Modal {
            config,
            session: None,
            tab: None,
            content: None,
            status: None,
            scroll: 0,
            confirming_delete: false,
        }
    }

    fn note(&self) -> (p: Option<String>)
        ensures
            opt_text(p) == note_of(self@),
    {
        match (&self.config, &self.session, &self.tab) {
            (Ok(c), Some(session), Some(tab)) => Some(
                note_path(c.notes_dir.as_str(), session.as_str(), tab.as_str()),
            ),
            _ => None,
        }
    }

    fn read_note(&self, effects: &mut Vec<Effect>)
        ensures
            effect_views(final(effects)@) == effect_views(old(effects)@) + read_effects(self@),
    {
        let ghost before = effect_views(effects@);
        match self.note() {
            Some(path) => {
                effects.push(Effect::ReadNote { path });
                assert(effect_views(effects@) =~= before + read_effects(self@));
            },
            None => {
                assert(effect_views(effects@) =~= before + read_effects(self@));
            },
        }
    }

    fn has_note(&self) -> (b: bool)
        ensures
            b == shows_note(self@),
    {
        match &self.content {
            Some(c) => {
                let cs = chars_of(c.as_str());
                trimmed(&cs).len() > 0
            },
            None => false,
        }
    }

    fn on_key(&mut self, key: Key) -> (r: (bool, Vec<Effect>))
        requires
            old(self)@.config is Ok,
        ensures
            (final(self)@, r.0, effect_views(r.1@)) == key_step(old(self)@, key),
    {
        let mut effects: Vec<Effect> = Vec::new();
        match key {
            Key::Esc => {
                effects.push(Effect::CloseSelf);
                assert(effect_views(effects@) =~= seq![EffectView::CloseSelf]);
                (false, effects)
            },
            Key::Char('q') => {
                effects.push(Effect::CloseSelf);
                assert(effect_views(effects@) =~= seq![EffectView::CloseSelf]);
                (false, effects)
            },
            Key::Char('j') | Key::Down => {
                self.scroll = self.scroll.saturating_add(1);
                assert(effect_views(effects@) =~= Seq::<EffectView>::empty());
                (true, effects)
            },
            Key::Char('k') | Key::Up => {
                self.scroll = self.scroll.saturating_sub(1);
                assert(effect_views(effects@) =~= Seq::<EffectView>::empty());
                (true, effects)
            },
            Key::PageDown => {
                self.scroll = self.scroll.saturating_add(10);
                assert(effect_views(effects@) =~= Seq::<EffectView>::empty());
                (true, effects)
            },
            Key::PageUp => {
                self.scroll = self.scroll.saturating_sub(10);
                assert(effect_views(effects@) =~= Seq::<EffectView>::empty());
                (true, effects)
            },
            Key::Char(c) => {
                if c == 'e' && self.tab.is_some() {
                    match self.note() {
                        Some(path) => {
                            let tab = copy_opt(&self.tab).unwrap();
                            effects.push(Effect::OpenEditor { path, tab });
                            self.status = Some(literal(EDITING));
                        },
                        None => {},
                    }
                    proof {
                        let (_, _, fx) = key_step(old(self)@, key);
                        assert(effect_views(effects@) =~= fx);
                    }
                    (true, effects)
                } else if c == 'd' && self.has_note() && !self.confirming_delete {
                    self.confirming_delete = true;
                    assert(effect_views(effects@) =~= Seq::<EffectView>::empty());
                    (true, effects)
                } else if c == 'y' && self.confirming_delete {
                    self.confirming_delete = false;
                    match self.note() {
                        Some(path) => {
                            effects.push(Effect::DeleteNote { path });
                            self.status = Some(literal(DELETING));
                        },
                        None => {},
                    }
                    proof {
                        let (_, _, fx) = key_step(old(self)@, key);
                        assert(effect_views(effects@) =~= fx);
                    }
                    (true, effects)
                } else if c == 'n' && self.confirming_delete {
                    self.confirming_delete = false;
                    assert(effect_views(effects@) =~= Seq::<EffectView>::empty());
                    (true, effects)
                } else {
                    assert(effect_views(effects@) =~= Seq::<EffectView>::empty());
                    (false, effects)
                }
            },
            Key::Other => {
                assert(effect_views(effects@) =~= Seq::<EffectView>::empty());
                (false, effects)
            },
        }
    }

    /// Handles an event: updates the state and tells whether to redraw and what to run.
    pub fn update(&mut self, event: PluginEvent) -> (r: (bool, Vec<Effect>))
        ensures
            (final(self)@, r.0, effect_views(r.1@)) == modal_step(old(self)@, event_view(event)),
    {
        let mut effects: Vec<Effect> = Vec::new();
        assert(effect_views(effects@) =~= Seq::<EffectView>::empty());
        let icon = match &self.config {
            Ok(c) => c.icon.clone(),
            Err(_) => {
                return (false, effects);
            },
        };
        match event {
            PluginEvent::SessionUpdate { current } => {
                let name = match current {
                    Some(n) => n,
                    None => {
                        return (false, effects);
                    },
                };
                if !holds(&self.session, &name) {
                    self.session = Some(name);
                    self.confirming_delete = false;
                    self.status = None;
                    self.content = None;
                    self.read_note(&mut effects);
                }
                (true, effects)
            },
            PluginEvent::TabUpdate { tabs } => {
                let mut i: usize = 0;
                let ghost tv = tabs@.map_values(|t: OpenTab| tab_view(t));
                assert(tv.skip(0) =~= tv);
                while i < tabs.len() && !tabs[i].active
                    invariant
                        i <= tabs@.len(),
                        tv == tabs@.map_values(|t: OpenTab| tab_view(t)),
                        first_active(tv) == first_active(tv.skip(i as int)),
                    decreases tabs.len() - i,
                {
                    assert(tv.skip(i as int).drop_first() =~= tv.skip(i + 1));
                    i = i + 1;
                }
                if i == tabs.len() {
                    assert(tv.skip(i as int) =~= Seq::<(usize, usize, Seq<char>, bool)>::empty());
                    return (false, effects);
                }
                assert(tv.skip(i as int)[0] == tab_view(tabs@[i as int]));
                let clean = strip_icon(tabs[i].name.as_str(), icon.as_str()).to_owned();
                if !holds(&self.tab, &clean) {
                    self.tab = Some(clean);
                    self.scroll = 0;
                    self.confirming_delete = false;
                    self.status = None;
                    self.content = None;
                    self.read_note(&mut effects);
                }
                (true, effects)
            },
            PluginEvent::CommandResult { op, exit_code, stdout } => {
                match op {
                    Some(Op::Read) => {
                        self.content = if exit_code == Some(0i32) {
                            Some(stdout)
                        } else {
                            None
                        };
                        (true, effects)
                    },
                    Some(Op::Delete) => {
                        if exit_code == Some(0i32) {
                            self.content = None;
                            self.status = Some(literal(NOTE_DELETED));
                            effects.push(Effect::NotifyWatcher);
                            assert(effect_views(effects@) =~= seq![EffectView::NotifyWatcher]);
                        } else {
                            self.status = Some(literal(DELETE_FAILED));
                        }
                        (true, effects)
                    },
                    Some(Op::Cleanup) => {
                        self.read_note(&mut effects);
                        let ghost before = effect_views(effects@);
                        effects.push(Effect::NotifyWatcher);
                        assert(effect_views(effects@) =~= before.push(EffectView::NotifyWatcher));
                        (true, effects)
                    },
                    _ => (false, effects),
                }
            },
            PluginEvent::EditPaneExited { op, tab: _ } => {
                if op != Some(Op::Edit) {
                    return (false, effects);
                }
                match self.note() {
                    Some(path) => {
                        effects.push(Effect::DeleteIfEmpty { path });
                        self.status = None;
                        (true, effects)
                    },
                    None => (false, effects),
                }
            },
            PluginEvent::Key(key) => self.on_key(key),
            PluginEvent::PermissionDenied => {
                self.config = Err(literal(PERMISSION_DENIED));
                (true, effects)
            },
            PluginEvent::Other => (false, effects),
        }
    }
}

/// The runs of `kind`, as `(start, end)` offsets, in order.
pub open spec fn runs_of(spans: Seq<Span>, kind: SpanKind) -> Seq<(int, int)>
    decreases spans.len(),
{
    if spans.len() == 0 {
        Seq::empty()
    } else {
        let rest = runs_of(spans.drop_first(), kind);
        if spans[0].kind == kind {
            seq![(spans[0].start as int, spans[0].end as int)] + rest
        } else {
            rest
        }
    }
}

/// The stretches between the runs, from `cursor` to `len`: before each run when the run
/// starts after the cursor, which then moves to the run's end, and after the last run.
pub open spec fn gaps(runs: Seq<(int, int)>, cursor: int, len: int) -> Seq<(int, int)>
    decreases runs.len(),
{
    if runs.len() == 0 {
        if cursor < len {
            seq![(cursor, len)]
        } else {
            Seq::empty()
        }
    } else {
        let before = if cursor < runs[0].0 {
            seq![(cursor, runs[0].0)]
        } else {
            Seq::empty()
        };
        before + gaps(runs.drop_first(), runs[0].1, len)
    }
}

/// What to unbold in a body line: everything (`None`) when it has no strong run, else
/// the stretches between the strong runs. A terminal's text is bold by default and can
/// only lose weight, so the strong runs are what is left bold.
pub open spec fn unbold_plan(line: LineView) -> Option<Seq<(int, int)>> {
    let strong = runs_of(line.2, SpanKind::Strong);
    if strong.len() == 0 {
        None
    } else {
        Some(gaps(strong, 0, line.0.len() as int))
    }
}

/// Some range of `r` holds offset `p`.
pub open spec fn in_ranges(r: Seq<(int, int)>, p: int) -> bool {
    exists|k: int| 0 <= k < r.len() && (#[trigger] r[k]).0 <= p < r[k].1
}

/// Some span of `kind` holds offset `p`.
pub open spec fn in_kind(spans: Seq<Span>, kind: SpanKind, p: int) -> bool {
    exists|i: int| 0 <= i < spans.len() && (#[trigger] spans[i]).kind == kind && spans[i].start <= p
        < spans[i].end
}

/// Each range runs forward, and each ends no later than any later one starts.
pub open spec fn ranges_sorted(r: Seq<(int, int)>) -> bool {
    &&& forall|k: int| 0 <= k < r.len() ==> (#[trigger] r[k]).0 <= r[k].1
    &&& forall|k: int, m: int| 0 <= k < m < r.len() ==> (#[trigger] r[k]).1 <= (#[trigger] r[m]).0
}

/// The runs of a kind, taken from spans that are in order pairwise, are sorted, each is
/// one of the spans, and together they hold exactly the offsets that the spans of that
/// kind hold.
proof fn lemma_runs_of(spans: Seq<Span>, kind: SpanKind)
    requires
        forall|k: int| 0 <= k < spans.len() ==> (#[trigger] spans[k]).start <= spans[k].end,
        forall|i: int, j: int|
            0 <= i < j < spans.len() ==> (#[trigger] spans[i]).end <= (#[trigger] spans[j]).start,
    ensures
        ranges_sorted(runs_of(spans, kind)),
        forall|k: int|
            0 <= k < runs_of(spans, kind).len() ==> exists|i: int|
                0 <= i < spans.len() && #[trigger] runs_of(spans, kind)[k] == (
                    (#[trigger] spans[i]).start as int,
                    spans[i].end as int,
                ),
        forall|p: int| in_ranges(runs_of(spans, kind), p) == in_kind(spans, kind, p),
        (runs_of(spans, kind).len() == 0) == !exists|i: int|
            0 <= i < spans.len() && (#[trigger] spans[i]).kind == kind,
    decreases spans.len(),
{
    if spans.len() > 0 {
        let tail = spans.drop_first();
        assert forall|i: int, j: int| 0 <= i < j < tail.len() implies (#[trigger] tail[i]).end
            <= (#[trigger] tail[j]).start by {
            assert(tail[i] == spans[i + 1] && tail[j] == spans[j + 1]);
        }
        lemma_runs_of(tail, kind);
        let rest = runs_of(tail, kind);
        let r = runs_of(spans, kind);
        let s0 = spans[0];
        assert forall|k: int| 0 <= k < rest.len() implies s0.end <= (#[trigger] rest[k]).0 by {
            let i = choose|i: int|
                0 <= i < tail.len() && #[trigger] rest[k] == (
                    (#[trigger] tail[i]).start as int,
                    tail[i].end as int,
                );
            assert(tail[i] == spans[i + 1]);
            assert(spans[0].end <= spans[i + 1].start);
        }
        assert forall|k: int| 0 <= k < r.len() implies exists|i: int|
            0 <= i < spans.len() && #[trigger] r[k] == (
                (#[trigger] spans[i]).start as int,
                spans[i].end as int,
            ) by {
            if s0.kind == kind && k == 0 {
                assert(r[0] == (spans[0].start as int, spans[0].end as int));
            } else {
                let k1 = if s0.kind == kind {
                    k - 1
                } else {
                    k
                };
                assert(r[k] == rest[k1]);
                let i = choose|i: int|
                    0 <= i < tail.len() && #[trigger] rest[k1] == (
                        (#[trigger] tail[i]).start as int,
                        tail[i].end as int,
                    );
                assert(tail[i] == spans[i + 1]);
            }
        }
        assert(r == if s0.kind == kind {
            seq![(s0.start as int, s0.end as int)] + rest
        } else {
            rest
        });
        if s0.kind == kind {
            assert forall|k: int, m: int| 0 <= k < m < r.len() implies (#[trigger] r[k]).1
                <= (#[trigger] r[m]).0 by {
                assert(r[m] == rest[m - 1]);
                if k > 0 {
                    assert(r[k] == rest[k - 1]);
                }
            }
            assert forall|k: int| 0 <= k < r.len() implies (#[trigger] r[k]).0 <= r[k].1 by {
                if k > 0 {
                    assert(r[k] == rest[k - 1]);
                }
            }
        } else {
            assert(r == rest);
        }
        assert forall|p: int| in_ranges(r, p) == in_kind(spans, kind, p) by {
            if in_ranges(r, p) {
                let k = choose|k: int| 0 <= k < r.len() && (#[trigger] r[k]).0 <= p < r[k].1;
                if s0.kind == kind && k == 0 {
                    assert(r[0] == (s0.start as int, s0.end as int));
                    assert(spans[0].kind == kind && spans[0].start <= p < spans[0].end);
                } else {
                    let k1 = if s0.kind == kind {
                        k - 1
                    } else {
                        k
                    };
                    assert(r[k] == rest[k1]);
                    assert(rest[k1].0 <= p < rest[k1].1);
                    assert(in_ranges(rest, p));
                    assert(in_kind(tail, kind, p));
                    let i = choose|i: int|
                        0 <= i < tail.len() && (#[trigger] tail[i]).kind == kind && tail[i].start
                            <= p < tail[i].end;
                    assert(tail[i] == spans[i + 1]);
                }
            }
            if in_kind(spans, kind, p) {
                let i = choose|i: int|
                    0 <= i < spans.len() && (#[trigger] spans[i]).kind == kind && spans[i].start
                        <= p < spans[i].end;
                if i == 0 {
                    assert(r[0] == (s0.start as int, s0.end as int));
                } else {
                    assert(tail[i - 1] == spans[i]);
                    assert(in_kind(tail, kind, p));
                    let k = choose|k: int| 0 <= k < rest.len() && (#[trigger] rest[k]).0 <= p
                        < rest[k].1;
                    if s0.kind == kind {
                        assert(r[k + 1] == rest[k]);
                    } else {
                        assert(r[k] == rest[k]);
                    }
                }
            }
        }
        if exists|i: int| 0 <= i < spans.len() && (#[trigger] spans[i]).kind == kind {
            let i = choose|i: int| 0 <= i < spans.len() && (#[trigger] spans[i]).kind == kind;
            if i > 0 {
                assert(tail[i - 1] == spans[i]);
            }
        }
        if exists|i: int| 0 <= i < tail.len() && (#[trigger] tail[i]).kind == kind {
            let i = choose|i: int| 0 <= i < tail.len() && (#[trigger] tail[i]).kind == kind;
            assert(tail[i] == spans[i + 1]);
        }
    } else {
        assert(!in_ranges(runs_of(spans, kind), 0int) || true);
    }
}

/// The gaps between sorted runs that start at or after `cursor` and end by `len` are
/// non-empty stretches inside `[cursor, len)` that hold exactly the offsets of
/// `[cursor, len)` that no run holds.
proof fn lemma_gaps(runs: Seq<(int, int)>, cursor: int, len: int)
    requires
        ranges_sorted(runs),
        forall|k: int| 0 <= k < runs.len() ==> cursor <= (#[trigger] runs[k]).0 && runs[k].1 <= len,
    ensures
        forall|k: int|
            0 <= k < gaps(runs, cursor, len).len() ==> cursor <= (#[trigger] gaps(
                runs,
                cursor,
                len,
            )[k]).0 < gaps(runs, cursor, len)[k].1 <= len,
        forall|p: int|
            cursor <= p < len ==> (in_ranges(gaps(runs, cursor, len), p) == !in_ranges(runs, p)),
    decreases runs.len(),
{
    let g = gaps(runs, cursor, len);
    if runs.len() == 0 {
        assert forall|p: int| cursor <= p < len implies in_ranges(g, p) by {
            assert(g[0] == (cursor, len));
        }
    } else {
        let r0 = runs[0];
        let tail = runs.drop_first();
        assert forall|k: int| 0 <= k < tail.len() implies r0.1 <= (#[trigger] tail[k]).0
            && tail[k].1 <= len by {
            assert(tail[k] == runs[k + 1]);
        }
        assert(ranges_sorted(tail)) by {
            assert forall|k: int, m: int| 0 <= k < m < tail.len() implies (#[trigger] tail[k]).1
                <= (#[trigger] tail[m]).0 by {
                assert(tail[k] == runs[k + 1] && tail[m] == runs[m + 1]);
            }
            assert forall|k: int| 0 <= k < tail.len() implies (#[trigger] tail[k]).0 <= tail[k].1 by {
                assert(tail[k] == runs[k + 1]);
            }
        }
        lemma_gaps(tail, r0.1, len);
        let rest = gaps(tail, r0.1, len);
        let before = if cursor < r0.0 {
            seq![(cursor, r0.0)]
        } else {
            Seq::<(int, int)>::empty()
        };
        assert(g == before + rest);
        assert(r0.0 <= r0.1);
        assert forall|k: int| 0 <= k < g.len() implies cursor <= (#[trigger] g[k]).0 < g[k].1
            <= len by {
            if k >= before.len() {
                assert(g[k] == rest[k - before.len()]);
            }
        }
        assert forall|p: int| cursor <= p < len implies (in_ranges(g, p) == !in_ranges(runs, p)) by {
            if p < r0.0 {
                assert(g[0] == (cursor, r0.0));
                assert(!in_ranges(runs, p)) by {
                    if in_ranges(runs, p) {
                        let k = choose|k: int| 0 <= k < runs.len() && (#[trigger] runs[k]).0 <= p
                            < runs[k].1;
                        if k > 0 {
                            assert(runs[0].1 <= runs[k].0);
                        }
                    }
                }
            } else if p < r0.1 {
                assert(in_ranges(runs, p)) by {
                    assert(runs[0].0 <= p < runs[0].1);
                }
                assert(!in_ranges(g, p)) by {
                    if in_ranges(g, p) {
                        let k = choose|k: int| 0 <= k < g.len() && (#[trigger] g[k]).0 <= p
                            < g[k].1;
                        if k >= before.len() {
                            assert(g[k] == rest[k - before.len()]);
                        }
                    }
                }
            } else {
                assert(in_ranges(runs, p) == in_ranges(tail, p)) by {
                    if in_ranges(runs, p) {
                        let k = choose|k: int| 0 <= k < runs.len() && (#[trigger] runs[k]).0 <= p
                            < runs[k].1;
                        assert(k > 0);
                        assert(tail[k - 1] == runs[k]);
                    }
                    if in_ranges(tail, p) {
                        let k = choose|k: int| 0 <= k < tail.len() && (#[trigger] tail[k]).0 <= p
                            < tail[k].1;
                        assert(tail[k] == runs[k + 1]);
                    }
                }
                assert(in_ranges(g, p) == in_ranges(rest, p)) by {
                    if in_ranges(g, p) {
                        let k = choose|k: int| 0 <= k < g.len() && (#[trigger] g[k]).0 <= p
                            < g[k].1;
                        if k < before.len() {
                            assert(g[k] == (cursor, r0.0));
                        } else {
                            assert(g[k] == rest[k - before.len()]);
                        }
                    }
                    if in_ranges(rest, p) {
                        let k = choose|k: int| 0 <= k < rest.len() && (#[trigger] rest[k]).0 <= p
                            < rest[k].1;
                        assert(g[k + before.len()] == rest[k]);
                    }
                }
            }
        }
    }
}

/// Spans inside the text and in order run forward, each ending before any later one
/// starts.
proof fn lemma_spans_pairwise(line: LineView)
    requires
        spans_within(line),
        spans_in_order(line.2),
    ensures
        forall|k: int| 0 <= k < line.2.len() ==> (#[trigger] line.2[k]).start <= line.2[k].end,
        forall|i: int, j: int|
            0 <= i < j < line.2.len() ==> (#[trigger] line.2[i]).end <= (#[trigger] line.2[j]).start,
{
    let spans = line.2;
    assert forall|k: int| 0 <= k < spans.len() implies (#[trigger] spans[k]).start <= spans[k].end by {
        assert(spans[k].start <= spans[k].end <= line.0.len());
    }
    assert forall|i: int, j: int| 0 <= i < j < spans.len() implies (#[trigger] spans[i]).end
        <= (#[trigger] spans[j]).start by {
        assert(spans[i].end <= spans[j].start);
    }
}

/// The strong runs of spans that lie inside the text, in order and apart, are sorted
/// ranges inside the text that hold exactly the offsets that strong spans hold.
proof fn lemma_strong_runs(line: LineView)
    requires
        spans_within(line),
        spans_in_order(line.2),
    ensures
        ranges_sorted(runs_of(line.2, SpanKind::Strong)),
        forall|k: int|
            0 <= k < runs_of(line.2, SpanKind::Strong).len() ==> 0 <= (#[trigger] runs_of(
                line.2,
                SpanKind::Strong,
            )[k]).0 && runs_of(line.2, SpanKind::Strong)[k].1 <= line.0.len(),
        forall|p: int|
            in_ranges(runs_of(line.2, SpanKind::Strong), p) == in_kind(line.2, SpanKind::Strong, p),
        (runs_of(line.2, SpanKind::Strong).len() == 0) == !exists|i: int|
            0 <= i < line.2.len() && (#[trigger] line.2[i]).kind == SpanKind::Strong,
{
    let spans = line.2;
    lemma_spans_pairwise(line);
    lemma_runs_of(spans, SpanKind::Strong);
    let runs = runs_of(spans, SpanKind::Strong);
    assert forall|k: int| 0 <= k < runs.len() implies 0 <= (#[trigger] runs[k]).0 && runs[k].1
        <= line.0.len() by {
        let i = choose|i: int|
            0 <= i < spans.len() && #[trigger] runs[k] == (
                (#[trigger] spans[i]).start as int,
                spans[i].end as int,
            );
        assert(spans[i].start <= spans[i].end <= line.0.len());
    }
}

/// Unbolding leaves exactly the strong runs bold. When the spans lie inside the text, in
/// order and apart, a line with no strong run is unbolded whole; otherwise the stretches
/// to unbold are non-empty ranges inside the text that hold exactly the characters that
/// no strong run holds.
pub proof fn lemma_unbold_leaves_only_strong_bold(line: LineView)
    requires
        spans_within(line),
        spans_in_order(line.2),
    ensures
        (unbold_plan(line) is None) == !exists|i: int|
            0 <= i < line.2.len() && (#[trigger] line.2[i]).kind == SpanKind::Strong,
        unbold_plan(line) matches Some(g) ==> {
            &&& forall|k: int| 0 <= k < g.len() ==> 0 <= (#[trigger] g[k]).0 < g[k].1 <= line.0.len()
            &&& forall|p: int|
                0 <= p < line.0.len() ==> (in_ranges(g, p) == !in_kind(line.2, SpanKind::Strong, p))
        },
{
    lemma_strong_runs(line);
    let runs = runs_of(line.2, SpanKind::Strong);
    lemma_gaps(runs, 0, line.0.len() as int);
}

/// The ranges as integers.
pub open spec fn int_ranges(v: Seq<(usize, usize)>) -> Seq<(int, int)> {
    v.map_values(|r: (usize, usize)| (r.0 as int, r.1 as int))
}

/// The `(start, end)` offsets of the runs of `kind` in `spans`, in order.
pub fn runs(spans: &[Span], kind: SpanKind) -> (r: Vec<(usize, usize)>)
    ensures
        int_ranges(r@) == runs_of(spans@, kind),
{
    let mut r: Vec<(usize, usize)> = Vec::new();
    let mut i = spans.len();
    assert(spans@.skip(i as int) =~= Seq::<Span>::empty());
    while i > 0
        invariant
            i <= spans@.len(),
            int_ranges(r@) == runs_of(spans@.skip(i as int), kind),
        decreases i,
    {
        let ghost before = int_ranges(r@);
        i = i - 1;
        let sp = spans[i];
        assert(spans@.skip(i as int).drop_first() =~= spans@.skip(i + 1));
        assert(spans@.skip(i as int)[0] == sp);
        if sp.kind == kind {
            r.insert(0, (sp.start, sp.end));
            assert(int_ranges(r@) =~= seq![(sp.start as int, sp.end as int)] + before);
        }
    }
    assert(spans@.skip(0) =~= spans@);
    r
}

/// What to unbold in a body line (see `unbold_plan`).
pub fn unbold_ranges(line: &RenderedLine) -> (r: Option<Vec<(usize, usize)>>)
    ensures
        match (r, unbold_plan(line@)) {
            (Some(v), Some(p)) => int_ranges(v@) == p,
            (None, None) => true,
            _ => false,
        },
{
    let strong = runs(&line.spans, SpanKind::Strong);
    if strong.len() == 0 {
        return None;
    }
    let len = chars_of(line.text.as_str()).len();
    let ghost all = runs_of(line.spans@, SpanKind::Strong);
    let mut out: Vec<(usize, usize)> = Vec::new();
    let mut cursor: usize = 0;
    let mut i: usize = 0;
    assert(all.skip(0) =~= all);
    while i < strong.len()
        invariant
            i <= strong@.len(),
            int_ranges(strong@) == all,
            all.len() > 0,
            len == line@.0.len(),
            i > 0 ==> cursor as int == all[i - 1].1,
            i == 0 ==> cursor == 0,
            int_ranges(out@) + gaps(all.skip(i as int), cursor as int, len as int) == gaps(
                all,
                0,
                len as int,
            ),
        decreases strong.len() - i,
    {
        let (start, end) = strong[i];
        let ghost before = int_ranges(out@);
        let ghost rest = all.skip(i as int);
        assert(int_ranges(strong@)[i as int] == (start as int, end as int));
        assert(rest[0] == all[i as int]);
        assert(rest.drop_first() =~= all.skip(i + 1));
        let ghost piece = if (cursor as int) < rest[0].0 {
            seq![(cursor as int, rest[0].0)]
        } else {
            Seq::<(int, int)>::empty()
        };
        assert(gaps(rest, cursor as int, len as int) == piece + gaps(
            all.skip(i + 1),
            end as int,
            len as int,
        ));
        if cursor < start {
            out.push((cursor, start));
            assert(int_ranges(out@) =~= before + piece);
        } else {
            assert(int_ranges(out@) =~= before + piece);
        }
        assert(int_ranges(out@) + gaps(all.skip(i + 1), end as int, len as int) =~= before + gaps(
            rest,
            cursor as int,
            len as int,
        ));
        cursor = end;
        i = i + 1;
    }
    assert(all.skip(i as int) =~= Seq::<(int, int)>::empty());
    let ghost before = int_ranges(out@);
    if cursor < len {
        out.push((cursor, len));
        assert(int_ranges(out@) =~= before.push((cursor as int, len as int)));
    } else {
        assert(before + Seq::<(int, int)>::empty() =~= before);
    }
    Some(out)
}

/// `a`, `b` and `c` one after another, as a string.
fn joined3(a: &str, b: &str, c: &str) -> (r: String)
    ensures
        r@ == a@ + b@ + c@,
{
    let ab = concat(&chars_of(a), &chars_of(b));
    string_of(&concat(&ab, &chars_of(c)))
}

impl Modal {
    /// Lays out the modal for a pane of `rows` by `cols`, keeping the scroll position
    /// within the note.
    pub fn render(&mut self, rows: usize, cols: usize) -> (f: Frame)
        ensures
            ({
                let s = old(self)@;
                match s.config {
                    Err(e) => opt_text(f.error) == Some(e) && final(self)@ == s,
                    Ok(_) => {
                        &&& f.error is None
                        &&& f.title@ == title_of(s.tab)
                        &&& f.footer@ == footer_of(s)
                        &&& if shows_note(s) {
                            let all = note_lines(s.content->0, cols as int);
                            let sc = clamped(s.scroll as int, all.len() as int, body_rows(rows as int));
                            let end = if sc + body_rows(rows as int) < all.len() {
                                sc + body_rows(rows as int)
                            } else {
                                all.len() as int
                            };
                            &&& final(self)@ == (ModalState { scroll: sc as usize, ..s })
                            &&& line_views(f.lines@) == all.subrange(sc, end)
                            &&& f.placeholder is None
                        } else {
                            &&& final(self)@ == s
                            &&& f.lines@.len() == 0
                            &&& opt_text(f.placeholder) == Some(placeholder_of(s.tab))
                        }
                    },
                }
            }),
    {
        if let Err(error) = &self.config {
            return Frame {
                error: Some(error.clone()),
                title: String::new(),
                lines: Vec::new(),
                placeholder: None,
                footer: String::new(),
            };
        }
        let title = match &self.tab {
            Some(tab) => joined3(TITLE, TITLE_SEPARATOR, tab.as_str()),
            None => literal(TITLE),
        };
        let body = if rows >= 3 {
            rows - 3
        } else {
            0
        };
        let footer = if self.confirming_delete {
            literal(CONFIRM_DELETE)
        } else {
            match &self.status {
                Some(status) => status.clone(),
                None => literal(HELP),
            }
        };
        if self.has_note() {
            let content = match &self.content {
                Some(c) => c.as_str(),
                None => "",
            };
            let mut lines = wrap(&render(content), cols);
            let ghost all = line_views(lines@);
            let total = lines.len();
            self.scroll = clamp_scroll(self.scroll, total, body);
            let sc = self.scroll;
            let mut visible = lines.split_off(sc);
            assert(line_views(visible@) =~= all.skip(sc as int));
            if body < visible.len() {
                visible.truncate(body);
            }
            assert(line_views(visible@) =~= all.subrange(
                sc as int,
                if sc + body < all.len() {
                    sc + body
                } else {
                    all.len() as int
                },
            ));
            Frame { error: None, title, lines: visible, placeholder: None, footer }
        } else {
            let placeholder = match &self.tab {
                Some(tab) => joined3(NO_NOTE_HEAD, tab.as_str(), NO_NOTE_TAIL),
                None => literal(LOADING),
            };
            Frame { error: None, title, lines: Vec::new(), placeholder: Some(placeholder), footer }
        }
    }
}

} // verus!
