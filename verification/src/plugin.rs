//! What the plugin panes learn from Zellij and what they ask it to do, as plain values.
//! The panes' decisions are functions from their state and an event to the next state
//! and a list of effects; the host runs the effects and feeds back the events.
use vstd::prelude::*;

verus! {

/// The kind of file operation a command was started for; it comes back with the result.
#[derive(Debug, Clone, Copy, PartialEq, Eq, Structural)]
pub enum Op {
    EnsureDir,
    List,
    Read,
    Edit,
    Cleanup,
    Move,
    Delete,
}

/// The keys the modal reacts to.
#[derive(Debug, Clone, Copy, PartialEq, Eq, Structural)]
pub enum Key {
    Esc,
    Char(char),
    Down,
    Up,
    PageDown,
    PageUp,
    Other,
}

/// A tab as Zellij reports it.
#[derive(Debug, Clone)]
pub struct OpenTab {
    pub id: usize,
    pub position: usize,
    pub name: String,
    pub active: bool,
}

/// An event delivered to a pane.
#[derive(Debug)]
pub enum PluginEvent {
    /// The name of the current session, when one is marked current.
    SessionUpdate { current: Option<String> },
    TabUpdate { tabs: Vec<OpenTab> },
    /// A command finished; `stdout` is its output read as UTF-8.
    CommandResult { op: Option<Op>, exit_code: Option<i32>, stdout: String },
    /// An editor pane closed; `tab` is the tab name it was opened for, if recorded.
    EditPaneExited { op: Option<Op>, tab: Option<String> },
    Key(Key),
    PermissionDenied,
    Other,
}

/// Something a pane asks the host to do.
#[derive(Debug, Clone, PartialEq, Eq)]
pub enum Effect {
    /// Create the directory (and its parents).
    EnsureDir { dir: String },
    /// List the non-empty `.md` files directly inside the directory.
    ListNotes { dir: String },
    /// Read the file.
    ReadNote { path: String },
    /// Delete the file if it is empty.
    DeleteIfEmpty { path: String },
    /// Delete the file.
    DeleteNote { path: String },
    /// Rename the file `from` to `to`, never overwriting `to`.
    MoveNote { from: String, to: String },
    /// Rename the tab at the 0-based `position`.
    RenameTab { position: u32, name: String },
    /// Open the file in `$EDITOR` in a floating pane, remembering the tab it is for.
    OpenEditor { path: String, tab: String },
    /// Tell the watcher that the notes changed.
    NotifyWatcher,
    /// Close this pane.
    CloseSelf,
}

/// An effect with its text as character sequences.
pub enum EffectView {
    EnsureDir(Seq<char>),
    ListNotes(Seq<char>),
    ReadNote(Seq<char>),
    DeleteIfEmpty(Seq<char>),
    DeleteNote(Seq<char>),
    MoveNote(Seq<char>, Seq<char>),
    RenameTab(u32, Seq<char>),
    OpenEditor(Seq<char>, Seq<char>),
    NotifyWatcher,
    CloseSelf,
}

impl View for Effect {
    type V = EffectView;

    open spec fn view(&self) -> EffectView {
        match self {
            Effect::EnsureDir { dir } => EffectView::EnsureDir(dir@),
            Effect::ListNotes { dir } => EffectView::ListNotes(dir@),
            Effect::ReadNote { path } => EffectView::ReadNote(path@),
            Effect::DeleteIfEmpty { path } => EffectView::DeleteIfEmpty(path@),
            Effect::DeleteNote { path } => EffectView::DeleteNote(path@),
            Effect::MoveNote { from, to } => EffectView::MoveNote(from@, to@),
            Effect::RenameTab { position, name } => EffectView::RenameTab(*position, name@),
            Effect::OpenEditor { path, tab } => EffectView::OpenEditor(path@, tab@),
            Effect::NotifyWatcher => EffectView::NotifyWatcher,
            Effect::CloseSelf => EffectView::CloseSelf,
        }
    }
}

/// The views of a sequence of effects.
pub open spec fn effect_views(v: Seq<Effect>) -> Seq<EffectView> {
    v.map_values(|e: Effect| e@)
}

/// The text of an optional string.
pub open spec fn opt_text(o: Option<String>) -> Option<Seq<char>> {
    match o {
        Some(s) => Some(s@),
        None => None,
    }
}

/// A copy of an optional string.
pub fn copy_opt(o: &Option<String>) -> (r: Option<String>)
    ensures
        opt_text(r) == opt_text(*o),
{
    match o {
        Some(s) => Some(s.clone()),
        None => None,
    }
}

/// Whether an optional string holds exactly `s`.
pub fn holds(o: &Option<String>, s: &String) -> (b: bool)
    ensures
        b == (opt_text(*o) == Some(s@)),
{
    match o {
        Some(x) => *x == *s,
        None => false,
    }
}

} // verus!
