//! Keeping tab names in sync with the set of tabs that have notes.
use crate::icon::{decorate, decorated, strip_icon, stripped};
use crate::notes::NoteSet;
use std::collections::BTreeMap;
use vstd::prelude::*;

verus! {

#[derive(Debug, Clone, PartialEq, Eq)]
pub struct TabView {
    pub id: usize,
    pub position: usize,
    pub name: String,
}

/// A tab as id, position and name text.
pub struct TabText {
    pub id: usize,
    pub position: usize,
    pub name: Seq<char>,
}

/// The text of a tab.
pub open spec fn tab_text(t: TabView) -> TabText {
    TabText { id: t.id, position: t.position, name: t.name@ }
}

/// The texts of a sequence of tabs.
pub open spec fn tab_texts(v: Seq<TabView>) -> Seq<TabText> {
    v.map_values(|t: TabView| tab_text(t))
}

#[derive(Debug, Clone, PartialEq, Eq)]
pub enum Action {
    /// Rename tab at `position` so its name matches whether it has a note.
    RenameTab { position: u32, name: String },
    /// Move a note file because its tab was renamed. Both values are clean tab names.
    MoveNote { from: String, to: String },
}

/// An action with its names as text.
pub enum ActionView {
    RenameTab { position: u32, name: Seq<char> },
    MoveNote { from: Seq<char>, to: Seq<char> },
}

impl View for Action {
    type V = ActionView;

    open spec fn view(&self) -> ActionView {
        match self {
            Action::RenameTab { position, name } => ActionView::RenameTab {
                position: *position,
                name: name@,
            },
            Action::MoveNote { from, to } => ActionView::MoveNote { from: from@, to: to@ },
        }
    }
}

/// The views of a sequence of actions.
pub open spec fn action_views(v: Seq<Action>) -> Seq<ActionView> {
    v.map_values(|a: Action| a@)
}

/// What a pass over the tabs carries from one tab to the next.
pub struct PassState {
    /// Tab id to the last clean name seen for it.
    pub known: Map<usize, Seq<char>>,
    /// The clean names that have a note.
    pub notes: Set<Seq<char>>,
    pub actions: Seq<ActionView>,
}

/// Handles one tab: a tab whose clean name changed since it was last seen carries its
/// note along when the old name has one and the new name has none; then the tab is
/// renamed when its shown name is not the decoration its clean name calls for.
pub open spec fn step(icon: Seq<char>, st: PassState, tab: TabText) -> PassState {
    let clean = stripped(tab.name, icon);
    let moves = st.known.contains_key(tab.id) && st.known[tab.id] != clean && st.notes.contains(
        st.known[tab.id],
    ) && !st.notes.contains(clean);
    let notes = if moves {
        st.notes.remove(st.known[tab.id]).insert(clean)
    } else {
        st.notes
    };
    let moved = if moves {
        st.actions.push(ActionView::MoveNote { from: st.known[tab.id], to: clean })
    } else {
        st.actions
    };
    let expected = decorated(clean, icon, notes.contains(clean));
    let actions = if expected != tab.name {
        moved.push(ActionView::RenameTab { position: tab.position as u32, name: expected })
    } else {
        moved
    };
    PassState { known: st.known.insert(tab.id, clean), notes, actions }
}

/// The state after handling `tabs` in order.
pub open spec fn pass(icon: Seq<char>, st: PassState, tabs: Seq<TabText>) -> PassState
    decreases tabs.len(),
{
    if tabs.len() == 0 {
        st
    } else {
        step(icon, pass(icon, st, tabs.drop_last()), tabs.last())
    }
}

/// The ids of the open tabs.
pub open spec fn tab_ids(tabs: Seq<TabText>) -> Set<usize> {
    Set::new(|id: usize| exists|i: int| 0 <= i < tabs.len() && tabs[i].id == id)
}

/// What `reconcile` leaves: the names remembered for the open tabs only, the note set,
/// and the actions, in order.
pub open spec fn reconciled(
    icon: Seq<char>,
    known: Map<usize, Seq<char>>,
    notes: Set<Seq<char>>,
    tabs: Seq<TabText>,
) -> (Map<usize, Seq<char>>, Set<Seq<char>>, Seq<ActionView>) {
    let end = pass(icon, PassState { known, notes, actions: Seq::empty() }, tabs);
    (end.known.restrict(tab_ids(tabs)), end.notes, end.actions)
}

/// Keeps tab names in sync with the set of tabs that have notes.
///
/// `reconcile` is idempotent: feeding it a settled state produces no actions, which is
/// what stops `rename_tab` from re-triggering itself through the resulting `TabUpdate`.
pub struct Reconciler {
    icon: String,
    /// tab id -> last seen clean name. The id is stable across MoveTab and across the
    /// closing of other tabs, which is what makes rename detection trustworthy.
    known: BTreeMap<usize, String>,
}

impl Reconciler {
    /// The icon that marks a tab with a note.
    pub closed spec fn icon(&self) -> Seq<char> {
        self.icon@
    }

    /// The clean name last seen for each tab id.
    pub closed spec fn known(&self) -> Map<usize, Seq<char>> {
        self.known@.map_values(|s: String| s@)
    }

    pub fn new(icon: &str) -> (r: Self)
        ensures
            r.icon() == icon@,
            r.known() == Map::<usize, Seq<char>>::empty(),
    {
        let r = Reconciler { icon: icon.to_owned(), known: BTreeMap::new() };
        assert(r.known() =~= Map::<usize, Seq<char>>::empty());
        r
    }

    pub fn reconcile(&mut self, tabs: &[TabView], notes: &mut NoteSet) -> (actions: Vec<Action>)
        ensures
            ({
                let r = reconciled(old(self).icon(), old(self).known(), old(notes)@, tab_texts(tabs@));
                &&& final(self).icon() == old(self).icon()
                &&& final(self).known() == r.0
                &&& final(notes)@ == r.1
                &&& action_views(actions@) == r.2
            }),
    {
        let ghost icon = self.icon@;
        let ghost tt = tab_texts(tabs@);
        let ghost st0 = PassState {
            known: self.known(),
            notes: notes@,
            actions: Seq::empty(),
        };
        let mut actions: Vec<Action> = Vec::new();
        let mut i: usize = 0;
        assert(tt.take(0) =~= Seq::<TabText>::empty());
        assert(action_views(actions@) =~= Seq::<ActionView>::empty());
        while i < tabs.len()
            invariant
                i <= tt.len(),
                tt == tab_texts(tabs@),
                tabs@.len() == tt.len(),
                self.icon@ == icon,
                ({
                    let st = pass(icon, st0, tt.take(i as int));
                    &&& self.known() == st.known
                    &&& notes@ == st.notes
                    &&& action_views(actions@) == st.actions
                }),
            decreases tabs.len() - i,
        {
            let tab = &tabs[i];
            let ghost st = pass(icon, st0, tt.take(i as int));
            assert(tt.take(i + 1).drop_last() =~= tt.take(i as int));
            assert(tt.take(i + 1).last() == tab_text(*tab));
            let clean = strip_icon(tab.name.as_str(), self.icon.as_str()).to_owned();
            let ghost c = clean@;
            let ghost moves = st.known.contains_key(tab.id) && st.known[tab.id] != c
                && st.notes.contains(st.known[tab.id]) && !st.notes.contains(c);
            let ghost acts0 = action_views(actions@);
            match self.known.get(&tab.id) {
                Some(previous) => {
                    let previous = previous.clone();
                    assert(previous@ == st.known[tab.id]);
                    if !(previous == clean) && notes.contains(previous.as_str())
                        && !notes.contains(clean.as_str()) {
                        notes.remove(previous.as_str());
                        notes.insert(clean.clone());
                        actions.push(Action::MoveNote { from: previous, to: clean.clone() });
                        assert(action_views(actions@) =~= acts0.push(
                            ActionView::MoveNote { from: st.known[tab.id], to: c },
                        ));
                    } else {
                        assert(!moves);
                    }
                },
                None => {
                    assert(!moves);
                },
            }
            let ghost moved = action_views(actions@);
            let ghost known_before = self.known@;
            self.known.insert(tab.id, clean.clone());
            assert(self.known() =~= st.known.insert(tab.id, c)) by {
                assert(self.known@ == known_before.insert(tab.id, clean));
            }
            let has = notes.contains(clean.as_str());
            let expected = decorate(clean.as_str(), self.icon.as_str(), has);
            if !(expected == tab.name) {
                let ghost e = expected@;
                actions.push(Action::RenameTab { position: tab.position as u32, name: expected });
                assert(action_views(actions@) =~= moved.push(
                    ActionView::RenameTab { position: tab.position as u32, name: e },
                ));
            }
            i = i + 1;
        }
        assert(tt.take(tt.len() as int) =~= tt);
        let ghost end_known = self.known();
        let mut kept: BTreeMap<usize, String> = BTreeMap::new();
        let mut j: usize = 0;
        while j < tabs.len()
            invariant
                j <= tt.len(),
                tt == tab_texts(tabs@),
                tabs@.len() == tt.len(),
                self.known() == end_known,
                kept@.map_values(|s: String| s@) == end_known.restrict(
                    tab_ids(tt.take(j as int)),
                ),
            decreases tabs.len() - j,
        {
            let id = tabs[j].id;
            let ghost before = kept@;
            match self.known.get(&id) {
                Some(v) => {
                    let vc = v.clone();
                    assert(vc@ == end_known[id]);
                    kept.insert(id, vc);
                    assert(kept@.map_values(|s: String| s@) =~= before.map_values(|s: String| s@).insert(
                        id,
                        end_known[id],
                    ));
                },
                None => {
                    assert(!end_known.contains_key(id));
                },
            }
            proof {
                let t0 = tt.take(j as int);
                let t1 = tt.take(j + 1);
                assert forall|x: usize| tab_ids(t1).contains(x) <==> (tab_ids(t0).contains(x)
                    || x == id) by {
                    if tab_ids(t1).contains(x) {
                        let w = choose|w: int| 0 <= w < t1.len() && #[trigger] t1[w].id == x;
                        if w < j {
                            assert(t0[w] == t1[w]);
                        }
                    }
                    if tab_ids(t0).contains(x) {
                        let w = choose|w: int| 0 <= w < t0.len() && #[trigger] t0[w].id == x;
                        assert(t1[w] == t0[w]);
                    }
                    if x == id {
                        assert(t1[j as int].id == x);
                    }
                }
                assert(kept@.map_values(|s: String| s@) =~= end_known.restrict(tab_ids(t1)));
            }
            j = j + 1;
        }
        assert(tt.take(tt.len() as int) =~= tt);
        self.known = kept;
        actions
    }
}

/// Every tab already shows the decoration its clean name calls for, and its clean name
/// is the one remembered for its id.
pub open spec fn settled(
    icon: Seq<char>,
    known: Map<usize, Seq<char>>,
    notes: Set<Seq<char>>,
    tabs: Seq<TabText>,
) -> bool {
    forall|i: int|
        0 <= i < tabs.len() ==> {
            let c = stripped((#[trigger] tabs[i]).name, icon);
            &&& known.contains_key(tabs[i].id)
            &&& known[tabs[i].id] == c
            &&& tabs[i].name == decorated(c, icon, notes.contains(c))
        }
}

/// No two tabs share an id.
pub open spec fn distinct_ids(tabs: Seq<TabText>) -> bool {
    forall|i: int, j: int| 0 <= i < j < tabs.len() ==> #[trigger] tabs[i].id != #[trigger] tabs[j].id
}

proof fn lemma_settled_pass(icon: Seq<char>, st: PassState, tabs: Seq<TabText>)
    requires
        settled(icon, st.known, st.notes, tabs),
    ensures
        pass(icon, st, tabs) == st,
    decreases tabs.len(),
{
    if tabs.len() > 0 {
        let front = tabs.drop_last();
        assert(settled(icon, st.known, st.notes, front)) by {
            assert forall|i: int| 0 <= i < front.len() implies {
                let c = stripped((#[trigger] front[i]).name, icon);
                &&& st.known.contains_key(front[i].id)
                &&& st.known[front[i].id] == c
                &&& front[i].name == decorated(c, icon, st.notes.contains(c))
            } by {
                assert(front[i] == tabs[i]);
            }
        }
        lemma_settled_pass(icon, st, front);
        let t = tabs.last();
        assert(t == tabs[tabs.len() - 1]);
        let c = stripped(t.name, icon);
        assert(st.known.insert(t.id, c) =~= st.known);
    }
}

/// `reconcile` is idempotent: fed a settled state it asks for nothing, leaves the notes
/// alone and only forgets the tabs that are gone.
pub proof fn lemma_settled_state_is_left_alone(
    icon: Seq<char>,
    known: Map<usize, Seq<char>>,
    notes: Set<Seq<char>>,
    tabs: Seq<TabText>,
)
    requires
        settled(icon, known, notes, tabs),
    ensures
        reconciled(icon, known, notes, tabs) == (
            known.restrict(tab_ids(tabs)),
            notes,
            Seq::<ActionView>::empty(),
        ),
{
    lemma_settled_pass(icon, PassState { known, notes, actions: Seq::empty() }, tabs);
}

/// After a pass over tabs with distinct ids, each tab's id is remembered with its clean
/// name, and exactly the ids of the tabs seen are added to what was remembered.
proof fn lemma_pass_known(icon: Seq<char>, st: PassState, tabs: Seq<TabText>)
    requires
        distinct_ids(tabs),
    ensures
        forall|i: int|
            0 <= i < tabs.len() ==> #[trigger] pass(icon, st, tabs).known.contains_key(tabs[i].id)
                && pass(icon, st, tabs).known[tabs[i].id] == stripped(tabs[i].name, icon),
        pass(icon, st, tabs).known.dom() == st.known.dom() + tab_ids(tabs),
    decreases tabs.len(),
{
    if tabs.len() > 0 {
        let front = tabs.drop_last();
        assert(distinct_ids(front)) by {
            assert forall|i: int, j: int| 0 <= i < j < front.len() implies #[trigger] front[i].id
                != #[trigger] front[j].id by {
                assert(front[i] == tabs[i] && front[j] == tabs[j]);
            }
        }
        lemma_pass_known(icon, st, front);
        let n = tabs.len() - 1;
        let t = tabs[n];
        assert(t == tabs.last());
        let k = pass(icon, st, tabs).known;
        assert forall|i: int| 0 <= i < tabs.len() implies #[trigger] k.contains_key(tabs[i].id)
            && k[tabs[i].id] == stripped(tabs[i].name, icon) by {
            if i < n {
                assert(front[i] == tabs[i]);
                assert(tabs[i].id != tabs[n].id);
            }
        }
        assert forall|x: usize| tab_ids(tabs).contains(x) <==> (tab_ids(front).contains(x) || x
            == t.id) by {
            if tab_ids(tabs).contains(x) {
                let w = choose|w: int| 0 <= w < tabs.len() && #[trigger] tabs[w].id == x;
                if w < n {
                    assert(front[w] == tabs[w]);
                }
            }
            if tab_ids(front).contains(x) {
                let w = choose|w: int| 0 <= w < front.len() && #[trigger] front[w].id == x;
                assert(tabs[w] == front[w]);
            }
        }
        assert(k.dom() =~= st.known.dom() + tab_ids(tabs));
    }
}

/// After `reconcile`, exactly the open tabs are remembered, each (when ids are distinct)
/// with its current clean name: closed tabs are forgotten.
pub proof fn lemma_reconcile_remembers_open_tabs(
    icon: Seq<char>,
    known: Map<usize, Seq<char>>,
    notes: Set<Seq<char>>,
    tabs: Seq<TabText>,
)
    requires
        distinct_ids(tabs),
    ensures
        ({
            let r = reconciled(icon, known, notes, tabs);
            &&& r.0.dom() == tab_ids(tabs)
            &&& forall|i: int|
                0 <= i < tabs.len() ==> #[trigger] r.0[tabs[i].id] == stripped(tabs[i].name, icon)
        }),
{
    let st = PassState { known, notes, actions: Seq::empty() };
    lemma_pass_known(icon, st, tabs);
    let r = reconciled(icon, known, notes, tabs);
    let end = pass(icon, st, tabs);
    assert(r.0.dom() =~= tab_ids(tabs));
    assert forall|i: int| 0 <= i < tabs.len() implies #[trigger] r.0[tabs[i].id] == stripped(
        tabs[i].name,
        icon,
    ) by {
        assert(tab_ids(tabs).contains(tabs[i].id));
        assert(end.known.contains_key(tabs[i].id));
    }
}

/// Each tab renamed to the decoration its clean name calls for under `notes`.
pub open spec fn renamed_tabs(icon: Seq<char>, notes: Set<Seq<char>>, tabs: Seq<TabText>) -> Seq<
    TabText,
> {
    tabs.map_values(
        |t: TabText|
            TabText {
                id: t.id,
                position: t.position,
                name: decorated(stripped(t.name, icon), icon, notes.contains(stripped(t.name, icon))),
            },
    )
}

/// One pass settles the tabs: once every tab shows the decoration its clean name calls
/// for under the resulting notes, the next pass asks for nothing and changes nothing.
/// This holds when tab ids are distinct and stripping the icon from each decoration
/// gives back the clean name (which it always does for a tab with a note, and for one
/// without whenever its clean name does not itself begin with the icon).
pub proof fn lemma_pass_then_renames_is_settled(
    icon: Seq<char>,
    known: Map<usize, Seq<char>>,
    notes: Set<Seq<char>>,
    tabs: Seq<TabText>,
)
    requires
        distinct_ids(tabs),
        forall|i: int|
            0 <= i < tabs.len() ==> {
                let c = stripped((#[trigger] tabs[i]).name, icon);
                stripped(
                    decorated(c, icon, reconciled(icon, known, notes, tabs).1.contains(c)),
                    icon,
                ) == c
            },
    ensures
        ({
            let r = reconciled(icon, known, notes, tabs);
            reconciled(icon, r.0, r.1, renamed_tabs(icon, r.1, tabs)) == (
                r.0,
                r.1,
                Seq::<ActionView>::empty(),
            )
        }),
{
    let r = reconciled(icon, known, notes, tabs);
    let renamed = renamed_tabs(icon, r.1, tabs);
    lemma_reconcile_remembers_open_tabs(icon, known, notes, tabs);
    assert forall|i: int| 0 <= i < renamed.len() implies {
        let c = stripped((#[trigger] renamed[i]).name, icon);
        &&& r.0.contains_key(renamed[i].id)
        &&& r.0[renamed[i].id] == c
        &&& renamed[i].name == decorated(c, icon, r.1.contains(c))
    } by {
        let c = stripped(tabs[i].name, icon);
        assert(tab_ids(tabs).contains(tabs[i].id));
        assert(renamed[i].id == tabs[i].id);
        assert(r.0[tabs[i].id] == c);
    }
    lemma_settled_state_is_left_alone(icon, r.0, r.1, renamed);
    assert(tab_ids(renamed) =~= tab_ids(tabs)) by {
        assert forall|x: usize| tab_ids(renamed).contains(x) <==> tab_ids(tabs).contains(x) by {
            if tab_ids(renamed).contains(x) {
                let w = choose|w: int| 0 <= w < renamed.len() && #[trigger] renamed[w].id == x;
                assert(renamed[w].id == tabs[w].id);
            }
            if tab_ids(tabs).contains(x) {
                let w = choose|w: int| 0 <= w < tabs.len() && #[trigger] tabs[w].id == x;
                assert(renamed[w].id == tabs[w].id);
            }
        }
    }
    assert(r.0.restrict(tab_ids(renamed)) =~= r.0);
}

proof fn lemma_pass_keeps_note_count(icon: Seq<char>, st: PassState, tabs: Seq<TabText>)
    requires
        st.notes.finite(),
    ensures
        pass(icon, st, tabs).notes.finite(),
        pass(icon, st, tabs).notes.len() == st.notes.len(),
    decreases tabs.len(),
{
    if tabs.len() > 0 {
        lemma_pass_keeps_note_count(icon, st, tabs.drop_last());
        let p = pass(icon, st, tabs.drop_last());
        let t = tabs.last();
        let c = stripped(t.name, icon);
        if p.known.contains_key(t.id) && p.known[t.id] != c && p.notes.contains(p.known[t.id])
            && !p.notes.contains(c) {
            let removed = p.notes.remove(p.known[t.id]);
            assert(removed.len() == p.notes.len() - 1);
            assert(!removed.contains(c));
        }
    }
}

/// A note is never lost: moving a note only ever goes to a name without one, so
/// `reconcile` leaves exactly as many notes as it found.
pub proof fn lemma_reconcile_keeps_every_note(
    icon: Seq<char>,
    known: Map<usize, Seq<char>>,
    notes: Set<Seq<char>>,
    tabs: Seq<TabText>,
)
    requires
        notes.finite(),
    ensures
        reconciled(icon, known, notes, tabs).1.finite(),
        reconciled(icon, known, notes, tabs).1.len() == notes.len(),
{
    lemma_pass_keeps_note_count(icon, PassState { known, notes, actions: Seq::empty() }, tabs);
}

/// The clean name of a tab.
pub open spec fn clean_of(icon: Seq<char>, t: TabText) -> Seq<char> {
    stripped(t.name, icon)
}

/// The decoration that a tab's clean name calls for under `notes`.
pub open spec fn expected_name(icon: Seq<char>, notes: Set<Seq<char>>, t: TabText) -> Seq<char> {
    decorated(clean_of(icon, t), icon, notes.contains(clean_of(icon, t)))
}

/// The tab does not yet show the decoration its clean name calls for.
pub open spec fn needs_rename(icon: Seq<char>, notes: Set<Seq<char>>, t: TabText) -> bool {
    expected_name(icon, notes, t) != t.name
}

/// The rename that gives a tab the decoration its clean name calls for.
pub open spec fn rename_of(icon: Seq<char>, notes: Set<Seq<char>>, t: TabText) -> ActionView {
    ActionView::RenameTab { position: t.position as u32, name: expected_name(icon, notes, t) }
}

/// In tab order, a rename for each tab that does not yet show its decoration.
pub open spec fn renames(icon: Seq<char>, notes: Set<Seq<char>>, tabs: Seq<TabText>) -> Seq<
    ActionView,
> {
    tabs.filter(|t: TabText| needs_rename(icon, notes, t)).map_values(
        |t: TabText| rename_of(icon, notes, t),
    )
}

/// A pass leaves the name remembered for every id that none of its tabs has.
proof fn lemma_pass_other_ids(icon: Seq<char>, st: PassState, tabs: Seq<TabText>)
    ensures
        forall|id: usize|
            !tab_ids(tabs).contains(id) ==> (#[trigger] pass(icon, st, tabs).known.contains_key(id)
                == st.known.contains_key(id) && (st.known.contains_key(id) ==> pass(
                icon,
                st,
                tabs,
            ).known[id] == st.known[id])),
    decreases tabs.len(),
{
    if tabs.len() > 0 {
        let front = tabs.drop_last();
        lemma_pass_other_ids(icon, st, front);
        assert forall|id: usize| !tab_ids(tabs).contains(id) implies !tab_ids(front).contains(id)
            && id != tabs.last().id by {
            if tab_ids(front).contains(id) {
                let w = choose|w: int| 0 <= w < front.len() && #[trigger] front[w].id == id;
                assert(tabs[w] == front[w]);
            }
            assert(tabs[tabs.len() - 1] == tabs.last());
        }
        let p = pass(icon, st, tabs);
        assert forall|id: usize| !tab_ids(tabs).contains(id) implies (
        #[trigger] p.known.contains_key(id) == st.known.contains_key(id) && (
        st.known.contains_key(id) ==> p.known[id] == st.known[id])) by {
            assert(!tab_ids(front).contains(id) && id != tabs.last().id);
            let q = pass(icon, st, front);
            assert(q.known.contains_key(id) == st.known.contains_key(id));
            assert(p.known == q.known.insert(tabs.last().id, stripped(tabs.last().name, icon)));
        }
    }
}

/// Every tab whose id is already remembered is remembered with its current clean name.
pub open spec fn same_names(icon: Seq<char>, known: Map<usize, Seq<char>>, tabs: Seq<TabText>) -> bool {
    forall|i: int|
        0 <= i < tabs.len() && known.contains_key(#[trigger] tabs[i].id) ==> known[tabs[i].id]
            == clean_of(icon, tabs[i])
}

/// Over tabs with distinct ids none of which was remembered under another clean name, a
/// pass moves no note and asks, in tab order, for the renames its tabs need.
proof fn lemma_pass_without_moves(icon: Seq<char>, st: PassState, tabs: Seq<TabText>)
    requires
        distinct_ids(tabs),
        same_names(icon, st.known, tabs),
    ensures
        pass(icon, st, tabs).notes == st.notes,
        pass(icon, st, tabs).actions == st.actions + renames(icon, st.notes, tabs),
    decreases tabs.len(),
{
    reveal(Seq::filter);
    if tabs.len() == 0 {
        assert(st.actions + renames(icon, st.notes, tabs) =~= st.actions);
    } else {
        let front = tabs.drop_last();
        let n = tabs.len() - 1;
        let t = tabs.last();
        assert(t == tabs[n]);
        assert(distinct_ids(front)) by {
            assert forall|i: int, j: int| 0 <= i < j < front.len() implies #[trigger] front[i].id
                != #[trigger] front[j].id by {
                assert(front[i] == tabs[i] && front[j] == tabs[j]);
            }
        }
        assert(same_names(icon, st.known, front)) by {
            assert forall|i: int| 0 <= i < front.len() && st.known.contains_key(
                #[trigger] front[i].id,
            ) implies st.known[front[i].id] == clean_of(icon, front[i]) by {
                assert(front[i] == tabs[i]);
            }
        }
        lemma_pass_without_moves(icon, st, front);
        lemma_pass_other_ids(icon, st, front);
        assert(!tab_ids(front).contains(t.id)) by {
            if tab_ids(front).contains(t.id) {
                let w = choose|w: int| 0 <= w < front.len() && #[trigger] front[w].id == t.id;
                assert(front[w] == tabs[w]);
            }
        }
        let p = pass(icon, st, front);
        let pred = |x: TabText| needs_rename(icon, st.notes, x);
        let f = |x: TabText| rename_of(icon, st.notes, x);
        let fl = front.filter(pred);
        assert(tabs.filter(pred) == if pred(t) {
            fl.push(t)
        } else {
            fl
        });
        if pred(t) {
            assert(fl.push(t).map_values(f) =~= fl.map_values(f).push(f(t)));
            assert(p.actions.push(f(t)) =~= st.actions + renames(icon, st.notes, tabs));
        }
    }
}

/// The first `reconcile` of a fresh reconciler, over tabs with distinct ids, moves no
/// note, leaves the notes as they are, and renames, in tab order, exactly the tabs that
/// do not show the decoration their clean name calls for.
pub proof fn lemma_first_reconcile_only_renames(
    icon: Seq<char>,
    notes: Set<Seq<char>>,
    tabs: Seq<TabText>,
)
    requires
        distinct_ids(tabs),
    ensures
        reconciled(icon, Map::empty(), notes, tabs).1 == notes,
        reconciled(icon, Map::empty(), notes, tabs).2 == renames(icon, notes, tabs),
{
    let st = PassState { known: Map::empty(), notes, actions: Seq::empty() };
    lemma_pass_without_moves(icon, st, tabs);
    assert(st.actions + renames(icon, notes, tabs) =~= renames(icon, notes, tabs));
}

/// Where every tab already shows its decoration, no tab is renamed.
proof fn lemma_no_renames(icon: Seq<char>, notes: Set<Seq<char>>, tabs: Seq<TabText>)
    requires
        forall|i: int| 0 <= i < tabs.len() ==> !needs_rename(icon, notes, #[trigger] tabs[i]),
    ensures
        tabs.filter(|t: TabText| needs_rename(icon, notes, t)).len() == 0,
    decreases tabs.len(),
{
    reveal(Seq::filter);
    if tabs.len() > 0 {
        let front = tabs.drop_last();
        assert forall|i: int| 0 <= i < front.len() implies !needs_rename(
            icon,
            notes,
            #[trigger] front[i],
        ) by {
            assert(front[i] == tabs[i]);
        }
        lemma_no_renames(icon, notes, front);
        assert(tabs.last() == tabs[tabs.len() - 1]);
    }
}

/// `reconcile` is idempotent also for tabs it sees for the first time: when ids are
/// distinct, every tab already shows the decoration its clean name calls for, and each
/// remembered id is remembered with its current clean name, it asks for nothing and
/// leaves the notes alone.
pub proof fn lemma_decorated_tabs_are_left_alone(
    icon: Seq<char>,
    known: Map<usize, Seq<char>>,
    notes: Set<Seq<char>>,
    tabs: Seq<TabText>,
)
    requires
        distinct_ids(tabs),
        same_names(icon, known, tabs),
        forall|i: int| 0 <= i < tabs.len() ==> !needs_rename(icon, notes, #[trigger] tabs[i]),
    ensures
        reconciled(icon, known, notes, tabs).1 == notes,
        reconciled(icon, known, notes, tabs).2 == Seq::<ActionView>::empty(),
{
    let st = PassState { known, notes, actions: Seq::empty() };
    lemma_pass_without_moves(icon, st, tabs);
    lemma_no_renames(icon, notes, tabs);
    assert(renames(icon, notes, tabs) =~= Seq::<ActionView>::empty());
    assert(st.actions + renames(icon, notes, tabs) =~= Seq::<ActionView>::empty());
}

/// `notes` with the note moves among `actions` applied in order: each moves its note
/// from the old clean name to the new one; renames leave the notes alone.
pub open spec fn moved_notes(notes: Set<Seq<char>>, actions: Seq<ActionView>) -> Set<Seq<char>>
    decreases actions.len(),
{
    if actions.len() == 0 {
        notes
    } else {
        let before = moved_notes(notes, actions.drop_last());
        match actions.last() {
            ActionView::MoveNote { from, to } => before.remove(from).insert(to),
            ActionView::RenameTab { .. } => before,
        }
    }
}

/// The action at `k`, when it moves a note, moves it between two different names, from
/// one that has a note to one that has none once the earlier actions are applied, and
/// does so for a tab that was remembered under the old name and now has the new one as
/// its clean name.
pub open spec fn move_ok(
    icon: Seq<char>,
    known: Map<usize, Seq<char>>,
    notes: Set<Seq<char>>,
    tabs: Seq<TabText>,
    actions: Seq<ActionView>,
    k: int,
) -> bool {
    match actions[k] {
        ActionView::MoveNote { from, to } => {
            let before = moved_notes(notes, actions.take(k));
            &&& from != to
            &&& before.contains(from)
            &&& !before.contains(to)
            &&& exists|i: int|
                0 <= i < tabs.len() && to == clean_of(icon, #[trigger] tabs[i])
                    && known.contains_key(tabs[i].id) && known[tabs[i].id] == from
        },
        ActionView::RenameTab { .. } => true,
    }
}

proof fn lemma_pass_moves(icon: Seq<char>, st: PassState, tabs: Seq<TabText>)
    requires
        distinct_ids(tabs),
        st.actions.len() == 0,
    ensures
        pass(icon, st, tabs).notes == moved_notes(st.notes, pass(icon, st, tabs).actions),
        forall|k: int|
            0 <= k < pass(icon, st, tabs).actions.len() ==> #[trigger] move_ok(
                icon,
                st.known,
                st.notes,
                tabs,
                pass(icon, st, tabs).actions,
                k,
            ),
    decreases tabs.len(),
{
    if tabs.len() > 0 {
        let front = tabs.drop_last();
        let n = tabs.len() - 1;
        let t = tabs.last();
        assert(t == tabs[n]);
        assert(distinct_ids(front)) by {
            assert forall|i: int, j: int| 0 <= i < j < front.len() implies #[trigger] front[i].id
                != #[trigger] front[j].id by {
                assert(front[i] == tabs[i] && front[j] == tabs[j]);
            }
        }
        lemma_pass_moves(icon, st, front);
        lemma_pass_other_ids(icon, st, front);
        assert(!tab_ids(front).contains(t.id)) by {
            if tab_ids(front).contains(t.id) {
                let w = choose|w: int| 0 <= w < front.len() && #[trigger] front[w].id == t.id;
                assert(front[w] == tabs[w]);
            }
        }
        let p = pass(icon, st, front);
        let e = pass(icon, st, tabs);
        let c = stripped(t.name, icon);
        let moves = p.known.contains_key(t.id) && p.known[t.id] != c && p.notes.contains(
            p.known[t.id],
        ) && !p.notes.contains(c);
        let moved = if moves {
            p.actions.push(ActionView::MoveNote { from: p.known[t.id], to: c })
        } else {
            p.actions
        };
        assert(moved_notes(st.notes, moved) == e.notes) by {
            if moves {
                assert(moved.drop_last() =~= p.actions);
            }
        }
        assert(moved_notes(st.notes, e.actions) == e.notes) by {
            if e.actions != moved {
                assert(e.actions.drop_last() =~= moved);
            }
        }
        assert(e.actions.len() >= p.actions.len());
        assert forall|k: int| 0 <= k < e.actions.len() implies #[trigger] move_ok(
            icon,
            st.known,
            st.notes,
            tabs,
            e.actions,
            k,
        ) by {
            if k < p.actions.len() {
                assert(e.actions[k] == p.actions[k]);
                assert(e.actions.take(k) =~= p.actions.take(k));
                assert(move_ok(icon, st.known, st.notes, front, p.actions, k));
                if let ActionView::MoveNote { from, to } = p.actions[k] {
                    let i = choose|i: int|
                        0 <= i < front.len() && to == clean_of(icon, #[trigger] front[i])
                            && st.known.contains_key(front[i].id) && st.known[front[i].id] == from;
                    assert(front[i] == tabs[i]);
                }
            } else if k == p.actions.len() && moves {
                assert(e.actions[k] == moved[k]);
                assert(e.actions.take(k) =~= p.actions);
                assert(p.known.contains_key(t.id));
                assert(st.known.contains_key(t.id) && st.known[t.id] == p.known[t.id]);
                assert(clean_of(icon, tabs[n]) == c);
            } else {
                assert(e.actions[k] is RenameTab);
            }
        }
    }
}

/// What `reconcile` does to the notes, over tabs with distinct ids: the notes it leaves
/// are the ones it found with its note moves applied in order, and each move goes from
/// the clean name that a tab was remembered under to that tab's new clean name, taking
/// a note that exists to a name that has none, so that no note is overwritten.
pub proof fn lemma_reconcile_only_moves_notes(
    icon: Seq<char>,
    known: Map<usize, Seq<char>>,
    notes: Set<Seq<char>>,
    tabs: Seq<TabText>,
)
    requires
        distinct_ids(tabs),
    ensures
        ({
            let r = reconciled(icon, known, notes, tabs);
            &&& r.1 == moved_notes(notes, r.2)
            &&& forall|k: int| 0 <= k < r.2.len() ==> #[trigger] move_ok(icon, known, notes, tabs, r.2, k)
        }),
{
    let st = PassState { known, notes, actions: Seq::empty() };
    lemma_pass_moves(icon, st, tabs);
    let r = reconciled(icon, known, notes, tabs);
    assert(r.2 == pass(icon, st, tabs).actions);
    assert forall|k: int| 0 <= k < r.2.len() implies #[trigger] move_ok(icon, known, notes, tabs, r.2, k) by {
        assert(move_ok(icon, st.known, st.notes, tabs, pass(icon, st, tabs).actions, k));
    }
}

} // verus!
