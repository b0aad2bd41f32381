//! When the modal should grow back after being minimised.
//!
//! Minimising leaves the pane focused (the user just pressed a key in it), so "expand
//! as soon as we are focused" would undo the minimise on the very next update. The modal
//! must first see focus leave, and only then treat regaining it as the request to
//! expand.
use vstd::prelude::*;

verus! {

#[derive(Debug, Clone, Copy, PartialEq, Eq, Structural)]
pub enum Size {
    Expanded,
    Minimized { seen_unfocused: bool },
}

/// The next state and whether to expand now, on learning whether the pane is focused.
pub open spec fn focus_step(s: Size, is_focused: bool) -> (Size, bool) {
    match s {
        Size::Expanded => (Size::Expanded, false),
        Size::Minimized { seen_unfocused } => {
            if !is_focused {
                (Size::Minimized { seen_unfocused: true }, false)
            } else if seen_unfocused {
                (Size::Expanded, true)
            } else {
                (s, false)
            }
        },
    }
}

/// The state after a sequence of focus observations, and at which steps it expanded.
pub open spec fn focus_run(s: Size, focus: Seq<bool>) -> (Size, Seq<bool>)
    decreases focus.len(),
{
    if focus.len() == 0 {
        (s, Seq::<bool>::empty())
    } else {
        let (prev, expands) = focus_run(s, focus.drop_last());
        let (next, expand) = focus_step(prev, focus.last());
        (next, expands.push(expand))
    }
}

impl Size {
    /// The state right after minimising: focus has not been seen to leave yet.
    pub fn minimized() -> (s: Self)
        ensures
            s == (Size::Minimized { seen_unfocused: false }),
    {
        Size::Minimized { seen_unfocused: false }
    }

    pub fn is_minimized(self) -> (b: bool)
        ensures
            b == (self is Minimized),
    {
        match self {
            Size::Minimized { .. } => true,
            Size::Expanded => false,
        }
    }

    /// Feeds in whether the modal's own pane is currently focused.
    ///
    /// Returns the next state and whether the caller should expand the pane now.
    pub fn on_focus(self, is_focused: bool) -> (r: (Self, bool))
        ensures
            r == focus_step(self, is_focused),
    {
        match self {
            Size::Expanded => (self, false),
            Size::Minimized { seen_unfocused } => {
                if !is_focused {
                    (Size::Minimized { seen_unfocused: true }, false)
                } else if seen_unfocused {
                    (Size::Expanded, true)
                } else {
                    (self, false)
                }
            },
        }
    }
}

/// An expanded modal stays expanded and never asks to expand, whatever focus does.
pub proof fn lemma_expanded_is_settled(focus: Seq<bool>)
    ensures
        focus_run(Size::Expanded, focus).0 == Size::Expanded,
        forall|i: int| 0 <= i < focus.len() ==> !#[trigger] focus_run(Size::Expanded, focus).1[i],
        focus_run(Size::Expanded, focus).1.len() == focus.len(),
    decreases focus.len(),
{
    if focus.len() > 0 {
        lemma_expanded_is_settled(focus.drop_last());
    }
}

impl Size {
    pub open spec fn minimized_spec() -> Size {
        Size::Minimized { seen_unfocused: false }
    }
}

/// From the freshly minimised state: while focus never leaves, the modal stays minimised
/// and never expands; it expands only on a focused observation that follows an
/// unfocused one; it expands at most once; and it ends expanded exactly when it expanded.
pub proof fn lemma_expands_only_after_focus_left(focus: Seq<bool>)
    ensures
        ({
            let (s, expands) = focus_run(Size::minimized_spec(), focus);
            &&& expands.len() == focus.len()
            &&& (forall|j: int| 0 <= j < focus.len() ==> focus[j]) ==> s
                == Size::minimized_spec()
            &&& forall|i: int|
                0 <= i < focus.len() && #[trigger] expands[i] ==> focus[i] && exists|j: int|
                    0 <= j < i && !focus[j]
            &&& forall|i: int, k: int|
                0 <= i < focus.len() && 0 <= k < focus.len() && #[trigger] expands[i]
                    && #[trigger] expands[k] ==> i == k
            &&& (s == Size::Expanded) == (exists|i: int| 0 <= i < focus.len() && expands[i])
            &&& s == (Size::Minimized { seen_unfocused: true }) ==> exists|j: int|
                0 <= j < focus.len() && !focus[j]
        }),
    decreases focus.len(),
{
    if focus.len() > 0 {
        let f = focus.drop_last();
        lemma_expands_only_after_focus_left(f);
        let (prev, pe) = focus_run(Size::minimized_spec(), f);
        let (s, expands) = focus_run(Size::minimized_spec(), focus);
        let n = focus.len() - 1;
        assert forall|i: int| 0 <= i < n implies expands[i] == pe[i] && focus[i] == f[i] by {}
        if (forall|j: int| 0 <= j < focus.len() ==> focus[j]) {
            assert forall|j: int| 0 <= j < f.len() implies f[j] by {
                assert(focus[j]);
            }
        }
        if prev == (Size::Minimized { seen_unfocused: true }) {
            let w = choose|j: int| 0 <= j < f.len() && !f[j];
            assert(!focus[w]);
        }
        if !focus.last() {
            assert(!focus[n]);
        }
        if exists|i: int| 0 <= i < f.len() && pe[i] {
            let w = choose|i: int| 0 <= i < f.len() && pe[i];
            assert(expands[w]);
        }
        if focus_step(prev, focus.last()).1 {
            assert(expands[n]);
        }
        if s == Size::Expanded && prev == Size::Expanded {
            let w = choose|i: int| 0 <= i < f.len() && pe[i];
            assert(expands[w]);
        }
    }
}

/// Focus was seen to leave somewhere before step `i`.
pub open spec fn left_before(focus: Seq<bool>, i: int) -> bool {
    exists|j: int| 0 <= j < i && !focus[j]
}

/// Step `i` regains focus after it had left.
pub open spec fn regains_at(focus: Seq<bool>, i: int) -> bool {
    focus[i] && left_before(focus, i)
}

/// Focus was regained after leaving somewhere before step `i`.
pub open spec fn regained_before(focus: Seq<bool>, i: int) -> bool {
    exists|k: int| 0 <= k < i && regains_at(focus, k)
}

/// The state of a freshly minimised modal after the first `n` observations.
pub open spec fn state_after(focus: Seq<bool>, n: int) -> Size {
    if regained_before(focus, n) {
        Size::Expanded
    } else {
        Size::Minimized { seen_unfocused: left_before(focus, n) }
    }
}

/// From the freshly minimised state, the modal expands at exactly one step: the first
/// at which focus is regained after having left. Up to that step it stays minimised,
/// remembering whether focus has left; from then on it stays expanded.
pub proof fn lemma_expands_exactly_on_first_return(focus: Seq<bool>)
    ensures
        ({
            let (s, expands) = focus_run(Size::minimized_spec(), focus);
            &&& expands.len() == focus.len()
            &&& s == state_after(focus, focus.len() as int)
            &&& forall|i: int|
                0 <= i < focus.len() ==> (#[trigger] expands[i] <==> (regains_at(focus, i)
                    && !regained_before(focus, i)))
        }),
    decreases focus.len(),
{
    if focus.len() > 0 {
        let f = focus.drop_last();
        let n = focus.len() - 1;
        lemma_expands_exactly_on_first_return(f);
        let (prev, pe) = focus_run(Size::minimized_spec(), f);
        let (s, expands) = focus_run(Size::minimized_spec(), focus);
        assert forall|i: int| 0 <= i <= n implies left_before(f, i) == left_before(focus, i)
            && regained_before(f, i) == regained_before(focus, i) by {
            if left_before(f, i) {
                let j = choose|j: int| 0 <= j < i && !f[j];
                assert(!focus[j]);
            }
            if left_before(focus, i) {
                let j = choose|j: int| 0 <= j < i && !focus[j];
                assert(!f[j]);
            }
            if regained_before(f, i) {
                let k = choose|k: int| 0 <= k < i && regains_at(f, k);
                let j = choose|j: int| 0 <= j < k && !f[j];
                assert(!focus[j]);
                assert(regains_at(focus, k));
            }
            if regained_before(focus, i) {
                let k = choose|k: int| 0 <= k < i && regains_at(focus, k);
                let j = choose|j: int| 0 <= j < k && !focus[j];
                assert(!f[j]);
                assert(regains_at(f, k));
            }
        }
        assert forall|i: int| 0 <= i < n implies regains_at(f, i) == regains_at(focus, i) by {
            assert(f[i] == focus[i]);
        }
        assert forall|i: int| 0 <= i < n implies expands[i] == pe[i] by {}
        // the last step
        if !focus[n] {
            assert(left_before(focus, n + 1));
        }
        if left_before(focus, n) {
            let j = choose|j: int| 0 <= j < n && !focus[j];
            assert(left_before(focus, n + 1));
        }
        if left_before(focus, n + 1) && focus[n] {
            let j = choose|j: int| 0 <= j < n + 1 && !focus[j];
            assert(j != n);
            assert(left_before(focus, n));
        }
        if regained_before(focus, n) {
            let k = choose|k: int| 0 <= k < n && regains_at(focus, k);
            assert(regained_before(focus, n + 1));
        }
        if regains_at(focus, n) {
            assert(regained_before(focus, n + 1));
        }
        if regained_before(focus, n + 1) && !regained_before(focus, n) {
            let k = choose|k: int| 0 <= k < n + 1 && regains_at(focus, k);
            assert(k == n);
        }
        if !focus[n] && !left_before(focus, n) {
            assert(left_before(focus, n + 1));
        }
        if focus[n] && !left_before(focus, n) {
            if left_before(focus, n + 1) {
                let j = choose|j: int| 0 <= j < n + 1 && !focus[j];
                assert(j != n);
            }
        }
    }
}

} // verus!
