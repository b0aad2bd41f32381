use tab_notes_core::minimize::Size;

#[test]
fn staying_focused_right_after_minimising_does_not_expand() {
    let state = Size::minimized();
    let (state, expand) = state.on_focus(true);
    assert!(!expand, "the keypress that minimised it still holds focus");
    assert!(state.is_minimized());
}

#[test]
fn regaining_focus_after_losing_it_expands() {
    let state = Size::minimized();
    let (state, expand) = state.on_focus(false);
    assert!(!expand);
    let (state, expand) = state.on_focus(true);
    assert!(expand, "focus came back, which is the request to expand");
    assert_eq!(state, Size::Expanded);
}

#[test]
fn losing_focus_repeatedly_is_harmless() {
    let mut state = Size::minimized();
    for _ in 0..5 {
        let (next, expand) = state.on_focus(false);
        assert!(!expand);
        state = next;
    }
    assert!(state.is_minimized());
}

#[test]
fn an_expanded_modal_never_asks_to_expand_again() {
    for focused in [true, false] {
        let (state, expand) = Size::Expanded.on_focus(focused);
        assert!(!expand);
        assert_eq!(state, Size::Expanded);
    }
}

#[test]
fn expanding_settles_and_does_not_re_trigger() {
    let (state, _) = Size::minimized().on_focus(false);
    let (state, expand) = state.on_focus(true);
    assert!(expand);
    let (state, expand) = state.on_focus(true);
    assert!(!expand, "already expanded, nothing more to do");
    assert_eq!(state, Size::Expanded);
}

#[test]
fn a_run_of_focus_events_expands_exactly_once() {
    let events = [true, true, false, false, true, true, false, true];
    let mut state = Size::minimized();
    let mut expansions = Vec::new();
    for (i, focused) in events.iter().enumerate() {
        let (next, expand) = state.on_focus(*focused);
        if expand {
            expansions.push(i);
        }
        state = next;
    }
    assert_eq!(expansions, vec![4]);
    assert_eq!(state, Size::Expanded);
}

#[test]
fn expands_at_the_first_return_of_focus_and_stays_expanded() {
    let events = [true, false, true, false, true];
    let mut state = Size::minimized();
    let mut states = Vec::new();
    let mut expansions = Vec::new();
    for (i, focused) in events.iter().enumerate() {
        let (next, expand) = state.on_focus(*focused);
        if expand {
            expansions.push(i);
        }
        state = next;
        states.push(state);
    }
    assert_eq!(expansions, vec![2]);
    assert_eq!(states[0], Size::Minimized { seen_unfocused: false });
    assert_eq!(states[1], Size::Minimized { seen_unfocused: true });
    assert!(states[2..].iter().all(|s| *s == Size::Expanded));
}
