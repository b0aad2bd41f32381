use tab_notes_core::viewport::clamp_scroll;

#[test]
fn clamps_scroll_to_the_last_full_screen() {
    assert_eq!(clamp_scroll(99, 10, 4), 6);
    assert_eq!(clamp_scroll(2, 10, 4), 2);
}

#[test]
fn does_not_scroll_when_everything_fits() {
    assert_eq!(clamp_scroll(5, 3, 10), 0);
}

#[test]
fn clamps_at_the_extremes() {
    assert_eq!(clamp_scroll(usize::MAX, usize::MAX, 0), usize::MAX);
    assert_eq!(clamp_scroll(0, 0, 0), 0);
    assert_eq!(clamp_scroll(7, 10, 10), 0);
}
