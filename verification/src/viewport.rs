//! Keeping the modal's scroll position inside the rendered note.
use vstd::prelude::*;

verus! {

/// The largest scroll offset that still fills the viewport.
pub open spec fn max_scroll(total_lines: int, viewport_rows: int) -> int {
    if total_lines > viewport_rows {
        total_lines - viewport_rows
    } else {
        0
    }
}

/// `scroll`, but no further than the last full screen of `total_lines`.
pub fn clamp_scroll(scroll: usize, total_lines: usize, viewport_rows: usize) -> (clamped: usize)
    ensures
        clamped == if scroll <= max_scroll(total_lines as int, viewport_rows as int) {
            scroll as int
        } else {
            max_scroll(total_lines as int, viewport_rows as int)
        },
{
    let limit = if total_lines > viewport_rows {
        total_lines - viewport_rows
    } else {
        0
    };
    if scroll <= limit {
        scroll
    } else {
        limit
    }
}

} // verus!
