//! The drag translator: once per frame it reads the pointer position and,
//! if a window is currently dragged, applies the pointer's frame-to-frame
//! displacement to that window's position.

use vstd::prelude::*;
use crate::components::{handles_unique, Point, Window};
use crate::resources::DraggedWindow;

verus! {

/// The left offset of a dragged window after one frame, given the
/// remembered pointer position `last` and the current one `c`.
pub open spec fn moved_left(w: Window, last: Point, c: Point) -> int {
    w.left + c.x - last.x
}

/// The top offset of a dragged window after one frame.  Screen-space y
/// grows in the opposite direction to the `top` position field, so the raw
/// vertical pointer delta enters with its sign flipped.
pub open spec fn moved_top(w: Window, last: Point, c: Point) -> int {
    w.top + last.y - c.y
}

/// One frame's effect on the dragged window itself: position shifted by the
/// sign-adjusted pointer delta, every other field unchanged.
pub open spec fn dragged_step(w: Window, last: Point, c: Point) -> Window {
    Window { left: moved_left(w, last, c) as i64, top: moved_top(w, last, c) as i64, ..w }
}

/// A whole drag session over one window: the positions a window passes
/// through while it stays the dragged window and the pointer is observed at
/// `cursors[0]`, `cursors[1]`, ... in consecutive frames, starting from the
/// remembered pointer position `last`.  Yields the window and the
/// remembered position after the final frame.
pub open spec fn drag_session(w: Window, last: Point, cursors: Seq<Point>) -> (Window, Point)
    decreases cursors.len(),
{
    if cursors.len() == 0 {
        (w, last)
    } else {
        drag_session(dragged_step(w, last, cursors[0]), cursors[0], cursors.drop_first())
    }
}

/// Applies the pointer's per-frame displacement to the dragged window.
///
/// Reading the contract by case:
/// - no pointer position this frame: nothing happens, and the remembered
///   position is retained unchanged, so that the pointer's return does not
///   cause a spurious jump;
/// - no window is dragged: only the remembered position is re-synchronized
///   to the current one, and no window's position changes however far the
///   pointer moved;
/// - a window is dragged: its position shifts by the sign-adjusted
///   difference between the current and the remembered pointer position,
///   every other window stays as it was, and the remembered position is
///   updated.  A dragged window that is no longer in the scene is a
///   transient absence: nothing to move this frame.
///
/// The remembered position is updated on every frame that has a pointer
/// position, whatever branch ran, so displacement never drifts and is never
/// applied twice.
pub fn drag_window(
    last_position: &mut Point,
    windows: &mut Vec<Window>,
    dragged_window: &DraggedWindow,
    cursor_position: Option<Point>,
)
    requires
        handles_unique(old(windows)@),
        match (cursor_position, dragged_window.window) {
            (Some(c), Some(h)) => {
                &&& i64::MIN <= c.x - old(last_position).x <= i64::MAX
                &&& i64::MIN <= old(last_position).y - c.y <= i64::MAX
                &&& forall|i: int|
                    0 <= i < old(windows)@.len() && (#[trigger] old(windows)@[i]).handle == h ==> {
                        &&& i64::MIN <= moved_left(old(windows)@[i], *old(last_position), c) <= i64::MAX
                        &&& i64::MIN <= moved_top(old(windows)@[i], *old(last_position), c) <= i64::MAX
                    }
            },
            _ => true,
        },
    ensures
        match cursor_position {
            None => {
                &&& final(windows)@ == old(windows)@
                &&& *final(last_position) == *old(last_position)
            },
            Some(c) => {
                &&& *final(last_position) == c
                &&& final(windows)@.len() == old(windows)@.len()
                &&& match dragged_window.window {
                    None => final(windows)@ == old(windows)@,
                    Some(h) => forall|i: int|
                        0 <= i < old(windows)@.len() ==> #[trigger] final(windows)@[i] == if old(
                            windows,
                        )@[i].handle == h {
                            dragged_step(old(windows)@[i], *old(last_position), c)
                        } else {
                            old(windows)@[i]
                        },
                }
            },
        },
{
    if let Some(cursor) = cursor_position {
        if let Some(window_handle) = dragged_window.window {
            let delta_x = cursor.x - last_position.x;
            // screen-space y grows opposite to the `top` field, so the
            // vertical delta enters negated
            let delta_y = last_position.y - cursor.y;

            if let Some(i) = crate::components::find_handle(windows, window_handle) {
                let mut w = windows[i];
                proof {
                    assert(forall|k: int|
                        0 <= k < windows@.len() && k != i ==> (#[trigger] windows@[k]).handle
                            != window_handle);
                }
                w.left = w.left + delta_x;
                w.top = w.top + delta_y;
                windows.set(i, w);
            }
        }
        *last_position = cursor;
    }
}

/// Displacement conservation: over a drag session in which one window stays
/// the dragged window throughout and the pointer is observed at positions
/// `cursors[0]`, ..., `cursors[k]`, the window's final position equals its
/// initial position plus the sign-adjusted difference between the last
/// observed position and the remembered position `p0` at the session's
/// start.  The per-frame deltas telescope: the result does not depend on
/// how the pointer's path was split into frames.
pub proof fn lemma_displacement_conservation(w: Window, p0: Point, cursors: Seq<Point>)
    requires
        cursors.len() > 0,
        forall|j: int|
            0 <= j < cursors.len() ==> {
                &&& i64::MIN <= w.left + (#[trigger] cursors[j]).x - p0.x <= i64::MAX
                &&& i64::MIN <= w.top + p0.y - cursors[j].y <= i64::MAX
            },
    ensures
        drag_session(w, p0, cursors).0 == (Window {
            left: (w.left + cursors.last().x - p0.x) as i64,
            top: (w.top + p0.y - cursors.last().y) as i64,
            ..w
        }),
        drag_session(w, p0, cursors).1 == cursors.last(),
    decreases cursors.len(),
{
    let c = cursors[0];
    let w2 = dragged_step(w, p0, c);
    if cursors.len() == 1 {
        assert(cursors.last() == c);
    } else {
        let rest = cursors.drop_first();
        assert(forall|j: int|
            0 <= j < rest.len() ==> #[trigger] rest[j] == cursors[j + 1]);
        lemma_displacement_conservation(w2, c, rest);
        assert(rest.last() == cursors.last());
    }
}

/// Splitting the observed pointer positions of one session into two
/// consecutive stretches changes nothing: running the second stretch from
/// where the first left off ends in the same state.
pub proof fn lemma_drag_session_append(w: Window, last: Point, s1: Seq<Point>, s2: Seq<Point>)
    ensures
        drag_session(w, last, s1 + s2) == drag_session(
            drag_session(w, last, s1).0,
            drag_session(w, last, s1).1,
            s2,
        ),
    decreases s1.len(),
{
    if s1.len() == 0 {
        assert(s1 + s2 =~= s2);
    } else {
        let w2 = dragged_step(w, last, s1[0]);
        lemma_drag_session_append(w2, s1[0], s1.drop_first(), s2);
        assert((s1 + s2).drop_first() =~= s1.drop_first() + s2);
    }
}

} // verus!
