use ui_windows::components::{Point, Rank, Window};
use ui_windows::drag_window::drag_window;
use ui_windows::resources::DraggedWindow;

fn window_at(handle: u64, left: i64, top: i64) -> Window {
    Window { handle, left, top, width: 300, height: 300, rank: Rank::Comparable(1) }
}

#[test]
fn drag_applies_horizontal_displacement() {
    // dragged window at (100, 100); pointer moves from (120, 100) to
    // (135, 100) in one frame; the x displacement of 15 lands on the window
    let mut windows = vec![window_at(7, 100, 100)];
    let mut last = Point { x: 120, y: 100 };
    let dragged = DraggedWindow { window: Some(7) };
    drag_window(&mut last, &mut windows, &dragged, Some(Point { x: 135, y: 100 }));
    assert_eq!(windows[0].left, 115);
    assert_eq!(windows[0].top, 100);
    assert_eq!(last, Point { x: 135, y: 100 });
}

#[test]
fn vertical_displacement_is_sign_flipped() {
    // pointer y grows opposite to the `top` field: a pointer move of +10
    // in y moves the window's top edge by -10
    let mut windows = vec![window_at(7, 100, 100)];
    let mut last = Point { x: 0, y: 0 };
    let dragged = DraggedWindow { window: Some(7) };
    drag_window(&mut last, &mut windows, &dragged, Some(Point { x: 0, y: 10 }));
    assert_eq!(windows[0].left, 100);
    assert_eq!(windows[0].top, 90);
}

#[test]
fn pointer_move_without_drag_changes_no_window() {
    // DraggedWindow is none and the pointer moves 50px: no window position
    // changes, only the remembered pointer position is re-synchronized
    let mut windows = vec![window_at(7, 100, 100), window_at(8, 400, 50)];
    let mut last = Point { x: 0, y: 0 };
    let dragged = DraggedWindow { window: None };
    drag_window(&mut last, &mut windows, &dragged, Some(Point { x: 50, y: 0 }));
    assert_eq!(windows[0].left, 100);
    assert_eq!(windows[0].top, 100);
    assert_eq!(windows[1].left, 400);
    assert_eq!(windows[1].top, 50);
    assert_eq!(last, Point { x: 50, y: 0 });
}

#[test]
fn absent_pointer_retains_remembered_position() {
    let mut windows = vec![window_at(7, 100, 100)];
    let mut last = Point { x: 33, y: 44 };
    let dragged = DraggedWindow { window: Some(7) };
    drag_window(&mut last, &mut windows, &dragged, None);
    assert_eq!(windows[0].left, 100);
    assert_eq!(windows[0].top, 100);
    assert_eq!(last, Point { x: 33, y: 44 });
}

#[test]
fn missing_dragged_window_moves_nothing() {
    // the dragged window left the scene: a transient absence, but the
    // remembered position still follows the pointer
    let mut windows = vec![window_at(7, 100, 100)];
    let mut last = Point { x: 0, y: 0 };
    let dragged = DraggedWindow { window: Some(99) };
    drag_window(&mut last, &mut windows, &dragged, Some(Point { x: 25, y: 25 }));
    assert_eq!(windows[0].left, 100);
    assert_eq!(windows[0].top, 100);
    assert_eq!(last, Point { x: 25, y: 25 });
}

#[test]
fn displacement_telescopes_over_frames() {
    // over a whole drag session the window moves by exactly the
    // sign-adjusted difference between the last and the first pointer
    // position, however the path was split into frames
    let mut windows = vec![window_at(7, 100, 100)];
    let mut last = Point { x: 10, y: 20 };
    let dragged = DraggedWindow { window: Some(7) };
    for c in [
        Point { x: 14, y: 18 },
        Point { x: 21, y: 25 },
        Point { x: 13, y: 9 },
    ] {
        drag_window(&mut last, &mut windows, &dragged, Some(c));
    }
    assert_eq!(windows[0].left, 100 + (13 - 10));
    assert_eq!(windows[0].top, 100 - (9 - 20));
    assert_eq!(last, Point { x: 13, y: 9 });
}

#[test]
fn only_the_dragged_window_moves() {
    let mut windows = vec![window_at(7, 100, 100), window_at(8, 400, 50)];
    let mut last = Point { x: 0, y: 0 };
    let dragged = DraggedWindow { window: Some(8) };
    drag_window(&mut last, &mut windows, &dragged, Some(Point { x: 5, y: 0 }));
    assert_eq!(windows[0].left, 100);
    assert_eq!(windows[0].top, 100);
    assert_eq!(windows[1].left, 405);
    assert_eq!(windows[1].top, 50);
}

#[test]
fn drag_leaves_ranks_and_sizes_alone() {
    let mut windows = vec![Window {
        handle: 7,
        left: 0,
        top: 0,
        width: 123,
        height: 456,
        rank: Rank::Comparable(9),
    }];
    let mut last = Point { x: 0, y: 0 };
    let dragged = DraggedWindow { window: Some(7) };
    drag_window(&mut last, &mut windows, &dragged, Some(Point { x: 1, y: 1 }));
    assert_eq!(windows[0].rank, Rank::Comparable(9));
    assert_eq!(windows[0].width, 123);
    assert_eq!(windows[0].height, 456);
    assert_eq!(windows[0].left, 1);
    assert_eq!(windows[0].top, -1);
}
