use ui_windows::components::{EntityRef, Interaction, Rank, Window};
use ui_windows::resources::DraggedWindow;
use ui_windows::start_drag_window::{get_sorted_windows_map, start_drag_window, FocusError};

fn window(handle: u64, rank: Rank) -> Window {
    Window { handle, left: 0, top: 0, width: 300, height: 300, rank }
}

fn ranks(windows: &Vec<Window>) -> Vec<(u64, Rank)> {
    windows.iter().map(|w| (w.handle, w.rank)).collect()
}

#[test]
fn press_rotates_lowest_to_front() {
    // three windows ranked 1, 2, 3; pressing the lowest one sends it to the
    // front and the two others close the gap without swapping
    let mut windows = vec![
        window(10, Rank::Comparable(1)),
        window(20, Rank::Comparable(2)),
        window(30, Rank::Comparable(3)),
    ];
    let mut dragged = DraggedWindow { window: None };
    let headers = vec![(Interaction::Pressed, EntityRef(10))];
    let r = start_drag_window(&mut dragged, &mut windows, &headers);
    assert_eq!(r, Ok(()));
    assert_eq!(
        ranks(&windows),
        vec![
            (10, Rank::Comparable(3)),
            (20, Rank::Comparable(1)),
            (30, Rank::Comparable(2)),
        ]
    );
}

#[test]
fn press_sets_dragged_window() {
    let mut windows = vec![window(10, Rank::Comparable(1))];
    let mut dragged = DraggedWindow { window: None };
    let headers = vec![(Interaction::Pressed, EntityRef(10))];
    let r = start_drag_window(&mut dragged, &mut windows, &headers);
    assert_eq!(r, Ok(()));
    assert_eq!(dragged.window, Some(10));
    assert_eq!(windows[0].rank, Rank::Comparable(1));
}

#[test]
fn press_keeps_background_order() {
    // scattered ranks: the non-focused windows are renumbered 1..N-1 in
    // their former-rank order
    let mut windows = vec![
        window(10, Rank::Comparable(4)),
        window(20, Rank::Comparable(2)),
        window(30, Rank::Comparable(7)),
        window(40, Rank::Comparable(5)),
    ];
    let mut dragged = DraggedWindow { window: None };
    let headers = vec![(Interaction::Pressed, EntityRef(40))];
    let r = start_drag_window(&mut dragged, &mut windows, &headers);
    assert_eq!(r, Ok(()));
    assert_eq!(
        ranks(&windows),
        vec![
            (10, Rank::Comparable(2)),
            (20, Rank::Comparable(1)),
            (30, Rank::Comparable(3)),
            (40, Rank::Comparable(4)),
        ]
    );
}

#[test]
fn press_with_unknown_handle_tracks_but_reassigns_nothing() {
    let mut windows = vec![
        window(10, Rank::Comparable(1)),
        window(20, Rank::Comparable(2)),
    ];
    let mut dragged = DraggedWindow { window: None };
    let headers = vec![(Interaction::Pressed, EntityRef(99))];
    let r = start_drag_window(&mut dragged, &mut windows, &headers);
    assert_eq!(r, Ok(()));
    assert_eq!(dragged.window, Some(99));
    assert_eq!(
        ranks(&windows),
        vec![(10, Rank::Comparable(1)), (20, Rank::Comparable(2))]
    );
}

#[test]
fn unsupported_rank_gives_error() {
    let mut windows = vec![
        window(10, Rank::Comparable(1)),
        window(20, Rank::Unsupported),
    ];
    let mut dragged = DraggedWindow { window: None };
    let headers = vec![(Interaction::Pressed, EntityRef(10))];
    let r = start_drag_window(&mut dragged, &mut windows, &headers);
    assert_eq!(r, Err(FocusError::UnsupportedRank));
    // a failed reassignment writes nothing
    assert_eq!(
        ranks(&windows),
        vec![(10, Rank::Comparable(1)), (20, Rank::Unsupported)]
    );
    // the press itself was still tracked
    assert_eq!(dragged.window, Some(10));
}

#[test]
fn unsupported_rank_on_focused_window_is_tolerated() {
    // the focused window's own rank is never read
    let mut windows = vec![
        window(10, Rank::Unsupported),
        window(20, Rank::Comparable(5)),
    ];
    let mut dragged = DraggedWindow { window: None };
    let headers = vec![(Interaction::Pressed, EntityRef(10))];
    let r = start_drag_window(&mut dragged, &mut windows, &headers);
    assert_eq!(r, Ok(()));
    assert_eq!(
        ranks(&windows),
        vec![(10, Rank::Comparable(2)), (20, Rank::Comparable(1))]
    );
}

#[test]
fn hovered_ends_drag_on_tracked_window() {
    let mut windows = vec![window(10, Rank::Comparable(1))];
    let mut dragged = DraggedWindow { window: Some(10) };
    let headers = vec![(Interaction::Hovered, EntityRef(10))];
    let r = start_drag_window(&mut dragged, &mut windows, &headers);
    assert_eq!(r, Ok(()));
    assert_eq!(dragged.window, None);
}

#[test]
fn idle_ends_drag_when_none_tracked() {
    let mut windows = vec![window(10, Rank::Comparable(1))];
    let mut dragged = DraggedWindow { window: None };
    let headers = vec![(Interaction::Idle, EntityRef(10))];
    let r = start_drag_window(&mut dragged, &mut windows, &headers);
    assert_eq!(r, Ok(()));
    assert_eq!(dragged.window, None);
}

#[test]
fn transition_of_other_window_is_ignored_while_dragging() {
    let mut windows = vec![
        window(10, Rank::Comparable(1)),
        window(20, Rank::Comparable(2)),
    ];
    let mut dragged = DraggedWindow { window: Some(10) };
    let headers = vec![(Interaction::Hovered, EntityRef(20))];
    let r = start_drag_window(&mut dragged, &mut windows, &headers);
    assert_eq!(r, Ok(()));
    assert_eq!(dragged.window, Some(10));
    assert_eq!(
        ranks(&windows),
        vec![(10, Rank::Comparable(1)), (20, Rank::Comparable(2))]
    );
}

#[test]
fn no_transition_changes_nothing() {
    let mut windows = vec![window(10, Rank::Comparable(1))];
    let mut dragged = DraggedWindow { window: Some(10) };
    let headers: Vec<(Interaction, EntityRef)> = vec![];
    let r = start_drag_window(&mut dragged, &mut windows, &headers);
    assert_eq!(r, Ok(()));
    assert_eq!(dragged.window, Some(10));
    assert_eq!(windows[0].rank, Rank::Comparable(1));
}

#[test]
fn press_on_empty_scene_is_a_noop() {
    let mut windows: Vec<Window> = vec![];
    let mut dragged = DraggedWindow { window: None };
    let headers = vec![(Interaction::Pressed, EntityRef(5))];
    let r = start_drag_window(&mut dragged, &mut windows, &headers);
    assert_eq!(r, Ok(()));
    assert_eq!(dragged.window, Some(5));
    assert!(windows.is_empty());
}

#[test]
fn tied_ranks_keep_scene_order() {
    // ties cannot arise while ranks stay dense, but if they do the windows'
    // original relative order decides
    let mut windows = vec![
        window(10, Rank::Comparable(2)),
        window(20, Rank::Comparable(2)),
        window(30, Rank::Comparable(2)),
    ];
    let mut dragged = DraggedWindow { window: None };
    let headers = vec![(Interaction::Pressed, EntityRef(30))];
    let r = start_drag_window(&mut dragged, &mut windows, &headers);
    assert_eq!(r, Ok(()));
    assert_eq!(
        ranks(&windows),
        vec![
            (10, Rank::Comparable(1)),
            (20, Rank::Comparable(2)),
            (30, Rank::Comparable(3)),
        ]
    );
}

#[test]
fn repeated_presses_keep_ranks_dense() {
    let mut windows = vec![
        window(10, Rank::Comparable(1)),
        window(20, Rank::Comparable(2)),
        window(30, Rank::Comparable(3)),
    ];
    let mut dragged = DraggedWindow { window: None };

    let headers = vec![(Interaction::Pressed, EntityRef(10))];
    assert_eq!(start_drag_window(&mut dragged, &mut windows, &headers), Ok(()));
    let headers = vec![(Interaction::Pressed, EntityRef(20))];
    assert_eq!(start_drag_window(&mut dragged, &mut windows, &headers), Ok(()));

    assert_eq!(
        ranks(&windows),
        vec![
            (10, Rank::Comparable(2)),
            (20, Rank::Comparable(3)),
            (30, Rank::Comparable(1)),
        ]
    );
    let mut held: Vec<i64> = windows
        .iter()
        .map(|w| match w.rank {
            Rank::Comparable(v) => v,
            Rank::Unsupported => panic!("unsupported rank"),
        })
        .collect();
    held.sort();
    assert_eq!(held, vec![1, 2, 3]);
}

#[test]
fn first_reported_transition_wins() {
    let mut windows = vec![
        window(10, Rank::Comparable(1)),
        window(20, Rank::Comparable(2)),
    ];
    let mut dragged = DraggedWindow { window: None };
    let headers = vec![
        (Interaction::Pressed, EntityRef(10)),
        (Interaction::Hovered, EntityRef(20)),
    ];
    let r = start_drag_window(&mut dragged, &mut windows, &headers);
    assert_eq!(r, Ok(()));
    assert_eq!(dragged.window, Some(10));
    assert_eq!(windows[0].rank, Rank::Comparable(2));
}

#[test]
fn sorted_map_renumbers_from_one() {
    let windows = vec![
        window(10, Rank::Comparable(5)),
        window(20, Rank::Comparable(1)),
        window(30, Rank::Comparable(9)),
    ];
    let map = get_sorted_windows_map(&windows, 10).unwrap();
    assert_eq!(map, vec![(20, 1), (30, 2)]);
}

#[test]
fn sorted_map_refuses_unsupported_rank() {
    let windows = vec![
        window(10, Rank::Comparable(5)),
        window(20, Rank::Unsupported),
    ];
    assert_eq!(
        get_sorted_windows_map(&windows, 10),
        Err(FocusError::UnsupportedRank)
    );
}
