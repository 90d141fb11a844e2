//! The data the window manager works on: window records, stacking ranks,
//! header interactions and pointer coordinates.

use vstd::prelude::*;

verus! {

/// Stable, opaque identifier of one floating window.
///
/// The host scene assigns a handle when it spawns a window; the core never
/// creates or destroys windows, it only reads and writes their position and
/// rank.  Handles of distinct windows are distinct (see [`handles_unique`]).
pub type WindowHandle = u64;

/// Stacking rank of a window; a higher rank renders in front.
///
/// Only ranks in the globally comparable numeric space take part in z-order
/// reassignment.  A rank of any other representation is `Unsupported`:
/// reassignment refuses it with a fatal configuration error rather than
/// silently coercing it, which would corrupt the dense-ranking invariant.
#[derive(Clone, Copy, Debug, PartialEq, Eq, Structural)]
pub enum Rank {
    Comparable(i64),
    Unsupported,
}

/// One floating panel: a stable handle, a top-left anchored position,
/// a size, and a stacking rank.
#[derive(Clone, Copy, Debug, PartialEq, Eq, Structural)]
pub struct Window {
    pub handle: WindowHandle,
    /// Offset of the window's left edge, in layout coordinates.
    pub left: i64,
    /// Offset of the window's top edge, in layout coordinates.
    pub top: i64,
    pub width: i64,
    pub height: i64,
    pub rank: Rank,
}

/// Per-frame pointer interaction state observed on a window's header, the
/// sole drag handle and focus trigger of the window.
#[derive(Clone, Copy, Debug, PartialEq, Eq, Structural)]
pub enum Interaction {
    Pressed,
    Hovered,
    Idle,
}

/// Back-reference from a header to the window that owns it.
#[derive(Clone, Copy, Debug, PartialEq, Eq, Structural)]
pub struct EntityRef(pub WindowHandle);

/// A pointer coordinate on the tracking surface.
///
/// The vertical axis grows in the opposite direction to the `top` position
/// field of a [`Window`], so the drag translator flips the sign of vertical
/// displacements.
#[derive(Clone, Copy, Debug, PartialEq, Eq, Structural)]
pub struct Point {
    pub x: i64,
    pub y: i64,
}

/// Whether a rank lies in the globally comparable numeric space.
pub open spec fn is_comparable(r: Rank) -> bool {
    r is Comparable
}

/// The numeric value of a comparable rank (meaningless for `Unsupported`).
pub open spec fn rank_value(r: Rank) -> i64 {
    match r {
        Rank::Comparable(v) => v,
        Rank::Unsupported => 0,
    }
}

/// No two windows share a handle.  The host scene guarantees this when it
/// spawns windows; every operation of the core preserves it, since the core
/// never writes a handle.
pub open spec fn handles_unique(s: Seq<Window>) -> bool {
    forall|i: int, j: int|
        0 <= i < j < s.len() ==> #[trigger] s[i].handle != #[trigger] s[j].handle
}

/// Some window in the scene has the given handle.
pub open spec fn contains_handle(s: Seq<Window>, h: WindowHandle) -> bool {
    exists|i: int| 0 <= i < s.len() && #[trigger] s[i].handle == h
}

/// The index of the window carrying handle `h`.  Meaningful only when some
/// window does carry it; unambiguous whenever handles are unique.
pub open spec fn index_of_handle(s: Seq<Window>, h: WindowHandle) -> int {
    choose|i: int| 0 <= i < s.len() && #[trigger] s[i].handle == h
}

/// With unique handles, `index_of_handle` names exactly the index at which
/// the handle was found.
pub proof fn lemma_index_of_handle(s: Seq<Window>, h: WindowHandle, q: int)
    requires
        handles_unique(s),
        0 <= q < s.len(),
        s[q].handle == h,
    ensures
        contains_handle(s, h),
        index_of_handle(s, h) == q,
{
    assert(contains_handle(s, h));
    let i = index_of_handle(s, h);
    if i < q {
        assert(s[i].handle != s[q].handle);
    } else if i > q {
        assert(s[q].handle != s[i].handle);
    }
}

/// The two scenes list the same windows, in the same order, with the same
/// handles, positions and sizes; only the ranks may differ.
pub open spec fn same_except_rank(s: Seq<Window>, t: Seq<Window>) -> bool {
    &&& t.len() == s.len()
    &&& forall|i: int| 0 <= i < s.len() ==> {
        &&& (#[trigger] t[i]).handle == s[i].handle
        &&& t[i].left == s[i].left
        &&& t[i].top == s[i].top
        &&& t[i].width == s[i].width
        &&& t[i].height == s[i].height
    }
}

/// Looks a window up by handle.  Returns an index of a window carrying the
/// handle, or `None` when no window does.
pub fn find_handle(windows: &Vec<Window>, h: WindowHandle) -> (r: Option<usize>)
    ensures
        match r {
            Some(i) => i < windows@.len() && windows@[i as int].handle == h,
            None => !contains_handle(windows@, h),
        },
{
    let n = windows.len();
    let mut i: usize = 0;
    while i < n
        invariant
            i <= n,
            n == windows@.len(),
            forall|k: int| 0 <= k < i ==> (#[trigger] windows@[k]).handle != h,
        decreases n - i,
    {
        if windows[i].handle == h {
            return Some(i);
        }
        i += 1;
    }
    None
}

} // verus!
