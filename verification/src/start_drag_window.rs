//! The focus tracker: once per frame it inspects the interaction state of
//! the window headers, decides which window (if any) is being dragged, and
//! on a drag start renumbers every window's stacking rank.

use vstd::prelude::*;
use crate::components::{
    contains_handle, find_handle, handles_unique, index_of_handle, is_comparable, lemma_index_of_handle,
    rank_value, same_except_rank, EntityRef, Interaction, Rank, Window, WindowHandle,
};
use crate::resources::DraggedWindow;

verus! {

/// A fatal configuration error: a window's rank is not in the globally
/// comparable numeric space, so the ordering algorithm cannot operate on
/// it.  Reassignment stops rather than silently coercing the value.
#[derive(Clone, Copy, Debug, PartialEq, Eq, Structural)]
pub enum FocusError {
    UnsupportedRank,
}

/// Window `i` comes before window `j` in the stable ascending rank order:
/// its rank is strictly lower, or the ranks tie and `i` stands earlier in
/// the scene.  (Ties cannot occur while ranks are dense, but if they do the
/// order falls back to the windows' original relative order, so unrelated
/// windows are never swapped.)
pub open spec fn comes_before(s: Seq<Window>, i: int, j: int) -> bool {
    ||| rank_value(s[i].rank) < rank_value(s[j].rank)
    ||| (rank_value(s[i].rank) == rank_value(s[j].rank) && i < j)
}

/// Some window in the scene carries exactly the comparable rank `r`.
pub open spec fn has_rank(s: Seq<Window>, r: i64) -> bool {
    exists|i: int| 0 <= i < s.len() && #[trigger] s[i].rank == Rank::Comparable(r)
}

/// The ranks of the scene form the dense set `{1, ..., N}` exactly: every
/// window's rank is comparable and lies in `1..=N`, no two windows share a
/// rank, and every value in `1..=N` is some window's rank.
///
/// Every successful rank reassignment establishes this afresh, whatever the
/// ranks were before, and nothing else writes a rank; so it holds in every
/// state reachable by repeated focus changes.
pub open spec fn ranks_dense(s: Seq<Window>) -> bool {
    &&& forall|i: int|
        0 <= i < s.len() ==> is_comparable(#[trigger] s[i].rank) && 1 <= rank_value(s[i].rank)
            <= s.len()
    &&& forall|i: int, j: int|
        0 <= i < j < s.len() ==> rank_value(#[trigger] s[i].rank) != rank_value(#[trigger] s[j].rank)
    &&& forall|r: i64| 1 <= r <= s.len() ==> #[trigger] has_rank(s, r)
}

/// `t` is `s` after rank reassignment with the window of handle `root`
/// focused: the focused window's rank is `N`, the maximum; the other
/// windows' ranks are the consecutive integers `1..N` assigned in their
/// stable ascending former-rank order, so their relative order is
/// unchanged; nothing but ranks changed.
pub open spec fn reassigned(s: Seq<Window>, t: Seq<Window>, root: WindowHandle) -> bool {
    &&& same_except_rank(s, t)
    &&& forall|i: int|
        0 <= i < s.len() && (#[trigger] s[i]).handle == root ==> t[i].rank == Rank::Comparable(
            s.len() as i64,
        )
    &&& forall|i: int|
        0 <= i < s.len() && (#[trigger] s[i]).handle != root ==> is_comparable(t[i].rank) && 1
            <= rank_value(t[i].rank) < s.len()
    &&& forall|i: int, j: int|
        0 <= i < s.len() && 0 <= j < s.len() && s[i].handle != root && s[j].handle != root
            && #[trigger] comes_before(s, i, j) ==> rank_value(t[i].rank) < rank_value(t[j].rank)
    &&& forall|r: i64| 1 <= r <= s.len() ==> #[trigger] has_rank(t, r)
}

/// An entry of the rank reassignment's working collection: one non-focused
/// window, its comparable rank, and its place in the scene.
#[derive(Clone, Copy, Debug, PartialEq, Eq, Structural)]
struct SortEntry {
    handle: WindowHandle,
    rank: i64,
    position: usize,
}

/// Strict stable order on entries: lower rank first, ties by scene position.
spec fn entry_lt(a: SortEntry, b: SortEntry) -> bool {
    ||| a.rank < b.rank
    ||| (a.rank == b.rank && a.position < b.position)
}

/// Exec mirror of [`entry_lt`].
fn entry_precedes(a: &SortEntry, b: &SortEntry) -> (r: bool)
    ensures
        r == entry_lt(*a, *b),
{
    a.rank < b.rank || (a.rank == b.rank && a.position < b.position)
}

/// `x` is one of the first `k` collected entries.
spec fn among_first(entries: Seq<SortEntry>, k: int, x: SortEntry) -> bool {
    exists|j: int| 0 <= j < k && x == #[trigger] entries[j]
}

/// `x` occurs somewhere in `sorted`.
spec fn occurs_in(sorted: Seq<SortEntry>, x: SortEntry) -> bool {
    exists|m: int| 0 <= m < sorted.len() && #[trigger] sorted[m] == x
}

/// Looks the new rank of a window up in the reassignment map, as the write
/// back of the recomputed ranks does for every non-focused window.
fn get_rank(win_z_map: &Vec<(WindowHandle, i64)>, h: WindowHandle) -> (v: i64)
    requires
        exists|p: int| 0 <= p < win_z_map@.len() && (#[trigger] win_z_map@[p]).0 == h,
    ensures
        exists|p: int|
            0 <= p < win_z_map@.len() && (#[trigger] win_z_map@[p]).0 == h && win_z_map@[p].1 == v,
{
    let n = win_z_map.len();
    let mut i: usize = 0;
    while i < n
        invariant
            i <= n,
            n == win_z_map@.len(),
            exists|p: int| i <= p < win_z_map@.len() && (#[trigger] win_z_map@[p]).0 == h,
        decreases n - i,
    {
        if win_z_map[i].0 == h {
            return win_z_map[i].1;
        }
        i += 1;
    }
    // the invariant is contradictory here
    proof {
        assert(false);
    }
    0
}

/// Collects every window except the focused one, with its comparable rank
/// and its place in the scene; refuses a rank outside the comparable space.
fn collect_entries(windows: &Vec<Window>, window: WindowHandle) -> (r: Result<
    Vec<SortEntry>,
    FocusError,
>)
    requires
        handles_unique(windows@),
    ensures
        (r is Err) <==> exists|i: int|
            0 <= i < windows@.len() && (#[trigger] windows@[i]).handle != window && !is_comparable(
                windows@[i].rank,
            ),
        r matches Ok(entries) ==> {
            let s = windows@;
            &&& forall|m: int|
                0 <= m < entries@.len() ==> {
                    let e = #[trigger] entries@[m];
                    &&& 0 <= e.position < s.len()
                    &&& s[e.position as int].handle == e.handle
                    &&& e.handle != window
                    &&& s[e.position as int].rank == Rank::Comparable(e.rank)
                }
            &&& forall|m1: int, m2: int|
                0 <= m1 < m2 < entries@.len() ==> (#[trigger] entries@[m1]).position < (
                #[trigger] entries@[m2]).position
            &&& forall|j: int|
                0 <= j < s.len() && (#[trigger] s[j]).handle != window ==> exists|m: int|
                    0 <= m < entries@.len() && (#[trigger] entries@[m]).position == j
            &&& entries@.len() == s.len() - (if contains_handle(s, window) {
                1int
            } else {
                0int
            })
        },
{
    let ghost s = windows@;
    let n = windows.len();
    let mut entries: Vec<SortEntry> = Vec::new();
    let mut i: usize = 0;
    while i < n
        invariant
            i <= n,
            n == s.len(),
            s == windows@,
            handles_unique(s),
            forall|m: int|
                0 <= m < entries@.len() ==> {
                    let e = #[trigger] entries@[m];
                    &&& 0 <= e.position < i
                    &&& s[e.position as int].handle == e.handle
                    &&& e.handle != window
                    &&& s[e.position as int].rank == Rank::Comparable(e.rank)
                },
            forall|m1: int, m2: int|
                0 <= m1 < m2 < entries@.len() ==> (#[trigger] entries@[m1]).position < (
                #[trigger] entries@[m2]).position,
            forall|j: int|
                0 <= j < i && (#[trigger] s[j]).handle != window ==> exists|m: int|
                    0 <= m < entries@.len() && (#[trigger] entries@[m]).position == j,
            forall|j: int|
                0 <= j < i && (#[trigger] s[j]).handle != window ==> is_comparable(s[j].rank),
            entries@.len() == i - (if exists|j: int|
                0 <= j < i && (#[trigger] s[j]).handle == window {
                1int
            } else {
                0int
            }),
        decreases n - i,
    {
        let w = windows[i];
        if w.handle != window {
            match w.rank {
                Rank::Comparable(v) => {
                    let ghost prev = entries@;
                    entries.push(SortEntry { handle: w.handle, rank: v, position: i });
                    proof {
                        assert(entries@ == prev.push(
                            SortEntry { handle: w.handle, rank: v, position: i },
                        ));
                        assert(entries@[prev.len() as int].position == i as int);
                        assert forall|j: int|
                            0 <= j < i + 1 && (#[trigger] s[j]).handle != window implies exists|
                            m: int,
                        |
                            0 <= m < entries@.len() && (#[trigger] entries@[m]).position == j by {
                            if j == i {
                                assert(entries@[prev.len() as int].position == j);
                            } else {
                                let m = choose|m: int|
                                    0 <= m < prev.len() && (#[trigger] prev[m]).position == j;
                                assert(entries@[m].position == j);
                            }
                        }
                        if exists|j: int| 0 <= j < i && (#[trigger] s[j]).handle == window {
                            let j = choose|j: int|
                                0 <= j < i && (#[trigger] s[j]).handle == window;
                            assert(0 <= j < i + 1 && s[j].handle == window);
                        }
                    }
                },
                Rank::Unsupported => {
                    proof {
                        assert(s[i as int].handle != window && !is_comparable(s[i as int].rank));
                    }
                    return Err(FocusError::UnsupportedRank);
                },
            }
        } else {
            proof {
                assert forall|j: int| 0 <= j < i implies (#[trigger] s[j]).handle != window by {
                    assert(s[j].handle != s[i as int].handle);
                }
                assert(0 <= i < i + 1 && s[i as int].handle == window);
            }
        }
        i += 1;
    }
    proof {
        if contains_handle(s, window) {
            let j = choose|j: int| 0 <= j < s.len() && #[trigger] s[j].handle == window;
            assert(0 <= j < i && s[j].handle == window);
        }
    }
    Ok(entries)
}

/// One step of the stable insertion sort: inserting the `k`-th entry at the
/// scan's stopping point keeps the output sorted and keeps it a
/// rearrangement of the first `k + 1` entries.
#[verifier::rlimit(60)]
proof fn lemma_insert_step(
    entries: Seq<SortEntry>,
    prev: Seq<SortEntry>,
    cur: Seq<SortEntry>,
    k: int,
    p: int,
)
    requires
        0 <= k < entries.len(),
        0 <= p <= prev.len(),
        forall|m1: int, m2: int|
            0 <= m1 < m2 < entries.len() ==> (#[trigger] entries[m1]).position < (
            #[trigger] entries[m2]).position,
        cur.len() == prev.len() + 1,
        forall|m: int| 0 <= m < p ==> #[trigger] cur[m] == prev[m],
        cur[p] == entries[k],
        forall|m: int| p <= m < prev.len() ==> #[trigger] cur[m + 1] == prev[m],
        forall|m1: int, m2: int|
            0 <= m1 < m2 < prev.len() ==> entry_lt(#[trigger] prev[m1], #[trigger] prev[m2]),
        forall|m: int| 0 <= m < prev.len() ==> #[trigger] among_first(entries, k, prev[m]),
        forall|j: int| 0 <= j < k ==> occurs_in(prev, #[trigger] entries[j]),
        forall|m: int| 0 <= m < p ==> !entry_lt(entries[k], #[trigger] prev[m]),
        p == prev.len() || entry_lt(entries[k], prev[p]),
    ensures
        forall|m1: int, m2: int|
            0 <= m1 < m2 < cur.len() ==> entry_lt(#[trigger] cur[m1], #[trigger] cur[m2]),
        forall|m: int| 0 <= m < cur.len() ==> #[trigger] among_first(entries, k + 1, cur[m]),
        forall|j: int| 0 <= j < k + 1 ==> occurs_in(cur, #[trigger] entries[j]),
{
    let e = entries[k];
    assert forall|m: int| 0 <= m < p implies entry_lt(#[trigger] prev[m], e) by {
        assert(among_first(entries, k, prev[m]));
        let j = choose|j: int| 0 <= j < k && prev[m] == #[trigger] entries[j];
        assert(entries[j].position < entries[k].position);
    }
    assert forall|m: int| p <= m < prev.len() implies entry_lt(e, #[trigger] prev[m]) by {
        assert(entry_lt(e, prev[p]));
        if p < m {
            assert(entry_lt(prev[p], prev[m]));
        }
    }
    assert forall|m1: int, m2: int| 0 <= m1 < m2 < cur.len() implies entry_lt(
        #[trigger] cur[m1],
        #[trigger] cur[m2],
    ) by {
        if m1 < p {
            assert(cur[m1] == prev[m1]);
        } else if m1 == p {
            assert(cur[m1] == e);
        } else {
            assert(cur[(m1 - 1) + 1] == prev[m1 - 1]);
        }
        if m2 < p {
            assert(cur[m2] == prev[m2]);
        } else if m2 == p {
            assert(cur[m2] == e);
        } else {
            assert(cur[(m2 - 1) + 1] == prev[m2 - 1]);
        }
    }
    assert forall|m: int| 0 <= m < cur.len() implies #[trigger] among_first(
        entries,
        k + 1,
        cur[m],
    ) by {
        if m < p {
            assert(cur[m] == prev[m]);
            assert(among_first(entries, k, prev[m]));
            let j = choose|j: int| 0 <= j < k && prev[m] == #[trigger] entries[j];
            assert(cur[m] == entries[j]);
        } else if m == p {
            assert(cur[m] == entries[k]);
        } else {
            assert(cur[(m - 1) + 1] == prev[m - 1]);
            assert(among_first(entries, k, prev[m - 1]));
            let j = choose|j: int| 0 <= j < k && prev[m - 1] == #[trigger] entries[j];
            assert(cur[m] == entries[j]);
        }
    }
    assert forall|j: int| 0 <= j < k + 1 implies occurs_in(cur, #[trigger] entries[j]) by {
        if j == k {
            assert(cur[p] == entries[j]);
        } else {
            assert(occurs_in(prev, entries[j]));
            let m = choose|m: int| 0 <= m < prev.len() && #[trigger] prev[m] == entries[j];
            if m < p {
                assert(cur[m] == entries[j]);
            } else {
                assert(cur[m + 1] == entries[j]);
            }
        }
    }
}

/// Stable insertion sort of the collected entries: lower former rank first,
/// ties broken by the entries' place in the scene, so the output order is
/// uniquely determined.
#[verifier::rlimit(60)]
fn sort_entries(entries: &Vec<SortEntry>) -> (sorted: Vec<SortEntry>)
    requires
        forall|m1: int, m2: int|
            0 <= m1 < m2 < entries@.len() ==> (#[trigger] entries@[m1]).position < (
            #[trigger] entries@[m2]).position,
    ensures
        sorted@.len() == entries@.len(),
        forall|m1: int, m2: int|
            0 <= m1 < m2 < sorted@.len() ==> entry_lt(
                #[trigger] sorted@[m1],
                #[trigger] sorted@[m2],
            ),
        forall|m: int|
            0 <= m < sorted@.len() ==> #[trigger] among_first(
                entries@,
                entries@.len() as int,
                sorted@[m],
            ),
        forall|j: int| 0 <= j < entries@.len() ==> occurs_in(sorted@, #[trigger] entries@[j]),
{
    let mut sorted: Vec<SortEntry> = Vec::new();
    let mut k: usize = 0;
    while k < entries.len()
        invariant
            k <= entries@.len(),
            sorted@.len() == k,
            forall|m1: int, m2: int|
                0 <= m1 < m2 < entries@.len() ==> (#[trigger] entries@[m1]).position < (
                #[trigger] entries@[m2]).position,
            forall|m1: int, m2: int|
                0 <= m1 < m2 < sorted@.len() ==> entry_lt(
                    #[trigger] sorted@[m1],
                    #[trigger] sorted@[m2],
                ),
            forall|m: int|
                0 <= m < sorted@.len() ==> #[trigger] among_first(entries@, k as int, sorted@[m]),
            forall|j: int| 0 <= j < k ==> occurs_in(sorted@, #[trigger] entries@[j]),
        decreases entries@.len() - k,
    {
        let e = entries[k];
        let mut p: usize = 0;
        while p < sorted.len() && !entry_precedes(&e, &sorted[p])
            invariant
                p <= sorted@.len(),
                forall|m: int| 0 <= m < p ==> !entry_lt(e, #[trigger] sorted@[m]),
            decreases sorted@.len() - p,
        {
            p += 1;
        }
        let ghost prev = sorted@;
        sorted.insert(p, e);
        proof {
            prev.insert_ensures(p as int, e);
            lemma_insert_step(entries@, prev, sorted@, k as int, p as int);
        }
        k += 1;
    }
    sorted
}

/// The computed map meets its contract: each pair names a window other than
/// the focused one, every such window appears, and earlier pairs belong to
/// windows that come earlier in the stable ascending former-rank order.
#[verifier::rlimit(60)]
proof fn lemma_map_contract(
    s: Seq<Window>,
    window: WindowHandle,
    entries: Seq<SortEntry>,
    sorted: Seq<SortEntry>,
    m: Seq<(WindowHandle, i64)>,
)
    requires
        handles_unique(s),
        forall|mm: int|
            0 <= mm < entries.len() ==> {
                let e = #[trigger] entries[mm];
                &&& 0 <= e.position < s.len()
                &&& s[e.position as int].handle == e.handle
                &&& e.handle != window
                &&& s[e.position as int].rank == Rank::Comparable(e.rank)
            },
        forall|j: int|
            0 <= j < s.len() && (#[trigger] s[j]).handle != window ==> exists|mm: int|
                0 <= mm < entries.len() && (#[trigger] entries[mm]).position == j,
        sorted.len() == entries.len(),
        forall|m1: int, m2: int|
            0 <= m1 < m2 < sorted.len() ==> entry_lt(#[trigger] sorted[m1], #[trigger] sorted[m2]),
        forall|mm: int|
            0 <= mm < sorted.len() ==> #[trigger] among_first(
                entries,
                entries.len() as int,
                sorted[mm],
            ),
        forall|j: int| 0 <= j < entries.len() ==> occurs_in(sorted, #[trigger] entries[j]),
        m.len() == sorted.len(),
        forall|p: int|
            0 <= p < m.len() ==> (#[trigger] m[p]).0 == sorted[p].handle && m[p].1 == p + 1,
    ensures
        forall|p: int|
            0 <= p < m.len() ==> (#[trigger] m[p]).0 != window && contains_handle(s, m[p].0),
        forall|j: int|
            0 <= j < s.len() && (#[trigger] s[j]).handle != window ==> exists|p: int|
                0 <= p < m.len() && (#[trigger] m[p]).0 == s[j].handle,
        forall|p1: int, p2: int|
            0 <= p1 < p2 < m.len() ==> comes_before(
                s,
                index_of_handle(s, (#[trigger] m[p1]).0),
                index_of_handle(s, (#[trigger] m[p2]).0),
            ),
{
    assert forall|p: int|
        0 <= p < m.len() implies (#[trigger] m[p]).0 != window && contains_handle(s, m[p].0) by {
        assert(among_first(entries, entries.len() as int, sorted[p]));
        let j = choose|j: int|
            0 <= j < entries.len() && sorted[p] == #[trigger] entries[j];
        let pos = entries[j].position as int;
        assert(s[pos].handle == m[p].0);
    }
    assert forall|j: int|
        0 <= j < s.len() && (#[trigger] s[j]).handle != window implies exists|p: int|
        0 <= p < m.len() && (#[trigger] m[p]).0 == s[j].handle by {
        let me = choose|me: int|
            0 <= me < entries.len() && (#[trigger] entries[me]).position == j;
        assert(occurs_in(sorted, entries[me]));
        let mm = choose|mm: int| 0 <= mm < sorted.len() && #[trigger] sorted[mm] == entries[me];
        assert(m[mm].0 == s[j].handle);
    }
    assert forall|p1: int, p2: int| 0 <= p1 < p2 < m.len() implies comes_before(
        s,
        index_of_handle(s, (#[trigger] m[p1]).0),
        index_of_handle(s, (#[trigger] m[p2]).0),
    ) by {
        assert(among_first(entries, entries.len() as int, sorted[p1]));
        assert(among_first(entries, entries.len() as int, sorted[p2]));
        let j1 = choose|j: int| 0 <= j < entries.len() && sorted[p1] == #[trigger] entries[j];
        let j2 = choose|j: int| 0 <= j < entries.len() && sorted[p2] == #[trigger] entries[j];
        let q1 = entries[j1].position as int;
        let q2 = entries[j2].position as int;
        lemma_index_of_handle(s, m[p1].0, q1);
        lemma_index_of_handle(s, m[p2].0, q2);
        assert(entry_lt(sorted[p1], sorted[p2]));
        assert(rank_value(s[q1].rank) == sorted[p1].rank);
        assert(rank_value(s[q2].rank) == sorted[p2].rank);
    }
}

/// Computes the new rank of every window other than the focused one.
///
/// The result plays the role of a map from window handle to new rank: a list
/// of `(handle, rank)` pairs, one for each window whose handle is not
/// `window`, sorted ascending by the windows' former ranks (ties broken by
/// their order in the scene) and renumbered with consecutive ranks starting
/// at 1, so the window that was previously lowest maps to 1, the next to 2,
/// and so on.
///
/// A window of `Unsupported` rank other than the focused one cannot be
/// ordered: the computation is refused with a fatal configuration error,
/// exactly when such a window exists.  (The focused window's own rank is
/// never read, so its representation does not matter.)
#[verifier::loop_isolation(false)]
#[verifier::rlimit(60)]
pub fn get_sorted_windows_map(windows: &Vec<Window>, window: WindowHandle) -> (r: Result<
    Vec<(WindowHandle, i64)>,
    FocusError,
>)
    requires
        handles_unique(windows@),
        windows@.len() < i64::MAX,
    ensures
        (r is Err) <==> exists|i: int|
            0 <= i < windows@.len() && (#[trigger] windows@[i]).handle != window && !is_comparable(
                windows@[i].rank,
            ),
        r matches Ok(win_z_map) ==> {
            let s = windows@;
            let m = win_z_map@;
            &&& m.len() == s.len() - (if contains_handle(s, window) {
                1int
            } else {
                0int
            })
            &&& forall|p: int| 0 <= p < m.len() ==> (#[trigger] m[p]).1 == p + 1
            &&& forall|p: int|
                0 <= p < m.len() ==> (#[trigger] m[p]).0 != window && contains_handle(s, m[p].0)
            &&& forall|j: int|
                0 <= j < s.len() && (#[trigger] s[j]).handle != window ==> exists|p: int|
                    0 <= p < m.len() && (#[trigger] m[p]).0 == s[j].handle
            &&& forall|p1: int, p2: int|
                0 <= p1 < p2 < m.len() ==> comes_before(
                    s,
                    index_of_handle(s, (#[trigger] m[p1]).0),
                    index_of_handle(s, (#[trigger] m[p2]).0),
                )
        },
{
    let ghost s = windows@;

    let entries = match collect_entries(windows, window) {
        Ok(entries) => entries,
        Err(e) => {
            return Err(e);
        },
    };
    let sorted = sort_entries(&entries);

    // renumber: consecutive new ranks starting at 1, in sorted order
    let mut win_z_map: Vec<(WindowHandle, i64)> = Vec::new();
    let mut new_index: i64 = 1;
    let mut q: usize = 0;
    while q < sorted.len()
        invariant
            q <= sorted@.len(),
            win_z_map@.len() == q,
            new_index == q + 1,
            forall|p: int|
                0 <= p < q ==> (#[trigger] win_z_map@[p]).0 == sorted@[p].handle && win_z_map@[p].1
                    == p + 1,
        decreases sorted@.len() - q,
    {
        win_z_map.push((sorted[q].handle, new_index));
        new_index += 1;
        q += 1;
    }

    proof {
        lemma_map_contract(s, window, entries@, sorted@, win_z_map@);
    }
    Ok(win_z_map)
}


/// Writing the focused window's rank to `N` and every other window's rank
/// to its pair in the reassignment map yields exactly the contract of rank
/// reassignment: ranks are dense, the focused window is frontmost, and the
/// other windows keep their relative order.
#[verifier::rlimit(60)]
proof fn lemma_reassign_contract(
    s: Seq<Window>,
    t: Seq<Window>,
    root: WindowHandle,
    m: Seq<(WindowHandle, i64)>,
)
    requires
        handles_unique(s),
        contains_handle(s, root),
        s.len() < i64::MAX,
        t.len() == s.len(),
        m.len() == s.len() - 1,
        forall|p: int| 0 <= p < m.len() ==> (#[trigger] m[p]).1 == p + 1,
        forall|p: int|
            0 <= p < m.len() ==> (#[trigger] m[p]).0 != root && contains_handle(s, m[p].0),
        forall|p1: int, p2: int|
            0 <= p1 < p2 < m.len() ==> comes_before(
                s,
                index_of_handle(s, (#[trigger] m[p1]).0),
                index_of_handle(s, (#[trigger] m[p2]).0),
            ),
        forall|k: int|
            0 <= k < s.len() ==> {
                let wk = #[trigger] t[k];
                &&& wk.handle == s[k].handle
                &&& wk.left == s[k].left
                &&& wk.top == s[k].top
                &&& wk.width == s[k].width
                &&& wk.height == s[k].height
            },
        forall|k: int|
            0 <= k < s.len() && (#[trigger] s[k]).handle == root ==> t[k].rank == Rank::Comparable(
                s.len() as i64,
            ),
        forall|k: int|
            0 <= k < s.len() && (#[trigger] s[k]).handle != root ==> exists|p: int|
                0 <= p < m.len() && (#[trigger] m[p]).0 == s[k].handle && t[k].rank
                    == Rank::Comparable(m[p].1),
    ensures
        reassigned(s, t, root),
        ranks_dense(t),
{
    // no two pairs of the map name the same window
    assert forall|p1: int, p2: int| 0 <= p1 < p2 < m.len() implies (#[trigger] m[p1]).0 != (
    #[trigger] m[p2]).0 by {
        if m[p1].0 == m[p2].0 {
            assert(comes_before(s, index_of_handle(s, m[p1].0), index_of_handle(s, m[p2].0)));
        }
    }
    // every non-focused window's new rank lies in 1..N
    assert forall|i: int|
        0 <= i < s.len() && (#[trigger] s[i]).handle != root implies is_comparable(t[i].rank) && 1
        <= rank_value(t[i].rank) < s.len() by {
        let p = choose|p: int|
            0 <= p < m.len() && (#[trigger] m[p]).0 == s[i].handle && t[i].rank
                == Rank::Comparable(m[p].1);
        assert(m[p].1 == p + 1);
    }
    // relative order of the non-focused windows is preserved
    assert forall|i: int, j: int|
        0 <= i < s.len() && 0 <= j < s.len() && s[i].handle != root && s[j].handle != root
            && #[trigger] comes_before(s, i, j) implies rank_value(t[i].rank) < rank_value(
        t[j].rank,
    ) by {
        let pi = choose|p: int|
            0 <= p < m.len() && (#[trigger] m[p]).0 == s[i].handle && t[i].rank
                == Rank::Comparable(m[p].1);
        let pj = choose|p: int|
            0 <= p < m.len() && (#[trigger] m[p]).0 == s[j].handle && t[j].rank
                == Rank::Comparable(m[p].1);
        assert(i != j);
        if i < j {
            assert(s[i].handle != s[j].handle);
        } else {
            assert(s[j].handle != s[i].handle);
        }
        assert(pi != pj);
        lemma_index_of_handle(s, m[pi].0, i);
        lemma_index_of_handle(s, m[pj].0, j);
        if pj < pi {
            assert(comes_before(s, index_of_handle(s, m[pj].0), index_of_handle(s, m[pi].0)));
            assert(false);
        }
    }
    // every rank in 1..=N is taken
    assert forall|r: i64| 1 <= r <= t.len() implies #[trigger] has_rank(t, r) by {
        if r == s.len() as i64 {
            let f = choose|f: int| 0 <= f < s.len() && #[trigger] s[f].handle == root;
            assert(t[f].rank == Rank::Comparable(r));
        } else {
            let p: int = r as int - 1;
            assert((#[trigger] m[p]).0 != root && contains_handle(s, m[p].0));
            let j = choose|j: int| 0 <= j < s.len() && #[trigger] s[j].handle == m[p].0;
            let pj = choose|pp: int|
                0 <= pp < m.len() && (#[trigger] m[pp]).0 == s[j].handle && t[j].rank
                    == Rank::Comparable(m[pp].1);
            if pj < p {
                assert(m[pj].0 != m[p].0);
            } else if p < pj {
                assert(m[p].0 != m[pj].0);
            }
            assert(t[j].rank == Rank::Comparable(r));
        }
    }
    // every window's new rank is comparable and in range
    assert forall|i: int| 0 <= i < t.len() implies is_comparable(#[trigger] t[i].rank) && 1
        <= rank_value(t[i].rank) <= t.len() by {
        if s[i].handle == root {
            assert(t[i].rank == Rank::Comparable(s.len() as i64));
        }
    }
    // no two windows share a new rank
    assert forall|i: int, j: int| 0 <= i < j < t.len() implies rank_value(#[trigger] t[i].rank)
        != rank_value(#[trigger] t[j].rank) by {
        assert(s[i].handle != s[j].handle);
        if s[i].handle == root {
            assert(t[i].rank == Rank::Comparable(s.len() as i64));
            assert(rank_value(t[j].rank) < s.len());
        } else if s[j].handle == root {
            assert(t[j].rank == Rank::Comparable(s.len() as i64));
            assert(rank_value(t[i].rank) < s.len());
        } else {
            if rank_value(s[i].rank) < rank_value(s[j].rank) || rank_value(s[i].rank)
                == rank_value(s[j].rank) {
                assert(comes_before(s, i, j));
            } else {
                assert(comes_before(s, j, i));
            }
        }
    }
}

/// Reassigns every window's stacking rank so that the window of handle
/// `root_window` comes frontmost.
///
/// When the focused window is among the tracked windows and every other
/// window's rank is comparable, afterwards the focused window's rank is
/// `N`, the number of windows, and the remaining windows hold the ranks
/// `1..N`, assigned in their stable ascending former-rank order, so the set
/// of ranks is exactly `{1, ..., N}` and the background windows' relative
/// order is unchanged.  The new ranks are computed in full before any of
/// them is written, and a failed reassignment writes nothing, so no caller
/// ever observes a half-renumbered scene.
///
/// When the focused window is not tracked (in particular when there are no
/// windows at all), the reassignment is a no-op.  When another window's
/// rank is not comparable, the reassignment fails with a fatal
/// configuration error, and exactly then.
#[verifier::loop_isolation(false)]
#[verifier::rlimit(60)]
pub fn update_z_indexes(windows: &mut Vec<Window>, root_window: WindowHandle) -> (r: Result<
    (),
    FocusError,
>)
    requires
        handles_unique(old(windows)@),
        old(windows)@.len() < i64::MAX,
    ensures
        !contains_handle(old(windows)@, root_window) ==> r is Ok && final(windows)@ == old(
            windows,
        )@,
        contains_handle(old(windows)@, root_window) ==> {
            &&& ((r is Err) <==> exists|i: int|
                0 <= i < old(windows)@.len() && (#[trigger] old(windows)@[i]).handle != root_window
                    && !is_comparable(old(windows)@[i].rank))
            &&& (r is Err ==> final(windows)@ == old(windows)@)
            &&& (r is Ok ==> reassigned(old(windows)@, final(windows)@, root_window)
                && ranks_dense(final(windows)@))
        },
{
    let ghost s = windows@;
    if find_handle(windows, root_window).is_none() {
        // the focused window is not tracked: nothing to reassign
        return Ok(());
    }
    let win_count: i64 = windows.len() as i64;
    let win_z_map = match get_sorted_windows_map(windows, root_window) {
        Ok(m) => m,
        Err(e) => {
            return Err(e);
        },
    };
    let n = windows.len();
    let mut i: usize = 0;
    while i < n
        invariant
            i <= n,
            windows@.len() == n,
            forall|k: int| i <= k < n ==> #[trigger] windows@[k] == s[k],
            forall|k: int|
                0 <= k < i ==> {
                    let wk = #[trigger] windows@[k];
                    &&& wk.handle == s[k].handle
                    &&& wk.left == s[k].left
                    &&& wk.top == s[k].top
                    &&& wk.width == s[k].width
                    &&& wk.height == s[k].height
                },
            forall|k: int|
                0 <= k < i && (#[trigger] s[k]).handle == root_window ==> windows@[k].rank
                    == Rank::Comparable(s.len() as i64),
            forall|k: int|
                0 <= k < i && (#[trigger] s[k]).handle != root_window ==> exists|p: int|
                    0 <= p < win_z_map@.len() && (#[trigger] win_z_map@[p]).0 == s[k].handle
                        && windows@[k].rank == Rank::Comparable(win_z_map@[p].1),
        decreases n - i,
    {
        let w = windows[i];
        let new_rank: i64 = if w.handle == root_window {
            win_count
        } else {
            get_rank(&win_z_map, w.handle)
        };
        let mut updated = w;
        updated.rank = Rank::Comparable(new_rank);
        windows.set(i, updated);
        i += 1;
    }
    proof {
        lemma_reassign_contract(s, windows@, root_window, win_z_map@);
    }
    Ok(())
}

/// The focus tracker's per-frame step.
///
/// `ui_headers` holds the header interaction transitions observed this
/// frame, each with the handle of the window owning the header.  At most
/// one header should transition per frame; if several are reported, exactly
/// one — the first — is processed, a deterministic tie-break, and the rest
/// are ignored.
///
/// - `Pressed` on window `W`'s header: `W` becomes the dragged window and
///   the ranks are recomputed with `W` focused (see [`update_z_indexes`];
///   its error, on a window of unsupported rank, is passed through).
/// - `Hovered` or `Idle`: the drag ends — unless the transition belongs to
///   a window other than the one currently tracked, in which case it is
///   ignored.
/// - no transition: nothing changes.
pub fn start_drag_window(
    dragged_window: &mut DraggedWindow,
    windows: &mut Vec<Window>,
    ui_headers: &Vec<(Interaction, EntityRef)>,
) -> (r: Result<(), FocusError>)
    requires
        handles_unique(old(windows)@),
        old(windows)@.len() < i64::MAX,
    ensures
        ui_headers@.len() == 0 ==> r is Ok && final(windows)@ == old(windows)@
            && final(dragged_window).window == old(dragged_window).window,
        ui_headers@.len() > 0 ==> {
            let interaction = ui_headers@[0].0;
            let h = ui_headers@[0].1.0;
            if interaction == Interaction::Pressed {
                &&& final(dragged_window).window == Some(h)
                &&& ((r is Err) <==> (contains_handle(old(windows)@, h) && exists|i: int|
                    0 <= i < old(windows)@.len() && (#[trigger] old(windows)@[i]).handle != h
                        && !is_comparable(old(windows)@[i].rank)))
                &&& (r is Err ==> final(windows)@ == old(windows)@)
                &&& (!contains_handle(old(windows)@, h) ==> r is Ok && final(windows)@ == old(
                    windows,
                )@)
                &&& (contains_handle(old(windows)@, h) && r is Ok ==> reassigned(
                    old(windows)@,
                    final(windows)@,
                    h,
                ) && ranks_dense(final(windows)@))
            } else {
                &&& r is Ok
                &&& final(windows)@ == old(windows)@
                &&& if old(dragged_window).window matches Some(current) && current != h {
                    final(dragged_window).window == old(dragged_window).window
                } else {
                    final(dragged_window).window is None
                }
            }
        },
{
    if ui_headers.len() == 0 {
        return Ok(());
    }
    let (interaction, entity_ref) = ui_headers[0];
    let root_window = entity_ref.0;
    match interaction {
        Interaction::Pressed => {
            dragged_window.window = Some(root_window);
            update_z_indexes(windows, root_window)
        },
        Interaction::Hovered | Interaction::Idle => {
            if let Some(current_window) = dragged_window.window {
                if current_window != root_window {
                    return Ok(());
                }
            }
            dragged_window.window = None;
            Ok(())
        },
    }
}

} // verus!
