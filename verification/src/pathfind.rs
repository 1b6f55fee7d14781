//! Generic grid A* pathfinding primitives.
//!
//! [`astar_bool_grid`] takes a `&[bool]` blocking mask and finds a
//! 4-connected path between two cells. Manhattan heuristic, uniform cost
//! per step. The returned path excludes the start cell and includes the
//! goal, in `(col, row)` pairs. It is empty where start and goal are the
//! same, and `None` where the goal cannot be reached.
//!
//! What is proved is that the path is a shortest one. Among equally short
//! routes the search settles for one; which is left open.

use crate::min_heap::MinHeap;
use crate::sorted_map::Key;
use std::collections::HashMap;
use std::collections::HashSet;
use vstd::multiset::Multiset;
use vstd::prelude::*;

verus! {

broadcast use vstd::std_specs::hash::group_hash_axioms;

// ---------------------------------------------------------------------------
// The model: cells, walks, shortest walks.
// ---------------------------------------------------------------------------

/// The distance of two cells, counted in orthogonal steps.
pub open spec fn manhattan(a: (i32, i32), b: (i32, i32)) -> int {
    let dx = a.0 - b.0;
    let dy = a.1 - b.1;
    (if dx < 0 {
        -dx
    } else {
        dx
    }) + (if dy < 0 {
        -dy
    } else {
        dy
    })
}

/// Whether one orthogonal step leads from `a` to `b`.
pub open spec fn adjacent(a: (i32, i32), b: (i32, i32)) -> bool {
    manhattan(a, b) == 1
}

/// Where a walk from `start` over `cells` ends.
pub open spec fn end_of(start: (i32, i32), cells: Seq<(i32, i32)>) -> (i32, i32) {
    if cells.len() == 0 {
        start
    } else {
        cells.last()
    }
}

/// Whether `cells` are walked from `start` in orthogonal steps, each onto a
/// free cell.
pub open spec fn is_walk(
    free: spec_fn((i32, i32)) -> bool,
    start: (i32, i32),
    cells: Seq<(i32, i32)>,
) -> bool {
    forall|i: int|
        0 <= i < cells.len() ==> free(#[trigger] cells[i]) && adjacent(
            end_of(start, cells.take(i)),
            cells[i],
        )
}

/// Whether `cells` lead from `start` to `goal`.
pub open spec fn reaches(
    free: spec_fn((i32, i32)) -> bool,
    start: (i32, i32),
    goal: (i32, i32),
    cells: Seq<(i32, i32)>,
) -> bool {
    is_walk(free, start, cells) && end_of(start, cells) == goal
}

/// Whether `cells` lead from `start` to `goal` and nothing shorter does.
pub open spec fn is_shortest(
    free: spec_fn((i32, i32)) -> bool,
    start: (i32, i32),
    goal: (i32, i32),
    cells: Seq<(i32, i32)>,
) -> bool {
    &&& reaches(free, start, goal, cells)
    &&& forall|other: Seq<(i32, i32)>| #[trigger]
        reaches(free, start, goal, other) ==> cells.len() <= other.len()
}

/// A path as it is handed out: each coordinate cut to sixteen bits.
pub open spec fn narrowed(cells: Seq<(i32, i32)>) -> Seq<(u16, u16)> {
    cells.map_values(|p: (i32, i32)| (p.0 as u16, p.1 as u16))
}

/// What a search returns: a shortest path, or `None` where there is none.
pub open spec fn answers(
    free: spec_fn((i32, i32)) -> bool,
    start: (i32, i32),
    goal: (i32, i32),
    res: Option<Seq<(u16, u16)>>,
) -> bool {
    match res {
        Some(path) => exists|cells: Seq<(i32, i32)>| #[trigger]
            is_shortest(free, start, goal, cells) && path == narrowed(cells),
        None => forall|cells: Seq<(i32, i32)>| !#[trigger] reaches(free, start, goal, cells),
    }
}

// ---------------------------------------------------------------------------
// Where the tiles come from.
// ---------------------------------------------------------------------------

/// A caller-supplied tile-blocking source. Lets [`astar_tile_grid`] run over
/// any game-side tile representation. Out-of-bounds cells are blocked.
///
/// The model has a default, so that a source outside the proofs need not give
/// one.
pub trait TileSource {
    /// The grid's dimensions.
    open spec fn size(&self) -> (u32, u32) {
        arbitrary()
    }

    /// Whether a cell is impassable.
    open spec fn blocked_at(&self, c: i32, r: i32) -> bool {
        arbitrary()
    }

    /// Grid dimensions in `(width, height)` tile counts. Only cells within
    /// them are passable.
    fn dims(&self) -> (d: (u32, u32))
        ensures
            d == self.size(),
            forall|c: i32, r: i32|
                #[trigger] self.blocked_at(c, r) || (0 <= c < d.0 && 0 <= r < d.1),
    ;

    /// True if `(c, r)` is impassable. Return `true` for out-of-bounds.
    fn blocks(&self, c: i32, r: i32) -> (b: bool)
        ensures
            b == self.blocked_at(c, r),
    ;
}

/// The cells that may be walked on: neither blocked by the source nor by
/// the extra cells laid on top.
pub open spec fn tile_free<T: TileSource>(src: &T, extra: Set<(i32, i32)>) -> spec_fn(
    (i32, i32),
) -> bool {
    |p: (i32, i32)| !src.blocked_at(p.0, p.1) && !extra.contains(p)
}

/// A blocking mask, row by row. Cells past its end are blocked.
pub struct BoolGrid<'a> {
    pub width: u32,
    pub height: u32,
    pub blocked: &'a [bool],
}

/// Whether a mask of the given width and height blocks a cell.
pub open spec fn mask_blocks(width: u32, height: u32, blocked: Seq<bool>, c: i32, r: i32) -> bool {
    if 0 <= c < width && 0 <= r < height && width <= i32::MAX && height <= i32::MAX && r * width + c
        < blocked.len() {
        blocked[r * width + c]
    } else {
        true
    }
}

impl<'a> TileSource for BoolGrid<'a> {
    open spec fn size(&self) -> (u32, u32) {
        (self.width, self.height)
    }

    open spec fn blocked_at(&self, c: i32, r: i32) -> bool {
        mask_blocks(self.width, self.height, self.blocked@, c, r)
    }

    fn dims(&self) -> (d: (u32, u32)) {
        (self.width, self.height)
    }

    fn blocks(&self, c: i32, r: i32) -> (b: bool) {
        let (width, height) = (self.width, self.height);
        let (w, h) = (width as i32, height as i32);
        proof {
            assert(width > 0x7fff_ffff ==> (width as i32) < 0) by (bit_vector);
            assert(height > 0x7fff_ffff ==> (height as i32) < 0) by (bit_vector);
        }
        if c < 0 || r < 0 || c >= w || r >= h {
            return true;
        }
        proof {
            assert(0 <= r * width <= 0x7fff_ffff * 0x7fff_ffff) by (nonlinear_arith)
                requires
                    0 <= r <= 0x7fff_ffff,
                    0 <= width <= 0x7fff_ffff,
            ;
        }
        let i: u64 = r as u64 * width as u64 + c as u64;
        if i < self.blocked.len() as u64 {
            self.blocked[i as usize]
        } else {
            true
        }
    }
}

/// Whether the set holds the cell, by `HashSet::contains`.
#[verifier::external_body]
fn set_contains(set: &HashSet<(i32, i32)>, p: (i32, i32)) -> (r: bool)
    ensures
        r == set@.contains(p),
{
    set.contains(&p)
}

// ---------------------------------------------------------------------------
// The state of a search.
// ---------------------------------------------------------------------------

/// An entry of the open set, ordered by `f`, then by `g`, then by cell.
type Item = ((u64, u64), (i32, i32));

/// What is known of a cell that was seen.
struct Node {
    /// Steps from the start, over the best route found.
    g: u64,
    /// The cell before it on that route.
    parent: Option<(i32, i32)>,
    /// Whether the cell has been expanded.
    closed: bool,
}

/// A number for each cell.
spec fn packed(p: (i32, i32)) -> u64 {
    ((p.0 + 0x8000_0000) * 0x1_0000_0000 + (p.1 + 0x8000_0000)) as u64
}

fn pack(p: (i32, i32)) -> (k: u64)
    ensures
        k == packed(p),
{
    (p.0 as i64 + 0x8000_0000) as u64 * 0x1_0000_0000 + (p.1 as i64 + 0x8000_0000) as u64
}

proof fn lemma_packed_injective(p: (i32, i32), q: (i32, i32))
    ensures
        packed(p) == packed(q) ==> p == q,
{
}

spec fn known(m: Map<u64, Node>, p: (i32, i32)) -> bool {
    m.contains_key(packed(p))
}

spec fn g_of(m: Map<u64, Node>, p: (i32, i32)) -> int {
    m[packed(p)].g as int
}

spec fn is_closed(m: Map<u64, Node>, p: (i32, i32)) -> bool {
    known(m, p) && m[packed(p)].closed
}

/// The entry that a known cell has in the open set.
spec fn item_for(m: Map<u64, Node>, p: (i32, i32), goal: (i32, i32)) -> Item {
    (((g_of(m, p) + manhattan(p, goal)) as u64, g_of(m, p) as u64), p)
}

/// The route found to `p` goes through an expanded neighbour.
spec fn has_route(m: Map<u64, Node>, free: spec_fn((i32, i32)) -> bool, p: (i32, i32)) -> bool {
    match m[packed(p)].parent {
        Some(q) => {
            &&& is_closed(m, q)
            &&& adjacent(q, p)
            &&& free(p)
            &&& g_of(m, p) == g_of(m, q) + 1
        },
        None => false,
    }
}

/// Every free neighbour of `p` is known, at most one step further.
spec fn expanded(
    m: Map<u64, Node>,
    free: spec_fn((i32, i32)) -> bool,
    p: (i32, i32),
    q: (i32, i32),
) -> bool {
    adjacent(p, q) && free(q) ==> known(m, q) && g_of(m, q) <= g_of(m, p) + 1
}

/// What holds between two steps of the search, the neighbours of `but` left
/// aside.
spec fn search_inv(
    free: spec_fn((i32, i32)) -> bool,
    start: (i32, i32),
    goal: (i32, i32),
    m: Map<u64, Node>,
    heap: Multiset<Item>,
    count: nat,
) -> bool {
    &&& known(m, start) && g_of(m, start) == 0 && m[packed(start)].parent is None
    &&& forall|p: (i32, i32)| #[trigger] known(m, p) && p != start ==> has_route(m, free, p)
    &&& forall|p: (i32, i32)| #[trigger] known(m, p) ==> g_of(m, p) <= count
    &&& forall|it: Item| #[trigger]
        heap.count(it) > 0 ==> {
            &&& known(m, it.1)
            &&& it.0.0 == it.0.1 + manhattan(it.1, goal)
            &&& it.0.1 >= g_of(m, it.1)
        }
    &&& forall|p: (i32, i32)| #[trigger]
        known(m, p) && !is_closed(m, p) ==> heap.count(item_for(m, p, goal)) > 0
    &&& forall|p: (i32, i32), w: Seq<(i32, i32)>|
        is_closed(m, p) && #[trigger] reaches(free, start, p, w) ==> w.len() >= g_of(m, p)
    &&& !is_closed(m, start) ==> forall|p: (i32, i32)| #[trigger] known(m, p) ==> p == start
    &&& !is_closed(m, goal)
}

/// Every expanded cell but `but` has handed on to its neighbours.
spec fn frontier_inv(
    free: spec_fn((i32, i32)) -> bool,
    m: Map<u64, Node>,
    but: Option<(i32, i32)>,
) -> bool {
    forall|p: (i32, i32), q: (i32, i32)|
        is_closed(m, p) && Some(p) != but ==> #[trigger] expanded(m, free, p, q)
}

/// The expanded cells, counted.
spec fn closed_inv(
    free: spec_fn((i32, i32)) -> bool,
    start: (i32, i32),
    m: Map<u64, Node>,
    closed: Set<(i32, i32)>,
    count: nat,
) -> bool {
    &&& closed.finite()
    &&& closed.len() == count
    &&& forall|p: (i32, i32)| #[trigger] closed.contains(p) <==> is_closed(m, p)
    &&& forall|p: (i32, i32)| #[trigger] closed.contains(p) && p != start ==> free(p)
}

// ---------------------------------------------------------------------------
// Lemmas on walks.
// ---------------------------------------------------------------------------

proof fn lemma_walk_prefix(
    free: spec_fn((i32, i32)) -> bool,
    start: (i32, i32),
    w: Seq<(i32, i32)>,
    n: int,
)
    requires
        is_walk(free, start, w),
        0 <= n <= w.len(),
    ensures
        is_walk(free, start, w.take(n)),
        reaches(free, start, end_of(start, w.take(n)), w.take(n)),
{
    let t = w.take(n);
    assert forall|i: int| 0 <= i < t.len() implies free(#[trigger] t[i]) && adjacent(
        end_of(start, t.take(i)),
        t[i],
    ) by {
        assert(w[i] == t[i]);
        assert(t.take(i) =~= w.take(i));
    }
}

proof fn lemma_walk_push(
    free: spec_fn((i32, i32)) -> bool,
    start: (i32, i32),
    w: Seq<(i32, i32)>,
    p: (i32, i32),
)
    requires
        is_walk(free, start, w),
        free(p),
        adjacent(end_of(start, w), p),
    ensures
        reaches(free, start, p, w.push(p)),
{
    let t = w.push(p);
    assert forall|i: int| 0 <= i < t.len() implies free(#[trigger] t[i]) && adjacent(
        end_of(start, t.take(i)),
        t[i],
    ) by {
        if i < w.len() {
            assert(w[i] == t[i]);
            assert(t.take(i) =~= w.take(i));
        } else {
            assert(t.take(i) =~= w);
        }
    }
}

/// Each step of a walk brings the goal at most one step nearer.
proof fn lemma_heuristic_consistent(
    free: spec_fn((i32, i32)) -> bool,
    start: (i32, i32),
    w: Seq<(i32, i32)>,
    i: int,
    goal: (i32, i32),
)
    requires
        is_walk(free, start, w),
        0 <= i <= w.len(),
    ensures
        manhattan(end_of(start, w.take(i)), goal) <= manhattan(end_of(start, w), goal) + (w.len()
            - i),
    decreases w.len() - i,
{
    if i < w.len() {
        lemma_heuristic_consistent(free, start, w, i + 1, goal);
        assert(free(w[i]));
        assert(w.take(i + 1).last() == w[i]);
    } else {
        assert(w.take(i) =~= w);
    }
}

/// A walk that leaves a set of cells has a first step out of it.
proof fn lemma_first_step_out(
    free: spec_fn((i32, i32)) -> bool,
    start: (i32, i32),
    w: Seq<(i32, i32)>,
    inside: spec_fn((i32, i32)) -> bool,
) -> (j: int)
    requires
        is_walk(free, start, w),
        inside(start),
        !inside(end_of(start, w)),
    ensures
        0 <= j < w.len(),
        inside(end_of(start, w.take(j))),
        !inside(w[j]),
    decreases w.len(),
{
    let n = w.len() - 1;
    assert(w.take(n).len() == n);
    if inside(end_of(start, w.take(n))) {
        n
    } else {
        lemma_walk_prefix(free, start, w, n);
        let j = lemma_first_step_out(free, start, w.take(n), inside);
        assert(w.take(n).take(j) =~= w.take(j));
        j
    }
}

// ---------------------------------------------------------------------------
// Lemmas on the search.
// ---------------------------------------------------------------------------

/// The least entry of the open set, where its cell was not expanded yet,
/// carries the length of a shortest walk to that cell.
proof fn lemma_popped_is_optimal(
    free: spec_fn((i32, i32)) -> bool,
    start: (i32, i32),
    goal: (i32, i32),
    m: Map<u64, Node>,
    heap: Multiset<Item>,
    count: nat,
    it: Item,
)
    requires
        search_inv(free, start, goal, m, heap, count),
        frontier_inv(free, m, None),
        count + 0x1_ffff_fffe <= u64::MAX,
        heap.count(it) > 0,
        forall|x: Item| #[trigger] heap.count(x) > 0 ==> crate::min_heap::at_least(x, it),
        !is_closed(m, it.1),
    ensures
        it.0.1 == g_of(m, it.1),
        forall|w: Seq<(i32, i32)>| #[trigger]
            reaches(free, start, it.1, w) ==> w.len() >= it.0.1,
{
    let x = it.1;
    let mine = item_for(m, x, goal);
    assert(known(m, x));
    assert(heap.count(mine) > 0);
    assert(crate::min_heap::at_least(mine, it));
    assert forall|w: Seq<(i32, i32)>| #[trigger] reaches(free, start, x, w) implies w.len()
        >= it.0.1 by {
        if is_closed(m, start) {
            let inside = |p: (i32, i32)| is_closed(m, p);
            let j = lemma_first_step_out(free, start, w, inside);
            let p = end_of(start, w.take(j));
            let q = w[j];
            lemma_walk_prefix(free, start, w, j);
            assert(reaches(free, start, p, w.take(j)));
            assert(free(q) && adjacent(p, q));
            assert(expanded(m, free, p, q));
            assert(known(m, q));
            let theirs = item_for(m, q, goal);
            assert(heap.count(theirs) > 0);
            assert(crate::min_heap::at_least(theirs, it));
            lemma_heuristic_consistent(free, start, w, j + 1, goal);
            assert(w.take(j + 1).last() == q);
        }
    }
}

/// Where the open set is empty the goal cannot be reached.
proof fn lemma_exhausted(
    free: spec_fn((i32, i32)) -> bool,
    start: (i32, i32),
    goal: (i32, i32),
    m: Map<u64, Node>,
    heap: Multiset<Item>,
    count: nat,
)
    requires
        search_inv(free, start, goal, m, heap, count),
        frontier_inv(free, m, None),
        heap.len() == 0,
    ensures
        forall|w: Seq<(i32, i32)>| !#[trigger] reaches(free, start, goal, w),
{
    assert forall|it: Item| heap.count(it) == 0 by {
        if heap.count(it) > 0 {
            broadcast use vstd::multiset::group_multiset_axioms;

            assert(heap.contains(it));
            assert(heap.remove(it).len() == heap.len() - 1);
        }
    }
    assert forall|w: Seq<(i32, i32)>| !#[trigger] reaches(free, start, goal, w) by {
        if reaches(free, start, goal, w) {
            if !is_closed(m, start) {
                assert(heap.count(item_for(m, start, goal)) > 0);
            }
            let inside = |p: (i32, i32)| is_closed(m, p);
            let j = lemma_first_step_out(free, start, w, inside);
            let p = end_of(start, w.take(j));
            assert(free(w[j]));
            assert(expanded(m, free, p, w[j]));
            assert(known(m, w[j]));
            assert(heap.count(item_for(m, w[j], goal)) > 0);
        }
    }
}

/// A set of cells within a grid, one cell of it left out, is smaller than
/// the grid.
proof fn lemma_cells_counted(cells: Set<(i32, i32)>, w: nat, h: nat, out: (i32, i32))
    requires
        cells.finite(),
        forall|p: (i32, i32)| #[trigger] cells.contains(p) ==> 0 <= p.0 < w && 0 <= p.1 < h,
        0 <= out.0 < w,
        0 <= out.1 < h,
        !cells.contains(out),
    ensures
        cells.len() + 1 <= w * h,
{
    let all = cells.insert(out);
    let index = |p: (i32, i32)| p.1 * w + p.0;
    assert forall|a: (i32, i32), b: (i32, i32)|
        all.contains(a) && all.contains(b) && #[trigger] index(a) == #[trigger] index(
            b,
        ) implies a == b by {
        assert(a.1 == b.1) by (nonlinear_arith)
            requires
                a.1 * w + a.0 == b.1 * w + b.0,
                0 <= a.0 < w,
                0 <= b.0 < w,
        ;
    }
    assert(vstd::relations::injective_on(index, all));
    let image = all.map(index);
    vstd::set_lib::lemma_map_size(all, image, index);
    assert(image.subset_of(vstd::set_lib::set_int_range(0, (w * h) as int))) by {
        assert forall|k: int| image.contains(k) implies 0 <= k < w * h by {
            let p = choose|p: (i32, i32)| all.contains(p) && index(p) == k;
            assert(0 <= p.1 * w + p.0 < w * h) by (nonlinear_arith)
                requires
                    0 <= p.0 < w,
                    0 <= p.1 < h,
            ;
        }
    }
    assert(w * h >= 0) by (nonlinear_arith);
    vstd::set_lib::lemma_int_range(0, (w * h) as int);
    vstd::set_lib::lemma_len_subset(image, vstd::set_lib::set_int_range(0, (w * h) as int));
}

/// Storing under one cell leaves the others alone.
proof fn lemma_store(m: Map<u64, Node>, p: (i32, i32), node: Node)
    ensures
        forall|q: (i32, i32)|
            q != p ==> {
                &&& known(m.insert(packed(p), node), q) == known(m, q)
                &&& m.insert(packed(p), node)[#[trigger] packed(q)] == m[packed(q)]
            },
        known(m.insert(packed(p), node), p),
        m.insert(packed(p), node)[packed(p)] == node,
{
    assert forall|q: (i32, i32)| q != p implies {
        &&& known(m.insert(packed(p), node), q) == known(m, q)
        &&& m.insert(packed(p), node)[#[trigger] packed(q)] == m[packed(q)]
    } by {
        lemma_packed_injective(p, q);
    }
}

/// An entry whose cell was expanded before may be dropped.
proof fn lemma_skip(
    free: spec_fn((i32, i32)) -> bool,
    start: (i32, i32),
    goal: (i32, i32),
    m: Map<u64, Node>,
    heap: Multiset<Item>,
    count: nat,
    it: Item,
)
    requires
        search_inv(free, start, goal, m, heap, count),
        heap.count(it) > 0,
        is_closed(m, it.1),
    ensures
        search_inv(free, start, goal, m, heap.remove(it), count),
        heap.remove(it).len() < heap.len(),
{
    let rest = heap.remove(it);
    assert forall|i: Item| #[trigger] rest.count(i) > 0 implies heap.count(i) > 0 by {}
    assert forall|p: (i32, i32)| #[trigger] known(m, p) && !is_closed(m, p) implies rest.count(
        item_for(m, p, goal),
    ) > 0 by {
        assert(heap.count(item_for(m, p, goal)) > 0);
    }
    assert(rest.len() == heap.len() - 1) by {
        broadcast use vstd::multiset::group_multiset_axioms;

    }
}

/// Closing the cell of the least entry keeps the invariants; its neighbours
/// are still to be visited.
proof fn lemma_close(
    free: spec_fn((i32, i32)) -> bool,
    start: (i32, i32),
    goal: (i32, i32),
    m: Map<u64, Node>,
    heap: Multiset<Item>,
    closed: Set<(i32, i32)>,
    count: nat,
    it: Item,
    node: Node,
)
    requires
        search_inv(free, start, goal, m, heap, count),
        frontier_inv(free, m, None),
        closed_inv(free, start, m, closed, count),
        count + 0x1_ffff_fffe <= u64::MAX,
        heap.count(it) > 0,
        forall|x: Item| #[trigger] heap.count(x) > 0 ==> crate::min_heap::at_least(x, it),
        !is_closed(m, it.1),
        it.1 != goal,
        node == (Node { closed: true, ..m[packed(it.1)] }),
    ensures
        ({
            let m1 = m.insert(packed(it.1), node);
            &&& search_inv(free, start, goal, m1, heap.remove(it), count + 1)
            &&& frontier_inv(free, m1, Some(it.1))
            &&& closed_inv(free, start, m1, closed.insert(it.1), count + 1)
            &&& is_closed(m1, it.1)
            &&& is_closed(m1, start)
            &&& g_of(m1, it.1) == it.0.1
            &&& it.0.1 <= count
        }),
{
    let x = it.1;
    let m1 = m.insert(packed(x), node);
    let heap1 = heap.remove(it);
    lemma_popped_is_optimal(free, start, goal, m, heap, count, it);
    lemma_store(m, x, node);
    assert(known(m, x));
    assert forall|p: (i32, i32)| #[trigger] known(m1, p) implies known(m, p) && g_of(m1, p)
        == g_of(m, p) && m1[packed(p)].parent == m[packed(p)].parent && (is_closed(m1, p) == (p == x
        || is_closed(m, p))) by {
        let k = packed(p);
    }
    assert forall|p: (i32, i32)| #[trigger] known(m1, p) && p != start implies has_route(
        m1,
        free,
        p,
    ) by {
        assert(has_route(m, free, p));
        let q = m[packed(p)].parent->Some_0;
        assert(is_closed(m, q));
        let k = packed(q);
    }
    assert forall|i: Item| #[trigger] heap1.count(i) > 0 implies {
        &&& known(m1, i.1)
        &&& i.0.0 == i.0.1 + manhattan(i.1, goal)
        &&& i.0.1 >= g_of(m1, i.1)
    } by {
        assert(heap.count(i) > 0);
        let k = packed(i.1);
    }
    assert forall|p: (i32, i32)| #[trigger] known(m1, p) && !is_closed(m1, p) implies heap1.count(
        item_for(m1, p, goal),
    ) > 0 by {
        assert(known(m, p));
        assert(heap.count(item_for(m, p, goal)) > 0);
        assert(item_for(m1, p, goal) == item_for(m, p, goal));
    }
    assert forall|p: (i32, i32), w: Seq<(i32, i32)>|
        is_closed(m1, p) && #[trigger] reaches(free, start, p, w) implies w.len() >= g_of(m1, p) by {
        let k = packed(p);
    }
    if x != start {
        assert(is_closed(m, start));
        let k = packed(start);
    }
    assert(is_closed(m1, start));
    assert forall|p: (i32, i32), q: (i32, i32)| is_closed(m1, p) && Some(p) != Some(x) implies
        #[trigger] expanded(m1, free, p, q) by {
        let k = packed(p);
        assert(expanded(m, free, p, q));
    }
    let closed1 = closed.insert(x);
    assert(!closed.contains(x));
    assert forall|p: (i32, i32)| #[trigger] closed1.contains(p) <==> is_closed(m1, p) by {
        assert(closed.contains(p) <==> is_closed(m, p));
    }
    if x != start {
        assert(has_route(m, free, x));
    }
    assert forall|p: (i32, i32)| #[trigger] closed1.contains(p) && p != start implies free(p) by {
        if p != x {
            assert(closed.contains(p));
        }
    }
}

/// Recording a better route to a neighbour keeps the invariants.
proof fn lemma_improve(
    free: spec_fn((i32, i32)) -> bool,
    start: (i32, i32),
    goal: (i32, i32),
    m: Map<u64, Node>,
    heap: Multiset<Item>,
    closed: Set<(i32, i32)>,
    count: nat,
    cur: (i32, i32),
    nb: (i32, i32),
    node: Node,
)
    requires
        search_inv(free, start, goal, m, heap, count),
        frontier_inv(free, m, Some(cur)),
        closed_inv(free, start, m, closed, count),
        count + 0x1_ffff_fffe <= u64::MAX,
        is_closed(m, cur),
        is_closed(m, start),
        !is_closed(m, nb),
        adjacent(cur, nb),
        free(nb),
        node.g == g_of(m, cur) + 1,
        node.g <= count,
        node.parent == Some(cur),
        !node.closed,
        known(m, nb) ==> node.g < g_of(m, nb),
    ensures
        ({
            let m1 = m.insert(packed(nb), node);
            &&& search_inv(free, start, goal, m1, heap.insert(item_for(m1, nb, goal)), count)
            &&& frontier_inv(free, m1, Some(cur))
            &&& closed_inv(free, start, m1, closed, count)
            &&& is_closed(m1, cur)
            &&& is_closed(m1, start)
            &&& g_of(m1, cur) == g_of(m, cur)
            &&& forall|q: (i32, i32)| #[trigger]
                expanded(m, free, cur, q) ==> expanded(m1, free, cur, q)
            &&& expanded(m1, free, cur, nb)
        }),
{
    let m1 = m.insert(packed(nb), node);
    let heap1 = heap.insert(item_for(m1, nb, goal));
    lemma_store(m, nb, node);
    assert(manhattan(nb, goal) <= 0x1_ffff_fffe);
    assert forall|p: (i32, i32)| #[trigger] known(m1, p) && p != nb implies known(m, p) && g_of(
        m1,
        p,
    ) == g_of(m, p) && m1[packed(p)] == m[packed(p)] by {
        let k = packed(p);
    }
    assert forall|p: (i32, i32)| is_closed(m1, p) == #[trigger] is_closed(m, p) by {
        let k = packed(p);
    }
    assert forall|p: (i32, i32)| #[trigger] known(m1, p) && p != start implies has_route(
        m1,
        free,
        p,
    ) by {
        if p != nb {
            assert(has_route(m, free, p));
            let q = m[packed(p)].parent->Some_0;
            assert(is_closed(m, q));
            let k = packed(q);
        } else {
            assert(is_closed(m, cur));
            let k = packed(cur);
        }
    }
    assert forall|i: Item| #[trigger] heap1.count(i) > 0 implies {
        &&& known(m1, i.1)
        &&& i.0.0 == i.0.1 + manhattan(i.1, goal)
        &&& i.0.1 >= g_of(m1, i.1)
    } by {
        if i != item_for(m1, nb, goal) {
            assert(heap.count(i) > 0);
            let k = packed(i.1);
        }
    }
    assert forall|p: (i32, i32)| #[trigger] known(m1, p) && !is_closed(m1, p) implies heap1.count(
        item_for(m1, p, goal),
    ) > 0 by {
        if p != nb {
            assert(known(m, p));
            assert(!is_closed(m, p));
            assert(heap.count(item_for(m, p, goal)) > 0);
            assert(item_for(m1, p, goal) == item_for(m, p, goal));
        }
    }
    assert forall|p: (i32, i32), w: Seq<(i32, i32)>|
        is_closed(m1, p) && #[trigger] reaches(free, start, p, w) implies w.len() >= g_of(m1, p) by {
        assert(is_closed(m, p));
        let k = packed(p);
    }
    assert(is_closed(m, start) && is_closed(m, cur));
    assert(!is_closed(m, goal));
    assert forall|p: (i32, i32), q: (i32, i32)|
        is_closed(m, p) && expanded(m, free, p, q) implies #[trigger] expanded(m1, free, p, q) by {
    }
    assert forall|p: (i32, i32), q: (i32, i32)| is_closed(m1, p) && Some(p) != Some(cur) implies
        #[trigger] expanded(m1, free, p, q) by {
        assert(is_closed(m, p));
        assert(expanded(m, free, p, q));
    }
    assert forall|p: (i32, i32)| #[trigger] closed.contains(p) <==> is_closed(m1, p) by {
        assert(closed.contains(p) <==> is_closed(m, p));
    }
}

/// More expansions than the grid has cells: the goal is not a free cell.
proof fn lemma_cap<T: TileSource>(
    src: &T,
    extra: Set<(i32, i32)>,
    start: (i32, i32),
    goal: (i32, i32),
    m: Map<u64, Node>,
    closed: Set<(i32, i32)>,
    count: nat,
)
    requires
        closed_inv(tile_free(src, extra), start, m, closed, count),
        !is_closed(m, goal),
        start != goal,
        count > src.size().0 * src.size().1,
        forall|c: i32, r: i32|
            #[trigger] src.blocked_at(c, r) || (0 <= c < src.size().0 && 0 <= r < src.size().1),
    ensures
        forall|w: Seq<(i32, i32)>|
            !#[trigger] reaches(tile_free(src, extra), start, goal, w),
{
    let free = tile_free(src, extra);
    let inner = closed.remove(start);
    if free(goal) {
        assert forall|p: (i32, i32)| #[trigger] inner.contains(p) implies 0 <= p.0 < src.size().0
            && 0 <= p.1 < src.size().1 by {
            assert(closed.contains(p) && p != start);
            assert(!src.blocked_at(p.0, p.1));
        }
        assert(!closed.contains(goal));
        lemma_cells_counted(inner, src.size().0 as nat, src.size().1 as nat, goal);
        assert(false);
    }
    assert forall|w: Seq<(i32, i32)>| !#[trigger] reaches(free, start, goal, w) by {
        if reaches(free, start, goal, w) {
            assert(free(w[w.len() - 1]));
        }
    }
}

/// The route found to `p`, from the cell after the start to `p` itself.
spec fn route(m: Map<u64, Node>, p: (i32, i32)) -> Seq<(i32, i32)>
    decreases m[packed(p)].g,
{
    match m[packed(p)].parent {
        Some(q) => if m[packed(q)].g < m[packed(p)].g {
            route(m, q).push(p)
        } else {
            Seq::empty()
        },
        None => Seq::empty(),
    }
}

proof fn lemma_route(
    free: spec_fn((i32, i32)) -> bool,
    start: (i32, i32),
    goal: (i32, i32),
    m: Map<u64, Node>,
    heap: Multiset<Item>,
    count: nat,
    p: (i32, i32),
)
    requires
        search_inv(free, start, goal, m, heap, count),
        known(m, p),
    ensures
        reaches(free, start, p, route(m, p)),
        route(m, p).len() == g_of(m, p),
    decreases m[packed(p)].g,
{
    if p != start {
        assert(has_route(m, free, p));
        let q = m[packed(p)].parent->Some_0;
        lemma_route(free, start, goal, m, heap, count, q);
        lemma_walk_push(free, start, route(m, q), p);
    }
}

// ---------------------------------------------------------------------------
// The search.
// ---------------------------------------------------------------------------

/// The remaining distance, never more than it takes.
fn heuristic(p: (i32, i32), goal: (i32, i32)) -> (h: u64)
    ensures
        h == manhattan(p, goal),
        h <= 0x1_ffff_fffe,
{
    let dx: i64 = p.0 as i64 - goal.0 as i64;
    let dy: i64 = p.1 as i64 - goal.1 as i64;
    let ax: u64 = if dx < 0 {
        (-dx) as u64
    } else {
        dx as u64
    };
    let ay: u64 = if dy < 0 {
        (-dy) as u64
    } else {
        dy as u64
    };
    ax + ay
}

/// The step in direction `k`: down, up, right, left.
spec fn step(p: (i32, i32), k: int) -> (int, int) {
    if k == 0 {
        (p.0 as int, p.1 + 1)
    } else if k == 1 {
        (p.0 as int, p.1 - 1)
    } else if k == 2 {
        (p.0 + 1, p.1 as int)
    } else {
        (p.0 - 1, p.1 as int)
    }
}

/// The neighbour in direction `k`, where there is one.
fn neighbour(p: (i32, i32), k: usize) -> (r: Option<(i32, i32)>)
    requires
        k < 4,
    ensures
        match r {
            Some(q) => q.0 == step(p, k as int).0 && q.1 == step(p, k as int).1 && adjacent(p, q),
            None => forall|q: (i32, i32)|
                !(q.0 == step(p, k as int).0 && #[trigger] q.1 == step(p, k as int).1),
        },
{
    let (dc, dr): (i32, i32) = if k == 0 {
        (0, 1)
    } else if k == 1 {
        (0, -1)
    } else if k == 2 {
        (1, 0)
    } else {
        (-1, 0)
    };
    match (p.0.checked_add(dc), p.1.checked_add(dr)) {
        (Some(c), Some(r)) => Some((c, r)),
        _ => None,
    }
}

/// Walk back from `goal` to the start.
fn reconstruct(nodes: &HashMap<u64, Node>, goal: (i32, i32)) -> (path: Vec<(u16, u16)>)
    requires
        known(nodes@, goal),
        forall|p: (i32, i32)|
            #[trigger] known(nodes@, p) && nodes@[packed(p)].parent is Some ==> known(
                nodes@,
                nodes@[packed(p)].parent->Some_0,
            ) && g_of(nodes@, nodes@[packed(p)].parent->Some_0) < g_of(nodes@, p),
    ensures
        path@ == narrowed(route(nodes@, goal)),
{
    let ghost m = nodes@;
    let mut back: Vec<(i32, i32)> = Vec::new();
    let mut cur: (i32, i32) = goal;
    let mut more = true;
    proof {
        assert(route(m, goal) =~= route(m, cur) + back@.reverse());
    }
    while more
        invariant
            m == nodes@,
            known(m, cur),
            forall|p: (i32, i32)|
                #[trigger] known(m, p) && m[packed(p)].parent is Some ==> known(
                    m,
                    m[packed(p)].parent->Some_0,
                ) && g_of(m, m[packed(p)].parent->Some_0) < g_of(m, p),
            more ==> route(m, goal) == route(m, cur) + back@.reverse(),
            !more ==> route(m, goal) == back@.reverse(),
        decreases m[packed(cur)].g, more as int,
    {
        match nodes.get(&pack(cur)) {
            Some(node) => {
                match node.parent {
                    Some(prev) => {
                        proof {
                            assert(route(m, cur) == route(m, prev).push(cur));
                            assert(back@.push(cur).reverse() =~= seq![cur] + back@.reverse());
                            assert(route(m, prev).push(cur) + back@.reverse() =~= route(m, prev)
                                + (seq![cur] + back@.reverse()));
                        }
                        back.push(cur);
                        cur = prev;
                    },
                    None => {
                        proof {
                            assert(route(m, cur) =~= Seq::<(i32, i32)>::empty());
                            assert(route(m, goal) =~= back@.reverse());
                        }
                        more = false;
                    },
                }
            },
            None => {
                assert(false);
                more = false;
            },
        }
    }
    let mut path: Vec<(u16, u16)> = Vec::new();
    let mut i: usize = back.len();
    while i > 0
        invariant
            i <= back@.len(),
            path@ == narrowed(back@.reverse().take(back@.len() - i)),
        decreases i,
    {
        i = i - 1;
        let p: (i32, i32) = back[i];
        proof {
            let n = back@.len() - i;
            assert(back@.reverse().take(n) =~= back@.reverse().take(n - 1).push(p));
        }
        path.push((p.0 as u16, p.1 as u16));
        proof {
            let n = back@.len() - i;
            assert(path@ =~= narrowed(back@.reverse().take(n)));
        }
    }
    assert(back@.reverse().take(back@.len() as int) =~= back@.reverse());
    path
}

/// Hand the routes through `cur`, just expanded, on to its neighbours.
fn visit_neighbours<T: TileSource>(
    src: &T,
    extra_blocked: &HashSet<(i32, i32)>,
    start: (i32, i32),
    goal: (i32, i32),
    cur: (i32, i32),
    g: u64,
    nodes: &mut HashMap<u64, Node>,
    open: &mut MinHeap<Item>,
    Ghost(closed): Ghost<Set<(i32, i32)>>,
    Ghost(count): Ghost<nat>,
)
    requires
        old(open).wf(),
        count <= 0xffff_ffff * 0xffff_ffff,
        search_inv(tile_free(src, extra_blocked@), start, goal, old(nodes)@, old(open)@, count),
        frontier_inv(tile_free(src, extra_blocked@), old(nodes)@, Some(cur)),
        closed_inv(tile_free(src, extra_blocked@), start, old(nodes)@, closed, count),
        is_closed(old(nodes)@, cur),
        is_closed(old(nodes)@, start),
        g == g_of(old(nodes)@, cur),
        g < count,
    ensures
        final(open).wf(),
        search_inv(tile_free(src, extra_blocked@), start, goal, final(nodes)@, final(open)@, count),
        frontier_inv(tile_free(src, extra_blocked@), final(nodes)@, None),
        closed_inv(tile_free(src, extra_blocked@), start, final(nodes)@, closed, count),
{
    let ghost free = tile_free(src, extra_blocked@);
    let tentative: u64 = g + 1;
    let mut k: usize = 0;
    while k < 4
        invariant
            k <= 4,
            open.wf(),
            free == tile_free(src, extra_blocked@),
            count <= 0xffff_ffff * 0xffff_ffff,
            search_inv(free, start, goal, nodes@, open@, count),
            frontier_inv(free, nodes@, Some(cur)),
            closed_inv(free, start, nodes@, closed, count),
            is_closed(nodes@, cur),
            is_closed(nodes@, start),
            tentative == g_of(nodes@, cur) + 1,
            tentative <= count,
            forall|q: (i32, i32), j: int|
                0 <= j < k && q.0 == step(cur, j).0 && q.1 == (#[trigger] step(cur, j)).1
                    ==> #[trigger] expanded(nodes@, free, cur, q),
        decreases 4 - k,
    {
        let ghost m1 = nodes@;
        if let Some(nb) = neighbour(cur, k) {
            if !src.blocks(nb.0, nb.1) && !set_contains(extra_blocked, nb) {
                let nb_key: u64 = pack(nb);
                let better = match nodes.get(&nb_key) {
                    Some(node) => !node.closed && tentative < node.g,
                    None => true,
                };
                if better {
                    let rest: u64 = heuristic(nb, goal);
                    let node = Node { g: tentative, parent: Some(cur), closed: false };
                    proof {
                        lemma_improve(
                            free,
                            start,
                            goal,
                            m1,
                            open@,
                            closed,
                            count,
                            cur,
                            nb,
                            node,
                        );
                    }
                    nodes.insert(nb_key, node);
                    open.push(((tentative + rest, tentative), nb));
                    proof {
                        lemma_store(m1, nb, node);
                        assert(item_for(nodes@, nb, goal) == (
                            ((tentative + rest) as u64, tentative),
                            nb,
                        ));
                    }
                } else {
                    proof {
                        // Known already, and no nearer this way.
                        if is_closed(m1, nb) {
                            lemma_closed_is_near(
                                free,
                                start,
                                goal,
                                m1,
                                open@,
                                count,
                                cur,
                                nb,
                            );
                        }
                        assert(expanded(m1, free, cur, nb));
                    }
                }
            } else {
                assert(!free(nb));
            }
            assert(expanded(nodes@, free, cur, nb));
        }
        proof {
            assert forall|q: (i32, i32), j: int|
                0 <= j < k + 1 && q.0 == step(cur, j).0 && q.1 == (#[trigger] step(
                    cur,
                    j,
                )).1 implies #[trigger] expanded(nodes@, free, cur, q) by {
                if j < k {
                    assert(expanded(m1, free, cur, q));
                }
            }
        }
        k = k + 1;
    }
    proof {
        assert forall|p: (i32, i32), q: (i32, i32)|
            is_closed(nodes@, p) && Some(p) != None::<(i32, i32)> implies
            #[trigger] expanded(nodes@, free, p, q) by {
            if p == cur && adjacent(p, q) {
                let j: int = if q.1 == p.1 + 1 {
                    0
                } else if q.1 == p.1 - 1 {
                    1
                } else if q.0 == p.0 + 1 {
                    2
                } else {
                    3
                };
                assert(q.1 == step(cur, j).1);
            }
        }
    }
}

/// A* on any [`TileSource`]. Same rules as [`astar_bool_grid`]: 4-connected,
/// Manhattan heuristic, uniform cost, excludes start, includes goal.
/// `extra_blocked` layers extra impassable cells on top (used to reject e.g.
/// occupied dock pads that the tile source itself would call walkable).
pub fn astar_tile_grid<T: TileSource>(
    src: &T,
    start: (i32, i32),
    goal: (i32, i32),
    extra_blocked: &HashSet<(i32, i32)>,
) -> (res: Option<Vec<(u16, u16)>>)
    ensures
        answers(
            tile_free(src, extra_blocked@),
            start,
            goal,
            match res {
                Some(path) => Some(path@),
                None => None,
            },
        ),
{
    let ghost free = tile_free(src, extra_blocked@);
    if start.0 == goal.0 && start.1 == goal.1 {
        let path: Vec<(u16, u16)> = Vec::new();
        proof {
            let none = Seq::<(i32, i32)>::empty();
            assert(is_shortest(free, start, goal, none));
            assert(path@ =~= narrowed(none));
        }
        return Some(path);
    }
    if src.blocks(goal.0, goal.1) {
        proof {
            assert forall|w: Seq<(i32, i32)>| !#[trigger] reaches(free, start, goal, w) by {
                if reaches(free, start, goal, w) {
                    assert(free(w[w.len() - 1]));
                }
            }
        }
        return None;
    }
    let (w, h) = src.dims();
    let mut open: MinHeap<Item> = MinHeap::new();
    let mut nodes: HashMap<u64, Node> = HashMap::new();
    proof {
        assert(0 <= w * h <= 0xffff_ffff * 0xffff_ffff) by (nonlinear_arith)
            requires
                0 <= w <= 0xffff_ffff,
                0 <= h <= 0xffff_ffff,
        ;
    }
    let area: u64 = w as u64 * h as u64;
    let cap: u64 = if area == 0 {
        1
    } else {
        area
    };
    let first: u64 = heuristic(start, goal);
    nodes.insert(pack(start), Node { g: 0, parent: None, closed: false });
    open.push(((first, 0), start));
    let mut count: u64 = 0;
    let ghost mut closed = Set::<(i32, i32)>::empty();
    proof {
        lemma_store(Map::empty(), start, nodes@[packed(start)]);
        assert(nodes@ =~= Map::<u64, Node>::empty().insert(packed(start), nodes@[packed(start)]));
        assert forall|p: (i32, i32)| #[trigger] known(nodes@, p) implies p == start by {
            let k = packed(p);
        }
        assert(search_inv(free, start, goal, nodes@, open@, 0)) by {
            assert(item_for(nodes@, start, goal) == ((first, 0u64), start));
        }
        assert(frontier_inv(free, nodes@, None));
        assert(closed_inv(free, start, nodes@, closed, 0));
    }
    loop
        invariant
            open.wf(),
            free == tile_free(src, extra_blocked@),
            start != goal,
            !src.blocked_at(goal.0, goal.1),
            (w, h) == src.size(),
            forall|c: i32, r: i32|
                #[trigger] src.blocked_at(c, r) || (0 <= c < w && 0 <= r < h),
            cap >= w * h,
            cap <= 0xffff_ffff * 0xffff_ffff,
            count <= cap,
            search_inv(free, start, goal, nodes@, open@, count as nat),
            frontier_inv(free, nodes@, None),
            closed_inv(free, start, nodes@, closed, count as nat),
        decreases cap - count, open@.len(),
    {
        let ghost heap0 = open@;
        let ghost m0 = nodes@;
        match open.pop() {
            None => {
                proof {
                    lemma_exhausted(free, start, goal, nodes@, heap0, count as nat);
                }
                return None;
            },
            Some(it) => {
                let cur: (i32, i32) = it.1;
                let g: u64 = it.0.1;
                if cur.0 == goal.0 && cur.1 == goal.1 {
                    proof {
                        lemma_popped_is_optimal(free, start, goal, m0, heap0, count as nat, it);
                        lemma_route(free, start, goal, m0, heap0, count as nat, cur);
                        assert(is_shortest(free, start, goal, route(m0, cur)));
                        assert forall|p: (i32, i32)| #[trigger] known(m0, p) && m0[packed(
                            p,
                        )].parent is Some implies known(m0, m0[packed(p)].parent->Some_0) && g_of(
                            m0,
                            m0[packed(p)].parent->Some_0,
                        ) < g_of(m0, p) by {
                            assert(has_route(m0, free, p));
                        }
                    }
                    let path = reconstruct(&nodes, cur);
                    return Some(path);
                }
                assert(known(m0, cur));
                let key: u64 = pack(cur);
                let (seen, parent) = match nodes.get(&key) {
                    Some(node) => (node.closed, node.parent),
                    None => (true, None),
                };
                if seen {
                    proof {
                        lemma_skip(free, start, goal, m0, heap0, count as nat, it);
                    }
                    continue;
                }
                if count >= cap {
                    proof {
                        lemma_close(
                            free,
                            start,
                            goal,
                            m0,
                            heap0,
                            closed,
                            count as nat,
                            it,
                            Node { closed: true, ..m0[packed(cur)] },
                        );
                        lemma_cap(
                            src,
                            extra_blocked@,
                            start,
                            goal,
                            m0.insert(packed(cur), Node { closed: true, ..m0[packed(cur)] }),
                            closed.insert(cur),
                            (count + 1) as nat,
                        );
                    }
                    return None;
                }
                proof {
                    lemma_popped_is_optimal(free, start, goal, m0, heap0, count as nat, it);
                    lemma_close(
                        free,
                        start,
                        goal,
                        m0,
                        heap0,
                        closed,
                        count as nat,
                        it,
                        Node { g, parent, closed: true },
                    );
                    closed = closed.insert(cur);
                }
                count = count + 1;
                nodes.insert(key, Node { g, parent, closed: true });
                visit_neighbours(
                    src,
                    extra_blocked,
                    start,
                    goal,
                    cur,
                    g,
                    &mut nodes,
                    &mut open,
                    Ghost(closed),
                    Ghost(count as nat),
                );
            },
        }
    }
}

/// A cell that was expanded before its neighbour is at most one step
/// further than it.
proof fn lemma_closed_is_near(
    free: spec_fn((i32, i32)) -> bool,
    start: (i32, i32),
    goal: (i32, i32),
    m: Map<u64, Node>,
    heap: Multiset<Item>,
    count: nat,
    cur: (i32, i32),
    nb: (i32, i32),
)
    requires
        search_inv(free, start, goal, m, heap, count),
        is_closed(m, cur),
        is_closed(m, nb),
        adjacent(cur, nb),
        free(nb),
    ensures
        g_of(m, nb) <= g_of(m, cur) + 1,
{
    lemma_route(free, start, goal, m, heap, count, cur);
    lemma_walk_push(free, start, route(m, cur), nb);
    assert(reaches(free, start, nb, route(m, cur).push(nb)));
}

/// A* over a caller-supplied bool grid (`blocked[row*width + col]`).
/// 4-connected, Manhattan heuristic. Returned path excludes the start
/// cell and includes the goal, in `(col, row)` pairs.
pub fn astar_bool_grid(
    width: u32,
    height: u32,
    blocked: &[bool],
    start: (i32, i32),
    goal: (i32, i32),
) -> (res: Option<Vec<(u16, u16)>>)
    ensures
        answers(
            |p: (i32, i32)| !mask_blocks(width, height, blocked@, p.0, p.1),
            start,
            goal,
            match res {
                Some(path) => Some(path@),
                None => None,
            },
        ),
{
    let grid = BoolGrid { width, height, blocked };
    let extra: HashSet<(i32, i32)> = HashSet::new();
    proof {
        let plain = |p: (i32, i32)| !mask_blocks(width, height, blocked@, p.0, p.1);
        assert(tile_free(&grid, extra@) =~= plain);
    }
    astar_tile_grid(&grid, start, goal, &extra)
}

// ---------------------------------------------------------------------------
// Laws.
// ---------------------------------------------------------------------------

/// Two shortest paths between the same cells are equally long, whichever
/// entry point found them.
pub proof fn law_shortest_is_one_length(
    free: spec_fn((i32, i32)) -> bool,
    start: (i32, i32),
    goal: (i32, i32),
    a: Seq<(i32, i32)>,
    b: Seq<(i32, i32)>,
)
    requires
        is_shortest(free, start, goal, a),
        is_shortest(free, start, goal, b),
    ensures
        a.len() == b.len(),
{
}

/// No path is shorter than the orthogonal distance: a diagonal costs two
/// steps.
pub proof fn law_diagonals_cost_two(
    free: spec_fn((i32, i32)) -> bool,
    start: (i32, i32),
    goal: (i32, i32),
    cells: Seq<(i32, i32)>,
)
    requires
        reaches(free, start, goal, cells),
    ensures
        cells.len() >= manhattan(start, goal),
{
    lemma_heuristic_consistent(free, start, cells, 0, goal);
    assert(cells.take(0) =~= Seq::<(i32, i32)>::empty());
}

/// A shortest path does not come back to its start.
pub proof fn law_start_is_excluded(
    free: spec_fn((i32, i32)) -> bool,
    start: (i32, i32),
    goal: (i32, i32),
    cells: Seq<(i32, i32)>,
    i: int,
)
    requires
        is_shortest(free, start, goal, cells),
        0 <= i < cells.len(),
    ensures
        cells[i] != start,
{
    if cells[i] == start {
        let tail = cells.skip(i + 1);
        assert forall|j: int| 0 <= j < tail.len() implies free(#[trigger] tail[j]) && adjacent(
            end_of(start, tail.take(j)),
            tail[j],
        ) by {
            assert(tail[j] == cells[i + 1 + j]);
            assert(end_of(start, cells.take(i + 1 + j)) == end_of(start, tail.take(j))) by {
                assert(cells.take(i + 1 + j).last() == cells[i + j]);
                if j > 0 {
                    assert(tail.take(j).last() == tail[j - 1]);
                }
            }
        }
        assert(end_of(start, tail) == goal) by {
            if tail.len() == 0 {
                assert(cells.last() == start);
            } else {
                assert(tail.last() == cells.last());
            }
        }
        assert(reaches(free, start, goal, tail));
    }
}

/// A path over a mask, cell by cell: every cell is inside the grid and free, the
/// first is one orthogonal step from the start, each is one from the cell before
/// it, and the last is the goal. An empty path means that start and goal are
/// the same.
pub proof fn law_a_path_can_be_walked(
    width: u32,
    height: u32,
    blocked: &[bool],
    start: (i32, i32),
    goal: (i32, i32),
    res: Option<Vec<(u16, u16)>>,
    i: int,
)
    requires
        call_ensures(astar_bool_grid, (width, height, blocked, start, goal), res),
        width <= 65_536,
        height <= 65_536,
        res is Some,
    ensures
        res->0@.len() == 0 <==> start == goal,
        0 <= i < res->0@.len() ==> {
            let (c, r) = (res->0@[i].0 as int, res->0@[i].1 as int);
            &&& c < width && r < height
            &&& r * width + c < blocked@.len()
            &&& !blocked@[r * width + c]
        },
        res->0@.len() > 0 ==> manhattan(
            start,
            (res->0@[0].0 as i32, res->0@[0].1 as i32),
        ) == 1,
        0 < i < res->0@.len() ==> manhattan(
            (res->0@[i - 1].0 as i32, res->0@[i - 1].1 as i32),
            (res->0@[i].0 as i32, res->0@[i].1 as i32),
        ) == 1,
        res->0@.len() > 0 ==> res->0@.last().0 == goal.0 && res->0@.last().1 == goal.1,
{
    let free = |p: (i32, i32)| !mask_blocks(width, height, blocked@, p.0, p.1);
    let path = res->0@;
    let cells = choose|cells: Seq<(i32, i32)>| #[trigger]
        is_shortest(free, start, goal, cells) && path == narrowed(cells);
    assert(is_shortest(free, start, goal, cells) && path == narrowed(cells));
    assert(path.len() == cells.len());
    assert forall|k: int| 0 <= k < cells.len() implies {
        &&& free(cells[k])
        &&& (#[trigger] path[k]).0 == cells[k].0
        &&& path[k].1 == cells[k].1
        &&& k > 0 ==> manhattan(cells[k - 1], cells[k]) == 1
        &&& k == 0 ==> manhattan(start, cells[k]) == 1
    } by {
        assert(path[k] == narrowed(cells)[k]);
        assert(free(cells[k]));
        assert(adjacent(end_of(start, cells.take(k)), cells[k]));
        if k > 0 {
            assert(cells.take(k).last() == cells[k - 1]);
        }
    }
    if cells.len() > 0 {
        assert(path.last() == path[path.len() - 1]);
        if start == goal {
            let none = Seq::<(i32, i32)>::empty();
            assert(reaches(free, start, goal, none));
        }
    }
}

/// Wherever the goal can be walked to at all it is reached, and by no more
/// steps: take any cells that are free, each an orthogonal step from the one
/// before, that lead from start to goal.
pub proof fn law_no_walk_is_shorter(
    width: u32,
    height: u32,
    blocked: &[bool],
    start: (i32, i32),
    goal: (i32, i32),
    res: Option<Vec<(u16, u16)>>,
    walk: Seq<(i32, i32)>,
)
    requires
        call_ensures(astar_bool_grid, (width, height, blocked, start, goal), res),
        width <= i32::MAX,
        height <= i32::MAX,
        walk.len() == 0 ==> start == goal,
        walk.len() > 0 ==> walk.last() == goal && manhattan(start, walk[0]) == 1,
        forall|i: int|
            0 < i < walk.len() ==> manhattan(walk[i - 1], #[trigger] walk[i]) == 1,
        forall|i: int|
            0 <= i < walk.len() ==> {
                let (c, r) = (#[trigger] walk[i]);
                0 <= c < width && 0 <= r < height && r * width + c < blocked@.len() && !blocked@[r
                    * width + c]
            },
    ensures
        res is Some,
        res->0@.len() <= walk.len(),
{
    let free = |p: (i32, i32)| !mask_blocks(width, height, blocked@, p.0, p.1);
    assert forall|i: int| 0 <= i < walk.len() implies free(#[trigger] walk[i]) && adjacent(
        end_of(start, walk.take(i)),
        walk[i],
    ) by {
        let (c, r) = walk[i];
        assert(!blocked@[r * width + c]);
        if i > 0 {
            assert(walk.take(i).last() == walk[i - 1]);
        }
    }
    assert(reaches(free, start, goal, walk));
    if let Some(path) = res {
        let cells = choose|cells: Seq<(i32, i32)>| #[trigger]
            is_shortest(free, start, goal, cells) && path@ == narrowed(cells);
        assert(is_shortest(free, start, goal, cells));
        assert(path@.len() == cells.len());
    }
}

/// Cells laid on top of a source are walked on as little as those that the
/// source blocks.
pub proof fn law_extra_cells_are_avoided<T: TileSource>(
    src: &T,
    start: (i32, i32),
    goal: (i32, i32),
    extra: &HashSet<(i32, i32)>,
    res: Option<Vec<(u16, u16)>>,
) -> (cells: Seq<(i32, i32)>)
    requires
        call_ensures(astar_tile_grid::<T>, (src, start, goal, extra), res),
        res is Some,
    ensures
        res->0@ == narrowed(cells),
        forall|i: int|
            0 <= i < cells.len() ==> !extra@.contains(#[trigger] cells[i]) && !src.blocked_at(
                cells[i].0,
                cells[i].1,
            ),
        cells.len() > 0 ==> cells.last() == goal,
        cells.len() == 0 ==> start == goal,
{
    let free = tile_free(src, extra@);
    let cells = choose|cells: Seq<(i32, i32)>| #[trigger]
        is_shortest(free, start, goal, cells) && res->0@ == narrowed(cells);
    assert(is_shortest(free, start, goal, cells) && res->0@ == narrowed(cells));
    assert forall|i: int| 0 <= i < cells.len() implies !extra@.contains(#[trigger] cells[i])
        && !src.blocked_at(cells[i].0, cells[i].1) by {
        assert(free(cells[i]));
    }
    cells
}

/// A cell outside of a mask, or past its end, is blocked; one inside is as the
/// mask says, row by row.
pub proof fn law_a_mask_is_read_row_by_row(grid: &BoolGrid<'_>, c: i32, r: i32, b: bool)
    requires
        call_ensures(<BoolGrid as TileSource>::blocks, (grid, c, r), b),
        grid.width <= i32::MAX,
        grid.height <= i32::MAX,
    ensures
        c < 0 || r < 0 || c >= grid.width || r >= grid.height ==> b,
        0 <= c < grid.width && 0 <= r < grid.height && r * grid.width + c < grid.blocked@.len()
            ==> b == grid.blocked@[r * grid.width + c],
        0 <= c < grid.width && 0 <= r < grid.height && r * grid.width + c >= grid.blocked@.len()
            ==> b,
{
}

/// The distance of two cells is how far apart their columns are, and their rows.
pub proof fn law_distance_counts_columns_and_rows(a: (i32, i32), b: (i32, i32))
    ensures
        manhattan(a, b) == manhattan(b, a),
        a.0 <= b.0 && a.1 <= b.1 ==> manhattan(a, b) == (b.0 - a.0) + (b.1 - a.1),
        a.0 <= b.0 && a.1 >= b.1 ==> manhattan(a, b) == (b.0 - a.0) + (a.1 - b.1),
        manhattan(a, b) == 0 <==> a == b,
{
}

} // verus!
