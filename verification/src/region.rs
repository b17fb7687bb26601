//! Region search on the grid: which cells a flood from a set of start cells
//! reaches, stepping 20 px in the eight compass directions, inside a box and
//! around blocked cells.
use vstd::prelude::*;
use vstd::set_lib::*;
use crate::shared::Point;

verus! {

/// An inclusive search box, in pixels.
pub struct SearchBox {
    pub x_lo: i64,
    pub x_hi: i64,
    pub y_lo: i64,
    pub y_hi: i64,
}

/// The mathematical value of a search box.
pub struct Rect {
    pub x_lo: int,
    pub x_hi: int,
    pub y_lo: int,
    pub y_hi: int,
}

impl View for SearchBox {
    type V = Rect;

    open spec fn view(&self) -> Rect {
        Rect { x_lo: self.x_lo as int, x_hi: self.x_hi as int, y_lo: self.y_lo as int, y_hi: self.y_hi as int }
    }
}

/// Coordinates small enough that a step of 20 px never leaves `i64`.
pub open spec fn box_sane(b: Rect) -> bool {
    &&& -0x100_0000_0000 <= b.x_lo && b.x_hi <= 0x100_0000_0000
    &&& -0x100_0000_0000 <= b.y_lo && b.y_hi <= 0x100_0000_0000
}

pub open spec fn in_box(b: Rect, c: (int, int)) -> bool {
    b.x_lo <= c.0 <= b.x_hi && b.y_lo <= c.1 <= b.y_hi
}

/// The number of integer points in the box.
pub open spec fn box_count(b: Rect) -> int {
    if b.x_lo <= b.x_hi && b.y_lo <= b.y_hi {
        (b.x_hi - b.x_lo + 1) * (b.y_hi - b.y_lo + 1)
    } else {
        0
    }
}

/// The eight steps of the flood, in the order the search takes them.
pub open spec fn step(d: int) -> (int, int) {
    if d == 0 {
        (-20, 0)
    } else if d == 1 {
        (20, 0)
    } else if d == 2 {
        (0, -20)
    } else if d == 3 {
        (0, 20)
    } else if d == 4 {
        (-20, -20)
    } else if d == 5 {
        (-20, 20)
    } else if d == 6 {
        (20, -20)
    } else {
        (20, 20)
    }
}

pub open spec fn shift(c: (int, int), d: int) -> (int, int) {
    (c.0 + step(d).0, c.1 + step(d).1)
}

pub open spec fn cell(c: (i64, i64)) -> (int, int) {
    (c.0 as int, c.1 as int)
}

pub open spec fn cells(s: Seq<(i64, i64)>) -> Seq<(int, int)> {
    s.map_values(|c: (i64, i64)| cell(c))
}

/// `c` is one of the listed points.
pub open spec fn listed(points: Seq<Point>, c: (int, int)) -> bool {
    exists|k: int| 0 <= k < points.len() && points[k].0 == c.0 && points[k].1 == c.1
}

/// A cell the flood may enter: inside the box and not blocked.
pub open spec fn passable(b: Rect, blocked: Seq<Point>, c: (int, int)) -> bool {
    in_box(b, c) && !listed(blocked, c)
}

/// `s` holds every passable start and every passable step from a cell of `s`.
pub open spec fn closed_region(
    b: Rect,
    blocked: Seq<Point>,
    starts: Set<(int, int)>,
    s: Set<(int, int)>,
) -> bool {
    &&& forall|c: (int, int)| starts.contains(c) && passable(b, blocked, c) ==> #[trigger] s.contains(c)
    &&& forall|c: (int, int), d: int|
        s.contains(c) && 0 <= d < 8 && passable(b, blocked, shift(c, d)) ==> #[trigger] s.contains(
            shift(c, d),
        )
}

/// The cells the flood reaches: the least set closed as above.
pub open spec fn reached(b: Rect, blocked: Seq<Point>, starts: Set<(int, int)>) -> Set<(int, int)> {
    Set::new(|c: (int, int)| forall|s: Set<(int, int)>| closed_region(b, blocked, starts, s) ==> #[trigger] s.contains(c))
}

proof fn lemma_index_injective(a1: int, b1: int, a2: int, b2: int, w: int)
    requires
        0 <= a1 < w,
        0 <= a2 < w,
        a1 + b1 * w == a2 + b2 * w,
    ensures
        a1 == a2,
        b1 == b2,
{
    if b1 < b2 {
        assert(b1 * w + w <= b2 * w) by (nonlinear_arith)
            requires
                b1 < b2,
                w > 0,
        ;
    } else if b2 < b1 {
        assert(b2 * w + w <= b1 * w) by (nonlinear_arith)
            requires
                b2 < b1,
                w > 0,
        ;
    }
}

proof fn lemma_index_range(a: int, b: int, w: int, h: int)
    requires
        0 <= a < w,
        0 <= b < h,
    ensures
        0 <= a + b * w < w * h,
{
    assert(0 <= b * w) by (nonlinear_arith)
        requires
            0 <= b,
            0 <= w,
    ;
    assert(b * w + w <= h * w) by (nonlinear_arith)
        requires
            b + 1 <= h,
            0 <= w,
    ;
    assert(h * w == w * h) by (nonlinear_arith);
}

/// A list of distinct cells of a box is no longer than the box holds.
pub proof fn lemma_distinct_cells_fit(b: Rect, s: Seq<(int, int)>)
    requires
        s.no_duplicates(),
        forall|k: int| 0 <= k < s.len() ==> in_box(b, #[trigger] s[k]),
    ensures
        s.len() <= box_count(b),
{
    if s.len() == 0 {
        return;
    }
    assert(in_box(b, s[0]));
    let w = b.x_hi - b.x_lo + 1;
    let h = b.y_hi - b.y_lo + 1;
    let f = |c: (int, int)| (c.0 - b.x_lo) + (c.1 - b.y_lo) * w;
    let t = s.map_values(f);
    assert forall|i: int, j: int| 0 <= i < t.len() && 0 <= j < t.len() && i != j implies t[i]
        != t[j] by {
        assert(in_box(b, s[i]));
        assert(in_box(b, s[j]));
        if t[i] == t[j] {
            lemma_index_injective(
                s[i].0 - b.x_lo,
                s[i].1 - b.y_lo,
                s[j].0 - b.x_lo,
                s[j].1 - b.y_lo,
                w,
            );
            assert(s[i] == s[j]);
        }
    }
    assert(t.no_duplicates());
    t.unique_seq_to_set();
    assert forall|v: int| t.to_set().contains(v) implies set_int_range(0, w * h).contains(v) by {
        let k = choose|k: int| 0 <= k < t.len() && t[k] == v;
        assert(in_box(b, s[k]));
        lemma_index_range(s[k].0 - b.x_lo, s[k].1 - b.y_lo, w, h);
    }
    assert(0 <= w * h) by (nonlinear_arith)
        requires
            0 <= w,
            0 <= h,
    ;
    lemma_int_range(0, w * h);
    lemma_len_subset(t.to_set(), set_int_range(0, w * h));
}

/// Whether `(x, y)` is one of the listed points.
pub fn is_listed(points: &Vec<Point>, x: i64, y: i64) -> (r: bool)
    ensures
        r == listed(points@, (x as int, y as int)),
{
    let mut i: usize = 0;
    while i < points.len()
        invariant
            i <= points@.len(),
            forall|k: int| 0 <= k < i ==> !(points@[k].0 == x && points@[k].1 == y),
        decreases points@.len() - i,
    {
        let p: Point = points[i];
        if p.0 as i64 == x && p.1 as i64 == y {
            return true;
        }
        i = i + 1;
    }
    false
}

/// Whether the cell is in the list.
pub fn has_cell(list: &Vec<(i64, i64)>, c: (i64, i64)) -> (r: bool)
    ensures
        r == cells(list@).contains(cell(c)),
{
    let mut i: usize = 0;
    while i < list.len()
        invariant
            i <= list@.len(),
            forall|k: int| 0 <= k < i ==> list@[k] != c,
        decreases list@.len() - i,
    {
        if list[i].0 == c.0 && list[i].1 == c.1 {
            assert(cells(list@)[i as int] == cell(c));
            return true;
        }
        i = i + 1;
    }
    assert forall|k: int| 0 <= k < cells(list@).len() implies cells(list@)[k] != cell(c) by {
        assert(list@[k] != c);
    }
    false
}

fn step_exec(d: usize) -> (r: (i64, i64))
    requires
        d < 8,
    ensures
        r.0 == step(d as int).0,
        r.1 == step(d as int).1,
{
    if d == 0 {
        (-20, 0)
    } else if d == 1 {
        (20, 0)
    } else if d == 2 {
        (0, -20)
    } else if d == 3 {
        (0, 20)
    } else if d == 4 {
        (-20, -20)
    } else if d == 5 {
        (-20, 20)
    } else if d == 6 {
        (20, -20)
    } else {
        (20, 20)
    }
}


/// The cell is a step from a visited cell.
spec fn stepped_from(c: (i64, i64), vis: Seq<(int, int)>) -> bool {
    exists|v: (int, int), d: int| #![trigger shift(v, d)] vis.contains(v) && 0 <= d < 8 && cell(c) == shift(v, d)
}

/// Every queued cell past the starts is a step from a visited cell.
#[verifier::opaque]
spec fn queue_justified(ns: int, queue: Seq<(i64, i64)>, vis: Seq<(int, int)>) -> bool {
    forall|k: int| ns <= k < queue.len() ==> stepped_from(#[trigger] queue[k], vis)
}

/// Every passable cell taken from the queue so far has been visited.
#[verifier::opaque]
spec fn processed_visited(
    b: Rect,
    blocked: Seq<Point>,
    head: int,
    queue: Seq<(i64, i64)>,
    vis: Seq<(int, int)>,
) -> bool {
    forall|k: int|
        #![trigger queue[k]]
        0 <= k < head && passable(b, blocked, cell(queue[k])) ==> vis.contains(cell(queue[k]))
}

/// Every step from a visited cell has been queued.
#[verifier::opaque]
spec fn steps_queued(queue: Seq<(i64, i64)>, vis: Seq<(int, int)>) -> bool {
    forall|v: (int, int), d: int|
        #![trigger vis.contains(v), shift(v, d)]
        vis.contains(v) && 0 <= d < 8 ==> exists|k: int|
            0 <= k < queue.len() && cell(#[trigger] queue[k]) == shift(v, d)
}

/// Every visited cell lies in every closed set.
#[verifier::opaque]
spec fn below_closed(b: Rect, blocked: Seq<Point>, st: Set<(int, int)>, vis: Seq<(int, int)>) -> bool {
    forall|s: Set<(int, int)>, v: (int, int)|
        closed_region(b, blocked, st, s) && #[trigger] vis.contains(v) ==> #[trigger] s.contains(v)
}

spec fn all_passable(b: Rect, blocked: Seq<Point>, vis: Seq<(int, int)>) -> bool {
    forall|k: int| 0 <= k < vis.len() ==> passable(b, blocked, #[trigger] vis[k])
}

/// Appending a cell not yet listed keeps a list of cells free of repeats.
pub proof fn lemma_push_distinct(ovis: Seq<(int, int)>, c: (int, int))
    requires
        ovis.no_duplicates(),
        !ovis.contains(c),
    ensures
        ovis.push(c).no_duplicates(),
{
    let vis = ovis.push(c);
    assert forall|i: int, j: int| 0 <= i < vis.len() && 0 <= j < vis.len() && i != j implies vis[i]
        != vis[j] by {
        if i < ovis.len() && j < ovis.len() {
            assert(vis[i] == ovis[i]);
            assert(vis[j] == ovis[j]);
        } else if i < ovis.len() {
            assert(vis[i] == ovis[i]);
            assert(ovis.contains(ovis[i]));
        } else if j < ovis.len() {
            assert(vis[j] == ovis[j]);
            assert(ovis.contains(ovis[j]));
        }
    }
}

/// Facts about the queue and the visited list after visiting the cell at `head`.
spec fn visit_step(
    old_queue: Seq<(i64, i64)>,
    queue: Seq<(i64, i64)>,
    head: int,
) -> bool {
    &&& 0 <= head < old_queue.len()
    &&& queue.len() == old_queue.len() + 8
    &&& queue.subrange(0, old_queue.len() as int) == old_queue
    &&& forall|e: int|
        0 <= e < 8 ==> cell(#[trigger] queue[old_queue.len() + e]) == shift(cell(old_queue[head]), e)
}

proof fn lemma_prefix_kept(old_queue: Seq<(i64, i64)>, queue: Seq<(i64, i64)>)
    requires
        old_queue.len() <= queue.len(),
        queue.subrange(0, old_queue.len() as int) == old_queue,
    ensures
        forall|k: int| 0 <= k < old_queue.len() ==> queue[k] == old_queue[k],
{
    assert forall|k: int| 0 <= k < old_queue.len() implies queue[k] == old_queue[k] by {
        assert(queue.subrange(0, old_queue.len() as int)[k] == queue[k]);
    }
}

proof fn lemma_push_contains(ovis: Seq<(int, int)>, c: (int, int))
    ensures
        ovis.push(c).contains(c),
        forall|v: (int, int)| ovis.contains(v) ==> ovis.push(c).contains(v),
{
    let vis = ovis.push(c);
    assert(vis[vis.len() - 1] == c);
    assert forall|v: (int, int)| ovis.contains(v) implies vis.contains(v) by {
        let j = choose|j: int| 0 <= j < ovis.len() && ovis[j] == v;
        assert(vis[j] == v);
    }
}

proof fn lemma_visit_justified(
    ns: int,
    old_queue: Seq<(i64, i64)>,
    queue: Seq<(i64, i64)>,
    ovis: Seq<(int, int)>,
    head: int,
)
    requires
        0 <= ns,
        visit_step(old_queue, queue, head),
        queue_justified(ns, old_queue, ovis),
    ensures
        queue_justified(ns, queue, ovis.push(cell(old_queue[head]))),
{
    reveal(queue_justified);
    let q = old_queue[head];
    let vis = ovis.push(cell(q));
    lemma_prefix_kept(old_queue, queue);
    lemma_push_contains(ovis, cell(q));
    assert forall|k: int| ns <= k < queue.len() implies stepped_from(#[trigger] queue[k], vis) by {
        if k < old_queue.len() {
            assert(queue[k] == old_queue[k]);
            assert(stepped_from(old_queue[k], ovis));
            let (v, dd) = choose|v: (int, int), dd: int|
                #![trigger shift(v, dd)]
                ovis.contains(v) && 0 <= dd < 8 && cell(old_queue[k]) == shift(v, dd);
            assert(vis.contains(v));
            assert(vis.contains(v) && 0 <= dd < 8 && cell(queue[k]) == shift(v, dd));
        } else {
            let e = k - old_queue.len();
            assert(cell(queue[old_queue.len() + e]) == shift(cell(q), e));
            assert(vis.contains(cell(q)) && 0 <= e < 8 && cell(queue[k]) == shift(cell(q), e));
        }
    }
}

proof fn lemma_visit_processed(
    b: Rect,
    blocked: Seq<Point>,
    old_queue: Seq<(i64, i64)>,
    queue: Seq<(i64, i64)>,
    ovis: Seq<(int, int)>,
    head: int,
)
    requires
        visit_step(old_queue, queue, head),
        processed_visited(b, blocked, head, old_queue, ovis),
    ensures
        processed_visited(b, blocked, head + 1, queue, ovis.push(cell(old_queue[head]))),
{
    reveal(processed_visited);
    let q = old_queue[head];
    let vis = ovis.push(cell(q));
    lemma_prefix_kept(old_queue, queue);
    lemma_push_contains(ovis, cell(q));
    assert forall|k: int|
        #![trigger queue[k]]
        0 <= k < head + 1 && passable(b, blocked, cell(queue[k])) implies vis.contains(
            cell(queue[k]),
        ) by {
        assert(queue[k] == old_queue[k]);
        if k < head {
            assert(ovis.contains(cell(old_queue[k])));
        }
    }
}

proof fn lemma_visit_steps(
    old_queue: Seq<(i64, i64)>,
    queue: Seq<(i64, i64)>,
    ovis: Seq<(int, int)>,
    head: int,
)
    requires
        visit_step(old_queue, queue, head),
        steps_queued(old_queue, ovis),
    ensures
        steps_queued(queue, ovis.push(cell(old_queue[head]))),
{
    reveal(steps_queued);
    let q = old_queue[head];
    let vis = ovis.push(cell(q));
    lemma_prefix_kept(old_queue, queue);
    assert forall|v: (int, int), dd: int|
        #![trigger vis.contains(v), shift(v, dd)]
        vis.contains(v) && 0 <= dd < 8 implies exists|k: int|
            0 <= k < queue.len() && cell(#[trigger] queue[k]) == shift(v, dd) by {
        let j = choose|j: int| 0 <= j < vis.len() && vis[j] == v;
        if j < ovis.len() {
            assert(ovis[j] == v);
            assert(ovis.contains(v));
            let k = choose|k: int|
                0 <= k < old_queue.len() && cell(#[trigger] old_queue[k]) == shift(v, dd);
            assert(queue[k] == old_queue[k]);
        } else {
            assert(v == cell(q));
            assert(cell(queue[old_queue.len() + dd]) == shift(cell(q), dd));
        }
    }
}

proof fn lemma_visit_below(
    b: Rect,
    blocked: Seq<Point>,
    st: Set<(int, int)>,
    starts: Seq<(i64, i64)>,
    old_queue: Seq<(i64, i64)>,
    ovis: Seq<(int, int)>,
    head: int,
)
    requires
        st == cells(starts).to_set(),
        0 <= head < old_queue.len(),
        starts.len() <= old_queue.len(),
        forall|k: int| 0 <= k < starts.len() ==> old_queue[k] == starts[k],
        passable(b, blocked, cell(old_queue[head])),
        queue_justified(starts.len() as int, old_queue, ovis),
        below_closed(b, blocked, st, ovis),
    ensures
        below_closed(b, blocked, st, ovis.push(cell(old_queue[head]))),
{
    reveal(queue_justified);
    reveal(below_closed);
    let q = old_queue[head];
    let vis = ovis.push(cell(q));
    let ns = starts.len() as int;
    assert forall|s: Set<(int, int)>, v: (int, int)|
        closed_region(b, blocked, st, s) && #[trigger] vis.contains(v) implies #[trigger] s.contains(
            v,
        ) by {
        let j = choose|j: int| 0 <= j < vis.len() && vis[j] == v;
        if j < ovis.len() {
            assert(ovis[j] == v);
            assert(ovis.contains(v));
        } else {
            assert(v == cell(q));
            if head < ns {
                assert(cells(starts)[head] == cell(q));
                assert(st.contains(cell(q)));
            } else {
                assert(ns <= head < old_queue.len());
                assert(stepped_from(old_queue[head], ovis));
                let (w, dd) = choose|w: (int, int), dd: int|
                    #![trigger shift(w, dd)]
                    ovis.contains(w) && 0 <= dd < 8 && cell(old_queue[head]) == shift(w, dd);
                assert(s.contains(w));
                assert(s.contains(shift(w, dd)));
            }
        }
    }
}

/// The invariants survive skipping the cell at `head`.
proof fn lemma_skip(
    b: Rect,
    blocked: Seq<Point>,
    queue: Seq<(i64, i64)>,
    vis: Seq<(int, int)>,
    head: int,
)
    requires
        0 <= head < queue.len(),
        !passable(b, blocked, cell(queue[head])) || vis.contains(cell(queue[head])),
        processed_visited(b, blocked, head, queue, vis),
    ensures
        processed_visited(b, blocked, head + 1, queue, vis),
{
    reveal(processed_visited);
}

/// At the end of the search the visited cells are exactly the reached ones.
proof fn lemma_search_done(
    b: Rect,
    blocked: Seq<Point>,
    st: Set<(int, int)>,
    starts: Seq<(i64, i64)>,
    queue: Seq<(i64, i64)>,
    vis: Seq<(int, int)>,
)
    requires
        st == cells(starts).to_set(),
        starts.len() <= queue.len(),
        forall|k: int| 0 <= k < starts.len() ==> queue[k] == starts[k],
        processed_visited(b, blocked, queue.len() as int, queue, vis),
        steps_queued(queue, vis),
        below_closed(b, blocked, st, vis),
    ensures
        forall|c: (int, int)| vis.contains(c) <==> reached(b, blocked, st).contains(c),
{
    reveal(processed_visited);
    reveal(steps_queued);
    reveal(below_closed);
    let r = reached(b, blocked, st);
    assert(closed_region(b, blocked, st, vis.to_set())) by {
        assert forall|c: (int, int)|
            st.contains(c) && passable(b, blocked, c) implies #[trigger] vis.to_set().contains(c) by {
            let k = choose|k: int| 0 <= k < cells(starts).len() && cells(starts)[k] == c;
            assert(queue[k] == starts[k]);
            assert(cell(queue[k]) == c);
        }
        assert forall|c: (int, int), d: int|
            vis.to_set().contains(c) && 0 <= d < 8 && passable(
                b,
                blocked,
                shift(c, d),
            ) implies #[trigger] vis.to_set().contains(shift(c, d)) by {
            assert(vis.contains(c));
            let k = choose|k: int| 0 <= k < queue.len() && cell(#[trigger] queue[k]) == shift(c, d);
            assert(cell(queue[k]) == shift(c, d));
        }
    }
    assert forall|c: (int, int)| vis.contains(c) <==> r.contains(c) by {
        if vis.contains(c) {
            assert forall|s: Set<(int, int)>| closed_region(b, blocked, st, s) implies #[trigger] s.contains(
                c,
            ) by {}
        }
        if r.contains(c) {
            assert(vis.to_set().contains(c));
        }
    }
}

/// The eight steps from a cell, in search order.
pub open spec fn neighbours(c: (int, int)) -> Seq<(int, int)> {
    Seq::new(8, |d: int| shift(c, d))
}

/// The visits so far are distinct cells of the box.
pub open spec fn visits_ok(b: Rect, vis: Seq<(int, int)>) -> bool {
    vis.no_duplicates() && forall|k: int| 0 <= k < vis.len() ==> in_box(b, #[trigger] vis[k])
}

/// The breadth-first search from a state: the queue is taken in order from
/// `head`; a passable cell not yet visited is visited and its eight steps
/// join the end of the queue. Its result is the cells in the order they
/// were visited, once the queue is done. (The search only ever reaches
/// states whose visits are distinct cells of the box; from any other state
/// it stops.)
pub open spec fn bfs(
    b: Rect,
    blocked: Seq<Point>,
    queue: Seq<(int, int)>,
    head: nat,
    vis: Seq<(int, int)>,
) -> Seq<(int, int)>
    decreases box_count(b) - vis.len(), queue.len() - head,
{
    if head >= queue.len() || !visits_ok(b, vis) || vis.len() > box_count(b) {
        vis
    } else {
        let c = queue[head as int];
        if passable(b, blocked, c) && !vis.contains(c) {
            proof {
                lemma_push_distinct(vis, c);
                assert forall|k: int| 0 <= k < vis.push(c).len() implies in_box(b, #[trigger] vis.push(c)[k]) by {
                    if k < vis.len() {
                        assert(vis.push(c)[k] == vis[k]);
                    }
                }
                lemma_distinct_cells_fit(b, vis.push(c));
            }
            bfs(b, blocked, queue + neighbours(c), head + 1, vis.push(c))
        } else {
            bfs(b, blocked, queue, head + 1, vis)
        }
    }
}

/// The order in which the search from the start cells visits the cells.
pub open spec fn flood_order(b: Rect, blocked: Seq<Point>, starts: Seq<(int, int)>) -> Seq<(int, int)> {
    bfs(b, blocked, starts, 0, Seq::empty())
}

/// Floods from the start cells and returns the cells reached, each once,
/// in the order the breadth-first search enters them (see [`bfs`]).
pub fn flood_region(b: &SearchBox, starts: &Vec<(i64, i64)>, blocked: &Vec<Point>) -> (visited: Vec<(i64, i64)>)
    requires
        box_sane(b@),
    ensures
        cells(visited@).no_duplicates(),
        forall|k: int| 0 <= k < visited@.len() ==> passable(b@, blocked@, #[trigger] cells(visited@)[k]),
        forall|c: (int, int)|
            #![trigger cells(visited@).contains(c)]
            cells(visited@).contains(c) <==> reached(b@, blocked@, cells(starts@).to_set()).contains(c),
        cells(visited@) == flood_order(b@, blocked@, cells(starts@)),
{
    let ghost st = cells(starts@).to_set();
    let ghost n = box_count(b@);
    let ns: usize = starts.len();
    let mut queue: Vec<(i64, i64)> = Vec::new();
    let mut i: usize = 0;
    while i < ns
        invariant
            ns == starts@.len(),
            i <= ns,
            queue@ == starts@.subrange(0, i as int),
        decreases ns - i,
    {
        queue.push(starts[i]);
        i = i + 1;
    }
    let mut visited: Vec<(i64, i64)> = Vec::new();
    let mut head: usize = 0;
    proof {
        reveal(queue_justified);
        reveal(processed_visited);
        reveal(steps_queued);
        reveal(below_closed);
        assert(queue@ =~= starts@.subrange(0, ns as int));
        assert(cells(visited@) =~= Seq::<(int, int)>::empty());
        assert(starts@.subrange(0, ns as int) =~= starts@);
        assert(cells(queue@) == cells(starts@));
    }
    while head < queue.len()
        invariant
            st == cells(starts@).to_set(),
            ns == starts@.len(),
            box_sane(b@),
            queue@.len() == ns + 8 * visited@.len(),
            visited@.len() <= n,
            n == box_count(b@),
            head <= queue@.len(),
            forall|k: int| 0 <= k < ns ==> queue@[k] == starts@[k],
            cells(visited@).no_duplicates(),
            all_passable(b@, blocked@, cells(visited@)),
            queue_justified(ns as int, queue@, cells(visited@)),
            processed_visited(b@, blocked@, head as int, queue@, cells(visited@)),
            steps_queued(queue@, cells(visited@)),
            below_closed(b@, blocked@, st, cells(visited@)),
            bfs(b@, blocked@, cells(queue@), head as nat, cells(visited@)) == flood_order(
                b@,
                blocked@,
                cells(starts@),
            ),
        decreases ns + 8 * n - head,
    {
        let q: (i64, i64) = queue[head];
        let ghost old_visited = visited@;
        let ghost old_queue = queue@;
        if b.x_lo <= q.0 && q.0 <= b.x_hi && b.y_lo <= q.1 && q.1 <= b.y_hi && !has_cell(&visited, q)
            && !is_listed(blocked, q.0, q.1) {
            visited.push(q);
            let mut d: usize = 0;
            while d < 8
                invariant
                    d <= 8,
                    queue@.len() == old_queue.len() + d,
                    queue@.subrange(0, old_queue.len() as int) == old_queue,
                    in_box(b@, cell(q)),
                    box_sane(b@),
                    forall|e: int|
                        0 <= e < d ==> cell(#[trigger] queue@[old_queue.len() + e]) == shift(
                            cell(q),
                            e,
                        ),
                decreases 8 - d,
            {
                let s: (i64, i64) = step_exec(d);
                queue.push((q.0 + s.0, q.1 + s.1));
                d = d + 1;
            }
            proof {
                let ovis = cells(old_visited);
                assert(cells(visited@) =~= ovis.push(cell(q)));
                assert(cells(queue@) =~= cells(old_queue) + neighbours(cell(q))) by {
                    assert forall|k: int| 0 <= k < queue@.len() implies cells(queue@)[k] == (cells(old_queue)
                        + neighbours(cell(q)))[k] by {
                        if k < old_queue.len() {
                            assert(queue@.subrange(0, old_queue.len() as int)[k] == queue@[k]);
                        } else {
                            assert(cell(queue@[old_queue.len() + (k - old_queue.len())]) == shift(
                                cell(q),
                                k - old_queue.len(),
                            ));
                        }
                    }
                }
                assert(visits_ok(b@, ovis)) by {
                    reveal(queue_justified);
                    assert forall|k: int| 0 <= k < ovis.len() implies in_box(b@, #[trigger] ovis[k]) by {
                        assert(passable(b@, blocked@, ovis[k]));
                    }
                }
                assert(cells(old_queue)[head as int] == cell(q));
                assert(ovis.len() == old_visited.len());
                assert(ovis.len() < cells(visited@).len());
                assert(ovis.len() <= box_count(b@));
                assert(head < cells(old_queue).len());
                assert(passable(b@, blocked@, cell(q)));
                assert(!ovis.contains(cell(q)));
                assert(bfs(b@, blocked@, cells(old_queue), head as nat, ovis) == bfs(
                    b@,
                    blocked@,
                    cells(old_queue) + neighbours(cell(q)),
                    (head + 1) as nat,
                    ovis.push(cell(q)),
                ));
                assert(bfs(b@, blocked@, cells(old_queue), head as nat, ovis) == bfs(
                    b@,
                    blocked@,
                    cells(queue@),
                    (head + 1) as nat,
                    cells(visited@),
                ));
                assert(visit_step(old_queue, queue@, head as int));
                lemma_visit_below(b@, blocked@, st, starts@, old_queue, ovis, head as int);
                lemma_visit_justified(ns as int, old_queue, queue@, ovis, head as int);
                lemma_visit_processed(b@, blocked@, old_queue, queue@, ovis, head as int);
                lemma_visit_steps(old_queue, queue@, ovis, head as int);
                lemma_push_distinct(ovis, cell(q));
                assert forall|k: int| 0 <= k < ns implies queue@[k] == starts@[k] by {
                    assert(queue@.subrange(0, old_queue.len() as int)[k] == queue@[k]);
                }
                assert forall|k: int| 0 <= k < visited@.len() implies passable(
                    b@,
                    blocked@,
                    #[trigger] cells(visited@)[k],
                ) by {
                    if k < old_visited.len() {
                        assert(cells(visited@)[k] == ovis[k]);
                    }
                }
                lemma_distinct_cells_fit(b@, cells(visited@));
            }
        } else {
            proof {
                lemma_skip(b@, blocked@, queue@, cells(visited@), head as int);
                let vis = cells(visited@);
                assert(visits_ok(b@, vis)) by {
                    assert forall|k: int| 0 <= k < vis.len() implies in_box(b@, #[trigger] vis[k]) by {
                        assert(passable(b@, blocked@, vis[k]));
                    }
                }
                assert(cells(queue@)[head as int] == cell(q));
                assert(bfs(b@, blocked@, cells(queue@), head as nat, vis) == bfs(
                    b@,
                    blocked@,
                    cells(queue@),
                    (head + 1) as nat,
                    vis,
                ));
            }
        }
        head = head + 1;
    }
    proof {
        lemma_search_done(b@, blocked@, st, starts@, queue@, cells(visited@));
        let vis = cells(visited@);
        assert(visits_ok(b@, vis)) by {
            assert forall|k: int| 0 <= k < vis.len() implies in_box(b@, #[trigger] vis[k]) by {
                assert(passable(b@, blocked@, vis[k]));
            }
        }
    }
    visited
}

} // verus!
