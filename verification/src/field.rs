//! The playing field: movement, clamping, grid cells, trails and the
//! geometry of a territory claim.
use vstd::prelude::*;
use crate::shared::Point;
use crate::region::{cells, cell, has_cell};

verus! {

/// The side of a grid cell, in pixels.
pub const CELL: i32 = 20;

/// Field bounds in quarter pixels: x in 0..=800 px, y in 45..=600 px
/// (the top 45 px hold the scoreboard).
pub const FIELD_MIN_X: i64 = 0;
pub const FIELD_MAX_X: i64 = 3200;
pub const FIELD_MIN_Y: i64 = 180;
pub const FIELD_MAX_Y: i64 = 2400;

/// A heading chosen with the arrow keys or WASD.
#[derive(Clone, Copy, Debug, PartialEq, Eq, Structural)]
pub enum Direction {
    Up,
    Down,
    Left,
    Right,
}

pub open spec fn clamp(v: int, lo: int, hi: int) -> int {
    if v < lo {
        lo
    } else if v > hi {
        hi
    } else {
        v
    }
}

/// The position after one frame: a move of `speed` quarter pixels in the
/// heading, then clamped to the field.
pub open spec fn advanced(x: int, y: int, dir: Option<Direction>, speed: int) -> (int, int) {
    let (mx, my) = match dir {
        Some(Direction::Up) => (x, y - speed),
        Some(Direction::Down) => (x, y + speed),
        Some(Direction::Left) => (x - speed, y),
        Some(Direction::Right) => (x + speed, y),
        None => (x, y),
    };
    (clamp(mx, FIELD_MIN_X as int, FIELD_MAX_X as int), clamp(my, FIELD_MIN_Y as int, FIELD_MAX_Y as int))
}

/// Moves by `speed` quarter pixels in the heading and clamps to the field.
pub fn advance(x: i64, y: i64, dir: Option<Direction>, speed: i64) -> (r: (i64, i64))
    ensures
        r.0 == advanced(x as int, y as int, dir, speed as int).0,
        r.1 == advanced(x as int, y as int, dir, speed as int).1,
{
    let xw: i128 = x as i128;
    let yw: i128 = y as i128;
    let sw: i128 = speed as i128;
    let (mx, my): (i128, i128) = match dir {
        Some(Direction::Up) => (xw, yw - sw),
        Some(Direction::Down) => (xw, yw + sw),
        Some(Direction::Left) => (xw - sw, yw),
        Some(Direction::Right) => (xw + sw, yw),
        None => (xw, yw),
    };
    let cx: i64 = if mx < FIELD_MIN_X as i128 {
        FIELD_MIN_X
    } else if mx > FIELD_MAX_X as i128 {
        FIELD_MAX_X
    } else {
        mx as i64
    };
    let cy: i64 = if my < FIELD_MIN_Y as i128 {
        FIELD_MIN_Y
    } else if my > FIELD_MAX_Y as i128 {
        FIELD_MAX_Y
    } else {
        my as i64
    };
    (cx, cy)
}

/// The pixel coordinate of the grid line at or below a quarter-pixel
/// coordinate: `floor(q / 4 / 20) * 20`.
pub open spec fn grid_line(q: int) -> int {
    (q / 80) * 20
}

/// A position whose grid cell fits the coordinate type.
pub open spec fn cell_fits(x: int, y: int) -> bool {
    i32::MIN <= grid_line(x) <= i32::MAX && i32::MIN <= grid_line(y) <= i32::MAX
}

fn grid_line_exec(q: i64) -> (r: i128)
    ensures
        r == grid_line(q as int),
{
    let w: i128 = q as i128;
    if w >= 0 {
        (w / 80) * 20
    } else {
        let m: i128 = -w - 1;
        let f: i128 = -(m / 80) - 1;
        assert(f == (q as int) / 80) by (nonlinear_arith)
            requires
                m == -(q as int) - 1,
                f == -(m / 80) - 1,
                q < 0,
        ;
        f * 20
    }
}

/// The grid cell (its top-left corner, in pixels) holding a position given
/// in quarter pixels.
pub fn grid_cell(x: i64, y: i64) -> (c: Point)
    requires
        cell_fits(x as int, y as int),
    ensures
        c.0 == grid_line(x as int),
        c.1 == grid_line(y as int),
{
    let gx: i128 = grid_line_exec(x);
    let gy: i128 = grid_line_exec(y);
    (gx as i32, gy as i32)
}

pub open spec fn xs(s: Seq<Point>) -> Seq<int> {
    s.map_values(|p: Point| p.0 as int)
}

pub open spec fn ys(s: Seq<Point>) -> Seq<int> {
    s.map_values(|p: Point| p.1 as int)
}

/// The bounding box of a non-empty list of points, as
/// `(min_x, max_x, min_y, max_y)`.
pub open spec fn bounds(s: Seq<Point>) -> (int, int, int, int) {
    (xs(s).min(), xs(s).max(), ys(s).min(), ys(s).max())
}

proof fn lemma_extremes_unique(s: Seq<int>, lo: int, hi: int)
    requires
        s.len() > 0,
        s.contains(lo),
        s.contains(hi),
        forall|i: int| 0 <= i < s.len() ==> lo <= #[trigger] s[i] <= hi,
    ensures
        s.min() == lo,
        s.max() == hi,
{
    s.min_ensures();
    s.max_ensures();
}

/// The bounding box of a non-empty list of points.
pub fn path_bounds(path: &Vec<Point>) -> (r: (i32, i32, i32, i32))
    requires
        path@.len() > 0,
    ensures
        r.0 == bounds(path@).0,
        r.1 == bounds(path@).1,
        r.2 == bounds(path@).2,
        r.3 == bounds(path@).3,
        r.0 <= r.1,
        r.2 <= r.3,
{
    let mut min_x: i32 = path[0].0;
    let mut max_x: i32 = path[0].0;
    let mut min_y: i32 = path[0].1;
    let mut max_y: i32 = path[0].1;
    let mut i: usize = 1;
    let ghost s = path@;
    while i < path.len()
        invariant
            s == path@,
            1 <= i <= s.len(),
            exists|k: int| 0 <= k < i && s[k].0 == min_x,
            exists|k: int| 0 <= k < i && s[k].0 == max_x,
            exists|k: int| 0 <= k < i && s[k].1 == min_y,
            exists|k: int| 0 <= k < i && s[k].1 == max_y,
            forall|k: int| 0 <= k < i ==> min_x <= #[trigger] s[k].0 <= max_x,
            forall|k: int| 0 <= k < i ==> min_y <= #[trigger] s[k].1 <= max_y,
        decreases s.len() - i,
    {
        let p: Point = path[i];
        if p.0 < min_x {
            min_x = p.0;
        }
        if p.0 > max_x {
            max_x = p.0;
        }
        if p.1 < min_y {
            min_y = p.1;
        }
        if p.1 > max_y {
            max_y = p.1;
        }
        i = i + 1;
    }
    proof {
        let a = xs(s);
        let b = ys(s);
        let k1 = choose|k: int| 0 <= k < s.len() && s[k].0 == min_x;
        let k2 = choose|k: int| 0 <= k < s.len() && s[k].0 == max_x;
        let k3 = choose|k: int| 0 <= k < s.len() && s[k].1 == min_y;
        let k4 = choose|k: int| 0 <= k < s.len() && s[k].1 == max_y;
        assert(a[k1] == min_x);
        assert(a[k2] == max_x);
        assert(b[k3] == min_y);
        assert(b[k4] == max_y);
        assert forall|k: int| 0 <= k < a.len() implies min_x <= #[trigger] a[k] <= max_x by {
            assert(a[k] == s[k].0);
        }
        assert forall|k: int| 0 <= k < b.len() implies min_y <= #[trigger] b[k] <= max_y by {
            assert(b[k] == s[k].1);
        }
        lemma_extremes_unique(a, min_x as int, max_x as int);
        lemma_extremes_unique(b, min_y as int, max_y as int);
    }
    (min_x, max_x, min_y, max_y)
}

/// Two points at most one cell apart in each direction.
pub open spec fn near(p: Point, q: Point) -> bool {
    -20 <= p.0 - q.0 <= 20 && -20 <= p.1 - q.1 <= 20
}

/// Some point of `a` is near some point of `b`.
pub open spec fn touches(a: Seq<Point>, b: Seq<Point>) -> bool {
    exists|i: int, j: int| 0 <= i < a.len() && 0 <= j < b.len() && #[trigger] near(a[i], b[j])
}

/// Whether some point of `a` lies within one cell of some point of `b`.
pub fn touching(a: &Vec<Point>, b: &Vec<Point>) -> (r: bool)
    ensures
        r == touches(a@, b@),
{
    let mut i: usize = 0;
    while i < a.len()
        invariant
            i <= a@.len(),
            forall|x: int, y: int| 0 <= x < i && 0 <= y < b@.len() ==> !#[trigger] near(a@[x], b@[y]),
        decreases a@.len() - i,
    {
        let mut j: usize = 0;
        while j < b.len()
            invariant
                i < a@.len(),
                j <= b@.len(),
                forall|x: int, y: int| 0 <= x < i && 0 <= y < b@.len() ==> !#[trigger] near(a@[x], b@[y]),
                forall|y: int| 0 <= y < j ==> !#[trigger] near(a@[i as int], b@[y]),
            decreases b@.len() - j,
        {
            let p: Point = a[i];
            let q: Point = b[j];
            let dx: i64 = p.0 as i64 - q.0 as i64;
            let dy: i64 = p.1 as i64 - q.1 as i64;
            if -20 <= dx && dx <= 20 && -20 <= dy && dy <= 20 {
                assert(near(a@[i as int], b@[j as int]));
                return true;
            }
            j = j + 1;
        }
        i = i + 1;
    }
    false
}

/// Whether the list holds the point.
pub fn has_point(v: &Vec<Point>, p: Point) -> (r: bool)
    ensures
        r == v@.contains(p),
{
    let mut i: usize = 0;
    while i < v.len()
        invariant
            i <= v@.len(),
            forall|k: int| 0 <= k < i ==> v@[k] != p,
        decreases v@.len() - i,
    {
        if v[i].0 == p.0 && v[i].1 == p.1 {
            return true;
        }
        i = i + 1;
    }
    false
}

/// `v` lies on the 20 px lattice through `base`.
pub open spec fn on_lattice(v: int, base: int) -> bool {
    (v - base) % 20 == 0
}

/// The cells just outside the bounding box `bb`, one cell beyond each edge
/// and on the lattice of the box corner: where the outside flood starts.
pub open spec fn edge_start(bb: (int, int, int, int), c: (int, int)) -> bool {
    ||| bb.0 <= c.0 <= bb.1 && on_lattice(c.0, bb.0) && (c.1 == bb.2 - 20 || c.1 == bb.3 + 20)
    ||| bb.2 <= c.1 <= bb.3 && on_lattice(c.1, bb.2) && (c.0 == bb.0 - 20 || c.0 == bb.1 + 20)
}

pub open spec fn edge_starts(bb: (int, int, int, int)) -> Set<(int, int)> {
    Set::new(|c: (int, int)| edge_start(bb, c))
}

/// The start cells of the outside flood, top and bottom edges first.
pub fn edge_start_cells(min_x: i32, max_x: i32, min_y: i32, max_y: i32) -> (r: Vec<(i64, i64)>)
    requires
        min_x <= max_x,
        min_y <= max_y,
    ensures
        forall|c: (int, int)|
            #![trigger cells(r@).contains(c)]
            cells(r@).contains(c) <==> edge_start((min_x as int, max_x as int, min_y as int, max_y as int), c),
{
    let ghost bb = (min_x as int, max_x as int, min_y as int, max_y as int);
    let mut r: Vec<(i64, i64)> = Vec::new();
    let mut x: i64 = min_x as i64;
    while x <= max_x as i64
        invariant
            min_x <= x <= max_x as int + 20,
            on_lattice(x as int, min_x as int),
            min_y <= max_y,
            forall|c: (int, int)|
                #![trigger cells(r@).contains(c)]
                cells(r@).contains(c) <==> (min_x <= c.0 < x && on_lattice(c.0, min_x as int) && (c.1
                    == min_y - 20 || c.1 == max_y + 20)),
        decreases max_x as int + 20 - x,
    {
        let ghost old_r = r@;
        r.push((x, min_y as i64 - 20));
        r.push((x, max_y as i64 + 20));
        proof {
            assert(cells(r@) =~= cells(old_r).push((x as int, min_y - 20)).push((x as int, max_y + 20)));
            assert forall|c: (int, int)|
                #![trigger cells(r@).contains(c)]
                cells(r@).contains(c) <==> (min_x <= c.0 < x + 20 && on_lattice(c.0, min_x as int) && (
                c.1 == min_y - 20 || c.1 == max_y + 20)) by {
                let cr = cells(r@);
                let co = cells(old_r);
                if cr.contains(c) {
                    let k = choose|k: int| 0 <= k < cr.len() && cr[k] == c;
                    if k < co.len() {
                        assert(co[k] == c);
                        assert(co.contains(c));
                    }
                }
                if min_x <= c.0 < x + 20 && on_lattice(c.0, min_x as int) && (c.1 == min_y - 20 || c.1
                    == max_y + 20) {
                    if c.0 < x {
                        assert(co.contains(c));
                        let k = choose|k: int| 0 <= k < co.len() && co[k] == c;
                        assert(cr[k] == c);
                    } else {
                        assert(c.0 == x);
                        if c.1 == min_y - 20 {
                            assert(cr[co.len() as int] == c);
                        } else {
                            assert(cr[co.len() as int + 1] == c);
                        }
                    }
                }
            }
        }
        x = x + 20;
    }
    let ghost top = r@;
    let mut y: i64 = min_y as i64;
    while y <= max_y as i64
        invariant
            min_y <= y <= max_y as int + 20,
            on_lattice(y as int, min_y as int),
            min_x <= max_x,
            forall|c: (int, int)|
                #![trigger cells(r@).contains(c)]
                cells(r@).contains(c) <==> ((min_x <= c.0 <= max_x && on_lattice(c.0, min_x as int) && (
                c.1 == min_y - 20 || c.1 == max_y + 20)) || (min_y <= c.1 < y && on_lattice(
                    c.1,
                    min_y as int,
                ) && (c.0 == min_x - 20 || c.0 == max_x + 20))),
        decreases max_y as int + 20 - y,
    {
        let ghost old_r = r@;
        r.push((min_x as i64 - 20, y));
        r.push((max_x as i64 + 20, y));
        proof {
            assert(cells(r@) =~= cells(old_r).push((min_x - 20, y as int)).push((max_x + 20, y as int)));
            assert forall|c: (int, int)|
                #![trigger cells(r@).contains(c)]
                cells(r@).contains(c) <==> ((min_x <= c.0 <= max_x && on_lattice(c.0, min_x as int) && (
                c.1 == min_y - 20 || c.1 == max_y + 20)) || (min_y <= c.1 < y + 20 && on_lattice(
                    c.1,
                    min_y as int,
                ) && (c.0 == min_x - 20 || c.0 == max_x + 20))) by {
                let cr = cells(r@);
                let co = cells(old_r);
                if cr.contains(c) {
                    let k = choose|k: int| 0 <= k < cr.len() && cr[k] == c;
                    if k < co.len() {
                        assert(co[k] == c);
                        assert(co.contains(c));
                    }
                }
                if (min_x <= c.0 <= max_x && on_lattice(c.0, min_x as int) && (c.1 == min_y - 20 || c.1
                    == max_y + 20)) || (min_y <= c.1 < y + 20 && on_lattice(c.1, min_y as int) && (c.0
                    == min_x - 20 || c.0 == max_x + 20)) {
                    if (min_x <= c.0 <= max_x && on_lattice(c.0, min_x as int) && (c.1 == min_y - 20
                        || c.1 == max_y + 20)) || c.1 < y {
                        assert(co.contains(c));
                        let k = choose|k: int| 0 <= k < co.len() && co[k] == c;
                        assert(cr[k] == c);
                    } else {
                        assert(c.1 == y);
                        if c.0 == min_x - 20 {
                            assert(cr[co.len() as int] == c);
                        } else {
                            assert(cr[co.len() as int + 1] == c);
                        }
                    }
                }
            }
        }
        y = y + 20;
    }
    r
}

/// The number of lattice values `lo, lo + 20, ...` up to `hi`.
pub open spec fn steps(lo: int, hi: int) -> nat {
    if lo <= hi {
        ((hi - lo) / 20 + 1) as nat
    } else {
        0
    }
}

pub proof fn lemma_steps(lo: int, hi: int, i: int)
    requires
        lo <= hi,
        0 <= i,
    ensures
        lo + 20 * i <= hi <==> i < steps(lo, hi),
{
    let q = (hi - lo) / 20;
    assert(20 * q <= hi - lo < 20 * q + 20) by (nonlinear_arith)
        requires
            q == (hi - lo) / 20,
            hi - lo >= 0,
    ;
    if i <= q {
        assert(20 * i <= 20 * q) by (nonlinear_arith)
            requires
                i <= q,
        ;
    } else {
        assert(20 * i >= 20 * q + 20) by (nonlinear_arith)
            requires
                i >= q + 1,
        ;
    }
}

/// One row of lattice points across the box, left to right.
pub open spec fn lattice_row(min_x: int, max_x: int, y: int) -> Seq<Point> {
    Seq::new(steps(min_x, max_x), |i: int| ((min_x + 20 * i) as i32, y as i32))
}

pub open spec fn lattice_rows(bb: (int, int, int, int), n: int) -> Seq<Seq<Point>> {
    Seq::new(n as nat, |j: int| lattice_row(bb.0, bb.1, bb.2 + 20 * j))
}

/// The lattice points of the box `bb`, row by row from the top.
pub open spec fn lattice(bb: (int, int, int, int)) -> Seq<Point> {
    lattice_rows(bb, steps(bb.2, bb.3) as int).flatten()
}

/// A lattice point the outside flood did not reach and that is not on the
/// boundary.
pub open spec fn is_enclosed(reach: Set<(int, int)>, boundary: Seq<Point>, p: Point) -> bool {
    !reach.contains((p.0 as int, p.1 as int)) && !boundary.contains(p)
}

pub open spec fn enclosed(bb: (int, int, int, int), reach: Set<(int, int)>, boundary: Seq<Point>) -> Seq<Point> {
    lattice(bb).filter(|p: Point| is_enclosed(reach, boundary, p))
}

/// The lattice points of the box, row by row, that the outside flood did
/// not reach and that are not on the boundary.
pub fn enclosed_cells(
    min_x: i32,
    max_x: i32,
    min_y: i32,
    max_y: i32,
    visited: &Vec<(i64, i64)>,
    boundary: &Vec<Point>,
) -> (r: Vec<Point>)
    requires
        min_x <= max_x,
        min_y <= max_y,
    ensures
        r@ == enclosed(
            (min_x as int, max_x as int, min_y as int, max_y as int),
            cells(visited@).to_set(),
            boundary@,
        ),
{
    let ghost bb = (min_x as int, max_x as int, min_y as int, max_y as int);
    let ghost reach = cells(visited@).to_set();
    let ghost pred = |p: Point| is_enclosed(reach, boundary@, p);
    let mut r: Vec<Point> = Vec::new();
    let mut y: i64 = min_y as i64;
    let mut j: usize = 0;
    proof {
        assert(lattice_rows(bb, 0).flatten() =~= Seq::<Point>::empty());
    }
    while y <= max_y as i64
        invariant
            bb == (min_x as int, max_x as int, min_y as int, max_y as int),
            reach == cells(visited@).to_set(),
            pred == (|p: Point| is_enclosed(reach, boundary@, p)),
            min_x <= max_x,
            min_y <= max_y,
            y == min_y + 20 * j,
            j <= steps(min_y as int, max_y as int),
            r@ == lattice_rows(bb, j as int).flatten().filter(pred),
        decreases steps(min_y as int, max_y as int) - j,
    {
        proof {
            lemma_steps(min_y as int, max_y as int, j as int);
        }
        let ghost row = lattice_row(min_x as int, max_x as int, y as int);
        let ghost before = r@;
        let mut x: i64 = min_x as i64;
        let mut i: usize = 0;
        while x <= max_x as i64
            invariant
                reach == cells(visited@).to_set(),
                pred == (|p: Point| is_enclosed(reach, boundary@, p)),
                row == lattice_row(min_x as int, max_x as int, y as int),
                min_x <= max_x,
                min_y <= y <= max_y,
                x == min_x + 20 * i,
                i <= steps(min_x as int, max_x as int),
                r@ == before + row.take(i as int).filter(pred),
            decreases steps(min_x as int, max_x as int) - i,
        {
            proof {
                lemma_steps(min_x as int, max_x as int, i as int);
            }
            let p: Point = (x as i32, y as i32);
            let ghost old_r = r@;
            let seen: bool = has_cell(visited, (x, y));
            let on_boundary: bool = has_point(boundary, p);
            proof {
                assert(row[i as int] == p);
                assert(row.take(i as int + 1) =~= row.take(i as int).push(p));
                row.take(i as int).lemma_filter_push(p, pred);
                assert(cells(visited@).contains((x as int, y as int)) == reach.contains((p.0 as int, p.1 as int)));
            }
            if !seen && !on_boundary {
                r.push(p);
            }
            x = x + 20;
            i = i + 1;
        }
        proof {
            lemma_steps(min_x as int, max_x as int, i as int);
            assert(row.take(i as int) =~= row);
            assert(lattice_rows(bb, j as int + 1) =~= lattice_rows(bb, j as int).push(row));
            lattice_rows(bb, j as int).lemma_flatten_push(row);
            Seq::filter_distributes_over_add(lattice_rows(bb, j as int).flatten(), row, pred);
        }
        y = y + 20;
        j = j + 1;
    }
    proof {
        lemma_steps(min_y as int, max_y as int, j as int);
    }
    r
}

/// The points of `v` that are not in `drop`, in order.
pub fn without_points(v: &Vec<Point>, drop: &Vec<Point>) -> (r: Vec<Point>)
    ensures
        r@ == v@.filter(|p: Point| !drop@.contains(p)),
{
    let ghost pred = |p: Point| !drop@.contains(p);
    let mut r: Vec<Point> = Vec::new();
    let mut i: usize = 0;
    while i < v.len()
        invariant
            pred == (|p: Point| !drop@.contains(p)),
            i <= v@.len(),
            r@ == v@.take(i as int).filter(pred),
        decreases v@.len() - i,
    {
        let p: Point = v[i];
        proof {
            assert(v@.take(i as int + 1) =~= v@.take(i as int).push(p));
            v@.take(i as int).lemma_filter_push(p, pred);
        }
        if !has_point(drop, p) {
            r.push(p);
        }
        i = i + 1;
    }
    assert(v@.take(i as int) =~= v@);
    r
}

/// A point inside the bounding box `bb` that the outside flood did not
/// reach: it is enclosed by the claim.
pub open spec fn captured(bb: (int, int, int, int), reach: Set<(int, int)>, p: Point) -> bool {
    bb.0 <= p.0 <= bb.1 && bb.2 <= p.1 <= bb.3 && !reach.contains((p.0 as int, p.1 as int))
}

/// Splits `v` into the points the claim leaves alone and the captured ones,
/// each in order.
pub fn split_captured(
    v: &Vec<Point>,
    min_x: i32,
    max_x: i32,
    min_y: i32,
    max_y: i32,
    visited: &Vec<(i64, i64)>,
) -> (r: (Vec<Point>, Vec<Point>))
    ensures
        r.0@ == v@.filter(
            |p: Point|
                !captured(
                    (min_x as int, max_x as int, min_y as int, max_y as int),
                    cells(visited@).to_set(),
                    p,
                ),
        ),
        r.1@ == v@.filter(
            |p: Point|
                captured(
                    (min_x as int, max_x as int, min_y as int, max_y as int),
                    cells(visited@).to_set(),
                    p,
                ),
        ),
{
    let ghost bb = (min_x as int, max_x as int, min_y as int, max_y as int);
    let ghost reach = cells(visited@).to_set();
    let ghost keep = |p: Point| !captured(bb, reach, p);
    let ghost take = |p: Point| captured(bb, reach, p);
    let mut kept: Vec<Point> = Vec::new();
    let mut removed: Vec<Point> = Vec::new();
    let mut i: usize = 0;
    while i < v.len()
        invariant
            bb == (min_x as int, max_x as int, min_y as int, max_y as int),
            reach == cells(visited@).to_set(),
            keep == (|p: Point| !captured(bb, reach, p)),
            take == (|p: Point| captured(bb, reach, p)),
            i <= v@.len(),
            kept@ == v@.take(i as int).filter(keep),
            removed@ == v@.take(i as int).filter(take),
        decreases v@.len() - i,
    {
        let p: Point = v[i];
        proof {
            assert(v@.take(i as int + 1) =~= v@.take(i as int).push(p));
            v@.take(i as int).lemma_filter_push(p, keep);
            v@.take(i as int).lemma_filter_push(p, take);
            assert(cells(visited@).contains((p.0 as int, p.1 as int)) == reach.contains(
                (p.0 as int, p.1 as int),
            ));
        }
        let in_box: bool = min_x <= p.0 && p.0 <= max_x && min_y <= p.1 && p.1 <= max_y;
        if in_box && !has_cell(visited, (p.0 as i64, p.1 as i64)) {
            removed.push(p);
        } else {
            kept.push(p);
        }
        i = i + 1;
    }
    assert(v@.take(i as int) =~= v@);
    (kept, removed)
}

/// A point of the box `bb` that the list `t` holds.
pub open spec fn taken(bb: (int, int, int, int), t: Seq<Point>, p: Point) -> bool {
    bb.0 <= p.0 <= bb.1 && bb.2 <= p.1 <= bb.3 && t.contains(p)
}

/// Splits `v` into the points not taken by `t` inside the box and the taken
/// ones, each in order.
pub fn split_taken(
    v: &Vec<Point>,
    min_x: i32,
    max_x: i32,
    min_y: i32,
    max_y: i32,
    t: &Vec<Point>,
) -> (r: (Vec<Point>, Vec<Point>))
    ensures
        r.0@ == v@.filter(
            |p: Point| !taken((min_x as int, max_x as int, min_y as int, max_y as int), t@, p),
        ),
        r.1@ == v@.filter(
            |p: Point| taken((min_x as int, max_x as int, min_y as int, max_y as int), t@, p),
        ),
{
    let ghost bb = (min_x as int, max_x as int, min_y as int, max_y as int);
    let ghost keep = |p: Point| !taken(bb, t@, p);
    let ghost take = |p: Point| taken(bb, t@, p);
    let mut kept: Vec<Point> = Vec::new();
    let mut removed: Vec<Point> = Vec::new();
    let mut i: usize = 0;
    while i < v.len()
        invariant
            bb == (min_x as int, max_x as int, min_y as int, max_y as int),
            keep == (|p: Point| !taken(bb, t@, p)),
            take == (|p: Point| taken(bb, t@, p)),
            i <= v@.len(),
            kept@ == v@.take(i as int).filter(keep),
            removed@ == v@.take(i as int).filter(take),
        decreases v@.len() - i,
    {
        let p: Point = v[i];
        proof {
            assert(v@.take(i as int + 1) =~= v@.take(i as int).push(p));
            v@.take(i as int).lemma_filter_push(p, keep);
            v@.take(i as int).lemma_filter_push(p, take);
        }
        let in_box: bool = min_x <= p.0 && p.0 <= max_x && min_y <= p.1 && p.1 <= max_y;
        if in_box && has_point(t, p) {
            removed.push(p);
        } else {
            kept.push(p);
        }
        i = i + 1;
    }
    assert(v@.take(i as int) =~= v@);
    (kept, removed)
}

} // verus!
