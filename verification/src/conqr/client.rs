//! The conqr.io client rules: steering, movement, trails, deaths,
//! and claims filled row by row.
use vstd::prelude::*;
use crate::shared::{Point, copy_points};
use crate::conqr::shared::{
    Player, PlayerView, GameMessage, MessageView, player_views, message_views, distinct_ids,
    upserted, removed_id, upsert, remove_player,
};
use crate::field::{
    Direction, advanced, advance, grid_line, grid_cell, bounds, path_bounds, has_point, steps,
    lemma_steps, lattice_row,
};
use crate::rng::random_usize;
use crate::board::{Entry, ids_increasing, sort_by_id};

verus! {

/// The client's state: its own player, the other players (one entry per
/// id) and the heading; `movement_speed` is one frame's move in quarter
/// pixels.
pub struct GameState {
    pub player: Player,
    pub other_players: Vec<Player>,
    pub movement_speed: i64,
    pub current_direction: Option<Direction>,
}

/// The mathematical value of the client state.
#[verifier::ext_equal]
pub struct ClientView {
    pub player: PlayerView,
    pub others: Seq<PlayerView>,
    pub movement_speed: i64,
    pub direction: Option<Direction>,
}

impl View for GameState {
    type V = ClientView;

    open spec fn view(&self) -> ClientView {
        ClientView {
            player: self.player@,
            others: player_views(self.other_players@),
            movement_speed: self.movement_speed,
            direction: self.current_direction,
        }
    }
}

/// The player after a respawn with random number `r`: in the middle of the
/// territory cell `r % len` with an empty trail; unchanged without
/// territory.
pub open spec fn respawned(p: PlayerView, r: usize) -> PlayerView {
    if p.territory.len() == 0 {
        p
    } else {
        let c = p.territory[(r as int) % (p.territory.len() as int)];
        PlayerView {
            x: ((c.0 + 10) * 4) as i64,
            y: ((c.1 + 10) * 4) as i64,
            current_path: Seq::empty(),
            ..p
        }
    }
}

/// What a respawn sends: the new state, when there was a respawn.
pub open spec fn respawn_sends(before: PlayerView, after: PlayerView) -> Seq<MessageView> {
    if before.territory.len() > 0 {
        seq![MessageView::PlayerUpdate(after)]
    } else {
        Seq::empty()
    }
}

pub open spec fn respawn_outcome(s: ClientView, r: usize) -> (ClientView, Seq<MessageView>) {
    let q = respawned(s.player, r);
    (ClientView { player: q, ..s }, respawn_sends(s.player, q))
}

/// The `k`-th cell of the row starts a run of boundary cells.
pub open spec fn run_start(b: Seq<Point>, row: Seq<Point>, k: int) -> bool {
    b.contains(row[k]) && (k == 0 || !b.contains(row[k - 1]))
}

/// The number of boundary runs among the first `k` cells of the row.
pub open spec fn runs_before(b: Seq<Point>, row: Seq<Point>, k: int) -> nat
    decreases k,
{
    if k <= 0 {
        0
    } else {
        runs_before(b, row, k - 1) + if run_start(b, row, k - 1) {
            1nat
        } else {
            0nat
        }
    }
}

/// The cells among the first `k` of the row that are off the boundary with
/// an odd number of boundary runs to their left: inside by scanline parity.
pub open spec fn scan_row(b: Seq<Point>, row: Seq<Point>, k: int) -> Seq<Point>
    decreases k,
{
    if k <= 0 {
        Seq::empty()
    } else {
        scan_row(b, row, k - 1) + if !b.contains(row[k - 1]) && runs_before(b, row, k - 1) % 2 == 1 {
            seq![row[k - 1]]
        } else {
            Seq::empty()
        }
    }
}

pub open spec fn scan_rows(bb: (int, int, int, int), b: Seq<Point>) -> Seq<Seq<Point>> {
    Seq::new(
        steps(bb.2, bb.3),
        |j: int|
            scan_row(
                b,
                lattice_row(bb.0, bb.1, bb.2 + 20 * j),
                lattice_row(bb.0, bb.1, bb.2 + 20 * j).len() as int,
            ),
    )
}

/// The cells a claim fills, row by row from the top of the trail's box.
pub open spec fn scan_fill(bb: (int, int, int, int), b: Seq<Point>) -> Seq<Point> {
    scan_rows(bb, b).flatten()
}

/// One frame of play: move and clamp, then, on the new grid cell: outside
/// the territory, crossing the own trail (short of its last cell) or
/// another player's trail respawns the player, else the cell extends the
/// trail; back inside the territory a trail joins it together with the
/// cells its rows enclose. Every frame that goes on to the end sends the
/// player's state.
pub open spec fn frame_outcome(s: ClientView, r: usize) -> (ClientView, Seq<MessageView>) {
    let pos = advanced(s.player.x as int, s.player.y as int, s.direction, s.movement_speed as int);
    let p = PlayerView { x: pos.0 as i64, y: pos.1 as i64, ..s.player };
    let m = ClientView { player: p, ..s };
    let cur: Point = (grid_line(pos.0) as i32, grid_line(pos.1) as i32);
    let n = p.current_path.len();
    if !p.territory.contains(cur) {
        if n > 0 && p.current_path.take(n - 1).contains(cur) {
            respawn_outcome(m, r)
        } else if exists|i: int| 0 <= i < s.others.len() && (#[trigger] s.others[i]).current_path.contains(cur) {
            respawn_outcome(m, r)
        } else if n == 0 || p.current_path.last() != cur {
            let q = PlayerView { current_path: p.current_path.push(cur), ..p };
            (ClientView { player: q, ..m }, seq![MessageView::PlayerUpdate(q)])
        } else {
            (m, seq![MessageView::PlayerUpdate(p)])
        }
    } else if n > 0 {
        let t1 = p.territory + p.current_path;
        let q = PlayerView {
            territory: t1 + scan_fill(bounds(p.current_path), t1),
            current_path: Seq::empty(),
            ..p
        };
        (ClientView { player: q, ..m }, seq![MessageView::PlayerUpdate(q)])
    } else {
        (m, seq![MessageView::PlayerUpdate(p)])
    }
}

/// How the client answers a server message: other players' states are
/// recorded (the own entry is skipped), a leaver is dropped.
pub open spec fn message_outcome(s: ClientView, m: MessageView) -> ClientView {
    match m {
        MessageView::GameState(ps) => ClientView { others: absorb(s.others, s.player.id, ps), ..s },
        MessageView::PlayerUpdate(p) => if p.id != s.player.id {
            ClientView { others: upserted(s.others, p), ..s }
        } else {
            s
        },
        MessageView::PlayerLeft { id } => ClientView { others: removed_id(s.others, id), ..s },
        _ => s,
    }
}

/// The other players after recording the players of a state message, in
/// order, skipping the own id.
pub open spec fn absorb(others: Seq<PlayerView>, my_id: u32, ps: Seq<PlayerView>) -> Seq<PlayerView>
    decreases ps.len(),
{
    if ps.len() == 0 {
        others
    } else {
        let o1 = absorb(others, my_id, ps.drop_last());
        if ps.last().id != my_id {
            upserted(o1, ps.last())
        } else {
            o1
        }
    }
}

/// The trail of the territory claim: adds the cells each row of the box
/// holds inside the boundary by scanline parity.
fn scan_fill_cells(min_x: i32, max_x: i32, min_y: i32, max_y: i32, b: &Vec<Point>) -> (r: Vec<Point>)
    requires
        min_x <= max_x,
        min_y <= max_y,
    ensures
        r@ == scan_fill((min_x as int, max_x as int, min_y as int, max_y as int), b@),
{
    let ghost bb = (min_x as int, max_x as int, min_y as int, max_y as int);
    let ghost rows = scan_rows(bb, b@);
    let mut r: Vec<Point> = Vec::new();
    let mut y: i64 = min_y as i64;
    let mut j: usize = 0;
    proof {
        assert(rows.take(0).flatten() =~= Seq::<Point>::empty());
    }
    while y <= max_y as i64
        invariant
            bb == (min_x as int, max_x as int, min_y as int, max_y as int),
            rows == scan_rows(bb, b@),
            min_x <= max_x,
            min_y <= max_y,
            y == min_y + 20 * j,
            j <= steps(min_y as int, max_y as int),
            r@ == rows.take(j as int).flatten(),
        decreases steps(min_y as int, max_y as int) - j,
    {
        proof {
            lemma_steps(min_y as int, max_y as int, j as int);
        }
        let ghost row = lattice_row(min_x as int, max_x as int, y as int);
        let ghost before = r@;
        let mut inside: bool = false;
        let mut last_boundary: Option<i64> = None;
        let mut x: i64 = min_x as i64;
        let mut i: usize = 0;
        while x <= max_x as i64
            invariant
                row == lattice_row(min_x as int, max_x as int, y as int),
                min_x <= max_x,
                min_y <= y <= max_y,
                x == min_x + 20 * i,
                i <= steps(min_x as int, max_x as int),
                inside == (runs_before(b@, row, i as int) % 2 == 1),
                match last_boundary {
                    None => forall|k: int| 0 <= k < i ==> !b@.contains(#[trigger] row[k]),
                    Some(lx) => min_x <= lx <= x - 20 && (i > 0 && b@.contains(row[i - 1]) <==> lx == x
                        - 20),
                },
                r@ == before + scan_row(b@, row, i as int),
            decreases steps(min_x as int, max_x as int) - i,
        {
            proof {
                lemma_steps(min_x as int, max_x as int, i as int);
            }
            let p: Point = (x as i32, y as i32);
            proof {
                assert(row[i as int] == p);
            }
            if has_point(b, p) {
                proof {
                    assert(run_start(b@, row, i as int) == (i == 0 || !b@.contains(row[i - 1])));
                }
                match last_boundary {
                    Some(lx) => {
                        if x - lx > 20 {
                            inside = !inside;
                        }
                    },
                    None => {
                        inside = !inside;
                    },
                }
                last_boundary = Some(x);
                proof {
                    assert(scan_row(b@, row, i as int + 1) =~= scan_row(b@, row, i as int));
                }
            } else {
                if inside {
                    r.push(p);
                }
                proof {
                    assert(!run_start(b@, row, i as int));
                    assert(r@ =~= before + scan_row(b@, row, i as int + 1));
                }
            }
            x = x + 20;
            i = i + 1;
        }
        proof {
            lemma_steps(min_x as int, max_x as int, i as int);
            assert(row.len() == i);
            assert(rows[j as int] == scan_row(b@, row, i as int));
            assert(rows.take(j as int + 1) =~= rows.take(j as int).push(rows[j as int]));
            rows.take(j as int).lemma_flatten_push(rows[j as int]);
        }
        y = y + 20;
        j = j + 1;
    }
    proof {
        lemma_steps(min_y as int, max_y as int, j as int);
        assert(rows.take(j as int) =~= rows);
    }
    r
}

/// Whether the first `k` points of the list hold the point.
fn prefix_has(v: &Vec<Point>, k: usize, p: Point) -> (r: bool)
    requires
        k <= v@.len(),
    ensures
        r == v@.take(k as int).contains(p),
{
    let mut i: usize = 0;
    while i < k
        invariant
            k <= v@.len(),
            i <= k,
            forall|j: int| 0 <= j < i ==> v@[j] != p,
        decreases k - i,
    {
        if v[i].0 == p.0 && v[i].1 == p.1 {
            assert(v@.take(k as int)[i as int] == p);
            return true;
        }
        i = i + 1;
    }
    assert forall|j: int| 0 <= j < v@.take(k as int).len() implies v@.take(k as int)[j] != p by {
        assert(v@.take(k as int)[j] == v@[j]);
    }
    false
}

/// The entry is that of one of the players.
pub open spec fn entry_among(players: Seq<PlayerView>, e: Entry) -> bool {
    exists|j: int| 0 <= j < players.len() && e == entry_of(players[j])
}

/// The scoreboard entry of a player: id, territory size and color.
pub open spec fn entry_of(p: PlayerView) -> Entry {
    (p.id, p.territory.len() as usize, p.color)
}

impl GameState {
    pub open spec fn wf(&self) -> bool {
        distinct_ids(self@.others)
    }

    /// The scoreboard line: the own player first, then the others in order
    /// of id.
    pub fn scoreboard(&self) -> (r: Vec<Entry>)
        requires
            self.wf(),
        ensures
            r@.len() == self@.others.len() + 1,
            r@[0] == entry_of(self@.player),
            ids_increasing(r@.drop_first()),
            forall|k: int|
                0 <= k < self@.others.len() ==> r@.drop_first().contains(entry_of(#[trigger] self@.others[k])),
            forall|k: int| 0 <= k < self@.others.len() ==> entry_among(self@.others, #[trigger] r@.drop_first()[k]),
    {
        let ghost v = self@.others;
        let mut entries: Vec<Entry> = Vec::new();
        let mut i: usize = 0;
        while i < self.other_players.len()
            invariant
                v == self@.others,
                i <= v.len(),
                entries@.len() == i,
                forall|k: int| 0 <= k < i ==> (#[trigger] entries@[k]) == entry_of(v[k]),
            decreases v.len() - i,
        {
            let p: &Player = &self.other_players[i];
            entries.push((p.id, p.territory.len(), p.color));
            i = i + 1;
        }
        proof {
            assert forall|a: int, b: int|
                0 <= a < entries@.len() && 0 <= b < entries@.len() && a != b implies (#[trigger] entries@[a]).0
                != (#[trigger] entries@[b]).0 by {
                assert(v[a].id != v[b].id);
            }
        }
        let sorted: Vec<Entry> = sort_by_id(&entries);
        let mut r: Vec<Entry> = Vec::new();
        r.push((self.player.id, self.player.territory.len(), self.player.color));
        let mut k: usize = 0;
        while k < sorted.len()
            invariant
                k <= sorted@.len(),
                r@.len() == k + 1,
                r@[0] == entry_of(self@.player),
                forall|a: int| 0 <= a < k ==> r@[a + 1] == sorted@[a],
            decreases sorted@.len() - k,
        {
            r.push(sorted[k]);
            k = k + 1;
        }
        proof {
            assert(r@.drop_first() =~= sorted@);
            assert forall|a: int| 0 <= a < v.len() implies r@.drop_first().contains(entry_of(#[trigger] v[a])) by {
                assert(entries@[a] == entry_of(v[a]));
            }
            assert forall|a: int| 0 <= a < self@.others.len() implies entry_among(self@.others, #[trigger] r@.drop_first()[a]) by {
                assert(entries@.contains(sorted@[a]));
                let j = choose|j: int| 0 <= j < entries@.len() && entries@[j] == sorted@[a];
                assert(entries@[j] == entry_of(v[j]));
                assert(r@.drop_first()[a] == entry_of(self@.others[j]));
            }
        }
        r
    }

    /// The state before the server has assigned the player: id 0 at
    /// (100, 100) px in red, moving 1.25 px per frame.
    pub fn new() -> (s: GameState)
        ensures
            s.wf(),
            s@.player == (PlayerView {
                id: 0,
                x: 400,
                y: 400,
                color: (255, 0, 0),
                territory: Seq::empty(),
                current_path: Seq::empty(),
            }),
            s@.others.len() == 0,
            s@.movement_speed == 5,
            s@.direction.is_none(),
    {
        GameState {
            player: Player {
                id: 0,
                x: 400,
                y: 400,
                color: (255, 0, 0),
                territory: Vec::new(),
                current_path: Vec::new(),
            },
            other_players: Vec::new(),
            movement_speed: 5,
            current_direction: None,
        }
    }

    /// Sets the heading from the keys held this frame; a later key in the
    /// order up, down, left, right wins.
    pub fn steer(&mut self, up: bool, down: bool, left: bool, right: bool)
        ensures
            final(self)@ == (ClientView {
                direction: if right {
                    Some(Direction::Right)
                } else if left {
                    Some(Direction::Left)
                } else if down {
                    Some(Direction::Down)
                } else if up {
                    Some(Direction::Up)
                } else {
                    old(self)@.direction
                },
                ..old(self)@
            }),
    {
        if up {
            self.current_direction = Some(Direction::Up);
        }
        if down {
            self.current_direction = Some(Direction::Down);
        }
        if left {
            self.current_direction = Some(Direction::Left);
        }
        if right {
            self.current_direction = Some(Direction::Right);
        }
    }

    /// The position report sent on a timer.
    pub fn position_message(&self) -> (m: GameMessage)
        ensures
            m@ == (MessageView::Position { id: self.player.id, x: self.player.x, y: self.player.y }),
    {
        GameMessage::Position { id: self.player.id, x: self.player.x, y: self.player.y }
    }

    /// Respawns with the random number `r` and returns what to send.
    pub fn respawn_at(&mut self, r: usize) -> (sends: Vec<GameMessage>)
        ensures
            final(self)@ == respawn_outcome(old(self)@, r).0,
            message_views(sends@) == respawn_outcome(old(self)@, r).1,
    {
        let mut sends: Vec<GameMessage> = Vec::new();
        let n: usize = self.player.territory.len();
        if n > 0 {
            let c: Point = self.player.territory[r % n];
            self.player.x = (c.0 as i64 + 10) * 4;
            self.player.y = (c.1 as i64 + 10) * 4;
            self.player.current_path = Vec::new();
            sends.push(GameMessage::PlayerUpdate(self.player.duplicate()));
        }
        proof {
            assert(self@ =~~= respawn_outcome(old(self)@, r).0);
            assert(message_views(sends@) =~~= respawn_outcome(old(self)@, r).1);
        }
        sends
    }

    /// Respawns at a random cell of the own territory, when there is one.
    pub fn spawn_in_territory(&mut self) -> (sends: Vec<GameMessage>)
        ensures
            exists|r: usize|
                final(self)@ == (#[trigger] respawn_outcome(old(self)@, r)).0
                    && message_views(sends@) == respawn_outcome(old(self)@, r).1,
    {
        if self.player.territory.len() > 0 {
            let r: usize = random_usize();
            self.respawn_at(r)
        } else {
            self.respawn_at(0)
        }
    }

    /// Handles one server message (see [`message_outcome`]).
    pub fn handle_message(&mut self, msg: GameMessage)
        requires
            old(self).wf(),
        ensures
            final(self).wf(),
            final(self)@ == message_outcome(old(self)@, msg@),
    {
        let ghost s0 = self@;
        let ghost mv = msg@;
        let my_id: u32 = self.player.id;
        match msg {
            GameMessage::GameState(ps) => {
                let ghost v = player_views(ps@);
                let mut i: usize = 0;
                while i < ps.len()
                    invariant
                        self.wf(),
                        v == player_views(ps@),
                        my_id == s0.player.id,
                        i <= ps@.len(),
                        self@ == (ClientView { others: absorb(s0.others, my_id, v.take(i as int)), ..s0 }),
                    decreases ps@.len() - i,
                {
                    proof {
                        assert(v.take(i as int + 1).drop_last() =~= v.take(i as int));
                        assert(v.take(i as int + 1).last() == v[i as int]);
                    }
                    if ps[i].id != my_id {
                        upsert(&mut self.other_players, ps[i].duplicate());
                    }
                    proof {
                        assert(self@ =~~= (ClientView { others: absorb(s0.others, my_id, v.take(i as int + 1)), ..s0 }));
                    }
                    i = i + 1;
                }
                proof {
                    assert(v.take(i as int) =~= v);
                }
            },
            GameMessage::PlayerUpdate(p) => {
                if p.id != my_id {
                    upsert(&mut self.other_players, p);
                }
            },
            GameMessage::PlayerLeft { id } => {
                remove_player(&mut self.other_players, id);
            },
            _ => {},
        }
        proof {
            assert(self@ =~~= message_outcome(s0, mv));
        }
    }

    /// One frame of play (see [`frame_outcome`]).
    pub fn move_and_claim(&mut self) -> (sends: Vec<GameMessage>)
        requires
            old(self).wf(),
        ensures
            final(self).wf(),
            exists|r: usize|
                final(self)@ == (#[trigger] frame_outcome(old(self)@, r)).0 && message_views(sends@)
                    == frame_outcome(old(self)@, r).1,
    {
        let ghost s0 = self@;
        let (nx, ny): (i64, i64) = advance(
            self.player.x,
            self.player.y,
            self.current_direction,
            self.movement_speed,
        );
        self.player.x = nx;
        self.player.y = ny;
        let ghost m = self@;
        proof {
            assert(m =~~= (ClientView { player: PlayerView { x: nx, y: ny, ..s0.player }, ..s0 }));
        }
        let cur: Point = grid_cell(nx, ny);
        if self.player.y < crate::field::FIELD_MIN_Y {
            self.player.y = crate::field::FIELD_MIN_Y;
        }
        let mut sends: Vec<GameMessage> = Vec::new();
        if !has_point(&self.player.territory, cur) {
            let n: usize = self.player.current_path.len();
            if n > 0 && prefix_has(&self.player.current_path, n - 1, cur) {
                let a: Vec<GameMessage> = self.spawn_in_territory();
                proof {
                    let r = choose|r: usize|
                        self@ == (#[trigger] respawn_outcome(m, r)).0 && message_views(a@) == respawn_outcome(m, r).1;
                    assert(frame_outcome(s0, r) == respawn_outcome(m, r));
                }
                return a;
            }
            let mut k: usize = 0;
            while k < self.other_players.len()
                invariant
                    self@ == m,
                    s0 == old(self)@,
                    self.wf(),
                    m == (ClientView { player: PlayerView { x: nx, y: ny, ..s0.player }, ..s0 }),
                    nx == advanced(s0.player.x as int, s0.player.y as int, s0.direction, s0.movement_speed as int).0,
                    ny == advanced(s0.player.x as int, s0.player.y as int, s0.direction, s0.movement_speed as int).1,
                    cur.0 == grid_line(nx as int),
                    cur.1 == grid_line(ny as int),
                    n == m.player.current_path.len(),
                    !m.player.territory.contains(cur),
                    !(n > 0 && m.player.current_path.take(n - 1).contains(cur)),
                    k <= self@.others.len(),
                    forall|j: int| 0 <= j < k ==> !(#[trigger] self@.others[j]).current_path.contains(cur),
                decreases self@.others.len() - k,
            {
                if has_point(&self.other_players[k].current_path, cur) {
                    let a: Vec<GameMessage> = self.spawn_in_territory();
                    proof {
                        assert(m.others[k as int].current_path.contains(cur));
                        assert(s0.others[k as int].current_path.contains(cur));
                        let r = choose|r: usize|
                            self@ == (#[trigger] respawn_outcome(m, r)).0 && message_views(a@) == respawn_outcome(m, r).1;
                        assert(frame_outcome(s0, r) == respawn_outcome(m, r));
                        assert(self@ == frame_outcome(s0, r).0);
                        assert(message_views(a@) == frame_outcome(s0, r).1);
                    }
                    return a;
                }
                k = k + 1;
            }
            if n == 0 || {
                let last: Point = self.player.current_path[n - 1];
                last.0 != cur.0 || last.1 != cur.1
            } {
                self.player.current_path.push(cur);
            }
        } else if self.player.current_path.len() > 0 {
            let path: Vec<Point> = copy_points(&self.player.current_path);
            let mut more: Vec<Point> = copy_points(&path);
            self.player.territory.append(&mut more);
            let (min_x, max_x, min_y, max_y): (i32, i32, i32, i32) = path_bounds(&path);
            let boundary: Vec<Point> = copy_points(&self.player.territory);
            let mut fill: Vec<Point> = scan_fill_cells(min_x, max_x, min_y, max_y, &boundary);
            self.player.territory.append(&mut fill);
            self.player.current_path = Vec::new();
        }
        sends.push(GameMessage::PlayerUpdate(self.player.duplicate()));
        proof {
            assert(self@ =~~= frame_outcome(s0, 0).0);
            assert(message_views(sends@) =~~= frame_outcome(s0, 0).1);
        }
        sends
    }

    /// Claims a trail for a territory as these rules do: the trail joins
    /// the territory, then so do the cells of the trail's bounding box that
    /// lie inside the new boundary by scanline parity (see [`scan_fill`]),
    /// each of them inside that box. An empty trail claims nothing.
    pub fn flood_fill(territory: &mut Vec<Point>, path: &Vec<Point>)
        ensures
            path@.len() == 0 ==> final(territory)@ == old(territory)@,
            path@.len() > 0 ==> final(territory)@ == old(territory)@ + path@ + scan_fill(
                bounds(path@),
                old(territory)@ + path@,
            ),
            path@.len() > 0 ==> forall|p: Point|
                #![trigger scan_fill(bounds(path@), old(territory)@ + path@).contains(p)]
                scan_fill(bounds(path@), old(territory)@ + path@).contains(p) ==> in_bounds(
                    bounds(path@),
                    p,
                ),
    {
        if path.len() == 0 {
            return;
        }
        let mut more: Vec<Point> = copy_points(path);
        territory.append(&mut more);
        let (min_x, max_x, min_y, max_y): (i32, i32, i32, i32) = path_bounds(path);
        let boundary: Vec<Point> = copy_points(territory);
        let mut fill: Vec<Point> = scan_fill_cells(min_x, max_x, min_y, max_y, &boundary);
        proof {
            lemma_scan_fill_in_box(
                (min_x as int, max_x as int, min_y as int, max_y as int),
                boundary@,
            );
        }
        territory.append(&mut fill);
    }
}

/// The point lies in the box `(min_x, max_x, min_y, max_y)`.
pub open spec fn in_bounds(bb: (int, int, int, int), p: Point) -> bool {
    bb.0 <= p.0 <= bb.1 && bb.2 <= p.1 <= bb.3
}

proof fn lemma_scan_row_from_row(b: Seq<Point>, row: Seq<Point>, k: int)
    requires
        0 <= k <= row.len(),
    ensures
        forall|m: int|
            0 <= m < scan_row(b, row, k).len() ==> exists|i: int|
                0 <= i < k && #[trigger] scan_row(b, row, k)[m] == row[i],
    decreases k,
{
    if k > 0 {
        lemma_scan_row_from_row(b, row, k - 1);
        let prev = scan_row(b, row, k - 1);
        let cur = scan_row(b, row, k);
        assert forall|m: int| 0 <= m < cur.len() implies exists|i: int|
            0 <= i < k && #[trigger] cur[m] == row[i] by {
            if m < prev.len() {
                assert(cur[m] == prev[m]);
                let i = choose|i: int| 0 <= i < k - 1 && prev[m] == row[i];
                assert(cur[m] == row[i]);
            } else {
                assert(cur[m] == row[k - 1]);
            }
        }
    }
}

proof fn lemma_flatten_in_box(bb: (int, int, int, int), rows: Seq<Seq<Point>>, t: int)
    requires
        0 <= t <= rows.len(),
        forall|j: int, m: int|
            0 <= j < rows.len() && 0 <= m < #[trigger] rows[j].len() ==> in_bounds(bb, #[trigger] rows[j][m]),
    ensures
        forall|m: int|
            0 <= m < rows.take(t).flatten().len() ==> in_bounds(bb, #[trigger] rows.take(t).flatten()[m]),
    decreases t,
{
    if t > 0 {
        lemma_flatten_in_box(bb, rows, t - 1);
        assert(rows.take(t) =~= rows.take(t - 1).push(rows[t - 1]));
        rows.take(t - 1).lemma_flatten_push(rows[t - 1]);
        let f = rows.take(t).flatten();
        let f0 = rows.take(t - 1).flatten();
        assert forall|m: int| 0 <= m < f.len() implies in_bounds(bb, #[trigger] f[m]) by {
            if m >= f0.len() {
                assert(f[m] == rows[t - 1][m - f0.len()]);
            } else {
                assert(f[m] == f0[m]);
            }
        }
    }
}

/// Every cell of a scanline fill lies in the box it scans.
pub proof fn lemma_scan_fill_in_box(bb: (int, int, int, int), b: Seq<Point>)
    requires
        i32::MIN <= bb.0 <= bb.1 <= i32::MAX,
        i32::MIN <= bb.2 <= bb.3 <= i32::MAX,
    ensures
        forall|p: Point| #![trigger scan_fill(bb, b).contains(p)] scan_fill(bb, b).contains(p) ==> in_bounds(bb, p),
{
    let rows = scan_rows(bb, b);
    let n = rows.len() as int;
    assert forall|j: int, m: int|
        0 <= j < n && 0 <= m < #[trigger] rows[j].len() implies in_bounds(bb, #[trigger] rows[j][m]) by {
        let y = bb.2 + 20 * j;
        let row = lattice_row(bb.0, bb.1, y);
        lemma_steps(bb.2, bb.3, j);
        lemma_scan_row_from_row(b, row, row.len() as int);
        let i = choose|i: int| 0 <= i < row.len() && rows[j][m] == row[i];
        lemma_steps(bb.0, bb.1, i);
    }
    lemma_flatten_in_box(bb, rows, n);
    assert(rows.take(n) =~= rows);
}

} // verus!
