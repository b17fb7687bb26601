//! The client's rules: the lobby, steering, movement, trails, deaths,
//! territory claims and the end of the match. Each rule is a function from
//! the client state and an event to the next state and a list of actions
//! (sends, sounds, clocks) that the caller performs.
use vstd::prelude::*;
use crate::shared::{
    Player, PlayerView, Point, GameMessage, MessageView, GamePhase, copy_points, player_views,
};
use crate::field::{
    FIELD_MIN_Y, Direction, steps, advanced, advance, grid_line, grid_cell, bounds, path_bounds, touches, touching,
    has_point, edge_starts, edge_start_cells, enclosed, enclosed_cells, captured, split_captured,
    without_points,
};
use crate::region::{Rect, SearchBox, reached, cells, cell, flood_region, flood_order};
use crate::rng::random_usize;
use crate::board::{Entry, ids_increasing, sort_by_id};

verus! {

/// A sound effect of the client.
#[derive(Clone, Copy, Debug, PartialEq, Eq, Structural)]
pub enum Sound {
    GameStart,
    Death,
    TerritoryClaim,
    GameEnd,
}

/// Something the caller of a client rule does, in list order.
#[derive(Debug)]
pub enum ClientAction {
    /// Serialize the message and send it on the datagram socket.
    SendUdp(GameMessage),
    /// Hand the message to the reliable (stream) channel.
    SendTcp(GameMessage),
    Play(Sound),
    PauseMusic,
    /// Restart the match clock.
    StartMatchClock,
    /// Restart the clock that spaces out presses of the ready key.
    RestartReadyClock,
    /// Start the clock that ends the program after the match.
    StartShutdownClock,
    /// Remember the server's match time (bit pattern of an `f64`).
    SetTimeOffset(u64),
    /// Print the result of the match.
    ReportWinner { winner_id: u32, territory_size: usize },
    /// End the program.
    Exit,
}

/// The mathematical value of a [`ClientAction`].
#[verifier::ext_equal]
pub enum ActionView {
    SendUdp(MessageView),
    SendTcp(MessageView),
    Play(Sound),
    PauseMusic,
    StartMatchClock,
    RestartReadyClock,
    StartShutdownClock,
    SetTimeOffset(u64),
    ReportWinner { winner_id: u32, territory_size: usize },
    Exit,
}

impl View for ClientAction {
    type V = ActionView;

    open spec fn view(&self) -> ActionView {
        match self {
            ClientAction::SendUdp(m) => ActionView::SendUdp(m@),
            ClientAction::SendTcp(m) => ActionView::SendTcp(m@),
            ClientAction::Play(s) => ActionView::Play(*s),
            ClientAction::PauseMusic => ActionView::PauseMusic,
            ClientAction::StartMatchClock => ActionView::StartMatchClock,
            ClientAction::RestartReadyClock => ActionView::RestartReadyClock,
            ClientAction::StartShutdownClock => ActionView::StartShutdownClock,
            ClientAction::SetTimeOffset(t) => ActionView::SetTimeOffset(*t),
            ClientAction::ReportWinner { winner_id, territory_size } => ActionView::ReportWinner {
                winner_id: *winner_id,
                territory_size: *territory_size,
            },
            ClientAction::Exit => ActionView::Exit,
        }
    }
}

pub open spec fn action_views(actions: Seq<ClientAction>) -> Seq<ActionView> {
    actions.map_values(|a: ClientAction| a@)
}

/// The client's game state: its own player, the other players (at most one
/// entry per id), the heading and the phase of the match.
///
/// `movement_speed` is the distance of one frame's move in quarter pixels.
pub struct GameState {
    pub player: Player,
    pub other_players: Vec<Player>,
    pub movement_speed: i64,
    pub current_direction: Option<Direction>,
    pub game_over: bool,
    pub game_state: GamePhase,
    pub in_lobby: bool,
    pub countdown_message: Option<String>,
}

/// The mathematical value of the client state.
#[verifier::ext_equal]
pub struct ClientView {
    pub player: PlayerView,
    pub others: Seq<PlayerView>,
    pub movement_speed: i64,
    pub direction: Option<Direction>,
    pub game_over: bool,
    pub phase: GamePhase,
    pub in_lobby: bool,
    pub countdown: Option<Seq<char>>,
}

impl View for GameState {
    type V = ClientView;

    open spec fn view(&self) -> ClientView {
        ClientView {
            player: self.player@,
            others: player_views(self.other_players@),
            movement_speed: self.movement_speed,
            direction: self.current_direction,
            game_over: self.game_over,
            phase: self.game_state,
            in_lobby: self.in_lobby,
            countdown: match self.countdown_message {
                Some(s) => Some(s@),
                None => None,
            },
        }
    }
}

/// No two entries share an id.
pub open spec fn distinct_ids(s: Seq<PlayerView>) -> bool {
    forall|i: int, j: int| 0 <= i < s.len() && 0 <= j < s.len() && i != j ==> s[i].id != s[j].id
}

/// The player after a respawn with random number `r`: moved to the middle
/// of the territory cell `r % len` and with an empty trail; unchanged when it
/// holds no territory.
pub open spec fn respawned(p: PlayerView, r: usize) -> PlayerView {
    if p.territory.len() == 0 {
        p
    } else {
        let c = p.territory[(r as int) % (p.territory.len() as int)];
        PlayerView {
            x: ((c.0 + 10) * 4) as i64,
            y: ((c.1 + 10) * 4) as i64,
            current_path: Seq::empty(),
            ..p
        }
    }
}

/// What a respawn sends: the new player state, when there was a respawn.
pub open spec fn respawn_actions(before: PlayerView, after: PlayerView) -> Seq<ActionView> {
    if before.territory.len() > 0 {
        seq![ActionView::SendUdp(MessageView::PlayerUpdate(after))]
    } else {
        Seq::empty()
    }
}

/// The client state after the keys held this frame set the heading; a
/// later key in the order up, down, left, right wins.
pub open spec fn steered(s: ClientView, up: bool, down: bool, left: bool, right: bool) -> ClientView {
    ClientView {
        direction: if right {
            Some(Direction::Right)
        } else if left {
            Some(Direction::Left)
        } else if down {
            Some(Direction::Down)
        } else if up {
            Some(Direction::Up)
        } else {
            s.direction
        },
        ..s
    }
}

pub open spec fn message_views(ms: Seq<GameMessage>) -> Seq<MessageView> {
    ms.map_values(|m: GameMessage| m@)
}

/// The lobby's handling of several messages in turn: the state after the
/// last and all actions in order.
pub open spec fn lobby_run(s: ClientView, ms: Seq<MessageView>) -> (ClientView, Seq<ActionView>)
    decreases ms.len(),
{
    if ms.len() == 0 {
        (s, Seq::empty())
    } else {
        let prev = lobby_run(s, ms.drop_last());
        let o = lobby_outcome(prev.0, ms.last());
        (o.0, prev.1 + o.1)
    }
}

/// A running match's handling of several messages in turn; `rs` holds the
/// random number each one may draw.
pub open spec fn game_run(s: ClientView, ms: Seq<MessageView>, rs: Seq<usize>) -> (
    ClientView,
    Seq<ActionView>,
)
    decreases ms.len(),
{
    if ms.len() == 0 || rs.len() == 0 {
        (s, Seq::empty())
    } else {
        let prev = game_run(s, ms.drop_last(), rs.drop_last());
        let o = game_message_outcome(prev.0, ms.last(), rs.last());
        (o.0, prev.1 + o.1)
    }
}

/// The phase and the lobby flag agree, and the phase is one a client
/// reaches: the lobby or the match.
pub open spec fn phase_ok(s: ClientView) -> bool {
    (s.phase == GamePhase::Lobby || s.phase == GamePhase::InGame) && s.in_lobby == (s.phase
        == GamePhase::Lobby)
}

proof fn lemma_lobby_run_phase(s: ClientView, ms: Seq<MessageView>)
    ensures
        lobby_run(s, ms).0.phase == (if ms.contains(MessageView::GameStarting) {
            GamePhase::InGame
        } else {
            s.phase
        }),
        lobby_run(s, ms).0.in_lobby == (if ms.contains(MessageView::GameStarting) {
            false
        } else {
            s.in_lobby
        }),
    decreases ms.len(),
{
    if ms.len() > 0 {
        let init = ms.drop_last();
        lemma_lobby_run_phase(s, init);
        lemma_message_phase(lobby_run(s, init).0, ms.last(), 0);
        assert(ms.contains(MessageView::GameStarting) <==> (init.contains(MessageView::GameStarting)
            || ms.last() == MessageView::GameStarting)) by {
            if ms.contains(MessageView::GameStarting) {
                let i = choose|i: int| 0 <= i < ms.len() && ms[i] == MessageView::GameStarting;
                if i < init.len() {
                    assert(init[i] == ms[i]);
                }
            }
            if init.contains(MessageView::GameStarting) {
                let i = choose|i: int| 0 <= i < init.len() && init[i] == MessageView::GameStarting;
                assert(ms[i] == init[i]);
            }
        }
    }
}

proof fn lemma_absorb_keeps_phase(s: ClientView, ps: Seq<PlayerView>)
    ensures
        absorb_lobby(s, ps).phase == s.phase && absorb_lobby(s, ps).in_lobby == s.in_lobby,
        absorb_game(s, ps).phase == s.phase && absorb_game(s, ps).in_lobby == s.in_lobby,
        absorb_game(s, ps).game_over == s.game_over,
    decreases ps.len(),
{
    if ps.len() > 0 {
        lemma_absorb_keeps_phase(s, ps.drop_last());
    }
}

proof fn lemma_message_phase(s: ClientView, m: MessageView, r: usize)
    ensures
        lobby_outcome(s, m).0.phase == (if m == MessageView::GameStarting {
            GamePhase::InGame
        } else {
            s.phase
        }),
        lobby_outcome(s, m).0.in_lobby == (if m == MessageView::GameStarting {
            false
        } else {
            s.in_lobby
        }),
        game_message_outcome(s, m, r).0.phase == s.phase,
        game_message_outcome(s, m, r).0.in_lobby == s.in_lobby,
        game_message_outcome(s, m, r).0.game_over == s.game_over,
{
    match m {
        MessageView::GameState(ps) => lemma_absorb_keeps_phase(s, ps),
        _ => {},
    }
}

proof fn lemma_lobby_run_starts_clock(s: ClientView, ms: Seq<MessageView>)
    requires
        ms.contains(MessageView::GameStarting),
    ensures
        lobby_run(s, ms).1.contains(ActionView::StartMatchClock),
    decreases ms.len(),
{
    let init = ms.drop_last();
    let prev = lobby_run(s, init);
    let o = lobby_outcome(prev.0, ms.last());
    if ms.last() == MessageView::GameStarting {
        assert((prev.1 + o.1)[prev.1.len() as int] == ActionView::StartMatchClock);
    } else {
        let i = choose|i: int| 0 <= i < ms.len() && ms[i] == MessageView::GameStarting;
        assert(init[i] == ms[i]);
        lemma_lobby_run_starts_clock(s, init);
        let j = choose|j: int| 0 <= j < prev.1.len() && prev.1[j] == ActionView::StartMatchClock;
        assert((prev.1 + o.1)[j] == ActionView::StartMatchClock);
    }
}

proof fn lemma_frame_keeps_phase(s: ClientView, r: usize)
    ensures
        frame_outcome(s, r).0.phase == s.phase,
        frame_outcome(s, r).0.in_lobby == s.in_lobby,
        frame_outcome(s, r).0.game_over == s.game_over,
{
}

proof fn lemma_game_run_phase(s: ClientView, ms: Seq<MessageView>, rs: Seq<usize>)
    ensures
        game_run(s, ms, rs).0.phase == s.phase,
        game_run(s, ms, rs).0.in_lobby == s.in_lobby,
        game_run(s, ms, rs).0.game_over == s.game_over,
    decreases ms.len(),
{
    if ms.len() > 0 && rs.len() > 0 {
        lemma_game_run_phase(s, ms.drop_last(), rs.drop_last());
        lemma_message_phase(game_run(s, ms.drop_last(), rs.drop_last()).0, ms.last(), rs.last());
    }
}

/// What a frame's input says: the ready key and how long ago it last took
/// effect, whether the match time is up and the shutdown delay over, and
/// the heading keys held.
pub struct FrameInput {
    pub ready_key: bool,
    pub ms_since_ready_toggle: u64,
    pub match_time_up: bool,
    pub shutdown_due: bool,
    pub up: bool,
    pub down: bool,
    pub left: bool,
    pub right: bool,
}

/// A press of the ready key counts when it comes more than 500 ms after
/// the last one that counted.
pub open spec fn ready_press(input: FrameInput) -> bool {
    input.ready_key && input.ms_since_ready_toggle > 500
}

/// What a counted press of the ready key does.
pub open spec fn press_actions(s: ClientView, input: FrameInput) -> Seq<ActionView> {
    if ready_press(input) {
        seq![
            ActionView::RestartReadyClock,
            ActionView::SendUdp(MessageView::PlayerReady { id: s.player.id }),
            ActionView::SendTcp(MessageView::PlayerReady { id: s.player.id }),
        ]
    } else {
        Seq::empty()
    }
}

/// The client state after the ready key.
pub open spec fn pressed(s: ClientView, input: FrameInput) -> ClientView {
    if ready_press(input) {
        toggled(s)
    } else {
        s
    }
}

/// The play part of a match frame: the messages by the match's rules
/// (random numbers `rs`), then the heading and one frame of play (random
/// number `r`); the frame's own state and actions.
pub open spec fn frame_step(
    s: ClientView,
    ms: Seq<MessageView>,
    rs: Seq<usize>,
    input: FrameInput,
    r: usize,
) -> (ClientView, Seq<ActionView>) {
    frame_outcome(steered(game_run(s, ms, rs).0, input.up, input.down, input.left, input.right), r)
}

/// The client state with the own ready flag flipped.
pub open spec fn toggled(s: ClientView) -> ClientView {
    ClientView { player: PlayerView { ready: !s.player.ready, ..s.player }, ..s }
}

/// The state update and broadcast that close a frame.
pub open spec fn final_sends(p: PlayerView) -> Seq<ActionView> {
    seq![
        ActionView::SendUdp(MessageView::PlayerUpdate(p)),
        ActionView::SendTcp(MessageView::PlayerUpdate(p)),
    ]
}


/// The player's trail runs through the cell.
pub open spec fn on_trail(o: PlayerView, c: Point) -> bool {
    o.current_path.contains(c)
}

/// `i` is the first player whose trail runs through the cell.
pub open spec fn first_on_trail(others: Seq<PlayerView>, c: Point, i: int) -> bool {
    &&& 0 <= i < others.len()
    &&& on_trail(others[i], c)
    &&& forall|j: int| 0 <= j < i ==> !on_trail(#[trigger] others[j], c)
}

/// The first player whose trail runs through the cell, if any.
pub open spec fn trail_hit(others: Seq<PlayerView>, c: Point) -> Option<int> {
    if exists|i: int| first_on_trail(others, c, i) {
        Some(choose|i: int| first_on_trail(others, c, i))
    } else {
        None
    }
}

/// No other player's trail shares a point with the claiming trail.
pub open spec fn claim_clear(path: Seq<Point>, others: Seq<PlayerView>) -> bool {
    forall|i: int, k: int|
        0 <= i < others.len() && 0 <= k < path.len() ==> !(#[trigger] others[i].current_path).contains(
            #[trigger] path[k],
        )
}

/// The other players with the claiming trail's points taken out of their
/// territories.
pub open spec fn strip_claimed(others: Seq<PlayerView>, path: Seq<Point>) -> Seq<PlayerView> {
    others.map_values(
        |o: PlayerView| PlayerView { territory: o.territory.filter(|p: Point| !path.contains(p)), ..o },
    )
}

/// All points of the other players' trails, player by player.
pub open spec fn trails(others: Seq<PlayerView>) -> Seq<Point> {
    others.map_values(|o: PlayerView| o.current_path).flatten()
}

/// The box the outside flood of a claim stays in: two cells beyond the
/// trail's bounding box on every side.
pub open spec fn claim_rect(bb: (int, int, int, int)) -> Rect {
    Rect { x_lo: bb.0 - 40, x_hi: bb.1 + 40, y_lo: bb.2 - 40, y_hi: bb.3 + 40 }
}

/// The cells the outside flood of a claim reaches: it starts just outside
/// the trail's bounding box and stops at the claimant's territory (trail
/// included) and at every other player's trail.
pub open spec fn claim_reach(
    territory: Seq<Point>,
    others: Seq<PlayerView>,
    bb: (int, int, int, int),
) -> Set<(int, int)> {
    reached(claim_rect(bb), territory + trails(others), edge_starts(bb))
}

/// Another player after a claim: the captured points leave its territory.
pub open spec fn steal(o: PlayerView, bb: (int, int, int, int), reach: Set<(int, int)>) -> PlayerView {
    PlayerView { territory: o.territory.filter(|p: Point| !captured(bb, reach, p)), ..o }
}

/// What a claim sends about another player: nothing when it lost no point,
/// else its new state twice and the points it lost.
pub open spec fn steal_actions_for(
    o: PlayerView,
    bb: (int, int, int, int),
    reach: Set<(int, int)>,
) -> Seq<ActionView> {
    let o2 = steal(o, bb, reach);
    if o2.territory.len() != o.territory.len() {
        seq![
            ActionView::SendUdp(MessageView::PlayerUpdate(o2)),
            ActionView::SendTcp(MessageView::PlayerUpdate(o2)),
            ActionView::SendTcp(
                MessageView::TerritoryUpdate {
                    player_id: o.id,
                    removed_points: o.territory.filter(|p: Point| captured(bb, reach, p)),
                    new_territory: o2.territory,
                },
            ),
        ]
    } else {
        Seq::empty()
    }
}

pub open spec fn steal_actions(
    others: Seq<PlayerView>,
    bb: (int, int, int, int),
    reach: Set<(int, int)>,
) -> Seq<ActionView> {
    Seq::new(others.len(), |i: int| steal_actions_for(others[i], bb, reach)).flatten()
}

pub open spec fn steal_all(
    others: Seq<PlayerView>,
    bb: (int, int, int, int),
    reach: Set<(int, int)>,
) -> Seq<PlayerView> {
    others.map_values(|o: PlayerView| steal(o, bb, reach))
}

/// A respawn of the own player with random number `r`.
pub open spec fn respawn_outcome(s: ClientView, r: usize) -> (ClientView, Seq<ActionView>) {
    let q = respawned(s.player, r);
    (ClientView { player: q, ..s }, respawn_actions(s.player, q))
}

/// Closing a trail back in the own territory. The claim is refused, and the
/// player respawns, when another player's trail shares a point with it, or
/// when (after those points leave the other territories) it does not come
/// within one cell of the existing territory. Otherwise the trail joins the
/// territory, so do the lattice cells of its bounding box that the outside
/// flood does not reach, the other players lose the points of the box the
/// flood does not reach, and the trail is cleared.
pub open spec fn claim_outcome(s: ClientView, r: usize) -> (ClientView, Seq<ActionView>) {
    let path = s.player.current_path;
    let t = s.player.territory;
    if !claim_clear(path, s.others) {
        respawn_outcome(s, r)
    } else {
        let others1 = strip_claimed(s.others, path);
        let s1 = ClientView { others: others1, ..s };
        if t.len() > 0 && !touches(path, t) {
            respawn_outcome(s1, r)
        } else {
            let t1 = t + path;
            let bb = bounds(path);
            let reach = claim_reach(t1, others1, bb);
            let t2 = t1 + enclosed(bb, reach, t1);
            let q = PlayerView { territory: t2, current_path: Seq::empty(), ..s.player };
            (
                ClientView { player: q, others: steal_all(others1, bb, reach), ..s },
                seq![ActionView::Play(Sound::TerritoryClaim)] + steal_actions(others1, bb, reach)
                    + final_sends(q),
            )
        }
    }
}

/// The first other player whose trail runs through the cell.
pub fn find_trail_hit(others: &Vec<Player>, c: Point) -> (r: Option<usize>)
    ensures
        match r {
            Some(i) => trail_hit(player_views(others@), c) == Some(i as int),
            None => trail_hit(player_views(others@), c).is_none(),
        },
{
    let ghost v = player_views(others@);
    let mut i: usize = 0;
    while i < others.len()
        invariant
            v == player_views(others@),
            i <= others@.len(),
            forall|j: int| 0 <= j < i ==> !on_trail(#[trigger] v[j], c),
        decreases others@.len() - i,
    {
        if has_point(&others[i].current_path, c) {
            proof {
                assert(first_on_trail(v, c, i as int));
                let k = choose|k: int| first_on_trail(v, c, k);
                if k < i {
                    assert(!on_trail(v[k], c));
                } else if k > i {
                    assert(!on_trail(v[i as int], c));
                }
            }
            return Some(i);
        }
        i = i + 1;
    }
    proof {
        if exists|k: int| first_on_trail(v, c, k) {
            let k = choose|k: int| first_on_trail(v, c, k);
            assert(!on_trail(v[k], c));
        }
    }
    None
}

/// Whether no other player's trail shares a point with the path.
fn path_clear(path: &Vec<Point>, others: &Vec<Player>) -> (r: bool)
    ensures
        r == claim_clear(path@, player_views(others@)),
{
    let ghost v = player_views(others@);
    let mut i: usize = 0;
    while i < others.len()
        invariant
            v == player_views(others@),
            i <= others@.len(),
            forall|a: int, k: int|
                0 <= a < i && 0 <= k < path@.len() ==> !(#[trigger] v[a].current_path).contains(
                    #[trigger] path@[k],
                ),
        decreases others@.len() - i,
    {
        let mut k: usize = 0;
        while k < path.len()
            invariant
                v == player_views(others@),
                i < others@.len(),
                k <= path@.len(),
                forall|a: int, kk: int|
                    0 <= a < i && 0 <= kk < path@.len() ==> !(#[trigger] v[a].current_path).contains(
                        #[trigger] path@[kk],
                    ),
                forall|kk: int| 0 <= kk < k ==> !v[i as int].current_path.contains(#[trigger] path@[kk]),
            decreases path@.len() - k,
        {
            if has_point(&others[i].current_path, path[k]) {
                assert(v[i as int].current_path.contains(path@[k as int]));
                return false;
            }
            k = k + 1;
        }
        i = i + 1;
    }
    true
}

/// The other players with the path's points taken out of their territories.
fn strip_path(others: &Vec<Player>, path: &Vec<Point>) -> (r: Vec<Player>)
    ensures
        player_views(r@) =~~= strip_claimed(player_views(others@), path@),
{
    let ghost want = strip_claimed(player_views(others@), path@);
    let mut r: Vec<Player> = Vec::new();
    let mut i: usize = 0;
    while i < others.len()
        invariant
            want == strip_claimed(player_views(others@), path@),
            i <= others@.len(),
            r@.len() == i,
            forall|k: int| 0 <= k < i ==> (#[trigger] r@[k])@ == want[k],
        decreases others@.len() - i,
    {
        let t: Vec<Point> = without_points(&others[i].territory, path);
        r.push(others[i].with_territory(t));
        i = i + 1;
    }
    r
}

/// The claimant's territory followed by every other player's trail.
fn claim_blockers(territory: &Vec<Point>, others: &Vec<Player>) -> (r: Vec<Point>)
    ensures
        r@ == territory@ + trails(player_views(others@)),
{
    let ghost v = player_views(others@);
    let ghost paths = v.map_values(|o: PlayerView| o.current_path);
    let mut r: Vec<Point> = copy_points(territory);
    let mut i: usize = 0;
    proof {
        assert(paths.take(0).flatten() =~= Seq::<Point>::empty());
        assert(r@ =~= territory@ + paths.take(0).flatten());
    }
    while i < others.len()
        invariant
            v == player_views(others@),
            paths == v.map_values(|o: PlayerView| o.current_path),
            i <= others@.len(),
            r@ == territory@ + paths.take(i as int).flatten(),
        decreases others@.len() - i,
    {
        let ghost before = r@;
        let mut k: usize = 0;
        while k < others[i].current_path.len()
            invariant
                i < others@.len(),
                k <= others@[i as int].current_path@.len(),
                r@ == before + others@[i as int].current_path@.take(k as int),
            decreases others@[i as int].current_path@.len() - k,
        {
            r.push(others[i].current_path[k]);
            proof {
                assert(others@[i as int].current_path@.take(k as int + 1) =~= others@[i as int].current_path@.take(
                    k as int,
                ).push(others@[i as int].current_path@[k as int]));
            }
            k = k + 1;
        }
        proof {
            assert(others@[i as int].current_path@.take(k as int) =~= others@[i as int].current_path@);
            assert(paths[i as int] == others@[i as int].current_path@);
            assert(paths.take(i as int + 1) =~= paths.take(i as int).push(paths[i as int]));
            paths.take(i as int).lemma_flatten_push(paths[i as int]);
        }
        i = i + 1;
    }
    proof {
        assert(paths.take(i as int) =~= paths);
    }
    r
}

/// Takes the captured points out of every other player's territory and
/// appends what is sent about the players that lost points.
fn steal_territories(
    others: &Vec<Player>,
    min_x: i32,
    max_x: i32,
    min_y: i32,
    max_y: i32,
    visited: &Vec<(i64, i64)>,
    actions: &mut Vec<ClientAction>,
) -> (r: Vec<Player>)
    ensures
        player_views(r@) =~~= steal_all(
            player_views(others@),
            (min_x as int, max_x as int, min_y as int, max_y as int),
            cells(visited@).to_set(),
        ),
        action_views(final(actions)@) == action_views(old(actions)@) + steal_actions(
            player_views(others@),
            (min_x as int, max_x as int, min_y as int, max_y as int),
            cells(visited@).to_set(),
        ),
{
    let ghost bb = (min_x as int, max_x as int, min_y as int, max_y as int);
    let ghost reach = cells(visited@).to_set();
    let ghost v = player_views(others@);
    let ghost per = Seq::new(v.len(), |i: int| steal_actions_for(v[i], bb, reach));
    let ghost start = action_views(actions@);
    let mut r: Vec<Player> = Vec::new();
    let mut i: usize = 0;
    proof {
        assert(per.take(0).flatten() =~= Seq::<ActionView>::empty());
        assert(action_views(actions@) =~= start + per.take(0).flatten());
    }
    while i < others.len()
        invariant
            bb == (min_x as int, max_x as int, min_y as int, max_y as int),
            reach == cells(visited@).to_set(),
            v == player_views(others@),
            per == Seq::new(v.len(), |i: int| steal_actions_for(v[i], bb, reach)),
            i <= others@.len(),
            r@.len() == i,
            forall|k: int| 0 <= k < i ==> (#[trigger] r@[k])@ == steal(v[k], bb, reach),
            action_views(actions@) == start + per.take(i as int).flatten(),
        decreases others@.len() - i,
    {
        let o: &Player = &others[i];
        let ghost before = action_views(actions@);
        let (kept, removed): (Vec<Point>, Vec<Point>) = split_captured(
            &o.territory,
            min_x,
            max_x,
            min_y,
            max_y,
            visited,
        );
        let changed: bool = kept.len() != o.territory.len();
        let o2: Player = o.with_territory(kept);
        if changed {
            actions.push(ClientAction::SendUdp(GameMessage::PlayerUpdate(o2.duplicate())));
            actions.push(ClientAction::SendTcp(GameMessage::PlayerUpdate(o2.duplicate())));
            actions.push(
                ClientAction::SendTcp(
                    GameMessage::TerritoryUpdate {
                        player_id: o.id,
                        removed_points: removed,
                        new_territory: copy_points(&o2.territory),
                    },
                ),
            );
        }
        proof {
            assert(o2@ =~~= steal(v[i as int], bb, reach));
            assert(action_views(actions@) =~~= before + per[i as int]);
            assert(per.take(i as int + 1) =~= per.take(i as int).push(per[i as int]));
            per.take(i as int).lemma_flatten_push(per[i as int]);
        }
        r.push(o2);
        i = i + 1;
    }
    proof {
        assert(per.take(i as int) =~= per);
    }
    r
}

/// One frame of play: move and clamp, then, on the new grid cell: running
/// into another player's trail reports that player's death; crossing the own
/// trail (short of its last two cells) kills and respawns the player;
/// outside the territory the cell extends the trail; back inside the
/// territory a trail is claimed (see [`claim_outcome`]). Every frame that
/// goes on to the end sends the player's state.
pub open spec fn frame_outcome(s: ClientView, r: usize) -> (ClientView, Seq<ActionView>) {
    let pos = advanced(s.player.x as int, s.player.y as int, s.direction, s.movement_speed as int);
    let p = PlayerView { x: pos.0 as i64, y: pos.1 as i64, ..s.player };
    let m = ClientView { player: p, ..s };
    let cur: Point = (grid_line(pos.0) as i32, grid_line(pos.1) as i32);
    match trail_hit(s.others, cur) {
        Some(i) => (
            m,
            seq![
                ActionView::SendUdp(MessageView::PlayerDied { id: s.others[i].id }),
                ActionView::SendTcp(MessageView::PlayerDied { id: s.others[i].id }),
            ],
        ),
        None => if !p.territory.contains(cur) {
            let n = p.current_path.len();
            if n > 2 && p.current_path.take(n - 2).contains(cur) {
                let out = respawn_outcome(m, r);
                (out.0, out.1.push(ActionView::Play(Sound::Death)))
            } else if n == 0 || p.current_path.last() != cur {
                let q = PlayerView { current_path: p.current_path.push(cur), ..p };
                (
                    ClientView { player: q, ..m },
                    seq![ActionView::SendUdp(MessageView::PlayerUpdate(q))] + final_sends(q),
                )
            } else {
                (m, final_sends(p))
            }
        } else if p.current_path.len() > 0 {
            claim_outcome(m, r)
        } else {
            (m, final_sends(p))
        },
    }
}

/// Whether the first `k` points of the list hold the point.
fn prefix_has(v: &Vec<Point>, k: usize, p: Point) -> (r: bool)
    requires
        k <= v@.len(),
    ensures
        r == v@.take(k as int).contains(p),
{
    let mut i: usize = 0;
    while i < k
        invariant
            k <= v@.len(),
            i <= k,
            forall|j: int| 0 <= j < i ==> v@[j] != p,
        decreases k - i,
    {
        if v[i].0 == p.0 && v[i].1 == p.1 {
            assert(v@.take(k as int)[i as int] == p);
            return true;
        }
        i = i + 1;
    }
    assert forall|j: int| 0 <= j < v@.take(k as int).len() implies v@.take(k as int)[j] != p by {
        assert(v@.take(k as int)[j] == v@[j]);
    }
    false
}

/// The list with `p` in place of the entry with its id, or appended when
/// there is none: a map keyed by id.
pub open spec fn upserted(s: Seq<PlayerView>, p: PlayerView) -> Seq<PlayerView> {
    if exists|i: int| 0 <= i < s.len() && s[i].id == p.id {
        s.update(choose|i: int| 0 <= i < s.len() && s[i].id == p.id, p)
    } else {
        s.push(p)
    }
}

/// The list without the entry of the id.
pub open spec fn removed_id(s: Seq<PlayerView>, id: u32) -> Seq<PlayerView> {
    s.filter(|o: PlayerView| o.id != id)
}

proof fn lemma_upsert_keeps_ids_distinct(s: Seq<PlayerView>, p: PlayerView)
    requires
        distinct_ids(s),
    ensures
        distinct_ids(upserted(s, p)),
{
    if exists|i: int| 0 <= i < s.len() && s[i].id == p.id {
        let i = choose|i: int| 0 <= i < s.len() && s[i].id == p.id;
        let t = s.update(i, p);
        assert forall|a: int, b: int| 0 <= a < t.len() && 0 <= b < t.len() && a != b implies t[a].id
            != t[b].id by {
            if a != i && b != i {
                assert(s[a].id != s[b].id);
            } else if a == i {
                assert(s[b].id != s[i].id);
            } else {
                assert(s[a].id != s[i].id);
            }
        }
    } else {
        let t = s.push(p);
        assert forall|a: int, b: int| 0 <= a < t.len() && 0 <= b < t.len() && a != b implies t[a].id
            != t[b].id by {
            if a < s.len() && b < s.len() {
                assert(s[a].id != s[b].id);
            }
        }
    }
}

/// Records a player in the id-keyed list.
pub fn upsert(list: &mut Vec<Player>, p: Player)
    requires
        distinct_ids(player_views(old(list)@)),
    ensures
        player_views(final(list)@) =~~= upserted(player_views(old(list)@), p@),
        distinct_ids(player_views(final(list)@)),
{
    let ghost v = player_views(list@);
    proof {
        lemma_upsert_keeps_ids_distinct(v, p@);
    }
    let mut i: usize = 0;
    while i < list.len()
        invariant
            v == player_views(list@),
            v == player_views(old(list)@),
            distinct_ids(v),
            distinct_ids(upserted(v, p@)),
            i <= list@.len(),
            forall|k: int| 0 <= k < i ==> v[k].id != p.id,
        decreases list@.len() - i,
    {
        if list[i].id == p.id {
            proof {
                assert(v[i as int].id == p.id);
                let k = choose|k: int| 0 <= k < v.len() && v[k].id == p.id;
                if k != i {
                    assert(v[k].id != v[i as int].id);
                }
                assert(upserted(v, p@) == v.update(i as int, p@));
            }
            list.set(i, p);
            proof {
                assert(player_views(list@) =~~= v.update(i as int, p@));
            }
            return;
        }
        i = i + 1;
    }
    list.push(p);
    proof {
        assert(player_views(list@) =~~= v.push(p@));
    }
}

/// Drops the entry of the id from the id-keyed list.
pub fn remove_player(list: &mut Vec<Player>, id: u32)
    requires
        distinct_ids(player_views(old(list)@)),
    ensures
        player_views(final(list)@) =~~= removed_id(player_views(old(list)@), id),
        distinct_ids(player_views(final(list)@)),
{
    let ghost v = player_views(list@);
    let ghost pred = |o: PlayerView| o.id != id;
    let mut kept: Vec<Player> = Vec::new();
    let mut i: usize = 0;
    while i < list.len()
        invariant
            v == player_views(list@),
            pred == (|o: PlayerView| o.id != id),
            i <= list@.len(),
            player_views(kept@) =~~= v.take(i as int).filter(pred),
        decreases list@.len() - i,
    {
        proof {
            assert(v.take(i as int + 1) =~= v.take(i as int).push(v[i as int]));
            v.take(i as int).lemma_filter_push(v[i as int], pred);
        }
        if list[i].id != id {
            kept.push(list[i].duplicate());
            proof {
                assert(player_views(kept@) =~~= v.take(i as int + 1).filter(pred));
            }
        }
        i = i + 1;
    }
    proof {
        assert(v.take(i as int) =~= v);
        let t = v.filter(pred);
        assert forall|a: int, b: int| 0 <= a < t.len() && 0 <= b < t.len() && a != b implies t[a].id
            != t[b].id by {
            lemma_filter_order(v, pred, a, b);
        }
    }
    *list = kept;
}

/// Two distinct entries of a filtered list come from two distinct entries.
proof fn lemma_filter_order(v: Seq<PlayerView>, pred: spec_fn(PlayerView) -> bool, a: int, b: int)
    requires
        distinct_ids(v),
        0 <= a < v.filter(pred).len(),
        0 <= b < v.filter(pred).len(),
        a != b,
    ensures
        v.filter(pred)[a].id != v.filter(pred)[b].id,
    decreases v.len(),
{
    reveal(Seq::filter);
    if v.len() == 0 {
        return;
    }
    let rest = v.drop_last();
    let last = v.last();
    assert(distinct_ids(rest)) by {
        assert forall|i: int, j: int| 0 <= i < rest.len() && 0 <= j < rest.len() && i != j implies rest[i].id
            != rest[j].id by {
            assert(rest[i] == v[i]);
            assert(rest[j] == v[j]);
        }
    }
    if pred(last) {
        assert(v.filter(pred) == rest.filter(pred).push(last));
        let n = rest.filter(pred).len();
        if a < n && b < n {
            lemma_filter_order(rest, pred, a, b);
        } else {
            let k = if a < n { a } else { b };
            assert(rest.filter(pred).contains(rest.filter(pred)[k]));
            rest.lemma_filter_contains_rev(pred, rest.filter(pred)[k]);
            let j = choose|j: int| 0 <= j < rest.len() && rest[j] == rest.filter(pred)[k];
            assert(v[j] == rest[j]);
            assert(v[j].id != v[v.len() - 1].id);
        }
    } else {
        assert(v.filter(pred) == rest.filter(pred));
        lemma_filter_order(rest, pred, a, b);
    }
}

/// The lobby's handling of the players of a state message, in order: the
/// own entry gives the ready flag, the others are recorded.
pub open spec fn absorb_lobby(s: ClientView, ps: Seq<PlayerView>) -> ClientView
    decreases ps.len(),
{
    if ps.len() == 0 {
        s
    } else {
        let s1 = absorb_lobby(s, ps.drop_last());
        let p = ps.last();
        if p.id == s.player.id {
            ClientView { player: PlayerView { ready: p.ready, ..s1.player }, ..s1 }
        } else {
            ClientView { others: upserted(s1.others, p), ..s1 }
        }
    }
}

/// The match's handling of the players of a state message, in order: the
/// own entry gives the territory, the others are recorded.
pub open spec fn absorb_game(s: ClientView, ps: Seq<PlayerView>) -> ClientView
    decreases ps.len(),
{
    if ps.len() == 0 {
        s
    } else {
        let s1 = absorb_game(s, ps.drop_last());
        let p = ps.last();
        if p.id == s.player.id {
            ClientView { player: PlayerView { territory: p.territory, ..s1.player }, ..s1 }
        } else {
            ClientView { others: upserted(s1.others, p), ..s1 }
        }
    }
}

/// How the lobby answers a server message.
pub open spec fn lobby_outcome(s: ClientView, m: MessageView) -> (ClientView, Seq<ActionView>) {
    match m {
        MessageView::PlayerJoined(p) => if p.id != s.player.id {
            (ClientView { others: upserted(s.others, p), ..s }, Seq::empty())
        } else {
            (s, Seq::empty())
        },
        MessageView::GameStarting => (
            ClientView { phase: GamePhase::InGame, in_lobby: false, ..s },
            seq![ActionView::StartMatchClock, ActionView::Play(Sound::GameStart)],
        ),
        MessageView::PlayerUpdate(p) => if p.id != s.player.id {
            (ClientView { others: upserted(s.others, p), ..s }, Seq::empty())
        } else {
            (ClientView { player: PlayerView { ready: p.ready, ..s.player }, ..s }, Seq::empty())
        },
        MessageView::GameState(ps) => (absorb_lobby(s, ps), Seq::empty()),
        MessageView::GameUpdate(text) => (ClientView { countdown: Some(text), ..s }, Seq::empty()),
        _ => (s, Seq::empty()),
    }
}

/// The other players with the trail of `id` cleared.
pub open spec fn cleared_trail(others: Seq<PlayerView>, id: u32) -> Seq<PlayerView> {
    others.map_values(
        |o: PlayerView|
            if o.id == id {
                PlayerView { current_path: Seq::empty(), ..o }
            } else {
                o
            },
    )
}

/// How a running match answers a server message; `r` is the random number
/// of a respawn, when the own player died.
pub open spec fn game_message_outcome(s: ClientView, m: MessageView, r: usize) -> (
    ClientView,
    Seq<ActionView>,
) {
    match m {
        MessageView::GameTime(t) => (s, seq![ActionView::SetTimeOffset(t)]),
        MessageView::GameUpdate(text) => (ClientView { countdown: Some(text), ..s }, Seq::empty()),
        MessageView::PlayerDied { id } => if id == s.player.id {
            let out = respawn_outcome(s, r);
            (out.0, seq![ActionView::Play(Sound::Death)] + out.1)
        } else {
            (ClientView { others: cleared_trail(s.others, id), ..s }, Seq::empty())
        },
        MessageView::GameState(ps) => (absorb_game(s, ps), Seq::empty()),
        MessageView::PlayerUpdate(p) => if p.id == s.player.id {
            (ClientView { player: PlayerView { ready: p.ready, ..s.player }, ..s }, Seq::empty())
        } else {
            (ClientView { others: upserted(s.others, p), ..s }, Seq::empty())
        },
        MessageView::PlayerLeft { id } => (
            ClientView { others: removed_id(s.others, id), ..s },
            Seq::empty(),
        ),
        _ => (s, Seq::empty()),
    }
}

/// Each player's id and territory size, the own player first.
pub open spec fn standings(s: ClientView) -> Seq<(u32, nat)> {
    seq![(s.player.id, s.player.territory.len())] + s.others.map_values(
        |o: PlayerView| (o.id, o.territory.len()),
    )
}

/// `i` is the first entry with the largest size.
pub open spec fn first_largest(st: Seq<(u32, nat)>, i: int) -> bool {
    &&& 0 <= i < st.len()
    &&& forall|j: int| 0 <= j < st.len() ==> (#[trigger] st[j]).1 <= st[i].1
    &&& forall|j: int| 0 <= j < i ==> (#[trigger] st[j]).1 < st[i].1
}

/// The winner reported when the match ends: the first player with the
/// largest territory, or player 0 with size 0 when no one holds territory.
pub open spec fn is_match_winner(st: Seq<(u32, nat)>, id: u32, size: nat) -> bool {
    if exists|i: int| 0 <= i < st.len() && st[i].1 > 0 {
        exists|i: int| first_largest(st, i) && st[i] == (id, size)
    } else {
        id == 0 && size == 0
    }
}

/// The winner shown on the final screen: the first player with the largest
/// territory, the own player first.
pub open spec fn is_shown_winner(st: Seq<(u32, nat)>, id: u32, size: nat) -> bool {
    exists|i: int| first_largest(st, i) && st[i] == (id, size)
}

/// What ending the match does: start the shutdown clock, stop the music,
/// play the victory tune for the winner and the death sound for everyone
/// else, print the result and report it.
pub open spec fn end_actions(my_id: u32, winner_id: u32, size: usize) -> Seq<ActionView> {
    seq![
        ActionView::StartShutdownClock,
        ActionView::PauseMusic,
        ActionView::Play(if winner_id == my_id { Sound::GameEnd } else { Sound::Death }),
        ActionView::ReportWinner { winner_id, territory_size: size },
        ActionView::SendTcp(MessageView::GameOver { winner_id, territory_size: size }),
    ]
}

/// All sizes are at most `m`.
pub open spec fn all_at_most(st: Seq<(u32, nat)>, m: nat) -> bool {
    forall|j: int| 0 <= j < st.len() ==> (#[trigger] st[j]).1 <= m
}

pub proof fn lemma_match_winner_bound(st: Seq<(u32, nat)>, w: u32, m: nat)
    requires
        is_match_winner(st, w, m),
    ensures
        all_at_most(st, m),
{
    if exists|i: int| 0 <= i < st.len() && st[i].1 > 0 {
        let i = choose|i: int| first_largest(st, i) && st[i] == (w, m);
    } else {
        assert forall|j: int| 0 <= j < st.len() implies (#[trigger] st[j]).1 <= m by {
            assert(!(st[j].1 > 0));
        }
    }
}

pub proof fn lemma_match_winner_step(st: Seq<(u32, nat)>, w: u32, m: nat, e: (u32, nat))
    requires
        is_match_winner(st, w, m),
    ensures
        e.1 > m ==> is_match_winner(st.push(e), e.0, e.1),
        e.1 <= m ==> is_match_winner(st.push(e), w, m),
{
    lemma_match_winner_bound(st, w, m);
    let t = st.push(e);
    assert forall|j: int| 0 <= j < st.len() implies t[j] == st[j] by {}
    assert(t[st.len() as int] == e);
    if e.1 > m {
        assert(first_largest(t, st.len() as int));
        assert(t[st.len() as int].1 > 0);
    } else {
        if exists|i: int| 0 <= i < st.len() && st[i].1 > 0 {
            let i = choose|i: int| first_largest(st, i) && st[i] == (w, m);
            assert(first_largest(t, i));
            assert(t[i].1 > 0);
        } else {
            assert forall|i: int| 0 <= i < t.len() implies !(t[i].1 > 0) by {
                if i < st.len() {
                    assert(!(st[i].1 > 0));
                }
            }
        }
    }
}

proof fn lemma_shown_winner_step(st: Seq<(u32, nat)>, w: u32, m: nat, e: (u32, nat))
    requires
        is_shown_winner(st, w, m),
    ensures
        e.1 > m ==> is_shown_winner(st.push(e), e.0, e.1),
        e.1 <= m ==> is_shown_winner(st.push(e), w, m),
{
    let i = choose|i: int| first_largest(st, i) && st[i] == (w, m);
    let t = st.push(e);
    assert forall|j: int| 0 <= j < st.len() implies t[j] == st[j] by {}
    assert(t[st.len() as int] == e);
    if e.1 > m {
        assert(first_largest(t, st.len() as int));
    } else {
        assert(first_largest(t, i));
    }
}

/// A search cell as a grid point.
pub open spec fn to_point(c: (int, int)) -> Point {
    (c.0 as i32, c.1 as i32)
}

/// Half of `v`, rounded toward zero as integer division does.
pub open spec fn half(v: int) -> int {
    if v >= 0 {
        v / 2
    } else {
        -((-v) / 2)
    }
}

/// The boundary points met by a ray cast right from `p` in steps of 20 px
/// up to the field's right edge at 800 px.
pub open spec fn ray_hits(boundary: Seq<Point>, p: Point) -> Seq<Point> {
    Seq::new(steps(p.0 as int, 800), |k: int| ((p.0 + 20 * k) as i32, p.1)).filter(
        |c: Point| boundary.contains(c),
    )
}

/// Ray casting: the ray from `p` crosses the boundary an odd number of
/// times.
pub open spec fn inside(boundary: Seq<Point>, p: Point) -> bool {
    ray_hits(boundary, p).len() % 2 == 1
}

/// The bounding box of the own trail, all zero for an empty trail.
pub open spec fn trail_bounds(path: Seq<Point>) -> (int, int, int, int) {
    if path.len() == 0 {
        (0, 0, 0, 0)
    } else {
        bounds(path)
    }
}

/// The thirteen start cells of the trail fill: the box corners and edge
/// midpoints one cell outside, the centre, and four cells one step inside
/// the corners.
pub open spec fn fill_starts(bb: (int, int, int, int)) -> Seq<(int, int)> {
    let (min_x, max_x, min_y, max_y) = bb;
    let mx = half(min_x + max_x);
    let my = half(min_y + max_y);
    seq![
        (min_x - 20, min_y - 20),
        (max_x + 20, min_y - 20),
        (min_x - 20, max_y + 20),
        (max_x + 20, max_y + 20),
        (mx, min_y - 20),
        (mx, max_y + 20),
        (min_x - 20, my),
        (max_x + 20, my),
        (mx, my),
        (min_x + 20, min_y + 20),
        (max_x - 20, min_y + 20),
        (min_x + 20, max_y - 20),
        (max_x - 20, max_y - 20),
    ]
}

/// The box of the trail fill: three cells beyond the trail's box.
pub open spec fn fill_rect(bb: (int, int, int, int)) -> Rect {
    Rect { x_lo: bb.0 - 60, x_hi: bb.1 + 60, y_lo: bb.2 - 60, y_hi: bb.3 + 60 }
}

/// Trail coordinates far enough from the ends of `i32` for the fill's box.
pub open spec fn trail_in_range(path: Seq<Point>) -> bool {
    forall|k: int|
        0 <= k < path.len() ==> i32::MIN + 60 <= (#[trigger] path[k]).0 <= i32::MAX - 60
            && i32::MIN + 60 <= path[k].1 <= i32::MAX - 60
}

/// Whether the ray cast right from `point` crosses the boundary an odd
/// number of times (see [`inside`]).
pub fn is_point_inside(point: Point, boundary: &Vec<Point>) -> (r: bool)
    ensures
        r == inside(boundary@, point),
{
    let (x, y): (i32, i32) = point;
    let ghost ray = Seq::new(steps(x as int, 800), |k: int| ((x + 20 * k) as i32, y));
    let ghost pred = |c: Point| boundary@.contains(c);
    let mut count: u64 = 0;
    let mut test_x: i64 = x as i64;
    let mut k: usize = 0;
    proof {
        assert(ray.take(0).filter(pred) =~= Seq::<Point>::empty());
    }
    while test_x <= 800
        invariant
            ray == Seq::new(steps(x as int, 800), |k: int| ((x + 20 * k) as i32, y)),
            pred == (|c: Point| boundary@.contains(c)),
            test_x == x + 20 * k,
            x <= 800 ==> k <= steps(x as int, 800),
            x > 800 ==> k == 0,
            count == ray.take(k as int).filter(pred).len(),
            count <= k,
            k <= 0x1_0000_0000,
        decreases 800 - test_x + 20,
    {
        proof {
            crate::field::lemma_steps(x as int, 800, k as int);
        }
        let c: Point = (test_x as i32, y);
        proof {
            assert(ray[k as int] == c);
            assert(ray.take(k as int + 1) =~= ray.take(k as int).push(c));
            ray.take(k as int).lemma_filter_push(c, pred);
        }
        if has_point(boundary, c) {
            count = count + 1;
        }
        test_x = test_x + 20;
        k = k + 1;
    }
    proof {
        if x <= 800 {
            crate::field::lemma_steps(x as int, 800, k as int);
        }
        assert(ray.take(k as int) =~= ray);
    }
    count % 2 == 1
}

/// The fill's box lies within `i32`.
pub open spec fn box_sane_fill(bb: (int, int, int, int)) -> bool {
    i32::MIN <= bb.0 - 60 && bb.1 + 60 <= i32::MAX && i32::MIN <= bb.2 - 60 && bb.3 + 60 <= i32::MAX
}

/// The entry is that of one of the players.
pub open spec fn entry_among(players: Seq<PlayerView>, e: Entry) -> bool {
    exists|j: int| 0 <= j < players.len() && e == entry_of(players[j])
}

/// The scoreboard entry of a player: id, territory size and color.
pub open spec fn entry_of(p: PlayerView) -> Entry {
    (p.id, p.territory.len() as usize, p.color)
}

impl GameState {
    pub open spec fn wf(&self) -> bool {
        distinct_ids(self@.others)
    }

    /// The scoreboard line: the own player first, then the others in order
    /// of id.
    pub fn scoreboard(&self) -> (r: Vec<Entry>)
        requires
            self.wf(),
        ensures
            r@.len() == self@.others.len() + 1,
            r@[0] == entry_of(self@.player),
            ids_increasing(r@.drop_first()),
            forall|k: int|
                0 <= k < self@.others.len() ==> r@.drop_first().contains(entry_of(#[trigger] self@.others[k])),
            forall|k: int| 0 <= k < self@.others.len() ==> entry_among(self@.others, #[trigger] r@.drop_first()[k]),
    {
        let ghost v = self@.others;
        let mut entries: Vec<Entry> = Vec::new();
        let mut i: usize = 0;
        while i < self.other_players.len()
            invariant
                v == self@.others,
                i <= v.len(),
                entries@.len() == i,
                forall|k: int| 0 <= k < i ==> (#[trigger] entries@[k]) == entry_of(v[k]),
            decreases v.len() - i,
        {
            let p: &Player = &self.other_players[i];
            entries.push((p.id, p.territory.len(), p.color));
            i = i + 1;
        }
        proof {
            assert forall|a: int, b: int|
                0 <= a < entries@.len() && 0 <= b < entries@.len() && a != b implies (#[trigger] entries@[a]).0
                != (#[trigger] entries@[b]).0 by {
                assert(v[a].id != v[b].id);
            }
        }
        let sorted: Vec<Entry> = sort_by_id(&entries);
        let mut r: Vec<Entry> = Vec::new();
        r.push((self.player.id, self.player.territory.len(), self.player.color));
        let mut k: usize = 0;
        while k < sorted.len()
            invariant
                k <= sorted@.len(),
                r@.len() == k + 1,
                r@[0] == entry_of(self@.player),
                forall|a: int| 0 <= a < k ==> r@[a + 1] == sorted@[a],
            decreases sorted@.len() - k,
        {
            r.push(sorted[k]);
            k = k + 1;
        }
        proof {
            assert(r@.drop_first() =~= sorted@);
            assert forall|a: int| 0 <= a < v.len() implies r@.drop_first().contains(entry_of(#[trigger] v[a])) by {
                assert(entries@[a] == entry_of(v[a]));
            }
            assert forall|a: int| 0 <= a < self@.others.len() implies entry_among(self@.others, #[trigger] r@.drop_first()[a]) by {
                assert(entries@.contains(sorted@[a]));
                let j = choose|j: int| 0 <= j < entries@.len() && entries@[j] == sorted@[a];
                assert(entries@[j] == entry_of(v[j]));
                assert(r@.drop_first()[a] == entry_of(self@.others[j]));
            }
        }
        r
    }

    /// The state before the server has assigned the player: id 0 at
    /// (100, 100) px in red, in the lobby, moving 0.75 px per frame.
    pub fn new() -> (s: GameState)
        ensures
            s.wf(),
            s@.player == (PlayerView {
                id: 0,
                x: 400,
                y: 400,
                color: (255, 0, 0),
                territory: Seq::empty(),
                current_path: Seq::empty(),
                ready: false,
            }),
            s@.others.len() == 0,
            s@.movement_speed == 3,
            s@.direction.is_none(),
            !s@.game_over,
            s@.phase == GamePhase::Lobby,
            s@.in_lobby,
            s@.countdown.is_none(),
    {
        GameState {
            player: Player {
                id: 0,
                x: 400,
                y: 400,
                color: (255, 0, 0),
                territory: Vec::new(),
                current_path: Vec::new(),
                ready: false,
            },
            other_players: Vec::new(),
            movement_speed: 3,
            current_direction: None,
            game_over: false,
            game_state: GamePhase::Lobby,
            in_lobby: true,
            countdown_message: None,
        }
    }




    /// Flips the own ready flag (Space in the lobby) and announces it on
    /// both channels.
    pub fn toggle_ready(&mut self) -> (actions: Vec<ClientAction>)
        ensures
            final(self)@ == toggled(old(self)@),
            action_views(actions@) == seq![
                ActionView::SendUdp(MessageView::PlayerReady { id: old(self)@.player.id }),
                ActionView::SendTcp(MessageView::PlayerReady { id: old(self)@.player.id }),
            ],
    {
        self.player.ready = !self.player.ready;
        let id: u32 = self.player.id;
        let mut actions: Vec<ClientAction> = Vec::new();
        actions.push(ClientAction::SendUdp(GameMessage::PlayerReady { id }));
        actions.push(ClientAction::SendTcp(GameMessage::PlayerReady { id }));
        proof {
            assert(action_views(actions@) =~= seq![
                ActionView::SendUdp(MessageView::PlayerReady { id }),
                ActionView::SendTcp(MessageView::PlayerReady { id }),
            ]);
        }
        actions
    }

    /// Sets the heading from the keys held this frame; a later key in the
    /// order up, down, left, right wins.
    pub fn steer(&mut self, up: bool, down: bool, left: bool, right: bool)
        ensures
            final(self)@ == steered(old(self)@, up, down, left, right),
    {
        if up {
            self.current_direction = Some(Direction::Up);
        }
        if down {
            self.current_direction = Some(Direction::Down);
        }
        if left {
            self.current_direction = Some(Direction::Left);
        }
        if right {
            self.current_direction = Some(Direction::Right);
        }
    }

    /// The position report sent on a timer.
    pub fn position_message(&self) -> (m: GameMessage)
        ensures
            m@ == (MessageView::Position { id: self.player.id, x: self.player.x, y: self.player.y }),
    {
        GameMessage::Position { id: self.player.id, x: self.player.x, y: self.player.y }
    }

    /// Records the players of a lobby state message.
    fn absorb_lobby_players(&mut self, ps: &Vec<Player>)
        requires
            old(self).wf(),
        ensures
            final(self).wf(),
            final(self)@ == absorb_lobby(old(self)@, player_views(ps@)),
    {
        let ghost s0 = self@;
        let ghost v = player_views(ps@);
        let my_id: u32 = self.player.id;
        let mut i: usize = 0;
        while i < ps.len()
            invariant
                self.wf(),
                v == player_views(ps@),
                my_id == s0.player.id,
                i <= ps@.len(),
                self@ == absorb_lobby(s0, v.take(i as int)),
            decreases ps@.len() - i,
        {
            proof {
                assert(v.take(i as int + 1).drop_last() =~= v.take(i as int));
                assert(v.take(i as int + 1).last() == v[i as int]);
            }
            if ps[i].id == my_id {
                self.player.ready = ps[i].ready;
            } else {
                upsert(&mut self.other_players, ps[i].duplicate());
            }
            proof {
                assert(self@ =~~= absorb_lobby(s0, v.take(i as int + 1)));
            }
            i = i + 1;
        }
        proof {
            assert(v.take(i as int) =~= v);
        }
    }

    /// Records the players of a state message during the match.
    fn absorb_game_players(&mut self, ps: &Vec<Player>)
        requires
            old(self).wf(),
        ensures
            final(self).wf(),
            final(self)@ == absorb_game(old(self)@, player_views(ps@)),
    {
        let ghost s0 = self@;
        let ghost v = player_views(ps@);
        let my_id: u32 = self.player.id;
        let mut i: usize = 0;
        while i < ps.len()
            invariant
                self.wf(),
                v == player_views(ps@),
                my_id == s0.player.id,
                i <= ps@.len(),
                self@ == absorb_game(s0, v.take(i as int)),
            decreases ps@.len() - i,
        {
            proof {
                assert(v.take(i as int + 1).drop_last() =~= v.take(i as int));
                assert(v.take(i as int + 1).last() == v[i as int]);
            }
            if ps[i].id == my_id {
                self.player.territory = copy_points(&ps[i].territory);
            } else {
                upsert(&mut self.other_players, ps[i].duplicate());
            }
            proof {
                assert(self@ =~~= absorb_game(s0, v.take(i as int + 1)));
            }
            i = i + 1;
        }
        proof {
            assert(v.take(i as int) =~= v);
        }
    }

    /// Handles one server message in the lobby (see [`lobby_outcome`]).
    pub fn handle_lobby_message(&mut self, msg: GameMessage) -> (actions: Vec<ClientAction>)
        requires
            old(self).wf(),
        ensures
            final(self).wf(),
            final(self)@ == lobby_outcome(old(self)@, msg@).0,
            action_views(actions@) == lobby_outcome(old(self)@, msg@).1,
    {
        let ghost s0 = self@;
        let mut actions: Vec<ClientAction> = Vec::new();
        match msg {
            GameMessage::PlayerJoined(p) => {
                if p.id != self.player.id {
                    upsert(&mut self.other_players, p);
                }
            },
            GameMessage::GameStarting => {
                self.game_state = GamePhase::InGame;
                self.in_lobby = false;
                actions.push(ClientAction::StartMatchClock);
                actions.push(ClientAction::Play(Sound::GameStart));
            },
            GameMessage::PlayerUpdate(p) => {
                if p.id != self.player.id {
                    upsert(&mut self.other_players, p);
                } else {
                    self.player.ready = p.ready;
                }
            },
            GameMessage::GameState(ps) => {
                self.absorb_lobby_players(&ps);
            },
            GameMessage::GameUpdate(text) => {
                self.countdown_message = Some(text);
            },
            _ => {},
        }
        proof {
            assert(self@ =~~= lobby_outcome(s0, msg@).0);
            assert(action_views(actions@) =~= lobby_outcome(s0, msg@).1);
        }
        actions
    }

    /// Handles one server message during the match (see
    /// [`game_message_outcome`]); a respawn draws a random number.
    pub fn handle_game_message(&mut self, msg: GameMessage) -> (actions: Vec<ClientAction>)
        requires
            old(self).wf(),
        ensures
            final(self).wf(),
            exists|r: usize|
                final(self)@ == (#[trigger] game_message_outcome(old(self)@, msg@, r)).0
                    && action_views(actions@) == game_message_outcome(old(self)@, msg@, r).1,
    {
        let ghost s0 = self@;
        let ghost mv = msg@;
        let mut actions: Vec<ClientAction> = Vec::new();
        match msg {
            GameMessage::GameTime(t) => {
                actions.push(ClientAction::SetTimeOffset(t));
            },
            GameMessage::GameUpdate(text) => {
                self.countdown_message = Some(text);
            },
            GameMessage::PlayerDied { id } => {
                if id == self.player.id {
                    actions.push(ClientAction::Play(Sound::Death));
                    let mut more: Vec<ClientAction> = self.spawn_in_territory();
                    let ghost mv2 = action_views(more@);
                    actions.append(&mut more);
                    proof {
                        let r = choose|r: usize|
                            self@ == (ClientView { player: #[trigger] respawned(s0.player, r), ..s0 })
                                && mv2 == respawn_actions(s0.player, self@.player);
                        assert(action_views(actions@) =~= seq![ActionView::Play(Sound::Death)] + mv2);
                        assert(self@ == game_message_outcome(s0, mv, r).0);
                        assert(action_views(actions@) == game_message_outcome(s0, mv, r).1);
                    }
                    return actions;
                } else {
                    self.clear_trail_of(id);
                }
            },
            GameMessage::GameState(ps) => {
                self.absorb_game_players(&ps);
            },
            GameMessage::PlayerUpdate(p) => {
                if p.id == self.player.id {
                    self.player.ready = p.ready;
                } else {
                    upsert(&mut self.other_players, p);
                }
            },
            GameMessage::PlayerLeft { id } => {
                remove_player(&mut self.other_players, id);
            },
            _ => {},
        }
        proof {
            assert(self@ =~~= game_message_outcome(s0, mv, 0).0);
            assert(action_views(actions@) =~= game_message_outcome(s0, mv, 0).1);
        }
        actions
    }

    /// Clears the trail of the other player `id`, if known.
    fn clear_trail_of(&mut self, id: u32)
        requires
            old(self).wf(),
        ensures
            final(self).wf(),
            final(self)@ == (ClientView { others: cleared_trail(old(self)@.others, id), ..old(self)@ }),
    {
        let ghost s0 = self@;
        let ghost want = cleared_trail(s0.others, id);
        let mut next: Vec<Player> = Vec::new();
        let mut i: usize = 0;
        while i < self.other_players.len()
            invariant
                want == cleared_trail(s0.others, id),
                s0.others == player_views(self.other_players@),
                i <= self.other_players@.len(),
                next@.len() == i,
                forall|k: int| 0 <= k < i ==> (#[trigger] next@[k])@ == want[k],
            decreases self.other_players@.len() - i,
        {
            let mut p: Player = self.other_players[i].duplicate();
            if p.id == id {
                p.current_path = Vec::new();
            }
            proof {
                assert(p@ =~~= want[i as int]);
            }
            next.push(p);
            i = i + 1;
        }
        proof {
            assert(player_views(next@) =~~= want);
            assert forall|a: int, b: int|
                0 <= a < want.len() && 0 <= b < want.len() && a != b implies want[a].id != want[b].id by {
                assert(s0.others[a].id != s0.others[b].id);
            }
        }
        self.other_players = next;
        proof {
            assert(self@ =~~= (ClientView { others: want, ..s0 }));
        }
    }


    /// Handles the lobby's waiting messages in turn (see [`lobby_run`]).
    pub fn handle_lobby_messages(&mut self, msgs: Vec<GameMessage>) -> (actions: Vec<ClientAction>)
        requires
            old(self).wf(),
        ensures
            final(self).wf(),
            final(self)@ == lobby_run(old(self)@, message_views(msgs@)).0,
            action_views(actions@) == lobby_run(old(self)@, message_views(msgs@)).1,
    {
        let ghost s0 = self@;
        let ghost all = message_views(msgs@);
        let ghost mut k: int = 0;
        let mut rest: Vec<GameMessage> = msgs;
        let mut actions: Vec<ClientAction> = Vec::new();
        proof {
            assert(all.take(0) =~= Seq::<MessageView>::empty());
            assert(message_views(rest@) =~= all.skip(0));
            assert(action_views(actions@) =~= Seq::<ActionView>::empty());
        }
        while rest.len() > 0
            invariant
                self.wf(),
                0 <= k <= all.len(),
                message_views(rest@) == all.skip(k),
                self@ == lobby_run(s0, all.take(k)).0,
                action_views(actions@) == lobby_run(s0, all.take(k)).1,
            decreases rest@.len(),
        {
            proof {
                assert(all.skip(k).len() == rest@.len());
                assert(message_views(rest@)[0] == rest@[0]@);
            }
            let ghost old_rest = rest@;
            let m: GameMessage = rest.remove(0);
            let ghost before = action_views(actions@);
            let mut a: Vec<ClientAction> = self.handle_lobby_message(m);
            let ghost more = action_views(a@);
            actions.append(&mut a);
            proof {
                assert(all.skip(k)[0] == all[k]);
                assert(all.take(k + 1).drop_last() =~= all.take(k));
                assert(all.take(k + 1).last() == all[k]);
                assert(action_views(actions@) =~= before + more);
                assert forall|i: int| 0 <= i < rest@.len() implies message_views(rest@)[i] == all.skip(k + 1)[i] by {
                    assert(rest@[i] == old_rest[i + 1]);
                    assert(message_views(old_rest)[i + 1] == all.skip(k)[i + 1]);
                }
                assert(message_views(rest@) =~= all.skip(k + 1));
                k = k + 1;
            }
        }
        proof {
            assert(all.skip(k).len() == 0);
            assert(all.take(k) =~= all);
        }
        actions
    }

    /// Handles a running match's waiting messages in turn (see
    /// [`game_run`]); a respawn draws a random number.
    pub fn handle_game_messages(&mut self, msgs: Vec<GameMessage>) -> (actions: Vec<ClientAction>)
        requires
            old(self).wf(),
        ensures
            final(self).wf(),
            exists|rs: Seq<usize>|
                rs.len() == msgs@.len() && final(self)@ == (#[trigger] game_run(
                    old(self)@,
                    message_views(msgs@),
                    rs,
                )).0 && action_views(actions@) == game_run(old(self)@, message_views(msgs@), rs).1,
    {
        let ghost s0 = self@;
        let ghost all = message_views(msgs@);
        let ghost mut k: int = 0;
        let ghost mut rs: Seq<usize> = Seq::empty();
        let mut rest: Vec<GameMessage> = msgs;
        let mut actions: Vec<ClientAction> = Vec::new();
        proof {
            assert(all.take(0) =~= Seq::<MessageView>::empty());
            assert(message_views(rest@) =~= all.skip(0));
            assert(action_views(actions@) =~= Seq::<ActionView>::empty());
        }
        while rest.len() > 0
            invariant
                self.wf(),
                0 <= k <= all.len(),
                rs.len() == k,
                message_views(rest@) == all.skip(k),
                self@ == game_run(s0, all.take(k), rs).0,
                action_views(actions@) == game_run(s0, all.take(k), rs).1,
            decreases rest@.len(),
        {
            proof {
                assert(all.skip(k).len() == rest@.len());
                assert(message_views(rest@)[0] == rest@[0]@);
            }
            let ghost old_rest = rest@;
            let m: GameMessage = rest.remove(0);
            let ghost mid = self@;
            let ghost before = action_views(actions@);
            let mut a: Vec<ClientAction> = self.handle_game_message(m);
            let ghost more = action_views(a@);
            actions.append(&mut a);
            proof {
                let r = choose|r: usize|
                    self@ == (#[trigger] game_message_outcome(mid, all[k], r)).0 && more
                        == game_message_outcome(mid, all[k], r).1;
                assert(all.skip(k)[0] == all[k]);
                assert(all.take(k + 1).drop_last() =~= all.take(k));
                assert(all.take(k + 1).last() == all[k]);
                assert(rs.push(r).drop_last() =~= rs);
                assert(action_views(actions@) =~= before + more);
                assert forall|i: int| 0 <= i < rest@.len() implies message_views(rest@)[i] == all.skip(k + 1)[i] by {
                    assert(rest@[i] == old_rest[i + 1]);
                    assert(message_views(old_rest)[i + 1] == all.skip(k)[i + 1]);
                }
                assert(message_views(rest@) =~= all.skip(k + 1));
                rs = rs.push(r);
                k = k + 1;
            }
        }
        proof {
            assert(all.skip(k).len() == 0);
            assert(all.take(k) =~= all);
        }
        actions
    }

    /// One frame of the client. In the lobby: a counted press of the ready
    /// key (see [`ready_press`]), then the waiting messages by the lobby's
    /// rules. In the match: the clock first, which ends the frame once the
    /// match is over or its time is up (the messages then stay unread);
    /// else the waiting messages by the match's rules, the heading from the
    /// keys and one frame of play. The phase only ever moves from the lobby
    /// to the match, exactly when a start message is handled in the lobby,
    /// and that restarts the match clock.
    pub fn update(&mut self, input: FrameInput, msgs: Vec<GameMessage>) -> (actions: Vec<ClientAction>)
        requires
            old(self).wf(),
        ensures
            final(self).wf(),
            old(self)@.phase == GamePhase::Lobby ==> ({
                let t = pressed(old(self)@, input);
                &&& final(self)@ == lobby_run(t, message_views(msgs@)).0
                &&& action_views(actions@) == press_actions(old(self)@, input) + lobby_run(
                    t,
                    message_views(msgs@),
                ).1
            }),
            old(self)@.phase != GamePhase::Lobby && !old(self)@.game_over && !input.match_time_up
                ==> exists|rs: Seq<usize>, r: usize|
                #![trigger game_run(old(self)@, message_views(msgs@), rs), frame_step(old(self)@, message_views(msgs@), rs, input, r)]
                rs.len() == msgs@.len() && final(self)@ == frame_step(
                    old(self)@,
                    message_views(msgs@),
                    rs,
                    input,
                    r,
                ).0 && action_views(actions@) == game_run(old(self)@, message_views(msgs@), rs).1
                    + frame_step(old(self)@, message_views(msgs@), rs, input, r).1,
            old(self)@.phase != GamePhase::Lobby && !old(self)@.game_over && input.match_time_up
                ==> final(self)@ == (ClientView { game_over: true, ..old(self)@ }) && exists|
                w: u32,
                size: usize,
            |
                #[trigger] is_match_winner(standings(old(self)@), w, size as nat) && action_views(
                    actions@,
                ) == end_actions(old(self)@.player.id, w, size),
            old(self)@.phase != GamePhase::Lobby && old(self)@.game_over ==> final(self)@ == old(self)@
                && action_views(actions@) == (if input.shutdown_due {
                seq![ActionView::Exit]
            } else {
                Seq::empty()
            }),
            phase_ok(old(self)@) ==> phase_ok(final(self)@),
            final(self)@.phase == (if old(self)@.phase == GamePhase::Lobby && message_views(
                msgs@,
            ).contains(MessageView::GameStarting) {
                GamePhase::InGame
            } else {
                old(self)@.phase
            }),
            old(self)@.phase == GamePhase::Lobby && message_views(msgs@).contains(
                MessageView::GameStarting,
            ) ==> action_views(actions@).contains(ActionView::StartMatchClock),
    {
        let ghost s0 = self@;
        let ghost ms = message_views(msgs@);
        let in_lobby_phase: bool = match self.game_state {
            GamePhase::Lobby => true,
            _ => false,
        };
        if in_lobby_phase {
            let mut actions: Vec<ClientAction> = Vec::new();
            if input.ready_key && input.ms_since_ready_toggle > 500 {
                actions.push(ClientAction::RestartReadyClock);
                let ghost first = action_views(actions@);
                let mut a: Vec<ClientAction> = self.toggle_ready();
                let ghost more = action_views(a@);
                actions.append(&mut a);
                proof {
                    assert(action_views(actions@) =~= first + more);
                    assert(first =~= seq![ActionView::RestartReadyClock]);
                }
            } else {
                proof {
                    assert(action_views(actions@) =~= Seq::<ActionView>::empty());
                }
            }
            let ghost t = self@;
            let ghost pre = action_views(actions@);
            proof {
                assert(t == pressed(s0, input));
                assert(pre =~= press_actions(s0, input));
            }
            let mut b: Vec<ClientAction> = self.handle_lobby_messages(msgs);
            let ghost more = action_views(b@);
            actions.append(&mut b);
            proof {
                assert(action_views(actions@) =~= pre + more);
                lemma_lobby_run_phase(t, ms);
                if ms.contains(MessageView::GameStarting) {
                    lemma_lobby_run_starts_clock(t, ms);
                    let j = choose|j: int| 0 <= j < more.len() && more[j] == ActionView::StartMatchClock;
                    assert(action_views(actions@)[pre.len() + j] == ActionView::StartMatchClock);
                }
            }
            return actions;
        }
        match self.check_clock(input.match_time_up, input.shutdown_due) {
            Some(a) => {
                return a;
            },
            None => {},
        }
        let mut actions: Vec<ClientAction> = self.handle_game_messages(msgs);
        let ghost g0 = self@;
        let ghost before = action_views(actions@);
        proof {
            let rs = choose|rs: Seq<usize>|
                rs.len() == ms.len() && g0 == (#[trigger] game_run(s0, ms, rs)).0 && before == game_run(
                    s0,
                    ms,
                    rs,
                ).1;
            lemma_game_run_phase(s0, ms, rs);
        }
        self.steer(input.up, input.down, input.left, input.right);
        let ghost m = self@;
        let mut f: Vec<ClientAction> = self.move_and_claim();
        let ghost more = action_views(f@);
        actions.append(&mut f);
        proof {
            let rs = choose|rs: Seq<usize>|
                rs.len() == ms.len() && g0 == (#[trigger] game_run(s0, ms, rs)).0 && before == game_run(
                    s0,
                    ms,
                    rs,
                ).1;
            let r = choose|r: usize|
                self@ == (#[trigger] frame_outcome(m, r)).0 && more == frame_outcome(m, r).1;
            lemma_frame_keeps_phase(m, r);
            assert(action_views(actions@) =~= before + more);
            assert(m == steered(game_run(s0, ms, rs).0, input.up, input.down, input.left, input.right));
            assert(frame_step(s0, ms, rs, input, r) == frame_outcome(m, r));
        }
        actions
    }

    /// Takes the server's answer to the connection: a full lobby turns the
    /// client away (`true`); the client's own state becomes its player;
    /// anything else changes nothing.
    pub fn accept_join_reply(&mut self, msg: GameMessage) -> (full: bool)
        requires
            old(self).wf(),
        ensures
            final(self).wf(),
            full == (msg@ == MessageView::LobbyFull),
            final(self)@ == (match msg@ {
                MessageView::PlayerUpdate(p) => ClientView { player: p, ..old(self)@ },
                _ => old(self)@,
            }),
    {
        match msg {
            GameMessage::LobbyFull => true,
            GameMessage::PlayerUpdate(p) => {
                self.player = p;
                false
            },
            _ => false,
        }
    }

    /// The first full state from the server, as updates of the other
    /// players in its order (the own entry left out); nothing for any other
    /// message.
    pub fn initial_updates(&self, msg: GameMessage) -> (r: Vec<GameMessage>)
        ensures
            message_views(r@) == (match msg@ {
                MessageView::GameState(ps) => ps.filter(|p: PlayerView| p.id != self@.player.id).map_values(
                    |p: PlayerView| MessageView::PlayerUpdate(p),
                ),
                _ => Seq::empty(),
            }),
    {
        let mut r: Vec<GameMessage> = Vec::new();
        match msg {
            GameMessage::GameState(ps) => {
                let ghost all = player_views(ps@);
                let ghost me = self@.player.id;
                let ghost pred = |p: PlayerView| p.id != me;
                let ghost f = |p: PlayerView| MessageView::PlayerUpdate(p);
                let ghost mut k: int = 0;
                let mut rest: Vec<Player> = ps;
                proof {
                    assert(all.take(0) =~= Seq::<PlayerView>::empty());
                    assert(player_views(rest@) =~= all.skip(0));
                    assert(message_views(r@) =~= all.take(0).filter(pred).map_values(f));
                }
                while rest.len() > 0
                    invariant
                        me == self@.player.id,
                        pred == (|p: PlayerView| p.id != me),
                        f == (|p: PlayerView| MessageView::PlayerUpdate(p)),
                        0 <= k <= all.len(),
                        player_views(rest@) == all.skip(k),
                        message_views(r@) == all.take(k).filter(pred).map_values(f),
                    decreases rest@.len(),
                {
                    proof {
                        assert(all.skip(k).len() == rest@.len());
                        assert(player_views(rest@)[0] == rest@[0]@);
                    }
                    let ghost old_rest = rest@;
                    let ghost before = message_views(r@);
                    let p: Player = rest.remove(0);
                    proof {
                        assert(all.skip(k)[0] == all[k]);
                        assert(all.take(k + 1) =~= all.take(k).push(all[k]));
                        all.take(k).lemma_filter_push(all[k], pred);
                    }
                    if p.id != self.player.id {
                        r.push(GameMessage::PlayerUpdate(p));
                        proof {
                            assert(message_views(r@) =~= before.push(f(all[k])));
                            assert(all.take(k).filter(pred).push(all[k]).map_values(f) =~= all.take(
                                k,
                            ).filter(pred).map_values(f).push(f(all[k])));
                        }
                    }
                    proof {
                        assert forall|i: int| 0 <= i < rest@.len() implies player_views(rest@)[i]
                            == all.skip(k + 1)[i] by {
                            assert(rest@[i] == old_rest[i + 1]);
                            assert(player_views(old_rest)[i + 1] == all.skip(k)[i + 1]);
                        }
                        assert(player_views(rest@) =~= all.skip(k + 1));
                        k = k + 1;
                    }
                }
                proof {
                    assert(all.skip(k).len() == 0);
                    assert(all.take(k) =~= all);
                }
            },
            _ => {
                proof {
                    assert(message_views(r@) =~= Seq::<MessageView>::empty());
                }
            },
        }
        r
    }

    /// The winner when the match ends (see [`is_match_winner`]).
    pub fn match_winner(&self) -> (r: (u32, usize))
        ensures
            is_match_winner(standings(self@), r.0, r.1 as nat),
    {
        let ghost st = standings(self@);
        let mut max_territory: usize = 0;
        let mut winner_id: u32 = 0;
        proof {
            assert(is_match_winner(st.take(0), 0, 0));
            lemma_match_winner_step(st.take(0), 0, 0, st[0]);
            assert(st.take(0).push(st[0]) =~= st.take(1));
        }
        let own: usize = self.player.territory.len();
        if own > max_territory {
            max_territory = own;
            winner_id = self.player.id;
        }
        let mut i: usize = 0;
        while i < self.other_players.len()
            invariant
                st == standings(self@),
                i <= self.other_players@.len(),
                is_match_winner(st.take(i as int + 1), winner_id, max_territory as nat),
            decreases self.other_players@.len() - i,
        {
            proof {
                lemma_match_winner_step(st.take(i as int + 1), winner_id, max_territory as nat, st[i + 1]);
                assert(st.take(i as int + 1).push(st[i + 1]) =~= st.take(i as int + 2));
                assert(st[i + 1] == (self.other_players@[i as int].id, self.other_players@[i as int].territory@.len()));
            }
            let size: usize = self.other_players[i].territory.len();
            if size > max_territory {
                max_territory = size;
                winner_id = self.other_players[i].id;
            }
            i = i + 1;
        }
        proof {
            assert(st.take(i as int + 1) =~= st);
        }
        (winner_id, max_territory)
    }

    /// The winner shown on the final screen (see [`is_shown_winner`]).
    pub fn display_winner(&self) -> (r: (u32, usize))
        ensures
            is_shown_winner(standings(self@), r.0, r.1 as nat),
    {
        let ghost st = standings(self@);
        let mut max_territory: usize = self.player.territory.len();
        let mut winner_id: u32 = self.player.id;
        proof {
            assert(first_largest(st.take(1), 0));
        }
        let mut i: usize = 0;
        while i < self.other_players.len()
            invariant
                st == standings(self@),
                i <= self.other_players@.len(),
                is_shown_winner(st.take(i as int + 1), winner_id, max_territory as nat),
            decreases self.other_players@.len() - i,
        {
            proof {
                lemma_shown_winner_step(st.take(i as int + 1), winner_id, max_territory as nat, st[i + 1]);
                assert(st.take(i as int + 1).push(st[i + 1]) =~= st.take(i as int + 2));
                assert(st[i + 1] == (self.other_players@[i as int].id, self.other_players@[i as int].territory@.len()));
            }
            let size: usize = self.other_players[i].territory.len();
            if size > max_territory {
                max_territory = size;
                winner_id = self.other_players[i].id;
            }
            i = i + 1;
        }
        proof {
            assert(st.take(i as int + 1) =~= st);
        }
        (winner_id, max_territory)
    }

    /// The match clock's part of a frame. Before the end: when the time is
    /// up the match ends (see [`end_actions`]) and the frame stops, else the
    /// frame goes on (`None`). After the end the frame stops, and the
    /// program ends once the shutdown delay has passed.
    pub fn check_clock(&mut self, match_time_up: bool, shutdown_due: bool) -> (r: Option<Vec<ClientAction>>)
        ensures
            !old(self)@.game_over && !match_time_up ==> r.is_none() && final(self)@ == old(self)@,
            !old(self)@.game_over && match_time_up ==> r.is_some() && final(self)@ == (ClientView {
                game_over: true,
                ..old(self)@
            }) && exists|w: u32, size: usize|
                #[trigger] is_match_winner(standings(old(self)@), w, size as nat) && action_views(
                    r.unwrap()@,
                ) == end_actions(old(self)@.player.id, w, size),
            old(self)@.game_over ==> final(self)@ == old(self)@ && r.is_some() && action_views(
                r.unwrap()@,
            ) == (if shutdown_due {
                seq![ActionView::Exit]
            } else {
                Seq::empty()
            }),
    {
        if !self.game_over {
            if match_time_up {
                self.game_over = true;
                let (winner_id, size): (u32, usize) = self.match_winner();
                let my_id: u32 = self.player.id;
                let mut actions: Vec<ClientAction> = Vec::new();
                actions.push(ClientAction::StartShutdownClock);
                actions.push(ClientAction::PauseMusic);
                if winner_id == my_id {
                    actions.push(ClientAction::Play(Sound::GameEnd));
                } else {
                    actions.push(ClientAction::Play(Sound::Death));
                }
                actions.push(ClientAction::ReportWinner { winner_id, territory_size: size });
                actions.push(
                    ClientAction::SendTcp(GameMessage::GameOver { winner_id, territory_size: size }),
                );
                proof {
                    assert(standings(self@) == standings(old(self)@));
                    assert(action_views(actions@) =~= end_actions(my_id, winner_id, size));
                }
                return Some(actions);
            }
            None
        } else {
            let mut actions: Vec<ClientAction> = Vec::new();
            if shutdown_due {
                actions.push(ClientAction::Exit);
            }
            proof {
                assert(action_views(actions@) =~= (if shutdown_due {
                    seq![ActionView::Exit]
                } else {
                    Seq::empty()
                }));
            }
            Some(actions)
        }
    }


    /// The cells a flood from around the own trail reaches and that ray
    /// casting puts inside the trails (the own trail and every other
    /// player's). The flood starts at [`fill_starts`], stays in
    /// [`fill_rect`] and stops at the trails; each cell appears once.
    pub fn flood_fill(&self) -> (r: Vec<Point>)
        requires
            trail_in_range(self@.player.current_path),
        ensures
            r@.no_duplicates(),
            forall|p: Point|
                #![trigger r@.contains(p)]
                r@.contains(p) <==> reached(
                    fill_rect(trail_bounds(self@.player.current_path)),
                    self@.player.current_path + trails(self@.others),
                    fill_starts(trail_bounds(self@.player.current_path)).to_set(),
                ).contains((p.0 as int, p.1 as int)) && inside(
                    self@.player.current_path + trails(self@.others),
                    p,
                ),
            r@ == flood_order(
                fill_rect(trail_bounds(self@.player.current_path)),
                self@.player.current_path + trails(self@.others),
                fill_starts(trail_bounds(self@.player.current_path)),
            ).map_values(|c: (int, int)| to_point(c)).filter(
                |p: Point| inside(self@.player.current_path + trails(self@.others), p),
            ),
    {
        let ghost path = self@.player.current_path;
        let (min_x, max_x, min_y, max_y): (i32, i32, i32, i32) = if self.player.current_path.len()
            == 0 {
            (0, 0, 0, 0)
        } else {
            path_bounds(&self.player.current_path)
        };
        let ghost bb = (min_x as int, max_x as int, min_y as int, max_y as int);
        proof {
            assert(bb == trail_bounds(path));
            if path.len() > 0 {
                let a = crate::field::xs(path);
                let b = crate::field::ys(path);
                a.min_ensures();
                a.max_ensures();
                b.min_ensures();
                b.max_ensures();
                let k1 = choose|k: int| 0 <= k < a.len() && a[k] == a.min();
                let k2 = choose|k: int| 0 <= k < a.len() && a[k] == a.max();
                let k3 = choose|k: int| 0 <= k < b.len() && b[k] == b.min();
                let k4 = choose|k: int| 0 <= k < b.len() && b[k] == b.max();
                assert(path[k1].0 == min_x);
                assert(path[k2].0 == max_x);
                assert(path[k3].1 == min_y);
                assert(path[k4].1 == max_y);
            }
        }
        let boundary: Vec<Point> = claim_blockers(&self.player.current_path, &self.other_players);
        let lo_x: i64 = min_x as i64;
        let hi_x: i64 = max_x as i64;
        let lo_y: i64 = min_y as i64;
        let hi_y: i64 = max_y as i64;
        let sx: i64 = lo_x + hi_x;
        let sy: i64 = lo_y + hi_y;
        let mx: i64 = if sx >= 0 { sx / 2 } else { -((-sx) / 2) };
        let my: i64 = if sy >= 0 { sy / 2 } else { -((-sy) / 2) };
        let mut starts: Vec<(i64, i64)> = Vec::new();
        starts.push((lo_x - 20, lo_y - 20));
        starts.push((hi_x + 20, lo_y - 20));
        starts.push((lo_x - 20, hi_y + 20));
        starts.push((hi_x + 20, hi_y + 20));
        starts.push((mx, lo_y - 20));
        starts.push((mx, hi_y + 20));
        starts.push((lo_x - 20, my));
        starts.push((hi_x + 20, my));
        starts.push((mx, my));
        starts.push((lo_x + 20, lo_y + 20));
        starts.push((hi_x - 20, lo_y + 20));
        starts.push((lo_x + 20, hi_y - 20));
        starts.push((hi_x - 20, hi_y - 20));
        proof {
            assert(cells(starts@) =~= fill_starts(bb));
        }
        let b = SearchBox { x_lo: lo_x - 60, x_hi: hi_x + 60, y_lo: lo_y - 60, y_hi: hi_y + 60 };
        let visited: Vec<(i64, i64)> = flood_region(&b, &starts, &boundary);
        let ghost reach = reached(fill_rect(bb), boundary@, fill_starts(bb).to_set());
        proof {
            assert(b@ == fill_rect(bb));
        }
        proof {
            assert(cells(visited@) == flood_order(fill_rect(bb), boundary@, fill_starts(bb)));
        }
        let mut filled: Vec<Point> = Vec::new();
        let mut i: usize = 0;
        let ghost tp = |c: (int, int)| to_point(c);
        let ghost keep = |p: Point| inside(boundary@, p);
        proof {
            assert(filled@ =~= cells(visited@).take(0).map_values(tp).filter(keep));
        }
        while i < visited.len()
            invariant
                tp == (|c: (int, int)| to_point(c)),
                keep == (|p: Point| inside(boundary@, p)),
                filled@ == cells(visited@).take(i as int).map_values(tp).filter(keep),
                cells(visited@) == flood_order(fill_rect(bb), boundary@, fill_starts(bb)),
                boundary@ == path + trails(self@.others),
                bb == trail_bounds(path),
                path == self@.player.current_path,
                b@ == fill_rect(bb),
                box_sane_fill(bb),
                reach == reached(fill_rect(bb), boundary@, fill_starts(bb).to_set()),
                cells(visited@).no_duplicates(),
                forall|k: int|
                    0 <= k < visited@.len() ==> crate::region::passable(
                        b@,
                        boundary@,
                        #[trigger] cells(visited@)[k],
                    ),
                forall|c: (int, int)|
                    #![trigger cells(visited@).contains(c)]
                    cells(visited@).contains(c) <==> reach.contains(c),
                i <= visited@.len(),
                filled@.no_duplicates(),
                forall|p: Point|
                    #![trigger filled@.contains(p)]
                    filled@.contains(p) <==> (exists|k: int|
                        0 <= k < i && cell(visited@[k]) == (p.0 as int, p.1 as int)) && inside(
                        boundary@,
                        p,
                    ),
            decreases visited@.len() - i,
        {
            let c: (i64, i64) = visited[i];
            proof {
                assert(cells(visited@)[i as int] == cell(c));
                assert(cells(visited@).contains(cell(c)));
                assert(reach.contains(cell(c)));
                assert(crate::region::passable(b@, boundary@, cells(visited@)[i as int]));
            }
            let p: Point = (c.0 as i32, c.1 as i32);
            let ghost old_filled = filled@;
            proof {
                let cs = cells(visited@);
                assert(cs.take(i as int + 1) =~= cs.take(i as int).push(cs[i as int]));
                assert(cs.take(i as int).push(cs[i as int]).map_values(tp) =~= cs.take(i as int).map_values(
                    tp,
                ).push(tp(cs[i as int])));
                assert(tp(cs[i as int]) == p);
                cs.take(i as int).map_values(tp).lemma_filter_push(p, keep);
            }
            if is_point_inside(p, &boundary) {
                proof {
                    if old_filled.contains(p) {
                        let k = choose|k: int| 0 <= k < i && cell(visited@[k]) == (p.0 as int, p.1 as int);
                        assert(cells(visited@)[k] == cells(visited@)[i as int]);
                    }
                }
                filled.push(p);
                proof {
                    assert forall|a: int, bb2: int|
                        0 <= a < filled@.len() && 0 <= bb2 < filled@.len() && a != bb2 implies filled@[a]
                        != filled@[bb2] by {
                        if a < old_filled.len() && bb2 < old_filled.len() {
                        } else if a < old_filled.len() {
                            assert(old_filled.contains(old_filled[a]));
                        } else if bb2 < old_filled.len() {
                            assert(old_filled.contains(old_filled[bb2]));
                        }
                    }
                }
            }
            proof {
                assert forall|q: Point|
                    #![trigger filled@.contains(q)]
                    filled@.contains(q) <==> (exists|k: int|
                        0 <= k < i + 1 && cell(visited@[k]) == (q.0 as int, q.1 as int)) && inside(
                        boundary@,
                        q,
                    ) by {
                    let qq = (q.0 as int, q.1 as int);
                    let seen_before = exists|k: int| 0 <= k < i && cell(visited@[k]) == qq;
                    let seen_now = exists|k: int| 0 <= k < i + 1 && cell(visited@[k]) == qq;
                    if old_filled.contains(q) {
                        assert(seen_before && inside(boundary@, q));
                        let k = choose|k: int| 0 <= k < i && cell(visited@[k]) == qq;
                        assert(seen_now);
                        let j = choose|j: int| 0 <= j < old_filled.len() && old_filled[j] == q;
                        assert(filled@[j] == q);
                        assert(filled@.contains(q));
                    }
                    if filled@.contains(q) && !old_filled.contains(q) {
                        let j = choose|j: int| 0 <= j < filled@.len() && filled@[j] == q;
                        assert(j == old_filled.len());
                        assert(q == p);
                        assert(cell(visited@[i as int]) == qq);
                        assert(seen_now);
                    }
                    if seen_now && inside(boundary@, q) {
                        let k = choose|k: int| 0 <= k < i + 1 && cell(visited@[k]) == qq;
                        if k < i {
                            assert(seen_before);
                            assert(old_filled.contains(q));
                            let j = choose|j: int| 0 <= j < old_filled.len() && old_filled[j] == q;
                            assert(filled@[j] == q);
                        } else {
                            assert(q.0 == p.0 && q.1 == p.1);
                            assert(q == p);
                            assert(filled@[filled@.len() - 1] == p);
                        }
                    }
                }
            }
            i = i + 1;
        }
        proof {
            assert forall|p: Point|
                #![trigger filled@.contains(p)]
                filled@.contains(p) <==> reach.contains((p.0 as int, p.1 as int)) && inside(
                    boundary@,
                    p,
                ) by {
                let q = (p.0 as int, p.1 as int);
                let seen = exists|k: int| 0 <= k < i && cell(visited@[k]) == q;
                if reach.contains(q) {
                    assert(cells(visited@).contains(q));
                    let k = choose|k: int| 0 <= k < cells(visited@).len() && cells(visited@)[k] == q;
                    assert(cell(visited@[k]) == q);
                    assert(seen);
                }
                if seen {
                    let k = choose|k: int| 0 <= k < i && cell(visited@[k]) == q;
                    assert(cells(visited@)[k] == q);
                    assert(cells(visited@).contains(q));
                    assert(reach.contains(q));
                }
            }
        }
        proof {
            assert(cells(visited@).take(i as int) =~= cells(visited@));
        }
        filled
    }


    /// Whether a proposed territory passes the local checks: it may grow by
    /// at most 200 points, and when both lists are non-empty some new point
    /// must lie within one cell of an old one.
    pub fn validate_territory_claim(&self, new_territory: &Vec<Point>) -> (r: bool)
        ensures
            r == (new_territory@.len() <= self@.player.territory.len() + 200 && (
            self@.player.territory.len() == 0 || new_territory@.len() == 0 || touches(
                new_territory@,
                self@.player.territory,
            ))),
    {
        let current: usize = self.player.territory.len();
        let proposed: usize = new_territory.len();
        if proposed > 200 && proposed - 200 > current {
            return false;
        }
        if current > 0 && proposed > 0 {
            if !touching(new_territory, &self.player.territory) {
                return false;
            }
        }
        true
    }

    /// The id of the first other player whose trail runs through the own
    /// player's grid cell.
    pub fn check_trail_collision(&self) -> (r: Option<u32>)
        requires
            crate::field::cell_fits(self@.player.x as int, self@.player.y as int),
        ensures
            match trail_hit(self@.others, (grid_line(self@.player.x as int) as i32, grid_line(self@.player.y as int) as i32)) {
                Some(i) => r == Some(self@.others[i].id),
                None => r.is_none(),
            },
    {
        let cur: Point = grid_cell(self.player.x, self.player.y);
        match find_trail_hit(&self.other_players, cur) {
            Some(i) => Some(self.other_players[i].id),
            None => None,
        }
    }

    /// The report that the player `killed_player_id` died, for the datagram
    /// socket.
    pub fn send_death_message(&self, killed_player_id: u32) -> (a: ClientAction)
        ensures
            a@ == ActionView::SendUdp(MessageView::PlayerDied { id: killed_player_id }),
    {
        ClientAction::SendUdp(GameMessage::PlayerDied { id: killed_player_id })
    }

    /// One frame of play (see [`frame_outcome`]).
    pub fn move_and_claim(&mut self) -> (actions: Vec<ClientAction>)
        requires
            old(self).wf(),
        ensures
            final(self).wf(),
            exists|r: usize|
                final(self)@ == (#[trigger] frame_outcome(old(self)@, r)).0 && action_views(actions@)
                    == frame_outcome(old(self)@, r).1,
    {
        let ghost s0 = self@;
        let (nx, ny): (i64, i64) = advance(
            self.player.x,
            self.player.y,
            self.current_direction,
            self.movement_speed,
        );
        self.player.x = nx;
        self.player.y = ny;
        let ghost m = self@;
        proof {
            assert(m =~~= (ClientView { player: PlayerView { x: nx, y: ny, ..s0.player }, ..s0 }));
        }
        let cur: Point = grid_cell(nx, ny);
        let mut actions: Vec<ClientAction> = Vec::new();
        match find_trail_hit(&self.other_players, cur) {
            Some(i) => {
                let id: u32 = self.other_players[i].id;
                actions.push(ClientAction::SendUdp(GameMessage::PlayerDied { id }));
                actions.push(ClientAction::SendTcp(GameMessage::PlayerDied { id }));
                proof {
                    assert(action_views(actions@) =~= frame_outcome(s0, 0).1);
                }
                return actions;
            },
            None => {},
        }
        if self.player.y < FIELD_MIN_Y {
            self.player.y = FIELD_MIN_Y;
        }
        if !has_point(&self.player.territory, cur) {
            let n: usize = self.player.current_path.len();
            if n > 1 && prefix_has(&self.player.current_path, n - 1, cur) {
                let hit_own: bool = n > 2 && prefix_has(&self.player.current_path, n - 2, cur);
                let hit_other: bool = find_trail_hit(&self.other_players, cur).is_some();
                if hit_own || hit_other {
                    let mut a: Vec<ClientAction> = self.spawn_in_territory();
                    let ghost ra = action_views(a@);
                    a.push(ClientAction::Play(Sound::Death));
                    proof {
                        let r = choose|r: usize|
                            self@ == (ClientView { player: #[trigger] respawned(m.player, r), ..m })
                                && ra == respawn_actions(m.player, self@.player);
                        assert(action_views(a@) =~= ra.push(ActionView::Play(Sound::Death)));
                        assert(self@ == frame_outcome(s0, r).0);
                        assert(action_views(a@) == frame_outcome(s0, r).1);
                    }
                    return a;
                }
            }
            if n == 0 || {
                let last: Point = self.player.current_path[n - 1];
                last.0 != cur.0 || last.1 != cur.1
            } {
                self.player.current_path.push(cur);
                actions.push(ClientAction::SendUdp(GameMessage::PlayerUpdate(self.player.duplicate())));
            }
        } else if self.player.current_path.len() > 0 {
            let a: Vec<ClientAction> = self.claim();
            proof {
                let r = choose|r: usize|
                    self@ == (#[trigger] claim_outcome(m, r)).0 && action_views(a@) == claim_outcome(m, r).1;
                assert(frame_outcome(s0, r) == claim_outcome(m, r));
            }
            return a;
        }
        let ghost mid = action_views(actions@);
        actions.push(ClientAction::SendUdp(GameMessage::PlayerUpdate(self.player.duplicate())));
        actions.push(ClientAction::SendTcp(GameMessage::PlayerUpdate(self.player.duplicate())));
        proof {
            assert(action_views(actions@) =~= mid + final_sends(self@.player));
            assert(self@ =~~= frame_outcome(s0, 0).0);
            assert(action_views(actions@) =~~= frame_outcome(s0, 0).1);
        }
        actions
    }

    /// Closes the own trail back in the own territory (see
    /// [`claim_outcome`]).
    fn claim(&mut self) -> (actions: Vec<ClientAction>)
        requires
            old(self).wf(),
            old(self)@.player.current_path.len() > 0,
        ensures
            final(self).wf(),
            exists|r: usize|
                final(self)@ == (#[trigger] claim_outcome(old(self)@, r)).0 && action_views(actions@)
                    == claim_outcome(old(self)@, r).1,
    {
        let ghost s0 = self@;
        let path: Vec<Point> = copy_points(&self.player.current_path);
        if !path_clear(&path, &self.other_players) {
            let a: Vec<ClientAction> = self.spawn_in_territory();
            proof {
                let r = choose|r: usize|
                    self@ == (ClientView { player: #[trigger] respawned(s0.player, r), ..s0 })
                        && action_views(a@) == respawn_actions(s0.player, self@.player);
                assert(claim_outcome(s0, r) == respawn_outcome(s0, r));
            }
            return a;
        }
        let stripped: Vec<Player> = strip_path(&self.other_players, &path);
        proof {
            assert forall|k: int| 0 <= k < stripped@.len() implies (#[trigger] player_views(stripped@)[k]).id
                == s0.others[k].id by {
                assert(player_views(stripped@)[k] == strip_claimed(s0.others, path@)[k]);
            }
        }
        self.other_players = stripped;
        let ghost s1 = self@;
        proof {
            assert(s1 =~~= (ClientView { others: strip_claimed(s0.others, path@), ..s0 }));
        }
        if self.player.territory.len() > 0 && !touching(&path, &self.player.territory) {
            let a: Vec<ClientAction> = self.spawn_in_territory();
            proof {
                let r = choose|r: usize|
                    self@ == (ClientView { player: #[trigger] respawned(s1.player, r), ..s1 })
                        && action_views(a@) == respawn_actions(s1.player, self@.player);
                assert(claim_outcome(s0, r) == respawn_outcome(s1, r));
            }
            return a;
        }
        let mut t: Vec<Point> = copy_points(&self.player.territory);
        let mut more: Vec<Point> = copy_points(&path);
        t.append(&mut more);
        let ghost t1 = t@;
        assert(t1 == s0.player.territory + path@);
        let (min_x, max_x, min_y, max_y): (i32, i32, i32, i32) = path_bounds(&path);
        let ghost bb = (min_x as int, max_x as int, min_y as int, max_y as int);
        let blockers: Vec<Point> = claim_blockers(&t, &self.other_players);
        let b = SearchBox {
            x_lo: min_x as i64 - 40,
            x_hi: max_x as i64 + 40,
            y_lo: min_y as i64 - 40,
            y_hi: max_y as i64 + 40,
        };
        let starts: Vec<(i64, i64)> = edge_start_cells(min_x, max_x, min_y, max_y);
        let visited: Vec<(i64, i64)> = flood_region(&b, &starts, &blockers);
        let ghost reach = claim_reach(t1, s1.others, bb);
        proof {
            assert(b@ == claim_rect(bb));
            assert(cells(starts@).to_set() =~= edge_starts(bb));
            assert(cells(visited@).to_set() =~= reach);
        }
        let mut fill: Vec<Point> = enclosed_cells(min_x, max_x, min_y, max_y, &visited, &t);
        t.append(&mut fill);
        let mut actions: Vec<ClientAction> = Vec::new();
        actions.push(ClientAction::Play(Sound::TerritoryClaim));
        let next: Vec<Player> = steal_territories(
            &self.other_players,
            min_x,
            max_x,
            min_y,
            max_y,
            &visited,
            &mut actions,
        );
        proof {
            assert forall|k: int| 0 <= k < next@.len() implies (#[trigger] player_views(next@)[k]).id
                == s1.others[k].id by {
                assert(player_views(next@)[k] == steal_all(s1.others, bb, reach)[k]);
            }
        }
        self.other_players = next;
        self.player.territory = t;
        self.player.current_path = Vec::new();
        let ghost mid = action_views(actions@);
        actions.push(ClientAction::SendUdp(GameMessage::PlayerUpdate(self.player.duplicate())));
        actions.push(ClientAction::SendTcp(GameMessage::PlayerUpdate(self.player.duplicate())));
        proof {
            let out = claim_outcome(s0, 0);
            assert(action_views(actions@) =~= mid + final_sends(self@.player));
            assert(mid =~= seq![ActionView::Play(Sound::TerritoryClaim)] + steal_actions(s1.others, bb, reach));
            assert(self@ =~~= out.0);
            assert(action_views(actions@) =~~= out.1);
        }
        actions
    }

    /// Respawns with the random number `r` (see [`respawned`]) and returns
    /// the update to send.
    pub fn respawn_at(&mut self, r: usize) -> (actions: Vec<ClientAction>)
        ensures
            final(self)@ == (ClientView { player: respawned(old(self)@.player, r), ..old(self)@ }),
            action_views(actions@) == respawn_actions(old(self)@.player, final(self)@.player),
    {
        let mut actions: Vec<ClientAction> = Vec::new();
        let n: usize = self.player.territory.len();
        if n > 0 {
            let c: Point = self.player.territory[r % n];
            self.player.x = (c.0 as i64 + 10) * 4;
            self.player.y = (c.1 as i64 + 10) * 4;
            self.player.current_path = Vec::new();
            actions.push(ClientAction::SendUdp(GameMessage::PlayerUpdate(self.player.duplicate())));
            proof {
                assert(action_views(actions@) =~= respawn_actions(old(self)@.player, self@.player));
            }
        }
        proof {
            assert(self@ =~~= (ClientView { player: respawned(old(self)@.player, r), ..old(self)@ }));
        }
        actions
    }

    /// Respawns at a random cell of the own territory, when there is one.
    pub fn spawn_in_territory(&mut self) -> (actions: Vec<ClientAction>)
        ensures
            exists|r: usize|
                final(self)@ == (ClientView { player: #[trigger] respawned(old(self)@.player, r), ..old(self)@ })
                    && action_views(actions@) == respawn_actions(
                    old(self)@.player,
                    final(self)@.player,
                ),
    {
        if self.player.territory.len() > 0 {
            let r: usize = random_usize();
            self.respawn_at(r)
        } else {
            let actions: Vec<ClientAction> = Vec::new();
            proof {
                assert(self@ =~~= (ClientView { player: respawned(old(self)@.player, 0), ..old(self)@ }));
                assert(action_views(actions@) =~= respawn_actions(old(self)@.player, self@.player));
            }
            actions
        }
    }
}

} // verus!
