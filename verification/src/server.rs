//! The server's rules: joining and leaving, the ready lobby and its
//! countdown, the players' reports during the match, territory stealing and
//! the winner. Each rule maps the server state and an event to the next
//! state and a list of actions (broadcasts, sends, timers) that the caller
//! performs.
use vstd::prelude::*;
use crate::shared::{
    Player, PlayerView, Point, GameMessage, MessageView, copy_points, copy_players, player_views,
};
use crate::client::{distinct_ids, removed_id, remove_player, respawned, trail_bounds};
use crate::field::{taken, split_taken, path_bounds};
use crate::rng::{thread_rng, gen_range_u8, random_usize};

verus! {

/// The most players a match takes.
pub const MAX_PLAYERS: usize = 4;

/// Something the caller of a server rule does, in list order.
#[derive(Debug)]
pub enum ServerAction {
    /// Hand the message to every connection (reliable channel).
    Broadcast(GameMessage),
    /// Serialize the message and send it on the datagram socket.
    SendUdp(GameMessage),
    /// Write the message to the connection being set up.
    Reply(GameMessage),
    /// Start the countdown task (see [`GameServer::countdown_step`]).
    StartCountdown,
    /// Start the match timer; when it fires, call [`GameServer::end_game`].
    StartMatchTimer,
    /// Wait two seconds, then end the process.
    Shutdown,
}

/// The mathematical value of a [`ServerAction`].
#[verifier::ext_equal]
pub enum ServerActionView {
    Broadcast(MessageView),
    SendUdp(MessageView),
    Reply(MessageView),
    StartCountdown,
    StartMatchTimer,
    Shutdown,
}

impl View for ServerAction {
    type V = ServerActionView;

    open spec fn view(&self) -> ServerActionView {
        match self {
            ServerAction::Broadcast(m) => ServerActionView::Broadcast(m@),
            ServerAction::SendUdp(m) => ServerActionView::SendUdp(m@),
            ServerAction::Reply(m) => ServerActionView::Reply(m@),
            ServerAction::StartCountdown => ServerActionView::StartCountdown,
            ServerAction::StartMatchTimer => ServerActionView::StartMatchTimer,
            ServerAction::Shutdown => ServerActionView::Shutdown,
        }
    }
}

pub open spec fn server_action_views(actions: Seq<ServerAction>) -> Seq<ServerActionView> {
    actions.map_values(|a: ServerAction| a@)
}

/// The server's game state: the players keyed by id, the next id to hand
/// out, and the flags of the match.
pub struct GameServer {
    pub players: Vec<Player>,
    pub next_player_id: u32,
    pub game_over: bool,
    pub game_started: bool,
    pub countdown_cancel: bool,
}

/// The mathematical value of the server state.
#[verifier::ext_equal]
pub struct ServerView {
    pub players: Seq<PlayerView>,
    pub next_player_id: u32,
    pub game_over: bool,
    pub game_started: bool,
    pub countdown_cancel: bool,
}

impl View for GameServer {
    type V = ServerView;

    open spec fn view(&self) -> ServerView {
        ServerView {
            players: player_views(self.players@),
            next_player_id: self.next_player_id,
            game_over: self.game_over,
            game_started: self.game_started,
            countdown_cancel: self.countdown_cancel,
        }
    }
}

/// The server's invariant: ids are distinct and below the next id, and a
/// match holds at most four players.
pub open spec fn server_wf(s: ServerView) -> bool {
    &&& distinct_ids(s.players)
    &&& forall|i: int| 0 <= i < s.players.len() ==> (#[trigger] s.players[i]).id < s.next_player_id
    &&& s.players.len() <= MAX_PLAYERS
}

/// The list holds a player with the id.
pub open spec fn has_id(s: Seq<PlayerView>, id: u32) -> bool {
    exists|i: int| 0 <= i < s.len() && s[i].id == id
}

/// The position of the player with the id.
pub open spec fn index_of_id(s: Seq<PlayerView>, id: u32) -> int {
    choose|i: int| 0 <= i < s.len() && s[i].id == id
}

/// The start of a player by id: `(x, y, territory)`, x and y in pixels,
/// in the corner given by `id % 4` (1 top left, 2 top right, 3 bottom left,
/// 0 bottom right), the territory a 3 by 3 block of points 10 px apart
/// around the start, column by column.
pub open spec fn start_of(id: u32) -> (int, int, Seq<Point>) {
    let (x0, y0): (int, int) = if id % 4 == 1 {
        (50, 50)
    } else if id % 4 == 2 {
        (750, 50)
    } else if id % 4 == 3 {
        (50, 550)
    } else {
        (750, 550)
    };
    (x0, y0, Seq::new(9, |k: int| ((x0 - 10 + 10 * (k / 3)) as i32, (y0 - 10 + 10 * (k % 3)) as i32)))
}

/// The player a join creates.
pub open spec fn new_player(id: u32, color: (u8, u8, u8)) -> PlayerView {
    PlayerView {
        id,
        x: (start_of(id).0 * 4) as i64,
        y: (start_of(id).1 * 4) as i64,
        color,
        territory: start_of(id).2,
        current_path: Seq::empty(),
        ready: false,
    }
}

/// The server after a join: unchanged when the lobby is full, else with
/// the new player appended under the next id, which moves on by one.
pub open spec fn joined(s: ServerView, color: (u8, u8, u8)) -> ServerView {
    if s.players.len() >= MAX_PLAYERS {
        s
    } else {
        ServerView {
            players: s.players.push(new_player(s.next_player_id, color)),
            next_player_id: (s.next_player_id + 1) as u32,
            ..s
        }
    }
}

/// The text the lobby shows while someone is not ready.
pub open spec fn waiting_text() -> Seq<char> {
    "Waiting for all players to be ready..."@
}

/// Whether the countdown should run: someone is in the lobby and everyone
/// is ready.
pub open spec fn all_ready(players: Seq<PlayerView>) -> bool {
    players.len() > 0 && forall|i: int| 0 <= i < players.len() ==> (#[trigger] players[i]).ready
}

/// The lobby's check after a ready toggle: while not everyone is ready any
/// countdown is cancelled and the lobby is told to wait; once everyone is,
/// the countdown starts, once.
pub open spec fn start_outcome(s: ServerView) -> (ServerView, Seq<ServerActionView>) {
    if !all_ready(s.players) {
        (
            ServerView { countdown_cancel: true, game_started: false, ..s },
            seq![
                ServerActionView::SendUdp(MessageView::GameUpdate(waiting_text())),
                ServerActionView::Broadcast(MessageView::GameUpdate(waiting_text())),
            ],
        )
    } else if !s.game_started {
        (
            ServerView { game_started: true, countdown_cancel: false, ..s },
            seq![ServerActionView::StartCountdown],
        )
    } else {
        (s, Seq::empty())
    }
}

/// Each player's id and territory size, in list order.
pub open spec fn server_standings(players: Seq<PlayerView>) -> Seq<(u32, nat)> {
    players.map_values(|p: PlayerView| (p.id, p.territory.len()))
}

/// The text of one countdown second.
pub open spec fn countdown_text(i: u32) -> Seq<char> {
    "Game starting in "@ + (if i == 1 {
        "1"@
    } else if i == 2 {
        "2"@
    } else if i == 3 {
        "3"@
    } else if i == 4 {
        "4"@
    } else {
        "5"@
    }) + "..."@
}

/// How many times a connection forwards a broadcast message to its client:
/// twice for the end of the match, never the client's own state, once
/// otherwise.
pub open spec fn forward_count(player_id: u32, m: MessageView) -> nat {
    match m {
        MessageView::GameOver { .. } => 2,
        MessageView::PlayerUpdate(p) => if p.id == player_id {
            0
        } else {
            1
        },
        _ => 1,
    }
}

fn waiting_message() -> (m: GameMessage)
    ensures
        m@ == MessageView::GameUpdate(waiting_text()),
{
    GameMessage::GameUpdate(String::from_str("Waiting for all players to be ready..."))
}

fn countdown_message(i: u32) -> (m: GameMessage)
    requires
        1 <= i <= 5,
    ensures
        m@ == MessageView::GameUpdate(countdown_text(i)),
{
    let digit: &str = if i == 1 {
        "1"
    } else if i == 2 {
        "2"
    } else if i == 3 {
        "3"
    } else if i == 4 {
        "4"
    } else {
        "5"
    };
    let mut text: String = String::from_str("Game starting in ");
    text.append(digit);
    text.append("...");
    GameMessage::GameUpdate(text)
}

/// How many copies of a broadcast a connection writes to its client (see
/// [`forward_count`]).
pub fn forward_copies(player_id: u32, msg: &GameMessage) -> (n: usize)
    ensures
        n == forward_count(player_id, msg@),
{
    match msg {
        GameMessage::GameOver { .. } => 2,
        GameMessage::PlayerUpdate(p) => if p.id == player_id {
            0
        } else {
            1
        },
        _ => 1,
    }
}

/// A player's death as the server handles it: the trail is cleared and,
/// when it holds territory, it moves to the middle of the territory cell
/// picked by the random number `r`.
pub open spec fn server_respawned(p: PlayerView, r: usize) -> PlayerView {
    PlayerView { current_path: Seq::empty(), ..respawned(p, r) }
}

/// Another player after the report `u`: it loses the points of `u`'s
/// territory that lie in the bounding box of that territory.
pub open spec fn strip_for(o: PlayerView, u: PlayerView) -> PlayerView {
    PlayerView {
        territory: o.territory.filter(|p: Point| !taken(trail_bounds(u.territory), u.territory, p)),
        ..o
    }
}

/// The players after the report `u` of player `i`.
pub open spec fn update_players(ps: Seq<PlayerView>, i: int, u: PlayerView) -> Seq<PlayerView> {
    Seq::new(ps.len(), |j: int| if j == i { u } else { strip_for(ps[j], u) })
}

/// What the report `u` sends about another player: the points it lost and
/// its remaining territory, when it lost any.
pub open spec fn strip_actions_for(o: PlayerView, u: PlayerView) -> Seq<ServerActionView> {
    if strip_for(o, u).territory.len() != o.territory.len() {
        seq![
            ServerActionView::Broadcast(
                MessageView::TerritoryUpdate {
                    player_id: o.id,
                    removed_points: o.territory.filter(
                        |p: Point| taken(trail_bounds(u.territory), u.territory, p),
                    ),
                    new_territory: strip_for(o, u).territory,
                },
            ),
        ]
    } else {
        Seq::empty()
    }
}

pub open spec fn strip_action_list(ps: Seq<PlayerView>, i: int, u: PlayerView) -> Seq<
    Seq<ServerActionView>,
> {
    Seq::new(ps.len(), |j: int| if j == i { Seq::empty() } else { strip_actions_for(ps[j], u) })
}

pub open spec fn strip_actions(ps: Seq<PlayerView>, i: int, u: PlayerView) -> Seq<ServerActionView> {
    strip_action_list(ps, i, u).flatten()
}

/// How the server answers a datagram message; `r` is the random number of
/// a respawn. Deaths, reports, moves and territory updates are ignored once
/// the match is over, and messages about unknown ids are ignored.
pub open spec fn server_outcome(s: ServerView, m: MessageView, r: usize) -> (
    ServerView,
    Seq<ServerActionView>,
) {
    match m {
        MessageView::GameStarting => (
            ServerView { game_started: true, ..s },
            seq![ServerActionView::StartMatchTimer],
        ),
        MessageView::PlayerDied { id } => if s.game_over || !has_id(s.players, id) {
            (s, Seq::empty())
        } else {
            let i = index_of_id(s.players, id);
            let p2 = server_respawned(s.players[i], r);
            (
                ServerView { players: s.players.update(i, p2), ..s },
                seq![
                    ServerActionView::SendUdp(MessageView::PlayerDied { id }),
                    ServerActionView::SendUdp(MessageView::PlayerUpdate(p2)),
                    ServerActionView::Broadcast(MessageView::PlayerDied { id }),
                    ServerActionView::Broadcast(MessageView::PlayerUpdate(p2)),
                ],
            )
        },
        MessageView::PlayerReady { id } => if !has_id(s.players, id) {
            (s, Seq::empty())
        } else {
            let i = index_of_id(s.players, id);
            let p2 = PlayerView { ready: !s.players[i].ready, ..s.players[i] };
            let s1 = ServerView { players: s.players.update(i, p2), ..s };
            let out = start_outcome(s1);
            (
                out.0,
                seq![
                    ServerActionView::SendUdp(MessageView::PlayerUpdate(p2)),
                    ServerActionView::Broadcast(MessageView::PlayerUpdate(p2)),
                    ServerActionView::Broadcast(MessageView::GameState(s1.players)),
                ] + out.1,
            )
        },
        MessageView::PlayerUpdate(u) => if s.game_over || !has_id(s.players, u.id) {
            (s, Seq::empty())
        } else {
            let i = index_of_id(s.players, u.id);
            let ps2 = update_players(s.players, i, u);
            (
                ServerView { players: ps2, ..s },
                strip_actions(s.players, i, u) + seq![
                    ServerActionView::Broadcast(MessageView::GameState(ps2)),
                    ServerActionView::Broadcast(MessageView::PlayerUpdate(u)),
                ],
            )
        },
        MessageView::Position { id, x, y } => if s.game_over || !has_id(s.players, id) {
            (s, Seq::empty())
        } else {
            let i = index_of_id(s.players, id);
            let p2 = PlayerView { x, y, ..s.players[i] };
            (
                ServerView { players: s.players.update(i, p2), ..s },
                seq![ServerActionView::Broadcast(MessageView::PlayerUpdate(p2))],
            )
        },
        MessageView::TerritoryUpdate { player_id, removed_points, new_territory } => if s.game_over
            || !has_id(s.players, player_id) {
            (s, Seq::empty())
        } else {
            let i = index_of_id(s.players, player_id);
            let p0 = PlayerView { territory: Seq::empty(), ..s.players[i] };
            let p1 = PlayerView { territory: new_territory, ..s.players[i] };
            let ps1 = s.players.update(i, p1);
            (
                ServerView { players: ps1, ..s },
                seq![
                    ServerActionView::Broadcast(MessageView::PlayerUpdate(p0)),
                    ServerActionView::Broadcast(MessageView::GameState(ps1)),
                    ServerActionView::Broadcast(MessageView::PlayerUpdate(p1)),
                ],
            )
        },
        _ => (s, Seq::empty()),
    }
}

/// The position of the player with the id, if any.
fn find_index(players: &Vec<Player>, id: u32) -> (r: Option<usize>)
    requires
        distinct_ids(player_views(players@)),
    ensures
        match r {
            Some(i) => i < players@.len() && has_id(player_views(players@), id) && index_of_id(
                player_views(players@),
                id,
            ) == i,
            None => !has_id(player_views(players@), id),
        },
{
    let ghost v = player_views(players@);
    let mut i: usize = 0;
    while i < players.len()
        invariant
            v == player_views(players@),
            distinct_ids(v),
            i <= players@.len(),
            forall|k: int| 0 <= k < i ==> v[k].id != id,
        decreases players@.len() - i,
    {
        if players[i].id == id {
            proof {
                assert(v[i as int].id == id);
                let k = index_of_id(v, id);
                if k != i {
                    assert(v[k].id != v[i as int].id);
                }
            }
            return Some(i);
        }
        i = i + 1;
    }
    None
}

/// Keeping the length, the ids in place and the next id keeps the
/// server's invariant.
pub proof fn lemma_same_ids_wf(s: ServerView, t: ServerView)
    requires
        server_wf(s),
        t.players.len() == s.players.len(),
        t.next_player_id == s.next_player_id,
        forall|k: int| 0 <= k < s.players.len() ==> (#[trigger] t.players[k]).id == s.players[k].id,
    ensures
        server_wf(t),
{
    assert forall|a: int, b: int|
        0 <= a < t.players.len() && 0 <= b < t.players.len() && a != b implies t.players[a].id
        != t.players[b].id by {
        assert(s.players[a].id != s.players[b].id);
    }
    assert forall|k: int| 0 <= k < t.players.len() implies (#[trigger] t.players[k]).id < t.next_player_id by {
        assert(s.players[k].id < s.next_player_id);
    }
}

impl GameServer {
    pub open spec fn wf(&self) -> bool {
        server_wf(self@)
    }

    /// An empty lobby; the first id handed out is 1.
    pub fn new() -> (s: GameServer)
        ensures
            s.wf(),
            s@ == (ServerView {
                players: Seq::empty(),
                next_player_id: 1,
                game_over: false,
                game_started: false,
                countdown_cancel: false,
            }),
    {
        let s = GameServer {
            players: Vec::new(),
            next_player_id: 1,
            game_over: false,
            game_started: false,
            countdown_cancel: false,
        };
        proof {
            assert(s@ =~~= (ServerView {
                players: Seq::empty(),
                next_player_id: 1,
                game_over: false,
                game_started: false,
                countdown_cancel: false,
            }));
        }
        s
    }

    /// A random color for a new player, each channel in `50..200`.
    pub fn generate_random_color() -> (c: (u8, u8, u8))
        ensures
            50 <= c.0 < 200,
            50 <= c.1 < 200,
            50 <= c.2 < 200,
    {
        let mut rng = thread_rng();
        let r: u8 = gen_range_u8(&mut rng, 50, 200);
        let g: u8 = gen_range_u8(&mut rng, 50, 200);
        let b: u8 = gen_range_u8(&mut rng, 50, 200);
        (r, g, b)
    }


    /// A client connects. A full lobby (four players) is refused with
    /// `LobbyFull`. Otherwise the next id is handed out and the new player
    /// (see [`new_player`]) joins: it gets its own state and the full state,
    /// and everyone hears of the join.
    pub fn join(&mut self, color: (u8, u8, u8)) -> (actions: Vec<ServerAction>)
        requires
            old(self).wf(),
            old(self)@.players.len() < MAX_PLAYERS ==> old(self)@.next_player_id < u32::MAX,
        ensures
            final(self).wf(),
            final(self)@ == joined(old(self)@, color),
            old(self)@.players.len() >= MAX_PLAYERS ==> final(self)@ == old(self)@
                && server_action_views(actions@) == seq![ServerActionView::Reply(MessageView::LobbyFull)],
            old(self)@.players.len() < MAX_PLAYERS ==> ({
                let p = new_player(old(self)@.next_player_id, color);
                &&& final(self)@ == (ServerView {
                    players: old(self)@.players.push(p),
                    next_player_id: (old(self)@.next_player_id + 1) as u32,
                    ..old(self)@
                })
                &&& server_action_views(actions@) == seq![
                    ServerActionView::Reply(MessageView::PlayerUpdate(p)),
                    ServerActionView::Reply(MessageView::GameState(final(self)@.players)),
                    ServerActionView::Broadcast(MessageView::PlayerJoined(p)),
                    ServerActionView::Broadcast(MessageView::PlayerUpdate(p)),
                ]
            }),
    {
        let mut actions: Vec<ServerAction> = Vec::new();
        if self.players.len() >= MAX_PLAYERS {
            actions.push(ServerAction::Reply(GameMessage::LobbyFull));
            proof {
                assert(server_action_views(actions@) =~= seq![ServerActionView::Reply(MessageView::LobbyFull)]);
            }
            return actions;
        }
        let ghost s0 = self@;
        let id: u32 = self.next_player_id;
        self.next_player_id = self.next_player_id + 1;
        let (x0, y0): (i32, i32) = if id % 4 == 1 {
            (50, 50)
        } else if id % 4 == 2 {
            (750, 50)
        } else if id % 4 == 3 {
            (50, 550)
        } else {
            (750, 550)
        };
        let mut territory: Vec<Point> = Vec::new();
        territory.push((x0 - 10, y0 - 10));
        territory.push((x0 - 10, y0));
        territory.push((x0 - 10, y0 + 10));
        territory.push((x0, y0 - 10));
        territory.push((x0, y0));
        territory.push((x0, y0 + 10));
        territory.push((x0 + 10, y0 - 10));
        territory.push((x0 + 10, y0));
        territory.push((x0 + 10, y0 + 10));
        let p = Player {
            id,
            x: x0 as i64 * 4,
            y: y0 as i64 * 4,
            color,
            territory,
            current_path: Vec::new(),
            ready: false,
        };
        proof {
            assert(p@.territory =~= start_of(id).2);
            assert(p@ =~~= new_player(id, color));
        }
        self.players.push(p.duplicate());
        let ghost pv = new_player(id, color);
        proof {
            assert(self@.players =~~= s0.players.push(pv));
            assert forall|a: int, b: int|
                0 <= a < self@.players.len() && 0 <= b < self@.players.len() && a != b implies self@.players[a].id
                != self@.players[b].id by {
                if a < s0.players.len() && b < s0.players.len() {
                    assert(s0.players[a].id != s0.players[b].id);
                } else if a < s0.players.len() {
                    assert(s0.players[a].id < id);
                } else {
                    assert(s0.players[b].id < id);
                }
            }
            assert forall|k: int| 0 <= k < self@.players.len() implies (#[trigger] self@.players[k]).id
                < self@.next_player_id by {
                if k < s0.players.len() {
                    assert(s0.players[k].id < s0.next_player_id);
                }
            }
        }
        actions.push(ServerAction::Reply(GameMessage::PlayerUpdate(p.duplicate())));
        actions.push(ServerAction::Reply(self.state_message()));
        actions.push(ServerAction::Broadcast(GameMessage::PlayerJoined(p.duplicate())));
        actions.push(ServerAction::Broadcast(GameMessage::PlayerUpdate(p)));
        proof {
            assert(self@ =~~= (ServerView {
                players: s0.players.push(pv),
                next_player_id: (s0.next_player_id + 1) as u32,
                ..s0
            }));
            assert(server_action_views(actions@) =~~= seq![
                ServerActionView::Reply(MessageView::PlayerUpdate(pv)),
                ServerActionView::Reply(MessageView::GameState(self@.players)),
                ServerActionView::Broadcast(MessageView::PlayerJoined(pv)),
                ServerActionView::Broadcast(MessageView::PlayerUpdate(pv)),
            ]);
        }
        actions
    }

    /// A client disconnects: its player leaves and everyone hears of it.
    pub fn leave(&mut self, id: u32) -> (actions: Vec<ServerAction>)
        requires
            old(self).wf(),
        ensures
            final(self).wf(),
            final(self)@ == (ServerView { players: removed_id(old(self)@.players, id), ..old(self)@ }),
            server_action_views(actions@) == seq![ServerActionView::Broadcast(MessageView::PlayerLeft { id })],
    {
        let ghost s0 = self@;
        remove_player(&mut self.players, id);
        proof {
            let t = removed_id(s0.players, id);
            assert forall|k: int| 0 <= k < t.len() implies (#[trigger] t[k]).id < s0.next_player_id by {
                assert(t.contains(t[k]));
                s0.players.lemma_filter_contains_rev(|o: PlayerView| o.id != id, t[k]);
                let j = choose|j: int| 0 <= j < s0.players.len() && s0.players[j] == t[k];
                assert(s0.players[j].id < s0.next_player_id);
            }
            assert(t.len() <= s0.players.len()) by {
                s0.players.lemma_filter_len(|o: PlayerView| o.id != id);
            }
            assert(self@ =~~= (ServerView { players: t, ..s0 }));
        }
        let mut actions: Vec<ServerAction> = Vec::new();
        actions.push(ServerAction::Broadcast(GameMessage::PlayerLeft { id }));
        proof {
            assert(server_action_views(actions@) =~= seq![ServerActionView::Broadcast(MessageView::PlayerLeft { id })]);
        }
        actions
    }

    /// Whether everyone is ready (see [`start_outcome`]).
    pub fn check_game_start(&mut self) -> (actions: Vec<ServerAction>)
        ensures
            final(self)@ == start_outcome(old(self)@).0,
            server_action_views(actions@) == start_outcome(old(self)@).1,
    {
        let mut ready_count: usize = 0;
        let mut i: usize = 0;
        while i < self.players.len()
            invariant
                i <= self.players@.len(),
                ready_count <= i,
                ready_count == i <==> forall|k: int| 0 <= k < i ==> (#[trigger] self.players@[k]).ready,
            decreases self.players@.len() - i,
        {
            if self.players[i].ready {
                ready_count = ready_count + 1;
            } else {
                assert(!self.players@[i as int].ready);
            }
            i = i + 1;
        }
        let should_start: bool = ready_count > 0 && ready_count == self.players.len();
        proof {
            assert(should_start == all_ready(self@.players)) by {
                if all_ready(self@.players) {
                    assert(forall|k: int| 0 <= k < i ==> (#[trigger] self.players@[k]).ready) by {
                        assert forall|k: int| 0 <= k < i implies (#[trigger] self.players@[k]).ready by {
                            assert(self@.players[k].ready);
                        }
                    }
                }
                if should_start {
                    assert forall|k: int| 0 <= k < self@.players.len() implies (#[trigger] self@.players[k]).ready by {
                        assert(self.players@[k].ready);
                    }
                }
            }
        }
        let mut actions: Vec<ServerAction> = Vec::new();
        if !should_start {
            self.countdown_cancel = true;
            self.game_started = false;
            actions.push(ServerAction::SendUdp(waiting_message()));
            actions.push(ServerAction::Broadcast(waiting_message()));
        } else if !self.game_started {
            self.game_started = true;
            self.countdown_cancel = false;
            actions.push(ServerAction::StartCountdown);
        }
        proof {
            assert(self@ =~~= start_outcome(old(self)@).0);
            assert(server_action_views(actions@) =~~= start_outcome(old(self)@).1);
        }
        actions
    }

    /// One second of the countdown, for `i` from 5 down to 1: a cancelled
    /// countdown tells the lobby to wait and stops (`false`); otherwise the
    /// second is announced on both channels and the countdown goes on.
    pub fn countdown_step(&self, i: u32) -> (r: (Vec<ServerAction>, bool))
        requires
            1 <= i <= 5,
        ensures
            r.1 == !self.countdown_cancel,
            server_action_views(r.0@) == (if self.countdown_cancel {
                seq![
                    ServerActionView::SendUdp(MessageView::GameUpdate(waiting_text())),
                    ServerActionView::Broadcast(MessageView::GameUpdate(waiting_text())),
                ]
            } else {
                seq![
                    ServerActionView::SendUdp(MessageView::GameUpdate(countdown_text(i))),
                    ServerActionView::Broadcast(MessageView::GameUpdate(countdown_text(i))),
                ]
            }),
    {
        let mut actions: Vec<ServerAction> = Vec::new();
        if self.countdown_cancel {
            actions.push(ServerAction::SendUdp(waiting_message()));
            actions.push(ServerAction::Broadcast(waiting_message()));
        } else {
            actions.push(ServerAction::SendUdp(countdown_message(i)));
            actions.push(ServerAction::Broadcast(countdown_message(i)));
        }
        proof {
            assert(server_action_views(actions@) =~~= (if self.countdown_cancel {
                seq![
                    ServerActionView::SendUdp(MessageView::GameUpdate(waiting_text())),
                    ServerActionView::Broadcast(MessageView::GameUpdate(waiting_text())),
                ]
            } else {
                seq![
                    ServerActionView::SendUdp(MessageView::GameUpdate(countdown_text(i))),
                    ServerActionView::Broadcast(MessageView::GameUpdate(countdown_text(i))),
                ]
            }));
        }
        (actions, !self.countdown_cancel)
    }

    /// The end of a countdown that ran through: the match starts on both
    /// channels, unless it was cancelled meanwhile.
    pub fn countdown_finish(&self) -> (actions: Vec<ServerAction>)
        ensures
            server_action_views(actions@) == (if self.countdown_cancel {
                Seq::empty()
            } else {
                seq![
                    ServerActionView::SendUdp(MessageView::GameStarting),
                    ServerActionView::Broadcast(MessageView::GameStarting),
                ]
            }),
    {
        let mut actions: Vec<ServerAction> = Vec::new();
        if !self.countdown_cancel {
            actions.push(ServerAction::SendUdp(GameMessage::GameStarting));
            actions.push(ServerAction::Broadcast(GameMessage::GameStarting));
        }
        proof {
            assert(server_action_views(actions@) =~~= (if self.countdown_cancel {
                Seq::empty()
            } else {
                seq![
                    ServerActionView::SendUdp(MessageView::GameStarting),
                    ServerActionView::Broadcast(MessageView::GameStarting),
                ]
            }));
        }
        actions
    }

    /// The match timer fired: the match is over, the first player with the
    /// largest territory wins (player 0 with size 0 when no one holds
    /// territory), everyone hears of it, and the server shuts down.
    pub fn end_game(&mut self) -> (actions: Vec<ServerAction>)
        ensures
            final(self)@ == (ServerView { game_over: true, ..old(self)@ }),
            exists|w: u32, size: usize|
                #[trigger] crate::client::is_match_winner(server_standings(old(self)@.players), w, size as nat)
                    && server_action_views(actions@) == seq![
                    ServerActionView::Broadcast(MessageView::GameOver { winner_id: w, territory_size: size }),
                    ServerActionView::Shutdown,
                ],
    {
        self.game_over = true;
        let ghost st = server_standings(self@.players);
        let mut max_territory: usize = 0;
        let mut winner_id: u32 = 0;
        let mut i: usize = 0;
        proof {
            assert(crate::client::is_match_winner(st.take(0), 0, 0));
        }
        while i < self.players.len()
            invariant
                st == server_standings(self@.players),
                i <= self.players@.len(),
                crate::client::is_match_winner(st.take(i as int), winner_id, max_territory as nat),
            decreases self.players@.len() - i,
        {
            proof {
                crate::client::lemma_match_winner_step(st.take(i as int), winner_id, max_territory as nat, st[i as int]);
                assert(st.take(i as int).push(st[i as int]) =~= st.take(i as int + 1));
            }
            let size: usize = self.players[i].territory.len();
            if size > max_territory {
                max_territory = size;
                winner_id = self.players[i].id;
            }
            i = i + 1;
        }
        proof {
            assert(st.take(i as int) =~= st);
        }
        let mut actions: Vec<ServerAction> = Vec::new();
        actions.push(ServerAction::Broadcast(GameMessage::GameOver { winner_id, territory_size: max_territory }));
        actions.push(ServerAction::Shutdown);
        proof {
            assert(server_action_views(actions@) =~= seq![
                ServerActionView::Broadcast(MessageView::GameOver { winner_id, territory_size: max_territory }),
                ServerActionView::Shutdown,
            ]);
        }
        actions
    }


    /// A datagram message from a client (see [`server_outcome`]); a death
    /// draws a random number for the respawn.
    pub fn handle_message(&mut self, msg: GameMessage) -> (actions: Vec<ServerAction>)
        requires
            old(self).wf(),
        ensures
            final(self).wf(),
            exists|r: usize|
                final(self)@ == (#[trigger] server_outcome(old(self)@, msg@, r)).0
                    && server_action_views(actions@) == server_outcome(old(self)@, msg@, r).1,
    {
        let ghost s0 = self@;
        let ghost mv = msg@;
        match msg {
            GameMessage::GameStarting => {
                self.game_started = true;
                let mut actions: Vec<ServerAction> = Vec::new();
                actions.push(ServerAction::StartMatchTimer);
                proof {
                    assert(self@ =~~= server_outcome(s0, mv, 0).0);
                    assert(server_action_views(actions@) =~~= server_outcome(s0, mv, 0).1);
                }
                actions
            },
            GameMessage::PlayerDied { id } => {
                let a: Vec<ServerAction> = self.on_player_died(id);
                proof {
                    assert(mv == MessageView::PlayerDied { id });
                    let r = choose|r: usize|
                        self@ == (#[trigger] server_outcome(s0, MessageView::PlayerDied { id }, r)).0
                            && server_action_views(a@) == server_outcome(s0, MessageView::PlayerDied { id }, r).1;
                    assert(self@ == server_outcome(s0, mv, r).0);
                }
                a
            },
            GameMessage::PlayerReady { id } => {
                let a: Vec<ServerAction> = self.on_player_ready(id);
                proof {
                    assert(self@ == server_outcome(s0, mv, 0).0);
                }
                a
            },
            GameMessage::PlayerUpdate(u) => {
                let a: Vec<ServerAction> = self.on_player_update(u);
                proof {
                    assert(self@ == server_outcome(s0, mv, 0).0);
                }
                a
            },
            GameMessage::Position { id, x, y } => {
                let a: Vec<ServerAction> = self.on_position(id, x, y);
                proof {
                    assert(mv == MessageView::Position { id, x, y });
                    let r = choose|r: usize|
                        self@ == (#[trigger] server_outcome(s0, MessageView::Position { id, x, y }, r)).0
                            && server_action_views(a@) == server_outcome(s0, MessageView::Position { id, x, y }, r).1;
                    assert(self@ == server_outcome(s0, mv, r).0);
                }
                a
            },
            GameMessage::TerritoryUpdate { player_id, removed_points, new_territory } => {
                let ghost rp = removed_points@;
                let ghost nt = new_territory@;
                let a: Vec<ServerAction> = self.on_territory_update(player_id, new_territory);
                proof {
                    assert(mv == MessageView::TerritoryUpdate { player_id, removed_points: rp, new_territory: nt });
                    assert(self@ == server_outcome(s0, mv, 0).0);
                }
                a
            },
            _ => {
                let actions: Vec<ServerAction> = Vec::new();
                proof {
                    assert(server_action_views(actions@) =~~= server_outcome(s0, mv, 0).1);
                }
                actions
            },
        }
    }

    fn on_player_died(&mut self, id: u32) -> (actions: Vec<ServerAction>)
        requires
            old(self).wf(),
        ensures
            final(self).wf(),
            exists|r: usize|
                final(self)@ == (#[trigger] server_outcome(old(self)@, MessageView::PlayerDied { id }, r)).0
                    && server_action_views(actions@) == server_outcome(
                    old(self)@,
                    MessageView::PlayerDied { id },
                    r,
                ).1,
    {
        let mut r: usize = 0;
        if !self.game_over {
            match find_index(&self.players, id) {
                Some(i) => {
                    if self.players[i].territory.len() > 0 {
                        r = random_usize();
                    }
                },
                None => {},
            }
        }
        self.respawn_player(id, r)
    }

    /// A death report handled with the random number `r` (see
    /// [`server_outcome`]): the player's trail is cleared and, when it holds
    /// territory, it moves to the middle of territory cell `r % len`; the
    /// death and the new state go out on both channels. Ignored once the
    /// match is over or for an unknown id.
    pub fn respawn_player(&mut self, id: u32, r: usize) -> (actions: Vec<ServerAction>)
        requires
            old(self).wf(),
        ensures
            final(self).wf(),
            final(self)@ == server_outcome(old(self)@, MessageView::PlayerDied { id }, r).0,
            server_action_views(actions@) == server_outcome(old(self)@, MessageView::PlayerDied { id }, r).1,
    {
        let ghost s0 = self@;
        let ghost mv = MessageView::PlayerDied { id };
        let mut actions: Vec<ServerAction> = Vec::new();
        if self.game_over {
            proof {
                assert(server_action_views(actions@) =~~= server_outcome(s0, mv, r).1);
            }
            return actions;
        }
        match find_index(&self.players, id) {
            None => {
                proof {
                    assert(server_action_views(actions@) =~~= server_outcome(s0, mv, r).1);
                }
                actions
            },
            Some(i) => {
                let mut p: Player = self.players[i].duplicate();
                p.current_path = Vec::new();
                let n: usize = p.territory.len();
                if n > 0 {
                    let c: Point = p.territory[r % n];
                    p.x = (c.0 as i64 + 10) * 4;
                    p.y = (c.1 as i64 + 10) * 4;
                }
                proof {
                    assert(p@ =~~= server_respawned(s0.players[i as int], r));
                }
                actions.push(ServerAction::SendUdp(GameMessage::PlayerDied { id }));
                actions.push(ServerAction::SendUdp(GameMessage::PlayerUpdate(p.duplicate())));
                actions.push(ServerAction::Broadcast(GameMessage::PlayerDied { id }));
                actions.push(ServerAction::Broadcast(GameMessage::PlayerUpdate(p.duplicate())));
                self.players.set(i, p);
                proof {
                    assert(self@ =~~= server_outcome(s0, mv, r).0);
                    assert(server_action_views(actions@) =~~= server_outcome(s0, mv, r).1);
                    lemma_same_ids_wf(s0, self@);
                }
                actions
            },
        }
    }

    fn on_player_ready(&mut self, id: u32) -> (actions: Vec<ServerAction>)
        requires
            old(self).wf(),
        ensures
            final(self).wf(),
            final(self)@ == server_outcome(old(self)@, MessageView::PlayerReady { id }, 0).0,
            server_action_views(actions@) == server_outcome(
                old(self)@,
                MessageView::PlayerReady { id },
                0,
            ).1,
    {
        let ghost s0 = self@;
        let ghost mv = MessageView::PlayerReady { id };
        match find_index(&self.players, id) {
            None => {
                let actions: Vec<ServerAction> = Vec::new();
                proof {
                    assert(server_action_views(actions@) =~~= server_outcome(s0, mv, 0).1);
                }
                actions
            },
            Some(i) => {
                let mut p: Player = self.players[i].duplicate();
                p.ready = !p.ready;
                let mut actions: Vec<ServerAction> = Vec::new();
                actions.push(ServerAction::SendUdp(GameMessage::PlayerUpdate(p.duplicate())));
                actions.push(ServerAction::Broadcast(GameMessage::PlayerUpdate(p.duplicate())));
                self.players.set(i, p);
                let ghost s1 = self@;
                proof {
                    lemma_same_ids_wf(s0, s1);
                }
                actions.push(ServerAction::Broadcast(self.state_message()));
                let ghost before = server_action_views(actions@);
                let mut more: Vec<ServerAction> = self.check_game_start();
                let ghost mv2 = server_action_views(more@);
                actions.append(&mut more);
                proof {
                    assert(server_action_views(actions@) =~~= before + mv2);
                    assert(s1 =~~= (ServerView {
                        players: s0.players.update(i as int, PlayerView { ready: !s0.players[i as int].ready, ..s0.players[i as int] }),
                        ..s0
                    }));
                    assert(self@ =~~= server_outcome(s0, mv, 0).0);
                    assert(server_action_views(actions@) =~~= server_outcome(s0, mv, 0).1);
                    lemma_same_ids_wf(s0, self@);
                }
                actions
            },
        }
    }


    fn on_player_update(&mut self, u: Player) -> (actions: Vec<ServerAction>)
        requires
            old(self).wf(),
        ensures
            final(self).wf(),
            final(self)@ == server_outcome(old(self)@, MessageView::PlayerUpdate(u@), 0).0,
            server_action_views(actions@) == server_outcome(
                old(self)@,
                MessageView::PlayerUpdate(u@),
                0,
            ).1,
    {
        let ghost s0 = self@;
        let ghost mv = MessageView::PlayerUpdate(u@);
        let mut actions: Vec<ServerAction> = Vec::new();
        if self.game_over {
            proof {
                assert(server_action_views(actions@) =~~= server_outcome(s0, mv, 0).1);
            }
            return actions;
        }
        let found: Option<usize> = find_index(&self.players, u.id);
        if found.is_none() {
            proof {
                assert(server_action_views(actions@) =~~= server_outcome(s0, mv, 0).1);
            }
            return actions;
        }
        let i: usize = found.unwrap();
        let (min_x, max_x, min_y, max_y): (i32, i32, i32, i32) = if u.territory.len() == 0 {
            (0, 0, 0, 0)
        } else {
            path_bounds(&u.territory)
        };
        let ghost bb = (min_x as int, max_x as int, min_y as int, max_y as int);
        assert(bb == trail_bounds(u@.territory));
        let ghost ps = s0.players;
        let ghost want = update_players(ps, i as int, u@);
        let ghost per = Seq::new(
            ps.len(),
            |j: int| if j == i as int { Seq::<ServerActionView>::empty() } else { strip_actions_for(ps[j], u@) },
        );
        let mut next: Vec<Player> = Vec::new();
        let mut j: usize = 0;
        proof {
            assert(per.take(0).flatten() =~= Seq::<ServerActionView>::empty());
        }
        while j < self.players.len()
            invariant
                ps == player_views(self.players@),
                want == update_players(ps, i as int, u@),
                per == Seq::new(
                    ps.len(),
                    |j: int| if j == i as int { Seq::<ServerActionView>::empty() } else { strip_actions_for(ps[j], u@) },
                ),
                bb == trail_bounds(u@.territory),
                bb == (min_x as int, max_x as int, min_y as int, max_y as int),
                i < ps.len(),
                j <= ps.len(),
                next@.len() == j,
                forall|k: int| 0 <= k < j ==> (#[trigger] next@[k])@ == want[k],
                server_action_views(actions@) == per.take(j as int).flatten(),
            decreases ps.len() - j,
        {
            let ghost before = server_action_views(actions@);
            assert(ps[j as int] == self.players@[j as int]@);
            if j == i {
                next.push(u.duplicate());
                proof {
                    assert(server_action_views(actions@) =~~= before + per[j as int]);
                }
            } else {
                let (kept, removed): (Vec<Point>, Vec<Point>) = split_taken(
                    &self.players[j].territory,
                    min_x,
                    max_x,
                    min_y,
                    max_y,
                    &u.territory,
                );
                if kept.len() != self.players[j].territory.len() {
                    actions.push(
                        ServerAction::Broadcast(
                            GameMessage::TerritoryUpdate {
                                player_id: self.players[j].id,
                                removed_points: removed,
                                new_territory: copy_points(&kept),
                            },
                        ),
                    );
                }
                let o2: Player = self.players[j].with_territory(kept);
                proof {
                    assert((|p: Point| !taken(bb, u@.territory, p)) =~= (|p: Point|
                        !taken(trail_bounds(u@.territory), u@.territory, p)));
                    assert((|p: Point| taken(bb, u@.territory, p)) =~= (|p: Point|
                        taken(trail_bounds(u@.territory), u@.territory, p)));
                    assert(o2@ =~~= strip_for(ps[j as int], u@));
                    assert(server_action_views(actions@) =~~= before + per[j as int]);
                }
                next.push(o2);
            }
            proof {
                assert(per.take(j as int + 1) =~= per.take(j as int).push(per[j as int]));
                per.take(j as int).lemma_flatten_push(per[j as int]);
            }
            j = j + 1;
        }
        proof {
            assert(per.take(j as int) =~= per);
            assert(player_views(next@) =~~= want);
        }
        self.players = next;
        proof {
            lemma_same_ids_wf(s0, self@);
        }
        let ghost mid = server_action_views(actions@);
        actions.push(ServerAction::Broadcast(self.state_message()));
        actions.push(ServerAction::Broadcast(GameMessage::PlayerUpdate(u)));
        proof {
            assert(mid == per.flatten());
            assert(per =~= strip_action_list(ps, i as int, u@));
            assert(mid == strip_actions(ps, i as int, u@));
            assert(server_action_views(actions@) =~~= mid + seq![
                ServerActionView::Broadcast(MessageView::GameState(self@.players)),
                ServerActionView::Broadcast(MessageView::PlayerUpdate(u@)),
            ]);
            assert(self@ =~~= server_outcome(s0, mv, 0).0);
            assert(server_action_views(actions@) =~~= server_outcome(s0, mv, 0).1);
        }
        actions
    }

    fn on_position(&mut self, id: u32, x: i64, y: i64) -> (actions: Vec<ServerAction>)
        requires
            old(self).wf(),
        ensures
            final(self).wf(),
            exists|r: usize|
                final(self)@ == (#[trigger] server_outcome(old(self)@, MessageView::Position { id, x, y }, r)).0
                    && server_action_views(actions@) == server_outcome(
                    old(self)@,
                    MessageView::Position { id, x, y },
                    r,
                ).1,
    {
        let ghost s0 = self@;
        let ghost mv = MessageView::Position { id, x, y };
        let mut actions: Vec<ServerAction> = Vec::new();
        if self.game_over {
            proof {
                assert(server_action_views(actions@) =~~= server_outcome(s0, mv, 0).1);
            }
            return actions;
        }
        match find_index(&self.players, id) {
            None => {
                proof {
                    assert(server_action_views(actions@) =~~= server_outcome(s0, mv, 0).1);
                }
            },
            Some(i) => {
                let mut p: Player = self.players[i].duplicate();
                p.x = x;
                p.y = y;
                actions.push(ServerAction::Broadcast(GameMessage::PlayerUpdate(p.duplicate())));
                self.players.set(i, p);
                proof {
                    assert(self@ =~~= server_outcome(s0, mv, 0).0);
                    assert(server_action_views(actions@) =~~= server_outcome(s0, mv, 0).1);
                    lemma_same_ids_wf(s0, self@);
                }
            },
        }
        actions
    }

    fn on_territory_update(&mut self, player_id: u32, new_territory: Vec<Point>) -> (actions: Vec<
        ServerAction,
    >)
        requires
            old(self).wf(),
        ensures
            final(self).wf(),
            forall|removed: Seq<Point>|
                final(self)@ == (#[trigger] server_outcome(
                    old(self)@,
                    MessageView::TerritoryUpdate {
                        player_id,
                        removed_points: removed,
                        new_territory: new_territory@,
                    },
                    0,
                )).0 && server_action_views(actions@) == server_outcome(
                    old(self)@,
                    MessageView::TerritoryUpdate {
                        player_id,
                        removed_points: removed,
                        new_territory: new_territory@,
                    },
                    0,
                ).1,
    {
        let ghost s0 = self@;
        let mut actions: Vec<ServerAction> = Vec::new();
        if self.game_over {
            proof {
                assert(server_action_views(actions@) =~~= Seq::<ServerActionView>::empty());
            }
            return actions;
        }
        match find_index(&self.players, player_id) {
            None => {
                proof {
                    assert(server_action_views(actions@) =~~= Seq::<ServerActionView>::empty());
                }
            },
            Some(i) => {
                let ghost nt = new_territory@;
                let mut p: Player = self.players[i].duplicate();
                p.territory = Vec::new();
                actions.push(ServerAction::Broadcast(GameMessage::PlayerUpdate(p.duplicate())));
                let ghost p0 = p@;
                p.territory = new_territory;
                let ghost p1 = p@;
                let upd = p.duplicate();
                self.players.set(i, p);
                actions.push(ServerAction::Broadcast(self.state_message()));
                actions.push(ServerAction::Broadcast(GameMessage::PlayerUpdate(upd)));
                proof {
                    assert(p0 =~~= PlayerView { territory: Seq::empty(), ..s0.players[i as int] });
                    assert(p1 =~~= PlayerView { territory: nt, ..s0.players[i as int] });
                    assert(self@.players =~~= s0.players.update(i as int, p1));
                    assert(server_action_views(actions@) =~~= seq![
                        ServerActionView::Broadcast(MessageView::PlayerUpdate(p0)),
                        ServerActionView::Broadcast(MessageView::GameState(self@.players)),
                        ServerActionView::Broadcast(MessageView::PlayerUpdate(p1)),
                    ]);
                    lemma_same_ids_wf(s0, self@);
                }
            },
        }
        actions
    }

    /// The full state broadcast sent on a timer.
    pub fn state_message(&self) -> (m: GameMessage)
        ensures
            m@ == MessageView::GameState(self@.players),
    {
        let ps: Vec<Player> = copy_players(&self.players);
        proof {
            assert(player_views(ps@) =~~= self@.players);
        }
        GameMessage::GameState(ps)
    }
}

} // verus!
