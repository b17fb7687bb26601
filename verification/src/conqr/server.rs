//! The conqr.io server rules: joining and leaving, and the players'
//! reports.
use vstd::prelude::*;
use crate::shared::Point;
use crate::conqr::shared::{
    Player, PlayerView, GameMessage, MessageView, player_views, copy_players, distinct_ids,
    removed_id, remove_player,
};
use crate::server::start_of;
use crate::rng::{thread_rng, gen_range_u8};

verus! {

/// Something the caller of a server rule does, in list order.
#[derive(Debug)]
pub enum ServerAction {
    /// Hand the message to every connection.
    Broadcast(GameMessage),
    /// Write the message to the connection being set up.
    Reply(GameMessage),
}

/// The mathematical value of a [`ServerAction`].
#[verifier::ext_equal]
pub enum ServerActionView {
    Broadcast(MessageView),
    Reply(MessageView),
}

impl View for ServerAction {
    type V = ServerActionView;

    open spec fn view(&self) -> ServerActionView {
        match self {
            ServerAction::Broadcast(m) => ServerActionView::Broadcast(m@),
            ServerAction::Reply(m) => ServerActionView::Reply(m@),
        }
    }
}

pub open spec fn server_action_views(actions: Seq<ServerAction>) -> Seq<ServerActionView> {
    actions.map_values(|a: ServerAction| a@)
}

/// The server state: the players keyed by id and the next id to hand out.
pub struct GameServer {
    pub players: Vec<Player>,
    pub next_player_id: u32,
}

/// The mathematical value of the server state.
#[verifier::ext_equal]
pub struct ServerView {
    pub players: Seq<PlayerView>,
    pub next_player_id: u32,
}

impl View for GameServer {
    type V = ServerView;

    open spec fn view(&self) -> ServerView {
        ServerView { players: player_views(self.players@), next_player_id: self.next_player_id }
    }
}

/// Ids are distinct and below the next id.
pub open spec fn server_wf(s: ServerView) -> bool {
    &&& distinct_ids(s.players)
    &&& forall|i: int| 0 <= i < s.players.len() ==> (#[trigger] s.players[i]).id < s.next_player_id
}

/// The player a join creates: the same corners and start blocks as in
/// the lobby game (see [`start_of`]).
pub open spec fn new_player(id: u32, color: (u8, u8, u8)) -> PlayerView {
    PlayerView {
        id,
        x: (start_of(id).0 * 4) as i64,
        y: (start_of(id).1 * 4) as i64,
        color,
        territory: start_of(id).2,
        current_path: Seq::empty(),
    }
}

/// How many copies of a broadcast a connection writes: none of its own
/// client's state, one of anything else.
pub open spec fn forward_count(player_id: u32, m: MessageView) -> nat {
    match m {
        MessageView::PlayerUpdate(p) => if p.id == player_id {
            0
        } else {
            1
        },
        _ => 1,
    }
}

/// How many copies of a broadcast a connection writes to its client.
pub fn forward_copies(player_id: u32, msg: &GameMessage) -> (n: usize)
    ensures
        n == forward_count(player_id, msg@),
{
    match msg {
        GameMessage::PlayerUpdate(p) => if p.id == player_id {
            0
        } else {
            1
        },
        _ => 1,
    }
}

/// The ids of the lists are position by position the same.
proof fn lemma_same_ids(s: ServerView, t: ServerView)
    requires
        server_wf(s),
        t.players.len() == s.players.len(),
        t.next_player_id == s.next_player_id,
        forall|k: int| 0 <= k < s.players.len() ==> (#[trigger] t.players[k]).id == s.players[k].id,
    ensures
        server_wf(t),
{
    assert forall|a: int, b: int|
        0 <= a < t.players.len() && 0 <= b < t.players.len() && a != b implies t.players[a].id
        != t.players[b].id by {
        assert(s.players[a].id != s.players[b].id);
    }
    assert forall|k: int| 0 <= k < t.players.len() implies (#[trigger] t.players[k]).id < t.next_player_id by {
        assert(s.players[k].id < s.next_player_id);
    }
}

/// How the server answers a datagram message: a report replaces the
/// sender's state, a move its position; either is broadcast. Messages about
/// unknown ids, and other messages, are ignored.
pub open spec fn server_outcome(s: ServerView, m: MessageView) -> (ServerView, Seq<ServerActionView>) {
    match m {
        MessageView::PlayerUpdate(u) => if has_id_v(s.players, u.id) {
            let i = index_of_id_v(s.players, u.id);
            (
                ServerView { players: s.players.update(i, u), ..s },
                seq![ServerActionView::Broadcast(MessageView::PlayerUpdate(u))],
            )
        } else {
            (s, Seq::empty())
        },
        MessageView::Position { id, x, y } => if has_id_v(s.players, id) {
            let i = index_of_id_v(s.players, id);
            let p2 = PlayerView { x, y, ..s.players[i] };
            (
                ServerView { players: s.players.update(i, p2), ..s },
                seq![ServerActionView::Broadcast(MessageView::PlayerUpdate(p2))],
            )
        } else {
            (s, Seq::empty())
        },
        _ => (s, Seq::empty()),
    }
}

pub open spec fn has_id_v(s: Seq<PlayerView>, id: u32) -> bool {
    exists|i: int| 0 <= i < s.len() && s[i].id == id
}

pub open spec fn index_of_id_v(s: Seq<PlayerView>, id: u32) -> int {
    choose|i: int| 0 <= i < s.len() && s[i].id == id
}

fn find_index(players: &Vec<Player>, id: u32) -> (r: Option<usize>)
    requires
        distinct_ids(player_views(players@)),
    ensures
        match r {
            Some(i) => i < players@.len() && has_id_v(player_views(players@), id) && index_of_id_v(
                player_views(players@),
                id,
            ) == i,
            None => !has_id_v(player_views(players@), id),
        },
{
    let ghost v = player_views(players@);
    let mut i: usize = 0;
    while i < players.len()
        invariant
            v == player_views(players@),
            distinct_ids(v),
            i <= players@.len(),
            forall|k: int| 0 <= k < i ==> v[k].id != id,
        decreases players@.len() - i,
    {
        if players[i].id == id {
            proof {
                assert(v[i as int].id == id);
                let k = index_of_id_v(v, id);
                if k != i {
                    assert(v[k].id != v[i as int].id);
                }
            }
            return Some(i);
        }
        i = i + 1;
    }
    None
}

impl GameServer {
    pub open spec fn wf(&self) -> bool {
        server_wf(self@)
    }

    /// No players yet; the first id handed out is 1.
    pub fn new() -> (s: GameServer)
        ensures
            s.wf(),
            s@ == (ServerView { players: Seq::empty(), next_player_id: 1 }),
    {
        let s = GameServer { players: Vec::new(), next_player_id: 1 };
        proof {
            assert(s@ =~~= (ServerView { players: Seq::empty(), next_player_id: 1 }));
        }
        s
    }

    /// A random color for a new player, each channel in `50..200`.
    pub fn generate_random_color() -> (c: (u8, u8, u8))
        ensures
            50 <= c.0 < 200,
            50 <= c.1 < 200,
            50 <= c.2 < 200,
    {
        let mut rng = thread_rng();
        let r: u8 = gen_range_u8(&mut rng, 50, 200);
        let g: u8 = gen_range_u8(&mut rng, 50, 200);
        let b: u8 = gen_range_u8(&mut rng, 50, 200);
        (r, g, b)
    }

    /// A client connects: it gets the next id and its own state, joins the
    /// players, gets the full state, and everyone hears of it.
    pub fn join(&mut self, color: (u8, u8, u8)) -> (actions: Vec<ServerAction>)
        requires
            old(self).wf(),
            old(self)@.next_player_id < u32::MAX,
        ensures
            final(self).wf(),
            final(self)@ == (ServerView {
                players: old(self)@.players.push(new_player(old(self)@.next_player_id, color)),
                next_player_id: (old(self)@.next_player_id + 1) as u32,
            }),
            server_action_views(actions@) == seq![
                ServerActionView::Reply(
                    MessageView::PlayerUpdate(new_player(old(self)@.next_player_id, color)),
                ),
                ServerActionView::Reply(MessageView::GameState(final(self)@.players)),
                ServerActionView::Broadcast(
                    MessageView::PlayerUpdate(new_player(old(self)@.next_player_id, color)),
                ),
            ],
    {
        let ghost s0 = self@;
        let id: u32 = self.next_player_id;
        self.next_player_id = self.next_player_id + 1;
        let (x0, y0): (i32, i32) = if id % 4 == 1 {
            (50, 50)
        } else if id % 4 == 2 {
            (750, 50)
        } else if id % 4 == 3 {
            (50, 550)
        } else {
            (750, 550)
        };
        let mut territory: Vec<Point> = Vec::new();
        territory.push((x0 - 10, y0 - 10));
        territory.push((x0 - 10, y0));
        territory.push((x0 - 10, y0 + 10));
        territory.push((x0, y0 - 10));
        territory.push((x0, y0));
        territory.push((x0, y0 + 10));
        territory.push((x0 + 10, y0 - 10));
        territory.push((x0 + 10, y0));
        territory.push((x0 + 10, y0 + 10));
        let p = Player { id, x: x0 as i64 * 4, y: y0 as i64 * 4, color, territory, current_path: Vec::new() };
        let ghost pv = new_player(id, color);
        proof {
            assert(p@.territory =~= start_of(id).2);
            assert(p@ =~~= pv);
        }
        let mut actions: Vec<ServerAction> = Vec::new();
        actions.push(ServerAction::Reply(GameMessage::PlayerUpdate(p.duplicate())));
        self.players.push(p.duplicate());
        proof {
            assert(self@.players =~~= s0.players.push(pv));
            assert forall|a: int, b: int|
                0 <= a < self@.players.len() && 0 <= b < self@.players.len() && a != b implies self@.players[a].id
                != self@.players[b].id by {
                if a < s0.players.len() && b < s0.players.len() {
                    assert(s0.players[a].id != s0.players[b].id);
                } else if a < s0.players.len() {
                    assert(s0.players[a].id < id);
                } else {
                    assert(s0.players[b].id < id);
                }
            }
            assert forall|k: int| 0 <= k < self@.players.len() implies (#[trigger] self@.players[k]).id
                < self@.next_player_id by {
                if k < s0.players.len() {
                    assert(s0.players[k].id < s0.next_player_id);
                }
            }
        }
        let all: Vec<Player> = copy_players(&self.players);
        actions.push(ServerAction::Reply(GameMessage::GameState(all)));
        actions.push(ServerAction::Broadcast(GameMessage::PlayerUpdate(p)));
        proof {
            assert(self@ =~~= (ServerView {
                players: s0.players.push(pv),
                next_player_id: (s0.next_player_id + 1) as u32,
            }));
            assert(server_action_views(actions@) =~~= seq![
                ServerActionView::Reply(MessageView::PlayerUpdate(pv)),
                ServerActionView::Reply(MessageView::GameState(self@.players)),
                ServerActionView::Broadcast(MessageView::PlayerUpdate(pv)),
            ]);
        }
        actions
    }

    /// A client disconnects: its player leaves and everyone hears of it.
    pub fn leave(&mut self, id: u32) -> (actions: Vec<ServerAction>)
        requires
            old(self).wf(),
        ensures
            final(self).wf(),
            final(self)@ == (ServerView { players: removed_id(old(self)@.players, id), ..old(self)@ }),
            server_action_views(actions@) == seq![ServerActionView::Broadcast(MessageView::PlayerLeft { id })],
    {
        let ghost s0 = self@;
        remove_player(&mut self.players, id);
        proof {
            let t = removed_id(s0.players, id);
            assert forall|k: int| 0 <= k < t.len() implies (#[trigger] t[k]).id < s0.next_player_id by {
                assert(t.contains(t[k]));
                s0.players.lemma_filter_contains_rev(|o: PlayerView| o.id != id, t[k]);
                let j = choose|j: int| 0 <= j < s0.players.len() && s0.players[j] == t[k];
                assert(s0.players[j].id < s0.next_player_id);
            }
            assert(self@ =~~= (ServerView { players: t, ..s0 }));
        }
        let mut actions: Vec<ServerAction> = Vec::new();
        actions.push(ServerAction::Broadcast(GameMessage::PlayerLeft { id }));
        proof {
            assert(server_action_views(actions@) =~= seq![ServerActionView::Broadcast(MessageView::PlayerLeft { id })]);
        }
        actions
    }

    /// The full state broadcast sent on a timer.
    pub fn state_message(&self) -> (m: GameMessage)
        ensures
            m@ == MessageView::GameState(self@.players),
    {
        GameMessage::GameState(copy_players(&self.players))
    }

    /// A datagram message from a client (see [`server_outcome`]).
    pub fn handle_message(&mut self, msg: GameMessage) -> (actions: Vec<ServerAction>)
        requires
            old(self).wf(),
        ensures
            final(self).wf(),
            final(self)@ == server_outcome(old(self)@, msg@).0,
            server_action_views(actions@) == server_outcome(old(self)@, msg@).1,
    {
        let ghost s0 = self@;
        let ghost mv = msg@;
        let mut actions: Vec<ServerAction> = Vec::new();
        match msg {
            GameMessage::PlayerUpdate(u) => {
                match find_index(&self.players, u.id) {
                    Some(i) => {
                        actions.push(ServerAction::Broadcast(GameMessage::PlayerUpdate(u.duplicate())));
                        self.players.set(i, u);
                        proof {
                            lemma_same_ids(s0, self@);
                        }
                    },
                    None => {},
                }
            },
            GameMessage::Position { id, x, y } => {
                match find_index(&self.players, id) {
                    Some(i) => {
                        let mut p: Player = self.players[i].duplicate();
                        p.x = x;
                        p.y = y;
                        actions.push(ServerAction::Broadcast(GameMessage::PlayerUpdate(p.duplicate())));
                        self.players.set(i, p);
                        proof {
                            lemma_same_ids(s0, self@);
                        }
                    },
                    None => {},
                }
            },
            _ => {},
        }
        proof {
            assert(self@ =~~= server_outcome(s0, mv).0);
            assert(server_action_views(actions@) =~~= server_outcome(s0, mv).1);
        }
        actions
    }
}

} // verus!
