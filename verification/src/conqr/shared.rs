//! Protocol types of the conqr.io rules.
use vstd::prelude::*;
use crate::shared::{Point, copy_points};

verus! {

/// One player; `x` and `y` in quarter pixels.
#[derive(Debug)]
pub struct Player {
    pub id: u32,
    pub x: i64,
    pub y: i64,
    pub color: (u8, u8, u8),
    pub territory: Vec<Point>,
    pub current_path: Vec<Point>,
}

/// The mathematical value of a [`Player`].
#[verifier::ext_equal]
pub struct PlayerView {
    pub id: u32,
    pub x: i64,
    pub y: i64,
    pub color: (u8, u8, u8),
    pub territory: Seq<Point>,
    pub current_path: Seq<Point>,
}

impl View for Player {
    type V = PlayerView;

    open spec fn view(&self) -> PlayerView {
        PlayerView {
            id: self.id,
            x: self.x,
            y: self.y,
            color: self.color,
            territory: self.territory@,
            current_path: self.current_path@,
        }
    }
}

impl Player {
    /// A copy of this player with the same value.
    pub fn duplicate(&self) -> (out: Player)
        ensures
            out@ == self@,
    {
        Player {
            id: self.id,
            x: self.x,
            y: self.y,
            color: self.color,
            territory: copy_points(&self.territory),
            current_path: copy_points(&self.current_path),
        }
    }
}

pub open spec fn player_views(players: Seq<Player>) -> Seq<PlayerView> {
    players.map_values(|p: Player| p@)
}

/// Copies a list of players.
pub fn copy_players(players: &Vec<Player>) -> (out: Vec<Player>)
    ensures
        player_views(out@) =~~= player_views(players@),
{
    let mut out: Vec<Player> = Vec::new();
    let mut i: usize = 0;
    while i < players.len()
        invariant
            i <= players@.len(),
            out@.len() == i,
            forall|k: int| 0 <= k < i ==> (#[trigger] out@[k])@ == players@[k]@,
        decreases players@.len() - i,
    {
        out.push(players[i].duplicate());
        i = i + 1;
    }
    out
}

/// A message between client and server; positions in quarter pixels.
#[derive(Debug)]
pub enum GameMessage {
    Position { id: u32, x: i64, y: i64 },
    PlayerUpdate(Player),
    GameState(Vec<Player>),
    PlayerLeft { id: u32 },
}

/// The mathematical value of a [`GameMessage`].
#[verifier::ext_equal]
pub enum MessageView {
    Position { id: u32, x: i64, y: i64 },
    PlayerUpdate(PlayerView),
    GameState(Seq<PlayerView>),
    PlayerLeft { id: u32 },
}

impl View for GameMessage {
    type V = MessageView;

    open spec fn view(&self) -> MessageView {
        match self {
            GameMessage::Position { id, x, y } => MessageView::Position { id: *id, x: *x, y: *y },
            GameMessage::PlayerUpdate(p) => MessageView::PlayerUpdate(p@),
            GameMessage::GameState(ps) => MessageView::GameState(player_views(ps@)),
            GameMessage::PlayerLeft { id } => MessageView::PlayerLeft { id: *id },
        }
    }
}

pub open spec fn message_views(ms: Seq<GameMessage>) -> Seq<MessageView> {
    ms.map_values(|m: GameMessage| m@)
}

/// No two entries share an id.
pub open spec fn distinct_ids(s: Seq<PlayerView>) -> bool {
    forall|i: int, j: int| 0 <= i < s.len() && 0 <= j < s.len() && i != j ==> s[i].id != s[j].id
}

/// The list with `p` in place of the entry with its id, or appended.
pub open spec fn upserted(s: Seq<PlayerView>, p: PlayerView) -> Seq<PlayerView> {
    if exists|i: int| 0 <= i < s.len() && s[i].id == p.id {
        s.update(choose|i: int| 0 <= i < s.len() && s[i].id == p.id, p)
    } else {
        s.push(p)
    }
}

/// The list without the entry of the id.
pub open spec fn removed_id(s: Seq<PlayerView>, id: u32) -> Seq<PlayerView> {
    s.filter(|o: PlayerView| o.id != id)
}

/// Records a player in the id-keyed list.
pub fn upsert(list: &mut Vec<Player>, p: Player)
    requires
        distinct_ids(player_views(old(list)@)),
    ensures
        player_views(final(list)@) =~~= upserted(player_views(old(list)@), p@),
        distinct_ids(player_views(final(list)@)),
{
    let ghost v = player_views(list@);
    proof {
        if exists|i: int| 0 <= i < v.len() && v[i].id == p.id {
            let i = choose|i: int| 0 <= i < v.len() && v[i].id == p.id;
            let t = v.update(i, p@);
            assert forall|a: int, b: int| 0 <= a < t.len() && 0 <= b < t.len() && a != b implies t[a].id
                != t[b].id by {
                if a != i && b != i {
                    assert(v[a].id != v[b].id);
                } else if a == i {
                    assert(v[b].id != v[i].id);
                } else {
                    assert(v[a].id != v[i].id);
                }
            }
        } else {
            let t = v.push(p@);
            assert forall|a: int, b: int| 0 <= a < t.len() && 0 <= b < t.len() && a != b implies t[a].id
                != t[b].id by {
                if a < v.len() && b < v.len() {
                    assert(v[a].id != v[b].id);
                }
            }
        }
    }
    let mut i: usize = 0;
    while i < list.len()
        invariant
            v == player_views(list@),
            v == player_views(old(list)@),
            distinct_ids(v),
            distinct_ids(upserted(v, p@)),
            i <= list@.len(),
            forall|k: int| 0 <= k < i ==> v[k].id != p.id,
        decreases list@.len() - i,
    {
        if list[i].id == p.id {
            proof {
                assert(v[i as int].id == p.id);
                let k = choose|k: int| 0 <= k < v.len() && v[k].id == p.id;
                if k != i {
                    assert(v[k].id != v[i as int].id);
                }
                assert(upserted(v, p@) == v.update(i as int, p@));
            }
            list.set(i, p);
            proof {
                assert(player_views(list@) =~~= v.update(i as int, p@));
            }
            return;
        }
        i = i + 1;
    }
    list.push(p);
    proof {
        assert(player_views(list@) =~~= v.push(p@));
    }
}

/// Drops the entry of the id from the id-keyed list.
pub fn remove_player(list: &mut Vec<Player>, id: u32)
    requires
        distinct_ids(player_views(old(list)@)),
    ensures
        player_views(final(list)@) =~~= removed_id(player_views(old(list)@), id),
        distinct_ids(player_views(final(list)@)),
{
    let ghost v = player_views(list@);
    let ghost pred = |o: PlayerView| o.id != id;
    let mut kept: Vec<Player> = Vec::new();
    let mut i: usize = 0;
    while i < list.len()
        invariant
            v == player_views(list@),
            pred == (|o: PlayerView| o.id != id),
            i <= list@.len(),
            player_views(kept@) =~~= v.take(i as int).filter(pred),
        decreases list@.len() - i,
    {
        proof {
            assert(v.take(i as int + 1) =~= v.take(i as int).push(v[i as int]));
            v.take(i as int).lemma_filter_push(v[i as int], pred);
        }
        if list[i].id != id {
            kept.push(list[i].duplicate());
            proof {
                assert(player_views(kept@) =~~= v.take(i as int + 1).filter(pred));
            }
        }
        i = i + 1;
    }
    proof {
        assert(v.take(i as int) =~= v);
        let t = v.filter(pred);
        assert forall|a: int, b: int| 0 <= a < t.len() && 0 <= b < t.len() && a != b implies t[a].id
            != t[b].id by {
            lemma_filter_order(v, pred, a, b);
        }
    }
    *list = kept;
}

proof fn lemma_filter_order(v: Seq<PlayerView>, pred: spec_fn(PlayerView) -> bool, a: int, b: int)
    requires
        distinct_ids(v),
        0 <= a < v.filter(pred).len(),
        0 <= b < v.filter(pred).len(),
        a != b,
    ensures
        v.filter(pred)[a].id != v.filter(pred)[b].id,
    decreases v.len(),
{
    reveal(Seq::filter);
    if v.len() == 0 {
        return;
    }
    let rest = v.drop_last();
    let last = v.last();
    assert(distinct_ids(rest)) by {
        assert forall|i: int, j: int| 0 <= i < rest.len() && 0 <= j < rest.len() && i != j implies rest[i].id
            != rest[j].id by {
            assert(rest[i] == v[i]);
            assert(rest[j] == v[j]);
        }
    }
    if pred(last) {
        assert(v.filter(pred) == rest.filter(pred).push(last));
        let n = rest.filter(pred).len();
        if a < n && b < n {
            lemma_filter_order(rest, pred, a, b);
        } else {
            let k = if a < n { a } else { b };
            assert(rest.filter(pred).contains(rest.filter(pred)[k]));
            rest.lemma_filter_contains_rev(pred, rest.filter(pred)[k]);
            let j = choose|j: int| 0 <= j < rest.len() && rest[j] == rest.filter(pred)[k];
            assert(v[j] == rest[j]);
            assert(v[j].id != v[v.len() - 1].id);
        }
    } else {
        assert(v.filter(pred) == rest.filter(pred));
        lemma_filter_order(rest, pred, a, b);
    }
}

} // verus!
