//! Protocol types shared by client and server.
use vstd::prelude::*;

verus! {

/// A grid point in pixels, as `(x, y)`.
pub type Point = (i32, i32);

/// One player as the server and the clients see it.
///
/// `x` and `y` are the position in quarter pixels (see the crate docs);
/// `territory` lists the claimed grid points and `current_path` the trail
/// laid outside the territory since the last claim.
#[derive(Debug)]
pub struct Player {
    pub id: u32,
    pub x: i64,
    pub y: i64,
    pub color: (u8, u8, u8),
    pub territory: Vec<Point>,
    pub current_path: Vec<Point>,
    pub ready: bool,
}

/// The mathematical value of a [`Player`].
#[verifier::ext_equal]
pub struct PlayerView {
    pub id: u32,
    pub x: i64,
    pub y: i64,
    pub color: (u8, u8, u8),
    pub territory: Seq<Point>,
    pub current_path: Seq<Point>,
    pub ready: bool,
}

impl View for Player {
    type V = PlayerView;

    open spec fn view(&self) -> PlayerView {
        PlayerView {
            id: self.id,
            x: self.x,
            y: self.y,
            color: self.color,
            territory: self.territory@,
            current_path: self.current_path@,
            ready: self.ready,
        }
    }
}

/// Copies a list of points.
pub fn copy_points(points: &Vec<Point>) -> (out: Vec<Point>)
    ensures
        out@ == points@,
{
    let mut out: Vec<Point> = Vec::new();
    let mut i: usize = 0;
    while i < points.len()
        invariant
            i <= points@.len(),
            out@ == points@.subrange(0, i as int),
        decreases points@.len() - i,
    {
        out.push(points[i]);
        i = i + 1;
    }
    assert(points@.subrange(0, points@.len() as int) =~= points@);
    out
}

impl Player {
    /// This player with another territory.
    pub fn with_territory(&self, territory: Vec<Point>) -> (out: Player)
        ensures
            out@ == (PlayerView { territory: territory@, ..self@ }),
    {
        Player {
            id: self.id,
            x: self.x,
            y: self.y,
            color: self.color,
            territory,
            current_path: copy_points(&self.current_path),
            ready: self.ready,
        }
    }

    /// A copy of this player with the same value.
    pub fn duplicate(&self) -> (out: Player)
        ensures
            out@ == self@,
    {
        Player {
            id: self.id,
            x: self.x,
            y: self.y,
            color: self.color,
            territory: copy_points(&self.territory),
            current_path: copy_points(&self.current_path),
            ready: self.ready,
        }
    }
}

/// Copies a list of players.
pub fn copy_players(players: &Vec<Player>) -> (out: Vec<Player>)
    ensures
        out@.len() == players@.len(),
        forall|i: int| 0 <= i < players@.len() ==> (#[trigger] out@[i])@ == players@[i]@,
{
    let mut out: Vec<Player> = Vec::new();
    let mut i: usize = 0;
    while i < players.len()
        invariant
            i <= players@.len(),
            out@.len() == i,
            forall|k: int| 0 <= k < i ==> (#[trigger] out@[k])@ == players@[k]@,
        decreases players@.len() - i,
    {
        out.push(players[i].duplicate());
        i = i + 1;
    }
    out
}

/// The phase of a match, as the protocol names it.
#[derive(Clone, Copy, Debug)]
pub enum GameState {
    Lobby,
    CountdownStarted,
    InGame,
    GameOver,
}

/// The phase of a match on the client.
#[derive(Clone, Copy, Debug, PartialEq, Eq, Structural)]
pub enum GamePhase {
    Lobby,
    CountdownStarted,
    InGame,
    GameOver,
}

/// A message between client and server.
///
/// Positions in `Position` are in quarter pixels. `GameTime` carries the
/// bit pattern of the match time in seconds as a 64-bit float.
#[derive(Debug)]
pub enum GameMessage {
    Position { id: u32, x: i64, y: i64 },
    PlayerUpdate(Player),
    GameState(Vec<Player>),
    PlayerLeft { id: u32 },
    TerritoryUpdate { player_id: u32, removed_points: Vec<Point>, new_territory: Vec<Point> },
    GameOver { winner_id: u32, territory_size: usize },
    GameUpdate(String),
    GameTime(u64),
    PlayerJoined(Player),
    PlayerReady { id: u32 },
    GameStarting,
    StartCountdown,
    TerritoryClaim { player_id: u32, path: Vec<Point>, current_territory: Vec<Point> },
    TerritoryClaimRejected { player_id: u32, territory: Vec<Point> },
    PlayerDied { id: u32 },
    Reliable(Box<ReliableMessage>),
    Ack(u32),
    LobbyFull,
}

/// A message with a sequence number for acknowledged delivery.
#[derive(Debug)]
pub struct ReliableMessage {
    pub seq_num: u32,
    pub message: Box<GameMessage>,
    pub attempts: u32,
}

/// The mathematical value of a [`GameMessage`].
#[verifier::ext_equal]
pub enum MessageView {
    Position { id: u32, x: i64, y: i64 },
    PlayerUpdate(PlayerView),
    GameState(Seq<PlayerView>),
    PlayerLeft { id: u32 },
    TerritoryUpdate { player_id: u32, removed_points: Seq<Point>, new_territory: Seq<Point> },
    GameOver { winner_id: u32, territory_size: usize },
    GameUpdate(Seq<char>),
    GameTime(u64),
    PlayerJoined(PlayerView),
    PlayerReady { id: u32 },
    GameStarting,
    StartCountdown,
    TerritoryClaim { player_id: u32, path: Seq<Point>, current_territory: Seq<Point> },
    TerritoryClaimRejected { player_id: u32, territory: Seq<Point> },
    PlayerDied { id: u32 },
    Reliable { seq_num: u32, message: Box<MessageView>, attempts: u32 },
    Ack(u32),
    LobbyFull,
}

/// The values of a list of players.
pub open spec fn player_views(players: Seq<Player>) -> Seq<PlayerView> {
    players.map_values(|p: Player| p@)
}

pub open spec fn message_view(m: GameMessage) -> MessageView
    decreases m,
{
    match m {
        GameMessage::Position { id, x, y } => MessageView::Position { id, x, y },
        GameMessage::PlayerUpdate(p) => MessageView::PlayerUpdate(p@),
        GameMessage::GameState(ps) => MessageView::GameState(player_views(ps@)),
        GameMessage::PlayerLeft { id } => MessageView::PlayerLeft { id },
        GameMessage::TerritoryUpdate { player_id, removed_points, new_territory } => {
            MessageView::TerritoryUpdate {
                player_id,
                removed_points: removed_points@,
                new_territory: new_territory@,
            }
        },
        GameMessage::GameOver { winner_id, territory_size } => MessageView::GameOver {
            winner_id,
            territory_size,
        },
        GameMessage::GameUpdate(text) => MessageView::GameUpdate(text@),
        GameMessage::GameTime(bits) => MessageView::GameTime(bits),
        GameMessage::PlayerJoined(p) => MessageView::PlayerJoined(p@),
        GameMessage::PlayerReady { id } => MessageView::PlayerReady { id },
        GameMessage::GameStarting => MessageView::GameStarting,
        GameMessage::StartCountdown => MessageView::StartCountdown,
        GameMessage::TerritoryClaim { player_id, path, current_territory } => {
            MessageView::TerritoryClaim {
                player_id,
                path: path@,
                current_territory: current_territory@,
            }
        },
        GameMessage::TerritoryClaimRejected { player_id, territory } => {
            MessageView::TerritoryClaimRejected { player_id, territory: territory@ }
        },
        GameMessage::PlayerDied { id } => MessageView::PlayerDied { id },
        GameMessage::Reliable(r) => MessageView::Reliable {
            seq_num: r.seq_num,
            message: Box::new(message_view(*r.message)),
            attempts: r.attempts,
        },
        GameMessage::Ack(n) => MessageView::Ack(n),
        GameMessage::LobbyFull => MessageView::LobbyFull,
    }
}

impl View for GameMessage {
    type V = MessageView;

    open spec fn view(&self) -> MessageView {
        message_view(*self)
    }
}

} // verus!
