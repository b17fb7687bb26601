use splix::conqr::client::GameState;
use splix::conqr::server::{forward_copies, GameServer, ServerAction};
use splix::conqr::shared::{GameMessage, Player};
use splix::field::Direction;

fn pl(id: u32, x: i64, y: i64, territory: Vec<(i32, i32)>, path: Vec<(i32, i32)>) -> Player {
    Player { id, x, y, color: (90, 90, 90), territory, current_path: path }
}

fn with(me: Player, others: Vec<Player>) -> GameState {
    let mut s = GameState::new();
    s.player = me;
    s.other_players = others;
    s
}

#[test]
fn new_client_moves_five_quarter_pixels() {
    let s = GameState::new();
    assert_eq!((s.player.id, s.player.x, s.player.y), (0, 400, 400));
    assert_eq!(s.player.color, (255, 0, 0));
    assert_eq!(s.movement_speed, 5);
    assert_eq!(s.current_direction, None);
    assert!(s.other_players.is_empty());
}

#[test]
fn steering_and_position_reports() {
    let mut s = GameState::new();
    s.steer(false, true, true, false);
    assert_eq!(s.current_direction, Some(Direction::Left));
    s.player.id = 4;
    assert!(matches!(s.position_message(), GameMessage::Position { id: 4, x: 400, y: 400 }));
}

#[test]
fn a_closed_loop_fills_by_row_parity() {
    let territory = vec![(0, 60), (0, 80), (0, 100)];
    let path = vec![(20, 60), (40, 60), (60, 60), (60, 80), (60, 100), (40, 100), (20, 100), (20, 80)];
    let mut s = with(pl(1, 81, 360, territory, path), vec![]);
    s.current_direction = Some(Direction::Left);
    let sends = s.move_and_claim();
    assert_eq!((s.player.x, s.player.y), (76, 360));
    assert_eq!(
        s.player.territory,
        vec![
            (0, 60), (0, 80), (0, 100), (20, 60), (40, 60), (60, 60), (60, 80), (60, 100), (40, 100),
            (20, 100), (20, 80), (40, 80)
        ]
    );
    assert!(s.player.current_path.is_empty());
    assert_eq!(sends.len(), 1);
    assert!(matches!(&sends[0], GameMessage::PlayerUpdate(p) if p.territory.len() == 12));
}

#[test]
fn an_open_trail_joins_without_a_fill() {
    // A U open toward the territory: no row has a cell between two runs.
    let territory = vec![(0, 60), (0, 80), (0, 100)];
    let path = vec![(20, 60), (40, 60), (40, 80), (40, 100), (20, 100)];
    let mut s = with(pl(1, 81, 360, territory, path), vec![]);
    s.current_direction = Some(Direction::Left);
    s.move_and_claim();
    assert_eq!(s.player.territory.len(), 8);
}

#[test]
fn frames_outside_extend_the_trail_and_crossings_respawn() {
    let mut s = with(pl(1, 84, 360, vec![(200, 200)], vec![]), vec![]);
    s.current_direction = Some(Direction::Right);
    let sends = s.move_and_claim();
    assert_eq!(s.player.current_path, vec![(20, 80)]);
    assert_eq!(sends.len(), 1);

    // Another player's trail on the next cell sends the player home.
    let mut s = with(pl(1, 84, 360, vec![(200, 200)], vec![(0, 80)]), vec![pl(2, 0, 0, vec![], vec![(20, 80)])]);
    s.current_direction = Some(Direction::Right);
    let sends = s.move_and_claim();
    assert_eq!((s.player.x, s.player.y), (840, 840));
    assert!(s.player.current_path.is_empty());
    assert_eq!(sends.len(), 1);

    // So does the own trail short of its last cell.
    let mut s = with(pl(1, 81, 360, vec![(200, 200)], vec![(0, 80), (20, 80)]), vec![]);
    s.current_direction = Some(Direction::Left);
    s.move_and_claim();
    assert_eq!((s.player.x, s.player.y), (840, 840));
}

#[test]
fn respawns_pick_a_territory_cell() {
    let mut s = with(pl(1, 0, 0, vec![(0, 0), (20, 0)], vec![(40, 0)]), vec![]);
    let sends = s.respawn_at(3);
    assert_eq!((s.player.x, s.player.y), (120, 40));
    assert_eq!(sends.len(), 1);
    let mut s = with(pl(1, 5, 5, vec![], vec![(40, 0)]), vec![]);
    assert!(s.respawn_at(3).is_empty());
    assert_eq!(s.player.current_path, vec![(40, 0)]);

    let territory: Vec<(i32, i32)> = (0..9).map(|k| (20 * k, 60)).collect();
    let mut seen = std::collections::BTreeSet::new();
    for _ in 0..40 {
        let mut s = with(pl(1, 0, 0, territory.clone(), vec![]), vec![]);
        s.spawn_in_territory();
        let cell = ((s.player.x / 4 - 10) as i32, (s.player.y / 4 - 10) as i32);
        assert!(territory.contains(&cell));
        seen.insert(cell);
    }
    assert!(seen.len() > 1);
}

#[test]
fn server_messages_track_the_other_players() {
    let mut s = GameState::new();
    s.player.id = 1;
    s.handle_message(GameMessage::GameState(vec![
        pl(1, 0, 0, vec![(5, 5)], vec![]),
        pl(2, 0, 0, vec![], vec![]),
        pl(3, 0, 0, vec![], vec![]),
    ]));
    assert!(s.player.territory.is_empty());
    assert_eq!(s.other_players.iter().map(|p| p.id).collect::<Vec<_>>(), vec![2, 3]);
    s.handle_message(GameMessage::PlayerUpdate(pl(3, 8, 8, vec![], vec![])));
    assert_eq!(s.other_players[1].x, 8);
    s.handle_message(GameMessage::PlayerLeft { id: 2 });
    assert_eq!(s.other_players.iter().map(|p| p.id).collect::<Vec<_>>(), vec![3]);
    let b = s.scoreboard();
    assert_eq!(b[0].0, 1);
    assert_eq!(b[1].0, 3);
}

#[test]
fn server_joins_reports_and_moves() {
    let mut s = GameServer::new();
    assert_eq!(s.next_player_id, 1);
    let a = s.join((1, 1, 1));
    assert_eq!(a.len(), 3);
    assert!(matches!(&a[0], ServerAction::Reply(GameMessage::PlayerUpdate(p)) if p.id == 1 && p.x == 200));
    assert!(matches!(&a[1], ServerAction::Reply(GameMessage::GameState(ps)) if ps.len() == 1));
    assert!(matches!(&a[2], ServerAction::Broadcast(GameMessage::PlayerUpdate(_))));
    for _ in 0..4 {
        s.join((1, 1, 1));
    }
    // No lobby limit under these rules; the fifth player starts top left again.
    assert_eq!(s.players.len(), 5);
    assert_eq!((s.players[4].x, s.players[4].y), (200, 200));

    let a = s.handle_message(GameMessage::PlayerUpdate(pl(2, 9, 9, vec![(1, 1)], vec![])));
    assert_eq!(a.len(), 1);
    assert_eq!(s.players[1].territory, vec![(1, 1)]);
    assert_eq!(s.players[0].territory.len(), 9);

    let a = s.handle_message(GameMessage::Position { id: 3, x: 7, y: 6 });
    assert!(matches!(&a[0], ServerAction::Broadcast(GameMessage::PlayerUpdate(p)) if p.id == 3 && p.y == 6));
    assert!(s.handle_message(GameMessage::Position { id: 30, x: 7, y: 6 }).is_empty());
    assert!(s.handle_message(GameMessage::PlayerLeft { id: 1 }).is_empty());

    let a = s.leave(1);
    assert!(matches!(a[0], ServerAction::Broadcast(GameMessage::PlayerLeft { id: 1 })));
    assert_eq!(s.players.len(), 4);
    match s.state_message() {
        GameMessage::GameState(ps) => assert_eq!(ps.len(), 4),
        other => panic!("unexpected message {:?}", other),
    }
    let (r, g, b) = GameServer::generate_random_color();
    assert!((50..200).contains(&r) && (50..200).contains(&g) && (50..200).contains(&b));
    assert_eq!(forward_copies(2, &GameMessage::PlayerUpdate(pl(2, 0, 0, vec![], vec![]))), 0);
    assert_eq!(forward_copies(2, &GameMessage::PlayerLeft { id: 2 }), 1);
}

#[test]
fn the_fill_routine_claims_the_trail_and_its_enclosed_cells() {
    let mut t = vec![(0, 0), (20, 0)];
    GameState::flood_fill(&mut t, &vec![]);
    assert_eq!(t, vec![(0, 0), (20, 0)]);

    let mut t = vec![(0, 60), (0, 80), (0, 100)];
    let path = vec![(20, 60), (40, 60), (60, 60), (60, 80), (60, 100), (40, 100), (20, 100), (20, 80)];
    GameState::flood_fill(&mut t, &path);
    let mut want = vec![(0, 60), (0, 80), (0, 100)];
    want.extend(path.iter().cloned());
    want.push((40, 80));
    assert_eq!(t, want);

    // An open trail adds only itself; nothing outside its box is added.
    let mut t = vec![(0, 60)];
    GameState::flood_fill(&mut t, &vec![(20, 60), (40, 60), (40, 80)]);
    assert_eq!(t, vec![(0, 60), (20, 60), (40, 60), (40, 80)]);
}
