use splix::server::{forward_copies, GameServer, ServerAction, MAX_PLAYERS};
use splix::shared::{GameMessage, Player};

fn pl(id: u32, territory: Vec<(i32, i32)>) -> Player {
    Player { id, x: 0, y: 0, color: (60, 70, 80), territory, current_path: vec![], ready: false }
}

fn lobby(n: usize) -> GameServer {
    let mut s = GameServer::new();
    for _ in 0..n {
        s.join((60, 70, 80));
    }
    s
}

fn text_of(a: &ServerAction) -> Option<String> {
    match a {
        ServerAction::SendUdp(GameMessage::GameUpdate(t)) | ServerAction::Broadcast(GameMessage::GameUpdate(t)) => Some(t.clone()),
        _ => None,
    }
}

fn block(x0: i32, y0: i32) -> Vec<(i32, i32)> {
    let mut v = vec![];
    for dx in [-10, 0, 10] {
        for dy in [-10, 0, 10] {
            v.push((x0 + dx, y0 + dy));
        }
    }
    v
}

#[test]
fn a_new_server_is_empty() {
    let s = GameServer::new();
    assert!(s.players.is_empty());
    assert_eq!(s.next_player_id, 1);
    assert!(!s.game_over && !s.game_started && !s.countdown_cancel);
}

#[test]
fn random_colors_stay_in_range_and_vary() {
    let mut all = std::collections::BTreeSet::new();
    for _ in 0..100 {
        let (r, g, b) = GameServer::generate_random_color();
        for c in [r, g, b] {
            assert!((50..200).contains(&c));
            all.insert(c);
        }
    }
    assert!(all.len() > 1);
}

#[test]
fn joins_fill_the_four_corners() {
    let mut s = GameServer::new();
    let a = s.join((1, 2, 3));
    assert_eq!(s.players.len(), 1);
    let p = &s.players[0];
    assert_eq!((p.id, p.x, p.y), (1, 200, 200));
    assert_eq!(p.territory, block(50, 50));
    assert_eq!(p.color, (1, 2, 3));
    assert!(p.current_path.is_empty() && !p.ready);
    assert_eq!(a.len(), 4);
    assert!(matches!(&a[0], ServerAction::Reply(GameMessage::PlayerUpdate(q)) if q.id == 1));
    assert!(matches!(&a[1], ServerAction::Reply(GameMessage::GameState(ps)) if ps.len() == 1));
    assert!(matches!(&a[2], ServerAction::Broadcast(GameMessage::PlayerJoined(q)) if q.id == 1));
    assert!(matches!(&a[3], ServerAction::Broadcast(GameMessage::PlayerUpdate(q)) if q.id == 1));

    s.join((1, 2, 3));
    s.join((1, 2, 3));
    s.join((1, 2, 3));
    let corners: Vec<(u32, i64, i64)> = s.players.iter().map(|p| (p.id, p.x / 4, p.y / 4)).collect();
    assert_eq!(corners, vec![(1, 50, 50), (2, 750, 50), (3, 50, 550), (4, 750, 550)]);
    assert_eq!(s.players[3].territory, block(750, 550));
    assert_eq!(s.next_player_id, 5);
}

#[test]
fn a_full_lobby_refuses_and_stays_as_it_was() {
    let mut s = lobby(MAX_PLAYERS);
    let a = s.join((9, 9, 9));
    assert_eq!(a.len(), 1);
    assert!(matches!(a[0], ServerAction::Reply(GameMessage::LobbyFull)));
    assert_eq!(s.players.len(), 4);
    assert_eq!(s.next_player_id, 5);
}

#[test]
fn leave_drops_the_player_and_ids_keep_counting() {
    let mut s = lobby(2);
    let a = s.leave(1);
    assert_eq!(a.len(), 1);
    assert!(matches!(a[0], ServerAction::Broadcast(GameMessage::PlayerLeft { id: 1 })));
    assert_eq!(s.players.iter().map(|p| p.id).collect::<Vec<_>>(), vec![2]);
    s.join((0, 0, 0));
    assert_eq!(s.players[1].id, 3);
    assert_eq!((s.players[1].x, s.players[1].y), (200, 2200));
    s.leave(99);
    assert_eq!(s.players.len(), 2);
}

#[test]
fn the_countdown_waits_for_everyone() {
    let mut s = lobby(2);
    let a = s.check_game_start();
    assert!(s.countdown_cancel && !s.game_started);
    assert_eq!(a.len(), 2);
    assert!(matches!(a[0], ServerAction::SendUdp(_)));
    assert!(matches!(a[1], ServerAction::Broadcast(_)));
    assert_eq!(text_of(&a[0]).as_deref(), Some("Waiting for all players to be ready..."));

    // An empty lobby never starts.
    let mut e = GameServer::new();
    e.check_game_start();
    assert!(!e.game_started);

    s.players[0].ready = true;
    s.players[1].ready = true;
    let a = s.check_game_start();
    assert!(s.game_started && !s.countdown_cancel);
    assert!(a.len() == 1 && matches!(a[0], ServerAction::StartCountdown));
    assert!(s.check_game_start().is_empty());
}

#[test]
fn ready_toggles_reach_the_countdown() {
    let mut s = lobby(2);
    let a = s.handle_message(GameMessage::PlayerReady { id: 1 });
    assert!(s.players[0].ready);
    assert_eq!(a.len(), 5);
    assert!(matches!(&a[0], ServerAction::SendUdp(GameMessage::PlayerUpdate(p)) if p.id == 1 && p.ready));
    assert!(matches!(&a[1], ServerAction::Broadcast(GameMessage::PlayerUpdate(p)) if p.id == 1));
    assert!(matches!(&a[2], ServerAction::Broadcast(GameMessage::GameState(ps)) if ps.len() == 2 && ps[0].ready));
    assert_eq!(text_of(&a[3]).as_deref(), Some("Waiting for all players to be ready..."));

    let a = s.handle_message(GameMessage::PlayerReady { id: 2 });
    assert_eq!(a.len(), 4);
    assert!(matches!(a[3], ServerAction::StartCountdown));
    assert!(s.game_started);

    // Unknown ids are ignored.
    assert!(s.handle_message(GameMessage::PlayerReady { id: 9 }).is_empty());
}

#[test]
fn ready_law_two_toggles_restore_the_players() {
    let mut s = lobby(3);
    s.players[1].ready = true;
    let before: Vec<bool> = s.players.iter().map(|p| p.ready).collect();
    s.handle_message(GameMessage::PlayerReady { id: 3 });
    s.handle_message(GameMessage::PlayerReady { id: 3 });
    let after: Vec<bool> = s.players.iter().map(|p| p.ready).collect();
    assert_eq!(before, after);
}

#[test]
fn countdown_seconds_and_start() {
    let s = lobby(1);
    let (a, go_on) = s.countdown_step(3);
    assert!(go_on);
    assert_eq!(a.len(), 2);
    assert_eq!(text_of(&a[0]).as_deref(), Some("Game starting in 3..."));
    assert_eq!(text_of(&a[1]).as_deref(), Some("Game starting in 3..."));
    let (a, _) = s.countdown_step(5);
    assert_eq!(text_of(&a[0]).as_deref(), Some("Game starting in 5..."));
    let a = s.countdown_finish();
    assert_eq!(a.len(), 2);
    assert!(matches!(a[0], ServerAction::SendUdp(GameMessage::GameStarting)));
    assert!(matches!(a[1], ServerAction::Broadcast(GameMessage::GameStarting)));

    let mut c = lobby(1);
    c.countdown_cancel = true;
    let (a, go_on) = c.countdown_step(2);
    assert!(!go_on);
    assert_eq!(text_of(&a[1]).as_deref(), Some("Waiting for all players to be ready..."));
    assert!(c.countdown_finish().is_empty());
}

#[test]
fn the_match_timer_starts_and_ends_the_match() {
    let mut s = lobby(3);
    let a = s.handle_message(GameMessage::GameStarting);
    assert!(a.len() == 1 && matches!(a[0], ServerAction::StartMatchTimer));
    assert!(s.game_started);

    s.players[1].territory.push((400, 400));
    s.players[2].territory.push((420, 400));
    let a = s.end_game();
    assert!(s.game_over);
    assert_eq!(a.len(), 2);
    assert!(matches!(a[0], ServerAction::Broadcast(GameMessage::GameOver { winner_id: 2, territory_size: 10 })));
    assert!(matches!(a[1], ServerAction::Shutdown));

    let mut e = GameServer::new();
    let a = e.end_game();
    assert!(matches!(a[0], ServerAction::Broadcast(GameMessage::GameOver { winner_id: 0, territory_size: 0 })));
}

#[test]
fn a_death_respawns_the_player_in_its_territory() {
    let mut s = lobby(2);
    s.players[0].current_path = vec![(100, 100)];
    let a = s.respawn_player(1, 4);
    // Cell 4 of the block around (50, 50) is (50, 50).
    assert_eq!((s.players[0].x, s.players[0].y), (240, 240));
    assert!(s.players[0].current_path.is_empty());
    assert_eq!(a.len(), 4);
    assert!(matches!(a[0], ServerAction::SendUdp(GameMessage::PlayerDied { id: 1 })));
    assert!(matches!(&a[1], ServerAction::SendUdp(GameMessage::PlayerUpdate(p)) if p.x == 240));
    assert!(matches!(a[2], ServerAction::Broadcast(GameMessage::PlayerDied { id: 1 })));
    assert!(matches!(&a[3], ServerAction::Broadcast(GameMessage::PlayerUpdate(p)) if p.y == 240));

    let a = s.handle_message(GameMessage::PlayerDied { id: 2 });
    assert_eq!(a.len(), 4);
    let p = &s.players[1];
    assert!(block(750, 50).contains(&((p.x / 4 - 10) as i32, (p.y / 4 - 10) as i32)));

    assert!(s.handle_message(GameMessage::PlayerDied { id: 7 }).is_empty());
    s.game_over = true;
    assert!(s.respawn_player(1, 0).is_empty());
}

#[test]
fn a_report_replaces_the_sender_and_strips_the_others() {
    let mut s = GameServer::new();
    s.join((0, 0, 0));
    s.join((0, 0, 0));
    s.players[1].territory = vec![(20, 20), (40, 40), (300, 300)];
    let mut u = pl(1, vec![(20, 20), (40, 40), (60, 60), (300, 300)]);
    u.x = 77;
    let a = s.handle_message(GameMessage::PlayerUpdate(u));
    assert_eq!(s.players[0].x, 77);
    assert_eq!(s.players[0].territory.len(), 4);
    assert!(s.players[1].territory.is_empty());
    assert_eq!(a.len(), 3);
    match &a[0] {
        ServerAction::Broadcast(GameMessage::TerritoryUpdate { player_id, removed_points, new_territory }) => {
            assert_eq!(*player_id, 2);
            assert_eq!(removed_points, &vec![(20, 20), (40, 40), (300, 300)]);
            assert!(new_territory.is_empty());
        }
        other => panic!("unexpected action {:?}", other),
    }
    assert!(matches!(&a[1], ServerAction::Broadcast(GameMessage::GameState(ps)) if ps.len() == 2));
    assert!(matches!(&a[2], ServerAction::Broadcast(GameMessage::PlayerUpdate(p)) if p.id == 1 && p.x == 77));
}

#[test]
fn a_report_only_takes_points_inside_its_box() {
    let mut s = lobby(2);
    s.players[1].territory = vec![(100, 100), (700, 700)];
    let a = s.handle_message(GameMessage::PlayerUpdate(pl(1, vec![(80, 80), (120, 120), (500, 500)])));
    // (100, 100) is in the box but not in the report; (700, 700) is outside the box.
    assert_eq!(s.players[1].territory, vec![(100, 100), (700, 700)]);
    assert_eq!(a.len(), 2);

    // Reporting law: no other player keeps a point of the report inside its box.
    let mut s = lobby(3);
    s.players[1].territory = vec![(10, 10), (30, 30)];
    s.players[2].territory = vec![(30, 30), (90, 90)];
    let report = vec![(10, 10), (30, 30), (50, 50)];
    s.handle_message(GameMessage::PlayerUpdate(pl(1, report.clone())));
    for other in &s.players[1..] {
        assert!(other.territory.iter().all(|q| !report.contains(q)));
    }
    assert_eq!(s.players[2].territory, vec![(90, 90)]);
}

#[test]
fn moves_and_territory_updates_are_recorded() {
    let mut s = lobby(2);
    let a = s.handle_message(GameMessage::Position { id: 2, x: 11, y: 22 });
    assert_eq!((s.players[1].x, s.players[1].y), (11, 22));
    assert!(a.len() == 1 && matches!(&a[0], ServerAction::Broadcast(GameMessage::PlayerUpdate(p)) if p.id == 2 && p.x == 11));

    let a = s.handle_message(GameMessage::TerritoryUpdate {
        player_id: 2,
        removed_points: vec![(0, 0)],
        new_territory: vec![(1, 1)],
    });
    assert_eq!(s.players[1].territory, vec![(1, 1)]);
    assert_eq!(a.len(), 3);
    assert!(matches!(&a[0], ServerAction::Broadcast(GameMessage::PlayerUpdate(p)) if p.id == 2 && p.territory.is_empty()));
    assert!(matches!(&a[1], ServerAction::Broadcast(GameMessage::GameState(_))));
    assert!(matches!(&a[2], ServerAction::Broadcast(GameMessage::PlayerUpdate(p)) if p.territory == vec![(1, 1)]));

    // Once the match is over, moves are ignored.
    s.game_over = true;
    assert!(s.handle_message(GameMessage::Position { id: 2, x: 0, y: 0 }).is_empty());
    assert_eq!(s.players[1].x, 11);
    // Other messages are ignored too.
    assert!(s.handle_message(GameMessage::Ack(3)).is_empty());
}

#[test]
fn connections_forward_by_kind() {
    assert_eq!(forward_copies(1, &GameMessage::GameOver { winner_id: 1, territory_size: 3 }), 2);
    assert_eq!(forward_copies(1, &GameMessage::PlayerUpdate(pl(1, vec![]))), 0);
    assert_eq!(forward_copies(1, &GameMessage::PlayerUpdate(pl(2, vec![]))), 1);
    assert_eq!(forward_copies(1, &GameMessage::PlayerLeft { id: 1 }), 1);
}

#[test]
fn state_message_lists_every_player() {
    let s = lobby(3);
    match s.state_message() {
        GameMessage::GameState(ps) => assert_eq!(ps.iter().map(|p| p.id).collect::<Vec<_>>(), vec![1, 2, 3]),
        other => panic!("unexpected message {:?}", other),
    }
}

#[test]
fn join_law_a_join_and_a_leave_restore_the_players() {
    let mut s = lobby(2);
    s.players[1].ready = true;
    let before: Vec<(u32, bool, usize)> = s.players.iter().map(|p| (p.id, p.ready, p.territory.len())).collect();
    s.join((5, 5, 5));
    s.leave(3);
    let after: Vec<(u32, bool, usize)> = s.players.iter().map(|p| (p.id, p.ready, p.territory.len())).collect();
    assert_eq!(before, after);
    assert_eq!(s.next_player_id, 4);
}

#[test]
fn lobby_law_ids_follow_admission_order() {
    let mut s = GameServer::new();
    for _ in 0..3 {
        s.join((1, 1, 1));
    }
    s.leave(2);
    s.join((1, 1, 1));
    s.join((1, 1, 1));
    let a = s.join((1, 1, 1));
    assert!(matches!(a[0], ServerAction::Reply(GameMessage::LobbyFull)));
    let ids: Vec<u32> = s.players.iter().map(|p| p.id).collect();
    assert_eq!(ids, vec![1, 3, 4, 5]);
    assert_eq!(s.next_player_id, 6);
    s.handle_message(GameMessage::PlayerUpdate(pl(4, vec![])));
    let ids: Vec<u32> = s.players.iter().map(|p| p.id).collect();
    assert_eq!(ids, vec![1, 3, 4, 5]);
}

#[test]
fn cap_law_joins_and_leaves_in_any_order_stay_within_four() {
    let mut s = GameServer::new();
    for round in 0..10u32 {
        for _ in 0..3 {
            s.join((1, 1, 1));
            assert!(s.players.len() <= MAX_PLAYERS);
        }
        let first = s.players[0].id;
        s.leave(first);
        s.handle_message(GameMessage::PlayerReady { id: first + round });
        assert!(s.players.len() <= MAX_PLAYERS);
    }
}
