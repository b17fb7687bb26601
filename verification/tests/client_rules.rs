use splix::client::{is_point_inside, remove_player, upsert, ClientAction, GameState, Sound};
use splix::field::Direction;
use splix::shared::{GameMessage, GamePhase, Player};

fn pl(id: u32, x: i64, y: i64, territory: Vec<(i32, i32)>, path: Vec<(i32, i32)>) -> Player {
    Player { id, x, y, color: (100, 110, 120), territory, current_path: path, ready: false }
}

fn in_game(me: Player, others: Vec<Player>) -> GameState {
    let mut s = GameState::new();
    s.player = me;
    s.other_players = others;
    s.game_state = GamePhase::InGame;
    s.in_lobby = false;
    s
}

fn update_of(a: &ClientAction) -> Option<&Player> {
    match a {
        ClientAction::SendUdp(GameMessage::PlayerUpdate(p)) | ClientAction::SendTcp(GameMessage::PlayerUpdate(p)) => Some(p),
        _ => None,
    }
}

#[test]
fn new_state_waits_in_the_lobby() {
    let s = GameState::new();
    assert_eq!(s.player.id, 0);
    assert_eq!((s.player.x, s.player.y), (400, 400));
    assert_eq!(s.player.color, (255, 0, 0));
    assert!(s.player.territory.is_empty() && s.player.current_path.is_empty());
    assert!(!s.player.ready);
    assert!(s.other_players.is_empty());
    assert_eq!(s.movement_speed, 3);
    assert_eq!(s.current_direction, None);
    assert!(!s.game_over);
    assert_eq!(s.game_state, GamePhase::Lobby);
    assert!(s.in_lobby);
    assert!(s.countdown_message.is_none());
}

#[test]
fn toggle_ready_flips_and_announces_on_both_channels() {
    let mut s = GameState::new();
    s.player.id = 3;
    let a = s.toggle_ready();
    assert!(s.player.ready);
    assert_eq!(a.len(), 2);
    assert!(matches!(a[0], ClientAction::SendUdp(GameMessage::PlayerReady { id: 3 })));
    assert!(matches!(a[1], ClientAction::SendTcp(GameMessage::PlayerReady { id: 3 })));
    s.toggle_ready();
    assert!(!s.player.ready);
}

#[test]
fn steer_takes_the_last_key_in_order() {
    let mut s = GameState::new();
    s.steer(false, false, false, false);
    assert_eq!(s.current_direction, None);
    s.steer(true, false, false, false);
    assert_eq!(s.current_direction, Some(Direction::Up));
    s.steer(true, true, false, false);
    assert_eq!(s.current_direction, Some(Direction::Down));
    s.steer(true, false, true, true);
    assert_eq!(s.current_direction, Some(Direction::Right));
    s.steer(false, false, false, false);
    assert_eq!(s.current_direction, Some(Direction::Right));
}

#[test]
fn position_message_reports_id_and_position() {
    let mut s = GameState::new();
    s.player.id = 2;
    s.player.x = 123;
    s.player.y = 456;
    assert!(matches!(s.position_message(), GameMessage::Position { id: 2, x: 123, y: 456 }));
}

#[test]
fn lobby_messages_record_players_and_start_the_match() {
    let mut s = GameState::new();
    s.player.id = 1;
    assert!(s.handle_lobby_message(GameMessage::PlayerJoined(pl(2, 0, 0, vec![], vec![]))).is_empty());
    assert!(s.handle_lobby_message(GameMessage::PlayerJoined(pl(1, 9, 9, vec![], vec![]))).is_empty());
    assert_eq!(s.other_players.len(), 1);
    assert_eq!(s.player.x, 400);

    let mut me = pl(1, 9, 9, vec![(0, 0)], vec![]);
    me.ready = true;
    s.handle_lobby_message(GameMessage::PlayerUpdate(me));
    assert!(s.player.ready);
    assert!(s.player.territory.is_empty());

    let mut two = pl(2, 0, 0, vec![], vec![]);
    two.ready = true;
    let mut me = pl(1, 0, 0, vec![], vec![]);
    me.ready = false;
    s.handle_lobby_message(GameMessage::GameState(vec![two, pl(3, 0, 0, vec![], vec![]), me]));
    assert!(!s.player.ready);
    assert_eq!(s.other_players.len(), 2);
    assert!(s.other_players[0].id == 2 && s.other_players[0].ready);
    assert_eq!(s.other_players[1].id, 3);

    s.handle_lobby_message(GameMessage::GameUpdate("Game starting in 3...".to_string()));
    assert_eq!(s.countdown_message.as_deref(), Some("Game starting in 3..."));

    let a = s.handle_lobby_message(GameMessage::GameStarting);
    assert_eq!(s.game_state, GamePhase::InGame);
    assert!(!s.in_lobby);
    assert_eq!(a.len(), 2);
    assert!(matches!(a[0], ClientAction::StartMatchClock));
    assert!(matches!(a[1], ClientAction::Play(Sound::GameStart)));
}

#[test]
fn game_messages_update_the_match() {
    let me = pl(1, 0, 0, vec![(0, 60)], vec![]);
    let other = pl(2, 0, 0, vec![], vec![(20, 20), (40, 20)]);
    let mut s = in_game(me, vec![other]);

    let a = s.handle_game_message(GameMessage::GameTime(77));
    assert!(a.len() == 1 && matches!(a[0], ClientAction::SetTimeOffset(77)));

    assert!(s.handle_game_message(GameMessage::PlayerDied { id: 2 }).is_empty());
    assert!(s.other_players[0].current_path.is_empty());

    s.handle_game_message(GameMessage::GameState(vec![
        pl(1, 5, 5, vec![(0, 60), (20, 60)], vec![]),
        pl(4, 0, 0, vec![(200, 200)], vec![]),
    ]));
    assert_eq!(s.player.territory, vec![(0, 60), (20, 60)]);
    assert_eq!((s.player.x, s.player.y), (0, 0));
    assert_eq!(s.other_players.len(), 2);
    assert_eq!(s.other_players[1].id, 4);

    s.handle_game_message(GameMessage::PlayerLeft { id: 2 });
    assert_eq!(s.other_players.len(), 1);
    assert_eq!(s.other_players[0].id, 4);

    s.handle_game_message(GameMessage::GameUpdate("hello".to_string()));
    assert_eq!(s.countdown_message.as_deref(), Some("hello"));
}

#[test]
fn own_death_respawns_in_territory_with_a_sound() {
    let mut s = in_game(pl(1, 0, 0, vec![(0, 60), (20, 60)], vec![(40, 60)]), vec![]);
    let a = s.handle_game_message(GameMessage::PlayerDied { id: 1 });
    assert_eq!(a.len(), 2);
    assert!(matches!(a[0], ClientAction::Play(Sound::Death)));
    let sent = update_of(&a[1]).expect("state update");
    assert!(matches!(a[1], ClientAction::SendUdp(_)));
    assert!(s.player.current_path.is_empty());
    assert!((s.player.x, s.player.y) == (40, 280) || (s.player.x, s.player.y) == (120, 280));
    assert_eq!((sent.x, sent.y), (s.player.x, s.player.y));

    // Without territory nothing moves, only the sound plays.
    let mut s = in_game(pl(1, 8, 9, vec![], vec![(40, 60)]), vec![]);
    let a = s.handle_game_message(GameMessage::PlayerDied { id: 1 });
    assert_eq!(a.len(), 1);
    assert!(matches!(a[0], ClientAction::Play(Sound::Death)));
    assert_eq!((s.player.x, s.player.y), (8, 9));
    assert_eq!(s.player.current_path, vec![(40, 60)]);
}

#[test]
fn respawn_at_picks_the_cell_by_remainder() {
    let mut s = in_game(pl(1, 0, 0, vec![(0, 0), (20, 0), (40, 0)], vec![(60, 0)]), vec![]);
    let a = s.respawn_at(4);
    assert_eq!((s.player.x, s.player.y), (120, 40));
    assert!(s.player.current_path.is_empty());
    assert_eq!(s.player.territory.len(), 3);
    assert_eq!(a.len(), 1);
    let sent = update_of(&a[0]).unwrap();
    assert_eq!((sent.x, sent.y), (120, 40));

    let mut s = in_game(pl(1, 7, 8, vec![], vec![(60, 0)]), vec![]);
    assert!(s.respawn_at(4).is_empty());
    assert_eq!((s.player.x, s.player.y), (7, 8));
}

#[test]
fn spawn_in_territory_draws_different_cells() {
    let territory: Vec<(i32, i32)> = (0..9).map(|k| (20 * k, 100)).collect();
    let mut seen = std::collections::BTreeSet::new();
    for _ in 0..40 {
        let mut s = in_game(pl(1, 0, 0, territory.clone(), vec![(0, 200)]), vec![]);
        let a = s.spawn_in_territory();
        assert_eq!(a.len(), 1);
        assert!(s.player.current_path.is_empty());
        let cell = ((s.player.x / 4 - 10) as i32, (s.player.y / 4 - 10) as i32);
        assert!(territory.contains(&cell));
        assert_eq!(s.player.x % 4, 0);
        seen.insert(cell);
    }
    assert!(seen.len() > 1);
}

#[test]
fn match_winner_is_the_first_largest() {
    let s = in_game(
        pl(1, 0, 0, vec![(0, 0); 3], vec![]),
        vec![pl(2, 0, 0, vec![(0, 0); 5], vec![]), pl(3, 0, 0, vec![(0, 0); 5], vec![])],
    );
    assert_eq!(s.match_winner(), (2, 5));
    assert_eq!(s.display_winner(), (2, 5));

    let s = in_game(pl(7, 0, 0, vec![], vec![]), vec![pl(2, 0, 0, vec![], vec![])]);
    assert_eq!(s.match_winner(), (0, 0));
    assert_eq!(s.display_winner(), (7, 0));

    let s = in_game(pl(7, 0, 0, vec![(1, 1); 4], vec![]), vec![pl(2, 0, 0, vec![(1, 1); 4], vec![])]);
    assert_eq!(s.match_winner(), (7, 4));
}

#[test]
fn winner_law_holds_on_an_example() {
    let sizes = [2usize, 6, 6, 1];
    let others: Vec<Player> = (1..4).map(|k| pl(k as u32 + 1, 0, 0, vec![(0, 0); sizes[k]], vec![])).collect();
    let s = in_game(pl(1, 0, 0, vec![(0, 0); sizes[0]], vec![]), others);
    let (w, m) = s.match_winner();
    assert!(sizes.iter().all(|&z| z <= m));
    assert_eq!((w, m), (2, 6));
}

#[test]
fn check_clock_ends_the_match_and_then_the_program() {
    let mut s = in_game(pl(1, 0, 0, vec![(0, 0); 2], vec![]), vec![pl(2, 0, 0, vec![(0, 0)], vec![])]);
    assert!(s.check_clock(false, true).is_none());
    assert!(!s.game_over);

    let a = s.check_clock(true, false).expect("the match ends");
    assert!(s.game_over);
    assert_eq!(a.len(), 5);
    assert!(matches!(a[0], ClientAction::StartShutdownClock));
    assert!(matches!(a[1], ClientAction::PauseMusic));
    assert!(matches!(a[2], ClientAction::Play(Sound::GameEnd)));
    assert!(matches!(a[3], ClientAction::ReportWinner { winner_id: 1, territory_size: 2 }));
    assert!(matches!(a[4], ClientAction::SendTcp(GameMessage::GameOver { winner_id: 1, territory_size: 2 })));

    assert!(s.check_clock(true, false).unwrap().is_empty());
    let a = s.check_clock(false, true).unwrap();
    assert!(a.len() == 1 && matches!(a[0], ClientAction::Exit));

    let mut s = in_game(pl(1, 0, 0, vec![], vec![]), vec![pl(2, 0, 0, vec![(0, 0)], vec![])]);
    let a = s.check_clock(true, false).unwrap();
    assert!(matches!(a[2], ClientAction::Play(Sound::Death)));
    assert!(matches!(a[3], ClientAction::ReportWinner { winner_id: 2, territory_size: 1 }));
}

#[test]
fn flood_fill_finds_the_cells_left_of_a_single_trail_cell() {
    let s = in_game(pl(1, 0, 0, vec![], vec![(100, 100)]), vec![]);
    // In the order the search enters them: the start cell first, then outward.
    assert_eq!(s.flood_fill(), vec![(80, 100), (60, 100), (40, 100)]);
}

#[test]
fn flood_fill_counts_other_trails_as_boundary() {
    // Another trail at (140, 100) makes the row's left part cross twice.
    let s = in_game(pl(1, 0, 0, vec![], vec![(100, 100)]), vec![pl(2, 0, 0, vec![], vec![(140, 100)])]);
    let mut got = s.flood_fill();
    got.sort();
    assert_eq!(got, vec![(120, 100)]);
}

#[test]
fn is_point_inside_counts_boundary_cells_on_the_ray() {
    let b = vec![(100, 100), (140, 100), (60, 40)];
    assert!(is_point_inside((120, 100), &b));
    assert!(!is_point_inside((80, 100), &b));
    assert!(!is_point_inside((160, 100), &b));
    assert!(is_point_inside((0, 40), &b));
    assert!(!is_point_inside((60, 60), &b));
    // The ray stops at the field's right edge.
    assert!(!is_point_inside((0, 0), &vec![(820, 0)]));
}

#[test]
fn validate_territory_claim_checks_size_and_contact() {
    let s = in_game(pl(1, 0, 0, vec![(0, 0), (20, 0)], vec![]), vec![]);
    assert!(s.validate_territory_claim(&vec![(40, 20)]));
    assert!(!s.validate_territory_claim(&vec![(80, 80)]));
    assert!(s.validate_territory_claim(&vec![]));
    assert!(s.validate_territory_claim(&vec![(0, 0); 202]));
    assert!(!s.validate_territory_claim(&vec![(0, 0); 203]));
    let empty = in_game(pl(1, 0, 0, vec![], vec![]), vec![]);
    assert!(empty.validate_territory_claim(&vec![(500, 500)]));
}

#[test]
fn check_trail_collision_names_the_trail_owner() {
    let others = vec![pl(5, 0, 0, vec![], vec![(40, 40)]), pl(7, 0, 0, vec![], vec![(0, 80)]), pl(9, 0, 0, vec![], vec![(0, 80)])];
    let s = in_game(pl(1, 41, 360, vec![], vec![]), others);
    assert_eq!(s.check_trail_collision(), Some(7));
    let s = in_game(pl(1, 200, 360, vec![], vec![]), vec![pl(7, 0, 0, vec![], vec![(0, 80)])]);
    assert_eq!(s.check_trail_collision(), None);
}

#[test]
fn send_death_message_reports_the_victim() {
    let s = GameState::new();
    assert!(matches!(s.send_death_message(9), ClientAction::SendUdp(GameMessage::PlayerDied { id: 9 })));
}

#[test]
fn a_frame_outside_the_territory_extends_the_trail() {
    let mut s = in_game(pl(1, 84, 360, vec![(0, 80)], vec![]), vec![]);
    s.current_direction = Some(Direction::Right);
    let a = s.move_and_claim();
    assert_eq!((s.player.x, s.player.y), (87, 360));
    assert_eq!(s.player.current_path, vec![(20, 80)]);
    assert_eq!(a.len(), 3);
    assert!(matches!(a[0], ClientAction::SendUdp(_)));
    assert!(matches!(a[1], ClientAction::SendUdp(_)));
    assert!(matches!(a[2], ClientAction::SendTcp(_)));
    assert!(a.iter().all(|x| update_of(x).map(|p| p.current_path == vec![(20, 80)]) == Some(true)));

    // Staying on the same cell adds nothing.
    let a = s.move_and_claim();
    assert_eq!(s.player.current_path, vec![(20, 80)]);
    assert_eq!(a.len(), 2);
}

#[test]
fn a_frame_on_another_trail_reports_its_owner() {
    let mut s = in_game(pl(1, 44, 360, vec![], vec![(60, 60)]), vec![pl(4, 0, 0, vec![], vec![(0, 80)])]);
    s.current_direction = Some(Direction::Left);
    let a = s.move_and_claim();
    assert_eq!(a.len(), 2);
    assert!(matches!(a[0], ClientAction::SendUdp(GameMessage::PlayerDied { id: 4 })));
    assert!(matches!(a[1], ClientAction::SendTcp(GameMessage::PlayerDied { id: 4 })));
    assert_eq!(s.player.current_path, vec![(60, 60)]);
    assert_eq!(s.player.x, 41);
}

#[test]
fn crossing_the_own_trail_respawns() {
    // The trail runs (0,80) (20,80) (40,80); moving left onto (0,80) closes on itself.
    let mut s = in_game(pl(1, 81, 360, vec![(200, 200)], vec![(0, 80), (20, 80), (40, 80)]), vec![]);
    s.current_direction = Some(Direction::Left);
    let a = s.move_and_claim();
    assert_eq!((s.player.x, s.player.y), (840, 840));
    assert!(s.player.current_path.is_empty());
    assert_eq!(a.len(), 2);
    assert!(matches!(a[0], ClientAction::SendUdp(GameMessage::PlayerUpdate(_))));
    assert!(matches!(a[1], ClientAction::Play(Sound::Death)));
}

#[test]
fn closing_a_trail_claims_the_enclosed_cells_and_steals_them() {
    let territory = vec![(0, 60), (0, 80), (0, 100)];
    let path = vec![(20, 60), (40, 60), (40, 80), (40, 100), (20, 100)];
    let other = pl(5, 0, 0, vec![(20, 80), (100, 100), (40, 60)], vec![]);
    let mut s = in_game(pl(1, 44, 360, territory.clone(), path.clone()), vec![other]);
    s.current_direction = Some(Direction::Left);
    let a = s.move_and_claim();

    assert_eq!(
        s.player.territory,
        vec![(0, 60), (0, 80), (0, 100), (20, 60), (40, 60), (40, 80), (40, 100), (20, 100), (20, 80)]
    );
    assert!(s.player.current_path.is_empty());
    assert_eq!((s.player.x, s.player.y), (41, 360));
    assert_eq!(s.other_players[0].territory, vec![(100, 100)]);

    assert_eq!(a.len(), 6);
    assert!(matches!(a[0], ClientAction::Play(Sound::TerritoryClaim)));
    assert!(matches!(&a[1], ClientAction::SendUdp(GameMessage::PlayerUpdate(p)) if p.id == 5 && p.territory == vec![(100, 100)]));
    assert!(matches!(&a[2], ClientAction::SendTcp(GameMessage::PlayerUpdate(p)) if p.id == 5));
    match &a[3] {
        ClientAction::SendTcp(GameMessage::TerritoryUpdate { player_id, removed_points, new_territory }) => {
            assert_eq!(*player_id, 5);
            assert_eq!(removed_points, &vec![(20, 80)]);
            assert_eq!(new_territory, &vec![(100, 100)]);
        }
        other => panic!("unexpected action {:?}", other),
    }
    assert!(matches!(&a[4], ClientAction::SendUdp(GameMessage::PlayerUpdate(p)) if p.id == 1 && p.territory.len() == 9));
    assert!(matches!(&a[5], ClientAction::SendTcp(GameMessage::PlayerUpdate(p)) if p.id == 1));
}

#[test]
fn a_claim_across_another_trail_is_refused() {
    let territory = vec![(0, 60), (0, 80), (0, 100)];
    let path = vec![(20, 60), (40, 60)];
    let other = pl(5, 0, 0, vec![], vec![(40, 60), (500, 500)]);
    let mut s = in_game(pl(1, 44, 360, territory.clone(), path), vec![other]);
    s.current_direction = Some(Direction::Left);
    let a = s.move_and_claim();
    assert_eq!(s.player.territory, territory);
    assert!(s.player.current_path.is_empty());
    assert_eq!(a.len(), 1);
    assert!(matches!(a[0], ClientAction::SendUdp(GameMessage::PlayerUpdate(_))));
    let cell = ((s.player.x / 4 - 10) as i32, (s.player.y / 4 - 10) as i32);
    assert!(territory.contains(&cell));
}

#[test]
fn scoreboard_lists_self_first_then_by_id() {
    let mut s = in_game(pl(5, 0, 0, vec![(0, 0)], vec![]), vec![pl(9, 0, 0, vec![], vec![]), pl(2, 0, 0, vec![(1, 1); 3], vec![])]);
    s.player.color = (1, 2, 3);
    let b = s.scoreboard();
    assert_eq!(b, vec![(5, 1, (1, 2, 3)), (2, 3, (100, 110, 120)), (9, 0, (100, 110, 120))]);
}

#[test]
fn upsert_replaces_by_id_and_remove_drops_it() {
    let mut list = vec![pl(1, 0, 0, vec![], vec![]), pl(2, 0, 0, vec![], vec![])];
    upsert(&mut list, pl(2, 50, 50, vec![], vec![]));
    assert_eq!(list.len(), 2);
    assert_eq!(list[1].x, 50);
    upsert(&mut list, pl(3, 0, 0, vec![], vec![]));
    assert_eq!(list.iter().map(|p| p.id).collect::<Vec<_>>(), vec![1, 2, 3]);
    remove_player(&mut list, 2);
    assert_eq!(list.iter().map(|p| p.id).collect::<Vec<_>>(), vec![1, 3]);
    remove_player(&mut list, 42);
    assert_eq!(list.len(), 2);
}

#[test]
fn leave_law_a_departure_undoes_an_update() {
    let start = || vec![pl(1, 0, 0, vec![], vec![]), pl(2, 0, 0, vec![], vec![])];
    let mut a = start();
    upsert(&mut a, pl(3, 9, 9, vec![], vec![]));
    remove_player(&mut a, 3);
    let mut b = start();
    remove_player(&mut b, 3);
    assert_eq!(a.iter().map(|p| p.id).collect::<Vec<_>>(), b.iter().map(|p| p.id).collect::<Vec<_>>());

    let mut a = start();
    upsert(&mut a, pl(2, 9, 9, vec![], vec![]));
    remove_player(&mut a, 2);
    assert_eq!(a.iter().map(|p| p.id).collect::<Vec<_>>(), vec![1]);
}

#[test]
fn toggle_law_two_presses_restore_the_state() {
    let mut s = in_game(pl(4, 12, 34, vec![(0, 0)], vec![(20, 0)]), vec![pl(2, 0, 0, vec![], vec![])]);
    s.toggle_ready();
    s.toggle_ready();
    assert!(!s.player.ready);
    assert_eq!((s.player.id, s.player.x, s.player.y), (4, 12, 34));
    assert_eq!(s.player.territory, vec![(0, 0)]);
    assert_eq!(s.player.current_path, vec![(20, 0)]);
    assert_eq!(s.other_players.len(), 1);
}

#[test]
fn self_law_the_own_id_never_joins_the_others() {
    let mut s = GameState::new();
    s.player.id = 1;
    s.handle_lobby_message(GameMessage::PlayerJoined(pl(1, 0, 0, vec![], vec![])));
    s.handle_lobby_message(GameMessage::PlayerUpdate(pl(1, 0, 0, vec![], vec![])));
    s.handle_lobby_message(GameMessage::GameState(vec![pl(1, 0, 0, vec![], vec![]), pl(2, 0, 0, vec![], vec![])]));
    s.handle_lobby_message(GameMessage::GameStarting);
    s.handle_game_message(GameMessage::GameState(vec![pl(2, 0, 0, vec![], vec![]), pl(1, 0, 0, vec![(0, 0)], vec![])]));
    s.handle_game_message(GameMessage::PlayerUpdate(pl(1, 0, 0, vec![], vec![])));
    s.move_and_claim();
    assert!(s.other_players.iter().all(|p| p.id != 1));
    assert_eq!(s.other_players.len(), 1);
}

fn input() -> splix::client::FrameInput {
    splix::client::FrameInput {
        ready_key: false,
        ms_since_ready_toggle: 0,
        match_time_up: false,
        shutdown_due: false,
        up: false,
        down: false,
        left: false,
        right: false,
    }
}

#[test]
fn update_in_the_lobby_spaces_out_ready_presses() {
    let mut s = GameState::new();
    s.player.id = 2;
    let mut i = input();
    i.ready_key = true;
    i.ms_since_ready_toggle = 400;
    assert!(s.update(i, vec![]).is_empty());
    assert!(!s.player.ready);

    let mut i = input();
    i.ready_key = true;
    i.ms_since_ready_toggle = 600;
    let a = s.update(i, vec![GameMessage::GameUpdate("x".to_string())]);
    assert!(s.player.ready);
    assert_eq!(a.len(), 3);
    assert!(matches!(a[0], ClientAction::RestartReadyClock));
    assert!(matches!(a[1], ClientAction::SendUdp(GameMessage::PlayerReady { id: 2 })));
    assert!(matches!(a[2], ClientAction::SendTcp(GameMessage::PlayerReady { id: 2 })));
    assert_eq!(s.countdown_message.as_deref(), Some("x"));
}

#[test]
fn phase_law_the_match_starts_only_from_the_lobby() {
    let mut s = GameState::new();
    s.player.id = 1;
    let a = s.update(input(), vec![
        GameMessage::PlayerJoined(pl(2, 0, 0, vec![], vec![])),
        GameMessage::GameStarting,
        GameMessage::GameUpdate("late".to_string()),
    ]);
    assert_eq!(s.game_state, GamePhase::InGame);
    assert!(!s.in_lobby);
    assert!(a.iter().any(|x| matches!(x, ClientAction::StartMatchClock)));
    assert_eq!(s.other_players.len(), 1);
    // A later start message changes nothing; the phase stays the match.
    s.player.territory = vec![(100, 100)];
    s.update(input(), vec![GameMessage::GameStarting]);
    assert_eq!(s.game_state, GamePhase::InGame);
    assert!(!s.in_lobby);
}

#[test]
fn update_in_the_match_reads_messages_then_plays_a_frame() {
    let mut s = in_game(pl(1, 84, 360, vec![(0, 80)], vec![]), vec![pl(2, 0, 0, vec![], vec![(500, 500)])]);
    let mut i = input();
    i.right = true;
    let a = s.update(i, vec![GameMessage::PlayerDied { id: 2 }, GameMessage::GameTime(9)]);
    assert!(s.other_players[0].current_path.is_empty());
    assert_eq!(s.current_direction, Some(Direction::Right));
    assert_eq!(s.player.current_path, vec![(20, 80)]);
    assert!(matches!(a[0], ClientAction::SetTimeOffset(9)));
    assert_eq!(a.len(), 4);

    // Once the time is up the clock ends the frame and the messages stay unread.
    let mut i = input();
    i.match_time_up = true;
    let a = s.update(i, vec![GameMessage::PlayerLeft { id: 2 }]);
    assert!(s.game_over);
    assert_eq!(s.other_players.len(), 1);
    assert!(matches!(a[0], ClientAction::StartShutdownClock));
    let mut i = input();
    i.shutdown_due = true;
    let a = s.update(i, vec![]);
    assert!(a.len() == 1 && matches!(a[0], ClientAction::Exit));
}

#[test]
fn the_join_reply_sets_the_own_player_or_turns_away() {
    let mut s = GameState::new();
    assert!(s.accept_join_reply(GameMessage::LobbyFull));
    assert_eq!(s.player.id, 0);
    assert!(!s.accept_join_reply(GameMessage::PlayerUpdate(pl(3, 200, 200, vec![(40, 40)], vec![]))));
    assert_eq!((s.player.id, s.player.x), (3, 200));
    assert!(!s.accept_join_reply(GameMessage::Ack(1)));
    assert_eq!(s.player.id, 3);

    let ups = s.initial_updates(GameMessage::GameState(vec![
        pl(1, 0, 0, vec![], vec![]),
        pl(3, 0, 0, vec![], vec![]),
        pl(2, 0, 0, vec![], vec![]),
    ]));
    let ids: Vec<u32> = ups
        .iter()
        .map(|m| match m {
            GameMessage::PlayerUpdate(p) => p.id,
            _ => 0,
        })
        .collect();
    assert_eq!(ids, vec![1, 2]);
    assert!(s.initial_updates(GameMessage::LobbyFull).is_empty());
}

#[test]
fn ray_law_one_more_boundary_point_flips_only_on_the_ray() {
    let b = vec![(100, 100), (60, 40)];
    let p = (40, 100);
    let before = is_point_inside(p, &b);
    let mut on = b.clone();
    on.push((200, 100));
    assert_eq!(is_point_inside(p, &on), !before);
    let mut off = b.clone();
    off.push((30, 100));
    assert_eq!(is_point_inside(p, &off), before);
    let mut beyond = b.clone();
    beyond.push((820, 100));
    assert_eq!(is_point_inside(p, &beyond), before);
}
