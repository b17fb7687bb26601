//! Properties of the game rules that hold across every input and span
//! calls: where a player can be, what a claim takes and gives, who a trail
//! hit reports, where a respawn lands, who wins, what the server keeps
//! apart, and which calls undo each other.
use vstd::prelude::*;
use crate::shared::{PlayerView, Point, MessageView};
use crate::field::{
    FIELD_MIN_X, FIELD_MAX_X, FIELD_MIN_Y, FIELD_MAX_Y, Direction, advanced, grid_line, bounds,
    touches, captured, enclosed, xs, ys, taken, steps, lemma_steps, lattice, lattice_rows,
    lattice_row, is_enclosed,
};
use crate::server::{
    ServerView, ServerActionView, server_outcome, server_wf, has_id, index_of_id, all_ready,
    start_outcome, new_player, MAX_PLAYERS, joined, lemma_same_ids_wf, update_players,
    server_respawned,
};
use crate::client::{
    distinct_ids, upserted, removed_id, toggled, lobby_outcome, game_message_outcome, absorb_lobby,
    absorb_game, cleared_trail,
    ClientView, claim_outcome, claim_clear, claim_reach, strip_claimed, frame_outcome, trail_hit,
    first_on_trail, on_trail, respawned, steal_all, is_match_winner, first_largest,
    lemma_match_winner_bound, trail_bounds, inside, ray_hits,
};

verus! {

/// Every frame's move ends inside the field: 0..=800 px across and
/// 45..=600 px down, whatever the start, heading and speed.
pub proof fn lemma_move_stays_in_field(x: int, y: int, dir: Option<Direction>, speed: int)
    ensures
        FIELD_MIN_X <= advanced(x, y, dir, speed).0 <= FIELD_MAX_X,
        FIELD_MIN_Y <= advanced(x, y, dir, speed).1 <= FIELD_MAX_Y,
{
}

/// A claim that goes through keeps the old territory as it was, adds every
/// cell of the trail, adds every lattice cell of the trail's box that the
/// outside flood does not reach, and clears the trail.
pub proof fn lemma_claim_extends_territory(s: ClientView, r: usize)
    requires
        s.player.current_path.len() > 0,
        claim_clear(s.player.current_path, s.others),
        s.player.territory.len() == 0 || touches(s.player.current_path, s.player.territory),
    ensures
        ({
            let out = claim_outcome(s, r).0;
            let t = s.player.territory;
            let path = s.player.current_path;
            let bb = bounds(path);
            let t1 = t + path;
            let reach = claim_reach(t1, strip_claimed(s.others, path), bb);
            &&& out.player.territory.take(t.len() as int) == t
            &&& forall|k: int| 0 <= k < path.len() ==> out.player.territory.contains(#[trigger] path[k])
            &&& forall|k: int|
                0 <= k < enclosed(bb, reach, t1).len() ==> out.player.territory.contains(
                    #[trigger] enclosed(bb, reach, t1)[k],
                )
            &&& out.player.current_path.len() == 0
            &&& out.player.x == s.player.x && out.player.y == s.player.y
        }),
{
    let out = claim_outcome(s, r).0;
    let t = s.player.territory;
    let path = s.player.current_path;
    let bb = bounds(path);
    let t1 = t + path;
    let reach = claim_reach(t1, strip_claimed(s.others, path), bb);
    let fill = enclosed(bb, reach, t1);
    assert(out.player.territory == t1 + fill);
    assert(out.player.territory.take(t.len() as int) =~= t);
    assert forall|k: int| 0 <= k < path.len() implies out.player.territory.contains(#[trigger] path[k]) by {
        assert(out.player.territory[t.len() + k] == path[k]);
    }
    assert forall|k: int| 0 <= k < fill.len() implies out.player.territory.contains(#[trigger] fill[k]) by {
        assert(out.player.territory[t1.len() + k] == fill[k]);
    }
}

/// Stealing by enclosure: after a claim that goes through, no other
/// player holds a point that the claim encloses (a point of the trail's
/// box the outside flood does not reach), and no other player gains a
/// point.
pub proof fn lemma_claim_takes_enclosed(s: ClientView, r: usize)
    requires
        s.player.current_path.len() > 0,
        claim_clear(s.player.current_path, s.others),
        s.player.territory.len() == 0 || touches(s.player.current_path, s.player.territory),
    ensures
        ({
            let out = claim_outcome(s, r).0;
            let path = s.player.current_path;
            let bb = bounds(path);
            let reach = claim_reach(s.player.territory + path, strip_claimed(s.others, path), bb);
            &&& out.others.len() == s.others.len()
            &&& forall|i: int, p: Point|
                0 <= i < out.others.len() && #[trigger] out.others[i].territory.contains(p) ==> !captured(
                    bb,
                    reach,
                    p,
                ) && !path.contains(p) && s.others[i].territory.contains(p)
            &&& forall|i: int| 0 <= i < out.others.len() ==> (#[trigger] out.others[i]).id == s.others[i].id
        }),
{
    let out = claim_outcome(s, r).0;
    let path = s.player.current_path;
    let bb = bounds(path);
    let others1 = strip_claimed(s.others, path);
    let reach = claim_reach(s.player.territory + path, others1, bb);
    assert(out.others == steal_all(others1, bb, reach));
    assert forall|i: int, p: Point|
        0 <= i < out.others.len() && #[trigger] out.others[i].territory.contains(p) implies !captured(
            bb,
            reach,
            p,
        ) && !path.contains(p) && s.others[i].territory.contains(p) by {
        let keep = |q: Point| !captured(bb, reach, q);
        let nopath = |q: Point| !path.contains(q);
        let t0 = s.others[i].territory;
        let t1 = t0.filter(nopath);
        assert(others1[i].territory == t1);
        assert(out.others[i].territory == t1.filter(keep));
        broadcast use vstd::seq_lib::group_filter_ensures;
        t1.lemma_filter_contains_rev(keep, p);
        t0.lemma_filter_contains_rev(nopath, p);
        let k = choose|k: int| 0 <= k < t1.filter(keep).len() && t1.filter(keep)[k] == p;
        let k2 = choose|k2: int| 0 <= k2 < t1.len() && t1[k2] == p;
    }
}

/// Running into another player's trail reports the first such player's
/// death on both channels, and changes nothing but the mover's position.
pub proof fn lemma_trail_hit_reports_owner(s: ClientView, r: usize, i: int)
    requires
        ({
            let pos = advanced(s.player.x as int, s.player.y as int, s.direction, s.movement_speed as int);
            first_on_trail(s.others, (grid_line(pos.0) as i32, grid_line(pos.1) as i32), i)
        }),
    ensures
        frame_outcome(s, r).1 == seq![
            crate::client::ActionView::SendUdp(crate::shared::MessageView::PlayerDied { id: s.others[i].id }),
            crate::client::ActionView::SendTcp(crate::shared::MessageView::PlayerDied { id: s.others[i].id }),
        ],
        frame_outcome(s, r).0.others == s.others,
        frame_outcome(s, r).0.player.territory == s.player.territory,
        frame_outcome(s, r).0.player.current_path == s.player.current_path,
{
    let pos = advanced(s.player.x as int, s.player.y as int, s.direction, s.movement_speed as int);
    let cur: Point = (grid_line(pos.0) as i32, grid_line(pos.1) as i32);
    let k = choose|k: int| first_on_trail(s.others, cur, k);
    if k < i {
        assert(!on_trail(s.others[k], cur));
    } else if k > i {
        assert(!on_trail(s.others[i], cur));
    }
    assert(trail_hit(s.others, cur) == Some(i));
}

/// A respawn of a player holding territory puts it in the middle of one of
/// its territory cells (10 px in from the cell's corner) with an empty
/// trail, and keeps its territory.
pub proof fn lemma_respawn_lands_in_territory(p: PlayerView, r: usize)
    requires
        p.territory.len() > 0,
    ensures
        exists|k: int|
            0 <= k < p.territory.len() && respawned(p, r).x == (#[trigger] p.territory[k]).0 * 4 + 40
                && respawned(p, r).y == p.territory[k].1 * 4 + 40,
        respawned(p, r).current_path.len() == 0,
        respawned(p, r).territory == p.territory,
{
    let k = (r as int) % (p.territory.len() as int);
    assert(0 <= k < p.territory.len());
    assert(respawned(p, r).x == p.territory[k].0 * 4 + 40);
}

/// The winner of a match holds at least as much territory as anyone, and,
/// unless no one holds any, is a player holding exactly that much.
pub proof fn lemma_winner_holds_most(st: Seq<(u32, nat)>, w: u32, m: nat)
    requires
        is_match_winner(st, w, m),
    ensures
        forall|j: int| 0 <= j < st.len() ==> (#[trigger] st[j]).1 <= m,
        m > 0 ==> exists|j: int| 0 <= j < st.len() && st[j] == (w, m),
        m == 0 ==> w == 0,
{
    lemma_match_winner_bound(st, w, m);
    if exists|i: int| 0 <= i < st.len() && st[i].1 > 0 {
        let i = choose|i: int| first_largest(st, i) && st[i] == (w, m);
        let j = choose|j: int| 0 <= j < st.len() && st[j].1 > 0;
        assert(st[j].1 <= st[i].1);
    }
}

/// Toggling a player's readiness twice restores every player, whatever the
/// lobby did in between.
pub proof fn lemma_ready_twice_restores(s: ServerView, id: u32, r1: usize, r2: usize)
    requires
        server_wf(s),
        has_id(s.players, id),
    ensures
        server_outcome(
            server_outcome(s, MessageView::PlayerReady { id }, r1).0,
            MessageView::PlayerReady { id },
            r2,
        ).0.players == s.players,
{
    let i = index_of_id(s.players, id);
    let p2 = PlayerView { ready: !s.players[i].ready, ..s.players[i] };
    let ps1 = s.players.update(i, p2);
    let s1 = server_outcome(s, MessageView::PlayerReady { id }, r1).0;
    assert(s1.players == ps1);
    assert(ps1[i].id == id);
    assert(has_id(ps1, id));
    let j = index_of_id(ps1, id);
    if j != i {
        assert(s.players[j].id == id);
        assert(s.players[j].id != s.players[i].id);
    }
    let p3 = PlayerView { ready: !ps1[i].ready, ..ps1[i] };
    assert(p3 == s.players[i]);
    assert(ps1.update(i, p3) =~= s.players);
}

/// The countdown starts exactly when everyone in the lobby is ready and no
/// countdown runs yet; while someone is not ready, any countdown is
/// cancelled. The check never changes the players.
pub proof fn lemma_countdown_needs_all_ready(s: ServerView)
    ensures
        start_outcome(s).1.contains(ServerActionView::StartCountdown) <==> (all_ready(s.players)
            && !s.game_started),
        !all_ready(s.players) ==> start_outcome(s).0.countdown_cancel && !start_outcome(s).0.game_started,
        start_outcome(s).0.players == s.players,
{
    let a = start_outcome(s).1;
    if all_ready(s.players) && !s.game_started {
        assert(a[0] == ServerActionView::StartCountdown);
    } else {
        assert forall|k: int| 0 <= k < a.len() implies a[k] != ServerActionView::StartCountdown by {
        }
    }
}

/// A death reported to the server puts the player, when it holds territory,
/// in the middle of one of its territory cells with an empty trail; its
/// territory and every other player stay as they were.
pub proof fn lemma_server_respawn_in_territory(s: ServerView, id: u32, r: usize)
    requires
        !s.game_over,
        has_id(s.players, id),
        s.players[index_of_id(s.players, id)].territory.len() > 0,
    ensures
        ({
            let out = server_outcome(s, MessageView::PlayerDied { id }, r).0;
            let i = index_of_id(s.players, id);
            let t = s.players[i].territory;
            &&& out.players.len() == s.players.len()
            &&& out.players[i].id == id
            &&& out.players[i].territory == t
            &&& out.players[i].current_path.len() == 0
            &&& exists|k: int|
                0 <= k < t.len() && out.players[i].x == (#[trigger] t[k]).0 * 4 + 40 && out.players[i].y
                    == t[k].1 * 4 + 40
            &&& forall|j: int| 0 <= j < s.players.len() && j != i ==> #[trigger] out.players[j] == s.players[j]
        }),
{
    let out = server_outcome(s, MessageView::PlayerDied { id }, r).0;
    let i = index_of_id(s.players, id);
    let t = s.players[i].territory;
    let k = (r as int) % (t.len() as int);
    assert(0 <= k < t.len());
    assert(out.players[i].x == t[k].0 * 4 + 40);
}

/// A player's report replaces its entry as it was sent; every other player
/// keeps its id, only loses points, and afterwards holds none of the
/// reporter's territory.
pub proof fn lemma_report_clears_others(s: ServerView, u: PlayerView, r: usize)
    requires
        !s.game_over,
        has_id(s.players, u.id),
    ensures
        ({
            let out = server_outcome(s, MessageView::PlayerUpdate(u), r).0;
            let i = index_of_id(s.players, u.id);
            &&& out.players.len() == s.players.len()
            &&& out.players[i] == u
            &&& forall|j: int| 0 <= j < out.players.len() ==> (#[trigger] out.players[j]).id == s.players[j].id
            &&& forall|j: int, p: Point|
                0 <= j < out.players.len() && j != i && #[trigger] out.players[j].territory.contains(p)
                    ==> s.players[j].territory.contains(p) && !u.territory.contains(p)
        }),
{
    let out = server_outcome(s, MessageView::PlayerUpdate(u), r).0;
    let i = index_of_id(s.players, u.id);
    let bb = trail_bounds(u.territory);
    assert forall|j: int, p: Point|
        0 <= j < out.players.len() && j != i && #[trigger] out.players[j].territory.contains(p)
            implies s.players[j].territory.contains(p) && !u.territory.contains(p) by {
        broadcast use vstd::seq_lib::group_filter_ensures;
        let keep = |q: Point| !taken(trail_bounds(u.territory), u.territory, q);
        let t0 = s.players[j].territory;
        assert(out.players[j].territory == t0.filter(keep));
        t0.lemma_filter_contains_rev(keep, p);
        let k = choose|k: int| 0 <= k < t0.filter(keep).len() && t0.filter(keep)[k] == p;
        assert(keep(p));
        if u.territory.contains(p) {
            let m = choose|m: int| 0 <= m < u.territory.len() && u.territory[m] == p;
            xs(u.territory).min_ensures();
            xs(u.territory).max_ensures();
            ys(u.territory).min_ensures();
            ys(u.territory).max_ensures();
            assert(xs(u.territory)[m] == p.0);
            assert(ys(u.territory)[m] == p.1);
            assert(taken(bb, u.territory, p));
        }
    }
}

proof fn lemma_filter_update_dropped(
    s: Seq<PlayerView>,
    pred: spec_fn(PlayerView) -> bool,
    i: int,
    p: PlayerView,
)
    requires
        0 <= i < s.len(),
        !pred(s[i]),
        !pred(p),
    ensures
        s.update(i, p).filter(pred) == s.filter(pred),
    decreases s.len(),
{
    let u = s.update(i, p);
    reveal_with_fuel(Seq::filter, 1);
    if i == s.len() - 1 {
        assert(u.drop_last() =~= s.drop_last());
    } else {
        lemma_filter_update_dropped(s.drop_last(), pred, i, p);
        assert(u.drop_last() =~= s.drop_last().update(i, p));
    }
}

/// On the client, a player's departure after an update of it leaves the
/// other players as the departure alone would.
pub proof fn lemma_leave_undoes_update(others: Seq<PlayerView>, p: PlayerView)
    requires
        distinct_ids(others),
    ensures
        removed_id(upserted(others, p), p.id) == removed_id(others, p.id),
{
    let pred = |o: PlayerView| o.id != p.id;
    reveal_with_fuel(Seq::filter, 1);
    if exists|i: int| 0 <= i < others.len() && others[i].id == p.id {
        let i = choose|i: int| 0 <= i < others.len() && others[i].id == p.id;
        lemma_filter_update_dropped(others, pred, i, p);
    } else {
        assert(others.push(p).drop_last() =~= others);
    }
}

/// Under the conqr.io rules, a trail that comes back into the territory joins
/// it: the old territory stays as it was, every trail cell is added, the
/// trail is cleared, and the new state is sent.
pub proof fn lemma_row_claim_extends_territory(s: crate::conqr::client::ClientView, r: usize)
    requires
        s.player.current_path.len() > 0,
        ({
            let pos = advanced(s.player.x as int, s.player.y as int, s.direction, s.movement_speed as int);
            s.player.territory.contains((grid_line(pos.0) as i32, grid_line(pos.1) as i32))
        }),
    ensures
        ({
            let out = crate::conqr::client::frame_outcome(s, r);
            let t = s.player.territory;
            let path = s.player.current_path;
            &&& out.0.player.territory.take(t.len() as int) == t
            &&& forall|k: int| 0 <= k < path.len() ==> out.0.player.territory.contains(#[trigger] path[k])
            &&& out.0.player.current_path.len() == 0
            &&& out.0.others == s.others
            &&& out.1 == seq![crate::conqr::shared::MessageView::PlayerUpdate(out.0.player)]
        }),
{
    let out = crate::conqr::client::frame_outcome(s, r);
    let t = s.player.territory;
    let path = s.player.current_path;
    let t1 = t + path;
    let fill = crate::conqr::client::scan_fill(bounds(path), t1);
    assert(out.0.player.territory == t1 + fill);
    assert(out.0.player.territory.take(t.len() as int) =~= t);
    assert forall|k: int| 0 <= k < path.len() implies out.0.player.territory.contains(#[trigger] path[k]) by {
        assert(out.0.player.territory[t.len() + k] == path[k]);
    }
}

/// Under the conqr.io rules, the server stores a report as it was sent and
/// leaves every other player as it was.
pub proof fn lemma_row_report_stored(
    s: crate::conqr::server::ServerView,
    u: crate::conqr::shared::PlayerView,
)
    requires
        crate::conqr::server::has_id_v(s.players, u.id),
    ensures
        ({
            let out = crate::conqr::server::server_outcome(
                s,
                crate::conqr::shared::MessageView::PlayerUpdate(u),
            ).0;
            let i = crate::conqr::server::index_of_id_v(s.players, u.id);
            &&& out.players.len() == s.players.len()
            &&& out.players[i] == u
            &&& forall|j: int| 0 <= j < s.players.len() && j != i ==> #[trigger] out.players[j] == s.players[j]
        }),
{
}

proof fn lemma_filter_keeps_all(s: Seq<PlayerView>, pred: spec_fn(PlayerView) -> bool)
    requires
        forall|i: int| 0 <= i < s.len() ==> pred(#[trigger] s[i]),
    ensures
        s.filter(pred) == s,
    decreases s.len(),
{
    reveal_with_fuel(Seq::filter, 1);
    if s.len() > 0 {
        lemma_filter_keeps_all(s.drop_last(), pred);
        assert(s.drop_last().push(s.last()) =~= s);
    }
}

/// A client that joins a lobby with room and then leaves leaves the
/// players as they were; only the next id has moved on.
pub proof fn lemma_leave_undoes_join(s: ServerView, color: (u8, u8, u8))
    requires
        server_wf(s),
        s.players.len() < MAX_PLAYERS,
    ensures
        removed_id(s.players.push(new_player(s.next_player_id, color)), s.next_player_id) == s.players,
{
    let p = new_player(s.next_player_id, color);
    let pred = |o: PlayerView| o.id != s.next_player_id;
    reveal_with_fuel(Seq::filter, 1);
    assert(s.players.push(p).drop_last() =~= s.players);
    assert forall|i: int| 0 <= i < s.players.len() implies pred(#[trigger] s.players[i]) by {
        assert(s.players[i].id < s.next_player_id);
    }
    lemma_filter_keeps_all(s.players, pred);
}

/// Pressing the ready key twice on the client restores its state.
pub proof fn lemma_toggle_twice_restores(s: ClientView)
    ensures
        toggled(toggled(s)) == s,
{
    assert(toggled(toggled(s)).player =~= s.player);
}

/// No entry among the other players carries the own id.
pub open spec fn excludes_self(s: ClientView) -> bool {
    forall|k: int| 0 <= k < s.others.len() ==> (#[trigger] s.others[k]).id != s.player.id
}

proof fn lemma_upserted_avoids(o: Seq<PlayerView>, p: PlayerView, me: u32)
    requires
        forall|k: int| 0 <= k < o.len() ==> (#[trigger] o[k]).id != me,
        p.id != me,
    ensures
        forall|k: int| 0 <= k < upserted(o, p).len() ==> (#[trigger] upserted(o, p)[k]).id != me,
{
    if exists|i: int| 0 <= i < o.len() && o[i].id == p.id {
        let i = choose|i: int| 0 <= i < o.len() && o[i].id == p.id;
        assert forall|k: int| 0 <= k < upserted(o, p).len() implies (#[trigger] upserted(o, p)[k]).id != me by {
            if k != i {
                assert(upserted(o, p)[k] == o[k]);
            }
        }
    } else {
        assert forall|k: int| 0 <= k < upserted(o, p).len() implies (#[trigger] upserted(o, p)[k]).id != me by {
            if k < o.len() {
                assert(upserted(o, p)[k] == o[k]);
            }
        }
    }
}

proof fn lemma_removed_avoids(o: Seq<PlayerView>, id: u32, me: u32)
    requires
        forall|k: int| 0 <= k < o.len() ==> (#[trigger] o[k]).id != me,
    ensures
        forall|k: int| 0 <= k < removed_id(o, id).len() ==> (#[trigger] removed_id(o, id)[k]).id != me,
{
    assert forall|k: int| 0 <= k < removed_id(o, id).len() implies (#[trigger] removed_id(o, id)[k]).id
        != me by {
        let t = removed_id(o, id);
        assert(t.contains(t[k]));
        o.lemma_filter_contains_rev(|q: PlayerView| q.id != id, t[k]);
    }
}

proof fn lemma_absorb_lobby_avoids(s: ClientView, ps: Seq<PlayerView>)
    requires
        excludes_self(s),
    ensures
        absorb_lobby(s, ps).player.id == s.player.id,
        excludes_self(absorb_lobby(s, ps)),
    decreases ps.len(),
{
    if ps.len() > 0 {
        lemma_absorb_lobby_avoids(s, ps.drop_last());
        let s1 = absorb_lobby(s, ps.drop_last());
        if ps.last().id != s.player.id {
            lemma_upserted_avoids(s1.others, ps.last(), s.player.id);
        }
    }
}

proof fn lemma_absorb_game_avoids(s: ClientView, ps: Seq<PlayerView>)
    requires
        excludes_self(s),
    ensures
        absorb_game(s, ps).player.id == s.player.id,
        excludes_self(absorb_game(s, ps)),
    decreases ps.len(),
{
    if ps.len() > 0 {
        lemma_absorb_game_avoids(s, ps.drop_last());
        let s1 = absorb_game(s, ps.drop_last());
        if ps.last().id != s.player.id {
            lemma_upserted_avoids(s1.others, ps.last(), s.player.id);
        }
    }
}

/// The client never lists itself among the other players: whatever the
/// server sends, in the lobby or during a match, and whatever a frame of
/// play does, its own id stays out of that list.
pub proof fn lemma_client_keeps_self_out(s: ClientView, m: MessageView, r: usize)
    requires
        excludes_self(s),
    ensures
        excludes_self(lobby_outcome(s, m).0),
        excludes_self(game_message_outcome(s, m, r).0),
        excludes_self(frame_outcome(s, r).0),
{
    let me = s.player.id;
    match m {
        MessageView::PlayerJoined(p) => {
            if p.id != me {
                lemma_upserted_avoids(s.others, p, me);
            }
        },
        MessageView::PlayerUpdate(p) => {
            if p.id != me {
                lemma_upserted_avoids(s.others, p, me);
            }
        },
        MessageView::GameState(ps) => {
            lemma_absorb_lobby_avoids(s, ps);
            lemma_absorb_game_avoids(s, ps);
        },
        MessageView::PlayerLeft { id } => {
            lemma_removed_avoids(s.others, id, me);
        },
        MessageView::PlayerDied { id } => {
            let c = cleared_trail(s.others, id);
            assert forall|k: int| 0 <= k < c.len() implies (#[trigger] c[k]).id != me by {
                assert(c[k].id == s.others[k].id);
            }
        },
        _ => {},
    }
    let path = s.player.current_path;
    let o1 = strip_claimed(s.others, path);
    let bb = bounds(path);
    let reach = claim_reach(s.player.territory + path, o1, bb);
    assert forall|k: int| 0 <= k < s.others.len() implies (#[trigger] o1[k]).id == s.others[k].id
        && steal_all(o1, bb, reach)[k].id == s.others[k].id by {}
}

proof fn lemma_hits_push(r: Seq<Point>, b: Seq<Point>, q: Point)
    requires
        !b.contains(q),
        r.no_duplicates(),
    ensures
        r.filter(|c: Point| b.push(q).contains(c)).len() == r.filter(|c: Point| b.contains(c)).len() + (
        if r.contains(q) {
            1int
        } else {
            0int
        }),
    decreases r.len(),
{
    reveal_with_fuel(Seq::filter, 1);
    if r.len() > 0 {
        let r0 = r.drop_last();
        let x = r.last();
        assert(r0.no_duplicates()) by {
            assert forall|i: int, j: int| 0 <= i < r0.len() && 0 <= j < r0.len() && i != j implies r0[i]
                != r0[j] by {
                assert(r0[i] == r[i] && r0[j] == r[j]);
            }
        }
        lemma_hits_push(r0, b, q);
        assert(b.push(q).contains(x) <==> (b.contains(x) || x == q)) by {
            if b.push(q).contains(x) {
                let i = choose|i: int| 0 <= i < b.len() + 1 && b.push(q)[i] == x;
                if i < b.len() {
                    assert(b[i] == x);
                }
            }
            if b.contains(x) {
                let i = choose|i: int| 0 <= i < b.len() && b[i] == x;
                assert(b.push(q)[i] == x);
            }
            if x == q {
                assert(b.push(q)[b.len() as int] == x);
            }
        }
        assert(r.contains(q) <==> (r0.contains(q) || x == q)) by {
            if r.contains(q) {
                let i = choose|i: int| 0 <= i < r.len() && r[i] == q;
                if i < r0.len() {
                    assert(r0[i] == q);
                }
            }
            if r0.contains(q) {
                let i = choose|i: int| 0 <= i < r0.len() && r0[i] == q;
                assert(r[i] == q);
            }
        }
        if x == q {
            assert(!r0.contains(q)) by {
                if r0.contains(q) {
                    let i = choose|i: int| 0 <= i < r0.len() && r0[i] == q;
                    assert(r[i] == r[r.len() - 1]);
                }
            }
        }
    }
}

/// Ray casting: adding one point to the boundary flips whether a point
/// counts as inside exactly when the new point lies on that point's ray
/// (same row, at or right of it on the 20 px steps, up to 800 px);
/// otherwise the answer stays.
pub proof fn lemma_ray_flip(b: Seq<Point>, q: Point, p: Point)
    requires
        !b.contains(q),
    ensures
        inside(b.push(q), p) == (if q.1 == p.1 && p.0 <= q.0 <= 800 && (q.0 - p.0) % 20 == 0 {
            !inside(b, p)
        } else {
            inside(b, p)
        }),
{
    let n = steps(p.0 as int, 800);
    let ray = Seq::new(n, |k: int| ((p.0 + 20 * k) as i32, p.1));
    assert forall|k: int| 0 <= k < n implies (#[trigger] ray[k]).0 == p.0 + 20 * k by {
        lemma_steps(p.0 as int, 800, k);
    }
    assert(ray.no_duplicates()) by {
        assert forall|i: int, j: int| 0 <= i < ray.len() && 0 <= j < ray.len() && i != j implies ray[i]
            != ray[j] by {
            assert(ray[i].0 == p.0 + 20 * i && ray[j].0 == p.0 + 20 * j);
        }
    }
    lemma_hits_push(ray, b, q);
    assert(ray_hits(b, p) == ray.filter(|c: Point| b.contains(c)));
    assert(ray_hits(b.push(q), p) == ray.filter(|c: Point| b.push(q).contains(c)));
    let on_ray = q.1 == p.1 && p.0 <= q.0 <= 800 && (q.0 - p.0) % 20 == 0;
    if on_ray {
        let k = (q.0 - p.0) / 20;
        assert(q.0 == p.0 + 20 * k);
        lemma_steps(p.0 as int, 800, k);
        assert(ray[k] == q);
    } else if ray.contains(q) {
        let k = choose|k: int| 0 <= k < ray.len() && ray[k] == q;
        lemma_steps(p.0 as int, 800, k);
        assert((20 * k) % 20 == 0) by (nonlinear_arith);
        assert(q.0 - p.0 == 20 * k);
    }
}

/// Ids increase along the list: players are listed in the order they
/// were admitted.
pub open spec fn ids_ascending(ps: Seq<PlayerView>) -> bool {
    forall|i: int, j: int| 0 <= i < j < ps.len() ==> (#[trigger] ps[i]).id < (#[trigger] ps[j]).id
}

/// A datagram message never adds, drops or reorders players, never changes
/// an id, and never moves the next id.
pub proof fn lemma_datagram_keeps_ids(s: ServerView, m: MessageView, r: usize)
    ensures
        server_outcome(s, m, r).0.players.len() == s.players.len(),
        server_outcome(s, m, r).0.next_player_id == s.next_player_id,
        forall|k: int|
            0 <= k < s.players.len() ==> (#[trigger] server_outcome(s, m, r).0.players[k]).id
                == s.players[k].id,
{
    let out = server_outcome(s, m, r).0;
    match m {
        MessageView::PlayerUpdate(u) => {
            if !s.game_over && has_id(s.players, u.id) {
                let i = index_of_id(s.players, u.id);
                assert(s.players[i].id == u.id);
                assert forall|k: int| 0 <= k < s.players.len() implies (#[trigger] out.players[k]).id
                    == s.players[k].id by {
                    assert(out.players == update_players(s.players, i, u));
                }
            }
        },
        MessageView::PlayerDied { id } => {
            if !s.game_over && has_id(s.players, id) {
                let i = index_of_id(s.players, id);
                assert(server_respawned(s.players[i], r).id == s.players[i].id);
            }
        },
        MessageView::PlayerReady { id } => {
            if has_id(s.players, id) {
                let i = index_of_id(s.players, id);
                let p2 = PlayerView { ready: !s.players[i].ready, ..s.players[i] };
                let s1 = ServerView { players: s.players.update(i, p2), ..s };
                assert(out.players == s1.players);
            }
        },
        _ => {},
    }
}

proof fn lemma_filter_ascending(v: Seq<PlayerView>, pred: spec_fn(PlayerView) -> bool)
    requires
        ids_ascending(v),
    ensures
        ids_ascending(v.filter(pred)),
    decreases v.len(),
{
    reveal_with_fuel(Seq::filter, 1);
    if v.len() > 0 {
        let rest = v.drop_last();
        let last = v.last();
        assert(ids_ascending(rest)) by {
            assert forall|i: int, j: int| 0 <= i < j < rest.len() implies (#[trigger] rest[i]).id
                < (#[trigger] rest[j]).id by {
                assert(rest[i] == v[i] && rest[j] == v[j]);
            }
        }
        lemma_filter_ascending(rest, pred);
        if pred(last) {
            let f = rest.filter(pred);
            assert forall|i: int, j: int| 0 <= i < j < f.push(last).len() implies (#[trigger] f.push(
                last,
            )[i]).id < (#[trigger] f.push(last)[j]).id by {
                if j == f.len() {
                    assert(f.contains(f[i]));
                    rest.lemma_filter_contains_rev(pred, f[i]);
                    let k = choose|k: int| 0 <= k < rest.len() && rest[k] == f[i];
                    assert(v[k] == rest[k]);
                    assert(v[k].id < v[v.len() - 1].id);
                } else {
                    assert(f.push(last)[i] == f[i] && f.push(last)[j] == f[j]);
                }
            }
        }
    }
}

/// A join takes the next id for the new player and moves the next id on by
/// one; a full lobby turns the join away and changes nothing. Either way
/// the invariant holds after, and the players stay in admission order.
pub proof fn lemma_join_takes_next_id(s: ServerView, color: (u8, u8, u8))
    requires
        server_wf(s),
        ids_ascending(s.players),
        s.players.len() < MAX_PLAYERS ==> s.next_player_id < u32::MAX,
    ensures
        server_wf(joined(s, color)),
        ids_ascending(joined(s, color).players),
        s.players.len() >= MAX_PLAYERS ==> joined(s, color) == s,
        s.players.len() < MAX_PLAYERS ==> joined(s, color).players.last().id == s.next_player_id
            && joined(s, color).players.drop_last() == s.players && joined(s, color).next_player_id
            == s.next_player_id + 1,
{
    let t = joined(s, color);
    if s.players.len() < MAX_PLAYERS {
        assert(t.players.drop_last() =~= s.players);
        assert forall|i: int, j: int| 0 <= i < j < t.players.len() implies (#[trigger] t.players[i]).id
            < (#[trigger] t.players[j]).id by {
            if j < s.players.len() {
                assert(t.players[i] == s.players[i] && t.players[j] == s.players[j]);
            } else {
                assert(t.players[i] == s.players[i]);
                assert(s.players[i].id < s.next_player_id);
            }
        }
        assert forall|a: int, b: int|
            0 <= a < t.players.len() && 0 <= b < t.players.len() && a != b implies t.players[a].id
            != t.players[b].id by {
            if a < b {
                assert(t.players[a].id < t.players[b].id);
            } else {
                assert(t.players[b].id < t.players[a].id);
            }
        }
    }
}

/// One thing that happens to the server: a connection joins or leaves, a
/// datagram arrives (with the random number a death would draw), the lobby
/// checks readiness, or the match ends.
pub enum LobbyEvent {
    Join((u8, u8, u8)),
    Leave(u32),
    Datagram(MessageView, usize),
    CheckStart,
    EndGame,
}

/// The server after a sequence of events, in order.
pub open spec fn run_lobby(s: ServerView, evs: Seq<LobbyEvent>) -> ServerView
    decreases evs.len(),
{
    if evs.len() == 0 {
        s
    } else {
        let s1 = run_lobby(s, evs.drop_last());
        match evs.last() {
            LobbyEvent::Join(c) => joined(s1, c),
            LobbyEvent::Leave(id) => ServerView { players: removed_id(s1.players, id), ..s1 },
            LobbyEvent::Datagram(m, r) => server_outcome(s1, m, r).0,
            LobbyEvent::CheckStart => start_outcome(s1).0,
            LobbyEvent::EndGame => ServerView { game_over: true, ..s1 },
        }
    }
}

/// Whatever happens, in whatever order — joins, leaves, datagrams, checks,
/// the end of the match — the lobby never holds more than four players,
/// ids stay distinct and below the next id, players stay in admission
/// order, and the next id grows by at most one per event (so, from a new
/// server, admitted players get 1, 2, 3, ... in turn). The next id must
/// not reach `u32::MAX`, where a join would overflow it.
pub proof fn lemma_lobby_run(s: ServerView, evs: Seq<LobbyEvent>)
    requires
        server_wf(s),
        ids_ascending(s.players),
        s.next_player_id + evs.len() < u32::MAX,
    ensures
        server_wf(run_lobby(s, evs)),
        run_lobby(s, evs).players.len() <= MAX_PLAYERS,
        ids_ascending(run_lobby(s, evs).players),
        s.next_player_id <= run_lobby(s, evs).next_player_id <= s.next_player_id + evs.len(),
    decreases evs.len(),
{
    if evs.len() > 0 {
        let s1 = run_lobby(s, evs.drop_last());
        lemma_lobby_run(s, evs.drop_last());
        let t = run_lobby(s, evs);
        match evs.last() {
            LobbyEvent::Join(c) => {
                lemma_join_takes_next_id(s1, c);
            },
            LobbyEvent::Leave(id) => {
                let ps = removed_id(s1.players, id);
                lemma_filter_ascending(s1.players, |o: PlayerView| o.id != id);
                assert forall|k: int| 0 <= k < ps.len() implies (#[trigger] ps[k]).id < s1.next_player_id by {
                    assert(ps.contains(ps[k]));
                    s1.players.lemma_filter_contains_rev(|o: PlayerView| o.id != id, ps[k]);
                    let j = choose|j: int| 0 <= j < s1.players.len() && s1.players[j] == ps[k];
                    assert(s1.players[j].id < s1.next_player_id);
                }
                assert(ps.len() <= s1.players.len()) by {
                    s1.players.lemma_filter_len(|o: PlayerView| o.id != id);
                }
                assert forall|a: int, b: int|
                    0 <= a < ps.len() && 0 <= b < ps.len() && a != b implies ps[a].id != ps[b].id by {
                    if a < b {
                        assert(ps[a].id < ps[b].id);
                    } else {
                        assert(ps[b].id < ps[a].id);
                    }
                }
            },
            LobbyEvent::Datagram(m, r) => {
                lemma_datagram_keeps_ids(s1, m, r);
                lemma_same_ids_wf(s1, t);
                assert forall|i: int, j: int| 0 <= i < j < t.players.len() implies (#[trigger] t.players[i]).id
                    < (#[trigger] t.players[j]).id by {
                    assert(s1.players[i].id < s1.players[j].id);
                }
            },
            LobbyEvent::CheckStart => {
                assert(t.players == s1.players);
            },
            LobbyEvent::EndGame => {},
        }
    }
}

/// The lobby never holds more than four players, whatever happens and in
/// whatever order: joins (a full lobby turns them away), leaves, datagrams,
/// readiness checks and the end of the match. This needs nothing of the
/// ids.
pub proof fn lemma_lobby_cap(s: ServerView, evs: Seq<LobbyEvent>)
    requires
        s.players.len() <= MAX_PLAYERS,
    ensures
        run_lobby(s, evs).players.len() <= MAX_PLAYERS,
    decreases evs.len(),
{
    if evs.len() > 0 {
        let s1 = run_lobby(s, evs.drop_last());
        lemma_lobby_cap(s, evs.drop_last());
        match evs.last() {
            LobbyEvent::Leave(id) => {
                s1.players.lemma_filter_len(|o: PlayerView| o.id != id);
            },
            LobbyEvent::Datagram(m, r) => {
                lemma_datagram_keeps_ids(s1, m, r);
            },
            _ => {},
        }
    }
}

proof fn lemma_in_flatten(rows: Seq<Seq<Point>>, j: int, i: int)
    requires
        0 <= j < rows.len(),
        0 <= i < rows[j].len(),
    ensures
        rows.flatten().contains(rows[j][i]),
    decreases rows.len(),
{
    let init = rows.drop_last();
    assert(init.push(rows.last()) =~= rows);
    init.lemma_flatten_push(rows.last());
    let f0 = init.flatten();
    if j == rows.len() - 1 {
        assert(rows.flatten()[f0.len() + i] == rows[j][i]);
    } else {
        lemma_in_flatten(init, j, i);
        assert(init[j] == rows[j]);
        let k = choose|k: int| 0 <= k < f0.len() && f0[k] == rows[j][i];
        assert(rows.flatten()[k] == f0[k]);
    }
}

/// A claim that goes through takes every cell its trail encloses: each
/// point of the trail's bounding box on the 20 px lattice from the box's
/// corner that is neither territory nor trail, and that the flood from
/// outside the box does not reach, joins the claimant's territory.
pub proof fn lemma_claim_fills_enclosed_cells(s: ClientView, r: usize, p: Point)
    requires
        s.player.current_path.len() > 0,
        claim_clear(s.player.current_path, s.others),
        s.player.territory.len() == 0 || touches(s.player.current_path, s.player.territory),
        bounds(s.player.current_path).0 <= p.0 <= bounds(s.player.current_path).1,
        bounds(s.player.current_path).2 <= p.1 <= bounds(s.player.current_path).3,
        (p.0 - bounds(s.player.current_path).0) % 20 == 0,
        (p.1 - bounds(s.player.current_path).2) % 20 == 0,
        !(s.player.territory + s.player.current_path).contains(p),
        !claim_reach(
            s.player.territory + s.player.current_path,
            strip_claimed(s.others, s.player.current_path),
            bounds(s.player.current_path),
        ).contains((p.0 as int, p.1 as int)),
    ensures
        claim_outcome(s, r).0.player.territory.contains(p),
{
    let path = s.player.current_path;
    let t1 = s.player.territory + path;
    let bb = bounds(path);
    let reach = claim_reach(t1, strip_claimed(s.others, path), bb);
    let i = (p.0 - bb.0) / 20;
    let j = (p.1 - bb.2) / 20;
    assert(p.0 == bb.0 + 20 * i);
    assert(p.1 == bb.2 + 20 * j);
    lemma_steps(bb.0, bb.1, i);
    lemma_steps(bb.2, bb.3, j);
    let rows = lattice_rows(bb, steps(bb.2, bb.3) as int);
    assert(rows[j] == lattice_row(bb.0, bb.1, bb.2 + 20 * j));
    assert(rows[j][i] == p);
    lemma_in_flatten(rows, j, i);
    let l = lattice(bb);
    let pred = |q: Point| is_enclosed(reach, t1, q);
    let k = choose|k: int| 0 <= k < l.len() && l[k] == p;
    l.lemma_filter_contains(pred, k);
    let fill = enclosed(bb, reach, t1);
    assert(fill == l.filter(pred));
    let out = claim_outcome(s, r).0;
    assert(out.player.territory == t1 + fill);
    let m = choose|m: int| 0 <= m < fill.len() && fill[m] == p;
    assert(out.player.territory[t1.len() + m] == p);
}

/// The trail crossing itself: when the frame's new cell is outside the
/// territory, on no other player's trail, and equal to a cell of the own
/// trail short of its last two, the player dies. The frame ends with the
/// death sound, the territory stays, and a player with territory respawns
/// with an empty trail.
pub proof fn lemma_own_crossing_kills(s: ClientView, r: usize, k: int)
    requires
        ({
            let pos = advanced(s.player.x as int, s.player.y as int, s.direction, s.movement_speed as int);
            let cur: Point = (grid_line(pos.0) as i32, grid_line(pos.1) as i32);
            &&& forall|i: int| 0 <= i < s.others.len() ==> !(#[trigger] s.others[i]).current_path.contains(cur)
            &&& !s.player.territory.contains(cur)
            &&& 2 < s.player.current_path.len()
            &&& 0 <= k < s.player.current_path.len() - 2
            &&& s.player.current_path[k] == cur
        }),
    ensures
        frame_outcome(s, r).1.len() > 0,
        frame_outcome(s, r).1.last() == crate::client::ActionView::Play(crate::client::Sound::Death),
        frame_outcome(s, r).0.player.territory == s.player.territory,
        s.player.territory.len() > 0 ==> frame_outcome(s, r).0.player.current_path.len() == 0,
{
    let pos = advanced(s.player.x as int, s.player.y as int, s.direction, s.movement_speed as int);
    let cur: Point = (grid_line(pos.0) as i32, grid_line(pos.1) as i32);
    let n = s.player.current_path.len();
    assert(!exists|i: int| first_on_trail(s.others, cur, i)) by {
        if exists|i: int| first_on_trail(s.others, cur, i) {
            let i = choose|i: int| first_on_trail(s.others, cur, i);
            assert(on_trail(s.others[i], cur));
        }
    }
    assert(trail_hit(s.others, cur).is_none());
    assert(s.player.current_path.take(n - 2)[k] == cur);
    assert(s.player.current_path.take(n - 2).contains(cur));
}

/// Another player's death clears that player's trail and nothing else:
/// every other entry and the own player stay as they were.
pub proof fn lemma_other_death_clears_only_its_trail(s: ClientView, id: u32, r: usize)
    requires
        id != s.player.id,
    ensures
        ({
            let out = crate::client::game_message_outcome(s, MessageView::PlayerDied { id }, r).0;
            &&& out.player == s.player
            &&& out.others.len() == s.others.len()
            &&& forall|j: int| 0 <= j < s.others.len() && s.others[j].id != id ==> #[trigger] out.others[j] == s.others[j]
            &&& forall|j: int|
                0 <= j < s.others.len() && s.others[j].id == id ==> #[trigger] out.others[j] == (PlayerView {
                    current_path: Seq::empty(),
                    ..s.others[j]
                })
        }),
{
}

/// A joining player starts in the corner of its id (`id % 4`: 1 top left,
/// 2 top right, 3 bottom left, 0 bottom right), and its territory is the
/// 3 by 3 block of points 10 px apart around its own start position,
/// column by column.
pub proof fn lemma_start_block_around_start(id: u32, color: (u8, u8, u8))
    ensures
        ({
            let p = new_player(id, color);
            &&& id % 4 == 1 ==> p.x == 200 && p.y == 200
            &&& id % 4 == 2 ==> p.x == 3000 && p.y == 200
            &&& id % 4 == 3 ==> p.x == 200 && p.y == 2200
            &&& id % 4 == 0 ==> p.x == 3000 && p.y == 2200
            &&& p.territory.len() == 9
            &&& forall|k: int|
                0 <= k < 9 ==> #[trigger] p.territory[k] == ((p.x / 4 - 10 + 10 * (k / 3)) as i32, (p.y / 4
                    - 10 + 10 * (k % 3)) as i32)
            &&& p.current_path.len() == 0 && !p.ready && p.id == id
        }),
{
}

/// Under the conqr.io rules too, a joining player's territory is the 3 by
/// 3 block around its own start position, in the corner of its id.
pub proof fn lemma_row_start_block_around_start(id: u32, color: (u8, u8, u8))
    ensures
        ({
            let p = crate::conqr::server::new_player(id, color);
            &&& id % 4 == 1 ==> p.x == 200 && p.y == 200
            &&& id % 4 == 2 ==> p.x == 3000 && p.y == 200
            &&& id % 4 == 3 ==> p.x == 200 && p.y == 2200
            &&& id % 4 == 0 ==> p.x == 3000 && p.y == 2200
            &&& p.territory.len() == 9
            &&& forall|k: int|
                0 <= k < 9 ==> #[trigger] p.territory[k] == ((p.x / 4 - 10 + 10 * (k / 3)) as i32, (p.y / 4
                    - 10 + 10 * (k % 3)) as i32)
            &&& p.current_path.len() == 0 && p.id == id
        }),
{
}

/// The point `(x, y)` of the row is on the boundary.
pub open spec fn boundary_at(b: Seq<Point>, x: int, y: int) -> bool {
    b.contains((x as i32, y as i32))
}

/// A run of boundary cells begins at `x` in the row starting at `x0`: `x`
/// is on the boundary and the cell 20 px to its left is not (or `x` is the
/// row's first cell).
pub open spec fn run_begins(b: Seq<Point>, x0: int, x: int, y: int) -> bool {
    boundary_at(b, x, y) && (x == x0 || !boundary_at(b, x - 20, y))
}

/// The number of boundary runs that begin among the first `k` cells of the
/// row starting at `x0`, 20 px apart.
pub open spec fn runs_left(b: Seq<Point>, x0: int, y: int, k: int) -> nat {
    Seq::new(k as nat, |i: int| i).filter(|i: int| run_begins(b, x0, x0 + 20 * i, y)).len()
}

proof fn lemma_runs_left_counts(b: Seq<Point>, x0: int, x1: int, y: int, k: int)
    requires
        0 <= k <= lattice_row(x0, x1, y).len(),
    ensures
        crate::conqr::client::runs_before(b, lattice_row(x0, x1, y), k) == runs_left(b, x0, y, k),
    decreases k,
{
    if k > 0 {
        lemma_runs_left_counts(b, x0, x1, y, k - 1);
        let row = lattice_row(x0, x1, y);
        let pred = |i: int| run_begins(b, x0, x0 + 20 * i, y);
        let idx = Seq::new((k - 1) as nat, |i: int| i);
        assert(Seq::new(k as nat, |i: int| i) =~= idx.push(k - 1));
        idx.lemma_filter_push(k - 1, pred);
        assert(row[k - 1] == ((x0 + 20 * (k - 1)) as i32, y as i32));
        if k - 1 > 0 {
            assert(row[k - 2] == ((x0 + 20 * (k - 1) - 20) as i32, y as i32));
        }
        assert(crate::conqr::client::run_start(b, row, k - 1) == pred(k - 1));
    }
}

proof fn lemma_scan_row_keeps(b: Seq<Point>, row: Seq<Point>, n: int, k: int)
    requires
        0 <= k < n <= row.len(),
        !b.contains(row[k]),
        crate::conqr::client::runs_before(b, row, k) % 2 == 1,
    ensures
        crate::conqr::client::scan_row(b, row, n).contains(row[k]),
    decreases n,
{
    let prev = crate::conqr::client::scan_row(b, row, n - 1);
    let cur = crate::conqr::client::scan_row(b, row, n);
    if n == k + 1 {
        assert(cur[prev.len() as int] == row[k]);
    } else {
        lemma_scan_row_keeps(b, row, n - 1, k);
        let m = choose|m: int| 0 <= m < prev.len() && prev[m] == row[k];
        assert(cur[m] == prev[m]);
    }
}

/// Under the conqr.io rules, a trail that comes back into the territory
/// fills its box row by row by parity: every cell of every row of the
/// trail's bounding box (on the 20 px lattice from the box's corner) that
/// is off the boundary (territory and trail) and has an odd number of
/// boundary runs beginning to its left in its row joins the territory.
pub proof fn lemma_row_claim_fills_by_parity(s: crate::conqr::client::ClientView, r: usize, x: int, y: int)
    requires
        s.player.current_path.len() > 0,
        ({
            let pos = advanced(s.player.x as int, s.player.y as int, s.direction, s.movement_speed as int);
            s.player.territory.contains((grid_line(pos.0) as i32, grid_line(pos.1) as i32))
        }),
        bounds(s.player.current_path).0 <= x <= bounds(s.player.current_path).1,
        bounds(s.player.current_path).2 <= y <= bounds(s.player.current_path).3,
        (x - bounds(s.player.current_path).0) % 20 == 0,
        (y - bounds(s.player.current_path).2) % 20 == 0,
        !boundary_at(s.player.territory + s.player.current_path, x, y),
        runs_left(
            s.player.territory + s.player.current_path,
            bounds(s.player.current_path).0,
            y,
            (x - bounds(s.player.current_path).0) / 20,
        ) % 2 == 1,
    ensures
        crate::conqr::client::frame_outcome(s, r).0.player.territory.contains((x as i32, y as i32)),
{
    let path = s.player.current_path;
    let b = s.player.territory + path;
    let bb = bounds(path);
    let i = (x - bb.0) / 20;
    let j = (y - bb.2) / 20;
    assert(x == bb.0 + 20 * i);
    assert(y == bb.2 + 20 * j);
    lemma_steps(bb.0, bb.1, i);
    lemma_steps(bb.2, bb.3, j);
    let row = lattice_row(bb.0, bb.1, y);
    assert(row[i] == (x as i32, y as i32));
    lemma_runs_left_counts(b, bb.0, bb.1, y, i);
    lemma_scan_row_keeps(b, row, row.len() as int, i);
    let rows = crate::conqr::client::scan_rows(bb, b);
    assert(rows[j] == crate::conqr::client::scan_row(b, row, row.len() as int));
    let sr = rows[j];
    let m = choose|m: int| 0 <= m < sr.len() && sr[m] == row[i];
    lemma_in_flatten(rows, j, m);
    let fill = crate::conqr::client::scan_fill(bb, b);
    assert(fill == rows.flatten());
    let out = crate::conqr::client::frame_outcome(s, r).0;
    assert(out.player.territory == b + fill);
    let q = choose|q: int| 0 <= q < fill.len() && fill[q] == row[i];
    assert(out.player.territory[b.len() + q] == (x as i32, y as i32));
}

proof fn lemma_from_flatten(rows: Seq<Seq<Point>>, q: Point)
    requires
        rows.flatten().contains(q),
    ensures
        exists|j: int, i: int| 0 <= j < rows.len() && 0 <= i < rows[j].len() && #[trigger] rows[j][i] == q,
    decreases rows.len(),
{
    let init = rows.drop_last();
    assert(init.push(rows.last()) =~= rows);
    init.lemma_flatten_push(rows.last());
    let f0 = init.flatten();
    let m = choose|m: int| 0 <= m < rows.flatten().len() && rows.flatten()[m] == q;
    if m < f0.len() {
        assert(f0[m] == q);
        lemma_from_flatten(init, q);
        let (j, i) = choose|j: int, i: int| 0 <= j < init.len() && 0 <= i < init[j].len() && #[trigger] init[j][i] == q;
        assert(rows[j] == init[j]);
    } else {
        assert(rows.last()[m - f0.len()] == q);
        assert(rows[rows.len() - 1][m - f0.len()] == q);
    }
}

proof fn lemma_lattice_cell(bb: (int, int, int, int), q: Point)
    requires
        lattice(bb).contains(q),
        i32::MIN <= bb.0 && bb.1 <= i32::MAX,
        i32::MIN <= bb.2 && bb.3 <= i32::MAX,
    ensures
        bb.0 <= q.0 <= bb.1,
        bb.2 <= q.1 <= bb.3,
        (q.0 - bb.0) % 20 == 0,
        (q.1 - bb.2) % 20 == 0,
{
    let rows = lattice_rows(bb, steps(bb.2, bb.3) as int);
    lemma_from_flatten(rows, q);
    let (j, i) = choose|j: int, i: int| 0 <= j < rows.len() && 0 <= i < rows[j].len() && #[trigger] rows[j][i] == q;
    lemma_steps(bb.2, bb.3, j);
    assert(rows[j] == lattice_row(bb.0, bb.1, bb.2 + 20 * j));
    lemma_steps(bb.0, bb.1, i);
    assert(q.0 == bb.0 + 20 * i);
    assert(q.1 == bb.2 + 20 * j);
    assert((20 * i) % 20 == 0 && (20 * j) % 20 == 0) by (nonlinear_arith);
}

/// A claim takes nothing beyond what its trail encloses: every point of
/// the new territory was territory or trail before, or is a point of the
/// trail's bounding box on the 20 px lattice from its corner that the flood
/// from outside the box does not reach.
pub proof fn lemma_claim_takes_only_enclosed(s: ClientView, r: usize, q: Point)
    requires
        s.player.current_path.len() > 0,
        claim_clear(s.player.current_path, s.others),
        s.player.territory.len() == 0 || touches(s.player.current_path, s.player.territory),
        claim_outcome(s, r).0.player.territory.contains(q),
    ensures
        ({
            let bb = bounds(s.player.current_path);
            ||| (s.player.territory + s.player.current_path).contains(q)
            ||| bb.0 <= q.0 <= bb.1 && bb.2 <= q.1 <= bb.3 && (q.0 - bb.0) % 20 == 0 && (q.1 - bb.2) % 20
                == 0 && !claim_reach(
                s.player.territory + s.player.current_path,
                strip_claimed(s.others, s.player.current_path),
                bb,
            ).contains((q.0 as int, q.1 as int))
        }),
{
    broadcast use vstd::seq_lib::group_filter_ensures;

    let path = s.player.current_path;
    let t1 = s.player.territory + path;
    let bb = bounds(path);
    let reach = claim_reach(t1, strip_claimed(s.others, path), bb);
    let l = lattice(bb);
    let pred = |p: Point| is_enclosed(reach, t1, p);
    let fill = enclosed(bb, reach, t1);
    let out = claim_outcome(s, r).0;
    assert(out.player.territory == t1 + fill);
    let m = choose|m: int| 0 <= m < out.player.territory.len() && out.player.territory[m] == q;
    if m < t1.len() {
        assert(t1[m] == q);
    } else {
        assert(fill[m - t1.len()] == q);
        assert(fill == l.filter(pred));
        assert(pred(q));
        l.lemma_filter_contains_rev(pred, q);
        let a = crate::field::xs(path);
        let c = crate::field::ys(path);
        a.min_ensures();
        a.max_ensures();
        c.min_ensures();
        c.max_ensures();
        assert(a[0] == path[0].0 && c[0] == path[0].1);
        let k1 = choose|k: int| 0 <= k < a.len() && a[k] == a.min();
        let k2 = choose|k: int| 0 <= k < a.len() && a[k] == a.max();
        let k3 = choose|k: int| 0 <= k < c.len() && c[k] == c.min();
        let k4 = choose|k: int| 0 <= k < c.len() && c[k] == c.max();
        assert(a[k1] == path[k1].0 && a[k2] == path[k2].0 && c[k3] == path[k3].1 && c[k4] == path[k4].1);
        lemma_lattice_cell(bb, q);
    }
}

/// A frame that neither crosses the own trail (short of its last two
/// cells), nor meets another trail, nor returns to the territory lays the
/// new cell at the end of the trail (unless the player is still on the
/// trail's last cell) and plays no death.
pub proof fn lemma_free_move_extends_trail(s: ClientView, r: usize)
    requires
        ({
            let pos = advanced(s.player.x as int, s.player.y as int, s.direction, s.movement_speed as int);
            let cur: Point = (grid_line(pos.0) as i32, grid_line(pos.1) as i32);
            let n = s.player.current_path.len();
            &&& forall|i: int| 0 <= i < s.others.len() ==> !(#[trigger] s.others[i]).current_path.contains(cur)
            &&& !s.player.territory.contains(cur)
            &&& forall|k: int| 0 <= k < n - 2 ==> #[trigger] s.player.current_path[k] != cur
        }),
    ensures
        ({
            let pos = advanced(s.player.x as int, s.player.y as int, s.direction, s.movement_speed as int);
            let cur: Point = (grid_line(pos.0) as i32, grid_line(pos.1) as i32);
            let path = s.player.current_path;
            let out = frame_outcome(s, r);
            &&& out.0.player.current_path == (if path.len() > 0 && path.last() == cur {
                path
            } else {
                path.push(cur)
            })
            &&& out.0.player.territory == s.player.territory
            &&& out.0.others == s.others
            &&& !out.1.contains(crate::client::ActionView::Play(crate::client::Sound::Death))
        }),
{
    let pos = advanced(s.player.x as int, s.player.y as int, s.direction, s.movement_speed as int);
    let cur: Point = (grid_line(pos.0) as i32, grid_line(pos.1) as i32);
    let n = s.player.current_path.len();
    assert(!exists|i: int| first_on_trail(s.others, cur, i)) by {
        if exists|i: int| first_on_trail(s.others, cur, i) {
            let i = choose|i: int| first_on_trail(s.others, cur, i);
            assert(on_trail(s.others[i], cur));
        }
    }
    assert(trail_hit(s.others, cur).is_none());
    if n > 2 {
        let pre = s.player.current_path.take(n - 2);
        assert(!pre.contains(cur)) by {
            if pre.contains(cur) {
                let k = choose|k: int| 0 <= k < pre.len() && pre[k] == cur;
                assert(s.player.current_path[k] == cur);
            }
        }
    }
    let out = frame_outcome(s, r);
    assert forall|i: int| 0 <= i < out.1.len() implies out.1[i] != crate::client::ActionView::Play(
        crate::client::Sound::Death,
    ) by {}
}

proof fn lemma_scan_row_from(b: Seq<Point>, row: Seq<Point>, n: int, q: Point)
    requires
        0 <= n <= row.len(),
        crate::conqr::client::scan_row(b, row, n).contains(q),
    ensures
        exists|k: int|
            0 <= k < n && #[trigger] row[k] == q && !b.contains(row[k])
                && crate::conqr::client::runs_before(b, row, k) % 2 == 1,
    decreases n,
{
    let prev = crate::conqr::client::scan_row(b, row, n - 1);
    let cur = crate::conqr::client::scan_row(b, row, n);
    let m = choose|m: int| 0 <= m < cur.len() && cur[m] == q;
    if m < prev.len() {
        assert(prev[m] == q);
        lemma_scan_row_from(b, row, n - 1, q);
        let k = choose|k: int|
            0 <= k < n - 1 && #[trigger] row[k] == q && !b.contains(row[k])
                && crate::conqr::client::runs_before(b, row, k) % 2 == 1;
        assert(row[k] == q);
    } else {
        assert(row[n - 1] == q);
    }
}

/// Under the conqr.io rules a claim takes nothing beyond its parity fill:
/// every point of the new territory was territory or trail before, or is a
/// cell of the trail's bounding box (on the 20 px lattice from its corner)
/// off the boundary with an odd number of boundary runs beginning to its
/// left in its row.
pub proof fn lemma_row_claim_takes_only_parity_cells(s: crate::conqr::client::ClientView, r: usize, q: Point)
    requires
        s.player.current_path.len() > 0,
        ({
            let pos = advanced(s.player.x as int, s.player.y as int, s.direction, s.movement_speed as int);
            s.player.territory.contains((grid_line(pos.0) as i32, grid_line(pos.1) as i32))
        }),
        crate::conqr::client::frame_outcome(s, r).0.player.territory.contains(q),
    ensures
        ({
            let b = s.player.territory + s.player.current_path;
            let bb = bounds(s.player.current_path);
            ||| b.contains(q)
            ||| bb.0 <= q.0 <= bb.1 && bb.2 <= q.1 <= bb.3 && (q.0 - bb.0) % 20 == 0 && (q.1 - bb.2) % 20
                == 0 && !boundary_at(b, q.0 as int, q.1 as int) && runs_left(
                b,
                bb.0,
                q.1 as int,
                (q.0 - bb.0) / 20,
            ) % 2 == 1
        }),
{
    let path = s.player.current_path;
    let b = s.player.territory + path;
    let bb = bounds(path);
    let out = crate::conqr::client::frame_outcome(s, r).0;
    let fill = crate::conqr::client::scan_fill(bb, b);
    assert(out.player.territory == b + fill);
    let m = choose|m: int| 0 <= m < out.player.territory.len() && out.player.territory[m] == q;
    if m < b.len() {
        assert(b[m] == q);
    } else {
        assert(fill[m - b.len()] == q);
        let rows = crate::conqr::client::scan_rows(bb, b);
        assert(fill == rows.flatten());
        lemma_from_flatten(rows, q);
        let (j, i) = choose|j: int, i: int| 0 <= j < rows.len() && 0 <= i < rows[j].len() && #[trigger] rows[j][i] == q;
        let y = bb.2 + 20 * j;
        let row = lattice_row(bb.0, bb.1, y);
        assert(rows[j] == crate::conqr::client::scan_row(b, row, row.len() as int));
        assert(rows[j].contains(q));
        lemma_scan_row_from(b, row, row.len() as int, q);
        let k = choose|k: int|
            0 <= k < row.len() && #[trigger] row[k] == q && !b.contains(row[k])
                && crate::conqr::client::runs_before(b, row, k) % 2 == 1;
        let a = crate::field::xs(path);
        let c = crate::field::ys(path);
        a.min_ensures();
        a.max_ensures();
        c.min_ensures();
        c.max_ensures();
        assert(a[0] == path[0].0 && c[0] == path[0].1);
        let k1 = choose|k: int| 0 <= k < a.len() && a[k] == a.min();
        let k2 = choose|k: int| 0 <= k < a.len() && a[k] == a.max();
        let k3 = choose|k: int| 0 <= k < c.len() && c[k] == c.min();
        let k4 = choose|k: int| 0 <= k < c.len() && c[k] == c.max();
        assert(a[k1] == path[k1].0 && a[k2] == path[k2].0 && c[k3] == path[k3].1 && c[k4] == path[k4].1);
        lemma_steps(bb.2, bb.3, j);
        lemma_steps(bb.0, bb.1, k);
        assert(q.0 == bb.0 + 20 * k);
        assert(q.1 == y);
        assert((20 * k) % 20 == 0 && (20 * j) % 20 == 0) by (nonlinear_arith);
        assert((q.0 - bb.0) / 20 == k);
        lemma_runs_left_counts(b, bb.0, bb.1, y, k);
        assert(q == (q.0 as int as i32, q.1 as int as i32));
    }
}

} // verus!
