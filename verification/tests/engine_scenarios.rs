//! End-to-end lifecycle scenarios: create, join, start, a chain of kills
//! down to a finished game, leaving, and the single-active-game rule.

use std::collections::HashSet;

use assassin_server::engine::Engine;
use assassin_server::enums::{GameStatus, PlayerStatus, TargetStatus};
use assassin_server::errors::ModelError;
use assassin_server::records::{Game, Player};

fn engine_with_players(n: i32) -> Engine {
    let mut e = Engine::new();
    for i in 1..=n {
        let p = Player::register(
            &mut e,
            format!("player{}", i),
            format!("player{}@example.org", i),
            format!("uid-{}", i),
            50,
        )
        .unwrap();
        assert_eq!(p.id, i);
    }
    e
}

/// Current edges of the game, as (assassin, target) pairs.
fn current_edges(e: &Engine, game_id: i32) -> Vec<(i32, i32)> {
    e.assignments
        .iter()
        .filter(|a| a.game == game_id && a.status == TargetStatus::CURRENT)
        .map(|a| (a.assassin, a.target))
        .collect()
}

fn alive_members(e: &Engine, game_id: i32) -> HashSet<i32> {
    e.memberships
        .iter()
        .filter(|m| m.game == game_id && m.status == PlayerStatus::ALIVE)
        .map(|m| m.player)
        .collect()
}

fn member_status(e: &Engine, game_id: i32, player: i32) -> PlayerStatus {
    e.memberships
        .iter()
        .find(|m| m.game == game_id && m.player == player)
        .expect("membership row")
        .status
}

/// Asserts that the CURRENT edges form exactly one cycle over exactly the
/// alive members.
fn assert_single_ring(e: &Engine, game_id: i32) {
    let alive = alive_members(e, game_id);
    let edges = current_edges(e, game_id);
    assert_eq!(edges.len(), alive.len(), "one outgoing edge per alive member");
    let assassins: HashSet<i32> = edges.iter().map(|p| p.0).collect();
    let targets: HashSet<i32> = edges.iter().map(|p| p.1).collect();
    assert_eq!(assassins, alive);
    assert_eq!(targets, alive);
    // walk the cycle: it must return to the start only after visiting all
    let start = *alive.iter().next().unwrap();
    let mut seen = HashSet::new();
    let mut cur = start;
    for _ in 0..alive.len() {
        assert!(seen.insert(cur), "revisited {} before covering the ring", cur);
        assert_ne!(
            cur,
            edges.iter().find(|p| p.0 == cur).unwrap().1,
            "self-loop in the ring"
        );
        cur = edges.iter().find(|p| p.0 == cur).unwrap().1;
    }
    assert_eq!(cur, start, "the edges form one closed cycle");
    assert_eq!(seen, alive);
}

fn target_of(e: &Engine, code: &String, player: i32) -> Option<i32> {
    Game::current_target_of(e, code, player).unwrap()
}

#[test]
fn create_game_owner_waits_alive() {
    let mut e = engine_with_players(1);
    let g = Game::new(&mut e, "Alpha".to_string(), 1, 100).unwrap();
    assert_eq!(g.status, GameStatus::WAITING_FOR_PLAYERS);
    assert_eq!(g.owner, 1);
    assert_eq!(g.name.as_deref(), Some("Alpha"));
    assert_eq!(member_status(&e, g.id, 1), PlayerStatus::ALIVE);
    assert_eq!(
        Game::get_game_status(&e, &g.code).unwrap(),
        GameStatus::WAITING_FOR_PLAYERS
    );
}

#[test]
fn joins_make_four_alive_memberships() {
    let mut e = engine_with_players(4);
    let g = Game::new(&mut e, "Alpha".to_string(), 1, 100).unwrap();
    for p in 2..=4 {
        Game::join(&mut e, &g.code, p, 110).unwrap();
    }
    assert_eq!(alive_members(&e, g.id), HashSet::from([1, 2, 3, 4]));
}

#[test]
fn start_builds_a_four_cycle() {
    let mut e = engine_with_players(4);
    let g = Game::new(&mut e, "Alpha".to_string(), 1, 100).unwrap();
    for p in 2..=4 {
        Game::join(&mut e, &g.code, p, 110).unwrap();
    }
    Game::start_game(&mut e, &g.code, 1, 200).unwrap();
    assert_eq!(Game::get_game_status(&e, &g.code).unwrap(), GameStatus::ACTIVE);
    assert_single_ring(&e, g.id);
    assert_eq!(current_edges(&e, g.id).len(), 4);
}

#[test]
fn kill_chain_shrinks_ring_and_finishes_game() {
    let mut e = engine_with_players(4);
    let g = Game::new(&mut e, "Alpha".to_string(), 1, 100).unwrap();
    for p in 2..=4 {
        Game::join(&mut e, &g.code, p, 110).unwrap();
    }
    Game::start_game(&mut e, &g.code, 1, 200).unwrap();

    // first kill: the victim's former target becomes player 1's target
    let v1 = target_of(&e, &g.code, 1).unwrap();
    let inherited = target_of(&e, &g.code, v1).unwrap();
    Game::kill_player(&mut e, &g.code, 1, 300).unwrap();
    assert_eq!(member_status(&e, g.id, v1), PlayerStatus::DEAD);
    assert_eq!(target_of(&e, &g.code, 1), Some(inherited));
    assert_eq!(alive_members(&e, g.id).len(), 3);
    assert_single_ring(&e, g.id);

    // second kill
    let v2 = target_of(&e, &g.code, 1).unwrap();
    let inherited2 = target_of(&e, &g.code, v2).unwrap();
    Game::kill_player(&mut e, &g.code, 1, 400).unwrap();
    assert_eq!(member_status(&e, g.id, v2), PlayerStatus::DEAD);
    assert_eq!(target_of(&e, &g.code, 1), Some(inherited2));
    assert_eq!(alive_members(&e, g.id).len(), 2);
    assert_single_ring(&e, g.id);

    // final kill: the ring collapses and the game finishes
    let v3 = target_of(&e, &g.code, 1).unwrap();
    Game::kill_player(&mut e, &g.code, 1, 500).unwrap();
    assert_eq!(member_status(&e, g.id, v3), PlayerStatus::DEAD);
    assert_eq!(Game::get_game_status(&e, &g.code).unwrap(), GameStatus::FINISHED);
    assert_eq!(alive_members(&e, g.id), HashSet::from([1]));
    assert!(current_edges(&e, g.id).is_empty());
    assert_eq!(target_of(&e, &g.code, 1), None);

    // the killer's lifetime count sees all three kills of the finished game
    let p1 = Player::find(&e, 1).unwrap();
    let info = p1.get_user_info(&e).unwrap();
    assert_eq!(info.total_kills, 3);
    assert!(!info.active);
    assert_eq!(info.curr_lobby_code, None);
}

#[test]
fn outsider_kill_reports_no_current_target() {
    let mut e = engine_with_players(5);
    let g = Game::new(&mut e, "Alpha".to_string(), 1, 100).unwrap();
    for p in 2..=4 {
        Game::join(&mut e, &g.code, p, 110).unwrap();
    }
    Game::start_game(&mut e, &g.code, 1, 200).unwrap();
    let res = Game::kill_player(&mut e, &g.code, 5, 300);
    assert!(matches!(res, Err(ModelError::NoCurrentTarget)));
    assert_eq!(
        res.unwrap_err().error_code(),
        "NO_CURRENT_TARGET".to_string()
    );
}

#[test]
fn second_game_rejected_while_alive_elsewhere() {
    let mut e = engine_with_players(6);
    let g = Game::new(&mut e, "Alpha".to_string(), 1, 100).unwrap();
    Game::join(&mut e, &g.code, 2, 110).unwrap();
    // creating a second game while alive in Alpha
    let res = Game::new(&mut e, "Beta".to_string(), 1, 120);
    assert!(matches!(res, Err(ModelError::AlreadyInAnotherGame)));
    assert_eq!(
        res.unwrap_err().error_code(),
        "ALREADY_IN_ANOTHER_GAME".to_string()
    );
    // joining a second game while alive in Alpha
    let h = Game::new(&mut e, "Gamma".to_string(), 6, 130).unwrap();
    let res = Game::join(&mut e, &h.code, 1, 140);
    assert!(matches!(res, Err(ModelError::AlreadyInAnotherGame)));
}

#[test]
fn leave_in_waiting_game_flips_to_left() {
    let mut e = engine_with_players(3);
    let g = Game::new(&mut e, "Alpha".to_string(), 1, 100).unwrap();
    Game::join(&mut e, &g.code, 2, 110).unwrap();
    Game::leave_game(&mut e, &g.code, 2, 120).unwrap();
    assert_eq!(member_status(&e, g.id, 2), PlayerStatus::LEFT_GAME);
    // having left, the player may join another game
    let h = Game::new(&mut e, "Beta".to_string(), 3, 130).unwrap();
    Game::join(&mut e, &h.code, 2, 140).unwrap();
    assert_eq!(member_status(&e, h.id, 2), PlayerStatus::ALIVE);
}

#[test]
fn leave_in_active_game_repairs_ring_without_kill_credit() {
    let mut e = engine_with_players(3);
    let g = Game::new(&mut e, "Alpha".to_string(), 1, 100).unwrap();
    Game::join(&mut e, &g.code, 2, 110).unwrap();
    Game::join(&mut e, &g.code, 3, 110).unwrap();
    Game::start_game(&mut e, &g.code, 1, 200).unwrap();
    assert_single_ring(&e, g.id);
    // player 2 leaves: their assassin inherits their target
    let assassin = current_edges(&e, g.id)
        .iter()
        .find(|p| p.1 == 2)
        .unwrap()
        .0;
    let former_target = target_of(&e, &g.code, 2).unwrap();
    Game::leave_game(&mut e, &g.code, 2, 300).unwrap();
    assert_eq!(member_status(&e, g.id, 2), PlayerStatus::LEFT_GAME);
    assert_eq!(target_of(&e, &g.code, assassin), Some(former_target));
    assert_eq!(alive_members(&e, g.id), HashSet::from([1, 3]));
    assert_single_ring(&e, g.id);
    // no closed edge counts as a kill
    assert!(e
        .assignments
        .iter()
        .all(|a| a.game != g.id || a.status != TargetStatus::KILL_SUCCESS));
    let p1 = Player::find(&e, 1).unwrap();
    assert_eq!(p1.get_agent_info(&e, &g.code).unwrap().kills, 0);
}

#[test]
fn leave_collapsing_ring_finishes_game() {
    let mut e = engine_with_players(2);
    let g = Game::new(&mut e, "Alpha".to_string(), 1, 100).unwrap();
    Game::join(&mut e, &g.code, 2, 110).unwrap();
    Game::start_game(&mut e, &g.code, 1, 200).unwrap();
    Game::leave_game(&mut e, &g.code, 2, 300).unwrap();
    assert_eq!(Game::get_game_status(&e, &g.code).unwrap(), GameStatus::FINISHED);
    assert_eq!(member_status(&e, g.id, 2), PlayerStatus::LEFT_GAME);
    assert_eq!(alive_members(&e, g.id), HashSet::from([1]));
    assert!(current_edges(&e, g.id).is_empty());
}

#[test]
fn finished_game_accepts_no_further_moves() {
    let mut e = engine_with_players(2);
    let g = Game::new(&mut e, "Alpha".to_string(), 1, 100).unwrap();
    Game::join(&mut e, &g.code, 2, 110).unwrap();
    Game::start_game(&mut e, &g.code, 1, 200).unwrap();
    Game::kill_player(&mut e, &g.code, 1, 300).unwrap();
    assert_eq!(Game::get_game_status(&e, &g.code).unwrap(), GameStatus::FINISHED);
    assert!(matches!(
        Game::kill_player(&mut e, &g.code, 1, 400),
        Err(ModelError::GameNotStarted)
    ));
    assert!(matches!(
        Game::leave_game(&mut e, &g.code, 1, 400),
        Err(ModelError::GameNotStarted)
    ));
    assert!(matches!(
        Game::start_game(&mut e, &g.code, 1, 400),
        Err(ModelError::GameNotStarted)
    ));
}

#[test]
fn stop_game_only_after_scheduled_end() {
    let mut e = engine_with_players(2);
    let g = Game::new(&mut e, "Alpha".to_string(), 1, 100).unwrap();
    Game::join(&mut e, &g.code, 2, 110).unwrap();
    Game::start_game(&mut e, &g.code, 1, 1000).unwrap();
    let end = Game::get_end_time(&e, &g.code, 1).unwrap();
    assert_eq!(end, 1000 + 259200);
    // too early
    assert!(matches!(
        Game::stop_game(&mut e, &g.code, 1, end - 1),
        Err(ModelError::GameNotStarted)
    ));
    // not the owner
    assert!(matches!(
        Game::stop_game(&mut e, &g.code, 2, end),
        Err(ModelError::NotInGame)
    ));
    // after the scheduled end
    Game::stop_game(&mut e, &g.code, 1, end).unwrap();
    assert_eq!(Game::get_game_status(&e, &g.code).unwrap(), GameStatus::FINISHED);
    assert!(current_edges(&e, g.id).is_empty());
    assert!(e
        .assignments
        .iter()
        .filter(|a| a.game == g.id)
        .all(|a| a.status == TargetStatus::GAME_END));
}

#[test]
fn kill_counts_accumulate_per_game() {
    let mut e = engine_with_players(4);
    let g = Game::new(&mut e, "Alpha".to_string(), 1, 100).unwrap();
    for p in 2..=4 {
        Game::join(&mut e, &g.code, p, 110).unwrap();
    }
    Game::start_game(&mut e, &g.code, 1, 200).unwrap();
    Game::kill_player(&mut e, &g.code, 1, 300).unwrap();
    Game::kill_player(&mut e, &g.code, 1, 400).unwrap();
    let p1 = Player::find(&e, 1).unwrap();
    let info = p1.get_agent_info(&e, &g.code).unwrap();
    assert_eq!(info.kills, 2);
    assert!(info.alive);
    // an unfinished game contributes nothing to the lifetime count
    assert_eq!(p1.get_user_info(&e).unwrap().total_kills, 0);
}

#[test]
fn disjoint_games_do_not_interfere() {
    let mut e = engine_with_players(6);
    let a = Game::new(&mut e, "Alpha".to_string(), 1, 100).unwrap();
    Game::join(&mut e, &a.code, 2, 100).unwrap();
    Game::join(&mut e, &a.code, 3, 100).unwrap();
    let b = Game::new(&mut e, "Beta".to_string(), 4, 100).unwrap();
    Game::join(&mut e, &b.code, 5, 100).unwrap();
    Game::join(&mut e, &b.code, 6, 100).unwrap();
    Game::start_game(&mut e, &a.code, 1, 200).unwrap();
    Game::start_game(&mut e, &b.code, 4, 200).unwrap();
    let b_edges_before = current_edges(&e, b.id);
    Game::kill_player(&mut e, &a.code, 1, 300).unwrap();
    // the kill in Alpha leaves Beta's ring untouched
    assert_eq!(current_edges(&e, b.id), b_edges_before);
    assert_single_ring(&e, b.id);
    assert_single_ring(&e, a.id);
    let a_edges_before = current_edges(&e, a.id);
    Game::kill_player(&mut e, &b.code, 4, 400).unwrap();
    assert_eq!(current_edges(&e, a.id), a_edges_before);
    assert_single_ring(&e, a.id);
}

#[test]
fn created_games_carry_well_formed_codes() {
    let mut e = engine_with_players(2);
    let a = Game::new(&mut e, "Alpha".to_string(), 1, 100).unwrap();
    assert_eq!(a.code.len(), 8);
    assert!(a.code.chars().all(|c| c.is_ascii_uppercase() || c.is_ascii_digit()));
    let b = Game::new(&mut e, "Beta".to_string(), 2, 100).unwrap();
    assert_ne!(a.code, b.code);
}
