//! Registry behaviour, read queries, identifier generation, and the error
//! taxonomy with its stable wire codes.

use assassin_server::engine::Engine;
use assassin_server::enums::{GameStatus, PlayerStatus, Role};
use assassin_server::errors::{ApiError, ModelError};
use assassin_server::genstring::{get_agent_name, get_game_code, GAME_CODE_LEN};
use assassin_server::records::{Game, Player};

fn engine_with_players(n: i32) -> Engine {
    let mut e = Engine::new();
    for i in 1..=n {
        Player::register(
            &mut e,
            format!("player{}", i),
            format!("player{}@example.org", i),
            format!("uid-{}", i),
            50,
        )
        .unwrap();
    }
    e
}

#[test]
fn register_assigns_dense_ids_and_rejects_duplicates() {
    let mut e = Engine::new();
    let a = Player::register(
        &mut e,
        "ada".to_string(),
        "ada@example.org".to_string(),
        "uid-a".to_string(),
        10,
    )
    .unwrap();
    assert_eq!(a.id, 1);
    assert_eq!(a.role, Role::USER);
    let b = Player::register(
        &mut e,
        "bob".to_string(),
        "bob@example.org".to_string(),
        "uid-b".to_string(),
        11,
    )
    .unwrap();
    assert_eq!(b.id, 2);
    let dup = Player::register(
        &mut e,
        "ada2".to_string(),
        "ada2@example.org".to_string(),
        "uid-a".to_string(),
        12,
    );
    assert!(matches!(dup, Err(ModelError::AlreadyRegistered)));
    assert_eq!(dup.unwrap_err().error_code(), "ALREADY_REGISTERED".to_string());
}

#[test]
fn player_lookup_by_id_and_uid() {
    let e = engine_with_players(3);
    let p = Player::find(&e, 2).unwrap();
    assert_eq!(p.nickname, "player2".to_string());
    assert!(matches!(Player::find(&e, 9), Err(ModelError::NotRegistered)));
    let q = Player::find_by_uid(&e, &"uid-3".to_string()).unwrap();
    assert_eq!(q.id, 3);
    assert!(matches!(
        Player::find_by_uid(&e, &"uid-9".to_string()),
        Err(ModelError::NotRegistered)
    ));
}

#[test]
fn game_lookup_by_id_and_code() {
    let mut e = engine_with_players(1);
    let g = Game::new(&mut e, "Alpha".to_string(), 1, 100).unwrap();
    let by_id = Game::find(&e, g.id).unwrap();
    assert_eq!(by_id.code, g.code);
    let by_code = Game::find_by_code(&e, &g.code).unwrap();
    assert_eq!(by_code.id, g.id);
    assert!(matches!(Game::find(&e, 99), Err(ModelError::GameNotFound)));
    assert!(matches!(
        Game::find_by_code(&e, &"NOSUCHCD".to_string()),
        Err(ModelError::GameNotFound)
    ));
    assert!(matches!(
        Game::get_game_status(&e, &"NOSUCHCD".to_string()),
        Err(ModelError::GameNotFound)
    ));
}

#[test]
fn join_errors_are_distinguished() {
    let mut e = engine_with_players(4);
    let g = Game::new(&mut e, "Alpha".to_string(), 1, 100).unwrap();
    // unknown code
    assert!(matches!(
        Game::join(&mut e, &"NOSUCHCD".to_string(), 2, 110),
        Err(ModelError::GameNotFound)
    ));
    // rejoining the own game
    assert!(matches!(
        Game::join(&mut e, &g.code, 1, 110),
        Err(ModelError::AlreadyInRequestedGame)
    ));
    // a started game is no longer joinable for outsiders
    Game::join(&mut e, &g.code, 2, 110).unwrap();
    Game::start_game(&mut e, &g.code, 1, 200).unwrap();
    assert!(matches!(
        Game::join(&mut e, &g.code, 3, 210),
        Err(ModelError::GameNotFound)
    ));
    // a member of the started game is still told so
    let res = Game::join(&mut e, &g.code, 2, 220);
    assert!(matches!(res, Err(ModelError::AlreadyInRequestedGame)));
    assert_eq!(
        res.unwrap_err().error_code(),
        "ALREADY_IN_REQUESTED_GAME".to_string()
    );
}

#[test]
fn start_errors_are_distinguished() {
    let mut e = engine_with_players(3);
    let g = Game::new(&mut e, "Alpha".to_string(), 1, 100).unwrap();
    // only the owner may start
    assert!(matches!(
        Game::start_game(&mut e, &g.code, 2, 110),
        Err(ModelError::NotInGame)
    ));
    // a single member is not enough
    let res = Game::start_game(&mut e, &g.code, 1, 110);
    assert!(matches!(res, Err(ModelError::GameNotStarted)));
    assert_eq!(res.unwrap_err().error_code(), "GAME_NOT_STARTED".to_string());
    Game::join(&mut e, &g.code, 2, 110).unwrap();
    Game::start_game(&mut e, &g.code, 1, 200).unwrap();
    // a running game cannot be started again
    assert!(matches!(
        Game::start_game(&mut e, &g.code, 1, 210),
        Err(ModelError::GameNotStarted)
    ));
}

#[test]
fn end_time_query_and_membership_guard() {
    let mut e = engine_with_players(3);
    let g = Game::new(&mut e, "Alpha".to_string(), 1, 100).unwrap();
    Game::join(&mut e, &g.code, 2, 110).unwrap();
    // before the start nothing is scheduled
    assert!(matches!(
        Game::get_end_time(&e, &g.code, 1),
        Err(ModelError::GameNotStarted)
    ));
    // non-members may not ask
    assert!(matches!(
        Game::get_end_time(&e, &g.code, 3),
        Err(ModelError::NotInGame)
    ));
    Game::start_game(&mut e, &g.code, 1, 500).unwrap();
    assert_eq!(Game::get_end_time(&e, &g.code, 2).unwrap(), 500 + 259200);
}

#[test]
fn game_info_lists_every_member() {
    let mut e = engine_with_players(3);
    let g = Game::new(&mut e, "Alpha".to_string(), 1, 100).unwrap();
    Game::join(&mut e, &g.code, 2, 110).unwrap();
    Game::join(&mut e, &g.code, 3, 110).unwrap();
    let info = Game::get_game_info(&e, &g.code, 2).unwrap();
    assert_eq!(info.game_name, "Alpha".to_string());
    assert_eq!(info.admin_nickname, "player1".to_string());
    let nicks: Vec<String> = info.players.iter().map(|p| p.nickname.clone()).collect();
    assert_eq!(nicks, vec!["player1".to_string(), "player2".to_string(), "player3".to_string()]);
    assert!(matches!(
        Game::get_game_info(&e, &g.code, 9),
        Err(ModelError::NotInGame)
    ));
}

#[test]
fn codenames_are_unique_within_a_game() {
    let mut e = engine_with_players(4);
    let g = Game::new(&mut e, "Alpha".to_string(), 1, 100).unwrap();
    for p in 2..=4 {
        Game::join(&mut e, &g.code, p, 110).unwrap();
    }
    let c = Game::get_codenames(&e, &g.code, 1).unwrap();
    assert_eq!(c.codenames.len(), 4);
    for i in 0..c.codenames.len() {
        for j in (i + 1)..c.codenames.len() {
            assert_ne!(c.codenames[i], c.codenames[j]);
        }
    }
    assert!(matches!(
        Game::get_codenames(&e, &g.code, 9),
        Err(ModelError::NotInGame)
    ));
}

#[test]
fn agent_info_shows_codename_target_and_state() {
    let mut e = engine_with_players(2);
    let g = Game::new(&mut e, "Alpha".to_string(), 1, 100).unwrap();
    Game::join(&mut e, &g.code, 2, 110).unwrap();
    Game::start_game(&mut e, &g.code, 1, 200).unwrap();
    let p1 = Player::find(&e, 1).unwrap();
    let a = p1.get_agent_info(&e, &g.code).unwrap();
    assert!(a.alive);
    assert_eq!(a.kills, 0);
    assert_eq!(a.target.as_deref(), Some("player2"));
    let row = e
        .memberships
        .iter()
        .find(|m| m.game == g.id && m.player == 1)
        .unwrap();
    assert_eq!(a.codename, row.codename);
    // after winning, no target remains and the victim shows dead
    Game::kill_player(&mut e, &g.code, 1, 300).unwrap();
    let a = p1.get_agent_info(&e, &g.code).unwrap();
    assert!(a.alive);
    assert_eq!(a.kills, 1);
    assert_eq!(a.target, None);
    let p2 = Player::find(&e, 2).unwrap();
    let b = p2.get_agent_info(&e, &g.code).unwrap();
    assert!(!b.alive);
}

#[test]
fn user_info_reports_active_lobby() {
    let mut e = engine_with_players(2);
    let g = Game::new(&mut e, "Alpha".to_string(), 1, 100).unwrap();
    let p1 = Player::find(&e, 1).unwrap();
    let u = p1.get_user_info(&e).unwrap();
    assert_eq!(u.nickname, "player1".to_string());
    assert!(u.active);
    assert_eq!(u.curr_lobby_code, Some(g.code.clone()));
    let p2 = Player::find(&e, 2).unwrap();
    let u2 = p2.get_user_info(&e).unwrap();
    assert!(!u2.active);
    assert_eq!(u2.curr_lobby_code, None);
}

#[test]
fn game_codes_are_well_formed_and_games_get_distinct_codes() {
    for _ in 0..50 {
        let c = get_game_code();
        assert_eq!(c.len(), GAME_CODE_LEN);
        assert!(c.chars().all(|ch| ch.is_ascii_uppercase() || ch.is_ascii_digit()));
    }
    let mut e = engine_with_players(3);
    let a = Game::new(&mut e, "Alpha".to_string(), 1, 100).unwrap();
    let b = Game::new(&mut e, "Beta".to_string(), 2, 100).unwrap();
    let c = Game::new(&mut e, "Gamma".to_string(), 3, 100).unwrap();
    assert_ne!(a.code, b.code);
    assert_ne!(a.code, c.code);
    assert_ne!(b.code, c.code);
}

#[test]
fn agent_names_join_two_words() {
    for _ in 0..20 {
        let n = get_agent_name();
        assert!(n.len() >= 3);
        assert_eq!(n.split(' ').count(), 2);
    }
}

#[test]
fn error_codes_are_stable() {
    let cases = [
        (ModelError::AlreadyInAnotherGame, "ALREADY_IN_ANOTHER_GAME"),
        (ModelError::AlreadyInRequestedGame, "ALREADY_IN_REQUESTED_GAME"),
        (ModelError::DatabaseError, "DATABASE_ERROR"),
        (ModelError::NotInGame, "NOT_IN_GAME"),
        (ModelError::GameNotStarted, "GAME_NOT_STARTED"),
        (ModelError::GameNotFound, "GAME_NOT_FOUND"),
        (ModelError::NoCurrentTarget, "NO_CURRENT_TARGET"),
        (ModelError::AlreadyRegistered, "ALREADY_REGISTERED"),
        (ModelError::NotRegistered, "NOT_REGISTERED"),
        (ModelError::UnknownError, "UNKNOWN"),
    ];
    for (e, code) in cases {
        assert_eq!(e.error_code(), code.to_string());
    }
}

#[test]
fn api_errors_classify_domain_errors() {
    let bad = ApiError::from_model(ModelError::NotInGame);
    assert!(matches!(&bad, ApiError::BadRequest(_)));
    assert_eq!(bad.error_code(), "NOT_IN_GAME".to_string());
    assert_eq!(bad.status_code(), 400);
    assert_eq!(bad.name(), "Bad Request".to_string());
    let srv = ApiError::from_model(ModelError::DatabaseError);
    assert!(matches!(&srv, ApiError::InternalServerError(_)));
    assert_eq!(srv.error_code(), "DATABASE_ERROR".to_string());
    assert_eq!(srv.status_code(), 500);
    let unauth = ApiError::Unauthorized("MISSING_CLAIMS".to_string());
    assert_eq!(unauth.status_code(), 401);
    assert_eq!(unauth.name(), "Unauthorized".to_string());
    let nf = ApiError::UserNotFound("NOT_REGISTERED".to_string());
    assert_eq!(nf.status_code(), 404);
}

#[test]
fn leaving_non_member_and_finished_games_fail() {
    let mut e = engine_with_players(3);
    let g = Game::new(&mut e, "Alpha".to_string(), 1, 100).unwrap();
    assert!(matches!(
        Game::leave_game(&mut e, &g.code, 3, 110),
        Err(ModelError::NotInGame)
    ));
    // a dead player cannot leave
    Game::join(&mut e, &g.code, 2, 110).unwrap();
    Game::start_game(&mut e, &g.code, 1, 200).unwrap();
    Game::kill_player(&mut e, &g.code, 1, 300).unwrap();
    let loser = e
        .memberships
        .iter()
        .find(|m| m.game == g.id && m.status == PlayerStatus::DEAD)
        .unwrap()
        .player;
    assert!(matches!(
        Game::leave_game(&mut e, &g.code, loser, 400),
        Err(ModelError::GameNotStarted)
    ));
    assert_eq!(Game::get_game_status(&e, &g.code).unwrap(), GameStatus::FINISHED);
}

#[test]
fn default_statuses() {
    assert_eq!(GameStatus::default(), GameStatus::WAITING_FOR_PLAYERS);
    assert_eq!(Role::default(), Role::USER);
}

#[test]
fn membership_and_alive_count_helpers() {
    let mut e = engine_with_players(3);
    let g = Game::new(&mut e, "Alpha".to_string(), 1, 100).unwrap();
    Game::join(&mut e, &g.code, 2, 110).unwrap();
    assert!(e.is_member(g.id, 1));
    assert!(e.is_member(g.id, 2));
    assert!(!e.is_member(g.id, 3));
    assert_eq!(e.alive_count(g.id), 2);
    Game::leave_game(&mut e, &g.code, 2, 120).unwrap();
    // a departed player still has a row but is no longer alive
    assert!(e.is_member(g.id, 2));
    assert_eq!(e.alive_count(g.id), 1);
}
