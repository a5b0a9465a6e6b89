use rpg_sessions::event::{
    add_character_on_server_data, apply_engine_update, game_state_for_attack,
    init_new_game_by_player, load_game_by_player, login_all_sessions, process_replay_game,
    process_save_game, send_disconnection_to_server_data, send_disconnection_to_server_manager,
    send_logout_to_server, start_new_game_by_player, update_app_after_atk,
    update_lobby_page_after_joining_game, update_ongoing_games_list_display,
    update_saved_game_list_display, AttackOutcome, Outbound, ServerEvent, SAVED_GAME_MANAGER,
    SAVED_GAME_MANAGER_REPLAY,
};
use rpg_sessions::game_state::{GamePhase, GameStateManager, PlayerInfo, ServerData};
use rpg_sessions::registry::ConnectionRegistry;
use rpg_sessions::scheduler::{player_may_attack, process_ennemy_atk, AutoTurnBoard, AUTO_ATK_TEMPO_MS};
use rpg_sessions::snapshot::{decode_snapshot, encode_snapshot};

fn session<'a>(gm: &'a GameStateManager, name: &str) -> Option<&'a ServerData> {
    gm.servers_data.iter().find(|(n, _)| n == name).map(|(_, sd)| sd)
}

fn entry<'a>(sd: &'a ServerData, player: &str) -> Option<&'a PlayerInfo> {
    sd.players_info.iter().find(|(n, _)| n == player).map(|(_, p)| p)
}

fn kind(ev: &ServerEvent) -> &'static str {
    match ev {
        ServerEvent::NewClientOnExistingPlayer(_, _) => "welcome",
        ServerEvent::AssignPlayerId(_) => "id",
        ServerEvent::UpdateApplication(_) => "app",
        ServerEvent::ReconnectAllSessions(_, _) => "reconnect",
        ServerEvent::UpdateServerData(_) => "session",
        ServerEvent::UpdateOngoingGames(_) => "index",
        ServerEvent::AnswerSavedGameList(_) => "saved",
        ServerEvent::EndOfServerData => "ended",
    }
}

fn summary(msgs: &[Outbound]) -> Vec<(u32, &'static str)> {
    msgs.iter().map(|m| (m.client_id, kind(&m.event))).collect()
}

fn outcome(state: &str, ended: bool, pending: u32) -> AttackOutcome {
    AttackOutcome { game_state: state.to_string(), game_ended: ended, pending_auto_turns: pending }
}

/// A store with session "Alice" owned by Alice on connection 1, and a second
/// open connection 2.
fn alice_lobby() -> (GameStateManager, ConnectionRegistry) {
    let mut gm = GameStateManager::new();
    let mut clients = ConnectionRegistry::new();
    let a = clients.register().unwrap();
    let b = clients.register().unwrap();
    assert_eq!((a, b), (1, 2));
    init_new_game_by_player(&mut gm, &clients, "Alice", a, "Alice", "s0".to_string(), "games/alice".to_string());
    (gm, clients)
}

#[test]
fn scenario_alice_full_round() {
    let mut gm = GameStateManager::new();
    let mut clients = ConnectionRegistry::new();
    let id = clients.register().unwrap();
    let d = init_new_game_by_player(&mut gm, &clients, "Alice", id, "Alice", "s0".to_string(), "games/alice".to_string());
    let sd = session(&gm, "Alice").unwrap();
    assert_eq!(sd.app.game_phase, GamePhase::InitGame);
    assert_eq!(sd.owner_player_name, "Alice");
    assert_eq!(entry(sd, "Alice").unwrap().player_ids, vec![id]);
    assert_eq!(summary(&d.messages), vec![(id, "app"), (id, "session"), (id, "index")]);
    assert_eq!(d.saves.len(), 2);
    assert_eq!(d.saves[0].file_name, SAVED_GAME_MANAGER);
    assert_eq!(d.saves[1].file_name, SAVED_GAME_MANAGER_REPLAY);
    assert_eq!(d.saves[0].dir, "games/alice");
    assert_eq!(d.saves[0].contents, "InitGame\ns0");

    let out = add_character_on_server_data(&mut gm, &clients, "Alice", "Alice", "Warrior");
    let sd = session(&gm, "Alice").unwrap();
    assert_eq!(entry(sd, "Alice").unwrap().character_names, vec!["Warrior".to_string()]);
    assert_eq!(sd.app.active_characters, vec!["Warrior".to_string()]);
    assert_eq!(summary(&out), vec![(id, "app"), (id, "session")]);

    let d = start_new_game_by_player(&mut gm, &clients, "Alice", "s1".to_string());
    assert_eq!(session(&gm, "Alice").unwrap().app.game_phase, GamePhase::Running);
    assert_eq!(d.saves[0].contents, "Running\ns1");
    assert_eq!(d.saves[1].contents, "Running\ns1");

    assert_eq!(game_state_for_attack(&gm, "Alice"), Some("s1".to_string()));
    let (d, pending) = update_app_after_atk(&mut gm, &clients, "Alice", outcome("s2", false, 2));
    assert_eq!(pending, 2);
    assert_eq!(summary(&d.messages), vec![(id, "app"), (id, "session")]);
    assert_eq!(session(&gm, "Alice").unwrap().app.game_state, "s2");

    assert_eq!(AUTO_ATK_TEMPO_MS, 3000);
    let mut turns = process_ennemy_atk("Alice", pending).unwrap();
    assert!(turns.tick(&gm));
    let (d, _) = update_app_after_atk(&mut gm, &clients, "Alice", outcome("s3", false, 0));
    assert_eq!(d.messages.len(), 2);
    assert!(turns.tick(&gm));
    let (d, _) = update_app_after_atk(&mut gm, &clients, "Alice", outcome("s4", false, 0));
    assert_eq!(d.messages.len(), 2);
    assert!(!turns.tick(&gm));
    assert!(turns.is_done());
    assert_eq!(session(&gm, "Alice").unwrap().app.game_state, "s4");
}

#[test]
fn no_automated_turns_when_none_pending() {
    assert!(process_ennemy_atk("Alice", 0).is_none());
}

#[test]
fn automated_turns_stop_when_game_ends() {
    let (mut gm, clients) = alice_lobby();
    start_new_game_by_player(&mut gm, &clients, "Alice", "s1".to_string());
    let mut turns = process_ennemy_atk("Alice", 3).unwrap();
    assert!(turns.tick(&gm));
    update_app_after_atk(&mut gm, &clients, "Alice", outcome("s2", true, 0));
    assert!(!turns.tick(&gm));
    assert_eq!(turns.remaining, 0);
}

#[test]
fn automated_turns_stop_when_session_torn_down() {
    let (mut gm, clients) = alice_lobby();
    start_new_game_by_player(&mut gm, &clients, "Alice", "s1".to_string());
    let mut turns = process_ennemy_atk("Alice", 2).unwrap();
    send_disconnection_to_server_data(&mut gm, &clients, 1, "Alice", "Alice");
    assert!(session(&gm, "Alice").is_none());
    assert!(!turns.tick(&gm));
}

#[test]
fn attack_on_ended_session_changes_nothing() {
    let (mut gm, clients) = alice_lobby();
    start_new_game_by_player(&mut gm, &clients, "Alice", "s1".to_string());
    let (_, pending) = update_app_after_atk(&mut gm, &clients, "Alice", outcome("last", true, 4));
    assert_eq!(pending, 0);
    assert_eq!(session(&gm, "Alice").unwrap().app.game_phase, GamePhase::Ended);
    assert_eq!(game_state_for_attack(&gm, "Alice"), None);
    let (d, pending) = update_app_after_atk(&mut gm, &clients, "Alice", outcome("other", false, 1));
    assert!(d.messages.is_empty());
    assert!(d.saves.is_empty());
    assert_eq!(pending, 0);
    assert_eq!(session(&gm, "Alice").unwrap().app.game_state, "last");
}

#[test]
fn attack_in_lobby_or_unknown_session_changes_nothing() {
    let (mut gm, clients) = alice_lobby();
    let (d, pending) = update_app_after_atk(&mut gm, &clients, "Alice", outcome("x", false, 1));
    assert!(d.messages.is_empty() && pending == 0);
    assert_eq!(session(&gm, "Alice").unwrap().app.game_state, "s0");
    let (d, _) = update_app_after_atk(&mut gm, &clients, "Nobody", outcome("x", false, 1));
    assert!(d.messages.is_empty());
    assert_eq!(gm.servers_data.len(), 1);
}

#[test]
fn save_then_load_keeps_state_and_phase() {
    let (mut gm, clients) = alice_lobby();
    start_new_game_by_player(&mut gm, &clients, "Alice", "state {\"hp\": 3}\nline two".to_string());
    let req = process_save_game(&gm, "Alice").unwrap();
    assert_eq!(req.file_name, SAVED_GAME_MANAGER);
    assert_eq!(req.dir, "games/alice");

    let mut other = GameStateManager::new();
    let d = load_game_by_player(&mut other, &clients, &req.dir, &req.contents, "Bob", 2, None);
    let sd = session(&other, "Bob").unwrap();
    assert_eq!(sd.app.game_state, "state {\"hp\": 3}\nline two");
    assert_eq!(sd.app.game_phase, GamePhase::Running);
    assert_eq!(sd.app.game_dir, "games/alice");
    assert_eq!(sd.owner_player_name, "Bob");
    assert_eq!(entry(sd, "Bob").unwrap().player_ids, vec![2]);
    assert_eq!(other.ongoing_games.len(), 1);
    assert_eq!(other.ongoing_games[0].server_name, "Bob");
    assert_eq!(summary(&d.messages), vec![(2, "app"), (2, "session"), (1, "index"), (2, "index")]);
}

#[test]
fn load_under_given_name_replaces_session() {
    let (mut gm, clients) = alice_lobby();
    let text = encode_snapshot(GamePhase::InitGame, "fresh");
    load_game_by_player(&mut gm, &clients, "games/x", &text, "Bob", 2, Some("Alice".to_string()));
    let sd = session(&gm, "Alice").unwrap();
    assert_eq!(sd.owner_player_name, "Bob");
    assert_eq!(sd.app.game_state, "fresh");
    assert!(entry(sd, "Alice").is_none());
    assert_eq!(gm.ongoing_games.len(), 1);
    assert_eq!(gm.ongoing_games[0].path, "games/x");
}

#[test]
fn load_of_unreadable_file_changes_nothing() {
    let (mut gm, clients) = alice_lobby();
    let d = load_game_by_player(&mut gm, &clients, "games/x", "not a save", "Bob", 2, None);
    assert!(d.messages.is_empty() && d.saves.is_empty());
    assert!(session(&gm, "Bob").is_none());
}

#[test]
fn snapshot_format() {
    assert_eq!(encode_snapshot(GamePhase::Ended, "abc"), "Ended\nabc");
    assert_eq!(encode_snapshot(GamePhase::Default, ""), "Default\n");
    let (p, b) = decode_snapshot("Running\nabc\ndef").unwrap();
    assert_eq!(p, GamePhase::Running);
    assert_eq!(b, "abc\ndef");
    let (p, b) = decode_snapshot("InitGame\n").unwrap();
    assert_eq!(p, GamePhase::InitGame);
    assert_eq!(b, "");
    assert!(decode_snapshot("Running").is_none());
    assert!(decode_snapshot("Paused\nabc").is_none());
    assert!(decode_snapshot("").is_none());
    assert!(decode_snapshot("running\nabc").is_none());
}

#[test]
fn owner_leaving_ends_session_for_everyone() {
    let (mut gm, clients) = alice_lobby();
    update_lobby_page_after_joining_game(&mut gm, &clients, "Alice", "Bob", 2);
    let out = send_disconnection_to_server_data(&mut gm, &clients, 1, "Alice", "Alice");
    assert!(session(&gm, "Alice").is_none());
    assert!(gm.ongoing_games.is_empty());
    assert_eq!(summary(&out), vec![(1, "ended"), (2, "ended"), (1, "index"), (2, "index")]);
}

#[test]
fn owner_with_another_connection_keeps_session() {
    let (mut gm, mut clients) = alice_lobby();
    let c = clients.register().unwrap();
    update_lobby_page_after_joining_game(&mut gm, &clients, "Alice", "Alice", c);
    let out = send_disconnection_to_server_data(&mut gm, &clients, 1, "Alice", "Alice");
    let sd = session(&gm, "Alice").unwrap();
    assert_eq!(entry(sd, "Alice").unwrap().player_ids, vec![c]);
    assert_eq!(summary(&out), vec![(1, "ended"), (c, "app"), (c, "session")]);
}

#[test]
fn player_leaving_keeps_session() {
    let (mut gm, mut clients) = alice_lobby();
    let c = clients.register().unwrap();
    update_lobby_page_after_joining_game(&mut gm, &clients, "Alice", "Bob", 2);
    update_lobby_page_after_joining_game(&mut gm, &clients, "Alice", "Bob", c);
    let out = send_disconnection_to_server_data(&mut gm, &clients, 2, "Alice", "Bob");
    let sd = session(&gm, "Alice").unwrap();
    assert_eq!(entry(sd, "Bob").unwrap().player_ids, vec![c]);
    assert_eq!(summary(&out), vec![(2, "ended"), (1, "app"), (c, "app"), (1, "session"), (c, "session")]);
    send_disconnection_to_server_data(&mut gm, &clients, c, "Alice", "Bob");
    let sd = session(&gm, "Alice").unwrap();
    assert!(entry(sd, "Bob").is_none());
    assert!(entry(sd, "Alice").is_some());
    assert_eq!(gm.ongoing_games.len(), 1);
}

#[test]
fn leaving_unknown_session_does_nothing() {
    let (mut gm, clients) = alice_lobby();
    let out = send_disconnection_to_server_data(&mut gm, &clients, 2, "Nobody", "Bob");
    assert!(out.is_empty());
    assert_eq!(gm.servers_data.len(), 1);
}

#[test]
fn joining_twice_is_idempotent() {
    let (mut gm, clients) = alice_lobby();
    let first = update_lobby_page_after_joining_game(&mut gm, &clients, "Alice", "Bob", 2);
    let second = update_lobby_page_after_joining_game(&mut gm, &clients, "Alice", "Bob", 2);
    let sd = session(&gm, "Alice").unwrap();
    assert_eq!(sd.players_info.len(), 2);
    assert_eq!(entry(sd, "Bob").unwrap().player_ids, vec![2]);
    assert_eq!(summary(&first), vec![(1, "session"), (2, "session")]);
    assert_eq!(summary(&second), summary(&first));
}

#[test]
fn joining_unknown_session_does_nothing() {
    let (mut gm, clients) = alice_lobby();
    let out = update_lobby_page_after_joining_game(&mut gm, &clients, "Nobody", "Bob", 2);
    assert!(out.is_empty());
    assert_eq!(gm.servers_data.len(), 1);
}

#[test]
fn last_character_choice_kept() {
    let (mut gm, clients) = alice_lobby();
    update_lobby_page_after_joining_game(&mut gm, &clients, "Alice", "Bob", 2);
    add_character_on_server_data(&mut gm, &clients, "Alice", "Alice", "Warrior");
    add_character_on_server_data(&mut gm, &clients, "Alice", "Bob", "Thief");
    add_character_on_server_data(&mut gm, &clients, "Alice", "Alice", "Mage");
    let sd = session(&gm, "Alice").unwrap();
    assert_eq!(entry(sd, "Alice").unwrap().character_names, vec!["Mage".to_string()]);
    assert_eq!(entry(sd, "Bob").unwrap().character_names, vec!["Thief".to_string()]);
    assert_eq!(sd.app.active_characters, vec!["Mage".to_string(), "Thief".to_string()]);
}

#[test]
fn character_choice_refused_after_game_ended() {
    let (mut gm, clients) = alice_lobby();
    start_new_game_by_player(&mut gm, &clients, "Alice", "s1".to_string());
    add_character_on_server_data(&mut gm, &clients, "Alice", "Alice", "Warrior");
    update_app_after_atk(&mut gm, &clients, "Alice", outcome("end", true, 0));
    let out = add_character_on_server_data(&mut gm, &clients, "Alice", "Alice", "Mage");
    assert!(out.is_empty());
    let sd = session(&gm, "Alice").unwrap();
    assert_eq!(entry(sd, "Alice").unwrap().character_names, vec!["Warrior".to_string()]);
}

#[test]
fn attacks_on_two_sessions_do_not_interfere() {
    let (mut gm, mut clients) = alice_lobby();
    init_new_game_by_player(&mut gm, &clients, "Bob", 2, "Bob", "b0".to_string(), "games/bob".to_string());
    start_new_game_by_player(&mut gm, &clients, "Alice", "a1".to_string());
    start_new_game_by_player(&mut gm, &clients, "Bob", "b1".to_string());
    let mut other = GameStateManager::new();
    init_new_game_by_player(&mut other, &clients, "Alice", 1, "Alice", "s0".to_string(), "games/alice".to_string());
    init_new_game_by_player(&mut other, &clients, "Bob", 2, "Bob", "b0".to_string(), "games/bob".to_string());
    start_new_game_by_player(&mut other, &clients, "Alice", "a1".to_string());
    start_new_game_by_player(&mut other, &clients, "Bob", "b1".to_string());

    update_app_after_atk(&mut gm, &clients, "Alice", outcome("a2", false, 0));
    assert_eq!(session(&gm, "Bob").unwrap().app.game_state, "b1");
    update_app_after_atk(&mut gm, &clients, "Bob", outcome("b2", true, 0));
    update_app_after_atk(&mut other, &clients, "Bob", outcome("b2", true, 0));
    assert_eq!(session(&other, "Alice").unwrap().app.game_state, "a1");
    update_app_after_atk(&mut other, &clients, "Alice", outcome("a2", false, 0));
    for name in ["Alice", "Bob"] {
        let x = &session(&gm, name).unwrap().app;
        let y = &session(&other, name).unwrap().app;
        assert_eq!(x.game_state, y.game_state);
        assert_eq!(x.game_phase, y.game_phase);
    }
}

#[test]
fn initialize_on_live_session_is_refused() {
    let (mut gm, clients) = alice_lobby();
    let d = init_new_game_by_player(&mut gm, &clients, "Alice", 2, "Bob", "other".to_string(), "games/other".to_string());
    assert!(d.messages.is_empty() && d.saves.is_empty());
    let sd = session(&gm, "Alice").unwrap();
    assert_eq!(sd.owner_player_name, "Alice");
    assert_eq!(sd.app.game_state, "s0");
}

#[test]
fn start_of_unknown_session_does_nothing() {
    let (mut gm, clients) = alice_lobby();
    let d = start_new_game_by_player(&mut gm, &clients, "Nobody", "x".to_string());
    assert!(d.messages.is_empty() && d.saves.is_empty());
}

#[test]
fn replay_by_owner_restarts_game() {
    let (mut gm, clients) = alice_lobby();
    update_lobby_page_after_joining_game(&mut gm, &clients, "Alice", "Bob", 2);
    start_new_game_by_player(&mut gm, &clients, "Alice", "start".to_string());
    update_app_after_atk(&mut gm, &clients, "Alice", outcome("end", true, 0));
    let replay_file = encode_snapshot(GamePhase::Running, "start");

    let d = process_replay_game(&mut gm, &clients, "Alice", 2, &replay_file);
    assert!(d.messages.is_empty());
    assert_eq!(session(&gm, "Alice").unwrap().app.game_phase, GamePhase::Ended);

    let d = process_replay_game(&mut gm, &clients, "Alice", 1, "garbage");
    assert!(d.messages.is_empty());

    let d = process_replay_game(&mut gm, &clients, "Alice", 1, &replay_file);
    let sd = session(&gm, "Alice").unwrap();
    assert_eq!(sd.app.game_phase, GamePhase::Running);
    assert_eq!(sd.app.game_state, "start");
    assert_eq!(d.saves.len(), 2);
    assert_eq!(summary(&d.messages), vec![(1, "app"), (2, "app"), (1, "session"), (2, "session")]);
}

#[test]
fn replay_refused_in_lobby() {
    let (mut gm, clients) = alice_lobby();
    let text = encode_snapshot(GamePhase::Running, "start");
    let d = process_replay_game(&mut gm, &clients, "Alice", 1, &text);
    assert!(d.messages.is_empty());
    assert_eq!(session(&gm, "Alice").unwrap().app.game_phase, GamePhase::InitGame);
}

#[test]
fn engine_update_keeps_phase() {
    let (mut gm, clients) = alice_lobby();
    let out = apply_engine_update(&mut gm, &clients, "Alice", "targets set".to_string());
    let sd = session(&gm, "Alice").unwrap();
    assert_eq!(sd.app.game_state, "targets set");
    assert_eq!(sd.app.game_phase, GamePhase::InitGame);
    assert_eq!(summary(&out), vec![(1, "app"), (1, "session")]);
    assert!(apply_engine_update(&mut gm, &clients, "Nobody", "x".to_string()).is_empty());
}

#[test]
fn save_of_unknown_session_is_none() {
    let (gm, _) = alice_lobby();
    assert!(process_save_game(&gm, "Nobody").is_none());
    let req = process_save_game(&gm, "Alice").unwrap();
    assert_eq!(req.contents, "InitGame\ns0");
}

#[test]
fn closed_connection_is_cleaned_up() {
    let (mut gm, clients) = alice_lobby();
    gm.add_player("Alice".to_string(), 1);
    gm.add_player("Alice".to_string(), 1);
    assert_eq!(gm.players, vec![("Alice".to_string(), vec![1])]);
    let (who, out) = send_disconnection_to_server_manager(&mut gm, &clients, 1);
    assert_eq!(who, Some("Alice".to_string()));
    assert!(gm.players.is_empty());
    assert!(session(&gm, "Alice").is_none());
    assert_eq!(summary(&out), vec![(1, "ended"), (1, "index"), (2, "index")]);
    let (who, out) = send_disconnection_to_server_manager(&mut gm, &clients, 7);
    assert!(who.is_none() && out.is_empty());
}

#[test]
fn logout_forgets_player() {
    let (mut gm, clients) = alice_lobby();
    gm.add_player("Alice".to_string(), 1);
    gm.add_player("Bob".to_string(), 2);
    send_logout_to_server(&mut gm, "Alice");
    assert_eq!(gm.players, vec![("Bob".to_string(), vec![2])]);
    let sd = session(&gm, "Alice").unwrap();
    assert!(sd.players_info.is_empty());
    let _ = clients;
}

#[test]
fn lists_reach_the_right_connections() {
    let (mut gm, mut clients) = alice_lobby();
    let out = login_all_sessions(&clients, "Carol", 42);
    assert_eq!(summary(&out), vec![(1, "reconnect"), (2, "reconnect")]);
    let out = update_saved_game_list_display(&mut gm, &clients, vec!["games/a".to_string(), "games/b".to_string()]);
    assert_eq!(summary(&out), vec![(1, "saved"), (2, "saved")]);
    assert_eq!(gm.saved_games_list, vec!["games/a".to_string(), "games/b".to_string()]);
    let out = update_ongoing_games_list_display(&gm, &clients, 2);
    assert_eq!(summary(&out), vec![(2, "index")]);
    match &out[0].event {
        ServerEvent::UpdateOngoingGames(g) => {
            assert_eq!(g.len(), 1);
            assert_eq!(g[0].server_name, "Alice");
            assert_eq!(g[0].path, "games/alice");
        },
        _ => panic!("wrong event"),
    }
    clients.unregister(2);
    assert!(update_ongoing_games_list_display(&gm, &clients, 2).is_empty());
}

#[test]
fn lookup_by_connection() {
    let (mut gm, clients) = alice_lobby();
    update_lobby_page_after_joining_game(&mut gm, &clients, "Alice", "Bob", 2);
    assert_eq!(gm.get_server_data_by_player_id(2).unwrap().owner_player_name, "Alice");
    assert!(gm.get_server_data_by_player_id(9).is_none());
    assert_eq!(gm.get_app_by_server_name("Alice").unwrap().game_dir, "games/alice");
}

#[test]
fn registry_ids_grow_and_run_out() {
    let mut clients = ConnectionRegistry::new();
    assert_eq!(clients.register(), Some(1));
    assert_eq!(clients.register(), Some(2));
    clients.unregister(1);
    assert_eq!(clients.live, vec![2]);
    assert_eq!(clients.register(), Some(3));
    assert!(!clients.is_live(1));
    let mut full = ConnectionRegistry { next_id: u32::MAX, live: Vec::new() };
    assert_eq!(full.register(), None);
    assert!(full.live.is_empty());
}

#[test]
fn broadcast_skips_closed_connections() {
    let (mut gm, mut clients) = alice_lobby();
    update_lobby_page_after_joining_game(&mut gm, &clients, "Alice", "Bob", 2);
    clients.unregister(2);
    let out = apply_engine_update(&mut gm, &clients, "Alice", "x".to_string());
    assert_eq!(summary(&out), vec![(1, "app"), (1, "session")]);
}

#[test]
fn closed_guest_connection_leaves_every_session() {
    let (mut gm, clients) = alice_lobby();
    init_new_game_by_player(&mut gm, &clients, "Carol", 1, "Carol", "c0".to_string(), "games/carol".to_string());
    gm.add_player("Bob".to_string(), 2);
    update_lobby_page_after_joining_game(&mut gm, &clients, "Alice", "Bob", 2);
    update_lobby_page_after_joining_game(&mut gm, &clients, "Carol", "Bob", 2);
    let (who, out) = send_disconnection_to_server_manager(&mut gm, &clients, 2);
    assert_eq!(who, Some("Bob".to_string()));
    for name in ["Alice", "Carol"] {
        let sd = session(&gm, name).unwrap();
        assert!(entry(sd, "Bob").is_none());
        assert_eq!(sd.players_info.len(), 1);
    }
    assert_eq!(
        summary(&out),
        vec![(1, "app"), (1, "session"), (1, "app"), (1, "session")]
    );
}

#[test]
fn start_refused_after_game_ended() {
    let (mut gm, clients) = alice_lobby();
    start_new_game_by_player(&mut gm, &clients, "Alice", "s1".to_string());
    update_app_after_atk(&mut gm, &clients, "Alice", outcome("end", true, 0));
    let d = start_new_game_by_player(&mut gm, &clients, "Alice", "again".to_string());
    assert!(d.messages.is_empty() && d.saves.is_empty());
    let sd = session(&gm, "Alice").unwrap();
    assert_eq!(sd.app.game_phase, GamePhase::Ended);
    assert_eq!(sd.app.game_state, "end");
}

#[test]
fn closed_connection_pruned_without_directory_entry() {
    let (mut gm, mut clients) = alice_lobby();
    let c = clients.register().unwrap();
    update_lobby_page_after_joining_game(&mut gm, &clients, "Alice", "Bob", 2);
    update_lobby_page_after_joining_game(&mut gm, &clients, "Alice", "Dan", 2);
    update_lobby_page_after_joining_game(&mut gm, &clients, "Alice", "Dan", c);
    assert!(gm.players.is_empty());
    let (who, out) = send_disconnection_to_server_manager(&mut gm, &clients, 2);
    assert!(who.is_none());
    let sd = session(&gm, "Alice").unwrap();
    assert!(entry(sd, "Bob").is_none());
    assert_eq!(entry(sd, "Dan").unwrap().player_ids, vec![c]);
    assert_eq!(summary(&out), vec![(1, "app"), (c, "app"), (1, "session"), (c, "session")]);
}

#[test]
fn closed_owner_connection_after_logout_ends_session() {
    let (mut gm, clients) = alice_lobby();
    gm.add_player("Alice".to_string(), 1);
    update_lobby_page_after_joining_game(&mut gm, &clients, "Alice", "Bob", 2);
    gm.remove_player("Alice");
    let (who, out) = send_disconnection_to_server_manager(&mut gm, &clients, 1);
    assert!(who.is_none());
    assert!(session(&gm, "Alice").is_none());
    assert!(gm.ongoing_games.is_empty());
    assert_eq!(summary(&out), vec![(1, "ended"), (2, "ended"), (1, "index"), (2, "index")]);
}

#[test]
fn no_player_attack_during_automated_turns() {
    let (mut gm, clients) = alice_lobby();
    let mut board = AutoTurnBoard::new();
    assert!(!player_may_attack(&board, &gm, "Alice"));
    start_new_game_by_player(&mut gm, &clients, "Alice", "s1".to_string());
    assert!(player_may_attack(&board, &gm, "Alice"));
    board.mark("Alice");
    board.mark("Bob");
    assert!(board.is_busy("Alice"));
    assert!(!player_may_attack(&board, &gm, "Alice"));
    board.release("Alice");
    assert!(!board.is_busy("Alice"));
    assert!(board.is_busy("Bob"));
    assert!(player_may_attack(&board, &gm, "Alice"));
}

#[test]
fn closed_connection_leaves_every_directory_entry() {
    let (mut gm, clients) = alice_lobby();
    gm.add_player("A".to_string(), 2);
    gm.add_player("B".to_string(), 2);
    gm.add_player("B".to_string(), 1);
    let (who, _) = send_disconnection_to_server_manager(&mut gm, &clients, 2);
    assert_eq!(who, Some("A".to_string()));
    assert_eq!(gm.players, vec![("B".to_string(), vec![1])]);
}

#[test]
fn leaving_player_leaves_active_combatants() {
    let (mut gm, clients) = alice_lobby();
    update_lobby_page_after_joining_game(&mut gm, &clients, "Alice", "Bob", 2);
    add_character_on_server_data(&mut gm, &clients, "Alice", "Alice", "Warrior");
    add_character_on_server_data(&mut gm, &clients, "Alice", "Bob", "Thief");
    assert_eq!(session(&gm, "Alice").unwrap().app.active_characters, vec!["Warrior".to_string(), "Thief".to_string()]);
    send_disconnection_to_server_data(&mut gm, &clients, 2, "Alice", "Bob");
    assert_eq!(session(&gm, "Alice").unwrap().app.active_characters, vec!["Warrior".to_string()]);
    update_lobby_page_after_joining_game(&mut gm, &clients, "Alice", "Carol", 2);
    add_character_on_server_data(&mut gm, &clients, "Alice", "Carol", "Mage");
    send_disconnection_to_server_manager(&mut gm, &clients, 2);
    assert_eq!(session(&gm, "Alice").unwrap().app.active_characters, vec!["Warrior".to_string()]);
    send_logout_to_server(&mut gm, "Alice");
    assert!(session(&gm, "Alice").unwrap().app.active_characters.is_empty());
}

#[test]
fn board_starts_and_ends_automated_turns() {
    let (mut gm, clients) = alice_lobby();
    start_new_game_by_player(&mut gm, &clients, "Alice", "s1".to_string());
    let mut board = AutoTurnBoard::new();
    assert!(board.after_attack("Alice", 2, false).is_none());
    assert!(board.after_attack("Alice", 0, true).is_none());
    assert!(!board.is_busy("Alice"));
    let mut turns = board.after_attack("Alice", 2, true).unwrap();
    assert!(board.is_busy("Alice"));
    assert!(board.next_turn(&mut turns, &gm));
    assert!(board.next_turn(&mut turns, &gm));
    assert!(board.is_busy("Alice"));
    assert!(!board.next_turn(&mut turns, &gm));
    assert!(!board.is_busy("Alice"));
    assert!(player_may_attack(&board, &gm, "Alice"));
}
