//! Following the game through its console log.
use deadlock_mods::presence::hero_data::HeroDataStore;
use deadlock_mods::presence::log_parser::LogParser;
use deadlock_mods::presence::signals::{LineEvent, LineSignals};
use deadlock_mods::presence::state::{GamePhase, GameState, MatchMode};

fn event(event: LineEvent) -> LineSignals {
    LineSignals { account: None, event, menu: false, later: LineEvent::Nothing }
}

fn later(later: LineEvent) -> LineSignals {
    LineSignals { account: None, event: LineEvent::Nothing, menu: false, later }
}

fn account(id: u64) -> LineSignals {
    LineSignals {
        account: Some(id),
        event: LineEvent::Nothing,
        menu: false,
        later: LineEvent::Nothing,
    }
}

fn party(party_id: u64, name: &str, account_id: u64) -> LineSignals {
    event(LineEvent::Party { party_id, name: name.to_string(), account_id })
}

#[test]
fn normalizes_variant_hero_signals_from_vmdl_lines() {
    let hero_store = HeroDataStore::new();
    let mut parser = LogParser::new();
    let mut state = GameState::new();
    state.phase = GamePhase::InMatch;
    state.match_mode = MatchMode::Sandbox;

    let changed = parser.process_line(
        "[Client] VMDL Camera Pose Success! models/heroes/mirage_v2/model.vmdl",
        &mut state,
        &hero_store,
        0,
    );

    assert!(changed);
    assert_eq!(state.hero_key.as_deref(), Some("mirage"));
}

#[test]
fn matches_log_patterns_case_insensitively() {
    let hero_store = HeroDataStore::new();
    let mut parser = LogParser::new();
    let mut state = GameState::new();
    state.phase = GamePhase::InMatch;
    state.match_mode = MatchMode::Sandbox;

    parser.process_line(
        "[client] vmdl camera pose success! models/heroes/gigawatt_prisoner/model.vmdl",
        &mut state,
        &hero_store,
        0,
    );

    assert_eq!(state.hero_key.as_deref(), Some("gigawatt"));
}

#[test]
fn partial_roster_does_not_infer_street_brawl() {
    let hero_store = HeroDataStore::new();
    let mut parser = LogParser::new();
    let mut state = GameState::new();
    state.phase = GamePhase::MatchIntro;
    state.match_mode = MatchMode::Unknown;

    parser.process_line("[Client] Players: 5 (1 bots) / 32 humans", &mut state, &hero_store, 0);

    assert_eq!(state.player_count, 5);
    assert_eq!(state.match_mode, MatchMode::Unknown);
}

#[test]
fn full_roster_infers_unranked() {
    let hero_store = HeroDataStore::new();
    let mut parser = LogParser::new();
    let mut state = GameState::new();
    state.phase = GamePhase::InMatch;
    state.match_mode = MatchMode::Unknown;

    parser.process_line("[Client] Players: 12 (0 bots) / 32 humans", &mut state, &hero_store, 0);

    assert_eq!(state.match_mode, MatchMode::Unranked);
}

#[test]
fn moves_from_hideout_to_queue_on_matchmaking_start() {
    let hero_store = HeroDataStore::new();
    let mut parser = LogParser::new();
    let mut state = GameState::new();
    state.enter_hideout();

    parser.process_line(
        "[GCClient] Send msg 9010 (k_EMsgClientToGCStartMatchmaking)",
        &mut state,
        &hero_store,
        0,
    );

    assert_eq!(state.phase, GamePhase::InQueue);
}

#[test]
fn lines_that_tell_nothing_change_nothing() {
    let store = HeroDataStore::new();
    let mut parser = LogParser::new();
    let mut state = GameState::new();
    assert!(!parser.process_line("[Engine] nothing to see", &mut state, &store, 5));
    assert_eq!(state.phase, GamePhase::MainMenu);
    assert_eq!(state.queue_start_time, None);
}

#[test]
fn names_are_compared_in_lower_case() {
    let store = HeroDataStore::new();
    assert_eq!(store.normalize_codename("MIRAGE_V2"), "mirage");
    assert_eq!(store.normalize_codename("Inferno"), "inferno");
}

#[test]
fn maps_are_read_in_lower_case_and_trimmed() {
    let store = HeroDataStore::new();
    let mut parser = LogParser::new();
    let mut state = GameState::new();
    assert!(parser.process_line("[Client] Map: \"  DL_Hideout \"", &mut state, &store, 0));
    assert_eq!(state.phase, GamePhase::Hideout);
    assert_eq!(state.map_name.as_deref(), Some("dl_hideout"));
}

#[test]
fn reasons_are_read_in_upper_case() {
    let store = HeroDataStore::new();
    let mut parser = LogParser::new();
    let mut state = GameState::new();
    state.phase = GamePhase::InMatch;
    assert!(parser.process_line(
        "[Client] Disconnected from server: network_disconnect_exiting",
        &mut state,
        &store,
        0
    ));
    assert_eq!(state.phase, GamePhase::MainMenu);
}

#[test]
fn a_match_keeps_the_hero_that_is_named_first() {
    let store = HeroDataStore::new();
    let mut parser = LogParser::new();
    let mut state = GameState::new();
    parser.apply_signals(
        event(LineEvent::MapLoaded { name: "street_test".to_string() }),
        false,
        &mut state,
        &store,
        100,
    );
    assert_eq!(state.phase, GamePhase::InMatch);
    assert_eq!(state.match_mode, MatchMode::Unranked);
    assert_eq!(state.match_start_time, Some(100));

    let first = event(LineEvent::HeroLoaded { key: "haze".to_string() });
    assert!(parser.apply_signals(first, false, &mut state, &store, 101));
    let second = event(LineEvent::HeroLoaded { key: "abrams".to_string() });
    assert!(!parser.apply_signals(second, false, &mut state, &store, 102));
    assert_eq!(state.hero_key.as_deref(), Some("haze"));
}

#[test]
fn the_werewolf_transforms() {
    let store = HeroDataStore::new();
    let mut parser = LogParser::new();
    let mut state = GameState::new();
    state.phase = GamePhase::InMatch;
    state.match_mode = MatchMode::Sandbox;
    let model = event(LineEvent::HeroModel { key: "werewolf".to_string(), transforming: true });
    assert!(parser.apply_signals(model, false, &mut state, &store, 0));
    assert!(state.is_transformed);
    assert!(parser.apply_signals(event(LineEvent::FormOff), false, &mut state, &store, 0));
    assert!(!state.is_transformed);
    assert!(parser.apply_signals(event(LineEvent::FormOn), false, &mut state, &store, 0));
    assert!(state.is_transformed);
}

#[test]
fn parties_count_their_members_and_the_player() {
    let store = HeroDataStore::new();
    let mut parser = LogParser::new();
    let mut state = GameState::new();
    parser.apply_signals(account(1), false, &mut state, &store, 0);
    assert_eq!(state.party_size, 1);
    parser.apply_signals(party(9, "joinedparty", 2), false, &mut state, &store, 0);
    assert_eq!(state.party_size, 2);
    parser.apply_signals(party(9, "joinedparty", 3), false, &mut state, &store, 0);
    assert_eq!(state.party_size, 3);
    // Another party than the one the player is in.
    parser.apply_signals(party(8, "leftparty", 3), false, &mut state, &store, 0);
    assert_eq!(state.party_size, 3);
    parser.apply_signals(party(9, "kickedfromparty", 3), false, &mut state, &store, 0);
    assert_eq!(state.party_size, 2);
    parser.apply_signals(party(9, "leftparty", 1), false, &mut state, &store, 0);
    assert_eq!(state.party_size, 1);
}

#[test]
fn a_party_that_disbands_is_gone() {
    let store = HeroDataStore::new();
    let mut parser = LogParser::new();
    let mut state = GameState::new();
    parser.apply_signals(party(9, "joinedparty", 2), false, &mut state, &store, 0);
    parser.apply_signals(account(1), false, &mut state, &store, 0);
    assert_eq!(state.party_size, 2);
    parser.apply_signals(party(9, "partydisbanded", 2), false, &mut state, &store, 0);
    assert_eq!(state.party_size, 1);
}

#[test]
fn the_menu_ends_a_match_and_nothing_else() {
    let store = HeroDataStore::new();
    let mut parser = LogParser::new();
    let mut state = GameState::new();
    let menu = || LineSignals {
        account: None,
        event: LineEvent::Nothing,
        menu: true,
        later: LineEvent::BotAdded,
    };
    state.phase = GamePhase::InMatch;
    assert!(parser.apply_signals(menu(), false, &mut state, &store, 0));
    assert_eq!(state.phase, GamePhase::PostMatch);
    // Out of a match the rest of the line counts.
    assert!(parser.apply_signals(menu(), false, &mut state, &store, 0));
    assert_eq!(state.match_mode, MatchMode::BotMatch);
}

#[test]
fn game_states_do_not_count_in_the_hideout() {
    let store = HeroDataStore::new();
    let mut parser = LogParser::new();
    let mut state = GameState::new();
    state.enter_hideout();
    let progress =
        || later(LineEvent::GameStateChanged { name: "gameinprogress".to_string(), id: 7 });
    assert!(!parser.apply_signals(progress(), true, &mut state, &store, 0));
    assert_eq!(state.phase, GamePhase::Hideout);
    assert!(parser.apply_signals(progress(), false, &mut state, &store, 0));
    assert_eq!(state.phase, GamePhase::InMatch);
    let post = later(LineEvent::GameStateChanged { name: "other".to_string(), id: 6 });
    assert!(parser.apply_signals(post, false, &mut state, &store, 0));
    assert_eq!(state.phase, GamePhase::PostMatch);
    assert_eq!(state.game_state_id, Some(6));
}

#[test]
fn a_watched_match_shows_no_hero() {
    let store = HeroDataStore::new();
    let mut parser = LogParser::new();
    let mut state = GameState::new();
    assert!(parser.apply_signals(event(LineEvent::Broadcast), false, &mut state, &store, 0));
    let hero = event(LineEvent::HeroLoaded { key: "haze".to_string() });
    assert!(!parser.apply_signals(hero, false, &mut state, &store, 0));
    let map = event(LineEvent::MapLoaded { name: "street_test".to_string() });
    assert!(!parser.apply_signals(map, false, &mut state, &store, 0));
    assert_eq!(state.phase, GamePhase::Spectating);
    assert!(parser.apply_signals(event(LineEvent::LobbyDestroyed), false, &mut state, &store, 0));
    assert_eq!(state.phase, GamePhase::PostMatch);
}

#[test]
fn connecting_to_a_server_begins_the_intro() {
    let store = HeroDataStore::new();
    let mut parser = LogParser::new();
    let mut state = GameState::new();
    let own = event(LineEvent::Connected { address: "loopback".to_string(), loopback: true });
    assert!(!parser.apply_signals(own, false, &mut state, &store, 0));
    assert_eq!(state.server_address.as_deref(), Some("loopback"));
    let server = event(LineEvent::Connected { address: "1.2.3.4".to_string(), loopback: false });
    assert!(parser.apply_signals(server, false, &mut state, &store, 0));
    assert_eq!(state.phase, GamePhase::MatchIntro);
}

#[test]
fn queues_are_entered_and_left() {
    let store = HeroDataStore::new();
    let mut parser = LogParser::new();
    let mut state = GameState::new();
    state.enter_hideout();
    parser.apply_signals(event(LineEvent::QueueStarted), false, &mut state, &store, 42);
    assert_eq!(state.queue_start_time, Some(42));
    parser.apply_signals(event(LineEvent::QueueStopped), false, &mut state, &store, 43);
    assert_eq!(state.phase, GamePhase::Hideout);
    assert_eq!(state.queue_start_time, None);
    parser.apply_signals(event(LineEvent::LobbyCreated), false, &mut state, &store, 44);
    assert_eq!(state.phase, GamePhase::MatchIntro);
}

#[test]
fn heroes_in_the_hideout_count_once_it_is_loaded() {
    let store = HeroDataStore::new();
    let mut parser = LogParser::new();
    let mut state = GameState::new();
    state.enter_hideout();
    let hero = || event(LineEvent::HeroLoaded { key: "haze".to_string() });
    assert!(!parser.apply_signals(hero(), true, &mut state, &store, 0));
    let host = later(LineEvent::HostActivated { map: "dl_hideout".to_string() });
    parser.apply_signals(host, true, &mut state, &store, 0);
    assert!(parser.apply_signals(hero(), true, &mut state, &store, 0));
    parser.reset_tracking();
    let other = event(LineEvent::HeroLoaded { key: "abrams".to_string() });
    assert!(!parser.apply_signals(other, true, &mut state, &store, 0));
}
