use ti4_engine::state::{GameState, Phase, Seat, SystemState, Unit};
use ti4_engine::status::{resolve_after_token_gain, resolve_before_token_gain, resolve_status_phase, StatusPhaseError};

fn seat(id: &str) -> Seat {
    Seat {
        id: id.to_string(),
        faction: "generic".to_string(),
        tactic_tokens: 3,
        fleet_tokens: 3,
        strategic_tokens: 2,
        trade_goods: 0,
        commodities: 0,
        victory_points: 0,
        relic_fragments: vec![],
        action_cards: vec![],
        secret_objectives: vec![],
        notes: vec![],
        abilities: vec![],
        technologies: vec![],
        captured_units: vec![],
        breakthrough: None,
        strategy_cards: vec![],
        exhausted_strategy_cards: vec![],
        gravity_drive_used_activation: None,
        exhausted_technologies: vec![],
        passed: false,
        stability: false,
        exhausted_relics: vec![],
        home_system: None,
        home_planets: vec![],
        leaders: vec![],
    }
}

fn system(id: &str) -> SystemState {
    SystemState { id: id.to_string(), units: vec![], planet_units: vec![], planet_control: vec![], command_tokens: vec![] }
}

fn game(players: &[&str]) -> GameState {
    GameState {
        players: players.iter().map(|p| seat(p)).collect(),
        board: vec![system("18")],
        seating_order: players.iter().map(|p| p.to_string()).collect(),
        transactions_this_round: vec![],
        transacted_this_turn: vec![],
        black_market: false,
        active_system: None,
        pending: None,
        activation_seq: 0,
        exhausted_planets: vec![],
        phase: Phase::Status,
        finished: false,
        objective_deck: vec!["corner".to_string(), "diversify".to_string()],
        revealed_objectives: vec![],
        speaker: String::new(),
        agenda_deck: vec![],
        expedition_slices: vec![],
        placed_planets: vec![],
        thunders_edge_system: None,
        action_card_deck: (1..=10).map(|n| format!("ac{n}")).collect(),
    }
}

fn names(ids: &[&str]) -> Vec<String> {
    ids.iter().map(|s| s.to_string()).collect()
}

fn dreadnought(owner: &str, damaged: bool) -> Unit {
    Unit { type_id: "dreadnought".to_string(), owner: owner.to_string(), sustained_damage: damaged, galvanized: false }
}

#[test]
fn status_reveals_draws_readies_and_returns_strategy_cards_in_initiative_order() {
    let mut state = game(&["a", "b"]);
    state.players[0].strategy_cards = names(&["pok8imperial"]);
    state.players[1].strategy_cards = names(&["pok1leadership"]);

    let report = resolve_status_phase(&mut state, &names(&["a", "b"]), None).unwrap();

    assert_eq!(report.action_cards_drawn, vec![("a".to_string(), 1), ("b".to_string(), 1)]);
    assert!(state.players.iter().all(|player| player.strategy_cards.is_empty()));
    assert_eq!(report.revealed_objective, Some("corner".to_string()));
    assert_eq!(state.revealed_objectives, names(&["corner"]));
}

#[test]
fn status_keeps_initiative_for_draws_then_readies_repairs_and_resets() {
    let mut state = game(&["a", "b"]);
    state.players[1].strategy_cards = names(&["pok1leadership"]);
    state.players[0].strategy_cards = names(&["pok8imperial"]);
    state.players[0].technologies.push("nm".to_string());
    state.players[0].passed = true;
    state.players[0].exhausted_technologies.push("nm".to_string());
    state.exhausted_planets.push("jord".to_string());
    state.board[0].units.push(dreadnought("a", true));
    state.board[0].command_tokens.push("b".to_string());
    let initiative = names(&["b", "a"]);

    let report = resolve_status_phase(&mut state, &initiative, None).unwrap();

    assert_eq!(report.action_cards_drawn, vec![("b".to_string(), 1), ("a".to_string(), 2)]);
    assert_eq!(report.returned_command_tokens, vec![("18".to_string(), "b".to_string())]);
    assert_eq!(report.readied_planets, names(&["jord"]));
    assert_eq!(report.repaired_units, 1);
    assert!(state.exhausted_planets.is_empty());
    assert!(state.players[0].exhausted_technologies.is_empty());
    assert!(state.players[0].strategy_cards.is_empty());
    assert!(!state.players[0].passed);
    assert!(!state.board[0].units[0].sustained_damage);
    assert!(state.board[0].command_tokens.is_empty());
    assert_eq!(state.players[1].action_cards, names(&["ac1"]));
    assert_eq!(state.players[0].action_cards, names(&["ac2", "ac3"]));
}

#[test]
fn an_empty_objective_deck_ends_before_later_status_steps() {
    let mut state = game(&["a"]);
    state.objective_deck.clear();
    let before_hand = state.players[0].action_cards.clone();

    let report = resolve_status_phase(&mut state, &names(&["a"]), None).unwrap();

    assert!(report.game_ended);
    assert!(state.finished);
    assert_eq!(state.players[0].action_cards, before_hand);
}

#[test]
fn the_two_halves_compose_into_the_whole() {
    let mut whole = game(&["a", "b"]);
    whole.players[0].strategy_cards = names(&["pok8imperial"]);
    whole.board[0].command_tokens.push("a".to_string());
    let mut halves = whole.clone();
    let initiative = names(&["a", "b"]);

    let whole_report = resolve_status_phase(&mut whole, &initiative, Some("b")).unwrap();

    let mut halves_report = resolve_before_token_gain(&mut halves, &initiative).unwrap();
    resolve_after_token_gain(&mut halves, &mut halves_report, Some("b"));

    assert_eq!(whole_report, halves_report);
    assert_eq!(whole, halves);
}

#[test]
fn initiative_order_is_captured_before_step_818_destroys_it() {
    let mut state = game(&["a", "b"]);
    state.players[1].strategy_cards = names(&["pok1leadership"]);
    state.players[0].strategy_cards = names(&["pok8imperial"]);
    let expected = names(&["b", "a"]);

    let report = resolve_status_phase(&mut state, &expected, None).unwrap();

    assert_eq!(report.initiative_order, expected);
    assert_eq!(report.returned_strategy_cards, vec![("a".to_string(), "pok8imperial".to_string()), ("b".to_string(), "pok1leadership".to_string())]);
}

#[test]
fn resolving_outside_status_is_atomic() {
    let mut state = game(&["a"]);
    state.phase = Phase::Strategy;
    let before = state.clone();

    assert_eq!(resolve_status_phase(&mut state, &names(&["a"]), None), Err(StatusPhaseError::WrongPhase(Phase::Strategy)));
    assert_eq!(state, before);
}

#[test]
fn political_stability_keeps_and_readies_the_strategy_cards() {
    let mut state = game(&["a", "b"]);
    state.players[0].strategy_cards = names(&["pok3politics"]);
    state.players[0].exhausted_strategy_cards = names(&["pok3politics"]);
    state.players[0].stability = true;
    state.players[1].strategy_cards = names(&["pok5trade"]);

    let report = resolve_status_phase(&mut state, &names(&["a", "b"]), None).unwrap();

    assert_eq!(state.players[0].strategy_cards, names(&["pok3politics"]));
    assert!(state.players[0].exhausted_strategy_cards.is_empty());
    assert!(state.players[1].strategy_cards.is_empty());
    assert_eq!(report.returned_strategy_cards, vec![("b".to_string(), "pok5trade".to_string())]);
}

#[test]
fn the_minister_of_policy_is_owed_a_card() {
    let mut state = game(&["a", "b"]);
    let report = resolve_status_phase(&mut state, &names(&["a", "b"]), Some("b")).unwrap();
    assert_eq!(report.action_card_draws, names(&["b"]));
}

#[test]
fn a_short_action_deck_deals_what_it_has_in_initiative_order() {
    let mut state = game(&["a", "b"]);
    state.action_card_deck = names(&["last"]);
    state.players[0].technologies.push("nm".to_string());
    let report = resolve_status_phase(&mut state, &names(&["a", "b"]), None).unwrap();
    assert_eq!(report.action_cards_drawn, vec![("a".to_string(), 1), ("b".to_string(), 0)]);
    assert_eq!(state.players[0].action_cards, names(&["last"]));
    assert!(state.action_card_deck.is_empty());
}

#[test]
fn only_damaged_space_units_are_repaired() {
    let mut state = game(&["a"]);
    state.board[0].units = vec![dreadnought("a", false), dreadnought("a", true), dreadnought("a", true)];
    let report = resolve_status_phase(&mut state, &names(&["a"]), None).unwrap();
    assert_eq!(report.repaired_units, 2);
    assert!(state.board[0].units.iter().all(|u| !u.sustained_damage));
}
