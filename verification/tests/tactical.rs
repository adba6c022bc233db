use ti4_engine::choice::ChoiceOption;
use ti4_engine::state::{GameState, Seat, SystemState, Unit};
use ti4_engine::tactical::{
    activatable, activate, activation_options, movement_options, read_move, MoveSelection, Movable, TacticalError,
    MOVE_KIND,
};

fn player() -> String {
    "a".to_string()
}

fn seat(id: &str) -> Seat {
    Seat {
        id: id.to_string(),
        faction: "generic".to_string(),
        tactic_tokens: 3,
        fleet_tokens: 3,
        strategic_tokens: 2,
        trade_goods: 0,
        commodities: 0,
        victory_points: 0,
        relic_fragments: vec![],
        action_cards: vec![],
        secret_objectives: vec![],
        notes: vec![],
        abilities: vec![],
        technologies: vec![],
        captured_units: vec![],
        breakthrough: None,
        strategy_cards: vec![],
        exhausted_strategy_cards: vec![],
        gravity_drive_used_activation: None,
        exhausted_technologies: vec![],
        passed: false,
        stability: false,
        exhausted_relics: vec![],
        home_system: None,
        home_planets: vec![],
        leaders: vec![],
    }
}

fn system(id: &str) -> SystemState {
    SystemState { id: id.to_string(), units: vec![], planet_units: vec![], planet_control: vec![], command_tokens: vec![] }
}

/// Seven tiles: a centre and six around it, every one on the board.
fn fixture() -> (GameState, Vec<String>) {
    let ids: Vec<String> = (0..7).map(|i| format!("t{i}")).collect();
    let state = GameState {
        players: vec![seat("a"), seat("b")],
        board: ids.iter().map(|id| system(id)).collect(),
        seating_order: vec!["a".to_string(), "b".to_string()],
        transactions_this_round: vec![],
        transacted_this_turn: vec![],
        black_market: false,
        active_system: None,
        pending: None,
        activation_seq: 0,
        exhausted_planets: vec![],
        phase: ti4_engine::state::Phase::Action,
        finished: false,
        objective_deck: vec![],
        revealed_objectives: vec![],
        speaker: String::new(),
        agenda_deck: vec![],
        expedition_slices: vec![],
        placed_planets: vec![],
        thunders_edge_system: None,
        action_card_deck: vec![],
    };
    (state, ids)
}

fn ship(kind: &str) -> Unit {
    Unit { type_id: kind.to_string(), owner: player(), sustained_damage: false, galvanized: false }
}

fn candidate(origin: &str, index: usize, unit: Unit) -> Movable {
    Movable { origin: origin.to_string(), index, unit }
}

#[test]
fn every_system_without_your_own_token_may_be_activated() {
    let (mut state, ids) = fixture();
    state.board[0].command_tokens.push(player());
    state.board[1].command_tokens.push("b".to_string());
    let options = activatable(&state, &ids, &player());
    assert!(!options.contains(&ids[0]), "your own token bars it");
    assert!(options.contains(&ids[1]), "an opponent's token does not - that is the attack");
    assert_eq!(options.len(), 6, "seven tiles, one of them yours");
}

#[test]
fn a_player_without_a_tactic_token_is_not_offered_the_action() {
    let (mut state, ids) = fixture();
    state.players[0].tactic_tokens = 0;
    assert!(activation_options(&state, &ids, &player()).is_none());
}

#[test]
fn the_activation_choice_offers_each_open_system() {
    let (state, ids) = fixture();
    let choice = activation_options(&state, &ids, &player()).unwrap();
    assert_eq!(choice.prompt, "activate a system");
    assert_eq!(choice.options.len(), 7);
    assert_eq!(choice.options[0].id, "t0");
    assert_eq!(choice.options[0].label, "activate t0");
}

#[test]
fn activating_spends_a_token_and_places_it() {
    let (mut state, ids) = fixture();
    let before = state.players[0].tactic_tokens;
    activate(&mut state, &player(), &ids[0]).unwrap();
    assert_eq!(state.players[0].tactic_tokens, before - 1, "89.1 spends a tactic token");
    assert!(state.board[0].command_tokens.contains(&player()));
    assert_eq!(state.active_system, Some(ids[0].clone()));
    assert_eq!(state.pending.as_deref(), Some("move"));
    assert_eq!(state.activation_seq, 1);
}

#[test]
fn activating_a_system_off_the_board_puts_it_there() {
    let (mut state, _) = fixture();
    activate(&mut state, &player(), "far").unwrap();
    let last = state.board.last().unwrap();
    assert_eq!(last.id, "far");
    assert_eq!(last.command_tokens, vec![player()]);
}

#[test]
fn a_system_you_already_hold_cannot_be_activated_again() {
    let (mut state, ids) = fixture();
    activate(&mut state, &player(), &ids[0]).unwrap();
    let settled = state.clone();
    assert!(matches!(
        activate(&mut state, &player(), &ids[0]),
        Err(TacticalError::AlreadyActivated(p, s)) if p == player() && s == ids[0]
    ));
    assert_eq!(state, settled);
}

#[test]
fn activating_without_a_token_is_refused_and_spends_nothing() {
    let (mut state, ids) = fixture();
    state.players[0].tactic_tokens = 0;
    let settled = state.clone();
    assert!(matches!(activate(&mut state, &player(), &ids[0]), Err(TacticalError::NoTacticToken(p)) if p == player()));
    assert_eq!(state, settled);
}

#[test]
fn interchangeable_ships_are_one_option_not_three() {
    let found: Vec<Movable> = (0..3).map(|i| candidate("t1", i, ship("cruiser"))).collect();
    let choice = movement_options(&player(), &found);
    assert_eq!(choice.options.len(), 2, "one move, plus finish movement");
}

#[test]
fn a_damaged_ship_is_a_different_move_from_a_fresh_one() {
    let mut damaged = ship("dreadnought");
    damaged.sustained_damage = true;
    let found = vec![candidate("t1", 0, ship("dreadnought")), candidate("t1", 1, damaged)];
    let choice = movement_options(&player(), &found);
    assert_eq!(choice.options.len(), 3, "two moves, plus finish movement");
    assert!(choice.options.iter().any(|o| o.label.contains("damaged")), "the label says which is which");
    assert_eq!(choice.options[1].label, "move dreadnought (damaged) from t1");
    assert_eq!(choice.options[1].id, "move|t1|1");
}

#[test]
fn movement_always_offers_finishing() {
    let choice = movement_options(&player(), &vec![]);
    assert_eq!(choice.options.len(), 1);
    assert!(choice.options[0].is_decline());
}

#[test]
fn a_move_answer_names_the_ship_it_selected() {
    let found = vec![candidate("t1", 0, ship("carrier"))];
    let choice = movement_options(&player(), &found);
    let picked = choice.options[0].clone();
    assert_eq!(read_move(&choice, picked).unwrap(), MoveSelection::Ship { origin: "t1".to_string(), index: 0 });
}

#[test]
fn finishing_movement_is_read_as_done() {
    let choice = movement_options(&player(), &vec![]);
    let done = choice.options.iter().find(|o| o.id == "done_moving").unwrap().clone();
    assert_eq!(read_move(&choice, done).unwrap(), MoveSelection::Done);
}

#[test]
fn an_answer_that_was_not_offered_is_refused() {
    let choice = movement_options(&player(), &vec![]);
    let error = read_move(&choice, ChoiceOption::new("move|nowhere|0", MOVE_KIND)).unwrap_err();
    assert!(matches!(error, TacticalError::IllegalChoice(_)));
}
