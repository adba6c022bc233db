use ti4_engine::choice::ChoiceOption;
use ti4_engine::state::{GameState, LeaderStatus, Seat, SystemState, Unit};
use ti4_engine::sucaban::SucabanWindow;

fn seat(id: &str) -> Seat {
    Seat {
        id: id.to_string(),
        faction: "generic".to_string(),
        tactic_tokens: 3,
        fleet_tokens: 3,
        strategic_tokens: 2,
        trade_goods: 0,
        commodities: 0,
        victory_points: 0,
        relic_fragments: vec![],
        action_cards: vec![],
        secret_objectives: vec![],
        notes: vec![],
        abilities: vec![],
        technologies: vec![],
        captured_units: vec![],
        breakthrough: None,
        strategy_cards: vec![],
        exhausted_strategy_cards: vec![],
        gravity_drive_used_activation: None,
        exhausted_technologies: vec![],
        passed: false,
        stability: false,
        exhausted_relics: vec![],
        home_system: None,
        home_planets: vec![],
        leaders: vec![],
    }
}

fn system(id: &str) -> SystemState {
    SystemState { id: id.to_string(), units: vec![], planet_units: vec![], planet_control: vec![], command_tokens: vec![] }
}

fn game() -> GameState {
    GameState {
        players: vec![seat("a"), seat("b")],
        board: vec![system("01"), system("02")],
        seating_order: vec!["a".to_string(), "b".to_string()],
        transactions_this_round: vec![],
        transacted_this_turn: vec![],
        black_market: false,
        active_system: None,
        pending: None,
        activation_seq: 0,
        exhausted_planets: vec![],
        phase: ti4_engine::state::Phase::Action,
        finished: false,
        objective_deck: vec![],
        revealed_objectives: vec![],
        speaker: String::new(),
        agenda_deck: vec![],
        expedition_slices: vec![],
        placed_planets: vec![],
        thunders_edge_system: None,
        action_card_deck: vec![],
    }
}

fn infantry(owner: &str) -> Unit {
    Unit { type_id: "infantry".to_string(), owner: owner.to_string(), sustained_damage: false, galvanized: false }
}

fn with_agent(state: &mut GameState) {
    state.players[1].leaders.push(("jolnaragent".to_string(), LeaderStatus::Readied));
}

#[test]
fn doctor_sucaban_trades_infantry_for_research() {
    let mut state = game();
    for _ in 0..4 {
        state.board[0].units.push(infantry("a"));
    }
    state.players[0].trade_goods = 0;
    with_agent(&mut state);
    let mut w = SucabanWindow::open(&state, "a", 4);
    // Yes to everything: exhaust the agent, then take an infantry at each offer.
    while let Some(choice) = w.pending_choice(&state) {
        w.take_choice(&mut state, choice.options[0].clone()).unwrap();
    }
    assert_eq!(w.outcome(), (0, true), "the research happened with nothing to spend");
    assert_eq!(state.board[0].units.len(), 0, "and all four infantry paid for it");
    assert_eq!(state.players[1].leaders[0].1, LeaderStatus::Exhausted, "the agent is exhausted");
    assert_eq!(state.players[0].trade_goods, 0, "and no resources were spent");
}

#[test]
fn the_owner_is_asked_first_and_may_decline() {
    let mut state = game();
    state.board[0].units.push(infantry("a"));
    with_agent(&mut state);
    let mut w = SucabanWindow::open(&state, "a", 3);
    let choice = w.pending_choice(&state).unwrap();
    assert_eq!(choice.player, "b");
    assert_eq!(choice.prompt, "Doctor Sucaban: exhaust to let a trade infantry for research");
    let before = state.clone();
    assert_eq!(w.take_choice(&mut state, ChoiceOption::decline()).unwrap(), 3);
    assert_eq!(state, before);
    assert_eq!(w.outcome(), (3, true));
}

#[test]
fn nothing_is_asked_without_a_readied_agent_or_infantry() {
    let mut state = game();
    state.board[0].units.push(infantry("a"));
    let w = SucabanWindow::open(&state, "a", 3);
    assert_eq!(w.outcome(), (3, true));
    let mut bare = game();
    with_agent(&mut bare);
    assert_eq!(SucabanWindow::open(&bare, "a", 3).outcome(), (3, true));
    assert_eq!(SucabanWindow::open(&bare, "a", 0).outcome(), (0, true));
}

#[test]
fn infantry_are_offered_by_place_and_the_researcher_may_stop() {
    let mut state = game();
    state.board[0].units.push(infantry("a"));
    state.board[1].planet_units.push(("jord".to_string(), vec![infantry("a"), infantry("a")]));
    with_agent(&mut state);
    let mut w = SucabanWindow::open(&state, "a", 5);
    w.take_choice(&mut state, ChoiceOption::labelled("yes", "leader", "exhaust the agent")).unwrap();
    let choice = w.pending_choice(&state).unwrap();
    let ids: Vec<&str> = choice.options.iter().map(|o| o.id.as_str()).collect();
    assert_eq!(ids, ["01:", "02:jord", "decline"]);
    assert_eq!(choice.options[1].label, "an infantry on jord");
    assert_eq!(w.take_choice(&mut state, choice.options[1].clone()).unwrap(), 4);
    assert_eq!(state.board[1].planet_units[0].1.len(), 1);
    let before = state.clone();
    assert!(w.take_choice(&mut state, ChoiceOption::labelled("03:", "unit", "x")).is_err());
    assert_eq!(state, before);
    assert_eq!(w.take_choice(&mut state, ChoiceOption::decline()).unwrap(), 4);
    assert_eq!(w.outcome(), (4, true));
}
