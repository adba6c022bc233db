use ti4_engine::choice::ChoiceOption;
use ti4_engine::state::{GameState, Seat, SystemState, Unit};
use ti4_engine::technology::PlanetRecord;
use ti4_engine::thunders_edge::{available_actions, claim, ExpeditionCompletion, ExpeditionPayment, PaymentStage, Spendable};

fn seat(id: &str) -> Seat {
    Seat {
        id: id.to_string(),
        faction: "generic".to_string(),
        tactic_tokens: 3,
        fleet_tokens: 3,
        strategic_tokens: 2,
        trade_goods: 0,
        commodities: 0,
        victory_points: 0,
        relic_fragments: vec![],
        action_cards: vec![],
        secret_objectives: vec![],
        notes: vec![],
        abilities: vec![],
        technologies: vec![],
        captured_units: vec![],
        breakthrough: None,
        strategy_cards: vec![],
        exhausted_strategy_cards: vec![],
        gravity_drive_used_activation: None,
        exhausted_technologies: vec![],
        passed: false,
        stability: false,
        exhausted_relics: vec![],
        home_system: None,
        home_planets: vec![],
        leaders: vec![],
    }
}

fn system(id: &str) -> SystemState {
    SystemState { id: id.to_string(), units: vec![], planet_units: vec![], planet_control: vec![], command_tokens: vec![] }
}

fn game() -> GameState {
    GameState {
        players: vec![seat("a"), seat("b")],
        board: vec![system("01"), system("02")],
        seating_order: vec!["a".to_string(), "b".to_string()],
        transactions_this_round: vec![],
        transacted_this_turn: vec![],
        black_market: false,
        active_system: None,
        pending: None,
        activation_seq: 0,
        exhausted_planets: vec![],
        phase: ti4_engine::state::Phase::Action,
        finished: false,
        objective_deck: vec![],
        revealed_objectives: vec![],
        speaker: String::new(),
        agenda_deck: vec![],
        expedition_slices: vec![],
        placed_planets: vec![],
        thunders_edge_system: None,
        action_card_deck: vec![],
    }
}

fn nothing() -> Spendable {
    Spendable { resources: 0, influence: 0 }
}

fn breakthroughs() -> Vec<(String, String)> {
    vec![("letnev".to_string(), "letnevbt".to_string()), ("sol".to_string(), "solbt".to_string())]
}

#[test]
fn a_player_who_already_holds_the_breakthrough_may_still_claim_slices() {
    let mut state = game();
    let seat = &mut state.players[0];
    seat.faction = "letnev".to_string();
    seat.breakthrough = Some("letnevbt".to_string());
    seat.trade_goods = 10;
    seat.action_cards = vec!["sabotage".to_string(), "upgrade".to_string()];
    seat.secret_objectives.push("destroy_their_greatest_ship".to_string());
    let planets: Vec<PlanetRecord> = vec![];
    assert!(
        !available_actions(&state, &planets, true, "a", nothing()).is_empty(),
        "holding the breakthrough does not close the expedition"
    );
}

#[test]
fn a_first_expedition_slice_grants_the_faction_breakthrough() {
    let mut state = game();
    state.players[0].faction = "letnev".to_string();
    state.players[0].secret_objectives.push("destroy_their_greatest_ship".to_string());
    let planets: Vec<PlanetRecord> = vec![];
    let options = available_actions(&state, &planets, true, "a", nothing());
    assert!(options.iter().any(|o| o.id == "component|expedition|secret"));
    let mut deck: Vec<String> = vec![];
    let payment = ExpeditionPayment::open(&mut state, &mut deck, &planets, "a", "secret", nothing());
    assert_eq!(payment.stage(), PaymentStage::Settled(true), "a lone secret is given up without asking");
    assert_eq!(deck, vec!["destroy_their_greatest_ship".to_string()]);
    claim(&mut state, &breakthroughs(), "a", "secret");
    assert_eq!(state.players[0].breakthrough, Some("letnevbt".to_string()));
    assert_eq!(state.expedition_slices, vec![("secret".to_string(), "a".to_string())]);
}

#[test]
fn trade_goods_are_paid_at_once() {
    let mut state = game();
    state.players[0].trade_goods = 5;
    let mut deck: Vec<String> = vec![];
    let payment = ExpeditionPayment::open(&mut state, &mut deck, &vec![], "a", "trade_goods", nothing());
    assert_eq!(payment.stage(), PaymentStage::Settled(true));
    assert_eq!(state.players[0].trade_goods, 2);
}

#[test]
fn a_cost_the_player_cannot_pay_settles_unpaid_and_changes_nothing() {
    let mut state = game();
    state.players[0].trade_goods = 2;
    let before = state.clone();
    let mut deck: Vec<String> = vec![];
    let payment = ExpeditionPayment::open(&mut state, &mut deck, &vec![], "a", "trade_goods", nothing());
    assert_eq!(payment.stage(), PaymentStage::Settled(false));
    assert_eq!(state, before);
    let unknown = ExpeditionPayment::open(&mut state, &mut deck, &vec![], "a", "wormholes", nothing());
    assert_eq!(unknown.stage(), PaymentStage::Settled(false));
}

#[test]
fn two_action_cards_are_discarded_the_second_without_asking() {
    let mut state = game();
    state.players[0].action_cards = vec!["sabotage".to_string(), "upgrade".to_string()];
    let names = vec![("sabotage".to_string(), "Sabotage".to_string()), ("upgrade".to_string(), "Upgrade".to_string())];
    let mut deck: Vec<String> = vec![];
    let mut payment = ExpeditionPayment::open(&mut state, &mut deck, &vec![], "a", "action_cards", nothing());
    assert_eq!(payment.stage(), PaymentStage::Discards(2));
    let choice = payment.pending_choice(&state, &names, &vec![]).unwrap();
    assert_eq!(choice.prompt, "discard an action card for the expedition");
    assert_eq!(choice.options.len(), 2);
    assert_eq!(choice.options[1].label, "Upgrade");
    payment.take_choice(&mut state, &mut deck, &names, &vec![], choice.options[1].clone()).unwrap();
    assert_eq!(payment.stage(), PaymentStage::Settled(true));
    assert!(state.players[0].action_cards.is_empty());
}

#[test]
fn an_answer_that_was_not_offered_discards_nothing() {
    let mut state = game();
    state.players[0].action_cards = vec!["sabotage".to_string(), "upgrade".to_string(), "skilled".to_string()];
    let mut deck: Vec<String> = vec![];
    let mut payment = ExpeditionPayment::open(&mut state, &mut deck, &vec![], "a", "action_cards", nothing());
    let before = state.clone();
    assert!(payment.take_choice(&mut state, &mut deck, &vec![], &vec![], ChoiceOption::labelled("7", "discard", "x")).is_err());
    assert_eq!(state, before);
    assert_eq!(payment.stage(), PaymentStage::Discards(2));
}

#[test]
fn a_secret_is_chosen_and_goes_to_the_bottom_of_the_deck() {
    let mut state = game();
    state.players[0].secret_objectives = vec!["x".to_string(), "y".to_string()];
    let mut deck: Vec<String> = vec!["z".to_string()];
    let mut payment = ExpeditionPayment::open(&mut state, &mut deck, &vec![], "a", "secret", nothing());
    assert_eq!(payment.stage(), PaymentStage::Secret);
    let choice = payment.pending_choice(&state, &vec![], &vec![]).unwrap();
    payment.take_choice(&mut state, &mut deck, &vec![], &vec![], choice.options[1].clone()).unwrap();
    assert_eq!(deck, vec!["z".to_string(), "y".to_string()]);
    assert_eq!(state.players[0].secret_objectives, vec!["x".to_string()]);
}

#[test]
fn production_slices_wait_on_the_driver() {
    let mut state = game();
    let mut deck: Vec<String> = vec![];
    let mut payment = ExpeditionPayment::open(&mut state, &mut deck, &vec![], "a", "influence", Spendable { resources: 0, influence: 5 });
    assert_eq!(payment.production_owed(), Some((5, true)));
    payment.production_paid(true);
    assert_eq!(payment.stage(), PaymentStage::Settled(true));
}

#[test]
fn only_the_first_claim_grants_the_breakthrough_and_the_sixth_completes() {
    let mut state = game();
    state.players[0].faction = "sol".to_string();
    assert!(!claim(&mut state, &breakthroughs(), "a", "resources"));
    assert_eq!(state.players[0].breakthrough, Some("solbt".to_string()));
    state.players[0].breakthrough = None;
    claim(&mut state, &breakthroughs(), "a", "influence");
    assert_eq!(state.players[0].breakthrough, None, "a later claim grants nothing more");
    let before = state.clone();
    claim(&mut state, &breakthroughs(), "b", "influence");
    assert_eq!(state, before, "a claimed slice stays with its owner");
    claim(&mut state, &breakthroughs(), "b", "trade_goods");
    claim(&mut state, &breakthroughs(), "b", "action_cards");
    claim(&mut state, &breakthroughs(), "b", "secret");
    assert!(claim(&mut state, &breakthroughs(), "b", "tech_planet"));
}

#[test]
fn completing_the_expedition_places_thunders_edge_and_its_infantry() {
    let mut state = game();
    state.players[0].faction = "letnev".to_string();
    state.players[0].trade_goods = 3;
    let types: Vec<(String, String)> = vec![];
    claim(&mut state, &breakthroughs(), "a", "resources");
    claim(&mut state, &breakthroughs(), "a", "influence");
    claim(&mut state, &breakthroughs(), "b", "action_cards");
    claim(&mut state, &breakthroughs(), "b", "secret");
    claim(&mut state, &breakthroughs(), "b", "tech_planet");
    let planets: Vec<PlanetRecord> = vec![];
    let options = available_actions(&state, &planets, true, "a", nothing());
    assert!(options.iter().any(|o| o.id == "component|expedition|trade_goods"));
    let mut deck: Vec<String> = vec![];
    let payment = ExpeditionPayment::open(&mut state, &mut deck, &planets, "a", "trade_goods", nothing());
    assert_eq!(payment.stage(), PaymentStage::Settled(true));
    assert!(claim(&mut state, &breakthroughs(), "a", "trade_goods"), "the sixth slice completes the expedition");

    // One legal system, so only the placer tie-break asks.
    let mut completion = ExpeditionCompletion::open(&mut state, "a", vec!["41".to_string()], &types);
    let choice = completion.pending_choice(&state).unwrap();
    assert_eq!(choice.player, "a");
    let ids: Vec<&str> = choice.options.iter().map(|o| o.id.as_str()).collect();
    assert_eq!(ids, ["a", "b"]);
    completion.take_choice(&mut state, &types, choice.options[0].clone()).unwrap();
    assert!(completion.is_done());

    assert_eq!(state.thunders_edge_system, Some("41".to_string()), "Thunder's Edge was placed, and the engine remembers where");
    assert!(state.placed_planets.contains(&("thundersedge".to_string(), "41".to_string())), "the planet joins the system it was placed in");
    let here = state.board.iter().find(|s| s.id == "41").unwrap();
    let infantry = &here.planet_units.iter().find(|(p, _)| p == "thundersedge").unwrap().1;
    assert_eq!(infantry.len(), 3, "the tied player the finisher chose places their own claimed-slice count");
    assert!(infantry.iter().all(|u| u.owner == "a"), "the finisher broke the tie in their own favor");
    assert!(here.planet_control.contains(&("thundersedge".to_string(), "a".to_string())), "the player who placed the infantry controls Thunder's Edge");
}

#[test]
fn a_lone_leader_places_without_asking_in_the_faction_infantry() {
    let mut state = game();
    state.players[1].faction = "sol".to_string();
    for slice in ["resources", "influence", "trade_goods", "action_cards"] {
        claim(&mut state, &breakthroughs(), "b", slice);
    }
    claim(&mut state, &breakthroughs(), "a", "secret");
    claim(&mut state, &breakthroughs(), "a", "tech_planet");
    let types = vec![("sol".to_string(), "sol_infantry".to_string())];
    let mut completion = ExpeditionCompletion::open(&mut state, "a", vec!["41".to_string(), "67".to_string()], &types);
    let choice = completion.pending_choice(&state).unwrap();
    assert_eq!(choice.options[1].label, "place Thunder's Edge in system 67");
    completion.take_choice(&mut state, &types, choice.options[1].clone()).unwrap();
    assert!(completion.is_done());
    let here = state.board.iter().find(|s| s.id == "67").unwrap();
    let infantry = &here.planet_units[0].1;
    assert_eq!(infantry.len(), 4);
    assert!(infantry.iter().all(|u| u.type_id == "sol_infantry" && u.owner == "b"));
}

#[test]
fn nowhere_to_place_ends_the_completion() {
    let mut state = game();
    let before = state.clone();
    let completion = ExpeditionCompletion::open(&mut state, "a", vec![], &vec![]);
    assert!(completion.is_done());
    assert_eq!(state, before);
}

#[test]
fn an_expedition_action_names_an_open_slice() {
    let mut state = game();
    assert_eq!(
        ti4_engine::thunders_edge::expedition_target(&state, &ti4_engine::choice::ChoiceOption::new("component|expedition|tg", "component")),
        Some("tg".to_string())
    );
    state.expedition_slices.push(("tg".to_string(), "a".to_string()));
    assert_eq!(
        ti4_engine::thunders_edge::expedition_target(&state, &ti4_engine::choice::ChoiceOption::new("component|expedition|tg", "component")),
        None
    );
    assert_eq!(
        ti4_engine::thunders_edge::expedition_target(&state, &ti4_engine::choice::ChoiceOption::new("component|tech|sr", "component")),
        None
    );
}
