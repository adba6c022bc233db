use ti4_engine::choice::ChoiceOption;
use ti4_engine::state::{GameState, Phase, Seat, SystemState};
use ti4_engine::strategy_cards::{
    diplomacy_answer, diplomacy_choice, draw_action_cards, imperial_reward, leadership_influence_eligible, primary, ready_answer, ready_choice,
    recall_choice, registered_cards, replenish, secondary, shift_answer, shift_choice, trade_answer, trade_choice, trade_income, Diplomacy,
    DiplomacyStep, Politics, PoliticsStep, PrimaryAbility, Warfare, WarfareStep, INFLUENCE_PER_TOKEN, LEADERSHIP_TOKENS,
    te_construction_answer, te_construction_choice, te_warfare_answer, te_warfare_choice, Ability, ConstructionPick,
    place_structure, structure_choice,
};
use ti4_engine::state::Unit;
use ti4_engine::tokens::TokenGain;

fn seat(id: &str) -> Seat {
    Seat {
        id: id.to_string(),
        faction: "generic".to_string(),
        tactic_tokens: 3,
        fleet_tokens: 3,
        strategic_tokens: 2,
        trade_goods: 0,
        commodities: 0,
        victory_points: 0,
        relic_fragments: vec![],
        action_cards: vec![],
        secret_objectives: vec![],
        notes: vec![],
        abilities: vec![],
        technologies: vec![],
        captured_units: vec![],
        breakthrough: None,
        strategy_cards: vec![],
        exhausted_strategy_cards: vec![],
        gravity_drive_used_activation: None,
        exhausted_technologies: vec![],
        passed: false,
        stability: false,
        exhausted_relics: vec![],
        home_system: None,
        home_planets: vec![],
        leaders: vec![],
    }
}

fn system(id: &str) -> SystemState {
    SystemState { id: id.to_string(), units: vec![], planet_units: vec![], planet_control: vec![], command_tokens: vec![] }
}

fn game(players: &[&str]) -> GameState {
    GameState {
        players: players.iter().map(|p| seat(p)).collect(),
        board: vec![system("18"), system("19"), system("20")],
        seating_order: players.iter().map(|p| p.to_string()).collect(),
        transactions_this_round: vec![],
        transacted_this_turn: vec![],
        black_market: false,
        active_system: None,
        pending: None,
        activation_seq: 0,
        exhausted_planets: vec![],
        phase: Phase::Action,
        finished: false,
        objective_deck: vec![],
        revealed_objectives: vec![],
        speaker: String::new(),
        agenda_deck: vec![],
        expedition_slices: vec![],
        placed_planets: vec![],
        thunders_edge_system: None,
        action_card_deck: vec![],
    }
}

fn total(seat: &Seat) -> i32 {
    seat.tactic_tokens + seat.fleet_tokens + seat.strategic_tokens
}

fn ids(options: &[ChoiceOption]) -> Vec<String> {
    options.iter().map(|o| o.id.clone()).collect()
}

fn control(state: &mut GameState, system: usize, planet: &str, owner: &str) {
    state.board[system].planet_control.push((planet.to_string(), owner.to_string()));
}

fn values() -> Vec<(String, i32)> {
    vec![("sol".to_string(), 4), ("hacan".to_string(), 6)]
}


#[test]
fn every_base_card_is_registered_and_resolves() {
    let cards = registered_cards();
    assert_eq!(
        cards,
        vec!["Leadership", "Diplomacy", "Politics", "Construction", "Trade", "Warfare", "Technology", "Imperial"]
    );
}

#[test]
fn leadership_allocates_three_tokens() {
    let mut state = game(&["a"]);
    state.players[0].tactic_tokens = 1;
    let before = total(&state.players[0]);
    let mut gain = TokenGain::new(&["a".to_string()], LEADERSHIP_TOKENS);
    for pool in ["tactic_tokens", "fleet_tokens", "strategic_tokens"] {
        let choice = gain.pending_choice().unwrap();
        assert_eq!(choice.player, "a");
        gain.resolve(&mut state, ChoiceOption::new(pool, "pool")).unwrap();
    }
    assert!(gain.pending_choice().is_none());
    assert_eq!(total(&state.players[0]), before + 3);
}

#[test]
fn affordability_is_the_whole_leadership_gate() {
    assert!(leadership_influence_eligible(INFLUENCE_PER_TOKEN));
    assert!(!leadership_influence_eligible(2));
}

#[test]
fn warfare_lets_the_player_move_tokens_between_pools() {
    let mut state = game(&["a"]);
    state.players[0].tactic_tokens = 1;
    state.players[0].fleet_tokens = 0;
    state.players[0].strategic_tokens = 0;

    let choice = shift_choice(&state, "a").unwrap();
    assert_eq!(choice.prompt, "Warfare: redistribute your command tokens");
    assert_eq!(ids(&choice.options), vec!["move|tactic|fleet", "move|tactic|strategy", "decline"]);
    assert_eq!(shift_answer(&mut state, "a", ChoiceOption::new("move|tactic|fleet", "redistribute")).unwrap(), true);

    let seat = &state.players[0];
    assert_eq!(seat.tactic_tokens, 0, "the token left the tactic pool");
    assert_eq!(seat.fleet_tokens, 1, "and arrived in the fleet pool");
    assert_eq!(total(seat), 1, "redistribution moves tokens, it does not mint them");
}

#[test]
fn trade_gains_goods_and_replenishes() {
    let mut state = game(&["a"]);
    state.players[0].faction = "sol".to_string();
    trade_income(&mut state, &values(), "a");
    let seat = &state.players[0];
    assert_eq!(seat.trade_goods, 3);
    assert_eq!(seat.commodities, 4);
    assert!(trade_choice(&state, &values(), "a").is_none());
}

#[test]
fn warfare_recalls_a_board_token_and_gains_one() {
    let mut state = game(&["a"]);
    state.players[0].tactic_tokens = 1;
    state.players[0].fleet_tokens = 0;
    state.players[0].strategic_tokens = 0;
    state.board[0].command_tokens.push("a".to_string());
    let before = total(&state.players[0]);
    let mut warfare = Warfare::primary("a");

    let choice = warfare.pending_choice(&state).unwrap();
    assert_eq!(choice.prompt, "recall a command token");
    assert_eq!(ids(&choice.options), vec!["18"]);
    warfare.take_choice(&mut state, ChoiceOption::new("18", "recall")).unwrap();
    let choice = warfare.pending_choice(&state).unwrap();
    assert_eq!(choice.prompt, "gain a command token into which pool");
    warfare.take_choice(&mut state, ChoiceOption::new("fleet_tokens", "pool")).unwrap();
    assert_eq!(warfare.step, WarfareStep::Shift(2));
    warfare.take_choice(&mut state, ChoiceOption::decline()).unwrap();
    assert!(warfare.pending_choice(&state).is_none());

    assert!(!state.board[0].command_tokens.contains(&"a".to_string()));
    assert_eq!(total(&state.players[0]), before + 1);
}

#[test]
fn warfare_without_a_token_on_the_board_does_nothing() {
    let mut state = game(&["a"]);
    assert!(recall_choice(&state, "a").is_none());
    let before = state.clone();
    let mut warfare = Warfare::primary("a");
    assert!(warfare.pending_choice(&state).is_none());
    assert_eq!(warfare.step, WarfareStep::Done);
    assert!(warfare.take_choice(&mut state, ChoiceOption::new("18", "recall")).is_err());
    assert_eq!(state, before);
}

#[test]
fn diplomacy_locks_the_system_and_readies_planets() {
    let mut state = game(&["a", "b"]);
    control(&mut state, 1, "jord", "a");
    state.exhausted_planets.push("jord".to_string());
    let mut diplomacy = Diplomacy::primary("a");

    let choice = diplomacy.pending_choice(&state).unwrap();
    assert_eq!(choice.prompt, "choose a system for Diplomacy");
    assert_eq!(ids(&choice.options), vec!["19"]);
    diplomacy.take_choice(&mut state, ChoiceOption::new("19", "system")).unwrap();
    let choice = diplomacy.pending_choice(&state).unwrap();
    assert_eq!(choice.prompt, "ready which planet");
    diplomacy.take_choice(&mut state, ChoiceOption::new("jord", "ready")).unwrap();
    assert!(diplomacy.pending_choice(&state).is_none());

    assert!(state.board[1].command_tokens.contains(&"b".to_string()));
    assert!(!state.board[1].command_tokens.contains(&"a".to_string()));
    assert!(!state.exhausted_planets.contains(&"jord".to_string()));
}

#[test]
fn ready_planets_uses_the_oracle_wording_and_offers_no_decline() {
    let mut state = game(&["a"]);
    control(&mut state, 1, "jord", "a");
    control(&mut state, 2, "moll", "a");
    state.exhausted_planets = vec!["jord".to_string(), "moll".to_string()];

    let first = ready_choice(&state, "a").unwrap();
    assert_eq!(first.prompt, "ready which planet");
    let offered: Vec<(String, String, String)> = first.options.iter().map(|o| (o.id.clone(), o.kind.clone(), o.label.clone())).collect();
    assert_eq!(
        offered,
        vec![
            ("jord".to_string(), "ready".to_string(), "ready jord".to_string()),
            ("moll".to_string(), "ready".to_string(), "ready moll".to_string()),
        ]
    );
    ready_answer(&mut state, "a", ChoiceOption::new("jord", "ready")).unwrap();
    let second = ready_choice(&state, "a").unwrap();
    assert_eq!(ids(&second.options), vec!["moll"]);
    assert!(ready_answer(&mut state, "a", ChoiceOption::decline()).is_err());
    ready_answer(&mut state, "a", ChoiceOption::new("moll", "ready")).unwrap();
    assert!(state.exhausted_planets.is_empty());
    assert!(ready_choice(&state, "a").is_none());
}

#[test]
fn free_trade_replenishment_uses_the_oracle_identity() {
    let mut state = game(&["a", "b", "c"]);
    state.players[0].faction = "sol".to_string();
    state.players[1].faction = "hacan".to_string();
    state.players[1].commodities = 0;

    let choice = trade_choice(&state, &values(), "a").unwrap();
    assert_eq!(choice.prompt, "let another player replenish commodities");
    let offered: Vec<(String, String, String)> = choice.options.iter().map(|o| (o.id.clone(), o.kind.clone(), o.label.clone())).collect();
    assert_eq!(
        offered,
        vec![
            ("hacan".to_string(), "replenish".to_string(), "hacan replenishes commodities".to_string()),
            ("done".to_string(), "decline".to_string(), "nobody else replenishes".to_string()),
        ]
    );
    assert_eq!(trade_answer(&mut state, &values(), "a", ChoiceOption::new("hacan", "replenish")).unwrap(), true);
    assert_eq!(state.players[1].commodities, 6);
    assert!(trade_choice(&state, &values(), "a").is_none());
}

#[test]
fn the_trade_secondary_replenishes_only_the_follower() {
    let mut state = game(&["a", "b"]);
    state.players[0].faction = "hacan".to_string();
    state.players[1].faction = "sol".to_string();
    replenish(&mut state, &values(), "b");
    assert_eq!(state.players[1].commodities, 4);
    assert_eq!(state.players[0].commodities, 0);
}

#[test]
fn diplomacy_skips_mecatol_and_sorts_systems() {
    let mut state = game(&["a", "b"]);
    control(&mut state, 2, "moll", "a");
    control(&mut state, 0, "mecatol", "a");
    control(&mut state, 1, "jord", "a");
    control(&mut state, 2, "other", "a");
    let choice = diplomacy_choice(&state, "a").unwrap();
    assert_eq!(ids(&choice.options), vec!["19", "20"]);
    assert!(diplomacy_answer(&mut state, "a", ChoiceOption::new("18", "system")).is_err());
    diplomacy_answer(&mut state, "a", ChoiceOption::new("20", "system")).unwrap();
    assert_eq!(state.board[2].command_tokens, vec!["b".to_string()]);
}

#[test]
fn the_diplomacy_secondary_readies_up_to_two() {
    let mut state = game(&["a"]);
    control(&mut state, 1, "jord", "a");
    control(&mut state, 1, "moll", "a");
    control(&mut state, 2, "lodor", "a");
    state.exhausted_planets = vec!["jord".to_string(), "moll".to_string(), "lodor".to_string()];
    let mut secondary = Diplomacy::secondary("a");
    assert_eq!(secondary.step, DiplomacyStep::Ready(2));
    secondary.pending_choice(&state).unwrap();
    secondary.take_choice(&mut state, ChoiceOption::new("lodor", "ready")).unwrap();
    secondary.take_choice(&mut state, ChoiceOption::new("jord", "ready")).unwrap();
    assert!(secondary.pending_choice(&state).is_none());
    assert_eq!(state.exhausted_planets, vec!["moll".to_string()]);
}

#[test]
fn politics_moves_the_speaker_and_draws_two() {
    let mut state = game(&["a", "b"]);
    state.speaker = "a".to_string();
    state.action_card_deck = vec!["ac1".to_string(), "ac2".to_string(), "ac3".to_string()];
    state.agenda_deck = vec!["minister".to_string(), "mutiny".to_string(), "seed".to_string()];
    let before = state.players[0].action_cards.len();
    let mut politics = Politics::primary("a");

    let choice = politics.pending_choice(&mut state).unwrap();
    politics.take_choice(&mut state, choice.options[0].clone()).unwrap();
    while let Some(choice) = politics.pending_choice(&mut state) {
        politics.take_choice(&mut state, choice.options[0].clone()).unwrap();
    }

    assert_eq!(state.speaker, "b");
    assert_eq!(state.players[0].action_cards.len(), before + 2);
    assert!(politics.is_complete());
}

#[test]
fn the_speaker_choice_offers_factions_in_the_oracle_wording() {
    let mut state = game(&["a", "b"]);
    state.speaker = "a".to_string();
    state.players[0].faction = "sol".to_string();
    state.players[1].faction = "hacan".to_string();
    state.agenda_deck = vec!["minister".to_string(), "mutiny".to_string()];
    let mut politics = Politics::primary("a");

    let choice = politics.pending_choice(&mut state).unwrap();
    assert_eq!(choice.prompt, "who becomes speaker");
    let offered: Vec<(String, String, String)> = choice.options.iter().map(|o| (o.id.clone(), o.kind.clone(), o.label.clone())).collect();
    assert_eq!(offered, vec![("hacan".to_string(), "speaker".to_string(), "hacan becomes speaker".to_string())]);
    politics.take_choice(&mut state, ChoiceOption::new("hacan", "speaker")).unwrap();
    assert_eq!(state.speaker, "b");

    let choice = politics.pending_choice(&mut state).unwrap();
    assert_eq!(choice.prompt, "place minister where");
    politics.take_choice(&mut state, ChoiceOption::new("top", "agenda")).unwrap();
    let choice = politics.pending_choice(&mut state).unwrap();
    assert_eq!(choice.prompt, "place mutiny where");
    politics.take_choice(&mut state, ChoiceOption::new("bottom", "agenda")).unwrap();
    assert!(politics.pending_choice(&mut state).is_none());
    assert_eq!(state.agenda_deck, vec!["minister".to_string(), "mutiny".to_string()]);
    assert_eq!(politics.step, PoliticsStep::Agendas);
}

#[test]
fn a_misplaced_agenda_answer_changes_nothing() {
    let mut state = game(&["a", "b"]);
    state.speaker = "b".to_string();
    state.agenda_deck = vec!["minister".to_string()];
    let mut politics = Politics::primary("a");
    politics.pending_choice(&mut state).unwrap();
    assert!(politics.take_choice(&mut state, ChoiceOption::new("b", "speaker")).is_err());
    assert_eq!(state.speaker, "b");
    politics.take_choice(&mut state, ChoiceOption::new("generic", "speaker")).unwrap();
    assert_eq!(state.speaker, "a");
    let before = state.clone();
    assert!(politics.take_choice(&mut state, ChoiceOption::new("middle", "agenda")).is_err());
    assert_eq!(state, before);
    assert_eq!(politics.looked, vec!["minister".to_string()]);
}

#[test]
fn imperial_draws_a_secret_without_mecatol() {
    let mut state = game(&["a"]);
    let before = state.players[0].secret_objectives.len();
    let mut deck = vec!["become_a_martyr".to_string()];
    imperial_reward(&mut state, &mut deck, "a", 10);
    assert_eq!(state.players[0].secret_objectives.len(), before + 1);
    assert!(deck.is_empty());
    assert!(!state.finished);
}

#[test]
fn imperial_on_mecatol_scores_a_point_and_can_end_the_game() {
    let mut state = game(&["a"]);
    control(&mut state, 0, "mecatol", "a");
    state.players[0].victory_points = 9;
    let mut deck = vec!["become_a_martyr".to_string()];
    imperial_reward(&mut state, &mut deck, "a", 10);
    assert_eq!(state.players[0].victory_points, 10);
    assert_eq!(deck.len(), 1);
    assert!(state.finished);
    imperial_reward(&mut state, &mut deck, "a", 10);
    assert_eq!(state.players[0].victory_points, 10, "capped at the target");
}

#[test]
fn primaries_route_by_card_id_then_by_name() {
    assert_eq!(primary("te6warfare", Some("Warfare")), PrimaryAbility::ThundersEdgeWarfare);
    assert_eq!(primary("te4construction", Some("Construction")), PrimaryAbility::ThundersEdgeConstruction);
    assert_eq!(primary("pok6warfare", Some("Warfare")), PrimaryAbility::Warfare);
    assert_eq!(primary("pok3politics", Some("Politics")), PrimaryAbility::Politics);
    assert_eq!(primary("unknown", None), PrimaryAbility::Unresolved);
    assert_eq!(primary("homebrew", Some("Logistics")), PrimaryAbility::Unresolved);
    assert_eq!(secondary(Some("Trade")), PrimaryAbility::Trade);
    assert_eq!(secondary(None), PrimaryAbility::Unresolved);
}

#[test]
fn drawing_action_cards_stops_when_the_deck_runs_out() {
    let mut state = game(&["a"]);
    state.action_card_deck = vec!["ac1".to_string()];
    draw_action_cards(&mut state, "a", 2);
    assert_eq!(state.players[0].action_cards, vec!["ac1".to_string()]);
    assert!(state.action_card_deck.is_empty());
}

#[test]
fn thunders_edge_warfare_offers_a_free_activation_only_in_the_action_phase() {
    let mut state = game(&["a"]);
    let map = vec!["18".to_string(), "41".to_string()];
    let choice = te_warfare_choice(&state, Some(&map), "a").unwrap();
    assert_eq!(choice.prompt, "Warfare: a tactical action without a command token");
    assert_eq!(choice.options[1].label, "free tactical action in 41");
    assert_eq!(te_warfare_answer(&state, Some(&map), "a", choice.options[1].clone()).unwrap(), Ability::FreeTactical("41".to_string()));
    assert!(te_warfare_answer(&state, Some(&map), "a", ChoiceOption::labelled("99", "activate", "x")).is_err());
    assert!(te_warfare_choice(&state, None, "a").is_none(), "no map, nothing to activate");
    assert_eq!(te_warfare_answer(&state, None, "a", choice.options[0].clone()).unwrap(), Ability::Resolved);
    assert_eq!(te_warfare_answer(&state, Some(&vec![]), "a", choice.options[0].clone()).unwrap(), Ability::Resolved);
    state.phase = Phase::Status;
    assert!(te_warfare_choice(&state, Some(&map), "a").is_none());
    assert_eq!(te_warfare_answer(&state, Some(&map), "a", choice.options[0].clone()).unwrap(), Ability::Resolved);
}

#[test]
fn thunders_edge_construction_weighs_a_structure_against_each_production() {
    let docks = vec!["18".to_string(), "26".to_string()];
    let choice = te_construction_choice("a", &docks);
    let ids: Vec<&str> = choice.options.iter().map(|o| o.id.as_str()).collect();
    assert_eq!(ids, ["structure", "produce|18", "produce|26"]);
    assert_eq!(choice.options[2].label, "use PRODUCTION in 26");
    assert_eq!(te_construction_answer("a", &docks, choice.options[0].clone()).unwrap(), ConstructionPick::Structure);
    assert_eq!(te_construction_answer("a", &docks, choice.options[2].clone()).unwrap(), ConstructionPick::Produce("26".to_string()));
    assert!(te_construction_answer("a", &docks, ChoiceOption::labelled("produce|99", "build", "x")).is_err());
}

#[test]
fn a_structure_stands_on_a_controlled_planet_of_the_named_system() {
    let mut state = game(&["a", "b"]);
    control(&mut state, 1, "jord", "a");
    state.board[1].planet_units.push(("jord".to_string(), vec![]));
    let placed = place_structure(&mut state, "a", &ChoiceOption::labelled("pds|19|jord", "build", "place pds on jord"));
    assert_eq!(placed, Some("19".to_string()));
    let pds = Unit { type_id: "pds".to_string(), owner: "a".to_string(), sustained_damage: false, galvanized: false };
    assert_eq!(state.board[1].planet_units, vec![("jord".to_string(), vec![pds])]);
    assert!(state.board[0].planet_units.is_empty());
}

#[test]
fn a_planet_without_an_entry_gets_one_for_its_structure() {
    let mut state = game(&["a"]);
    control(&mut state, 2, "moll", "a");
    let placed = place_structure(&mut state, "a", &ChoiceOption::labelled("spacedock|20|moll", "build", "place spacedock on moll"));
    assert_eq!(placed, Some("20".to_string()));
    assert_eq!(state.board[2].planet_units.len(), 1);
    assert_eq!(state.board[2].planet_units[0].0, "moll");
    assert_eq!(state.board[2].planet_units[0].1[0].type_id, "spacedock");
}

#[test]
fn a_structure_is_not_placed_on_a_planet_the_player_does_not_hold() {
    let mut state = game(&["a", "b"]);
    control(&mut state, 1, "jord", "b");
    let before = state.clone();
    assert_eq!(place_structure(&mut state, "a", &ChoiceOption::labelled("pds|19|jord", "build", "x")), None);
    // The planet is held in another system than the one named.
    control(&mut state, 0, "jord", "a");
    assert_eq!(place_structure(&mut state, "a", &ChoiceOption::labelled("pds|19|jord", "build", "x")), None);
    assert_eq!(state.board[1], before.board[1]);
}

#[test]
fn a_structure_answer_must_name_exactly_three_parts() {
    let mut state = game(&["a"]);
    control(&mut state, 1, "jord", "a");
    assert_eq!(place_structure(&mut state, "a", &ChoiceOption::labelled("pds|19", "build", "x")), None);
    assert_eq!(place_structure(&mut state, "a", &ChoiceOption::labelled("pds|19|jord|x", "build", "x")), None);
    assert_eq!(place_structure(&mut state, "a", &ChoiceOption::decline()), None);
    assert!(state.board[1].planet_units.is_empty());
}

#[test]
fn a_structure_choice_ends_with_a_decline_and_is_not_put_without_options() {
    assert!(structure_choice("a", vec![]).is_none());
    let choice = structure_choice("a", vec![ChoiceOption::labelled("pds|19|jord", "build", "place pds on jord")]).unwrap();
    assert_eq!(choice.prompt, "place a structure");
    assert_eq!(ids(&choice.options), vec!["pds|19|jord".to_string(), ChoiceOption::decline().id]);
}
