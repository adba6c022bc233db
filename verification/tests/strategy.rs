use ti4_engine::choice::ChoiceOption;
use ti4_engine::state::{GameState, Seat};
use ti4_engine::strategy::{
    begin_strategic_action, exhaust_strategy_card, strategic_action_options, take_strategic_action, SecondaryResolution,
    Standing, StrategyActionError, StrategySecondaryError, ACTION_KIND, STRATEGIC_ACTION_ID, STRATEGY_KIND,
};

fn seat(id: &str, cards: &[&str]) -> Seat {
    Seat {
        id: id.to_string(),
        faction: "generic".to_string(),
        tactic_tokens: 3,
        fleet_tokens: 3,
        strategic_tokens: 2,
        trade_goods: 0,
        commodities: 0,
        victory_points: 0,
        relic_fragments: vec![],
        action_cards: vec![],
        secret_objectives: vec![],
        notes: vec![],
        abilities: vec![],
        technologies: vec![],
        captured_units: vec![],
        breakthrough: None,
        strategy_cards: cards.iter().map(|c| c.to_string()).collect(),
        exhausted_strategy_cards: vec![],
        gravity_drive_used_activation: None,
        exhausted_technologies: vec![],
        passed: false,
        stability: false,
        exhausted_relics: vec![],
        home_system: None,
        home_planets: vec![],
        leaders: vec![],
    }
}

fn game(seats: Vec<Seat>) -> GameState {
    let seating_order = seats.iter().map(|s| s.id.clone()).collect();
    GameState {
        players: seats,
        board: vec![],
        seating_order,
        transactions_this_round: vec![],
        transacted_this_turn: vec![],
        black_market: false,
        active_system: None,
        pending: None,
        activation_seq: 0,
        exhausted_planets: vec![],
        phase: ti4_engine::state::Phase::Action,
        finished: false,
        objective_deck: vec![],
        revealed_objectives: vec![],
        speaker: String::new(),
        agenda_deck: vec![],
        expedition_slices: vec![],
        placed_planets: vec![],
        thunders_edge_system: None,
        action_card_deck: vec![],
    }
}

/// A drafted three-player game: each seat holds two cards, clockwise a, b, c.
fn drafted_three_player_game() -> GameState {
    game(vec![
        seat("a", &["pok1leadership", "pok3politics"]),
        seat("b", &["pok2diplomacy", "pok5trade"]),
        seat("c", &["pok4construction", "pok6warfare"]),
    ])
}

fn labels() -> Vec<(String, String)> {
    vec![
        ("pok1leadership".to_string(), "Leadership".to_string()),
        ("pok3politics".to_string(), "Politics".to_string()),
    ]
}

fn card_names() -> Vec<(String, String)> {
    [
        ("pok1leadership", "Leadership"),
        ("pok2diplomacy", "Diplomacy"),
        ("pok3politics", "Politics"),
        ("pok4construction", "Construction"),
        ("pok5trade", "Trade"),
        ("pok6warfare", "Warfare"),
    ]
    .iter()
    .map(|(c, n)| (c.to_string(), n.to_string()))
    .collect()
}

fn ids(options: &[ChoiceOption]) -> Vec<String> {
    options.iter().map(|o| o.id.clone()).collect()
}

fn player<'a>(state: &'a GameState, id: &str) -> &'a Seat {
    state.players.iter().find(|s| s.id == id).unwrap()
}

fn player_mut<'a>(state: &'a mut GameState, id: &str) -> &'a mut Seat {
    state.players.iter_mut().find(|s| s.id == id).unwrap()
}

fn strategic(card: &str) -> ChoiceOption {
    ChoiceOption::new(&format!("strategic|{card}"), ACTION_KIND)
}

fn payers() -> Vec<Standing> {
    vec![Standing { free: false, able: true }; 2]
}

#[test]
fn a_player_with_one_unused_card_keeps_the_legacy_bare_action_id() {
    let state = game(vec![seat("a", &["pok1leadership"]), seat("b", &["pok2diplomacy"])]);

    let choice = strategic_action_options(&state, &labels(), "a").unwrap();

    assert_eq!(ids(&choice.options), vec!["strategic"]);
}

#[test]
fn each_unused_card_is_a_distinct_action_in_a_multi_card_holding() {
    let state = drafted_three_player_game();
    let choice = strategic_action_options(&state, &labels(), "a").unwrap();
    let held = &player(&state, "a").strategy_cards;

    assert_eq!(ids(&choice.options), held.iter().map(|card| format!("strategic|{card}")).collect::<Vec<_>>());
}

#[test]
fn spending_one_of_two_cards_leaves_the_other_unspent() {
    let mut state = drafted_three_player_game();
    let first = player(&state, "a").strategy_cards[0].clone();
    let second = player(&state, "a").strategy_cards[1].clone();

    assert_eq!(take_strategic_action(&mut state, &labels(), "a", strategic(&first)).unwrap(), first);
    let seat = player(&state, "a");
    assert!(seat.exhausted_strategy_cards.contains(&first));
    assert!(!seat.exhausted_strategy_cards.contains(&second));
    assert_eq!(ids(&strategic_action_options(&state, &labels(), "a").unwrap().options), vec![STRATEGIC_ACTION_ID]);
}

#[test]
fn followers_resolve_clockwise_pay_or_decline_then_exhaust_the_primary_card() {
    let mut state = drafted_three_player_game();
    let card = "pok3politics".to_string();
    let first_tokens = player(&state, "b").strategic_tokens;

    let mut window = begin_strategic_action(&state, &labels(), &card_names(), "a", strategic(&card)).unwrap();

    assert!(
        !player(&state, "a").exhausted_strategy_cards.contains(&card),
        "the card remains ready while followers decide"
    );
    let choice = window.next_choice(&mut state, &payers()).unwrap();
    assert_eq!(choice.player, "b");
    assert_eq!(ids(&choice.options), vec!["no", "yes"]);
    assert_eq!(
        window.take_choice(&mut state, &payers(), ChoiceOption::new("yes", "strategy")).unwrap(),
        SecondaryResolution::Followed
    );
    assert_eq!(player(&state, "b").strategic_tokens, first_tokens - 1);

    let choice = window.next_choice(&mut state, &payers()).unwrap();
    assert_eq!(choice.player, "c");
    assert_eq!(
        window.take_choice(&mut state, &payers(), ChoiceOption::new("no", "strategy")).unwrap(),
        SecondaryResolution::Declined
    );

    assert!(window.is_complete());
    assert!(
        player(&state, "a").exhausted_strategy_cards.contains(&card),
        "the primary card exhausts after every follower has completed"
    );
}

#[test]
fn tokenless_followers_are_recorded_ineligible_and_close_the_window() {
    let mut state = drafted_three_player_game();
    let card = player(&state, "a")
        .strategy_cards
        .iter()
        .find(|card| card.as_str() != "pok1leadership")
        .expect("a three-player hand includes a token-costing card")
        .clone();
    player_mut(&mut state, "b").strategic_tokens = 0;
    player_mut(&mut state, "c").strategic_tokens = 0;
    let mut window = begin_strategic_action(&state, &labels(), &card_names(), "a", strategic(&card)).unwrap();

    assert!(window.next_choice(&mut state, &payers()).is_none());
    assert_eq!(
        window.resolutions(),
        &vec![
            ("b".to_string(), SecondaryResolution::Ineligible),
            ("c".to_string(), SecondaryResolution::Ineligible),
        ]
    );
    assert!(window.is_complete());
    assert!(player(&state, "a").exhausted_strategy_cards.contains(&card));
}

#[test]
fn an_invented_secondary_response_is_atomic() {
    let mut state = drafted_three_player_game();
    let mut window =
        begin_strategic_action(&state, &labels(), &card_names(), "a", strategic("pok3politics")).unwrap();
    let before = state.clone();

    let error = window.take_choice(&mut state, &payers(), ChoiceOption::new("invented", STRATEGY_KIND)).unwrap_err();

    assert!(matches!(error, StrategySecondaryError::IllegalChoice(_)));
    assert_eq!(state, before);
    assert!(window.resolutions().is_empty());
    assert!(!window.is_complete());
}

#[test]
fn leadership_secondaries_are_gated_on_influence_affordability() {
    let mut state = drafted_three_player_game();
    let card = player(&state, "a")
        .strategy_cards
        .iter()
        .find(|card| card.as_str() == "pok1leadership")
        .cloned()
        .expect("the deterministic draft gives the primary Leadership");
    player_mut(&mut state, "b").trade_goods = 3;
    // Only "b" can afford the influence; "c" has none.
    let standings = vec![Standing { free: true, able: true }, Standing { free: true, able: false }];

    let mut window = begin_strategic_action(&state, &labels(), &card_names(), "a", strategic(&card)).unwrap();

    let choice = window.next_choice(&mut state, &standings).unwrap();
    assert_eq!(choice.player, "b");
    assert_eq!(choice.prompt, "spend 3 influence for a command token");
    assert_eq!(ids(&choice.options), vec!["no", "yes"]);

    let resolution = window.take_choice(&mut state, &standings, ChoiceOption::new("yes", STRATEGY_KIND)).unwrap();
    assert_eq!(resolution, SecondaryResolution::Followed);

    assert!(window.next_choice(&mut state, &standings).is_none());
    assert!(window.is_complete());
    assert_eq!(
        window.resolutions(),
        &vec![("b".to_string(), SecondaryResolution::Followed), ("c".to_string(), SecondaryResolution::Ineligible)]
    );
}

#[test]
fn an_invented_strategic_action_is_atomic() {
    let mut state = drafted_three_player_game();
    let before = state.clone();

    let error = take_strategic_action(&mut state, &labels(), "a", ChoiceOption::new("strategic|invented", ACTION_KIND))
        .unwrap_err();

    assert!(matches!(error, StrategyActionError::IllegalChoice(_)));
    assert_eq!(state, before);
}

#[test]
fn a_seat_without_unused_cards_has_no_strategic_action() {
    let mut state = game(vec![seat("a", &["pok1leadership"]), seat("b", &[])]);
    assert!(strategic_action_options(&state, &labels(), "b").is_none());
    assert!(strategic_action_options(&state, &labels(), "nobody").is_none());
    let error = take_strategic_action(&mut state, &labels(), "b", ChoiceOption::new("strategic", ACTION_KIND)).unwrap_err();
    assert!(matches!(error, StrategyActionError::NoUnusedStrategyCard(p) if p == "b"));
}

#[test]
fn a_single_card_is_taken_through_the_bare_id() {
    let mut state = game(vec![seat("a", &["pok1leadership"]), seat("b", &["pok2diplomacy"])]);
    let taken = take_strategic_action(&mut state, &labels(), "a", ChoiceOption::new("strategic", ACTION_KIND)).unwrap();
    assert_eq!(taken, "pok1leadership");
    assert_eq!(player(&state, "a").exhausted_strategy_cards, vec!["pok1leadership".to_string()]);
    assert!(strategic_action_options(&state, &labels(), "a").is_none());
}

#[test]
fn option_labels_name_the_card() {
    let state = drafted_three_player_game();
    let choice = strategic_action_options(&state, &labels(), "a").unwrap();
    assert_eq!(choice.options[0].label, "take the strategic action of Leadership");
    assert_eq!(choice.options[1].label, "take the strategic action of Politics");
    assert_eq!(choice.prompt, "action phase");
    let unlabelled = strategic_action_options(&state, &labels(), "b").unwrap();
    assert_eq!(unlabelled.options[0].label, "take the strategic action of pok2diplomacy");
}

#[test]
fn exhausting_an_unheld_card_changes_nothing() {
    let mut state = drafted_three_player_game();
    let before = state.clone();
    assert!(!exhaust_strategy_card(&mut state, "a", "pok5trade"));
    assert_eq!(state, before);
    assert!(exhaust_strategy_card(&mut state, "a", "pok3politics"));
    assert!(exhaust_strategy_card(&mut state, "a", "pok3politics"));
    assert_eq!(player(&state, "a").exhausted_strategy_cards, vec!["pok3politics".to_string()]);
}

#[test]
fn the_window_opens_on_the_followers_clockwise_from_the_primary() {
    let state = drafted_three_player_game();
    let window = begin_strategic_action(&state, &labels(), &card_names(), "b", strategic("pok5trade")).unwrap();
    assert_eq!(window.primary_player(), "b");
    assert_eq!(window.card(), "pok5trade");
    let choice = window.pending_choice(&state, &payers()).unwrap();
    assert_eq!(choice.player, "c");
    assert_eq!(choice.prompt, "spend a strategy token to replenish commodities");
    assert_eq!(choice.options[1].label, "replenish");
    assert!(!window.is_complete());
}

#[test]
fn a_follower_who_spent_their_last_token_is_passed_over() {
    let mut state = drafted_three_player_game();
    let mut window =
        begin_strategic_action(&state, &labels(), &card_names(), "a", strategic("pok3politics")).unwrap();
    let choice = window.next_choice(&mut state, &payers()).unwrap();
    assert_eq!(choice.player, "b");
    player_mut(&mut state, "b").strategic_tokens = 0;
    let resolution = window.take_choice(&mut state, &payers(), ChoiceOption::new("yes", STRATEGY_KIND)).unwrap();
    assert_eq!(resolution, SecondaryResolution::Followed);
    assert_eq!(player(&state, "c").strategic_tokens, 1);
    assert_eq!(
        window.resolutions(),
        &vec![("b".to_string(), SecondaryResolution::Ineligible), ("c".to_string(), SecondaryResolution::Followed)]
    );
    assert!(player(&state, "a").exhausted_strategy_cards.contains(&"pok3politics".to_string()));
}

#[test]
fn a_finished_window_refuses_further_answers() {
    let mut state = drafted_three_player_game();
    player_mut(&mut state, "b").strategic_tokens = 0;
    player_mut(&mut state, "c").strategic_tokens = 0;
    let mut window =
        begin_strategic_action(&state, &labels(), &card_names(), "a", strategic("pok3politics")).unwrap();
    let error = window.take_choice(&mut state, &payers(), ChoiceOption::new("yes", STRATEGY_KIND)).unwrap_err();
    assert!(matches!(error, StrategySecondaryError::Complete));
    assert!(window.is_complete());
}
