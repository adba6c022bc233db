use ti4_engine::choice::{Choice, ChoiceOption};
use ti4_engine::state::{GameState, Seat, TokenPool};
use ti4_engine::tokens::{
    distribution_options, parse_distribution, pool_for, RedistributeError, TokenGain, TokenGainError, TokenPlacement,
    TokenRedistribution, POOL_KIND, REDISTRIBUTE_KIND,
};

fn seat(id: &str) -> Seat {
    Seat {
        id: id.to_string(),
        faction: "generic".to_string(),
        tactic_tokens: 3,
        fleet_tokens: 3,
        strategic_tokens: 2,
        trade_goods: 0,
        commodities: 0,
        victory_points: 0,
        relic_fragments: vec![],
        action_cards: vec![],
        secret_objectives: vec![],
        notes: vec![],
        abilities: vec![],
        technologies: vec![],
        captured_units: vec![],
        breakthrough: None,
        strategy_cards: vec![],
        exhausted_strategy_cards: vec![],
        gravity_drive_used_activation: None,
        exhausted_technologies: vec![],
        passed: false,
        stability: false,
        exhausted_relics: vec![],
        home_system: None,
        home_planets: vec![],
        leaders: vec![],
    }
}

fn game() -> (GameState, [String; 2]) {
    let players = ["a".to_string(), "b".to_string()];
    let state = GameState {
        players: vec![seat("a"), seat("b")],
        board: vec![],
        seating_order: players.to_vec(),
        transactions_this_round: vec![],
        transacted_this_turn: vec![],
        black_market: false,
        active_system: None,
        pending: None,
        activation_seq: 0,
        exhausted_planets: vec![],
        phase: ti4_engine::state::Phase::Action,
        finished: false,
        objective_deck: vec![],
        revealed_objectives: vec![],
        speaker: String::new(),
        agenda_deck: vec![],
        expedition_slices: vec![],
        placed_planets: vec![],
        thunders_edge_system: None,
        action_card_deck: vec![],
    };
    (state, players)
}

fn option(choice: &Choice, id: &str) -> Option<ChoiceOption> {
    choice.options.iter().find(|o| o.id == id).cloned()
}

fn pick(window: &TokenGain, id: &str) -> ChoiceOption {
    option(&window.pending_choice().unwrap(), id).unwrap()
}

fn seat_of<'a>(state: &'a GameState, id: &str) -> &'a Seat {
    state.players.iter().find(|s| s.id == id).unwrap()
}

fn seat_mut<'a>(state: &'a mut GameState, id: &str) -> &'a mut Seat {
    state.players.iter_mut().find(|s| s.id == id).unwrap()
}

#[test]
fn each_token_is_offered_separately_in_the_given_order() {
    let (mut state, players) = game();
    let mut window = TokenGain::for_status(&players, &[2, 2]);
    assert_eq!(window.next_player(), Some(&"a".to_string()));
    let mut offered = 0;
    while !window.is_complete() {
        window.resolve(&mut state, pick(&window, "tactic_tokens")).unwrap();
        offered += 1;
    }
    assert_eq!(offered, 4);
}

#[test]
fn status_gain_applies_versatile_to_sol_only() {
    // Sol's Versatile adds one to its count; another faction gains the printed two.
    let (mut state, players) = game();
    let mut window = TokenGain::for_status(&players, &[3, 2]);
    let mut order = Vec::new();
    while !window.is_complete() {
        order.push(window.next_player().unwrap().clone());
        window.resolve(&mut state, pick(&window, "fleet_tokens")).unwrap();
    }
    assert_eq!(order.iter().filter(|p| *p == "a").count(), 3);
    assert_eq!(order.iter().filter(|p| *p == "b").count(), 2);
}

#[test]
fn a_player_may_split_their_tokens_across_pools() {
    let (mut state, players) = game();
    let mut window = TokenGain::new(&players[..1], 2);
    let before = seat_of(&state, "a").clone();

    window.resolve(&mut state, pick(&window, "tactic_tokens")).unwrap();
    window.resolve(&mut state, pick(&window, "fleet_tokens")).unwrap();

    let after = seat_of(&state, "a");
    assert_eq!(after.tactic_tokens, before.tactic_tokens + 1);
    assert_eq!(after.fleet_tokens, before.fleet_tokens + 1);
    assert_eq!(after.strategic_tokens, before.strategic_tokens);
    assert!(window.is_complete());
}

#[test]
fn every_pool_can_be_chosen() {
    let (mut state, players) = game();
    let mut window = TokenGain::new(&players[..1], 3);
    let before = seat_of(&state, "a").clone();
    for id in ["tactic_tokens", "fleet_tokens", "strategic_tokens"] {
        window.resolve(&mut state, pick(&window, id)).unwrap();
    }
    let after = seat_of(&state, "a");
    assert_eq!(after.tactic_tokens, before.tactic_tokens + 1);
    assert_eq!(after.fleet_tokens, before.fleet_tokens + 1);
    assert_eq!(after.strategic_tokens, before.strategic_tokens + 1);
}

#[test]
fn the_window_grants_in_the_order_it_was_given() {
    let (mut state, players) = game();
    let mut window = TokenGain::for_status(&players, &[2, 2]);
    let mut order = Vec::new();
    while !window.is_complete() {
        order.push(window.next_player().unwrap().clone());
        window.resolve(&mut state, pick(&window, "tactic_tokens")).unwrap();
    }
    assert_eq!(order, vec!["a", "a", "b", "b"]);
}

#[test]
fn an_answer_that_was_not_offered_moves_no_token() {
    let (mut state, players) = game();
    let mut window = TokenGain::new(&players[..1], 1);
    let before = state.clone();
    let error = window.resolve(&mut state, ChoiceOption::new("trade_goods", POOL_KIND)).unwrap_err();
    assert!(matches!(error, TokenGainError::IllegalChoice(_)));
    assert_eq!(state, before, "state must not have moved");
    assert!(!window.is_complete(), "the token is still owed");
}

#[test]
fn resolving_a_complete_window_is_refused() {
    let (mut state, players) = game();
    let mut window = TokenGain::new(&players[..1], 1);
    let option = pick(&window, "tactic_tokens");
    window.resolve(&mut state, option.clone()).unwrap();
    assert!(matches!(window.resolve(&mut state, option), Err(TokenGainError::Complete)));
}

#[test]
fn a_complete_window_offers_no_choice() {
    let (mut state, players) = game();
    let mut window = TokenGain::new(&players[..1], 1);
    window.resolve(&mut state, pick(&window, "fleet_tokens")).unwrap();
    assert!(window.pending_choice().is_none());
    assert!(window.next_player().is_none());
}

#[test]
fn placements_are_recorded_for_the_caller() {
    let (mut state, players) = game();
    let mut window = TokenGain::new(&players[..1], 2);
    window.resolve(&mut state, pick(&window, "strategic_tokens")).unwrap();
    window.resolve(&mut state, pick(&window, "tactic_tokens")).unwrap();
    assert_eq!(
        window.placed(),
        &[
            TokenPlacement { player: "a".to_string(), pool: TokenPool::Strategic },
            TokenPlacement { player: "a".to_string(), pool: TokenPool::Tactic },
        ]
    );
}

#[test]
fn a_zero_token_grant_is_already_complete() {
    let (_, players) = game();
    let window = TokenGain::new(&players, 0);
    assert!(window.is_complete());
    assert!(window.pending_choice().is_none());
}

#[test]
fn a_token_with_none_left_in_reinforcements_is_offered_but_not_gained() {
    // 20.4a: sixteen tokens a faction, and every one already on the sheet.
    let (mut state, players) = game();
    {
        let s = seat_mut(&mut state, "a");
        s.tactic_tokens = 16;
        s.fleet_tokens = 0;
        s.strategic_tokens = 0;
    }
    let mut window = TokenGain::new(&players[..1], 1);
    window.resolve(&mut state, pick(&window, "fleet_tokens")).unwrap();
    assert_eq!(seat_of(&state, "a").fleet_tokens, 0);
    assert!(window.is_complete());
}

#[test]
fn pool_ids_name_their_pools() {
    assert_eq!(pool_for("tactic_tokens"), Some(TokenPool::Tactic));
    assert_eq!(pool_for("fleet_tokens"), Some(TokenPool::Fleet));
    assert_eq!(pool_for("strategic_tokens"), Some(TokenPool::Strategic));
    assert_eq!(pool_for("trade_goods"), None);
}

#[test]
fn redistribution_is_a_single_decision_not_a_forced_sequence_of_single_token_moves() {
    let (mut state, players) = game();
    let player = players[0].clone();
    let mut window = TokenRedistribution::new(player.clone());
    let choice = window.pending_choice(&state).expect("8 tokens held, so a choice is offered");
    assert_eq!(choice.player, player);

    let answer = option(&choice, "6|2|0").expect("tactic 6 / fleet 2 / strategy 0 is offered");
    let (tactic, fleet, strategic) = window.resolve(&mut state, answer).unwrap();
    assert_eq!((tactic, fleet, strategic), (6, 2, 0));

    let seat = seat_of(&state, &player);
    assert_eq!((seat.tactic_tokens, seat.fleet_tokens, seat.strategic_tokens), (6, 2, 0));
    assert!(window.is_complete(&state), "the single decision resolved the whole window");
}

#[test]
fn arrangements_that_do_not_keep_the_fleet_pool_above_one_are_not_offered() {
    let (state, players) = game();
    let window = TokenRedistribution::new(players[0].clone());
    let choice = window.pending_choice(&state).unwrap();
    for option in &choice.options {
        let (_, fleet, _) = parse_distribution(&option.id).expect("every option parses");
        assert!(fleet >= 2, "offered arrangement keeps the fleet pool above one: {}", option.id);
    }
    assert!(option(&choice, "0|0|8").is_none(), "emptying the fleet pool is not offered");
    assert!(option(&choice, "4|1|3").is_none(), "a single fleet token is not offered");
    assert!(option(&choice, "3|2|3").is_some());
}

#[test]
fn holding_one_token_still_offers_an_answerable_window() {
    let (mut state, players) = game();
    {
        let s = seat_mut(&mut state, "a");
        s.tactic_tokens = 1;
        s.fleet_tokens = 0;
        s.strategic_tokens = 0;
    }
    let window = TokenRedistribution::new(players[0].clone());
    let choice = window.pending_choice(&state).unwrap();
    assert_eq!(choice.options.len(), 3, "all three one-token splits stay offered");
}

#[test]
fn each_offered_split_of_the_held_total_is_offered_exactly_once() {
    let (mut state, players) = game();
    {
        let s = seat_mut(&mut state, "a");
        s.tactic_tokens = 2;
        s.fleet_tokens = 2;
        s.strategic_tokens = 0;
    }
    let window = TokenRedistribution::new(players[0].clone());
    let choice = window.pending_choice(&state).unwrap();
    assert_eq!(choice.options.len(), 6, "the bound this fix promises: n(n-1)/2");
    let mut seen = std::collections::BTreeSet::new();
    for option in &choice.options {
        let split = parse_distribution(&option.id).expect("every option parses");
        assert_eq!(split.0 + split.1 + split.2, 4, "conserves the held total");
        assert!(seen.insert(split), "no split is offered twice");
    }
    assert!(option(&choice, "2|2|0").is_some());
}

#[test]
fn a_status_phase_gain_of_two_yields_the_bound_this_fix_promises() {
    let (state, players) = game();
    let window = TokenRedistribution::new(players[0].clone());
    assert_eq!(window.pending_choice(&state).unwrap().options.len(), 28);

    let mut ten = state.clone();
    seat_mut(&mut ten, "a").tactic_tokens += 2;
    let window = TokenRedistribution::new(players[0].clone());
    assert_eq!(window.pending_choice(&ten).unwrap().options.len(), 45);

    let mut sixteen = state.clone();
    {
        let s = seat_mut(&mut sixteen, "a");
        s.tactic_tokens = 16;
        s.fleet_tokens = 0;
        s.strategic_tokens = 0;
    }
    let window = TokenRedistribution::new(players[0].clone());
    assert_eq!(window.pending_choice(&sixteen).unwrap().options.len(), 120);
}

#[test]
fn holding_no_tokens_offers_no_redistribution() {
    let (mut state, players) = game();
    {
        let s = seat_mut(&mut state, "a");
        s.tactic_tokens = 0;
        s.fleet_tokens = 0;
        s.strategic_tokens = 0;
    }
    let window = TokenRedistribution::new(players[0].clone());
    assert!(window.is_complete(&state));
    assert!(window.pending_choice(&state).is_none());
}

#[test]
fn an_unoffered_redistribution_answer_moves_nothing() {
    let (mut state, players) = game();
    let mut window = TokenRedistribution::new(players[0].clone());
    let before = state.clone();
    let error = window.resolve(&mut state, ChoiceOption::new("99|99|99", REDISTRIBUTE_KIND)).unwrap_err();
    assert!(matches!(error, RedistributeError::IllegalChoice(_)));
    assert_eq!(state, before, "state must not have moved");
    assert!(!window.is_complete(&state), "the window is still owed an answer");
}

#[test]
fn resolving_a_complete_redistribution_window_is_refused() {
    let (mut state, players) = game();
    let mut window = TokenRedistribution::new(players[0].clone());
    let choice = window.pending_choice(&state).unwrap();
    let option = choice.options.first().unwrap().clone();
    window.resolve(&mut state, option.clone()).unwrap();
    assert!(matches!(window.resolve(&mut state, option), Err(RedistributeError::Complete)));
}

#[test]
fn distributions_are_written_and_read_back_as_three_fields() {
    let options = distribution_options(3);
    assert!(options.iter().all(|o| parse_distribution(&o.id).is_some()));
    assert_eq!(parse_distribution("1|2|3"), Some((1, 2, 3)));
    assert_eq!(parse_distribution("1|2"), None);
    assert_eq!(parse_distribution("1|2|3|4"), None);
    assert_eq!(parse_distribution("a|2|3"), None);
}
