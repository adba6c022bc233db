use ti4_engine::choice::ChoiceOption;
use ti4_engine::dice::Dice;
use ti4_engine::rng::GameRng;
use ti4_engine::state::{GameState, Seat, SystemState, Unit};
use ti4_engine::transit::{
    apply_move, capacity_of, loadable, Cargo, MoveOutcome, rifts_exited, survives_gravity_rifts, CargoError, CargoSource, CargoWindow,
    MovementRules, UnitKind, LOAD_KIND, RIFT_DESTROYS_ON,
};

fn player() -> String {
    "a".to_string()
}

fn kinds() -> Vec<UnitKind> {
    vec![
        UnitKind { id: "carrier".to_string(), capacity: 4, consumes_capacity: false },
        UnitKind { id: "destroyer".to_string(), capacity: 0, consumes_capacity: false },
        UnitKind { id: "infantry".to_string(), capacity: 0, consumes_capacity: true },
        UnitKind { id: "fighter".to_string(), capacity: 0, consumes_capacity: true },
        UnitKind { id: "mech".to_string(), capacity: 0, consumes_capacity: true },
    ]
}

fn unit(kind: &str) -> Unit {
    Unit { type_id: kind.to_string(), owner: player(), sustained_damage: false, galvanized: false }
}

fn seat(id: &str) -> Seat {
    Seat {
        id: id.to_string(),
        faction: "generic".to_string(),
        tactic_tokens: 3,
        fleet_tokens: 3,
        strategic_tokens: 2,
        trade_goods: 0,
        commodities: 0,
        victory_points: 0,
        relic_fragments: vec![],
        action_cards: vec![],
        secret_objectives: vec![],
        notes: vec![],
        abilities: vec![],
        technologies: vec![],
        captured_units: vec![],
        breakthrough: None,
        strategy_cards: vec![],
        exhausted_strategy_cards: vec![],
        gravity_drive_used_activation: None,
        exhausted_technologies: vec![],
        passed: false,
        stability: false,
        exhausted_relics: vec![],
        home_system: None,
        home_planets: vec![],
        leaders: vec![],
    }
}

fn system(id: &str) -> SystemState {
    SystemState { id: id.to_string(), units: vec![], planet_units: vec![], planet_control: vec![], command_tokens: vec![] }
}

fn state_with_two_systems() -> (GameState, String, String) {
    let state = GameState {
        players: vec![seat("a"), seat("b")],
        board: vec![system("s1"), system("s2")],
        seating_order: vec!["a".to_string(), "b".to_string()],
        transactions_this_round: vec![],
        transacted_this_turn: vec![],
        black_market: false,
        active_system: None,
        pending: None,
        activation_seq: 0,
        exhausted_planets: vec![],
        phase: ti4_engine::state::Phase::Action,
        finished: false,
        objective_deck: vec![],
        revealed_objectives: vec![],
        speaker: String::new(),
        agenda_deck: vec![],
        expedition_slices: vec![],
        placed_planets: vec![],
        thunders_edge_system: None,
        action_card_deck: vec![],
    };
    (state, "s1".to_string(), "s2".to_string())
}

fn at<'a>(state: &'a mut GameState, id: &str) -> &'a mut SystemState {
    state.board.iter_mut().find(|s| s.id == id).unwrap()
}

#[test]
fn a_ship_picks_up_from_systems_it_passes_through() {
    let (mut state, origin, midpoint) = state_with_two_systems();
    at(&mut state, &midpoint).units.push(unit("infantry"));
    at(&mut state, &origin).units.push(unit("carrier"));

    // The route passes the midpoint twice; its infantry is offered once.
    let path = vec![midpoint.clone(), midpoint.clone(), origin.clone()];
    let hold = CargoWindow::for_route(
        &state,
        &kinds(),
        &player(),
        &origin,
        &unit("carrier"),
        &path,
        &vec!["infantry".to_string(), "mech".to_string()],
        &vec!["fighter".to_string()],
    );
    let choice = hold.pending_choice().unwrap();
    assert_eq!(choice.options.len(), 2, "the infantry on the route is loadable, and decline");
    assert_eq!(choice.prompt, "load carrier (4 free)");
}

#[test]
fn a_command_token_bars_pickup_unless_it_is_the_active_system() {
    let (mut state, origin, _) = state_with_two_systems();
    at(&mut state, &origin).units.push(unit("infantry"));
    state.active_system = Some("somewhere_else".to_string());

    assert!(!loadable(&state, &kinds(), &player(), &origin).is_empty(), "with no token there, the infantry is loadable");

    at(&mut state, &origin).command_tokens.push(player());
    assert!(loadable(&state, &kinds(), &player(), &origin).is_empty(), "your own command token bars the pickup");

    state.active_system = Some(origin.clone());
    assert!(
        !loadable(&state, &kinds(), &player(), &origin).is_empty(),
        "except in the active system, where the token is yours from activating it"
    );
}

#[test]
fn a_carrier_has_capacity_and_a_destroyer_does_not() {
    assert!(capacity_of(&kinds(), &unit("carrier")) > 0);
    assert_eq!(capacity_of(&kinds(), &unit("destroyer")), 0);
    assert_eq!(capacity_of(&kinds(), &unit("unknown")), 0);
}

#[test]
fn a_ship_with_no_capacity_carries_nothing() {
    let window = CargoWindow::new(player(), Vec::new(), 0);
    assert!(window.is_complete());
    assert!(window.pending_choice().is_none());
}

#[test]
fn only_units_that_consume_capacity_can_be_loaded() {
    let (mut state, origin, _) = state_with_two_systems();
    let s = at(&mut state, &origin);
    s.units.push(unit("infantry"));
    s.units.push(unit("fighter"));
    s.units.push(unit("carrier"));

    let found = loadable(&state, &kinds(), &player(), &origin);
    let kinds: Vec<String> = found.iter().map(|cargo| cargo.unit.type_id.clone()).collect();
    assert!(kinds.contains(&"infantry".to_owned()));
    assert!(kinds.contains(&"fighter".to_owned()));
    assert!(!kinds.contains(&"carrier".to_owned()), "a hull is not cargo");
}

#[test]
fn another_players_units_are_not_cargo() {
    let (mut state, origin, _) = state_with_two_systems();
    let mut theirs = unit("infantry");
    theirs.owner = "b".to_string();
    at(&mut state, &origin).units.push(theirs);
    assert!(loadable(&state, &kinds(), &player(), &origin).is_empty());
    assert!(loadable(&state, &kinds(), &player(), "nowhere").is_empty());
}

#[test]
fn identical_units_are_tracked_by_index_not_by_value() {
    let (mut state, origin, _) = state_with_two_systems();
    for _ in 0..3 {
        at(&mut state, &origin).units.push(unit("infantry"));
    }
    let candidates = loadable(&state, &kinds(), &player(), &origin);
    let mut window = CargoWindow::new(player(), candidates, 3);
    for _ in 0..3 {
        let choice = window.pending_choice().expect("the hold has room");
        let first = choice.options.iter().find(|option| !option.is_decline()).unwrap().clone();
        window.resolve(first).unwrap();
    }
    assert_eq!(window.cargo().len(), 3, "all three were loadable");
    assert!(window.is_complete());
}

#[test]
fn interchangeable_units_are_offered_once() {
    let (mut state, origin, _) = state_with_two_systems();
    for _ in 0..4 {
        at(&mut state, &origin).units.push(unit("infantry"));
    }
    let candidates = loadable(&state, &kinds(), &player(), &origin);
    let window = CargoWindow::new(player(), candidates, 4);
    let choice = window.pending_choice().unwrap();
    assert_eq!(choice.options.len(), 2, "one pickup plus decline");
}

#[test]
fn a_unit_on_a_planet_is_a_different_pickup_from_one_in_space() {
    let (mut state, origin, _) = state_with_two_systems();
    at(&mut state, &origin).units.push(unit("infantry"));
    at(&mut state, &origin).planet_units.push(("jord".to_string(), vec![unit("infantry")]));

    let candidates = loadable(&state, &kinds(), &player(), &origin);
    assert_eq!(candidates[1].source, CargoSource::Planet("jord".to_string()));
    let window = CargoWindow::new(player(), candidates, 2);
    let choice = window.pending_choice().unwrap();
    assert_eq!(choice.options.len(), 3, "space, planet, and decline");
}

#[test]
fn a_hold_stops_at_capacity() {
    let (mut state, origin, _) = state_with_two_systems();
    for _ in 0..5 {
        at(&mut state, &origin).units.push(unit("fighter"));
    }
    let candidates = loadable(&state, &kinds(), &player(), &origin);
    let mut window = CargoWindow::new(player(), candidates, 2);
    for _ in 0..2 {
        let choice = window.pending_choice().unwrap();
        let pick = choice.options[0].clone();
        window.resolve(pick).unwrap();
    }
    assert!(window.is_complete(), "two of five, and the hold is full");
    assert!(window.pending_choice().is_none());
    assert_eq!(window.cargo().len(), 2);
}

#[test]
fn a_hold_is_complete_when_every_available_unit_is_loaded() {
    let (mut state, origin, _) = state_with_two_systems();
    for _ in 0..3 {
        at(&mut state, &origin).units.push(unit("infantry"));
    }
    let candidates = loadable(&state, &kinds(), &player(), &origin);
    let mut window = CargoWindow::new(player(), candidates, 4);
    for _ in 0..3 {
        let choice = window.pending_choice().expect("an available unit is offered");
        let pick = choice.options.iter().find(|option| !option.is_decline()).expect("a pickup is offered").clone();
        window.resolve(pick).unwrap();
    }
    assert!(window.is_complete(), "nothing remains to fill the spare slot");
    assert!(window.pending_choice().is_none());
    assert_eq!(window.cargo().len(), 3);
}

#[test]
fn declining_closes_the_hold_early() {
    let (mut state, origin, _) = state_with_two_systems();
    at(&mut state, &origin).units.push(unit("infantry"));
    let candidates = loadable(&state, &kinds(), &player(), &origin);
    let mut window = CargoWindow::new(player(), candidates, 4);
    let choice = window.pending_choice().unwrap();
    let decline = choice.options.iter().find(|option| option.is_decline()).unwrap().clone();
    window.resolve(decline).unwrap();
    assert!(window.is_complete());
    assert!(window.cargo().is_empty());
}

#[test]
fn an_answer_that_was_not_offered_loads_nothing() {
    let (mut state, origin, _) = state_with_two_systems();
    at(&mut state, &origin).units.push(unit("infantry"));
    let candidates = loadable(&state, &kinds(), &player(), &origin);
    let mut window = CargoWindow::new(player(), candidates, 2);
    let before = window.clone();
    let error = window.resolve(ChoiceOption::new("load|99", LOAD_KIND)).unwrap_err();
    assert!(matches!(error, CargoError::IllegalChoice(_)));
    assert_eq!(window, before);
}

#[test]
fn resolving_a_closed_hold_is_refused() {
    let mut window = CargoWindow::new(player(), Vec::new(), 0);
    assert!(matches!(window.resolve(ChoiceOption::decline()), Err(CargoError::Complete)));
}

fn rules(rifts: &[&str]) -> MovementRules {
    MovementRules { rifts: rifts.iter().map(|r| r.to_string()).collect(), anomalies_ignored: false, rifts_ignored: false }
}

#[test]
fn only_rifts_that_are_exited_roll() {
    let rules = rules(&["rift"]);
    assert!(rifts_exited(&rules, &["home".to_string(), "rift".to_string()]).is_empty());
    assert_eq!(rifts_exited(&rules, &["rift".to_string(), "home".to_string()]), vec!["rift".to_string()]);
    assert!(rifts_exited(&rules, &[]).is_empty());
}

#[test]
fn a_rift_roll_of_three_or_less_destroys_the_ship() {
    let rules = rules(&["rift"]);
    let path = vec!["rift".to_string(), "home".to_string()];
    let mut survived = 0;
    let mut lost = 0;
    for seed in 0..60_u64 {
        let mut dice = Dice::new();
        let mut rng = GameRng::new(seed);
        let alive = survives_gravity_rifts(&mut dice, &mut rng, &rules, &path);
        if alive {
            survived += 1;
        } else {
            lost += 1;
        }
        assert_eq!(dice.count(), 1, "exactly one die per rift exited");
        assert_eq!(alive, dice.history[0].faces[0] > RIFT_DESTROYS_ON);
    }
    assert!(survived > 0 && lost > 0, "{survived} survived, {lost} lost");
}

#[test]
fn the_circlet_owner_never_rolls_for_a_rift() {
    let mut rules = rules(&["rift"]);
    rules.rifts_ignored = true;
    let mut dice = Dice::new();
    let mut rng = GameRng::new(1);
    assert!(survives_gravity_rifts(&mut dice, &mut rng, &rules, &["rift".to_string(), "home".to_string()]));
    assert_eq!(dice.count(), 0, "no die was even rolled");
}

#[test]
fn ignoring_anomalies_survives_every_rift() {
    let mut rules = rules(&["rift"]);
    rules.anomalies_ignored = true;
    let mut dice = Dice::new();
    let mut rng = GameRng::new(1);
    assert!(survives_gravity_rifts(&mut dice, &mut rng, &rules, &["rift".to_string(), "home".to_string()]));
    assert_eq!(dice.count(), 0, "no die was even rolled");
}

#[test]
fn a_route_with_no_rift_rolls_nothing() {
    let rules = rules(&["rift"]);
    let mut dice = Dice::new();
    let mut rng = GameRng::new(1);
    assert!(survives_gravity_rifts(&mut dice, &mut rng, &rules, &["home".to_string(), "away".to_string()]));
    assert_eq!(dice.count(), 0);
}

#[test]
fn planets_are_walked_in_ascending_id_whatever_the_storage_order() {
    let (mut state, origin, _) = state_with_two_systems();
    at(&mut state, &origin).planet_units.push(("zeta".to_string(), vec![unit("infantry")]));
    at(&mut state, &origin).planet_units.push(("alpha".to_string(), vec![unit("mech")]));
    let found = loadable(&state, &kinds(), &player(), &origin);
    assert_eq!(found.len(), 2);
    assert_eq!(found[0].source, CargoSource::Planet("alpha".to_string()));
    assert_eq!(found[1].source, CargoSource::Planet("zeta".to_string()));
}

fn on_board<'a>(state: &'a GameState, id: &str) -> &'a SystemState {
    state.board.iter().find(|s| s.id == id).unwrap()
}

#[test]
fn cargo_is_removed_from_the_system_it_was_picked_up_in() {
    let mut state = state_with_two_systems().0;
    state.board.push(system("s3"));
    let (origin, midpoint, destination) = ("s1".to_string(), "s2".to_string(), "s3".to_string());

    let ship = unit("carrier");
    let troops = unit("infantry");
    at(&mut state, &origin).units.push(ship.clone());
    at(&mut state, &midpoint).units.push(troops.clone());

    let cargo = vec![Cargo { unit: troops.clone(), source: CargoSource::Space, system: midpoint.clone() }];
    apply_move(&mut state, &origin, &destination, &ship, cargo, true);

    assert!(on_board(&state, &midpoint).units.is_empty(), "the passenger left the system it was picked up in");
    assert!(on_board(&state, &destination).units.contains(&troops), "and arrived with the ship");
}

#[test]
fn a_moved_ship_takes_its_cargo_with_it() {
    let (mut state, origin, destination) = state_with_two_systems();
    let ship = unit("carrier");
    let troops = unit("infantry");
    at(&mut state, &origin).units.push(ship.clone());
    at(&mut state, &origin).units.push(troops.clone());

    let cargo = vec![Cargo { unit: troops, source: CargoSource::Space, system: origin.clone() }];
    let outcome = apply_move(&mut state, &origin, &destination, &ship, cargo, true);

    assert!(matches!(outcome, MoveOutcome::Arrived { .. }));
    assert!(on_board(&state, &origin).units.is_empty(), "both left");
    assert_eq!(on_board(&state, &destination).units.len(), 2, "hull and passenger both arrived");
}

#[test]
fn a_passenger_from_a_planet_arrives_in_space_not_on_a_planet() {
    let (mut state, origin, destination) = state_with_two_systems();
    let planet = "jord".to_string();
    let ship = unit("carrier");
    let troops = unit("infantry");
    at(&mut state, &origin).units.push(ship.clone());
    at(&mut state, &origin).planet_units.push((planet.clone(), vec![troops.clone()]));

    let cargo = vec![Cargo { unit: troops, source: CargoSource::Planet(planet.clone()), system: origin.clone() }];
    apply_move(&mut state, &origin, &destination, &ship, cargo, true);

    let on_jord = on_board(&state, &origin).planet_units.iter().find(|(p, _)| *p == planet).map(|(_, u)| u.len());
    assert_eq!(on_jord, Some(0));
    assert_eq!(on_board(&state, &destination).units.len(), 2);
    assert!(
        on_board(&state, &destination).planet_units.iter().all(|(p, u)| *p != planet || u.is_empty()),
        "it did not land"
    );
}

#[test]
fn a_ship_lost_to_a_rift_takes_its_cargo_down_with_it() {
    let (mut state, origin, destination) = state_with_two_systems();
    let ship = unit("carrier");
    let troops = unit("infantry");
    at(&mut state, &origin).units.push(ship.clone());
    at(&mut state, &origin).units.push(troops.clone());

    let cargo = vec![Cargo { unit: troops, source: CargoSource::Space, system: origin.clone() }];
    let outcome = apply_move(&mut state, &origin, &destination, &ship, cargo, false);

    assert!(matches!(outcome, MoveOutcome::LostToGravityRift { .. }));
    assert!(on_board(&state, &origin).units.is_empty(), "both gone");
    assert!(on_board(&state, &destination).units.is_empty(), "nothing arrived");
}

#[test]
fn the_outcome_names_the_passengers_not_just_a_count() {
    let (mut state, origin, destination) = state_with_two_systems();
    let ship = unit("carrier");
    let troops = unit("infantry");
    at(&mut state, &origin).units.push(ship.clone());
    at(&mut state, &origin).units.push(troops.clone());

    let cargo = vec![Cargo { unit: troops.clone(), source: CargoSource::Space, system: origin.clone() }];
    let outcome = apply_move(&mut state, &origin, &destination, &ship, cargo, false);

    let MoveOutcome::LostToGravityRift { cargo } = outcome else {
        panic!("expected a loss");
    };
    assert_eq!(cargo[0].unit.type_id, troops.type_id);
    assert_eq!(cargo[0].source, CargoSource::Space);
}

#[test]
fn a_destination_off_the_board_is_added_with_the_arrivals() {
    let (mut state, origin, _) = state_with_two_systems();
    let ship = unit("carrier");
    at(&mut state, &origin).units.push(ship.clone());
    at(&mut state, &origin).units.push(unit("fighter"));

    apply_move(&mut state, &origin, "s9", &ship, vec![], true);

    assert_eq!(state.board.len(), 3);
    assert_eq!(on_board(&state, "s9").units, vec![ship]);
    assert_eq!(on_board(&state, &origin).units, vec![unit("fighter")]);
}

#[test]
fn a_passenger_that_is_not_where_it_was_picked_up_stays_off_the_board() {
    let (mut state, origin, destination) = state_with_two_systems();
    let ship = unit("carrier");
    at(&mut state, &origin).units.push(ship.clone());

    let cargo = vec![Cargo { unit: unit("mech"), source: CargoSource::Space, system: origin.clone() }];
    apply_move(&mut state, &origin, &destination, &ship, cargo, true);

    assert_eq!(on_board(&state, &destination).units, vec![ship]);
}

#[test]
fn each_rift_die_is_the_next_draw_of_the_dice_stream() {
    let rules = rules(&["r1", "r2", "r3"]);
    let path = vec!["r1".to_string(), "r2".to_string(), "r3".to_string(), "home".to_string()];
    for seed in 0..40_u64 {
        let mut dice = Dice::new();
        let mut rng = GameRng::new(seed);
        let alive = survives_gravity_rifts(&mut dice, &mut rng, &rules, &path);
        let mut fresh = GameRng::new(seed);
        let draws: Vec<u32> = (0..3).map(|_| fresh.die(ti4_engine::rng::domain::DICE, 10)).collect();
        let rolled: Vec<u32> = dice.history.iter().map(|r| r.faces[0]).collect();
        assert_eq!(rolled, draws[..rolled.len()].to_vec());
        assert_eq!(alive, draws.iter().all(|face| *face > RIFT_DESTROYS_ON));
        // The same seed gives the same outcome.
        let mut again = GameRng::new(seed);
        assert_eq!(survives_gravity_rifts(&mut Dice::new(), &mut again, &rules, &path), alive);
    }
}
