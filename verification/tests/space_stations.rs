use ti4_engine::space_stations::{reconcile, reconcile_all, reconcile_system, stations_in, Tile};
use ti4_engine::state::{GameState, Seat, SystemState, Unit};

const WATCHTOWER_SYSTEM: &str = "117";
const WATCHTOWER: &str = "thewatchtower";

fn seat(id: &str) -> Seat {
    Seat {
        id: id.to_string(),
        faction: "generic".to_string(),
        tactic_tokens: 3,
        fleet_tokens: 3,
        strategic_tokens: 2,
        trade_goods: 0,
        commodities: 0,
        victory_points: 0,
        relic_fragments: vec![],
        action_cards: vec![],
        secret_objectives: vec![],
        notes: vec![],
        abilities: vec![],
        technologies: vec![],
        captured_units: vec![],
        breakthrough: None,
        strategy_cards: vec![],
        exhausted_strategy_cards: vec![],
        gravity_drive_used_activation: None,
        exhausted_technologies: vec![],
        passed: false,
        stability: false,
        exhausted_relics: vec![],
        home_system: None,
        home_planets: vec![],
        leaders: vec![],
    }
}

fn system(id: &str) -> SystemState {
    SystemState { id: id.to_string(), units: vec![], planet_units: vec![], planet_control: vec![], command_tokens: vec![] }
}

/// The tiles these tests touch, as printed.
fn tiles() -> Vec<Tile> {
    vec![
        Tile { id: "117".to_string(), planets: vec![WATCHTOWER.to_string()] },
        Tile { id: "109".to_string(), planets: vec!["bellatrix".to_string(), "tsionstation".to_string()] },
        Tile { id: "19".to_string(), planets: vec!["wellon".to_string()] },
    ]
}

/// The planet cards that are space stations.
fn station_cards() -> Vec<String> {
    vec![WATCHTOWER.to_string(), "tsionstation".to_string()]
}

fn game() -> GameState {
    GameState {
        players: vec![seat("a"), seat("b")],
        board: vec![system("117"), system("109"), system("19")],
        seating_order: vec!["a".to_string(), "b".to_string()],
        transactions_this_round: vec![],
        transacted_this_turn: vec![],
        black_market: false,
        active_system: None,
        pending: None,
        activation_seq: 0,
        exhausted_planets: vec![],
        phase: ti4_engine::state::Phase::Action,
        finished: false,
        objective_deck: vec![],
        revealed_objectives: vec![],
        speaker: String::new(),
        agenda_deck: vec![],
        expedition_slices: vec![],
        placed_planets: vec![],
        thunders_edge_system: None,
        action_card_deck: vec![],
    }
}

fn ship(owner: &str) -> Unit {
    Unit { type_id: "carrier".to_string(), owner: owner.to_string(), sustained_damage: false, galvanized: false }
}

fn board_mut<'a>(state: &'a mut GameState, id: &str) -> &'a mut SystemState {
    state.board.iter_mut().find(|s| s.id == id).unwrap()
}

fn control(state: &GameState, id: &str, planet: &str) -> Option<String> {
    let record = state.board.iter().find(|s| s.id == id).unwrap();
    record.planet_control.iter().find(|(p, _)| p == planet).map(|(_, who)| who.clone())
}

fn holder(state: &GameState) -> Option<String> {
    control(state, WATCHTOWER_SYSTEM, WATCHTOWER)
}

#[test]
fn the_only_player_in_the_system_gains_the_station() {
    let mut state = game();
    board_mut(&mut state, WATCHTOWER_SYSTEM).units.push(ship("a"));

    assert!(reconcile(&mut state, &tiles(), &station_cards(), WATCHTOWER_SYSTEM));
    assert_eq!(holder(&state), Some("a".to_string()), "rule 2");
}

#[test]
fn a_second_player_arriving_does_not_take_it() {
    let mut state = game();
    board_mut(&mut state, WATCHTOWER_SYSTEM).units.push(ship("a"));
    reconcile(&mut state, &tiles(), &station_cards(), WATCHTOWER_SYSTEM);

    board_mut(&mut state, WATCHTOWER_SYSTEM).units.push(ship("b"));
    reconcile(&mut state, &tiles(), &station_cards(), WATCHTOWER_SYSTEM);
    assert_eq!(holder(&state), Some("a".to_string()), "two occupants means the holder keeps it until combat resolves");
}

#[test]
fn winning_the_combat_transfers_it() {
    let mut state = game();
    board_mut(&mut state, WATCHTOWER_SYSTEM).units.push(ship("a"));
    reconcile(&mut state, &tiles(), &station_cards(), WATCHTOWER_SYSTEM);
    board_mut(&mut state, WATCHTOWER_SYSTEM).units.push(ship("b"));
    reconcile(&mut state, &tiles(), &station_cards(), WATCHTOWER_SYSTEM);

    board_mut(&mut state, WATCHTOWER_SYSTEM).units.retain(|unit| unit.owner == "b");
    assert!(reconcile(&mut state, &tiles(), &station_cards(), WATCHTOWER_SYSTEM));
    assert_eq!(holder(&state), Some("b".to_string()), "rule 2a, resolved");
}

#[test]
fn moving_out_keeps_it() {
    let mut state = game();
    board_mut(&mut state, WATCHTOWER_SYSTEM).units.push(ship("a"));
    reconcile(&mut state, &tiles(), &station_cards(), WATCHTOWER_SYSTEM);

    board_mut(&mut state, WATCHTOWER_SYSTEM).units.clear();
    reconcile(&mut state, &tiles(), &station_cards(), WATCHTOWER_SYSTEM);
    assert_eq!(holder(&state), Some("a".to_string()), "an empty system leaves the holder in place");
}

#[test]
fn ground_forces_in_the_system_count_as_presence() {
    let mut state = game();
    let record = board_mut(&mut state, "109");
    record.planet_units.push((
        "bellatrix".to_string(),
        vec![Unit { type_id: "infantry".to_string(), owner: "a".to_string(), sustained_damage: false, galvanized: false }],
    ));
    record.units.push(ship("b"));

    reconcile(&mut state, &tiles(), &station_cards(), "109");
    assert_eq!(control(&state, "109", "tsionstation"), None, "two players are present, so nobody takes the station");
}

#[test]
fn a_system_with_no_station_is_left_alone() {
    let mut state = game();
    board_mut(&mut state, "19").units.push(ship("a"));
    assert!(!reconcile(&mut state, &tiles(), &station_cards(), "19"));
    assert!(state.board.iter().find(|s| s.id == "19").unwrap().planet_control.is_empty());
}

#[test]
fn only_the_printed_stations_of_a_tile_are_found() {
    assert_eq!(stations_in(&tiles(), &station_cards(), "109"), vec!["tsionstation".to_string()]);
    assert_eq!(stations_in(&tiles(), &station_cards(), "117"), vec![WATCHTOWER.to_string()]);
    assert!(stations_in(&tiles(), &station_cards(), "19").is_empty());
    assert!(stations_in(&tiles(), &station_cards(), "nowhere").is_empty());
}

#[test]
fn a_sole_occupant_by_ground_forces_alone_takes_the_station() {
    let mut state = game();
    board_mut(&mut state, "109")
        .planet_units
        .push(("bellatrix".to_string(), vec![Unit { type_id: "infantry".to_string(), owner: "b".to_string(), sustained_damage: false, galvanized: false }]));
    assert!(reconcile(&mut state, &tiles(), &station_cards(), "109"));
    assert_eq!(control(&state, "109", "tsionstation"), Some("b".to_string()));
    assert_eq!(control(&state, "109", "bellatrix"), None, "a planet is taken by invasion, not by this rule");
}

#[test]
fn settling_twice_changes_nothing_the_second_time() {
    let mut state = game();
    board_mut(&mut state, WATCHTOWER_SYSTEM).units.push(ship("a"));
    assert!(reconcile(&mut state, &tiles(), &station_cards(), WATCHTOWER_SYSTEM));
    let settled = state.clone();
    assert!(!reconcile(&mut state, &tiles(), &station_cards(), WATCHTOWER_SYSTEM));
    assert_eq!(state, settled);
}

#[test]
fn a_station_held_by_another_changes_hands_in_place() {
    let mut record = system("117");
    record.planet_control.push((WATCHTOWER.to_string(), "b".to_string()));
    record.units.push(ship("a"));
    assert!(reconcile_system(&mut record, &vec![WATCHTOWER.to_string()]));
    assert_eq!(record.planet_control, vec![(WATCHTOWER.to_string(), "a".to_string())]);
}

#[test]
fn a_system_off_the_board_is_left_alone() {
    let mut state = game();
    let before = state.clone();
    assert!(!reconcile(&mut state, &tiles(), &station_cards(), "999"));
    assert_eq!(state, before);
}

#[test]
fn the_whole_board_is_settled_in_one_pass() {
    let mut state = game();
    board_mut(&mut state, WATCHTOWER_SYSTEM).units.push(ship("a"));
    board_mut(&mut state, "109").units.push(ship("b"));
    board_mut(&mut state, "19").units.push(ship("a"));
    assert!(reconcile_all(&mut state, &tiles(), &station_cards()));
    assert_eq!(holder(&state), Some("a".to_string()));
    assert_eq!(control(&state, "109", "tsionstation"), Some("b".to_string()));
    assert!(state.board.iter().find(|s| s.id == "19").unwrap().planet_control.is_empty());
    assert!(!reconcile_all(&mut state, &tiles(), &station_cards()), "a settled board stays settled");
}
