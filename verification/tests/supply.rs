use ti4_engine::state::{GameState, Seat, SystemState, Unit};
use ti4_engine::supply::{allowed, base_type_of, held, plastic, remaining, UNCAPPED};

fn player() -> String {
    "a".to_string()
}

fn catalogue() -> Vec<(String, String)> {
    vec![
        ("carrier".to_string(), "carrier".to_string()),
        ("sol_carrier2".to_string(), "carrier".to_string()),
        ("infantry".to_string(), "infantry".to_string()),
        ("fighter".to_string(), "fighter".to_string()),
    ]
}

fn seat(id: &str) -> Seat {
    Seat {
        id: id.to_string(),
        faction: "generic".to_string(),
        tactic_tokens: 3,
        fleet_tokens: 3,
        strategic_tokens: 2,
        trade_goods: 0,
        commodities: 0,
        victory_points: 0,
        relic_fragments: vec![],
        action_cards: vec![],
        secret_objectives: vec![],
        notes: vec![],
        abilities: vec![],
        technologies: vec![],
        captured_units: vec![],
        breakthrough: None,
        strategy_cards: vec![],
        exhausted_strategy_cards: vec![],
        gravity_drive_used_activation: None,
        exhausted_technologies: vec![],
        passed: false,
        stability: false,
        exhausted_relics: vec![],
        home_system: None,
        home_planets: vec![],
        leaders: vec![],
    }
}

fn game(ids: &[&str]) -> GameState {
    GameState {
        players: ids.iter().map(|id| seat(id)).collect(),
        board: vec![SystemState {
            id: "s".to_string(),
            units: vec![],
            planet_units: vec![("p".to_string(), vec![])],
            planet_control: vec![],
            command_tokens: vec![],
        }],
        seating_order: ids.iter().map(|id| id.to_string()).collect(),
        transactions_this_round: vec![],
        transacted_this_turn: vec![],
        black_market: false,
        active_system: None,
        pending: None,
        activation_seq: 0,
        exhausted_planets: vec![],
        phase: ti4_engine::state::Phase::Action,
        finished: false,
        objective_deck: vec![],
        revealed_objectives: vec![],
        speaker: String::new(),
        agenda_deck: vec![],
        expedition_slices: vec![],
        placed_planets: vec![],
        thunders_edge_system: None,
        action_card_deck: vec![],
    }
}

fn unit(kind: &str, owner: &str) -> Unit {
    Unit { type_id: kind.to_string(), owner: owner.to_string(), sustained_damage: false, galvanized: false }
}

fn put(state: &mut GameState, kind: &str, owner: &str, count: usize) {
    for _ in 0..count {
        state.board[0].units.push(unit(kind, owner));
    }
}

fn put_on_planet(state: &mut GameState, kind: &str, owner: &str, count: usize) {
    for _ in 0..count {
        state.board[0].planet_units[0].1.push(unit(kind, owner));
    }
}

#[test]
fn fighters_and_infantry_are_not_plastic() {
    assert_eq!(plastic("fighter"), None);
    assert_eq!(plastic("infantry"), None);
    assert_eq!(plastic("carrier"), Some(4));
    let state = game(&["a"]);
    assert_eq!(allowed(&state, &catalogue(), &player(), "infantry", 50), 50, "an uncapped unit passes through untouched");
    assert_eq!(remaining(&state, &catalogue(), &player(), "infantry"), UNCAPPED);
}

#[test]
fn every_capped_plastic_has_its_box_count() {
    assert_eq!(plastic("flagship"), Some(1));
    assert_eq!(plastic("warsun"), Some(2));
    assert_eq!(plastic("dreadnought"), Some(5));
    assert_eq!(plastic("cruiser"), Some(8));
    assert_eq!(plastic("destroyer"), Some(8));
    assert_eq!(plastic("mech"), Some(4));
    assert_eq!(plastic("pds"), Some(6));
    assert_eq!(plastic("spacedock"), Some(3));
}

#[test]
fn the_cap_counts_what_is_already_on_the_board() {
    let mut state = game(&["a"]);
    assert_eq!(allowed(&state, &catalogue(), &player(), "carrier", 6), 4, "four in the box");
    put(&mut state, "carrier", "a", 3);
    assert_eq!(allowed(&state, &catalogue(), &player(), "carrier", 6), 1, "three are already out");
    put(&mut state, "carrier", "a", 1);
    assert_eq!(allowed(&state, &catalogue(), &player(), "carrier", 6), 0, "and now the box is empty");
}

#[test]
fn a_carrier_over_a_planet_is_the_same_model_as_one_in_space() {
    let mut state = game(&["a"]);
    put(&mut state, "carrier", "a", 2);
    put_on_planet(&mut state, "carrier", "a", 2);
    assert_eq!(held(&state, &catalogue(), &player(), "carrier"), 4, "counted wherever they sit");
}

#[test]
fn an_upgrade_is_the_same_plastic() {
    let mut state = game(&["a"]);
    assert_eq!(base_type_of(&catalogue(), "sol_carrier2"), "carrier");
    put(&mut state, "sol_carrier2", "a", 4);
    assert_eq!(allowed(&state, &catalogue(), &player(), "carrier", 2), 0, "four upgraded carriers are four carriers");
}

#[test]
fn an_unlisted_unit_is_its_own_base_type() {
    assert_eq!(base_type_of(&catalogue(), "pds"), "pds");
}

#[test]
fn another_players_fleet_is_not_yours() {
    let mut state = game(&["a", "b"]);
    put(&mut state, "carrier", "b", 4);
    assert_eq!(allowed(&state, &catalogue(), &player(), "carrier", 4), 4, "the cap is per player");
}

#[test]
fn a_captured_unit_is_still_out_of_its_owners_supply() {
    let mut state = game(&["a", "b"]);
    state.players[1].captured_units = vec![(player(), "carrier".to_string()); 4];
    assert_eq!(allowed(&state, &catalogue(), &player(), "carrier", 4), 0, "held by somebody else, but still not in the box");
}
