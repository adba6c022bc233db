use ti4_engine::secrets::position::{Measure, PlanetCard, SystemCard, UnitTest, UnitType};
use ti4_engine::secrets::{
    award, draw, feat_for, held_count, meets, over_hand_limit, registered_aliases, requirement_for, return_choice,
    return_to_deck, scoreable, scoreable_event, scoreable_on, scored_count, timing, timing_of, unimplemented, Feat,
    hand_limit_step, HandLimitStep, Position, Requirement, SecretCard, Timing, HAND_LIMIT, RETURN_KIND,
};
use ti4_engine::choice::ChoiceOption;
use ti4_engine::state::{GameState, Seat, SystemState, Unit};
use ti4_engine::technology::TechRecord;
use ti4_engine::transactions::Galaxy;

/// The printed catalogues the checks read.
struct World {
    units: Vec<UnitType>,
    planets: Vec<PlanetCard>,
    systems: Vec<SystemCard>,
    techs: Vec<TechRecord>,
    cards: Vec<SecretCard>,
    production: Vec<(String, u32)>,
    laws: usize,
}

fn unit_type(id: &str, base: &str, ship: bool, ground: bool) -> UnitType {
    UnitType { id: id.to_string(), base_type: base.to_string(), ship, ground_force: ground }
}

fn planet(id: &str, traits: &[&str], resources: u32, influence: u32, legendary: bool, home: Option<&str>) -> PlanetCard {
    PlanetCard {
        id: id.to_string(),
        traits: traits.iter().map(|t| t.to_string()).collect(),
        resources,
        influence,
        legendary,
        homeworld_of: home.map(str::to_string),
    }
}

fn system_card(id: &str, name: &str, planets: &[&str], wormholes: &[&str], anomaly: bool) -> SystemCard {
    SystemCard {
        id: id.to_string(),
        name: name.to_string(),
        planets: planets.iter().map(|p| p.to_string()).collect(),
        wormholes: wormholes.iter().map(|w| w.to_string()).collect(),
        anomaly,
    }
}

fn tech(alias: &str, colour: &str, faction: Option<&str>) -> TechRecord {
    TechRecord {
        alias: alias.to_string(),
        types: vec![colour.to_string()],
        faction: faction.map(str::to_string),
        requirements: String::new(),
        text: String::new(),
    }
}

fn card(alias: &str, phase: &str, points: i64) -> SecretCard {
    SecretCard { alias: alias.to_string(), phase: Some(phase.to_string()), points: Some(points) }
}

fn world() -> World {
    let mut cards: Vec<SecretCard> = registered_aliases().into_iter().map(|a| card(a, "status", 1)).collect();
    for entry in cards.iter_mut() {
        let phase = match entry.alias.as_str() {
            "dp" | "dtd" => "agenda",
            "btv" | "bam" | "dtgs" | "mew" | "ttfd" | "fwp" | "sar" | "uf" | "baf" | "dts" | "dyp" | "pe" => "action",
            _ => "status",
        };
        entry.phase = Some(phase.to_string());
    }
    World {
        units: vec![
            unit_type("pds", "pds", false, false),
            unit_type("spacedock", "spacedock", false, false),
            unit_type("dreadnought", "dreadnought", true, false),
            unit_type("cruiser", "cruiser", true, false),
            unit_type("carrier", "carrier", true, false),
            unit_type("mech", "mech", false, true),
            unit_type("infantry", "infantry", false, true),
        ],
        planets: vec![
            planet("mr", &[], 1, 6, false, None),
            planet("lodor", &["cultural"], 3, 1, false, None),
            planet("quann", &["cultural"], 2, 1, false, None),
            planet("jol", &[], 1, 2, false, Some("jolnar")),
            planet("nar", &[], 2, 3, false, Some("jolnar")),
            planet("wellon", &["industrial"], 1, 2, false, None),
            planet("primor", &["cultural"], 2, 1, true, None),
            planet("mallice", &["cultural"], 0, 3, false, None),
            planet("arinam", &["industrial"], 1, 2, false, None),
            planet("meer", &["hazardous"], 0, 4, false, None),
            planet("bereg", &["hazardous"], 3, 1, false, None),
            planet("lirtaiv", &["hazardous"], 2, 2, false, None),
        ],
        systems: vec![
            system_card("18", "Mecatol Rex", &["mr"], &[], false),
            system_card("26", "Lodor", &["lodor"], &["ALPHA"], false),
            system_card("39", "", &[], &["ALPHA"], false),
            system_card("25", "Quann", &["quann"], &["BETA"], false),
            system_card("41", "Gravity Rift", &[], &[], true),
            system_card("82", "Wormhole Nexus", &["mallice"], &["ALPHA", "BETA", "GAMMA"], false),
            system_card("51", "Jol-Nar Home", &["jol", "nar"], &[], false),
            system_card("19", "Wellon", &["wellon"], &[], false),
            system_card("r1", "", &[], &[], false),
            system_card("r2", "", &[], &[], false),
            system_card("r3", "", &[], &[], false),
            system_card("r4", "", &[], &[], false),
        ],
        techs: vec![
            tech("nm", "BIOTIC", None),
            tech("pa", "BIOTIC", None),
            tech("dxa", "BIOTIC", None),
            tech("hm", "BIOTIC", None),
            tech("amd", "WARFARE", None),
            tech("sdn", "CYBERNETIC", None),
            tech("gd", "PROPULSION", None),
            tech("spec", "CYBERNETIC", Some("jolnar")),
            tech("eres", "BIOTIC", Some("jolnar")),
        ],
        cards,
        production: vec![],
        laws: 0,
    }
}

fn seat(id: &str) -> Seat {
    Seat {
        id: id.to_string(),
        faction: format!("faction_{id}"),
        tactic_tokens: 3,
        fleet_tokens: 3,
        strategic_tokens: 2,
        trade_goods: 0,
        commodities: 0,
        victory_points: 0,
        relic_fragments: vec![],
        action_cards: vec![],
        secret_objectives: vec![],
        notes: vec![],
        abilities: vec![],
        technologies: vec![],
        captured_units: vec![],
        breakthrough: None,
        strategy_cards: vec![],
        exhausted_strategy_cards: vec![],
        gravity_drive_used_activation: None,
        exhausted_technologies: vec![],
        passed: false,
        stability: false,
        exhausted_relics: vec![],
        home_system: None,
        home_planets: vec![],
        leaders: vec![],
    }
}

fn tile(id: &str) -> SystemState {
    SystemState { id: id.to_string(), units: vec![], planet_units: vec![], planet_control: vec![], command_tokens: vec![] }
}

fn game(players: &[&str]) -> GameState {
    GameState {
        players: players.iter().map(|p| seat(p)).collect(),
        board: ["18", "26", "39", "25", "19", "r1", "r2", "r3", "r4"].iter().map(|id| tile(id)).collect(),
        seating_order: players.iter().map(|p| p.to_string()).collect(),
        transactions_this_round: vec![],
        transacted_this_turn: vec![],
        black_market: false,
        active_system: None,
        pending: None,
        activation_seq: 0,
        exhausted_planets: vec![],
        phase: ti4_engine::state::Phase::Action,
        finished: false,
        objective_deck: vec![],
        revealed_objectives: vec![],
        speaker: String::new(),
        agenda_deck: vec![],
        expedition_slices: vec![],
        placed_planets: vec![],
        thunders_edge_system: None,
        action_card_deck: vec![],
    }
}

fn me() -> String {
    "a".to_string()
}

fn at<'a>(world: &'a World, state: &'a GameState, player: &'a str, galaxy: Option<&'a Galaxy>) -> Position<'a> {
    Position {
        state,
        player,
        units: &world.units,
        planets: &world.planets,
        systems: &world.systems,
        technologies: &world.techs,
        galaxy,
        laws_in_play: world.laws,
        production: &world.production,
    }
}

fn system<'a>(state: &'a mut GameState, id: &str) -> &'a mut SystemState {
    if !state.board.iter().any(|s| s.id == id) {
        state.board.push(tile(id));
    }
    state.board.iter_mut().find(|s| s.id == id).unwrap()
}

fn put(state: &mut GameState, id: &str, kind: &str, owner: &str, count: usize) {
    for _ in 0..count {
        system(state, id).units.push(Unit { type_id: kind.to_string(), owner: owner.to_string(), sustained_damage: false, galvanized: false });
    }
}

fn put_on_planet(state: &mut GameState, id: &str, planet: &str, kind: &str, owner: &str, count: usize) {
    let record = system(state, id);
    if !record.planet_units.iter().any(|(p, _)| p == planet) {
        record.planet_units.push((planet.to_string(), vec![]));
    }
    let units = &mut record.planet_units.iter_mut().find(|(p, _)| p == planet).unwrap().1;
    for _ in 0..count {
        units.push(Unit { type_id: kind.to_string(), owner: owner.to_string(), sustained_damage: false, galvanized: false });
    }
}

fn control(state: &mut GameState, id: &str, planet: &str, owner: &str) {
    let record = system(state, id);
    record.planet_control.retain(|(p, _)| p != planet);
    record.planet_control.push((planet.to_string(), owner.to_string()));
}

fn holding(state: &mut GameState, alias: &str) {
    state.players[0].secret_objectives = vec![alias.to_string()];
}

fn can_score(world: &World, state: &GameState, alias: &str) -> bool {
    scoreable(&at(world, state, "a", None), &world.cards, &vec![]).contains(&alias.to_string())
}

/// Adjacency both ways between a centre and each of a ring of systems.
fn hub(centre: &str, ring: &[&str]) -> Galaxy {
    let mut adjacency = vec![];
    for outer in ring {
        adjacency.push((centre.to_string(), outer.to_string()));
        adjacency.push((outer.to_string(), centre.to_string()));
    }
    Galaxy { adjacency }
}

#[test]
fn a_hand_over_three_returns_one_to_the_deck() {
    assert_eq!(HAND_LIMIT, 3);
    assert!(over_hand_limit(4, 0));
    assert!(!over_hand_limit(3, 0));
    let hand = vec!["sb".to_string(), "te".to_string(), "pe".to_string(), "uf".to_string()];
    let choice = return_choice("a", &hand).unwrap();
    assert_eq!(choice.player, "a");
    let ids: Vec<&str> = choice.options.iter().map(|o| o.id.as_str()).collect();
    assert_eq!(ids, vec!["sb", "te", "pe", "uf"]);
    assert!(choice.options.iter().all(|o| o.kind == RETURN_KIND));
    assert_eq!(choice.options[0].label, "return sb");
}

#[test]
fn a_scored_secret_counts_towards_the_limit_but_cannot_be_returned() {
    assert!(over_hand_limit(2, 2));
    let hand = vec!["sb".to_string(), "te".to_string()];
    let choice = return_choice("a", &hand).unwrap();
    assert_eq!(choice.options.len(), 2, "only the unscored ones are offered");
}

#[test]
fn a_player_whose_every_secret_is_scored_has_nothing_to_return() {
    assert!(over_hand_limit(0, 4));
    assert!(return_choice("a", &vec![]).is_none());
}

#[test]
fn only_status_secrets_are_offered_at_status_time() {
    assert_eq!(timing(Some("action")), Timing::Action);
    assert_eq!(timing(Some("AGENDA")), Timing::Agenda);
    assert_eq!(timing(Some("status")), Timing::Status);
    assert_eq!(timing(None), Timing::Status);
    assert_eq!(timing(Some("actions")), Timing::Status);
}

#[test]
fn every_feat_secret_is_a_registered_alias() {
    let aliases = registered_aliases();
    assert_eq!(aliases.len(), 40);
    for alias in ["dtgs", "mew", "ttfd", "fwp", "sar", "uf", "baf", "btv", "dts", "dyp", "dtd", "pe", "bam"] {
        assert!(feat_for(alias).is_some(), "{alias} asks for a feat");
        assert!(aliases.contains(&alias), "{alias} is registered");
    }
    assert_eq!(feat_for("pe"), Some(Feat::LastToPass));
    assert_eq!(feat_for("bam"), Some(Feat::LostAHomePlanet));
    assert_eq!(feat_for("sb"), None, "a position secret asks for no feat");
}

#[test]
fn an_empty_deck_draws_nothing() {
    let mut state = game(&["a"]);
    let mut deck: Vec<String> = vec![];
    assert_eq!(draw(&mut state, &mut deck, "a"), None);
    assert!(state.players[0].secret_objectives.is_empty());
}

#[test]
fn drawing_takes_the_top_card_and_returning_puts_it_at_the_bottom() {
    let mut state = game(&["a"]);
    let mut deck: Vec<String> = vec!["s0".to_string(), "s1".to_string()];
    assert_eq!(draw(&mut state, &mut deck, "a"), Some("s0".to_string()));
    assert_eq!(deck, vec!["s1".to_string()]);
    assert_eq!(state.players[0].secret_objectives, vec!["s0".to_string()]);
    return_to_deck(&mut state, &mut deck, "a", "s0");
    assert!(state.players[0].secret_objectives.is_empty());
    assert_eq!(deck, vec!["s1".to_string(), "s0".to_string()]);
}

#[test]
fn scored_secrets_count_with_the_hand() {
    let world = world();
    let mut state = game(&["a"]);
    state.players[0].secret_objectives = vec!["sb".to_string()];
    let scored = vec!["eap".to_string(), "fwm".to_string(), "a_public_objective".to_string()];
    assert_eq!(scored_count(&scored, &world.cards), 2, "both are real secrets");
    assert_eq!(held_count(&state, &scored, &world.cards, "a"), 3);
    assert!(!over_hand_limit(1, 2));
}

#[test]
fn an_unregistered_secret_is_never_scoreable() {
    let world = world();
    let mut state = game(&["a"]);
    assert!(requirement_for("dtd").is_none());
    holding(&mut state, "dtd");
    assert!(scoreable(&at(&world, &state, "a", None), &world.cards, &vec![]).is_empty());
}

#[test]
fn four_pds_satisfies_its_secret() {
    let world = world();
    let mut state = game(&["a"]);
    holding(&mut state, "eap");
    assert!(scoreable(&at(&world, &state, "a", None), &world.cards, &vec![]).is_empty());
    put_on_planet(&mut state, "26", "lodor", "pds", "a", 4);
    assert_eq!(scoreable(&at(&world, &state, "a", None), &world.cards, &vec![]), vec!["eap".to_string()]);
}

#[test]
fn another_players_units_do_not_count() {
    let world = world();
    let mut state = game(&["a", "b"]);
    holding(&mut state, "eap");
    put_on_planet(&mut state, "26", "lodor", "pds", "b", 6);
    assert!(scoreable(&at(&world, &state, "a", None), &world.cards, &vec![]).is_empty());
}

#[test]
fn the_map_shaped_secrets_are_unmet_without_a_map() {
    let world = world();
    let state = game(&["a", "b"]);
    let blind = at(&world, &state, "a", None);
    assert!(!meets(Requirement::ShipsBesideThreeAnomalies, &blind));
    assert!(!meets(Requirement::ShipsBesideARivalHome, &blind));
    assert!(!meets(Requirement::NeighboursWithEveryone, &blind));
}

#[test]
fn learning_the_secrets_counts_systems_not_anomalies() {
    let world = world();
    let galaxy = hub("41", &["r1", "r2", "r3", "r4"]);
    let mut state = game(&["a"]);
    put(&mut state, "r1", "cruiser", "a", 3);
    put(&mut state, "r2", "cruiser", "a", 3);
    assert!(
        !meets(Requirement::ShipsBesideThreeAnomalies, &at(&world, &state, "a", Some(&galaxy))),
        "two systems beside an anomaly are two, however many ships are in them"
    );
    put(&mut state, "r3", "cruiser", "a", 1);
    assert!(meets(Requirement::ShipsBesideThreeAnomalies, &at(&world, &state, "a", Some(&galaxy))));
}

#[test]
fn threatening_enemies_needs_a_rivals_home_not_your_own() {
    let world = world();
    let galaxy = hub("51", &["r1", "r2", "r3", "r4"]);
    let mut state = game(&["a"]);
    put(&mut state, "r1", "cruiser", "a", 1);
    assert!(meets(Requirement::ShipsBesideARivalHome, &at(&world, &state, "a", Some(&galaxy))), "a ship next to somebody else's home");
    state.players[0].faction = "jolnar".to_string();
    assert!(
        !meets(Requirement::ShipsBesideARivalHome, &at(&world, &state, "a", Some(&galaxy))),
        "your own home is not an enemy to threaten"
    );
}

#[test]
fn fostering_cohesion_needs_every_other_player() {
    let world = world();
    let galaxy = hub("19", &["r1", "r2", "r3", "r4"]);
    let mut state = game(&["a", "b", "c"]);
    put(&mut state, "19", "cruiser", "a", 1);
    put(&mut state, "19", "cruiser", "b", 1);
    assert!(!meets(Requirement::NeighboursWithEveryone, &at(&world, &state, "a", Some(&galaxy))), "c is not a neighbour");
    put(&mut state, "19", "cruiser", "c", 1);
    assert!(meets(Requirement::NeighboursWithEveryone, &at(&world, &state, "a", Some(&galaxy))));
    let alone = game(&["a"]);
    assert!(!meets(Requirement::NeighboursWithEveryone, &at(&world, &alone, "a", Some(&galaxy))), "a table of one is not cohesion");
}

#[test]
fn defying_space_and_time_needs_the_nexus_itself() {
    let world = world();
    let mut state = game(&["a", "b"]);
    holding(&mut state, "dfat");
    put(&mut state, "26", "cruiser", "a", 1);
    assert!(!can_score(&world, &state, "dfat"), "units elsewhere are not the nexus");
    put(&mut state, "82", "cruiser", "b", 1);
    assert!(!can_score(&world, &state, "dfat"), "another player's fleet in the nexus is not yours");
    put_on_planet(&mut state, "82", "mallice", "infantry", "a", 1);
    assert!(can_score(&world, &state, "dfat"), "ground forces on Mallice are units in the nexus");
}

#[test]
fn destroying_heretical_works_purges_the_fragments_it_needs() {
    let world = world();
    let mut state = game(&["a"]);
    holding(&mut state, "dhw");
    state.players[0].relic_fragments = vec!["INDUSTRIAL".to_string()];
    assert!(!can_score(&world, &state, "dhw"), "one fragment is not two");
    state.players[0].relic_fragments.push("CULTURAL".to_string());
    state.players[0].relic_fragments.push("HAZARDOUS".to_string());
    assert!(can_score(&world, &state, "dhw"), "two of any type");
    let mut scored = vec![];
    let points = award(&mut state, &world.cards, &mut scored, "a", "dhw", 10);
    assert_eq!(points, Some(1));
    assert_eq!(state.players[0].relic_fragments, vec!["INDUSTRIAL".to_string()], "the two that sort first were purged");
}

#[test]
fn a_secret_whose_price_cannot_be_met_is_not_scored() {
    let world = world();
    let mut state = game(&["a"]);
    holding(&mut state, "fsn");
    state.players[0].action_cards = (0..4).map(|n| format!("card{n}")).collect();
    let before = state.clone();
    let mut scored = vec![];
    assert_eq!(award(&mut state, &world.cards, &mut scored, "a", "fsn", 10), None);
    assert_eq!(state, before, "nothing was taken and the card stays in hand");
    assert!(scored.is_empty());
}

#[test]
fn forming_a_spy_network_discards_five_cards_and_no_more() {
    let world = world();
    let mut state = game(&["a"]);
    holding(&mut state, "fsn");
    state.players[0].action_cards = (0..7).map(|n| format!("card{n}")).collect();
    assert!(can_score(&world, &state, "fsn"));
    let mut scored = vec![];
    award(&mut state, &world.cards, &mut scored, "a", "fsn", 10);
    assert_eq!(state.players[0].action_cards, vec!["card5".to_string(), "card6".to_string()], "five discarded, the rest kept");
}

#[test]
fn strengthening_bonds_needs_somebody_elses_note() {
    let world = world();
    let mut state = game(&["a", "b"]);
    holding(&mut state, "sb");
    assert!(!can_score(&world, &state, "sb"));
    state.players[0].notes.push("sftt:faction_a".to_string());
    assert!(!can_score(&world, &state, "sb"), "your own note is not another's");
    state.players[0].notes.push("sftt:faction_b".to_string());
    assert!(can_score(&world, &state, "sb"));
}

#[test]
fn cutting_supply_lines_needs_a_rival_dock_not_your_own() {
    let world = world();
    let mut state = game(&["a", "b"]);
    holding(&mut state, "csl");
    put(&mut state, "26", "cruiser", "a", 1);
    put_on_planet(&mut state, "26", "lodor", "spacedock", "a", 1);
    assert!(!can_score(&world, &state, "csl"), "your own dock is not supply lines");
    put_on_planet(&mut state, "26", "lodor", "spacedock", "b", 1);
    assert!(can_score(&world, &state, "csl"));
}

#[test]
fn the_gatekeeper_needs_both_wormhole_kinds() {
    let world = world();
    let mut state = game(&["a"]);
    holding(&mut state, "btgk");
    put(&mut state, "26", "cruiser", "a", 1);
    put(&mut state, "39", "cruiser", "a", 1);
    assert!(!can_score(&world, &state, "btgk"), "two alphas are still one kind");
    put(&mut state, "25", "cruiser", "a", 1);
    assert!(can_score(&world, &state, "btgk"));
}

#[test]
fn adapting_new_strategies_counts_faction_technologies_only() {
    let world = world();
    let mut state = game(&["a"]);
    holding(&mut state, "ans");
    state.players[0].technologies = vec!["nm".to_string(), "amd".to_string()];
    assert!(!can_score(&world, &state, "ans"), "two ordinary technologies are not two faction technologies");
    state.players[0].technologies.push("spec".to_string());
    state.players[0].technologies.push("eres".to_string());
    assert!(can_score(&world, &state, "ans"));
}

#[test]
fn dictating_policy_reads_the_table_not_the_player() {
    let mut world = world();
    let state = game(&["a"]);
    let check = requirement_for("dp").expect("registered");
    assert!(!meets(check, &at(&world, &state, "a", None)));
    world.laws = 3;
    assert!(meets(check, &at(&world, &state, "a", None)));
    assert_eq!(timing_of(&world.cards, "dp"), Timing::Agenda, "it is scored in the agenda phase");
}

#[test]
fn staking_a_claim_needs_a_rival_in_the_same_system() {
    let world = world();
    let mut state = game(&["a", "b"]);
    holding(&mut state, "syc");
    control(&mut state, "51", "jol", "a");
    assert!(!can_score(&world, &state, "syc"), "a system of your own is not a claim");
    control(&mut state, "51", "nar", "b");
    assert!(can_score(&world, &state, "syc"));
}

#[test]
fn producing_en_masse_counts_one_system_not_the_board() {
    let mut world = world();
    let mut state = game(&["a", "b"]);
    holding(&mut state, "pem");
    world.production = vec![("26".to_string(), 7), ("25".to_string(), 4)];
    assert!(!can_score(&world, &state, "pem"), "production spread over two systems is not production in one");
    world.production[0].1 = 8;
    assert!(can_score(&world, &state, "pem"));
    world.production = vec![("not_on_the_board".to_string(), 12)];
    state.players[0].secret_objectives = vec!["pem".to_string()];
    assert!(!can_score(&world, &state, "pem"), "only systems on the board count");
}

#[test]
fn four_mechs_on_one_planet_is_not_four_planets() {
    let world = world();
    let mut state = game(&["a"]);
    holding(&mut state, "mtm");
    put_on_planet(&mut state, "26", "lodor", "mech", "a", 4);
    assert!(scoreable(&at(&world, &state, "a", None), &world.cards, &vec![]).is_empty(), "four mechs, one planet");
    put_on_planet(&mut state, "25", "quann", "mech", "a", 1);
    put_on_planet(&mut state, "19", "wellon", "mech", "a", 1);
    put_on_planet(&mut state, "51", "jol", "mech", "a", 1);
    assert_eq!(scoreable(&at(&world, &state, "a", None), &world.cards, &vec![]), vec!["mtm".to_string()]);
}

#[test]
fn holding_mecatol_needs_the_planet_and_the_ships() {
    let world = world();
    let mut state = game(&["a"]);
    holding(&mut state, "ose");
    put(&mut state, "18", "cruiser", "a", 3);
    assert!(scoreable(&at(&world, &state, "a", None), &world.cards, &vec![]).is_empty(), "ships alone are not control");
    control(&mut state, "18", "mr", "a");
    assert_eq!(
        scoreable(&at(&world, &state, "a", None), &world.cards, &vec![]),
        vec!["ose".to_string()],
        "control plus three ships scores it"
    );
}

#[test]
fn four_technologies_of_one_colour_is_not_four_technologies() {
    let world = world();
    let mut state = game(&["a"]);
    holding(&mut state, "mlp");
    state.players[0].technologies = vec!["nm".to_string(), "amd".to_string(), "sdn".to_string(), "gd".to_string()];
    assert!(scoreable(&at(&world, &state, "a", None), &world.cards, &vec![]).is_empty(), "one of each colour is not four of one");
    state.players[0].technologies = vec!["nm".to_string(), "pa".to_string(), "dxa".to_string(), "hm".to_string()];
    assert_eq!(scoreable(&at(&world, &state, "a", None), &world.cards, &vec![]), vec!["mlp".to_string()]);
}

#[test]
fn a_combined_value_secret_adds_up_controlled_planets() {
    let world = world();
    let mut state = game(&["a"]);
    holding(&mut state, "hrm");
    control(&mut state, "26", "lodor", "a");
    control(&mut state, "25", "quann", "a");
    control(&mut state, "51", "nar", "a");
    control(&mut state, "19", "bereg", "a");
    assert!(!can_score(&world, &state, "hrm"), "ten resources");
    control(&mut state, "19", "lirtaiv", "a");
    assert_eq!(
        scoreable(&at(&world, &state, "a", None), &world.cards, &vec![]),
        vec!["hrm".to_string()],
        "twelve combined resources scores it"
    );
}

#[test]
fn scoring_takes_it_out_of_the_hand_and_pays_points() {
    let world = world();
    let mut state = game(&["a"]);
    holding(&mut state, "eap");
    let mut scored = vec![];
    let points = award(&mut state, &world.cards, &mut scored, "a", "eap", 10).unwrap();
    assert!(points > 0);
    assert!(state.players[0].secret_objectives.is_empty(), "it left the hand");
    assert_eq!(state.players[0].victory_points, points);
    assert_eq!(scored, vec!["eap".to_string()]);
}

#[test]
fn points_stop_at_the_victory_target() {
    let mut world = world();
    world.cards.push(SecretCard { alias: "big".to_string(), phase: None, points: Some(3) });
    let mut state = game(&["a"]);
    holding(&mut state, "big");
    state.players[0].victory_points = 9;
    let mut scored = vec![];
    assert_eq!(award(&mut state, &world.cards, &mut scored, "a", "big", 10), Some(3));
    assert_eq!(state.players[0].victory_points, 10);
}

#[test]
fn a_secret_not_in_hand_cannot_be_scored() {
    let world = world();
    let mut state = game(&["a"]);
    let mut scored = vec![];
    assert_eq!(award(&mut state, &world.cards, &mut scored, "a", "eap", 10), None);
}

#[test]
fn every_registered_alias_is_a_real_secret() {
    let world = world();
    for alias in registered_aliases() {
        assert!(world.cards.iter().any(|c| c.alias == alias), "{alias} is not a secret the catalogue knows");
        assert!(requirement_for(alias).is_some() || feat_for(alias).is_some(), "{alias} is registered but nothing decides it");
    }
}

#[test]
fn every_secret_in_the_corpus_is_decidable() {
    let world = world();
    let missing = unimplemented(&world.cards);
    assert!(missing.is_empty(), "these secrets can never be scored: {missing:?}");
    let mut extra = world.cards.clone();
    extra.push(SecretCard { alias: "newcard".to_string(), phase: None, points: None });
    assert_eq!(unimplemented(&extra), vec!["newcard".to_string()]);
}

#[test]
fn an_action_secret_is_offered_only_to_the_seat_whose_feat_it_was() {
    let world = world();
    let mut state = game(&["a", "b"]);
    for seat in &mut state.players {
        seat.secret_objectives = vec!["btv".to_string()];
    }
    let none: Vec<Feat> = vec![];
    assert!(scoreable_event(&at(&world, &state, "a", None), &world.cards, &vec![], Timing::Action, &none).is_empty(), "nobody has won anything yet");
    let won = vec![Feat::WonInAnAnomaly];
    assert_eq!(
        scoreable_event(&at(&world, &state, "a", None), &world.cards, &vec![], Timing::Action, &won),
        vec!["btv".to_string()],
        "the seat that won the fight may score it"
    );
    assert!(
        scoreable_event(&at(&world, &state, "b", None), &world.cards, &vec![], Timing::Action, &none).is_empty(),
        "the other seat holds the same card and did not win the fight"
    );
}

#[test]
fn an_occurrence_scopes_a_feat_to_that_event_and_its_owner() {
    let world = world();
    let mut state = game(&["a", "b"]);
    state.players[0].secret_objectives = vec!["btv".to_string()];
    state.players[1].secret_objectives = vec!["btv".to_string()];
    let at_combat = vec![Feat::WonInAnAnomaly];
    let later: Vec<Feat> = vec![];
    assert_eq!(
        scoreable_event(&at(&world, &state, "a", None), &world.cards, &vec![], Timing::Action, &at_combat),
        vec!["btv".to_string()]
    );
    assert!(scoreable_event(&at(&world, &state, "b", None), &world.cards, &vec![], Timing::Action, &later).is_empty());
    assert!(scoreable_event(&at(&world, &state, "a", None), &world.cards, &vec![], Timing::Action, &later).is_empty());
}

#[test]
fn become_a_martyr_is_offered_only_for_the_home_loss_occurrence() {
    let world = world();
    let mut state = game(&["a", "b"]);
    state.players[0].secret_objectives = vec!["bam".to_string()];
    control(&mut state, "51", "jol", "b");
    assert_eq!(feat_for("bam"), Some(Feat::LostAHomePlanet));
    assert!(requirement_for("bam").is_none());
    let loss = vec![Feat::LostAHomePlanet];
    let later: Vec<Feat> = vec![];
    assert_eq!(
        scoreable_event(&at(&world, &state, "a", None), &world.cards, &vec![], Timing::Action, &loss),
        vec!["bam".to_string()]
    );
    assert!(scoreable_event(&at(&world, &state, "a", None), &world.cards, &vec![], Timing::Action, &later).is_empty());
}

#[test]
fn a_status_secret_is_never_offered_in_an_event_window() {
    let world = world();
    let mut state = game(&["a"]);
    holding(&mut state, "eap");
    put_on_planet(&mut state, "26", "lodor", "pds", "a", 4);
    for when in [Timing::Action, Timing::Agenda, Timing::Status] {
        assert!(scoreable_event(&at(&world, &state, "a", None), &world.cards, &vec![], when, &vec![]).is_empty());
    }
}

#[test]
fn dictate_policy_needs_three_laws_and_the_agenda_window() {
    let mut world = world();
    let mut state = game(&["a"]);
    holding(&mut state, "dp");
    assert!(scoreable_event(&at(&world, &state, "a", None), &world.cards, &vec![], Timing::Agenda, &vec![]).is_empty(), "no laws are in play");
    world.laws = 3;
    assert_eq!(
        scoreable_event(&at(&world, &state, "a", None), &world.cards, &vec![], Timing::Agenda, &vec![]),
        vec!["dp".to_string()]
    );
    assert!(scoreable_on(&at(&world, &state, "a", None), &world.cards, &vec![]).is_empty(), "and the status window still must not offer it");
    state.players[0].secret_objectives.push("eap".to_string());
    assert!(scoreable_event(&at(&world, &state, "a", None), &world.cards, &vec!["dp".to_string()], Timing::Agenda, &vec![]).is_empty(), "a scored secret is not offered again");
}

#[test]
fn every_requirement_kind_reads_its_own_count() {
    assert_eq!(requirement_for("eap"), Some(Requirement::Units(UnitTest::Base(0), 4)));
    assert_eq!(requirement_for("fwm"), Some(Requirement::Units(UnitTest::Base(1), 3)), "three docks, as printed");
    assert_eq!(requirement_for("eh"), Some(Requirement::Planets(Measure::Influence, 12)));
    assert_eq!(requirement_for("sai"), Some(Requirement::Planets(Measure::Legendary, 1)));
    assert_eq!(requirement_for("nope"), None);
}

#[test]
fn ground_forces_must_stand_on_one_planet() {
    let world = world();
    let mut state = game(&["a"]);
    put_on_planet(&mut state, "26", "lodor", "infantry", "a", 5);
    put_on_planet(&mut state, "25", "quann", "infantry", "a", 5);
    assert!(!meets(Requirement::GroundForcesOnOnePlanet(9), &at(&world, &state, "a", None)));
    put_on_planet(&mut state, "26", "lodor", "mech", "a", 4);
    assert!(meets(Requirement::GroundForcesOnOnePlanet(9), &at(&world, &state, "a", None)));
}

#[test]
fn ships_in_six_systems_counts_systems() {
    let world = world();
    let mut state = game(&["a"]);
    for id in ["18", "26", "39", "25", "19"] {
        put(&mut state, id, "cruiser", "a", 2);
    }
    put_on_planet(&mut state, "r1", "x", "infantry", "a", 1);
    assert!(!meets(Requirement::ShipsInSystems(6), &at(&world, &state, "a", None)), "infantry is not a ship");
    put(&mut state, "r1", "carrier", "a", 1);
    assert!(meets(Requirement::ShipsInSystems(6), &at(&world, &state, "a", None)));
}

#[test]
fn a_legendary_planet_and_traits_are_read_from_the_cards() {
    let world = world();
    let mut state = game(&["a"]);
    assert!(!meets(Requirement::Planets(Measure::Legendary, 1), &at(&world, &state, "a", None)));
    control(&mut state, "r2", "primor", "a");
    assert!(meets(Requirement::Planets(Measure::Legendary, 1), &at(&world, &state, "a", None)));
    control(&mut state, "26", "lodor", "a");
    control(&mut state, "25", "quann", "a");
    assert!(!meets(Requirement::Planets(Measure::Trait(0), 4), &at(&world, &state, "a", None)), "three cultural");
    control(&mut state, "82", "mallice", "a");
    assert!(meets(Requirement::Planets(Measure::Trait(0), 4), &at(&world, &state, "a", None)));
    control(&mut state, "82", "mallice", "b");
    assert!(!meets(Requirement::Planets(Measure::Trait(0), 4), &at(&world, &state, "a", None)), "a planet someone else controls is theirs");
}

#[test]
fn a_hand_over_the_limit_gives_back_what_the_player_names() {
    let mut state = game(&["a"]);
    state.players[0].secret_objectives = vec!["x".to_string(), "y".to_string(), "z".to_string(), "w".to_string()];
    let mut deck: Vec<String> = vec!["top".to_string()];
    let cards: Vec<SecretCard> = vec![];
    let asked = hand_limit_step(&mut state, &mut deck, &vec![], &cards, "a", None).unwrap();
    let choice = match asked {
        HandLimitStep::Ask(c) => c,
        _ => panic!("four secrets is over the limit, so the player is asked"),
    };
    assert_eq!(choice.options.len(), 4);
    let before = state.clone();
    assert!(hand_limit_step(&mut state, &mut deck, &vec![], &cards, "a", Some(ChoiceOption::labelled("nope", RETURN_KIND, "x"))).is_err());
    assert_eq!(state, before);
    match hand_limit_step(&mut state, &mut deck, &vec![], &cards, "a", Some(choice.options[2].clone())).unwrap() {
        HandLimitStep::Returned(s) => assert_eq!(s, "z"),
        _ => panic!("the named secret goes back"),
    }
    assert_eq!(deck, vec!["top".to_string(), "z".to_string()]);
    assert_eq!(state.players[0].secret_objectives.len(), 3);
    assert!(matches!(hand_limit_step(&mut state, &mut deck, &vec![], &cards, "a", None).unwrap(), HandLimitStep::Within));
}

#[test]
fn a_lone_unscored_secret_over_the_limit_goes_back_without_asking() {
    let mut state = game(&["a"]);
    state.players[0].secret_objectives = vec!["x".to_string()];
    let cards = vec![card("s1", "status", 1), card("s2", "status", 1), card("s3", "status", 1)];
    let scored = vec!["s1".to_string(), "s2".to_string(), "s3".to_string()];
    let mut deck: Vec<String> = vec![];
    match hand_limit_step(&mut state, &mut deck, &scored, &cards, "a", None).unwrap() {
        HandLimitStep::Returned(s) => assert_eq!(s, "x"),
        _ => panic!("one secret over the limit goes back without asking"),
    }
    assert!(state.players[0].secret_objectives.is_empty());
    assert!(matches!(hand_limit_step(&mut state, &mut deck, &scored, &cards, "a", None).unwrap(), HandLimitStep::Within), "every one scored: nothing to give back");
}
