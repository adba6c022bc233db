use ti4_engine::state::{GameState, Seat, SystemState};
use ti4_engine::synergy::Breakthrough;
use ti4_engine::technology::{
    can_research, colour_of, colour_type, faction_of, grant, is_unit_upgrade, owned_colours, prerequisites, research,
    researchable, specialties, PlanetRecord, TechRecord, COLOURS,
};

fn tech(alias: &str, types: &[&str], requirements: &str) -> TechRecord {
    TechRecord {
        alias: alias.to_string(),
        types: types.iter().map(|t| t.to_string()).collect(),
        faction: None,
        requirements: requirements.to_string(),
        text: String::new(),
    }
}

/// A small catalogue shaped like the corpus: colours, a unit upgrade, a faction technology, a
/// card that forbids its own research, and three printings of one technology.
fn catalogue() -> Vec<TechRecord> {
    let mut faction = tech("spec", &["CYBERNETIC"], "");
    faction.faction = Some("jolnar".to_string());
    let mut forbidden = tech("vax", &["BIOTIC"], "");
    forbidden.text = "This technology Cannot Be Researched.".to_string();
    let mut blank_faction = tech("sdn", &["CYBERNETIC"], "");
    blank_faction.faction = Some(String::new());
    vec![
        tech("nm", &["BIOTIC"], ""),
        tech("pa", &["BIOTIC"], "null"),
        tech("td", &["PROPULSION"], "YY"),
        tech("ws", &["UNITUPGRADE"], "RRRY"),
        tech("gd", &["PROPULSION"], "B"),
        tech("amd", &["WARFARE"], ""),
        tech("ps", &["WARFARE"], "R"),
        tech("dxa", &["WARFARE"], "None"),
        blank_faction,
        tech("md_base", &["PROPULSION"], ""),
        tech("md", &["PROPULSION"], ""),
        tech("md_c1", &["PROPULSION"], ""),
        faction,
        forbidden,
    ]
}

/// The current deck: one printing of each technology.
fn active() -> Vec<String> {
    ["nm", "pa", "td", "ws", "gd", "amd", "ps", "dxa", "sdn", "md", "spec", "vax"].iter().map(|a| a.to_string()).collect()
}

fn planets() -> Vec<PlanetRecord> {
    vec![
        PlanetRecord { id: "mehar".to_string(), specialties: vec!["propulsion".to_string()] },
        PlanetRecord { id: "plain".to_string(), specialties: vec![] },
    ]
}

fn breakthroughs() -> Vec<Breakthrough> {
    vec![Breakthrough { alias: "jolnarbt".to_string(), synergy: vec!["biotic".to_string(), "cybernetic".to_string()] }]
}

fn player() -> String {
    "a".to_string()
}

fn game() -> GameState {
    GameState {
        players: vec![Seat {
            id: player(),
            faction: "generic".to_string(),
            tactic_tokens: 3,
            fleet_tokens: 3,
            strategic_tokens: 2,
            trade_goods: 0,
            commodities: 0,
            victory_points: 0,
            relic_fragments: vec![],
            action_cards: vec![],
            secret_objectives: vec![],
            notes: vec![],
            abilities: vec![],
            technologies: vec![],
            captured_units: vec![],
            breakthrough: None,
            strategy_cards: vec![],
            exhausted_strategy_cards: vec![],
            gravity_drive_used_activation: None,
            exhausted_technologies: vec![],
            passed: false,
            stability: false,
            exhausted_relics: vec![],
            home_system: None,
            home_planets: vec![],
            leaders: vec![],
        }],
        board: vec![SystemState {
            id: "18".to_string(),
            units: vec![],
            planet_units: vec![],
            planet_control: vec![],
            command_tokens: vec![],
        }],
        seating_order: vec![player()],
        transactions_this_round: vec![],
        transacted_this_turn: vec![],
        black_market: false,
        active_system: None,
        pending: None,
        activation_seq: 0,
        exhausted_planets: vec![],
        phase: ti4_engine::state::Phase::Action,
        finished: false,
        objective_deck: vec![],
        revealed_objectives: vec![],
        speaker: String::new(),
        agenda_deck: vec![],
        expedition_slices: vec![],
        placed_planets: vec![],
        thunders_edge_system: None,
        action_card_deck: vec![],
    }
}

fn give(state: &mut GameState, aliases: &[&str]) {
    for alias in aliases {
        grant(state, &player(), alias);
    }
}

fn may(state: &GameState, alias: &str) -> bool {
    can_research(state, &catalogue(), &planets(), &breakthroughs(), &player(), alias, 0)
}

fn open(state: &GameState) -> Vec<String> {
    researchable(state, &catalogue(), &active(), &planets(), &breakthroughs(), &player(), &vec![])
}

#[test]
fn every_requirement_letter_names_a_track() {
    for (letter, colour) in [('G', "BIOTIC"), ('Y', "CYBERNETIC"), ('B', "PROPULSION"), ('R', "WARFARE")] {
        assert_eq!(colour_of(letter), Some(colour));
        assert_eq!(colour_of(letter.to_ascii_lowercase()), Some(colour), "either case");
        assert!(COLOURS.contains(&colour));
    }
    assert_eq!(colour_of('X'), None);
    assert_eq!(colour_of(' '), None);
}

#[test]
fn prerequisites_are_read_off_the_requirement_string() {
    assert_eq!(
        prerequisites("RRRY"),
        vec![("CYBERNETIC".to_string(), 1), ("WARFARE".to_string(), 3)]
    );
    assert_eq!(prerequisites("gb"), vec![("BIOTIC".to_string(), 1), ("PROPULSION".to_string(), 1)]);
}

#[test]
fn no_prerequisites_is_spelled_several_ways() {
    assert!(prerequisites("").is_empty());
    assert!(prerequisites("null").is_empty());
    assert!(prerequisites("None").is_empty());
    assert!(prerequisites("  ").is_empty());
}

#[test]
fn a_synergy_lets_one_colour_pay_for_the_other() {
    let mut state = game();
    state.players[0].faction = "jolnar".to_string();
    give(&mut state, &["nm", "pa"]);
    assert!(!may(&state, "td"), "without the breakthrough, biotic cannot pay a cybernetic prerequisite");
    state.players[0].breakthrough = Some("jolnarbt".to_string());
    assert!(may(&state, "td"), "the breakthrough joins biotic and cybernetic (synergy rule 2)");
}

#[test]
fn a_unit_upgrade_has_no_colour() {
    assert!(is_unit_upgrade(&catalogue(), "ws"));
    assert_eq!(colour_type(&catalogue(), "ws"), None);
    assert!(!is_unit_upgrade(&catalogue(), "gd"));
    assert_eq!(colour_type(&catalogue(), "gd"), Some("PROPULSION"));
    assert_eq!(colour_type(&catalogue(), "nowhere"), None);
}

#[test]
fn a_technology_with_unmet_prerequisites_cannot_be_researched() {
    assert!(!may(&game(), "ws"));
}

#[test]
fn owning_the_prerequisites_unlocks_it() {
    let mut state = game();
    give(&mut state, &["amd", "ps", "dxa", "sdn"]);
    assert!(may(&state, "ws"), "three warfare and one cybernetic");
}

#[test]
fn a_technology_already_owned_is_not_researchable_again() {
    let mut state = game();
    give(&mut state, &["gd"]);
    assert!(!may(&state, "gd"));
}

#[test]
fn researchable_uses_the_authoritative_current_printings() {
    let offered = open(&game());
    assert!(offered.contains(&"md".to_string()));
    assert!(!offered.contains(&"md_base".to_string()));
    assert!(!offered.contains(&"md_c1".to_string()));
}

#[test]
fn a_faction_technology_belongs_to_its_faction_alone() {
    let mut state = game();
    assert_eq!(faction_of(&catalogue(), "spec"), Some("jolnar".to_string()));
    assert!(!may(&state, "spec"));
    state.players[0].faction = "jolnar".to_string();
    assert!(may(&state, "spec"));
}

#[test]
fn a_planet_specialty_stands_in_for_a_prerequisite() {
    let mut state = game();
    assert!(!may(&state, "gd"));
    state.board[0].planet_control.push(("mehar".to_string(), player()));
    assert!(may(&state, "gd"), "the specialty covers the prerequisite");
}

#[test]
fn researching_grants_it_and_gaining_does_not_need_prerequisites() {
    let mut state = game();
    assert!(!research(&mut state, &catalogue(), &planets(), &breakthroughs(), &player(), "ws", 0));
    assert!(!state.players[0].technologies.contains(&"ws".to_string()));
    grant(&mut state, &player(), "ws");
    assert!(state.players[0].technologies.contains(&"ws".to_string()));
}

#[test]
fn researchable_lists_only_what_is_reachable() {
    let state = game();
    let offered = open(&state);
    assert!(!offered.is_empty(), "some technologies need nothing");
    assert!(!offered.contains(&"ws".to_string()), "a war sun needs four prerequisites");
    for alias in &offered {
        let record = catalogue().into_iter().find(|r| &r.alias == alias).unwrap();
        assert!(prerequisites(&record.requirements).is_empty());
    }
}

#[test]
fn researchable_offers_options_in_canonical_sorted_order() {
    let offered = open(&game());
    assert!(offered.len() >= 2, "several technologies need nothing");
    let mut sorted = offered.clone();
    sorted.sort();
    assert_eq!(offered, sorted, "research options must be in canonical (sorted) order");
    assert_eq!(offered, vec!["amd", "dxa", "md", "nm", "pa", "sdn"]);
}

#[test]
fn a_card_that_forbids_its_own_research_is_never_offered() {
    let state = game();
    assert!(!may(&state, "vax"), "its text says it cannot be researched, in any case");
    assert!(!open(&state).contains(&"vax".to_string()));
}

#[test]
fn a_waiver_covers_missing_prerequisites() {
    let state = game();
    assert!(!may(&state, "gd"));
    assert!(can_research(&state, &catalogue(), &planets(), &breakthroughs(), &player(), "gd", 1));
    let waived = researchable(&state, &catalogue(), &active(), &planets(), &breakthroughs(), &player(), &vec![("gd".to_string(), 1)]);
    assert!(waived.contains(&"gd".to_string()));
    assert!(!waived.contains(&"ps".to_string()), "a waiver is for the technology it names");
}

#[test]
fn a_successful_research_adds_the_technology_once() {
    let mut state = game();
    assert!(research(&mut state, &catalogue(), &planets(), &breakthroughs(), &player(), "nm", 0));
    assert_eq!(state.players[0].technologies, vec!["nm".to_string()]);
    assert!(!research(&mut state, &catalogue(), &planets(), &breakthroughs(), &player(), "nm", 0), "researched once");
    grant(&mut state, &player(), "nm");
    assert_eq!(state.players[0].technologies, vec!["nm".to_string()], "gaining it again changes nothing");
}

#[test]
fn owned_technologies_and_specialties_are_counted_by_colour() {
    let mut state = game();
    give(&mut state, &["amd", "ps", "nm", "ws"]);
    assert_eq!(owned_colours(&state, &catalogue(), &player()), vec![("BIOTIC".to_string(), 1), ("WARFARE".to_string(), 2)]);
    assert!(specialties(&state, &planets(), &player()).is_empty());
    state.board[0].planet_control.push(("mehar".to_string(), player()));
    state.board[0].planet_control.push(("plain".to_string(), player()));
    assert_eq!(specialties(&state, &planets(), &player()), vec![("PROPULSION".to_string(), 1)]);
    assert!(specialties(&state, &planets(), "b").is_empty(), "only the planets a player controls count");
}

#[test]
fn a_blank_faction_names_none() {
    assert_eq!(faction_of(&catalogue(), "sdn"), None);
    assert_eq!(faction_of(&catalogue(), "nm"), None);
    assert_eq!(faction_of(&catalogue(), "nowhere"), None);
}
