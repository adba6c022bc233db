use ti4_engine::state::{GameState, Seat};
use ti4_engine::synergy::{joins, pair, satisfies, Breakthrough};

fn counts(pairs: &[(&str, usize)]) -> Vec<(String, usize)> {
    pairs.iter().map(|(c, n)| (c.to_string(), *n)).collect()
}

fn biotic_cybernetic() -> [String; 2] {
    ["BIOTIC".to_owned(), "CYBERNETIC".to_owned()]
}

fn seat(id: &str, breakthrough: Option<&str>) -> Seat {
    Seat {
        id: id.to_string(),
        faction: "sol".to_string(),
        tactic_tokens: 3,
        fleet_tokens: 3,
        strategic_tokens: 2,
        trade_goods: 0,
        commodities: 0,
        victory_points: 0,
        relic_fragments: vec![],
        action_cards: vec![],
        secret_objectives: vec![],
        notes: vec![],
        abilities: vec![],
        technologies: vec![],
        captured_units: vec![],
        breakthrough: breakthrough.map(str::to_string),
        strategy_cards: vec![],
        exhausted_strategy_cards: vec![],
        gravity_drive_used_activation: None,
        exhausted_technologies: vec![],
        passed: false,
        stability: false,
        exhausted_relics: vec![],
        home_system: None,
        home_planets: vec![],
        leaders: vec![],
    }
}

fn table(seats: Vec<Seat>) -> GameState {
    GameState {
        players: seats,
        board: vec![],
        seating_order: vec![],
        transactions_this_round: vec![],
        transacted_this_turn: vec![],
        black_market: false,
        active_system: None,
        pending: None,
        activation_seq: 0,
        exhausted_planets: vec![],
        phase: ti4_engine::state::Phase::Action,
        finished: false,
        objective_deck: vec![],
        revealed_objectives: vec![],
        speaker: String::new(),
        agenda_deck: vec![],
        expedition_slices: vec![],
        placed_planets: vec![],
        thunders_edge_system: None,
        action_card_deck: vec![],
    }
}

#[test]
fn a_synergy_colour_stands_in_for_its_partner() {
    let needs = counts(&[("CYBERNETIC", 2)]);
    let holdings = counts(&[("BIOTIC", 2)]);
    assert!(satisfies(&needs, &holdings, Some(&biotic_cybernetic()), 0));
}

#[test]
fn the_pair_is_pooled_not_doubled() {
    let needs = counts(&[("BIOTIC", 1), ("CYBERNETIC", 1)]);
    let one = counts(&[("BIOTIC", 1)]);
    assert!(
        !satisfies(&needs, &one, Some(&biotic_cybernetic()), 0),
        "one technology cannot fill both slots"
    );
    let two = counts(&[("BIOTIC", 2)]);
    assert!(satisfies(&needs, &two, Some(&biotic_cybernetic()), 0));
}

#[test]
fn colours_outside_the_pair_are_untouched() {
    let needs = counts(&[("WARFARE", 1)]);
    let holdings = counts(&[("BIOTIC", 3)]);
    assert!(
        !satisfies(&needs, &holdings, Some(&biotic_cybernetic()), 0),
        "synergy joins two colours, not all four"
    );
}

#[test]
fn without_a_breakthrough_nothing_changes() {
    let needs = counts(&[("CYBERNETIC", 2)]);
    let holdings = counts(&[("BIOTIC", 2)]);
    assert!(!satisfies(&needs, &holdings, None, 0));
}

#[test]
fn the_waiver_budget_still_applies_across_both() {
    let needs = counts(&[("CYBERNETIC", 2), ("WARFARE", 1)]);
    let holdings = counts(&[("BIOTIC", 1)]);
    assert!(satisfies(&needs, &holdings, Some(&biotic_cybernetic()), 2));
    assert!(!satisfies(&needs, &holdings, Some(&biotic_cybernetic()), 1));
}

#[test]
fn the_corpus_gives_every_trained_faction_a_synergy() {
    // A breakthrough record naming two colours gives its holder a pair, upper-cased.
    let records = vec![Breakthrough {
        alias: "sol_bt".to_string(),
        synergy: vec!["biotic".to_string(), "warfare".to_string()],
    }];
    let state = table(vec![seat("a", Some("sol_bt"))]);
    assert_eq!(
        pair(&state, &records, "a"),
        Some(["BIOTIC".to_string(), "WARFARE".to_string()])
    );
}

#[test]
fn a_breakthrough_without_two_colours_grants_no_pair() {
    let records = vec![Breakthrough { alias: "nekro_bt".to_string(), synergy: vec![] }];
    let state = table(vec![seat("a", Some("nekro_bt")), seat("b", None)]);
    assert_eq!(pair(&state, &records, "a"), None);
    assert_eq!(pair(&state, &records, "b"), None, "no breakthrough gained yet");
    assert_eq!(pair(&state, &records, "nobody"), None);
}

#[test]
fn joins_names_exactly_the_two_colours() {
    let p = biotic_cybernetic();
    assert!(joins(Some(&p), "BIOTIC"));
    assert!(joins(Some(&p), "CYBERNETIC"));
    assert!(!joins(Some(&p), "WARFARE"));
    assert!(!joins(None, "BIOTIC"));
}

#[test]
fn a_shortfall_inside_the_pair_is_waived_once() {
    // Two needed in the pair, none held: exactly two waivers cover it.
    let needs = counts(&[("BIOTIC", 1), ("CYBERNETIC", 1)]);
    let holdings = counts(&[]);
    assert!(satisfies(&needs, &holdings, Some(&biotic_cybernetic()), 2));
    assert!(!satisfies(&needs, &holdings, Some(&biotic_cybernetic()), 1));
}

#[test]
fn more_technology_or_a_larger_waiver_keeps_a_met_requirement_met() {
    let needs = counts(&[("blue", 2), ("red", 1)]);
    let holdings = counts(&[("blue", 1), ("red", 1)]);
    assert!(!satisfies(&needs, &holdings, None, 0));
    assert!(satisfies(&needs, &holdings, None, 1));
    assert!(satisfies(&needs, &holdings, None, 2), "a larger waiver budget");
    assert!(satisfies(&needs, &counts(&[("blue", 2), ("red", 1)]), None, 0), "more of every colour");
    assert!(satisfies(&counts(&[("blue", 1), ("red", 0)]), &holdings, None, 0), "a smaller requirement");
}

#[test]
fn a_synergy_pair_never_turns_a_met_requirement_unmet() {
    let pair = ["blue".to_string(), "red".to_string()];
    let needs = counts(&[("blue", 2), ("red", 1), ("green", 1)]);
    let holdings = counts(&[("blue", 3), ("red", 0), ("green", 0)]);
    assert!(satisfies(&needs, &holdings, None, 2));
    assert!(satisfies(&needs, &holdings, Some(&pair), 2));
    assert!(satisfies(&needs, &holdings, Some(&pair), 1), "and here it helps: pooled blue covers red");
    assert!(!satisfies(&needs, &holdings, None, 1));
}
