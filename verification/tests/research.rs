use ti4_engine::choice::ChoiceOption;
use ti4_engine::research::{
    colour_choice, compounds_answer, compounds_choice, exhaust_specialty, research_answer, research_choice, tech_name, usable,
};
use ti4_engine::state::{GameState, Seat, SystemState};
use ti4_engine::synergy::Breakthrough;
use ti4_engine::technology::{researchable, PlanetRecord, TechRecord};

fn tech(alias: &str, types: &[&str], requirements: &str) -> TechRecord {
    TechRecord {
        alias: alias.to_string(),
        types: types.iter().map(|t| t.to_string()).collect(),
        faction: None,
        requirements: requirements.to_string(),
        text: String::new(),
    }
}

/// A small catalogue shaped like the corpus: colours, a unit upgrade, a faction technology, a
/// card that forbids its own research, and three printings of one technology.
fn catalogue() -> Vec<TechRecord> {
    let mut faction = tech("spec", &["CYBERNETIC"], "");
    faction.faction = Some("jolnar".to_string());
    let mut forbidden = tech("vax", &["BIOTIC"], "");
    forbidden.text = "This technology Cannot Be Researched.".to_string();
    let mut blank_faction = tech("sdn", &["CYBERNETIC"], "");
    blank_faction.faction = Some(String::new());
    vec![
        tech("nm", &["BIOTIC"], ""),
        tech("pa", &["BIOTIC"], "null"),
        tech("td", &["PROPULSION"], "YY"),
        tech("ws", &["UNITUPGRADE"], "RRRY"),
        tech("gd", &["PROPULSION"], "B"),
        tech("amd", &["WARFARE"], ""),
        tech("ps", &["WARFARE"], "R"),
        tech("dxa", &["WARFARE"], "None"),
        blank_faction,
        tech("md_base", &["PROPULSION"], ""),
        tech("md", &["PROPULSION"], ""),
        tech("md_c1", &["PROPULSION"], ""),
        faction,
        forbidden,
    ]
}

/// The current deck: one printing of each technology.
fn active() -> Vec<String> {
    ["nm", "pa", "td", "ws", "gd", "amd", "ps", "dxa", "sdn", "md", "spec", "vax"].iter().map(|a| a.to_string()).collect()
}

fn planets() -> Vec<PlanetRecord> {
    vec![
        PlanetRecord { id: "mehar".to_string(), specialties: vec!["propulsion".to_string()] },
        PlanetRecord { id: "plain".to_string(), specialties: vec![] },
    ]
}

fn breakthroughs() -> Vec<Breakthrough> {
    vec![Breakthrough { alias: "jolnarbt".to_string(), synergy: vec!["biotic".to_string(), "cybernetic".to_string()] }]
}

fn player() -> String {
    "a".to_string()
}

fn game() -> GameState {
    GameState {
        players: vec![Seat {
            id: player(),
            faction: "generic".to_string(),
            tactic_tokens: 3,
            fleet_tokens: 3,
            strategic_tokens: 2,
            trade_goods: 0,
            commodities: 0,
            victory_points: 0,
            relic_fragments: vec![],
            action_cards: vec![],
            secret_objectives: vec![],
            notes: vec![],
            abilities: vec![],
            technologies: vec![],
            captured_units: vec![],
            breakthrough: None,
            strategy_cards: vec![],
            exhausted_strategy_cards: vec![],
            gravity_drive_used_activation: None,
            exhausted_technologies: vec![],
            passed: false,
            stability: false,
            exhausted_relics: vec![],
            home_system: None,
            home_planets: vec![],
            leaders: vec![],
        }],
        board: vec![SystemState {
            id: "18".to_string(),
            units: vec![],
            planet_units: vec![],
            planet_control: vec![],
            command_tokens: vec![],
        }],
        seating_order: vec![player()],
        transactions_this_round: vec![],
        transacted_this_turn: vec![],
        black_market: false,
        active_system: None,
        pending: None,
        activation_seq: 0,
        exhausted_planets: vec![],
        phase: ti4_engine::state::Phase::Action,
        finished: false,
        objective_deck: vec![],
        revealed_objectives: vec![],
        speaker: String::new(),
        agenda_deck: vec![],
        expedition_slices: vec![],
        placed_planets: vec![],
        thunders_edge_system: None,
        action_card_deck: vec![],
    }
}

fn printed() -> Vec<(String, String)> {
    vec![("nm".to_string(), "Neural Motivator".to_string()), ("amd".to_string(), "Antimass Deflectors".to_string())]
}

fn ids(options: &[ChoiceOption]) -> Vec<String> {
    options.iter().map(|o| o.id.clone()).collect()
}

fn open_now(state: &GameState) -> Vec<String> {
    researchable(state, &catalogue(), &active(), &planets(), &breakthroughs(), &player(), &vec![])
}

#[test]
fn a_technology_is_named_by_its_printing_or_else_its_alias() {
    assert_eq!(tech_name(&printed(), "nm"), "Neural Motivator");
    assert_eq!(tech_name(&printed(), "gd"), "gd");
}

#[test]
fn the_research_question_offers_each_open_technology_and_a_decline() {
    let state = game();
    let open = open_now(&state);
    let choice = research_choice("a", &open, &printed()).unwrap();
    assert_eq!(choice.prompt, "research a technology");
    assert_eq!(choice.options.len(), open.len() + 1);
    assert_eq!(choice.options.last().unwrap().id, ChoiceOption::decline().id);
    let nm = choice.options.iter().find(|o| o.id == "nm").unwrap();
    assert_eq!(nm.label, "Neural Motivator");
    assert_eq!(nm.kind, "research");
    assert!(research_choice("a", &vec![], &printed()).is_none());
}

#[test]
fn answering_the_research_question_researches_what_it_names() {
    let mut state = game();
    let got = research_answer(&mut state, &catalogue(), &planets(), &breakthroughs(), "a", 0, &ChoiceOption::new("nm", "research"));
    assert_eq!(got, Some("nm".to_string()));
    assert_eq!(state.players[0].technologies, vec!["nm".to_string()]);

    let before = state.clone();
    let none = research_answer(&mut state, &catalogue(), &planets(), &breakthroughs(), "a", 0, &ChoiceOption::decline());
    assert_eq!(none, None);
    assert_eq!(state, before);

    // Unmet prerequisites: nothing is researched.
    assert_eq!(research_answer(&mut state, &catalogue(), &planets(), &breakthroughs(), "a", 0, &ChoiceOption::new("ws", "research")), None);
    assert_eq!(state, before);
}

#[test]
fn only_a_specialty_that_can_buy_something_is_offered() {
    let specialties = vec![
        ("mehar".to_string(), "PROPULSION".to_string()),
        ("lazar".to_string(), "CYBERNETIC".to_string()),
    ];
    let open = vec!["gd".to_string(), "nm".to_string()];
    let found = usable(&catalogue(), &open, &specialties);
    assert_eq!(found, vec![("mehar".to_string(), "PROPULSION".to_string())]);
    assert!(usable(&catalogue(), &vec!["nm".to_string()], &specialties).is_empty());
}

#[test]
fn specialist_compounds_asks_which_specialty_then_which_technology_of_its_colour() {
    let spent = vec![("mehar".to_string(), "PROPULSION".to_string())];
    let choice = compounds_choice("a", &spent).unwrap();
    assert_eq!(choice.prompt, "Specialist Compounds: exhaust a specialty instead of paying");
    assert_eq!(ids(&choice.options), vec!["mehar:PROPULSION".to_string(), ChoiceOption::decline().id]);
    assert_eq!(choice.options[0].label, "exhaust mehar to research propulsion technology");
    assert!(compounds_choice("a", &vec![]).is_none());

    let picked = compounds_answer(&spent, &ChoiceOption::new("mehar:PROPULSION", "planet"));
    assert_eq!(picked, Some(("mehar".to_string(), "PROPULSION".to_string())));
    assert_eq!(compounds_answer(&spent, &ChoiceOption::decline()), None);
    assert_eq!(compounds_answer(&spent, &ChoiceOption::new("mehar:BIOTIC", "planet")), None);

    let open = vec!["amd".to_string(), "gd".to_string(), "md".to_string(), "nm".to_string()];
    let second = colour_choice("a", "PROPULSION", &open, &catalogue(), &printed());
    assert_eq!(second.prompt, "research which propulsion technology");
    assert_eq!(ids(&second.options), vec!["gd".to_string(), "md".to_string()]);

    let mut state = game();
    exhaust_specialty(&mut state, "mehar");
    assert_eq!(state.exhausted_planets, vec!["mehar".to_string()]);
}
