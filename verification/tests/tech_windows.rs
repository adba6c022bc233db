use ti4_engine::choice::ChoiceOption;
use ti4_engine::state::{GameState, Seat, SystemState, Unit};
use ti4_engine::tech_windows::{
    chaos_answer, chaos_choice, controlled_planets, conversion_choice, convert, redistribute, redistribution_choice, stims_answer,
    stims_choice, transit_answer, transit_choice, transit_options, EndOfTurn, StartOfTurn, CHAOS_PROMPT, REDISTRIBUTION_PROMPT,
};
use ti4_engine::technology::PlanetRecord;

fn player() -> String {
    "a".to_string()
}

fn seat(id: &str) -> Seat {
    Seat {
        id: id.to_string(),
        faction: "generic".to_string(),
        tactic_tokens: 3,
        fleet_tokens: 3,
        strategic_tokens: 2,
        trade_goods: 0,
        commodities: 0,
        victory_points: 0,
        relic_fragments: vec![],
        action_cards: vec![],
        secret_objectives: vec![],
        notes: vec![],
        abilities: vec![],
        technologies: vec![],
        captured_units: vec![],
        breakthrough: None,
        strategy_cards: vec![],
        exhausted_strategy_cards: vec![],
        gravity_drive_used_activation: None,
        exhausted_technologies: vec![],
        passed: false,
        stability: false,
        exhausted_relics: vec![],
        home_system: None,
        home_planets: vec![],
        leaders: vec![],
    }
}

fn system(id: &str) -> SystemState {
    SystemState { id: id.to_string(), units: vec![], planet_units: vec![], planet_control: vec![], command_tokens: vec![] }
}

fn game() -> GameState {
    GameState {
        players: vec![seat("a"), seat("b")],
        board: vec![system("01"), system("02")],
        seating_order: vec!["a".to_string(), "b".to_string()],
        transactions_this_round: vec![],
        transacted_this_turn: vec![],
        black_market: false,
        active_system: None,
        pending: None,
        activation_seq: 0,
        exhausted_planets: vec![],
        phase: ti4_engine::state::Phase::Action,
        finished: false,
        objective_deck: vec![],
        revealed_objectives: vec![],
        speaker: String::new(),
        agenda_deck: vec![],
        expedition_slices: vec![],
        placed_planets: vec![],
        thunders_edge_system: None,
        action_card_deck: vec![],
    }
}

fn give(state: &mut GameState, aliases: &[&str]) {
    for alias in aliases {
        state.players[0].technologies.push(alias.to_string());
    }
}

fn control(state: &mut GameState, system: usize, planet: &str, owner: &str) {
    state.board[system].planet_control.push((planet.to_string(), owner.to_string()));
}

fn infantry(owner: &str) -> Unit {
    Unit { type_id: "infantry".to_string(), owner: owner.to_string(), sustained_damage: false, galvanized: false }
}

fn put_on_planet(state: &mut GameState, system: usize, planet: &str, unit: Unit) {
    match state.board[system].planet_units.iter_mut().find(|(p, _)| p == planet) {
        Some((_, units)) => units.push(unit),
        None => state.board[system].planet_units.push((planet.to_string(), vec![unit])),
    }
}

fn on_planet(state: &GameState, system: usize, planet: &str) -> usize {
    state.board[system].planet_units.iter().find(|(p, _)| p == planet).map_or(0, |(_, units)| units.len())
}

fn planets() -> Vec<PlanetRecord> {
    vec![
        PlanetRecord { id: "mehar".to_string(), specialties: vec!["propulsion".to_string()] },
        PlanetRecord { id: "plain".to_string(), specialties: vec![] },
        PlanetRecord { id: "lazar".to_string(), specialties: vec!["cybernetic".to_string()] },
    ]
}

fn grounds() -> Vec<String> {
    vec!["infantry".to_string(), "mech".to_string()]
}

fn ids(options: &[ChoiceOption]) -> Vec<String> {
    options.iter().map(|o| o.id.clone()).collect()
}

fn exhausted(state: &GameState, alias: &str) -> bool {
    state.players[0].exhausted_technologies.iter().any(|t| t == alias)
}

#[test]
fn transit_diodes_redeploys_ground_at_the_start_of_a_turn_and_exhausts() {
    let mut state = game();
    give(&mut state, &["td"]);
    control(&mut state, 0, "source", "a");
    control(&mut state, 1, "destination", "a");
    put_on_planet(&mut state, 0, "source", infantry("a"));
    let mut window = StartOfTurn::open(&player());

    let choice = window.pending_choice(&mut state, &planets(), &grounds(), &vec![]).unwrap();
    assert_eq!(choice.prompt, "Transit Diodes: redeploy ground forces (4 left)");
    assert_eq!(ids(&choice.options), vec!["transit|01|source|infantry|02|destination", "decline"]);
    window
        .take_choice(&mut state, &planets(), &grounds(), &vec![], ChoiceOption::new("transit|01|source|infantry|02|destination", "transit"))
        .unwrap();
    assert!(window.pending_choice(&mut state, &planets(), &grounds(), &vec![]).is_none());

    assert_eq!(on_planet(&state, 0, "source"), 0);
    assert_eq!(on_planet(&state, 1, "destination"), 1);
    assert!(exhausted(&state, "td"));
    assert!(window.is_done());
}

#[test]
fn psychoarchaeology_is_a_learned_start_of_turn_conversion() {
    let mut state = game();
    give(&mut state, &["pa"]);
    control(&mut state, 0, "mehar", "a");
    let before = state.players[0].trade_goods;
    let mut window = StartOfTurn::open(&player());

    let choice = window.pending_choice(&mut state, &planets(), &grounds(), &vec![]).unwrap();
    assert!(choice.prompt.starts_with("Psychoarchaeology"));
    window.take_choice(&mut state, &planets(), &grounds(), &vec![], ChoiceOption::new("mehar", "ability")).unwrap();

    assert!(state.exhausted_planets.contains(&"mehar".to_string()));
    assert_eq!(state.players[0].trade_goods, before + 1);
    assert!(window.pending_choice(&mut state, &planets(), &grounds(), &vec![]).is_none());
}

#[test]
fn bio_stims_is_a_learned_end_of_turn_readying_choice() {
    let mut state = game();
    give(&mut state, &["bs", "td"]);
    state.players[0].exhausted_technologies.push("td".to_string());
    let names = vec![("td".to_string(), "Transit Diodes".to_string())];
    let mut window = EndOfTurn::open(&state, &player());

    let choice = window.pending_choice(&mut state, &planets(), &names).unwrap();
    assert_eq!(ids(&choice.options), vec!["ready|technology|td", "decline"]);
    assert_eq!(choice.options[0].label, "Bio-Stims: ready Transit Diodes");
    window.take_choice(&mut state, &planets(), &names, ChoiceOption::new("ready|technology|td", "ready_technology")).unwrap();

    assert!(!exhausted(&state, "td"));
    assert!(exhausted(&state, "bs"));
    assert!(window.is_done());
}

#[test]
fn chaos_mapping_chooses_a_system_and_one_unit_at_the_start_of_turn() {
    let mut state = game();
    give(&mut state, &["cm"]);
    control(&mut state, 0, "plain", "a");
    let capacities = vec![("01".to_string(), 1u32)];
    let mut window = StartOfTurn::open(&player());

    let choice = window.pending_choice(&mut state, &planets(), &grounds(), &capacities).unwrap();
    assert_eq!(choice.prompt, CHAOS_PROMPT);
    assert_eq!(ids(&choice.options), vec!["01", "decline"]);
    let produce = window.take_choice(&mut state, &planets(), &grounds(), &capacities, ChoiceOption::new("01", "production")).unwrap();

    assert_eq!(produce, Some("01".to_string()));
    assert!(window.is_done());
}

#[test]
fn controlled_planets_follow_the_board() {
    let mut state = game();
    control(&mut state, 1, "lazar", "a");
    control(&mut state, 0, "mehar", "b");
    control(&mut state, 0, "plain", "a");
    assert_eq!(
        controlled_planets(&state, "a"),
        vec![("01".to_string(), "plain".to_string()), ("02".to_string(), "lazar".to_string())]
    );
}

#[test]
fn predictive_intelligence_moves_tokens_and_keeps_the_sheet_total() {
    let mut state = game();
    give(&mut state, &["pi"]);
    state.players[0].strategic_tokens = 0;
    let choice = redistribution_choice(&state, "a").unwrap();
    assert_eq!(choice.prompt, REDISTRIBUTION_PROMPT);
    assert_eq!(ids(&choice.options), vec!["tactic|fleet", "tactic|strategy", "fleet|tactic", "fleet|strategy", "done"]);
    assert_eq!(choice.options[1].label, "move 1 token from tactic to strategy");

    assert_eq!(redistribute(&mut state, "a", ChoiceOption::new("tactic|strategy", "redistribute")).unwrap(), true);
    let seat = &state.players[0];
    assert_eq!((seat.tactic_tokens, seat.fleet_tokens, seat.strategic_tokens), (2, 3, 1));
    assert_eq!(redistribute(&mut state, "a", ChoiceOption::new("done", "decline")).unwrap(), false);
    assert!(redistribute(&mut state, "a", ChoiceOption::new("tactic|tactic", "redistribute")).is_err());
    assert!(redistribute(&mut state, "b", ChoiceOption::new("tactic|fleet", "redistribute")).is_err());
}

#[test]
fn the_end_of_turn_window_exhausts_predictive_intelligence_after_a_move() {
    let mut state = game();
    give(&mut state, &["pi"]);
    let mut window = EndOfTurn::open(&state, "a");
    let choice = window.pending_choice(&mut state, &planets(), &vec![]).unwrap();
    assert_eq!(choice.prompt, REDISTRIBUTION_PROMPT);
    window.take_choice(&mut state, &planets(), &vec![], ChoiceOption::new("fleet|tactic", "redistribute")).unwrap();
    assert_eq!(state.players[0].tactic_tokens, 4);
    window.take_choice(&mut state, &planets(), &vec![], ChoiceOption::new("done", "decline")).unwrap();
    assert!(exhausted(&state, "pi"));
    assert!(window.pending_choice(&mut state, &planets(), &vec![]).is_none());
    assert!(window.is_done());
}

#[test]
fn a_finished_redistribution_without_a_move_leaves_the_technology_ready() {
    let mut state = game();
    give(&mut state, &["pi"]);
    let mut window = EndOfTurn::open(&state, "a");
    assert!(window.pending_choice(&mut state, &planets(), &vec![]).is_some());
    window.take_choice(&mut state, &planets(), &vec![], ChoiceOption::new("done", "decline")).unwrap();
    assert!(!exhausted(&state, "pi"));
    assert!(window.pending_choice(&mut state, &planets(), &vec![]).is_none());
}

#[test]
fn bio_stims_readies_an_exhausted_specialty_planet() {
    let mut state = game();
    give(&mut state, &["bs"]);
    control(&mut state, 0, "mehar", "a");
    control(&mut state, 0, "plain", "a");
    state.exhausted_planets = vec!["plain".to_string(), "mehar".to_string()];
    let choice = stims_choice(&state, &planets(), &vec![], "a").unwrap();
    assert_eq!(ids(&choice.options), vec!["ready|planet|mehar", "decline"]);
    assert_eq!(stims_answer(&mut state, &planets(), &vec![], "a", ChoiceOption::new("ready|planet|mehar", "ready")).unwrap(), true);
    assert_eq!(state.exhausted_planets, vec!["plain".to_string()]);
    assert!(exhausted(&state, "bs"));
    assert!(stims_choice(&state, &planets(), &vec![], "a").is_none());
}

#[test]
fn bio_stims_declined_changes_nothing() {
    let mut state = game();
    give(&mut state, &["bs"]);
    state.players[0].exhausted_technologies.push("sr".to_string());
    let before = state.clone();
    assert_eq!(stims_answer(&mut state, &planets(), &vec![], "a", ChoiceOption::decline()).unwrap(), false);
    assert_eq!(state, before);
    assert!(stims_answer(&mut state, &planets(), &vec![], "a", ChoiceOption::new("ready|technology|bs", "ready_technology")).is_err());
    assert_eq!(state, before);
}

#[test]
fn psychoarchaeology_offers_only_ready_specialty_planets() {
    let mut state = game();
    give(&mut state, &["pa"]);
    control(&mut state, 0, "mehar", "a");
    control(&mut state, 0, "plain", "a");
    control(&mut state, 1, "lazar", "a");
    state.exhausted_planets.push("lazar".to_string());
    let choice = conversion_choice(&state, &planets(), "a").unwrap();
    assert_eq!(ids(&choice.options), vec!["mehar", "decline"]);
    assert_eq!(choice.options[0].label, "exhaust mehar");
    assert_eq!(convert(&mut state, &planets(), "a", ChoiceOption::decline()).unwrap(), false);
    assert_eq!(state.players[0].trade_goods, 0);
    assert_eq!(convert(&mut state, &planets(), "a", ChoiceOption::new("mehar", "ability")).unwrap(), true);
    assert!(conversion_choice(&state, &planets(), "a").is_none());
}

#[test]
fn transit_offers_each_move_once_and_never_out_of_an_arrival() {
    let mut state = game();
    give(&mut state, &["td"]);
    control(&mut state, 0, "source", "a");
    control(&mut state, 1, "destination", "a");
    put_on_planet(&mut state, 0, "source", infantry("a"));
    put_on_planet(&mut state, 0, "source", infantry("a"));
    put_on_planet(&mut state, 0, "source", infantry("b"));
    state.board[1].units.push(infantry("a"));
    let moves = transit_options(&state, &grounds(), "a", &vec![]);
    let offered: Vec<(String, String, String)> =
        moves.iter().map(|m| (m.source_system.clone(), m.source.clone(), m.planet.clone())).collect();
    assert_eq!(
        offered,
        vec![
            ("01".to_string(), "source".to_string(), "destination".to_string()),
            ("02".to_string(), "space".to_string(), "source".to_string()),
            ("02".to_string(), "space".to_string(), "destination".to_string()),
        ]
    );
    let barred = transit_options(&state, &grounds(), "a", &vec![("01".to_string(), "source".to_string())]);
    assert_eq!(barred.len(), 2);
    let choice = transit_choice(&state, &grounds(), "a", &vec![], 3).unwrap();
    assert_eq!(choice.prompt, "Transit Diodes: redeploy ground forces (3 left)");
    assert_eq!(choice.options[0].label, "move infantry from source to destination");
}

#[test]
fn a_declined_redeployment_changes_nothing() {
    let mut state = game();
    give(&mut state, &["td"]);
    control(&mut state, 0, "source", "a");
    control(&mut state, 1, "destination", "a");
    put_on_planet(&mut state, 0, "source", infantry("a"));
    let before = state.clone();
    assert!(transit_answer(&mut state, &grounds(), "a", &vec![], ChoiceOption::new("transit|invented", "transit")).is_err());
    assert_eq!(transit_answer(&mut state, &grounds(), "a", &vec![], ChoiceOption::decline()).unwrap(), None);
    assert_eq!(state, before);
}

#[test]
fn chaos_mapping_declined_produces_nowhere() {
    let mut state = game();
    give(&mut state, &["cm"]);
    assert!(chaos_choice(&state, &vec![], "a").is_none());
    let capacities = vec![("02".to_string(), 2u32), ("01".to_string(), 0u32)];
    assert_eq!(ids(&chaos_choice(&state, &capacities, "a").unwrap().options), vec!["02", "decline"]);
    assert_eq!(chaos_answer(&state, &capacities, "a", ChoiceOption::decline()).unwrap(), None);
    assert!(chaos_answer(&state, &capacities, "a", ChoiceOption::new("01", "production")).is_err());
    state.players[0].technologies.clear();
    assert!(chaos_choice(&state, &capacities, "a").is_none());
}

#[test]
fn a_window_with_nothing_to_ask_is_done_at_once() {
    let mut state = game();
    let before = state.clone();
    let mut start = StartOfTurn::open("a");
    assert!(start.pending_choice(&mut state, &planets(), &grounds(), &vec![]).is_none());
    assert!(start.is_done());
    let mut end = EndOfTurn::open(&state, "a");
    assert!(end.pending_choice(&mut state, &planets(), &vec![]).is_none());
    assert!(end.take_choice(&mut state, &planets(), &vec![], ChoiceOption::decline()).is_err());
    assert_eq!(state, before);
}
