use ti4_engine::seating::{
    board_ids, deploy, home_systems, seat_in_scope, Deployment, FactionRecord, SeatingError, IN_SCOPE_FACTIONS, MECATOL,
};
use ti4_engine::state::{GameState, Phase, Seat, SystemState, Unit};


fn record(alias: &str, home: Option<&str>) -> FactionRecord {
    FactionRecord {
        alias: alias.to_string(),
        home_system: home.map(|h| h.to_string()),
        home_planets: vec![],
        deployments: vec![],
        starting_tech: vec![],
    }
}

fn filler(n: usize) -> Vec<String> {
    (0..n).map(|i| format!("f{i}")).collect()
}

fn homes(n: usize) -> Vec<String> {
    (0..n).map(|i| format!("h{i}")).collect()
}

#[test]
fn the_six_in_scope_factions_are_the_six_named() {
    assert_eq!(
        IN_SCOPE_FACTIONS,
        ["sol", "hacan", "letnev", "xxcha", "jolnar", "l1z1x"]
    );
}

#[test]
fn a_table_is_seated_from_the_scope_and_from_nothing_else() {
    let players: Vec<String> = ["a", "b", "c", "d", "e", "f"].iter().map(|p| p.to_string()).collect();
    let seated = seat_in_scope(&players);

    assert_eq!(seated.len(), 6);
    for (_, faction) in &seated {
        assert!(
            IN_SCOPE_FACTIONS.contains(&faction.as_str()),
            "{faction} was seated and is not in scope"
        );
    }
    let mut distinct: Vec<&str> = seated.iter().map(|(_, f)| f.as_str()).collect();
    distinct.sort();
    distinct.dedup();
    assert_eq!(distinct.len(), 6, "six seats, six factions: {distinct:?}");
}

#[test]
fn a_table_larger_than_the_scope_still_plays_in_scope_factions() {
    let players: Vec<String> = (0..8).map(|index| format!("p{index}")).collect();
    let seated = seat_in_scope(&players);

    assert_eq!(seated.len(), 8);
    for (_, faction) in &seated {
        assert!(
            IN_SCOPE_FACTIONS.contains(&faction.as_str()),
            "{faction} was seated and is not in scope"
        );
    }
    assert_eq!(seated[6].1, "sol", "the seventh seat starts the list again");
}

#[test]
fn the_firmament_is_not_in_scope() {
    assert!(!IN_SCOPE_FACTIONS.contains(&"firmament"));
}

#[test]
fn homes_are_spaced_around_the_outer_ring_not_huddled_at_the_start_of_it() {
    let ids = board_ids(&homes(6), &filler(30)).unwrap();
    // Mecatol, eighteen inner tiles, then the outer ring up to the last home.
    assert_eq!(ids.len(), 1 + 18 + 16);
    let outer = &ids[19..];
    let slots: Vec<usize> = outer
        .iter()
        .enumerate()
        .filter(|(_, id)| id.starts_with('h'))
        .map(|(slot, _)| slot)
        .collect();
    assert_eq!(slots, vec![0, 3, 6, 9, 12, 15], "every third outer slot");
}

#[test]
fn a_seated_game_places_mecatol_at_the_centre() {
    let ids = board_ids(&homes(3), &filler(30)).unwrap();
    assert_eq!(ids[0], MECATOL);
    assert_eq!(ids[1], "f0");
    assert_eq!(ids[18], "f17");
}

#[test]
fn a_board_without_the_filler_to_space_the_homes_is_refused() {
    let err = board_ids(&homes(6), &filler(18)).unwrap_err();
    assert_eq!(err, SeatingError::NotEnoughFiller { wanted: 28, given: 18 });
}

#[test]
fn fewer_homes_stand_further_apart() {
    // Three homes on an eighteen-tile ring: every sixth slot.
    let ids = board_ids(&homes(3), &filler(30)).unwrap();
    assert_eq!(ids[19], "h0");
    assert_eq!(ids[25], "h1");
    assert_eq!(ids[31], "h2");
    assert_eq!(ids.len(), 1 + 18 + 13);
    assert_eq!(ids[20], "f18", "filler resumes after the inner rings");
}

#[test]
fn a_board_with_no_homes_is_mecatol_and_the_inner_rings() {
    let ids = board_ids(&homes(0), &filler(18)).unwrap();
    assert_eq!(ids.len(), 19);
}

#[test]
fn home_systems_are_read_from_the_faction_records() {
    let records = vec![
        record("sol", Some("01")),
        record("hacan", Some("13")),
        record("homeless", None),
    ];
    let table = vec![("a".to_string(), "hacan".to_string()), ("b".to_string(), "sol".to_string())];
    assert_eq!(home_systems(&records, &table).unwrap(), vec!["13".to_string(), "01".to_string()]);
}

#[test]
fn home_systems_name_the_faction_they_cannot_place() {
    let records = vec![record("homeless", None)];
    let table = vec![("a".to_string(), "nobody".to_string())];
    assert_eq!(
        home_systems(&records, &table).unwrap_err(),
        SeatingError::UnknownFaction("nobody".to_string())
    );
    let table = vec![("a".to_string(), "homeless".to_string())];
    assert_eq!(
        home_systems(&records, &table).unwrap_err(),
        SeatingError::NoHomeSystem("homeless".to_string())
    );
}

fn seat(id: &str) -> Seat {
    Seat {
        id: id.to_string(),
        faction: "generic".to_string(),
        tactic_tokens: 3,
        fleet_tokens: 3,
        strategic_tokens: 2,
        trade_goods: 0,
        commodities: 0,
        victory_points: 0,
        relic_fragments: vec![],
        action_cards: vec![],
        secret_objectives: vec![],
        notes: vec![],
        abilities: vec![],
        technologies: vec![],
        captured_units: vec![],
        breakthrough: None,
        strategy_cards: vec![],
        exhausted_strategy_cards: vec![],
        gravity_drive_used_activation: None,
        exhausted_technologies: vec![],
        passed: false,
        stability: false,
        exhausted_relics: vec![],
        home_system: None,
        home_planets: vec![],
        leaders: vec![],
    }
}

fn table(players: &[&str]) -> GameState {
    GameState {
        players: players.iter().map(|p| seat(p)).collect(),
        board: vec![],
        seating_order: players.iter().map(|p| p.to_string()).collect(),
        transactions_this_round: vec![],
        transacted_this_turn: vec![],
        black_market: false,
        active_system: None,
        pending: None,
        activation_seq: 0,
        exhausted_planets: vec![],
        phase: Phase::Strategy,
        finished: false,
        objective_deck: vec![],
        revealed_objectives: vec![],
        speaker: String::new(),
        agenda_deck: vec![],
        expedition_slices: vec![],
        placed_planets: vec![],
        thunders_edge_system: None,
        action_card_deck: vec![],
    }
}

fn deployment(unit: &str, count: u32, planet: Option<&str>) -> Deployment {
    Deployment { unit: unit.to_string(), count, planet: planet.map(|p| p.to_string()) }
}

/// The corpus records of the two factions these tests seat.
fn factions() -> Vec<FactionRecord> {
    vec![
        FactionRecord {
            alias: "sol".to_string(),
            home_system: Some("01".to_string()),
            home_planets: vec!["jord".to_string()],
            deployments: vec![
                deployment("carrier", 2, None),
                deployment("destroyer", 1, None),
                deployment("fighter", 3, None),
                deployment("sol_infantry", 5, Some("jord")),
                deployment("spacedock", 1, Some("jord")),
            ],
            starting_tech: vec!["amd".to_string(), "nm".to_string()],
        },
        FactionRecord {
            alias: "hacan".to_string(),
            home_system: Some("13".to_string()),
            home_planets: vec!["arretze".to_string(), "hercant".to_string(), "kamdorn".to_string()],
            deployments: vec![
                deployment("carrier", 2, None),
                deployment("cruiser", 1, None),
                deployment("fighter", 2, None),
                deployment("infantry", 4, Some("arretze")),
                deployment("spacedock", 1, Some("arretze")),
            ],
            starting_tech: vec!["ag".to_string(), "sdn".to_string()],
        },
    ]
}

fn seated(pairs: &[(&str, &str)]) -> GameState {
    let ids: Vec<&str> = pairs.iter().map(|(p, _)| *p).collect();
    let mut state = table(&ids);
    for (player, alias) in pairs {
        deploy(&mut state, &factions(), player, alias).unwrap();
    }
    state
}

fn home<'a>(state: &'a GameState, id: &str) -> &'a SystemState {
    state.board.iter().find(|s| s.id == id).unwrap()
}

fn everything(system: &SystemState) -> Vec<&Unit> {
    system.units.iter().chain(system.planet_units.iter().flat_map(|(_, units)| units.iter())).collect()
}

#[test]
fn deploying_seats_the_faction_and_takes_home_control() {
    let state = seated(&[("a", "sol")]);
    let player = &state.players[0];
    assert_eq!(player.faction, "sol");
    assert_eq!(player.home_system, Some("01".to_string()));
    assert_eq!(player.home_planets, vec!["jord".to_string()]);
    assert!(home(&state, "01").planet_control.iter().any(|(_, owner)| owner == "a"));
}

#[test]
fn sol_opens_with_two_carriers_in_space_and_five_infantry_on_jord() {
    let state = seated(&[("a", "sol")]);
    let system = home(&state, "01");
    let carriers = system.units.iter().filter(|u| u.type_id.contains("carrier")).count();
    assert_eq!(carriers, 2);
    let jord = &system.planet_units.iter().find(|(p, _)| p == "jord").unwrap().1;
    let infantry = jord.iter().filter(|u| u.type_id.contains("infantry")).count();
    assert_eq!(infantry, 5);
}

#[test]
fn a_faction_gets_its_own_mech_and_flagship() {
    let state = seated(&[("a", "sol")]);
    let all: Vec<&str> = everything(home(&state, "01")).iter().map(|u| u.type_id.as_str()).collect();
    assert!(all.iter().any(|u| *u == "sol_infantry" || *u == "infantry"), "got {all:?}");
    assert!(!all.contains(&"mech"), "a generic mech means resolution failed: {all:?}");
}

#[test]
fn every_deployed_unit_belongs_to_the_seated_player() {
    let state = seated(&[("a", "sol"), ("b", "hacan")]);
    for (system, player) in [("01", "a"), ("13", "b")] {
        for unit in everything(home(&state, system)) {
            assert_eq!(unit.owner, player, "in system {system}");
            assert!(!unit.sustained_damage);
        }
    }
}

#[test]
fn a_seated_player_holds_their_factions_starting_technology() {
    let state = seated(&[("a", "sol")]);
    let player = &state.players[0];
    assert!(!player.technologies.is_empty());
    assert!(player.technologies.contains(&"amd".to_string()));
}

#[test]
fn seating_an_unknown_faction_fails_rather_than_seating_nothing() {
    let mut state = table(&["a"]);
    let err = deploy(&mut state, &factions(), "a", "nonesuch").unwrap_err();
    assert!(matches!(err, SeatingError::UnknownFaction(_)), "{err:?}");
    assert!(state.board.is_empty(), "nothing may be placed on a failure");
}

#[test]
fn seating_an_unseated_player_is_refused() {
    let mut state = table(&["a"]);
    let err = deploy(&mut state, &factions(), "ghost", "sol").unwrap_err();
    assert!(matches!(err, SeatingError::UnknownPlayer(_)), "{err:?}");
}

#[test]
fn a_faction_without_a_home_is_refused_and_changes_nothing() {
    let mut state = table(&["a"]);
    let records = vec![record("homeless", None)];
    let before = state.clone();
    let err = deploy(&mut state, &records, "a", "homeless").unwrap_err();
    assert_eq!(err, SeatingError::NoHomeSystem("homeless".to_string()));
    assert_eq!(state, before);
}

#[test]
fn deploying_into_a_home_already_on_the_board_keeps_what_is_there() {
    let mut state = table(&["a"]);
    let mut system = SystemState { id: "01".to_string(), units: vec![], planet_units: vec![], planet_control: vec![], command_tokens: vec!["b".to_string()] };
    system.planet_control.push(("jord".to_string(), "b".to_string()));
    state.board.push(system);
    deploy(&mut state, &factions(), "a", "sol").unwrap();
    assert_eq!(state.board.len(), 1);
    let system = &state.board[0];
    assert_eq!(system.planet_control, vec![("jord".to_string(), "a".to_string())]);
    assert_eq!(system.command_tokens, vec!["b".to_string()]);
    assert_eq!(system.units.len(), 6);
    assert_eq!(state.players[0].technologies, vec!["amd".to_string(), "nm".to_string()]);
}

fn tile_record(id: &str, planets: usize) -> ti4_engine::seating::SystemRecord {
    ti4_engine::seating::SystemRecord { id: id.to_string(), planets, anomaly: false, hyperlane: false, wormholes: 0 }
}

#[test]
fn neutral_filler_skips_mecatol_homes_hazards_and_empty_space() {
    let mut rift = tile_record("41", 0);
    rift.anomaly = true;
    let mut nebula = tile_record("42", 1);
    nebula.anomaly = true;
    let mut wormhole = tile_record("26", 1);
    wormhole.wormholes = 1;
    let mut lane = tile_record("83a", 1);
    lane.hyperlane = true;
    let records = vec![
        tile_record("18", 1),
        tile_record("1", 3),
        tile_record("19", 2),
        rift,
        nebula,
        wormhole,
        lane,
        tile_record("46", 0),
        tile_record("20", 1),
        tile_record("21", 1),
    ];
    let homes = vec!["1".to_string()];
    let all = ti4_engine::seating::neutral_systems(&records, &homes, usize::MAX);
    assert_eq!(all, vec!["19".to_string(), "20".to_string(), "21".to_string()]);
    assert_eq!(ti4_engine::seating::neutral_systems(&records, &homes, 2), vec!["19".to_string(), "20".to_string()]);
    assert!(ti4_engine::seating::neutral_systems(&records, &homes, 0).is_empty());
}
