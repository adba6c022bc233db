use ti4_engine::state::{GameState, Seat, SystemState, Unit};
use ti4_engine::choice::ChoiceOption;
use ti4_engine::transactions::{
    are_neighbours, available_actions, faction_name, neighbours, neighbours_who_transacted, note_option_price, offer_from, offer_options,
    opens_with, pair, partners, presence, resolve, trades_action_cards, why_illegal, Galaxy, Offer, OfferError,
    Terms, TradeWindow, Traded, ANSWER_KIND, OFFER_KIND,
};

fn seat(id: &str, faction: &str) -> Seat {
    Seat {
        id: id.to_string(),
        faction: faction.to_string(),
        tactic_tokens: 3,
        fleet_tokens: 3,
        strategic_tokens: 2,
        trade_goods: 0,
        commodities: 0,
        victory_points: 0,
        relic_fragments: vec![],
        action_cards: vec![],
        secret_objectives: vec![],
        notes: vec![],
        abilities: vec![],
        technologies: vec![],
        captured_units: vec![],
        breakthrough: None,
        strategy_cards: vec![],
        exhausted_strategy_cards: vec![],
        gravity_drive_used_activation: None,
        exhausted_technologies: vec![],
        passed: false,
        stability: false,
        exhausted_relics: vec![],
        home_system: None,
        home_planets: vec![],
        leaders: vec![],
    }
}

fn system(id: &str) -> SystemState {
    SystemState { id: id.to_string(), units: vec![], planet_units: vec![], planet_control: vec![], command_tokens: vec![] }
}

/// A centre with six systems around it; each outer system touches the centre and its two
/// neighbours on the ring.
fn hub() -> Galaxy {
    let mut adjacency = Vec::new();
    for i in 0..6 {
        let here = format!("o{i}");
        let next = format!("o{}", (i + 1) % 6);
        for (x, y) in [("c".to_string(), here.clone()), (here.clone(), next.clone())] {
            adjacency.push((x.clone(), y.clone()));
            adjacency.push((y, x));
        }
    }
    Galaxy { adjacency }
}

fn game() -> GameState {
    let mut board = vec![system("c")];
    for i in 0..6 {
        board.push(system(&format!("o{i}")));
    }
    GameState {
        players: vec![seat("a", "generic"), seat("b", "generic")],
        board,
        seating_order: vec!["a".to_string(), "b".to_string()],
        transactions_this_round: vec![],
        transacted_this_turn: vec![],
        black_market: false,
        active_system: None,
        pending: None,
        activation_seq: 0,
        exhausted_planets: vec![],
        phase: ti4_engine::state::Phase::Action,
        finished: false,
        objective_deck: vec![],
        revealed_objectives: vec![],
        speaker: String::new(),
        agenda_deck: vec![],
        expedition_slices: vec![],
        placed_planets: vec![],
        thunders_edge_system: None,
        action_card_deck: vec![],
    }
}

fn put(state: &mut GameState, system: &str, unit: &str, owner: &str, count: usize) {
    let at = state.board.iter_mut().find(|s| s.id == system).unwrap();
    for _ in 0..count {
        at.units.push(Unit { type_id: unit.to_string(), owner: owner.to_string(), sustained_damage: false, galvanized: false });
    }
}

fn player<'a>(state: &'a GameState, id: &str) -> &'a Seat {
    state.players.iter().find(|s| s.id == id).unwrap()
}

fn player_mut<'a>(state: &'a mut GameState, id: &str) -> &'a mut Seat {
    state.players.iter_mut().find(|s| s.id == id).unwrap()
}

fn goods(n: i32) -> Terms {
    Terms { trade_goods: n, ..Terms::default() }
}

fn commodities(n: i32) -> Terms {
    Terms { commodities: n, ..Terms::default() }
}

fn card(id: &str) -> Terms {
    Terms { action_card: Some(id.to_string()), ..Terms::default() }
}

fn offer(given: Terms, received: Terms) -> Offer {
    Offer { proposer: "a".to_string(), partner: "b".to_string(), given, received }
}

/// Two neighbours in the centre with something to trade: a is Hacan (Arbiters), b Jol-Nar.
fn trading_partners() -> GameState {
    let mut state = game();
    put(&mut state, "c", "cruiser", "a", 1);
    put(&mut state, "c", "cruiser", "b", 1);
    for id in ["a", "b"] {
        let s = player_mut(&mut state, id);
        s.trade_goods = 2;
        s.commodities = 3;
    }
    player_mut(&mut state, "a").faction = "hacan".to_string();
    player_mut(&mut state, "a").abilities = vec!["arbiters".to_string()];
    player_mut(&mut state, "b").faction = "jolnar".to_string();
    state
}

#[test]
fn players_in_the_same_system_are_neighbours() {
    let mut state = game();
    put(&mut state, "c", "cruiser", "a", 1);
    put(&mut state, "c", "cruiser", "b", 1);
    assert!(are_neighbours(&state, &hub(), "a", "b"));
}

#[test]
fn players_in_adjacent_systems_are_neighbours() {
    let mut state = game();
    put(&mut state, "c", "cruiser", "a", 1);
    put(&mut state, "o0", "cruiser", "b", 1);
    assert!(are_neighbours(&state, &hub(), "a", "b"));
}

#[test]
fn players_two_systems_apart_are_not() {
    let mut state = game();
    put(&mut state, "o0", "cruiser", "a", 1);
    put(&mut state, "o3", "cruiser", "b", 1);
    assert!(!are_neighbours(&state, &hub(), "a", "b"));
}

#[test]
fn a_player_is_not_their_own_neighbour() {
    let mut state = game();
    put(&mut state, "c", "cruiser", "a", 1);
    assert!(!are_neighbours(&state, &hub(), "a", "a"));
}

#[test]
fn a_controlled_planet_counts_as_presence() {
    let mut state = game();
    state.board[1].planet_control.push(("p".to_string(), "b".to_string()));
    put(&mut state, "c", "cruiser", "a", 1);
    assert_eq!(presence(&state, "b"), vec!["o0".to_string()]);
    assert!(are_neighbours(&state, &hub(), "a", "b"));
}

#[test]
fn a_commodity_becomes_a_trade_good_when_it_changes_hands() {
    let mut state = game();
    put(&mut state, "c", "cruiser", "a", 1);
    put(&mut state, "c", "cruiser", "b", 1);
    player_mut(&mut state, "a").commodities = 3;

    resolve(&mut state, &hub(), &offer(commodities(3), Terms::default())).unwrap();

    assert_eq!(player(&state, "a").commodities, 0);
    assert_eq!(player(&state, "b").commodities, 0, "it did not arrive as a commodity");
    assert_eq!(player(&state, "b").trade_goods, 3, "it arrived as trade goods");
    assert_eq!(state.transactions_this_round, vec![("a".to_string(), "b".to_string())]);
}

#[test]
fn a_deal_between_strangers_is_refused() {
    let mut state = game();
    put(&mut state, "o0", "cruiser", "a", 1);
    put(&mut state, "o3", "cruiser", "b", 1);
    player_mut(&mut state, "a").trade_goods = 5;
    let before = state.clone();

    assert_eq!(
        resolve(&mut state, &hub(), &offer(goods(2), Terms::default())),
        Err(OfferError::NotNeighbours("a".to_string(), "b".to_string()))
    );
    assert_eq!(state, before, "nothing changed hands");
}

#[test]
fn a_deal_nobody_can_pay_changes_nothing() {
    let mut state = game();
    put(&mut state, "c", "cruiser", "a", 1);
    put(&mut state, "c", "cruiser", "b", 1);
    let before = state.clone();

    assert_eq!(
        resolve(&mut state, &hub(), &offer(goods(99), Terms::default())),
        Err(OfferError::CannotPay("a".to_string()))
    );
    assert_eq!(state, before);
}

#[test]
fn a_deal_cannot_be_paid_for_with_what_it_receives() {
    let mut state = game();
    put(&mut state, "c", "cruiser", "a", 1);
    put(&mut state, "c", "cruiser", "b", 1);
    player_mut(&mut state, "b").trade_goods = 4;

    assert_eq!(
        resolve(&mut state, &hub(), &offer(goods(2), goods(4))),
        Err(OfferError::CannotPay("a".to_string())),
        "a holds nothing, so cannot give two whatever b is sending"
    );
}

#[test]
fn fragments_change_hands_by_trait() {
    let mut state = game();
    put(&mut state, "c", "cruiser", "a", 1);
    put(&mut state, "c", "cruiser", "b", 1);
    player_mut(&mut state, "a").relic_fragments.push("CULTURAL".to_string());

    let given = Terms { fragments: vec!["CULTURAL".to_owned()], ..Terms::default() };
    resolve(&mut state, &hub(), &offer(given, Terms::default())).unwrap();

    assert!(player(&state, "a").relic_fragments.is_empty());
    assert_eq!(player(&state, "b").relic_fragments, vec!["CULTURAL".to_string()]);
}

#[test]
fn a_player_cannot_transact_with_themselves() {
    let mut state = game();
    let deal = Offer { proposer: "a".to_string(), partner: "a".to_string(), given: Terms::default(), received: Terms::default() };
    assert_eq!(resolve(&mut state, &hub(), &deal), Err(OfferError::SamePlayer));
}

#[test]
fn an_empty_deal_is_refused() {
    let mut state = trading_partners();
    assert_eq!(
        resolve(&mut state, &hub(), &offer(Terms::default(), Terms::default())),
        Err(OfferError::Empty)
    );
}

#[test]
fn a_deal_with_an_unseated_player_is_refused() {
    let mut state = trading_partners();
    let deal = Offer { proposer: "a".to_string(), partner: "z".to_string(), given: goods(1), received: Terms::default() };
    assert_eq!(resolve(&mut state, &hub(), &deal), Err(OfferError::PlayerMissing("z".to_string())));
}

#[test]
fn a_commodity_swap_pays_both_sides() {
    let mut state = trading_partners();
    let deal = offer_from(&state, "cc3", "a", "b").unwrap();
    resolve(&mut state, &hub(), &deal).unwrap();
    for id in ["a", "b"] {
        assert_eq!(player(&state, id).commodities, 0, "{id} handed their commodities over");
        assert_eq!(player(&state, id).trade_goods, 5, "{id} banked 2 + 3 traded goods");
    }
}

#[test]
fn swapping_support_scores_both_sides() {
    let mut state = trading_partners();
    player_mut(&mut state, "a").notes.push("support:hacan".to_string());
    player_mut(&mut state, "b").notes.push("support:jolnar".to_string());
    let deal = offer_from(&state, "ss", "a", "b").unwrap();
    assert_eq!(deal.given.promissory.as_deref(), Some("support:hacan"));
    assert_eq!(deal.received.promissory.as_deref(), Some("support:jolnar"));

    resolve(&mut state, &hub(), &deal).unwrap();
    assert_eq!(player(&state, "a").victory_points, 1);
    assert_eq!(player(&state, "b").victory_points, 1);
    assert!(player(&state, "a").notes.is_empty(), "support goes to the play area, not the hand");
}

#[test]
fn a_note_actually_changes_hands_when_it_is_sold() {
    let mut state = trading_partners();
    player_mut(&mut state, "a").notes.push("cf:hacan".to_string());
    let deal = offer_from(&state, "pncf:hacan:2", "a", "b").unwrap();
    resolve(&mut state, &hub(), &deal).unwrap();
    assert!(player(&state, "a").notes.is_empty(), "no longer a's to sell again");
    assert_eq!(player(&state, "b").notes, vec!["cf:hacan".to_string()]);
    assert_eq!(player(&state, "a").trade_goods, 4);
    assert_eq!(player(&state, "b").trade_goods, 0);
}

#[test]
fn note_option_prices_follow_the_oracle_table() {
    assert_eq!(note_option_price("cf:hacan"), 2);
    assert_eq!(note_option_price("ps:letnev"), 2);
    assert_eq!(note_option_price("ta:sol"), 2, "flat row, not the live table");
    assert_eq!(note_option_price("ra:jolnar"), 4);
    assert_eq!(note_option_price("an:xxcha"), 3);
    assert_eq!(note_option_price("convoys:hacan"), 3);
    assert_eq!(note_option_price("ce:l1z1x"), 2);
    assert_eq!(note_option_price("ms:sol"), 2);
    assert_eq!(note_option_price("favor:xxcha"), 2);
    assert_eq!(note_option_price("war_funding:letnev"), 2);
    assert_eq!(note_option_price("support:hacan"), 4);
}

#[test]
fn an_unlisted_note_prices_at_the_default_row() {
    // One and a half rounds half to even: two.
    assert_eq!(note_option_price("mystery:sol"), 2);
    assert_eq!(note_option_price("plain"), 2);
}

#[test]
fn a_note_gift_parses_back_into_a_free_transfer() {
    let state = trading_partners();
    let deal = offer_from(&state, "pnra:jolnar:0", "b", "a").expect("a gift is a shape");
    assert_eq!(deal.given.promissory.as_deref(), Some("ra:jolnar"));
    assert_eq!(deal.received.trade_goods, 0, "nothing comes back");
    assert!(deal.received.promissory.is_none(), "and it is a gift, not a swap");
}

#[test]
fn a_priced_note_id_parses_back_into_the_same_deal() {
    let state = trading_partners();
    for id in ["pncf:hacan:2", "pnra:jolnar:4", "pnconvoys:hacan:3"] {
        let deal = offer_from(&state, id, "a", "b").expect("recognised shape");
        let (note, price) = id[2..].rsplit_once(':').expect("priced note id");
        assert_eq!(deal.given.promissory.as_deref(), Some(note));
        assert_eq!(deal.received.trade_goods, price.parse::<i32>().unwrap());
    }
    assert!(offer_from(&state, "pncf:hacan", "a", "b").is_none());
}

#[test]
fn a_gift_is_not_a_swap() {
    let state = trading_partners();
    let gift = offer_from(&state, "c3:0", "a", "b").unwrap();
    assert_eq!(gift.given.commodities, 3);
    assert!(gift.received.is_empty(), "a gift asks for nothing back");

    let swap = offer_from(&state, "cc3", "a", "b").unwrap();
    assert_eq!(swap.given.commodities, 3);
    assert_eq!(swap.received.commodities, 3);
}

#[test]
fn every_shape_of_id_parses_to_its_deal() {
    let state = trading_partners();
    let ct = offer_from(&state, "ct3:2", "a", "b").unwrap();
    assert_eq!((ct.given.commodities, ct.received.trade_goods), (3, 2));
    let tc = offer_from(&state, "tc1:3", "a", "b").unwrap();
    assert_eq!((tc.given.trade_goods, tc.received.commodities), (1, 3));
    let plain = offer_from(&state, "2:1", "a", "b").unwrap();
    assert_eq!((plain.given.trade_goods, plain.received.trade_goods), (2, 1));
    let secret = offer_from(&state, "sosb:1", "a", "b").unwrap();
    assert_eq!(secret.given.secret.as_deref(), Some("sb"));
    let fragment = offer_from(&state, "frCULTURAL:1", "a", "b").unwrap();
    assert_eq!(fragment.given.fragments, vec!["CULTURAL".to_string()]);
    assert!(offer_from(&state, "garbage", "a", "b").is_none());
    assert!(offer_from(&state, "cc", "a", "b").is_none());
}

#[test]
fn terms_read_the_way_the_oracle_reads_them() {
    assert_eq!(Terms::default().describe(), "nothing");
    assert_eq!(goods(2).describe(), "2 trade goods");
    let full = Terms {
        trade_goods: 1,
        commodities: 3,
        fragments: vec!["engine".to_owned()],
        promissory: Some("cf:b".to_owned()),
        action_card: Some("emergency".to_string()),
        secret: Some("sb".to_string()),
    };
    assert_eq!(
        full.describe(),
        "1 trade goods, 3 commodities, 1 relic fragments, cf:b, the action card emergency, the secret objective sb"
    );
}

#[test]
fn the_offer_prompt_names_the_faction_and_every_term() {
    let state = trading_partners();
    let deal = offer(goods(1), commodities(2));
    assert_eq!(deal.describe(&state), "hacan gives 1 trade goods for 2 commodities");
    assert_eq!(faction_name(&state, "b"), "jolnar");
    assert_eq!(faction_name(&state, "z"), "z", "an unseated player goes by their id");
}

#[test]
fn the_arbiters_ability_resolves_through_the_faction_record() {
    let state = trading_partners();
    assert!(trades_action_cards(&state, "a"));
    assert!(!trades_action_cards(&state, "b"));
}

#[test]
fn card_terms_need_arbiters_at_the_table() {
    let mut state = trading_partners();
    player_mut(&mut state, "a").abilities.clear();
    for id in ["a", "b"] {
        player_mut(&mut state, id).action_cards.push("emergency".to_string());
    }
    let deal = offer(card("emergency"), goods(1));
    assert_eq!(why_illegal(&state, &hub(), &deal), Some(OfferError::ActionCardsNotTradeable));

    player_mut(&mut state, "a").abilities = vec!["arbiters".to_string()];
    assert_eq!(why_illegal(&state, &hub(), &deal), None);

    let mut state2 = trading_partners();
    player_mut(&mut state2, "b").action_cards.push("emergency".to_string());
    assert_eq!(
        why_illegal(&state2, &hub(), &deal),
        Some(OfferError::MissingActionCard("a".to_string(), "emergency".to_owned()))
    );
}

#[test]
fn black_market_dealings_open_the_card_trade() {
    let mut state = trading_partners();
    player_mut(&mut state, "a").abilities.clear();
    player_mut(&mut state, "a").action_cards.push("emergency".to_string());
    state.black_market = true;
    assert_eq!(why_illegal(&state, &hub(), &offer(card("emergency"), goods(1))), None);
}

#[test]
fn a_priced_card_id_parses_back_into_the_same_deal() {
    let state = trading_partners();
    for id in ["acemergency:1", "achack:1"] {
        let deal = offer_from(&state, id, "a", "b").expect("the id names a deal");
        let expected = &id[2..id.len() - 2];
        assert_eq!(deal.given.action_card.as_deref(), Some(expected));
    }
    let deal = offer_from(&state, "acemergency:1", "a", "b").unwrap();
    assert_eq!(deal.received.trade_goods, 1);
    assert!(offer_from(&state, "acemergency", "a", "b").is_none());
}

#[test]
fn an_action_card_trade_moves_the_card_and_the_goods() {
    let mut state = trading_partners();
    player_mut(&mut state, "a").action_cards.push("emergency".to_string());
    resolve(&mut state, &hub(), &offer(card("emergency"), goods(1))).expect("legal: arbiters at the table");

    assert!(player(&state, "a").action_cards.is_empty());
    assert_eq!(player(&state, "b").action_cards, vec!["emergency".to_string()]);
    assert_eq!(player(&state, "a").trade_goods, 3);
    assert_eq!(player(&state, "b").trade_goods, 1);
}

#[test]
fn a_pair_of_numbers_splits_at_the_first_colon() {
    assert_eq!(pair("3:2"), Some((3, 2)));
    assert_eq!(pair("-1:+4"), Some((-1, 4)));
    assert_eq!(pair("3"), None);
    assert_eq!(pair("3:x"), None);
    assert_eq!(pair("1:2:3"), None);
}

fn ids(options: &[ChoiceOption]) -> Vec<String> {
    options.iter().map(|o| o.id.clone()).collect()
}

#[test]
fn opening_a_transaction_spends_the_pair_for_the_turn() {
    let mut state = trading_partners();
    assert_eq!(available_actions(&state, &hub(), "a", false).len(), 1, "b is a neighbour and has not been dealt with");

    let mut window = TradeWindow::open(&mut state, "a", "b");
    let choice = window.pending_choice(&state).expect("a deal to propose");
    window.resolve(&mut state, &hub(), &ChoiceOption::decline());

    assert!(window.is_complete(), "declining to offer ends the negotiation");
    assert!(available_actions(&state, &hub(), "a", false).is_empty(), "the opportunity is gone even though no deal was struck");
    assert!(choice.options.iter().any(|o| o.id == "cc3"), "a swap was on the table");
}

#[test]
fn opening_a_transaction_names_the_partners_faction() {
    let state = trading_partners();
    let options = available_actions(&state, &hub(), "a", false);
    assert_eq!(options[0].id, "component|trade|jolnar");
    assert_eq!(options[0].label, "open a transaction with jolnar");
    assert_eq!(opens_with(&state, &options[0]), Some("b".to_string()));
    assert_eq!(opens_with(&state, &ChoiceOption::new("component|trade|nobody", "open_transaction")), None);
    assert_eq!(opens_with(&state, &ChoiceOption::new("cc3", OFFER_KIND)), None);
}

#[test]
fn a_commodity_swap_through_the_window_pays_both_sides() {
    let mut state = trading_partners();
    let mut window = TradeWindow::open(&mut state, "a", "b");
    let offered = window.resolve(&mut state, &hub(), &ChoiceOption::labelled("cc3", OFFER_KIND, ""));
    assert_eq!(offered, Traded::Offered);
    let answering = window.pending_choice(&state).expect("b answers");
    assert_eq!(answering.player, "b");
    assert_eq!(answering.prompt, "hacan gives 3 commodities for 3 commodities -- accept?");

    let outcome = window.resolve(&mut state, &hub(), &ChoiceOption::labelled("accept", ANSWER_KIND, ""));
    assert_eq!(outcome, Traded::Resolved);
    for id in ["a", "b"] {
        assert_eq!(player(&state, id).commodities, 0);
        assert_eq!(player(&state, id).trade_goods, 5);
    }
    assert!(window.is_complete());
}

#[test]
fn a_counter_is_the_same_deal_from_the_other_chair() {
    let mut state = trading_partners();
    let mut window = TradeWindow::open(&mut state, "a", "b");
    window.resolve(&mut state, &hub(), &ChoiceOption::labelled("cc3", OFFER_KIND, ""));
    let outcome = window.resolve(&mut state, &hub(), &ChoiceOption::labelled("counter", ANSWER_KIND, ""));
    assert_eq!(outcome, Traded::Countered);
    let counter = window.pending_choice(&state).expect("b now proposes");
    assert_eq!(counter.player, "b", "the counter comes from the other side");
}

#[test]
fn haggling_is_bounded() {
    let mut state = trading_partners();
    let mut window = TradeWindow::open(&mut state, "a", "b");
    let offer = ChoiceOption::labelled("cc3", OFFER_KIND, "");
    let counter = ChoiceOption::labelled("counter", ANSWER_KIND, "");
    window.resolve(&mut state, &hub(), &offer);
    window.resolve(&mut state, &hub(), &counter);
    window.resolve(&mut state, &hub(), &offer);
    let outcome = window.resolve(&mut state, &hub(), &counter);
    assert_eq!(outcome, Traded::NothingOffered);
    assert!(window.is_complete(), "the second counter ends it");
}

#[test]
fn a_refused_offer_ends_the_talks_and_moves_nothing() {
    let mut state = trading_partners();
    let mut window = TradeWindow::open(&mut state, "a", "b");
    window.resolve(&mut state, &hub(), &ChoiceOption::labelled("cc3", OFFER_KIND, ""));
    let before = state.clone();
    let outcome = window.resolve(&mut state, &hub(), &ChoiceOption::labelled("refuse", "decline", "refuse"));
    assert_eq!(outcome, Traded::Refused);
    assert_eq!(state, before);
    assert!(window.is_complete());
}

#[test]
fn an_offer_that_cannot_be_paid_is_rejected_before_the_partner_sees_it() {
    let mut state = trading_partners();
    let mut window = TradeWindow::open(&mut state, "a", "b");
    let outcome = window.resolve(&mut state, &hub(), &ChoiceOption::labelled("9:0", OFFER_KIND, ""));
    assert_eq!(outcome, Traded::Rejected(OfferError::CannotPay("a".to_string())));
    assert!(window.is_complete());
}

#[test]
fn note_sales_carry_their_own_price_in_id_and_label() {
    let mut state = trading_partners();
    player_mut(&mut state, "b").trade_goods = 6;
    player_mut(&mut state, "a").notes =
        vec!["cf:hacan".to_string(), "convoys:hacan".to_string(), "ps:hacan".to_string(), "ta:hacan".to_string()];
    let offers = offer_options(&state, "a", "b");
    let notes: Vec<String> = ids(&offers).into_iter().filter(|id| id.starts_with("pn")).collect();
    assert_eq!(notes, vec!["pncf:hacan:2", "pnconvoys:hacan:3", "pnps:hacan:2", "pnta:hacan:2"]);
    let cf = offers.iter().find(|o| o.id == "pncf:hacan:2").unwrap();
    assert_eq!(cf.label, "sell cf:hacan for 2 trade goods");
}

#[test]
fn note_sales_require_the_partner_to_afford_the_live_price() {
    let mut state = trading_partners();
    player_mut(&mut state, "b").notes = vec!["ra:jolnar".to_string()];
    player_mut(&mut state, "a").trade_goods = 3;
    let offers = offer_options(&state, "b", "a");
    assert!(!offers.iter().any(|o| o.id.ends_with(":4")), "the Research Agreement costs 4 and the partner holds 3");
    assert!(offers.iter().any(|o| o.id == "pnra:jolnar:0"), "but a gift is still on the table");

    player_mut(&mut state, "a").trade_goods = 4;
    let offers = offer_options(&state, "b", "a");
    assert!(offers.iter().any(|o| o.id == "pnra:jolnar:4"));
}

#[test]
fn support_is_offered_only_while_both_sides_hold_their_own() {
    let mut state = trading_partners();
    player_mut(&mut state, "a").notes = vec!["support:hacan".to_string()];
    assert!(!ids(&offer_options(&state, "a", "b")).contains(&"ss".to_string()), "b has lent theirs out");
    player_mut(&mut state, "b").notes = vec!["support:jolnar".to_string()];
    let offers = offer_options(&state, "a", "b");
    assert_eq!(offers[0].id, "ss");
    assert!(!offers.iter().any(|o| o.id.starts_with("pnsupport")), "support is swapped, never sold");
}

#[test]
fn arbiters_offer_the_first_sorted_card_for_one_trade_good() {
    let mut state = trading_partners();
    player_mut(&mut state, "a").action_cards = vec!["hack".to_string(), "emergency".to_string()];
    let options = offer_options(&state, "a", "b");
    let ac: Vec<&ChoiceOption> = options.iter().filter(|o| o.id.starts_with("ac")).collect();
    assert_eq!(ac.len(), 1, "exactly one card option");
    assert_eq!(ac[0].id, "acemergency:1", "the sorted head of the hand");
    assert_eq!(ac[0].label, "sell the action card emergency for 1 trade good");

    player_mut(&mut state, "a").action_cards.clear();
    assert!(offer_options(&state, "a", "b").iter().all(|o| !o.id.starts_with("ac")));

    player_mut(&mut state, "a").action_cards.push("emergency".to_string());
    player_mut(&mut state, "b").trade_goods = 0;
    assert!(offer_options(&state, "a", "b").iter().all(|o| !o.id.starts_with("ac")));
}

#[test]
fn black_market_dealings_put_secrets_and_fragments_on_the_table() {
    let mut state = trading_partners();
    state.black_market = true;
    player_mut(&mut state, "a").secret_objectives = vec!["sb".to_string()];
    player_mut(&mut state, "a").relic_fragments = vec!["CULTURAL".to_string(), "CULTURAL".to_string(), "HAZARDOUS".to_string()];
    let found = ids(&offer_options(&state, "a", "b"));
    assert!(found.contains(&"sosb:1".to_string()));
    assert_eq!(found.iter().filter(|id| id.starts_with("fr")).count(), 2, "one option per trait held");
}

#[test]
fn every_offered_option_is_a_deal_that_can_be_paid_for() {
    let mut state = trading_partners();
    player_mut(&mut state, "b").trade_goods = 0;
    for option in offer_options(&state, "a", "b") {
        let offer = offer_from(&state, &option.id, "a", "b").unwrap_or_else(|| panic!("{} does not parse back", option.id));
        assert_eq!(why_illegal(&state, &hub(), &offer), None, "{} was offered but cannot be paid for", option.id);
    }
}

#[test]
fn nothing_for_nothing_is_never_offered() {
    let state = trading_partners();
    for option in offer_options(&state, "a", "b") {
        let offer = offer_from(&state, &option.id, "a", "b").unwrap();
        assert!(!(offer.given.is_empty() && offer.received.is_empty()), "{} exchanges nothing", option.id);
    }
}

#[test]
fn no_deal_shape_is_written_twice() {
    let state = trading_partners();
    let options = offer_options(&state, "a", "b");
    let mut deals: Vec<String> = options
        .iter()
        .map(|option| {
            let offer = offer_from(&state, &option.id, "a", "b").unwrap();
            format!("{:?}", (offer.given, offer.received))
        })
        .collect();
    let before = deals.len();
    deals.sort();
    deals.dedup();
    assert_eq!(before, deals.len(), "a deal shape appears more than once");
}

#[test]
fn the_offer_list_follows_the_table_order() {
    let state = trading_partners();
    let found = ids(&offer_options(&state, "a", "b"));
    assert_eq!(
        found,
        vec![
            "cc3", "cc1", "ct3:2", "tc2:3", "0:1", "0:2", "1:0", "1:1", "1:2", "2:0", "2:1", "2:2", "c3:0"
        ]
    );
}

#[test]
fn neighbours_are_listed_in_seating_order() {
    let mut state = trading_partners();
    state.players.push(seat("c", "sol"));
    state.seating_order.push("c".to_string());
    put(&mut state, "o3", "cruiser", "c", 1);
    assert_eq!(neighbours(&state, &hub(), "a"), vec!["b".to_string(), "c".to_string()]);
    assert_eq!(neighbours(&state, &hub(), "b"), vec!["a".to_string(), "c".to_string()]);
    let mut far = trading_partners();
    far.players.push(seat("c", "sol"));
    far.seating_order.push("c".to_string());
    far.board[0].units.retain(|u| u.owner != "b");
    put(&mut far, "o3", "cruiser", "b", 1);
    put(&mut far, "o0", "cruiser", "c", 1);
    assert_eq!(neighbours(&far, &hub(), "c"), vec!["a".to_string()]);
    assert_eq!(partners(&far, &hub(), "c", true), vec!["a".to_string(), "b".to_string()], "guild ships reach the whole table");
}

#[test]
fn a_neighbour_who_traded_twice_counts_once() {
    let mut state = game();
    put(&mut state, "c", "cruiser", "a", 1);
    put(&mut state, "c", "cruiser", "b", 1);
    put(&mut state, "o3", "cruiser", "c", 1);
    state.transactions_this_round = vec![
        ("b".to_string(), "a".to_string()),
        ("a".to_string(), "b".to_string()),
        ("c".to_string(), "b".to_string()),
    ];
    assert_eq!(neighbours_who_transacted(&state, &hub(), "a"), vec!["b".to_string()]);
}

#[test]
fn no_deal_is_offered_twice_and_each_moves_something() {
    let mut state = trading_partners();
    player_mut(&mut state, "a").notes = vec!["support:hacan".to_string(), "cf:hacan".to_string(), "ta:hacan".to_string()];
    player_mut(&mut state, "b").notes = vec!["support:jolnar".to_string()];
    player_mut(&mut state, "a").action_cards = vec!["sabotage".to_string()];
    player_mut(&mut state, "a").commodities = 3;
    player_mut(&mut state, "b").commodities = 2;
    let offers = offer_options(&state, "a", "b");
    let all = ids(&offers);
    for (i, id) in all.iter().enumerate() {
        assert!(!all[i + 1..].contains(id), "{id} is offered twice");
        let deal = offer_from(&state, id, "a", "b").unwrap();
        assert!(deal.given != Terms::default() || deal.received != Terms::default(), "{id} moves nothing");
    }
    assert!(all.contains(&"cc2".to_string()) && all.contains(&"cc1".to_string()));
}
