//! Strategy-card constants and the cards this engine resolves (LRR 52, 91, 92).

use vstd::prelude::*;
use crate::choice::{answered_index, first_answered, first_named, none_answered, offered, option_views, validate, Choice, ChoiceOption, IllegalChoice, OptionView};
use crate::seating::MECATOL;
use crate::state::{
    board_fits, contains_name, find_seat, names, reinforcements, remove_first, seat_of, seat_valid, sheet_total, with_token, without_first, GameState, Phase, Seat,
    SystemState, Unit,
};
use crate::tokens::{lemma_pool_offered, pool_for, pool_named_kind, pool_options, pool_options_view, GAIN_PROMPT};
use crate::tech_windows::{
    all_but, controlled, controlled_planets, decline_view, find_system, give_token, moved_token, moves_of, pair_ints, pair_names, pool_held,
    pool_label, pool_name, pools_have_room, redistribution_pairs, system_index, take_token, with_name,
};
use crate::technology::{insert_sorted, sorted_names};
use crate::text::{find_char, find_from, str_eq};
use crate::transit::{board_view, unit_view, units_view, view_index, SystemView};
use crate::rng::name_lt;

verus! {

/// Command tokens the Leadership primary gains.
pub const LEADERSHIP_TOKENS: u32 = 3;
/// Influence one Leadership token costs.
pub const INFLUENCE_PER_TOKEN: i64 = 3;
/// What a second technology costs through the Technology primary.
pub const TECHNOLOGY_PRIMARY_SECOND_COST: i64 = 6;
/// What the Technology secondary costs.
pub const TECHNOLOGY_SECONDARY_COST: i64 = 4;
/// The choice kind for picking a technology to research.
pub const RESEARCH_KIND: &'static str = "research";

/// Result of a primary. Thunder's Edge Warfare hands its free activation back to the game
/// driver.
#[derive(Debug, Clone, PartialEq, Eq)]
pub enum Ability {
    Resolved,
    Unresolved,
    FreeTactical(String),
}

/// The eight ordinary strategy cards, in initiative order.
pub open spec fn spec_registered_cards() -> Seq<Seq<char>> {
    seq![
        "Leadership"@,
        "Diplomacy"@,
        "Politics"@,
        "Construction"@,
        "Trade"@,
        "Warfare"@,
        "Technology"@,
        "Imperial"@,
    ]
}

/// The cards whose primary and secondary this engine resolves, in initiative order.
pub fn registered_cards() -> (cards: Vec<&'static str>)
    ensures
        cards@.map_values(|c: &str| c@) == spec_registered_cards(),
{
    let cards = vec![
        "Leadership",
        "Diplomacy",
        "Politics",
        "Construction",
        "Trade",
        "Warfare",
        "Technology",
        "Imperial",
    ];
    assert(cards@.map_values(|c: &str| c@) =~= spec_registered_cards());
    cards
}

/// Whether a follower can afford a Leadership token: the affordability is the whole gate.
pub fn leadership_influence_eligible(available_influence: i64) -> (eligible: bool)
    ensures
        eligible == (available_influence >= INFLUENCE_PER_TOKEN),
{
    available_influence >= INFLUENCE_PER_TOKEN
}

/// The exhausted planets among a list of controlled planets, in order.
pub open spec fn exhausted_among(state: GameState, held: Seq<(Seq<char>, Seq<char>)>) -> Seq<Seq<char>>
    decreases held.len(),
{
    if held.len() == 0 {
        Seq::empty()
    } else if names(state.exhausted_planets@).contains(held.last().1) {
        exhausted_among(state, held.drop_last()).push(held.last().1)
    } else {
        exhausted_among(state, held.drop_last())
    }
}

/// The exhausted planets a player controls, in board order.
pub open spec fn exhausted_held(state: GameState, player: Seq<char>) -> Seq<Seq<char>> {
    exhausted_among(state, controlled(state.board@, player))
}

/// The option that readies a planet.
pub open spec fn ready_view(planet: Seq<char>) -> OptionView {
    OptionView { id: planet, kind: "ready"@, label: "ready "@ + planet }
}

/// The prompt of the readying question.
pub const READY_PROMPT: &'static str = "ready which planet";

/// Whether a choice is the readying question a player faces: each exhausted planet they
/// control, and no decline.
pub open spec fn is_ready_choice(c: Choice, state: GameState, player: Seq<char>) -> bool {
    &&& c.player@ == player
    &&& c.prompt@ == READY_PROMPT@
    &&& option_views(c.options@) == exhausted_held(state, player).map_values(|p: Seq<char>| ready_view(p))
}

/// The readying question of Diplomacy: ready one exhausted planet the player controls. It
/// offers no decline; there is no question when nothing is exhausted.
pub fn ready_choice(state: &GameState, player: &str) -> (choice: Option<Choice>)
    ensures
        (choice is Some) == (exhausted_held(*state, player@).len() > 0),
        choice matches Some(c) ==> is_ready_choice(c, *state, player@),
{
    let held = controlled_planets(state, player);
    let ghost all = pair_names(held@);
    let mut options: Vec<ChoiceOption> = Vec::new();
    let mut k: usize = 0;
    while k < held.len()
        invariant
            k <= held@.len(),
            all == pair_names(held@),
            all == controlled(state.board@, player@),
            option_views(options@) == exhausted_among(*state, all.subrange(0, k as int)).map_values(|p: Seq<char>| ready_view(p)),
        decreases held@.len() - k,
    {
        proof {
            assert(all.subrange(0, k + 1).drop_last() =~= all.subrange(0, k as int));
        }
        let planet = held[k].1.as_str();
        if contains_name(&state.exhausted_planets, planet) {
            let label = "ready ".to_string().concat(planet);
            let ghost was = option_views(options@);
            options.push(ChoiceOption::labelled(planet, "ready", label.as_str()));
            assert(option_views(options@) =~= was.push(ready_view(planet@)));
            assert(exhausted_among(*state, all.subrange(0, k + 1)).map_values(|p: Seq<char>| ready_view(p)) =~= exhausted_among(
                *state,
                all.subrange(0, k as int),
            ).map_values(|p: Seq<char>| ready_view(p)).push(ready_view(planet@)));
        }
        k = k + 1;
    }
    assert(all.subrange(0, k as int) =~= all);
    if options.len() == 0 {
        return None;
    }
    Some(Choice::new(player, READY_PROMPT, options))
}

/// What answering the readying question does: the chosen planet is readied.
pub open spec fn readied(before: GameState, after: GameState, player: Seq<char>, answer: OptionView, result: Result<(), IllegalChoice>) -> bool {
    let planets = exhausted_held(before, player);
    let views = planets.map_values(|p: Seq<char>| ready_view(p));
    if planets.len() == 0 || none_answered(views, answer) {
        result matches Err(e) && e.player@ == player && e.answered@ == answer.id && after == before
    } else {
        exists|k: int| #[trigger] first_answered(views, k, answer) && {
            &&& result is Ok
            &&& names(after.exhausted_planets@) == without_first(names(before.exhausted_planets@), planets[k])
            &&& after == (GameState { exhausted_planets: after.exhausted_planets, ..before })
        }
    }
}

/// Take an answer to the readying question.
pub fn ready_answer(state: &mut GameState, player: &str, answer: ChoiceOption) -> (result: Result<(), IllegalChoice>)
    ensures
        readied(*old(state), *final(state), player@, answer@, result),
{
    let choice = match ready_choice(state, player) {
        Some(c) => c,
        None => return Err(IllegalChoice { player: player.to_string(), answered: answer.id }),
    };
    let ghost views = option_views(choice.options@);
    let k = match answered_index(&choice, &answer) {
        Some(k) => k,
        None => return Err(IllegalChoice { player: player.to_string(), answered: answer.id }),
    };
    assert(first_answered(views, k as int, answer@));
    let planet = choice.options[k].id.clone();
    remove_first(&mut state.exhausted_planets, planet.as_str());
    Ok(())
}

/// The systems, other than Mecatol Rex, in which a player controls a planet.
pub open spec fn diplomacy_candidates(state: GameState, player: Seq<char>) -> Set<Seq<char>> {
    controlled(state.board@, player).map_values(|c: (Seq<char>, Seq<char>)| c.0).filter(|s: Seq<char>| s != MECATOL@).to_set()
}

/// A name list is sorted, each name once, and holds exactly a set.
pub open spec fn sorted_set(list: Seq<Seq<char>>, set: Set<Seq<char>>) -> bool {
    sorted_names(list) && list.no_duplicates() && list.to_set() == set
}

/// A sorted list holding each name of a set once is the only one: two such lists are equal.
pub proof fn lemma_sorted_set_unique(a: Seq<Seq<char>>, b: Seq<Seq<char>>, set: Set<Seq<char>>)
    requires
        sorted_set(a, set),
        sorted_set(b, set),
    ensures
        a == b,
    decreases a.len(),
{
    if a.len() == 0 || b.len() == 0 {
        if b.len() > 0 {
            assert(b.to_set().contains(b[0]));
            assert(a.to_set().contains(b[0]));
        }
        if a.len() > 0 {
            assert(a.to_set().contains(a[0]));
            assert(b.to_set().contains(a[0]));
        }
        assert(a =~= b);
    } else {
        let x = a[0];
        let y = b[0];
        assert(a.to_set().contains(x));
        assert(b.to_set().contains(x));
        assert(b.to_set().contains(y));
        assert(a.to_set().contains(y));
        let j = choose|j: int| 0 <= j < b.len() && b[j] == x;
        let i = choose|i: int| 0 <= i < a.len() && a[i] == y;
        if x != y {
            crate::rng::lemma_name_lt_total(x, y);
            if j > 0 {
                assert(!name_lt(b[j], b[0]));
            }
            if i > 0 {
                assert(!name_lt(a[i], a[0]));
            }
        }
        assert(x == y);
        let ra = a.drop_first();
        let rb = b.drop_first();
        let rest = set.remove(x);
        assert(ra.to_set() =~= rest) by {
            assert forall|z: Seq<char>| ra.to_set().contains(z) <==> rest.contains(z) by {
                if ra.contains(z) {
                    let k = choose|k: int| 0 <= k < ra.len() && ra[k] == z;
                    assert(a[k + 1] == z);
                    assert(a.to_set().contains(z));
                    assert(z != x);
                }
                if rest.contains(z) {
                    assert(a.to_set().contains(z));
                    let k = choose|k: int| 0 <= k < a.len() && a[k] == z;
                    assert(k != 0);
                    assert(ra[k - 1] == z);
                }
            }
        }
        assert(rb.to_set() =~= rest) by {
            assert forall|z: Seq<char>| rb.to_set().contains(z) <==> rest.contains(z) by {
                if rb.contains(z) {
                    let k = choose|k: int| 0 <= k < rb.len() && rb[k] == z;
                    assert(b[k + 1] == z);
                    assert(b.to_set().contains(z));
                    assert(z != y);
                }
                if rest.contains(z) {
                    assert(b.to_set().contains(z));
                    let k = choose|k: int| 0 <= k < b.len() && b[k] == z;
                    assert(k != 0);
                    assert(rb[k - 1] == z);
                }
            }
        }
        assert(sorted_names(ra)) by {
            assert forall|p: int, q: int| 0 <= p < q < ra.len() implies !name_lt(#[trigger] ra[q], #[trigger] ra[p]) by {
                assert(ra[q] == a[q + 1] && ra[p] == a[p + 1]);
            }
        }
        assert(sorted_names(rb)) by {
            assert forall|p: int, q: int| 0 <= p < q < rb.len() implies !name_lt(#[trigger] rb[q], #[trigger] rb[p]) by {
                assert(rb[q] == b[q + 1] && rb[p] == b[p + 1]);
            }
        }
        lemma_sorted_set_unique(ra, rb, rest);
        assert(a =~= seq![x] + ra);
        assert(b =~= seq![y] + rb);
    }
}

pub(crate) fn add_sorted_distinct(list: &mut Vec<String>, name: &str)
    requires
        sorted_names(names(old(list)@)),
        names(old(list)@).no_duplicates(),
    ensures
        sorted_names(names(final(list)@)),
        names(final(list)@).no_duplicates(),
        forall|y: Seq<char>| names(final(list)@).contains(y) <==> (y == name@ || names(old(list)@).contains(y)),
{
    broadcast use vstd::multiset::group_multiset_axioms;
    if contains_name(list, name) {
        return;
    }
    let ghost before = names(list@);
    insert_sorted(list, name.to_string());
    let ghost after = names(list@);
    proof {
        before.lemma_multiset_has_no_duplicates();
        assert forall|y: Seq<char>| after.contains(y) <==> (y == name@ || before.contains(y)) by {
            vstd::seq_lib::to_multiset_contains(after, y);
            vstd::seq_lib::to_multiset_contains(before, y);
        }
        assert forall|x: Seq<char>| after.to_multiset().contains(x) implies after.to_multiset().count(x) == 1 by {
            vstd::seq_lib::to_multiset_contains(before, x);
        }
        after.lemma_multiset_has_no_duplicates_conv();
    }
}

/// The systems Diplomacy can lock: those other than Mecatol Rex in which the player controls a
/// planet, sorted, each once.
pub fn diplomacy_systems(state: &GameState, player: &str) -> (systems: Vec<String>)
    ensures
        sorted_set(names(systems@), diplomacy_candidates(*state, player@)),
{
    let held = controlled_planets(state, player);
    let ghost all = pair_names(held@);
    let ghost ids = all.map_values(|c: (Seq<char>, Seq<char>)| c.0);
    let ghost keep = |s: Seq<char>| s != MECATOL@;
    let mut systems: Vec<String> = Vec::new();
    let mut k: usize = 0;
    while k < held.len()
        invariant
            k <= held@.len(),
            all == pair_names(held@),
            ids == all.map_values(|c: (Seq<char>, Seq<char>)| c.0),
            keep == (|s: Seq<char>| s != MECATOL@),
            sorted_names(names(systems@)),
            names(systems@).no_duplicates(),
            forall|y: Seq<char>| names(systems@).contains(y) <==> (exists|j: int| 0 <= j < k && #[trigger] ids[j] == y && y != MECATOL@),
        decreases held@.len() - k,
    {
        let system = held[k].0.as_str();
        let ghost was = names(systems@);
        if !str_eq(system, MECATOL) {
            add_sorted_distinct(&mut systems, system);
        }
        proof {
            assert(ids[k as int] == system@);
            assert forall|y: Seq<char>| names(systems@).contains(y) <==> (exists|j: int| 0 <= j < k + 1 && #[trigger] ids[j] == y && y != MECATOL@) by {
                if names(systems@).contains(y) && !was.contains(y) {
                    assert(ids[k as int] == y);
                }
                if exists|j: int| 0 <= j < k + 1 && #[trigger] ids[j] == y && y != MECATOL@ {
                    let j = choose|j: int| 0 <= j < k + 1 && #[trigger] ids[j] == y && y != MECATOL@;
                    if j < k {
                        assert(was.contains(y));
                    }
                }
            }
        }
        k = k + 1;
    }
    proof {
        let filtered = ids.filter(keep);
        assert forall|y: Seq<char>| names(systems@).to_set().contains(y) <==> diplomacy_candidates(*state, player@).contains(y) by {
            ids.filter_lemma(keep);
            if names(systems@).contains(y) {
                let j = choose|j: int| 0 <= j < k && #[trigger] ids[j] == y && y != MECATOL@;
                assert(keep(ids[j]));
                assert(filtered.contains(ids[j]));
            }
            if filtered.contains(y) {
                let m = choose|m: int| 0 <= m < filtered.len() && filtered[m] == y;
                assert(keep(filtered[m]));
                ids.lemma_filter_contains_rev(keep, y);
                let j = choose|j: int| 0 <= j < ids.len() && ids[j] == y;
                assert(names(systems@).contains(y));
            }
        }
        assert(names(systems@).to_set() =~= diplomacy_candidates(*state, player@));
    }
    systems
}

/// The option that chooses a system.
pub open spec fn system_view(system: Seq<char>) -> OptionView {
    OptionView { id: system, kind: "system"@, label: system }
}

/// The prompt of the Diplomacy system question.
pub const DIPLOMACY_PROMPT: &'static str = "choose a system for Diplomacy";

/// Whether a choice is the Diplomacy system question a player faces.
pub open spec fn is_diplomacy_choice(c: Choice, state: GameState, player: Seq<char>) -> bool {
    &&& c.player@ == player
    &&& c.prompt@ == DIPLOMACY_PROMPT@
    &&& exists|list: Seq<Seq<char>>| #[trigger] sorted_set(list, diplomacy_candidates(state, player)) && option_views(c.options@)
        == list.map_values(|s: Seq<char>| system_view(s))
}

/// The Diplomacy primary's first question: the system to lock, among those other than Mecatol
/// Rex in which the player controls a planet. There is none when there is no such system.
pub fn diplomacy_choice(state: &GameState, player: &str) -> (choice: Option<Choice>)
    ensures
        (choice is None) == (diplomacy_candidates(*state, player@) == Set::<Seq<char>>::empty()),
        choice matches Some(c) ==> is_diplomacy_choice(c, *state, player@),
{
    let systems = diplomacy_systems(state, player);
    let ghost list = names(systems@);
    if systems.len() == 0 {
        assert(list.to_set() =~= Set::<Seq<char>>::empty());
        return None;
    }
    assert(list.to_set().contains(list[0]));
    let mut options: Vec<ChoiceOption> = Vec::new();
    let mut k: usize = 0;
    while k < systems.len()
        invariant
            k <= systems@.len(),
            list == names(systems@),
            option_views(options@) == list.subrange(0, k as int).map_values(|s: Seq<char>| system_view(s)),
        decreases systems@.len() - k,
    {
        let system = systems[k].as_str();
        let ghost was = option_views(options@);
        options.push(ChoiceOption::labelled(system, "system", system));
        assert(option_views(options@) =~= was.push(system_view(system@)));
        assert(list.subrange(0, k + 1).map_values(|s: Seq<char>| system_view(s)) =~= list.subrange(0, k as int).map_values(
            |s: Seq<char>| system_view(s),
        ).push(system_view(system@)));
        k = k + 1;
    }
    assert(list.subrange(0, k as int) =~= list);
    let choice = Choice::new(player, DIPLOMACY_PROMPT, options);
    assert(sorted_set(list, diplomacy_candidates(*state, player@)));
    assert(is_diplomacy_choice(choice, *state, player@));
    Some(choice)
}

/// A list of names with several more, each added where it is not already there.
pub open spec fn with_names(list: Seq<Seq<char>>, adds: Seq<Seq<char>>) -> Seq<Seq<char>>
    decreases adds.len(),
{
    if adds.len() == 0 {
        list
    } else {
        with_name(with_names(list, adds.drop_last()), adds.last())
    }
}

/// Every other player at the table, in seating order.
pub open spec fn others_than(state: GameState, player: Seq<char>) -> Seq<Seq<char>> {
    all_but(names(state.seating_order@), player)
}

/// The table after Diplomacy locks a system: every other player's command token is placed in
/// it, where theirs is not already there.
pub open spec fn locked(before: GameState, after: GameState, system: Seq<char>, player: Seq<char>) -> bool {
    let si = system_index(before.board@, system);
    &&& si >= 0
    &&& names(after.board@[si].command_tokens@) == with_names(names(before.board@[si].command_tokens@), others_than(before, player))
    &&& after.board@ == before.board@.update(si, SystemState { command_tokens: after.board@[si].command_tokens, ..before.board@[si] })
    &&& after == (GameState { board: after.board, ..before })
}

/// What answering the Diplomacy system question does: the chosen system is locked.
pub open spec fn diplomacy_answered(before: GameState, after: GameState, player: Seq<char>, answer: OptionView, result: Result<(), IllegalChoice>) -> bool {
    let candidates = diplomacy_candidates(before, player);
    if candidates.contains(answer.id) && answer.kind == "system"@ {
        result is Ok && locked(before, after, answer.id, player)
    } else {
        result matches Err(e) && e.player@ == player && e.answered@ == answer.id && after == before
    }
}

proof fn lemma_held_in_on_board(system: Seq<char>, control: Seq<(String, String)>, player: Seq<char>)
    ensures
        forall|c: (Seq<char>, Seq<char>)| #[trigger] crate::tech_windows::held_in(system, control, player).contains(c) ==> c.0 == system,
    decreases control.len(),
{
    if control.len() > 0 {
        lemma_held_in_on_board(system, control.drop_last(), player);
        let rest = crate::tech_windows::held_in(system, control.drop_last(), player);
        assert forall|c: (Seq<char>, Seq<char>)| #[trigger] crate::tech_windows::held_in(system, control, player).contains(c) implies c.0
            == system by {
            let all = crate::tech_windows::held_in(system, control, player);
            let j = choose|j: int| 0 <= j < all.len() && all[j] == c;
            if j < rest.len() {
                assert(rest[j] == c);
                assert(rest.contains(c));
            }
        }
    }
}

proof fn lemma_controlled_on_board(board: Seq<SystemState>, player: Seq<char>)
    ensures
        forall|c: (Seq<char>, Seq<char>)| #[trigger] controlled(board, player).contains(c) ==> system_index(board, c.0) >= 0,
    decreases board.len(),
{
    if board.len() > 0 {
        lemma_controlled_on_board(board.drop_last(), player);
        let a = controlled(board.drop_last(), player);
        let b = crate::tech_windows::held_in(board.last().id@, board.last().planet_control@, player);
        lemma_held_in_on_board(board.last().id@, board.last().planet_control@, player);
        assert forall|c: (Seq<char>, Seq<char>)| #[trigger] controlled(board, player).contains(c) implies system_index(board, c.0) >= 0 by {
            let all = a + b;
            let j = choose|j: int| 0 <= j < all.len() && all[j] == c;
            if j < a.len() {
                assert(a[j] == c);
                assert(a.contains(c));
            } else {
                assert(b[j - a.len()] == c);
                assert(b.contains(c));
            }
        }
    }
}

/// Add a name to a list where it is not already there.
pub(crate) fn add_name(list: &mut Vec<String>, name: &str)
    ensures
        names(final(list)@) == with_name(names(old(list)@), name@),
{
    if !contains_name(list, name) {
        let ghost was = names(list@);
        list.push(name.to_string());
        assert(names(list@) =~= was.push(name@));
    }
}

/// Take an answer to the Diplomacy system question.
pub fn diplomacy_answer(state: &mut GameState, player: &str, answer: ChoiceOption) -> (result: Result<(), IllegalChoice>)
    ensures
        diplomacy_answered(*old(state), *final(state), player@, answer@, result),
{
    let ghost before = *state;
    let systems = diplomacy_systems(state, player);
    if !(contains_name(&systems, answer.id.as_str()) && str_eq(answer.kind.as_str(), "system")) {
        return Err(IllegalChoice { player: player.to_string(), answered: answer.id });
    }
    proof {
        let cands = diplomacy_candidates(before, player@);
        assert(cands.contains(answer@.id));
        let ids = controlled(before.board@, player@).map_values(|c: (Seq<char>, Seq<char>)| c.0);
        let keep = |s: Seq<char>| s != MECATOL@;
        ids.lemma_filter_contains_rev(keep, answer@.id);
        let j = choose|j: int| 0 <= j < ids.len() && ids[j] == answer@.id;
        let c = controlled(before.board@, player@)[j];
        assert(controlled(before.board@, player@).contains(c));
        lemma_controlled_on_board(before.board@, player@);
    }
    let si = match find_system(&state.board, answer.id.as_str()) {
        Some(k) => k,
        None => {
            assert(false);
            return Ok(());
        },
    };
    let mut system = state.board.remove(si);
    let ghost start = names(system.command_tokens@);
    let ghost order = names(state.seating_order@);
    let mut k: usize = 0;
    while k < state.seating_order.len()
        invariant
            k <= state.seating_order@.len(),
            order == names(state.seating_order@),
            names(system.command_tokens@) == with_names(start, all_but(order.subrange(0, k as int), player@)),
            system == (SystemState { command_tokens: system.command_tokens, ..before.board@[si as int] }),
        decreases state.seating_order@.len() - k,
    {
        proof {
            assert(order.subrange(0, k + 1).drop_last() =~= order.subrange(0, k as int));
        }
        let other = state.seating_order[k].as_str();
        if !str_eq(other, player) {
            add_name(&mut system.command_tokens, other);
            proof {
                let adds = all_but(order.subrange(0, k as int), player@);
                assert(all_but(order.subrange(0, k + 1), player@) == adds.push(other@));
                assert(adds.push(other@).drop_last() =~= adds);
            }
        }
        k = k + 1;
    }
    assert(order.subrange(0, k as int) =~= order);
    state.board.insert(si, system);
    assert(state.board@ =~= before.board@.update(
        si as int,
        SystemState { command_tokens: state.board@[si as int].command_tokens, ..before.board@[si as int] },
    ));
    Ok(())
}

/// Where a Diplomacy ability stands: the system still to lock, or the planets still to ready.
#[derive(Debug, Clone, Copy, PartialEq, Eq, Structural)]
pub enum DiplomacyStep {
    Lock,
    Ready(u8),
}

/// The Diplomacy primary (lock a system, then ready up to two planets) or its secondary
/// (ready up to two planets).
#[derive(Debug)]
pub struct Diplomacy {
    pub player: String,
    pub step: DiplomacyStep,
}

/// The step a Diplomacy ability settles on, once the questions with nothing to offer are passed.
pub open spec fn diplomacy_settled(step: DiplomacyStep, state: GameState, player: Seq<char>) -> DiplomacyStep {
    let first = if step == DiplomacyStep::Lock && diplomacy_candidates(state, player) == Set::<Seq<char>>::empty() {
        DiplomacyStep::Ready(2)
    } else {
        step
    };
    match first {
        DiplomacyStep::Ready(n) => if n > 0 && exhausted_held(state, player).len() == 0 {
            DiplomacyStep::Ready(0)
        } else {
            first
        },
        DiplomacyStep::Lock => first,
    }
}

impl Diplomacy {
    /// The Diplomacy primary for a player.
    pub fn primary(player: &str) -> (d: Self)
        ensures
            d.player@ == player@,
            d.step == DiplomacyStep::Lock,
    {
        Diplomacy { player: player.to_string(), step: DiplomacyStep::Lock }
    }

    /// The Diplomacy secondary for a player.
    pub fn secondary(player: &str) -> (d: Self)
        ensures
            d.player@ == player@,
            d.step == DiplomacyStep::Ready(2),
    {
        Diplomacy { player: player.to_string(), step: DiplomacyStep::Ready(2) }
    }

    fn settle(&mut self, state: &GameState)
        ensures
            final(self).player == old(self).player,
            final(self).step == diplomacy_settled(old(self).step, *state, old(self).player@),
    {
        if self.step == DiplomacyStep::Lock && diplomacy_choice(state, self.player.as_str()).is_none() {
            self.step = DiplomacyStep::Ready(2);
        }
        match self.step {
            DiplomacyStep::Ready(n) => {
                if n > 0 && ready_choice(state, self.player.as_str()).is_none() {
                    self.step = DiplomacyStep::Ready(0);
                }
            },
            DiplomacyStep::Lock => {},
        }
    }

    /// Whether nothing is left to ask.
    pub fn is_complete(&self, state: &GameState) -> (done: bool)
        ensures
            done == (diplomacy_settled(self.step, *state, self.player@) == DiplomacyStep::Ready(0)),
    {
        let mut copy = Diplomacy { player: self.player.clone(), step: self.step };
        copy.settle(state);
        copy.step == DiplomacyStep::Ready(0)
    }

    /// The question the ability asks next, or `None` when nothing is left to ask.
    pub fn pending_choice(&mut self, state: &GameState) -> (choice: Option<Choice>)
        ensures
            final(self).player == old(self).player,
            final(self).step == diplomacy_settled(old(self).step, *state, old(self).player@),
            match final(self).step {
                DiplomacyStep::Lock => choice matches Some(c) && is_diplomacy_choice(c, *state, old(self).player@),
                DiplomacyStep::Ready(n) => if n == 0 {
                    choice is None
                } else {
                    choice matches Some(c) && is_ready_choice(c, *state, old(self).player@)
                },
            },
    {
        self.settle(state);
        match self.step {
            DiplomacyStep::Lock => diplomacy_choice(state, self.player.as_str()),
            DiplomacyStep::Ready(n) => if n == 0 {
                None
            } else {
                ready_choice(state, self.player.as_str())
            },
        }
    }

    /// Take the answer to the question the ability asks next: a locked system, or a readied
    /// planet.
    pub fn take_choice(&mut self, state: &mut GameState, answer: ChoiceOption) -> (result: Result<(), IllegalChoice>)
        ensures
            final(self).player == old(self).player,
            ({
                let step = diplomacy_settled(old(self).step, *old(state), old(self).player@);
                let player = old(self).player@;
                match step {
                    DiplomacyStep::Lock => diplomacy_answered(*old(state), *final(state), player, answer@, result) && final(self).step == (
                    if result is Ok {
                        DiplomacyStep::Ready(2)
                    } else {
                        step
                    }),
                    DiplomacyStep::Ready(n) => if n == 0 {
                        result matches Err(e) && e.player@ == player && e.answered@ == answer@.id && *final(state) == *old(state)
                            && final(self).step == step
                    } else {
                        readied(*old(state), *final(state), player, answer@, result) && final(self).step == (if result is Ok {
                            DiplomacyStep::Ready((n - 1) as u8)
                        } else {
                            step
                        })
                    },
                }
            }),
    {
        self.settle(state);
        match self.step {
            DiplomacyStep::Lock => {
                let r = diplomacy_answer(state, self.player.as_str(), answer);
                if r.is_ok() {
                    self.step = DiplomacyStep::Ready(2);
                }
                r
            },
            DiplomacyStep::Ready(n) => {
                if n == 0 {
                    return Err(IllegalChoice { player: self.player.clone(), answered: answer.id });
                }
                let r = ready_answer(state, self.player.as_str(), answer);
                if r.is_ok() {
                    self.step = DiplomacyStep::Ready(n - 1);
                }
                r
            },
        }
    }
}

/// The board positions, in order, of the systems holding one of the player's command tokens.
pub open spec fn token_systems(board: Seq<SystemState>, player: Seq<char>) -> Seq<int>
    decreases board.len(),
{
    if board.len() == 0 {
        Seq::empty()
    } else if names(board.last().command_tokens@).contains(player) {
        token_systems(board.drop_last(), player).push(board.len() - 1)
    } else {
        token_systems(board.drop_last(), player)
    }
}

proof fn lemma_token_systems_bounded(board: Seq<SystemState>, player: Seq<char>)
    ensures
        forall|k: int| 0 <= k < token_systems(board, player).len() ==> 0 <= #[trigger] token_systems(board, player)[k] < board.len()
            && names(board[token_systems(board, player)[k]].command_tokens@).contains(player),
    decreases board.len(),
{
    if board.len() > 0 {
        lemma_token_systems_bounded(board.drop_last(), player);
        let rest = token_systems(board.drop_last(), player);
        assert forall|k: int| 0 <= k < token_systems(board, player).len() implies 0 <= #[trigger] token_systems(board, player)[k]
            < board.len() && names(board[token_systems(board, player)[k]].command_tokens@).contains(player) by {
            if k < rest.len() {
                assert(token_systems(board, player)[k] == rest[k]);
                assert(board[rest[k]] == board.drop_last()[rest[k]]);
            }
        }
    }
}

/// The option that recalls a token from a system.
pub open spec fn recall_view(system: Seq<char>) -> OptionView {
    OptionView { id: system, kind: "recall"@, label: system }
}

/// The recall options: each system holding one of the player's tokens.
pub open spec fn recall_views(board: Seq<SystemState>, player: Seq<char>) -> Seq<OptionView> {
    token_systems(board, player).map_values(|b: int| recall_view(board[b].id@))
}

/// The prompt of the Warfare recall question.
pub const RECALL_PROMPT: &'static str = "recall a command token";

/// Whether a choice is the Warfare recall question a player faces.
pub open spec fn is_recall_choice(c: Choice, state: GameState, player: Seq<char>) -> bool {
    &&& c.player@ == player
    &&& c.prompt@ == RECALL_PROMPT@
    &&& option_views(c.options@) == recall_views(state.board@, player)
}

fn token_positions(state: &GameState, player: &str) -> (positions: Vec<usize>)
    ensures
        positions@.map_values(|b: usize| b as int) == token_systems(state.board@, player@),
{
    let mut positions: Vec<usize> = Vec::new();
    let mut b: usize = 0;
    while b < state.board.len()
        invariant
            b <= state.board@.len(),
            positions@.map_values(|x: usize| x as int) == token_systems(state.board@.subrange(0, b as int), player@),
        decreases state.board@.len() - b,
    {
        proof {
            assert(state.board@.subrange(0, b + 1).drop_last() =~= state.board@.subrange(0, b as int));
        }
        if contains_name(&state.board[b].command_tokens, player) {
            let ghost was = positions@.map_values(|x: usize| x as int);
            positions.push(b);
            assert(positions@.map_values(|x: usize| x as int) =~= was.push(b as int));
        }
        b = b + 1;
    }
    assert(state.board@.subrange(0, b as int) =~= state.board@);
    positions
}

/// The Warfare primary's first question: the system to recall a command token from. There is
/// none when the player has no token on the board.
pub fn recall_choice(state: &GameState, player: &str) -> (choice: Option<Choice>)
    ensures
        (choice is Some) == (token_systems(state.board@, player@).len() > 0),
        choice matches Some(c) ==> is_recall_choice(c, *state, player@),
{
    let positions = token_positions(state, player);
    let ghost spots = positions@.map_values(|b: usize| b as int);
    proof {
        lemma_token_systems_bounded(state.board@, player@);
    }
    if positions.len() == 0 {
        return None;
    }
    let mut options: Vec<ChoiceOption> = Vec::new();
    let mut k: usize = 0;
    while k < positions.len()
        invariant
            k <= positions@.len(),
            spots == positions@.map_values(|b: usize| b as int),
            spots == token_systems(state.board@, player@),
            forall|m: int| 0 <= m < spots.len() ==> 0 <= #[trigger] spots[m] < state.board@.len(),
            option_views(options@) == spots.subrange(0, k as int).map_values(|b: int| recall_view(state.board@[b].id@)),
        decreases positions@.len() - k,
    {
        assert(0 <= spots[k as int] < state.board@.len());
        let system = state.board[positions[k]].id.as_str();
        let ghost was = option_views(options@);
        options.push(ChoiceOption::labelled(system, "recall", system));
        assert(option_views(options@) =~= was.push(recall_view(system@)));
        assert(spots.subrange(0, k + 1).map_values(|b: int| recall_view(state.board@[b].id@)) =~= spots.subrange(0, k as int).map_values(
            |b: int| recall_view(state.board@[b].id@),
        ).push(recall_view(system@)));
        k = k + 1;
    }
    assert(spots.subrange(0, k as int) =~= spots);
    Some(Choice::new(player, RECALL_PROMPT, options))
}

/// What answering the recall question does: the player's token leaves the chosen system.
pub open spec fn recalled(before: GameState, after: GameState, player: Seq<char>, answer: OptionView, result: Result<(), IllegalChoice>) -> bool {
    let spots = token_systems(before.board@, player);
    let views = recall_views(before.board@, player);
    if spots.len() == 0 || none_answered(views, answer) {
        result matches Err(e) && e.player@ == player && e.answered@ == answer.id && after == before
    } else {
        exists|k: int| #[trigger] first_answered(views, k, answer) && {
            let b = spots[k];
            &&& result is Ok
            &&& names(after.board@[b].command_tokens@) == without_first(names(before.board@[b].command_tokens@), player)
            &&& after.board@ == before.board@.update(b, SystemState { command_tokens: after.board@[b].command_tokens, ..before.board@[b] })
            &&& after == (GameState { board: after.board, ..before })
        }
    }
}

/// Take an answer to the recall question.
pub fn recall_answer(state: &mut GameState, player: &str, answer: ChoiceOption) -> (result: Result<(), IllegalChoice>)
    ensures
        recalled(*old(state), *final(state), player@, answer@, result),
{
    let ghost before = *state;
    let choice = match recall_choice(state, player) {
        Some(c) => c,
        None => return Err(IllegalChoice { player: player.to_string(), answered: answer.id }),
    };
    let positions = token_positions(state, player);
    proof {
        lemma_token_systems_bounded(state.board@, player@);
    }
    let ghost views = option_views(choice.options@);
    let k = match answered_index(&choice, &answer) {
        Some(k) => k,
        None => return Err(IllegalChoice { player: player.to_string(), answered: answer.id }),
    };
    assert(first_answered(views, k as int, answer@));
    let b = positions[k];
    assert(b as int == token_systems(before.board@, player@)[k as int]);
    let mut system = state.board.remove(b);
    remove_first(&mut system.command_tokens, player);
    state.board.insert(b, system);
    assert(state.board@ =~= before.board@.update(
        b as int,
        SystemState { command_tokens: state.board@[b as int].command_tokens, ..before.board@[b as int] },
    ));
    Ok(())
}

/// The option that moves one token between pools in the Warfare redistribution.
pub open spec fn shift_view(pair: (int, int)) -> OptionView {
    OptionView {
        id: "move|"@ + pool_label(pair.0) + "|"@ + pool_label(pair.1),
        kind: "redistribute"@,
        label: "move a token from "@ + pool_label(pair.0) + " to "@ + pool_label(pair.1),
    }
}

/// The options of the Warfare redistribution: each move, then the decline.
pub open spec fn shift_views(seat: Seat) -> Seq<OptionView> {
    redistribution_pairs(seat).map_values(|p: (int, int)| shift_view(p)).push(decline_view())
}

/// The prompt of the Warfare redistribution.
pub const SHIFT_PROMPT: &'static str = "Warfare: redistribute your command tokens";

/// Whether a choice is the Warfare redistribution a player faces.
pub open spec fn is_shift_choice(c: Choice, state: GameState, player: Seq<char>) -> bool {
    &&& c.player@ == player
    &&& c.prompt@ == SHIFT_PROMPT@
    &&& option_views(c.options@) == shift_views(state.players@[seat_of(state.players@, player)])
}

/// Whether the player can move a token between pools: they sit at the table and hold one.
pub open spec fn can_shift(state: GameState, player: Seq<char>) -> bool {
    let i = seat_of(state.players@, player);
    i >= 0 && redistribution_pairs(state.players@[i]).len() > 0
}

/// The Warfare redistribution question: move one command token between pools, or stop.
pub fn shift_choice(state: &GameState, player: &str) -> (choice: Option<Choice>)
    ensures
        (choice is Some) == can_shift(*state, player@),
        choice matches Some(c) ==> is_shift_choice(c, *state, player@),
{
    let i = match find_seat(&state.players, player) {
        Some(i) => i,
        None => return None,
    };
    let (_, pairs) = moves_of(&state.players[i]);
    if pairs.len() == 0 {
        assert(pair_ints(pairs@).len() == 0);
        return None;
    }
    let ghost spec_pairs = pair_ints(pairs@);
    proof {
        crate::tech_windows::lemma_pairs_bounded(state.players@[i as int]);
        assert forall|m: int| 0 <= m < pairs@.len() implies (#[trigger] pairs@[m]).0 < 3 && pairs@[m].1 < 3 by {
            assert(spec_pairs[m] == (pairs@[m].0 as int, pairs@[m].1 as int));
        }
    }
    let mut options: Vec<ChoiceOption> = Vec::new();
    let mut k: usize = 0;
    while k < pairs.len()
        invariant
            k <= pairs@.len(),
            spec_pairs == pair_ints(pairs@),
            forall|m: int| 0 <= m < pairs@.len() ==> (#[trigger] pairs@[m]).0 < 3 && pairs@[m].1 < 3,
            option_views(options@) == spec_pairs.subrange(0, k as int).map_values(|p: (int, int)| shift_view(p)),
        decreases pairs@.len() - k,
    {
        let (from, to) = pairs[k];
        let source = pool_name(from);
        let destination = pool_name(to);
        let id = "move|".to_string().concat(source).concat("|").concat(destination);
        let label = "move a token from ".to_string().concat(source).concat(" to ").concat(destination);
        let ghost was = option_views(options@);
        options.push(ChoiceOption::labelled(id.as_str(), "redistribute", label.as_str()));
        assert(option_views(options@) =~= was.push(shift_view((from as int, to as int))));
        assert(spec_pairs.subrange(0, k + 1).map_values(|p: (int, int)| shift_view(p)) =~= spec_pairs.subrange(0, k as int).map_values(
            |p: (int, int)| shift_view(p),
        ).push(shift_view(spec_pairs[k as int])));
        k = k + 1;
    }
    assert(spec_pairs.subrange(0, k as int) =~= spec_pairs);
    let ghost moves = option_views(options@);
    options.push(ChoiceOption::decline());
    assert(option_views(options@) =~= moves.push(decline_view()));
    Some(Choice::new(player, SHIFT_PROMPT, options))
}

/// What answering the Warfare redistribution does: a move shifts one token, the decline stops.
pub open spec fn shifted(before: GameState, after: GameState, player: Seq<char>, answer: OptionView, result: Result<bool, IllegalChoice>) -> bool {
    let i = seat_of(before.players@, player);
    if !can_shift(before, player) || none_answered(shift_views(before.players@[i]), answer) {
        result matches Err(e) && e.player@ == player && e.answered@ == answer.id && after == before
    } else {
        let pairs = redistribution_pairs(before.players@[i]);
        exists|k: int| #[trigger] first_answered(shift_views(before.players@[i]), k, answer) && if k == pairs.len() {
            result == Ok::<bool, IllegalChoice>(false) && after == before
        } else {
            &&& result == Ok::<bool, IllegalChoice>(true)
            &&& after.players@ == before.players@.update(i, moved_token(before.players@[i], pairs[k].0, pairs[k].1))
            &&& after == (GameState { players: after.players, ..before })
        }
    }
}

/// Take an answer to the Warfare redistribution.
pub fn shift_answer(state: &mut GameState, player: &str, answer: ChoiceOption) -> (result: Result<bool, IllegalChoice>)
    requires
        pools_have_room(*old(state), player@),
    ensures
        shifted(*old(state), *final(state), player@, answer@, result),
{
    let choice = match shift_choice(state, player) {
        Some(c) => c,
        None => return Err(IllegalChoice { player: player.to_string(), answered: answer.id }),
    };
    let i = match find_seat(&state.players, player) {
        Some(i) => i,
        None => return Err(IllegalChoice { player: player.to_string(), answered: answer.id }),
    };
    let (_, pairs) = moves_of(&state.players[i]);
    let ghost views = option_views(choice.options@);
    let k = match answered_index(&choice, &answer) {
        Some(k) => k,
        None => return Err(IllegalChoice { player: player.to_string(), answered: answer.id }),
    };
    assert(first_answered(views, k as int, answer@));
    if k >= pairs.len() {
        return Ok(false);
    }
    let (from, to) = pairs[k];
    assert(pair_ints(pairs@)[k as int] == (from as int, to as int));
    let ghost before = *state;
    let mut seat = state.players.remove(i);
    let ghost seat0 = seat;
    take_token(&mut seat, from);
    give_token(&mut seat, to);
    state.players.insert(i, seat);
    assert(state.players@ =~= before.players@.update(i as int, moved_token(before.players@[i as int], from as int, to as int)));
    assert(first_answered(views, k as int, answer@) && k != redistribution_pairs(before.players@[i as int]).len());
    Ok(true)
}

/// What answering a one-token gain does: the token goes into the chosen pool, if the player
/// has one left in reinforcements.
pub open spec fn gained_one(before: GameState, after: GameState, player: Seq<char>, answer: OptionView, result: Result<(), IllegalChoice>) -> bool {
    match pool_named_kind(answer) {
        None => result matches Err(e) && e.player@ == player && e.answered@ == answer.id && after == before,
        Some(pool) => {
            let i = seat_of(before.players@, player);
            &&& result is Ok
            &&& after.players@ == if i >= 0 && reinforcements(before, i) > 0 {
                before.players@.update(i, with_token(before.players@[i], pool))
            } else {
                before.players@
            }
            &&& after == (GameState { players: after.players, ..before })
        },
    }
}

/// The question of a one-token gain.
pub fn gain_choice(player: &str) -> (choice: Choice)
    ensures
        choice.player@ == player@,
        choice.prompt@ == GAIN_PROMPT@,
        option_views(choice.options@) == pool_options_view(),
{
    Choice::new(player, GAIN_PROMPT, pool_options())
}

/// Take the answer to a one-token gain.
pub fn gain_answer(state: &mut GameState, player: &str, answer: ChoiceOption) -> (result: Result<(), IllegalChoice>)
    requires
        board_fits(*old(state)),
    ensures
        gained_one(*old(state), *final(state), player@, answer@, result),
        board_fits(*final(state)),
{
    let ghost asked = answer@;
    let choice = gain_choice(player);
    proof {
        lemma_pool_offered(asked, choice.options@);
    }
    let option = match validate(&choice, answer) {
        Ok(o) => o,
        Err(e) => return Err(e),
    };
    let pool = match pool_for(option.id.as_str()) {
        Some(p) => p,
        None => return Ok(()),
    };
    let ghost before = *state;
    state.gain_token(player, pool);
    proof {
        let i = seat_of(before.players@, player@);
        if i >= 0 && reinforcements(before, i) > 0 {
            crate::state::lemma_tokens_on_board_nonneg(before.board@, before.players@[i].id@);
            assert forall|j: int| 0 <= j < state.players@.len() implies seat_valid(#[trigger] state.players@[j]) by {
                if j != i {
                    assert(state.players@[j] == before.players@[j]);
                }
            }
        }
    }
    Ok(())
}

/// Where a Warfare primary stands: the token to recall, the token to gain, the moves between
/// pools still allowed, or nothing left.
#[derive(Debug, Clone, Copy, PartialEq, Eq, Structural)]
pub enum WarfareStep {
    Recall,
    Gain,
    Shift(u32),
    Done,
}

/// The Warfare primary: recall one of your command tokens from the board and gain it into a
/// pool of your choice; then move tokens between your pools, one at a time, as many times as
/// you hold tokens. Without a token on the board there is nothing to do.
#[derive(Debug)]
pub struct Warfare {
    pub player: String,
    pub step: WarfareStep,
}

/// The step a Warfare primary settles on, once the questions with nothing to offer are passed.
pub open spec fn warfare_settled(step: WarfareStep, state: GameState, player: Seq<char>) -> WarfareStep {
    match step {
        WarfareStep::Recall => if token_systems(state.board@, player).len() == 0 {
            WarfareStep::Done
        } else {
            step
        },
        WarfareStep::Shift(n) => if n == 0 || !can_shift(state, player) {
            WarfareStep::Done
        } else {
            step
        },
        _ => step,
    }
}

/// The moves between pools Warfare allows after the gain: as many as the tokens on the sheet.
pub open spec fn shift_allowance(state: GameState, player: Seq<char>) -> int {
    let i = seat_of(state.players@, player);
    if i >= 0 {
        sheet_total(state.players@[i])
    } else {
        0
    }
}

proof fn lemma_first_index_exists(s: Seq<Seq<char>>, x: Seq<char>, i: int)
    requires
        0 <= i < s.len(),
        s[i] == x,
    ensures
        exists|c: int| crate::state::is_first_index(s, x, c),
    decreases i,
{
    if forall|j: int| 0 <= j < i ==> s[j] != x {
        assert(crate::state::is_first_index(s, x, i));
    } else {
        let j = choose|j: int| 0 <= j < i && !(s[j] != x);
        lemma_first_index_exists(s, x, j);
    }
}

proof fn lemma_recall_fits(before: GameState, after: GameState, player: Seq<char>, answer: OptionView, result: Result<(), IllegalChoice>)
    requires
        board_fits(before),
        recalled(before, after, player, answer, result),
    ensures
        board_fits(after),
{
    let spots = token_systems(before.board@, player);
    let views = recall_views(before.board@, player);
    if spots.len() > 0 && !none_answered(views, answer) {
        let k = choose|k: int| #[trigger] first_answered(views, k, answer) && {
            let b = spots[k];
            &&& result is Ok
            &&& names(after.board@[b].command_tokens@) == without_first(names(before.board@[b].command_tokens@), player)
            &&& after.board@ == before.board@.update(b, SystemState { command_tokens: after.board@[b].command_tokens, ..before.board@[b] })
            &&& after == (GameState { board: after.board, ..before })
        };
        lemma_token_systems_bounded(before.board@, player);
        let b = spots[k];
        let list = names(before.board@[b].command_tokens@);
        if list.contains(player) {
            let m = choose|m: int| 0 <= m < list.len() && list[m] == player;
            lemma_first_index_exists(list, player, m);
            let c = choose|c: int| crate::state::is_first_index(list, player, c);
            assert(crate::state::is_first_index(list, player, c));
        }
        assert(names(after.board@[b].command_tokens@).len() == after.board@[b].command_tokens@.len());
        assert forall|j: int| 0 <= j < after.board@.len() implies (#[trigger] after.board@[j]).command_tokens@.len() < 0x1_0000_0000 by {
            if j != b {
                assert(after.board@[j] == before.board@[j]);
            }
        }
    }
}

proof fn lemma_shift_fits(before: GameState, after: GameState, player: Seq<char>, answer: OptionView, result: Result<bool, IllegalChoice>)
    requires
        board_fits(before),
        shifted(before, after, player, answer, result),
    ensures
        board_fits(after),
{
    let i = seat_of(before.players@, player);
    if can_shift(before, player) && !none_answered(shift_views(before.players@[i]), answer) {
        let pairs = redistribution_pairs(before.players@[i]);
        let k = choose|k: int| #[trigger] first_answered(shift_views(before.players@[i]), k, answer) && if k == pairs.len() {
            result == Ok::<bool, IllegalChoice>(false) && after == before
        } else {
            &&& result == Ok::<bool, IllegalChoice>(true)
            &&& after.players@ == before.players@.update(i, moved_token(before.players@[i], pairs[k].0, pairs[k].1))
            &&& after == (GameState { players: after.players, ..before })
        };
        if k != pairs.len() {
            crate::tech_windows::lemma_pairs_bounded(before.players@[i]);
            crate::state::lemma_seat_of(before.players@, player);
            assert(0 <= k < pairs.len());
            let p = pairs[k];
            assert forall|j: int| 0 <= j < after.players@.len() implies seat_valid(#[trigger] after.players@[j]) by {
                if j != i {
                    assert(after.players@[j] == before.players@[j]);
                }
            }
        }
    }
}

impl Warfare {
    /// The Warfare primary for a player.
    pub fn primary(player: &str) -> (w: Self)
        ensures
            w.player@ == player@,
            w.step == WarfareStep::Recall,
    {
        Warfare { player: player.to_string(), step: WarfareStep::Recall }
    }

    fn settle(&mut self, state: &GameState)
        ensures
            final(self).player == old(self).player,
            final(self).step == warfare_settled(old(self).step, *state, old(self).player@),
    {
        match self.step {
            WarfareStep::Recall => {
                if recall_choice(state, self.player.as_str()).is_none() {
                    self.step = WarfareStep::Done;
                }
            },
            WarfareStep::Shift(n) => {
                if n == 0 || shift_choice(state, self.player.as_str()).is_none() {
                    self.step = WarfareStep::Done;
                }
            },
            _ => {},
        }
    }

    /// The question the primary asks next, or `None` when nothing is left to ask.
    pub fn pending_choice(&mut self, state: &GameState) -> (choice: Option<Choice>)
        ensures
            final(self).player == old(self).player,
            final(self).step == warfare_settled(old(self).step, *state, old(self).player@),
            match final(self).step {
                WarfareStep::Recall => choice matches Some(c) && is_recall_choice(c, *state, old(self).player@),
                WarfareStep::Gain => choice matches Some(c) && c.player@ == old(self).player@ && c.prompt@ == GAIN_PROMPT@ && option_views(
                    c.options@,
                ) == pool_options_view(),
                WarfareStep::Shift(_) => choice matches Some(c) && is_shift_choice(c, *state, old(self).player@),
                WarfareStep::Done => choice is None,
            },
    {
        self.settle(state);
        match self.step {
            WarfareStep::Recall => recall_choice(state, self.player.as_str()),
            WarfareStep::Gain => Some(gain_choice(self.player.as_str())),
            WarfareStep::Shift(_) => shift_choice(state, self.player.as_str()),
            WarfareStep::Done => None,
        }
    }

    /// Take the answer to the question the primary asks next.
    pub fn take_choice(&mut self, state: &mut GameState, answer: ChoiceOption) -> (result: Result<(), IllegalChoice>)
        requires
            board_fits(*old(state)),
        ensures
            board_fits(*final(state)),
            final(self).player == old(self).player,
            ({
                let step = warfare_settled(old(self).step, *old(state), old(self).player@);
                let player = old(self).player@;
                match step {
                    WarfareStep::Recall => recalled(*old(state), *final(state), player, answer@, result) && final(self).step == (if result is Ok {
                        WarfareStep::Gain
                    } else {
                        step
                    }),
                    WarfareStep::Gain => gained_one(*old(state), *final(state), player, answer@, result) && final(self).step == (if result is Ok {
                        WarfareStep::Shift(shift_allowance(*final(state), player) as u32)
                    } else {
                        step
                    }),
                    WarfareStep::Shift(n) => exists|r: Result<bool, IllegalChoice>| #[trigger] shifted(*old(state), *final(state), player, answer@, r)
                        && match r {
                        Ok(true) => result is Ok && final(self).step == WarfareStep::Shift((n - 1) as u32),
                        Ok(false) => result is Ok && final(self).step == WarfareStep::Done,
                        Err(e) => result == Err::<(), IllegalChoice>(e) && final(self).step == step,
                    },
                    WarfareStep::Done => result matches Err(e) && e.player@ == player && e.answered@ == answer@.id && *final(state)
                        == *old(state) && final(self).step == step,
                }
            }),
    {
        self.settle(state);
        let ghost before = *state;
        match self.step {
            WarfareStep::Recall => {
                let r = recall_answer(state, self.player.as_str(), answer);
                proof {
                    lemma_recall_fits(before, *state, self.player@, answer@, r);
                }
                if r.is_ok() {
                    self.step = WarfareStep::Gain;
                }
                r
            },
            WarfareStep::Gain => {
                let r = gain_answer(state, self.player.as_str(), answer);
                if r.is_ok() {
                    let allowance: u32 = match find_seat(&state.players, self.player.as_str()) {
                        Some(i) => {
                            let seat = &state.players[i];
                            assert(seat_valid(*seat));
                            (seat.tactic_tokens + seat.fleet_tokens + seat.strategic_tokens) as u32
                        },
                        None => 0,
                    };
                    self.step = WarfareStep::Shift(allowance);
                }
                r
            },
            WarfareStep::Shift(n) => {
                proof {
                    crate::state::lemma_seat_of(state.players@, self.player@);
                    let i = seat_of(state.players@, self.player@);
                    if i >= 0 {
                        assert(seat_valid(state.players@[i]));
                    }
                }
                let r = shift_answer(state, self.player.as_str(), answer);
                let ghost rr = r;
                proof {
                    lemma_shift_fits(before, *state, self.player@, answer@, rr);
                }
                match r {
                    Ok(true) => {
                        self.step = WarfareStep::Shift(n - 1);
                        Ok(())
                    },
                    Ok(false) => {
                        self.step = WarfareStep::Done;
                        Ok(())
                    },
                    Err(e) => Err(e),
                }
            },
            WarfareStep::Done => Err(IllegalChoice { player: self.player.clone(), answered: answer.id }),
        }
    }
}

/// The commodity value printed on a faction, as the caller lists them (the first entry for it);
/// none for a faction missing from the list.
pub open spec fn commodity_value(values: Seq<(String, i32)>, faction: Seq<char>) -> int
    decreases values.len(),
{
    if values.len() == 0 {
        0
    } else if values[0].0@ == faction {
        values[0].1 as int
    } else {
        commodity_value(values.drop_first(), faction)
    }
}

fn value_for(values: &Vec<(String, i32)>, faction: &str) -> (value: i32)
    ensures
        value as int == commodity_value(values@, faction@),
{
    let mut k: usize = 0;
    assert(values@.subrange(0, values@.len() as int) =~= values@);
    while k < values.len()
        invariant
            k <= values@.len(),
            commodity_value(values@, faction@) == commodity_value(values@.subrange(k as int, values@.len() as int), faction@),
        decreases values@.len() - k,
    {
        assert(values@.subrange(k as int, values@.len() as int).drop_first() =~= values@.subrange(k + 1, values@.len() as int));
        if str_eq(values[k].0.as_str(), faction) {
            return values[k].1;
        }
        k = k + 1;
    }
    0
}

/// The commodities a seat replenishes to: its faction's printed value.
pub open spec fn commodity_limit(seat: Seat, values: Seq<(String, i32)>) -> int {
    commodity_value(values, seat.faction@)
}

/// A seat with its commodities replenished to its faction's value.
pub open spec fn replenished(seat: Seat, values: Seq<(String, i32)>) -> Seat {
    Seat { commodities: commodity_limit(seat, values) as i32, ..seat }
}

/// The Trade secondary: replenish your commodities to your faction's value. Nothing happens
/// for a player not at the table.
pub fn replenish(state: &mut GameState, values: &Vec<(String, i32)>, player: &str)
    ensures
        ({
            let i = seat_of(old(state).players@, player@);
            &&& final(state).players@ == if i >= 0 {
                old(state).players@.update(i, replenished(old(state).players@[i], values@))
            } else {
                old(state).players@
            }
            &&& *final(state) == (GameState { players: final(state).players, ..*old(state) })
        }),
{
    let ghost before = *state;
    match find_seat(&state.players, player) {
        Some(i) => {
            let mut seat = state.players.remove(i);
            seat.commodities = value_for(values, seat.faction.as_str());
            state.players.insert(i, seat);
            assert(state.players@ =~= before.players@.update(i as int, replenished(before.players@[i as int], values@)));
        },
        None => {},
    }
}

/// The trade goods the Trade primary gives.
pub const TRADE_GOODS_GAINED: i32 = 3;

/// The first part of the Trade primary: gain three trade goods and replenish your commodities.
pub fn trade_income(state: &mut GameState, values: &Vec<(String, i32)>, player: &str)
    requires
        seat_of(old(state).players@, player@) >= 0 ==> old(state).players@[seat_of(old(state).players@, player@)].trade_goods
            + TRADE_GOODS_GAINED <= i32::MAX,
    ensures
        ({
            let i = seat_of(old(state).players@, player@);
            let seat = old(state).players@[i];
            &&& final(state).players@ == if i >= 0 {
                old(state).players@.update(
                    i,
                    replenished(Seat { trade_goods: (seat.trade_goods + TRADE_GOODS_GAINED) as i32, ..seat }, values@),
                )
            } else {
                old(state).players@
            }
            &&& *final(state) == (GameState { players: final(state).players, ..*old(state) })
        }),
{
    let ghost before = *state;
    match find_seat(&state.players, player) {
        Some(i) => {
            let mut seat = state.players.remove(i);
            seat.trade_goods = seat.trade_goods + TRADE_GOODS_GAINED;
            seat.commodities = value_for(values, seat.faction.as_str());
            state.players.insert(i, seat);
            assert(state.players@ =~= before.players@.update(
                i as int,
                replenished(
                    Seat { trade_goods: (before.players@[i as int].trade_goods + TRADE_GOODS_GAINED) as i32, ..before.players@[i as int] },
                    values@,
                ),
            ));
        },
        None => {},
    }
}

/// Whether a seat has commodities to replenish: a faction with a printed value (the generic
/// faction has none) and fewer commodities than it.
pub open spec fn below_limit(seat: Seat, values: Seq<(String, i32)>) -> bool {
    seat.faction@ != "generic"@ && seat.commodities < commodity_limit(seat, values)
}

/// The seats, by position, that the Trade primary can let replenish: every other player in
/// seating order who has commodities to replenish.
pub open spec fn trade_offers(state: GameState, values: Seq<(String, i32)>, others: Seq<Seq<char>>) -> Seq<int>
    decreases others.len(),
{
    if others.len() == 0 {
        Seq::empty()
    } else {
        let rest = trade_offers(state, values, others.drop_last());
        let i = seat_of(state.players@, others.last());
        if i >= 0 && below_limit(state.players@[i], values) {
            rest.push(i)
        } else {
            rest
        }
    }
}

/// The seats the Trade primary offers now.
pub open spec fn offered_seats(state: GameState, values: Seq<(String, i32)>, player: Seq<char>) -> Seq<int> {
    trade_offers(state, values, others_than(state, player))
}

/// The option that lets a seat replenish, named after its faction.
pub open spec fn replenish_view(seat: Seat) -> OptionView {
    OptionView { id: seat.faction@, kind: "replenish"@, label: seat.faction@ + " replenishes commodities"@ }
}

/// The option that lets nobody else replenish.
pub open spec fn nobody_view() -> OptionView {
    OptionView { id: "done"@, kind: crate::choice::DECLINE_KIND@, label: "nobody else replenishes"@ }
}

/// The options of the Trade question: each seat that can replenish, then nobody.
pub open spec fn trade_views(state: GameState, values: Seq<(String, i32)>, player: Seq<char>) -> Seq<OptionView> {
    offered_seats(state, values, player).map_values(|i: int| replenish_view(state.players@[i])).push(nobody_view())
}

/// The prompt of the Trade question.
pub const TRADE_PROMPT: &'static str = "let another player replenish commodities";

/// Whether a choice is the Trade question a player faces.
pub open spec fn is_trade_choice(c: Choice, state: GameState, values: Seq<(String, i32)>, player: Seq<char>) -> bool {
    &&& c.player@ == player
    &&& c.prompt@ == TRADE_PROMPT@
    &&& option_views(c.options@) == trade_views(state, values, player)
}

proof fn lemma_offers_seated(state: GameState, values: Seq<(String, i32)>, others: Seq<Seq<char>>)
    ensures
        forall|k: int| 0 <= k < trade_offers(state, values, others).len() ==> 0 <= #[trigger] trade_offers(state, values, others)[k]
            < state.players@.len(),
    decreases others.len(),
{
    if others.len() > 0 {
        lemma_offers_seated(state, values, others.drop_last());
        crate::state::lemma_seat_of(state.players@, others.last());
        let rest = trade_offers(state, values, others.drop_last());
        assert forall|k: int| 0 <= k < trade_offers(state, values, others).len() implies 0 <= #[trigger] trade_offers(state, values, others)[k]
            < state.players@.len() by {
            if k < rest.len() {
                assert(trade_offers(state, values, others)[k] == rest[k]);
            }
        }
    }
}

fn offered_positions(state: &GameState, values: &Vec<(String, i32)>, player: &str) -> (seats: Vec<usize>)
    ensures
        seats@.map_values(|i: usize| i as int) == offered_seats(*state, values@, player@),
{
    let ghost order = names(state.seating_order@);
    let mut seats: Vec<usize> = Vec::new();
    let mut others: Vec<String> = Vec::new();
    let mut k: usize = 0;
    while k < state.seating_order.len()
        invariant
            k <= state.seating_order@.len(),
            order == names(state.seating_order@),
            names(others@) == all_but(order.subrange(0, k as int), player@),
            seats@.map_values(|i: usize| i as int) == trade_offers(*state, values@, names(others@)),
        decreases state.seating_order@.len() - k,
    {
        proof {
            assert(order.subrange(0, k + 1).drop_last() =~= order.subrange(0, k as int));
        }
        let other = state.seating_order[k].as_str();
        if !str_eq(other, player) {
            let ghost was = names(others@);
            others.push(other.to_string());
            assert(names(others@) =~= was.push(other@));
            assert(names(others@).drop_last() =~= was);
            match find_seat(&state.players, other) {
                Some(i) => {
                    let seat = &state.players[i];
                    let limit = value_for(values, seat.faction.as_str());
                    if !str_eq(seat.faction.as_str(), "generic") && seat.commodities < limit {
                        let ghost before = seats@.map_values(|x: usize| x as int);
                        seats.push(i);
                        assert(seats@.map_values(|x: usize| x as int) =~= before.push(i as int));
                    }
                },
                None => {},
            }
        }
        k = k + 1;
    }
    assert(order.subrange(0, k as int) =~= order);
    seats
}

/// The Trade primary's question: let one more player replenish commodities, or nobody. There
/// is no question when nobody else has commodities to replenish. `values` gives each faction's
/// printed commodity value.
pub fn trade_choice(state: &GameState, values: &Vec<(String, i32)>, player: &str) -> (choice: Option<Choice>)
    ensures
        (choice is Some) == (offered_seats(*state, values@, player@).len() > 0),
        choice matches Some(c) ==> is_trade_choice(c, *state, values@, player@),
{
    let seats = offered_positions(state, values, player);
    let ghost spots = seats@.map_values(|i: usize| i as int);
    proof {
        lemma_offers_seated(*state, values@, others_than(*state, player@));
    }
    if seats.len() == 0 {
        return None;
    }
    let mut options: Vec<ChoiceOption> = Vec::new();
    let mut k: usize = 0;
    while k < seats.len()
        invariant
            k <= seats@.len(),
            spots == seats@.map_values(|i: usize| i as int),
            spots == offered_seats(*state, values@, player@),
            forall|m: int| 0 <= m < spots.len() ==> 0 <= #[trigger] spots[m] < state.players@.len(),
            option_views(options@) == spots.subrange(0, k as int).map_values(|i: int| replenish_view(state.players@[i])),
        decreases seats@.len() - k,
    {
        assert(0 <= spots[k as int] < state.players@.len());
        let faction = state.players[seats[k]].faction.as_str();
        let label = faction.to_string().concat(" replenishes commodities");
        let ghost was = option_views(options@);
        options.push(ChoiceOption::labelled(faction, "replenish", label.as_str()));
        assert(option_views(options@) =~= was.push(replenish_view(state.players@[spots[k as int]])));
        assert(spots.subrange(0, k + 1).map_values(|i: int| replenish_view(state.players@[i])) =~= spots.subrange(0, k as int).map_values(
            |i: int| replenish_view(state.players@[i]),
        ).push(replenish_view(state.players@[spots[k as int]])));
        k = k + 1;
    }
    assert(spots.subrange(0, k as int) =~= spots);
    let ghost listed = option_views(options@);
    options.push(ChoiceOption::labelled("done", crate::choice::DECLINE_KIND, "nobody else replenishes"));
    assert(option_views(options@) =~= listed.push(nobody_view()));
    Some(Choice::new(player, TRADE_PROMPT, options))
}

/// What answering the Trade question does: the chosen seat replenishes; nobody ends the Trade
/// primary.
pub open spec fn traded(before: GameState, after: GameState, values: Seq<(String, i32)>, player: Seq<char>, answer: OptionView, result: Result<bool, IllegalChoice>) -> bool {
    let seats = offered_seats(before, values, player);
    let views = trade_views(before, values, player);
    if seats.len() == 0 || none_answered(views, answer) {
        result matches Err(e) && e.player@ == player && e.answered@ == answer.id && after == before
    } else {
        exists|k: int| #[trigger] first_answered(views, k, answer) && if k == seats.len() {
            result == Ok::<bool, IllegalChoice>(false) && after == before
        } else {
            &&& result == Ok::<bool, IllegalChoice>(true)
            &&& after.players@ == before.players@.update(seats[k], replenished(before.players@[seats[k]], values))
            &&& after == (GameState { players: after.players, ..before })
        }
    }
}

/// Take an answer to the Trade question.
pub fn trade_answer(state: &mut GameState, values: &Vec<(String, i32)>, player: &str, answer: ChoiceOption) -> (result: Result<bool, IllegalChoice>)
    ensures
        traded(*old(state), *final(state), values@, player@, answer@, result),
{
    let ghost before = *state;
    let choice = match trade_choice(state, values, player) {
        Some(c) => c,
        None => return Err(IllegalChoice { player: player.to_string(), answered: answer.id }),
    };
    let seats = offered_positions(state, values, player);
    proof {
        lemma_offers_seated(*state, values@, others_than(*state, player@));
    }
    let ghost views = option_views(choice.options@);
    let k = match answered_index(&choice, &answer) {
        Some(k) => k,
        None => return Err(IllegalChoice { player: player.to_string(), answered: answer.id }),
    };
    assert(first_answered(views, k as int, answer@));
    if k >= seats.len() {
        return Ok(false);
    }
    let i = seats[k];
    assert(i as int == offered_seats(before, values@, player@)[k as int]);
    let mut seat = state.players.remove(i);
    seat.commodities = value_for(values, seat.faction.as_str());
    state.players.insert(i, seat);
    assert(state.players@ =~= before.players@.update(i as int, replenished(before.players@[i as int], values@)));
    Ok(true)
}

proof fn lemma_push_contains(s: Seq<Seq<char>>, a: Seq<char>, x: Seq<char>)
    ensures
        s.push(a).contains(x) <==> (s.contains(x) || x == a),
{
    if s.push(a).contains(x) {
        let j = choose|j: int| 0 <= j < s.push(a).len() && s.push(a)[j] == x;
        if j < s.len() {
            assert(s[j] == x);
        }
    }
    if s.contains(x) {
        let j = choose|j: int| 0 <= j < s.len() && s[j] == x;
        assert(s.push(a)[j] == x);
    }
    if x == a {
        assert(s.push(a)[s.len() as int] == x);
    }
}

proof fn lemma_with_names_contains(list: Seq<Seq<char>>, adds: Seq<Seq<char>>, x: Seq<char>)
    ensures
        with_names(list, adds).contains(x) <==> (list.contains(x) || adds.contains(x)),
    decreases adds.len(),
{
    if adds.len() > 0 {
        let rest = adds.drop_last();
        let a = adds.last();
        lemma_with_names_contains(list, rest, x);
        lemma_with_names_contains(list, rest, a);
        let inner = with_names(list, rest);
        assert(adds == rest.push(a));
        lemma_push_contains(rest, a, x);
        lemma_push_contains(inner, a, x);
    }
}

/// Diplomacy locks the system against everyone else: once it resolves, every other player at
/// the table has a command token in the chosen system, and the tokens already there stay.
pub proof fn a_locked_system_holds_every_other_token(before: GameState, after: GameState, player: Seq<char>, answer: OptionView)
    requires
        diplomacy_answered(before, after, player, answer, Ok(())),
    ensures
        ({
            let si = system_index(before.board@, answer.id);
            &&& si >= 0
            &&& forall|other: Seq<char>| #[trigger] others_than(before, player).contains(other) ==> names(after.board@[si].command_tokens@).contains(other)
            &&& forall|held: Seq<char>| #[trigger] names(before.board@[si].command_tokens@).contains(held) ==> names(after.board@[si].command_tokens@).contains(held)
        }),
{
    let si = system_index(before.board@, answer.id);
    assert forall|other: Seq<char>| #[trigger] others_than(before, player).contains(other) implies names(after.board@[si].command_tokens@).contains(
        other,
    ) by {
        lemma_with_names_contains(names(before.board@[si].command_tokens@), others_than(before, player), other);
    }
    assert forall|held: Seq<char>| #[trigger] names(before.board@[si].command_tokens@).contains(held) implies names(
        after.board@[si].command_tokens@,
    ).contains(held) by {
        lemma_with_names_contains(names(before.board@[si].command_tokens@), others_than(before, player), held);
    }
}

/// The Warfare redistribution only moves tokens between pools: an answered move keeps the
/// number of tokens on the sheet.
pub proof fn shifting_keeps_the_sheet(before: GameState, after: GameState, player: Seq<char>, answer: OptionView, result: Result<bool, IllegalChoice>)
    requires
        shifted(before, after, player, answer, result),
        pools_have_room(before, player),
        seat_of(before.players@, player) >= 0,
    ensures
        after.players@.len() == before.players@.len(),
        sheet_total(after.players@[seat_of(before.players@, player)]) == sheet_total(before.players@[seat_of(before.players@, player)]),
{
    let i = seat_of(before.players@, player);
    crate::state::lemma_seat_of(before.players@, player);
    if can_shift(before, player) && !none_answered(shift_views(before.players@[i]), answer) {
        let pairs = redistribution_pairs(before.players@[i]);
        let k = choose|k: int| #[trigger] first_answered(shift_views(before.players@[i]), k, answer) && if k == pairs.len() {
            result == Ok::<bool, IllegalChoice>(false) && after == before
        } else {
            &&& result == Ok::<bool, IllegalChoice>(true)
            &&& after.players@ == before.players@.update(i, moved_token(before.players@[i], pairs[k].0, pairs[k].1))
            &&& after == (GameState { players: after.players, ..before })
        };
        if k != pairs.len() {
            crate::tech_windows::lemma_pairs_bounded(before.players@[i]);
            assert(0 <= k < pairs.len());
        }
    }
}

/// Which resolution a primary ability goes to, chosen by the card: Thunder's Edge Warfare and
/// Construction by their ids, since they share printed names with different cards (see
/// `te_warfare_answer` and `te_construction_answer`); any other card by its printed name. A card
/// without a known name resolves nothing.
#[derive(Debug, Clone, Copy, PartialEq, Eq, Structural)]
pub enum PrimaryAbility {
    ThundersEdgeWarfare,
    ThundersEdgeConstruction,
    Leadership,
    Diplomacy,
    Politics,
    Construction,
    Trade,
    Warfare,
    Technology,
    Imperial,
    Unresolved,
}

/// The ability a card's primary has, by its name.
pub open spec fn ability_named(name: Seq<char>) -> PrimaryAbility {
    if name == "Leadership"@ {
        PrimaryAbility::Leadership
    } else if name == "Diplomacy"@ {
        PrimaryAbility::Diplomacy
    } else if name == "Politics"@ {
        PrimaryAbility::Politics
    } else if name == "Construction"@ {
        PrimaryAbility::Construction
    } else if name == "Trade"@ {
        PrimaryAbility::Trade
    } else if name == "Warfare"@ {
        PrimaryAbility::Warfare
    } else if name == "Technology"@ {
        PrimaryAbility::Technology
    } else if name == "Imperial"@ {
        PrimaryAbility::Imperial
    } else {
        PrimaryAbility::Unresolved
    }
}

/// The ability a card's primary has.
pub open spec fn spec_primary_ability(card: Seq<char>, name: Option<Seq<char>>) -> PrimaryAbility {
    if card == "te6warfare"@ {
        PrimaryAbility::ThundersEdgeWarfare
    } else if card == "te4construction"@ {
        PrimaryAbility::ThundersEdgeConstruction
    } else {
        match name {
            Some(n) => ability_named(n),
            None => PrimaryAbility::Unresolved,
        }
    }
}

fn named_ability(name: &str) -> (ability: PrimaryAbility)
    ensures
        ability == ability_named(name@),
{
    if str_eq(name, "Leadership") {
        PrimaryAbility::Leadership
    } else if str_eq(name, "Diplomacy") {
        PrimaryAbility::Diplomacy
    } else if str_eq(name, "Politics") {
        PrimaryAbility::Politics
    } else if str_eq(name, "Construction") {
        PrimaryAbility::Construction
    } else if str_eq(name, "Trade") {
        PrimaryAbility::Trade
    } else if str_eq(name, "Warfare") {
        PrimaryAbility::Warfare
    } else if str_eq(name, "Technology") {
        PrimaryAbility::Technology
    } else if str_eq(name, "Imperial") {
        PrimaryAbility::Imperial
    } else {
        PrimaryAbility::Unresolved
    }
}

/// Which ability a card's primary resolves. `name` is the card's printed name, where the corpus
/// has one.
pub fn primary(card: &str, name: Option<&str>) -> (ability: PrimaryAbility)
    ensures
        ability == spec_primary_ability(card@, match name { Some(n) => Some(n@), None => None }),
{
    if str_eq(card, "te6warfare") {
        return PrimaryAbility::ThundersEdgeWarfare;
    }
    if str_eq(card, "te4construction") {
        return PrimaryAbility::ThundersEdgeConstruction;
    }
    match name {
        Some(n) => named_ability(n),
        None => PrimaryAbility::Unresolved,
    }
}

/// Which ability a card's secondary resolves: by its printed name alone.
pub fn secondary(name: Option<&str>) -> (ability: PrimaryAbility)
    ensures
        ability == match name {
            Some(n) => ability_named(n@),
            None => PrimaryAbility::Unresolved,
        },
{
    match name {
        Some(n) => named_ability(n),
        None => PrimaryAbility::Unresolved,
    }
}

/// The name a seat goes by in a choice: its faction, or the player id for a player not at
/// the table.
pub open spec fn faction_label(state: GameState, player: Seq<char>) -> Seq<char> {
    let i = seat_of(state.players@, player);
    if i >= 0 {
        state.players@[i].faction@
    } else {
        player
    }
}

fn faction_label_of(state: &GameState, player: &str) -> (label: String)
    ensures
        label@ == faction_label(*state, player@),
{
    match find_seat(&state.players, player) {
        Some(i) => state.players[i].faction.clone(),
        None => player.to_string(),
    }
}

/// The players who may become speaker: everyone but the speaker, in seating order.
pub open spec fn speaker_candidates(state: GameState) -> Seq<Seq<char>> {
    all_but(names(state.seating_order@), state.speaker@)
}

/// The option that makes a player speaker, named after their faction.
pub open spec fn speaker_view(state: GameState, candidate: Seq<char>) -> OptionView {
    let name = faction_label(state, candidate);
    OptionView { id: name, kind: "speaker"@, label: name + " becomes speaker"@ }
}

/// The prompt of the Politics speaker question.
pub const SPEAKER_PROMPT: &'static str = "who becomes speaker";

/// Whether a choice is the Politics speaker question a player faces.
pub open spec fn is_speaker_choice(c: Choice, state: GameState, player: Seq<char>) -> bool {
    &&& c.player@ == player
    &&& c.prompt@ == SPEAKER_PROMPT@
    &&& option_views(c.options@) == speaker_candidates(state).map_values(|p: Seq<char>| speaker_view(state, p))
}

fn candidates_of(state: &GameState) -> (candidates: Vec<String>)
    ensures
        names(candidates@) == speaker_candidates(*state),
{
    let ghost order = names(state.seating_order@);
    let mut candidates: Vec<String> = Vec::new();
    let mut k: usize = 0;
    while k < state.seating_order.len()
        invariant
            k <= state.seating_order@.len(),
            order == names(state.seating_order@),
            names(candidates@) == all_but(order.subrange(0, k as int), state.speaker@),
        decreases state.seating_order@.len() - k,
    {
        proof {
            assert(order.subrange(0, k + 1).drop_last() =~= order.subrange(0, k as int));
        }
        let candidate = state.seating_order[k].as_str();
        if !str_eq(candidate, state.speaker.as_str()) {
            let ghost was = names(candidates@);
            candidates.push(candidate.to_string());
            assert(names(candidates@) =~= was.push(candidate@));
        }
        k = k + 1;
    }
    assert(order.subrange(0, k as int) =~= order);
    candidates
}

/// The Politics primary's first question: who becomes speaker, among everyone but the
/// current speaker. There is none when nobody else sits at the table.
pub fn speaker_choice(state: &GameState, player: &str) -> (choice: Option<Choice>)
    ensures
        (choice is Some) == (speaker_candidates(*state).len() > 0),
        choice matches Some(c) ==> is_speaker_choice(c, *state, player@),
{
    let candidates = candidates_of(state);
    let ghost list = names(candidates@);
    if candidates.len() == 0 {
        return None;
    }
    let mut options: Vec<ChoiceOption> = Vec::new();
    let mut k: usize = 0;
    while k < candidates.len()
        invariant
            k <= candidates@.len(),
            list == names(candidates@),
            option_views(options@) == list.subrange(0, k as int).map_values(|p: Seq<char>| speaker_view(*state, p)),
        decreases candidates@.len() - k,
    {
        let name = faction_label_of(state, candidates[k].as_str());
        let label = name.clone().concat(" becomes speaker");
        let ghost was = option_views(options@);
        options.push(ChoiceOption::labelled(name.as_str(), "speaker", label.as_str()));
        assert(option_views(options@) =~= was.push(speaker_view(*state, list[k as int])));
        assert(list.subrange(0, k + 1).map_values(|p: Seq<char>| speaker_view(*state, p)) =~= list.subrange(0, k as int).map_values(
            |p: Seq<char>| speaker_view(*state, p),
        ).push(speaker_view(*state, list[k as int])));
        k = k + 1;
    }
    assert(list.subrange(0, k as int) =~= list);
    Some(Choice::new(player, SPEAKER_PROMPT, options))
}

/// What answering the speaker question does: the first candidate the answer names becomes
/// speaker.
pub open spec fn speaker_chosen(before: GameState, after: GameState, player: Seq<char>, answer: OptionView, result: Result<(), IllegalChoice>) -> bool {
    let candidates = speaker_candidates(before);
    let views = candidates.map_values(|p: Seq<char>| speaker_view(before, p));
    if candidates.len() == 0 || none_answered(views, answer) {
        result matches Err(e) && e.player@ == player && e.answered@ == answer.id && after == before
    } else {
        exists|k: int| #[trigger] first_answered(views, k, answer) && {
            &&& result is Ok
            &&& after.speaker@ == candidates[k]
            &&& after == (GameState { speaker: after.speaker, ..before })
        }
    }
}

/// Take an answer to the speaker question.
pub fn speaker_answer(state: &mut GameState, player: &str, answer: ChoiceOption) -> (result: Result<(), IllegalChoice>)
    ensures
        speaker_chosen(*old(state), *final(state), player@, answer@, result),
{
    let choice = match speaker_choice(state, player) {
        Some(c) => c,
        None => return Err(IllegalChoice { player: player.to_string(), answered: answer.id }),
    };
    let candidates = candidates_of(state);
    let ghost views = option_views(choice.options@);
    let k = match answered_index(&choice, &answer) {
        Some(k) => k,
        None => return Err(IllegalChoice { player: player.to_string(), answered: answer.id }),
    };
    assert(first_answered(views, k as int, answer@));
    state.speaker = candidates[k].clone();
    Ok(())
}

/// The table after a player draws action cards from the top of the deck: as many as asked,
/// while the deck lasts, into their hand.
pub open spec fn drew_action_cards(before: GameState, after: GameState, player: Seq<char>, count: int) -> bool {
    let deck = before.action_card_deck@;
    let n = if count <= deck.len() { count } else { deck.len() as int };
    let i = seat_of(before.players@, player);
    &&& after.action_card_deck@ == deck.skip(n)
    &&& if i >= 0 {
        &&& after.players@ == before.players@.update(i, Seat { action_cards: after.players@[i].action_cards, ..before.players@[i] })
        &&& after.players@[i].action_cards@ == before.players@[i].action_cards@ + deck.take(n)
    } else {
        after.players == before.players
    }
    &&& after == (GameState { players: after.players, action_card_deck: after.action_card_deck, ..before })
}

/// Draw action cards from the top of the deck into a player's hand.
pub fn draw_action_cards(state: &mut GameState, player: &str, count: usize)
    ensures
        drew_action_cards(*old(state), *final(state), player@, count as int),
{
    let ghost before = *state;
    let n = if count <= state.action_card_deck.len() { count } else { state.action_card_deck.len() };
    let mut taken: Vec<String> = Vec::new();
    let mut k: usize = 0;
    while k < n
        invariant
            k <= n,
            n <= before.action_card_deck@.len(),
            state.action_card_deck@ == before.action_card_deck@.skip(k as int),
            taken@ == before.action_card_deck@.take(k as int),
            *state == (GameState { action_card_deck: state.action_card_deck, ..before }),
        decreases n - k,
    {
        let card = state.action_card_deck.remove(0);
        taken.push(card);
        assert(state.action_card_deck@ =~= before.action_card_deck@.skip(k + 1));
        assert(taken@ =~= before.action_card_deck@.take(k + 1));
        k = k + 1;
    }
    match find_seat(&state.players, player) {
        Some(i) => {
            let mut seat = state.players.remove(i);
            let ghost hand = seat.action_cards@;
            seat.action_cards.append(&mut taken);
            assert(seat.action_cards@ =~= hand + before.action_card_deck@.take(n as int));
            state.players.insert(i, seat);
            assert(state.players@ =~= before.players@.update(
                i as int,
                Seat { action_cards: state.players@[i as int].action_cards, ..before.players@[i as int] },
            ));
        },
        None => {},
    }
}

/// The action cards Politics draws.
pub const POLITICS_DRAWS: usize = 2;

/// How many agendas Politics looks at.
pub const AGENDAS_LOOKED_AT: usize = 2;

/// The table once Politics draws two action cards and takes the top two agendas (fewer when
/// the deck is short) off the deck to place; `looked` is what it took, top first.
pub open spec fn began_agendas(before: GameState, after: GameState, player: Seq<char>, looked: Seq<Seq<char>>) -> bool {
    let deck = before.agenda_deck@;
    let n = if AGENDAS_LOOKED_AT <= deck.len() { AGENDAS_LOOKED_AT as int } else { deck.len() as int };
    exists|drawn: GameState| #[trigger] drew_action_cards(before, drawn, player, POLITICS_DRAWS as int) && {
        &&& looked == names(deck.take(n))
        &&& after.agenda_deck@ == deck.skip(n)
        &&& after == (GameState { agenda_deck: after.agenda_deck, ..drawn })
    }
}

fn begin_agendas(state: &mut GameState, player: &str) -> (looked: Vec<String>)
    ensures
        began_agendas(*old(state), *final(state), player@, names(looked@)),
{
    let ghost before = *state;
    draw_action_cards(state, player, POLITICS_DRAWS);
    let ghost drawn = *state;
    let n = if AGENDAS_LOOKED_AT <= state.agenda_deck.len() { AGENDAS_LOOKED_AT } else { state.agenda_deck.len() };
    let mut looked: Vec<String> = Vec::new();
    let mut k: usize = 0;
    while k < n
        invariant
            k <= n,
            n <= before.agenda_deck@.len(),
            drawn.agenda_deck == before.agenda_deck,
            state.agenda_deck@ == before.agenda_deck@.skip(k as int),
            looked@ == before.agenda_deck@.take(k as int),
            *state == (GameState { agenda_deck: state.agenda_deck, ..drawn }),
        decreases n - k,
    {
        let agenda = state.agenda_deck.remove(0);
        looked.push(agenda);
        assert(state.agenda_deck@ =~= before.agenda_deck@.skip(k + 1));
        assert(looked@ =~= before.agenda_deck@.take(k + 1));
        k = k + 1;
    }
    assert(drew_action_cards(before, drawn, player@, POLITICS_DRAWS as int));
    looked
}

/// The question of where to place an agenda Politics looked at.
pub open spec fn placement_views() -> Seq<OptionView> {
    seq![
        OptionView { id: "top"@, kind: "agenda"@, label: "on top of the deck"@ },
        OptionView { id: "bottom"@, kind: "agenda"@, label: "on the bottom"@ },
    ]
}

/// Whether a choice is the question of where a player places an agenda.
pub open spec fn is_placement_choice(c: Choice, player: Seq<char>, agenda: Seq<char>) -> bool {
    &&& c.player@ == player
    &&& c.prompt@ == "place "@ + agenda + " where"@
    &&& option_views(c.options@) == placement_views()
}

/// Ask where to place an agenda: on top of the deck or at the bottom.
pub fn placement_choice(player: &str, agenda: &str) -> (choice: Choice)
    ensures
        is_placement_choice(choice, player@, agenda@),
{
    let prompt = "place ".to_string().concat(agenda).concat(" where");
    let options = vec![
        ChoiceOption::labelled("top", "agenda", "on top of the deck"),
        ChoiceOption::labelled("bottom", "agenda", "on the bottom"),
    ];
    let choice = Choice::new(player, prompt.as_str(), options);
    assert(option_views(choice.options@) =~= placement_views());
    choice
}

/// What answering the placement question does: the agenda goes on top of the deck, or at the
/// bottom.
pub open spec fn agenda_placed(before: GameState, after: GameState, player: Seq<char>, agenda: Seq<char>, answer: OptionView, result: Result<(), IllegalChoice>) -> bool {
    if answer.kind == "agenda"@ && answer.id == "top"@ {
        result is Ok && names(after.agenda_deck@) == seq![agenda] + names(before.agenda_deck@) && after == (GameState {
            agenda_deck: after.agenda_deck,
            ..before
        })
    } else if answer.kind == "agenda"@ && answer.id == "bottom"@ {
        result is Ok && names(after.agenda_deck@) == names(before.agenda_deck@).push(agenda) && after == (GameState {
            agenda_deck: after.agenda_deck,
            ..before
        })
    } else {
        result matches Err(e) && e.player@ == player && e.answered@ == answer.id && after == before
    }
}

/// Take the answer to the placement question.
pub fn placement_answer(state: &mut GameState, player: &str, agenda: &str, answer: ChoiceOption) -> (result: Result<(), IllegalChoice>)
    ensures
        agenda_placed(*old(state), *final(state), player@, agenda@, answer@, result),
{
    if !str_eq(answer.kind.as_str(), "agenda") {
        return Err(IllegalChoice { player: player.to_string(), answered: answer.id });
    }
    let ghost deck = names(state.agenda_deck@);
    if str_eq(answer.id.as_str(), "top") {
        state.agenda_deck.insert(0, agenda.to_string());
        assert(names(state.agenda_deck@) =~= seq![agenda@] + deck);
        Ok(())
    } else if str_eq(answer.id.as_str(), "bottom") {
        state.agenda_deck.push(agenda.to_string());
        assert(names(state.agenda_deck@) =~= deck.push(agenda@));
        Ok(())
    } else {
        Err(IllegalChoice { player: player.to_string(), answered: answer.id })
    }
}

/// Where a Politics primary stands: the speaker to choose, or the agendas still to place.
#[derive(Debug, Clone, Copy, PartialEq, Eq, Structural)]
pub enum PoliticsStep {
    Speaker,
    Agendas,
}

/// The Politics primary: choose a new speaker, draw two action cards, then look at the top
/// two agendas and place each on top of the deck or at the bottom.
#[derive(Debug)]
pub struct Politics {
    pub player: String,
    pub step: PoliticsStep,
    /// The agendas taken off the deck and still to place, in the order they are placed.
    pub looked: Vec<String>,
}

/// The table and the agendas still to place, once a Politics primary has passed the
/// questions with nothing to offer.
pub open spec fn politics_settled(w: Politics, before: GameState, v: Politics, after: GameState) -> bool {
    if w.step == PoliticsStep::Speaker && speaker_candidates(before).len() == 0 {
        &&& began_agendas(before, after, w.player@, names(v.looked@))
        &&& v.step == PoliticsStep::Agendas
        &&& v.player == w.player
    } else {
        after == before && v == w
    }
}

impl Politics {
    /// The Politics primary for a player.
    pub fn primary(player: &str) -> (p: Self)
        ensures
            p.player@ == player@,
            p.step == PoliticsStep::Speaker,
            p.looked@.len() == 0,
    {
        Politics { player: player.to_string(), step: PoliticsStep::Speaker, looked: Vec::new() }
    }

    fn settle(&mut self, state: &mut GameState)
        ensures
            politics_settled(*old(self), *old(state), *final(self), *final(state)),
    {
        if self.step == PoliticsStep::Speaker && speaker_choice(state, self.player.as_str()).is_none() {
            self.looked = begin_agendas(state, self.player.as_str());
            self.step = PoliticsStep::Agendas;
        }
    }

    /// Whether nothing is left to ask.
    pub fn is_complete(&self) -> (done: bool)
        ensures
            done == (self.step == PoliticsStep::Agendas && self.looked@.len() == 0),
    {
        self.step == PoliticsStep::Agendas && self.looked.len() == 0
    }

    /// The question the primary asks next, or `None` when nothing is left to ask. Where nobody
    /// can become speaker, the cards are drawn and the agendas taken up first.
    pub fn pending_choice(&mut self, state: &mut GameState) -> (choice: Option<Choice>)
        ensures
            politics_settled(*old(self), *old(state), *final(self), *final(state)),
            match final(self).step {
                PoliticsStep::Speaker => choice matches Some(c) && is_speaker_choice(c, *final(state), final(self).player@),
                PoliticsStep::Agendas => if final(self).looked@.len() == 0 {
                    choice is None
                } else {
                    choice matches Some(c) && is_placement_choice(c, final(self).player@, final(self).looked@[0]@)
                },
            },
    {
        self.settle(state);
        match self.step {
            PoliticsStep::Speaker => speaker_choice(state, self.player.as_str()),
            PoliticsStep::Agendas => if self.looked.len() == 0 {
                None
            } else {
                Some(placement_choice(self.player.as_str(), self.looked[0].as_str()))
            },
        }
    }

    /// Take the answer to the question the primary asks next: a new speaker, after which the
    /// cards are drawn and the agendas taken up, or the place of the next agenda.
    pub fn take_choice(&mut self, state: &mut GameState, answer: ChoiceOption) -> (result: Result<(), IllegalChoice>)
        ensures
            exists|w: Politics, s: GameState| #[trigger] politics_settled(*old(self), *old(state), w, s) && match w.step {
                PoliticsStep::Speaker => exists|chosen: GameState| #[trigger] speaker_chosen(s, chosen, w.player@, answer@, result) && if result is Ok {
                    &&& began_agendas(chosen, *final(state), w.player@, names(final(self).looked@))
                    &&& final(self).step == PoliticsStep::Agendas
                    &&& final(self).player == w.player
                } else {
                    *final(state) == chosen && *final(self) == w
                },
                PoliticsStep::Agendas => if w.looked@.len() == 0 {
                    result matches Err(e) && e.player@ == w.player@ && e.answered@ == answer@.id && *final(state) == s && *final(self) == w
                } else {
                    &&& agenda_placed(s, *final(state), w.player@, w.looked@[0]@, answer@, result)
                    &&& final(self).player == w.player
                    &&& final(self).step == w.step
                    &&& names(final(self).looked@) == if result is Ok {
                        names(w.looked@).drop_first()
                    } else {
                        names(w.looked@)
                    }
                },
            },
    {
        let ghost w0 = *self;
        let ghost s0 = *state;
        self.settle(state);
        let ghost w1 = *self;
        let ghost s1 = *state;
        match self.step {
            PoliticsStep::Speaker => {
                let r = speaker_answer(state, self.player.as_str(), answer);
                let ghost chosen = *state;
                if r.is_ok() {
                    self.looked = begin_agendas(state, self.player.as_str());
                    self.step = PoliticsStep::Agendas;
                }
                assert(speaker_chosen(s1, chosen, w1.player@, answer@, r));
                r
            },
            PoliticsStep::Agendas => {
                if self.looked.len() == 0 {
                    return Err(IllegalChoice { player: self.player.clone(), answered: answer.id });
                }
                let agenda = self.looked[0].clone();
                let r = placement_answer(state, self.player.as_str(), agenda.as_str(), answer);
                if r.is_ok() {
                    let ghost was = names(self.looked@);
                    self.looked.remove(0);
                    assert(names(self.looked@) =~= was.drop_first());
                }
                r
            },
        }
    }
}

/// Whether a player controls a planet in the Mecatol Rex system.
pub open spec fn holds_mecatol(state: GameState, player: Seq<char>) -> bool {
    exists|k: int| 0 <= k < controlled(state.board@, player).len() && #[trigger] controlled(state.board@, player)[k].0 == MECATOL@
}

/// Whether some seat has reached the victory target.
pub open spec fn someone_won(players: Seq<Seat>, victory_target: i32) -> bool {
    exists|j: int| 0 <= j < players.len() && #[trigger] players[j].victory_points >= victory_target
}

/// The Imperial primary's reward: a victory point, up to the target, for a player who holds
/// Mecatol Rex; a secret objective drawn from `secret_deck` otherwise. The game is over once
/// anyone has reached `victory_target`.
pub fn imperial_reward(state: &mut GameState, secret_deck: &mut Vec<String>, player: &str, victory_target: i32)
    ensures
        ({
            let i = seat_of(old(state).players@, player@);
            if holds_mecatol(*old(state), player@) {
                let seat = old(state).players@[i];
                &&& i >= 0 ==> final(state).players@ == old(state).players@.update(
                    i,
                    Seat {
                        victory_points: if seat.victory_points + 1 <= victory_target {
                            (seat.victory_points + 1) as i32
                        } else {
                            victory_target
                        },
                        ..seat
                    },
                )
                &&& i < 0 ==> final(state).players@ == old(state).players@
                &&& final(secret_deck)@ == old(secret_deck)@
                &&& *final(state) == (GameState { players: final(state).players, finished: final(state).finished, ..*old(state) })
            } else {
                exists|drawn: GameState| {
                    &&& #[trigger] crate::secrets::drew_secret(*old(state), drawn, old(secret_deck)@, final(secret_deck)@, player@)
                    &&& *final(state) == (GameState { finished: final(state).finished, ..drawn })
                }
            }
        }),
        final(state).finished == someone_won(final(state).players@, victory_target),
{
    let ghost before = *state;
    let held = controlled_planets(state, player);
    let mut mecatol = false;
    let mut k: usize = 0;
    while k < held.len()
        invariant
            k <= held@.len(),
            pair_names(held@) == controlled(state.board@, player@),
            mecatol == exists|m: int| 0 <= m < k && #[trigger] controlled(state.board@, player@)[m].0 == MECATOL@,
        decreases held@.len() - k,
    {
        if str_eq(held[k].0.as_str(), MECATOL) {
            assert(controlled(state.board@, player@)[k as int].0 == MECATOL@);
            mecatol = true;
        }
        k = k + 1;
    }
    if mecatol {
        match find_seat(&state.players, player) {
            Some(i) => {
                let mut seat = state.players.remove(i);
                seat.victory_points = if seat.victory_points < victory_target { seat.victory_points + 1 } else { victory_target };
                state.players.insert(i, seat);
                assert(state.players@ =~= before.players@.update(
                    i as int,
                    Seat {
                        victory_points: if before.players@[i as int].victory_points + 1 <= victory_target {
                            (before.players@[i as int].victory_points + 1) as i32
                        } else {
                            victory_target
                        },
                        ..before.players@[i as int]
                    },
                ));
            },
            None => {},
        }
    } else {
        let ghost deck = secret_deck@;
        crate::secrets::draw(state, secret_deck, player);
        assert(crate::secrets::drew_secret(before, *state, deck, secret_deck@, player@));
    }
    let ghost decided = *state;
    let mut won = false;
    let mut j: usize = 0;
    while j < state.players.len()
        invariant
            j <= state.players@.len(),
            won == exists|m: int| 0 <= m < j && #[trigger] state.players@[m].victory_points >= victory_target,
        decreases state.players@.len() - j,
    {
        if state.players[j].victory_points >= victory_target {
            won = true;
        }
        j = j + 1;
    }
    state.finished = won;
}

/// The prompt of the Thunder's Edge Warfare primary.
pub const TE_WARFARE_PROMPT: &'static str = "Warfare: a tactical action without a command token";

/// Whether the Thunder's Edge Warfare primary offers anything: only in the action phase, and
/// only with a map that has systems.
pub open spec fn te_warfare_open(state: GameState, systems: Option<Seq<Seq<char>>>) -> bool {
    state.phase == Phase::Action && (systems matches Some(s) && s.len() > 0)
}

/// The option that takes a free tactical action in a system.
pub open spec fn activate_view(system: Seq<char>) -> OptionView {
    OptionView { id: system, kind: "activate"@, label: "free tactical action in "@ + system }
}

/// The options of the Thunder's Edge Warfare primary: every system of the map, in its order.
pub open spec fn activate_views(systems: Seq<Seq<char>>) -> Seq<OptionView> {
    systems.map_values(|s: Seq<char>| activate_view(s))
}

/// The systems of a map, as text.
pub open spec fn map_view(systems: Option<&Vec<String>>) -> Option<Seq<Seq<char>>> {
    match systems {
        Some(s) => Some(names(s@)),
        None => None,
    }
}

fn activate_choice(player: &str, systems: &Vec<String>) -> (choice: Choice)
    ensures
        choice.player@ == player@,
        choice.prompt@ == TE_WARFARE_PROMPT@,
        option_views(choice.options@) == activate_views(names(systems@)),
{
    let ghost views = activate_views(names(systems@));
    let mut options: Vec<ChoiceOption> = Vec::new();
    let mut k: usize = 0;
    while k < systems.len()
        invariant
            k <= systems@.len(),
            views == activate_views(names(systems@)),
            option_views(options@) == views.subrange(0, k as int),
        decreases systems@.len() - k,
    {
        let label = "free tactical action in ".to_string().concat(systems[k].as_str());
        let ghost was = option_views(options@);
        options.push(ChoiceOption::labelled(systems[k].as_str(), "activate", label.as_str()));
        assert(option_views(options@) =~= was.push(views[k as int]));
        assert(views.subrange(0, k + 1) =~= views.subrange(0, k as int).push(views[k as int]));
        k = k + 1;
    }
    assert(views.subrange(0, k as int) =~= views);
    Choice::new(player, TE_WARFARE_PROMPT, options)
}

/// The choice the Thunder's Edge Warfare primary puts to its player: a system of the map for a
/// tactical action without a command token. Nothing outside the action phase, without a map, or
/// with a map of no systems. `systems` are the map's systems in its order, `None` for no map.
pub fn te_warfare_choice(state: &GameState, systems: Option<&Vec<String>>, player: &str) -> (choice: Option<Choice>)
    ensures
        choice is Some <==> te_warfare_open(*state, map_view(systems)),
        choice matches Some(c) ==> c.player@ == player@ && c.prompt@ == TE_WARFARE_PROMPT@ && option_views(c.options@)
            == activate_views(map_view(systems)->0),
{
    if state.phase != Phase::Action {
        return None;
    }
    match systems {
        Some(s) => if s.len() == 0 {
            None
        } else {
            Some(activate_choice(player, s))
        },
        None => None,
    }
}

/// Resolve the Thunder's Edge Warfare primary: nothing outside the action phase or without a
/// map with systems (the answer is not read); otherwise a free tactical action in the system the
/// answer names, and an answer naming none is refused.
pub fn te_warfare_answer(state: &GameState, systems: Option<&Vec<String>>, player: &str, answer: ChoiceOption) -> (result: Result<Ability, IllegalChoice>)
    ensures
        !te_warfare_open(*state, map_view(systems)) ==> result == Ok::<Ability, IllegalChoice>(Ability::Resolved),
        te_warfare_open(*state, map_view(systems)) ==> match result {
            Ok(Ability::FreeTactical(system)) => exists|k: int| #[trigger] first_answered(activate_views(map_view(systems)->0), k, answer@)
                && system@ == map_view(systems)->0[k],
            Ok(_) => false,
            Err(illegal) => none_answered(activate_views(map_view(systems)->0), answer@) && illegal.player@ == player@,
        },
{
    let choice = match te_warfare_choice(state, systems, player) {
        Some(c) => c,
        None => return Ok(Ability::Resolved),
    };
    let s = systems.unwrap();
    match answered_index(&choice, &answer) {
        Some(k) => {
            assert(option_views(choice.options@).len() == s@.len());
            Ok(Ability::FreeTactical(s[k].clone()))
        },
        None => Err(IllegalChoice { player: choice.player, answered: answer.id }),
    }
}

/// The prompt of the Thunder's Edge Construction primary.
pub const TE_CONSTRUCTION_PROMPT: &'static str = "Construction: a structure or a production";

/// The option that places a structure.
pub open spec fn structure_view() -> OptionView {
    OptionView { id: "structure"@, kind: "build"@, label: "place a structure"@ }
}

/// The option that uses PRODUCTION in a system.
pub open spec fn produce_view(system: Seq<char>) -> OptionView {
    OptionView { id: "produce|"@ + system, kind: "build"@, label: "use PRODUCTION in "@ + system }
}

/// The options of the Thunder's Edge Construction primary: a structure, then a production in
/// each system where the player can produce.
pub open spec fn construction_views(systems: Seq<Seq<char>>) -> Seq<OptionView> {
    seq![structure_view()] + systems.map_values(|s: Seq<char>| produce_view(s))
}

/// The choice the Thunder's Edge Construction primary puts to its player: one abstract
/// structure option against a production in each system where they can produce (`systems`,
/// those with production capacity, in board order). A structure follows either way.
pub fn te_construction_choice(player: &str, systems: &Vec<String>) -> (choice: Choice)
    ensures
        choice.player@ == player@,
        choice.prompt@ == TE_CONSTRUCTION_PROMPT@,
        option_views(choice.options@) == construction_views(names(systems@)),
{
    let ghost tail = names(systems@).map_values(|s: Seq<char>| produce_view(s));
    let mut options: Vec<ChoiceOption> = Vec::new();
    options.push(ChoiceOption::labelled("structure", "build", "place a structure"));
    let mut k: usize = 0;
    while k < systems.len()
        invariant
            k <= systems@.len(),
            tail == names(systems@).map_values(|s: Seq<char>| produce_view(s)),
            option_views(options@) == seq![structure_view()] + tail.subrange(0, k as int),
        decreases systems@.len() - k,
    {
        let id = "produce|".to_string().concat(systems[k].as_str());
        let label = "use PRODUCTION in ".to_string().concat(systems[k].as_str());
        let ghost was = option_views(options@);
        options.push(ChoiceOption::labelled(id.as_str(), "build", label.as_str()));
        assert(option_views(options@) =~= was.push(tail[k as int]));
        assert(seq![structure_view()] + tail.subrange(0, k + 1) =~= (seq![structure_view()] + tail.subrange(0, k as int)).push(tail[k as int]));
        k = k + 1;
    }
    assert(tail.subrange(0, k as int) =~= tail);
    Choice::new(player, TE_CONSTRUCTION_PROMPT, options)
}

/// What the Thunder's Edge Construction primary is answered with: a structure, or a production
/// in a system. A structure is placed after either.
#[derive(Debug, Clone, PartialEq, Eq)]
pub enum ConstructionPick {
    Structure,
    Produce(String),
}

/// Read the answer to the Thunder's Edge Construction primary: the structure option, or the
/// system whose production option it names; an answer naming neither is refused.
pub fn te_construction_answer(player: &str, systems: &Vec<String>, answer: ChoiceOption) -> (result: Result<ConstructionPick, IllegalChoice>)
    ensures
        match result {
            Ok(ConstructionPick::Structure) => first_answered(construction_views(names(systems@)), 0, answer@),
            Ok(ConstructionPick::Produce(system)) => exists|k: int| 0 <= k < systems@.len()
                && #[trigger] first_answered(construction_views(names(systems@)), k + 1, answer@) && system@ == systems@[k]@,
            Err(illegal) => none_answered(construction_views(names(systems@)), answer@) && illegal.player@ == player@,
        },
{
    let choice = te_construction_choice(player, systems);
    match answered_index(&choice, &answer) {
        Some(0) => Ok(ConstructionPick::Structure),
        Some(k) => {
            assert(option_views(choice.options@).len() == systems@.len() + 1);
            let system = systems[k - 1].clone();
            proof {
                let j = k - 1;
                assert(first_answered(construction_views(names(systems@)), j + 1, answer@));
            }
            Ok(ConstructionPick::Produce(system))
        },
        None => Err(IllegalChoice { player: choice.player, answered: answer.id }),
    }
}

/// The prompt of the structure placement.
pub const STRUCTURE_PROMPT: &'static str = "place a structure";

/// The question a structure placement puts: the structure options (`kind|system|planet`, those
/// the player may place) and a decline; nothing to ask where there are none.
pub fn structure_choice(player: &str, options: Vec<ChoiceOption>) -> (choice: Option<Choice>)
    ensures
        options@.len() == 0 <==> choice.is_none(),
        choice matches Some(c) ==> c.player@ == player@ && c.prompt@ == STRUCTURE_PROMPT@
            && option_views(c.options@) == option_views(options@).push(decline_view()),
{
    if options.len() == 0 {
        return None;
    }
    let mut options = options;
    let ghost was = option_views(options@);
    options.push(ChoiceOption::decline());
    assert(option_views(options@) =~= was.push(decline_view()));
    Some(Choice::new(player, STRUCTURE_PROMPT, options))
}

/// The parts of a structure option's id, `kind|system|planet`, when it has exactly three.
pub open spec fn structure_parts(id: Seq<char>) -> Option<(Seq<char>, Seq<char>, Seq<char>)> {
    let a = find_from(id, '|', 0);
    let b = find_from(id, '|', a + 1);
    let c = find_from(id, '|', b + 1);
    if a < id.len() && b < id.len() && c >= id.len() {
        Some((id.subrange(0, a), id.subrange(a + 1, b), id.subrange(b + 1, id.len() as int)))
    } else {
        None
    }
}

/// What a structure answer places, as (kind, system, planet): nothing for a decline, for an id
/// not of three parts, or for a planet the player does not control in that system.
pub open spec fn structure_target(state: GameState, player: Seq<char>, answer: OptionView) -> Option<
    (Seq<char>, Seq<char>, Seq<char>),
> {
    if crate::choice::spec_is_decline(answer) {
        None
    } else {
        match structure_parts(answer.id) {
            Some(t) => if controlled(state.board@, player).contains((t.1, t.2)) {
                Some(t)
            } else {
                None
            },
            None => None,
        }
    }
}

/// The board after `u` is placed on `planet` of `system`: added to that planet's units, the
/// planet's entry (or the system) made where there is none.
pub open spec fn structure_placed(
    b: Seq<SystemView>,
    system: Seq<char>,
    planet: Seq<char>,
    u: (Seq<char>, Seq<char>, bool, bool),
) -> Seq<SystemView> {
    let i = view_index(b, system, b.len() as int);
    if i < 0 {
        b.push(SystemView { id: system, units: seq![], planets: seq![(planet, seq![u])], control: seq![], tokens: seq![] })
    } else {
        let planets = b[i].planets;
        let p = crate::transit::planet_index(planets, planet, planets.len() as int);
        if p < 0 {
            b.update(i, SystemView { planets: planets.push((planet, seq![u])), ..b[i] })
        } else {
            b.update(i, SystemView { planets: planets.update(p, (planets[p].0, planets[p].1.push(u))), ..b[i] })
        }
    }
}

fn has_controlled(held: &Vec<(String, String)>, system: &str, planet: &str) -> (found: bool)
    ensures
        found == pair_names(held@).contains((system@, planet@)),
{
    let ghost all = pair_names(held@);
    let mut k: usize = 0;
    while k < held.len()
        invariant
            k <= held@.len(),
            all == pair_names(held@),
            forall|j: int| 0 <= j < k ==> all[j] != (system@, planet@),
        decreases held@.len() - k,
    {
        if str_eq(held[k].0.as_str(), system) && str_eq(held[k].1.as_str(), planet) {
            assert(all[k as int] == (system@, planet@));
            return true;
        }
        k = k + 1;
    }
    false
}

/// Put `u` on `planet` of `system`, making the planet's entry, or the system, where there is none.
fn put_on_planet(state: &mut GameState, system: &str, planet: &str, u: Unit)
    ensures
        crate::transit::only_board_changed(*old(state), *final(state)),
        board_view(final(state).board@) == structure_placed(board_view(old(state).board@), system@, planet@, unit_view(u)),
{
    let ghost b0 = board_view(state.board@);
    let ghost uv = unit_view(u);
    let mut units: Vec<Unit> = Vec::new();
    units.push(u);
    assert(units_view(units@) =~= seq![uv]);
    match crate::transit::find_view_system(&state.board, system) {
        None => {
            let mut planets: Vec<(String, Vec<Unit>)> = Vec::new();
            planets.push((planet.to_string(), units));
            let fresh = SystemState {
                id: system.to_string(),
                units: Vec::new(),
                planet_units: planets,
                planet_control: Vec::new(),
                command_tokens: Vec::new(),
            };
            assert(fresh.planet_units@.map_values(|e: (String, Vec<Unit>)| (e.0@, units_view(e.1@))) =~= seq![(planet@, seq![uv])]);
            assert(units_view(fresh.units@) =~= seq![]);
            state.board.push(fresh);
            assert(board_view(state.board@) =~= b0.push(
                SystemView { id: system@, units: seq![], planets: seq![(planet@, seq![uv])], control: seq![], tokens: seq![] },
            ));
        },
        Some(i) => {
            let mut here = state.board.remove(i);
            let ghost sys0 = here;
            assert(b0[i as int] == crate::transit::system_view(sys0));
            let ghost ps = b0[i as int].planets;
            match crate::transit::find_planet(&here.planet_units, planet) {
                None => {
                    here.planet_units.push((planet.to_string(), units));
                    assert(here.planet_units@.map_values(|e: (String, Vec<Unit>)| (e.0@, units_view(e.1@))) =~= ps.push((planet@, seq![uv])));
                    state.board.insert(i, here);
                    assert(board_view(state.board@) =~= b0.update(
                        i as int,
                        SystemView { planets: ps.push((planet@, seq![uv])), ..b0[i as int] },
                    ));
                },
                Some(p) => {
                    let mut entry = here.planet_units.remove(p);
                    let ghost e0 = entry;
                    assert(ps[p as int] == (e0.0@, units_view(e0.1@)));
                    let mut more = units;
                    entry.1.append(&mut more);
                    assert(units_view(entry.1@) =~= units_view(e0.1@).push(uv));
                    here.planet_units.insert(p, entry);
                    let ghost ps1 = ps.update(p as int, (ps[p as int].0, ps[p as int].1.push(uv)));
                    assert(here.planet_units@.map_values(|e: (String, Vec<Unit>)| (e.0@, units_view(e.1@))) =~= ps1);
                    state.board.insert(i, here);
                    assert(board_view(state.board@) =~= b0.update(i as int, SystemView { planets: ps1, ..b0[i as int] }));
                },
            }
        },
    }
}

/// Place the structure a player's answer names, `kind|system|planet`, on a planet they control:
/// the structure stands among that planet's units. Returns the system it went into; nothing
/// is placed for a decline, an id not of three parts, or a planet not theirs.
pub fn place_structure(state: &mut GameState, player: &str, answer: &ChoiceOption) -> (placed: Option<String>)
    ensures
        match structure_target(*old(state), player@, answer@) {
            None => placed.is_none() && *final(state) == *old(state),
            Some(t) => placed matches Some(system) && system@ == t.1
                && crate::transit::only_board_changed(*old(state), *final(state))
                && board_view(final(state).board@) == structure_placed(
                    board_view(old(state).board@),
                    t.1,
                    t.2,
                    (t.0, player@, false, false),
                ),
        },
{
    if answer.is_decline() {
        return None;
    }
    let id = answer.id.as_str();
    let n = id.unicode_len();
    let a = find_char(id, '|', 0);
    if a >= n {
        return None;
    }
    let b = find_char(id, '|', a + 1);
    if b >= n {
        return None;
    }
    let c = find_char(id, '|', b + 1);
    if c < n {
        return None;
    }
    let kind = id.substring_char(0, a);
    let system = id.substring_char(a + 1, b);
    let planet = id.substring_char(b + 1, n);
    let held = controlled_planets(state, player);
    if !has_controlled(&held, system, planet) {
        return None;
    }
    let structure = Unit { type_id: kind.to_string(), owner: player.to_string(), sustained_damage: false, galvanized: false };
    put_on_planet(state, system, planet, structure);
    Some(system.to_string())
}

proof fn lemma_all_but_members(list: Seq<Seq<char>>, name: Seq<char>, x: Seq<char>)
    ensures
        all_but(list, name).contains(x) <==> (list.contains(x) && x != name),
    decreases list.len(),
{
    if list.len() > 0 {
        let rest = list.drop_last();
        lemma_all_but_members(rest, name, x);
        if list.contains(x) && !rest.contains(x) {
            let k = choose|k: int| 0 <= k < list.len() && list[k] == x;
            if k < rest.len() {
                assert(rest[k] == x);
            }
        }
        if rest.contains(x) {
            let k = choose|k: int| 0 <= k < rest.len() && rest[k] == x;
            assert(list[k] == x);
        }
        if all_but(list, name).contains(x) && !all_but(rest, name).contains(x) {
            let r = all_but(rest, name);
            assert(all_but(list, name) == r.push(list.last()));
            let k = choose|k: int| 0 <= k < r.len() + 1 && r.push(list.last())[k] == x;
            if k < r.len() {
                assert(r[k] == x);
            }
        }
        if list.last() != name {
            assert(all_but(list, name)[all_but(list, name).len() - 1] == list.last());
        }
        if all_but(rest, name).contains(x) {
            let r = all_but(rest, name);
            let k = choose|k: int| 0 <= k < r.len() && r[k] == x;
            if list.last() != name {
                assert(all_but(list, name)[k] == x);
            } else {
                assert(all_but(list, name)[k] == x);
            }
        }
    }
}

proof fn lemma_trade_offer_members(state: GameState, values: Seq<(String, i32)>, others: Seq<Seq<char>>, i: int)
    requires
        0 <= i < state.players@.len(),
    ensures
        trade_offers(state, values, others).contains(i) <==> (others.contains(state.players@[i].id@) && seat_of(
            state.players@,
            state.players@[i].id@,
        ) == i && state.players@[i].faction@ != "generic"@ && state.players@[i].commodities < commodity_value(
            values,
            state.players@[i].faction@,
        )),
    decreases others.len(),
{
    let id = state.players@[i].id@;
    if others.len() > 0 {
        let rest = others.drop_last();
        lemma_trade_offer_members(state, values, rest, i);
        let last = others.last();
        let j = seat_of(state.players@, last);
        crate::state::lemma_seat_of(state.players@, last);
        let r = trade_offers(state, values, rest);
        let t = trade_offers(state, values, others);
        if others.contains(id) && !rest.contains(id) {
            let k = choose|k: int| 0 <= k < others.len() && others[k] == id;
            if k < rest.len() {
                assert(rest[k] == id);
            }
        }
        if rest.contains(id) {
            let k = choose|k: int| 0 <= k < rest.len() && rest[k] == id;
            assert(others[k] == id);
        }
        if j >= 0 && below_limit(state.players@[j], values) {
            assert(t == r.push(j));
            assert(t[r.len() as int] == j);
            if r.contains(i) {
                let k = choose|k: int| 0 <= k < r.len() && r[k] == i;
                assert(t[k] == i);
            }
            if t.contains(i) && !r.contains(i) {
                let k = choose|k: int| 0 <= k < t.len() && t[k] == i;
                if k < r.len() {
                    assert(r[k] == i);
                }
            }
        }
        if last == id {
            assert(others[others.len() - 1] == id);
        }
    }
}

/// The Trade primary lets replenish exactly the other players at the table whose faction has a
/// printed commodity value (the generic faction has none) and who hold fewer commodities than
/// it: seat `i` is offered if and only if it is seated in the seating order, is not the player,
/// is the seat its id names, is not generic, and is below its printed value. A seat short of
/// its value by any amount is offered, not only one with none left.
pub proof fn trade_offers_every_seat_below_its_value(state: GameState, values: Seq<(String, i32)>, player: Seq<char>, i: int)
    requires
        0 <= i < state.players@.len(),
    ensures
        offered_seats(state, values, player).contains(i) <==> ({
            let seat = state.players@[i];
            &&& names(state.seating_order@).contains(seat.id@)
            &&& seat.id@ != player
            &&& seat_of(state.players@, seat.id@) == i
            &&& seat.faction@ != "generic"@
            &&& seat.commodities < commodity_value(values, seat.faction@)
        }),
{
    lemma_trade_offer_members(state, values, others_than(state, player), i);
    lemma_all_but_members(names(state.seating_order@), player, state.players@[i].id@);
}

} // verus!
