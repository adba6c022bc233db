//! The technologies that open a free window at the start or at the end of an action-phase turn:
//! Psychoarchaeology, Transit Diodes and Chaos Mapping before it, Predictive Intelligence and
//! Bio-Stims after it.
//!
//! Each window is a question and the effect of its answer. The turn windows themselves,
//! [`StartOfTurn`] and [`EndOfTurn`], sequence them: the driver asks what they pend and hands
//! back the answer.

use vstd::prelude::*;
use crate::choice::{answered_index, first_answered, none_answered, option_views, payload_view, Choice, ChoiceOption, IllegalChoice, OptionView, Value, ValueView, DECLINE_ID, DECLINE_KIND};
use crate::state::{contains_name, find_seat, lemma_seat_of_same_ids, names, remove_first, seat_of, without_first, GameState, Seat, SystemState, Unit};
use crate::strategy::{label_for, label_of};
use crate::technology::{find_planet, planet_index, PlanetRecord};
use crate::text::str_eq;

verus! {

/// The planets a player controls in one system, as (system, planet), in the order control
/// was recorded.
pub open spec fn held_in(system: Seq<char>, control: Seq<(String, String)>, player: Seq<char>) -> Seq<(Seq<char>, Seq<char>)>
    decreases control.len(),
{
    if control.len() == 0 {
        Seq::empty()
    } else {
        let rest = held_in(system, control.drop_last(), player);
        if control.last().1@ == player {
            rest.push((system, control.last().0@))
        } else {
            rest
        }
    }
}

/// The planets a player controls, as (system, planet), system by system in board order.
pub open spec fn controlled(board: Seq<SystemState>, player: Seq<char>) -> Seq<(Seq<char>, Seq<char>)>
    decreases board.len(),
{
    if board.len() == 0 {
        Seq::empty()
    } else {
        controlled(board.drop_last(), player) + held_in(board.last().id@, board.last().planet_control@, player)
    }
}

/// Pairs of names, as text.
pub open spec fn pair_names(list: Seq<(String, String)>) -> Seq<(Seq<char>, Seq<char>)> {
    list.map_values(|p: (String, String)| (p.0@, p.1@))
}

/// The planets a player controls, as (system, planet).
pub fn controlled_planets(state: &GameState, player: &str) -> (held: Vec<(String, String)>)
    ensures
        pair_names(held@) == controlled(state.board@, player@),
{
    let mut held: Vec<(String, String)> = Vec::new();
    let mut i: usize = 0;
    while i < state.board.len()
        invariant
            i <= state.board@.len(),
            pair_names(held@) == controlled(state.board@.subrange(0, i as int), player@),
        decreases state.board@.len() - i,
    {
        let system = &state.board[i];
        let ghost before = pair_names(held@);
        let mut j: usize = 0;
        while j < system.planet_control.len()
            invariant
                i < state.board@.len(),
                *system == state.board@[i as int],
                j <= system.planet_control@.len(),
                pair_names(held@) == before + held_in(system.id@, system.planet_control@.subrange(0, j as int), player@),
            decreases system.planet_control@.len() - j,
        {
            proof {
                assert(system.planet_control@.subrange(0, j + 1).drop_last() =~= system.planet_control@.subrange(0, j as int));
            }
            let entry = &system.planet_control[j];
            if str_eq(entry.1.as_str(), player) {
                let ghost was = pair_names(held@);
                held.push((system.id.clone(), entry.0.clone()));
                assert(pair_names(held@) =~= was.push((system.id@, entry.0@)));
            }
            j = j + 1;
        }
        proof {
            assert(system.planet_control@.subrange(0, j as int) =~= system.planet_control@);
            assert(state.board@.subrange(0, i + 1).drop_last() =~= state.board@.subrange(0, i as int));
        }
        i = i + 1;
    }
    assert(state.board@.subrange(0, i as int) =~= state.board@);
    held
}

/// Whether the catalogue prints a technology specialty on a planet.
pub open spec fn has_specialty(planets: Seq<PlanetRecord>, planet: Seq<char>) -> bool {
    planet_index(planets, planet) >= 0 && planets[planet_index(planets, planet)].specialties@.len() > 0
}

fn is_specialty(planets: &Vec<PlanetRecord>, planet: &str) -> (yes: bool)
    ensures
        yes == has_specialty(planets@, planet@),
{
    match find_planet(planets, planet) {
        Some(k) => planets[k].specialties.len() > 0,
        None => false,
    }
}

/// The controlled planets, in order, that bear a specialty and are exhausted (`exhausted`) or
/// ready (`!exhausted`).
pub open spec fn specialty_planets(state: GameState, planets: Seq<PlanetRecord>, held: Seq<(Seq<char>, Seq<char>)>, exhausted: bool) -> Seq<Seq<char>>
    decreases held.len(),
{
    if held.len() == 0 {
        Seq::empty()
    } else {
        let rest = specialty_planets(state, planets, held.drop_last(), exhausted);
        let planet = held.last().1;
        if names(state.exhausted_planets@).contains(planet) == exhausted && has_specialty(planets, planet) {
            rest.push(planet)
        } else {
            rest
        }
    }
}

fn pick_specialty_planets(state: &GameState, planets: &Vec<PlanetRecord>, held: &Vec<(String, String)>, exhausted: bool) -> (picked: Vec<String>)
    ensures
        names(picked@) == specialty_planets(*state, planets@, pair_names(held@), exhausted),
{
    let mut picked: Vec<String> = Vec::new();
    let mut k: usize = 0;
    while k < held.len()
        invariant
            k <= held@.len(),
            names(picked@) == specialty_planets(*state, planets@, pair_names(held@).subrange(0, k as int), exhausted),
        decreases held@.len() - k,
    {
        proof {
            assert(pair_names(held@).subrange(0, k + 1).drop_last() =~= pair_names(held@).subrange(0, k as int));
        }
        let planet = held[k].1.as_str();
        if contains_name(&state.exhausted_planets, planet) == exhausted && is_specialty(planets, planet) {
            let ghost was = names(picked@);
            picked.push(planet.to_string());
            assert(names(picked@) =~= was.push(planet@));
        }
        k = k + 1;
    }
    assert(pair_names(held@).subrange(0, k as int) =~= pair_names(held@));
    picked
}

/// Whether a seat owns a technology and has not exhausted it.
pub open spec fn holds_ready(seat: Seat, alias: Seq<char>) -> bool {
    names(seat.technologies@).contains(alias) && !names(seat.exhausted_technologies@).contains(alias)
}

fn ready_technology(seat: &Seat, alias: &str) -> (yes: bool)
    ensures
        yes == holds_ready(*seat, alias@),
{
    contains_name(&seat.technologies, alias) && !contains_name(&seat.exhausted_technologies, alias)
}

/// Exhaust a technology of the seat at `i`.
fn exhaust_technology(state: &mut GameState, i: usize, alias: &str)
    requires
        i < old(state).players@.len(),
    ensures
        final(state).players@.len() == old(state).players@.len(),
        names(final(state).players@[i as int].exhausted_technologies@) == exhausted_names(old(state).players@[i as int], alias@),
        final(state).players@[i as int] == (Seat { exhausted_technologies: final(state).players@[i as int].exhausted_technologies, ..old(state).players@[i as int] }),
        forall|j: int| 0 <= j < old(state).players@.len() && j != i ==> final(state).players@[j] == old(state).players@[j],
        *final(state) == (GameState { players: final(state).players, ..*old(state) }),
{
    if !contains_name(&state.players[i].exhausted_technologies, alias) {
        let mut seat = state.players.remove(i);
        let ghost was = names(seat.exhausted_technologies@);
        seat.exhausted_technologies.push(alias.to_string());
        assert(names(seat.exhausted_technologies@) =~= was.push(alias@));
        state.players.insert(i, seat);
    }
}

/// A list of names with one more, where it is not already there.
pub open spec fn with_name(list: Seq<Seq<char>>, name: Seq<char>) -> Seq<Seq<char>> {
    if list.contains(name) {
        list
    } else {
        list.push(name)
    }
}

/// The names of a seat's exhausted technologies once `alias` is exhausted too.
pub open spec fn exhausted_names(seat: Seat, alias: Seq<char>) -> Seq<Seq<char>> {
    with_name(names(seat.exhausted_technologies@), alias)
}

/// The pools of a command sheet, by position: tactic, fleet, strategy.
pub open spec fn pool_label(j: int) -> Seq<char> {
    if j == 0 {
        "tactic"@
    } else if j == 1 {
        "fleet"@
    } else {
        "strategy"@
    }
}

pub(crate) fn pool_name(j: usize) -> (name: &'static str)
    requires
        j < 3,
    ensures
        name@ == pool_label(j as int),
{
    if j == 0 {
        "tactic"
    } else if j == 1 {
        "fleet"
    } else {
        "strategy"
    }
}

/// The tokens in the pool at `j`.
pub open spec fn pool_held(seat: Seat, j: int) -> int {
    if j == 0 {
        seat.tactic_tokens as int
    } else if j == 1 {
        seat.fleet_tokens as int
    } else {
        seat.strategic_tokens as int
    }
}

/// The seat with `n` tokens in the pool at `j`.
pub open spec fn with_pool(seat: Seat, j: int, n: int) -> Seat {
    if j == 0 {
        Seat { tactic_tokens: n as i32, ..seat }
    } else if j == 1 {
        Seat { fleet_tokens: n as i32, ..seat }
    } else {
        Seat { strategic_tokens: n as i32, ..seat }
    }
}

/// The seat after one token moves from one pool to another.
pub open spec fn moved_token(seat: Seat, from: int, to: int) -> Seat {
    let taken = with_pool(seat, from, pool_held(seat, from) - 1);
    with_pool(taken, to, pool_held(taken, to) + 1)
}

/// The moves from one pool: none from an empty pool, else one to each other pool.
pub open spec fn pairs_from(seat: Seat, from: int) -> Seq<(int, int)> {
    if pool_held(seat, from) <= 0 {
        Seq::empty()
    } else if from == 0 {
        seq![(0int, 1int), (0int, 2int)]
    } else if from == 1 {
        seq![(1int, 0int), (1int, 2int)]
    } else {
        seq![(2int, 0int), (2int, 1int)]
    }
}

/// The redistribution moves a seat can make, as (from, to), pool by pool.
pub open spec fn redistribution_pairs(seat: Seat) -> Seq<(int, int)> {
    pairs_from(seat, 0) + pairs_from(seat, 1) + pairs_from(seat, 2)
}

/// Every move runs from a pool that holds a token to another pool.
pub proof fn lemma_pairs_bounded(seat: Seat)
    ensures
        forall|m: int| 0 <= m < redistribution_pairs(seat).len() ==> {
            let p = #[trigger] redistribution_pairs(seat)[m];
            &&& 0 <= p.0 < 3
            &&& 0 <= p.1 < 3
            &&& p.0 != p.1
            &&& pool_held(seat, p.0) > 0
        },
{
    let a = pairs_from(seat, 0);
    let b = pairs_from(seat, 1);
    let c = pairs_from(seat, 2);
    assert forall|m: int| 0 <= m < redistribution_pairs(seat).len() implies {
        let p = #[trigger] redistribution_pairs(seat)[m];
        &&& 0 <= p.0 < 3
        &&& 0 <= p.1 < 3
        &&& p.0 != p.1
        &&& pool_held(seat, p.0) > 0
    } by {
        if m < a.len() {
            assert(redistribution_pairs(seat)[m] == a[m]);
        } else if m < a.len() + b.len() {
            assert(redistribution_pairs(seat)[m] == b[m - a.len()]);
        } else {
            assert(redistribution_pairs(seat)[m] == c[m - a.len() - b.len()]);
        }
    }
}

/// The option that moves one token along a pair of pools.
pub open spec fn move_view(pair: (int, int)) -> OptionView {
    OptionView {
        id: pool_label(pair.0) + "|"@ + pool_label(pair.1),
        kind: "redistribute"@,
        label: "move 1 token from "@ + pool_label(pair.0) + " to "@ + pool_label(pair.1),
    }
}

/// The option that ends a redistribution.
pub open spec fn finish_view() -> OptionView {
    OptionView { id: "done"@, kind: DECLINE_KIND@, label: "finish redistribution"@ }
}

/// The options of a redistribution: each move, then the finish.
pub open spec fn redistribution_views(seat: Seat) -> Seq<OptionView> {
    redistribution_pairs(seat).map_values(|p: (int, int)| move_view(p)).push(finish_view())
}

/// Whether Predictive Intelligence offers a redistribution: the player sits at the table, owns
/// it ready, and has a token to move.
pub open spec fn redistribution_open(state: GameState, player: Seq<char>) -> bool {
    let i = seat_of(state.players@, player);
    i >= 0 && holds_ready(state.players@[i], "pi"@) && redistribution_pairs(state.players@[i]).len() > 0
}

/// The prompt of a Predictive Intelligence redistribution.
pub const REDISTRIBUTION_PROMPT: &'static str = "Predictive Intelligence: redistribute command tokens";

fn push_move(options: &mut Vec<ChoiceOption>, pairs: &mut Vec<(usize, usize)>, from: usize, to: usize)
    requires
        from < 3,
        to < 3,
    ensures
        final(options)@ == old(options)@.push(final(options)@.last()),
        final(options)@.last()@ == move_view((from as int, to as int)),
        final(pairs)@ == old(pairs)@.push((from, to)),
{
    let source = pool_name(from);
    let destination = pool_name(to);
    let id = source.to_string().concat("|").concat(destination);
    let label = "move 1 token from ".to_string().concat(source).concat(" to ").concat(destination);
    options.push(ChoiceOption::labelled(id.as_str(), "redistribute", label.as_str()));
    pairs.push((from, to));
}

/// The pairs of pools, as integers.
pub open spec fn pair_ints(pairs: Seq<(usize, usize)>) -> Seq<(int, int)> {
    pairs.map_values(|p: (usize, usize)| (p.0 as int, p.1 as int))
}

/// The moves a seat can make, with their options, in the order offered.
pub(crate) fn moves_of(seat: &Seat) -> (moves: (Vec<ChoiceOption>, Vec<(usize, usize)>))
    ensures
        pair_ints(moves.1@) == redistribution_pairs(*seat),
        option_views(moves.0@) == redistribution_pairs(*seat).map_values(|p: (int, int)| move_view(p)),
{
    let mut options: Vec<ChoiceOption> = Vec::new();
    let mut pairs: Vec<(usize, usize)> = Vec::new();
    if seat.tactic_tokens > 0 {
        push_move(&mut options, &mut pairs, 0, 1);
        push_move(&mut options, &mut pairs, 0, 2);
    }
    if seat.fleet_tokens > 0 {
        push_move(&mut options, &mut pairs, 1, 0);
        push_move(&mut options, &mut pairs, 1, 2);
    }
    if seat.strategic_tokens > 0 {
        push_move(&mut options, &mut pairs, 2, 0);
        push_move(&mut options, &mut pairs, 2, 1);
    }
    assert(pair_ints(pairs@) =~= redistribution_pairs(*seat));
    assert(option_views(options@) =~= redistribution_pairs(*seat).map_values(|p: (int, int)| move_view(p)));
    (options, pairs)
}

/// Whether a choice is the Predictive Intelligence question a player faces.
pub open spec fn is_redistribution_choice(c: Choice, state: GameState, player: Seq<char>) -> bool {
    &&& c.player@ == player
    &&& c.prompt@ == REDISTRIBUTION_PROMPT@
    &&& option_views(c.options@) == redistribution_views(state.players@[seat_of(state.players@, player)])
}

/// The Predictive Intelligence question at the end of a turn: move one command token between
/// pools, or finish.
pub fn redistribution_choice(state: &GameState, player: &str) -> (choice: Option<Choice>)
    ensures
        (choice is Some) == redistribution_open(*state, player@),
        choice matches Some(c) ==> is_redistribution_choice(c, *state, player@),
{
    let i = match find_seat(&state.players, player) {
        Some(i) => i,
        None => return None,
    };
    let seat = &state.players[i];
    if !ready_technology(seat, "pi") {
        return None;
    }
    let (mut options, pairs) = moves_of(seat);
    if pairs.len() == 0 {
        assert(pair_ints(pairs@).len() == 0);
        return None;
    }
    let ghost moves = option_views(options@);
    options.push(ChoiceOption::labelled("done", DECLINE_KIND, "finish redistribution"));
    assert(option_views(options@) =~= moves.push(finish_view()));
    Some(Choice::new(player, REDISTRIBUTION_PROMPT, options))
}

/// What answering a redistribution does: a move shifts one token, the finish changes nothing.
pub open spec fn redistributed(before: GameState, after: GameState, player: Seq<char>, answer: OptionView, result: Result<bool, IllegalChoice>) -> bool {
    let i = seat_of(before.players@, player);
    if !redistribution_open(before, player) {
        result matches Err(e) && e.player@ == player && e.answered@ == answer.id && after == before
    } else {
        let views = redistribution_views(before.players@[i]);
        let pairs = redistribution_pairs(before.players@[i]);
        if none_answered(views, answer) {
            result matches Err(e) && e.player@ == player && e.answered@ == answer.id && after == before
        } else {
            exists|k: int| #[trigger] first_answered(views, k, answer) && if k == pairs.len() {
                result == Ok::<bool, IllegalChoice>(false) && after == before
            } else {
                &&& result == Ok::<bool, IllegalChoice>(true)
                &&& after.players@ == before.players@.update(i, moved_token(before.players@[i], pairs[k].0, pairs[k].1))
                &&& after == (GameState { players: after.players, ..before })
            }
        }
    }
}

/// The room a seat's pools have for one more token each.
pub open spec fn pools_have_room(state: GameState, player: Seq<char>) -> bool {
    let i = seat_of(state.players@, player);
    i >= 0 ==> {
        &&& state.players@[i].tactic_tokens < i32::MAX
        &&& state.players@[i].fleet_tokens < i32::MAX
        &&& state.players@[i].strategic_tokens < i32::MAX
    }
}

/// Take an answer to the Predictive Intelligence question.
pub fn redistribute(state: &mut GameState, player: &str, answer: ChoiceOption) -> (result: Result<bool, IllegalChoice>)
    requires
        pools_have_room(*old(state), player@),
    ensures
        redistributed(*old(state), *final(state), player@, answer@, result),
{
    let choice = match redistribution_choice(state, player) {
        Some(c) => c,
        None => return Err(IllegalChoice { player: player.to_string(), answered: answer.id }),
    };
    let i = match find_seat(&state.players, player) {
        Some(i) => i,
        None => return Err(IllegalChoice { player: player.to_string(), answered: answer.id }),
    };
    let (_, pairs) = moves_of(&state.players[i]);
    let ghost views = option_views(choice.options@);
    let k = match answered_index(&choice, &answer) {
        Some(k) => k,
        None => {
            return Err(IllegalChoice { player: player.to_string(), answered: answer.id });
        },
    };
    assert(first_answered(views, k as int, answer@));
    if k >= pairs.len() {
        return Ok(false);
    }
    let (from, to) = pairs[k];
    assert(pair_ints(pairs@)[k as int] == (from as int, to as int));
    let ghost before = *state;
    let mut seat = state.players.remove(i);
    let ghost seat0 = seat;
    take_token(&mut seat, from);
    give_token(&mut seat, to);
    assert(seat == moved_token(seat0, from as int, to as int));
    state.players.insert(i, seat);
    assert(state.players@ =~= before.players@.update(i as int, moved_token(before.players@[i as int], from as int, to as int)));
    assert(first_answered(views, k as int, answer@) && k != redistribution_pairs(before.players@[i as int]).len());
    Ok(true)
}

pub(crate) fn take_token(seat: &mut Seat, j: usize)
    requires
        j < 3,
        pool_held(*old(seat), j as int) > 0,
    ensures
        *final(seat) == with_pool(*old(seat), j as int, pool_held(*old(seat), j as int) - 1),
{
    if j == 0 {
        seat.tactic_tokens = seat.tactic_tokens - 1;
    } else if j == 1 {
        seat.fleet_tokens = seat.fleet_tokens - 1;
    } else {
        seat.strategic_tokens = seat.strategic_tokens - 1;
    }
}

pub(crate) fn give_token(seat: &mut Seat, j: usize)
    requires
        j < 3,
        pool_held(*old(seat), j as int) < i32::MAX,
    ensures
        *final(seat) == with_pool(*old(seat), j as int, pool_held(*old(seat), j as int) + 1),
{
    if j == 0 {
        seat.tactic_tokens = seat.tactic_tokens + 1;
    } else if j == 1 {
        seat.fleet_tokens = seat.fleet_tokens + 1;
    } else {
        seat.strategic_tokens = seat.strategic_tokens + 1;
    }
}

/// Every name of a list but one, in order.
pub open spec fn all_but(list: Seq<Seq<char>>, name: Seq<char>) -> Seq<Seq<char>>
    decreases list.len(),
{
    if list.len() == 0 {
        Seq::empty()
    } else if list.last() == name {
        all_but(list.drop_last(), name)
    } else {
        all_but(list.drop_last(), name).push(list.last())
    }
}

/// The option that readies a planet with Bio-Stims.
pub open spec fn ready_planet_view(planet: Seq<char>) -> OptionView {
    OptionView { id: "ready|planet|"@ + planet, kind: "ready"@, label: "Bio-Stims: ready "@ + planet }
}

/// The option that readies a technology with Bio-Stims, labelled with its printed name.
pub open spec fn ready_tech_view(tech_names: Seq<(String, String)>, tech: Seq<char>) -> OptionView {
    OptionView { id: "ready|technology|"@ + tech, kind: "ready_technology"@, label: "Bio-Stims: ready "@ + label_of(tech_names, tech) }
}

/// The facts a planet option of Bio-Stims carries.
pub open spec fn ready_planet_payload(planet: Seq<char>) -> Seq<(Seq<char>, ValueView)> {
    seq![("planet"@, ValueView::Text(planet)), ("technology"@, ValueView::Text("bs"@))]
}

/// The facts a technology option of Bio-Stims carries.
pub open spec fn ready_tech_payload(tech: Seq<char>) -> Seq<(Seq<char>, ValueView)> {
    seq![("technology"@, ValueView::Text(tech)), ("bio_stims"@, ValueView::Bool(true))]
}

/// The exhausted specialty planets Bio-Stims can ready.
pub open spec fn stims_planets(state: GameState, planets: Seq<PlanetRecord>, player: Seq<char>) -> Seq<Seq<char>> {
    specialty_planets(state, planets, controlled(state.board@, player), true)
}

/// The exhausted technologies Bio-Stims can ready: all but itself.
pub open spec fn stims_techs(seat: Seat) -> Seq<Seq<char>> {
    all_but(names(seat.exhausted_technologies@), "bs"@)
}

/// The Bio-Stims options: each planet, then each technology, then the decline.
pub open spec fn stims_views(state: GameState, planets: Seq<PlanetRecord>, tech_names: Seq<(String, String)>, player: Seq<char>) -> Seq<OptionView> {
    let seat = state.players@[seat_of(state.players@, player)];
    (stims_planets(state, planets, player).map_values(|p: Seq<char>| ready_planet_view(p))
        + stims_techs(seat).map_values(|t: Seq<char>| ready_tech_view(tech_names, t)))
        .push(OptionView { id: DECLINE_ID@, kind: DECLINE_KIND@, label: DECLINE_ID@ })
}

/// Whether Bio-Stims offers to ready something: the player sits at the table, owns it ready,
/// and has an exhausted specialty planet or another exhausted technology.
pub open spec fn stims_open(state: GameState, planets: Seq<PlanetRecord>, player: Seq<char>) -> bool {
    let i = seat_of(state.players@, player);
    &&& i >= 0
    &&& holds_ready(state.players@[i], "bs"@)
    &&& stims_planets(state, planets, player).len() + stims_techs(state.players@[i]).len() > 0
}

fn others_than(list: &Vec<String>, name: &str) -> (rest: Vec<String>)
    ensures
        names(rest@) == all_but(names(list@), name@),
{
    let mut rest: Vec<String> = Vec::new();
    let mut k: usize = 0;
    while k < list.len()
        invariant
            k <= list@.len(),
            names(rest@) == all_but(names(list@).subrange(0, k as int), name@),
        decreases list@.len() - k,
    {
        proof {
            assert(names(list@).subrange(0, k + 1).drop_last() =~= names(list@).subrange(0, k as int));
        }
        if !str_eq(list[k].as_str(), name) {
            let ghost was = names(rest@);
            rest.push(list[k].clone());
            assert(names(rest@) =~= was.push(list@[k as int]@));
        }
        k = k + 1;
    }
    assert(names(list@).subrange(0, k as int) =~= names(list@));
    rest
}

/// The prompt of the Bio-Stims question.
pub const STIMS_PROMPT: &'static str = "Bio-Stims";

/// Whether a choice is the Bio-Stims question a player faces.
pub open spec fn is_stims_choice(c: Choice, state: GameState, planets: Seq<PlanetRecord>, tech_names: Seq<(String, String)>, player: Seq<char>) -> bool {
    &&& c.player@ == player
    &&& c.prompt@ == STIMS_PROMPT@
    &&& option_views(c.options@) == stims_views(state, planets, tech_names, player)
    &&& forall|k: int| 0 <= k < stims_planets(state, planets, player).len() ==>
        payload_view(&#[trigger] c.options@[k]) == ready_planet_payload(stims_planets(state, planets, player)[k])
    &&& forall|k: int| stims_planets(state, planets, player).len() <= k < c.options@.len() - 1 ==>
        payload_view(&#[trigger] c.options@[k]) == ready_tech_payload(
            stims_techs(state.players@[seat_of(state.players@, player)])[k - stims_planets(state, planets, player).len()])
}

/// The Bio-Stims question at the end of a turn: ready one exhausted specialty planet or one
/// other exhausted technology, or decline. `tech_names` gives technologies' printed names.
pub fn stims_choice(state: &GameState, planets: &Vec<PlanetRecord>, tech_names: &Vec<(String, String)>, player: &str) -> (choice: Option<Choice>)
    ensures
        (choice is Some) == stims_open(*state, planets@, player@),
        choice matches Some(c) ==> is_stims_choice(c, *state, planets@, tech_names@, player@),
{
    let i = match find_seat(&state.players, player) {
        Some(i) => i,
        None => return None,
    };
    let seat = &state.players[i];
    if !ready_technology(seat, "bs") {
        return None;
    }
    let held = controlled_planets(state, player);
    let exhausted = pick_specialty_planets(state, planets, &held, true);
    let techs = others_than(&seat.exhausted_technologies, "bs");
    if exhausted.len() == 0 && techs.len() == 0 {
        return None;
    }
    let ghost pviews = names(exhausted@).map_values(|p: Seq<char>| ready_planet_view(p));
    let ghost tviews = names(techs@).map_values(|t: Seq<char>| ready_tech_view(tech_names@, t));
    let mut options: Vec<ChoiceOption> = Vec::new();
    let mut k: usize = 0;
    while k < exhausted.len()
        invariant
            k <= exhausted@.len(),
            pviews == names(exhausted@).map_values(|p: Seq<char>| ready_planet_view(p)),
            option_views(options@) == pviews.subrange(0, k as int),
            forall|m: int| 0 <= m < k ==> payload_view(&#[trigger] options@[m]) == ready_planet_payload(exhausted@[m]@),
        decreases exhausted@.len() - k,
    {
        let planet = exhausted[k].as_str();
        let id = "ready|planet|".to_string().concat(planet);
        let label = "Bio-Stims: ready ".to_string().concat(planet);
        let option = ChoiceOption::labelled(id.as_str(), "ready", label.as_str())
            .with("planet", Value::Text(planet.to_string()))
            .with("technology", Value::Text("bs".to_string()));
        assert(payload_view(&option) =~= ready_planet_payload(planet@));
        let ghost was = option_views(options@);
        options.push(option);
        assert(option_views(options@) =~= was.push(ready_planet_view(planet@)));
        assert(pviews.subrange(0, k + 1) =~= pviews.subrange(0, k as int).push(ready_planet_view(planet@)));
        k = k + 1;
    }
    assert(pviews.subrange(0, k as int) =~= pviews);
    let mut t: usize = 0;
    while t < techs.len()
        invariant
            k == exhausted@.len(),
            t <= techs@.len(),
            tviews == names(techs@).map_values(|x: Seq<char>| ready_tech_view(tech_names@, x)),
            option_views(options@) == pviews + tviews.subrange(0, t as int),
            forall|m: int| 0 <= m < k ==> payload_view(&#[trigger] options@[m]) == ready_planet_payload(exhausted@[m]@),
            forall|m: int| k <= m < k + t ==> payload_view(&#[trigger] options@[m]) == ready_tech_payload(techs@[m - k]@),
            options@.len() == k + t,
        decreases techs@.len() - t,
    {
        let tech = techs[t].as_str();
        let id = "ready|technology|".to_string().concat(tech);
        let printed = label_for(tech_names, tech);
        let label = "Bio-Stims: ready ".to_string().concat(printed.as_str());
        let option = ChoiceOption::labelled(id.as_str(), "ready_technology", label.as_str())
            .with("technology", Value::Text(tech.to_string()))
            .with("bio_stims", Value::Bool(true));
        assert(payload_view(&option) =~= ready_tech_payload(tech@));
        let ghost was = option_views(options@);
        options.push(option);
        assert(option_views(options@) =~= was.push(ready_tech_view(tech_names@, tech@)));
        assert(tviews.subrange(0, t + 1) =~= tviews.subrange(0, t as int).push(ready_tech_view(tech_names@, tech@)));
        t = t + 1;
    }
    assert(tviews.subrange(0, t as int) =~= tviews);
    let ghost listed = option_views(options@);
    options.push(ChoiceOption::decline());
    assert(option_views(options@) =~= listed.push(OptionView { id: DECLINE_ID@, kind: DECLINE_KIND@, label: DECLINE_ID@ }));
    Some(Choice::new(player, STIMS_PROMPT, options))
}

/// What answering the Bio-Stims question does: a planet or a technology is readied and
/// Bio-Stims exhausted; the decline changes nothing.
pub open spec fn stimmed(
    before: GameState,
    after: GameState,
    planets: Seq<PlanetRecord>,
    tech_names: Seq<(String, String)>,
    player: Seq<char>,
    answer: OptionView,
    result: Result<bool, IllegalChoice>,
) -> bool {
    let i = seat_of(before.players@, player);
    let seat = before.players@[i];
    let ps = stims_planets(before, planets, player);
    let ts = stims_techs(seat);
    let views = stims_views(before, planets, tech_names, player);
    if !stims_open(before, planets, player) || none_answered(views, answer) {
        result matches Err(e) && e.player@ == player && e.answered@ == answer.id && after == before
    } else {
        exists|k: int| #[trigger] first_answered(views, k, answer) && if k == ps.len() + ts.len() {
            result == Ok::<bool, IllegalChoice>(false) && after == before
        } else if k < ps.len() {
            &&& result == Ok::<bool, IllegalChoice>(true)
            &&& names(after.exhausted_planets@) == without_first(names(before.exhausted_planets@), ps[k])
            &&& after.players@ == before.players@.update(i, Seat { exhausted_technologies: after.players@[i].exhausted_technologies, ..seat })
            &&& names(after.players@[i].exhausted_technologies@) == with_name(names(seat.exhausted_technologies@), "bs"@)
            &&& after == (GameState { players: after.players, exhausted_planets: after.exhausted_planets, ..before })
        } else {
            &&& result == Ok::<bool, IllegalChoice>(true)
            &&& after.players@ == before.players@.update(i, Seat { exhausted_technologies: after.players@[i].exhausted_technologies, ..seat })
            &&& names(after.players@[i].exhausted_technologies@) == with_name(
                without_first(names(seat.exhausted_technologies@), ts[k - ps.len()]),
                "bs"@,
            )
            &&& after == (GameState { players: after.players, ..before })
        }
    }
}

/// Take an answer to the Bio-Stims question.
#[verifier::rlimit(40)]
pub fn stims_answer(
    state: &mut GameState,
    planets: &Vec<PlanetRecord>,
    tech_names: &Vec<(String, String)>,
    player: &str,
    answer: ChoiceOption,
) -> (result: Result<bool, IllegalChoice>)
    ensures
        stimmed(*old(state), *final(state), planets@, tech_names@, player@, answer@, result),
{
    let ghost before = *state;
    let choice = match stims_choice(state, planets, tech_names, player) {
        Some(c) => c,
        None => return Err(IllegalChoice { player: player.to_string(), answered: answer.id }),
    };
    let i = match find_seat(&state.players, player) {
        Some(i) => i,
        None => return Err(IllegalChoice { player: player.to_string(), answered: answer.id }),
    };
    let held = controlled_planets(state, player);
    let exhausted = pick_specialty_planets(state, planets, &held, true);
    let techs = others_than(&state.players[i].exhausted_technologies, "bs");
    let ghost views = option_views(choice.options@);
    let k = match answered_index(&choice, &answer) {
        Some(k) => k,
        None => return Err(IllegalChoice { player: player.to_string(), answered: answer.id }),
    };
    assert(first_answered(views, k as int, answer@));
    let ghost seat = before.players@[i as int];
    if k < exhausted.len() {
        let ghost was = *state;
        remove_first(&mut state.exhausted_planets, exhausted[k].as_str());
        let ghost readied = *state;
        assert(readied == (GameState { exhausted_planets: readied.exhausted_planets, ..was }));
        exhaust_technology(state, i, "bs");
        assert(state.players@ =~= before.players@.update(
            i as int,
            Seat { exhausted_technologies: state.players@[i as int].exhausted_technologies, ..seat },
        ));
        assert(k < stims_planets(before, planets@, player@).len());
        return Ok(true);
    }
    if k - exhausted.len() < techs.len() {
        let tech = techs[k - exhausted.len()].as_str();
        let mut taken = state.players.remove(i);
        remove_first(&mut taken.exhausted_technologies, tech);
        state.players.insert(i, taken);
        let ghost middle = *state;
        assert(middle.players@ =~= before.players@.update(
            i as int,
            Seat { exhausted_technologies: middle.players@[i as int].exhausted_technologies, ..seat },
        ));
        exhaust_technology(state, i, "bs");
        assert(state.players@ =~= before.players@.update(
            i as int,
            Seat { exhausted_technologies: state.players@[i as int].exhausted_technologies, ..seat },
        ));
        assert(!(k < stims_planets(before, planets@, player@).len()));
        assert(k != stims_planets(before, planets@, player@).len() + stims_techs(seat).len());
        return Ok(true);
    }
    assert(k == stims_planets(before, planets@, player@).len() + stims_techs(seat).len());
    Ok(false)
}

/// The ready specialty planets Psychoarchaeology can convert.
pub open spec fn convertible(state: GameState, planets: Seq<PlanetRecord>, player: Seq<char>) -> Seq<Seq<char>> {
    specialty_planets(state, planets, controlled(state.board@, player), false)
}

/// The ready specialty planets a player controls, in board order.
pub fn conversion_candidates(state: &GameState, planets: &Vec<PlanetRecord>, player: &str) -> (ready: Vec<String>)
    ensures
        names(ready@) == convertible(*state, planets@, player@),
{
    let held = controlled_planets(state, player);
    pick_specialty_planets(state, planets, &held, false)
}

/// The option that converts one specialty planet.
pub open spec fn convert_view(planet: Seq<char>) -> OptionView {
    OptionView { id: planet, kind: "ability"@, label: "exhaust "@ + planet }
}

/// The facts a Psychoarchaeology option carries.
pub open spec fn convert_payload(planet: Seq<char>) -> Seq<(Seq<char>, ValueView)> {
    seq![("planet"@, ValueView::Text(planet)), ("technology"@, ValueView::Text("pa"@))]
}

/// The decline option, as a view.
pub open spec fn decline_view() -> OptionView {
    OptionView { id: DECLINE_ID@, kind: DECLINE_KIND@, label: DECLINE_ID@ }
}

/// Whether Psychoarchaeology offers a conversion: the player sits at the table, owns it, and
/// controls a ready specialty planet.
pub open spec fn conversion_open(state: GameState, planets: Seq<PlanetRecord>, player: Seq<char>) -> bool {
    let i = seat_of(state.players@, player);
    i >= 0 && names(state.players@[i].technologies@).contains("pa"@) && convertible(state, planets, player).len() > 0
}

/// The prompt of the Psychoarchaeology question.
pub const CONVERSION_PROMPT: &'static str = "Psychoarchaeology: exhaust a specialty for 1 trade good";

/// Whether a choice is the Psychoarchaeology question a player faces.
pub open spec fn is_conversion_choice(c: Choice, state: GameState, planets: Seq<PlanetRecord>, player: Seq<char>) -> bool {
    &&& c.player@ == player
    &&& c.prompt@ == CONVERSION_PROMPT@
    &&& option_views(c.options@) == convertible(state, planets, player).map_values(|p: Seq<char>| convert_view(p)).push(decline_view())
    &&& forall|k: int| 0 <= k < convertible(state, planets, player).len() ==>
        payload_view(&#[trigger] c.options@[k]) == convert_payload(convertible(state, planets, player)[k])
}

/// The Psychoarchaeology question at the start of a turn: exhaust one ready specialty planet
/// for a trade good, or decline.
pub fn conversion_choice(state: &GameState, planets: &Vec<PlanetRecord>, player: &str) -> (choice: Option<Choice>)
    ensures
        (choice is Some) == conversion_open(*state, planets@, player@),
        choice matches Some(c) ==> is_conversion_choice(c, *state, planets@, player@),
{
    let i = match find_seat(&state.players, player) {
        Some(i) => i,
        None => return None,
    };
    if !contains_name(&state.players[i].technologies, "pa") {
        return None;
    }
    let held = controlled_planets(state, player);
    let ready = pick_specialty_planets(state, planets, &held, false);
    if ready.len() == 0 {
        return None;
    }
    let ghost views = names(ready@).map_values(|p: Seq<char>| convert_view(p));
    let mut options: Vec<ChoiceOption> = Vec::new();
    let mut k: usize = 0;
    while k < ready.len()
        invariant
            k <= ready@.len(),
            views == names(ready@).map_values(|p: Seq<char>| convert_view(p)),
            option_views(options@) == views.subrange(0, k as int),
            forall|m: int| 0 <= m < k ==> payload_view(&#[trigger] options@[m]) == convert_payload(ready@[m]@),
        decreases ready@.len() - k,
    {
        let planet = ready[k].as_str();
        let label = "exhaust ".to_string().concat(planet);
        let option = ChoiceOption::labelled(planet, "ability", label.as_str())
            .with("planet", Value::Text(planet.to_string()))
            .with("technology", Value::Text("pa".to_string()));
        assert(payload_view(&option) =~= convert_payload(planet@));
        let ghost was = option_views(options@);
        options.push(option);
        assert(option_views(options@) =~= was.push(convert_view(planet@)));
        assert(views.subrange(0, k + 1) =~= views.subrange(0, k as int).push(convert_view(planet@)));
        k = k + 1;
    }
    assert(views.subrange(0, k as int) =~= views);
    let ghost listed = option_views(options@);
    options.push(ChoiceOption::decline());
    assert(option_views(options@) =~= listed.push(decline_view()));
    Some(Choice::new(player, CONVERSION_PROMPT, options))
}

/// What answering the Psychoarchaeology question does: the planet is exhausted and its
/// controller gains a trade good; the decline changes nothing.
pub open spec fn converted(before: GameState, after: GameState, planets: Seq<PlanetRecord>, player: Seq<char>, answer: OptionView, result: Result<bool, IllegalChoice>) -> bool {
    let i = seat_of(before.players@, player);
    let ready = convertible(before, planets, player);
    let views = ready.map_values(|p: Seq<char>| convert_view(p)).push(decline_view());
    if !conversion_open(before, planets, player) || none_answered(views, answer) {
        result matches Err(e) && e.player@ == player && e.answered@ == answer.id && after == before
    } else {
        exists|k: int| #[trigger] first_answered(views, k, answer) && if k == ready.len() {
            result == Ok::<bool, IllegalChoice>(false) && after == before
        } else {
            &&& result == Ok::<bool, IllegalChoice>(true)
            &&& names(after.exhausted_planets@) == names(before.exhausted_planets@).push(ready[k])
            &&& after.players@ == before.players@.update(i, Seat { trade_goods: (before.players@[i].trade_goods + 1) as i32, ..before.players@[i] })
            &&& after == (GameState { players: after.players, exhausted_planets: after.exhausted_planets, ..before })
        }
    }
}

/// Take an answer to the Psychoarchaeology question.
pub fn convert(state: &mut GameState, planets: &Vec<PlanetRecord>, player: &str, answer: ChoiceOption) -> (result: Result<bool, IllegalChoice>)
    requires
        seat_of(old(state).players@, player@) >= 0 ==> old(state).players@[seat_of(old(state).players@, player@)].trade_goods < i32::MAX,
    ensures
        converted(*old(state), *final(state), planets@, player@, answer@, result),
{
    let ghost before = *state;
    let choice = match conversion_choice(state, planets, player) {
        Some(c) => c,
        None => return Err(IllegalChoice { player: player.to_string(), answered: answer.id }),
    };
    let i = match find_seat(&state.players, player) {
        Some(i) => i,
        None => return Err(IllegalChoice { player: player.to_string(), answered: answer.id }),
    };
    let held = controlled_planets(state, player);
    let ready = pick_specialty_planets(state, planets, &held, false);
    let ghost views = option_views(choice.options@);
    let k = match answered_index(&choice, &answer) {
        Some(k) => k,
        None => return Err(IllegalChoice { player: player.to_string(), answered: answer.id }),
    };
    assert(first_answered(views, k as int, answer@));
    if k >= ready.len() {
        return Ok(false);
    }
    let planet = ready[k].clone();
    let ghost was = names(state.exhausted_planets@);
    state.exhausted_planets.push(planet);
    assert(names(state.exhausted_planets@) =~= was.push(ready@[k as int]@));
    let mut seat = state.players.remove(i);
    seat.trade_goods = seat.trade_goods + 1;
    state.players.insert(i, seat);
    assert(state.players@ =~= before.players@.update(
        i as int,
        Seat { trade_goods: (before.players@[i as int].trade_goods + 1) as i32, ..before.players@[i as int] },
    ));
    Ok(true)
}

/// The production capacity the caller reports for a system; none where it reports nothing.
pub open spec fn capacity_of(capacities: Seq<(String, u32)>, system: Seq<char>) -> int
    decreases capacities.len(),
{
    if capacities.len() == 0 {
        0
    } else if capacities.last().0@ == system {
        capacities.last().1 as int
    } else {
        capacity_of(capacities.drop_last(), system)
    }
}

fn capacity_for(capacities: &Vec<(String, u32)>, system: &str) -> (capacity: u32)
    ensures
        capacity as int == capacity_of(capacities@, system@),
{
    let mut k: usize = capacities.len();
    assert(capacities@.subrange(0, k as int) =~= capacities@);
    while k > 0
        invariant
            k <= capacities@.len(),
            capacity_of(capacities@, system@) == capacity_of(capacities@.subrange(0, k as int), system@),
        decreases k,
    {
        assert(capacities@.subrange(0, k as int).drop_last() =~= capacities@.subrange(0, k - 1));
        if str_eq(capacities[k - 1].0.as_str(), system) {
            return capacities[k - 1].1;
        }
        k = k - 1;
    }
    0
}

/// The systems on the board, in order, in which the player can produce.
pub open spec fn producing_systems(board: Seq<SystemState>, capacities: Seq<(String, u32)>) -> Seq<Seq<char>>
    decreases board.len(),
{
    if board.len() == 0 {
        Seq::empty()
    } else if capacity_of(capacities, board.last().id@) > 0 {
        producing_systems(board.drop_last(), capacities).push(board.last().id@)
    } else {
        producing_systems(board.drop_last(), capacities)
    }
}

/// The option that produces one unit in a system with Chaos Mapping.
pub open spec fn chaos_view(system: Seq<char>) -> OptionView {
    OptionView { id: system, kind: "production"@, label: "produce one unit in "@ + system }
}

/// The facts a Chaos Mapping option carries.
pub open spec fn chaos_payload(system: Seq<char>) -> Seq<(Seq<char>, ValueView)> {
    seq![("system"@, ValueView::Text(system)), ("technology"@, ValueView::Text("cm"@))]
}

/// Whether Chaos Mapping offers a production: the player sits at the table, owns it, and can
/// produce somewhere.
pub open spec fn chaos_open(state: GameState, capacities: Seq<(String, u32)>, player: Seq<char>) -> bool {
    let i = seat_of(state.players@, player);
    i >= 0 && names(state.players@[i].technologies@).contains("cm"@) && producing_systems(state.board@, capacities).len() > 0
}

/// The prompt of the Chaos Mapping question.
pub const CHAOS_PROMPT: &'static str = "Chaos Mapping";

/// Whether a choice is the Chaos Mapping question a player faces.
pub open spec fn is_chaos_choice(c: Choice, state: GameState, capacities: Seq<(String, u32)>, player: Seq<char>) -> bool {
    &&& c.player@ == player
    &&& c.prompt@ == CHAOS_PROMPT@
    &&& option_views(c.options@) == producing_systems(state.board@, capacities).map_values(|s: Seq<char>| chaos_view(s)).push(decline_view())
    &&& forall|k: int| 0 <= k < producing_systems(state.board@, capacities).len() ==>
        payload_view(&#[trigger] c.options@[k]) == chaos_payload(producing_systems(state.board@, capacities)[k])
}

/// The Chaos Mapping question at the start of a turn: produce one unit in a system, or
/// decline. `capacities` gives the player's production capacity in each system.
pub fn chaos_choice(state: &GameState, capacities: &Vec<(String, u32)>, player: &str) -> (choice: Option<Choice>)
    ensures
        (choice is Some) == chaos_open(*state, capacities@, player@),
        choice matches Some(c) ==> is_chaos_choice(c, *state, capacities@, player@),
{
    let i = match find_seat(&state.players, player) {
        Some(i) => i,
        None => return None,
    };
    if !contains_name(&state.players[i].technologies, "cm") {
        return None;
    }
    let ghost systems = producing_systems(state.board@, capacities@);
    let mut options: Vec<ChoiceOption> = Vec::new();
    let mut k: usize = 0;
    while k < state.board.len()
        invariant
            k <= state.board@.len(),
            systems == producing_systems(state.board@, capacities@),
            option_views(options@) == producing_systems(state.board@.subrange(0, k as int), capacities@).map_values(|s: Seq<char>| chaos_view(s)),
            forall|m: int| 0 <= m < options@.len() ==> payload_view(&#[trigger] options@[m]) == chaos_payload(
                producing_systems(state.board@.subrange(0, k as int), capacities@)[m],
            ),
        decreases state.board@.len() - k,
    {
        proof {
            assert(state.board@.subrange(0, k + 1).drop_last() =~= state.board@.subrange(0, k as int));
        }
        let system = state.board[k].id.as_str();
        if capacity_for(capacities, system) > 0 {
            let label = "produce one unit in ".to_string().concat(system);
            let option = ChoiceOption::labelled(system, "production", label.as_str())
                .with("system", Value::Text(system.to_string()))
                .with("technology", Value::Text("cm".to_string()));
            assert(payload_view(&option) =~= chaos_payload(system@));
            let ghost was = option_views(options@);
            options.push(option);
            assert(option_views(options@) =~= was.push(chaos_view(system@)));
        }
        k = k + 1;
    }
    assert(state.board@.subrange(0, k as int) =~= state.board@);
    if options.len() == 0 {
        return None;
    }
    let ghost listed = option_views(options@);
    options.push(ChoiceOption::decline());
    assert(option_views(options@) =~= listed.push(decline_view()));
    Some(Choice::new(player, CHAOS_PROMPT, options))
}

/// What a Chaos Mapping answer chooses: the system to produce in, or `None` for the decline.
pub open spec fn chaos_answered(state: GameState, capacities: Seq<(String, u32)>, player: Seq<char>, answer: OptionView, result: Result<Option<String>, IllegalChoice>) -> bool {
    let systems = producing_systems(state.board@, capacities);
    let views = systems.map_values(|s: Seq<char>| chaos_view(s)).push(decline_view());
    if !chaos_open(state, capacities, player) || none_answered(views, answer) {
        result matches Err(e) && e.player@ == player && e.answered@ == answer.id
    } else {
        exists|k: int| #[trigger] first_answered(views, k, answer) && match result {
            Ok(Some(system)) => k < systems.len() && system@ == systems[k],
            Ok(None) => k == systems.len(),
            Err(_) => false,
        }
    }
}

/// The system a Chaos Mapping answer chooses to produce in, or `None` for the decline.
pub fn chaos_answer(state: &GameState, capacities: &Vec<(String, u32)>, player: &str, answer: ChoiceOption) -> (result: Result<Option<String>, IllegalChoice>)
    ensures
        chaos_answered(*state, capacities@, player@, answer@, result),
{
    let choice = match chaos_choice(state, capacities, player) {
        Some(c) => c,
        None => return Err(IllegalChoice { player: player.to_string(), answered: answer.id }),
    };
    let ghost views = option_views(choice.options@);
    let k = match answered_index(&choice, &answer) {
        Some(k) => k,
        None => return Err(IllegalChoice { player: player.to_string(), answered: answer.id }),
    };
    assert(first_answered(views, k as int, answer@));
    if k == choice.options.len() - 1 {
        return Ok(None);
    }
    Ok(Some(choice.options[k].id.clone()))
}

/// One Transit Diodes redeployment: a ground force of a type leaves a source (`space`, or a
/// planet) of one system for a planet the player controls.
#[derive(Debug, PartialEq, Eq)]
pub struct TransitMove {
    pub source_system: String,
    pub source: String,
    pub unit: String,
    pub destination_system: String,
    pub planet: String,
}

/// A redeployment as text.
pub struct MoveView {
    pub source_system: Seq<char>,
    pub source: Seq<char>,
    pub unit: Seq<char>,
    pub destination_system: Seq<char>,
    pub planet: Seq<char>,
}

impl View for TransitMove {
    type V = MoveView;

    open spec fn view(&self) -> MoveView {
        MoveView {
            source_system: self.source_system@,
            source: self.source@,
            unit: self.unit@,
            destination_system: self.destination_system@,
            planet: self.planet@,
        }
    }
}

impl Clone for TransitMove {
    fn clone(&self) -> (copy: Self)
        ensures
            copy@ == self@,
    {
        TransitMove {
            source_system: self.source_system.clone(),
            source: self.source.clone(),
            unit: self.unit.clone(),
            destination_system: self.destination_system.clone(),
            planet: self.planet.clone(),
        }
    }
}

/// Redeployments as text.
pub open spec fn move_views(moves: Seq<TransitMove>) -> Seq<MoveView> {
    moves.map_values(|m: TransitMove| m@)
}

/// The moves of one unit type from one source to each controlled planet but the source itself.
pub open spec fn dest_moves(system: Seq<char>, source: Seq<char>, unit: Seq<char>, dests: Seq<(Seq<char>, Seq<char>)>) -> Seq<MoveView>
    decreases dests.len(),
{
    if dests.len() == 0 {
        Seq::empty()
    } else {
        let rest = dest_moves(system, source, unit, dests.drop_last());
        let d = dests.last();
        if d.0 == system && d.1 == source {
            rest
        } else {
            rest.push(MoveView { source_system: system, source, unit, destination_system: d.0, planet: d.1 })
        }
    }
}

/// Whether a unit is one of the player's ground forces.
pub open spec fn own_ground_force(grounds: Seq<Seq<char>>, player: Seq<char>, unit: Unit) -> bool {
    unit.owner@ == player && grounds.contains(unit.type_id@)
}

/// The moves of every ground force of the player in one list of units.
pub open spec fn list_moves(system: Seq<char>, source: Seq<char>, units: Seq<Unit>, grounds: Seq<Seq<char>>, player: Seq<char>, dests: Seq<(Seq<char>, Seq<char>)>) -> Seq<MoveView>
    decreases units.len(),
{
    if units.len() == 0 {
        Seq::empty()
    } else {
        list_moves(system, source, units.drop_last(), grounds, player, dests) + if own_ground_force(grounds, player, units.last()) {
            dest_moves(system, source, units.last().type_id@, dests)
        } else {
            Seq::empty()
        }
    }
}

/// The moves from the planets of one system; a planet that received a redeployed unit this
/// window sends none.
pub open spec fn planet_moves(
    system: Seq<char>,
    entries: Seq<(String, Vec<Unit>)>,
    grounds: Seq<Seq<char>>,
    player: Seq<char>,
    dests: Seq<(Seq<char>, Seq<char>)>,
    arrivals: Seq<(Seq<char>, Seq<char>)>,
) -> Seq<MoveView>
    decreases entries.len(),
{
    if entries.len() == 0 {
        Seq::empty()
    } else {
        let e = entries.last();
        planet_moves(system, entries.drop_last(), grounds, player, dests, arrivals) + if arrivals.contains((system, e.0@)) {
            Seq::empty()
        } else {
            list_moves(system, e.0@, e.1@, grounds, player, dests)
        }
    }
}

/// The moves out of every system of the board, space area first, then each planet.
pub open spec fn board_moves(
    board: Seq<SystemState>,
    grounds: Seq<Seq<char>>,
    player: Seq<char>,
    dests: Seq<(Seq<char>, Seq<char>)>,
    arrivals: Seq<(Seq<char>, Seq<char>)>,
) -> Seq<MoveView>
    decreases board.len(),
{
    if board.len() == 0 {
        Seq::empty()
    } else {
        let sys = board.last();
        board_moves(board.drop_last(), grounds, player, dests, arrivals) + list_moves(sys.id@, "space"@, sys.units@, grounds, player, dests)
            + planet_moves(sys.id@, sys.planet_units@, grounds, player, dests, arrivals)
    }
}

/// Whether two moves are the same offer: the same source, unit type and planet.
pub open spec fn same_offer(a: MoveView, b: MoveView) -> bool {
    a.source_system == b.source_system && a.source == b.source && a.unit == b.unit && a.planet == b.planet
}

/// Whether a list already offers a move.
pub open spec fn offers(list: Seq<MoveView>, m: MoveView) -> bool {
    exists|j: int| 0 <= j < list.len() && #[trigger] same_offer(list[j], m)
}

/// The moves in order, each offer kept where it first appears.
pub open spec fn distinct_moves(moves: Seq<MoveView>) -> Seq<MoveView>
    decreases moves.len(),
{
    if moves.len() == 0 {
        Seq::empty()
    } else {
        let kept = distinct_moves(moves.drop_last());
        if offers(kept, moves.last()) {
            kept
        } else {
            kept.push(moves.last())
        }
    }
}

/// The redeployments Transit Diodes offers: every ground force of the player to every planet
/// they control, once per offer, except out of a planet that received one this window.
pub open spec fn transit_moves(state: GameState, grounds: Seq<Seq<char>>, player: Seq<char>, arrivals: Seq<(Seq<char>, Seq<char>)>) -> Seq<MoveView> {
    distinct_moves(board_moves(state.board@, grounds, player, controlled(state.board@, player), arrivals))
}

fn push_dest_moves(raw: &mut Vec<TransitMove>, system: &str, source: &str, unit: &str, dests: &Vec<(String, String)>)
    ensures
        move_views(final(raw)@) == move_views(old(raw)@) + dest_moves(system@, source@, unit@, pair_names(dests@)),
{
    let ghost start = move_views(raw@);
    let mut k: usize = 0;
    while k < dests.len()
        invariant
            k <= dests@.len(),
            move_views(raw@) == start + dest_moves(system@, source@, unit@, pair_names(dests@).subrange(0, k as int)),
        decreases dests@.len() - k,
    {
        proof {
            assert(pair_names(dests@).subrange(0, k + 1).drop_last() =~= pair_names(dests@).subrange(0, k as int));
        }
        let d = &dests[k];
        if !(str_eq(d.0.as_str(), system) && str_eq(d.1.as_str(), source)) {
            let ghost was = move_views(raw@);
            raw.push(TransitMove {
                source_system: system.to_string(),
                source: source.to_string(),
                unit: unit.to_string(),
                destination_system: d.0.clone(),
                planet: d.1.clone(),
            });
            assert(move_views(raw@) =~= was.push(
                MoveView { source_system: system@, source: source@, unit: unit@, destination_system: d.0@, planet: d.1@ },
            ));
        }
        k = k + 1;
    }
    assert(pair_names(dests@).subrange(0, k as int) =~= pair_names(dests@));
}

fn push_list_moves(
    raw: &mut Vec<TransitMove>,
    system: &str,
    source: &str,
    units: &Vec<Unit>,
    grounds: &Vec<String>,
    player: &str,
    dests: &Vec<(String, String)>,
)
    ensures
        move_views(final(raw)@) == move_views(old(raw)@) + list_moves(system@, source@, units@, names(grounds@), player@, pair_names(dests@)),
{
    let ghost start = move_views(raw@);
    let mut k: usize = 0;
    while k < units.len()
        invariant
            k <= units@.len(),
            move_views(raw@) == start + list_moves(system@, source@, units@.subrange(0, k as int), names(grounds@), player@, pair_names(dests@)),
        decreases units@.len() - k,
    {
        proof {
            assert(units@.subrange(0, k + 1).drop_last() =~= units@.subrange(0, k as int));
        }
        let unit = &units[k];
        if str_eq(unit.owner.as_str(), player) && contains_name(grounds, unit.type_id.as_str()) {
            push_dest_moves(raw, system, source, unit.type_id.as_str(), dests);
        }
        k = k + 1;
    }
    assert(units@.subrange(0, k as int) =~= units@);
}

/// Whether a (system, planet) pair is listed.
fn has_pair(list: &Vec<(String, String)>, system: &str, planet: &str) -> (found: bool)
    ensures
        found == pair_names(list@).contains((system@, planet@)),
{
    let mut k: usize = 0;
    while k < list.len()
        invariant
            k <= list@.len(),
            forall|m: int| 0 <= m < k ==> pair_names(list@)[m] != (system@, planet@),
        decreases list@.len() - k,
    {
        if str_eq(list[k].0.as_str(), system) && str_eq(list[k].1.as_str(), planet) {
            assert(pair_names(list@)[k as int] == (system@, planet@));
            return true;
        }
        k = k + 1;
    }
    false
}

fn push_planet_moves(
    raw: &mut Vec<TransitMove>,
    system: &str,
    entries: &Vec<(String, Vec<Unit>)>,
    grounds: &Vec<String>,
    player: &str,
    dests: &Vec<(String, String)>,
    arrivals: &Vec<(String, String)>,
)
    ensures
        move_views(final(raw)@) == move_views(old(raw)@) + planet_moves(system@, entries@, names(grounds@), player@, pair_names(dests@), pair_names(arrivals@)),
{
    let ghost start = move_views(raw@);
    let mut k: usize = 0;
    while k < entries.len()
        invariant
            k <= entries@.len(),
            move_views(raw@) == start + planet_moves(system@, entries@.subrange(0, k as int), names(grounds@), player@, pair_names(dests@), pair_names(arrivals@)),
        decreases entries@.len() - k,
    {
        proof {
            assert(entries@.subrange(0, k + 1).drop_last() =~= entries@.subrange(0, k as int));
        }
        let entry = &entries[k];
        if !has_pair(arrivals, system, entry.0.as_str()) {
            push_list_moves(raw, system, entry.0.as_str(), &entry.1, grounds, player, dests);
        }
        k = k + 1;
    }
    assert(entries@.subrange(0, k as int) =~= entries@);
}

fn every_move(state: &GameState, grounds: &Vec<String>, player: &str, dests: &Vec<(String, String)>, arrivals: &Vec<(String, String)>) -> (raw: Vec<TransitMove>)
    ensures
        move_views(raw@) == board_moves(state.board@, names(grounds@), player@, pair_names(dests@), pair_names(arrivals@)),
{
    let mut raw: Vec<TransitMove> = Vec::new();
    let mut k: usize = 0;
    while k < state.board.len()
        invariant
            k <= state.board@.len(),
            move_views(raw@) == board_moves(state.board@.subrange(0, k as int), names(grounds@), player@, pair_names(dests@), pair_names(arrivals@)),
        decreases state.board@.len() - k,
    {
        proof {
            assert(state.board@.subrange(0, k + 1).drop_last() =~= state.board@.subrange(0, k as int));
        }
        let system = &state.board[k];
        push_list_moves(&mut raw, system.id.as_str(), "space", &system.units, grounds, player, dests);
        push_planet_moves(&mut raw, system.id.as_str(), &system.planet_units, grounds, player, dests, arrivals);
        k = k + 1;
    }
    assert(state.board@.subrange(0, k as int) =~= state.board@);
    raw
}

fn offered_already(kept: &Vec<TransitMove>, m: &TransitMove) -> (found: bool)
    ensures
        found == offers(move_views(kept@), m@),
{
    let mut k: usize = 0;
    while k < kept.len()
        invariant
            k <= kept@.len(),
            forall|j: int| 0 <= j < k ==> !#[trigger] same_offer(move_views(kept@)[j], m@),
        decreases kept@.len() - k,
    {
        let c = &kept[k];
        if str_eq(c.source_system.as_str(), m.source_system.as_str()) && str_eq(c.source.as_str(), m.source.as_str())
            && str_eq(c.unit.as_str(), m.unit.as_str()) && str_eq(c.planet.as_str(), m.planet.as_str()) {
            assert(same_offer(move_views(kept@)[k as int], m@));
            return true;
        }
        assert(!same_offer(move_views(kept@)[k as int], m@));
        k = k + 1;
    }
    false
}

/// The redeployments Transit Diodes offers now. `grounds` lists the ground force unit types;
/// `arrivals` the planets, as (system, planet), that received a redeployed unit this window.
pub fn transit_options(state: &GameState, grounds: &Vec<String>, player: &str, arrivals: &Vec<(String, String)>) -> (moves: Vec<TransitMove>)
    ensures
        move_views(moves@) == transit_moves(*state, names(grounds@), player@, pair_names(arrivals@)),
{
    let dests = controlled_planets(state, player);
    let raw = every_move(state, grounds, player, &dests, arrivals);
    let ghost all = move_views(raw@);
    let mut kept: Vec<TransitMove> = Vec::new();
    let mut k: usize = 0;
    while k < raw.len()
        invariant
            k <= raw@.len(),
            all == move_views(raw@),
            move_views(kept@) == distinct_moves(all.subrange(0, k as int)),
        decreases raw@.len() - k,
    {
        proof {
            assert(all.subrange(0, k + 1).drop_last() =~= all.subrange(0, k as int));
        }
        if !offered_already(&kept, &raw[k]) {
            let ghost was = move_views(kept@);
            kept.push(raw[k].clone());
            assert(move_views(kept@) =~= was.push(all[k as int]));
        }
        k = k + 1;
    }
    assert(all.subrange(0, k as int) =~= all);
    kept
}

/// The option that offers a redeployment.
pub open spec fn transit_view(m: MoveView) -> OptionView {
    OptionView {
        id: "transit|"@ + m.source_system + "|"@ + m.source + "|"@ + m.unit + "|"@ + m.destination_system + "|"@ + m.planet,
        kind: "transit"@,
        label: "move "@ + m.unit + " from "@ + m.source + " to "@ + m.planet,
    }
}

/// The facts a redeployment option carries.
pub open spec fn transit_payload(m: MoveView) -> Seq<(Seq<char>, ValueView)> {
    seq![
        ("source_system"@, ValueView::Text(m.source_system)),
        ("source"@, ValueView::Text(m.source)),
        ("unit"@, ValueView::Text(m.unit)),
        ("destination_system"@, ValueView::Text(m.destination_system)),
        ("planet"@, ValueView::Text(m.planet)),
    ]
}

/// The option that ends a redeployment.
pub open spec fn end_redeployment_view() -> OptionView {
    OptionView { id: "decline"@, kind: DECLINE_KIND@, label: "finish redeployment"@ }
}

/// The options of a redeployment: each move, then the finish.
pub open spec fn transit_views(moves: Seq<MoveView>) -> Seq<OptionView> {
    moves.map_values(|m: MoveView| transit_view(m)).push(end_redeployment_view())
}

/// Whether Transit Diodes offers a redeployment: the player sits at the table, owns it ready,
/// and has a move to make.
pub open spec fn transit_open(state: GameState, grounds: Seq<Seq<char>>, player: Seq<char>, arrivals: Seq<(Seq<char>, Seq<char>)>) -> bool {
    let i = seat_of(state.players@, player);
    i >= 0 && holds_ready(state.players@[i], "td"@) && transit_moves(state, grounds, player, arrivals).len() > 0
}

/// The prompt of a redeployment with `left` moves left.
pub open spec fn transit_prompt(left: int) -> Seq<char> {
    "Transit Diodes: redeploy ground forces ("@ + crate::text::decimal(left) + " left)"@
}

fn transit_option(m: &TransitMove) -> (option: ChoiceOption)
    ensures
        option@ == transit_view(m@),
        payload_view(&option) == transit_payload(m@),
{
    let id = "transit|".to_string().concat(m.source_system.as_str()).concat("|").concat(m.source.as_str()).concat("|").concat(
        m.unit.as_str(),
    ).concat("|").concat(m.destination_system.as_str()).concat("|").concat(m.planet.as_str());
    let label = "move ".to_string().concat(m.unit.as_str()).concat(" from ").concat(m.source.as_str()).concat(" to ").concat(
        m.planet.as_str(),
    );
    let option = ChoiceOption::labelled(id.as_str(), "transit", label.as_str())
        .with("source_system", Value::Text(m.source_system.clone()))
        .with("source", Value::Text(m.source.clone()))
        .with("unit", Value::Text(m.unit.clone()))
        .with("destination_system", Value::Text(m.destination_system.clone()))
        .with("planet", Value::Text(m.planet.clone()));
    assert(payload_view(&option) =~= transit_payload(m@));
    option
}

/// Whether a choice is the Transit Diodes question a player faces with `left` redeployments left.
pub open spec fn is_transit_choice(c: Choice, state: GameState, grounds: Seq<Seq<char>>, player: Seq<char>, arrivals: Seq<(Seq<char>, Seq<char>)>, left: int) -> bool {
    let moves = transit_moves(state, grounds, player, arrivals);
    &&& c.player@ == player
    &&& c.prompt@ == transit_prompt(left)
    &&& option_views(c.options@) == transit_views(moves)
    &&& forall|k: int| 0 <= k < moves.len() ==> payload_view(&#[trigger] c.options@[k]) == transit_payload(moves[k])
}

/// The Transit Diodes question: redeploy one ground force, or finish. `left` is how many
/// redeployments the window still allows.
pub fn transit_choice(state: &GameState, grounds: &Vec<String>, player: &str, arrivals: &Vec<(String, String)>, left: u64) -> (choice: Option<Choice>)
    ensures
        (choice is Some) == transit_open(*state, names(grounds@), player@, pair_names(arrivals@)),
        choice matches Some(c) ==> is_transit_choice(c, *state, names(grounds@), player@, pair_names(arrivals@), left as int),
{
    let i = match find_seat(&state.players, player) {
        Some(i) => i,
        None => return None,
    };
    if !ready_technology(&state.players[i], "td") {
        return None;
    }
    let moves = transit_options(state, grounds, player, arrivals);
    if moves.len() == 0 {
        return None;
    }
    let ghost views = move_views(moves@).map_values(|m: MoveView| transit_view(m));
    let mut options: Vec<ChoiceOption> = Vec::new();
    let mut k: usize = 0;
    while k < moves.len()
        invariant
            k <= moves@.len(),
            views == move_views(moves@).map_values(|m: MoveView| transit_view(m)),
            option_views(options@) == views.subrange(0, k as int),
            forall|m: int| 0 <= m < k ==> payload_view(&#[trigger] options@[m]) == transit_payload(moves@[m]@),
        decreases moves@.len() - k,
    {
        let option = transit_option(&moves[k]);
        let ghost was = option_views(options@);
        options.push(option);
        assert(option_views(options@) =~= was.push(transit_view(moves@[k as int]@)));
        assert(views.subrange(0, k + 1) =~= views.subrange(0, k as int).push(transit_view(moves@[k as int]@)));
        k = k + 1;
    }
    assert(views.subrange(0, k as int) =~= views);
    let ghost listed = option_views(options@);
    options.push(ChoiceOption::labelled("decline", DECLINE_KIND, "finish redeployment"));
    assert(option_views(options@) =~= listed.push(end_redeployment_view()));
    let prompt = "Transit Diodes: redeploy ground forces (".to_string().concat(crate::text::decimal_string_u64(left).as_str()).concat(" left)");
    Some(Choice::new(player, prompt.as_str(), options))
}

/// Where a system first stands on the board, or -1.
pub open spec fn system_index(board: Seq<SystemState>, id: Seq<char>) -> int
    decreases board.len(),
{
    if board.len() == 0 {
        -1
    } else if system_index(board.drop_last(), id) >= 0 {
        system_index(board.drop_last(), id)
    } else if board.last().id@ == id {
        board.len() - 1
    } else {
        -1
    }
}

proof fn lemma_system_index(board: Seq<SystemState>, n: int, id: Seq<char>)
    requires
        0 <= n <= board.len(),
    ensures
        -1 <= system_index(board, id) < board.len(),
        system_index(board.subrange(0, n), id) >= 0 ==> system_index(board, id) == system_index(board.subrange(0, n), id),
        system_index(board, id) >= 0 ==> board[system_index(board, id)].id@ == id,
    decreases board.len() - n,
{
    if n < board.len() {
        assert(board.subrange(0, n + 1).drop_last() =~= board.subrange(0, n));
        lemma_system_index(board, n + 1, id);
    } else {
        assert(board.subrange(0, n) =~= board);
        lemma_system_index_bounds(board, id);
    }
}

pub(crate) proof fn lemma_system_index_bounds(board: Seq<SystemState>, id: Seq<char>)
    ensures
        -1 <= system_index(board, id) < board.len(),
        system_index(board, id) >= 0 ==> board[system_index(board, id)].id@ == id,
    decreases board.len(),
{
    if board.len() > 0 {
        lemma_system_index_bounds(board.drop_last(), id);
    }
}

pub(crate) fn find_system(board: &Vec<SystemState>, id: &str) -> (found: Option<usize>)
    ensures
        match found {
            Some(k) => k as int == system_index(board@, id@) && k < board@.len(),
            None => system_index(board@, id@) < 0,
        },
{
    let mut k: usize = 0;
    while k < board.len()
        invariant
            k <= board@.len(),
            system_index(board@.subrange(0, k as int), id@) < 0,
        decreases board@.len() - k,
    {
        assert(board@.subrange(0, k + 1).drop_last() =~= board@.subrange(0, k as int));
        if str_eq(board[k].id.as_str(), id) {
            proof {
                lemma_system_index(board@, k + 1, id@);
            }
            return Some(k);
        }
        k = k + 1;
    }
    assert(board@.subrange(0, k as int) =~= board@);
    None
}

/// Where a planet's entry first stands among a system's planets, or -1.
pub open spec fn entry_index(entries: Seq<(String, Vec<Unit>)>, planet: Seq<char>) -> int
    decreases entries.len(),
{
    if entries.len() == 0 {
        -1
    } else if entry_index(entries.drop_last(), planet) >= 0 {
        entry_index(entries.drop_last(), planet)
    } else if entries.last().0@ == planet {
        entries.len() - 1
    } else {
        -1
    }
}

proof fn lemma_entry_index(entries: Seq<(String, Vec<Unit>)>, n: int, planet: Seq<char>)
    requires
        0 <= n <= entries.len(),
    ensures
        -1 <= entry_index(entries, planet) < entries.len(),
        entry_index(entries.subrange(0, n), planet) >= 0 ==> entry_index(entries, planet) == entry_index(entries.subrange(0, n), planet),
    decreases entries.len() - n,
{
    if n < entries.len() {
        assert(entries.subrange(0, n + 1).drop_last() =~= entries.subrange(0, n));
        lemma_entry_index(entries, n + 1, planet);
    } else {
        assert(entries.subrange(0, n) =~= entries);
        lemma_entry_index_bounds(entries, planet);
    }
}

proof fn lemma_entry_index_bounds(entries: Seq<(String, Vec<Unit>)>, planet: Seq<char>)
    ensures
        -1 <= entry_index(entries, planet) < entries.len(),
    decreases entries.len(),
{
    if entries.len() > 0 {
        lemma_entry_index_bounds(entries.drop_last(), planet);
    }
}

pub(crate) fn find_entry(entries: &Vec<(String, Vec<Unit>)>, planet: &str) -> (found: Option<usize>)
    ensures
        match found {
            Some(k) => k as int == entry_index(entries@, planet@) && k < entries@.len(),
            None => entry_index(entries@, planet@) < 0,
        },
{
    let mut k: usize = 0;
    while k < entries.len()
        invariant
            k <= entries@.len(),
            entry_index(entries@.subrange(0, k as int), planet@) < 0,
        decreases entries@.len() - k,
    {
        assert(entries@.subrange(0, k + 1).drop_last() =~= entries@.subrange(0, k as int));
        if str_eq(entries[k].0.as_str(), planet) {
            proof {
                lemma_entry_index(entries@, k + 1, planet@);
            }
            return Some(k);
        }
        k = k + 1;
    }
    assert(entries@.subrange(0, k as int) =~= entries@);
    None
}

/// Whether a unit is the player's ground force of the given type.
pub open spec fn fits_move(grounds: Seq<Seq<char>>, player: Seq<char>, unit_type: Seq<char>, unit: Unit) -> bool {
    own_ground_force(grounds, player, unit) && unit.type_id@ == unit_type
}

/// Where the first unit that fits a move stands in a list, or -1.
pub open spec fn unit_index(units: Seq<Unit>, grounds: Seq<Seq<char>>, player: Seq<char>, unit_type: Seq<char>) -> int
    decreases units.len(),
{
    if units.len() == 0 {
        -1
    } else if unit_index(units.drop_last(), grounds, player, unit_type) >= 0 {
        unit_index(units.drop_last(), grounds, player, unit_type)
    } else if fits_move(grounds, player, unit_type, units.last()) {
        units.len() - 1
    } else {
        -1
    }
}

proof fn lemma_unit_index(units: Seq<Unit>, n: int, grounds: Seq<Seq<char>>, player: Seq<char>, unit_type: Seq<char>)
    requires
        0 <= n <= units.len(),
    ensures
        -1 <= unit_index(units, grounds, player, unit_type) < units.len(),
        unit_index(units.subrange(0, n), grounds, player, unit_type) >= 0 ==> unit_index(units, grounds, player, unit_type)
            == unit_index(units.subrange(0, n), grounds, player, unit_type),
    decreases units.len() - n,
{
    if n < units.len() {
        assert(units.subrange(0, n + 1).drop_last() =~= units.subrange(0, n));
        lemma_unit_index(units, n + 1, grounds, player, unit_type);
    } else {
        assert(units.subrange(0, n) =~= units);
        lemma_unit_index_bounds(units, grounds, player, unit_type);
    }
}

proof fn lemma_unit_index_bounds(units: Seq<Unit>, grounds: Seq<Seq<char>>, player: Seq<char>, unit_type: Seq<char>)
    ensures
        -1 <= unit_index(units, grounds, player, unit_type) < units.len(),
    decreases units.len(),
{
    if units.len() > 0 {
        lemma_unit_index_bounds(units.drop_last(), grounds, player, unit_type);
    }
}

fn find_unit(units: &Vec<Unit>, grounds: &Vec<String>, player: &str, unit_type: &str) -> (found: Option<usize>)
    ensures
        match found {
            Some(k) => k as int == unit_index(units@, names(grounds@), player@, unit_type@) && k < units@.len(),
            None => unit_index(units@, names(grounds@), player@, unit_type@) < 0,
        },
{
    let mut k: usize = 0;
    while k < units.len()
        invariant
            k <= units@.len(),
            unit_index(units@.subrange(0, k as int), names(grounds@), player@, unit_type@) < 0,
        decreases units@.len() - k,
    {
        assert(units@.subrange(0, k + 1).drop_last() =~= units@.subrange(0, k as int));
        let unit = &units[k];
        if str_eq(unit.owner.as_str(), player) && contains_name(grounds, unit.type_id.as_str()) && str_eq(unit.type_id.as_str(), unit_type) {
            proof {
                lemma_unit_index(units@, k + 1, names(grounds@), player@, unit_type@);
            }
            return Some(k);
        }
        k = k + 1;
    }
    assert(units@.subrange(0, k as int) =~= units@);
    None
}

/// The units of a source in a system: its space area, or a planet's units (`None` for a
/// planet the system lists no units for).
pub open spec fn source_units(sys: SystemState, source: Seq<char>) -> Option<Seq<Unit>> {
    if source == "space"@ {
        Some(sys.units@)
    } else {
        let e = entry_index(sys.planet_units@, source);
        if e < 0 {
            None
        } else {
            Some(sys.planet_units@[e].1@)
        }
    }
}

/// The system after the unit at `idx` of a source leaves it.
pub open spec fn left_source(before: SystemState, after: SystemState, source: Seq<char>, idx: int) -> bool {
    &&& after.id == before.id
    &&& after.planet_control == before.planet_control
    &&& after.command_tokens == before.command_tokens
    &&& if source == "space"@ {
        after.units@ == before.units@.remove(idx) && after.planet_units == before.planet_units
    } else {
        let e = entry_index(before.planet_units@, source);
        &&& after.units == before.units
        &&& after.planet_units@ == before.planet_units@.update(e, after.planet_units@[e])
        &&& after.planet_units@[e].0 == before.planet_units@[e].0
        &&& after.planet_units@[e].1@ == before.planet_units@[e].1@.remove(idx)
    }
}

/// The system after a unit lands on one of its planets: added to the planet's units, or to a
/// new entry for a planet that had none.
pub open spec fn landed(before: SystemState, after: SystemState, planet: Seq<char>, unit: Unit) -> bool {
    let e = entry_index(before.planet_units@, planet);
    &&& after.id == before.id
    &&& after.units == before.units
    &&& after.planet_control == before.planet_control
    &&& after.command_tokens == before.command_tokens
    &&& if e >= 0 {
        &&& after.planet_units@ == before.planet_units@.update(e, after.planet_units@[e])
        &&& after.planet_units@[e].0 == before.planet_units@[e].0
        &&& after.planet_units@[e].1@ == before.planet_units@[e].1@.push(unit)
    } else {
        &&& after.planet_units@ == before.planet_units@.push(after.planet_units@.last())
        &&& after.planet_units@.last().0@ == planet
        &&& after.planet_units@.last().1@ == seq![unit]
    }
}

fn take_mover(sys: &mut SystemState, source: &str, grounds: &Vec<String>, player: &str, unit_type: &str) -> (taken: Option<Unit>)
    ensures
        match taken {
            Some(unit) => {
                let list = source_units(*old(sys), source@)->Some_0;
                let idx = unit_index(list, names(grounds@), player@, unit_type@);
                &&& source_units(*old(sys), source@) is Some
                &&& idx >= 0
                &&& unit == list[idx]
                &&& left_source(*old(sys), *final(sys), source@, idx)
            },
            None => {
                &&& (source_units(*old(sys), source@) is Some ==> unit_index(source_units(*old(sys), source@)->Some_0, names(grounds@), player@, unit_type@) < 0)
                &&& *final(sys) == *old(sys)
            },
        },
{
    if str_eq(source, "space") {
        let k = match find_unit(&sys.units, grounds, player, unit_type) {
            Some(k) => k,
            None => return None,
        };
        let ghost before = sys.units@;
        let unit = sys.units.remove(k);
        return Some(unit);
    }
    let e = match find_entry(&sys.planet_units, source) {
        Some(e) => e,
        None => return None,
    };
    let k = match find_unit(&sys.planet_units[e].1, grounds, player, unit_type) {
        Some(k) => k,
        None => return None,
    };
    let ghost before = sys.planet_units@;
    let mut entry = sys.planet_units.remove(e);
    let unit = entry.1.remove(k);
    sys.planet_units.insert(e, entry);
    assert(sys.planet_units@ =~= before.update(e as int, sys.planet_units@[e as int]));
    Some(unit)
}

fn can_take(sys: &SystemState, source: &str, grounds: &Vec<String>, player: &str, unit_type: &str) -> (yes: bool)
    ensures
        yes == (source_units(*sys, source@) is Some && unit_index(source_units(*sys, source@)->Some_0, names(grounds@), player@, unit_type@) >= 0),
{
    if str_eq(source, "space") {
        return find_unit(&sys.units, grounds, player, unit_type).is_some();
    }
    match find_entry(&sys.planet_units, source) {
        Some(e) => find_unit(&sys.planet_units[e].1, grounds, player, unit_type).is_some(),
        None => false,
    }
}

fn land(sys: &mut SystemState, planet: &str, unit: Unit)
    ensures
        landed(*old(sys), *final(sys), planet@, unit),
{
    let ghost before = sys.planet_units@;
    match find_entry(&sys.planet_units, planet) {
        Some(e) => {
            let mut entry = sys.planet_units.remove(e);
            entry.1.push(unit);
            sys.planet_units.insert(e, entry);
            assert(sys.planet_units@ =~= before.update(e as int, sys.planet_units@[e as int]));
        },
        None => {
            let mut units: Vec<Unit> = Vec::new();
            units.push(unit);
            sys.planet_units.push((planet.to_string(), units));
            assert(sys.planet_units@ =~= before.push(sys.planet_units@.last()));
        },
    }
}

/// Where the unit that makes a move stands in its source, or -1 where the move cannot be made:
/// a system missing from the board, or no such unit there.
pub open spec fn mover_index(state: GameState, grounds: Seq<Seq<char>>, player: Seq<char>, m: MoveView) -> int {
    let si = system_index(state.board@, m.source_system);
    let di = system_index(state.board@, m.destination_system);
    if si < 0 || di < 0 {
        -1
    } else {
        match source_units(state.board@[si], m.source) {
            Some(list) => unit_index(list, grounds, player, m.unit),
            None => -1,
        }
    }
}

/// The table after a move: the unit leaves its source and lands on the planet; nothing else
/// changes.
pub open spec fn redeployed(before: GameState, after: GameState, grounds: Seq<Seq<char>>, player: Seq<char>, m: MoveView) -> bool {
    let si = system_index(before.board@, m.source_system);
    let di = system_index(before.board@, m.destination_system);
    let idx = mover_index(before, grounds, player, m);
    let unit = source_units(before.board@[si], m.source)->Some_0[idx];
    exists|mid: SystemState| {
        &&& #[trigger] left_source(before.board@[si], mid, m.source, idx)
        &&& after.board@ == before.board@.update(si, mid).update(di, after.board@[di])
        &&& landed(before.board@.update(si, mid)[di], after.board@[di], m.planet, unit)
        &&& after == (GameState { board: after.board, ..before })
    }
}

/// Make one redeployment, where it can be made.
fn move_unit(state: &mut GameState, m: &TransitMove, grounds: &Vec<String>, player: &str) -> (moved: bool)
    ensures
        moved == (mover_index(*old(state), names(grounds@), player@, m@) >= 0),
        moved ==> redeployed(*old(state), *final(state), names(grounds@), player@, m@),
        !moved ==> *final(state) == *old(state),
{
    let ghost before = *state;
    let si = match find_system(&state.board, m.source_system.as_str()) {
        Some(k) => k,
        None => return false,
    };
    let di = match find_system(&state.board, m.destination_system.as_str()) {
        Some(k) => k,
        None => return false,
    };
    if !can_take(&state.board[si], m.source.as_str(), grounds, player, m.unit.as_str()) {
        return false;
    }
    let mut sys = state.board.remove(si);
    let unit = match take_mover(&mut sys, m.source.as_str(), grounds, player, m.unit.as_str()) {
        Some(u) => u,
        None => {
            assert(false);
            return false;
        },
    };
    let ghost mid = sys;
    state.board.insert(si, sys);
    let ghost middle = state.board@;
    assert(middle =~= before.board@.update(si as int, mid));
    let mut dsys = state.board.remove(di);
    land(&mut dsys, m.planet.as_str(), unit);
    state.board.insert(di, dsys);
    assert(state.board@ =~= middle.update(di as int, state.board@[di as int]));
    assert(left_source(before.board@[si as int], mid, m.source@, mover_index(before, names(grounds@), player@, m@)));
    true
}

/// What answering the Transit Diodes question does: a move is made, where it can be, and
/// returned; the finish, or a move that cannot be made, ends the redeployment.
pub open spec fn transit_answered(
    before: GameState,
    after: GameState,
    grounds: Seq<Seq<char>>,
    player: Seq<char>,
    arrivals: Seq<(Seq<char>, Seq<char>)>,
    answer: OptionView,
    result: Result<Option<TransitMove>, IllegalChoice>,
) -> bool {
    let moves = transit_moves(before, grounds, player, arrivals);
    let views = transit_views(moves);
    if !transit_open(before, grounds, player, arrivals) || none_answered(views, answer) {
        result matches Err(e) && e.player@ == player && e.answered@ == answer.id && after == before
    } else {
        exists|k: int| #[trigger] first_answered(views, k, answer) && if k == moves.len() || mover_index(before, grounds, player, moves[k]) < 0 {
            result matches Ok(None) && after == before
        } else {
            &&& result matches Ok(Some(m)) && m@ == moves[k]
            &&& redeployed(before, after, grounds, player, moves[k])
        }
    }
}

/// Take an answer to the Transit Diodes question.
pub fn transit_answer(state: &mut GameState, grounds: &Vec<String>, player: &str, arrivals: &Vec<(String, String)>, answer: ChoiceOption) -> (result: Result<Option<TransitMove>, IllegalChoice>)
    ensures
        transit_answered(*old(state), *final(state), names(grounds@), player@, pair_names(arrivals@), answer@, result),
{
    let choice = match transit_choice(state, grounds, player, arrivals, 0) {
        Some(c) => c,
        None => return Err(IllegalChoice { player: player.to_string(), answered: answer.id }),
    };
    let moves = transit_options(state, grounds, player, arrivals);
    let ghost views = option_views(choice.options@);
    let k = match answered_index(&choice, &answer) {
        Some(k) => k,
        None => return Err(IllegalChoice { player: player.to_string(), answered: answer.id }),
    };
    assert(first_answered(views, k as int, answer@));
    if k >= moves.len() {
        return Ok(None);
    }
    let m = moves[k].clone();
    if move_unit(state, &m, grounds, player) {
        Ok(Some(m))
    } else {
        Ok(None)
    }
}

/// The table after a seat exhausts a technology: the alias joins its exhausted technologies,
/// where it is not already there; nothing else changes.
pub open spec fn exhausted_for(before: GameState, after: GameState, player: Seq<char>, alias: Seq<char>) -> bool {
    let i = seat_of(before.players@, player);
    &&& after.players@ == before.players@.update(i, Seat { exhausted_technologies: after.players@[i].exhausted_technologies, ..before.players@[i] })
    &&& names(after.players@[i].exhausted_technologies@) == exhausted_names(before.players@[i], alias)
    &&& after == (GameState { players: after.players, ..before })
}

/// The table after a window closes: a technology that was used is exhausted, where its owner
/// sits at the table; otherwise nothing changes.
pub open spec fn closed_with(before: GameState, after: GameState, player: Seq<char>, alias: Seq<char>, used: bool) -> bool {
    if used && seat_of(before.players@, player) >= 0 {
        exhausted_for(before, after, player, alias)
    } else {
        after == before
    }
}

fn close_with(state: &mut GameState, player: &str, alias: &str, used: bool)
    ensures
        closed_with(*old(state), *final(state), player@, alias@, used),
{
    if !used {
        return;
    }
    match find_seat(&state.players, player) {
        Some(i) => {
            let ghost before = *state;
            exhaust_technology(state, i, alias);
            assert(state.players@ =~= before.players@.update(
                i as int,
                Seat { exhausted_technologies: state.players@[i as int].exhausted_technologies, ..before.players@[i as int] },
            ));
        },
        None => {},
    }
}

/// Where an end-of-turn window stands.
#[derive(Debug, Clone, Copy, PartialEq, Eq, Structural)]
pub enum EndStep {
    Redistribution,
    Stims,
    Done,
}

/// The free technology windows at the end of an action-phase turn. Predictive Intelligence
/// may move command tokens between pools, one at a time, as many times as the seat held tokens
/// when the window opened, and is exhausted if a token moved; Bio-Stims may then ready one
/// exhausted specialty planet or another exhausted technology, and is exhausted if it does.
#[derive(Debug)]
pub struct EndOfTurn {
    player: String,
    step: EndStep,
    maximum: i64,
    moved: i64,
}

/// An end-of-turn window as values.
pub struct EndView {
    pub player: Seq<char>,
    pub step: EndStep,
    pub maximum: int,
    pub moved: int,
}

impl View for EndOfTurn {
    type V = EndView;

    closed spec fn view(&self) -> EndView {
        EndView { player: self.player@, step: self.step, maximum: self.maximum as int, moved: self.moved as int }
    }
}

/// The tokens on a seat's command sheet.
pub open spec fn sheet_tokens(seat: Seat) -> int {
    seat.tactic_tokens + seat.fleet_tokens + seat.strategic_tokens
}

/// How many redistributions Predictive Intelligence allows a window: the tokens on the sheet when
/// it opens, for a seat that owns it ready; none otherwise.
pub open spec fn redistribution_allowance(state: GameState, player: Seq<char>) -> int {
    let i = seat_of(state.players@, player);
    if i >= 0 && holds_ready(state.players@[i], "pi"@) {
        sheet_tokens(state.players@[i])
    } else {
        0
    }
}

/// Whether the redistribution step has nothing left to ask: its moves are spent or none can be
/// made.
pub open spec fn redistribution_over(w: EndView, state: GameState) -> bool {
    w.step == EndStep::Redistribution && !(w.moved < w.maximum && redistribution_open(state, w.player))
}

/// The window and the table once the steps with nothing to ask are passed.
pub open spec fn end_settled(w: EndView, before: GameState, v: EndView, after: GameState, planets: Seq<PlanetRecord>) -> bool {
    let leaves = redistribution_over(w, before);
    let step = if leaves { EndStep::Stims } else { w.step };
    &&& if leaves { closed_with(before, after, w.player, "pi"@, w.moved > 0) } else { after == before }
    &&& v == (EndView { step: if step == EndStep::Stims && !stims_open(after, planets, w.player) { EndStep::Done } else { step }, ..w })
}

/// What answering the open question of a settled end-of-turn window does.
pub open spec fn end_answered(
    w: EndView,
    before: GameState,
    v: EndView,
    after: GameState,
    planets: Seq<PlanetRecord>,
    tech_names: Seq<(String, String)>,
    answer: OptionView,
    result: Result<(), IllegalChoice>,
) -> bool {
    match w.step {
        EndStep::Redistribution => exists|mid: GameState, r: Result<bool, IllegalChoice>| {
            &&& #[trigger] redistributed(before, mid, w.player, answer, r)
            &&& match r {
                Err(e) => result == Err::<(), IllegalChoice>(e) && v == w && after == mid,
                Ok(true) => result is Ok && v == (EndView { moved: w.moved + 1, ..w }) && after == mid,
                Ok(false) => result is Ok && v == (EndView { step: EndStep::Stims, ..w }) && closed_with(mid, after, w.player, "pi"@, w.moved > 0),
            }
        },
        EndStep::Stims => exists|r: Result<bool, IllegalChoice>| {
            &&& #[trigger] stimmed(before, after, planets, tech_names, w.player, answer, r)
            &&& match r {
                Err(e) => result == Err::<(), IllegalChoice>(e) && v == w,
                Ok(_) => result is Ok && v == (EndView { step: EndStep::Done, ..w }),
            }
        },
        EndStep::Done => result matches Err(e) && e.player@ == w.player && e.answered@ == answer.id && v == w && after == before,
    }
}

impl EndOfTurn {
    /// Its moves stay within the allowance, which a command sheet bounds.
    pub closed spec fn wf(&self) -> bool {
        &&& 0 <= self.moved
        &&& self.maximum <= 3 * (i32::MAX as int)
        &&& (self.moved <= self.maximum || self.moved == 0)
    }

    /// Open the end-of-turn windows for a player.
    pub fn open(state: &GameState, player: &str) -> (w: Self)
        ensures
            w.wf(),
            w@ == (EndView { player: player@, step: EndStep::Redistribution, maximum: redistribution_allowance(*state, player@), moved: 0 }),
    {
        let maximum: i64 = match find_seat(&state.players, player) {
            Some(i) => {
                let seat = &state.players[i];
                if ready_technology(seat, "pi") {
                    seat.tactic_tokens as i64 + seat.fleet_tokens as i64 + seat.strategic_tokens as i64
                } else {
                    0
                }
            },
            None => 0,
        };
        EndOfTurn { player: player.to_string(), step: EndStep::Redistribution, maximum, moved: 0 }
    }

    /// Whether every end-of-turn window has closed.
    pub fn is_done(&self) -> (done: bool)
        ensures
            done == (self@.step == EndStep::Done),
    {
        self.step == EndStep::Done
    }

    fn settle(&mut self, state: &mut GameState, planets: &Vec<PlanetRecord>)
        requires
            old(self).wf(),
        ensures
            final(self).wf(),
            end_settled(old(self)@, *old(state), final(self)@, *final(state), planets@),
    {
        if self.step == EndStep::Redistribution {
            let open = self.moved < self.maximum && redistribution_choice(state, self.player.as_str()).is_some();
            if !open {
                close_with(state, self.player.as_str(), "pi", self.moved > 0);
                self.step = EndStep::Stims;
            }
        }
        if self.step == EndStep::Stims && stims_choice(state, planets, &Vec::new(), self.player.as_str()).is_none() {
            self.step = EndStep::Done;
        }
    }

    /// The question the window asks next, once the steps with nothing to ask are passed, or
    /// `None` when every window has closed. `tech_names` gives technologies' printed names.
    pub fn pending_choice(&mut self, state: &mut GameState, planets: &Vec<PlanetRecord>, tech_names: &Vec<(String, String)>) -> (choice: Option<Choice>)
        requires
            old(self).wf(),
        ensures
            final(self).wf(),
            end_settled(old(self)@, *old(state), final(self)@, *final(state), planets@),
            match final(self)@.step {
                EndStep::Redistribution => choice matches Some(c) && is_redistribution_choice(c, *final(state), final(self)@.player),
                EndStep::Stims => choice matches Some(c) && is_stims_choice(c, *final(state), planets@, tech_names@, final(self)@.player),
                EndStep::Done => choice is None,
            },
    {
        self.settle(state, planets);
        match self.step {
            EndStep::Redistribution => redistribution_choice(state, self.player.as_str()),
            EndStep::Stims => stims_choice(state, planets, tech_names, self.player.as_str()),
            EndStep::Done => None,
        }
    }

    /// Take the answer to the question the window asks next.
    #[verifier::rlimit(40)]
    pub fn take_choice(
        &mut self,
        state: &mut GameState,
        planets: &Vec<PlanetRecord>,
        tech_names: &Vec<(String, String)>,
        answer: ChoiceOption,
    ) -> (result: Result<(), IllegalChoice>)
        requires
            old(self).wf(),
            pools_have_room(*old(state), old(self)@.player),
        ensures
            final(self).wf(),
            exists|w: EndView, s: GameState| #[trigger] end_settled(old(self)@, *old(state), w, s, planets@)
                && end_answered(w, s, final(self)@, *final(state), planets@, tech_names@, answer@, result),
    {
        let ghost w0 = self@;
        let ghost s0 = *state;
        self.settle(state, planets);
        let ghost w1 = self@;
        let ghost s1 = *state;
        proof {
            assert forall|j: int| 0 <= j < s0.players@.len() implies (#[trigger] s0.players@[j]).id@ == s1.players@[j].id@ by {}
            lemma_seat_of_same_ids(s0.players@, s1.players@, w1.player);
        }
        match self.step {
            EndStep::Redistribution => {
                let r = redistribute(state, self.player.as_str(), answer);
                let ghost mid = *state;
                let ghost rr = r;
                match r {
                    Err(e) => {
                        assert(redistributed(s1, mid, w1.player, answer@, rr));
                        Err(e)
                    },
                    Ok(true) => {
                        self.moved = self.moved + 1;
                        assert(redistributed(s1, mid, w1.player, answer@, rr));
                        Ok(())
                    },
                    Ok(false) => {
                        close_with(state, self.player.as_str(), "pi", self.moved > 0);
                        self.step = EndStep::Stims;
                        assert(redistributed(s1, mid, w1.player, answer@, rr));
                        Ok(())
                    },
                }
            },
            EndStep::Stims => {
                let r = stims_answer(state, planets, tech_names, self.player.as_str(), answer);
                let ghost rr = r;
                assert(stimmed(s1, *state, planets@, tech_names@, w1.player, answer@, rr));
                match r {
                    Err(e) => Err(e),
                    Ok(_) => {
                        self.step = EndStep::Done;
                        Ok(())
                    },
                }
            },
            EndStep::Done => Err(IllegalChoice { player: self.player.clone(), answered: answer.id }),
        }
    }
}

/// Where a start-of-turn window stands.
#[derive(Debug, Clone, Copy, PartialEq, Eq, Structural)]
pub enum StartStep {
    Conversion,
    Redeployment,
    Chaos,
    Done,
}

/// How many ground forces Transit Diodes redeploys at most.
pub const TRANSIT_LIMIT: u64 = 4;

/// The free technology windows at the start of an action-phase turn. Psychoarchaeology may
/// convert ready specialty planets to trade goods, one at a time; Transit Diodes may then
/// redeploy up to four ground forces, and is exhausted if it moved one; Chaos Mapping may then
/// choose a system to produce one unit in.
#[derive(Debug)]
pub struct StartOfTurn {
    player: String,
    step: StartStep,
    moved: u64,
    arrivals: Vec<(String, String)>,
}

/// A start-of-turn window as values.
pub struct StartView {
    pub player: Seq<char>,
    pub step: StartStep,
    pub moved: int,
    pub arrivals: Seq<(Seq<char>, Seq<char>)>,
}

impl View for StartOfTurn {
    type V = StartView;

    closed spec fn view(&self) -> StartView {
        StartView { player: self.player@, step: self.step, moved: self.moved as int, arrivals: pair_names(self.arrivals@) }
    }
}

/// The window and the table once the steps with nothing to ask are passed.
pub open spec fn start_settled(
    w: StartView,
    before: GameState,
    v: StartView,
    after: GameState,
    planets: Seq<PlanetRecord>,
    grounds: Seq<Seq<char>>,
    capacities: Seq<(String, u32)>,
) -> bool {
    let first = if w.step == StartStep::Conversion && !conversion_open(before, planets, w.player) {
        StartStep::Redeployment
    } else {
        w.step
    };
    let leaves = first == StartStep::Redeployment && !(w.moved < TRANSIT_LIMIT && transit_open(before, grounds, w.player, w.arrivals));
    let second = if leaves { StartStep::Chaos } else { first };
    &&& if leaves { closed_with(before, after, w.player, "td"@, w.moved > 0) } else { after == before }
    &&& v == (StartView { step: if second == StartStep::Chaos && !chaos_open(after, capacities, w.player) { StartStep::Done } else { second }, ..w })
}

/// What answering the open question of a settled start-of-turn window does. A Chaos Mapping
/// answer hands back the system to produce one unit in.
pub open spec fn start_answered(
    w: StartView,
    before: GameState,
    v: StartView,
    after: GameState,
    planets: Seq<PlanetRecord>,
    grounds: Seq<Seq<char>>,
    capacities: Seq<(String, u32)>,
    answer: OptionView,
    result: Result<Option<String>, IllegalChoice>,
) -> bool {
    match w.step {
        StartStep::Conversion => exists|r: Result<bool, IllegalChoice>| {
            &&& #[trigger] converted(before, after, planets, w.player, answer, r)
            &&& match r {
                Err(e) => result == Err::<Option<String>, IllegalChoice>(e) && v == w,
                Ok(true) => result == Ok::<Option<String>, IllegalChoice>(None) && v == w,
                Ok(false) => result == Ok::<Option<String>, IllegalChoice>(None) && v == (StartView { step: StartStep::Redeployment, ..w }),
            }
        },
        StartStep::Redeployment => exists|mid: GameState, r: Result<Option<TransitMove>, IllegalChoice>| {
            &&& #[trigger] transit_answered(before, mid, grounds, w.player, w.arrivals, answer, r)
            &&& match r {
                Err(e) => result == Err::<Option<String>, IllegalChoice>(e) && v == w && after == mid,
                Ok(Some(m)) => {
                    &&& result == Ok::<Option<String>, IllegalChoice>(None)
                    &&& v == (StartView { moved: w.moved + 1, arrivals: w.arrivals.push((m@.destination_system, m@.planet)), ..w })
                    &&& after == mid
                },
                Ok(None) => {
                    &&& result == Ok::<Option<String>, IllegalChoice>(None)
                    &&& v == (StartView { step: StartStep::Chaos, ..w })
                    &&& closed_with(mid, after, w.player, "td"@, w.moved > 0)
                },
            }
        },
        StartStep::Chaos => {
            &&& chaos_answered(before, capacities, w.player, answer, result)
            &&& after == before
            &&& v == (if result is Ok { StartView { step: StartStep::Done, ..w } } else { w })
        },
        StartStep::Done => result matches Err(e) && e.player@ == w.player && e.answered@ == answer.id && v == w && after == before,
    }
}

impl StartOfTurn {
    /// No more redeployments than Transit Diodes allows.
    pub closed spec fn wf(&self) -> bool {
        self.moved <= TRANSIT_LIMIT
    }

    /// Open the start-of-turn windows for a player.
    pub fn open(player: &str) -> (w: Self)
        ensures
            w.wf(),
            w@ == (StartView { player: player@, step: StartStep::Conversion, moved: 0, arrivals: Seq::empty() }),
    {
        let w = StartOfTurn { player: player.to_string(), step: StartStep::Conversion, moved: 0, arrivals: Vec::new() };
        assert(pair_names(w.arrivals@) =~= Seq::<(Seq<char>, Seq<char>)>::empty());
        w
    }

    /// Whether every start-of-turn window has closed.
    pub fn is_done(&self) -> (done: bool)
        ensures
            done == (self@.step == StartStep::Done),
    {
        self.step == StartStep::Done
    }

    fn settle(&mut self, state: &mut GameState, planets: &Vec<PlanetRecord>, grounds: &Vec<String>, capacities: &Vec<(String, u32)>)
        requires
            old(self).wf(),
        ensures
            final(self).wf(),
            start_settled(old(self)@, *old(state), final(self)@, *final(state), planets@, names(grounds@), capacities@),
    {
        if self.step == StartStep::Conversion && conversion_choice(state, planets, self.player.as_str()).is_none() {
            self.step = StartStep::Redeployment;
        }
        if self.step == StartStep::Redeployment {
            let open = self.moved < TRANSIT_LIMIT && transit_choice(state, grounds, self.player.as_str(), &self.arrivals, 0).is_some();
            if !open {
                close_with(state, self.player.as_str(), "td", self.moved > 0);
                self.step = StartStep::Chaos;
            }
        }
        if self.step == StartStep::Chaos && chaos_choice(state, capacities, self.player.as_str()).is_none() {
            self.step = StartStep::Done;
        }
    }

    /// The question the window asks next, once the steps with nothing to ask are passed, or
    /// `None` when every window has closed. `grounds` lists the ground force unit types;
    /// `capacities` the player's production capacity in each system.
    pub fn pending_choice(
        &mut self,
        state: &mut GameState,
        planets: &Vec<PlanetRecord>,
        grounds: &Vec<String>,
        capacities: &Vec<(String, u32)>,
    ) -> (choice: Option<Choice>)
        requires
            old(self).wf(),
        ensures
            final(self).wf(),
            start_settled(old(self)@, *old(state), final(self)@, *final(state), planets@, names(grounds@), capacities@),
            match final(self)@.step {
                StartStep::Conversion => choice matches Some(c) && is_conversion_choice(c, *final(state), planets@, final(self)@.player),
                StartStep::Redeployment => choice matches Some(c) && is_transit_choice(
                    c,
                    *final(state),
                    names(grounds@),
                    final(self)@.player,
                    final(self)@.arrivals,
                    TRANSIT_LIMIT - final(self)@.moved,
                ),
                StartStep::Chaos => choice matches Some(c) && is_chaos_choice(c, *final(state), capacities@, final(self)@.player),
                StartStep::Done => choice is None,
            },
    {
        self.settle(state, planets, grounds, capacities);
        match self.step {
            StartStep::Conversion => conversion_choice(state, planets, self.player.as_str()),
            StartStep::Redeployment => transit_choice(state, grounds, self.player.as_str(), &self.arrivals, TRANSIT_LIMIT - self.moved),
            StartStep::Chaos => chaos_choice(state, capacities, self.player.as_str()),
            StartStep::Done => None,
        }
    }

    /// Take the answer to the question the window asks next. A Chaos Mapping answer hands back
    /// the system in which the player produces one unit.
    #[verifier::rlimit(40)]
    pub fn take_choice(
        &mut self,
        state: &mut GameState,
        planets: &Vec<PlanetRecord>,
        grounds: &Vec<String>,
        capacities: &Vec<(String, u32)>,
        answer: ChoiceOption,
    ) -> (result: Result<Option<String>, IllegalChoice>)
        requires
            old(self).wf(),
            seat_of(old(state).players@, old(self)@.player) >= 0 ==> old(state).players@[seat_of(old(state).players@, old(self)@.player)].trade_goods < i32::MAX,
        ensures
            final(self).wf(),
            exists|w: StartView, s: GameState| #[trigger] start_settled(old(self)@, *old(state), w, s, planets@, names(grounds@), capacities@)
                && start_answered(w, s, final(self)@, *final(state), planets@, names(grounds@), capacities@, answer@, result),
    {
        let ghost s0 = *state;
        self.settle(state, planets, grounds, capacities);
        let ghost w1 = self@;
        let ghost s1 = *state;
        proof {
            assert forall|j: int| 0 <= j < s0.players@.len() implies (#[trigger] s0.players@[j]).id@ == s1.players@[j].id@ by {}
            lemma_seat_of_same_ids(s0.players@, s1.players@, w1.player);
        }
        match self.step {
            StartStep::Conversion => {
                let r = convert(state, planets, self.player.as_str(), answer);
                let ghost rr = r;
                assert(converted(s1, *state, planets@, w1.player, answer@, rr));
                match r {
                    Err(e) => Err(e),
                    Ok(true) => Ok(None),
                    Ok(false) => {
                        self.step = StartStep::Redeployment;
                        Ok(None)
                    },
                }
            },
            StartStep::Redeployment => {
                let r = transit_answer(state, grounds, self.player.as_str(), &self.arrivals, answer);
                let ghost mid = *state;
                let ghost rr = r;
                assert(transit_answered(s1, mid, names(grounds@), w1.player, w1.arrivals, answer@, rr));
                match r {
                    Err(e) => Err(e),
                    Ok(Some(m)) => {
                        let ghost was = pair_names(self.arrivals@);
                        self.arrivals.push((m.destination_system.clone(), m.planet.clone()));
                        assert(pair_names(self.arrivals@) =~= was.push((m@.destination_system, m@.planet)));
                        self.moved = self.moved + 1;
                        Ok(None)
                    },
                    Ok(None) => {
                        close_with(state, self.player.as_str(), "td", self.moved > 0);
                        self.step = StartStep::Chaos;
                        Ok(None)
                    },
                }
            },
            StartStep::Chaos => {
                let r = chaos_answer(state, capacities, self.player.as_str(), answer);
                if r.is_ok() {
                    self.step = StartStep::Done;
                }
                r
            },
            StartStep::Done => Err(IllegalChoice { player: self.player.clone(), answered: answer.id }),
        }
    }
}

/// Predictive Intelligence only moves tokens between pools: an answered redistribution keeps
/// the number of tokens on the sheet.
pub proof fn redistribution_keeps_the_sheet(before: GameState, after: GameState, player: Seq<char>, answer: OptionView, result: Result<bool, IllegalChoice>)
    requires
        redistributed(before, after, player, answer, result),
        pools_have_room(before, player),
        seat_of(before.players@, player) >= 0,
    ensures
        after.players@.len() == before.players@.len(),
        sheet_tokens(after.players@[seat_of(before.players@, player)]) == sheet_tokens(before.players@[seat_of(before.players@, player)]),
{
    let i = seat_of(before.players@, player);
    crate::state::lemma_seat_of(before.players@, player);
    if redistribution_open(before, player) {
        let seat = before.players@[i];
        let views = redistribution_views(seat);
        let pairs = redistribution_pairs(seat);
        if !none_answered(views, answer) {
            let k = choose|k: int| #[trigger] first_answered(views, k, answer) && if k == pairs.len() {
                result == Ok::<bool, IllegalChoice>(false) && after == before
            } else {
                &&& result == Ok::<bool, IllegalChoice>(true)
                &&& after.players@ == before.players@.update(i, moved_token(before.players@[i], pairs[k].0, pairs[k].1))
                &&& after == (GameState { players: after.players, ..before })
            };
            if k != pairs.len() {
                let p = pairs[k];
                assert(0 <= k < pairs.len());
                assert(p.0 != p.1 && 0 <= p.0 < 3 && 0 <= p.1 < 3 && pool_held(seat, p.0) > 0) by {
                    let a = pairs_from(seat, 0);
                    let b = pairs_from(seat, 1);
                    let c = pairs_from(seat, 2);
                    if k < a.len() {
                        assert(pairs[k] == a[k]);
                    } else if k < a.len() + b.len() {
                        assert(pairs[k] == b[k - a.len()]);
                    } else {
                        assert(pairs[k] == c[k - a.len() - b.len()]);
                    }
                }
            }
        }
    }
}

/// Bio-Stims is spent by what it readies: after it readies a planet or a technology, it is
/// exhausted itself.
pub proof fn bio_stims_exhausts_itself(
    before: GameState,
    after: GameState,
    planets: Seq<PlanetRecord>,
    tech_names: Seq<(String, String)>,
    player: Seq<char>,
    answer: OptionView,
)
    requires
        stimmed(before, after, planets, tech_names, player, answer, Ok(true)),
    ensures
        seat_of(before.players@, player) >= 0,
        names(after.players@[seat_of(before.players@, player)].exhausted_technologies@).contains("bs"@),
{
    let i = seat_of(before.players@, player);
    let seat = before.players@[i];
    let ps = stims_planets(before, planets, player);
    let ts = stims_techs(seat);
    let views = stims_views(before, planets, tech_names, player);
    let k = choose|k: int| #[trigger] first_answered(views, k, answer) && if k == ps.len() + ts.len() {
        Ok::<bool, IllegalChoice>(true) == Ok::<bool, IllegalChoice>(false) && after == before
    } else if k < ps.len() {
        &&& Ok::<bool, IllegalChoice>(true) == Ok::<bool, IllegalChoice>(true)
        &&& names(after.exhausted_planets@) == without_first(names(before.exhausted_planets@), ps[k])
        &&& after.players@ == before.players@.update(i, Seat { exhausted_technologies: after.players@[i].exhausted_technologies, ..seat })
        &&& names(after.players@[i].exhausted_technologies@) == with_name(names(seat.exhausted_technologies@), "bs"@)
        &&& after == (GameState { players: after.players, exhausted_planets: after.exhausted_planets, ..before })
    } else {
        &&& Ok::<bool, IllegalChoice>(true) == Ok::<bool, IllegalChoice>(true)
        &&& after.players@ == before.players@.update(i, Seat { exhausted_technologies: after.players@[i].exhausted_technologies, ..seat })
        &&& names(after.players@[i].exhausted_technologies@) == with_name(
            without_first(names(seat.exhausted_technologies@), ts[k - ps.len()]),
            "bs"@,
        )
        &&& after == (GameState { players: after.players, ..before })
    };
    let list = names(after.players@[i].exhausted_technologies@);
    if k < ps.len() {
        let was = names(seat.exhausted_technologies@);
        if !was.contains("bs"@) {
            assert(list[list.len() - 1] == "bs"@);
        }
    } else {
        let was = without_first(names(seat.exhausted_technologies@), ts[k - ps.len()]);
        if !was.contains("bs"@) {
            assert(list[list.len() - 1] == "bs"@);
        }
    }
}

proof fn lemma_specialty_planets_ready(state: GameState, planets: Seq<PlanetRecord>, held: Seq<(Seq<char>, Seq<char>)>)
    ensures
        forall|x: Seq<char>| #[trigger] specialty_planets(state, planets, held, false).contains(x) ==> !names(state.exhausted_planets@).contains(x),
    decreases held.len(),
{
    if held.len() > 0 {
        lemma_specialty_planets_ready(state, planets, held.drop_last());
        let rest = specialty_planets(state, planets, held.drop_last(), false);
        assert forall|x: Seq<char>| #[trigger] specialty_planets(state, planets, held, false).contains(x) implies !names(
            state.exhausted_planets@,
        ).contains(x) by {
            let all = specialty_planets(state, planets, held, false);
            let j = choose|j: int| 0 <= j < all.len() && all[j] == x;
            if j < rest.len() {
                assert(rest[j] == x);
                assert(rest.contains(x));
            }
        }
    }
}

proof fn lemma_specialty_planets_same(a: GameState, b: GameState, planets: Seq<PlanetRecord>, held: Seq<(Seq<char>, Seq<char>)>)
    requires
        a.exhausted_planets@ == b.exhausted_planets@,
    ensures
        specialty_planets(a, planets, held, false) == specialty_planets(b, planets, held, false),
    decreases held.len(),
{
    if held.len() > 0 {
        lemma_specialty_planets_same(a, b, planets, held.drop_last());
    }
}

/// Psychoarchaeology converts a planet once: the planet it exhausts is not offered again.
pub proof fn a_converted_planet_is_not_offered_again(
    before: GameState,
    after: GameState,
    planets: Seq<PlanetRecord>,
    player: Seq<char>,
    answer: OptionView,
)
    requires
        converted(before, after, planets, player, answer, Ok(true)),
    ensures
        convertible(before, planets, player).contains(answer.id),
        !convertible(after, planets, player).contains(answer.id),
        names(after.exhausted_planets@).contains(answer.id),
{
    let i = seat_of(before.players@, player);
    let ready = convertible(before, planets, player);
    let views = ready.map_values(|p: Seq<char>| convert_view(p)).push(decline_view());
    let k = choose|k: int| #[trigger] first_answered(views, k, answer) && if k == ready.len() {
        Ok::<bool, IllegalChoice>(true) == Ok::<bool, IllegalChoice>(false) && after == before
    } else {
        &&& Ok::<bool, IllegalChoice>(true) == Ok::<bool, IllegalChoice>(true)
        &&& names(after.exhausted_planets@) == names(before.exhausted_planets@).push(ready[k])
        &&& after.players@ == before.players@.update(i, Seat { trade_goods: (before.players@[i].trade_goods + 1) as i32, ..before.players@[i] })
        &&& after == (GameState { players: after.players, exhausted_planets: after.exhausted_planets, ..before })
    };
    assert(views[k] == convert_view(ready[k]));
    assert(ready[k] == answer.id);
    let exhausted = names(after.exhausted_planets@);
    assert(exhausted[exhausted.len() - 1] == answer.id);
    assert(after.board == before.board);
    lemma_specialty_planets_ready(after, planets, controlled(after.board@, player));
}

/// Every redeployment Transit Diodes offers leaves the space area, or a planet that has not
/// received a redeployed unit in this window.
pub proof fn arrivals_stay_put(state: GameState, grounds: Seq<Seq<char>>, player: Seq<char>, arrivals: Seq<(Seq<char>, Seq<char>)>, k: int)
    requires
        0 <= k < transit_moves(state, grounds, player, arrivals).len(),
    ensures
        ({
            let m = transit_moves(state, grounds, player, arrivals)[k];
            m.source == "space"@ || !arrivals.contains((m.source_system, m.source))
        }),
{
    let raw = board_moves(state.board@, grounds, player, controlled(state.board@, player), arrivals);
    lemma_distinct_from(raw);
    let m = transit_moves(state, grounds, player, arrivals)[k];
    assert(transit_moves(state, grounds, player, arrivals).contains(m));
    lemma_board_moves_unbarred(state.board@, grounds, player, controlled(state.board@, player), arrivals);
}

proof fn lemma_distinct_from(moves: Seq<MoveView>)
    ensures
        forall|m: MoveView| #[trigger] distinct_moves(moves).contains(m) ==> moves.contains(m),
    decreases moves.len(),
{
    if moves.len() > 0 {
        lemma_distinct_from(moves.drop_last());
        let kept = distinct_moves(moves.drop_last());
        assert forall|m: MoveView| #[trigger] distinct_moves(moves).contains(m) implies moves.contains(m) by {
            if kept.contains(m) {
                let j = choose|j: int| 0 <= j < moves.drop_last().len() && moves.drop_last()[j] == m;
                assert(moves[j] == m);
            } else {
                assert(m == moves.last());
                assert(moves[moves.len() - 1] == m);
            }
        }
    }
}

/// Whether a move leaves the space area or a planet without an arrival.
pub open spec fn unbarred(m: MoveView, arrivals: Seq<(Seq<char>, Seq<char>)>) -> bool {
    m.source == "space"@ || !arrivals.contains((m.source_system, m.source))
}

proof fn lemma_dest_moves_from(system: Seq<char>, source: Seq<char>, unit: Seq<char>, dests: Seq<(Seq<char>, Seq<char>)>)
    ensures
        forall|m: MoveView| #[trigger] dest_moves(system, source, unit, dests).contains(m) ==> m.source_system == system && m.source == source,
    decreases dests.len(),
{
    if dests.len() > 0 {
        lemma_dest_moves_from(system, source, unit, dests.drop_last());
        let rest = dest_moves(system, source, unit, dests.drop_last());
        assert forall|m: MoveView| #[trigger] dest_moves(system, source, unit, dests).contains(m) implies m.source_system == system
            && m.source == source by {
            let all = dest_moves(system, source, unit, dests);
            let j = choose|j: int| 0 <= j < all.len() && all[j] == m;
            if j < rest.len() {
                assert(rest[j] == m);
                assert(rest.contains(m));
            }
        }
    }
}

proof fn lemma_list_moves_from(system: Seq<char>, source: Seq<char>, units: Seq<Unit>, grounds: Seq<Seq<char>>, player: Seq<char>, dests: Seq<(Seq<char>, Seq<char>)>)
    ensures
        forall|m: MoveView| #[trigger] list_moves(system, source, units, grounds, player, dests).contains(m) ==> m.source_system == system
            && m.source == source,
    decreases units.len(),
{
    if units.len() > 0 {
        lemma_list_moves_from(system, source, units.drop_last(), grounds, player, dests);
        lemma_dest_moves_from(system, source, units.last().type_id@, dests);
        let a = list_moves(system, source, units.drop_last(), grounds, player, dests);
        let b = if own_ground_force(grounds, player, units.last()) {
            dest_moves(system, source, units.last().type_id@, dests)
        } else {
            Seq::empty()
        };
        assert forall|m: MoveView| #[trigger] list_moves(system, source, units, grounds, player, dests).contains(m) implies m.source_system
            == system && m.source == source by {
            let all = a + b;
            let j = choose|j: int| 0 <= j < all.len() && all[j] == m;
            if j < a.len() {
                assert(a[j] == m);
                assert(a.contains(m));
            } else {
                assert(b[j - a.len()] == m);
                assert(b.contains(m));
            }
        }
    }
}

proof fn lemma_planet_moves_unbarred(
    system: Seq<char>,
    entries: Seq<(String, Vec<Unit>)>,
    grounds: Seq<Seq<char>>,
    player: Seq<char>,
    dests: Seq<(Seq<char>, Seq<char>)>,
    arrivals: Seq<(Seq<char>, Seq<char>)>,
)
    ensures
        forall|m: MoveView| #[trigger] planet_moves(system, entries, grounds, player, dests, arrivals).contains(m) ==> unbarred(m, arrivals),
    decreases entries.len(),
{
    if entries.len() > 0 {
        lemma_planet_moves_unbarred(system, entries.drop_last(), grounds, player, dests, arrivals);
        let e = entries.last();
        lemma_list_moves_from(system, e.0@, e.1@, grounds, player, dests);
        let a = planet_moves(system, entries.drop_last(), grounds, player, dests, arrivals);
        let b = if arrivals.contains((system, e.0@)) {
            Seq::empty()
        } else {
            list_moves(system, e.0@, e.1@, grounds, player, dests)
        };
        assert forall|m: MoveView| #[trigger] planet_moves(system, entries, grounds, player, dests, arrivals).contains(m) implies unbarred(
            m,
            arrivals,
        ) by {
            let all = a + b;
            let j = choose|j: int| 0 <= j < all.len() && all[j] == m;
            if j < a.len() {
                assert(a[j] == m);
                assert(a.contains(m));
            } else {
                assert(b[j - a.len()] == m);
                assert(b.contains(m));
            }
        }
    }
}

proof fn lemma_board_moves_unbarred(
    board: Seq<SystemState>,
    grounds: Seq<Seq<char>>,
    player: Seq<char>,
    dests: Seq<(Seq<char>, Seq<char>)>,
    arrivals: Seq<(Seq<char>, Seq<char>)>,
)
    ensures
        forall|m: MoveView| #[trigger] board_moves(board, grounds, player, dests, arrivals).contains(m) ==> unbarred(m, arrivals),
    decreases board.len(),
{
    if board.len() > 0 {
        lemma_board_moves_unbarred(board.drop_last(), grounds, player, dests, arrivals);
        let sys = board.last();
        lemma_list_moves_from(sys.id@, "space"@, sys.units@, grounds, player, dests);
        lemma_planet_moves_unbarred(sys.id@, sys.planet_units@, grounds, player, dests, arrivals);
        let a = board_moves(board.drop_last(), grounds, player, dests, arrivals);
        let b = list_moves(sys.id@, "space"@, sys.units@, grounds, player, dests);
        let c = planet_moves(sys.id@, sys.planet_units@, grounds, player, dests, arrivals);
        assert forall|m: MoveView| #[trigger] board_moves(board, grounds, player, dests, arrivals).contains(m) implies unbarred(m, arrivals) by {
            let all = a + b + c;
            let j = choose|j: int| 0 <= j < all.len() && all[j] == m;
            if j < a.len() {
                assert(a[j] == m);
                assert(a.contains(m));
            } else if j < a.len() + b.len() {
                assert(b[j - a.len()] == m);
                assert(b.contains(m));
            } else {
                assert(c[j - a.len() - b.len()] == m);
                assert(c.contains(m));
            }
        }
    }
}

} // verus!
