//! The tactical action: activation (LRR 89.1) and the movement step's choice.
//!
//! Which ships can reach the active system is the movement rules' question; this module offers
//! the systems a player may activate, activates one, and turns the ships that can move into a
//! choice and an answer back into a move.

use vstd::prelude::*;
use crate::choice::{
    first_named, offered, validate, Choice, ChoiceOption, IllegalChoice, OptionView, DECLINE_KIND,
};
use crate::state::{find_seat, names, seat_of, GameState, Seat, SystemState, Unit};
use crate::text::{find_char, find_from, parse_usize_range, spec_parse_usize, str_eq};
use crate::transit::{find_system, system_index};

verus! {

/// The choice kind for activating a system.
pub const ACTIVATE_KIND: &'static str = "activate";
/// The choice kind for moving one ship into the active system.
pub const MOVE_KIND: &'static str = "move";
/// The id of the option that ends the movement step.
pub const DONE_MOVING_ID: &'static str = "done_moving";

/// A tactical action could not be taken.
#[derive(Debug)]
pub enum TacticalError {
    NoTacticToken(String),
    AlreadyActivated(String, String),
    UnknownSystem(String),
    NoActiveSystem,
    IllegalChoice(IllegalChoice),
}

/// Whether the player holds a command token in the board's system with this id.
pub open spec fn holds_token(state: GameState, player: Seq<char>, system: Seq<char>) -> bool {
    let k = system_index(state.board@, system);
    k >= 0 && names(state.board@[k].command_tokens@).contains(player)
}

fn contains_text(list: &Vec<String>, name: &str) -> (found: bool)
    ensures
        found == names(list@).contains(name@),
{
    let mut k: usize = 0;
    while k < list.len()
        invariant
            k <= list@.len(),
            forall|j: int| 0 <= j < k ==> list@[j]@ != name@,
        decreases list@.len() - k,
    {
        if str_eq(list[k].as_str(), name) {
            assert(names(list@)[k as int] == name@);
            return true;
        }
        k = k + 1;
    }
    proof {
        if names(list@).contains(name@) {
            let j = choose|j: int| 0 <= j < names(list@).len() && names(list@)[j] == name@;
            assert(list@[j]@ == name@);
        }
    }
    false
}

fn token_in(state: &GameState, player: &str, system: &str) -> (held: bool)
    ensures
        held == holds_token(*state, player@, system@),
{
    match find_system(&state.board, system) {
        Some(k) => contains_text(&state.board[k].command_tokens, player),
        None => false,
    }
}

/// The systems a player may activate, in the galaxy's order: any without their own command
/// token (89.1, 89.1b). Another player's token is no obstacle.
pub open spec fn spec_activatable(state: GameState, systems: Seq<Seq<char>>, player: Seq<char>) -> Seq<Seq<char>>
    decreases systems.len(),
{
    if systems.len() == 0 {
        Seq::empty()
    } else {
        let rest = spec_activatable(state, systems.drop_last(), player);
        if holds_token(state, player, systems.last()) { rest } else { rest.push(systems.last()) }
    }
}

/// The systems a player may activate, from the galaxy's systems in order.
pub fn activatable(state: &GameState, systems: &Vec<String>, player: &str) -> (found: Vec<String>)
    ensures
        names(found@) == spec_activatable(*state, names(systems@), player@),
{
    let mut found: Vec<String> = Vec::new();
    let mut k: usize = 0;
    assert(names(found@) =~= Seq::<Seq<char>>::empty());
    while k < systems.len()
        invariant
            k <= systems@.len(),
            names(found@) == spec_activatable(*state, names(systems@.subrange(0, k as int)), player@),
        decreases systems@.len() - k,
    {
        let system = systems[k].as_str();
        proof {
            assert(names(systems@.subrange(0, k + 1)).drop_last() =~= names(systems@.subrange(0, k as int)));
            assert(names(systems@.subrange(0, k + 1)).last() == system@);
        }
        if !token_in(state, player, system) {
            let ghost before = names(found@);
            found.push(system.to_string());
            assert(names(found@) =~= before.push(system@));
        }
        k = k + 1;
    }
    assert(systems@.subrange(0, systems@.len() as int) =~= systems@);
    found
}

/// The activation options: one per activatable system.
pub open spec fn activation_views(systems: Seq<Seq<char>>) -> Seq<OptionView>
    decreases systems.len(),
{
    if systems.len() == 0 {
        Seq::empty()
    } else {
        let s = systems.last();
        activation_views(systems.drop_last()).push(OptionView { id: s, kind: ACTIVATE_KIND@, label: "activate "@ + s })
    }
}

/// Whether a player has a tactic token to spend.
pub open spec fn has_tactic_token(state: GameState, player: Seq<char>) -> bool {
    let i = seat_of(state.players@, player);
    i >= 0 && state.players@[i].tactic_tokens > 0
}

/// The activation choice, or `None` when the player cannot take a tactical action: 89.1 needs
/// a tactic token to spend, so a player with none is not offered the action at all.
pub fn activation_options(state: &GameState, systems: &Vec<String>, player: &str) -> (choice: Option<Choice>)
    ensures
        match choice {
            None => !has_tactic_token(*state, player@) || spec_activatable(*state, names(systems@), player@).len() == 0,
            Some(c) => {
                &&& has_tactic_token(*state, player@)
                &&& c.player@ == player@
                &&& c.prompt@ == "activate a system"@
                &&& c.options@.map_values(|o: ChoiceOption| o@) == activation_views(spec_activatable(*state, names(systems@), player@))
                &&& c.options@.len() > 0
            },
        },
{
    match find_seat(&state.players, player) {
        Some(i) => {
            if state.players[i].tactic_tokens <= 0 {
                return None;
            }
        },
        None => return None,
    }
    let open = activatable(state, systems, player);
    if open.len() == 0 {
        return None;
    }
    let mut options: Vec<ChoiceOption> = Vec::new();
    let mut k: usize = 0;
    assert(options@.map_values(|o: ChoiceOption| o@) =~= Seq::<OptionView>::empty());
    while k < open.len()
        invariant
            k <= open@.len(),
            options@.map_values(|o: ChoiceOption| o@) == activation_views(names(open@.subrange(0, k as int))),
        decreases open@.len() - k,
    {
        let system = open[k].as_str();
        proof {
            assert(names(open@.subrange(0, k + 1)).drop_last() =~= names(open@.subrange(0, k as int)));
            assert(names(open@.subrange(0, k + 1)).last() == system@);
        }
        let label = "activate ".to_string().concat(system);
        let option = ChoiceOption::labelled(system, ACTIVATE_KIND, label.as_str());
        let ghost before = options@.map_values(|o: ChoiceOption| o@);
        options.push(option);
        assert(options@.map_values(|o: ChoiceOption| o@) =~= before.push(option@));
        k = k + 1;
    }
    assert(open@.subrange(0, open@.len() as int) =~= open@);
    Some(Choice::new(player, "activate a system", options))
}

/// 89.1: spend a tactic token, place it in the system, and make the system active; the step
/// moves on to movement and the activation count goes up by one (saturating). Refused, changing
/// nothing, when the player already holds a token there (89.1b) or has no tactic token.
pub fn activate(state: &mut GameState, player: &str, system: &str) -> (outcome: Result<(), TacticalError>)
    ensures
        match outcome {
            Err(TacticalError::AlreadyActivated(p, s)) => {
                &&& holds_token(*old(state), player@, system@)
                &&& p@ == player@ && s@ == system@
                &&& *final(state) == *old(state)
            },
            Err(TacticalError::NoTacticToken(p)) => {
                &&& !holds_token(*old(state), player@, system@)
                &&& !has_tactic_token(*old(state), player@)
                &&& p@ == player@
                &&& *final(state) == *old(state)
            },
            Err(_) => false,
            Ok(()) => {
                let i = seat_of(old(state).players@, player@);
                let k = system_index(old(state).board@, system@);
                &&& !holds_token(*old(state), player@, system@)
                &&& has_tactic_token(*old(state), player@)
                &&& final(state).players@ == old(state).players@.update(
                    i,
                    Seat { tactic_tokens: (old(state).players@[i].tactic_tokens - 1) as i32, ..old(state).players@[i] },
                )
                &&& holds_token(*final(state), player@, system@)
                &&& (k >= 0 ==> final(state).board@ == old(state).board@.update(
                    k,
                    SystemState {
                        command_tokens: final(state).board@[k].command_tokens,
                        ..old(state).board@[k]
                    },
                ) && names(final(state).board@[k].command_tokens@) == names(old(state).board@[k].command_tokens@).push(player@))
                &&& (k < 0 ==> final(state).board@.drop_last() == old(state).board@ && final(state).board@.last().id@ == system@
                    && final(state).board@.last().units@.len() == 0 && final(state).board@.last().planet_units@.len() == 0
                    && final(state).board@.last().planet_control@.len() == 0
                    && names(final(state).board@.last().command_tokens@) == seq![player@])
                &&& final(state).active_system matches Some(a) && a@ == system@
                &&& final(state).pending matches Some(p) && p@ == "move"@
                &&& final(state).activation_seq == if old(state).activation_seq == u64::MAX {
                    u64::MAX
                } else {
                    (old(state).activation_seq + 1) as u64
                }
                &&& final(state).seating_order == old(state).seating_order
                &&& final(state).transactions_this_round == old(state).transactions_this_round
                &&& final(state).transacted_this_turn == old(state).transacted_this_turn
                &&& final(state).black_market == old(state).black_market
            },
        },
{
    if token_in(state, player, system) {
        return Err(TacticalError::AlreadyActivated(player.to_string(), system.to_string()));
    }
    let i = match find_seat(&state.players, player) {
        Some(i) => i,
        None => return Err(TacticalError::NoTacticToken(player.to_string())),
    };
    if state.players[i].tactic_tokens <= 0 {
        return Err(TacticalError::NoTacticToken(player.to_string()));
    }
    let mut seat = state.players.remove(i);
    seat.tactic_tokens = seat.tactic_tokens - 1;
    state.players.insert(i, seat);
    assert(state.players@ =~= old(state).players@.update(
        i as int,
        Seat { tactic_tokens: (old(state).players@[i as int].tactic_tokens - 1) as i32, ..old(state).players@[i as int] },
    ));
    match find_system(&state.board, system) {
        Some(k) => {
            let mut at = state.board.remove(k);
            let ghost tokens = names(at.command_tokens@);
            at.command_tokens.push(player.to_string());
            assert(names(at.command_tokens@) =~= tokens.push(player@));
            state.board.insert(k, at);
            proof {
                assert(state.board@ =~= old(state).board@.update(
                    k as int,
                    SystemState { command_tokens: state.board@[k as int].command_tokens, ..old(state).board@[k as int] },
                ));
                assert(names(state.board@[k as int].command_tokens@).contains(player@)) by {
                    assert(names(state.board@[k as int].command_tokens@).last() == player@);
                }
                lemma_same_ids(old(state).board@, state.board@, system@);
            }
        },
        None => {
            let mut tokens: Vec<String> = Vec::new();
            tokens.push(player.to_string());
            let fresh = SystemState {
                id: system.to_string(),
                units: Vec::new(),
                planet_units: Vec::new(),
                planet_control: Vec::new(),
                command_tokens: tokens,
            };
            state.board.push(fresh);
            proof {
                assert(state.board@.drop_last() =~= old(state).board@);
                assert(names(fresh.command_tokens@) =~= seq![player@]);
                lemma_pushed_system(old(state).board@, fresh, system@);
                assert(names(state.board@.last().command_tokens@)[0] == player@);
            }
        },
    }
    state.active_system = Some(system.to_string());
    state.pending = Some("move".to_string());
    state.activation_seq = if state.activation_seq == u64::MAX { u64::MAX } else { state.activation_seq + 1 };
    Ok(())
}

/// Replacing a system's tokens leaves every system where it was.
proof fn lemma_same_ids(before: Seq<SystemState>, after: Seq<SystemState>, id: Seq<char>)
    requires
        before.len() == after.len(),
        forall|k: int| 0 <= k < before.len() ==> (#[trigger] after[k]).id == before[k].id,
    ensures
        system_index(after, id) == system_index(before, id),
    decreases before.len(),
{
    if before.len() > 0 {
        lemma_same_ids(before.drop_last(), after.drop_last(), id);
    }
}

/// A system added at the end of a board that lacked it is found there.
proof fn lemma_pushed_system(before: Seq<SystemState>, fresh: SystemState, id: Seq<char>)
    requires
        system_index(before, id) == -1,
        fresh.id@ == id,
    ensures
        system_index(before.push(fresh), id) == before.len(),
{
    assert(before.push(fresh).drop_last() =~= before);
}

/// One ship that could legally move into the active system, and where it stands: the index
/// among the player's ships there keeps identical ships apart.
#[derive(Debug, Clone, PartialEq, Eq)]
pub struct Movable {
    pub origin: String,
    pub index: usize,
    pub unit: Unit,
}

/// What tells two moves apart: the hull's type, its damage, and where it stands.
pub open spec fn move_key(m: Movable) -> (Seq<char>, bool, Seq<char>) {
    (m.unit.type_id@, m.unit.sustained_damage, m.origin@)
}

/// Whether an earlier candidate is the same move.
pub open spec fn seen_before(candidates: Seq<Movable>, k: int) -> bool {
    exists|j: int| 0 <= j < k && move_key(#[trigger] candidates[j]) == move_key(candidates[k])
}

/// The option a candidate move is offered as.
pub open spec fn move_view(m: Movable) -> OptionView {
    let damaged = if m.unit.sustained_damage { " (damaged)"@ } else { ""@ };
    OptionView {
        id: "move|"@ + m.origin@ + "|"@ + crate::text::decimal(m.index as int),
        kind: MOVE_KIND@,
        label: "move "@ + m.unit.type_id@ + damaged + " from "@ + m.origin@,
    }
}

/// One option per distinguishable move, in the order first met.
pub open spec fn move_views(candidates: Seq<Movable>, k: int) -> Seq<OptionView>
    decreases k,
{
    if k <= 0 {
        Seq::empty()
    } else {
        let rest = move_views(candidates, k - 1);
        if seen_before(candidates, k - 1) { rest } else { rest.push(move_view(candidates[k - 1])) }
    }
}

/// The movement-step choice: one option per distinguishable move, then "finish movement"
/// (89.2b: the player may move nothing). Three identical cruisers in one system are one move
/// written once, not three; damage stays in the key and the label.
pub fn movement_options(player: &str, movable: &Vec<Movable>) -> (choice: Choice)
    ensures
        choice.player@ == player@,
        choice.prompt@ == "movement"@,
        choice.options@.map_values(|o: ChoiceOption| o@) == move_views(movable@, movable@.len() as int).push(
            OptionView { id: DONE_MOVING_ID@, kind: DECLINE_KIND@, label: "finish movement"@ },
        ),
{
    let mut options: Vec<ChoiceOption> = Vec::new();
    let mut k: usize = 0;
    assert(options@.map_values(|o: ChoiceOption| o@) =~= Seq::<OptionView>::empty());
    while k < movable.len()
        invariant
            k <= movable@.len(),
            options@.map_values(|o: ChoiceOption| o@) == move_views(movable@, k as int),
        decreases movable@.len() - k,
    {
        let candidate = &movable[k];
        let mut seen = false;
        let mut j: usize = 0;
        while j < k
            invariant
                j <= k,
                k < movable@.len(),
                candidate == movable@[k as int],
                seen == exists|w: int| 0 <= w < j && move_key(#[trigger] movable@[w]) == move_key(movable@[k as int]),
            decreases k - j,
        {
            let other = &movable[j];
            if str_eq(other.unit.type_id.as_str(), candidate.unit.type_id.as_str())
                && other.unit.sustained_damage == candidate.unit.sustained_damage
                && str_eq(other.origin.as_str(), candidate.origin.as_str()) {
                seen = true;
            }
            j = j + 1;
        }
        if !seen {
            let index = crate::text::decimal_string_u64(candidate.index as u64);
            let id = "move|".to_string().concat(candidate.origin.as_str()).concat("|").concat(index.as_str());
            let damaged = if candidate.unit.sustained_damage { " (damaged)" } else { "" };
            let label = "move ".to_string().concat(candidate.unit.type_id.as_str()).concat(damaged).concat(" from ").concat(
                candidate.origin.as_str(),
            );
            let option = ChoiceOption::labelled(id.as_str(), MOVE_KIND, label.as_str());
            let ghost before = options@.map_values(|o: ChoiceOption| o@);
            options.push(option);
            assert(options@.map_values(|o: ChoiceOption| o@) =~= before.push(option@));
        }
        k = k + 1;
    }
    let done = ChoiceOption::labelled(DONE_MOVING_ID, DECLINE_KIND, "finish movement");
    let ghost before = options@.map_values(|o: ChoiceOption| o@);
    options.push(done);
    assert(options@.map_values(|o: ChoiceOption| o@) =~= before.push(done@));
    Choice::new(player, "movement", options)
}

/// What a movement-step answer asks for.
#[derive(Debug, Clone, PartialEq, Eq)]
pub enum MoveSelection {
    /// Move this ship, identified by where it stands.
    Ship { origin: String, index: usize },
    /// 89.2b: move nothing further.
    Done,
}

/// How a move id reads: `verb|origin|index`, split at the first two bars, with the index a
/// `usize`; `None` for an id that does not read so.
pub open spec fn spec_move_parts(id: Seq<char>) -> Option<(Seq<char>, int)> {
    let a = find_from(id, '|', 0);
    let b = find_from(id, '|', a + 1);
    if a < id.len() && b < id.len() {
        match spec_parse_usize(id.subrange(b + 1, id.len() as int)) {
            Some(index) => Some((id.subrange(a + 1, b), index)),
            None => None,
        }
    } else {
        None
    }
}

/// Read a movement-step answer, validating it against the offered options first: the decline
/// finishes movement; a move id names its ship; an offered answer that does not read as a move
/// is refused as not offered.
#[verifier::rlimit(40)]
pub fn read_move(choice: &Choice, answer: ChoiceOption) -> (selection: Result<MoveSelection, TacticalError>)
    ensures
        match selection {
            Ok(MoveSelection::Done) => offered(choice.options@, answer@) && choice.options@[first_named(choice.options@, answer@)]@.kind == DECLINE_KIND@,
            Ok(MoveSelection::Ship { origin, index }) => {
                let o = choice.options@[first_named(choice.options@, answer@)];
                &&& offered(choice.options@, answer@)
                &&& o@.kind != DECLINE_KIND@
                &&& spec_move_parts(o@.id) == Some((origin@, index as int))
            },
            Err(TacticalError::IllegalChoice(e)) => e.player@ == choice.player@ && (!offered(choice.options@, answer@) || {
                let o = choice.options@[first_named(choice.options@, answer@)];
                o@.kind != DECLINE_KIND@ && spec_move_parts(o@.id) is None
            }),
            Err(_) => false,
        },
{
    let option = match validate(choice, answer) {
        Ok(option) => option,
        Err(e) => return Err(TacticalError::IllegalChoice(e)),
    };
    let ghost o = choice.options@[first_named(choice.options@, answer@)];
    assert(option@ == o@);
    if option.is_decline() {
        return Ok(MoveSelection::Done);
    }
    let id = option.id.as_str();
    assert(id@ == o@.id);
    let n = id.unicode_len();
    let a = find_char(id, '|', 0);
    if a >= n {
        return Err(TacticalError::IllegalChoice(IllegalChoice { player: choice.player.clone(), answered: option.id.clone() }));
    }
    let b = find_char(id, '|', a + 1);
    if b >= n {
        return Err(TacticalError::IllegalChoice(IllegalChoice { player: choice.player.clone(), answered: option.id.clone() }));
    }
    match parse_usize_range(id, b + 1, n) {
        Some(index) => Ok(MoveSelection::Ship { origin: id.substring_char(a + 1, b).to_string(), index }),
        None => Err(TacticalError::IllegalChoice(IllegalChoice { player: choice.player.clone(), answered: option.id.clone() })),
    }
}

/// Whether candidate `k` has a move of the same kind among the first `n` candidates' options.
pub open spec fn covered(c: Seq<Movable>, n: int, k: int) -> bool {
    exists|j: int| 0 <= j <= k && move_key(c[j]) == move_key(c[k]) && #[trigger] move_views(c, n).contains(move_view(c[j]))
}

proof fn lemma_views_grow(c: Seq<Movable>, n: int, x: OptionView)
    requires
        0 < n <= c.len(),
        move_views(c, n - 1).contains(x),
    ensures
        move_views(c, n).contains(x),
{
    let before = move_views(c, n - 1);
    let now = move_views(c, n);
    if !seen_before(c, n - 1) {
        let i = choose|i: int| 0 <= i < before.len() && before[i] == x;
        assert(now[i] == x);
    }
}

#[verifier::spinoff_prover]
proof fn lemma_views_cover(c: Seq<Movable>, n: int)
    requires
        0 <= n <= c.len(),
    ensures
        forall|k: int| 0 <= k < n ==> #[trigger] covered(c, n, k),
    decreases n,
{
    if n > 0 {
        lemma_views_cover(c, n - 1);
        assert forall|k: int| 0 <= k < n implies #[trigger] covered(c, n, k) by {
            if k < n - 1 {
                assert(covered(c, n - 1, k));
                let j = choose|j: int| 0 <= j <= k && move_key(c[j]) == move_key(c[k]) && #[trigger] move_views(c, n - 1).contains(
                    move_view(c[j]),
                );
                lemma_views_grow(c, n, move_view(c[j]));
                assert(move_views(c, n).contains(move_view(c[j])));
            } else if seen_before(c, n - 1) {
                let w = choose|w: int| 0 <= w < n - 1 && move_key(#[trigger] c[w]) == move_key(c[n - 1]);
                assert(covered(c, n - 1, w));
                let j = choose|j: int| 0 <= j <= w && move_key(c[j]) == move_key(c[w]) && #[trigger] move_views(c, n - 1).contains(
                    move_view(c[j]),
                );
                lemma_views_grow(c, n, move_view(c[j]));
                assert(move_views(c, n).contains(move_view(c[j])));
            } else {
                let now = move_views(c, n);
                assert(now[now.len() - 1] == move_view(c[n - 1]));
                assert(now.contains(move_view(c[n - 1])));
            }
        }
    }
}

/// Every candidate ship can be moved: for each candidate the movement question offers a move
/// of a hull of the same type and damage from the candidate's own system, named by that
/// system and labelled "move <type> from <system>". Ships that stand in different systems are
/// never folded into one option.
pub proof fn every_candidate_has_a_move_from_its_origin(candidates: Seq<Movable>, k: int)
    requires
        0 <= k < candidates.len(),
    ensures
        exists|j: int| #![trigger candidates[j]] 0 <= j <= k && move_views(candidates, candidates.len() as int).contains(
            OptionView {
                id: "move|"@ + candidates[k].origin@ + "|"@ + crate::text::decimal(candidates[j].index as int),
                kind: MOVE_KIND@,
                label: "move "@ + candidates[k].unit.type_id@ + (if candidates[k].unit.sustained_damage {
                    " (damaged)"@
                } else {
                    ""@
                }) + " from "@ + candidates[k].origin@,
            },
        ),
{
    lemma_views_cover(candidates, candidates.len() as int);
    assert(covered(candidates, candidates.len() as int, k));
    let j = choose|j: int| 0 <= j <= k && move_key(candidates[j]) == move_key(candidates[k]) && #[trigger] move_views(
        candidates,
        candidates.len() as int,
    ).contains(move_view(candidates[j]));
    assert(candidates[j] == candidates[j]);
}

/// The positions of the candidates the first `n` options come from, in order.
pub open spec fn move_sources(c: Seq<Movable>, n: int) -> Seq<int>
    decreases n,
{
    if n <= 0 {
        Seq::empty()
    } else if seen_before(c, n - 1) {
        move_sources(c, n - 1)
    } else {
        move_sources(c, n - 1).push(n - 1)
    }
}

proof fn lemma_move_sources(c: Seq<Movable>, n: int)
    requires
        0 <= n <= c.len(),
    ensures
        move_sources(c, n).len() == move_views(c, n).len(),
        forall|i: int| 0 <= i < move_sources(c, n).len() ==> {
            let j = #[trigger] move_sources(c, n)[i];
            &&& 0 <= j < n
            &&& !seen_before(c, j)
            &&& move_views(c, n)[i] == move_view(c[j])
        },
        forall|i1: int, i2: int| 0 <= i1 < i2 < move_sources(c, n).len() ==> #[trigger] move_sources(c, n)[i1] < #[trigger] move_sources(
            c,
            n,
        )[i2],
    decreases n,
{
    if n > 0 {
        lemma_move_sources(c, n - 1);
        let s0 = move_sources(c, n - 1);
        let s1 = move_sources(c, n);
        if !seen_before(c, n - 1) {
            assert forall|i: int| 0 <= i < s1.len() implies {
                let j = #[trigger] s1[i];
                &&& 0 <= j < n
                &&& !seen_before(c, j)
                &&& move_views(c, n)[i] == move_view(c[j])
            } by {
                if i < s0.len() {
                    assert(s1[i] == s0[i]);
                }
            }
            assert forall|i1: int, i2: int| 0 <= i1 < i2 < s1.len() implies #[trigger] s1[i1] < #[trigger] s1[i2] by {
                assert(s1[i1] == s0[i1]);
                if i2 < s0.len() {
                    assert(s1[i2] == s0[i2]);
                }
            }
        }
    }
}

/// No move is offered twice: any two options of the movement question come from ships that
/// differ in hull type, in damage, or in the system they stand in. Three identical cruisers in
/// one system are one option.
pub proof fn no_move_is_offered_twice(c: Seq<Movable>, a: int, b: int)
    requires
        0 <= a < b < move_views(c, c.len() as int).len(),
    ensures
        exists|ja: int, jb: int| #![trigger c[ja], c[jb]] 0 <= ja < c.len() && 0 <= jb < c.len() && move_views(c, c.len() as int)[a]
            == move_view(c[ja]) && move_views(c, c.len() as int)[b] == move_view(c[jb]) && !(c[ja].unit.type_id@
            == c[jb].unit.type_id@ && c[ja].unit.sustained_damage == c[jb].unit.sustained_damage && c[ja].origin@ == c[jb].origin@),
{
    let n = c.len() as int;
    lemma_move_sources(c, n);
    let src = move_sources(c, n);
    let ja = src[a];
    let jb = src[b];
    assert(ja < jb);
    assert(!seen_before(c, jb));
    assert(move_key(c[ja]) != move_key(c[jb]));
    assert(c[ja] == c[ja] && c[jb] == c[jb]);
}

} // verus!
