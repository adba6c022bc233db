//! The choice-free bookkeeping of the status phase (LRR 81).
//!
//! Objective scoring (81.1) needs the scoring predicates and the token gain (81.5) is a choice,
//! so neither is here. [`resolve_before_token_gain`] runs 81.2 to 81.4 and
//! [`resolve_after_token_gain`] runs 81.6 to 81.8, so that a driver that asks questions can put
//! the token gain between them; [`resolve_status_phase`] runs both.

use vstd::prelude::*;
use crate::state::{contains_name, find_seat, names, seat_of, GameState, Phase, Seat, SystemState, Unit};
use crate::tech_windows::pair_names;

verus! {

/// The observable changes made during one status phase.
#[derive(Debug, Clone, PartialEq, Eq)]
pub struct StatusPhaseReport {
    /// Players owed an action card at the end of the phase (Minister of Policy).
    pub action_card_draws: Vec<String>,
    /// The public objective revealed at 81.2.
    pub revealed_objective: Option<String>,
    /// Action cards drawn per player at 81.3, in initiative order.
    pub action_cards_drawn: Vec<(String, usize)>,
    /// Command tokens returned from systems at 81.4, as (system, holder), in board order.
    pub returned_command_tokens: Vec<(String, String)>,
    /// Planets readied at 81.6.
    pub readied_planets: Vec<String>,
    /// Strategy cards returned at 81.8, as (player, card), seat by seat in holding order.
    pub returned_strategy_cards: Vec<(String, String)>,
    /// The initiative order as it stood before 81.8 returned the strategy cards.
    pub initiative_order: Vec<String>,
    /// Damaged space units repaired at 81.7.
    pub repaired_units: usize,
    /// The objective deck was empty, so the game ended before the later steps.
    pub game_ended: bool,
}

/// A status phase was requested outside the status phase.
#[derive(Debug, Clone, PartialEq, Eq)]
pub enum StatusPhaseError {
    WrongPhase(Phase),
}

/// How many action cards a player draws at 81.3: one, and one more with Neural Motivator.
pub open spec fn wanted_cards(state: GameState, player: Seq<char>) -> int {
    let i = seat_of(state.players@, player);
    if i >= 0 && names(state.players@[i].technologies@).contains("nm"@) {
        2
    } else {
        1
    }
}

/// One player's 81.3 draw: as many cards as they want from the top of the deck, while it
/// lasts, into their hand; for a player not at the table the cards leave the deck unclaimed.
pub open spec fn drew_one(before: GameState, after: GameState, player: Seq<char>, count: int) -> bool {
    let deck = before.action_card_deck@;
    let n = if wanted_cards(before, player) <= deck.len() { wanted_cards(before, player) } else { deck.len() as int };
    let i = seat_of(before.players@, player);
    &&& after.action_card_deck@ == deck.skip(n)
    &&& if i >= 0 {
        &&& count == n
        &&& after.players@ == before.players@.update(i, Seat { action_cards: after.players@[i].action_cards, ..before.players@[i] })
        &&& after.players@[i].action_cards@ == before.players@[i].action_cards@ + deck.take(n)
    } else {
        count == 0 && after.players == before.players
    }
    &&& after == (GameState { players: after.players, action_card_deck: after.action_card_deck, ..before })
}

/// Whether the `k`-th draw of a trace of tables is the draw of the `k`-th player in order.
pub open spec fn draw_step(trace: Seq<GameState>, order: Seq<Seq<char>>, counts: Seq<(Seq<char>, int)>, k: int) -> bool {
    counts[k].0 == order[k] && drew_one(trace[k], trace[k + 1], order[k], counts[k].1)
}

/// The 81.3 draws of every player in an order, each recorded with its count: a trace of
/// tables, from the first to the last, one draw apart.
pub open spec fn drew_in_order(trace: Seq<GameState>, order: Seq<Seq<char>>, counts: Seq<(Seq<char>, int)>) -> bool {
    &&& trace.len() == order.len() + 1
    &&& counts.len() == order.len()
    &&& forall|k: int| 0 <= k < order.len() ==> #[trigger] draw_step(trace, order, counts, k)
}

/// Draw counts as values.
pub open spec fn count_views(counts: Seq<(String, usize)>) -> Seq<(Seq<char>, int)> {
    counts.map_values(|c: (String, usize)| (c.0@, c.1 as int))
}

/// The command tokens on the board, as (system, holder), in board order.
pub open spec fn board_tokens_listed(board: Seq<SystemState>) -> Seq<(Seq<char>, Seq<char>)>
    decreases board.len(),
{
    if board.len() == 0 {
        Seq::empty()
    } else {
        board_tokens_listed(board.drop_last()) + board.last().command_tokens@.map_values(|h: String| (board.last().id@, h@))
    }
}

/// The board with every command token taken off it.
pub open spec fn tokens_recalled(before: Seq<SystemState>, after: Seq<SystemState>) -> bool {
    &&& after.len() == before.len()
    &&& forall|j: int| 0 <= j < before.len() ==> {
        &&& (#[trigger] after[j]).command_tokens@.len() == 0
        &&& after[j] == (SystemState { command_tokens: after[j].command_tokens, ..before[j] })
    }
}

/// Steps 81.2 to 81.4 on a table in its status phase: the objective revealed, the action
/// cards drawn in initiative order, and the command tokens recalled.
pub open spec fn before_gain(before: GameState, after: GameState, initiative: Seq<Seq<char>>, report: StatusPhaseReport) -> bool {
    let deck = before.objective_deck@;
    &&& report.action_card_draws@.len() == 0
    &&& report.readied_planets@.len() == 0
    &&& report.returned_strategy_cards@.len() == 0
    &&& report.repaired_units == 0
    &&& if deck.len() == 0 {
        &&& report.game_ended
        &&& report.revealed_objective is None
        &&& report.action_cards_drawn@.len() == 0
        &&& report.returned_command_tokens@.len() == 0
        &&& report.initiative_order@.len() == 0
        &&& after == (GameState { finished: true, ..before })
    } else {
        let revealed = GameState {
            objective_deck: after.objective_deck,
            revealed_objectives: after.revealed_objectives,
            ..before
        };
        &&& !report.game_ended
        &&& report.revealed_objective matches Some(o) && o == deck[0]
        &&& after.objective_deck@ == deck.drop_first()
        &&& after.revealed_objectives@ == before.revealed_objectives@.push(deck[0])
        &&& names(report.initiative_order@) == initiative
        &&& exists|trace: Seq<GameState>| #[trigger] drew_in_order(trace, initiative, count_views(report.action_cards_drawn@)) && {
            let drawn = trace.last();
            &&& trace[0] == revealed
            &&& tokens_recalled(drawn.board@, after.board@)
            &&& pair_names(report.returned_command_tokens@) == board_tokens_listed(drawn.board@)
            &&& after == (GameState { board: after.board, ..drawn })
        }
    }
}

/// An empty report.
fn empty_report() -> (report: StatusPhaseReport)
    ensures
        report.action_card_draws@.len() == 0,
        report.revealed_objective is None,
        report.action_cards_drawn@.len() == 0,
        report.returned_command_tokens@.len() == 0,
        report.readied_planets@.len() == 0,
        report.returned_strategy_cards@.len() == 0,
        report.initiative_order@.len() == 0,
        report.repaired_units == 0,
        !report.game_ended,
{
    StatusPhaseReport {
        action_card_draws: Vec::new(),
        revealed_objective: None,
        action_cards_drawn: Vec::new(),
        returned_command_tokens: Vec::new(),
        readied_planets: Vec::new(),
        returned_strategy_cards: Vec::new(),
        initiative_order: Vec::new(),
        repaired_units: 0,
        game_ended: false,
    }
}

/// Draw one player's 81.3 cards.
fn draw_for(state: &mut GameState, player: &str) -> (count: usize)
    ensures
        drew_one(*old(state), *final(state), player@, count as int),
{
    let ghost before = *state;
    let found = find_seat(&state.players, player);
    let wanted: usize = match found {
        Some(i) => if contains_name(&state.players[i].technologies, "nm") {
            2
        } else {
            1
        },
        None => 1,
    };
    let n = if wanted <= state.action_card_deck.len() { wanted } else { state.action_card_deck.len() };
    let mut taken: Vec<String> = Vec::new();
    let mut k: usize = 0;
    while k < n
        invariant
            k <= n,
            n <= before.action_card_deck@.len(),
            state.action_card_deck@ == before.action_card_deck@.skip(k as int),
            taken@ == before.action_card_deck@.take(k as int),
            *state == (GameState { action_card_deck: state.action_card_deck, ..before }),
        decreases n - k,
    {
        let card = state.action_card_deck.remove(0);
        taken.push(card);
        assert(state.action_card_deck@ =~= before.action_card_deck@.skip(k + 1));
        assert(taken@ =~= before.action_card_deck@.take(k + 1));
        k = k + 1;
    }
    match found {
        Some(i) => {
            let ghost middle = *state;
            let mut seat = state.players.remove(i);
            let ghost hand = seat.action_cards@;
            seat.action_cards.append(&mut taken);
            assert(seat.action_cards@ =~= hand + before.action_card_deck@.take(n as int));
            state.players.insert(i, seat);
            assert(state.players@ =~= before.players@.update(
                i as int,
                Seat { action_cards: state.players@[i as int].action_cards, ..before.players@[i as int] },
            ));
            n
        },
        None => 0,
    }
}

/// Take every command token off the board, listing them.
fn recall_tokens(state: &mut GameState) -> (returned: Vec<(String, String)>)
    ensures
        tokens_recalled(old(state).board@, final(state).board@),
        pair_names(returned@) == board_tokens_listed(old(state).board@),
        *final(state) == (GameState { board: final(state).board, ..*old(state) }),
{
    let ghost before = *state;
    let mut returned: Vec<(String, String)> = Vec::new();
    let mut j: usize = 0;
    while j < state.board.len()
        invariant
            j <= state.board@.len(),
            state.board@.len() == before.board@.len(),
            forall|m: int| 0 <= m < j ==> {
                &&& (#[trigger] state.board@[m]).command_tokens@.len() == 0
                &&& state.board@[m] == (SystemState { command_tokens: state.board@[m].command_tokens, ..before.board@[m] })
            },
            forall|m: int| j <= m < state.board@.len() ==> #[trigger] state.board@[m] == before.board@[m],
            pair_names(returned@) == board_tokens_listed(before.board@.subrange(0, j as int)),
            *state == (GameState { board: state.board, ..before }),
        decreases state.board@.len() - j,
    {
        proof {
            assert(before.board@.subrange(0, j + 1).drop_last() =~= before.board@.subrange(0, j as int));
        }
        let ghost listed = pair_names(returned@);
        let mut system = state.board.remove(j);
        let mut t: usize = 0;
        while t < system.command_tokens.len()
            invariant
                t <= system.command_tokens@.len(),
                system == before.board@[j as int],
                pair_names(returned@) == listed + system.command_tokens@.subrange(0, t as int).map_values(|h: String| (system.id@, h@)),
            decreases system.command_tokens@.len() - t,
        {
            let ghost was = pair_names(returned@);
            returned.push((system.id.clone(), system.command_tokens[t].clone()));
            assert(pair_names(returned@) =~= was.push((system.id@, system.command_tokens@[t as int]@)));
            assert(system.command_tokens@.subrange(0, t + 1).map_values(|h: String| (system.id@, h@)) =~= system.command_tokens@.subrange(
                0,
                t as int,
            ).map_values(|h: String| (system.id@, h@)).push((system.id@, system.command_tokens@[t as int]@)));
            t = t + 1;
        }
        assert(system.command_tokens@.subrange(0, t as int) =~= system.command_tokens@);
        system.command_tokens = Vec::new();
        state.board.insert(j, system);
        j = j + 1;
    }
    assert(before.board@.subrange(0, j as int) =~= before.board@);
    returned
}

/// Steps 81.2 to 81.4: reveal a public objective, draw action cards in initiative order, and
/// recall every command token from the board. An empty objective deck ends the game instead.
/// `initiative` is the table's initiative order. Stops there so that a driver can run the 81.5
/// token gain, a choice, before the rest.
pub fn resolve_before_token_gain(state: &mut GameState, initiative: &Vec<String>) -> (result: Result<StatusPhaseReport, StatusPhaseError>)
    ensures
        match result {
            Err(StatusPhaseError::WrongPhase(phase)) => old(state).phase != Phase::Status && phase == old(state).phase && *final(state)
                == *old(state),
            Ok(report) => old(state).phase == Phase::Status && before_gain(*old(state), *final(state), names(initiative@), report),
        },
{
    if state.phase != Phase::Status {
        return Err(StatusPhaseError::WrongPhase(state.phase));
    }
    let ghost before = *state;
    let mut report = empty_report();
    if state.objective_deck.len() == 0 {
        state.finished = true;
        report.game_ended = true;
        return Ok(report);
    }
    let objective = state.objective_deck.remove(0);
    assert(state.objective_deck@ =~= before.objective_deck@.drop_first());
    state.revealed_objectives.push(objective.clone());
    report.revealed_objective = Some(objective);
    let ghost revealed = *state;
    let ghost mut trace: Seq<GameState> = seq![revealed];
    report.initiative_order = initiative.clone();
    let mut k: usize = 0;
    while k < initiative.len()
        invariant
            k <= initiative@.len(),
            report.initiative_order@ == initiative@,
            report.action_cards_drawn@.len() == k,
            report.action_card_draws@.len() == 0,
            report.readied_planets@.len() == 0,
            report.returned_strategy_cards@.len() == 0,
            report.returned_command_tokens@.len() == 0,
            report.repaired_units == 0,
            !report.game_ended,
            report.revealed_objective matches Some(o) && o == before.objective_deck@[0],
            trace.len() == k + 1,
            trace[0] == revealed,
            trace.last() == *state,
            forall|j: int| 0 <= j < k ==> #[trigger] draw_step(trace, names(initiative@), count_views(report.action_cards_drawn@), j),
        decreases initiative@.len() - k,
    {
        let ghost prior = *state;
        let ghost counts = count_views(report.action_cards_drawn@);
        let player = initiative[k].as_str();
        let count = draw_for(state, player);
        report.action_cards_drawn.push((player.to_string(), count));
        proof {
            let order = names(initiative@);
            let grown = count_views(report.action_cards_drawn@);
            assert(grown =~= counts.push((player@, count as int)));
            let longer = trace.push(*state);
            assert forall|j: int| 0 <= j < k + 1 implies #[trigger] draw_step(longer, order, grown, j) by {
                if j < k {
                    assert(draw_step(trace, order, counts, j));
                    assert(longer[j] == trace[j] && longer[j + 1] == trace[j + 1]);
                } else {
                    assert(longer[j] == prior && longer[j + 1] == *state);
                }
            }
            trace = longer;
        }
        k = k + 1;
    }
    let ghost drawn = *state;
    proof {
        assert(drew_in_order(trace, names(initiative@), count_views(report.action_cards_drawn@)));
        lemma_drawing_keeps_the_board(trace, names(initiative@), count_views(report.action_cards_drawn@), k as int);
    }
    report.returned_command_tokens = recall_tokens(state);
    assert(drew_in_order(trace, names(initiative@), count_views(report.action_cards_drawn@)));
    Ok(report)
}

/// How many space units on the board carry damage.
pub open spec fn damaged_units(board: Seq<SystemState>) -> int
    decreases board.len(),
{
    if board.len() == 0 {
        0
    } else {
        damaged_units(board.drop_last()) + damaged_in(board.last().units@)
    }
}

/// How many units of a list carry damage.
pub open spec fn damaged_in(units: Seq<Unit>) -> int
    decreases units.len(),
{
    if units.len() == 0 {
        0
    } else {
        damaged_in(units.drop_last()) + if units.last().sustained_damage { 1int } else { 0int }
    }
}

/// A seat after 81.6 and 81.8: its technologies and relics readied, its strategy cards
/// returned unless Political Stability keeps them (and then readied), and no longer passed.
pub open spec fn seat_reset(before: Seat, after: Seat) -> bool {
    &&& after.exhausted_technologies@.len() == 0
    &&& after.exhausted_relics@.len() == 0
    &&& after.exhausted_strategy_cards@.len() == 0
    &&& !after.passed
    &&& if before.stability {
        after.strategy_cards == before.strategy_cards
    } else {
        after.strategy_cards@.len() == 0
    }
    &&& after == (Seat {
        exhausted_technologies: after.exhausted_technologies,
        exhausted_relics: after.exhausted_relics,
        exhausted_strategy_cards: after.exhausted_strategy_cards,
        strategy_cards: after.strategy_cards,
        passed: after.passed,
        ..before
    })
}

/// A system after 81.7: its damaged space units repaired.
pub open spec fn system_repaired(before: SystemState, after: SystemState) -> bool {
    &&& after.units@.len() == before.units@.len()
    &&& forall|k: int| 0 <= k < before.units@.len() ==> #[trigger] after.units@[k] == (Unit { sustained_damage: false, ..before.units@[k] })
    &&& after == (SystemState { units: after.units, ..before })
}

/// The strategy cards 81.8 returns, as (player, card), seat by seat.
pub open spec fn returned_cards(players: Seq<Seat>) -> Seq<(Seq<char>, Seq<char>)>
    decreases players.len(),
{
    if players.len() == 0 {
        Seq::empty()
    } else {
        let seat = players.last();
        returned_cards(players.drop_last()) + if seat.stability {
            Seq::empty()
        } else {
            seat.strategy_cards@.map_values(|c: String| (seat.id@, c@))
        }
    }
}

/// The seats, in order, that the Minister of Policy has owed an action card.
pub open spec fn ministers(players: Seq<Seat>, minister: Option<Seq<char>>) -> Seq<Seq<char>>
    decreases players.len(),
{
    if players.len() == 0 {
        Seq::empty()
    } else if minister == Some(players.last().id@) {
        ministers(players.drop_last(), minister).push(players.last().id@)
    } else {
        ministers(players.drop_last(), minister)
    }
}

/// Steps 81.6 to 81.8 on a table, as the report records them.
pub open spec fn after_gain(before: GameState, after: GameState, minister: Option<Seq<char>>, old_report: StatusPhaseReport, report: StatusPhaseReport) -> bool {
    &&& after.players@.len() == before.players@.len()
    &&& forall|j: int| 0 <= j < before.players@.len() ==> seat_reset(before.players@[j], #[trigger] after.players@[j])
    &&& after.board@.len() == before.board@.len()
    &&& forall|j: int| 0 <= j < before.board@.len() ==> system_repaired(before.board@[j], #[trigger] after.board@[j])
    &&& after.exhausted_planets@.len() == 0
    &&& after == (GameState { players: after.players, board: after.board, exhausted_planets: after.exhausted_planets, ..before })
    &&& report.readied_planets@ == before.exhausted_planets@
    &&& report.repaired_units == old_report.repaired_units + damaged_units(before.board@)
    &&& names(report.action_card_draws@) == names(old_report.action_card_draws@) + ministers(before.players@, minister)
    &&& pair_names(report.returned_strategy_cards@) == pair_names(old_report.returned_strategy_cards@) + returned_cards(before.players@)
    &&& report == (StatusPhaseReport {
        readied_planets: report.readied_planets,
        repaired_units: report.repaired_units,
        action_card_draws: report.action_card_draws,
        returned_strategy_cards: report.returned_strategy_cards,
        ..old_report
    })
}

/// List a seat's strategy cards as (player, card).
fn list_cards(seat: &Seat, out: &mut Vec<(String, String)>)
    ensures
        pair_names(final(out)@) == pair_names(old(out)@) + seat.strategy_cards@.map_values(|x: String| (seat.id@, x@)),
{
    let ghost start = pair_names(out@);
    let mut c: usize = 0;
    while c < seat.strategy_cards.len()
        invariant
            c <= seat.strategy_cards@.len(),
            pair_names(out@) == start + seat.strategy_cards@.subrange(0, c as int).map_values(|x: String| (seat.id@, x@)),
        decreases seat.strategy_cards@.len() - c,
    {
        let ghost was = pair_names(out@);
        out.push((seat.id.clone(), seat.strategy_cards[c].clone()));
        assert(pair_names(out@) =~= was.push((seat.id@, seat.strategy_cards@[c as int]@)));
        assert(seat.strategy_cards@.subrange(0, c + 1).map_values(|x: String| (seat.id@, x@)) =~= seat.strategy_cards@.subrange(
            0,
            c as int,
        ).map_values(|x: String| (seat.id@, x@)).push((seat.id@, seat.strategy_cards@[c as int]@)));
        c = c + 1;
    }
    assert(seat.strategy_cards@.subrange(0, c as int) =~= seat.strategy_cards@);
}

fn reset_seat(seat: &mut Seat)
    ensures
        seat_reset(*old(seat), *final(seat)),
{
    seat.exhausted_technologies = Vec::new();
    seat.exhausted_relics = Vec::new();
    seat.exhausted_strategy_cards = Vec::new();
    if !seat.stability {
        seat.strategy_cards = Vec::new();
    }
    seat.passed = false;
}

/// Repair a system's damaged space units, counting them.
fn repair(system: &mut SystemState) -> (count: usize)
    ensures
        system_repaired(*old(system), *final(system)),
        count as int == damaged_in(old(system).units@),
{
    let ghost before = *system;
    let mut count: usize = 0;
    let mut k: usize = 0;
    while k < system.units.len()
        invariant
            k <= system.units@.len(),
            system.units@.len() == before.units@.len(),
            count as int == damaged_in(before.units@.subrange(0, k as int)),
            count <= k,
            forall|m: int| 0 <= m < k ==> #[trigger] system.units@[m] == (Unit { sustained_damage: false, ..before.units@[m] }),
            forall|m: int| k <= m < system.units@.len() ==> #[trigger] system.units@[m] == before.units@[m],
            *system == (SystemState { units: system.units, ..before }),
        decreases system.units@.len() - k,
    {
        proof {
            assert(before.units@.subrange(0, k + 1).drop_last() =~= before.units@.subrange(0, k as int));
        }
        if system.units[k].sustained_damage {
            let mut unit = system.units.remove(k);
            unit.sustained_damage = false;
            system.units.insert(k, unit);
            count = count + 1;
        }
        k = k + 1;
    }
    assert(before.units@.subrange(0, k as int) =~= before.units@);
    count
}

/// Steps 81.6 to 81.8: ready exhausted technologies, relics and planets, repair damaged
/// space units, note the Minister of Policy's draw, and return the strategy cards, which a seat
/// under Political Stability keeps and readies instead; every seat is unpassed. `minister` is
/// the owner of Minister of Policy, if anyone. Extends `report`, so one report describes one
/// status phase however it was driven.
pub fn resolve_after_token_gain(state: &mut GameState, report: &mut StatusPhaseReport, minister: Option<&str>)
    requires
        old(report).repaired_units + damaged_units(old(state).board@) <= usize::MAX,
    ensures
        after_gain(*old(state), *final(state), match minister { Some(m) => Some(m@), None => None }, *old(report), *final(report)),
{
    let ghost before = *state;
    let ghost old_report = *report;
    let ghost owner: Option<Seq<char>> = match minister { Some(m) => Some(m@), None => None };
    // 81.6 and 81.8, seat by seat, with the Minister of Policy's draw noted on the way.
    let mut j: usize = 0;
    while j < state.players.len()
        invariant
            j <= state.players@.len(),
            state.players@.len() == before.players@.len(),
            forall|m: int| 0 <= m < j ==> seat_reset(before.players@[m], #[trigger] state.players@[m]),
            forall|m: int| j <= m < state.players@.len() ==> #[trigger] state.players@[m] == before.players@[m],
            *state == (GameState { players: state.players, ..before }),
            owner == (match minister { Some(m) => Some(m@), None => None::<Seq<char>> }),
            names(report.action_card_draws@) == names(old_report.action_card_draws@) + ministers(before.players@.subrange(0, j as int), owner),
            pair_names(report.returned_strategy_cards@) == pair_names(old_report.returned_strategy_cards@) + returned_cards(
                before.players@.subrange(0, j as int),
            ),
            *report == (StatusPhaseReport {
                action_card_draws: report.action_card_draws,
                returned_strategy_cards: report.returned_strategy_cards,
                ..old_report
            }),
        decreases state.players@.len() - j,
    {
        proof {
            assert(before.players@.subrange(0, j + 1).drop_last() =~= before.players@.subrange(0, j as int));
        }
        let ghost draws = names(report.action_card_draws@);
        let is_minister = match minister {
            Some(m) => str_eq_owner(state.players[j].id.as_str(), m),
            None => false,
        };
        if is_minister {
            report.action_card_draws.push(state.players[j].id.clone());
            assert(names(report.action_card_draws@) =~= draws.push(before.players@[j as int].id@));
        }
        let mut seat = state.players.remove(j);
        if !seat.stability {
            list_cards(&seat, &mut report.returned_strategy_cards);
        }
        reset_seat(&mut seat);
        state.players.insert(j, seat);
        j = j + 1;
    }
    assert(before.players@.subrange(0, j as int) =~= before.players@);
    let ghost seated = *state;
    // 81.6: planets.
    let mut readied: Vec<String> = Vec::new();
    std::mem::swap(&mut readied, &mut state.exhausted_planets);
    report.readied_planets = readied;
    let ghost rep1 = *report;
    // 81.7: repairs.
    let mut b: usize = 0;
    while b < state.board.len()
        invariant
            b <= state.board@.len(),
            state.board@.len() == before.board@.len(),
            forall|m: int| 0 <= m < b ==> system_repaired(before.board@[m], #[trigger] state.board@[m]),
            forall|m: int| b <= m < state.board@.len() ==> #[trigger] state.board@[m] == before.board@[m],
            state.players == seated.players,
            state.exhausted_planets@.len() == 0,
            *state == (GameState { board: state.board, exhausted_planets: state.exhausted_planets, ..seated }),
            report.repaired_units == old_report.repaired_units + damaged_units(before.board@.subrange(0, b as int)),
            old_report.repaired_units + damaged_units(before.board@) <= usize::MAX,
            report.readied_planets@ == before.exhausted_planets@,
            *report == (StatusPhaseReport { repaired_units: report.repaired_units, ..rep1 }),
        decreases state.board@.len() - b,
    {
        proof {
            assert(before.board@.subrange(0, b + 1).drop_last() =~= before.board@.subrange(0, b as int));
            lemma_damaged_prefix(before.board@, b + 1);
        }
        let mut system = state.board.remove(b);
        let repaired = repair(&mut system);
        state.board.insert(b, system);
        report.repaired_units = report.repaired_units + repaired;
        b = b + 1;
    }
    assert(before.board@.subrange(0, b as int) =~= before.board@);
}

proof fn lemma_damaged_in_nonneg(units: Seq<Unit>)
    ensures
        damaged_in(units) >= 0,
    decreases units.len(),
{
    if units.len() > 0 {
        lemma_damaged_in_nonneg(units.drop_last());
    }
}

proof fn lemma_damaged_prefix(board: Seq<SystemState>, n: int)
    requires
        0 <= n <= board.len(),
    ensures
        damaged_units(board.subrange(0, n)) <= damaged_units(board),
        damaged_units(board.subrange(0, n)) >= 0,
    decreases board.len() - n,
{
    lemma_damaged_nonneg(board.subrange(0, n));
    if n < board.len() {
        lemma_damaged_prefix(board, n + 1);
        assert(board.subrange(0, n + 1).drop_last() =~= board.subrange(0, n));
        lemma_damaged_in_nonneg(board[n].units@);
    } else {
        assert(board.subrange(0, n) =~= board);
        lemma_damaged_nonneg(board);
    }
}

proof fn lemma_damaged_nonneg(board: Seq<SystemState>)
    ensures
        damaged_units(board) >= 0,
    decreases board.len(),
{
    if board.len() > 0 {
        lemma_damaged_nonneg(board.drop_last());
        lemma_damaged_in_nonneg(board.last().units@);
    }
}

fn str_eq_owner(id: &str, owner: &str) -> (same: bool)
    ensures
        same == (id@ == owner@),
{
    crate::text::str_eq(id, owner)
}

/// The choice-free status phase: 81.2 to 81.4, then, unless the game ended, 81.6 to 81.8.
pub open spec fn status_resolved(before: GameState, after: GameState, initiative: Seq<Seq<char>>, minister: Option<Seq<char>>, report: StatusPhaseReport) -> bool {
    exists|mid: GameState, first: StatusPhaseReport| #[trigger] before_gain(before, mid, initiative, first) && if first.game_ended {
        report == first && after == mid
    } else {
        after_gain(mid, after, minister, first, report)
    }
}

/// The two halves of the status phase compose into the whole: what comes before the token
/// gain, followed (unless the game ended) by what comes after it, is the status phase.
pub proof fn the_halves_make_the_status_phase(
    before: GameState,
    mid: GameState,
    after: GameState,
    initiative: Seq<Seq<char>>,
    minister: Option<Seq<char>>,
    first: StatusPhaseReport,
    report: StatusPhaseReport,
)
    requires
        before_gain(before, mid, initiative, first),
        first.game_ended ==> report == first && after == mid,
        !first.game_ended ==> after_gain(mid, after, minister, first, report),
    ensures
        status_resolved(before, after, initiative, minister, report),
{
}

/// A status phase that runs to its end leaves nothing exhausted and no command token on the
/// board: every planet, technology, relic and strategy card is ready, and every token is
/// recalled.
pub proof fn status_clears_the_table(before: GameState, after: GameState, initiative: Seq<Seq<char>>, minister: Option<Seq<char>>, report: StatusPhaseReport)
    requires
        status_resolved(before, after, initiative, minister, report),
        !report.game_ended,
    ensures
        after.exhausted_planets@.len() == 0,
        forall|j: int| 0 <= j < after.players@.len() ==> {
            &&& (#[trigger] after.players@[j]).exhausted_technologies@.len() == 0
            &&& after.players@[j].exhausted_relics@.len() == 0
            &&& after.players@[j].exhausted_strategy_cards@.len() == 0
            &&& !after.players@[j].passed
        },
        forall|j: int| 0 <= j < after.board@.len() ==> (#[trigger] after.board@[j]).command_tokens@.len() == 0,
{
    let (mid, first) = choose|mid: GameState, first: StatusPhaseReport| #[trigger] before_gain(before, mid, initiative, first) && if first.game_ended {
        report == first && after == mid
    } else {
        after_gain(mid, after, minister, first, report)
    };
    assert(!first.game_ended);
    let trace = choose|trace: Seq<GameState>| #[trigger] drew_in_order(trace, initiative, count_views(first.action_cards_drawn@)) && {
        let drawn = trace.last();
        &&& trace[0] == GameState { objective_deck: mid.objective_deck, revealed_objectives: mid.revealed_objectives, ..before }
        &&& tokens_recalled(drawn.board@, mid.board@)
        &&& pair_names(first.returned_command_tokens@) == board_tokens_listed(drawn.board@)
        &&& mid == (GameState { board: mid.board, ..drawn })
    };
    assert forall|j: int| 0 <= j < after.players@.len() implies {
        &&& (#[trigger] after.players@[j]).exhausted_technologies@.len() == 0
        &&& after.players@[j].exhausted_relics@.len() == 0
        &&& after.players@[j].exhausted_strategy_cards@.len() == 0
        &&& !after.players@[j].passed
    } by {
        assert(seat_reset(mid.players@[j], after.players@[j]));
    }
    assert forall|j: int| 0 <= j < after.board@.len() implies (#[trigger] after.board@[j]).command_tokens@.len() == 0 by {
        assert(system_repaired(mid.board@[j], after.board@[j]));
        assert(mid.board@[j].command_tokens@.len() == 0);
    }
}

/// Every choice-free part of the status phase, in order: 81.2 to 81.4, then, unless the game
/// ended, 81.6 to 81.8. The 81.5 token gain is skipped; a driver that asks questions runs the
/// two halves around it instead.
pub fn resolve_status_phase(state: &mut GameState, initiative: &Vec<String>, minister: Option<&str>) -> (result: Result<StatusPhaseReport, StatusPhaseError>)
    requires
        damaged_units(old(state).board@) <= usize::MAX,
    ensures
        match result {
            Err(StatusPhaseError::WrongPhase(phase)) => old(state).phase != Phase::Status && phase == old(state).phase && *final(state)
                == *old(state),
            Ok(report) => old(state).phase == Phase::Status && status_resolved(
                *old(state),
                *final(state),
                names(initiative@),
                match minister { Some(m) => Some(m@), None => None },
                report,
            ),
        },
{
    let ghost start = *state;
    let mut report = match resolve_before_token_gain(state, initiative) {
        Ok(r) => r,
        Err(e) => return Err(e),
    };
    let ghost mid = *state;
    let ghost first = report;
    if !report.game_ended {
        proof {
            lemma_recall_keeps_damage(start, mid, names(initiative@), first);
        }
        resolve_after_token_gain(state, &mut report, minister);
    }
    assert(before_gain(start, mid, names(initiative@), first));
    assert(status_resolved(start, *state, names(initiative@), match minister { Some(m) => Some(m@), None => None }, report));
    Ok(report)
}

proof fn lemma_damaged_same_units(a: Seq<SystemState>, b: Seq<SystemState>)
    requires
        a.len() == b.len(),
        forall|j: int| 0 <= j < a.len() ==> (#[trigger] a[j]).units == b[j].units,
    ensures
        damaged_units(a) == damaged_units(b),
    decreases a.len(),
{
    if a.len() > 0 {
        lemma_damaged_same_units(a.drop_last(), b.drop_last());
        assert(a.last().units == b.last().units);
    }
}

proof fn lemma_drawing_keeps_the_board(trace: Seq<GameState>, order: Seq<Seq<char>>, counts: Seq<(Seq<char>, int)>, k: int)
    requires
        drew_in_order(trace, order, counts),
        0 <= k <= order.len(),
    ensures
        trace[k].board == trace[0].board,
        trace[k].objective_deck == trace[0].objective_deck,
        trace[k].revealed_objectives == trace[0].revealed_objectives,
        trace[k].phase == trace[0].phase,
        trace[k].exhausted_planets == trace[0].exhausted_planets,
    decreases k,
{
    if k > 0 {
        lemma_drawing_keeps_the_board(trace, order, counts, k - 1);
        assert(draw_step(trace, order, counts, k - 1));
    }
}

proof fn lemma_recall_keeps_damage(start: GameState, mid: GameState, initiative: Seq<Seq<char>>, first: StatusPhaseReport)
    requires
        before_gain(start, mid, initiative, first),
        !first.game_ended,
    ensures
        damaged_units(mid.board@) == damaged_units(start.board@),
        first.repaired_units == 0,
{
    let deck = start.objective_deck@;
    let revealed = GameState { objective_deck: mid.objective_deck, revealed_objectives: mid.revealed_objectives, ..start };
    let trace = choose|trace: Seq<GameState>| #[trigger] drew_in_order(trace, initiative, count_views(first.action_cards_drawn@)) && {
        let drawn = trace.last();
        &&& trace[0] == revealed
        &&& tokens_recalled(drawn.board@, mid.board@)
        &&& pair_names(first.returned_command_tokens@) == board_tokens_listed(drawn.board@)
        &&& mid == (GameState { board: mid.board, ..drawn })
    };
    let drawn = trace.last();
    lemma_drawing_keeps_the_board(trace, initiative, count_views(first.action_cards_drawn@), initiative.len() as int);
    assert forall|j: int| 0 <= j < mid.board@.len() implies (#[trigger] mid.board@[j]).units == drawn.board@[j].units by {
        assert(mid.board@[j] == (SystemState { command_tokens: mid.board@[j].command_tokens, ..drawn.board@[j] }));
    }
    lemma_damaged_same_units(mid.board@, drawn.board@);
}

} // verus!
