//! Component limitations (LRR 31.4): you cannot field more plastic than you own.
//!
//! Fighters and infantry are not capped, and that is a rule rather than an omission: the box ships
//! cardboard tokens for both so they are never limited by plastic. Counts are per player and keyed
//! by base type, so an upgraded carrier and a carrier are the same four pieces of plastic.
//! Removing one of your own from the board to place it elsewhere is a choice for the production
//! step; [`remaining`] answers only how many may still be placed.

use vstd::prelude::*;
use crate::state::{GameState, Seat, SystemState, Unit};
use crate::text::str_eq;

verus! {

/// What `remaining` answers for anything the box does not cap.
pub const UNCAPPED: i64 = 99;

/// Plastic per player, fourth edition plus Prophecy of Kings, keyed by base type.
pub open spec fn spec_plastic(base_type: Seq<char>) -> Option<int> {
    if base_type == "flagship"@ {
        Some(1)
    } else if base_type == "warsun"@ {
        Some(2)
    } else if base_type == "dreadnought"@ {
        Some(5)
    } else if base_type == "cruiser"@ || base_type == "destroyer"@ {
        Some(8)
    } else if base_type == "carrier"@ || base_type == "mech"@ {
        Some(4)
    } else if base_type == "pds"@ {
        Some(6)
    } else if base_type == "spacedock"@ {
        Some(3)
    } else {
        None
    }
}

/// Plastic per player, fourth edition plus Prophecy of Kings, keyed by base type.
pub fn plastic(base_type: &str) -> (count: Option<i64>)
    ensures
        match count {
            Some(n) => spec_plastic(base_type@) == Some(n as int),
            None => spec_plastic(base_type@) is None,
        },
{
    if str_eq(base_type, "flagship") {
        Some(1)
    } else if str_eq(base_type, "warsun") {
        Some(2)
    } else if str_eq(base_type, "dreadnought") {
        Some(5)
    } else if str_eq(base_type, "cruiser") || str_eq(base_type, "destroyer") {
        Some(8)
    } else if str_eq(base_type, "carrier") || str_eq(base_type, "mech") {
        Some(4)
    } else if str_eq(base_type, "pds") {
        Some(6)
    } else if str_eq(base_type, "spacedock") {
        Some(3)
    } else {
        None
    }
}

/// The base type the unit catalogue records for a unit id (its first entry), or the id itself
/// when the catalogue does not list it.
pub open spec fn spec_base_type(catalogue: Seq<(String, String)>, unit: Seq<char>) -> Seq<char>
    decreases catalogue.len(),
{
    if catalogue.len() == 0 {
        unit
    } else if catalogue[0].0@ == unit {
        catalogue[0].1@
    } else {
        spec_base_type(catalogue.drop_first(), unit)
    }
}

/// The plastic a unit id corresponds to, read from the unit catalogue as (unit id, base type)
/// rather than from the id: upgraded and faction ids do not decompose reliably.
pub fn base_type_of(catalogue: &Vec<(String, String)>, unit: &str) -> (base: String)
    ensures
        base@ == spec_base_type(catalogue@, unit@),
{
    let mut k: usize = 0;
    assert(catalogue@.subrange(0, catalogue@.len() as int) =~= catalogue@);
    while k < catalogue.len()
        invariant
            k <= catalogue@.len(),
            spec_base_type(catalogue@, unit@) == spec_base_type(catalogue@.subrange(k as int, catalogue@.len() as int), unit@),
        decreases catalogue@.len() - k,
    {
        let ghost rest = catalogue@.subrange(k as int, catalogue@.len() as int);
        assert(rest.drop_first() =~= catalogue@.subrange(k + 1, catalogue@.len() as int));
        if str_eq(catalogue[k].0.as_str(), unit) {
            return catalogue[k].1.clone();
        }
        k = k + 1;
    }
    unit.to_string()
}

/// Whether a unit is one of the player's, of the given plastic.
pub open spec fn counts(catalogue: Seq<(String, String)>, unit: Unit, player: Seq<char>, base: Seq<char>) -> bool {
    unit.owner@ == player && spec_base_type(catalogue, unit.type_id@) == base
}

/// How many of a list of units are the player's, of the given plastic.
pub open spec fn count_units(units: Seq<Unit>, catalogue: Seq<(String, String)>, player: Seq<char>, base: Seq<char>) -> int
    decreases units.len(),
{
    if units.len() == 0 {
        0
    } else {
        count_units(units.drop_last(), catalogue, player, base) + if counts(catalogue, units.last(), player, base) {
            1int
        } else {
            0int
        }
    }
}

/// The same, over the units on each planet of a system.
pub open spec fn count_planets(planets: Seq<(String, Vec<Unit>)>, catalogue: Seq<(String, String)>, player: Seq<char>, base: Seq<char>) -> int
    decreases planets.len(),
{
    if planets.len() == 0 {
        0
    } else {
        count_planets(planets.drop_last(), catalogue, player, base) + count_units(planets.last().1@, catalogue, player, base)
    }
}

/// The same, over every system of the board, space and planets.
pub open spec fn count_board(board: Seq<SystemState>, catalogue: Seq<(String, String)>, player: Seq<char>, base: Seq<char>) -> int
    decreases board.len(),
{
    if board.len() == 0 {
        0
    } else {
        let system = board.last();
        count_board(board.drop_last(), catalogue, player, base) + count_units(system.units@, catalogue, player, base)
            + count_planets(system.planet_units@, catalogue, player, base)
    }
}

/// How many of a captor's captured units are the player's, of the given plastic.
pub open spec fn count_captured_by(captured: Seq<(String, String)>, catalogue: Seq<(String, String)>, player: Seq<char>, base: Seq<char>) -> int
    decreases captured.len(),
{
    if captured.len() == 0 {
        0
    } else {
        let (owner, unit) = captured.last();
        count_captured_by(captured.drop_last(), catalogue, player, base) + if owner@ == player && spec_base_type(
            catalogue,
            unit@,
        ) == base {
            1int
        } else {
            0int
        }
    }
}

/// The same, over every seat's captives.
pub open spec fn count_captured(players: Seq<Seat>, catalogue: Seq<(String, String)>, player: Seq<char>, base: Seq<char>) -> int
    decreases players.len(),
{
    if players.len() == 0 {
        0
    } else {
        count_captured(players.drop_last(), catalogue, player, base) + count_captured_by(
            players.last().captured_units@,
            catalogue,
            player,
            base,
        )
    }
}

/// How many of this plastic the player has out of the box: on the board, in space or on a
/// planet, and held captive by anyone.
pub open spec fn spec_held(state: GameState, catalogue: Seq<(String, String)>, player: Seq<char>, base: Seq<char>) -> int {
    count_board(state.board@, catalogue, player, base) + count_captured(state.players@, catalogue, player, base)
}

proof fn lemma_count_units_bounds(units: Seq<Unit>, catalogue: Seq<(String, String)>, player: Seq<char>, base: Seq<char>)
    ensures
        0 <= count_units(units, catalogue, player, base) <= units.len(),
    decreases units.len(),
{
    if units.len() > 0 {
        lemma_count_units_bounds(units.drop_last(), catalogue, player, base);
    }
}

proof fn lemma_count_planets_nonneg(planets: Seq<(String, Vec<Unit>)>, catalogue: Seq<(String, String)>, player: Seq<char>, base: Seq<char>)
    ensures
        0 <= count_planets(planets, catalogue, player, base),
    decreases planets.len(),
{
    if planets.len() > 0 {
        lemma_count_planets_nonneg(planets.drop_last(), catalogue, player, base);
        lemma_count_units_bounds(planets.last().1@, catalogue, player, base);
    }
}

proof fn lemma_count_board_grows(board: Seq<SystemState>, k: int, catalogue: Seq<(String, String)>, player: Seq<char>, base: Seq<char>)
    requires
        0 <= k <= board.len(),
    ensures
        0 <= count_board(board.subrange(0, k), catalogue, player, base) <= count_board(board, catalogue, player, base),
    decreases board.len() - k,
{
    if k < board.len() {
        lemma_count_board_grows(board, k + 1, catalogue, player, base);
        let next = board.subrange(0, k + 1);
        assert(next.drop_last() =~= board.subrange(0, k));
        lemma_count_units_bounds(next.last().units@, catalogue, player, base);
        lemma_count_planets_nonneg(next.last().planet_units@, catalogue, player, base);
        lemma_count_board_nonneg(board.subrange(0, k), catalogue, player, base);
    } else {
        assert(board.subrange(0, k) =~= board);
        lemma_count_board_nonneg(board, catalogue, player, base);
    }
}

proof fn lemma_count_board_nonneg(board: Seq<SystemState>, catalogue: Seq<(String, String)>, player: Seq<char>, base: Seq<char>)
    ensures
        0 <= count_board(board, catalogue, player, base),
    decreases board.len(),
{
    if board.len() > 0 {
        lemma_count_board_nonneg(board.drop_last(), catalogue, player, base);
        lemma_count_units_bounds(board.last().units@, catalogue, player, base);
        lemma_count_planets_nonneg(board.last().planet_units@, catalogue, player, base);
    }
}

proof fn lemma_count_captured_by_nonneg(captured: Seq<(String, String)>, catalogue: Seq<(String, String)>, player: Seq<char>, base: Seq<char>)
    ensures
        0 <= count_captured_by(captured, catalogue, player, base),
    decreases captured.len(),
{
    if captured.len() > 0 {
        lemma_count_captured_by_nonneg(captured.drop_last(), catalogue, player, base);
    }
}

proof fn lemma_count_captured_grows(players: Seq<Seat>, k: int, catalogue: Seq<(String, String)>, player: Seq<char>, base: Seq<char>)
    requires
        0 <= k <= players.len(),
    ensures
        0 <= count_captured(players.subrange(0, k), catalogue, player, base) <= count_captured(players, catalogue, player, base),
    decreases players.len() - k,
{
    if k < players.len() {
        lemma_count_captured_grows(players, k + 1, catalogue, player, base);
        let next = players.subrange(0, k + 1);
        assert(next.drop_last() =~= players.subrange(0, k));
        lemma_count_captured_by_nonneg(next.last().captured_units@, catalogue, player, base);
        lemma_count_captured_nonneg(players.subrange(0, k), catalogue, player, base);
    } else {
        assert(players.subrange(0, k) =~= players);
        lemma_count_captured_nonneg(players, catalogue, player, base);
    }
}

proof fn lemma_count_captured_nonneg(players: Seq<Seat>, catalogue: Seq<(String, String)>, player: Seq<char>, base: Seq<char>)
    ensures
        0 <= count_captured(players, catalogue, player, base),
    decreases players.len(),
{
    if players.len() > 0 {
        lemma_count_captured_nonneg(players.drop_last(), catalogue, player, base);
        lemma_count_captured_by_nonneg(players.last().captured_units@, catalogue, player, base);
    }
}

fn units_held(units: &Vec<Unit>, catalogue: &Vec<(String, String)>, player: &str, base: &str) -> (n: u64)
    ensures
        n == count_units(units@, catalogue@, player@, base@),
{
    let mut n: u64 = 0;
    let mut k: usize = 0;
    while k < units.len()
        invariant
            k <= units@.len(),
            n == count_units(units@.subrange(0, k as int), catalogue@, player@, base@),
            n <= k,
        decreases units@.len() - k,
    {
        proof {
            assert(units@.subrange(0, k + 1).drop_last() =~= units@.subrange(0, k as int));
        }
        let unit = &units[k];
        if str_eq(unit.owner.as_str(), player) {
            let kind = base_type_of(catalogue, unit.type_id.as_str());
            if str_eq(kind.as_str(), base) {
                n = n + 1;
            }
        }
        k = k + 1;
    }
    assert(units@.subrange(0, units@.len() as int) =~= units@);
    n
}

fn planets_held(planets: &Vec<(String, Vec<Unit>)>, catalogue: &Vec<(String, String)>, player: &str, base: &str) -> (n: u64)
    requires
        count_planets(planets@, catalogue@, player@, base@) <= i64::MAX,
    ensures
        n == count_planets(planets@, catalogue@, player@, base@),
{
    let mut n: u64 = 0;
    let mut k: usize = 0;
    while k < planets.len()
        invariant
            k <= planets@.len(),
            count_planets(planets@, catalogue@, player@, base@) <= i64::MAX,
            n == count_planets(planets@.subrange(0, k as int), catalogue@, player@, base@),
        decreases planets@.len() - k,
    {
        proof {
            assert(planets@.subrange(0, k + 1).drop_last() =~= planets@.subrange(0, k as int));
            lemma_count_planets_grows(planets@, k + 1, catalogue@, player@, base@);
        }
        let more = units_held(&planets[k].1, catalogue, player, base);
        n = n + more;
        k = k + 1;
    }
    assert(planets@.subrange(0, planets@.len() as int) =~= planets@);
    n
}

proof fn lemma_count_planets_grows(planets: Seq<(String, Vec<Unit>)>, k: int, catalogue: Seq<(String, String)>, player: Seq<char>, base: Seq<char>)
    requires
        0 <= k <= planets.len(),
    ensures
        0 <= count_planets(planets.subrange(0, k), catalogue, player, base) <= count_planets(planets, catalogue, player, base),
    decreases planets.len() - k,
{
    if k < planets.len() {
        lemma_count_planets_grows(planets, k + 1, catalogue, player, base);
        let next = planets.subrange(0, k + 1);
        assert(next.drop_last() =~= planets.subrange(0, k));
        lemma_count_units_bounds(next.last().1@, catalogue, player, base);
        lemma_count_planets_nonneg(planets.subrange(0, k), catalogue, player, base);
    } else {
        assert(planets.subrange(0, k) =~= planets);
        lemma_count_planets_nonneg(planets, catalogue, player, base);
    }
}

fn captured_held(captured: &Vec<(String, String)>, catalogue: &Vec<(String, String)>, player: &str, base: &str) -> (n: u64)
    ensures
        n == count_captured_by(captured@, catalogue@, player@, base@),
        n <= captured@.len(),
{
    let mut n: u64 = 0;
    let mut k: usize = 0;
    while k < captured.len()
        invariant
            k <= captured@.len(),
            n == count_captured_by(captured@.subrange(0, k as int), catalogue@, player@, base@),
            n <= k,
        decreases captured@.len() - k,
    {
        proof {
            assert(captured@.subrange(0, k + 1).drop_last() =~= captured@.subrange(0, k as int));
        }
        if str_eq(captured[k].0.as_str(), player) {
            let kind = base_type_of(catalogue, captured[k].1.as_str());
            if str_eq(kind.as_str(), base) {
                n = n + 1;
            }
        }
        k = k + 1;
    }
    assert(captured@.subrange(0, captured@.len() as int) =~= captured@);
    n
}

/// How many of this plastic the player has out of the box.
pub fn held(state: &GameState, catalogue: &Vec<(String, String)>, player: &str, base_type: &str) -> (total: i64)
    requires
        spec_held(*state, catalogue@, player@, base_type@) <= i64::MAX,
    ensures
        total == spec_held(*state, catalogue@, player@, base_type@),
{
    proof {
        lemma_count_board_nonneg(state.board@, catalogue@, player@, base_type@);
        lemma_count_captured_nonneg(state.players@, catalogue@, player@, base_type@);
    }
    let mut total: u64 = 0;
    let mut k: usize = 0;
    while k < state.board.len()
        invariant
            k <= state.board@.len(),
            spec_held(*state, catalogue@, player@, base_type@) <= i64::MAX,
            0 <= count_captured(state.players@, catalogue@, player@, base_type@),
            total == count_board(state.board@.subrange(0, k as int), catalogue@, player@, base_type@),
        decreases state.board@.len() - k,
    {
        let system = &state.board[k];
        proof {
            assert(state.board@.subrange(0, k + 1).drop_last() =~= state.board@.subrange(0, k as int));
            lemma_count_board_grows(state.board@, k + 1, catalogue@, player@, base_type@);
            lemma_count_units_bounds(system.units@, catalogue@, player@, base_type@);
            lemma_count_planets_nonneg(system.planet_units@, catalogue@, player@, base_type@);
        }
        let in_space = units_held(&system.units, catalogue, player, base_type);
        let on_planets = planets_held(&system.planet_units, catalogue, player, base_type);
        total = total + in_space + on_planets;
        k = k + 1;
    }
    assert(state.board@.subrange(0, state.board@.len() as int) =~= state.board@);
    let mut c: usize = 0;
    while c < state.players.len()
        invariant
            c <= state.players@.len(),
            spec_held(*state, catalogue@, player@, base_type@) <= i64::MAX,
            total == count_board(state.board@, catalogue@, player@, base_type@) + count_captured(
                state.players@.subrange(0, c as int),
                catalogue@,
                player@,
                base_type@,
            ),
        decreases state.players@.len() - c,
    {
        proof {
            assert(state.players@.subrange(0, c + 1).drop_last() =~= state.players@.subrange(0, c as int));
            lemma_count_captured_grows(state.players@, c + 1, catalogue@, player@, base_type@);
            lemma_count_board_nonneg(state.board@, catalogue@, player@, base_type@);
        }
        let more = captured_held(&state.players[c].captured_units, catalogue, player, base_type);
        total = total + more;
        c = c + 1;
    }
    assert(state.players@.subrange(0, state.players@.len() as int) =~= state.players@);
    total as i64
}

/// How many more of this unit may be placed before the box is empty: the cap less what is out,
/// never below zero, or [`UNCAPPED`] for anything the box does not cap.
pub open spec fn spec_remaining(state: GameState, catalogue: Seq<(String, String)>, player: Seq<char>, unit: Seq<char>) -> int {
    let base = spec_base_type(catalogue, unit);
    match spec_plastic(base) {
        None => UNCAPPED as int,
        Some(limit) => {
            let left = limit - spec_held(state, catalogue, player, base);
            if left > 0 { left } else { 0 }
        },
    }
}

/// How many more of this unit may be placed before the box is empty.
pub fn remaining(state: &GameState, catalogue: &Vec<(String, String)>, player: &str, unit: &str) -> (left: i64)
    requires
        spec_held(*state, catalogue@, player@, spec_base_type(catalogue@, unit@)) <= i64::MAX,
    ensures
        left == spec_remaining(*state, catalogue@, player@, unit@),
{
    let base = base_type_of(catalogue, unit);
    let limit = match plastic(base.as_str()) {
        Some(limit) => limit,
        None => return UNCAPPED,
    };
    proof {
        lemma_count_board_nonneg(state.board@, catalogue@, player@, base@);
        lemma_count_captured_nonneg(state.players@, catalogue@, player@, base@);
    }
    let out = held(state, catalogue, player, base.as_str());
    let left = limit - out;
    if left > 0 { left } else { 0 }
}

/// How many of `wanted` may actually be placed, given what is left in the box; anything uncapped
/// passes through as wanted, up to the uncapped figure.
pub fn allowed(state: &GameState, catalogue: &Vec<(String, String)>, player: &str, unit: &str, wanted: usize) -> (n: usize)
    requires
        spec_held(*state, catalogue@, player@, spec_base_type(catalogue@, unit@)) <= i64::MAX,
    ensures
        n as int == if spec_remaining(*state, catalogue@, player@, unit@) < wanted {
            spec_remaining(*state, catalogue@, player@, unit@)
        } else {
            wanted as int
        },
{
    let left = remaining(state, catalogue, player, unit);
    let left = left as u64;
    if (left as u128) < (wanted as u128) {
        left as usize
    } else {
        wanted
    }
}

/// The test of being one of the player's pieces of a plastic: owned by the player and of a
/// type whose plastic is `base`, whatever its damage or other state.
pub open spec fn piece_of(catalogue: Seq<(String, String)>, player: Seq<char>, base: Seq<char>) -> spec_fn(Unit) -> bool {
    |u: Unit| u.owner@ == player && spec_base_type(catalogue, u.type_id@) == base
}

/// The same test for a captive, recorded as (owner, unit type).
pub open spec fn captive_of(catalogue: Seq<(String, String)>, player: Seq<char>, base: Seq<char>) -> spec_fn((String, String)) -> bool {
    |c: (String, String)| c.0@ == player && spec_base_type(catalogue, c.1@) == base
}

/// Every unit on a system's planets, planet by planet.
pub open spec fn planet_units_flat(planets: Seq<(String, Vec<Unit>)>) -> Seq<Unit>
    decreases planets.len(),
{
    if planets.len() == 0 {
        Seq::empty()
    } else {
        planet_units_flat(planets.drop_last()) + planets.last().1@
    }
}

/// Every unit on the board, system by system, in space and on planets.
pub open spec fn board_units(board: Seq<SystemState>) -> Seq<Unit>
    decreases board.len(),
{
    if board.len() == 0 {
        Seq::empty()
    } else {
        board_units(board.drop_last()) + board.last().units@ + planet_units_flat(board.last().planet_units@)
    }
}

/// Every captive held by any seat.
pub open spec fn all_captives(players: Seq<Seat>) -> Seq<(String, String)>
    decreases players.len(),
{
    if players.len() == 0 {
        Seq::empty()
    } else {
        all_captives(players.drop_last()) + players.last().captured_units@
    }
}

/// Each of a list's units that is the player's and of the plastic is counted, once, whatever
/// its damage or other state: the count is the number of such units in the list.
pub proof fn every_unit_of_the_plastic_counts_once(units: Seq<Unit>, catalogue: Seq<(String, String)>, player: Seq<char>, base: Seq<char>)
    ensures
        count_units(units, catalogue, player, base) == units.filter(piece_of(catalogue, player, base)).len(),
    decreases units.len(),
{
    reveal_with_fuel(Seq::<Unit>::filter, 1);
    if units.len() > 0 {
        every_unit_of_the_plastic_counts_once(units.drop_last(), catalogue, player, base);
    }
}

proof fn lemma_planets_flat(planets: Seq<(String, Vec<Unit>)>, catalogue: Seq<(String, String)>, player: Seq<char>, base: Seq<char>)
    ensures
        count_planets(planets, catalogue, player, base) == planet_units_flat(planets).filter(piece_of(catalogue, player, base)).len(),
    decreases planets.len(),
{
    broadcast use Seq::filter_distributes_over_add;
    reveal_with_fuel(Seq::<Unit>::filter, 1);
    if planets.len() > 0 {
        lemma_planets_flat(planets.drop_last(), catalogue, player, base);
        every_unit_of_the_plastic_counts_once(planets.last().1@, catalogue, player, base);
    }
}

proof fn lemma_board_flat(board: Seq<SystemState>, catalogue: Seq<(String, String)>, player: Seq<char>, base: Seq<char>)
    ensures
        count_board(board, catalogue, player, base) == board_units(board).filter(piece_of(catalogue, player, base)).len(),
    decreases board.len(),
{
    broadcast use Seq::filter_distributes_over_add;
    reveal_with_fuel(Seq::<Unit>::filter, 1);
    if board.len() > 0 {
        lemma_board_flat(board.drop_last(), catalogue, player, base);
        every_unit_of_the_plastic_counts_once(board.last().units@, catalogue, player, base);
        lemma_planets_flat(board.last().planet_units@, catalogue, player, base);
    }
}

proof fn lemma_captured_by_flat(captured: Seq<(String, String)>, catalogue: Seq<(String, String)>, player: Seq<char>, base: Seq<char>)
    ensures
        count_captured_by(captured, catalogue, player, base) == captured.filter(captive_of(catalogue, player, base)).len(),
    decreases captured.len(),
{
    reveal_with_fuel(Seq::<(String, String)>::filter, 1);
    if captured.len() > 0 {
        lemma_captured_by_flat(captured.drop_last(), catalogue, player, base);
    }
}

proof fn lemma_captured_flat(players: Seq<Seat>, catalogue: Seq<(String, String)>, player: Seq<char>, base: Seq<char>)
    ensures
        count_captured(players, catalogue, player, base) == all_captives(players).filter(captive_of(catalogue, player, base)).len(),
    decreases players.len(),
{
    broadcast use Seq::filter_distributes_over_add;
    reveal_with_fuel(Seq::<(String, String)>::filter, 1);
    if players.len() > 0 {
        lemma_captured_flat(players.drop_last(), catalogue, player, base);
        lemma_captured_by_flat(players.last().captured_units@, catalogue, player, base);
    }
}

/// What is out of the box is every one of the player's pieces of the plastic, each counted
/// once: all of them on the board, in space and on every planet, whatever their damage, plus
/// every captive of theirs held by any seat.
pub proof fn held_counts_every_piece_out_of_the_box(state: GameState, catalogue: Seq<(String, String)>, player: Seq<char>, base: Seq<char>)
    ensures
        spec_held(state, catalogue, player, base) == board_units(state.board@).filter(piece_of(catalogue, player, base)).len()
            + all_captives(state.players@).filter(captive_of(catalogue, player, base)).len(),
{
    lemma_board_flat(state.board@, catalogue, player, base);
    lemma_captured_flat(state.players@, catalogue, player, base);
}

/// Two lists of units with the same owners and types, unit by unit, whatever their damage.
pub open spec fn same_plastic_units(a: Seq<Unit>, b: Seq<Unit>) -> bool {
    &&& a.len() == b.len()
    &&& forall|k: int| 0 <= k < a.len() ==> (#[trigger] a[k]).owner@ == b[k].owner@ && a[k].type_id@ == b[k].type_id@
}

/// Two systems' planets holding the same plastic, planet by planet.
pub open spec fn same_plastic_planets(a: Seq<(String, Vec<Unit>)>, b: Seq<(String, Vec<Unit>)>) -> bool {
    &&& a.len() == b.len()
    &&& forall|k: int| 0 <= k < a.len() ==> same_plastic_units((#[trigger] a[k]).1@, b[k].1@)
}

/// Two boards holding the same plastic, system by system, in space and on planets, whatever the
/// units' damage or other state.
pub open spec fn same_plastic_board(a: Seq<SystemState>, b: Seq<SystemState>) -> bool {
    &&& a.len() == b.len()
    &&& forall|k: int| 0 <= k < a.len() ==> same_plastic_units((#[trigger] a[k]).units@, b[k].units@) && same_plastic_planets(
        a[k].planet_units@,
        b[k].planet_units@,
    )
}

proof fn lemma_units_same(a: Seq<Unit>, b: Seq<Unit>, catalogue: Seq<(String, String)>, player: Seq<char>, base: Seq<char>)
    requires
        same_plastic_units(a, b),
    ensures
        count_units(a, catalogue, player, base) == count_units(b, catalogue, player, base),
    decreases a.len(),
{
    if a.len() > 0 {
        assert(same_plastic_units(a.drop_last(), b.drop_last())) by {
            assert forall|k: int| 0 <= k < a.drop_last().len() implies (#[trigger] a.drop_last()[k]).owner@ == b.drop_last()[k].owner@
                && a.drop_last()[k].type_id@ == b.drop_last()[k].type_id@ by {
                assert(a.drop_last()[k] == a[k] && b.drop_last()[k] == b[k]);
            }
        }
        lemma_units_same(a.drop_last(), b.drop_last(), catalogue, player, base);
        assert(a.last() == a[a.len() - 1] && b.last() == b[b.len() - 1]);
    }
}

proof fn lemma_planets_same(a: Seq<(String, Vec<Unit>)>, b: Seq<(String, Vec<Unit>)>, catalogue: Seq<(String, String)>, player: Seq<char>, base: Seq<char>)
    requires
        same_plastic_planets(a, b),
    ensures
        count_planets(a, catalogue, player, base) == count_planets(b, catalogue, player, base),
    decreases a.len(),
{
    if a.len() > 0 {
        assert(same_plastic_planets(a.drop_last(), b.drop_last())) by {
            assert forall|k: int| 0 <= k < a.drop_last().len() implies same_plastic_units((#[trigger] a.drop_last()[k]).1@, b.drop_last()[k].1@) by {
                assert(a.drop_last()[k] == a[k] && b.drop_last()[k] == b[k]);
            }
        }
        lemma_planets_same(a.drop_last(), b.drop_last(), catalogue, player, base);
        assert(a.last() == a[a.len() - 1] && b.last() == b[b.len() - 1]);
        lemma_units_same(a.last().1@, b.last().1@, catalogue, player, base);
    }
}

proof fn lemma_board_same(a: Seq<SystemState>, b: Seq<SystemState>, catalogue: Seq<(String, String)>, player: Seq<char>, base: Seq<char>)
    requires
        same_plastic_board(a, b),
    ensures
        count_board(a, catalogue, player, base) == count_board(b, catalogue, player, base),
    decreases a.len(),
{
    if a.len() > 0 {
        assert(same_plastic_board(a.drop_last(), b.drop_last())) by {
            assert forall|k: int| 0 <= k < a.drop_last().len() implies same_plastic_units((#[trigger] a.drop_last()[k]).units@, b.drop_last()[k].units@)
                && same_plastic_planets(a.drop_last()[k].planet_units@, b.drop_last()[k].planet_units@) by {
                assert(a.drop_last()[k] == a[k] && b.drop_last()[k] == b[k]);
            }
        }
        lemma_board_same(a.drop_last(), b.drop_last(), catalogue, player, base);
        assert(a.last() == a[a.len() - 1] && b.last() == b[b.len() - 1]);
        lemma_units_same(a.last().units@, b.last().units@, catalogue, player, base);
        lemma_planets_same(a.last().planet_units@, b.last().planet_units@, catalogue, player, base);
    }
}

/// What is out of the box does not depend on the state of the pieces: two tables whose boards
/// hold the same units (by owner and type, in space and on each planet) and whose seats are the
/// same have the same count held of every plastic and the same number left to place, however
/// the units are damaged. Marking a unit damaged frees no plastic.
pub proof fn damage_does_not_free_plastic(
    a: GameState,
    b: GameState,
    catalogue: Seq<(String, String)>,
    player: Seq<char>,
    unit: Seq<char>,
)
    requires
        same_plastic_board(a.board@, b.board@),
        a.players == b.players,
    ensures
        spec_held(a, catalogue, player, spec_base_type(catalogue, unit)) == spec_held(b, catalogue, player, spec_base_type(catalogue, unit)),
        spec_remaining(a, catalogue, player, unit) == spec_remaining(b, catalogue, player, unit),
{
    lemma_board_same(a.board@, b.board@, catalogue, player, spec_base_type(catalogue, unit));
}

/// The box caps each plastic at the count printed for it: one flagship, two war suns, five
/// dreadnoughts, eight cruisers, eight destroyers, four carriers, four mechs, six PDS and three
/// space docks. What is left to place is that count less what the player has out, and nothing
/// once all of them are out: a player with five dreadnoughts out, damaged or not, may place
/// none.
pub proof fn the_box_holds_its_printed_count(state: GameState, catalogue: Seq<(String, String)>, player: Seq<char>, unit: Seq<char>)
    ensures
        spec_base_type(catalogue, unit) == "flagship"@ ==> spec_remaining(state, catalogue, player, unit) == if 1 - spec_held(state, catalogue, player, "flagship"@) > 0 { 1 - spec_held(state, catalogue, player, "flagship"@) } else { 0 },
        spec_base_type(catalogue, unit) == "warsun"@ ==> spec_remaining(state, catalogue, player, unit) == if 2 - spec_held(state, catalogue, player, "warsun"@) > 0 { 2 - spec_held(state, catalogue, player, "warsun"@) } else { 0 },
        spec_base_type(catalogue, unit) == "dreadnought"@ ==> spec_remaining(state, catalogue, player, unit) == if 5 - spec_held(state, catalogue, player, "dreadnought"@) > 0 { 5 - spec_held(state, catalogue, player, "dreadnought"@) } else { 0 },
        spec_base_type(catalogue, unit) == "cruiser"@ ==> spec_remaining(state, catalogue, player, unit) == if 8 - spec_held(state, catalogue, player, "cruiser"@) > 0 { 8 - spec_held(state, catalogue, player, "cruiser"@) } else { 0 },
        spec_base_type(catalogue, unit) == "destroyer"@ ==> spec_remaining(state, catalogue, player, unit) == if 8 - spec_held(state, catalogue, player, "destroyer"@) > 0 { 8 - spec_held(state, catalogue, player, "destroyer"@) } else { 0 },
        spec_base_type(catalogue, unit) == "carrier"@ ==> spec_remaining(state, catalogue, player, unit) == if 4 - spec_held(state, catalogue, player, "carrier"@) > 0 { 4 - spec_held(state, catalogue, player, "carrier"@) } else { 0 },
        spec_base_type(catalogue, unit) == "mech"@ ==> spec_remaining(state, catalogue, player, unit) == if 4 - spec_held(state, catalogue, player, "mech"@) > 0 { 4 - spec_held(state, catalogue, player, "mech"@) } else { 0 },
        spec_base_type(catalogue, unit) == "pds"@ ==> spec_remaining(state, catalogue, player, unit) == if 6 - spec_held(state, catalogue, player, "pds"@) > 0 { 6 - spec_held(state, catalogue, player, "pds"@) } else { 0 },
        spec_base_type(catalogue, unit) == "spacedock"@ ==> spec_remaining(state, catalogue, player, unit) == if 3 - spec_held(state, catalogue, player, "spacedock"@) > 0 { 3 - spec_held(state, catalogue, player, "spacedock"@) } else { 0 },
{
    reveal_strlit("flagship");
    reveal_strlit("warsun");
    reveal_strlit("dreadnought");
    reveal_strlit("cruiser");
    reveal_strlit("destroyer");
    reveal_strlit("carrier");
    reveal_strlit("mech");
    reveal_strlit("pds");
    reveal_strlit("spacedock");
    assert("warsun"@ != "flagship"@) by { assert("warsun"@.len() != "flagship"@.len()); }
    assert("dreadnought"@ != "flagship"@) by { assert("dreadnought"@.len() != "flagship"@.len()); }
    assert("dreadnought"@ != "warsun"@) by { assert("dreadnought"@.len() != "warsun"@.len()); }
    assert("cruiser"@ != "flagship"@) by { assert("cruiser"@.len() != "flagship"@.len()); }
    assert("cruiser"@ != "warsun"@) by { assert("cruiser"@.len() != "warsun"@.len()); }
    assert("cruiser"@ != "dreadnought"@) by { assert("cruiser"@.len() != "dreadnought"@.len()); }
    assert("destroyer"@ != "flagship"@) by { assert("destroyer"@.len() != "flagship"@.len()); }
    assert("destroyer"@ != "warsun"@) by { assert("destroyer"@.len() != "warsun"@.len()); }
    assert("destroyer"@ != "dreadnought"@) by { assert("destroyer"@.len() != "dreadnought"@.len()); }
    assert("destroyer"@ != "cruiser"@) by { assert("destroyer"@.len() != "cruiser"@.len()); }
    assert("carrier"@ != "flagship"@) by { assert("carrier"@.len() != "flagship"@.len()); }
    assert("carrier"@ != "warsun"@) by { assert("carrier"@.len() != "warsun"@.len()); }
    assert("carrier"@ != "dreadnought"@) by { assert("carrier"@.len() != "dreadnought"@.len()); }
    assert("carrier"@ != "cruiser"@) by { assert("carrier"@[1] != "cruiser"@[1]); }
    assert("carrier"@ != "destroyer"@) by { assert("carrier"@.len() != "destroyer"@.len()); }
    assert("mech"@ != "flagship"@) by { assert("mech"@.len() != "flagship"@.len()); }
    assert("mech"@ != "warsun"@) by { assert("mech"@.len() != "warsun"@.len()); }
    assert("mech"@ != "dreadnought"@) by { assert("mech"@.len() != "dreadnought"@.len()); }
    assert("mech"@ != "cruiser"@) by { assert("mech"@.len() != "cruiser"@.len()); }
    assert("mech"@ != "destroyer"@) by { assert("mech"@.len() != "destroyer"@.len()); }
    assert("mech"@ != "carrier"@) by { assert("mech"@.len() != "carrier"@.len()); }
    assert("pds"@ != "flagship"@) by { assert("pds"@.len() != "flagship"@.len()); }
    assert("pds"@ != "warsun"@) by { assert("pds"@.len() != "warsun"@.len()); }
    assert("pds"@ != "dreadnought"@) by { assert("pds"@.len() != "dreadnought"@.len()); }
    assert("pds"@ != "cruiser"@) by { assert("pds"@.len() != "cruiser"@.len()); }
    assert("pds"@ != "destroyer"@) by { assert("pds"@.len() != "destroyer"@.len()); }
    assert("pds"@ != "carrier"@) by { assert("pds"@.len() != "carrier"@.len()); }
    assert("pds"@ != "mech"@) by { assert("pds"@.len() != "mech"@.len()); }
    assert("spacedock"@ != "flagship"@) by { assert("spacedock"@.len() != "flagship"@.len()); }
    assert("spacedock"@ != "warsun"@) by { assert("spacedock"@.len() != "warsun"@.len()); }
    assert("spacedock"@ != "dreadnought"@) by { assert("spacedock"@.len() != "dreadnought"@.len()); }
    assert("spacedock"@ != "cruiser"@) by { assert("spacedock"@.len() != "cruiser"@.len()); }
    assert("spacedock"@ != "destroyer"@) by { assert("spacedock"@[0] != "destroyer"@[0]); }
    assert("spacedock"@ != "carrier"@) by { assert("spacedock"@.len() != "carrier"@.len()); }
    assert("spacedock"@ != "mech"@) by { assert("spacedock"@.len() != "mech"@.len()); }
    assert("spacedock"@ != "pds"@) by { assert("spacedock"@.len() != "pds"@.len()); }
}

} // verus!
