//! What a secret objective's requirement is checked against: the table, one player, and the
//! printed catalogues the checks read.
//!
//! Every check that asks for "at least n" of something counts only until it reaches n, so no
//! counter can overflow whatever the size of the board.

use vstd::prelude::*;
use crate::state::{find_seat, index_in, lemma_index_in_prefix, names, seat_of, GameState, SystemState, Unit};
use crate::seating::MECATOL;
use crate::technology::{find_tech, owned_at, owned_counts, tech_index, TechRecord};
use crate::text::{contains_text, find_char, find_from, has_phrase, lower_text, to_lower};
use crate::transactions::{neighbours, spec_neighbours, Galaxy};
use crate::transit::{find_system, system_index};
use crate::text::str_eq;

verus! {

/// A unit type as the catalogue records it.
#[derive(Debug, Clone, PartialEq, Eq)]
pub struct UnitType {
    pub id: String,
    /// The plastic it is, upgraded or not: `pds`, `spacedock`, `mech`...
    pub base_type: String,
    pub ship: bool,
    pub ground_force: bool,
}

/// The ids of a unit catalogue.
pub open spec fn unit_ids(units: Seq<UnitType>) -> Seq<Seq<char>> {
    units.map_values(|u: UnitType| u.id@)
}

/// The catalogue entry for a unit type, if there is one.
pub open spec fn unit_record(units: Seq<UnitType>, id: Seq<char>) -> Option<UnitType> {
    let k = index_in(unit_ids(units), id);
    if k < 0 {
        None
    } else {
        Some(units[k])
    }
}

/// The catalogue entry for a unit type, by a left-to-right search.
fn find_unit(units: &Vec<UnitType>, id: &str) -> (found: Option<usize>)
    ensures
        match found {
            Some(k) => k < units@.len() && unit_record(units@, id@) == Some(units@[k as int]),
            None => unit_record(units@, id@) is None,
        },
{
    let ghost ids = unit_ids(units@);
    let mut k: usize = 0;
    while k < units.len()
        invariant
            k <= units@.len(),
            ids == unit_ids(units@),
            index_in(ids.subrange(0, k as int), id@) < 0,
        decreases units@.len() - k,
    {
        assert(ids.subrange(0, k + 1).drop_last() =~= ids.subrange(0, k as int));
        assert(ids.subrange(0, k + 1).last() == units@[k as int].id@);
        if str_eq(units[k].id.as_str(), id) {
            proof {
                lemma_index_in_prefix(ids, k as int + 1, id@);
            }
            return Some(k);
        }
        k = k + 1;
    }
    assert(ids.subrange(0, k as int) =~= ids);
    None
}

/// Which units a requirement counts.
#[derive(Debug, Clone, Copy, PartialEq, Eq)]
pub enum UnitTest {
    /// Units of one plastic, by the slot of [`BASE_TYPES`].
    Base(usize),
    Ship,
    GroundForce,
}

/// The plastics requirements count, by slot.
pub const BASE_TYPES: [&'static str; 5] = ["pds", "spacedock", "dreadnought", "mech", "warsun"];

/// The plastic in a slot of [`BASE_TYPES`].
pub open spec fn base_name(slot: int) -> Seq<char> {
    if slot == 0 {
        "pds"@
    } else if slot == 1 {
        "spacedock"@
    } else if slot == 2 {
        "dreadnought"@
    } else if slot == 3 {
        "mech"@
    } else {
        "warsun"@
    }
}

/// Whether a unit is of the kind a test counts; a type missing from the catalogue is of none.
pub open spec fn fits(units: Seq<UnitType>, test: UnitTest, unit: Unit) -> bool {
    match unit_record(units, unit.type_id@) {
        None => false,
        Some(r) => match test {
            UnitTest::Base(slot) => r.base_type@ == base_name(slot as int),
            UnitTest::Ship => r.ship,
            UnitTest::GroundForce => r.ground_force,
        },
    }
}

/// Whether a unit is this player's and of the kind a test counts.
pub open spec fn counts_for(units: Seq<UnitType>, test: UnitTest, player: Seq<char>, unit: Unit) -> bool {
    unit.owner@ == player && fits(units, test, unit)
}

/// Whether a unit is of the kind a test counts.
fn unit_fits(units: &Vec<UnitType>, test: UnitTest, unit: &Unit) -> (yes: bool)
    ensures
        yes == fits(units@, test, *unit),
{
    let k = match find_unit(units, unit.type_id.as_str()) {
        Some(k) => k,
        None => return false,
    };
    let record = &units[k];
    match test {
        UnitTest::Base(slot) => {
            if slot >= 5 {
                str_eq(record.base_type.as_str(), "warsun")
            } else {
                assert(BASE_TYPES[slot as int]@ == base_name(slot as int));
                str_eq(record.base_type.as_str(), BASE_TYPES[slot])
            }
        },
        UnitTest::Ship => record.ship,
        UnitTest::GroundForce => record.ground_force,
    }
}

/// How many of a list of units count for a player.
pub open spec fn counted(units: Seq<UnitType>, test: UnitTest, player: Seq<char>, list: Seq<Unit>) -> int
    decreases list.len(),
{
    if list.len() == 0 {
        0
    } else {
        counted(units, test, player, list.drop_last()) + if counts_for(units, test, player, list.last()) {
            1int
        } else {
            0int
        }
    }
}

/// How many units on a system's planets count for a player.
pub open spec fn counted_on_planets(units: Seq<UnitType>, test: UnitTest, player: Seq<char>, planets: Seq<(String, Vec<Unit>)>) -> int
    decreases planets.len(),
{
    if planets.len() == 0 {
        0
    } else {
        counted_on_planets(units, test, player, planets.drop_last()) + counted(units, test, player, planets.last().1@)
    }
}

/// How many units in a system, in space or on a planet, count for a player.
pub open spec fn counted_in(units: Seq<UnitType>, test: UnitTest, player: Seq<char>, system: SystemState) -> int {
    counted(units, test, player, system.units@) + counted_on_planets(units, test, player, system.planet_units@)
}

/// How many units on the board count for a player.
pub open spec fn counted_on_board(units: Seq<UnitType>, test: UnitTest, player: Seq<char>, board: Seq<SystemState>) -> int
    decreases board.len(),
{
    if board.len() == 0 {
        0
    } else {
        counted_on_board(units, test, player, board.drop_last()) + counted_in(units, test, player, board.last())
    }
}

/// `have + more`, capped at `cap`.
pub open spec fn capped(have: int, more: int, cap: int) -> int {
    if have + more < cap {
        have + more
    } else {
        cap
    }
}

pub proof fn lemma_counted_nonneg(units: Seq<UnitType>, test: UnitTest, player: Seq<char>, list: Seq<Unit>)
    ensures
        0 <= counted(units, test, player, list) <= list.len(),
    decreases list.len(),
{
    if list.len() > 0 {
        lemma_counted_nonneg(units, test, player, list.drop_last());
    }
}

pub proof fn lemma_counted_on_planets_nonneg(units: Seq<UnitType>, test: UnitTest, player: Seq<char>, planets: Seq<(String, Vec<Unit>)>)
    ensures
        0 <= counted_on_planets(units, test, player, planets),
    decreases planets.len(),
{
    if planets.len() > 0 {
        lemma_counted_on_planets_nonneg(units, test, player, planets.drop_last());
        lemma_counted_nonneg(units, test, player, planets.last().1@);
    }
}

pub proof fn lemma_counted_on_board_nonneg(units: Seq<UnitType>, test: UnitTest, player: Seq<char>, board: Seq<SystemState>)
    ensures
        0 <= counted_on_board(units, test, player, board),
    decreases board.len(),
{
    if board.len() > 0 {
        lemma_counted_on_board_nonneg(units, test, player, board.drop_last());
        lemma_counted_nonneg(units, test, player, board.last().units@);
        lemma_counted_on_planets_nonneg(units, test, player, board.last().planet_units@);
    }
}

/// Count a list's units for a player onto `have`, stopping at `cap`.
pub fn count_units(units: &Vec<UnitType>, test: UnitTest, player: &str, list: &Vec<Unit>, have: usize, cap: usize) -> (total: usize)
    requires
        have <= cap,
    ensures
        total == capped(have as int, counted(units@, test, player@, list@), cap as int),
{
    let mut total = have;
    let mut k: usize = 0;
    while k < list.len()
        invariant
            k <= list@.len(),
            have <= cap,
            total <= cap,
            total == capped(have as int, counted(units@, test, player@, list@.subrange(0, k as int)), cap as int),
        decreases list@.len() - k,
    {
        proof {
            assert(list@.subrange(0, k + 1).drop_last() =~= list@.subrange(0, k as int));
            lemma_counted_nonneg(units@, test, player@, list@.subrange(0, k as int));
        }
        if total == cap {
            proof {
                lemma_counted_prefix(units@, test, player@, list@, k as int);
            }
            return total;
        }
        if str_eq(list[k].owner.as_str(), player) && unit_fits(units, test, &list[k]) {
            total = total + 1;
        }
        k = k + 1;
    }
    assert(list@.subrange(0, k as int) =~= list@);
    total
}

proof fn lemma_counted_prefix(units: Seq<UnitType>, test: UnitTest, player: Seq<char>, list: Seq<Unit>, n: int)
    requires
        0 <= n <= list.len(),
    ensures
        counted(units, test, player, list.subrange(0, n)) <= counted(units, test, player, list),
    decreases list.len() - n,
{
    if n < list.len() {
        lemma_counted_prefix(units, test, player, list, n + 1);
        assert(list.subrange(0, n + 1).drop_last() =~= list.subrange(0, n));
    } else {
        assert(list.subrange(0, n) =~= list);
    }
}

/// Count the units on a system's planets for a player onto `have`, stopping at `cap`.
pub fn count_on_planets(
    units: &Vec<UnitType>,
    test: UnitTest,
    player: &str,
    planets: &Vec<(String, Vec<Unit>)>,
    have: usize,
    cap: usize,
) -> (total: usize)
    requires
        have <= cap,
    ensures
        total == capped(have as int, counted_on_planets(units@, test, player@, planets@), cap as int),
{
    let mut total = have;
    let mut k: usize = 0;
    while k < planets.len()
        invariant
            k <= planets@.len(),
            have <= cap,
            total <= cap,
            total == capped(have as int, counted_on_planets(units@, test, player@, planets@.subrange(0, k as int)), cap as int),
        decreases planets@.len() - k,
    {
        proof {
            assert(planets@.subrange(0, k + 1).drop_last() =~= planets@.subrange(0, k as int));
            lemma_counted_on_planets_nonneg(units@, test, player@, planets@.subrange(0, k as int));
            lemma_counted_nonneg(units@, test, player@, planets@[k as int].1@);
        }
        if total == cap {
            proof {
                lemma_counted_on_planets_prefix(units@, test, player@, planets@, k as int);
            }
            return total;
        }
        total = count_units(units, test, player, &planets[k].1, total, cap);
        k = k + 1;
    }
    assert(planets@.subrange(0, k as int) =~= planets@);
    total
}

proof fn lemma_counted_on_planets_prefix(
    units: Seq<UnitType>,
    test: UnitTest,
    player: Seq<char>,
    planets: Seq<(String, Vec<Unit>)>,
    n: int,
)
    requires
        0 <= n <= planets.len(),
    ensures
        counted_on_planets(units, test, player, planets.subrange(0, n)) <= counted_on_planets(units, test, player, planets),
    decreases planets.len() - n,
{
    if n < planets.len() {
        lemma_counted_on_planets_prefix(units, test, player, planets, n + 1);
        assert(planets.subrange(0, n + 1).drop_last() =~= planets.subrange(0, n));
        lemma_counted_nonneg(units, test, player, planets[n].1@);
    } else {
        assert(planets.subrange(0, n) =~= planets);
    }
}

/// Count the units in a system for a player onto `have`, stopping at `cap`.
pub fn count_in(units: &Vec<UnitType>, test: UnitTest, player: &str, system: &SystemState, have: usize, cap: usize) -> (total: usize)
    requires
        have <= cap,
    ensures
        total == capped(have as int, counted_in(units@, test, player@, *system), cap as int),
{
    proof {
        lemma_counted_nonneg(units@, test, player@, system.units@);
        lemma_counted_on_planets_nonneg(units@, test, player@, system.planet_units@);
    }
    let in_space = count_units(units, test, player, &system.units, have, cap);
    count_on_planets(units, test, player, &system.planet_units, in_space, cap)
}

/// Whether a player has at least `n` units of a kind on the board, in space and on planets.
pub fn units_at_least(units: &Vec<UnitType>, test: UnitTest, player: &str, board: &Vec<SystemState>, n: usize) -> (yes: bool)
    ensures
        yes == (counted_on_board(units@, test, player@, board@) >= n),
{
    proof {
        lemma_counted_on_board_nonneg(units@, test, player@, board@);
    }
    let mut total: usize = 0;
    let mut k: usize = 0;
    while k < board.len()
        invariant
            k <= board@.len(),
            total <= n,
            total == capped(0, counted_on_board(units@, test, player@, board@.subrange(0, k as int)), n as int),
        decreases board@.len() - k,
    {
        proof {
            assert(board@.subrange(0, k + 1).drop_last() =~= board@.subrange(0, k as int));
            lemma_counted_on_board_nonneg(units@, test, player@, board@.subrange(0, k as int));
            lemma_counted_nonneg(units@, test, player@, board@[k as int].units@);
            lemma_counted_on_planets_nonneg(units@, test, player@, board@[k as int].planet_units@);
        }
        if total == n {
            proof {
                lemma_counted_on_board_prefix(units@, test, player@, board@, k as int);
            }
            return true;
        }
        total = count_in(units, test, player, &board[k], total, n);
        k = k + 1;
    }
    assert(board@.subrange(0, k as int) =~= board@);
    total == n
}

proof fn lemma_counted_on_board_prefix(units: Seq<UnitType>, test: UnitTest, player: Seq<char>, board: Seq<SystemState>, n: int)
    requires
        0 <= n <= board.len(),
    ensures
        counted_on_board(units, test, player, board.subrange(0, n)) <= counted_on_board(units, test, player, board),
    decreases board.len() - n,
{
    if n < board.len() {
        lemma_counted_on_board_prefix(units, test, player, board, n + 1);
        assert(board.subrange(0, n + 1).drop_last() =~= board.subrange(0, n));
        lemma_counted_nonneg(units, test, player, board[n].units@);
        lemma_counted_on_planets_nonneg(units, test, player, board[n].planet_units@);
    } else {
        assert(board.subrange(0, n) =~= board);
    }
}

/// A planet card: its traits, its values, whether it is legendary, and whose home it is.
#[derive(Debug, Clone, PartialEq, Eq)]
pub struct PlanetCard {
    pub id: String,
    pub traits: Vec<String>,
    pub resources: u32,
    pub influence: u32,
    pub legendary: bool,
    /// The faction this planet is a home planet of, if any.
    pub homeworld_of: Option<String>,
}

/// A system tile: its name, the planets printed on it, its wormholes, and whether it is an
/// anomaly.
#[derive(Debug, Clone, PartialEq, Eq)]
pub struct SystemCard {
    pub id: String,
    pub name: String,
    pub planets: Vec<String>,
    /// Its wormholes, upper case: `ALPHA`, `BETA`...
    pub wormholes: Vec<String>,
    pub anomaly: bool,
}

/// The ids of a planet catalogue.
pub open spec fn planet_ids(planets: Seq<PlanetCard>) -> Seq<Seq<char>> {
    planets.map_values(|p: PlanetCard| p.id@)
}

/// The card of a planet, if the catalogue has one.
pub open spec fn planet_card(planets: Seq<PlanetCard>, id: Seq<char>) -> Option<PlanetCard> {
    let k = index_in(planet_ids(planets), id);
    if k < 0 {
        None
    } else {
        Some(planets[k])
    }
}

/// The card of a planet, by a left-to-right search.
fn find_planet_card(planets: &Vec<PlanetCard>, id: &str) -> (found: Option<usize>)
    ensures
        match found {
            Some(k) => k < planets@.len() && planet_card(planets@, id@) == Some(planets@[k as int]),
            None => planet_card(planets@, id@) is None,
        },
{
    let ghost ids = planet_ids(planets@);
    let mut k: usize = 0;
    while k < planets.len()
        invariant
            k <= planets@.len(),
            ids == planet_ids(planets@),
            index_in(ids.subrange(0, k as int), id@) < 0,
        decreases planets@.len() - k,
    {
        assert(ids.subrange(0, k + 1).drop_last() =~= ids.subrange(0, k as int));
        assert(ids.subrange(0, k + 1).last() == planets@[k as int].id@);
        if str_eq(planets[k].id.as_str(), id) {
            proof {
                lemma_index_in_prefix(ids, k as int + 1, id@);
            }
            return Some(k);
        }
        k = k + 1;
    }
    assert(ids.subrange(0, k as int) =~= ids);
    None
}

/// The ids of a system catalogue.
pub open spec fn system_ids(systems: Seq<SystemCard>) -> Seq<Seq<char>> {
    systems.map_values(|s: SystemCard| s.id@)
}

/// The card of a system, if the catalogue has one.
pub open spec fn system_card(systems: Seq<SystemCard>, id: Seq<char>) -> Option<SystemCard> {
    let k = index_in(system_ids(systems), id);
    if k < 0 {
        None
    } else {
        Some(systems[k])
    }
}

/// The card of a system, by a left-to-right search.
pub(crate) fn find_system_card(systems: &Vec<SystemCard>, id: &str) -> (found: Option<usize>)
    ensures
        match found {
            Some(k) => k < systems@.len() && system_card(systems@, id@) == Some(systems@[k as int]),
            None => system_card(systems@, id@) is None,
        },
{
    let ghost ids = system_ids(systems@);
    let mut k: usize = 0;
    while k < systems.len()
        invariant
            k <= systems@.len(),
            ids == system_ids(systems@),
            index_in(ids.subrange(0, k as int), id@) < 0,
        decreases systems@.len() - k,
    {
        assert(ids.subrange(0, k + 1).drop_last() =~= ids.subrange(0, k as int));
        assert(ids.subrange(0, k + 1).last() == systems@[k as int].id@);
        if str_eq(systems[k].id.as_str(), id) {
            proof {
                lemma_index_in_prefix(ids, k as int + 1, id@);
            }
            return Some(k);
        }
        k = k + 1;
    }
    assert(ids.subrange(0, k as int) =~= ids);
    None
}

/// The planet traits requirements count, by slot.
pub const TRAITS: [&'static str; 3] = ["cultural", "hazardous", "industrial"];

/// The trait in a slot of [`TRAITS`].
pub open spec fn trait_name(slot: int) -> Seq<char> {
    if slot == 0 {
        "cultural"@
    } else if slot == 1 {
        "hazardous"@
    } else {
        "industrial"@
    }
}

/// What a requirement adds up over the planets a player controls.
#[derive(Debug, Clone, Copy, PartialEq, Eq)]
pub enum Measure {
    /// One for each planet with the trait in a slot of [`TRAITS`].
    Trait(usize),
    /// One for each legendary planet.
    Legendary,
    /// Each planet's resource value.
    Resources,
    /// Each planet's influence value.
    Influence,
}

/// What one planet adds to a measure; a planet missing from the catalogue adds nothing.
pub open spec fn planet_score(planets: Seq<PlanetCard>, measure: Measure, planet: Seq<char>) -> int {
    match planet_card(planets, planet) {
        None => 0,
        Some(c) => match measure {
            Measure::Trait(slot) => if names(c.traits@).contains(trait_name(slot as int)) {
                1
            } else {
                0
            },
            Measure::Legendary => if c.legendary {
                1
            } else {
                0
            },
            Measure::Resources => c.resources as int,
            Measure::Influence => c.influence as int,
        },
    }
}

/// A measure over the planets a control list gives a player. A planet appears once in a
/// control list.
pub open spec fn held_score(planets: Seq<PlanetCard>, measure: Measure, player: Seq<char>, control: Seq<(String, String)>) -> int
    decreases control.len(),
{
    if control.len() == 0 {
        0
    } else {
        held_score(planets, measure, player, control.drop_last()) + if control.last().1@ == player {
            planet_score(planets, measure, control.last().0@)
        } else {
            0
        }
    }
}

/// A measure over every planet a player controls on the board.
pub open spec fn controlled_score(planets: Seq<PlanetCard>, measure: Measure, player: Seq<char>, board: Seq<SystemState>) -> int
    decreases board.len(),
{
    if board.len() == 0 {
        0
    } else {
        controlled_score(planets, measure, player, board.drop_last()) + held_score(
            planets,
            measure,
            player,
            board.last().planet_control@,
        )
    }
}

proof fn lemma_held_score_nonneg(planets: Seq<PlanetCard>, measure: Measure, player: Seq<char>, control: Seq<(String, String)>)
    ensures
        held_score(planets, measure, player, control) >= 0,
    decreases control.len(),
{
    if control.len() > 0 {
        lemma_held_score_nonneg(planets, measure, player, control.drop_last());
    }
}

proof fn lemma_held_score_prefix(planets: Seq<PlanetCard>, measure: Measure, player: Seq<char>, control: Seq<(String, String)>, n: int)
    requires
        0 <= n <= control.len(),
    ensures
        held_score(planets, measure, player, control.subrange(0, n)) <= held_score(planets, measure, player, control),
    decreases control.len() - n,
{
    if n < control.len() {
        lemma_held_score_prefix(planets, measure, player, control, n + 1);
        assert(control.subrange(0, n + 1).drop_last() =~= control.subrange(0, n));
    } else {
        assert(control.subrange(0, n) =~= control);
    }
}

proof fn lemma_controlled_score_nonneg(planets: Seq<PlanetCard>, measure: Measure, player: Seq<char>, board: Seq<SystemState>)
    ensures
        controlled_score(planets, measure, player, board) >= 0,
    decreases board.len(),
{
    if board.len() > 0 {
        lemma_controlled_score_nonneg(planets, measure, player, board.drop_last());
        lemma_held_score_nonneg(planets, measure, player, board.last().planet_control@);
    }
}

proof fn lemma_controlled_score_prefix(planets: Seq<PlanetCard>, measure: Measure, player: Seq<char>, board: Seq<SystemState>, n: int)
    requires
        0 <= n <= board.len(),
    ensures
        controlled_score(planets, measure, player, board.subrange(0, n)) <= controlled_score(planets, measure, player, board),
    decreases board.len() - n,
{
    if n < board.len() {
        lemma_controlled_score_prefix(planets, measure, player, board, n + 1);
        assert(board.subrange(0, n + 1).drop_last() =~= board.subrange(0, n));
        lemma_held_score_nonneg(planets, measure, player, board[n].planet_control@);
    } else {
        assert(board.subrange(0, n) =~= board);
    }
}

/// What one planet adds to a measure.
fn score_of(planets: &Vec<PlanetCard>, measure: Measure, planet: &str) -> (score: u32)
    ensures
        score as int == planet_score(planets@, measure, planet@),
{
    let k = match find_planet_card(planets, planet) {
        Some(k) => k,
        None => return 0,
    };
    let card = &planets[k];
    match measure {
        Measure::Trait(slot) => {
            let name = if slot == 0 {
                "cultural"
            } else if slot == 1 {
                "hazardous"
            } else {
                "industrial"
            };
            if crate::state::contains_name(&card.traits, name) {
                1
            } else {
                0
            }
        },
        Measure::Legendary => if card.legendary {
            1
        } else {
            0
        },
        Measure::Resources => card.resources,
        Measure::Influence => card.influence,
    }
}

/// Add a measure over a control list onto `have`, stopping at `cap`.
fn add_held_score(planets: &Vec<PlanetCard>, measure: Measure, player: &str, control: &Vec<(String, String)>, have: u128, cap: u128) -> (total: u128)
    requires
        have <= cap <= u64::MAX,
    ensures
        total == capped(have as int, held_score(planets@, measure, player@, control@), cap as int),
{
    let mut total = have;
    let mut k: usize = 0;
    while k < control.len()
        invariant
            k <= control@.len(),
            have <= cap <= u64::MAX,
            total <= cap,
            total == capped(have as int, held_score(planets@, measure, player@, control@.subrange(0, k as int)), cap as int),
        decreases control@.len() - k,
    {
        proof {
            assert(control@.subrange(0, k + 1).drop_last() =~= control@.subrange(0, k as int));
            lemma_held_score_nonneg(planets@, measure, player@, control@.subrange(0, k as int));
        }
        if total == cap {
            proof {
                lemma_held_score_prefix(planets@, measure, player@, control@, k as int);
            }
            return total;
        }
        if str_eq(control[k].1.as_str(), player) {
            let more = score_of(planets, measure, control[k].0.as_str());
            total = if total + (more as u128) < cap {
                total + more as u128
            } else {
                cap
            };
        }
        k = k + 1;
    }
    assert(control@.subrange(0, k as int) =~= control@);
    total
}

/// Whether a measure over the planets a player controls reaches `n`.
pub fn score_at_least(planets: &Vec<PlanetCard>, measure: Measure, player: &str, board: &Vec<SystemState>, n: u64) -> (yes: bool)
    ensures
        yes == (controlled_score(planets@, measure, player@, board@) >= n),
{
    proof {
        lemma_controlled_score_nonneg(planets@, measure, player@, board@);
    }
    let mut total: u128 = 0;
    let mut k: usize = 0;
    while k < board.len()
        invariant
            k <= board@.len(),
            total <= n,
            total == capped(0, controlled_score(planets@, measure, player@, board@.subrange(0, k as int)), n as int),
        decreases board@.len() - k,
    {
        proof {
            assert(board@.subrange(0, k + 1).drop_last() =~= board@.subrange(0, k as int));
            lemma_controlled_score_nonneg(planets@, measure, player@, board@.subrange(0, k as int));
            lemma_held_score_nonneg(planets@, measure, player@, board@[k as int].planet_control@);
        }
        if total == n as u128 {
            proof {
                lemma_controlled_score_prefix(planets@, measure, player@, board@, k as int);
            }
            return true;
        }
        total = add_held_score(planets, measure, player, &board[k].planet_control, total, n as u128);
        k = k + 1;
    }
    assert(board@.subrange(0, k as int) =~= board@);
    total == n as u128
}

/// Whether a player has a ship in a system.
pub open spec fn has_ship(units: Seq<UnitType>, player: Seq<char>, system: SystemState) -> bool {
    counted_in(units, UnitTest::Ship, player, system) > 0
}

/// Whether a player has a ship in a system.
fn ship_in(units: &Vec<UnitType>, player: &str, system: &SystemState) -> (yes: bool)
    ensures
        yes == has_ship(units@, player@, *system),
{
    proof {
        lemma_counted_nonneg(units@, UnitTest::Ship, player@, system.units@);
        lemma_counted_on_planets_nonneg(units@, UnitTest::Ship, player@, system.planet_units@);
    }
    count_in(units, UnitTest::Ship, player, system, 0, 1) == 1
}

/// How many systems hold a ship of this player.
pub open spec fn ship_systems(units: Seq<UnitType>, player: Seq<char>, board: Seq<SystemState>) -> int
    decreases board.len(),
{
    if board.len() == 0 {
        0
    } else {
        ship_systems(units, player, board.drop_last()) + if has_ship(units, player, board.last()) {
            1int
        } else {
            0int
        }
    }
}

proof fn lemma_ship_systems_prefix(units: Seq<UnitType>, player: Seq<char>, board: Seq<SystemState>, n: int)
    requires
        0 <= n <= board.len(),
    ensures
        0 <= ship_systems(units, player, board.subrange(0, n)) <= ship_systems(units, player, board),
    decreases board.len() - n,
{
    if n < board.len() {
        lemma_ship_systems_prefix(units, player, board, n + 1);
        assert(board.subrange(0, n + 1).drop_last() =~= board.subrange(0, n));
        lemma_ship_systems_nonneg(units, player, board.subrange(0, n));
    } else {
        assert(board.subrange(0, n) =~= board);
        lemma_ship_systems_nonneg(units, player, board);
    }
}

proof fn lemma_ship_systems_nonneg(units: Seq<UnitType>, player: Seq<char>, board: Seq<SystemState>)
    ensures
        ship_systems(units, player, board) >= 0,
    decreases board.len(),
{
    if board.len() > 0 {
        lemma_ship_systems_nonneg(units, player, board.drop_last());
    }
}

/// Whether a player has ships in at least `n` systems.
pub fn ships_in_at_least(units: &Vec<UnitType>, player: &str, board: &Vec<SystemState>, n: usize) -> (yes: bool)
    ensures
        yes == (ship_systems(units@, player@, board@) >= n),
{
    proof {
        lemma_ship_systems_nonneg(units@, player@, board@);
    }
    let mut total: usize = 0;
    let mut k: usize = 0;
    while k < board.len()
        invariant
            k <= board@.len(),
            total <= n,
            total == capped(0, ship_systems(units@, player@, board@.subrange(0, k as int)), n as int),
        decreases board@.len() - k,
    {
        proof {
            assert(board@.subrange(0, k + 1).drop_last() =~= board@.subrange(0, k as int));
            lemma_ship_systems_prefix(units@, player@, board@, k as int);
        }
        if total == n {
            return true;
        }
        if ship_in(units, player, &board[k]) {
            total = total + 1;
        }
        k = k + 1;
    }
    assert(board@.subrange(0, k as int) =~= board@);
    total == n
}

/// Whether some unit in a list is another player's and of the kind a test counts.
pub open spec fn rival_fits(units: Seq<UnitType>, test: UnitTest, player: Seq<char>, list: Seq<Unit>) -> bool {
    exists|i: int| 0 <= i < list.len() && (#[trigger] list[i]).owner@ != player && fits(units, test, list[i])
}

fn rival_fits_exec(units: &Vec<UnitType>, test: UnitTest, player: &str, list: &Vec<Unit>) -> (yes: bool)
    ensures
        yes == rival_fits(units@, test, player@, list@),
{
    let mut i: usize = 0;
    while i < list.len()
        invariant
            i <= list@.len(),
            forall|j: int| 0 <= j < i ==> !((#[trigger] list@[j]).owner@ != player@ && fits(units@, test, list@[j])),
        decreases list@.len() - i,
    {
        if !str_eq(list[i].owner.as_str(), player) && unit_fits(units, test, &list[i]) {
            return true;
        }
        i = i + 1;
    }
    false
}

/// Whether another player has a space dock on a planet of this system.
pub open spec fn rival_dock(units: Seq<UnitType>, player: Seq<char>, system: SystemState) -> bool {
    exists|j: int| 0 <= j < system.planet_units@.len() && rival_fits(units, UnitTest::Base(1), player, (#[trigger] system.planet_units@[j]).1@)
}

fn rival_dock_exec(units: &Vec<UnitType>, player: &str, system: &SystemState) -> (yes: bool)
    ensures
        yes == rival_dock(units@, player@, *system),
{
    let mut j: usize = 0;
    while j < system.planet_units.len()
        invariant
            j <= system.planet_units@.len(),
            forall|m: int| 0 <= m < j ==> !rival_fits(units@, UnitTest::Base(1), player@, (#[trigger] system.planet_units@[m]).1@),
        decreases system.planet_units@.len() - j,
    {
        if rival_fits_exec(units, UnitTest::Base(1), player, &system.planet_units[j].1) {
            return true;
        }
        j = j + 1;
    }
    false
}

/// Have a ship in the same system as another player's space dock.
pub open spec fn spec_beside_a_rival_dock(units: Seq<UnitType>, player: Seq<char>, board: Seq<SystemState>) -> bool {
    exists|k: int| 0 <= k < board.len() && has_ship(units, player, #[trigger] board[k]) && rival_dock(units, player, board[k])
}

pub fn beside_a_rival_dock(units: &Vec<UnitType>, player: &str, board: &Vec<SystemState>) -> (yes: bool)
    ensures
        yes == spec_beside_a_rival_dock(units@, player@, board@),
{
    let mut k: usize = 0;
    while k < board.len()
        invariant
            k <= board@.len(),
            forall|m: int| 0 <= m < k ==> !(has_ship(units@, player@, #[trigger] board@[m]) && rival_dock(units@, player@, board@[m])),
        decreases board@.len() - k,
    {
        if ship_in(units, player, &board[k]) && rival_dock_exec(units, player, &board[k]) {
            return true;
        }
        k = k + 1;
    }
    false
}

/// Whether a system's card prints a wormhole of this kind.
pub open spec fn has_wormhole(systems: Seq<SystemCard>, system: Seq<char>, kind: Seq<char>) -> bool {
    match system_card(systems, system) {
        Some(c) => names(c.wormholes@).contains(kind),
        None => false,
    }
}

/// Whether a player has a ship at a wormhole of this kind.
pub open spec fn ship_at_wormhole(units: Seq<UnitType>, systems: Seq<SystemCard>, player: Seq<char>, board: Seq<SystemState>, kind: Seq<char>) -> bool {
    exists|k: int| 0 <= k < board.len() && has_ship(units, player, #[trigger] board[k]) && has_wormhole(systems, board[k].id@, kind)
}

fn ship_at_wormhole_exec(units: &Vec<UnitType>, systems: &Vec<SystemCard>, player: &str, board: &Vec<SystemState>, kind: &str) -> (yes: bool)
    ensures
        yes == ship_at_wormhole(units@, systems@, player@, board@, kind@),
{
    let mut k: usize = 0;
    while k < board.len()
        invariant
            k <= board@.len(),
            forall|m: int| 0 <= m < k ==> !(has_ship(units@, player@, #[trigger] board@[m]) && has_wormhole(systems@, board@[m].id@, kind@)),
        decreases board@.len() - k,
    {
        if ship_in(units, player, &board[k]) {
            match find_system_card(systems, board[k].id.as_str()) {
                Some(c) => {
                    if crate::state::contains_name(&systems[c].wormholes, kind) {
                        return true;
                    }
                },
                None => {},
            }
        }
        k = k + 1;
    }
    false
}

/// Have a ship at an alpha wormhole and one at a beta: two systems, not one.
pub fn ships_at_both_wormhole_kinds(units: &Vec<UnitType>, systems: &Vec<SystemCard>, player: &str, board: &Vec<SystemState>) -> (yes: bool)
    ensures
        yes == (ship_at_wormhole(units@, systems@, player@, board@, "ALPHA"@) && ship_at_wormhole(units@, systems@, player@, board@, "BETA"@)),
{
    ship_at_wormhole_exec(units, systems, player, board, "ALPHA") && ship_at_wormhole_exec(units, systems, player, board, "BETA")
}

/// Whether a player controls a planet in this system, and whether someone else does.
pub open spec fn controls_here(system: SystemState, player: Seq<char>) -> bool {
    exists|e: int| 0 <= e < system.planet_control@.len() && (#[trigger] system.planet_control@[e]).1@ == player
}

pub open spec fn rival_controls_here(system: SystemState, player: Seq<char>) -> bool {
    exists|e: int| 0 <= e < system.planet_control@.len() && (#[trigger] system.planet_control@[e]).1@ != player
}

fn control_here(system: &SystemState, player: &str) -> (both: (bool, bool))
    ensures
        both.0 == controls_here(*system, player@),
        both.1 == rival_controls_here(*system, player@),
{
    let mut mine = false;
    let mut theirs = false;
    let mut e: usize = 0;
    while e < system.planet_control.len()
        invariant
            e <= system.planet_control@.len(),
            mine == exists|m: int| 0 <= m < e && (#[trigger] system.planet_control@[m]).1@ == player@,
            theirs == exists|m: int| 0 <= m < e && (#[trigger] system.planet_control@[m]).1@ != player@,
        decreases system.planet_control@.len() - e,
    {
        if str_eq(system.planet_control[e].1.as_str(), player) {
            mine = true;
        } else {
            theirs = true;
        }
        e = e + 1;
    }
    (mine, theirs)
}

/// Control a planet in a system that contains a planet controlled by another player.
pub open spec fn spec_share_a_system_with_a_rival(player: Seq<char>, board: Seq<SystemState>) -> bool {
    exists|k: int| 0 <= k < board.len() && controls_here(#[trigger] board[k], player) && rival_controls_here(board[k], player)
}

pub fn share_a_system_with_a_rival(player: &str, board: &Vec<SystemState>) -> (yes: bool)
    ensures
        yes == spec_share_a_system_with_a_rival(player@, board@),
{
    let mut k: usize = 0;
    while k < board.len()
        invariant
            k <= board@.len(),
            forall|m: int| 0 <= m < k ==> !(controls_here(#[trigger] board@[m], player@) && rival_controls_here(board@[m], player@)),
        decreases board@.len() - k,
    {
        let (mine, theirs) = control_here(&board[k], player);
        if mine && theirs {
            return true;
        }
        k = k + 1;
    }
    false
}

/// Have `n` or more ground forces on one planet.
pub open spec fn spec_ground_forces_on_one_planet(units: Seq<UnitType>, player: Seq<char>, board: Seq<SystemState>, n: int) -> bool {
    exists|k: int, j: int|
        0 <= k < board.len() && 0 <= j < board[k].planet_units@.len() && counted(
            units,
            UnitTest::GroundForce,
            player,
            (#[trigger] board[k].planet_units@[j]).1@,
        ) >= n
}

pub fn ground_forces_on_one_planet(units: &Vec<UnitType>, player: &str, board: &Vec<SystemState>, n: usize) -> (yes: bool)
    ensures
        yes == spec_ground_forces_on_one_planet(units@, player@, board@, n as int),
{
    let mut k: usize = 0;
    while k < board.len()
        invariant
            k <= board@.len(),
            forall|m: int, j: int|
                0 <= m < k && 0 <= j < board@[m].planet_units@.len() ==> counted(
                    units@,
                    UnitTest::GroundForce,
                    player@,
                    (#[trigger] board@[m].planet_units@[j]).1@,
                ) < n,
        decreases board@.len() - k,
    {
        let planets = &board[k].planet_units;
        let mut j: usize = 0;
        while j < planets.len()
            invariant
                k < board@.len(),
                planets == board@[k as int].planet_units,
                j <= planets@.len(),
                forall|m: int, i: int|
                    0 <= m < k && 0 <= i < board@[m].planet_units@.len() ==> counted(
                        units@,
                        UnitTest::GroundForce,
                        player@,
                        (#[trigger] board@[m].planet_units@[i]).1@,
                    ) < n,
                forall|i: int| 0 <= i < j ==> counted(units@, UnitTest::GroundForce, player@, (#[trigger] planets@[i]).1@) < n,
            decreases planets@.len() - j,
        {
            proof {
                lemma_counted_nonneg(units@, UnitTest::GroundForce, player@, planets@[j as int].1@);
            }
            if count_units(units, UnitTest::GroundForce, player, &planets[j].1, 0, n) == n {
                assert(board@[k as int].planet_units@[j as int] == planets@[j as int]);
                return true;
            }
            j = j + 1;
        }
        k = k + 1;
    }
    false
}

/// The production a player's units give in a system, as supplied for each system; a system not
/// listed gives none.
pub open spec fn production_in(production: Seq<(String, u32)>, system: Seq<char>) -> int
    decreases production.len(),
{
    if production.len() == 0 {
        0
    } else if production[0].0@ == system {
        production[0].1 as int
    } else {
        production_in(production.drop_first(), system)
    }
}

fn production_in_exec(production: &Vec<(String, u32)>, system: &str) -> (value: u32)
    ensures
        value as int == production_in(production@, system@),
{
    let mut k: usize = 0;
    assert(production@.subrange(0, production@.len() as int) =~= production@);
    while k < production.len()
        invariant
            k <= production@.len(),
            production_in(production@, system@) == production_in(production@.subrange(k as int, production@.len() as int), system@),
        decreases production@.len() - k,
    {
        assert(production@.subrange(k as int, production@.len() as int).drop_first() =~= production@.subrange(k + 1, production@.len() as int));
        if str_eq(production[k].0.as_str(), system) {
            return production[k].1;
        }
        k = k + 1;
    }
    0
}

/// Units with a combined PRODUCTION value of at least 8 in a single system of the board.
pub open spec fn spec_production_eight(production: Seq<(String, u32)>, board: Seq<SystemState>) -> bool {
    exists|k: int| 0 <= k < board.len() && production_in(production, (#[trigger] board[k]).id@) >= 8
}

pub fn production_eight_in_one_system(production: &Vec<(String, u32)>, board: &Vec<SystemState>) -> (yes: bool)
    ensures
        yes == spec_production_eight(production@, board@),
{
    let mut k: usize = 0;
    while k < board.len()
        invariant
            k <= board@.len(),
            forall|m: int| 0 <= m < k ==> production_in(production@, (#[trigger] board@[m]).id@) < 8,
        decreases board@.len() - k,
    {
        if production_in_exec(production, board[k].id.as_str()) >= 8 {
            return true;
        }
        k = k + 1;
    }
    false
}

/// Whether a system is adjacent to an anomaly.
pub open spec fn beside_anomaly(galaxy: Galaxy, systems: Seq<SystemCard>, here: Seq<char>) -> bool {
    exists|k: int|
        0 <= k < galaxy.adjacency@.len() && (#[trigger] galaxy.adjacency@[k]).0@ == here && match system_card(
            systems,
            galaxy.adjacency@[k].1@,
        ) {
            Some(c) => c.anomaly,
            None => false,
        }
}

fn beside_anomaly_exec(galaxy: &Galaxy, systems: &Vec<SystemCard>, here: &str) -> (yes: bool)
    ensures
        yes == beside_anomaly(*galaxy, systems@, here@),
{
    let mut k: usize = 0;
    while k < galaxy.adjacency.len()
        invariant
            k <= galaxy.adjacency@.len(),
            forall|m: int|
                0 <= m < k ==> !((#[trigger] galaxy.adjacency@[m]).0@ == here@ && match system_card(
                    systems@,
                    galaxy.adjacency@[m].1@,
                ) {
                    Some(c) => c.anomaly,
                    None => false,
                }),
        decreases galaxy.adjacency@.len() - k,
    {
        if str_eq(galaxy.adjacency[k].0.as_str(), here) {
            match find_system_card(systems, galaxy.adjacency[k].1.as_str()) {
                Some(c) => {
                    if systems[c].anomaly {
                        return true;
                    }
                },
                None => {},
            }
        }
        k = k + 1;
    }
    false
}

/// How many systems with a ship of this player are adjacent to an anomaly.
pub open spec fn ships_beside_anomalies(units: Seq<UnitType>, galaxy: Galaxy, systems: Seq<SystemCard>, player: Seq<char>, board: Seq<SystemState>) -> int
    decreases board.len(),
{
    if board.len() == 0 {
        0
    } else {
        ships_beside_anomalies(units, galaxy, systems, player, board.drop_last()) + if has_ship(units, player, board.last())
            && beside_anomaly(galaxy, systems, board.last().id@) {
            1int
        } else {
            0int
        }
    }
}

proof fn lemma_ships_beside_anomalies_prefix(units: Seq<UnitType>, galaxy: Galaxy, systems: Seq<SystemCard>, player: Seq<char>, board: Seq<SystemState>, n: int)
    requires
        0 <= n <= board.len(),
    ensures
        0 <= ships_beside_anomalies(units, galaxy, systems, player, board.subrange(0, n)) <= ships_beside_anomalies(
            units,
            galaxy,
            systems,
            player,
            board,
        ),
    decreases board.len() - n,
{
    if n < board.len() {
        lemma_ships_beside_anomalies_prefix(units, galaxy, systems, player, board, n + 1);
        assert(board.subrange(0, n + 1).drop_last() =~= board.subrange(0, n));
        lemma_ships_beside_anomalies_nonneg(units, galaxy, systems, player, board.subrange(0, n));
    } else {
        assert(board.subrange(0, n) =~= board);
        lemma_ships_beside_anomalies_nonneg(units, galaxy, systems, player, board);
    }
}

proof fn lemma_ships_beside_anomalies_nonneg(units: Seq<UnitType>, galaxy: Galaxy, systems: Seq<SystemCard>, player: Seq<char>, board: Seq<SystemState>)
    ensures
        ships_beside_anomalies(units, galaxy, systems, player, board) >= 0,
    decreases board.len(),
{
    if board.len() > 0 {
        lemma_ships_beside_anomalies_nonneg(units, galaxy, systems, player, board.drop_last());
    }
}

/// Have ships in three systems that are each adjacent to an anomaly: three systems, not three
/// anomalies. Without a map, unmet.
pub open spec fn spec_ships_beside_three_anomalies(units: Seq<UnitType>, galaxy: Option<Galaxy>, systems: Seq<SystemCard>, player: Seq<char>, board: Seq<SystemState>) -> bool {
    match galaxy {
        Some(g) => ships_beside_anomalies(units, g, systems, player, board) >= 3,
        None => false,
    }
}

pub fn ships_beside_three_anomalies(units: &Vec<UnitType>, galaxy: Option<&Galaxy>, systems: &Vec<SystemCard>, player: &str, board: &Vec<SystemState>) -> (yes: bool)
    ensures
        yes == spec_ships_beside_three_anomalies(units@, galaxy_view(galaxy), systems@, player@, board@),
{
    let g = match galaxy {
        Some(g) => g,
        None => return false,
    };
    proof {
        lemma_ships_beside_anomalies_nonneg(units@, *g, systems@, player@, board@);
    }
    let mut total: usize = 0;
    let mut k: usize = 0;
    while k < board.len()
        invariant
            k <= board@.len(),
            total <= 3,
            galaxy_view(galaxy) == Some(*g),
            total == capped(0, ships_beside_anomalies(units@, *g, systems@, player@, board@.subrange(0, k as int)), 3),
        decreases board@.len() - k,
    {
        proof {
            assert(board@.subrange(0, k + 1).drop_last() =~= board@.subrange(0, k as int));
            lemma_ships_beside_anomalies_prefix(units@, *g, systems@, player@, board@, k as int);
        }
        if total == 3 {
            proof {
                lemma_ships_beside_anomalies_prefix(units@, *g, systems@, player@, board@, k as int);
                assert(ships_beside_anomalies(units@, *g, systems@, player@, board@) >= 3);
                assert(galaxy_view(galaxy) == Some(*g));
            }
            return true;
        }
        if ship_in(units, player, &board[k]) && beside_anomaly_exec(g, systems, board[k].id.as_str()) {
            total = total + 1;
        }
        k = k + 1;
    }
    assert(board@.subrange(0, k as int) =~= board@);
    total == 3
}

/// The map, as a value.
pub open spec fn galaxy_view(galaxy: Option<&Galaxy>) -> Option<Galaxy> {
    match galaxy {
        Some(g) => Some(*g),
        None => None,
    }
}

/// Whether a planet is the home planet of a faction other than `mine`.
pub open spec fn rival_homeworld(planets: Seq<PlanetCard>, planet: Seq<char>, mine: Option<Seq<char>>) -> bool {
    match planet_card(planets, planet) {
        Some(c) => match c.homeworld_of {
            Some(f) => Some(f@) != mine,
            None => false,
        },
        None => false,
    }
}

/// Whether a system holds another faction's home planet.
pub open spec fn rival_home(systems: Seq<SystemCard>, planets: Seq<PlanetCard>, system: Seq<char>, mine: Option<Seq<char>>) -> bool {
    match system_card(systems, system) {
        Some(c) => exists|i: int| 0 <= i < c.planets@.len() && rival_homeworld(planets, (#[trigger] c.planets@[i])@, mine),
        None => false,
    }
}

fn rival_home_exec(systems: &Vec<SystemCard>, planets: &Vec<PlanetCard>, system: &str, mine: &Option<String>) -> (yes: bool)
    ensures
        yes == rival_home(systems@, planets@, system@, opt_text(*mine)),
{
    let c = match find_system_card(systems, system) {
        Some(c) => c,
        None => return false,
    };
    let printed = &systems[c].planets;
    let mut i: usize = 0;
    while i < printed.len()
        invariant
            c < systems@.len(),
            system_card(systems@, system@) == Some(systems@[c as int]),
            printed == systems@[c as int].planets,
            i <= printed@.len(),
            forall|j: int| 0 <= j < i ==> !rival_homeworld(planets@, (#[trigger] printed@[j])@, opt_text(*mine)),
        decreases printed@.len() - i,
    {
        match find_planet_card(planets, printed[i].as_str()) {
            Some(p) => {
                match &planets[p].homeworld_of {
                    Some(f) => {
                        let same = match mine {
                            Some(m) => str_eq(f.as_str(), m.as_str()),
                            None => false,
                        };
                        if !same {
                            proof {
                                let card = system_card(systems@, system@)->Some_0;
                                assert(card == systems@[c as int]);
                                assert(rival_homeworld(planets@, card.planets@[i as int]@, opt_text(*mine)));
                            }
                            return true;
                        }
                    },
                    None => {},
                }
            },
            None => {},
        }
        i = i + 1;
    }
    false
}

/// Text that may be absent, as characters.
pub open spec fn opt_text(text: Option<String>) -> Option<Seq<char>> {
    match text {
        Some(t) => Some(t@),
        None => None,
    }
}

/// The faction a player plays, if they sit at the table.
pub open spec fn faction_at(state: GameState, player: Seq<char>) -> Option<Seq<char>> {
    let i = seat_of(state.players@, player);
    if i < 0 {
        None
    } else {
        Some(state.players@[i].faction@)
    }
}

/// Have a ship in a system adjacent to another player's home system. Without a map, unmet.
pub open spec fn spec_ships_beside_a_rival_home(
    units: Seq<UnitType>,
    galaxy: Option<Galaxy>,
    systems: Seq<SystemCard>,
    planets: Seq<PlanetCard>,
    state: GameState,
    player: Seq<char>,
) -> bool {
    match galaxy {
        Some(g) => exists|k: int, a: int|
            0 <= k < state.board@.len() && 0 <= a < g.adjacency@.len() && has_ship(units, player, #[trigger] state.board@[k])
                && (#[trigger] g.adjacency@[a]).0@ == state.board@[k].id@ && rival_home(
                systems,
                planets,
                g.adjacency@[a].1@,
                faction_at(state, player),
            ),
        None => false,
    }
}

pub fn ships_beside_a_rival_home(
    units: &Vec<UnitType>,
    galaxy: Option<&Galaxy>,
    systems: &Vec<SystemCard>,
    planets: &Vec<PlanetCard>,
    state: &GameState,
    player: &str,
) -> (yes: bool)
    ensures
        yes == spec_ships_beside_a_rival_home(units@, galaxy_view(galaxy), systems@, planets@, *state, player@),
{
    let g = match galaxy {
        Some(g) => g,
        None => return false,
    };
    let mine: Option<String> = match find_seat(&state.players, player) {
        Some(i) => Some(state.players[i].faction.clone()),
        None => None,
    };
    assert(opt_text(mine) == faction_at(*state, player@));
    let board = &state.board;
    let mut k: usize = 0;
    while k < board.len()
        invariant
            board == state.board,
            galaxy_view(galaxy) == Some(*g),
            opt_text(mine) == faction_at(*state, player@),
            k <= board@.len(),
            forall|m: int, a: int|
                0 <= m < k && 0 <= a < g.adjacency@.len() ==> !(has_ship(units@, player@, #[trigger] board@[m])
                    && (#[trigger] g.adjacency@[a]).0@ == board@[m].id@ && rival_home(
                    systems@,
                    planets@,
                    g.adjacency@[a].1@,
                    faction_at(*state, player@),
                )),
        decreases board@.len() - k,
    {
        if ship_in(units, player, &board[k]) {
            let mut a: usize = 0;
            while a < g.adjacency.len()
                invariant
                    board == state.board,
                    galaxy_view(galaxy) == Some(*g),
                    opt_text(mine) == faction_at(*state, player@),
                    k < board@.len(),
                    has_ship(units@, player@, board@[k as int]),
                    a <= g.adjacency@.len(),
                    forall|m: int, b: int|
                        0 <= m < k && 0 <= b < g.adjacency@.len() ==> !(has_ship(units@, player@, #[trigger] board@[m])
                            && (#[trigger] g.adjacency@[b]).0@ == board@[m].id@ && rival_home(
                            systems@,
                            planets@,
                            g.adjacency@[b].1@,
                            faction_at(*state, player@),
                        )),
                    forall|b: int|
                        0 <= b < a ==> !((#[trigger] g.adjacency@[b]).0@ == board@[k as int].id@ && rival_home(
                            systems@,
                            planets@,
                            g.adjacency@[b].1@,
                            faction_at(*state, player@),
                        )),
                decreases g.adjacency@.len() - a,
            {
                if str_eq(g.adjacency[a].0.as_str(), board[k].id.as_str()) && rival_home_exec(
                    systems,
                    planets,
                    g.adjacency[a].1.as_str(),
                    &mine,
                ) {
                    proof {
                        let gs = galaxy_view(galaxy)->Some_0;
                        assert(gs == *g);
                        assert(has_ship(units@, player@, state.board@[k as int]) && gs.adjacency@[a as int].0@
                            == state.board@[k as int].id@ && rival_home(
                            systems@,
                            planets@,
                            gs.adjacency@[a as int].1@,
                            faction_at(*state, player@),
                        ));
                    }
                    return true;
                }
                a = a + 1;
            }
        }
        k = k + 1;
    }
    false
}

/// Whether a player has any unit in a system, in space or on a planet.
pub open spec fn present(system: SystemState, player: Seq<char>) -> bool {
    ||| exists|i: int| 0 <= i < system.units@.len() && (#[trigger] system.units@[i]).owner@ == player
    ||| exists|j: int, i: int|
        0 <= j < system.planet_units@.len() && 0 <= i < system.planet_units@[j].1@.len() && (#[trigger] system.planet_units@[j].1@[i]).owner@
            == player
}

fn any_owned(list: &Vec<Unit>, player: &str) -> (yes: bool)
    ensures
        yes == exists|i: int| 0 <= i < list@.len() && (#[trigger] list@[i]).owner@ == player@,
{
    let mut i: usize = 0;
    while i < list.len()
        invariant
            i <= list@.len(),
            forall|j: int| 0 <= j < i ==> (#[trigger] list@[j]).owner@ != player@,
        decreases list@.len() - i,
    {
        if str_eq(list[i].owner.as_str(), player) {
            return true;
        }
        i = i + 1;
    }
    false
}

fn present_exec(system: &SystemState, player: &str) -> (yes: bool)
    ensures
        yes == present(*system, player@),
{
    if any_owned(&system.units, player) {
        return true;
    }
    let mut j: usize = 0;
    while j < system.planet_units.len()
        invariant
            j <= system.planet_units@.len(),
            forall|m: int, i: int|
                0 <= m < j && 0 <= i < system.planet_units@[m].1@.len() ==> (#[trigger] system.planet_units@[m].1@[i]).owner@
                    != player@,
        decreases system.planet_units@.len() - j,
    {
        if any_owned(&system.planet_units[j].1, player) {
            return true;
        }
        j = j + 1;
    }
    false
}

/// Have units in the wormhole nexus: a system whose printed name holds "nexus", in any case,
/// that is on the board. A board without it never satisfies this.
pub open spec fn spec_units_in_the_nexus(systems: Seq<SystemCard>, player: Seq<char>, board: Seq<SystemState>) -> bool {
    exists|c: int|
        0 <= c < systems.len() && has_phrase(lower_text((#[trigger] systems[c]).name@), "nexus"@) && system_index(board, systems[c].id@)
            >= 0 && present(board[system_index(board, systems[c].id@)], player)
}

pub fn units_in_the_nexus(systems: &Vec<SystemCard>, player: &str, board: &Vec<SystemState>) -> (yes: bool)
    ensures
        yes == spec_units_in_the_nexus(systems@, player@, board@),
{
    let mut c: usize = 0;
    while c < systems.len()
        invariant
            c <= systems@.len(),
            forall|m: int|
                0 <= m < c ==> !(has_phrase(lower_text((#[trigger] systems@[m]).name@), "nexus"@) && system_index(board@, systems@[m].id@)
                    >= 0 && present(board@[system_index(board@, systems@[m].id@)], player@)),
        decreases systems@.len() - c,
    {
        let lowered = to_lower(systems[c].name.as_str());
        if contains_text(lowered.as_str(), "nexus") {
            match find_system(board, systems[c].id.as_str()) {
                Some(k) => {
                    if present_exec(&board[k], player) {
                        return true;
                    }
                },
                None => {},
            }
        }
        c = c + 1;
    }
    false
}

/// The planets on a system where a player has a mech, in order, once per entry.
pub open spec fn mech_planets_in(units: Seq<UnitType>, player: Seq<char>, planets: Seq<(String, Vec<Unit>)>) -> Seq<Seq<char>>
    decreases planets.len(),
{
    if planets.len() == 0 {
        Seq::empty()
    } else {
        mech_planets_in(units, player, planets.drop_last()) + if counted(units, UnitTest::Base(3), player, planets.last().1@) > 0 {
            seq![planets.last().0@]
        } else {
            Seq::empty()
        }
    }
}

/// The planets on the board where a player has a mech, in order, once per entry.
pub open spec fn mech_planets(units: Seq<UnitType>, player: Seq<char>, board: Seq<SystemState>) -> Seq<Seq<char>>
    decreases board.len(),
{
    if board.len() == 0 {
        Seq::empty()
    } else {
        mech_planets(units, player, board.drop_last()) + mech_planets_in(units, player, board.last().planet_units@)
    }
}

/// Add the planets of one system where a player has a mech to a list of distinct names.
fn collect_mech_planets(units: &Vec<UnitType>, player: &str, planets: &Vec<(String, Vec<Unit>)>, found: &mut Vec<String>)
    requires
        names(old(found)@).no_duplicates(),
    ensures
        names(final(found)@).no_duplicates(),
        forall|x: Seq<char>| #[trigger] names(final(found)@).contains(x) <==> (names(old(found)@).contains(x) || mech_planets_in(
            units@,
            player@,
            planets@,
        ).contains(x)),
{
    let ghost start = names(found@);
    let mut j: usize = 0;
    while j < planets.len()
        invariant
            j <= planets@.len(),
            start == names(old(found)@),
            names(found@).no_duplicates(),
            forall|x: Seq<char>| #[trigger] names(found@).contains(x) <==> (start.contains(x) || mech_planets_in(
                units@,
                player@,
                planets@.subrange(0, j as int),
            ).contains(x)),
        decreases planets@.len() - j,
    {
        let ghost before = names(found@);
        let ghost prev = mech_planets_in(units@, player@, planets@.subrange(0, j as int));
        assert(planets@.subrange(0, j + 1).drop_last() =~= planets@.subrange(0, j as int));
        proof {
            lemma_counted_nonneg(units@, UnitTest::Base(3), player@, planets@[j as int].1@);
        }
        let has_mech = count_units(units, UnitTest::Base(3), player, &planets[j].1, 0, 1) == 1;
        let ghost next = mech_planets_in(units@, player@, planets@.subrange(0, j + 1));
        if has_mech {
            let name = planets[j].0.as_str();
            assert(next == prev + seq![name@]);
            assert forall|x: Seq<char>| #[trigger] next.contains(x) <==> (prev.contains(x) || x == name@) by {
                if next.contains(x) && x != name@ {
                    let w = choose|w: int| 0 <= w < next.len() && next[w] == x;
                    assert(w < prev.len());
                    assert(prev[w] == x);
                }
                if prev.contains(x) {
                    let w = choose|w: int| 0 <= w < prev.len() && prev[w] == x;
                    assert(next[w] == x);
                }
                if x == name@ {
                    assert(next[next.len() - 1] == x);
                }
            }
            let known = crate::state::contains_name(found, name);
            if !known {
                found.push(name.to_string());
                proof {
                    assert(names(found@) =~= before.push(name@));
                    assert forall|a: int, b: int| 0 <= a < b < names(found@).len() implies names(found@)[a] != names(found@)[b] by {
                        if b == names(found@).len() - 1 {
                            assert(before.contains(names(found@)[a]));
                        }
                    }
                    assert forall|x: Seq<char>| #[trigger] names(found@).contains(x) <==> (before.contains(x) || x == name@) by {
                        if names(found@).contains(x) && x != name@ {
                            let w = choose|w: int| 0 <= w < names(found@).len() && names(found@)[w] == x;
                            assert(before[w] == x);
                        }
                        if before.contains(x) {
                            let w = choose|w: int| 0 <= w < before.len() && before[w] == x;
                            assert(names(found@)[w] == x);
                        }
                        if x == name@ {
                            assert(names(found@)[names(found@).len() - 1] == x);
                        }
                    }
                }
            }
        } else {
            assert(next =~= prev + Seq::<Seq<char>>::empty());
        }
        j = j + 1;
    }
    assert(planets@.subrange(0, j as int) =~= planets@);
}

/// Have `n` mechs, each on a different planet: four mechs on one planet is not four planets.
pub open spec fn spec_mechs_on_distinct_planets(units: Seq<UnitType>, player: Seq<char>, board: Seq<SystemState>, n: int) -> bool {
    mech_planets(units, player, board).to_set().len() >= n
}

pub fn mechs_on_distinct_planets(units: &Vec<UnitType>, player: &str, board: &Vec<SystemState>, n: usize) -> (yes: bool)
    ensures
        yes == spec_mechs_on_distinct_planets(units@, player@, board@, n as int),
{
    let mut found: Vec<String> = Vec::new();
    let mut k: usize = 0;
    assert(names(found@) =~= Seq::<Seq<char>>::empty());
    while k < board.len()
        invariant
            k <= board@.len(),
            names(found@).no_duplicates(),
            forall|x: Seq<char>| #[trigger] names(found@).contains(x) <==> mech_planets(units@, player@, board@.subrange(0, k as int)).contains(x),
        decreases board@.len() - k,
    {
        let ghost prev = mech_planets(units@, player@, board@.subrange(0, k as int));
        let ghost here = mech_planets_in(units@, player@, board@[k as int].planet_units@);
        assert(board@.subrange(0, k + 1).drop_last() =~= board@.subrange(0, k as int));
        assert(mech_planets(units@, player@, board@.subrange(0, k + 1)) == prev + here);
        collect_mech_planets(units, player, &board[k].planet_units, &mut found);
        proof {
            assert forall|x: Seq<char>| #[trigger] names(found@).contains(x) <==> (prev + here).contains(x) by {
                if (prev + here).contains(x) {
                    let w = choose|w: int| 0 <= w < (prev + here).len() && (prev + here)[w] == x;
                    if w < prev.len() {
                        assert(prev[w] == x);
                    } else {
                        assert(here[w - prev.len()] == x);
                    }
                }
                if prev.contains(x) {
                    let w = choose|w: int| 0 <= w < prev.len() && prev[w] == x;
                    assert((prev + here)[w] == x);
                }
                if here.contains(x) {
                    let w = choose|w: int| 0 <= w < here.len() && here[w] == x;
                    assert((prev + here)[prev.len() + w] == x);
                }
            }
        }
        k = k + 1;
    }
    assert(board@.subrange(0, k as int) =~= board@);
    proof {
        let all = mech_planets(units@, player@, board@);
        assert(names(found@).to_set() =~= all.to_set());
        names(found@).unique_seq_to_set();
    }
    found.len() >= n
}

/// Control a planet of Mecatol Rex's system and have `ships` or more ships there. A board
/// without that system holds nothing.
pub open spec fn spec_hold_mecatol(units: Seq<UnitType>, player: Seq<char>, board: Seq<SystemState>, ships: int) -> bool {
    let k = system_index(board, MECATOL@);
    k >= 0 && controls_here(board[k], player) && counted_in(units, UnitTest::Ship, player, board[k]) >= ships
}

pub fn hold_mecatol(units: &Vec<UnitType>, player: &str, board: &Vec<SystemState>, ships: usize) -> (yes: bool)
    ensures
        yes == spec_hold_mecatol(units@, player@, board@, ships as int),
{
    let k = match find_system(board, MECATOL) {
        Some(k) => k,
        None => return false,
    };
    let (mine, _) = control_here(&board[k], player);
    if !mine {
        return false;
    }
    proof {
        lemma_counted_nonneg(units@, UnitTest::Ship, player@, board@[k as int].units@);
        lemma_counted_on_planets_nonneg(units@, UnitTest::Ship, player@, board@[k as int].planet_units@);
    }
    count_in(units, UnitTest::Ship, player, &board[k], 0, ships) == ships
}

/// Own `n` technologies of one colour: the same colour, not a spread across the tracks.
pub open spec fn spec_same_colour_technologies(state: GameState, records: Seq<TechRecord>, player: Seq<char>, n: int) -> bool {
    exists|j: int| 0 <= j < 4 && #[trigger] owned_at(state, records, player, j) >= n
}

pub fn same_colour_technologies(state: &GameState, records: &Vec<TechRecord>, player: &str, n: usize) -> (yes: bool)
    ensures
        yes == spec_same_colour_technologies(*state, records@, player@, n as int),
{
    let counts = owned_counts(state, records, player);
    let mut j: usize = 0;
    while j < 4
        invariant
            j <= 4,
            forall|m: int| 0 <= m < 4 ==> counts@[m] == #[trigger] owned_at(*state, records@, player@, m),
            forall|m: int| 0 <= m < j ==> #[trigger] owned_at(*state, records@, player@, m) < n,
        decreases 4 - j,
    {
        if counts[j] >= n {
            assert(owned_at(*state, records@, player@, j as int) >= n);
            return true;
        }
        j = j + 1;
    }
    false
}

/// Whether a technology's record names a faction at all.
pub open spec fn names_a_faction(records: Seq<TechRecord>, alias: Seq<char>) -> bool {
    let k = tech_index(records, alias);
    k >= 0 && records[k].faction is Some
}

/// How many of a list of technologies name a faction.
pub open spec fn faction_tech_count(records: Seq<TechRecord>, techs: Seq<Seq<char>>) -> int
    decreases techs.len(),
{
    if techs.len() == 0 {
        0
    } else {
        faction_tech_count(records, techs.drop_last()) + if names_a_faction(records, techs.last()) {
            1int
        } else {
            0int
        }
    }
}

/// Own two faction technologies.
pub open spec fn spec_two_faction_technologies(state: GameState, records: Seq<TechRecord>, player: Seq<char>) -> bool {
    let i = seat_of(state.players@, player);
    i >= 0 && faction_tech_count(records, names(state.players@[i].technologies@)) >= 2
}

pub fn two_faction_technologies(state: &GameState, records: &Vec<TechRecord>, player: &str) -> (yes: bool)
    ensures
        yes == spec_two_faction_technologies(*state, records@, player@),
{
    let i = match find_seat(&state.players, player) {
        Some(i) => i,
        None => return false,
    };
    let techs = &state.players[i].technologies;
    let mut total: usize = 0;
    let mut k: usize = 0;
    while k < techs.len()
        invariant
            k <= techs@.len(),
            total <= k,
            total == faction_tech_count(records@, names(techs@.subrange(0, k as int))),
        decreases techs@.len() - k,
    {
        assert(names(techs@.subrange(0, k + 1)).drop_last() =~= names(techs@.subrange(0, k as int)));
        assert(names(techs@.subrange(0, k + 1)).last() == techs@[k as int]@);
        match find_tech(records, techs[k].as_str()) {
            Some(t) => {
                if records[t].faction.is_some() {
                    total = total + 1;
                }
            },
            None => {},
        }
        k = k + 1;
    }
    assert(techs@.subrange(0, k as int) =~= techs@);
    total >= 2
}

/// Be neighbours with every other player (LRR 60): a table of one is not cohesion, and without
/// a map nobody is anybody's neighbour.
pub open spec fn spec_neighbours_with_everyone(state: GameState, galaxy: Option<Galaxy>, player: Seq<char>) -> bool {
    match galaxy {
        Some(g) => {
            let reached = spec_neighbours(state, g, player, state.seating_order@.len() as int);
            &&& exists|j: int| 0 <= j < state.players@.len() && (#[trigger] state.players@[j]).id@ != player
            &&& forall|j: int| 0 <= j < state.players@.len() && (#[trigger] state.players@[j]).id@ != player ==> reached.contains(
                state.players@[j].id@,
            )
        },
        None => false,
    }
}

pub fn neighbours_with_everyone(state: &GameState, galaxy: Option<&Galaxy>, player: &str) -> (yes: bool)
    ensures
        yes == spec_neighbours_with_everyone(*state, galaxy_view(galaxy), player@),
{
    let g = match galaxy {
        Some(g) => g,
        None => return false,
    };
    let reached = neighbours(state, g, player);
    let ghost want = spec_neighbours(*state, *g, player@, state.seating_order@.len() as int);
    let mut others = false;
    let mut j: usize = 0;
    while j < state.players.len()
        invariant
            j <= state.players@.len(),
            names(reached@) == want,
            galaxy_view(galaxy) == Some(*g),
            want == spec_neighbours(*state, *g, player@, state.seating_order@.len() as int),
            others == exists|m: int| 0 <= m < j && (#[trigger] state.players@[m]).id@ != player@,
            forall|m: int| 0 <= m < j && (#[trigger] state.players@[m]).id@ != player@ ==> want.contains(state.players@[m].id@),
        decreases state.players@.len() - j,
    {
        let id = state.players[j].id.as_str();
        if !str_eq(id, player) {
            others = true;
            if !crate::state::contains_name(&reached, id) {
                proof {
                    let gs = galaxy_view(galaxy)->Some_0;
                    assert(gs == *g);
                    assert(state.players@[j as int].id@ != player@ && !spec_neighbours(
                        *state,
                        gs,
                        player@,
                        state.seating_order@.len() as int,
                    ).contains(state.players@[j as int].id@));
                }
                return false;
            }
        }
        j = j + 1;
    }
    others
}

/// The faction a note id names after its first `:`, if it names one.
pub open spec fn note_faction(note: Seq<char>) -> Option<Seq<char>> {
    let at = find_from(note, ':', 0);
    if at < note.len() {
        Some(note.subrange(at + 1, note.len() as int))
    } else {
        None
    }
}

/// Have another player's promissory note in your play area: a note whose id names a faction
/// other than yours. Support for the Throne is one such note.
pub open spec fn spec_holds_a_rivals_note(state: GameState, player: Seq<char>) -> bool {
    let i = seat_of(state.players@, player);
    &&& i >= 0
    &&& exists|n: int|
        0 <= n < state.players@[i].notes@.len() && match note_faction((#[trigger] state.players@[i].notes@[n])@) {
            Some(f) => f != state.players@[i].faction@,
            None => false,
        }
}

pub fn holds_a_rivals_note(state: &GameState, player: &str) -> (yes: bool)
    ensures
        yes == spec_holds_a_rivals_note(*state, player@),
{
    let i = match find_seat(&state.players, player) {
        Some(i) => i,
        None => return false,
    };
    let notes = &state.players[i].notes;
    let faction = state.players[i].faction.as_str();
    let mut n: usize = 0;
    while n < notes.len()
        invariant
            n <= notes@.len(),
            i == seat_of(state.players@, player@),
            i < state.players@.len(),
            notes == state.players@[i as int].notes,
            faction@ == state.players@[i as int].faction@,
            forall|m: int|
                0 <= m < n ==> !match note_faction((#[trigger] notes@[m])@) {
                    Some(f) => f != faction@,
                    None => false,
                },
        decreases notes@.len() - n,
    {
        let note = notes[n].as_str();
        let len = note.unicode_len();
        let at = find_char(note, ':', 0);
        if at < len {
            let owner = note.substring_char(at + 1, len);
            if !str_eq(owner, faction) {
                assert(note_faction(state.players@[i as int].notes@[n as int]@) == Some(owner@));
                return true;
            }
        }
        n = n + 1;
    }
    false
}

/// Hold at least `n` relic fragments, of any kind.
pub open spec fn spec_fragments_at_least(state: GameState, player: Seq<char>, n: int) -> bool {
    let i = seat_of(state.players@, player);
    i >= 0 && state.players@[i].relic_fragments@.len() >= n
}

pub fn fragments_at_least(state: &GameState, player: &str, n: usize) -> (yes: bool)
    ensures
        yes == spec_fragments_at_least(*state, player@, n as int),
{
    match find_seat(&state.players, player) {
        Some(i) => state.players[i].relic_fragments.len() >= n,
        None => false,
    }
}

/// Hold at least `n` action cards.
pub open spec fn spec_action_cards_at_least(state: GameState, player: Seq<char>, n: int) -> bool {
    let i = seat_of(state.players@, player);
    i >= 0 && state.players@[i].action_cards@.len() >= n
}

pub fn action_cards_at_least(state: &GameState, player: &str, n: usize) -> (yes: bool)
    ensures
        yes == spec_action_cards_at_least(*state, player@, n as int),
{
    match find_seat(&state.players, player) {
        Some(i) => state.players[i].action_cards.len() >= n,
        None => false,
    }
}

/// What a secret's requirement is checked against: the table, the player, the printed
/// catalogues, and the map when the caller has one (`None` leaves board-shape requirements
/// unmet). The laws in play and each system's PRODUCTION for the player are supplied by the
/// caller, which tracks them.
pub struct Position<'a> {
    pub state: &'a GameState,
    pub player: &'a str,
    pub units: &'a Vec<UnitType>,
    pub planets: &'a Vec<PlanetCard>,
    pub systems: &'a Vec<SystemCard>,
    pub technologies: &'a Vec<TechRecord>,
    pub galaxy: Option<&'a Galaxy>,
    pub laws_in_play: usize,
    /// The PRODUCTION of the player's units in each system, by system id.
    pub production: &'a Vec<(String, u32)>,
}

/// A registered requirement: what a status-phase or position secret asks of the table.
#[derive(Debug, Clone, Copy, PartialEq, Eq)]
pub enum Requirement {
    /// At least this many units of a kind on the board.
    Units(UnitTest, usize),
    /// Ships in at least this many systems.
    ShipsInSystems(usize),
    /// A measure over controlled planets reaching this much.
    Planets(Measure, u64),
    /// At least this many technologies of one colour.
    SameColourTechnologies(usize),
    /// Control Mecatol Rex with at least this many ships in its system.
    HoldMecatol(usize),
    /// Mechs on at least this many different planets.
    MechsOnDistinctPlanets(usize),
    /// At least this many ground forces on one planet.
    GroundForcesOnOnePlanet(usize),
    BesideARivalDock,
    ShipsAtBothWormholeKinds,
    TwoFactionTechnologies,
    ThreeLawsInPlay,
    ShareASystemWithARival,
    ProductionEightInOneSystem,
    ShipsBesideThreeAnomalies,
    ShipsBesideARivalHome,
    NeighboursWithEveryone,
    UnitsInTheNexus,
    TwoRelicFragments,
    FiveActionCards,
    HoldsARivalsNote,
}

/// The registered requirement of each position secret, by alias. Unregistered secrets are
/// unscoreable: a coverage gap shows as a card nobody can take, never as a point scored on a
/// rule that was never written.
pub open spec fn spec_requirement_for(alias: Seq<char>) -> Option<Requirement> {
    if alias == "csl"@ {
        Some(Requirement::BesideARivalDock)
    } else if alias == "dhw"@ {
        Some(Requirement::TwoRelicFragments)
    } else if alias == "fsn"@ {
        Some(Requirement::FiveActionCards)
    } else if alias == "sb"@ {
        Some(Requirement::HoldsARivalsNote)
    } else if alias == "lsc"@ {
        Some(Requirement::ShipsBesideThreeAnomalies)
    } else if alias == "te"@ {
        Some(Requirement::ShipsBesideARivalHome)
    } else if alias == "fc"@ {
        Some(Requirement::NeighboursWithEveryone)
    } else if alias == "dfat"@ {
        Some(Requirement::UnitsInTheNexus)
    } else if alias == "btgk"@ {
        Some(Requirement::ShipsAtBothWormholeKinds)
    } else if alias == "ans"@ {
        Some(Requirement::TwoFactionTechnologies)
    } else if alias == "dp"@ {
        Some(Requirement::ThreeLawsInPlay)
    } else if alias == "syc"@ {
        Some(Requirement::ShareASystemWithARival)
    } else if alias == "pem"@ {
        Some(Requirement::ProductionEightInOneSystem)
    } else if alias == "sai"@ {
        Some(Requirement::Planets(Measure::Legendary, 1))
    } else if alias == "ose"@ {
        Some(Requirement::HoldMecatol(3))
    } else if alias == "mtm"@ {
        Some(Requirement::MechsOnDistinctPlanets(4))
    } else if alias == "otf"@ {
        Some(Requirement::GroundForcesOnOnePlanet(9))
    } else if alias == "eap"@ {
        Some(Requirement::Units(UnitTest::Base(0), 4))
    } else if alias == "fwm"@ {
        Some(Requirement::Units(UnitTest::Base(1), 3))
    } else if alias == "gamf"@ {
        Some(Requirement::Units(UnitTest::Base(2), 5))
    } else if alias == "ctr"@ {
        Some(Requirement::ShipsInSystems(6))
    } else if alias == "faa"@ {
        Some(Requirement::Planets(Measure::Trait(0), 4))
    } else if alias == "mrm"@ {
        Some(Requirement::Planets(Measure::Trait(1), 4))
    } else if alias == "mp"@ {
        Some(Requirement::Planets(Measure::Trait(2), 4))
    } else if alias == "eh"@ {
        Some(Requirement::Planets(Measure::Influence, 12))
    } else if alias == "hrm"@ {
        Some(Requirement::Planets(Measure::Resources, 12))
    } else if alias == "mlp"@ {
        Some(Requirement::SameColourTechnologies(4))
    } else {
        None
    }
}

/// The registered requirement of a position secret, if it has one. Three space docks, not
/// four: the printed card says so.
pub fn requirement_for(alias: &str) -> (requirement: Option<Requirement>)
    ensures
        requirement == spec_requirement_for(alias@),
{
    if str_eq(alias, "csl") {
        Some(Requirement::BesideARivalDock)
    } else if str_eq(alias, "dhw") {
        Some(Requirement::TwoRelicFragments)
    } else if str_eq(alias, "fsn") {
        Some(Requirement::FiveActionCards)
    } else if str_eq(alias, "sb") {
        Some(Requirement::HoldsARivalsNote)
    } else if str_eq(alias, "lsc") {
        Some(Requirement::ShipsBesideThreeAnomalies)
    } else if str_eq(alias, "te") {
        Some(Requirement::ShipsBesideARivalHome)
    } else if str_eq(alias, "fc") {
        Some(Requirement::NeighboursWithEveryone)
    } else if str_eq(alias, "dfat") {
        Some(Requirement::UnitsInTheNexus)
    } else if str_eq(alias, "btgk") {
        Some(Requirement::ShipsAtBothWormholeKinds)
    } else if str_eq(alias, "ans") {
        Some(Requirement::TwoFactionTechnologies)
    } else if str_eq(alias, "dp") {
        Some(Requirement::ThreeLawsInPlay)
    } else if str_eq(alias, "syc") {
        Some(Requirement::ShareASystemWithARival)
    } else if str_eq(alias, "pem") {
        Some(Requirement::ProductionEightInOneSystem)
    } else if str_eq(alias, "sai") {
        Some(Requirement::Planets(Measure::Legendary, 1))
    } else if str_eq(alias, "ose") {
        Some(Requirement::HoldMecatol(3))
    } else if str_eq(alias, "mtm") {
        Some(Requirement::MechsOnDistinctPlanets(4))
    } else if str_eq(alias, "otf") {
        Some(Requirement::GroundForcesOnOnePlanet(9))
    } else if str_eq(alias, "eap") {
        Some(Requirement::Units(UnitTest::Base(0), 4))
    } else if str_eq(alias, "fwm") {
        Some(Requirement::Units(UnitTest::Base(1), 3))
    } else if str_eq(alias, "gamf") {
        Some(Requirement::Units(UnitTest::Base(2), 5))
    } else if str_eq(alias, "ctr") {
        Some(Requirement::ShipsInSystems(6))
    } else if str_eq(alias, "faa") {
        Some(Requirement::Planets(Measure::Trait(0), 4))
    } else if str_eq(alias, "mrm") {
        Some(Requirement::Planets(Measure::Trait(1), 4))
    } else if str_eq(alias, "mp") {
        Some(Requirement::Planets(Measure::Trait(2), 4))
    } else if str_eq(alias, "eh") {
        Some(Requirement::Planets(Measure::Influence, 12))
    } else if str_eq(alias, "hrm") {
        Some(Requirement::Planets(Measure::Resources, 12))
    } else if str_eq(alias, "mlp") {
        Some(Requirement::SameColourTechnologies(4))
    } else {
        None
    }
}

/// Whether a position meets a requirement.
pub open spec fn spec_meets(requirement: Requirement, p: Position) -> bool {
    let state = *p.state;
    let player = p.player@;
    let board = state.board@;
    match requirement {
        Requirement::Units(test, n) => counted_on_board(p.units@, test, player, board) >= n,
        Requirement::ShipsInSystems(n) => ship_systems(p.units@, player, board) >= n,
        Requirement::Planets(measure, n) => controlled_score(p.planets@, measure, player, board) >= n,
        Requirement::SameColourTechnologies(n) => spec_same_colour_technologies(state, p.technologies@, player, n as int),
        Requirement::HoldMecatol(n) => spec_hold_mecatol(p.units@, player, board, n as int),
        Requirement::MechsOnDistinctPlanets(n) => spec_mechs_on_distinct_planets(p.units@, player, board, n as int),
        Requirement::GroundForcesOnOnePlanet(n) => spec_ground_forces_on_one_planet(p.units@, player, board, n as int),
        Requirement::BesideARivalDock => spec_beside_a_rival_dock(p.units@, player, board),
        Requirement::ShipsAtBothWormholeKinds => ship_at_wormhole(p.units@, p.systems@, player, board, "ALPHA"@)
            && ship_at_wormhole(p.units@, p.systems@, player, board, "BETA"@),
        Requirement::TwoFactionTechnologies => spec_two_faction_technologies(state, p.technologies@, player),
        Requirement::ThreeLawsInPlay => p.laws_in_play >= 3,
        Requirement::ShareASystemWithARival => spec_share_a_system_with_a_rival(player, board),
        Requirement::ProductionEightInOneSystem => spec_production_eight(p.production@, board),
        Requirement::ShipsBesideThreeAnomalies => spec_ships_beside_three_anomalies(
            p.units@,
            galaxy_view(p.galaxy),
            p.systems@,
            player,
            board,
        ),
        Requirement::ShipsBesideARivalHome => spec_ships_beside_a_rival_home(
            p.units@,
            galaxy_view(p.galaxy),
            p.systems@,
            p.planets@,
            state,
            player,
        ),
        Requirement::NeighboursWithEveryone => spec_neighbours_with_everyone(state, galaxy_view(p.galaxy), player),
        Requirement::UnitsInTheNexus => spec_units_in_the_nexus(p.systems@, player, board),
        Requirement::TwoRelicFragments => spec_fragments_at_least(state, player, 2),
        Requirement::FiveActionCards => spec_action_cards_at_least(state, player, 5),
        Requirement::HoldsARivalsNote => spec_holds_a_rivals_note(state, player),
    }
}

/// Whether a position meets a requirement.
pub fn meets(requirement: Requirement, p: &Position) -> (met: bool)
    ensures
        met == spec_meets(requirement, *p),
{
    let state = p.state;
    let player = p.player;
    let board = &state.board;
    match requirement {
        Requirement::Units(test, n) => units_at_least(p.units, test, player, board, n),
        Requirement::ShipsInSystems(n) => ships_in_at_least(p.units, player, board, n),
        Requirement::Planets(measure, n) => score_at_least(p.planets, measure, player, board, n),
        Requirement::SameColourTechnologies(n) => same_colour_technologies(state, p.technologies, player, n),
        Requirement::HoldMecatol(n) => hold_mecatol(p.units, player, board, n),
        Requirement::MechsOnDistinctPlanets(n) => mechs_on_distinct_planets(p.units, player, board, n),
        Requirement::GroundForcesOnOnePlanet(n) => ground_forces_on_one_planet(p.units, player, board, n),
        Requirement::BesideARivalDock => beside_a_rival_dock(p.units, player, board),
        Requirement::ShipsAtBothWormholeKinds => ships_at_both_wormhole_kinds(p.units, p.systems, player, board),
        Requirement::TwoFactionTechnologies => two_faction_technologies(state, p.technologies, player),
        Requirement::ThreeLawsInPlay => p.laws_in_play >= 3,
        Requirement::ShareASystemWithARival => share_a_system_with_a_rival(player, board),
        Requirement::ProductionEightInOneSystem => production_eight_in_one_system(p.production, board),
        Requirement::ShipsBesideThreeAnomalies => ships_beside_three_anomalies(p.units, p.galaxy, p.systems, player, board),
        Requirement::ShipsBesideARivalHome => ships_beside_a_rival_home(p.units, p.galaxy, p.systems, p.planets, state, player),
        Requirement::NeighboursWithEveryone => neighbours_with_everyone(state, p.galaxy, player),
        Requirement::UnitsInTheNexus => units_in_the_nexus(p.systems, player, board),
        Requirement::TwoRelicFragments => fragments_at_least(state, player, 2),
        Requirement::FiveActionCards => action_cards_at_least(state, player, 5),
        Requirement::HoldsARivalsNote => holds_a_rivals_note(state, player),
    }
}

/// Whether a position meets the requirement registered for a secret; an unregistered secret
/// is met by no position.
pub open spec fn secret_met(alias: Seq<char>, p: Position) -> bool {
    match spec_requirement_for(alias) {
        Some(r) => spec_meets(r, p),
        None => false,
    }
}

/// Every registered position secret requires what its card prints, on every board and table:
/// four PDS (eap), three space docks (fwm), five dreadnoughts (gamf: four do not score it),
/// ships in six systems (ctr), Mecatol held with three ships (ose), mechs on four planets
/// (mtm), nine ground forces on one planet (otf), twelve influence (eh) or resources (hrm),
/// four technologies of one colour (mlp), four cultural (faa), hazardous (mrm) or industrial
/// (mp) planets, a legendary planet (sai), two relic fragments (dhw), five action cards (fsn),
/// three laws in play (dp), and each positional card (csl, sb, syc, pem, ans, dfat, fc, lsc,
/// te, btgk) exactly the test of the board its card describes.
pub proof fn every_position_secret_needs_what_its_card_prints(p: Position)
    ensures
        secret_met("eap"@, p) <==> counted_on_board(p.units@, UnitTest::Base(0), p.player@, p.state.board@) >= 4,
        secret_met("fwm"@, p) <==> counted_on_board(p.units@, UnitTest::Base(1), p.player@, p.state.board@) >= 3,
        secret_met("gamf"@, p) <==> counted_on_board(p.units@, UnitTest::Base(2), p.player@, p.state.board@) >= 5,
        secret_met("ctr"@, p) <==> ship_systems(p.units@, p.player@, p.state.board@) >= 6,
        secret_met("ose"@, p) <==> spec_hold_mecatol(p.units@, p.player@, p.state.board@, 3),
        secret_met("mtm"@, p) <==> spec_mechs_on_distinct_planets(p.units@, p.player@, p.state.board@, 4),
        secret_met("otf"@, p) <==> spec_ground_forces_on_one_planet(p.units@, p.player@, p.state.board@, 9),
        secret_met("eh"@, p) <==> controlled_score(p.planets@, Measure::Influence, p.player@, p.state.board@) >= 12,
        secret_met("hrm"@, p) <==> controlled_score(p.planets@, Measure::Resources, p.player@, p.state.board@) >= 12,
        secret_met("mlp"@, p) <==> spec_same_colour_technologies(*p.state, p.technologies@, p.player@, 4),
        secret_met("faa"@, p) <==> controlled_score(p.planets@, Measure::Trait(0), p.player@, p.state.board@) >= 4,
        secret_met("mrm"@, p) <==> controlled_score(p.planets@, Measure::Trait(1), p.player@, p.state.board@) >= 4,
        secret_met("mp"@, p) <==> controlled_score(p.planets@, Measure::Trait(2), p.player@, p.state.board@) >= 4,
        secret_met("sai"@, p) <==> controlled_score(p.planets@, Measure::Legendary, p.player@, p.state.board@) >= 1,
        secret_met("dhw"@, p) <==> spec_fragments_at_least(*p.state, p.player@, 2),
        secret_met("fsn"@, p) <==> spec_action_cards_at_least(*p.state, p.player@, 5),
        secret_met("dp"@, p) <==> p.laws_in_play >= 3,
        secret_met("csl"@, p) <==> spec_beside_a_rival_dock(p.units@, p.player@, p.state.board@),
        secret_met("sb"@, p) <==> spec_holds_a_rivals_note(*p.state, p.player@),
        secret_met("syc"@, p) <==> spec_share_a_system_with_a_rival(p.player@, p.state.board@),
        secret_met("pem"@, p) <==> spec_production_eight(p.production@, p.state.board@),
        secret_met("ans"@, p) <==> spec_two_faction_technologies(*p.state, p.technologies@, p.player@),
        secret_met("dfat"@, p) <==> spec_units_in_the_nexus(p.systems@, p.player@, p.state.board@),
        secret_met("fc"@, p) <==> spec_neighbours_with_everyone(*p.state, galaxy_view(p.galaxy), p.player@),
        secret_met("lsc"@, p) <==> spec_ships_beside_three_anomalies(p.units@, galaxy_view(p.galaxy), p.systems@, p.player@, p.state.board@),
        secret_met("te"@, p) <==> spec_ships_beside_a_rival_home(p.units@, galaxy_view(p.galaxy), p.systems@, p.planets@, *p.state, p.player@),
        secret_met("btgk"@, p) <==> ship_at_wormhole(p.units@, p.systems@, p.player@, p.state.board@, "ALPHA"@) && ship_at_wormhole(
            p.units@,
            p.systems@,
            p.player@,
            p.state.board@,
            "BETA"@,
        ),
{
    reveal_strlit("csl");
    reveal_strlit("dhw");
    reveal_strlit("fsn");
    reveal_strlit("sb");
    reveal_strlit("lsc");
    reveal_strlit("te");
    reveal_strlit("fc");
    reveal_strlit("dfat");
    reveal_strlit("btgk");
    reveal_strlit("ans");
    reveal_strlit("dp");
    reveal_strlit("syc");
    reveal_strlit("pem");
    reveal_strlit("sai");
    reveal_strlit("ose");
    reveal_strlit("mtm");
    reveal_strlit("otf");
    reveal_strlit("eap");
    reveal_strlit("fwm");
    reveal_strlit("gamf");
    reveal_strlit("ctr");
    reveal_strlit("faa");
    reveal_strlit("mrm");
    reveal_strlit("mp");
    reveal_strlit("eh");
    reveal_strlit("hrm");
    reveal_strlit("mlp");
    assert("eap"@ != "csl"@) by { assert("eap"@[0] != "csl"@[0]); }
    assert("eap"@ != "dhw"@) by { assert("eap"@[0] != "dhw"@[0]); }
    assert("eap"@ != "fsn"@) by { assert("eap"@[0] != "fsn"@[0]); }
    assert("eap"@ != "sb"@) by { assert("eap"@.len() != "sb"@.len()); }
    assert("eap"@ != "lsc"@) by { assert("eap"@[0] != "lsc"@[0]); }
    assert("eap"@ != "te"@) by { assert("eap"@.len() != "te"@.len()); }
    assert("eap"@ != "fc"@) by { assert("eap"@.len() != "fc"@.len()); }
    assert("eap"@ != "dfat"@) by { assert("eap"@.len() != "dfat"@.len()); }
    assert("eap"@ != "btgk"@) by { assert("eap"@.len() != "btgk"@.len()); }
    assert("eap"@ != "ans"@) by { assert("eap"@[0] != "ans"@[0]); }
    assert("eap"@ != "dp"@) by { assert("eap"@.len() != "dp"@.len()); }
    assert("eap"@ != "syc"@) by { assert("eap"@[0] != "syc"@[0]); }
    assert("eap"@ != "pem"@) by { assert("eap"@[0] != "pem"@[0]); }
    assert("eap"@ != "sai"@) by { assert("eap"@[0] != "sai"@[0]); }
    assert("eap"@ != "ose"@) by { assert("eap"@[0] != "ose"@[0]); }
    assert("eap"@ != "mtm"@) by { assert("eap"@[0] != "mtm"@[0]); }
    assert("eap"@ != "otf"@) by { assert("eap"@[0] != "otf"@[0]); }
    assert("fwm"@ != "csl"@) by { assert("fwm"@[0] != "csl"@[0]); }
    assert("fwm"@ != "dhw"@) by { assert("fwm"@[0] != "dhw"@[0]); }
    assert("fwm"@ != "fsn"@) by { assert("fwm"@[1] != "fsn"@[1]); }
    assert("fwm"@ != "sb"@) by { assert("fwm"@.len() != "sb"@.len()); }
    assert("fwm"@ != "lsc"@) by { assert("fwm"@[0] != "lsc"@[0]); }
    assert("fwm"@ != "te"@) by { assert("fwm"@.len() != "te"@.len()); }
    assert("fwm"@ != "fc"@) by { assert("fwm"@.len() != "fc"@.len()); }
    assert("fwm"@ != "dfat"@) by { assert("fwm"@.len() != "dfat"@.len()); }
    assert("fwm"@ != "btgk"@) by { assert("fwm"@.len() != "btgk"@.len()); }
    assert("fwm"@ != "ans"@) by { assert("fwm"@[0] != "ans"@[0]); }
    assert("fwm"@ != "dp"@) by { assert("fwm"@.len() != "dp"@.len()); }
    assert("fwm"@ != "syc"@) by { assert("fwm"@[0] != "syc"@[0]); }
    assert("fwm"@ != "pem"@) by { assert("fwm"@[0] != "pem"@[0]); }
    assert("fwm"@ != "sai"@) by { assert("fwm"@[0] != "sai"@[0]); }
    assert("fwm"@ != "ose"@) by { assert("fwm"@[0] != "ose"@[0]); }
    assert("fwm"@ != "mtm"@) by { assert("fwm"@[0] != "mtm"@[0]); }
    assert("fwm"@ != "otf"@) by { assert("fwm"@[0] != "otf"@[0]); }
    assert("fwm"@ != "eap"@) by { assert("fwm"@[0] != "eap"@[0]); }
    assert("gamf"@ != "csl"@) by { assert("gamf"@.len() != "csl"@.len()); }
    assert("gamf"@ != "dhw"@) by { assert("gamf"@.len() != "dhw"@.len()); }
    assert("gamf"@ != "fsn"@) by { assert("gamf"@.len() != "fsn"@.len()); }
    assert("gamf"@ != "sb"@) by { assert("gamf"@.len() != "sb"@.len()); }
    assert("gamf"@ != "lsc"@) by { assert("gamf"@.len() != "lsc"@.len()); }
    assert("gamf"@ != "te"@) by { assert("gamf"@.len() != "te"@.len()); }
    assert("gamf"@ != "fc"@) by { assert("gamf"@.len() != "fc"@.len()); }
    assert("gamf"@ != "dfat"@) by { assert("gamf"@[0] != "dfat"@[0]); }
    assert("gamf"@ != "btgk"@) by { assert("gamf"@[0] != "btgk"@[0]); }
    assert("gamf"@ != "ans"@) by { assert("gamf"@.len() != "ans"@.len()); }
    assert("gamf"@ != "dp"@) by { assert("gamf"@.len() != "dp"@.len()); }
    assert("gamf"@ != "syc"@) by { assert("gamf"@.len() != "syc"@.len()); }
    assert("gamf"@ != "pem"@) by { assert("gamf"@.len() != "pem"@.len()); }
    assert("gamf"@ != "sai"@) by { assert("gamf"@.len() != "sai"@.len()); }
    assert("gamf"@ != "ose"@) by { assert("gamf"@.len() != "ose"@.len()); }
    assert("gamf"@ != "mtm"@) by { assert("gamf"@.len() != "mtm"@.len()); }
    assert("gamf"@ != "otf"@) by { assert("gamf"@.len() != "otf"@.len()); }
    assert("gamf"@ != "eap"@) by { assert("gamf"@.len() != "eap"@.len()); }
    assert("gamf"@ != "fwm"@) by { assert("gamf"@.len() != "fwm"@.len()); }
    assert("ctr"@ != "csl"@) by { assert("ctr"@[1] != "csl"@[1]); }
    assert("ctr"@ != "dhw"@) by { assert("ctr"@[0] != "dhw"@[0]); }
    assert("ctr"@ != "fsn"@) by { assert("ctr"@[0] != "fsn"@[0]); }
    assert("ctr"@ != "sb"@) by { assert("ctr"@.len() != "sb"@.len()); }
    assert("ctr"@ != "lsc"@) by { assert("ctr"@[0] != "lsc"@[0]); }
    assert("ctr"@ != "te"@) by { assert("ctr"@.len() != "te"@.len()); }
    assert("ctr"@ != "fc"@) by { assert("ctr"@.len() != "fc"@.len()); }
    assert("ctr"@ != "dfat"@) by { assert("ctr"@.len() != "dfat"@.len()); }
    assert("ctr"@ != "btgk"@) by { assert("ctr"@.len() != "btgk"@.len()); }
    assert("ctr"@ != "ans"@) by { assert("ctr"@[0] != "ans"@[0]); }
    assert("ctr"@ != "dp"@) by { assert("ctr"@.len() != "dp"@.len()); }
    assert("ctr"@ != "syc"@) by { assert("ctr"@[0] != "syc"@[0]); }
    assert("ctr"@ != "pem"@) by { assert("ctr"@[0] != "pem"@[0]); }
    assert("ctr"@ != "sai"@) by { assert("ctr"@[0] != "sai"@[0]); }
    assert("ctr"@ != "ose"@) by { assert("ctr"@[0] != "ose"@[0]); }
    assert("ctr"@ != "mtm"@) by { assert("ctr"@[0] != "mtm"@[0]); }
    assert("ctr"@ != "otf"@) by { assert("ctr"@[0] != "otf"@[0]); }
    assert("ctr"@ != "eap"@) by { assert("ctr"@[0] != "eap"@[0]); }
    assert("ctr"@ != "fwm"@) by { assert("ctr"@[0] != "fwm"@[0]); }
    assert("ctr"@ != "gamf"@) by { assert("ctr"@.len() != "gamf"@.len()); }
    assert("ose"@ != "csl"@) by { assert("ose"@[0] != "csl"@[0]); }
    assert("ose"@ != "dhw"@) by { assert("ose"@[0] != "dhw"@[0]); }
    assert("ose"@ != "fsn"@) by { assert("ose"@[0] != "fsn"@[0]); }
    assert("ose"@ != "sb"@) by { assert("ose"@.len() != "sb"@.len()); }
    assert("ose"@ != "lsc"@) by { assert("ose"@[0] != "lsc"@[0]); }
    assert("ose"@ != "te"@) by { assert("ose"@.len() != "te"@.len()); }
    assert("ose"@ != "fc"@) by { assert("ose"@.len() != "fc"@.len()); }
    assert("ose"@ != "dfat"@) by { assert("ose"@.len() != "dfat"@.len()); }
    assert("ose"@ != "btgk"@) by { assert("ose"@.len() != "btgk"@.len()); }
    assert("ose"@ != "ans"@) by { assert("ose"@[0] != "ans"@[0]); }
    assert("ose"@ != "dp"@) by { assert("ose"@.len() != "dp"@.len()); }
    assert("ose"@ != "syc"@) by { assert("ose"@[0] != "syc"@[0]); }
    assert("ose"@ != "pem"@) by { assert("ose"@[0] != "pem"@[0]); }
    assert("ose"@ != "sai"@) by { assert("ose"@[0] != "sai"@[0]); }
    assert("mtm"@ != "csl"@) by { assert("mtm"@[0] != "csl"@[0]); }
    assert("mtm"@ != "dhw"@) by { assert("mtm"@[0] != "dhw"@[0]); }
    assert("mtm"@ != "fsn"@) by { assert("mtm"@[0] != "fsn"@[0]); }
    assert("mtm"@ != "sb"@) by { assert("mtm"@.len() != "sb"@.len()); }
    assert("mtm"@ != "lsc"@) by { assert("mtm"@[0] != "lsc"@[0]); }
    assert("mtm"@ != "te"@) by { assert("mtm"@.len() != "te"@.len()); }
    assert("mtm"@ != "fc"@) by { assert("mtm"@.len() != "fc"@.len()); }
    assert("mtm"@ != "dfat"@) by { assert("mtm"@.len() != "dfat"@.len()); }
    assert("mtm"@ != "btgk"@) by { assert("mtm"@.len() != "btgk"@.len()); }
    assert("mtm"@ != "ans"@) by { assert("mtm"@[0] != "ans"@[0]); }
    assert("mtm"@ != "dp"@) by { assert("mtm"@.len() != "dp"@.len()); }
    assert("mtm"@ != "syc"@) by { assert("mtm"@[0] != "syc"@[0]); }
    assert("mtm"@ != "pem"@) by { assert("mtm"@[0] != "pem"@[0]); }
    assert("mtm"@ != "sai"@) by { assert("mtm"@[0] != "sai"@[0]); }
    assert("mtm"@ != "ose"@) by { assert("mtm"@[0] != "ose"@[0]); }
    assert("otf"@ != "csl"@) by { assert("otf"@[0] != "csl"@[0]); }
    assert("otf"@ != "dhw"@) by { assert("otf"@[0] != "dhw"@[0]); }
    assert("otf"@ != "fsn"@) by { assert("otf"@[0] != "fsn"@[0]); }
    assert("otf"@ != "sb"@) by { assert("otf"@.len() != "sb"@.len()); }
    assert("otf"@ != "lsc"@) by { assert("otf"@[0] != "lsc"@[0]); }
    assert("otf"@ != "te"@) by { assert("otf"@.len() != "te"@.len()); }
    assert("otf"@ != "fc"@) by { assert("otf"@.len() != "fc"@.len()); }
    assert("otf"@ != "dfat"@) by { assert("otf"@.len() != "dfat"@.len()); }
    assert("otf"@ != "btgk"@) by { assert("otf"@.len() != "btgk"@.len()); }
    assert("otf"@ != "ans"@) by { assert("otf"@[0] != "ans"@[0]); }
    assert("otf"@ != "dp"@) by { assert("otf"@.len() != "dp"@.len()); }
    assert("otf"@ != "syc"@) by { assert("otf"@[0] != "syc"@[0]); }
    assert("otf"@ != "pem"@) by { assert("otf"@[0] != "pem"@[0]); }
    assert("otf"@ != "sai"@) by { assert("otf"@[0] != "sai"@[0]); }
    assert("otf"@ != "ose"@) by { assert("otf"@[1] != "ose"@[1]); }
    assert("otf"@ != "mtm"@) by { assert("otf"@[0] != "mtm"@[0]); }
    assert("eh"@ != "csl"@) by { assert("eh"@.len() != "csl"@.len()); }
    assert("eh"@ != "dhw"@) by { assert("eh"@.len() != "dhw"@.len()); }
    assert("eh"@ != "fsn"@) by { assert("eh"@.len() != "fsn"@.len()); }
    assert("eh"@ != "sb"@) by { assert("eh"@[0] != "sb"@[0]); }
    assert("eh"@ != "lsc"@) by { assert("eh"@.len() != "lsc"@.len()); }
    assert("eh"@ != "te"@) by { assert("eh"@[0] != "te"@[0]); }
    assert("eh"@ != "fc"@) by { assert("eh"@[0] != "fc"@[0]); }
    assert("eh"@ != "dfat"@) by { assert("eh"@.len() != "dfat"@.len()); }
    assert("eh"@ != "btgk"@) by { assert("eh"@.len() != "btgk"@.len()); }
    assert("eh"@ != "ans"@) by { assert("eh"@.len() != "ans"@.len()); }
    assert("eh"@ != "dp"@) by { assert("eh"@[0] != "dp"@[0]); }
    assert("eh"@ != "syc"@) by { assert("eh"@.len() != "syc"@.len()); }
    assert("eh"@ != "pem"@) by { assert("eh"@.len() != "pem"@.len()); }
    assert("eh"@ != "sai"@) by { assert("eh"@.len() != "sai"@.len()); }
    assert("eh"@ != "ose"@) by { assert("eh"@.len() != "ose"@.len()); }
    assert("eh"@ != "mtm"@) by { assert("eh"@.len() != "mtm"@.len()); }
    assert("eh"@ != "otf"@) by { assert("eh"@.len() != "otf"@.len()); }
    assert("eh"@ != "eap"@) by { assert("eh"@.len() != "eap"@.len()); }
    assert("eh"@ != "fwm"@) by { assert("eh"@.len() != "fwm"@.len()); }
    assert("eh"@ != "gamf"@) by { assert("eh"@.len() != "gamf"@.len()); }
    assert("eh"@ != "ctr"@) by { assert("eh"@.len() != "ctr"@.len()); }
    assert("eh"@ != "faa"@) by { assert("eh"@.len() != "faa"@.len()); }
    assert("eh"@ != "mrm"@) by { assert("eh"@.len() != "mrm"@.len()); }
    assert("eh"@ != "mp"@) by { assert("eh"@[0] != "mp"@[0]); }
    assert("hrm"@ != "csl"@) by { assert("hrm"@[0] != "csl"@[0]); }
    assert("hrm"@ != "dhw"@) by { assert("hrm"@[0] != "dhw"@[0]); }
    assert("hrm"@ != "fsn"@) by { assert("hrm"@[0] != "fsn"@[0]); }
    assert("hrm"@ != "sb"@) by { assert("hrm"@.len() != "sb"@.len()); }
    assert("hrm"@ != "lsc"@) by { assert("hrm"@[0] != "lsc"@[0]); }
    assert("hrm"@ != "te"@) by { assert("hrm"@.len() != "te"@.len()); }
    assert("hrm"@ != "fc"@) by { assert("hrm"@.len() != "fc"@.len()); }
    assert("hrm"@ != "dfat"@) by { assert("hrm"@.len() != "dfat"@.len()); }
    assert("hrm"@ != "btgk"@) by { assert("hrm"@.len() != "btgk"@.len()); }
    assert("hrm"@ != "ans"@) by { assert("hrm"@[0] != "ans"@[0]); }
    assert("hrm"@ != "dp"@) by { assert("hrm"@.len() != "dp"@.len()); }
    assert("hrm"@ != "syc"@) by { assert("hrm"@[0] != "syc"@[0]); }
    assert("hrm"@ != "pem"@) by { assert("hrm"@[0] != "pem"@[0]); }
    assert("hrm"@ != "sai"@) by { assert("hrm"@[0] != "sai"@[0]); }
    assert("hrm"@ != "ose"@) by { assert("hrm"@[0] != "ose"@[0]); }
    assert("hrm"@ != "mtm"@) by { assert("hrm"@[0] != "mtm"@[0]); }
    assert("hrm"@ != "otf"@) by { assert("hrm"@[0] != "otf"@[0]); }
    assert("hrm"@ != "eap"@) by { assert("hrm"@[0] != "eap"@[0]); }
    assert("hrm"@ != "fwm"@) by { assert("hrm"@[0] != "fwm"@[0]); }
    assert("hrm"@ != "gamf"@) by { assert("hrm"@.len() != "gamf"@.len()); }
    assert("hrm"@ != "ctr"@) by { assert("hrm"@[0] != "ctr"@[0]); }
    assert("hrm"@ != "faa"@) by { assert("hrm"@[0] != "faa"@[0]); }
    assert("hrm"@ != "mrm"@) by { assert("hrm"@[0] != "mrm"@[0]); }
    assert("hrm"@ != "mp"@) by { assert("hrm"@.len() != "mp"@.len()); }
    assert("hrm"@ != "eh"@) by { assert("hrm"@.len() != "eh"@.len()); }
    assert("mlp"@ != "csl"@) by { assert("mlp"@[0] != "csl"@[0]); }
    assert("mlp"@ != "dhw"@) by { assert("mlp"@[0] != "dhw"@[0]); }
    assert("mlp"@ != "fsn"@) by { assert("mlp"@[0] != "fsn"@[0]); }
    assert("mlp"@ != "sb"@) by { assert("mlp"@.len() != "sb"@.len()); }
    assert("mlp"@ != "lsc"@) by { assert("mlp"@[0] != "lsc"@[0]); }
    assert("mlp"@ != "te"@) by { assert("mlp"@.len() != "te"@.len()); }
    assert("mlp"@ != "fc"@) by { assert("mlp"@.len() != "fc"@.len()); }
    assert("mlp"@ != "dfat"@) by { assert("mlp"@.len() != "dfat"@.len()); }
    assert("mlp"@ != "btgk"@) by { assert("mlp"@.len() != "btgk"@.len()); }
    assert("mlp"@ != "ans"@) by { assert("mlp"@[0] != "ans"@[0]); }
    assert("mlp"@ != "dp"@) by { assert("mlp"@.len() != "dp"@.len()); }
    assert("mlp"@ != "syc"@) by { assert("mlp"@[0] != "syc"@[0]); }
    assert("mlp"@ != "pem"@) by { assert("mlp"@[0] != "pem"@[0]); }
    assert("mlp"@ != "sai"@) by { assert("mlp"@[0] != "sai"@[0]); }
    assert("mlp"@ != "ose"@) by { assert("mlp"@[0] != "ose"@[0]); }
    assert("mlp"@ != "mtm"@) by { assert("mlp"@[1] != "mtm"@[1]); }
    assert("mlp"@ != "otf"@) by { assert("mlp"@[0] != "otf"@[0]); }
    assert("mlp"@ != "eap"@) by { assert("mlp"@[0] != "eap"@[0]); }
    assert("mlp"@ != "fwm"@) by { assert("mlp"@[0] != "fwm"@[0]); }
    assert("mlp"@ != "gamf"@) by { assert("mlp"@.len() != "gamf"@.len()); }
    assert("mlp"@ != "ctr"@) by { assert("mlp"@[0] != "ctr"@[0]); }
    assert("mlp"@ != "faa"@) by { assert("mlp"@[0] != "faa"@[0]); }
    assert("mlp"@ != "mrm"@) by { assert("mlp"@[1] != "mrm"@[1]); }
    assert("mlp"@ != "mp"@) by { assert("mlp"@.len() != "mp"@.len()); }
    assert("mlp"@ != "eh"@) by { assert("mlp"@.len() != "eh"@.len()); }
    assert("mlp"@ != "hrm"@) by { assert("mlp"@[0] != "hrm"@[0]); }
    assert("faa"@ != "csl"@) by { assert("faa"@[0] != "csl"@[0]); }
    assert("faa"@ != "dhw"@) by { assert("faa"@[0] != "dhw"@[0]); }
    assert("faa"@ != "fsn"@) by { assert("faa"@[1] != "fsn"@[1]); }
    assert("faa"@ != "sb"@) by { assert("faa"@.len() != "sb"@.len()); }
    assert("faa"@ != "lsc"@) by { assert("faa"@[0] != "lsc"@[0]); }
    assert("faa"@ != "te"@) by { assert("faa"@.len() != "te"@.len()); }
    assert("faa"@ != "fc"@) by { assert("faa"@.len() != "fc"@.len()); }
    assert("faa"@ != "dfat"@) by { assert("faa"@.len() != "dfat"@.len()); }
    assert("faa"@ != "btgk"@) by { assert("faa"@.len() != "btgk"@.len()); }
    assert("faa"@ != "ans"@) by { assert("faa"@[0] != "ans"@[0]); }
    assert("faa"@ != "dp"@) by { assert("faa"@.len() != "dp"@.len()); }
    assert("faa"@ != "syc"@) by { assert("faa"@[0] != "syc"@[0]); }
    assert("faa"@ != "pem"@) by { assert("faa"@[0] != "pem"@[0]); }
    assert("faa"@ != "sai"@) by { assert("faa"@[0] != "sai"@[0]); }
    assert("faa"@ != "ose"@) by { assert("faa"@[0] != "ose"@[0]); }
    assert("faa"@ != "mtm"@) by { assert("faa"@[0] != "mtm"@[0]); }
    assert("faa"@ != "otf"@) by { assert("faa"@[0] != "otf"@[0]); }
    assert("faa"@ != "eap"@) by { assert("faa"@[0] != "eap"@[0]); }
    assert("faa"@ != "fwm"@) by { assert("faa"@[1] != "fwm"@[1]); }
    assert("faa"@ != "gamf"@) by { assert("faa"@.len() != "gamf"@.len()); }
    assert("faa"@ != "ctr"@) by { assert("faa"@[0] != "ctr"@[0]); }
    assert("mrm"@ != "csl"@) by { assert("mrm"@[0] != "csl"@[0]); }
    assert("mrm"@ != "dhw"@) by { assert("mrm"@[0] != "dhw"@[0]); }
    assert("mrm"@ != "fsn"@) by { assert("mrm"@[0] != "fsn"@[0]); }
    assert("mrm"@ != "sb"@) by { assert("mrm"@.len() != "sb"@.len()); }
    assert("mrm"@ != "lsc"@) by { assert("mrm"@[0] != "lsc"@[0]); }
    assert("mrm"@ != "te"@) by { assert("mrm"@.len() != "te"@.len()); }
    assert("mrm"@ != "fc"@) by { assert("mrm"@.len() != "fc"@.len()); }
    assert("mrm"@ != "dfat"@) by { assert("mrm"@.len() != "dfat"@.len()); }
    assert("mrm"@ != "btgk"@) by { assert("mrm"@.len() != "btgk"@.len()); }
    assert("mrm"@ != "ans"@) by { assert("mrm"@[0] != "ans"@[0]); }
    assert("mrm"@ != "dp"@) by { assert("mrm"@.len() != "dp"@.len()); }
    assert("mrm"@ != "syc"@) by { assert("mrm"@[0] != "syc"@[0]); }
    assert("mrm"@ != "pem"@) by { assert("mrm"@[0] != "pem"@[0]); }
    assert("mrm"@ != "sai"@) by { assert("mrm"@[0] != "sai"@[0]); }
    assert("mrm"@ != "ose"@) by { assert("mrm"@[0] != "ose"@[0]); }
    assert("mrm"@ != "mtm"@) by { assert("mrm"@[1] != "mtm"@[1]); }
    assert("mrm"@ != "otf"@) by { assert("mrm"@[0] != "otf"@[0]); }
    assert("mrm"@ != "eap"@) by { assert("mrm"@[0] != "eap"@[0]); }
    assert("mrm"@ != "fwm"@) by { assert("mrm"@[0] != "fwm"@[0]); }
    assert("mrm"@ != "gamf"@) by { assert("mrm"@.len() != "gamf"@.len()); }
    assert("mrm"@ != "ctr"@) by { assert("mrm"@[0] != "ctr"@[0]); }
    assert("mrm"@ != "faa"@) by { assert("mrm"@[0] != "faa"@[0]); }
    assert("mp"@ != "csl"@) by { assert("mp"@.len() != "csl"@.len()); }
    assert("mp"@ != "dhw"@) by { assert("mp"@.len() != "dhw"@.len()); }
    assert("mp"@ != "fsn"@) by { assert("mp"@.len() != "fsn"@.len()); }
    assert("mp"@ != "sb"@) by { assert("mp"@[0] != "sb"@[0]); }
    assert("mp"@ != "lsc"@) by { assert("mp"@.len() != "lsc"@.len()); }
    assert("mp"@ != "te"@) by { assert("mp"@[0] != "te"@[0]); }
    assert("mp"@ != "fc"@) by { assert("mp"@[0] != "fc"@[0]); }
    assert("mp"@ != "dfat"@) by { assert("mp"@.len() != "dfat"@.len()); }
    assert("mp"@ != "btgk"@) by { assert("mp"@.len() != "btgk"@.len()); }
    assert("mp"@ != "ans"@) by { assert("mp"@.len() != "ans"@.len()); }
    assert("mp"@ != "dp"@) by { assert("mp"@[0] != "dp"@[0]); }
    assert("mp"@ != "syc"@) by { assert("mp"@.len() != "syc"@.len()); }
    assert("mp"@ != "pem"@) by { assert("mp"@.len() != "pem"@.len()); }
    assert("mp"@ != "sai"@) by { assert("mp"@.len() != "sai"@.len()); }
    assert("mp"@ != "ose"@) by { assert("mp"@.len() != "ose"@.len()); }
    assert("mp"@ != "mtm"@) by { assert("mp"@.len() != "mtm"@.len()); }
    assert("mp"@ != "otf"@) by { assert("mp"@.len() != "otf"@.len()); }
    assert("mp"@ != "eap"@) by { assert("mp"@.len() != "eap"@.len()); }
    assert("mp"@ != "fwm"@) by { assert("mp"@.len() != "fwm"@.len()); }
    assert("mp"@ != "gamf"@) by { assert("mp"@.len() != "gamf"@.len()); }
    assert("mp"@ != "ctr"@) by { assert("mp"@.len() != "ctr"@.len()); }
    assert("mp"@ != "faa"@) by { assert("mp"@.len() != "faa"@.len()); }
    assert("mp"@ != "mrm"@) by { assert("mp"@.len() != "mrm"@.len()); }
    assert("sai"@ != "csl"@) by { assert("sai"@[0] != "csl"@[0]); }
    assert("sai"@ != "dhw"@) by { assert("sai"@[0] != "dhw"@[0]); }
    assert("sai"@ != "fsn"@) by { assert("sai"@[0] != "fsn"@[0]); }
    assert("sai"@ != "sb"@) by { assert("sai"@.len() != "sb"@.len()); }
    assert("sai"@ != "lsc"@) by { assert("sai"@[0] != "lsc"@[0]); }
    assert("sai"@ != "te"@) by { assert("sai"@.len() != "te"@.len()); }
    assert("sai"@ != "fc"@) by { assert("sai"@.len() != "fc"@.len()); }
    assert("sai"@ != "dfat"@) by { assert("sai"@.len() != "dfat"@.len()); }
    assert("sai"@ != "btgk"@) by { assert("sai"@.len() != "btgk"@.len()); }
    assert("sai"@ != "ans"@) by { assert("sai"@[0] != "ans"@[0]); }
    assert("sai"@ != "dp"@) by { assert("sai"@.len() != "dp"@.len()); }
    assert("sai"@ != "syc"@) by { assert("sai"@[1] != "syc"@[1]); }
    assert("sai"@ != "pem"@) by { assert("sai"@[0] != "pem"@[0]); }
    assert("dhw"@ != "csl"@) by { assert("dhw"@[0] != "csl"@[0]); }
    assert("fsn"@ != "csl"@) by { assert("fsn"@[0] != "csl"@[0]); }
    assert("fsn"@ != "dhw"@) by { assert("fsn"@[0] != "dhw"@[0]); }
    assert("dp"@ != "csl"@) by { assert("dp"@.len() != "csl"@.len()); }
    assert("dp"@ != "dhw"@) by { assert("dp"@.len() != "dhw"@.len()); }
    assert("dp"@ != "fsn"@) by { assert("dp"@.len() != "fsn"@.len()); }
    assert("dp"@ != "sb"@) by { assert("dp"@[0] != "sb"@[0]); }
    assert("dp"@ != "lsc"@) by { assert("dp"@.len() != "lsc"@.len()); }
    assert("dp"@ != "te"@) by { assert("dp"@[0] != "te"@[0]); }
    assert("dp"@ != "fc"@) by { assert("dp"@[0] != "fc"@[0]); }
    assert("dp"@ != "dfat"@) by { assert("dp"@.len() != "dfat"@.len()); }
    assert("dp"@ != "btgk"@) by { assert("dp"@.len() != "btgk"@.len()); }
    assert("dp"@ != "ans"@) by { assert("dp"@.len() != "ans"@.len()); }
    assert("sb"@ != "csl"@) by { assert("sb"@.len() != "csl"@.len()); }
    assert("sb"@ != "dhw"@) by { assert("sb"@.len() != "dhw"@.len()); }
    assert("sb"@ != "fsn"@) by { assert("sb"@.len() != "fsn"@.len()); }
    assert("syc"@ != "csl"@) by { assert("syc"@[0] != "csl"@[0]); }
    assert("syc"@ != "dhw"@) by { assert("syc"@[0] != "dhw"@[0]); }
    assert("syc"@ != "fsn"@) by { assert("syc"@[0] != "fsn"@[0]); }
    assert("syc"@ != "sb"@) by { assert("syc"@.len() != "sb"@.len()); }
    assert("syc"@ != "lsc"@) by { assert("syc"@[0] != "lsc"@[0]); }
    assert("syc"@ != "te"@) by { assert("syc"@.len() != "te"@.len()); }
    assert("syc"@ != "fc"@) by { assert("syc"@.len() != "fc"@.len()); }
    assert("syc"@ != "dfat"@) by { assert("syc"@.len() != "dfat"@.len()); }
    assert("syc"@ != "btgk"@) by { assert("syc"@.len() != "btgk"@.len()); }
    assert("syc"@ != "ans"@) by { assert("syc"@[0] != "ans"@[0]); }
    assert("syc"@ != "dp"@) by { assert("syc"@.len() != "dp"@.len()); }
    assert("pem"@ != "csl"@) by { assert("pem"@[0] != "csl"@[0]); }
    assert("pem"@ != "dhw"@) by { assert("pem"@[0] != "dhw"@[0]); }
    assert("pem"@ != "fsn"@) by { assert("pem"@[0] != "fsn"@[0]); }
    assert("pem"@ != "sb"@) by { assert("pem"@.len() != "sb"@.len()); }
    assert("pem"@ != "lsc"@) by { assert("pem"@[0] != "lsc"@[0]); }
    assert("pem"@ != "te"@) by { assert("pem"@.len() != "te"@.len()); }
    assert("pem"@ != "fc"@) by { assert("pem"@.len() != "fc"@.len()); }
    assert("pem"@ != "dfat"@) by { assert("pem"@.len() != "dfat"@.len()); }
    assert("pem"@ != "btgk"@) by { assert("pem"@.len() != "btgk"@.len()); }
    assert("pem"@ != "ans"@) by { assert("pem"@[0] != "ans"@[0]); }
    assert("pem"@ != "dp"@) by { assert("pem"@.len() != "dp"@.len()); }
    assert("pem"@ != "syc"@) by { assert("pem"@[0] != "syc"@[0]); }
    assert("ans"@ != "csl"@) by { assert("ans"@[0] != "csl"@[0]); }
    assert("ans"@ != "dhw"@) by { assert("ans"@[0] != "dhw"@[0]); }
    assert("ans"@ != "fsn"@) by { assert("ans"@[0] != "fsn"@[0]); }
    assert("ans"@ != "sb"@) by { assert("ans"@.len() != "sb"@.len()); }
    assert("ans"@ != "lsc"@) by { assert("ans"@[0] != "lsc"@[0]); }
    assert("ans"@ != "te"@) by { assert("ans"@.len() != "te"@.len()); }
    assert("ans"@ != "fc"@) by { assert("ans"@.len() != "fc"@.len()); }
    assert("ans"@ != "dfat"@) by { assert("ans"@.len() != "dfat"@.len()); }
    assert("ans"@ != "btgk"@) by { assert("ans"@.len() != "btgk"@.len()); }
    assert("dfat"@ != "csl"@) by { assert("dfat"@.len() != "csl"@.len()); }
    assert("dfat"@ != "dhw"@) by { assert("dfat"@.len() != "dhw"@.len()); }
    assert("dfat"@ != "fsn"@) by { assert("dfat"@.len() != "fsn"@.len()); }
    assert("dfat"@ != "sb"@) by { assert("dfat"@.len() != "sb"@.len()); }
    assert("dfat"@ != "lsc"@) by { assert("dfat"@.len() != "lsc"@.len()); }
    assert("dfat"@ != "te"@) by { assert("dfat"@.len() != "te"@.len()); }
    assert("dfat"@ != "fc"@) by { assert("dfat"@.len() != "fc"@.len()); }
    assert("fc"@ != "csl"@) by { assert("fc"@.len() != "csl"@.len()); }
    assert("fc"@ != "dhw"@) by { assert("fc"@.len() != "dhw"@.len()); }
    assert("fc"@ != "fsn"@) by { assert("fc"@.len() != "fsn"@.len()); }
    assert("fc"@ != "sb"@) by { assert("fc"@[0] != "sb"@[0]); }
    assert("fc"@ != "lsc"@) by { assert("fc"@.len() != "lsc"@.len()); }
    assert("fc"@ != "te"@) by { assert("fc"@[0] != "te"@[0]); }
    assert("lsc"@ != "csl"@) by { assert("lsc"@[0] != "csl"@[0]); }
    assert("lsc"@ != "dhw"@) by { assert("lsc"@[0] != "dhw"@[0]); }
    assert("lsc"@ != "fsn"@) by { assert("lsc"@[0] != "fsn"@[0]); }
    assert("lsc"@ != "sb"@) by { assert("lsc"@.len() != "sb"@.len()); }
    assert("te"@ != "csl"@) by { assert("te"@.len() != "csl"@.len()); }
    assert("te"@ != "dhw"@) by { assert("te"@.len() != "dhw"@.len()); }
    assert("te"@ != "fsn"@) by { assert("te"@.len() != "fsn"@.len()); }
    assert("te"@ != "sb"@) by { assert("te"@[0] != "sb"@[0]); }
    assert("te"@ != "lsc"@) by { assert("te"@.len() != "lsc"@.len()); }
    assert("btgk"@ != "csl"@) by { assert("btgk"@.len() != "csl"@.len()); }
    assert("btgk"@ != "dhw"@) by { assert("btgk"@.len() != "dhw"@.len()); }
    assert("btgk"@ != "fsn"@) by { assert("btgk"@.len() != "fsn"@.len()); }
    assert("btgk"@ != "sb"@) by { assert("btgk"@.len() != "sb"@.len()); }
    assert("btgk"@ != "lsc"@) by { assert("btgk"@.len() != "lsc"@.len()); }
    assert("btgk"@ != "te"@) by { assert("btgk"@.len() != "te"@.len()); }
    assert("btgk"@ != "fc"@) by { assert("btgk"@.len() != "fc"@.len()); }
    assert("btgk"@ != "dfat"@) by { assert("btgk"@[0] != "dfat"@[0]); }
    assert(spec_requirement_for("eap"@) == Some(Requirement::Units(UnitTest::Base(0), 4)));
    assert(spec_requirement_for("fwm"@) == Some(Requirement::Units(UnitTest::Base(1), 3)));
    assert(spec_requirement_for("gamf"@) == Some(Requirement::Units(UnitTest::Base(2), 5)));
    assert(spec_requirement_for("ctr"@) == Some(Requirement::ShipsInSystems(6)));
    assert(spec_requirement_for("ose"@) == Some(Requirement::HoldMecatol(3)));
    assert(spec_requirement_for("mtm"@) == Some(Requirement::MechsOnDistinctPlanets(4)));
    assert(spec_requirement_for("otf"@) == Some(Requirement::GroundForcesOnOnePlanet(9)));
    assert(spec_requirement_for("eh"@) == Some(Requirement::Planets(Measure::Influence, 12)));
    assert(spec_requirement_for("hrm"@) == Some(Requirement::Planets(Measure::Resources, 12)));
    assert(spec_requirement_for("mlp"@) == Some(Requirement::SameColourTechnologies(4)));
}

/// The plastic each slot of a unit count names: slot 0 PDS, 1 space docks, 2 dreadnoughts.
pub proof fn unit_slots_name_their_plastic()
    ensures
        base_name(0) == "pds"@,
        base_name(1) == "spacedock"@,
        base_name(2) == "dreadnought"@,
{
}

} // verus!
