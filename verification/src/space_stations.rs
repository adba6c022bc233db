//! Space station control (Thunder's Edge).
//!
//! A player gains control of a space station when they are the only player with units in its
//! system (rule 2); a second player arriving does not take it until they win the combat (2a), and
//! a controller moving out keeps it until another player moves in (2b). Control is therefore a
//! function of occupancy: exactly one player with units in the system controls every station in
//! it, and anything else leaves control exactly as it was. Re-running this after combat removes
//! the loser's units is what finally transfers a station.

use vstd::prelude::*;
use crate::state::{contains_name, names, GameState, SystemState, Unit};
use crate::text::str_eq;
use crate::transit::{find_system, system_index};

verus! {

/// Who has a unit in a system, one entry per unit: the space area first, then each planet.
pub open spec fn owners(system: SystemState) -> Seq<Seq<char>> {
    owners_of(system.units@) + planet_owners(system.planet_units@)
}

pub open spec fn owners_of(units: Seq<Unit>) -> Seq<Seq<char>> {
    units.map_values(|u: Unit| u.owner@)
}

pub open spec fn planet_owners(planets: Seq<(String, Vec<Unit>)>) -> Seq<Seq<char>>
    decreases planets.len(),
{
    if planets.len() == 0 {
        Seq::empty()
    } else {
        planet_owners(planets.drop_last()) + owners_of(planets.last().1@)
    }
}

/// The one player with units in the system, or `None` when it is empty or contested. Units,
/// not ships: ground forces left on a planet in the system are presence too.
pub open spec fn sole_occupant(system: SystemState) -> Option<Seq<char>> {
    let who = owners(system);
    if who.len() > 0 && forall|i: int| 0 <= i < who.len() ==> #[trigger] who[i] == who[0] {
        Some(who[0])
    } else {
        None
    }
}

/// Who controls a planet: its first control entry, or nobody.
pub open spec fn control_of(control: Seq<(String, String)>, planet: Seq<char>) -> Option<Seq<char>>
    decreases control.len(),
{
    if control.len() == 0 {
        None
    } else if control[0].0@ == planet {
        Some(control[0].1@)
    } else {
        control_of(control.drop_first(), planet)
    }
}

/// Who controls a planet once station control is settled: the sole occupant for each station,
/// and the previous holder for everything else.
pub open spec fn reconciled_control(system: SystemState, stations: Seq<Seq<char>>, planet: Seq<char>) -> Option<Seq<char>> {
    match sole_occupant(system) {
        Some(owner) => if stations.contains(planet) {
            Some(owner)
        } else {
            control_of(system.planet_control@, planet)
        },
        None => control_of(system.planet_control@, planet),
    }
}

/// Whether settling station control changes anything.
pub open spec fn reconcile_changes(system: SystemState, stations: Seq<Seq<char>>) -> bool {
    match sole_occupant(system) {
        Some(owner) => exists|k: int| 0 <= k < stations.len() && control_of(system.planet_control@, #[trigger] stations[k]) != Some(owner),
        None => false,
    }
}

/// Settling control twice is settling it once: the second pass changes nothing and leaves
/// control where the first put it, as long as nobody moved in between.
pub proof fn reconcile_is_idempotent(before: SystemState, after: SystemState, stations: Seq<Seq<char>>)
    requires
        owners(after) == owners(before),
        forall|p: Seq<char>| #[trigger] control_of(after.planet_control@, p) == reconciled_control(before, stations, p),
    ensures
        !reconcile_changes(after, stations),
        forall|p: Seq<char>| #[trigger] reconciled_control(after, stations, p) == reconciled_control(before, stations, p),
{
    assert(sole_occupant(after) == sole_occupant(before));
    if let Some(owner) = sole_occupant(after) {
        assert forall|k: int| 0 <= k < stations.len() implies control_of(after.planet_control@, #[trigger] stations[k]) == Some(owner) by {
            assert(stations.contains(stations[k]));
        }
    }
}

proof fn lemma_planet_owners_push(planets: Seq<(String, Vec<Unit>)>, k: int)
    requires
        0 <= k < planets.len(),
    ensures
        planet_owners(planets.subrange(0, k + 1)) == planet_owners(planets.subrange(0, k)) + owners_of(planets[k].1@),
{
    assert(planets.subrange(0, k + 1).drop_last() =~= planets.subrange(0, k));
}

/// Whether every owner in a list is `who`.
fn all_are(units: &Vec<Unit>, who: &str) -> (all: bool)
    ensures
        all == forall|i: int| 0 <= i < units@.len() ==> (#[trigger] units@[i]).owner@ == who@,
{
    let mut k: usize = 0;
    while k < units.len()
        invariant
            k <= units@.len(),
            forall|i: int| 0 <= i < k ==> (#[trigger] units@[i]).owner@ == who@,
        decreases units@.len() - k,
    {
        if !str_eq(units[k].owner.as_str(), who) {
            return false;
        }
        k = k + 1;
    }
    true
}

/// The first owner in the system, if any unit stands there.
fn first_owner(system: &SystemState) -> (first: Option<String>)
    ensures
        match first {
            Some(o) => owners(*system).len() > 0 && owners(*system)[0] == o@,
            None => owners(*system).len() == 0,
        },
{
    if system.units.len() > 0 {
        return Some(system.units[0].owner.clone());
    }
    let mut k: usize = 0;
    assert(planet_owners(system.planet_units@.subrange(0, 0)) =~= Seq::<Seq<char>>::empty());
    while k < system.planet_units.len()
        invariant
            k <= system.planet_units@.len(),
            system.units@.len() == 0,
            planet_owners(system.planet_units@.subrange(0, k as int)).len() == 0,
        decreases system.planet_units@.len() - k,
    {
        proof {
            lemma_planet_owners_push(system.planet_units@, k as int);
        }
        if system.planet_units[k].1.len() > 0 {
            let o = system.planet_units[k].1[0].owner.clone();
            proof {
                lemma_planet_owners_prefix(system.planet_units@, k as int + 1);
                let p = planet_owners(system.planet_units@.subrange(0, k + 1));
                assert(p[0] == owners_of(system.planet_units@[k as int].1@)[0]);
                assert(owners(*system) =~= owners_of(system.units@) + planet_owners(system.planet_units@));
                assert(owners_of(system.units@) =~= Seq::<Seq<char>>::empty());
            }
            return Some(o);
        }
        k = k + 1;
    }
    assert(system.planet_units@.subrange(0, system.planet_units@.len() as int) =~= system.planet_units@);
    assert(owners_of(system.units@) =~= Seq::<Seq<char>>::empty());
    None
}

/// A prefix's owners begin the whole list's owners.
proof fn lemma_planet_owners_prefix(planets: Seq<(String, Vec<Unit>)>, k: int)
    requires
        0 <= k <= planets.len(),
    ensures
        planet_owners(planets) == planet_owners(planets.subrange(0, k)) + planet_owners(planets.subrange(k, planets.len() as int)),
    decreases planets.len() - k,
{
    if k == planets.len() {
        assert(planets.subrange(0, k) =~= planets);
        assert(planets.subrange(k, planets.len() as int) =~= Seq::<(String, Vec<Unit>)>::empty());
        assert(planet_owners(planets) + Seq::<Seq<char>>::empty() =~= planet_owners(planets));
    } else {
        lemma_planet_owners_prefix(planets, k + 1);
        lemma_planet_owners_push(planets, k);
        lemma_planet_owners_suffix(planets, k);
        assert(planet_owners(planets.subrange(0, k)) + owners_of(planets[k].1@) + planet_owners(
            planets.subrange(k + 1, planets.len() as int),
        ) =~= planet_owners(planets.subrange(0, k)) + (owners_of(planets[k].1@) + planet_owners(
            planets.subrange(k + 1, planets.len() as int),
        )));
    }
}

/// The owners of a suffix are its first planet's owners, then the rest's.
proof fn lemma_planet_owners_suffix(planets: Seq<(String, Vec<Unit>)>, k: int)
    requires
        0 <= k < planets.len(),
    ensures
        planet_owners(planets.subrange(k, planets.len() as int)) == owners_of(planets[k].1@) + planet_owners(
            planets.subrange(k + 1, planets.len() as int),
        ),
    decreases planets.len() - k,
{
    let s = planets.subrange(k, planets.len() as int);
    if k + 1 == planets.len() {
        assert(s.drop_last() =~= Seq::<(String, Vec<Unit>)>::empty());
        assert(planets.subrange(k + 1, planets.len() as int) =~= Seq::<(String, Vec<Unit>)>::empty());
        assert(Seq::<Seq<char>>::empty() + owners_of(planets[k].1@) =~= owners_of(planets[k].1@) + Seq::<Seq<char>>::empty());
    } else {
        lemma_planet_owners_suffix(planets, k + 1);
        assert(s.drop_last() =~= planets.subrange(k, planets.len() - 1));
        lemma_planet_owners_suffix(planets.subrange(0, planets.len() - 1), k);
        assert(planets.subrange(0, planets.len() - 1).subrange(k, planets.len() - 1) =~= planets.subrange(k, planets.len() - 1));
        assert(planets.subrange(0, planets.len() - 1).subrange(k + 1, planets.len() - 1) =~= planets.subrange(k + 1, planets.len() - 1));
        let t = planets.subrange(k + 1, planets.len() as int);
        assert(t.drop_last() =~= planets.subrange(k + 1, planets.len() - 1));
        assert(s.last() == t.last());
        assert(owners_of(planets[k].1@) + planet_owners(planets.subrange(k + 1, planets.len() - 1)) + owners_of(s.last().1@)
            =~= owners_of(planets[k].1@) + (planet_owners(planets.subrange(k + 1, planets.len() - 1)) + owners_of(t.last().1@)));
    }
}

/// The one player with units in the system, or `None` when it is empty or contested.
fn sole(system: &SystemState) -> (who: Option<String>)
    ensures
        match who {
            Some(o) => sole_occupant(*system) == Some(o@),
            None => sole_occupant(*system) is None,
        },
{
    let first = match first_owner(system) {
        Some(o) => o,
        None => return None,
    };
    let ghost all = owners(*system);
    if !all_are(&system.units, first.as_str()) {
        proof {
            let i = choose|i: int| 0 <= i < system.units@.len() && !((#[trigger] system.units@[i]).owner@ == first@);
            assert(all[i] == system.units@[i].owner@);
        }
        return None;
    }
    let mut k: usize = 0;
    assert(planet_owners(system.planet_units@.subrange(0, 0)) =~= Seq::<Seq<char>>::empty());
    while k < system.planet_units.len()
        invariant
            k <= system.planet_units@.len(),
            all == owners(*system),
            all.len() > 0,
            all[0] == first@,
            forall|i: int| 0 <= i < system.units@.len() ==> (#[trigger] system.units@[i]).owner@ == first@,
            forall|i: int| 0 <= i < planet_owners(system.planet_units@.subrange(0, k as int)).len()
                ==> #[trigger] planet_owners(system.planet_units@.subrange(0, k as int))[i] == first@,
        decreases system.planet_units@.len() - k,
    {
        proof {
            lemma_planet_owners_push(system.planet_units@, k as int);
        }
        if !all_are(&system.planet_units[k].1, first.as_str()) {
            proof {
                let units = system.planet_units@[k as int].1@;
                let i = choose|i: int| 0 <= i < units.len() && !((#[trigger] units[i]).owner@ == first@);
                lemma_planet_owners_prefix(system.planet_units@, k as int + 1);
                let before = planet_owners(system.planet_units@.subrange(0, k as int));
                let at = system.units@.len() + before.len() + i;
                assert(owners(*system) =~= owners_of(system.units@) + planet_owners(system.planet_units@));
                assert(all[at] == units[i].owner@);
            }
            return None;
        }
        k = k + 1;
    }
    proof {
        assert(system.planet_units@.subrange(0, system.planet_units@.len() as int) =~= system.planet_units@);
        assert(owners(*system) =~= owners_of(system.units@) + planet_owners(system.planet_units@));
        assert forall|i: int| 0 <= i < all.len() implies #[trigger] all[i] == all[0] by {
            if i < system.units@.len() {
                assert(all[i] == system.units@[i].owner@);
            } else {
                assert(all[i] == planet_owners(system.planet_units@)[i - system.units@.len()]);
            }
        }
    }
    Some(first)
}

proof fn lemma_control_of_skip(control: Seq<(String, String)>, k: int, planet: Seq<char>)
    requires
        0 <= k <= control.len(),
        forall|j: int| 0 <= j < k ==> (#[trigger] control[j]).0@ != planet,
    ensures
        control_of(control, planet) == control_of(control.subrange(k, control.len() as int), planet),
    decreases k,
{
    if k > 0 {
        lemma_control_of_skip(control.drop_first(), k - 1, planet);
        assert(control.drop_first().subrange(k - 1, control.drop_first().len() as int) =~= control.subrange(k, control.len() as int));
    } else {
        assert(control.subrange(0, control.len() as int) =~= control);
    }
}

/// Give a planet to a player: its first entry changes hands, or a new entry is added.
fn set_control(control: &mut Vec<(String, String)>, planet: &str, player: &str)
    ensures
        control_of(final(control)@, planet@) == Some(player@),
        forall|p: Seq<char>| p != planet@ ==> #[trigger] control_of(final(control)@, p) == control_of(old(control)@, p),
{
    let mut k: usize = 0;
    while k < control.len()
        invariant
            control@ == old(control)@,
            k <= control@.len(),
            forall|j: int| 0 <= j < k ==> (#[trigger] control@[j]).0@ != planet@,
        decreases control@.len() - k,
    {
        if str_eq(control[k].0.as_str(), planet) {
            let entry = (control[k].0.clone(), player.to_string());
            control.set(k, entry);
            proof {
                assert forall|p: Seq<char>| #[trigger] control_of(control@, p) == (if p == planet@ {
                    Some(player@)
                } else {
                    control_of(old(control)@, p)
                }) by {
                    lemma_control_of_update(old(control)@, k as int, entry, p);
                }
            }
            return;
        }
        k = k + 1;
    }
    let entry = (planet.to_string(), player.to_string());
    control.push(entry);
    proof {
        assert forall|p: Seq<char>| #[trigger] control_of(control@, p) == (if p == planet@ {
            Some(player@)
        } else {
            control_of(old(control)@, p)
        }) by {
            lemma_control_of_append(old(control)@, entry, p);
        }
    }
}

proof fn lemma_control_of_update(control: Seq<(String, String)>, k: int, entry: (String, String), p: Seq<char>)
    requires
        0 <= k < control.len(),
        control[k].0@ == entry.0@,
        forall|j: int| 0 <= j < k ==> (#[trigger] control[j]).0@ != entry.0@,
    ensures
        control_of(control.update(k, entry), p) == (if p == entry.0@ { Some(entry.1@) } else { control_of(control, p) }),
    decreases k,
{
    let updated = control.update(k, entry);
    if k > 0 {
        lemma_control_of_update(control.drop_first(), k - 1, entry, p);
        assert(updated.drop_first() =~= control.drop_first().update(k - 1, entry));
        assert(updated[0] == control[0]);
    } else {
        assert(updated.drop_first() =~= control.drop_first());
        assert(updated[0] == entry);
    }
}

proof fn lemma_control_of_append(control: Seq<(String, String)>, entry: (String, String), p: Seq<char>)
    requires
        forall|j: int| 0 <= j < control.len() ==> (#[trigger] control[j]).0@ != entry.0@,
    ensures
        control_of(control.push(entry), p) == (if p == entry.0@ { Some(entry.1@) } else { control_of(control, p) }),
    decreases control.len(),
{
    let pushed = control.push(entry);
    if control.len() > 0 {
        lemma_control_of_append(control.drop_first(), entry, p);
        assert(pushed.drop_first() =~= control.drop_first().push(entry));
        assert(pushed[0] == control[0]);
    } else {
        assert(pushed.drop_first() =~= Seq::<(String, String)>::empty());
        assert(pushed[0] == entry);
        assert(control_of(pushed.drop_first(), p) is None);
    }
}

/// Settle station control in one system, given the stations printed in it. Returns whether
/// anything changed; nothing but control of the stations can.
pub fn reconcile_system(system: &mut SystemState, stations: &Vec<String>) -> (changed: bool)
    ensures
        changed == reconcile_changes(*old(system), names(stations@)),
        final(system).id == old(system).id,
        final(system).units == old(system).units,
        final(system).planet_units == old(system).planet_units,
        final(system).command_tokens == old(system).command_tokens,
        forall|p: Seq<char>| #[trigger] control_of(final(system).planet_control@, p) == reconciled_control(*old(system), names(stations@), p),
{
    let owner = match sole(system) {
        Some(o) => o,
        None => return false,
    };
    let mut changed = false;
    let mut k: usize = 0;
    while k < stations.len()
        invariant
            k <= stations@.len(),
            sole_occupant(*old(system)) == Some(owner@),
            system.id == old(system).id,
            system.units == old(system).units,
            system.planet_units == old(system).planet_units,
            system.command_tokens == old(system).command_tokens,
            forall|p: Seq<char>| #[trigger] control_of(system.planet_control@, p) == if names(stations@.subrange(0, k as int)).contains(p) {
                Some(owner@)
            } else {
                control_of(old(system).planet_control@, p)
            },
            changed == exists|j: int| 0 <= j < k && control_of(old(system).planet_control@, #[trigger] names(stations@)[j]) != Some(owner@),
        decreases stations@.len() - k,
    {
        let station = stations[k].as_str();
        let ghost prefix = names(stations@.subrange(0, k as int));
        proof {
            assert(names(stations@.subrange(0, k + 1)) =~= prefix.push(station@));
        }
        let held = current_control(&system.planet_control, station);
        let already = match &held {
            Some(h) => str_eq(h.as_str(), owner.as_str()),
            None => false,
        };
        proof {
            let now = control_of(system.planet_control@, station@);
            if prefix.contains(station@) {
                let w = choose|w: int| 0 <= w < prefix.len() && prefix[w] == station@;
                assert(names(stations@)[w] == station@);
            }
        }
        if !already {
            set_control(&mut system.planet_control, station, owner.as_str());
            changed = true;
        }
        proof {
            assert(names(stations@)[k as int] == station@);
            assert forall|p: Seq<char>| #[trigger] control_of(system.planet_control@, p) == if names(stations@.subrange(0, k + 1)).contains(p) {
                Some(owner@)
            } else {
                control_of(old(system).planet_control@, p)
            } by {
                if p == station@ {
                    assert(names(stations@.subrange(0, k + 1))[k as int] == station@);
                } else {
                    if prefix.push(station@).contains(p) {
                        let w = choose|w: int| 0 <= w < prefix.push(station@).len() && prefix.push(station@)[w] == p;
                        assert(prefix[w] == p);
                    }
                    if prefix.contains(p) {
                        let w = choose|w: int| 0 <= w < prefix.len() && prefix[w] == p;
                        assert(prefix.push(station@)[w] == p);
                    }
                }
            }
            if already && prefix.contains(station@) {
            }
            if !already && !prefix.contains(station@) {
                assert(control_of(old(system).planet_control@, names(stations@)[k as int]) != Some(owner@));
            }
            if already && !prefix.contains(station@) {
                assert(control_of(old(system).planet_control@, names(stations@)[k as int]) == Some(owner@));
            }
        }
        k = k + 1;
    }
    proof {
        assert(stations@.subrange(0, stations@.len() as int) =~= stations@);
    }
    changed
}

/// Who controls a planet now, by its first entry.
fn current_control(control: &Vec<(String, String)>, planet: &str) -> (holder: Option<String>)
    ensures
        match holder {
            Some(h) => control_of(control@, planet@) == Some(h@),
            None => control_of(control@, planet@) is None,
        },
{
    let mut k: usize = 0;
    while k < control.len()
        invariant
            k <= control@.len(),
            forall|j: int| 0 <= j < k ==> (#[trigger] control@[j]).0@ != planet@,
        decreases control@.len() - k,
    {
        if str_eq(control[k].0.as_str(), planet) {
            proof {
                lemma_control_of_skip(control@, k as int, planet@);
            }
            return Some(control[k].1.clone());
        }
        k = k + 1;
    }
    proof {
        lemma_control_of_skip(control@, k as int, planet@);
    }
    None
}

/// Settle station control in the board's system with this id, with the stations its tile prints.
/// A system off the board holds nobody, so nothing changes.
pub fn reconcile(state: &mut GameState, tiles: &Vec<Tile>, station_cards: &Vec<String>, system: &str) -> (changed: bool)
    ensures
        ({
            let k = system_index(old(state).board@, system@);
            let stations = spec_stations_in(tiles@, names(station_cards@), system@);
            &&& k < 0 ==> !changed && *final(state) == *old(state)
            &&& k >= 0 ==> {
                &&& changed == reconcile_changes(old(state).board@[k], stations)
                &&& final(state).board@.len() == old(state).board@.len()
                &&& forall|j: int| 0 <= j < old(state).board@.len() && j != k ==> final(state).board@[j] == old(state).board@[j]
                &&& final(state).board@[k].id == old(state).board@[k].id
                &&& final(state).board@[k].units == old(state).board@[k].units
                &&& final(state).board@[k].planet_units == old(state).board@[k].planet_units
                &&& final(state).board@[k].command_tokens == old(state).board@[k].command_tokens
                &&& forall|p: Seq<char>| #[trigger] control_of(final(state).board@[k].planet_control@, p)
                    == reconciled_control(old(state).board@[k], stations, p)
                &&& *final(state) == (GameState { board: final(state).board, ..*old(state) })
            }
        }),
{
    let k = match find_system(&state.board, system) {
        Some(k) => k,
        None => return false,
    };
    let stations = stations_in(tiles, station_cards, system);
    let mut at = state.board.remove(k);
    let changed = reconcile_system(&mut at, &stations);
    state.board.insert(k, at);
    changed
}

/// A tile as printed: its id and the planet cards listed on it, space stations among them.
#[derive(Debug, Clone, PartialEq, Eq)]
pub struct Tile {
    pub id: String,
    pub planets: Vec<String>,
}

/// Where the tile with this id first appears in the catalogue, or -1.
pub open spec fn tile_index(tiles: Seq<Tile>, id: Seq<char>) -> int
    decreases tiles.len(),
{
    if tiles.len() == 0 {
        -1
    } else if tiles.last().id@ == id && tile_index(tiles.drop_last(), id) < 0 {
        tiles.len() - 1
    } else {
        tile_index(tiles.drop_last(), id)
    }
}

/// The stations printed in one system, in printed order: the planet cards of its tile that are
/// space stations. A system missing from the catalogue has none.
pub open spec fn spec_stations_in(tiles: Seq<Tile>, station_cards: Seq<Seq<char>>, system: Seq<char>) -> Seq<Seq<char>> {
    let k = tile_index(tiles, system);
    if k < 0 {
        Seq::empty()
    } else {
        names(tiles[k].planets@).filter(|p: Seq<char>| station_cards.contains(p))
    }
}

proof fn lemma_tile_index_bounds(tiles: Seq<Tile>, id: Seq<char>)
    ensures
        -1 <= tile_index(tiles, id) < tiles.len(),
        tile_index(tiles, id) >= 0 ==> tiles[tile_index(tiles, id)].id@ == id,
    decreases tiles.len(),
{
    if tiles.len() > 0 {
        lemma_tile_index_bounds(tiles.drop_last(), id);
    }
}

/// The tile with this id, by a left-to-right search.
fn find_tile(tiles: &Vec<Tile>, id: &str) -> (found: Option<usize>)
    ensures
        match found {
            Some(k) => k as int == tile_index(tiles@, id@),
            None => tile_index(tiles@, id@) < 0,
        },
{
    let mut k: usize = 0;
    while k < tiles.len()
        invariant
            k <= tiles@.len(),
            tile_index(tiles@.subrange(0, k as int), id@) < 0,
        decreases tiles@.len() - k,
    {
        proof {
            assert(tiles@.subrange(0, k + 1).drop_last() =~= tiles@.subrange(0, k as int));
        }
        if str_eq(tiles[k].id.as_str(), id) {
            proof {
                lemma_tile_index_prefix(tiles@, k as int + 1, id@);
            }
            return Some(k);
        }
        k = k + 1;
    }
    proof {
        assert(tiles@.subrange(0, k as int) =~= tiles@);
    }
    None
}

/// Once a prefix holds the id, the whole catalogue finds it at the same place.
proof fn lemma_tile_index_prefix(tiles: Seq<Tile>, n: int, id: Seq<char>)
    requires
        0 <= n <= tiles.len(),
        tile_index(tiles.subrange(0, n), id) >= 0,
    ensures
        tile_index(tiles, id) == tile_index(tiles.subrange(0, n), id),
    decreases tiles.len() - n,
{
    if n < tiles.len() {
        assert(tiles.subrange(0, n + 1).drop_last() =~= tiles.subrange(0, n));
        lemma_tile_index_prefix(tiles, n + 1, id);
    } else {
        assert(tiles.subrange(0, n) =~= tiles);
    }
}

/// The stations printed in one system, in printed order.
pub fn stations_in(tiles: &Vec<Tile>, station_cards: &Vec<String>, system: &str) -> (stations: Vec<String>)
    ensures
        names(stations@) == spec_stations_in(tiles@, names(station_cards@), system@),
{
    let k = match find_tile(tiles, system) {
        Some(k) => k,
        None => {
            let empty: Vec<String> = Vec::new();
            assert(names(empty@) =~= Seq::<Seq<char>>::empty());
            return empty;
        },
    };
    proof {
        lemma_tile_index_bounds(tiles@, system@);
    }
    let planets = &tiles[k].planets;
    let ghost all = names(planets@);
    let ghost pred = |p: Seq<char>| names(station_cards@).contains(p);
    let mut stations: Vec<String> = Vec::new();
    let mut i: usize = 0;
    assert(names(stations@) =~= all.subrange(0, 0).filter(pred)) by {
        reveal_with_fuel(Seq::<Seq<char>>::filter, 1);
        assert(all.subrange(0, 0) =~= Seq::<Seq<char>>::empty());
    }
    while i < planets.len()
        invariant
            i <= planets@.len(),
            all == names(planets@),
            pred == (|p: Seq<char>| names(station_cards@).contains(p)),
            names(stations@) == all.subrange(0, i as int).filter(pred),
        decreases planets@.len() - i,
    {
        proof {
            reveal_with_fuel(Seq::<Seq<char>>::filter, 1);
            assert(all.subrange(0, i + 1).drop_last() =~= all.subrange(0, i as int));
            assert(all.subrange(0, i + 1).last() == planets@[i as int]@);
        }
        if contains_name(station_cards, planets[i].as_str()) {
            let ghost before = stations@;
            let name = planets[i].clone();
            stations.push(name);
            assert(names(stations@) =~= names(before).push(name@));
        }
        i = i + 1;
    }
    assert(all.subrange(0, i as int) =~= all);
    stations
}

/// Settle station control on every system of the board, each with the stations its tile
/// prints. Returns whether anything changed; nothing but control of stations can.
pub fn reconcile_all(state: &mut GameState, tiles: &Vec<Tile>, station_cards: &Vec<String>) -> (changed: bool)
    ensures
        changed == exists|k: int| 0 <= k < old(state).board@.len() && reconcile_changes(
            #[trigger] old(state).board@[k],
            spec_stations_in(tiles@, names(station_cards@), old(state).board@[k].id@),
        ),
        final(state).board@.len() == old(state).board@.len(),
        forall|k: int| 0 <= k < old(state).board@.len() ==> {
            &&& (#[trigger] final(state).board@[k]).id == old(state).board@[k].id
            &&& final(state).board@[k].units == old(state).board@[k].units
            &&& final(state).board@[k].planet_units == old(state).board@[k].planet_units
            &&& final(state).board@[k].command_tokens == old(state).board@[k].command_tokens
            &&& forall|p: Seq<char>| #[trigger] control_of(final(state).board@[k].planet_control@, p)
                == reconciled_control(
                old(state).board@[k],
                spec_stations_in(tiles@, names(station_cards@), old(state).board@[k].id@),
                p,
            )
        },
        *final(state) == (GameState { board: final(state).board, ..*old(state) }),
{
    let mut changed = false;
    let mut k: usize = 0;
    while k < state.board.len()
        invariant
            k <= state.board@.len(),
            state.board@.len() == old(state).board@.len(),
            *state == (GameState { board: state.board, ..*old(state) }),
            forall|j: int| k <= j < old(state).board@.len() ==> #[trigger] state.board@[j] == old(state).board@[j],
            forall|j: int| 0 <= j < k ==> {
                &&& (#[trigger] state.board@[j]).id == old(state).board@[j].id
                &&& state.board@[j].units == old(state).board@[j].units
                &&& state.board@[j].planet_units == old(state).board@[j].planet_units
                &&& state.board@[j].command_tokens == old(state).board@[j].command_tokens
                &&& forall|p: Seq<char>| #[trigger] control_of(state.board@[j].planet_control@, p)
                    == reconciled_control(
                    old(state).board@[j],
                    spec_stations_in(tiles@, names(station_cards@), old(state).board@[j].id@),
                    p,
                )
            },
            changed == exists|j: int| 0 <= j < k && reconcile_changes(
                #[trigger] old(state).board@[j],
                spec_stations_in(tiles@, names(station_cards@), old(state).board@[j].id@),
            ),
        decreases old(state).board@.len() - k,
    {
        let stations = stations_in(tiles, station_cards, state.board[k].id.as_str());
        let ghost before = state.board@;
        let mut at = state.board.remove(k);
        let one = reconcile_system(&mut at, &stations);
        state.board.insert(k, at);
        proof {
            assert forall|j: int| 0 <= j < old(state).board@.len() && j != k implies #[trigger] state.board@[j] == before[j] by {
                if j < k {
                    assert(state.board@[j] == before[j]);
                } else {
                    assert(state.board@[j] == before[j]);
                }
            }
            if one {
                assert(reconcile_changes(old(state).board@[k as int], spec_stations_in(tiles@, names(station_cards@), old(state).board@[k as int].id@)));
            }
        }
        changed = changed || one;
        k = k + 1;
    }
    changed
}

} // verus!
