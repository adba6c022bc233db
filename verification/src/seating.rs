//! Seating players as factions, and the tile layout of an opening board.

use vstd::prelude::*;
use crate::state::{find_seat, names, seat_of, GameState, Seat, SystemState, Unit};
use crate::strategy_cards::with_names;
use crate::tech_windows::{entry_index, find_entry, find_system, pair_names, system_index};
use crate::text::str_eq;

verus! {

/// Mecatol Rex, which sits at the centre of the board.
pub const MECATOL: &'static str = "18";

/// Something went wrong seating a game.
#[derive(Debug, Clone, PartialEq, Eq)]
pub enum SeatingError {
    UnknownFaction(String),
    NoHomeSystem(String),
    UnknownPlayer(String),
    /// The board needs `wanted` filler tiles to space the homes, but was given `given`.
    NotEnoughFiller { wanted: usize, given: usize },
}

/// The factions this project plays: Sol, Hacan, Letnev, Xxcha, Jol-Nar and L1Z1X, in that order.
pub const IN_SCOPE_FACTIONS: [&'static str; 6] = ["sol", "hacan", "letnev", "xxcha", "jolnar", "l1z1x"];

/// The in-scope faction a seat at `index` plays: the list in order, starting over after the sixth.
pub open spec fn scope_faction(index: int) -> Seq<char> {
    IN_SCOPE_FACTIONS@[index % 6]@
}

/// Faction assignments for a table, taking the in-scope factions in order, as (player, faction)
/// in seating order. Seats beyond the sixth reuse the list from the start, so a larger table is
/// still playing factions this engine implements.
pub fn seat_in_scope(players: &Vec<String>) -> (seated: Vec<(String, String)>)
    ensures
        seated@.len() == players@.len(),
        forall|i: int| 0 <= i < players@.len() ==> (#[trigger] seated@[i]).0@ == players@[i]@
            && seated@[i].1@ == scope_faction(i),
{
    let mut seated: Vec<(String, String)> = Vec::new();
    let mut i: usize = 0;
    while i < players.len()
        invariant
            i <= players@.len(),
            seated@.len() == i,
            forall|j: int| 0 <= j < i ==> (#[trigger] seated@[j]).0@ == players@[j]@
                && seated@[j].1@ == scope_faction(j),
        decreases players@.len() - i,
    {
        let faction = IN_SCOPE_FACTIONS[i % 6];
        seated.push((players[i].clone(), faction.to_string()));
        i = i + 1;
    }
    seated
}

/// One kind of unit a faction places at setup: `count` of `unit`, in the home system's space
/// area (`planet` is `None`) or on one of its planets. The unit is the faction's own version
/// where it has one.
#[derive(Debug)]
pub struct Deployment {
    pub unit: String,
    pub count: u32,
    pub planet: Option<String>,
}

/// A faction as the corpus records it: its alias, its home system tile (if it has one), the
/// planets of that system, its opening units, and its starting technologies.
#[derive(Debug)]
pub struct FactionRecord {
    pub alias: String,
    pub home_system: Option<String>,
    pub home_planets: Vec<String>,
    pub deployments: Vec<Deployment>,
    pub starting_tech: Vec<String>,
}

/// The first record with the given alias, or -1.
pub open spec fn faction_index(records: Seq<FactionRecord>, alias: Seq<char>) -> int
    decreases records.len(),
{
    if records.len() == 0 {
        -1
    } else if records[0].alias@ == alias {
        0
    } else {
        let k = faction_index(records.drop_first(), alias);
        if k < 0 {
            -1
        } else {
            k + 1
        }
    }
}

proof fn lemma_faction_index(records: Seq<FactionRecord>, alias: Seq<char>)
    ensures
        -1 <= faction_index(records, alias) < records.len(),
        faction_index(records, alias) >= 0 ==> records[faction_index(records, alias)].alias@ == alias,
    decreases records.len(),
{
    if records.len() > 0 && records[0].alias@ != alias {
        lemma_faction_index(records.drop_first(), alias);
    }
}

fn find_faction(records: &Vec<FactionRecord>, alias: &str) -> (found: Option<usize>)
    ensures
        match found {
            Some(k) => k as int == faction_index(records@, alias@) && k < records@.len(),
            None => faction_index(records@, alias@) == -1,
        },
{
    let mut k: usize = 0;
    assert(records@.subrange(0, records@.len() as int) =~= records@);
    while k < records.len()
        invariant
            k <= records@.len(),
            faction_index(records@, alias@) == if faction_index(records@.subrange(k as int, records@.len() as int), alias@) < 0 {
                -1
            } else {
                faction_index(records@.subrange(k as int, records@.len() as int), alias@) + k
            },
        decreases records@.len() - k,
    {
        let ghost rest = records@.subrange(k as int, records@.len() as int);
        assert(rest.drop_first() =~= records@.subrange(k + 1, records@.len() as int));
        if str_eq(records[k].alias.as_str(), alias) {
            return Some(k);
        }
        k = k + 1;
    }
    None
}

/// The home system of each assigned faction, in assignment order, or the first faction that
/// the corpus lacks or that has no home.
pub open spec fn spec_home_systems(records: Seq<FactionRecord>, factions: Seq<Seq<char>>) -> Result<
    Seq<Seq<char>>,
    (bool, Seq<char>),
>
    decreases factions.len(),
{
    if factions.len() == 0 {
        Ok(Seq::empty())
    } else {
        let k = faction_index(records, factions[0]);
        if k < 0 {
            Err((true, factions[0]))
        } else if records[k].home_system is None {
            Err((false, factions[0]))
        } else {
            match spec_home_systems(records, factions.drop_first()) {
                Ok(rest) => Ok(seq![records[k].home_system->0@] + rest),
                Err(e) => Err(e),
            }
        }
    }
}

/// An error as the spec of [`home_systems`] writes it: `(true, alias)` for an unknown faction,
/// `(false, alias)` for one without a home.
pub open spec fn home_error_view(e: SeatingError) -> (bool, Seq<char>) {
    match e {
        SeatingError::UnknownFaction(a) => (true, a@),
        SeatingError::NoHomeSystem(a) => (false, a@),
        _ => (false, Seq::empty()),
    }
}

/// Home system tile ids for a player-to-faction assignment, in assignment order.
pub fn home_systems(records: &Vec<FactionRecord>, assignments: &Vec<(String, String)>) -> (homes: Result<
    Vec<String>,
    SeatingError,
>)
    ensures
        match homes {
            Ok(h) => spec_home_systems(records@, assignments@.map_values(|a: (String, String)| a.1@)) == Ok::<
                Seq<Seq<char>>,
                (bool, Seq<char>),
            >(h@.map_values(|t: String| t@)),
            Err(e) => spec_home_systems(records@, assignments@.map_values(|a: (String, String)| a.1@)) == Err::<
                Seq<Seq<char>>,
                (bool, Seq<char>),
            >(home_error_view(e)),
        },
{
    let ghost all = assignments@.map_values(|a: (String, String)| a.1@);
    let mut homes: Vec<String> = Vec::new();
    let mut i: usize = 0;
    assert(all.subrange(0, all.len() as int) =~= all);
    assert(homes@.map_values(|t: String| t@) + all =~= all);
    while i < assignments.len()
        invariant
            i <= assignments@.len(),
            all == assignments@.map_values(|a: (String, String)| a.1@),
            spec_home_systems(records@, all) == match spec_home_systems(records@, all.subrange(i as int, all.len() as int)) {
                Ok(rest) => Ok(homes@.map_values(|t: String| t@) + rest),
                Err(e) => Err::<Seq<Seq<char>>, (bool, Seq<char>)>(e),
            },
        decreases assignments@.len() - i,
    {
        let ghost rest = all.subrange(i as int, all.len() as int);
        assert(rest.drop_first() =~= all.subrange(i + 1, all.len() as int));
        assert(rest[0] == assignments@[i as int].1@);
        let alias = assignments[i].1.as_str();
        proof {
            lemma_faction_index(records@, alias@);
        }
        let k = match find_faction(records, alias) {
            Some(k) => k,
            None => return Err(SeatingError::UnknownFaction(alias.to_string())),
        };
        let home = match &records[k].home_system {
            Some(home) => home.clone(),
            None => return Err(SeatingError::NoHomeSystem(alias.to_string())),
        };
        let ghost before = homes@.map_values(|t: String| t@);
        homes.push(home);
        proof {
            assert(homes@.map_values(|t: String| t@) =~= before.push(home@));
            match spec_home_systems(records@, all.subrange(i + 1, all.len() as int)) {
                Ok(tail) => {
                    assert(before + (seq![home@] + tail) =~= before.push(home@) + tail);
                },
                Err(e) => {},
            }
        }
        i = i + 1;
    }
    proof {
        assert(all.subrange(i as int, all.len() as int) =~= Seq::<Seq<char>>::empty());
        assert(homes@.map_values(|t: String| t@) + Seq::<Seq<char>>::empty() =~= homes@.map_values(|t: String| t@));
    }
    Ok(homes)
}

/// Tiles on the outer ring of a three-ring board.
pub const OUTER_RING: usize = 18;

/// Tiles on the two inner rings, Mecatol aside.
pub const INNER_TILES: usize = 18;

/// The distance between two consecutive homes on the outer ring.
pub open spec fn ring_stride(homes: int) -> int {
    if homes == 0 {
        OUTER_RING as int
    } else {
        OUTER_RING as int / homes
    }
}

/// How many outer slots a board fills: up to and including the last home.
pub open spec fn slots_used(homes: int) -> int {
    if homes == 0 {
        0
    } else {
        (homes - 1) * ring_stride(homes) + 1
    }
}

/// How many filler tiles a board needs to space `homes` homes.
pub open spec fn filler_wanted(homes: int) -> int {
    INNER_TILES + if slots_used(homes) > homes {
        slots_used(homes) - homes
    } else {
        0
    }
}

/// `s / d`, rounded up.
pub open spec fn ceil_div(s: int, d: int) -> int {
    (s + d - 1) / d
}

/// The tile at outer slot `s`: a home at every `stride`-th slot, filler between, each taken in
/// order.
pub open spec fn outer_tile(homes: Seq<Seq<char>>, filler: Seq<Seq<char>>, s: int) -> Seq<char> {
    let d = ring_stride(homes.len() as int);
    if s % d == 0 {
        homes[s / d]
    } else {
        filler[INNER_TILES + s - ceil_div(s, d)]
    }
}

/// The ids of a board, from the centre out: Mecatol, the inner rings from the filler, then the
/// outer ring with the homes spaced evenly around it.
pub open spec fn spec_board_ids(homes: Seq<Seq<char>>, filler: Seq<Seq<char>>) -> Seq<Seq<char>> {
    seq![MECATOL@] + filler.subrange(0, INNER_TILES as int) + Seq::new(
        slots_used(homes.len() as int) as nat,
        |s: int| outer_tile(homes, filler, s),
    )
}

proof fn lemma_ceil_step(s: int, d: int)
    requires
        0 <= s,
        0 < d,
    ensures
        ceil_div(s + 1, d) == ceil_div(s, d) + if s % d == 0 { 1int } else { 0int },
        s % d == 0 ==> ceil_div(s, d) == s / d,
{
    let q = s / d;
    let r = s % d;
    vstd::arithmetic::div_mod::lemma_fundamental_div_mod(s, d);
    vstd::arithmetic::div_mod::lemma_mod_pos_bound(s, d);
    assert(s == d * q + r);
    if r == 0 {
        vstd::arithmetic::div_mod::lemma_div_multiples_vanish_fancy(q, d - 1, d);
        assert(s + d - 1 == d * q + (d - 1));
        vstd::arithmetic::div_mod::lemma_div_multiples_vanish_fancy(q, 0, d);
        assert(s + 1 + d - 1 == d * (q + 1) + 0) by (nonlinear_arith)
            requires s == d * q + r, r == 0;
        vstd::arithmetic::div_mod::lemma_div_multiples_vanish_fancy(q + 1, 0, d);
    } else {
        assert(s + d - 1 == d * (q + 1) + (r - 1)) by (nonlinear_arith)
            requires s == d * q + r;
        vstd::arithmetic::div_mod::lemma_div_multiples_vanish_fancy(q + 1, r - 1, d);
        assert(s + 1 + d - 1 == d * (q + 1) + r) by (nonlinear_arith)
            requires s == d * q + r;
        vstd::arithmetic::div_mod::lemma_div_multiples_vanish_fancy(q + 1, r, d);
    }
}

proof fn lemma_gap_grows(t: int, u: int, d: int)
    requires
        0 <= t <= u,
        0 < d,
    ensures
        t - ceil_div(t, d) <= u - ceil_div(u, d),
        ceil_div(t, d) <= ceil_div(u, d),
    decreases u - t,
{
    if t < u {
        lemma_ceil_step(t, d);
        lemma_gap_grows(t + 1, u, d);
    }
}

proof fn lemma_outer_total(n: int)
    requires
        1 <= n <= OUTER_RING,
    ensures
        ring_stride(n) >= 1,
        ceil_div(slots_used(n), ring_stride(n)) == n,
        slots_used(n) >= n,
{
    let d = ring_stride(n);
    assert(d >= 1) by (nonlinear_arith)
        requires d == 18int / n, 1 <= n <= 18;
    assert(slots_used(n) + d - 1 == d * n + 0) by (nonlinear_arith)
        requires slots_used(n) == (n - 1) * d + 1;
    vstd::arithmetic::div_mod::lemma_div_multiples_vanish_fancy(n, 0, d);
    assert((n - 1) * d + 1 >= n) by (nonlinear_arith)
        requires d >= 1, n >= 1;
}

/// The ids of an opening board: Mecatol at the centre, filler on the two inner rings, and the
/// home systems spaced evenly around the outer ring with filler between them. The spiral is
/// filled positionally, so homes appended at the end would sit in consecutive slots; here a
/// six-seat board puts them at every third slot.
pub fn board_ids(homes: &Vec<String>, filler: &Vec<String>) -> (ids: Result<Vec<String>, SeatingError>)
    requires
        homes@.len() <= OUTER_RING,
    ensures
        match ids {
            Ok(ids) => {
                &&& filler@.len() >= filler_wanted(homes@.len() as int)
                &&& ids@.map_values(|t: String| t@) == spec_board_ids(
                    homes@.map_values(|t: String| t@),
                    filler@.map_values(|t: String| t@),
                )
            },
            Err(e) => {
                &&& filler@.len() < filler_wanted(homes@.len() as int)
                &&& e == SeatingError::NotEnoughFiller {
                    wanted: filler_wanted(homes@.len() as int) as usize,
                    given: filler@.len() as usize,
                }
            },
        },
{
    let ghost hv = homes@.map_values(|t: String| t@);
    let ghost fv = filler@.map_values(|t: String| t@);
    let n = homes.len();
    let stride: usize = if n == 0 { OUTER_RING } else { OUTER_RING / n };
    assert(n > 0 ==> stride <= 18 && (n - 1) * stride <= 18 * 18) by (nonlinear_arith)
        requires n <= 18, n > 0 ==> stride == 18int / (n as int);
    let outer_used: usize = if n == 0 { 0 } else { (n - 1) * stride + 1 };
    proof {
        if n > 0 {
            lemma_outer_total(n as int);
        }
        assert(outer_used <= 18) by (nonlinear_arith)
            requires n <= 18, n > 0 ==> stride == 18int / (n as int), n > 0 ==> outer_used == (n - 1) * stride + 1,
                n == 0 ==> outer_used == 0;
    }
    let gap: usize = if outer_used > n { outer_used - n } else { 0 };
    let wanted = INNER_TILES + gap;
    if filler.len() < wanted {
        return Err(SeatingError::NotEnoughFiller { wanted, given: filler.len() });
    }
    let mut ids: Vec<String> = Vec::new();
    ids.push(MECATOL.to_string());
    let mut k: usize = 0;
    while k < INNER_TILES
        invariant
            k <= INNER_TILES,
            filler@.len() >= INNER_TILES,
            ids@.len() == k + 1,
            ids@[0]@ == MECATOL@,
            forall|j: int| 0 <= j < k ==> (#[trigger] ids@[j + 1])@ == filler@[j]@,
        decreases INNER_TILES - k,
    {
        ids.push(filler[k].clone());
        k = k + 1;
    }
    proof {
        if n > 0 {
            vstd::arithmetic::div_mod::lemma_div_multiples_vanish_fancy(0, stride - 1, stride as int);
            assert(ceil_div(0, stride as int) == 0);
        }
    }
    let mut next: usize = INNER_TILES;
    let mut placed: usize = 0;
    let mut slot: usize = 0;
    while slot < outer_used
        invariant
            n == homes@.len(),
            n <= 18,
            stride == ring_stride(n as int),
            outer_used == slots_used(n as int),
            n > 0 ==> stride >= 1 && ceil_div(outer_used as int, stride as int) == n && outer_used >= n,
            n == 0 ==> outer_used == 0,
            filler@.len() >= filler_wanted(n as int),
            slot <= outer_used,
            n > 0 ==> placed == ceil_div(slot as int, stride as int),
            n == 0 ==> placed == 0,
            next == INNER_TILES + slot - placed,
            ids@.len() == 1 + INNER_TILES + slot,
            ids@[0]@ == MECATOL@,
            forall|j: int| 0 <= j < INNER_TILES ==> (#[trigger] ids@[j + 1])@ == filler@[j]@,
            forall|s: int| 0 <= s < slot ==> (#[trigger] ids@[s + 1 + INNER_TILES])@ == outer_tile(
                homes@.map_values(|t: String| t@),
                filler@.map_values(|t: String| t@),
                s,
            ),
        decreases outer_used - slot,
    {
        proof {
            lemma_ceil_step(slot as int, stride as int);
            lemma_gap_grows(slot as int + 1, outer_used as int, stride as int);
            lemma_gap_grows(slot as int, outer_used as int, stride as int);
        }
        let ghost hv = homes@.map_values(|t: String| t@);
        let ghost fv = filler@.map_values(|t: String| t@);
        if slot % stride == 0 && placed < n {
            proof {
                assert(hv[placed as int] == homes@[placed as int]@);
            }
            ids.push(homes[placed].clone());
            placed = placed + 1;
        } else {
            proof {
                if slot % stride == 0 {
                    lemma_gap_grows(slot as int, outer_used as int, stride as int);
                    assert(false);
                }
                assert(fv[next as int] == filler@[next as int]@);
            }
            assert(next < filler.len());
            ids.push(filler[next].clone());
            next = next + 1;
        }
        slot = slot + 1;
    }
    proof {
        let hv = homes@.map_values(|t: String| t@);
        let fv = filler@.map_values(|t: String| t@);
        assert(ids@.map_values(|t: String| t@) =~= spec_board_ids(hv, fv)) by {
            let left = ids@.map_values(|t: String| t@);
            let right = spec_board_ids(hv, fv);
            assert(left.len() == right.len());
            assert forall|j: int| 0 <= j < left.len() implies left[j] == right[j] by {
                if j == 0 {
                } else if j <= INNER_TILES {
                    assert(ids@[(j - 1) + 1]@ == filler@[j - 1]@);
                } else {
                    let s = j - 1 - INNER_TILES;
                    assert(ids@[s + 1 + INNER_TILES]@ == outer_tile(hv, fv, s));
                }
            }
        }
    }
    Ok(ids)
}

/// Homes are spaced evenly around the outer ring: the `k`-th home sits `k` strides into it, so
/// no two seats start in neighbouring outer slots when the ring has room to part them.
pub proof fn homes_are_evenly_spaced(homes: Seq<Seq<char>>, filler: Seq<Seq<char>>, k: int)
    requires
        1 <= homes.len() <= OUTER_RING,
        filler.len() >= INNER_TILES,
        0 <= k < homes.len(),
    ensures
        spec_board_ids(homes, filler).len() == 1 + INNER_TILES + slots_used(homes.len() as int),
        spec_board_ids(homes, filler)[1 + INNER_TILES + k * ring_stride(homes.len() as int)] == homes[k],
{
    let n = homes.len() as int;
    let d = ring_stride(n);
    lemma_outer_total(n);
    let s = k * d;
    assert(0 <= s < slots_used(n)) by (nonlinear_arith)
        requires s == k * d, 0 <= k < n, d >= 1, slots_used(n) == (n - 1) * d + 1;
    vstd::arithmetic::div_mod::lemma_div_multiples_vanish_fancy(k, 0, d);
    vstd::arithmetic::div_mod::lemma_mod_multiples_basic(k, d);
    assert(d * k == s) by (nonlinear_arith)
        requires s == k * d;
    assert(s % d == 0);
    assert(s / d == k);
    let ids = spec_board_ids(homes, filler);
    assert(ids[1 + INNER_TILES + s] == outer_tile(homes, filler, s));
}

/// Where a planet's control entry first stands, or -1.
pub open spec fn control_index(control: Seq<(Seq<char>, Seq<char>)>, planet: Seq<char>) -> int
    decreases control.len(),
{
    if control.len() == 0 {
        -1
    } else if control_index(control.drop_last(), planet) >= 0 {
        control_index(control.drop_last(), planet)
    } else if control.last().0 == planet {
        control.len() - 1
    } else {
        -1
    }
}

proof fn lemma_control_index(control: Seq<(Seq<char>, Seq<char>)>, n: int, planet: Seq<char>)
    requires
        0 <= n <= control.len(),
    ensures
        -1 <= control_index(control, planet) < control.len(),
        control_index(control.subrange(0, n), planet) >= 0 ==> control_index(control, planet) == control_index(control.subrange(0, n), planet),
    decreases control.len() - n,
{
    if n < control.len() {
        assert(control.subrange(0, n + 1).drop_last() =~= control.subrange(0, n));
        lemma_control_index(control, n + 1, planet);
    } else {
        assert(control.subrange(0, n) =~= control);
        lemma_control_bounds(control, planet);
    }
}

proof fn lemma_control_bounds(control: Seq<(Seq<char>, Seq<char>)>, planet: Seq<char>)
    ensures
        -1 <= control_index(control, planet) < control.len(),
    decreases control.len(),
{
    if control.len() > 0 {
        lemma_control_bounds(control.drop_last(), planet);
    }
}

/// A control list with a planet controlled by a player: its entry changes hands, or a new
/// entry is added.
pub open spec fn with_control(control: Seq<(Seq<char>, Seq<char>)>, planet: Seq<char>, owner: Seq<char>) -> Seq<(Seq<char>, Seq<char>)> {
    let e = control_index(control, planet);
    if e >= 0 {
        control.update(e, (planet, owner))
    } else {
        control.push((planet, owner))
    }
}

/// A control list with several planets controlled by a player, one after another.
pub open spec fn with_controls(control: Seq<(Seq<char>, Seq<char>)>, planets: Seq<Seq<char>>, owner: Seq<char>) -> Seq<(Seq<char>, Seq<char>)>
    decreases planets.len(),
{
    if planets.len() == 0 {
        control
    } else {
        with_control(with_controls(control, planets.drop_last(), owner), planets.last(), owner)
    }
}

fn set_control(control: &mut Vec<(String, String)>, planet: &str, owner: &str)
    ensures
        pair_names(final(control)@) == with_control(pair_names(old(control)@), planet@, owner@),
{
    let ghost before = pair_names(control@);
    let mut k: usize = 0;
    while k < control.len()
        invariant
            k <= control@.len(),
            control@ == old(control)@,
            before == pair_names(control@),
            control_index(before.subrange(0, k as int), planet@) < 0,
        decreases control@.len() - k,
    {
        assert(before.subrange(0, k + 1).drop_last() =~= before.subrange(0, k as int));
        if str_eq(control[k].0.as_str(), planet) {
            proof {
                assert(before.subrange(0, k + 1).last().0 == planet@);
                assert(control_index(before.subrange(0, k + 1), planet@) == k);
                lemma_control_index(before, k + 1, planet@);
            }
            let entry = control.remove(k);
            control.insert(k, (entry.0, owner.to_string()));
            assert(pair_names(control@) =~= before.update(k as int, (planet@, owner@)));
            return;
        }
        k = k + 1;
    }
    assert(before.subrange(0, k as int) =~= before);
    control.push((planet.to_string(), owner.to_string()));
    assert(pair_names(control@) =~= before.push((planet@, owner@)));
}

/// A unit as it is first placed: of its type, owned by the player, undamaged.
pub open spec fn fresh(u: Unit, unit: Seq<char>, player: Seq<char>) -> bool {
    u.type_id@ == unit && u.owner@ == player && !u.sustained_damage && !u.galvanized
}

/// A list of units after `count` fresh units join its end.
pub open spec fn extended(before: Seq<Unit>, after: Seq<Unit>, unit: Seq<char>, player: Seq<char>, count: int) -> bool {
    &&& after.len() == before.len() + count
    &&& after.subrange(0, before.len() as int) == before
    &&& forall|j: int| before.len() <= j < after.len() ==> fresh(#[trigger] after[j], unit, player)
}

/// A deployment as values.
pub open spec fn deployment_view(d: Deployment) -> (Seq<char>, int, Option<Seq<char>>) {
    (d.unit@, d.count as int, match d.planet { Some(p) => Some(p@), None => None })
}

/// A system after one deployment: the units join its space area, or the planet's units (a
/// new entry for a planet without one).
pub open spec fn deployed_one(before: SystemState, after: SystemState, d: (Seq<char>, int, Option<Seq<char>>), player: Seq<char>) -> bool {
    &&& after.id == before.id
    &&& after.planet_control == before.planet_control
    &&& after.command_tokens == before.command_tokens
    &&& match d.2 {
        None => extended(before.units@, after.units@, d.0, player, d.1) && after.planet_units == before.planet_units,
        Some(planet) => {
            let e = entry_index(before.planet_units@, planet);
            &&& after.units == before.units
            &&& if e >= 0 {
                &&& after.planet_units@ == before.planet_units@.update(e, after.planet_units@[e])
                &&& after.planet_units@[e].0 == before.planet_units@[e].0
                &&& extended(before.planet_units@[e].1@, after.planet_units@[e].1@, d.0, player, d.1)
            } else {
                &&& after.planet_units@ == before.planet_units@.push(after.planet_units@.last())
                &&& after.planet_units@.last().0@ == planet
                &&& extended(Seq::empty(), after.planet_units@.last().1@, d.0, player, d.1)
            }
        },
    }
}

/// Whether a trace of systems makes each deployment in turn.
pub open spec fn deployed_all(trace: Seq<SystemState>, deployments: Seq<Deployment>, player: Seq<char>) -> bool {
    &&& trace.len() == deployments.len() + 1
    &&& forall|k: int| 0 <= k < deployments.len() ==> #[trigger] deployed_one(trace[k], trace[k + 1], deployment_view(deployments[k]), player)
}

fn push_fresh(units: &mut Vec<Unit>, unit: &str, player: &str, count: u32)
    ensures
        extended(old(units)@, final(units)@, unit@, player@, count as int),
{
    let ghost before = units@;
    let mut k: u32 = 0;
    assert(units@.subrange(0, before.len() as int) =~= before);
    while k < count
        invariant
            k <= count,
            extended(before, units@, unit@, player@, k as int),
        decreases count - k,
    {
        units.push(Unit { type_id: unit.to_string(), owner: player.to_string(), sustained_damage: false, galvanized: false });
        assert(units@.subrange(0, before.len() as int) =~= before);
        k = k + 1;
    }
}

fn deploy_one(system: &mut SystemState, d: &Deployment, player: &str)
    ensures
        deployed_one(*old(system), *final(system), deployment_view(*d), player@),
{
    match &d.planet {
        None => push_fresh(&mut system.units, d.unit.as_str(), player, d.count),
        Some(planet) => {
            let ghost before = system.planet_units@;
            match find_entry(&system.planet_units, planet.as_str()) {
                Some(e) => {
                    let mut entry = system.planet_units.remove(e);
                    push_fresh(&mut entry.1, d.unit.as_str(), player, d.count);
                    system.planet_units.insert(e, entry);
                    assert(system.planet_units@ =~= before.update(e as int, system.planet_units@[e as int]));
                },
                None => {
                    let mut units: Vec<Unit> = Vec::new();
                    push_fresh(&mut units, d.unit.as_str(), player, d.count);
                    system.planet_units.push((planet.clone(), units));
                    assert(system.planet_units@ =~= before.push(system.planet_units@.last()));
                },
            }
        },
    }
}

/// What deploying a faction for a seat does to the table: control of the home planets, the
/// opening units in the home system (added to the board where it is missing), and the seat's
/// faction, home and starting technologies.
pub open spec fn deployed(before: GameState, after: GameState, rec: FactionRecord, player: Seq<char>) -> bool {
    let home = rec.home_system->Some_0@;
    let si = system_index(before.board@, home);
    let i = seat_of(before.players@, player);
    exists|trace: Seq<SystemState>| {
        &&& #[trigger] deployed_all(trace, rec.deployments@, player)
        &&& trace[0].id@ == home
        &&& pair_names(trace[0].planet_control@) == with_controls(
            if si >= 0 { pair_names(before.board@[si].planet_control@) } else { Seq::empty() },
            names(rec.home_planets@),
            player,
        )
        &&& if si >= 0 {
            &&& trace[0] == (SystemState { planet_control: trace[0].planet_control, ..before.board@[si] })
            &&& after.board@ == before.board@.update(si, trace.last())
        } else {
            &&& trace[0].units@.len() == 0
            &&& trace[0].planet_units@.len() == 0
            &&& trace[0].command_tokens@.len() == 0
            &&& after.board@ == before.board@.push(trace.last())
        }
        &&& after.players@ == before.players@.update(
            i,
            Seat {
                faction: after.players@[i].faction,
                home_system: after.players@[i].home_system,
                home_planets: after.players@[i].home_planets,
                technologies: after.players@[i].technologies,
                ..before.players@[i]
            },
        )
        &&& after.players@[i].faction@ == rec.alias@
        &&& after.players@[i].home_system matches Some(h) && h@ == home
        &&& names(after.players@[i].home_planets@) == names(rec.home_planets@)
        &&& names(after.players@[i].technologies@) == with_names(names(before.players@[i].technologies@), names(rec.starting_tech@))
        &&& after == (GameState { players: after.players, board: after.board, ..before })
    }
}

/// Seat a player as a faction: they take control of their home planets, their opening units
/// are placed in their home system, and they gain their starting technologies. The player must
/// sit at the table and the faction must be known and have a home system; otherwise nothing
/// changes.
#[verifier::rlimit(40)]
pub fn deploy(state: &mut GameState, records: &Vec<FactionRecord>, player: &str, alias: &str) -> (result: Result<(), SeatingError>)
    ensures
        ({
            let k = faction_index(records@, alias@);
            match result {
                Err(SeatingError::UnknownPlayer(p)) => seat_of(old(state).players@, player@) < 0 && p@ == player@ && *final(state)
                    == *old(state),
                Err(SeatingError::UnknownFaction(a)) => seat_of(old(state).players@, player@) >= 0 && k < 0 && a@ == alias@ && *final(state)
                    == *old(state),
                Err(SeatingError::NoHomeSystem(a)) => seat_of(old(state).players@, player@) >= 0 && k >= 0 && records@[k].home_system is None
                    && a@ == alias@ && *final(state) == *old(state),
                Err(_) => false,
                Ok(()) => {
                    &&& seat_of(old(state).players@, player@) >= 0
                    &&& k >= 0
                    &&& records@[k].home_system is Some
                    &&& deployed(*old(state), *final(state), records@[k], player@)
                },
            }
        }),
{
    let ghost before = *state;
    let i = match find_seat(&state.players, player) {
        Some(i) => i,
        None => return Err(SeatingError::UnknownPlayer(player.to_string())),
    };
    proof {
        lemma_faction_index(records@, alias@);
    }
    let k = match find_faction(records, alias) {
        Some(k) => k,
        None => return Err(SeatingError::UnknownFaction(alias.to_string())),
    };
    let rec = &records[k];
    let home = match &rec.home_system {
        Some(h) => h.clone(),
        None => return Err(SeatingError::NoHomeSystem(alias.to_string())),
    };
    let found = find_system(&state.board, home.as_str());
    let si = match found {
        Some(si) => si,
        None => {
            state.board.push(SystemState {
                id: home.clone(),
                units: Vec::new(),
                planet_units: Vec::new(),
                planet_control: Vec::new(),
                command_tokens: Vec::new(),
            });
            state.board.len() - 1
        },
    };
    let ghost grown = state.board@;
    proof {
        crate::tech_windows::lemma_system_index_bounds(before.board@, home@);
        if found is Some {
            assert(grown == before.board@);
        } else {
            assert(grown =~= before.board@.push(grown[si as int]));
        }
        assert(grown[si as int].id@ == home@);
    }
    let mut system = state.board.remove(si);
    // Home planets.
    let ghost start_control = pair_names(system.planet_control@);
    let mut p: usize = 0;
    while p < rec.home_planets.len()
        invariant
            p <= rec.home_planets@.len(),
            pair_names(system.planet_control@) == with_controls(start_control, names(rec.home_planets@).subrange(0, p as int), player@),
            system == (SystemState { planet_control: system.planet_control, ..grown[si as int] }),
        decreases rec.home_planets@.len() - p,
    {
        proof {
            assert(names(rec.home_planets@).subrange(0, p + 1).drop_last() =~= names(rec.home_planets@).subrange(0, p as int));
        }
        set_control(&mut system.planet_control, rec.home_planets[p].as_str(), player);
        p = p + 1;
    }
    assert(names(rec.home_planets@).subrange(0, p as int) =~= names(rec.home_planets@));
    // Opening units.
    let ghost mut trace: Seq<SystemState> = seq![system];
    let mut d: usize = 0;
    while d < rec.deployments.len()
        invariant
            d <= rec.deployments@.len(),
            trace.len() == d + 1,
            trace.last() == system,
            trace[0].id == grown[si as int].id,
            pair_names(trace[0].planet_control@) == with_controls(start_control, names(rec.home_planets@), player@),
            trace[0] == (SystemState { planet_control: trace[0].planet_control, ..grown[si as int] }),
            forall|j: int| 0 <= j < d ==> #[trigger] deployed_one(trace[j], trace[j + 1], deployment_view(rec.deployments@[j]), player@),
        decreases rec.deployments@.len() - d,
    {
        deploy_one(&mut system, &rec.deployments[d], player);
        proof {
            let longer = trace.push(system);
            assert forall|j: int| 0 <= j < d + 1 implies #[trigger] deployed_one(longer[j], longer[j + 1], deployment_view(rec.deployments@[j]), player@) by {
                if j < d {
                    assert(longer[j] == trace[j] && longer[j + 1] == trace[j + 1]);
                }
            }
            trace = longer;
        }
        d = d + 1;
    }
    state.board.insert(si, system);
    // The seat.
    let mut seat = state.players.remove(i);
    seat.faction = alias.to_string();
    seat.home_system = Some(home);
    let mut planets: Vec<String> = Vec::new();
    let mut q: usize = 0;
    while q < rec.home_planets.len()
        invariant
            q <= rec.home_planets@.len(),
            names(planets@) == names(rec.home_planets@).subrange(0, q as int),
        decreases rec.home_planets@.len() - q,
    {
        let ghost was = names(planets@);
        planets.push(rec.home_planets[q].clone());
        assert(names(planets@) =~= was.push(rec.home_planets@[q as int]@));
        assert(names(rec.home_planets@).subrange(0, q + 1) =~= names(rec.home_planets@).subrange(0, q as int).push(rec.home_planets@[q as int]@));
        q = q + 1;
    }
    assert(names(rec.home_planets@).subrange(0, q as int) =~= names(rec.home_planets@));
    seat.home_planets = planets;
    let ghost techs = names(seat.technologies@);
    let ghost placed = seat;
    let mut t: usize = 0;
    while t < rec.starting_tech.len()
        invariant
            t <= rec.starting_tech@.len(),
            seat == (Seat { technologies: seat.technologies, ..placed }),
            names(seat.technologies@) == with_names(techs, names(rec.starting_tech@).subrange(0, t as int)),
        decreases rec.starting_tech@.len() - t,
    {
        proof {
            assert(names(rec.starting_tech@).subrange(0, t + 1).drop_last() =~= names(rec.starting_tech@).subrange(0, t as int));
        }
        crate::strategy_cards::add_name(&mut seat.technologies, rec.starting_tech[t].as_str());
        t = t + 1;
    }
    assert(names(rec.starting_tech@).subrange(0, t as int) =~= names(rec.starting_tech@));
    state.players.insert(i, seat);
    proof {
        assert(state.players@ =~= before.players@.update(
            i as int,
            Seat {
                faction: state.players@[i as int].faction,
                home_system: state.players@[i as int].home_system,
                home_planets: state.players@[i as int].home_planets,
                technologies: state.players@[i as int].technologies,
                ..before.players@[i as int]
            },
        ));
        if found is Some {
            assert(state.board@ =~= before.board@.update(si as int, trace.last()));
        } else {
            assert(state.board@ =~= before.board@.push(trace.last()));
        }
        assert(deployed_all(trace, rec.deployments@, player@));
        assert(trace[0].id@ == rec.home_system->Some_0@);
        if found is Some {
            assert(trace[0] == (SystemState { planet_control: trace[0].planet_control, ..before.board@[si as int] }));
        } else {
            assert(trace[0].units@.len() == 0);
        }
        let sidx = system_index(before.board@, rec.home_system->Some_0@);
        if found is Some {
            assert(sidx == si);
            assert(start_control == pair_names(before.board@[sidx].planet_control@));
        } else {
            assert(sidx < 0);
            assert(grown[si as int].planet_control@.len() == 0);
            assert(start_control =~= Seq::<(Seq<char>, Seq<char>)>::empty());
        }
        assert(pair_names(trace[0].planet_control@) == with_controls(
            if sidx >= 0 { pair_names(before.board@[sidx].planet_control@) } else { Seq::empty() },
            names(rec.home_planets@),
            player@,
        ));
        let pi = seat_of(before.players@, player@);
        assert(pi == i);
        assert(state.players@[i as int].faction@ == rec.alias@);
        assert(names(state.players@[i as int].technologies@) == with_names(names(before.players@[i as int].technologies@), names(rec.starting_tech@)));
        assert(*state == (GameState { players: state.players, board: state.board, ..before }));
    }
    Ok(())
}

/// A system as the catalogue records it, as far as choosing neutral filler needs: its id, how
/// many planets it has, and whether it is an anomaly, a hyperlane, or holds a wormhole.
#[derive(Debug, Clone, PartialEq, Eq)]
pub struct SystemRecord {
    pub id: String,
    pub planets: usize,
    pub anomaly: bool,
    pub hyperlane: bool,
    pub wormholes: usize,
}

/// Whether a system is neutral filler: not Mecatol, not a home system, with a planet, and no
/// anomaly, hyperlane or wormhole, so the filler is somewhere to expand into rather than a
/// hazard course.
pub open spec fn is_neutral(r: SystemRecord, homes: Seq<Seq<char>>) -> bool {
    &&& r.id@ != MECATOL@
    &&& r.planets > 0
    &&& !r.anomaly
    &&& !r.hyperlane
    &&& r.wormholes == 0
    &&& !homes.contains(r.id@)
}

/// The neutral systems among the first `n` records, in catalogue order.
pub open spec fn neutral_among(records: Seq<SystemRecord>, homes: Seq<Seq<char>>, n: int) -> Seq<Seq<char>>
    decreases n,
{
    if n <= 0 {
        seq![]
    } else if is_neutral(records[n - 1], homes) {
        neutral_among(records, homes, n - 1).push(records[n - 1].id@)
    } else {
        neutral_among(records, homes, n - 1)
    }
}

proof fn lemma_neutral_len(records: Seq<SystemRecord>, homes: Seq<Seq<char>>, n: int)
    ensures
        neutral_among(records, homes, n).len() <= if n < 0 { 0 } else { n },
    decreases n,
{
    if n > 0 {
        lemma_neutral_len(records, homes, n - 1);
    }
}

/// Up to `count` neutral systems, in catalogue order: the first `count` of them, or every one
/// where there are fewer. `homes` lists the home systems of the catalogue.
pub fn neutral_systems(records: &Vec<SystemRecord>, homes: &Vec<String>, count: usize) -> (found: Vec<String>)
    ensures
        ({
            let all = neutral_among(records@, names(homes@), records@.len() as int);
            names(found@) == if count as int <= all.len() { all.subrange(0, count as int) } else { all }
        }),
{
    let ghost hs = names(homes@);
    let mut found: Vec<String> = Vec::new();
    let mut k: usize = 0;
    while k < records.len() && found.len() < count
        invariant
            k <= records@.len(),
            hs == names(homes@),
            names(found@) == neutral_among(records@, hs, k as int),
            found@.len() <= count,
        decreases records@.len() - k,
    {
        let r = &records[k];
        let neutral = !str_eq(r.id.as_str(), MECATOL) && r.planets > 0 && !r.anomaly && !r.hyperlane && r.wormholes == 0
            && !crate::state::contains_name(homes, r.id.as_str());
        if neutral {
            let ghost was = names(found@);
            found.push(r.id.clone());
            assert(names(found@) =~= was.push(r.id@));
        }
        k = k + 1;
    }
    proof {
        let all = neutral_among(records@, hs, records@.len() as int);
        lemma_neutral_prefix(records@, hs, k as int, records@.len() as int);
        lemma_neutral_len(records@, hs, k as int);
        if k < records@.len() {
            assert(found@.len() == count);
            assert(all.subrange(0, count as int) =~= names(found@));
        } else {
            if count as int <= all.len() {
                assert(all.subrange(0, count as int) =~= all);
            }
        }
    }
    found
}

/// The neutral systems among the first `m` records begin with those among the first `n`.
proof fn lemma_neutral_prefix(records: Seq<SystemRecord>, homes: Seq<Seq<char>>, n: int, m: int)
    requires
        0 <= n <= m,
    ensures
        neutral_among(records, homes, m).len() >= neutral_among(records, homes, n).len(),
        neutral_among(records, homes, m).subrange(0, neutral_among(records, homes, n).len() as int) == neutral_among(records, homes, n),
    decreases m - n,
{
    if m > n {
        lemma_neutral_prefix(records, homes, n, m - 1);
        let a = neutral_among(records, homes, m - 1);
        let b = neutral_among(records, homes, m);
        let c = neutral_among(records, homes, n);
        assert(b.subrange(0, c.len() as int) =~= a.subrange(0, c.len() as int));
    } else {
        assert(neutral_among(records, homes, m).subrange(0, neutral_among(records, homes, m).len() as int) =~= neutral_among(records, homes, m));
    }
}

} // verus!
