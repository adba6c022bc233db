//! Technology colours and prerequisites (LRR 90).

use vstd::prelude::*;
use crate::rng::{lemma_name_lt_irreflexive, lemma_name_lt_total, lemma_name_lt_transitive, name_lt, str_lt};
use crate::state::{contains_name, find_seat, lemma_seat_of_same_ids, names, seat_of, GameState, SystemState};
use crate::synergy::{
    ascii_upper, counts_view, held, held_of, pair, pair_view, pair_wanted, satisfies, spec_pair, spec_satisfies, to_upper,
    upper_text,
    Breakthrough,
};
use crate::text::{contains_text, has_phrase, lower_text, str_eq, to_lower};

verus! {

/// The four technology colours, in the order their names sort.
pub const COLOURS: [&'static str; 4] = ["BIOTIC", "CYBERNETIC", "PROPULSION", "WARFARE"];

/// The colour a prerequisite letter stands for, either case: `G` biotic, `Y` cybernetic, `B`
/// propulsion, `R` warfare.
pub open spec fn spec_colour_of(letter: char) -> Option<Seq<char>> {
    let upper = ascii_upper(letter);
    if upper == 'G' {
        Some("BIOTIC"@)
    } else if upper == 'Y' {
        Some("CYBERNETIC"@)
    } else if upper == 'B' {
        Some("PROPULSION"@)
    } else if upper == 'R' {
        Some("WARFARE"@)
    } else {
        None
    }
}

/// The letter each colour is written as in a technology's `requirements` string: the corpus
/// spells prerequisites as e.g. `RRRY`, three warfare and one cybernetic.
pub fn colour_of(letter: char) -> (colour: Option<&'static str>)
    ensures
        match colour {
            Some(c) => spec_colour_of(letter) == Some(c@),
            None => spec_colour_of(letter) is None,
        },
{
    let upper = if 'a' <= letter && letter <= 'z' {
        ((letter as u32) - 32) as u8 as char
    } else {
        letter
    };
    assert(upper == ascii_upper(letter)) by {
        if 'a' <= letter && letter <= 'z' {
            assert((letter as u32) - 32 < 256);
        }
    }
    if upper == 'G' {
        Some("BIOTIC")
    } else if upper == 'Y' {
        Some("CYBERNETIC")
    } else if upper == 'B' {
        Some("PROPULSION")
    } else if upper == 'R' {
        Some("WARFARE")
    } else {
        None
    }
}

/// How many letters of a printed requirement stand for a colour.
pub open spec fn letters_for(printed: Seq<char>, colour: Seq<char>) -> int
    decreases printed.len(),
{
    if printed.len() == 0 {
        0
    } else {
        letters_for(printed.drop_last(), colour) + if spec_colour_of(printed.last()) == Some(colour) {
            1int
        } else {
            0int
        }
    }
}

/// The name of the colour in slot `j`, in the order the colours sort.
pub open spec fn colour_name(j: int) -> Seq<char> {
    if j == 0 {
        "BIOTIC"@
    } else if j == 1 {
        "CYBERNETIC"@
    } else if j == 2 {
        "PROPULSION"@
    } else {
        "WARFARE"@
    }
}

/// The four colour names differ from one another.
proof fn lemma_colour_names_distinct()
    ensures
        forall|i: int, j: int| 0 <= i < 4 && 0 <= j < 4 && i != j ==> #[trigger] colour_name(i) != #[trigger] colour_name(j),
{
    reveal_strlit("BIOTIC");
    reveal_strlit("CYBERNETIC");
    reveal_strlit("PROPULSION");
    reveal_strlit("WARFARE");
    assert(colour_name(0).len() == 6);
    assert(colour_name(3).len() == 7);
    assert(colour_name(1)[0] != colour_name(2)[0]);
}

/// One colour's entry in a count list: present only when the count is positive.
pub open spec fn entry(colour: Seq<char>, n: int) -> Seq<(Seq<char>, int)> {
    if n > 0 {
        seq![(colour, n)]
    } else {
        Seq::empty()
    }
}

/// A count list built from the four colours names each colour once.
pub proof fn lemma_colour_entries_keyed(b: int, c: int, p: int, w: int)
    ensures
        crate::synergy::keyed(colour_entries(b, c, p, w)),
{
    lemma_colour_names_distinct();
    let e0 = entry(colour_name(0), b);
    let e1 = entry(colour_name(1), c);
    let e2 = entry(colour_name(2), p);
    let e3 = entry(colour_name(3), w);
    let e = colour_entries(b, c, p, w);
    let s0 = e0.len() as int;
    let s1 = s0 + e1.len();
    let s2 = s1 + e2.len();
    assert(e =~= e0 + e1 + e2 + e3);
    assert forall|x: int| 0 <= x < e.len() implies (#[trigger] e[x]).0 == colour_name(
        if x < s0 { 0int } else if x < s1 { 1int } else if x < s2 { 2int } else { 3int },
    ) by {
        if x < s0 {
            assert(e[x] == e0[x]);
        } else if x < s1 {
            assert(e[x] == e1[x - s0]);
        } else if x < s2 {
            assert(e[x] == e2[x - s1]);
        } else {
            assert(e[x] == e3[x - s2]);
        }
    }
    assert forall|x: int, y: int| 0 <= x < y < e.len() implies (#[trigger] e[x]).0 != (#[trigger] e[y]).0 by {
        let sx = if x < s0 { 0int } else if x < s1 { 1int } else if x < s2 { 2int } else { 3int };
        let sy = if y < s0 { 0int } else if y < s1 { 1int } else if y < s2 { 2int } else { 3int };
        assert(sx < sy);
        assert(colour_name(sx) != colour_name(sy));
    }
}

/// Counts per colour as a list: each colour with a positive count, in the order the colours
/// sort, which is how a map keyed by colour name hands them out.
pub open spec fn colour_entries(b: int, c: int, p: int, w: int) -> Seq<(Seq<char>, int)> {
    entry(colour_name(0), b) + entry(colour_name(1), c) + entry(colour_name(2), p) + entry(colour_name(3), w)
}

/// What a technology needs, as counts per colour, read from its printed requirement string:
/// each colour with at least one letter, in the order the colours sort. A requirement printed as
/// `null` or `None`, or left blank, holds no colour letter and so needs nothing.
pub open spec fn spec_prerequisites(printed: Seq<char>) -> Seq<(Seq<char>, int)> {
    colour_entries(
        letters_for(printed, colour_name(0)),
        letters_for(printed, colour_name(1)),
        letters_for(printed, colour_name(2)),
        letters_for(printed, colour_name(3)),
    )
}

/// Four counts, one per colour in slot order, as a count list.
fn colour_counts(counts: &[usize; 4]) -> (entries: Vec<(String, usize)>)
    ensures
        counts_view(entries@) == colour_entries(counts@[0] as int, counts@[1] as int, counts@[2] as int, counts@[3] as int),
{
    let mut entries: Vec<(String, usize)> = Vec::new();
    let ghost mut built = Seq::<(Seq<char>, int)>::empty();
    assert(counts_view(entries@) =~= built);
    let mut j: usize = 0;
    while j < 4
        invariant
            j <= 4,
            counts@.len() == 4,
            counts_view(entries@) == built,
            built == (if j >= 1 { entry(colour_name(0), counts@[0] as int) } else { Seq::empty() }) + (if j >= 2 {
                entry(colour_name(1), counts@[1] as int)
            } else {
                Seq::empty()
            }) + (if j >= 3 { entry(colour_name(2), counts@[2] as int) } else { Seq::empty() }) + (if j >= 4 {
                entry(colour_name(3), counts@[3] as int)
            } else {
                Seq::empty()
            }),
        decreases 4 - j,
    {
        let ghost before = built;
        if counts[j] > 0 {
            entries.push((COLOURS[j].to_string(), counts[j]));
            proof {
                built = before.push((colour_name(j as int), counts@[j as int] as int));
                assert(COLOURS[j as int]@ == colour_name(j as int));
                assert(counts_view(entries@) =~= built);
            }
        }
        proof {
            let e = |k: int| entry(colour_name(k), counts@[k] as int);
            assert(before + e(j as int) =~= built);
            if j == 0 {
                assert(built =~= e(0) + Seq::empty() + Seq::empty() + Seq::empty());
            } else if j == 1 {
                assert(built =~= e(0) + e(1) + Seq::empty() + Seq::empty());
            } else if j == 2 {
                assert(built =~= e(0) + e(1) + e(2) + Seq::empty());
            } else {
                assert(built =~= e(0) + e(1) + e(2) + e(3));
            }
        }
        j = j + 1;
    }
    entries
}

proof fn lemma_letters_bounded(printed: Seq<char>, colour: Seq<char>)
    ensures
        0 <= letters_for(printed, colour) <= printed.len(),
    decreases printed.len(),
{
    if printed.len() > 0 {
        lemma_letters_bounded(printed.drop_last(), colour);
    }
}

/// What a technology needs, as (colour, count), from its printed requirement string.
pub fn prerequisites(printed: &str) -> (needs: Vec<(String, usize)>)
    ensures
        counts_view(needs@) == spec_prerequisites(printed@),
        needs_total(counts_view(needs@)) <= printed@.len() <= usize::MAX,
{
    let n = printed.unicode_len();
    let mut counts: [usize; 4] = [0, 0, 0, 0];
    let mut i: usize = 0;
    while i < n
        invariant
            n == printed@.len(),
            i <= n,
            counts@.len() == 4,
            forall|j: int| 0 <= j < 4 ==> counts@[j] == letters_for(printed@.subrange(0, i as int), #[trigger] colour_name(j)),
            counts@[0] <= i && counts@[1] <= i && counts@[2] <= i && counts@[3] <= i,
        decreases n - i,
    {
        let c = printed.get_char(i);
        proof {
            assert(printed@.subrange(0, i + 1).drop_last() =~= printed@.subrange(0, i as int));
            assert(printed@.subrange(0, i + 1).last() == c);
            reveal_strlit("BIOTIC");
            reveal_strlit("CYBERNETIC");
            reveal_strlit("PROPULSION");
            reveal_strlit("WARFARE");
        }
        match colour_of(c) {
            Some(colour) => {
                if colour.unicode_len() == 6 {
                    counts[0] = counts[0] + 1;
                } else if colour.unicode_len() == 10 && colour.get_char(0) == 'C' {
                    counts[1] = counts[1] + 1;
                } else if colour.unicode_len() == 10 {
                    counts[2] = counts[2] + 1;
                } else {
                    counts[3] = counts[3] + 1;
                }
            },
            None => {},
        }
        i = i + 1;
    }
    assert(printed@.subrange(0, n as int) =~= printed@);
    proof {
        lemma_letters_total(printed@);
        lemma_needs_total_entries(
            letters_for(printed@, colour_name(0)),
            letters_for(printed@, colour_name(1)),
            letters_for(printed@, colour_name(2)),
            letters_for(printed@, colour_name(3)),
        );
    }
    colour_counts(&counts)
}

/// A technology as the corpus records it.
#[derive(Debug, Clone, PartialEq, Eq)]
pub struct TechRecord {
    pub alias: String,
    /// Its printed types: a colour, or `UNITUPGRADE`.
    pub types: Vec<String>,
    /// The faction it belongs to, if it is a faction technology.
    pub faction: Option<String>,
    /// Its prerequisites as printed, e.g. `RRY`.
    pub requirements: String,
    /// Its printed rules text.
    pub text: String,
}

/// Where the record with this alias first appears in the catalogue, or -1.
pub open spec fn tech_index(records: Seq<TechRecord>, alias: Seq<char>) -> int
    decreases records.len(),
{
    if records.len() == 0 {
        -1
    } else if tech_index(records.drop_last(), alias) >= 0 {
        tech_index(records.drop_last(), alias)
    } else if records.last().alias@ == alias {
        records.len() - 1
    } else {
        -1
    }
}

proof fn lemma_tech_index(records: Seq<TechRecord>, alias: Seq<char>)
    ensures
        -1 <= tech_index(records, alias) < records.len(),
        tech_index(records, alias) >= 0 ==> records[tech_index(records, alias)].alias@ == alias,
        tech_index(records, alias) < 0 ==> forall|j: int| 0 <= j < records.len() ==> (#[trigger] records[j]).alias@ != alias,
    decreases records.len(),
{
    if records.len() > 0 {
        lemma_tech_index(records.drop_last(), alias);
        if tech_index(records, alias) < 0 {
            assert forall|j: int| 0 <= j < records.len() implies (#[trigger] records[j]).alias@ != alias by {
                if j < records.len() - 1 {
                    assert(records.drop_last()[j] == records[j]);
                }
            }
        }
    }
}

/// The record with this alias, by a left-to-right search.
pub(crate) fn find_tech(records: &Vec<TechRecord>, alias: &str) -> (found: Option<usize>)
    ensures
        match found {
            Some(k) => k as int == tech_index(records@, alias@) && k < records@.len(),
            None => tech_index(records@, alias@) < 0,
        },
{
    let mut k: usize = 0;
    while k < records.len()
        invariant
            k <= records@.len(),
            tech_index(records@.subrange(0, k as int), alias@) < 0,
        decreases records@.len() - k,
    {
        assert(records@.subrange(0, k + 1).drop_last() =~= records@.subrange(0, k as int));
        if str_eq(records[k].alias.as_str(), alias) {
            proof {
                lemma_tech_index_prefix(records@, k as int + 1, alias@);
            }
            return Some(k);
        }
        k = k + 1;
    }
    assert(records@.subrange(0, k as int) =~= records@);
    None
}

proof fn lemma_tech_index_prefix(records: Seq<TechRecord>, n: int, alias: Seq<char>)
    requires
        0 <= n <= records.len(),
        tech_index(records.subrange(0, n), alias) >= 0,
    ensures
        tech_index(records, alias) == tech_index(records.subrange(0, n), alias),
    decreases records.len() - n,
{
    if n < records.len() {
        assert(records.subrange(0, n + 1).drop_last() =~= records.subrange(0, n));
        lemma_tech_index_prefix(records, n + 1, alias);
    } else {
        assert(records.subrange(0, n) =~= records);
    }
}

/// The colour a list of printed types gives a technology: the first of the four colours, in the
/// order they sort, that the list holds.
pub open spec fn spec_colour_type(types: Seq<Seq<char>>) -> Option<Seq<char>> {
    if types.contains(colour_name(0)) {
        Some(colour_name(0))
    } else if types.contains(colour_name(1)) {
        Some(colour_name(1))
    } else if types.contains(colour_name(2)) {
        Some(colour_name(2))
    } else if types.contains(colour_name(3)) {
        Some(colour_name(3))
    } else {
        None
    }
}

/// The colour a technology itself counts as: none for one missing from the catalogue.
pub open spec fn tech_colour(records: Seq<TechRecord>, alias: Seq<char>) -> Option<Seq<char>> {
    let k = tech_index(records, alias);
    if k < 0 {
        None
    } else {
        spec_colour_type(names(records[k].types@))
    }
}

/// The slot of a technology's colour, if it has one.
fn colour_slot(records: &Vec<TechRecord>, alias: &str) -> (slot: Option<usize>)
    ensures
        match slot {
            Some(j) => j < 4 && tech_colour(records@, alias@) == Some(colour_name(j as int)),
            None => tech_colour(records@, alias@) is None,
        },
{
    let k = find_tech(records, alias)?;
    let types = &records[k].types;
    if contains_name(types, "BIOTIC") {
        Some(0)
    } else if contains_name(types, "CYBERNETIC") {
        Some(1)
    } else if contains_name(types, "PROPULSION") {
        Some(2)
    } else if contains_name(types, "WARFARE") {
        Some(3)
    } else {
        None
    }
}

/// The colour a technology itself counts as, if any. Unit upgrades have none (90.7b).
pub fn colour_type(records: &Vec<TechRecord>, alias: &str) -> (colour: Option<&'static str>)
    ensures
        match colour {
            Some(c) => tech_colour(records@, alias@) == Some(c@),
            None => tech_colour(records@, alias@) is None,
        },
{
    match colour_slot(records, alias) {
        Some(j) => {
            assert(COLOURS[j as int]@ == colour_name(j as int));
            Some(COLOURS[j])
        },
        None => None,
    }
}

/// Whether a technology is a unit upgrade, which has no colour (90.7b).
pub open spec fn spec_is_unit_upgrade(records: Seq<TechRecord>, alias: Seq<char>) -> bool {
    let k = tech_index(records, alias);
    k >= 0 && names(records[k].types@).contains("UNITUPGRADE"@)
}

/// Whether this is a unit upgrade, which has no colour (90.7b).
pub fn is_unit_upgrade(records: &Vec<TechRecord>, alias: &str) -> (upgrade: bool)
    ensures
        upgrade == spec_is_unit_upgrade(records@, alias@),
{
    match find_tech(records, alias) {
        Some(k) => contains_name(&records[k].types, "UNITUPGRADE"),
        None => false,
    }
}

/// The faction a technology belongs to, if it is faction-specific (90.11): a blank faction
/// names none.
pub open spec fn tech_faction(records: Seq<TechRecord>, alias: Seq<char>) -> Option<Seq<char>> {
    let k = tech_index(records, alias);
    if k < 0 {
        None
    } else {
        match records[k].faction {
            Some(f) => if f@.len() > 0 {
                Some(f@)
            } else {
                None
            },
            None => None,
        }
    }
}

/// The faction a technology belongs to, if it is faction-specific (90.11).
pub fn faction_of(records: &Vec<TechRecord>, alias: &str) -> (faction: Option<String>)
    ensures
        match faction {
            Some(f) => tech_faction(records@, alias@) == Some(f@),
            None => tech_faction(records@, alias@) is None,
        },
{
    let k = find_tech(records, alias)?;
    match &records[k].faction {
        Some(f) => if f.unicode_len() > 0 {
            Some(f.clone())
        } else {
            None
        },
        None => None,
    }
}

/// How many of a list of technologies count as a colour.
pub open spec fn owned_count(records: Seq<TechRecord>, techs: Seq<Seq<char>>, colour: Seq<char>) -> int
    decreases techs.len(),
{
    if techs.len() == 0 {
        0
    } else {
        owned_count(records, techs.drop_last(), colour) + if tech_colour(records, techs.last()) == Some(colour) {
            1int
        } else {
            0int
        }
    }
}

/// A player's owned technologies by colour (90.7a), or none for a player not at the table.
pub open spec fn owned_at(state: GameState, records: Seq<TechRecord>, player: Seq<char>, j: int) -> int {
    let i = seat_of(state.players@, player);
    if i < 0 {
        0
    } else {
        owned_count(records, names(state.players@[i].technologies@), colour_name(j))
    }
}

/// How many technologies of each colour a player owns, as a count list.
pub open spec fn spec_owned_colours(state: GameState, records: Seq<TechRecord>, player: Seq<char>) -> Seq<(Seq<char>, int)> {
    colour_entries(
        owned_at(state, records, player, 0),
        owned_at(state, records, player, 1),
        owned_at(state, records, player, 2),
        owned_at(state, records, player, 3),
    )
}

/// Owned technologies per colour slot.
pub(crate) fn owned_counts(state: &GameState, records: &Vec<TechRecord>, player: &str) -> (counts: [usize; 4])
    ensures
        forall|j: int| 0 <= j < 4 ==> counts@[j] == #[trigger] owned_at(*state, records@, player@, j),
{
    let mut counts: [usize; 4] = [0, 0, 0, 0];
    let i = match find_seat(&state.players, player) {
        Some(i) => i,
        None => return counts,
    };
    let techs = &state.players[i].technologies;
    proof {
        lemma_colour_names_distinct();
    }
    let mut k: usize = 0;
    while k < techs.len()
        invariant
            k <= techs@.len(),
            counts@.len() == 4,
            forall|j: int| 0 <= j < 4 ==> counts@[j] == owned_count(records@, names(techs@.subrange(0, k as int)), #[trigger] colour_name(j)),
            forall|j: int| 0 <= j < 4 ==> counts@[j] <= k,
        decreases techs@.len() - k,
    {
        let ghost prev = names(techs@.subrange(0, k as int));
        let ghost next = names(techs@.subrange(0, k + 1));
        assert(next.drop_last() =~= prev);
        assert(next.last() == techs@[k as int]@);
        let ghost before = counts@;
        let slot = colour_slot(records, techs[k].as_str());
        match slot {
            Some(j) => {
                counts[j] = counts[j] + 1;
            },
            None => {},
        }
        proof {
            lemma_colour_names_distinct();
            assert forall|j: int| 0 <= j < 4 implies counts@[j] == owned_count(records@, next, #[trigger] colour_name(j)) by {
                assert(before[j] == owned_count(records@, prev, colour_name(j)));
                assert(owned_count(records@, next, colour_name(j)) == owned_count(records@, prev, colour_name(j)) + if tech_colour(
                    records@,
                    techs@[k as int]@,
                ) == Some(colour_name(j)) {
                    1int
                } else {
                    0int
                });
            }
        }
        k = k + 1;
    }
    assert(techs@.subrange(0, k as int) =~= techs@);
    counts
}

/// How many technologies of each colour this player owns (90.7a), in the order the colours sort.
pub fn owned_colours(state: &GameState, records: &Vec<TechRecord>, player: &str) -> (held: Vec<(String, usize)>)
    ensures
        counts_view(held@) == spec_owned_colours(*state, records@, player@),
{
    let counts = owned_counts(state, records, player);
    colour_counts(&counts)
}

/// A planet as printed: its id and its technology specialties.
#[derive(Debug, Clone, PartialEq, Eq)]
pub struct PlanetRecord {
    pub id: String,
    pub specialties: Vec<String>,
}

/// Where the record for this planet first appears in the catalogue, or -1.
pub open spec fn planet_index(planets: Seq<PlanetRecord>, id: Seq<char>) -> int
    decreases planets.len(),
{
    if planets.len() == 0 {
        -1
    } else if planet_index(planets.drop_last(), id) >= 0 {
        planet_index(planets.drop_last(), id)
    } else if planets.last().id@ == id {
        planets.len() - 1
    } else {
        -1
    }
}

pub(crate) proof fn lemma_planet_index_bounds(planets: Seq<PlanetRecord>, id: Seq<char>)
    ensures
        -1 <= planet_index(planets, id) < planets.len(),
    decreases planets.len(),
{
    if planets.len() > 0 {
        lemma_planet_index_bounds(planets.drop_last(), id);
    }
}

proof fn lemma_planet_index_prefix(planets: Seq<PlanetRecord>, n: int, id: Seq<char>)
    requires
        0 <= n <= planets.len(),
        planet_index(planets.subrange(0, n), id) >= 0,
    ensures
        planet_index(planets, id) == planet_index(planets.subrange(0, n), id),
    decreases planets.len() - n,
{
    if n < planets.len() {
        assert(planets.subrange(0, n + 1).drop_last() =~= planets.subrange(0, n));
        lemma_planet_index_prefix(planets, n + 1, id);
    } else {
        assert(planets.subrange(0, n) =~= planets);
    }
}

/// The record for this planet, by a left-to-right search.
pub(crate) fn find_planet(planets: &Vec<PlanetRecord>, id: &str) -> (found: Option<usize>)
    ensures
        match found {
            Some(k) => k as int == planet_index(planets@, id@) && k < planets@.len(),
            None => planet_index(planets@, id@) < 0,
        },
{
    let mut k: usize = 0;
    while k < planets.len()
        invariant
            k <= planets@.len(),
            planet_index(planets@.subrange(0, k as int), id@) < 0,
        decreases planets@.len() - k,
    {
        assert(planets@.subrange(0, k + 1).drop_last() =~= planets@.subrange(0, k as int));
        if str_eq(planets[k].id.as_str(), id) {
            proof {
                lemma_planet_index_prefix(planets@, k as int + 1, id@);
            }
            return Some(k);
        }
        k = k + 1;
    }
    assert(planets@.subrange(0, k as int) =~= planets@);
    None
}

/// How many printed specialties name a colour, in either case.
pub open spec fn matching(specialties: Seq<Seq<char>>, colour: Seq<char>) -> int
    decreases specialties.len(),
{
    if specialties.len() == 0 {
        0
    } else {
        matching(specialties.drop_last(), colour) + if upper_text(specialties.last()) == colour {
            1int
        } else {
            0int
        }
    }
}

/// How many specialties of a colour one planet prints; none for a planet missing from the
/// catalogue.
pub open spec fn planet_specialties(planets: Seq<PlanetRecord>, planet: Seq<char>, colour: Seq<char>) -> int {
    let k = planet_index(planets, planet);
    if k < 0 {
        0
    } else {
        matching(names(planets[k].specialties@), colour)
    }
}

/// Specialties of a colour on the planets a system's control list gives this player. A planet
/// appears once in a control list.
pub open spec fn held_specialties(planets: Seq<PlanetRecord>, control: Seq<(String, String)>, player: Seq<char>, colour: Seq<char>) -> int
    decreases control.len(),
{
    if control.len() == 0 {
        0
    } else {
        held_specialties(planets, control.drop_last(), player, colour) + if control.last().1@ == player {
            planet_specialties(planets, control.last().0@, colour)
        } else {
            0
        }
    }
}

/// Specialties of a colour on every planet this player controls on the board.
pub open spec fn board_specialties(planets: Seq<PlanetRecord>, board: Seq<SystemState>, player: Seq<char>, colour: Seq<char>) -> int
    decreases board.len(),
{
    if board.len() == 0 {
        0
    } else {
        board_specialties(planets, board.drop_last(), player, colour) + held_specialties(
            planets,
            board.last().planet_control@,
            player,
            colour,
        )
    }
}

/// Specialties per colour slot on the planets a player controls.
pub open spec fn specialty_at(state: GameState, planets: Seq<PlanetRecord>, player: Seq<char>, j: int) -> int {
    board_specialties(planets, state.board@, player, colour_name(j))
}

/// Technology specialties on the planets a player controls, as a count list.
pub open spec fn spec_specialties(state: GameState, planets: Seq<PlanetRecord>, player: Seq<char>) -> Seq<(Seq<char>, int)> {
    colour_entries(
        specialty_at(state, planets, player, 0),
        specialty_at(state, planets, player, 1),
        specialty_at(state, planets, player, 2),
        specialty_at(state, planets, player, 3),
    )
}

proof fn lemma_matching_prefix(specialties: Seq<Seq<char>>, colour: Seq<char>, n: int)
    requires
        0 <= n <= specialties.len(),
    ensures
        0 <= matching(specialties.subrange(0, n), colour) <= matching(specialties, colour),
    decreases specialties.len() - n,
{
    if n < specialties.len() {
        lemma_matching_prefix(specialties, colour, n + 1);
        assert(specialties.subrange(0, n + 1).drop_last() =~= specialties.subrange(0, n));
        lemma_matching_nonneg(specialties.subrange(0, n), colour);
    } else {
        assert(specialties.subrange(0, n) =~= specialties);
        lemma_matching_nonneg(specialties, colour);
    }
}

proof fn lemma_matching_nonneg(specialties: Seq<Seq<char>>, colour: Seq<char>)
    ensures
        matching(specialties, colour) >= 0,
    decreases specialties.len(),
{
    if specialties.len() > 0 {
        lemma_matching_nonneg(specialties.drop_last(), colour);
    }
}

proof fn lemma_held_specialties_prefix(planets: Seq<PlanetRecord>, control: Seq<(String, String)>, player: Seq<char>, colour: Seq<char>, n: int)
    requires
        0 <= n <= control.len(),
    ensures
        0 <= held_specialties(planets, control.subrange(0, n), player, colour) <= held_specialties(planets, control, player, colour),
    decreases control.len() - n,
{
    if n < control.len() {
        lemma_held_specialties_prefix(planets, control, player, colour, n + 1);
        assert(control.subrange(0, n + 1).drop_last() =~= control.subrange(0, n));
        assert(control.subrange(0, n + 1).last() == control[n]);
        lemma_held_specialties_nonneg(planets, control.subrange(0, n), player, colour);
        let k = planet_index(planets, control[n].0@);
        if k >= 0 {
            lemma_matching_nonneg(names(planets[k].specialties@), colour);
        }
    } else {
        assert(control.subrange(0, n) =~= control);
        lemma_held_specialties_nonneg(planets, control, player, colour);
    }
}

proof fn lemma_held_specialties_nonneg(planets: Seq<PlanetRecord>, control: Seq<(String, String)>, player: Seq<char>, colour: Seq<char>)
    ensures
        held_specialties(planets, control, player, colour) >= 0,
    decreases control.len(),
{
    if control.len() > 0 {
        lemma_held_specialties_nonneg(planets, control.drop_last(), player, colour);
        let k = planet_index(planets, control.last().0@);
        if k >= 0 {
            lemma_matching_nonneg(names(planets[k].specialties@), colour);
        }
    }
}

proof fn lemma_board_specialties_prefix(planets: Seq<PlanetRecord>, board: Seq<SystemState>, player: Seq<char>, colour: Seq<char>, n: int)
    requires
        0 <= n <= board.len(),
    ensures
        0 <= board_specialties(planets, board.subrange(0, n), player, colour) <= board_specialties(planets, board, player, colour),
    decreases board.len() - n,
{
    if n < board.len() {
        lemma_board_specialties_prefix(planets, board, player, colour, n + 1);
        assert(board.subrange(0, n + 1).drop_last() =~= board.subrange(0, n));
        assert(board.subrange(0, n + 1).last() == board[n]);
        lemma_board_specialties_nonneg(planets, board.subrange(0, n), player, colour);
        lemma_held_specialties_nonneg(planets, board[n].planet_control@, player, colour);
    } else {
        assert(board.subrange(0, n) =~= board);
        lemma_board_specialties_nonneg(planets, board, player, colour);
    }
}

proof fn lemma_board_specialties_nonneg(planets: Seq<PlanetRecord>, board: Seq<SystemState>, player: Seq<char>, colour: Seq<char>)
    ensures
        board_specialties(planets, board, player, colour) >= 0,
    decreases board.len(),
{
    if board.len() > 0 {
        lemma_board_specialties_nonneg(planets, board.drop_last(), player, colour);
        lemma_held_specialties_nonneg(planets, board.last().planet_control@, player, colour);
    }
}

/// Add one planet's specialties to the per-colour counts.
fn add_matching(specialties: &Vec<String>, counts: &mut [usize; 4])
    requires
        forall|j: int| 0 <= j < 4 ==> old(counts)@[j] + matching(names(specialties@), #[trigger] colour_name(j)) <= usize::MAX,
    ensures
        forall|j: int| 0 <= j < 4 ==> final(counts)@[j] == old(counts)@[j] + matching(names(specialties@), #[trigger] colour_name(j)),
{
    let ghost start = counts@;
    let mut c: usize = 0;
    while c < specialties.len()
        invariant
            c <= specialties@.len(),
            counts@.len() == 4,
            start.len() == 4,
            forall|j: int| 0 <= j < 4 ==> start[j] + matching(names(specialties@), #[trigger] colour_name(j)) <= usize::MAX,
            forall|j: int| 0 <= j < 4 ==> counts@[j] == start[j] + matching(names(specialties@.subrange(0, c as int)), #[trigger] colour_name(j)),
        decreases specialties@.len() - c,
    {
        let ghost prev = names(specialties@.subrange(0, c as int));
        let ghost next = names(specialties@.subrange(0, c + 1));
        assert(next.drop_last() =~= prev);
        assert(next.last() == specialties@[c as int]@);
        assert(names(specialties@.subrange(0, c + 1)) =~= names(specialties@).subrange(0, c + 1));
        let ghost before = counts@;
        let upper = to_upper(specialties[c].as_str());
        let slot: Option<usize> = if str_eq(upper.as_str(), "BIOTIC") {
            Some(0)
        } else if str_eq(upper.as_str(), "CYBERNETIC") {
            Some(1)
        } else if str_eq(upper.as_str(), "PROPULSION") {
            Some(2)
        } else if str_eq(upper.as_str(), "WARFARE") {
            Some(3)
        } else {
            None
        };
        proof {
            lemma_colour_names_distinct();
            reveal_strlit("BIOTIC");
            reveal_strlit("CYBERNETIC");
            reveal_strlit("PROPULSION");
            reveal_strlit("WARFARE");
            assert forall|j: int| 0 <= j < 4 implies before[j] + (if upper_text(specialties@[c as int]@) == #[trigger] colour_name(j) {
                1int
            } else {
                0int
            }) <= usize::MAX by {
                lemma_matching_prefix(names(specialties@), colour_name(j), c + 1);
            }
        }
        match slot {
            Some(j) => {
                assert(upper_text(specialties@[c as int]@) == colour_name(j as int));
                counts[j] = counts[j] + 1;
            },
            None => {
                assert(forall|j: int| 0 <= j < 4 ==> upper_text(specialties@[c as int]@) != #[trigger] colour_name(j));
            },
        }
        proof {
            assert forall|j: int| 0 <= j < 4 implies counts@[j] == start[j] + matching(next, #[trigger] colour_name(j)) by {
                assert(before[j] == start[j] + matching(prev, colour_name(j)));
                assert(matching(next, colour_name(j)) == matching(prev, colour_name(j)) + if upper_text(specialties@[c as int]@)
                    == colour_name(j) {
                    1int
                } else {
                    0int
                });
            }
        }
        c = c + 1;
    }
    assert(specialties@.subrange(0, c as int) =~= specialties@);
}

/// Add the specialties of the planets a control list gives this player to the per-colour counts.
fn add_held(control: &Vec<(String, String)>, planets: &Vec<PlanetRecord>, player: &str, counts: &mut [usize; 4])
    requires
        forall|j: int| 0 <= j < 4 ==> old(counts)@[j] + held_specialties(planets@, control@, player@, #[trigger] colour_name(j)) <= usize::MAX,
    ensures
        forall|j: int| 0 <= j < 4 ==> final(counts)@[j] == old(counts)@[j] + held_specialties(planets@, control@, player@, #[trigger] colour_name(j)),
{
    let ghost start = counts@;
    let mut b: usize = 0;
    while b < control.len()
        invariant
            b <= control@.len(),
            counts@.len() == 4,
            start.len() == 4,
            forall|j: int| 0 <= j < 4 ==> start[j] + held_specialties(planets@, control@, player@, #[trigger] colour_name(j)) <= usize::MAX,
            forall|j: int| 0 <= j < 4 ==> counts@[j] == start[j] + held_specialties(planets@, control@.subrange(0, b as int), player@, #[trigger] colour_name(j)),
        decreases control@.len() - b,
    {
        let ghost prev = control@.subrange(0, b as int);
        let ghost next = control@.subrange(0, b + 1);
        assert(next.drop_last() =~= prev);
        proof {
            assert forall|j: int| 0 <= j < 4 implies counts@[j] + (if control@[b as int].1@ == player@ {
                planet_specialties(planets@, control@[b as int].0@, #[trigger] colour_name(j))
            } else {
                0
            }) <= usize::MAX by {
                lemma_held_specialties_prefix(planets@, control@, player@, colour_name(j), b + 1);
            }
        }
        if str_eq(control[b].1.as_str(), player) {
            match find_planet(planets, control[b].0.as_str()) {
                Some(k) => {
                    add_matching(&planets[k].specialties, counts);
                },
                None => {},
            }
        }
        b = b + 1;
    }
    assert(control@.subrange(0, b as int) =~= control@);
}

/// Specialties per colour slot on the planets a player controls.
fn specialty_counts(state: &GameState, planets: &Vec<PlanetRecord>, player: &str) -> (counts: [usize; 4])
    requires
        forall|j: int| 0 <= j < 4 ==> #[trigger] specialty_at(*state, planets@, player@, j) <= usize::MAX,
    ensures
        forall|j: int| 0 <= j < 4 ==> counts@[j] == #[trigger] specialty_at(*state, planets@, player@, j),
{
    let mut counts: [usize; 4] = [0, 0, 0, 0];
    let board = &state.board;
    let mut a: usize = 0;
    assert(board@.subrange(0, 0) =~= Seq::<SystemState>::empty());
    assert forall|j: int| 0 <= j < 4 implies board_specialties(planets@, board@, player@, #[trigger] colour_name(j)) <= usize::MAX by {
        assert(specialty_at(*state, planets@, player@, j) <= usize::MAX);
    }
    while a < board.len()
        invariant
            a <= board@.len(),
            counts@.len() == 4,
            forall|j: int| 0 <= j < 4 ==> board_specialties(planets@, board@, player@, #[trigger] colour_name(j)) <= usize::MAX,
            forall|j: int| 0 <= j < 4 ==> counts@[j] == board_specialties(planets@, board@.subrange(0, a as int), player@, #[trigger] colour_name(j)),
        decreases board@.len() - a,
    {
        let ghost prev = board@.subrange(0, a as int);
        let ghost next = board@.subrange(0, a + 1);
        assert(next.drop_last() =~= prev);
        proof {
            assert forall|j: int| 0 <= j < 4 implies counts@[j] + held_specialties(planets@, board@[a as int].planet_control@, player@, #[trigger] colour_name(j)) <= usize::MAX by {
                lemma_board_specialties_prefix(planets@, board@, player@, colour_name(j), a + 1);
            }
        }
        add_held(&board[a].planet_control, planets, player, &mut counts);
        a = a + 1;
    }
    assert(board@.subrange(0, a as int) =~= board@);
    assert forall|j: int| 0 <= j < 4 implies counts@[j] == #[trigger] specialty_at(*state, planets@, player@, j) by {
        assert(counts@[j] == board_specialties(planets@, board@, player@, colour_name(j)));
    }
    counts
}

/// Technology specialties on the planets this player controls, by colour, in the order the
/// colours sort. A specialty stands in for one prerequisite of its colour (90.8).
pub fn specialties(state: &GameState, planets: &Vec<PlanetRecord>, player: &str) -> (found: Vec<(String, usize)>)
    requires
        forall|j: int| 0 <= j < 4 ==> #[trigger] specialty_at(*state, planets@, player@, j) <= usize::MAX,
    ensures
        counts_view(found@) == spec_specialties(*state, planets@, player@),
{
    let counts = specialty_counts(state, planets, player);
    colour_counts(&counts)
}

/// All a requirement asks, added up.
pub open spec fn needs_total(needs: Seq<(Seq<char>, int)>) -> int
    decreases needs.len(),
{
    if needs.len() == 0 {
        0
    } else {
        needs_total(needs.drop_last()) + needs.last().1
    }
}

proof fn lemma_needs_total_append(a: Seq<(Seq<char>, int)>, b: Seq<(Seq<char>, int)>)
    ensures
        needs_total(a + b) == needs_total(a) + needs_total(b),
    decreases b.len(),
{
    if b.len() == 0 {
        assert(a + b =~= a);
    } else {
        lemma_needs_total_append(a, b.drop_last());
        assert((a + b).drop_last() =~= a + b.drop_last());
        assert((a + b).last() == b.last());
    }
}

proof fn lemma_needs_total_entry(colour: Seq<char>, n: int)
    ensures
        needs_total(entry(colour, n)) == if n > 0 { n } else { 0 },
{
    let e = entry(colour, n);
    if n > 0 {
        assert(e.len() == 1);
        assert(e.drop_last() =~= Seq::<(Seq<char>, int)>::empty());
        assert(e.last() == (colour, n));
        assert(needs_total(e.drop_last()) == 0);
    } else {
        assert(e.len() == 0);
    }
}

proof fn lemma_needs_total_entries(b: int, c: int, p: int, w: int)
    requires
        b >= 0 && c >= 0 && p >= 0 && w >= 0,
    ensures
        needs_total(colour_entries(b, c, p, w)) == b + c + p + w,
{
    let e0 = entry(colour_name(0), b);
    let e1 = entry(colour_name(1), c);
    let e2 = entry(colour_name(2), p);
    let e3 = entry(colour_name(3), w);
    lemma_needs_total_entry(colour_name(0), b);
    lemma_needs_total_entry(colour_name(1), c);
    lemma_needs_total_entry(colour_name(2), p);
    lemma_needs_total_entry(colour_name(3), w);
    lemma_needs_total_append(e0, e1);
    lemma_needs_total_append(e0 + e1, e2);
    lemma_needs_total_append(e0 + e1 + e2, e3);
}

/// Each letter of a requirement names at most one colour.
proof fn lemma_letters_total(printed: Seq<char>)
    ensures
        letters_for(printed, colour_name(0)) >= 0,
        letters_for(printed, colour_name(1)) >= 0,
        letters_for(printed, colour_name(2)) >= 0,
        letters_for(printed, colour_name(3)) >= 0,
        letters_for(printed, colour_name(0)) + letters_for(printed, colour_name(1)) + letters_for(printed, colour_name(2))
            + letters_for(printed, colour_name(3)) <= printed.len(),
    decreases printed.len(),
{
    if printed.len() > 0 {
        lemma_letters_total(printed.drop_last());
        lemma_colour_names_distinct();
    }
}

/// What a requirement asks of a pair never exceeds all it asks.
proof fn lemma_pair_wanted_total(needs: Seq<(Seq<char>, int)>, pair: Option<(Seq<char>, Seq<char>)>)
    requires
        forall|j: int| 0 <= j < needs.len() ==> (#[trigger] needs[j]).1 >= 0,
    ensures
        pair_wanted(needs, pair) <= needs_total(needs),
    decreases needs.len(),
{
    if needs.len() > 0 {
        lemma_pair_wanted_total(needs.drop_last(), pair);
        assert(needs.last() == needs[needs.len() - 1]);
    }
}

proof fn lemma_owned_count_nonneg(records: Seq<TechRecord>, techs: Seq<Seq<char>>, colour: Seq<char>)
    ensures
        owned_count(records, techs, colour) >= 0,
    decreases techs.len(),
{
    if techs.len() > 0 {
        lemma_owned_count_nonneg(records, techs.drop_last(), colour);
    }
}

/// What a player holds of a colour for research: technologies owned and specialties controlled,
/// pooled (synergy rule 2 names both and treats them alike).
pub open spec fn holding_at(state: GameState, records: Seq<TechRecord>, planets: Seq<PlanetRecord>, player: Seq<char>, j: int) -> int {
    owned_at(state, records, player, j) + specialty_at(state, planets, player, j)
}

/// A player's research holdings as a count list.
pub open spec fn spec_holdings(state: GameState, records: Seq<TechRecord>, planets: Seq<PlanetRecord>, player: Seq<char>) -> Seq<(Seq<char>, int)> {
    colour_entries(
        holding_at(state, records, planets, player, 0),
        holding_at(state, records, planets, player, 1),
        holding_at(state, records, planets, player, 2),
        holding_at(state, records, planets, player, 3),
    )
}

/// Whether a technology's own text forbids researching it: some cards say so of themselves.
pub open spec fn forbids_research(text: Seq<char>) -> bool {
    has_phrase(lower_text(text), "cannot be researched"@)
}

/// Whether a player gets as far as the prerequisite check: the technology is in the catalogue,
/// the player sits at the table and lacks it, its text does not forbid research, and a faction
/// technology is their own faction's (90.11).
pub open spec fn reaches_prerequisites(state: GameState, records: Seq<TechRecord>, player: Seq<char>, alias: Seq<char>) -> bool {
    let k = tech_index(records, alias);
    let i = seat_of(state.players@, player);
    &&& k >= 0
    &&& i >= 0
    &&& !names(state.players@[i].technologies@).contains(alias)
    &&& !forbids_research(records[k].text@)
    &&& match tech_faction(records, alias) {
        Some(f) => f == state.players@[i].faction@,
        None => true,
    }
}

/// Whether a player may research a technology now: they reach the prerequisite check, and their
/// holdings, with their synergy pair pooled and `waivable` prerequisites waived, meet it.
pub open spec fn spec_can_research(
    state: GameState,
    records: Seq<TechRecord>,
    planets: Seq<PlanetRecord>,
    breakthroughs: Seq<Breakthrough>,
    player: Seq<char>,
    alias: Seq<char>,
    waivable: int,
) -> bool {
    &&& reaches_prerequisites(state, records, player, alias)
    &&& spec_satisfies(
        spec_prerequisites(records[tech_index(records, alias)].requirements@),
        spec_holdings(state, records, planets, player),
        spec_pair(state, breakthroughs, player),
        waivable,
    )
}

/// Whether a player's holdings of each colour fit the counters they are added up in.
pub open spec fn holdings_fit(state: GameState, records: Seq<TechRecord>, planets: Seq<PlanetRecord>, player: Seq<char>) -> bool {
    forall|j: int| 0 <= j < 4 ==> #[trigger] holding_at(state, records, planets, player, j) <= usize::MAX
}

/// Whether this player may research a technology now.
///
/// `waivable` is how many prerequisites the player's faction abilities waive for this
/// technology, applied as a budget across the whole requirement. Holdings are counted in
/// machine words, so they must fit one.
pub fn can_research(
    state: &GameState,
    records: &Vec<TechRecord>,
    planets: &Vec<PlanetRecord>,
    breakthroughs: &Vec<Breakthrough>,
    player: &str,
    alias: &str,
    waivable: usize,
) -> (allowed: bool)
    requires
        reaches_prerequisites(*state, records@, player@, alias@) ==> holdings_fit(*state, records@, planets@, player@),
    ensures
        allowed == spec_can_research(*state, records@, planets@, breakthroughs@, player@, alias@, waivable as int),
{
    let k = match find_tech(records, alias) {
        Some(k) => k,
        None => return false,
    };
    let i = match find_seat(&state.players, player) {
        Some(i) => i,
        None => return false,
    };
    let seat = &state.players[i];
    if contains_name(&seat.technologies, alias) {
        return false;
    }
    let lowered = to_lower(records[k].text.as_str());
    if contains_text(lowered.as_str(), "cannot be researched") {
        return false;
    }
    match faction_of(records, alias) {
        Some(f) => {
            if !str_eq(f.as_str(), seat.faction.as_str()) {
                return false;
            }
        },
        None => {},
    }
    assert(reaches_prerequisites(*state, records@, player@, alias@));
    let owned = owned_counts(state, records, player);
    proof {
        assert forall|j: int| 0 <= j < 4 implies #[trigger] specialty_at(*state, planets@, player@, j) <= usize::MAX by {
            assert(holding_at(*state, records@, planets@, player@, j) <= usize::MAX);
            lemma_owned_count_nonneg(records@, names(seat.technologies@), colour_name(j));
        }
    }
    let found = specialty_counts(state, planets, player);
    let mut sum: [usize; 4] = [0, 0, 0, 0];
    let mut j: usize = 0;
    while j < 4
        invariant
            j <= 4,
            sum@.len() == 4,
            holdings_fit(*state, records@, planets@, player@),
            forall|m: int| 0 <= m < 4 ==> owned@[m] == #[trigger] owned_at(*state, records@, player@, m),
            forall|m: int| 0 <= m < 4 ==> found@[m] == #[trigger] specialty_at(*state, planets@, player@, m),
            forall|m: int| 0 <= m < j ==> sum@[m] == #[trigger] holding_at(*state, records@, planets@, player@, m),
        decreases 4 - j,
    {
        assert(holding_at(*state, records@, planets@, player@, j as int) <= usize::MAX);
        assert(owned_at(*state, records@, player@, j as int) + specialty_at(*state, planets@, player@, j as int) == holding_at(
            *state,
            records@,
            planets@,
            player@,
            j as int,
        ));
        sum[j] = owned[j] + found[j];
        j = j + 1;
    }
    let holdings = colour_counts(&sum);
    let needs = prerequisites(records[k].requirements.as_str());
    let pair = pair(state, breakthroughs, player);
    let joined = pair.as_ref();
    proof {
        assert(counts_view(holdings@) == spec_holdings(*state, records@, planets@, player@));
        assert(pair_view(joined) == spec_pair(*state, breakthroughs@, player@));
        assert forall|m: int| 0 <= m < counts_view(needs@).len() implies (#[trigger] counts_view(needs@)[m]).1 >= 0 by {}
        lemma_pair_wanted_total(counts_view(needs@), pair_view(joined));
        lemma_colour_entries_keyed(
            letters_for(records@[k as int].requirements@, colour_name(0)),
            letters_for(records@[k as int].requirements@, colour_name(1)),
            letters_for(records@[k as int].requirements@, colour_name(2)),
            letters_for(records@[k as int].requirements@, colour_name(3)),
        );
        lemma_colour_entries_keyed(
            holding_at(*state, records@, planets@, player@, 0),
            holding_at(*state, records@, planets@, player@, 1),
            holding_at(*state, records@, planets@, player@, 2),
            holding_at(*state, records@, planets@, player@, 3),
        );
    }
    satisfies(&needs, &holdings, joined, waivable)
}

/// The state after a player gains a technology (90.5): it joins their technologies unless they
/// already have it; a player not at the table gains nothing.
pub open spec fn granted(state: GameState, player: Seq<char>, alias: Seq<char>) -> Seq<Seq<char>> {
    let i = seat_of(state.players@, player);
    let held = names(state.players@[i].technologies@);
    if held.contains(alias) {
        held
    } else {
        held.push(alias)
    }
}

/// Gain a technology outright (90.5), without checking prerequisites.
///
/// Separate from [`research`] because gaining is not researching: several effects grant a
/// technology directly, and the rules that fire on *research* must not fire for those.
pub fn grant(state: &mut GameState, player: &str, alias: &str)
    ensures
        seat_of(old(state).players@, player@) < 0 ==> *final(state) == *old(state),
        seat_of(old(state).players@, player@) >= 0 ==> {
            let i = seat_of(old(state).players@, player@);
            &&& final(state).players@.len() == old(state).players@.len()
            &&& forall|j: int| 0 <= j < old(state).players@.len() && j != i ==> final(state).players@[j] == old(state).players@[j]
            &&& names(final(state).players@[i].technologies@) == granted(*old(state), player@, alias@)
            &&& final(state).players@[i] == (crate::state::Seat {
                technologies: final(state).players@[i].technologies,
                ..old(state).players@[i]
            })
        },
        *final(state) == (GameState { players: final(state).players, ..*old(state) }),
{
    let i = match find_seat(&state.players, player) {
        Some(i) => i,
        None => return,
    };
    if contains_name(&state.players[i].technologies, alias) {
        return;
    }
    let mut seat = state.players.remove(i);
    let ghost before = seat.technologies@;
    seat.technologies.push(alias.to_string());
    assert(names(seat.technologies@) =~= names(before).push(alias@));
    state.players.insert(i, seat);
}

/// Research a technology, having satisfied its prerequisites: `false`, and nothing changed, if
/// it could not be.
pub fn research(
    state: &mut GameState,
    records: &Vec<TechRecord>,
    planets: &Vec<PlanetRecord>,
    breakthroughs: &Vec<Breakthrough>,
    player: &str,
    alias: &str,
    waivable: usize,
) -> (researched: bool)
    requires
        reaches_prerequisites(*old(state), records@, player@, alias@) ==> holdings_fit(*old(state), records@, planets@, player@),
    ensures
        researched == spec_can_research(*old(state), records@, planets@, breakthroughs@, player@, alias@, waivable as int),
        !researched ==> *final(state) == *old(state),
        researched ==> {
            let i = seat_of(old(state).players@, player@);
            &&& final(state).players@.len() == old(state).players@.len()
            &&& forall|j: int| 0 <= j < old(state).players@.len() && j != i ==> final(state).players@[j] == old(state).players@[j]
            &&& names(final(state).players@[i].technologies@) == names(old(state).players@[i].technologies@).push(alias@)
            &&& final(state).players@[i] == (crate::state::Seat {
                technologies: final(state).players@[i].technologies,
                ..old(state).players@[i]
            })
            &&& *final(state) == (GameState { players: final(state).players, ..*old(state) })
        },
{
    if !can_research(state, records, planets, breakthroughs, player, alias, waivable) {
        return false;
    }
    grant(state, player, alias);
    true
}

/// The aliases a player could research now, in catalogue order: those in the current deck that
/// the player may research, each with the waiver its entry in `waivers` gives (none without one).
pub open spec fn researchable_aliases(
    state: GameState,
    records: Seq<TechRecord>,
    active: Seq<Seq<char>>,
    planets: Seq<PlanetRecord>,
    breakthroughs: Seq<Breakthrough>,
    player: Seq<char>,
    waivers: Seq<(Seq<char>, int)>,
) -> Seq<Seq<char>> {
    records.map_values(|r: TechRecord| r.alias@).filter(
        |a: Seq<char>| active.contains(a) && spec_can_research(state, records, planets, breakthroughs, player, a, held(waivers, a)),
    )
}

/// Whether names never decrease.
pub open spec fn sorted_names(s: Seq<Seq<char>>) -> bool {
    forall|i: int, j: int| 0 <= i < j < s.len() ==> !name_lt(#[trigger] s[j], #[trigger] s[i])
}

/// Insert a name where it keeps a sorted list sorted: before the first name it sorts before.
pub(crate) fn insert_sorted(list: &mut Vec<String>, name: String)
    requires
        sorted_names(names(old(list)@)),
    ensures
        sorted_names(names(final(list)@)),
        names(final(list)@).to_multiset() == names(old(list)@).to_multiset().insert(name@),
{
    let mut p: usize = 0;
    while p < list.len()
        invariant
            p <= list@.len(),
            forall|q: int| 0 <= q < p ==> !name_lt(name@, #[trigger] list@[q]@),
        ensures
            p <= list@.len(),
            forall|q: int| 0 <= q < p ==> !name_lt(name@, #[trigger] list@[q]@),
            p < list@.len() ==> name_lt(name@, list@[p as int]@),
        decreases list@.len() - p,
    {
        if str_lt(name.as_str(), list[p].as_str()) {
            break;
        }
        p = p + 1;
    }
    let ghost before = names(list@);
    let ghost at = p as int;
    let ghost stop = p < list@.len();
    let ghost x = name@;
    list.insert(p, name);
    proof {
        assert(names(list@) =~= before.insert(at, x));
        vstd::seq_lib::to_multiset_insert(before, at, x);
        let after = names(list@);
        assert forall|i: int, j: int| 0 <= i < j < after.len() implies !name_lt(#[trigger] after[j], #[trigger] after[i]) by {
            if j < at {
                assert(after[i] == before[i] && after[j] == before[j]);
            } else if j == at {
                assert(after[i] == before[i]);
                assert(after[j] == x);
                assert(!name_lt(x, list@[i]@));
                lemma_name_lt_total(x, before[i]);
                if x != before[i] {
                }
            } else if i == at {
                assert(after[j] == before[j - 1]);
                assert(stop);
                assert(name_lt(x, before[at]));
                if name_lt(before[j - 1], x) {
                    lemma_name_lt_transitive(before[j - 1], x, before[at]);
                    if j - 1 > at {
                        assert(!name_lt(before[j - 1], before[at]));
                    } else {
                        lemma_name_lt_irreflexive(before[at]);
                    }
                }
            } else if i < at {
                assert(after[i] == before[i] && after[j] == before[j - 1]);
            } else {
                assert(after[i] == before[i - 1] && after[j] == before[j - 1]);
            }
        }
    }
}

/// Everything this player could research now, sorted by alias.
///
/// The order is canonical, not the catalogue's layout: option order must not follow corpus
/// extraction order. `active` lists the aliases of the current deck, which holds one printing of
/// each technology; `waivers` gives, per alias, how many prerequisites the player's faction
/// abilities waive for it.
pub fn researchable(
    state: &GameState,
    records: &Vec<TechRecord>,
    active: &Vec<String>,
    planets: &Vec<PlanetRecord>,
    breakthroughs: &Vec<Breakthrough>,
    player: &str,
    waivers: &Vec<(String, usize)>,
) -> (open: Vec<String>)
    requires
        forall|k: int| 0 <= k < records@.len() ==> reaches_prerequisites(*state, records@, player@, #[trigger] records@[k].alias@)
            ==> holdings_fit(*state, records@, planets@, player@),
    ensures
        sorted_names(names(open@)),
        names(open@).to_multiset() == researchable_aliases(
            *state,
            records@,
            names(active@),
            planets@,
            breakthroughs@,
            player@,
            counts_view(waivers@),
        ).to_multiset(),
{
    let ghost all = records@.map_values(|r: TechRecord| r.alias@);
    let ghost pred = |a: Seq<char>| names(active@).contains(a) && spec_can_research(
        *state,
        records@,
        planets@,
        breakthroughs@,
        player@,
        a,
        held(counts_view(waivers@), a),
    );
    let mut open: Vec<String> = Vec::new();
    let mut k: usize = 0;
    assert(all.subrange(0, 0).filter(pred) =~= Seq::<Seq<char>>::empty()) by {
        reveal_with_fuel(Seq::<Seq<char>>::filter, 1);
    }
    assert(names(open@) =~= all.subrange(0, 0).filter(pred));
    while k < records.len()
        invariant
            k <= records@.len(),
            all == records@.map_values(|r: TechRecord| r.alias@),
            pred == (|a: Seq<char>| names(active@).contains(a) && spec_can_research(
                *state,
                records@,
                planets@,
                breakthroughs@,
                player@,
                a,
                held(counts_view(waivers@), a),
            )),
            forall|m: int| 0 <= m < records@.len() ==> reaches_prerequisites(*state, records@, player@, #[trigger] records@[m].alias@)
                ==> holdings_fit(*state, records@, planets@, player@),
            sorted_names(names(open@)),
            names(open@).to_multiset() == all.subrange(0, k as int).filter(pred).to_multiset(),
        decreases records@.len() - k,
    {
        let ghost prefix = all.subrange(0, k as int).filter(pred);
        proof {
            reveal_with_fuel(Seq::<Seq<char>>::filter, 1);
            assert(all.subrange(0, k + 1).drop_last() =~= all.subrange(0, k as int));
            assert(all.subrange(0, k + 1).last() == records@[k as int].alias@);
        }
        let alias = records[k].alias.as_str();
        if contains_name(active, alias) {
            let waivable = held_of(waivers, alias);
            if can_research(state, records, planets, breakthroughs, player, alias, waivable) {
                insert_sorted(&mut open, alias.to_string());
                proof {
                    assert(all.subrange(0, k + 1).filter(pred) == prefix.push(alias@));
                    vstd::seq_lib::to_multiset_build(prefix, alias@);
                }
            }
        }
        k = k + 1;
    }
    assert(all.subrange(0, k as int) =~= all);
    open
}

/// A technology is researched once: after a player researches it, the same player may not
/// research it again, whatever their holdings or waivers.
pub proof fn researched_once(
    before: GameState,
    after: GameState,
    records: Seq<TechRecord>,
    planets: Seq<PlanetRecord>,
    breakthroughs: Seq<Breakthrough>,
    player: Seq<char>,
    alias: Seq<char>,
    waivable: int,
)
    requires
        seat_of(before.players@, player) >= 0,
        after.players@.len() == before.players@.len(),
        forall|j: int| 0 <= j < before.players@.len() && j != seat_of(before.players@, player) ==> after.players@[j]
            == before.players@[j],
        after.players@[seat_of(before.players@, player)].id == before.players@[seat_of(before.players@, player)].id,
        names(after.players@[seat_of(before.players@, player)].technologies@) == names(
            before.players@[seat_of(before.players@, player)].technologies@,
        ).push(alias),
    ensures
        !spec_can_research(after, records, planets, breakthroughs, player, alias, waivable),
{
    let i = seat_of(before.players@, player);
    assert forall|j: int| 0 <= j < after.players@.len() implies (#[trigger] after.players@[j]).id@ == before.players@[j].id@ by {
        if j != i {
            assert(after.players@[j] == before.players@[j]);
        }
    }
    lemma_seat_of_same_ids(after.players@, before.players@, player);
    let held = names(after.players@[i].technologies@);
    assert(held[held.len() - 1] == alias);
}

/// Whether Gravity Drive may still raise one ship's move in this tactical action: the player
/// owns it and has not used it in this activation.
pub open spec fn spec_gravity_drive_available(state: GameState, player: Seq<char>) -> bool {
    let i = seat_of(state.players@, player);
    &&& i >= 0
    &&& names(state.players@[i].technologies@).contains("gd"@)
    &&& state.players@[i].gravity_drive_used_activation != Some(state.activation_seq)
}

/// Whether Gravity Drive may still raise one ship's move in this tactical action.
pub fn gravity_drive_available(state: &GameState, player: &str) -> (available: bool)
    ensures
        available == spec_gravity_drive_available(*state, player@),
{
    match find_seat(&state.players, player) {
        Some(i) => {
            let seat = &state.players[i];
            contains_name(&seat.technologies, "gd") && match seat.gravity_drive_used_activation {
                Some(used) => used != state.activation_seq,
                None => true,
            }
        },
        None => false,
    }
}

/// Spend Gravity Drive's once-per-tactical-action movement bonus: marked used in this
/// activation, and `false`, with nothing changed, when it is not available.
pub fn use_gravity_drive(state: &mut GameState, player: &str) -> (used: bool)
    ensures
        used == spec_gravity_drive_available(*old(state), player@),
        !used ==> *final(state) == *old(state),
        used ==> {
            let i = seat_of(old(state).players@, player@);
            &&& final(state).players@.len() == old(state).players@.len()
            &&& forall|j: int| 0 <= j < old(state).players@.len() && j != i ==> final(state).players@[j] == old(state).players@[j]
            &&& final(state).players@[i] == (crate::state::Seat {
                gravity_drive_used_activation: Some(old(state).activation_seq),
                ..old(state).players@[i]
            })
            &&& *final(state) == (GameState { players: final(state).players, ..*old(state) })
        },
{
    if !gravity_drive_available(state, player) {
        return false;
    }
    let i = find_seat(&state.players, player).unwrap();
    let activation = state.activation_seq;
    let mut seat = state.players.remove(i);
    seat.gravity_drive_used_activation = Some(activation);
    state.players.insert(i, seat);
    true
}

/// Gravity Drive is once per tactical action: after a player uses it, it is spent for the rest
/// of that activation, and available again in any other.
pub proof fn gravity_drive_once_per_activation(before: GameState, after: GameState, player: Seq<char>, next: u64)
    requires
        spec_gravity_drive_available(before, player),
        after.players@.len() == before.players@.len(),
        forall|j: int| 0 <= j < before.players@.len() && j != seat_of(before.players@, player) ==> after.players@[j]
            == before.players@[j],
        after.players@[seat_of(before.players@, player)] == (crate::state::Seat {
            gravity_drive_used_activation: Some(before.activation_seq),
            ..before.players@[seat_of(before.players@, player)]
        }),
        after == (GameState { players: after.players, ..before }),
        next != before.activation_seq,
    ensures
        !spec_gravity_drive_available(after, player),
        spec_gravity_drive_available(GameState { activation_seq: next, ..after }, player),
{
    let i = seat_of(before.players@, player);
    assert forall|j: int| 0 <= j < after.players@.len() implies (#[trigger] after.players@[j]).id@ == before.players@[j].id@ by {
        if j != i {
            assert(after.players@[j] == before.players@[j]);
        }
    }
    lemma_seat_of_same_ids(after.players@, before.players@, player);
}

} // verus!
