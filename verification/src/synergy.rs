//! Synergy (Thunder's Edge).
//!
//! A breakthrough grants synergy between two technology colours, letting components of one be
//! treated as the other. A synergy pair makes its two colours interchangeable within the pair, so
//! a holding of `a` of one colour and `b` of the other fills any split of a requirement asking
//! `na` and `nb` of them exactly when `a + b >= na + nb`. Colours outside the pair check as they
//! always did. The assignment is asked for at each check rather than stored, because each
//! component may be treated as a different colour at a different time.

use vstd::prelude::*;
use crate::state::{find_seat, seat_of, GameState};
use crate::text::str_eq;

verus! {

/// A breakthrough as the corpus records it: its alias and the colours its synergy joins.
#[derive(Debug)]
pub struct Breakthrough {
    pub alias: String,
    pub synergy: Vec<String>,
}

/// A character as `char::to_ascii_uppercase` maps it: `a` to `z` become `A` to `Z`, every other
/// character stays as it is.
pub open spec fn ascii_upper(c: char) -> char {
    if 'a' <= c && c <= 'z' {
        ((c as u32) - 32) as char
    } else {
        c
    }
}

/// A text with each character mapped to its ASCII upper case.
pub open spec fn upper_text(s: Seq<char>) -> Seq<char> {
    s.map_values(|c: char| ascii_upper(c))
}

/// `str::to_ascii_uppercase`: std documents that ASCII letters `a` to `z` are mapped to `A` to
/// `Z` and every other character is left unchanged.
#[verifier::external_body]
pub(crate) fn to_upper(s: &str) -> (upper: String)
    ensures
        upper@ == upper_text(s@),
{
    s.to_ascii_uppercase()
}

/// The first breakthrough record with the given alias.
pub open spec fn record_index(records: Seq<Breakthrough>, alias: Seq<char>) -> int
    decreases records.len(),
{
    if records.len() == 0 {
        -1
    } else {
        let k = record_index(records.drop_last(), alias);
        if k >= 0 {
            k
        } else if records.last().alias@ == alias {
            records.len() - 1
        } else {
            -1
        }
    }
}

/// The two colours a player's breakthrough makes interchangeable, upper-cased, if they have one.
pub open spec fn spec_pair(state: GameState, records: Seq<Breakthrough>, player: Seq<char>) -> Option<
    (Seq<char>, Seq<char>),
> {
    let i = seat_of(state.players@, player);
    if i < 0 {
        None
    } else {
        match state.players@[i].breakthrough {
            None => None,
            Some(alias) => {
                let k = record_index(records, alias@);
                if k < 0 || records[k].synergy@.len() != 2 {
                    None
                } else {
                    Some((upper_text(records[k].synergy@[0]@), upper_text(records[k].synergy@[1]@)))
                }
            },
        }
    }
}

proof fn lemma_record_index(records: Seq<Breakthrough>, alias: Seq<char>)
    ensures
        -1 <= record_index(records, alias) < records.len(),
        record_index(records, alias) >= 0 ==> records[record_index(records, alias)].alias@ == alias,
        record_index(records, alias) == -1 ==> forall|j: int| 0 <= j < records.len() ==> records[j].alias@ != alias,
        forall|j: int| 0 <= j < record_index(records, alias) ==> records[j].alias@ != alias,
    decreases records.len(),
{
    if records.len() > 0 {
        let rest = records.drop_last();
        lemma_record_index(rest, alias);
        assert forall|j: int| 0 <= j < rest.len() implies #[trigger] records[j] == rest[j] by {}
    }
}

fn find_record(records: &Vec<Breakthrough>, alias: &str) -> (found: Option<usize>)
    ensures
        match found {
            Some(k) => k as int == record_index(records@, alias@) && k < records@.len(),
            None => record_index(records@, alias@) == -1,
        },
{
    proof {
        lemma_record_index(records@, alias@);
    }
    let mut k: usize = 0;
    while k < records.len()
        invariant
            k <= records@.len(),
            forall|j: int| 0 <= j < k ==> records@[j].alias@ != alias@,
            -1 <= record_index(records@, alias@) < records@.len(),
            record_index(records@, alias@) >= 0 ==> records@[record_index(records@, alias@)].alias@ == alias@,
            record_index(records@, alias@) == -1 ==> forall|j: int| 0 <= j < records@.len() ==> records@[j].alias@ != alias@,
            forall|j: int| 0 <= j < record_index(records@, alias@) ==> records@[j].alias@ != alias@,
        decreases records@.len() - k,
    {
        if str_eq(records[k].alias.as_str(), alias) {
            return Some(k);
        }
        k = k + 1;
    }
    None
}

/// The two colours a player's breakthrough makes interchangeable, if they have one. A
/// breakthrough whose record names no two synergy colours yields `None`, as does a player who has
/// not gained theirs.
pub fn pair(state: &GameState, records: &Vec<Breakthrough>, player: &str) -> (colours: Option<[String; 2]>)
    ensures
        match colours {
            Some(c) => spec_pair(*state, records@, player@) == Some((c@[0]@, c@[1]@)),
            None => spec_pair(*state, records@, player@) is None,
        },
{
    let i = find_seat(&state.players, player)?;
    let alias = match &state.players[i].breakthrough {
        Some(alias) => alias,
        None => return None,
    };
    let k = find_record(records, alias.as_str())?;
    let synergy = &records[k].synergy;
    if synergy.len() != 2 {
        return None;
    }
    let first = to_upper(synergy[0].as_str());
    let second = to_upper(synergy[1].as_str());
    Some([first, second])
}

/// The colours a pair joins, as text.
pub open spec fn pair_view(pair: Option<&[String; 2]>) -> Option<(Seq<char>, Seq<char>)> {
    match pair {
        Some(p) => Some((p@[0]@, p@[1]@)),
        None => None,
    }
}

/// A list of (colour, count), as text and numbers.
pub open spec fn counts_view(counts: Seq<(String, usize)>) -> Seq<(Seq<char>, int)> {
    counts.map_values(|e: (String, usize)| (e.0@, e.1 as int))
}

/// Whether a colour is one of the two a synergy pair joins.
pub open spec fn spec_joins(pair: Option<(Seq<char>, Seq<char>)>, colour: Seq<char>) -> bool {
    match pair {
        Some(p) => p.0 == colour || p.1 == colour,
        None => false,
    }
}

/// Whether a colour is one of the two this player's synergy joins.
pub fn joins(pair: Option<&[String; 2]>, colour: &str) -> (joined: bool)
    ensures
        joined == spec_joins(pair_view(pair), colour@),
{
    match pair {
        Some(p) => str_eq(p[0].as_str(), colour) || str_eq(p[1].as_str(), colour),
        None => false,
    }
}

/// How many of a colour a holding has: the first entry for it, or none.
pub open spec fn held(holdings: Seq<(Seq<char>, int)>, colour: Seq<char>) -> int
    decreases holdings.len(),
{
    if holdings.len() == 0 {
        0
    } else if holdings[0].0 == colour {
        holdings[0].1
    } else {
        held(holdings.drop_first(), colour)
    }
}

/// What a requirement asks of the two colours a synergy pair joins, together.
pub open spec fn pair_wanted(needs: Seq<(Seq<char>, int)>, pair: Option<(Seq<char>, Seq<char>)>) -> int
    decreases needs.len(),
{
    if needs.len() == 0 {
        0
    } else {
        pair_wanted(needs.drop_last(), pair) + if spec_joins(pair, needs.last().0) {
            needs.last().1
        } else {
            0
        }
    }
}

/// How far short a holding falls of the pooled pair.
pub open spec fn pair_short(needs: Seq<(Seq<char>, int)>, holdings: Seq<(Seq<char>, int)>, pair: Option<(Seq<char>, Seq<char>)>) -> int {
    match pair {
        Some(p) => {
            let wanted = pair_wanted(needs, pair);
            let pooled = held(holdings, p.0) + held(holdings, p.1);
            if wanted > 0 && pooled < wanted {
                wanted - pooled
            } else {
                0
            }
        },
        None => 0,
    }
}

/// How far short a holding falls of each colour outside the pair, added up.
pub open spec fn other_short(needs: Seq<(Seq<char>, int)>, holdings: Seq<(Seq<char>, int)>, pair: Option<(Seq<char>, Seq<char>)>) -> int
    decreases needs.len(),
{
    if needs.len() == 0 {
        0
    } else {
        let (colour, need) = needs.last();
        let have = held(holdings, colour);
        other_short(needs.drop_last(), holdings, pair) + if spec_joins(pair, colour) || have >= need {
            0
        } else {
            need - have
        }
    }
}

/// A requirement is met when the waivers cover every shortfall: the pooled pair's and each
/// other colour's.
pub open spec fn spec_satisfies(
    needs: Seq<(Seq<char>, int)>,
    holdings: Seq<(Seq<char>, int)>,
    pair: Option<(Seq<char>, Seq<char>)>,
    waivable: int,
) -> bool {
    pair_short(needs, holdings, pair) + other_short(needs, holdings, pair) <= waivable
}

proof fn lemma_other_short_grows(needs: Seq<(Seq<char>, int)>, holdings: Seq<(Seq<char>, int)>, pair: Option<(Seq<char>, Seq<char>)>, k: int)
    requires
        0 <= k <= needs.len(),
    ensures
        0 <= other_short(needs.subrange(0, k), holdings, pair) <= other_short(needs, holdings, pair),
    decreases needs.len() - k,
{
    if k < needs.len() {
        lemma_other_short_grows(needs, holdings, pair, k + 1);
        assert(needs.subrange(0, k + 1).drop_last() =~= needs.subrange(0, k));
        lemma_other_short_nonneg(needs.subrange(0, k), holdings, pair);
    } else {
        assert(needs.subrange(0, k) =~= needs);
        lemma_other_short_nonneg(needs, holdings, pair);
    }
}

proof fn lemma_other_short_nonneg(needs: Seq<(Seq<char>, int)>, holdings: Seq<(Seq<char>, int)>, pair: Option<(Seq<char>, Seq<char>)>)
    ensures
        other_short(needs, holdings, pair) >= 0,
    decreases needs.len(),
{
    if needs.len() > 0 {
        lemma_other_short_nonneg(needs.drop_last(), holdings, pair);
    }
}

pub(crate) fn held_of(holdings: &Vec<(String, usize)>, colour: &str) -> (count: usize)
    ensures
        count == held(counts_view(holdings@), colour@),
{
    let ghost hv = counts_view(holdings@);
    let mut k: usize = 0;
    assert(hv.subrange(0, hv.len() as int) =~= hv);
    while k < holdings.len()
        invariant
            k <= holdings@.len(),
            hv == counts_view(holdings@),
            held(hv, colour@) == held(hv.subrange(k as int, hv.len() as int), colour@),
        decreases holdings@.len() - k,
    {
        let ghost rest = hv.subrange(k as int, hv.len() as int);
        assert(rest.drop_first() =~= hv.subrange(k + 1, hv.len() as int));
        if str_eq(holdings[k].0.as_str(), colour) {
            return holdings[k].1;
        }
        k = k + 1;
    }
    0
}

/// Whether `holdings` satisfy `needs`, with a synergy pair pooled. Each list names a colour at
/// most once, as a map from colour to count does.
///
/// `waivable` is the faction waiver budget applied across the whole requirement; it exists
/// independently of synergy and is threaded through so the two interact once rather than twice.
pub fn satisfies(
    needs: &Vec<(String, usize)>,
    holdings: &Vec<(String, usize)>,
    pair: Option<&[String; 2]>,
    waivable: usize,
) -> (met: bool)
    requires
        pair_wanted(counts_view(needs@), pair_view(pair)) <= usize::MAX,
        keyed(counts_view(needs@)),
        keyed(counts_view(holdings@)),
    ensures
        met == spec_satisfies(counts_view(needs@), counts_view(holdings@), pair_view(pair), waivable as int),
{
    let ghost nv = counts_view(needs@);
    let ghost hv = counts_view(holdings@);
    let ghost pv = pair_view(pair);
    let mut budget = waivable;
    match pair {
        Some(p) => {
            let mut wanted: usize = 0;
            let mut k: usize = 0;
            while k < needs.len()
                invariant
                    k <= needs@.len(),
                    nv == counts_view(needs@),
                    pv == pair_view(pair),
                    pair == Some(p),
                    pair_wanted(nv, pv) <= usize::MAX,
                    wanted == pair_wanted(nv.subrange(0, k as int), pv),
                decreases needs@.len() - k,
            {
                proof {
                    assert(nv.subrange(0, k + 1).drop_last() =~= nv.subrange(0, k as int));
                    lemma_pair_wanted_grows(nv, pv, k + 1);
                }
                if joins(pair, needs[k].0.as_str()) {
                    wanted = wanted + needs[k].1;
                }
                k = k + 1;
            }
            assert(nv.subrange(0, nv.len() as int) =~= nv);
            if wanted > 0 {
                let pooled: u128 = held_of(holdings, p[0].as_str()) as u128 + held_of(holdings, p[1].as_str()) as u128;
                if pooled < wanted as u128 {
                    let short = (wanted as u128 - pooled) as usize;
                    if budget < short {
                        proof {
                            lemma_other_short_nonneg(nv, hv, pv);
                        }
                        return false;
                    }
                    budget = budget - short;
                }
            }
        },
        None => {},
    }
    let mut k: usize = 0;
    while k < needs.len()
        invariant
            k <= needs@.len(),
            nv == counts_view(needs@),
            hv == counts_view(holdings@),
            pv == pair_view(pair),
            budget + pair_short(nv, hv, pv) + other_short(nv.subrange(0, k as int), hv, pv) == waivable,
        decreases needs@.len() - k,
    {
        proof {
            assert(nv.subrange(0, k + 1).drop_last() =~= nv.subrange(0, k as int));
        }
        if !joins(pair, needs[k].0.as_str()) {
            let have = held_of(holdings, needs[k].0.as_str());
            let need = needs[k].1;
            if have < need {
                let short = need - have;
                if budget < short {
                    proof {
                        lemma_other_short_grows(nv, hv, pv, k + 1);
                    }
                    return false;
                }
                budget = budget - short;
            }
        }
        k = k + 1;
    }
    assert(nv.subrange(0, nv.len() as int) =~= nv);
    true
}

proof fn lemma_pair_wanted_grows(needs: Seq<(Seq<char>, int)>, pair: Option<(Seq<char>, Seq<char>)>, k: int)
    requires
        0 <= k <= needs.len(),
        forall|j: int| 0 <= j < needs.len() ==> (#[trigger] needs[j]).1 >= 0,
    ensures
        0 <= pair_wanted(needs.subrange(0, k), pair) <= pair_wanted(needs, pair),
    decreases needs.len() - k,
{
    if k < needs.len() {
        lemma_pair_wanted_grows(needs, pair, k + 1);
        assert(needs.subrange(0, k + 1).drop_last() =~= needs.subrange(0, k));
        lemma_pair_wanted_nonneg(needs.subrange(0, k), pair);
    } else {
        assert(needs.subrange(0, k) =~= needs);
        lemma_pair_wanted_nonneg(needs, pair);
    }
}

proof fn lemma_pair_wanted_nonneg(needs: Seq<(Seq<char>, int)>, pair: Option<(Seq<char>, Seq<char>)>)
    requires
        forall|j: int| 0 <= j < needs.len() ==> (#[trigger] needs[j]).1 >= 0,
    ensures
        pair_wanted(needs, pair) >= 0,
    decreases needs.len(),
{
    if needs.len() > 0 {
        lemma_pair_wanted_nonneg(needs.drop_last(), pair);
    }
}

/// A synergy pair pools its two colours: a holding of `a` of one and `b` of the other, with `w`
/// prerequisites waived, meets a requirement of `na` and `nb` of them exactly when
/// `a + b + w >= na + nb`, however the requirement is split between the two.
pub proof fn a_pair_pools_its_colours(first: Seq<char>, second: Seq<char>, na: nat, nb: nat, a: nat, b: nat, w: nat)
    requires
        first != second,
    ensures
        spec_satisfies(
            seq![(first, na as int), (second, nb as int)],
            seq![(first, a as int), (second, b as int)],
            Some((first, second)),
            w as int,
        ) <==> a + b + w >= na + nb,
{
    let needs = seq![(first, na as int), (second, nb as int)];
    let holdings = seq![(first, a as int), (second, b as int)];
    let pair = Some((first, second));
    assert(needs.drop_last().drop_last() =~= Seq::<(Seq<char>, int)>::empty());
    let one = needs.drop_last();
    assert(one =~= seq![(first, na as int)]);
    assert(needs.last() == (second, nb as int));
    assert(one.last() == (first, na as int));
    assert(pair_wanted(one.drop_last(), pair) == 0);
    assert(pair_wanted(one, pair) == na);
    assert(pair_wanted(needs, pair) == na + nb);
    assert(other_short(one.drop_last(), holdings, pair) == 0);
    assert(other_short(one, holdings, pair) == 0);
    assert(other_short(needs, holdings, pair) == 0);
    assert(holdings.drop_first() =~= seq![(second, b as int)]);
    assert(held(holdings, first) == a);
    assert(held(holdings.drop_first(), second) == b);
    assert(held(holdings, second) == b);
}

/// Whether a count list names each colour once, as a map from colour to count does.
pub open spec fn keyed(list: Seq<(Seq<char>, int)>) -> bool {
    forall|i: int, j: int| 0 <= i < j < list.len() ==> (#[trigger] list[i]).0 != (#[trigger] list[j]).0
}

/// Whether every count in a list is at least zero.
pub open spec fn counts_nonneg(list: Seq<(Seq<char>, int)>) -> bool {
    forall|i: int| 0 <= i < list.len() ==> (#[trigger] list[i]).1 >= 0
}

/// A requirement met stays met with more of every colour held, a larger waiver budget, or a
/// smaller requirement: no colour asking more, and colours left out or added at nothing.
pub proof fn meeting_a_requirement_is_monotone(
    needs: Seq<(Seq<char>, int)>,
    fewer: Seq<(Seq<char>, int)>,
    holdings: Seq<(Seq<char>, int)>,
    more: Seq<(Seq<char>, int)>,
    pair: Option<(Seq<char>, Seq<char>)>,
    waivable: int,
    larger: int,
)
    requires
        spec_satisfies(needs, holdings, pair, waivable),
        keyed(needs),
        keyed(fewer),
        counts_nonneg(needs),
        counts_nonneg(fewer),
        forall|c: Seq<char>| #[trigger] held(holdings, c) >= 0,
        forall|c: Seq<char>| #[trigger] held(fewer, c) <= held(needs, c),
        forall|c: Seq<char>| #[trigger] held(more, c) >= held(holdings, c),
        larger >= waivable,
    ensures
        spec_satisfies(fewer, more, pair, larger),
{
    lemma_smaller_needs(needs, fewer, holdings, more, pair);
    match pair {
        Some(p) => {
            assert(held(more, p.0) >= held(holdings, p.0));
            assert(held(more, p.1) >= held(holdings, p.1));
        },
        None => {},
    }
}

/// In a list naming each colour once, the count of a colour is that of its entry.
proof fn lemma_held_at(s: Seq<(Seq<char>, int)>, c: Seq<char>, j: int)
    requires
        keyed(s),
        0 <= j < s.len(),
        s[j].0 == c,
    ensures
        held(s, c) == s[j].1,
    decreases s.len(),
{
    if j > 0 {
        assert(s[0].0 != s[j].0);
        let r = s.drop_first();
        assert(keyed(r)) by {
            assert forall|a: int, b: int| 0 <= a < b < r.len() implies (#[trigger] r[a]).0 != (#[trigger] r[b]).0 by {
                assert(r[a] == s[a + 1] && r[b] == s[b + 1]);
            }
        }
        lemma_held_at(r, c, j - 1);
    }
}

/// A colour no entry names counts nothing.
proof fn lemma_held_absent(s: Seq<(Seq<char>, int)>, c: Seq<char>)
    requires
        forall|j: int| 0 <= j < s.len() ==> (#[trigger] s[j]).0 != c,
    ensures
        held(s, c) == 0,
    decreases s.len(),
{
    if s.len() > 0 {
        assert(s[0].0 != c);
        let r = s.drop_first();
        assert forall|j: int| 0 <= j < r.len() implies (#[trigger] r[j]).0 != c by {
            assert(r[j] == s[j + 1]);
        }
        lemma_held_absent(r, c);
    }
}

/// The count of a colour, read by its entry: the entry's count, or nothing.
proof fn lemma_held_keyed(s: Seq<(Seq<char>, int)>, c: Seq<char>)
    requires
        keyed(s),
    ensures
        (exists|j: int| 0 <= j < s.len() && (#[trigger] s[j]).0 == c) || held(s, c) == 0,
{
    if !(exists|j: int| 0 <= j < s.len() && (#[trigger] s[j]).0 == c) {
        lemma_held_absent(s, c);
    }
}

/// One colour's shortfall, outside the pair.
pub open spec fn own_short(entry: (Seq<char>, int), holdings: Seq<(Seq<char>, int)>, pair: Option<(Seq<char>, Seq<char>)>) -> int {
    let have = held(holdings, entry.0);
    if spec_joins(pair, entry.0) || have >= entry.1 { 0 } else { entry.1 - have }
}

/// One colour's share of the pooled want.
pub open spec fn own_want(entry: (Seq<char>, int), pair: Option<(Seq<char>, Seq<char>)>) -> int {
    if spec_joins(pair, entry.0) { entry.1 } else { 0 }
}

proof fn lemma_remove_entry(s: Seq<(Seq<char>, int)>, j: int, holdings: Seq<(Seq<char>, int)>, pair: Option<(Seq<char>, Seq<char>)>)
    requires
        0 <= j < s.len(),
    ensures
        other_short(s, holdings, pair) == other_short(s.remove(j), holdings, pair) + own_short(s[j], holdings, pair),
        pair_wanted(s, pair) == pair_wanted(s.remove(j), pair) + own_want(s[j], pair),
    decreases s.len(),
{
    if j == s.len() - 1 {
        assert(s.remove(j) =~= s.drop_last());
    } else {
        lemma_remove_entry(s.drop_last(), j, holdings, pair);
        assert(s.remove(j).drop_last() =~= s.drop_last().remove(j));
        assert(s.remove(j).last() == s.last());
    }
}

/// A smaller requirement, met with more, falls short by no more, and wants no more pooled.
proof fn lemma_smaller_needs(
    needs: Seq<(Seq<char>, int)>,
    fewer: Seq<(Seq<char>, int)>,
    holdings: Seq<(Seq<char>, int)>,
    more: Seq<(Seq<char>, int)>,
    pair: Option<(Seq<char>, Seq<char>)>,
)
    requires
        keyed(needs),
        keyed(fewer),
        counts_nonneg(needs),
        counts_nonneg(fewer),
        forall|c: Seq<char>| #[trigger] held(holdings, c) >= 0,
        forall|c: Seq<char>| #[trigger] held(fewer, c) <= held(needs, c),
        forall|c: Seq<char>| #[trigger] held(more, c) >= held(holdings, c),
    ensures
        other_short(fewer, more, pair) <= other_short(needs, holdings, pair),
        pair_wanted(fewer, pair) <= pair_wanted(needs, pair),
    decreases fewer.len(),
{
    lemma_other_short_nonneg(needs, holdings, pair);
    lemma_pair_wanted_nonneg(needs, pair);
    if fewer.len() > 0 {
        let last = fewer.last();
        let c = last.0;
        let rest = fewer.drop_last();
        let k = fewer.len() - 1;
        assert(fewer[k] == last);
        assert(keyed(rest)) by {
            assert forall|a: int, b: int| 0 <= a < b < rest.len() implies (#[trigger] rest[a]).0 != (#[trigger] rest[b]).0 by {
                assert(rest[a] == fewer[a] && rest[b] == fewer[b]);
            }
        }
        assert(counts_nonneg(rest)) by {
            assert forall|a: int| 0 <= a < rest.len() implies (#[trigger] rest[a]).1 >= 0 by {
                assert(rest[a] == fewer[a]);
            }
        }
        lemma_held_at(fewer, c, k);
        assert forall|x: Seq<char>| x != c implies #[trigger] held(rest, x) == held(fewer, x) by {
            if exists|i: int| 0 <= i < rest.len() && (#[trigger] rest[i]).0 == x {
                let i = choose|i: int| 0 <= i < rest.len() && (#[trigger] rest[i]).0 == x;
                assert(fewer[i] == rest[i]);
                lemma_held_at(rest, x, i);
                lemma_held_at(fewer, x, i);
            } else {
                lemma_held_absent(rest, x);
                assert forall|i: int| 0 <= i < fewer.len() implies (#[trigger] fewer[i]).0 != x by {
                    if i < rest.len() {
                        assert(fewer[i] == rest[i]);
                    }
                }
                lemma_held_absent(fewer, x);
            }
        }
        assert(held(rest, c) == 0) by {
            assert forall|i: int| 0 <= i < rest.len() implies (#[trigger] rest[i]).0 != c by {
                assert(rest[i] == fewer[i]);
                assert(fewer[i].0 != fewer[k].0);
            }
            lemma_held_absent(rest, c);
        }
        lemma_held_keyed(needs, c);
        assert(held(fewer, c) == last.1);
        assert(held(more, c) >= held(holdings, c));
        if exists|j: int| 0 <= j < needs.len() && (#[trigger] needs[j]).0 == c {
            let j = choose|j: int| 0 <= j < needs.len() && (#[trigger] needs[j]).0 == c;
            lemma_held_at(needs, c, j);
            let shorter = needs.remove(j);
            assert(keyed(shorter)) by {
                assert forall|a: int, b: int| 0 <= a < b < shorter.len() implies (#[trigger] shorter[a]).0 != (#[trigger] shorter[b]).0 by {
                    let a2 = if a < j { a } else { a + 1 };
                    let b2 = if b < j { b } else { b + 1 };
                    assert(shorter[a] == needs[a2] && shorter[b] == needs[b2]);
                }
            }
            assert(counts_nonneg(shorter)) by {
                assert forall|a: int| 0 <= a < shorter.len() implies (#[trigger] shorter[a]).1 >= 0 by {
                    let a2 = if a < j { a } else { a + 1 };
                    assert(shorter[a] == needs[a2]);
                }
            }
            assert forall|x: Seq<char>| #[trigger] held(rest, x) <= held(shorter, x) by {
                if x == c {
                    lemma_held_keyed(shorter, x);
                    if exists|i: int| 0 <= i < shorter.len() && (#[trigger] shorter[i]).0 == x {
                        let i = choose|i: int| 0 <= i < shorter.len() && (#[trigger] shorter[i]).0 == x;
                        let i2 = if i < j { i } else { i + 1 };
                        assert(shorter[i] == needs[i2]);
                        assert(needs[i2].0 == needs[j].0);
                    }
                } else {
                    assert(held(fewer, x) <= held(needs, x));
                    if exists|i: int| 0 <= i < needs.len() && (#[trigger] needs[i]).0 == x {
                        let i = choose|i: int| 0 <= i < needs.len() && (#[trigger] needs[i]).0 == x;
                        lemma_held_at(needs, x, i);
                        assert(i != j);
                        let i2 = if i < j { i } else { i - 1 };
                        assert(shorter[i2] == needs[i]);
                        lemma_held_at(shorter, x, i2);
                    } else {
                        lemma_held_absent(needs, x);
                        assert forall|i: int| 0 <= i < shorter.len() implies (#[trigger] shorter[i]).0 != x by {
                            let i2 = if i < j { i } else { i + 1 };
                            assert(shorter[i] == needs[i2]);
                        }
                        lemma_held_absent(shorter, x);
                        lemma_held_keyed(rest, x);
                        if exists|i: int| 0 <= i < rest.len() && (#[trigger] rest[i]).0 == x {
                            let i = choose|i: int| 0 <= i < rest.len() && (#[trigger] rest[i]).0 == x;
                            lemma_held_at(rest, x, i);
                            assert(rest[i].1 >= 0);
                        }
                    }
                }
            }
            lemma_smaller_needs(shorter, rest, holdings, more, pair);
            lemma_remove_entry(needs, j, holdings, pair);
        } else {
            assert(held(needs, c) == 0);
            assert(last.1 == 0);
            assert forall|x: Seq<char>| #[trigger] held(rest, x) <= held(needs, x) by {
                if x != c {
                    assert(held(fewer, x) <= held(needs, x));
                }
            }
            lemma_smaller_needs(needs, rest, holdings, more, pair);
        }
    }
}

/// What the colours a pair joins fall short by, each on its own, added up.
pub open spec fn joined_short(needs: Seq<(Seq<char>, int)>, holdings: Seq<(Seq<char>, int)>, pair: Option<(Seq<char>, Seq<char>)>) -> int
    decreases needs.len(),
{
    if needs.len() == 0 {
        0
    } else {
        let (colour, need) = needs.last();
        let have = held(holdings, colour);
        joined_short(needs.drop_last(), holdings, pair) + if spec_joins(pair, colour) && have < need {
            need - have
        } else {
            0
        }
    }
}

/// Whether a requirement names a colour.
pub open spec fn names_colour(needs: Seq<(Seq<char>, int)>, colour: Seq<char>) -> bool {
    exists|i: int| 0 <= i < needs.len() && (#[trigger] needs[i]).0 == colour
}

proof fn lemma_unpaired_short_splits(needs: Seq<(Seq<char>, int)>, holdings: Seq<(Seq<char>, int)>, pair: Option<(Seq<char>, Seq<char>)>)
    ensures
        other_short(needs, holdings, None) == other_short(needs, holdings, pair) + joined_short(needs, holdings, pair),
        joined_short(needs, holdings, pair) >= 0,
    decreases needs.len(),
{
    if needs.len() > 0 {
        lemma_unpaired_short_splits(needs.drop_last(), holdings, pair);
    }
}

proof fn lemma_pooled_want_bounded(needs: Seq<(Seq<char>, int)>, holdings: Seq<(Seq<char>, int)>, a: Seq<char>, b: Seq<char>)
    requires
        a != b,
        forall|i: int, j: int| 0 <= i < j < needs.len() ==> (#[trigger] needs[i]).0 != (#[trigger] needs[j]).0,
    ensures
        pair_wanted(needs, Some((a, b))) <= joined_short(needs, holdings, Some((a, b)))
            + (if names_colour(needs, a) { held(holdings, a) } else { 0 })
            + (if names_colour(needs, b) { held(holdings, b) } else { 0 }),
    decreases needs.len(),
{
    if needs.len() > 0 {
        let rest = needs.drop_last();
        assert forall|i: int, j: int| 0 <= i < j < rest.len() implies (#[trigger] rest[i]).0 != (#[trigger] rest[j]).0 by {
            assert(rest[i] == needs[i] && rest[j] == needs[j]);
        }
        lemma_pooled_want_bounded(rest, holdings, a, b);
        let last = needs.last();
        let k = needs.len() - 1;
        assert(needs[k] == last);
        if names_colour(rest, a) {
            let i = choose|i: int| 0 <= i < rest.len() && (#[trigger] rest[i]).0 == a;
            assert(needs[i] == rest[i]);
            assert(names_colour(needs, a));
        }
        if names_colour(rest, b) {
            let i = choose|i: int| 0 <= i < rest.len() && (#[trigger] rest[i]).0 == b;
            assert(needs[i] == rest[i]);
            assert(names_colour(needs, b));
        }
        if last.0 == a {
            assert(names_colour(needs, a));
            assert(!names_colour(rest, a)) by {
                if names_colour(rest, a) {
                    let i = choose|i: int| 0 <= i < rest.len() && (#[trigger] rest[i]).0 == a;
                    assert(needs[i] == rest[i]);
                    assert(needs[i].0 != needs[k].0);
                }
            }
        } else if last.0 == b {
            assert(names_colour(needs, b));
            assert(!names_colour(rest, b)) by {
                if names_colour(rest, b) {
                    let i = choose|i: int| 0 <= i < rest.len() && (#[trigger] rest[i]).0 == b;
                    assert(needs[i] == rest[i]);
                    assert(needs[i].0 != needs[k].0);
                }
            }
        }
        if names_colour(needs, a) && !names_colour(rest, a) && last.0 != a {
            let i = choose|i: int| 0 <= i < needs.len() && (#[trigger] needs[i]).0 == a;
            assert(i < rest.len() ==> rest[i] == needs[i]);
        }
        if names_colour(needs, b) && !names_colour(rest, b) && last.0 != b {
            let i = choose|i: int| 0 <= i < needs.len() && (#[trigger] needs[i]).0 == b;
            assert(i < rest.len() ==> rest[i] == needs[i]);
        }
    }
}

/// A synergy pair can only help: a requirement met with every colour counted on its own is
/// still met with two of its colours pooled, since the pooled shortfall never exceeds the two
/// separate ones. (A requirement names each colour once, and counts are never negative.)
pub proof fn a_synergy_pair_never_hurts(
    needs: Seq<(Seq<char>, int)>,
    holdings: Seq<(Seq<char>, int)>,
    a: Seq<char>,
    b: Seq<char>,
    waivable: int,
)
    requires
        a != b,
        spec_satisfies(needs, holdings, None, waivable),
        keyed(needs),
        forall|c: Seq<char>| #[trigger] held(holdings, c) >= 0,
    ensures
        spec_satisfies(needs, holdings, Some((a, b)), waivable),
{
    let pair = Some((a, b));
    lemma_unpaired_short_splits(needs, holdings, pair);
    lemma_pooled_want_bounded(needs, holdings, a, b);
    assert(held(holdings, a) >= 0);
    assert(held(holdings, b) >= 0);
}

} // verus!
