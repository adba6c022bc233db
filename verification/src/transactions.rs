//! Transactions between neighbours (LRR 60, and 21.5 for commodities).

use vstd::prelude::*;
use vstd::multiset::Multiset;
use crate::choice::{payload_view, spec_is_decline, Choice, ChoiceOption, OptionView, Value, ValueView, DECLINE_ID, DECLINE_KIND};
use crate::state::{
    board_fits, contains_name, find_seat, lemma_seat_of, names, remove_first, seat_of, seat_valid, seated, without_first,
    GameState, Seat, SystemState,
};
use crate::text::{decimal_nat, digit_char, digit_value, 
    decimal, decimal_string, is_digit, lacks, lemma_decimal_lacks, lemma_decimal_shape, lemma_find_after, lemma_parse_decimal, decimal_string_u64, find_char, find_from, parse_i32_range, spec_parse_i32, starts_with,
    str_eq,
};

verus! {

broadcast use vstd::seq_lib::group_to_multiset_ensures, vstd::multiset::group_multiset_axioms;

/// What one side of a deal hands over.
#[derive(Debug, Clone, PartialEq, Eq)]
pub struct Terms {
    pub trade_goods: i32,
    pub commodities: i32,
    /// Relic fragments by trait, one entry per fragment.
    pub fragments: Vec<String>,
    /// A promissory note, by id.
    pub promissory: Option<String>,
    /// An action card, by alias (LRR 94.3 forbids this unless Arbiters or Black Market
    /// Dealings is at the table).
    pub action_card: Option<String>,
    /// An unscored secret objective, by alias.
    pub secret: Option<String>,
}

/// The name an optional text holds, as characters.
pub open spec fn opt_view(text: Option<String>) -> Option<Seq<char>> {
    match text {
        Some(t) => Some(t@),
        None => None,
    }
}

/// A name as a one-element multiset, or the empty multiset.
pub open spec fn opt_multiset(text: Option<String>) -> Multiset<Seq<char>> {
    match text {
        Some(t) => Multiset::singleton(t@),
        None => Multiset::empty(),
    }
}

impl Terms {
    /// Nothing at all.
    pub fn nothing() -> (terms: Self)
        ensures
            terms.trade_goods == 0,
            terms.commodities == 0,
            terms.fragments@.len() == 0,
            terms.promissory is None,
            terms.action_card is None,
            terms.secret is None,
            terms@ == no_terms(),
    {
        let terms = Terms {
            trade_goods: 0,
            commodities: 0,
            fragments: Vec::new(),
            promissory: None,
            action_card: None,
            secret: None,
        };
        assert(names(terms.fragments@) =~= Seq::<Seq<char>>::empty());
        terms
    }

    /// Whether these terms hand over nothing.
    pub open spec fn spec_is_empty(&self) -> bool {
        &&& self.trade_goods == 0
        &&& self.commodities == 0
        &&& self.fragments@.len() == 0
        &&& self.promissory is None
        &&& self.action_card is None
        &&& self.secret is None
    }

    pub fn is_empty(&self) -> (empty: bool)
        ensures
            empty == self.spec_is_empty(),
    {
        self.trade_goods == 0 && self.commodities == 0 && self.fragments.len() == 0
            && self.promissory.is_none() && self.action_card.is_none() && self.secret.is_none()
    }
}

impl Default for Terms {
    fn default() -> (terms: Self)
        ensures
            terms.spec_is_empty(),
    {
        Terms::nothing()
    }
}

/// A proposed deal.
#[derive(Debug, Clone, PartialEq, Eq)]
pub struct Offer {
    pub proposer: String,
    pub partner: String,
    pub given: Terms,
    pub received: Terms,
}

/// Why an offer cannot be resolved.
#[derive(Debug, Clone, PartialEq, Eq)]
pub enum OfferError {
    /// A player cannot transact with themselves.
    SamePlayer,
    /// The two players are not neighbours.
    NotNeighbours(String, String),
    /// The player cannot pay what they offered.
    CannotPay(String),
    /// The player is not seated.
    PlayerMissing(String),
    /// An empty transaction exchanges nothing.
    Empty,
    /// Action cards cannot be exchanged (94.3).
    ActionCardsNotTradeable,
    /// The player does not hold the card.
    MissingActionCard(String, String),
}

/// Which systems are adjacent, as the map has it.
#[derive(Debug, Clone, PartialEq, Eq)]
pub struct Galaxy {
    /// Each system paired with one it is adjacent to.
    pub adjacency: Vec<(String, String)>,
}

impl Galaxy {
    /// Whether `b` is adjacent to `a`.
    pub open spec fn spec_adjacent(&self, a: Seq<char>, b: Seq<char>) -> bool {
        exists|k: int| 0 <= k < self.adjacency@.len() && (#[trigger] self.adjacency@[k]).0@ == a
            && self.adjacency@[k].1@ == b
    }

    /// Whether `b` is adjacent to `a`.
    pub fn adjacent(&self, a: &str, b: &str) -> (adjacent: bool)
        ensures
            adjacent == self.spec_adjacent(a@, b@),
    {
        let mut k: usize = 0;
        while k < self.adjacency.len()
            invariant
                k <= self.adjacency@.len(),
                forall|j: int| 0 <= j < k ==> !(self.adjacency@[j].0@ == a@ && self.adjacency@[j].1@ == b@),
            decreases self.adjacency@.len() - k,
        {
            if str_eq(self.adjacency[k].0.as_str(), a) && str_eq(self.adjacency[k].1.as_str(), b) {
                return true;
            }
            k = k + 1;
        }
        false
    }
}

/// Whether a player has a unit in a system, in space or on a planet, or controls a planet there.
pub open spec fn present_in(system: SystemState, player: Seq<char>) -> bool {
    ||| exists|k: int| 0 <= k < system.units@.len() && (#[trigger] system.units@[k]).owner@ == player
    ||| exists|k: int| 0 <= k < system.planet_control@.len() && (#[trigger] system.planet_control@[k]).1@ == player
    ||| exists|k: int, u: int| 0 <= k < system.planet_units@.len() && 0 <= u < system.planet_units@[k].1@.len()
        && (#[trigger] system.planet_units@[k].1@[u]).owner@ == player
}

/// Systems where a player has a unit or controls a planet.
pub open spec fn spec_presence(state: GameState, player: Seq<char>) -> Set<Seq<char>> {
    Set::new(|id: Seq<char>| exists|k: int| 0 <= k < state.board@.len() && (#[trigger] state.board@[k]).id@ == id
        && present_in(state.board@[k], player))
}

fn owns_a_unit(units: &Vec<crate::state::Unit>, player: &str) -> (found: bool)
    ensures
        found == exists|k: int| 0 <= k < units@.len() && (#[trigger] units@[k]).owner@ == player@,
{
    let mut k: usize = 0;
    while k < units.len()
        invariant
            k <= units@.len(),
            forall|j: int| 0 <= j < k ==> units@[j].owner@ != player@,
        decreases units@.len() - k,
    {
        if str_eq(units[k].owner.as_str(), player) {
            return true;
        }
        k = k + 1;
    }
    false
}

fn controls_a_planet(control: &Vec<(String, String)>, player: &str) -> (found: bool)
    ensures
        found == exists|k: int| 0 <= k < control@.len() && (#[trigger] control@[k]).1@ == player@,
{
    let mut k: usize = 0;
    while k < control.len()
        invariant
            k <= control@.len(),
            forall|j: int| 0 <= j < k ==> control@[j].1@ != player@,
        decreases control@.len() - k,
    {
        if str_eq(control[k].1.as_str(), player) {
            return true;
        }
        k = k + 1;
    }
    false
}

fn owns_a_planet_unit(planets: &Vec<(String, Vec<crate::state::Unit>)>, player: &str) -> (found: bool)
    ensures
        found == exists|k: int, u: int| 0 <= k < planets@.len() && 0 <= u < planets@[k].1@.len()
            && (#[trigger] planets@[k].1@[u]).owner@ == player@,
{
    let mut k: usize = 0;
    while k < planets.len()
        invariant
            k <= planets@.len(),
            forall|j: int, u: int| 0 <= j < k && 0 <= u < planets@[j].1@.len()
                ==> (#[trigger] planets@[j].1@[u]).owner@ != player@,
        decreases planets@.len() - k,
    {
        let units = &planets[k].1;
        assert(units@ == planets@[k as int].1@);
        if owns_a_unit(units, player) {
            let ghost u = choose|u: int| 0 <= u < units@.len() && (#[trigger] units@[u]).owner@ == player@;
            assert(planets@[k as int].1@[u].owner@ == player@);
            return true;
        }
        k = k + 1;
    }
    false
}

fn present_exec(system: &SystemState, player: &str) -> (present: bool)
    ensures
        present == present_in(*system, player@),
{
    owns_a_unit(&system.units, player) || controls_a_planet(&system.planet_control, player)
        || owns_a_planet_unit(&system.planet_units, player)
}

/// Systems where a player has a unit or controls a planet, in board order.
pub fn presence(state: &GameState, player: &str) -> (systems: Vec<String>)
    ensures
        names(systems@).to_set() == spec_presence(*state, player@),
{
    let mut systems: Vec<String> = Vec::new();
    let mut k: usize = 0;
    while k < state.board.len()
        invariant
            k <= state.board@.len(),
            forall|x: Seq<char>| names(systems@).contains(x) <==> exists|j: int| 0 <= j < k
                && (#[trigger] state.board@[j]).id@ == x && present_in(state.board@[j], player@),
        decreases state.board@.len() - k,
    {
        let ghost before = systems@;
        let present = present_exec(&state.board[k], player);
        if present {
            let id = state.board[k].id.clone();
            systems.push(id);
            proof {
                assert(names(systems@) =~= names(before).push(id@));
            }
        }
        proof {
            assert forall|x: Seq<char>| names(systems@).contains(x) <==> exists|j: int| 0 <= j < k + 1
                && (#[trigger] state.board@[j]).id@ == x && present_in(state.board@[j], player@) by {
                if names(systems@).contains(x) {
                    if names(before).contains(x) {
                        let j = choose|j: int| 0 <= j < k && (#[trigger] state.board@[j]).id@ == x && present_in(state.board@[j], player@);
                        assert(0 <= j < k + 1);
                    } else {
                        assert(present);
                        let i = choose|i: int| 0 <= i < names(systems@).len() && names(systems@)[i] == x;
                        if i < before.len() {
                            assert(names(before)[i] == x);
                        }
                        assert(state.board@[k as int].id@ == x);
                    }
                }
                if exists|j: int| 0 <= j < k + 1 && (#[trigger] state.board@[j]).id@ == x && present_in(state.board@[j], player@) {
                    let j = choose|j: int| 0 <= j < k + 1 && (#[trigger] state.board@[j]).id@ == x && present_in(state.board@[j], player@);
                    if j == k {
                        assert(present);
                        assert(names(systems@)[names(systems@).len() - 1] == x);
                    } else {
                        assert(names(before).contains(x));
                        let i = choose|i: int| 0 <= i < names(before).len() && names(before)[i] == x;
                        assert(names(systems@)[i] == x);
                    }
                }
            }
        }
        k = k + 1;
    }
    assert(names(systems@).to_set() =~= spec_presence(*state, player@));
    systems
}

/// LRR 60: neighbours share a system, or occupy adjacent ones.
pub open spec fn spec_are_neighbours(state: GameState, galaxy: Galaxy, a: Seq<char>, b: Seq<char>) -> bool {
    &&& a != b
    &&& exists|s: Seq<char>, t: Seq<char>| #[trigger] spec_presence(state, a).contains(s)
        && #[trigger] spec_presence(state, b).contains(t) && (s == t || galaxy.spec_adjacent(s, t))
}

/// Whether `here` is, or is adjacent to, one of `there`.
fn reaches(galaxy: &Galaxy, here: &str, there: &Vec<String>) -> (found: bool)
    ensures
        found == exists|q: int| 0 <= q < there@.len() && (here@ == (#[trigger] there@[q])@
            || galaxy.spec_adjacent(here@, there@[q]@)),
{
    let mut q: usize = 0;
    while q < there.len()
        invariant
            q <= there@.len(),
            forall|r: int| 0 <= r < q ==> !(here@ == (#[trigger] there@[r])@ || galaxy.spec_adjacent(here@, there@[r]@)),
        decreases there@.len() - q,
    {
        if str_eq(here, there[q].as_str()) || galaxy.adjacent(here, there[q].as_str()) {
            return true;
        }
        q = q + 1;
    }
    false
}

/// LRR 60: neighbours share a system, or occupy adjacent ones. Wormholes count, because they
/// are adjacency as far as the galaxy is concerned (60.2).
pub fn are_neighbours(state: &GameState, galaxy: &Galaxy, a: &str, b: &str) -> (neighbours: bool)
    ensures
        neighbours == spec_are_neighbours(*state, *galaxy, a@, b@),
{
    if str_eq(a, b) {
        return false;
    }
    let here = presence(state, a);
    let there = presence(state, b);
    let mut i: usize = 0;
    while i < here.len()
        invariant
            i <= here@.len(),
            a@ != b@,
            names(here@).to_set() == spec_presence(*state, a@),
            names(there@).to_set() == spec_presence(*state, b@),
            forall|p: int, q: int| 0 <= p < i && 0 <= q < there@.len() ==> !((#[trigger] here@[p])@ == (#[trigger] there@[q])@
                || galaxy.spec_adjacent(here@[p]@, there@[q]@)),
        decreases here@.len() - i,
    {
        if reaches(galaxy, here[i].as_str(), &there) {
            proof {
                let q = choose|q: int| 0 <= q < there@.len() && (here@[i as int]@ == (#[trigger] there@[q])@
                    || galaxy.spec_adjacent(here@[i as int]@, there@[q]@));
                assert(names(here@)[i as int] == here@[i as int]@);
                assert(names(there@)[q] == there@[q]@);
                assert(names(here@).to_set().contains(here@[i as int]@));
                assert(names(there@).to_set().contains(there@[q]@));
                assert(spec_presence(*state, a@).contains(here@[i as int]@));
                assert(spec_presence(*state, b@).contains(there@[q]@));
                let s0 = here@[i as int]@;
                let t0 = there@[q]@;
                assert(s0 == t0 || galaxy.spec_adjacent(s0, t0));
                assert(a@ != b@);
                assert(spec_are_neighbours(*state, *galaxy, a@, b@));
            }
            return true;
        }
        i = i + 1;
    }
    proof {
        if spec_are_neighbours(*state, *galaxy, a@, b@) {
            let (s, t) = choose|s: Seq<char>, t: Seq<char>| #[trigger] spec_presence(*state, a@).contains(s)
                && #[trigger] spec_presence(*state, b@).contains(t) && (s == t || galaxy.spec_adjacent(s, t));
            assert(names(here@).to_set().contains(s));
            assert(names(there@).to_set().contains(t));
            assert(names(here@).contains(s));
            assert(names(there@).contains(t));
            let p = choose|p: int| 0 <= p < names(here@).len() && names(here@)[p] == s;
            let q = choose|q: int| 0 <= q < names(there@).len() && names(there@)[q] == t;
            assert(here@[p]@ == s && there@[q]@ == t);
        }
    }
    false
}

/// What a seat must hold to pay these terms.
pub open spec fn spec_can_pay(state: GameState, player: Seq<char>, terms: Terms) -> bool {
    let i = seat_of(state.players@, player);
    &&& i >= 0
    &&& terms.trade_goods <= state.players@[i].trade_goods
    &&& terms.commodities <= state.players@[i].commodities
    &&& (terms.promissory matches Some(note) ==> names(state.players@[i].notes@).contains(note@))
    &&& names(terms.fragments@).to_multiset().subset_of(names(state.players@[i].relic_fragments@).to_multiset())
    &&& (terms.secret matches Some(secret) ==> names(state.players@[i].secret_objectives@).contains(secret@))
}

/// Whether `wanted` can be taken out of `held` one entry at a time.
fn covers(held: &Vec<String>, wanted: &Vec<String>) -> (yes: bool)
    ensures
        yes == names(wanted@).to_multiset().subset_of(names(held@).to_multiset()),
{
    let mut left: Vec<String> = held.clone();
    proof { assert(names(left@) =~= names(held@)); }
    let mut k: usize = 0;
    while k < wanted.len()
        invariant
            k <= wanted@.len(),
            names(wanted@.subrange(0, k as int)).to_multiset().subset_of(names(held@).to_multiset()),
            names(left@).to_multiset() == names(held@).to_multiset().sub(names(wanted@.subrange(0, k as int)).to_multiset()),
        decreases wanted@.len() - k,
    {
        let ghost before = names(left@).to_multiset();
        let ghost prefix = names(wanted@.subrange(0, k as int));
        let ghost next = names(wanted@.subrange(0, k + 1));
        proof {
            assert(next =~= prefix.push(wanted@[k as int]@));
            vstd::seq_lib::to_multiset_build(prefix, wanted@[k as int]@);
        }
        if !remove_first(&mut left, wanted[k].as_str()) {
            proof {
                let x = wanted@[k as int]@;
                assert(!names(left@).to_multiset().contains(x)) by {
                    vstd::seq_lib::to_multiset_contains(names(left@), x);
                }
                assert(next.to_multiset().count(x) == prefix.to_multiset().count(x) + 1);
                assert(names(held@).to_multiset().count(x) == prefix.to_multiset().count(x));
                let all = names(wanted@);
                assert(all.subrange(0, k + 1) =~= next);
                lemma_prefix_multiset_count(all, k + 1, x);
            }
            return false;
        }
        proof {
            let x = wanted@[k as int]@;
            assert(names(left@).to_multiset() =~= names(held@).to_multiset().sub(next.to_multiset()));
            assert forall|y: Seq<char>| next.to_multiset().count(y) <= names(held@).to_multiset().count(y) by {
                if y == x {
                    assert(before.contains(x));
                }
            }
        }
        k = k + 1;
    }
    assert(wanted@.subrange(0, wanted@.len() as int) =~= wanted@);
    true
}

/// A prefix of a sequence counts no more of anything than the whole.
proof fn lemma_prefix_multiset_count(s: Seq<Seq<char>>, k: int, x: Seq<char>)
    requires
        0 <= k <= s.len(),
    ensures
        s.subrange(0, k).to_multiset().count(x) <= s.to_multiset().count(x),
    decreases s.len() - k,
{
    if k < s.len() {
        lemma_prefix_multiset_count(s, k + 1, x);
        assert(s.subrange(0, k + 1) =~= s.subrange(0, k).push(s[k]));
        vstd::seq_lib::to_multiset_build(s.subrange(0, k), s[k]);
    } else {
        assert(s.subrange(0, k) =~= s);
    }
}


/// Whether a player holds what they offered.
pub fn can_pay(state: &GameState, player: &str, terms: &Terms) -> (payable: bool)
    ensures
        payable == spec_can_pay(*state, player@, *terms),
{
    let i = match find_seat(&state.players, player) {
        Some(i) => i,
        None => return false,
    };
    let seat = &state.players[i];
    if terms.trade_goods > seat.trade_goods || terms.commodities > seat.commodities {
        return false;
    }
    match &terms.promissory {
        Some(note) => {
            if !contains_name(&seat.notes, note.as_str()) {
                return false;
            }
        },
        None => {},
    }
    if !covers(&seat.relic_fragments, &terms.fragments) {
        return false;
    }
    match &terms.secret {
        Some(secret) => {
            if !contains_name(&seat.secret_objectives, secret.as_str()) {
                return false;
            }
        },
        None => {},
    }
    true
}

/// Whether a seat's faction carries the Arbiters ability, the one table at which action cards
/// may change hands (94.3).
pub open spec fn spec_trades_action_cards(state: GameState, player: Seq<char>) -> bool {
    let i = seat_of(state.players@, player);
    i >= 0 && names(state.players@[i].abilities@).contains("arbiters"@)
}

/// Whether this player's faction carries the Arbiters ability.
pub fn trades_action_cards(state: &GameState, player: &str) -> (arbiters: bool)
    ensures
        arbiters == spec_trades_action_cards(*state, player@),
{
    match find_seat(&state.players, player) {
        Some(i) => contains_name(&state.players[i].abilities, "arbiters"),
        None => false,
    }
}

/// Whether a side holds the action card its leg hands over, if it hands one over.
pub open spec fn holds_card(state: GameState, player: Seq<char>, terms: Terms) -> bool {
    terms.action_card matches Some(card) ==> {
        let i = seat_of(state.players@, player);
        i >= 0 && names(state.players@[i].action_cards@).contains(card@)
    }
}

/// The first reason an offer cannot be resolved, in the order they are checked, or `None`.
pub open spec fn spec_why_illegal(state: GameState, galaxy: Galaxy, offer: Offer) -> Option<OfferError> {
    let proposer = offer.proposer@;
    let partner = offer.partner@;
    if proposer == partner {
        Some(OfferError::SamePlayer)
    } else if !seated(state.players@, proposer) {
        Some(OfferError::PlayerMissing(offer.proposer))
    } else if !seated(state.players@, partner) {
        Some(OfferError::PlayerMissing(offer.partner))
    } else if offer.given.spec_is_empty() && offer.received.spec_is_empty() {
        Some(OfferError::Empty)
    } else if !spec_are_neighbours(state, galaxy, proposer, partner) {
        Some(OfferError::NotNeighbours(offer.proposer, offer.partner))
    } else if !spec_can_pay(state, proposer, offer.given) {
        Some(OfferError::CannotPay(offer.proposer))
    } else if !spec_can_pay(state, partner, offer.received) {
        Some(OfferError::CannotPay(offer.partner))
    } else if (offer.given.action_card is Some || offer.received.action_card is Some) && !(
    state.black_market || spec_trades_action_cards(state, proposer) || spec_trades_action_cards(state, partner)) {
        Some(OfferError::ActionCardsNotTradeable)
    } else if (offer.given.action_card is Some || offer.received.action_card is Some) && !holds_card(state, proposer, offer.given) {
        Some(OfferError::MissingActionCard(offer.proposer, offer.given.action_card->0))
    } else if (offer.given.action_card is Some || offer.received.action_card is Some) && !holds_card(state, partner, offer.received) {
        Some(OfferError::MissingActionCard(offer.partner, offer.received.action_card->0))
    } else {
        None
    }
}

/// The kind of reason, with the names it carries as characters.
pub enum ReasonView {
    SamePlayer,
    NotNeighbours(Seq<char>, Seq<char>),
    CannotPay(Seq<char>),
    PlayerMissing(Seq<char>),
    Empty,
    ActionCardsNotTradeable,
    MissingActionCard(Seq<char>, Seq<char>),
}

impl View for OfferError {
    type V = ReasonView;

    open spec fn view(&self) -> ReasonView {
        match self {
            OfferError::SamePlayer => ReasonView::SamePlayer,
            OfferError::NotNeighbours(a, b) => ReasonView::NotNeighbours(a@, b@),
            OfferError::CannotPay(a) => ReasonView::CannotPay(a@),
            OfferError::PlayerMissing(a) => ReasonView::PlayerMissing(a@),
            OfferError::Empty => ReasonView::Empty,
            OfferError::ActionCardsNotTradeable => ReasonView::ActionCardsNotTradeable,
            OfferError::MissingActionCard(a, c) => ReasonView::MissingActionCard(a@, c@),
        }
    }
}

/// The reason, as characters, or `None`.
pub open spec fn reason_view(reason: Option<OfferError>) -> Option<ReasonView> {
    match reason {
        Some(r) => Some(r@),
        None => None,
    }
}

/// Why an offer cannot be resolved, or `None` if it can.
pub fn why_illegal(state: &GameState, galaxy: &Galaxy, offer: &Offer) -> (reason: Option<OfferError>)
    ensures
        reason_view(reason) == reason_view(spec_why_illegal(*state, *galaxy, *offer)),
{
    if str_eq(offer.proposer.as_str(), offer.partner.as_str()) {
        return Some(OfferError::SamePlayer);
    }
    let proposer = find_seat(&state.players, offer.proposer.as_str());
    if proposer.is_none() {
        return Some(OfferError::PlayerMissing(offer.proposer.clone()));
    }
    let partner = find_seat(&state.players, offer.partner.as_str());
    if partner.is_none() {
        return Some(OfferError::PlayerMissing(offer.partner.clone()));
    }
    if offer.given.is_empty() && offer.received.is_empty() {
        return Some(OfferError::Empty);
    }
    if !are_neighbours(state, galaxy, offer.proposer.as_str(), offer.partner.as_str()) {
        return Some(OfferError::NotNeighbours(offer.proposer.clone(), offer.partner.clone()));
    }
    if !can_pay(state, offer.proposer.as_str(), &offer.given) {
        return Some(OfferError::CannotPay(offer.proposer.clone()));
    }
    if !can_pay(state, offer.partner.as_str(), &offer.received) {
        return Some(OfferError::CannotPay(offer.partner.clone()));
    }
    if offer.given.action_card.is_some() || offer.received.action_card.is_some() {
        let arbiters = state.black_market || trades_action_cards(state, offer.proposer.as_str())
            || trades_action_cards(state, offer.partner.as_str());
        if !arbiters {
            return Some(OfferError::ActionCardsNotTradeable);
        }
        match &offer.given.action_card {
            Some(card) => {
                let i = proposer.unwrap();
                if !contains_name(&state.players[i].action_cards, card.as_str()) {
                    return Some(OfferError::MissingActionCard(offer.proposer.clone(), card.clone()));
                }
            },
            None => {},
        }
        match &offer.received.action_card {
            Some(card) => {
                let i = partner.unwrap();
                if !contains_name(&state.players[i].action_cards, card.as_str()) {
                    return Some(OfferError::MissingActionCard(offer.partner.clone(), card.clone()));
                }
            },
            None => {},
        }
    }
    None
}


/// `s` without the first copy of an optional name.
pub open spec fn without_opt(s: Seq<Seq<char>>, name: Option<String>) -> Seq<Seq<char>> {
    match name {
        Some(n) => without_first(s, n@),
        None => s,
    }
}

/// `s` with an optional name appended.
pub open spec fn push_opt(s: Seq<Seq<char>>, name: Option<String>) -> Seq<Seq<char>> {
    match name {
        Some(n) => s.push(n@),
        None => s,
    }
}

/// The prefix that marks a Support for the Throne note.
pub const SUPPORT_PREFIX: &'static str = "support:";

/// Whether a note is a Support for the Throne.
pub open spec fn is_support(note: Seq<char>) -> bool {
    SUPPORT_PREFIX@.len() <= note.len() && note.subrange(0, SUPPORT_PREFIX@.len() as int) == SUPPORT_PREFIX@
}

/// The victory point a received Support for the Throne is worth.
pub open spec fn support_points(inn: Terms) -> int {
    if inn.promissory matches Some(note) && is_support(note@) {
        1
    } else {
        0
    }
}

/// The notes that join a hand: any but Support, which goes to the play area instead.
pub open spec fn notes_arriving(inn: Terms) -> Multiset<Seq<char>> {
    match inn.promissory {
        Some(note) => if is_support(note@) {
            Multiset::empty()
        } else {
            Multiset::singleton(note@)
        },
        None => Multiset::empty(),
    }
}

/// Whether the arithmetic of handing `out` over and receiving `inn` stays within `i32`.
pub open spec fn exchange_fits(seat: Seat, out: Terms, inn: Terms) -> bool {
    &&& i32::MIN <= seat.trade_goods - out.trade_goods <= i32::MAX
    &&& i32::MIN <= seat.commodities - out.commodities <= i32::MAX
    &&& i32::MIN <= inn.trade_goods + inn.commodities <= i32::MAX
    &&& i32::MIN <= seat.trade_goods - out.trade_goods + inn.trade_goods + inn.commodities <= i32::MAX
    &&& seat.victory_points + support_points(inn) <= i32::MAX
}

/// The seat after handing `out` over and then receiving `inn`.
///
/// 21.5: a commodity becomes a trade good the moment it changes hands, so what arrives as
/// commodities arrives as trade goods. Cards and objectives leave as the first copy in hand and
/// arrive at the end of it. A Support for the Throne scores its victory point on arrival.
pub open spec fn exchanged(before: Seat, after: Seat, out: Terms, inn: Terms) -> bool {
    &&& after.id == before.id
    &&& after.faction == before.faction
    &&& after.tactic_tokens == before.tactic_tokens
    &&& after.fleet_tokens == before.fleet_tokens
    &&& after.strategic_tokens == before.strategic_tokens
    &&& after.victory_points == before.victory_points + support_points(inn)
    &&& after.abilities == before.abilities
    &&& after.technologies == before.technologies
    &&& after.captured_units == before.captured_units
    &&& after.breakthrough == before.breakthrough
    &&& after.trade_goods == before.trade_goods - out.trade_goods + inn.trade_goods + inn.commodities
    &&& after.commodities == before.commodities - out.commodities
    &&& names(after.action_cards@) == push_opt(without_opt(names(before.action_cards@), out.action_card), inn.action_card)
    &&& names(after.secret_objectives@) == push_opt(without_opt(names(before.secret_objectives@), out.secret), inn.secret)
    &&& names(after.relic_fragments@).to_multiset() == names(before.relic_fragments@).to_multiset().sub(
        names(out.fragments@).to_multiset(),
    ).add(names(inn.fragments@).to_multiset())
    &&& names(after.notes@).to_multiset() == names(before.notes@).to_multiset().sub(opt_multiset(out.promissory)).add(
        notes_arriving(inn),
    )
}

/// Remove one entry for each of `wanted`, all of which `list` holds.
fn remove_each(list: &mut Vec<String>, wanted: &Vec<String>)
    requires
        names(wanted@).to_multiset().subset_of(names(old(list)@).to_multiset()),
    ensures
        names(final(list)@).to_multiset() == names(old(list)@).to_multiset().sub(names(wanted@).to_multiset()),
{
    let mut k: usize = 0;
    while k < wanted.len()
        invariant
            k <= wanted@.len(),
            names(wanted@).to_multiset().subset_of(names(old(list)@).to_multiset()),
            names(list@).to_multiset() == names(old(list)@).to_multiset().sub(
                names(wanted@.subrange(0, k as int)).to_multiset(),
            ),
        decreases wanted@.len() - k,
    {
        let ghost prefix = names(wanted@.subrange(0, k as int));
        let ghost next = names(wanted@.subrange(0, k + 1));
        let ghost x = wanted@[k as int]@;
        proof {
            assert(next =~= prefix.push(x));
            vstd::seq_lib::to_multiset_build(prefix, x);
            lemma_prefix_multiset_count(names(wanted@), k + 1, x);
            assert(names(wanted@).subrange(0, k + 1) =~= next);
            assert(names(list@).to_multiset().count(x) > 0);
            vstd::seq_lib::to_multiset_contains(names(list@), x);
        }
        let removed = remove_first(list, wanted[k].as_str());
        proof {
            assert(removed);
            assert(names(list@).to_multiset() =~= names(old(list)@).to_multiset().sub(next.to_multiset()));
        }
        k = k + 1;
    }
    assert(wanted@.subrange(0, wanted@.len() as int) =~= wanted@);
}

/// Take what a seat is giving away.
fn take(seat: &mut Seat, terms: &Terms)
    requires
        i32::MIN <= old(seat).trade_goods - terms.trade_goods <= i32::MAX,
        i32::MIN <= old(seat).commodities - terms.commodities <= i32::MAX,
        names(terms.fragments@).to_multiset().subset_of(names(old(seat).relic_fragments@).to_multiset()),
        terms.promissory matches Some(note) ==> names(old(seat).notes@).contains(note@),
    ensures
        final(seat).id == old(seat).id,
        final(seat).faction == old(seat).faction,
        final(seat).tactic_tokens == old(seat).tactic_tokens,
        final(seat).fleet_tokens == old(seat).fleet_tokens,
        final(seat).strategic_tokens == old(seat).strategic_tokens,
        final(seat).victory_points == old(seat).victory_points,
        final(seat).abilities == old(seat).abilities,
        final(seat).technologies == old(seat).technologies,
        final(seat).captured_units == old(seat).captured_units,
        final(seat).breakthrough == old(seat).breakthrough,
        final(seat).trade_goods == old(seat).trade_goods - terms.trade_goods,
        final(seat).commodities == old(seat).commodities - terms.commodities,
        names(final(seat).action_cards@) == without_opt(names(old(seat).action_cards@), terms.action_card),
        names(final(seat).secret_objectives@) == without_opt(names(old(seat).secret_objectives@), terms.secret),
        names(final(seat).relic_fragments@).to_multiset() == names(old(seat).relic_fragments@).to_multiset().sub(
            names(terms.fragments@).to_multiset(),
        ),
        names(final(seat).notes@).to_multiset() == names(old(seat).notes@).to_multiset().sub(opt_multiset(terms.promissory)),
{
    match &terms.action_card {
        Some(card) => {
            let _ = remove_first(&mut seat.action_cards, card.as_str());
        },
        None => {},
    }
    match &terms.secret {
        Some(secret) => {
            let _ = remove_first(&mut seat.secret_objectives, secret.as_str());
        },
        None => {},
    }
    seat.trade_goods = seat.trade_goods - terms.trade_goods;
    seat.commodities = seat.commodities - terms.commodities;
    remove_each(&mut seat.relic_fragments, &terms.fragments);
    match &terms.promissory {
        Some(note) => {
            let removed = remove_first(&mut seat.notes, note.as_str());
            assert(removed);
            assert(names(old(seat).notes@).to_multiset().remove(note@) =~= names(old(seat).notes@).to_multiset().sub(Multiset::singleton(note@)));
        },
        None => {
            assert(names(seat.notes@).to_multiset() =~= names(old(seat).notes@).to_multiset().sub(Multiset::empty()));
        },
    }
}

/// Append a copy of each of `more`.
fn push_each(list: &mut Vec<String>, more: &Vec<String>)
    ensures
        names(final(list)@).to_multiset() == names(old(list)@).to_multiset().add(names(more@).to_multiset()),
{
    let mut k: usize = 0;
    while k < more.len()
        invariant
            k <= more@.len(),
            names(list@).to_multiset() == names(old(list)@).to_multiset().add(
                names(more@.subrange(0, k as int)).to_multiset(),
            ),
        decreases more@.len() - k,
    {
        let ghost before = names(list@);
        let ghost prefix = names(more@.subrange(0, k as int));
        list.push(more[k].clone());
        proof {
            let x = more@[k as int]@;
            assert(names(list@) =~= before.push(x));
            assert(names(more@.subrange(0, k + 1)) =~= prefix.push(x));
            vstd::seq_lib::to_multiset_build(before, x);
            vstd::seq_lib::to_multiset_build(prefix, x);
            assert(names(list@).to_multiset() =~= names(old(list)@).to_multiset().add(
                names(more@.subrange(0, k + 1)).to_multiset()));
        }
        k = k + 1;
    }
    assert(more@.subrange(0, more@.len() as int) =~= more@);
}

/// Give a seat what it is receiving.
fn give(seat: &mut Seat, terms: &Terms)
    requires
        i32::MIN <= terms.trade_goods + terms.commodities <= i32::MAX,
        i32::MIN <= old(seat).trade_goods + terms.trade_goods + terms.commodities <= i32::MAX,
        old(seat).victory_points + support_points(*terms) <= i32::MAX,
    ensures
        final(seat).id == old(seat).id,
        final(seat).faction == old(seat).faction,
        final(seat).tactic_tokens == old(seat).tactic_tokens,
        final(seat).fleet_tokens == old(seat).fleet_tokens,
        final(seat).strategic_tokens == old(seat).strategic_tokens,
        final(seat).victory_points == old(seat).victory_points + support_points(*terms),
        final(seat).abilities == old(seat).abilities,
        final(seat).technologies == old(seat).technologies,
        final(seat).captured_units == old(seat).captured_units,
        final(seat).breakthrough == old(seat).breakthrough,
        final(seat).trade_goods == old(seat).trade_goods + terms.trade_goods + terms.commodities,
        final(seat).commodities == old(seat).commodities,
        names(final(seat).action_cards@) == push_opt(names(old(seat).action_cards@), terms.action_card),
        names(final(seat).secret_objectives@) == push_opt(names(old(seat).secret_objectives@), terms.secret),
        names(final(seat).relic_fragments@).to_multiset() == names(old(seat).relic_fragments@).to_multiset().add(
            names(terms.fragments@).to_multiset(),
        ),
        names(final(seat).notes@).to_multiset() == names(old(seat).notes@).to_multiset().add(notes_arriving(*terms)),
{
    match &terms.action_card {
        Some(card) => {
            seat.action_cards.push(card.clone());
            assert(names(seat.action_cards@) =~= names(old(seat).action_cards@).push(card@));
        },
        None => {},
    }
    match &terms.secret {
        Some(secret) => {
            seat.secret_objectives.push(secret.clone());
            assert(names(seat.secret_objectives@) =~= names(old(seat).secret_objectives@).push(secret@));
        },
        None => {},
    }
    // 21.5: a commodity becomes a trade good the moment it changes hands.
    let arriving = terms.trade_goods + terms.commodities;
    seat.trade_goods = seat.trade_goods + arriving;
    push_each(&mut seat.relic_fragments, &terms.fragments);
    match &terms.promissory {
        Some(note) => {
            if starts_with(note.as_str(), SUPPORT_PREFIX) {
                // Support is worth a victory point the moment it arrives.
                seat.victory_points = seat.victory_points + 1;
                assert(names(seat.notes@).to_multiset() =~= names(old(seat).notes@).to_multiset().add(Multiset::empty()));
            } else {
                let ghost before = names(seat.notes@);
                seat.notes.push(note.clone());
                proof {
                    assert(names(seat.notes@) =~= before.push(note@));
                    vstd::seq_lib::to_multiset_build(before, note@);
                    assert(names(seat.notes@).to_multiset() =~= names(old(seat).notes@).to_multiset().add(
                        Multiset::singleton(note@)));
                }
            }
        },
        None => {
            assert(names(seat.notes@).to_multiset() =~= names(old(seat).notes@).to_multiset().add(Multiset::empty()));
        },
    }
}

/// The table after a deal is struck: both sides exchanged what the deal names, every other
/// seat and the board untouched, and the pair recorded as having transacted this round.
pub open spec fn spec_resolved(before: GameState, after: GameState, offer: Offer) -> bool {
    let i = seat_of(before.players@, offer.proposer@);
    let j = seat_of(before.players@, offer.partner@);
    &&& after.players@.len() == before.players@.len()
    &&& exchanged(before.players@[i], after.players@[i], offer.given, offer.received)
    &&& exchanged(before.players@[j], after.players@[j], offer.received, offer.given)
    &&& forall|k: int| 0 <= k < before.players@.len() && k != i && k != j ==> after.players@[k] == before.players@[k]
    &&& after == (GameState {
        players: after.players,
        transactions_this_round: after.transactions_this_round,
        ..before
    })
    &&& after.transactions_this_round@.len() == before.transactions_this_round@.len() + 1
    &&& after.transactions_this_round@.drop_last() == before.transactions_this_round@
    &&& after.transactions_this_round@.last().0@ == offer.proposer@
    &&& after.transactions_this_round@.last().1@ == offer.partner@
}

/// Execute a transaction. Changes nothing and reports why if it is not legal; otherwise both
/// sides are taken before either is given, so a deal cannot be paid for with what it is about
/// to receive, and the pair is recorded as having transacted this round.
#[verifier::rlimit(60)]
pub fn resolve(state: &mut GameState, galaxy: &Galaxy, offer: &Offer) -> (outcome: Result<(), OfferError>)
    requires
        spec_why_illegal(*old(state), *galaxy, *offer) is None ==> {
            let i = seat_of(old(state).players@, offer.proposer@);
            let j = seat_of(old(state).players@, offer.partner@);
            &&& exchange_fits(old(state).players@[i], offer.given, offer.received)
            &&& exchange_fits(old(state).players@[j], offer.received, offer.given)
        },
    ensures
        match outcome {
            Err(reason) => {
                &&& reason_view(spec_why_illegal(*old(state), *galaxy, *offer)) == Some(reason@)
                &&& *final(state) == *old(state)
            },
            Ok(()) => {
                &&& spec_why_illegal(*old(state), *galaxy, *offer) is None
                &&& spec_resolved(*old(state), *final(state), *offer)
            },
        },
{
    match why_illegal(state, galaxy, offer) {
        Some(reason) => return Err(reason),
        None => {},
    }
    let i = find_seat(&state.players, offer.proposer.as_str()).unwrap();
    let j = find_seat(&state.players, offer.partner.as_str()).unwrap();
    proof {
        lemma_seat_of(old(state).players@, offer.proposer@);
        lemma_seat_of(old(state).players@, offer.partner@);
        assert(i != j);
    }
    let ghost players = state.players@;
    let mut proposer = state.players.remove(i);
    let at = if j > i { j - 1 } else { j };
    let mut partner = state.players.remove(at);
    take(&mut proposer, &offer.given);
    take(&mut partner, &offer.received);
    give(&mut partner, &offer.given);
    give(&mut proposer, &offer.received);
    if i < j {
        state.players.insert(i, proposer);
        state.players.insert(j, partner);
    } else {
        state.players.insert(j, partner);
        state.players.insert(i, proposer);
    }
    proof {
        assert(state.players@ =~= players.update(i as int, state.players@[i as int]).update(
            j as int,
            state.players@[j as int],
        ));
    }
    state.transactions_this_round.push((offer.proposer.clone(), offer.partner.clone()));
    proof {
        assert(state.transactions_this_round@.drop_last() =~= old(state).transactions_this_round@);
    }
    Ok(())
}

/// The alias a note id begins with: everything before its first `:`.
pub open spec fn spec_alias(note: Seq<char>) -> Seq<char> {
    note.subrange(0, find_from(note, ':', 0))
}

/// The alias a note id begins with (`ra` in `ra:jolnar`); an id without a colon is all alias.
pub fn alias_of(note: &str) -> (alias: String)
    ensures
        alias@ == spec_alias(note@),
{
    let at = find_char(note, ':', 0);
    note.substring_char(0, at).to_string()
}

/// What each kind of note is worth to its receiver, in half trade goods. An alias the table
/// does not list is worth one and a half.
pub open spec fn worth_in_halves(alias: Seq<char>) -> int {
    if alias == "ra"@ {
        8
    } else if alias == "an"@ || alias == "convoys"@ {
        6
    } else if alias == "ta"@ {
        5
    } else if alias == "ce"@ || alias == "ms"@ || alias == "favor"@ || alias == "war_funding"@ {
        4
    } else {
        3
    }
}

/// Half of `halves`, rounded to the nearest whole number, and a half to the even one.
pub open spec fn round_half_even(halves: int) -> int {
    if halves % 2 == 0 {
        halves / 2
    } else if (halves / 2) % 2 == 0 {
        halves / 2
    } else {
        halves / 2 + 1
    }
}

/// What a note sale asks for, in whole trade goods: Support is worth four, every other note its
/// row of the worth table, rounded half to even.
pub open spec fn spec_note_price(note: Seq<char>) -> int {
    if is_support(note) {
        4
    } else {
        round_half_even(worth_in_halves(spec_alias(note)))
    }
}

fn halves_for(alias: &str) -> (halves: i32)
    ensures
        halves == worth_in_halves(alias@),
{
    if str_eq(alias, "ra") {
        8
    } else if str_eq(alias, "an") || str_eq(alias, "convoys") {
        6
    } else if str_eq(alias, "ta") {
        5
    } else if str_eq(alias, "ce") || str_eq(alias, "ms") || str_eq(alias, "favor") || str_eq(
        alias,
        "war_funding",
    ) {
        4
    } else {
        3
    }
}

/// What a note sale asks for, in whole trade goods. A Trade Agreement prices from its flat row
/// (two and a half, which rounds to two) rather than its live value on the table.
pub fn note_option_price(note: &str) -> (price: i32)
    ensures
        price == spec_note_price(note@),
{
    if starts_with(note, SUPPORT_PREFIX) {
        return 4;
    }
    let alias = alias_of(note);
    let halves = halves_for(alias.as_str());
    if halves % 2 == 0 {
        halves / 2
    } else if (halves / 2) % 2 == 0 {
        halves / 2
    } else {
        halves / 2 + 1
    }
}

/// The name a player goes by at the table: its faction, or its id when it is not seated.
pub open spec fn spec_faction_name(state: GameState, player: Seq<char>) -> Seq<char> {
    let i = seat_of(state.players@, player);
    if i >= 0 {
        state.players@[i].faction@
    } else {
        player
    }
}

/// The name a player goes by at the table: its faction, or its id when it is not seated.
pub fn faction_name(state: &GameState, player: &str) -> (name: String)
    ensures
        name@ == spec_faction_name(*state, player@),
{
    match find_seat(&state.players, player) {
        Some(i) => state.players[i].faction.clone(),
        None => player.to_string(),
    }
}

/// The Support for the Throne note of a faction.
pub open spec fn spec_support(faction: Seq<char>) -> Seq<char> {
    SUPPORT_PREFIX@ + faction
}

fn support_note(faction: &str) -> (note: String)
    ensures
        note@ == spec_support(faction@),
{
    SUPPORT_PREFIX.to_string().concat(faction)
}

/// Two `i32` numbers written `a:b`, split at the first colon.
pub open spec fn spec_pair(text: Seq<char>) -> Option<(int, int)> {
    let k = find_from(text, ':', 0);
    if k < text.len() {
        match (spec_parse_i32(text.subrange(0, k)), spec_parse_i32(text.subrange(k + 1, text.len() as int))) {
            (Some(a), Some(b)) => Some((a, b)),
            _ => None,
        }
    } else {
        None
    }
}

/// Split a `"{a}:{b}"` pair of numbers.
pub fn pair(text: &str) -> (numbers: Option<(i32, i32)>)
    ensures
        match numbers {
            Some((a, b)) => spec_pair(text@) == Some((a as int, b as int)),
            None => spec_pair(text@) is None,
        },
{
    let n = text.unicode_len();
    let k = find_char(text, ':', 0);
    if k >= n {
        return None;
    }
    let a = parse_i32_range(text, 0, k)?;
    let b = parse_i32_range(text, k + 1, n)?;
    Some((a, b))
}

/// The index of the last `c` before `to`, or -1 when there is none.
pub open spec fn find_last_before(s: Seq<char>, c: char, to: int) -> int
    decreases to,
{
    if to <= 0 {
        -1
    } else if s[to - 1] == c {
        to - 1
    } else {
        find_last_before(s, c, to - 1)
    }
}

fn find_last_char(s: &str, c: char) -> (at: Option<usize>)
    ensures
        match at {
            Some(k) => find_last_before(s@, c, s@.len() as int) == k as int && k < s@.len(),
            None => find_last_before(s@, c, s@.len() as int) == -1,
        },
{
    let n = s.unicode_len();
    let mut to = n;
    while to > 0
        invariant
            n == s@.len(),
            to <= n,
            find_last_before(s@, c, n as int) == find_last_before(s@, c, to as int),
        decreases to,
    {
        if s.get_char(to - 1) == c {
            return Some(to - 1);
        }
        to = to - 1;
    }
    None
}

/// What a deal hands over, as plain values.
pub struct TermsView {
    pub trade_goods: int,
    pub commodities: int,
    pub fragments: Seq<Seq<char>>,
    pub promissory: Option<Seq<char>>,
    pub action_card: Option<Seq<char>>,
    pub secret: Option<Seq<char>>,
}

impl View for Terms {
    type V = TermsView;

    open spec fn view(&self) -> TermsView {
        TermsView {
            trade_goods: self.trade_goods as int,
            commodities: self.commodities as int,
            fragments: names(self.fragments@),
            promissory: opt_view(self.promissory),
            action_card: opt_view(self.action_card),
            secret: opt_view(self.secret),
        }
    }
}

/// Nothing at all, as plain values.
pub open spec fn no_terms() -> TermsView {
    TermsView {
        trade_goods: 0,
        commodities: 0,
        fragments: Seq::empty(),
        promissory: None,
        action_card: None,
        secret: None,
    }
}

pub open spec fn goods_view(n: int) -> TermsView {
    TermsView { trade_goods: n, ..no_terms() }
}

pub open spec fn commodities_view(n: int) -> TermsView {
    TermsView { commodities: n, ..no_terms() }
}

/// What follows `prefix` in `id`, if `id` begins with it.
pub open spec fn after_prefix(id: Seq<char>, prefix: Seq<char>) -> Option<Seq<char>> {
    if prefix.len() <= id.len() && id.subrange(0, prefix.len() as int) == prefix {
        Some(id.subrange(prefix.len() as int, id.len() as int))
    } else {
        None
    }
}

/// A name and a price written `name:price`, split at the first colon, or at the last when
/// `last` is set.
pub open spec fn spec_priced(rest: Seq<char>, last: bool) -> Option<(Seq<char>, int)> {
    let k = if last { find_last_before(rest, ':', rest.len() as int) } else { find_from(rest, ':', 0) };
    if 0 <= k < rest.len() {
        match spec_parse_i32(rest.subrange(k + 1, rest.len() as int)) {
            Some(price) => Some((rest.subrange(0, k), price)),
            None => None,
        }
    } else {
        None
    }
}

/// The deal an offer option's id stands for, as (given, received), or `None` when the id is no
/// recognised shape. Prefixes are tested longest first, so `cc3` is a swap, not a gift.
pub open spec fn spec_offer_from(state: GameState, id: Seq<char>, proposer: Seq<char>, partner: Seq<char>) -> Option<
    (TermsView, TermsView),
> {
    if id == "ss"@ {
        Some((
            TermsView { promissory: Some(spec_support(spec_faction_name(state, proposer))), ..no_terms() },
            TermsView { promissory: Some(spec_support(spec_faction_name(state, partner))), ..no_terms() },
        ))
    } else if let Some(rest) = after_prefix(id, "ac"@) {
        match spec_priced(rest, false) {
            Some((card, price)) => Some((TermsView { action_card: Some(card), ..no_terms() }, goods_view(price))),
            None => None,
        }
    } else if let Some(rest) = after_prefix(id, "pn"@) {
        match spec_priced(rest, true) {
            Some((note, price)) => Some((TermsView { promissory: Some(note), ..no_terms() }, goods_view(price))),
            None => None,
        }
    } else if let Some(rest) = after_prefix(id, "so"@) {
        match spec_priced(rest, false) {
            Some((secret, price)) => Some((TermsView { secret: Some(secret), ..no_terms() }, goods_view(price))),
            None => None,
        }
    } else if let Some(rest) = after_prefix(id, "fr"@) {
        match spec_priced(rest, false) {
            Some((fragment, price)) => Some(
                (TermsView { fragments: seq![fragment], ..no_terms() }, goods_view(price)),
            ),
            None => None,
        }
    } else if let Some(rest) = after_prefix(id, "cc"@) {
        match spec_parse_i32(rest) {
            Some(many) => Some((commodities_view(many), commodities_view(many))),
            None => None,
        }
    } else if let Some(rest) = after_prefix(id, "ct"@) {
        match spec_pair(rest) {
            Some((give, want)) => Some((commodities_view(give), goods_view(want))),
            None => None,
        }
    } else if let Some(rest) = after_prefix(id, "tc"@) {
        match spec_pair(rest) {
            Some((give, want)) => Some((goods_view(give), commodities_view(want))),
            None => None,
        }
    } else if let Some(rest) = after_prefix(id, "c"@) {
        match spec_pair(rest) {
            Some((give, _)) => Some((commodities_view(give), no_terms())),
            None => None,
        }
    } else {
        match spec_pair(id) {
            Some((give, want)) => Some((goods_view(give), goods_view(want))),
            None => None,
        }
    }
}

/// What follows `prefix` in `id`, if `id` begins with it.
fn strip<'a>(id: &'a str, prefix: &str) -> (rest: Option<&'a str>)
    ensures
        match rest {
            Some(r) => after_prefix(id@, prefix@) == Some(r@),
            None => after_prefix(id@, prefix@) is None,
        },
{
    if starts_with(id, prefix) {
        Some(id.substring_char(prefix.unicode_len(), id.unicode_len()))
    } else {
        None
    }
}

/// Split `name:price` at the first colon, or at the last when `last` is set.
fn priced_name(rest: &str, last: bool) -> (split: Option<(String, i32)>)
    ensures
        match split {
            Some((name, price)) => spec_priced(rest@, last) == Some((name@, price as int)),
            None => spec_priced(rest@, last) is None,
        },
{
    let n = rest.unicode_len();
    let k = if last {
        match find_last_char(rest, ':') {
            Some(k) => k,
            None => return None,
        }
    } else {
        let k = find_char(rest, ':', 0);
        if k >= n {
            return None;
        }
        k
    };
    let price = parse_i32_range(rest, k + 1, n)?;
    Some((rest.substring_char(0, k).to_string(), price))
}

fn goods(n: i32) -> (terms: Terms)
    ensures
        terms@ == goods_view(n as int),
{
    let mut terms = Terms::nothing();
    terms.trade_goods = n;
    terms
}

fn commodities(n: i32) -> (terms: Terms)
    ensures
        terms@ == commodities_view(n as int),
{
    let mut terms = Terms::nothing();
    terms.commodities = n;
    terms
}

/// The views of an offer's two legs, if it is there.
pub open spec fn offer_legs(offer: Option<Offer>) -> Option<(TermsView, TermsView)> {
    match offer {
        Some(o) => Some((o.given@, o.received@)),
        None => None,
    }
}

/// The deal an offer option stands for, or `None` when the id is no recognised shape.
pub fn offer_from(state: &GameState, id: &str, proposer: &str, partner: &str) -> (offer: Option<Offer>)
    ensures
        offer_legs(offer) == spec_offer_from(*state, id@, proposer@, partner@),
        offer matches Some(o) ==> o.proposer@ == proposer@ && o.partner@ == partner@,
{
    let deal = |given: Terms, received: Terms| -> (o: Offer)
        ensures
            o.proposer@ == proposer@,
            o.partner@ == partner@,
            o.given == given,
            o.received == received,
        { Offer { proposer: proposer.to_string(), partner: partner.to_string(), given, received } };
    proof {
        reveal_strlit("ss");
        reveal_strlit("ac");
        reveal_strlit("pn");
        reveal_strlit("so");
        reveal_strlit("fr");
        reveal_strlit("cc");
        reveal_strlit("ct");
        reveal_strlit("tc");
        reveal_strlit("c");
    }
    if str_eq(id, "ss") {
        let mut given = Terms::nothing();
        given.promissory = Some(support_note(faction_name(state, proposer).as_str()));
        let mut received = Terms::nothing();
        received.promissory = Some(support_note(faction_name(state, partner).as_str()));
        return Some(deal(given, received));
    }
    if let Some(rest) = strip(id, "ac") {
        let (card, price) = priced_name(rest, false)?;
        let mut given = Terms::nothing();
        given.action_card = Some(card);
        return Some(deal(given, goods(price)));
    }
    if let Some(rest) = strip(id, "pn") {
        let (note, price) = priced_name(rest, true)?;
        let mut given = Terms::nothing();
        given.promissory = Some(note);
        return Some(deal(given, goods(price)));
    }
    if let Some(rest) = strip(id, "so") {
        let (secret, price) = priced_name(rest, false)?;
        let mut given = Terms::nothing();
        given.secret = Some(secret);
        return Some(deal(given, goods(price)));
    }
    if let Some(rest) = strip(id, "fr") {
        let (fragment, price) = priced_name(rest, false)?;
        let mut given = Terms::nothing();
        given.fragments.push(fragment);
        assert(names(given.fragments@) =~= seq![fragment@]);
        return Some(deal(given, goods(price)));
    }
    if let Some(rest) = strip(id, "cc") {
        assert(rest@.subrange(0, rest@.len() as int) =~= rest@);
        let many = parse_i32_range(rest, 0, rest.unicode_len())?;
        return Some(deal(commodities(many), commodities(many)));
    }
    if let Some(rest) = strip(id, "ct") {
        let (give, want) = pair(rest)?;
        return Some(deal(commodities(give), goods(want)));
    }
    if let Some(rest) = strip(id, "tc") {
        let (give, want) = pair(rest)?;
        return Some(deal(goods(give), commodities(want)));
    }
    if let Some(rest) = strip(id, "c") {
        let (give, _) = pair(rest)?;
        return Some(deal(commodities(give), Terms::nothing()));
    }
    let (give, want) = pair(id)?;
    Some(deal(goods(give), goods(want)))
}

/// The parts of a description, in order: each part the terms hand over.
pub open spec fn describe_parts(terms: Terms) -> Seq<Seq<char>> {
    let goods = if terms.trade_goods > 0 { seq![decimal(terms.trade_goods as int) + " trade goods"@] } else { seq![] };
    let comms = if terms.commodities > 0 { seq![decimal(terms.commodities as int) + " commodities"@] } else { seq![] };
    let frags = if terms.fragments@.len() > 0 {
        seq![decimal(terms.fragments@.len() as int) + " relic fragments"@]
    } else {
        seq![]
    };
    let note = match terms.promissory { Some(n) => seq![n@], None => seq![] };
    let card = match terms.action_card { Some(c) => seq!["the action card "@ + c@], None => seq![] };
    let secret = match terms.secret { Some(x) => seq!["the secret objective "@ + x@], None => seq![] };
    goods + comms + frags + note + card + secret
}

/// Parts joined with `", "`.
pub open spec fn join_parts(parts: Seq<Seq<char>>) -> Seq<char>
    decreases parts.len(),
{
    if parts.len() == 0 {
        Seq::empty()
    } else if parts.len() == 1 {
        parts[0]
    } else {
        join_parts(parts.drop_last()) + ", "@ + parts.last()
    }
}

/// How terms read in a prompt: the parts joined with commas, or "nothing" for an empty side.
pub open spec fn spec_describe(terms: Terms) -> Seq<char> {
    let parts = describe_parts(terms);
    if parts.len() == 0 { "nothing"@ } else { join_parts(parts) }
}

fn push_part(parts: &mut Vec<String>, part: String)
    ensures
        names(final(parts)@) == names(old(parts)@).push(part@),
{
    parts.push(part);
    assert(names(parts@) =~= names(old(parts)@).push(part@));
}

fn join(parts: &Vec<String>) -> (text: String)
    ensures
        text@ == join_parts(names(parts@)),
{
    if parts.len() == 0 {
        return String::new();
    }
    let mut text = parts[0].clone();
    let mut k: usize = 1;
    while k < parts.len()
        invariant
            1 <= k <= parts@.len(),
            text@ == join_parts(names(parts@.subrange(0, k as int))),
        decreases parts@.len() - k,
    {
        proof {
            assert(names(parts@.subrange(0, k + 1)).drop_last() =~= names(parts@.subrange(0, k as int)));
        }
        text = text.concat(", ").concat(parts[k].as_str());
        k = k + 1;
    }
    assert(parts@.subrange(0, parts@.len() as int) =~= parts@);
    text
}

impl Terms {
    /// How these terms read in a prompt: the same parts, order and words as the table reads
    /// them. An empty side reads as "nothing", which is how a gift stays readable.
    pub fn describe(&self) -> (text: String)
        ensures
            text@ == spec_describe(*self),
    {
        let mut parts: Vec<String> = Vec::new();
        assert(names(parts@) =~= Seq::<Seq<char>>::empty());
        if self.trade_goods > 0 {
            push_part(&mut parts, decimal_string(self.trade_goods as i64).concat(" trade goods"));
        }
        if self.commodities > 0 {
            push_part(&mut parts, decimal_string(self.commodities as i64).concat(" commodities"));
        }
        if self.fragments.len() > 0 {
            push_part(&mut parts, decimal_string_u64(self.fragments.len() as u64).concat(" relic fragments"));
        }
        match &self.promissory {
            Some(note) => push_part(&mut parts, note.clone()),
            None => {},
        }
        match &self.action_card {
            Some(card) => push_part(&mut parts, "the action card ".to_string().concat(card.as_str())),
            None => {},
        }
        match &self.secret {
            Some(secret) => push_part(&mut parts, "the secret objective ".to_string().concat(secret.as_str())),
            None => {},
        }
        proof {
            assert(names(parts@) =~= describe_parts(*self));
        }
        if parts.len() == 0 {
            "nothing".to_string()
        } else {
            join(&parts)
        }
    }
}

impl Offer {
    /// "{faction} gives X for Y", the speaker named by faction.
    pub fn describe(&self, state: &GameState) -> (text: String)
        ensures
            text@ == spec_faction_name(*state, self.proposer@) + " gives "@ + spec_describe(self.given) + " for "@
                + spec_describe(self.received),
    {
        faction_name(state, self.proposer.as_str()).concat(" gives ").concat(self.given.describe().as_str()).concat(
            " for ",
        ).concat(self.received.describe().as_str())
    }
}

/// The kind of a proposed deal.
pub const OFFER_KIND: &'static str = "offer";

/// An offer option as plain values: what a choice shows, and the facts it carries.
pub open spec fn full_view(option: ChoiceOption) -> (OptionView, Seq<(Seq<char>, ValueView)>) {
    (option@, payload_view(&option))
}

/// An offer option with the given id, label and facts.
pub open spec fn shape(id: Seq<char>, label: Seq<char>, payload: Seq<(Seq<char>, ValueView)>) -> (OptionView, Seq<(Seq<char>, ValueView)>) {
    (OptionView { id, kind: OFFER_KIND@, label }, payload)
}

/// What a seat holds that a deal can be built from: its trade goods and commodities, or
/// nothing for a player who is not seated.
pub open spec fn holdings(state: GameState, player: Seq<char>) -> (int, int) {
    let i = seat_of(state.players@, player);
    if i >= 0 {
        (state.players@[i].trade_goods as int, state.players@[i].commodities as int)
    } else {
        (0, 0)
    }
}

/// Whether a seat still holds its own Support for the Throne.
pub open spec fn support_available(state: GameState, player: Seq<char>) -> bool {
    let i = seat_of(state.players@, player);
    i >= 0 && names(state.players@[i].notes@).contains(spec_support(spec_faction_name(state, player)))
}

/// The notes a seat may sell, in hand order: every note it holds but Support.
pub open spec fn sellable_notes(notes: Seq<Seq<char>>) -> Seq<Seq<char>>
    decreases notes.len(),
{
    if notes.len() == 0 {
        Seq::empty()
    } else {
        let rest = sellable_notes(notes.drop_last());
        if is_support(notes.last()) { rest } else { rest.push(notes.last()) }
    }
}

/// The offers a list of notes makes: each sold at its price to a partner who can pay it, or
/// given away to one who cannot.
pub open spec fn note_shapes(notes: Seq<Seq<char>>, their_goods: int) -> Seq<(OptionView, Seq<(Seq<char>, ValueView)>)>
    decreases notes.len(),
{
    if notes.len() == 0 {
        Seq::empty()
    } else {
        let note = notes.last();
        let price = spec_note_price(note);
        let facts = seq![("note"@, ValueView::Text(note)), ("alias"@, ValueView::Text(spec_alias(note)))];
        let gift = if price > 0 && their_goods < price {
            seq![shape("pn"@ + note + ":0"@, "give "@ + note, facts.push(("gift"@, ValueView::Bool(true))))]
        } else {
            seq![]
        };
        let sale = if price > 0 && their_goods >= price {
            seq![shape(
                "pn"@ + note + ":"@ + decimal(price),
                "sell "@ + note + " for "@ + decimal(price) + " trade goods"@,
                facts,
            )]
        } else {
            seq![]
        };
        note_shapes(notes.drop_last(), their_goods) + gift + sale
    }
}

/// The alphabetically first name of a non-empty list.
pub open spec fn least(names: Seq<Seq<char>>) -> Seq<char>
    decreases names.len(),
{
    if names.len() <= 1 {
        names[0]
    } else {
        let m = least(names.drop_last());
        if crate::rng::name_lt(names.last(), m) { names.last() } else { m }
    }
}

/// The action-card offer: the alphabetically first card of the hand for one trade good, when
/// either chair has the Arbiters or Black Market Dealings marks the negotiation.
pub open spec fn card_shapes(state: GameState, proposer: Seq<char>, partner: Seq<char>) -> Seq<(OptionView, Seq<(Seq<char>, ValueView)>)> {
    let open = state.black_market || spec_trades_action_cards(state, proposer) || spec_trades_action_cards(state, partner);
    let i = seat_of(state.players@, proposer);
    if open && holdings(state, partner).0 >= 1 && i >= 0 && state.players@[i].action_cards@.len() > 0 {
        let card = least(names(state.players@[i].action_cards@));
        seq![shape(
            "ac"@ + card + ":1"@,
            "sell the action card "@ + card + " for 1 trade good"@,
            seq![("action_card"@, ValueView::Text(card))],
        )]
    } else {
        seq![]
    }
}

/// The secret-objective offers Black Market Dealings allows, one per secret in hand.
pub open spec fn secret_shapes(secrets: Seq<Seq<char>>) -> Seq<(OptionView, Seq<(Seq<char>, ValueView)>)>
    decreases secrets.len(),
{
    if secrets.len() == 0 {
        Seq::empty()
    } else {
        let x = secrets.last();
        secret_shapes(secrets.drop_last()).push(shape(
            "so"@ + x + ":1"@,
            "sell the secret objective "@ + x + " for 1 trade good"@,
            seq![("secret"@, ValueView::Text(x))],
        ))
    }
}

/// The relic-fragment offers Black Market Dealings allows, one per trait held, in the order the
/// traits were first gained.
pub open spec fn fragment_shapes(fragments: Seq<Seq<char>>, k: int) -> Seq<(OptionView, Seq<(Seq<char>, ValueView)>)>
    decreases k,
{
    if k <= 0 {
        Seq::empty()
    } else {
        let x = fragments[k - 1];
        let rest = fragment_shapes(fragments, k - 1);
        if fragments.subrange(0, k - 1).contains(x) {
            rest
        } else {
            rest.push(shape(
                "fr"@ + x + ":1"@,
                "sell a "@ + x + " relic fragment for 1 trade good"@,
                seq![("fragment"@, ValueView::Text(x))],
            ))
        }
    }
}

/// The extra offers Black Market Dealings widens the table with: unscored secrets, then relic
/// fragments, each for one trade good.
pub open spec fn black_market_shapes(state: GameState, proposer: Seq<char>, their_goods: int) -> Seq<(OptionView, Seq<(Seq<char>, ValueView)>)> {
    let i = seat_of(state.players@, proposer);
    if state.black_market && i >= 0 && their_goods >= 1 {
        let fragments = names(state.players@[i].relic_fragments@);
        secret_shapes(names(state.players@[i].secret_objectives@)) + fragment_shapes(fragments, fragments.len() as int)
    } else {
        seq![]
    }
}

pub open spec fn min(a: int, b: int) -> int {
    if a < b { a } else { b }
}

/// The commodity offers (21.5: a commodity becomes a trade good when it changes hands): the
/// largest swap and, beside it, a swap of one; commodities for goods; goods for commodities.
pub open spec fn commodity_shapes(mine: (int, int), theirs: (int, int)) -> Seq<(OptionView, Seq<(Seq<char>, ValueView)>)> {
    let (mine_goods, mine_commodities) = mine;
    let (their_goods, their_commodities) = theirs;
    let swap = min(mine_commodities, their_commodities);
    let swaps = if swap > 0 {
        seq![shape("cc"@ + decimal(swap), "swap "@ + decimal(swap) + " commodities each -- both gain"@, seq![])] + if swap
            > 1 {
            seq![shape("cc1"@, "swap 1 commodity each"@, seq![])]
        } else {
            seq![]
        }
    } else {
        seq![]
    };
    let give = min(mine_commodities, 3);
    let want = min(their_goods, give);
    let ct = if mine_commodities > 0 && their_goods > 0 && want > 0 {
        seq![shape(
            "ct"@ + decimal(give) + ":"@ + decimal(want),
            "give "@ + decimal(give) + " commodities for "@ + decimal(want) + " trade goods"@,
            seq![],
        )]
    } else {
        seq![]
    };
    let want2 = min(their_commodities, 3);
    let give2 = min(mine_goods, want2);
    let tc = if their_commodities > 0 && mine_goods > 0 && give2 > 0 {
        seq![shape(
            "tc"@ + decimal(give2) + ":"@ + decimal(want2),
            "give "@ + decimal(give2) + " trade goods for "@ + decimal(want2) + " commodities"@,
            seq![],
        )]
    } else {
        seq![]
    };
    swaps + ct + tc
}

/// One row of the goods-for-goods grid: `give` for each `want` up to `top`, nothing for
/// nothing left out.
pub open spec fn grid_row(give: int, top: int) -> Seq<(OptionView, Seq<(Seq<char>, ValueView)>)>
    decreases top + 1,
{
    if top < 0 {
        Seq::empty()
    } else if give == 0 && top == 0 {
        grid_row(give, top - 1)
    } else {
        grid_row(give, top - 1).push(shape(
            decimal(give) + ":"@ + decimal(top),
            "give "@ + decimal(give) + " for "@ + decimal(top),
            seq![],
        ))
    }
}

/// The goods-for-goods grid: rows for each `give` up to `gives`.
pub open spec fn grid(gives: int, wants: int) -> Seq<(OptionView, Seq<(Seq<char>, ValueView)>)>
    decreases gives + 1,
{
    if gives < 0 {
        Seq::empty()
    } else {
        grid(gives - 1, wants) + grid_row(gives, wants)
    }
}

/// The deals a proposer can put on the table, in order: the Support swap, note sales, the
/// action-card sale, Black Market offers, the commodity offers, the goods grid up to three each
/// way, and a gift of every commodity held. Each shape is written once.
pub open spec fn spec_offer_shapes(state: GameState, proposer: Seq<char>, partner: Seq<char>) -> Seq<
    (OptionView, Seq<(Seq<char>, ValueView)>),
> {
    let mine = holdings(state, proposer);
    let theirs = holdings(state, partner);
    let i = seat_of(state.players@, proposer);
    let notes = if i >= 0 { sellable_notes(names(state.players@[i].notes@)) } else { seq![] };
    let ss = if support_available(state, proposer) && support_available(state, partner) {
        seq![shape("ss"@, "exchange Support for the Throne notes"@, seq![])]
    } else {
        seq![]
    };
    let gift = if mine.1 > 0 {
        seq![shape("c"@ + decimal(mine.1) + ":0"@, "gift "@ + decimal(mine.1) + " commodities"@, seq![])]
    } else {
        seq![]
    };
    ss + note_shapes(notes, theirs.0) + card_shapes(state, proposer, partner) + black_market_shapes(
        state,
        proposer,
        theirs.0,
    ) + commodity_shapes(mine, theirs) + grid(min(mine.0, 3), min(theirs.0, 3)) + gift
}

fn holdings_of(state: &GameState, player: &str) -> (held: (i32, i32))
    ensures
        (held.0 as int, held.1 as int) == holdings(*state, player@),
{
    match find_seat(&state.players, player) {
        Some(i) => (state.players[i].trade_goods, state.players[i].commodities),
        None => (0, 0),
    }
}

fn offer(id: String, label: String) -> (option: ChoiceOption)
    ensures
        full_view(option) == shape(id@, label@, seq![]),
{
    let option = ChoiceOption::labelled(id.as_str(), OFFER_KIND, label.as_str());
    assert(payload_view(&option) =~= Seq::<(Seq<char>, ValueView)>::empty());
    option
}

fn push_offer(options: &mut Vec<ChoiceOption>, option: ChoiceOption)
    ensures
        final(options)@.map_values(|o: ChoiceOption| full_view(o)) == old(options)@.map_values(
            |o: ChoiceOption| full_view(o),
        ).push(full_view(option)),
{
    options.push(option);
    assert(options@.map_values(|o: ChoiceOption| full_view(o)) =~= old(options)@.map_values(
        |o: ChoiceOption| full_view(o),
    ).push(full_view(option)));
}

fn text(value: &str) -> (v: Value)
    ensures
        v@ == ValueView::Text(value@),
{
    Value::Text(value.to_string())
}

fn note_offers(notes: &Vec<String>, their_goods: i32, options: &mut Vec<ChoiceOption>)
    ensures
        final(options)@.map_values(|o: ChoiceOption| full_view(o)) == old(options)@.map_values(
            |o: ChoiceOption| full_view(o),
        ) + note_shapes(sellable_notes(names(notes@)), their_goods as int),
{
    let ghost start = old(options)@.map_values(|o: ChoiceOption| full_view(o));
    let mut k: usize = 0;
    assert(names(notes@.subrange(0, 0)) =~= Seq::<Seq<char>>::empty());
    assert(start + note_shapes(sellable_notes(names(notes@.subrange(0, 0))), their_goods as int) =~= start);
    while k < notes.len()
        invariant
            k <= notes@.len(),
            options@.map_values(|o: ChoiceOption| full_view(o)) == start + note_shapes(
                sellable_notes(names(notes@.subrange(0, k as int))),
                their_goods as int,
            ),
        decreases notes@.len() - k,
    {
        let ghost prefix = names(notes@.subrange(0, k as int));
        let ghost before = options@.map_values(|o: ChoiceOption| full_view(o));
        let note = notes[k].as_str();
        proof {
            assert(names(notes@.subrange(0, k + 1)) =~= prefix.push(note@));
            assert(prefix.push(note@).drop_last() =~= prefix);
        }
        if !starts_with(note, SUPPORT_PREFIX) {
            let price = note_option_price(note);
            let alias = alias_of(note);
            let ghost facts = seq![("note"@, ValueView::Text(note@)), ("alias"@, ValueView::Text(alias@))];
            let ghost sellable = sellable_notes(prefix);
            proof {
                assert(sellable_notes(prefix.push(note@)) == sellable.push(note@));
                assert(sellable.push(note@).drop_last() =~= sellable);
            }
            if price > 0 && their_goods < price {
                let id = "pn".to_string().concat(note).concat(":0");
                let label = "give ".to_string().concat(note);
                let option = ChoiceOption::labelled(id.as_str(), OFFER_KIND, label.as_str()).with("note", text(note)).with(
                    "alias",
                    text(alias.as_str()),
                ).with("gift", Value::Bool(true));
                proof {
                    assert(payload_view(&option) =~= facts.push(("gift"@, ValueView::Bool(true))));
                }
                push_offer(options, option);
            }
            if price > 0 && their_goods >= price {
                let p = decimal_string(price as i64);
                let id = "pn".to_string().concat(note).concat(":").concat(p.as_str());
                let label = "sell ".to_string().concat(note).concat(" for ").concat(p.as_str()).concat(" trade goods");
                let option = ChoiceOption::labelled(id.as_str(), OFFER_KIND, label.as_str()).with("note", text(note)).with(
                    "alias",
                    text(alias.as_str()),
                );
                proof {
                    assert(payload_view(&option) =~= facts);
                }
                push_offer(options, option);
            }
            proof {
                let shapes = note_shapes(sellable, their_goods as int);
                assert(note_shapes(sellable.push(note@), their_goods as int) =~= shapes + (if price > 0 && their_goods < price {
                    seq![shape("pn"@ + note@ + ":0"@, "give "@ + note@, facts.push(("gift"@, ValueView::Bool(true))))]
                } else {
                    seq![]
                }) + (if price > 0 && their_goods >= price {
                    seq![shape(
                        "pn"@ + note@ + ":"@ + decimal(price as int),
                        "sell "@ + note@ + " for "@ + decimal(price as int) + " trade goods"@,
                        facts,
                    )]
                } else {
                    seq![]
                }));
                assert(options@.map_values(|o: ChoiceOption| full_view(o)) =~= start + note_shapes(
                    sellable_notes(names(notes@.subrange(0, k + 1))),
                    their_goods as int,
                ));
            }
        } else {
            proof {
                assert(sellable_notes(prefix.push(note@)) == sellable_notes(prefix));
            }
        }
        k = k + 1;
    }
    assert(notes@.subrange(0, notes@.len() as int) =~= notes@);
}

/// The alphabetically first entry of a non-empty list.
fn first_sorted(list: &Vec<String>) -> (name: String)
    requires
        list@.len() > 0,
    ensures
        name@ == least(names(list@)),
{
    let mut best = list[0].clone();
    let mut k: usize = 1;
    while k < list.len()
        invariant
            1 <= k <= list@.len(),
            best@ == least(names(list@.subrange(0, k as int))),
        decreases list@.len() - k,
    {
        proof {
            assert(names(list@.subrange(0, k + 1)).drop_last() =~= names(list@.subrange(0, k as int)));
            assert(names(list@.subrange(0, k + 1)).last() == list@[k as int]@);
        }
        if crate::rng::str_lt(list[k].as_str(), best.as_str()) {
            best = list[k].clone();
        }
        k = k + 1;
    }
    assert(list@.subrange(0, list@.len() as int) =~= list@);
    best
}

fn card_offers(state: &GameState, proposer: &str, partner: &str, their_goods: i32, options: &mut Vec<ChoiceOption>)
    requires
        their_goods as int == holdings(*state, partner@).0,
    ensures
        final(options)@.map_values(|o: ChoiceOption| full_view(o)) == old(options)@.map_values(
            |o: ChoiceOption| full_view(o),
        ) + card_shapes(*state, proposer@, partner@),
{
    let open = state.black_market || trades_action_cards(state, proposer) || trades_action_cards(state, partner);
    let i = find_seat(&state.players, proposer);
    if open && their_goods >= 1 && i.is_some() && state.players[i.unwrap()].action_cards.len() > 0 {
        let card = first_sorted(&state.players[i.unwrap()].action_cards);
        let id = "ac".to_string().concat(card.as_str()).concat(":1");
        let label = "sell the action card ".to_string().concat(card.as_str()).concat(" for 1 trade good");
        let option = ChoiceOption::labelled(id.as_str(), OFFER_KIND, label.as_str()).with("action_card", text(card.as_str()));
        assert(payload_view(&option) =~= seq![("action_card"@, ValueView::Text(card@))]);
        push_offer(options, option);
    } else {
        assert(old(options)@.map_values(|o: ChoiceOption| full_view(o)) + card_shapes(*state, proposer@, partner@)
            =~= old(options)@.map_values(|o: ChoiceOption| full_view(o)));
    }
}

fn black_market_offers(state: &GameState, proposer: &str, their_goods: i32, options: &mut Vec<ChoiceOption>)
    ensures
        final(options)@.map_values(|o: ChoiceOption| full_view(o)) == old(options)@.map_values(
            |o: ChoiceOption| full_view(o),
        ) + black_market_shapes(*state, proposer@, their_goods as int),
{
    let ghost start = old(options)@.map_values(|o: ChoiceOption| full_view(o));
    let i = match find_seat(&state.players, proposer) {
        Some(i) => i,
        None => {
            assert(start + black_market_shapes(*state, proposer@, their_goods as int) =~= start);
            return;
        },
    };
    if !state.black_market || their_goods < 1 {
        assert(start + black_market_shapes(*state, proposer@, their_goods as int) =~= start);
        return;
    }
    let seat = &state.players[i];
    let mut k: usize = 0;
    assert(start + secret_shapes(names(seat.secret_objectives@.subrange(0, 0))) =~= start);
    while k < seat.secret_objectives.len()
        invariant
            k <= seat.secret_objectives@.len(),
            options@.map_values(|o: ChoiceOption| full_view(o)) == start + secret_shapes(
                names(seat.secret_objectives@.subrange(0, k as int)),
            ),
        decreases seat.secret_objectives@.len() - k,
    {
        let secret = seat.secret_objectives[k].as_str();
        proof {
            assert(names(seat.secret_objectives@.subrange(0, k + 1)).drop_last() =~= names(
                seat.secret_objectives@.subrange(0, k as int),
            ));
            assert(names(seat.secret_objectives@.subrange(0, k + 1)).last() == secret@);
        }
        let id = "so".to_string().concat(secret).concat(":1");
        let label = "sell the secret objective ".to_string().concat(secret).concat(" for 1 trade good");
        let option = ChoiceOption::labelled(id.as_str(), OFFER_KIND, label.as_str()).with("secret", text(secret));
        assert(payload_view(&option) =~= seq![("secret"@, ValueView::Text(secret@))]);
        push_offer(options, option);
        k = k + 1;
    }
    assert(seat.secret_objectives@.subrange(0, seat.secret_objectives@.len() as int) =~= seat.secret_objectives@);
    let ghost secrets = options@.map_values(|o: ChoiceOption| full_view(o));
    let ghost fragments = names(seat.relic_fragments@);
    let mut f: usize = 0;
    assert(secrets + fragment_shapes(fragments, 0) =~= secrets);
    while f < seat.relic_fragments.len()
        invariant
            f <= seat.relic_fragments@.len(),
            fragments == names(seat.relic_fragments@),
            options@.map_values(|o: ChoiceOption| full_view(o)) == secrets + fragment_shapes(fragments, f as int),
        decreases seat.relic_fragments@.len() - f,
    {
        let x = seat.relic_fragments[f].as_str();
        let mut seen = false;
        let mut j: usize = 0;
        while j < f
            invariant
                j <= f,
                f < seat.relic_fragments@.len(),
                fragments == names(seat.relic_fragments@),
                x@ == fragments[f as int],
                seen == fragments.subrange(0, j as int).contains(x@),
            decreases f - j,
        {
            proof {
                assert(fragments.subrange(0, j + 1) =~= fragments.subrange(0, j as int).push(fragments[j as int]));
                assert(fragments[j as int] == seat.relic_fragments@[j as int]@);
            }
            if str_eq(seat.relic_fragments[j].as_str(), x) {
                seen = true;
                assert(fragments.subrange(0, j + 1)[j as int] == x@);
            } else {
                proof {
                    if fragments.subrange(0, j + 1).contains(x@) {
                        let w = choose|w: int| 0 <= w < j + 1 && #[trigger] fragments.subrange(0, j + 1)[w] == x@;
                        assert(w < j);
                        assert(fragments.subrange(0, j as int)[w] == x@);
                    }
                }
            }
            proof {
                if seen && !fragments.subrange(0, j + 1).contains(x@) {
                    let w = choose|w: int| 0 <= w < j && #[trigger] fragments.subrange(0, j as int)[w] == x@;
                    assert(fragments.subrange(0, j + 1)[w] == x@);
                }
            }
            j = j + 1;
        }
        if !seen {
            let id = "fr".to_string().concat(x).concat(":1");
            let label = "sell a ".to_string().concat(x).concat(" relic fragment for 1 trade good");
            let option = ChoiceOption::labelled(id.as_str(), OFFER_KIND, label.as_str()).with("fragment", text(x));
            assert(payload_view(&option) =~= seq![("fragment"@, ValueView::Text(x@))]);
            push_offer(options, option);
        }
        f = f + 1;
    }
}

fn commodity_offers(mine: (i32, i32), theirs: (i32, i32), options: &mut Vec<ChoiceOption>)
    ensures
        final(options)@.map_values(|o: ChoiceOption| full_view(o)) == old(options)@.map_values(
            |o: ChoiceOption| full_view(o),
        ) + commodity_shapes((mine.0 as int, mine.1 as int), (theirs.0 as int, theirs.1 as int)),
{
    let ghost start = old(options)@.map_values(|o: ChoiceOption| full_view(o));
    let (mine_goods, mine_commodities) = mine;
    let (their_goods, their_commodities) = theirs;
    let swap = if mine_commodities < their_commodities { mine_commodities } else { their_commodities };
    if swap > 0 {
        let n = decimal_string(swap as i64);
        push_offer(
            options,
            offer("cc".to_string().concat(n.as_str()), "swap ".to_string().concat(n.as_str()).concat(" commodities each -- both gain")),
        );
        if swap > 1 {
            push_offer(options, offer("cc1".to_string(), "swap 1 commodity each".to_string()));
        }
    }
    let ghost after_swaps = options@.map_values(|o: ChoiceOption| full_view(o));
    let give = if mine_commodities < 3 { mine_commodities } else { 3 };
    let want = if their_goods < give { their_goods } else { give };
    if mine_commodities > 0 && their_goods > 0 && want > 0 {
        let g = decimal_string(give as i64);
        let w = decimal_string(want as i64);
        push_offer(
            options,
            offer(
                "ct".to_string().concat(g.as_str()).concat(":").concat(w.as_str()),
                "give ".to_string().concat(g.as_str()).concat(" commodities for ").concat(w.as_str()).concat(" trade goods"),
            ),
        );
    }
    let ghost after_ct = options@.map_values(|o: ChoiceOption| full_view(o));
    let want2 = if their_commodities < 3 { their_commodities } else { 3 };
    let give2 = if mine_goods < want2 { mine_goods } else { want2 };
    if their_commodities > 0 && mine_goods > 0 && give2 > 0 {
        let g = decimal_string(give2 as i64);
        let w = decimal_string(want2 as i64);
        push_offer(
            options,
            offer(
                "tc".to_string().concat(g.as_str()).concat(":").concat(w.as_str()),
                "give ".to_string().concat(g.as_str()).concat(" trade goods for ").concat(w.as_str()).concat(" commodities"),
            ),
        );
    }
    proof {
        let m = (mine.0 as int, mine.1 as int);
        let t = (theirs.0 as int, theirs.1 as int);
        assert(options@.map_values(|o: ChoiceOption| full_view(o)) =~= start + commodity_shapes(m, t));
    }
}

fn grid_offers(gives: i32, wants: i32, options: &mut Vec<ChoiceOption>)
    requires
        gives <= 3,
        wants <= 3,
    ensures
        final(options)@.map_values(|o: ChoiceOption| full_view(o)) == old(options)@.map_values(
            |o: ChoiceOption| full_view(o),
        ) + grid(gives as int, wants as int),
{
    let ghost start = old(options)@.map_values(|o: ChoiceOption| full_view(o));
    let mut give: i32 = 0;
    assert(start + grid(-1, wants as int) =~= start);
    while give <= gives
        invariant
            0 <= give <= 4,
            gives <= 3,
            wants <= 3,
            gives >= 0 ==> give <= gives + 1,
            gives < 0 ==> give == 0,
            options@.map_values(|o: ChoiceOption| full_view(o)) == start + grid(give - 1, wants as int),
        decreases 4 - give,
    {
        let ghost row_start = options@.map_values(|o: ChoiceOption| full_view(o));
        let mut want: i32 = 0;
        assert(row_start + grid_row(give as int, -1) =~= row_start);
        while want <= wants
            invariant
                0 <= want <= 4,
                0 <= give <= 3,
                wants <= 3,
                wants >= 0 ==> want <= wants + 1,
                wants < 0 ==> want == 0,
                options@.map_values(|o: ChoiceOption| full_view(o)) == row_start + grid_row(give as int, want - 1),
            decreases 4 - want,
        {
            if !(give == 0 && want == 0) {
                let g = decimal_string(give as i64);
                let w = decimal_string(want as i64);
                push_offer(
                    options,
                    offer(
                        g.clone().concat(":").concat(w.as_str()),
                        "give ".to_string().concat(g.as_str()).concat(" for ").concat(w.as_str()),
                    ),
                );
            }
            proof {
                assert(options@.map_values(|o: ChoiceOption| full_view(o)) =~= row_start + grid_row(give as int, want as int));
            }
            want = want + 1;
        }
        proof {
            if wants < 0 {
                assert(row_start + grid_row(give as int, -1) =~= row_start);
            }
            assert(grid(give as int, wants as int) == grid(give - 1, wants as int) + grid_row(give as int, wants as int));
            assert(options@.map_values(|o: ChoiceOption| full_view(o)) =~= start + grid(give as int, wants as int));
        }
        give = give + 1;
    }
    proof {
        if gives < 0 {
            assert(start + grid(gives as int, wants as int) =~= start);
        }
    }
}

/// The deals this player can put on the table, in a stable order and each shape once. A shape
/// written twice would be drawn twice as often by a sampling decider.
pub fn offer_options(state: &GameState, proposer: &str, partner: &str) -> (options: Vec<ChoiceOption>)
    ensures
        options@.map_values(|o: ChoiceOption| full_view(o)) == spec_offer_shapes(*state, proposer@, partner@),
{
    let mine = holdings_of(state, proposer);
    let theirs = holdings_of(state, partner);
    let mut options: Vec<ChoiceOption> = Vec::new();
    assert(options@.map_values(|o: ChoiceOption| full_view(o)) =~= Seq::empty());
    let mine_support = match find_seat(&state.players, proposer) {
        Some(i) => contains_name(&state.players[i].notes, support_note(faction_name(state, proposer).as_str()).as_str()),
        None => false,
    };
    let their_support = match find_seat(&state.players, partner) {
        Some(i) => contains_name(&state.players[i].notes, support_note(faction_name(state, partner).as_str()).as_str()),
        None => false,
    };
    if mine_support && their_support {
        push_offer(&mut options, offer("ss".to_string(), "exchange Support for the Throne notes".to_string()));
    }
    let ghost ss = options@.map_values(|o: ChoiceOption| full_view(o));
    match find_seat(&state.players, proposer) {
        Some(i) => note_offers(&state.players[i].notes, theirs.0, &mut options),
        None => {
            assert(ss + note_shapes(seq![], theirs.0 as int) =~= ss);
        },
    }
    card_offers(state, proposer, partner, theirs.0, &mut options);
    black_market_offers(state, proposer, theirs.0, &mut options);
    commodity_offers(mine, theirs, &mut options);
    let gives = if mine.0 < 3 { mine.0 } else { 3 };
    let wants = if theirs.0 < 3 { theirs.0 } else { 3 };
    grid_offers(gives, wants, &mut options);
    let ghost before_gift = options@.map_values(|o: ChoiceOption| full_view(o));
    if mine.1 > 0 {
        let n = decimal_string(mine.1 as i64);
        push_offer(
            &mut options,
            offer("c".to_string().concat(n.as_str()).concat(":0"), "gift ".to_string().concat(n.as_str()).concat(" commodities")),
        );
    }
    proof {
        let m = holdings(*state, proposer@);
        let t = holdings(*state, partner@);
        let i = seat_of(state.players@, proposer@);
        let notes = if i >= 0 { sellable_notes(names(state.players@[i].notes@)) } else { seq![] };
        let ssv = if support_available(*state, proposer@) && support_available(*state, partner@) {
            seq![shape("ss"@, "exchange Support for the Throne notes"@, seq![])]
        } else {
            seq![]
        };
        let gift = if m.1 > 0 {
            seq![shape("c"@ + decimal(m.1) + ":0"@, "gift "@ + decimal(m.1) + " commodities"@, seq![])]
        } else {
            seq![]
        };
        assert(ss =~= ssv);
        assert(options@.map_values(|o: ChoiceOption| full_view(o)) =~= ssv + note_shapes(notes, t.0) + card_shapes(
            *state,
            proposer@,
            partner@,
        ) + black_market_shapes(*state, proposer@, t.0) + commodity_shapes(m, t) + grid(min(m.0, 3), min(t.0, 3)) + gift);
    }
    options
}

/// The kind of an answer to a proposed deal.
pub const ANSWER_KIND: &'static str = "transaction";
/// The kind of the option that opens negotiations: a transaction costs no action.
pub const OPEN_KIND: &'static str = "open_transaction";
/// The prefix of an option that opens a transaction.
pub const OPEN_PREFIX: &'static str = "component|trade|";

/// Everyone this player may transact with on the map, in seating order.
pub open spec fn spec_neighbours(state: GameState, galaxy: Galaxy, player: Seq<char>, k: int) -> Seq<Seq<char>>
    decreases k,
{
    if k <= 0 {
        Seq::empty()
    } else {
        let other = state.seating_order@[k - 1]@;
        let rest = spec_neighbours(state, galaxy, player, k - 1);
        if spec_are_neighbours(state, galaxy, player, other) { rest.push(other) } else { rest }
    }
}

/// Add a player to a list of those seen, when they are a neighbour other than `player` and not
/// yet in it.
pub open spec fn note_neighbour(seen: Seq<Seq<char>>, who: Seq<char>, mine: Seq<Seq<char>>, player: Seq<char>) -> Seq<Seq<char>> {
    if who != player && mine.contains(who) && !seen.contains(who) {
        seen.push(who)
    } else {
        seen
    }
}

/// The neighbours seen in the first `k` transactions of the round, each once, in the order
/// they first appear (proposer, then partner).
pub open spec fn neighbours_seen(tx: Seq<(String, String)>, mine: Seq<Seq<char>>, player: Seq<char>, k: int) -> Seq<Seq<char>>
    decreases k,
{
    if k <= 0 {
        Seq::empty()
    } else {
        let seen = neighbours_seen(tx, mine, player, k - 1);
        note_neighbour(note_neighbour(seen, tx[k - 1].0@, mine, player), tx[k - 1].1@, mine, player)
    }
}

fn note(seen: &mut Vec<String>, who: &str, mine: &Vec<String>, player: &str)
    ensures
        names(final(seen)@) == note_neighbour(names(old(seen)@), who@, names(mine@), player@),
{
    if !str_eq(who, player) && contains_name(mine, who) && !contains_name(seen, who) {
        let ghost was = names(seen@);
        seen.push(who.to_string());
        assert(names(seen@) =~= was.push(who@));
    }
}

/// Neighbours of `player` who have resolved a transaction this round, each once: Lie in Wait
/// counts hands, so a neighbour who traded twice counts once.
pub fn neighbours_who_transacted(state: &GameState, galaxy: &Galaxy, player: &str) -> (seen: Vec<String>)
    ensures
        names(seen@) == neighbours_seen(
            state.transactions_this_round@,
            spec_neighbours(*state, *galaxy, player@, state.seating_order@.len() as int),
            player@,
            state.transactions_this_round@.len() as int,
        ),
{
    let mine = neighbours(state, galaxy, player);
    let mut seen: Vec<String> = Vec::new();
    assert(names(seen@) =~= Seq::<Seq<char>>::empty());
    let mut k: usize = 0;
    while k < state.transactions_this_round.len()
        invariant
            k <= state.transactions_this_round@.len(),
            names(mine@) == spec_neighbours(*state, *galaxy, player@, state.seating_order@.len() as int),
            names(seen@) == neighbours_seen(state.transactions_this_round@, names(mine@), player@, k as int),
        decreases state.transactions_this_round@.len() - k,
    {
        note(&mut seen, state.transactions_this_round[k].0.as_str(), &mine, player);
        note(&mut seen, state.transactions_this_round[k].1.as_str(), &mine, player);
        k = k + 1;
    }
    seen
}

/// Everyone this player may transact with on the map, in seating order.
pub fn neighbours(state: &GameState, galaxy: &Galaxy, player: &str) -> (found: Vec<String>)
    ensures
        names(found@) == spec_neighbours(*state, *galaxy, player@, state.seating_order@.len() as int),
{
    let mut found: Vec<String> = Vec::new();
    let mut k: usize = 0;
    assert(names(found@) =~= Seq::<Seq<char>>::empty());
    while k < state.seating_order.len()
        invariant
            k <= state.seating_order@.len(),
            names(found@) == spec_neighbours(*state, *galaxy, player@, k as int),
        decreases state.seating_order@.len() - k,
    {
        let other = state.seating_order[k].as_str();
        if are_neighbours(state, galaxy, player, other) {
            let ghost before = names(found@);
            found.push(other.to_string());
            assert(names(found@) =~= before.push(other@));
        }
        k = k + 1;
    }
    found
}

/// Everyone else at the table, in seating order: whom a player may deal with when the map no
/// longer decides (Hacan's Guild Ships, or a Trade Convoys note in hand).
pub open spec fn spec_everyone_else(order: Seq<Seq<char>>, player: Seq<char>) -> Seq<Seq<char>>
    decreases order.len(),
{
    if order.len() == 0 {
        Seq::empty()
    } else {
        let rest = spec_everyone_else(order.drop_last(), player);
        if order.last() != player { rest.push(order.last()) } else { rest }
    }
}

/// Everyone this player may transact with: the whole table when `ignores_neighbours` (Guild
/// Ships, or Trade Convoys held), otherwise the neighbours on the map.
pub fn partners(state: &GameState, galaxy: &Galaxy, player: &str, ignores_neighbours: bool) -> (found: Vec<String>)
    ensures
        ignores_neighbours ==> names(found@) == spec_everyone_else(names(state.seating_order@), player@),
        !ignores_neighbours ==> names(found@) == spec_neighbours(*state, *galaxy, player@, state.seating_order@.len() as int),
{
    if !ignores_neighbours {
        return neighbours(state, galaxy, player);
    }
    let mut found: Vec<String> = Vec::new();
    let mut k: usize = 0;
    assert(names(found@) =~= Seq::<Seq<char>>::empty());
    while k < state.seating_order.len()
        invariant
            k <= state.seating_order@.len(),
            names(found@) == spec_everyone_else(names(state.seating_order@.subrange(0, k as int)), player@),
        decreases state.seating_order@.len() - k,
    {
        let other = state.seating_order[k].as_str();
        proof {
            assert(names(state.seating_order@.subrange(0, k + 1)).drop_last() =~= names(state.seating_order@.subrange(0, k as int)));
            assert(names(state.seating_order@.subrange(0, k + 1)).last() == other@);
        }
        if !str_eq(other, player) {
            let ghost before = names(found@);
            found.push(other.to_string());
            assert(names(found@) =~= before.push(other@));
        }
        k = k + 1;
    }
    assert(state.seating_order@.subrange(0, state.seating_order@.len() as int) =~= state.seating_order@);
    found
}

/// Whether a pair has opened a transaction this turn, either way round (94.1).
pub open spec fn spec_transacted(state: GameState, a: Seq<char>, b: Seq<char>) -> bool {
    exists|k: int| 0 <= k < state.transacted_this_turn@.len() && {
        let (x, y) = #[trigger] state.transacted_this_turn@[k];
        (x@ == a && y@ == b) || (x@ == b && y@ == a)
    }
}

fn transacted(state: &GameState, a: &str, b: &str) -> (yes: bool)
    ensures
        yes == spec_transacted(*state, a@, b@),
{
    let mut k: usize = 0;
    while k < state.transacted_this_turn.len()
        invariant
            k <= state.transacted_this_turn@.len(),
            forall|j: int| 0 <= j < k ==> {
                let (x, y) = #[trigger] state.transacted_this_turn@[j];
                !((x@ == a@ && y@ == b@) || (x@ == b@ && y@ == a@))
            },
        decreases state.transacted_this_turn@.len() - k,
    {
        let (x, y) = (&state.transacted_this_turn[k].0, &state.transacted_this_turn[k].1);
        if (str_eq(x.as_str(), a) && str_eq(y.as_str(), b)) || (str_eq(x.as_str(), b) && str_eq(y.as_str(), a)) {
            return true;
        }
        k = k + 1;
    }
    false
}

/// The options that open a transaction: one per partner not yet dealt with this turn, each
/// naming the partner's faction. 94.1 allows one transaction per neighbour per turn, which is
/// also what stops a free action from being taken forever.
pub open spec fn spec_open_options(state: GameState, player: Seq<char>, partners: Seq<Seq<char>>) -> Seq<OptionView>
    decreases partners.len(),
{
    if partners.len() == 0 {
        Seq::empty()
    } else {
        let other = partners.last();
        let rest = spec_open_options(state, player, partners.drop_last());
        if spec_transacted(state, player, other) {
            rest
        } else {
            let name = spec_faction_name(state, other);
            rest.push(OptionView { id: OPEN_PREFIX@ + name, kind: OPEN_KIND@, label: "open a transaction with "@ + name })
        }
    }
}

/// Everyone this player may still open a transaction with this turn.
pub fn available_actions(state: &GameState, galaxy: &Galaxy, player: &str, ignores_neighbours: bool) -> (options: Vec<ChoiceOption>)
    ensures
        ignores_neighbours ==> options@.map_values(|o: ChoiceOption| o@) == spec_open_options(
            *state,
            player@,
            spec_everyone_else(names(state.seating_order@), player@),
        ),
        !ignores_neighbours ==> options@.map_values(|o: ChoiceOption| o@) == spec_open_options(
            *state,
            player@,
            spec_neighbours(*state, *galaxy, player@, state.seating_order@.len() as int),
        ),
{
    let others = partners(state, galaxy, player, ignores_neighbours);
    let mut options: Vec<ChoiceOption> = Vec::new();
    let mut k: usize = 0;
    assert(options@.map_values(|o: ChoiceOption| o@) =~= Seq::<OptionView>::empty());
    while k < others.len()
        invariant
            k <= others@.len(),
            options@.map_values(|o: ChoiceOption| o@) == spec_open_options(*state, player@, names(others@.subrange(0, k as int))),
        decreases others@.len() - k,
    {
        let other = others[k].as_str();
        proof {
            assert(names(others@.subrange(0, k + 1)).drop_last() =~= names(others@.subrange(0, k as int)));
            assert(names(others@.subrange(0, k + 1)).last() == other@);
        }
        if !transacted(state, player, other) {
            let name = faction_name(state, other);
            let option = ChoiceOption::labelled(
                OPEN_PREFIX.to_string().concat(name.as_str()).as_str(),
                OPEN_KIND,
                "open a transaction with ".to_string().concat(name.as_str()).as_str(),
            );
            let ghost before = options@.map_values(|o: ChoiceOption| o@);
            options.push(option);
            assert(options@.map_values(|o: ChoiceOption| o@) =~= before.push(option@));
        }
        k = k + 1;
    }
    assert(others@.subrange(0, others@.len() as int) =~= others@);
    options
}

/// The first seat in seating order whose faction an opening option names, or `None` for any
/// other option.
pub open spec fn spec_opens_with(state: GameState, id: Seq<char>, k: int) -> Option<Seq<char>>
    decreases state.seating_order@.len() - k,
{
    match after_prefix(id, OPEN_PREFIX@) {
        None => None,
        Some(named) => if k < 0 || k >= state.seating_order@.len() {
            None
        } else {
            let seat = state.seating_order@[k]@;
            let i = seat_of(state.players@, seat);
            if i >= 0 && state.players@[i].faction@ == named {
                Some(seat)
            } else {
                spec_opens_with(state, id, k + 1)
            }
        },
    }
}

/// The partner an opening option names, or `None` for any other option. The id names the
/// partner's faction; the first seat in seating order holding that faction answers.
pub fn opens_with(state: &GameState, option: &ChoiceOption) -> (partner: Option<String>)
    ensures
        match partner {
            Some(p) => spec_opens_with(*state, option.id@, 0) == Some(p@),
            None => spec_opens_with(*state, option.id@, 0) is None,
        },
{
    let named = match strip(option.id.as_str(), OPEN_PREFIX) {
        Some(named) => named,
        None => return None,
    };
    let mut k: usize = 0;
    while k < state.seating_order.len()
        invariant
            k <= state.seating_order@.len(),
            after_prefix(option.id@, OPEN_PREFIX@) == Some(named@),
            spec_opens_with(*state, option.id@, 0) == spec_opens_with(*state, option.id@, k as int),
        decreases state.seating_order@.len() - k,
    {
        let seat = state.seating_order[k].as_str();
        match find_seat(&state.players, seat) {
            Some(i) => {
                if str_eq(state.players[i].faction.as_str(), named) {
                    return Some(seat.to_string());
                }
            },
            None => {},
        }
        k = k + 1;
    }
    None
}

/// How a negotiation ended, or where it stands.
#[derive(Debug, Clone, PartialEq, Eq)]
pub enum Traded {
    /// The deal was struck.
    Resolved,
    /// The proposer had nothing to offer, or chose to offer nothing.
    NothingOffered,
    /// The partner refused.
    Refused,
    /// A deal was put on the table and awaits an answer.
    Offered,
    /// The partner countered; negotiations continue.
    Countered,
    /// The offer on the table was not legal, so nothing happened.
    Rejected(OfferError),
}

/// Which side of the table a window is waiting on.
#[derive(Debug, Clone, PartialEq, Eq)]
pub enum Stage {
    /// The proposer is choosing what to put on the table.
    Proposing,
    /// The partner is answering a proposal.
    Answering(Offer),
    /// Negotiations are over.
    Done,
}

/// An open negotiation between two neighbours (94.1a). A counteroffer is the same negotiation
/// seen from the other chair, so haggling is the offer, mirrored, going back the other way.
#[derive(Debug, Clone, PartialEq, Eq)]
pub struct TradeWindow {
    pub proposer: String,
    pub partner: String,
    pub stage: Stage,
    /// Proposals still to be answered: an offer and one counter.
    pub rounds_left: u8,
}

impl TradeWindow {
    /// Open negotiations, spending this pair's one transaction for the turn. 94.1 is spent on
    /// opening, not on closing: a player who keeps declining their own offer cannot reopen the
    /// same talks without limit.
    pub fn open(state: &mut GameState, proposer: &str, partner: &str) -> (window: Self)
        ensures
            window.proposer@ == proposer@,
            window.partner@ == partner@,
            window.stage == Stage::Proposing,
            window.rounds_left == 2,
            *final(state) == (GameState { transacted_this_turn: final(state).transacted_this_turn, ..*old(state) }),
            final(state).transacted_this_turn@.drop_last() == old(state).transacted_this_turn@,
            final(state).transacted_this_turn@.len() == old(state).transacted_this_turn@.len() + 1,
            final(state).transacted_this_turn@.last().0@ == proposer@,
            final(state).transacted_this_turn@.last().1@ == partner@,
    {
        state.transacted_this_turn.push((proposer.to_string(), partner.to_string()));
        assert(state.transacted_this_turn@.drop_last() =~= old(state).transacted_this_turn@);
        TradeWindow { proposer: proposer.to_string(), partner: partner.to_string(), stage: Stage::Proposing, rounds_left: 2 }
    }

    /// Whether negotiations have ended.
    pub fn is_complete(&self) -> (done: bool)
        ensures
            done == (self.stage is Done),
    {
        match self.stage {
            Stage::Done => true,
            _ => false,
        }
    }

    /// Apply one answer. A proposal is checked for legality before the partner is troubled
    /// with it; an accepted deal is resolved; a counter turns the table round, and haggling is
    /// bounded: the second counter ends the negotiation.
    pub fn resolve(&mut self, state: &mut GameState, galaxy: &Galaxy, answer: &ChoiceOption) -> (outcome: Traded)
        requires
            old(self).stage matches Stage::Answering(offer) ==> (spec_why_illegal(*old(state), *galaxy, offer) is None ==> {
                let i = seat_of(old(state).players@, offer.proposer@);
                let j = seat_of(old(state).players@, offer.partner@);
                &&& exchange_fits(old(state).players@[i], offer.given, offer.received)
                &&& exchange_fits(old(state).players@[j], offer.received, offer.given)
            }),
        ensures
            match old(self).stage {
                Stage::Done => outcome == Traded::NothingOffered && final(self).stage is Done && *final(state) == *old(state),
                Stage::Proposing => {
                    &&& *final(state) == *old(state)
                    &&& if spec_is_decline(answer@) || spec_offer_from(*old(state), answer.id@, old(self).proposer@, old(self).partner@) is None {
                        outcome == Traded::NothingOffered && final(self).stage is Done
                    } else {
                        match outcome {
                            Traded::Offered => final(self).stage matches Stage::Answering(o)
                                && offer_legs(Some(o)) == spec_offer_from(*old(state), answer.id@, old(self).proposer@, old(self).partner@)
                                && o.proposer@ == old(self).proposer@ && o.partner@ == old(self).partner@
                                && spec_why_illegal(*old(state), *galaxy, o) is None
                                && final(self).proposer == old(self).proposer && final(self).partner == old(self).partner
                                && final(self).rounds_left == old(self).rounds_left,
                            Traded::Rejected(r) => final(self).stage is Done && exists|o: Offer|
                                offer_legs(Some(o)) == spec_offer_from(*old(state), answer.id@, old(self).proposer@, old(self).partner@)
                                && o.proposer@ == old(self).proposer@ && o.partner@ == old(self).partner@
                                && #[trigger] reason_view(spec_why_illegal(*old(state), *galaxy, o)) == Some(r@),
                            _ => false,
                        }
                    }
                },
                Stage::Answering(offer) => if spec_is_decline(answer@) {
                    outcome == Traded::Refused && final(self).stage is Done && *final(state) == *old(state)
                } else if answer@.id == "accept"@ {
                    &&& final(self).stage is Done
                    &&& match outcome {
                        Traded::Resolved => spec_why_illegal(*old(state), *galaxy, offer) is None
                            && spec_resolved(*old(state), *final(state), offer),
                        Traded::Rejected(r) => reason_view(spec_why_illegal(*old(state), *galaxy, offer)) == Some(r@)
                            && *final(state) == *old(state),
                        _ => false,
                    }
                } else if old(self).rounds_left <= 1 {
                    outcome == Traded::NothingOffered && final(self).stage is Done && *final(state) == *old(state)
                } else {
                    &&& outcome == Traded::Countered
                    &&& final(self).stage is Proposing
                    &&& final(self).proposer == old(self).partner
                    &&& final(self).partner == old(self).proposer
                    &&& final(self).rounds_left == old(self).rounds_left - 1
                    &&& *final(state) == *old(state)
                },
            },
    {
        let mut stage = Stage::Done;
        std::mem::swap(&mut stage, &mut self.stage);
        match stage {
            Stage::Done => Traded::NothingOffered,
            Stage::Proposing => {
                if answer.is_decline() {
                    return Traded::NothingOffered;
                }
                let offer = match offer_from(state, answer.id.as_str(), self.proposer.as_str(), self.partner.as_str()) {
                    Some(offer) => offer,
                    None => return Traded::NothingOffered,
                };
                match why_illegal(state, galaxy, &offer) {
                    Some(reason) => {
                        assert(reason_view(spec_why_illegal(*old(state), *galaxy, offer)) == Some(reason@));
                        return Traded::Rejected(reason);
                    },
                    None => {},
                }
                self.stage = Stage::Answering(offer);
                Traded::Offered
            },
            Stage::Answering(offer) => {
                if answer.is_decline() {
                    return Traded::Refused;
                }
                if str_eq(answer.id.as_str(), "accept") {
                    return match resolve(state, galaxy, &offer) {
                        Ok(()) => Traded::Resolved,
                        Err(reason) => Traded::Rejected(reason),
                    };
                }
                self.rounds_left = if self.rounds_left > 0 { self.rounds_left - 1 } else { 0 };
                if self.rounds_left == 0 {
                    return Traded::NothingOffered;
                }
                std::mem::swap(&mut self.proposer, &mut self.partner);
                self.stage = Stage::Proposing;
                Traded::Countered
            },
        }
    }

    /// The decision this negotiation owes, if any: the proposer's choice of deal (with a
    /// decline), or the partner's answer to the deal on the table.
    pub fn pending_choice(&self, state: &GameState) -> (choice: Option<Choice>)
        ensures
            match self.stage {
                Stage::Done => choice is None,
                Stage::Proposing => {
                    let shapes = spec_offer_shapes(*state, self.proposer@, self.partner@);
                    if shapes.len() == 0 {
                        choice is None
                    } else {
                        choice matches Some(c) && c.player@ == self.proposer@
                            && c.prompt@ == "transaction with "@ + spec_faction_name(*state, self.partner@)
                            && c.options@.len() == shapes.len() + 1
                            && (forall|k: int| 0 <= k < shapes.len() ==> full_view(#[trigger] c.options@[k]) == shapes[k])
                            && c.options@[shapes.len() as int]@ == (OptionView { id: DECLINE_ID@, kind: DECLINE_KIND@, label: DECLINE_ID@ })
                    }
                },
                Stage::Answering(offer) => choice matches Some(c) && c.player@ == self.partner@
                    && c.prompt@ == spec_faction_name(*state, offer.proposer@) + " gives "@ + spec_describe(offer.given)
                        + " for "@ + spec_describe(offer.received) + " -- accept?"@
                    && c.options@.map_values(|o: ChoiceOption| o@) == seq![
                        OptionView { id: "accept"@, kind: ANSWER_KIND@, label: "accept"@ },
                        OptionView { id: "refuse"@, kind: DECLINE_KIND@, label: "refuse"@ },
                        OptionView { id: "counter"@, kind: ANSWER_KIND@, label: "counter-offer"@ },
                    ],
            },
    {
        match &self.stage {
            Stage::Done => None,
            Stage::Proposing => {
                let mut options = offer_options(state, self.proposer.as_str(), self.partner.as_str());
                if options.len() == 0 {
                    return None;
                }
                let ghost shapes = options@.map_values(|o: ChoiceOption| full_view(o));
                let ghost before = options@;
                let n = options.len();
                options.push(ChoiceOption::decline());
                proof {
                    assert forall|k: int| 0 <= k < n implies full_view(#[trigger] options@[k]) == shapes[k] by {
                        assert(options@[k] == before[k]);
                    }
                }
                let prompt = "transaction with ".to_string().concat(faction_name(state, self.partner.as_str()).as_str());
                Some(Choice::new(self.proposer.as_str(), prompt.as_str(), options))
            },
            Stage::Answering(offer) => {
                let prompt = offer.describe(state).concat(" -- accept?");
                let options = vec![
                    ChoiceOption::labelled("accept", ANSWER_KIND, "accept"),
                    ChoiceOption::labelled("refuse", DECLINE_KIND, "refuse"),
                    ChoiceOption::labelled("counter", ANSWER_KIND, "counter-offer"),
                ];
                let choice = Choice::new(self.partner.as_str(), prompt.as_str(), options);
                assert(choice.options@.map_values(|o: ChoiceOption| o@) =~= seq![
                    OptionView { id: "accept"@, kind: ANSWER_KIND@, label: "accept"@ },
                    OptionView { id: "refuse"@, kind: DECLINE_KIND@, label: "refuse"@ },
                    OptionView { id: "counter"@, kind: ANSWER_KIND@, label: "counter-offer"@ },
                ]);
                Some(choice)
            },
        }
    }
}

/// The last `c` of `a + [c] + b`, looking back from any point in `b`, is the one before `b`
/// when `b` holds none.
proof fn lemma_last_before(a: Seq<char>, b: Seq<char>, c: char, to: int)
    requires
        lacks(b, c),
        a.len() + 1 <= to <= a.len() + 1 + b.len(),
    ensures
        find_last_before(a + seq![c] + b, c, to) == a.len(),
    decreases to,
{
    let s = a + seq![c] + b;
    if to > a.len() + 1 {
        assert(s[to - 1] == b[to - 1 - a.len() - 1]);
        lemma_last_before(a, b, c, to - 1);
    } else {
        assert(s[to - 1] == c);
    }
}

/// A text begins with a prefix it was made from.
proof fn lemma_after_prefix(p: Seq<char>, rest: Seq<char>)
    ensures
        after_prefix(p + rest, p) == Some(rest),
{
    assert((p + rest).subrange(0, p.len() as int) =~= p);
    assert((p + rest).subrange(p.len() as int, (p + rest).len() as int) =~= rest);
}

/// A text does not begin with a prefix whose first or second character it does not share.
proof fn lemma_not_prefix(id: Seq<char>, p: Seq<char>, at: int)
    requires
        0 <= at < p.len(),
        at < id.len(),
        id[at] != p[at],
    ensures
        after_prefix(id, p) is None,
{
    if p.len() <= id.len() && id.subrange(0, p.len() as int) == p {
        assert(id.subrange(0, p.len() as int)[at] == id[at]);
    }
}

/// Whether both sides of a deal are seated, different, and hold no negative goods or
/// commodities: the tables a deal can be paid at.
pub open spec fn payable_context(state: GameState, proposer: Seq<char>, partner: Seq<char>) -> bool {
    &&& seat_of(state.players@, proposer) >= 0
    &&& seat_of(state.players@, partner) >= 0
    &&& proposer != partner
    &&& holdings(state, proposer).0 >= 0
    &&& holdings(state, proposer).1 >= 0
    &&& holdings(state, partner).0 >= 0
    &&& holdings(state, partner).1 >= 0
}

/// The seat of a player, where they have one.
pub open spec fn seat_for(state: GameState, player: Seq<char>) -> Seat {
    state.players@[seat_of(state.players@, player)]
}

proof fn lemma_one_in_many(x: Seq<char>, many: Seq<Seq<char>>)
    requires
        many.contains(x),
    ensures
        seq![x].to_multiset().subset_of(many.to_multiset()),
{
    broadcast use vstd::seq_lib::group_to_multiset_ensures;
    assert(seq![x].to_multiset() =~= vstd::multiset::Multiset::singleton(x)) by {
        assert(seq![x] =~= Seq::<Seq<char>>::empty().push(x));
        vstd::seq_lib::to_multiset_build(Seq::<Seq<char>>::empty(), x);
    }
    assert(many.to_multiset().count(x) > 0);
}

/// Whether a player holds everything one side of a deal hands over.
pub open spec fn can_pay_view(state: GameState, player: Seq<char>, t: TermsView) -> bool {
    let i = seat_of(state.players@, player);
    &&& i >= 0
    &&& t.trade_goods <= state.players@[i].trade_goods
    &&& t.commodities <= state.players@[i].commodities
    &&& (t.promissory matches Some(n) ==> names(state.players@[i].notes@).contains(n))
    &&& t.fragments.to_multiset().subset_of(names(state.players@[i].relic_fragments@).to_multiset())
    &&& (t.secret matches Some(x) ==> names(state.players@[i].secret_objectives@).contains(x))
    &&& (t.action_card matches Some(c) ==> names(state.players@[i].action_cards@).contains(c))
}

/// Whether a parsed deal can be paid for: each side holds what it hands over, and an action
/// card changes hands only at a table where action cards may be traded.
pub open spec fn payable(state: GameState, proposer: Seq<char>, partner: Seq<char>, parsed: Option<(TermsView, TermsView)>) -> bool {
    parsed matches Some(deal) && can_pay_view(state, proposer, deal.0) && can_pay_view(state, partner, deal.1) && (
    (deal.0.action_card is Some || deal.1.action_card is Some) ==> (state.black_market || spec_trades_action_cards(
        state,
        proposer,
    ) || spec_trades_action_cards(state, partner)))
}

/// Whether an offered id reads back as a deal that moves something and, at a table where
/// deals can be paid, one that can be paid for.
pub open spec fn deal_ok(state: GameState, proposer: Seq<char>, partner: Seq<char>, id: Seq<char>) -> bool {
    &&& parses_to_a_move(spec_offer_from(state, id, proposer, partner))
    &&& payable_context(state, proposer, partner) ==> payable(state, proposer, partner, spec_offer_from(state, id, proposer, partner))
}

/// Whether every shape of a list reads back, through `offer_from`, as a deal that moves
/// something.
pub open spec fn all_parse(state: GameState, proposer: Seq<char>, partner: Seq<char>, shapes: Seq<(OptionView, Seq<(Seq<char>, ValueView)>)>) -> bool {
    forall|k: int| 0 <= k < shapes.len() ==> #[trigger] deal_ok(state, proposer, partner, shapes[k].0.id)
}

/// Whether an id read back as a deal, and the deal moves something.
pub open spec fn parses_to_a_move(parsed: Option<(TermsView, TermsView)>) -> bool {
    parsed matches Some(deal) && moves_something(deal)
}

/// Whether a side of a deal hands over nothing at all.
pub open spec fn is_nothing(t: TermsView) -> bool {
    &&& t.trade_goods == 0
    &&& t.commodities == 0
    &&& t.fragments.len() == 0
    &&& t.promissory is None
    &&& t.action_card is None
    &&& t.secret is None
}

/// Whether a deal moves something: at least one side hands something over.
pub open spec fn moves_something(deal: (TermsView, TermsView)) -> bool {
    !is_nothing(deal.0) || !is_nothing(deal.1)
}

proof fn lemma_all_parse_concat(
    state: GameState,
    proposer: Seq<char>,
    partner: Seq<char>,
    a: Seq<(OptionView, Seq<(Seq<char>, ValueView)>)>,
    b: Seq<(OptionView, Seq<(Seq<char>, ValueView)>)>,
)
    requires
        all_parse(state, proposer, partner, a),
        all_parse(state, proposer, partner, b),
    ensures
        all_parse(state, proposer, partner, a + b),
{
    assert forall|k: int| 0 <= k < (a + b).len() implies #[trigger] deal_ok(state, proposer, partner, (a + b)[k].0.id) by {
        if k < a.len() {
            assert((a + b)[k] == a[k]);
        } else {
            assert((a + b)[k] == b[k - a.len()]);
        }
    }
}

proof fn lemma_reveal_prefixes()
    ensures
        "ss"@ == seq!['s', 's'],
        "ac"@ == seq!['a', 'c'],
        "pn"@ == seq!['p', 'n'],
        "so"@ == seq!['s', 'o'],
        "fr"@ == seq!['f', 'r'],
        "cc"@ == seq!['c', 'c'],
        "ct"@ == seq!['c', 't'],
        "tc"@ == seq!['t', 'c'],
        "c"@ == seq!['c'],
        ":"@ == seq![':'],
        ":0"@ == seq![':', '0'],
        ":1"@ == seq![':', '1'],
        "cc1"@ == seq!['c', 'c', '1'],
{
    reveal_strlit("ss");
    reveal_strlit("ac");
    reveal_strlit("pn");
    reveal_strlit("so");
    reveal_strlit("fr");
    reveal_strlit("cc");
    reveal_strlit("ct");
    reveal_strlit("tc");
    reveal_strlit("c");
    reveal_strlit(":");
    reveal_strlit(":0");
    reveal_strlit(":1");
    reveal_strlit("cc1");
}

/// A priced id `{head}{name}:{price}` reads back with that name and price, split at the last
/// colon, whatever colons the name holds.
proof fn lemma_priced_last(name: Seq<char>, price: int)
    requires
        i32::MIN <= price <= i32::MAX,
    ensures
        spec_priced(name + ":"@ + decimal(price), true) == Some((name, price)),
{
    lemma_reveal_prefixes();
    lemma_decimal_lacks(price, ':');
    lemma_parse_decimal(price);
    let rest = name + seq![':'] + decimal(price);
    assert(name + ":"@ + decimal(price) =~= rest);
    lemma_last_before(name, decimal(price), ':', rest.len() as int);
    assert(rest.subrange(0, name.len() as int) =~= name);
    assert(rest.subrange(name.len() as int + 1, rest.len() as int) =~= decimal(price));
}

/// The same split at the first colon, for a name that holds none.
proof fn lemma_priced_first(name: Seq<char>, price: int)
    requires
        i32::MIN <= price <= i32::MAX,
        lacks(name, ':'),
    ensures
        spec_priced(name + ":"@ + decimal(price), false) == Some((name, price)),
{
    lemma_reveal_prefixes();
    lemma_parse_decimal(price);
    let rest = name + seq![':'] + decimal(price);
    assert(name + ":"@ + decimal(price) =~= rest);
    lemma_find_after(name, decimal(price), ':', 0);
    assert(rest.subrange(0, name.len() as int) =~= name);
    assert(rest.subrange(name.len() as int + 1, rest.len() as int) =~= decimal(price));
}

/// Two numbers written `a:b` read back as a pair.
proof fn lemma_pair_back(a: int, b: int)
    requires
        i32::MIN <= a <= i32::MAX,
        i32::MIN <= b <= i32::MAX,
    ensures
        spec_pair(decimal(a) + ":"@ + decimal(b)) == Some((a, b)),
{
    lemma_reveal_prefixes();
    lemma_parse_decimal(a);
    lemma_parse_decimal(b);
    lemma_decimal_lacks(a, ':');
    let text = decimal(a) + seq![':'] + decimal(b);
    assert(decimal(a) + ":"@ + decimal(b) =~= text);
    lemma_find_after(decimal(a), decimal(b), ':', 0);
    assert(text.subrange(0, decimal(a).len() as int) =~= decimal(a));
    assert(text.subrange(decimal(a).len() as int + 1, text.len() as int) =~= decimal(b));
}

/// `decimal(0)` and `decimal(1)` are the digits themselves.
proof fn lemma_small_decimals()
    ensures
        ":0"@ == ":"@ + decimal(0),
        ":1"@ == ":"@ + decimal(1),
        "cc1"@ == "cc"@ + decimal(1),
{
    lemma_reveal_prefixes();
    assert(":0"@ =~= ":"@ + decimal(0));
    assert(":1"@ =~= ":"@ + decimal(1));
    assert("cc1"@ =~= "cc"@ + decimal(1));
}

/// Every note offer reads back as a deal.
proof fn lemma_notes_parse(state: GameState, proposer: Seq<char>, partner: Seq<char>, notes: Seq<Seq<char>>, their_goods: int)
    requires
        payable_context(state, proposer, partner) ==> {
            &&& their_goods == holdings(state, partner).0
            &&& forall|k: int| 0 <= k < notes.len() ==> names(seat_for(state, proposer).notes@).contains(#[trigger] notes[k])
        },
    ensures
        all_parse(state, proposer, partner, note_shapes(notes, their_goods)),
    decreases notes.len(),
{
    if notes.len() > 0 {
        assert(payable_context(state, proposer, partner) ==> forall|k: int| 0 <= k < notes.drop_last().len() ==> names(
            seat_for(state, proposer).notes@,
        ).contains(#[trigger] notes.drop_last()[k])) by {
            if payable_context(state, proposer, partner) {
                assert forall|k: int| 0 <= k < notes.drop_last().len() implies names(seat_for(state, proposer).notes@).contains(
                    #[trigger] notes.drop_last()[k],
                ) by {
                    assert(notes.drop_last()[k] == notes[k]);
                }
            }
        }
        lemma_notes_parse(state, proposer, partner, notes.drop_last(), their_goods);
        let note = notes.last();
        assert(payable_context(state, proposer, partner) ==> names(seat_for(state, proposer).notes@).contains(note)) by {
            if payable_context(state, proposer, partner) {
                assert(names(seat_for(state, proposer).notes@).contains(notes[notes.len() - 1]));
            }
        }
        let price = spec_note_price(note);
        lemma_reveal_prefixes();
        lemma_small_decimals();
        assert(2 <= price <= 4);
        let ids = seq!["pn"@ + note + ":0"@, "pn"@ + note + ":"@ + decimal(price)];
        assert forall|j: int| 0 <= j < 2 && (j == 0 || their_goods >= price) implies #[trigger] deal_ok(state, proposer, partner, ids[j]) by {
            let p = if j == 0 { 0int } else { price };
            let rest = note + ":"@ + decimal(p);
            assert(ids[j] =~= "pn"@ + rest);
            assert(ids[j] != "ss"@) by {
                assert(ids[j][0] == 'p');
            }
            lemma_not_prefix(ids[j], "ac"@, 0);
            lemma_after_prefix("pn"@, rest);
            lemma_priced_last(note, p);
        }
        let facts = seq![("note"@, ValueView::Text(note)), ("alias"@, ValueView::Text(spec_alias(note)))];
        let gift = if price > 0 && their_goods < price {
            seq![shape("pn"@ + note + ":0"@, "give "@ + note, facts.push(("gift"@, ValueView::Bool(true))))]
        } else {
            seq![]
        };
        let sale = if price > 0 && their_goods >= price {
            seq![shape("pn"@ + note + ":"@ + decimal(price), "sell "@ + note + " for "@ + decimal(price) + " trade goods"@, facts)]
        } else {
            seq![]
        };
        assert(all_parse(state, proposer, partner, gift)) by {
            if gift.len() > 0 {
                assert(gift[0].0.id == ids[0]);
            }
        }
        assert(all_parse(state, proposer, partner, sale)) by {
            if sale.len() > 0 {
                assert(sale[0].0.id == ids[1]);
            }
        }
        lemma_all_parse_concat(state, proposer, partner, note_shapes(notes.drop_last(), their_goods), gift);
        lemma_all_parse_concat(state, proposer, partner, note_shapes(notes.drop_last(), their_goods) + gift, sale);
    }
}

/// The least of a non-empty list is one of its entries.
proof fn lemma_sellable_members(notes: Seq<Seq<char>>)
    ensures
        forall|k: int| 0 <= k < sellable_notes(notes).len() ==> notes.contains(#[trigger] sellable_notes(notes)[k]),
    decreases notes.len(),
{
    if notes.len() > 0 {
        let rest = notes.drop_last();
        lemma_sellable_members(rest);
        let earlier = sellable_notes(rest);
        let all = sellable_notes(notes);
        assert forall|k: int| 0 <= k < all.len() implies notes.contains(#[trigger] all[k]) by {
            if k < earlier.len() {
                assert(all[k] == earlier[k]);
                let j = choose|j: int| 0 <= j < rest.len() && rest[j] == earlier[k];
                assert(notes[j] == rest[j]);
            } else {
                assert(notes[notes.len() - 1] == all[k]);
            }
        }
    }
}

proof fn lemma_least_member(names: Seq<Seq<char>>)
    requires
        names.len() > 0,
    ensures
        names.contains(least(names)),
    decreases names.len(),
{
    if names.len() > 1 {
        lemma_least_member(names.drop_last());
        let m = least(names.drop_last());
        let i = choose|i: int| 0 <= i < names.drop_last().len() && names.drop_last()[i] == m;
        assert(names[i] == m);
        assert(names[names.len() - 1] == names.last());
    } else {
        assert(names[0] == least(names));
    }
}

/// Whether every name a seat could sell by name is free of colons.
pub open spec fn colon_free(list: Seq<String>) -> bool {
    forall|k: int| 0 <= k < list.len() ==> lacks((#[trigger] list[k])@, ':')
}

proof fn lemma_name_priced(state: GameState, proposer: Seq<char>, partner: Seq<char>, head: Seq<char>, name: Seq<char>)
    requires
        head == "ac"@ || head == "so"@ || head == "fr"@,
        lacks(name, ':'),
        payable_context(state, proposer, partner) ==> {
            let seat = seat_for(state, proposer);
            &&& holdings(state, partner).0 >= 1
            &&& head == "ac"@ ==> names(seat.action_cards@).contains(name) && (state.black_market || spec_trades_action_cards(
                state,
                proposer,
            ) || spec_trades_action_cards(state, partner))
            &&& head == "so"@ ==> names(seat.secret_objectives@).contains(name)
            &&& head == "fr"@ ==> names(seat.relic_fragments@).contains(name)
        },
    ensures
        deal_ok(state, proposer, partner, head + name + ":1"@),
{
    lemma_reveal_prefixes();
    lemma_small_decimals();
    let rest = name + ":"@ + decimal(1);
    let id = head + name + ":1"@;
    assert(id =~= head + rest);
    assert(id != "ss"@) by {
        if id == "ss"@ {
            assert(id.len() >= 4);
        }
    }
    lemma_after_prefix(head, rest);
    lemma_priced_first(name, 1);
    if head == "so"@ {
        lemma_not_prefix(id, "ac"@, 0);
        lemma_not_prefix(id, "pn"@, 0);
    } else if head == "fr"@ {
        lemma_not_prefix(id, "ac"@, 0);
        lemma_not_prefix(id, "pn"@, 0);
        lemma_not_prefix(id, "so"@, 0);
    }
}

proof fn lemma_secrets_parse(state: GameState, proposer: Seq<char>, partner: Seq<char>, secrets: Seq<Seq<char>>)
    requires
        forall|k: int| 0 <= k < secrets.len() ==> lacks(#[trigger] secrets[k], ':'),
        payable_context(state, proposer, partner) ==> {
            &&& holdings(state, partner).0 >= 1
            &&& forall|k: int| 0 <= k < secrets.len() ==> names(seat_for(state, proposer).secret_objectives@).contains(#[trigger] secrets[k])
        },
    ensures
        all_parse(state, proposer, partner, secret_shapes(secrets)),
    decreases secrets.len(),
{
    if secrets.len() > 0 {
        assert forall|k: int| 0 <= k < secrets.drop_last().len() implies lacks(#[trigger] secrets.drop_last()[k], ':') by {
            assert(secrets.drop_last()[k] == secrets[k]);
        }
        assert(payable_context(state, proposer, partner) ==> forall|k: int| 0 <= k < secrets.drop_last().len() ==> names(
            seat_for(state, proposer).secret_objectives@,
        ).contains(#[trigger] secrets.drop_last()[k])) by {
            if payable_context(state, proposer, partner) {
                assert forall|k: int| 0 <= k < secrets.drop_last().len() implies names(seat_for(state, proposer).secret_objectives@).contains(
                    #[trigger] secrets.drop_last()[k],
                ) by {
                    assert(secrets.drop_last()[k] == secrets[k]);
                }
            }
        }
        lemma_secrets_parse(state, proposer, partner, secrets.drop_last());
        let x = secrets.last();
        assert(lacks(secrets[secrets.len() - 1], ':'));
        assert(payable_context(state, proposer, partner) ==> names(seat_for(state, proposer).secret_objectives@).contains(x)) by {
            if payable_context(state, proposer, partner) {
                assert(names(seat_for(state, proposer).secret_objectives@).contains(secrets[secrets.len() - 1]));
            }
        }
        lemma_reveal_prefixes();
        assert("so"@ != "ac"@ && "so"@ != "fr"@) by {
            assert("so"@[0] != "ac"@[0] && "so"@[0] != "fr"@[0]);
        }
        lemma_name_priced(state, proposer, partner, "so"@, x);
        let shapes = secret_shapes(secrets);
        assert forall|k: int| 0 <= k < shapes.len() implies #[trigger] deal_ok(state, proposer, partner, shapes[k].0.id) by {
            if k < shapes.len() - 1 {
                assert(shapes[k] == secret_shapes(secrets.drop_last())[k]);
            }
        }
    }
}

proof fn lemma_fragments_parse(state: GameState, proposer: Seq<char>, partner: Seq<char>, fragments: Seq<Seq<char>>, k: int)
    requires
        0 <= k <= fragments.len(),
        forall|j: int| 0 <= j < fragments.len() ==> lacks(#[trigger] fragments[j], ':'),
        payable_context(state, proposer, partner) ==> {
            &&& holdings(state, partner).0 >= 1
            &&& forall|j: int| 0 <= j < fragments.len() ==> names(seat_for(state, proposer).relic_fragments@).contains(#[trigger] fragments[j])
        },
    ensures
        all_parse(state, proposer, partner, fragment_shapes(fragments, k)),
    decreases k,
{
    if k > 0 {
        lemma_fragments_parse(state, proposer, partner, fragments, k - 1);
        let x = fragments[k - 1];
        assert(lacks(fragments[k - 1], ':'));
        assert(payable_context(state, proposer, partner) ==> names(seat_for(state, proposer).relic_fragments@).contains(x)) by {
            if payable_context(state, proposer, partner) {
                assert(names(seat_for(state, proposer).relic_fragments@).contains(fragments[k - 1]));
            }
        }
        lemma_reveal_prefixes();
        assert("fr"@ != "ac"@ && "fr"@ != "so"@) by {
            assert("fr"@[0] != "ac"@[0] && "fr"@[0] != "so"@[0]);
        }
        lemma_name_priced(state, proposer, partner, "fr"@, x);
        let shapes = fragment_shapes(fragments, k);
        let rest = fragment_shapes(fragments, k - 1);
        assert forall|j: int| 0 <= j < shapes.len() implies #[trigger] deal_ok(state, proposer, partner, shapes[j].0.id) by {
            if j < rest.len() {
                assert(shapes[j] == rest[j]);
            }
        }
    }
}

/// A number's digits are none of the letters that open a named shape.
proof fn lemma_digits_open_nothing(id: Seq<char>, n: int)
    requires
        n >= 0,
        id.len() >= decimal(n).len(),
        id.subrange(0, decimal(n).len() as int) == decimal(n),
    ensures
        id != "ss"@,
        after_prefix(id, "ac"@) is None,
        after_prefix(id, "pn"@) is None,
        after_prefix(id, "so"@) is None,
        after_prefix(id, "fr"@) is None,
        after_prefix(id, "cc"@) is None,
        after_prefix(id, "ct"@) is None,
        after_prefix(id, "tc"@) is None,
        after_prefix(id, "c"@) is None,
{
    lemma_reveal_prefixes();
    lemma_decimal_shape(n);
    assert(id[0] == decimal(n)[0]);
    assert(is_digit(id[0]));
    assert('s' as int == 115 && 'a' as int == 97 && 'p' as int == 112 && 'f' as int == 102 && 'c' as int == 99 && 't' as int == 116);
    lemma_not_prefix(id, "ac"@, 0);
    lemma_not_prefix(id, "pn"@, 0);
    lemma_not_prefix(id, "so"@, 0);
    lemma_not_prefix(id, "fr"@, 0);
    lemma_not_prefix(id, "cc"@, 0);
    lemma_not_prefix(id, "ct"@, 0);
    lemma_not_prefix(id, "tc"@, 0);
    lemma_not_prefix(id, "c"@, 0);
    assert(id != "ss"@) by {
        if id == "ss"@ {
            assert(id[0] == 's');
        }
    }
}

proof fn lemma_grid_parse(state: GameState, proposer: Seq<char>, partner: Seq<char>, gives: int, wants: int)
    requires
        gives <= 3,
        wants <= 3,
        payable_context(state, proposer, partner) ==> gives <= holdings(state, proposer).0 && wants <= holdings(state, partner).0,
    ensures
        all_parse(state, proposer, partner, grid(gives, wants)),
    decreases gives + 1,
{
    if gives >= 0 {
        lemma_grid_parse(state, proposer, partner, gives - 1, wants);
        lemma_row_parse(state, proposer, partner, gives, wants);
        lemma_all_parse_concat(state, proposer, partner, grid(gives - 1, wants), grid_row(gives, wants));
    }
}

proof fn lemma_row_parse(state: GameState, proposer: Seq<char>, partner: Seq<char>, give: int, top: int)
    requires
        0 <= give <= 3,
        top <= 3,
        payable_context(state, proposer, partner) ==> give <= holdings(state, proposer).0 && top <= holdings(state, partner).0,
    ensures
        all_parse(state, proposer, partner, grid_row(give, top)),
    decreases top + 1,
{
    if top >= 0 {
        lemma_row_parse(state, proposer, partner, give, top - 1);
        if !(give == 0 && top == 0) {
            let id = decimal(give) + ":"@ + decimal(top);
            assert(id.subrange(0, decimal(give).len() as int) =~= decimal(give));
            lemma_digits_open_nothing(id, give);
            lemma_pair_back(give, top);
            let shapes = grid_row(give, top);
            let rest = grid_row(give, top - 1);
            assert forall|j: int| 0 <= j < shapes.len() implies #[trigger] deal_ok(state, proposer, partner, shapes[j].0.id) by {
                if j < rest.len() {
                    assert(shapes[j] == rest[j]);
                }
            }
        }
    }
}

proof fn lemma_commodities_parse(state: GameState, proposer: Seq<char>, partner: Seq<char>, mine: (int, int), theirs: (int, int))
    requires
        i32::MIN <= mine.0 <= i32::MAX,
        i32::MIN <= mine.1 <= i32::MAX,
        i32::MIN <= theirs.0 <= i32::MAX,
        i32::MIN <= theirs.1 <= i32::MAX,
        mine == holdings(state, proposer),
        theirs == holdings(state, partner),
    ensures
        all_parse(state, proposer, partner, commodity_shapes(mine, theirs)),
{
    lemma_reveal_prefixes();
    lemma_small_decimals();
    let (mine_goods, mine_commodities) = mine;
    let (their_goods, their_commodities) = theirs;
    let swap = min(mine_commodities, their_commodities);
    assert('s' as int == 115 && 'a' as int == 97 && 'p' as int == 112 && 'f' as int == 102 && 'c' as int == 99 && 't' as int == 116);
    // "cc" then a number: its first character rules out every shape named before it.
    assert forall|n: int| 0 <= n <= i32::MAX implies #[trigger] spec_offer_from(state, "cc"@ + decimal(n), proposer, partner)
        == Some((commodities_view(n), commodities_view(n))) by {
        let id = "cc"@ + decimal(n);
        assert(id[0] == 'c' && id[1] == 'c');
        assert(id != "ss"@);
        lemma_not_prefix(id, "ac"@, 0);
        lemma_not_prefix(id, "pn"@, 0);
        lemma_not_prefix(id, "so"@, 0);
        lemma_not_prefix(id, "fr"@, 0);
        lemma_after_prefix("cc"@, decimal(n));
        lemma_parse_decimal(n);
    }
    let give = min(mine_commodities, 3);
    let want = min(their_goods, give);
    let want2 = min(their_commodities, 3);
    let give2 = min(mine_goods, want2);
    let shapes = commodity_shapes(mine, theirs);
    assert forall|k: int| 0 <= k < shapes.len() implies #[trigger] deal_ok(state, proposer, partner, shapes[k].0.id) by {
        let id = shapes[k].0.id;
        if id == "cc"@ + decimal(swap) && swap > 0 {
        } else if id == "cc1"@ {
            assert(deal_ok(state, proposer, partner, "cc"@ + decimal(1)));
        } else if mine_commodities > 0 && their_goods > 0 && want > 0 && id == "ct"@ + decimal(give) + ":"@ + decimal(want) {
            let rest = decimal(give) + ":"@ + decimal(want);
            assert(id =~= "ct"@ + rest);
            assert(id[0] == 'c' && id[1] == 't');
            assert(id != "ss"@);
            lemma_not_prefix(id, "ac"@, 0);
            lemma_not_prefix(id, "pn"@, 0);
            lemma_not_prefix(id, "so"@, 0);
            lemma_not_prefix(id, "fr"@, 0);
            lemma_not_prefix(id, "cc"@, 1);
            lemma_after_prefix("ct"@, rest);
            lemma_pair_back(give, want);
        } else {
            let rest = decimal(give2) + ":"@ + decimal(want2);
            assert(id =~= "tc"@ + rest);
            assert(id[0] == 't');
            assert(id != "ss"@);
            lemma_not_prefix(id, "ac"@, 0);
            lemma_not_prefix(id, "pn"@, 0);
            lemma_not_prefix(id, "so"@, 0);
            lemma_not_prefix(id, "fr"@, 0);
            lemma_not_prefix(id, "cc"@, 0);
            lemma_not_prefix(id, "ct"@, 0);
            lemma_after_prefix("tc"@, rest);
            lemma_pair_back(give2, want2);
        }
    }
}

/// Every deal a proposer is offered reads back, through its id, as a deal, and one in which at
/// least one side hands something over: an option that is listed but does not survive parsing
/// would look available and fail when taken, and one that moves nothing is no deal. Card,
/// secret and fragment names are read up to a colon, so the law holds of hands whose names
/// carry none, as the corpus's never do.
pub proof fn offered_deals_parse_back(state: GameState, proposer: Seq<char>, partner: Seq<char>)
    requires
        seat_of(state.players@, proposer) >= 0 ==> {
            let seat = state.players@[seat_of(state.players@, proposer)];
            &&& colon_free(seat.action_cards@)
            &&& colon_free(seat.secret_objectives@)
            &&& colon_free(seat.relic_fragments@)
        },
    ensures
        all_parse(state, proposer, partner, spec_offer_shapes(state, proposer, partner)),
{
    lemma_reveal_prefixes();
    lemma_small_decimals();
    lemma_seat_of(state.players@, proposer);
    lemma_seat_of(state.players@, partner);
    let mine = holdings(state, proposer);
    let theirs = holdings(state, partner);
    let i = seat_of(state.players@, proposer);
    let notes = if i >= 0 { sellable_notes(names(state.players@[i].notes@)) } else { seq![] };
    let ss = if support_available(state, proposer) && support_available(state, partner) {
        seq![shape("ss"@, "exchange Support for the Throne notes"@, seq![])]
    } else {
        seq![]
    };
    let gift = if mine.1 > 0 {
        seq![shape("c"@ + decimal(mine.1) + ":0"@, "gift "@ + decimal(mine.1) + " commodities"@, seq![])]
    } else {
        seq![]
    };
    assert(all_parse(state, proposer, partner, ss));
    if i >= 0 {
        lemma_sellable_members(names(state.players@[i].notes@));
    }
    lemma_notes_parse(state, proposer, partner, notes, theirs.0);
    let cards = card_shapes(state, proposer, partner);
    assert(all_parse(state, proposer, partner, cards)) by {
        if cards.len() > 0 {
            let hand = names(state.players@[i].action_cards@);
            lemma_least_member(hand);
            let c = least(hand);
            let w = choose|w: int| 0 <= w < hand.len() && hand[w] == c;
            assert(lacks(state.players@[i].action_cards@[w]@, ':'));
            lemma_name_priced(state, proposer, partner, "ac"@, c);
            assert(cards[0].0.id == "ac"@ + c + ":1"@);
        }
    }
    let market = black_market_shapes(state, proposer, theirs.0);
    assert(all_parse(state, proposer, partner, market)) by {
        if state.black_market && i >= 0 && theirs.0 >= 1 {
            let secrets = names(state.players@[i].secret_objectives@);
            let fragments = names(state.players@[i].relic_fragments@);
            assert forall|k: int| 0 <= k < secrets.len() implies lacks(#[trigger] secrets[k], ':') by {
                assert(lacks(state.players@[i].secret_objectives@[k]@, ':'));
            }
            assert forall|k: int| 0 <= k < fragments.len() implies lacks(#[trigger] fragments[k], ':') by {
                assert(lacks(state.players@[i].relic_fragments@[k]@, ':'));
            }
            lemma_secrets_parse(state, proposer, partner, secrets);
            lemma_fragments_parse(state, proposer, partner, fragments, fragments.len() as int);
            lemma_all_parse_concat(state, proposer, partner, secret_shapes(secrets), fragment_shapes(fragments, fragments.len() as int));
        }
    }
    lemma_commodities_parse(state, proposer, partner, mine, theirs);
    lemma_grid_parse(state, proposer, partner, min(mine.0, 3), min(theirs.0, 3));
    assert(all_parse(state, proposer, partner, gift)) by {
        if mine.1 > 0 {
            let rest = decimal(mine.1) + ":"@ + decimal(0);
            let id = "c"@ + decimal(mine.1) + ":0"@;
            assert(id =~= "c"@ + rest);
            lemma_decimal_shape(mine.1);
            assert(id[0] == 'c');
            assert(id[1] == decimal(mine.1)[0]);
            assert('s' as int == 115 && 'a' as int == 97 && 'p' as int == 112 && 'f' as int == 102 && 'c' as int == 99 && 't' as int == 116);
            assert(id != "ss"@);
            lemma_not_prefix(id, "ac"@, 0);
            lemma_not_prefix(id, "pn"@, 0);
            lemma_not_prefix(id, "so"@, 0);
            lemma_not_prefix(id, "fr"@, 0);
            lemma_not_prefix(id, "cc"@, 1);
            lemma_not_prefix(id, "ct"@, 1);
            lemma_not_prefix(id, "tc"@, 0);
            lemma_after_prefix("c"@, rest);
            lemma_pair_back(mine.1, 0);
            assert(gift[0].0.id == id);
        }
    }
    lemma_all_parse_concat(state, proposer, partner, ss, note_shapes(notes, theirs.0));
    lemma_all_parse_concat(state, proposer, partner, ss + note_shapes(notes, theirs.0), cards);
    lemma_all_parse_concat(state, proposer, partner, ss + note_shapes(notes, theirs.0) + cards, market);
    lemma_all_parse_concat(state, proposer, partner, ss + note_shapes(notes, theirs.0) + cards + market, commodity_shapes(mine, theirs));
    lemma_all_parse_concat(state, proposer, partner, ss + note_shapes(notes, theirs.0) + cards + market + commodity_shapes(mine, theirs), grid(min(mine.0, 3), min(theirs.0, 3)));
    lemma_all_parse_concat(state, proposer, partner, ss + note_shapes(notes, theirs.0) + cards + market + commodity_shapes(mine, theirs) + grid(min(mine.0, 3), min(theirs.0, 3)), gift);
}

/// Whether no two shapes of a list share an id.
pub open spec fn ids_distinct(shapes: Seq<(OptionView, Seq<(Seq<char>, ValueView)>)>) -> bool {
    forall|i: int, j: int| 0 <= i < j < shapes.len() ==> (#[trigger] shapes[i]).0.id != (#[trigger] shapes[j]).0.id
}

/// Whether no name occurs twice in a list.
pub open spec fn names_distinct(list: Seq<Seq<char>>) -> bool {
    forall|i: int, j: int| 0 <= i < j < list.len() ==> list[i] != list[j]
}

/// The family an offer's id belongs to, read off its first two characters: the Support swap,
/// notes, the action card, secrets, fragments, commodity trades, the goods grid, the gift.
pub open spec fn offer_family(id: Seq<char>) -> int {
    if id.len() < 2 {
        -1
    } else if id[0] == 's' && id[1] == 's' {
        0
    } else if id[0] == 'p' && id[1] == 'n' {
        1
    } else if id[0] == 'a' && id[1] == 'c' {
        2
    } else if id[0] == 's' && id[1] == 'o' {
        3
    } else if id[0] == 'f' && id[1] == 'r' {
        4
    } else if is_digit(id[0]) {
        6
    } else if id[0] == 'c' && is_digit(id[1]) {
        7
    } else {
        5
    }
}

/// Whether every id of a list is of a family in `lo..hi`.
pub open spec fn families_within(shapes: Seq<(OptionView, Seq<(Seq<char>, ValueView)>)>, lo: int, hi: int) -> bool {
    forall|i: int| #![trigger shapes[i]] 0 <= i < shapes.len() ==> lo <= offer_family(shapes[i].0.id) && offer_family(shapes[i].0.id) < hi
}

proof fn lemma_join_families(
    a: Seq<(OptionView, Seq<(Seq<char>, ValueView)>)>,
    b: Seq<(OptionView, Seq<(Seq<char>, ValueView)>)>,
    lo: int,
    mid: int,
    hi: int,
)
    requires
        lo <= mid <= hi,
        ids_distinct(a),
        ids_distinct(b),
        families_within(a, lo, mid),
        families_within(b, mid, hi),
    ensures
        ids_distinct(a + b),
        families_within(a + b, lo, hi),
{
    let c = a + b;
    assert forall|i: int, j: int| 0 <= i < j < c.len() implies (#[trigger] c[i]).0.id != (#[trigger] c[j]).0.id by {
        if j < a.len() {
            assert(c[i] == a[i] && c[j] == a[j]);
        } else if i >= a.len() {
            assert(c[i] == b[i - a.len()] && c[j] == b[j - a.len()]);
        } else {
            assert(c[i] == a[i] && c[j] == b[j - a.len()]);
            assert(offer_family(a[i].0.id) < mid <= offer_family(b[j - a.len()].0.id));
        }
    }
    assert forall|i: int| #![trigger c[i]] 0 <= i < c.len() implies lo <= offer_family(c[i].0.id) && offer_family(c[i].0.id) < hi by {
        if i < a.len() {
            assert(c[i] == a[i]);
            assert(lo <= offer_family(a[i].0.id) < mid);
        } else {
            assert(c[i] == b[i - a.len()]);
            assert(mid <= offer_family(b[i - a.len()].0.id) < hi);
        }
    }
}

proof fn lemma_push_distinct(
    a: Seq<(OptionView, Seq<(Seq<char>, ValueView)>)>,
    x: (OptionView, Seq<(Seq<char>, ValueView)>),
)
    requires
        ids_distinct(a),
        forall|i: int| 0 <= i < a.len() ==> (#[trigger] a[i]).0.id != x.0.id,
    ensures
        ids_distinct(a.push(x)),
{
    let c = a.push(x);
    assert forall|i: int, j: int| 0 <= i < j < c.len() implies (#[trigger] c[i]).0.id != (#[trigger] c[j]).0.id by {
        assert(c[i] == a[i]);
        if j < a.len() {
            assert(c[j] == a[j]);
        }
    }
}

proof fn lemma_single_digit(d: int)
    requires
        0 <= d <= 9,
    ensures
        decimal(d) == seq![digit_char(d)],
        is_digit(digit_char(d)),
{
    assert(decimal(d) == decimal_nat(d as nat));
}

/// The name an id `{head}{name}:{digit}` carries between its two-character head and its
/// two-character tail.
pub open spec fn inner_name(id: Seq<char>) -> Seq<char> {
    id.subrange(2, id.len() - 2)
}

/// The note offers name each note once, and each is in the notes' family.
proof fn lemma_notes_distinct(notes: Seq<Seq<char>>, their_goods: int)
    requires
        names_distinct(notes),
    ensures
        ids_distinct(note_shapes(notes, their_goods)),
        families_within(note_shapes(notes, their_goods), 1, 2),
        forall|i: int| 0 <= i < note_shapes(notes, their_goods).len() ==> (#[trigger] note_shapes(notes, their_goods)[i]).0.id.len() >= 4
            && notes.contains(inner_name(note_shapes(notes, their_goods)[i].0.id)),
    decreases notes.len(),
{
    lemma_reveal_prefixes();
    if notes.len() > 0 {
        let rest = notes.drop_last();
        assert(names_distinct(rest)) by {
            assert forall|i: int, j: int| 0 <= i < j < rest.len() implies rest[i] != rest[j] by {
                assert(rest[i] == notes[i] && rest[j] == notes[j]);
            }
        }
        lemma_notes_distinct(rest, their_goods);
        let earlier = note_shapes(rest, their_goods);
        let note = notes.last();
        assert(!rest.contains(note)) by {
            if rest.contains(note) {
                let k = choose|k: int| 0 <= k < rest.len() && rest[k] == note;
                assert(notes[k] == note && notes[notes.len() - 1] == note);
            }
        }
        let price = spec_note_price(note);
        assert(2 <= price <= 4);
        lemma_single_digit(price);
        lemma_single_digit(0);
        let facts = seq![("note"@, ValueView::Text(note)), ("alias"@, ValueView::Text(spec_alias(note)))];
        let p = if price > 0 && their_goods < price { 0int } else { price };
        let id = "pn"@ + note + ":"@ + decimal(p);
        assert(id.len() == note.len() + 4);
        assert(inner_name(id) =~= note);
        assert(id[0] == 'p' && id[1] == 'n');
        let all = note_shapes(notes, their_goods);
        assert forall|i: int| 0 <= i < earlier.len() implies (#[trigger] earlier[i]).0.id != id by {
            if earlier[i].0.id == id {
                assert(rest.contains(inner_name(earlier[i].0.id)));
            }
        }
        let x = if price > 0 && their_goods < price {
            shape("pn"@ + note + ":0"@, "give "@ + note, facts.push(("gift"@, ValueView::Bool(true))))
        } else {
            shape("pn"@ + note + ":"@ + decimal(price), "sell "@ + note + " for "@ + decimal(price) + " trade goods"@, facts)
        };
        assert(x.0.id =~= id);
        assert(all == earlier.push(x));
        lemma_push_distinct(earlier, x);
        assert forall|i: int| 0 <= i < all.len() implies (#[trigger] all[i]).0.id.len() >= 4 && notes.contains(inner_name(all[i].0.id))
            && 1 <= offer_family(all[i].0.id) < 2 by {
            if i < earlier.len() {
                assert(all[i] == earlier[i]);
                assert(1 <= offer_family(earlier[i].0.id) < 2);
                let k = choose|k: int| 0 <= k < rest.len() && rest[k] == inner_name(earlier[i].0.id);
                assert(notes[k] == rest[k]);
            } else {
                assert(notes[notes.len() - 1] == note);
            }
        }
    }
}

proof fn lemma_secrets_distinct(secrets: Seq<Seq<char>>)
    requires
        names_distinct(secrets),
    ensures
        ids_distinct(secret_shapes(secrets)),
        families_within(secret_shapes(secrets), 3, 4),
        forall|i: int| 0 <= i < secret_shapes(secrets).len() ==> (#[trigger] secret_shapes(secrets)[i]).0.id.len() >= 4
            && secrets.contains(inner_name(secret_shapes(secrets)[i].0.id)),
    decreases secrets.len(),
{
    lemma_reveal_prefixes();
    if secrets.len() > 0 {
        let rest = secrets.drop_last();
        assert(names_distinct(rest)) by {
            assert forall|i: int, j: int| 0 <= i < j < rest.len() implies rest[i] != rest[j] by {
                assert(rest[i] == secrets[i] && rest[j] == secrets[j]);
            }
        }
        lemma_secrets_distinct(rest);
        let earlier = secret_shapes(rest);
        let x = secrets.last();
        assert(!rest.contains(x)) by {
            if rest.contains(x) {
                let k = choose|k: int| 0 <= k < rest.len() && rest[k] == x;
                assert(secrets[k] == x && secrets[secrets.len() - 1] == x);
            }
        }
        let id = "so"@ + x + ":1"@;
        assert(id.len() == x.len() + 4);
        assert(inner_name(id) =~= x);
        assert(id[0] == 's' && id[1] == 'o');
        let all = secret_shapes(secrets);
        assert forall|i: int| 0 <= i < earlier.len() implies (#[trigger] earlier[i]).0.id != id by {
            if earlier[i].0.id == id {
                assert(rest.contains(inner_name(earlier[i].0.id)));
            }
        }
        let sh = shape(id, "sell the secret objective "@ + x + " for 1 trade good"@, seq![("secret"@, ValueView::Text(x))]);
        assert(all == earlier.push(sh));
        lemma_push_distinct(earlier, sh);
        assert forall|i: int| 0 <= i < all.len() implies (#[trigger] all[i]).0.id.len() >= 4 && secrets.contains(inner_name(all[i].0.id))
            && 3 <= offer_family(all[i].0.id) < 4 by {
            if i < earlier.len() {
                assert(all[i] == earlier[i]);
                assert(3 <= offer_family(earlier[i].0.id) < 4);
                let k = choose|k: int| 0 <= k < rest.len() && rest[k] == inner_name(earlier[i].0.id);
                assert(secrets[k] == rest[k]);
            } else {
                assert(secrets[secrets.len() - 1] == x);
            }
        }
    }
}

proof fn lemma_fragments_distinct(fragments: Seq<Seq<char>>, k: int)
    requires
        0 <= k <= fragments.len(),
    ensures
        ids_distinct(fragment_shapes(fragments, k)),
        families_within(fragment_shapes(fragments, k), 4, 5),
        forall|i: int| 0 <= i < fragment_shapes(fragments, k).len() ==> (#[trigger] fragment_shapes(fragments, k)[i]).0.id.len() >= 4
            && fragments.subrange(0, k).contains(inner_name(fragment_shapes(fragments, k)[i].0.id)),
    decreases k,
{
    lemma_reveal_prefixes();
    if k > 0 {
        lemma_fragments_distinct(fragments, k - 1);
        let earlier = fragment_shapes(fragments, k - 1);
        let x = fragments[k - 1];
        let all = fragment_shapes(fragments, k);
        if !fragments.subrange(0, k - 1).contains(x) {
            let id = "fr"@ + x + ":1"@;
            assert(id.len() == x.len() + 4);
            assert(inner_name(id) =~= x);
            assert(id[0] == 'f' && id[1] == 'r');
            assert forall|i: int| 0 <= i < earlier.len() implies (#[trigger] earlier[i]).0.id != id by {
                if earlier[i].0.id == id {
                    assert(fragments.subrange(0, k - 1).contains(inner_name(earlier[i].0.id)));
                }
            }
            let sh = shape(id, "sell a "@ + x + " relic fragment for 1 trade good"@, seq![("fragment"@, ValueView::Text(x))]);
            assert(all == earlier.push(sh));
            lemma_push_distinct(earlier, sh);
        }
        assert forall|i: int| 0 <= i < all.len() implies (#[trigger] all[i]).0.id.len() >= 4 && fragments.subrange(0, k).contains(
            inner_name(all[i].0.id),
        ) && 4 <= offer_family(all[i].0.id) < 5 by {
            if i < earlier.len() {
                assert(all[i] == earlier[i]);
                assert(4 <= offer_family(earlier[i].0.id) < 5);
                let j = choose|j: int| 0 <= j < k - 1 && (#[trigger] fragments.subrange(0, k - 1)[j]) == inner_name(earlier[i].0.id);
                assert(fragments.subrange(0, k)[j] == fragments.subrange(0, k - 1)[j]);
            } else {
                assert(fragments.subrange(0, k)[k - 1] == x);
                assert(inner_name(all[i].0.id) =~= x);
            }
        }
    }
}

proof fn lemma_digit_value(d: int)
    requires
        0 <= d <= 9,
    ensures
        digit_value(digit_char(d)) == d,
        is_digit(digit_char(d)),
{
}

proof fn lemma_grid_row_distinct(give: int, top: int)
    requires
        0 <= give <= 3,
        top <= 3,
    ensures
        ids_distinct(grid_row(give, top)),
        forall|i: int| #![trigger grid_row(give, top)[i]] 0 <= i < grid_row(give, top).len() ==> {
            let id = grid_row(give, top)[i].0.id;
            &&& id.len() == 3
            &&& id[0] == digit_char(give)
            &&& 0 <= digit_value(id[2]) <= top
        },
    decreases top + 1,
{
    if top >= 0 {
        lemma_grid_row_distinct(give, top - 1);
        let earlier = grid_row(give, top - 1);
        if !(give == 0 && top == 0) {
            lemma_single_digit(give);
            lemma_single_digit(top);
            lemma_digit_value(give);
            lemma_digit_value(top);
            lemma_reveal_prefixes();
            let id = decimal(give) + ":"@ + decimal(top);
            assert(id =~= seq![digit_char(give), ':', digit_char(top)]);
            let sh = shape(id, "give "@ + decimal(give) + " for "@ + decimal(top), seq![]);
            assert forall|i: int| 0 <= i < earlier.len() implies (#[trigger] earlier[i]).0.id != id by {
                assert(digit_value(earlier[i].0.id[2]) <= top - 1);
            }
            lemma_push_distinct(earlier, sh);
            let all = grid_row(give, top);
            assert(all == earlier.push(sh));
            assert forall|i: int| #![trigger all[i]] 0 <= i < all.len() implies {
                let x = all[i].0.id;
                &&& x.len() == 3
                &&& x[0] == digit_char(give)
                &&& 0 <= digit_value(x[2]) <= top
            } by {
                if i < earlier.len() {
                    assert(all[i] == earlier[i]);
                }
            }
        }
    }
}

proof fn lemma_grid_distinct(gives: int, wants: int)
    requires
        gives <= 3,
        wants <= 3,
    ensures
        ids_distinct(grid(gives, wants)),
        forall|i: int| #![trigger grid(gives, wants)[i]] 0 <= i < grid(gives, wants).len() ==> {
            let id = grid(gives, wants)[i].0.id;
            &&& id.len() == 3
            &&& 0 <= digit_value(id[0]) <= gives
            &&& offer_family(id) == 6
        },
    decreases gives + 1,
{
    if gives >= 0 {
        lemma_grid_distinct(gives - 1, wants);
        lemma_grid_row_distinct(gives, wants);
        lemma_digit_value(gives);
        let a = grid(gives - 1, wants);
        let b = grid_row(gives, wants);
        let c = a + b;
        assert(c == grid(gives, wants));
        assert forall|i: int, j: int| 0 <= i < j < c.len() implies (#[trigger] c[i]).0.id != (#[trigger] c[j]).0.id by {
            if j < a.len() {
                assert(c[i] == a[i] && c[j] == a[j]);
            } else if i >= a.len() {
                assert(c[i] == b[i - a.len()] && c[j] == b[j - a.len()]);
            } else {
                assert(c[i] == a[i] && c[j] == b[j - a.len()]);
                assert(digit_value(a[i].0.id[0]) <= gives - 1);
                assert(b[j - a.len()].0.id[0] == digit_char(gives));
            }
        }
        assert forall|i: int| #![trigger c[i]] 0 <= i < c.len() implies {
            let id = c[i].0.id;
            &&& id.len() == 3
            &&& 0 <= digit_value(id[0]) <= gives
            &&& offer_family(id) == 6
        } by {
            if i < a.len() {
                assert(c[i] == a[i]);
            } else {
                assert(c[i] == b[i - a.len()]);
                let id = b[i - a.len()].0.id;
                assert(id[0] == digit_char(gives));
                assert('s' as int == 115 && 'p' as int == 112 && 'a' as int == 97 && 'f' as int == 102);
            }
        }
    }
}

proof fn lemma_commodities_distinct(mine: (int, int), theirs: (int, int))
    requires
        i32::MIN <= mine.0 <= i32::MAX,
        i32::MIN <= mine.1 <= i32::MAX,
        i32::MIN <= theirs.0 <= i32::MAX,
        i32::MIN <= theirs.1 <= i32::MAX,
    ensures
        ids_distinct(commodity_shapes(mine, theirs)),
        families_within(commodity_shapes(mine, theirs), 5, 6),
{
    lemma_reveal_prefixes();
    lemma_small_decimals();
    let shapes = commodity_shapes(mine, theirs);
    let (mine_goods, mine_commodities) = mine;
    let (their_goods, their_commodities) = theirs;
    let swap = min(mine_commodities, their_commodities);
    assert('s' as int == 115 && 'p' as int == 112 && 'a' as int == 97 && 'f' as int == 102 && 'c' as int == 99 && 't' as int == 116);
    assert forall|i: int| #![trigger shapes[i]] 0 <= i < shapes.len() implies {
        let id = shapes[i].0.id;
        &&& id.len() >= 2
        &&& (id[0] == 'c' && id[1] == 'c') || (id[0] == 'c' && id[1] == 't') || (id[0] == 't' && id[1] == 'c')
        &&& (id[0] == 'c' && id[1] == 'c') ==> (id == "cc"@ + decimal(swap) || (swap > 1 && id == "cc1"@))
    } by {
    }
    assert forall|i: int, j: int| 0 <= i < j < shapes.len() implies (#[trigger] shapes[i]).0.id != (#[trigger] shapes[j]).0.id by {
        let x = shapes[i].0.id;
        let y = shapes[j].0.id;
        if x == y && x[0] == 'c' && x[1] == 'c' {
            if swap > 1 && (x == "cc1"@ || y == "cc1"@) && x == "cc"@ + decimal(swap) {
                lemma_parse_decimal(swap);
                lemma_parse_decimal(1);
                assert(decimal(swap) =~= x.subrange(2, x.len() as int));
                assert(decimal(1) =~= "cc1"@.subrange(2, 3));
            }
        }
    }
    assert forall|i: int| #![trigger shapes[i]] 0 <= i < shapes.len() implies 5 <= offer_family(shapes[i].0.id) && offer_family(shapes[i].0.id) < 6 by {
    }
}

proof fn lemma_sellable_distinct(notes: Seq<Seq<char>>)
    requires
        names_distinct(notes),
    ensures
        names_distinct(sellable_notes(notes)),
        forall|i: int| 0 <= i < sellable_notes(notes).len() ==> notes.contains(#[trigger] sellable_notes(notes)[i]),
    decreases notes.len(),
{
    if notes.len() > 0 {
        let rest = notes.drop_last();
        assert(names_distinct(rest)) by {
            assert forall|i: int, j: int| 0 <= i < j < rest.len() implies rest[i] != rest[j] by {
                assert(rest[i] == notes[i] && rest[j] == notes[j]);
            }
        }
        lemma_sellable_distinct(rest);
        let earlier = sellable_notes(rest);
        let all = sellable_notes(notes);
        let x = notes.last();
        assert forall|i: int| 0 <= i < earlier.len() implies notes.contains(#[trigger] earlier[i]) && earlier[i] != x by {
            let k = choose|k: int| 0 <= k < rest.len() && rest[k] == earlier[i];
            assert(notes[k] == rest[k]);
            assert(notes[notes.len() - 1] == x);
        }
        if !is_support(x) {
            assert(all == earlier.push(x));
            assert forall|i: int, j: int| 0 <= i < j < all.len() implies all[i] != all[j] by {
                assert(all[i] == earlier[i]);
                if j < earlier.len() {
                    assert(all[j] == earlier[j]);
                }
            }
            assert forall|i: int| 0 <= i < all.len() implies notes.contains(#[trigger] all[i]) by {
                if i < earlier.len() {
                    assert(all[i] == earlier[i]);
                } else {
                    assert(notes[notes.len() - 1] == x);
                }
            }
        }
    }
}

proof fn lemma_lone_shape(shapes: Seq<(OptionView, Seq<(Seq<char>, ValueView)>)>, family: int)
    requires
        shapes.len() <= 1,
        shapes.len() == 1 ==> offer_family(shapes[0].0.id) == family,
    ensures
        ids_distinct(shapes),
        families_within(shapes, family, family + 1),
{
}

/// No deal is offered twice: the ids of the deals a proposer is offered are all different,
/// when the proposer holds no promissory note twice and no secret objective twice (a hand
/// holding a note twice would be offered it twice).
pub proof fn no_offer_repeats(state: GameState, proposer: Seq<char>, partner: Seq<char>)
    requires
        seat_of(state.players@, proposer) >= 0 ==> {
            let seat = state.players@[seat_of(state.players@, proposer)];
            &&& names_distinct(names(seat.notes@))
            &&& names_distinct(names(seat.secret_objectives@))
        },
    ensures
        ids_distinct(spec_offer_shapes(state, proposer, partner)),
{
    lemma_reveal_prefixes();
    lemma_small_decimals();
    lemma_seat_of(state.players@, proposer);
    lemma_seat_of(state.players@, partner);
    assert('s' as int == 115 && 'p' as int == 112 && 'a' as int == 97 && 'f' as int == 102 && 'c' as int == 99 && 't' as int == 116);
    let mine = holdings(state, proposer);
    let theirs = holdings(state, partner);
    let i = seat_of(state.players@, proposer);
    let notes = if i >= 0 { sellable_notes(names(state.players@[i].notes@)) } else { seq![] };
    let ss = if support_available(state, proposer) && support_available(state, partner) {
        seq![shape("ss"@, "exchange Support for the Throne notes"@, seq![])]
    } else {
        seq![]
    };
    let gift = if mine.1 > 0 {
        seq![shape("c"@ + decimal(mine.1) + ":0"@, "gift "@ + decimal(mine.1) + " commodities"@, seq![])]
    } else {
        seq![]
    };
    lemma_lone_shape(ss, 0);
    if i >= 0 {
        lemma_sellable_distinct(names(state.players@[i].notes@));
    }
    lemma_notes_distinct(notes, theirs.0);
    let ns = note_shapes(notes, theirs.0);
    lemma_join_families(ss, ns, 0, 1, 2);
    let cards = card_shapes(state, proposer, partner);
    lemma_lone_shape(cards, 2);
    lemma_join_families(ss + ns, cards, 0, 2, 3);
    let bm = black_market_shapes(state, proposer, theirs.0);
    assert(ids_distinct(bm) && families_within(bm, 3, 5)) by {
        if state.black_market && i >= 0 && theirs.0 >= 1 {
            let fragments = names(state.players@[i].relic_fragments@);
            lemma_secrets_distinct(names(state.players@[i].secret_objectives@));
            lemma_fragments_distinct(fragments, fragments.len() as int);
            lemma_join_families(
                secret_shapes(names(state.players@[i].secret_objectives@)),
                fragment_shapes(fragments, fragments.len() as int),
                3,
                4,
                5,
            );
        }
    }
    lemma_join_families(ss + ns + cards, bm, 0, 3, 5);
    let cs = commodity_shapes(mine, theirs);
    lemma_commodities_distinct(mine, theirs);
    lemma_join_families(ss + ns + cards + bm, cs, 0, 5, 6);
    let gs = grid(min(mine.0, 3), min(theirs.0, 3));
    lemma_grid_distinct(min(mine.0, 3), min(theirs.0, 3));
    assert(families_within(gs, 6, 7));
    lemma_join_families(ss + ns + cards + bm + cs, gs, 0, 6, 7);
    assert(ids_distinct(gift) && families_within(gift, 7, 8)) by {
        if mine.1 > 0 {
            lemma_decimal_shape(mine.1);
            let id = "c"@ + decimal(mine.1) + ":0"@;
            assert(id[0] == 'c' && id[1] == decimal(mine.1)[0]);
            lemma_lone_shape(gift, 7);
        }
    }
    lemma_join_families(ss + ns + cards + bm + cs + gs, gift, 0, 7, 8);
    assert(spec_offer_shapes(state, proposer, partner) == ss + ns + cards + bm + cs + gs + gift);
}

/// Every deal a proposer is offered can be paid for: read back from its id, it passes every
/// check a resolution makes, so no option is one the partner is asked to accept and the engine
/// then refuses. This holds at a table of two different, seated neighbours who hold no
/// negative goods or commodities, and (as for reading back) whose card, secret and fragment
/// names carry no colon.
pub proof fn every_offered_deal_can_be_paid_for(state: GameState, galaxy: Galaxy, offer: Offer, k: int)
    requires
        payable_context(state, offer.proposer@, offer.partner@),
        spec_are_neighbours(state, galaxy, offer.proposer@, offer.partner@),
        ({
            let seat = seat_for(state, offer.proposer@);
            &&& colon_free(seat.action_cards@)
            &&& colon_free(seat.secret_objectives@)
            &&& colon_free(seat.relic_fragments@)
        }),
        0 <= k < spec_offer_shapes(state, offer.proposer@, offer.partner@).len(),
        offer_legs(Some(offer)) == spec_offer_from(
            state,
            spec_offer_shapes(state, offer.proposer@, offer.partner@)[k].0.id,
            offer.proposer@,
            offer.partner@,
        ),
    ensures
        spec_why_illegal(state, galaxy, offer) is None,
{
    let p = offer.proposer@;
    let q = offer.partner@;
    let shapes = spec_offer_shapes(state, p, q);
    offered_deals_parse_back(state, p, q);
    assert(deal_ok(state, p, q, shapes[k].0.id));
    lemma_seat_of(state.players@, p);
    lemma_seat_of(state.players@, q);
    let g = offer.given;
    let r = offer.received;
    assert(moves_something((g@, r@)));
    assert(!(g.spec_is_empty() && r.spec_is_empty())) by {
        if g.spec_is_empty() && r.spec_is_empty() {
            assert(is_nothing(g@) && is_nothing(r@));
        }
    }
    assert(can_pay_view(state, p, g@) && can_pay_view(state, q, r@));
    assert(spec_can_pay(state, p, g));
    assert(spec_can_pay(state, q, r));
    assert(holds_card(state, p, g));
    assert(holds_card(state, q, r));
}

} // verus!
