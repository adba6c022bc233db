//! The parts of a game's state that the rules in this crate read and change: the seats at the
//! table, with their command sheets and holdings, and the board.

use vstd::prelude::*;
use crate::text::str_eq;

verus! {

/// LRR 20.4: every faction owns sixteen command tokens, on its sheet or on the board.
pub const TOKENS_PER_FACTION: i64 = 16;

/// The three pools of a command sheet.
#[derive(Debug, Clone, Copy, PartialEq, Eq, Structural)]
pub enum TokenPool {
    Tactic,
    Fleet,
    Strategic,
}

/// The phases of a game round.
#[derive(Debug, Clone, Copy, PartialEq, Eq, Structural)]
pub enum Phase {
    Strategy,
    Action,
    Status,
    Agenda,
}

/// A plastic unit on the board: its type, its owner, and its damage.
#[derive(Debug, PartialEq, Eq)]
pub struct Unit {
    pub type_id: String,
    pub owner: String,
    pub sustained_damage: bool,
    pub galvanized: bool,
}

impl Clone for Unit {
    fn clone(&self) -> (copy: Self)
        ensures
            copy.type_id@ == self.type_id@,
            copy.owner@ == self.owner@,
            copy.sustained_damage == self.sustained_damage,
            copy.galvanized == self.galvanized,
    {
        Unit {
            type_id: self.type_id.clone(),
            owner: self.owner.clone(),
            sustained_damage: self.sustained_damage,
            galvanized: self.galvanized,
        }
    }
}

/// One player's seat: their faction, command sheet and holdings.
#[derive(Debug, Clone, PartialEq, Eq)]
pub struct Seat {
    pub id: String,
    pub faction: String,
    pub tactic_tokens: i32,
    pub fleet_tokens: i32,
    pub strategic_tokens: i32,
    pub trade_goods: i32,
    pub commodities: i32,
    pub victory_points: i32,
    /// Relic fragments held, one entry per fragment, by trait.
    pub relic_fragments: Vec<String>,
    pub action_cards: Vec<String>,
    /// Secret objectives in hand, unscored.
    pub secret_objectives: Vec<String>,
    /// Promissory notes this seat holds and may hand over, by note id (`alias:faction`).
    pub notes: Vec<String>,
    /// The faction's abilities, as the corpus names them.
    pub abilities: Vec<String>,
    pub technologies: Vec<String>,
    /// Units this seat has captured, as (owner, unit type).
    pub captured_units: Vec<(String, String)>,
    /// The breakthrough this seat has gained, by alias.
    pub breakthrough: Option<String>,
    /// Strategy cards this seat holds this round, in the order they were taken.
    pub strategy_cards: Vec<String>,
    /// Held strategy cards whose strategic action has been taken.
    pub exhausted_strategy_cards: Vec<String>,
    /// The activation in which this seat last used Gravity Drive, if any.
    pub gravity_drive_used_activation: Option<u64>,
    /// Technologies this seat has exhausted, by alias.
    pub exhausted_technologies: Vec<String>,
    /// Whether this seat has passed this round.
    pub passed: bool,
    /// Whether Political Stability lets this seat keep its strategy cards.
    pub stability: bool,
    /// Relics this seat has exhausted for their abilities.
    pub exhausted_relics: Vec<String>,
    /// The seat's home system, once its faction is deployed.
    pub home_system: Option<String>,
    /// The planets of the seat's home system.
    pub home_planets: Vec<String>,
    /// The seat's leaders and where each stands, by alias.
    pub leaders: Vec<(String, LeaderStatus)>,
}

/// Where a leader stands.
#[derive(Debug, Clone, Copy, PartialEq, Eq, Structural)]
pub enum LeaderStatus {
    /// Not yet unlocked.
    Locked,
    /// Ready to use.
    Readied,
    /// Used, until readied again.
    Exhausted,
    /// Gone for the rest of the game.
    Purged,
}

/// One system on the board: ships in its space area, units on each planet, who controls each
/// planet, and whose command tokens sit in it.
#[derive(Debug, Clone, PartialEq, Eq)]
pub struct SystemState {
    pub id: String,
    pub units: Vec<Unit>,
    pub planet_units: Vec<(String, Vec<Unit>)>,
    pub planet_control: Vec<(String, String)>,
    pub command_tokens: Vec<String>,
}

/// The table and the board.
#[derive(Debug, Clone, PartialEq, Eq)]
pub struct GameState {
    pub players: Vec<Seat>,
    pub board: Vec<SystemState>,
    /// Seats clockwise from the first.
    pub seating_order: Vec<String>,
    /// Transactions resolved this round, as (proposer, partner).
    pub transactions_this_round: Vec<(String, String)>,
    /// Pairs that have opened a transaction this turn (LRR 94.1).
    pub transacted_this_turn: Vec<(String, String)>,
    /// Black Market Dealings is marking the current negotiation.
    pub black_market: bool,
    /// The system activated this turn, if any.
    pub active_system: Option<String>,
    /// The step a tactical action has reached, if one is under way.
    pub pending: Option<String>,
    /// How many activations the game has seen, so anything scoped to one can tell them apart.
    pub activation_seq: u64,
    /// Planets exhausted this round, by id.
    pub exhausted_planets: Vec<String>,
    /// The phase of the round.
    pub phase: Phase,
    /// Whether the game is over.
    pub finished: bool,
    /// The public objectives still to reveal, top first.
    pub objective_deck: Vec<String>,
    /// The public objectives revealed so far, in order.
    pub revealed_objectives: Vec<String>,
    /// The action card deck, top first.
    pub action_card_deck: Vec<String>,
    /// The speaker.
    pub speaker: String,
    /// The agenda deck, top first.
    pub agenda_deck: Vec<String>,
    /// The Thunder's Edge expedition slices claimed so far, as (slice, player), in claim order.
    pub expedition_slices: Vec<(String, String)>,
    /// Planets placed on the board during play, as (planet, system).
    pub placed_planets: Vec<(String, String)>,
    /// The system Thunder's Edge was placed in, once the expedition completes.
    pub thunders_edge_system: Option<String>,
}

/// The names in a list, as sequences of characters.
pub open spec fn names(list: Seq<String>) -> Seq<Seq<char>> {
    list.map_values(|s: String| s@)
}

/// Whether a name appears in a list.
pub fn contains_name(list: &Vec<String>, name: &str) -> (found: bool)
    ensures
        found == names(list@).contains(name@),
{
    let mut k: usize = 0;
    while k < list.len()
        invariant
            k <= list@.len(),
            forall|j: int| 0 <= j < k ==> list@[j]@ != name@,
        decreases list@.len() - k,
    {
        if str_eq(list[k].as_str(), name) {
            assert(names(list@)[k as int] == name@);
            return true;
        }
        k = k + 1;
    }
    proof {
        if names(list@).contains(name@) {
            let j = choose|j: int| 0 <= j < names(list@).len() && names(list@)[j] == name@;
            assert(list@[j]@ == name@);
        }
    }
    false
}

/// Where `id` first appears in a list of ids, or -1.
pub open spec fn index_in(ids: Seq<Seq<char>>, id: Seq<char>) -> int
    decreases ids.len(),
{
    if ids.len() == 0 {
        -1
    } else if index_in(ids.drop_last(), id) >= 0 {
        index_in(ids.drop_last(), id)
    } else if ids.last() == id {
        ids.len() - 1
    } else {
        -1
    }
}

pub proof fn lemma_index_in(ids: Seq<Seq<char>>, id: Seq<char>)
    ensures
        -1 <= index_in(ids, id) < ids.len(),
        index_in(ids, id) >= 0 ==> ids[index_in(ids, id)] == id,
    decreases ids.len(),
{
    if ids.len() > 0 {
        lemma_index_in(ids.drop_last(), id);
    }
}

/// Once a prefix of a list of ids holds an id, the whole list finds it at the same place.
pub proof fn lemma_index_in_prefix(ids: Seq<Seq<char>>, n: int, id: Seq<char>)
    requires
        0 <= n <= ids.len(),
        index_in(ids.subrange(0, n), id) >= 0,
    ensures
        index_in(ids, id) == index_in(ids.subrange(0, n), id),
    decreases ids.len() - n,
{
    if n < ids.len() {
        assert(ids.subrange(0, n + 1).drop_last() =~= ids.subrange(0, n));
        lemma_index_in_prefix(ids, n + 1, id);
    } else {
        assert(ids.subrange(0, n) =~= ids);
    }
}

/// Whether `i` is where `x` first appears in `s`.
pub open spec fn is_first_index(s: Seq<Seq<char>>, x: Seq<char>, i: int) -> bool {
    0 <= i < s.len() && s[i] == x && forall|j: int| 0 <= j < i ==> s[j] != x
}

/// `s` without the first `x` in it, or `s` itself when there is none.
pub open spec fn without_first(s: Seq<Seq<char>>, x: Seq<char>) -> Seq<Seq<char>> {
    if s.contains(x) {
        s.remove(choose|i: int| is_first_index(s, x, i))
    } else {
        s
    }
}

/// Remove the first entry equal to `name`, returning whether one was there.
pub fn remove_first(list: &mut Vec<String>, name: &str) -> (removed: bool)
    ensures
        removed == names(old(list)@).contains(name@),
        removed ==> names(final(list)@).to_multiset() == names(old(list)@).to_multiset().remove(name@),
        names(final(list)@) == without_first(names(old(list)@), name@),
        !removed ==> final(list)@ == old(list)@,
{
    let mut i: usize = 0;
    while i < list.len()
        invariant
            list@ == old(list)@,
            i <= list@.len(),
            forall|j: int| 0 <= j < i ==> list@[j]@ != name@,
        decreases list@.len() - i,
    {
        if str_eq(list[i].as_str(), name) {
            let ghost before = names(list@);
            list.remove(i);
            proof {
                assert(names(list@) =~= before.remove(i as int));
                assert(before[i as int] == name@);
                assert(before.contains(name@));
                vstd::seq_lib::to_multiset_remove(before, i as int);
                assert(is_first_index(before, name@, i as int));
                let c = choose|c: int| is_first_index(before, name@, c);
                assert(is_first_index(before, name@, c));
                assert(c == i) by {
                    if c < i {
                        assert(before[c] != name@);
                    } else if c > i {
                        assert(before[i as int] != name@);
                    }
                }
            }
            return true;
        }
        i = i + 1;
    }
    proof {
        if names(list@).contains(name@) {
            let k = choose|k: int| 0 <= k < names(list@).len() && names(list@)[k] == name@;
            assert(list@[k]@ == name@);
        }
    }
    false
}

/// Whether `i` is the first seat with this id.
pub open spec fn first_seat(players: Seq<Seat>, id: Seq<char>, i: int) -> bool {
    &&& 0 <= i < players.len()
    &&& players[i].id@ == id
    &&& forall|j: int| 0 <= j < i ==> players[j].id@ != id
}

/// Whether anybody is seated under this id.
pub open spec fn seated(players: Seq<Seat>, id: Seq<char>) -> bool {
    exists|i: int| 0 <= i < players.len() && players[i].id@ == id
}

/// The index of the first seat with this id, or -1 when nobody sits there.
pub open spec fn seat_of(players: Seq<Seat>, id: Seq<char>) -> int {
    if exists|i: int| first_seat(players, id, i) {
        choose|i: int| first_seat(players, id, i)
    } else {
        -1
    }
}

/// The first seat with an id is unique.
pub proof fn lemma_first_seat_unique(players: Seq<Seat>, id: Seq<char>, i: int, j: int)
    requires
        first_seat(players, id, i),
        first_seat(players, id, j),
    ensures
        i == j,
{
}

/// Seated players have a first seat, and `seat_of` names it.
pub proof fn lemma_seat_of(players: Seq<Seat>, id: Seq<char>)
    ensures
        seated(players, id) <==> seat_of(players, id) >= 0,
        seated(players, id) ==> first_seat(players, id, seat_of(players, id)),
        !seated(players, id) ==> seat_of(players, id) == -1,
    decreases players.len(),
{
    if seated(players, id) {
        let i = choose|i: int| 0 <= i < players.len() && players[i].id@ == id;
        lemma_first_exists(players, id, i);
    } else {
        if exists|i: int| first_seat(players, id, i) {
            let i = choose|i: int| first_seat(players, id, i);
            assert(0 <= i < players.len() && players[i].id@ == id);
        }
    }
}

/// Seats keep their places when no seat's id changes.
pub proof fn lemma_seat_of_same_ids(a: Seq<Seat>, b: Seq<Seat>, id: Seq<char>)
    requires
        a.len() == b.len(),
        forall|j: int| 0 <= j < a.len() ==> (#[trigger] a[j]).id@ == b[j].id@,
    ensures
        seat_of(a, id) == seat_of(b, id),
{
    lemma_seat_of(a, id);
    lemma_seat_of(b, id);
    if seated(a, id) {
        let i = choose|i: int| 0 <= i < a.len() && a[i].id@ == id;
        assert(b[i].id@ == id);
        let s = seat_of(a, id);
        assert(first_seat(a, id, s));
        assert(a[s].id@ == b[s].id@);
        assert forall|j: int| 0 <= j < s implies b[j].id@ != id by {
            assert(a[j].id@ == b[j].id@);
        }
        assert(first_seat(b, id, s));
        lemma_first_seat_unique(b, id, s, seat_of(b, id));
    } else if seated(b, id) {
        let i = choose|i: int| 0 <= i < b.len() && b[i].id@ == id;
        assert(a[i].id@ == id);
    }
}

proof fn lemma_first_exists(players: Seq<Seat>, id: Seq<char>, i: int)
    requires
        0 <= i < players.len(),
        players[i].id@ == id,
    ensures
        exists|k: int| first_seat(players, id, k),
    decreases i,
{
    if forall|j: int| 0 <= j < i ==> players[j].id@ != id {
        assert(first_seat(players, id, i));
    } else {
        let j = choose|j: int| 0 <= j < i && players[j].id@ != id == false;
        lemma_first_exists(players, id, j);
    }
}

/// The index of the seat with this id, if anybody sits there.
pub fn find_seat(players: &Vec<Seat>, id: &str) -> (found: Option<usize>)
    ensures
        match found {
            Some(i) => first_seat(players@, id@, i as int) && seat_of(players@, id@) == i,
            None => !seated(players@, id@) && seat_of(players@, id@) == -1,
        },
{
    let mut i: usize = 0;
    while i < players.len()
        invariant
            i <= players@.len(),
            forall|j: int| 0 <= j < i ==> players@[j].id@ != id@,
        decreases players@.len() - i,
    {
        if str_eq(players[i].id.as_str(), id) {
            proof {
                assert(first_seat(players@, id@, i as int));
                lemma_seat_of(players@, id@);
                lemma_first_seat_unique(players@, id@, i as int, seat_of(players@, id@));
            }
            return Some(i);
        }
        i = i + 1;
    }
    proof {
        lemma_seat_of(players@, id@);
    }
    None
}

/// How many tokens a seat has on its command sheet.
pub open spec fn sheet_total(seat: Seat) -> int {
    seat.tactic_tokens + seat.fleet_tokens + seat.strategic_tokens
}

/// How many of a player's command tokens stand in the given systems.
pub open spec fn tokens_on_board(board: Seq<SystemState>, player: Seq<char>) -> int
    decreases board.len(),
{
    if board.len() == 0 {
        0
    } else {
        tokens_on_board(board.drop_last(), player) + count_text(
            board.last().command_tokens@,
            player,
        )
    }
}

/// How many entries of a list of names are this name.
pub open spec fn count_text(names: Seq<String>, name: Seq<char>) -> int
    decreases names.len(),
{
    if names.len() == 0 {
        0
    } else {
        count_text(names.drop_last(), name) + if names.last()@ == name { 1int } else { 0 }
    }
}

/// How many entries of a list of names are this name.
pub fn count_name(names: &Vec<String>, name: &str) -> (count: usize)
    ensures
        count == count_text(names@, name@),
        count <= names@.len(),
{
    let mut count: usize = 0;
    let mut i: usize = 0;
    while i < names.len()
        invariant
            i <= names@.len(),
            count == count_text(names@.subrange(0, i as int), name@),
            count <= i,
        decreases names@.len() - i,
    {
        assert(names@.subrange(0, i + 1).drop_last() =~= names@.subrange(0, i as int));
        if str_eq(names[i].as_str(), name) {
            count = count + 1;
        }
        i = i + 1;
    }
    assert(names@.subrange(0, names@.len() as int) =~= names@);
    count
}

/// A player's command tokens standing on the board.
pub fn board_tokens(board: &Vec<SystemState>, player: &str) -> (count: u64)
    requires
        board@.len() < 0x1_0000_0000,
        forall|i: int| 0 <= i < board@.len() ==> (#[trigger] board@[i]).command_tokens@.len()
            < 0x1_0000_0000,
    ensures
        count == tokens_on_board(board@, player@),
{
    let mut count: u64 = 0;
    let mut i: usize = 0;
    while i < board.len()
        invariant
            i <= board@.len(),
            board@.len() < 0x1_0000_0000,
            forall|k: int| 0 <= k < board@.len() ==> (#[trigger] board@[k]).command_tokens@.len()
                < 0x1_0000_0000,
            count == tokens_on_board(board@.subrange(0, i as int), player@),
            count <= i * 0x1_0000_0000,
        decreases board@.len() - i,
    {
        assert(board@.subrange(0, i + 1).drop_last() =~= board@.subrange(0, i as int));
        let here = count_name(&board[i].command_tokens, player);
        assert(count + here <= (i + 1) * 0x1_0000_0000) by (nonlinear_arith)
            requires
                count <= i * 0x1_0000_0000,
                here < 0x1_0000_0000,
        ;
        count = count + here as u64;
        i = i + 1;
    }
    assert(board@.subrange(0, board@.len() as int) =~= board@);
    count
}

/// The reinforcements a player could still gain a token from (LRR 20.4).
pub open spec fn reinforcements(state: GameState, seat: int) -> int {
    TOKENS_PER_FACTION - sheet_total(state.players@[seat]) - tokens_on_board(
        state.board@,
        state.players@[seat].id@,
    )
}

/// The count a pool holds.
pub open spec fn pool_count(seat: Seat, pool: TokenPool) -> int {
    match pool {
        TokenPool::Tactic => seat.tactic_tokens as int,
        TokenPool::Fleet => seat.fleet_tokens as int,
        TokenPool::Strategic => seat.strategic_tokens as int,
    }
}

/// The seat after one token entered one pool.
pub open spec fn with_token(seat: Seat, pool: TokenPool) -> Seat {
    match pool {
        TokenPool::Tactic => Seat { tactic_tokens: (seat.tactic_tokens + 1) as i32, ..seat },
        TokenPool::Fleet => Seat { fleet_tokens: (seat.fleet_tokens + 1) as i32, ..seat },
        TokenPool::Strategic => Seat { strategic_tokens: (seat.strategic_tokens + 1) as i32, ..seat },
    }
}

/// A seat's counts are never negative.
pub open spec fn seat_valid(seat: Seat) -> bool {
    &&& seat.tactic_tokens >= 0
    &&& seat.fleet_tokens >= 0
    &&& seat.strategic_tokens >= 0
    &&& seat.trade_goods >= 0
    &&& seat.commodities >= 0
    &&& sheet_total(seat) <= TOKENS_PER_FACTION
}

/// A count of tokens on the board is never negative.
pub proof fn lemma_tokens_on_board_nonneg(board: Seq<SystemState>, player: Seq<char>)
    ensures
        tokens_on_board(board, player) >= 0,
    decreases board.len(),
{
    if board.len() > 0 {
        lemma_tokens_on_board_nonneg(board.drop_last(), player);
        lemma_count_text_nonneg(board.last().command_tokens@, player);
    }
}

/// A count of names is never negative.
pub proof fn lemma_count_text_nonneg(names: Seq<String>, name: Seq<char>)
    ensures
        count_text(names, name) >= 0,
    decreases names.len(),
{
    if names.len() > 0 {
        lemma_count_text_nonneg(names.drop_last(), name);
    }
}

/// The state is well formed: no seat holds a negative count, and the board is small enough to
/// count over.
pub open spec fn board_fits(state: GameState) -> bool {
    &&& forall|i: int| 0 <= i < state.players@.len() ==> seat_valid(#[trigger] state.players@[i])
    &&& state.board@.len() < 0x1_0000_0000
    &&& forall|i: int| 0 <= i < state.board@.len() ==> (#[trigger] state.board@[i]).command_tokens@.len()
        < 0x1_0000_0000
}

impl GameState {
    /// Gain one command token into a pool, if the player has one left in reinforcements
    /// (LRR 20.4a: a player with none available cannot gain one). Returns whether it arrived.
    pub fn gain_token(&mut self, player: &str, pool: TokenPool) -> (gained: bool)
        requires
            board_fits(*old(self)),
        ensures
            final(self).board@ == old(self).board@,
            *final(self) == (GameState { players: final(self).players, ..*old(self) }),
            final(self).players@.len() == old(self).players@.len(),
            ({
                let i = seat_of(old(self).players@, player@);
                &&& gained <==> (i >= 0 && reinforcements(*old(self), i) > 0)
                &&& gained ==> final(self).players@ == old(self).players@.update(
                    i,
                    with_token(old(self).players@[i], pool),
                )
                &&& !gained ==> final(self).players@ == old(self).players@
            }),
    {
        let Some(i) = find_seat(&self.players, player) else {
            return false;
        };
        let on_board = board_tokens(&self.board, player);
        let seat = &self.players[i];
        let sheet: i64 = seat.tactic_tokens as i64 + seat.fleet_tokens as i64
            + seat.strategic_tokens as i64;
        if on_board >= 0x1_0000_0000_0000 || TOKENS_PER_FACTION - sheet - (on_board as i64) <= 0 {
            assert(reinforcements(*old(self), i as int) <= 0);
            return false;
        }
        let mut seat = self.players.remove(i);
        match pool {
            TokenPool::Tactic => seat.tactic_tokens = seat.tactic_tokens + 1,
            TokenPool::Fleet => seat.fleet_tokens = seat.fleet_tokens + 1,
            TokenPool::Strategic => seat.strategic_tokens = seat.strategic_tokens + 1,
        }
        self.players.insert(i, seat);
        assert(self.players@ =~= old(self).players@.update(i as int, with_token(old(self).players@[i as int], pool)));
        true
    }
}

} // verus!
