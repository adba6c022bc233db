//! Gaining command tokens into a pool of the player's choosing (LRR 52.4), and redistributing
//! the tokens already held across the three pools (LRR 81.5).

use vstd::prelude::*;
use crate::choice::{
    first_named, names, offered, validate, Choice, ChoiceOption, IllegalChoice, OptionView,
};
use crate::state::{
    board_fits, find_seat, lemma_seat_of, lemma_tokens_on_board_nonneg, reinforcements, seat_of,
    seat_valid, seated, sheet_total, with_token, GameState, Seat, TokenPool, TOKENS_PER_FACTION,
};
use crate::text::{
    decimal, decimal_string, find_char, find_from, lemma_parse_decimal, parse_i32_range,
    spec_parse_i32, str_eq,
};

verus! {

/// The choice kind for placing a gained command token.
pub const POOL_KIND: &'static str = "pool";

/// Tokens each player gains at status step 81.5, before any modifier.
pub const STATUS_TOKENS: u32 = 2;

/// The choice kind for redistributing already-held command tokens.
pub const REDISTRIBUTE_KIND: &'static str = "redistribute";

/// The option id naming each pool.
pub const TACTIC_ID: &'static str = "tactic_tokens";
pub const FLEET_ID: &'static str = "fleet_tokens";
pub const STRATEGIC_ID: &'static str = "strategic_tokens";

/// The prompt of a token-gain choice.
pub const GAIN_PROMPT: &'static str = "gain a command token into which pool";

/// The prompt of a redistribution choice.
pub const REDISTRIBUTE_PROMPT: &'static str = "redistribute your command tokens";

/// A pool could not be selected from the state that was presented.
#[derive(Debug)]
pub enum TokenGainError {
    /// The window is complete.
    Complete,
    /// The player is no longer seated.
    PlayerMissing(String),
    /// The option id does not name a command-token pool.
    UnknownPool(String),
    /// The answer was not offered.
    IllegalChoice(IllegalChoice),
}

/// One placed token, for the caller's report.
#[derive(Debug, PartialEq, Eq)]
pub struct TokenPlacement {
    pub player: String,
    pub pool: TokenPool,
}

/// The pool an option id names.
pub open spec fn pool_named(id: Seq<char>) -> Option<TokenPool> {
    if id == TACTIC_ID@ {
        Some(TokenPool::Tactic)
    } else if id == FLEET_ID@ {
        Some(TokenPool::Fleet)
    } else if id == STRATEGIC_ID@ {
        Some(TokenPool::Strategic)
    } else {
        None
    }
}

/// The pool an option id names.
pub fn pool_for(option_id: &str) -> (pool: Option<TokenPool>)
    ensures
        pool == pool_named(option_id@),
{
    if str_eq(option_id, TACTIC_ID) {
        Some(TokenPool::Tactic)
    } else if str_eq(option_id, FLEET_ID) {
        Some(TokenPool::Fleet)
    } else if str_eq(option_id, STRATEGIC_ID) {
        Some(TokenPool::Strategic)
    } else {
        None
    }
}

/// The three pool options, in the order they are offered.
pub open spec fn pool_options_view() -> Seq<OptionView> {
    seq![
        OptionView { id: TACTIC_ID@, kind: POOL_KIND@, label: "tactic pool"@ },
        OptionView { id: FLEET_ID@, kind: POOL_KIND@, label: "fleet pool"@ },
        OptionView { id: STRATEGIC_ID@, kind: POOL_KIND@, label: "strategy pool"@ },
    ]
}

/// The options of a token-gain choice: the three pools, tactic, fleet, strategy.
pub fn pool_options() -> (options: Vec<ChoiceOption>)
    ensures
        options@.map_values(|o: ChoiceOption| o@) == pool_options_view(),
{
    let mut options = Vec::new();
    options.push(ChoiceOption::labelled(TACTIC_ID, POOL_KIND, "tactic pool"));
    options.push(ChoiceOption::labelled(FLEET_ID, POOL_KIND, "fleet pool"));
    options.push(ChoiceOption::labelled(STRATEGIC_ID, POOL_KIND, "strategy pool"));
    assert(options@.map_values(|o: ChoiceOption| o@) =~= pool_options_view());
    options
}

/// The grants a window makes: each player `count` times, in the given order.
pub open spec fn grants(players: Seq<Seq<char>>, count: nat) -> Seq<Seq<char>>
    decreases players.len(),
{
    if players.len() == 0 {
        Seq::empty()
    } else {
        grants(players.drop_last(), count) + Seq::new(count, |_k: int| players.last())
    }
}

/// The grants a window makes with one count per player, a negative count granting nothing.
pub open spec fn grants_each(players: Seq<Seq<char>>, counts: Seq<i32>) -> Seq<Seq<char>>
    decreases players.len(),
{
    if players.len() == 0 || counts.len() == 0 {
        Seq::empty()
    } else {
        grants_each(players.drop_last(), counts.drop_last()) + Seq::new(
            if counts.last() > 0 { counts.last() as nat } else { 0 },
            |_k: int| players.last(),
        )
    }
}

/// The names of a list of players.
pub open spec fn names_of(players: Seq<String>) -> Seq<Seq<char>> {
    players.map_values(|p: String| p@)
}

/// An ordered window granting tokens one at a time, each into a chosen pool.
///
/// One choice per token rather than one per player: a player gaining two may split them.
#[derive(Debug)]
pub struct TokenGain {
    /// Every grant, in resolution order; those before `next` are placed.
    queue: Vec<String>,
    next: usize,
    placed: Vec<TokenPlacement>,
}

impl TokenGain {
    /// The window's internal consistency: every grant before `next` is placed, in order.
    pub closed spec fn wf(&self) -> bool {
        &&& self.next <= self.queue@.len()
        &&& self.placed@.len() == self.next
        &&& forall|i: int| 0 <= i < self.next ==> (#[trigger] self.placed@[i]).player@
            == self.queue@[i]@
    }

    /// The tokens still to place, in resolution order.
    pub closed spec fn pending(&self) -> Seq<Seq<char>> {
        names_of(self.queue@.subrange(self.next as int, self.queue@.len() as int))
    }

    /// Every grant the window was opened with, placed or not.
    pub closed spec fn granted(&self) -> Seq<Seq<char>> {
        names_of(self.queue@)
    }

    /// The placements so far, as players and pools.
    pub closed spec fn placements(&self) -> Seq<(Seq<char>, TokenPool)> {
        self.placed@.map_values(|p: TokenPlacement| (p.player@, p.pool))
    }

    /// A window granting `count` tokens to each player, in the given order.
    pub fn new(players: &[String], count: u32) -> (window: Self)
        ensures
            window.wf(),
            window.pending() == grants(names_of(players@), count as nat),
            window.granted() == window.pending(),
            window.placements().len() == 0,
    {
        let mut queue: Vec<String> = Vec::new();
        let mut i: usize = 0;
        while i < players.len()
            invariant
                i <= players@.len(),
                names_of(queue@) == grants(names_of(players@.subrange(0, i as int)), count as nat),
            decreases players@.len() - i,
        {
            let ghost before = names_of(queue@);
            let mut k: u32 = 0;
            while k < count
                invariant
                    k <= count,
                    i < players@.len(),
                    names_of(queue@) == before + Seq::new(k as nat, |_j: int| players@[i as int]@),
                decreases count - k,
            {
                let ghost q0 = queue@;
                let name = players[i].clone();
                queue.push(name);
                assert(queue@ == q0.push(name));
                assert(names_of(queue@) =~= names_of(q0).push(players@[i as int]@));
                assert(names_of(queue@) =~= before + Seq::new((k + 1) as nat, |_j: int| players@[i as int]@));
                k = k + 1;
            }
            proof {
                let prefix = names_of(players@.subrange(0, i + 1));
                assert(prefix.drop_last() =~= names_of(players@.subrange(0, i as int)));
                assert(prefix.last() == players@[i as int]@);
            }
            i = i + 1;
        }
        assert(players@.subrange(0, players@.len() as int) =~= players@);
        let window = TokenGain { queue, next: 0, placed: Vec::new() };
        assert(window.pending() =~= names_of(window.queue@));
        window
    }

    /// The status phase's grant: each player in the given order gains their own count, which
    /// is the printed two as each faction's abilities modify it. A count below zero grants
    /// nothing.
    pub fn for_status(players: &[String], counts: &[i32]) -> (window: Self)
        requires
            players@.len() == counts@.len(),
        ensures
            window.wf(),
            window.pending() == grants_each(names_of(players@), counts@),
            window.granted() == window.pending(),
            window.placements().len() == 0,
    {
        let mut queue: Vec<String> = Vec::new();
        let mut i: usize = 0;
        while i < players.len()
            invariant
                i <= players@.len(),
                players@.len() == counts@.len(),
                names_of(queue@) == grants_each(
                    names_of(players@.subrange(0, i as int)),
                    counts@.subrange(0, i as int),
                ),
            decreases players@.len() - i,
        {
            let ghost before = names_of(queue@);
            let count: i32 = if counts[i] > 0 { counts[i] } else { 0 };
            let mut k: i32 = 0;
            while k < count
                invariant
                    0 <= k <= count,
                    i < players@.len(),
                    names_of(queue@) == before + Seq::new(k as nat, |_j: int| players@[i as int]@),
                decreases count - k,
            {
                let ghost q0 = queue@;
                let name = players[i].clone();
                queue.push(name);
                assert(queue@ == q0.push(name));
                assert(names_of(queue@) =~= names_of(q0).push(players@[i as int]@));
                assert(names_of(queue@) =~= before + Seq::new((k + 1) as nat, |_j: int| players@[i as int]@));
                k = k + 1;
            }
            proof {
                let prefix = names_of(players@.subrange(0, i + 1));
                assert(prefix.drop_last() =~= names_of(players@.subrange(0, i as int)));
                assert(prefix.last() == players@[i as int]@);
                assert(counts@.subrange(0, i + 1).drop_last() =~= counts@.subrange(0, i as int));
            }
            i = i + 1;
        }
        assert(players@.subrange(0, players@.len() as int) =~= players@);
        assert(counts@.subrange(0, counts@.len() as int) =~= counts@);
        let window = TokenGain { queue, next: 0, placed: Vec::new() };
        assert(window.pending() =~= names_of(window.queue@));
        window
    }

    pub fn is_complete(&self) -> (done: bool)
        requires
            self.wf(),
        ensures
            done == (self.pending().len() == 0),
    {
        self.next == self.queue.len()
    }

    /// The player whose token is next to place.
    pub fn next_player(&self) -> (player: Option<&String>)
        requires
            self.wf(),
        ensures
            match player {
                Some(p) => self.pending().len() > 0 && p@ == self.pending()[0],
                None => self.pending().len() == 0,
            },
    {
        if self.next < self.queue.len() {
            Some(&self.queue[self.next])
        } else {
            None
        }
    }

    /// Every token placed so far, in resolution order.
    pub fn placed(&self) -> (placed: &[TokenPlacement])
        ensures
            placed@.map_values(|p: TokenPlacement| (p.player@, p.pool)) == self.placements(),
    {
        self.placed.as_slice()
    }

    /// The choice for the next token, or `None` once the window is complete.
    pub fn pending_choice(&self) -> (choice: Option<Choice>)
        requires
            self.wf(),
        ensures
            match choice {
                Some(c) => {
                    &&& self.pending().len() > 0
                    &&& c.player@ == self.pending()[0]
                    &&& c.prompt@ == GAIN_PROMPT@
                    &&& c.options@.map_values(|o: ChoiceOption| o@) == pool_options_view()
                },
                None => self.pending().len() == 0,
            },
    {
        let player = self.next_player()?;
        Some(Choice::new(player.as_str(), GAIN_PROMPT, pool_options()))
    }

    /// Place the next token into the chosen pool.
    ///
    /// The answer is validated against the generated choice before anything moves, so an answer
    /// that was not offered cannot move a token. The token is offered even when the player has
    /// none left in reinforcements (LRR 20.4a); it is the gain that comes up empty.
    #[verifier::rlimit(60)]
    pub fn resolve(&mut self, state: &mut GameState, answer: ChoiceOption) -> (result: Result<TokenPool, TokenGainError>)
        requires
            old(self).wf(),
            board_fits(*old(state)),
        ensures
            final(self).wf(),
            board_fits(*final(state)),
            final(self).granted() == old(self).granted(),
            *final(state) == (GameState { players: final(state).players, ..*old(state) }),
            result is Err ==> *final(state) == *old(state) && *final(self) == *old(self),
            ({
                let pending = old(self).pending();
                match result {
                    Err(TokenGainError::Complete) => {
                        &&& pending.len() == 0
                        &&& final(self).pending() == pending
                        &&& final(self).placements() == old(self).placements()
                        &&& final(state).players@ == old(state).players@
                    },
                    Err(TokenGainError::IllegalChoice(illegal)) => {
                        &&& pending.len() > 0
                        &&& !pool_options_view().contains(OptionView { label: pool_label(answer@), ..answer@ })
                        &&& pool_named_kind(answer@) is None
                        &&& illegal.player@ == pending[0]
                        &&& final(self).pending() == pending
                        &&& final(self).placements() == old(self).placements()
                        &&& final(state).players@ == old(state).players@
                    },
                    Err(TokenGainError::PlayerMissing(p)) => {
                        &&& pending.len() > 0
                        &&& p@ == pending[0]
                        &&& pool_named_kind(answer@) is Some
                        &&& !seated(old(state).players@, pending[0])
                        &&& final(self).pending() == pending
                        &&& final(self).placements() == old(self).placements()
                        &&& final(state).players@ == old(state).players@
                    },
                    Err(TokenGainError::UnknownPool(_)) => false,
                    Ok(pool) => {
                        let i = seat_of(old(state).players@, pending[0]);
                        &&& pending.len() > 0
                        &&& pool_named_kind(answer@) == Some(pool)
                        &&& i >= 0
                        &&& final(self).pending() == pending.drop_first()
                        &&& final(self).placements() == old(self).placements().push((pending[0], pool))
                        &&& final(state).board@ == old(state).board@
                        &&& final(state).players@ == if reinforcements(*old(state), i) > 0 {
                            old(state).players@.update(i, with_token(old(state).players@[i], pool))
                        } else {
                            old(state).players@
                        }
                    },
                }
            }),
    {
        let choice = match self.pending_choice() {
            Some(choice) => choice,
            None => return Err(TokenGainError::Complete),
        };
        assert(self.pending().len() == self.queue@.len() - self.next);
        let queued = self.queue.len();
        assert(self.next < queued);
        let option = match validate(&choice, answer) {
            Ok(option) => option,
            Err(illegal) => {
                proof { lemma_pool_offered(answer@, choice.options@); }
                return Err(TokenGainError::IllegalChoice(illegal));
            },
        };
        proof { lemma_pool_offered(answer@, choice.options@); }
        let pool = match pool_for(option.id.as_str()) {
            Some(pool) => pool,
            None => return Err(TokenGainError::UnknownPool(option.id)),
        };
        let player = choice.player;
        if find_seat(&state.players, player.as_str()).is_none() {
            return Err(TokenGainError::PlayerMissing(player));
        }
        assert(self.pending().len() == self.queue@.len() - self.next);
        let _ = state.gain_token(player.as_str(), pool);
        let ghost before = self.placed@;
        self.next = self.next + 1;
        self.placed.push(TokenPlacement { player, pool });
        proof {
            assert(self.placements() =~= old(self).placements().push((old(self).pending()[0], pool)));
            assert(self.pending() =~= old(self).pending().drop_first());
            lemma_valid_after_gain(*old(state), *state, player@, pool);
        }
        Ok(pool)
    }
}

/// The label the pool option with this id carries.
pub open spec fn pool_label(option: OptionView) -> Seq<char> {
    if option.id == TACTIC_ID@ {
        "tactic pool"@
    } else if option.id == FLEET_ID@ {
        "fleet pool"@
    } else {
        "strategy pool"@
    }
}

/// The pool an answer names, when it is a pool option: a pool id with the pool kind.
pub open spec fn pool_named_kind(answer: OptionView) -> Option<TokenPool> {
    if answer.kind == POOL_KIND@ { pool_named(answer.id) } else { None }
}

pub(crate) proof fn lemma_pool_offered(answer: OptionView, options: Seq<ChoiceOption>)
    requires
        options.map_values(|o: ChoiceOption| o@) == pool_options_view(),
    ensures
        offered(options, answer) <==> pool_named_kind(answer) is Some,
        offered(options, answer) ==> pool_named(options[first_named(options, answer)]@.id)
            == pool_named_kind(answer),
        !offered(options, answer) ==> !pool_options_view().contains(
            OptionView { label: pool_label(answer), ..answer },
        ),
{
    let views = options.map_values(|o: ChoiceOption| o@);
    assert(views.len() == options.len());
    assert(pool_options_view().len() == 3);
    assert(options.len() == 3);
    assert(views[0] == options[0]@);
    assert(views[1] == options[1]@);
    assert(views[2] == options[2]@);
    assert(options[0]@ == pool_options_view()[0]);
    assert(options[1]@ == pool_options_view()[1]);
    assert(options[2]@ == pool_options_view()[2]);
    reveal_strlit("tactic_tokens");
    reveal_strlit("fleet_tokens");
    reveal_strlit("strategic_tokens");
    if pool_named_kind(answer) is Some {
        if answer.id == TACTIC_ID@ {
            assert(names(options, 0, answer));
        } else if answer.id == FLEET_ID@ {
            assert(names(options, 1, answer));
        } else {
            assert(names(options, 2, answer));
        }
    }
    if offered(options, answer) {
        let k = first_named(options, answer);
        assert(names(options, k, answer));
    }
    if !offered(options, answer) {
        let full = OptionView { label: pool_label(answer), ..answer };
        if pool_options_view().contains(full) {
            let k = choose|k: int| 0 <= k < 3 && pool_options_view()[k] == full;
            assert(names(options, k, answer));
        }
    }
}

/// A gained token keeps the state well formed.
proof fn lemma_valid_after_gain(before: GameState, after: GameState, player: Seq<char>, pool: TokenPool)
    requires
        board_fits(before),
        after.board@ == before.board@,
        ({
            let i = seat_of(before.players@, player);
            &&& i >= 0
            &&& after.players@ == if reinforcements(before, i) > 0 {
                before.players@.update(i, with_token(before.players@[i], pool))
            } else {
                before.players@
            }
        }),
    ensures
        board_fits(after),
{
    lemma_seat_of(before.players@, player);
    let i = seat_of(before.players@, player);
    lemma_tokens_on_board_nonneg(before.board@, player);
    assert forall|k: int| 0 <= k < after.players@.len() implies seat_valid(#[trigger] after.players@[k]) by {
        if k != i {
            assert(seat_valid(before.players@[k]));
        }
    }
}


// ---- redistributing held tokens ----

/// The arrangements with `tactic` tactic tokens and at least `fleet` fleet tokens, fleet rising.
pub open spec fn fleet_row(total: int, tactic: int, fleet: int) -> Seq<(int, int, int)>
    decreases total - tactic - fleet + 1,
{
    if fleet > total - tactic {
        Seq::empty()
    } else {
        seq![(tactic, fleet, total - tactic - fleet)] + fleet_row(total, tactic, fleet + 1)
    }
}

/// The arrangements from `tactic` tactic tokens upward, each row's fleet starting at
/// `min_fleet`.
pub open spec fn rows(total: int, tactic: int, min_fleet: int) -> Seq<(int, int, int)>
    decreases total - tactic + 1,
{
    if tactic > total {
        Seq::empty()
    } else {
        fleet_row(total, tactic, min_fleet) + rows(total, tactic + 1, min_fleet)
    }
}

/// The fleet pool a redistribution must keep: at least two, unless fewer than two are held.
pub open spec fn min_fleet(total: int) -> int {
    if total >= 2 { 2 } else { 0 }
}

/// Every way to split `total` tokens across tactic, fleet and strategy pools that keeps the
/// fleet pool at `min_fleet`, tactic count rising, then fleet count rising.
pub open spec fn distributions(total: int) -> Seq<(int, int, int)> {
    rows(total, 0, min_fleet(total))
}

/// The id naming an arrangement: `tactic|fleet|strategy`.
pub open spec fn distribution_id(d: (int, int, int)) -> Seq<char> {
    decimal(d.0) + "|"@ + decimal(d.1) + "|"@ + decimal(d.2)
}

/// The option offering an arrangement.
pub open spec fn distribution_view(d: (int, int, int)) -> OptionView {
    OptionView {
        id: distribution_id(d),
        kind: REDISTRIBUTE_KIND@,
        label: "tactic "@ + decimal(d.0) + " / fleet "@ + decimal(d.1) + " / strategy "@ + decimal(
            d.2,
        ),
    }
}

/// What `parse_distribution` reads from an option id: exactly three `|`-separated fields, each
/// parsing as an `i32`.
pub open spec fn spec_parse_distribution(s: Seq<char>) -> Option<(int, int, int)> {
    let p = find_from(s, '|', 0);
    let q = find_from(s, '|', p + 1);
    let r = find_from(s, '|', q + 1);
    if p < s.len() && q < s.len() && r == s.len() {
        match (
            spec_parse_i32(s.subrange(0, p)),
            spec_parse_i32(s.subrange(p + 1, q)),
            spec_parse_i32(s.subrange(q + 1, s.len() as int)),
        ) {
            (Some(a), Some(b), Some(c)) => Some((a, b, c)),
            _ => None,
        }
    } else {
        None
    }
}

/// Every arrangement offered for a total holds exactly that total, with the fleet pool kept.
pub proof fn lemma_rows_members(total: int, tactic: int, fleet: int, min: int)
    requires
        0 <= tactic,
        min >= 0,
        fleet >= min,
    ensures
        forall|k: int| 0 <= k < fleet_row(total, tactic, fleet).len() ==> {
            let d = #[trigger] fleet_row(total, tactic, fleet)[k];
            &&& d.0 == tactic
            &&& d.1 >= fleet
            &&& d.2 >= 0
            &&& d.0 + d.1 + d.2 == total
        },
        forall|k: int| 0 <= k < rows(total, tactic, min).len() ==> {
            let d = #[trigger] rows(total, tactic, min)[k];
            &&& d.0 >= tactic
            &&& d.1 >= min
            &&& d.2 >= 0
            &&& d.0 + d.1 + d.2 == total
        },
    decreases total - tactic - fleet + 1 + (total - tactic + 1) * 0,
{
    lemma_fleet_row_members(total, tactic, fleet);
    lemma_rows_only(total, tactic, min);
}

proof fn lemma_fleet_row_members(total: int, tactic: int, fleet: int)
    requires
        0 <= tactic,
    ensures
        forall|k: int| 0 <= k < fleet_row(total, tactic, fleet).len() ==> {
            let d = #[trigger] fleet_row(total, tactic, fleet)[k];
            &&& d.0 == tactic
            &&& d.1 >= fleet
            &&& d.2 >= 0
            &&& d.0 + d.1 + d.2 == total
        },
    decreases total - tactic - fleet + 1,
{
    if fleet <= total - tactic {
        lemma_fleet_row_members(total, tactic, fleet + 1);
        let rest = fleet_row(total, tactic, fleet + 1);
        let row = fleet_row(total, tactic, fleet);
        assert forall|k: int| 0 <= k < row.len() implies {
            let d = #[trigger] row[k];
            &&& d.0 == tactic
            &&& d.1 >= fleet
            &&& d.2 >= 0
            &&& d.0 + d.1 + d.2 == total
        } by {
            if k > 0 {
                assert(row[k] == rest[k - 1]);
            }
        }
    }
}

proof fn lemma_rows_only(total: int, tactic: int, min: int)
    requires
        0 <= tactic,
        min >= 0,
    ensures
        forall|k: int| 0 <= k < rows(total, tactic, min).len() ==> {
            let d = #[trigger] rows(total, tactic, min)[k];
            &&& d.0 >= tactic
            &&& d.1 >= min
            &&& d.2 >= 0
            &&& d.0 + d.1 + d.2 == total
        },
    decreases total - tactic + 1,
{
    if tactic <= total {
        lemma_rows_only(total, tactic + 1, min);
        lemma_fleet_row_members(total, tactic, min);
        let row = fleet_row(total, tactic, min);
        let rest = rows(total, tactic + 1, min);
        let all = rows(total, tactic, min);
        assert(all == row + rest);
        assert forall|k: int| 0 <= k < all.len() implies {
            let d = #[trigger] all[k];
            &&& d.0 >= tactic
            &&& d.1 >= min
            &&& d.2 >= 0
            &&& d.0 + d.1 + d.2 == total
        } by {
            if k < row.len() {
                assert(all[k] == row[k]);
            } else {
                assert(all[k] == rest[k - row.len()]);
            }
        }
    }
}

/// `find_from` lands on the first `c` at or after `from`.
pub proof fn lemma_find_from(s: Seq<char>, c: char, from: int, at: int)
    requires
        0 <= from <= at <= s.len(),
        forall|k: int| from <= k < at ==> s[k] != c,
        at == s.len() || s[at] == c,
    ensures
        find_from(s, c, from) == at,
    decreases at - from,
{
    if from < at {
        lemma_find_from(s, c, from + 1, at);
    }
}

/// An arrangement's id parses back into that arrangement.
pub proof fn lemma_distribution_round_trip(d: (int, int, int))
    requires
        i32::MIN <= d.0 <= i32::MAX,
        i32::MIN <= d.1 <= i32::MAX,
        i32::MIN <= d.2 <= i32::MAX,
    ensures
        spec_parse_distribution(distribution_id(d)) == Some(d),
{
    lemma_parse_decimal(d.0);
    lemma_parse_decimal(d.1);
    lemma_parse_decimal(d.2);
    let a = decimal(d.0);
    let b = decimal(d.1);
    let c = decimal(d.2);
    reveal_strlit("|");
    let s = distribution_id(d);
    assert(s =~= a + seq!['|'] + b + seq!['|'] + c);
    let p = a.len() as int;
    let q = p + 1 + b.len();
    assert forall|k: int| 0 <= k < p implies s[k] != '|' by {
        assert(s[k] == a[k]);
    }
    assert(s[p] == '|');
    lemma_find_from(s, '|', 0, p);
    assert forall|k: int| p + 1 <= k < q implies s[k] != '|' by {
        assert(s[k] == b[k - p - 1]);
    }
    assert(s[q] == '|');
    lemma_find_from(s, '|', p + 1, q);
    assert forall|k: int| q + 1 <= k < s.len() implies s[k] != '|' by {
        assert(s[k] == c[k - q - 1]);
    }
    lemma_find_from(s, '|', q + 1, s.len() as int);
    assert(s.subrange(0, p) =~= a);
    assert(s.subrange(p + 1, q) =~= b);
    assert(s.subrange(q + 1, s.len() as int) =~= c);
}

/// The option offering one arrangement.
pub fn distribution_option(tactic: i64, fleet: i64, strategic: i64) -> (option: ChoiceOption)
    ensures
        option@ == distribution_view((tactic as int, fleet as int, strategic as int)),
        option.payload@.len() == 0,
{
    let t = decimal_string(tactic);
    let f = decimal_string(fleet);
    let s = decimal_string(strategic);
    let id = t.clone().concat("|").concat(f.as_str()).concat("|").concat(s.as_str());
    let label = "tactic ".to_string().concat(t.as_str()).concat(" / fleet ").concat(f.as_str()).concat(
        " / strategy ",
    ).concat(s.as_str());
    ChoiceOption::labelled(id.as_str(), REDISTRIBUTE_KIND, label.as_str())
}

/// Every way to split `total` indistinguishable tokens across the three pools, as choice
/// options, keeping at least two in the fleet pool; when fewer than two are held, every split
/// is offered, so the window stays answerable.
pub fn distribution_options(total: i32) -> (options: Vec<ChoiceOption>)
    ensures
        options@.map_values(|o: ChoiceOption| o@) == distributions(total as int).map_values(
            |d: (int, int, int)| distribution_view(d),
        ),
{
    let ghost all = distributions(total as int);
    let ghost min = min_fleet(total as int);
    let min_fleet: i64 = if total >= 2 { 2 } else { 0 };
    let total = total as i64;
    let mut options: Vec<ChoiceOption> = Vec::new();
    let ghost mut done: Seq<(int, int, int)> = Seq::empty();
    let mut tactic: i64 = 0;
    while tactic <= total
        invariant
            min == min_fleet,
            0 <= min_fleet <= 2,
            all == rows(total as int, 0, min),
            i32::MIN <= total <= i32::MAX,
            0 <= tactic <= if total >= 0 { total + 1 } else { 0 },
            done + rows(total as int, tactic as int, min) == all,
            options@.map_values(|o: ChoiceOption| o@) == done.map_values(
                |d: (int, int, int)| distribution_view(d),
            ),
        decreases total + 1 - tactic,
    {
        let mut fleet: i64 = min_fleet;
        while fleet <= total - tactic
            invariant
                min == min_fleet,
                0 <= min_fleet <= 2,
                all == rows(total as int, 0, min),
                i32::MIN <= total <= i32::MAX,
                0 <= tactic <= total,
                min_fleet <= fleet <= if total - tactic >= min_fleet { total - tactic + 1 } else { min_fleet as int },
                done + fleet_row(total as int, tactic as int, fleet as int) + rows(
                    total as int,
                    tactic + 1,
                    min,
                ) == all,
                options@.map_values(|o: ChoiceOption| o@) == done.map_values(
                    |d: (int, int, int)| distribution_view(d),
                ),
            decreases total - tactic + 1 - fleet,
        {
            let ghost d = (tactic as int, fleet as int, (total - tactic - fleet) as int);
            let option = distribution_option(tactic, fleet, total - tactic - fleet);
            let ghost before = options@;
            options.push(option);
            proof {
                let row = fleet_row(total as int, tactic as int, fleet as int);
                assert(row == seq![d] + fleet_row(total as int, tactic as int, fleet + 1));
                assert(done.push(d) + fleet_row(total as int, tactic as int, fleet + 1) + rows(
                    total as int,
                    tactic + 1,
                    min,
                ) =~= done + row + rows(total as int, tactic + 1, min));
                assert(options@ == before.push(option));
                let a = options@.map_values(|o: ChoiceOption| o@);
                let b = done.push(d).map_values(|d: (int, int, int)| distribution_view(d));
                let a0 = before.map_values(|o: ChoiceOption| o@);
                let b0 = done.map_values(|d: (int, int, int)| distribution_view(d));
                assert(a0 == b0);
                assert(a.len() == options@.len());
                assert(b.len() == done.push(d).len());
                assert(a0.len() == before.len());
                assert(b0.len() == done.len());
                assert(a.len() == b.len());
                assert forall|j: int| 0 <= j < a.len() implies a[j] == b[j] by {
                    if j < done.len() {
                        assert(a[j] == a0[j]);
                        assert(b[j] == b0[j]);
                    } else {
                        assert(a[j] == option@);
                        assert(b[j] == distribution_view(d));
                    }
                }
                assert(a =~= b);
                done = done.push(d);
            }
            fleet = fleet + 1;
        }
        proof {
            assert(fleet_row(total as int, tactic as int, fleet as int) == Seq::<(int, int, int)>::empty());
            assert(rows(total as int, tactic as int, min) == fleet_row(total as int, tactic as int, min)
                + rows(total as int, tactic + 1, min));
            assert(done + rows(total as int, tactic + 1, min) =~= done + fleet_row(total as int, tactic as int, fleet as int)
                + rows(total as int, tactic + 1, min));
        }
        tactic = tactic + 1;
    }
    assert(rows(total as int, tactic as int, min) == Seq::<(int, int, int)>::empty());
    assert(done =~= all);
    options
}

/// Read an arrangement back from an option id, as three `|`-separated `i32` fields.
pub fn parse_distribution(option_id: &str) -> (parsed: Option<(i32, i32, i32)>)
    ensures
        match parsed {
            Some((a, b, c)) => spec_parse_distribution(option_id@) == Some(
                (a as int, b as int, c as int),
            ),
            None => spec_parse_distribution(option_id@) is None,
        },
{
    let n = option_id.unicode_len();
    let p = find_char(option_id, '|', 0);
    if p >= n {
        return None;
    }
    let q = find_char(option_id, '|', p + 1);
    if q >= n {
        return None;
    }
    let r = find_char(option_id, '|', q + 1);
    if r != n {
        return None;
    }
    let tactic = parse_i32_range(option_id, 0, p)?;
    let fleet = parse_i32_range(option_id, p + 1, q)?;
    let strategic = parse_i32_range(option_id, q + 1, n)?;
    Some((tactic, fleet, strategic))
}

/// A redistribution was asked for or answered when it could not be resolved.
#[derive(Debug)]
pub enum RedistributeError {
    /// Already resolved, or nothing was held to redistribute.
    Complete,
    /// The player is no longer seated.
    PlayerMissing(String),
    /// The option id does not parse as three pool counts.
    Malformed(String),
    /// The answer was not offered.
    IllegalChoice(IllegalChoice),
}

/// The tokens a player has on their command sheet, or none when they are not seated.
pub open spec fn held_total_of(state: GameState, player: Seq<char>) -> int {
    let i = seat_of(state.players@, player);
    if i >= 0 { sheet_total(state.players@[i]) } else { 0 }
}

/// A single decision that moves any number of a player's already-held command tokens between
/// pools (LRR 81.5's second sentence, and Warfare's matching clause): one question over every
/// legal final arrangement.
#[derive(Debug)]
pub struct TokenRedistribution {
    player: String,
    resolved: bool,
}

impl TokenRedistribution {
    /// The player redistributing.
    pub closed spec fn player_view(&self) -> Seq<char> {
        self.player@
    }

    /// Whether the window has been answered.
    pub closed spec fn is_resolved(&self) -> bool {
        self.resolved
    }

    /// Open the window for whatever `player` currently holds.
    pub fn new(player: String) -> (window: Self)
        ensures
            window.player_view() == player@,
            !window.is_resolved(),
    {
        TokenRedistribution { player, resolved: false }
    }

    /// The tokens on the player's command sheet right now.
    fn held_total(&self, state: &GameState) -> (total: i32)
        requires
            board_fits(*state),
        ensures
            total == held_total_of(*state, self.player@),
            0 <= total <= TOKENS_PER_FACTION,
    {
        match find_seat(&state.players, self.player.as_str()) {
            Some(i) => {
                let seat = &state.players[i];
                assert(seat_valid(state.players@[i as int]));
                seat.tactic_tokens + seat.fleet_tokens + seat.strategic_tokens
            },
            None => 0,
        }
    }

    /// The one choice this window asks, built fresh from `state`; `None` once resolved, or
    /// when the player holds nothing to redistribute.
    pub fn pending_choice(&self, state: &GameState) -> (choice: Option<Choice>)
        requires
            board_fits(*state),
        ensures
            match choice {
                Some(c) => {
                    &&& !self.is_resolved()
                    &&& held_total_of(*state, self.player_view()) > 0
                    &&& c.player@ == self.player_view()
                    &&& c.prompt@ == REDISTRIBUTE_PROMPT@
                    &&& c.options@.map_values(|o: ChoiceOption| o@) == distributions(
                        held_total_of(*state, self.player_view()),
                    ).map_values(|d: (int, int, int)| distribution_view(d))
                },
                None => self.is_resolved() || held_total_of(*state, self.player_view()) <= 0,
            },
    {
        if self.resolved {
            return None;
        }
        let total = self.held_total(state);
        if total > 0 {
            Some(Choice::new(self.player.as_str(), REDISTRIBUTE_PROMPT, distribution_options(total)))
        } else {
            None
        }
    }

    /// Whether this window has been answered, or never had anything to redistribute.
    pub fn is_complete(&self, state: &GameState) -> (done: bool)
        requires
            board_fits(*state),
        ensures
            done == (self.is_resolved() || held_total_of(*state, self.player_view()) <= 0),
    {
        self.pending_choice(state).is_none()
    }

    /// Apply the chosen final arrangement, replacing whatever the player held before.
    ///
    /// The arrangement always holds exactly the tokens the player had, with the fleet pool
    /// kept at two or more whenever two or more were held; an offered answer always parses.
    #[verifier::rlimit(100)]
    pub fn resolve(&mut self, state: &mut GameState, answer: ChoiceOption) -> (result: Result<(i32, i32, i32), RedistributeError>)
        requires
            board_fits(*old(state)),
        ensures
            board_fits(*final(state)),
            final(self).player_view() == old(self).player_view(),
            final(state).board@ == old(state).board@,
            *final(state) == (GameState { players: final(state).players, ..*old(state) }),
            result is Err ==> *final(state) == *old(state) && *final(self) == *old(self),
            ({
                let player = old(self).player_view();
                let total = held_total_of(*old(state), player);
                let i = seat_of(old(state).players@, player);
                let offers = distributions(total).map_values(|d: (int, int, int)| distribution_view(d));
                match result {
                    Ok((t, f, s)) => {
                        &&& !old(self).is_resolved()
                        &&& final(self).is_resolved()
                        &&& i >= 0
                        &&& total > 0
                        &&& offers.contains(distribution_view((t as int, f as int, s as int)))
                        &&& distribution_view((t as int, f as int, s as int)).id == answer@.id
                        &&& t + f + s == total
                        &&& t >= 0 && f >= min_fleet(total) && s >= 0
                        &&& final(state).players@ == old(state).players@.update(
                            i,
                            Seat {
                                tactic_tokens: t,
                                fleet_tokens: f,
                                strategic_tokens: s,
                                ..old(state).players@[i]
                            },
                        )
                    },
                    Err(RedistributeError::Complete) => {
                        &&& (old(self).is_resolved() || total <= 0)
                        &&& final(self).is_resolved() == old(self).is_resolved()
                        &&& final(state).players@ == old(state).players@
                    },
                    Err(RedistributeError::IllegalChoice(_)) => {
                        &&& !old(self).is_resolved() && total > 0
                        &&& forall|k: int| 0 <= k < offers.len() ==> !(#[trigger] offers[k].id
                            == answer@.id && offers[k].kind == answer@.kind)
                        &&& final(self).is_resolved() == old(self).is_resolved()
                        &&& final(state).players@ == old(state).players@
                    },
                    Err(RedistributeError::Malformed(_)) => false,
                    Err(RedistributeError::PlayerMissing(_)) => false,
                }
            }),
    {
        let choice = match self.pending_choice(state) {
            Some(choice) => choice,
            None => return Err(RedistributeError::Complete),
        };
        let ghost total = held_total_of(*state, self.player@);
        let ghost offers = distributions(total).map_values(|d: (int, int, int)| distribution_view(d));
        let ghost views = choice.options@.map_values(|o: ChoiceOption| o@);
        let option = match validate(&choice, answer) {
            Ok(option) => option,
            Err(illegal) => {
                proof {
                    assert forall|k: int| 0 <= k < offers.len() implies !(#[trigger] offers[k].id
                        == answer@.id && offers[k].kind == answer@.kind) by {
                        assert(views[k] == choice.options@[k]@);
                        if offers[k].id == answer@.id && offers[k].kind == answer@.kind {
                            assert(names(choice.options@, k, answer@));
                        }
                    }
                }
                return Err(RedistributeError::IllegalChoice(illegal));
            },
        };
        let ghost k = first_named(choice.options@, answer@);
        let ghost d = distributions(total)[k];
        proof {
            assert(names(choice.options@, k, answer@));
            assert(0 <= k < choice.options@.len());
            assert(views.len() == choice.options@.len());
            assert(offers.len() == distributions(total).len());
            assert(views == offers);
            assert(views[k] == choice.options@[k]@);
            assert(offers[k] == distribution_view(d));
            lemma_rows_members(total, 0, min_fleet(total), min_fleet(total));
            assert(d.0 + d.1 + d.2 == total && d.0 >= 0 && d.1 >= min_fleet(total) && d.2 >= 0);
            assert(total <= TOKENS_PER_FACTION);
            lemma_distribution_round_trip(d);
        }
        let (tactic, fleet, strategic) = match parse_distribution(option.id.as_str()) {
            Some(parsed) => parsed,
            None => return Err(RedistributeError::Malformed(option.id)),
        };
        let i = match find_seat(&state.players, self.player.as_str()) {
            Some(i) => i,
            None => return Err(RedistributeError::PlayerMissing(self.player.clone())),
        };
        let mut seat = state.players.remove(i);
        seat.tactic_tokens = tactic;
        seat.fleet_tokens = fleet;
        seat.strategic_tokens = strategic;
        state.players.insert(i, seat);
        self.resolved = true;
        proof {
            assert(state.players@ =~= old(state).players@.update(
                i as int,
                Seat {
                    tactic_tokens: tactic,
                    fleet_tokens: fleet,
                    strategic_tokens: strategic,
                    ..old(state).players@[i as int]
                },
            ));
            assert(offers.contains(distribution_view((tactic as int, fleet as int, strategic as int)))) by {
                assert(offers[k] == distribution_view(d));
            }
            assert forall|j: int| 0 <= j < state.players@.len() implies seat_valid(#[trigger] state.players@[j]) by {
                if j != i {
                    assert(seat_valid(old(state).players@[j]));
                } else {
                    assert(seat_valid(old(state).players@[j]));
                }
            }
        }
        Ok((tactic, fleet, strategic))
    }
}

} // verus!
