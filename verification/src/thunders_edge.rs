//! The Thunder's Edge expedition: six slices, each claimed once by paying its printed cost.
//! A player's first claim gains their faction's breakthrough; the claim of the last slice puts
//! Thunder's Edge on the board, where the player with the most claims places infantry on it.

use vstd::prelude::*;
use crate::choice::{answered_index, first_answered, none_answered, option_views, payload_view, Choice, ChoiceOption, IllegalChoice, OptionView, Value, ValueView};
use crate::state::{find_seat, names, seat_of, GameState, Seat};
use crate::tech_windows::{convertible, pair_names};
use crate::technology::PlanetRecord;
use crate::strategy::{label_for, label_of};
use crate::text::{decimal, decimal_string_u64, starts_with, str_eq};

verus! {

/// The expedition's slices, in the order they are offered.
pub const SLICE_COUNT: usize = 6;

/// The slice at a position: what it costs, by name.
pub open spec fn slice_name(j: int) -> Seq<char> {
    if j == 0 {
        "resources"@
    } else if j == 1 {
        "influence"@
    } else if j == 2 {
        "trade_goods"@
    } else if j == 3 {
        "action_cards"@
    } else if j == 4 {
        "secret"@
    } else {
        "tech_planet"@
    }
}

/// What the slice at a position costs, as its option says it.
pub open spec fn slice_label(j: int) -> Seq<char> {
    if j == 0 {
        "spend 5 resources"@
    } else if j == 1 {
        "spend 5 influence"@
    } else if j == 2 {
        "spend 3 trade goods"@
    } else if j == 3 {
        "discard 2 action cards"@
    } else if j == 4 {
        "discard 1 unscored secret objective"@
    } else {
        "exhaust 1 technology specialty planet"@
    }
}

fn slice_at(j: usize) -> (slice: (&'static str, &'static str))
    requires
        j < SLICE_COUNT,
    ensures
        slice.0@ == slice_name(j as int),
        slice.1@ == slice_label(j as int),
{
    if j == 0 {
        ("resources", "spend 5 resources")
    } else if j == 1 {
        ("influence", "spend 5 influence")
    } else if j == 2 {
        ("trade_goods", "spend 3 trade goods")
    } else if j == 3 {
        ("action_cards", "discard 2 action cards")
    } else if j == 4 {
        ("secret", "discard 1 unscored secret objective")
    } else {
        ("tech_planet", "exhaust 1 technology specialty planet")
    }
}

/// The resources or influence a slice costs.
pub const PRODUCTION_COST: i64 = 5;
/// The trade goods a slice costs.
pub const TRADE_GOODS_COST: i32 = 3;
/// The action cards a slice costs.
pub const ACTION_CARDS_COST: u8 = 2;

/// What a player can spend now, as the payment rules count it: resources and influence.
#[derive(Debug, Clone, Copy, PartialEq, Eq)]
pub struct Spendable {
    pub resources: i64,
    pub influence: i64,
}

/// Whether a slice has been claimed.
pub open spec fn is_claimed(state: GameState, slice: Seq<char>) -> bool {
    exists|k: int| 0 <= k < state.expedition_slices@.len() && #[trigger] state.expedition_slices@[k].0@ == slice
}

fn claimed(state: &GameState, slice: &str) -> (found: bool)
    ensures
        found == is_claimed(*state, slice@),
{
    let mut k: usize = 0;
    while k < state.expedition_slices.len()
        invariant
            k <= state.expedition_slices@.len(),
            forall|m: int| 0 <= m < k ==> (#[trigger] state.expedition_slices@[m]).0@ != slice@,
        decreases state.expedition_slices@.len() - k,
    {
        if str_eq(state.expedition_slices[k].0.as_str(), slice) {
            return true;
        }
        k = k + 1;
    }
    false
}

/// Whether a player can pay for the slice at a position.
pub open spec fn can_pay(state: GameState, planets: Seq<PlanetRecord>, player: Seq<char>, j: int, spend: Spendable) -> bool {
    let i = seat_of(state.players@, player);
    let seat = state.players@[i];
    i >= 0 && if j == 0 {
        spend.resources >= PRODUCTION_COST
    } else if j == 1 {
        spend.influence >= PRODUCTION_COST
    } else if j == 2 {
        seat.trade_goods >= TRADE_GOODS_COST
    } else if j == 3 {
        seat.action_cards@.len() >= ACTION_CARDS_COST
    } else if j == 4 {
        seat.secret_objectives@.len() > 0
    } else {
        convertible(state, planets, player).len() > 0
    }
}

fn payable(state: &GameState, planets: &Vec<PlanetRecord>, player: &str, j: usize, spend: Spendable) -> (yes: bool)
    requires
        j < SLICE_COUNT,
    ensures
        yes == can_pay(*state, planets@, player@, j as int, spend),
{
    let i = match find_seat(&state.players, player) {
        Some(i) => i,
        None => return false,
    };
    let seat = &state.players[i];
    if j == 0 {
        spend.resources >= PRODUCTION_COST
    } else if j == 1 {
        spend.influence >= PRODUCTION_COST
    } else if j == 2 {
        seat.trade_goods >= TRADE_GOODS_COST
    } else if j == 3 {
        seat.action_cards.len() >= ACTION_CARDS_COST as usize
    } else if j == 4 {
        seat.secret_objectives.len() > 0
    } else {
        crate::tech_windows::conversion_candidates(state, planets, player).len() > 0
    }
}

/// The positions of the slices a player can claim now: unclaimed and payable, in order.
pub open spec fn open_slices(state: GameState, planets: Seq<PlanetRecord>, player: Seq<char>, spend: Spendable, n: int) -> Seq<int>
    decreases n,
{
    if n <= 0 {
        Seq::empty()
    } else {
        let rest = open_slices(state, planets, player, spend, n - 1);
        if !is_claimed(state, slice_name(n - 1)) && can_pay(state, planets, player, n - 1, spend) {
            rest.push(n - 1)
        } else {
            rest
        }
    }
}

/// The option that claims a slice.
pub open spec fn slice_view(j: int) -> OptionView {
    OptionView { id: "component|expedition|"@ + slice_name(j), kind: "component"@, label: "Thunder's Edge expedition: "@ + slice_label(j) }
}

/// The facts a slice option carries.
pub open spec fn slice_payload(j: int) -> Seq<(Seq<char>, ValueView)> {
    seq![("slice"@, ValueView::Text(slice_name(j))), ("grants_breakthrough"@, ValueView::Bool(true))]
}

/// The expedition slices a player can claim now, as component actions. None unless Thunder's
/// Edge is in play. A player may claim several slices in a game, whether or not they hold
/// their breakthrough: every claim counts toward placing the infantry.
pub fn available_actions(state: &GameState, planets: &Vec<PlanetRecord>, in_play: bool, player: &str, spend: Spendable) -> (options: Vec<ChoiceOption>)
    ensures
        !in_play ==> options@.len() == 0,
        in_play ==> option_views(options@) == open_slices(*state, planets@, player@, spend, SLICE_COUNT as int).map_values(|j: int| slice_view(j)),
        in_play ==> forall|k: int| 0 <= k < options@.len() ==> payload_view(&#[trigger] options@[k]) == slice_payload(
            open_slices(*state, planets@, player@, spend, SLICE_COUNT as int)[k],
        ),
{
    let mut options: Vec<ChoiceOption> = Vec::new();
    if !in_play {
        return options;
    }
    let mut j: usize = 0;
    while j < SLICE_COUNT
        invariant
            j <= SLICE_COUNT,
            option_views(options@) == open_slices(*state, planets@, player@, spend, j as int).map_values(|x: int| slice_view(x)),
            forall|k: int| 0 <= k < options@.len() ==> payload_view(&#[trigger] options@[k]) == slice_payload(
                open_slices(*state, planets@, player@, spend, j as int)[k],
            ),
        decreases SLICE_COUNT - j,
    {
        let (slice, label) = slice_at(j);
        if !claimed(state, slice) && payable(state, planets, player, j, spend) {
            let id = "component|expedition|".to_string().concat(slice);
            let text = "Thunder's Edge expedition: ".to_string().concat(label);
            let option = ChoiceOption::labelled(id.as_str(), "component", text.as_str())
                .with("slice", Value::Text(slice.to_string()))
                .with("grants_breakthrough", Value::Bool(true));
            assert(payload_view(&option) =~= slice_payload(j as int));
            let ghost was = option_views(options@);
            options.push(option);
            assert(option_views(options@) =~= was.push(slice_view(j as int)));
        }
        j = j + 1;
    }
    options
}

/// The option that discards the action card at a place in the hand, labelled with its name.
pub open spec fn discard_view(card_names: Seq<(String, String)>, hand: Seq<Seq<char>>, k: int) -> OptionView {
    OptionView { id: decimal(k), kind: "discard"@, label: label_of(card_names, hand[k]) }
}

/// The options of an action-card discard: one per card in hand, by place.
pub open spec fn discard_views(card_names: Seq<(String, String)>, hand: Seq<Seq<char>>) -> Seq<OptionView> {
    Seq::new(hand.len(), |k: int| discard_view(card_names, hand, k))
}

/// The prompt of the action-card discard.
pub const DISCARD_PROMPT: &'static str = "discard an action card for the expedition";

/// Whether a choice is the action-card discard a player faces.
pub open spec fn is_discard_choice(c: Choice, state: GameState, card_names: Seq<(String, String)>, player: Seq<char>) -> bool {
    let i = seat_of(state.players@, player);
    &&& i >= 0
    &&& c.player@ == player
    &&& c.prompt@ == DISCARD_PROMPT@
    &&& option_views(c.options@) == discard_views(card_names, names(state.players@[i].action_cards@))
}

fn discard_choice_at(state: &GameState, card_names: &Vec<(String, String)>, player: &str, i: usize) -> (choice: Choice)
    requires
        i < state.players@.len(),
        seat_of(state.players@, player@) == i,
    ensures
        is_discard_choice(choice, *state, card_names@, player@),
{
    let hand = &state.players[i].action_cards;
    let ghost views = discard_views(card_names@, names(hand@));
    let mut options: Vec<ChoiceOption> = Vec::new();
    let n = hand.len();
    let mut k: usize = 0;
    while k < n
        invariant
            k <= hand@.len(),
            n == hand@.len(),
            views == discard_views(card_names@, names(hand@)),
            option_views(options@) == views.subrange(0, k as int),
        decreases n - k,
    {
        let id = decimal_string_u64(k as u64);
        let label = label_for(card_names, hand[k].as_str());
        let ghost was = option_views(options@);
        options.push(ChoiceOption::labelled(id.as_str(), "discard", label.as_str()));
        assert(option_views(options@) =~= was.push(discard_view(card_names@, names(hand@), k as int)));
        assert(views.subrange(0, k + 1) =~= views.subrange(0, k as int).push(views[k as int]));
        k = k + 1;
    }
    assert(views.subrange(0, k as int) =~= views);
    Choice::new(player, DISCARD_PROMPT, options)
}

/// The option that returns a secret objective, labelled with its name.
pub open spec fn secret_view(secret_names: Seq<(String, String)>, secret: Seq<char>) -> OptionView {
    OptionView { id: secret, kind: "return"@, label: label_of(secret_names, secret) }
}

/// The prompt of the secret discard.
pub const SECRET_PROMPT: &'static str = "discard a secret objective for the expedition";

/// Whether a choice is the secret discard a player faces.
pub open spec fn is_secret_choice(c: Choice, state: GameState, secret_names: Seq<(String, String)>, player: Seq<char>) -> bool {
    let i = seat_of(state.players@, player);
    &&& i >= 0
    &&& c.player@ == player
    &&& c.prompt@ == SECRET_PROMPT@
    &&& option_views(c.options@) == names(state.players@[i].secret_objectives@).map_values(|x: Seq<char>| secret_view(secret_names, x))
}

fn secret_choice_at(state: &GameState, secret_names: &Vec<(String, String)>, player: &str, i: usize) -> (choice: Choice)
    requires
        i < state.players@.len(),
        seat_of(state.players@, player@) == i,
    ensures
        is_secret_choice(choice, *state, secret_names@, player@),
{
    let held = &state.players[i].secret_objectives;
    let ghost views = names(held@).map_values(|x: Seq<char>| secret_view(secret_names@, x));
    let mut options: Vec<ChoiceOption> = Vec::new();
    let mut k: usize = 0;
    while k < held.len()
        invariant
            k <= held@.len(),
            views == names(held@).map_values(|x: Seq<char>| secret_view(secret_names@, x)),
            option_views(options@) == views.subrange(0, k as int),
        decreases held@.len() - k,
    {
        let label = label_for(secret_names, held[k].as_str());
        let ghost was = option_views(options@);
        options.push(ChoiceOption::labelled(held[k].as_str(), "return", label.as_str()));
        assert(option_views(options@) =~= was.push(secret_view(secret_names@, held@[k as int]@)));
        assert(views.subrange(0, k + 1) =~= views.subrange(0, k as int).push(views[k as int]));
        k = k + 1;
    }
    assert(views.subrange(0, k as int) =~= views);
    Choice::new(player, SECRET_PROMPT, options)
}

/// The table after the seat at `i` discards the action card at place `k` of its hand.
pub open spec fn discarded_card(before: GameState, after: GameState, i: int, k: int) -> bool {
    &&& after.players@ == before.players@.update(i, Seat { action_cards: after.players@[i].action_cards, ..before.players@[i] })
    &&& after.players@[i].action_cards@ == before.players@[i].action_cards@.remove(k)
    &&& after == (GameState { players: after.players, ..before })
}

fn discard_card(state: &mut GameState, i: usize, k: usize)
    requires
        i < old(state).players@.len(),
        k < old(state).players@[i as int].action_cards@.len(),
    ensures
        discarded_card(*old(state), *final(state), i as int, k as int),
{
    let ghost before = *state;
    let mut seat = state.players.remove(i);
    seat.action_cards.remove(k);
    state.players.insert(i, seat);
    assert(state.players@ =~= before.players@.update(
        i as int,
        Seat { action_cards: state.players@[i as int].action_cards, ..before.players@[i as int] },
    ));
}

/// The table and the secret deck after the seat at `i` returns the secret at place `k` of its
/// hand to the deck.
pub open spec fn returned_secret(before: GameState, after: GameState, deck: Seq<String>, rest: Seq<String>, i: int, k: int) -> bool {
    &&& after.players@ == before.players@.update(i, Seat { secret_objectives: after.players@[i].secret_objectives, ..before.players@[i] })
    &&& after.players@[i].secret_objectives@ == before.players@[i].secret_objectives@.remove(k)
    &&& rest == deck.push(before.players@[i].secret_objectives@[k])
    &&& after == (GameState { players: after.players, ..before })
}

fn return_secret(state: &mut GameState, deck: &mut Vec<String>, i: usize, k: usize)
    requires
        i < old(state).players@.len(),
        k < old(state).players@[i as int].secret_objectives@.len(),
    ensures
        returned_secret(*old(state), *final(state), old(deck)@, final(deck)@, i as int, k as int),
{
    let ghost before = *state;
    let mut seat = state.players.remove(i);
    let secret = seat.secret_objectives.remove(k);
    deck.push(secret);
    state.players.insert(i, seat);
    assert(state.players@ =~= before.players@.update(
        i as int,
        Seat { secret_objectives: state.players@[i as int].secret_objectives, ..before.players@[i as int] },
    ));
}

/// Where a slice stands among the six, by its name; `-1` for a name that is no slice.
pub open spec fn slice_index(name: Seq<char>) -> int {
    if name == slice_name(0) {
        0
    } else if name == slice_name(1) {
        1
    } else if name == slice_name(2) {
        2
    } else if name == slice_name(3) {
        3
    } else if name == slice_name(4) {
        4
    } else if name == slice_name(5) {
        5
    } else {
        -1
    }
}

fn find_slice(name: &str) -> (found: Option<usize>)
    ensures
        match found {
            Some(j) => j < SLICE_COUNT && slice_index(name@) == j,
            None => slice_index(name@) == -1,
        },
{
    if str_eq(name, "resources") {
        Some(0)
    } else if str_eq(name, "influence") {
        Some(1)
    } else if str_eq(name, "trade_goods") {
        Some(2)
    } else if str_eq(name, "action_cards") {
        Some(3)
    } else if str_eq(name, "secret") {
        Some(4)
    } else if str_eq(name, "tech_planet") {
        Some(5)
    } else {
        None
    }
}

/// How far the payment for one slice has got.
#[derive(Debug, Clone, Copy, PartialEq, Eq, Structural)]
pub enum PaymentStage {
    /// Five resources or five influence, paid through the production payment, which the driver
    /// runs and then reports.
    Production,
    /// Action cards still to discard.
    Discards(u8),
    /// One secret objective still to return to the deck.
    Secret,
    /// Settled: whether the printed cost was paid.
    Settled(bool),
}

/// The payment of one expedition slice's printed cost, one decision at a time.
#[derive(Debug)]
pub struct ExpeditionPayment {
    player: String,
    slice: usize,
    stage: PaymentStage,
}

/// What a payment holds, as plain values.
pub struct PaymentView {
    pub player: Seq<char>,
    pub slice: int,
    pub stage: PaymentStage,
}

impl View for ExpeditionPayment {
    type V = PaymentView;

    closed spec fn view(&self) -> PaymentView {
        PaymentView { player: self.player@, slice: self.slice as int, stage: self.stage }
    }
}

/// The table after the seat at `i` pays three trade goods.
pub open spec fn paid_trade_goods(before: GameState, after: GameState, i: int) -> bool {
    &&& after.players@ == before.players@.update(
        i,
        Seat { trade_goods: (before.players@[i].trade_goods - TRADE_GOODS_COST) as i32, ..before.players@[i] },
    )
    &&& after == (GameState { players: after.players, ..before })
}

/// The table after the planet is exhausted.
pub open spec fn exhausted_planet(before: GameState, after: GameState, planet: Seq<char>) -> bool {
    &&& names(after.exhausted_planets@) == names(before.exhausted_planets@).push(planet)
    &&& after == (GameState { exhausted_planets: after.exhausted_planets, ..before })
}

/// The steps that need no decision, taken as soon as they come up: the last action card to
/// discard when only one is in hand, and the secret to return when only one is held.
pub open spec fn payment_settled(
    w0: PaymentView,
    s0: GameState,
    d0: Seq<String>,
    w1: PaymentView,
    s1: GameState,
    d1: Seq<String>,
) -> bool {
    let i = seat_of(s0.players@, w0.player);
    match w0.stage {
        PaymentStage::Discards(n) if n > 0 && i >= 0 && s0.players@[i].action_cards@.len() == 1 => {
            &&& discarded_card(s0, s1, i, 0)
            &&& d1 == d0
            &&& w1 == (PaymentView {
                stage: if n == 1 { PaymentStage::Settled(true) } else { PaymentStage::Discards((n - 1) as u8) },
                ..w0
            })
        },
        PaymentStage::Secret if i >= 0 && s0.players@[i].secret_objectives@.len() == 1 => {
            &&& returned_secret(s0, s1, d0, d1, i, 0)
            &&& w1 == (PaymentView { stage: PaymentStage::Settled(true), ..w0 })
        },
        _ => w1 == w0 && s1 == s0 && d1 == d0,
    }
}

/// The payment as it opens, before the steps that need no decision: nothing paid when the
/// name is no slice or the player cannot pay it; three trade goods or the first ready
/// specialty planet paid at once; otherwise the decisions or the production payment owed.
pub open spec fn payment_opened(
    s0: GameState,
    planets: Seq<PlanetRecord>,
    player: Seq<char>,
    slice: Seq<char>,
    spend: Spendable,
    w: PaymentView,
    s1: GameState,
) -> bool {
    let j = slice_index(slice);
    &&& w.player == player
    &&& if j < 0 || !can_pay(s0, planets, player, j, spend) {
        &&& w.stage == PaymentStage::Settled(false)
        &&& s1 == s0
    } else {
        &&& w.slice == j
        &&& if j == 2 {
            &&& w.stage == PaymentStage::Settled(true)
            &&& paid_trade_goods(s0, s1, seat_of(s0.players@, player))
        } else if j == 5 {
            &&& w.stage == PaymentStage::Settled(true)
            &&& exhausted_planet(s0, s1, convertible(s0, planets, player)[0])
        } else {
            &&& s1 == s0
            &&& w.stage == if j == 3 {
                PaymentStage::Discards(ACTION_CARDS_COST)
            } else if j == 4 {
                PaymentStage::Secret
            } else {
                PaymentStage::Production
            }
        }
    }
}

impl ExpeditionPayment {
    pub open spec fn wf(&self) -> bool {
        0 <= self@.slice < SLICE_COUNT
    }

    /// Start paying for a slice. A name that is no slice, or a cost the player cannot pay,
    /// settles unpaid and changes nothing; trade goods and a specialty planet are paid at once;
    /// a lone card or secret is given up without asking.
    pub fn open(
        state: &mut GameState,
        deck: &mut Vec<String>,
        planets: &Vec<PlanetRecord>,
        player: &str,
        slice: &str,
        spend: Spendable,
    ) -> (w: Self)
        ensures
            w.wf(),
            exists|v: PaymentView, s: GameState| #[trigger] payment_opened(*old(state), planets@, player@, slice@, spend, v, s)
                && payment_settled(v, s, old(deck)@, w@, *final(state), final(deck)@),
    {
        let ghost s0 = *state;
        let ghost d0 = deck@;
        let (j, stage) = match find_slice(slice) {
            Some(j) => {
                if !payable(state, planets, player, j, spend) {
                    (0, PaymentStage::Settled(false))
                } else if j == 2 {
                    let i = find_seat(&state.players, player).unwrap();
                    let mut seat = state.players.remove(i);
                    seat.trade_goods = seat.trade_goods - TRADE_GOODS_COST;
                    state.players.insert(i, seat);
                    assert(state.players@ =~= s0.players@.update(
                        i as int,
                        Seat { trade_goods: (s0.players@[i as int].trade_goods - TRADE_GOODS_COST) as i32, ..s0.players@[i as int] },
                    ));
                    (j, PaymentStage::Settled(true))
                } else if j == 5 {
                    let ready = crate::tech_windows::conversion_candidates(state, planets, player);
                    let planet = ready[0].clone();
                    state.exhausted_planets.push(planet);
                    assert(names(state.exhausted_planets@) =~= names(s0.exhausted_planets@).push(
                        convertible(s0, planets@, player@)[0],
                    ));
                    (j, PaymentStage::Settled(true))
                } else if j == 3 {
                    (j, PaymentStage::Discards(ACTION_CARDS_COST))
                } else if j == 4 {
                    (j, PaymentStage::Secret)
                } else {
                    (j, PaymentStage::Production)
                }
            },
            None => (0, PaymentStage::Settled(false)),
        };
        let mut w = ExpeditionPayment { player: player.to_string(), slice: j, stage };
        let ghost v = w@;
        let ghost s = *state;
        assert(payment_opened(s0, planets@, player@, slice@, spend, v, s));
        w.settle(state, deck);
        w
    }

    fn settle(&mut self, state: &mut GameState, deck: &mut Vec<String>)
        requires
            old(self).wf(),
        ensures
            final(self).wf(),
            payment_settled(old(self)@, *old(state), old(deck)@, final(self)@, *final(state), final(deck)@),
    {
        let i = match find_seat(&state.players, self.player.as_str()) {
            Some(i) => i,
            None => return,
        };
        match self.stage {
            PaymentStage::Discards(n) => {
                if n > 0 && state.players[i].action_cards.len() == 1 {
                    discard_card(state, i, 0);
                    self.stage = if n == 1 { PaymentStage::Settled(true) } else { PaymentStage::Discards(n - 1) };
                }
            },
            PaymentStage::Secret => {
                if state.players[i].secret_objectives.len() == 1 {
                    return_secret(state, deck, i, 0);
                    self.stage = PaymentStage::Settled(true);
                }
            },
            _ => {},
        }
    }

    /// How far the payment has got.
    pub fn stage(&self) -> (stage: PaymentStage)
        ensures
            stage == self@.stage,
    {
        self.stage
    }

    /// The production payment owed, when the slice is paid in resources or influence: the
    /// amount, and whether it is influence.
    pub fn production_owed(&self) -> (owed: Option<(i64, bool)>)
        ensures
            owed == if self@.stage == PaymentStage::Production {
                Some((PRODUCTION_COST, self@.slice == 1))
            } else {
                None
            },
    {
        match self.stage {
            PaymentStage::Production => Some((PRODUCTION_COST, self.slice == 1)),
            _ => None,
        }
    }

    /// The driver reports how the production payment went.
    pub fn production_paid(&mut self, paid: bool)
        ensures
            final(self)@ == if old(self)@.stage == PaymentStage::Production {
                PaymentView { stage: PaymentStage::Settled(paid), ..old(self)@ }
            } else {
                old(self)@
            },
    {
        if self.stage == PaymentStage::Production {
            self.stage = PaymentStage::Settled(paid);
        }
    }

    /// The decision the payment waits on: which action card to discard, or which secret
    /// objective to return.
    pub fn pending_choice(
        &self,
        state: &GameState,
        card_names: &Vec<(String, String)>,
        secret_names: &Vec<(String, String)>,
    ) -> (choice: Option<Choice>)
        ensures
            ({
                let i = seat_of(state.players@, self@.player);
                match self@.stage {
                    PaymentStage::Discards(n) if n > 0 && i >= 0 => choice matches Some(c)
                        && is_discard_choice(c, *state, card_names@, self@.player),
                    PaymentStage::Secret if i >= 0 => choice matches Some(c)
                        && is_secret_choice(c, *state, secret_names@, self@.player),
                    _ => choice is None,
                }
            }),
    {
        let i = match find_seat(&state.players, self.player.as_str()) {
            Some(i) => i,
            None => return None,
        };
        match self.stage {
            PaymentStage::Discards(n) => if n > 0 {
                Some(discard_choice_at(state, card_names, self.player.as_str(), i))
            } else {
                None
            },
            PaymentStage::Secret => Some(secret_choice_at(state, secret_names, self.player.as_str(), i)),
            _ => None,
        }
    }

    /// Answer the decision the payment waits on. An answer that names no offered option, or
    /// one given when nothing is asked, changes nothing; otherwise the named card is discarded
    /// or the named secret goes to the bottom of the deck, and a lone last card is then
    /// discarded without asking.
    pub fn take_choice(
        &mut self,
        state: &mut GameState,
        deck: &mut Vec<String>,
        card_names: &Vec<(String, String)>,
        secret_names: &Vec<(String, String)>,
        answer: ChoiceOption,
    ) -> (result: Result<(), IllegalChoice>)
        requires
            old(self).wf(),
        ensures
            final(self).wf(),
            ({
                let i = seat_of(old(state).players@, old(self)@.player);
                let hand = names(old(state).players@[i].action_cards@);
                let held = names(old(state).players@[i].secret_objectives@);
                match result {
                    Err(illegal) => {
                        &&& *final(self) == *old(self)
                        &&& *final(state) == *old(state)
                        &&& final(deck)@ == old(deck)@
                        &&& illegal.player@ == old(self)@.player
                        &&& illegal.answered@ == answer@.id
                        &&& (old(self)@.stage matches PaymentStage::Discards(n) && n > 0 && i >= 0
                            ==> none_answered(discard_views(card_names@, hand), answer@))
                        &&& (old(self)@.stage is Secret && i >= 0 ==> none_answered(
                            held.map_values(|x: Seq<char>| secret_view(secret_names@, x)), answer@))
                    },
                    Ok(()) => exists|k: int, w: PaymentView, s: GameState, d: Seq<String>|
                        #[trigger] payment_answered(old(self)@, *old(state), old(deck)@, card_names@, secret_names@, answer@, k, w, s, d)
                        && payment_settled(w, s, d, final(self)@, *final(state), final(deck)@),
                }
            }),
    {
        let choice = match self.pending_choice(state, card_names, secret_names) {
            Some(choice) => choice,
            None => {
                return Err(IllegalChoice { player: self.player.clone(), answered: answer.id });
            },
        };
        let k = match answered_index(&choice, &answer) {
            Some(k) => k,
            None => {
                return Err(IllegalChoice { player: choice.player, answered: answer.id });
            },
        };
        let i = find_seat(&state.players, self.player.as_str()).unwrap();
        let ghost w0 = self@;
        let ghost s0 = *state;
        let ghost d0 = deck@;
        match self.stage {
            PaymentStage::Discards(n) => {
                discard_card(state, i, k);
                self.stage = if n <= 1 { PaymentStage::Settled(true) } else { PaymentStage::Discards(n - 1) };
            },
            _ => {
                return_secret(state, deck, i, k);
                self.stage = PaymentStage::Settled(true);
            },
        }
        let ghost w = self@;
        let ghost s = *state;
        let ghost d = deck@;
        assert(payment_answered(w0, s0, d0, card_names@, secret_names@, answer@, k as int, w, s, d));
        self.settle(state, deck);
        Ok(())
    }
}

/// The answered decision applied: the card at place `k` discarded, or the secret at place `k`
/// returned to the bottom of the deck, where `k` is the first option the answer names.
pub open spec fn payment_answered(
    w0: PaymentView,
    s0: GameState,
    d0: Seq<String>,
    card_names: Seq<(String, String)>,
    secret_names: Seq<(String, String)>,
    answer: OptionView,
    k: int,
    w1: PaymentView,
    s1: GameState,
    d1: Seq<String>,
) -> bool {
    let i = seat_of(s0.players@, w0.player);
    &&& i >= 0
    &&& match w0.stage {
        PaymentStage::Discards(n) => {
            &&& n > 0
            &&& first_answered(discard_views(card_names, names(s0.players@[i].action_cards@)), k, answer)
            &&& discarded_card(s0, s1, i, k)
            &&& d1 == d0
            &&& w1 == (PaymentView {
                stage: if n == 1 { PaymentStage::Settled(true) } else { PaymentStage::Discards((n - 1) as u8) },
                ..w0
            })
        },
        PaymentStage::Secret => {
            &&& first_answered(
                names(s0.players@[i].secret_objectives@).map_values(|x: Seq<char>| secret_view(secret_names, x)),
                k,
                answer,
            )
            &&& returned_secret(s0, s1, d0, d1, i, k)
            &&& w1 == (PaymentView { stage: PaymentStage::Settled(true), ..w0 })
        },
        _ => false,
    }
}

/// The breakthrough of a faction: the first `(faction, breakthrough)` entry for it among the
/// first `n`.
pub open spec fn breakthrough_of(breakthroughs: Seq<(String, String)>, faction: Seq<char>, n: int) -> Option<Seq<char>>
    decreases n,
{
    if n <= 0 {
        None
    } else {
        let earlier = breakthrough_of(breakthroughs, faction, n - 1);
        if earlier is Some {
            earlier
        } else if breakthroughs[n - 1].0@ == faction {
            Some(breakthroughs[n - 1].1@)
        } else {
            None
        }
    }
}

fn find_breakthrough(breakthroughs: &Vec<(String, String)>, faction: &str) -> (found: Option<String>)
    ensures
        match found {
            Some(b) => breakthrough_of(breakthroughs@, faction@, breakthroughs@.len() as int) == Some(b@),
            None => breakthrough_of(breakthroughs@, faction@, breakthroughs@.len() as int) is None,
        },
{
    let mut k: usize = 0;
    while k < breakthroughs.len()
        invariant
            k <= breakthroughs@.len(),
            breakthrough_of(breakthroughs@, faction@, k as int) is None,
        decreases breakthroughs@.len() - k,
    {
        if str_eq(breakthroughs[k].0.as_str(), faction) {
            let found = breakthroughs[k].1.clone();
            proof {
                assert(breakthrough_of(breakthroughs@, faction@, k + 1) == Some(found@));
                lemma_breakthrough_found(breakthroughs@, faction@, k + 1, breakthroughs@.len() as int);
            }
            return Some(found);
        }
        k = k + 1;
    }
    None
}

proof fn lemma_breakthrough_found(breakthroughs: Seq<(String, String)>, faction: Seq<char>, m: int, n: int)
    requires
        0 <= m <= n,
        breakthrough_of(breakthroughs, faction, m) is Some,
    ensures
        breakthrough_of(breakthroughs, faction, n) == breakthrough_of(breakthroughs, faction, m),
    decreases n - m,
{
    if n > m {
        lemma_breakthrough_found(breakthroughs, faction, m, n - 1);
    }
}

/// Whether a player has claimed any slice.
pub open spec fn has_claimed(state: GameState, player: Seq<char>) -> bool {
    exists|k: int| 0 <= k < state.expedition_slices@.len() && #[trigger] state.expedition_slices@[k].1@ == player
}

fn claimed_any(state: &GameState, player: &str) -> (found: bool)
    ensures
        found == has_claimed(*state, player@),
{
    let mut k: usize = 0;
    while k < state.expedition_slices.len()
        invariant
            k <= state.expedition_slices@.len(),
            forall|m: int| 0 <= m < k ==> (#[trigger] state.expedition_slices@[m]).1@ != player@,
        decreases state.expedition_slices@.len() - k,
    {
        if str_eq(state.expedition_slices[k].1.as_str(), player) {
            return true;
        }
        k = k + 1;
    }
    false
}

/// The table after a paid slice is claimed: the claim recorded, and on the player's first
/// claim the breakthrough of their faction, when there is one, given to their seat.
pub open spec fn claimed_slice(
    before: GameState,
    after: GameState,
    breakthroughs: Seq<(String, String)>,
    player: Seq<char>,
    slice: Seq<char>,
) -> bool {
    let i = seat_of(before.players@, player);
    let gained = if !has_claimed(before, player) && i >= 0 {
        breakthrough_of(breakthroughs, before.players@[i].faction@, breakthroughs.len() as int)
    } else {
        None
    };
    &&& pair_names(after.expedition_slices@) == pair_names(before.expedition_slices@).push((slice, player))
    &&& match gained {
        Some(b) => {
            &&& after.players@.len() == before.players@.len()
            &&& after.players@[i] == (Seat { breakthrough: after.players@[i].breakthrough, ..before.players@[i] })
            &&& after.players@[i].breakthrough matches Some(x) && x@ == b
            &&& forall|k: int| 0 <= k < before.players@.len() && k != i ==> after.players@[k] == before.players@[k]
        },
        None => after.players@ == before.players@,
    }
    &&& after == (GameState { expedition_slices: after.expedition_slices, players: after.players, ..before })
}

/// Claim a paid slice, gaining the faction breakthrough on the player's first claim. A slice
/// already claimed stays with its owner and nothing changes. Whether all six are now claimed,
/// which puts Thunder's Edge on the board.
pub fn claim(state: &mut GameState, breakthroughs: &Vec<(String, String)>, player: &str, slice: &str) -> (complete: bool)
    ensures
        is_claimed(*old(state), slice@) ==> *final(state) == *old(state),
        !is_claimed(*old(state), slice@) ==> claimed_slice(*old(state), *final(state), breakthroughs@, player@, slice@),
        complete == (final(state).expedition_slices@.len() == SLICE_COUNT),
{
    if claimed(state, slice) {
        return state.expedition_slices.len() == SLICE_COUNT;
    }
    let ghost before = *state;
    let first = !claimed_any(state, player);
    state.expedition_slices.push((slice.to_string(), player.to_string()));
    assert(pair_names(state.expedition_slices@) =~= pair_names(before.expedition_slices@).push((slice@, player@)));
    if first {
        match find_seat(&state.players, player) {
            Some(i) => {
                let found = find_breakthrough(breakthroughs, state.players[i].faction.as_str());
                match found {
                    Some(b) => {
                        let mut seat = state.players.remove(i);
                        seat.breakthrough = Some(b);
                        state.players.insert(i, seat);
                    },
                    None => {},
                }
            },
            None => {},
        }
    }
    state.expedition_slices.len() == SLICE_COUNT
}

/// How many of the first `n` claimed slices a player holds.
pub open spec fn claims_of(slices: Seq<(String, String)>, player: Seq<char>, n: int) -> int
    decreases n,
{
    if n <= 0 {
        0
    } else {
        claims_of(slices, player, n - 1) + if slices[n - 1].1@ == player { 1int } else { 0 }
    }
}

/// The most slices any claimant among the first `n` holds.
pub open spec fn most_claims(slices: Seq<(String, String)>, n: int) -> int
    decreases n,
{
    if n <= 0 {
        0
    } else {
        let c = claims_of(slices, slices[n - 1].1@, slices.len() as int);
        let m = most_claims(slices, n - 1);
        if c > m { c } else { m }
    }
}

/// The claimants tied for the most slices.
pub open spec fn tied_claimants(state: GameState) -> Set<Seq<char>> {
    let slices = state.expedition_slices@;
    Set::new(|p: Seq<char>| exists|k: int| 0 <= k < slices.len() && slices[k].1@ == p
        && claims_of(slices, p, slices.len() as int) == most_claims(slices, slices.len() as int))
}

fn count_claims(slices: &Vec<(String, String)>, player: &str) -> (count: usize)
    ensures
        count == claims_of(slices@, player@, slices@.len() as int),
{
    let mut count: usize = 0;
    let mut k: usize = 0;
    while k < slices.len()
        invariant
            k <= slices@.len(),
            count == claims_of(slices@, player@, k as int),
            count <= k,
        decreases slices@.len() - k,
    {
        if str_eq(slices[k].1.as_str(), player) {
            count = count + 1;
        }
        k = k + 1;
    }
    count
}

/// The claimants tied for the most slices, sorted, each once: among them the infantry's placer.
pub fn tied_placers(state: &GameState) -> (tied: Vec<String>)
    ensures
        crate::strategy_cards::sorted_set(names(tied@), tied_claimants(*state)),
{
    let slices = &state.expedition_slices;
    let n = slices.len();
    let mut most: usize = 0;
    let mut k: usize = 0;
    while k < n
        invariant
            n == slices@.len(),
            k <= n,
            most == most_claims(slices@, k as int),
        decreases n - k,
    {
        let c = count_claims(slices, slices[k].1.as_str());
        if c > most {
            most = c;
        }
        k = k + 1;
    }
    let mut tied: Vec<String> = Vec::new();
    let mut j: usize = 0;
    while j < n
        invariant
            n == slices@.len(),
            j <= n,
            most == most_claims(slices@, n as int),
            crate::technology::sorted_names(names(tied@)),
            names(tied@).no_duplicates(),
            forall|y: Seq<char>| names(tied@).contains(y) <==> (exists|i: int| 0 <= i < j && #[trigger] slices@[i].1@ == y
                && claims_of(slices@, y, n as int) == most),
        decreases n - j,
    {
        let owner = slices[j].1.as_str();
        let c = count_claims(slices, owner);
        let ghost was = names(tied@);
        if c == most {
            crate::strategy_cards::add_sorted_distinct(&mut tied, owner);
        }
        proof {
            assert forall|y: Seq<char>| names(tied@).contains(y) <==> (exists|i: int| 0 <= i < j + 1 && #[trigger] slices@[i].1@ == y
                && claims_of(slices@, y, n as int) == most) by {
                if names(tied@).contains(y) && !was.contains(y) {
                    assert(slices@[j as int].1@ == y);
                }
                if exists|i: int| 0 <= i < j + 1 && #[trigger] slices@[i].1@ == y && claims_of(slices@, y, n as int) == most {
                    let i = choose|i: int| 0 <= i < j + 1 && #[trigger] slices@[i].1@ == y && claims_of(slices@, y, n as int) == most;
                    if i < j {
                        assert(was.contains(y));
                    }
                }
            }
        }
        j = j + 1;
    }
    proof {
        assert(names(tied@).to_set() =~= tied_claimants(*state)) by {
            assert forall|y: Seq<char>| names(tied@).to_set().contains(y) <==> tied_claimants(*state).contains(y) by {
                if tied_claimants(*state).contains(y) {
                    let i = choose|i: int| 0 <= i < slices@.len() && slices@[i].1@ == y
                        && claims_of(slices@, y, slices@.len() as int) == most_claims(slices@, slices@.len() as int);
                    assert(slices@[i].1@ == y);
                }
            }
        }
    }
    tied
}

/// The planet Thunder's Edge becomes.
pub const THUNDERS_EDGE: &'static str = "thundersedge";

/// Where the first system with an id stands on the board, or -1.
pub open spec fn system_at(board: Seq<crate::state::SystemState>, id: Seq<char>, n: int) -> int
    decreases n,
{
    if n <= 0 {
        -1
    } else {
        let earlier = system_at(board, id, n - 1);
        if earlier >= 0 {
            earlier
        } else if board[n - 1].id@ == id {
            n - 1
        } else {
            -1
        }
    }
}

/// Where the first entry for a planet stands among `n` (planet, _) entries, or -1.
pub open spec fn entry_at<T>(entries: Seq<(String, T)>, planet: Seq<char>, n: int) -> int
    decreases n,
{
    if n <= 0 {
        -1
    } else {
        let earlier = entry_at(entries, planet, n - 1);
        if earlier >= 0 {
            earlier
        } else if entries[n - 1].0@ == planet {
            n - 1
        } else {
            -1
        }
    }
}

/// Whether units are `count` fresh infantry of one type and owner.
pub open spec fn fresh_infantry(units: Seq<crate::state::Unit>, unit_type: Seq<char>, owner: Seq<char>, count: int) -> bool {
    &&& units.len() == count
    &&& forall|i: int| 0 <= i < count ==> (#[trigger] units[i]).type_id@ == unit_type && units[i].owner@ == owner
        && !units[i].sustained_damage && !units[i].galvanized
}

/// The system Thunder's Edge lands in, after the landing: the placer's infantry on it, and
/// the planet under the placer's control unless someone already holds it.
pub open spec fn landed(
    before: crate::state::SystemState,
    after: crate::state::SystemState,
    placer: Seq<char>,
    unit_type: Seq<char>,
    count: int,
) -> bool {
    let p = entry_at(before.planet_units@, THUNDERS_EDGE@, before.planet_units@.len() as int);
    let held = entry_at(before.planet_control@, THUNDERS_EDGE@, before.planet_control@.len() as int) >= 0;
    &&& after == (crate::state::SystemState { planet_units: after.planet_units, planet_control: after.planet_control, ..before })
    &&& if p >= 0 {
        &&& after.planet_units@.len() == before.planet_units@.len()
        &&& forall|q: int| 0 <= q < before.planet_units@.len() && q != p ==> after.planet_units@[q] == before.planet_units@[q]
        &&& after.planet_units@[p].0 == before.planet_units@[p].0
        &&& after.planet_units@[p].1@.subrange(0, before.planet_units@[p].1@.len() as int) == before.planet_units@[p].1@
        &&& fresh_infantry(after.planet_units@[p].1@.skip(before.planet_units@[p].1@.len() as int), unit_type, placer, count)
    } else {
        &&& after.planet_units@.drop_last() == before.planet_units@
        &&& after.planet_units@.len() == before.planet_units@.len() + 1
        &&& after.planet_units@.last().0@ == THUNDERS_EDGE@
        &&& fresh_infantry(after.planet_units@.last().1@, unit_type, placer, count)
    }
    &&& if held {
        after.planet_control == before.planet_control
    } else {
        &&& pair_names(after.planet_control@) == pair_names(before.planet_control@).push((THUNDERS_EDGE@, placer))
    }
}

/// The table after Thunder's Edge is placed in a system with the placer's infantry on it.
pub open spec fn placed_thunders_edge(
    before: GameState,
    after: GameState,
    system: Seq<char>,
    placer: Seq<char>,
    unit_type: Seq<char>,
    count: int,
) -> bool {
    let b = system_at(before.board@, system, before.board@.len() as int);
    let n = before.board@.len();
    &&& after == (GameState {
        board: after.board,
        placed_planets: after.placed_planets,
        thunders_edge_system: after.thunders_edge_system,
        ..before
    })
    &&& pair_names(after.placed_planets@) == pair_names(before.placed_planets@).push((THUNDERS_EDGE@, system))
    &&& after.thunders_edge_system matches Some(s) && s@ == system
    &&& if b >= 0 {
        &&& after.board@.len() == n
        &&& forall|x: int| 0 <= x < n && x != b ==> after.board@[x] == before.board@[x]
        &&& landed(before.board@[b], after.board@[b], placer, unit_type, count)
    } else {
        &&& after.board@.len() == n + 1
        &&& after.board@.drop_last() == before.board@
        &&& after.board@[n as int].id@ == system
        &&& after.board@[n as int].units@.len() == 0
        &&& after.board@[n as int].command_tokens@.len() == 0
        &&& after.board@[n as int].planet_units@.len() == 1
        &&& after.board@[n as int].planet_units@[0].0@ == THUNDERS_EDGE@
        &&& fresh_infantry(after.board@[n as int].planet_units@[0].1@, unit_type, placer, count)
        &&& pair_names(after.board@[n as int].planet_control@) == seq![(THUNDERS_EDGE@, placer)]
    }
}

proof fn lemma_first_found<T>(entries: Seq<(String, T)>, planet: Seq<char>, m: int, n: int)
    requires
        0 <= m <= n,
        entry_at(entries, planet, m) >= 0,
    ensures
        entry_at(entries, planet, n) == entry_at(entries, planet, m),
    decreases n - m,
{
    if n > m {
        lemma_first_found(entries, planet, m, n - 1);
    }
}

/// A key some entry among the first `n` carries has a first entry there.
pub proof fn lemma_entry_absent<T>(entries: Seq<(String, T)>, planet: Seq<char>, n: int, j: int)
    requires
        0 <= j < n <= entries.len(),
        entries[j].0@ == planet,
    ensures
        entry_at(entries, planet, n) >= 0,
    decreases n,
{
    if j < n - 1 {
        lemma_entry_absent(entries, planet, n - 1, j);
    }
}

proof fn lemma_system_found(board: Seq<crate::state::SystemState>, id: Seq<char>, m: int, n: int)
    requires
        0 <= m <= n,
        system_at(board, id, m) >= 0,
    ensures
        system_at(board, id, n) == system_at(board, id, m),
    decreases n - m,
{
    if n > m {
        lemma_system_found(board, id, m, n - 1);
    }
}

pub(crate) fn find_entry<T>(entries: &Vec<(String, T)>, planet: &str) -> (at: Option<usize>)
    ensures
        match at {
            Some(p) => entry_at(entries@, planet@, entries@.len() as int) == p as int && p < entries@.len(),
            None => entry_at(entries@, planet@, entries@.len() as int) == -1,
        },
{
    let mut p: usize = 0;
    while p < entries.len()
        invariant
            p <= entries@.len(),
            entry_at(entries@, planet@, p as int) == -1,
        decreases entries@.len() - p,
    {
        if str_eq(entries[p].0.as_str(), planet) {
            proof {
                assert(entry_at(entries@, planet@, p + 1) == p as int);
                lemma_first_found(entries@, planet@, p + 1, entries@.len() as int);
            }
            return Some(p);
        }
        p = p + 1;
    }
    None
}

fn find_system(board: &Vec<crate::state::SystemState>, id: &str) -> (at: Option<usize>)
    ensures
        match at {
            Some(b) => system_at(board@, id@, board@.len() as int) == b as int && b < board@.len(),
            None => system_at(board@, id@, board@.len() as int) == -1,
        },
{
    let mut b: usize = 0;
    while b < board.len()
        invariant
            b <= board@.len(),
            system_at(board@, id@, b as int) == -1,
        decreases board@.len() - b,
    {
        if str_eq(board[b].id.as_str(), id) {
            proof {
                assert(system_at(board@, id@, b + 1) == b as int);
                lemma_system_found(board@, id@, b + 1, board@.len() as int);
            }
            return Some(b);
        }
        b = b + 1;
    }
    None
}

fn push_infantry(units: &mut Vec<crate::state::Unit>, unit_type: &str, owner: &str, count: usize)
    ensures
        final(units)@.subrange(0, old(units)@.len() as int) == old(units)@,
        fresh_infantry(final(units)@.skip(old(units)@.len() as int), unit_type@, owner@, count as int),
{
    let ghost start = units@;
    let mut k: usize = 0;
    while k < count
        invariant
            k <= count,
            units@.len() == start.len() + k,
            units@.subrange(0, start.len() as int) == start,
            fresh_infantry(units@.skip(start.len() as int), unit_type@, owner@, k as int),
        decreases count - k,
    {
        let ghost was = units@;
        units.push(crate::state::Unit {
            type_id: unit_type.to_string(),
            owner: owner.to_string(),
            sustained_damage: false,
            galvanized: false,
        });
        assert(units@.subrange(0, start.len() as int) =~= was.subrange(0, start.len() as int));
        assert(units@.skip(start.len() as int) =~= was.skip(start.len() as int).push(units@.last()));
        k = k + 1;
    }
}

fn land_on(system: &mut crate::state::SystemState, placer: &str, unit_type: &str, count: usize)
    ensures
        landed(*old(system), *final(system), placer@, unit_type@, count as int),
{
    let ghost before = *system;
    match find_entry(&system.planet_units, THUNDERS_EDGE) {
        Some(p) => {
            let mut entry = system.planet_units.remove(p);
            push_infantry(&mut entry.1, unit_type, placer, count);
            system.planet_units.insert(p, entry);
            assert forall|q: int| 0 <= q < before.planet_units@.len() && q != p implies system.planet_units@[q]
                == before.planet_units@[q] by {}
        },
        None => {
            let mut units: Vec<crate::state::Unit> = Vec::new();
            push_infantry(&mut units, unit_type, placer, count);
            assert(units@.skip(0) =~= units@);
            system.planet_units.push((THUNDERS_EDGE.to_string(), units));
            assert(system.planet_units@.drop_last() =~= before.planet_units@);
        },
    }
    if find_entry(&system.planet_control, THUNDERS_EDGE).is_none() {
        system.planet_control.push((THUNDERS_EDGE.to_string(), placer.to_string()));
        assert(pair_names(system.planet_control@) =~= pair_names(before.planet_control@).push((THUNDERS_EDGE@, placer@)));
    }
}

/// Put Thunder's Edge on the board in a system, and `count` of the placer's infantry on it.
/// The system joins the board if it is not on it yet; the planet comes under the placer's
/// control unless someone already holds it.
pub fn place_thunders_edge(state: &mut GameState, system: &str, placer: &str, unit_type: &str, count: usize)
    ensures
        placed_thunders_edge(*old(state), *final(state), system@, placer@, unit_type@, count as int),
{
    let ghost before = *state;
    state.placed_planets.push((THUNDERS_EDGE.to_string(), system.to_string()));
    assert(pair_names(state.placed_planets@) =~= pair_names(before.placed_planets@).push((THUNDERS_EDGE@, system@)));
    match find_system(&state.board, system) {
        Some(b) => {
            let mut here = state.board.remove(b);
            land_on(&mut here, placer, unit_type, count);
            state.board.insert(b, here);
            assert forall|x: int| 0 <= x < before.board@.len() && x != b implies state.board@[x] == before.board@[x] by {}
        },
        None => {
            let mut here = crate::state::SystemState {
                id: system.to_string(),
                units: Vec::new(),
                planet_units: Vec::new(),
                planet_control: Vec::new(),
                command_tokens: Vec::new(),
            };
            let ghost fresh = here;
            land_on(&mut here, placer, unit_type, count);
            proof {
                assert(entry_at(fresh.planet_units@, THUNDERS_EDGE@, 0) == -1);
                assert(entry_at(fresh.planet_control@, THUNDERS_EDGE@, 0) == -1);
                assert(pair_names(fresh.planet_control@) =~= Seq::<(Seq<char>, Seq<char>)>::empty());
                assert(seq![(THUNDERS_EDGE@, placer@)] =~= Seq::<(Seq<char>, Seq<char>)>::empty().push((THUNDERS_EDGE@, placer@)));
            }
            state.board.push(here);
            assert(state.board@.drop_last() =~= before.board@);
        },
    }
    state.thunders_edge_system = Some(system.to_string());
}

/// The infantry a player places: their faction's own, when the list names one, else plain
/// infantry.
pub open spec fn infantry_type_of(state: GameState, infantry_types: Seq<(String, String)>, player: Seq<char>) -> Seq<char> {
    let i = seat_of(state.players@, player);
    let k = if i >= 0 { entry_at(infantry_types, state.players@[i].faction@, infantry_types.len() as int) } else { -1 };
    if k >= 0 { infantry_types[k].1@ } else { "infantry"@ }
}

fn infantry_type_for(state: &GameState, infantry_types: &Vec<(String, String)>, player: &str) -> (unit_type: String)
    ensures
        unit_type@ == infantry_type_of(*state, infantry_types@, player@),
{
    match find_seat(&state.players, player) {
        Some(i) => match find_entry(infantry_types, state.players[i].faction.as_str()) {
            Some(k) => infantry_types[k].1.clone(),
            None => "infantry".to_string(),
        },
        None => "infantry".to_string(),
    }
}

/// The prompt of the system choice.
pub const SYSTEM_PROMPT: &'static str = "Thunder's Edge expedition: choose a system with no planet, no supernova, and no printed wormhole";
/// The prompt of the tie-break.
pub const PLACER_PROMPT: &'static str = "Thunder's Edge expedition: which tied player places the infantry";

/// The option that places Thunder's Edge in a system.
pub open spec fn system_view(system: Seq<char>) -> OptionView {
    OptionView { id: system, kind: "component"@, label: "place Thunder's Edge in system "@ + system }
}

/// The option that names a tied player.
pub open spec fn placer_view(player: Seq<char>) -> OptionView {
    OptionView { id: player, kind: "component"@, label: player }
}

/// The options of the system choice.
pub open spec fn system_views(systems: Seq<Seq<char>>) -> Seq<OptionView> {
    systems.map_values(|x: Seq<char>| system_view(x))
}

/// The options of the tie-break.
pub open spec fn placer_views(tied: Seq<Seq<char>>) -> Seq<OptionView> {
    tied.map_values(|x: Seq<char>| placer_view(x))
}

/// The completion of the expedition as plain values.
pub struct CompletionView {
    pub finisher: Seq<char>,
    pub systems: Seq<Seq<char>>,
    pub system: Option<Seq<char>>,
    pub done: bool,
}

/// Putting Thunder's Edge on the board once the last slice is claimed: the finishing player
/// picks the system, and breaks a tie for the most claims; the player with the most claims
/// places that many infantry on it.
#[derive(Debug)]
pub struct ExpeditionCompletion {
    finisher: String,
    systems: Vec<String>,
    system: Option<String>,
    done: bool,
}

impl View for ExpeditionCompletion {
    type V = CompletionView;

    closed spec fn view(&self) -> CompletionView {
        CompletionView {
            finisher: self.finisher@,
            systems: names(self.systems@),
            system: match self.system {
                Some(s) => Some(s@),
                None => None,
            },
            done: self.done,
        }
    }
}

/// The placement by a player: their infantry type, as many as they claimed slices.
pub open spec fn placed_by(s0: GameState, s1: GameState, system: Seq<char>, placer: Seq<char>, infantry_types: Seq<(String, String)>) -> bool {
    placed_thunders_edge(
        s0,
        s1,
        system,
        placer,
        infantry_type_of(s0, infantry_types, placer),
        claims_of(s0.expedition_slices@, placer, s0.expedition_slices@.len() as int),
    )
}

/// Once the system is known: a lone leader places at once; with nobody tied nothing is
/// placed; a tie waits on the finisher.
pub open spec fn placer_settled(w0: CompletionView, s0: GameState, w1: CompletionView, s1: GameState, infantry_types: Seq<(String, String)>) -> bool {
    let tied = tied_claimants(s0);
    if tied.len() == 1 {
        &&& w1 == (CompletionView { done: true, ..w0 })
        &&& placed_by(s0, s1, w0.system->0, tied.choose(), infantry_types)
    } else if tied.len() == 0 {
        &&& w1 == (CompletionView { done: true, ..w0 })
        &&& s1 == s0
    } else {
        &&& w1 == w0
        &&& s1 == s0
    }
}

/// The steps that need no decision: nowhere to place ends it; a lone system is taken; then
/// the placer, as `placer_settled` says.
pub open spec fn completion_settled(w0: CompletionView, s0: GameState, w1: CompletionView, s1: GameState, infantry_types: Seq<(String, String)>) -> bool {
    if w0.done {
        w1 == w0 && s1 == s0
    } else {
        match w0.system {
            None => if w0.systems.len() == 0 {
                &&& w1 == (CompletionView { done: true, ..w0 })
                &&& s1 == s0
            } else if w0.systems.len() == 1 {
                placer_settled(CompletionView { system: Some(w0.systems[0]), ..w0 }, s0, w1, s1, infantry_types)
            } else {
                w1 == w0 && s1 == s0
            },
            Some(_) => placer_settled(w0, s0, w1, s1, infantry_types),
        }
    }
}

fn placer_choice(finisher: &str, tied: &Vec<String>) -> (choice: Choice)
    ensures
        choice.player@ == finisher@,
        choice.prompt@ == PLACER_PROMPT@,
        option_views(choice.options@) == placer_views(names(tied@)),
{
    let ghost views = placer_views(names(tied@));
    let mut options: Vec<ChoiceOption> = Vec::new();
    let mut k: usize = 0;
    while k < tied.len()
        invariant
            k <= tied@.len(),
            views == placer_views(names(tied@)),
            option_views(options@) == views.subrange(0, k as int),
        decreases tied@.len() - k,
    {
        let ghost was = option_views(options@);
        options.push(ChoiceOption::labelled(tied[k].as_str(), "component", tied[k].as_str()));
        assert(option_views(options@) =~= was.push(views[k as int]));
        assert(views.subrange(0, k + 1) =~= views.subrange(0, k as int).push(views[k as int]));
        k = k + 1;
    }
    assert(views.subrange(0, k as int) =~= views);
    Choice::new(finisher, PLACER_PROMPT, options)
}

impl ExpeditionCompletion {
    /// Whether Thunder's Edge is on the board, or nowhere can take it.
    pub fn is_done(&self) -> (done: bool)
        ensures
            done == self@.done,
    {
        self.done
    }

    fn settle_placer(&mut self, state: &mut GameState, infantry_types: &Vec<(String, String)>)
        requires
            !old(self)@.done,
            old(self)@.system is Some,
        ensures
            placer_settled(old(self)@, *old(state), final(self)@, *final(state), infantry_types@),
    {
        let tied = tied_placers(state);
        proof {
            names(tied@).unique_seq_to_set();
        }
        if tied.len() == 1 {
            let placer = tied[0].as_str();
            proof {
                assert(names(tied@)[0] == placer@);
                assert(names(tied@).contains(placer@));
                assert(names(tied@).to_set().contains(placer@));
                let t = tied_claimants(*state);
                assert(t.contains(placer@));
                assert(t.len() == 1);
                let c = t.choose();
                assert(t.contains(c));
                assert(names(tied@).to_set().contains(c));
                assert(names(tied@)[0] == placer@);
            }
            let unit_type = infantry_type_for(state, infantry_types, placer);
            let count = count_claims(&state.expedition_slices, placer);
            let system = self.system.as_ref().unwrap().clone();
            place_thunders_edge(state, system.as_str(), placer, unit_type.as_str(), count);
            self.done = true;
        } else if tied.len() == 0 {
            self.done = true;
        }
    }

    fn settle(&mut self, state: &mut GameState, infantry_types: &Vec<(String, String)>)
        ensures
            completion_settled(old(self)@, *old(state), final(self)@, *final(state), infantry_types@),
    {
        if self.done {
            return;
        }
        if self.system.is_none() {
            if self.systems.len() == 0 {
                self.done = true;
                return;
            }
            if self.systems.len() > 1 {
                return;
            }
            self.system = Some(self.systems[0].clone());
        }
        self.settle_placer(state, infantry_types);
    }

    /// Start completing the expedition, with the systems this game's map offers for Thunder's
    /// Edge, in the order they are offered, and the factions' own infantry types.
    pub fn open(state: &mut GameState, finisher: &str, systems: Vec<String>, infantry_types: &Vec<(String, String)>) -> (w: Self)
        ensures
            completion_settled(
                CompletionView { finisher: finisher@, systems: names(systems@), system: None, done: false },
                *old(state),
                w@,
                *final(state),
                infantry_types@,
            ),
    {
        let mut w = ExpeditionCompletion { finisher: finisher.to_string(), systems, system: None, done: false };
        w.settle(state, infantry_types);
        w
    }

    /// The decision the completion waits on: the system, when the map offers several; the
    /// placer, when several claimants are tied.
    pub fn pending_choice(&self, state: &GameState) -> (choice: Option<Choice>)
        ensures
            choice matches Some(c) ==> c.player@ == self@.finisher,
            (!self@.done && self@.system is None && self@.systems.len() > 1) ==> (choice matches Some(c) && c.prompt@
                == SYSTEM_PROMPT@ && option_views(c.options@) == system_views(self@.systems)),
            (!self@.done && self@.system is Some) ==> match choice {
                Some(c) => exists|tied: Seq<Seq<char>>| #[trigger] crate::strategy_cards::sorted_set(tied, tied_claimants(*state))
                    && c.prompt@ == PLACER_PROMPT@ && option_views(c.options@) == placer_views(tied),
                None => true,
            },
            (self@.done || (self@.system is None && self@.systems.len() <= 1)) ==> choice is None,
    {
        if self.done {
            return None;
        }
        match &self.system {
            None => {
                if self.systems.len() <= 1 {
                    return None;
                }
                let ghost views = system_views(self@.systems);
                let mut options: Vec<ChoiceOption> = Vec::new();
                let mut k: usize = 0;
                while k < self.systems.len()
                    invariant
                        k <= self.systems@.len(),
                        views == names(self.systems@).map_values(|x: Seq<char>| system_view(x)),
                        option_views(options@) == views.subrange(0, k as int),
                    decreases self.systems@.len() - k,
                {
                    let label = "place Thunder's Edge in system ".to_string().concat(self.systems[k].as_str());
                    let ghost was = option_views(options@);
                    options.push(ChoiceOption::labelled(self.systems[k].as_str(), "component", label.as_str()));
                    assert(option_views(options@) =~= was.push(views[k as int]));
                    assert(views.subrange(0, k + 1) =~= views.subrange(0, k as int).push(views[k as int]));
                    k = k + 1;
                }
                assert(views.subrange(0, k as int) =~= views);
                Some(Choice::new(self.finisher.as_str(), SYSTEM_PROMPT, options))
            },
            Some(_) => {
                let tied = tied_placers(state);
                if tied.len() <= 1 {
                    return None;
                }
                Some(placer_choice(self.finisher.as_str(), &tied))
            },
        }
    }

    /// Answer the decision the completion waits on. An answer that names nothing offered, or
    /// comes when nothing is asked, changes nothing. A system answered is where Thunder's Edge
    /// goes; a tied player answered places the infantry.
    pub fn take_choice(&mut self, state: &mut GameState, infantry_types: &Vec<(String, String)>, answer: ChoiceOption) -> (result: Result<(), IllegalChoice>)
        ensures
            result is Err ==> *final(state) == *old(state) && final(self)@ == old(self)@,
            result is Ok ==> !old(self)@.done && (match old(self)@.system {
                None => exists|k: int| #[trigger] first_answered(system_views(old(self)@.systems), k, answer@)
                    && completion_settled(CompletionView { system: Some(old(self)@.systems[k]), ..old(self)@ }, *old(state), final(self)@, *final(state), infantry_types@),
                Some(system) => exists|tied: Seq<Seq<char>>, k: int| #[trigger] crate::strategy_cards::sorted_set(tied, tied_claimants(*old(state)))
                    && #[trigger] first_answered(placer_views(tied), k, answer@)
                    && final(self)@ == (CompletionView { done: true, ..old(self)@ })
                    && placed_by(*old(state), *final(state), system, tied[k], infantry_types@),
            }),
    {
        if self.done {
            return Err(IllegalChoice { player: self.finisher.clone(), answered: answer.id });
        }
        if self.system.is_some() {
            let tied = tied_placers(state);
            if tied.len() <= 1 {
                return Err(IllegalChoice { player: self.finisher.clone(), answered: answer.id });
            }
            let choice = placer_choice(self.finisher.as_str(), &tied);
            let k = match answered_index(&choice, &answer) {
                Some(k) => k,
                None => return Err(IllegalChoice { player: choice.player, answered: answer.id }),
            };
            assert(option_views(choice.options@).len() == tied@.len());
            let placer = tied[k].as_str();
            let unit_type = infantry_type_for(state, infantry_types, placer);
            let count = count_claims(&state.expedition_slices, placer);
            let system = self.system.as_ref().unwrap().clone();
            place_thunders_edge(state, system.as_str(), placer, unit_type.as_str(), count);
            self.done = true;
            return Ok(());
        }
        let choice = match self.pending_choice(state) {
            Some(c) => c,
            None => return Err(IllegalChoice { player: self.finisher.clone(), answered: answer.id }),
        };
        let k = match answered_index(&choice, &answer) {
            Some(k) => k,
            None => return Err(IllegalChoice { player: choice.player, answered: answer.id }),
        };
        {
            proof {
                assert(option_views(choice.options@).len() == self.systems@.len());
            }
            self.system = Some(self.systems[k].clone());
            self.settle(state, infantry_types);
            return Ok(());
        }
    }
}

/// The id prefix of an expedition component action.
pub const EXPEDITION_PREFIX: &'static str = "component|expedition|";

/// The slice an expedition action names, when its id is one and the slice is still open.
pub open spec fn spec_expedition_target(state: GameState, id: Seq<char>) -> Option<Seq<char>> {
    let p = EXPEDITION_PREFIX@;
    if p.len() <= id.len() && id.subrange(0, p.len() as int) == p && !is_claimed(state, id.subrange(p.len() as int, id.len() as int)) {
        Some(id.subrange(p.len() as int, id.len() as int))
    } else {
        None
    }
}

/// Which slice an expedition component action would claim: the slice its id names after
/// `component|expedition|`, or nothing when the id is no expedition action or the slice is
/// already claimed. Only then is the slice paid for (`ExpeditionPayment`) and, once paid,
/// claimed (`claim`).
pub fn expedition_target(state: &GameState, option: &ChoiceOption) -> (slice: Option<String>)
    ensures
        match slice {
            Some(s) => spec_expedition_target(*state, option@.id) == Some(s@),
            None => spec_expedition_target(*state, option@.id) is None,
        },
{
    let id = option.id.as_str();
    if !starts_with(id, EXPEDITION_PREFIX) {
        return None;
    }
    let rest = id.substring_char(EXPEDITION_PREFIX.unicode_len(), id.unicode_len());
    if claimed(state, rest) {
        return None;
    }
    Some(rest.to_string())
}

} // verus!
