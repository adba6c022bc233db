//! Strategic actions and the follower window a strategy card opens.

use vstd::prelude::*;
use crate::choice::{validate, Choice, ChoiceOption, IllegalChoice, OptionView, DECLINE_ID, DECLINE_KIND};
use crate::state::{contains_name, find_seat, index_in, lemma_index_in, lemma_index_in_prefix, names, seat_of, GameState, Seat};
use crate::strategy_cards::INFLUENCE_PER_TOKEN;
use crate::text::{decimal, decimal_string, find_char, lemma_find_after, str_eq};

verus! {

/// The action id used when a player has exactly one strategic action available.
pub const STRATEGIC_ACTION_ID: &'static str = "strategic";
/// The choice kind for an ordinary action-phase action.
pub const ACTION_KIND: &'static str = "action";
/// The id used to follow a strategic action's secondary.
pub const FOLLOW_SECONDARY_ID: &'static str = "follow";
/// The choice kind for a strategic-action secondary response.
pub const STRATEGY_KIND: &'static str = "strategy";

/// A strategic action could not be selected from the state that was presented.
#[derive(Debug)]
pub enum StrategyActionError {
    NoUnusedStrategyCard(String),
    MalformedActionId(String),
    IllegalChoice(IllegalChoice),
}

/// The recorded result of one eligible follower's secondary decision.
#[derive(Debug, Clone, Copy, PartialEq, Eq, Structural)]
pub enum SecondaryResolution {
    /// The follower chose not to use the secondary.
    Declined,
    /// The follower accepted the secondary, paying its token where it costs one.
    Followed,
    /// The follower had no strategy token and was not offered the secondary.
    Ineligible,
}

/// An error while resolving the follower window of a strategic action.
#[derive(Debug)]
pub enum StrategySecondaryError {
    Complete,
    FollowerMissing(String),
    NoStrategyToken(String),
    IllegalChoice(IllegalChoice),
}

/// The question a card's secondary asks, and its decline and accept labels, where the card
/// prints one: by card id for Thunder's Edge Construction, otherwise by name.
pub open spec fn secondary_contract(card: Seq<char>, name: Seq<char>) -> Option<(Seq<char>, Seq<char>, Seq<char>)> {
    if card == "te4construction"@ {
        Some(("spend a strategy token to place a structure"@, "decline"@, "place"@))
    } else if name == "Trade"@ {
        Some(("spend a strategy token to replenish commodities"@, "decline"@, "replenish"@))
    } else if name == "Construction"@ {
        Some(("spend a strategy token to build a structure"@, "decline"@, "build"@))
    } else if name == "Warfare"@ {
        Some(("spend a strategy token to produce at home"@, "decline"@, "produce"@))
    } else if name == "Technology"@ {
        Some(("spend a strategy token and 4 resources to research"@, "decline"@, "spend"@))
    } else if name == "Imperial"@ {
        Some(("spend a strategy token to draw a secret objective"@, "decline"@, "draw"@))
    } else if name == "Diplomacy"@ {
        Some(("spend a strategy token to ready two planets"@, "decline"@, "ready"@))
    } else if name == "Politics"@ {
        Some(("spend a strategy token to draw two action cards"@, "decline"@, "draw"@))
    } else {
        None
    }
}

fn contract_for(card: &str, name: &str) -> (contract: Option<(&'static str, &'static str, &'static str)>)
    ensures
        match contract {
            Some((p, n, y)) => secondary_contract(card@, name@) == Some((p@, n@, y@)),
            None => secondary_contract(card@, name@) is None,
        },
{
    if str_eq(card, "te4construction") {
        Some(("spend a strategy token to place a structure", "decline", "place"))
    } else if str_eq(name, "Trade") {
        Some(("spend a strategy token to replenish commodities", "decline", "replenish"))
    } else if str_eq(name, "Construction") {
        Some(("spend a strategy token to build a structure", "decline", "build"))
    } else if str_eq(name, "Warfare") {
        Some(("spend a strategy token to produce at home", "decline", "produce"))
    } else if str_eq(name, "Technology") {
        Some(("spend a strategy token and 4 resources to research", "decline", "spend"))
    } else if str_eq(name, "Imperial") {
        Some(("spend a strategy token to draw a secret objective", "decline", "draw"))
    } else if str_eq(name, "Diplomacy") {
        Some(("spend a strategy token to ready two planets", "decline", "ready"))
    } else if str_eq(name, "Politics") {
        Some(("spend a strategy token to draw two action cards", "decline", "draw"))
    } else {
        None
    }
}

/// The question a follower is asked about a card's secondary, as (prompt, options).
///
/// Leadership has no strategy-token gate and no follow prompt (LRR 52.3): its question is the
/// influence purchase itself. A card that prints its own secondary question asks it with `no`
/// and `yes`; any other card asks whether to resolve the secondary, mentioning the token when
/// it costs one.
pub open spec fn spec_secondary_choice(card: Seq<char>, name: Seq<char>, costs_token: bool) -> (Seq<char>, Seq<OptionView>) {
    if name == "Leadership"@ {
        let n = decimal(INFLUENCE_PER_TOKEN as int);
        (
            "spend "@ + n + " influence for a command token"@,
            seq![
                OptionView { id: "no"@, kind: STRATEGY_KIND@, label: "spend nothing further"@ },
                OptionView { id: "yes"@, kind: STRATEGY_KIND@, label: "spend "@ + n + " influence"@ },
            ],
        )
    } else if let Some((prompt, no_label, yes_label)) = secondary_contract(card, name) {
        (
            prompt,
            seq![
                OptionView { id: "no"@, kind: STRATEGY_KIND@, label: no_label },
                OptionView { id: "yes"@, kind: STRATEGY_KIND@, label: yes_label },
            ],
        )
    } else {
        (
            card + " secondary"@,
            seq![
                OptionView { id: DECLINE_ID@, kind: DECLINE_KIND@, label: DECLINE_ID@ },
                OptionView {
                    id: FOLLOW_SECONDARY_ID@,
                    kind: STRATEGY_KIND@,
                    label: if costs_token {
                        "spend a strategy token to resolve the secondary"@
                    } else {
                        "resolve the secondary"@
                    },
                },
            ],
        )
    }
}

/// The card's printed name, or its id where the corpus has no record of it.
pub open spec fn card_display(card: Seq<char>, name: Option<Seq<char>>) -> Seq<char> {
    match name {
        Some(n) => n,
        None => card,
    }
}

/// The choice a follower is offered for a card's secondary. `name` is the card's printed name
/// as its record gives it; a card without one goes by its id.
pub fn secondary_choice(card: &str, name: Option<&str>, player: &str, costs_token: bool) -> (choice: Choice)
    ensures
        choice.player@ == player@,
        (choice.prompt@, choice.options@.map_values(|o: ChoiceOption| o@)) == spec_secondary_choice(
            card@,
            card_display(card@, match name { Some(n) => Some(n@), None => None }),
            costs_token,
        ),
        forall|k: int| 0 <= k < choice.options@.len() ==> (#[trigger] choice.options@[k]).payload@.len() == 0,
{
    let name = match name {
        Some(n) => n,
        None => card,
    };
    if str_eq(name, "Leadership") {
        let n = decimal_string(INFLUENCE_PER_TOKEN);
        let prompt = "spend ".to_string().concat(n.as_str()).concat(" influence for a command token");
        let yes = "spend ".to_string().concat(n.as_str()).concat(" influence");
        let options = vec![
            ChoiceOption::labelled("no", STRATEGY_KIND, "spend nothing further"),
            ChoiceOption::labelled("yes", STRATEGY_KIND, yes.as_str()),
        ];
        let choice = Choice::new(player, prompt.as_str(), options);
        assert(choice.options@.map_values(|o: ChoiceOption| o@) =~= spec_secondary_choice(card@, name@, costs_token).1);
        return choice;
    }
    match contract_for(card, name) {
        Some((prompt, no_label, yes_label)) => {
            let options = vec![
                ChoiceOption::labelled("no", STRATEGY_KIND, no_label),
                ChoiceOption::labelled("yes", STRATEGY_KIND, yes_label),
            ];
            let choice = Choice::new(player, prompt, options);
            assert(choice.options@.map_values(|o: ChoiceOption| o@) =~= spec_secondary_choice(card@, name@, costs_token).1);
            choice
        },
        None => {
            let label = if costs_token {
                "spend a strategy token to resolve the secondary"
            } else {
                "resolve the secondary"
            };
            let options = vec![
                ChoiceOption::decline(),
                ChoiceOption::labelled(FOLLOW_SECONDARY_ID, STRATEGY_KIND, label),
            ];
            let prompt = card.to_string().concat(" secondary");
            let choice = Choice::new(player, prompt.as_str(), options);
            assert(choice.options@.map_values(|o: ChoiceOption| o@) =~= spec_secondary_choice(card@, name@, costs_token).1);
            choice
        },
    }
}

/// Whether an answer to a secondary follows it: anything but the decline and `no`.
pub fn follows(answer: &ChoiceOption) -> (followed: bool)
    ensures
        followed == !(answer@.kind == DECLINE_KIND@ || answer@.id == "no"@),
{
    !(str_eq(answer.kind.as_str(), DECLINE_KIND) || str_eq(answer.id.as_str(), "no"))
}

/// The strategy cards a seat holds whose strategic action is still to take, in holding order.
pub open spec fn unused_cards(seat: Seat) -> Seq<Seq<char>> {
    names(seat.strategy_cards@).filter(|c: Seq<char>| !names(seat.exhausted_strategy_cards@).contains(c))
}

/// The strategy cards a seat holds whose strategic action is still to take, in holding order.
fn unused_of(seat: &Seat) -> (unused: Vec<String>)
    ensures
        names(unused@) == unused_cards(*seat),
{
    let ghost all = names(seat.strategy_cards@);
    let ghost pred = |c: Seq<char>| !names(seat.exhausted_strategy_cards@).contains(c);
    let mut unused: Vec<String> = Vec::new();
    let mut k: usize = 0;
    assert(names(unused@) =~= all.subrange(0, 0).filter(pred)) by {
        reveal_with_fuel(Seq::<Seq<char>>::filter, 1);
        assert(all.subrange(0, 0) =~= Seq::<Seq<char>>::empty());
    }
    while k < seat.strategy_cards.len()
        invariant
            k <= seat.strategy_cards@.len(),
            all == names(seat.strategy_cards@),
            pred == (|c: Seq<char>| !names(seat.exhausted_strategy_cards@).contains(c)),
            names(unused@) == all.subrange(0, k as int).filter(pred),
        decreases seat.strategy_cards@.len() - k,
    {
        proof {
            reveal_with_fuel(Seq::<Seq<char>>::filter, 1);
            assert(all.subrange(0, k + 1).drop_last() =~= all.subrange(0, k as int));
            assert(all.subrange(0, k + 1).last() == seat.strategy_cards@[k as int]@);
        }
        let card = seat.strategy_cards[k].as_str();
        if !contains_name(&seat.exhausted_strategy_cards, card) {
            let ghost before = names(unused@);
            unused.push(card.to_string());
            assert(names(unused@) =~= before.push(card@));
        }
        k = k + 1;
    }
    assert(all.subrange(0, k as int) =~= all);
    unused
}

/// A strategy card's label for learned choices, where one is listed; a card without one goes
/// by its id.
pub open spec fn label_of(labels: Seq<(String, String)>, card: Seq<char>) -> Seq<char>
    decreases labels.len(),
{
    if labels.len() == 0 {
        card
    } else if labels[0].0@ == card {
        labels[0].1@
    } else {
        label_of(labels.drop_first(), card)
    }
}

pub(crate) fn label_for(labels: &Vec<(String, String)>, card: &str) -> (label: String)
    ensures
        label@ == label_of(labels@, card@),
{
    let mut k: usize = 0;
    assert(labels@.subrange(0, labels@.len() as int) =~= labels@);
    while k < labels.len()
        invariant
            k <= labels@.len(),
            label_of(labels@, card@) == label_of(labels@.subrange(k as int, labels@.len() as int), card@),
        decreases labels@.len() - k,
    {
        assert(labels@.subrange(k as int, labels@.len() as int).drop_first() =~= labels@.subrange(k + 1, labels@.len() as int));
        if str_eq(labels[k].0.as_str(), card) {
            return labels[k].1.clone();
        }
        k = k + 1;
    }
    card.to_string()
}

/// The options of a strategic action: a one-card holding keeps the bare `strategic` id; a
/// holding of several names the card in `strategic|<card>`, so choosing one is a real decision.
pub open spec fn spec_strategic_options(unused: Seq<Seq<char>>, labels: Seq<(String, String)>) -> Seq<OptionView> {
    if unused.len() == 1 {
        seq![OptionView { id: STRATEGIC_ACTION_ID@, kind: ACTION_KIND@, label: "take your strategic action"@ }]
    } else {
        unused.map_values(
            |c: Seq<char>|
                OptionView {
                    id: STRATEGIC_ACTION_ID@ + "|"@ + c,
                    kind: ACTION_KIND@,
                    label: "take the strategic action of "@ + label_of(labels, c),
                },
        )
    }
}

/// The strategic actions a player may take, or `None` for a player not at the table or with no
/// unused strategy card.
pub open spec fn spec_strategic_action_options(state: GameState, labels: Seq<(String, String)>, player: Seq<char>) -> Option<Seq<OptionView>> {
    let i = seat_of(state.players@, player);
    if i < 0 || unused_cards(state.players@[i]).len() == 0 {
        None
    } else {
        Some(spec_strategic_options(unused_cards(state.players@[i]), labels))
    }
}

/// Legal strategic actions for one player. `labels` gives each strategy card's printed label.
pub fn strategic_action_options(state: &GameState, labels: &Vec<(String, String)>, player: &str) -> (choice: Option<Choice>)
    ensures
        match choice {
            Some(c) => {
                &&& spec_strategic_action_options(*state, labels@, player@) == Some(c.options@.map_values(|o: ChoiceOption| o@))
                &&& c.player@ == player@
                &&& c.prompt@ == "action phase"@
            },
            None => spec_strategic_action_options(*state, labels@, player@) is None,
        },
{
    let i = find_seat(&state.players, player)?;
    let unused = unused_of(&state.players[i]);
    if unused.len() == 0 {
        return None;
    }
    let mut options: Vec<ChoiceOption> = Vec::new();
    if unused.len() == 1 {
        options.push(ChoiceOption::labelled(STRATEGIC_ACTION_ID, ACTION_KIND, "take your strategic action"));
        assert(options@.map_values(|o: ChoiceOption| o@) =~= spec_strategic_options(names(unused@), labels@));
    } else {
        let ghost want = spec_strategic_options(names(unused@), labels@);
        let mut k: usize = 0;
        while k < unused.len()
            invariant
                k <= unused@.len(),
                unused@.len() > 1,
                want == spec_strategic_options(names(unused@), labels@),
                options@.len() == k,
                forall|j: int| 0 <= j < k ==> (#[trigger] options@[j])@ == want[j],
            decreases unused@.len() - k,
        {
            let id = STRATEGIC_ACTION_ID.to_string().concat("|").concat(unused[k].as_str());
            let label = "take the strategic action of ".to_string().concat(label_for(labels, unused[k].as_str()).as_str());
            options.push(ChoiceOption::labelled(id.as_str(), ACTION_KIND, label.as_str()));
            k = k + 1;
        }
        assert(options@.map_values(|o: ChoiceOption| o@) =~= want);
    }
    Some(Choice::new(player, "action phase", options))
}

/// Whether the option at `j` is the one an answer names: the same id and kind.
pub open spec fn names_view(options: Seq<OptionView>, j: int, answer: OptionView) -> bool {
    0 <= j < options.len() && options[j].id == answer.id && options[j].kind == answer.kind
}

/// Whether an answer names one of the options offered.
pub open spec fn answered(options: Seq<OptionView>, answer: OptionView) -> bool {
    exists|j: int| names_view(options, j, answer)
}

/// The card a strategic action selects: the only unused card, or the one the chosen option
/// names after `strategic|`.
pub open spec fn spec_selected_card(unused: Seq<Seq<char>>, answer: OptionView) -> Seq<char> {
    if unused.len() == 1 {
        unused[0]
    } else {
        answer.id.subrange(STRATEGIC_ACTION_ID@.len() + 1int, answer.id.len() as int)
    }
}

/// How selecting a strategic action can end.
pub open spec fn selected(state: GameState, labels: Seq<(String, String)>, player: Seq<char>, answer: OptionView, result: Result<String, StrategyActionError>) -> bool {
    match spec_strategic_action_options(state, labels, player) {
        None => result matches Err(StrategyActionError::NoUnusedStrategyCard(p)) && p@ == player,
        Some(options) => if answered(options, answer) {
            result matches Ok(card) && card@ == spec_selected_card(unused_cards(state.players@[seat_of(state.players@, player)]), answer)
        } else {
            result matches Err(StrategyActionError::IllegalChoice(e)) && e.player@ == player && e.answered@ == answer.id
        },
    }
}

/// What follows a prefix and a separator is the rest.
proof fn lemma_after_separator(a: Seq<char>, c: char, b: Seq<char>)
    ensures
        (a + seq![c] + b).subrange(a.len() + 1int, (a + seq![c] + b).len() as int) == b,
        (a + seq![c] + b).len() > a.len(),
{
    assert((a + seq![c] + b).subrange(a.len() + 1int, (a + seq![c] + b).len() as int) =~= b);
}

/// The option an answer names, among a strategic action's options, names an unused card.
proof fn lemma_selected_is_unused(unused: Seq<Seq<char>>, labels: Seq<(String, String)>, answer: OptionView, j: int)
    requires
        unused.len() > 0,
        names_view(spec_strategic_options(unused, labels), j, answer),
    ensures
        unused.contains(spec_selected_card(unused, answer)),
        unused.len() != 1 ==> spec_selected_card(unused, answer) == unused[j],
        unused.len() != 1 ==> answer.id == STRATEGIC_ACTION_ID@ + seq!['|'] + unused[j],
        unused.len() == 1 ==> answer.id == STRATEGIC_ACTION_ID@,
{
    reveal_strlit("|");
    if unused.len() != 1 {
        assert("|"@ =~= seq!['|']);
        lemma_after_separator(STRATEGIC_ACTION_ID@, '|', unused[j]);
        assert(unused[j] == spec_selected_card(unused, answer));
    } else {
        assert(unused[0] == spec_selected_card(unused, answer));
    }
}

/// Where a name first stands in a list, if it does.
fn position_of(list: &Vec<String>, name: &str) -> (at: Option<usize>)
    ensures
        match at {
            Some(k) => k < list@.len() && list@[k as int]@ == name@,
            None => forall|m: int| 0 <= m < list@.len() ==> list@[m]@ != name@,
        },
{
    let mut k: usize = 0;
    while k < list.len()
        invariant
            k <= list@.len(),
            forall|m: int| 0 <= m < k ==> list@[m]@ != name@,
        decreases list@.len() - k,
    {
        if str_eq(list[k].as_str(), name) {
            return Some(k);
        }
        k = k + 1;
    }
    None
}

/// The strategy card an answer to [`strategic_action_options`] selects.
#[verifier::rlimit(40)]
fn selected_strategic_card(state: &GameState, labels: &Vec<(String, String)>, player: &str, answer: ChoiceOption) -> (result: Result<String, StrategyActionError>)
    ensures
        selected(*state, labels@, player@, answer@, result),
{
    let ghost asked = answer@;
    let choice = match strategic_action_options(state, labels, player) {
        Some(c) => c,
        None => return Err(StrategyActionError::NoUnusedStrategyCard(player.to_string())),
    };
    let ghost options = choice.options@.map_values(|o: ChoiceOption| o@);
    let answer = match validate(&choice, answer) {
        Ok(a) => a,
        Err(e) => {
            proof {
                if answered(options, asked) {
                    let j = choose|j: int| names_view(options, j, asked);
                    assert(crate::choice::names(choice.options@, j, asked));
                }
            }
            return Err(StrategyActionError::IllegalChoice(e));
        },
    };
    let ghost f = crate::choice::first_named(choice.options@, asked);
    let i = find_seat(&state.players, player).unwrap();
    let unused = unused_of(&state.players[i]);
    proof {
        assert(names_view(options, f, asked));
        assert(answer@.id == asked.id);
        reveal_strlit("strategic");
        lemma_selected_is_unused(names(unused@), labels@, asked, f);
    }
    proof {
        if names(unused@).len() != 1 {
            lemma_after_separator(STRATEGIC_ACTION_ID@, '|', names(unused@)[f]);
        }
    }
    if str_eq(answer.id.as_str(), STRATEGIC_ACTION_ID) {
        assert(names(unused@).len() == 1);
        let card = unused[0].clone();
        assert(card@ == spec_selected_card(unused_cards(state.players@[seat_of(state.players@, player@)]), asked));
        assert(names_view(options, f, asked));
        assert(answered(options, asked));
        return Ok(card);
    }
    let id = answer.id.as_str();
    let n = id.unicode_len();
    let at = find_char(id, '|', 0);
    proof {
        lemma_find_after(STRATEGIC_ACTION_ID@, names(unused@)[f], '|', 0);
        lemma_after_separator(STRATEGIC_ACTION_ID@, '|', names(unused@)[f]);
    }
    if at >= n {
        return Err(StrategyActionError::MalformedActionId(answer.id.clone()));
    }
    let named = id.substring_char(at + 1, n);
    assert(named@ == spec_selected_card(names(unused@), asked));
    match position_of(&unused, named) {
        Some(k) => {
            let card = unused[k].clone();
            assert(card@ == spec_selected_card(unused_cards(state.players@[seat_of(state.players@, player@)]), asked));
            assert(names_view(options, f, asked));
            assert(answered(options, asked));
            Ok(card)
        },
        None => {
            assert(unused@[f]@ == named@);
            Err(StrategyActionError::MalformedActionId(answer.id.clone()))
        },
    }
}

/// The seat after its strategy card is exhausted: the card joins the exhausted ones unless it
/// is already there. A card the seat does not hold is not exhausted.
pub open spec fn exhausted_card(before: Seat, after: Seat, card: Seq<char>) -> bool {
    &&& names(after.exhausted_strategy_cards@) == if names(before.exhausted_strategy_cards@).contains(card) {
        names(before.exhausted_strategy_cards@)
    } else {
        names(before.exhausted_strategy_cards@).push(card)
    }
    &&& after == (Seat { exhausted_strategy_cards: after.exhausted_strategy_cards, ..before })
}

/// The table after a player's strategy card is exhausted, if they hold it.
pub open spec fn exhausted_at(before: GameState, after: GameState, player: Seq<char>, card: Seq<char>) -> bool {
    let i = seat_of(before.players@, player);
    if i >= 0 && names(before.players@[i].strategy_cards@).contains(card) {
        &&& after.players@.len() == before.players@.len()
        &&& forall|j: int| 0 <= j < before.players@.len() && j != i ==> after.players@[j] == before.players@[j]
        &&& exhausted_card(before.players@[i], after.players@[i], card)
        &&& after == (GameState { players: after.players, ..before })
    } else {
        after == before
    }
}

/// Exhaust a strategy card of a player's, returning whether they hold it.
pub fn exhaust_strategy_card(state: &mut GameState, player: &str, card: &str) -> (held: bool)
    ensures
        held == (seat_of(old(state).players@, player@) >= 0 && names(
            old(state).players@[seat_of(old(state).players@, player@)].strategy_cards@,
        ).contains(card@)),
        exhausted_at(*old(state), *final(state), player@, card@),
{
    let i = match find_seat(&state.players, player) {
        Some(i) => i,
        None => return false,
    };
    if !contains_name(&state.players[i].strategy_cards, card) {
        return false;
    }
    if contains_name(&state.players[i].exhausted_strategy_cards, card) {
        return true;
    }
    let mut seat = state.players.remove(i);
    let ghost before = names(seat.exhausted_strategy_cards@);
    seat.exhausted_strategy_cards.push(card.to_string());
    assert(names(seat.exhausted_strategy_cards@) =~= before.push(card@));
    state.players.insert(i, seat);
    true
}

/// Take a strategic action outright: the selected card is exhausted at once. A driver that
/// runs the followers' secondaries uses [`begin_strategic_action`] instead, which keeps the card
/// ready until every follower has answered.
pub fn take_strategic_action(state: &mut GameState, labels: &Vec<(String, String)>, player: &str, answer: ChoiceOption) -> (result: Result<String, StrategyActionError>)
    ensures
        selected(*old(state), labels@, player@, answer@, result),
        match result {
            Ok(card) => exhausted_at(*old(state), *final(state), player@, card@),
            Err(_) => *final(state) == *old(state),
        },
{
    let card = match selected_strategic_card(state, labels, player, answer) {
        Ok(card) => card,
        Err(e) => return Err(e),
    };
    proof {
        let i = seat_of(state.players@, player@);
        let u = unused_cards(state.players@[i]);
        let options = spec_strategic_options(u, labels@);
        assert(answered(options, answer@));
        let j = choose|j: int| names_view(options, j, answer@);
        lemma_selected_is_unused(u, labels@, answer@, j);
        let held = names(state.players@[i].strategy_cards@);
        let pred = |c: Seq<char>| !names(state.players@[i].exhausted_strategy_cards@).contains(c);
        assert(u == held.filter(pred));
        held.lemma_filter_contains_rev(pred, card@);
    }
    exhaust_strategy_card(state, player, card.as_str());
    Ok(card)
}

/// Everyone after a player, clockwise: the seating order from the seat after theirs round to
/// the seat before. A player missing from the seating order is read as sitting first.
pub open spec fn followers_of(order: Seq<Seq<char>>, player: Seq<char>) -> Seq<Seq<char>> {
    let p = index_in(order, player);
    let start = if p < 0 { 0 } else { p };
    let turned = order.subrange(start, order.len() as int) + order.subrange(0, start);
    if turned.len() == 0 {
        Seq::empty()
    } else {
        turned.drop_first()
    }
}

/// Where a name first stands in a list, by its text, or -1.
fn first_position(list: &Vec<String>, name: &str) -> (at: Option<usize>)
    ensures
        match at {
            Some(k) => k as int == index_in(names(list@), name@) && k < list@.len(),
            None => index_in(names(list@), name@) < 0,
        },
{
    let ghost ids = names(list@);
    let mut k: usize = 0;
    while k < list.len()
        invariant
            k <= list@.len(),
            ids == names(list@),
            index_in(ids.subrange(0, k as int), name@) < 0,
        decreases list@.len() - k,
    {
        assert(ids.subrange(0, k + 1).drop_last() =~= ids.subrange(0, k as int));
        assert(ids.subrange(0, k + 1).last() == list@[k as int]@);
        if str_eq(list[k].as_str(), name) {
            proof {
                lemma_index_in_prefix(ids, k as int + 1, name@);
            }
            return Some(k);
        }
        k = k + 1;
    }
    assert(ids.subrange(0, k as int) =~= ids);
    None
}

/// Everyone after a player, clockwise.
fn clockwise_followers(order: &Vec<String>, player: &str) -> (followers: Vec<String>)
    ensures
        names(followers@) == followers_of(names(order@), player@),
{
    let start: usize = match first_position(order, player) {
        Some(k) => k,
        None => 0,
    };
    let ghost ids = names(order@);
    proof {
        lemma_index_in(ids, player@);
    }
    let ghost turned = ids.subrange(start as int, ids.len() as int) + ids.subrange(0, start as int);
    let mut followers: Vec<String> = Vec::new();
    let n = order.len();
    if n == 0 {
        assert(names(followers@) =~= followers_of(ids, player@));
        return followers;
    }
    let mut m: usize = 1;
    assert(names(followers@) =~= turned.subrange(1, 1));
    while m < n
        invariant
            n == order@.len(),
            n > 0,
            ids == names(order@),
            start < n,
            turned == ids.subrange(start as int, ids.len() as int) + ids.subrange(0, start as int),
            1 <= m <= n,
            names(followers@) == turned.subrange(1, m as int),
        decreases n - m,
    {
        let at = if m < n - start { start + m } else { m - (n - start) };
        assert(turned[m as int] == ids[at as int]);
        let ghost before = names(followers@);
        followers.push(order[at].clone());
        assert(names(followers@) =~= before.push(turned[m as int]));
        assert(turned.subrange(1, m + 1) =~= turned.subrange(1, m as int).push(turned[m as int]));
        m = m + 1;
    }
    assert(turned.subrange(1, n as int) =~= turned.drop_first());
    followers
}

/// A follower's standing for the secondary of the card in play, as rules outside this module
/// decide it: whether a faction ability makes the secondary free for them, and whether it could
/// accomplish anything for them (for Leadership, whether they can afford it).
#[derive(Debug, Clone, Copy, PartialEq, Eq)]
pub struct Standing {
    pub free: bool,
    pub able: bool,
}

/// The standing of the follower at `k`; a follower without one listed stands for nothing.
pub open spec fn standing_at(standings: Seq<Standing>, k: int) -> Standing {
    if 0 <= k < standings.len() {
        standings[k]
    } else {
        Standing { free: false, able: false }
    }
}

fn standing_of(standings: &Vec<Standing>, k: usize) -> (standing: Standing)
    ensures
        standing == standing_at(standings@, k as int),
{
    if k < standings.len() {
        standings[k]
    } else {
        Standing { free: false, able: false }
    }
}

/// Whether a card is Leadership, whose secondary costs influence rather than a strategy token
/// (LRR 52.3).
pub open spec fn is_leadership(name: Option<Seq<char>>) -> bool {
    name == Some("Leadership"@)
}

/// Whether answering yes to a secondary costs this follower a strategy token.
pub open spec fn costs_token(name: Option<Seq<char>>, standing: Standing) -> bool {
    !is_leadership(name) && !standing.free
}

/// Whether a follower is offered the secondary: for Leadership, whether they can afford it;
/// for any other card, whether they sit at the table, have a strategy token or need none, and
/// the secondary could accomplish something for them.
pub open spec fn eligible(state: GameState, name: Option<Seq<char>>, player: Seq<char>, standing: Standing) -> bool {
    if is_leadership(name) {
        standing.able
    } else {
        let i = seat_of(state.players@, player);
        i >= 0 && (standing.free || state.players@[i].strategic_tokens > 0) && standing.able
    }
}

/// The first follower, from `from` on, who is offered the secondary, or the number of
/// followers when none is.
pub open spec fn first_eligible(state: GameState, name: Option<Seq<char>>, followers: Seq<Seq<char>>, standings: Seq<Standing>, from: int) -> int
    decreases followers.len() - from,
{
    if from >= followers.len() {
        followers.len() as int
    } else if eligible(state, name, followers[from], standing_at(standings, from)) {
        from
    } else {
        first_eligible(state, name, followers, standings, from + 1)
    }
}

proof fn lemma_first_eligible(state: GameState, name: Option<Seq<char>>, followers: Seq<Seq<char>>, standings: Seq<Standing>, from: int)
    requires
        0 <= from <= followers.len(),
    ensures
        from <= first_eligible(state, name, followers, standings, from) <= followers.len(),
        forall|k: int| from <= k < first_eligible(state, name, followers, standings, from) ==> !eligible(
            state,
            name,
            followers[k],
            standing_at(standings, k),
        ),
        first_eligible(state, name, followers, standings, from) < followers.len() ==> eligible(
            state,
            name,
            followers[first_eligible(state, name, followers, standings, from)],
            standing_at(standings, first_eligible(state, name, followers, standings, from)),
        ),
    decreases followers.len() - from,
{
    if from < followers.len() && !eligible(state, name, followers[from], standing_at(standings, from)) {
        lemma_first_eligible(state, name, followers, standings, from + 1);
    }
}

/// Whether a follower is offered the secondary.
fn is_eligible(state: &GameState, name: &Option<String>, player: &str, standing: Standing) -> (yes: bool)
    ensures
        yes == eligible(*state, opt_name(*name), player@, standing),
{
    let leadership = match name {
        Some(n) => str_eq(n.as_str(), "Leadership"),
        None => false,
    };
    if leadership {
        return standing.able;
    }
    match find_seat(&state.players, player) {
        Some(i) => (standing.free || state.players[i].strategic_tokens > 0) && standing.able,
        None => false,
    }
}

/// A name that may be absent, as text.
pub open spec fn opt_name(name: Option<String>) -> Option<Seq<char>> {
    match name {
        Some(n) => Some(n@),
        None => None,
    }
}

/// The ordered follower window a strategic action opens: everyone but the primary player,
/// clockwise from them (LRR 82.1). The primary card stays ready until every follower has been
/// recorded, and is exhausted then.
#[derive(Debug)]
pub struct StrategySecondaryWindow {
    primary_player: String,
    card: String,
    name: Option<String>,
    followers: Vec<String>,
    next_follower: usize,
    resolutions: Vec<(String, SecondaryResolution)>,
}

impl StrategySecondaryWindow {
    /// Who took the strategic action.
    pub closed spec fn primary_view(&self) -> Seq<char> {
        self.primary_player@
    }

    /// The card whose secondary is offered.
    pub closed spec fn card_view(&self) -> Seq<char> {
        self.card@
    }

    /// The card's printed name, if it has one.
    pub closed spec fn name_view(&self) -> Option<Seq<char>> {
        opt_name(self.name)
    }

    /// The followers, clockwise.
    pub closed spec fn followers_view(&self) -> Seq<Seq<char>> {
        names(self.followers@)
    }

    /// How many followers have been recorded.
    pub closed spec fn next_view(&self) -> int {
        self.next_follower as int
    }

    /// What each recorded follower did, in order.
    pub closed spec fn resolutions_view(&self) -> Seq<(Seq<char>, SecondaryResolution)> {
        self.resolutions@.map_values(|r: (String, SecondaryResolution)| (r.0@, r.1))
    }

    /// Every recorded follower in order, and no more than there are.
    pub closed spec fn wf(&self) -> bool {
        &&& self.next_follower <= self.followers@.len()
        &&& self.resolutions@.len() == self.next_follower
        &&& forall|k: int| 0 <= k < self.next_follower ==> (#[trigger] self.resolutions@[k]).0@ == self.followers@[k]@
    }

    /// The player resolving the primary.
    pub fn primary_player(&self) -> (player: &str)
        ensures
            player@ == self.primary_view(),
    {
        self.primary_player.as_str()
    }

    /// The strategy card whose secondary is being offered.
    pub fn card(&self) -> (card: &str)
        ensures
            card@ == self.card_view(),
    {
        self.card.as_str()
    }

    /// Follower results in clockwise resolution order.
    pub fn resolutions(&self) -> (resolutions: &Vec<(String, SecondaryResolution)>)
        ensures
            resolutions@.map_values(|r: (String, SecondaryResolution)| (r.0@, r.1)) == self.resolutions_view(),
    {
        &self.resolutions
    }

    /// Whether every follower has been recorded.
    pub fn is_complete(&self) -> (done: bool)
        requires
            self.wf(),
        ensures
            done == (self.next_view() == self.followers_view().len()),
    {
        self.next_follower == self.followers.len()
    }

    /// The choice the next offered follower faces, without changing anything: a follower not
    /// offered the secondary is passed over. `standings[k]` is the `k`-th follower's standing.
    pub fn pending_choice(&self, state: &GameState, standings: &Vec<Standing>) -> (choice: Option<Choice>)
        requires
            self.wf(),
        ensures
            ({
                let k = first_eligible(*state, self.name_view(), self.followers_view(), standings@, self.next_view());
                match choice {
                    None => k == self.followers_view().len(),
                    Some(c) => {
                        &&& k < self.followers_view().len()
                        &&& c.player@ == self.followers_view()[k]
                        &&& (c.prompt@, c.options@.map_values(|o: ChoiceOption| o@)) == spec_secondary_choice(
                            self.card_view(),
                            card_display(self.card_view(), self.name_view()),
                            costs_token(self.name_view(), standing_at(standings@, k)),
                        )
                    },
                }
            }),
    {
        proof {
            lemma_first_eligible(*state, self.name_view(), self.followers_view(), standings@, self.next_view());
        }
        let mut k = self.next_follower;
        while k < self.followers.len()
            invariant
                self.wf(),
                self.next_follower <= k <= self.followers@.len(),
                first_eligible(*state, self.name_view(), self.followers_view(), standings@, self.next_view())
                    == first_eligible(*state, self.name_view(), self.followers_view(), standings@, k as int),
            decreases self.followers@.len() - k,
        {
            let standing = standing_of(standings, k);
            if is_eligible(state, &self.name, self.followers[k].as_str(), standing) {
                return Some(self.choice_for(k, standing));
            }
            k = k + 1;
        }
        None
    }

    /// Record the followers before the next offered one as not offered, and return that one's
    /// choice. When no follower is left to offer, the primary card is exhausted.
    pub fn next_choice(&mut self, state: &mut GameState, standings: &Vec<Standing>) -> (choice: Option<Choice>)
        requires
            old(self).wf(),
        ensures
            ({
                let w = *old(self);
                let k = first_eligible(*old(state), w.name_view(), w.followers_view(), standings@, w.next_view());
                &&& final(self).wf()
                &&& same_window(w, *final(self))
                &&& final(self).next_view() == k
                &&& final(self).resolutions_view() == w.resolutions_view() + ineligibles(w.followers_view(), w.next_view(), k)
                &&& match choice {
                    None => k == w.followers_view().len() && exhausted_at(*old(state), *final(state), w.primary_view(), w.card_view()),
                    Some(c) => {
                        &&& k < w.followers_view().len()
                        &&& *final(state) == *old(state)
                        &&& c.player@ == w.followers_view()[k]
                        &&& (c.prompt@, c.options@.map_values(|o: ChoiceOption| o@)) == spec_secondary_choice(
                            w.card_view(),
                            card_display(w.card_view(), w.name_view()),
                            costs_token(w.name_view(), standing_at(standings@, k)),
                        )
                    },
                }
            }),
    {
        let ghost w = *self;
        proof {
            lemma_first_eligible(*state, w.name_view(), w.followers_view(), standings@, w.next_view());
        }
        loop
            invariant
                self.wf(),
                same_window(w, *self),
                w.next_view() <= self.next_view(),
                *state == *old(state),
                first_eligible(*state, w.name_view(), w.followers_view(), standings@, w.next_view())
                    == first_eligible(*state, w.name_view(), w.followers_view(), standings@, self.next_view()),
                self.resolutions_view() == w.resolutions_view() + ineligibles(w.followers_view(), w.next_view(), self.next_view()),
            ensures
                self.wf(),
                same_window(w, *self),
                *state == *old(state),
                self.next_view() == first_eligible(*state, w.name_view(), w.followers_view(), standings@, w.next_view()),
                self.resolutions_view() == w.resolutions_view() + ineligibles(w.followers_view(), w.next_view(), self.next_view()),
            decreases self.followers@.len() - self.next_follower,
        {
            if self.next_follower >= self.followers.len() {
                break;
            }
            let k = self.next_follower;
            let standing = standing_of(standings, k);
            if is_eligible(state, &self.name, self.followers[k].as_str(), standing) {
                assert(w.followers_view()[k as int] == self.followers@[k as int]@);
                assert(first_eligible(*state, w.name_view(), w.followers_view(), standings@, k as int) == k);
                break;
            }
            let ghost before = self.resolutions_view();
            let follower = self.followers[k].clone();
            self.resolutions.push((follower, SecondaryResolution::Ineligible));
            self.next_follower = k + 1;
            proof {
                assert(self.resolutions_view() =~= before.push((w.followers_view()[k as int], SecondaryResolution::Ineligible)));
                assert(ineligibles(w.followers_view(), w.next_view(), k + 1) =~= ineligibles(w.followers_view(), w.next_view(), k as int).push(
                    (w.followers_view()[k as int], SecondaryResolution::Ineligible),
                ));
            }
        }
        if self.next_follower < self.followers.len() {
            let k = self.next_follower;
            let standing = standing_of(standings, k);
            return Some(self.choice_for(k, standing));
        }
        self.exhaust_primary(state);
        None
    }

    /// Resolve the current follower's answer: the followers before them who are not offered the
    /// secondary are recorded first, as [`Self::next_choice`] does. A follower who answers yes
    /// pays a strategy token where the secondary costs one; the primary card is exhausted once
    /// the last follower is recorded.
    #[verifier::rlimit(60)]
    pub fn take_choice(&mut self, state: &mut GameState, standings: &Vec<Standing>, answer: ChoiceOption) -> (result: Result<SecondaryResolution, StrategySecondaryError>)
        requires
            old(self).wf(),
        ensures
            final(self).wf(),
            same_window(*old(self), *final(self)),
            took(*old(self), *final(self), *old(state), *final(state), standings@, answer@, result),
    {
        let ghost w = *self;
        let ghost start = *state;
        let choice = match self.next_choice(state, standings) {
            Some(c) => c,
            None => return Err(StrategySecondaryError::Complete),
        };
        proof {
            lemma_first_eligible(start, w.name_view(), w.followers_view(), standings@, w.next_view());
        }
        self.answer(state, standings, choice, answer)
    }

    /// Take the answer of the follower whose choice is open.
    #[verifier::rlimit(40)]
    fn answer(&mut self, state: &mut GameState, standings: &Vec<Standing>, choice: Choice, answer: ChoiceOption) -> (result: Result<SecondaryResolution, StrategySecondaryError>)
        requires
            old(self).wf(),
            old(self).next_view() < old(self).followers_view().len(),
            eligible(*old(state), old(self).name_view(), old(self).followers_view()[old(self).next_view()], standing_at(standings@, old(self).next_view())),
            choice.player@ == old(self).followers_view()[old(self).next_view()],
            choice.options@.map_values(|o: ChoiceOption| o@) == spec_secondary_choice(
                old(self).card_view(),
                card_display(old(self).card_view(), old(self).name_view()),
                costs_token(old(self).name_view(), standing_at(standings@, old(self).next_view())),
            ).1,
        ensures
            final(self).wf(),
            same_window(*old(self), *final(self)),
            answered_by(*old(self), *final(self), *old(state), *final(state), standings@, answer@, result),
    {
        let ghost w = *self;
        let ghost start = *state;
        let k = self.next_follower;
        let count = self.followers.len();
        assert(k < count);
        let ghost options = choice.options@.map_values(|o: ChoiceOption| o@);
        let ghost asked = answer@;
        let picked = match validate(&choice, answer) {
            Ok(a) => a,
            Err(e) => {
                proof {
                    if answered(options, asked) {
                        let j = choose|j: int| names_view(options, j, asked);
                        assert(crate::choice::names(choice.options@, j, asked));
                    }
                }
                return Err(StrategySecondaryError::IllegalChoice(e));
            },
        };
        proof {
            let f = crate::choice::first_named(choice.options@, asked);
            assert(names_view(options, f, asked));
            assert(answered(options, asked));
        }
        let standing = standing_of(standings, k);
        let player = choice.player;
        let resolution = if !follows(&picked) {
            SecondaryResolution::Declined
        } else {
            let leadership = match &self.name {
                Some(n) => str_eq(n.as_str(), "Leadership"),
                None => false,
            };
            if !leadership && !standing.free {
                let i = match find_seat(&state.players, player.as_str()) {
                    Some(i) => i,
                    None => return Err(StrategySecondaryError::FollowerMissing(player)),
                };
                if state.players[i].strategic_tokens <= 0 {
                    return Err(StrategySecondaryError::NoStrategyToken(player));
                }
                let mut seat = state.players.remove(i);
                seat.strategic_tokens = seat.strategic_tokens - 1;
                state.players.insert(i, seat);
            }
            SecondaryResolution::Followed
        };
        let ghost paid_state = *state;
        let ghost before = self.resolutions_view();
        self.resolutions.push((player, resolution));
        self.next_follower = k + 1;
        proof {
            assert(self.resolutions_view() =~= before.push((w.followers_view()[k as int], resolution)));
        }
        if self.next_follower == self.followers.len() {
            self.exhaust_primary(state);
        }
        assert(paid(start, paid_state, w.followers_view()[k as int], charges(asked, costs_token(w.name_view(), standing_at(standings@, k as int)))));
        Ok(resolution)
    }

    /// Exhaust the primary card, once every follower is recorded.
    fn exhaust_primary(&self, state: &mut GameState)
        requires
            self.wf(),
        ensures
            self.next_view() == self.followers_view().len() ==> exhausted_at(*old(state), *final(state), self.primary_view(), self.card_view()),
            self.next_view() < self.followers_view().len() ==> *final(state) == *old(state),
    {
        if self.next_follower == self.followers.len() {
            exhaust_strategy_card(state, self.primary_player.as_str(), self.card.as_str());
        }
    }

    /// The secondary choice the follower at `k` faces.
    fn choice_for(&self, k: usize, standing: Standing) -> (choice: Choice)
        requires
            k < self.followers@.len(),
        ensures
            choice.player@ == self.followers_view()[k as int],
            (choice.prompt@, choice.options@.map_values(|o: ChoiceOption| o@)) == spec_secondary_choice(
                self.card_view(),
                card_display(self.card_view(), self.name_view()),
                costs_token(self.name_view(), standing),
            ),
    {
        let leadership = match &self.name {
            Some(n) => str_eq(n.as_str(), "Leadership"),
            None => false,
        };
        let costs = !leadership && !standing.free;
        let name: Option<&str> = match &self.name {
            Some(n) => Some(n.as_str()),
            None => None,
        };
        secondary_choice(self.card.as_str(), name, self.followers[k].as_str(), costs)
    }
}

/// Two views of one window that differ at most in what has been recorded.
pub open spec fn same_window(a: StrategySecondaryWindow, b: StrategySecondaryWindow) -> bool {
    &&& a.primary_view() == b.primary_view()
    &&& a.card_view() == b.card_view()
    &&& a.name_view() == b.name_view()
    &&& a.followers_view() == b.followers_view()
}

/// The followers from `from` to `to`, each recorded as not offered the secondary.
pub open spec fn ineligibles(followers: Seq<Seq<char>>, from: int, to: int) -> Seq<(Seq<char>, SecondaryResolution)> {
    followers.subrange(from, to).map_values(|f: Seq<char>| (f, SecondaryResolution::Ineligible))
}

/// Whether an answer declines a secondary: the generic decline, or `no`.
pub open spec fn declines(answer: OptionView) -> bool {
    answer.kind == DECLINE_KIND@ || answer.id == "no"@
}

/// Whether an answer costs the follower a strategy token: a yes, where the secondary costs one.
pub open spec fn charges(answer: OptionView, costs: bool) -> bool {
    !declines(answer) && costs
}

/// The table after a follower answers yes: one strategy token spent where it costs one.
pub open spec fn paid(before: GameState, after: GameState, player: Seq<char>, costs: bool) -> bool {
    if costs {
        let i = seat_of(before.players@, player);
        &&& i >= 0
        &&& after.players@.len() == before.players@.len()
        &&& forall|j: int| 0 <= j < before.players@.len() && j != i ==> after.players@[j] == before.players@[j]
        &&& after.players@[i] == (Seat { strategic_tokens: (before.players@[i].strategic_tokens - 1) as i32, ..before.players@[i] })
        &&& after == (GameState { players: after.players, ..before })
    } else {
        after == before
    }
}

/// How the answer of the follower whose choice is open is taken.
pub open spec fn answered_by(
    w: StrategySecondaryWindow,
    v: StrategySecondaryWindow,
    before: GameState,
    after: GameState,
    standings: Seq<Standing>,
    answer: OptionView,
    result: Result<SecondaryResolution, StrategySecondaryError>,
) -> bool {
    let k = w.next_view();
    let n = w.followers_view().len();
    let player = w.followers_view()[k];
    let costs = costs_token(w.name_view(), standing_at(standings, k));
    let options = spec_secondary_choice(w.card_view(), card_display(w.card_view(), w.name_view()), costs).1;
    if !answered(options, answer) {
        &&& result matches Err(StrategySecondaryError::IllegalChoice(e))
        &&& e.player@ == player
        &&& e.answered@ == answer.id
        &&& v.next_view() == k
        &&& v.resolutions_view() == w.resolutions_view()
        &&& after == before
    } else {
        let resolution = if declines(answer) { SecondaryResolution::Declined } else { SecondaryResolution::Followed };
        &&& result == Ok::<SecondaryResolution, StrategySecondaryError>(resolution)
        &&& v.next_view() == k + 1
        &&& v.resolutions_view() == w.resolutions_view().push((player, resolution))
        &&& exists|mid: GameState| {
            &&& #[trigger] paid(before, mid, player, charges(answer, costs))
            &&& k + 1 == n ==> exhausted_at(mid, after, w.primary_view(), w.card_view())
            &&& k + 1 < n ==> after == mid
        }
    }
}

/// How a follower's answer is taken: the followers before the next one offered are recorded as
/// not offered, as [`StrategySecondaryWindow::next_choice`] does, and then that follower's
/// answer is taken; with nobody left to offer, the window is complete.
pub open spec fn took(
    w: StrategySecondaryWindow,
    v: StrategySecondaryWindow,
    before: GameState,
    after: GameState,
    standings: Seq<Standing>,
    answer: OptionView,
    result: Result<SecondaryResolution, StrategySecondaryError>,
) -> bool {
    let k = first_eligible(before, w.name_view(), w.followers_view(), standings, w.next_view());
    let recorded = w.resolutions_view() + ineligibles(w.followers_view(), w.next_view(), k);
    if k == w.followers_view().len() {
        &&& result matches Err(StrategySecondaryError::Complete)
        &&& v.next_view() == k
        &&& v.resolutions_view() == recorded
        &&& exhausted_at(before, after, w.primary_view(), w.card_view())
    } else {
        exists|m: StrategySecondaryWindow| {
            &&& m.wf()
            &&& same_window(w, m)
            &&& m.next_view() == k
            &&& m.resolutions_view() == recorded
            &&& #[trigger] answered_by(m, v, before, after, standings, answer, result)
        }
    }
}

/// The printed name of a strategy card, where one is listed.
pub open spec fn card_name_of(card_names: Seq<(String, String)>, card: Seq<char>) -> Option<Seq<char>>
    decreases card_names.len(),
{
    if card_names.len() == 0 {
        None
    } else if card_names[0].0@ == card {
        Some(card_names[0].1@)
    } else {
        card_name_of(card_names.drop_first(), card)
    }
}

fn card_name_for(card_names: &Vec<(String, String)>, card: &str) -> (name: Option<String>)
    ensures
        opt_name(name) == card_name_of(card_names@, card@),
{
    let mut k: usize = 0;
    assert(card_names@.subrange(0, card_names@.len() as int) =~= card_names@);
    while k < card_names.len()
        invariant
            k <= card_names@.len(),
            card_name_of(card_names@, card@) == card_name_of(card_names@.subrange(k as int, card_names@.len() as int), card@),
        decreases card_names@.len() - k,
    {
        assert(card_names@.subrange(k as int, card_names@.len() as int).drop_first() =~= card_names@.subrange(k + 1, card_names@.len() as int));
        if str_eq(card_names[k].0.as_str(), card) {
            return Some(card_names[k].1.clone());
        }
        k = k + 1;
    }
    None
}

/// Begin a strategic action and open its follower window. The caller applies the primary
/// before driving the window; the selected card is exhausted only when every follower is
/// recorded. `card_names` gives each strategy card's printed name.
pub fn begin_strategic_action(
    state: &GameState,
    labels: &Vec<(String, String)>,
    card_names: &Vec<(String, String)>,
    player: &str,
    answer: ChoiceOption,
) -> (result: Result<StrategySecondaryWindow, StrategyActionError>)
    ensures
        match result {
            Ok(w) => {
                &&& w.wf()
                &&& exists|card: String| card@ == w.card_view() && #[trigger] selected(*state, labels@, player@, answer@, Ok(card))
                &&& w.primary_view() == player@
                &&& w.name_view() == card_name_of(card_names@, w.card_view())
                &&& w.followers_view() == followers_of(names(state.seating_order@), player@)
                &&& w.next_view() == 0
                &&& w.resolutions_view().len() == 0
            },
            Err(e) => selected(*state, labels@, player@, answer@, Err(e)),
        },
{
    let card = match selected_strategic_card(state, labels, player, answer) {
        Ok(card) => card,
        Err(e) => return Err(e),
    };
    let name = card_name_for(card_names, card.as_str());
    let followers = clockwise_followers(&state.seating_order, player);
    let window = StrategySecondaryWindow {
        primary_player: player.to_string(),
        card,
        name,
        followers,
        next_follower: 0,
        resolutions: Vec::new(),
    };
    assert(window.resolutions_view() =~= Seq::<(Seq<char>, SecondaryResolution)>::empty());
    Ok(window)
}

} // verus!
