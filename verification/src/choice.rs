//! Decisions put to a player: a choice is a question with a closed list of options, and an
//! answer is legal only when it names one of them.

use vstd::prelude::*;
use crate::text::str_eq;

verus! {

/// The kind shared by every option that declines.
pub const DECLINE_KIND: &'static str = "decline";

/// The id of the generic decline option.
pub const DECLINE_ID: &'static str = "decline";

/// A factual value attached to an option, for whoever decides.
#[derive(Debug, Clone, PartialEq, Eq)]
pub enum Value {
    Null,
    Bool(bool),
    Int(i128),
    Text(String),
}

/// The mathematical form of a [`Value`].
pub enum ValueView {
    Null,
    Bool(bool),
    Int(int),
    Text(Seq<char>),
}

impl View for Value {
    type V = ValueView;

    open spec fn view(&self) -> ValueView {
        match self {
            Value::Null => ValueView::Null,
            Value::Bool(b) => ValueView::Bool(*b),
            Value::Int(i) => ValueView::Int(*i as int),
            Value::Text(s) => ValueView::Text(s@),
        }
    }
}

/// One answer a choice offers.
#[derive(Debug)]
pub struct ChoiceOption {
    pub id: String,
    pub kind: String,
    pub label: String,
    /// Named facts about the option, in the order they were attached.
    pub payload: Vec<(String, Value)>,
}

/// The mathematical form of an option: its id, kind and label.
pub struct OptionView {
    pub id: Seq<char>,
    pub kind: Seq<char>,
    pub label: Seq<char>,
}

impl View for ChoiceOption {
    type V = OptionView;

    open spec fn view(&self) -> OptionView {
        OptionView { id: self.id@, kind: self.kind@, label: self.label@ }
    }
}

/// The payload of an option, as names and values.
pub open spec fn payload_view(option: &ChoiceOption) -> Seq<(Seq<char>, ValueView)> {
    option.payload@.map_values(|entry: (String, Value)| (entry.0@, entry.1@))
}

/// Whether an option declines.
pub open spec fn spec_is_decline(option: OptionView) -> bool {
    option.kind == DECLINE_KIND@
}

impl Clone for ChoiceOption {
    fn clone(&self) -> (copy: Self)
        ensures
            copy@ == self@,
            payload_view(&copy) == payload_view(self),
    {
        let mut payload: Vec<(String, Value)> = Vec::new();
        let mut i: usize = 0;
        while i < self.payload.len()
            invariant
                i <= self.payload@.len(),
                payload@.len() == i,
                forall|k: int| 0 <= k < i ==> (#[trigger] payload@[k]).0@ == self.payload@[k].0@
                    && payload@[k].1@ == self.payload@[k].1@,
            decreases self.payload@.len() - i,
        {
            let entry = &self.payload[i];
            let value = match &entry.1 {
                Value::Null => Value::Null,
                Value::Bool(b) => Value::Bool(*b),
                Value::Int(n) => Value::Int(*n),
                Value::Text(s) => Value::Text(s.clone()),
            };
            payload.push((entry.0.clone(), value));
            i = i + 1;
        }
        let copy = ChoiceOption {
            id: self.id.clone(),
            kind: self.kind.clone(),
            label: self.label.clone(),
            payload,
        };
        assert(payload_view(&copy) =~= payload_view(self));
        copy
    }
}

impl ChoiceOption {
    /// An option with an id, a kind and a human label, and no payload.
    pub fn labelled(id: &str, kind: &str, label: &str) -> (option: Self)
        ensures
            option@ == (OptionView { id: id@, kind: kind@, label: label@ }),
            option.payload@.len() == 0,
    {
        ChoiceOption {
            id: id.to_string(),
            kind: kind.to_string(),
            label: label.to_string(),
            payload: Vec::new(),
        }
    }

    /// An option whose label is its id.
    pub fn new(id: &str, kind: &str) -> (option: Self)
        ensures
            option@ == (OptionView { id: id@, kind: kind@, label: id@ }),
            option.payload@.len() == 0,
    {
        Self::labelled(id, kind, id)
    }

    /// The generic option that declines.
    pub fn decline() -> (option: Self)
        ensures
            option@ == (OptionView { id: DECLINE_ID@, kind: DECLINE_KIND@, label: DECLINE_ID@ }),
            spec_is_decline(option@),
            option.payload@.len() == 0,
    {
        Self::labelled(DECLINE_ID, DECLINE_KIND, DECLINE_ID)
    }

    /// Attach a named fact.
    pub fn with(self, name: &str, value: Value) -> (option: Self)
        ensures
            option@ == self@,
            payload_view(&option) == payload_view(&self).push((name@, value@)),
    {
        let mut option = self;
        let ghost before = payload_view(&option);
        option.payload.push((name.to_string(), value));
        assert(payload_view(&option) =~= before.push((name@, value@)));
        option
    }

    /// Whether this option declines.
    pub fn is_decline(&self) -> (yes: bool)
        ensures
            yes == spec_is_decline(self@),
    {
        str_eq(self.kind.as_str(), DECLINE_KIND)
    }
}

/// A question put to one player.
#[derive(Debug)]
pub struct Choice {
    pub player: String,
    pub prompt: String,
    pub options: Vec<ChoiceOption>,
}

impl Choice {
    pub fn new(player: &str, prompt: &str, options: Vec<ChoiceOption>) -> (choice: Self)
        ensures
            choice.player@ == player@,
            choice.prompt@ == prompt@,
            choice.options@ == options@,
    {
        Choice { player: player.to_string(), prompt: prompt.to_string(), options }
    }
}

/// The ids a choice offers, in order.
pub open spec fn option_ids(options: Seq<ChoiceOption>) -> Seq<Seq<char>> {
    options.map_values(|option: ChoiceOption| option@.id)
}

/// An answer that names none of the offered options.
#[derive(Debug)]
pub struct IllegalChoice {
    /// Who was asked.
    pub player: String,
    /// The id that was answered.
    pub answered: String,
}

/// Whether `answer` names the option at `index` of `options`: the same id and the same kind.
pub open spec fn names(options: Seq<ChoiceOption>, index: int, answer: OptionView) -> bool {
    0 <= index < options.len() && options[index]@.id == answer.id && options[index]@.kind
        == answer.kind
}

/// Whether any offered option is the one `answer` names.
pub open spec fn offered(options: Seq<ChoiceOption>, answer: OptionView) -> bool {
    exists|index: int| names(options, index, answer)
}

/// The first offered option that `answer` names.
pub open spec fn first_named(options: Seq<ChoiceOption>, answer: OptionView) -> int {
    choose|index: int|
        names(options, index, answer) && forall|earlier: int|
            0 <= earlier < index ==> !names(options, earlier, answer)
}

/// Check an answer against the choice it answers. The offered option is returned, so what
/// goes on is always what was offered, never what the decider wrote.
pub fn validate(choice: &Choice, answer: ChoiceOption) -> (result: Result<ChoiceOption, IllegalChoice>)
    ensures
        match result {
            Ok(option) => {
                &&& offered(choice.options@, answer@)
                &&& names(choice.options@, first_named(choice.options@, answer@), answer@)
                &&& option@ == choice.options@[first_named(choice.options@, answer@)]@
            },
            Err(illegal) => {
                &&& !offered(choice.options@, answer@)
                &&& illegal.player@ == choice.player@
                &&& illegal.answered@ == answer.id@
            },
        },
{
    let mut i: usize = 0;
    while i < choice.options.len()
        invariant
            i <= choice.options@.len(),
            forall|k: int| 0 <= k < i ==> !names(choice.options@, k, answer@),
        decreases choice.options@.len() - i,
    {
        let option = &choice.options[i];
        if str_eq(option.id.as_str(), answer.id.as_str()) && str_eq(
            option.kind.as_str(),
            answer.kind.as_str(),
        ) {
            assert(names(choice.options@, i as int, answer@));
            proof {
                let f = first_named(choice.options@, answer@);
                assert(names(choice.options@, f, answer@) && forall|earlier: int|
                    0 <= earlier < f ==> !names(choice.options@, earlier, answer@));
                if f < i {
                } else if f > i {
                    assert(!names(choice.options@, i as int, answer@));
                }
                assert(f == i);
            }
            return Ok(option.clone());
        }
        i = i + 1;
    }
    Err(IllegalChoice { player: choice.player.clone(), answered: answer.id })
}

/// The offered options, as views.
pub open spec fn option_views(options: Seq<ChoiceOption>) -> Seq<OptionView> {
    options.map_values(|o: ChoiceOption| o@)
}

/// Whether `answer` names the view at `k`: the same id and the same kind.
pub open spec fn names_at(views: Seq<OptionView>, k: int, answer: OptionView) -> bool {
    0 <= k < views.len() && views[k].id == answer.id && views[k].kind == answer.kind
}

/// Whether the view at `k` is the first that `answer` names.
pub open spec fn first_answered(views: Seq<OptionView>, k: int, answer: OptionView) -> bool {
    names_at(views, k, answer) && forall|e: int| 0 <= e < k ==> !#[trigger] names_at(views, e, answer)
}

/// Whether `answer` names none of the views.
pub open spec fn none_answered(views: Seq<OptionView>, answer: OptionView) -> bool {
    forall|k: int| !#[trigger] names_at(views, k, answer)
}

/// Where the option an answer names first stands among a choice's options, if it is offered.
pub fn answered_index(choice: &Choice, answer: &ChoiceOption) -> (found: Option<usize>)
    ensures
        match found {
            Some(k) => first_answered(option_views(choice.options@), k as int, answer@),
            None => none_answered(option_views(choice.options@), answer@),
        },
{
    let ghost views = option_views(choice.options@);
    let mut i: usize = 0;
    while i < choice.options.len()
        invariant
            i <= choice.options@.len(),
            views == option_views(choice.options@),
            forall|k: int| 0 <= k < i ==> !#[trigger] names_at(views, k, answer@),
        decreases choice.options@.len() - i,
    {
        let option = &choice.options[i];
        if str_eq(option.id.as_str(), answer.id.as_str()) && str_eq(option.kind.as_str(), answer.kind.as_str()) {
            assert(names_at(views, i as int, answer@));
            return Some(i);
        }
        assert(!names_at(views, i as int, answer@));
        i = i + 1;
    }
    assert forall|k: int| !#[trigger] names_at(views, k, answer@) by {
        if 0 <= k < views.len() {
        }
    }
    None
}

} // verus!
