//! Deterministic timing-ability registration, priority order and frequency scopes.
//!
//! Abilities are registered in order and retrieved by event type and relation without
//! reordering; a window offers them to players in priority order; and each ability's frequency
//! names the scope (trigger, turn or round) in which it is spent.

use vstd::prelude::*;
use crate::choice::IllegalChoice;
use crate::text::str_eq;

verus! {

/// The point relative to an event at which an ability may resolve.
#[derive(Debug, Clone, Copy, PartialEq, Eq, Structural)]
pub enum Relation {
    /// Resolve before the event's ordinary effect.
    When,
    /// Resolve after the event's ordinary effect.
    After,
}

/// The longest scope in which an ability may be used.
#[derive(Debug, Clone, Copy, PartialEq, Eq, Structural)]
pub enum Frequency {
    /// Once for each triggering event occurrence.
    OncePerTrigger,
    /// Once during a turn.
    OncePerTurn,
    /// Once during a round.
    OncePerRound,
    /// No cross-window usage limit.
    Unlimited,
}

/// The lowercase relation word used in ability ids and prompts.
pub open spec fn spec_relation_name(relation: Relation) -> Seq<char> {
    match relation {
        Relation::When => "when"@,
        Relation::After => "after"@,
    }
}

/// The lowercase relation word used in ability ids and prompts (`"when"` / `"after"`).
pub fn relation_name(relation: Relation) -> (name: &'static str)
    ensures
        name@ == spec_relation_name(relation),
{
    match relation {
        Relation::When => "when",
        Relation::After => "after",
    }
}

/// The phase of the round, as far as timing windows care.
#[derive(Debug, Clone, Copy, PartialEq, Eq, Structural)]
pub enum Phase {
    Setup,
    Strategy,
    Action,
    Status,
    Agenda,
}

/// Strategy and agenda windows go round the table from the speaker; the others go in
/// initiative order from the active player.
pub open spec fn spec_uses_speaker_order(phase: Phase) -> bool {
    phase == Phase::Strategy || phase == Phase::Agenda
}

/// An event occurrence, as a timing window sees it: its sequence id and its type.
#[derive(Debug)]
pub struct Event {
    pub id: u64,
    pub event_type: String,
}

/// An ability registered against one deterministic timing window: what the registry and the
/// window order read of it.
#[derive(Debug)]
pub struct Ability {
    /// Stable rule or card identifier.
    pub id: String,
    /// Player who owns the ability.
    pub owner: String,
    /// Triggering event type.
    pub event_type: String,
    /// Whether this is a WHEN or AFTER ability.
    pub relation: Relation,
    /// Cross-window usage metadata.
    pub frequency: Frequency,
    /// Whether a decider may decline this ability.
    pub optional: bool,
    /// Whether multiple slots with this identifier may resolve in one window.
    pub repeatable_in_window: bool,
}

impl Ability {
    /// An ability with the default frequency (once per trigger), mandatory and not repeatable.
    pub fn new(id: &str, owner: &str, event_type: &str, relation: Relation) -> (ability: Self)
        ensures
            ability.id@ == id@,
            ability.owner@ == owner@,
            ability.event_type@ == event_type@,
            ability.relation == relation,
            ability.frequency == Frequency::OncePerTrigger,
            !ability.optional,
            !ability.repeatable_in_window,
    {
        Ability {
            id: id.to_string(),
            owner: owner.to_string(),
            event_type: event_type.to_string(),
            relation,
            frequency: Frequency::OncePerTrigger,
            optional: false,
            repeatable_in_window: false,
        }
    }

    /// Set cross-window frequency metadata.
    pub fn with_frequency(self, frequency: Frequency) -> (ability: Self)
        ensures
            ability == (Ability { frequency, ..self }),
    {
        Ability { frequency, ..self }
    }

    /// Mark whether the ability can be declined by its owner.
    pub fn with_optional(self, optional: bool) -> (ability: Self)
        ensures
            ability == (Ability { optional, ..self }),
    {
        Ability { optional, ..self }
    }

    /// Mark whether distinct slots may share this identifier in one window.
    pub fn with_repeatable_in_window(self, repeatable_in_window: bool) -> (ability: Self)
        ensures
            ability == (Ability { repeatable_in_window, ..self }),
    {
        Ability { repeatable_in_window, ..self }
    }
}

/// Which events an absolute "cannot" effect matches.
#[derive(Debug)]
pub enum Prohibition {
    /// Every event.
    Always,
    /// Events of one type.
    EventType(String),
}

/// Whether a prohibition matches an event.
pub open spec fn spec_prohibits(prohibition: Prohibition, event: Event) -> bool {
    match prohibition {
        Prohibition::Always => true,
        Prohibition::EventType(t) => t@ == event.event_type@,
    }
}

/// A registered absolute "cannot" effect.
#[derive(Debug)]
pub struct CannotEffect {
    pub label: String,
    pub predicate: Prohibition,
}

impl CannotEffect {
    pub fn new(label: &str, predicate: Prohibition) -> (effect: Self)
        ensures
            effect.label@ == label@,
            effect.predicate == predicate,
    {
        CannotEffect { label: label.to_string(), predicate }
    }
}

/// Ordered registry of timing abilities and absolute prohibitions.
#[derive(Debug)]
pub struct AbilityRegistry {
    pub abilities: Vec<Ability>,
    pub cannot: Vec<CannotEffect>,
}

/// The positions of the registered abilities for an event type and relation, in registration
/// order.
pub open spec fn matching(abilities: Seq<Ability>, event_type: Seq<char>, relation: Relation) -> Seq<int>
    decreases abilities.len(),
{
    if abilities.len() == 0 {
        Seq::empty()
    } else {
        let before = matching(abilities.drop_last(), event_type, relation);
        let last = abilities.last();
        if last.event_type@ == event_type && last.relation == relation {
            before.push(abilities.len() - 1)
        } else {
            before
        }
    }
}

/// The first prohibition that matches an event, by position, or -1.
pub open spec fn first_prohibition(cannot: Seq<CannotEffect>, event: Event) -> int
    decreases cannot.len(),
{
    if cannot.len() == 0 {
        -1
    } else {
        let k = first_prohibition(cannot.drop_last(), event);
        if k >= 0 {
            k
        } else if spec_prohibits(cannot.last().predicate, event) {
            cannot.len() - 1
        } else {
            -1
        }
    }
}

/// Registering more abilities never reorders what an event already finds: the earlier matches
/// stay, in their order, ahead of any new ones.
pub proof fn registering_keeps_earlier_order(abilities: Seq<Ability>, more: Seq<Ability>, event_type: Seq<char>, relation: Relation)
    ensures
        matching(abilities + more, event_type, relation).subrange(0, matching(abilities, event_type, relation).len() as int)
            == matching(abilities, event_type, relation),
        matching(abilities, event_type, relation).len() <= matching(abilities + more, event_type, relation).len(),
    decreases more.len(),
{
    if more.len() == 0 {
        assert(abilities + more =~= abilities);
    } else {
        registering_keeps_earlier_order(abilities, more.drop_last(), event_type, relation);
        assert((abilities + more).drop_last() =~= abilities + more.drop_last());
    }
}

/// What an event finds is partitioned by event type and relation: every position found holds an
/// ability of that type and relation.
pub proof fn found_abilities_match(abilities: Seq<Ability>, event_type: Seq<char>, relation: Relation)
    ensures
        forall|k: int| 0 <= k < matching(abilities, event_type, relation).len() ==> {
            let at = #[trigger] matching(abilities, event_type, relation)[k];
            &&& 0 <= at < abilities.len()
            &&& abilities[at].event_type@ == event_type
            &&& abilities[at].relation == relation
        },
    decreases abilities.len(),
{
    if abilities.len() > 0 {
        found_abilities_match(abilities.drop_last(), event_type, relation);
        let before = abilities.drop_last();
        assert forall|j: int| 0 <= j < before.len() implies #[trigger] abilities[j] == before[j] by {}
    }
}

proof fn lemma_first_prohibition(cannot: Seq<CannotEffect>, event: Event)
    ensures
        -1 <= first_prohibition(cannot, event) < cannot.len(),
        first_prohibition(cannot, event) >= 0 ==> spec_prohibits(cannot[first_prohibition(cannot, event)].predicate, event),
    decreases cannot.len(),
{
    if cannot.len() > 0 {
        lemma_first_prohibition(cannot.drop_last(), event);
    }
}

fn prohibits(prohibition: &Prohibition, event: &Event) -> (yes: bool)
    ensures
        yes == spec_prohibits(*prohibition, *event),
{
    match prohibition {
        Prohibition::Always => true,
        Prohibition::EventType(t) => str_eq(t.as_str(), event.event_type.as_str()),
    }
}

impl AbilityRegistry {
    pub fn new() -> (registry: Self)
        ensures
            registry.abilities@.len() == 0,
            registry.cannot@.len() == 0,
    {
        AbilityRegistry { abilities: Vec::new(), cannot: Vec::new() }
    }

    /// Register abilities in the supplied order. Duplicate identifiers are retained; the
    /// resolver applies its per-window semantics to registered slots.
    pub fn register(&mut self, abilities: Vec<Ability>)
        ensures
            final(self).abilities@ == old(self).abilities@ + abilities@,
            final(self).cannot == old(self).cannot,
    {
        let mut more = abilities;
        self.abilities.append(&mut more);
    }

    /// The positions of the abilities registered for an event type and relation, in their
    /// registration order.
    pub fn for_event(&self, event_type: &str, relation: Relation) -> (found: Vec<usize>)
        ensures
            found@.map_values(|k: usize| k as int) == matching(self.abilities@, event_type@, relation),
            forall|k: int| 0 <= k < found@.len() ==> (#[trigger] found@[k]) < self.abilities@.len(),
    {
        let mut found: Vec<usize> = Vec::new();
        let mut k: usize = 0;
        while k < self.abilities.len()
            invariant
                k <= self.abilities@.len(),
                found@.map_values(|j: usize| j as int) == matching(self.abilities@.subrange(0, k as int), event_type@, relation),
                forall|j: int| 0 <= j < found@.len() ==> (#[trigger] found@[j]) < k,
            decreases self.abilities@.len() - k,
        {
            let ghost before = found@.map_values(|j: usize| j as int);
            proof {
                assert(self.abilities@.subrange(0, k + 1).drop_last() =~= self.abilities@.subrange(0, k as int));
            }
            let ability = &self.abilities[k];
            if str_eq(ability.event_type.as_str(), event_type) && ability.relation == relation {
                found.push(k);
                assert(found@.map_values(|j: usize| j as int) =~= before.push(k as int));
            }
            k = k + 1;
        }
        assert(self.abilities@.subrange(0, self.abilities@.len() as int) =~= self.abilities@);
        found
    }

    /// The ids of the abilities registered for an event type and relation, in registration
    /// order.
    pub fn ids_for_event(&self, event_type: &str, relation: Relation) -> (ids: Vec<String>)
        ensures
            ids@.len() == matching(self.abilities@, event_type@, relation).len(),
            forall|k: int| 0 <= k < ids@.len() ==> (#[trigger] ids@[k])@ == self.abilities@[matching(
                self.abilities@,
                event_type@,
                relation,
            )[k]].id@,
    {
        let found = self.for_event(event_type, relation);
        let mut ids: Vec<String> = Vec::new();
        let mut k: usize = 0;
        while k < found.len()
            invariant
                k <= found@.len(),
                ids@.len() == k,
                found@.map_values(|j: usize| j as int) == matching(self.abilities@, event_type@, relation),
                forall|j: int| 0 <= j < found@.len() ==> (#[trigger] found@[j]) < self.abilities@.len(),
                forall|j: int| 0 <= j < k ==> (#[trigger] ids@[j])@ == self.abilities@[found@[j] as int].id@,
            decreases found@.len() - k,
        {
            ids.push(self.abilities[found[k]].id.clone());
            k = k + 1;
        }
        proof {
            assert forall|j: int| 0 <= j < ids@.len() implies (#[trigger] ids@[j])@ == self.abilities@[matching(
                self.abilities@,
                event_type@,
                relation,
            )[j]].id@ by {
                assert(found@.map_values(|i: usize| i as int)[j] == found@[j] as int);
            }
        }
        ids
    }

    /// Register an absolute "cannot" effect. Registrations are persistent.
    pub fn forbid(&mut self, label: &str, predicate: Prohibition)
        ensures
            final(self).abilities == old(self).abilities,
            final(self).cannot@.len() == old(self).cannot@.len() + 1,
            final(self).cannot@.drop_last() == old(self).cannot@,
            final(self).cannot@.last().label@ == label@,
            final(self).cannot@.last().predicate == predicate,
    {
        self.cannot.push(CannotEffect::new(label, predicate));
        assert(self.cannot@.drop_last() =~= old(self).cannot@);
    }

    /// The label of the first registered absolute prohibition that matches an event.
    pub fn is_forbidden(&self, event: &Event) -> (label: Option<String>)
        ensures
            match label {
                Some(l) => {
                    let k = first_prohibition(self.cannot@, *event);
                    k >= 0 && l@ == self.cannot@[k].label@
                },
                None => first_prohibition(self.cannot@, *event) == -1,
            },
    {
        proof {
            lemma_first_prohibition(self.cannot@, *event);
        }
        let mut k: usize = 0;
        while k < self.cannot.len()
            invariant
                k <= self.cannot@.len(),
                first_prohibition(self.cannot@.subrange(0, k as int), *event) == -1,
            decreases self.cannot@.len() - k,
        {
            proof {
                assert(self.cannot@.subrange(0, k + 1).drop_last() =~= self.cannot@.subrange(0, k as int));
            }
            if prohibits(&self.cannot[k].predicate, event) {
                proof {
                    lemma_first_prohibition_extends(self.cannot@, k as int + 1, *event);
                }
                return Some(self.cannot[k].label.clone());
            }
            k = k + 1;
        }
        assert(self.cannot@.subrange(0, self.cannot@.len() as int) =~= self.cannot@);
        None
    }
}

/// Once a prefix holds a match, the whole list's first match is that prefix's.
proof fn lemma_first_prohibition_extends(cannot: Seq<CannotEffect>, k: int, event: Event)
    requires
        0 <= k <= cannot.len(),
        first_prohibition(cannot.subrange(0, k), event) >= 0,
    ensures
        first_prohibition(cannot, event) == first_prohibition(cannot.subrange(0, k), event),
    decreases cannot.len() - k,
{
    if k < cannot.len() {
        assert(cannot.subrange(0, k + 1).drop_last() =~= cannot.subrange(0, k));
        lemma_first_prohibition_extends(cannot, k + 1, event);
    } else {
        assert(cannot.subrange(0, k) =~= cannot);
    }
}

/// The scope in which a use of an ability is spent.
#[derive(Debug, Clone, Copy, PartialEq, Eq, Structural)]
pub enum FrequencyScope {
    Trigger(u64),
    Turn(u64),
    Round(u64),
}

/// A resolver failure.
#[derive(Debug)]
pub enum TimingError {
    /// A decider attempted to choose an option that this timing window did not offer.
    IllegalChoice(IllegalChoice),
    /// A nested event would exceed the resolver's explicit depth budget.
    NestedEmissionDepthExceeded { maximum_depth: usize, event_chain: Vec<(String, u64)> },
    /// A timing lifecycle counter cannot advance without losing replay identity.
    CounterExhausted(String),
    /// A stateful rule was emitted without the active game's services.
    StatefulContextRequired(String),
}

/// Whether an outcome is the refusal of an exhausted counter with the given name.
pub open spec fn exhausted(outcome: &Result<(), TimingError>, counter: Seq<char>) -> bool {
    match outcome {
        Err(TimingError::CounterExhausted(c)) => c@ == counter,
        _ => false,
    }
}

/// A timing-window resolver: registration, player order, and frequency bookkeeping.
#[derive(Debug)]
pub struct Resolver {
    pub registry: AbilityRegistry,
    pub initiative_order: Vec<String>,
    pub seating_order: Vec<String>,
    pub active_player: Option<String>,
    pub speaker: Option<String>,
    pub phase: Phase,
    pub log: Vec<String>,
    pub emission_stack: Vec<(String, u64)>,
    pub maximum_depth: usize,
    pub used: Vec<(String, FrequencyScope)>,
    pub round_number: u64,
    pub turn_number: u64,
}

/// The names in a list, as characters.
pub open spec fn ids(list: Seq<String>) -> Seq<Seq<char>> {
    list.map_values(|s: String| s@)
}

/// The first position of `x` in `s`, or -1.
pub open spec fn position(s: Seq<Seq<char>>, x: Seq<char>) -> int
    decreases s.len(),
{
    if s.len() == 0 {
        -1
    } else if s[0] == x {
        0
    } else {
        let k = position(s.drop_first(), x);
        if k < 0 {
            -1
        } else {
            k + 1
        }
    }
}

proof fn lemma_position(s: Seq<Seq<char>>, x: Seq<char>)
    ensures
        -1 <= position(s, x) < s.len(),
        position(s, x) >= 0 ==> s[position(s, x)] == x,
        position(s, x) == -1 ==> !s.contains(x),
    decreases s.len(),
{
    if s.len() > 0 && s[0] != x {
        lemma_position(s.drop_first(), x);
        if position(s, x) == -1 && s.contains(x) {
            let i = choose|i: int| 0 <= i < s.len() && s[i] == x;
            assert(s.drop_first()[i - 1] == x);
        }
    }
}

/// The order in which players are offered a window: the sequence for the phase, rotated so that
/// its first player (the speaker in strategy and agenda windows, the active player otherwise)
/// leads. A first player who is not in the sequence goes first, ahead of all of it.
pub open spec fn spec_player_order(r: Resolver) -> Seq<Seq<char>> {
    let speaker_order = spec_uses_speaker_order(r.phase);
    let sequence = if speaker_order {
        if r.seating_order@.len() == 0 {
            ids(r.initiative_order@)
        } else {
            ids(r.seating_order@)
        }
    } else {
        ids(r.initiative_order@)
    };
    let first = if speaker_order { r.speaker } else { r.active_player };
    match first {
        None => sequence,
        Some(f) => {
            let i = position(sequence, f@);
            if i < 0 {
                seq![f@] + sequence
            } else {
                sequence.subrange(i, sequence.len() as int) + sequence.subrange(0, i)
            }
        },
    }
}

/// The scope a use of an ability is spent in, or `None` for an unlimited one.
pub open spec fn spec_scope(frequency: Frequency, event_id: u64, turn: u64, round: u64) -> Option<FrequencyScope> {
    match frequency {
        Frequency::OncePerTrigger => Some(FrequencyScope::Trigger(event_id)),
        Frequency::OncePerTurn => Some(FrequencyScope::Turn(turn)),
        Frequency::OncePerRound => Some(FrequencyScope::Round(round)),
        Frequency::Unlimited => None,
    }
}

/// Whether an ability has been spent in the scope it would now be used in.
pub open spec fn spec_is_used(r: Resolver, ability: Ability, event: Event) -> bool {
    match spec_scope(ability.frequency, event.id, r.turn_number, r.round_number) {
        None => false,
        Some(scope) => exists|k: int| 0 <= k < r.used@.len() && (#[trigger] r.used@[k]).0@ == ability.id@
            && r.used@[k].1 == scope,
    }
}

fn clone_ids(list: &Vec<String>) -> (copy: Vec<String>)
    ensures
        ids(copy@) == ids(list@),
{
    let mut copy: Vec<String> = Vec::new();
    let mut k: usize = 0;
    while k < list.len()
        invariant
            k <= list@.len(),
            ids(copy@) == ids(list@.subrange(0, k as int)),
        decreases list@.len() - k,
    {
        let ghost before = copy@;
        let item = list[k].clone();
        copy.push(item);
        proof {
            assert(copy@ =~= before.push(item));
            assert(list@.subrange(0, k + 1) =~= list@.subrange(0, k as int).push(list@[k as int]));
            assert(ids(copy@) =~= ids(before).push(item@));
            assert(ids(list@.subrange(0, k + 1)) =~= ids(list@.subrange(0, k as int)).push(list@[k as int]@));
        }
        k = k + 1;
    }
    assert(list@.subrange(0, list@.len() as int) =~= list@);
    copy
}

/// The first position of `x` in a list.
fn position_of(list: &Vec<String>, x: &str) -> (at: Option<usize>)
    ensures
        match at {
            Some(i) => position(ids(list@), x@) == i as int && i < list@.len(),
            None => position(ids(list@), x@) == -1,
        },
{
    let ghost all = ids(list@);
    let mut k: usize = 0;
    assert(all.subrange(0, all.len() as int) =~= all);
    while k < list.len()
        invariant
            k <= list@.len(),
            all == ids(list@),
            position(all, x@) == if position(all.subrange(k as int, all.len() as int), x@) < 0 {
                -1
            } else {
                position(all.subrange(k as int, all.len() as int), x@) + k
            },
        decreases list@.len() - k,
    {
        let ghost rest = all.subrange(k as int, all.len() as int);
        assert(rest.drop_first() =~= all.subrange(k + 1, all.len() as int));
        assert(rest[0] == list@[k as int]@);
        if str_eq(list[k].as_str(), x) {
            return Some(k);
        }
        k = k + 1;
    }
    None
}

impl Resolver {
    /// The deepest chain of simultaneously resolving events a resolver allows by default.
    pub const DEFAULT_MAXIMUM_DEPTH: usize = 100;

    /// An action-phase resolver with the supplied initiative order, at round one, turn one.
    pub fn new(initiative_order: Vec<String>, active_player: Option<String>) -> (r: Self)
        ensures
            r.initiative_order == initiative_order,
            r.active_player == active_player,
            r.seating_order@.len() == 0,
            r.speaker is None,
            r.phase == Phase::Action,
            r.log@.len() == 0,
            r.emission_stack@.len() == 0,
            r.maximum_depth == 100,
            r.used@.len() == 0,
            r.round_number == 1,
            r.turn_number == 1,
            r.registry.abilities@.len() == 0,
            r.registry.cannot@.len() == 0,
    {
        Resolver {
            registry: AbilityRegistry::new(),
            initiative_order,
            seating_order: Vec::new(),
            active_player,
            speaker: None,
            phase: Phase::Action,
            log: Vec::new(),
            emission_stack: Vec::new(),
            maximum_depth: Self::DEFAULT_MAXIMUM_DEPTH,
            used: Vec::new(),
            round_number: 1,
            turn_number: 1,
        }
    }

    /// Configure the game phase used to select window priority order.
    pub fn set_phase(&mut self, phase: Phase)
        ensures
            *final(self) == (Resolver { phase, ..*old(self) }),
    {
        self.phase = phase;
    }

    /// Configure clockwise seating order for strategy and agenda timing windows.
    pub fn set_seating_order(&mut self, seating_order: Vec<String>)
        ensures
            *final(self) == (Resolver { seating_order, ..*old(self) }),
    {
        self.seating_order = seating_order;
    }

    /// Configure the active player for initiative-ordered timing windows.
    pub fn set_active_player(&mut self, active_player: Option<String>)
        ensures
            *final(self) == (Resolver { active_player, ..*old(self) }),
    {
        self.active_player = active_player;
    }

    /// Configure the speaker for seating-ordered timing windows.
    pub fn set_speaker(&mut self, speaker: Option<String>)
        ensures
            *final(self) == (Resolver { speaker, ..*old(self) }),
    {
        self.speaker = speaker;
    }

    /// Copy the driver's lifecycle counters, so no use outlives the driver's own boundary.
    pub fn sync_lifecycle(&mut self, round_number: u32, turn_number: u32)
        ensures
            *final(self) == (Resolver { round_number: round_number as u64, turn_number: turn_number as u64, ..*old(self) }),
    {
        self.round_number = round_number as u64;
        self.turn_number = turn_number as u64;
    }

    /// Advance the turn counter and change the active player; an exhausted counter is refused
    /// rather than wrapped, and then nothing changes.
    pub fn begin_turn(&mut self, active_player: String) -> (outcome: Result<(), TimingError>)
        ensures
            old(self).turn_number == u64::MAX ==> exhausted(&outcome, "turn"@) && *final(self) == *old(self),
            old(self).turn_number < u64::MAX ==> outcome is Ok && *final(self) == (Resolver {
                turn_number: (old(self).turn_number + 1) as u64,
                active_player: Some(active_player),
                ..*old(self)
            }),
    {
        if self.turn_number == u64::MAX {
            return Err(TimingError::CounterExhausted("turn".to_string()));
        }
        self.turn_number = self.turn_number + 1;
        self.active_player = Some(active_player);
        Ok(())
    }

    /// Advance the round and turn counters together; either exhausted counter is refused, and
    /// then nothing changes. Earlier uses need not be removed: their scopes name the old counters.
    pub fn begin_round(&mut self) -> (outcome: Result<(), TimingError>)
        ensures
            old(self).round_number == u64::MAX ==> exhausted(&outcome, "round"@) && *final(self) == *old(self),
            old(self).round_number < u64::MAX && old(self).turn_number == u64::MAX ==> exhausted(&outcome, "turn"@)
                && *final(self) == *old(self),
            old(self).round_number < u64::MAX && old(self).turn_number < u64::MAX ==> outcome is Ok && *final(self)
                == (Resolver {
                round_number: (old(self).round_number + 1) as u64,
                turn_number: (old(self).turn_number + 1) as u64,
                ..*old(self)
            }),
    {
        if self.round_number == u64::MAX {
            return Err(TimingError::CounterExhausted("round".to_string()));
        }
        if self.turn_number == u64::MAX {
            return Err(TimingError::CounterExhausted("turn".to_string()));
        }
        self.round_number = self.round_number + 1;
        self.turn_number = self.turn_number + 1;
        Ok(())
    }

    /// Set the maximum simultaneous event depth; a root emission needs room, so zero is not a
    /// depth.
    pub fn set_maximum_depth(&mut self, maximum_depth: usize)
        requires
            maximum_depth > 0,
        ensures
            *final(self) == (Resolver { maximum_depth, ..*old(self) }),
    {
        self.maximum_depth = maximum_depth;
    }

    /// Register abilities in the supplied order.
    pub fn register(&mut self, abilities: Vec<Ability>)
        ensures
            final(self).registry.abilities@ == old(self).registry.abilities@ + abilities@,
            final(self).registry.cannot == old(self).registry.cannot,
    {
        self.registry.register(abilities);
    }

    /// The positions of the abilities registered for an event type and relation, in
    /// registration order.
    pub fn for_event(&self, event_type: &str, relation: Relation) -> (found: Vec<usize>)
        ensures
            found@.map_values(|k: usize| k as int) == matching(self.registry.abilities@, event_type@, relation),
    {
        self.registry.for_event(event_type, relation)
    }

    /// Register an absolute "cannot" effect.
    pub fn forbid(&mut self, label: &str, predicate: Prohibition)
        ensures
            final(self).registry.abilities == old(self).registry.abilities,
            final(self).registry.cannot@.drop_last() == old(self).registry.cannot@,
            final(self).registry.cannot@.len() == old(self).registry.cannot@.len() + 1,
            final(self).registry.cannot@.last().label@ == label@,
            final(self).registry.cannot@.last().predicate == predicate,
    {
        self.registry.forbid(label, predicate);
    }

    /// The label of the first registered prohibition that matches an event.
    pub fn is_forbidden(&self, event: &Event) -> (label: Option<String>)
        ensures
            match label {
                Some(l) => {
                    let k = first_prohibition(self.registry.cannot@, *event);
                    k >= 0 && l@ == self.registry.cannot@[k].label@
                },
                None => first_prohibition(self.registry.cannot@, *event) == -1,
            },
    {
        self.registry.is_forbidden(event)
    }

    /// The order in which players are offered a window.
    pub fn player_order(&self) -> (order: Vec<String>)
        ensures
            ids(order@) == spec_player_order(*self),
    {
        let speaker_order = self.phase == Phase::Strategy || self.phase == Phase::Agenda;
        let sequence = if speaker_order {
            if self.seating_order.len() == 0 {
                &self.initiative_order
            } else {
                &self.seating_order
            }
        } else {
            &self.initiative_order
        };
        let first = if speaker_order { &self.speaker } else { &self.active_player };
        let first = match first {
            None => return clone_ids(sequence),
            Some(f) => f,
        };
        let ghost seq_ids = ids(sequence@);
        proof {
            lemma_position(seq_ids, first@);
        }
        let n = sequence.len();
        match position_of(sequence, first.as_str()) {
            None => {
                let mut order: Vec<String> = Vec::new();
                order.push(first.clone());
                let rest = clone_ids(sequence);
                let ghost head = order@;
                let mut k: usize = 0;
                while k < n
                    invariant
                        n == rest@.len(),
                        k <= n,
                        ids(rest@) == seq_ids,
                        ids(order@) == seq![first@] + seq_ids.subrange(0, k as int),
                    decreases n - k,
                {
                    let ghost before = order@;
                    let item = rest[k].clone();
                    order.push(item);
                    proof {
                        assert(order@ =~= before.push(item));
                        assert(ids(order@) =~= ids(before).push(item@));
                        assert(seq_ids[k as int] == rest@[k as int]@);
                        assert(seq![first@] + seq_ids.subrange(0, k + 1) =~= (seq![first@] + seq_ids.subrange(0, k as int)).push(seq_ids[k as int]));
                    }
                    k = k + 1;
                }
                assert(seq_ids.subrange(0, n as int) =~= seq_ids);
                order
            },
            Some(i) => {
                let ghost target = seq_ids.subrange(i as int, n as int) + seq_ids.subrange(0, i as int);
                let mut order: Vec<String> = Vec::new();
                let mut k: usize = 0;
                while k < n
                    invariant
                        n == sequence@.len(),
                        i < n,
                        k <= n,
                        seq_ids == ids(sequence@),
                        target == seq_ids.subrange(i as int, n as int) + seq_ids.subrange(0, i as int),
                        ids(order@) == target.subrange(0, k as int),
                    decreases n - k,
                {
                    let at = if k < n - i { i + k } else { k - (n - i) };
                    let ghost before = order@;
                    let item = sequence[at].clone();
                    order.push(item);
                    proof {
                        assert(order@ =~= before.push(item));
                        assert(ids(order@) =~= ids(before).push(item@));
                        assert(target[k as int] == seq_ids[at as int]);
                        assert(seq_ids[at as int] == sequence@[at as int]@);
                        assert(target.subrange(0, k + 1) =~= target.subrange(0, k as int).push(target[k as int]));
                    }
                    k = k + 1;
                }
                assert(target.subrange(0, n as int) =~= target);
                order
            },
        }
    }

    /// The scope a use of an ability would now be spent in, keyed by the ability's id.
    pub fn scope_key(&self, ability: &Ability, event: &Event) -> (key: Option<(String, FrequencyScope)>)
        ensures
            match key {
                Some((id, scope)) => id@ == ability.id@ && spec_scope(ability.frequency, event.id, self.turn_number, self.round_number) == Some(scope),
                None => spec_scope(ability.frequency, event.id, self.turn_number, self.round_number) is None,
            },
    {
        let scope = match ability.frequency {
            Frequency::OncePerTrigger => FrequencyScope::Trigger(event.id),
            Frequency::OncePerTurn => FrequencyScope::Turn(self.turn_number),
            Frequency::OncePerRound => FrequencyScope::Round(self.round_number),
            Frequency::Unlimited => return None,
        };
        Some((ability.id.clone(), scope))
    }

    /// Whether an ability has already been spent in the scope it would now be used in.
    pub fn is_used(&self, ability: &Ability, event: &Event) -> (used: bool)
        ensures
            used == spec_is_used(*self, *ability, *event),
    {
        let key = match self.scope_key(ability, event) {
            Some(key) => key,
            None => return false,
        };
        let mut k: usize = 0;
        while k < self.used.len()
            invariant
                k <= self.used@.len(),
                key.0@ == ability.id@,
                spec_scope(ability.frequency, event.id, self.turn_number, self.round_number) == Some(key.1),
                forall|j: int| 0 <= j < k ==> !((#[trigger] self.used@[j]).0@ == ability.id@ && self.used@[j].1 == key.1),
            decreases self.used@.len() - k,
        {
            if str_eq(self.used[k].0.as_str(), key.0.as_str()) && self.used[k].1 == key.1 {
                return true;
            }
            k = k + 1;
        }
        false
    }

    /// Spend an ability in the scope it is now used in; an unlimited one spends nothing.
    pub fn mark_used(&mut self, ability: &Ability, event: &Event)
        ensures
            match spec_scope(ability.frequency, event.id, old(self).turn_number, old(self).round_number) {
                None => *final(self) == *old(self),
                Some(scope) => {
                    &&& final(self).used@.len() == old(self).used@.len() + 1
                    &&& final(self).used@.drop_last() == old(self).used@
                    &&& final(self).used@.last().0@ == ability.id@
                    &&& final(self).used@.last().1 == scope
                    &&& *final(self) == (Resolver { used: final(self).used, ..*old(self) })
                },
            },
    {
        match self.scope_key(ability, event) {
            Some(key) => {
                self.used.push(key);
                assert(self.used@.drop_last() =~= old(self).used@);
            },
            None => {},
        }
    }
}

/// A use, once marked, is spent for the rest of its scope: asking again about the same ability
/// and event with the counters unchanged finds it used.
pub proof fn a_marked_use_is_spent(before: Resolver, after: Resolver, ability: Ability, event: Event)
    requires
        spec_scope(ability.frequency, event.id, before.turn_number, before.round_number) is Some,
        after.used@.len() == before.used@.len() + 1,
        after.used@.last().0@ == ability.id@,
        after.used@.last().1 == spec_scope(ability.frequency, event.id, before.turn_number, before.round_number)->0,
        after.turn_number == before.turn_number,
        after.round_number == before.round_number,
    ensures
        spec_is_used(after, ability, event),
{
    let k = after.used@.len() - 1;
    assert(after.used@[k].0@ == ability.id@);
}

/// Advancing the turn retires every once-per-turn use: an ability used once per turn is fresh
/// again on the next turn, unless a use was already recorded against that turn's number.
pub proof fn a_new_turn_frees_once_per_turn(r: Resolver, ability: Ability, event: Event)
    requires
        ability.frequency == Frequency::OncePerTurn,
        r.turn_number < u64::MAX,
        forall|k: int| 0 <= k < r.used@.len() ==> (#[trigger] r.used@[k]).1 != FrequencyScope::Turn((r.turn_number + 1) as u64),
    ensures
        !spec_is_used(Resolver { turn_number: (r.turn_number + 1) as u64, ..r }, ability, event),
{
}

/// Advancing the round retires every once-per-round use: an ability used once per round is
/// fresh again in the next round, unless a use was already recorded against that round's number.
pub proof fn a_new_round_frees_once_per_round(r: Resolver, ability: Ability, event: Event)
    requires
        ability.frequency == Frequency::OncePerRound,
        r.round_number < u64::MAX,
        r.turn_number < u64::MAX,
        forall|k: int| 0 <= k < r.used@.len() ==> (#[trigger] r.used@[k]).1 != FrequencyScope::Round((r.round_number + 1) as u64),
    ensures
        !spec_is_used(
            Resolver { round_number: (r.round_number + 1) as u64, turn_number: (r.turn_number + 1) as u64, ..r },
            ability,
            event,
        ),
{
}

/// A new turn frees only what is scoped to a turn: whether an ability used once per round, or
/// once per triggering event, is spent does not change when the turn advances.
pub proof fn a_new_turn_keeps_other_scopes(r: Resolver, ability: Ability, event: Event)
    requires
        ability.frequency != Frequency::OncePerTurn,
        r.turn_number < u64::MAX,
    ensures
        spec_is_used(Resolver { turn_number: (r.turn_number + 1) as u64, ..r }, ability, event) == spec_is_used(
            r,
            ability,
            event,
        ),
{
}

/// A new triggering event frees a once-per-trigger ability: with no use recorded against the
/// new event's id, the ability is fresh for it.
pub proof fn a_new_event_frees_once_per_trigger(r: Resolver, ability: Ability, event: Event)
    requires
        ability.frequency == Frequency::OncePerTrigger,
        forall|k: int| 0 <= k < r.used@.len() ==> (#[trigger] r.used@[k]).1 != FrequencyScope::Trigger(event.id),
    ensures
        !spec_is_used(r, ability, event),
{
}

/// An unlimited ability is never spent.
pub proof fn unlimited_is_never_spent(r: Resolver, ability: Ability, event: Event)
    requires
        ability.frequency == Frequency::Unlimited,
    ensures
        !spec_is_used(r, ability, event),
{
}

proof fn lemma_position_first(s: Seq<Seq<char>>, x: Seq<char>, i: int)
    requires
        0 <= i < s.len(),
        s[i] == x,
        forall|j: int| 0 <= j < i ==> s[j] != x,
    ensures
        position(s, x) == i,
    decreases i,
{
    if i > 0 {
        assert(s[0] != x);
        assert forall|j: int| 0 <= j < i - 1 implies s.drop_first()[j] != x by {
            assert(s.drop_first()[j] == s[j + 1]);
        }
        lemma_position_first(s.drop_first(), x, i - 1);
    }
}

proof fn lemma_rotation(s: Seq<Seq<char>>, i: int)
    requires
        0 <= i < s.len(),
    ensures
        ({
            let r = s.subrange(i, s.len() as int) + s.subrange(0, i);
            &&& r.len() == s.len()
            &&& forall|k: int| 0 <= k < s.len() ==> #[trigger] r[k] == s[if i + k < s.len() { i + k } else { i + k - s.len() }]
        }),
{
}

/// Windows outside the strategy and agenda phases (setup, action and status windows) go round
/// the initiative order starting from the active player, whoever the speaker is and however the
/// table is seated: the `k`-th player offered is the one `k` places after the active player in
/// initiative order, wrapping round.
pub proof fn initiative_windows_start_at_the_active_player(r: Resolver, active: String, i: int)
    requires
        r.phase == Phase::Setup || r.phase == Phase::Action || r.phase == Phase::Status,
        r.active_player == Some(active),
        0 <= i < r.initiative_order@.len(),
        r.initiative_order@[i]@ == active@,
        forall|j: int| 0 <= j < i ==> r.initiative_order@[j]@ != active@,
    ensures
        spec_player_order(r).len() == r.initiative_order@.len(),
        forall|k: int| 0 <= k < r.initiative_order@.len() ==> #[trigger] spec_player_order(r)[k] == r.initiative_order@[if i + k
            < r.initiative_order@.len() {
            i + k
        } else {
            i + k - r.initiative_order@.len()
        }]@,
{
    let s = ids(r.initiative_order@);
    lemma_position_first(s, active@, i);
    lemma_rotation(s, i);
}

/// Strategy and agenda windows go round the seating order starting from the speaker: the
/// `k`-th player offered is the one `k` seats after the speaker, wrapping round.
pub proof fn speaker_windows_start_at_the_speaker(r: Resolver, speaker: String, i: int)
    requires
        r.phase == Phase::Strategy || r.phase == Phase::Agenda,
        r.speaker == Some(speaker),
        0 <= i < r.seating_order@.len(),
        r.seating_order@[i]@ == speaker@,
        forall|j: int| 0 <= j < i ==> r.seating_order@[j]@ != speaker@,
    ensures
        spec_player_order(r).len() == r.seating_order@.len(),
        forall|k: int| 0 <= k < r.seating_order@.len() ==> #[trigger] spec_player_order(r)[k] == r.seating_order@[if i + k
            < r.seating_order@.len() {
            i + k
        } else {
            i + k - r.seating_order@.len()
        }]@,
{
    let s = ids(r.seating_order@);
    lemma_position_first(s, speaker@, i);
    lemma_rotation(s, i);
}

/// With nobody yet active, setup, action and status windows go in initiative order from the
/// top; and an active player missing from the initiative order is offered the window first,
/// ahead of everyone in it.
pub proof fn initiative_windows_without_an_active_seat(r: Resolver)
    requires
        r.phase == Phase::Setup || r.phase == Phase::Action || r.phase == Phase::Status,
    ensures
        r.active_player is None ==> spec_player_order(r) == ids(r.initiative_order@),
        (r.active_player matches Some(a) && !ids(r.initiative_order@).contains(a@)) ==> spec_player_order(r) == seq![
            r.active_player->0@,
        ] + ids(r.initiative_order@),
{
    match r.active_player {
        Some(a) => {
            lemma_position(ids(r.initiative_order@), a@);
            if !ids(r.initiative_order@).contains(a@) && position(ids(r.initiative_order@), a@) >= 0 {
                assert(ids(r.initiative_order@)[position(ids(r.initiative_order@), a@)] == a@);
            }
        },
        None => {},
    }
}

} // verus!
