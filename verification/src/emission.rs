//! Emitting an event through its timing windows: WHEN abilities, the event's ordinary
//! resolution, then AFTER abilities.
//!
//! The resolver decides; the driver acts. Each step hands the driver one thing to do: ask a
//! player which ability to use, run an ability's effect (which may cancel the event or emit a
//! nested one, itself an emission of its own), resolve the event, or finish. A cancelled or
//! forbidden event is neither resolved nor offered to AFTER abilities.

use vstd::prelude::*;
use crate::choice::{answered_index, none_answered, option_views, Choice, ChoiceOption, OptionView, Value};
use crate::text::{decimal, decimal_string_u64};
use crate::timing::{
    first_prohibition, matching, relation_name, spec_is_used, spec_player_order, spec_relation_name, ids,
    Ability, Event, Relation, Resolver, TimingError,
};

verus! {

broadcast use vstd::seq_lib::group_seq_properties;

/// How far an emission has got.
#[derive(Debug, Clone, Copy, PartialEq, Eq, Structural)]
pub enum EmitStage {
    /// The WHEN window is open.
    When,
    /// The event has resolved; the AFTER window is open.
    After,
    /// Finished: resolved and through its AFTER window, or cancelled or forbidden first.
    Done,
}

/// How far along the windows a stage is.
pub open spec fn stage_rank(stage: EmitStage) -> int {
    match stage {
        EmitStage::When => 0,
        EmitStage::After => 1,
        EmitStage::Done => 2,
    }
}

/// The relation of the window a stage has open.
pub open spec fn stage_relation(stage: EmitStage) -> Relation {
    match stage {
        EmitStage::After => Relation::After,
        _ => Relation::When,
    }
}

/// What the driver is to do next.
#[derive(Debug)]
pub enum EmitAction {
    /// Put this choice to its player and pass the answer to the next step.
    Ask(Choice),
    /// Run the effect of the ability registered at this position; it may cancel the event.
    Run(usize),
    /// Perform the event's ordinary resolution.
    Resolve,
    /// The emission is over.
    Finished,
}

/// One event on its way through its timing windows.
#[derive(Debug)]
pub struct Emission {
    /// The event.
    pub event: Event,
    /// Whether an ability or a prohibition has cancelled it.
    pub cancelled: bool,
    /// Which window is open.
    pub stage: EmitStage,
    /// The players in the order this pass offers them the window.
    pub order: Vec<String>,
    /// The next player of the pass.
    pub cursor: usize,
    /// Players who declined during this pass.
    pub passed: Vec<String>,
    /// Abilities resolved in this window, by id.
    pub resolved_here: Vec<String>,
    /// Whether any ability resolved during this pass.
    pub resolved_this_pass: bool,
    /// The choice put to a player, with the positions of the abilities it offers.
    pub asking: Option<(Choice, Vec<usize>)>,
}

/// Whether the ability at position `k` may be offered to `player` for an event, given the
/// abilities already resolved in the window.
pub open spec fn offerable(r: Resolver, event: Event, resolved: Seq<Seq<char>>, player: Seq<char>, k: int) -> bool {
    let a = r.registry.abilities@[k];
    &&& a.owner@ == player
    &&& (a.repeatable_in_window || !resolved.contains(a.id@))
    &&& !spec_is_used(r, a, event)
}

/// The abilities a player may use in a window, by position, in registration order.
pub open spec fn eligible_for(r: Resolver, event: Event, relation: Relation, resolved: Seq<Seq<char>>, player: Seq<char>) -> Seq<int> {
    matching(r.registry.abilities@, event.event_type@, relation).filter(
        |k: int| offerable(r, event, resolved, player, k),
    )
}

/// The abilities a player may use in the window now open.
pub open spec fn spec_eligible(r: Resolver, em: Emission, player: Seq<char>) -> Seq<int> {
    eligible_for(r, em.event, stage_relation(em.stage), ids(em.resolved_here@), player)
}

/// The option that names an ability in a window's choice.
pub open spec fn ability_view(a: Ability) -> OptionView {
    OptionView { id: a.id@, kind: "ability"@, label: a.id@ }
}

/// The options a window's choice offers: the eligible abilities, then a decline when any of
/// them may be declined.
pub open spec fn window_options(r: Resolver, eligible: Seq<int>) -> Seq<OptionView> {
    let abilities = eligible.map_values(|k: int| ability_view(r.registry.abilities@[k]));
    if exists|j: int| 0 <= j < eligible.len() && r.registry.abilities@[#[trigger] eligible[j]].optional {
        abilities.push(OptionView { id: "decline"@, kind: "decline"@, label: "decline"@ })
    } else {
        abilities
    }
}

/// The line an event is logged under: its type and sequence id.
pub open spec fn event_tag(event: Event) -> Seq<char> {
    event.event_type@ + "#"@ + decimal(event.id as int)
}

/// Whether the resolver changed nothing but its use records, its log and its open events.
pub open spec fn bookkeeping_only(before: Resolver, after: Resolver) -> bool {
    &&& after == (Resolver { used: after.used, log: after.log, emission_stack: after.emission_stack, ..before })
    &&& after.log@.len() >= before.log@.len()
    &&& after.log@.subrange(0, before.log@.len() as int) == before.log@
    &&& after.used@.len() >= before.used@.len()
    &&& forall|k: int| 0 <= k < before.used@.len() ==> #[trigger] after.used@[k] == before.used@[k]
}

/// The resolver after an ability is spent for an event, as `mark_used` spends it.
pub open spec fn spent(before: Resolver, after: Resolver, a: Ability, event: Event) -> bool {
    match crate::timing::spec_scope(a.frequency, event.id, before.turn_number, before.round_number) {
        None => after.used == before.used,
        Some(scope) => {
            &&& after.used@.len() == before.used@.len() + 1
            &&& after.used@.drop_last() == before.used@
            &&& after.used@.last().0@ == a.id@
            &&& after.used@.last().1 == scope
        },
    }
}

fn event_tag_text(event: &Event) -> (tag: String)
    ensures
        tag@ == event_tag(*event),
{
    let number = decimal_string_u64(event.id);
    event.event_type.clone().concat("#").concat(number.as_str())
}

fn contains_id(list: &Vec<String>, id: &str) -> (found: bool)
    ensures
        found == ids(list@).contains(id@),
{
    let mut k: usize = 0;
    while k < list.len()
        invariant
            k <= list@.len(),
            forall|j: int| 0 <= j < k ==> list@[j]@ != id@,
        decreases list@.len() - k,
    {
        if crate::text::str_eq(list[k].as_str(), id) {
            assert(ids(list@)[k as int] == id@);
            return true;
        }
        k = k + 1;
    }
    proof {
        if ids(list@).contains(id@) {
            let j = choose|j: int| 0 <= j < ids(list@).len() && ids(list@)[j] == id@;
            assert(list@[j]@ == id@);
        }
    }
    false
}

impl Emission {
    /// Cancel the event: its window closes, and it is neither resolved nor offered to AFTER
    /// abilities if the WHEN window was open.
    pub fn cancel(&mut self)
        ensures
            *final(self) == (Emission { cancelled: true, ..*old(self) }),
    {
        self.cancelled = true;
    }

    /// Whether the emission is over.
    pub fn is_done(&self) -> (done: bool)
        ensures
            done == (self.stage == EmitStage::Done),
    {
        self.stage == EmitStage::Done
    }

    /// The invariant the steps keep.
    pub open spec fn wf(&self, r: Resolver) -> bool {
        &&& self.cursor <= self.order@.len()
        &&& self.stage != EmitStage::Done ==> r.emission_stack@.len() > 0
        &&& match self.asking {
            Some((c, eligible)) => {
                &&& self.stage != EmitStage::Done
                &&& self.cursor < self.order@.len()
                &&& forall|j: int| 0 <= j < eligible@.len() ==> (#[trigger] eligible@[j]) < r.registry.abilities@.len()
                &&& option_views(c.options@) == window_options(r, eligible@.map_values(|k: usize| k as int))
                &&& c.player@ == self.order@[self.cursor as int]@
                &&& eligible@.map_values(|k: usize| k as int) == spec_eligible(r, *self, c.player@)
            },
            None => true,
        }
    }
}

impl Resolver {
    /// Open an event's emission: refused when the chain of open events is already as deep as
    /// the resolver allows, with that chain; otherwise the event joins the chain, is logged,
    /// and its WHEN window opens.
    pub fn begin_emission(&mut self, event: Event) -> (result: Result<Emission, TimingError>)
        requires
            old(self).emission_stack@.len() <= old(self).maximum_depth,
        ensures
            match result {
                Err(TimingError::NestedEmissionDepthExceeded { maximum_depth, event_chain }) => {
                    &&& old(self).emission_stack@.len() == old(self).maximum_depth
                    &&& maximum_depth == old(self).maximum_depth
                    &&& chain_view(event_chain@) == chain_view(old(self).emission_stack@)
                    &&& *final(self) == *old(self)
                },
                Err(_) => false,
                Ok(em) => {
                    &&& old(self).emission_stack@.len() < old(self).maximum_depth
                    &&& final(self).emission_stack@.len() == old(self).emission_stack@.len() + 1
                    &&& final(self).emission_stack@.drop_last() == old(self).emission_stack@
                    &&& final(self).emission_stack@.last().0@ == event.event_type@
                    &&& final(self).emission_stack@.last().1 == event.id
                    &&& ids(final(self).log@) == ids(old(self).log@).push("emit "@ + event_tag(event))
                    &&& *final(self) == (Resolver { log: final(self).log, emission_stack: final(self).emission_stack, ..*old(self) })
                    &&& em.event == event
                    &&& !em.cancelled
                    &&& em.stage == EmitStage::When
                    &&& ids(em.order@) == spec_player_order(*final(self))
                    &&& em.cursor == 0
                    &&& em.passed@.len() == 0
                    &&& em.resolved_here@.len() == 0
                    &&& !em.resolved_this_pass
                    &&& em.asking is None
                    &&& em.wf(*final(self))
                },
            },
    {
        if self.emission_stack.len() == self.maximum_depth {
            let chain = clone_chain(&self.emission_stack);
            return Err(TimingError::NestedEmissionDepthExceeded { maximum_depth: self.maximum_depth, event_chain: chain });
        }
        let tag = event_tag_text(&event);
        self.emission_stack.push((event.event_type.clone(), event.id));
        self.log.push("emit ".to_string().concat(tag.as_str()));
        let order = self.player_order();
        Ok(Emission {
            event,
            cancelled: false,
            stage: EmitStage::When,
            order,
            cursor: 0,
            passed: Vec::new(),
            resolved_here: Vec::new(),
            resolved_this_pass: false,
            asking: None,
        })
    }

    /// The abilities a player may use in the window now open.
    fn eligible(&self, em: &Emission, player: &str) -> (found: Vec<usize>)
        ensures
            found@.map_values(|k: usize| k as int) == spec_eligible(*self, *em, player@),
            forall|j: int| 0 <= j < found@.len() ==> (#[trigger] found@[j]) < self.registry.abilities@.len(),
    {
        let relation = if em.stage == EmitStage::After { Relation::After } else { Relation::When };
        let all = self.for_event(em.event.event_type.as_str(), relation);
        let ghost m = matching(self.registry.abilities@, em.event.event_type@, relation);
        proof {
            crate::timing::found_abilities_match(self.registry.abilities@, em.event.event_type@, relation);
        }
        let mut found: Vec<usize> = Vec::new();
        let mut j: usize = 0;
        while j < all.len()
            invariant
                j <= all@.len(),
                all@.map_values(|k: usize| k as int) == m,
                m == matching(self.registry.abilities@, em.event.event_type@, relation),
                relation == stage_relation(em.stage),
                forall|i: int| 0 <= i < m.len() ==> 0 <= #[trigger] m[i] < self.registry.abilities@.len(),
                found@.map_values(|k: usize| k as int) == m.subrange(0, j as int).filter(
                    |k: int| offerable(*self, em.event, ids(em.resolved_here@), player@, k),
                ),
                forall|i: int| 0 <= i < found@.len() ==> (#[trigger] found@[i]) < self.registry.abilities@.len(),
            decreases all@.len() - j,
        {
            let k = all[j];
            assert(m[j as int] == k as int);
            let ability = &self.registry.abilities[k];
            let keep = crate::text::str_eq(ability.owner.as_str(), player) && (ability.repeatable_in_window
                || !contains_id(&em.resolved_here, ability.id.as_str())) && !self.is_used(ability, &em.event);
            let ghost before = found@.map_values(|k: usize| k as int);
            proof {
                reveal_with_fuel(Seq::<int>::filter, 1);
                assert(m.subrange(0, j + 1).drop_last() =~= m.subrange(0, j as int));
            }
            if keep {
                found.push(k);
                assert(found@.map_values(|k: usize| k as int) =~= before.push(k as int));
            }
            j = j + 1;
        }
        assert(m.subrange(0, m.len() as int) =~= m);
        found
    }

    /// The choice a window puts to a player: the eligible abilities, and a decline when any of
    /// them may be declined.
    fn window_choice(&self, em: &Emission, player: &str, eligible: &Vec<usize>) -> (choice: Choice)
        requires
            forall|j: int| 0 <= j < eligible@.len() ==> (#[trigger] eligible@[j]) < self.registry.abilities@.len(),
        ensures
            choice.player@ == player@,
            option_views(choice.options@) == window_options(*self, eligible@.map_values(|k: usize| k as int)),
    {
        let ghost e = eligible@.map_values(|k: usize| k as int);
        let ghost views = e.map_values(|k: int| ability_view(self.registry.abilities@[k]));
        let mut options: Vec<ChoiceOption> = Vec::new();
        let mut declinable = false;
        let mut j: usize = 0;
        while j < eligible.len()
            invariant
                j <= eligible@.len(),
                e == eligible@.map_values(|k: usize| k as int),
                views == e.map_values(|k: int| ability_view(self.registry.abilities@[k])),
                forall|i: int| 0 <= i < eligible@.len() ==> (#[trigger] eligible@[i]) < self.registry.abilities@.len(),
                option_views(options@) == views.subrange(0, j as int),
                declinable == exists|i: int| 0 <= i < j && self.registry.abilities@[#[trigger] e[i]].optional,
            decreases eligible@.len() - j,
        {
            let ability = &self.registry.abilities[eligible[j]];
            let option = ChoiceOption::labelled(ability.id.as_str(), "ability", ability.id.as_str()).with(
                "event",
                Value::Text(em.event.event_type.clone()),
            );
            let ghost was = option_views(options@);
            options.push(option);
            assert(option_views(options@) =~= was.push(views[j as int]));
            assert(views.subrange(0, j + 1) =~= views.subrange(0, j as int).push(views[j as int]));
            proof {
                assert(e[j as int] == eligible@[j as int] as int);
                if ability.optional {
                    assert(self.registry.abilities@[e[j as int]].optional);
                }
                if declinable {
                    let i = choose|i: int| 0 <= i < j && self.registry.abilities@[#[trigger] e[i]].optional;
                    assert(0 <= i < j + 1 && self.registry.abilities@[e[i]].optional);
                }
                if (exists|i: int| 0 <= i < j + 1 && self.registry.abilities@[#[trigger] e[i]].optional) && !ability.optional {
                    let i = choose|i: int| 0 <= i < j + 1 && self.registry.abilities@[#[trigger] e[i]].optional;
                    assert(i < j);
                }
            }
            declinable = declinable || ability.optional;
            j = j + 1;
        }
        assert(views.subrange(0, j as int) =~= views);
        if declinable {
            let ghost was = option_views(options@);
            options.push(ChoiceOption::decline());
            assert(option_views(options@) =~= was.push(OptionView { id: "decline"@, kind: "decline"@, label: "decline"@ }));
        }
        let relation = if em.stage == EmitStage::After { Relation::After } else { Relation::When };
        let prompt = relation_name(relation).to_string().concat(" ").concat(em.event.event_type.as_str());
        Choice::new(player, prompt.as_str(), options)
    }
}

impl Resolver {
    /// Spend the ability at `k` for the player the pass has reached: it joins the abilities
    /// resolved in this window, its use is marked, and the pass moves on.
    fn select(&mut self, em: &mut Emission, player: &str, k: usize)
        requires
            k < old(self).registry.abilities@.len(),
            old(em).cursor < old(em).order@.len(),
        ensures
            bookkeeping_only(*old(self), *final(self)),
            final(self).emission_stack == old(self).emission_stack,
            spent(*old(self), *final(self), old(self).registry.abilities@[k as int], old(em).event),
            *final(em) == (Emission {
                resolved_here: final(em).resolved_here,
                cursor: (old(em).cursor + 1) as usize,
                resolved_this_pass: true,
                asking: None,
                ..*old(em)
            }),
            ids(final(em).resolved_here@) == ids(old(em).resolved_here@).push(old(self).registry.abilities@[k as int].id@),
            final(em).cursor == old(em).cursor + 1,
    {
        let ghost before = *self;
        let id = self.registry.abilities[k].id.clone();
        let key = self.scope_key(&self.registry.abilities[k], &em.event);
        match key {
            Some(key) => {
                self.used.push(key);
                assert(self.used@.drop_last() =~= before.used@);
            },
            None => {},
        }
        let relation = if em.stage == EmitStage::After { Relation::After } else { Relation::When };
        let line = "  [".to_string().concat(relation_name(relation)).concat("] ").concat(player).concat(" -> ").concat(id.as_str());
        let ghost log0 = self.log@;
        self.log.push(line);
        assert(self.log@.subrange(0, log0.len() as int) =~= log0);
        let ghost r0 = em.resolved_here@;
        em.resolved_here.push(id);
        assert(ids(em.resolved_here@) =~= ids(r0).push(before.registry.abilities@[k as int].id@));
        let _ = em.order.len();
        em.cursor = em.cursor + 1;
        em.resolved_this_pass = true;
        em.asking = None;
    }

    /// Offer the window to the players left in this pass, from the one it has reached: the
    /// first with an eligible ability either uses it (when it is their only one and cannot be
    /// declined) or is asked. `None` when the pass ends with nothing to do.
    fn scan(&mut self, em: &mut Emission) -> (action: Option<EmitAction>)
        requires
            old(em).wf(*old(self)),
            old(em).asking is None,
            old(em).stage != EmitStage::Done,
            !old(em).cancelled,
        ensures
            final(em).wf(*final(self)),
            bookkeeping_only(*old(self), *final(self)),
            final(self).emission_stack == old(self).emission_stack,
            final(em).event == old(em).event,
            final(em).stage == old(em).stage,
            final(em).cancelled == old(em).cancelled,
            final(em).order == old(em).order,
            (action is None || (action matches Some(EmitAction::Ask(_)))) ==> final(em).resolved_here == old(em).resolved_here,
            match action {
                None => {
                    &&& final(em).cursor == final(em).order@.len()
                    &&& final(em).asking is None
                    &&& final(em).resolved_this_pass == old(em).resolved_this_pass
                    &&& *final(self) == *old(self)
                },
                Some(EmitAction::Run(k)) => {
                    let a = old(self).registry.abilities@[k as int];
                    &&& k < old(self).registry.abilities@.len()
                    &&& final(em).asking is None
                    &&& final(em).cursor >= 1
                    &&& spec_eligible(*old(self), *old(em), final(em).order@[final(em).cursor - 1]@).contains(k as int)
                    &&& ids(final(em).resolved_here@) == ids(old(em).resolved_here@).push(a.id@)
                    &&& spent(*old(self), *final(self), a, old(em).event)
                },
                Some(EmitAction::Ask(c)) => final(em).asking matches Some((c2, eligible)) && option_views(c.options@)
                    == option_views(c2.options@) && c.player@ == c2.player@ && *final(self) == *old(self),
                _ => false,
            },
    {
        let n = em.order.len();
        while em.cursor < n
            invariant
                em.wf(*self),
                em.asking is None,
                n == em.order@.len(),
                *self == *old(self),
                em.event == old(em).event,
                em.stage == old(em).stage,
                em.cancelled == old(em).cancelled,
                em.order == old(em).order,
                em.resolved_here == old(em).resolved_here,
                em.resolved_this_pass == old(em).resolved_this_pass,
                em.passed == old(em).passed,
                em.stage != EmitStage::Done,
            decreases n - em.cursor,
        {
            let player = em.order[em.cursor].clone();
            if contains_id(&em.passed, player.as_str()) {
                em.cursor = em.cursor + 1;
                continue;
            }
            let eligible = self.eligible(em, player.as_str());
            if eligible.len() == 0 {
                em.cursor = em.cursor + 1;
                continue;
            }
            proof {
                assert(eligible@.map_values(|k: usize| k as int)[0] == eligible@[0] as int);
            }
            if eligible.len() == 1 && !self.registry.abilities[eligible[0]].optional {
                let k = eligible[0];
                let ghost e0 = *em;
                self.select(em, player.as_str(), k);
                proof {
                    assert(spec_eligible(*old(self), e0, player@)[0] == k as int);
                }
                return Some(EmitAction::Run(k));
            }
            let asked = self.window_choice(em, player.as_str(), &eligible);
            let shown = self.window_choice(em, player.as_str(), &eligible);
            assert(player@ == em.order@[em.cursor as int]@);
            em.asking = Some((asked, eligible));
            proof {
                lemma_bookkeeping_only_same(*self);
            }
            return Some(EmitAction::Ask(shown));
        }
        proof {
            lemma_bookkeeping_only_same(*self);
        }
        None
    }

    /// Close the window now open. A WHEN window closing on a cancelled or forbidden event
    /// finishes the emission without resolving it; otherwise the event resolves and its AFTER
    /// window opens. An AFTER window closing finishes the emission.
    fn close_window(&mut self, em: &mut Emission) -> (action: EmitAction)
        requires
            old(em).wf(*old(self)),
            old(em).stage != EmitStage::Done,
        ensures
            final(em).wf(*final(self)),
            bookkeeping_only(*old(self), *final(self)),
            final(self).used == old(self).used,
            final(em).event == old(em).event,
            old(em).cancelled ==> final(em).cancelled,
            match action {
                EmitAction::Resolve => {
                    &&& old(em).stage == EmitStage::When
                    &&& !old(em).cancelled
                    &&& !final(em).cancelled
                    &&& first_prohibition(old(self).registry.cannot@, old(em).event) == -1
                    &&& final(em).stage == EmitStage::After
                    &&& final(self).emission_stack == old(self).emission_stack
                    &&& ids(final(em).order@) == spec_player_order(*final(self))
                    &&& final(em).cursor == 0
                    &&& final(em).passed@.len() == 0
                    &&& final(em).resolved_here@.len() == 0
                    &&& !final(em).resolved_this_pass
                    &&& final(em).asking is None
                },
                EmitAction::Finished => {
                    &&& final(em).stage == EmitStage::Done
                    &&& final(self).emission_stack@ == old(self).emission_stack@.drop_last()
                    &&& old(em).stage == EmitStage::When ==> final(em).cancelled
                    &&& old(em).stage == EmitStage::When && !old(em).cancelled ==> first_prohibition(
                        old(self).registry.cannot@,
                        old(em).event,
                    ) >= 0
                },
                _ => false,
            },
    {
        let tag = event_tag_text(&em.event);
        let ghost log0 = self.log@;
        if em.stage == EmitStage::When {
            if em.cancelled {
                self.log.push("  ".to_string().concat(tag.as_str()).concat(" cancelled"));
                let done = self.finish(em);
                assert(self.log@.subrange(0, log0.len() as int) =~= log0);
                return done;
            }
            match self.is_forbidden(&em.event) {
                Some(label) => {
                    em.cancelled = true;
                    self.log.push("  ".to_string().concat(tag.as_str()).concat(" forbidden by ").concat(label.as_str()));
                    let done = self.finish(em);
                    assert(self.log@.subrange(0, log0.len() as int) =~= log0);
                    return done;
                },
                None => {},
            }
            self.log.push("  resolve ".to_string().concat(tag.as_str()));
            assert(self.log@.subrange(0, log0.len() as int) =~= log0);
            em.stage = EmitStage::After;
            em.order = self.player_order();
            em.cursor = 0;
            em.passed = Vec::new();
            em.resolved_here = Vec::new();
            em.resolved_this_pass = false;
            em.asking = None;
            return EmitAction::Resolve;
        }
        let done = self.finish(em);
        assert(self.log@.subrange(0, log0.len() as int) =~= log0);
        done
    }

    fn finish(&mut self, em: &mut Emission) -> (action: EmitAction)
        requires
            old(em).stage != EmitStage::Done,
            old(self).emission_stack@.len() > 0,
            old(em).cursor <= old(em).order@.len(),
        ensures
            action is Finished,
            final(em).wf(*final(self)),
            *final(em) == (Emission { stage: EmitStage::Done, asking: None, ..*old(em) }),
            final(self).emission_stack@ == old(self).emission_stack@.drop_last(),
            *final(self) == (Resolver { emission_stack: final(self).emission_stack, ..*old(self) }),
    {
        let _ = self.emission_stack.pop();
        em.stage = EmitStage::Done;
        em.asking = None;
        EmitAction::Finished
    }

    /// Give up an emission whose driver failed (an ability's nested emission was refused, say):
    /// the event leaves the chain of open events and the emission is over.
    pub fn abandon(&mut self, em: &mut Emission)
        requires
            old(em).wf(*old(self)),
        ensures
            final(em).stage == EmitStage::Done,
            final(em).wf(*final(self)),
            old(em).stage == EmitStage::Done ==> *final(em) == *old(em) && *final(self) == *old(self),
            old(em).stage != EmitStage::Done ==> {
                &&& final(self).emission_stack@ == old(self).emission_stack@.drop_last()
                &&& *final(self) == (Resolver { emission_stack: final(self).emission_stack, ..*old(self) })
                &&& *final(em) == (Emission { stage: EmitStage::Done, asking: None, ..*old(em) })
            },
    {
        if em.stage != EmitStage::Done {
            let _ = self.finish(em);
        }
    }

    /// Go on with the window now open, from where it was: offer it to the players left in the
    /// pass; after a pass in which some ability was used, start a new pass; close the window
    /// when it is cancelled or a pass goes by with none used.
    fn advance(&mut self, em: &mut Emission) -> (action: EmitAction)
        requires
            old(em).wf(*old(self)),
            old(em).asking is None,
            old(em).stage != EmitStage::Done,
        ensures
            final(em).wf(*final(self)),
            bookkeeping_only(*old(self), *final(self)),
            final(em).event == old(em).event,
            stage_rank(final(em).stage) >= stage_rank(old(em).stage),
            old(em).cancelled ==> final(em).cancelled,
            old(em).stage == EmitStage::When && final(em).stage == EmitStage::After ==> action is Resolve,
            window_step(*old(self), *old(em), *final(self), *final(em), action),
    {
        let ghost r0 = *self;
        if em.cancelled {
            return self.close_window(em);
        }
        match self.scan(em) {
            Some(action) => {
                proof {
                    if action is Run {
                        let k = action->Run_0;
                        lemma_eligible_member(r0, old(em).event, stage_relation(old(em).stage), ids(old(em).resolved_here@),
                            em.order@[em.cursor - 1]@, k as int);
                    }
                }
                return action;
            },
            None => {},
        }
        if em.resolved_this_pass {
            let ghost e1 = *em;
            em.order = self.player_order();
            em.cursor = 0;
            em.passed = Vec::new();
            em.resolved_this_pass = false;
            match self.scan(em) {
                Some(action) => {
                    proof {
                        if action is Run {
                            let k = action->Run_0;
                            lemma_eligible_member(r0, old(em).event, stage_relation(old(em).stage), ids(old(em).resolved_here@),
                                em.order@[em.cursor - 1]@, k as int);
                        }
                    }
                    return action;
                },
                None => {},
            }
        }
        self.close_window(em)
    }

    /// One step of an emission. With the choice a player was asked answered, the chosen
    /// ability is run or the player passes; otherwise the window goes on from where it was.
    /// A window ends when it is cancelled or when a whole pass goes by with no ability used;
    /// the WHEN window's end resolves the event and opens the AFTER window, unless the event
    /// was cancelled or a prohibition forbids it, which finishes the emission unresolved. An
    /// answer that names nothing offered ends the emission with the error.
    pub fn step(&mut self, em: &mut Emission, answer: Option<ChoiceOption>) -> (result: Result<EmitAction, TimingError>)
        requires
            old(em).wf(*old(self)),
        ensures
            final(em).wf(*final(self)),
            bookkeeping_only(*old(self), *final(self)),
            final(em).event == old(em).event,
            stage_rank(final(em).stage) >= stage_rank(old(em).stage),
            old(em).cancelled ==> final(em).cancelled,
            old(em).stage == EmitStage::Done ==> (result matches Ok(EmitAction::Finished)) && *final(em) == *old(em)
                && *final(self) == *old(self),
            old(em).stage == EmitStage::When && final(em).stage == EmitStage::After ==> (result matches Ok(
                EmitAction::Resolve,
            )),
            match result {
                Ok(action) => old(em).stage != EmitStage::Done ==> (match old(em).asking {
                    None => window_step(*old(self), *old(em), *final(self), *final(em), action),
                    Some((c, eligible)) => exists|r1: Resolver, e1: Emission| #[trigger] answered(*old(self), *old(em), answer, r1, e1, action)
                        && (e1 == *final(em) && r1 == *final(self) || window_step(r1, e1, *final(self), *final(em), action)),
                }),
                Err(TimingError::IllegalChoice(illegal)) => {
                    &&& old(em).asking matches Some((c, eligible)) && c.player@ == illegal.player@ && match answer {
                        Some(a) => none_answered(option_views(c.options@), a@),
                        None => true,
                    }
                    &&& final(em).stage == EmitStage::Done
                    &&& final(self).emission_stack@ == old(self).emission_stack@.drop_last()
                    &&& final(self).used == old(self).used
                },
                Err(_) => false,
            },
    {
        if em.stage == EmitStage::Done {
            proof {
                lemma_bookkeeping_only_same(*self);
            }
            return Ok(EmitAction::Finished);
        }
        let ghost r0 = *self;
        let ghost e0 = *em;
        if em.asking.is_none() {
            return Ok(self.advance(em));
        }
        let asked = em.asking.take();
        let (choice, eligible) = asked.unwrap();
        let ans = match answer {
            Some(a) => a,
            None => {
                let player = choice.player;
                let _ = self.finish(em);
                proof {
                    assert(self.log@.subrange(0, r0.log@.len() as int) =~= r0.log@);
                }
                return Err(TimingError::IllegalChoice(crate::choice::IllegalChoice { player, answered: String::new() }));
            },
        };
        let found = answered_index(&choice, &ans);
        let player = em.order[em.cursor].clone();
        proof {
            match found {
                Some(i) => {
                    let views = option_views(choice.options@);
                    assert forall|j: int| crate::choice::first_answered(views, j, ans@) implies j == i by {
                        if j < i {
                            assert(!crate::choice::names_at(views, j, ans@));
                        } else if j > i {
                            assert(!crate::choice::names_at(views, i as int, ans@));
                        }
                    }
                },
                None => {},
            }
        }
        let i = match found {
            None => {
                let _ = self.finish(em);
                proof {
                    assert(self.log@.subrange(0, r0.log@.len() as int) =~= r0.log@);
                }
                return Err(TimingError::IllegalChoice(crate::choice::IllegalChoice { player: choice.player, answered: ans.id }));
            },
            Some(i) => i,
        };
        proof {
            assert(option_views(choice.options@) == window_options(r0, eligible@.map_values(|k: usize| k as int)));
        }
        if i < eligible.len() {
            let k = eligible[i];
            proof {
                let ev = eligible@.map_values(|x: usize| x as int);
                assert(ev[i as int] == k as int);
                assert(ev.contains(k as int));
                lemma_eligible_member(r0, e0.event, stage_relation(e0.stage), ids(e0.resolved_here@), player@, k as int);
            }
            self.select(em, player.as_str(), k);
            proof {
                assert(answered(r0, e0, Some(ans), *self, *em, EmitAction::Run(k)));
            }
            return Ok(EmitAction::Run(k));
        }
        let relation = if em.stage == EmitStage::After { Relation::After } else { Relation::When };
        let line = "  [".to_string().concat(relation_name(relation)).concat("] ").concat(player.as_str()).concat(" declines");
        self.log.push(line);
        let ghost pl = player@;
        let ghost p0 = em.passed@;
        em.passed.push(player);
        assert(ids(em.passed@) =~= ids(p0).push(pl));
        let _ = em.order.len();
        em.cursor = em.cursor + 1;
        let ghost r1 = *self;
        let ghost e1 = *em;
        proof {
            assert(self.log@.subrange(0, r0.log@.len() as int) =~= r0.log@);
            assert(answered(r0, e0, Some(ans), r1, e1, EmitAction::Finished));
        }
        let action = self.advance(em);
        proof {
            assert(answered(r0, e0, Some(ans), r1, e1, action));
            lemma_bookkeeping_trans(r0, r1, *self);
        }
        Ok(action)
    }
}

/// What one stretch of a window did, from the resolver and emission before it to those after
/// it, and the action it handed the driver.
pub open spec fn window_step(r0: Resolver, e0: Emission, r1: Resolver, e1: Emission, action: EmitAction) -> bool {
    match action {
        EmitAction::Resolve => {
            &&& e0.stage == EmitStage::When
            &&& e1.stage == EmitStage::After
            &&& !e1.cancelled
            &&& first_prohibition(r0.registry.cannot@, e0.event) == -1
            &&& r1.emission_stack == r0.emission_stack
            &&& r1.used == r0.used
        },
        EmitAction::Finished => {
            &&& e1.stage == EmitStage::Done
            &&& r1.emission_stack@ == r0.emission_stack@.drop_last()
            &&& r1.used == r0.used
            &&& e0.stage == EmitStage::When ==> e1.cancelled
            &&& e0.stage == EmitStage::When && !e0.cancelled ==> first_prohibition(r0.registry.cannot@, e0.event) >= 0
        },
        EmitAction::Run(k) => {
            let a = r0.registry.abilities@[k as int];
            &&& e1.stage == e0.stage
            &&& e1.stage != EmitStage::Done
            &&& !e1.cancelled
            &&& k < r0.registry.abilities@.len()
            &&& e1.cursor >= 1
            &&& a.event_type@ == e0.event.event_type@
            &&& a.relation == stage_relation(e0.stage)
            &&& a.owner@ == e1.order@[e1.cursor - 1]@
            &&& (a.repeatable_in_window || !ids(e0.resolved_here@).contains(a.id@))
            &&& !spec_is_used(r0, a, e0.event)
            &&& spent(r0, r1, a, e0.event)
            &&& ids(e1.resolved_here@) == ids(e0.resolved_here@).push(a.id@)
            &&& r1.emission_stack == r0.emission_stack
        },
        EmitAction::Ask(c) => {
            &&& e1.stage == e0.stage
            &&& e1.stage != EmitStage::Done
            &&& !e1.cancelled
            &&& e1.asking matches Some((c2, eligible)) && option_views(c.options@) == option_views(c2.options@)
                && c.player@ == c2.player@
            &&& r1.used == r0.used
            &&& r1.emission_stack == r0.emission_stack
        },
    }
}

/// An answered choice: the ability it names is run, or the player it was put to passes (the
/// window then goes on, and `action` is what it hands over next).
pub open spec fn answered(r0: Resolver, e0: Emission, answer: Option<ChoiceOption>, r1: Resolver, e1: Emission, action: EmitAction) -> bool {
    match (e0.asking, answer) {
        (Some((c, eligible)), Some(a)) => {
            let i = choose|i: int| crate::choice::first_answered(option_views(c.options@), i, a@);
            let player = e0.order@[e0.cursor as int]@;
            &&& exists|i: int| crate::choice::first_answered(option_views(c.options@), i, a@)
            &&& if i < eligible@.len() {
                let k = eligible@[i];
                let ab = r0.registry.abilities@[k as int];
                &&& action == EmitAction::Run(k)
                &&& ab.owner@ == player
                &&& ab.event_type@ == e0.event.event_type@
                &&& ab.relation == stage_relation(e0.stage)
                &&& !spec_is_used(r0, ab, e0.event)
                &&& spent(r0, r1, ab, e0.event)
                &&& ids(e1.resolved_here@) == ids(e0.resolved_here@).push(ab.id@)
                &&& e1.cursor == e0.cursor + 1
                &&& e1.stage == e0.stage
                &&& r1.emission_stack == r0.emission_stack
            } else {
                &&& ids(e1.passed@) == ids(e0.passed@).push(player)
                &&& e1.cursor == e0.cursor + 1
                &&& e1.stage == e0.stage
                &&& e1.cancelled == e0.cancelled
                &&& e1.asking is None
                &&& r1.used == r0.used
                &&& r1.emission_stack == r0.emission_stack
            }
        },
        _ => false,
    }
}

/// What an ability a window offers is: one registered for the event and the window's
/// relation, owned by the player, not resolved in this window unless repeatable, and not spent.
proof fn lemma_eligible_member(r: Resolver, event: Event, relation: Relation, resolved: Seq<Seq<char>>, player: Seq<char>, k: int)
    requires
        eligible_for(r, event, relation, resolved, player).contains(k),
    ensures
        0 <= k < r.registry.abilities@.len(),
        r.registry.abilities@[k].event_type@ == event.event_type@,
        r.registry.abilities@[k].relation == relation,
        offerable(r, event, resolved, player, k),
{
    let m = matching(r.registry.abilities@, event.event_type@, relation);
    let p = |x: int| offerable(r, event, resolved, player, x);
    let f = m.filter(p);
    m.filter_lemma(p);
    let i = choose|i: int| 0 <= i < f.len() && f[i] == k;
    assert(p(f[i]));
    m.lemma_filter_contains_rev(p, k);
    let j = choose|j: int| 0 <= j < m.len() && m[j] == k;
    crate::timing::found_abilities_match(r.registry.abilities@, event.event_type@, relation);
    assert(m[j] == k);
}

proof fn lemma_bookkeeping_trans(a: Resolver, b: Resolver, c: Resolver)
    requires
        bookkeeping_only(a, b),
        bookkeeping_only(b, c),
    ensures
        bookkeeping_only(a, c),
{
    assert(c.log@.subrange(0, a.log@.len() as int) =~= c.log@.subrange(0, b.log@.len() as int).subrange(0, a.log@.len() as int));
}

proof fn lemma_bookkeeping_only_same(r: Resolver)
    ensures
        bookkeeping_only(r, r),
{
    assert(r.log@.subrange(0, r.log@.len() as int) =~= r.log@);
}

/// A chain of open events, as (type, id).
pub open spec fn chain_view(chain: Seq<(String, u64)>) -> Seq<(Seq<char>, u64)> {
    chain.map_values(|e: (String, u64)| (e.0@, e.1))
}

fn clone_chain(chain: &Vec<(String, u64)>) -> (copy: Vec<(String, u64)>)
    ensures
        chain_view(copy@) == chain_view(chain@),
{
    let mut copy: Vec<(String, u64)> = Vec::new();
    let mut k: usize = 0;
    while k < chain.len()
        invariant
            k <= chain@.len(),
            copy@.len() == k,
            forall|j: int| 0 <= j < k ==> (#[trigger] copy@[j]).0@ == chain@[j].0@ && copy@[j].1 == chain@[j].1,
        decreases chain@.len() - k,
    {
        copy.push((chain[k].0.clone(), chain[k].1));
        k = k + 1;
    }
    assert(chain_view(copy@) =~= chain_view(chain@));
    copy
}

/// Within an emission what is spent stays spent: a step changes only the log, the chain of
/// open events and the uses, keeps the turn and round numbers, and only adds uses, so an
/// ability used in its scope is still used after any run of steps.
pub proof fn spent_stays_spent(before: Resolver, after: Resolver, ability: Ability, event: Event)
    requires
        bookkeeping_only(before, after),
        spec_is_used(before, ability, event),
    ensures
        spec_is_used(after, ability, event),
{
    let scope = crate::timing::spec_scope(ability.frequency, event.id, before.turn_number, before.round_number)->0;
    let k = choose|k: int| 0 <= k < before.used@.len() && (#[trigger] before.used@[k]).0@ == ability.id@
        && before.used@[k].1 == scope;
    assert(after.used@[k] == before.used@[k]);
}

/// A spent ability is not offered: a window never offers an ability already used in the scope
/// its frequency gives for the event.
pub proof fn a_spent_ability_is_not_offered(r: Resolver, event: Event, resolved: Seq<Seq<char>>, player: Seq<char>, k: int)
    requires
        0 <= k < r.registry.abilities@.len(),
        spec_is_used(r, r.registry.abilities@[k], event),
    ensures
        !offerable(r, event, resolved, player, k),
{
}

/// What a step runs was not spent at any earlier point of the same turn and round: since the
/// steps in between only add uses and keep the counters, an ability run once in its scope (one
/// trigger, one turn, one round) is never run again in that scope, whatever the driver does in
/// between. A new turn or round frees it again (`a_new_turn_frees_once_per_turn`,
/// `a_new_round_frees_once_per_round`).
pub proof fn a_run_ability_was_fresh_all_along(
    earlier: Resolver,
    r0: Resolver,
    e0: Emission,
    r1: Resolver,
    e1: Emission,
    k: usize,
)
    requires
        bookkeeping_only(earlier, r0),
        bookkeeping_only(r0, r1),
        window_step(r0, e0, r1, e1, EmitAction::Run(k)),
    ensures
        !spec_is_used(earlier, r0.registry.abilities@[k as int], e0.event),
        crate::timing::spec_scope(r0.registry.abilities@[k as int].frequency, e0.event.id, r0.turn_number, r0.round_number)
            is Some ==> spec_is_used(r1, r0.registry.abilities@[k as int], e0.event),
{
    let a = r0.registry.abilities@[k as int];
    if spec_is_used(earlier, a, e0.event) {
        assert(earlier.registry == r0.registry);
        spent_stays_spent(earlier, r0, a, e0.event);
    }
    match crate::timing::spec_scope(a.frequency, e0.event.id, r0.turn_number, r0.round_number) {
        Some(scope) => {
            assert(r1.turn_number == r0.turn_number && r1.round_number == r0.round_number);
            let j = r1.used@.len() - 1;
            assert(r1.used@[j].0@ == a.id@ && r1.used@[j].1 == scope);
        },
        None => {},
    }
}

} // verus!
