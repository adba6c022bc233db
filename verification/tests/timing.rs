use ti4_engine::choice::{Choice, ChoiceOption};
use ti4_engine::emission::EmitAction;
use ti4_engine::timing::{
    relation_name, Ability, AbilityRegistry, Event, Frequency, Phase, Prohibition, Relation, Resolver, TimingError,
};

fn resolver(players: &[&str], active_player: &str) -> Resolver {
    Resolver::new(players.iter().map(|p| p.to_string()).collect(), Some(active_player.to_string()))
}

fn ability(id: &str, event_type: &str, relation: Relation) -> Ability {
    Ability::new(id, "sol", event_type, relation)
}

fn event(id: u64) -> Event {
    Event { id, event_type: "E".to_string() }
}

#[test]
fn registration_is_partitioned_by_event_and_relation_without_reordering() {
    let mut resolver = resolver(&[], "sol");
    resolver.register(vec![
        ability("first", "MOVE", Relation::When),
        ability("other", "COMBAT", Relation::When),
        ability("after", "MOVE", Relation::After),
        ability("second", "MOVE", Relation::When),
    ]);
    assert_eq!(resolver.registry.ids_for_event("MOVE", Relation::When), vec!["first", "second"]);
    assert_eq!(resolver.registry.ids_for_event("MOVE", Relation::After), vec!["after"]);
    assert!(resolver.for_event("ABSENT", Relation::When).is_empty());
    assert_eq!(resolver.for_event("MOVE", Relation::When), vec![0, 3]);
}

#[test]
fn ability_defaults_and_builder_metadata_match_the_oracle() {
    let plain = ability("reaction", "CARD_PLAYED", Relation::After);
    assert_eq!(plain.frequency, Frequency::OncePerTrigger);
    assert!(!plain.optional);
    assert!(!plain.repeatable_in_window);

    let ability = plain.with_frequency(Frequency::OncePerRound).with_optional(true).with_repeatable_in_window(true);
    assert_eq!(ability.frequency, Frequency::OncePerRound);
    assert!(ability.optional);
    assert!(ability.repeatable_in_window);
    assert_eq!(ability.id, "reaction");
}

#[test]
fn cannot_effects_are_persistent_and_first_match_wins() {
    let mut resolver = resolver(&[], "sol");
    resolver.forbid("first", Prohibition::Always);
    resolver.forbid("later", Prohibition::Always);
    let event = Event { id: 1, event_type: "MOVE".to_string() };
    assert_eq!(resolver.is_forbidden(&event), Some("first".to_string()));
    assert_eq!(resolver.is_forbidden(&event), Some("first".to_string()));
}

#[test]
fn a_prohibition_on_one_event_type_leaves_the_others() {
    let mut registry = AbilityRegistry::new();
    registry.forbid("no moving", Prohibition::EventType("MOVE".to_string()));
    assert_eq!(registry.is_forbidden(&Event { id: 1, event_type: "MOVE".to_string() }), Some("no moving".to_string()));
    assert_eq!(registry.is_forbidden(&Event { id: 2, event_type: "COMBAT".to_string() }), None);
}

#[test]
fn the_action_order_starts_at_the_active_player() {
    let timing = resolver(&["sol", "letnev", "xxcha"], "letnev");
    assert_eq!(timing.player_order(), vec!["letnev", "xxcha", "sol"]);
}

#[test]
fn the_speaker_leads_strategy_and_agenda_orders() {
    let mut timing = resolver(&["xxcha", "sol", "letnev"], "xxcha");
    timing.set_phase(Phase::Agenda);
    timing.set_seating_order(vec!["sol".to_string(), "letnev".to_string(), "xxcha".to_string()]);
    timing.set_speaker(Some("letnev".to_string()));
    assert_eq!(timing.player_order(), vec!["letnev", "xxcha", "sol"]);
    timing.set_phase(Phase::Strategy);
    assert_eq!(timing.player_order(), vec!["letnev", "xxcha", "sol"]);
    timing.set_phase(Phase::Action);
    assert_eq!(timing.player_order(), vec!["xxcha", "sol", "letnev"]);
}

#[test]
fn a_first_player_outside_the_order_goes_ahead_of_it() {
    let timing = resolver(&["sol", "letnev"], "xxcha");
    assert_eq!(timing.player_order(), vec!["xxcha", "sol", "letnev"]);
    let mut quiet = resolver(&["sol", "letnev"], "sol");
    quiet.set_active_player(None);
    assert_eq!(quiet.player_order(), vec!["sol", "letnev"]);
}

#[test]
fn a_trigger_use_is_spent_for_that_event_only() {
    let mut timing = resolver(&["sol"], "sol");
    let once = ability("once", "E", Relation::When);
    assert!(!timing.is_used(&once, &event(1)));
    timing.mark_used(&once, &event(1));
    assert!(timing.is_used(&once, &event(1)));
    assert!(!timing.is_used(&once, &event(2)));
}

#[test]
fn a_turn_use_is_spent_until_the_turn_advances() {
    let mut timing = resolver(&["sol"], "sol");
    let turn = ability("turn", "E", Relation::When).with_frequency(Frequency::OncePerTurn);
    timing.mark_used(&turn, &event(1));
    assert!(timing.is_used(&turn, &event(2)), "spent for the rest of the turn");
    timing.begin_turn("sol".to_string()).unwrap();
    assert!(!timing.is_used(&turn, &event(3)));
}

#[test]
fn a_round_use_survives_turns() {
    let mut timing = resolver(&["sol"], "sol");
    let round = ability("round", "E", Relation::When).with_frequency(Frequency::OncePerRound);
    timing.mark_used(&round, &event(1));
    timing.begin_turn("sol".to_string()).unwrap();
    assert!(timing.is_used(&round, &event(2)));
    timing.begin_round().unwrap();
    assert!(!timing.is_used(&round, &event(3)));
}

#[test]
fn an_unlimited_ability_spends_nothing() {
    let mut timing = resolver(&["sol"], "sol");
    let unlimited = ability("unlimited", "E", Relation::When).with_frequency(Frequency::Unlimited);
    timing.mark_used(&unlimited, &event(1));
    assert!(!timing.is_used(&unlimited, &event(1)));
    assert!(timing.used.is_empty(), "nothing was spent");
    timing.begin_turn("sol".to_string()).unwrap();
    timing.begin_round().unwrap();
    assert!(!timing.is_used(&unlimited, &event(3)));
}

#[test]
fn an_exhausted_counter_is_refused_rather_than_wrapped() {
    let mut timing = resolver(&["sol"], "sol");
    timing.turn_number = u64::MAX;
    assert!(matches!(timing.begin_turn("sol".to_string()), Err(TimingError::CounterExhausted(c)) if c == "turn"));
    assert_eq!(timing.turn_number, u64::MAX);
    assert!(matches!(timing.begin_round(), Err(TimingError::CounterExhausted(c)) if c == "turn"));
    timing.round_number = u64::MAX;
    assert!(matches!(timing.begin_round(), Err(TimingError::CounterExhausted(c)) if c == "round"));
}

#[test]
fn a_new_resolver_starts_at_round_one_turn_one() {
    let mut timing = resolver(&["sol"], "sol");
    assert_eq!((timing.round_number, timing.turn_number), (1, 1));
    assert_eq!(timing.maximum_depth, Resolver::DEFAULT_MAXIMUM_DEPTH);
    timing.set_maximum_depth(3);
    assert_eq!(timing.maximum_depth, 3);
    timing.sync_lifecycle(4, 9);
    assert_eq!((timing.round_number, timing.turn_number), (4, 9));
}

#[test]
fn relations_read_as_their_words() {
    assert_eq!(relation_name(Relation::When), "when");
    assert_eq!(relation_name(Relation::After), "after");
}

enum Effect {
    Record(&'static str),
    Cancel,
    Emit(u64, &'static str, bool),
}

struct Driver {
    effects: Vec<(&'static str, Effect)>,
    answers: Vec<(&'static str, Vec<&'static str>)>,
    order: Vec<String>,
}

impl Driver {
    fn new(effects: Vec<(&'static str, Effect)>) -> Driver {
        Driver { effects, answers: vec![], order: vec![] }
    }

    fn answer(&mut self, choice: &Choice) -> ChoiceOption {
        let scripted = self.answers.iter_mut().find(|(p, _)| *p == choice.player.as_str()).and_then(|(_, queue)| {
            if queue.is_empty() {
                None
            } else {
                Some(queue.remove(0))
            }
        });
        match scripted {
            Some(id) => choice
                .options
                .iter()
                .find(|o| o.id == id)
                .cloned()
                .unwrap_or_else(|| ChoiceOption::new(id, "ability")),
            None => choice.options[0].clone(),
        }
    }
}

/// Drive one emission to its end, running effects and the resolution as the resolver asks.
fn emit(r: &mut Resolver, d: &mut Driver, id: u64, event_type: &str, resolution: Option<&str>) -> Result<bool, TimingError> {
    let mut em = r.begin_emission(Event { id, event_type: event_type.to_string() })?;
    let mut answer = None;
    loop {
        match r.step(&mut em, answer.take())? {
            EmitAction::Ask(choice) => answer = Some(d.answer(&choice)),
            EmitAction::Run(k) => {
                let ability = r.registry.abilities[k].id.clone();
                let effect = d.effects.iter().position(|(name, _)| *name == ability.as_str());
                match effect.map(|at| &d.effects[at].1) {
                    Some(Effect::Cancel) => em.cancel(),
                    Some(Effect::Emit(inner, inner_type, record)) => {
                        let (inner, inner_type, record) = (*inner, *inner_type, *record);
                        if record {
                            d.order.push(format!("{ability}_before"));
                        }
                        if let Err(e) = emit(r, d, inner, inner_type, None) {
                            r.abandon(&mut em);
                            return Err(e);
                        }
                        if record {
                            d.order.push(format!("{ability}_after"));
                        }
                    }
                    Some(Effect::Record(label)) => {
                        let label = label.to_string();
                        d.order.push(label)
                    }
                    None => d.order.push(ability),
                }
            }
            EmitAction::Resolve => {
                if let Some(label) = resolution {
                    d.order.push(label.to_string());
                }
            }
            EmitAction::Finished => return Ok(em.cancelled),
        }
    }
}

fn owned(id: &str, owner: &str, event_type: &str, relation: Relation) -> Ability {
    Ability::new(id, owner, event_type, relation)
}

#[test]
fn when_window_precedes_event_resolution_and_after_window() {
    let mut timing = resolver(&["sol"], "sol");
    timing.register(vec![owned("after", "sol", "E", Relation::After), owned("when", "sol", "E", Relation::When)]);
    let mut d = Driver::new(vec![]);
    emit(&mut timing, &mut d, 1, "E", Some("resolve")).unwrap();
    assert_eq!(d.order, ["when", "resolve", "after"]);
}

#[test]
fn action_windows_rotate_initiative_from_the_active_player() {
    let mut timing = resolver(&["sol", "letnev", "xxcha"], "letnev");
    timing.register(vec![
        owned("sol", "sol", "E", Relation::When),
        owned("letnev", "letnev", "E", Relation::When),
        owned("xxcha", "xxcha", "E", Relation::When),
    ]);
    let mut d = Driver::new(vec![]);
    emit(&mut timing, &mut d, 1, "E", None).unwrap();
    assert_eq!(d.order, ["letnev", "xxcha", "sol"]);
}

#[test]
fn strategy_and_agenda_windows_rotate_seating_from_the_speaker() {
    let mut timing = resolver(&["xxcha", "sol", "letnev"], "xxcha");
    timing.set_phase(Phase::Agenda);
    timing.set_seating_order(vec!["sol".to_string(), "letnev".to_string(), "xxcha".to_string()]);
    timing.set_speaker(Some("letnev".to_string()));
    timing.register(vec![
        owned("sol", "sol", "E", Relation::When),
        owned("letnev", "letnev", "E", Relation::When),
        owned("xxcha", "xxcha", "E", Relation::When),
    ]);
    let mut d = Driver::new(vec![]);
    emit(&mut timing, &mut d, 1, "E", None).unwrap();
    assert_eq!(d.order, ["letnev", "xxcha", "sol"]);
}

#[test]
fn players_resolve_one_ability_each_before_the_next_pass() {
    let mut timing = resolver(&["sol", "letnev"], "sol");
    timing.register(vec![
        owned("sol_1", "sol", "E", Relation::When),
        owned("letnev", "letnev", "E", Relation::When),
        owned("sol_2", "sol", "E", Relation::When),
    ]);
    let mut d = Driver::new(vec![]);
    emit(&mut timing, &mut d, 1, "E", None).unwrap();
    assert_eq!(d.order, ["sol_1", "letnev", "sol_2"]);
}

#[test]
fn a_pass_is_reoffered_after_another_player_resolves() {
    let mut timing = resolver(&["sol", "letnev"], "sol");
    timing.register(vec![
        owned("sol", "sol", "E", Relation::When).with_optional(true),
        owned("letnev", "letnev", "E", Relation::When),
    ]);
    let mut d = Driver::new(vec![]);
    d.answers.push(("sol", vec!["decline", "sol"]));
    emit(&mut timing, &mut d, 1, "E", None).unwrap();
    assert_eq!(d.order, ["letnev", "sol"]);
    assert_eq!(timing.log.iter().filter(|line| line.contains("sol declines")).count(), 1);
}

#[test]
fn a_when_cancellation_skips_resolution_and_after() {
    let mut timing = resolver(&["sol", "letnev"], "sol");
    timing.register(vec![owned("cancel", "sol", "E", Relation::When), owned("after", "letnev", "E", Relation::After)]);
    let mut d = Driver::new(vec![("cancel", Effect::Cancel)]);
    let cancelled = emit(&mut timing, &mut d, 1, "E", Some("resolve")).unwrap();
    assert!(cancelled);
    assert!(d.order.is_empty());
}

#[test]
fn a_cannot_cancels_the_event_before_resolution_or_after() {
    let mut timing = resolver(&["sol"], "sol");
    timing.forbid("cannot", Prohibition::EventType("E".to_string()));
    timing.register(vec![owned("after", "sol", "E", Relation::After)]);
    let mut d = Driver::new(vec![]);
    let cancelled = emit(&mut timing, &mut d, 1, "E", Some("resolve")).unwrap();
    assert!(cancelled);
    assert!(d.order.is_empty());
}

#[test]
fn an_illegal_timing_choice_is_returned_without_executing_the_ability() {
    let mut timing = resolver(&["sol"], "sol");
    timing.register(vec![owned("optional", "sol", "E", Relation::When).with_optional(true)]);
    let mut d = Driver::new(vec![]);
    d.answers.push(("sol", vec!["invented"]));
    let result = emit(&mut timing, &mut d, 1, "E", None);
    assert!(matches!(result, Err(TimingError::IllegalChoice(_))));
    assert!(d.order.is_empty());
    assert!(timing.emission_stack.is_empty());
}

#[test]
fn nested_events_resolve_depth_first_before_the_outer_event_continues() {
    let mut timing = resolver(&["sol"], "sol");
    timing.register(vec![owned("outer", "sol", "OUTER", Relation::When), owned("inner", "sol", "INNER", Relation::After)]);
    let mut d = Driver::new(vec![("outer", Effect::Emit(2, "INNER", true)), ("inner", Effect::Record("inner_after"))]);
    emit(&mut timing, &mut d, 1, "OUTER", Some("outer_resolve")).unwrap();
    assert_eq!(d.order, ["outer_before", "inner_after", "outer_after", "outer_resolve"]);
    let trace = &timing.log;
    assert!(
        trace.iter().position(|line| line.contains("resolve INNER#2"))
            < trace.iter().position(|line| line.contains("resolve OUTER#1"))
    );
}

#[test]
fn an_inner_cancellation_stays_local_to_the_inner_event() {
    let mut timing = resolver(&["sol"], "sol");
    timing.register(vec![
        owned("outer", "sol", "OUTER", Relation::When),
        owned("cancel_inner", "sol", "INNER", Relation::When),
        owned("outer_after", "sol", "OUTER", Relation::After),
    ]);
    let mut d = Driver::new(vec![("outer", Effect::Emit(2, "INNER", false)), ("cancel_inner", Effect::Cancel)]);
    emit(&mut timing, &mut d, 1, "OUTER", None).unwrap();
    assert_eq!(d.order, ["outer_after"]);
}

#[test]
fn depth_limit_returns_the_open_event_chain_and_unwinds_cleanly() {
    let mut timing = resolver(&["sol"], "sol");
    timing.set_maximum_depth(2);
    timing.register(vec![owned("first", "sol", "A", Relation::When), owned("second", "sol", "B", Relation::When)]);
    let mut d = Driver::new(vec![("first", Effect::Emit(2, "B", false)), ("second", Effect::Emit(3, "C", false))]);
    let result = emit(&mut timing, &mut d, 1, "A", None);
    match result {
        Err(TimingError::NestedEmissionDepthExceeded { maximum_depth, event_chain }) => {
            assert_eq!(maximum_depth, 2);
            assert_eq!(event_chain, vec![("A".to_owned(), 1), ("B".to_owned(), 2)]);
        }
        _ => panic!("the third open event is refused"),
    }
    assert!(timing.emission_stack.is_empty());
    emit(&mut timing, &mut d, 4, "SAFE", None).unwrap();
}

/// Each LOOP emission's ability emits the next, numbered one more.
fn chain(r: &mut Resolver, d: &mut Driver, id: u64, depth: &mut u64) -> Result<bool, TimingError> {
    let mut em = r.begin_emission(Event { id, event_type: "LOOP".to_string() })?;
    *depth += 1;
    loop {
        match r.step(&mut em, None)? {
            EmitAction::Run(_) => {
                if let Err(e) = chain(r, d, id + 1, depth) {
                    r.abandon(&mut em);
                    return Err(e);
                }
            }
            EmitAction::Finished => return Ok(em.cancelled),
            _ => {}
        }
    }
}

#[test]
fn default_depth_limit_refuses_the_one_hundred_and_first_open_event() {
    let mut timing = resolver(&["sol"], "sol");
    timing.register(vec![owned("loop", "sol", "LOOP", Relation::When)]);
    let mut stack_depth = 0u64;
    let mut d = Driver::new(vec![]);
    let result = chain(&mut timing, &mut d, 1, &mut stack_depth);
    match result {
        Err(TimingError::NestedEmissionDepthExceeded { maximum_depth, event_chain }) => {
            assert_eq!(maximum_depth, Resolver::DEFAULT_MAXIMUM_DEPTH);
            assert_eq!(event_chain.len(), Resolver::DEFAULT_MAXIMUM_DEPTH);
            assert_eq!(event_chain.first(), Some(&("LOOP".to_owned(), 1)));
            assert_eq!(event_chain.last(), Some(&("LOOP".to_owned(), 100)));
        }
        _ => panic!("the hundred-and-first open event is refused"),
    }
}

#[test]
fn once_per_trigger_is_available_again_for_a_distinct_event_id() {
    let mut timing = resolver(&["sol"], "sol");
    timing.register(vec![owned("once", "sol", "E", Relation::When)]);
    let mut d = Driver::new(vec![]);
    emit(&mut timing, &mut d, 1, "E", None).unwrap();
    emit(&mut timing, &mut d, 2, "E", None).unwrap();
    assert_eq!(d.order, ["once", "once"]);
}

#[test]
fn once_per_turn_lapses_only_when_the_turn_counter_advances() {
    let mut timing = resolver(&["sol"], "sol");
    timing.register(vec![owned("turn", "sol", "E", Relation::When).with_frequency(Frequency::OncePerTurn)]);
    let mut d = Driver::new(vec![]);
    emit(&mut timing, &mut d, 1, "E", None).unwrap();
    emit(&mut timing, &mut d, 2, "E", None).unwrap();
    timing.begin_turn("sol".to_string()).unwrap();
    emit(&mut timing, &mut d, 3, "E", None).unwrap();
    assert_eq!(d.order, ["turn", "turn"]);
}

#[test]
fn once_per_round_survives_turns_and_lapses_when_the_round_advances() {
    let mut timing = resolver(&["sol"], "sol");
    timing.register(vec![owned("round", "sol", "E", Relation::When).with_frequency(Frequency::OncePerRound)]);
    let mut d = Driver::new(vec![]);
    emit(&mut timing, &mut d, 1, "E", None).unwrap();
    timing.begin_turn("sol".to_string()).unwrap();
    emit(&mut timing, &mut d, 2, "E", None).unwrap();
    timing.begin_round().unwrap();
    emit(&mut timing, &mut d, 3, "E", None).unwrap();
    assert_eq!(d.order, ["round", "round"]);
}

#[test]
fn unlimited_abilities_remain_available_across_events_and_lifecycle_transitions() {
    let mut timing = resolver(&["sol"], "sol");
    timing.register(vec![owned("unlimited", "sol", "E", Relation::When).with_frequency(Frequency::Unlimited)]);
    let mut d = Driver::new(vec![]);
    emit(&mut timing, &mut d, 1, "E", None).unwrap();
    timing.begin_turn("sol".to_string()).unwrap();
    emit(&mut timing, &mut d, 2, "E", None).unwrap();
    timing.begin_round().unwrap();
    emit(&mut timing, &mut d, 3, "E", None).unwrap();
    assert_eq!(d.order, ["unlimited", "unlimited", "unlimited"]);
}

#[test]
fn oracle_emit_order_fixture_matches_line_for_line() {
    let mut timing = resolver(&["sol", "letnev"], "sol");
    timing.register(vec![ability("after", "E", Relation::After), ability("when", "E", Relation::When)]);
    let mut d = Driver::new(vec![]);
    let cancelled = emit(&mut timing, &mut d, 1, "E", None).unwrap();
    assert!(!cancelled);
    assert_eq!(timing.log, ["emit E#1", "  [when] sol -> when", "  resolve E#1", "  [after] sol -> after"]);
}

fn fired_over_four_emissions(frequency: Frequency) -> usize {
    let mut timing = resolver(&["sol"], "sol");
    timing.register(vec![owned("a", "sol", "E", Relation::When).with_frequency(frequency)]);
    let mut d = Driver::new(vec![]);
    emit(&mut timing, &mut d, 1, "E", None).unwrap();
    emit(&mut timing, &mut d, 2, "E", None).unwrap();
    timing.begin_turn("sol".to_string()).unwrap();
    emit(&mut timing, &mut d, 3, "E", None).unwrap();
    timing.begin_round().unwrap();
    emit(&mut timing, &mut d, 4, "E", None).unwrap();
    d.order.len()
}

#[test]
fn frequency_scopes_bound_each_generated_ability() {
    assert_eq!(fired_over_four_emissions(Frequency::OncePerTrigger), 4);
    assert_eq!(fired_over_four_emissions(Frequency::Unlimited), 4);
    assert_eq!(fired_over_four_emissions(Frequency::OncePerTurn), 3);
    assert_eq!(fired_over_four_emissions(Frequency::OncePerRound), 2);
}
