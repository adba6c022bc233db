//! The research questions of the Technology primary and of Jol-Nar's Specialist Compounds.

use vstd::prelude::*;
use crate::choice::{option_views, spec_is_decline, Choice, ChoiceOption, OptionView};
use crate::state::{names, GameState};
use crate::strategy_cards::RESEARCH_KIND;
use crate::tech_windows::{decline_view, pair_names};
use crate::technology::{
    colour_type, holdings_fit, reaches_prerequisites, research, spec_can_research, tech_colour, PlanetRecord, TechRecord,
};
use crate::synergy::Breakthrough;
use crate::text::{lower_text, str_eq, to_lower};

verus! {

/// The prompt of a research question.
pub const RESEARCH_PROMPT: &'static str = "research a technology";

/// The prompt of the Specialist Compounds question.
pub const COMPOUNDS_PROMPT: &'static str = "Specialist Compounds: exhaust a specialty instead of paying";

/// Where the first of the first `n` printed names for `alias` stands, or -1.
pub open spec fn name_index(printed: Seq<(Seq<char>, Seq<char>)>, alias: Seq<char>, n: int) -> int
    decreases n,
{
    if n <= 0 {
        -1
    } else {
        let earlier = name_index(printed, alias, n - 1);
        if earlier >= 0 {
            earlier
        } else if printed[n - 1].0 == alias {
            n - 1
        } else {
            -1
        }
    }
}

/// The printed name of a technology, from (alias, name) entries: the first entry's name, or
/// the alias itself where no entry names it.
pub open spec fn printed_name(printed: Seq<(Seq<char>, Seq<char>)>, alias: Seq<char>) -> Seq<char> {
    let k = name_index(printed, alias, printed.len() as int);
    if k >= 0 {
        printed[k].1
    } else {
        alias
    }
}

proof fn lemma_name_index_stays(printed: Seq<(Seq<char>, Seq<char>)>, alias: Seq<char>, m: int, n: int)
    requires
        0 <= m <= n,
        name_index(printed, alias, m) >= 0,
    ensures
        name_index(printed, alias, n) == name_index(printed, alias, m),
    decreases n - m,
{
    if m < n {
        lemma_name_index_stays(printed, alias, m, n - 1);
    }
}

/// The printed name of a technology.
pub fn tech_name(printed: &Vec<(String, String)>, alias: &str) -> (name: String)
    ensures
        name@ == printed_name(pair_names(printed@), alias@),
{
    let ghost ps = pair_names(printed@);
    let mut k: usize = 0;
    while k < printed.len()
        invariant
            k <= printed@.len(),
            ps == pair_names(printed@),
            name_index(ps, alias@, k as int) == -1,
        decreases printed@.len() - k,
    {
        if str_eq(printed[k].0.as_str(), alias) {
            proof {
                lemma_name_index_stays(ps, alias@, k + 1, printed@.len() as int);
            }
            return printed[k].1.clone();
        }
        k = k + 1;
    }
    alias.to_string()
}

/// The option that researches one technology.
pub open spec fn research_view(printed: Seq<(Seq<char>, Seq<char>)>, alias: Seq<char>) -> OptionView {
    OptionView { id: alias, kind: RESEARCH_KIND@, label: printed_name(printed, alias) }
}

/// The options that research each of these technologies, in order.
pub open spec fn research_views(printed: Seq<(Seq<char>, Seq<char>)>, aliases: Seq<Seq<char>>) -> Seq<OptionView> {
    aliases.map_values(|a: Seq<char>| research_view(printed, a))
}

fn research_options(open: &Vec<String>, printed: &Vec<(String, String)>) -> (options: Vec<ChoiceOption>)
    ensures
        option_views(options@) == research_views(pair_names(printed@), names(open@)),
{
    let ghost all = research_views(pair_names(printed@), names(open@));
    let mut options: Vec<ChoiceOption> = Vec::new();
    let mut k: usize = 0;
    while k < open.len()
        invariant
            k <= open@.len(),
            all == research_views(pair_names(printed@), names(open@)),
            option_views(options@) == all.subrange(0, k as int),
        decreases open@.len() - k,
    {
        let name = tech_name(printed, open[k].as_str());
        let ghost was = option_views(options@);
        options.push(ChoiceOption::labelled(open[k].as_str(), RESEARCH_KIND, name.as_str()));
        assert(option_views(options@) =~= was.push(all[k as int]));
        assert(all.subrange(0, k + 1) =~= all.subrange(0, k as int).push(all[k as int]));
        k = k + 1;
    }
    assert(all.subrange(0, k as int) =~= all);
    options
}

/// The research question of the Technology primary: each technology the player could research
/// (`open`, by alias) under its printed name, and a decline; nothing to ask where none is open.
pub fn research_choice(player: &str, open: &Vec<String>, printed: &Vec<(String, String)>) -> (choice: Option<Choice>)
    ensures
        open@.len() == 0 <==> choice.is_none(),
        choice matches Some(c) ==> c.player@ == player@ && c.prompt@ == RESEARCH_PROMPT@ && option_views(c.options@)
            == research_views(pair_names(printed@), names(open@)).push(decline_view()),
{
    if open.len() == 0 {
        return None;
    }
    let mut options = research_options(open, printed);
    let ghost was = option_views(options@);
    options.push(ChoiceOption::decline());
    assert(option_views(options@) =~= was.push(decline_view()));
    Some(Choice::new(player, RESEARCH_PROMPT, options))
}

/// The table after a player gains a technology: it is appended to their technologies, and
/// nothing else changes.
pub open spec fn gained_technology(before: GameState, after: GameState, player: Seq<char>, alias: Seq<char>) -> bool {
    let i = crate::state::seat_of(before.players@, player);
    &&& after.players@.len() == before.players@.len()
    &&& forall|j: int| 0 <= j < before.players@.len() && j != i ==> after.players@[j] == before.players@[j]
    &&& names(after.players@[i].technologies@) == names(before.players@[i].technologies@).push(alias)
    &&& after.players@[i] == (crate::state::Seat { technologies: after.players@[i].technologies, ..before.players@[i] })
    &&& after == (GameState { players: after.players, ..before })
}

/// Answer the research question: a decline researches nothing; any other answer researches the
/// technology it names, which is returned, where the player may research it (with `waivable`
/// prerequisites waived), and nothing where they may not.
pub fn research_answer(
    state: &mut GameState,
    records: &Vec<TechRecord>,
    planets: &Vec<PlanetRecord>,
    breakthroughs: &Vec<Breakthrough>,
    player: &str,
    waivable: usize,
    answer: &ChoiceOption,
) -> (researched: Option<String>)
    requires
        reaches_prerequisites(*old(state), records@, player@, answer@.id) ==> holdings_fit(*old(state), records@, planets@, player@),
    ensures
        researched.is_some() == (!spec_is_decline(answer@) && spec_can_research(
            *old(state),
            records@,
            planets@,
            breakthroughs@,
            player@,
            answer@.id,
            waivable as int,
        )),
        researched.is_none() ==> *final(state) == *old(state),
        researched matches Some(alias) ==> alias@ == answer@.id && gained_technology(*old(state), *final(state), player@, alias@),
{
    if answer.is_decline() {
        return None;
    }
    if research(state, records, planets, breakthroughs, player, answer.id.as_str(), waivable) {
        Some(answer.id.clone())
    } else {
        None
    }
}

/// Whether one of the first `n` open technologies has this colour.
pub open spec fn colour_open(records: Seq<TechRecord>, open: Seq<Seq<char>>, colour: Seq<char>, n: int) -> bool
    decreases n,
{
    if n <= 0 {
        false
    } else {
        colour_open(records, open, colour, n - 1) || tech_colour(records, open[n - 1]) == Some(colour)
    }
}

/// The specialties, as (planet, colour), that can buy something: those of a colour some open
/// technology has, in their order (22.3).
pub open spec fn usable_specialties(
    records: Seq<TechRecord>,
    open: Seq<Seq<char>>,
    specialties: Seq<(Seq<char>, Seq<char>)>,
) -> Seq<(Seq<char>, Seq<char>)>
    decreases specialties.len(),
{
    if specialties.len() == 0 {
        seq![]
    } else {
        let rest = usable_specialties(records, open, specialties.drop_last());
        if colour_open(records, open, specialties.last().1, open.len() as int) {
            rest.push(specialties.last())
        } else {
            rest
        }
    }
}

fn has_open_colour(records: &Vec<TechRecord>, open: &Vec<String>, colour: &str) -> (found: bool)
    ensures
        found == colour_open(records@, names(open@), colour@, open@.len() as int),
{
    let mut k: usize = 0;
    while k < open.len()
        invariant
            k <= open@.len(),
            !colour_open(records@, names(open@), colour@, k as int),
        decreases open@.len() - k,
    {
        let hit = match colour_type(records, open[k].as_str()) {
            Some(c) => str_eq(c, colour),
            None => false,
        };
        if hit {
            proof {
                lemma_colour_open_stays(records@, names(open@), colour@, k + 1, open@.len() as int);
            }
            return true;
        }
        k = k + 1;
    }
    false
}

proof fn lemma_colour_open_stays(records: Seq<TechRecord>, open: Seq<Seq<char>>, colour: Seq<char>, m: int, n: int)
    requires
        0 <= m <= n,
        colour_open(records, open, colour, m),
    ensures
        colour_open(records, open, colour, n),
    decreases n - m,
{
    if m < n {
        lemma_colour_open_stays(records, open, colour, m, n - 1);
    }
}

/// The specialties that can buy something, in their order.
pub fn usable(records: &Vec<TechRecord>, open: &Vec<String>, specialties: &Vec<(String, String)>) -> (found: Vec<(String, String)>)
    ensures
        pair_names(found@) == usable_specialties(records@, names(open@), pair_names(specialties@)),
{
    let ghost all = pair_names(specialties@);
    let mut found: Vec<(String, String)> = Vec::new();
    let mut k: usize = 0;
    assert(all.subrange(0, 0) =~= Seq::<(Seq<char>, Seq<char>)>::empty());
    while k < specialties.len()
        invariant
            k <= specialties@.len(),
            all == pair_names(specialties@),
            pair_names(found@) == usable_specialties(records@, names(open@), all.subrange(0, k as int)),
        decreases specialties@.len() - k,
    {
        assert(all.subrange(0, k + 1).drop_last() =~= all.subrange(0, k as int));
        assert(all.subrange(0, k + 1).last() == all[k as int]);
        if has_open_colour(records, open, specialties[k].1.as_str()) {
            let ghost was = pair_names(found@);
            found.push((specialties[k].0.clone(), specialties[k].1.clone()));
            assert(pair_names(found@) =~= was.push(all[k as int]));
        }
        k = k + 1;
    }
    assert(all.subrange(0, k as int) =~= all);
    found
}

/// The option that spends one specialty.
pub open spec fn compound_view(s: (Seq<char>, Seq<char>)) -> OptionView {
    OptionView {
        id: s.0 + ":"@ + s.1,
        kind: "planet"@,
        label: "exhaust "@ + s.0 + " to research "@ + lower_text(s.1) + " technology"@,
    }
}

/// The Specialist Compounds question: exhaust one usable specialty instead of paying, or
/// decline and pay; nothing to ask where none is usable.
pub fn compounds_choice(player: &str, usable: &Vec<(String, String)>) -> (choice: Option<Choice>)
    ensures
        usable@.len() == 0 <==> choice.is_none(),
        choice matches Some(c) ==> c.player@ == player@ && c.prompt@ == COMPOUNDS_PROMPT@ && option_views(c.options@)
            == pair_names(usable@).map_values(|s: (Seq<char>, Seq<char>)| compound_view(s)).push(decline_view()),
{
    if usable.len() == 0 {
        return None;
    }
    let ghost all = pair_names(usable@).map_values(|s: (Seq<char>, Seq<char>)| compound_view(s));
    let mut options: Vec<ChoiceOption> = Vec::new();
    let mut k: usize = 0;
    while k < usable.len()
        invariant
            k <= usable@.len(),
            all == pair_names(usable@).map_values(|s: (Seq<char>, Seq<char>)| compound_view(s)),
            option_views(options@) == all.subrange(0, k as int),
        decreases usable@.len() - k,
    {
        let planet = usable[k].0.as_str();
        let colour = usable[k].1.as_str();
        let id = planet.to_string().concat(":").concat(colour);
        let lower = to_lower(colour);
        let label = "exhaust ".to_string().concat(planet).concat(" to research ").concat(lower.as_str()).concat(" technology");
        let ghost was = option_views(options@);
        options.push(ChoiceOption::labelled(id.as_str(), "planet", label.as_str()));
        assert(option_views(options@) =~= was.push(all[k as int]));
        assert(all.subrange(0, k + 1) =~= all.subrange(0, k as int).push(all[k as int]));
        k = k + 1;
    }
    assert(all.subrange(0, k as int) =~= all);
    let ghost was = option_views(options@);
    options.push(ChoiceOption::decline());
    assert(option_views(options@) =~= was.push(decline_view()));
    Some(Choice::new(player, COMPOUNDS_PROMPT, options))
}

/// Where the first of the first `n` specialties whose option id is `id` stands, or -1.
pub open spec fn compound_index(usable: Seq<(Seq<char>, Seq<char>)>, id: Seq<char>, n: int) -> int
    decreases n,
{
    if n <= 0 {
        -1
    } else {
        let earlier = compound_index(usable, id, n - 1);
        if earlier >= 0 {
            earlier
        } else if compound_view(usable[n - 1]).id == id {
            n - 1
        } else {
            -1
        }
    }
}

proof fn lemma_compound_index_stays(usable: Seq<(Seq<char>, Seq<char>)>, id: Seq<char>, m: int, n: int)
    requires
        0 <= m <= n,
        compound_index(usable, id, m) >= 0,
    ensures
        compound_index(usable, id, n) == compound_index(usable, id, m),
    decreases n - m,
{
    if m < n {
        lemma_compound_index_stays(usable, id, m, n - 1);
    }
}

/// Read the Specialist Compounds answer: the specialty, as (planet, colour), whose option it
/// names; nothing for a decline or an answer naming none, and the research is paid for as usual.
pub fn compounds_answer(usable: &Vec<(String, String)>, answer: &ChoiceOption) -> (spent: Option<(String, String)>)
    ensures
        spec_is_decline(answer@) ==> spent.is_none(),
        !spec_is_decline(answer@) ==> {
            let k = compound_index(pair_names(usable@), answer@.id, usable@.len() as int);
            &&& spent.is_none() <==> k < 0
            &&& spent matches Some(s) ==> k < usable@.len() && (s.0@, s.1@) == pair_names(usable@)[k]
        },
{
    if answer.is_decline() {
        return None;
    }
    let ghost all = pair_names(usable@);
    let mut k: usize = 0;
    while k < usable.len()
        invariant
            k <= usable@.len(),
            all == pair_names(usable@),
            !spec_is_decline(answer@),
            compound_index(all, answer@.id, k as int) == -1,
        decreases usable@.len() - k,
    {
        let id = usable[k].0.clone().concat(":").concat(usable[k].1.as_str());
        assert(id@ == compound_view(all[k as int]).id);
        if str_eq(id.as_str(), answer.id.as_str()) {
            proof {
                lemma_compound_index_stays(all, answer@.id, k + 1, usable@.len() as int);
            }
            return Some((usable[k].0.clone(), usable[k].1.clone()));
        }
        k = k + 1;
    }
    None
}

/// The first `n` open technologies of this colour, in order.
pub open spec fn of_colour(records: Seq<TechRecord>, open: Seq<Seq<char>>, colour: Seq<char>, n: int) -> Seq<Seq<char>>
    decreases n,
{
    if n <= 0 {
        seq![]
    } else if tech_colour(records, open[n - 1]) == Some(colour) {
        of_colour(records, open, colour, n - 1).push(open[n - 1])
    } else {
        of_colour(records, open, colour, n - 1)
    }
}

/// The prompt of the second Specialist Compounds question.
pub open spec fn colour_prompt(colour: Seq<char>) -> Seq<char> {
    "research which "@ + lower_text(colour) + " technology"@
}

/// The second Specialist Compounds question, put once the specialty is spent: which open
/// technology of its colour to research. The card says one must be, so there is no decline.
pub fn colour_choice(
    player: &str,
    colour: &str,
    open: &Vec<String>,
    records: &Vec<TechRecord>,
    printed: &Vec<(String, String)>,
) -> (choice: Choice)
    ensures
        choice.player@ == player@,
        choice.prompt@ == colour_prompt(colour@),
        option_views(choice.options@) == research_views(
            pair_names(printed@),
            of_colour(records@, names(open@), colour@, open@.len() as int),
        ),
{
    let mut picked: Vec<String> = Vec::new();
    let mut k: usize = 0;
    while k < open.len()
        invariant
            k <= open@.len(),
            names(picked@) == of_colour(records@, names(open@), colour@, k as int),
        decreases open@.len() - k,
    {
        let hit = match colour_type(records, open[k].as_str()) {
            Some(c) => str_eq(c, colour),
            None => false,
        };
        if hit {
            let ghost was = names(picked@);
            picked.push(open[k].clone());
            assert(names(picked@) =~= was.push(open@[k as int]@));
        }
        k = k + 1;
    }
    let options = research_options(&picked, printed);
    let prompt = "research which ".to_string().concat(to_lower(colour).as_str()).concat(" technology");
    Choice::new(player, prompt.as_str(), options)
}

/// Spend a specialty for Specialist Compounds: its planet is exhausted, whichever technology is
/// then chosen, and nothing else changes.
pub fn exhaust_specialty(state: &mut GameState, planet: &str)
    ensures
        names(final(state).exhausted_planets@) == names(old(state).exhausted_planets@).push(planet@),
        *final(state) == (GameState { exhausted_planets: final(state).exhausted_planets, ..*old(state) }),
{
    let ghost was = names(state.exhausted_planets@);
    state.exhausted_planets.push(planet.to_string());
    assert(names(state.exhausted_planets@) =~= was.push(planet@));
}

} // verus!
