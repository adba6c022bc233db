//! Doctor Sucaban, the Jol-Nar agent:
//!
//! > When a player spends resources to research: You may exhaust this card to allow that player
//! > to remove any number of their infantry from the game board. For each unit removed, reduce
//! > the resources spent by 1.
//!
//! Two seats are involved: the agent's owner decides whether to exhaust it, and only then does
//! the researching player choose, one infantry at a time and by where it stands, what to give up.

use vstd::prelude::*;
use crate::choice::{answered_index, none_answered, option_views, Choice, ChoiceOption, IllegalChoice, OptionView};
use crate::state::{GameState, LeaderStatus, Seat, SystemState, Unit};
use crate::text::{contains_text, has_phrase, str_eq};

verus! {

/// The agent's alias.
pub const AGENT: &'static str = "jolnaragent";

/// Where the first readied Doctor Sucaban stands among the first `n` leaders, or -1.
pub open spec fn readied_agent(leaders: Seq<(String, LeaderStatus)>, n: int) -> int
    decreases n,
{
    if n <= 0 {
        -1
    } else {
        let earlier = readied_agent(leaders, n - 1);
        if earlier >= 0 {
            earlier
        } else if leaders[n - 1].0@ == AGENT@ && leaders[n - 1].1 == LeaderStatus::Readied {
            n - 1
        } else {
            -1
        }
    }
}

/// The first of the first `n` seats holding a readied Doctor Sucaban, or -1.
pub open spec fn agent_owner(players: Seq<Seat>, n: int) -> int
    decreases n,
{
    if n <= 0 {
        -1
    } else {
        let earlier = agent_owner(players, n - 1);
        if earlier >= 0 {
            earlier
        } else if readied_agent(players[n - 1].leaders@, players[n - 1].leaders@.len() as int) >= 0 {
            n - 1
        } else {
            -1
        }
    }
}

/// Whether a unit is one of a player's infantry.
pub open spec fn is_infantry_of(unit: Unit, player: Seq<char>) -> bool {
    unit.owner@ == player && has_phrase(unit.type_id@, "infantry"@)
}

/// The first of the first `n` units that is one of the player's infantry, or -1.
pub open spec fn first_infantry(units: Seq<Unit>, player: Seq<char>, n: int) -> int
    decreases n,
{
    if n <= 0 {
        -1
    } else {
        let earlier = first_infantry(units, player, n - 1);
        if earlier >= 0 {
            earlier
        } else if is_infantry_of(units[n - 1], player) {
            n - 1
        } else {
            -1
        }
    }
}

/// Whether a player has infantry among some units.
pub open spec fn holds_infantry(units: Seq<Unit>, player: Seq<char>) -> bool {
    first_infantry(units, player, units.len() as int) >= 0
}

/// The planets of a system, among its first `n`, where the player has infantry, as
/// (system position, planet position).
pub open spec fn planet_sites(system: SystemState, b: int, player: Seq<char>, n: int) -> Seq<(int, int)>
    decreases n,
{
    if n <= 0 {
        Seq::empty()
    } else {
        let rest = planet_sites(system, b, player, n - 1);
        if holds_infantry(system.planet_units@[n - 1].1@, player) {
            rest.push((b, n - 1))
        } else {
            rest
        }
    }
}

/// Where a player has infantry in one system: its space area, as (system position, -1), then
/// each planet.
pub open spec fn system_sites(system: SystemState, b: int, player: Seq<char>) -> Seq<(int, int)> {
    let space: Seq<(int, int)> = if holds_infantry(system.units@, player) {
        seq![(b, -1int)]
    } else {
        Seq::empty()
    };
    space + planet_sites(system, b, player, system.planet_units@.len() as int)
}

/// Where a player has infantry among the first `n` systems of the board, in board order: one
/// place per space area or planet, however many stand there.
pub open spec fn infantry_sites(board: Seq<SystemState>, player: Seq<char>, n: int) -> Seq<(int, int)>
    decreases n,
{
    if n <= 0 {
        Seq::empty()
    } else {
        infantry_sites(board, player, n - 1) + system_sites(board[n - 1], n - 1, player)
    }
}

/// Every place a player has infantry on the board.
pub open spec fn all_sites(state: GameState, player: Seq<char>) -> Seq<(int, int)> {
    infantry_sites(state.board@, player, state.board@.len() as int)
}

/// The option that gives up an infantry at a place.
pub open spec fn site_view(board: Seq<SystemState>, site: (int, int)) -> OptionView {
    let system = board[site.0];
    if site.1 < 0 {
        OptionView { id: system.id@ + ":"@, kind: "unit"@, label: "an infantry in space at "@ + system.id@ }
    } else {
        let planet = system.planet_units@[site.1].0@;
        OptionView { id: system.id@ + ":"@ + planet, kind: "unit"@, label: "an infantry on "@ + planet }
    }
}

/// The decline option.
pub open spec fn decline_view() -> OptionView {
    OptionView { id: "decline"@, kind: "decline"@, label: "decline"@ }
}

/// The options of a removal: every place the player has infantry, then a decline.
pub open spec fn removal_views(state: GameState, player: Seq<char>) -> Seq<OptionView> {
    all_sites(state, player).map_values(|s: (int, int)| site_view(state.board@, s)).push(decline_view())
}

/// The prompt of a removal.
pub const REMOVAL_PROMPT: &'static str = "remove an infantry to reduce the cost by 1";

/// The question put to the agent's owner.
pub open spec fn owner_prompt(player: Seq<char>) -> Seq<char> {
    "Doctor Sucaban: exhaust to let "@ + player + " trade infantry for research"@
}

/// The options put to the agent's owner.
pub open spec fn owner_views() -> Seq<OptionView> {
    seq![OptionView { id: "yes"@, kind: "leader"@, label: "exhaust the agent"@ }, decline_view()]
}

/// The table after the player's first infantry at a place is removed.
pub open spec fn removed_infantry(before: GameState, after: GameState, site: (int, int), player: Seq<char>) -> bool {
    let system = before.board@[site.0];
    let units = if site.1 < 0 { system.units@ } else { system.planet_units@[site.1].1@ };
    let k = first_infantry(units, player, units.len() as int);
    &&& 0 <= k < units.len()
    &&& after == (GameState { board: after.board, ..before })
    &&& after.board@.len() == before.board@.len()
    &&& forall|b: int| 0 <= b < before.board@.len() && b != site.0 ==> after.board@[b] == before.board@[b]
    &&& if site.1 < 0 {
        &&& after.board@[site.0] == (SystemState { units: after.board@[site.0].units, ..system })
        &&& after.board@[site.0].units@ == units.remove(k)
    } else {
        let left = after.board@[site.0].planet_units@;
        &&& after.board@[site.0] == (SystemState { planet_units: after.board@[site.0].planet_units, ..system })
        &&& left.len() == system.planet_units@.len()
        &&& forall|p: int| 0 <= p < left.len() && p != site.1 ==> left[p] == system.planet_units@[p]
        &&& left[site.1].0 == system.planet_units@[site.1].0
        &&& left[site.1].1@ == units.remove(k)
    }
}

/// The table after the owner at seat `i` exhausts the agent.
pub open spec fn exhausted_agent(before: GameState, after: GameState, i: int) -> bool {
    let leaders = before.players@[i].leaders@;
    let j = readied_agent(leaders, leaders.len() as int);
    &&& after.players@ == before.players@.update(
        i,
        Seat { leaders: after.players@[i].leaders, ..before.players@[i] },
    )
    &&& after.players@[i].leaders@ == leaders.update(j, (leaders[j].0, LeaderStatus::Exhausted))
    &&& after == (GameState { players: after.players, ..before })
}

/// Where the agent's offer stands.
#[derive(Debug, Clone, Copy, PartialEq, Eq, Structural)]
pub enum SucabanStage {
    /// The agent's owner is asked whether to exhaust it.
    AskOwner,
    /// The researcher is removing infantry; the cost still to pay.
    Removing(i64),
    /// Over; the cost to pay.
    Done(i64),
}

/// The offer as plain values.
pub struct SucabanView {
    pub player: Seq<char>,
    pub owner: Seq<char>,
    pub cost: i64,
    pub stage: SucabanStage,
}

/// Doctor Sucaban's offer to a researching player, one decision at a time.
#[derive(Debug)]
pub struct SucabanWindow {
    player: String,
    owner: String,
    cost: i64,
    stage: SucabanStage,
}

impl View for SucabanWindow {
    type V = SucabanView;

    closed spec fn view(&self) -> SucabanView {
        SucabanView { player: self.player@, owner: self.owner@, cost: self.cost, stage: self.stage }
    }
}

/// What the removals go on to: more while cost remains and infantry stands, else done.
pub open spec fn removing(state: GameState, player: Seq<char>, cost: i64) -> SucabanStage {
    if cost > 0 && all_sites(state, player).len() > 0 {
        SucabanStage::Removing(cost)
    } else {
        SucabanStage::Done(cost)
    }
}

/// The cost as it stands.
pub open spec fn cost_now(w: SucabanView) -> i64 {
    match w.stage {
        SucabanStage::AskOwner => w.cost,
        SucabanStage::Removing(c) => c,
        SucabanStage::Done(c) => c,
    }
}

proof fn lemma_readied_agent_bounds(leaders: Seq<(String, LeaderStatus)>, n: int)
    requires
        0 <= n <= leaders.len(),
    ensures
        -1 <= readied_agent(leaders, n) < n,
        readied_agent(leaders, n) >= 0 ==> leaders[readied_agent(leaders, n)].0@ == AGENT@
            && leaders[readied_agent(leaders, n)].1 == LeaderStatus::Readied,
    decreases n,
{
    if n > 0 {
        lemma_readied_agent_bounds(leaders, n - 1);
    }
}

proof fn lemma_readied_agent_stays(leaders: Seq<(String, LeaderStatus)>, m: int, n: int)
    requires
        0 <= m <= n,
        readied_agent(leaders, m) >= 0,
    ensures
        readied_agent(leaders, n) == readied_agent(leaders, m),
    decreases n - m,
{
    if n > m {
        lemma_readied_agent_stays(leaders, m, n - 1);
    }
}

proof fn lemma_agent_owner_stays(players: Seq<Seat>, m: int, n: int)
    requires
        0 <= m <= n,
        agent_owner(players, m) >= 0,
    ensures
        agent_owner(players, n) == agent_owner(players, m),
    decreases n - m,
{
    if n > m {
        lemma_agent_owner_stays(players, m, n - 1);
    }
}

proof fn lemma_first_infantry_stays(units: Seq<Unit>, player: Seq<char>, m: int, n: int)
    requires
        0 <= m <= n,
        first_infantry(units, player, m) >= 0,
    ensures
        first_infantry(units, player, n) == first_infantry(units, player, m),
    decreases n - m,
{
    if n > m {
        lemma_first_infantry_stays(units, player, m, n - 1);
    }
}

fn find_readied_agent(leaders: &Vec<(String, LeaderStatus)>) -> (at: Option<usize>)
    ensures
        match at {
            Some(j) => readied_agent(leaders@, leaders@.len() as int) == j as int,
            None => readied_agent(leaders@, leaders@.len() as int) == -1,
        },
{
    let mut j: usize = 0;
    while j < leaders.len()
        invariant
            j <= leaders@.len(),
            readied_agent(leaders@, j as int) == -1,
        decreases leaders@.len() - j,
    {
        if str_eq(leaders[j].0.as_str(), AGENT) && leaders[j].1 == LeaderStatus::Readied {
            proof {
                assert(readied_agent(leaders@, j + 1) == j as int);
                lemma_readied_agent_stays(leaders@, j + 1, leaders@.len() as int);
            }
            return Some(j);
        }
        j = j + 1;
    }
    None
}

fn find_agent_owner(players: &Vec<Seat>) -> (at: Option<usize>)
    ensures
        match at {
            Some(i) => agent_owner(players@, players@.len() as int) == i as int && i < players@.len(),
            None => agent_owner(players@, players@.len() as int) == -1,
        },
{
    let mut i: usize = 0;
    while i < players.len()
        invariant
            i <= players@.len(),
            agent_owner(players@, i as int) == -1,
        decreases players@.len() - i,
    {
        if find_readied_agent(&players[i].leaders).is_some() {
            proof {
                assert(agent_owner(players@, i + 1) == i as int);
                lemma_agent_owner_stays(players@, i + 1, players@.len() as int);
            }
            return Some(i);
        }
        i = i + 1;
    }
    None
}

fn find_infantry(units: &Vec<Unit>, player: &str) -> (at: Option<usize>)
    ensures
        match at {
            Some(k) => first_infantry(units@, player@, units@.len() as int) == k as int && k < units@.len(),
            None => first_infantry(units@, player@, units@.len() as int) == -1,
        },
{
    let mut k: usize = 0;
    while k < units.len()
        invariant
            k <= units@.len(),
            first_infantry(units@, player@, k as int) == -1,
        decreases units@.len() - k,
    {
        if str_eq(units[k].owner.as_str(), player) && contains_text(units[k].type_id.as_str(), "infantry") {
            proof {
                assert(first_infantry(units@, player@, k + 1) == k as int);
                lemma_first_infantry_stays(units@, player@, k + 1, units@.len() as int);
            }
            return Some(k);
        }
        k = k + 1;
    }
    None
}

/// Every place a player has infantry, as (system position, planet position or `None` for the
/// space area).
fn sites_of(state: &GameState, player: &str) -> (sites: Vec<(usize, Option<usize>)>)
    ensures
        sites@.map_values(|s: (usize, Option<usize>)| site_int(s)) == all_sites(*state, player@),
{
    let mut sites: Vec<(usize, Option<usize>)> = Vec::new();
    let mut b: usize = 0;
    while b < state.board.len()
        invariant
            b <= state.board@.len(),
            sites@.map_values(|s: (usize, Option<usize>)| site_int(s)) == infantry_sites(state.board@, player@, b as int),
        decreases state.board@.len() - b,
    {
        let system = &state.board[b];
        let ghost before = sites@.map_values(|s: (usize, Option<usize>)| site_int(s));
        let ghost space: Seq<(int, int)> = if holds_infantry(system.units@, player@) { seq![(b as int, -1int)] } else { Seq::empty() };
        if find_infantry(&system.units, player).is_some() {
            sites.push((b, None));
            assert(sites@.map_values(|s: (usize, Option<usize>)| site_int(s)) =~= before + space);
        } else {
            assert(sites@.map_values(|s: (usize, Option<usize>)| site_int(s)) =~= before + space);
        }
        let mut p: usize = 0;
        while p < system.planet_units.len()
            invariant
                p <= system.planet_units@.len(),
                system == state.board@[b as int],
                b < state.board@.len(),
                sites@.map_values(|s: (usize, Option<usize>)| site_int(s)) == before + space + planet_sites(*system, b as int, player@, p as int),
            decreases system.planet_units@.len() - p,
        {
            let ghost was = sites@.map_values(|s: (usize, Option<usize>)| site_int(s));
            if find_infantry(&system.planet_units[p].1, player).is_some() {
                sites.push((b, Some(p)));
                assert(sites@.map_values(|s: (usize, Option<usize>)| site_int(s)) =~= was.push((b as int, p as int)));
                assert(before + space + planet_sites(*system, b as int, player@, p + 1) =~= (before + space + planet_sites(*system, b as int, player@, p as int)).push((b as int, p as int)));
            }
            p = p + 1;
        }
        assert(before + space + planet_sites(*system, b as int, player@, system.planet_units@.len() as int) =~= infantry_sites(state.board@, player@, b + 1));
        b = b + 1;
    }
    sites
}

/// A place as integers: the space area is planet position -1.
pub open spec fn site_int(site: (usize, Option<usize>)) -> (int, int) {
    (site.0 as int, match site.1 {
        Some(p) => p as int,
        None => -1,
    })
}

fn removal_choice(state: &GameState, player: &str) -> (choice: Choice)
    ensures
        choice.player@ == player@,
        choice.prompt@ == REMOVAL_PROMPT@,
        option_views(choice.options@) == removal_views(*state, player@),
{
    let sites = sites_of(state, player);
    let ghost all = all_sites(*state, player@);
    let ghost views = all.map_values(|s: (int, int)| site_view(state.board@, s));
    let mut options: Vec<ChoiceOption> = Vec::new();
    let mut k: usize = 0;
    proof {
        lemma_sites_valid(state.board@, player@, state.board@.len() as int);
        assert forall|j: int| 0 <= j < all.len() implies 0 <= (#[trigger] all[j]).0 < state.board@.len() && -1 <= all[j].1
            < state.board@[all[j].0].planet_units@.len() by {
            assert(all[j] == infantry_sites(state.board@, player@, state.board@.len() as int)[j]);
        }
    }
    while k < sites.len()
        invariant
            k <= sites@.len(),
            sites@.map_values(|s: (usize, Option<usize>)| site_int(s)) == all,
            all == all_sites(*state, player@),
            views == all.map_values(|s: (int, int)| site_view(state.board@, s)),
            forall|j: int| 0 <= j < all.len() ==> 0 <= (#[trigger] all[j]).0 < state.board@.len() && -1 <= all[j].1
                < state.board@[all[j].0].planet_units@.len(),
            option_views(options@) == views.subrange(0, k as int),
        decreases sites@.len() - k,
    {
        let (b, at) = sites[k];
        assert(all[k as int] == site_int(sites@[k as int]));
        assert(0 <= all[k as int].0 < state.board@.len());
        let system = &state.board[b];
        let option = match at {
            None => {
                let id = system.id.clone().concat(":");
                let label = "an infantry in space at ".to_string().concat(system.id.as_str());
                ChoiceOption::labelled(id.as_str(), "unit", label.as_str())
            },
            Some(p) => {
                let planet = &system.planet_units[p].0;
                let id = system.id.clone().concat(":").concat(planet.as_str());
                let label = "an infantry on ".to_string().concat(planet.as_str());
                ChoiceOption::labelled(id.as_str(), "unit", label.as_str())
            },
        };
        let ghost was = option_views(options@);
        options.push(option);
        assert(option_views(options@) =~= was.push(views[k as int]));
        assert(views.subrange(0, k + 1) =~= views.subrange(0, k as int).push(views[k as int]));
        k = k + 1;
    }
    assert(views.subrange(0, k as int) =~= views);
    let ghost was = option_views(options@);
    options.push(ChoiceOption::decline());
    assert(option_views(options@) =~= was.push(decline_view()));
    Choice::new(player, REMOVAL_PROMPT, options)
}

proof fn lemma_sites_valid(board: Seq<SystemState>, player: Seq<char>, n: int)
    requires
        0 <= n <= board.len(),
    ensures
        forall|j: int| 0 <= j < infantry_sites(board, player, n).len() ==> {
            let s = #[trigger] infantry_sites(board, player, n)[j];
            &&& 0 <= s.0 < board.len()
            &&& -1 <= s.1 < board[s.0].planet_units@.len()
            &&& holds_infantry(if s.1 < 0 { board[s.0].units@ } else { board[s.0].planet_units@[s.1].1@ }, player)
        },
    decreases n,
{
    if n > 0 {
        lemma_sites_valid(board, player, n - 1);
        lemma_planet_sites_valid(board[n - 1], n - 1, player, board[n - 1].planet_units@.len() as int);
        let a = infantry_sites(board, player, n - 1);
        let c = system_sites(board[n - 1], n - 1, player);
        assert forall|j: int| 0 <= j < infantry_sites(board, player, n).len() implies {
            let s = #[trigger] infantry_sites(board, player, n)[j];
            &&& 0 <= s.0 < board.len()
            &&& -1 <= s.1 < board[s.0].planet_units@.len()
            &&& holds_infantry(if s.1 < 0 { board[s.0].units@ } else { board[s.0].planet_units@[s.1].1@ }, player)
        } by {
            if j < a.len() {
                assert(infantry_sites(board, player, n)[j] == a[j]);
            } else {
                assert(infantry_sites(board, player, n)[j] == c[j - a.len()]);
                let space: Seq<(int, int)> = if holds_infantry(board[n - 1].units@, player) {
                    seq![(n - 1, -1int)]
                } else {
                    Seq::empty()
                };
                let ps = planet_sites(board[n - 1], n - 1, player, board[n - 1].planet_units@.len() as int);
                if j - a.len() >= space.len() {
                    assert(c[j - a.len()] == ps[j - a.len() - space.len()]);
                }
            }
        }
    }
}

proof fn lemma_planet_sites_valid(system: SystemState, b: int, player: Seq<char>, n: int)
    requires
        0 <= n <= system.planet_units@.len(),
    ensures
        forall|j: int| 0 <= j < planet_sites(system, b, player, n).len() ==> {
            let s = #[trigger] planet_sites(system, b, player, n)[j];
            &&& s.0 == b
            &&& 0 <= s.1 < system.planet_units@.len()
            &&& holds_infantry(system.planet_units@[s.1].1@, player)
        },
    decreases n,
{
    if n > 0 {
        lemma_planet_sites_valid(system, b, player, n - 1);
        let rest = planet_sites(system, b, player, n - 1);
        assert forall|j: int| 0 <= j < planet_sites(system, b, player, n).len() implies {
            let s = #[trigger] planet_sites(system, b, player, n)[j];
            &&& s.0 == b
            &&& 0 <= s.1 < system.planet_units@.len()
            &&& holds_infantry(system.planet_units@[s.1].1@, player)
        } by {
            if j < rest.len() {
                assert(planet_sites(system, b, player, n)[j] == rest[j]);
            }
        }
    }
}

fn remove_infantry_at(state: &mut GameState, player: &str, b: usize, at: Option<usize>)
    requires
        b < old(state).board@.len(),
        match at {
            Some(p) => p < old(state).board@[b as int].planet_units@.len() && holds_infantry(
                old(state).board@[b as int].planet_units@[p as int].1@,
                player@,
            ),
            None => holds_infantry(old(state).board@[b as int].units@, player@),
        },
    ensures
        removed_infantry(*old(state), *final(state), site_int((b, at)), player@),
{
    let ghost before = *state;
    let mut system = state.board.remove(b);
    let ghost sys0 = system;
    match at {
        None => {
            let k = find_infantry(&system.units, player).unwrap();
            system.units.remove(k);
        },
        Some(p) => {
            let mut entry = system.planet_units.remove(p);
            let k = find_infantry(&entry.1, player).unwrap();
            entry.1.remove(k);
            system.planet_units.insert(p, entry);
            assert forall|q: int| 0 <= q < system.planet_units@.len() && q != p implies system.planet_units@[q]
                == sys0.planet_units@[q] by {
            }
        },
    }
    state.board.insert(b, system);
    assert forall|x: int| 0 <= x < before.board@.len() && x != b implies state.board@[x] == before.board@[x] by {}
}

fn exhaust_agent(state: &mut GameState, i: usize, j: usize)
    requires
        i < old(state).players@.len(),
        j as int == readied_agent(old(state).players@[i as int].leaders@, old(state).players@[i as int].leaders@.len() as int),
    ensures
        exhausted_agent(*old(state), *final(state), i as int),
{
    let ghost before = *state;
    proof {
        lemma_readied_agent_bounds(before.players@[i as int].leaders@, before.players@[i as int].leaders@.len() as int);
    }
    let mut seat = state.players.remove(i);
    let ghost l0 = seat.leaders@;
    let (name, _) = seat.leaders.remove(j);
    seat.leaders.insert(j, (name, LeaderStatus::Exhausted));
    assert(seat.leaders@ =~= l0.update(j as int, (l0[j as int].0, LeaderStatus::Exhausted)));
    state.players.insert(i, seat);
    assert(state.players@ =~= before.players@.update(
        i as int,
        Seat { leaders: state.players@[i as int].leaders, ..before.players@[i as int] },
    ));
}

impl SucabanWindow {
    /// Open the agent's offer to a player about to spend `cost` resources on research. There is
    /// nothing to ask when the cost is nothing, no seat holds the agent readied, or the player
    /// has no infantry on the board: the cost stands.
    pub fn open(state: &GameState, player: &str, cost: i64) -> (w: Self)
        ensures
            w@.player == player@,
            w@.cost == cost,
            ({
                let i = agent_owner(state.players@, state.players@.len() as int);
                if cost <= 0 || i < 0 || all_sites(*state, player@).len() == 0 {
                    w@.stage == SucabanStage::Done(cost)
                } else {
                    &&& w@.stage == SucabanStage::AskOwner
                    &&& w@.owner == state.players@[i].id@
                }
            }),
    {
        let done = SucabanWindow { player: player.to_string(), owner: String::new(), cost, stage: SucabanStage::Done(cost) };
        if cost <= 0 {
            return done;
        }
        let i = match find_agent_owner(&state.players) {
            Some(i) => i,
            None => return done,
        };
        if sites_of(state, player).len() == 0 {
            return done;
        }
        SucabanWindow { player: player.to_string(), owner: state.players[i].id.clone(), cost, stage: SucabanStage::AskOwner }
    }

    /// The cost as it stands, and whether the offer is over.
    pub fn outcome(&self) -> (outcome: (i64, bool))
        ensures
            outcome.0 == cost_now(self@),
            outcome.1 == (self@.stage is Done),
    {
        match self.stage {
            SucabanStage::AskOwner => (self.cost, false),
            SucabanStage::Removing(c) => (c, false),
            SucabanStage::Done(c) => (c, true),
        }
    }

    /// The decision the offer waits on: the owner's, whether to exhaust the agent; then the
    /// researcher's, which infantry to give up next, or to stop.
    pub fn pending_choice(&self, state: &GameState) -> (choice: Option<Choice>)
        ensures
            match self@.stage {
                SucabanStage::AskOwner => choice matches Some(c) && c.player@ == self@.owner && c.prompt@
                    == owner_prompt(self@.player) && option_views(c.options@) == owner_views(),
                SucabanStage::Removing(_) => choice matches Some(c) && c.player@ == self@.player && c.prompt@
                    == REMOVAL_PROMPT@ && option_views(c.options@) == removal_views(*state, self@.player),
                SucabanStage::Done(_) => choice is None,
            },
    {
        match self.stage {
            SucabanStage::AskOwner => {
                let prompt = "Doctor Sucaban: exhaust to let ".to_string().concat(self.player.as_str()).concat(
                    " trade infantry for research",
                );
                let mut options: Vec<ChoiceOption> = Vec::new();
                options.push(ChoiceOption::labelled("yes", "leader", "exhaust the agent"));
                options.push(ChoiceOption::decline());
                assert(option_views(options@) =~= owner_views());
                Some(Choice::new(self.owner.as_str(), prompt.as_str(), options))
            },
            SucabanStage::Removing(_) => Some(removal_choice(state, self.player.as_str())),
            SucabanStage::Done(_) => None,
        }
    }

    /// Answer the decision the offer waits on. An answer that names nothing offered, or comes
    /// when nothing is asked, changes nothing. The owner's decline ends the offer at the full
    /// cost; their yes exhausts the agent (while it is still readied) and lets the researcher
    /// remove infantry. Each infantry removed, from the place the answer names, takes one off
    /// the cost, down to nothing; the researcher's decline stops there. Gives the cost as it
    /// then stands.
    pub fn take_choice(&mut self, state: &mut GameState, answer: ChoiceOption) -> (result: Result<i64, IllegalChoice>)
        ensures
            match result {
                Err(_) => {
                    &&& *final(state) == *old(state)
                    &&& final(self)@ == old(self)@
                    &&& match old(self)@.stage {
                        SucabanStage::AskOwner => none_answered(owner_views(), answer@),
                        SucabanStage::Removing(_) => none_answered(removal_views(*old(state), old(self)@.player), answer@),
                        SucabanStage::Done(_) => true,
                    }
                },
                Ok(cost) => {
                    &&& cost == cost_now(final(self)@)
                    &&& final(self)@ == (SucabanView { stage: final(self)@.stage, ..old(self)@ })
                    &&& sucaban_answered(old(self)@, *old(state), answer@, final(self)@.stage, *final(state))
                },
            },
    {
        let choice = match self.pending_choice(state) {
            Some(c) => c,
            None => return Err(IllegalChoice { player: self.player.clone(), answered: answer.id }),
        };
        let k = match answered_index(&choice, &answer) {
            Some(k) => k,
            None => return Err(IllegalChoice { player: choice.player, answered: answer.id }),
        };
        let ghost s0 = *state;
        proof {
            let views = option_views(choice.options@);
            assert forall|j: int| crate::choice::first_answered(views, j, answer@) implies j == k by {
                if j < k {
                    assert(!crate::choice::names_at(views, j, answer@));
                } else if j > k {
                    assert(!crate::choice::names_at(views, k as int, answer@));
                }
            }
        }
        match self.stage {
            SucabanStage::AskOwner => {
                if k == 1 {
                    self.stage = SucabanStage::Done(self.cost);
                    return Ok(self.cost);
                }
                let i = match find_seat_by_id(&state.players, self.owner.as_str()) {
                    Some(i) => i,
                    None => {
                        self.stage = SucabanStage::Done(self.cost);
                        return Ok(self.cost);
                    },
                };
                let j = match find_readied_agent(&state.players[i].leaders) {
                    Some(j) => j,
                    None => {
                        self.stage = SucabanStage::Done(self.cost);
                        return Ok(self.cost);
                    },
                };
                exhaust_agent(state, i, j);
                let more = self.cost > 0 && sites_of(state, self.player.as_str()).len() > 0;
                self.stage = if more { SucabanStage::Removing(self.cost) } else { SucabanStage::Done(self.cost) };
                Ok(self.cost)
            },
            SucabanStage::Removing(c) => {
                let sites = sites_of(state, self.player.as_str());
                assert(removal_views(s0, self@.player).len() == sites@.len() + 1);
                if k >= sites.len() {
                    self.stage = SucabanStage::Done(c);
                    return Ok(c);
                }
                let (b, at) = sites[k];
                proof {
                    lemma_sites_valid(s0.board@, self@.player, s0.board@.len() as int);
                    assert(site_int(sites@[k as int]) == all_sites(s0, self@.player)[k as int]);
                }
                remove_infantry_at(state, self.player.as_str(), b, at);
                let left = if c > 0 { c - 1 } else { 0 };
                let more = left > 0 && sites_of(state, self.player.as_str()).len() > 0;
                self.stage = if more { SucabanStage::Removing(left) } else { SucabanStage::Done(left) };
                Ok(left)
            },
            SucabanStage::Done(_) => Err(IllegalChoice { player: self.player.clone(), answered: answer.id }),
        }
    }
}

/// The seat with an id among the first `n`, or -1.
pub open spec fn seat_with_id(players: Seq<Seat>, id: Seq<char>, n: int) -> int
    decreases n,
{
    if n <= 0 {
        -1
    } else {
        let earlier = seat_with_id(players, id, n - 1);
        if earlier >= 0 {
            earlier
        } else if players[n - 1].id@ == id {
            n - 1
        } else {
            -1
        }
    }
}

proof fn lemma_seat_with_id_stays(players: Seq<Seat>, id: Seq<char>, m: int, n: int)
    requires
        0 <= m <= n,
        seat_with_id(players, id, m) >= 0,
    ensures
        seat_with_id(players, id, n) == seat_with_id(players, id, m),
    decreases n - m,
{
    if n > m {
        lemma_seat_with_id_stays(players, id, m, n - 1);
    }
}

fn find_seat_by_id(players: &Vec<Seat>, id: &str) -> (at: Option<usize>)
    ensures
        match at {
            Some(i) => seat_with_id(players@, id@, players@.len() as int) == i as int && i < players@.len(),
            None => seat_with_id(players@, id@, players@.len() as int) == -1,
        },
{
    let mut i: usize = 0;
    while i < players.len()
        invariant
            i <= players@.len(),
            seat_with_id(players@, id@, i as int) == -1,
        decreases players@.len() - i,
    {
        if str_eq(players[i].id.as_str(), id) {
            proof {
                assert(seat_with_id(players@, id@, i + 1) == i as int);
                lemma_seat_with_id_stays(players@, id@, i + 1, players@.len() as int);
            }
            return Some(i);
        }
        i = i + 1;
    }
    None
}

/// An answered decision: what the stage becomes and what the table becomes.
pub open spec fn sucaban_answered(w: SucabanView, s0: GameState, answer: OptionView, stage: SucabanStage, s1: GameState) -> bool {
    match w.stage {
        SucabanStage::AskOwner => {
            let i = seat_with_id(s0.players@, w.owner, s0.players@.len() as int);
            let declined = crate::choice::first_answered(owner_views(), 1, answer);
            let readied = i >= 0 && readied_agent(s0.players@[i].leaders@, s0.players@[i].leaders@.len() as int) >= 0;
            &&& crate::choice::first_answered(owner_views(), 0, answer) || declined
            &&& if declined || !readied {
                &&& stage == SucabanStage::Done(w.cost)
                &&& s1 == s0
            } else {
                &&& exhausted_agent(s0, s1, i)
                &&& stage == removing(s1, w.player, w.cost)
            }
        },
        SucabanStage::Removing(c) => {
            let sites = all_sites(s0, w.player);
            let views = removal_views(s0, w.player);
            let k = choose|k: int| crate::choice::first_answered(views, k, answer);
            let left = if c > 0 { c - 1 } else { 0 };
            &&& exists|k: int| crate::choice::first_answered(views, k, answer)
            &&& if k == sites.len() {
                &&& stage == SucabanStage::Done(c)
                &&& s1 == s0
            } else {
                &&& removed_infantry(s0, s1, sites[k], w.player)
                &&& stage == removing(s1, w.player, left as i64)
            }
        },
        SucabanStage::Done(_) => false,
    }
}

} // verus!
