//! Applying a move: cargo (LRR 95) and the gravity-rift roll (41.2).

use vstd::prelude::*;
use crate::choice::{
    first_named, names, offered, payload_view, spec_is_decline, validate, Choice, ChoiceOption,
    IllegalChoice, OptionView, Value, ValueView, DECLINE_KIND,
};
use crate::dice::{dice_draws, Dice, SIDES};
use crate::rng::{chacha8_range_u32, domain, GameRng};
use rand_chacha::ChaCha8Rng;
use crate::state::{contains_name, GameState, SystemState, Unit};
use crate::text::{
    decimal, decimal_string, decimal_string_u64, lemma_parse_decimal_usize, parse_usize_range, starts_with, str_eq,
};

verus! {

/// The choice kind for loading a unit into a ship's hold.
pub const LOAD_KIND: &'static str = "load";

/// The id prefix of a load option.
pub const LOAD_PREFIX: &'static str = "load|";

/// The id of the option that closes the hold.
pub const DONE_LOADING_ID: &'static str = "done_loading";

/// A rift roll of this or less removes the ship from the board (41.2).
pub const RIFT_DESTROYS_ON: u32 = 3;

/// Where a carried unit came from, so a lost ship can put it back.
#[derive(Debug, PartialEq, Eq)]
pub enum CargoSource {
    /// The space area of the origin system.
    Space,
    /// A planet in the origin system.
    Planet(String),
}

/// The mathematical form of a cargo source.
pub enum SourceView {
    Space,
    Planet(Seq<char>),
}

impl View for CargoSource {
    type V = SourceView;

    open spec fn view(&self) -> SourceView {
        match self {
            CargoSource::Space => SourceView::Space,
            CargoSource::Planet(p) => SourceView::Planet(p@),
        }
    }
}

impl Clone for CargoSource {
    fn clone(&self) -> (copy: Self)
        ensures
            copy@ == self@,
    {
        match self {
            CargoSource::Space => CargoSource::Space,
            CargoSource::Planet(p) => CargoSource::Planet(p.clone()),
        }
    }
}

/// One unit in a ship's hold, paired with where it was picked up.
#[derive(Debug, PartialEq, Eq)]
pub struct Cargo {
    pub unit: Unit,
    pub source: CargoSource,
    /// The system this unit was picked up from.
    pub system: String,
}

impl Clone for Cargo {
    fn clone(&self) -> (copy: Self)
        ensures
            copy.unit.type_id@ == self.unit.type_id@,
            copy.unit.owner@ == self.unit.owner@,
            copy.unit.sustained_damage == self.unit.sustained_damage,
            copy.unit.galvanized == self.unit.galvanized,
            copy.source@ == self.source@,
            copy.system@ == self.system@,
    {
        Cargo { unit: self.unit.clone(), source: self.source.clone(), system: self.system.clone() }
    }
}

/// A failure while loading a hold.
#[derive(Debug)]
pub enum CargoError {
    /// The hold is full or closed.
    Complete,
    /// The option id does not name a loadable unit.
    UnknownCargo(String),
    /// The answer was not offered.
    IllegalChoice(IllegalChoice),
}

/// Whether two candidates are interchangeable: same type, same damage, same source.
pub open spec fn same_pickup(a: Cargo, b: Cargo) -> bool {
    &&& a.unit.type_id@ == b.unit.type_id@
    &&& a.unit.sustained_damage == b.unit.sustained_damage
    &&& a.unit.galvanized == b.unit.galvanized
    &&& a.source@ == b.source@
}

/// Filling one ship's hold before it moves (LRR 95), up to the ship's capacity.
///
/// Candidates are tracked by index, never by value: two infantry are interchangeable, and
/// filtering an "already taken" list by equality would make the second one unloadable.
#[derive(Debug, Clone, PartialEq, Eq)]
pub struct CargoWindow {
    player: String,
    candidates: Vec<Cargo>,
    origin: Option<String>,
    ship_type: Option<String>,
    ground: Vec<bool>,
    fighters: Vec<bool>,
    loaded: Vec<usize>,
    capacity: i64,
    closed: bool,
}

impl CargoWindow {
    /// The loaded indices name distinct candidates.
    pub closed spec fn wf(&self) -> bool {
        &&& forall|k: int| 0 <= k < self.loaded@.len() ==> #[trigger] self.loaded@[k]
            < self.candidates@.len()
        &&& forall|a: int, b: int| 0 <= a < b < self.loaded@.len() ==> self.loaded@[a]
            != self.loaded@[b]
        &&& self.loaded@.len() <= self.candidates@.len()
        &&& self.candidates@.len() <= usize::MAX
    }

    /// The candidates the hold was opened over.
    pub closed spec fn candidates_view(&self) -> Seq<Cargo> {
        self.candidates@
    }

    /// The candidate indices taken aboard, in loading order.
    pub closed spec fn loaded_view(&self) -> Seq<usize> {
        self.loaded@
    }

    /// The hold's capacity.
    pub closed spec fn capacity_view(&self) -> i64 {
        self.capacity
    }

    /// Whether the hold was closed.
    pub closed spec fn closed_view(&self) -> bool {
        self.closed
    }

    /// Who is loading.
    pub closed spec fn player_view(&self) -> Seq<char> {
        self.player@
    }

    /// The system whose units are offered, when the hold knows it.
    pub closed spec fn origin_view(&self) -> Option<Seq<char>> {
        match self.origin {
            Some(o) => Some(o@),
            None => None,
        }
    }

    /// The ship's type, when the hold knows it.
    pub closed spec fn ship_view(&self) -> Option<Seq<char>> {
        match self.ship_type {
            Some(s) => Some(s@),
            None => None,
        }
    }

    /// Which candidates are ground forces and which are fighters, by position.
    pub closed spec fn flags_view(&self) -> (Seq<bool>, Seq<bool>) {
        (self.ground@, self.fighters@)
    }

    /// Whether the candidate at `k` is a ground force.
    pub closed spec fn is_ground(&self, k: int) -> bool {
        0 <= k < self.ground@.len() && self.ground@[k]
    }

    /// Whether the candidate at `k` is a fighter.
    pub closed spec fn is_fighter(&self, k: int) -> bool {
        0 <= k < self.fighters@.len() && self.fighters@[k]
    }

    /// How many of the indices are set in a list of flags.
    pub open spec fn count_flagged(indices: Seq<usize>, flags: Seq<bool>) -> nat
        decreases indices.len(),
    {
        if indices.len() == 0 {
            0
        } else {
            Self::count_flagged(indices.drop_last(), flags) + if indices.last() < flags.len()
                && flags[indices.last() as int] {
                1nat
            } else {
                0
            }
        }
    }

    /// How many of the first `n` candidates are free ground forces.
    pub closed spec fn count_free_ground(&self, n: int) -> nat
        decreases n,
    {
        if n <= 0 {
            0
        } else {
            self.count_free_ground(n - 1) + if self.is_free(n - 1) && self.is_ground(n - 1) {
                1nat
            } else {
                0
            }
        }
    }

    /// Whether the hold is complete: closed, everything loaded, or full.
    pub open spec fn spec_complete(&self) -> bool {
        self.closed_view() || self.loaded_view().len() >= self.candidates_view().len()
            || self.loaded_view().len() >= self.capacity_view()
    }

    /// Whether candidate `k` is still free.
    pub open spec fn is_free(&self, k: int) -> bool {
        0 <= k < self.candidates_view().len() && !self.loaded_view().contains(k as usize)
    }

    /// Whether candidate `k` is free and no earlier free candidate is interchangeable with it.
    pub open spec fn first_of_kind(&self, k: int) -> bool {
        &&& self.is_free(k)
        &&& forall|j: int| 0 <= j < k && self.is_free(j) ==> !same_pickup(
            self.candidates_view()[j],
            self.candidates_view()[k],
        )
    }

    /// The candidates offered among the first `n`: each free kind once, in candidate order.
    pub open spec fn offered_among(&self, n: int) -> Seq<int>
        decreases n,
    {
        if n <= 0 {
            Seq::empty()
        } else if self.first_of_kind(n - 1) {
            self.offered_among(n - 1).push(n - 1)
        } else {
            self.offered_among(n - 1)
        }
    }

    /// The candidates a pickup choice offers.
    pub open spec fn offered_indices(&self) -> Seq<int> {
        self.offered_among(self.candidates_view().len() as int)
    }

    /// How many loaded units satisfy a flag.
    pub closed spec fn loaded_ground(&self) -> nat {
        Self::count_flagged(self.loaded@, self.ground@)
    }

    pub closed spec fn loaded_fighters(&self) -> nat {
        Self::count_flagged(self.loaded@, self.fighters@)
    }

    /// How many free candidates are ground forces.
    pub closed spec fn ground_available(&self) -> nat {
        self.count_free_ground(self.candidates@.len() as int)
    }

    /// Loaded units, as `try_from` would count them into an `i64`.
    pub open spec fn loaded_count(&self) -> int {
        self.loaded_view().len() as int
    }

    /// The room left in the hold.
    pub open spec fn room(&self) -> int {
        self.capacity_view() - self.loaded_count()
    }

    /// Where a candidate stands, as a prompt names it.
    pub open spec fn where_from(&self, k: int) -> Seq<char> {
        match self.candidates_view()[k].source@ {
            SourceView::Space => "space"@,
            SourceView::Planet(p) => p,
        }
    }

    /// The option loading candidate `k`.
    pub open spec fn load_view(&self, k: int) -> OptionView {
        OptionView {
            id: LOAD_PREFIX@ + decimal(k),
            kind: LOAD_KIND@,
            label: "load "@ + self.candidates_view()[k].unit.type_id@ + " from "@ + self.where_from(k),
        }
    }

    /// The system fact, when the hold knows its origin.
    pub open spec fn system_fact(&self) -> Seq<(Seq<char>, ValueView)> {
        match self.origin_view() {
            Some(o) => seq![("system"@, ValueView::Text(o))],
            None => Seq::empty(),
        }
    }

    /// The facts attached to the option loading candidate `k`.
    pub open spec fn load_payload(&self, k: int) -> Seq<(Seq<char>, ValueView)> {
        let c = self.candidates_view()[k];
        seq![
            ("unit"@, ValueView::Text(c.unit.type_id@)),
            ("source"@, match c.source@ {
                SourceView::Space => ValueView::Null,
                SourceView::Planet(p) => ValueView::Text(p),
            }),
            ("damaged"@, ValueView::Bool(c.unit.sustained_damage)),
            ("galvanized"@, ValueView::Bool(c.unit.galvanized)),
            ("capacity_remaining"@, ValueView::Int(self.room())),
            ("loaded_ground"@, ValueView::Int(self.loaded_ground() as int)),
            ("loaded_fighters"@, ValueView::Int(self.loaded_fighters() as int)),
        ] + self.system_fact()
    }

    /// The facts attached to the option that closes the hold.
    pub open spec fn decline_payload(&self) -> Seq<(Seq<char>, ValueView)> {
        seq![
            ("loaded_ground"@, ValueView::Int(self.loaded_ground() as int)),
            ("loaded_fighters"@, ValueView::Int(self.loaded_fighters() as int)),
            ("ground_available"@, ValueView::Int(self.ground_available() as int)),
        ] + self.system_fact()
    }

    /// The prompt of a pickup choice.
    pub open spec fn prompt_view(&self) -> Seq<char> {
        match self.ship_view() {
            None => "load which unit"@,
            Some(ship) => "load "@ + ship + " ("@ + decimal(self.room()) + " free)"@,
        }
    }

    /// Every offered candidate is free and the first of its kind.
    proof fn lemma_offered_are_first(&self, n: int)
        ensures
            forall|k: int| 0 <= k < self.offered_among(n).len() ==> {
                let j = #[trigger] self.offered_among(n)[k];
                &&& 0 <= j < n
                &&& self.first_of_kind(j)
            },
            forall|a: int, b: int| 0 <= a < b < self.offered_among(n).len() ==> self.offered_among(n)[a]
                < self.offered_among(n)[b],
        decreases n,
    {
        if n > 0 {
            self.lemma_offered_are_first(n - 1);
            let prev = self.offered_among(n - 1);
            let now = self.offered_among(n);
            assert forall|k: int| 0 <= k < now.len() implies {
                let j = #[trigger] now[k];
                &&& 0 <= j < n
                &&& self.first_of_kind(j)
            } by {
                if k < prev.len() {
                    assert(now[k] == prev[k]);
                }
            }
            assert forall|a: int, b: int| 0 <= a < b < now.len() implies now[a] < now[b] by {
                if b < prev.len() {
                    assert(now[a] == prev[a] && now[b] == prev[b]);
                } else {
                    assert(now[a] == prev[a]);
                    assert(0 <= prev[a] < n - 1);
                }
            }
        }
    }

    /// Every free candidate below `n` has an interchangeable one among those offered.
    proof fn lemma_represented(&self, n: int)
        ensures
            forall|j: int| 0 <= j < n && #[trigger] self.is_free(j) ==> exists|k: int|
                0 <= k < self.offered_among(n).len() && same_pickup(
                    self.candidates_view()[self.offered_among(n)[k]],
                    self.candidates_view()[j],
                ),
        decreases n,
    {
        if n > 0 {
            self.lemma_represented(n - 1);
            let prev = self.offered_among(n - 1);
            let now = self.offered_among(n);
            assert forall|j: int| 0 <= j < n && #[trigger] self.is_free(j) implies exists|k: int|
                0 <= k < now.len() && same_pickup(
                    self.candidates_view()[now[k]],
                    self.candidates_view()[j],
                ) by {
                if j < n - 1 {
                    let k = choose|k: int| 0 <= k < prev.len() && same_pickup(
                        self.candidates_view()[prev[k]],
                        self.candidates_view()[j],
                    );
                    assert(now[k] == prev[k]);
                } else if self.first_of_kind(j) {
                    assert(now[now.len() - 1] == j);
                } else {
                    let j2 = choose|j2: int| 0 <= j2 < j && self.is_free(j2) && same_pickup(
                        self.candidates_view()[j2],
                        self.candidates_view()[j],
                    );
                    let k = choose|k: int| 0 <= k < prev.len() && same_pickup(
                        self.candidates_view()[prev[k]],
                        self.candidates_view()[j2],
                    );
                    assert(now[k] == prev[k]);
                }
            }
        }
    }

    /// A free candidate is the first of its kind exactly when none already shown is
    /// interchangeable with it.
    proof fn lemma_first_of_kind_by_shown(&self, i: int, shown: Seq<usize>)
        requires
            0 <= i < self.candidates_view().len(),
            shown.map_values(|k: usize| k as int) == self.offered_among(i),
        ensures
            self.is_free(i) ==> (self.first_of_kind(i) <==> !exists|k: int| 0 <= k < shown.len()
                && same_pickup(self.candidates_view()[shown[k] as int], self.candidates_view()[i])),
            forall|k: int| 0 <= k < shown.len() ==> shown[k] < i,
    {
        self.lemma_offered_are_first(i);
        self.lemma_represented(i);
        let offered = self.offered_among(i);
        assert(shown.len() == offered.len());
        assert forall|k: int| 0 <= k < shown.len() implies shown[k] < i by {
            assert(shown[k] as int == offered[k]);
        }
        if self.is_free(i) {
            if self.first_of_kind(i) {
                if exists|k: int| 0 <= k < shown.len() && same_pickup(
                    self.candidates_view()[shown[k] as int],
                    self.candidates_view()[i],
                ) {
                    let k = choose|k: int| 0 <= k < shown.len() && same_pickup(
                        self.candidates_view()[shown[k] as int],
                        self.candidates_view()[i],
                    );
                    assert(shown[k] as int == offered[k]);
                    assert(self.first_of_kind(offered[k]));
                }
            } else {
                let j = choose|j: int| 0 <= j < i && self.is_free(j) && same_pickup(
                    self.candidates_view()[j],
                    self.candidates_view()[i],
                );
                let k = choose|k: int| 0 <= k < offered.len() && same_pickup(
                    self.candidates_view()[offered[k]],
                    self.candidates_view()[j],
                );
                assert(shown[k] as int == offered[k]);
            }
        }
    }

    /// The prompt of a pickup choice.
    fn prompt(&self) -> (prompt: String)
        requires
            self.wf(),
            !self.spec_complete(),
        ensures
            prompt@ == self.prompt_view(),
    {
        match &self.ship_type {
            None => "load which unit".to_string(),
            Some(ship) => {
                let room = self.capacity - self.loaded.len() as i64;
                "load ".to_string().concat(ship.as_str()).concat(" (").concat(
                    decimal_string(room).as_str(),
                ).concat(" free)")
            },
        }
    }

    /// The option loading candidate `i`.
    fn load_option(&self, i: usize, loaded_ground: usize, loaded_fighters: usize) -> (option: ChoiceOption)
        requires
            self.wf(),
            !self.spec_complete(),
            i < self.candidates@.len(),
            loaded_ground == self.loaded_ground(),
            loaded_fighters == self.loaded_fighters(),
        ensures
            option@ == self.load_view(i as int),
            payload_view(&option) == self.load_payload(i as int),
    {
        let cargo = &self.candidates[i];
        let where_from = match &cargo.source {
            CargoSource::Space => "space".to_string(),
            CargoSource::Planet(planet) => planet.clone(),
        };
        let source = match &cargo.source {
            CargoSource::Space => Value::Null,
            CargoSource::Planet(planet) => Value::Text(planet.clone()),
        };
        let id = LOAD_PREFIX.to_string().concat(decimal_string_u64(i as u64).as_str());
        let label = "load ".to_string().concat(cargo.unit.type_id.as_str()).concat(" from ").concat(
            where_from.as_str(),
        );
        let room = self.capacity - self.loaded.len() as i64;
        let mut option = ChoiceOption::labelled(id.as_str(), LOAD_KIND, label.as_str())
            .with("unit", Value::Text(cargo.unit.type_id.clone()))
            .with("source", source)
            .with("damaged", Value::Bool(cargo.unit.sustained_damage))
            .with("galvanized", Value::Bool(cargo.unit.galvanized))
            .with("capacity_remaining", Value::Int(room as i128))
            .with("loaded_ground", Value::Int(loaded_ground as i128))
            .with("loaded_fighters", Value::Int(loaded_fighters as i128));
        match &self.origin {
            Some(origin) => {
                option = option.with("system", Value::Text(origin.clone()));
            },
            None => {},
        }
        assert(payload_view(&option) =~= self.load_payload(i as int));
        option
    }

    /// Take one unit aboard, or close the hold.
    #[verifier::rlimit(100)]
    #[verifier::spinoff_prover]
    pub fn resolve(&mut self, answer: ChoiceOption) -> (result: Result<(), CargoError>)
        requires
            old(self).wf(),
        ensures
            final(self).wf(),
            final(self).candidates_view() == old(self).candidates_view(),
            final(self).capacity_view() == old(self).capacity_view(),
            final(self).player_view() == old(self).player_view(),
            final(self).origin_view() == old(self).origin_view(),
            final(self).ship_view() == old(self).ship_view(),
            final(self).flags_view() == old(self).flags_view(),
            result is Err ==> *final(self) == *old(self),
            match result {
                Err(CargoError::Complete) => {
                    &&& (old(self).spec_complete() || old(self).offered_indices().len() == 0)
                    &&& final(self).loaded_view() == old(self).loaded_view()
                    &&& final(self).closed_view() == old(self).closed_view()
                },
                Err(CargoError::IllegalChoice(_)) => {
                    &&& !old(self).spec_complete()
                    &&& !(answer@.id == DONE_LOADING_ID@ && answer@.kind == DECLINE_KIND@)
                    &&& forall|k: int| 0 <= k < old(self).offered_indices().len() ==> !(
                        old(self).load_view(#[trigger] old(self).offered_indices()[k]).id == answer@.id
                        && old(self).load_view(old(self).offered_indices()[k]).kind == answer@.kind)
                    &&& final(self).loaded_view() == old(self).loaded_view()
                    &&& final(self).closed_view() == old(self).closed_view()
                },
                Err(CargoError::UnknownCargo(_)) => false,
                Ok(()) => {
                    &&& !old(self).spec_complete()
                    &&& old(self).offered_indices().len() > 0
                    &&& if answer@.id == DONE_LOADING_ID@ && answer@.kind == DECLINE_KIND@ {
                        &&& final(self).closed_view()
                        &&& final(self).loaded_view() == old(self).loaded_view()
                    } else {
                        &&& final(self).closed_view() == old(self).closed_view()
                        &&& final(self).loaded_view().len() == old(self).loaded_view().len() + 1
                        &&& final(self).loaded_view().drop_last() == old(self).loaded_view()
                        &&& old(self).offered_indices().contains(final(self).loaded_view().last() as int)
                        &&& old(self).load_view(final(self).loaded_view().last() as int).id == answer@.id
                        &&& answer@.kind == LOAD_KIND@
                    }
                },
            },
    {
        let choice = match self.pending_choice() {
            Some(choice) => choice,
            None => return Err(CargoError::Complete),
        };
        let ghost offered = self.offered_indices();
        let count = self.candidates.len();
        proof {
            reveal_strlit("load");
            reveal_strlit("decline");
            self.lemma_offered_are_first(self.candidates@.len() as int);
        }
        let option = match validate(&choice, answer) {
            Ok(option) => option,
            Err(illegal) => {
                proof {
                    assert forall|k: int| 0 <= k < offered.len() implies !(self.load_view(
                        #[trigger] offered[k],
                    ).id == answer@.id && self.load_view(offered[k]).kind == answer@.kind) by {
                        if self.load_view(offered[k]).id == answer@.id && self.load_view(offered[k]).kind
                            == answer@.kind {
                            assert(names(choice.options@, k, answer@));
                        }
                    }
                    if answer@.id == DONE_LOADING_ID@ && answer@.kind == DECLINE_KIND@ {
                        assert(names(choice.options@, offered.len() as int, answer@));
                    }
                }
                return Err(CargoError::IllegalChoice(illegal));
            },
        };
        let ghost f = first_named(choice.options@, answer@);
        if option.is_decline() {
            proof {
                if f < offered.len() {
                    assert(choice.options@[f]@ == self.load_view(offered[f]));
                    assert(LOAD_KIND@.len() == 4 && DECLINE_KIND@.len() == 7);
                    assert(LOAD_KIND@ != DECLINE_KIND@);
                }
            }
            self.closed = true;
            return Ok(());
        }
        proof {
            assert(f < offered.len());
            assert(option@ == self.load_view(offered[f]));
            assert(offered[f] < count);
            lemma_parse_decimal_usize(offered[f]);
            reveal_strlit("load|");
            assert(option@.id.subrange(0, 5) =~= LOAD_PREFIX@);
            assert(option@.id.subrange(5, option@.id.len() as int) =~= decimal(offered[f]));
            if answer@.id == DONE_LOADING_ID@ && answer@.kind == DECLINE_KIND@ {
                assert(answer@.kind == LOAD_KIND@);
            }
        }
        let n = option.id.unicode_len();
        if !starts_with(option.id.as_str(), LOAD_PREFIX) {
            return Err(CargoError::UnknownCargo(option.id));
        }
        let index = match parse_usize_range(option.id.as_str(), 5, n) {
            Some(index) => index,
            None => return Err(CargoError::UnknownCargo(option.id)),
        };
        if index >= self.candidates.len() {
            return Err(CargoError::UnknownCargo(option.id));
        }
        proof {
            assert(index as int == offered[f]);
            assert(self.first_of_kind(offered[f]));
            assert(!self.loaded@.contains(index));
        }
        let ghost before = self.loaded@;
        self.loaded.push(index);
        proof {
            assert(self.loaded@.drop_last() =~= before);
            assert forall|a: int, b: int| 0 <= a < b < self.loaded@.len() implies self.loaded@[a]
                != self.loaded@[b] by {
                if b == before.len() {
                    assert(before[a] == self.loaded@[a]);
                    assert(before.contains(self.loaded@[a]));
                }
            }
            assert(offered.contains(index as int));
        }
        Ok(())
    }
    pub fn new(player: String, candidates: Vec<Cargo>, capacity: i64) -> (window: Self)
        ensures
            window.wf(),
            window.player_view() == player@,
            window.candidates_view() == candidates@,
            window.loaded_view().len() == 0,
            window.capacity_view() == capacity,
            window.closed_view() == (capacity <= 0),
            window.origin_view() is None,
            window.ship_view() is None,
            forall|k: int| !window.is_ground(k) && !window.is_fighter(k),
    {
        let _ = candidates.len();
        CargoWindow {
            player,
            candidates,
            origin: None,
            ship_type: None,
            ground: Vec::new(),
            fighters: Vec::new(),
            loaded: Vec::new(),
            capacity,
            closed: capacity <= 0,
        }
    }

    /// Open a hold for one ship: what it can pick up along its route, its capacity from the
    /// catalogue, and which candidates are ground forces and which fighters, by unit type.
    pub fn for_route(
        state: &GameState,
        kinds: &Vec<UnitKind>,
        player: &str,
        origin: &str,
        ship: &Unit,
        path: &Vec<String>,
        ground_types: &Vec<String>,
        fighter_types: &Vec<String>,
    ) -> (window: Self)
        ensures
            window.wf(),
            window.player_view() == player@,
            window.candidates_view().map_values(|c: Cargo| cargo_view(c)) == cargo_along(
                *state,
                kinds@,
                player@,
                route_systems(origin@, crate::state::names(path@), path@.len() as int),
            ),
            window.loaded_view().len() == 0,
            window.capacity_view() == spec_capacity_of(kinds@, *ship),
            window.closed_view() == (spec_capacity_of(kinds@, *ship) <= 0),
            window.origin_view() == Some(origin@),
            window.ship_view() == Some(ship.type_id@),
            forall|k: int| window.is_ground(k) == (0 <= k < window.candidates_view().len() && crate::state::names(ground_types@).contains(
                window.candidates_view()[k].unit.type_id@,
            )),
            forall|k: int| window.is_fighter(k) == (0 <= k < window.candidates_view().len() && crate::state::names(fighter_types@).contains(
                window.candidates_view()[k].unit.type_id@,
            )),
    {
        let candidates = route_cargo(state, kinds, player, origin, path);
        let capacity = capacity_of(kinds, ship);
        let mut ground: Vec<bool> = Vec::new();
        let mut fighters: Vec<bool> = Vec::new();
        let mut k: usize = 0;
        while k < candidates.len()
            invariant
                k <= candidates@.len(),
                ground@.len() == k,
                fighters@.len() == k,
                forall|j: int| 0 <= j < k ==> ground@[j] == crate::state::names(ground_types@).contains(candidates@[j].unit.type_id@),
                forall|j: int| 0 <= j < k ==> fighters@[j] == crate::state::names(fighter_types@).contains(candidates@[j].unit.type_id@),
            decreases candidates@.len() - k,
        {
            ground.push(contains_name(ground_types, candidates[k].unit.type_id.as_str()));
            fighters.push(contains_name(fighter_types, candidates[k].unit.type_id.as_str()));
            k = k + 1;
        }
        Self::for_ship(player.to_string(), origin.to_string(), ship.type_id.clone(), candidates, ground, fighters, capacity)
    }

    /// Open a hold for one ship over the candidates found along its route, with each
    /// candidate's ground-force and fighter flags and the ship's capacity, as the corpus gives
    /// them.
    pub fn for_ship(
        player: String,
        origin: String,
        ship_type: String,
        candidates: Vec<Cargo>,
        ground: Vec<bool>,
        fighters: Vec<bool>,
        capacity: i64,
    ) -> (window: Self)
        ensures
            window.wf(),
            window.player_view() == player@,
            window.candidates_view() == candidates@,
            window.loaded_view().len() == 0,
            window.capacity_view() == capacity,
            window.closed_view() == (capacity <= 0),
            window.origin_view() == Some(origin@),
            window.ship_view() == Some(ship_type@),
            forall|k: int| window.is_ground(k) == (0 <= k < ground@.len() && ground@[k]),
            forall|k: int| window.is_fighter(k) == (0 <= k < fighters@.len() && fighters@[k]),
    {
        let _ = candidates.len();
        CargoWindow {
            player,
            candidates,
            origin: Some(origin),
            ship_type: Some(ship_type),
            ground,
            fighters,
            loaded: Vec::new(),
            capacity,
            closed: capacity <= 0,
        }
    }

    pub fn is_complete(&self) -> (done: bool)
        requires
            self.wf(),
        ensures
            done == self.spec_complete(),
    {
        self.closed || self.loaded.len() >= self.candidates.len() || (self.loaded.len() as i128)
            >= (self.capacity as i128)
    }

    /// A hold offers nothing exactly when it is complete: while it is open, below its
    /// capacity and with a candidate not yet aboard, some candidate is offered; so its choice
    /// is absent exactly when it is complete.
    pub proof fn a_hold_offers_nothing_exactly_when_complete(&self)
        requires
            self.wf(),
        ensures
            !self.spec_complete() ==> self.offered_indices().len() > 0,
    {
        if !self.spec_complete() {
            let n = self.candidates@.len() as int;
            let loaded = self.loaded@.map_values(|x: usize| x as int);
            assert(exists|k: int| 0 <= k < n && self.is_free(k)) by {
                if forall|k: int| 0 <= k < n ==> !self.is_free(k) {
                    assert(vstd::set_lib::set_int_range(0, n).subset_of(loaded.to_set())) by {
                        assert forall|k: int| vstd::set_lib::set_int_range(0, n).contains(k) implies loaded.to_set().contains(k) by {
                            assert(!self.is_free(k));
                            assert(self.loaded@.contains(k as usize));
                            let j = choose|j: int| 0 <= j < self.loaded@.len() && self.loaded@[j] == k as usize;
                            assert(loaded[j] == k);
                            assert(loaded.contains(k));
                        }
                    }
                    vstd::set_lib::lemma_int_range(0, n);
                    loaded.lemma_cardinality_of_set();
                    vstd::seq_lib::seq_to_set_is_finite(loaded);
                    vstd::set_lib::lemma_len_subset(vstd::set_lib::set_int_range(0, n), loaded.to_set());
                    assert(false);
                }
            }
            self.lemma_first_free_is_offered(n);
        }
    }

    proof fn lemma_first_free_is_offered(&self, n: int)
        requires
            0 <= n <= self.candidates_view().len(),
            exists|k: int| 0 <= k < n && self.is_free(k),
        ensures
            self.offered_among(n).len() > 0,
        decreases n,
    {
        if self.is_free(n - 1) && forall|j: int| 0 <= j < n - 1 ==> !self.is_free(j) {
            assert(self.first_of_kind(n - 1));
        } else if self.first_of_kind(n - 1) {
        } else {
            if !self.is_free(n - 1) {
                self.lemma_first_free_is_offered(n - 1);
            } else {
                let j = choose|j: int| 0 <= j < n - 1 && self.is_free(j);
                self.lemma_first_free_is_offered(n - 1);
            }
        }
    }

    /// What has been loaded, in the order it was taken aboard.
    pub fn cargo(&self) -> (cargo: Vec<Cargo>)
        requires
            self.wf(),
        ensures
            cargo@.len() == self.loaded_view().len(),
            forall|k: int| 0 <= k < cargo@.len() ==> {
                let c = #[trigger] cargo@[k];
                let d = self.candidates_view()[self.loaded_view()[k] as int];
                &&& c.unit.type_id@ == d.unit.type_id@
                &&& c.unit.owner@ == d.unit.owner@
                &&& c.unit.sustained_damage == d.unit.sustained_damage
                &&& c.unit.galvanized == d.unit.galvanized
                &&& c.source@ == d.source@
                &&& c.system@ == d.system@
            },
    {
        let mut cargo: Vec<Cargo> = Vec::new();
        let mut i: usize = 0;
        while i < self.loaded.len()
            invariant
                self.wf(),
                i <= self.loaded@.len(),
                cargo@.len() == i,
                forall|k: int| 0 <= k < i ==> {
                    let c = #[trigger] cargo@[k];
                    let d = self.candidates@[self.loaded@[k] as int];
                    &&& c.unit.type_id@ == d.unit.type_id@
                    &&& c.unit.owner@ == d.unit.owner@
                    &&& c.unit.sustained_damage == d.unit.sustained_damage
                    &&& c.unit.galvanized == d.unit.galvanized
                    &&& c.source@ == d.source@
                    &&& c.system@ == d.system@
                },
            decreases self.loaded@.len() - i,
        {
            let index = self.loaded[i];
            cargo.push(self.candidates[index].clone());
            i = i + 1;
        }
        cargo
    }

    fn is_loaded(&self, index: usize) -> (yes: bool)
        ensures
            yes == self.loaded@.contains(index),
    {
        let mut k: usize = 0;
        while k < self.loaded.len()
            invariant
                k <= self.loaded@.len(),
                forall|j: int| 0 <= j < k ==> self.loaded@[j] != index,
            decreases self.loaded@.len() - k,
        {
            if self.loaded[k] == index {
                return true;
            }
            k = k + 1;
        }
        false
    }

    fn flag_count(flags: &Vec<bool>, indices: &Vec<usize>) -> (count: usize)
        ensures
            count == Self::count_flagged(indices@, flags@),
    {
        let mut count: usize = 0;
        let mut i: usize = 0;
        while i < indices.len()
            invariant
                i <= indices@.len(),
                count == Self::count_flagged(indices@.subrange(0, i as int), flags@),
                count <= i,
            decreases indices@.len() - i,
        {
            let k = indices[i];
            proof {
                let sub0 = indices@.subrange(0, i as int);
                let sub1 = indices@.subrange(0, i + 1);
                assert(sub1.drop_last() =~= sub0);
                assert(sub1.last() == k);
            }
            if k < flags.len() && flags[k] {
                count = count + 1;
            }
            i = i + 1;
        }
        assert(indices@.subrange(0, indices@.len() as int) =~= indices@);
        count
    }

    fn same_pickup_exec(a: &Cargo, b: &Cargo) -> (same: bool)
        ensures
            same == same_pickup(*a, *b),
    {
        if !str_eq(a.unit.type_id.as_str(), b.unit.type_id.as_str())
            || a.unit.sustained_damage != b.unit.sustained_damage
            || a.unit.galvanized != b.unit.galvanized {
            return false;
        }
        match (&a.source, &b.source) {
            (CargoSource::Space, CargoSource::Space) => true,
            (CargoSource::Planet(p), CargoSource::Planet(q)) => str_eq(p.as_str(), q.as_str()),
            _ => false,
        }
    }

    /// The next pickup choice, or `None` once the hold is complete or nothing is free.
    ///
    /// Interchangeable units are offered once, each as `load|index` for its first free
    /// candidate, followed by the option that carries nothing further.
    pub fn pending_choice(&self) -> (choice: Option<Choice>)
        requires
            self.wf(),
        ensures
            match choice {
                None => self.spec_complete() || self.offered_indices().len() == 0,
                Some(c) => {
                    &&& !self.spec_complete()
                    &&& self.offered_indices().len() > 0
                    &&& c.player@ == self.player_view()
                    &&& c.prompt@ == self.prompt_view()
                    &&& c.options@.len() == self.offered_indices().len() + 1
                    &&& forall|k: int| 0 <= k < self.offered_indices().len() ==> {
                        &&& (#[trigger] c.options@[k])@ == self.load_view(self.offered_indices()[k])
                        &&& payload_view(&c.options@[k]) == self.load_payload(self.offered_indices()[k])
                    }
                    &&& c.options@.last()@ == (OptionView {
                        id: DONE_LOADING_ID@,
                        kind: DECLINE_KIND@,
                        label: "carry nothing further"@,
                    })
                    &&& payload_view(&c.options@.last()) == self.decline_payload()
                },
            },
    {
        if self.is_complete() {
            return None;
        }
        let mut options: Vec<ChoiceOption> = Vec::new();
        let mut shown: Vec<usize> = Vec::new();
        let mut ground_free: usize = 0;
        let loaded_ground = Self::flag_count(&self.ground, &self.loaded);
        let loaded_fighters = Self::flag_count(&self.fighters, &self.loaded);
        let mut i: usize = 0;
        while i < self.candidates.len()
            invariant
                self.wf(),
                !self.spec_complete(),
                i <= self.candidates@.len(),
                loaded_ground == self.loaded_ground(),
                loaded_fighters == self.loaded_fighters(),
                shown@.len() == options@.len(),
                shown@.map_values(|k: usize| k as int) == self.offered_among(i as int),
                forall|k: int| 0 <= k < shown@.len() ==> {
                    &&& (#[trigger] options@[k])@ == self.load_view(shown@[k] as int)
                    &&& payload_view(&options@[k]) == self.load_payload(shown@[k] as int)
                },
                ground_free == self.count_free_ground(i as int),
                ground_free <= i,
            decreases self.candidates@.len() - i,
        {
            let free = !self.is_loaded(i);
            if free && i < self.ground.len() && self.ground[i] {
                ground_free = ground_free + 1;
            }
            proof { self.lemma_first_of_kind_by_shown(i as int, shown@); }
            if free {
                // Offered once per interchangeable kind: only when no earlier shown candidate
                // is interchangeable with it.
                let mut duplicate = false;
                let mut s: usize = 0;
                while s < shown.len()
                    invariant
                        s <= shown@.len(),
                        i < self.candidates@.len(),
                        forall|k: int| 0 <= k < shown@.len() ==> shown@[k] < i,
                        duplicate == exists|k: int| 0 <= k < s && same_pickup(
                            self.candidates@[shown@[k] as int],
                            self.candidates@[i as int],
                        ),
                    decreases shown@.len() - s,
                {
                    if Self::same_pickup_exec(&self.candidates[shown[s]], &self.candidates[i]) {
                        duplicate = true;
                    }
                    s = s + 1;
                }
                if !duplicate {
                    let option = self.load_option(i, loaded_ground, loaded_fighters);
                    options.push(option);
                    shown.push(i);
                    proof {
                        assert(shown@.map_values(|k: usize| k as int) =~= self.offered_among(i as int).push(i as int));
                    }
                }
            }
            i = i + 1;
        }
        if shown.len() == 0 {
            return None;
        }
        let mut decline = ChoiceOption::labelled(DONE_LOADING_ID, DECLINE_KIND, "carry nothing further")
            .with("loaded_ground", Value::Int(loaded_ground as i128))
            .with("loaded_fighters", Value::Int(loaded_fighters as i128))
            .with("ground_available", Value::Int(ground_free as i128));
        match &self.origin {
            Some(origin) => {
                decline = decline.with("system", Value::Text(origin.clone()));
            },
            None => {},
        }
        let ghost before = options@;
        options.push(decline);
        proof {
            assert(options@.last() == decline);
            let offered = self.offered_indices();
            assert(shown@.map_values(|k: usize| k as int) == offered);
            assert(shown@.len() == offered.len());
            assert forall|k: int| 0 <= k < offered.len() implies {
                &&& (#[trigger] options@[k])@ == self.load_view(offered[k])
                &&& payload_view(&options@[k]) == self.load_payload(offered[k])
            } by {
                assert(options@[k] == before[k]);
                assert(offered[k] == shown@[k] as int);
            }
        }
        let prompt = self.prompt();
        Some(Choice::new(self.player.as_str(), prompt.as_str(), options))
    }
}


proof fn lemma_filter_len_le(s: Seq<usize>, pred: spec_fn(usize) -> bool)
    ensures
        s.filter(pred).len() <= s.len(),
    decreases s.len(),
{
    reveal_with_fuel(Seq::<usize>::filter, 1);
    if s.len() > 0 {
        lemma_filter_len_le(s.drop_last(), pred);
    }
}

/// What the movement rules say about where a ship is going: which systems are gravity rifts,
/// and whether the mover ignores anomalies or rifts.
#[derive(Debug)]
pub struct MovementRules {
    /// The gravity rifts on the board.
    pub rifts: Vec<String>,
    /// The mover ignores the effects of anomalies (Nav Suite).
    pub anomalies_ignored: bool,
    /// The mover ignores gravity rifts (the Circlet).
    pub rifts_ignored: bool,
}

impl MovementRules {
    /// Whether a system is a gravity rift.
    pub open spec fn spec_is_rift(&self, system: Seq<char>) -> bool {
        exists|k: int| 0 <= k < self.rifts@.len() && (#[trigger] self.rifts@[k])@ == system
    }

    /// Whether a system is a gravity rift.
    pub fn is_rift(&self, system: &str) -> (rift: bool)
        ensures
            rift == self.spec_is_rift(system@),
    {
        let mut k: usize = 0;
        while k < self.rifts.len()
            invariant
                k <= self.rifts@.len(),
                forall|j: int| 0 <= j < k ==> self.rifts@[j]@ != system@,
            decreases self.rifts@.len() - k,
        {
            if str_eq(self.rifts[k].as_str(), system) {
                return true;
            }
            k = k + 1;
        }
        false
    }
}

/// A roll made for a gravity rift: one die, hitting on four or more.
pub open spec fn rift_roll(roll: crate::dice::Roll) -> bool {
    &&& roll.faces@.len() == 1
    &&& roll.reason@ == "gravity rift"@
    &&& roll.hit_on == Some((RIFT_DESTROYS_ON + 1) as u32)
}

/// The face of the `k`-th rift roll of a move: the `k`-th die drawn from the dice stream as it
/// stood before the move.
pub open spec fn rift_face(stream: ChaCha8Rng, k: int) -> u32 {
    chacha8_range_u32(dice_draws(stream, k as nat).1, 1, SIDES).0
}

/// Whether a ship survives `n` rift rolls drawn from the dice stream as it stands: every one of
/// the first `n` dice shows more than 3.
pub open spec fn rifts_survived(stream: ChaCha8Rng, n: int) -> bool {
    forall|k: int| 0 <= k < n ==> #[trigger] rift_face(stream, k) > RIFT_DESTROYS_ON
}

/// Whether a ship survives its rifts is fixed by the seed: two sources with one seed whose dice
/// streams stand at the same place give the same rift faces, and so the same outcome.
pub proof fn rift_outcomes_are_reproducible(a: &GameRng, b: &GameRng, n: int)
    requires
        a.spec_seed() == b.spec_seed(),
        a.stream_state(domain::DICE@) == b.stream_state(domain::DICE@),
    ensures
        forall|k: int| 0 <= k < n ==> #[trigger] rift_face(a.current_stream(domain::DICE), k) == rift_face(
            b.current_stream(domain::DICE),
            k,
        ),
        rifts_survived(a.current_stream(domain::DICE), n) == rifts_survived(b.current_stream(domain::DICE), n),
{
    assert(a.current_stream(domain::DICE) == b.current_stream(domain::DICE));
}

/// The systems a route exits that are gravity rifts: every step but the last.
pub open spec fn spec_rifts_exited(rules: MovementRules, path: Seq<Seq<char>>) -> Seq<Seq<char>> {
    if path.len() == 0 {
        Seq::empty()
    } else {
        path.drop_last().filter(|system: Seq<char>| rules.spec_is_rift(system))
    }
}

/// The systems a route *exits* that are gravity rifts.
///
/// The destination is never exited, so it never rolls: 41.2 speaks of moving *out of* a rift.
pub fn rifts_exited(rules: &MovementRules, path: &[String]) -> (exited: Vec<String>)
    ensures
        exited@.map_values(|s: String| s@) == spec_rifts_exited(*rules, path@.map_values(|s: String| s@)),
{
    let ghost names = path@.map_values(|s: String| s@);
    let ghost pred = |system: Seq<char>| rules.spec_is_rift(system);
    let mut exited: Vec<String> = Vec::new();
    if path.len() == 0 {
        assert(exited@.map_values(|s: String| s@) =~= Seq::<Seq<char>>::empty());
        return exited;
    }
    let last = path.len() - 1;
    let mut i: usize = 0;
    while i < last
        invariant
            last == path@.len() - 1,
            i <= last,
            names == path@.map_values(|s: String| s@),
            pred == (|system: Seq<char>| rules.spec_is_rift(system)),
            exited@.map_values(|s: String| s@) == names.subrange(0, i as int).filter(pred),
        decreases last - i,
    {
        proof {
            reveal_with_fuel(Seq::<Seq<char>>::filter, 1);
            assert(names.subrange(0, i + 1).drop_last() =~= names.subrange(0, i as int));
        }
        if rules.is_rift(path[i].as_str()) {
            let ghost before = exited@;
            let name = path[i].clone();
            exited.push(name);
            assert(exited@.map_values(|s: String| s@) =~= before.map_values(|s: String| s@).push(name@));
        }
        i = i + 1;
    }
    assert(names.subrange(0, last as int) =~= names.drop_last());
    exited
}

/// 41.2: one die per rift exited; a roll of 1 to 3 removes the ship from the board.
///
/// Nav Suite ignores the effect of anomalies, and being destroyed by a rift is one of them, so
/// `anomalies_ignored` is honoured here as well as in the legality rules.
pub fn survives_gravity_rifts(dice: &mut Dice, rng: &mut GameRng, rules: &MovementRules, path: &[String]) -> (survived: bool)
    requires
        old(rng).wf(),
    ensures
        final(rng).wf(),
        final(rng).spec_seed() == old(rng).spec_seed(),
        final(rng).others_unmoved(old(rng), domain::DICE@),
        final(dice).history@.len() >= old(dice).history@.len(),
        final(dice).history@.subrange(0, old(dice).history@.len() as int) == old(dice).history@,
        ({
            let exited = spec_rifts_exited(*rules, path@.map_values(|s: String| s@));
            let rolls = final(dice).history@.subrange(old(dice).history@.len() as int, final(dice).history@.len() as int);
            &&& rules.anomalies_ignored || rules.rifts_ignored ==> survived && rolls.len() == 0
            &&& rolls.len() <= exited.len()
            &&& forall|k: int| 0 <= k < rolls.len() ==> rift_roll(#[trigger] rolls[k])
            &&& forall|k: int| 0 <= k < rolls.len() - 1 ==> (#[trigger] rolls[k]).faces@[0] > RIFT_DESTROYS_ON
            &&& survived <==> forall|k: int| 0 <= k < rolls.len() ==> (#[trigger] rolls[k]).faces@[0] > RIFT_DESTROYS_ON
            &&& !(rules.anomalies_ignored || rules.rifts_ignored) && survived ==> rolls.len() == exited.len()
            &&& forall|k: int| 0 <= k < rolls.len() ==> (#[trigger] rolls[k]).faces@[0] == rift_face(
                old(rng).current_stream(domain::DICE),
                k,
            )
            &&& rolls.len() > 0 ==> final(rng).stream_state(domain::DICE@) == Some(
                dice_draws(old(rng).current_stream(domain::DICE), rolls.len()).1,
            )
            &&& rolls.len() == 0 ==> *final(rng) == *old(rng)
            &&& survived == (rules.anomalies_ignored || rules.rifts_ignored || rifts_survived(
                old(rng).current_stream(domain::DICE),
                exited.len() as int,
            ))
        }),
{
    let ghost start = dice.history@.len();
    if rules.anomalies_ignored || rules.rifts_ignored {
        assert(dice.history@.subrange(0, start as int) =~= dice.history@);
        return true;
    }
    let exited = rifts_exited(rules, path);
    let ghost first = rng.current_stream(domain::DICE);
    let mut k: usize = 0;
    while k < exited.len()
        invariant
            k <= exited@.len(),
            exited@.map_values(|s: String| s@) == spec_rifts_exited(*rules, path@.map_values(|s: String| s@)),
            !(rules.anomalies_ignored || rules.rifts_ignored),
            rng.wf(),
            rng.spec_seed() == old(rng).spec_seed(),
            rng.others_unmoved(old(rng), domain::DICE@),
            start == old(dice).history@.len(),
            dice.history@.len() == start + k,
            dice.history@.subrange(0, start as int) == old(dice).history@,
            forall|j: int| start <= j < dice.history@.len() ==> rift_roll(#[trigger] dice.history@[j])
                && dice.history@[j].faces@[0] > RIFT_DESTROYS_ON
                && dice.history@[j].faces@[0] == rift_face(first, j - start),
            first == old(rng).current_stream(domain::DICE),
            rng.current_stream(domain::DICE) == dice_draws(first, k as nat).1,
            k > 0 ==> rng.stream_state(domain::DICE@) == Some(dice_draws(first, k as nat).1),
            k == 0 ==> *rng == *old(rng),
        decreases exited@.len() - k,
    {
        let ghost before = dice.history@;
        let ghost cur = rng.current_stream(domain::DICE);
        let faces = dice.roll(rng, 1, "gravity rift", Some(RIFT_DESTROYS_ON + 1));
        proof {
            assert(dice_draws(cur, 0).1 == cur);
            assert(dice_draws(cur, 1).0 == seq![chacha8_range_u32(cur, 1, SIDES).0]);
            assert(dice_draws(first, (k + 1) as nat).1 == chacha8_range_u32(cur, 1, SIDES).1);
            assert(faces@[0] == rift_face(first, k as int));
            assert(rng.current_stream(domain::DICE) == dice_draws(first, (k + 1) as nat).1);
        }
        proof {
            assert(dice.history@.drop_last() == before);
            assert(dice.history@.subrange(0, start as int) =~= before.subrange(0, start as int));
            assert forall|j: int| start <= j < before.len() implies dice.history@[j] == before[j] by {
                assert(dice.history@.drop_last()[j] == dice.history@[j]);
            }
        }
        assert(dice.history@.last().faces@ == faces@);
        assert(faces@.len() == 1);
        assert(dice.history@.last().faces@.len() == 1);
        assert(dice.history@.last().reason@ == "gravity rift"@);
        assert(dice.history@.last().hit_on == Some((RIFT_DESTROYS_ON + 1) as u32));
        if faces[0] <= RIFT_DESTROYS_ON {
            proof {
                let rolls = dice.history@.subrange(start as int, dice.history@.len() as int);
                assert(rolls[rolls.len() - 1] == dice.history@.last());
                assert(!(rolls[rolls.len() - 1].faces@[0] > RIFT_DESTROYS_ON));
                assert(exited@.map_values(|s: String| s@).len() == exited@.len());
                assert(rolls.len() == k + 1);
                let ex = spec_rifts_exited(*rules, path@.map_values(|s: String| s@));
                assert(rolls.len() <= ex.len());
                assert(!(forall|j: int| 0 <= j < rolls.len() ==> (#[trigger] rolls[j]).faces@[0] > RIFT_DESTROYS_ON));
                assert(dice.history@.subrange(0, start as int) == old(dice).history@);
                assert(dice.history@.last().faces@.len() == 1);
                assert(dice.history@.last().reason@ == "gravity rift"@);
                assert(dice.history@.last().hit_on == Some((RIFT_DESTROYS_ON + 1) as u32));
                assert forall|j: int| 0 <= j < rolls.len() implies rift_roll(#[trigger] rolls[j]) by {
                    assert(rolls[j] == dice.history@[start + j]);
                    if start + j < before.len() {
                        assert(dice.history@[start + j] == before[start + j]);
                        assert(rift_roll(before[start + j]));
                    }
                }
                assert forall|j: int| 0 <= j < rolls.len() - 1 implies (#[trigger] rolls[j]).faces@[0]
                    > RIFT_DESTROYS_ON by {
                    assert(rolls[j] == dice.history@[start + j]);
                    assert(dice.history@[start + j] == before[start + j]);
                }
                assert forall|j: int| 0 <= j < rolls.len() implies (#[trigger] rolls[j]).faces@[0] == rift_face(first, j) by {
                    assert(rolls[j] == dice.history@[start + j]);
                    if j < rolls.len() - 1 {
                        assert(dice.history@[start + j] == before[start + j]);
                    }
                }
            }
            return false;
        }
        assert(dice.history@[dice.history@.len() - 1] == dice.history@.last());
        assert(dice.history@.last().faces@.len() == 1);
        assert(dice.history@.last().faces@[0] > RIFT_DESTROYS_ON);
        assert forall|j: int| start <= j < dice.history@.len() implies rift_roll(#[trigger] dice.history@[j])
            && dice.history@[j].faces@[0] > RIFT_DESTROYS_ON && dice.history@[j].faces@[0] == rift_face(first, j - start) by {
            if j < before.len() {
                assert(dice.history@[j] == before[j]);
                assert(rift_roll(before[j]) && before[j].faces@[0] > RIFT_DESTROYS_ON);
            }
        }
        k = k + 1;
    }
    proof {
        let rolls = dice.history@.subrange(start as int, dice.history@.len() as int);
        assert forall|j: int| 0 <= j < rolls.len() implies rift_roll(#[trigger] rolls[j]) && rolls[j].faces@[0] > RIFT_DESTROYS_ON
            && rolls[j].faces@[0] == rift_face(first, j) by {
            assert(rolls[j] == dice.history@[start + j]);
        }
        assert(exited@.len() == exited@.map_values(|s: String| s@).len());
        assert forall|j: int| 0 <= j < exited@.len() implies #[trigger] rift_face(first, j) > RIFT_DESTROYS_ON by {
            assert(rolls[j] == dice.history@[start + j]);
        }
    }
    true
}

/// A unit type as the catalogue records it: its capacity, and whether it takes up a place in a
/// hold (ground forces and fighters do).
#[derive(Debug)]
pub struct UnitKind {
    pub id: String,
    pub capacity: i64,
    pub consumes_capacity: bool,
}

/// The first catalogue entry for a unit type, or -1.
pub open spec fn kind_index(kinds: Seq<UnitKind>, id: Seq<char>) -> int
    decreases kinds.len(),
{
    if kinds.len() == 0 {
        -1
    } else {
        let k = kind_index(kinds.drop_last(), id);
        if k >= 0 {
            k
        } else if kinds.last().id@ == id {
            kinds.len() - 1
        } else {
            -1
        }
    }
}

proof fn lemma_kind_index(kinds: Seq<UnitKind>, id: Seq<char>)
    ensures
        -1 <= kind_index(kinds, id) < kinds.len(),
        kind_index(kinds, id) >= 0 ==> kinds[kind_index(kinds, id)].id@ == id,
    decreases kinds.len(),
{
    if kinds.len() > 0 {
        lemma_kind_index(kinds.drop_last(), id);
    }
}

fn find_kind(kinds: &Vec<UnitKind>, id: &str) -> (found: Option<usize>)
    ensures
        match found {
            Some(k) => k as int == kind_index(kinds@, id@) && k < kinds@.len(),
            None => kind_index(kinds@, id@) == -1,
        },
{
    proof {
        lemma_kind_index(kinds@, id@);
    }
    let mut k: usize = 0;
    while k < kinds.len()
        invariant
            k <= kinds@.len(),
            kind_index(kinds@.subrange(0, k as int), id@) == -1,
            -1 <= kind_index(kinds@, id@) < kinds@.len(),
        decreases kinds@.len() - k,
    {
        proof {
            assert(kinds@.subrange(0, k + 1).drop_last() =~= kinds@.subrange(0, k as int));
        }
        if str_eq(kinds[k].id.as_str(), id) {
            proof {
                lemma_kind_prefix(kinds@, k as int + 1, id@);
            }
            return Some(k);
        }
        k = k + 1;
    }
    assert(kinds@.subrange(0, kinds@.len() as int) =~= kinds@);
    None
}

proof fn lemma_kind_prefix(kinds: Seq<UnitKind>, k: int, id: Seq<char>)
    requires
        0 <= k <= kinds.len(),
        kind_index(kinds.subrange(0, k), id) >= 0,
    ensures
        kind_index(kinds, id) == kind_index(kinds.subrange(0, k), id),
    decreases kinds.len() - k,
{
    if k < kinds.len() {
        assert(kinds.subrange(0, k + 1).drop_last() =~= kinds.subrange(0, k));
        lemma_kind_prefix(kinds, k + 1, id);
    } else {
        assert(kinds.subrange(0, k) =~= kinds);
    }
}

/// The capacity the catalogue gives a unit's type, or none for a type it does not list.
pub open spec fn spec_capacity_of(kinds: Seq<UnitKind>, unit: Unit) -> int {
    let k = kind_index(kinds, unit.type_id@);
    if k >= 0 { kinds[k].capacity as int } else { 0 }
}

/// The capacity of one ship.
pub fn capacity_of(kinds: &Vec<UnitKind>, unit: &Unit) -> (capacity: i64)
    ensures
        capacity == spec_capacity_of(kinds@, *unit),
{
    match find_kind(kinds, unit.type_id.as_str()) {
        Some(k) => kinds[k].capacity,
        None => 0,
    }
}

/// Whether a unit takes up a place in a hold, as the catalogue says of its type.
pub open spec fn consumes(kinds: Seq<UnitKind>, unit: Unit) -> bool {
    let k = kind_index(kinds, unit.type_id@);
    k >= 0 && kinds[k].consumes_capacity
}

fn consumes_exec(kinds: &Vec<UnitKind>, unit: &Unit) -> (yes: bool)
    ensures
        yes == consumes(kinds@, *unit),
{
    match find_kind(kinds, unit.type_id.as_str()) {
        Some(k) => kinds[k].consumes_capacity,
        None => false,
    }
}

/// A cargo candidate as plain values: the unit's type, owner and damage, its source and system.
pub open spec fn cargo_view(c: Cargo) -> (Seq<char>, Seq<char>, bool, bool, SourceView, Seq<char>) {
    (c.unit.type_id@, c.unit.owner@, c.unit.sustained_damage, c.unit.galvanized, c.source@, c.system@)
}

/// The units of a list that are the player's and take up a place in a hold, as cargo from the
/// given source and system, in order.
pub open spec fn cargo_from(
    units: Seq<Unit>,
    kinds: Seq<UnitKind>,
    player: Seq<char>,
    source: SourceView,
    system: Seq<char>,
) -> Seq<(Seq<char>, Seq<char>, bool, bool, SourceView, Seq<char>)>
    decreases units.len(),
{
    if units.len() == 0 {
        Seq::empty()
    } else {
        let rest = cargo_from(units.drop_last(), kinds, player, source, system);
        let u = units.last();
        if u.owner@ == player && consumes(kinds, u) {
            rest.push((u.type_id@, u.owner@, u.sustained_damage, u.galvanized, source, system))
        } else {
            rest
        }
    }
}


/// The first system on the board with the given id, or -1.
pub open spec fn system_index(board: Seq<SystemState>, id: Seq<char>) -> int
    decreases board.len(),
{
    if board.len() == 0 {
        -1
    } else {
        let k = system_index(board.drop_last(), id);
        if k >= 0 {
            k
        } else if board.last().id@ == id {
            board.len() - 1
        } else {
            -1
        }
    }
}

proof fn lemma_system_index(board: Seq<SystemState>, id: Seq<char>)
    ensures
        -1 <= system_index(board, id) < board.len(),
        system_index(board, id) >= 0 ==> board[system_index(board, id)].id@ == id,
    decreases board.len(),
{
    if board.len() > 0 {
        lemma_system_index(board.drop_last(), id);
    }
}

proof fn lemma_system_prefix(board: Seq<SystemState>, k: int, id: Seq<char>)
    requires
        0 <= k <= board.len(),
        system_index(board.subrange(0, k), id) >= 0,
    ensures
        system_index(board, id) == system_index(board.subrange(0, k), id),
    decreases board.len() - k,
{
    if k < board.len() {
        assert(board.subrange(0, k + 1).drop_last() =~= board.subrange(0, k));
        lemma_system_prefix(board, k + 1, id);
    } else {
        assert(board.subrange(0, k) =~= board);
    }
}

/// The position of a system on the board.
pub fn find_system(board: &Vec<SystemState>, id: &str) -> (found: Option<usize>)
    ensures
        match found {
            Some(k) => k as int == system_index(board@, id@) && k < board@.len(),
            None => system_index(board@, id@) == -1,
        },
{
    proof {
        lemma_system_index(board@, id@);
    }
    let mut k: usize = 0;
    while k < board.len()
        invariant
            k <= board@.len(),
            system_index(board@.subrange(0, k as int), id@) == -1,
            -1 <= system_index(board@, id@) < board@.len(),
        decreases board@.len() - k,
    {
        proof {
            assert(board@.subrange(0, k + 1).drop_last() =~= board@.subrange(0, k as int));
        }
        if str_eq(board[k].id.as_str(), id) {
            proof {
                lemma_system_prefix(board@, k as int + 1, id@);
            }
            return Some(k);
        }
        k = k + 1;
    }
    assert(board@.subrange(0, board@.len() as int) =~= board@);
    None
}

/// The ids of a system's planets, each once, in ascending order: the order its planets are
/// walked in.
pub open spec fn planet_keys(planets: Seq<(String, Vec<Unit>)>) -> Seq<Seq<char>> {
    choose|keys: Seq<Seq<char>>| crate::strategy_cards::sorted_set(keys, planet_ids(planets))
}

/// The ids of a system's planets.
pub open spec fn planet_ids(planets: Seq<(String, Vec<Unit>)>) -> Set<Seq<char>> {
    planets.map_values(|e: (String, Vec<Unit>)| e.0@).to_set()
}

/// What a player could load from the planets named by `keys`, planet after planet; a planet's
/// units are those of its first entry.
pub open spec fn keyed_planet_cargo(
    planets: Seq<(String, Vec<Unit>)>,
    keys: Seq<Seq<char>>,
    kinds: Seq<UnitKind>,
    player: Seq<char>,
    system: Seq<char>,
) -> Seq<(Seq<char>, Seq<char>, bool, bool, SourceView, Seq<char>)>
    decreases keys.len(),
{
    if keys.len() == 0 {
        Seq::empty()
    } else {
        let key = keys.last();
        let at = crate::thunders_edge::entry_at(planets, key, planets.len() as int);
        keyed_planet_cargo(planets, keys.drop_last(), kinds, player, system) + cargo_from(
            planets[at].1@,
            kinds,
            player,
            SourceView::Planet(key),
            system,
        )
    }
}

/// Every unit in `origin` this player could load: space area first, then each planet, by
/// ascending planet id.
/// 95.5: nothing is picked up from a system holding one of the player's command tokens, unless
/// it is the active system. A system not on the board holds nothing.
pub open spec fn spec_loadable(state: GameState, kinds: Seq<UnitKind>, player: Seq<char>, origin: Seq<char>) -> Seq<
    (Seq<char>, Seq<char>, bool, bool, SourceView, Seq<char>),
> {
    let k = system_index(state.board@, origin);
    if k < 0 {
        Seq::empty()
    } else {
        let system = state.board@[k];
        let active = match state.active_system {
            Some(a) => a@ == origin,
            None => false,
        };
        if !active && crate::state::names(system.command_tokens@).contains(player) {
            Seq::empty()
        } else {
            cargo_from(system.units@, kinds, player, SourceView::Space, origin) + keyed_planet_cargo(
                system.planet_units@,
                planet_keys(system.planet_units@),
                kinds,
                player,
                origin,
            )
        }
    }
}

fn collect_cargo(
    units: &Vec<Unit>,
    kinds: &Vec<UnitKind>,
    player: &str,
    source: &CargoSource,
    system: &str,
    found: &mut Vec<Cargo>,
)
    ensures
        final(found)@.map_values(|c: Cargo| cargo_view(c)) == old(found)@.map_values(|c: Cargo| cargo_view(c))
            + cargo_from(units@, kinds@, player@, source@, system@),
{
    let ghost start = old(found)@.map_values(|c: Cargo| cargo_view(c));
    let mut k: usize = 0;
    while k < units.len()
        invariant
            k <= units@.len(),
            found@.map_values(|c: Cargo| cargo_view(c)) == start + cargo_from(
                units@.subrange(0, k as int),
                kinds@,
                player@,
                source@,
                system@,
            ),
        decreases units@.len() - k,
    {
        proof {
            assert(units@.subrange(0, k + 1).drop_last() =~= units@.subrange(0, k as int));
        }
        let unit = &units[k];
        if str_eq(unit.owner.as_str(), player) && consumes_exec(kinds, unit) {
            let ghost before = found@.map_values(|c: Cargo| cargo_view(c));
            let cargo = Cargo { unit: unit.clone(), source: source.clone(), system: system.to_string() };
            found.push(cargo);
            proof {
                assert(found@.map_values(|c: Cargo| cargo_view(c)) =~= before.push(cargo_view(cargo)));
                let rest = cargo_from(units@.subrange(0, k as int), kinds@, player@, source@, system@);
                assert(start + rest.push(cargo_view(cargo)) =~= (start + rest).push(cargo_view(cargo)));
            }
        }
        k = k + 1;
    }
    assert(units@.subrange(0, units@.len() as int) =~= units@);
}

/// Every unit in `origin` this player could load, in a stable order.
pub fn loadable(state: &GameState, kinds: &Vec<UnitKind>, player: &str, origin: &str) -> (found: Vec<Cargo>)
    ensures
        found@.map_values(|c: Cargo| cargo_view(c)) == spec_loadable(*state, kinds@, player@, origin@),
{
    let mut found: Vec<Cargo> = Vec::new();
    assert(found@.map_values(|c: Cargo| cargo_view(c)) =~= Seq::empty());
    let k = match find_system(&state.board, origin) {
        Some(k) => k,
        None => return found,
    };
    let system = &state.board[k];
    let active = match &state.active_system {
        Some(a) => str_eq(a.as_str(), origin),
        None => false,
    };
    if !active && contains_name(&system.command_tokens, player) {
        return found;
    }
    collect_cargo(&system.units, kinds, player, &CargoSource::Space, origin, &mut found);
    assert(Seq::<(Seq<char>, Seq<char>, bool, bool, SourceView, Seq<char>)>::empty() + cargo_from(
        system.units@, kinds@, player@, SourceView::Space, origin@) =~= cargo_from(system.units@, kinds@, player@, SourceView::Space, origin@));
    let ghost space = cargo_from(system.units@, kinds@, player@, SourceView::Space, origin@);
    let ghost pu = system.planet_units@;
    let ghost ids = pu.map_values(|e: (String, Vec<Unit>)| e.0@);
    let mut keys: Vec<String> = Vec::new();
    let mut p: usize = 0;
    while p < system.planet_units.len()
        invariant
            p <= pu.len(),
            pu == system.planet_units@,
            ids == pu.map_values(|e: (String, Vec<Unit>)| e.0@),
            crate::technology::sorted_names(crate::state::names(keys@)),
            crate::state::names(keys@).no_duplicates(),
            forall|y: Seq<char>| crate::state::names(keys@).contains(y) <==> (exists|j: int| 0 <= j < p && #[trigger] ids[j] == y),
        decreases pu.len() - p,
    {
        let ghost was = crate::state::names(keys@);
        crate::strategy_cards::add_sorted_distinct(&mut keys, system.planet_units[p].0.as_str());
        proof {
            assert(ids[p as int] == pu[p as int].0@);
            assert forall|y: Seq<char>| crate::state::names(keys@).contains(y) <==> (exists|j: int| 0 <= j < p + 1 && #[trigger] ids[j] == y) by {
                if y == pu[p as int].0@ {
                    assert(ids[p as int] == y);
                }
                if exists|j: int| 0 <= j < p + 1 && #[trigger] ids[j] == y {
                    let j = choose|j: int| 0 <= j < p + 1 && #[trigger] ids[j] == y;
                    if j < p {
                        assert(was.contains(y));
                    }
                }
            }
        }
        p = p + 1;
    }
    proof {
        let k = crate::state::names(keys@);
        assert(k.to_set() =~= planet_ids(pu)) by {
            assert forall|y: Seq<char>| k.to_set().contains(y) <==> planet_ids(pu).contains(y) by {
                if planet_ids(pu).contains(y) {
                    let j = choose|j: int| 0 <= j < ids.len() && ids[j] == y;
                    assert(ids[j] == y);
                }
            }
        }
        assert(crate::strategy_cards::sorted_set(k, planet_ids(pu)));
        crate::strategy_cards::lemma_sorted_set_unique(k, planet_keys(pu), planet_ids(pu));
    }
    let ghost all = crate::state::names(keys@);
    let mut q: usize = 0;
    assert(all.subrange(0, 0) =~= Seq::<Seq<char>>::empty());
    while q < keys.len()
        invariant
            q <= keys@.len(),
            all == crate::state::names(keys@),
            all == planet_keys(pu),
            pu == system.planet_units@,
            ids == pu.map_values(|e: (String, Vec<Unit>)| e.0@),
            forall|y: Seq<char>| all.contains(y) ==> (exists|j: int| 0 <= j < pu.len() && #[trigger] ids[j] == y),
            found@.map_values(|c: Cargo| cargo_view(c)) == space + keyed_planet_cargo(pu, all.subrange(0, q as int), kinds@, player@, origin@),
        decreases keys@.len() - q,
    {
        let key = keys[q].as_str();
        assert(all[q as int] == key@);
        assert(all.contains(key@));
        let ghost j = choose|j: int| 0 <= j < pu.len() && #[trigger] ids[j] == key@;
        assert(pu[j].0@ == key@);
        let at = match crate::thunders_edge::find_entry(&system.planet_units, key) {
            Some(at) => at,
            None => {
                proof {
                    crate::thunders_edge::lemma_entry_absent(pu, key@, pu.len() as int, j);
                }
                return found;
            },
        };
        let ghost before = found@.map_values(|c: Cargo| cargo_view(c));
        let source = CargoSource::Planet(key.to_string());
        collect_cargo(&system.planet_units[at].1, kinds, player, &source, origin, &mut found);
        proof {
            assert(all.subrange(0, q + 1).drop_last() =~= all.subrange(0, q as int));
            assert(all.subrange(0, q + 1).last() == key@);
            let prev = keyed_planet_cargo(pu, all.subrange(0, q as int), kinds@, player@, origin@);
            let more = cargo_from(pu[at as int].1@, kinds@, player@, source@, origin@);
            assert(space + prev + more =~= space + (prev + more));
        }
        q = q + 1;
    }
    assert(all.subrange(0, q as int) =~= all);
    found
}

/// The systems a ship picks up from along its route, each once, in the order it reaches them:
/// where it started, then each system of the first `n` steps it has not been through yet.
pub open spec fn route_systems(origin: Seq<char>, path: Seq<Seq<char>>, n: int) -> Seq<Seq<char>>
    decreases n,
{
    if n <= 0 {
        seq![origin]
    } else {
        let earlier = route_systems(origin, path, n - 1);
        if earlier.contains(path[n - 1]) {
            earlier
        } else {
            earlier.push(path[n - 1])
        }
    }
}

/// What a player can pick up from each of some systems, system after system.
pub open spec fn cargo_along(state: GameState, kinds: Seq<UnitKind>, player: Seq<char>, systems: Seq<Seq<char>>) -> Seq<
    (Seq<char>, Seq<char>, bool, bool, SourceView, Seq<char>),
>
    decreases systems.len(),
{
    if systems.len() == 0 {
        Seq::empty()
    } else {
        cargo_along(state, kinds, player, systems.drop_last()) + spec_loadable(state, kinds, player, systems.last())
    }
}

/// What a ship can pick up along its route (95.1): from the system it started in, then from
/// each system it moves through, each system once however often the route revisits it. A
/// system holding the player's command token other than the active system gives nothing (95.5).
pub fn route_cargo(state: &GameState, kinds: &Vec<UnitKind>, player: &str, origin: &str, path: &Vec<String>) -> (found: Vec<Cargo>)
    ensures
        found@.map_values(|c: Cargo| cargo_view(c)) == cargo_along(
            *state,
            kinds@,
            player@,
            route_systems(origin@, crate::state::names(path@), path@.len() as int),
        ),
{
    let mut systems: Vec<String> = Vec::new();
    systems.push(origin.to_string());
    assert(crate::state::names(systems@) =~= seq![origin@]);
    let mut k: usize = 0;
    while k < path.len()
        invariant
            k <= path@.len(),
            crate::state::names(systems@) == route_systems(origin@, crate::state::names(path@), k as int),
        decreases path@.len() - k,
    {
        assert(crate::state::names(path@)[k as int] == path@[k as int]@);
        if !contains_name(&systems, path[k].as_str()) {
            let ghost was = crate::state::names(systems@);
            systems.push(path[k].clone());
            assert(crate::state::names(systems@) =~= was.push(path@[k as int]@));
        }
        k = k + 1;
    }
    let ghost all = crate::state::names(systems@);
    let mut found: Vec<Cargo> = Vec::new();
    let mut j: usize = 0;
    assert(all.subrange(0, 0) =~= Seq::<Seq<char>>::empty());
    while j < systems.len()
        invariant
            j <= systems@.len(),
            all == crate::state::names(systems@),
            found@.map_values(|c: Cargo| cargo_view(c)) == cargo_along(*state, kinds@, player@, all.subrange(0, j as int)),
        decreases systems@.len() - j,
    {
        let ghost was = found@.map_values(|c: Cargo| cargo_view(c));
        let mut more = loadable(state, kinds, player, systems[j].as_str());
        let ghost extra = more@.map_values(|c: Cargo| cargo_view(c));
        let ghost f0 = found@;
        found.append(&mut more);
        assert(found@.map_values(|c: Cargo| cargo_view(c)) =~= was + extra);
        assert(all.subrange(0, j + 1).drop_last() =~= all.subrange(0, j as int));
        assert(all.subrange(0, j + 1).last() == systems@[j as int]@);
        j = j + 1;
    }
    assert(all.subrange(0, j as int) =~= all);
    found
}

/// What became of a ship that moved.
#[derive(Debug, Clone, PartialEq, Eq)]
pub enum MoveOutcome {
    /// It arrived, with these passengers.
    Arrived { cargo: Vec<Cargo> },
    /// A gravity rift destroyed it (41.2), and its passengers went down with it (95.1b).
    LostToGravityRift { cargo: Vec<Cargo> },
}

/// A unit as the board tells units apart: type, owner, damage, galvanized.
pub open spec fn unit_view(u: Unit) -> (Seq<char>, Seq<char>, bool, bool) {
    (u.type_id@, u.owner@, u.sustained_damage, u.galvanized)
}

/// The units of a list, as the board tells them apart.
pub open spec fn units_view(units: Seq<Unit>) -> Seq<(Seq<char>, Seq<char>, bool, bool)> {
    units.map_values(|u: Unit| unit_view(u))
}

/// One system as a move sees it: its id, its space area, its planets' units, and the rest
/// (control and command tokens), which a move leaves alone.
pub struct SystemView {
    pub id: Seq<char>,
    pub units: Seq<(Seq<char>, Seq<char>, bool, bool)>,
    pub planets: Seq<(Seq<char>, Seq<(Seq<char>, Seq<char>, bool, bool)>)>,
    pub control: Seq<(String, String)>,
    pub tokens: Seq<String>,
}

/// A system as a move sees it.
pub open spec fn system_view(s: SystemState) -> SystemView {
    SystemView {
        id: s.id@,
        units: units_view(s.units@),
        planets: s.planet_units@.map_values(|p: (String, Vec<Unit>)| (p.0@, units_view(p.1@))),
        control: s.planet_control@,
        tokens: s.command_tokens@,
    }
}

/// The board as a move sees it.
pub open spec fn board_view(board: Seq<SystemState>) -> Seq<SystemView> {
    board.map_values(|s: SystemState| system_view(s))
}

/// The first of the first `n` systems with this id, or -1.
pub open spec fn view_index(b: Seq<SystemView>, id: Seq<char>, n: int) -> int
    decreases n,
{
    if n <= 0 {
        -1
    } else {
        let earlier = view_index(b, id, n - 1);
        if earlier >= 0 {
            earlier
        } else if b[n - 1].id == id {
            n - 1
        } else {
            -1
        }
    }
}

/// The first of the first `n` units like `u`, or -1.
pub open spec fn unit_index(units: Seq<(Seq<char>, Seq<char>, bool, bool)>, u: (Seq<char>, Seq<char>, bool, bool), n: int) -> int
    decreases n,
{
    if n <= 0 {
        -1
    } else {
        let earlier = unit_index(units, u, n - 1);
        if earlier >= 0 {
            earlier
        } else if units[n - 1] == u {
            n - 1
        } else {
            -1
        }
    }
}

/// The first of the first `n` planet entries with this id, or -1.
pub open spec fn planet_index(planets: Seq<(Seq<char>, Seq<(Seq<char>, Seq<char>, bool, bool)>)>, planet: Seq<char>, n: int) -> int
    decreases n,
{
    if n <= 0 {
        -1
    } else {
        let earlier = planet_index(planets, planet, n - 1);
        if earlier >= 0 {
            earlier
        } else if planets[n - 1].0 == planet {
            n - 1
        } else {
            -1
        }
    }
}

/// Whether the space area of system `id` holds a unit like `u`.
pub open spec fn has_unit(b: Seq<SystemView>, id: Seq<char>, u: (Seq<char>, Seq<char>, bool, bool)) -> bool {
    let i = view_index(b, id, b.len() as int);
    i >= 0 && unit_index(b[i].units, u, b[i].units.len() as int) >= 0
}

/// The board after the first unit like `u` leaves the space area of system `id`; where there
/// is none, nothing changes.
pub open spec fn lifted(b: Seq<SystemView>, id: Seq<char>, u: (Seq<char>, Seq<char>, bool, bool)) -> Seq<SystemView> {
    let i = view_index(b, id, b.len() as int);
    if i < 0 {
        b
    } else {
        let k = unit_index(b[i].units, u, b[i].units.len() as int);
        if k < 0 {
            b
        } else {
            b.update(i, SystemView { units: b[i].units.remove(k), ..b[i] })
        }
    }
}

/// The board after the first unit like `u` leaves planet `planet` of system `id`; where there
/// is none, nothing changes.
pub open spec fn lifted_from_planet(
    b: Seq<SystemView>,
    id: Seq<char>,
    planet: Seq<char>,
    u: (Seq<char>, Seq<char>, bool, bool),
) -> Seq<SystemView> {
    let i = view_index(b, id, b.len() as int);
    if i < 0 {
        b
    } else {
        let planets = b[i].planets;
        let p = planet_index(planets, planet, planets.len() as int);
        if p < 0 {
            b
        } else {
            let k = unit_index(planets[p].1, u, planets[p].1.len() as int);
            if k < 0 {
                b
            } else {
                b.update(i, SystemView { planets: planets.update(p, (planets[p].0, planets[p].1.remove(k))), ..b[i] })
            }
        }
    }
}

/// The board after `u` enters the space area of system `id`; a system not yet on the board
/// is added, empty but for it.
pub open spec fn landed(b: Seq<SystemView>, id: Seq<char>, u: (Seq<char>, Seq<char>, bool, bool)) -> Seq<SystemView> {
    let i = view_index(b, id, b.len() as int);
    if i < 0 {
        b.push(SystemView { id: id, units: seq![u], planets: seq![], control: seq![], tokens: seq![] })
    } else {
        b.update(i, SystemView { units: b[i].units.push(u), ..b[i] })
    }
}

/// The board after one passenger is taken aboard and carried to `destination`: from a space
/// area it moves if it is there; from a planet it is lifted off and arrives in the
/// destination's space area, never on a planet (landing is invasion).
pub open spec fn carried(b: Seq<SystemView>, destination: Seq<char>, c: Cargo) -> Seq<SystemView> {
    let u = unit_view(c.unit);
    match c.source@ {
        SourceView::Space => if has_unit(b, c.system@, u) {
            landed(lifted(b, c.system@, u), destination, u)
        } else {
            b
        },
        SourceView::Planet(p) => landed(lifted_from_planet(b, c.system@, p, u), destination, u),
    }
}

/// The board after one passenger goes down with its ship: it leaves where it stood.
pub open spec fn sunk(b: Seq<SystemView>, c: Cargo) -> Seq<SystemView> {
    let u = unit_view(c.unit);
    match c.source@ {
        SourceView::Space => lifted(b, c.system@, u),
        SourceView::Planet(p) => lifted_from_planet(b, c.system@, p, u),
    }
}

/// The board after every passenger, in order, is carried to `destination`.
pub open spec fn carried_all(b: Seq<SystemView>, destination: Seq<char>, cargo: Seq<Cargo>) -> Seq<SystemView>
    decreases cargo.len(),
{
    if cargo.len() == 0 {
        b
    } else {
        carried(carried_all(b, destination, cargo.drop_last()), destination, cargo.last())
    }
}

/// The board after every passenger, in order, goes down with its ship.
pub open spec fn sunk_all(b: Seq<SystemView>, cargo: Seq<Cargo>) -> Seq<SystemView>
    decreases cargo.len(),
{
    if cargo.len() == 0 {
        b
    } else {
        sunk(sunk_all(b, cargo.drop_last()), cargo.last())
    }
}

/// The board after a move: a surviving ship goes from origin to destination with its
/// passengers; a ship lost to a rift leaves the board, and its passengers with it.
pub open spec fn moved_board(
    b: Seq<SystemView>,
    origin: Seq<char>,
    destination: Seq<char>,
    ship: (Seq<char>, Seq<char>, bool, bool),
    cargo: Seq<Cargo>,
    survives: bool,
) -> Seq<SystemView> {
    if survives {
        let start = if has_unit(b, origin, ship) {
            landed(lifted(b, origin, ship), destination, ship)
        } else {
            b
        };
        carried_all(start, destination, cargo)
    } else {
        sunk_all(lifted(b, origin, ship), cargo)
    }
}

/// Whether only the board differs between two states.
pub open spec fn only_board_changed(before: GameState, after: GameState) -> bool {
    after == (GameState { board: after.board, ..before })
}

proof fn lemma_view_index_stays(b: Seq<SystemView>, id: Seq<char>, m: int, n: int)
    requires
        0 <= m <= n,
        view_index(b, id, m) >= 0,
    ensures
        view_index(b, id, n) == view_index(b, id, m),
    decreases n - m,
{
    if m < n {
        lemma_view_index_stays(b, id, m, n - 1);
    }
}

proof fn lemma_unit_index_stays(us: Seq<(Seq<char>, Seq<char>, bool, bool)>, u: (Seq<char>, Seq<char>, bool, bool), m: int, n: int)
    requires
        0 <= m <= n,
        unit_index(us, u, m) >= 0,
    ensures
        unit_index(us, u, n) == unit_index(us, u, m),
    decreases n - m,
{
    if m < n {
        lemma_unit_index_stays(us, u, m, n - 1);
    }
}

proof fn lemma_planet_index_stays(ps: Seq<(Seq<char>, Seq<(Seq<char>, Seq<char>, bool, bool)>)>, planet: Seq<char>, m: int, n: int)
    requires
        0 <= m <= n,
        planet_index(ps, planet, m) >= 0,
    ensures
        planet_index(ps, planet, n) == planet_index(ps, planet, m),
    decreases n - m,
{
    if m < n {
        lemma_planet_index_stays(ps, planet, m, n - 1);
    }
}

pub(crate) fn find_view_system(board: &Vec<SystemState>, id: &str) -> (found: Option<usize>)
    ensures
        match found {
            Some(i) => i < board@.len() && view_index(board_view(board@), id@, board@.len() as int) == i,
            None => view_index(board_view(board@), id@, board@.len() as int) == -1,
        },
{
    let ghost b = board_view(board@);
    let mut i: usize = 0;
    while i < board.len()
        invariant
            i <= board@.len(),
            b == board_view(board@),
            view_index(b, id@, i as int) == -1,
        decreases board@.len() - i,
    {
        assert(b[i as int] == system_view(board@[i as int]));
        if str_eq(board[i].id.as_str(), id) {
            proof {
                lemma_view_index_stays(b, id@, i + 1, board@.len() as int);
            }
            return Some(i);
        }
        i = i + 1;
    }
    None
}

fn find_unit(units: &Vec<Unit>, u: &Unit) -> (found: Option<usize>)
    ensures
        match found {
            Some(k) => k < units@.len() && unit_index(units_view(units@), unit_view(*u), units@.len() as int) == k,
            None => unit_index(units_view(units@), unit_view(*u), units@.len() as int) == -1,
        },
{
    let ghost us = units_view(units@);
    let mut k: usize = 0;
    while k < units.len()
        invariant
            k <= units@.len(),
            us == units_view(units@),
            unit_index(us, unit_view(*u), k as int) == -1,
        decreases units@.len() - k,
    {
        assert(us[k as int] == unit_view(units@[k as int]));
        let w = &units[k];
        if str_eq(w.type_id.as_str(), u.type_id.as_str()) && str_eq(w.owner.as_str(), u.owner.as_str())
            && w.sustained_damage == u.sustained_damage && w.galvanized == u.galvanized {
            proof {
                lemma_unit_index_stays(us, unit_view(*u), k + 1, units@.len() as int);
            }
            return Some(k);
        }
        k = k + 1;
    }
    None
}

pub(crate) fn find_planet(planets: &Vec<(String, Vec<Unit>)>, planet: &str) -> (found: Option<usize>)
    ensures
        match found {
            Some(p) => p < planets@.len() && planet_index(
                planets@.map_values(|e: (String, Vec<Unit>)| (e.0@, units_view(e.1@))),
                planet@,
                planets@.len() as int,
            ) == p,
            None => planet_index(
                planets@.map_values(|e: (String, Vec<Unit>)| (e.0@, units_view(e.1@))),
                planet@,
                planets@.len() as int,
            ) == -1,
        },
{
    let ghost ps = planets@.map_values(|e: (String, Vec<Unit>)| (e.0@, units_view(e.1@)));
    let mut p: usize = 0;
    while p < planets.len()
        invariant
            p <= planets@.len(),
            ps == planets@.map_values(|e: (String, Vec<Unit>)| (e.0@, units_view(e.1@))),
            planet_index(ps, planet@, p as int) == -1,
        decreases planets@.len() - p,
    {
        assert(ps[p as int].0 == planets@[p as int].0@);
        if str_eq(planets[p].0.as_str(), planet) {
            proof {
                lemma_planet_index_stays(ps, planet@, p + 1, planets@.len() as int);
            }
            return Some(p);
        }
        p = p + 1;
    }
    None
}

/// Take the first unit like `u` out of the space area of system `id`, if there is one.
fn lift(state: &mut GameState, id: &str, u: &Unit) -> (found: bool)
    ensures
        only_board_changed(*old(state), *final(state)),
        board_view(final(state).board@) == lifted(board_view(old(state).board@), id@, unit_view(*u)),
        found == has_unit(board_view(old(state).board@), id@, unit_view(*u)),
{
    let ghost b0 = board_view(state.board@);
    match find_view_system(&state.board, id) {
        None => false,
        Some(i) => {
            let mut system = state.board.remove(i);
            let ghost sys0 = system;
            assert(b0[i as int] == system_view(sys0));
            match find_unit(&system.units, u) {
                None => {
                    state.board.insert(i, system);
                    assert(state.board@ =~= old(state).board@);
                    false
                },
                Some(k) => {
                    system.units.remove(k);
                    assert(units_view(system.units@) =~= units_view(sys0.units@).remove(k as int));
                    state.board.insert(i, system);
                    assert(system_view(system) == SystemView { units: b0[i as int].units.remove(k as int), ..b0[i as int] });
                    assert(board_view(state.board@) =~= b0.update(
                        i as int,
                        SystemView { units: b0[i as int].units.remove(k as int), ..b0[i as int] },
                    ));
                    true
                },
            }
        },
    }
}

/// Take the first unit like `u` off planet `planet` of system `id`, if there is one.
fn lift_from_planet(state: &mut GameState, id: &str, planet: &str, u: &Unit)
    ensures
        only_board_changed(*old(state), *final(state)),
        board_view(final(state).board@) == lifted_from_planet(board_view(old(state).board@), id@, planet@, unit_view(*u)),
{
    let ghost b0 = board_view(state.board@);
    match find_view_system(&state.board, id) {
        None => {},
        Some(i) => {
            let mut system = state.board.remove(i);
            let ghost sys0 = system;
            assert(b0[i as int] == system_view(sys0));
            let ghost ps = b0[i as int].planets;
            match find_planet(&system.planet_units, planet) {
                None => {
                    state.board.insert(i, system);
                    assert(state.board@ =~= old(state).board@);
                },
                Some(p) => {
                    let mut entry = system.planet_units.remove(p);
                    let ghost e0 = entry;
                    assert(ps[p as int] == (e0.0@, units_view(e0.1@)));
                    match find_unit(&entry.1, u) {
                        None => {
                            system.planet_units.insert(p, entry);
                            assert(system.planet_units@.map_values(|e: (String, Vec<Unit>)| (e.0@, units_view(e.1@))) =~= ps);
                            state.board.insert(i, system);
                            assert(system_view(system) == b0[i as int]);
                            assert(board_view(state.board@) =~= b0);
                        },
                        Some(k) => {
                            entry.1.remove(k);
                            assert(units_view(entry.1@) =~= units_view(e0.1@).remove(k as int));
                            system.planet_units.insert(p, entry);
                            let ghost ps1 = ps.update(p as int, (ps[p as int].0, ps[p as int].1.remove(k as int)));
                            assert(system.planet_units@.map_values(|e: (String, Vec<Unit>)| (e.0@, units_view(e.1@))) =~= ps1);
                            state.board.insert(i, system);
                            assert(system_view(system) == SystemView { planets: ps1, ..b0[i as int] });
                            assert(board_view(state.board@) =~= b0.update(i as int, SystemView { planets: ps1, ..b0[i as int] }));
                        },
                    }
                },
            }
        },
    }
}

/// Put `u` into the space area of system `id`, adding the system if it is not on the board.
fn land(state: &mut GameState, id: &str, u: Unit)
    ensures
        only_board_changed(*old(state), *final(state)),
        board_view(final(state).board@) == landed(board_view(old(state).board@), id@, unit_view(u)),
{
    let ghost b0 = board_view(state.board@);
    let ghost uv = unit_view(u);
    match find_view_system(&state.board, id) {
        None => {
            let mut units: Vec<Unit> = Vec::new();
            units.push(u);
            assert(units_view(units@) =~= seq![uv]);
            let system = SystemState {
                id: id.to_string(),
                units: units,
                planet_units: Vec::new(),
                planet_control: Vec::new(),
                command_tokens: Vec::new(),
            };
            assert(system.planet_units@.map_values(|e: (String, Vec<Unit>)| (e.0@, units_view(e.1@))) =~= seq![]);
            state.board.push(system);
            assert(board_view(state.board@) =~= b0.push(
                SystemView { id: id@, units: seq![uv], planets: seq![], control: seq![], tokens: seq![] },
            ));
        },
        Some(i) => {
            let mut system = state.board.remove(i);
            let ghost sys0 = system;
            assert(b0[i as int] == system_view(sys0));
            system.units.push(u);
            assert(units_view(system.units@) =~= units_view(sys0.units@).push(uv));
            state.board.insert(i, system);
            assert(board_view(state.board@) =~= b0.update(
                i as int,
                SystemView { units: b0[i as int].units.push(uv), ..b0[i as int] },
            ));
        },
    }
}

/// Take one passenger aboard and carry it to `destination`.
fn carry_one(state: &mut GameState, destination: &str, c: &Cargo)
    ensures
        only_board_changed(*old(state), *final(state)),
        board_view(final(state).board@) == carried(board_view(old(state).board@), destination@, *c),
{
    match &c.source {
        CargoSource::Space => {
            if lift(state, c.system.as_str(), &c.unit) {
                land(state, destination, c.unit.clone());
            }
        },
        CargoSource::Planet(planet) => {
            lift_from_planet(state, c.system.as_str(), planet.as_str(), &c.unit);
            land(state, destination, c.unit.clone());
        },
    }
}

/// Take one passenger off the board with its ship.
fn sink_one(state: &mut GameState, c: &Cargo)
    ensures
        only_board_changed(*old(state), *final(state)),
        board_view(final(state).board@) == sunk(board_view(old(state).board@), *c),
{
    match &c.source {
        CargoSource::Space => {
            lift(state, c.system.as_str(), &c.unit);
        },
        CargoSource::Planet(planet) => {
            lift_from_planet(state, c.system.as_str(), planet.as_str(), &c.unit);
        },
    }
}

/// Move a ship and its cargo, or lose both to a rift.
///
/// An illegal move is refused before it reaches here, so this cannot fail. A surviving ship
/// leaves the origin's space area for the destination's, and each passenger leaves the space
/// area or planet of the system it was picked up in (which may lie on the route, not only at
/// the origin) for the destination's space area: landing is invasion, a separate step. A ship
/// lost to a rift leaves the board, and each passenger with it (95.1b). The outcome names the
/// passengers, since a count cannot be acted on.
pub fn apply_move(
    state: &mut GameState,
    origin: &str,
    destination: &str,
    ship: &Unit,
    cargo: Vec<Cargo>,
    survives: bool,
) -> (outcome: MoveOutcome)
    ensures
        only_board_changed(*old(state), *final(state)),
        board_view(final(state).board@) == moved_board(
            board_view(old(state).board@),
            origin@,
            destination@,
            unit_view(*ship),
            cargo@,
            survives,
        ),
        match outcome {
            MoveOutcome::Arrived { cargo: carried } => survives && carried@ == cargo@,
            MoveOutcome::LostToGravityRift { cargo: lost } => !survives && lost@ == cargo@,
        },
{
    let ghost b0 = board_view(state.board@);
    let ghost before = *state;
    if survives {
        if lift(state, origin, ship) {
            land(state, destination, ship.clone());
        }
        let ghost start = board_view(state.board@);
        let mut j: usize = 0;
        assert(cargo@.subrange(0, 0) =~= Seq::<Cargo>::empty());
        while j < cargo.len()
            invariant
                j <= cargo@.len(),
                only_board_changed(before, *state),
                board_view(state.board@) == carried_all(start, destination@, cargo@.subrange(0, j as int)),
            decreases cargo@.len() - j,
        {
            carry_one(state, destination, &cargo[j]);
            assert(cargo@.subrange(0, j + 1).drop_last() =~= cargo@.subrange(0, j as int));
            j = j + 1;
        }
        assert(cargo@.subrange(0, j as int) =~= cargo@);
        MoveOutcome::Arrived { cargo }
    } else {
        lift(state, origin, ship);
        let ghost start = board_view(state.board@);
        let mut j: usize = 0;
        assert(cargo@.subrange(0, 0) =~= Seq::<Cargo>::empty());
        while j < cargo.len()
            invariant
                j <= cargo@.len(),
                only_board_changed(before, *state),
                board_view(state.board@) == sunk_all(start, cargo@.subrange(0, j as int)),
            decreases cargo@.len() - j,
        {
            sink_one(state, &cargo[j]);
            assert(cargo@.subrange(0, j + 1).drop_last() =~= cargo@.subrange(0, j as int));
            j = j + 1;
        }
        assert(cargo@.subrange(0, j as int) =~= cargo@);
        MoveOutcome::LostToGravityRift { cargo }
    }
}

} // verus!
