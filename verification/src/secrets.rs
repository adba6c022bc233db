//! Secret objectives (LRR 45, 61.18): the hand limit, scoring timing, and which secrets have a
//! registered requirement.

pub mod position;

pub use position::{meets, requirement_for, spec_requirement_for, Position, Requirement};

use vstd::prelude::*;
use crate::choice::{first_named, option_views, validate, Choice, ChoiceOption, IllegalChoice, OptionView};
use crate::rng::{lemma_name_lt_irreflexive, lemma_name_lt_total, lemma_name_lt_transitive, name_lt, str_lt};
use crate::state::{contains_name, find_seat, names, remove_first, seat_of, without_first, GameState, Seat};
use crate::text::{ascii_lower, str_eq};
use crate::state::{index_in, lemma_index_in_prefix};
use position::{opt_text, spec_meets};

verus! {

/// 45.4: three in hand, counting scored ones.
pub const HAND_LIMIT: usize = 3;

/// The choice kind for returning a secret over the hand limit.
pub const RETURN_KIND: &'static str = "return";

/// When a secret may be scored. An action or agenda secret offered at status time would change
/// both its timing and whether the fact that satisfied it still exists by then.
#[derive(Debug, Clone, Copy, PartialEq, Eq, Structural)]
pub enum Timing {
    Status,
    Action,
    Agenda,
}

/// Whether `text` reads as the lowercase word `word`, ignoring ASCII case.
pub open spec fn reads_as(text: Seq<char>, word: Seq<char>) -> bool {
    text.len() == word.len() && forall|i: int| 0 <= i < text.len() ==> ascii_lower(#[trigger] text[i]) == word[i]
}

fn reads_as_exec(text: &str, word: &str) -> (yes: bool)
    ensures
        yes == reads_as(text@, word@),
{
    let n = text.unicode_len();
    if n != word.unicode_len() {
        return false;
    }
    let mut i: usize = 0;
    while i < n
        invariant
            n == text@.len(),
            n == word@.len(),
            i <= n,
            forall|j: int| 0 <= j < i ==> ascii_lower(#[trigger] text@[j]) == word@[j],
        decreases n - i,
    {
        let c = text.get_char(i);
        let lower = if 'A' <= c && c <= 'Z' {
            ((c as u32) + 32) as u8 as char
        } else {
            c
        };
        assert(lower == ascii_lower(c)) by {
            if 'A' <= c && c <= 'Z' {
                assert((c as u32) + 32 < 256);
            }
        }
        if lower != word.get_char(i) {
            return false;
        }
        i = i + 1;
    }
    true
}

/// When a secret may be scored, from its printed phase (any case); an unprinted phase is a
/// status secret.
pub open spec fn spec_timing(phase: Option<Seq<char>>) -> Timing {
    match phase {
        Some(p) => if reads_as(p, "action"@) {
            Timing::Action
        } else if reads_as(p, "agenda"@) {
            Timing::Agenda
        } else {
            Timing::Status
        },
        None => Timing::Status,
    }
}

/// A printed phase, as characters.
pub open spec fn phase_view(phase: Option<&str>) -> Option<Seq<char>> {
    match phase {
        Some(p) => Some(p@),
        None => None,
    }
}

/// When a secret may be scored, from the phase its record prints.
pub fn timing(phase: Option<&str>) -> (moment: Timing)
    ensures
        moment == spec_timing(phase_view(phase)),
{
    match phase {
        Some(p) => if reads_as_exec(p, "action") {
            Timing::Action
        } else if reads_as_exec(p, "agenda") {
            Timing::Agenda
        } else {
            Timing::Status
        },
        None => Timing::Status,
    }
}

/// Secrets in hand plus secrets already scored (45.4), and whether that is over the limit.
pub fn over_hand_limit(in_hand: usize, scored: usize) -> (over: bool)
    ensures
        over == (in_hand + scored > HAND_LIMIT),
{
    in_hand as u128 + scored as u128 > HAND_LIMIT as u128
}

/// The choice a player over the hand limit faces: return one of the unscored secrets in hand.
/// Scored secrets count toward the limit but cannot be given back, so a player whose every secret
/// is scored has nothing to return and faces no choice.
pub fn return_choice(player: &str, in_hand: &Vec<String>) -> (choice: Option<Choice>)
    ensures
        match choice {
            None => in_hand@.len() == 0,
            Some(c) => {
                &&& in_hand@.len() > 0
                &&& c.player@ == player@
                &&& c.options@.len() == in_hand@.len()
                &&& forall|k: int| 0 <= k < in_hand@.len() ==> (#[trigger] c.options@[k])@ == (OptionView {
                    id: in_hand@[k]@,
                    kind: RETURN_KIND@,
                    label: "return "@ + in_hand@[k]@,
                })
            },
        },
{
    if in_hand.len() == 0 {
        return None;
    }
    let mut options: Vec<ChoiceOption> = Vec::new();
    let mut k: usize = 0;
    while k < in_hand.len()
        invariant
            k <= in_hand@.len(),
            options@.len() == k,
            forall|j: int| 0 <= j < k ==> (#[trigger] options@[j])@ == (OptionView {
                id: in_hand@[j]@,
                kind: RETURN_KIND@,
                label: "return "@ + in_hand@[j]@,
            }),
        decreases in_hand@.len() - k,
    {
        let label = "return ".to_string().concat(in_hand[k].as_str());
        options.push(ChoiceOption::labelled(in_hand[k].as_str(), RETURN_KIND, label.as_str()));
        k = k + 1;
    }
    Some(Choice::new(player, "return a secret objective to the deck", options))
}

/// Something that happened, which a secret objective written against an event asks for. The
/// board does not remember any of these, which is why they are recorded as they happen.
#[derive(Debug, Clone, Copy, PartialEq, Eq, Structural)]
pub enum Feat {
    DestroyedACapitalShip,
    BombardedOutTheLastGroundForces,
    SpaceCannonTookTheLastNonFighters,
    BarrageTookTheLastFighters,
    WonAgainstThePointsLeader,
    WonBesideASurvivingFlagship,
    WonAgainstANoteHolder,
    WonInAnAnomaly,
    WonInARivalHome,
    HeldThreeShipsAfterASpaceCombat,
    ElectedByAnAgenda,
    LastToPass,
    LostAHomePlanet,
}

/// The feat each event-conditioned secret asks for, by alias.
pub open spec fn spec_feat_for(alias: Seq<char>) -> Option<Feat> {
    if alias == "dtgs"@ {
        Some(Feat::DestroyedACapitalShip)
    } else if alias == "mew"@ {
        Some(Feat::BombardedOutTheLastGroundForces)
    } else if alias == "ttfd"@ {
        Some(Feat::SpaceCannonTookTheLastNonFighters)
    } else if alias == "fwp"@ {
        Some(Feat::BarrageTookTheLastFighters)
    } else if alias == "sar"@ {
        Some(Feat::WonAgainstThePointsLeader)
    } else if alias == "uf"@ {
        Some(Feat::WonBesideASurvivingFlagship)
    } else if alias == "baf"@ {
        Some(Feat::WonAgainstANoteHolder)
    } else if alias == "btv"@ {
        Some(Feat::WonInAnAnomaly)
    } else if alias == "dts"@ {
        Some(Feat::WonInARivalHome)
    } else if alias == "dyp"@ {
        Some(Feat::HeldThreeShipsAfterASpaceCombat)
    } else if alias == "dtd"@ {
        Some(Feat::ElectedByAnAgenda)
    } else if alias == "pe"@ {
        Some(Feat::LastToPass)
    } else if alias == "bam"@ {
        Some(Feat::LostAHomePlanet)
    } else {
        None
    }
}

/// The feat each event-conditioned secret asks for.
pub fn feat_for(alias: &str) -> (feat: Option<Feat>)
    ensures
        feat == spec_feat_for(alias@),
{
    if str_eq(alias, "dtgs") {
        Some(Feat::DestroyedACapitalShip)
    } else if str_eq(alias, "mew") {
        Some(Feat::BombardedOutTheLastGroundForces)
    } else if str_eq(alias, "ttfd") {
        Some(Feat::SpaceCannonTookTheLastNonFighters)
    } else if str_eq(alias, "fwp") {
        Some(Feat::BarrageTookTheLastFighters)
    } else if str_eq(alias, "sar") {
        Some(Feat::WonAgainstThePointsLeader)
    } else if str_eq(alias, "uf") {
        Some(Feat::WonBesideASurvivingFlagship)
    } else if str_eq(alias, "baf") {
        Some(Feat::WonAgainstANoteHolder)
    } else if str_eq(alias, "btv") {
        Some(Feat::WonInAnAnomaly)
    } else if str_eq(alias, "dts") {
        Some(Feat::WonInARivalHome)
    } else if str_eq(alias, "dyp") {
        Some(Feat::HeldThreeShipsAfterASpaceCombat)
    } else if str_eq(alias, "dtd") {
        Some(Feat::ElectedByAnAgenda)
    } else if str_eq(alias, "pe") {
        Some(Feat::LastToPass)
    } else if str_eq(alias, "bam") {
        Some(Feat::LostAHomePlanet)
    } else {
        None
    }
}

/// Aliases with a registered requirement, whether a position or a feat, in alphabetical order.
pub open spec fn spec_registered_aliases() -> Seq<Seq<char>> {
    seq![
        "ans"@, "baf"@, "bam"@, "btgk"@, "btv"@, "csl"@, "ctr"@, "dfat"@, "dhw"@, "dp"@, "dtd"@,
        "dtgs"@, "dts"@, "dyp"@, "eap"@, "eh"@, "faa"@, "fc"@, "fsn"@, "fwm"@, "fwp"@, "gamf"@,
        "hrm"@, "lsc"@, "mew"@, "mlp"@, "mp"@, "mrm"@, "mtm"@, "ose"@, "otf"@, "pe"@, "pem"@,
        "sai"@, "sar"@, "sb"@, "syc"@, "te"@, "ttfd"@, "uf"@,
    ]
}

/// Aliases with a registered requirement, whether a position or a feat.
pub fn registered_aliases() -> (aliases: Vec<&'static str>)
    ensures
        aliases@.map_values(|a: &str| a@) == spec_registered_aliases(),
{
    let aliases = vec![
        "ans", "baf", "bam", "btgk", "btv", "csl", "ctr", "dfat", "dhw", "dp", "dtd", "dtgs",
        "dts", "dyp", "eap", "eh", "faa", "fc", "fsn", "fwm", "fwp", "gamf", "hrm", "lsc", "mew",
        "mlp", "mp", "mrm", "mtm", "ose", "otf", "pe", "pem", "sai", "sar", "sb", "syc", "te",
        "ttfd", "uf",
    ];
    assert(aliases@.map_values(|a: &str| a@) =~= spec_registered_aliases());
    aliases
}

/// Every secret whose requirement is a feat has a registered requirement.
pub proof fn every_feat_secret_is_registered(alias: Seq<char>)
    requires
        spec_feat_for(alias) is Some,
    ensures
        spec_registered_aliases().contains(alias),
{
    let all = spec_registered_aliases();
    if alias == "dtgs"@ {
        assert(all[11] == alias);
    } else if alias == "mew"@ {
        assert(all[24] == alias);
    } else if alias == "ttfd"@ {
        assert(all[38] == alias);
    } else if alias == "fwp"@ {
        assert(all[20] == alias);
    } else if alias == "sar"@ {
        assert(all[34] == alias);
    } else if alias == "uf"@ {
        assert(all[39] == alias);
    } else if alias == "baf"@ {
        assert(all[1] == alias);
    } else if alias == "btv"@ {
        assert(all[4] == alias);
    } else if alias == "dts"@ {
        assert(all[12] == alias);
    } else if alias == "dyp"@ {
        assert(all[13] == alias);
    } else if alias == "dtd"@ {
        assert(all[10] == alias);
    } else if alias == "pe"@ {
        assert(all[31] == alias);
    } else {
        assert(all[2] == alias);
    }
}

/// The registry is exactly the secrets with a requirement: every registered alias has one, a
/// position or a feat, and every alias with one is registered.
pub proof fn the_registry_is_what_has_a_requirement(alias: Seq<char>)
    ensures
        spec_registered_aliases().contains(alias) <==> (spec_requirement_for(alias) is Some || spec_feat_for(alias) is Some),
{
    let all = spec_registered_aliases();
    if all.contains(alias) {
        let i = choose|i: int| 0 <= i < all.len() && all[i] == alias;
        if i == 0 {
            assert(alias == "ans"@);
        } else if i == 1 {
            assert(alias == "baf"@);
        } else if i == 2 {
            assert(alias == "bam"@);
        } else if i == 3 {
            assert(alias == "btgk"@);
        } else if i == 4 {
            assert(alias == "btv"@);
        } else if i == 5 {
            assert(alias == "csl"@);
        } else if i == 6 {
            assert(alias == "ctr"@);
        } else if i == 7 {
            assert(alias == "dfat"@);
        } else if i == 8 {
            assert(alias == "dhw"@);
        } else if i == 9 {
            assert(alias == "dp"@);
        } else if i == 10 {
            assert(alias == "dtd"@);
        } else if i == 11 {
            assert(alias == "dtgs"@);
        } else if i == 12 {
            assert(alias == "dts"@);
        } else if i == 13 {
            assert(alias == "dyp"@);
        } else if i == 14 {
            assert(alias == "eap"@);
        } else if i == 15 {
            assert(alias == "eh"@);
        } else if i == 16 {
            assert(alias == "faa"@);
        } else if i == 17 {
            assert(alias == "fc"@);
        } else if i == 18 {
            assert(alias == "fsn"@);
        } else if i == 19 {
            assert(alias == "fwm"@);
        } else if i == 20 {
            assert(alias == "fwp"@);
        } else if i == 21 {
            assert(alias == "gamf"@);
        } else if i == 22 {
            assert(alias == "hrm"@);
        } else if i == 23 {
            assert(alias == "lsc"@);
        } else if i == 24 {
            assert(alias == "mew"@);
        } else if i == 25 {
            assert(alias == "mlp"@);
        } else if i == 26 {
            assert(alias == "mp"@);
        } else if i == 27 {
            assert(alias == "mrm"@);
        } else if i == 28 {
            assert(alias == "mtm"@);
        } else if i == 29 {
            assert(alias == "ose"@);
        } else if i == 30 {
            assert(alias == "otf"@);
        } else if i == 31 {
            assert(alias == "pe"@);
        } else if i == 32 {
            assert(alias == "pem"@);
        } else if i == 33 {
            assert(alias == "sai"@);
        } else if i == 34 {
            assert(alias == "sar"@);
        } else if i == 35 {
            assert(alias == "sb"@);
        } else if i == 36 {
            assert(alias == "syc"@);
        } else if i == 37 {
            assert(alias == "te"@);
        } else if i == 38 {
            assert(alias == "ttfd"@);
        } else if i == 39 {
            assert(alias == "uf"@);
        }
    }
    if spec_requirement_for(alias) is Some {
        if alias == "csl"@ {
            assert(all[5] == alias);
        } else if alias == "dhw"@ {
            assert(all[8] == alias);
        } else if alias == "fsn"@ {
            assert(all[18] == alias);
        } else if alias == "sb"@ {
            assert(all[35] == alias);
        } else if alias == "lsc"@ {
            assert(all[23] == alias);
        } else if alias == "te"@ {
            assert(all[37] == alias);
        } else if alias == "fc"@ {
            assert(all[17] == alias);
        } else if alias == "dfat"@ {
            assert(all[7] == alias);
        } else if alias == "btgk"@ {
            assert(all[3] == alias);
        } else if alias == "ans"@ {
            assert(all[0] == alias);
        } else if alias == "dp"@ {
            assert(all[9] == alias);
        } else if alias == "syc"@ {
            assert(all[36] == alias);
        } else if alias == "pem"@ {
            assert(all[32] == alias);
        } else if alias == "sai"@ {
            assert(all[33] == alias);
        } else if alias == "ose"@ {
            assert(all[29] == alias);
        } else if alias == "mtm"@ {
            assert(all[28] == alias);
        } else if alias == "otf"@ {
            assert(all[30] == alias);
        } else if alias == "eap"@ {
            assert(all[14] == alias);
        } else if alias == "fwm"@ {
            assert(all[19] == alias);
        } else if alias == "gamf"@ {
            assert(all[21] == alias);
        } else if alias == "ctr"@ {
            assert(all[6] == alias);
        } else if alias == "faa"@ {
            assert(all[16] == alias);
        } else if alias == "mrm"@ {
            assert(all[27] == alias);
        } else if alias == "mp"@ {
            assert(all[26] == alias);
        } else if alias == "eh"@ {
            assert(all[15] == alias);
        } else if alias == "hrm"@ {
            assert(all[22] == alias);
        } else if alias == "mlp"@ {
            assert(all[25] == alias);
        }
    }
    if spec_feat_for(alias) is Some {
        every_feat_secret_is_registered(alias);
    }
}

/// A secret objective card: its alias, the phase it is scored in, and its points.
#[derive(Debug, Clone, PartialEq, Eq)]
pub struct SecretCard {
    pub alias: String,
    /// Its printed phase; a card that prints none is a status secret.
    pub phase: Option<String>,
    /// Its printed points; a card that prints none, or an amount no `i32` holds, is worth one.
    pub points: Option<i64>,
}

/// The card of a secret, if the catalogue has one.
pub open spec fn secret_card(cards: Seq<SecretCard>, alias: Seq<char>) -> Option<SecretCard> {
    let k = index_in(cards.map_values(|c: SecretCard| c.alias@), alias);
    if k < 0 {
        None
    } else {
        Some(cards[k])
    }
}

/// The card of a secret, by a left-to-right search.
fn find_card(cards: &Vec<SecretCard>, alias: &str) -> (found: Option<usize>)
    ensures
        match found {
            Some(k) => k < cards@.len() && secret_card(cards@, alias@) == Some(cards@[k as int]),
            None => secret_card(cards@, alias@) is None,
        },
{
    let ghost ids = cards@.map_values(|c: SecretCard| c.alias@);
    let mut k: usize = 0;
    while k < cards.len()
        invariant
            k <= cards@.len(),
            ids == cards@.map_values(|c: SecretCard| c.alias@),
            index_in(ids.subrange(0, k as int), alias@) < 0,
        decreases cards@.len() - k,
    {
        assert(ids.subrange(0, k + 1).drop_last() =~= ids.subrange(0, k as int));
        assert(ids.subrange(0, k + 1).last() == cards@[k as int].alias@);
        if str_eq(cards[k].alias.as_str(), alias) {
            proof {
                lemma_index_in_prefix(ids, k as int + 1, alias@);
            }
            return Some(k);
        }
        k = k + 1;
    }
    assert(ids.subrange(0, k as int) =~= ids);
    None
}

/// When a secret may be scored: its card's printed phase, or status for a card missing from
/// the catalogue.
pub open spec fn secret_timing(cards: Seq<SecretCard>, alias: Seq<char>) -> Timing {
    match secret_card(cards, alias) {
        Some(c) => spec_timing(opt_text(c.phase)),
        None => Timing::Status,
    }
}

/// When this secret may be scored, from its printed phase.
pub fn timing_of(cards: &Vec<SecretCard>, alias: &str) -> (moment: Timing)
    ensures
        moment == secret_timing(cards@, alias@),
{
    match find_card(cards, alias) {
        Some(k) => match &cards[k].phase {
            Some(p) => timing(Some(p.as_str())),
            None => timing(None),
        },
        None => Timing::Status,
    }
}

/// Whether a secret's registered requirement is met, if it has one.
pub open spec fn requirement_met(p: Position, alias: Seq<char>) -> bool {
    match spec_requirement_for(alias) {
        Some(r) => spec_meets(r, p),
        None => false,
    }
}

fn requirement_met_exec(p: &Position, alias: &str) -> (met: bool)
    ensures
        met == requirement_met(*p, alias@),
{
    match requirement_for(alias) {
        Some(r) => meets(r, p),
        None => false,
    }
}

/// Whether a secret in hand is offered at status time: a status secret, not scored yet, whose
/// registered requirement the position meets.
pub open spec fn offered_at_status(p: Position, cards: Seq<SecretCard>, scored: Seq<Seq<char>>, alias: Seq<char>) -> bool {
    &&& secret_timing(cards, alias) == Timing::Status
    &&& !scored.contains(alias)
    &&& requirement_met(p, alias)
}

/// The secrets in a player's hand that they may score at status time, in hand order.
pub open spec fn spec_scoreable_on(p: Position, cards: Seq<SecretCard>, scored: Seq<Seq<char>>) -> Seq<Seq<char>> {
    let i = seat_of(p.state.players@, p.player@);
    if i < 0 {
        Seq::empty()
    } else {
        names(p.state.players@[i].secret_objectives@).filter(|a: Seq<char>| offered_at_status(p, cards, scored, a))
    }
}

/// Status-phase secrets this player may score now. Action and agenda secrets are left out:
/// they are offered at the event that satisfies them. `scored` lists the objectives this player
/// has already scored.
pub fn scoreable_on(p: &Position, cards: &Vec<SecretCard>, scored: &Vec<String>) -> (open: Vec<String>)
    ensures
        names(open@) == spec_scoreable_on(*p, cards@, names(scored@)),
{
    let mut open: Vec<String> = Vec::new();
    let i = match find_seat(&p.state.players, p.player) {
        Some(i) => i,
        None => {
            assert(names(open@) =~= Seq::<Seq<char>>::empty());
            return open;
        },
    };
    let hand = &p.state.players[i].secret_objectives;
    let ghost all = names(hand@);
    let ghost pred = |a: Seq<char>| offered_at_status(*p, cards@, names(scored@), a);
    let mut k: usize = 0;
    assert(names(open@) =~= all.subrange(0, 0).filter(pred)) by {
        reveal_with_fuel(Seq::<Seq<char>>::filter, 1);
        assert(all.subrange(0, 0) =~= Seq::<Seq<char>>::empty());
    }
    while k < hand.len()
        invariant
            k <= hand@.len(),
            all == names(hand@),
            pred == (|a: Seq<char>| offered_at_status(*p, cards@, names(scored@), a)),
            names(open@) == all.subrange(0, k as int).filter(pred),
        decreases hand@.len() - k,
    {
        proof {
            reveal_with_fuel(Seq::<Seq<char>>::filter, 1);
            assert(all.subrange(0, k + 1).drop_last() =~= all.subrange(0, k as int));
            assert(all.subrange(0, k + 1).last() == hand@[k as int]@);
        }
        let alias = hand[k].as_str();
        if timing_of(cards, alias) == Timing::Status && !contains_name(scored, alias) && requirement_met_exec(p, alias) {
            let ghost before = names(open@);
            open.push(alias.to_string());
            assert(names(open@) =~= before.push(alias@));
        }
        k = k + 1;
    }
    assert(all.subrange(0, k as int) =~= all);
    open
}

/// Status-phase secrets this player may score now, without the map: requirements about the
/// shape of the board report unmet.
pub fn scoreable(p: &Position, cards: &Vec<SecretCard>, scored: &Vec<String>) -> (open: Vec<String>)
    ensures
        names(open@) == spec_scoreable_on(Position { galaxy: None, ..*p }, cards@, names(scored@)),
{
    let blind = Position { galaxy: None, ..*p };
    scoreable_on(&blind, cards, scored)
}

/// Whether a feat is among those recorded.
fn holds_feat(feats: &Vec<Feat>, feat: Feat) -> (found: bool)
    ensures
        found == feats@.contains(feat),
{
    let mut k: usize = 0;
    while k < feats.len()
        invariant
            k <= feats@.len(),
            forall|j: int| 0 <= j < k ==> feats@[j] != feat,
        decreases feats@.len() - k,
    {
        if feats[k] == feat {
            assert(feats@[k as int] == feat);
            return true;
        }
        k = k + 1;
    }
    false
}

/// Whether a secret in hand is offered at an action or agenda event: of that timing, not scored
/// yet, and either its feat was recorded for this event or its position requirement holds now.
pub open spec fn offered_at_event(p: Position, cards: Seq<SecretCard>, scored: Seq<Seq<char>>, when: Timing, feats: Seq<Feat>, alias: Seq<char>) -> bool {
    &&& secret_timing(cards, alias) == when
    &&& !scored.contains(alias)
    &&& (match spec_feat_for(alias) {
        Some(f) => feats.contains(f),
        None => false,
    } || requirement_met(p, alias))
}

/// The secrets in a player's hand they may score at an action or agenda event, in hand order.
/// A status secret is never offered here: it has its own window.
pub open spec fn spec_scoreable_event(p: Position, cards: Seq<SecretCard>, scored: Seq<Seq<char>>, when: Timing, feats: Seq<Feat>) -> Seq<Seq<char>> {
    let i = seat_of(p.state.players@, p.player@);
    if when == Timing::Status || i < 0 {
        Seq::empty()
    } else {
        names(p.state.players@[i].secret_objectives@).filter(|a: Seq<char>| offered_at_event(p, cards, scored, when, feats, a))
    }
}

/// Action- and agenda-timed secrets this player may score now. `feats` are the feats recorded
/// for this player at this very event.
pub fn scoreable_event(p: &Position, cards: &Vec<SecretCard>, scored: &Vec<String>, when: Timing, feats: &Vec<Feat>) -> (open: Vec<String>)
    ensures
        names(open@) == spec_scoreable_event(*p, cards@, names(scored@), when, feats@),
{
    let mut open: Vec<String> = Vec::new();
    if when == Timing::Status {
        assert(names(open@) =~= Seq::<Seq<char>>::empty());
        return open;
    }
    let i = match find_seat(&p.state.players, p.player) {
        Some(i) => i,
        None => {
            assert(names(open@) =~= Seq::<Seq<char>>::empty());
            return open;
        },
    };
    let hand = &p.state.players[i].secret_objectives;
    let ghost all = names(hand@);
    let ghost pred = |a: Seq<char>| offered_at_event(*p, cards@, names(scored@), when, feats@, a);
    let mut k: usize = 0;
    assert(names(open@) =~= all.subrange(0, 0).filter(pred)) by {
        reveal_with_fuel(Seq::<Seq<char>>::filter, 1);
        assert(all.subrange(0, 0) =~= Seq::<Seq<char>>::empty());
    }
    while k < hand.len()
        invariant
            k <= hand@.len(),
            all == names(hand@),
            pred == (|a: Seq<char>| offered_at_event(*p, cards@, names(scored@), when, feats@, a)),
            names(open@) == all.subrange(0, k as int).filter(pred),
        decreases hand@.len() - k,
    {
        proof {
            reveal_with_fuel(Seq::<Seq<char>>::filter, 1);
            assert(all.subrange(0, k + 1).drop_last() =~= all.subrange(0, k as int));
            assert(all.subrange(0, k + 1).last() == hand@[k as int]@);
        }
        let alias = hand[k].as_str();
        if timing_of(cards, alias) == when && !contains_name(scored, alias) {
            let by_feat = match feat_for(alias) {
                Some(f) => holds_feat(feats, f),
                None => false,
            };
            if by_feat || requirement_met_exec(p, alias) {
                let ghost before = names(open@);
                open.push(alias.to_string());
                assert(names(open@) =~= before.push(alias@));
            }
        }
        k = k + 1;
    }
    assert(all.subrange(0, k as int) =~= all);
    open
}

/// The name that sorts first in a list that is not empty.
pub open spec fn least(s: Seq<Seq<char>>) -> Seq<char> {
    choose|x: Seq<char>| s.contains(x) && forall|y: Seq<char>| #[trigger] s.contains(y) ==> !name_lt(y, x)
}

/// Remove the entry that sorts first, returning it.
fn remove_least(list: &mut Vec<String>) -> (removed: String)
    requires
        old(list)@.len() > 0,
    ensures
        removed@ == least(names(old(list)@)),
        names(final(list)@) == without_first(names(old(list)@), removed@),
        final(list)@.len() == old(list)@.len() - 1,
{
    let mut at: usize = 0;
    let mut k: usize = 1;
    proof {
        lemma_name_lt_irreflexive(list@[0]@);
    }
    while k < list.len()
        invariant
            1 <= k <= list@.len(),
            at < k,
            forall|j: int| 0 <= j < k ==> !name_lt(#[trigger] list@[j]@, list@[at as int]@),
        decreases list@.len() - k,
    {
        if str_lt(list[k].as_str(), list[at].as_str()) {
            proof {
                assert forall|j: int| 0 <= j < k + 1 implies !name_lt(#[trigger] list@[j]@, list@[k as int]@) by {
                    if j < k {
                        if name_lt(list@[j]@, list@[k as int]@) {
                            lemma_name_lt_transitive(list@[j]@, list@[k as int]@, list@[at as int]@);
                        }
                    } else {
                        lemma_name_lt_irreflexive(list@[k as int]@);
                    }
                }
            }
            at = k;
        }
        k = k + 1;
    }
    let name = list[at].clone();
    proof {
        let all = names(list@);
        assert(all[at as int] == name@);
        assert forall|y: Seq<char>| #[trigger] all.contains(y) implies !name_lt(y, name@) by {
            let j = choose|j: int| 0 <= j < all.len() && all[j] == y;
            assert(!name_lt(list@[j]@, list@[at as int]@));
        }
        let x = least(all);
        assert(all.contains(name@));
        assert(all.contains(x) && forall|y: Seq<char>| #[trigger] all.contains(y) ==> !name_lt(y, x));
        lemma_name_lt_total(x, name@);
    }
    let ghost all = names(list@);
    let removed = remove_first(list, name.as_str());
    proof {
        broadcast use vstd::multiset::group_multiset_axioms;
        assert(all.contains(name@));
        vstd::seq_lib::to_multiset_contains(all, name@);
        vstd::seq_lib::to_multiset_len(all);
        vstd::seq_lib::to_multiset_len(names(list@));
        assert(vstd::multiset::Multiset::singleton(name@).subset_of(all.to_multiset()));
        assert(names(list@).len() == list@.len());
    }
    name
}

/// Two fragments purged, those whose kinds sort first.
pub open spec fn purge_two(fragments: Seq<Seq<char>>) -> Seq<Seq<char>> {
    let once = without_first(fragments, least(fragments));
    without_first(once, least(once))
}

/// Whether a player can pay what scoring a secret costs beyond its requirement: Destroy
/// Heretical Works purges two relic fragments and Form a Spy Network discards five action cards.
pub open spec fn price_met(seat: Seat, alias: Seq<char>) -> bool {
    if alias == "dhw"@ {
        seat.relic_fragments@.len() >= 2
    } else if alias == "fsn"@ {
        seat.action_cards@.len() >= 5
    } else {
        true
    }
}

/// The points a secret is worth.
pub open spec fn secret_points(cards: Seq<SecretCard>, alias: Seq<char>) -> int {
    match secret_card(cards, alias) {
        Some(c) => match c.points {
            Some(points) => if i32::MIN <= points <= i32::MAX {
                points as int
            } else {
                1
            },
            None => 1,
        },
        None => 1,
    }
}

fn points_of(cards: &Vec<SecretCard>, alias: &str) -> (points: i32)
    ensures
        points == secret_points(cards@, alias@),
{
    match find_card(cards, alias) {
        Some(k) => match cards[k].points {
            Some(points) => if i32::MIN as i64 <= points && points <= i32::MAX as i64 {
                points as i32
            } else {
                1
            },
            None => 1,
        },
        None => 1,
    }
}

/// Remove every entry equal to `name`.
fn remove_all(list: &mut Vec<String>, name: &str)
    ensures
        names(final(list)@) == names(old(list)@).filter(|a: Seq<char>| a != name@),
{
    let ghost all = names(list@);
    let ghost pred = |a: Seq<char>| a != name@;
    let mut kept: Vec<String> = Vec::new();
    let mut k: usize = 0;
    assert(names(kept@) =~= all.subrange(0, 0).filter(pred)) by {
        reveal_with_fuel(Seq::<Seq<char>>::filter, 1);
        assert(all.subrange(0, 0) =~= Seq::<Seq<char>>::empty());
    }
    while k < list.len()
        invariant
            k <= list@.len(),
            list@ == old(list)@,
            all == names(old(list)@),
            pred == (|a: Seq<char>| a != name@),
            names(kept@) == all.subrange(0, k as int).filter(pred),
        decreases list@.len() - k,
    {
        proof {
            reveal_with_fuel(Seq::<Seq<char>>::filter, 1);
            assert(all.subrange(0, k + 1).drop_last() =~= all.subrange(0, k as int));
            assert(all.subrange(0, k + 1).last() == list@[k as int]@);
        }
        if !str_eq(list[k].as_str(), name) {
            let ghost before = names(kept@);
            kept.push(list[k].clone());
            assert(names(kept@) =~= before.push(list@[k as int]@));
        }
        k = k + 1;
    }
    assert(all.subrange(0, k as int) =~= all);
    *list = kept;
}

/// The seat after scoring a secret: it leaves the hand, the price is paid, and the points are
/// added up to the victory target.
pub open spec fn scored_seat(before: Seat, after: Seat, cards: Seq<SecretCard>, alias: Seq<char>, victory_target: int) -> bool {
    let points = secret_points(cards, alias);
    let total = before.victory_points + points;
    &&& names(after.secret_objectives@) == names(before.secret_objectives@).filter(|a: Seq<char>| a != alias)
    &&& names(after.relic_fragments@) == if alias == "dhw"@ {
        purge_two(names(before.relic_fragments@))
    } else {
        names(before.relic_fragments@)
    }
    &&& names(after.action_cards@) == if alias == "fsn"@ {
        names(before.action_cards@).subrange(5, before.action_cards@.len() as int)
    } else {
        names(before.action_cards@)
    }
    &&& after.victory_points == if total < victory_target { total } else { victory_target }
    &&& after == (Seat {
        secret_objectives: after.secret_objectives,
        relic_fragments: after.relic_fragments,
        action_cards: after.action_cards,
        victory_points: after.victory_points,
        ..before
    })
}

/// 61.18: reveal a secret in hand, pay its price, take the points (up to `victory_target`), and
/// it leaves the hand and joins `scored`, the objectives this player has scored. A secret not in
/// hand, or whose price cannot be met, is not scored, and nothing changes.
pub fn award(
    state: &mut GameState,
    cards: &Vec<SecretCard>,
    scored: &mut Vec<String>,
    player: &str,
    alias: &str,
    victory_target: i32,
) -> (points: Option<i32>)
    requires
        ({
            let i = seat_of(old(state).players@, player@);
            i >= 0 && names(old(state).players@[i].secret_objectives@).contains(alias@) && price_met(old(state).players@[i], alias@)
                ==> i32::MIN <= old(state).players@[i].victory_points + secret_points(cards@, alias@) <= i32::MAX
        }),
    ensures
        ({
            let i = seat_of(old(state).players@, player@);
            let able = i >= 0 && names(old(state).players@[i].secret_objectives@).contains(alias@) && price_met(
                old(state).players@[i],
                alias@,
            );
            &&& points is Some <==> able
            &&& !able ==> *final(state) == *old(state) && final(scored)@ == old(scored)@
            &&& able ==> {
                &&& points == Some(secret_points(cards@, alias@) as i32)
                &&& names(final(scored)@) == names(old(scored)@).push(alias@)
                &&& final(state).players@.len() == old(state).players@.len()
                &&& forall|j: int| 0 <= j < old(state).players@.len() && j != i ==> final(state).players@[j] == old(state).players@[j]
                &&& scored_seat(old(state).players@[i], final(state).players@[i], cards@, alias@, victory_target as int)
                &&& *final(state) == (GameState { players: final(state).players, ..*old(state) })
            }
        }),
{
    let i = match find_seat(&state.players, player) {
        Some(i) => i,
        None => return None,
    };
    if !contains_name(&state.players[i].secret_objectives, alias) {
        return None;
    }
    proof {
        reveal_strlit("dhw");
        reveal_strlit("fsn");
        assert("fsn"@[0] != "dhw"@[0]);
        assert("fsn"@ != "dhw"@);
    }
    let dhw = str_eq(alias, "dhw");
    let fsn = !dhw && str_eq(alias, "fsn");
    if dhw && state.players[i].relic_fragments.len() < 2 {
        return None;
    }
    if fsn && state.players[i].action_cards.len() < 5 {
        return None;
    }
    let points = points_of(cards, alias);
    let mut seat = state.players.remove(i);
    let ghost before = seat;
    if dhw {
        let first = remove_least(&mut seat.relic_fragments);
        let second = remove_least(&mut seat.relic_fragments);
    }
    if fsn {
        let mut rest: Vec<String> = Vec::new();
        let mut k: usize = 5;
        assert(names(rest@) =~= names(before.action_cards@).subrange(5, 5));
        while k < seat.action_cards.len()
            invariant
                5 <= k <= seat.action_cards@.len(),
                seat.action_cards@ == before.action_cards@,
                names(rest@) == names(before.action_cards@).subrange(5, k as int),
            decreases seat.action_cards@.len() - k,
        {
            let ghost prior = names(rest@);
            let card = seat.action_cards[k].clone();
            rest.push(card);
            assert(names(rest@) =~= prior.push(before.action_cards@[k as int]@));
            assert(names(before.action_cards@).subrange(5, k + 1) =~= names(before.action_cards@).subrange(5, k as int).push(
                before.action_cards@[k as int]@,
            ));
            k = k + 1;
        }
        seat.action_cards = rest;
    }
    remove_all(&mut seat.secret_objectives, alias);
    let total = seat.victory_points + points;
    seat.victory_points = if total < victory_target {
        total
    } else {
        victory_target
    };
    state.players.insert(i, seat);
    scored.push(alias.to_string());
    proof {
        assert(names(scored@) =~= names(old(scored)@).push(alias@));
    }
    Some(points)
}

/// How many of a player's scored objectives are secrets (45.4 counts them).
pub open spec fn spec_scored_count(scored: Seq<Seq<char>>, cards: Seq<SecretCard>) -> int
    decreases scored.len(),
{
    if scored.len() == 0 {
        0
    } else {
        spec_scored_count(scored.drop_last(), cards) + if secret_card(cards, scored.last()) is Some {
            1int
        } else {
            0int
        }
    }
}

/// How many of this player's scored objectives were secrets. `scored` lists the objectives the
/// player has scored.
pub fn scored_count(scored: &Vec<String>, cards: &Vec<SecretCard>) -> (count: usize)
    ensures
        count == spec_scored_count(names(scored@), cards@),
{
    let mut count: usize = 0;
    let mut k: usize = 0;
    while k < scored.len()
        invariant
            k <= scored@.len(),
            count <= k,
            count == spec_scored_count(names(scored@.subrange(0, k as int)), cards@),
        decreases scored@.len() - k,
    {
        assert(names(scored@.subrange(0, k + 1)).drop_last() =~= names(scored@.subrange(0, k as int)));
        assert(names(scored@.subrange(0, k + 1)).last() == scored@[k as int]@);
        if find_card(cards, scored[k].as_str()).is_some() {
            count = count + 1;
        }
        k = k + 1;
    }
    assert(scored@.subrange(0, k as int) =~= scored@);
    count
}

/// Secrets in a player's hand, or none for a player not at the table.
pub open spec fn hand_size(state: GameState, player: Seq<char>) -> int {
    let i = seat_of(state.players@, player);
    if i < 0 {
        0
    } else {
        state.players@[i].secret_objectives@.len() as int
    }
}

/// Secrets in hand plus secrets already scored (45.4).
pub fn held_count(state: &GameState, scored: &Vec<String>, cards: &Vec<SecretCard>, player: &str) -> (count: u128)
    ensures
        count == hand_size(*state, player@) + spec_scored_count(names(scored@), cards@),
{
    let in_hand: usize = match find_seat(&state.players, player) {
        Some(i) => state.players[i].secret_objectives.len(),
        None => 0,
    };
    in_hand as u128 + scored_count(scored, cards) as u128
}

/// The table and the deck after the top secret of `deck` is drawn: an empty deck draws
/// nothing; otherwise the card leaves the deck and joins the player's hand, where they sit at
/// the table.
pub open spec fn drew_secret(before: GameState, after: GameState, deck: Seq<String>, rest: Seq<String>, player: Seq<char>) -> bool {
    if deck.len() == 0 {
        rest == deck && after == before
    } else {
        let i = seat_of(before.players@, player);
        &&& names(rest) == names(deck).drop_first()
        &&& i < 0 ==> after == before
        &&& i >= 0 ==> {
            &&& after.players@ == before.players@.update(i, Seat { secret_objectives: after.players@[i].secret_objectives, ..before.players@[i] })
            &&& names(after.players@[i].secret_objectives@) == names(before.players@[i].secret_objectives@).push(deck[0]@)
            &&& after == (GameState { players: after.players, ..before })
        }
    }
}

/// Draw the top secret of `deck` into a player's hand. An empty deck draws nothing; a player
/// not at the table still takes the card off the deck. Over the hand limit, the player then
/// returns one (see [`return_choice`] and [`return_to_deck`]).
pub fn draw(state: &mut GameState, deck: &mut Vec<String>, player: &str) -> (drawn: Option<String>)
    ensures
        drew_secret(*old(state), *final(state), old(deck)@, final(deck)@, player@),
        old(deck)@.len() == 0 ==> drawn is None && final(deck)@ == old(deck)@ && *final(state) == *old(state),
        old(deck)@.len() > 0 ==> {
            let i = seat_of(old(state).players@, player@);
            &&& drawn is Some && drawn->Some_0@ == old(deck)@[0]@
            &&& names(final(deck)@) == names(old(deck)@).drop_first()
            &&& i < 0 ==> *final(state) == *old(state)
            &&& i >= 0 ==> {
                &&& final(state).players@.len() == old(state).players@.len()
                &&& forall|j: int| 0 <= j < old(state).players@.len() && j != i ==> final(state).players@[j] == old(state).players@[j]
                &&& names(final(state).players@[i].secret_objectives@) == names(old(state).players@[i].secret_objectives@).push(
                    old(deck)@[0]@,
                )
                &&& final(state).players@[i] == (Seat {
                    secret_objectives: final(state).players@[i].secret_objectives,
                    ..old(state).players@[i]
                })
                &&& *final(state) == (GameState { players: final(state).players, ..*old(state) })
            }
        },
{
    if deck.len() == 0 {
        return None;
    }
    let ghost before = names(deck@);
    let top = deck.remove(0);
    assert(names(deck@) =~= before.drop_first());
    match find_seat(&state.players, player) {
        Some(i) => {
            let mut seat = state.players.remove(i);
            let ghost hand = names(seat.secret_objectives@);
            seat.secret_objectives.push(top.clone());
            assert(names(seat.secret_objectives@) =~= hand.push(top@));
            let ghost players = state.players@;
            state.players.insert(i, seat);
            assert(state.players@ =~= old(state).players@.update(
                i as int,
                Seat { secret_objectives: state.players@[i as int].secret_objectives, ..old(state).players@[i as int] },
            ));
        },
        None => {},
    }
    Some(top)
}

/// 45.4: a player over the hand limit returns an unscored secret to the deck: it leaves their
/// hand and goes to the bottom of the deck.
pub fn return_to_deck(state: &mut GameState, deck: &mut Vec<String>, player: &str, chosen: &str)
    ensures
        names(final(deck)@) == names(old(deck)@).push(chosen@),
        seat_of(old(state).players@, player@) < 0 ==> *final(state) == *old(state),
        seat_of(old(state).players@, player@) >= 0 ==> {
            let i = seat_of(old(state).players@, player@);
            &&& final(state).players@.len() == old(state).players@.len()
            &&& forall|j: int| 0 <= j < old(state).players@.len() && j != i ==> final(state).players@[j] == old(state).players@[j]
            &&& names(final(state).players@[i].secret_objectives@) == names(old(state).players@[i].secret_objectives@).filter(
                |a: Seq<char>| a != chosen@,
            )
            &&& final(state).players@[i] == (Seat {
                secret_objectives: final(state).players@[i].secret_objectives,
                ..old(state).players@[i]
            })
            &&& *final(state) == (GameState { players: final(state).players, ..*old(state) })
        },
{
    match find_seat(&state.players, player) {
        Some(i) => {
            let mut seat = state.players.remove(i);
            remove_all(&mut seat.secret_objectives, chosen);
            state.players.insert(i, seat);
        },
        None => {},
    }
    let ghost before = names(deck@);
    deck.push(chosen.to_string());
    assert(names(deck@) =~= before.push(chosen@));
}

/// Secret objectives in the catalogue with no registered requirement, in catalogue order.
pub open spec fn spec_unimplemented(cards: Seq<SecretCard>) -> Seq<Seq<char>> {
    cards.map_values(|c: SecretCard| c.alias@).filter(|a: Seq<char>| !spec_registered_aliases().contains(a))
}

/// Secret objectives in the catalogue that have no registered requirement.
pub fn unimplemented(cards: &Vec<SecretCard>) -> (missing: Vec<String>)
    ensures
        names(missing@) == spec_unimplemented(cards@),
{
    let known = registered_aliases();
    let ghost all = cards@.map_values(|c: SecretCard| c.alias@);
    let ghost pred = |a: Seq<char>| !spec_registered_aliases().contains(a);
    let mut missing: Vec<String> = Vec::new();
    let mut k: usize = 0;
    assert(names(missing@) =~= all.subrange(0, 0).filter(pred)) by {
        reveal_with_fuel(Seq::<Seq<char>>::filter, 1);
        assert(all.subrange(0, 0) =~= Seq::<Seq<char>>::empty());
    }
    while k < cards.len()
        invariant
            k <= cards@.len(),
            all == cards@.map_values(|c: SecretCard| c.alias@),
            pred == (|a: Seq<char>| !spec_registered_aliases().contains(a)),
            known@.map_values(|a: &str| a@) == spec_registered_aliases(),
            names(missing@) == all.subrange(0, k as int).filter(pred),
        decreases cards@.len() - k,
    {
        proof {
            reveal_with_fuel(Seq::<Seq<char>>::filter, 1);
            assert(all.subrange(0, k + 1).drop_last() =~= all.subrange(0, k as int));
            assert(all.subrange(0, k + 1).last() == cards@[k as int].alias@);
        }
        let alias = cards[k].alias.as_str();
        let mut found = false;
        let mut j: usize = 0;
        while j < known.len()
            invariant
                j <= known@.len(),
                known@.map_values(|a: &str| a@) == spec_registered_aliases(),
                found == exists|m: int| 0 <= m < j && (#[trigger] known@[m])@ == alias@,
            decreases known@.len() - j,
        {
            if str_eq(known[j], alias) {
                found = true;
            }
            j = j + 1;
        }
        proof {
            let reg = spec_registered_aliases();
            if reg.contains(alias@) {
                let m = choose|m: int| 0 <= m < reg.len() && reg[m] == alias@;
                assert(known@[m]@ == reg[m]);
            }
            if found {
                let m = choose|m: int| 0 <= m < j && (#[trigger] known@[m])@ == alias@;
                assert(reg[m] == known@[m]@);
            }
        }
        if !found {
            let ghost before = names(missing@);
            missing.push(alias.to_string());
            assert(names(missing@) =~= before.push(alias@));
        }
        k = k + 1;
    }
    assert(all.subrange(0, k as int) =~= all);
    missing
}

/// What one step of the hand limit (45.4) comes to.
#[derive(Debug)]
pub enum HandLimitStep {
    /// Within the limit, or nothing left that can be given back: nothing to do.
    Within,
    /// Over it, with a choice of secrets to give back: put this to the player.
    Ask(Choice),
    /// Over it: this secret went back to the bottom of the deck.
    Returned(String),
}

/// The hand in a player's seat, or none for a player not at the table.
pub open spec fn hand_of(state: GameState, player: Seq<char>) -> Seq<Seq<char>> {
    let i = seat_of(state.players@, player);
    if i < 0 { Seq::empty() } else { names(state.players@[i].secret_objectives@) }
}

/// The table and deck after a secret goes back: it leaves the player's hand and joins the
/// bottom of the deck.
pub open spec fn gave_back(before: GameState, after: GameState, deck: Seq<String>, rest: Seq<String>, player: Seq<char>, chosen: Seq<char>) -> bool {
    let i = seat_of(before.players@, player);
    &&& names(rest) == names(deck).push(chosen)
    &&& i < 0 ==> after == before
    &&& i >= 0 ==> {
        &&& after.players@.len() == before.players@.len()
        &&& forall|j: int| 0 <= j < before.players@.len() && j != i ==> after.players@[j] == before.players@[j]
        &&& names(after.players@[i].secret_objectives@) == names(before.players@[i].secret_objectives@).filter(
            |a: Seq<char>| a != chosen,
        )
        &&& after.players@[i] == (Seat { secret_objectives: after.players@[i].secret_objectives, ..before.players@[i] })
        &&& after == (GameState { players: after.players, ..before })
    }
}

/// One step of the hand limit. Within it, or with every secret scored, there is nothing to do.
/// Over it with one unscored secret, that one goes back without asking; with several, the
/// player is asked which, and the answer, once given, sends that one back. An answer naming
/// nothing offered changes nothing. A driver steps until `Within`.
#[verifier::rlimit(80)]
pub fn hand_limit_step(
    state: &mut GameState,
    deck: &mut Vec<String>,
    scored: &Vec<String>,
    cards: &Vec<SecretCard>,
    player: &str,
    answer: Option<ChoiceOption>,
) -> (result: Result<HandLimitStep, IllegalChoice>)
    ensures
        ({
            let hand = hand_of(*old(state), player@);
            let over = hand_size(*old(state), player@) + spec_scored_count(names(scored@), cards@) > HAND_LIMIT;
            let unchanged = *final(state) == *old(state) && final(deck)@ == old(deck)@;
            match result {
                Ok(HandLimitStep::Within) => (!over || hand.len() == 0) && unchanged,
                Ok(HandLimitStep::Ask(c)) => {
                    &&& over && hand.len() > 1 && answer is None && unchanged
                    &&& c.player@ == player@
                    &&& option_views(c.options@) == hand.map_values(|a: Seq<char>| OptionView { id: a, kind: RETURN_KIND@, label: "return "@ + a })
                },
                Ok(HandLimitStep::Returned(chosen)) => {
                    &&& over && hand.len() > 0
                    &&& hand.len() == 1 ==> chosen@ == hand[0]
                    &&& hand.len() > 1 ==> (answer matches Some(a) && a@.kind == RETURN_KIND@ && a@.id == chosen@ && hand.contains(chosen@))
                    &&& gave_back(*old(state), *final(state), old(deck)@, final(deck)@, player@, chosen@)
                },
                Err(illegal) => {
                    &&& over && hand.len() > 1 && unchanged
                    &&& (answer matches Some(a) && !(a@.kind == RETURN_KIND@ && hand.contains(a@.id)))
                    &&& illegal.player@ == player@
                },
            }
        }),
{
    let count = held_count(state, scored, cards, player);
    let i = match find_seat(&state.players, player) {
        Some(i) => i,
        None => return Ok(HandLimitStep::Within),
    };
    let n = state.players[i].secret_objectives.len();
    if count <= HAND_LIMIT as u128 || n == 0 {
        return Ok(HandLimitStep::Within);
    }
    if n == 1 {
        let chosen = state.players[i].secret_objectives[0].clone();
        return_to_deck(state, deck, player, chosen.as_str());
        return Ok(HandLimitStep::Returned(chosen));
    }
    let hand = clone_hand(&state.players[i].secret_objectives);
    let choice = return_choice(player, &hand).unwrap();
    proof {
        assert(option_views(choice.options@) =~= hand_of(*old(state), player@).map_values(
            |a: Seq<char>| OptionView { id: a, kind: RETURN_KIND@, label: "return "@ + a },
        ));
    }
    let ans = match answer {
        Some(a) => a,
        None => return Ok(HandLimitStep::Ask(choice)),
    };
    match validate(&choice, ans) {
        Ok(option) => {
            let chosen = option.id;
            proof {
                let k = first_named(choice.options@, ans@);
                assert(choice.options@[k]@.id == hand@[k]@);
                assert(hand_of(*old(state), player@)[k] == chosen@);
            }
            return_to_deck(state, deck, player, chosen.as_str());
            Ok(HandLimitStep::Returned(chosen))
        },
        Err(illegal) => {
            proof {
                if ans@.kind == RETURN_KIND@ && hand_of(*old(state), player@).contains(ans@.id) {
                    let k = choose|k: int| 0 <= k < hand@.len() && hand_of(*old(state), player@)[k] == ans@.id;
                    assert(crate::choice::names(choice.options@, k, ans@));
                }
            }
            Err(illegal)
        },
    }
}

fn clone_hand(hand: &Vec<String>) -> (copy: Vec<String>)
    ensures
        names(copy@) == names(hand@),
{
    let mut copy: Vec<String> = Vec::new();
    let mut k: usize = 0;
    while k < hand.len()
        invariant
            k <= hand@.len(),
            names(copy@) == names(hand@.subrange(0, k as int)),
        decreases hand@.len() - k,
    {
        let ghost was = names(copy@);
        copy.push(hand[k].clone());
        assert(names(copy@) =~= was.push(hand@[k as int]@));
        assert(names(hand@.subrange(0, k + 1)) =~= names(hand@.subrange(0, k as int)).push(hand@[k as int]@));
        k = k + 1;
    }
    assert(hand@.subrange(0, k as int) =~= hand@);
    copy
}

} // verus!
