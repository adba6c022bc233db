//! The pinned random source.
//!
//! Everything random in a game comes from here, so that a game is reproducible from its seed and
//! its decision log together. Each purpose draws from its own stream, seeded by hashing the game
//! seed together with the domain name, so consuming from one stream never moves another.

pub mod domain;

use rand::{Rng, SeedableRng};
use rand_chacha::ChaCha8Rng;
use sha2::{Digest, Sha256};
use vstd::prelude::*;
use vstd::string::StringSliceAdditionalSpecFns;

use crate::text::str_eq;

verus! {

broadcast use vstd::seq_lib::group_to_multiset_ensures, vstd::multiset::group_multiset_axioms;

/// The ChaCha generator with eight rounds, from `rand_chacha`.
#[verifier::external_type_specification]
#[verifier::external_body]
pub struct ExChaCha8Rng(ChaCha8Rng);

/// The SHA-256 digest of a byte string.
pub uninterp spec fn sha256(bytes: Seq<u8>) -> Seq<u8>;

/// `sha2::Sha256::digest`: the 32-byte SHA-256 digest of `bytes`.
#[verifier::external_body]
fn sha256_digest(bytes: &[u8]) -> (digest: [u8; 32])
    ensures
        digest@ == sha256(bytes@),
{
    Sha256::digest(bytes).into()
}

/// The ChaCha8 generator keyed by a 32-byte seed, at the start of its stream.
pub uninterp spec fn keyed_chacha8(seed: Seq<u8>) -> ChaCha8Rng;

/// `rand_chacha::ChaCha8Rng::from_seed`: a generator keyed by a 32-byte seed. It is a function of
/// the seed alone (the key is the seed, the block counter and stream start at zero), which is all
/// that is claimed of it.
#[verifier::external_body]
fn chacha_from_seed(seed: [u8; 32]) -> (rng: ChaCha8Rng)
    ensures
        rng == keyed_chacha8(seed@),
{
    ChaCha8Rng::from_seed(seed)
}

/// What `rand::Rng::random_range` over `low..=high` on `u32` gives from a ChaCha8 generator:
/// the value drawn and the generator after the draw.
pub uninterp spec fn chacha8_range_u32(rng: ChaCha8Rng, low: u32, high: u32) -> (u32, ChaCha8Rng);

/// What `rand::Rng::random_range` over `low..=high` on `usize` gives from a ChaCha8 generator:
/// the value drawn and the generator after the draw.
pub uninterp spec fn chacha8_range_usize(rng: ChaCha8Rng, low: usize, high: usize) -> (
    usize,
    ChaCha8Rng,
);

/// `rand::Rng::random_range` over `low..=high` on `u32`: a value between the bounds, inclusive.
/// The value and the generator's next state are a function of the generator and the bounds,
/// which is what the name says; which value comes out is not stated.
#[verifier::external_body]
fn draw_u32(rng: &mut ChaCha8Rng, low: u32, high: u32) -> (drawn: u32)
    requires
        low <= high,
    ensures
        (drawn, *final(rng)) == chacha8_range_u32(*old(rng), low, high),
        low <= drawn <= high,
{
    rng.random_range(low..=high)
}

/// `rand::Rng::random_range` over `low..=high` on `usize`: as `draw_u32`, for indices.
#[verifier::external_body]
fn draw_usize(rng: &mut ChaCha8Rng, low: usize, high: usize) -> (drawn: usize)
    requires
        low <= high,
    ensures
        (drawn, *final(rng)) == chacha8_range_usize(*old(rng), low, high),
        low <= drawn <= high,
{
    rng.random_range(low..=high)
}

/// Fisher-Yates from the back over the first `i` items: exchange item `i - 1` with a drawn
/// index in `0..=i - 1`, then go on with the first `i - 1`. The shuffled items and the
/// generator after the last draw.
pub open spec fn fisher_yates<T>(items: Seq<T>, rng: ChaCha8Rng, i: nat) -> (Seq<T>, ChaCha8Rng)
    decreases i,
{
    if i <= 1 {
        (items, rng)
    } else {
        let k = (i - 1) as nat;
        let (j, next) = chacha8_range_usize(rng, 0, k as usize);
        fisher_yates(items.update(k as int, items[j as int]).update(j as int, items[k as int]), next, k)
    }
}

/// `256^k`.
pub open spec fn pow256(k: nat) -> nat
    decreases k,
{
    if k == 0 { 1 } else { 256 * pow256((k - 1) as nat) }
}

/// The eight little-endian bytes of a `u64`.
pub open spec fn le_bytes(n: u64) -> Seq<u8> {
    Seq::new(8, |k: int| ((n as nat / pow256(k as nat)) % 256) as u8)
}

/// The seed for one domain: `SHA-256(seed_le_bytes || domain)`.
pub open spec fn domain_seed(seed: u64, domain: Seq<u8>) -> Seq<u8> {
    sha256(le_bytes(seed) + domain)
}

/// A domain's stream: the one it has, or a fresh generator keyed by its seed.
pub open spec fn fresh_or(state: Option<ChaCha8Rng>, seed: Seq<u8>) -> ChaCha8Rng {
    match state {
        Some(s) => s,
        None => keyed_chacha8(seed),
    }
}

/// Lexicographic order on names, character by character (which is the byte order of their
/// UTF-8 encodings, the order `String` sorts in).
pub open spec fn name_lt(a: Seq<char>, b: Seq<char>) -> bool
    decreases a.len(),
{
    if b.len() == 0 {
        false
    } else if a.len() == 0 {
        true
    } else if a[0] != b[0] {
        (a[0] as int) < (b[0] as int)
    } else {
        name_lt(a.drop_first(), b.drop_first())
    }
}

/// Where a name stands in a list that holds it.
pub open spec fn index_of(names: Seq<Seq<char>>, d: Seq<char>) -> int {
    choose|k: int| 0 <= k < names.len() && names[k] == d
}

/// Whether names strictly increase.
pub open spec fn increasing(names: Seq<Seq<char>>) -> bool {
    forall|i: int, j: int| 0 <= i < j < names.len() ==> name_lt(names[i], names[j])
}

pub proof fn lemma_name_lt_irreflexive(a: Seq<char>)
    ensures
        !name_lt(a, a),
    decreases a.len(),
{
    if a.len() > 0 {
        assert(a.drop_first() =~= a.drop_first());
        lemma_name_lt_irreflexive(a.drop_first());
    }
}

pub proof fn lemma_name_lt_total(a: Seq<char>, b: Seq<char>)
    ensures
        a != b ==> name_lt(a, b) || name_lt(b, a),
        !(name_lt(a, b) && name_lt(b, a)),
    decreases a.len(),
{
    if a.len() > 0 && b.len() > 0 && a[0] == b[0] {
        lemma_name_lt_total(a.drop_first(), b.drop_first());
        if a.drop_first() == b.drop_first() {
            assert(a =~= seq![a[0]] + a.drop_first());
            assert(b =~= seq![b[0]] + b.drop_first());
        }
    } else if a.len() == 0 && b.len() == 0 {
        assert(a =~= b);
    }
}

pub proof fn lemma_name_lt_transitive(a: Seq<char>, b: Seq<char>, c: Seq<char>)
    requires
        name_lt(a, b),
        name_lt(b, c),
    ensures
        name_lt(a, c),
    decreases a.len(),
{
    if a.len() > 0 && b.len() > 0 && c.len() > 0 && a[0] == b[0] && b[0] == c[0] {
        lemma_name_lt_transitive(a.drop_first(), b.drop_first(), c.drop_first());
    }
}

/// Whether `a` sorts before `b`.
pub fn str_lt(a: &str, b: &str) -> (less: bool)
    ensures
        less == name_lt(a@, b@),
{
    let n = a.unicode_len();
    let m = b.unicode_len();
    let mut i: usize = 0;
    assert(a@.skip(0) =~= a@ && b@.skip(0) =~= b@);
    while i < n && i < m
        invariant
            n == a@.len(),
            m == b@.len(),
            i <= n,
            i <= m,
            forall|k: int| 0 <= k < i ==> a@[k] == b@[k],
            name_lt(a@, b@) == name_lt(a@.skip(i as int), b@.skip(i as int)),
        decreases n - i,
    {
        let x = a.get_char(i);
        let y = b.get_char(i);
        assert(a@.skip(i as int)[0] == x && b@.skip(i as int)[0] == y);
        if x != y {
            return (x as u32) < (y as u32);
        }
        assert(a@.skip(i as int).drop_first() =~= a@.skip(i + 1));
        assert(b@.skip(i as int).drop_first() =~= b@.skip(i + 1));
        i = i + 1;
    }
    i < m
}

/// A seeded random source, split into independent streams by purpose.
#[derive(Debug)]
pub struct GameRng {
    seed: u64,
    /// One stream per domain, in domain order.
    streams: Vec<(String, ChaCha8Rng)>,
}

impl GameRng {
    /// The domains drawn from so far, in order.
    pub closed spec fn domains(&self) -> Seq<Seq<char>> {
        self.streams@.map_values(|entry: (String, ChaCha8Rng)| entry.0@)
    }

    /// The game seed.
    pub closed spec fn spec_seed(&self) -> u64 {
        self.seed
    }

    /// The stream a domain draws from, if it has been drawn from.
    pub closed spec fn stream_state(&self, d: Seq<char>) -> Option<ChaCha8Rng> {
        if self.domains().contains(d) {
            Some(self.streams@[index_of(self.domains(), d)].1)
        } else {
            None
        }
    }

    /// Every other domain's stream is where it was.
    pub open spec fn others_unmoved(&self, before: &Self, d: Seq<char>) -> bool {
        forall|other: Seq<char>| other != d ==> #[trigger] self.stream_state(other) == before.stream_state(other)
    }

    proof fn lemma_stream_at(&self, k: int)
        requires
            self.wf(),
            0 <= k < self.domains().len(),
        ensures
            self.stream_state(self.domains()[k]) == Some(self.streams@[k].1),
    {
        let d = self.domains()[k];
        assert(0 <= k < self.domains().len() && self.domains()[k] == d);
        assert(self.domains().contains(d));
        let j = index_of(self.domains(), d);
        assert(0 <= j < self.domains().len() && self.domains()[j] == d);
        if j != k {
            if j < k {
                assert(name_lt(self.domains()[j], self.domains()[k]));
            } else {
                assert(name_lt(self.domains()[k], self.domains()[j]));
            }
            lemma_name_lt_irreflexive(d);
        }
        assert(j == k);
    }

    /// `after` is this source with the stream at `k` replaced by `s`.
    spec fn replaced_by(&self, after: Self, k: int, s: ChaCha8Rng) -> bool {
        &&& after.seed == self.seed
        &&& after.streams@ == self.streams@.update(k, (self.streams@[k].0, s))
    }

    proof fn lemma_replace_stream(&self, after: Self, k: int, s: ChaCha8Rng)
        requires
            self.wf(),
            0 <= k < self.domains().len(),
            self.replaced_by(after, k, s),
        ensures
            after.wf(),
            after.domains() == self.domains(),
            after.stream_state(self.domains()[k]) == Some(s),
            after.others_unmoved(self, self.domains()[k]),
    {
        assert(after.domains() =~= self.domains());
        after.lemma_stream_at(k);
        assert forall|other: Seq<char>| other != self.domains()[k] implies #[trigger] after.stream_state(
            other,
        ) == self.stream_state(other) by {
            if self.domains().contains(other) {
                let j = choose|j: int| 0 <= j < self.domains().len() && self.domains()[j] == other;
                self.lemma_stream_at(j);
                after.lemma_stream_at(j);
            }
        }
    }

    proof fn lemma_no_stream(&self, d: Seq<char>)
        requires
            self.domains() == Seq::<Seq<char>>::empty(),
        ensures
            self.stream_state(d) is None,
    {
        assert(!self.domains().contains(d));
    }

    /// Domains are kept in strictly increasing order, so each has one stream.
    pub closed spec fn wf(&self) -> bool {
        increasing(self.domains())
    }

    pub fn new(seed: u64) -> (rng: Self)
        ensures
            rng.wf(),
            rng.spec_seed() == seed,
            rng.domains() == Seq::<Seq<char>>::empty(),
    {
        let rng = GameRng { seed, streams: Vec::new() };
        assert(rng.domains() =~= Seq::<Seq<char>>::empty());
        rng
    }

    pub fn seed(&self) -> (seed: u64)
        ensures
            seed == self.spec_seed(),
    {
        self.seed
    }

    /// The seed for one domain: `SHA-256(seed_le_bytes || domain)`.
    ///
    /// Hashing rather than adding or XOR-ing the domain in: two domains whose names differ by
    /// one bit must not produce related streams.
    pub fn derive_seed(seed: u64, domain: &str) -> (derived: [u8; 32])
        ensures
            derived@ == domain_seed(seed, domain.spec_bytes()),
    {
        let mut bytes: Vec<u8> = Vec::new();
        let mut rest: u64 = seed;
        let mut k: usize = 0;
        assert(pow256(0) == 1);
        while k < 8
            invariant
                k <= 8,
                bytes@.len() == k,
                rest as nat == seed as nat / pow256(k as nat),
                forall|j: int| 0 <= j < k ==> bytes@[j] == le_bytes(seed)[j],
            decreases 8 - k,
        {
            proof {
                lemma_pow256_positive(k as nat);
                lemma_div_div(seed as nat, pow256(k as nat));
            }
            bytes.push((rest % 256) as u8);
            rest = rest / 256;
            k = k + 1;
        }
        let tail = domain.as_bytes();
        let mut i: usize = 0;
        while i < tail.len()
            invariant
                i <= tail@.len(),
                bytes@.len() == 8 + i,
                forall|j: int| 0 <= j < 8 ==> bytes@[j] == le_bytes(seed)[j],
                forall|j: int| 0 <= j < i ==> bytes@[8 + j] == tail@[j],
            decreases tail@.len() - i,
        {
            bytes.push(tail[i]);
            i = i + 1;
        }
        assert(bytes@ =~= le_bytes(seed) + domain.spec_bytes());
        sha256_digest(bytes.as_slice())
    }

    /// The position of a domain's stream, creating the stream on first use.
    fn stream_index(&mut self, domain: &str) -> (index: usize)
        requires
            old(self).wf(),
        ensures
            final(self).wf(),
            final(self).spec_seed() == old(self).spec_seed(),
            index < final(self).domains().len(),
            final(self).domains()[index as int] == domain@,
            final(self).domains().to_set() == old(self).domains().to_set().insert(domain@),
            final(self).others_unmoved(old(self), domain@),
            old(self).stream_state(domain@) is Some ==> final(self).stream_state(domain@)
                == old(self).stream_state(domain@),
            old(self).stream_state(domain@) is None ==> final(self).stream_state(domain@)
                == Some(keyed_chacha8(domain_seed(old(self).spec_seed(), domain.spec_bytes()))),
    {
        let mut i: usize = 0;
        while i < self.streams.len()
            invariant
                self.wf(),
                self == old(self),
                i <= self.domains().len(),
                forall|k: int| 0 <= k < i ==> name_lt(#[trigger] self.domains()[k], domain@),
            ensures
                self == old(self),
                i <= self.domains().len(),
                forall|k: int| 0 <= k < i ==> name_lt(#[trigger] self.domains()[k], domain@),
                i < self.domains().len() ==> name_lt(domain@, self.domains()[i as int]),
            decreases self.domains().len() - i,
        {
            let ghost names = self.domains();
            assert(names[i as int] == self.streams@[i as int].0@);
            if str_eq(self.streams[i].0.as_str(), domain) {
                proof {
                    assert(names.to_set().insert(domain@) =~= names.to_set());
                }
                return i;
            }
            if str_lt(domain, self.streams[i].0.as_str()) {
                break;
            }
            proof {
                lemma_name_lt_total(domain@, names[i as int]);
            }
            i = i + 1;
        }
        let ghost names = self.domains();
        let ghost before = *self;
        let stream = chacha_from_seed(Self::derive_seed(self.seed, domain));
        self.streams.insert(i, (domain.to_string(), stream));
        proof {
            assert(self.streams@[i as int].1 == keyed_chacha8(
                domain_seed(before.seed, domain.spec_bytes()),
            ));
            assert(!names.contains(domain@)) by {
                if names.contains(domain@) {
                    let k = choose|k: int| 0 <= k < names.len() && names[k] == domain@;
                    if k < i {
                        lemma_name_lt_irreflexive(domain@);
                    } else {
                        if k > i {
                            lemma_name_lt_transitive(domain@, names[i as int], names[k]);
                        }
                        lemma_name_lt_irreflexive(domain@);
                    }
                }
            }
            assert(self.domains() =~= names.insert(i as int, domain@));
            assert forall|a: int, b: int| 0 <= a < b < self.domains().len() implies name_lt(
                self.domains()[a],
                self.domains()[b],
            ) by {
                let d = self.domains();
                if b < i {
                    assert(d[a] == names[a] && d[b] == names[b]);
                } else if b == i {
                    assert(d[a] == names[a]);
                } else if a == i {
                    assert(d[b] == names[b - 1]);
                    if i < names.len() {
                        assert(name_lt(domain@, names[i as int]));
                        if b - 1 > i {
                            lemma_name_lt_transitive(domain@, names[i as int], names[b - 1]);
                        }
                    }
                } else if a < i {
                    assert(d[a] == names[a] && d[b] == names[b - 1]);
                } else {
                    assert(d[a] == names[a - 1] && d[b] == names[b - 1]);
                }
            }
            assert(self.domains().to_set() =~= names.to_set().insert(domain@)) by {
                assert forall|x: Seq<char>| self.domains().to_set().contains(x) <==> names.to_set().insert(
                    domain@,
                ).contains(x) by {
                    if self.domains().contains(x) {
                        let k = choose|k: int| 0 <= k < self.domains().len() && self.domains()[k] == x;
                        if k < i {
                            assert(names[k] == x);
                        } else if k > i {
                            assert(names[k - 1] == x);
                        }
                    }
                    if names.contains(x) {
                        let k = choose|k: int| 0 <= k < names.len() && names[k] == x;
                        if k < i {
                            assert(self.domains()[k] == x);
                        } else {
                            assert(self.domains()[k + 1] == x);
                        }
                    }
                    if x == domain@ {
                        assert(self.domains()[i as int] == x);
                    }
                }
            }
            assert forall|other: Seq<char>| other != domain@ implies #[trigger] self.stream_state(other)
                == before.stream_state(other) by {
                if names.contains(other) {
                    let k = choose|k: int| 0 <= k < names.len() && names[k] == other;
                    before.lemma_stream_at(k);
                    let k2 = if k < i { k } else { k + 1 };
                    assert(self.domains()[k2] == other);
                    assert(self.streams@[k2] == before.streams@[k]);
                    self.lemma_stream_at(k2);
                } else {
                    assert(!self.domains().contains(other)) by {
                        if self.domains().contains(other) {
                            let k = choose|k: int| 0 <= k < self.domains().len() && self.domains()[k] == other;
                            if k < i {
                                assert(names[k] == other);
                            } else if k > i {
                                assert(names[k - 1] == other);
                            }
                        }
                    }
                }
            }
            self.lemma_stream_at(i as int);
        }
        i
    }

    /// The stream for one domain, created on first use: the one the domain has drawn from so
    /// far, or, the first time, a generator keyed by the domain's seed. What is drawn through it
    /// stays in the domain's place; no other domain's stream moves.
    pub fn stream(&mut self, domain: &str) -> (stream: &mut ChaCha8Rng)
        requires
            old(self).wf(),
        ensures
            *stream == old(self).current_stream(domain),
            final(self).wf(),
            final(self).spec_seed() == old(self).spec_seed(),
            final(self).domains().to_set() == old(self).domains().to_set().insert(domain@),
            final(self).others_unmoved(old(self), domain@),
            final(self).stream_state(domain@) == Some(*final(stream)),
    {
        let i = self.stream_index(domain);
        let ghost mid = *self;
        proof {
            mid.lemma_stream_at(i as int);
            assert forall|after: GameRng|
                #![trigger after.wf()]
                #![trigger after.domains()]
                #![trigger after.stream_state(domain@)]
                mid.replaced_by(after, i as int, after.streams@[i as int].1) implies {
                &&& after.wf()
                &&& after.domains() == mid.domains()
                &&& after.stream_state(domain@) == Some(after.streams@[i as int].1)
            } by {
                mid.lemma_replace_stream(after, i as int, after.streams@[i as int].1);
            }
            assert forall|after: GameRng, other: Seq<char>|
                mid.replaced_by(after, i as int, after.streams@[i as int].1) && other != domain@
                implies #[trigger] after.stream_state(other) == mid.stream_state(other) by {
                mid.lemma_replace_stream(after, i as int, after.streams@[i as int].1);
                assert(after.others_unmoved(&mid, domain@));
            }
        }
        let stream = &mut self.streams[i].1;
        stream
    }

    /// The generator a domain draws from next: the one it has, or a fresh one keyed by its seed.
    pub open spec fn current_stream(&self, domain: &str) -> ChaCha8Rng {
        fresh_or(self.stream_state(domain@), domain_seed(self.spec_seed(), domain.spec_bytes()))
    }

    /// Shuffle in place, drawing from one domain's stream: Fisher-Yates, back to front.
    pub fn shuffle<T>(&mut self, domain: &str, items: &mut Vec<T>)
        requires
            old(self).wf(),
        ensures
            final(self).wf(),
            final(self).spec_seed() == old(self).spec_seed(),
            final(self).domains().to_set() == old(self).domains().to_set().insert(domain@),
            final(self).others_unmoved(old(self), domain@),
            ({
                let (shuffled, after) = fisher_yates(
                    old(items)@,
                    old(self).current_stream(domain),
                    old(items)@.len(),
                );
                &&& final(items)@ == shuffled
                &&& final(self).stream_state(domain@) == Some(after)
            }),
            final(items)@.len() == old(items)@.len(),
            final(items)@.to_multiset() == old(items)@.to_multiset(),
    {
        let _ = self.stream(domain);
        let n = items.len();
        let mut i = n;
        while i > 1
            invariant
                self.wf(),
                self.spec_seed() == old(self).spec_seed(),
                self.domains().to_set() == old(self).domains().to_set().insert(domain@),
                self.others_unmoved(old(self), domain@),
                self.stream_state(domain@) is Some,
                fisher_yates(items@, self.stream_state(domain@)->0, i as nat) == fisher_yates(
                    old(items)@,
                    old(self).current_stream(domain),
                    n as nat,
                ),
                items@.len() == n,
                n == old(items)@.len(),
                i <= n,
                items@.to_multiset() == old(items)@.to_multiset(),
            decreases i,
        {
            i = i - 1;
            let ghost before = *self;
            let ghost cur = items@;
            let stream = self.stream(domain);
            let j = draw_usize(stream, 0, i);
            proof {
                assert(old(self).domains().to_set().insert(domain@).insert(domain@) =~= old(
                    self,
                ).domains().to_set().insert(domain@));
                assert(before.current_stream(domain) == before.stream_state(domain@)->0);
            }
            swap(items, i, j);
            assert(items@ == cur.update(i as int, cur[j as int]).update(j as int, cur[i as int]));
        }
    }

    /// A shuffled copy, for building a deck without disturbing its source order.
    pub fn shuffled<T: Copy>(&mut self, domain: &str, items: &[T]) -> (copy: Vec<T>)
        requires
            old(self).wf(),
        ensures
            final(self).wf(),
            final(self).spec_seed() == old(self).spec_seed(),
            final(self).domains().to_set() == old(self).domains().to_set().insert(domain@),
            final(self).others_unmoved(old(self), domain@),
            ({
                let (shuffled, after) = fisher_yates(
                    items@,
                    old(self).current_stream(domain),
                    items@.len(),
                );
                &&& copy@ == shuffled
                &&& final(self).stream_state(domain@) == Some(after)
            }),
            copy@.len() == items@.len(),
            copy@.to_multiset() == items@.to_multiset(),
    {
        let mut copy: Vec<T> = Vec::new();
        let mut i: usize = 0;
        while i < items.len()
            invariant
                i <= items@.len(),
                copy@ == items@.subrange(0, i as int),
            decreases items@.len() - i,
        {
            copy.push(items[i]);
            i = i + 1;
        }
        assert(copy@ =~= items@);
        self.shuffle(domain, &mut copy);
        copy
    }

    /// An integer in `1..=sides`, drawing from one domain's stream.
    pub fn die(&mut self, domain: &str, sides: u32) -> (face: u32)
        requires
            old(self).wf(),
            sides >= 1,
        ensures
            final(self).wf(),
            final(self).spec_seed() == old(self).spec_seed(),
            final(self).domains().to_set() == old(self).domains().to_set().insert(domain@),
            final(self).others_unmoved(old(self), domain@),
            face == chacha8_range_u32(old(self).current_stream(domain), 1, sides).0,
            final(self).stream_state(domain@) == Some(
                chacha8_range_u32(old(self).current_stream(domain), 1, sides).1,
            ),
            1 <= face <= sides,
    {
        let stream = self.stream(domain);
        draw_u32(stream, 1, sides)
    }

    /// Which domains have been drawn from, in order.
    pub fn active_domains(&self) -> (names: Vec<&str>)
        ensures
            names@.map_values(|s: &str| s@) == self.domains(),
    {
        let mut names: Vec<&str> = Vec::new();
        let mut i: usize = 0;
        while i < self.streams.len()
            invariant
                i <= self.streams@.len(),
                names@.map_values(|s: &str| s@) == self.domains().subrange(0, i as int),
            decreases self.streams@.len() - i,
        {
            let ghost before = names@;
            let name = self.streams[i].0.as_str();
            names.push(name);
            proof {
                let a = names@.map_values(|s: &str| s@);
                let a0 = before.map_values(|s: &str| s@);
                let b = self.domains().subrange(0, i + 1);
                assert(names@ == before.push(name));
                assert(a.len() == names@.len() && a0.len() == before.len());
                assert(b.len() == i + 1);
                assert forall|k: int| 0 <= k < a.len() implies a[k] == b[k] by {
                    if k < i {
                        assert(a[k] == a0[k]);
                    } else {
                        assert(a[k] == name@);
                        assert(b[k] == self.streams@[i as int].0@);
                    }
                }
                assert(a =~= b);
            }
            i = i + 1;
        }
        assert(self.domains().subrange(0, self.streams@.len() as int) =~= self.domains());
        names
    }
}

/// A game is reproducible from its seed: two sources with the same seed whose stream for a
/// domain stands at the same place (for instance, both fresh) shuffle any items the same way,
/// roll the same die, and leave that stream at the same place.
pub proof fn draws_are_reproducible<T>(a: &GameRng, b: &GameRng, domain: &str, items: Seq<T>, sides: u32)
    requires
        a.spec_seed() == b.spec_seed(),
        a.stream_state(domain@) == b.stream_state(domain@),
    ensures
        a.current_stream(domain) == b.current_stream(domain),
        fisher_yates(items, a.current_stream(domain), items.len()) == fisher_yates(
            items,
            b.current_stream(domain),
            items.len(),
        ),
        chacha8_range_u32(a.current_stream(domain), 1, sides) == chacha8_range_u32(
            b.current_stream(domain),
            1,
            sides,
        ),
{
}

/// A source that has drawn nothing has no stream yet for any domain, so two such sources with
/// one seed start every domain at the same place.
pub proof fn fresh_sources_agree(a: &GameRng, b: &GameRng, domain: &str)
    requires
        a.spec_seed() == b.spec_seed(),
        a.domains() == Seq::<Seq<char>>::empty(),
        b.domains() == Seq::<Seq<char>>::empty(),
    ensures
        a.stream_state(domain@) is None,
        a.stream_state(domain@) == b.stream_state(domain@),
        a.current_stream(domain) == keyed_chacha8(domain_seed(a.spec_seed(), domain.spec_bytes())),
{
    a.lemma_no_stream(domain@);
    b.lemma_no_stream(domain@);
}

proof fn lemma_pow256_positive(k: nat)
    ensures
        pow256(k) > 0,
        pow256(k + 1) == 256 * pow256(k),
    decreases k,
{
    if k > 0 {
        lemma_pow256_positive((k - 1) as nat);
    }
}

proof fn lemma_div_div(n: nat, p: nat)
    requires
        p > 0,
    ensures
        n / p / 256 == n / (256 * p),
{
    vstd::arithmetic::div_mod::lemma_div_denominator(n as int, p as int, 256);
    assert(p * 256 == 256 * p) by (nonlinear_arith);
}

/// Exchange two items, keeping every item.
fn swap<T>(items: &mut Vec<T>, i: usize, j: usize)
    requires
        i < old(items)@.len(),
        j <= i,
    ensures
        final(items)@ == old(items)@.update(i as int, old(items)@[j as int]).update(
            j as int,
            old(items)@[i as int],
        ),
        final(items)@.len() == old(items)@.len(),
        final(items)@.to_multiset() == old(items)@.to_multiset(),
{
    if i == j {
        return;
    }
    let ghost s0 = items@;
    let x = items.remove(i);
    let ghost s1 = items@;
    let y = items.remove(j);
    let ghost s2 = items@;
    items.insert(j, x);
    let ghost s3 = items@;
    items.insert(i, y);
    proof {
        assert(s1.to_multiset() == s0.to_multiset().remove(x));
        assert(s2.to_multiset() == s1.to_multiset().remove(y));
        assert(s3.to_multiset() == s2.to_multiset().insert(x));
        assert(items@.to_multiset() == s3.to_multiset().insert(y));
        assert(s0.to_multiset().contains(x));
        assert(s1.to_multiset().contains(y));
        assert(items@.to_multiset() =~= s0.to_multiset());
        assert(items@ =~= s0.update(i as int, s0[j as int]).update(j as int, s0[i as int]));
    }
}

} // verus!
