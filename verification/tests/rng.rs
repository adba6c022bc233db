use rand::{RngCore, SeedableRng};
use ti4_engine::dice::Dice;
use ti4_engine::rng::{domain, GameRng};

fn deck() -> Vec<u32> {
    (0..40).collect()
}

#[test]
fn the_same_seed_produces_the_same_shuffle() {
    let mut a = GameRng::new(7);
    let mut b = GameRng::new(7);
    assert_eq!(a.shuffled(domain::AGENDAS, &deck()), b.shuffled(domain::AGENDAS, &deck()));
}

#[test]
fn different_seeds_produce_different_shuffles() {
    let mut a = GameRng::new(1);
    let mut b = GameRng::new(2);
    assert_ne!(a.shuffled(domain::AGENDAS, &deck()), b.shuffled(domain::AGENDAS, &deck()));
}

#[test]
fn different_domains_of_one_seed_are_independent() {
    let mut rng = GameRng::new(7);
    assert_ne!(rng.shuffled(domain::AGENDAS, &deck()), rng.shuffled(domain::RELICS, &deck()));
}

#[test]
fn drawing_from_one_domain_does_not_move_another() {
    let mut quiet = GameRng::new(7);
    let expected = quiet.shuffled(domain::AGENDAS, &deck());

    let mut busy = GameRng::new(7);
    for _ in 0..1000 {
        busy.die(domain::DICE, 10);
    }
    let _ = busy.shuffled(domain::RELICS, &deck());
    assert_eq!(busy.shuffled(domain::AGENDAS, &deck()), expected);
}

#[test]
fn a_domain_stream_is_created_once_and_then_advances() {
    let mut rng = GameRng::new(7);
    let first = rng.shuffled(domain::AGENDAS, &deck());
    let second = rng.shuffled(domain::AGENDAS, &deck());
    assert_ne!(first, second, "a second draw continues the stream");
}

#[test]
fn domains_that_differ_by_one_character_are_unrelated() {
    let a = GameRng::derive_seed(7, "deck:a");
    let b = GameRng::derive_seed(7, "deck:b");
    let differing = a.iter().zip(&b).filter(|(x, y)| x != y).count();
    assert!(differing > 20, "only {differing} of 32 bytes differ");
}

#[test]
fn a_derived_seed_is_the_digest_of_the_seed_and_the_domain() {
    // Eight little-endian bytes of the seed, then the domain's bytes, through SHA-256.
    let derived = GameRng::derive_seed(0, "");
    // SHA-256 of eight zero bytes.
    assert_eq!(
        derived[..4],
        [0xaf, 0x55, 0x70, 0xf5],
        "got {derived:02x?}"
    );
    assert_ne!(GameRng::derive_seed(7, "dice"), GameRng::derive_seed(8, "dice"));
}

#[test]
fn a_shuffle_is_a_permutation() {
    let mut rng = GameRng::new(3);
    let shuffled = rng.shuffled(domain::OBJECTIVES, &deck());
    let mut sorted = shuffled.clone();
    sorted.sort_unstable();
    assert_eq!(sorted, deck());
    assert_ne!(shuffled, deck(), "and it actually moved something");
}

#[test]
fn shuffling_a_short_list_does_not_panic() {
    let mut rng = GameRng::new(1);
    assert!(rng.shuffled::<u32>(domain::MAP, &[]).is_empty());
    assert_eq!(rng.shuffled(domain::MAP, &[9]), vec![9]);
}

#[test]
fn a_shuffle_reaches_every_position() {
    let mut seen_first = std::collections::BTreeSet::new();
    for seed in 0..50 {
        let mut rng = GameRng::new(seed);
        seen_first.insert(rng.shuffled(domain::OBJECTIVES, &deck())[0]);
    }
    assert!(seen_first.len() > 10, "only {} distinct tops", seen_first.len());
}

#[test]
fn a_die_stays_within_its_faces() {
    let mut rng = GameRng::new(11);
    let mut seen = std::collections::BTreeSet::new();
    for _ in 0..500 {
        let face = rng.die(domain::DICE, 10);
        assert!((1..=10).contains(&face), "rolled {face}");
        seen.insert(face);
    }
    assert_eq!(seen.len(), 10, "every face should appear in 500 rolls");
}

#[test]
fn active_domains_are_reported_deterministically() {
    let mut rng = GameRng::new(1);
    rng.die(domain::DICE, 10);
    let _ = rng.shuffled(domain::AGENDAS, &deck());
    assert_eq!(rng.active_domains(), vec![domain::AGENDAS, domain::DICE]);
}

#[test]
fn the_seed_is_kept() {
    let rng = GameRng::new(42);
    assert_eq!(rng.seed(), 42);
}

#[test]
fn dice_record_every_roll_with_its_reason() {
    let mut rng = GameRng::new(5);
    let mut dice = Dice::new();
    let faces = dice.roll(&mut rng, 3, "combat", Some(7));
    assert_eq!(faces.len(), 3);
    assert!(faces.iter().all(|f| (1..=10).contains(f)));
    assert_eq!(dice.count(), 1);
    assert_eq!(dice.history[0].reason, "combat");
    assert_eq!(dice.history[0].faces, faces);
    assert_eq!(dice.history[0].hit_on, Some(7));
}

#[test]
fn a_new_stream_is_keyed_by_the_domain_seed() {
    let mut rng = GameRng::new(42);
    let drawn = rng.stream(domain::AGENDAS).next_u64();
    let mut expected =
        rand_chacha::ChaCha8Rng::from_seed(GameRng::derive_seed(42, domain::AGENDAS));
    assert_eq!(drawn, expected.next_u64());
}

#[test]
fn draws_through_a_stream_stay_with_its_domain() {
    let mut rng = GameRng::new(9);
    let first = rng.stream(domain::RELICS).next_u64();
    let _ = rng.stream(domain::AGENDAS).next_u64();
    let second = rng.stream(domain::RELICS).next_u64();
    let mut expected = rand_chacha::ChaCha8Rng::from_seed(GameRng::derive_seed(9, domain::RELICS));
    assert_eq!(first, expected.next_u64());
    assert_eq!(second, expected.next_u64());
}

#[test]
fn a_shuffle_is_fisher_yates_over_the_domain_stream() {
    let mut rng = GameRng::new(11);
    let mut items: Vec<u32> = (0..10).collect();
    rng.shuffle(domain::AGENDAS, &mut items);
    let mut expected: Vec<u32> = (0..10).collect();
    let mut stream = rand_chacha::ChaCha8Rng::from_seed(GameRng::derive_seed(11, domain::AGENDAS));
    for i in (1..expected.len()).rev() {
        let j = rand::Rng::random_range(&mut stream, 0..=i);
        expected.swap(i, j);
    }
    assert_eq!(items, expected);
}

#[test]
fn a_die_is_a_draw_from_the_domain_stream() {
    let mut rng = GameRng::new(5);
    let faces: Vec<u32> = (0..5).map(|_| rng.die(domain::DICE, 10)).collect();
    let mut stream = rand_chacha::ChaCha8Rng::from_seed(GameRng::derive_seed(5, domain::DICE));
    let expected: Vec<u32> = (0..5).map(|_| rand::Rng::random_range(&mut stream, 1..=10u32)).collect();
    assert_eq!(faces, expected);
}

#[test]
fn a_roll_takes_successive_draws_of_the_dice_stream() {
    let mut rng = GameRng::new(11);
    let mut dice = Dice::new();
    let first = dice.roll(&mut rng, 3, "combat", None);
    let second = dice.roll(&mut rng, 2, "bombardment", Some(6));
    let mut fresh = GameRng::new(11);
    let draws: Vec<u32> = (0..5).map(|_| fresh.die(domain::DICE, 10)).collect();
    assert_eq!(first, draws[..3].to_vec());
    assert_eq!(second, draws[3..].to_vec());
    // Other streams are untouched: a shuffle after rolling matches one from a fresh source.
    let deck: Vec<u32> = (0..10).collect();
    assert_eq!(rng.shuffled(domain::AGENDAS, &deck), GameRng::new(11).shuffled(domain::AGENDAS, &deck));
    // Rolling no dice draws nothing.
    let mut quiet = GameRng::new(11);
    assert!(dice.roll(&mut quiet, 0, "nothing", None).is_empty());
    assert_eq!(quiet.die(domain::DICE, 10), draws[0]);
}
