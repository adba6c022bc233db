//! The game's dice: every roll is drawn from the dice stream and recorded.

use vstd::prelude::*;
use crate::rng::{chacha8_range_u32, domain, GameRng};
use rand_chacha::ChaCha8Rng;

verus! {

/// The faces of a die.
pub const SIDES: u32 = 10;

proof fn lemma_draws_len(stream: ChaCha8Rng, n: nat)
    ensures
        dice_draws(stream, n).0.len() == n,
    decreases n,
{
    if n > 0 {
        lemma_draws_len(stream, (n - 1) as nat);
    }
}

/// One recorded roll.
#[derive(Debug)]
pub struct Roll {
    /// Why the dice were rolled.
    pub reason: String,
    /// Each die's face, in the order rolled.
    pub faces: Vec<u32>,
    /// The value a die must reach to hit, when the roll has one.
    pub hit_on: Option<u32>,
}

/// The recorded dice history of a game.
#[derive(Debug)]
pub struct Dice {
    pub history: Vec<Roll>,
}

/// Whether every face is a face of a ten-sided die.
pub open spec fn faces_valid(faces: Seq<u32>) -> bool {
    forall|k: int| 0 <= k < faces.len() ==> 1 <= #[trigger] faces[k] <= SIDES
}

/// `n` successive ten-sided dice drawn from a stream, and the stream after them.
pub open spec fn dice_draws(stream: ChaCha8Rng, n: nat) -> (Seq<u32>, ChaCha8Rng)
    decreases n,
{
    if n == 0 {
        (Seq::empty(), stream)
    } else {
        let (earlier, at) = dice_draws(stream, (n - 1) as nat);
        let (face, after) = chacha8_range_u32(at, 1, SIDES);
        (earlier.push(face), after)
    }
}

impl Dice {
    pub fn new() -> (dice: Self)
        ensures
            dice.history@.len() == 0,
    {
        Dice { history: Vec::new() }
    }

    /// How many rolls have been recorded.
    pub fn count(&self) -> (count: usize)
        ensures
            count == self.history@.len(),
    {
        self.history.len()
    }

    /// Roll `count` ten-sided dice from the dice stream and record the roll.
    pub fn roll(&mut self, rng: &mut GameRng, count: usize, reason: &str, hit_on: Option<u32>) -> (faces: Vec<u32>)
        requires
            old(rng).wf(),
        ensures
            final(rng).wf(),
            final(rng).spec_seed() == old(rng).spec_seed(),
            final(rng).others_unmoved(old(rng), domain::DICE@),
            faces@ == dice_draws(old(rng).current_stream(domain::DICE), count as nat).0,
            count > 0 ==> final(rng).stream_state(domain::DICE@) == Some(
                dice_draws(old(rng).current_stream(domain::DICE), count as nat).1,
            ),
            count == 0 ==> *final(rng) == *old(rng),
            faces@.len() == count,
            faces_valid(faces@),
            final(self).history@.len() == old(self).history@.len() + 1,
            final(self).history@.drop_last() == old(self).history@,
            final(self).history@.last().faces@ == faces@,
            final(self).history@.last().reason@ == reason@,
            final(self).history@.last().hit_on == hit_on,
    {
        let ghost start = rng.current_stream(domain::DICE);
        let mut faces: Vec<u32> = Vec::new();
        proof {
            lemma_draws_len(start, 0);
        }
        let mut recorded: Vec<u32> = Vec::new();
        let mut k: usize = 0;
        while k < count
            invariant
                k <= count,
                rng.wf(),
                rng.spec_seed() == old(rng).spec_seed(),
                rng.others_unmoved(old(rng), domain::DICE@),
                start == old(rng).current_stream(domain::DICE),
                faces@ == dice_draws(start, k as nat).0,
                rng.current_stream(domain::DICE) == dice_draws(start, k as nat).1,
                k > 0 ==> rng.stream_state(domain::DICE@) == Some(dice_draws(start, k as nat).1),
                k == 0 ==> *rng == *old(rng),
                faces@.len() == k,
                recorded@ == faces@,
                faces_valid(faces@),
            decreases count - k,
        {
            let face = rng.die(domain::DICE, SIDES);
            proof {
                lemma_draws_len(start, k as nat);
            }
            faces.push(face);
            recorded.push(face);
            k = k + 1;
        }
        self.history.push(Roll { reason: reason.to_string(), faces: recorded, hit_on });
        assert(self.history@.drop_last() =~= old(self).history@);
        faces
    }
}

} // verus!
