//! A game in which a secret number is to be guessed.

use rand::Rng;
use vstd::prelude::*;

verus! {

/// The smallest number that the secret can be.
pub const LOWEST: u32 = 1;

/// The largest number that the secret can be.
pub const HIGHEST: u32 = 100;

/// What the player is told of a guess.
#[derive(Clone, Copy, Debug, PartialEq, Eq, Structural)]
pub enum Hint {
    /// The guess is below the secret.
    TooSmall,
    /// The guess is above the secret.
    TooBig,
    /// The guess is the secret: the game is over.
    YouWin,
}

/// What the player is told of `guess` when the secret is `secret`.
pub open spec fn hint_for(guess: u32, secret: u32) -> Hint {
    if guess < secret {
        Hint::TooSmall
    } else if guess > secret {
        Hint::TooBig
    } else {
        Hint::YouWin
    }
}

/// Draws a number from `low` up to, but not including, `high`, with
/// `gen_range` on the generator that `rand::thread_rng` gives. Of the number
/// only its range is known; `gen_range` panics on an empty range, which the
/// precondition leaves out.
#[verifier::external_body]
fn random_between(low: u32, high: u32) -> (n: u32)
    requires
        low < high,
    ensures
        low <= n < high,
{
    rand::thread_rng().gen_range(low..high)
}

/// One game: a secret number from `LOWEST` to `HIGHEST`.
pub struct Game {
    secret: u32,
}

impl Game {
    #[verifier::type_invariant]
    spec fn type_inv(&self) -> bool {
        LOWEST <= self.secret <= HIGHEST
    }

    /// The secret of the game.
    pub closed spec fn secret_number(&self) -> u32 {
        self.secret
    }

    /// Starts a game with a secret drawn at random.
    pub fn start() -> (game: Game)
        ensures
            LOWEST <= game.secret_number() <= HIGHEST,
    {
        Game { secret: random_between(LOWEST, HIGHEST + 1) }
    }

    /// Starts a game with the secret `secret`, if it is a number from
    /// `LOWEST` to `HIGHEST`.
    pub fn with_secret(secret: u32) -> (game: Option<Game>)
        ensures
            match game {
                Some(game) => LOWEST <= secret <= HIGHEST && game.secret_number() == secret,
                None => !(LOWEST <= secret <= HIGHEST),
            },
    {
        if LOWEST <= secret && secret <= HIGHEST {
            Some(Game { secret })
        } else {
            None
        }
    }

    /// Tells the secret.
    pub fn secret(&self) -> (secret: u32)
        ensures
            secret == self.secret_number(),
            LOWEST <= secret <= HIGHEST,
    {
        proof {
            use_type_invariant(self);
        }
        self.secret
    }

    /// Judges a guess: too small, too big, or the secret.
    pub fn judge(&self, guess: u32) -> (hint: Hint)
        ensures
            hint == hint_for(guess, self.secret_number()),
    {
        if guess < self.secret {
            Hint::TooSmall
        } else if guess > self.secret {
            Hint::TooBig
        } else {
            Hint::YouWin
        }
    }
}

} // verus!
