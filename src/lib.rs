//! A Wordle-style game: an oracle holding a secret word judges guesses made by a
//! petitioner, letter by letter, until the petitioner finds the word.

mod chance;
pub mod letters;
pub mod oracle;
pub mod petitioner;

use crate::letters::{of_length, views};
use crate::oracle::memory_oracle::MemoryOracle;
use crate::oracle::{judge, Feedback, Oracle};
use crate::petitioner::dict_solver::{
    admits, judgeable, lemma_truthful_round_drops_guess, lemma_truthful_round_shrinks, DictSolver,
};
use crate::petitioner::Petitioner;
use vstd::prelude::*;

verus! {

/// Why a game ended without the secret word.
#[derive(Debug)]
pub enum GameError {
    /// The oracle would not judge a guess.
    Oracle(oracle::Error),
    /// The petitioner could not go on.
    Petitioner(petitioner::Error),
    /// The petitioner used up its guesses without finding the word.
    OutOfRounds,
}

/// How one round of a game ended.
#[derive(Debug)]
pub enum Round {
    /// The guess was the secret word.
    Won(String),
    /// The guess was wrong; the oracle's feedback on it.
    Wrong(String, Feedback),
    /// The game cannot go on.
    Over(GameError),
}

/// What the oracle's `answer` on `guess` means for the game: the game is won, or
/// the guess was wrong and the feedback goes on to the petitioner, or the oracle's
/// error ends the game.
pub fn verdict(guess: String, answer: Result<Result<(), Feedback>, oracle::Error>) -> (r: Round)
    ensures
        match answer {
            Ok(Ok(())) => r == Round::Won(guess),
            Ok(Err(fb)) => r == Round::Wrong(guess, fb),
            Err(e) => r == Round::Over(GameError::Oracle(e)),
        },
{
    match answer {
        Ok(Ok(())) => Round::Won(guess),
        Ok(Err(fb)) => Round::Wrong(guess, fb),
        Err(e) => Round::Over(GameError::Oracle(e)),
    }
}

/// A copy of `fb`.
fn copy_feedback(fb: &Feedback) -> (r: Feedback)
    ensures
        r@ == fb@,
{
    let mut r: Feedback = Vec::new();
    let mut i: usize = 0;
    while i < fb.len()
        invariant
            i <= fb@.len(),
            r@ == fb@.subrange(0, i as int),
        decreases fb@.len() - i,
    {
        r.push(fb[i]);
        i = i + 1;
    }
    assert(r@ =~= fb@);
    r
}

/// Plays one round: the petitioner guesses, the oracle judges the guess, and after
/// a wrong guess the petitioner takes the feedback. An error of the petitioner ends
/// the game, also when it refuses the feedback.
pub fn play_round<O: Oracle, P: Petitioner>(oracle: &mut O, petitioner: &mut P) -> (r: Round)
    requires
        old(petitioner).inv(),
    ensures
        final(petitioner).inv(),
        forall|w: Seq<char>| #[trigger] final(oracle).accepts(w) == old(oracle).accepts(w),
        r matches Round::Won(w) ==> old(oracle).accepts(w@),
        r matches Round::Wrong(g, _) ==> !old(oracle).accepts(g@),
        r matches Round::Over(e) ==> !(e is OutOfRounds),
{
    let guess = match petitioner.prepare_guess() {
        Ok(g) => g,
        Err(e) => {
            return Round::Over(GameError::Petitioner(e));
        },
    };
    let answer = oracle.guess(guess.as_str());
    match verdict(guess, answer) {
        Round::Wrong(g, fb) => match petitioner.feedback(copy_feedback(&fb)) {
            Ok(()) => Round::Wrong(g, fb),
            Err(e) => Round::Over(GameError::Petitioner(e)),
        },
        other => other,
    }
}

/// Runs a game of at most `max_rounds` rounds (see `play_round`), until a guess is
/// right or the game cannot go on.
///
/// Each wrong guess that the petitioner took the feedback on is appended to
/// `rounds` with that feedback.
pub fn wordle<O: Oracle, P: Petitioner>(
    oracle: &mut O,
    petitioner: &mut P,
    max_rounds: usize,
    rounds: &mut Vec<(String, Feedback)>,
) -> (r: Result<String, GameError>)
    requires
        old(petitioner).inv(),
    ensures
        final(petitioner).inv(),
        forall|w: Seq<char>| #[trigger] final(oracle).accepts(w) == old(oracle).accepts(w),
        r matches Ok(w) ==> old(oracle).accepts(w@),
        final(rounds)@.len() <= old(rounds)@.len() + max_rounds,
        final(rounds)@.subrange(0, old(rounds)@.len() as int) == old(rounds)@,
        forall|i: int|
            old(rounds)@.len() <= i < final(rounds)@.len() ==> !old(oracle).accepts(
                (#[trigger] final(rounds)@[i]).0@,
            ),
        r matches Err(GameError::OutOfRounds) ==> final(rounds)@.len() == old(rounds)@.len()
            + max_rounds,
        max_rounds == 0 ==> (r matches Err(GameError::OutOfRounds) && final(rounds)@ == old(
            rounds,
        )@),
{
    let ghost before = rounds@;
    let mut n: usize = 0;
    while n < max_rounds
        invariant
            petitioner.inv(),
            forall|w: Seq<char>| #[trigger] oracle.accepts(w) == old(oracle).accepts(w),
            before == old(rounds)@,
            n <= max_rounds,
            rounds@.len() == before.len() + n,
            rounds@.subrange(0, before.len() as int) == before,
            forall|i: int|
                before.len() <= i < rounds@.len() ==> !old(oracle).accepts(
                    (#[trigger] rounds@[i]).0@,
                ),
        decreases max_rounds - n,
    {
        match play_round(oracle, petitioner) {
            Round::Won(w) => {
                return Ok(w);
            },
            Round::Wrong(g, fb) => {
                let ghost so_far = rounds@;
                rounds.push((g, fb));
                assert(rounds@.subrange(0, before.len() as int) =~= so_far.subrange(
                    0,
                    before.len() as int,
                ));
            },
            Round::Over(e) => {
                return Err(e);
            },
        }
        n = n + 1;
    }
    assert(max_rounds == 0 ==> rounds@ =~= rounds@.subrange(0, before.len() as int));
    Err(GameError::OutOfRounds)
}

/// Plays the dictionary solver against an in-memory oracle. The solver takes the
/// words of `dictionary` that have the secret's length, and guesses among them at
/// random until it finds the secret, runs out of candidates, or the oracle stops
/// answering. Each wrong guess is appended to `rounds` with its feedback.
///
/// Every wrong guess leaves the candidates and the secret never does, so with no
/// limit on guesses the game is won exactly when the dictionary holds the secret,
/// and takes no more rounds than there are candidates.
pub fn solve_with_dictionary(
    oracle: &mut MemoryOracle,
    dictionary: Vec<String>,
    rounds: &mut Vec<(String, Feedback)>,
) -> (r: Result<String, GameError>)
    ensures
        final(oracle).secret() == old(oracle).secret(),
        final(oracle).limit() == old(oracle).limit(),
        r matches Ok(w) ==> w@ == old(oracle).secret(),
        of_length(views(dictionary@), old(oracle).secret().len()).len() == 0 ==> r matches Err(
            GameError::Petitioner(petitioner::Error::EmptyDictionary),
        ),
        old(oracle).limit() is None && of_length(
            views(dictionary@),
            old(oracle).secret().len(),
        ).contains(old(oracle).secret()) ==> r is Ok,
        old(oracle).limit() is None && of_length(views(dictionary@), old(oracle).secret().len()).len()
            > 0 && !of_length(views(dictionary@), old(oracle).secret().len()).contains(
            old(oracle).secret(),
        ) ==> r matches Err(GameError::Petitioner(petitioner::Error::Stumped)),
        final(rounds)@.len() <= old(rounds)@.len() + of_length(
            views(dictionary@),
            old(oracle).secret().len(),
        ).len(),
        final(rounds)@.subrange(0, old(rounds)@.len() as int) == old(rounds)@,
        forall|i: int|
            old(rounds)@.len() <= i < final(rounds)@.len() ==> (#[trigger] final(rounds)@[i]).0@
                != old(oracle).secret(),
{
    let ghost secret = oracle.secret();
    let ghost limit = oracle.limit();
    let ghost cands0 = of_length(views(dictionary@), secret.len());
    let ghost present = cands0.contains(secret);
    let ghost before = rounds@;
    let n = oracle.word_length();
    let mut solver = match DictSolver::new(n, dictionary) {
        Ok(s) => s,
        Err(e) => {
            return Err(GameError::Petitioner(e));
        },
    };
    assert(admits(solver.knowledge(), secret));
    loop
        invariant
            solver.wf(),
            solver.shaped(),
            solver.word_length() == secret.len(),
            solver.outstanding() is None,
            oracle.secret() == secret,
            oracle.limit() == limit,
            secret == old(oracle).secret(),
            limit == old(oracle).limit(),
            cands0 == of_length(views(dictionary@), secret.len()),
            present == cands0.contains(secret),
            cands0.len() > 0,
            before == old(rounds)@,
            rounds@.len() >= before.len(),
            rounds@.len() - before.len() + solver.candidates().len() <= cands0.len(),
            rounds@.subrange(0, before.len() as int) == before,
            forall|i: int| before.len() <= i < rounds@.len() ==> (#[trigger] rounds@[i]).0@ != secret,
            present ==> solver.candidates().contains(secret) && admits(solver.knowledge(), secret),
            !present ==> !solver.candidates().contains(secret),
        decreases solver.candidates().len(),
    {
        let guess = match solver.prepare_guess() {
            Ok(g) => g,
            Err(e) => {
                return Err(GameError::Petitioner(e));
            },
        };
        let ghost picked = solver;
        let answer = oracle.guess(guess.as_str());
        match verdict(guess, answer) {
            Round::Won(w) => {
                return Ok(w);
            },
            Round::Over(e) => {
                return Err(e);
            },
            Round::Wrong(g, fb) => {
                assert(fb@ == judge(secret, g@));
                assert(fb@.len() == g@.len());
                assert(judgeable(fb@));
                let fed = solver.feedback(copy_feedback(&fb));
                if let Err(e) = fed {
                    return Err(GameError::Petitioner(e));
                }
                proof {
                    lemma_truthful_round_drops_guess(picked, solver, secret);
                    if present {
                        lemma_truthful_round_shrinks(picked, solver, secret);
                    }
                }
                let ghost so_far = rounds@;
                rounds.push((g, fb));
                assert(rounds@.subrange(0, before.len() as int) =~= so_far.subrange(
                    0,
                    before.len() as int,
                ));
            },
        }
    }
}

} // verus!
