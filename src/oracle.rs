//! Oracles know a secret word and judge guesses against it.

pub mod memory_oracle;

use crate::letters::{chars_of, contains_char, same_chars};
use vstd::prelude::*;

verus! {

/// The disposition of a letter indicates how guessers should refine their list of
/// potential words.
#[derive(Clone, Copy, Debug, PartialEq, Eq, Structural)]
pub enum Disposition {
    /// This letter does not appear in the target word.
    NotInWord,
    /// This letter appears at least once in the target word, elsewhere.
    WrongPosition,
    /// This letter appears in this position in the target word.
    Correct,
    /// The guess was shorter than the target word; this letter is missing.
    Missing,
    /// The guess was longer than the target word; this letter is extra and unchecked.
    Extra,
}

/// The judgement of a whole guess, one disposition per position.
pub type Feedback = Vec<Disposition>;

/// Why an oracle would not judge a guess.
#[derive(Debug)]
pub enum Error {
    /// The oracle will answer no more questions.
    TooManyGuesses,
    /// The oracle could not be reached; the text says why.
    Io(String),
}

/// The larger of two lengths.
pub open spec fn max_len(a: nat, b: nat) -> nat {
    if a >= b { a } else { b }
}

/// The disposition given at position `i` when `guess` is judged against `secret`.
///
/// Presence elsewhere in the secret is a plain membership test: it does not count
/// how often a letter occurs.
pub open spec fn disposition_at(secret: Seq<char>, guess: Seq<char>, i: int) -> Disposition {
    if i < secret.len() && i < guess.len() {
        if guess[i] == secret[i] {
            Disposition::Correct
        } else if secret.contains(guess[i]) {
            Disposition::WrongPosition
        } else {
            Disposition::NotInWord
        }
    } else if i < secret.len() {
        Disposition::Missing
    } else {
        Disposition::Extra
    }
}

/// The feedback for `guess` against `secret`: one disposition for each position of
/// the longer of the two.
pub open spec fn judge(secret: Seq<char>, guess: Seq<char>) -> Seq<Disposition> {
    Seq::new(max_len(secret.len(), guess.len()), |i: int| disposition_at(secret, guess, i))
}

/// Whether `r` is the score of `guess` against `secret`.
pub open spec fn is_score(secret: Seq<char>, guess: Seq<char>, r: Result<(), Feedback>) -> bool {
    &&& r is Ok <==> guess == secret
    &&& r matches Err(fb) ==> fb@ == judge(secret, guess)
}

/// An oracle knows a secret word and is willing to give feedback on guesses at it.
pub trait Oracle {
    /// Whether `word` is the secret word.
    spec fn accepts(&self, word: Seq<char>) -> bool;

    /// The number of characters in the secret word.
    fn word_length(&self) -> (r: Result<usize, Error>)
        ensures
            r matches Ok(n) ==> forall|w: Seq<char>| #[trigger] self.accepts(w) ==> w.len() == n,
    ;

    /// Whether `guess` is the secret word, or feedback on it if it is not.
    fn guess(&mut self, guess: &str) -> (r: Result<Result<(), Feedback>, Error>)
        ensures
            forall|w: Seq<char>| #[trigger] final(self).accepts(w) == old(self).accepts(w),
            r matches Ok(Ok(())) ==> old(self).accepts(guess@),
            r matches Ok(Err(_)) ==> !old(self).accepts(guess@),
    ;
}

/// Scores `guess` against `secret`: `Ok(())` on an exact match, else the feedback.
pub fn score(secret: &str, guess: &str) -> (r: Result<(), Feedback>)
    ensures
        is_score(secret@, guess@, r),
        r matches Err(fb) ==> fb@.len() == max_len(secret@.len(), guess@.len()),
        guess@.len() == secret@.len() && guess@ != secret@ ==> (r matches Err(fb) && (forall|i: int|
            0 <= i < fb@.len() ==> fb@[i] != Disposition::Missing && fb@[i]
                != Disposition::Extra) && exists|i: int|
            0 <= i < fb@.len() && fb@[i] != Disposition::Correct),
{
    let want = chars_of(secret);
    let have = chars_of(guess);
    if same_chars(&have, &want) {
        return Ok(());
    }
    let ghost s = secret@;
    let ghost g = guess@;
    let mut fb: Feedback = Vec::new();
    let mut i: usize = 0;
    while i < have.len() && i < want.len()
        invariant
            want@ == s,
            have@ == g,
            i <= have@.len(),
            i <= want@.len(),
            fb@.len() == i,
            i <= max_len(s.len(), g.len()),
            forall|j: int| 0 <= j < i ==> fb@[j] == disposition_at(s, g, j),
        decreases have@.len() - i,
    {
        let d = if have[i] == want[i] {
            Disposition::Correct
        } else if contains_char(&want, have[i]) {
            Disposition::WrongPosition
        } else {
            Disposition::NotInWord
        };
        fb.push(d);
        i = i + 1;
    }
    while i < want.len()
        invariant
            want@ == s,
            have@ == g,
            i >= have@.len() || i >= want@.len(),
            fb@.len() == i,
            i <= max_len(s.len(), g.len()),
            forall|j: int| 0 <= j < i ==> fb@[j] == disposition_at(s, g, j),
        decreases want@.len() - i,
    {
        fb.push(Disposition::Missing);
        i = i + 1;
    }
    while i < have.len()
        invariant
            want@ == s,
            have@ == g,
            i >= want@.len(),
            fb@.len() == i,
            i <= max_len(s.len(), g.len()),
            forall|j: int| 0 <= j < i ==> fb@[j] == disposition_at(s, g, j),
        decreases have@.len() - i,
    {
        fb.push(Disposition::Extra);
        i = i + 1;
    }
    assert(fb@ =~= judge(s, g));
    proof {
        if g.len() == s.len() {
            assert(exists|k: int| 0 <= k < g.len() && g[k] != s[k]) by {
                if forall|k: int| 0 <= k < g.len() ==> g[k] == s[k] {
                    assert(g =~= s);
                }
            }
            let k = choose|k: int| 0 <= k < g.len() && g[k] != s[k];
            assert(fb@[k] != Disposition::Correct);
        }
    }
    Err(fb)
}

} // verus!
