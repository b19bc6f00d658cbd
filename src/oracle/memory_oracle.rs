//! An oracle that holds its secret word in memory.

use crate::chance::random_index;
use crate::letters::{of_length, views, words_of_length};
use crate::oracle::{is_score, score, Error, Feedback, Oracle};
use vstd::prelude::*;
use vstd::string::StrSliceExecFns;

verus! {

/// Holds the secret word, and optionally a limit on the number of guesses it will
/// judge.
pub struct MemoryOracle {
    target: String,
    guesses: usize,
    pub max_guesses: Option<usize>,
}

impl MemoryOracle {
    /// The secret word.
    pub closed spec fn secret(&self) -> Seq<char> {
        self.target@
    }

    /// The number of guesses made so far (it stops growing at `usize::MAX`).
    pub closed spec fn guesses(&self) -> nat {
        self.guesses as nat
    }

    /// The limit on the number of guesses it will judge, if any.
    pub closed spec fn limit(&self) -> Option<usize> {
        self.max_guesses
    }

    /// An oracle whose secret word is `target`, with no limit on guesses.
    pub fn new(target: String) -> (r: MemoryOracle)
        ensures
            r.secret() == target@,
            r.guesses() == 0,
            r.limit() is None,
    {
        MemoryOracle { target, guesses: 0, max_guesses: None }
    }

    /// An oracle whose secret is word number `idx`, counted modulo their number,
    /// among the words of `words` that have `characters` letters; `None` where
    /// there is no such word.
    pub fn create_at(characters: usize, words: Vec<String>, idx: usize) -> (r: Option<
        MemoryOracle,
    >)
        ensures
            r is None <==> of_length(views(words@), characters as nat).len() == 0,
            r matches Some(o) ==> {
                &&& o.secret() == of_length(views(words@), characters as nat)[(idx as int) % (
                of_length(views(words@), characters as nat).len() as int)]
                &&& o.guesses() == 0
                &&& o.limit() is None
            },
    {
        let candidates = words_of_length(&words, characters);
        if candidates.len() == 0 {
            return None;
        }
        let word = candidates[idx % candidates.len()].clone();
        Some(MemoryOracle::new(word))
    }

    /// An oracle whose secret is one of the words of `words` that have `characters`
    /// letters, chosen at random; `None` where there is no such word.
    pub fn create_random(characters: usize, words: Vec<String>) -> (r: Option<MemoryOracle>)
        ensures
            r is None <==> of_length(views(words@), characters as nat).len() == 0,
            r matches Some(o) ==> {
                &&& of_length(views(words@), characters as nat).contains(o.secret())
                &&& o.guesses() == 0
                &&& o.limit() is None
            },
    {
        let count = words_of_length(&words, characters).len();
        if count == 0 {
            return None;
        }
        let idx = random_index(count);
        let r = MemoryOracle::create_at(characters, words, idx);
        assert((idx as int) % (count as int) == idx as int) by (nonlinear_arith)
            requires
                idx < count,
        ;
        r
    }

    /// The number of characters in the secret word.
    pub fn word_length(&self) -> (r: usize)
        ensures
            r == self.secret().len(),
    {
        self.target.as_str().unicode_len()
    }

    /// Counts the guess; past the limit, if any, it fails with `TooManyGuesses`,
    /// else it scores `guess` against the secret word.
    pub fn guess(&mut self, guess: &str) -> (r: Result<Result<(), Feedback>, Error>)
        ensures
            final(self).secret() == old(self).secret(),
            final(self).limit() == old(self).limit(),
            final(self).guesses() == if old(self).guesses() < usize::MAX {
                old(self).guesses() + 1
            } else {
                old(self).guesses()
            },
            match old(self).limit() {
                Some(m) if old(self).guesses() >= m => r matches Err(Error::TooManyGuesses),
                _ => r matches Ok(o) && is_score(old(self).secret(), guess@, o),
            },
    {
        let over = match self.max_guesses {
            Some(m) => self.guesses >= m,
            None => false,
        };
        self.guesses = if self.guesses < usize::MAX {
            self.guesses + 1
        } else {
            self.guesses
        };
        if over {
            Err(Error::TooManyGuesses)
        } else {
            Ok(score(self.target.as_str(), guess))
        }
    }
}

impl Oracle for MemoryOracle {
    open spec fn accepts(&self, word: Seq<char>) -> bool {
        self.secret() == word
    }

    fn word_length(&self) -> (r: Result<usize, Error>) {
        Ok(MemoryOracle::word_length(self))
    }

    fn guess(&mut self, guess: &str) -> (r: Result<Result<(), Feedback>, Error>) {
        MemoryOracle::guess(self, guess)
    }
}

} // verus!
