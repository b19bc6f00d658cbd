//! A dictionary-based petitioner: it keeps the words that still fit everything the
//! oracle has said, and guesses one of them.

use crate::chance::random_index;
use crate::letters::{chars_of, contains_char, of_length, views, words_of_length};
use crate::oracle::{disposition_at, judge, Disposition, Feedback};
use crate::petitioner::{Error, Petitioner};
use vstd::prelude::*;

verus! {

/// What the feedback so far says about the secret word.
#[verifier::ext_equal]
pub struct Knowledge {
    /// The letter known to stand at each position, if any.
    pub known: Seq<Option<char>>,
    /// For each position, letters known to be in the word but not there.
    pub wrong: Seq<Set<char>>,
    /// Letters known to be in the word at a position not yet found.
    pub unplaced: Set<char>,
    /// Letters known not to be in the word.
    pub absent: Set<char>,
}

/// The letters that occur in `s`.
pub open spec fn set_of(s: Seq<char>) -> Set<char> {
    Set::new(|c: char| s.contains(c))
}

/// Nothing learned yet, for words of `n` letters.
pub open spec fn ignorance(n: nat) -> Knowledge {
    Knowledge {
        known: Seq::new(n, |i: int| None),
        wrong: Seq::new(n, |i: int| Set::empty()),
        unplaced: Set::empty(),
        absent: Set::empty(),
    }
}

/// What disposition `d` of letter `ch` at position `idx` adds to `k`.
pub open spec fn learn_one(k: Knowledge, idx: int, ch: char, d: Disposition) -> Knowledge {
    match d {
        Disposition::NotInWord => Knowledge { absent: k.absent.insert(ch), ..k },
        Disposition::WrongPosition => Knowledge {
            unplaced: k.unplaced.insert(ch),
            wrong: k.wrong.update(idx, k.wrong[idx].insert(ch)),
            ..k
        },
        Disposition::Correct => Knowledge {
            known: k.known.update(idx, Some(ch)),
            unplaced: k.unplaced.remove(ch),
            ..k
        },
        _ => k,
    }
}

/// `k` after the first `n` positions of `guess` and its feedback `fb`.
pub open spec fn learn(k: Knowledge, guess: Seq<char>, fb: Seq<Disposition>, n: int) -> Knowledge
    decreases n,
{
    if n <= 0 {
        k
    } else {
        learn_one(learn(k, guess, fb, n - 1), n - 1, guess[n - 1], fb[n - 1])
    }
}

/// Whether word `w` fits knowledge `k`.
pub open spec fn admits(k: Knowledge, w: Seq<char>) -> bool {
    &&& forall|j: int| 0 <= j < w.len() ==> !k.absent.contains(#[trigger] w[j])
    &&& forall|i: int|
        0 <= i < w.len() && i < k.known.len() && (#[trigger] k.known[i]) is Some ==> w[i]
            == k.known[i]->0
    &&& forall|i: int| 0 <= i < w.len() && i < k.wrong.len() ==> !(#[trigger] k.wrong[i]).contains(w[i])
    &&& forall|c: char| #[trigger] k.unplaced.contains(c) ==> w.contains(c)
}

/// Whether `fb` can be feedback on `guess` for a petitioner whose guesses always
/// have the secret's length: one disposition per letter, none of them `Missing`
/// or `Extra`.
pub open spec fn fits(guess: Seq<char>, fb: Seq<Disposition>) -> bool {
    &&& fb.len() == guess.len()
    &&& judgeable(fb)
}

/// Whether `fb` judges every letter: it holds no `Missing` and no `Extra`.
pub open spec fn judgeable(fb: Seq<Disposition>) -> bool {
    forall|i: int|
        0 <= i < fb.len() ==> #[trigger] fb[i] != Disposition::Missing && fb[i]
            != Disposition::Extra
}

/// The words that fit knowledge `k`.
pub open spec fn admitted_by(k: Knowledge) -> spec_fn(Seq<char>) -> bool {
    |w: Seq<char>| admits(k, w)
}

/// The letters of `v` other than `c`.
fn without(v: &Vec<char>, c: char) -> (r: Vec<char>)
    ensures
        set_of(r@) == set_of(v@).remove(c),
{
    let mut r: Vec<char> = Vec::new();
    let mut i: usize = 0;
    while i < v.len()
        invariant
            i <= v@.len(),
            forall|x: char| r@.contains(x) <==> x != c && v@.subrange(0, i as int).contains(x),
        decreases v@.len() - i,
    {
        let ghost before = r@;
        if v[i] != c {
            r.push(v[i]);
        }
        proof {
            broadcast use vstd::seq_lib::group_seq_properties;

            assert(v@.subrange(0, i + 1) =~= v@.subrange(0, i as int).push(v@[i as int]));
            if v@[i as int] != c {
                assert(r@ =~= before.push(v@[i as int]));
            } else {
                assert(r@ =~= before);
            }
        }
        i = i + 1;
    }
    assert(v@.subrange(0, v@.len() as int) =~= v@);
    assert(set_of(r@) =~= set_of(v@).remove(c));
    r
}

/// Whether `fb` judges every letter, as `judgeable` says.
fn judges_every_letter(fb: &Feedback) -> (r: bool)
    ensures
        r == judgeable(fb@),
{
    let mut j: usize = 0;
    while j < fb.len()
        invariant
            j <= fb@.len(),
            forall|x: int|
                0 <= x < j ==> #[trigger] fb@[x] != Disposition::Missing && fb@[x]
                    != Disposition::Extra,
        decreases fb@.len() - j,
    {
        if fb[j] == Disposition::Missing || fb[j] == Disposition::Extra {
            return false;
        }
        j = j + 1;
    }
    true
}

/// Guesses at random among the dictionary words that still fit all feedback.
pub struct DictSolver {
    /// the words which we can choose from
    words: Vec<String>,
    /// the previous guess
    last_guess: Option<String>,
    /// the set of characters known to be in the right place
    known_chars: Vec<Option<char>>,
    /// chars known to be in the word but not in this position
    known_wrong_chars: Vec<Vec<char>>,
    /// the set of characters known to be in the word in unknown position
    unknown_position: Vec<char>,
    /// the set of characters known not to be in the word
    not_in_word: Vec<char>,
}

impl DictSolver {
    /// The words still in the running.
    pub closed spec fn candidates(&self) -> Seq<Seq<char>> {
        views(self.words@)
    }

    /// The guess whose feedback is awaited, if any.
    pub closed spec fn outstanding(&self) -> Option<Seq<char>> {
        match self.last_guess {
            Some(g) => Some(g@),
            None => None,
        }
    }

    /// The number of letters of the words this solver guesses.
    pub closed spec fn word_length(&self) -> nat {
        self.known_chars@.len()
    }

    /// What the solver has learned so far.
    pub closed spec fn knowledge(&self) -> Knowledge {
        Knowledge {
            known: self.known_chars@,
            wrong: self.known_wrong_chars@.map_values(|v: Vec<char>| set_of(v@)),
            unplaced: set_of(self.unknown_position@),
            absent: set_of(self.not_in_word@),
        }
    }

    /// The solver's consistency condition: one constraint slot per letter, and
    /// every candidate and the outstanding guess of the solver's word length.
    pub closed spec fn wf(&self) -> bool {
        &&& self.known_wrong_chars@.len() == self.known_chars@.len()
        &&& forall|i: int|
            0 <= i < self.words@.len() ==> (#[trigger] self.words@[i])@.len()
                == self.known_chars@.len()
        &&& self.last_guess matches Some(g) ==> g@.len() == self.known_chars@.len()
    }

    /// What the consistency condition shows callers: one constraint slot per
    /// letter, and every candidate and the outstanding guess of the solver's word
    /// length.
    pub open spec fn shaped(&self) -> bool {
        &&& self.knowledge().known.len() == self.word_length()
        &&& self.knowledge().wrong.len() == self.word_length()
        &&& forall|i: int|
            0 <= i < self.candidates().len() ==> (#[trigger] self.candidates()[i]).len()
                == self.word_length()
        &&& self.outstanding() matches Some(g) ==> g.len() == self.word_length()
    }

    /// Whether `word` fits everything learned so far.
    fn admits_word(&self, word: &String) -> (r: bool)
        ensures
            r == admits(self.knowledge(), word@),
    {
        let w = chars_of(word.as_str());
        let ghost k = self.knowledge();
        // eliminate words with characters known to be wrong
        let mut j: usize = 0;
        while j < w.len()
            invariant
                j <= w@.len(),
                k == self.knowledge(),
                w@ == word@,
                forall|x: int| 0 <= x < j ==> !k.absent.contains(#[trigger] w@[x]),
            decreases w@.len() - j,
        {
            if contains_char(&self.not_in_word, w[j]) {
                return false;
            }
            j = j + 1;
        }
        // choose only words with characters matching known-good characters
        let mut i: usize = 0;
        while i < w.len() && i < self.known_chars.len()
            invariant
                i <= w@.len(),
                k == self.knowledge(),
                w@ == word@,
                forall|x: int|
                    0 <= x < i && x < k.known.len() && (#[trigger] k.known[x]) is Some ==> w@[x]
                        == k.known[x]->0,
            decreases w@.len() - i,
        {
            if let Some(want) = self.known_chars[i] {
                if want != w[i] {
                    return false;
                }
            }
            i = i + 1;
        }
        // choose only words with characters which are not in known-wrong places
        let mut i: usize = 0;
        while i < w.len() && i < self.known_wrong_chars.len()
            invariant
                i <= w@.len(),
                k == self.knowledge(),
                w@ == word@,
                forall|x: int|
                    0 <= x < i && x < k.wrong.len() ==> !(#[trigger] k.wrong[x]).contains(w@[x]),
            decreases w@.len() - i,
        {
            assert(k.wrong[i as int] == set_of(self.known_wrong_chars@[i as int]@));
            if contains_char(&self.known_wrong_chars[i], w[i]) {
                assert(k.wrong[i as int].contains(w@[i as int]));
                return false;
            }
            i = i + 1;
        }
        // choose only words which contain all necessary characters
        let mut u: usize = 0;
        while u < self.unknown_position.len()
            invariant
                u <= self.unknown_position@.len(),
                k == self.knowledge(),
                w@ == word@,
                forall|x: int| 0 <= x < u ==> w@.contains(#[trigger] self.unknown_position@[x]),
            decreases self.unknown_position@.len() - u,
        {
            if !contains_char(&w, self.unknown_position[u]) {
                assert(k.unplaced.contains(self.unknown_position@[u as int]));
                return false;
            }
            u = u + 1;
        }
        assert forall|c: char| #[trigger] k.unplaced.contains(c) implies w@.contains(c) by {
            let x = choose|x: int| 0 <= x < self.unknown_position@.len() && self.unknown_position@[x] == c;
            assert(w@.contains(self.unknown_position@[x]));
        }
        true
    }
    /// Keeps only the candidates that fit what is known.
    fn narrow(&mut self)
        requires
            old(self).wf(),
        ensures
            final(self).wf(),
            final(self).known_chars == old(self).known_chars,
            final(self).known_wrong_chars == old(self).known_wrong_chars,
            final(self).unknown_position == old(self).unknown_position,
            final(self).not_in_word == old(self).not_in_word,
            final(self).last_guess == old(self).last_guess,
            final(self).candidates() == old(self).candidates().filter(
                admitted_by(old(self).knowledge()),
            ),
    {
        let ghost k = self.knowledge();
        let ghost ws = self.words@;
        let mut kept: Vec<String> = Vec::new();
        let mut i: usize = 0;
        while i < self.words.len()
            invariant
                self.wf(),
                self.words@ == ws,
                k == self.knowledge(),
                i <= ws.len(),
                views(kept@) == views(ws.subrange(0, i as int)).filter(admitted_by(k)),
                forall|x: int|
                    0 <= x < kept@.len() ==> (#[trigger] kept@[x])@.len() == self.known_chars@.len(),
            decreases ws.len() - i,
        {
            let ghost before = kept@;
            if self.admits_word(&self.words[i]) {
                let w = self.words[i].clone();
                kept.push(w);
            }
            proof {
                assert(views(ws.subrange(0, i + 1)) =~= views(ws.subrange(0, i as int)).push(
                    ws[i as int]@,
                ));
                views(ws.subrange(0, i as int)).lemma_filter_push(ws[i as int]@, admitted_by(k));
                if admits(k, ws[i as int]@) {
                    assert(views(kept@) =~= views(before).push(ws[i as int]@));
                } else {
                    assert(views(kept@) =~= views(before));
                }
                assert(self.words@[i as int]@.len() == self.known_chars@.len());
            }
            i = i + 1;
        }
        assert(ws.subrange(0, ws.len() as int) =~= ws);
        self.words = kept;
    }

    /// Takes the feedback on the outstanding guess: learns from each letter's
    /// disposition, then keeps only the candidates that fit all that is known.
    ///
    /// Feedback of another length than the guess is refused with
    /// `InappropriateFeedback`; either way the guess is no longer outstanding. This
    /// solver's guesses always have the secret's length, so feedback on them never
    /// holds `Missing` or `Extra`: the caller sees to that.
    pub fn feedback(&mut self, feedback: Feedback) -> (r: Result<(), Error>)
        requires
            old(self).wf(),
            judgeable(feedback@),
        ensures
            final(self).wf(),
            final(self).shaped(),
            final(self).word_length() == old(self).word_length(),
            final(self).outstanding() is None,
            final(self).candidates().len() <= old(self).candidates().len(),
            match old(self).outstanding() {
                None => {
                    &&& r matches Err(Error::UnexpectedFeedback)
                    &&& final(self).candidates() == old(self).candidates()
                    &&& final(self).knowledge() == old(self).knowledge()
                },
                Some(g) => if fits(g, feedback@) {
                    &&& r is Ok
                    &&& final(self).knowledge() == learn(
                        old(self).knowledge(),
                        g,
                        feedback@,
                        g.len() as int,
                    )
                    &&& final(self).candidates() == old(self).candidates().filter(
                        admitted_by(final(self).knowledge()),
                    )
                } else {
                    &&& r matches Err(Error::InappropriateFeedback)
                    &&& final(self).candidates() == old(self).candidates()
                    &&& final(self).knowledge() == old(self).knowledge()
                },
            },
    {
        let last_guess = match &self.last_guess {
            Some(g) => g.clone(),
            None => {
                return Err(Error::UnexpectedFeedback);
            },
        };
        self.last_guess = None;
        let g = chars_of(last_guess.as_str());
        if feedback.len() != g.len() {
            return Err(Error::InappropriateFeedback);
        }
        let ghost k0 = self.knowledge();
        let ghost ws = self.words@;
        let ghost fb = feedback@;
        let mut idx: usize = 0;
        while idx < g.len()
            invariant
                self.wf(),
                self.words@ == ws,
                self.last_guess is None,
                fb == feedback@,
                fits(g@, fb),
                g@.len() == self.known_chars@.len(),
                idx <= g@.len(),
                self.knowledge() == learn(k0, g@, fb, idx as int),
            decreases g@.len() - idx,
        {
            let ch = g[idx];
            let ghost k = self.knowledge();
            let ghost wrong_before = self.known_wrong_chars@;
            match feedback[idx] {
                Disposition::NotInWord => {
                    self.not_in_word.push(ch);
                },
                Disposition::WrongPosition => {
                    self.unknown_position.push(ch);
                    let mut list = self.known_wrong_chars[idx].clone();
                    assert(list@ =~= wrong_before[idx as int]@);
                    list.push(ch);
                    self.known_wrong_chars.set(idx, list);
                },
                Disposition::Correct => {
                    self.known_chars.set(idx, Some(ch));
                    self.unknown_position = without(&self.unknown_position, ch);
                },
                _ => {},
            }
            proof {
                broadcast use vstd::seq_lib::group_seq_properties;

                let ks = self.knowledge();
                let kl = learn_one(k, idx as int, ch, fb[idx as int]);
                assert(learn(k0, g@, fb, idx + 1) == kl);
                assert(ks.absent =~= kl.absent);
                assert(ks.unplaced =~= kl.unplaced);
                assert(ks.known =~= kl.known);
                if fb[idx as int] == Disposition::WrongPosition {
                    assert(k.wrong[idx as int] == set_of(wrong_before[idx as int]@));
                    assert(set_of(self.known_wrong_chars@[idx as int]@) =~= set_of(
                        wrong_before[idx as int]@,
                    ).insert(ch));
                }
                assert(ks.wrong =~= kl.wrong);
            }
            idx = idx + 1;
        }
        let ghost k1 = self.knowledge();
        self.narrow();
        proof {
            views(ws).lemma_filter_len(admitted_by(k1));
        }
        Ok(())
    }
    /// A solver for words of `word_length` letters, over the words of `dictionary`
    /// that have that length; with none such it fails with `EmptyDictionary`.
    pub fn new(word_length: usize, dictionary: Vec<String>) -> (r: Result<DictSolver, Error>)
        ensures
            r is Err <==> of_length(views(dictionary@), word_length as nat).len() == 0,
            r matches Err(e) ==> e is EmptyDictionary,
            r matches Ok(s) ==> {
                &&& s.wf()
                &&& s.shaped()
                &&& s.word_length() == word_length
                &&& s.candidates() == of_length(views(dictionary@), word_length as nat)
                &&& s.outstanding() is None
                &&& s.knowledge() == ignorance(word_length as nat)
            },
    {
        let words = words_of_length(&dictionary, word_length);
        if words.len() == 0 {
            return Err(Error::EmptyDictionary);
        }
        let mut known_chars: Vec<Option<char>> = Vec::new();
        let mut known_wrong_chars: Vec<Vec<char>> = Vec::new();
        let mut i: usize = 0;
        while i < word_length
            invariant
                i <= word_length,
                known_chars@ == Seq::new(i as nat, |x: int| None::<char>),
                known_wrong_chars@.len() == i,
                forall|x: int| 0 <= x < i ==> (#[trigger] known_wrong_chars@[x])@.len() == 0,
            decreases word_length - i,
        {
            known_chars.push(None);
            known_wrong_chars.push(Vec::new());
            i = i + 1;
            assert(known_chars@ =~= Seq::new(i as nat, |x: int| None::<char>));
        }
        let s = DictSolver {
            words,
            last_guess: None,
            known_chars,
            known_wrong_chars,
            unknown_position: Vec::new(),
            not_in_word: Vec::new(),
        };
        proof {
            let k = s.knowledge();
            let e = ignorance(word_length as nat);
            assert(k.wrong =~= e.wrong) by {
                assert forall|x: int| 0 <= x < word_length implies k.wrong[x] =~= e.wrong[x] by {
                    assert(s.known_wrong_chars@[x]@.len() == 0);
                }
            }
            assert(k.unplaced =~= e.unplaced);
            assert(k.absent =~= e.absent);
            assert(k.known =~= e.known);
        }
        Ok(s)
    }

    /// Proposes candidate number `pick`, counted modulo the number of candidates,
    /// and awaits feedback on it.
    ///
    /// While a guess is outstanding it fails with `AwaitingFeedback`; with no
    /// candidate left, with `Stumped`.
    pub fn prepare_guess_at(&mut self, pick: usize) -> (r: Result<String, Error>)
        requires
            old(self).wf(),
        ensures
            final(self).wf(),
            final(self).shaped(),
            final(self).word_length() == old(self).word_length(),
            final(self).candidates() == old(self).candidates(),
            final(self).knowledge() == old(self).knowledge(),
            match old(self).outstanding() {
                Some(_) => {
                    &&& r matches Err(Error::AwaitingFeedback)
                    &&& final(self).outstanding() == old(self).outstanding()
                },
                None => if old(self).candidates().len() == 0 {
                    &&& r matches Err(Error::Stumped)
                    &&& final(self).outstanding() is None
                } else {
                    &&& r matches Ok(g) && g@ == old(self).candidates()[(pick as int)
                        % (old(self).candidates().len() as int)]
                    &&& final(self).outstanding() == Some(r->Ok_0@)
                },
            },
    {
        if self.last_guess.is_some() {
            return Err(Error::AwaitingFeedback);
        }
        if self.words.len() == 0 {
            return Err(Error::Stumped);
        }
        let idx = pick % self.words.len();
        let guess = self.words[idx].clone();
        self.last_guess = Some(self.words[idx].clone());
        Ok(guess)
    }

    /// Proposes a candidate chosen at random and awaits feedback on it.
    ///
    /// While a guess is outstanding it fails with `AwaitingFeedback`; with no
    /// candidate left, with `Stumped`.
    pub fn prepare_guess(&mut self) -> (r: Result<String, Error>)
        requires
            old(self).wf(),
        ensures
            final(self).wf(),
            final(self).shaped(),
            final(self).word_length() == old(self).word_length(),
            final(self).candidates() == old(self).candidates(),
            final(self).knowledge() == old(self).knowledge(),
            match old(self).outstanding() {
                Some(_) => {
                    &&& r matches Err(Error::AwaitingFeedback)
                    &&& final(self).outstanding() == old(self).outstanding()
                },
                None => if old(self).candidates().len() == 0 {
                    &&& r matches Err(Error::Stumped)
                    &&& final(self).outstanding() is None
                } else {
                    &&& r matches Ok(g) && old(self).candidates().contains(g@)
                    &&& final(self).outstanding() == Some(r->Ok_0@)
                },
            },
    {
        if self.last_guess.is_some() {
            return Err(Error::AwaitingFeedback);
        }
        if self.words.len() == 0 {
            return Err(Error::Stumped);
        }
        let pick = random_index(self.words.len());
        let r = self.prepare_guess_at(pick);
        assert((pick as int) % (self.words@.len() as int) == pick as int) by (nonlinear_arith)
            requires
                pick < self.words@.len(),
        ;
        r
    }
    /// The number of words still in the running.
    pub fn candidate_count(&self) -> (r: usize)
        ensures
            r == self.candidates().len(),
    {
        self.words.len()
    }

    /// Whether feedback on a guess is awaited.
    pub fn awaiting_feedback(&self) -> (r: bool)
        ensures
            r == self.outstanding() is Some,
    {
        self.last_guess.is_some()
    }
}


impl Petitioner for DictSolver {
    open spec fn inv(&self) -> bool {
        self.wf()
    }

    fn prepare_guess(&mut self) -> (r: Result<String, Error>) {
        DictSolver::prepare_guess(self)
    }

    /// Feedback holding `Missing` or `Extra` is refused with `InappropriateFeedback`,
    /// and the guess is no longer outstanding.
    fn feedback(&mut self, feedback: Feedback) -> (r: Result<(), Error>) {
        if self.last_guess.is_none() {
            return Err(Error::UnexpectedFeedback);
        }
        if !judges_every_letter(&feedback) {
            self.last_guess = None;
            return Err(Error::InappropriateFeedback);
        }
        DictSolver::feedback(self, feedback)
    }
}


/// Learning only adds: letters known absent, and letters known wrong at a position,
/// stay known as more of the feedback is read.
proof fn lemma_learn_grows(k: Knowledge, guess: Seq<char>, fb: Seq<Disposition>, m: int, n: int)
    requires
        0 <= m <= n <= guess.len(),
        guess.len() == k.wrong.len(),
        guess.len() == k.known.len(),
    ensures
        learn(k, guess, fb, n).wrong.len() == k.wrong.len(),
        learn(k, guess, fb, n).known.len() == k.known.len(),
        forall|c: char| #[trigger]
            learn(k, guess, fb, m).absent.contains(c) ==> learn(k, guess, fb, n).absent.contains(c),
        forall|j: int, c: char|
            0 <= j < k.wrong.len() && #[trigger] learn(k, guess, fb, m).wrong[j].contains(c)
                ==> learn(k, guess, fb, n).wrong[j].contains(c),
    decreases n,
{
    if n > 0 {
        lemma_learn_grows(k, guess, fb, 0, n - 1);
        if m < n {
            lemma_learn_grows(k, guess, fb, m, n - 1);
        }
    }
}

/// Truthful feedback keeps the secret admitted: if `secret` fits `k`, it still fits
/// after the first `n` positions of the oracle's feedback on a guess of its length.
proof fn lemma_learn_keeps_secret(k: Knowledge, secret: Seq<char>, guess: Seq<char>, n: int)
    requires
        admits(k, secret),
        guess.len() == secret.len(),
        k.wrong.len() == secret.len(),
        k.known.len() == secret.len(),
        0 <= n <= guess.len(),
    ensures
        admits(learn(k, guess, judge(secret, guess), n), secret),
    decreases n,
{
    if n > 0 {
        let fb = judge(secret, guess);
        lemma_learn_keeps_secret(k, secret, guess, n - 1);
        lemma_learn_grows(k, guess, fb, 0, n - 1);
        let prev = learn(k, guess, fb, n - 1);
        let next = learn(k, guess, fb, n);
        let i = n - 1;
        assert(next == learn_one(prev, i, guess[i], fb[i]));
        assert(fb[i] == disposition_at(secret, guess, i));
        if fb[i] == Disposition::WrongPosition {
            assert forall|x: int| 0 <= x < secret.len() && x < next.wrong.len() implies !(
            #[trigger] next.wrong[x]).contains(secret[x]) by {
                if x != i {
                    assert(next.wrong[x] == prev.wrong[x]);
                }
            }
            assert forall|c: char| #[trigger] next.unplaced.contains(c) implies secret.contains(
                c,
            ) by {
                if c != guess[i] {
                    assert(prev.unplaced.contains(c));
                }
            }
        } else if fb[i] == Disposition::Correct {
            assert forall|x: int|
                0 <= x < secret.len() && x < next.known.len() && (
                #[trigger] next.known[x]) is Some implies secret[x] == next.known[x]->0 by {
                if x != i {
                    assert(next.known[x] == prev.known[x]);
                }
            }
        }
    }
}

/// Truthful feedback excludes a wrong guess: for knowledge `k` about words of the
/// secret's length and a guess of that length other than the secret, once the
/// oracle's feedback on the guess is learned the guess no longer fits.
pub proof fn lemma_round_excludes_guess(k: Knowledge, secret: Seq<char>, guess: Seq<char>)
    requires
        guess.len() == secret.len(),
        k.wrong.len() == secret.len(),
        k.known.len() == secret.len(),
        guess != secret,
    ensures
        !admits(learn(k, guess, judge(secret, guess), guess.len() as int), guess),
{
    let fb = judge(secret, guess);
    let n = guess.len() as int;
    assert(exists|i: int| 0 <= i < n && guess[i] != secret[i]) by {
        if forall|i: int| 0 <= i < n ==> guess[i] == secret[i] {
            assert(guess =~= secret);
        }
    }
    let i = choose|i: int| 0 <= i < n && guess[i] != secret[i];
    let step = learn(k, guess, fb, i + 1);
    let last = learn(k, guess, fb, n);
    lemma_learn_grows(k, guess, fb, 0, i);
    assert(step == learn_one(learn(k, guess, fb, i), i, guess[i], fb[i]));
    lemma_learn_grows(k, guess, fb, i + 1, n);
    assert(fb[i] == disposition_at(secret, guess, i));
    if secret.contains(guess[i]) {
        assert(step.wrong[i].contains(guess[i]));
        assert(last.wrong[i].contains(guess[i]));
    } else {
        assert(step.absent.contains(guess[i]));
        assert(last.absent.contains(guess[i]));
    }
}

/// A round of truthful feedback excludes a wrong guess and keeps the secret.
///
/// For knowledge `k` about words of the secret's length that the secret fits, and a
/// guess of that length other than the secret: once the oracle's feedback on the
/// guess is learned, the secret still fits and the guess no longer does.
pub proof fn lemma_round_excludes_guess_keeps_secret(
    k: Knowledge,
    secret: Seq<char>,
    guess: Seq<char>,
)
    requires
        admits(k, secret),
        guess.len() == secret.len(),
        k.wrong.len() == secret.len(),
        k.known.len() == secret.len(),
        guess != secret,
    ensures
        admits(learn(k, guess, judge(secret, guess), guess.len() as int), secret),
        !admits(learn(k, guess, judge(secret, guess), guess.len() as int), guess),
{
    lemma_learn_keeps_secret(k, secret, guess, guess.len() as int);
    lemma_round_excludes_guess(k, secret, guess);
}

/// Filtering adds nothing: what the filtered sequence holds, the sequence held.
proof fn lemma_filter_keeps_only(s: Seq<Seq<char>>, pred: spec_fn(Seq<char>) -> bool, w: Seq<char>)
    requires
        s.filter(pred).contains(w),
    ensures
        s.contains(w),
    decreases s.len(),
{
    reveal(Seq::filter);
    if s.len() > 0 && s.last() != w {
        let sub = s.drop_last().filter(pred);
        let j = choose|j: int| 0 <= j < s.filter(pred).len() && s.filter(pred)[j] == w;
        if pred(s.last()) {
            assert(j < sub.len());
            assert(sub[j] == w);
        }
        lemma_filter_keeps_only(s.drop_last(), pred, w);
        let i = choose|i: int| 0 <= i < s.drop_last().len() && s.drop_last()[i] == w;
        assert(s[i] == w);
    }
}

/// Filtering out an element that fails the predicate makes a sequence shorter.
proof fn lemma_filter_drops(s: Seq<Seq<char>>, pred: spec_fn(Seq<char>) -> bool, x: Seq<char>)
    requires
        s.contains(x),
        !pred(x),
    ensures
        s.filter(pred).len() < s.len(),
    decreases s.len(),
{
    reveal(Seq::filter);
    s.drop_last().lemma_filter_len(pred);
    if s.last() != x {
        let i = choose|i: int| 0 <= i < s.len() && s[i] == x;
        assert(s.drop_last()[i] == x);
        lemma_filter_drops(s.drop_last(), pred, x);
    }
}

/// A round of the solver on truthful feedback takes the wrong guess out of the
/// candidates, and adds none.
///
/// `before` is a solver whose outstanding guess is one of its candidates and not the
/// secret, which has the solver's word length; `after` is that solver once it has
/// taken the oracle's feedback on the guess, as `feedback` states it.
pub proof fn lemma_truthful_round_drops_guess(
    before: DictSolver,
    after: DictSolver,
    secret: Seq<char>,
)
    requires
        before.wf(),
        before.outstanding() matches Some(g) && before.candidates().contains(g) && g != secret,
        secret.len() == before.word_length(),
        after.knowledge() == learn(
            before.knowledge(),
            before.outstanding()->0,
            judge(secret, before.outstanding()->0),
            before.outstanding()->0.len() as int,
        ),
        after.candidates() == before.candidates().filter(admitted_by(after.knowledge())),
    ensures
        after.candidates().len() < before.candidates().len(),
        forall|w: Seq<char>| #[trigger]
            after.candidates().contains(w) ==> before.candidates().contains(w),
{
    let g = before.outstanding()->0;
    lemma_round_excludes_guess(before.knowledge(), secret, g);
    lemma_filter_drops(before.candidates(), admitted_by(after.knowledge()), g);
    assert forall|w: Seq<char>| #[trigger]
        after.candidates().contains(w) implies before.candidates().contains(w) by {
        lemma_filter_keeps_only(before.candidates(), admitted_by(after.knowledge()), w);
    }
}

/// A round of the solver on truthful feedback keeps the secret among the candidates
/// and takes at least one word out.
///
/// `before` is a solver whose candidates hold the secret, which fits all it has
/// learned, and whose outstanding guess is one of its candidates and not the secret;
/// `after` is that solver once it has taken the oracle's feedback on the guess, as
/// `feedback` states it.
pub proof fn lemma_truthful_round_shrinks(before: DictSolver, after: DictSolver, secret: Seq<char>)
    requires
        before.wf(),
        before.outstanding() matches Some(g) && before.candidates().contains(g) && g != secret,
        before.candidates().contains(secret),
        admits(before.knowledge(), secret),
        after.knowledge() == learn(
            before.knowledge(),
            before.outstanding()->0,
            judge(secret, before.outstanding()->0),
            before.outstanding()->0.len() as int,
        ),
        after.candidates() == before.candidates().filter(admitted_by(after.knowledge())),
    ensures
        after.candidates().contains(secret),
        admits(after.knowledge(), secret),
        after.candidates().len() < before.candidates().len(),
{
    let g = before.outstanding()->0;
    let i = choose|i: int| 0 <= i < before.candidates().len() && before.candidates()[i] == secret;
    assert(before.words@[i]@ == secret);
    lemma_truthful_round_drops_guess(before, after, secret);
    lemma_learn_keeps_secret(before.knowledge(), secret, g, g.len() as int);
    before.candidates().lemma_filter_contains_rev(admitted_by(after.knowledge()), secret);
}

} // verus!
