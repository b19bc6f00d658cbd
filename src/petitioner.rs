//! Petitioners guess at the secret word and learn from the oracle's feedback.

pub mod dict_solver;

use crate::oracle::Feedback;
use vstd::prelude::*;

verus! {

/// Why a petitioner could not go on.
#[derive(Debug)]
pub enum Error {
    /// The petitioner could not be reached; the text says why.
    Io(String),
    /// No word fits all the constraints learned so far.
    Stumped,
    /// A new guess was asked for while feedback on the previous one is still due.
    AwaitingFeedback,
    /// Feedback was given when no guess was outstanding.
    UnexpectedFeedback,
    /// The feedback does not fit the guess it was given for.
    InappropriateFeedback,
    /// The dictionary holds no word of the requested length.
    EmptyDictionary,
}

/// A petitioner must consider the pronouncements of the oracle to discover a secret
/// word. Calls alternate: `prepare_guess`, then `feedback` on that guess, and so on
/// until a guess is right or the oracle stops answering.
pub trait Petitioner {
    /// The petitioner's own consistency condition, kept by every call; none unless
    /// the implementation states one.
    open spec fn inv(&self) -> bool {
        true
    }

    /// Proposes the next guess; out of sequence it gives `Error::AwaitingFeedback`.
    fn prepare_guess(&mut self) -> (r: Result<String, Error>)
        requires
            old(self).inv(),
        ensures
            final(self).inv(),
    ;

    /// Takes the feedback on the previous guess; out of sequence it gives
    /// `Error::UnexpectedFeedback`.
    fn feedback(&mut self, feedback: Feedback) -> (r: Result<(), Error>)
        requires
            old(self).inv(),
        ensures
            final(self).inv(),
    ;
}

} // verus!
