use vstd::prelude::*;

verus! {

/// What can go wrong when building a corpus, rating a guess or walking the
/// decision tree.
#[derive(Debug, Clone, Copy, PartialEq, Eq, Structural)]
pub enum Error {
    /// The word list holds no word.
    EmptyCorpus,
    /// The words do not all have the same length.
    UnequalLength,
    /// A metric was asked of a word that splits nothing (a one-word corpus).
    MetricUndefined,
    /// The cursor has no child for the word or match count supplied.
    NoMatchingChild,
}

impl Error {
    /// A short description for the user.
    pub fn message(&self) -> (r: &'static str) {
        match self {
            Error::EmptyCorpus => "Empty word's list",
            Error::UnequalLength => "Word's length is not equal",
            Error::MetricUndefined => "No metric for a single word",
            Error::NoMatchingChild => "No such choice at this step",
        }
    }
}

} // verus!
