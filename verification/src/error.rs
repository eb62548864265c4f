//! What can go wrong.

use vstd::prelude::*;

verus! {

/// Why sentences could not be cut out of a context or rounded.
#[derive(Clone, Copy, Debug, PartialEq, Eq, Structural)]
pub enum SentenceError {
    /// There are no sentence coordinates.
    NoSentences,
    /// A sentence's coordinates hold no token.
    EmptySentence { start: usize, end: usize },
    /// A sentence's coordinates end after the last token.
    PastLastToken { end: usize, n_tokens: usize },
    /// A byte range is reversed or ends after the context.
    InvalidRange { start: usize, end: usize, len: usize },
    /// A byte range starts or ends inside a character.
    NotOnCharBoundary { start: usize, end: usize },
}

/// What is wrong with a request.
#[derive(Clone, Copy, Debug, PartialEq, Eq, Structural)]
pub enum RequestError {
    /// There are not as many lists of contexts as questions.
    QuestionsAndContextsDiffer,
    /// The question with this index is empty.
    EmptyQuestion(usize),
    /// There are not as many lists of titles as questions.
    TitlesAndQuestionsDiffer,
    /// A list of titles is not as long as the list of contexts.
    TitleListLength { list: usize, n_titles: usize, n_contexts: usize },
}

/// Why questions and contexts could not be processed.
#[derive(Debug, PartialEq, Eq)]
pub enum ProcessError {
    /// The request cannot be processed.
    Request(RequestError),
    /// The input could not be encoded.
    Tokenization(String),
    /// The encoded input has no separator.
    SeparatorMissing,
    /// The network failed.
    Network(String),
    /// The network gave no ranking score.
    NoRankingScore,
    /// The probabilities could not be read off the network's output.
    KeepProbabilities(String),
    /// The sentences could not be cut out or rounded.
    Sentences(SentenceError),
    /// The kept tokens could not be decoded.
    Decoding(String),
}

/// An error, with messages as sequences of characters.
pub enum ErrorView {
    Request(RequestError),
    Tokenization(Seq<char>),
    SeparatorMissing,
    Network(Seq<char>),
    NoRankingScore,
    KeepProbabilities(Seq<char>),
    Sentences(SentenceError),
    Decoding(Seq<char>),
}

impl View for ProcessError {
    type V = ErrorView;

    open spec fn view(&self) -> ErrorView {
        match *self {
            ProcessError::Request(e) => ErrorView::Request(e),
            ProcessError::Tokenization(message) => ErrorView::Tokenization(message@),
            ProcessError::SeparatorMissing => ErrorView::SeparatorMissing,
            ProcessError::Network(message) => ErrorView::Network(message@),
            ProcessError::NoRankingScore => ErrorView::NoRankingScore,
            ProcessError::KeepProbabilities(message) => ErrorView::KeepProbabilities(message@),
            ProcessError::Sentences(e) => ErrorView::Sentences(e),
            ProcessError::Decoding(message) => ErrorView::Decoding(message@),
        }
    }
}

} // verus!
