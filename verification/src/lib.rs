//! Pruning contexts to the sentences that help to answer a question.
//!
//! A network gives each token of a context a probability that it is needed, and
//! the whole context a score. The library brings questions and contexts into
//! shape, builds the inputs of the network, and rounds its probabilities to
//! decisions on whole sentences: [`model::ProvenceModel`] is where to start.

pub mod agreement;
pub mod batch;
pub mod device;
pub mod encoding;
pub mod error;
pub mod labels;
pub mod length;
pub mod model;
pub mod prepare;
pub mod process;
pub mod pruning;
pub mod ranking;
pub mod rounding;
pub mod score;
pub mod selection;
pub mod sentences;
pub mod spans;
pub mod text;
pub mod wording;
