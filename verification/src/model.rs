//! The model, as far as it deals with texts.

use crate::process::Selection;
use crate::rounding::SentenceRoundingMode;
use crate::score::Score;
use crate::sentences::SentenceSplitter;
use vstd::prelude::*;

verus! {

/// How the model prunes contexts. The network itself is handed to the methods
/// that need it.
#[derive(Clone, Copy, Debug, PartialEq, Eq, Structural)]
pub struct ProvenceModel {
    /// What is averaged over the tokens of a sentence.
    pub rounding_mode: SentenceRoundingMode,
    /// How a context is cut into sentences.
    pub splitter: SentenceSplitter,
}

impl ProvenceModel {
    /// How the model chooses sentences at a threshold.
    pub open spec fn spec_selection(self, threshold: Score, always_select_first: bool) -> Selection {
        Selection {
            rounding_mode: self.rounding_mode,
            splitter: self.splitter,
            threshold,
            always_select_first,
        }
    }

    /// How the model chooses sentences at a threshold.
    pub fn selection(&self, threshold: Score, always_select_first: bool) -> (selection: Selection)
        ensures
            selection == self.spec_selection(threshold, always_select_first),
    {
        Selection {
            rounding_mode: self.rounding_mode,
            splitter: self.splitter,
            threshold,
            always_select_first,
        }
    }
}

/// The model chooses sentences in its own way, at the threshold and with the rule
/// for the first sentence that it is given.
pub proof fn law_settings_are_passed_on(
    model: ProvenceModel,
    threshold: Score,
    always_select_first: bool,
    selection: Selection,
)
    requires
        call_ensures(ProvenceModel::selection, (&model, threshold, always_select_first), selection),
    ensures
        selection == model.spec_selection(threshold, always_select_first),
        selection.rounding_mode == model.rounding_mode,
        selection.splitter == model.splitter,
        selection.threshold == threshold,
        selection.always_select_first == always_select_first,
{
}

} // verus!
