//! The validated summary of a story.

use vstd::prelude::*;
use crate::text;

verus! {

/// Why a summary was rejected.
#[derive(Debug, Clone, PartialEq, Eq)]
pub enum SummaryError {
    EmptySummary,
    ContainsControlChars,
}

/// The summary of the user's story. By default the summary is empty until
/// one is provided.
#[derive(Debug, Clone)]
pub struct Summary(String);

impl Summary {
    pub closed spec fn view(&self) -> Seq<char> {
        self.0@
    }

    /// Normalises `input` and wraps it, rejecting summaries that are empty
    /// or contain control characters.
    pub fn new(input: &str) -> (r: Result<Self, SummaryError>)
        ensures
            match r {
                Ok(s) => s@ == text::normalize_ws(input@) && s@.len() > 0
                    && !text::has_control(s@),
                Err(SummaryError::EmptySummary) => text::normalize_ws(input@).len() == 0,
                Err(SummaryError::ContainsControlChars) => text::normalize_ws(input@).len() > 0
                    && text::has_control(text::normalize_ws(input@)),
            },
    {
        let trimmed = text::trim_input(input);

        if trimmed.as_str().unicode_len() == 0 {
            return Err(SummaryError::EmptySummary);
        }

        if text::contains_control(trimmed.as_str()) {
            return Err(SummaryError::ContainsControlChars);
        }

        Ok(Summary(trimmed))
    }

    pub fn as_str(&self) -> (r: &str)
        ensures
            r@ == self@,
    {
        self.0.as_str()
    }
}

impl Default for Summary {
    /// The empty summary of a story that has not been summarised yet.
    fn default() -> (r: Self)
        ensures
            r@ =~= Seq::<char>::empty(),
    {
        Summary(String::new())
    }
}

} // verus!
