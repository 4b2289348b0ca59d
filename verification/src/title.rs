//! The validated title of a story.

use vstd::prelude::*;
use vstd::string::StringExecFns;
use crate::text;

verus! {

/// Why a title was rejected.
#[derive(Debug, Clone, PartialEq, Eq)]
pub enum TitleError {
    EmptyTitle,
    TooLong,
    ContainsControlChars,
}

/// The title of the user's story. By default a story is an untitled
/// storyboard until a title is provided.
#[derive(Debug, Clone)]
pub struct Title(String);

impl Title {
    pub closed spec fn view(&self) -> Seq<char> {
        self.0@
    }

    /// Normalises `input` and wraps it, rejecting titles that are empty,
    /// longer than 100 characters, or contain control characters.
    pub fn new(input: &str) -> (r: Result<Self, TitleError>)
        ensures
            match r {
                Ok(t) => t@ == text::normalize_ws(input@) && 0 < t@.len() <= 100
                    && !text::has_control(t@),
                Err(TitleError::EmptyTitle) => text::normalize_ws(input@).len() == 0,
                Err(TitleError::TooLong) => text::normalize_ws(input@).len() > 100,
                Err(TitleError::ContainsControlChars) => 0 < text::normalize_ws(input@).len()
                    <= 100 && text::has_control(text::normalize_ws(input@)),
            },
    {
        let trimmed = text::trim_input(input);

        if trimmed.as_str().unicode_len() == 0 {
            return Err(TitleError::EmptyTitle);
        }

        if trimmed.as_str().unicode_len() > 100 {
            return Err(TitleError::TooLong);
        }

        if text::contains_control(trimmed.as_str()) {
            return Err(TitleError::ContainsControlChars);
        }

        Ok(Title(trimmed))
    }

    pub fn as_str(&self) -> (r: &str)
        ensures
            r@ == self@,
    {
        self.0.as_str()
    }
}

impl Default for Title {
    /// The placeholder title of a story that has not been named yet.
    fn default() -> (r: Self)
        ensures
            r@ == "Untitled Storyboard"@,
    {
        Title(String::from_str("Untitled Storyboard"))
    }
}

impl PartialEq for Title {
    fn eq(&self, other: &Self) -> bool {
        self.0.eq(&other.0)
    }
}

impl Eq for Title {}

impl vstd::std_specs::cmp::PartialEqSpecImpl for Title {
    open spec fn obeys_eq_spec() -> bool {
        true
    }

    open spec fn eq_spec(&self, other: &Self) -> bool {
        self@ == other@
    }
}

} // verus!
