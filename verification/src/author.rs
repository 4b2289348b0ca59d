//! Authors of a story, with validated names.

use vstd::prelude::*;
use crate::ids::{AuthorKind, Id};
use crate::metadata::Metadata;
use crate::text;

verus! {

/// Why an author name was rejected.
#[derive(Debug, Clone, PartialEq, Eq)]
pub enum AuthorError {
    EmptyName,
    NameTooLong,
    NameContainsControlChars,
}

/// A validated author name: non-empty, at most 100 bytes of UTF-8, free of
/// control characters, whitespace-normalised.
#[derive(Debug, Clone)]
pub struct AuthorName(String);

impl AuthorName {
    pub closed spec fn view(&self) -> Seq<char> {
        self.0@
    }

    /// Normalises `input` and wraps it, rejecting names that are empty,
    /// longer than 100 bytes, or contain control characters.
    pub fn new(input: &str) -> (r: Result<Self, AuthorError>)
        ensures
            match r {
                Ok(n) => n@ == text::normalize_ws(input@) && n@.len() > 0 && text::utf8_len(n@)
                    <= 100 && !text::has_control(n@),
                Err(AuthorError::EmptyName) => text::normalize_ws(input@).len() == 0,
                Err(AuthorError::NameTooLong) => text::utf8_len(text::normalize_ws(input@)) > 100,
                Err(AuthorError::NameContainsControlChars) => text::normalize_ws(input@).len() > 0
                    && text::utf8_len(text::normalize_ws(input@)) <= 100 && text::has_control(
                    text::normalize_ws(input@),
                ),
            },
    {
        let name = text::trim_input(input);

        if name.as_str().unicode_len() == 0 {
            return Err(AuthorError::EmptyName);
        }

        if !text::utf8_len_at_most(name.as_str(), 100) {
            return Err(AuthorError::NameTooLong);
        }

        if text::contains_control(name.as_str()) {
            return Err(AuthorError::NameContainsControlChars);
        }

        Ok(AuthorName(name))
    }

    pub fn as_str(&self) -> (r: &str)
        ensures
            r@ == self@,
    {
        self.0.as_str()
    }
}

/// The profile of one author of the story. Currently only the name.
#[derive(Debug, Clone)]
pub struct Author {
    id: Id<AuthorKind>,
    name: AuthorName,
    metadata: Metadata,
}

impl Author {
    pub closed spec fn spec_id(&self) -> u128 {
        self.id@
    }

    pub closed spec fn spec_name(&self) -> Seq<char> {
        self.name@
    }

    /// A fresh author with the given name.
    pub fn new(name: AuthorName) -> (r: Self)
        ensures
            r.spec_name() == name@,
    {
        Author { id: Id::new(), name, metadata: Metadata::new() }
    }

    /// The author's own identifier.
    pub fn id(&self) -> (r: Id<AuthorKind>)
        ensures
            r@ == self.spec_id(),
    {
        self.id.clone()
    }

    /// The author's name.
    pub fn name(&self) -> (r: &str)
        ensures
            r@ == self.spec_name(),
    {
        self.name.as_str()
    }
}

} // verus!
