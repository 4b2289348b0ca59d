//! Characters of a story, with validated names.

use vstd::prelude::*;
use crate::ids::{CharacterKind, Id};
use crate::metadata::Metadata;
use crate::text;

verus! {

/// Why a character name was rejected.
#[derive(Debug, Clone, PartialEq, Eq)]
pub enum CharacterError {
    NameEmpty,
    NameTooLong,
    NameContainsControlChars,
}

/// A validated character name: non-empty, at most 100 bytes of UTF-8, free
/// of control characters, whitespace-normalised.
#[derive(Debug, Clone)]
pub struct CharacterName(String);

impl CharacterName {
    pub closed spec fn view(&self) -> Seq<char> {
        self.0@
    }

    /// Normalises `input` and wraps it, rejecting names that are empty,
    /// longer than 100 bytes, or contain control characters.
    pub fn new(input: &str) -> (r: Result<Self, CharacterError>)
        ensures
            match r {
                Ok(n) => n@ == text::normalize_ws(input@) && n@.len() > 0 && text::utf8_len(n@)
                    <= 100 && !text::has_control(n@),
                Err(CharacterError::NameEmpty) => text::normalize_ws(input@).len() == 0,
                Err(CharacterError::NameTooLong) => text::utf8_len(text::normalize_ws(input@))
                    > 100,
                Err(CharacterError::NameContainsControlChars) => text::normalize_ws(input@).len()
                    > 0 && text::utf8_len(text::normalize_ws(input@)) <= 100 && text::has_control(
                    text::normalize_ws(input@),
                ),
            },
    {
        let name = text::trim_input(input);

        if name.as_str().unicode_len() == 0 {
            return Err(CharacterError::NameEmpty);
        }

        if !text::utf8_len_at_most(name.as_str(), 100) {
            return Err(CharacterError::NameTooLong);
        }

        if text::contains_control(name.as_str()) {
            return Err(CharacterError::NameContainsControlChars);
        }

        Ok(CharacterName(name))
    }
}

/// One character appearing in the story.
#[derive(Debug, Clone)]
pub struct Character {
    id: Id<CharacterKind>,
    name: CharacterName,
    metadata: Metadata,
}

impl Character {
    pub closed spec fn spec_id(&self) -> u128 {
        self.id@
    }

    pub closed spec fn spec_name(&self) -> Seq<char> {
        self.name@
    }

    /// A fresh character with the given name.
    pub fn new(name: CharacterName) -> (r: Self)
        ensures
            r.spec_name() == name@,
    {
        Character { id: Id::new(), name, metadata: Metadata::new() }
    }

    /// The character's own identifier.
    pub fn id(&self) -> (r: Id<CharacterKind>)
        ensures
            r@ == self.spec_id(),
    {
        self.id.clone()
    }
}

} // verus!
