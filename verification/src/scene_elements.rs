//! The content elements a scene variant is made of: headings, action beats
//! and dialogue blocks, with their validated text wrappers.

use vstd::prelude::*;
use crate::ids::{CharacterKind, DialogueKind, Id, SceneKind};
use crate::metadata::Metadata;
use crate::text;

verus! {

/// Why a scene element was rejected.
#[derive(Debug, Clone, PartialEq, Eq)]
pub enum SceneElementError {
    EmptyHeadingLocation,
    EmptySceneAction,
    EmptyDialogueText,
    EmptyParenthetical,
    ContainsControlChars,
}

/// Where the camera sits relative to the location.
#[derive(Debug, Clone, PartialEq, Eq, Structural)]
pub enum CameraLocation {
    Interior,
    Exterior,
}

/// A validated location name for a scene heading.
#[derive(Debug, Clone)]
pub struct SceneLocation(String);

impl SceneLocation {
    pub closed spec fn view(&self) -> Seq<char> {
        self.0@
    }

    /// Normalises `input` and wraps it, rejecting locations that are empty
    /// or contain control characters.
    pub fn new(input: &str) -> (r: Result<Self, SceneElementError>)
        ensures
            match r {
                Ok(loc) => loc@ == text::normalize_ws(input@) && loc@.len() > 0
                    && !text::has_control(loc@),
                Err(SceneElementError::EmptyHeadingLocation) => text::normalize_ws(
                    input@,
                ).len() == 0,
                Err(SceneElementError::ContainsControlChars) => text::normalize_ws(input@).len()
                    > 0 && text::has_control(text::normalize_ws(input@)),
                Err(_) => false,
            },
    {
        let trimmed = text::trim_input(input);

        if trimmed.as_str().unicode_len() == 0 {
            return Err(SceneElementError::EmptyHeadingLocation);
        }

        if text::contains_control(trimmed.as_str()) {
            return Err(SceneElementError::ContainsControlChars);
        }

        Ok(SceneLocation(trimmed))
    }
}

/// The time of day a scene heading declares.
#[derive(Debug, Clone, PartialEq, Eq, Structural)]
pub enum SceneTimeOfDay {
    Morning,
    Dawn,
    Day,
    Dusk,
    Evening,
    Night,
    Later,
    Continuous,
}

/// A scene heading: camera placement, location and time of day.
#[derive(Debug, Clone)]
pub struct SceneHeading {
    pub camera_location: CameraLocation,
    pub scene_location: SceneLocation,
    pub time_of_day: SceneTimeOfDay,
}

impl SceneHeading {
    pub fn new(
        camera_location: CameraLocation,
        scene_location: SceneLocation,
        time_of_day: SceneTimeOfDay,
    ) -> (r: Self)
        ensures
            r.camera_location == camera_location,
            r.scene_location == scene_location,
            r.time_of_day == time_of_day,
    {
        SceneHeading { camera_location, scene_location, time_of_day }
    }
}

/// A validated action beat: a description of what happens on screen.
#[derive(Debug, Clone)]
pub struct SceneAction(String);

impl SceneAction {
    pub closed spec fn view(&self) -> Seq<char> {
        self.0@
    }

    /// Normalises `input` and wraps it, rejecting actions that are empty or
    /// contain control characters.
    pub fn new(input: &str) -> (r: Result<Self, SceneElementError>)
        ensures
            match r {
                Ok(action) => action@ == text::normalize_ws(input@) && action@.len() > 0
                    && !text::has_control(action@),
                Err(SceneElementError::EmptySceneAction) => text::normalize_ws(input@).len() == 0,
                Err(SceneElementError::ContainsControlChars) => text::normalize_ws(input@).len()
                    > 0 && text::has_control(text::normalize_ws(input@)),
                Err(_) => false,
            },
    {
        let trimmed = text::trim_input(input);

        if trimmed.as_str().unicode_len() == 0 {
            return Err(SceneElementError::EmptySceneAction);
        }

        if text::contains_control(trimmed.as_str()) {
            return Err(SceneElementError::ContainsControlChars);
        }

        Ok(SceneAction(trimmed))
    }
}

/// A validated parenthetical: a short performance direction inside a
/// dialogue block. Only emptiness is rejected.
#[derive(Debug, Clone)]
pub struct Parenthetical(String);

impl Parenthetical {
    pub closed spec fn view(&self) -> Seq<char> {
        self.0@
    }

    /// Normalises `input` and wraps it, rejecting empty parentheticals.
    pub fn new(input: &str) -> (r: Result<Self, SceneElementError>)
        ensures
            match r {
                Ok(p) => p@ == text::normalize_ws(input@) && p@.len() > 0,
                Err(SceneElementError::EmptyParenthetical) => text::normalize_ws(input@).len()
                    == 0,
                Err(_) => false,
            },
    {
        let trimmed = text::trim_input(input);

        if trimmed.as_str().unicode_len() == 0 {
            return Err(SceneElementError::EmptyParenthetical);
        }

        Ok(Parenthetical(trimmed))
    }

    pub fn as_str(&self) -> (r: &str)
        ensures
            r@ == self@,
    {
        self.0.as_str()
    }
}

/// A validated line of spoken dialogue.
#[derive(Debug, Clone)]
pub struct DialogueText(String);

impl DialogueText {
    pub closed spec fn view(&self) -> Seq<char> {
        self.0@
    }

    /// Normalises `input` and wraps it, rejecting lines that are empty or
    /// contain control characters.
    pub fn new(input: &str) -> (r: Result<Self, SceneElementError>)
        ensures
            match r {
                Ok(t) => t@ == text::normalize_ws(input@) && t@.len() > 0
                    && !text::has_control(t@),
                Err(SceneElementError::EmptyDialogueText) => text::normalize_ws(input@).len() == 0,
                Err(SceneElementError::ContainsControlChars) => text::normalize_ws(input@).len()
                    > 0 && text::has_control(text::normalize_ws(input@)),
                Err(_) => false,
            },
    {
        let trimmed = text::trim_input(input);

        if trimmed.as_str().unicode_len() == 0 {
            return Err(SceneElementError::EmptyDialogueText);
        }

        if text::contains_control(trimmed.as_str()) {
            return Err(SceneElementError::ContainsControlChars);
        }

        Ok(DialogueText(trimmed))
    }

    pub fn as_str(&self) -> (r: &str)
        ensures
            r@ == self@,
    {
        self.0.as_str()
    }
}

/// One block inside a dialogue: a spoken line or a parenthetical direction.
#[derive(Debug, Clone)]
pub enum DialogueBlock {
    Text(DialogueText),
    Parenthetical(Parenthetical),
}

/// A dialogue: an ordered run of blocks spoken by one character within one
/// scene.
#[derive(Debug, Clone)]
pub struct Dialogue {
    pub id: Id<DialogueKind>,
    pub scene: Id<SceneKind>,
    pub speaker: Id<CharacterKind>,
    pub content: Vec<DialogueBlock>,
    pub metadata: Metadata,
}

impl Dialogue {
    /// A fresh, empty dialogue for `speaker` within `scene`.
    pub fn new(scene: Id<SceneKind>, speaker: Id<CharacterKind>) -> (r: Self)
        ensures
            r.scene == scene,
            r.speaker == speaker,
            r.content@ =~= Seq::<DialogueBlock>::empty(),
            r.metadata.version == 1,
            r.metadata.created_at == r.metadata.updated_at,
    {
        Dialogue {
            id: Id::new(),
            scene,
            speaker,
            content: Vec::new(),
            metadata: Metadata::new(),
        }
    }

    /// Appends one block to the dialogue.
    pub fn add_dialogue_block(&mut self, block: DialogueBlock)
        ensures
            final(self).content@ == old(self).content@.push(block),
            final(self).id == old(self).id,
            final(self).scene == old(self).scene,
            final(self).speaker == old(self).speaker,
            final(self).metadata == old(self).metadata,
    {
        self.content.push(block);
    }
}

/// One element in a scene variant's ordered content.
#[derive(Debug, Clone)]
pub enum SceneElement {
    Action(SceneAction),
    Dialogue(Dialogue),
}

} // verus!
