use scene_it_engine::author::{Author, AuthorError, AuthorName};
use scene_it_engine::character::{Character, CharacterError, CharacterName};
use scene_it_engine::ids::{Id, SceneKind};
use scene_it_engine::metadata::{Metadata, MetadataError, RevisionNote};
use scene_it_engine::scene::Scene;
use scene_it_engine::scene_elements::{
    CameraLocation, Dialogue, DialogueBlock, DialogueText, Parenthetical, SceneAction,
    SceneElementError, SceneHeading, SceneLocation, SceneTimeOfDay,
};

#[test]
fn id_round_trips_through_its_value() {
    let id: Id<SceneKind> = Id::from_value(42);
    assert_eq!(id.uuid(), 42);
    let other: Id<SceneKind> = Id::from_value(42);
    assert!(id == other);
    assert!(id != Id::from_value(43));
}

#[test]
fn fresh_ids_are_distinct_in_practice() {
    let a: Id<SceneKind> = Id::new();
    let b: Id<SceneKind> = Id::new();
    assert_ne!(a.uuid(), b.uuid());
}

#[test]
fn metadata_starts_at_version_one_and_touch_bumps_it() {
    let mut meta = Metadata::new();
    assert_eq!(meta.version, 1);
    assert_eq!(meta.created_at, meta.updated_at);
    assert!(!meta.locked);
    meta.touch();
    assert_eq!(meta.version, 2);
    meta.touch();
    assert_eq!(meta.version, 3);
}

#[test]
fn metadata_collects_revision_notes() {
    let mut meta = Metadata::new();
    assert!(meta.revision_notes.is_empty());
    let note = RevisionNote::new("  tightened the   dialogue ").unwrap();
    meta.add_revision_note(note);
    assert_eq!(meta.revision_notes.len(), 1);
}

#[test]
fn revision_note_rejects_empty_and_control_input() {
    assert!(matches!(
        RevisionNote::new("   "),
        Err(MetadataError::EmptyRevisionNote)
    ));
    assert!(matches!(
        RevisionNote::new("x\u{8}y"),
        Err(MetadataError::RevisionNoteHasControlChars)
    ));
}

#[test]
fn author_name_validation() {
    let name = AuthorName::new("  Bryan   Lee   O'Malley ").unwrap();
    assert_eq!(name.as_str(), "Bryan Lee O'Malley");
    assert!(matches!(AuthorName::new(" "), Err(AuthorError::EmptyName)));
    let long = "a".repeat(101);
    assert!(matches!(AuthorName::new(&long), Err(AuthorError::NameTooLong)));
    let exactly = "b".repeat(100);
    assert!(AuthorName::new(&exactly).is_ok());
    assert!(matches!(
        AuthorName::new("bad\u{0}name"),
        Err(AuthorError::NameContainsControlChars)
    ));
}

#[test]
fn author_name_limit_counts_utf8_bytes() {
    // 51 two-byte characters: 51 characters but 102 bytes.
    let accented = "\u{e9}".repeat(51);
    assert!(matches!(
        AuthorName::new(&accented),
        Err(AuthorError::NameTooLong)
    ));
    let fifty = "\u{e9}".repeat(50);
    assert!(AuthorName::new(&fifty).is_ok());
}

#[test]
fn author_carries_its_name() {
    let author = Author::new(AuthorName::new("Ed Wood").unwrap());
    assert_eq!(author.name(), "Ed Wood");
    assert_eq!(author.id().uuid(), author.id().uuid());
}

#[test]
fn character_name_validation() {
    assert!(CharacterName::new("  Ramona   Flowers ").is_ok());
    assert!(matches!(CharacterName::new(" "), Err(CharacterError::NameEmpty)));
    let long = "c".repeat(101);
    assert!(matches!(
        CharacterName::new(&long),
        Err(CharacterError::NameTooLong)
    ));
    let exactly = "d".repeat(100);
    assert!(CharacterName::new(&exactly).is_ok());
    assert!(matches!(
        CharacterName::new("bad\u{1}name"),
        Err(CharacterError::NameContainsControlChars)
    ));
}

#[test]
fn character_carries_an_identifier() {
    let character = Character::new(CharacterName::new("Ramona Flowers").unwrap());
    assert_eq!(character.id().uuid(), character.id().uuid());
}

#[test]
fn scene_starts_with_one_active_variant() {
    let mut scene = Scene::new();
    assert_eq!(scene.metadata().version, 1);
    scene.touch();
    assert_eq!(scene.metadata().version, 2);
    let id = scene.id();
    assert_eq!(id.uuid(), scene.id().uuid());
}

#[test]
fn scene_heading_holds_its_parts() {
    let location = SceneLocation::new("  ABANDONED   WAREHOUSE ").unwrap();
    let heading = SceneHeading::new(
        CameraLocation::Interior,
        location,
        SceneTimeOfDay::Night,
    );
    assert_eq!(heading.camera_location, CameraLocation::Interior);
    assert_eq!(heading.time_of_day, SceneTimeOfDay::Night);
}

#[test]
fn scene_location_rejects_empty_and_control_input() {
    assert!(matches!(
        SceneLocation::new("\t"),
        Err(SceneElementError::EmptyHeadingLocation)
    ));
    assert!(matches!(
        SceneLocation::new("x\u{2}y"),
        Err(SceneElementError::ContainsControlChars)
    ));
}

#[test]
fn scene_action_validation() {
    assert!(SceneAction::new("She opens the door.").is_ok());
    assert!(matches!(
        SceneAction::new("  "),
        Err(SceneElementError::EmptySceneAction)
    ));
    assert!(matches!(
        SceneAction::new("x\u{3}y"),
        Err(SceneElementError::ContainsControlChars)
    ));
}

#[test]
fn dialogue_text_and_parenthetical_validation() {
    let text = DialogueText::new(" We  have  to  go. ").unwrap();
    assert_eq!(text.as_str(), "We have to go.");
    assert!(matches!(
        DialogueText::new(""),
        Err(SceneElementError::EmptyDialogueText)
    ));
    assert!(matches!(
        DialogueText::new("x\u{4}y"),
        Err(SceneElementError::ContainsControlChars)
    ));
    let par = Parenthetical::new(" (whispering) ").unwrap();
    assert_eq!(par.as_str(), "(whispering)");
    assert!(matches!(
        Parenthetical::new("  "),
        Err(SceneElementError::EmptyParenthetical)
    ));
}

#[test]
fn dialogue_collects_blocks() {
    let scene = Scene::new();
    let character = Character::new(CharacterName::new("Knives Chau").unwrap());
    let mut dialogue = Dialogue::new(scene.id(), character.id());
    assert!(dialogue.content.is_empty());
    dialogue.add_dialogue_block(DialogueBlock::Parenthetical(
        Parenthetical::new("(beat)").unwrap(),
    ));
    dialogue.add_dialogue_block(DialogueBlock::Text(
        DialogueText::new("Run.").unwrap(),
    ));
    assert_eq!(dialogue.content.len(), 2);
    assert_eq!(dialogue.scene.uuid(), scene.id().uuid());
    assert_eq!(dialogue.speaker.uuid(), character.id().uuid());
}
