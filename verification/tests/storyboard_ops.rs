use scene_it_engine::author::{Author, AuthorName};
use scene_it_engine::character::{Character, CharacterName};
use scene_it_engine::ids::{Id, SceneKind};
use scene_it_engine::scene::Scene;
use scene_it_engine::storyboard::{Storyboard, StoryboardError, StoryTemplate};
use scene_it_engine::title::Title;

fn holds(ids: &[Id<SceneKind>], id: &Id<SceneKind>) -> bool {
    ids.iter().any(|x| x.uuid() == id.uuid())
}

#[test]
fn creating_storyboard_works() {
    // Arrange & Act
    let sb = Storyboard::default();
    // Assert
    assert_eq!(*sb.title(), None);
}

#[test]
fn storyboard_creating_storyboard_works() {
    // Arrange & Act
    let sb = Storyboard::default();
    // Assert
    assert_eq!(*sb.title(), None);
}

#[test]
fn storyboard_title_can_be_set_and_cleared() {
    let mut sb = Storyboard::default();
    sb.update_title(Title::new("The Move").unwrap());
    assert_eq!(sb.title().as_ref().unwrap().as_str(), "The Move");
    sb.clear_title();
    assert_eq!(*sb.title(), None);
}

#[test]
fn storyboard_template_and_people_are_managed() {
    let mut sb = Storyboard::default();
    sb.update_template(StoryTemplate::Screenplay);
    sb.clear_template();
    let author = Author::new(AuthorName::new("Ed Wood").unwrap());
    let author_id = author.id();
    sb.add_author(author);
    sb.remove_author(&author_id);
    sb.add_character(Character::new(CharacterName::new("Wallace Wells").unwrap()));
}

#[test]
fn storyboard_links_known_scenes_and_rejects_unknown_ones() {
    let mut sb = Storyboard::default();
    let a = Scene::new();
    let a_id = a.id();
    let missing: Id<SceneKind> = Id::new();
    sb.add_scene(a);

    // Scenario: linking against an identifier absent from the content store
    // fails with UnknownScene, and the graph gains nothing from the failed
    // call.
    match sb.link_scenes(&a_id, &missing) {
        Err(StoryboardError::UnknownScene(x)) => assert_eq!(x.uuid(), missing.uuid()),
        _ => panic!("expected an unknown scene"),
    }
    match sb.link_scenes(&missing, &a_id) {
        Err(StoryboardError::UnknownScene(x)) => assert_eq!(x.uuid(), missing.uuid()),
        _ => panic!("expected an unknown scene"),
    }
    // With no roots, every graph member is standalone: only A is there.
    let standalone = sb.standalone_scenes();
    assert_eq!(standalone.len(), 1);
    assert_eq!(standalone[0].uuid(), a_id.uuid());

    let b = Scene::new();
    let b_id = b.id();
    sb.add_scene(b);
    assert!(sb.link_scenes(&a_id, &b_id).is_ok());
    assert!(sb.set_scene_as_root(&a_id).is_ok());
    assert!(sb.standalone_scenes().is_empty());
}

#[test]
fn storyboard_unlinks_scenes_and_validates_both_endpoints() {
    let mut sb = Storyboard::default();
    let a = Scene::new();
    let b = Scene::new();
    let a_id = a.id();
    let b_id = b.id();
    let missing: Id<SceneKind> = Id::new();
    sb.add_scene(a);
    sb.add_scene(b);
    assert!(sb.link_scenes(&a_id, &b_id).is_ok());
    assert!(sb.set_scene_as_root(&a_id).is_ok());
    assert!(matches!(
        sb.unlink_scenes(&missing, &b_id),
        Err(StoryboardError::UnknownScene(_))
    ));
    assert!(matches!(
        sb.unlink_scenes(&a_id, &missing),
        Err(StoryboardError::UnknownScene(_))
    ));
    assert!(sb.standalone_scenes().is_empty());
    assert!(sb.unlink_scenes(&a_id, &b_id).is_ok());
    let standalone = sb.standalone_scenes();
    assert_eq!(standalone.len(), 1);
    assert_eq!(standalone[0].uuid(), b_id.uuid());
    // Unlinking scenes that are not linked is a silent no-op.
    assert!(sb.unlink_scenes(&a_id, &b_id).is_ok());
}

#[test]
fn storyboard_moves_scenes_with_validation() {
    let mut sb = Storyboard::default();
    let a = Scene::new();
    let b = Scene::new();
    let c = Scene::new();
    let a_id = a.id();
    let b_id = b.id();
    let c_id = c.id();
    let missing: Id<SceneKind> = Id::new();
    sb.add_scene(a);
    sb.add_scene(b);
    sb.add_scene(c);
    assert!(sb.set_scene_as_root(&a_id).is_ok());
    assert!(sb.link_scenes(&a_id, &b_id).is_ok());
    assert!(sb.link_scenes(&b_id, &c_id).is_ok());
    match sb.move_scene(&missing, &b_id, &a_id) {
        Err(StoryboardError::UnknownScene(x)) => assert_eq!(x.uuid(), missing.uuid()),
        _ => panic!("expected an unknown scene"),
    }
    // A second path A -> C makes moving C from under B to under A cyclic:
    // A already reaches C.
    assert!(sb.link_scenes(&a_id, &c_id).is_ok());
    assert!(matches!(
        sb.move_scene(&c_id, &b_id, &a_id),
        Err(StoryboardError::CycleDetected(_, _))
    ));
    // Without that second path, the same move succeeds.
    assert!(sb.unlink_scenes(&a_id, &c_id).is_ok());
    assert!(sb.move_scene(&c_id, &b_id, &a_id).is_ok());
    assert!(sb.standalone_scenes().is_empty());
    // A move with no source edge is invalid.
    assert!(matches!(
        sb.move_scene(&c_id, &b_id, &a_id),
        Err(StoryboardError::InvalidMove { .. })
    ));
}

#[test]
fn storyboard_deletes_scenes_idempotently() {
    let mut sb = Storyboard::default();
    let a = Scene::new();
    let b = Scene::new();
    let a_id = a.id();
    let b_id = b.id();
    let missing: Id<SceneKind> = Id::new();
    sb.add_scene(a);
    sb.add_scene(b);
    assert!(sb.link_scenes(&a_id, &b_id).is_ok());
    assert!(sb.set_scene_as_root(&a_id).is_ok());
    // Deleting a scene the content store does not hold is a no-op success.
    assert!(sb.delete_scene(&missing).is_ok());
    assert!(sb.delete_scene(&b_id).is_ok());
    let standalone = sb.standalone_scenes();
    assert!(!holds(&standalone, &b_id));
    assert!(sb.standalone_scenes().is_empty());
    // The scene is gone from the content store too, so deleting again is
    // still a no-op success.
    assert!(sb.delete_scene(&b_id).is_ok());
}

#[test]
fn storyboard_set_scene_as_root_requires_a_known_scene() {
    let mut sb = Storyboard::default();
    let missing: Id<SceneKind> = Id::new();
    assert!(matches!(
        sb.set_scene_as_root(&missing),
        Err(StoryboardError::UnknownScene(_))
    ));
}
