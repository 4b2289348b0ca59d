use scene_it_engine::summary::{Summary, SummaryError};
use scene_it_engine::text::trim_input;
use scene_it_engine::title::{Title, TitleError};

#[test]
fn title_creating_title_with_valid_name_works() {
    // Arrange & Act
    let input = "Scott Pilgrim      vs.     The World";
    let title = Title::new(input);
    // Assert
    assert_eq!("Scott Pilgrim vs. The World", title.unwrap().as_str())
}

#[test]
fn title_creating_title_with_invalid_name_returns_default_title() {}

#[test]
fn summary_creating_title_with_valid_name_works() {
    // Arrange & Act
    let input = "Scott Pilgrim      vs.     The World";
    let title = Summary::new(input);
    // Assert
    assert_eq!("Scott Pilgrim vs. The World", title.unwrap().as_str())
}

#[test]
fn summary_creating_title_with_invalid_name_returns_default_title() {}

#[test]
fn trim_input_collapses_interior_whitespace() {
    assert_eq!(trim_input("  a \t b\n\nc  "), "a b c");
    assert_eq!(trim_input("one"), "one");
    assert_eq!(trim_input(""), "");
    assert_eq!(trim_input(" \t\n "), "");
    assert_eq!(trim_input("tab\tseparated"), "tab separated");
}

#[test]
fn title_rejects_empty_input() {
    assert!(matches!(Title::new("   "), Err(TitleError::EmptyTitle)));
    assert!(matches!(Title::new(""), Err(TitleError::EmptyTitle)));
}

#[test]
fn title_rejects_over_one_hundred_characters() {
    let long = "x".repeat(101);
    assert!(matches!(Title::new(&long), Err(TitleError::TooLong)));
    let exactly = "y".repeat(100);
    assert_eq!(Title::new(&exactly).unwrap().as_str(), exactly);
}

#[test]
fn title_rejects_control_characters() {
    assert!(matches!(
        Title::new("bell\u{7}sound"),
        Err(TitleError::ContainsControlChars)
    ));
}

#[test]
fn title_default_is_untitled_storyboard() {
    assert_eq!(Title::default().as_str(), "Untitled Storyboard");
}

#[test]
fn summary_rejects_empty_and_control_input() {
    assert!(matches!(Summary::new(" \n "), Err(SummaryError::EmptySummary)));
    assert!(matches!(
        Summary::new("a\u{1b}b"),
        Err(SummaryError::ContainsControlChars)
    ));
    assert_eq!(Summary::default().as_str(), "");
}
