pub mod author;
pub mod character;
pub mod ids;
pub mod metadata;
pub mod scene;
pub mod scene_graph;
pub mod storyboard;
pub mod scene_elements;
pub mod summary;
pub mod table;
pub mod text;
pub mod title;
