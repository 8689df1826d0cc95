//! A hierarchical task list: the task tree, its save-file format, the
//! navigation state that walks it, and the line editor used to type tasks.
pub mod codec;
pub mod colour;
pub mod editor;
pub mod navigator;
mod text;
pub mod todo;
