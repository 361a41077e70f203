//! A picker overlay: a bitmap font, a line editor, a fuzzy-ranked candidate
//! list and the compositor that paints them into a pixel buffer.

pub mod editor;
pub mod font;
pub mod launcher;
pub mod picker;
pub mod render;

pub use editor::Search;
pub use font::{Font, FormatError};
pub use launcher::{App, Command, Event, Keycode, Modifiers};
pub use picker::Picker;
