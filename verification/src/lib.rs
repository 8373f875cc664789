//! Moves source and Markdown files and plans the reference updates that the
//! move requires.

pub mod text;
pub mod paths;
pub mod drivers;
pub mod validation;
pub mod logic;
pub mod source_lines;
