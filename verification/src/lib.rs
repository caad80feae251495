//! Small verified exercises over in-memory data: an employee directory driven
//! by free-text add commands, rectangle areas, a pig-latin converter, and
//! median/mode statistics over integer lists.

pub mod directory;
pub mod parse;
pub mod pig_latin;
pub mod rectangle;
pub mod stats;
pub mod text;
