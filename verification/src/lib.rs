//! Core logic of a terminal vocabulary trainer: word statistics, the order in
//! which a unit is asked, the exercise session, the vocabulary file formats
//! and the layout of what the terminal shows.

pub mod word;
pub mod exercise;
pub mod text;
pub mod files;
pub mod startpage;
pub mod ui;
