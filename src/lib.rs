//! Turns quoted question/answer notes into flashcards and plans the
//! resolution of the images and formulas that the cards embed.

pub mod anki;
pub mod card;
pub mod dashed;
pub mod deck;
pub mod files;
pub mod latex;
pub mod refs;
pub mod staging;
pub mod text;
