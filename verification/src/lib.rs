//! A strip chart recorder: the logic behind reading samples, recording them,
//! and laying them out as rows of characters.

pub mod text;
pub mod number;
pub mod parse;
pub mod data;
pub mod source;
pub mod tint;
pub mod paper;
pub mod screen;
pub mod canvas;
pub mod chart;
pub mod timefmt;
