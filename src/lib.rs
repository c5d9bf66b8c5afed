//! A soundboard: a catalog of clips and a scheduler that decides how clips
//! that play at the same time interact.
pub mod laws;
pub mod model;
pub mod player;
