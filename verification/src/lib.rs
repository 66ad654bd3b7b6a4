//! melody: the verified core of a terminal melody maker.

pub mod editor;
pub mod pitch;
pub mod player;
pub mod song;
pub mod text;
pub mod wav;
