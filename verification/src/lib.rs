//! Image bookkeeping for a game's mail-image folder: the names of the images,
//! the links they are served from, and the patterns used to guess new ones.

pub mod text;
pub mod names;
pub mod paths;
pub mod images;
pub mod bruteforce;
pub mod stats;
pub mod characters;
