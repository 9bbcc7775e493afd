//! Reading of Medieval II `.pack` archives, and of the game's plain-text
//! description files.

pub mod extract;
pub mod foreign;
pub mod format;
pub mod listing;
pub mod lzo;
pub mod text;
pub mod world;
