//! Verified core of a small web photo gallery: request-path handling, directory
//! listings, neighbour navigation, thumbnail decisions and content types.

pub mod text;
pub mod web_path;
pub mod media;
pub mod thumbnail;
pub mod page;
pub mod markup;
pub mod assets;
pub mod api;
pub mod search;
