//! Turns archived short posts into Markdown documents with a front matter
//! header. Every function here is pure: it takes posts and options that are
//! already in memory and hands back text.

pub mod archive;
pub mod document;
pub mod header;
pub mod laws;
pub mod model;
pub mod order;
pub mod overlay;
pub mod permutation;
pub mod stamp;
pub mod text;
