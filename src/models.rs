//! The library's own records: classified tags and catalogued songs.

pub mod post;
pub mod song;
