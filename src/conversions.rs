//! Turning posts of the feed into songs of the catalog.

pub mod post;
