//! Records of the creator feed, as the feed delivers them, and the address of its pages.

pub mod coffee_api;
pub mod post;
