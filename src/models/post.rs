//! The classification of a post's tags.

use vstd::prelude::*;

verus! {

/// A skill level that a category of the feed stands for.
#[derive(Clone, Copy, Debug, PartialEq, Eq, Structural)]
pub enum Difficulty {
    Beginner,
    Intermediate,
    Advanced,
    Expert,
    Master,
}

/// What a category of the feed means to the catalog.
#[derive(Clone, Copy, Debug, PartialEq, Eq, Structural)]
pub enum Category {
    Transcription,
    Difficulty(Difficulty),
    Other,
}

/// A tag of a post, with its category classified.
#[derive(Clone, Copy, Debug, PartialEq, Eq, Structural)]
pub enum Tag {
    Category(Category),
    Other,
}

} // verus!
