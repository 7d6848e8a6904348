//! Songs of the catalog and the per-artist groups they are shown in.

use vstd::prelude::*;

use crate::models::post::Difficulty as Level;

verus! {

/// The difficulty of a song; `Unrated` where its post names no level.
#[derive(Clone, Copy, Debug, PartialEq, Eq, Structural)]
pub enum Difficulty {
    Beginner,
    Intermediate,
    Advanced,
    Expert,
    Master,
    Unrated,
}

impl Difficulty {
    /// The song difficulty of a skill level.
    pub open spec fn spec_from_level(level: Level) -> Difficulty {
        match level {
            Level::Beginner => Difficulty::Beginner,
            Level::Intermediate => Difficulty::Intermediate,
            Level::Advanced => Difficulty::Advanced,
            Level::Expert => Difficulty::Expert,
            Level::Master => Difficulty::Master,
        }
    }

    /// The song difficulty of a skill level.
    pub fn from_level(level: Level) -> (r: Difficulty)
        ensures
            r == Self::spec_from_level(level),
    {
        match level {
            Level::Beginner => Difficulty::Beginner,
            Level::Intermediate => Difficulty::Intermediate,
            Level::Advanced => Difficulty::Advanced,
            Level::Expert => Difficulty::Expert,
            Level::Master => Difficulty::Master,
        }
    }

    /// The name under which the difficulty is shown.
    pub open spec fn spec_label(self) -> Seq<char> {
        match self {
            Difficulty::Beginner => "Beginner"@,
            Difficulty::Intermediate => "Intermediate"@,
            Difficulty::Advanced => "Advanced"@,
            Difficulty::Expert => "Expert"@,
            Difficulty::Master => "Master"@,
            Difficulty::Unrated => "Unrated"@,
        }
    }

    /// The name under which the difficulty is shown.
    pub fn label(self) -> (r: &'static str)
        ensures
            r@ == self.spec_label(),
    {
        match self {
            Difficulty::Beginner => "Beginner",
            Difficulty::Intermediate => "Intermediate",
            Difficulty::Advanced => "Advanced",
            Difficulty::Expert => "Expert",
            Difficulty::Master => "Master",
            Difficulty::Unrated => "Unrated",
        }
    }

    /// The difficulty as a star rating: one star for each level, a dash when unrated.
    pub open spec fn spec_stars(self) -> Seq<char> {
        match self {
            Difficulty::Beginner => "★"@,
            Difficulty::Intermediate => "★★"@,
            Difficulty::Advanced => "★★★"@,
            Difficulty::Expert => "★★★★"@,
            Difficulty::Master => "★★★★★"@,
            Difficulty::Unrated => "—"@,
        }
    }

    /// The difficulty as a star rating: one star for each level, a dash when unrated.
    pub fn stars(self) -> (r: &'static str)
        ensures
            r@ == self.spec_stars(),
    {
        match self {
            Difficulty::Beginner => "★",
            Difficulty::Intermediate => "★★",
            Difficulty::Advanced => "★★★",
            Difficulty::Expert => "★★★★",
            Difficulty::Master => "★★★★★",
            Difficulty::Unrated => "—",
        }
    }
}

/// A transcription in the catalog.
#[derive(Clone, Debug)]
pub struct Song {
    pub id: usize,
    pub artist: String,
    pub title: String,
    pub difficulty: Difficulty,
    pub link: String,
    /// Decimal digits; empty where the heading gave no sequence number.
    pub sequence_number: String,
}

/// What a song holds, as plain values.
pub struct SongView {
    pub id: usize,
    pub artist: Seq<char>,
    pub title: Seq<char>,
    pub difficulty: Difficulty,
    pub link: Seq<char>,
    pub sequence_number: Seq<char>,
}

impl View for Song {
    type V = SongView;

    open spec fn view(&self) -> SongView {
        SongView {
            id: self.id,
            artist: self.artist@,
            title: self.title@,
            difficulty: self.difficulty,
            link: self.link@,
            sequence_number: self.sequence_number@,
        }
    }
}

/// The views of a sequence of songs.
pub open spec fn song_views(songs: Seq<Song>) -> Seq<SongView> {
    songs.map_values(|s: Song| s@)
}

impl Song {
    /// A copy of the song.
    pub fn duplicate(&self) -> (r: Song)
        ensures
            r@ == self@,
    {
        Song {
            id: self.id,
            artist: self.artist.clone(),
            title: self.title.clone(),
            difficulty: self.difficulty,
            link: self.link.clone(),
            sequence_number: self.sequence_number.clone(),
        }
    }
}

/// The songs of one artist, ready to be shown.
#[derive(Clone, Debug)]
pub struct SongGroup {
    pub artist: String,
    pub songs: Vec<Song>,
}

/// What a song group holds, as plain values.
pub struct SongGroupView {
    pub artist: Seq<char>,
    pub songs: Seq<SongView>,
}

impl View for SongGroup {
    type V = SongGroupView;

    open spec fn view(&self) -> SongGroupView {
        SongGroupView { artist: self.artist@, songs: song_views(self.songs@) }
    }
}

/// The views of a sequence of song groups.
pub open spec fn group_views(groups: Seq<SongGroup>) -> Seq<SongGroupView> {
    groups.map_values(|g: SongGroup| g@)
}

} // verus!
