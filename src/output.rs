//! Renderings of the grouped catalog.

use vstd::prelude::*;

use crate::models::song::{song_views, Song, SongView};

pub mod markdown;
pub mod xlsx;

verus! {

/// A rendering of a catalog's songs as text.
pub trait Formatter {
    /// Whether `text` is the rendering of `songs`.
    spec fn renders(&self, songs: Seq<SongView>, text: Seq<char>) -> bool;

    /// Renders the songs.
    fn format(&self, songs: &[Song]) -> (r: String)
        ensures
            self.renders(song_views(songs@), r@),
    ;
}

/// A copy of the songs of a slice, in order.
pub fn songs_to_vec(songs: &[Song]) -> (r: Vec<Song>)
    ensures
        song_views(r@) == song_views(songs@),
{
    let mut r: Vec<Song> = Vec::new();
    let mut i: usize = 0;
    while i < songs.len()
        invariant
            i <= songs@.len(),
            song_views(r@) == song_views(songs@.subrange(0, i as int)),
        decreases songs@.len() - i,
    {
        let song = songs[i].duplicate();
        assert(song@ == songs@[i as int]@);
        let ghost before = r@;
        r.push(song);
        assert(song_views(r@) =~= song_views(before).push(song@));
        assert(song_views(songs@.subrange(0, i + 1)) =~= song_views(songs@.subrange(0, i as int)).push(
            songs@[i as int]@,
        ));
        assert(song_views(r@) =~= song_views(songs@.subrange(0, i + 1)));
        i = i + 1;
    }
    assert(songs@.subrange(0, i as int) =~= songs@);
    r
}

} // verus!
