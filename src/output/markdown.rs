//! The grouped catalog as Markdown.

use vstd::prelude::*;

use crate::grouping::{group_songs, grouped};
use crate::models::song::{group_views, song_views, Song, SongGroup, SongGroupView, SongView};
use crate::output::{songs_to_vec, Formatter};

verus! {

/// The line of a song: `- {title} | #{sequence number} | {difficulty}`.
pub open spec fn markdown_line(song: SongView) -> Seq<char> {
    "- "@ + song.title + " | #"@ + song.sequence_number + " | "@ + song.difficulty.spec_label()
        + "\n"@
}

/// The lines of the songs, in order.
pub open spec fn markdown_lines(songs: Seq<SongView>) -> Seq<char>
    decreases songs.len(),
{
    if songs.len() == 0 {
        Seq::empty()
    } else {
        markdown_lines(songs.drop_last()) + markdown_line(songs.last())
    }
}

/// A group: a `# {artist}` heading, the lines of its songs, and a blank line.
pub open spec fn markdown_group(group: SongGroupView) -> Seq<char> {
    "# "@ + group.artist + "\n"@ + markdown_lines(group.songs) + "\n"@
}

/// The groups, one after the other.
pub open spec fn markdown_groups(groups: Seq<SongGroupView>) -> Seq<char>
    decreases groups.len(),
{
    if groups.len() == 0 {
        Seq::empty()
    } else {
        markdown_groups(groups.drop_last()) + markdown_group(groups.last())
    }
}

/// Renders the catalog as Markdown: one section for each artist group.
pub struct MarkdownFormatter;

impl MarkdownFormatter {
    /// Renders groups as Markdown.
    pub fn render_groups(groups: &Vec<SongGroup>) -> (r: String)
        ensures
            r@ == markdown_groups(group_views(groups@)),
    {
        let ghost views = group_views(groups@);
        let mut out = String::new();
        let mut i: usize = 0;
        assert(views.subrange(0, 0) =~= Seq::<SongGroupView>::empty());
        while i < groups.len()
            invariant
                i <= groups@.len(),
                views == group_views(groups@),
                out@ == markdown_groups(views.subrange(0, i as int)),
            decreases groups@.len() - i,
        {
            let group = &groups[i];
            let ghost start = out@;
            out.append("# ");
            out.append(group.artist.as_str());
            out.append("\n");
            let ghost songs = song_views(group.songs@);
            let ghost lines_start = out@;
            let mut k: usize = 0;
            assert(songs.subrange(0, 0) =~= Seq::<SongView>::empty());
            assert(lines_start =~= lines_start + markdown_lines(songs.subrange(0, 0)));
            while k < group.songs.len()
                invariant
                    k <= group.songs@.len(),
                    songs == song_views(group.songs@),
                    out@ == lines_start + markdown_lines(songs.subrange(0, k as int)),
                decreases group.songs@.len() - k,
            {
                let song = &group.songs[k];
                let ghost before = out@;
                out.append("- ");
                out.append(song.title.as_str());
                out.append(" | #");
                out.append(song.sequence_number.as_str());
                out.append(" | ");
                out.append(song.difficulty.label());
                out.append("\n");
                assert(songs.subrange(0, k + 1).drop_last() =~= songs.subrange(0, k as int));
                assert(songs.subrange(0, k + 1).last() == song@);
                assert(out@ =~= before + markdown_line(song@));
                k = k + 1;
                assert(out@ =~= lines_start + markdown_lines(songs.subrange(0, k as int)));
            }
            out.append("\n");
            assert(songs.subrange(0, k as int) =~= songs);
            assert(views.subrange(0, i + 1).drop_last() =~= views.subrange(0, i as int));
            assert(views.subrange(0, i + 1).last() == group@);
            assert(out@ =~= start + markdown_group(group@));
            i = i + 1;
        }
        assert(views.subrange(0, i as int) =~= views);
        out
    }
}

impl Formatter for MarkdownFormatter {
    open spec fn renders(&self, songs: Seq<SongView>, text: Seq<char>) -> bool {
        text == markdown_groups(grouped(songs))
    }

    fn format(&self, songs: &[Song]) -> (r: String) {
        let groups = group_songs(songs_to_vec(songs));
        MarkdownFormatter::render_groups(&groups)
    }
}

} // verus!
