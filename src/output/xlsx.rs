//! The layout of the grouped catalog as a spreadsheet.
//!
//! Row 0 holds the column headers. From row 1 on, each group takes a row that names
//! its artist across the three columns, one row for each of its songs (every second
//! one shaded), and a blank row.

use vstd::prelude::*;

use crate::grouping::{group_songs, grouped};
use crate::models::song::{group_views, song_views, Song, SongGroup, SongGroupView, SongView};
use crate::output::songs_to_vec;

verus! {

/// A row of the spreadsheet.
#[derive(Clone, Debug)]
pub enum SheetRow {
    /// A row that names an artist, merged across the three columns.
    Artist { row: u32, name: String },
    /// A song: its title linked to its post, its difficulty as stars, and its
    /// sequence number.
    Song {
        row: u32,
        title: String,
        link: String,
        difficulty: &'static str,
        sequence_number: String,
        shaded: bool,
    },
}

/// What a row holds, as plain values.
pub enum SheetRowView {
    Artist { row: nat, name: Seq<char> },
    Song {
        row: nat,
        title: Seq<char>,
        link: Seq<char>,
        difficulty: Seq<char>,
        sequence_number: Seq<char>,
        shaded: bool,
    },
}

impl View for SheetRow {
    type V = SheetRowView;

    open spec fn view(&self) -> SheetRowView {
        match self {
            SheetRow::Artist { row, name } => SheetRowView::Artist { row: *row as nat, name: name@ },
            SheetRow::Song { row, title, link, difficulty, sequence_number, shaded } => {
                SheetRowView::Song {
                    row: *row as nat,
                    title: title@,
                    link: link@,
                    difficulty: difficulty@,
                    sequence_number: sequence_number@,
                    shaded: *shaded,
                }
            },
        }
    }
}

/// The views of a sequence of rows.
pub open spec fn row_views(rows: Seq<SheetRow>) -> Seq<SheetRowView> {
    rows.map_values(|r: SheetRow| r@)
}

/// The row of the `k`-th song of a group whose artist row is `start`.
pub open spec fn song_row(song: SongView, start: nat, k: int) -> SheetRowView {
    SheetRowView::Song {
        row: (start + 1 + k) as nat,
        title: song.title,
        link: song.link,
        difficulty: song.difficulty.spec_stars(),
        sequence_number: song.sequence_number,
        shaded: k % 2 == 1,
    }
}

/// The rows of a group whose artist row is `start`.
pub open spec fn group_rows(group: SongGroupView, start: nat) -> Seq<SheetRowView> {
    seq![SheetRowView::Artist { row: start, name: group.artist }] + Seq::new(
        group.songs.len(),
        |k: int| song_row(group.songs[k], start, k),
    )
}

/// The number of rows that `groups` take, the blank row after each included.
pub open spec fn rows_height(groups: Seq<SongGroupView>) -> nat
    decreases groups.len(),
{
    if groups.len() == 0 {
        0
    } else {
        rows_height(groups.drop_last()) + groups.last().songs.len() + 2
    }
}

/// The rows of `groups`, the first group's artist row being row 1.
pub open spec fn sheet_rows(groups: Seq<SongGroupView>) -> Seq<SheetRowView>
    decreases groups.len(),
{
    if groups.len() == 0 {
        Seq::empty()
    } else {
        sheet_rows(groups.drop_last()) + group_rows(
            groups.last(),
            1 + rows_height(groups.drop_last()),
        )
    }
}

proof fn lemma_rows_height_grows(groups: Seq<SongGroupView>, i: int)
    requires
        0 <= i <= groups.len(),
    ensures
        rows_height(groups.subrange(0, i)) <= rows_height(groups),
    decreases groups.len() - i,
{
    if i < groups.len() {
        lemma_rows_height_grows(groups, i + 1);
        assert(groups.subrange(0, i + 1).drop_last() =~= groups.subrange(0, i));
    } else {
        assert(groups.subrange(0, i) =~= groups);
    }
}

impl XlsxFormatter {
    /// The rows of the spreadsheet for `groups`, as `sheet_rows` states; none where they
    /// would run past the last row number.
    pub fn layout(groups: &Vec<SongGroup>) -> (r: Option<Vec<SheetRow>>)
        ensures
            match r {
                Some(rows) => rows_height(group_views(groups@)) < u32::MAX && row_views(rows@)
                    == sheet_rows(group_views(groups@)),
                None => rows_height(group_views(groups@)) >= u32::MAX,
            },
    {
        let ghost views = group_views(groups@);
        let mut rows: Vec<SheetRow> = Vec::new();
        let mut current_row: u32 = 1;
        let mut i: usize = 0;
        assert(views.subrange(0, 0) =~= Seq::<SongGroupView>::empty());
        assert(row_views(rows@) =~= Seq::<SheetRowView>::empty());
        while i < groups.len()
            invariant
                i <= groups@.len(),
                views == group_views(groups@),
                current_row == 1 + rows_height(views.subrange(0, i as int)),
                row_views(rows@) == sheet_rows(views.subrange(0, i as int)),
            decreases groups@.len() - i,
        {
            let group = &groups[i];
            let ghost prefix = views.subrange(0, i + 1);
            assert(prefix.drop_last() =~= views.subrange(0, i as int));
            assert(prefix.last() == group@);
            let n = group.songs.len();
            let room: u32 = u32::MAX - current_row;
            if room < 2 || n as u64 > (room - 2) as u64 {
                proof {
                    lemma_rows_height_grows(views, i + 1);
                }
                return None;
            }
            let ghost start = rows@;
            rows.push(SheetRow::Artist { row: current_row, name: group.artist.clone() });
            let ghost songs = song_views(group.songs@);
            let mut k: usize = 0;
            assert(row_views(rows@) =~= row_views(start) + group_rows(group@, current_row as nat).subrange(0, 1));
            while k < n
                invariant
                    k <= n == group.songs@.len(),
                    songs == song_views(group.songs@),
                    current_row as int + n + 2 <= u32::MAX,
                    row_views(rows@) == row_views(start) + group_rows(group@, current_row as nat).subrange(
                        0,
                        k + 1,
                    ),
                decreases n - k,
            {
                let song = &group.songs[k];
                let ghost before = rows@;
                let row = SheetRow::Song {
                    row: current_row + 1 + k as u32,
                    title: song.title.clone(),
                    link: song.link.clone(),
                    difficulty: song.difficulty.stars(),
                    sequence_number: song.sequence_number.clone(),
                    shaded: k % 2 == 1,
                };
                assert(row@ == song_row(songs[k as int], current_row as nat, k as int));
                rows.push(row);
                assert(row_views(rows@) =~= row_views(before).push(row@));
                k = k + 1;
                assert(row_views(rows@) =~= row_views(start) + group_rows(group@, current_row as nat).subrange(0, k + 1));
            }
            assert(group_rows(group@, current_row as nat).subrange(0, n + 1) =~= group_rows(
                group@,
                current_row as nat,
            ));
            current_row = current_row + n as u32 + 2;
            i = i + 1;
        }
        assert(views.subrange(0, i as int) =~= views);
        Some(rows)
    }

    /// The rows of the spreadsheet for a catalog's songs, grouped by artist.
    pub fn rows_for(songs: &[Song]) -> (r: Option<Vec<SheetRow>>)
        ensures
            match r {
                Some(rows) => rows_height(grouped(song_views(songs@))) < u32::MAX && row_views(rows@)
                    == sheet_rows(grouped(song_views(songs@))),
                None => rows_height(grouped(song_views(songs@))) >= u32::MAX,
            },
    {
        let groups = group_songs(songs_to_vec(songs));
        XlsxFormatter::layout(&groups)
    }
}

/// Lays the grouped catalog out as the rows of one spreadsheet.
pub struct XlsxFormatter;

} // verus!
