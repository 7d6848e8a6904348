//! The persisted catalog and its incremental refresh from the feed.
//!
//! A refresh reads pages newest first. The highest sequence number already in the
//! catalog (its watermark) marks where earlier refreshes stopped: a page that shows a
//! song at or below it ends the refresh, as does the feed's last page.

use vstd::prelude::*;

use crate::api::post::{PageResponse, Post, PostView};
use crate::conversions::post::song_of;
use crate::models::song::{song_views, Song, SongView};
use crate::text::{parse_number, parse_number_text};

verus! {

/// The catalog: every song found so far, in the order found, and when it was last
/// refreshed.
#[derive(Clone, Debug)]
pub struct IndexCache {
    pub songs: Vec<Song>,
    /// Milliseconds since the Unix epoch, UTC.
    pub last_indexed: i64,
}

/// The highest sequence number among `songs` that reads as an integer.
pub open spec fn high_water_mark(songs: Seq<SongView>) -> Option<u64>
    decreases songs.len(),
{
    if songs.len() == 0 {
        None
    } else {
        let earlier = high_water_mark(songs.drop_last());
        match parse_number(songs.last().sequence_number) {
            None => earlier,
            Some(v) => match earlier {
                None => Some(v),
                Some(w) => Some(if v > w { v } else { w }),
            },
        }
    }
}

/// Whether a song lies at or below the watermark, and so was indexed before.
pub open spec fn already_indexed(mark: Option<u64>, song: SongView) -> bool {
    match (mark, parse_number(song.sequence_number)) {
        (Some(m), Some(v)) => v <= m,
        _ => false,
    }
}

/// The posts of a page, as plain values.
pub open spec fn page_posts(page: PageResponse<Post>) -> Seq<PostView> {
    page.data@.map_values(|p: Post| p@)
}

/// The catalog after the posts of one page, and whether the page reached songs already
/// indexed. Each post tagged as a transcription gives a song; a song above the
/// watermark, or without a readable sequence number, is appended; one at or below it
/// is not.
pub open spec fn merge_page(songs: Seq<SongView>, mark: Option<u64>, posts: Seq<PostView>) -> (
    Seq<SongView>,
    bool,
)
    decreases posts.len(),
{
    if posts.len() == 0 {
        (songs, false)
    } else {
        let (acc, caught_up) = merge_page(songs, mark, posts.drop_last());
        match song_of(posts.last()) {
            None => (acc, caught_up),
            Some(song) => if already_indexed(mark, song) {
                (acc, true)
            } else {
                (acc.push(song), caught_up)
            },
        }
    }
}

/// The catalog after reading `pages` from index `i` on, until a page reaches songs
/// already indexed, the feed's last page is read, or the pages run out.
pub open spec fn refresh_from(
    songs: Seq<SongView>,
    mark: Option<u64>,
    pages: Seq<PageResponse<Post>>,
    i: int,
) -> Seq<SongView>
    decreases pages.len() - i,
{
    if i < 0 || i >= pages.len() {
        songs
    } else {
        let (acc, caught_up) = merge_page(songs, mark, page_posts(pages[i]));
        if caught_up || pages[i].meta.spec_is_last() {
            acc
        } else {
            refresh_from(acc, mark, pages, i + 1)
        }
    }
}

/// The songs of a catalog after a refresh that reads `pages`, the first page first.
pub open spec fn refreshed(songs: Seq<SongView>, pages: Seq<PageResponse<Post>>) -> Seq<SongView> {
    refresh_from(songs, high_water_mark(songs), pages, 0)
}

/// Whether a song lies at or below the watermark.
fn is_already_indexed(mark: Option<u64>, song: &Song) -> (r: bool)
    ensures
        r == already_indexed(mark, song@),
{
    match mark {
        Some(m) => match parse_number_text(song.sequence_number.as_str()) {
            Some(v) => v <= m,
            None => false,
        },
        None => false,
    }
}

impl IndexCache {
    /// An empty catalog, never refreshed.
    pub fn new() -> (r: IndexCache)
        ensures
            r.songs@.len() == 0,
            r.last_indexed == 0,
    {
        IndexCache { songs: Vec::new(), last_indexed: 0 }
    }

    /// Whether the catalog holds no song.
    pub fn is_empty(&self) -> (r: bool)
        ensures
            r == (self.songs@.len() == 0),
    {
        self.songs.len() == 0
    }

    /// The highest sequence number in the catalog that reads as an integer.
    pub fn high_water_mark(&self) -> (r: Option<u64>)
        ensures
            r == high_water_mark(song_views(self.songs@)),
    {
        let mut mark: Option<u64> = None;
        let mut i: usize = 0;
        while i < self.songs.len()
            invariant
                i <= self.songs@.len(),
                mark == high_water_mark(song_views(self.songs@).subrange(0, i as int)),
            decreases self.songs@.len() - i,
        {
            proof {
                assert(song_views(self.songs@).subrange(0, i + 1).drop_last() =~= song_views(
                    self.songs@,
                ).subrange(0, i as int));
            }
            match parse_number_text(self.songs[i].sequence_number.as_str()) {
                Some(v) => {
                    mark = match mark {
                        None => Some(v),
                        Some(w) => Some(if v > w { v } else { w }),
                    };
                },
                None => {},
            }
            i = i + 1;
        }
        assert(song_views(self.songs@).subrange(0, i as int) =~= song_views(self.songs@));
        mark
    }

    /// Appends the songs of a page's posts, as `merge_page` states, and tells whether
    /// the page reached songs already indexed.
    pub fn merge_posts(&mut self, mark: Option<u64>, posts: &Vec<Post>) -> (caught_up: bool)
        ensures
            (song_views(final(self).songs@), caught_up) == merge_page(
                song_views(old(self).songs@),
                mark,
                posts@.map_values(|p: Post| p@),
            ),
            final(self).last_indexed == old(self).last_indexed,
    {
        let ghost start = song_views(self.songs@);
        let ghost views = posts@.map_values(|p: Post| p@);
        let mut caught_up = false;
        let mut i: usize = 0;
        assert(views.subrange(0, 0) =~= Seq::<PostView>::empty());
        while i < posts.len()
            invariant
                i <= posts@.len(),
                views == posts@.map_values(|p: Post| p@),
                self.last_indexed == old(self).last_indexed,
                (song_views(self.songs@), caught_up) == merge_page(
                    start,
                    mark,
                    views.subrange(0, i as int),
                ),
            decreases posts@.len() - i,
        {
            assert(views.subrange(0, i + 1).drop_last() =~= views.subrange(0, i as int));
            assert(views.subrange(0, i + 1).last() == posts@[i as int]@);
            match Song::try_from(&posts[i]) {
                Ok(song) => {
                    if is_already_indexed(mark, &song) {
                        caught_up = true;
                    } else {
                        let ghost before = song_views(self.songs@);
                        self.songs.push(song);
                        assert(song_views(self.songs@) =~= before.push(song@));
                    }
                },
                Err(_) => {},
            }
            i = i + 1;
        }
        assert(views.subrange(0, i as int) =~= views);
        caught_up
    }

    /// Records that a refresh completed at `now`, in milliseconds since the Unix epoch;
    /// the songs stay as they are.
    pub fn mark_indexed(&mut self, now: i64)
        ensures
            final(self).songs == old(self).songs,
            final(self).last_indexed == now,
    {
        self.last_indexed = now;
    }
}

/// Where a refresh stands: the watermark it started from, the page it asks for next,
/// and whether it is done.
#[derive(Clone, Copy, Debug, PartialEq, Eq, Structural)]
pub struct Refresh {
    pub high_water_mark: Option<u64>,
    pub next_page: usize,
    pub finished: bool,
}

impl Refresh {
    /// A refresh of `cache`, which asks for page 1 first.
    pub fn start(cache: &IndexCache) -> (r: Refresh)
        ensures
            r.high_water_mark == high_water_mark(song_views(cache.songs@)),
            r.next_page == 1,
            !r.finished,
    {
        Refresh { high_water_mark: cache.high_water_mark(), next_page: 1, finished: false }
    }

    /// The number of the page to fetch next; none once the refresh is done.
    pub fn page_to_fetch(&self) -> (r: Option<usize>)
        ensures
            r == (if self.finished {
                None
            } else {
                Some(self.next_page)
            }),
    {
        if self.finished {
            None
        } else {
            Some(self.next_page)
        }
    }

    /// Takes in the page that was fetched: appends its new songs to `cache`, and ends the
    /// refresh where the page reached songs already indexed or is the feed's last (or
    /// where no further page number exists).
    pub fn handle_page(&mut self, cache: &mut IndexCache, page: &PageResponse<Post>)
        requires
            !old(self).finished,
        ensures
            ({
                let (acc, caught_up) = merge_page(
                    song_views(old(cache).songs@),
                    old(self).high_water_mark,
                    page_posts(*page),
                );
                &&& song_views(final(cache).songs@) == acc
                &&& final(self).finished == (caught_up || page.meta.spec_is_last()
                    || old(self).next_page == usize::MAX)
            }),
            final(cache).last_indexed == old(cache).last_indexed,
            final(self).high_water_mark == old(self).high_water_mark,
            !final(self).finished ==> final(self).next_page == old(self).next_page + 1,
    {
        let caught_up = cache.merge_posts(self.high_water_mark, &page.data);
        if caught_up || page.meta.is_last() || self.next_page == usize::MAX {
            self.finished = true;
        } else {
            self.next_page = self.next_page + 1;
        }
    }
}

impl IndexCache {
    /// Refreshes the catalog from `pages`, the feed's pages in order from page 1, as
    /// `refreshed` states, and records `now` as the time of the refresh.
    pub fn refresh(&mut self, pages: &Vec<PageResponse<Post>>, now: i64)
        requires
            pages@.len() < usize::MAX,
        ensures
            song_views(final(self).songs@) == refreshed(song_views(old(self).songs@), pages@),
            final(self).last_indexed == now,
    {
        let ghost goal = refreshed(song_views(self.songs@), pages@);
        let mut state = Refresh::start(self);
        let mut i: usize = 0;
        while i < pages.len() && !state.finished
            invariant
                i <= pages@.len() < usize::MAX,
                !state.finished ==> state.next_page == i + 1,
                !state.finished ==> goal == refresh_from(
                    song_views(self.songs@),
                    state.high_water_mark,
                    pages@,
                    i as int,
                ),
                state.finished ==> goal == song_views(self.songs@),
            decreases pages@.len() - i,
        {
            state.handle_page(self, &pages[i]);
            i = i + 1;
        }
        self.mark_indexed(now);
    }
}

/// Whether every song that the posts of `pages` give has a sequence number that reads
/// as an integer.
pub open spec fn feed_songs_numbered(pages: Seq<PageResponse<Post>>) -> bool {
    forall|i: int, j: int|
        0 <= i < pages.len() && 0 <= j < page_posts(pages[i]).len() ==> match song_of(
            #[trigger] page_posts(pages[i])[j],
        ) {
            Some(song) => parse_number(song.sequence_number) is Some,
            None => true,
        }
}

/// Whether watermark `a` lies at or below watermark `b`.
pub open spec fn mark_le(a: Option<u64>, b: Option<u64>) -> bool {
    match a {
        Some(x) => match b {
            Some(y) => x <= y,
            None => false,
        },
        None => true,
    }
}

/// Whether `songs` begins with `prefix`.
pub open spec fn starts_with(songs: Seq<SongView>, prefix: Seq<SongView>) -> bool {
    prefix.len() <= songs.len() && songs.subrange(0, prefix.len() as int) == prefix
}

/// Whether some post of `posts` gives a song.
pub open spec fn has_song(posts: Seq<PostView>) -> bool {
    exists|j: int| 0 <= j < posts.len() && (#[trigger] song_of(posts[j])) is Some
}

/// Every numbered song of a catalog lies at or below the catalog's watermark.
pub proof fn lemma_high_water_mark_bounds(songs: Seq<SongView>, k: int)
    requires
        0 <= k < songs.len(),
        parse_number(songs[k].sequence_number) is Some,
    ensures
        already_indexed(high_water_mark(songs), songs[k]),
    decreases songs.len(),
{
    if k < songs.len() - 1 {
        lemma_high_water_mark_bounds(songs.drop_last(), k);
    }
}

/// Appending songs never lowers the watermark.
pub proof fn lemma_high_water_mark_grows(songs: Seq<SongView>, more: Seq<SongView>)
    ensures
        mark_le(high_water_mark(songs), high_water_mark(songs + more)),
    decreases more.len(),
{
    if more.len() == 0 {
        assert(songs + more =~= songs);
    } else {
        lemma_high_water_mark_grows(songs, more.drop_last());
        assert((songs + more).drop_last() =~= songs + more.drop_last());
    }
}

proof fn lemma_merge_page_extends(songs: Seq<SongView>, mark: Option<u64>, posts: Seq<PostView>)
    ensures
        starts_with(merge_page(songs, mark, posts).0, songs),
        forall|j: int|
            0 <= j < posts.len() ==> match #[trigger] song_of(posts[j]) {
                Some(song) => already_indexed(mark, song) || merge_page(
                    songs,
                    mark,
                    posts,
                ).0.contains(song),
                None => true,
            },
    decreases posts.len(),
{
    if posts.len() == 0 {
        assert(songs.subrange(0, songs.len() as int) =~= songs);
    } else {
        lemma_merge_page_extends(songs, mark, posts.drop_last());
        let acc = merge_page(songs, mark, posts.drop_last()).0;
        let r = merge_page(songs, mark, posts).0;
        if r != acc {
            assert(r == acc.push(song_of(posts.last())->0));
            assert(r.subrange(0, songs.len() as int) =~= acc.subrange(0, songs.len() as int));
        }
        assert forall|j: int| 0 <= j < posts.len() implies match #[trigger] song_of(posts[j]) {
            Some(song) => already_indexed(mark, song) || r.contains(song),
            None => true,
        } by {
            if j < posts.len() - 1 {
                assert(posts.drop_last()[j] == posts[j]);
                if let Some(song) = song_of(posts[j]) {
                    if !already_indexed(mark, song) {
                        let t = choose|t: int| 0 <= t < acc.len() && acc[t] == song;
                        assert(r[t] == song);
                    }
                }
            } else {
                if let Some(song) = song_of(posts[j]) {
                    if !already_indexed(mark, song) {
                        assert(r[r.len() - 1] == song);
                    }
                }
            }
        }
    }
}

proof fn lemma_merge_page_nothing_new(songs: Seq<SongView>, mark: Option<u64>, posts: Seq<PostView>)
    requires
        forall|j: int|
            0 <= j < posts.len() ==> match #[trigger] song_of(posts[j]) {
                Some(song) => already_indexed(mark, song),
                None => true,
            },
    ensures
        merge_page(songs, mark, posts) == (songs, has_song(posts)),
    decreases posts.len(),
{
    if posts.len() > 0 {
        assert forall|j: int| 0 <= j < posts.drop_last().len() implies match #[trigger] song_of(
            posts.drop_last()[j],
        ) {
            Some(song) => already_indexed(mark, song),
            None => true,
        } by {
            assert(posts.drop_last()[j] == posts[j]);
        }
        lemma_merge_page_nothing_new(songs, mark, posts.drop_last());
        if has_song(posts) && song_of(posts.last()) is None {
            let j = choose|j: int| 0 <= j < posts.len() && (#[trigger] song_of(posts[j])) is Some;
            assert(posts.drop_last()[j] == posts[j]);
        }
        if has_song(posts.drop_last()) {
            let j = choose|j: int|
                0 <= j < posts.drop_last().len() && (#[trigger] song_of(posts.drop_last()[j])) is Some;
            assert(posts.drop_last()[j] == posts[j]);
        }
        if song_of(posts.last()) is Some {
            assert(song_of(posts[posts.len() - 1]) is Some);
        }
    }
}

proof fn lemma_refresh_from_extends(
    songs: Seq<SongView>,
    mark: Option<u64>,
    pages: Seq<PageResponse<Post>>,
    i: int,
)
    ensures
        starts_with(refresh_from(songs, mark, pages, i), songs),
    decreases pages.len() - i,
{
    if 0 <= i < pages.len() {
        let acc = merge_page(songs, mark, page_posts(pages[i])).0;
        lemma_merge_page_extends(songs, mark, page_posts(pages[i]));
        lemma_refresh_from_extends(acc, mark, pages, i + 1);
        let r = refresh_from(songs, mark, pages, i);
        assert(r.subrange(0, songs.len() as int) =~= r.subrange(0, acc.len() as int).subrange(
            0,
            songs.len() as int,
        ));
    } else {
        assert(songs.subrange(0, songs.len() as int) =~= songs);
    }
}

proof fn lemma_rerun_from(
    acc: Seq<SongView>,
    first: Option<u64>,
    second: Option<u64>,
    pages: Seq<PageResponse<Post>>,
    i: int,
)
    requires
        0 <= i,
        feed_songs_numbered(pages),
        mark_le(first, second),
        forall|k: int|
            0 <= k < refresh_from(acc, first, pages, i).len() && parse_number(
                (#[trigger] refresh_from(acc, first, pages, i)[k]).sequence_number,
            ) is Some ==> already_indexed(second, refresh_from(acc, first, pages, i)[k]),
    ensures
        refresh_from(refresh_from(acc, first, pages, i), second, pages, i) == refresh_from(
            acc,
            first,
            pages,
            i,
        ),
    decreases pages.len() - i,
{
    let done = refresh_from(acc, first, pages, i);
    if i < pages.len() {
        let posts = page_posts(pages[i]);
        let (next, _) = merge_page(acc, first, posts);
        lemma_merge_page_extends(acc, first, posts);
        lemma_refresh_from_extends(next, first, pages, i + 1);
        assert forall|j: int| 0 <= j < posts.len() implies match #[trigger] song_of(posts[j]) {
            Some(song) => already_indexed(second, song),
            None => true,
        } by {
            if let Some(song) = song_of(posts[j]) {
                assert(parse_number(song.sequence_number) is Some);
                if !already_indexed(first, song) {
                    let t = choose|t: int| 0 <= t < next.len() && next[t] == song;
                    assert(done.subrange(0, next.len() as int)[t] == song);
                    assert(done[t] == song);
                }
            }
        }
        lemma_merge_page_nothing_new(done, second, posts);
        if !has_song(posts) && !pages[i].meta.spec_is_last() {
            lemma_merge_page_nothing_new(acc, first, posts);
            lemma_rerun_from(acc, first, second, pages, i + 1);
        }
    }
}

/// Refreshing twice from an unchanged feed gives the same songs as refreshing once:
/// the second refresh, starting from the watermark that the first left, appends
/// nothing. This holds where every song of the feed has a sequence number that reads
/// as an integer; a song without one is appended again whenever its page is read.
pub proof fn lemma_refresh_idempotent(songs: Seq<SongView>, pages: Seq<PageResponse<Post>>)
    requires
        feed_songs_numbered(pages),
    ensures
        refreshed(refreshed(songs, pages), pages) == refreshed(songs, pages),
{
    let once = refreshed(songs, pages);
    lemma_refresh_from_extends(songs, high_water_mark(songs), pages, 0);
    assert(once =~= songs + once.subrange(songs.len() as int, once.len() as int));
    lemma_high_water_mark_grows(songs, once.subrange(songs.len() as int, once.len() as int));
    assert forall|k: int|
        0 <= k < once.len() && parse_number((#[trigger] once[k]).sequence_number) is Some implies already_indexed(
        high_water_mark(once),
        once[k],
    ) by {
        lemma_high_water_mark_bounds(once, k);
    }
    lemma_rerun_from(songs, high_water_mark(songs), high_water_mark(once), pages, 0);
}

} // verus!
