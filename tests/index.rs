use drumscribe::api::post::{PageMeta, PageResponse, Post, ShareUrls, Tag};
use drumscribe::conversions::post::TRANSCRIPTION_CATEGORY_ID;
use drumscribe::index_cache::{IndexCache, Refresh};
use drumscribe::models::song::{Difficulty, Song};

fn post(id: usize, heading: &str) -> Post {
    Post {
        id,
        project_update_heading: heading.to_string(),
        tags: vec![Tag::Category { category_id: TRANSCRIPTION_CATEGORY_ID }],
        share_urls: ShareUrls { copy_url: format!("https://example.com/p/{id}") },
    }
}

fn announcement(id: usize) -> Post {
    Post {
        id,
        project_update_heading: "Poll: what next?".to_string(),
        tags: vec![Tag::Other],
        share_urls: ShareUrls { copy_url: String::new() },
    }
}

fn page(current: usize, last: usize, data: Vec<Post>) -> PageResponse<Post> {
    PageResponse { data, meta: PageMeta { current_page: current, last_page: last } }
}

fn song(id: usize, seq: &str) -> Song {
    Song {
        id,
        artist: "A".to_string(),
        title: format!("T{id}"),
        difficulty: Difficulty::Unrated,
        link: String::new(),
        sequence_number: seq.to_string(),
    }
}

fn ids(cache: &IndexCache) -> Vec<usize> {
    cache.songs.iter().map(|s| s.id).collect()
}

fn feed() -> Vec<PageResponse<Post>> {
    vec![
        page(1, 3, vec![post(5, "E - X | #5"), announcement(50), post(4, "D - X | #4")]),
        page(2, 3, vec![post(3, "C - X | #3"), post(2, "B - X | #2")]),
        page(3, 3, vec![post(1, "A - X | #1")]),
    ]
}

#[test]
fn empty_catalog_reads_every_page() {
    let mut cache = IndexCache::new();
    assert!(cache.is_empty());
    cache.refresh(&feed(), 1_700_000_000_000);
    assert_eq!(ids(&cache), vec![5, 4, 3, 2, 1]);
    assert!(!cache.is_empty());
    assert_eq!(cache.last_indexed, 1_700_000_000_000);
}

#[test]
fn refresh_twice_appends_nothing() {
    let mut cache = IndexCache::new();
    cache.refresh(&feed(), 1);
    let first = ids(&cache);
    cache.refresh(&feed(), 1);
    assert_eq!(ids(&cache), first);
}

#[test]
fn refresh_stops_at_watermark() {
    let mut cache = IndexCache { songs: vec![song(2, "2"), song(1, "1")], last_indexed: 0 };
    assert_eq!(cache.high_water_mark(), Some(2));
    let mut state = Refresh::start(&cache);
    assert_eq!(state.page_to_fetch(), Some(1));
    let pages = feed();
    state.handle_page(&mut cache, &pages[0]);
    assert_eq!(state.page_to_fetch(), Some(2));
    state.handle_page(&mut cache, &pages[1]);
    assert_eq!(state.page_to_fetch(), None);
    assert_eq!(ids(&cache), vec![2, 1, 5, 4, 3]);
    cache.mark_indexed(42);
    assert_eq!(cache.last_indexed, 42);
    assert_eq!(ids(&cache), vec![2, 1, 5, 4, 3]);
}

#[test]
fn unnumbered_songs_are_appended() {
    let mut cache = IndexCache { songs: vec![song(9, "9")], last_indexed: 0 };
    let pages = vec![page(1, 1, vec![post(10, "New - X"), post(11, "Old - X | #9")])];
    cache.refresh(&pages, 1);
    assert_eq!(ids(&cache), vec![9, 10]);
    assert_eq!(cache.songs[1].sequence_number, "");
}

#[test]
fn watermark_ignores_unreadable_numbers() {
    let cache = IndexCache {
        songs: vec![song(1, ""), song(2, "17"), song(3, "99999999999999999999"), song(4, "3")],
        last_indexed: 0,
    };
    assert_eq!(cache.high_water_mark(), Some(17));
    assert_eq!(IndexCache::new().high_water_mark(), None);
}

#[test]
fn last_page_ends_refresh() {
    let mut cache = IndexCache::new();
    let pages = vec![page(4, 4, vec![post(1, "A - X | #1")]), page(5, 5, vec![post(2, "B - X | #2")])];
    cache.refresh(&pages, 1);
    assert_eq!(ids(&cache), vec![1]);
}
