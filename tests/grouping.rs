use drumscribe::grouping::{group_songs, group_songs_by_keys};
use drumscribe::models::song::{Difficulty, Song, SongGroup};

fn song(id: usize, artist: &str, title: &str, seq: &str) -> Song {
    Song {
        id,
        artist: artist.to_string(),
        title: title.to_string(),
        difficulty: Difficulty::Unrated,
        link: String::new(),
        sequence_number: seq.to_string(),
    }
}

fn shape(groups: &[SongGroup]) -> Vec<(String, Vec<usize>)> {
    groups.iter().map(|g| (g.artist.clone(), g.songs.iter().map(|s| s.id).collect())).collect()
}

fn catalog() -> Vec<Song> {
    vec![
        song(1, "rush", "YYZ", "10"),
        song(2, "ABBA", "Waterloo", "11"),
        song(3, "Rush", "Tom Sawyer", "12"),
        song(4, "Rush", "yyz", "13"),
        song(5, "Nobody", "Unreleased", ""),
        song(6, "RUSH", "Limelight", "14"),
    ]
}

#[test]
fn groups_by_artist_case_insensitively() {
    let groups = group_songs(catalog());
    assert_eq!(
        shape(&groups),
        vec![
            ("ABBA".to_string(), vec![2]),
            ("RUSH".to_string(), vec![6, 3, 1]),
        ]
    );
}

#[test]
fn grouping_twice_gives_same_groups() {
    let once = group_songs(catalog());
    let flat: Vec<Song> = once.iter().flat_map(|g| g.songs.clone()).collect();
    let twice = group_songs(flat);
    assert_eq!(shape(&twice), shape(&once));
}

#[test]
fn songs_without_sequence_number_are_left_out() {
    let groups = group_songs(vec![song(1, "A", "x", ""), song(2, "B", "y", "")]);
    assert!(groups.is_empty());
    assert!(group_songs(Vec::new()).is_empty());
}

#[test]
fn equal_titles_keep_the_first() {
    let groups = group_songs(vec![
        song(1, "Band", "Song", "1"),
        song(2, "Band", "SONG", "2"),
        song(3, "Band", "Another", "3"),
    ]);
    assert_eq!(shape(&groups), vec![("Band".to_string(), vec![3, 1])]);
}

#[test]
fn groups_by_given_keys() {
    let songs = vec![
        song(1, "Foo", "b", "1"),
        song(2, "foo", "a", "2"),
        song(3, "Bar", "c", "3"),
        song(4, "Baz", "c", ""),
    ];
    let artist_keys: Vec<String> = vec!["k".into(), "k".into(), "j".into(), "j".into()];
    let title_keys: Vec<String> = vec!["2".into(), "1".into(), "1".into(), "0".into()];
    let groups = group_songs_by_keys(songs, &artist_keys, &title_keys);
    assert_eq!(
        shape(&groups),
        vec![("Bar".to_string(), vec![3]), ("foo".to_string(), vec![2, 1])]
    );
}

#[test]
fn foo_and_lowercase_foo_share_a_group() {
    let groups = group_songs(vec![song(1, "Foo", "x", "1"), song(2, "foo", "y", "2")]);
    assert_eq!(shape(&groups), vec![("Foo".to_string(), vec![1, 2])]);
}
