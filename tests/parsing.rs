use drumscribe::conversions::post::SongDetails;
use drumscribe::corrections::correct_artist;
use drumscribe::text::{parse_number_text, split_once_text, trim_text};

fn parse(heading: &str) -> (String, String, String) {
    let d = SongDetails::from_str(heading);
    (d.title, d.artist, d.sequence_number)
}

fn triple(t: &str, a: &str, n: &str) -> (String, String, String) {
    (t.to_string(), a.to_string(), n.to_string())
}

#[test]
fn heading_with_trailing_text() {
    assert_eq!(
        parse("Everlong - Foo Fighters | #42 DRUMSCRIBE"),
        triple("Everlong", "Foo Fighters", "42")
    );
}

#[test]
fn artist_keeps_internal_hyphens() {
    assert_eq!(
        parse("This Christmas Day - Trans-Siberian Orchestra | #622"),
        triple("This Christmas Day", "Trans-Siberian Orchestra", "622")
    );
}

#[test]
fn full_heading_parts_are_trimmed_and_corrected() {
    assert_eq!(
        parse("  All The Small Things   -   Blink-182  | extra #7abc #9"),
        triple("All The Small Things", "blink-182", "7")
    );
}

#[test]
fn heading_without_separator_is_all_title() {
    assert_eq!(parse("  Drum Cover Announcement  "), triple("Drum Cover Announcement", "", ""));
}

#[test]
fn heading_without_bar_has_no_sequence_number() {
    assert_eq!(parse("Song - Some Artist #12"), triple("Song", "Some Artist #12", ""));
}

#[test]
fn lone_hash_gives_no_sequence_number() {
    assert_eq!(parse("Song - Artist | # "), triple("Song", "Artist", ""));
    assert_eq!(parse("Song - Artist | #x #"), triple("Song", "Artist", ""));
}

#[test]
fn digits_without_hash_give_no_sequence_number() {
    assert_eq!(parse("Song - Artist | 123"), triple("Song", "Artist", ""));
}

#[test]
fn first_of_several_numbers_is_taken() {
    assert_eq!(parse("Song - Artist | # #15 | #16"), triple("Song", "Artist", "15"));
}

#[test]
fn only_first_dash_separates_title() {
    assert_eq!(
        parse("A - B - C | #3"),
        triple("A", "B - C", "3")
    );
}

#[test]
fn empty_heading() {
    assert_eq!(parse(""), triple("", "", ""));
}

#[test]
fn corrections_apply_exactly() {
    assert_eq!(correct_artist("Blink-182"), "blink-182");
    assert_eq!(correct_artist("Nirvana"), "Nirvana");
    assert_eq!(correct_artist("blink-182"), "blink-182");
    assert_eq!(correct_artist("Jackson 5"), "The Jackson 5");
    assert_eq!(correct_artist("System Of A Down"), "System of a Down");
    assert_eq!(
        correct_artist("The Presidents Of The United States Of America"),
        "The Presidents of the United States of America"
    );
}

#[test]
fn trim_removes_unicode_white_space() {
    assert_eq!(trim_text("\u{a0}\t x y \n\u{3000}"), "x y");
    assert_eq!(trim_text("   "), "");
}

#[test]
fn split_at_first_separator() {
    assert_eq!(split_once_text("a - b - c", " - "), Some(("a", "b - c")));
    assert_eq!(split_once_text("a-b", " - "), None);
    assert_eq!(split_once_text("é - ü", " - "), Some(("é", "ü")));
}

#[test]
fn numbers_read_in_base_ten() {
    assert_eq!(parse_number_text("0042"), Some(42));
    assert_eq!(parse_number_text("18446744073709551615"), Some(u64::MAX));
    assert_eq!(parse_number_text("18446744073709551616"), None);
    assert_eq!(parse_number_text(""), None);
    assert_eq!(parse_number_text("+5"), None);
    assert_eq!(parse_number_text("12a"), None);
}
