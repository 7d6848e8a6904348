use drumscribe::api::post::{Post, ShareUrls, Tag};
use drumscribe::conversions::post::{classify, classify_tag, ConversionError, TRANSCRIPTION_CATEGORY_ID};
use drumscribe::models::post::{Category, Difficulty as Level, Tag as ClassifiedTag};
use drumscribe::models::song::{Difficulty, Song};

fn post(id: usize, heading: &str, tags: Vec<Tag>) -> Post {
    Post {
        id,
        project_update_heading: heading.to_string(),
        tags,
        share_urls: ShareUrls { copy_url: format!("https://example.com/p/{id}") },
    }
}

fn cat(id: usize) -> Tag {
    Tag::Category { category_id: id }
}

#[test]
fn beginner_transcription_becomes_song() {
    let p = post(7, "Everlong - Foo Fighters | #42", vec![cat(174_260), cat(TRANSCRIPTION_CATEGORY_ID)]);
    let song = Song::try_from(&p).unwrap();
    assert_eq!(song.id, 7);
    assert_eq!(song.title, "Everlong");
    assert_eq!(song.artist, "Foo Fighters");
    assert_eq!(song.sequence_number, "42");
    assert_eq!(song.difficulty, Difficulty::Beginner);
    assert_eq!(song.link, "https://example.com/p/7");
}

#[test]
fn post_without_transcription_tag_is_skipped() {
    let p = post(8, "Everlong - Foo Fighters | #42", vec![cat(174_260)]);
    assert_eq!(Song::try_from(&p).unwrap_err(), ConversionError::NotTranscription);
    let q = post(9, "News", vec![Tag::Other]);
    assert!(Song::try_from(&q).is_err());
}

#[test]
fn first_difficulty_tag_wins() {
    let tags = vec![Tag::Other, cat(1), cat(174_259), cat(174_255)];
    assert_eq!(Difficulty::from(&tags), Difficulty::Master);
}

#[test]
fn no_difficulty_tag_is_unrated() {
    let tags = vec![cat(TRANSCRIPTION_CATEGORY_ID), Tag::Other];
    assert_eq!(Difficulty::from(&tags), Difficulty::Unrated);
    assert_eq!(Difficulty::from(&Vec::new()), Difficulty::Unrated);
}

#[test]
fn every_level_is_classified() {
    assert_eq!(classify(174_260), Category::Difficulty(Level::Beginner));
    assert_eq!(classify(174_255), Category::Difficulty(Level::Intermediate));
    assert_eq!(classify(174_257), Category::Difficulty(Level::Advanced));
    assert_eq!(classify(174_258), Category::Difficulty(Level::Expert));
    assert_eq!(classify(174_259), Category::Difficulty(Level::Master));
    assert_eq!(classify(73_044), Category::Transcription);
    assert_eq!(classify(174_256), Category::Other);
    assert_eq!(classify_tag(Tag::Other), ClassifiedTag::Other);
    assert_eq!(classify_tag(cat(174_258)), ClassifiedTag::Category(Category::Difficulty(Level::Expert)));
}

#[test]
fn difficulty_labels_and_stars() {
    assert_eq!(Difficulty::Intermediate.label(), "Intermediate");
    assert_eq!(Difficulty::Unrated.label(), "Unrated");
    assert_eq!(Difficulty::Advanced.stars(), "★★★");
    assert_eq!(Difficulty::Unrated.stars(), "—");
    assert_eq!(Difficulty::from_level(Level::Expert), Difficulty::Expert);
}
