//! Classification of tags, parsing of headings, and the building of songs from posts.

use vstd::prelude::*;

use crate::api::post::{Post, PostView, Tag};
use crate::corrections::{correct_artist, corrected};
use crate::models::post::{Category, Difficulty as Level, Tag as ClassifiedTag};
use crate::models::song::{Difficulty, Song, SongView};
use crate::text::{
    find_from, trim_start, is_digit, lemma_find_from_extend, split_once, split_once_text, trim, trim_text,
};

verus! {

/// The category that marks a post as a transcription.
pub const TRANSCRIPTION_CATEGORY_ID: usize = 73_044;

/// The pattern of a sequence number: a `#` and the digits that follow it.
pub const SEQUENCE_NUMBER_PATTERN: &'static str = "#([0-9]+)";

/// What a category of the feed stands for.
pub open spec fn spec_classify(category_id: usize) -> Category {
    if category_id == 174_260 {
        Category::Difficulty(Level::Beginner)
    } else if category_id == 174_255 {
        Category::Difficulty(Level::Intermediate)
    } else if category_id == 174_257 {
        Category::Difficulty(Level::Advanced)
    } else if category_id == 174_258 {
        Category::Difficulty(Level::Expert)
    } else if category_id == 174_259 {
        Category::Difficulty(Level::Master)
    } else if category_id == TRANSCRIPTION_CATEGORY_ID {
        Category::Transcription
    } else {
        Category::Other
    }
}

/// Looks a category of the feed up in the table of known categories.
pub fn classify(category_id: usize) -> (r: Category)
    ensures
        r == spec_classify(category_id),
{
    if category_id == 174_260 {
        Category::Difficulty(Level::Beginner)
    } else if category_id == 174_255 {
        Category::Difficulty(Level::Intermediate)
    } else if category_id == 174_257 {
        Category::Difficulty(Level::Advanced)
    } else if category_id == 174_258 {
        Category::Difficulty(Level::Expert)
    } else if category_id == 174_259 {
        Category::Difficulty(Level::Master)
    } else if category_id == TRANSCRIPTION_CATEGORY_ID {
        Category::Transcription
    } else {
        Category::Other
    }
}

/// A tag of the feed with its category classified.
pub open spec fn spec_classify_tag(tag: Tag) -> ClassifiedTag {
    match tag {
        Tag::Category { category_id } => ClassifiedTag::Category(spec_classify(category_id)),
        Tag::Other => ClassifiedTag::Other,
    }
}

/// Classifies the category of a tag of the feed.
pub fn classify_tag(tag: Tag) -> (r: ClassifiedTag)
    ensures
        r == spec_classify_tag(tag),
{
    match tag {
        Tag::Category { category_id } => ClassifiedTag::Category(classify(category_id)),
        Tag::Other => ClassifiedTag::Other,
    }
}

/// The skill level that a tag names, if any.
pub open spec fn tag_level(tag: Tag) -> Option<Level> {
    match spec_classify_tag(tag) {
        ClassifiedTag::Category(Category::Difficulty(level)) => Some(level),
        _ => None,
    }
}

/// The difficulty of the first tag that names a skill level; `Unrated` where none does.
pub open spec fn difficulty_of(tags: Seq<Tag>) -> Difficulty
    decreases tags.len(),
{
    if tags.len() == 0 {
        Difficulty::Unrated
    } else {
        match tag_level(tags[0]) {
            Some(level) => Difficulty::spec_from_level(level),
            None => difficulty_of(tags.drop_first()),
        }
    }
}

/// Whether some tag is the transcription category.
pub open spec fn is_transcription(tags: Seq<Tag>) -> bool {
    exists|i: int|
        0 <= i < tags.len() && #[trigger] tags[i] == (Tag::Category {
            category_id: TRANSCRIPTION_CATEGORY_ID,
        })
}

impl From<&Vec<Tag>> for Difficulty {
    /// The difficulty of the first tag that names a skill level; `Unrated` where none does.
    fn from(tags: &Vec<Tag>) -> (r: Difficulty) {
        let n = tags.len();
        let mut i: usize = 0;
        assert(tags@.subrange(0, n as int) =~= tags@);
        while i < n
            invariant
                i <= n,
                n == tags@.len(),
                difficulty_of(tags@) == difficulty_of(tags@.subrange(i as int, n as int)),
            decreases n - i,
        {
            let tag = tags[i];
            assert(tags@.subrange(i as int, n as int)[0] == tag);
            if let ClassifiedTag::Category(Category::Difficulty(level)) = classify_tag(tag) {
                return Difficulty::from_level(level);
            }
            assert(tags@.subrange(i as int, n as int).drop_first() =~= tags@.subrange(
                i + 1,
                n as int,
            ));
            i = i + 1;
        }
        Difficulty::Unrated
    }
}

impl vstd::std_specs::convert::FromSpecImpl<&Vec<Tag>> for Difficulty {
    open spec fn obeys_from_spec() -> bool {
        true
    }

    open spec fn from_spec(tags: &Vec<Tag>) -> Difficulty {
        difficulty_of(tags@)
    }
}

/// Whether some tag is the transcription category.
pub fn has_transcription_tag(tags: &Vec<Tag>) -> (r: bool)
    ensures
        r == is_transcription(tags@),
{
    let n = tags.len();
    let mut i: usize = 0;
    while i < n
        invariant
            i <= n,
            n == tags@.len(),
            forall|j: int|
                0 <= j < i ==> tags@[j] != (Tag::Category {
                    category_id: TRANSCRIPTION_CATEGORY_ID,
                }),
        decreases n - i,
    {
        if let Tag::Category { category_id } = tags[i] {
            if category_id == TRANSCRIPTION_CATEGORY_ID {
                return true;
            }
        }
        i = i + 1;
    }
    false
}

/// The end of the run of digits that starts at `k`.
pub open spec fn digit_run_end(s: Seq<char>, k: int) -> int
    decreases s.len() - k,
{
    if 0 <= k < s.len() && is_digit(s[k]) {
        digit_run_end(s, k + 1)
    } else {
        k
    }
}

/// Whether a `#` stands at `i` with a digit right after it.
pub open spec fn number_at(s: Seq<char>, i: int) -> bool {
    0 <= i && i + 1 < s.len() && s[i] == '#' && is_digit(s[i + 1])
}

/// The first index from `i` on at which a `#` stands with a digit right after it.
pub open spec fn number_position(s: Seq<char>, i: int) -> Option<int>
    decreases s.len() - i,
{
    if i < 0 || i >= s.len() {
        None
    } else if number_at(s, i) {
        Some(i)
    } else {
        number_position(s, i + 1)
    }
}

/// The digits that follow the first `#` of `s` that has a digit after it, as far as
/// they run.
pub open spec fn sequence_digits(s: Seq<char>) -> Option<Seq<char>> {
    match number_position(s, 0) {
        Some(i) => Some(s.subrange(i + 1, digit_run_end(s, i + 1))),
        None => None,
    }
}

/// Relies on `regex::Regex::new` and `regex::Regex::captures` with the pattern
/// `#([0-9]+)`: the match found is the leftmost one and `+` takes as many digits as
/// follow, so group 1 is the digit run after the first `#` that has a digit after it.
#[verifier::external_body]
fn capture_sequence_number(segment: &str) -> (r: Option<String>)
    ensures
        match r {
            Some(digits) => sequence_digits(segment@) == Some(digits@),
            None => sequence_digits(segment@) is None,
        },
{
    let pattern = regex::Regex::new(SEQUENCE_NUMBER_PATTERN).unwrap();
    pattern.captures(segment).map(|captures| captures[1].to_string())
}

/// The parts of a heading, as plain values.
pub struct DetailsView {
    pub artist: Seq<char>,
    pub title: Seq<char>,
    pub sequence_number: Seq<char>,
}

/// A heading `title - artist | segment` cut into its parts: the title before the first
/// ` - ` (the whole heading without one), the artist before the first ` | ` of what
/// follows it, trimmed and corrected, and the digits after the first `#` of the segment.
pub open spec fn parse_heading(heading: Seq<char>) -> DetailsView {
    let (title_part, rest) = match split_once(heading, " - "@) {
        Some((before, after)) => (before, after),
        None => (heading, Seq::<char>::empty()),
    };
    let (artist_part, segment) = match split_once(rest, " | "@) {
        Some((before, after)) => (before, after),
        None => (rest, Seq::<char>::empty()),
    };
    DetailsView {
        artist: corrected(trim(artist_part)),
        title: trim(title_part),
        sequence_number: match sequence_digits(segment) {
            Some(digits) => digits,
            None => Seq::<char>::empty(),
        },
    }
}

/// The title, artist and sequence number that a heading names.
pub struct SongDetails {
    pub artist: String,
    pub title: String,
    pub sequence_number: String,
}

impl View for SongDetails {
    type V = DetailsView;

    open spec fn view(&self) -> DetailsView {
        DetailsView {
            artist: self.artist@,
            title: self.title@,
            sequence_number: self.sequence_number@,
        }
    }
}

impl SongDetails {
    /// Cuts a heading into title, artist and sequence number. Never fails: parts that
    /// the heading lacks come out empty.
    pub fn from_str(s: &str) -> (r: SongDetails)
        ensures
            r@ == parse_heading(s@),
    {
        let dash = " - ";
        let bar = " | ";
        let empty = "";
        proof {
            reveal_strlit(" - ");
            reveal_strlit(" | ");
            reveal_strlit("");
        }
        assert(empty@ =~= Seq::<char>::empty());
        let (title_part, rest) = match split_once_text(s, dash) {
            Some((before, after)) => (before, after),
            None => (s, empty),
        };
        let (artist_part, segment) = match split_once_text(rest, bar) {
            Some((before, after)) => (before, after),
            None => (rest, empty),
        };
        let artist = correct_artist(trim_text(artist_part));
        let title = trim_text(title_part);
        let sequence_number = match capture_sequence_number(segment) {
            Some(digits) => digits,
            None => String::new(),
        };
        SongDetails { artist: artist.to_owned(), title: title.to_owned(), sequence_number }
    }
}

/// Why a post gives no song.
#[derive(Clone, Copy, Debug, PartialEq, Eq, Structural)]
pub enum ConversionError {
    /// The post is not tagged as a transcription.
    NotTranscription,
}

/// The song that a post stands for: one for each post tagged as a transcription, none
/// for any other.
pub open spec fn song_of(post: PostView) -> Option<SongView> {
    if is_transcription(post.tags) {
        let details = parse_heading(post.heading);
        Some(
            SongView {
                id: post.id,
                artist: details.artist,
                title: details.title,
                difficulty: difficulty_of(post.tags),
                link: post.link,
                sequence_number: details.sequence_number,
            },
        )
    } else {
        None
    }
}

impl Song {
    /// Builds the song of a post tagged as a transcription; any other post is refused.
    pub fn try_from(value: &Post) -> (r: Result<Song, ConversionError>)
        ensures
            match r {
                Ok(song) => song_of(value@) == Some(song@),
                Err(e) => song_of(value@) is None && e == ConversionError::NotTranscription,
            },
    {
        if !has_transcription_tag(&value.tags) {
            return Err(ConversionError::NotTranscription);
        }
        let details = SongDetails::from_str(value.project_update_heading.as_str());
        Ok(
            Song {
                id: value.id,
                artist: details.artist,
                title: details.title,
                sequence_number: details.sequence_number,
                link: value.share_urls.copy_url.clone(),
                difficulty: Difficulty::from(&value.tags),
            },
        )
    }
}

/// The three pieces that a heading is cut into: the title part, the artist part and the
/// segment that holds the sequence number.
pub open spec fn heading_parts(heading: Seq<char>) -> (Seq<char>, Seq<char>, Seq<char>) {
    let (title_part, rest) = match split_once(heading, " - "@) {
        Some((before, after)) => (before, after),
        None => (heading, Seq::<char>::empty()),
    };
    let (artist_part, segment) = match split_once(rest, " | "@) {
        Some((before, after)) => (before, after),
        None => (rest, Seq::<char>::empty()),
    };
    (title_part, artist_part, segment)
}

/// No correction applies to an empty name.
pub proof fn lemma_corrected_empty()
    ensures
        corrected(Seq::<char>::empty()) == Seq::<char>::empty(),
{
    reveal_strlit("Blink-182");
    reveal_strlit("Born Of Osiris");
    reveal_strlit("Bowling For Soup");
    reveal_strlit("Bullet For My Valentine");
    reveal_strlit("Fountains Of Wayne");
    reveal_strlit("Jackson 5");
    reveal_strlit("Puddle Of Mudd");
    reveal_strlit("Rage Against The Machine");
    reveal_strlit("System Of A Down");
    reveal_strlit("The Presidents Of The United States Of America");
}

proof fn lemma_digit_run(s: Seq<char>, k: int, end: int)
    requires
        1 <= k <= end <= s.len(),
        forall|i: int| k <= i < end ==> is_digit(#[trigger] s[i]),
        end == s.len() || !is_digit(s[end]),
    ensures
        digit_run_end(s, k) == end,
    decreases end - k,
{
    if k < end {
        lemma_digit_run(s, k + 1, end);
    }
}

/// A heading `T - A | #N extra` parses to the title `T` trimmed, the artist `A` trimmed
/// and corrected, and the sequence number `N`, whatever follows `N`: where the first
/// ` - ` comes right after `T`, the first ` | ` after it comes right after `A`, `N` is a
/// run of digits and `extra` does not go on with a digit.
pub proof fn lemma_parse_full_heading(t: Seq<char>, a: Seq<char>, n: Seq<char>, extra: Seq<char>)
    requires
        find_from(t + " - "@, " - "@, 0) == Some(t.len() as int),
        find_from(a + " | "@, " | "@, 0) == Some(a.len() as int),
        n.len() > 0,
        forall|i: int| 0 <= i < n.len() ==> is_digit(#[trigger] n[i]),
        extra.len() == 0 || !is_digit(extra[0]),
    ensures
        parse_heading(t + " - "@ + a + " | "@ + "#"@ + n + extra) == (DetailsView {
            title: trim(t),
            artist: corrected(trim(a)),
            sequence_number: n,
        }),
{
    reveal_strlit(" - ");
    reveal_strlit(" | ");
    reveal_strlit("#");
    let segment = "#"@ + n + extra;
    let rest = a + " | "@ + segment;
    let heading = t + " - "@ + rest;
    assert(heading =~= (t + " - "@) + rest);
    assert(t + " - "@ + a + " | "@ + "#"@ + n + extra =~= heading);
    lemma_find_from_extend(t + " - "@, " - "@, rest, t.len() as int);
    assert(heading.subrange(0, t.len() as int) =~= t);
    assert(heading.subrange(t.len() as int + 3, heading.len() as int) =~= rest);
    assert(rest =~= (a + " | "@) + segment);
    lemma_find_from_extend(a + " | "@, " | "@, segment, a.len() as int);
    assert(rest.subrange(0, a.len() as int) =~= a);
    assert(rest.subrange(a.len() as int + 3, rest.len() as int) =~= segment);
    assert(number_at(segment, 0));
    assert forall|i: int| 1 <= i < n.len() + 1 implies is_digit(#[trigger] segment[i]) by {
        assert(segment[i] == n[i - 1]);
    }
    if extra.len() > 0 {
        assert(segment[n.len() as int + 1] == extra[0]);
    }
    lemma_digit_run(segment, 1, n.len() as int + 1);
    assert(segment.subrange(1, n.len() as int + 1) =~= n);
}

/// A heading without ` - ` is all title: its artist and sequence number are empty.
pub proof fn lemma_parse_title_only(heading: Seq<char>)
    requires
        forall|j: int| !crate::text::occurs_at(heading, " - "@, j),
    ensures
        parse_heading(heading).title == trim(heading),
        parse_heading(heading).artist.len() == 0,
        parse_heading(heading).sequence_number.len() == 0,
{
    crate::text::lemma_find_from_none(heading, " - "@, 0);
    reveal_strlit(" | ");
    crate::text::lemma_find_from_none(Seq::<char>::empty(), " | "@, 0);
    lemma_corrected_empty();
    assert(trim_start(Seq::<char>::empty()) == Seq::<char>::empty());
}

/// A heading with ` - ` but no ` | ` after it has the rest, trimmed and corrected, as
/// its artist and no sequence number.
pub proof fn lemma_parse_without_sequence(heading: Seq<char>, title_part: Seq<char>, rest: Seq<char>)
    requires
        split_once(heading, " - "@) == Some((title_part, rest)),
        forall|j: int| !crate::text::occurs_at(rest, " | "@, j),
    ensures
        parse_heading(heading).title == trim(title_part),
        parse_heading(heading).artist == corrected(trim(rest)),
        parse_heading(heading).sequence_number.len() == 0,
{
    crate::text::lemma_find_from_none(rest, " | "@, 0);
}

/// A segment in which no `#` has a digit right after it gives no sequence number.
pub proof fn lemma_parse_hash_without_digit(heading: Seq<char>)
    requires
        forall|i: int| !number_at(heading_parts(heading).2, i),
    ensures
        parse_heading(heading).sequence_number.len() == 0,
{
    lemma_no_number_position(heading_parts(heading).2, 0);
}

proof fn lemma_no_number_position(s: Seq<char>, i: int)
    requires
        0 <= i,
        forall|j: int| !number_at(s, j),
    ensures
        number_position(s, i) is None,
    decreases s.len() - i,
{
    if i < s.len() {
        lemma_no_number_position(s, i + 1);
    }
}

} // verus!
