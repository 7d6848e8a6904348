//! Known misspellings of artist names and their corrected forms.

use vstd::prelude::*;

use crate::text::same_text;

verus! {

/// The corrected form of an artist name: the table's entry where the name is one of its
/// keys, compared exactly, and the name itself otherwise.
pub open spec fn corrected(artist: Seq<char>) -> Seq<char> {
    if artist == "Blink-182"@ {
        "blink-182"@
    } else if artist == "Born Of Osiris"@ {
        "Born of Osiris"@
    } else if artist == "Bowling For Soup"@ {
        "Bowling for Soup"@
    } else if artist == "Bullet For My Valentine"@ {
        "Bullet for My Valentine"@
    } else if artist == "Fountains Of Wayne"@ {
        "Fountains of Wayne"@
    } else if artist == "Jackson 5"@ {
        "The Jackson 5"@
    } else if artist == "Puddle Of Mudd"@ {
        "Puddle of Mudd"@
    } else if artist == "Rage Against The Machine"@ {
        "Rage Against the Machine"@
    } else if artist == "System Of A Down"@ {
        "System of a Down"@
    } else if artist == "The Presidents Of The United States Of America"@ {
        "The Presidents of the United States of America"@
    } else {
        artist
    }
}

/// Replaces a known misspelling of an artist name by its corrected form.
pub fn correct_artist(artist: &str) -> (r: &str)
    ensures
        r@ == corrected(artist@),
{
    if same_text(artist, "Blink-182") {
        "blink-182"
    } else if same_text(artist, "Born Of Osiris") {
        "Born of Osiris"
    } else if same_text(artist, "Bowling For Soup") {
        "Bowling for Soup"
    } else if same_text(artist, "Bullet For My Valentine") {
        "Bullet for My Valentine"
    } else if same_text(artist, "Fountains Of Wayne") {
        "Fountains of Wayne"
    } else if same_text(artist, "Jackson 5") {
        "The Jackson 5"
    } else if same_text(artist, "Puddle Of Mudd") {
        "Puddle of Mudd"
    } else if same_text(artist, "Rage Against The Machine") {
        "Rage Against the Machine"
    } else if same_text(artist, "System Of A Down") {
        "System of a Down"
    } else if same_text(artist, "The Presidents Of The United States Of America") {
        "The Presidents of the United States of America"
    } else {
        artist
    }
}

} // verus!
