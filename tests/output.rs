use drumscribe::api::coffee_api::get_request_url;
use drumscribe::grouping::group_songs;
use drumscribe::models::song::{Difficulty, Song};
use drumscribe::output::markdown::MarkdownFormatter;
use drumscribe::output::xlsx::{SheetRow, XlsxFormatter};
use drumscribe::output::Formatter;

fn song(id: usize, artist: &str, title: &str, seq: &str, difficulty: Difficulty) -> Song {
    Song {
        id,
        artist: artist.to_string(),
        title: title.to_string(),
        difficulty,
        link: format!("https://example.com/{id}"),
        sequence_number: seq.to_string(),
    }
}

fn catalog() -> Vec<Song> {
    vec![
        song(1, "Muse", "Hysteria", "3", Difficulty::Expert),
        song(2, "ABBA", "Waterloo", "1", Difficulty::Beginner),
        song(3, "Muse", "Uprising", "2", Difficulty::Unrated),
    ]
}

#[test]
fn markdown_rendering() {
    let text = MarkdownFormatter.format(&catalog());
    assert_eq!(
        text,
        "# ABBA\n- Waterloo | #1 | Beginner\n\n# Muse\n- Hysteria | #3 | Expert\n- Uprising | #2 | Unrated\n\n"
    );
    assert_eq!(MarkdownFormatter.format(&[]), "");
}

#[test]
fn spreadsheet_rows() {
    let rows = XlsxFormatter::rows_for(&catalog()).unwrap();
    let summary: Vec<String> = rows
        .iter()
        .map(|r| match r {
            SheetRow::Artist { row, name } => format!("{row}:{name}"),
            SheetRow::Song { row, title, link, difficulty, sequence_number, shaded } => {
                format!("{row}:{title}:{link}:{difficulty}:{sequence_number}:{shaded}")
            }
        })
        .collect();
    assert_eq!(
        summary,
        vec![
            "1:ABBA",
            "2:Waterloo:https://example.com/2:★:1:false",
            "4:Muse",
            "5:Hysteria:https://example.com/1:★★★★:3:false",
            "6:Uprising:https://example.com/3:—:2:true",
        ]
    );
    let groups = group_songs(Vec::new());
    assert!(XlsxFormatter::layout(&groups).unwrap().is_empty());
}

#[test]
fn request_url_names_page() {
    assert_eq!(
        get_request_url(1),
        "https://app.buymeacoffee.com/api/v1/posts/creator/drumscribe?per_page=20&page=1&filter_by=new"
    );
    assert_eq!(
        get_request_url(1207),
        "https://app.buymeacoffee.com/api/v1/posts/creator/drumscribe?per_page=20&page=1207&filter_by=new"
    );
    assert!(get_request_url(0).contains("&page=0&"));
}
