use cbzcheck::findings::Finding;
use cbzcheck::page::VolumeInfo;

fn lines(texts: &[&str]) -> Vec<String> {
    texts.iter().map(|t| String::from(*t)).collect()
}

#[test]
fn author_ordering_writers_first_then_artists_sorted() {
    // Writer credits {B, A} and artist credits {A, C}: A is already a
    // writer, so the artists contribute only C, and each group is sorted.
    let info = VolumeInfo::from_lines(&lines(&[
        "Sc\u{e9}nario : B",
        "Sc\u{e9}nario : A",
        "Dessin : A",
        "Dessin : C",
    ]));
    assert_eq!(info.authors, "A-B-C");
    assert_eq!(info.years, Vec::<u16>::new());
}

#[test]
fn years_collect_sorted_and_unique() {
    let info = VolumeInfo::from_lines(&lines(&[
        "D\u{e9}pot l\u{e9}gal : 03/2001",
        "D\u{e9}pot l\u{e9}gal : 01/1999",
        "D\u{e9}pot l\u{e9}gal : 07/2001",
    ]));
    assert_eq!(info.years, vec![1999, 2001]);
    assert_eq!(info.authors, "");
}

#[test]
fn credit_name_stops_at_comma_and_is_trimmed() {
    let info = VolumeInfo::from_lines(&lines(&["Sc\u{e9}nario :   Jean Dupont , colors"]));
    assert_eq!(info.authors, "Jean Dupont");
}

#[test]
fn unmatched_lines_yield_empty_info() {
    let info = VolumeInfo::from_lines(&lines(&["nothing here", "Genre : Aventure"]));
    assert_eq!(info.authors, "");
    assert_eq!(info.years, Vec::<u16>::new());
}

#[test]
fn info_lines_come_from_the_page() {
    let page = "<html><body><ul class=\"infos\">\
        <li>Sc\u{e9}nario : B</li>\
        <li>Sc\u{e9}nario : A</li>\
        <li>Dessin : A</li>\
        <li>Dessin : C</li>\
        <li>D\u{e9}pot l\u{e9}gal : 01/2020</li>\
        </ul></body></html>";
    let info = VolumeInfo::new(page);
    assert_eq!(info.authors, "A-B-C");
    assert_eq!(info.years, vec![2020]);
}

#[test]
fn page_without_info_lines_yields_empty_info() {
    let info = VolumeInfo::new("<html><body><p>nothing</p></body></html>");
    assert_eq!(info.authors, "");
    assert_eq!(info.years, Vec::<u16>::new());
}

#[test]
fn finding_messages_render() {
    assert_eq!(
        Finding::Authors(String::from("A-B")).message(),
        "invalid authors, expected (A-B)"
    );
    assert_eq!(
        Finding::Year(vec![2020]).message(),
        "invalid year, expected 2020"
    );
    assert_eq!(
        Finding::Year(vec![1999, 2001]).message(),
        "invalid year, expected one of 1999, 2001"
    );
    assert_eq!(Finding::Width.message(), "some images have unexpected width");
    assert_eq!(
        Finding::MetadataPresent.message(),
        "some images have embedded EXIF metadata"
    );
    assert_eq!(
        Finding::Date.message(),
        "some images have an unexpected last modified date"
    );
}
