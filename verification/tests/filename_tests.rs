use cbzcheck::filename::{build_oneshot_name, build_series_name, parse, ParseError};
use cbzcheck::text::normalize;

#[test]
fn series_name_builds_expected_text() {
    let name = build_series_name("Series", "3", "Writer", "2020", "Digital", "1000");
    assert_eq!(name, "Series T3 (Writer) (2020) [Digital-1000].cbz");
}

#[test]
fn series_round_trip_recovers_fields() {
    let name = build_series_name("Series", "3", "Writer", "2020", "Digital", "1000");
    let p = parse(&name).expect("series name parses");
    assert_eq!(p.title, "Series");
    assert_eq!(p.volume, Some(3));
    assert_eq!(p.authors, "Writer");
    assert_eq!(p.year, 2020);
    assert_eq!(p.width, 1000);
}

#[test]
fn oneshot_round_trip_has_no_volume() {
    let name = build_oneshot_name("One Shot", "Writer", "1999", "Digital", "1920");
    assert_eq!(name, "One Shot (Writer) (1999) [Digital-1920].cbz");
    let p = parse(&name).expect("one-shot name parses");
    assert_eq!(p.title, "One Shot");
    assert_eq!(p.volume, None);
    assert_eq!(p.authors, "Writer");
    assert_eq!(p.year, 1999);
    assert_eq!(p.width, 1920);
}

#[test]
fn title_may_contain_parentheses() {
    let p = parse("Fun (extra) T2 (A) (2001) [Tag-800].cbz").expect("parses");
    assert_eq!(p.title, "Fun (extra)");
    assert_eq!(p.volume, Some(2));
    assert_eq!(p.authors, "A");
}

#[test]
fn wrong_extension_is_not_recognized() {
    assert_eq!(
        parse("Series T3 (Writer) (2020) [Digital-1000].zip").unwrap_err(),
        ParseError::NotRecognized
    );
}

#[test]
fn garbage_is_not_recognized() {
    assert_eq!(parse("garbage.cbz").unwrap_err(), ParseError::NotRecognized);
    assert_eq!(parse("nothing at all").unwrap_err(), ParseError::NotRecognized);
    assert_eq!(parse("").unwrap_err(), ParseError::NotRecognized);
}

#[test]
fn year_must_be_four_digits() {
    assert_eq!(
        parse("Series T3 (Writer) (202) [Digital-1000].cbz").unwrap_err(),
        ParseError::NotRecognized
    );
}

#[test]
fn oversized_volume_is_a_bad_number() {
    assert_eq!(
        parse("Series T999 (Writer) (2020) [Digital-1000].cbz").unwrap_err(),
        ParseError::BadNumber
    );
}

#[test]
fn normalize_folds_case() {
    assert_eq!(normalize("ABC"), "abc");
}

#[test]
fn normalize_absorbs_romanization_differences() {
    // The same name written with a macron, a circumflex, and the `ou`
    // romanization all fold to one representation.
    let a = normalize("\u{14c}ishi");
    let b = normalize("\u{d4}ishi");
    let c = normalize("Ooishi");
    let d = normalize("Ouishi");
    assert_eq!(a, "ouishi");
    assert_eq!(a, b);
    assert_eq!(a, c);
    assert_eq!(a, d);
}

#[test]
fn normalize_doubles_long_vowels() {
    assert_eq!(normalize("K\u{101}to"), "kaato");
    assert_eq!(normalize("Ry\u{16b}"), "ryuu");
    assert_eq!(normalize("\u{112}ma"), "eema");
}
