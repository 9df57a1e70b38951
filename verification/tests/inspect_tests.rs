use cbzcheck::book::{get_file_name, skip_file, Book};
use cbzcheck::filename::parse;
use cbzcheck::findings::Finding;
use cbzcheck::inspect::{check_date, check_entries, check_image, check_width, ArchiveEntry, InspectError};
use cbzcheck::page::VolumeInfo;

/// A complete minimal PNG: signature and an IHDR chunk declaring the given
/// width, one pixel high, and no other chunk (so no embedded metadata).
fn png_bytes(width: u32) -> Vec<u8> {
    let mut v: Vec<u8> = vec![0x89, 0x50, 0x4E, 0x47, 0x0D, 0x0A, 0x1A, 0x0A];
    v.extend_from_slice(&13u32.to_be_bytes());
    v.extend_from_slice(b"IHDR");
    v.extend_from_slice(&width.to_be_bytes());
    v.extend_from_slice(&1u32.to_be_bytes());
    v.extend_from_slice(&[8, 0, 0, 0, 0]);
    v.extend_from_slice(&[0, 0, 0, 0]); // chunk checksum bytes, not inspected
    v
}

fn entry(width: u32, year: u16, month: u8, day: u8, second: u8) -> ArchiveEntry {
    ArchiveEntry {
        is_file: true,
        year,
        month,
        day,
        hour: 0,
        minute: 0,
        second,
        bytes: png_bytes(width),
    }
}

#[test]
fn width_tolerance_band() {
    // Declared width passes; twice of it passes; the ten-percent band
    // around the double passes inclusively; just outside fails; half fails.
    assert!(check_width(1000, 1000));
    assert!(check_width(1000, 2000));
    assert!(check_width(1000, 1900));
    assert!(check_width(1000, 2100));
    assert!(!check_width(1000, 2101));
    assert!(!check_width(1000, 2110)); // 2W + 0.11W
    assert!(!check_width(1000, 1899));
    assert!(!check_width(1000, 500));
}

#[test]
fn date_check_ignores_time_of_day() {
    assert!(check_date(2000, 1, 1, 0, 0, 1));
    assert!(check_date(2000, 1, 1, 23, 59, 59));
    assert!(!check_date(2000, 1, 2, 0, 0, 1));
    assert!(!check_date(2001, 1, 1, 0, 0, 1));
    assert!(!check_date(2000, 2, 1, 0, 0, 1));
}

#[test]
fn image_width_is_read_from_the_header() {
    assert_eq!(check_image(1000, &png_bytes(1000)), Ok(None));
    assert_eq!(check_image(1000, &png_bytes(2000)), Ok(None));
    assert_eq!(check_image(1000, &png_bytes(3000)), Ok(Some(Finding::Width)));
}

#[test]
fn unreadable_image_is_fatal() {
    let garbage: Vec<u8> = vec![0u8; 32];
    assert_eq!(check_image(1000, &garbage), Err(InspectError::UnreadableImage));
}

#[test]
fn truncated_metadata_is_fatal() {
    // Enough of a PNG for the header to carry a width, but the IHDR chunk
    // itself is cut short, so the metadata scan fails to decode.
    let truncated: Vec<u8> = png_bytes(1000)[..24].to_vec();
    assert_eq!(
        check_image(1000, &truncated),
        Err(InspectError::UndecodableMetadata)
    );
}

#[test]
fn embedded_metadata_is_a_finding() {
    // A PNG with an eXIf chunk holding an empty TIFF structure.
    let mut v = png_bytes(1000);
    let tiff: [u8; 14] = [0x49, 0x49, 0x2A, 0x00, 8, 0, 0, 0, 0, 0, 0, 0, 0, 0];
    v.extend_from_slice(&(tiff.len() as u32).to_be_bytes());
    v.extend_from_slice(b"eXIf");
    v.extend_from_slice(&tiff);
    v.extend_from_slice(&[0, 0, 0, 0]); // chunk checksum bytes, not inspected
    assert_eq!(check_image(1000, &v), Ok(Some(Finding::MetadataPresent)));
}

#[test]
fn entries_fail_fast_on_bad_date() {
    let entries = vec![entry(1000, 1999, 12, 31, 0), entry(3000, 2000, 1, 1, 1)];
    assert_eq!(check_entries(1000, &entries), Ok(vec![Finding::Date]));
}

#[test]
fn entries_fail_fast_on_bad_width() {
    let entries = vec![entry(3000, 2000, 1, 1, 1), entry(1000, 1999, 1, 1, 1)];
    assert_eq!(check_entries(1000, &entries), Ok(vec![Finding::Width]));
}

#[test]
fn directories_are_skipped() {
    let mut dir = entry(1000, 1990, 1, 1, 0);
    dir.is_file = false;
    dir.bytes = Vec::new();
    assert_eq!(check_entries(1000, &vec![dir]), Ok(vec![]));
}

#[test]
fn conforming_archive_yields_no_findings() {
    // End to end: the book named `Series T3 (Writer) (2020) [Digital-1000]`
    // whose catalog record reports authors `Writer` and years {2020}, with
    // one image entry of width 1000, the sentinel date and no embedded
    // metadata block.
    let parsed = parse("Series T3 (Writer) (2020) [Digital-1000].cbz").expect("parses");
    let book = Book::new(
        String::from("/books/Series T3 (Writer) (2020) [Digital-1000].cbz"),
        &parsed,
        String::from("https://www.bedetheque.com/BD-Series-Tome-3.html"),
    );
    let info = VolumeInfo {
        authors: String::from("Writer"),
        years: vec![2020],
    };
    let entries = vec![entry(1000, 2000, 1, 1, 1)];
    assert_eq!(book.check(info, &entries), Ok(vec![]));
}

#[test]
fn mismatched_metadata_yields_findings() {
    let parsed = parse("Series T3 (Writer) (2020) [Digital-1000].cbz").expect("parses");
    let book = Book::new(
        String::from("Series T3 (Writer) (2020) [Digital-1000].cbz"),
        &parsed,
        String::from("https://www.bedetheque.com/BD-Series-Tome-3.html"),
    );
    let info = VolumeInfo {
        authors: String::from("Other-Writer"),
        years: vec![2019],
    };
    let entries = vec![entry(1000, 2000, 1, 1, 1)];
    assert_eq!(
        book.check(info, &entries),
        Ok(vec![
            Finding::Authors(String::from("Other-Writer")),
            Finding::Year(vec![2019]),
        ])
    );
}

#[test]
fn file_name_is_the_last_path_component() {
    assert_eq!(get_file_name("/a/b/c.cbz"), "c.cbz");
    assert_eq!(get_file_name("c.cbz"), "c.cbz");
    assert_eq!(get_file_name(""), "");
}

#[test]
fn skip_line_carries_path_and_reason() {
    assert_eq!(skip_file("/a/b.cbz", "not a CBZ"), "skip /a/b.cbz: not a CBZ");
}
