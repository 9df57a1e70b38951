//! The archive inspector: per-entry image-width, embedded-metadata and
//! stored-date checks, with fail-fast over the entries of one archive.
//!
//! The surrounding program opens the container, reads each entry's bytes
//! and stored date, and hands them in as plain values; everything decided
//! about them is decided here.

use crate::findings::Finding;
use std::io::BufReader;
use std::io::Cursor;
use vstd::prelude::*;

verus! {

/// The sentinel last-modified date every entry is expected to carry.
pub const EXPECTED_YEAR: u16 = 2000;

/// Month of the sentinel date.
pub const EXPECTED_MONTH: u8 = 1;

/// Day of the sentinel date.
pub const EXPECTED_DAY: u8 = 1;

/// A fatal per-archive decoding failure, distinct from a finding.
#[derive(Clone, Copy, Debug, PartialEq, Eq, Structural)]
pub enum InspectError {
    /// An entry's image header cannot be decoded, so it has no width.
    UnreadableImage,
    /// An entry's metadata block fails to decode with something other than
    /// plain absence.
    UndecodableMetadata,
}

/// One entry of an opened container, as plain values: whether it is a file
/// (directories are skipped), its stored last-modified date and time, and
/// its bytes.
pub struct ArchiveEntry {
    pub is_file: bool,
    pub year: u16,
    pub month: u8,
    pub day: u8,
    pub hour: u8,
    pub minute: u8,
    pub second: u8,
    pub bytes: Vec<u8>,
}

/// Whether a stored date matches the sentinel calendar date. Time of day
/// is deliberately ignored.
pub open spec fn date_ok(year: u16, month: u8, day: u8) -> bool {
    year == EXPECTED_YEAR && month == EXPECTED_MONTH && day == EXPECTED_DAY
}

/// Checks an entry's stored date against the sentinel date. The result
/// depends on the calendar date alone: two entries differing only in time
/// of day check the same.
pub fn check_date(year: u16, month: u8, day: u8, hour: u8, minute: u8, second: u8) -> (r: bool)
    ensures
        r == date_ok(year, month, day),
{
    year == EXPECTED_YEAR && month == EXPECTED_MONTH && day == EXPECTED_DAY
}

/// Whether an observed pixel width passes for a declared width `w`: equal
/// (single page), or within a tenth of twice the declared width (a
/// re-exported dual-page spread).
pub open spec fn width_ok(w: int, observed: int) -> bool {
    observed == w || (2 * w - w / 10 <= observed && observed <= 2 * w + w / 10)
}

/// Checks an observed width against the declared one.
pub fn check_width(declared: usize, observed: usize) -> (r: bool)
    ensures
        r == width_ok(declared as int, observed as int),
{
    if observed == declared {
        return true;
    }
    let w = declared as u128;
    let x = observed as u128;
    let margin = w / 10;
    2 * w - margin <= x && x <= 2 * w + margin
}

/// The dual-page band: the declared width passes, twice of it passes, the
/// band's edges pass, and anything just outside the band (other than the
/// declared width itself) fails, as does half the declared width.
pub proof fn lemma_width_tolerance(w: int)
    requires
        w >= 1,
    ensures
        width_ok(w, w),
        width_ok(w, 2 * w),
        width_ok(w, 2 * w - w / 10),
        width_ok(w, 2 * w + w / 10),
        !width_ok(w, 2 * w + w / 10 + 1),
        w >= 2 ==> !width_ok(w, 2 * w - w / 10 - 1),
        !width_ok(w, w / 2),
{
    assert(0 <= w / 10 && 10 * (w / 10) <= w) by (nonlinear_arith)
        requires
            w >= 1,
    ;
    assert(w / 10 <= w / 2 && 2 * (w / 2) <= w) by (nonlinear_arith)
        requires
            w >= 1,
    ;
}

/// What the image-container header of a byte blob yields for a width, or
/// nothing when no supported header can be read: a function of the bytes
/// alone.
pub uninterp spec fn image_width_of(bytes: Seq<u8>) -> Option<usize>;

/// Relies on imagesize's `blob_size`: the pixel width read from the image
/// header alone (no full decode), a deterministic function of the bytes.
#[verifier::external_body]
fn measure_width(bytes: &Vec<u8>) -> (r: Option<usize>)
    ensures
        r == image_width_of(bytes@),
{
    imagesize::blob_size(bytes.as_slice()).ok().map(|s| s.width)
}

/// What scanning a byte blob for an embedded photographic-metadata block
/// yields: present, absent, or (nothing) undecodable. A function of the
/// bytes alone.
pub uninterp spec fn exif_presence_of(bytes: Seq<u8>) -> Option<bool>;

/// Relies on kamadak-exif's `Reader::read_from_container`: whether the blob
/// holds an Exif block (`Ok`), holds none (`Error::NotFound`), or cannot be
/// decoded at all (any other error), deterministic in the bytes.
#[verifier::external_body]
fn scan_exif(bytes: &Vec<u8>) -> (r: Option<bool>)
    ensures
        r == exif_presence_of(bytes@),
{
    let mut reader = BufReader::new(Cursor::new(bytes.as_slice()));
    match exif::Reader::new().read_from_container(&mut reader) {
        Ok(_) => Some(true),
        Err(exif::Error::NotFound(_)) => Some(false),
        Err(_) => None,
    }
}

/// How one image entry checks against the declared width: a width outside
/// the tolerance is a `Width` finding; otherwise a present metadata block
/// is a `MetadataPresent` finding; an unreadable header or an undecodable
/// metadata block is fatal.
pub open spec fn image_outcome(w: int, bytes: Seq<u8>) -> Result<Option<Finding>, InspectError> {
    match image_width_of(bytes) {
        None => Err(InspectError::UnreadableImage),
        Some(x) => if !width_ok(w, x as int) {
            Ok(Some(Finding::Width))
        } else {
            match exif_presence_of(bytes) {
                None => Err(InspectError::UndecodableMetadata),
                Some(true) => Ok(Some(Finding::MetadataPresent)),
                Some(false) => Ok(None),
            }
        },
    }
}

/// Checks one image entry's bytes against the declared width.
pub fn check_image(declared: usize, bytes: &Vec<u8>) -> (r: Result<Option<Finding>, InspectError>)
    ensures
        r == image_outcome(declared as int, bytes@),
{
    let x = match measure_width(bytes) {
        Some(x) => x,
        None => {
            return Err(InspectError::UnreadableImage);
        },
    };
    if !check_width(declared, x) {
        return Ok(Some(Finding::Width));
    }
    match scan_exif(bytes) {
        None => Err(InspectError::UndecodableMetadata),
        Some(true) => Ok(Some(Finding::MetadataPresent)),
        Some(false) => Ok(None),
    }
}

/// How a whole archive's entries check, fail-fast: directories are skipped;
/// the first entry with a non-sentinel date yields a lone `Date` finding;
/// the first image finding stops the inspection; a decode failure is fatal.
pub open spec fn entries_outcome(w: int, es: Seq<ArchiveEntry>) -> Result<
    Seq<Finding>,
    InspectError,
>
    decreases es.len(),
{
    if es.len() == 0 {
        Ok(Seq::empty())
    } else {
        let e = es[0];
        if !e.is_file {
            entries_outcome(w, es.skip(1))
        } else if !date_ok(e.year, e.month, e.day) {
            Ok(seq![Finding::Date])
        } else {
            match image_outcome(w, e.bytes@) {
                Err(x) => Err(x),
                Ok(Some(f)) => Ok(seq![f]),
                Ok(None) => entries_outcome(w, es.skip(1)),
            }
        }
    }
}

/// An archive whose file entries all carry the sentinel date, a tolerated
/// width and no embedded metadata block yields no findings at all.
pub proof fn lemma_conforming_entries(w: int, es: Seq<ArchiveEntry>)
    requires
        forall|i: int|
            0 <= i < es.len() && (#[trigger] es[i]).is_file ==> date_ok(
                es[i].year,
                es[i].month,
                es[i].day,
            ) && image_outcome(w, es[i].bytes@) == Ok::<Option<Finding>, InspectError>(None),
    ensures
        entries_outcome(w, es) == Ok::<Seq<Finding>, InspectError>(Seq::<Finding>::empty()),
    decreases es.len(),
{
    if es.len() > 0 {
        assert(es[0] == es[0]);
        assert forall|i: int|
            0 <= i < es.skip(1).len() && (#[trigger] es.skip(1)[i]).is_file implies date_ok(
            es.skip(1)[i].year,
            es.skip(1)[i].month,
            es.skip(1)[i].day,
        ) && image_outcome(w, es.skip(1)[i].bytes@) == Ok::<Option<Finding>, InspectError>(
            None,
        ) by {
            assert(es.skip(1)[i] == es[i + 1]);
        }
        lemma_conforming_entries(w, es.skip(1));
    }
}

/// Checks every entry of an opened archive against the declared width and
/// the sentinel date, stopping at the first finding.
pub fn check_entries(declared: usize, entries: &Vec<ArchiveEntry>) -> (r: Result<
    Vec<Finding>,
    InspectError,
>)
    ensures
        match r {
            Ok(fs) => entries_outcome(declared as int, entries@) == Ok::<_, InspectError>(fs@),
            Err(e) => entries_outcome(declared as int, entries@) == Err::<Seq<Finding>, _>(e),
        },
{
    let mut i: usize = 0;
    proof {
        assert(entries@.skip(0) =~= entries@);
    }
    while i < entries.len()
        invariant
            i <= entries@.len(),
            entries_outcome(declared as int, entries@) == entries_outcome(
                declared as int,
                entries@.skip(i as int),
            ),
        decreases entries@.len() - i,
    {
        proof {
            assert(entries@.skip(i as int)[0] == entries@[i as int]);
            assert(entries@.skip(i as int).skip(1) =~= entries@.skip(i as int + 1));
        }
        let e = &entries[i];
        if e.is_file {
            if !check_date(e.year, e.month, e.day, e.hour, e.minute, e.second) {
                let mut fs: Vec<Finding> = Vec::new();
                fs.push(Finding::Date);
                proof {
                    assert(fs@ =~= seq![Finding::Date]);
                }
                return Ok(fs);
            }
            match check_image(declared, &e.bytes) {
                Err(x) => {
                    return Err(x);
                },
                Ok(Some(f)) => {
                    let ghost fv = f;
                    let mut fs: Vec<Finding> = Vec::new();
                    fs.push(f);
                    proof {
                        assert(fs@ =~= seq![fv]);
                    }
                    return Ok(fs);
                },
                Ok(None) => {},
            }
        }
        i += 1;
    }
    proof {
        assert(entries@.skip(entries@.len() as int).len() == 0);
    }
    let fs: Vec<Finding> = Vec::new();
    proof {
        assert(fs@ =~= Seq::<Finding>::empty());
    }
    Ok(fs)
}

} // verus!
