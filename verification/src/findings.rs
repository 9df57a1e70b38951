//! Validation findings: structured mismatches between an archive and its
//! catalog record. A finding is data, not a fatal failure; each one renders
//! a human-readable message.

use crate::digits::dec_digits;
use crate::text::string_of;
use vstd::prelude::*;
use vstd::string::StringExecFns;

verus! {

/// One validation mismatch.
#[derive(Debug, PartialEq, Eq)]
pub enum Finding {
    /// The archive's author list differs from the catalog's; carries the
    /// catalog's expected author string.
    Authors(String),
    /// The archive's year is not among the catalog's publication years;
    /// carries the expected years, sorted and duplicate-free.
    Year(Vec<u16>),
    /// Some image's width is neither the declared width nor within the
    /// dual-page band around twice of it.
    Width,
    /// Some image holds an embedded photographic-metadata block; archives
    /// are expected to be stripped of it.
    MetadataPresent,
    /// Some entry's stored last-modified date differs from the sentinel
    /// calendar date.
    Date,
}

/// The years rendered as decimal numerals joined by `, `.
pub open spec fn years_text(ys: Seq<u16>) -> Seq<char>
    decreases ys.len(),
{
    if ys.len() == 0 {
        Seq::empty()
    } else if ys.len() == 1 {
        dec_digits(ys[0] as nat)
    } else {
        dec_digits(ys[0] as nat) + seq![',', ' '] + years_text(ys.skip(1))
    }
}

/// The message a finding renders to.
pub open spec fn message_of(f: Finding) -> Seq<char> {
    match f {
        Finding::Authors(a) => "invalid authors, expected ("@ + a@ + ")"@,
        Finding::Year(ys) => if ys@.len() == 1 {
            "invalid year, expected "@ + years_text(ys@)
        } else {
            "invalid year, expected one of "@ + years_text(ys@)
        },
        Finding::Width => "some images have unexpected width"@,
        Finding::MetadataPresent => "some images have embedded EXIF metadata"@,
        Finding::Date => "some images have an unexpected last modified date"@,
    }
}

fn render_years(ys: &Vec<u16>) -> (r: String)
    ensures
        r@ == years_text(ys@),
{
    let mut r = String::new();
    let mut i: usize = 0;
    proof {
        assert(ys@.skip(0) =~= ys@);
        assert(r@ + years_text(ys@) =~= years_text(ys@));
    }
    while i < ys.len()
        invariant
            i <= ys@.len(),
            years_text(ys@) == r@ + years_text(ys@.skip(i as int)),
        decreases ys@.len() - i,
    {
        proof {
            assert(ys@.skip(i as int)[0] == ys@[i as int]);
            assert(ys@.skip(i as int).skip(1) =~= ys@.skip(i as int + 1));
        }
        let ghost prev = r@;
        let digits = crate::digits::render_u64(ys[i] as u64);
        let piece = string_of(&digits);
        r.append(piece.as_str());
        if i + 1 < ys.len() {
            r.append(", ");
        }
        proof {
            reveal_strlit(", ");
            if i + 1 < ys@.len() {
                assert(r@ + years_text(ys@.skip(i as int + 1)) =~= prev + (dec_digits(
                    ys@[i as int] as nat,
                ) + seq![',', ' '] + years_text(ys@.skip(i as int + 1))));
            } else {
                assert(ys@.skip(i as int).len() == 1);
                assert(years_text(ys@.skip(i as int)) == dec_digits(ys@[i as int] as nat));
                assert(ys@.skip(i as int + 1).len() == 0);
                assert(r@ + years_text(ys@.skip(i as int + 1)) =~= prev + dec_digits(
                    ys@[i as int] as nat,
                ));
            }
        }
        i += 1;
    }
    proof {
        assert(r@ + years_text(ys@.skip(ys@.len() as int)) =~= r@);
    }
    r
}

impl Finding {
    /// The human-readable message of this finding.
    pub fn message(&self) -> (r: String)
        ensures
            r@ == message_of(*self),
    {
        match self {
            Finding::Authors(a) => {
                let mut r = String::from_str("invalid authors, expected (");
                r.append(a.as_str());
                r.append(")");
                r
            },
            Finding::Year(ys) => {
                let mut r = if ys.len() == 1 {
                    String::from_str("invalid year, expected ")
                } else {
                    String::from_str("invalid year, expected one of ")
                };
                let t = render_years(ys);
                r.append(t.as_str());
                r
            },
            Finding::Width => String::from_str("some images have unexpected width"),
            Finding::MetadataPresent => String::from_str(
                "some images have embedded EXIF metadata",
            ),
            Finding::Date => String::from_str(
                "some images have an unexpected last modified date",
            ),
        }
    }
}

} // verus!
