//! A book under validation: its parsed filename fields, its resolved
//! catalog record, and the cross-checks against the catalog's metadata and
//! the archive's entries.

use crate::filename::ParsedName;
use crate::findings::Finding;
use crate::inspect::{check_entries, entries_outcome, ArchiveEntry, InspectError};
use crate::page::VolumeInfo;
use crate::text::{author_normal_form, chars_of, normalize, string_of, sub_chars};
use vstd::prelude::*;
use vstd::string::StringExecFns;

verus! {

/// The part of a path after its last separator.
pub open spec fn file_name_of(p: Seq<char>) -> Seq<char>
    decreases p.len(),
{
    if p.len() == 0 {
        p
    } else if p.last() == '/' {
        Seq::empty()
    } else {
        file_name_of(p.drop_last()) + seq![p.last()]
    }
}

/// The file name of a path: the part after the last `/` separator.
pub fn get_file_name(path: &str) -> (r: String)
    ensures
        r@ == file_name_of(path@),
{
    let v = chars_of(path);
    let mut j = v.len();
    proof {
        assert(v@.take(v@.len() as int) =~= v@);
        assert(v@.skip(v@.len() as int) =~= Seq::<char>::empty());
        assert(file_name_of(v@.take(j as int)) + v@.skip(j as int) =~= file_name_of(v@));
    }
    while j > 0 && v[j - 1] != '/'
        invariant
            j <= v@.len(),
            v@ == path@,
            file_name_of(v@) == file_name_of(v@.take(j as int)) + v@.skip(j as int),
        decreases j,
    {
        proof {
            assert(v@.take(j as int).last() == v@[j - 1]);
            assert(v@.take(j as int).drop_last() =~= v@.take(j as int - 1));
            assert(file_name_of(v@.take(j as int - 1)) + v@.skip(j as int - 1) =~= (file_name_of(
                v@.take(j as int - 1),
            ) + seq![v@[j - 1]]) + v@.skip(j as int));
        }
        j -= 1;
    }
    proof {
        if j > 0 {
            assert(v@.take(j as int).last() == v@[j - 1]);
            assert(file_name_of(v@.take(j as int)) =~= Seq::<char>::empty());
        } else {
            assert(v@.take(0).len() == 0);
        }
        assert(file_name_of(v@) =~= v@.skip(j as int));
        assert(v@.skip(j as int) =~= v@.subrange(j as int, v@.len() as int));
    }
    let tail = sub_chars(&v, j, v.len());
    string_of(&tail)
}

/// The warning line printed when a file is skipped.
pub fn skip_file(path: &str, reason: &str) -> (r: String)
    ensures
        r@ == "skip "@ + path@ + ": "@ + reason@,
{
    let mut r = String::from_str("skip ");
    r.append(path);
    r.append(": ");
    r.append(reason);
    proof {
        assert(r@ =~= "skip "@ + path@ + ": "@ + reason@);
    }
    r
}

/// A book whose archive is to be validated: its location, the resolved
/// catalog record's address (fatal on failure at construction time), and
/// the authorship, year and width its filename declares.
#[derive(Debug)]
pub struct Book {
    pub path: String,
    pub url: String,
    pub authors: String,
    pub year: u16,
    pub width: usize,
    pub volume: Option<u8>,
}

/// The findings of the catalog-metadata comparison: authors compared under
/// the author normal form, the declared year looked up among the catalog's
/// publication years.
pub open spec fn metadata_findings_spec(b: Book, info: VolumeInfo) -> Seq<Finding> {
    let a: Seq<Finding> = if author_normal_form(info.authors@) != author_normal_form(b.authors@) {
        seq![Finding::Authors(info.authors)]
    } else {
        Seq::empty()
    };
    let y: Seq<Finding> = if !info.years@.contains(b.year) {
        seq![Finding::Year(info.years)]
    } else {
        Seq::empty()
    };
    a + y
}

/// The outcome of a full check: the metadata findings followed by the
/// archive findings, or the archive's fatal decode error.
pub open spec fn check_spec(b: Book, info: VolumeInfo, es: Seq<ArchiveEntry>) -> Result<
    Seq<Finding>,
    InspectError,
> {
    match entries_outcome(b.width as int, es) {
        Err(e) => Err(e),
        Ok(fs) => Ok(metadata_findings_spec(b, info) + fs),
    }
}

impl Book {
    /// A book from its parsed filename fields and its resolved catalog
    /// record address.
    pub fn new(path: String, parsed: &ParsedName, url: String) -> (b: Book)
        ensures
            b.path == path,
            b.url == url,
            b.authors == parsed.authors,
            b.year == parsed.year,
            b.width == parsed.width,
            b.volume == parsed.volume,
    {
        Book {
            path,
            url,
            authors: parsed.authors.clone(),
            year: parsed.year,
            width: parsed.width,
            volume: parsed.volume,
        }
    }

    /// The file name of the book's path.
    pub fn file_name(&self) -> (r: String)
        ensures
            r@ == file_name_of(self.path@),
    {
        get_file_name(self.path.as_str())
    }

    /// The catalog record address the book is checked against.
    pub fn ref_url(&self) -> (r: &String)
        ensures
            r == self.url,
    {
        &self.url
    }

    /// Compares the book's declared authors and year with the catalog's.
    /// The findings carry the catalog's own values.
    pub fn metadata_findings(&self, info: VolumeInfo) -> (fs: Vec<Finding>)
        ensures
            fs@ == metadata_findings_spec(*self, info),
    {
        let VolumeInfo { authors, years } = info;
        let mut fs: Vec<Finding> = Vec::new();
        let na = normalize(authors.as_str());
        let nb = normalize(self.authors.as_str());
        if !na.eq(&nb) {
            fs.push(Finding::Authors(authors));
        }
        let mut found = false;
        let mut i: usize = 0;
        while i < years.len()
            invariant
                i <= years@.len(),
                found == exists|j: int| 0 <= j < i && years@[j] == self.year,
            decreases years@.len() - i,
        {
            if years[i] == self.year {
                found = true;
            }
            i += 1;
        }
        if !found {
            fs.push(Finding::Year(years));
        }
        proof {
            if years@.contains(self.year) {
                assert(found);
            }
            if found {
                assert(years@.contains(self.year));
            }
            assert(fs@ =~= metadata_findings_spec(*self, info));
        }
        fs
    }

    /// Runs the full validation of the book against the catalog's volume
    /// metadata and the archive's entries: metadata findings first, then
    /// the fail-fast archive findings; a decode failure is fatal.
    pub fn check(&self, info: VolumeInfo, entries: &Vec<ArchiveEntry>) -> (r: Result<
        Vec<Finding>,
        InspectError,
    >)
        ensures
            match r {
                Ok(fs) => check_spec(*self, info, entries@) == Ok::<_, InspectError>(fs@),
                Err(e) => check_spec(*self, info, entries@) == Err::<Seq<Finding>, _>(e),
            },
    {
        let mut fs = self.metadata_findings(info);
        let mut more = match check_entries(self.width, entries) {
            Ok(more) => more,
            Err(e) => {
                return Err(e);
            },
        };
        fs.append(&mut more);
        Ok(fs)
    }
}

/// A book whose declared authors match the catalog's under the author
/// normal form, whose declared year is among the catalog's publication
/// years, and whose archive entries all conform, checks clean: the finding
/// list is empty.
pub proof fn lemma_conforming_book_checks_clean(b: Book, info: VolumeInfo, es: Seq<ArchiveEntry>)
    requires
        author_normal_form(info.authors@) == author_normal_form(b.authors@),
        info.years@.contains(b.year),
        entries_outcome(b.width as int, es) == Ok::<Seq<Finding>, InspectError>(Seq::empty()),
    ensures
        check_spec(b, info, es) == Ok::<Seq<Finding>, InspectError>(Seq::empty()),
{
    assert(metadata_findings_spec(b, info) + Seq::<Finding>::empty() =~= Seq::<Finding>::empty());
}

} // verus!
