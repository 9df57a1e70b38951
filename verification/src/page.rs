//! The catalog page parser: reads author credits and legal-deposit years
//! out of a page's info lines and builds the volume metadata.
//!
//! A credit line holds a role label (`Scénario :` for a writer, `Dessin :`
//! for an artist), whitespace, and a name running to the first comma. A
//! deposit line holds the label `Dépot légal :`, whitespace, and a
//! `MM/YYYY` field whose four-digit year is collected. An author already
//! credited as a writer is not credited again as an artist; this relies on
//! writer credits being rendered before artist credits on the source page,
//! a documented assumption about the page layout.

use crate::digits::{all_digits, dec_val, is_digit, lemma_year_bound, parse_dec};
use crate::order::{
    lemma_sorted_insert, lemma_sorted_insert_u16, seq_contains, sorted_insert, sorted_insert_u16,
    sorted_u16, strictly_sorted, views_of, insert_name, insert_year,
};
use crate::text::{chars_of, eq_chars, is_space, is_space_exec, string_of, sub_chars, trim_chars, trimmed};
use kuchiki::iter::NodeIterator;
use kuchiki::traits::TendrilSink;
use vstd::prelude::*;

verus! {

/// The role label of a writer credit.
pub open spec fn writer_label() -> Seq<char> {
    seq!['S', 'c', '\u{e9}', 'n', 'a', 'r', 'i', 'o', ' ', ':']
}

/// The role label of an artist credit.
pub open spec fn artist_label() -> Seq<char> {
    seq!['D', 'e', 's', 's', 'i', 'n', ' ', ':']
}

/// The label of a legal-deposit line.
pub open spec fn deposit_label() -> Seq<char> {
    seq!['D', '\u{e9}', 'p', 'o', 't', ' ', 'l', '\u{e9}', 'g', 'a', 'l', ' ', ':']
}

/// Whether `lab` occurs in `s` starting at `i`.
pub open spec fn label_at(s: Seq<char>, i: int, lab: Seq<char>) -> bool {
    0 <= i && i + lab.len() <= s.len() && s.subrange(i, i + lab.len()) == lab
}

/// End of the whitespace run of `s` starting at `j`.
pub open spec fn ws_run_end(s: Seq<char>, j: int) -> int
    decreases s.len() - j,
{
    if 0 <= j < s.len() && is_space(s[j]) {
        ws_run_end(s, j + 1)
    } else {
        j
    }
}

/// Index of the first comma of `s` at or after `k`, or the length of `s`.
pub open spec fn comma_or_end(s: Seq<char>, k: int) -> int
    decreases s.len() - k,
{
    if 0 <= k < s.len() && s[k] != ',' {
        comma_or_end(s, k + 1)
    } else {
        k
    }
}

/// The credited name after a role label ending at `j`: at least one
/// whitespace character, then a nonempty run up to the first comma,
/// trimmed. `None` when the line does not continue that way.
pub open spec fn credit_after(s: Seq<char>, j: int) -> Option<Seq<char>> {
    let k = ws_run_end(s, j);
    if k == j {
        None
    } else {
        let m = comma_or_end(s, k);
        if m == k {
            None
        } else {
            Some(trimmed(s.subrange(k, m)))
        }
    }
}

/// The credit found at position `i`, if a full credit starts there; the
/// flag says whether the role is artist.
pub open spec fn author_at(s: Seq<char>, i: int) -> Option<(bool, Seq<char>)> {
    if label_at(s, i, writer_label()) {
        match credit_after(s, i + writer_label().len()) {
            Some(n) => Some((false, n)),
            None => None,
        }
    } else if label_at(s, i, artist_label()) {
        match credit_after(s, i + artist_label().len()) {
            Some(n) => Some((true, n)),
            None => None,
        }
    } else {
        None
    }
}

/// The first full credit of the line at or after position `i`.
pub open spec fn find_author_from(s: Seq<char>, i: int) -> Option<(bool, Seq<char>)>
    decreases s.len() - i,
{
    if i < 0 || i >= s.len() {
        None
    } else if author_at(s, i) is Some {
        author_at(s, i)
    } else {
        find_author_from(s, i + 1)
    }
}

/// The year digits found at position `i`, if a full deposit field starts
/// there: the label, whitespace, two digits, `/`, four digits.
pub open spec fn year_at(s: Seq<char>, i: int) -> Option<Seq<char>> {
    if label_at(s, i, deposit_label()) {
        let j = i + deposit_label().len();
        let k = ws_run_end(s, j);
        if k == j {
            None
        } else if k + 7 <= s.len() && is_digit(s[k]) && is_digit(s[k + 1]) && s[k + 2] == '/'
            && all_digits(s.subrange(k + 3, k + 7)) {
            Some(s.subrange(k + 3, k + 7))
        } else {
            None
        }
    } else {
        None
    }
}

/// The first full deposit field of the line at or after position `i`.
pub open spec fn find_year_from(s: Seq<char>, i: int) -> Option<Seq<char>>
    decreases s.len() - i,
{
    if i < 0 || i >= s.len() {
        None
    } else if year_at(s, i) is Some {
        year_at(s, i)
    } else {
        find_year_from(s, i + 1)
    }
}

/// One pass over the info lines: writers, artists and years accumulate into
/// sorted duplicate-free lists; an author already among the writers is not
/// added to the artists.
pub open spec fn page_scan(
    lines: Seq<Seq<char>>,
    writers: Seq<Seq<char>>,
    artists: Seq<Seq<char>>,
    years: Seq<u16>,
) -> (Seq<Seq<char>>, Seq<Seq<char>>, Seq<u16>)
    decreases lines.len(),
{
    if lines.len() == 0 {
        (writers, artists, years)
    } else {
        let l = lines[0];
        let rest = lines.skip(1);
        match find_author_from(l, 0) {
            Some(c) => if !c.0 {
                page_scan(rest, sorted_insert(writers, c.1), artists, years)
            } else if seq_contains(writers, c.1) {
                page_scan(rest, writers, artists, years)
            } else {
                page_scan(rest, writers, sorted_insert(artists, c.1), years)
            },
            None => match find_year_from(l, 0) {
                Some(d) => page_scan(
                    rest,
                    writers,
                    artists,
                    sorted_insert_u16(years, (dec_val(d) % 0x10000) as u16),
                ),
                None => page_scan(rest, writers, artists, years),
            },
        }
    }
}

/// The author list rendered as a single string: names joined by `-`.
pub open spec fn dash_joined(v: Seq<Seq<char>>) -> Seq<char>
    decreases v.len(),
{
    if v.len() == 0 {
        Seq::empty()
    } else {
        v[0] + tail_joined(v.skip(1))
    }
}

/// The remaining names of a joined author list, each preceded by `-`.
pub open spec fn tail_joined(v: Seq<Seq<char>>) -> Seq<char>
    decreases v.len(),
{
    if v.len() == 0 {
        Seq::empty()
    } else {
        seq!['-'] + v[0] + tail_joined(v.skip(1))
    }
}

/// Volume metadata read from one catalog page: the joined author list
/// (writers first, then artists, each group sorted) and the set of
/// publication years, sorted and duplicate-free.
pub struct VolumeInfo {
    pub authors: String,
    pub years: Vec<u16>,
}

/// What `VolumeInfo` holds for a page with the given info lines.
pub open spec fn info_matches(info: VolumeInfo, lines: Seq<Seq<char>>) -> bool {
    let r = page_scan(lines, Seq::empty(), Seq::empty(), Seq::empty());
    info.authors@ == dash_joined(r.0 + r.1) && info.years@ == r.2
}

/// What the info lines of a catalog page hold: a pure function of the page
/// text alone.
pub uninterp spec fn info_lines_of(page: Seq<char>) -> Seq<Seq<char>>;

/// Relies on kuchiki's HTML parser and CSS selectors: the text contents of
/// the page's `.infos li` elements, a deterministic function of the page
/// text alone.
#[verifier::external_body]
fn info_lines(page: &str) -> (r: Vec<String>)
    ensures
        r.deep_view() == info_lines_of(page@),
{
    let doc = kuchiki::parse_html().one(page);
    let sel = match kuchiki::Selectors::compile(".infos li") {
        Ok(sel) => sel,
        Err(()) => return Vec::new(),
    };
    sel.filter(doc.descendants().elements()).map(|n| n.text_contents()).collect()
}

pub(crate) fn label_at_exec(v: &Vec<char>, i: usize, lab: &Vec<char>) -> (r: bool)
    ensures
        r == label_at(v@, i as int, lab@),
{
    if i > v.len() || v.len() - i < lab.len() {
        return false;
    }
    let n = v.len();
    let mut j: usize = 0;
    while j < lab.len()
        invariant
            n == v@.len(),
            i + lab@.len() <= n,
            j <= lab@.len(),
            forall|k: int| 0 <= k < j ==> v@[i + k] == lab@[k],
        decreases lab@.len() - j,
    {
        if v[i + j] != lab[j] {
            proof {
                assert(v@.subrange(i as int, i + lab@.len())[j as int] == v@[i + j]);
            }
            return false;
        }
        j += 1;
    }
    proof {
        assert(v@.subrange(i as int, i + lab@.len()) =~= lab@);
    }
    true
}

fn writer_label_exec() -> (v: Vec<char>)
    ensures
        v@ == writer_label(),
{
    let mut v: Vec<char> = Vec::new();
    v.push('S');
    v.push('c');
    v.push('\u{e9}');
    v.push('n');
    v.push('a');
    v.push('r');
    v.push('i');
    v.push('o');
    v.push(' ');
    v.push(':');
    proof {
        assert(v@ =~= writer_label());
    }
    v
}

fn artist_label_exec() -> (v: Vec<char>)
    ensures
        v@ == artist_label(),
{
    let mut v: Vec<char> = Vec::new();
    v.push('D');
    v.push('e');
    v.push('s');
    v.push('s');
    v.push('i');
    v.push('n');
    v.push(' ');
    v.push(':');
    proof {
        assert(v@ =~= artist_label());
    }
    v
}

fn deposit_label_exec() -> (v: Vec<char>)
    ensures
        v@ == deposit_label(),
{
    let mut v: Vec<char> = Vec::new();
    v.push('D');
    v.push('\u{e9}');
    v.push('p');
    v.push('o');
    v.push('t');
    v.push(' ');
    v.push('l');
    v.push('\u{e9}');
    v.push('g');
    v.push('a');
    v.push('l');
    v.push(' ');
    v.push(':');
    proof {
        assert(v@ =~= deposit_label());
    }
    v
}

fn ws_run_end_exec(v: &Vec<char>, j: usize) -> (k: usize)
    requires
        j <= v@.len(),
    ensures
        k as int == ws_run_end(v@, j as int),
        j <= k <= v@.len(),
{
    let mut k = j;
    while k < v.len() && is_space_exec(v[k])
        invariant
            j <= k <= v@.len(),
            ws_run_end(v@, j as int) == ws_run_end(v@, k as int),
        decreases v@.len() - k,
    {
        k += 1;
    }
    k
}

fn comma_or_end_exec(v: &Vec<char>, k: usize) -> (m: usize)
    requires
        k <= v@.len(),
    ensures
        m as int == comma_or_end(v@, k as int),
        k <= m <= v@.len(),
{
    let mut m = k;
    while m < v.len() && v[m] != ','
        invariant
            k <= m <= v@.len(),
            comma_or_end(v@, k as int) == comma_or_end(v@, m as int),
        decreases v@.len() - m,
    {
        m += 1;
    }
    m
}

fn credit_after_exec(v: &Vec<char>, j: usize) -> (r: Option<Vec<char>>)
    requires
        j <= v@.len(),
    ensures
        match r {
            Some(n) => credit_after(v@, j as int) == Some(n@),
            None => credit_after(v@, j as int) is None,
        },
{
    let k = ws_run_end_exec(v, j);
    if k == j {
        return None;
    }
    let m = comma_or_end_exec(v, k);
    if m == k {
        return None;
    }
    let raw = sub_chars(v, k, m);
    Some(trim_chars(&raw))
}

/// The first full credit of the line, role flag and trimmed name.
fn find_author(v: &Vec<char>) -> (r: Option<(bool, Vec<char>)>)
    ensures
        match r {
            Some(c) => find_author_from(v@, 0) == Some((c.0, c.1@)),
            None => find_author_from(v@, 0) is None,
        },
{
    let wl = writer_label_exec();
    let al = artist_label_exec();
    let mut i: usize = 0;
    while i < v.len()
        invariant
            i <= v@.len(),
            wl@ == writer_label(),
            al@ == artist_label(),
            find_author_from(v@, 0) == find_author_from(v@, i as int),
        decreases v@.len() - i,
    {
        if label_at_exec(v, i, &wl) {
            if let Some(n) = credit_after_exec(v, i + 10) {
                proof {
                    assert(author_at(v@, i as int) == Some((false, n@)));
                }
                return Some((false, n));
            }
        } else if label_at_exec(v, i, &al) {
            if let Some(n) = credit_after_exec(v, i + 8) {
                proof {
                    assert(author_at(v@, i as int) == Some((true, n@)));
                }
                return Some((true, n));
            }
        }
        proof {
            assert(author_at(v@, i as int) is None);
        }
        i += 1;
    }
    None
}

/// The first full deposit field of the line: its year, at most 9999.
fn find_year(v: &Vec<char>) -> (r: Option<u16>)
    ensures
        match r {
            Some(y) => {
                &&& find_year_from(v@, 0) is Some
                &&& y == dec_val(find_year_from(v@, 0)->Some_0) % 0x10000
                &&& y <= 9999
            },
            None => find_year_from(v@, 0) is None,
        },
{
    let dl = deposit_label_exec();
    let mut i: usize = 0;
    while i < v.len()
        invariant
            i <= v@.len(),
            dl@ == deposit_label(),
            find_year_from(v@, 0) == find_year_from(v@, i as int),
        decreases v@.len() - i,
    {
        if label_at_exec(v, i, &dl) {
            let j = i + 13;
            let k = ws_run_end_exec(v, j);
            if k != j {
                if v.len() - k >= 7 && ('0' <= v[k] && v[k] <= '9') && ('0' <= v[k + 1] && v[k + 1]
                    <= '9') && v[k + 2] == '/' {
                    match parse_dec(v, k + 3, k + 7, 9999) {
                        Some(y) => {
                            proof {
                                assert(year_at(v@, i as int) == Some(
                                    v@.subrange(k + 3, k + 7 as int),
                                ));
                                assert(dec_val(v@.subrange(k + 3, k + 7 as int)) % 0x10000
                                    == dec_val(v@.subrange(k + 3, k + 7 as int)));
                            }
                            return Some(y as u16);
                        },
                        None => {
                            proof {
                                if all_digits(v@.subrange(k + 3, k + 7 as int)) {
                                    lemma_year_bound(v@.subrange(k + 3, k + 7 as int));
                                }
                                assert(year_at(v@, i as int) is None);
                            }
                        },
                    }
                } else {
                    proof {
                        assert(year_at(v@, i as int) is None);
                    }
                }
            } else {
                proof {
                    assert(year_at(v@, i as int) is None);
                }
            }
        } else {
            proof {
                assert(year_at(v@, i as int) is None);
            }
        }
        i += 1;
    }
    None
}

/// Whether `x` is among the names of `list`.
fn contains_name(list: &Vec<Vec<char>>, x: &Vec<char>) -> (r: bool)
    ensures
        r == seq_contains(views_of(list@), x@),
{
    let mut i: usize = 0;
    while i < list.len()
        invariant
            i <= list@.len(),
            forall|j: int| 0 <= j < i ==> views_of(list@)[j] != x@,
        decreases list@.len() - i,
    {
        if eq_chars(&list[i], x) {
            proof {
                assert(views_of(list@)[i as int] == x@);
            }
            return true;
        }
        i += 1;
    }
    false
}

fn append_chars(dst: &mut Vec<char>, src: &Vec<char>)
    ensures
        final(dst)@ == old(dst)@ + src@,
{
    let mut i: usize = 0;
    proof {
        assert(dst@ =~= old(dst)@ + src@.subrange(0, 0));
    }
    while i < src.len()
        invariant
            i <= src@.len(),
            dst@ == old(dst)@ + src@.subrange(0, i as int),
        decreases src@.len() - i,
    {
        dst.push(src[i]);
        i += 1;
        proof {
            assert(dst@ =~= old(dst)@ + src@.subrange(0, i as int));
        }
    }
    proof {
        assert(dst@ =~= old(dst)@ + src@);
    }
}

/// Appends copies of all names of `src` to `dst`.
fn copy_names(dst: &mut Vec<Vec<char>>, src: &Vec<Vec<char>>)
    ensures
        views_of(final(dst)@) == views_of(old(dst)@) + views_of(src@),
{
    let mut i: usize = 0;
    proof {
        assert(views_of(src@).subrange(0, 0) =~= Seq::<Seq<char>>::empty());
        assert(views_of(dst@) =~= views_of(old(dst)@) + views_of(src@).subrange(0, 0));
    }
    while i < src.len()
        invariant
            i <= src@.len(),
            views_of(dst@) == views_of(old(dst)@) + views_of(src@).subrange(0, i as int),
        decreases src@.len() - i,
    {
        let ghost prev = dst@;
        let piece = sub_chars(&src[i], 0, src[i].len());
        proof {
            assert(piece@ =~= views_of(src@)[i as int]);
        }
        let ghost pview = piece@;
        dst.push(piece);
        i += 1;
        proof {
            let base = views_of(old(dst)@);
            let sr = views_of(src@).subrange(0, i as int);
            let sr0 = views_of(src@).subrange(0, i - 1);
            assert(views_of(prev).len() == prev.len());
            assert(prev.len() == base.len() + i - 1);
            assert(dst@.len() == prev.len() + 1);
            assert forall|m: int| 0 <= m < dst@.len() implies views_of(dst@)[m] == (base + sr)[m] by {
                assert(views_of(dst@)[m] == dst@[m]@);
                if m < prev.len() {
                    assert(dst@[m] == prev[m]);
                    assert(views_of(prev)[m] == prev[m]@);
                    assert(views_of(prev)[m] == (base + sr0)[m]);
                    if m < base.len() {
                        assert((base + sr)[m] == base[m]);
                        assert((base + sr0)[m] == base[m]);
                    } else {
                        assert((base + sr)[m] == sr[m - base.len()]);
                        assert(sr[m - base.len()] == views_of(src@)[m - base.len()]);
                        assert((base + sr0)[m] == sr0[m - base.len()]);
                        assert(sr0[m - base.len()] == views_of(src@)[m - base.len()]);
                    }
                } else {
                    assert(m == prev.len());
                    assert(dst@[m]@ == pview);
                    assert(pview == views_of(src@)[i - 1]);
                    assert((base + sr)[m] == sr[m - base.len()]);
                    assert(m - base.len() == i - 1);
                    assert(sr[i - 1] == views_of(src@)[i - 1]);
                }
            }
            assert(views_of(dst@) =~= views_of(old(dst)@) + views_of(src@).subrange(0, i as int));
        }
    }
    proof {
        assert(views_of(src@).subrange(0, src@.len() as int) =~= views_of(src@));
    }
}

/// The names joined by `-`, writers' part first.
fn join_dash(names: &Vec<Vec<char>>) -> (r: Vec<char>)
    ensures
        r@ == dash_joined(views_of(names@)),
{
    let ghost vs = views_of(names@);
    let mut r: Vec<char> = Vec::new();
    if names.len() == 0 {
        proof {
            assert(r@ =~= dash_joined(vs));
        }
        return r;
    }
    append_chars(&mut r, &names[0]);
    let mut i: usize = 1;
    proof {
        assert(vs.skip(0) =~= vs);
        assert(r@ + tail_joined(vs.skip(1)) =~= vs[0] + tail_joined(vs.skip(1)));
    }
    while i < names.len()
        invariant
            1 <= i <= vs.len(),
            vs == views_of(names@),
            vs.len() == names@.len(),
            dash_joined(vs) == r@ + tail_joined(vs.skip(i as int)),
        decreases vs.len() - i,
    {
        let ghost prev = r@;
        r.push('-');
        append_chars(&mut r, &names[i]);
        proof {
            assert(vs.skip(i as int)[0] == vs[i as int]);
            assert(vs[i as int] == names@[i as int]@);
            assert(vs.skip(i as int).skip(1) =~= vs.skip(i as int + 1));
            assert(r@ + tail_joined(vs.skip(i as int + 1)) =~= prev + (seq!['-'] + vs[i as int]
                + tail_joined(vs.skip(i as int + 1))));
        }
        i += 1;
    }
    proof {
        assert(vs.skip(vs.len() as int).len() == 0);
        assert(r@ + Seq::<char>::empty() =~= r@);
    }
    r
}

impl VolumeInfo {
    /// Builds the volume metadata from the text of the page's info lines.
    pub fn from_lines(lines: &Vec<String>) -> (info: VolumeInfo)
        ensures
            info_matches(info, lines.deep_view()),
    {
        let ghost ls = lines.deep_view();
        let mut writers: Vec<Vec<char>> = Vec::new();
        let mut artists: Vec<Vec<char>> = Vec::new();
        let mut years: Vec<u16> = Vec::new();
        let mut i: usize = 0;
        proof {
            assert(ls.skip(0) =~= ls);
            assert(views_of(writers@) =~= Seq::<Seq<char>>::empty());
            assert(views_of(artists@) =~= Seq::<Seq<char>>::empty());
        }
        while i < lines.len()
            invariant
                i <= lines@.len(),
                ls == lines.deep_view(),
                ls.len() == lines@.len(),
                page_scan(ls, Seq::empty(), Seq::empty(), Seq::empty()) == page_scan(
                    ls.skip(i as int),
                    views_of(writers@),
                    views_of(artists@),
                    years@,
                ),
            decreases lines@.len() - i,
        {
            proof {
                assert(ls.skip(i as int)[0] == ls[i as int]);
                assert(ls[i as int] == lines@[i as int]@);
                assert(ls.skip(i as int).skip(1) =~= ls.skip(i as int + 1));
            }
            let lv = chars_of(lines[i].as_str());
            match find_author(&lv) {
                Some((is_artist, name)) => {
                    if !is_artist {
                        insert_name(&mut writers, name);
                    } else if !contains_name(&writers, &name) {
                        insert_name(&mut artists, name);
                    }
                },
                None => {
                    match find_year(&lv) {
                        Some(y) => {
                            insert_year(&mut years, y);
                        },
                        None => {},
                    }
                },
            }
            i += 1;
        }
        proof {
            assert(ls.skip(ls.len() as int).len() == 0);
        }
        let mut all: Vec<Vec<char>> = Vec::new();
        proof {
            assert(views_of(all@) =~= Seq::<Seq<char>>::empty());
        }
        copy_names(&mut all, &writers);
        copy_names(&mut all, &artists);
        proof {
            assert(views_of(all@) =~= views_of(writers@) + views_of(artists@));
        }
        let joined = join_dash(&all);
        VolumeInfo { authors: string_of(&joined), years }
    }

    /// Extracts the volume metadata from a fetched catalog page. Total:
    /// a page without matching lines yields empty authors and years.
    pub fn new(page: &str) -> (info: VolumeInfo)
        ensures
            info_matches(info, info_lines_of(page@)),
    {
        let lines = info_lines(page);
        Self::from_lines(&lines)
    }
}

/// Writers and artists stay alphabetically sorted and duplicate-free
/// through a page scan, each group on its own; the collected years stay
/// strictly increasing and duplicate-free, a set in all but name.
pub proof fn lemma_page_scan_sorted(
    lines: Seq<Seq<char>>,
    writers: Seq<Seq<char>>,
    artists: Seq<Seq<char>>,
    years: Seq<u16>,
)
    requires
        strictly_sorted(writers),
        strictly_sorted(artists),
        sorted_u16(years),
    ensures
        strictly_sorted(page_scan(lines, writers, artists, years).0),
        strictly_sorted(page_scan(lines, writers, artists, years).1),
        sorted_u16(page_scan(lines, writers, artists, years).2),
    decreases lines.len(),
{
    if lines.len() > 0 {
        let l = lines[0];
        let rest = lines.skip(1);
        match find_author_from(l, 0) {
            Some(c) => {
                if !c.0 {
                    lemma_sorted_insert(writers, c.1);
                    lemma_page_scan_sorted(rest, sorted_insert(writers, c.1), artists, years);
                } else if seq_contains(writers, c.1) {
                    lemma_page_scan_sorted(rest, writers, artists, years);
                } else {
                    lemma_sorted_insert(artists, c.1);
                    lemma_page_scan_sorted(rest, writers, sorted_insert(artists, c.1), years);
                }
            },
            None => {
                match find_year_from(l, 0) {
                    Some(d) => {
                        let y = (dec_val(d) % 0x10000) as u16;
                        lemma_sorted_insert_u16(years, y);
                        lemma_page_scan_sorted(
                            rest,
                            writers,
                            artists,
                            sorted_insert_u16(years, y),
                        );
                    },
                    None => {
                        lemma_page_scan_sorted(rest, writers, artists, years);
                    },
                }
            },
        }
    }
}

} // verus!
