//! The two filename grammars of a comic archive and their parser.
//!
//! A series release is named
//! `<title> T<volume> (<authors>) (<year>) [<tag>-<width>].cbz`; a one-shot
//! release is named the same way without the ` T<volume>` segment. The
//! series shape is preferred. Segments are located from the right end of the
//! name, so a title may itself contain parentheses, brackets or digits; the
//! author segment is read back from the last opening parenthesis that leaves
//! it nonempty.

use crate::digits::{all_digits, dec_val, is_digit, lemma_year_bound, parse_dec};
use crate::text::{chars_of, string_of, sub_chars};
use vstd::prelude::*;
use vstd::string::StringExecFns;

verus! {

/// Word characters allowed in the opaque format tag.
pub open spec fn is_word_char(c: char) -> bool {
    is_digit(c) || ('a' <= c && c <= 'z') || ('A' <= c && c <= 'Z') || c == '_'
}

/// Whether every character of `s` is a word character.
pub open spec fn all_word(s: Seq<char>) -> bool {
    forall|i: int| 0 <= i < s.len() ==> is_word_char(#[trigger] s[i])
}

/// Start of the run of digit characters that ends just before `end`.
pub open spec fn digit_run_lo(s: Seq<char>, end: int) -> int
    decreases end,
{
    if 0 < end <= s.len() && is_digit(s[end - 1]) {
        digit_run_lo(s, end - 1)
    } else {
        end
    }
}

/// Start of the run of word characters that ends just before `end`.
pub open spec fn word_run_lo(s: Seq<char>, end: int) -> int
    decreases end,
{
    if 0 < end <= s.len() && is_word_char(s[end - 1]) {
        word_run_lo(s, end - 1)
    } else {
        end
    }
}

/// Index of the last `(` strictly before `end`, or `-1` if there is none.
pub open spec fn last_open_before(s: Seq<char>, end: int) -> int
    decreases end,
{
    if end <= 0 || end > s.len() {
        -1
    } else if s[end - 1] == '(' {
        end - 1
    } else {
        last_open_before(s, end - 1)
    }
}

/// The raw fields of a recognized filename, as character sequences.
pub struct RawName {
    pub title: Seq<char>,
    pub volume: Option<Seq<char>>,
    pub authors: Seq<char>,
    pub year: Seq<char>,
    pub width: Seq<char>,
}

/// The deterministic reading of a filename under the two grammars, before
/// numeric fields are converted. `None` means the name is not recognized.
pub open spec fn spec_parse(f: Seq<char>) -> Option<RawName> {
    let n = f.len() as int;
    if n < 5 || f[n - 4] != '.' || f[n - 3] != 'c' || f[n - 2] != 'b' || f[n - 1] != 'z' {
        None
    } else {
        let e = n - 4;
        if f[e - 1] != ']' {
            None
        } else {
            let wlo = digit_run_lo(f, e - 1);
            if wlo >= e - 1 || wlo < 1 || f[wlo - 1] != '-' {
                None
            } else {
                let tlo = word_run_lo(f, wlo - 1);
                if tlo >= wlo - 1 || tlo < 11 || f[tlo - 1] != '[' {
                    None
                } else if !(f[tlo - 2] == ' ' && f[tlo - 3] == ')' && f[tlo - 8] == '(' && f[tlo
                    - 9] == ' ' && f[tlo - 10] == ')') {
                    None
                } else if !all_digits(f.subrange(tlo - 7, tlo - 3)) {
                    None
                } else {
                    let close = tlo - 10;
                    let open = last_open_before(f, close - 1);
                    if open < 2 || f[open - 1] != ' ' {
                        None
                    } else {
                        let sp = open - 1;
                        let authors = f.subrange(open + 1, close);
                        let year = f.subrange(tlo - 7, tlo - 3);
                        let width = f.subrange(wlo, e - 1);
                        let vlo = digit_run_lo(f, sp);
                        if vlo < sp && vlo >= 3 && f[vlo - 1] == 'T' && f[vlo - 2] == ' ' {
                            Some(
                                RawName {
                                    title: f.subrange(0, vlo - 2),
                                    volume: Some(f.subrange(vlo, sp)),
                                    authors,
                                    year,
                                    width,
                                },
                            )
                        } else {
                            Some(
                                RawName { title: f.subrange(0, sp), volume: None, authors, year, width },
                            )
                        }
                    }
                }
            }
        }
    }
}

/// Whether the volume numeral, if present, fits a `u8`.
pub open spec fn volume_fits(r: RawName) -> bool {
    match r.volume {
        Some(v) => dec_val(v) <= u8::MAX,
        None => true,
    }
}

/// Whether the width numeral fits a `usize`.
pub open spec fn width_fits(r: RawName) -> bool {
    dec_val(r.width) <= usize::MAX
}

/// Why a filename was rejected.
#[derive(Clone, Copy, Debug, PartialEq, Eq, Structural)]
pub enum ParseError {
    /// Neither grammar matches, or the container extension is missing.
    NotRecognized,
    /// A field matches the text pattern but does not fit its integer type.
    BadNumber,
}

/// The fields extracted from a recognized filename.
#[derive(Debug)]
pub struct ParsedName {
    pub title: String,
    pub volume: Option<u8>,
    pub authors: String,
    pub year: u16,
    pub width: usize,
}

/// Whether the executable fields agree with the raw reading of a name.
pub open spec fn parsed_matches(p: ParsedName, raw: RawName) -> bool {
    &&& p.title@ == raw.title
    &&& match (p.volume, raw.volume) {
        (Some(v), Some(d)) => v == dec_val(d),
        (None, None) => true,
        _ => false,
    }
    &&& p.authors@ == raw.authors
    &&& p.year == dec_val(raw.year)
    &&& p.width == dec_val(raw.width)
}

/// The full contract of `parse` over the raw reading of the name.
pub open spec fn parse_result_ok(r: Result<ParsedName, ParseError>, f: Seq<char>) -> bool {
    match spec_parse(f) {
        Some(raw) => if volume_fits(raw) && width_fits(raw) {
            r is Ok && parsed_matches(r->Ok_0, raw)
        } else {
            r == Result::<ParsedName, ParseError>::Err(ParseError::BadNumber)
        },
        None => r == Result::<ParsedName, ParseError>::Err(ParseError::NotRecognized),
    }
}

fn is_word_char_exec(c: char) -> (r: bool)
    ensures
        r == is_word_char(c),
{
    ('0' <= c && c <= '9') || ('a' <= c && c <= 'z') || ('A' <= c && c <= 'Z') || c == '_'
}

fn digit_run_lo_exec(v: &Vec<char>, end: usize) -> (lo: usize)
    requires
        end <= v@.len(),
    ensures
        lo == digit_run_lo(v@, end as int),
        lo <= end,
{
    let mut j = end;
    while j > 0 && ('0' <= v[j - 1] && v[j - 1] <= '9')
        invariant
            j <= end <= v@.len(),
            digit_run_lo(v@, end as int) == digit_run_lo(v@, j as int),
        decreases j,
    {
        j -= 1;
    }
    j
}

fn word_run_lo_exec(v: &Vec<char>, end: usize) -> (lo: usize)
    requires
        end <= v@.len(),
    ensures
        lo == word_run_lo(v@, end as int),
        lo <= end,
{
    let mut j = end;
    while j > 0 && is_word_char_exec(v[j - 1])
        invariant
            j <= end <= v@.len(),
            word_run_lo(v@, end as int) == word_run_lo(v@, j as int),
        decreases j,
    {
        j -= 1;
    }
    j
}

fn last_open_before_exec(v: &Vec<char>, end: usize) -> (r: Option<usize>)
    requires
        end <= v@.len(),
    ensures
        match r {
            Some(i) => i as int == last_open_before(v@, end as int) && i < end,
            None => last_open_before(v@, end as int) == -1,
        },
{
    let mut j = end;
    while j > 0
        invariant
            j <= end <= v@.len(),
            last_open_before(v@, end as int) == last_open_before(v@, j as int),
        decreases j,
    {
        if v[j - 1] == '(' {
            return Some(j - 1);
        }
        j -= 1;
    }
    None
}

/// Every character in the run found by `digit_run_lo` is a digit.
proof fn lemma_digit_run_digits(s: Seq<char>, end: int)
    requires
        0 <= end <= s.len(),
    ensures
        0 <= digit_run_lo(s, end) <= end,
        all_digits(s.subrange(digit_run_lo(s, end), end)),
    decreases end,
{
    let lo = digit_run_lo(s, end);
    if 0 < end && is_digit(s[end - 1]) {
        lemma_digit_run_digits(s, end - 1);
        assert forall|i: int| 0 <= i < s.subrange(lo, end).len() implies is_digit(
            #[trigger] s.subrange(lo, end)[i],
        ) by {
            if i < end - 1 - lo {
                assert(s.subrange(lo, end - 1)[i] == s.subrange(lo, end)[i]);
            } else {
                assert(s.subrange(lo, end)[i] == s[end - 1]);
            }
        }
    }
}

/// Reads a filename under the two grammars. Returns the extracted fields
/// exactly when the name is recognized and its numerals fit their types;
/// otherwise says which of the two failed.
pub fn parse(filename: &str) -> (r: Result<ParsedName, ParseError>)
    ensures
        parse_result_ok(r, filename@),
{
    let v = chars_of(filename);
    let ghost f = filename@;
    let n = v.len();
    if n < 5 || !(v[n - 4] == '.' && v[n - 3] == 'c' && v[n - 2] == 'b' && v[n - 1] == 'z') {
        return Err(ParseError::NotRecognized);
    }
    let e = n - 4;
    if v[e - 1] != ']' {
        return Err(ParseError::NotRecognized);
    }
    let wlo = digit_run_lo_exec(&v, e - 1);
    if wlo >= e - 1 || wlo < 1 || v[wlo - 1] != '-' {
        return Err(ParseError::NotRecognized);
    }
    let tlo = word_run_lo_exec(&v, wlo - 1);
    if tlo >= wlo - 1 || tlo < 11 || v[tlo - 1] != '[' {
        return Err(ParseError::NotRecognized);
    }
    if !(v[tlo - 2] == ' ' && v[tlo - 3] == ')' && v[tlo - 8] == '(' && v[tlo - 9] == ' ' && v[tlo
        - 10] == ')') {
        return Err(ParseError::NotRecognized);
    }
    let year_val = match parse_dec(&v, tlo - 7, tlo - 3, 9999) {
        Some(y) => y,
        None => {
            proof {
                if all_digits(f.subrange(tlo - 7, tlo - 3)) {
                    lemma_year_bound(f.subrange(tlo - 7, tlo - 3));
                }
            }
            return Err(ParseError::NotRecognized);
        },
    };
    let close = tlo - 10;
    let open = match last_open_before_exec(&v, close - 1) {
        Some(i) => i,
        None => {
            return Err(ParseError::NotRecognized);
        },
    };
    if open < 2 || v[open - 1] != ' ' {
        return Err(ParseError::NotRecognized);
    }
    let sp = open - 1;
    let vlo = digit_run_lo_exec(&v, sp);
    let is_series = vlo < sp && vlo >= 3 && v[vlo - 1] == 'T' && v[vlo - 2] == ' ';
    let volume: Option<u8> = if is_series {
        proof {
            lemma_digit_run_digits(f, sp as int);
        }
        match parse_dec(&v, vlo, sp, 255) {
            Some(x) => Some(x as u8),
            None => {
                return Err(ParseError::BadNumber);
            },
        }
    } else {
        None
    };
    proof {
        lemma_digit_run_digits(f, e - 1 as int);
    }
    let width: usize = match parse_dec(&v, wlo, e - 1, usize::MAX as u64) {
        Some(x) => x as usize,
        None => {
            return Err(ParseError::BadNumber);
        },
    };
    let title_chars = if is_series {
        sub_chars(&v, 0, vlo - 2)
    } else {
        sub_chars(&v, 0, sp)
    };
    let authors_chars = sub_chars(&v, open + 1, close);
    let p = ParsedName {
        title: string_of(&title_chars),
        volume,
        authors: string_of(&authors_chars),
        year: year_val as u16,
        width,
    };
    Ok(p)
}

/// The characters of a series filename built from its field substrings.
pub open spec fn series_chars(
    title: Seq<char>,
    vol: Seq<char>,
    authors: Seq<char>,
    year: Seq<char>,
    tag: Seq<char>,
    width: Seq<char>,
) -> Seq<char> {
    title + seq![' ', 'T'] + vol + seq![' ', '('] + authors + seq![')', ' ', '('] + year + seq![
        ')',
        ' ',
        '[',
    ] + tag + seq!['-'] + width + seq![']', '.', 'c', 'b', 'z']
}

/// The characters of a one-shot filename built from its field substrings.
pub open spec fn oneshot_chars(
    title: Seq<char>,
    authors: Seq<char>,
    year: Seq<char>,
    tag: Seq<char>,
    width: Seq<char>,
) -> Seq<char> {
    title + seq![' ', '('] + authors + seq![')', ' ', '('] + year + seq![')', ' ', '['] + tag
        + seq!['-'] + width + seq![']', '.', 'c', 'b', 'z']
}

/// Whether a title itself ends in a ` T<digits>` segment, which would make a
/// one-shot name read as a series name.
pub open spec fn has_volume_suffix(t: Seq<char>) -> bool {
    let vlo = digit_run_lo(t, t.len() as int);
    vlo < t.len() && vlo >= 3 && t[vlo - 1] == 'T' && t[vlo - 2] == ' '
}

/// A series filename, assembled from its field substrings.
pub fn build_series_name(
    title: &str,
    volume: &str,
    authors: &str,
    year: &str,
    tag: &str,
    width: &str,
) -> (r: String)
    ensures
        r@ == series_chars(title@, volume@, authors@, year@, tag@, width@),
{
    proof {
        reveal_strlit(" T");
        reveal_strlit(" (");
        reveal_strlit(") (");
        reveal_strlit(") [");
        reveal_strlit("-");
        reveal_strlit("].cbz");
    }
    let mut s = String::from_str(title);
    s.append(" T");
    s.append(volume);
    s.append(" (");
    s.append(authors);
    s.append(") (");
    s.append(year);
    s.append(") [");
    s.append(tag);
    s.append("-");
    s.append(width);
    s.append("].cbz");
    proof {
        assert(s@ =~= series_chars(title@, volume@, authors@, year@, tag@, width@));
    }
    s
}

/// A one-shot filename, assembled from its field substrings.
pub fn build_oneshot_name(
    title: &str,
    authors: &str,
    year: &str,
    tag: &str,
    width: &str,
) -> (r: String)
    ensures
        r@ == oneshot_chars(title@, authors@, year@, tag@, width@),
{
    proof {
        reveal_strlit(" (");
        reveal_strlit(") (");
        reveal_strlit(") [");
        reveal_strlit("-");
        reveal_strlit("].cbz");
    }
    let mut s = String::from_str(title);
    s.append(" (");
    s.append(authors);
    s.append(") (");
    s.append(year);
    s.append(") [");
    s.append(tag);
    s.append("-");
    s.append(width);
    s.append("].cbz");
    proof {
        assert(s@ =~= oneshot_chars(title@, authors@, year@, tag@, width@));
    }
    s
}

/// A maximal digit run bounded on the left by a non-digit is exactly what
/// `digit_run_lo` finds.
proof fn lemma_digit_run_exact(s: Seq<char>, a: int, b: int)
    requires
        0 <= a <= b <= s.len(),
        all_digits(s.subrange(a, b)),
        a > 0 ==> !is_digit(s[a - 1]),
    ensures
        digit_run_lo(s, b) == a,
    decreases b - a,
{
    if b > a {
        assert(is_digit(s[b - 1])) by {
            assert(s.subrange(a, b)[b - 1 - a] == s[b - 1]);
        }
        assert forall|i: int| 0 <= i < s.subrange(a, b - 1).len() implies is_digit(
            #[trigger] s.subrange(a, b - 1)[i],
        ) by {
            assert(s.subrange(a, b - 1)[i] == s.subrange(a, b)[i]);
        }
        lemma_digit_run_exact(s, a, b - 1);
    }
}

/// A maximal word-character run bounded on the left by a non-word character
/// is exactly what `word_run_lo` finds.
proof fn lemma_word_run_exact(s: Seq<char>, a: int, b: int)
    requires
        0 <= a <= b <= s.len(),
        all_word(s.subrange(a, b)),
        a > 0 ==> !is_word_char(s[a - 1]),
    ensures
        word_run_lo(s, b) == a,
    decreases b - a,
{
    if b > a {
        assert(is_word_char(s[b - 1])) by {
            assert(s.subrange(a, b)[b - 1 - a] == s[b - 1]);
        }
        assert forall|i: int| 0 <= i < s.subrange(a, b - 1).len() implies is_word_char(
            #[trigger] s.subrange(a, b - 1)[i],
        ) by {
            assert(s.subrange(a, b - 1)[i] == s.subrange(a, b)[i]);
        }
        lemma_word_run_exact(s, a, b - 1);
    }
}

/// An opening parenthesis followed only by other characters up to `end` is
/// exactly what `last_open_before` finds.
proof fn lemma_last_open_exact(s: Seq<char>, k: int, end: int)
    requires
        0 <= k < end <= s.len(),
        s[k] == '(',
        forall|i: int| k < i < end ==> s[i] != '(',
    ensures
        last_open_before(s, end) == k,
    decreases end,
{
    if end - 1 > k {
        lemma_last_open_exact(s, k, end - 1);
    }
}

/// `digit_run_lo` only inspects characters before `end`, so it agrees on a
/// sequence and any extension of it.
proof fn lemma_digit_run_prefix(s: Seq<char>, t: Seq<char>, end: int)
    requires
        0 <= end <= t.len() <= s.len(),
        t == s.subrange(0, t.len() as int),
    ensures
        digit_run_lo(s, end) == digit_run_lo(t, end),
    decreases end,
{
    if 0 < end {
        assert(t[end - 1] == s[end - 1]);
        if is_digit(s[end - 1]) {
            lemma_digit_run_prefix(s, t, end - 1);
        }
    }
}

/// Round trip of the series grammar: a name built from well-formed field
/// substrings reads back as exactly those substrings, volume included.
pub proof fn lemma_series_round_trip(
    title: Seq<char>,
    vol: Seq<char>,
    authors: Seq<char>,
    year: Seq<char>,
    tag: Seq<char>,
    width: Seq<char>,
)
    requires
        title.len() >= 1,
        vol.len() >= 1,
        all_digits(vol),
        authors.len() >= 1,
        forall|i: int| 0 <= i < authors.len() ==> authors[i] != '(',
        year.len() == 4,
        all_digits(year),
        tag.len() >= 1,
        all_word(tag),
        width.len() >= 1,
        all_digits(width),
    ensures
        spec_parse(series_chars(title, vol, authors, year, tag, width)) == Some(
            RawName { title, volume: Some(vol), authors, year, width },
        ),
{
    let f = series_chars(title, vol, authors, year, tag, width);
    let t = title.len() as int;
    let v = vol.len() as int;
    let a = authors.len() as int;
    let g = tag.len() as int;
    let w = width.len() as int;
    let n = f.len() as int;
    assert(n == t + v + a + g + w + 20);
    assert(f.subrange(0, t) =~= title);
    assert(f.subrange(t + 2, t + 2 + v) =~= vol);
    assert(f.subrange(t + 4 + v, t + 4 + v + a) =~= authors);
    assert(f.subrange(t + 7 + v + a, t + 11 + v + a) =~= year);
    assert(f.subrange(t + 14 + v + a, t + 14 + v + a + g) =~= tag);
    assert(f.subrange(t + 15 + v + a + g, t + 15 + v + a + g + w) =~= width);
    assert(f[t] == ' ' && f[t + 1] == 'T');
    assert(f[t + 2 + v] == ' ' && f[t + 3 + v] == '(');
    assert(f[t + 4 + v + a] == ')' && f[t + 5 + v + a] == ' ' && f[t + 6 + v + a] == '(');
    assert(f[t + 11 + v + a] == ')' && f[t + 12 + v + a] == ' ' && f[t + 13 + v + a] == '[');
    assert(f[t + 14 + v + a + g] == '-');
    assert(f[n - 5] == ']' && f[n - 4] == '.' && f[n - 3] == 'c' && f[n - 2] == 'b' && f[n - 1]
        == 'z');
    let e = n - 4;
    lemma_digit_run_exact(f, t + 15 + v + a + g, e - 1);
    let wlo = t + 15 + v + a + g;
    lemma_word_run_exact(f, t + 14 + v + a, wlo - 1);
    let tlo = t + 14 + v + a;
    assert(all_digits(f.subrange(tlo - 7, tlo - 3)));
    let close = tlo - 10;
    assert forall|i: int| t + 3 + v < i < close - 1 implies f[i] != '(' by {
        assert(f[i] == authors[i - (t + 4 + v)]);
    }
    lemma_last_open_exact(f, t + 3 + v, close - 1);
    let open = t + 3 + v;
    assert(f[open - 1] == ' ');
    let sp = open - 1;
    lemma_digit_run_exact(f, t + 2, sp);
    let vlo = t + 2;
    assert(f[vlo - 1] == 'T' && f[vlo - 2] == ' ');
    assert(spec_parse(f) == Some(
        RawName {
            title: f.subrange(0, vlo - 2),
            volume: Some(f.subrange(vlo, sp)),
            authors: f.subrange(open + 1, close),
            year: f.subrange(tlo - 7, tlo - 3),
            width: f.subrange(wlo, e - 1),
        },
    ));
}

/// Round trip of the one-shot grammar: a name built without a volume
/// segment reads back with `volume` absent and the same substrings.
pub proof fn lemma_oneshot_round_trip(
    title: Seq<char>,
    authors: Seq<char>,
    year: Seq<char>,
    tag: Seq<char>,
    width: Seq<char>,
)
    requires
        title.len() >= 1,
        !has_volume_suffix(title),
        authors.len() >= 1,
        forall|i: int| 0 <= i < authors.len() ==> authors[i] != '(',
        year.len() == 4,
        all_digits(year),
        tag.len() >= 1,
        all_word(tag),
        width.len() >= 1,
        all_digits(width),
    ensures
        spec_parse(oneshot_chars(title, authors, year, tag, width)) == Some(
            RawName { title, volume: None, authors, year, width },
        ),
{
    let f = oneshot_chars(title, authors, year, tag, width);
    let t = title.len() as int;
    let a = authors.len() as int;
    let g = tag.len() as int;
    let w = width.len() as int;
    let n = f.len() as int;
    assert(n == t + a + g + w + 18);
    assert(f.subrange(0, t) =~= title);
    assert(f.subrange(t + 2, t + 2 + a) =~= authors);
    assert(f.subrange(t + 5 + a, t + 9 + a) =~= year);
    assert(f.subrange(t + 12 + a, t + 12 + a + g) =~= tag);
    assert(f.subrange(t + 13 + a + g, t + 13 + a + g + w) =~= width);
    assert(f[t] == ' ' && f[t + 1] == '(');
    assert(f[t + 2 + a] == ')' && f[t + 3 + a] == ' ' && f[t + 4 + a] == '(');
    assert(f[t + 9 + a] == ')' && f[t + 10 + a] == ' ' && f[t + 11 + a] == '[');
    assert(f[t + 12 + a + g] == '-');
    assert(f[n - 5] == ']' && f[n - 4] == '.' && f[n - 3] == 'c' && f[n - 2] == 'b' && f[n - 1]
        == 'z');
    let e = n - 4;
    lemma_digit_run_exact(f, t + 13 + a + g, e - 1);
    let wlo = t + 13 + a + g;
    lemma_word_run_exact(f, t + 12 + a, wlo - 1);
    let tlo = t + 12 + a;
    assert(all_digits(f.subrange(tlo - 7, tlo - 3)));
    let close = tlo - 10;
    assert forall|i: int| t + 1 < i < close - 1 implies f[i] != '(' by {
        assert(f[i] == authors[i - (t + 2)]);
    }
    lemma_last_open_exact(f, t + 1, close - 1);
    let open = t + 1;
    assert(f[open - 1] == ' ');
    let sp = open - 1;
    lemma_digit_run_prefix(f, title, sp);
    assert forall|i: int| 0 <= i < t implies f[i] == title[i] by {}
    let vlo = digit_run_lo(f, sp);
    assert(!(vlo < sp && vlo >= 3 && f[vlo - 1] == 'T' && f[vlo - 2] == ' ')) by {
        if vlo < sp && vlo >= 3 && f[vlo - 1] == 'T' && f[vlo - 2] == ' ' {
            assert(has_volume_suffix(title));
        }
    }
    assert(spec_parse(f) == Some(
        RawName {
            title: f.subrange(0, sp),
            volume: None,
            authors: f.subrange(open + 1, close),
            year: f.subrange(tlo - 7, tlo - 3),
            width: f.subrange(wlo, e - 1),
        },
    ));
}

} // verus!
