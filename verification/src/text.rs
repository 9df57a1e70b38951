//! Text utilities: character access, Unicode lowercasing, whitespace
//! trimming, and the transliteration folding used to compare author names
//! coming from different romanization conventions.

use vstd::prelude::*;
use vstd::string::*;

verus! {

/// What `str::to_lowercase` returns for a given character sequence: a pure
/// function of the characters alone.
pub uninterp spec fn lower_of(s: Seq<char>) -> Seq<char>;

/// Relies on `str::to_lowercase` (std): Unicode lowercasing, a deterministic
/// function of the input characters alone.
#[verifier::external_body]
pub(crate) fn lowercase(s: &str) -> (r: String)
    ensures
        r@ == lower_of(s@),
{
    s.to_lowercase()
}

/// Relies on `String::push` (std): appends exactly the given character.
#[verifier::external_body]
fn push_char(s: &mut String, c: char)
    ensures
        final(s)@ == old(s)@.push(c),
{
    s.push(c);
}

/// The characters of a string slice, in order.
pub fn chars_of(s: &str) -> (v: Vec<char>)
    ensures
        v@ == s@,
{
    let n = s.unicode_len();
    let mut v: Vec<char> = Vec::new();
    let mut i: usize = 0;
    while i < n
        invariant
            i <= n,
            n == s@.len(),
            v@ == s@.subrange(0, i as int),
        decreases n - i,
    {
        v.push(s.get_char(i));
        i += 1;
        proof {
            assert(v@ =~= s@.subrange(0, i as int));
        }
    }
    proof {
        assert(v@ =~= s@);
    }
    v
}

/// A string holding exactly the given characters.
pub fn string_of(v: &Vec<char>) -> (r: String)
    ensures
        r@ == v@,
{
    let mut r = String::new();
    let mut i: usize = 0;
    while i < v.len()
        invariant
            i <= v@.len(),
            r@ == v@.subrange(0, i as int),
        decreases v@.len() - i,
    {
        push_char(&mut r, v[i]);
        i += 1;
        proof {
            assert(r@ =~= v@.subrange(0, i as int));
        }
    }
    proof {
        assert(r@ =~= v@);
    }
    r
}

/// Whitespace characters recognized when trimming text scraped from a page:
/// ASCII whitespace and the no-break space common in HTML.
pub open spec fn is_space(c: char) -> bool {
    c == ' ' || c == '\t' || c == '\n' || c == '\r' || c == '\u{b}' || c == '\u{c}' || c
        == '\u{a0}'
}

/// `s` without its leading whitespace.
pub open spec fn trim_front(s: Seq<char>) -> Seq<char>
    decreases s.len(),
{
    if s.len() > 0 && is_space(s[0]) {
        trim_front(s.skip(1))
    } else {
        s
    }
}

/// `s` without its trailing whitespace.
pub open spec fn trim_back(s: Seq<char>) -> Seq<char>
    decreases s.len(),
{
    if s.len() > 0 && is_space(s.last()) {
        trim_back(s.drop_last())
    } else {
        s
    }
}

/// `s` without leading and trailing whitespace.
pub open spec fn trimmed(s: Seq<char>) -> Seq<char> {
    trim_back(trim_front(s))
}

pub fn is_space_exec(c: char) -> (r: bool)
    ensures
        r == is_space(c),
{
    c == ' ' || c == '\t' || c == '\n' || c == '\r' || c == '\u{b}' || c == '\u{c}' || c
        == '\u{a0}'
}

/// The characters of `v` without leading and trailing whitespace.
pub fn trim_chars(v: &Vec<char>) -> (r: Vec<char>)
    ensures
        r@ == trimmed(v@),
{
    let mut lo: usize = 0;
    proof {
        assert(v@.skip(0) =~= v@);
    }
    while lo < v.len() && is_space_exec(v[lo])
        invariant
            lo <= v@.len(),
            trim_front(v@) == trim_front(v@.skip(lo as int)),
        decreases v@.len() - lo,
    {
        proof {
            assert(v@.skip(lo as int).skip(1) =~= v@.skip(lo as int + 1));
        }
        lo += 1;
    }
    proof {
        assert(trim_front(v@) == v@.skip(lo as int));
    }
    let mut hi: usize = v.len();
    while hi > lo && is_space_exec(v[hi - 1])
        invariant
            lo <= hi <= v@.len(),
            trim_front(v@) == v@.skip(lo as int),
            trim_back(v@.skip(lo as int)) == trim_back(v@.subrange(lo as int, hi as int)),
        decreases hi,
    {
        proof {
            assert(v@.subrange(lo as int, hi as int).drop_last() =~= v@.subrange(
                lo as int,
                hi as int - 1,
            ));
        }
        hi -= 1;
    }
    let mut r: Vec<char> = Vec::new();
    let mut i: usize = lo;
    while i < hi
        invariant
            lo <= i <= hi <= v@.len(),
            r@ == v@.subrange(lo as int, i as int),
        decreases hi - i,
    {
        r.push(v[i]);
        i += 1;
        proof {
            assert(r@ =~= v@.subrange(lo as int, i as int));
        }
    }
    proof {
        if hi > lo {
            assert(!is_space(v@.subrange(lo as int, hi as int).last()));
        }
        assert(trim_back(v@.subrange(lo as int, hi as int)) == v@.subrange(lo as int, hi as int));
    }
    r
}

/// `s` with every occurrence of the character `c` removed.
pub open spec fn removed(s: Seq<char>, c: char) -> Seq<char>
    decreases s.len(),
{
    if s.len() == 0 {
        s
    } else if s[0] == c {
        removed(s.skip(1), c)
    } else {
        seq![s[0]] + removed(s.skip(1), c)
    }
}

/// The characters of `v` with every occurrence of `c` removed.
pub fn remove_char(v: &Vec<char>, c: char) -> (r: Vec<char>)
    ensures
        r@ == removed(v@, c),
{
    let mut r: Vec<char> = Vec::new();
    let mut i: usize = 0;
    proof {
        assert(v@.skip(0) =~= v@);
        assert(r@ + removed(v@, c) =~= removed(v@, c));
    }
    while i < v.len()
        invariant
            i <= v@.len(),
            removed(v@, c) == r@ + removed(v@.skip(i as int), c),
        decreases v@.len() - i,
    {
        proof {
            assert(v@.skip(i as int).skip(1) =~= v@.skip(i as int + 1));
            assert(v@.skip(i as int)[0] == v@[i as int]);
        }
        if v[i] != c {
            r.push(v[i]);
            proof {
                assert(r@ + removed(v@.skip(i as int + 1), c) =~= r@.drop_last() + (seq![
                    v@[i as int],
                ] + removed(v@.skip(i as int + 1), c)));
            }
        }
        i += 1;
    }
    proof {
        assert(v@.skip(v@.len() as int) =~= Seq::<char>::empty());
        assert(r@ + Seq::<char>::empty() =~= r@);
    }
    r
}

/// The characters `v[from..to]`, as a fresh vector.
pub fn sub_chars(v: &Vec<char>, from: usize, to: usize) -> (r: Vec<char>)
    requires
        from <= to <= v@.len(),
    ensures
        r@ == v@.subrange(from as int, to as int),
{
    let mut r: Vec<char> = Vec::new();
    let mut i: usize = from;
    while i < to
        invariant
            from <= i <= to <= v@.len(),
            r@ == v@.subrange(from as int, i as int),
        decreases to - i,
    {
        r.push(v[i]);
        i += 1;
        proof {
            assert(r@ =~= v@.subrange(from as int, i as int));
        }
    }
    r
}

/// Whether `p` is a prefix of `s`.
pub open spec fn is_prefix_of(p: Seq<char>, s: Seq<char>) -> bool {
    p.len() <= s.len() && s.subrange(0, p.len() as int) == p
}

/// Whether the characters of `p` are a prefix of the characters of `s`.
pub fn starts_with_chars(s: &Vec<char>, p: &Vec<char>) -> (r: bool)
    ensures
        r == is_prefix_of(p@, s@),
{
    if p.len() > s.len() {
        return false;
    }
    let mut i: usize = 0;
    while i < p.len()
        invariant
            i <= p@.len() <= s@.len(),
            forall|j: int| 0 <= j < i ==> s@[j] == p@[j],
        decreases p@.len() - i,
    {
        if s[i] != p[i] {
            proof {
                assert(s@.subrange(0, p@.len() as int)[i as int] == s@[i as int]);
            }
            return false;
        }
        i += 1;
    }
    proof {
        assert(s@.subrange(0, p@.len() as int) =~= p@);
    }
    true
}

/// Whether the two character vectors hold the same characters.
pub fn eq_chars(a: &Vec<char>, b: &Vec<char>) -> (r: bool)
    ensures
        r == (a@ == b@),
{
    if a.len() != b.len() {
        proof {
            assert(a@ != b@);
        }
        return false;
    }
    let mut i: usize = 0;
    while i < a.len()
        invariant
            i <= a@.len(),
            a@.len() == b@.len(),
            forall|j: int| 0 <= j < i ==> a@[j] == b@[j],
        decreases a@.len() - i,
    {
        if a[i] != b[i] {
            return false;
        }
        i += 1;
    }
    proof {
        assert(a@ =~= b@);
    }
    true
}

/// How one lowercased character is respelled before author names are
/// compared: long or circumflexed vowels fold to doubled plain vowels, and
/// long `o` to the `ou` romanization.
pub open spec fn respelled(c: char) -> Seq<char> {
    if c == '\u{101}' || c == '\u{e2}' {
        seq!['a', 'a']
    } else if c == '\u{16b}' || c == '\u{fb}' {
        seq!['u', 'u']
    } else if c == '\u{113}' || c == '\u{ea}' {
        seq!['e', 'e']
    } else if c == '\u{14d}' || c == '\u{f4}' {
        seq!['o', 'u']
    } else {
        seq![c]
    }
}

/// `s` with every character respelled.
pub open spec fn respell_all(s: Seq<char>) -> Seq<char>
    decreases s.len(),
{
    if s.len() == 0 {
        s
    } else {
        respelled(s[0]) + respell_all(s.skip(1))
    }
}

/// A left-to-right pass replacing each non-overlapping `oo` pair with `ou`,
/// the common alternate romanization.
pub open spec fn fold_double_o(s: Seq<char>) -> Seq<char>
    decreases s.len(),
{
    if s.len() < 2 {
        s
    } else if s[0] == 'o' && s[1] == 'o' {
        seq!['o', 'u'] + fold_double_o(s.skip(2))
    } else {
        seq![s[0]] + fold_double_o(s.skip(1))
    }
}

/// The normal form an author list is compared under: lowercased, long and
/// circumflexed vowels doubled, and `oo` folded to `ou`.
pub open spec fn author_normal_form(s: Seq<char>) -> Seq<char> {
    fold_double_o(respell_all(lower_of(s)))
}

fn respelled_exec(c: char) -> (r: Vec<char>)
    ensures
        r@ == respelled(c),
{
    let mut r: Vec<char> = Vec::new();
    if c == '\u{101}' || c == '\u{e2}' {
        r.push('a');
        r.push('a');
    } else if c == '\u{16b}' || c == '\u{fb}' {
        r.push('u');
        r.push('u');
    } else if c == '\u{113}' || c == '\u{ea}' {
        r.push('e');
        r.push('e');
    } else if c == '\u{14d}' || c == '\u{f4}' {
        r.push('o');
        r.push('u');
    } else {
        r.push(c);
    }
    proof {
        assert(r@ =~= respelled(c));
    }
    r
}

fn respell_all_exec(v: &Vec<char>) -> (r: Vec<char>)
    ensures
        r@ == respell_all(v@),
{
    let mut r: Vec<char> = Vec::new();
    let mut i: usize = 0;
    proof {
        assert(v@.skip(0) =~= v@);
        assert(r@ + respell_all(v@) =~= respell_all(v@));
    }
    while i < v.len()
        invariant
            i <= v@.len(),
            respell_all(v@) == r@ + respell_all(v@.skip(i as int)),
        decreases v@.len() - i,
    {
        proof {
            assert(v@.skip(i as int).skip(1) =~= v@.skip(i as int + 1));
            assert(v@.skip(i as int)[0] == v@[i as int]);
        }
        let ghost prev = r@;
        let mut e = respelled_exec(v[i]);
        r.append(&mut e);
        proof {
            assert(r@ + respell_all(v@.skip(i as int + 1)) =~= prev + (respelled(v@[i as int])
                + respell_all(v@.skip(i as int + 1))));
        }
        i += 1;
    }
    proof {
        assert(v@.skip(v@.len() as int) =~= Seq::<char>::empty());
        assert(r@ + Seq::<char>::empty() =~= r@);
    }
    r
}

fn fold_double_o_exec(v: &Vec<char>) -> (r: Vec<char>)
    ensures
        r@ == fold_double_o(v@),
{
    let mut r: Vec<char> = Vec::new();
    let mut i: usize = 0;
    proof {
        assert(v@.skip(0) =~= v@);
        assert(r@ + fold_double_o(v@) =~= fold_double_o(v@));
    }
    while i < v.len()
        invariant
            i <= v@.len(),
            fold_double_o(v@) == r@ + fold_double_o(v@.skip(i as int)),
        decreases v@.len() - i,
    {
        proof {
            assert(v@.skip(i as int)[0] == v@[i as int]);
            if i + 1 < v@.len() {
                assert(v@.skip(i as int)[1] == v@[i as int + 1]);
            }
        }
        let ghost prev = r@;
        if v[i] == 'o' && i + 1 < v.len() && v[i + 1] == 'o' {
            r.push('o');
            r.push('u');
            proof {
                assert(v@.skip(i as int).skip(2) =~= v@.skip(i as int + 2));
                assert(r@ + fold_double_o(v@.skip(i as int + 2)) =~= prev + (seq!['o', 'u']
                    + fold_double_o(v@.skip(i as int + 2))));
            }
            i += 2;
        } else {
            r.push(v[i]);
            proof {
                assert(v@.skip(i as int).skip(1) =~= v@.skip(i as int + 1));
                assert(r@ + fold_double_o(v@.skip(i as int + 1)) =~= prev + (seq![v@[i as int]]
                    + fold_double_o(v@.skip(i as int + 1))));
            }
            i += 1;
        }
    }
    proof {
        assert(v@.skip(v@.len() as int) =~= Seq::<char>::empty());
        assert(r@ + Seq::<char>::empty() =~= r@);
    }
    r
}

/// The author-comparison normal form of `s`: total and deterministic.
pub fn normalize(s: &str) -> (r: String)
    ensures
        r@ == author_normal_form(s@),
{
    let low = lowercase(s);
    let v = chars_of(low.as_str());
    let e = respell_all_exec(&v);
    let f = fold_double_o_exec(&e);
    string_of(&f)
}

} // verus!
