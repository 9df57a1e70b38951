//! The federated-search client: a rotating pool of mirror endpoints with a
//! blacklist and a bounded retry budget, the scoped query built for them,
//! the filtering of result links down to catalog book pages, and the
//! book-identity predicate run on each candidate page.
//!
//! The surrounding program performs every fetch; the decisions — which
//! mirror to ask next, whether an attempt is left, which links are
//! candidates, whether a page is the requested book — are made here.

use crate::digits::{dec_digits, dec_val, is_digit, parse_dec};
use crate::order::seq_contains;
use crate::page::label_at;
use crate::page::label_at_exec;
use crate::text::{chars_of, starts_with_chars, string_of, is_prefix_of};
use vstd::prelude::*;
use vstd::string::StringExecFns;

verus! {

/// How many submissions a single resolution may make before the last
/// transport error surfaces.
pub const ATTEMPT_BUDGET: u8 = 10;

/// The sequence views of a list of strings.
pub open spec fn str_views(v: Seq<String>) -> Seq<Seq<char>> {
    Seq::new(v.len(), |i: int| v[i]@)
}

/// One entry of the externally fetched mirror list, as plain values.
pub struct MirrorStatus {
    pub url: String,
    pub normal_network: bool,
    pub status_code: Option<u16>,
}

/// What joining a mirror's base address with its search path yields, or
/// nothing when the base cannot carry a path: a function of the base alone.
pub uninterp spec fn search_endpoint_of(base: Seq<char>) -> Option<Seq<char>>;

/// Relies on url's `Url::join`: the mirror's search endpoint, resolved
/// against its base address, a deterministic function of the base.
#[verifier::external_body]
fn join_search(base: &str) -> (r: Option<String>)
    ensures
        match r {
            Some(u) => search_endpoint_of(base@) == Some(u@),
            None => search_endpoint_of(base@) is None,
        },
{
    let u = match url::Url::parse(base) {
        Ok(u) => u,
        Err(_) => return None,
    };
    match u.join("search") {
        Ok(j) => Some(String::from(j)),
        Err(_) => None,
    }
}

/// The usable search endpoints of a fetched mirror list: mirrors on the
/// ordinary network answering 200, not blacklisted, each resolved to its
/// search endpoint (one whose base cannot carry the path is dropped).
pub open spec fn select_spec(items: Seq<MirrorStatus>, blacklist: Seq<Seq<char>>) -> Seq<Seq<char>>
    decreases items.len(),
{
    if items.len() == 0 {
        Seq::empty()
    } else {
        let m = items[0];
        let rest = select_spec(items.skip(1), blacklist);
        if m.normal_network && m.status_code == Some(200u16) && !seq_contains(blacklist, m.url@) {
            match search_endpoint_of(m.url@) {
                Some(u) => seq![u] + rest,
                None => rest,
            }
        } else {
            rest
        }
    }
}

fn opt_u16_eq(a: Option<u16>, b: Option<u16>) -> (r: bool)
    ensures
        r == (a == b),
{
    match (a, b) {
        (None, None) => true,
        (Some(x), Some(y)) => x == y,
        _ => false,
    }
}

fn in_list(list: &Vec<String>, x: &String) -> (r: bool)
    ensures
        r == seq_contains(str_views(list@), x@),
{
    let mut i: usize = 0;
    while i < list.len()
        invariant
            i <= list@.len(),
            forall|j: int| 0 <= j < i ==> str_views(list@)[j] != x@,
        decreases list@.len() - i,
    {
        if list[i].eq(x) {
            proof {
                assert(str_views(list@)[i as int] == x@);
            }
            return true;
        }
        i += 1;
    }
    false
}

/// Filters a fetched mirror list down to its usable search endpoints.
pub fn select_mirrors(items: &Vec<MirrorStatus>, blacklist: &Vec<String>) -> (r: Vec<String>)
    ensures
        str_views(r@) == select_spec(items@, str_views(blacklist@)),
{
    let ghost bl = str_views(blacklist@);
    let mut r: Vec<String> = Vec::new();
    let mut i: usize = 0;
    proof {
        assert(items@.skip(0) =~= items@);
        assert(str_views(r@) =~= Seq::<Seq<char>>::empty());
    }
    while i < items.len()
        invariant
            i <= items@.len(),
            bl == str_views(blacklist@),
            select_spec(items@, bl) == str_views(r@) + select_spec(items@.skip(i as int), bl),
        decreases items@.len() - i,
    {
        proof {
            assert(items@.skip(i as int)[0] == items@[i as int]);
            assert(items@.skip(i as int).skip(1) =~= items@.skip(i as int + 1));
        }
        let ghost prev = r@;
        let m = &items[i];
        if m.normal_network && opt_u16_eq(m.status_code, Some(200)) && !in_list(blacklist, &m.url) {
            match join_search(m.url.as_str()) {
                Some(u) => {
                    r.push(u);
                    proof {
                        assert forall|k: int|
                            0 <= k < r@.len() implies str_views(r@)[k] == (str_views(prev) + seq![
                            search_endpoint_of(m.url@)->Some_0,
                        ])[k] by {
                            if k < prev.len() {
                                assert(r@[k] == prev[k]);
                            }
                        }
                        assert(str_views(r@) =~= str_views(prev) + seq![
                            search_endpoint_of(m.url@)->Some_0,
                        ]);
                        assert(str_views(r@) + select_spec(items@.skip(i as int + 1), bl)
                            =~= str_views(prev) + (seq![search_endpoint_of(m.url@)->Some_0]
                            + select_spec(items@.skip(i as int + 1), bl)));
                    }
                },
                None => {},
            }
        }
        i += 1;
    }
    proof {
        assert(select_spec(items@.skip(items@.len() as int), bl) =~= Seq::<Seq<char>>::empty());
        assert(str_views(r@) + Seq::<Seq<char>>::empty() =~= str_views(r@));
    }
    r
}

/// Characters stripped from a title before it becomes a query: the ones
/// that would be read as query syntax by a mirror.
pub open spec fn is_query_unsafe(c: char) -> bool {
    c == '"' || c == '&' || c == '?' || c == '#' || c == '%' || c == '+'
}

/// `s` without its query-unsafe characters.
pub open spec fn query_sanitized(s: Seq<char>) -> Seq<char>
    decreases s.len(),
{
    if s.len() == 0 {
        s
    } else if is_query_unsafe(s[0]) {
        query_sanitized(s.skip(1))
    } else {
        seq![s[0]] + query_sanitized(s.skip(1))
    }
}

/// The fixed qualifier scoping a federated query to the catalog site.
pub open spec fn site_scope() -> Seq<char> {
    " site:bedetheque.com"@
}

/// The scoped query submitted to a mirror: the sanitized title, the volume
/// marker when a volume is requested, and the site-scope qualifier.
pub open spec fn query_of(title: Seq<char>, volume: Option<u8>) -> Seq<char> {
    let base = query_sanitized(title);
    let with_vol = match volume {
        Some(v) => base + seq![' ', 'T'] + dec_digits(v as nat),
        None => base,
    };
    with_vol + site_scope()
}

/// Builds the scoped query for a title and an optional volume.
pub fn build_query(title: &str, volume: Option<u8>) -> (r: String)
    ensures
        r@ == query_of(title@, volume),
{
    let tv = chars_of(title);
    let mut q: Vec<char> = Vec::new();
    let mut i: usize = 0;
    proof {
        assert(tv@.skip(0) =~= tv@);
        assert(q@ + query_sanitized(tv@) =~= query_sanitized(tv@));
    }
    while i < tv.len()
        invariant
            i <= tv@.len(),
            tv@ == title@,
            query_sanitized(tv@) == q@ + query_sanitized(tv@.skip(i as int)),
        decreases tv@.len() - i,
    {
        proof {
            assert(tv@.skip(i as int)[0] == tv@[i as int]);
            assert(tv@.skip(i as int).skip(1) =~= tv@.skip(i as int + 1));
        }
        let ghost prev = q@;
        let c = tv[i];
        if !(c == '"' || c == '&' || c == '?' || c == '#' || c == '%' || c == '+') {
            q.push(c);
            proof {
                assert(q@ + query_sanitized(tv@.skip(i as int + 1)) =~= prev + (seq![tv@[i as int]]
                    + query_sanitized(tv@.skip(i as int + 1))));
            }
        }
        i += 1;
    }
    proof {
        assert(query_sanitized(tv@.skip(tv@.len() as int)) =~= Seq::<char>::empty());
        assert(q@ + Seq::<char>::empty() =~= q@);
    }
    let mut s = string_of(&q);
    match volume {
        Some(v) => {
            s.append(" T");
            let d = crate::digits::render_u64(v as u64);
            let ds = string_of(&d);
            s.append(ds.as_str());
            proof {
                reveal_strlit(" T");
                assert(s@ =~= query_sanitized(title@) + seq![' ', 'T'] + dec_digits(v as nat));
            }
        },
        None => {},
    }
    s.append(" site:bedetheque.com");
    proof {
        assert(s@ =~= query_of(title@, volume));
    }
    s
}

/// What forcing a link's host to the canonical catalog domain yields, or
/// nothing when the link does not parse or cannot carry a host: a function
/// of the link text alone.
pub uninterp spec fn canonical_host_of(link: Seq<char>) -> Option<Seq<char>>;

/// Relies on url's `Url::parse` and `Url::set_host`: the link rewritten to
/// the canonical catalog domain (bypassing mobile-redirect variants), a
/// deterministic function of the link text.
#[verifier::external_body]
fn force_canonical_host(link: &str) -> (r: Option<String>)
    ensures
        match r {
            Some(u) => canonical_host_of(link@) == Some(u@),
            None => canonical_host_of(link@) is None,
        },
{
    let mut u = match url::Url::parse(link) {
        Ok(u) => u,
        Err(_) => return None,
    };
    match u.set_host(Some("www.bedetheque.com")) {
        Ok(()) => Some(String::from(u)),
        Err(_) => None,
    }
}

/// The fixed prefix of a catalog book page's address.
pub open spec fn book_page_prefix() -> Seq<char> {
    "https://www.bedetheque.com/BD-"@
}

/// The candidate book pages among a mirror's result links: each link is
/// rewritten to the canonical host, and kept when it then starts with the
/// book-page prefix, in result order.
pub open spec fn candidate_links(links: Seq<Seq<char>>) -> Seq<Seq<char>>
    decreases links.len(),
{
    if links.len() == 0 {
        Seq::empty()
    } else {
        let rest = candidate_links(links.skip(1));
        match canonical_host_of(links[0]) {
            Some(u) => if is_prefix_of(book_page_prefix(), u) {
                seq![u] + rest
            } else {
                rest
            },
            None => rest,
        }
    }
}

/// Filters a mirror's result links down to candidate book pages.
pub fn book_candidates(links: &Vec<String>) -> (r: Vec<String>)
    ensures
        str_views(r@) == candidate_links(str_views(links@)),
{
    let ghost lv = str_views(links@);
    let mut prefix = chars_of("https://www.bedetheque.com/BD-");
    proof {
        reveal_strlit("https://www.bedetheque.com/BD-");
    }
    let mut r: Vec<String> = Vec::new();
    let mut i: usize = 0;
    proof {
        assert(lv.skip(0) =~= lv);
        assert(str_views(r@) =~= Seq::<Seq<char>>::empty());
        assert(str_views(r@) + candidate_links(lv) =~= candidate_links(lv));
    }
    while i < links.len()
        invariant
            i <= links@.len(),
            lv == str_views(links@),
            lv.len() == links@.len(),
            prefix@ == book_page_prefix(),
            candidate_links(lv) == str_views(r@) + candidate_links(lv.skip(i as int)),
        decreases links@.len() - i,
    {
        proof {
            assert(lv.skip(i as int)[0] == lv[i as int]);
            assert(lv[i as int] == links@[i as int]@);
            assert(lv.skip(i as int).skip(1) =~= lv.skip(i as int + 1));
        }
        let ghost prev = r@;
        match force_canonical_host(links[i].as_str()) {
            Some(u) => {
                let uv = chars_of(u.as_str());
                if starts_with_chars(&uv, &prefix) {
                    let ghost uview = u@;
                    r.push(u);
                    proof {
                        assert forall|k: int|
                            0 <= k < r@.len() implies str_views(r@)[k] == (str_views(prev) + seq![
                            uview,
                        ])[k] by {
                            if k < prev.len() {
                                assert(r@[k] == prev[k]);
                            }
                        }
                        assert(str_views(r@) =~= str_views(prev) + seq![uview]);
                        assert(str_views(r@) + candidate_links(lv.skip(i as int + 1)) =~= str_views(
                            prev,
                        ) + (seq![uview] + candidate_links(lv.skip(i as int + 1))));
                    }
                }
            },
            None => {},
        }
        i += 1;
    }
    proof {
        assert(candidate_links(lv.skip(lv.len() as int)) =~= Seq::<Seq<char>>::empty());
        assert(str_views(r@) + Seq::<Seq<char>>::empty() =~= str_views(r@));
    }
    r
}

/// The fixed marker whose presence says a candidate page shows the right
/// medium and format.
pub open spec fn medium_marker() -> Seq<char> {
    seq!['U', 'n', 'e', ' ', 'B', 'D', ' ', 'd', 'e']
}

/// The label a volume marker starts with.
pub open spec fn tome_label() -> Seq<char> {
    seq!['T', 'o', 'm', 'e', ' ']
}

/// End of the digit run of `s` starting at `j`.
pub open spec fn digit_run_end(s: Seq<char>, j: int) -> int
    decreases s.len() - j,
{
    if 0 <= j < s.len() && is_digit(s[j]) {
        digit_run_end(s, j + 1)
    } else {
        j
    }
}

/// Whether a volume marker for volume `v` starts at `i`: the label, then a
/// nonempty maximal digit run reading as `v`.
pub open spec fn tome_at(s: Seq<char>, i: int, v: u8) -> bool {
    label_at(s, i, tome_label()) && ({
        let j = i + tome_label().len();
        let k = digit_run_end(s, j);
        k > j && dec_val(s.subrange(j, k)) == v as nat
    })
}

/// Whether the marker `lab` occurs anywhere in `s`.
pub open spec fn contains_label(s: Seq<char>, lab: Seq<char>) -> bool {
    exists|i: int| label_at(s, i, lab)
}

/// Whether a volume marker for `v` occurs anywhere in `s`.
pub open spec fn contains_tome(s: Seq<char>, v: u8) -> bool {
    exists|i: int| tome_at(s, i, v)
}

/// The book-identity predicate: the page text must show the medium marker,
/// and, when a volume is requested, a volume marker carrying that number.
pub open spec fn page_identifies(text: Seq<char>, volume: Option<u8>) -> bool {
    contains_label(text, medium_marker()) && match volume {
        Some(v) => contains_tome(text, v),
        None => true,
    }
}

fn medium_marker_exec() -> (r: Vec<char>)
    ensures
        r@ == medium_marker(),
{
    let mut r: Vec<char> = Vec::new();
    r.push('U');
    r.push('n');
    r.push('e');
    r.push(' ');
    r.push('B');
    r.push('D');
    r.push(' ');
    r.push('d');
    r.push('e');
    proof {
        assert(r@ =~= medium_marker());
    }
    r
}

fn tome_label_exec() -> (r: Vec<char>)
    ensures
        r@ == tome_label(),
{
    let mut r: Vec<char> = Vec::new();
    r.push('T');
    r.push('o');
    r.push('m');
    r.push('e');
    r.push(' ');
    proof {
        assert(r@ =~= tome_label());
    }
    r
}

fn find_label(v: &Vec<char>, lab: &Vec<char>) -> (r: bool)
    requires
        lab@.len() > 0,
    ensures
        r == contains_label(v@, lab@),
{
    let mut i: usize = 0;
    while i < v.len()
        invariant
            i <= v@.len(),
            forall|j: int| 0 <= j < i ==> !label_at(v@, j, lab@),
        decreases v@.len() - i,
    {
        if label_at_exec(v, i, lab) {
            return true;
        }
        i += 1;
    }
    proof {
        assert forall|j: int| !label_at(v@, j, lab@) by {
            if j >= v@.len() {
                assert(j + lab@.len() > v@.len());
            }
        }
    }
    false
}

fn digit_run_end_exec(v: &Vec<char>, j: usize) -> (k: usize)
    requires
        j <= v@.len(),
    ensures
        k as int == digit_run_end(v@, j as int),
        j <= k <= v@.len(),
{
    let mut k = j;
    while k < v.len() && ('0' <= v[k] && v[k] <= '9')
        invariant
            j <= k <= v@.len(),
            digit_run_end(v@, j as int) == digit_run_end(v@, k as int),
        decreases v@.len() - k,
    {
        k += 1;
    }
    k
}

fn find_tome(v: &Vec<char>, volume: u8) -> (r: bool)
    ensures
        r == contains_tome(v@, volume),
{
    let lab = tome_label_exec();
    let mut i: usize = 0;
    while i < v.len()
        invariant
            i <= v@.len(),
            lab@ == tome_label(),
            forall|j: int| 0 <= j < i ==> !tome_at(v@, j, volume),
        decreases v@.len() - i,
    {
        if label_at_exec(v, i, &lab) {
            let j = i + 5;
            let k = digit_run_end_exec(v, j);
            if k > j {
                proof {
                    lemma_digit_run_fwd(v@, j as int);
                }
                match parse_dec(v, j, k, 255) {
                    Some(n) => {
                        if n == volume as u64 {
                            proof {
                                assert(tome_at(v@, i as int, volume));
                            }
                            return true;
                        }
                        proof {
                            assert(!tome_at(v@, i as int, volume));
                        }
                    },
                    None => {
                        proof {
                            assert(!tome_at(v@, i as int, volume));
                        }
                    },
                }
            } else {
                proof {
                    assert(!tome_at(v@, i as int, volume));
                }
            }
        } else {
            proof {
                assert(!tome_at(v@, i as int, volume));
            }
        }
        i += 1;
    }
    proof {
        assert forall|j: int| !tome_at(v@, j, volume) by {
            if j >= v@.len() {
                assert(j + tome_label().len() > v@.len());
            }
        }
    }
    false
}

/// The forward digit run is made of digits.
proof fn lemma_digit_run_fwd(s: Seq<char>, j: int)
    requires
        0 <= j <= s.len(),
    ensures
        j <= digit_run_end(s, j) <= s.len(),
        crate::digits::all_digits(s.subrange(j, digit_run_end(s, j))),
    decreases s.len() - j,
{
    let k = digit_run_end(s, j);
    if j < s.len() && is_digit(s[j]) {
        lemma_digit_run_fwd(s, j + 1);
        assert forall|m: int| 0 <= m < s.subrange(j, k).len() implies is_digit(
            #[trigger] s.subrange(j, k)[m],
        ) by {
            if m == 0 {
                assert(s.subrange(j, k)[0] == s[j]);
            } else {
                assert(s.subrange(j + 1, k)[m - 1] == s.subrange(j, k)[m]);
            }
        }
    }
}

/// Runs the book-identity predicate on a fetched candidate page.
pub fn page_matches(text: &str, volume: Option<u8>) -> (r: bool)
    ensures
        r == page_identifies(text@, volume),
{
    let v = chars_of(text);
    let marker = medium_marker_exec();
    if !find_label(&v, &marker) {
        return false;
    }
    match volume {
        Some(vol) => find_tome(&v, vol),
        None => true,
    }
}

/// The mirror the rotating cursor settles on: starting at `start` (taken
/// cyclically), the first mirror not on the blacklist, within `fuel` steps.
pub open spec fn pick(pool: Seq<Seq<char>>, bl: Seq<Seq<char>>, start: int, fuel: nat) -> Option<
    int,
>
    decreases fuel,
{
    if fuel == 0 || pool.len() == 0 {
        None
    } else {
        let k = start % (pool.len() as int);
        if !seq_contains(bl, pool[k]) {
            Some(k)
        } else {
            pick(pool, bl, start + 1, (fuel - 1) as nat)
        }
    }
}

/// The long-lived federated client: the externally supplied mirror pool,
/// the exclusion set applied before any endpoint is used, and the cursor
/// shared across calls and rotated on every pick.
pub struct MirrorClient {
    pool: Vec<String>,
    blacklist: Vec<String>,
    cursor: usize,
}

impl MirrorClient {
    /// The pool's endpoints.
    pub closed spec fn pool_view(self) -> Seq<Seq<char>> {
        str_views(self.pool@)
    }

    /// The excluded endpoints.
    pub closed spec fn blacklist_view(self) -> Seq<Seq<char>> {
        str_views(self.blacklist@)
    }

    /// Where the rotating cursor stands.
    pub closed spec fn cursor_val(self) -> int {
        self.cursor as int
    }

    /// The cursor stays inside the pool.
    pub closed spec fn wf(self) -> bool {
        if self.pool@.len() == 0 {
            self.cursor == 0
        } else {
            (self.cursor as int) < self.pool@.len()
        }
    }

    /// A fresh client over a pool, with the cursor at the first mirror.
    pub fn new(pool: Vec<String>, blacklist: Vec<String>) -> (c: MirrorClient)
        ensures
            c.wf(),
            c.pool_view() == str_views(pool@),
            c.blacklist_view() == str_views(blacklist@),
            c.cursor_val() == 0,
    {
        MirrorClient { pool, blacklist, cursor: 0 }
    }

    /// Spends one attempt of the retry budget: picks the next mirror from
    /// the cursor onward, skipping blacklisted entries, and advances the
    /// cursor past it. Nothing is returned once the budget is exhausted or
    /// no usable mirror is left; the last transport error then surfaces to
    /// the caller.
    pub fn next_attempt(&mut self, attempts_left: u8) -> (r: Option<(String, u8)>)
        requires
            old(self).wf(),
        ensures
            final(self).wf(),
            final(self).pool_view() == old(self).pool_view(),
            final(self).blacklist_view() == old(self).blacklist_view(),
            ({
                let chosen = pick(
                    old(self).pool_view(),
                    old(self).blacklist_view(),
                    old(self).cursor_val(),
                    old(self).pool_view().len(),
                );
                match r {
                    None => (attempts_left == 0 || chosen is None) && *final(self) == *old(self),
                    Some(p) => {
                        &&& attempts_left > 0
                        &&& chosen is Some
                        &&& p.0@ == old(self).pool_view()[chosen->Some_0]
                        &&& !seq_contains(old(self).blacklist_view(), p.0@)
                        &&& p.1 == attempts_left - 1
                        &&& final(self).cursor_val() == if chosen->Some_0 + 1
                            == old(self).pool_view().len() {
                            0
                        } else {
                            chosen->Some_0 + 1
                        }
                    },
                }
            }),
    {
        if attempts_left == 0 {
            return None;
        }
        let len = self.pool.len();
        if len == 0 {
            return None;
        }
        let ghost pv = self.pool_view();
        let ghost bl = self.blacklist_view();
        let ghost c0 = self.cursor as int;
        let cursor0 = self.cursor;
        let mut step: usize = 0;
        while step < len
            invariant
                attempts_left >= 1,
                step <= len,
                len == self.pool@.len(),
                len >= 1,
                cursor0 < len,
                self == old(self),
                cursor0 == self.cursor,
                pv == self.pool_view(),
                bl == self.blacklist_view(),
                c0 == cursor0 as int,
                pv.len() == len,
                pick(pv, bl, c0, len as nat) == pick(
                    pv,
                    bl,
                    c0 + step,
                    (len - step) as nat,
                ),
            decreases len - step,
        {
            let k = if step < len - cursor0 {
                cursor0 + step
            } else {
                step - (len - cursor0)
            };
            proof {
                assert(k as int == (c0 + step) % (len as int)) by (nonlinear_arith)
                    requires
                        0 <= c0 < len,
                        0 <= step < len,
                        k as int == if c0 + step >= len {
                            c0 + step - len
                        } else {
                            c0 + step
                        },
                ;
                assert(pv[k as int] == self.pool@[k as int]@);
            }
            if !in_list(&self.blacklist, &self.pool[k]) {
                let m = self.pool[k].clone();
                self.cursor = if k + 1 == len {
                    0
                } else {
                    k + 1
                };
                return Some((m, attempts_left - 1));
            }
            step += 1;
        }
        None
    }
}

/// Failover across a three-mirror pool: with nothing blacklisted and the
/// cursor at the first mirror, three consecutive picks visit the three
/// mirrors in order. Two transport failures are thus absorbed by exactly
/// two further attempts, and the third attempt is the one whose answer is
/// used.
pub proof fn lemma_three_mirror_failover(pool: Seq<Seq<char>>, bl: Seq<Seq<char>>)
    requires
        pool.len() == 3,
        forall|i: int| 0 <= i < 3 ==> !seq_contains(bl, #[trigger] pool[i]),
    ensures
        pick(pool, bl, 0, 3) == Some(0int),
        pick(pool, bl, 1, 3) == Some(1int),
        pick(pool, bl, 2, 3) == Some(2int),
{
    assert(0int % 3 == 0 && 1int % 3 == 1 && 2int % 3 == 2);
}

} // verus!
