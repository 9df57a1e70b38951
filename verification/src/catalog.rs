//! The direct catalog client: cache, session-token handshake, search-result
//! selection and batch caching of every candidate link.
//!
//! The client never fetches pages itself: the surrounding program performs
//! each fetch (after the mandated inter-request delay) and hands the page
//! text back to the verified steps here.

use crate::digits::{dec_val, is_numeral};
use crate::text::{chars_of, eq_chars, is_prefix_of, lowercase, lower_of, remove_char, removed,
    starts_with_chars, string_of, trim_chars, trimmed};
use kuchiki::iter::NodeIterator;
use kuchiki::traits::TendrilSink;
use vstd::prelude::*;

verus! {

/// A series lookup key: the exact (not normalized) title, and the volume
/// number, absent for a one-shot. A one-shot and a first volume of the same
/// title are distinct keys.
pub struct SeriesQuery {
    pub title: String,
    pub volume: Option<u8>,
}

impl SeriesQuery {
    /// The mathematical key this query stands for.
    pub open spec fn key(self) -> (Seq<char>, Option<u8>) {
        (self.title@, self.volume)
    }
}

/// Why a catalog resolution failed.
#[derive(Clone, Copy, Debug, PartialEq, Eq, Structural)]
pub enum ClientError {
    /// The home page holds no session token; the search cannot be submitted.
    TokenNotFound,
    /// A candidate link on the results page has no address.
    CandidateUrlMissing,
    /// A candidate link's address does not parse as a URL.
    CandidateUrlInvalid,
    /// A candidate link has no volume badge at all.
    NumberMissing,
    /// A candidate's volume badge does not read as a small number.
    NumberInvalid,
    /// No candidate of the matching tier carries the requested volume.
    NotFound,
}

/// What a stored cache entry looks like, as mathematical values.
pub open spec fn entry_view(e: (SeriesQuery, String)) -> ((Seq<char>, Option<u8>), Seq<char>) {
    (e.0.key(), e.1@)
}

/// The cache contents as a map; a later entry for the same key wins.
pub open spec fn map_of(entries: Seq<(SeriesQuery, String)>) -> Map<
    (Seq<char>, Option<u8>),
    Seq<char>,
>
    decreases entries.len(),
{
    if entries.len() == 0 {
        Map::empty()
    } else {
        map_of(entries.drop_last()).insert(entry_view(entries.last()).0, entry_view(
            entries.last(),
        ).1)
    }
}

/// The long-lived direct-site client: it owns the process-lifetime cache
/// from series queries to catalog page addresses. Never evicted, never
/// persisted.
pub struct Client {
    cache: Vec<(SeriesQuery, String)>,
}

/// What the session token extracted from the home page is: a function of
/// the page text alone.
pub uninterp spec fn csrf_token_of(page: Seq<char>) -> Option<Seq<char>>;

/// Relies on kuchiki's HTML parser and CSS selectors: the `value` attribute
/// of the page's `#csrf` element, a deterministic function of the page text.
#[verifier::external_body]
fn extract_csrf(page: &str) -> (r: Option<String>)
    ensures
        match r {
            Some(s) => csrf_token_of(page@) == Some(s@),
            None => csrf_token_of(page@) is None,
        },
{
    let doc = kuchiki::parse_html().one(page);
    let sel = match kuchiki::Selectors::compile("#csrf") {
        Ok(sel) => sel,
        Err(()) => return None,
    };
    let node = sel.filter(doc.descendants().elements()).next()?;
    let attrs = node.attributes.borrow();
    attrs.get("value").map(str::to_owned)
}

/// What the search address built for a token and a normalized title is: a
/// function of the two alone.
pub uninterp spec fn search_url_of(csrf: Seq<char>, title: Seq<char>) -> Seq<char>;

/// Relies on url's query-pair encoder: the catalog's album-search address
/// carrying the session token, the title and the fixed language filter,
/// a deterministic function of token and title.
#[verifier::external_body]
fn build_search_url(csrf: &str, title: &str) -> (r: String)
    ensures
        r@ == search_url_of(csrf@, title@),
{
    let mut u = match url::Url::parse("https://www.bedetheque.com/search/albums") {
        Ok(u) => u,
        Err(_) => return String::new(),
    };
    u.query_pairs_mut()
        .append_pair("csrf_token_bel", csrf)
        .append_pair("RechSerie", title)
        .append_pair("RechLangue", "Français");
    String::from(u)
}

/// What the candidate links of a results page are: for each `.search-list`
/// link, its address, its series-title text and its volume-badge text, a
/// function of the page text alone.
pub uninterp spec fn candidates_of(page: Seq<char>) -> Seq<
    (Option<Seq<char>>, Option<Seq<char>>, Option<Seq<char>>),
>;

/// The mathematical value of one extracted candidate.
pub open spec fn cand_view(c: (Option<String>, Option<String>, Option<String>)) -> (
    Option<Seq<char>>,
    Option<Seq<char>>,
    Option<Seq<char>>,
) {
    (
        match c.0 {
            Some(s) => Some(s@),
            None => None,
        },
        match c.1 {
            Some(s) => Some(s@),
            None => None,
        },
        match c.2 {
            Some(s) => Some(s@),
            None => None,
        },
    )
}

/// The mathematical values of a list of extracted candidates.
pub open spec fn cand_views(s: Seq<(Option<String>, Option<String>, Option<String>)>) -> Seq<
    (Option<Seq<char>>, Option<Seq<char>>, Option<Seq<char>>),
> {
    Seq::new(s.len(), |i: int| cand_view(s[i]))
}

/// Relies on kuchiki's HTML parser and CSS selectors: one entry per
/// `.search-list li a` element, holding its `href` attribute, the text of
/// its `.serie` descendant and the text of its `.num` descendant, a
/// deterministic function of the page text alone.
#[verifier::external_body]
fn extract_candidates(page: &str) -> (r: Vec<(Option<String>, Option<String>, Option<String>)>)
    ensures
        cand_views(r@) == candidates_of(page@),
{
    let doc = kuchiki::parse_html().one(page);
    let links = kuchiki::Selectors::compile(".search-list li a").unwrap();
    let serie = kuchiki::Selectors::compile(".serie").unwrap();
    let num = kuchiki::Selectors::compile(".num").unwrap();
    links.filter(doc.descendants().elements()).map(|node| (
        node.attributes.borrow().get("href").map(str::to_owned),
        serie.filter(node.as_node().descendants().elements()).next().map(|e| e.text_contents()),
        num.filter(node.as_node().descendants().elements()).next().map(|e| e.text_contents()),
    )).collect()
}

/// What the canonical serialization of an absolute URL is, or nothing when
/// the text does not parse as one: a function of the text alone.
pub uninterp spec fn parsed_url_of(s: Seq<char>) -> Option<Seq<char>>;

/// Relies on url's `Url::parse`: the canonical serialization of the parsed
/// address, a deterministic function of the input text alone.
#[verifier::external_body]
fn parse_url(s: &str) -> (r: Option<String>)
    ensures
        match r {
            Some(u) => parsed_url_of(s@) == Some(u@),
            None => parsed_url_of(s@) is None,
        },
{
    match url::Url::parse(s) {
        Ok(u) => Some(String::from(u)),
        Err(_) => None,
    }
}

/// `s` without its leading `#` marks.
pub open spec fn hash_stripped(s: Seq<char>) -> Seq<char>
    decreases s.len(),
{
    if s.len() > 0 && s[0] == '#' {
        hash_stripped(s.skip(1))
    } else {
        s
    }
}

/// How a volume badge reads: empty text is a one-shot; otherwise the text
/// without its leading `#` marks must be a numeral fitting a `u8`. `None`
/// means the badge is malformed, which aborts the whole selection.
pub open spec fn badge_number(text: Seq<char>) -> Option<Option<u8>> {
    if text.len() == 0 {
        Some(None)
    } else {
        let d = hash_stripped(text);
        if is_numeral(d) && dec_val(d) <= 255 {
            Some(Some(dec_val(d) as u8))
        } else {
            None
        }
    }
}

/// Reads a volume badge's text.
fn parse_badge_number(text: &Vec<char>) -> (r: Option<Option<u8>>)
    ensures
        r == badge_number(text@),
{
    if text.len() == 0 {
        return Some(None);
    }
    let mut i: usize = 0;
    proof {
        assert(text@.skip(0) =~= text@);
    }
    while i < text.len() && text[i] == '#'
        invariant
            i <= text@.len(),
            hash_stripped(text@) == hash_stripped(text@.skip(i as int)),
        decreases text@.len() - i,
    {
        proof {
            assert(text@.skip(i as int)[0] == text@[i as int]);
            assert(text@.skip(i as int).skip(1) =~= text@.skip(i as int + 1));
        }
        i += 1;
    }
    proof {
        if i < text@.len() {
            assert(text@.skip(i as int)[0] == text@[i as int]);
        }
        assert(hash_stripped(text@) == text@.skip(i as int));
        assert(text@.skip(i as int) =~= text@.subrange(i as int, text@.len() as int));
    }
    match crate::digits::parse_dec(text, i, text.len(), 255) {
        Some(n) => Some(Some(n as u8)),
        None => None,
    }
}

/// Whether a candidate's rendered series title matches the queried title:
/// the candidate text loses its `!` marks, is trimmed and lowercased, and
/// must equal the lowercased title (exact tier) or start with it (prefix
/// tier).
pub open spec fn right_series(
    c: (Option<Seq<char>>, Option<Seq<char>>, Option<Seq<char>>),
    title: Seq<char>,
    exact: bool,
) -> bool {
    match c.1 {
        Some(text) => {
            let cleaned = lower_of(trimmed(removed(text, '!')));
            if exact {
                cleaned == lower_of(title)
            } else {
                is_prefix_of(lower_of(title), cleaned)
            }
        },
        None => false,
    }
}

/// The candidates whose series title matches at the given tier, in page
/// order.
pub open spec fn matching(
    cands: Seq<(Option<Seq<char>>, Option<Seq<char>>, Option<Seq<char>>)>,
    title: Seq<char>,
    exact: bool,
) -> Seq<(Option<Seq<char>>, Option<Seq<char>>, Option<Seq<char>>)>
    decreases cands.len(),
{
    if cands.len() == 0 {
        cands
    } else if right_series(cands[0], title, exact) {
        seq![cands[0]] + matching(cands.skip(1), title, exact)
    } else {
        matching(cands.skip(1), title, exact)
    }
}

/// The tier that is used: exact matches if there are any, prefix matches
/// otherwise.
pub open spec fn tier(
    cands: Seq<(Option<Seq<char>>, Option<Seq<char>>, Option<Seq<char>>)>,
    title: Seq<char>,
) -> Seq<(Option<Seq<char>>, Option<Seq<char>>, Option<Seq<char>>)> {
    let ex = matching(cands, title, true);
    if ex.len() > 0 {
        ex
    } else {
        matching(cands, title, false)
    }
}

/// One pass over the selected candidates: each one's address is parsed and
/// cached under its own badge number (batch caching); the last candidate
/// whose number equals the requested volume becomes the result. A candidate
/// without address or badge, or with a malformed one, aborts the pass.
pub open spec fn walk(
    cands: Seq<(Option<Seq<char>>, Option<Seq<char>>, Option<Seq<char>>)>,
    title: Seq<char>,
    volume: Option<u8>,
    cache: Map<(Seq<char>, Option<u8>), Seq<char>>,
    res: Option<Seq<char>>,
) -> (Map<(Seq<char>, Option<u8>), Seq<char>>, Result<Seq<char>, ClientError>)
    decreases cands.len(),
{
    if cands.len() == 0 {
        (
            cache,
            match res {
                Some(u) => Ok(u),
                None => Err(ClientError::NotFound),
            },
        )
    } else {
        let c = cands[0];
        match c.0 {
            None => (cache, Err(ClientError::CandidateUrlMissing)),
            Some(href) => match parsed_url_of(href) {
                None => (cache, Err(ClientError::CandidateUrlInvalid)),
                Some(url) => match c.2 {
                    None => (cache, Err(ClientError::NumberMissing)),
                    Some(ntext) => match badge_number(ntext) {
                        None => (cache, Err(ClientError::NumberInvalid)),
                        Some(num) => walk(
                            cands.skip(1),
                            title,
                            volume,
                            cache.insert((title, num), url),
                            if num == volume {
                                Some(url)
                            } else {
                                res
                            },
                        ),
                    },
                },
            },
        }
    }
}

/// The view of a possible result address.
pub open spec fn opt_str_view(o: Option<String>) -> Option<Seq<char>> {
    match o {
        Some(s) => Some(s@),
        None => None,
    }
}

fn right_series_exec(
    text: &Option<String>,
    title_norm: &Vec<char>,
    exact: bool,
    Ghost(c): Ghost<(Option<Seq<char>>, Option<Seq<char>>, Option<Seq<char>>)>,
    Ghost(title): Ghost<Seq<char>>,
) -> (r: bool)
    requires
        c.1 == opt_str_view(*text),
        title_norm@ == lower_of(title),
    ensures
        r == right_series(c, title, exact),
{
    match text {
        None => false,
        Some(t) => {
            let tv = chars_of(t.as_str());
            let cleaned = remove_char(&tv, '!');
            let tr = trim_chars(&cleaned);
            let s = string_of(&tr);
            let low = lowercase(s.as_str());
            let lv = chars_of(low.as_str());
            if exact {
                eq_chars(&lv, title_norm)
            } else {
                starts_with_chars(&lv, title_norm)
            }
        },
    }
}

fn clone_opt(o: &Option<String>) -> (r: Option<String>)
    ensures
        r == *o,
{
    match o {
        Some(s) => Some(s.clone()),
        None => None,
    }
}

fn opt_u8_eq(a: Option<u8>, b: Option<u8>) -> (r: bool)
    ensures
        r == (a == b),
{
    match (a, b) {
        (None, None) => true,
        (Some(x), Some(y)) => x == y,
        _ => false,
    }
}

impl Client {
    /// The cache contents, as a map from query keys to addresses.
    pub closed spec fn cache_map(self) -> Map<(Seq<char>, Option<u8>), Seq<char>> {
        map_of(self.cache@)
    }

    /// A fresh client with an empty cache.
    pub fn new() -> (c: Client)
        ensures
            c.cache_map() == Map::<(Seq<char>, Option<u8>), Seq<char>>::empty(),
    {
        Client { cache: Vec::new() }
    }

    /// The cached address for a query, if one search already observed it.
    /// A hit means the surrounding program makes no fetch at all.
    pub fn cached(&self, title: &str, volume: Option<u8>) -> (r: Option<String>)
        ensures
            match r {
                Some(u) => self.cache_map().contains_key((title@, volume)) && u@
                    == self.cache_map()[(title@, volume)],
                None => !self.cache_map().contains_key((title@, volume)),
            },
    {
        let tchars = chars_of(title);
        let ghost k = (title@, volume);
        let mut j = self.cache.len();
        proof {
            assert(self.cache@.take(self.cache@.len() as int) =~= self.cache@);
        }
        while j > 0
            invariant
                j <= self.cache@.len(),
                tchars@ == title@,
                k == (title@, volume),
                map_of(self.cache@).contains_key(k) == map_of(
                    self.cache@.take(j as int),
                ).contains_key(k),
                map_of(self.cache@).contains_key(k) ==> map_of(self.cache@)[k] == map_of(
                    self.cache@.take(j as int),
                )[k],
            decreases j,
        {
            j -= 1;
            let e = &self.cache[j];
            let ev = chars_of(e.0.title.as_str());
            proof {
                assert(self.cache@.take(j as int + 1).drop_last() =~= self.cache@.take(j as int));
                assert(self.cache@.take(j as int + 1).last() == self.cache@[j as int]);
            }
            if eq_chars(&ev, &tchars) && opt_u8_eq(e.0.volume, volume) {
                proof {
                    assert(entry_view(self.cache@[j as int]).0 == k);
                }
                return Some(e.1.clone());
            }
            proof {
                assert(entry_view(self.cache@[j as int]).0 != k);
            }
        }
        proof {
            assert(self.cache@.take(0) =~= Seq::<(SeriesQuery, String)>::empty());
        }
        None
    }

    /// The session token of the fetched home page, or the fatal error when
    /// the page carries none: the search cannot be submitted without it.
    pub fn extract_token(&self, page: &str) -> (r: Result<String, ClientError>)
        ensures
            match r {
                Ok(t) => csrf_token_of(page@) == Some(t@),
                Err(e) => e == ClientError::TokenNotFound && csrf_token_of(page@) is None,
            },
    {
        match extract_csrf(page) {
            Some(t) => Ok(t),
            None => Err(ClientError::TokenNotFound),
        }
    }

    /// The search address to fetch for a token and a title; the title is
    /// normalized (lowercased) here, the key under which results are cached
    /// stays exact.
    pub fn search_url(&self, csrf: &str, title: &str) -> (r: String)
        ensures
            r@ == search_url_of(csrf@, lower_of(title@)),
    {
        let t = lowercase(title);
        build_search_url(csrf, t.as_str())
    }

    /// Reads a fetched results page: selects the matching tier, caches every
    /// selected candidate under its own badge number, and returns the
    /// address of the last candidate carrying the requested volume.
    pub fn process_results(&mut self, title: &str, volume: Option<u8>, page: &str) -> (r: Result<
        String,
        ClientError,
    >)
        ensures
            ({
                let out = walk(
                    tier(candidates_of(page@), title@),
                    title@,
                    volume,
                    old(self).cache_map(),
                    None,
                );
                &&& final(self).cache_map() == out.0
                &&& match r {
                    Ok(u) => out.1 == Ok::<Seq<char>, ClientError>(u@),
                    Err(e) => out.1 == Err::<Seq<char>, ClientError>(e),
                }
            }),
    {
        let cands = extract_candidates(page);
        let ghost cv = candidates_of(page@);
        let tl = lowercase(title);
        let title_norm = chars_of(tl.as_str());
        let mut sel: Vec<(Option<String>, Option<String>, Option<String>)> = Vec::new();
        let mut i: usize = 0;
        proof {
            assert(cv.skip(0) =~= cv);
            assert(cand_views(sel@) =~= Seq::<
                (Option<Seq<char>>, Option<Seq<char>>, Option<Seq<char>>),
            >::empty());
            assert(cand_views(sel@) + matching(cv, title@, true) =~= matching(cv, title@, true));
        }
        while i < cands.len()
            invariant
                i <= cands@.len(),
                cv == cand_views(cands@),
                cv.len() == cands@.len(),
                title_norm@ == lower_of(title@),
                matching(cv, title@, true) == cand_views(sel@) + matching(
                    cv.skip(i as int),
                    title@,
                    true,
                ),
            decreases cands@.len() - i,
        {
            proof {
                assert(cv.skip(i as int)[0] == cv[i as int]);
                assert(cv[i as int] == cand_view(cands@[i as int]));
                assert(cv.skip(i as int).skip(1) =~= cv.skip(i as int + 1));
            }
            let ghost prev = sel@;
            if right_series_exec(
                &cands[i].1,
                &title_norm,
                true,
                Ghost(cv[i as int]),
                Ghost(title@),
            ) {
                sel.push(clone_cand(&cands[i]));
                proof {
                    assert(cand_views(sel@) =~= cand_views(prev).push(cv[i as int]));
                    assert(cand_views(sel@) + matching(cv.skip(i as int + 1), title@, true)
                        =~= cand_views(prev) + (seq![cv[i as int]] + matching(
                        cv.skip(i as int + 1),
                        title@,
                        true,
                    )));
                }
            }
            i += 1;
        }
        proof {
            assert(cv.skip(cv.len() as int).len() == 0);
            assert(cand_views(sel@) + matching(cv.skip(cv.len() as int), title@, true)
                =~= cand_views(sel@));
        }
        if sel.len() == 0 {
            let mut j: usize = 0;
            proof {
                assert(matching(cv, title@, true).len() == 0);
                assert(cand_views(sel@) + matching(cv, title@, false) =~= matching(
                    cv,
                    title@,
                    false,
                ));
            }
            while j < cands.len()
                invariant
                    j <= cands@.len(),
                    cv == cand_views(cands@),
                    cv.len() == cands@.len(),
                    title_norm@ == lower_of(title@),
                    matching(cv, title@, true).len() == 0,
                    matching(cv, title@, false) == cand_views(sel@) + matching(
                        cv.skip(j as int),
                        title@,
                        false,
                    ),
                decreases cands@.len() - j,
            {
                proof {
                    assert(cv.skip(j as int)[0] == cv[j as int]);
                    assert(cv[j as int] == cand_view(cands@[j as int]));
                    assert(cv.skip(j as int).skip(1) =~= cv.skip(j as int + 1));
                }
                let ghost prev = sel@;
                if right_series_exec(
                    &cands[j].1,
                    &title_norm,
                    false,
                    Ghost(cv[j as int]),
                    Ghost(title@),
                ) {
                    sel.push(clone_cand(&cands[j]));
                    proof {
                        assert(cand_views(sel@) =~= cand_views(prev).push(cv[j as int]));
                        assert(cand_views(sel@) + matching(cv.skip(j as int + 1), title@, false)
                            =~= cand_views(prev) + (seq![cv[j as int]] + matching(
                            cv.skip(j as int + 1),
                            title@,
                            false,
                        )));
                    }
                }
                j += 1;
            }
            proof {
                assert(cv.skip(cv.len() as int).len() == 0);
                assert(cand_views(sel@) + matching(cv.skip(cv.len() as int), title@, false)
                    =~= cand_views(sel@));
            }
        }
        let ghost selv = tier(cv, title@);
        proof {
            assert(selv == cand_views(sel@));
        }
        let mut res: Option<String> = None;
        let mut i: usize = 0;
        proof {
            assert(selv.skip(0) =~= selv);
        }
        while i < sel.len()
            invariant
                i <= sel@.len(),
                selv == cand_views(sel@),
                selv == tier(candidates_of(page@), title@),
                selv.len() == sel@.len(),
                walk(selv, title@, volume, old(self).cache_map(), None) == walk(
                    selv.skip(i as int),
                    title@,
                    volume,
                    map_of(self.cache@),
                    opt_str_view(res),
                ),
            decreases sel@.len() - i,
        {
            proof {
                assert(selv.skip(i as int)[0] == selv[i as int]);
                assert(selv[i as int] == cand_view(sel@[i as int]));
                assert(selv.skip(i as int).skip(1) =~= selv.skip(i as int + 1));
            }
            let href = match &sel[i].0 {
                Some(h) => h,
                None => {
                    return Err(ClientError::CandidateUrlMissing);
                },
            };
            let url = match parse_url(href.as_str()) {
                Some(u) => u,
                None => {
                    return Err(ClientError::CandidateUrlInvalid);
                },
            };
            let ntext = match &sel[i].2 {
                Some(t) => t,
                None => {
                    return Err(ClientError::NumberMissing);
                },
            };
            let nv = chars_of(ntext.as_str());
            let num = match parse_badge_number(&nv) {
                Some(n) => n,
                None => {
                    return Err(ClientError::NumberInvalid);
                },
            };
            let ghost prev_cache = self.cache@;
            self.cache.push((SeriesQuery { title: String::from_str(title), volume: num }, url.clone()));
            proof {
                assert(self.cache@.drop_last() =~= prev_cache);
                assert(map_of(self.cache@) == map_of(prev_cache).insert((title@, num), url@));
            }
            if opt_u8_eq(num, volume) {
                res = Some(url);
            }
            i += 1;
        }
        proof {
            assert(selv.skip(selv.len() as int).len() == 0);
        }
        match res {
            Some(u) => Ok(u),
            None => Err(ClientError::NotFound),
        }
    }

    /// The volume metadata of a fetched catalog page.
    pub fn fetch_info(&self, page: &str) -> (info: crate::page::VolumeInfo)
        ensures
            crate::page::info_matches(info, crate::page::info_lines_of(page@)),
    {
        crate::page::VolumeInfo::new(page)
    }
}

fn clone_cand(c: &(Option<String>, Option<String>, Option<String>)) -> (r: (
    Option<String>,
    Option<String>,
    Option<String>,
))
    ensures
        r == *c,
{
    (clone_opt(&c.0), clone_opt(&c.1), clone_opt(&c.2))
}

/// A selection pass never forgets a cached key.
pub proof fn lemma_walk_monotonic(
    cands: Seq<(Option<Seq<char>>, Option<Seq<char>>, Option<Seq<char>>)>,
    title: Seq<char>,
    volume: Option<u8>,
    cache: Map<(Seq<char>, Option<u8>), Seq<char>>,
    res: Option<Seq<char>>,
    k: (Seq<char>, Option<u8>),
)
    requires
        cache.contains_key(k),
    ensures
        walk(cands, title, volume, cache, res).0.contains_key(k),
    decreases cands.len(),
{
    if cands.len() > 0 {
        let c = cands[0];
        if c.0 is Some && parsed_url_of(c.0->Some_0) is Some && c.2 is Some && badge_number(
            c.2->Some_0,
        ) is Some {
            let url = parsed_url_of(c.0->Some_0)->Some_0;
            let num = badge_number(c.2->Some_0)->Some_0;
            lemma_walk_monotonic(
                cands.skip(1),
                title,
                volume,
                cache.insert((title, num), url),
                if num == volume {
                    Some(url)
                } else {
                    res
                },
                k,
            );
        }
    }
}

/// Batch caching: when a selection pass completes, the cache holds an entry
/// for every selected candidate, keyed by the queried title and the
/// candidate's own badge number.
pub proof fn lemma_walk_caches_all(
    cands: Seq<(Option<Seq<char>>, Option<Seq<char>>, Option<Seq<char>>)>,
    title: Seq<char>,
    volume: Option<u8>,
    cache: Map<(Seq<char>, Option<u8>), Seq<char>>,
    res: Option<Seq<char>>,
)
    ensures
        ({
            let out = walk(cands, title, volume, cache, res);
            out.1 is Ok ==> forall|i: int|
                0 <= i < cands.len() ==> (#[trigger] cands[i]).2 is Some && badge_number(
                    cands[i].2->Some_0,
                ) is Some && out.0.contains_key((title, badge_number(cands[i].2->Some_0)->Some_0))
        }),
    decreases cands.len(),
{
    let out = walk(cands, title, volume, cache, res);
    if cands.len() > 0 && out.1 is Ok {
        let c = cands[0];
        let url = parsed_url_of(c.0->Some_0)->Some_0;
        let num = badge_number(c.2->Some_0)->Some_0;
        let cache2 = cache.insert((title, num), url);
        let res2: Option<Seq<char>> = if num == volume {
            Some(url)
        } else {
            res
        };
        lemma_walk_caches_all(cands.skip(1), title, volume, cache2, res2);
        lemma_walk_monotonic(cands.skip(1), title, volume, cache2, res2, (title, num));
        assert forall|i: int|
            0 <= i < cands.len() implies (#[trigger] cands[i]).2 is Some && badge_number(
            cands[i].2->Some_0,
        ) is Some && out.0.contains_key((title, badge_number(cands[i].2->Some_0)->Some_0)) by {
            if i > 0 {
                assert(cands.skip(1)[i - 1] == cands[i]);
            }
        }
    }
}

/// Read-after-write at the page level: a results page that resolves an
/// address also leaves that address cached under the queried key, so
/// repeating the same query is answered from the cache with no further
/// fetch at all.
pub proof fn lemma_resolved_query_is_cached(
    page: Seq<char>,
    title: Seq<char>,
    volume: Option<u8>,
    cache: Map<(Seq<char>, Option<u8>), Seq<char>>,
)
    ensures
        ({
            let out = walk(tier(candidates_of(page), title), title, volume, cache, None);
            out.1 is Ok ==> out.0.contains_key((title, volume)) && out.0[(title, volume)]
                == out.1->Ok_0
        }),
{
    lemma_walk_result_cached(tier(candidates_of(page), title), title, volume, cache, None);
}

/// Read-after-write: a selection pass that resolves an address also caches
/// it under the queried key, so repeating the same query is answered from
/// the cache with no further fetch.
pub proof fn lemma_walk_result_cached(
    cands: Seq<(Option<Seq<char>>, Option<Seq<char>>, Option<Seq<char>>)>,
    title: Seq<char>,
    volume: Option<u8>,
    cache: Map<(Seq<char>, Option<u8>), Seq<char>>,
    res: Option<Seq<char>>,
)
    requires
        match res {
            Some(r) => cache.contains_key((title, volume)) && cache[(title, volume)] == r,
            None => true,
        },
    ensures
        ({
            let out = walk(cands, title, volume, cache, res);
            out.1 is Ok ==> out.0.contains_key((title, volume)) && out.0[(title, volume)]
                == out.1->Ok_0
        }),
    decreases cands.len(),
{
    if cands.len() > 0 {
        let c = cands[0];
        if c.0 is Some && parsed_url_of(c.0->Some_0) is Some && c.2 is Some && badge_number(
            c.2->Some_0,
        ) is Some {
            let url = parsed_url_of(c.0->Some_0)->Some_0;
            let num = badge_number(c.2->Some_0)->Some_0;
            let cache2 = cache.insert((title, num), url);
            let res2: Option<Seq<char>> = if num == volume {
                Some(url)
            } else {
                res
            };
            lemma_walk_result_cached(cands.skip(1), title, volume, cache2, res2);
        }
    }
}

/// Whether the title holds a hyphen at all.
pub open spec fn has_dash(s: Seq<char>) -> bool {
    exists|i: int| 0 <= i < s.len() && s[i] == '-'
}

/// `s` with every `- ` pair removed, left to right.
pub open spec fn dash_space_removed(s: Seq<char>) -> Seq<char>
    decreases s.len(),
{
    if s.len() < 2 {
        s
    } else if s[0] == '-' && s[1] == ' ' {
        dash_space_removed(s.skip(2))
    } else {
        seq![s[0]] + dash_space_removed(s.skip(1))
    }
}

/// The degraded form of a title for the one retry the search allows: when
/// the title holds a hyphen, the query is repeated with hyphenated word
/// breaks (`- `) removed; otherwise there is nothing to retry.
pub fn degrade_title(title: &str) -> (r: Option<String>)
    ensures
        match r {
            Some(t) => has_dash(title@) && t@ == dash_space_removed(title@),
            None => !has_dash(title@),
        },
{
    let v = chars_of(title);
    let mut found = false;
    let mut i: usize = 0;
    while i < v.len()
        invariant
            i <= v@.len(),
            v@ == title@,
            found == exists|j: int| 0 <= j < i && v@[j] == '-',
        decreases v@.len() - i,
    {
        if v[i] == '-' {
            found = true;
        }
        i += 1;
    }
    if !found {
        return None;
    }
    let mut r: Vec<char> = Vec::new();
    let mut i: usize = 0;
    proof {
        assert(v@.skip(0) =~= v@);
        assert(r@ + dash_space_removed(v@) =~= dash_space_removed(v@));
    }
    while i < v.len()
        invariant
            i <= v@.len(),
            v@ == title@,
            dash_space_removed(v@) == r@ + dash_space_removed(v@.skip(i as int)),
        decreases v@.len() - i,
    {
        proof {
            assert(v@.skip(i as int)[0] == v@[i as int]);
            if i + 1 < v@.len() {
                assert(v@.skip(i as int)[1] == v@[i as int + 1]);
            }
        }
        let ghost prev = r@;
        if v[i] == '-' && i + 1 < v.len() && v[i + 1] == ' ' {
            proof {
                assert(v@.skip(i as int).skip(2) =~= v@.skip(i as int + 2));
            }
            i += 2;
        } else {
            r.push(v[i]);
            proof {
                assert(v@.skip(i as int).skip(1) =~= v@.skip(i as int + 1));
                assert(r@ + dash_space_removed(v@.skip(i as int + 1)) =~= prev + (seq![v@[i as int]]
                    + dash_space_removed(v@.skip(i as int + 1))));
            }
            i += 1;
        }
    }
    proof {
        assert(v@.skip(v@.len() as int).len() == 0);
        assert(r@ + Seq::<char>::empty() =~= r@);
    }
    Some(string_of(&r))
}

} // verus!
