use cbzcheck::mirrors::{
    book_candidates, build_query, page_matches, select_mirrors, MirrorClient, MirrorStatus,
};

fn mirror(url: &str, normal: bool, status: Option<u16>) -> MirrorStatus {
    MirrorStatus {
        url: String::from(url),
        normal_network: normal,
        status_code: status,
    }
}

#[test]
fn serverlist_filter_keeps_healthy_public_mirrors() {
    let items = vec![
        mirror("https://a.example/", true, Some(200)),
        mirror("https://b.example/", false, Some(200)),
        mirror("https://c.example/", true, Some(503)),
        mirror("https://d.example/", true, None),
        mirror("https://e.example/", true, Some(200)),
    ];
    let blacklist = vec![String::from("https://e.example/")];
    let pool = select_mirrors(&items, &blacklist);
    assert_eq!(
        pool,
        vec![String::from("https://a.example/search")]
    );
}

#[test]
fn query_is_sanitized_and_scoped() {
    assert_eq!(
        build_query("Some \"Title\" &co", Some(3)),
        "Some Title co T3 site:bedetheque.com"
    );
    assert_eq!(build_query("One Shot", None), "One Shot site:bedetheque.com");
}

#[test]
fn candidate_links_are_forced_to_the_canonical_host() {
    let links = vec![
        String::from("https://m.bedetheque.com/BD-Series-Tome-3.html"),
        String::from("https://elsewhere.example/article"),
        String::from("not a link"),
    ];
    let cands = book_candidates(&links);
    assert_eq!(
        cands,
        vec![String::from("https://www.bedetheque.com/BD-Series-Tome-3.html")]
    );
}

#[test]
fn identity_predicate_needs_marker_and_volume() {
    let page = "header Une BD de Writer. Tome 3, Edition 2020.";
    assert!(page_matches(page, None));
    assert!(page_matches(page, Some(3)));
    assert!(!page_matches(page, Some(4)));
    assert!(!page_matches("some unrelated page Tome 3", Some(3)));
}

#[test]
fn three_mirror_failover_uses_three_attempts() {
    // Mirrors one and two fail transport; mirror three answers. The
    // resolution makes exactly three attempts and uses mirror three.
    let pool = vec![
        String::from("https://m1.example/search"),
        String::from("https://m2.example/search"),
        String::from("https://m3.example/search"),
    ];
    let mut client = MirrorClient::new(pool, Vec::new());
    let mut attempts_left: u8 = 10;
    let mut attempts_made: u32 = 0;

    let (m1, left) = client.next_attempt(attempts_left).expect("first attempt");
    attempts_made += 1;
    attempts_left = left;
    assert_eq!(m1, "https://m1.example/search");
    // transport failure: retry
    let (m2, left) = client.next_attempt(attempts_left).expect("second attempt");
    attempts_made += 1;
    attempts_left = left;
    assert_eq!(m2, "https://m2.example/search");
    // transport failure: retry
    let (m3, left) = client.next_attempt(attempts_left).expect("third attempt");
    attempts_made += 1;
    assert_eq!(m3, "https://m3.example/search");
    assert_eq!(attempts_made, 3);
    assert_eq!(left, 7);
}

#[test]
fn blacklisted_mirrors_are_skipped() {
    let pool = vec![
        String::from("https://bad.example/search"),
        String::from("https://good.example/search"),
    ];
    let blacklist = vec![String::from("https://bad.example/search")];
    let mut client = MirrorClient::new(pool, blacklist);
    let (m, _) = client.next_attempt(10).expect("one usable mirror");
    assert_eq!(m, "https://good.example/search");
}

#[test]
fn exhausted_budget_gives_up() {
    let pool = vec![String::from("https://m1.example/search")];
    let mut client = MirrorClient::new(pool, Vec::new());
    assert!(client.next_attempt(0).is_none());
}

#[test]
fn all_blacklisted_gives_up() {
    let pool = vec![String::from("https://m1.example/search")];
    let blacklist = vec![String::from("https://m1.example/search")];
    let mut client = MirrorClient::new(pool, blacklist);
    assert!(client.next_attempt(10).is_none());
}

#[test]
fn cursor_rotates_across_calls() {
    let pool = vec![
        String::from("https://m1.example/search"),
        String::from("https://m2.example/search"),
    ];
    let mut client = MirrorClient::new(pool, Vec::new());
    let (a, _) = client.next_attempt(10).unwrap();
    let (b, _) = client.next_attempt(10).unwrap();
    let (c, _) = client.next_attempt(10).unwrap();
    assert_eq!(a, "https://m1.example/search");
    assert_eq!(b, "https://m2.example/search");
    assert_eq!(c, "https://m1.example/search");
}
