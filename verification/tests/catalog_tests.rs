use cbzcheck::catalog::{degrade_title, Client, ClientError};

fn results_page() -> &'static str {
    "<html><body><ul class=\"search-list\">\
     <li><a href=\"https://www.bedetheque.com/BD-Series-Tome-1.html\">\
       <span class=\"serie\">Series</span><span class=\"num\">#1</span></a></li>\
     <li><a href=\"https://www.bedetheque.com/BD-Series-Tome-2.html\">\
       <span class=\"serie\">Series</span><span class=\"num\">#2</span></a></li>\
     <li><a href=\"https://www.bedetheque.com/BD-Series-One.html\">\
       <span class=\"serie\">Series</span><span class=\"num\"></span></a></li>\
     <li><a href=\"https://www.bedetheque.com/BD-Other-1.html\">\
       <span class=\"serie\">Unrelated</span><span class=\"num\">#1</span></a></li>\
     </ul></body></html>"
}

#[test]
fn token_is_extracted_from_home_page() {
    let client = Client::new();
    let token = client.extract_token(
        "<html><body><form><input id=\"csrf\" value=\"tok123\"></form></body></html>",
    );
    assert_eq!(token, Ok(String::from("tok123")));
}

#[test]
fn missing_token_is_fatal_for_the_call() {
    let client = Client::new();
    assert_eq!(
        client.extract_token("<html><body></body></html>"),
        Err(ClientError::TokenNotFound)
    );
}

#[test]
fn search_url_carries_token_and_lowercased_title() {
    let client = Client::new();
    let url = client.search_url("tok123", "S\u{e9}rie Title");
    assert!(url.starts_with("https://www.bedetheque.com/search/albums?"));
    assert!(url.contains("csrf_token_bel=tok123"));
    assert!(url.contains("RechSerie=s%C3%A9rie+title"));
    assert!(url.contains("RechLangue=Fran%C3%A7ais"));
}

#[test]
fn one_search_caches_every_candidate() {
    let mut client = Client::new();
    assert_eq!(client.cached("Series", Some(1)), None);

    let url = client
        .process_results("Series", Some(1), results_page())
        .expect("volume 1 resolves");
    assert_eq!(url, "https://www.bedetheque.com/BD-Series-Tome-1.html");

    // Three candidates matched the series title exactly, so three distinct
    // keys are now cached; a repeated lookup for any of them needs no fetch.
    assert_eq!(client.cached("Series", Some(1)), Some(url));
    assert_eq!(
        client.cached("Series", Some(2)),
        Some(String::from("https://www.bedetheque.com/BD-Series-Tome-2.html"))
    );
    assert_eq!(
        client.cached("Series", None),
        Some(String::from("https://www.bedetheque.com/BD-Series-One.html"))
    );
    // The unrelated candidate was outside the matching tier.
    assert_eq!(client.cached("Unrelated", Some(1)), None);
}

#[test]
fn missing_volume_among_candidates_is_not_found() {
    let mut client = Client::new();
    assert_eq!(
        client.process_results("Series", Some(9), results_page()),
        Err(ClientError::NotFound)
    );
    // The failed search still cached the observed candidates.
    assert!(client.cached("Series", Some(2)).is_some());
}

#[test]
fn title_match_is_exact_then_prefix() {
    let page = "<html><body><ul class=\"search-list\">\
     <li><a href=\"https://www.bedetheque.com/BD-Longer-1.html\">\
       <span class=\"serie\">Series And More!</span><span class=\"num\">#1</span></a></li>\
     </ul></body></html>";
    let mut client = Client::new();
    // No exact match for the query, but the candidate's title starts with it.
    let url = client.process_results("Series", Some(1), page).expect("prefix tier matches");
    assert_eq!(url, "https://www.bedetheque.com/BD-Longer-1.html");
}

#[test]
fn malformed_badge_aborts_selection() {
    let page = "<html><body><ul class=\"search-list\">\
     <li><a href=\"https://www.bedetheque.com/BD-Series-1.html\">\
       <span class=\"serie\">Series</span><span class=\"num\">#x1</span></a></li>\
     </ul></body></html>";
    let mut client = Client::new();
    assert_eq!(
        client.process_results("Series", Some(1), page),
        Err(ClientError::NumberInvalid)
    );
}

#[test]
fn candidate_without_address_aborts_selection() {
    let page = "<html><body><ul class=\"search-list\">\
     <li><a><span class=\"serie\">Series</span><span class=\"num\">#1</span></a></li>\
     </ul></body></html>";
    let mut client = Client::new();
    assert_eq!(
        client.process_results("Series", Some(1), page),
        Err(ClientError::CandidateUrlMissing)
    );
}

#[test]
fn unparsable_address_aborts_selection() {
    let page = "<html><body><ul class=\"search-list\">\
     <li><a href=\"BD-relative.html\">\
       <span class=\"serie\">Series</span><span class=\"num\">#1</span></a></li>\
     </ul></body></html>";
    let mut client = Client::new();
    assert_eq!(
        client.process_results("Series", Some(1), page),
        Err(ClientError::CandidateUrlInvalid)
    );
}

#[test]
fn candidate_without_badge_aborts_selection() {
    let page = "<html><body><ul class=\"search-list\">\
     <li><a href=\"https://www.bedetheque.com/BD-Series-1.html\">\
       <span class=\"serie\">Series</span></a></li>\
     </ul></body></html>";
    let mut client = Client::new();
    assert_eq!(
        client.process_results("Series", Some(1), page),
        Err(ClientError::NumberMissing)
    );
}

#[test]
fn degraded_title_drops_hyphenated_breaks() {
    assert_eq!(degrade_title("Some- Thing"), Some(String::from("SomeThing")));
    assert_eq!(degrade_title("Plain title"), None);
    // A hyphen without a following space allows the retry but changes
    // nothing.
    assert_eq!(degrade_title("Catch-22"), Some(String::from("Catch-22")));
}
