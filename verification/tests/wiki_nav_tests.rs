use wiki_bfs::wiki_nav::{excluded_pages, extract_title_from_url, get_links, is_valid_page, LinkEntry, TitleError};

fn entry(ns: Option<u64>, title: Option<&str>) -> LinkEntry {
    LinkEntry { ns, title: title.map(|t| t.to_string()) }
}

#[test]
fn ordinary_articles_are_valid() {
    assert!(is_valid_page("Rust (programming language)"));
    assert!(is_valid_page("Albert Einstein"));
    assert!(is_valid_page(""));
}

#[test]
fn identifier_pages_are_not_valid() {
    assert!(!is_valid_page("Doi (identifier)"));
    assert!(!is_valid_page("ISBN (identifier)"));
    assert!(!is_valid_page("S2CID (identifier)"));
}

#[test]
fn excluded_namespaces_are_not_valid() {
    assert!(!is_valid_page("Category:Physics"));
    assert!(!is_valid_page("Template:Citation"));
    assert!(!is_valid_page("Wikipedia:About"));
    assert!(!is_valid_page("File:Example.png"));
    assert!(!is_valid_page("Portal:Science"));
    assert!(!is_valid_page("Help:Contents"));
    assert!(!is_valid_page("Talk:Rust"));
    assert!(!is_valid_page("Special:Random"));
}

#[test]
fn only_prefixes_exclude() {
    // The match is on the start of the title, and is case-sensitive.
    assert!(is_valid_page("category:Physics"));
    assert!(is_valid_page("Talk"));
    assert!(is_valid_page("The Category:Physics"));
    assert!(is_valid_page("Doi"));
}

#[test]
fn every_excluded_title_is_refused() {
    let ex = excluded_pages();
    assert_eq!(ex.len(), 15);
    for e in ex {
        assert!(!is_valid_page(e));
        assert!(!is_valid_page(&format!("{}suffix", e)));
    }
}

#[test]
fn get_links_keeps_main_namespace_valid_pages_in_order() {
    let entries = vec![
        entry(Some(0), Some("Alpha")),
        entry(Some(14), Some("Beta")),
        entry(None, Some("Gamma")),
        entry(Some(0), None),
        entry(Some(0), Some("Category:Delta")),
        entry(Some(0), Some("Epsilon")),
        entry(Some(1), Some("Talk:Zeta")),
    ];
    assert_eq!(get_links(&entries), vec!["Alpha".to_string(), "Gamma".to_string(), "Epsilon".to_string()]);
}

#[test]
fn get_links_of_nothing_is_nothing() {
    assert!(get_links(&vec![]).is_empty());
}

#[test]
fn title_is_last_path_segment_with_spaces() {
    assert_eq!(
        extract_title_from_url("https://en.wikipedia.org/wiki/Albert_Einstein"),
        Ok("Albert Einstein".to_string())
    );
    assert_eq!(
        extract_title_from_url("https://en.wikipedia.org/wiki/Rust_(programming_language)"),
        Ok("Rust (programming language)".to_string())
    );
}

#[test]
fn title_ignores_query_and_fragment() {
    assert_eq!(
        extract_title_from_url("https://en.wikipedia.org/wiki/New_York_City?action=view#History"),
        Ok("New York City".to_string())
    );
}

#[test]
fn title_is_not_percent_decoded() {
    assert_eq!(
        extract_title_from_url("https://en.wikipedia.org/wiki/Caf%C3%A9_au_lait"),
        Ok("Caf%C3%A9 au lait".to_string())
    );
}

#[test]
fn title_of_a_url_ending_in_a_slash_is_empty() {
    assert_eq!(extract_title_from_url("https://en.wikipedia.org/wiki/"), Ok(String::new()));
    assert_eq!(extract_title_from_url("https://en.wikipedia.org"), Ok(String::new()));
}

#[test]
fn no_title_from_what_is_no_url() {
    assert!(matches!(extract_title_from_url("Albert Einstein"), Err(TitleError::InvalidUrl(_))));
    assert!(matches!(extract_title_from_url(""), Err(TitleError::InvalidUrl(_))));
    assert!(matches!(extract_title_from_url("/wiki/Albert_Einstein"), Err(TitleError::InvalidUrl(_))));
}

#[test]
fn no_title_from_a_url_without_a_path() {
    assert_eq!(extract_title_from_url("mailto:someone@example.com"), Err(TitleError::InvalidPath));
    assert_eq!(extract_title_from_url("data:text/plain,hello"), Err(TitleError::InvalidPath));
}

use wiki_bfs::json::parse_json;
use wiki_bfs::wiki_nav::{link_entries, links_of_answer};

const ANSWER: &str = r#"{"parse": {"title": "Rust", "pageid": 1, "links": [
    {"ns": 0, "exists": "", "*": "Graydon Hoare"},
    {"ns": 14, "exists": "", "*": "Category:Languages"},
    {"ns": 0, "*": "ISBN (identifier)"},
    {"*": "No namespace"},
    {"ns": "zero", "*": "Text namespace"},
    {"ns": -3, "*": "Negative namespace"},
    {"ns": 0, "*": 42},
    {"ns": 0},
    "not an object",
    {"ns": 0, "*": "Mozilla"}
]}}"#;

#[test]
fn link_entries_read_ns_and_title() {
    let entries = link_entries(&parse_json(ANSWER).ok().unwrap());
    assert_eq!(entries.len(), 10);
    assert_eq!(entries[0].ns, Some(0));
    assert_eq!(entries[0].title, Some("Graydon Hoare".to_string()));
    assert_eq!(entries[1].ns, Some(14));
    assert_eq!(entries[3].ns, None);
    assert_eq!(entries[4].ns, None);
    assert_eq!(entries[5].ns, None);
    assert_eq!(entries[6].title, None);
    assert_eq!(entries[7].title, None);
    assert_eq!(entries[8].ns, None);
    assert_eq!(entries[8].title, None);
}

#[test]
fn links_of_answer_keeps_followed_titles() {
    let links = links_of_answer(ANSWER).ok().unwrap();
    assert_eq!(
        links,
        vec![
            "Graydon Hoare".to_string(),
            "No namespace".to_string(),
            "Text namespace".to_string(),
            "Negative namespace".to_string(),
            "Mozilla".to_string(),
        ]
    );
}

#[test]
fn an_answer_without_links_gives_none() {
    assert!(links_of_answer(r#"{"error": {"code": "missingtitle"}}"#).ok().unwrap().is_empty());
    assert!(links_of_answer(r#"{"parse": {"links": "none"}}"#).ok().unwrap().is_empty());
    assert!(links_of_answer(r#"{"parse": []}"#).ok().unwrap().is_empty());
    assert!(links_of_answer("[]").ok().unwrap().is_empty());
}

#[test]
fn an_answer_that_is_no_json_is_an_error() {
    assert!(links_of_answer("<html>").is_err());
    assert!(links_of_answer("").is_err());
}
