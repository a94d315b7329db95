use feedstore::{Database, StoreError};

const EXAMPLE_FEED: &str = "https://blog.apnic.net/feed/";

const EXAMPLE_BODY: &str = r#"<?xml version="1.0" encoding="UTF-8"?>
<rss version="2.0" xmlns:atom="http://www.w3.org/2005/Atom">
<channel>
<title>APNIC Blog</title>
<link>https://blog.apnic.net</link>
<description>Internet research and operations</description>
<atom:link href="https://blog.apnic.net/feed/" rel="self" type="application/rss+xml"/>
<item><title>First post</title><link>https://blog.apnic.net/first</link></item>
</channel>
</rss>"#;

const OTHER_FEED: &str = "https://example.com/feed";

const OTHER_BODY: &str = r#"<rss version="2.0" xmlns:atom="http://www.w3.org/2005/Atom">
<channel>
<title>Example</title>
<link>https://example.com</link>
<description>An example feed</description>
<atom:link rel="alternate" href="https://example.com/"/>
<atom:link href="https://example.com/feed"/>
</channel>
</rss>"#;

const NO_ATOM_BODY: &str = r#"<rss version="2.0">
<channel>
<title>Plain</title>
<link>https://plain.example</link>
<description>No Atom block</description>
</channel>
</rss>"#;

const NO_HREF_BODY: &str = r#"<rss version="2.0" xmlns:atom="http://www.w3.org/2005/Atom">
<channel>
<title>No href</title>
<link>https://nohref.example</link>
<description>A self link without href</description>
<atom:link rel="self"/>
</channel>
</rss>"#;

const EXAMPLE_DB: &str = r#"{"https://blog.apnic.net/feed/":"<rss version=\"2.0\"><channel><title>APNIC Blog</title><link>https://blog.apnic.net</link><description>Internet research</description></channel></rss>"}"#;

fn fresh_with_example() -> Database {
    let mut db = Database::new();
    assert!(db.add_channel(EXAMPLE_FEED, EXAMPLE_BODY).is_ok());
    db
}

#[test]
fn lib_test_add() {
    let mut db = Database::new();
    assert!(db.add_channel(EXAMPLE_FEED, EXAMPLE_BODY).is_ok());
    assert!(db.get_channel(EXAMPLE_FEED).is_some());
}

#[test]
fn lib_test_duplicate_add() {
    let mut db = Database::new();
    assert!(db.add_channel(EXAMPLE_FEED, EXAMPLE_BODY).is_ok()); // first is ok
    assert!(db.add_channel(EXAMPLE_FEED, EXAMPLE_BODY).is_err()); // duplicate is err
}

#[test]
fn add_from_file() {
    let mut db = Database::new();
    assert!(db.add_channel_from_file(EXAMPLE_BODY).is_ok());
}

#[test]
fn lib_test_rm() {
    let mut db = Database::new();
    assert!(db.add_channel(EXAMPLE_FEED, EXAMPLE_BODY).is_ok());
    assert!(db.rm_channel(EXAMPLE_FEED).is_ok());
    assert!(db.get_channel(EXAMPLE_FEED).is_none());
}

#[test]
fn lib_test_duplicate_rm() {
    let mut db = Database::new();
    assert!(db.add_channel(EXAMPLE_FEED, EXAMPLE_BODY).is_ok());
    assert!(db.rm_channel(EXAMPLE_FEED).is_ok());
    assert!(db.rm_channel(EXAMPLE_FEED).is_err());
}

#[test]
fn save_db_to_file() {
    let mut db = Database::new();
    assert!(db.add_channel(EXAMPLE_FEED, EXAMPLE_BODY).is_ok());
    let text = db.to_string();
    assert!(text.starts_with("{\"https://blog.apnic.net/feed/\":"));
}

#[test]
fn load_db_from_file() {
    assert!(Database::from_str(EXAMPLE_DB).is_ok());
}

#[test]
fn main_test_add() {
    let mut db = Database::new();
    assert!(db.add_channel(EXAMPLE_FEED, EXAMPLE_BODY).is_ok());
    assert!(db.get_channel(EXAMPLE_FEED).is_some());
}

#[test]
fn main_test_duplicate_add() {
    let mut db = Database::new();
    db.add_channel(EXAMPLE_FEED, EXAMPLE_BODY).unwrap();
    assert!(db.add_channel(EXAMPLE_FEED, EXAMPLE_BODY).is_err());
}

#[test]
fn main_test_rm() {
    let mut db = Database::new();
    db.add_channel(EXAMPLE_FEED, EXAMPLE_BODY).unwrap();
    assert!(db.rm_channel(EXAMPLE_FEED).is_ok());
    assert!(db.get_channel(EXAMPLE_FEED).is_none());
}

#[test]
fn main_test_duplicate_rm() {
    let mut db = Database::new();
    db.add_channel(EXAMPLE_FEED, EXAMPLE_BODY).unwrap();
    db.rm_channel(EXAMPLE_FEED).unwrap();
    assert!(db.rm_channel(EXAMPLE_FEED).is_err());
}

#[test]
fn second_add_is_duplicate_and_keeps_one_entry() {
    let mut db = fresh_with_example();
    assert_eq!(db.add_channel(EXAMPLE_FEED, OTHER_BODY), Err(StoreError::DuplicateKey));
    assert_eq!(db.len(), 1);
    assert_eq!(db.get_channel(EXAMPLE_FEED).unwrap().title(), "APNIC Blog");
}

#[test]
fn duplicate_add_does_not_parse_body() {
    let mut db = fresh_with_example();
    assert_eq!(db.add_channel(EXAMPLE_FEED, "not a feed"), Err(StoreError::DuplicateKey));
}

#[test]
fn remove_absent_is_not_found_and_changes_nothing() {
    let mut db = fresh_with_example();
    assert!(matches!(db.rm_channel(OTHER_FEED), Err(StoreError::NotFound)));
    assert_eq!(db.len(), 1);
    let mut empty = Database::new();
    assert!(matches!(empty.rm_channel(EXAMPLE_FEED), Err(StoreError::NotFound)));
    assert_eq!(empty.len(), 0);
}

#[test]
fn get_returns_inserted_channel_and_nothing_after_remove() {
    let mut db = fresh_with_example();
    let c = db.get_channel(EXAMPLE_FEED).unwrap();
    assert_eq!(c.title(), "APNIC Blog");
    assert_eq!(c.link(), "https://blog.apnic.net");
    assert_eq!(c.items().len(), 1);
    let removed = db.rm_channel(EXAMPLE_FEED).unwrap();
    assert_eq!(removed.title(), "APNIC Blog");
    assert!(db.get_channel(EXAMPLE_FEED).is_none());
    assert!(!db.contains_channel(EXAMPLE_FEED));
}

#[test]
fn add_with_malformed_body_is_parse_error() {
    let mut db = Database::new();
    assert_eq!(db.add_channel(EXAMPLE_FEED, "<html></html>"), Err(StoreError::ParseError));
    assert_eq!(db.len(), 0);
}

#[test]
fn update_inserts_then_replaces() {
    let mut db = Database::new();
    assert_eq!(db.update_channel(OTHER_FEED, EXAMPLE_BODY), Ok(()));
    assert_eq!(db.get_channel(OTHER_FEED).unwrap().title(), "APNIC Blog");
    assert_eq!(db.update_channel(OTHER_FEED, OTHER_BODY), Ok(()));
    assert_eq!(db.get_channel(OTHER_FEED).unwrap().title(), "Example");
    assert_eq!(db.len(), 1);
}

#[test]
fn update_with_malformed_body_keeps_old_channel() {
    let mut db = fresh_with_example();
    assert_eq!(db.update_channel(EXAMPLE_FEED, "garbage"), Err(StoreError::ParseError));
    assert_eq!(db.get_channel(EXAMPLE_FEED).unwrap().title(), "APNIC Blog");
}

#[test]
fn file_key_is_declared_self_link() {
    let mut db = Database::new();
    assert_eq!(db.add_channel_from_file(OTHER_BODY), Ok(String::from("https://example.com/feed")));
    assert_eq!(db.get_channel("https://example.com/feed").unwrap().title(), "Example");
    assert!(db.get_channel("https://example.com/").is_none());
}

#[test]
fn file_without_atom_block_is_missing_link() {
    let mut db = Database::new();
    assert_eq!(db.add_channel_from_file(NO_ATOM_BODY), Err(StoreError::MissingLink));
    assert_eq!(db.len(), 0);
}

#[test]
fn file_self_link_without_href_is_missing_link() {
    let mut db = Database::new();
    assert_eq!(db.add_channel_from_file(NO_HREF_BODY), Err(StoreError::MissingLink));
}

#[test]
fn file_with_present_key_is_duplicate() {
    let mut db = fresh_with_example();
    assert_eq!(db.add_channel_from_file(EXAMPLE_BODY), Err(StoreError::DuplicateKey));
    assert_eq!(db.len(), 1);
}

#[test]
fn file_that_is_not_a_feed_is_parse_error() {
    let mut db = Database::new();
    assert_eq!(db.add_channel_from_file("plain text"), Err(StoreError::ParseError));
}

#[test]
fn apnic_scenario() {
    let mut db = Database::new();
    assert_eq!(db.add_channel(EXAMPLE_FEED, EXAMPLE_BODY), Ok(()));
    assert_eq!(db.add_channel(EXAMPLE_FEED, EXAMPLE_BODY), Err(StoreError::DuplicateKey));
    assert_eq!(db.add_channel(OTHER_FEED, OTHER_BODY), Ok(()));
    let before = db.get_channel(EXAMPLE_FEED).unwrap().clone();
    assert!(db.rm_channel(OTHER_FEED).is_ok());
    let after = db.get_channel(EXAMPLE_FEED).unwrap();
    assert_eq!(&before, after);
}

#[test]
fn save_then_load_round_trips() {
    let mut db = fresh_with_example();
    assert!(db.add_channel(OTHER_FEED, OTHER_BODY).is_ok());
    let text = db.to_string();
    let loaded = Database::from_str(&text).unwrap();
    assert_eq!(loaded.len(), 2);
    for url in [EXAMPLE_FEED, OTHER_FEED] {
        let a = db.get_channel(url).unwrap().to_string();
        let b = loaded.get_channel(url).unwrap().to_string();
        assert_eq!(a, b);
    }
    assert_eq!(loaded.to_string(), text);
}

#[test]
fn empty_store_saves_as_empty_object() {
    let db = Database::new();
    assert_eq!(db.to_string(), "{}");
    assert_eq!(Database::from_str("{}").unwrap().len(), 0);
}

#[test]
fn saved_text_holds_channel_document() {
    let db = fresh_with_example();
    let text = db.to_string();
    assert!(text.contains("<title>APNIC Blog</title>"));
    assert!(text.contains("blog.apnic.net/feed/"));
}

#[test]
fn load_rejects_text_that_is_not_an_object() {
    assert!(matches!(Database::from_str("[1, 2]"), Err(StoreError::ParseError)));
    assert!(matches!(Database::from_str("{\"a\": 1}"), Err(StoreError::ParseError)));
}

#[test]
fn load_reports_corrupt_entry_key() {
    let text = r#"{"https://bad.example/feed":"not xml at all"}"#;
    assert_eq!(
        Database::from_str(text).err(),
        Some(StoreError::CorruptEntry(String::from("https://bad.example/feed")))
    );
}

#[test]
fn channel_urls_lists_each_key_once() {
    let mut db = fresh_with_example();
    assert!(db.add_channel(OTHER_FEED, OTHER_BODY).is_ok());
    let mut urls = db.channel_urls();
    urls.sort();
    assert_eq!(urls, vec![String::from(EXAMPLE_FEED), String::from(OTHER_FEED)]);
}
