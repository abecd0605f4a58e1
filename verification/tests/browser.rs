use astra::browser::{
    extract_style_content, network_page_text, page_document, page_stylesheet, try_extract_style_content,
    ContentSource, History, LoadingState, ResourceCache,
};
use astra::dom::NodeType;
use astra::error::BrowserError;

#[test]
fn test_cache_stores_and_retrieves() {
    let mut cache = ResourceCache::new();
    cache.cache("http://example.com", "<html></html>".to_string());
    assert_eq!(cache.get_cached("http://example.com"), Some("<html></html>"));
}

#[test]
fn test_cache_miss_returns_none() {
    let cache = ResourceCache::new();
    assert_eq!(cache.get_cached("http://missing.com"), None);
}

#[test]
fn test_cache_invalidate() {
    let mut cache = ResourceCache::new();
    cache.cache("http://example.com", "content".to_string());
    cache.invalidate("http://example.com");
    assert_eq!(cache.get_cached("http://example.com"), None);
}

#[test]
fn test_cache_clear() {
    let mut cache = ResourceCache::new();
    cache.cache("http://a.com", "a".to_string());
    cache.cache("http://b.com", "b".to_string());
    cache.clear_cache();
    assert!(cache.is_empty());
}

#[test]
fn test_extract_style_content_found() {
    let html = "<html><head><style>body { color: red; }</style></head></html>";
    let css = extract_style_content(html);
    assert!(css.contains("color: red"));
}

#[test]
fn test_extract_style_content_not_found() {
    let html = "<html><head></head></html>";
    let css = extract_style_content(html);
    assert!(css.is_empty());
}

#[test]
fn cache_keeps_the_latest_source() {
    let mut cache = ResourceCache::new();
    cache.cache("u", "one".to_string());
    cache.cache("u", "two".to_string());
    assert_eq!(cache.get_cached("u"), Some("two"));
    assert_eq!(cache.len(), 1);
    cache.invalidate("other");
    assert_eq!(cache.len(), 1);
}

#[test]
fn style_tag_in_upper_case_and_with_attributes() {
    let html = "<HEAD><STYLE type=\"text/css\">p { margin: 0; }</Style></HEAD>";
    assert_eq!(extract_style_content(html), "p { margin: 0; }");
    assert_eq!(try_extract_style_content(html), Some("p { margin: 0; }".to_string()));
}

#[test]
fn unclosed_style_gives_nothing() {
    assert_eq!(extract_style_content("<style>p { }"), "");
}

#[test]
fn only_the_first_style_element_counts() {
    let html = "<style>a{}</style><style>b{}</style>";
    assert_eq!(extract_style_content(html), "a{}");
}

#[test]
fn history_visits_and_navigation() {
    let mut h = History::new();
    assert_eq!(h.current_url(), None);
    assert!(!h.can_go_back());
    assert!(!h.can_go_forward());
    h.push("a");
    h.push("b");
    h.push("c");
    assert_eq!(h.len(), 3);
    assert_eq!(h.navigate_back(), Some("b"));
    assert_eq!(h.navigate_back(), Some("a"));
    assert_eq!(h.navigate_back(), None);
    assert_eq!(h.navigate_forward(), Some("b"));
    assert!(h.can_go_forward());
    h.push("d");
    assert!(!h.can_go_forward());
    assert_eq!(h.len(), 3);
    assert_eq!(h.current_url(), Some("d"));
    assert_eq!(h.navigate_back(), Some("b"));
    assert_eq!(h.navigate_forward(), Some("d"));
    assert_eq!(h.navigate_forward(), None);
}

#[test]
fn loading_state_after_a_load() {
    let ok: Result<Vec<u8>, BrowserError> = Ok(vec![]);
    assert_eq!(LoadingState::settled(&ok), LoadingState::Complete);
    let err: Result<Vec<u8>, BrowserError> = Err(BrowserError::IoError("'x': gone".to_string()));
    assert_eq!(LoadingState::settled(&err), LoadingState::Error("I/O error: 'x': gone".to_string()));
}

#[test]
fn content_sources() {
    assert!(matches!(ContentSource::of("file:///tmp/a.html"), ContentSource::File(p) if p == "/tmp/a.html"));
    assert!(matches!(ContentSource::of("https://example.com"), ContentSource::Network(u) if u == "https://example.com"));
    assert!(matches!(ContentSource::of("http://example.com"), ContentSource::Network(_)));
    assert!(matches!(ContentSource::of("test/index.html"), ContentSource::Path(p) if p == "test/index.html"));
}

#[test]
fn page_document_falls_back_to_the_error_page() {
    let ok = page_document("<p>hi</p>".to_string()).unwrap();
    assert!(matches!(&ok.node_type, NodeType::Element(e) if e.tag_name == "p"));
    let shown = page_document("<div>unclosed".to_string()).unwrap();
    let NodeType::Element(e) = &shown.node_type else { panic!() };
    assert_eq!(e.tag_name, "html");
    let body = &shown.children[0];
    let h1 = &body.children[0];
    let NodeType::Text(t) = &h1.children[0].node_type else { panic!() };
    assert_eq!(t, "Error: Page could not be displayed");
}

#[test]
fn page_stylesheet_or_no_rules() {
    let ss = page_stylesheet("<style>p { color: red; }</style>").unwrap();
    assert_eq!(ss.rules.len(), 1);
    let none = page_stylesheet("<style>THIS IS NOT CSS!!!</style>").unwrap();
    assert!(none.rules.is_empty());
    let empty = page_stylesheet("<p>no style</p>").unwrap();
    assert!(empty.rules.is_empty());
}

#[test]
fn new_history_is_empty() {
    let h = History::new();
    assert!(h.is_empty());
    assert_eq!(h.current_url(), None);
    assert!(!h.can_go_back());
    assert!(!h.can_go_forward());
}

#[test]
fn two_visits_back_and_forward() {
    let mut h = History::new();
    h.push("test/index.html");
    h.push("test/index.html");
    assert_eq!(h.len(), 2);
    assert!(h.can_go_back());
    assert!(!h.can_go_forward());
    assert_eq!(h.navigate_back(), Some("test/index.html"));
    assert!(!h.can_go_back());
    assert!(h.can_go_forward());
    assert_eq!(h.navigate_forward(), Some("test/index.html"));
    assert!(h.can_go_back());
    assert!(!h.can_go_forward());
}

#[test]
fn back_at_start_is_none() {
    let mut h = History::new();
    h.push("test/index.html");
    assert_eq!(h.navigate_back(), None);
}

#[test]
fn forward_at_end_is_none() {
    let mut h = History::new();
    h.push("test/index.html");
    assert_eq!(h.navigate_forward(), None);
}

#[test]
fn new_visit_truncates_forward_history() {
    let mut h = History::new();
    h.push("test/index.html");
    h.push("test/index.html");
    h.navigate_back();
    h.push("test/index.html");
    assert!(!h.can_go_forward());
    assert_eq!(h.len(), 2);
}

#[test]
fn network_page_text_reads_utf8() {
    let r = network_page_text("<p>héllo</p>".as_bytes());
    assert_eq!(r.unwrap(), "<p>héllo</p>");
}

#[test]
fn network_page_text_refuses_bad_utf8() {
    let r = network_page_text(&[0x3c, 0xff, 0x3e]);
    match r {
        Err(BrowserError::NetworkError(m)) => {
            assert_eq!(m, "UTF-8 decode error: invalid utf-8 sequence of 1 bytes from index 1")
        }
        other => panic!("unexpected {:?}", other),
    }
}

#[test]
fn store_fetched_keeps_a_source() {
    let mut cache = ResourceCache::new();
    let r = cache.store_fetched("http://a.com", Ok("<p>a</p>".to_string()));
    assert_eq!(r.unwrap(), "<p>a</p>");
    assert_eq!(cache.get_cached("http://a.com"), Some("<p>a</p>"));
}

#[test]
fn store_fetched_passes_an_error_on() {
    let mut cache = ResourceCache::new();
    let r = cache.store_fetched("http://a.com", Err(BrowserError::IoError("gone".to_string())));
    assert_eq!(r, Err(BrowserError::IoError("gone".to_string())));
    assert!(cache.is_empty());
}
