use astra::error::{error_page_html, BrowserError};

#[test]
fn test_display_html_parse_error() {
    let e = BrowserError::HtmlParseError("unexpected EOF".to_string());
    assert!(e.message().contains("HTML parse error"));
    assert!(e.message().contains("unexpected EOF"));
}

#[test]
fn test_display_network_error() {
    let e = BrowserError::NetworkError("connection refused".to_string());
    assert!(e.message().contains("Network error"));
}

#[test]
fn test_display_io_error() {
    let e = BrowserError::IoError("no such file".to_string());
    assert!(e.message().contains("I/O error"));
}

#[test]
fn test_display_css_parse_error() {
    let e = BrowserError::CssParseError("missing semicolon".to_string());
    assert!(e.message().contains("CSS parse error"));
}

#[test]
fn test_display_render_error() {
    let e = BrowserError::RenderError("buffer overflow".to_string());
    assert!(e.message().contains("Render error"));
}

#[test]
fn test_error_page_html_network() {
    let e = BrowserError::NetworkError("timeout".to_string());
    let page = error_page_html(&e);
    assert!(page.contains("<html>"));
    assert!(page.contains("Failed to load page"));
    assert!(page.contains("timeout"));
}

#[test]
fn test_error_page_html_io() {
    let e = BrowserError::IoError("not found".to_string());
    let page = error_page_html(&e);
    assert!(page.contains("File not found"));
}

#[test]
fn test_error_page_html_parse() {
    let e = BrowserError::HtmlParseError("bad tag".to_string());
    let page = error_page_html(&e);
    assert!(page.contains("Page could not be displayed"));
    assert!(page.contains("bad tag"));
}

#[test]
fn error_page_is_exact() {
    let page = error_page_html(&BrowserError::RenderError("oops".to_string()));
    assert_eq!(page, "<html><body><h1>Error: Rendering error</h1><p>oops</p></body></html>");
    let css = error_page_html(&BrowserError::CssParseError("x".to_string()));
    assert_eq!(css, "<html><body><h1>Error: Stylesheet error</h1><p>x</p></body></html>");
}

#[test]
fn message_is_kind_then_detail() {
    assert_eq!(BrowserError::IoError("gone".to_string()).message(), "I/O error: gone");
    assert_eq!(BrowserError::CssParseError("x".to_string()).message(), "CSS parse error: x");
}
