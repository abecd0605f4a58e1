use astra::dom::{Node, NodeType};
use astra::html::{is_void_element, HtmlParser, HtmlTokenizer, ParseError, Token};

fn parse(html: &str) -> Result<Node, ParseError> {
    HtmlParser::new(html.to_string()).parse()
}

fn tag_of(n: &Node) -> &str {
    match &n.node_type {
        NodeType::Element(e) => e.tag_name.as_str(),
        NodeType::Text(_) => panic!("expected an element"),
    }
}

#[test]
fn nested_elements_keep_their_parent() {
    let root = parse("<section><li>some words</li></section>").unwrap();
    assert_eq!(tag_of(&root), "section");
    assert_eq!(root.children.len(), 1);
    assert_eq!(tag_of(&root.children[0]), "li");
}

#[test]
fn attributes_are_kept() {
    let root = parse("<div id=\"x-1\" data-x=\"a_b\" role=\"main\">t</div>").unwrap();
    let NodeType::Element(e) = &root.node_type else { panic!() };
    assert_eq!(e.attributes.get("id").map(|s| s.as_str()), Some("x-1"));
    assert_eq!(e.attributes.get("data-x").map(|s| s.as_str()), Some("a_b"));
    assert_eq!(e.attributes.get("role").map(|s| s.as_str()), Some("main"));
}

#[test]
fn text_is_kept_trimmed() {
    let root = parse("<p>  hello world  </p>").unwrap();
    let found = root.children.iter().any(|c| match &c.node_type {
        NodeType::Text(t) => t.trim() == "hello world",
        _ => false,
    });
    assert!(found);
}

#[test]
fn unclosed_tag_is_an_error() {
    assert!(matches!(parse("<div>some text"), Err(ParseError::MissingClosingTag(t)) if t == "div"));
}

#[test]
fn valid_html_parses() {
    assert!(parse("<article>abc 123</article>").is_ok());
    assert!(parse("<main></main>").is_ok());
}

#[test]
fn mismatched_end_tag_is_an_error() {
    assert!(matches!(parse("<div></span>"), Err(ParseError::MalformedTag(_))));
}

#[test]
fn void_elements_take_no_end_tag() {
    let root = parse("<p>a<br>b</p>").unwrap();
    assert_eq!(root.children.len(), 3);
    assert!(is_void_element("IMG"));
    assert!(!is_void_element("div"));
}

#[test]
fn several_top_level_nodes_form_a_document() {
    let root = parse("<p>a</p><p>b</p>").unwrap();
    assert_eq!(tag_of(&root), "document");
    assert_eq!(root.children.len(), 2);
}

#[test]
fn tokens_in_order() {
    let mut t = HtmlTokenizer::new("<!DOCTYPE html><!-- c --><a href=x/>".to_string());
    assert!(matches!(t.next_token(), Ok(Token::Doctype(d)) if d == "html"));
    assert!(matches!(t.next_token(), Ok(Token::Comment(c)) if c == " c "));
    match t.next_token() {
        Ok(Token::StartTag { name, attributes, self_closing }) => {
            assert_eq!(name, "a");
            assert_eq!(attributes.get("href").map(|s| s.as_str()), Some("x"));
            assert!(self_closing);
        }
        _ => panic!("expected a start tag"),
    }
    assert!(matches!(t.next_token(), Ok(Token::Eof)));
    assert!(!t.has_more_tokens());
}

#[test]
fn malformed_input_does_not_panic() {
    for input in ["<", "</", "<<>>", "<a b='", "<!", "<!-", "text < more", "\u{0}<x\u{ffff}>"] {
        let _ = parse(input);
    }
}

#[test]
fn parse_error_messages() {
    assert_eq!(ParseError::UnexpectedEof.message(), "Unexpected end of input");
    assert_eq!(ParseError::InvalidCharacter('x').message(), "Invalid character: 'x'");
    assert_eq!(ParseError::MalformedTag("p".to_string()).message(), "Missing closing tag: 'p'");
    assert_eq!(ParseError::MissingClosingTag("p".to_string()).message(), "Missingclosing tag: 'p'");
    assert_eq!(ParseError::InvalidAttribute("a".to_string()).message(), "Invalid attribute: 'a'");
}
