use astra::css::{CssParser, Stylesheet};
use astra::dom::{AttrMap, Node};
use astra::layout::{display_type, BoxType};
use astra::style::StyleComputer;

fn styled_box(css: &str, tag: &str) -> BoxType {
    let ss: Stylesheet = CssParser::new(css.to_string()).parse().unwrap();
    let computer = StyleComputer::new(ss);
    let dom = Node::elem(tag.to_string(), AttrMap::new(), vec![]);
    let styled = computer.compute_styles(&dom);
    display_type(&styled)
}

#[test]
fn display_inline_gives_inline_box() {
    assert_eq!(styled_box("span { display: inline; }", "span"), BoxType::Inline);
}

#[test]
fn display_none_gives_inline_box() {
    assert_eq!(styled_box("div { display: none; }", "div"), BoxType::Inline);
}

#[test]
fn display_block_gives_block_box() {
    assert_eq!(styled_box("div { display: block; }", "div"), BoxType::Block);
}

#[test]
fn no_display_gives_block_box() {
    assert_eq!(styled_box("div { color: red; }", "div"), BoxType::Block);
}

#[test]
fn text_node_gives_block_box() {
    let computer = StyleComputer::new(CssParser::new(String::new()).parse().unwrap());
    let styled = computer.compute_styles(&Node::text("hello".to_string()));
    assert_eq!(display_type(&styled), BoxType::Block);
}
