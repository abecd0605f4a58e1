use astra::css::{CssParser, Stylesheet, Unit, Value};
use astra::dom::{AttrMap, Node};
use astra::style::{parse_inline_style, StyleComputer};

fn elem(tag: &str, attrs: &[(&str, &str)], children: Vec<Node>) -> Node {
    let mut map = AttrMap::new();
    for (k, v) in attrs {
        map.insert(k.to_string(), v.to_string());
    }
    Node::elem(tag.to_string(), map, children)
}

fn parse_css(css: &str) -> Stylesheet {
    CssParser::new(css.to_string()).parse().unwrap()
}

#[test]
fn test_tag_selector_matches() {
    let ss = parse_css("p { color: red; }");
    let computer = StyleComputer::new(ss);
    let dom = elem("p", &[], vec![]);
    let styled = computer.compute_styles(&dom);
    assert!(styled.styles.contains_key("color"));
}

#[test]
fn test_tag_selector_no_match() {
    let ss = parse_css("p { color: red; }");
    let computer = StyleComputer::new(ss);
    let dom = elem("div", &[], vec![]);
    let styled = computer.compute_styles(&dom);
    assert!(!styled.styles.contains_key("color"));
}

#[test]
fn test_class_selector_matches() {
    let ss = parse_css(".highlight { color: blue; }");
    let computer = StyleComputer::new(ss);
    let dom = elem("span", &[("class", "highlight")], vec![]);
    let styled = computer.compute_styles(&dom);
    assert!(styled.styles.contains_key("color"));
}

#[test]
fn test_class_selector_multiple_classes() {
    let ss = parse_css(".bold { font-weight: bold; }");
    let computer = StyleComputer::new(ss);
    let dom = elem("p", &[("class", "text bold highlight")], vec![]);
    let styled = computer.compute_styles(&dom);
    assert!(styled.styles.contains_key("font-weight"));
}

#[test]
fn test_id_selector_matches() {
    let ss = parse_css("#main { color: green; }");
    let computer = StyleComputer::new(ss);
    let dom = elem("div", &[("id", "main")], vec![]);
    let styled = computer.compute_styles(&dom);
    assert!(styled.styles.contains_key("color"));
}

#[test]
fn test_combined_selector_all_parts_must_match() {
    let ss = parse_css("div.container { color: red; }");
    let computer = StyleComputer::new(ss);

    let dom_match = elem("div", &[("class", "container")], vec![]);
    let styled = computer.compute_styles(&dom_match);
    assert!(styled.styles.contains_key("color"));

    let dom_no = elem("span", &[("class", "container")], vec![]);
    let styled_no = computer.compute_styles(&dom_no);
    assert!(!styled_no.styles.contains_key("color"));
}

#[test]
fn test_higher_specificity_wins() {
    let ss = parse_css("p { display: block; } #hero { display: inline; }");
    let computer = StyleComputer::new(ss);
    let dom = elem("p", &[("id", "hero")], vec![]);
    let styled = computer.compute_styles(&dom);
    let Value::Keyword(display) = styled.styles.get("display").unwrap() else { panic!() };
    assert_eq!(display, "inline");
}

#[test]
fn test_inline_style_overrides_external() {
    let ss = parse_css("p { display: block; }");
    let computer = StyleComputer::new(ss);
    let dom = elem("p", &[("style", "display: inline;")], vec![]);
    let styled = computer.compute_styles(&dom);
    let Value::Keyword(display) = styled.styles.get("display").unwrap() else { panic!() };
    assert_eq!(display, "inline");
}

#[test]
fn test_inline_style_length_value() {
    let ss = parse_css("");
    let computer = StyleComputer::new(ss);
    let dom = elem("div", &[("style", "font-size: 18px;")], vec![]);
    let styled = computer.compute_styles(&dom);
    let Value::Length(size, Unit::Px) = styled.styles.get("font-size").unwrap() else { panic!() };
    assert_eq!(size.parse::<f32>().unwrap(), 18.0);
}

#[test]
fn test_color_inherited_by_child() {
    let ss = parse_css("div { color: red; }");
    let computer = StyleComputer::new(ss);
    let child = elem("span", &[], vec![]);
    let dom = elem("div", &[], vec![child]);
    let styled = computer.compute_styles(&dom);
    let child_styled = &styled.children[0];
    assert!(child_styled.styles.contains_key("color"));
}

#[test]
fn test_child_overrides_inherited_color() {
    let ss = parse_css("div { display: block; } span { display: inline; }");
    let computer = StyleComputer::new(ss);
    let child = elem("span", &[], vec![]);
    let dom = elem("div", &[], vec![child]);
    let styled = computer.compute_styles(&dom);
    let child_styled = &styled.children[0];
    let Value::Keyword(display) = child_styled.styles.get("display").unwrap() else { panic!() };
    assert_eq!(display, "inline");
}

#[test]
fn test_non_inherited_property_not_propagated() {
    let ss = parse_css("div { margin: 10px; }");
    let computer = StyleComputer::new(ss);
    let child = elem("span", &[], vec![]);
    let dom = elem("div", &[], vec![child]);
    let styled = computer.compute_styles(&dom);
    let child_styled = &styled.children[0];
    assert!(!child_styled.styles.contains_key("margin"));
}

#[test]
fn test_text_node_inherits_color() {
    let ss = parse_css("p { color: green; }");
    let computer = StyleComputer::new(ss);
    let text = Node::text("hello".to_string());
    let dom = elem("p", &[], vec![text]);
    let styled = computer.compute_styles(&dom);
    let text_styled = &styled.children[0];
    assert!(text_styled.styles.contains_key("color"));
}

#[test]
fn later_rule_wins_at_equal_specificity() {
    let ss = parse_css("p { color: red; } p { color: blue; }");
    let computer = StyleComputer::new(ss);
    let styled = computer.compute_styles(&elem("p", &[], vec![]));
    let Value::ColorValue(c) = styled.styles.get("color").unwrap() else { panic!() };
    assert_eq!((c.r, c.g, c.b), (0, 0, 255));
}

#[test]
fn child_value_replaces_inherited_one() {
    let ss = parse_css("div { color: red; } span { color: blue; }");
    let computer = StyleComputer::new(ss);
    let dom = elem("div", &[], vec![elem("span", &[], vec![Node::text("x".to_string())])]);
    let styled = computer.compute_styles(&dom);
    let span = &styled.children[0];
    let Value::ColorValue(c) = span.styles.get("color").unwrap() else { panic!() };
    assert_eq!(c.b, 255);
    let Value::ColorValue(t) = span.children[0].styles.get("color").unwrap() else { panic!() };
    assert_eq!(t.b, 255);
}

#[test]
fn inline_style_pieces() {
    let decls = parse_inline_style(" color : Red ;; margin:; :x; width: 50% ; bogus ");
    assert_eq!(decls.len(), 2);
    assert_eq!(decls[0].name, "color");
    assert!(matches!(decls[0].value, Value::ColorValue(_)));
    assert_eq!(decls[1].name, "width");
    let Value::Length(w, Unit::Percent) = &decls[1].value else { panic!() };
    assert_eq!(w, "50");
}

#[test]
fn missing_id_attribute_matches_no_id_selector() {
    let ss = parse_css("#a { color: red; }");
    let computer = StyleComputer::new(ss);
    let styled = computer.compute_styles(&elem("div", &[("class", "a")], vec![]));
    assert!(!styled.styles.contains_key("color"));
}
