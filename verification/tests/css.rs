use astra::css::{
    resolve_cascade, CssParser, ParseError, CssTokenizer, Declaration, MatchedDeclaration, Selector,
    SimpleSelector, StyleOrigin, Stylesheet, Unit, Value,
};

fn number(text: &str) -> f32 {
    text.parse::<f32>().unwrap()
}

#[test]
fn test_parse_simple_tag_selector() {
    let mut parser = CssParser::new("h1 { color: red; }".to_string());
    let stylesheet = parser.parse().unwrap();

    assert_eq!(stylesheet.rules.len(), 1);
    let rule = &stylesheet.rules[0];

    assert_eq!(rule.selectors.len(), 1);
    let Selector::Simple(selector) = &rule.selectors[0];
    assert_eq!(selector.tag_name, Some("h1".to_string()));
    assert_eq!(selector.id, None);
    assert!(selector.class.is_empty());

    assert_eq!(rule.declarations.len(), 1);
    let decl = &rule.declarations[0];
    assert_eq!(decl.name, "color");
    let Value::ColorValue(color) = &decl.value else { panic!("Expected ColorValue") };
    assert_eq!((color.r, color.g, color.b), (255, 0, 0));
}

#[test]
fn test_parse_class_selector() {
    let mut parser = CssParser::new(".highlight { font-size: 16px; }".to_string());
    let stylesheet = parser.parse().unwrap();

    let rule = &stylesheet.rules[0];
    let Selector::Simple(selector) = &rule.selectors[0];
    assert_eq!(selector.tag_name, None);
    assert_eq!(selector.id, None);
    assert_eq!(selector.class, vec!["highlight".to_string()]);

    let decl = &rule.declarations[0];
    assert_eq!(decl.name, "font-size");
    let Value::Length(size, Unit::Px) = &decl.value else { panic!("Expected Length/Px") };
    assert_eq!(number(size), 16.0);
}

#[test]
fn test_parse_id_selector() {
    let mut parser = CssParser::new("#main { width: 100%; }".to_string());
    let stylesheet = parser.parse().unwrap();

    let rule = &stylesheet.rules[0];
    let Selector::Simple(selector) = &rule.selectors[0];
    assert_eq!(selector.tag_name, None);
    assert_eq!(selector.id, Some("main".to_string()));
    assert!(selector.class.is_empty());

    let decl = &rule.declarations[0];
    assert_eq!(decl.name, "width");
    let Value::Length(size, Unit::Percent) = &decl.value else { panic!("Expected Length/Percent") };
    assert_eq!(number(size), 100.0);
}

#[test]
fn test_parse_combined_selector() {
    let mut parser = CssParser::new("div.container#main { margin: 10px; }".to_string());
    let stylesheet = parser.parse().unwrap();

    let rule = &stylesheet.rules[0];
    let Selector::Simple(selector) = &rule.selectors[0];
    assert_eq!(selector.tag_name, Some("div".to_string()));
    assert_eq!(selector.id, Some("main".to_string()));
    assert_eq!(selector.class, vec!["container".to_string()]);
}

#[test]
fn test_parse_multiple_selectors() {
    let mut parser = CssParser::new("h1, h2, h3 { font-weight: bold; }".to_string());
    let stylesheet = parser.parse().unwrap();

    let rule = &stylesheet.rules[0];
    assert_eq!(rule.selectors.len(), 3);

    for (i, expected_tag) in ["h1", "h2", "h3"].iter().enumerate() {
        let Selector::Simple(selector) = &rule.selectors[i];
        assert_eq!(selector.tag_name, Some(expected_tag.to_string()));
    }
}

#[test]
fn test_parse_multiple_declarations() {
    let mut parser = CssParser::new("p { color: blue; font-size: 14px; margin: 5px; }".to_string());
    let stylesheet = parser.parse().unwrap();

    let rule = &stylesheet.rules[0];
    assert_eq!(rule.declarations.len(), 3);

    let Value::ColorValue(color) = &rule.declarations[0].value else { panic!() };
    assert_eq!(color.b, 255);

    let Value::Length(size, Unit::Px) = &rule.declarations[1].value else { panic!() };
    assert_eq!(number(size), 14.0);

    let Value::Length(margin, Unit::Px) = &rule.declarations[2].value else { panic!() };
    assert_eq!(number(margin), 5.0);
}

#[test]
fn test_parse_keyword_value() {
    let mut parser = CssParser::new("div { display: block; }".to_string());
    let stylesheet = parser.parse().unwrap();

    let decl = &stylesheet.rules[0].declarations[0];
    assert_eq!(decl.name, "display");
    let Value::Keyword(kw) = &decl.value else { panic!("Expected Keyword") };
    assert_eq!(kw, "block");
}

#[test]
fn test_parse_multiple_rules() {
    let css = "h1 { color: red; } p { font-size: 12px; }";
    let mut parser = CssParser::new(css.to_string());
    let stylesheet = parser.parse().unwrap();
    assert_eq!(stylesheet.rules.len(), 2);
}

#[test]
fn test_specificity_tag_only() {
    let sel = SimpleSelector { tag_name: Some("div".into()), id: None, class: vec![] };
    assert_eq!(sel.specificity(), (0, 0, 1));
}

#[test]
fn test_specificity_class_only() {
    let sel = SimpleSelector { tag_name: None, id: None, class: vec!["foo".into()] };
    assert_eq!(sel.specificity(), (0, 1, 0));
}

#[test]
fn test_specificity_id_only() {
    let sel = SimpleSelector { tag_name: None, id: Some("bar".into()), class: vec![] };
    assert_eq!(sel.specificity(), (1, 0, 0));
}

#[test]
fn test_specificity_combined() {
    let sel = SimpleSelector {
        tag_name: Some("div".into()),
        id: Some("main".into()),
        class: vec!["container".into()],
    };
    assert_eq!(sel.specificity(), (1, 1, 1));
}

#[test]
fn test_specificity_multiple_classes() {
    let sel = SimpleSelector {
        tag_name: None,
        id: None,
        class: vec!["a".into(), "b".into(), "c".into()],
    };
    assert_eq!(sel.specificity(), (0, 3, 0));
}

#[test]
fn test_id_beats_class() {
    let id_sel = SimpleSelector { tag_name: None, id: Some("x".into()), class: vec![] };
    let class_sel = SimpleSelector {
        tag_name: None,
        id: None,
        class: vec!["a".into(), "b".into(), "c".into(), "d".into()],
    };
    assert!(id_sel.specificity() > class_sel.specificity());
}

#[test]
fn test_rule_max_specificity() {
    let mut parser = CssParser::new("h1, #hero { color: red; }".to_string());
    let stylesheet = parser.parse().unwrap();
    assert_eq!(stylesheet.rules[0].max_specificity(), (1, 0, 0));
}

#[test]
fn test_inline_overrides_external_same_specificity() {
    let external = MatchedDeclaration {
        declaration: Declaration { name: "color".into(), value: Value::Keyword("blue".into()) },
        specificity: (0, 1, 0),
        origin: StyleOrigin::External,
    };
    let inline = MatchedDeclaration {
        declaration: Declaration { name: "color".into(), value: Value::Keyword("red".into()) },
        specificity: (0, 1, 0),
        origin: StyleOrigin::Inline,
    };

    let decls = [external, inline];
    let winner = resolve_cascade(&decls).unwrap();
    let Value::Keyword(kw) = &winner.declaration.value else { panic!() };
    assert_eq!(kw, "red");
}

#[test]
fn test_higher_specificity_wins_same_origin() {
    let low = MatchedDeclaration {
        declaration: Declaration { name: "color".into(), value: Value::Keyword("blue".into()) },
        specificity: (0, 0, 1),
        origin: StyleOrigin::External,
    };
    let high = MatchedDeclaration {
        declaration: Declaration { name: "color".into(), value: Value::Keyword("red".into()) },
        specificity: (0, 1, 0),
        origin: StyleOrigin::External,
    };

    let decls = [low, high];
    let winner = resolve_cascade(&decls).unwrap();
    let Value::Keyword(kw) = &winner.declaration.value else { panic!() };
    assert_eq!(kw, "red");
}

#[test]
fn test_inline_beats_higher_specificity_external() {
    let external_high = MatchedDeclaration {
        declaration: Declaration { name: "color".into(), value: Value::Keyword("blue".into()) },
        specificity: (1, 2, 3),
        origin: StyleOrigin::External,
    };
    let inline_low = MatchedDeclaration {
        declaration: Declaration { name: "color".into(), value: Value::Keyword("red".into()) },
        specificity: (0, 0, 0),
        origin: StyleOrigin::Inline,
    };

    let decls = [external_high, inline_low];
    let winner = resolve_cascade(&decls).unwrap();
    let Value::Keyword(kw) = &winner.declaration.value else { panic!() };
    assert_eq!(kw, "red");
}

#[test]
fn test_resolve_cascade_empty() {
    let result = resolve_cascade(&[]);
    assert!(result.is_none());
}

#[test]
fn test_css_parse_error_falls_back_to_empty_stylesheet() {
    let mut tokenizer = CssTokenizer::new("THIS IS NOT CSS!!!".to_string());
    let stylesheet = tokenizer.parse().unwrap_or_else(|_| Stylesheet { rules: vec![] });
    assert!(stylesheet.rules.is_empty());
}

#[test]
fn equal_specificity_later_declaration_wins() {
    let first = MatchedDeclaration {
        declaration: Declaration { name: "color".into(), value: Value::Keyword("blue".into()) },
        specificity: (0, 1, 0),
        origin: StyleOrigin::External,
    };
    let second = MatchedDeclaration {
        declaration: Declaration { name: "color".into(), value: Value::Keyword("green".into()) },
        specificity: (0, 1, 0),
        origin: StyleOrigin::External,
    };
    let decls = [first, second];
    let winner = resolve_cascade(&decls).unwrap();
    let Value::Keyword(kw) = &winner.declaration.value else { panic!() };
    assert_eq!(kw, "green");
}

#[test]
fn unit_without_number_is_a_keyword() {
    let mut parser = CssParser::new("p { border: solidpx; height: 1.5em; top: -.5%; }".to_string());
    let stylesheet = parser.parse().unwrap();
    let decls = &stylesheet.rules[0].declarations;
    let Value::Keyword(kw) = &decls[0].value else { panic!("Expected Keyword") };
    assert_eq!(kw, "solidpx");
    let Value::Length(h, Unit::Em) = &decls[1].value else { panic!("Expected Length/Em") };
    assert_eq!(h, "1.5");
    let Value::Length(t, Unit::Percent) = &decls[2].value else { panic!("Expected Length/Percent") };
    assert_eq!(number(t), -0.5);
}

#[test]
fn color_names_ignore_case() {
    let mut parser = CssParser::new("p { color: WHITE; }".to_string());
    let stylesheet = parser.parse().unwrap();
    let Value::ColorValue(c) = &stylesheet.rules[0].declarations[0].value else { panic!() };
    assert_eq!((c.r, c.g, c.b, c.a), (255, 255, 255, 255));
}

#[test]
fn missing_closing_brace_is_an_error() {
    let mut parser = CssParser::new("p { color: red;".to_string());
    assert!(parser.parse().is_err());
}

#[test]
fn css_parse_error_messages() {
    assert_eq!(ParseError::UnexpectedEof.message(), "Unexpected end of input");
    assert_eq!(ParseError::InvalidCharacter('!').message(), "Invalid character: '!'");
    assert_eq!(ParseError::MissingClosingBracket.message(), "Missing closing bracket");
}
