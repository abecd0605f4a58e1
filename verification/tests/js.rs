use astra::js::{
    extract_scripts, js_value_to_string, parse_string_literal, parse_two_string_args,
    try_extract_scripts, DomMutation, JsRuntime, JsValue,
};

/// The number a numeric value holds.
fn num(v: Option<&JsValue>) -> Option<f64> {
    match v {
        Some(JsValue::Number(t)) => Some(t.parse::<f64>().unwrap()),
        _ => None,
    }
}

/// The console lines, numbers written as the console writes them.
fn log_lines(rt: &JsRuntime) -> Vec<String> {
    rt.console_log
        .iter()
        .map(|v| match v {
            JsValue::Number(t) => {
                let n = t.parse::<f64>().unwrap();
                if n.fract() == 0.0 { format!("{}", n as i64) } else { format!("{}", n) }
            }
            other => js_value_to_string(other),
        })
        .collect()
}

fn set_attribute(m: &DomMutation) -> Option<(&str, &str, &str)> {
    match m {
        DomMutation::SetAttribute { element_id, key, value } => {
            Some((element_id.as_str(), key.as_str(), value.as_str()))
        }
        _ => None,
    }
}

#[test]
fn js_test_new_runtime_is_empty() {
    let rt = JsRuntime::new();
    assert!(rt.globals.is_empty());
    assert!(rt.dom_mutations.is_empty());
    assert!(rt.console_log.is_empty());
}

#[test]
fn js_test_execute_var_number() {
    let mut rt = JsRuntime::new();
    rt.execute("var x = 42;").unwrap();
    assert_eq!(num(rt.globals.get("x")), Some(42.0));
}

#[test]
fn test_execute_let_string() {
    let mut rt = JsRuntime::new();
    rt.execute(r#"let msg = "hello";"#).unwrap();
    assert_eq!(rt.globals.get("msg"), Some(&JsValue::String("hello".to_string())));
}

#[test]
fn test_execute_const_bool() {
    let mut rt = JsRuntime::new();
    rt.execute("const flag = true;").unwrap();
    assert_eq!(rt.globals.get("flag"), Some(&JsValue::Boolean(true)));
}

#[test]
fn js_test_console_log_records_output() {
    let mut rt = JsRuntime::new();
    rt.execute(r#"console.log("hello world");"#).unwrap();
    assert_eq!(log_lines(&rt), vec!["hello world"]);
}

#[test]
fn test_console_log_number() {
    let mut rt = JsRuntime::new();
    rt.execute("console.log(123);").unwrap();
    assert_eq!(log_lines(&rt), vec!["123"]);
}

#[test]
fn test_get_element_by_id_returns_object() {
    let mut rt = JsRuntime::new();
    let val = rt.execute(r#"document.getElementById("main")"#).unwrap();
    match val {
        JsValue::Object(_) => {
            assert_eq!(val.property("__element_id__"), Some(&JsValue::String("main".to_string())));
        }
        _ => panic!("expected Object"),
    }
}

#[test]
fn js_test_set_attribute_queues_mutation() {
    let mut rt = JsRuntime::new();
    rt.execute(r#"var el = document.getElementById("btn");"#).unwrap();
    rt.execute(r#"el.setAttribute("class", "active");"#).unwrap();
    assert_eq!(rt.dom_mutations.len(), 1);
    assert_eq!(set_attribute(&rt.dom_mutations[0]), Some(("btn", "class", "active")));
}

#[test]
fn test_set_text_content_queues_mutation() {
    let mut rt = JsRuntime::new();
    rt.execute(r#"var el = document.getElementById("title");"#).unwrap();
    rt.execute(r#"el.textContent = "New Title";"#).unwrap();
    assert_eq!(rt.dom_mutations.len(), 1);
    match &rt.dom_mutations[0] {
        DomMutation::SetTextContent { element_id, text } => {
            assert_eq!(element_id, "title");
            assert_eq!(text, "New Title");
        }
        _ => panic!("expected SetTextContent"),
    }
}

#[test]
fn test_get_dom_mutations() {
    let mut rt = JsRuntime::new();
    rt.execute(r#"var el = document.getElementById("x");"#).unwrap();
    rt.execute(r#"el.setAttribute("id", "y");"#).unwrap();
    assert_eq!(rt.get_dom_mutations().len(), 1);
}

#[test]
fn test_clear_mutations() {
    let mut rt = JsRuntime::new();
    rt.execute(r#"var el = document.getElementById("x");"#).unwrap();
    rt.execute(r#"el.setAttribute("id", "y");"#).unwrap();
    rt.clear_mutations();
    assert!(rt.get_dom_mutations().is_empty());
}

#[test]
fn test_unknown_expression_returns_undefined() {
    let mut rt = JsRuntime::new();
    let val = rt.execute("someUnknownCall()").unwrap();
    assert_eq!(val, JsValue::Undefined);
}

#[test]
fn test_execute_does_not_crash_on_arbitrary_input() {
    let mut rt = JsRuntime::new();
    let _ = rt.execute("this is not valid JS at all !!!");
}

#[test]
fn test_extract_scripts_single() {
    let html = r#"<html><head><script>var x = 1;</script></head></html>"#;
    let scripts = extract_scripts(html);
    assert_eq!(scripts, vec!["var x = 1;"]);
}

#[test]
fn test_extract_scripts_multiple() {
    let html = "<script>var a = 1;</script><p>text</p><script>var b = 2;</script>";
    let scripts = extract_scripts(html);
    assert_eq!(scripts.len(), 2);
    assert_eq!(scripts[0], "var a = 1;");
    assert_eq!(scripts[1], "var b = 2;");
}

#[test]
fn test_extract_scripts_none() {
    let html = "<html><body><p>no scripts</p></body></html>";
    let scripts = extract_scripts(html);
    assert!(scripts.is_empty());
}

#[test]
fn test_extract_scripts_with_attributes() {
    let html = r#"<script type="text/javascript">console.log("hi");</script>"#;
    let scripts = extract_scripts(html);
    assert_eq!(scripts, vec![r#"console.log("hi");"#]);
}

#[test]
fn test_multiline_script() {
    let mut rt = JsRuntime::new();
    let script = "var x = 10;\nvar y = 20;\nconsole.log(x);";
    rt.execute(script).unwrap();
    assert_eq!(num(rt.globals.get("x")), Some(10.0));
    assert_eq!(num(rt.globals.get("y")), Some(20.0));
    assert_eq!(log_lines(&rt), vec!["10"]);
}

#[test]
fn test_execute_scripts_from_html() {
    let html = r#"<html><body><script>var count = 5;</script></body></html>"#;
    let scripts = extract_scripts(html);
    let mut rt = JsRuntime::new();
    for script in &scripts {
        rt.execute(script).unwrap();
    }
    assert_eq!(num(rt.globals.get("count")), Some(5.0));
}

#[test]
fn prop_execute_never_panics() {
    fn check(script: String) -> bool {
        let mut rt = JsRuntime::new();
        let _ = rt.execute(&script);
        true
    }
    quickcheck::quickcheck(check as fn(String) -> bool);
}

#[test]
fn prop_clear_mutations_always_empties() {
    fn check(scripts: Vec<String>) -> bool {
        let mut rt = JsRuntime::new();
        for s in &scripts {
            let _ = rt.execute(s);
        }
        rt.clear_mutations();
        rt.get_dom_mutations().is_empty()
    }
    quickcheck::quickcheck(check as fn(Vec<String>) -> bool);
}

#[test]
fn prop_var_assignment_stored_in_globals() {
    fn check(name: String, value: f64) -> bool {
        let name: String = name.chars().filter(|c| c.is_ascii_alphabetic()).take(8).collect();
        if name.is_empty() {
            return true;
        }
        if matches!(name.as_str(), "var" | "let" | "const" | "true" | "false" | "null") {
            return true;
        }
        let mut rt = JsRuntime::new();
        let script = format!("var {} = {};", name, value);
        let _ = rt.execute(&script);

        if value.is_finite() {
            matches!(rt.globals.get(&name), Some(JsValue::Number(_)))
        } else {
            true
        }
    }
    quickcheck::quickcheck(check as fn(String, f64) -> bool);
}

#[test]
fn string_literals() {
    assert_eq!(parse_string_literal("  'a b'  "), Some("a b".to_string()));
    assert_eq!(parse_string_literal("\"\""), Some(String::new()));
    assert_eq!(parse_string_literal("\"x'"), None);
    assert_eq!(parse_string_literal("\""), None);
    assert_eq!(parse_string_literal("é"), None);
}

#[test]
fn two_string_args() {
    assert_eq!(
        parse_two_string_args(r#""a,b", 'c'"#),
        Some(("a,b".to_string(), "c".to_string()))
    );
    assert_eq!(parse_two_string_args(r#""a" "b""#), None);
    assert_eq!(parse_two_string_args(r#""a", b"#), None);
}

#[test]
fn assignment_and_reading_globals() {
    let mut rt = JsRuntime::new();
    rt.execute("x = 'one'\ny = x\n// y = 3\n;;;").unwrap();
    assert_eq!(rt.globals.get("y"), Some(&JsValue::String("one".to_string())));
    let v = rt.execute("y").unwrap();
    assert_eq!(v, JsValue::String("one".to_string()));
    assert_eq!(rt.execute("null").unwrap(), JsValue::Null);
    assert_eq!(num(Some(&rt.execute("-1.5e3").unwrap())), Some(-1500.0));
}

#[test]
fn text_content_of_an_unknown_variable_uses_its_name() {
    let mut rt = JsRuntime::new();
    rt.execute("box.textContent = plain words").unwrap();
    match &rt.dom_mutations[0] {
        DomMutation::SetTextContent { element_id, text } => {
            assert_eq!(element_id, "box");
            assert_eq!(text, "plain words");
        }
        _ => panic!("expected SetTextContent"),
    }
}

#[test]
fn scripts_found_in_any_case() {
    let html = "<SCRIPT>a</SCRIPT><Script src=x>b</script><script>unclosed";
    assert_eq!(extract_scripts(html), vec!["a", "b"]);
    assert_eq!(try_extract_scripts(html), Some(vec!["a".to_string(), "b".to_string()]));
}

#[test]
fn value_texts() {
    assert_eq!(js_value_to_string(&JsValue::Undefined), "undefined");
    assert_eq!(js_value_to_string(&JsValue::Boolean(false)), "false");
    assert_eq!(js_value_to_string(&JsValue::Object(vec![])), "[object Object]");
}

#[test]
fn a_second_script_only_adds() {
    let mut rt = JsRuntime::new();
    rt.execute("var a = 'one'\nconsole.log(a)\nvar el = document.getElementById(\"x\")\nel.setAttribute(\"k\", \"v\")")
        .unwrap();
    let mutations_before = rt.dom_mutations.len();
    let log_before = rt.console_log.len();
    rt.execute("a = 'two'\nconsole.log(a)\nel.textContent = \"t\"").unwrap();
    assert_eq!(mutations_before, 1);
    assert_eq!(rt.dom_mutations.len(), 2);
    assert_eq!(set_attribute(&rt.dom_mutations[0]), Some(("x", "k", "v")));
    assert_eq!(log_before, 1);
    assert_eq!(rt.console_log.len(), 2);
    assert_eq!(rt.console_log[0], JsValue::String("one".to_string()));
    assert_eq!(rt.console_log[1], JsValue::String("two".to_string()));
    assert!(rt.globals.contains_key("el"));
    assert_eq!(rt.globals.get("a"), Some(&JsValue::String("two".to_string())));
}
