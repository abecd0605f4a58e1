use astra::oldjs::{console_line, extract_scripts};

#[test]
fn oldjs_extracts_scripts() {
    let html = "<p>x</p><script>var a = 1;</script>";
    assert_eq!(extract_scripts(html), vec!["var a = 1;"]);
}

#[test]
fn console_line_joins_with_spaces() {
    let parts = vec!["total".to_string(), "3".to_string(), "items".to_string()];
    assert_eq!(console_line(&parts), "total 3 items");
}

#[test]
fn console_line_of_one_part_is_that_part() {
    assert_eq!(console_line(&vec!["hello".to_string()]), "hello");
}

#[test]
fn console_line_of_nothing_is_empty() {
    assert_eq!(console_line(&Vec::new()), "");
}

#[test]
fn console_line_keeps_empty_parts() {
    let parts = vec!["a".to_string(), String::new(), "b".to_string()];
    assert_eq!(console_line(&parts), "a  b");
}
