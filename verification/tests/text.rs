use astra::text::{chars_of, float_syntax_of, has_word};

fn floats(s: &str) -> bool {
    float_syntax_of(&chars_of(s))
}

#[test]
fn float_texts_agree_with_std() {
    for s in [
        "1", "+1", "-1.", ".5", "1e5", "1E-5", "1.5e+3", "inf", "-Infinity", "NaN", "0.0", "007",
        "", ".", "e5", "1e", "1e+", "--1", "1.2.3", " 1", "1 ", "0x10", "infin", "nan1", "1_0",
    ] {
        assert_eq!(floats(s), s.parse::<f64>().is_ok(), "text {:?}", s);
        assert_eq!(floats(s), s.parse::<f32>().is_ok(), "text {:?}", s);
    }
}

#[test]
fn words_split_on_whitespace() {
    let text = chars_of("  a\tbb  ccc\n");
    assert!(has_word(&text, &chars_of("bb")));
    assert!(has_word(&text, &chars_of("ccc")));
    assert!(!has_word(&text, &chars_of("b")));
    assert!(!has_word(&chars_of(""), &chars_of("")));
}
