use bytepair::{collapse_whitespace, preprocess_text, preprocess_text_with_options};

#[test]
fn test_preprocess_text_no_trim() {
    let input = "Hello   World\n\n\nTest";
    let result = preprocess_text(input);
    assert_eq!(result, "hello   world\n\n\ntest");
}

#[test]
fn test_preprocess_text_with_trim() {
    let input = "Hello   World\n\n\nTest";
    let result = preprocess_text_with_options(input, true);
    assert_eq!(result, "hello world\ntest");
}

#[test]
fn collapsing_keeps_first_of_each_whitespace_run() {
    assert_eq!(collapse_whitespace(""), "");
    assert_eq!(collapse_whitespace("  a \t\n b  "), " a b ");
    assert_eq!(collapse_whitespace("x\u{3000}\u{3000}y"), "x\u{3000}y");
}

#[test]
fn lowercasing_handles_non_ascii() {
    assert_eq!(preprocess_text("ÀB Ç"), "àb ç");
    assert_eq!(preprocess_text_with_options("ÀB    Ç", true), "àb ç");
}
