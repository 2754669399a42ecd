//! Tests for the markup normalizer.

use anki_parser::html::clean_html;
use anki_parser::html::process_card_fields;
use anki_parser::clean_html_to_markdown;

#[test]
fn html_test_sound_conversion() {
    let html = "Word [sound:pronunciation.mp3]";
    let result = clean_html(html);
    assert_eq!(result, "Word [\u{1F50A} pronunciation.mp3](media:pronunciation.mp3)");
}

#[test]
fn test_image_conversion() {
    let html = "Picture: <img src=\"image.jpg\">";
    let result = clean_html(html);
    assert_eq!(result, "Picture: ![image.jpg](media:image.jpg)");
}

#[test]
fn test_br_conversion() {
    let html = "Line 1<br>Line 2<br/>Line 3";
    let result = clean_html(html);
    assert_eq!(result, "Line 1\nLine 2\nLine 3");
}

#[test]
fn test_div_conversion() {
    let html = "<div>Paragraph 1</div><div>Paragraph 2</div>";
    let result = clean_html(html);
    assert!(result.contains("Paragraph 1"));
    assert!(result.contains("Paragraph 2"));
}

#[test]
fn test_html_entities() {
    let html = "Tom &amp; Jerry &lt;3";
    let result = clean_html(html);
    assert_eq!(result, "Tom & Jerry <3");
}

#[test]
fn test_strip_formatting() {
    let html = "<b>Bold</b> and <i>italic</i>";
    let result = clean_html(html);
    assert_eq!(result, "Bold and italic");
}

#[test]
fn test_complex_card() {
    let html = "<div><b>Question:</b> What is this?</div>\n<div>[sound:audio.mp3]</div>\n<div><img src=\"picture.png\"></div>";
    let result = clean_html(html);
    assert!(result.contains("Question:"));
    assert!(result.contains("[\u{1F50A} audio.mp3](media:audio.mp3)"));
    assert!(result.contains("![picture.png](media:picture.png)"));
}

#[test]
fn test_numeric_entities() {
    let html = "&#65;&#66;&#67; and &#x41;&#x42;&#x43;";
    let result = clean_html(html);
    assert_eq!(result, "ABC and ABC");
}

#[test]
fn test_clean_html() {
    let result = clean_html_to_markdown("Hello <b>World</b>".to_string());
    assert_eq!(result, "Hello World");
}

#[test]
fn lib_test_sound_conversion() {
    let result = clean_html_to_markdown("[sound:test.mp3]".to_string());
    assert_eq!(result, "[\u{1F50A} test.mp3](media:test.mp3)");
}

#[test]
fn test_normalize_idempotent_plain() {
    let inputs = [
        "plain text, nothing to do",
        "Tom &amp; Jerry &lt;3",
        "a\n\nb\n\n\n\nc",
        "  padded  ",
        "",
    ];
    for input in inputs {
        let once = clean_html(input);
        let twice = clean_html(&once);
        assert_eq!(once, twice);
    }
}

#[test]
fn test_newline_collapse() {
    let result = clean_html("a\n\n\n\n\nb");
    assert_eq!(result, "a\n\nb");
}

#[test]
fn test_trim_edges() {
    let result = clean_html("  hello \t\n");
    assert_eq!(result, "hello");
}

#[test]
fn test_entity_cascade() {
    // Sequential substitution: the amp pass exposes an lt entity.
    let result = clean_html("&amp;lt;");
    assert_eq!(result, "<");
}

#[test]
fn test_numeric_entity_invalid_scalar() {
    // A surrogate code point decodes to nothing.
    let result = clean_html("x&#xD800;y");
    assert_eq!(result, "xy");
}

#[test]
fn test_span_and_paragraph() {
    let result = clean_html("<p>one</p><span class=\"x\">two</span>");
    assert_eq!(result, "one\ntwo");
}

#[test]
fn test_angle_bracket_handling() {
    // A bracketed stretch reads as a tag and is stripped...
    assert_eq!(clean_html("3 < 4 and 5 > 2"), "3  2");
    // ...but an opener that never closes stays as it is.
    assert_eq!(clean_html("a < b with no close"), "a < b with no close");
}

#[test]
fn test_process_card_fields() {
    let fields = vec!["<b>Q</b>".to_string(), "[sound:a.mp3]".to_string()];
    let cleaned = process_card_fields(&fields);
    assert_eq!(cleaned.len(), 2);
    assert_eq!(cleaned[0], "Q");
    assert_eq!(cleaned[1], "[\u{1F50A} a.mp3](media:a.mp3)");
}

#[test]
fn test_img_single_quotes_and_bare() {
    assert_eq!(clean_html("<img src='p.png'>"), "![p.png](media:p.png)");
    assert_eq!(clean_html("<img src=p.png>"), "![p.png](media:p.png)");
}

#[test]
fn test_numeric_entity_overflow_falls_back_to_zero() {
    // A value too large for 32 bits parses as zero, which is the NUL
    // code point.
    let result = clean_html("a&#4294967296;b");
    assert_eq!(result, "a\u{0}b");
}
