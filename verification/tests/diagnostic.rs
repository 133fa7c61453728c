use sqlx_sqruff_core::diagnostic::{json_str, Diagnostic};

fn diagnostic() -> Diagnostic {
    Diagnostic {
        file: "src/a.rs".to_string(),
        line: 12,
        col: 5,
        code: "CV05".to_string(),
        message: "Use \"IS\".\nNot\t=".to_string(),
    }
}

#[test]
fn human_rendering_is_like_rustc() {
    assert_eq!(diagnostic().render_human(), "src/a.rs:12:5: CV05 Use \"IS\".\nNot\t=");
}

#[test]
fn json_rendering_is_one_object_on_one_line() {
    let json = diagnostic().render_json();
    assert_eq!(
        json,
        "{\"file\":\"src/a.rs\",\"line\":12,\"col\":5,\"code\":\"CV05\",\"message\":\"Use \\\"IS\\\".\\nNot\\t=\"}"
    );
    assert!(!json.contains('\n'));
}

#[test]
fn json_strings_escape_quotes_backslashes_and_breaks() {
    assert_eq!(json_str("a\"b\\c\nd\te\rf é"), "\"a\\\"b\\\\c\\nd\\te\\rf é\"");
    assert_eq!(json_str(""), "\"\"");
}

#[test]
fn json_strings_escape_every_control_character() {
    assert_eq!(json_str("\u{1}"), "\"\\u0001\"");
    assert_eq!(json_str("\0\u{8}\u{c}\u{1b}\u{1f} \u{7f}"), "\"\\u0000\\u0008\\u000c\\u001b\\u001f \u{7f}\"");
    for c in '\0'..' ' {
        assert!(json_str(&c.to_string()).chars().all(|c| c >= ' '), "{c:?}");
    }
}
