use ironpress::error::IronpressError;
use ironpress::security::sanitizer::{
    check_nesting_depth, remove_event_handlers, remove_tag_with_content, sanitize_html,
    MAX_INPUT_SIZE,
};

#[test]
fn removes_script_tags() {
    let result = sanitize_html("<p>Hello</p><script>alert('xss')</script><p>World</p>").unwrap();
    assert!(!result.contains("script"));
    assert!(!result.contains("alert"));
    assert!(result.contains("Hello"));
    assert!(result.contains("World"));
}

#[test]
fn removes_iframe() {
    let result = sanitize_html(r#"<p>Hi</p><iframe src="evil.com"></iframe>"#).unwrap();
    assert!(!result.contains("iframe"));
}

#[test]
fn removes_event_handlers() {
    let result = sanitize_html(r#"<p onclick="alert('xss')">Hello</p>"#).unwrap();
    assert!(!result.contains("onclick"));
    assert!(!result.contains("alert"));
}

#[test]
fn removes_javascript_urls() {
    let result = sanitize_html(r#"<a href="javascript:alert('xss')">Click</a>"#).unwrap();
    assert!(!result.contains("javascript:"));
}

#[test]
fn preserves_safe_html() {
    let html = "<h1>Title</h1><p>Hello <strong>World</strong></p>";
    let result = sanitize_html(html).unwrap();
    assert_eq!(result, html);
}

#[test]
fn rejects_oversized_input() {
    let huge = "x".repeat(MAX_INPUT_SIZE + 1);
    assert!(sanitize_html(&huge).is_err());
}

#[test]
fn nesting_depth_check() {
    assert_eq!(check_nesting_depth("<a><b><c></c></b></a>"), 3);
    assert_eq!(check_nesting_depth("<p>Hello</p>"), 1);
}

#[test]
fn rejects_excessive_nesting() {
    let html = "<div>".repeat(101) + &"</div>".repeat(101);
    let result = sanitize_html(&html);
    assert!(result.is_err());
    let err = result.unwrap_err().to_string();
    assert!(err.contains("nesting depth"));
}

#[test]
fn removes_self_closing_embed() {
    let result = sanitize_html(r#"<p>Hi</p><embed src="evil.swf" />"#).unwrap();
    assert!(!result.contains("embed"));
}

#[test]
fn removes_unclosed_object_tag() {
    let result = sanitize_html(r#"<p>Hi</p><object data="evil.swf"><p>inner</p>"#).unwrap();
    assert!(!result.contains("object"));
}

#[test]
fn removes_unquoted_event_handler() {
    let result = sanitize_html(r#"<p onclick=alert(1)>Hello</p>"#).unwrap();
    assert!(!result.contains("onclick"));
    assert!(result.contains("Hello"));
}

#[test]
fn removes_form_tag() {
    let result = sanitize_html(r#"<form action="/submit"><input></form>"#).unwrap();
    assert!(!result.contains("form"));
}

#[test]
fn removes_style_tag() {
    let result = sanitize_html(r#"<style>body { color: red }</style><p>Hi</p>"#).unwrap();
    assert!(!result.contains("style"));
    assert!(result.contains("Hi"));
}

#[test]
fn unclosed_tag_no_gt() {
    // Tag with no closing > — hits the break in the else branch
    let result = sanitize_html("<p>Hi</p><embed src=x").unwrap();
    // Should handle gracefully
    assert!(result.contains("Hi"));
}

#[test]
fn event_handler_with_whitespace_before_value() {
    let result = sanitize_html(r#"<div onmouseover = "alert(1)">Hi</div>"#).unwrap();
    assert!(!result.contains("onmouseover"));
    assert!(result.contains("Hi"));
}

#[test]
fn oversized_input_error_text() {
    let huge = "y".repeat(MAX_INPUT_SIZE + 1);
    match sanitize_html(&huge) {
        Err(IronpressError::SecurityError(m)) => {
            assert_eq!(m, "Input exceeds maximum size of 10485760 bytes")
        }
        _ => panic!("expected a security error"),
    }
}

#[test]
fn size_limit_counts_bytes_not_characters() {
    // Each "é" takes two bytes in UTF-8.
    let html = "é".repeat(MAX_INPUT_SIZE / 2 + 1);
    assert!(matches!(sanitize_html(&html), Err(IronpressError::SecurityError(_))));
}

#[test]
fn depth_limit_is_inclusive() {
    let html = "<div>".repeat(100) + &"</div>".repeat(100);
    assert_eq!(sanitize_html(&html).unwrap(), html);
    let deeper = "<div>".repeat(101);
    match sanitize_html(&deeper) {
        Err(IronpressError::SecurityError(m)) => assert_eq!(m, "HTML nesting depth exceeds maximum"),
        _ => panic!("expected a security error"),
    }
}

#[test]
fn tag_removal_ignores_case() {
    let r = remove_tag_with_content("a<SCRIPT>x</ScRiPt>b", "script");
    assert_eq!(r, "ab");
}

#[test]
fn tag_removal_unclosed_runs_to_next_gt() {
    assert_eq!(remove_tag_with_content("a<embed src=x>b<p>", "embed"), "ab<p>");
    assert_eq!(remove_tag_with_content("a<embed src=x", "embed"), "a<embed src=x");
}

#[test]
fn tag_removal_removes_every_element() {
    let r = remove_tag_with_content("<script>1</script>x<script>2</script>y", "script");
    assert_eq!(r, "xy");
}

#[test]
fn tag_removal_is_idempotent() {
    let once = remove_tag_with_content("k<style>a</style>m<style b", "style");
    let twice = remove_tag_with_content(&once, "style");
    assert_eq!(once, twice);
}

#[test]
fn tag_removal_without_tag_is_identity() {
    assert_eq!(remove_tag_with_content("<p>plain</p>", "form"), "<p>plain</p>");
}

#[test]
fn handlers_outside_tags_are_text() {
    assert_eq!(remove_event_handlers("say onclick=now"), "say onclick=now");
}

#[test]
fn handlers_need_space_before() {
    assert_eq!(remove_event_handlers("<p xonclick=1>"), "<p xonclick=1>");
    assert_eq!(remove_event_handlers("<p onclick=1 id=2>"), "<p  id=2>");
}

#[test]
fn handler_with_unterminated_quote_runs_to_end() {
    assert_eq!(remove_event_handlers("<p onload=\"x>y"), "<p ");
}

#[test]
fn handlers_keep_non_ascii_text() {
    assert_eq!(remove_event_handlers("<p title=\"café\">é</p>"), "<p title=\"café\">é</p>");
    assert_eq!(sanitize_html("<p>café</p>").unwrap(), "<p>café</p>");
}

#[test]
fn reassembled_start_tag_is_removed() {
    let r = sanitize_html("<scr<style></style>ipt>alert(1)</script>").unwrap();
    assert!(!r.to_ascii_lowercase().contains("<script"));
    assert_eq!(r, "");
}

#[test]
fn javascript_removed_in_any_case() {
    assert_eq!(sanitize_html("JAVASCRIPT:x").unwrap(), "x");
    assert_eq!(sanitize_html("javajavascript:script:x").unwrap(), "x");
    assert_eq!(sanitize_html("<a href=\"JavaScript:go()\">k</a>").unwrap(), "<a href=\"go()\">k</a>");
}

#[test]
fn handler_after_a_quote_is_removed() {
    let r = sanitize_html("<p onclick=\"x\"onload=\"y\">Hi</p>").unwrap();
    assert!(!r.contains("onload"));
    assert!(!r.contains("onclick"));
    assert!(r.contains("Hi"));
}

#[test]
fn closing_text_before_opening_text_finishes() {
    assert_eq!(remove_tag_with_content("</script><script>x</script>", "script"), "</script>");
    assert_eq!(sanitize_html("</script><script>").unwrap(), "</script>");
}

#[test]
fn void_elements_do_not_nest() {
    let html = "<br>".repeat(101);
    assert_eq!(check_nesting_depth(&html), 0);
    assert_eq!(sanitize_html(&html).unwrap(), html);
    assert_eq!(check_nesting_depth("<p><IMG src=x><hr/></p>"), 1);
    assert_eq!(check_nesting_depth("<div><a href=\"http://x/\">y</a></div>"), 2);
}

#[test]
fn nesting_depth_of_text_and_closings() {
    assert_eq!(check_nesting_depth("no tags"), 0);
    assert_eq!(check_nesting_depth("</a></b><c>"), 1);
    assert_eq!(check_nesting_depth("<br/><br/>"), 0);
}

#[test]
fn nesting_depth_prefix_never_larger() {
    let s = "<a><b></b><c><d>";
    for k in 0..=s.len() {
        assert!(check_nesting_depth(&s[..k]) <= check_nesting_depth(s));
    }
}
