use ironpress::error::IronpressError;
use ironpress::parser::css::{parse_inline_style, CssValue, StyleMap};
use ironpress::parser::dom::HtmlTag;
use ironpress::style::computed::{apply_keywords, resolve_flags, FontStyle, FontWeight, StyleFlags, TextAlign};
use ironpress::style::defaults::default_style;
use ironpress::types::Color;

#[test]
fn h1_default_style() {
    let s = default_style(HtmlTag::H1);
    assert!(matches!(s.get("font-size"), Some(CssValue::Length(2400))));
    assert!(matches!(s.get("font-weight"), Some(CssValue::Keyword(k)) if k == "bold"));
    assert!(matches!(s.get("margin-top"), Some(CssValue::Length(1200))));
    assert!(matches!(s.get("margin-bottom"), Some(CssValue::Length(1200))));
    assert!(s.get("color").is_none());
}

#[test]
fn link_default_style() {
    let s = default_style(HtmlTag::A);
    assert!(matches!(s.get("color"), Some(CssValue::Color(c)) if *c == Color::rgb(0, 0, 238)));
    assert!(matches!(s.get("text-decoration"), Some(CssValue::Keyword(k)) if k == "underline"));
}

#[test]
fn other_default_styles() {
    assert!(matches!(default_style(HtmlTag::Em).get("font-style"), Some(CssValue::Keyword(k)) if k == "italic"));
    assert!(matches!(default_style(HtmlTag::B).get("font-weight"), Some(CssValue::Keyword(k)) if k == "bold"));
    assert!(matches!(default_style(HtmlTag::Ol).get("margin-left"), Some(CssValue::Length(2000))));
    assert!(matches!(default_style(HtmlTag::Th).get("padding-right"), Some(CssValue::Length(600))));
    assert!(matches!(default_style(HtmlTag::Th).get("font-weight"), Some(CssValue::Keyword(k)) if k == "bold"));
    assert!(default_style(HtmlTag::Td).get("font-weight").is_none());
    assert!(matches!(default_style(HtmlTag::P).get("margin-top"), Some(CssValue::Length(0))));
    assert!(default_style(HtmlTag::Span).get("font-size").is_none());
    assert!(default_style(HtmlTag::Div).get("margin-top").is_none());
}

#[test]
fn style_map_set_then_get() {
    let mut m = StyleMap::new();
    assert!(m.get("color").is_none());
    m.set("color", CssValue::Color(Color::rgb(1, 2, 3)));
    m.set("font-size", CssValue::Length(1000));
    m.set("color", CssValue::Keyword("red".to_string()));
    assert!(matches!(m.get("color"), Some(CssValue::Keyword(k)) if k == "red"));
    assert!(matches!(m.get("font-size"), Some(CssValue::Length(1000))));
}

#[test]
fn style_enum_defaults() {
    assert_eq!(TextAlign::default(), TextAlign::Left);
    assert_eq!(FontWeight::default(), FontWeight::Normal);
    assert_eq!(FontStyle::default(), FontStyle::Normal);
}

#[test]
fn error_texts() {
    let cases = [
        (IronpressError::ParseError("a".to_string()), "HTML parsing error: a"),
        (IronpressError::CssError("b".to_string()), "CSS parsing error: b"),
        (IronpressError::LayoutError("c".to_string()), "Layout error: c"),
        (IronpressError::RenderError("d".to_string()), "PDF rendering error: d"),
        (IronpressError::FontError("e".to_string()), "Font error: e"),
        (IronpressError::IoError("f".to_string()), "IO error: f"),
        (IronpressError::SecurityError("g".to_string()), "Security error: input rejected: g"),
    ];
    for (e, text) in cases {
        assert_eq!(e.to_string(), text);
    }
}

fn plain_flags() -> StyleFlags {
    StyleFlags {
        font_weight: FontWeight::Normal,
        font_style: FontStyle::Normal,
        text_align: TextAlign::Left,
        underline: false,
        page_break_before: false,
        page_break_after: false,
        color: Color::rgb(0, 0, 0),
        background_color: None,
    }
}

fn keyword(k: &str) -> CssValue {
    CssValue::Keyword(k.to_string())
}

#[test]
fn keywords_set_flags() {
    let mut m = StyleMap::new();
    m.set("font-weight", keyword("800"));
    m.set("font-style", keyword("oblique"));
    m.set("text-align", keyword("right"));
    m.set("text-decoration", keyword("underline"));
    m.set("page-break-before", keyword("always"));
    m.set("page-break-after", keyword("auto"));
    m.set("color", CssValue::Color(Color::rgb(255, 0, 0)));
    m.set("background-color", CssValue::Color(Color::rgb(255, 255, 0)));
    let mut s = plain_flags();
    s.page_break_after = true;
    apply_keywords(&mut s, &m);
    assert_eq!(s.font_weight, FontWeight::Bold);
    assert_eq!(s.font_style, FontStyle::Italic);
    assert_eq!(s.text_align, TextAlign::Right);
    assert!(s.underline);
    assert!(s.page_break_before);
    assert!(!s.page_break_after);
    assert_eq!(s.color, Color::rgb(255, 0, 0));
    assert_eq!(s.background_color, Some(Color::rgb(255, 255, 0)));
}

#[test]
fn unknown_keywords_reset_and_missing_keep() {
    let mut m = StyleMap::new();
    m.set("font-weight", keyword("600"));
    m.set("font-style", keyword("normal"));
    m.set("text-align", keyword("justify"));
    m.set("color", keyword("red"));
    let mut s = plain_flags();
    s.font_weight = FontWeight::Bold;
    s.font_style = FontStyle::Italic;
    s.text_align = TextAlign::Center;
    s.underline = true;
    s.color = Color::rgb(1, 2, 3);
    apply_keywords(&mut s, &m);
    assert_eq!(s.font_weight, FontWeight::Normal);
    assert_eq!(s.font_style, FontStyle::Normal);
    assert_eq!(s.text_align, TextAlign::Left);
    assert!(s.underline);
    assert_eq!(s.color, Color::rgb(1, 2, 3));
    assert_eq!(s.background_color, None);
}

#[test]
fn tag_defaults_applied_as_keywords() {
    let mut s = plain_flags();
    apply_keywords(&mut s, &default_style(HtmlTag::Th));
    assert_eq!(s.font_weight, FontWeight::Bold);
    let mut s = plain_flags();
    apply_keywords(&mut s, &default_style(HtmlTag::A));
    assert!(s.underline);
    assert_eq!(s.color, Color::rgb(0, 0, 238));
    let mut s = plain_flags();
    apply_keywords(&mut s, &default_style(HtmlTag::Em));
    assert_eq!(s.font_style, FontStyle::Italic);
}

#[test]
fn resolved_flags_merge_defaults_and_inline() {
    let parent = plain_flags();
    let h1 = resolve_flags(HtmlTag::H1, &StyleMap::new(), &parent);
    assert_eq!(h1.font_weight, FontWeight::Bold);
    assert_eq!(resolve_flags(HtmlTag::Strong, &StyleMap::new(), &parent).font_weight, FontWeight::Bold);
    assert_eq!(resolve_flags(HtmlTag::Em, &StyleMap::new(), &parent).font_style, FontStyle::Italic);

    let mut red = parent;
    red.color = Color::rgb(255, 0, 0);
    red.background_color = Some(Color::rgb(1, 1, 1));
    let span = resolve_flags(HtmlTag::Span, &StyleMap::new(), &red);
    assert_eq!(span.color.r, 255);
    assert_eq!(span.background_color, Some(Color::rgb(1, 1, 1)));
    let div = resolve_flags(HtmlTag::Div, &StyleMap::new(), &red);
    assert_eq!(div.color.r, 255);
    assert_eq!(div.background_color, None);

    let mut inline = StyleMap::new();
    inline.set("font-weight", keyword("normal"));
    inline.set("page-break-before", keyword("always"));
    inline.set("color", CssValue::Color(Color::rgb(0, 128, 0)));
    let h2 = resolve_flags(HtmlTag::H2, &inline, &parent);
    assert_eq!(h2.font_weight, FontWeight::Normal);
    assert!(h2.page_break_before);
    let a = resolve_flags(HtmlTag::A, &inline, &parent);
    assert_eq!(a.color, Color::rgb(0, 128, 0));
    assert!(a.underline);
}

#[test]
fn inline_style_declarations() {
    let m = parse_inline_style(
        " Font-Size: 18pt; color: RED ;background-color:#0f8; margin: 2pt 4px;line-height: 1.5; \
         font-weight: bold; text-align:center; padding: 1.25pt; bad; :x; width: 10%",
    );
    assert!(matches!(m.get("font-size"), Some(CssValue::Length(1800))));
    assert!(matches!(m.get("color"), Some(CssValue::Color(c)) if *c == Color::rgb(255, 0, 0)));
    assert!(matches!(m.get("background-color"), Some(CssValue::Color(c)) if *c == Color::rgb(0, 255, 136)));
    assert!(matches!(m.get("margin-top"), Some(CssValue::Length(200))));
    assert!(matches!(m.get("margin-right"), Some(CssValue::Length(300))));
    assert!(matches!(m.get("margin-bottom"), Some(CssValue::Length(200))));
    assert!(matches!(m.get("margin-left"), Some(CssValue::Length(300))));
    assert!(matches!(m.get("line-height"), Some(CssValue::Number(150))));
    assert!(matches!(m.get("font-weight"), Some(CssValue::Keyword(k)) if k == "bold"));
    assert!(matches!(m.get("text-align"), Some(CssValue::Keyword(k)) if k == "center"));
    assert!(matches!(m.get("padding-left"), Some(CssValue::Length(125))));
    assert!(matches!(m.get("width"), Some(CssValue::Keyword(k)) if k == "10%"));
    assert!(m.get("bad").is_none());
    assert!(m.get("").is_none());
}

#[test]
fn inline_style_later_declarations_win() {
    let m = parse_inline_style("color: blue; color: #123456; font-size: 2em; margin: 0; padding: 1pt x");
    assert!(matches!(m.get("color"), Some(CssValue::Color(c)) if *c == Color::rgb(0x12, 0x34, 0x56)));
    assert!(matches!(m.get("font-size"), Some(CssValue::Number(200))));
    assert!(matches!(m.get("margin-left"), Some(CssValue::Length(0))));
    assert!(m.get("padding-top").is_none());
    assert!(matches!(parse_inline_style("color: nocolor").get("color"), Some(CssValue::Keyword(k)) if k == "nocolor"));
    assert!(parse_inline_style("").get("color").is_none());
}

#[test]
fn inline_style_rgb_colors() {
    let m = parse_inline_style("color: rgb(10, 20,30); background-color: RGB( 0 ,128, 255 )");
    assert!(matches!(m.get("color"), Some(CssValue::Color(c)) if *c == Color::rgb(10, 20, 30)));
    assert!(matches!(m.get("background-color"), Some(CssValue::Color(c)) if *c == Color::rgb(0, 128, 255)));
    for bad in ["rgb(1,2)", "rgb(1,2,3,4)", "rgb(256,0,0)", "rgb(1,,2)", "rgb(1,2,3"] {
        let m = parse_inline_style(&format!("color: {bad}"));
        assert!(matches!(m.get("color"), Some(CssValue::Keyword(_))), "{bad}");
    }
}
