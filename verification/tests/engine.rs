use ironpress::layout::engine::{
    base64_decode, cell_span, collapse_whitespace, column_count, image_source,
    parse_usize_str, row_column_count, ImageSource,
};
use ironpress::parser::dom::{DomNode, ElementNode, HtmlTag};

#[test]
fn collapse_whitespace_test() {
    assert_eq!(collapse_whitespace("  hello   world  "), "hello world");
    assert_eq!(collapse_whitespace("\n\t  foo  \n"), "foo");
}

#[test]
fn base64_decode_basic() {
    // "Hello" in base64 is "SGVsbG8="
    let decoded = base64_decode("SGVsbG8=").unwrap();
    assert_eq!(decoded, b"Hello");
}

#[test]
fn base64_decode_with_whitespace() {
    let decoded = base64_decode("SGVs\nbG8=").unwrap();
    assert_eq!(decoded, b"Hello");
}

#[test]
fn collapse_whitespace_unicode_spaces() {
    assert_eq!(collapse_whitespace("a\u{a0}\u{2003}b\u{3000}"), "a b");
    assert_eq!(collapse_whitespace(""), "");
    assert_eq!(collapse_whitespace(" \t\n"), "");
}

#[test]
fn collapse_whitespace_is_idempotent() {
    let once = collapse_whitespace("  x \n\n y\tz ");
    assert_eq!(once, "x y z");
    assert_eq!(collapse_whitespace(&once), once);
}

#[test]
fn base64_decode_groups() {
    assert_eq!(base64_decode("TWFu").unwrap(), b"Man");
    assert_eq!(base64_decode("TWE=").unwrap(), b"Ma");
    assert_eq!(base64_decode("TQ==").unwrap(), b"M");
    assert_eq!(base64_decode("").unwrap(), b"");
    assert_eq!(base64_decode("+/+/").unwrap(), vec![0xfb, 0xff, 0xbf]);
}

#[test]
fn base64_decode_ignores_padding_anywhere() {
    assert_eq!(base64_decode("T=W=F=u").unwrap(), b"Man");
    assert_eq!(base64_decode(" T W\r\nF\x0cu\t").unwrap(), b"Man");
}

#[test]
fn base64_decode_rejects_invalid_bytes() {
    assert!(base64_decode("TW-u").is_none());
    assert!(base64_decode("TWFué").is_none());
    // A vertical tab is not ASCII whitespace for this purpose.
    assert!(base64_decode("TW\x0bFu").is_none());
}

#[test]
fn base64_decode_drops_leftover_bits() {
    assert_eq!(base64_decode("T").unwrap(), b"");
    assert_eq!(base64_decode("TWFuT").unwrap(), b"Man");
}

fn element(tag: HtmlTag, attrs: &[(&str, &str)]) -> ElementNode {
    let mut el = ElementNode::new(tag);
    for (k, v) in attrs {
        el.attributes.push((k.to_string(), v.to_string()));
    }
    el
}

#[test]
fn image_source_from_data_uri() {
    let el = element(HtmlTag::Img, &[("src", "data:image/jpeg;base64,/9j/4AAC/9k=")]);
    match image_source(&el) {
        Some(ImageSource::Inline(bytes)) => {
            assert_eq!(bytes, vec![0xff, 0xd8, 0xff, 0xe0, 0x00, 0x02, 0xff, 0xd9])
        }
        other => panic!("unexpected {other:?}"),
    }
}

#[test]
fn image_source_from_path() {
    let el = element(HtmlTag::Img, &[("width", "10"), ("src", "pics/a.jpg")]);
    match image_source(&el) {
        Some(ImageSource::Path(p)) => assert_eq!(p, "pics/a.jpg"),
        other => panic!("unexpected {other:?}"),
    }
}

#[test]
fn image_source_missing_or_invalid() {
    assert!(image_source(&element(HtmlTag::Img, &[("width", "100")])).is_none());
    assert!(image_source(&element(HtmlTag::Img, &[("src", "data:nocomma")])).is_none());
    assert!(image_source(&element(HtmlTag::Img, &[("src", "data:x,!!")])).is_none());
}

#[test]
fn parse_usize_like_std() {
    for s in ["0", "7", "+5", "007", "-5", "", "+", "1 ", "18446744073709551615", "18446744073709551616", "12a"] {
        assert_eq!(parse_usize_str(s), s.parse::<usize>().ok(), "input {s:?}");
    }
}

#[test]
fn cell_span_defaults_to_one() {
    assert_eq!(cell_span(&element(HtmlTag::Td, &[]), "colspan"), 1);
    assert_eq!(cell_span(&element(HtmlTag::Td, &[("colspan", "0")]), "colspan"), 1);
    assert_eq!(cell_span(&element(HtmlTag::Td, &[("colspan", "wide")]), "colspan"), 1);
    assert_eq!(cell_span(&element(HtmlTag::Td, &[("colspan", "3")]), "colspan"), 3);
    assert_eq!(cell_span(&element(HtmlTag::Td, &[("rowspan", "2")]), "rowspan"), 2);
}

fn row(cells: Vec<ElementNode>) -> ElementNode {
    let mut r = ElementNode::new(HtmlTag::Tr);
    for c in cells {
        r.children.push(DomNode::Element(c));
    }
    r
}

#[test]
fn table_columns_count_colspan() {
    let r1 = row(vec![element(HtmlTag::Td, &[("colspan", "2")]), element(HtmlTag::Td, &[])]);
    let r2 = row(vec![
        element(HtmlTag::Td, &[]),
        element(HtmlTag::Td, &[]),
        element(HtmlTag::Td, &[]),
    ]);
    assert_eq!(row_column_count(&r1), 3);
    assert_eq!(column_count(&[&r1, &r2]), 3);
}

#[test]
fn table_columns_take_widest_row() {
    let r1 = row(vec![element(HtmlTag::Th, &[("colspan", "2")])]);
    let r2 = row(vec![element(HtmlTag::Td, &[]), element(HtmlTag::Td, &[])]);
    let r3 = row(vec![element(HtmlTag::Td, &[("colspan", "5")])]);
    assert_eq!(column_count(&[&r1, &r2]), 2);
    assert_eq!(column_count(&[&r1, &r3, &r2]), 5);
    assert_eq!(column_count(&[]), 1);
}

#[test]
fn table_columns_ignore_non_cells() {
    let mut r = row(vec![element(HtmlTag::Td, &[]), element(HtmlTag::Span, &[])]);
    r.children.push(DomNode::Text("text".to_string()));
    assert_eq!(row_column_count(&r), 1);
}

#[test]
fn base64_round_trip_of_standard_encodings() {
    let cases: [(&str, &[u8]); 5] = [
        ("", b""),
        ("TQ==", b"M"),
        ("TWE=", b"Ma"),
        ("TWFu", b"Man"),
        ("SGVsbG8sIFdvcmxkIQ==", b"Hello, World!"),
    ];
    for (enc, bytes) in cases {
        assert_eq!(base64_decode(enc).unwrap(), bytes);
        let spaced: String = enc.chars().flat_map(|c| [' ', c, '\n']).collect();
        assert_eq!(base64_decode(&spaced).unwrap(), bytes);
    }
    assert_eq!(base64_decode("/+/+\t/w==\r\n").unwrap(), vec![0xff, 0xef, 0xfe, 0xff]);
}
