//! The default (user-agent) style of each tag.
use vstd::prelude::*;
use crate::parser::css::{CssValue, CssValueView, StyleMap};
use crate::parser::dom::HtmlTag;
use crate::types::Color;

verus! {

/// The default properties of each tag, lengths in hundredths of a point.
pub open spec fn default_properties(tag: HtmlTag) -> Map<Seq<char>, CssValueView> {
    match tag {
        HtmlTag::H1 => Map::empty()
            .insert("font-size"@, CssValueView::Length(2400))
            .insert("font-weight"@, CssValueView::Keyword("bold"@))
            .insert("margin-top"@, CssValueView::Length(1200))
            .insert("margin-bottom"@, CssValueView::Length(1200)),
        HtmlTag::H2 => Map::empty()
            .insert("font-size"@, CssValueView::Length(2000))
            .insert("font-weight"@, CssValueView::Keyword("bold"@))
            .insert("margin-top"@, CssValueView::Length(1000))
            .insert("margin-bottom"@, CssValueView::Length(1000)),
        HtmlTag::H3 => Map::empty()
            .insert("font-size"@, CssValueView::Length(1600))
            .insert("font-weight"@, CssValueView::Keyword("bold"@))
            .insert("margin-top"@, CssValueView::Length(800))
            .insert("margin-bottom"@, CssValueView::Length(800)),
        HtmlTag::H4 => Map::empty()
            .insert("font-size"@, CssValueView::Length(1400))
            .insert("font-weight"@, CssValueView::Keyword("bold"@))
            .insert("margin-top"@, CssValueView::Length(600))
            .insert("margin-bottom"@, CssValueView::Length(600)),
        HtmlTag::H5 => Map::empty()
            .insert("font-size"@, CssValueView::Length(1200))
            .insert("font-weight"@, CssValueView::Keyword("bold"@))
            .insert("margin-top"@, CssValueView::Length(400))
            .insert("margin-bottom"@, CssValueView::Length(400)),
        HtmlTag::H6 => Map::empty()
            .insert("font-size"@, CssValueView::Length(1000))
            .insert("font-weight"@, CssValueView::Keyword("bold"@))
            .insert("margin-top"@, CssValueView::Length(400))
            .insert("margin-bottom"@, CssValueView::Length(400)),
        HtmlTag::P => Map::empty()
            .insert("font-size"@, CssValueView::Length(1200))
            .insert("margin-top"@, CssValueView::Length(0))
            .insert("margin-bottom"@, CssValueView::Length(800)),
        HtmlTag::Strong | HtmlTag::B => Map::empty()
            .insert("font-weight"@, CssValueView::Keyword("bold"@)),
        HtmlTag::Em | HtmlTag::I => Map::empty()
            .insert("font-style"@, CssValueView::Keyword("italic"@)),
        HtmlTag::U => Map::empty()
            .insert("text-decoration"@, CssValueView::Keyword("underline"@)),
        HtmlTag::A => Map::empty()
            .insert("color"@, CssValueView::Color(Color { r: 0, g: 0, b: 238 }))
            .insert("text-decoration"@, CssValueView::Keyword("underline"@)),
        HtmlTag::Hr => Map::empty()
            .insert("margin-top"@, CssValueView::Length(600))
            .insert("margin-bottom"@, CssValueView::Length(600)),
        HtmlTag::Li => Map::empty()
            .insert("margin-bottom"@, CssValueView::Length(200)),
        HtmlTag::Ul | HtmlTag::Ol => Map::empty()
            .insert("margin-top"@, CssValueView::Length(400))
            .insert("margin-bottom"@, CssValueView::Length(800))
            .insert("margin-left"@, CssValueView::Length(2000)),
        HtmlTag::Td => Map::empty()
            .insert("padding-top"@, CssValueView::Length(400))
            .insert("padding-right"@, CssValueView::Length(600))
            .insert("padding-bottom"@, CssValueView::Length(400))
            .insert("padding-left"@, CssValueView::Length(600)),
        HtmlTag::Th => Map::empty()
            .insert("padding-top"@, CssValueView::Length(400))
            .insert("padding-right"@, CssValueView::Length(600))
            .insert("padding-bottom"@, CssValueView::Length(400))
            .insert("padding-left"@, CssValueView::Length(600))
            .insert("font-weight"@, CssValueView::Keyword("bold"@)),
        _ => Map::empty(),
    }
}

/// Returns the default (user-agent) styles for a given HTML tag.
pub fn default_style(tag: HtmlTag) -> (style: StyleMap)
    ensures
        style@ == default_properties(tag),
{
    let mut style = StyleMap::new();
    match tag {
        HtmlTag::H1 => {
            style.set("font-size", CssValue::Length(2400));
            style.set("font-weight", CssValue::Keyword(String::from_str("bold")));
            style.set("margin-top", CssValue::Length(1200));
            style.set("margin-bottom", CssValue::Length(1200));
        },
        HtmlTag::H2 => {
            style.set("font-size", CssValue::Length(2000));
            style.set("font-weight", CssValue::Keyword(String::from_str("bold")));
            style.set("margin-top", CssValue::Length(1000));
            style.set("margin-bottom", CssValue::Length(1000));
        },
        HtmlTag::H3 => {
            style.set("font-size", CssValue::Length(1600));
            style.set("font-weight", CssValue::Keyword(String::from_str("bold")));
            style.set("margin-top", CssValue::Length(800));
            style.set("margin-bottom", CssValue::Length(800));
        },
        HtmlTag::H4 => {
            style.set("font-size", CssValue::Length(1400));
            style.set("font-weight", CssValue::Keyword(String::from_str("bold")));
            style.set("margin-top", CssValue::Length(600));
            style.set("margin-bottom", CssValue::Length(600));
        },
        HtmlTag::H5 => {
            style.set("font-size", CssValue::Length(1200));
            style.set("font-weight", CssValue::Keyword(String::from_str("bold")));
            style.set("margin-top", CssValue::Length(400));
            style.set("margin-bottom", CssValue::Length(400));
        },
        HtmlTag::H6 => {
            style.set("font-size", CssValue::Length(1000));
            style.set("font-weight", CssValue::Keyword(String::from_str("bold")));
            style.set("margin-top", CssValue::Length(400));
            style.set("margin-bottom", CssValue::Length(400));
        },
        HtmlTag::P => {
            style.set("font-size", CssValue::Length(1200));
            style.set("margin-top", CssValue::Length(0));
            style.set("margin-bottom", CssValue::Length(800));
        },
        HtmlTag::Strong | HtmlTag::B => {
            style.set("font-weight", CssValue::Keyword(String::from_str("bold")));
        },
        HtmlTag::Em | HtmlTag::I => {
            style.set("font-style", CssValue::Keyword(String::from_str("italic")));
        },
        HtmlTag::U => {
            style.set("text-decoration", CssValue::Keyword(String::from_str("underline")));
        },
        HtmlTag::A => {
            style.set("color", CssValue::Color(Color::rgb(0, 0, 238)));
            style.set("text-decoration", CssValue::Keyword(String::from_str("underline")));
        },
        HtmlTag::Hr => {
            style.set("margin-top", CssValue::Length(600));
            style.set("margin-bottom", CssValue::Length(600));
        },
        HtmlTag::Li => {
            style.set("margin-bottom", CssValue::Length(200));
        },
        HtmlTag::Ul | HtmlTag::Ol => {
            style.set("margin-top", CssValue::Length(400));
            style.set("margin-bottom", CssValue::Length(800));
            style.set("margin-left", CssValue::Length(2000));
        },
        HtmlTag::Td => {
            style.set("padding-top", CssValue::Length(400));
            style.set("padding-right", CssValue::Length(600));
            style.set("padding-bottom", CssValue::Length(400));
            style.set("padding-left", CssValue::Length(600));
        },
        HtmlTag::Th => {
            style.set("padding-top", CssValue::Length(400));
            style.set("padding-right", CssValue::Length(600));
            style.set("padding-bottom", CssValue::Length(400));
            style.set("padding-left", CssValue::Length(600));
            style.set("font-weight", CssValue::Keyword(String::from_str("bold")));
        },
        _ => {},
    }
    style
}

/// The property names of the default styles, told apart by length and first letters.
proof fn lemma_property_names()
    ensures
        "font-size"@ != "font-weight"@,
        "font-size"@ != "margin-top"@,
        "font-size"@ != "margin-bottom"@,
        "margin-top"@ != "margin-bottom"@,
        "margin-top"@ != "margin-left"@,
        "margin-bottom"@ != "margin-left"@,
        "padding-top"@ != "padding-right"@,
        "padding-top"@ != "padding-bottom"@,
        "padding-top"@ != "padding-left"@,
        "padding-right"@ != "padding-bottom"@,
        "padding-right"@ != "padding-left"@,
        "padding-bottom"@ != "padding-left"@,
        "padding-top"@ != "font-weight"@,
        "padding-right"@ != "font-weight"@,
        "padding-bottom"@ != "font-weight"@,
        "padding-left"@ != "font-weight"@,
        "margin-top"@ != "font-weight"@,
        "margin-bottom"@ != "font-weight"@,
{
    reveal_strlit("font-size");
    reveal_strlit("font-weight");
    reveal_strlit("font-style");
    reveal_strlit("margin-top");
    reveal_strlit("margin-bottom");
    reveal_strlit("margin-left");
    reveal_strlit("padding-top");
    reveal_strlit("padding-right");
    reveal_strlit("padding-bottom");
    reveal_strlit("padding-left");
    reveal_strlit("text-decoration");
    reveal_strlit("color");
    assert("font-size"@.len() != "font-weight"@.len());
    assert("font-size"@.len() != "margin-top"@.len());
    assert("font-size"@.len() != "margin-bottom"@.len());
    assert("margin-top"@.len() != "margin-bottom"@.len());
    assert("margin-top"@.len() != "margin-left"@.len());
    assert("margin-bottom"@.len() != "margin-left"@.len());
    assert("padding-top"@.len() != "padding-right"@.len());
    assert("padding-top"@.len() != "padding-bottom"@.len());
    assert("padding-top"@.len() != "padding-left"@.len());
    assert("padding-right"@.len() != "padding-bottom"@.len());
    assert("padding-right"@.len() != "padding-left"@.len());
    assert("padding-bottom"@.len() != "padding-left"@.len());
    assert("padding-top"@[0] != "font-weight"@[0]);
    assert("padding-right"@.len() != "font-weight"@.len());
    assert("padding-bottom"@.len() != "font-weight"@.len());
    assert("padding-left"@.len() != "font-weight"@.len());
    assert("margin-top"@.len() != "font-weight"@.len());
    assert("margin-bottom"@.len() != "font-weight"@.len());
}

/// The lengths of the default styles, in hundredths of a point: heading sizes from 24
/// down to 10 points, 12-point paragraphs, list indents of 20 points, cell padding of 4
/// and 6 points, and the margins around them.
pub proof fn lemma_default_lengths()
    ensures
        default_properties(HtmlTag::H1).contains_key("font-size"@),
        default_properties(HtmlTag::H1)["font-size"@] == CssValueView::Length(2400),
        default_properties(HtmlTag::H1).contains_key("margin-top"@),
        default_properties(HtmlTag::H1)["margin-top"@] == CssValueView::Length(1200),
        default_properties(HtmlTag::H1).contains_key("margin-bottom"@),
        default_properties(HtmlTag::H1)["margin-bottom"@] == CssValueView::Length(1200),
        default_properties(HtmlTag::H2).contains_key("font-size"@),
        default_properties(HtmlTag::H2)["font-size"@] == CssValueView::Length(2000),
        default_properties(HtmlTag::H2).contains_key("margin-top"@),
        default_properties(HtmlTag::H2)["margin-top"@] == CssValueView::Length(1000),
        default_properties(HtmlTag::H2).contains_key("margin-bottom"@),
        default_properties(HtmlTag::H2)["margin-bottom"@] == CssValueView::Length(1000),
        default_properties(HtmlTag::H3).contains_key("font-size"@),
        default_properties(HtmlTag::H3)["font-size"@] == CssValueView::Length(1600),
        default_properties(HtmlTag::H3).contains_key("margin-top"@),
        default_properties(HtmlTag::H3)["margin-top"@] == CssValueView::Length(800),
        default_properties(HtmlTag::H3).contains_key("margin-bottom"@),
        default_properties(HtmlTag::H3)["margin-bottom"@] == CssValueView::Length(800),
        default_properties(HtmlTag::H4).contains_key("font-size"@),
        default_properties(HtmlTag::H4)["font-size"@] == CssValueView::Length(1400),
        default_properties(HtmlTag::H4).contains_key("margin-top"@),
        default_properties(HtmlTag::H4)["margin-top"@] == CssValueView::Length(600),
        default_properties(HtmlTag::H4).contains_key("margin-bottom"@),
        default_properties(HtmlTag::H4)["margin-bottom"@] == CssValueView::Length(600),
        default_properties(HtmlTag::H5).contains_key("font-size"@),
        default_properties(HtmlTag::H5)["font-size"@] == CssValueView::Length(1200),
        default_properties(HtmlTag::H5).contains_key("margin-top"@),
        default_properties(HtmlTag::H5)["margin-top"@] == CssValueView::Length(400),
        default_properties(HtmlTag::H5).contains_key("margin-bottom"@),
        default_properties(HtmlTag::H5)["margin-bottom"@] == CssValueView::Length(400),
        default_properties(HtmlTag::H6).contains_key("font-size"@),
        default_properties(HtmlTag::H6)["font-size"@] == CssValueView::Length(1000),
        default_properties(HtmlTag::H6).contains_key("margin-top"@),
        default_properties(HtmlTag::H6)["margin-top"@] == CssValueView::Length(400),
        default_properties(HtmlTag::H6).contains_key("margin-bottom"@),
        default_properties(HtmlTag::H6)["margin-bottom"@] == CssValueView::Length(400),
        default_properties(HtmlTag::P).contains_key("font-size"@),
        default_properties(HtmlTag::P)["font-size"@] == CssValueView::Length(1200),
        default_properties(HtmlTag::P).contains_key("margin-top"@),
        default_properties(HtmlTag::P)["margin-top"@] == CssValueView::Length(0),
        default_properties(HtmlTag::P).contains_key("margin-bottom"@),
        default_properties(HtmlTag::P)["margin-bottom"@] == CssValueView::Length(800),
        default_properties(HtmlTag::Hr).contains_key("margin-top"@),
        default_properties(HtmlTag::Hr)["margin-top"@] == CssValueView::Length(600),
        default_properties(HtmlTag::Hr).contains_key("margin-bottom"@),
        default_properties(HtmlTag::Hr)["margin-bottom"@] == CssValueView::Length(600),
        default_properties(HtmlTag::Li).contains_key("margin-bottom"@),
        default_properties(HtmlTag::Li)["margin-bottom"@] == CssValueView::Length(200),
        default_properties(HtmlTag::Ul).contains_key("margin-top"@),
        default_properties(HtmlTag::Ul)["margin-top"@] == CssValueView::Length(400),
        default_properties(HtmlTag::Ul).contains_key("margin-bottom"@),
        default_properties(HtmlTag::Ul)["margin-bottom"@] == CssValueView::Length(800),
        default_properties(HtmlTag::Ul).contains_key("margin-left"@),
        default_properties(HtmlTag::Ul)["margin-left"@] == CssValueView::Length(2000),
        default_properties(HtmlTag::Ol).contains_key("margin-top"@),
        default_properties(HtmlTag::Ol)["margin-top"@] == CssValueView::Length(400),
        default_properties(HtmlTag::Ol).contains_key("margin-bottom"@),
        default_properties(HtmlTag::Ol)["margin-bottom"@] == CssValueView::Length(800),
        default_properties(HtmlTag::Ol).contains_key("margin-left"@),
        default_properties(HtmlTag::Ol)["margin-left"@] == CssValueView::Length(2000),
        default_properties(HtmlTag::Td).contains_key("padding-top"@),
        default_properties(HtmlTag::Td)["padding-top"@] == CssValueView::Length(400),
        default_properties(HtmlTag::Td).contains_key("padding-right"@),
        default_properties(HtmlTag::Td)["padding-right"@] == CssValueView::Length(600),
        default_properties(HtmlTag::Td).contains_key("padding-bottom"@),
        default_properties(HtmlTag::Td)["padding-bottom"@] == CssValueView::Length(400),
        default_properties(HtmlTag::Td).contains_key("padding-left"@),
        default_properties(HtmlTag::Td)["padding-left"@] == CssValueView::Length(600),
        default_properties(HtmlTag::Th).contains_key("padding-top"@),
        default_properties(HtmlTag::Th)["padding-top"@] == CssValueView::Length(400),
        default_properties(HtmlTag::Th).contains_key("padding-right"@),
        default_properties(HtmlTag::Th)["padding-right"@] == CssValueView::Length(600),
        default_properties(HtmlTag::Th).contains_key("padding-bottom"@),
        default_properties(HtmlTag::Th)["padding-bottom"@] == CssValueView::Length(400),
        default_properties(HtmlTag::Th).contains_key("padding-left"@),
        default_properties(HtmlTag::Th)["padding-left"@] == CssValueView::Length(600),
{
    lemma_property_names();
}

} // verus!
