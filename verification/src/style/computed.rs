//! The enumerated parts of a resolved style, and how style properties set them.
use vstd::prelude::*;
use crate::parser::css::{CssValue, CssValueView, StyleMap};
use crate::parser::dom::{is_block_tag, HtmlTag};
use crate::style::defaults::{default_properties, default_style};
use crate::text::str_equal;
use crate::types::Color;

verus! {

/// Text alignment.
#[derive(Debug, Clone, Copy, PartialEq, Eq, Structural)]
pub enum TextAlign {
    Left,
    Center,
    Right,
}

/// Font weight.
#[derive(Debug, Clone, Copy, PartialEq, Eq, Structural)]
pub enum FontWeight {
    Normal,
    Bold,
}

/// Font style.
#[derive(Debug, Clone, Copy, PartialEq, Eq, Structural)]
pub enum FontStyle {
    Normal,
    Italic,
}

impl Default for TextAlign {
    fn default() -> (r: Self)
        ensures
            r == TextAlign::Left,
    {
        TextAlign::Left
    }
}

impl Default for FontWeight {
    fn default() -> (r: Self)
        ensures
            r == FontWeight::Normal,
    {
        FontWeight::Normal
    }
}

impl Default for FontStyle {
    fn default() -> (r: Self)
        ensures
            r == FontStyle::Normal,
    {
        FontStyle::Normal
    }
}

/// The parts of a resolved style that keywords and colors decide.
#[derive(Debug, Clone, Copy, PartialEq, Eq, Structural)]
pub struct StyleFlags {
    pub font_weight: FontWeight,
    pub font_style: FontStyle,
    pub text_align: TextAlign,
    pub underline: bool,
    pub page_break_before: bool,
    pub page_break_after: bool,
    pub color: Color,
    pub background_color: Option<Color>,
}

/// The flags of the document root: normal black text aligned left, no underline,
/// background or page breaks.
pub open spec fn root_flags() -> StyleFlags {
    StyleFlags {
        font_weight: FontWeight::Normal,
        font_style: FontStyle::Normal,
        text_align: TextAlign::Left,
        underline: false,
        page_break_before: false,
        page_break_after: false,
        color: Color { r: 0, g: 0, b: 0 },
        background_color: None,
    }
}

impl Default for StyleFlags {
    fn default() -> (r: Self)
        ensures
            r == root_flags(),
    {
        StyleFlags {
            font_weight: FontWeight::Normal,
            font_style: FontStyle::Normal,
            text_align: TextAlign::Left,
            underline: false,
            page_break_before: false,
            page_break_after: false,
            color: Color { r: 0, g: 0, b: 0 },
            background_color: None,
        }
    }
}

/// The keyword that `m` gives `key`, if it gives a keyword.
pub open spec fn keyword_of(m: Map<Seq<char>, CssValueView>, key: Seq<char>) -> Option<Seq<char>> {
    if m.contains_key(key) {
        match m[key] {
            CssValueView::Keyword(k) => Some(k),
            _ => None,
        }
    } else {
        None
    }
}

/// The color that `m` gives `key`, if it gives a color.
pub open spec fn color_of(m: Map<Seq<char>, CssValueView>, key: Seq<char>) -> Option<Color> {
    if m.contains_key(key) {
        match m[key] {
            CssValueView::Color(c) => Some(c),
            _ => None,
        }
    } else {
        None
    }
}

/// The font weight a `font-weight` keyword names: bold for `bold`, `700`, `800` and
/// `900`, normal for any other.
pub open spec fn weight_for(k: Seq<char>) -> FontWeight {
    if k == "bold"@ || k == "700"@ || k == "800"@ || k == "900"@ {
        FontWeight::Bold
    } else {
        FontWeight::Normal
    }
}

/// The font style a `font-style` keyword names: italic for `italic` and `oblique`.
pub open spec fn font_style_for(k: Seq<char>) -> FontStyle {
    if k == "italic"@ || k == "oblique"@ {
        FontStyle::Italic
    } else {
        FontStyle::Normal
    }
}

/// The alignment a `text-align` keyword names; left for any unknown keyword.
pub open spec fn align_for(k: Seq<char>) -> TextAlign {
    if k == "center"@ {
        TextAlign::Center
    } else if k == "right"@ {
        TextAlign::Right
    } else {
        TextAlign::Left
    }
}

/// `s` after the keyword and color properties of `m` are applied: each property that
/// `m` gives with a value of the right kind replaces its part, and the others stay.
pub open spec fn keywords_applied(s: StyleFlags, m: Map<Seq<char>, CssValueView>) -> StyleFlags {
    StyleFlags {
        font_weight: match keyword_of(m, "font-weight"@) {
            Some(k) => weight_for(k),
            None => s.font_weight,
        },
        font_style: match keyword_of(m, "font-style"@) {
            Some(k) => font_style_for(k),
            None => s.font_style,
        },
        text_align: match keyword_of(m, "text-align"@) {
            Some(k) => align_for(k),
            None => s.text_align,
        },
        underline: match keyword_of(m, "text-decoration"@) {
            Some(k) => k == "underline"@,
            None => s.underline,
        },
        page_break_before: match keyword_of(m, "page-break-before"@) {
            Some(k) => k == "always"@,
            None => s.page_break_before,
        },
        page_break_after: match keyword_of(m, "page-break-after"@) {
            Some(k) => k == "always"@,
            None => s.page_break_after,
        },
        color: match color_of(m, "color"@) {
            Some(c) => c,
            None => s.color,
        },
        background_color: match color_of(m, "background-color"@) {
            Some(c) => Some(c),
            None => s.background_color,
        },
    }
}

/// The keyword `m` gives `key`, if it gives one.
fn get_keyword<'a>(m: &'a StyleMap, key: &str) -> (r: Option<&'a str>)
    ensures
        match r {
            Some(k) => keyword_of(m@, key@) == Some(k@),
            None => keyword_of(m@, key@) is None,
        },
{
    match m.get(key) {
        Some(CssValue::Keyword(k)) => Some(k.as_str()),
        _ => None,
    }
}

/// The color `m` gives `key`, if it gives one.
fn get_color(m: &StyleMap, key: &str) -> (r: Option<Color>)
    ensures
        r == color_of(m@, key@),
{
    match m.get(key) {
        Some(CssValue::Color(c)) => Some(*c),
        _ => None,
    }
}

fn weight_from(k: &str) -> (r: FontWeight)
    ensures
        r == weight_for(k@),
{
    if str_equal(k, "bold") || str_equal(k, "700") || str_equal(k, "800") || str_equal(k, "900") {
        FontWeight::Bold
    } else {
        FontWeight::Normal
    }
}

fn font_style_from(k: &str) -> (r: FontStyle)
    ensures
        r == font_style_for(k@),
{
    if str_equal(k, "italic") || str_equal(k, "oblique") {
        FontStyle::Italic
    } else {
        FontStyle::Normal
    }
}

fn align_from(k: &str) -> (r: TextAlign)
    ensures
        r == align_for(k@),
{
    if str_equal(k, "center") {
        TextAlign::Center
    } else if str_equal(k, "right") {
        TextAlign::Right
    } else {
        TextAlign::Left
    }
}

/// Whether `m` gives `key` the keyword `word`; `None` where it gives no keyword.
fn keyword_is(m: &StyleMap, key: &str, word: &str) -> (r: Option<bool>)
    ensures
        r == (match keyword_of(m@, key@) {
            Some(k) => Some(k == word@),
            None => None,
        }),
{
    match get_keyword(m, key) {
        Some(k) => Some(str_equal(k, word)),
        None => None,
    }
}

/// Applies the keyword and color properties of `m` to `s` (see `keywords_applied`).
pub fn apply_keywords(s: &mut StyleFlags, m: &StyleMap)
    ensures
        *final(s) == keywords_applied(*old(s), m@),
{
    let font_weight = match get_keyword(m, "font-weight") {
        Some(k) => weight_from(k),
        None => s.font_weight,
    };
    let font_style = match get_keyword(m, "font-style") {
        Some(k) => font_style_from(k),
        None => s.font_style,
    };
    let text_align = match get_keyword(m, "text-align") {
        Some(k) => align_from(k),
        None => s.text_align,
    };
    let underline = match keyword_is(m, "text-decoration", "underline") {
        Some(b) => b,
        None => s.underline,
    };
    let page_break_before = match keyword_is(m, "page-break-before", "always") {
        Some(b) => b,
        None => s.page_break_before,
    };
    let page_break_after = match keyword_is(m, "page-break-after", "always") {
        Some(b) => b,
        None => s.page_break_after,
    };
    let color = match get_color(m, "color") {
        Some(c) => c,
        None => s.color,
    };
    let background_color = match get_color(m, "background-color") {
        Some(c) => Some(c),
        None => s.background_color,
    };
    *s = StyleFlags {
        font_weight,
        font_style,
        text_align,
        underline,
        page_break_before,
        page_break_after,
        color,
        background_color,
    };
}

/// The flags an element inherits from its parent's: all of them, but a block element
/// starts without a background.
pub open spec fn inherited_flags(tag: HtmlTag, parent: StyleFlags) -> StyleFlags {
    if is_block_tag(tag) {
        StyleFlags { background_color: None, ..parent }
    } else {
        parent
    }
}

/// The flags of an element with tag `tag` and inline styles `inline` whose parent has
/// the flags `parent`: the inherited flags, then the tag's defaults, then the inline
/// styles, each overriding what came before.
pub open spec fn resolved_flags(
    tag: HtmlTag,
    inline: Map<Seq<char>, CssValueView>,
    parent: StyleFlags,
) -> StyleFlags {
    keywords_applied(keywords_applied(inherited_flags(tag, parent), default_properties(tag)), inline)
}

/// The flags of an element (see `resolved_flags`).
pub fn resolve_flags(tag: HtmlTag, inline: &StyleMap, parent: &StyleFlags) -> (r: StyleFlags)
    ensures
        r == resolved_flags(tag, inline@, *parent),
{
    let mut s = *parent;
    if tag.is_block() {
        s.background_color = None;
    }
    apply_keywords(&mut s, &default_style(tag));
    apply_keywords(&mut s, inline);
    s
}

/// Inline styles override the tag's defaults: a keyword or color given inline decides
/// its part of the resolved flags, whatever the tag and the parent.
pub proof fn lemma_inline_overrides(
    tag: HtmlTag,
    inline: Map<Seq<char>, CssValueView>,
    parent: StyleFlags,
)
    ensures
        ({
            let r = resolved_flags(tag, inline, parent);
            &&& keyword_of(inline, "font-weight"@) matches Some(k) ==> r.font_weight == weight_for(k)
            &&& keyword_of(inline, "font-style"@) matches Some(k) ==> r.font_style == font_style_for(k)
            &&& keyword_of(inline, "text-align"@) matches Some(k) ==> r.text_align == align_for(k)
            &&& keyword_of(inline, "text-decoration"@) matches Some(k) ==> r.underline == (k
                == "underline"@)
            &&& keyword_of(inline, "page-break-before"@) matches Some(k) ==> r.page_break_before
                == (k == "always"@)
            &&& keyword_of(inline, "page-break-after"@) matches Some(k) ==> r.page_break_after
                == (k == "always"@)
            &&& color_of(inline, "color"@) matches Some(c) ==> r.color == c
            &&& color_of(inline, "background-color"@) matches Some(c) ==> r.background_color
                == Some(c)
        }),
{
}

/// An element keeps its parent's text color unless its tag or its inline styles set
/// one.
pub proof fn lemma_color_inherited(
    tag: HtmlTag,
    inline: Map<Seq<char>, CssValueView>,
    parent: StyleFlags,
)
    requires
        color_of(default_properties(tag), "color"@) is None,
        color_of(inline, "color"@) is None,
    ensures
        resolved_flags(tag, inline, parent).color == parent.color,
{
}

/// An element inherits each flag from its parent unless its tag's defaults or its
/// inline styles set that property; only a block element starts without the parent's
/// background.
pub proof fn lemma_flags_inherited(
    tag: HtmlTag,
    inline: Map<Seq<char>, CssValueView>,
    parent: StyleFlags,
)
    ensures
        ({
            let d = default_properties(tag);
            let r = resolved_flags(tag, inline, parent);
            &&& keyword_of(d, "font-weight"@) is None && keyword_of(inline, "font-weight"@) is None
                ==> r.font_weight == parent.font_weight
            &&& keyword_of(d, "font-style"@) is None && keyword_of(inline, "font-style"@) is None
                ==> r.font_style == parent.font_style
            &&& keyword_of(d, "text-align"@) is None && keyword_of(inline, "text-align"@) is None
                ==> r.text_align == parent.text_align
            &&& keyword_of(d, "text-decoration"@) is None && keyword_of(inline, "text-decoration"@)
                is None ==> r.underline == parent.underline
            &&& keyword_of(d, "page-break-before"@) is None && keyword_of(
                inline,
                "page-break-before"@,
            ) is None ==> r.page_break_before == parent.page_break_before
            &&& keyword_of(d, "page-break-after"@) is None && keyword_of(inline, "page-break-after"@)
                is None ==> r.page_break_after == parent.page_break_after
            &&& color_of(d, "color"@) is None && color_of(inline, "color"@) is None ==> r.color
                == parent.color
            &&& color_of(d, "background-color"@) is None && color_of(inline, "background-color"@)
                is None ==> r.background_color == if is_block_tag(tag) {
                None
            } else {
                parent.background_color
            }
        }),
{
}

/// The property names of the default styles differ from one another.
proof fn lemma_default_keys_distinct()
    ensures
        "font-weight"@ != "font-size"@,
        "font-weight"@ != "margin-top"@,
        "font-weight"@ != "margin-bottom"@,
        "font-weight"@ != "padding-top"@,
        "font-weight"@ != "padding-right"@,
        "font-weight"@ != "padding-bottom"@,
        "font-weight"@ != "padding-left"@,
        "color"@ != "text-decoration"@,
{
    reveal_strlit("font-size");
    reveal_strlit("font-weight");
    reveal_strlit("margin-top");
    reveal_strlit("margin-bottom");
    reveal_strlit("padding-top");
    reveal_strlit("padding-right");
    reveal_strlit("padding-bottom");
    reveal_strlit("padding-left");
    reveal_strlit("text-decoration");
    reveal_strlit("color");
    assert("font-weight"@.len() != "font-size"@.len());
    assert("font-weight"@.len() != "margin-top"@.len());
    assert("font-weight"@.len() != "margin-bottom"@.len());
    assert("font-weight"@[0] != "padding-top"@[0]);
    assert("font-weight"@[0] != "padding-right"@[0]);
    assert("font-weight"@[0] != "padding-bottom"@[0]);
    assert("font-weight"@[0] != "padding-left"@[0]);
    assert("color"@.len() != "text-decoration"@.len());
}

/// What the tags' default styles do to the flags, stated value by value: headings,
/// `strong`, `b` and `th` are bold; `em` and `i` italic; `u` underlined; `a` blue and
/// underlined; whatever the parent, when no inline style overrides them.
pub proof fn lemma_tag_flags(parent: StyleFlags)
    ensures
        resolved_flags(HtmlTag::H1, Map::empty(), parent).font_weight == FontWeight::Bold,
        resolved_flags(HtmlTag::H2, Map::empty(), parent).font_weight == FontWeight::Bold,
        resolved_flags(HtmlTag::H3, Map::empty(), parent).font_weight == FontWeight::Bold,
        resolved_flags(HtmlTag::H4, Map::empty(), parent).font_weight == FontWeight::Bold,
        resolved_flags(HtmlTag::H5, Map::empty(), parent).font_weight == FontWeight::Bold,
        resolved_flags(HtmlTag::H6, Map::empty(), parent).font_weight == FontWeight::Bold,
        resolved_flags(HtmlTag::Strong, Map::empty(), parent).font_weight == FontWeight::Bold,
        resolved_flags(HtmlTag::B, Map::empty(), parent).font_weight == FontWeight::Bold,
        resolved_flags(HtmlTag::Th, Map::empty(), parent).font_weight == FontWeight::Bold,
        resolved_flags(HtmlTag::Em, Map::empty(), parent).font_style == FontStyle::Italic,
        resolved_flags(HtmlTag::I, Map::empty(), parent).font_style == FontStyle::Italic,
        resolved_flags(HtmlTag::U, Map::empty(), parent).underline,
        resolved_flags(HtmlTag::A, Map::empty(), parent).underline,
        resolved_flags(HtmlTag::A, Map::empty(), parent).color == (Color { r: 0, g: 0, b: 238 }),
{
    lemma_default_keys_distinct();
    reveal_strlit("bold");
    reveal_strlit("italic");
    reveal_strlit("underline");
}

/// The keywords that style values take and what they mean for the flags: `bold`,
/// `700`, `800` and `900` are bold and other weights normal; `italic` and `oblique`
/// are italic; `center` and `right` align so, and other alignments are left.
pub proof fn lemma_keyword_meanings()
    ensures
        weight_for("bold"@) == FontWeight::Bold,
        weight_for("700"@) == FontWeight::Bold,
        weight_for("800"@) == FontWeight::Bold,
        weight_for("900"@) == FontWeight::Bold,
        weight_for("normal"@) == FontWeight::Normal,
        weight_for("600"@) == FontWeight::Normal,
        font_style_for("italic"@) == FontStyle::Italic,
        font_style_for("oblique"@) == FontStyle::Italic,
        font_style_for("normal"@) == FontStyle::Normal,
        align_for("center"@) == TextAlign::Center,
        align_for("right"@) == TextAlign::Right,
        align_for("left"@) == TextAlign::Left,
        align_for("justify"@) == TextAlign::Left,
{
    reveal_strlit("bold");
    reveal_strlit("700");
    reveal_strlit("800");
    reveal_strlit("900");
    reveal_strlit("normal");
    reveal_strlit("600");
    reveal_strlit("italic");
    reveal_strlit("oblique");
    reveal_strlit("center");
    reveal_strlit("right");
    reveal_strlit("left");
    reveal_strlit("justify");
    assert("600"@[0] != "700"@[0] && "600"@[0] != "800"@[0] && "600"@[0] != "900"@[0]);
    assert("normal"@.len() != "bold"@.len());
    assert("normal"@[0] != "italic"@[0] && "normal"@[0] != "oblique"@[0]);
    assert("right"@[0] != "center"@[0]);
    assert("left"@[0] != "center"@[0] && "left"@[0] != "right"@[0]);
    assert("justify"@[0] != "center"@[0] && "justify"@[0] != "right"@[0]);
}

} // verus!
