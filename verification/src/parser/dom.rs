//! The document model: tags, elements and text nodes.
use vstd::prelude::*;
use crate::text::{ascii_lower, chars_equal_str, chars_of, lower_chars, str_equal};

verus! {

/// Supported HTML tags.
#[derive(Debug, Clone, Copy, PartialEq, Eq, Structural)]
pub enum HtmlTag {
    Html,
    Head,
    Body,
    H1,
    H2,
    H3,
    H4,
    H5,
    H6,
    P,
    Div,
    Span,
    Strong,
    B,
    Em,
    I,
    U,
    A,
    Br,
    Hr,
    Table,
    Tr,
    Td,
    Th,
    Ul,
    Ol,
    Li,
    Img,
    Thead,
    Tbody,
    Tfoot,
    Unknown,
}

/// The tag named by an already lower-cased tag name.
pub open spec fn tag_for_lowercase_name(name: Seq<char>) -> HtmlTag {
    if name == "html"@ {
        HtmlTag::Html
    } else if name == "head"@ {
        HtmlTag::Head
    } else if name == "body"@ {
        HtmlTag::Body
    } else if name == "h1"@ {
        HtmlTag::H1
    } else if name == "h2"@ {
        HtmlTag::H2
    } else if name == "h3"@ {
        HtmlTag::H3
    } else if name == "h4"@ {
        HtmlTag::H4
    } else if name == "h5"@ {
        HtmlTag::H5
    } else if name == "h6"@ {
        HtmlTag::H6
    } else if name == "p"@ {
        HtmlTag::P
    } else if name == "div"@ {
        HtmlTag::Div
    } else if name == "span"@ {
        HtmlTag::Span
    } else if name == "strong"@ {
        HtmlTag::Strong
    } else if name == "b"@ {
        HtmlTag::B
    } else if name == "em"@ {
        HtmlTag::Em
    } else if name == "i"@ {
        HtmlTag::I
    } else if name == "u"@ {
        HtmlTag::U
    } else if name == "a"@ {
        HtmlTag::A
    } else if name == "br"@ {
        HtmlTag::Br
    } else if name == "hr"@ {
        HtmlTag::Hr
    } else if name == "table"@ {
        HtmlTag::Table
    } else if name == "tr"@ {
        HtmlTag::Tr
    } else if name == "td"@ {
        HtmlTag::Td
    } else if name == "th"@ {
        HtmlTag::Th
    } else if name == "ul"@ {
        HtmlTag::Ul
    } else if name == "ol"@ {
        HtmlTag::Ol
    } else if name == "li"@ {
        HtmlTag::Li
    } else if name == "img"@ {
        HtmlTag::Img
    } else if name == "thead"@ {
        HtmlTag::Thead
    } else if name == "tbody"@ {
        HtmlTag::Tbody
    } else if name == "tfoot"@ {
        HtmlTag::Tfoot
    } else {
        HtmlTag::Unknown
    }
}

/// The tag named by `name`, whose letters may be in either ASCII case.
pub open spec fn tag_for_name(name: Seq<char>) -> HtmlTag {
    tag_for_lowercase_name(ascii_lower(name))
}

/// The tags laid out as blocks.
pub open spec fn is_block_tag(t: HtmlTag) -> bool {
    match t {
        HtmlTag::H1 | HtmlTag::H2 | HtmlTag::H3 | HtmlTag::H4 | HtmlTag::H5 | HtmlTag::H6
        | HtmlTag::P | HtmlTag::Div | HtmlTag::Table | HtmlTag::Tr | HtmlTag::Ul | HtmlTag::Ol
        | HtmlTag::Li | HtmlTag::Hr | HtmlTag::Body | HtmlTag::Html => true,
        _ => false,
    }
}

/// The tags laid out inline.
pub open spec fn is_inline_tag(t: HtmlTag) -> bool {
    match t {
        HtmlTag::Span | HtmlTag::Strong | HtmlTag::B | HtmlTag::Em | HtmlTag::I | HtmlTag::U
        | HtmlTag::A => true,
        _ => false,
    }
}

impl HtmlTag {
    /// The tag with the given name, ignoring ASCII case; `Unknown` for other names.
    pub fn from_tag_name(tag: &str) -> (r: Self)
        ensures
            r == tag_for_name(tag@),
    {
        let lower = lower_chars(chars_of(tag).as_slice());
        if chars_equal_str(lower.as_slice(), "html") {
            HtmlTag::Html
        } else if chars_equal_str(lower.as_slice(), "head") {
            HtmlTag::Head
        } else if chars_equal_str(lower.as_slice(), "body") {
            HtmlTag::Body
        } else if chars_equal_str(lower.as_slice(), "h1") {
            HtmlTag::H1
        } else if chars_equal_str(lower.as_slice(), "h2") {
            HtmlTag::H2
        } else if chars_equal_str(lower.as_slice(), "h3") {
            HtmlTag::H3
        } else if chars_equal_str(lower.as_slice(), "h4") {
            HtmlTag::H4
        } else if chars_equal_str(lower.as_slice(), "h5") {
            HtmlTag::H5
        } else if chars_equal_str(lower.as_slice(), "h6") {
            HtmlTag::H6
        } else if chars_equal_str(lower.as_slice(), "p") {
            HtmlTag::P
        } else if chars_equal_str(lower.as_slice(), "div") {
            HtmlTag::Div
        } else if chars_equal_str(lower.as_slice(), "span") {
            HtmlTag::Span
        } else if chars_equal_str(lower.as_slice(), "strong") {
            HtmlTag::Strong
        } else if chars_equal_str(lower.as_slice(), "b") {
            HtmlTag::B
        } else if chars_equal_str(lower.as_slice(), "em") {
            HtmlTag::Em
        } else if chars_equal_str(lower.as_slice(), "i") {
            HtmlTag::I
        } else if chars_equal_str(lower.as_slice(), "u") {
            HtmlTag::U
        } else if chars_equal_str(lower.as_slice(), "a") {
            HtmlTag::A
        } else if chars_equal_str(lower.as_slice(), "br") {
            HtmlTag::Br
        } else if chars_equal_str(lower.as_slice(), "hr") {
            HtmlTag::Hr
        } else if chars_equal_str(lower.as_slice(), "table") {
            HtmlTag::Table
        } else if chars_equal_str(lower.as_slice(), "tr") {
            HtmlTag::Tr
        } else if chars_equal_str(lower.as_slice(), "td") {
            HtmlTag::Td
        } else if chars_equal_str(lower.as_slice(), "th") {
            HtmlTag::Th
        } else if chars_equal_str(lower.as_slice(), "ul") {
            HtmlTag::Ul
        } else if chars_equal_str(lower.as_slice(), "ol") {
            HtmlTag::Ol
        } else if chars_equal_str(lower.as_slice(), "li") {
            HtmlTag::Li
        } else if chars_equal_str(lower.as_slice(), "img") {
            HtmlTag::Img
        } else if chars_equal_str(lower.as_slice(), "thead") {
            HtmlTag::Thead
        } else if chars_equal_str(lower.as_slice(), "tbody") {
            HtmlTag::Tbody
        } else if chars_equal_str(lower.as_slice(), "tfoot") {
            HtmlTag::Tfoot
        } else {
            HtmlTag::Unknown
        }
    }

    /// Whether the tag is laid out as a block.
    pub fn is_block(&self) -> (r: bool)
        ensures
            r == is_block_tag(*self),
    {
        matches!(
            self,
            Self::H1
                | Self::H2
                | Self::H3
                | Self::H4
                | Self::H5
                | Self::H6
                | Self::P
                | Self::Div
                | Self::Table
                | Self::Tr
                | Self::Ul
                | Self::Ol
                | Self::Li
                | Self::Hr
                | Self::Body
                | Self::Html
        )
    }

    /// Whether the tag is laid out inline.
    pub fn is_inline(&self) -> (r: bool)
        ensures
            r == is_inline_tag(*self),
    {
        matches!(
            self,
            Self::Span | Self::Strong | Self::B | Self::Em | Self::I | Self::U | Self::A
        )
    }
}

/// A node in the internal DOM tree.
#[derive(Debug)]
pub enum DomNode {
    Element(ElementNode),
    Text(String),
}

/// An HTML element with tag, attributes, and children.
///
/// The attributes are name/value pairs, each name at most once (see
/// `attribute_names_distinct`, which `set_attribute` keeps); a lookup finds the pair
/// with the name.
#[derive(Debug)]
pub struct ElementNode {
    pub tag: HtmlTag,
    pub attributes: Vec<(String, String)>,
    pub children: Vec<DomNode>,
}

/// The value of the first attribute named `name`, if there is one.
pub open spec fn attr_lookup(attrs: Seq<(String, String)>, name: Seq<char>) -> Option<Seq<char>>
    decreases attrs.len(),
{
    if attrs.len() == 0 {
        None
    } else if attrs[0].0@ == name {
        Some(attrs[0].1@)
    } else {
        attr_lookup(attrs.drop_first(), name)
    }
}

impl ElementNode {
    /// An element with the given tag, no attributes and no children.
    pub fn new(tag: HtmlTag) -> (r: Self)
        ensures
            r.tag == tag,
            r.attributes@.len() == 0,
            r.children@.len() == 0,
    {
        Self { tag, attributes: Vec::new(), children: Vec::new() }
    }

    /// The value of the attribute named `name`, if there is one.
    pub fn attribute(&self, name: &str) -> (r: Option<&str>)
        ensures
            match r {
                Some(v) => attr_lookup(self.attributes@, name@) == Some(v@),
                None => attr_lookup(self.attributes@, name@) is None,
            },
    {
        let n = self.attributes.len();
        let mut i: usize = 0;
        assert(self.attributes@.skip(0) == self.attributes@);
        while i < n
            invariant
                n == self.attributes@.len(),
                i <= n,
                attr_lookup(self.attributes@.skip(i as int), name@) == attr_lookup(
                    self.attributes@,
                    name@,
                ),
            decreases n - i,
        {
            assert(self.attributes@.skip(i as int).drop_first() == self.attributes@.skip(i + 1));
            if str_equal(self.attributes[i].0.as_str(), name) {
                return Some(self.attributes[i].1.as_str());
            }
            i += 1;
        }
        None
    }

    /// The value of the `style` attribute, if there is one.
    pub fn style_attr(&self) -> (r: Option<&str>)
        ensures
            match r {
                Some(v) => attr_lookup(self.attributes@, "style"@) == Some(v@),
                None => attr_lookup(self.attributes@, "style"@) is None,
            },
    {
        self.attribute("style")
    }
}

/// No two attributes share a name, as in a map from names to values.
pub open spec fn attribute_names_distinct(attrs: Seq<(String, String)>) -> bool {
    forall|i: int, j: int|
        0 <= i < j < attrs.len() ==> #[trigger] attrs[i].0@ != #[trigger] attrs[j].0@
}

/// With distinct names, the lookup of a name finds the value of the one attribute with
/// that name, whatever the order of the attributes.
pub proof fn lemma_attr_lookup_distinct(attrs: Seq<(String, String)>, i: int)
    requires
        attribute_names_distinct(attrs),
        0 <= i < attrs.len(),
    ensures
        attr_lookup(attrs, attrs[i].0@) == Some(attrs[i].1@),
    decreases attrs.len(),
{
    if i > 0 {
        let rest = attrs.drop_first();
        assert(attrs[0].0@ != attrs[i].0@);
        assert(rest[i - 1] == attrs[i]);
        assert forall|a: int, b: int| 0 <= a < b < rest.len() implies #[trigger] rest[a].0@
            != #[trigger] rest[b].0@ by {
            assert(rest[a] == attrs[a + 1] && rest[b] == attrs[b + 1]);
        }
        lemma_attr_lookup_distinct(rest, i - 1);
    }
}

/// Replacing the value of the first attribute named `name` changes the lookup of
/// `name` only.
proof fn lemma_lookup_update(attrs: Seq<(String, String)>, i: int, p: (String, String), n: Seq<char>)
    requires
        0 <= i < attrs.len(),
        attrs[i].0@ == p.0@,
        forall|k: int| 0 <= k < i ==> #[trigger] attrs[k].0@ != p.0@,
    ensures
        attr_lookup(attrs.update(i, p), n) == if n == p.0@ {
            Some(p.1@)
        } else {
            attr_lookup(attrs, n)
        },
    decreases attrs.len(),
{
    let u = attrs.update(i, p);
    if i == 0 {
        assert(u.drop_first() == attrs.drop_first());
    } else {
        assert(u[0] == attrs[0]);
        let rest = attrs.drop_first();
        assert(u.drop_first() == rest.update(i - 1, p));
        assert forall|k: int| 0 <= k < i - 1 implies #[trigger] rest[k].0@ != p.0@ by {
            assert(rest[k] == attrs[k + 1]);
        }
        lemma_lookup_update(rest, i - 1, p, n);
    }
}

/// Adding an attribute with a new name changes the lookup of that name only.
proof fn lemma_lookup_push(attrs: Seq<(String, String)>, p: (String, String), n: Seq<char>)
    requires
        forall|k: int| 0 <= k < attrs.len() ==> #[trigger] attrs[k].0@ != p.0@,
    ensures
        attr_lookup(attrs.push(p), n) == if n == p.0@ {
            Some(p.1@)
        } else {
            attr_lookup(attrs, n)
        },
    decreases attrs.len(),
{
    if attrs.len() > 0 {
        let rest = attrs.drop_first();
        assert(attrs.push(p)[0] == attrs[0]);
        assert(attrs.push(p).drop_first() == rest.push(p));
        assert forall|k: int| 0 <= k < rest.len() implies #[trigger] rest[k].0@ != p.0@ by {
            assert(rest[k] == attrs[k + 1]);
        }
        lemma_lookup_push(rest, p, n);
    } else {
        assert(attrs.push(p)[0] == p);
        assert(attrs.push(p).drop_first() =~= Seq::<(String, String)>::empty());
        assert(attr_lookup(attrs, n) is None);
        assert(attr_lookup(Seq::<(String, String)>::empty(), n) is None);
    }
}

impl ElementNode {
    /// Sets attribute `name` to `value`, as a map from names to values does: the
    /// lookup of `name` then gives `value`, other names keep their values, and names
    /// that were distinct stay distinct.
    pub fn set_attribute(&mut self, name: &str, value: &str)
        ensures
            final(self).tag == old(self).tag,
            final(self).children@ == old(self).children@,
            forall|n: Seq<char>|
                #[trigger] attr_lookup(final(self).attributes@, n) == if n == name@ {
                    Some(value@)
                } else {
                    attr_lookup(old(self).attributes@, n)
                },
            attribute_names_distinct(old(self).attributes@) ==> attribute_names_distinct(
                final(self).attributes@,
            ),
    {
        let n = self.attributes.len();
        let mut i: usize = 0;
        while i < n && !str_equal(self.attributes[i].0.as_str(), name)
            invariant
                n == self.attributes@.len(),
                i <= n,
                forall|k: int| 0 <= k < i ==> #[trigger] self.attributes@[k].0@ != name@,
            decreases n - i,
        {
            i += 1;
        }
        let p = (String::from_str(name), String::from_str(value));
        let ghost old_attrs = self.attributes@;
        if i < n {
            proof {
                assert forall|m: Seq<char>| #[trigger] attr_lookup(old_attrs.update(i as int, p), m)
                    == (if m == name@ {
                    Some(value@)
                } else {
                    attr_lookup(old_attrs, m)
                }) by {
                    lemma_lookup_update(old_attrs, i as int, p, m);
                }
            }
            self.attributes.set(i, p);
            proof {
                let u = self.attributes@;
                assert(u == old_attrs.update(i as int, p));
                assert forall|a: int, b: int|
                    attribute_names_distinct(old_attrs) && 0 <= a < b < u.len() implies #[trigger] u[a].0@
                    != #[trigger] u[b].0@ by {
                    assert(old_attrs[a].0@ != old_attrs[b].0@);
                }
            }
        } else {
            proof {
                assert forall|m: Seq<char>| #[trigger] attr_lookup(old_attrs.push(p), m) == (if m
                    == name@ {
                    Some(value@)
                } else {
                    attr_lookup(old_attrs, m)
                }) by {
                    lemma_lookup_push(old_attrs, p, m);
                }
            }
            self.attributes.push(p);
            proof {
                let u = self.attributes@;
                assert forall|a: int, b: int|
                    attribute_names_distinct(old_attrs) && 0 <= a < b < u.len() implies #[trigger] u[a].0@
                    != #[trigger] u[b].0@ by {
                    if b < n {
                        assert(old_attrs[a].0@ != old_attrs[b].0@);
                    } else {
                        assert(old_attrs[a].0@ != name@);
                    }
                }
            }
        }
    }
}

/// Tag names are read without regard to ASCII case.
pub proof fn lemma_tag_name_case_insensitive(name: Seq<char>)
    ensures
        tag_for_name(name) == tag_for_name(ascii_lower(name)),
{
    crate::text::lemma_ascii_lower_idempotent(name);
}

/// No tag is both a block and an inline tag.
pub proof fn lemma_block_inline_disjoint(t: HtmlTag)
    ensures
        !(is_block_tag(t) && is_inline_tag(t)),
{
}

} // verus!
