use ironpress::layout::engine::{inline_runs, list_marker, table_rows, ImageSource, RunPlan};
use ironpress::style::computed::{FontStyle, FontWeight, StyleFlags};
use ironpress::types::Color;
use ironpress::layout::plan::{plan_blocks, BlockPlan};
use ironpress::parser::dom::{DomNode, ElementNode, HtmlTag};

fn text(s: &str) -> DomNode {
    DomNode::Text(s.to_string())
}

fn el(tag: HtmlTag, attrs: &[(&str, &str)], children: Vec<DomNode>) -> DomNode {
    let mut e = ElementNode::new(tag);
    for (k, v) in attrs {
        e.attributes.push((k.to_string(), v.to_string()));
    }
    e.children = children;
    DomNode::Element(e)
}

fn run_texts(runs: &[RunPlan]) -> Vec<String> {
    runs.iter().map(|r| r.text.clone()).collect()
}

fn items(blocks: &[BlockPlan]) -> Vec<(String, usize, Vec<String>)> {
    blocks
        .iter()
        .filter_map(|b| match b {
            BlockPlan::ListItem { marker, depth, runs, .. } => {
                Some((marker.clone(), *depth, run_texts(runs)))
            }
            _ => None,
        })
        .collect()
}

#[test]
fn list_markers() {
    assert_eq!(list_marker(false, 7), "- ");
    assert_eq!(list_marker(true, 3), "3. ");
    assert_eq!(list_marker(true, 12), "12. ");
    assert_eq!(list_marker(true, 0), "0. ");
}

#[test]
fn table_rows_from_sections() {
    let row = |s: &str| el(HtmlTag::Tr, &[], vec![el(HtmlTag::Td, &[], vec![text(s)])]);
    let table = match el(
        HtmlTag::Table,
        &[],
        vec![
            el(HtmlTag::Thead, &[], vec![row("head")]),
            text(" "),
            row("direct"),
            el(HtmlTag::Tbody, &[], vec![row("body1"), el(HtmlTag::Span, &[], vec![]), row("body2")]),
            el(HtmlTag::Tfoot, &[], vec![row("foot")]),
            el(HtmlTag::Div, &[], vec![row("hidden")]),
        ],
    ) {
        DomNode::Element(e) => e,
        _ => unreachable!(),
    };
    let rows = table_rows(&table);
    let firsts: Vec<String> = rows
        .iter()
        .map(|r| match &r.children[0] {
            DomNode::Element(td) => match &td.children[0] {
                DomNode::Text(t) => t.clone(),
                _ => unreachable!(),
            },
            _ => unreachable!(),
        })
        .collect();
    assert_eq!(firsts, vec!["head", "direct", "body1", "body2", "foot"]);
}

#[test]
fn inline_runs_collapse_and_links() {
    let nodes = vec![
        text("  Hello   "),
        el(HtmlTag::Strong, &[], vec![text("bold")]),
        text("   "),
        el(HtmlTag::Br, &[], vec![]),
        el(
            HtmlTag::A,
            &[("href", "https://x.org")],
            vec![text("link"), el(HtmlTag::Em, &[], vec![text(" inner ")])],
        ),
        el(HtmlTag::P, &[], vec![text("block is skipped")]),
        el(HtmlTag::A, &[], vec![text("no href")]),
    ];
    let runs = inline_runs(&nodes, Some("outer"), StyleFlags::default());
    let got: Vec<(String, Option<String>)> =
        runs.iter().map(|r| (r.text.clone(), r.link_url.clone())).collect();
    let tags: Vec<Vec<HtmlTag>> =
        runs.iter().map(|r| r.steps.iter().map(|s| s.tag).collect()).collect();
    let bold: Vec<bool> = runs.iter().map(|r| r.flags.font_weight == FontWeight::Bold).collect();
    assert_eq!(bold, vec![false, true, false, false, false, false]);
    assert_eq!(runs[4].flags.font_style, FontStyle::Italic);
    assert!(runs[3].flags.underline);
    assert_eq!(
        tags,
        vec![
            vec![],
            vec![HtmlTag::Strong],
            vec![],
            vec![HtmlTag::A],
            vec![HtmlTag::A, HtmlTag::Em],
            vec![HtmlTag::A],
        ]
    );
    let o = Some("outer".to_string());
    let x = Some("https://x.org".to_string());
    assert_eq!(
        got,
        vec![
            ("Hello".to_string(), o.clone()),
            ("bold".to_string(), o.clone()),
            ("\n".to_string(), None),
            ("link".to_string(), x.clone()),
            ("inner".to_string(), x),
            ("no href".to_string(), o),
        ]
    );
}

#[test]
fn plan_paragraphs_and_bare_text() {
    let nodes = vec![
        el(HtmlTag::H1, &[], vec![text("Title")]),
        el(HtmlTag::P, &[], vec![text("Para "), el(HtmlTag::B, &[], vec![text("one")])]),
        text("Just some bare text"),
        el(HtmlTag::Br, &[], vec![]),
        el(HtmlTag::Hr, &[], vec![]),
        el(HtmlTag::Span, &[], vec![text("Hello")]),
        el(HtmlTag::P, &[], vec![text("   ")]),
    ];
    let blocks = plan_blocks(&nodes);
    assert_eq!(blocks.len(), 6);
    match &blocks[0] {
        BlockPlan::Text { tag, runs, .. } => {
            assert_eq!(*tag, Some(HtmlTag::H1));
            assert_eq!(run_texts(runs), vec!["Title"]);
        }
        other => panic!("unexpected {other:?}"),
    }
    match &blocks[1] {
        BlockPlan::Text { tag, runs, .. } => {
            assert_eq!(*tag, Some(HtmlTag::P));
            assert_eq!(run_texts(runs), vec!["Para", "one"]);
        }
        other => panic!("unexpected {other:?}"),
    }
    match &blocks[2] {
        BlockPlan::Text { tag, runs, .. } => {
            assert_eq!(*tag, None);
            assert_eq!(run_texts(runs), vec!["Just some bare text"]);
        }
        other => panic!("unexpected {other:?}"),
    }
    assert!(matches!(blocks[3], BlockPlan::LineBreak { .. }));
    assert!(matches!(blocks[4], BlockPlan::Rule { .. }));
    match &blocks[5] {
        BlockPlan::Text { tag, runs, .. } => {
            assert_eq!(*tag, None);
            assert_eq!(run_texts(runs), vec!["Hello"]);
        }
        other => panic!("unexpected {other:?}"),
    }
}

#[test]
fn plan_ordered_and_unordered_lists() {
    let li = |s: &str| el(HtmlTag::Li, &[], vec![text(s)]);
    let nodes = vec![
        el(HtmlTag::Ol, &[], vec![li("First"), text(" "), li("Second"), li("Third")]),
        el(HtmlTag::Ul, &[], vec![li("A"), el(HtmlTag::P, &[], vec![text("Not a list item")]), li("B")]),
    ];
    let blocks = plan_blocks(&nodes);
    assert_eq!(
        items(&blocks),
        vec![
            ("1. ".to_string(), 1, vec!["First".to_string()]),
            ("2. ".to_string(), 1, vec!["Second".to_string()]),
            ("3. ".to_string(), 1, vec!["Third".to_string()]),
            ("- ".to_string(), 1, vec!["A".to_string()]),
            ("- ".to_string(), 1, vec!["B".to_string()]),
        ]
    );
    assert_eq!(blocks.len(), 6);
    match &blocks[4] {
        BlockPlan::Text { tag, runs, .. } => {
            assert_eq!(*tag, Some(HtmlTag::P));
            assert_eq!(run_texts(runs), vec!["Not a list item"]);
        }
        other => panic!("unexpected {other:?}"),
    }
}

#[test]
fn plan_nested_lists() {
    let nodes = vec![el(
        HtmlTag::Ol,
        &[],
        vec![
            el(
                HtmlTag::Li,
                &[],
                vec![
                    text("Bullet"),
                    el(
                        HtmlTag::Ul,
                        &[],
                        vec![el(
                            HtmlTag::Li,
                            &[],
                            vec![
                                text("Level 2"),
                                el(HtmlTag::Ol, &[], vec![el(HtmlTag::Li, &[], vec![text("Level 3")])]),
                            ],
                        )],
                    ),
                ],
            ),
            el(HtmlTag::Li, &[], vec![el(HtmlTag::P, &[], vec![text("Paragraph inside li")])]),
        ],
    )];
    let blocks = plan_blocks(&nodes);
    assert_eq!(
        items(&blocks),
        vec![
            ("1. ".to_string(), 1, vec!["Bullet".to_string()]),
            ("- ".to_string(), 2, vec!["Level 2".to_string()]),
            ("1. ".to_string(), 3, vec!["Level 3".to_string()]),
            ("2. ".to_string(), 1, vec![]),
        ]
    );
    match blocks.last().unwrap() {
        BlockPlan::Text { tag, runs, .. } => {
            assert_eq!(*tag, Some(HtmlTag::P));
            assert_eq!(run_texts(runs), vec!["Paragraph inside li"]);
        }
        other => panic!("unexpected {other:?}"),
    }
}

#[test]
fn plan_table_rows_and_cells() {
    let nodes = vec![
        el(HtmlTag::Table, &[], vec![]),
        el(
            HtmlTag::Table,
            &[],
            vec![
                el(HtmlTag::Thead, &[], vec![el(HtmlTag::Tr, &[], vec![el(HtmlTag::Th, &[("colspan", "2")], vec![text("Header")])])]),
                el(HtmlTag::Tr, &[], vec![text("no cells")]),
                el(
                    HtmlTag::Tbody,
                    &[],
                    vec![el(
                        HtmlTag::Tr,
                        &[],
                        vec![
                            el(HtmlTag::Td, &[("rowspan", "3")], vec![text("Cell")]),
                            el(HtmlTag::Span, &[], vec![text("Ignored")]),
                            el(HtmlTag::Td, &[], vec![]),
                        ],
                    )],
                ),
            ],
        ),
    ];
    let blocks = plan_blocks(&nodes);
    assert_eq!(blocks.len(), 2);
    match &blocks[0] {
        BlockPlan::Row { first, cells, .. } => {
            assert!(*first);
            assert_eq!(cells.len(), 1);
            assert!(cells[0].header);
            assert_eq!((cells[0].colspan, cells[0].rowspan), (2, 1));
            assert_eq!(run_texts(&cells[0].runs), vec!["Header"]);
        }
        other => panic!("unexpected {other:?}"),
    }
    match &blocks[1] {
        BlockPlan::Row { first, cells, .. } => {
            assert!(!*first);
            assert_eq!(cells.len(), 2);
            assert!(!cells[0].header);
            assert_eq!((cells[0].colspan, cells[0].rowspan), (1, 3));
            assert_eq!(run_texts(&cells[0].runs), vec!["Cell"]);
            assert!(cells[1].runs.is_empty());
        }
        other => panic!("unexpected {other:?}"),
    }
}

#[test]
fn plan_images() {
    let nodes = vec![
        el(HtmlTag::Img, &[("src", "data:image/jpeg;base64,/9j/4AAC/9k=")], vec![]),
        el(HtmlTag::Img, &[("width", "100"), ("height", "80")], vec![]),
        el(HtmlTag::Img, &[("src", "a.jpg"), ("width", "300"), ("height", "225px")], vec![]),
    ];
    let blocks = plan_blocks(&nodes);
    assert_eq!(blocks.len(), 2);
    match &blocks[0] {
        BlockPlan::Image { source: ImageSource::Inline(b), width, height, .. } => {
            assert_eq!(b, &vec![0xff, 0xd8, 0xff, 0xe0, 0x00, 0x02, 0xff, 0xd9]);
            assert_eq!((width.clone(), height.clone()), (None, None));
        }
        other => panic!("unexpected {other:?}"),
    }
    match &blocks[1] {
        BlockPlan::Image { source: ImageSource::Path(p), width, height, .. } => {
            assert_eq!(p, "a.jpg");
            assert_eq!(width.as_deref(), Some("300"));
            assert_eq!(height.as_deref(), Some("225px"));
        }
        other => panic!("unexpected {other:?}"),
    }
}

#[test]
fn text_under_inline_parent_keeps_its_style() {
    let nodes = vec![el(HtmlTag::Strong, &[], vec![text("x")])];
    let blocks = plan_blocks(&nodes);
    assert_eq!(blocks.len(), 1);
    match &blocks[0] {
        BlockPlan::Text { tag, steps, flags, runs } => {
            assert_eq!(*tag, None);
            assert_eq!(steps.len(), 1);
            assert_eq!(steps[0].tag, HtmlTag::Strong);
            assert_eq!(flags.font_weight, FontWeight::Bold);
            assert_eq!(runs[0].flags.font_weight, FontWeight::Bold);
        }
        other => panic!("unexpected {other:?}"),
    }
}

#[test]
fn nested_blocks_inherit_and_inline_styles_apply() {
    let nodes = vec![el(
        HtmlTag::Div,
        &[("style", "color: #ff0000; text-align: center")],
        vec![el(HtmlTag::P, &[("style", "font-style: italic")], vec![text("Inner")])],
    )];
    let blocks = plan_blocks(&nodes);
    assert_eq!(blocks.len(), 1);
    match &blocks[0] {
        BlockPlan::Text { tag, steps, flags, .. } => {
            assert_eq!(*tag, Some(HtmlTag::P));
            assert_eq!(steps.len(), 2);
            assert_eq!(steps[0].style.as_deref(), Some("color: #ff0000; text-align: center"));
            assert_eq!(flags.color, Color::rgb(255, 0, 0));
            assert_eq!(flags.font_style, FontStyle::Italic);
            assert_eq!(flags.text_align, ironpress::style::computed::TextAlign::Center);
        }
        other => panic!("unexpected {other:?}"),
    }
}

#[test]
fn page_break_styles_plan_page_breaks() {
    let nodes = vec![
        el(HtmlTag::P, &[], vec![text("Page 1")]),
        el(HtmlTag::Div, &[("style", "page-break-before: always")], vec![el(HtmlTag::P, &[], vec![text("Page 2")])]),
        el(HtmlTag::Div, &[("style", "page-break-after: always")], vec![el(HtmlTag::P, &[], vec![text("Page 2 end")])]),
        el(HtmlTag::P, &[], vec![text("Page 3")]),
    ];
    let blocks = plan_blocks(&nodes);
    let kinds: Vec<&str> = blocks
        .iter()
        .map(|b| match b {
            BlockPlan::PageBreak => "break",
            BlockPlan::Text { .. } => "text",
            _ => "other",
        })
        .collect();
    // Page-break flags are inherited like the other flags, so the paragraph inside
    // each div asks for its own break too.
    assert_eq!(kinds, vec!["text", "break", "break", "text", "text", "break", "break", "text"]);
}
