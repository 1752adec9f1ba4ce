//! The block structure of a document: which blocks the layout engine lays out, in
//! which order, with which list markers, table rows and inline runs.
use vstd::prelude::*;
use crate::layout::engine::{
    cell_span, checked_column_count, collapse_whitespace, row_columns, table_columns, collapsed, copy_steps, element_flags, lemma_step_views_drop_last, flags_of_element,
    image_source, image_source_of, inline_runs, list_marker, marker_text, run_views, runs_of,
    span_of, step_of, step_views, style_step, table_rows, rows_of, ImageSource,
    ImageSourceView, RunPlan, RunView, StepView, StyleStep,
};
use crate::parser::css::parsed_style;
use crate::style::computed::{keyword_of, lemma_inline_overrides, root_flags, StyleFlags};
use crate::parser::dom::{attr_lookup, is_block_tag, is_inline_tag, DomNode, ElementNode, HtmlTag};

verus! {

/// A table cell of a planned row: the elements from the document root down to the
/// cell, the cell's flags, and its inline content.
#[derive(Debug)]
pub struct CellPlan {
    /// A `th` cell.
    pub header: bool,
    pub colspan: usize,
    pub rowspan: usize,
    pub steps: Vec<StyleStep>,
    pub flags: StyleFlags,
    pub runs: Vec<RunPlan>,
}

/// A cell as the contracts speak of it.
pub struct CellView {
    pub header: bool,
    pub colspan: usize,
    pub rowspan: usize,
    pub steps: Seq<StepView>,
    pub flags: StyleFlags,
    pub runs: Seq<RunView>,
}

impl View for CellPlan {
    type V = CellView;

    open spec fn view(&self) -> CellView {
        CellView {
            header: self.header,
            colspan: self.colspan,
            rowspan: self.rowspan,
            steps: step_views(self.steps@),
            flags: self.flags,
            runs: run_views(self.runs@),
        }
    }
}

/// A block for the layout engine to lay out. `steps` are the elements from the
/// document root down to the block's element (for bare text, down to its parent),
/// whose styles the block's style is resolved from; `flags` is that style's resolved
/// flags.
#[derive(Debug)]
pub enum BlockPlan {
    /// The inline content of a block element, or a bare text node (`tag` is `None`).
    Text { tag: Option<HtmlTag>, steps: Vec<StyleStep>, flags: StyleFlags, runs: Vec<RunPlan> },
    /// A list item: its marker, its list level (1 in a list that no other list
    /// encloses, one more in each list nested in an item), and its inline content.
    ListItem {
        marker: String,
        depth: usize,
        steps: Vec<StyleStep>,
        flags: StyleFlags,
        runs: Vec<RunPlan>,
    },
    /// A `br` outside inline content: an empty line.
    LineBreak { steps: Vec<StyleStep> },
    /// An `hr`.
    Rule { steps: Vec<StyleStep> },
    /// An `img` with a source, and its `width` and `height` attributes.
    Image {
        source: ImageSource,
        width: Option<String>,
        height: Option<String>,
        steps: Vec<StyleStep>,
    },
    /// A table row with at least one cell; `first` for the first row of its table;
    /// `columns` is the table's column count, if it fits in a `usize`; `steps` end
    /// with the row.
    Row { first: bool, columns: Option<usize>, steps: Vec<StyleStep>, cells: Vec<CellPlan> },
    /// The start of a new page.
    PageBreak,
}

/// A block as the contracts speak of it.
pub enum BlockView {
    Text { tag: Option<HtmlTag>, steps: Seq<StepView>, flags: StyleFlags, runs: Seq<RunView> },
    ListItem {
        marker: Seq<char>,
        depth: usize,
        steps: Seq<StepView>,
        flags: StyleFlags,
        runs: Seq<RunView>,
    },
    LineBreak { steps: Seq<StepView> },
    Rule { steps: Seq<StepView> },
    Image {
        source: ImageSourceView,
        width: Option<Seq<char>>,
        height: Option<Seq<char>>,
        steps: Seq<StepView>,
    },
    Row { first: bool, columns: Option<usize>, steps: Seq<StepView>, cells: Seq<CellView> },
    PageBreak,
}

/// An optional string by its view.
pub open spec fn opt_string_view(s: Option<String>) -> Option<Seq<char>> {
    match s {
        Some(v) => Some(v@),
        None => None,
    }
}

/// A copy of the value of attribute `name` of `e`, if it has one.
fn owned_attribute(e: &ElementNode, name: &str) -> (r: Option<String>)
    ensures
        opt_string_view(r) == attr_lookup(e.attributes@, name@),
{
    match e.attribute(name) {
        Some(v) => Some(String::from_str(v)),
        None => None,
    }
}

/// The views of a sequence of cells.
pub open spec fn cell_views(v: Seq<CellPlan>) -> Seq<CellView> {
    v.map_values(|c: CellPlan| c@)
}

impl View for BlockPlan {
    type V = BlockView;

    open spec fn view(&self) -> BlockView {
        match self {
            BlockPlan::Text { tag, steps, flags, runs } => BlockView::Text {
                tag: *tag,
                steps: step_views(steps@),
                flags: *flags,
                runs: run_views(runs@),
            },
            BlockPlan::ListItem { marker, depth, steps, flags, runs } => BlockView::ListItem {
                marker: marker@,
                depth: *depth,
                steps: step_views(steps@),
                flags: *flags,
                runs: run_views(runs@),
            },
            BlockPlan::LineBreak { steps } => BlockView::LineBreak { steps: step_views(steps@) },
            BlockPlan::Rule { steps } => BlockView::Rule { steps: step_views(steps@) },
            BlockPlan::Image { source, width, height, steps } => BlockView::Image {
                source: source@,
                width: opt_string_view(*width),
                height: opt_string_view(*height),
                steps: step_views(steps@),
            },
            BlockPlan::Row { first, columns, steps, cells } => BlockView::Row {
                first: *first,
                columns: *columns,
                steps: step_views(steps@),
                cells: cell_views(cells@),
            },
            BlockPlan::PageBreak => BlockView::PageBreak,
        }
    }
}

/// The views of a sequence of blocks.
pub open spec fn block_views(v: Seq<BlockPlan>) -> Seq<BlockView> {
    v.map_values(|b: BlockPlan| b@)
}

/// The list a list item stands in: whether it is ordered, the item's number, and the
/// list's level (see `BlockPlan::ListItem`).
#[derive(Debug, Clone, Copy, PartialEq, Eq, Structural)]
pub struct ListCtx {
    pub ordered: bool,
    pub index: usize,
    pub depth: usize,
}

/// Which children of an element are laid out, and how.
#[derive(Debug, Clone, Copy, PartialEq, Eq, Structural)]
pub enum ChildMode {
    /// All of them: text nodes as bare text, elements each by its kind.
    Flow,
    /// The children of a list: `li` elements as its items, numbered from 1.
    List { ordered: bool, depth: usize },
    /// The block children of a list item; nested lists stay in the item's list.
    InItem(Option<ListCtx>),
    /// The block children of a block element.
    InBlock,
}

/// The level of the list `ctx` (0 outside a list).
pub open spec fn depth_of(ctx: Option<ListCtx>) -> usize {
    match ctx {
        Some(c) => c.depth,
        None => 0,
    }
}

/// One level deeper than `d` (the count stops at the largest `usize`).
pub open spec fn deeper(d: usize) -> usize {
    if d < usize::MAX {
        (d + 1) as usize
    } else {
        d
    }
}

/// The number of `li` elements among `nodes`.
pub open spec fn li_count(nodes: Seq<DomNode>) -> nat
    decreases nodes.len(),
{
    if nodes.len() == 0 {
        0
    } else {
        li_count(nodes.drop_last()) + if nodes.last() matches DomNode::Element(e) && e.tag
            == HtmlTag::Li {
            1nat
        } else {
            0nat
        }
    }
}

/// The cells of a table row: its `td` and `th` children, each with its spans, its
/// steps and flags below the row's `steps` and `flags`, and the inline runs of its
/// content.
pub open spec fn cells_of(nodes: Seq<DomNode>, steps: Seq<StepView>, flags: StyleFlags) -> Seq<
    CellView,
>
    decreases nodes.len(),
{
    if nodes.len() == 0 {
        Seq::empty()
    } else {
        cells_of(nodes.drop_last(), steps, flags) + match nodes.last() {
            DomNode::Element(e) => if e.tag == HtmlTag::Td || e.tag == HtmlTag::Th {
                let f = element_flags(e, flags);
                seq![
                    CellView {
                        header: e.tag == HtmlTag::Th,
                        colspan: span_of(e.attributes@, "colspan"@) as usize,
                        rowspan: span_of(e.attributes@, "rowspan"@) as usize,
                        steps: steps.push(step_of(e)),
                        flags: f,
                        runs: runs_of(e.children@, None, Seq::empty(), f),
                    },
                ]
            } else {
                Seq::empty()
            },
            DomNode::Text(_) => Seq::empty(),
        }
    }
}

/// The greatest number of columns that the cells of one of `rows` take (see
/// `row_columns`), or 1 without rows.
pub open spec fn widest_row(rows: Seq<ElementNode>) -> nat
    decreases rows.len(),
{
    if rows.len() == 0 {
        1
    } else if rows.len() == 1 {
        row_columns(rows[0].children@)
    } else {
        let rest = widest_row(rows.drop_last());
        let last = row_columns(rows.last().children@);
        if last >= rest {
            last
        } else {
            rest
        }
    }
}

/// The column count of a table with the given rows, if no row's count exceeds a
/// `usize`.
pub open spec fn column_count_of(rows: Seq<ElementNode>) -> Option<usize> {
    if forall|i: int| 0 <= i < rows.len() ==> row_columns(#[trigger] rows[i].children@) <= usize::MAX {
        Some(widest_row(rows) as usize)
    } else {
        None
    }
}

/// The column count of a table whose rows are given by reference is that of the rows.
proof fn lemma_widest_row(refs: Seq<&ElementNode>, rows: Seq<ElementNode>)
    requires
        rows == refs.map_values(|r: &ElementNode| *r),
    ensures
        table_columns(refs) == widest_row(rows),
    decreases refs.len(),
{
    if refs.len() > 1 {
        assert(rows.drop_last() == refs.drop_last().map_values(|r: &ElementNode| *r));
        lemma_widest_row(refs.drop_last(), rows.drop_last());
    }
}

/// The planned rows of a table with the given rows, inside the table's `steps` and
/// `flags`, `columns` being the table's column count: one for each row with a cell,
/// the first of them marked.
pub open spec fn row_plans(
    rows: Seq<ElementNode>,
    columns: Option<usize>,
    steps: Seq<StepView>,
    flags: StyleFlags,
) -> Seq<BlockView>
    decreases rows.len(),
{
    if rows.len() == 0 {
        Seq::empty()
    } else {
        let prev = row_plans(rows.drop_last(), columns, steps, flags);
        let row = rows.last();
        let row_steps = steps.push(step_of(row));
        let cells = cells_of(row.children@, row_steps, element_flags(row, flags));
        prev + if cells.len() > 0 {
            seq![BlockView::Row { first: prev.len() == 0, columns, steps: row_steps, cells }]
        } else {
            Seq::empty()
        }
    }
}

/// The blocks of the children `nodes` of an element whose steps and flags are
/// `steps` and `flags`, laid out as `mode` says.
pub open spec fn plan_children(
    nodes: Seq<DomNode>,
    mode: ChildMode,
    steps: Seq<StepView>,
    flags: StyleFlags,
) -> Seq<BlockView>
    decreases nodes,
{
    if nodes.len() == 0 {
        Seq::empty()
    } else {
        let last = nodes.len() - 1;
        let prefix = nodes.subrange(0, last);
        plan_children(prefix, mode, steps, flags) + match nodes[last] {
            DomNode::Text(t) => if mode == ChildMode::Flow && collapsed(t@).len() > 0 {
                seq![
                    BlockView::Text {
                        tag: None,
                        steps,
                        flags,
                        runs: seq![
                            RunView {
                                text: collapsed(t@),
                                link_url: None,
                                steps: Seq::empty(),
                                flags,
                            },
                        ],
                    },
                ]
            } else {
                Seq::empty()
            },
            DomNode::Element(e) => match mode {
                ChildMode::Flow => plan_element(e, None, steps, flags),
                ChildMode::List { ordered, depth } => if e.tag == HtmlTag::Li {
                    plan_element(
                        e,
                        Some(ListCtx { ordered, index: (li_count(prefix) + 1) as usize, depth }),
                        steps,
                        flags,
                    )
                } else {
                    plan_element(e, None, steps, flags)
                },
                ChildMode::InItem(ctx) => if e.tag == HtmlTag::Ul || e.tag == HtmlTag::Ol {
                    plan_element(e, ctx, steps, flags)
                } else if is_block_tag(e.tag) {
                    plan_element(e, None, steps, flags)
                } else {
                    Seq::empty()
                },
                ChildMode::InBlock => if is_block_tag(e.tag) {
                    plan_element(e, None, steps, flags)
                } else {
                    Seq::empty()
                },
            },
        }
    }
}

/// A page break when `b` holds.
pub open spec fn break_if(b: bool) -> Seq<BlockView> {
    if b {
        seq![BlockView::PageBreak]
    } else {
        Seq::empty()
    }
}

/// The blocks of element `e`, an item of the list `ctx` if it is in one, inside a
/// parent whose steps and flags are `steps` and `flags`. The element's own steps end
/// with it, and its flags are resolved from its tag and `style` attribute (see
/// `element_flags`).
/// - `br`: an empty line; `hr`: a rule; `img`: the image, if its source can be had;
/// - any other element starts with a page break if its flags ask for one before it;
/// - `table`: then its rows (see `row_plans`);
/// - `ul`, `ol`: then the blocks of its children as items of a list one level deeper;
/// - `li`: then an item with its marker and inline content, and its block children;
/// - another block element: then its inline content, if any, and its block children;
/// - an inline element: then the blocks of all its children;
/// - the last two end with a page break if their flags ask for one after them.
pub open spec fn plan_element(
    e: ElementNode,
    ctx: Option<ListCtx>,
    steps: Seq<StepView>,
    flags: StyleFlags,
) -> Seq<BlockView>
    decreases e,
{
    let own = steps.push(step_of(e));
    let f = element_flags(e, flags);
    if e.tag == HtmlTag::Br {
        seq![BlockView::LineBreak { steps: own }]
    } else if e.tag == HtmlTag::Hr {
        seq![BlockView::Rule { steps: own }]
    } else if e.tag == HtmlTag::Img {
        match attr_lookup(e.attributes@, "src"@) {
            None => Seq::empty(),
            Some(src) => match image_source_of(src) {
                None => Seq::empty(),
                Some(v) => seq![
                    BlockView::Image {
                        source: v,
                        width: attr_lookup(e.attributes@, "width"@),
                        height: attr_lookup(e.attributes@, "height"@),
                        steps: own,
                    },
                ],
            },
        }
    } else if e.tag == HtmlTag::Table {
        let rows = rows_of(e.children@);
        break_if(f.page_break_before) + row_plans(rows, column_count_of(rows), own, f)
    } else if e.tag == HtmlTag::Ul || e.tag == HtmlTag::Ol {
        break_if(f.page_break_before) + plan_children(
            e.children@,
            ChildMode::List { ordered: e.tag == HtmlTag::Ol, depth: deeper(depth_of(ctx)) },
            own,
            f,
        )
    } else if e.tag == HtmlTag::Li {
        let marker = match ctx {
            Some(c) => marker_text(c.ordered, c.index as nat),
            None => marker_text(false, 0),
        };
        break_if(f.page_break_before) + seq![
            BlockView::ListItem {
                marker,
                depth: depth_of(ctx),
                steps: own,
                flags: f,
                runs: runs_of(e.children@, None, Seq::empty(), f),
            },
        ] + plan_children(e.children@, ChildMode::InItem(ctx), own, f)
    } else if is_block_tag(e.tag) {
        let runs = runs_of(e.children@, None, Seq::empty(), f);
        break_if(f.page_break_before) + (if runs.len() > 0 {
            seq![BlockView::Text { tag: Some(e.tag), steps: own, flags: f, runs }]
        } else {
            Seq::empty()
        }) + plan_children(e.children@, ChildMode::InBlock, own, f) + break_if(
            f.page_break_after,
        )
    } else {
        break_if(f.page_break_before) + plan_children(e.children@, ChildMode::Flow, own, f)
            + break_if(f.page_break_after)
    }
}

/// The blocks of a document (see `plan_element`), whose root has the flags
/// `root_flags()`.
pub open spec fn block_plan(nodes: Seq<DomNode>) -> Seq<BlockView> {
    plan_children(nodes, ChildMode::Flow, Seq::empty(), root_flags())
}

/// No more items than children.
proof fn lemma_li_count_bound(nodes: Seq<DomNode>)
    ensures
        li_count(nodes) <= nodes.len(),
    decreases nodes.len(),
{
    if nodes.len() > 0 {
        lemma_li_count_bound(nodes.drop_last());
    }
}

/// The blocks of the first children come first.
proof fn lemma_plan_prefix(
    nodes: Seq<DomNode>,
    mode: ChildMode,
    steps: Seq<StepView>,
    flags: StyleFlags,
    j: int,
)
    requires
        0 <= j <= nodes.len(),
    ensures
        plan_children(nodes, mode, steps, flags).take(
            plan_children(nodes.take(j), mode, steps, flags).len() as int,
        ) == plan_children(nodes.take(j), mode, steps, flags),
        plan_children(nodes.take(j), mode, steps, flags).len() <= plan_children(
            nodes,
            mode,
            steps,
            flags,
        ).len(),
    decreases nodes.len() - j,
{
    if j == nodes.len() {
        assert(nodes.take(j) == nodes);
    } else {
        lemma_plan_prefix(nodes, mode, steps, flags, j + 1);
        let t = nodes.take(j + 1);
        assert(t.subrange(0, j) == nodes.take(j));
        let a = plan_children(nodes.take(j), mode, steps, flags);
        let b = plan_children(t, mode, steps, flags);
        assert(b.take(a.len() as int) == a);
    }
}

/// The items of a list are numbered from 1 in document order: the blocks of each
/// `li` child start with its item (after a page break if the item's style asks for
/// one before it), whose number is one more than the count of `li` children before
/// it (other children do not advance it), at the list's level.
pub proof fn lemma_list_item_numbers(
    nodes: Seq<DomNode>,
    ordered: bool,
    depth: usize,
    steps: Seq<StepView>,
    flags: StyleFlags,
    i: int,
)
    requires
        0 <= i < nodes.len(),
        nodes.len() <= usize::MAX,
        nodes[i] matches DomNode::Element(e) && e.tag == HtmlTag::Li,
    ensures
        ({
            let mode = ChildMode::List { ordered, depth };
            let p = plan_children(nodes, mode, steps, flags);
            let k = plan_children(nodes.take(i), mode, steps, flags).len() as int;
            let e = nodes[i]->Element_0;
            let j = if element_flags(e, flags).page_break_before {
                k + 1
            } else {
                k
            };
            &&& j < p.len()
            &&& p[j] matches BlockView::ListItem { marker, depth: d, .. }
            &&& marker == marker_text(ordered, li_count(nodes.take(i)) + 1)
            &&& d == depth
        }),
{
    let mode = ChildMode::List { ordered, depth };
    lemma_plan_prefix(nodes, mode, steps, flags, i + 1);
    lemma_li_count_bound(nodes.take(i));
    let t = nodes.take(i + 1);
    assert(t.subrange(0, i) == nodes.take(i));
    assert(t[i] == nodes[i]);
    let a = plan_children(nodes.take(i), mode, steps, flags);
    let b = plan_children(t, mode, steps, flags);
    let p = plan_children(nodes, mode, steps, flags);
    let n = li_count(nodes.take(i)) + 1;
    match nodes[i] {
        DomNode::Element(e) => {
            let ctx = Some(ListCtx { ordered, index: n as usize, depth });
            let pe = plan_element(e, ctx, steps, flags);
            let br = if element_flags(e, flags).page_break_before {
                1int
            } else {
                0int
            };
            assert(b == a + pe);
            assert(pe[br] matches BlockView::ListItem { marker, depth: d, .. } && marker
                == marker_text(ordered, n) && d == depth);
            assert(b[a.len() + br] == pe[br]);
            assert(p.take(b.len() as int)[a.len() + br] == p[a.len() + br]);
        },
        DomNode::Text(_) => {},
    }
}

/// An element whose inline style says `page-break-before: always` gets the flag,
/// whatever its tag and parent.
pub proof fn lemma_inline_page_break(e: ElementNode, flags: StyleFlags, style: Seq<char>)
    requires
        attr_lookup(e.attributes@, "style"@) == Some(style),
        keyword_of(parsed_style(style), "page-break-before"@) == Some("always"@),
    ensures
        element_flags(e, flags).page_break_before,
{
    lemma_inline_overrides(e.tag, parsed_style(style), flags);
}

/// The blocks of an element whose flags ask for a page break before it start with a
/// page break, unless it is a `br`, an `hr` or an `img`.
pub proof fn lemma_page_break_before(
    e: ElementNode,
    ctx: Option<ListCtx>,
    steps: Seq<StepView>,
    flags: StyleFlags,
)
    requires
        e.tag != HtmlTag::Br,
        e.tag != HtmlTag::Hr,
        e.tag != HtmlTag::Img,
        element_flags(e, flags).page_break_before,
    ensures
        plan_element(e, ctx, steps, flags).len() > 0,
        plan_element(e, ctx, steps, flags)[0] == BlockView::PageBreak,
{
}

/// Text directly inside an inline element is laid out with that element's style: its
/// block ends its steps with the element and has the element's flags, as does its run.
pub proof fn lemma_text_in_inline(
    e: ElementNode,
    ctx: Option<ListCtx>,
    steps: Seq<StepView>,
    flags: StyleFlags,
    t: String,
)
    requires
        is_inline_tag(e.tag),
        e.children@ == seq![DomNode::Text(t)],
        collapsed(t@).len() > 0,
        !element_flags(e, flags).page_break_before,
    ensures
        ({
            let f = element_flags(e, flags);
            let p = plan_element(e, ctx, steps, flags);
            &&& p.len() > 0
            &&& p[0] == BlockView::Text {
                tag: None,
                steps: steps.push(step_of(e)),
                flags: f,
                runs: seq![
                    RunView { text: collapsed(t@), link_url: None, steps: Seq::empty(), flags: f },
                ],
            }
        }),
{
    let c = e.children@;
    let own = steps.push(step_of(e));
    let f = element_flags(e, flags);
    let block = BlockView::Text {
        tag: None,
        steps: own,
        flags: f,
        runs: seq![RunView { text: collapsed(t@), link_url: None, steps: Seq::empty(), flags: f }],
    };
    assert(c.subrange(0, 0) =~= Seq::<DomNode>::empty());
    assert(plan_children(c.subrange(0, 0), ChildMode::Flow, own, f) =~= Seq::<BlockView>::empty());
    assert(plan_children(c, ChildMode::Flow, own, f) =~= seq![block]);
    assert(!is_block_tag(e.tag));
    assert(plan_element(e, ctx, steps, flags) == break_if(false) + seq![block] + break_if(
        f.page_break_after,
    ));
    assert((break_if(false) + seq![block] + break_if(f.page_break_after))[0] == block);
}

/// A table's plan is rows only, each with at least one cell, and exactly the first
/// of them is marked first.
pub proof fn lemma_row_plans_first(
    rows: Seq<ElementNode>,
    columns: Option<usize>,
    steps: Seq<StepView>,
    flags: StyleFlags,
)
    ensures
        forall|i: int|
            0 <= i < row_plans(rows, columns, steps, flags).len() ==> (#[trigger] row_plans(
                rows,
                columns,
                steps,
                flags,
            )[i] matches BlockView::Row { first, cells, .. } && (first <==> i == 0) && cells.len()
                > 0),
    decreases rows.len(),
{
    if rows.len() > 0 {
        lemma_row_plans_first(rows.drop_last(), columns, steps, flags);
        let prev = row_plans(rows.drop_last(), columns, steps, flags);
        let p = row_plans(rows, columns, steps, flags);
        assert forall|i: int| 0 <= i < p.len() implies (#[trigger] p[i] matches BlockView::Row {
            first,
            cells,
            ..
        } && (first <==> i == 0) && cells.len() > 0) by {
            if i < prev.len() {
                assert(p[i] == prev[i]);
            }
        }
    }
}

/// The cells of a table row (see `cells_of`), below the row's steps and flags.
fn row_cells(row: &ElementNode, steps: &mut Vec<StyleStep>, flags: StyleFlags) -> (r: Vec<
    CellPlan,
>)
    ensures
        cell_views(r@) == cells_of(row.children@, step_views(old(steps)@), flags),
        step_views(final(steps)@) == step_views(old(steps)@),
{
    let n = row.children.len();
    let ghost sv = step_views(steps@);
    let mut out: Vec<CellPlan> = Vec::new();
    for i in 0..n
        invariant
            n == row.children@.len(),
            step_views(steps@) == sv,
            cell_views(out@) == cells_of(row.children@.take(i as int), sv, flags),
    {
        proof {
            assert(row.children@.take(i + 1).drop_last() == row.children@.take(i as int));
        }
        let ghost before = cell_views(out@);
        if let DomNode::Element(c) = &row.children[i] {
            if c.tag == HtmlTag::Td || c.tag == HtmlTag::Th {
                let f = flags_of_element(c, &flags);
                steps.push(style_step(c));
                let cell = CellPlan {
                    header: c.tag == HtmlTag::Th,
                    colspan: cell_span(c, "colspan"),
                    rowspan: cell_span(c, "rowspan"),
                    steps: copy_steps(steps),
                    flags: f,
                    runs: inline_runs(c.children.as_slice(), None, f),
                };
                proof {
                    assert(step_views(steps@) =~= sv.push(step_of(*c)));
                }
                let ghost mid = steps@;
                steps.pop();
                proof {
                    lemma_step_views_drop_last(mid);
                }
                proof {
                    assert(step_views(steps@) =~= sv);
                }
                out.push(cell);
                proof {
                    assert(cell_views(out@) =~= before.push(cell@));
                }
            }
        }
        proof {
            assert(cell_views(out@) =~= cells_of(row.children@.take(i + 1), sv, flags));
        }
    }
    proof {
        assert(row.children@.take(n as int) == row.children@);
    }
    out
}

/// Appends the planned rows of table `e` to `out`; `steps` end with the table and
/// `flags` are its flags.
fn push_table(e: &ElementNode, steps: &mut Vec<StyleStep>, flags: StyleFlags, out: &mut Vec<
    BlockPlan,
>)
    ensures
        block_views(final(out)@) == block_views(old(out)@) + row_plans(
            rows_of(e.children@),
            column_count_of(rows_of(e.children@)),
            step_views(old(steps)@),
            flags,
        ),
        step_views(final(steps)@) == step_views(old(steps)@),
{
    let rows = table_rows(e);
    let ghost rv = rows@.map_values(|r: &ElementNode| *r);
    let ghost start = block_views(out@);
    let ghost sv = step_views(steps@);
    let n = rows.len();
    let columns = checked_column_count(rows.as_slice());
    let ghost cols = column_count_of(rv);
    proof {
        lemma_widest_row(rows@, rv);
        if columns is None {
            let i = choose|i: int|
                0 <= i < rows@.len() && row_columns(#[trigger] rows@[i].children@) > usize::MAX;
            assert(rv[i] == *rows@[i]);
        } else {
            assert forall|i: int| 0 <= i < rv.len() implies row_columns(
                #[trigger] rv[i].children@,
            ) <= usize::MAX by {
                assert(rv[i] == *rows@[i]);
            }
        }
        assert(columns == cols);
    }
    let mut any = false;
    for i in 0..n
        invariant
            n == rows@.len(),
            rv == rows@.map_values(|r: &ElementNode| *r),
            rv == rows_of(e.children@),
            step_views(steps@) == sv,
            columns == cols,
            block_views(out@) == start + row_plans(rv.take(i as int), cols, sv, flags),
            any == (row_plans(rv.take(i as int), cols, sv, flags).len() > 0),
    {
        proof {
            assert(rv.take(i + 1).drop_last() == rv.take(i as int));
            assert(rv.take(i + 1).last() == *rows@[i as int]);
        }
        let row = rows[i];
        let rf = flags_of_element(row, &flags);
        steps.push(style_step(row));
        proof {
            assert(step_views(steps@) =~= sv.push(step_of(*row)));
        }
        let cells = row_cells(row, steps, rf);
        let ghost before = block_views(out@);
        if cells.len() > 0 {
            let b = BlockPlan::Row { first: !any, columns, steps: copy_steps(steps), cells };
            out.push(b);
            any = true;
            proof {
                assert(block_views(out@) =~= before.push(b@));
            }
        }
        let ghost mid = steps@;
        steps.pop();
        proof {
            lemma_step_views_drop_last(mid);
            assert(step_views(steps@) =~= sv);
            assert(block_views(out@) =~= start + row_plans(rv.take(i + 1), cols, sv, flags));
        }
    }
    proof {
        assert(rv.take(n as int) == rv);
    }
}

/// Appends the blocks of the children `nodes` of an element whose steps and flags are
/// `steps` and `flags`, laid out as `mode` says, to `out`.
#[verifier::rlimit(100)]
#[verifier::spinoff_prover]
fn push_children(
    nodes: &[DomNode],
    mode: ChildMode,
    steps: &mut Vec<StyleStep>,
    flags: StyleFlags,
    out: &mut Vec<BlockPlan>,
)
    ensures
        block_views(final(out)@) == block_views(old(out)@) + plan_children(
            nodes@,
            mode,
            step_views(old(steps)@),
            flags,
        ),
        step_views(final(steps)@) == step_views(old(steps)@),
    decreases nodes@,
{
    let n = nodes.len();
    let ghost start = block_views(out@);
    let ghost sv = step_views(steps@);
    let mut items: usize = 0;
    for i in 0..n
        invariant
            n == nodes@.len(),
            step_views(steps@) == sv,
            block_views(out@) == start + plan_children(nodes@.take(i as int), mode, sv, flags),
            items == li_count(nodes@.take(i as int)),
            items <= i,
    {
        proof {
            assert(nodes@.take(i + 1).subrange(0, i as int) == nodes@.take(i as int));
            assert(nodes@.take(i + 1).drop_last() == nodes@.take(i as int));
            assert(nodes@.take(i + 1)[i as int] == nodes@[i as int]);
        }
        let ghost before = block_views(out@);
        match &nodes[i] {
            DomNode::Text(t) => {
                if matches!(mode, ChildMode::Flow) {
                    let c = collapse_whitespace(t.as_str());
                    if c.as_str().unicode_len() > 0 {
                        let run = RunPlan { text: c, link_url: None, steps: Vec::new(), flags };
                        let ghost rw = run@;
                        assert(step_views(Seq::<StyleStep>::empty()) =~= Seq::<StepView>::empty());
                        let mut runs: Vec<RunPlan> = Vec::new();
                        runs.push(run);
                        proof {
                            assert(run_views(runs@) =~= seq![rw]);
                        }
                        let b = BlockPlan::Text { tag: None, steps: copy_steps(steps), flags, runs };
                        out.push(b);
                        proof {
                            assert(block_views(out@) =~= before.push(b@));
                        }
                    }
                }
            },
            DomNode::Element(e) => {
                proof {
                    assert(decreases_to!(nodes@ => nodes@[i as int]));
                }
                match mode {
                    ChildMode::Flow => push_element(e, None, steps, flags, out),
                    ChildMode::List { ordered, depth } => {
                        if e.tag == HtmlTag::Li {
                            push_element(
                                e,
                                Some(ListCtx { ordered, index: items + 1, depth }),
                                steps,
                                flags,
                                out,
                            );
                        } else {
                            push_element(e, None, steps, flags, out);
                        }
                    },
                    ChildMode::InItem(ctx) => {
                        if e.tag == HtmlTag::Ul || e.tag == HtmlTag::Ol {
                            push_element(e, ctx, steps, flags, out);
                        } else if e.tag.is_block() {
                            push_element(e, None, steps, flags, out);
                        }
                    },
                    ChildMode::InBlock => {
                        if e.tag.is_block() {
                            push_element(e, None, steps, flags, out);
                        }
                    },
                }
                if e.tag == HtmlTag::Li {
                    items = items + 1;
                }
            },
        }
        proof {
            assert(block_views(out@) =~= start + plan_children(nodes@.take(i + 1), mode, sv, flags));
        }
    }
    proof {
        assert(nodes@.take(n as int) == nodes@);
    }
}

/// Appends a page break to `out` when `b` holds.
fn push_break_if(b: bool, out: &mut Vec<BlockPlan>)
    ensures
        block_views(final(out)@) == block_views(old(out)@) + break_if(b),
{
    let ghost start = block_views(out@);
    if b {
        out.push(BlockPlan::PageBreak);
        assert(block_views(out@) =~= start + break_if(b));
    } else {
        assert(block_views(out@) =~= start + break_if(b));
    }
}

/// Appends the blocks of element `e`, an item of the list `ctx` if it is in one,
/// inside a parent whose steps and flags are `steps` and `flags`, to `out`.
#[verifier::rlimit(100)]
#[verifier::spinoff_prover]
fn push_element(
    e: &ElementNode,
    ctx: Option<ListCtx>,
    steps: &mut Vec<StyleStep>,
    flags: StyleFlags,
    out: &mut Vec<BlockPlan>,
)
    ensures
        block_views(final(out)@) == block_views(old(out)@) + plan_element(
            *e,
            ctx,
            step_views(old(steps)@),
            flags,
        ),
        step_views(final(steps)@) == step_views(old(steps)@),
    decreases e,
{
    let ghost start = block_views(out@);
    let ghost sv = step_views(steps@);
    let children = e.children.as_slice();
    proof {
        assert(decreases_to!(e => e.children));
    }
    let f = flags_of_element(e, &flags);
    steps.push(style_step(e));
    let ghost own = step_views(steps@);
    proof {
        assert(own =~= sv.push(step_of(*e)));
    }
    if e.tag == HtmlTag::Br {
        let b = BlockPlan::LineBreak { steps: copy_steps(steps) };
        out.push(b);
        proof {
            assert(block_views(out@) =~= start.push(b@));
        }
    } else if e.tag == HtmlTag::Hr {
        let b = BlockPlan::Rule { steps: copy_steps(steps) };
        out.push(b);
        proof {
            assert(block_views(out@) =~= start.push(b@));
        }
    } else if e.tag == HtmlTag::Img {
        if let Some(src) = image_source(e) {
            let b = BlockPlan::Image {
                source: src,
                width: owned_attribute(e, "width"),
                height: owned_attribute(e, "height"),
                steps: copy_steps(steps),
            };
            out.push(b);
            proof {
                assert(block_views(out@) =~= start.push(b@));
            }
        } else {
            proof {
                assert(block_views(out@) =~= start + plan_element(*e, ctx, sv, flags));
            }
        }
    } else {
        push_break_if(f.page_break_before, out);
        let ghost mid = block_views(out@);
        if e.tag == HtmlTag::Table {
            push_table(e, steps, f, out);
            proof {
                assert(block_views(out@) =~= start + plan_element(*e, ctx, sv, flags));
            }
        } else if e.tag == HtmlTag::Ul || e.tag == HtmlTag::Ol {
            let d = match ctx {
                Some(c) => c.depth,
                None => 0,
            };
            let depth = if d < usize::MAX {
                d + 1
            } else {
                d
            };
            push_children(
                children,
                ChildMode::List { ordered: e.tag == HtmlTag::Ol, depth },
                steps,
                f,
                out,
            );
            proof {
                assert(block_views(out@) =~= start + plan_element(*e, ctx, sv, flags));
            }
        } else if e.tag == HtmlTag::Li {
            let marker = match ctx {
                Some(c) => list_marker(c.ordered, c.index),
                None => list_marker(false, 0),
            };
            let depth = match ctx {
                Some(c) => c.depth,
                None => 0,
            };
            let b = BlockPlan::ListItem {
                marker,
                depth,
                steps: copy_steps(steps),
                flags: f,
                runs: inline_runs(children, None, f),
            };
            out.push(b);
            proof {
                assert(block_views(out@) =~= mid.push(b@));
            }
            push_children(children, ChildMode::InItem(ctx), steps, f, out);
            proof {
                assert(block_views(out@) =~= start + plan_element(*e, ctx, sv, flags));
            }
        } else {
            if e.tag.is_block() {
                let runs = inline_runs(children, None, f);
                if runs.len() > 0 {
                    let b = BlockPlan::Text {
                        tag: Some(e.tag),
                        steps: copy_steps(steps),
                        flags: f,
                        runs,
                    };
                    out.push(b);
                    proof {
                        assert(block_views(out@) =~= mid.push(b@));
                    }
                }
                push_children(children, ChildMode::InBlock, steps, f, out);
            } else {
                push_children(children, ChildMode::Flow, steps, f, out);
            }
            push_break_if(f.page_break_after, out);
            proof {
                assert(block_views(out@) =~= start + plan_element(*e, ctx, sv, flags));
            }
        }
    }
    let ghost mid = steps@;
    steps.pop();
    proof {
        lemma_step_views_drop_last(mid);
        assert(step_views(steps@) =~= sv);
    }
}

/// The blocks of a document, in order (see `block_plan`).
pub fn plan_blocks(nodes: &[DomNode]) -> (r: Vec<BlockPlan>)
    ensures
        block_views(r@) == block_plan(nodes@),
{
    let mut out: Vec<BlockPlan> = Vec::new();
    let mut steps: Vec<StyleStep> = Vec::new();
    let root = StyleFlags::default();
    proof {
        assert(step_views(Seq::<StyleStep>::empty()) =~= Seq::<StepView>::empty());
    }
    push_children(nodes, ChildMode::Flow, &mut steps, root, &mut out);
    proof {
        assert(block_views(Seq::<BlockPlan>::empty()) =~= Seq::<BlockView>::empty());
    }
    out
}

} // verus!
