//! Validation of a stored document: unique node identifiers, references that
//! resolve, an acyclic node hierarchy, instances that refer to components,
//! overrides that target nodes of the instantiated component, tokens without
//! alias cycles, and layout values in range.
//!
//! The checks read an outline of the stored document: what they need of each
//! node, with the few facts that depend on decimal layout values (a negative
//! padding, a minimum above its maximum) given as booleans and texts.
use vstd::prelude::*;
use vstd::string::StringExecFns;
use crate::output::{ValidateResponse, ValidationIssue, Warning, EXIT_INPUT, EXIT_OK};
use crate::seqs::{last_index, last_index_before, lemma_last_index_before};
use crate::text::{concat3, concat5, decimal, decimal_string, str_eq, usize_string};
use crate::tokens::{DesignTokens, TokenCollection, TokenError, TokensView};

verus! {

broadcast use vstd::seq_lib::group_seq_properties;

// ─── Outline of a stored document ───

/// The kind of an instance override.
#[derive(Debug, Clone, Copy, PartialEq, Eq, Structural)]
pub enum OverrideKind {
    Fills,
    Strokes,
    Effects,
    Opacity,
    BlendMode,
    Visible,
    Size,
    TextContent,
}

/// An instance override: its kind and the stable identifier it targets.
#[derive(Debug, Clone)]
pub struct OverrideRef {
    pub kind: OverrideKind,
    pub target: String,
}

/// Facts about the auto layout of a frame.
#[derive(Debug, Clone, Copy)]
pub struct LayoutFacts {
    /// Some padding value is below zero.
    pub negative_padding: bool,
    /// The item spacing is below zero.
    pub negative_spacing: bool,
}

/// A minimum that exceeds its maximum, both rendered as text.
#[derive(Debug, Clone)]
pub struct RangeExcess {
    pub min: String,
    pub max: String,
}

/// What validation reads of a node's kind.
#[derive(Debug, Clone)]
pub enum KindOutline {
    Frame { children: Vec<String>, is_component: bool, layout: Option<LayoutFacts> },
    Group { children: Vec<String> },
    Vector,
    BooleanOp { children: Vec<String> },
    Text,
    Image,
    Instance { children: Vec<String>, source_component: String, overrides: Vec<OverrideRef> },
}

/// What validation reads of a node.
#[derive(Debug, Clone)]
pub struct NodeOutline {
    pub stable_id: String,
    pub kind: KindOutline,
    /// The node's minimum width exceeds its maximum width.
    pub width_excess: Option<RangeExcess>,
    /// The node's minimum height exceeds its maximum height.
    pub height_excess: Option<RangeExcess>,
    /// For each fill of the node's visual properties (none for groups and
    /// instances), whether it is a solid paint with a raw CMYK color.
    pub cmyk_fills: Vec<bool>,
}

/// The node references of a view.
#[derive(Debug, Clone)]
pub enum ViewOutline {
    Print { pages: Vec<String> },
    Web { root: String },
    Presentation { slides: Vec<String> },
    Export,
}

/// What validation reads of a stored document.
#[derive(Debug)]
pub struct DocOutline<V> {
    pub nodes: Vec<NodeOutline>,
    pub canvas: Vec<String>,
    pub views: Vec<ViewOutline>,
    pub tokens: DesignTokens<V>,
}

// ─── Models ───

/// Model of a sequence of strings.
pub open spec fn strs(v: Seq<String>) -> Seq<Seq<char>> {
    v.map_values(|s: String| s@)
}

/// Model of an override.
pub struct OverrideView {
    pub kind: OverrideKind,
    pub target: Seq<char>,
}

/// Model of a node kind.
pub enum KindView {
    Frame { children: Seq<Seq<char>>, is_component: bool, layout: Option<LayoutFacts> },
    Group { children: Seq<Seq<char>> },
    Vector,
    BooleanOp { children: Seq<Seq<char>> },
    Text,
    Image,
    Instance { children: Seq<Seq<char>>, source: Seq<char>, overrides: Seq<OverrideView> },
}

/// Model of a node.
pub struct NodeView {
    pub id: Seq<char>,
    pub kind: KindView,
    pub width_excess: Option<(Seq<char>, Seq<char>)>,
    pub height_excess: Option<(Seq<char>, Seq<char>)>,
    pub cmyk_fills: Seq<bool>,
}

/// Model of a view's references.
pub enum ViewRefs {
    Print(Seq<Seq<char>>),
    Web(Seq<char>),
    Presentation(Seq<Seq<char>>),
    Export,
}

/// Model of a document outline.
pub struct DocView<V> {
    pub nodes: Seq<NodeView>,
    pub canvas: Seq<Seq<char>>,
    pub views: Seq<ViewRefs>,
    pub tokens: TokensView<V>,
}

impl View for OverrideRef {
    type V = OverrideView;

    open spec fn view(&self) -> OverrideView {
        OverrideView { kind: self.kind, target: self.target@ }
    }
}

/// Model of an optional range excess.
pub open spec fn excess_view(e: Option<RangeExcess>) -> Option<(Seq<char>, Seq<char>)> {
    match e {
        Some(x) => Some((x.min@, x.max@)),
        None => None,
    }
}

impl View for KindOutline {
    type V = KindView;

    open spec fn view(&self) -> KindView {
        match self {
            KindOutline::Frame { children, is_component, layout } => KindView::Frame {
                children: strs(children@),
                is_component: *is_component,
                layout: *layout,
            },
            KindOutline::Group { children } => KindView::Group { children: strs(children@) },
            KindOutline::Vector => KindView::Vector,
            KindOutline::BooleanOp { children } => KindView::BooleanOp {
                children: strs(children@),
            },
            KindOutline::Text => KindView::Text,
            KindOutline::Image => KindView::Image,
            KindOutline::Instance { children, source_component, overrides } => KindView::Instance {
                children: strs(children@),
                source: source_component@,
                overrides: overrides@.map_values(|o: OverrideRef| o@),
            },
        }
    }
}

impl View for NodeOutline {
    type V = NodeView;

    open spec fn view(&self) -> NodeView {
        NodeView {
            id: self.stable_id@,
            kind: self.kind@,
            width_excess: excess_view(self.width_excess),
            height_excess: excess_view(self.height_excess),
            cmyk_fills: self.cmyk_fills@,
        }
    }
}

impl View for ViewOutline {
    type V = ViewRefs;

    open spec fn view(&self) -> ViewRefs {
        match self {
            ViewOutline::Print { pages } => ViewRefs::Print(strs(pages@)),
            ViewOutline::Web { root } => ViewRefs::Web(root@),
            ViewOutline::Presentation { slides } => ViewRefs::Presentation(strs(slides@)),
            ViewOutline::Export => ViewRefs::Export,
        }
    }
}

impl<V> View for DocOutline<V> {
    type V = DocView<V>;

    open spec fn view(&self) -> DocView<V> {
        DocView {
            nodes: self.nodes@.map_values(|n: NodeOutline| n@),
            canvas: strs(self.canvas@),
            views: self.views@.map_values(|v: ViewOutline| v@),
            tokens: self.tokens@,
        }
    }
}

/// Model of a reported issue.
pub struct IssueView {
    pub path: Seq<char>,
    pub code: Seq<char>,
    pub message: Seq<char>,
    pub suggestion: Option<Seq<char>>,
}

/// Model of a reported warning.
pub struct WarningView {
    pub path: Seq<char>,
    pub code: Seq<char>,
    pub message: Seq<char>,
}

/// Model of an issue.
pub open spec fn issue_view(i: ValidationIssue) -> IssueView {
    IssueView {
        path: i.path@,
        code: i.code@,
        message: i.message@,
        suggestion: match i.suggestion {
            Some(s) => Some(s@),
            None => None,
        },
    }
}

/// Model of a warning.
pub open spec fn warning_view(w: Warning) -> WarningView {
    WarningView { path: w.path@, code: w.code@, message: w.message@ }
}

/// Models of a sequence of issues.
pub open spec fn issues_view(v: Seq<ValidationIssue>) -> Seq<IssueView> {
    v.map_values(|i: ValidationIssue| issue_view(i))
}

/// Models of a sequence of warnings.
pub open spec fn warnings_view(v: Seq<Warning>) -> Seq<WarningView> {
    v.map_values(|w: Warning| warning_view(w))
}

// ─── What the checks report ───

/// Identifiers of the nodes, in order.
pub open spec fn ids<V>(d: DocView<V>) -> Seq<Seq<char>> {
    d.nodes.map_values(|n: NodeView| n.id)
}

/// The child references of a node kind.
pub open spec fn kind_children(k: KindView) -> Seq<Seq<char>> {
    match k {
        KindView::Frame { children, .. } => children,
        KindView::Group { children } => children,
        KindView::BooleanOp { children } => children,
        KindView::Instance { children, .. } => children,
        _ => Seq::empty(),
    }
}

/// `a` + decimal(`i`) + `b`.
pub open spec fn path1(a: Seq<char>, i: nat, b: Seq<char>) -> Seq<char> {
    a + decimal(i) + b
}

/// `a` + decimal(`i`) + `b` + decimal(`j`) + `c`.
pub open spec fn path2(a: Seq<char>, i: nat, b: Seq<char>, j: nat, c: Seq<char>) -> Seq<char> {
    a + decimal(i) + b + decimal(j) + c
}

/// Node `i` repeats the identifier of an earlier node.
pub open spec fn dup_issue<V>(d: DocView<V>, i: int) -> Seq<IssueView> {
    if ids(d).take(i).contains(ids(d)[i]) {
        seq![
            IssueView {
                path: path1("nodes["@, i as nat, "].stable_id"@),
                code: "DUPLICATE_ID"@,
                message: "duplicate stable_id '"@ + ids(d)[i] + "'"@,
                suggestion: None,
            },
        ]
    } else {
        Seq::empty()
    }
}

/// Duplicate identifier issues of the first `k` nodes.
pub open spec fn dup_issues<V>(d: DocView<V>, k: int) -> Seq<IssueView>
    decreases k,
{
    if k <= 0 {
        Seq::empty()
    } else {
        dup_issues(d, k - 1) + dup_issue(d, k - 1)
    }
}

/// The Debug rendering of a list of strings (as `format!("{:?}", list)` gives it).
pub uninterp spec fn debug_string_list(items: Seq<Seq<char>>) -> Seq<char>;

/// An issue for reference `r` at `path` when no node has that identifier.
pub open spec fn ref_issue<V>(d: DocView<V>, path: Seq<char>, r: Seq<char>) -> Seq<IssueView> {
    if ids(d).contains(r) {
        Seq::empty()
    } else {
        seq![
            IssueView {
                path: path,
                code: "INVALID_REFERENCE"@,
                message: "referenced stable_id '"@ + r + "' not found"@,
                suggestion: Some("available stable_ids: "@ + debug_string_list(ids(d))),
            },
        ]
    }
}

/// Reference issues of the first `k` children of node `i`.
pub open spec fn child_ref_issues<V>(d: DocView<V>, i: int, k: int) -> Seq<IssueView>
    decreases k,
{
    if k <= 0 {
        Seq::empty()
    } else {
        child_ref_issues(d, i, k - 1) + ref_issue(
            d,
            path2("nodes["@, i as nat, "].kind.children["@, (k - 1) as nat, "]"@),
            kind_children(d.nodes[i].kind)[k - 1],
        )
    }
}

/// Reference issues of the children of the first `k` nodes.
pub open spec fn children_ref_issues<V>(d: DocView<V>, k: int) -> Seq<IssueView>
    decreases k,
{
    if k <= 0 {
        Seq::empty()
    } else {
        children_ref_issues(d, k - 1) + child_ref_issues(
            d,
            k - 1,
            kind_children(d.nodes[k - 1].kind).len() as int,
        )
    }
}

/// Reference issues of the first `k` canvas roots.
pub open spec fn canvas_ref_issues<V>(d: DocView<V>, k: int) -> Seq<IssueView>
    decreases k,
{
    if k <= 0 {
        Seq::empty()
    } else {
        canvas_ref_issues(d, k - 1) + ref_issue(
            d,
            path1("canvas["@, (k - 1) as nat, "]"@),
            d.canvas[k - 1],
        )
    }
}

/// Reference issues of the first `k` items of a list `refs` of view `i`,
/// whose paths read `views[i].kind.{field}[j]`.
pub open spec fn view_list_issues<V>(
    d: DocView<V>,
    i: int,
    field: Seq<char>,
    refs: Seq<Seq<char>>,
    k: int,
) -> Seq<IssueView>
    decreases k,
{
    if k <= 0 {
        Seq::empty()
    } else {
        view_list_issues(d, i, field, refs, k - 1) + ref_issue(
            d,
            path2("views["@, i as nat, "].kind."@ + field + "["@, (k - 1) as nat, "]"@),
            refs[k - 1],
        )
    }
}

/// Reference issues of view `i`.
pub open spec fn view_issues<V>(d: DocView<V>, i: int) -> Seq<IssueView> {
    match d.views[i] {
        ViewRefs::Print(pages) => view_list_issues(d, i, "pages"@, pages, pages.len() as int),
        ViewRefs::Web(root) => ref_issue(d, path1("views["@, i as nat, "].kind.root"@), root),
        ViewRefs::Presentation(slides) => view_list_issues(
            d,
            i,
            "slides"@,
            slides,
            slides.len() as int,
        ),
        ViewRefs::Export => Seq::empty(),
    }
}

/// Reference issues of the first `k` views.
pub open spec fn views_issues<V>(d: DocView<V>, k: int) -> Seq<IssueView>
    decreases k,
{
    if k <= 0 {
        Seq::empty()
    } else {
        views_issues(d, k - 1) + view_issues(d, k - 1)
    }
}

/// Whether node `j` is a component frame.
pub open spec fn is_component_node<V>(d: DocView<V>, j: int) -> bool {
    d.nodes[j].kind matches KindView::Frame { is_component, .. } && is_component
}

/// Source component issue of node `i`.
pub open spec fn component_issue<V>(d: DocView<V>, i: int) -> Seq<IssueView> {
    match d.nodes[i].kind {
        KindView::Instance { source, .. } => if !ids(d).contains(source) {
            seq![
                IssueView {
                    path: path1("nodes["@, i as nat, "].kind.source_component"@),
                    code: "INVALID_COMPONENT_REF"@,
                    message: "source_component '"@ + source + "' not found"@,
                    suggestion: None,
                },
            ]
        } else if !(exists|j: int|
            0 <= j < d.nodes.len() && #[trigger] ids(d)[j] == source && is_component_node(d, j)) {
            seq![
                IssueView {
                    path: path1("nodes["@, i as nat, "].kind.source_component"@),
                    code: "INVALID_COMPONENT_REF"@,
                    message: "source_component '"@ + source + "' exists but has no component_def"@,
                    suggestion: None,
                },
            ]
        } else {
            Seq::empty()
        },
        _ => Seq::empty(),
    }
}

/// Source component issues of the first `k` nodes.
pub open spec fn component_issues<V>(d: DocView<V>, k: int) -> Seq<IssueView>
    decreases k,
{
    if k <= 0 {
        Seq::empty()
    } else {
        component_issues(d, k - 1) + component_issue(d, k - 1)
    }
}

/// The tokens of the first `k` collections, as (collection index, token
/// index) pairs in order.
pub open spec fn cyclic_token_issue<V>(d: DocView<V>, ci: int, ti: int) -> Seq<IssueView> {
    let col = d.tokens.collections[ci];
    let tok = col.tokens[ti];
    if d.tokens.resolved((col.id, tok.id)) == Err::<V, TokenError>(TokenError::CyclicAlias) {
        seq![
            IssueView {
                path: path2(
                    "tokens.collections["@,
                    col.id as nat,
                    "].tokens["@,
                    tok.id as nat,
                    "]"@,
                ),
                code: "CYCLIC_TOKEN"@,
                message: "token '"@ + tok.name + "' has a cyclic alias"@,
                suggestion: None,
            },
        ]
    } else {
        Seq::empty()
    }
}

/// Cyclic token issues of the first `k` tokens of collection `ci`.
pub open spec fn collection_token_issues<V>(d: DocView<V>, ci: int, k: int) -> Seq<IssueView>
    decreases k,
{
    if k <= 0 {
        Seq::empty()
    } else {
        collection_token_issues(d, ci, k - 1) + cyclic_token_issue(d, ci, k - 1)
    }
}

/// Cyclic token issues of the first `k` collections.
pub open spec fn token_issues<V>(d: DocView<V>, k: int) -> Seq<IssueView>
    decreases k,
{
    if k <= 0 {
        Seq::empty()
    } else {
        token_issues(d, k - 1) + collection_token_issues(
            d,
            k - 1,
            d.tokens.collections[k - 1].tokens.len() as int,
        )
    }
}

/// Layout issues of node `i`.
pub open spec fn layout_issue<V>(d: DocView<V>, i: int) -> Seq<IssueView> {
    match d.nodes[i].kind {
        KindView::Frame { layout: Some(l), .. } => (if l.negative_padding {
            seq![
                IssueView {
                    path: path1("nodes["@, i as nat, "].kind.container.layout.padding"@),
                    code: "NEGATIVE_PADDING"@,
                    message: "layout padding values must not be negative"@,
                    suggestion: None,
                },
            ]
        } else {
            Seq::empty()
        }) + (if l.negative_spacing {
            seq![
                IssueView {
                    path: path1("nodes["@, i as nat, "].kind.container.layout.item_spacing"@),
                    code: "NEGATIVE_SPACING"@,
                    message: "item_spacing must not be negative"@,
                    suggestion: None,
                },
            ]
        } else {
            Seq::empty()
        }),
        _ => Seq::empty(),
    }
}

/// Layout issues of the first `k` nodes.
pub open spec fn layout_issues<V>(d: DocView<V>, k: int) -> Seq<IssueView>
    decreases k,
{
    if k <= 0 {
        Seq::empty()
    } else {
        layout_issues(d, k - 1) + layout_issue(d, k - 1)
    }
}

/// Range warnings of node `i`.
pub open spec fn range_warning<V>(d: DocView<V>, i: int) -> Seq<WarningView> {
    (match d.nodes[i].width_excess {
        Some((min, max)) => seq![
            WarningView {
                path: path1("nodes["@, i as nat, "].layout_sizing.min_width/max_width"@),
                code: "MIN_EXCEEDS_MAX"@,
                message: "min_width ("@ + min + ") exceeds max_width ("@ + max + ")"@,
            },
        ],
        None => Seq::empty(),
    }) + (match d.nodes[i].height_excess {
        Some((min, max)) => seq![
            WarningView {
                path: path1("nodes["@, i as nat, "].layout_sizing.min_height/max_height"@),
                code: "MIN_EXCEEDS_MAX"@,
                message: "min_height ("@ + min + ") exceeds max_height ("@ + max + ")"@,
            },
        ],
        None => Seq::empty(),
    })
}

/// Range warnings of the first `k` nodes.
pub open spec fn range_warnings<V>(d: DocView<V>, k: int) -> Seq<WarningView>
    decreases k,
{
    if k <= 0 {
        Seq::empty()
    } else {
        range_warnings(d, k - 1) + range_warning(d, k - 1)
    }
}

/// CMYK fallback warnings of the first `k` fills of node `i`.
pub open spec fn node_cmyk_warnings<V>(d: DocView<V>, i: int, k: int) -> Seq<WarningView>
    decreases k,
{
    if k <= 0 {
        Seq::empty()
    } else {
        node_cmyk_warnings(d, i, k - 1) + if d.nodes[i].cmyk_fills[k - 1] {
            seq![
                WarningView {
                    path: path2(
                        "nodes["@,
                        i as nat,
                        "].kind.visual.fills["@,
                        (k - 1) as nat,
                        "].paint.color"@,
                    ),
                    code: "CMYK_FALLBACK"@,
                    message: "CMYK color will fall back to black in PNG export"@,
                },
            ]
        } else {
            Seq::empty()
        }
    }
}

/// CMYK fallback warnings of the first `k` nodes.
pub open spec fn cmyk_warnings<V>(d: DocView<V>, k: int) -> Seq<WarningView>
    decreases k,
{
    if k <= 0 {
        Seq::empty()
    } else {
        cmyk_warnings(d, k - 1) + node_cmyk_warnings(
            d,
            k - 1,
            d.nodes[k - 1].cmyk_fills.len() as int,
        )
    }
}

/// Position of the node an identifier names: the last node with that
/// identifier (later nodes take the place of earlier ones).
pub open spec fn node_of<V>(d: DocView<V>, s: Seq<char>) -> Option<int> {
    last_index(ids(d), s)
}

/// The parent-child graph over node positions: for each node, the positions
/// its children name, a child that names no node standing as the number of
/// nodes.
pub open spec fn child_graph<V>(d: DocView<V>) -> Seq<Seq<int>> {
    Seq::new(
        d.nodes.len(),
        |i: int|
            kind_children(d.nodes[i].kind).map_values(
                |c: Seq<char>|
                    match node_of(d, c) {
                        Some(j) => j,
                        None => d.nodes.len() as int,
                    },
            ),
    )
}

/// Depth-first search for a cycle from node `u` of graph `g`, given the
/// visited nodes `vis` and the nodes on the search stack `stk`: whether a
/// child on the stack was met, and the marks afterwards. A search that meets
/// one stops at once and leaves its path on the stack. `fuel` bounds the
/// depth; it is always given above the number of unvisited nodes.
pub open spec fn dfs(g: Seq<Seq<int>>, fuel: nat, u: int, vis: Seq<bool>, stk: Seq<bool>) -> (
    bool,
    Seq<bool>,
    Seq<bool>,
)
    decreases fuel, 0nat,
{
    if fuel == 0 {
        (true, vis, stk)
    } else {
        dfs_children(g, (fuel - 1) as nat, u, 0, vis.update(u, true), stk.update(u, true))
    }
}

/// The search from node `u` over its children from the `k`-th on.
pub open spec fn dfs_children(
    g: Seq<Seq<int>>,
    fuel: nat,
    u: int,
    k: int,
    vis: Seq<bool>,
    stk: Seq<bool>,
) -> (bool, Seq<bool>, Seq<bool>)
    decreases fuel, (g[u].len() - k + 1) as nat,
{
    if !(0 <= u < g.len()) || k < 0 || k >= g[u].len() {
        (false, vis, stk.update(u, false))
    } else {
        let c = g[u][k];
        if !(0 <= c < vis.len()) {
            dfs_children(g, fuel, u, k + 1, vis, stk)
        } else if !vis[c] {
            let res = dfs(g, fuel, c, vis, stk);
            if res.0 || res.2[c] {
                (true, res.1, res.2)
            } else {
                dfs_children(g, fuel, u, k + 1, res.1, res.2)
            }
        } else if stk[c] {
            (true, vis, stk)
        } else {
            dfs_children(g, fuel, u, k + 1, vis, stk)
        }
    }
}

/// The nodes from the `i`-th on, in order, that start a search finding a
/// cycle: each node not yet visited starts a search, which keeps the marks
/// left by the earlier ones.
pub open spec fn cycle_roots(
    g: Seq<Seq<int>>,
    fuel: nat,
    i: int,
    vis: Seq<bool>,
    stk: Seq<bool>,
) -> Seq<int>
    decreases g.len() - i,
{
    if i < 0 || i >= g.len() {
        Seq::empty()
    } else if vis[i] {
        cycle_roots(g, fuel, i + 1, vis, stk)
    } else {
        let res = dfs(g, fuel, i, vis, stk);
        (if res.0 {
            seq![i]
        } else {
            Seq::empty()
        }) + cycle_roots(g, fuel, i + 1, res.1, res.2)
    }
}

/// The issue for a node whose search found a cycle.
pub open spec fn cycle_issue<V>(d: DocView<V>, i: int) -> IssueView {
    IssueView {
        path: "nodes (stable_id='"@ + ids(d)[i] + "')"@,
        code: "CIRCULAR_HIERARCHY"@,
        message: "circular parent-child relationship detected"@,
        suggestion: None,
    }
}

/// Circular hierarchy issues: one per node, in order, whose search (over
/// the nodes with all marks clear at first) found a cycle.
pub open spec fn cycle_issues<V>(d: DocView<V>) -> Seq<IssueView> {
    let n = d.nodes.len();
    let none = Seq::new(n, |i: int| false);
    cycle_roots(child_graph(d), n + 1, 0, none, none).map_values(|i: int| cycle_issue(d, i))
}

/// Number of `false` marks.
pub open spec fn count_false(s: Seq<bool>) -> nat
    decreases s.len(),
{
    if s.len() == 0 {
        0
    } else {
        count_false(s.drop_last()) + if s.last() {
            0nat
        } else {
            1nat
        }
    }
}

proof fn lemma_count_false_le_len(s: Seq<bool>)
    ensures
        count_false(s) <= s.len(),
    decreases s.len(),
{
    if s.len() > 0 {
        lemma_count_false_le_len(s.drop_last());
    }
}

proof fn lemma_count_false_update(s: Seq<bool>, i: int)
    requires
        0 <= i < s.len(),
        !s[i],
    ensures
        count_false(s.update(i, true)) + 1 == count_false(s),
    decreases s.len(),
{
    let t = s.update(i, true);
    if i == s.len() - 1 {
        assert(t.drop_last() =~= s.drop_last());
    } else {
        assert(t.drop_last() =~= s.drop_last().update(i, true));
        lemma_count_false_update(s.drop_last(), i);
    }
}

proof fn lemma_count_false_mono(a: Seq<bool>, b: Seq<bool>)
    requires
        a.len() == b.len(),
        forall|i: int| 0 <= i < a.len() && #[trigger] a[i] ==> b[i],
    ensures
        count_false(b) <= count_false(a),
    decreases a.len(),
{
    if a.len() > 0 {
        lemma_count_false_mono(a.drop_last(), b.drop_last());
    }
}

/// Model of an executable graph.
pub open spec fn graph_view(g: Seq<Vec<usize>>) -> Seq<Seq<int>> {
    g.map_values(|row: Vec<usize>| row@.map_values(|x: usize| x as int))
}

/// One step down the hierarchy: `y` is a child reference of the node that
/// `x` names.
pub open spec fn child_step<V>(d: DocView<V>, x: Seq<char>, y: Seq<char>) -> bool {
    match node_of(d, x) {
        Some(j) => kind_children(d.nodes[j].kind).contains(y),
        None => false,
    }
}

/// A chain of child steps.
pub open spec fn is_chain<V>(d: DocView<V>, p: Seq<Seq<char>>) -> bool {
    &&& p.len() >= 1
    &&& forall|i: int| 0 <= i < p.len() - 1 ==> #[trigger] child_step(d, p[i], p[i + 1])
}

/// `t` is `s` or lies below it: a chain of child steps leads from `s` to `t`.
pub open spec fn descends<V>(d: DocView<V>, s: Seq<char>, t: Seq<char>) -> bool {
    exists|p: Seq<Seq<char>>| #[trigger] is_chain(d, p) && p[0] == s && p.last() == t
}

/// The issue, if any, for override `j` (model `o`) of instance node `i`
/// whose source component is `source`.
pub open spec fn override_issue<V>(
    d: DocView<V>,
    i: int,
    source: Seq<char>,
    j: int,
    o: OverrideView,
) -> Seq<IssueView> {
    let t = o.target;
    if !ids(d).contains(t) {
        seq![
            IssueView {
                path: path2("nodes["@, i as nat, "].kind.overrides["@, j as nat, "].target"@),
                code: "INVALID_OVERRIDE_TARGET"@,
                message: "override target '"@ + t + "' not found"@,
                suggestion: None,
            },
        ]
    } else if !descends(d, source, t) {
        seq![
            IssueView {
                path: path2("nodes["@, i as nat, "].kind.overrides["@, j as nat, "].target"@),
                code: "OVERRIDE_TARGET_NOT_IN_COMPONENT"@,
                message: "override target '"@ + t + "' is not a descendant of source_component '"@
                    + source + "'"@,
                suggestion: None,
            },
        ]
    } else if o.kind == OverrideKind::Size && t == source {
        seq![
            IssueView {
                path: path2("nodes["@, i as nat, "].kind.overrides["@, j as nat, "].target"@),
                code: "SIZE_OVERRIDE_ON_COMPONENT_ROOT"@,
                message: "Size override targets component root '"@ + t
                    + "'; use instance width/height fields instead"@,
                suggestion: Some("set width/height on the instance node directly"@),
            },
        ]
    } else if o.kind == OverrideKind::TextContent && !(d.nodes[node_of(d, t).unwrap()].kind is Text) {
        seq![
            IssueView {
                path: path2("nodes["@, i as nat, "].kind.overrides["@, j as nat, "].type"@),
                code: "OVERRIDE_TYPE_MISMATCH"@,
                message: "TextContent override targets '"@ + t + "' which is not a Text node"@,
                suggestion: None,
            },
        ]
    } else {
        Seq::empty()
    }
}

/// Issues of the first `k` overrides of instance node `i`.
pub open spec fn instance_override_issues<V>(
    d: DocView<V>,
    i: int,
    source: Seq<char>,
    overrides: Seq<OverrideView>,
    k: int,
) -> Seq<IssueView>
    decreases k,
{
    if k <= 0 {
        Seq::empty()
    } else {
        instance_override_issues(d, i, source, overrides, k - 1) + override_issue(
            d,
            i,
            source,
            k - 1,
            overrides[k - 1],
        )
    }
}

/// Override issues of node `i`.
pub open spec fn node_override_issues<V>(d: DocView<V>, i: int) -> Seq<IssueView> {
    match d.nodes[i].kind {
        KindView::Instance { source, overrides, .. } => instance_override_issues(
            d,
            i,
            source,
            overrides,
            overrides.len() as int,
        ),
        _ => Seq::empty(),
    }
}

/// Override issues of the first `k` nodes.
pub open spec fn override_issues<V>(d: DocView<V>, k: int) -> Seq<IssueView>
    decreases k,
{
    if k <= 0 {
        Seq::empty()
    } else {
        override_issues(d, k - 1) + node_override_issues(d, k - 1)
    }
}

/// Issues of duplicate identifiers and unresolved references.
pub open spec fn reference_issues<V>(d: DocView<V>) -> Seq<IssueView> {
    dup_issues(d, d.nodes.len() as int) + children_ref_issues(d, d.nodes.len() as int)
        + canvas_ref_issues(d, d.canvas.len() as int) + views_issues(d, d.views.len() as int)
}

/// The errors validation reports, in order: duplicate identifiers,
/// unresolved references, then (only when there were none of those)
/// hierarchy cycles, then component references, overrides, token cycles and
/// layout values.
pub open spec fn validation_errors<V>(d: DocView<V>) -> Seq<IssueView> {
    let refs = reference_issues(d);
    refs + (if refs.len() == 0 {
        cycle_issues(d)
    } else {
        Seq::empty()
    }) + component_issues(d, d.nodes.len() as int) + override_issues(d, d.nodes.len() as int)
        + token_issues(d, d.tokens.collections.len() as int) + layout_issues(
        d,
        d.nodes.len() as int,
    )
}

/// The warnings validation reports, in order: minimums above maximums, then
/// CMYK fills.
pub open spec fn validation_warnings<V>(d: DocView<V>) -> Seq<WarningView> {
    range_warnings(d, d.nodes.len() as int) + cmyk_warnings(d, d.nodes.len() as int)
}

// ─── Executable checks ───

/// The Debug rendering of a list of strings.
///
/// Wraps `format!("{:?}", items)` (the `Debug` implementation of `Vec<String>`);
/// the result is named by `debug_string_list` and depends on the items only.
#[verifier::external_body]
fn debug_list(items: &Vec<String>) -> (r: String)
    ensures
        r@ == debug_string_list(strs(items@)),
{
    format!("{:?}", items)
}

/// `a` + decimal(`i`) + `b`.
fn make_path1(a: &str, i: usize, b: &str) -> (r: String)
    ensures
        r@ == path1(a@, i as nat, b@),
{
    let mut r = String::from_str(a);
    let n = usize_string(i);
    r.append(n.as_str());
    r.append(b);
    r
}

/// `a` + decimal(`i`) + `b` + decimal(`j`) + `c`.
fn make_path2(a: &str, i: u64, b: &str, j: u64, c: &str) -> (r: String)
    ensures
        r@ == path2(a@, i as nat, b@, j as nat, c@),
{
    let mut r = String::from_str(a);
    let n = decimal_string(i);
    r.append(n.as_str());
    r.append(b);
    let m = decimal_string(j);
    r.append(m.as_str());
    r.append(c);
    r
}

/// An issue without suggestion.
fn plain_issue(path: String, code: &str, message: String) -> (r: ValidationIssue)
    ensures
        issue_view(r) == (IssueView {
            path: path@,
            code: code@,
            message: message@,
            suggestion: None,
        }),
{
    ValidationIssue { path, code: String::from_str(code), message, suggestion: None }
}

impl<V> DocOutline<V> {
    /// The model of the nodes, item by item.
    proof fn lemma_nodes(&self)
        ensures
            self@.nodes.len() == self.nodes@.len(),
            forall|i: int| 0 <= i < self.nodes@.len() ==> #[trigger] self@.nodes[i] == self.nodes@[i]@,
            ids(self@).len() == self.nodes@.len(),
            forall|i: int| 0 <= i < self.nodes@.len() ==> #[trigger] ids(self@)[i] == self.nodes@[i].stable_id@,
    {
    }

    /// Whether some node has identifier `s`.
    fn has_id(&self, s: &str) -> (r: bool)
        ensures
            r == ids(self@).contains(s@),
    {
        proof {
            self.lemma_nodes();
        }
        let mut i: usize = 0;
        while i < self.nodes.len()
            invariant
                0 <= i <= self.nodes@.len(),
                ids(self@).len() == self.nodes@.len(),
                forall|j: int| 0 <= j < self.nodes@.len() ==> #[trigger] ids(self@)[j] == self.nodes@[j].stable_id@,
                forall|j: int| 0 <= j < i ==> ids(self@)[j] != s@,
            decreases self.nodes@.len() - i,
        {
            if str_eq(self.nodes[i].stable_id.as_str(), s) {
                assert(ids(self@)[i as int] == s@);
                return true;
            }
            i += 1;
        }
        false
    }

    /// Whether some node before position `i` has the identifier of node `i`.
    fn repeats_earlier(&self, i: usize) -> (r: bool)
        requires
            i < self.nodes@.len(),
        ensures
            r == ids(self@).take(i as int).contains(ids(self@)[i as int]),
    {
        proof {
            self.lemma_nodes();
        }
        let mut j: usize = 0;
        while j < i
            invariant
                0 <= j <= i,
                i < self.nodes@.len(),
                ids(self@).len() == self.nodes@.len(),
                forall|k: int| 0 <= k < self.nodes@.len() ==> #[trigger] ids(self@)[k] == self.nodes@[k].stable_id@,
                forall|k: int| 0 <= k < j ==> ids(self@)[k] != ids(self@)[i as int],
            decreases i - j,
        {
            if str_eq(self.nodes[j].stable_id.as_str(), self.nodes[i].stable_id.as_str()) {
                assert(ids(self@).take(i as int)[j as int] == ids(self@)[i as int]);
                return true;
            }
            j += 1;
        }
        proof {
            if ids(self@).take(i as int).contains(ids(self@)[i as int]) {
                let k = choose|k: int|
                    0 <= k < i && ids(self@).take(i as int)[k] == ids(self@)[i as int];
                assert(ids(self@)[k] == ids(self@)[i as int]);
            }
        }
        false
    }

    /// Append the issue for reference `r` at `path`, if it resolves to no node.
    fn check_ref(&self, errors: &mut Vec<ValidationIssue>, path: String, r: &str, avail: &String)
        requires
            avail@ == debug_string_list(ids(self@)),
        ensures
            issues_view(final(errors)@) == issues_view(old(errors)@) + ref_issue(self@, path@, r@),
    {
        if !self.has_id(r) {
            let msg = concat3("referenced stable_id '", r, "' not found");
            let sugg = concat3("available stable_ids: ", avail.as_str(), "");
            let ghost old_e = errors@;
            errors.push(
                ValidationIssue {
                    path,
                    code: String::from_str("INVALID_REFERENCE"),
                    message: msg,
                    suggestion: Some(sugg),
                },
            );
            proof {
                assert(""@ =~= Seq::<char>::empty()) by {
                    reveal_strlit("");
                }
                assert(issues_view(errors@) =~= issues_view(old_e) + ref_issue(self@, path@, r@));
            }
        } else {
            assert(ref_issue(self@, path@, r@) =~= Seq::<IssueView>::empty());
            assert(issues_view(errors@) =~= issues_view(old(errors)@) + ref_issue(self@, path@, r@));
        }
    }
}

/// The child references of a node kind, if it has any.
fn children_of(k: &KindOutline) -> (r: Option<&Vec<String>>)
    ensures
        match r {
            Some(v) => strs(v@) == kind_children(k@),
            None => kind_children(k@) == Seq::<Seq<char>>::empty(),
        },
{
    match k {
        KindOutline::Frame { children, .. } => Some(children),
        KindOutline::Group { children } => Some(children),
        KindOutline::BooleanOp { children } => Some(children),
        KindOutline::Instance { children, .. } => Some(children),
        _ => None,
    }
}

/// Appending one issue to a list of issues appends its model.
proof fn lemma_push_issue(v: Seq<ValidationIssue>, x: ValidationIssue)
    ensures
        issues_view(v.push(x)) == issues_view(v) + seq![issue_view(x)],
{
    assert(issues_view(v.push(x)) =~= issues_view(v) + seq![issue_view(x)]);
}

/// Appending one warning to a list of warnings appends its model.
proof fn lemma_push_warning(v: Seq<Warning>, x: Warning)
    ensures
        warnings_view(v.push(x)) == warnings_view(v) + seq![warning_view(x)],
{
    assert(warnings_view(v.push(x)) =~= warnings_view(v) + seq![warning_view(x)]);
}

impl<V> DocOutline<V> {
    /// Report every node whose identifier an earlier node already has.
    fn check_duplicates(&self, errors: &mut Vec<ValidationIssue>)
        ensures
            issues_view(final(errors)@) == issues_view(old(errors)@) + dup_issues(
                self@,
                self.nodes@.len() as int,
            ),
    {
        proof {
            self.lemma_nodes();
        }
        let ghost start = issues_view(errors@);
        let mut i: usize = 0;
        while i < self.nodes.len()
            invariant
                0 <= i <= self.nodes@.len(),
                ids(self@).len() == self.nodes@.len(),
                forall|k: int| 0 <= k < self.nodes@.len() ==> #[trigger] ids(self@)[k] == self.nodes@[k].stable_id@,
                issues_view(errors@) == start + dup_issues(self@, i as int),
            decreases self.nodes@.len() - i,
        {
            let ghost before = errors@;
            if self.repeats_earlier(i) {
                let path = make_path1("nodes[", i, "].stable_id");
                let msg = concat3("duplicate stable_id '", self.nodes[i].stable_id.as_str(), "'");
                let issue = plain_issue(path, "DUPLICATE_ID", msg);
                errors.push(issue);
                proof {
                    lemma_push_issue(before, issue);
                }
            }
            assert(issues_view(errors@) =~= start + dup_issues(self@, i as int + 1));
            i += 1;
        }
    }

    /// Report every child reference that resolves to no node.
    fn check_children(&self, errors: &mut Vec<ValidationIssue>, avail: &String)
        requires
            avail@ == debug_string_list(ids(self@)),
        ensures
            issues_view(final(errors)@) == issues_view(old(errors)@) + children_ref_issues(
                self@,
                self.nodes@.len() as int,
            ),
    {
        proof {
            self.lemma_nodes();
        }
        let ghost start = issues_view(errors@);
        let mut i: usize = 0;
        while i < self.nodes.len()
            invariant
                0 <= i <= self.nodes@.len(),
                avail@ == debug_string_list(ids(self@)),
                self@.nodes.len() == self.nodes@.len(),
                forall|k: int| 0 <= k < self.nodes@.len() ==> #[trigger] self@.nodes[k] == self.nodes@[k]@,
                issues_view(errors@) == start + children_ref_issues(self@, i as int),
            decreases self.nodes@.len() - i,
        {
            let ghost mid = issues_view(errors@);
            match children_of(&self.nodes[i].kind) {
                Some(children) => {
                    let mut j: usize = 0;
                    while j < children.len()
                        invariant
                            0 <= j <= children@.len(),
                            i < self.nodes@.len(),
                            avail@ == debug_string_list(ids(self@)),
                            strs(children@) == kind_children(self@.nodes[i as int].kind),
                            issues_view(errors@) == mid + child_ref_issues(self@, i as int, j as int),
                        decreases children@.len() - j,
                    {
                        let path = make_path2("nodes[", i as u64, "].kind.children[", j as u64, "]");
                        self.check_ref(errors, path, children[j].as_str(), avail);
                        assert(issues_view(errors@) =~= mid + child_ref_issues(self@, i as int, j as int + 1));
                        j += 1;
                    }
                },
                None => {
                    assert(child_ref_issues(self@, i as int, 0) =~= Seq::<IssueView>::empty());
                },
            }
            assert(issues_view(errors@) =~= start + children_ref_issues(self@, i as int + 1));
            i += 1;
        }
    }

    /// Report every canvas root that resolves to no node.
    fn check_canvas(&self, errors: &mut Vec<ValidationIssue>, avail: &String)
        requires
            avail@ == debug_string_list(ids(self@)),
        ensures
            issues_view(final(errors)@) == issues_view(old(errors)@) + canvas_ref_issues(
                self@,
                self.canvas@.len() as int,
            ),
    {
        let ghost start = issues_view(errors@);
        let mut i: usize = 0;
        while i < self.canvas.len()
            invariant
                0 <= i <= self.canvas@.len(),
                avail@ == debug_string_list(ids(self@)),
                self@.canvas == strs(self.canvas@),
                issues_view(errors@) == start + canvas_ref_issues(self@, i as int),
            decreases self.canvas@.len() - i,
        {
            let path = make_path1("canvas[", i, "]");
            self.check_ref(errors, path, self.canvas[i].as_str(), avail);
            assert(issues_view(errors@) =~= start + canvas_ref_issues(self@, i as int + 1));
            i += 1;
        }
    }

    /// Report every reference of a list of view `i` that resolves to no node.
    fn check_view_list(
        &self,
        errors: &mut Vec<ValidationIssue>,
        avail: &String,
        i: usize,
        field: &str,
        refs: &Vec<String>,
    )
        requires
            avail@ == debug_string_list(ids(self@)),
        ensures
            issues_view(final(errors)@) == issues_view(old(errors)@) + view_list_issues(
                self@,
                i as int,
                field@,
                strs(refs@),
                refs@.len() as int,
            ),
    {
        let ghost start = issues_view(errors@);
        let prefix = concat3("].kind.", field, "[");
        let mut j: usize = 0;
        while j < refs.len()
            invariant
                0 <= j <= refs@.len(),
                avail@ == debug_string_list(ids(self@)),
                prefix@ == "].kind."@ + field@ + "["@,
                issues_view(errors@) == start + view_list_issues(
                    self@,
                    i as int,
                    field@,
                    strs(refs@),
                    j as int,
                ),
            decreases refs@.len() - j,
        {
            let path = make_path2("views[", i as u64, prefix.as_str(), j as u64, "]");
            self.check_ref(errors, path, refs[j].as_str(), avail);
            assert(issues_view(errors@) =~= start + view_list_issues(
                self@,
                i as int,
                field@,
                strs(refs@),
                j as int + 1,
            ));
            j += 1;
        }
    }

    /// Report every view reference that resolves to no node.
    fn check_views(&self, errors: &mut Vec<ValidationIssue>, avail: &String)
        requires
            avail@ == debug_string_list(ids(self@)),
        ensures
            issues_view(final(errors)@) == issues_view(old(errors)@) + views_issues(
                self@,
                self.views@.len() as int,
            ),
    {
        let ghost start = issues_view(errors@);
        let mut i: usize = 0;
        while i < self.views.len()
            invariant
                0 <= i <= self.views@.len(),
                avail@ == debug_string_list(ids(self@)),
                self@.views.len() == self.views@.len(),
                forall|k: int| 0 <= k < self.views@.len() ==> #[trigger] self@.views[k] == self.views@[k]@,
                issues_view(errors@) == start + views_issues(self@, i as int),
            decreases self.views@.len() - i,
        {
            let ghost mid = issues_view(errors@);
            match &self.views[i] {
                ViewOutline::Print { pages } => {
                    self.check_view_list(errors, avail, i, "pages", pages);
                },
                ViewOutline::Web { root } => {
                    let path = make_path1("views[", i, "].kind.root");
                    self.check_ref(errors, path, root.as_str(), avail);
                },
                ViewOutline::Presentation { slides } => {
                    self.check_view_list(errors, avail, i, "slides", slides);
                },
                ViewOutline::Export => {},
            }
            assert(issues_view(errors@) =~= start + views_issues(self@, i as int + 1));
            i += 1;
        }
    }
}

impl<V> DocOutline<V> {
    /// Whether some component frame has identifier `s`.
    fn has_component(&self, s: &str) -> (r: bool)
        ensures
            r == exists|j: int|
                0 <= j < self@.nodes.len() && #[trigger] ids(self@)[j] == s@ && is_component_node(
                    self@,
                    j,
                ),
    {
        proof {
            self.lemma_nodes();
        }
        let mut i: usize = 0;
        while i < self.nodes.len()
            invariant
                0 <= i <= self.nodes@.len(),
                self@.nodes.len() == self.nodes@.len(),
                forall|k: int| 0 <= k < self.nodes@.len() ==> #[trigger] self@.nodes[k] == self.nodes@[k]@,
                forall|k: int| 0 <= k < self.nodes@.len() ==> #[trigger] ids(self@)[k] == self.nodes@[k].stable_id@,
                forall|k: int| 0 <= k < i ==> !(#[trigger] ids(self@)[k] == s@ && is_component_node(self@, k)),
            decreases self.nodes@.len() - i,
        {
            let is_comp = match &self.nodes[i].kind {
                KindOutline::Frame { is_component, .. } => *is_component,
                _ => false,
            };
            if is_comp && str_eq(self.nodes[i].stable_id.as_str(), s) {
                assert(ids(self@)[i as int] == s@ && is_component_node(self@, i as int));
                return true;
            }
            assert(!(ids(self@)[i as int] == s@ && is_component_node(self@, i as int)));
            i += 1;
        }
        false
    }

    /// Report every instance whose source component is missing or is not a
    /// component.
    fn check_components(&self, errors: &mut Vec<ValidationIssue>)
        ensures
            issues_view(final(errors)@) == issues_view(old(errors)@) + component_issues(
                self@,
                self.nodes@.len() as int,
            ),
    {
        proof {
            self.lemma_nodes();
        }
        let ghost start = issues_view(errors@);
        let mut i: usize = 0;
        while i < self.nodes.len()
            invariant
                0 <= i <= self.nodes@.len(),
                self@.nodes.len() == self.nodes@.len(),
                forall|k: int| 0 <= k < self.nodes@.len() ==> #[trigger] self@.nodes[k] == self.nodes@[k]@,
                issues_view(errors@) == start + component_issues(self@, i as int),
            decreases self.nodes@.len() - i,
        {
            let ghost before = errors@;
            if let KindOutline::Instance { source_component, .. } = &self.nodes[i].kind {
                if !self.has_id(source_component.as_str()) {
                    let path = make_path1("nodes[", i, "].kind.source_component");
                    let msg = concat3("source_component '", source_component.as_str(), "' not found");
                    let issue = plain_issue(path, "INVALID_COMPONENT_REF", msg);
                    errors.push(issue);
                    proof {
                        lemma_push_issue(before, issue);
                    }
                } else if !self.has_component(source_component.as_str()) {
                    let path = make_path1("nodes[", i, "].kind.source_component");
                    let msg = concat3(
                        "source_component '",
                        source_component.as_str(),
                        "' exists but has no component_def",
                    );
                    let issue = plain_issue(path, "INVALID_COMPONENT_REF", msg);
                    errors.push(issue);
                    proof {
                        lemma_push_issue(before, issue);
                    }
                }
            }
            assert(issues_view(errors@) =~= start + component_issues(self@, i as int + 1));
            i += 1;
        }
    }

    /// Report negative padding and spacing of auto layout frames.
    fn check_layout(&self, errors: &mut Vec<ValidationIssue>)
        ensures
            issues_view(final(errors)@) == issues_view(old(errors)@) + layout_issues(
                self@,
                self.nodes@.len() as int,
            ),
    {
        proof {
            self.lemma_nodes();
        }
        let ghost start = issues_view(errors@);
        let mut i: usize = 0;
        while i < self.nodes.len()
            invariant
                0 <= i <= self.nodes@.len(),
                self@.nodes.len() == self.nodes@.len(),
                forall|k: int| 0 <= k < self.nodes@.len() ==> #[trigger] self@.nodes[k] == self.nodes@[k]@,
                issues_view(errors@) == start + layout_issues(self@, i as int),
            decreases self.nodes@.len() - i,
        {
            let ghost before = errors@;
            if let KindOutline::Frame { layout: Some(l), .. } = &self.nodes[i].kind {
                if l.negative_padding {
                    let path = make_path1("nodes[", i, "].kind.container.layout.padding");
                    let issue = plain_issue(
                        path,
                        "NEGATIVE_PADDING",
                        String::from_str("layout padding values must not be negative"),
                    );
                    errors.push(issue);
                    proof {
                        lemma_push_issue(before, issue);
                    }
                }
                let ghost mid = errors@;
                if l.negative_spacing {
                    let path = make_path1("nodes[", i, "].kind.container.layout.item_spacing");
                    let issue = plain_issue(
                        path,
                        "NEGATIVE_SPACING",
                        String::from_str("item_spacing must not be negative"),
                    );
                    errors.push(issue);
                    proof {
                        lemma_push_issue(mid, issue);
                    }
                }
            }
            assert(issues_view(errors@) =~= start + layout_issues(self@, i as int + 1));
            i += 1;
        }
    }

    /// Warn about minimum sizes above their maximum.
    fn check_ranges(&self, warnings: &mut Vec<Warning>)
        ensures
            warnings_view(final(warnings)@) == warnings_view(old(warnings)@) + range_warnings(
                self@,
                self.nodes@.len() as int,
            ),
    {
        proof {
            self.lemma_nodes();
        }
        let ghost start = warnings_view(warnings@);
        let mut i: usize = 0;
        while i < self.nodes.len()
            invariant
                0 <= i <= self.nodes@.len(),
                self@.nodes.len() == self.nodes@.len(),
                forall|k: int| 0 <= k < self.nodes@.len() ==> #[trigger] self@.nodes[k] == self.nodes@[k]@,
                warnings_view(warnings@) == start + range_warnings(self@, i as int),
            decreases self.nodes@.len() - i,
        {
            let ghost before = warnings@;
            if let Some(e) = &self.nodes[i].width_excess {
                let w = Warning {
                    path: make_path1("nodes[", i, "].layout_sizing.min_width/max_width"),
                    code: String::from_str("MIN_EXCEEDS_MAX"),
                    message: concat5(
                        "min_width (",
                        e.min.as_str(),
                        ") exceeds max_width (",
                        e.max.as_str(),
                        ")",
                    ),
                };
                warnings.push(w);
                proof {
                    lemma_push_warning(before, w);
                }
            }
            let ghost mid = warnings@;
            if let Some(e) = &self.nodes[i].height_excess {
                let w = Warning {
                    path: make_path1("nodes[", i, "].layout_sizing.min_height/max_height"),
                    code: String::from_str("MIN_EXCEEDS_MAX"),
                    message: concat5(
                        "min_height (",
                        e.min.as_str(),
                        ") exceeds max_height (",
                        e.max.as_str(),
                        ")",
                    ),
                };
                warnings.push(w);
                proof {
                    lemma_push_warning(mid, w);
                }
            }
            assert(warnings_view(warnings@) =~= start + range_warnings(self@, i as int + 1));
            i += 1;
        }
    }

    /// Warn about raw CMYK solid fills, which PNG export renders black.
    fn check_cmyk(&self, warnings: &mut Vec<Warning>)
        ensures
            warnings_view(final(warnings)@) == warnings_view(old(warnings)@) + cmyk_warnings(
                self@,
                self.nodes@.len() as int,
            ),
    {
        proof {
            self.lemma_nodes();
        }
        let ghost start = warnings_view(warnings@);
        let mut i: usize = 0;
        while i < self.nodes.len()
            invariant
                0 <= i <= self.nodes@.len(),
                self@.nodes.len() == self.nodes@.len(),
                forall|k: int| 0 <= k < self.nodes@.len() ==> #[trigger] self@.nodes[k] == self.nodes@[k]@,
                warnings_view(warnings@) == start + cmyk_warnings(self@, i as int),
            decreases self.nodes@.len() - i,
        {
            let ghost mid = warnings_view(warnings@);
            let fills = &self.nodes[i].cmyk_fills;
            let mut j: usize = 0;
            while j < fills.len()
                invariant
                    0 <= j <= fills@.len(),
                    i < self.nodes@.len(),
                    fills@ == self@.nodes[i as int].cmyk_fills,
                    warnings_view(warnings@) == mid + node_cmyk_warnings(self@, i as int, j as int),
                decreases fills@.len() - j,
            {
                let ghost before = warnings@;
                if fills[j] {
                    let w = Warning {
                        path: make_path2("nodes[", i as u64, "].kind.visual.fills[", j as u64, "].paint.color"),
                        code: String::from_str("CMYK_FALLBACK"),
                        message: String::from_str("CMYK color will fall back to black in PNG export"),
                    };
                    warnings.push(w);
                    proof {
                        lemma_push_warning(before, w);
                    }
                }
                assert(warnings_view(warnings@) =~= mid + node_cmyk_warnings(self@, i as int, j as int + 1));
                j += 1;
            }
            assert(warnings_view(warnings@) =~= start + cmyk_warnings(self@, i as int + 1));
            i += 1;
        }
    }

    /// Report every token whose alias chain is cyclic.
    fn check_tokens(&self, errors: &mut Vec<ValidationIssue>)
        ensures
            issues_view(final(errors)@) == issues_view(old(errors)@) + token_issues(
                self@,
                self.tokens@.collections.len() as int,
            ),
    {
        let ghost start = issues_view(errors@);
        let cols = self.tokens.collections();
        let mut ci: usize = 0;
        while ci < cols.len()
            invariant
                0 <= ci <= cols@.len(),
                cols@.map_values(|c: TokenCollection<V>| c@) == self.tokens@.collections,
                self@.tokens == self.tokens@,
                self.tokens@.collections.len() == cols@.len(),
                forall|k: int| 0 <= k < cols@.len() ==> #[trigger] self.tokens@.collections[k] == cols@[k]@,
                issues_view(errors@) == start + token_issues(self@, ci as int),
            decreases cols@.len() - ci,
        {
            let ghost mid = issues_view(errors@);
            let col = &cols[ci];
            let mut ti: usize = 0;
            while ti < col.tokens.len()
                invariant
                    0 <= ti <= col.tokens@.len(),
                    ci < cols@.len(),
                    col == &cols@[ci as int],
                    self@.tokens == self.tokens@,
                    self.tokens@.collections[ci as int] == col@,
                    issues_view(errors@) == mid + collection_token_issues(self@, ci as int, ti as int),
                decreases col.tokens@.len() - ti,
            {
                let ghost before = errors@;
                let tok = &col.tokens[ti];
                assert(self@.tokens.collections[ci as int].tokens[ti as int] == tok@);
                match self.tokens.resolve(col.id, tok.id) {
                    Err(TokenError::CyclicAlias) => {
                        let path = make_path2(
                            "tokens.collections[",
                            col.id as u64,
                            "].tokens[",
                            tok.id as u64,
                            "]",
                        );
                        let msg = concat3("token '", tok.name.as_str(), "' has a cyclic alias");
                        let issue = plain_issue(path, "CYCLIC_TOKEN", msg);
                        errors.push(issue);
                        proof {
                            lemma_push_issue(before, issue);
                        }
                    },
                    _ => {},
                }
                assert(issues_view(errors@) =~= mid + collection_token_issues(self@, ci as int, ti as int + 1));
                ti += 1;
            }
            assert(issues_view(errors@) =~= start + token_issues(self@, ci as int + 1));
            ci += 1;
        }
    }
}

/// Depth-first search for a cycle from node `u`, marking visited nodes and
/// the nodes on the search stack.
fn has_cycle(
    g: &Vec<Vec<usize>>,
    u: usize,
    vis: &mut Vec<bool>,
    stk: &mut Vec<bool>,
    Ghost(fuel): Ghost<nat>,
) -> (r: bool)
    requires
        u < g@.len(),
        old(vis)@.len() == g@.len(),
        old(stk)@.len() == g@.len(),
        !old(vis)@[u as int],
        fuel > count_false(old(vis)@),
    ensures
        (r, final(vis)@, final(stk)@) == dfs(graph_view(g@), fuel, u as int, old(vis)@, old(stk)@),
        final(vis)@.len() == g@.len(),
        final(stk)@.len() == g@.len(),
        forall|i: int| 0 <= i < g@.len() && #[trigger] old(vis)@[i] ==> final(vis)@[i],
    decreases fuel,
{
    let ghost gv = graph_view(g@);
    let ghost vis0 = vis@;
    let ghost stk0 = stk@;
    let ghost f1 = (fuel - 1) as nat;
    proof {
        lemma_count_false_update(vis0, u as int);
    }
    vis.set(u, true);
    stk.set(u, true);
    assert(gv[u as int] == g@[u as int]@.map_values(|x: usize| x as int));
    let row = &g[u];
    let mut k: usize = 0;
    while k < row.len()
        invariant
            0 <= k <= row@.len(),
            u < g@.len(),
            gv == graph_view(g@),
            row == &g@[u as int],
            gv[u as int] == row@.map_values(|x: usize| x as int),
            vis@.len() == g@.len(),
            stk@.len() == g@.len(),
            vis@[u as int],
            forall|i: int| 0 <= i < g@.len() && #[trigger] vis0[i] ==> vis@[i],
            f1 + 1 == fuel,
            vis0 == old(vis)@,
            stk0 == old(stk)@,
            f1 > count_false(vis@),
            dfs(gv, fuel, u as int, vis0, stk0) == dfs_children(gv, f1, u as int, k as int, vis@, stk@),
        decreases row@.len() - k,
    {
        let c = row[k];
        assert(gv[u as int][k as int] == c as int);
        if c < vis.len() {
            if !vis[c] {
                let ghost vis1 = vis@;
                let ghost stk1 = stk@;
                let found = has_cycle(g, c, vis, stk, Ghost(f1));
                proof {
                    lemma_count_false_mono(vis1, vis@);
                    assert(dfs(gv, f1, c as int, vis1, stk1) == (found, vis@, stk@));
                }
                if found || stk[c] {
                    assert(dfs_children(gv, f1, u as int, k as int, vis1, stk1) == (true, vis@, stk@));
                    return true;
                }
            } else if stk[c] {
                return true;
            }
        }
        k += 1;
    }
    stk.set(u, false);
    false
}

impl<V> DocOutline<V> {
    /// Position of the node that identifier `s` names, or the number of nodes
    /// when none does.
    fn node_index(&self, s: &str) -> (r: usize)
        ensures
            r == match node_of(self@, s@) {
                Some(j) => j,
                None => self@.nodes.len() as int,
            },
    {
        proof {
            self.lemma_nodes();
        }
        let mut found: usize = self.nodes.len();
        let mut j: usize = 0;
        while j < self.nodes.len()
            invariant
                0 <= j <= self.nodes@.len(),
                ids(self@).len() == self.nodes@.len(),
                self@.nodes.len() == self.nodes@.len(),
                forall|k: int| 0 <= k < self.nodes@.len() ==> #[trigger] ids(self@)[k] == self.nodes@[k].stable_id@,
                found == match last_index_before(ids(self@), s@, j as int) {
                    Some(k) => k,
                    None => self.nodes@.len() as int,
                },
            decreases self.nodes@.len() - j,
        {
            if str_eq(self.nodes[j].stable_id.as_str(), s) {
                found = j;
            }
            j += 1;
        }
        found
    }

    /// The parent-child graph over node positions.
    fn build_graph(&self) -> (g: Vec<Vec<usize>>)
        ensures
            graph_view(g@) == child_graph(self@),
    {
        proof {
            self.lemma_nodes();
        }
        let mut g: Vec<Vec<usize>> = Vec::new();
        let mut i: usize = 0;
        while i < self.nodes.len()
            invariant
                0 <= i <= self.nodes@.len(),
                self@.nodes.len() == self.nodes@.len(),
                forall|k: int| 0 <= k < self.nodes@.len() ==> #[trigger] self@.nodes[k] == self.nodes@[k]@,
                g@.len() == i,
                forall|k: int| 0 <= k < i ==> #[trigger] graph_view(g@)[k] == child_graph(self@)[k],
            decreases self.nodes@.len() - i,
        {
            let mut row: Vec<usize> = Vec::new();
            let ghost want = child_graph(self@)[i as int];
            match children_of(&self.nodes[i].kind) {
                Some(children) => {
                    let mut j: usize = 0;
                    while j < children.len()
                        invariant
                            0 <= j <= children@.len(),
                            i < self.nodes@.len(),
                            strs(children@) == kind_children(self@.nodes[i as int].kind),
                            want == child_graph(self@)[i as int],
                            want.len() == children@.len(),
                            row@.len() == j,
                            forall|k: int| 0 <= k < j ==> #[trigger] row@[k] as int == want[k],
                        decreases children@.len() - j,
                    {
                        let x = self.node_index(children[j].as_str());
                        row.push(x);
                        j += 1;
                    }
                },
                None => {},
            }
            let ghost old_g = g@;
            g.push(row);
            assert(row@.map_values(|x: usize| x as int) =~= want);
            assert forall|k: int| 0 <= k < i + 1 implies #[trigger] graph_view(g@)[k] == child_graph(self@)[k] by {
                if k < i {
                    assert(graph_view(g@)[k] == graph_view(old_g)[k]);
                }
            }
            i += 1;
        }
        assert(graph_view(g@) =~= child_graph(self@));
        g
    }

    /// Report, for each node whose depth-first search meets a node on the
    /// search stack, a circular hierarchy issue.
    fn check_cycles(&self, errors: &mut Vec<ValidationIssue>)
        ensures
            issues_view(final(errors)@) == issues_view(old(errors)@) + cycle_issues(self@),
    {
        proof {
            self.lemma_nodes();
        }
        let ghost start = issues_view(errors@);
        let g = self.build_graph();
        let ghost gv = graph_view(g@);
        assert(gv.len() == g@.len());
        assert(child_graph(self@).len() == self.nodes@.len());
        let n = self.nodes.len();
        let ghost fuel = (n + 1) as nat;
        let mut vis: Vec<bool> = Vec::new();
        let mut stk: Vec<bool> = Vec::new();
        let mut z: usize = 0;
        while z < n
            invariant
                0 <= z <= n,
                vis@.len() == z,
                stk@.len() == z,
                forall|k: int| 0 <= k < z ==> !(#[trigger] vis@[k]),
                forall|k: int| 0 <= k < z ==> !(#[trigger] stk@[k]),
            decreases n - z,
        {
            vis.push(false);
            stk.push(false);
            z += 1;
        }
        let ghost none = Seq::new(n as nat, |i: int| false);
        assert(vis@ =~= none);
        assert(stk@ =~= none);
        let ghost mut roots: Seq<int> = Seq::empty();
        let mut i: usize = 0;
        while i < n
            invariant
                0 <= i <= n,
                n == self.nodes@.len(),
                n == g@.len(),
                gv == graph_view(g@),
                gv == child_graph(self@),
                fuel == n + 1,
                none == Seq::new(n as nat, |i: int| false),
                vis@.len() == n,
                stk@.len() == n,
                ids(self@).len() == n,
                forall|k: int| 0 <= k < n ==> #[trigger] ids(self@)[k] == self.nodes@[k].stable_id@,
                cycle_roots(gv, fuel, 0, none, none) == roots + cycle_roots(
                    gv,
                    fuel,
                    i as int,
                    vis@,
                    stk@,
                ),
                issues_view(errors@) == start + roots.map_values(|k: int| cycle_issue(self@, k)),
            decreases n - i,
        {
            if !vis[i] {
                proof {
                    lemma_count_false_le_len(vis@);
                }
                let ghost before = errors@;
                let found = has_cycle(&g, i, &mut vis, &mut stk, Ghost(fuel));
                if found {
                    let path = concat3("nodes (stable_id='", self.nodes[i].stable_id.as_str(), "')");
                    let issue = plain_issue(
                        path,
                        "CIRCULAR_HIERARCHY",
                        String::from_str("circular parent-child relationship detected"),
                    );
                    errors.push(issue);
                    proof {
                        lemma_push_issue(before, issue);
                        assert(roots.push(i as int).map_values(|k: int| cycle_issue(self@, k))
                            =~= roots.map_values(|k: int| cycle_issue(self@, k)) + seq![cycle_issue(self@, i as int)]);
                        assert(roots + (seq![i as int] + cycle_roots(gv, fuel, i as int + 1, vis@, stk@))
                            =~= roots.push(i as int) + cycle_roots(gv, fuel, i as int + 1, vis@, stk@));
                        roots = roots.push(i as int);
                    }
                } else {
                    assert(Seq::<int>::empty() + cycle_roots(gv, fuel, i as int + 1, vis@, stk@)
                        =~= cycle_roots(gv, fuel, i as int + 1, vis@, stk@));
                }
            }
            i += 1;
        }
        assert(cycle_issues(self@) == roots.map_values(|k: int| cycle_issue(self@, k)));
    }
}

/// What a node position names: the node of that position's identifier is
/// the node itself exactly when it is the last with that identifier.
proof fn lemma_node_of_some<V>(d: DocView<V>, x: Seq<char>)
    ensures
        match node_of(d, x) {
            Some(j) => 0 <= j < d.nodes.len() && ids(d)[j] == x && node_of(d, ids(d)[j]) == Some(j),
            None => !ids(d).contains(x),
        },
{
    lemma_last_index_before(ids(d), x, ids(d).len() as int);
    match node_of(d, x) {
        Some(j) => {},
        None => {
            if ids(d).contains(x) {
                let k = choose|k: int| 0 <= k < ids(d).len() && ids(d)[k] == x;
                assert(ids(d)[k] == x);
            }
        },
    }
}

/// Every node reached along a chain from `s` is marked, when the marks are
/// closed under child steps and the node `s` names is marked.
proof fn lemma_chain_marked<V>(d: DocView<V>, s: Seq<char>, p: Seq<Seq<char>>, marks: Seq<bool>, i: int)
    requires
        is_chain(d, p),
        p[0] == s,
        0 <= i < p.len(),
        marks.len() == d.nodes.len(),
        forall|r: int| 0 <= r < d.nodes.len() && node_of(d, s) == Some(r) ==> marks[r],
        forall|a: int, m: int|
            #![trigger marks[a], child_graph(d)[a][m]]
            0 <= a < d.nodes.len() && marks[a] && 0 <= m < child_graph(d)[a].len()
                && child_graph(d)[a][m] < d.nodes.len() ==> marks[child_graph(d)[a][m]],
    ensures
        forall|r: int| node_of(d, p[i]) == Some(r) ==> marks[r],
    decreases i,
{
    lemma_node_of_some(d, s);
    if i > 0 {
        lemma_chain_marked(d, s, p, marks, i - 1);
        let q = i - 1;
        assert(child_step(d, p[q], p[q + 1]));
        let a = node_of(d, p[q]).unwrap();
        lemma_node_of_some(d, p[q]);
        let cs = kind_children(d.nodes[a].kind);
        let m = choose|m: int| 0 <= m < cs.len() && cs[m] == p[i];
        lemma_node_of_some(d, p[i]);
        let f = |c: Seq<char>|
            match node_of(d, c) {
                Some(j) => j,
                None => d.nodes.len() as int,
            };
        assert(child_graph(d)[a] == cs.map_values(f));
        assert(child_graph(d)[a][m] == f(p[i]));
        assert(marks[a]);
    }
}

impl<V> DocOutline<V> {
    /// Marks of the nodes below (or at) the node that `s` names: node `j` is
    /// marked exactly when it is the node its identifier names and that
    /// identifier descends from `s`.
    fn descendants(&self, g: &Vec<Vec<usize>>, s: &str) -> (marks: Vec<bool>)
        requires
            graph_view(g@) == child_graph(self@),
        ensures
            marks@.len() == self@.nodes.len(),
            forall|j: int|
                0 <= j < self@.nodes.len() ==> (#[trigger] marks@[j] <==> (node_of(
                    self@,
                    ids(self@)[j],
                ) == Some(j) && descends(self@, s@, ids(self@)[j]))),
    {
        let ghost d = self@;
        let ghost gv = graph_view(g@);
        let n = self.nodes.len();
        proof {
            self.lemma_nodes();
            assert(gv.len() == g@.len());
            assert(child_graph(d).len() == n);
        }
        let mut marks: Vec<bool> = Vec::new();
        let mut z: usize = 0;
        while z < n
            invariant
                0 <= z <= n,
                marks@.len() == z,
                forall|k: int| 0 <= k < z ==> !(#[trigger] marks@[k]),
            decreases n - z,
        {
            marks.push(false);
            z += 1;
        }
        let mut stack: Vec<usize> = Vec::new();
        let r = self.node_index(s);
        proof {
            lemma_node_of_some(d, s@);
        }
        if r < n {
            marks.set(r, true);
            stack.push(r);
            proof {
                assert(is_chain(d, seq![s@]));
            }
        }
        while stack.len() > 0
            invariant
                d == self@,
                n == d.nodes.len(),
                n == g@.len(),
                gv == graph_view(g@),
                gv == child_graph(d),
                ids(d).len() == n,
                marks@.len() == n,
                forall|k: int| 0 <= k < stack@.len() ==> #[trigger] stack@[k] < n && marks@[stack@[k] as int],
                forall|j: int| 0 <= j < n && #[trigger] marks@[j] ==> node_of(d, ids(d)[j]) == Some(j)
                    && descends(d, s@, ids(d)[j]),
                forall|a: int, m: int|
                    #![trigger marks@[a], gv[a][m]]
                    0 <= a < n && marks@[a] && !stack@.contains(a as usize) && 0 <= m
                        < gv[a].len() && gv[a][m] < n ==> marks@[gv[a][m]],
                forall|q: int| 0 <= q < n && node_of(d, s@) == Some(q) ==> marks@[q],
            decreases 2 * count_false(marks@) + stack@.len(),
        {
            let ghost c0 = count_false(marks@);
            let x = stack.pop().unwrap();
            let ghost st1 = stack@;
            let row = &g[x];
            assert(gv[x as int] == row@.map_values(|v: usize| v as int));
            let mut k: usize = 0;
            while k < row.len()
                invariant
                    d == self@,
                    n == d.nodes.len(),
                    n == g@.len(),
                    gv == graph_view(g@),
                    gv == child_graph(d),
                    ids(d).len() == n,
                    x < n,
                    row == &g@[x as int],
                    gv[x as int] == row@.map_values(|v: usize| v as int),
                    0 <= k <= row@.len(),
                    marks@.len() == n,
                    marks@[x as int],
                    count_false(marks@) + stack@.len() == c0 + st1.len(),
                    count_false(marks@) <= c0,
                    forall|q: int| 0 <= q < st1.len() ==> stack@[q] == st1[q],
                    stack@.len() >= st1.len(),
                    forall|q: int| 0 <= q < stack@.len() ==> #[trigger] stack@[q] < n && marks@[stack@[q] as int],
                    forall|j: int| 0 <= j < n && #[trigger] marks@[j] ==> node_of(d, ids(d)[j]) == Some(j)
                        && descends(d, s@, ids(d)[j]),
                    forall|a: int, m: int|
                        #![trigger marks@[a], gv[a][m]]
                        0 <= a < n && marks@[a] && a != x && !stack@.contains(a as usize) && 0
                            <= m < gv[a].len() && gv[a][m] < n ==> marks@[gv[a][m]],
                    forall|m: int| 0 <= m < k && gv[x as int][m] < n ==> marks@[#[trigger] gv[x as int][m]],
                    forall|q: int| 0 <= q < n && node_of(d, s@) == Some(q) ==> marks@[q],
                decreases row@.len() - k,
            {
                let c = row[k];
                if c < n && !marks[c] {
                    proof {
                        let cs = kind_children(d.nodes[x as int].kind);
                        let f = |c: Seq<char>|
                            match node_of(d, c) {
                                Some(j) => j,
                                None => d.nodes.len() as int,
                            };
                        assert(child_graph(d)[x as int] == cs.map_values(f));
                        assert(gv[x as int].len() == row@.len());
                        assert(cs.map_values(f).len() == cs.len());
                        assert(gv[x as int][k as int] == f(cs[k as int]));
                        assert(node_of(d, ids(d)[x as int]) == Some(x as int));
                        assert(cs.contains(cs[k as int]));
                        lemma_node_of_some(d, cs[k as int]);
                        let p = choose|p: Seq<Seq<char>>|
                            #[trigger] is_chain(d, p) && p[0] == s@ && p.last() == ids(d)[x as int];
                        let p2 = p.push(cs[k as int]);
                        assert(child_step(d, ids(d)[x as int], cs[k as int]));
                        assert forall|q: int| 0 <= q < p2.len() - 1 implies #[trigger] child_step(
                            d,
                            p2[q],
                            p2[q + 1],
                        ) by {
                            if q < p.len() - 1 {
                                assert(p2[q] == p[q] && p2[q + 1] == p[q + 1]);
                            }
                        }
                        assert(is_chain(d, p2));
                        lemma_count_false_update(marks@, c as int);
                    }
                    marks.set(c, true);
                    stack.push(c);
                }
                k += 1;
            }
            proof {
                lemma_count_false_mono(marks@, marks@);
                assert forall|a: int, m: int|
                    #![trigger marks@[a], gv[a][m]]
                    0 <= a < n && marks@[a] && !stack@.contains(a as usize) && 0 <= m
                        < gv[a].len() && gv[a][m] < n implies marks@[gv[a][m]] by {
                    if a == x {
                        assert(marks@[gv[x as int][m]]);
                    }
                }
            }
        }
        proof {
            assert forall|j: int| 0 <= j < n implies (#[trigger] marks@[j] <==> (node_of(
                d,
                ids(d)[j],
            ) == Some(j) && descends(d, s@, ids(d)[j]))) by {
                if node_of(d, ids(d)[j]) == Some(j) && descends(d, s@, ids(d)[j]) {
                    let p = choose|p: Seq<Seq<char>>|
                        #[trigger] is_chain(d, p) && p[0] == s@ && p.last() == ids(d)[j];
                    lemma_chain_marked(d, s@, p, marks@, p.len() - 1);
                }
            }
        }
        marks
    }

    /// Report overrides whose target is missing, outside the instantiated
    /// component, a size override of the component root, or a text override
    /// of a node that is not text.
    fn check_overrides(&self, g: &Vec<Vec<usize>>, errors: &mut Vec<ValidationIssue>)
        requires
            graph_view(g@) == child_graph(self@),
        ensures
            issues_view(final(errors)@) == issues_view(old(errors)@) + override_issues(
                self@,
                self.nodes@.len() as int,
            ),
    {
        proof {
            self.lemma_nodes();
        }
        let ghost start = issues_view(errors@);
        let n = self.nodes.len();
        let mut i: usize = 0;
        while i < n
            invariant
                0 <= i <= n,
                n == self.nodes@.len(),
                graph_view(g@) == child_graph(self@),
                self@.nodes.len() == n,
                forall|k: int| 0 <= k < n ==> #[trigger] self@.nodes[k] == self.nodes@[k]@,
                ids(self@).len() == n,
                forall|k: int| 0 <= k < n ==> #[trigger] ids(self@)[k] == self.nodes@[k].stable_id@,
                issues_view(errors@) == start + override_issues(self@, i as int),
            decreases n - i,
        {
            let ghost mid = issues_view(errors@);
            if let KindOutline::Instance { source_component, overrides, .. } = &self.nodes[i].kind {
                let marks = self.descendants(g, source_component.as_str());
                let ghost ov = overrides@.map_values(|o: OverrideRef| o@);
                let mut j: usize = 0;
                while j < overrides.len()
                    invariant
                        0 <= j <= overrides@.len(),
                        i < n,
                        n == self.nodes@.len(),
                        self@.nodes.len() == n,
                        forall|k: int| 0 <= k < n ==> #[trigger] self@.nodes[k] == self.nodes@[k]@,
                        ids(self@).len() == n,
                        forall|k: int| 0 <= k < n ==> #[trigger] ids(self@)[k] == self.nodes@[k].stable_id@,
                        ov == overrides@.map_values(|o: OverrideRef| o@),
                        self@.nodes[i as int].kind == (KindView::Instance {
                            children: kind_children(self@.nodes[i as int].kind),
                            source: source_component@,
                            overrides: ov,
                        }),
                        marks@.len() == n,
                        forall|q: int|
                            0 <= q < n ==> (#[trigger] marks@[q] <==> (node_of(
                                self@,
                                ids(self@)[q],
                            ) == Some(q) && descends(self@, source_component@, ids(self@)[q]))),
                        issues_view(errors@) == mid + instance_override_issues(
                            self@,
                            i as int,
                            source_component@,
                            ov,
                            j as int,
                        ),
                    decreases overrides@.len() - j,
                {
                    let ghost before = errors@;
                    let o = &overrides[j];
                    let t = o.target.as_str();
                    assert(ov[j as int] == o@);
                    if !self.has_id(t) {
                        let path = make_path2("nodes[", i as u64, "].kind.overrides[", j as u64, "].target");
                        let msg = concat3("override target '", t, "' not found");
                        let issue = plain_issue(path, "INVALID_OVERRIDE_TARGET", msg);
                        errors.push(issue);
                        proof {
                            lemma_push_issue(before, issue);
                        }
                    } else {
                        let k = self.node_index(t);
                        proof {
                            lemma_node_of_some(self@, t@);
                        }
                        if !marks[k] {
                            let path = make_path2("nodes[", i as u64, "].kind.overrides[", j as u64, "].target");
                            let msg = concat5(
                                "override target '",
                                t,
                                "' is not a descendant of source_component '",
                                source_component.as_str(),
                                "'",
                            );
                            let issue = plain_issue(path, "OVERRIDE_TARGET_NOT_IN_COMPONENT", msg);
                            errors.push(issue);
                            proof {
                                lemma_push_issue(before, issue);
                            }
                        } else if o.kind == OverrideKind::Size && str_eq(t, source_component.as_str()) {
                            let path = make_path2("nodes[", i as u64, "].kind.overrides[", j as u64, "].target");
                            let msg = concat3(
                                "Size override targets component root '",
                                t,
                                "'; use instance width/height fields instead",
                            );
                            let issue = ValidationIssue {
                                path,
                                code: String::from_str("SIZE_OVERRIDE_ON_COMPONENT_ROOT"),
                                message: msg,
                                suggestion: Some(String::from_str("set width/height on the instance node directly")),
                            };
                            errors.push(issue);
                            proof {
                                lemma_push_issue(before, issue);
                            }
                        } else if o.kind == OverrideKind::TextContent && !matches!(self.nodes[k].kind, KindOutline::Text) {
                            let path = make_path2("nodes[", i as u64, "].kind.overrides[", j as u64, "].type");
                            let msg = concat3("TextContent override targets '", t, "' which is not a Text node");
                            let issue = plain_issue(path, "OVERRIDE_TYPE_MISMATCH", msg);
                            errors.push(issue);
                            proof {
                                lemma_push_issue(before, issue);
                            }
                        }
                    }
                    assert(issues_view(errors@) =~= mid + instance_override_issues(
                        self@,
                        i as int,
                        source_component@,
                        ov,
                        j as int + 1,
                    ));
                    j += 1;
                }
            }
            assert(issues_view(errors@) =~= start + override_issues(self@, i as int + 1));
            i += 1;
        }
    }
}

impl<V> DocOutline<V> {
    /// The node identifiers, in order.
    fn id_list(&self) -> (r: Vec<String>)
        ensures
            strs(r@) == ids(self@),
    {
        proof {
            self.lemma_nodes();
        }
        let mut r: Vec<String> = Vec::new();
        let mut i: usize = 0;
        while i < self.nodes.len()
            invariant
                0 <= i <= self.nodes@.len(),
                ids(self@).len() == self.nodes@.len(),
                forall|k: int| 0 <= k < self.nodes@.len() ==> #[trigger] ids(self@)[k] == self.nodes@[k].stable_id@,
                strs(r@) == ids(self@).take(i as int),
            decreases self.nodes@.len() - i,
        {
            let ghost before = r@;
            r.push(self.nodes[i].stable_id.clone());
            assert(strs(r@) =~= ids(self@).take(i as int + 1)) by {
                assert(strs(r@) =~= strs(before).push(self.nodes@[i as int].stable_id@));
            }
            i += 1;
        }
        assert(ids(self@).take(i as int) =~= ids(self@));
        r
    }
}

/// Validate a document: its errors (duplicate identifiers, unresolved
/// references, hierarchy cycles, bad component references and overrides,
/// cyclic tokens, negative layout values) and warnings (minimums above
/// maximums, CMYK fills); it is valid when there is no error.
pub fn validate_document<V>(doc: &DocOutline<V>) -> (r: ValidateResponse)
    ensures
        issues_view(r.errors@) == validation_errors(doc@),
        warnings_view(r.warnings@) == validation_warnings(doc@),
        r.valid == (r.errors@.len() == 0),
{
    let mut errors: Vec<ValidationIssue> = Vec::new();
    let mut warnings: Vec<Warning> = Vec::new();
    let ghost d = doc@;
    assert(issues_view(errors@) =~= Seq::<IssueView>::empty());
    assert(warnings_view(warnings@) =~= Seq::<WarningView>::empty());
    doc.check_duplicates(&mut errors);
    let all_ids = doc.id_list();
    let avail = debug_list(&all_ids);
    doc.check_children(&mut errors, &avail);
    doc.check_canvas(&mut errors, &avail);
    doc.check_views(&mut errors, &avail);
    let ghost refs = issues_view(errors@);
    assert(refs =~= reference_issues(d));
    let g = doc.build_graph();
    if errors.len() == 0 {
        doc.check_cycles(&mut errors);
    } else {
        assert(refs.len() != 0);
    }
    let ghost after_cycles = issues_view(errors@);
    assert(after_cycles =~= refs + (if refs.len() == 0 {
        cycle_issues(d)
    } else {
        Seq::empty()
    }));
    doc.check_components(&mut errors);
    doc.check_overrides(&g, &mut errors);
    doc.check_tokens(&mut errors);
    doc.check_layout(&mut errors);
    doc.check_ranges(&mut warnings);
    doc.check_cmyk(&mut warnings);
    assert(issues_view(errors@) =~= validation_errors(d));
    assert(warnings_view(warnings@) =~= validation_warnings(d));
    assert(issues_view(errors@).len() == errors@.len());
    let valid = errors.len() == 0;
    ValidateResponse { valid, errors, warnings }
}

/// The `validate` command on a parsed document (or the parser's message when
/// parsing failed): the report, and the exit code (success when valid,
/// input error otherwise).
pub fn cmd_validate<V>(parsed: Result<DocOutline<V>, String>) -> (r: (i32, ValidateResponse))
    ensures
        r.0 == (if r.1.valid {
            EXIT_OK
        } else {
            EXIT_INPUT
        }),
        match parsed {
            Ok(doc) => {
                &&& issues_view(r.1.errors@) == validation_errors(doc@)
                &&& warnings_view(r.1.warnings@) == validation_warnings(doc@)
                &&& r.1.valid == (r.1.errors@.len() == 0)
            },
            Err(message) => {
                &&& !r.1.valid
                &&& issues_view(r.1.errors@) == seq![
                    IssueView {
                        path: Seq::empty(),
                        code: "PARSE_FAILED"@,
                        message: message@,
                        suggestion: None,
                    },
                ]
                &&& r.1.warnings@.len() == 0
            },
        },
{
    let report = match parsed {
        Ok(doc) => validate_document(&doc),
        Err(message) => {
            let ghost m = message@;
            let rep = ValidateResponse::parse_failed(message);
            assert(issues_view(rep.errors@) =~= seq![
                IssueView {
                    path: Seq::empty(),
                    code: "PARSE_FAILED"@,
                    message: m,
                    suggestion: None,
                },
            ]);
            rep
        },
    };
    let code = if report.valid {
        EXIT_OK
    } else {
        EXIT_INPUT
    };
    (code, report)
}

// ─── Cycles of the hierarchy ───

/// An edge of graph `g`: `c` is a child of `u`, both nodes of the graph.
pub open spec fn edge(g: Seq<Seq<int>>, u: int, c: int) -> bool {
    0 <= u < g.len() && 0 <= c < g.len() && g[u].contains(c)
}

/// A path of `g`: nodes of the graph, each joined to the next by an edge.
pub open spec fn is_path(g: Seq<Seq<int>>, p: Seq<int>) -> bool {
    &&& p.len() >= 1
    &&& 0 <= p[0] < g.len()
    &&& forall|i: int| 0 <= i < p.len() - 1 ==> #[trigger] edge(g, p[i], p[i + 1])
}

/// Node `y` of `g` can be reached from node `x` (in no or more steps).
pub open spec fn reaches(g: Seq<Seq<int>>, x: int, y: int) -> bool {
    exists|p: Seq<int>| #[trigger] is_path(g, p) && p[0] == x && p.last() == y
}

/// `g` has a cycle: a path of at least one edge that ends where it started.
pub open spec fn has_cycle_graph(g: Seq<Seq<int>>) -> bool {
    exists|p: Seq<int>| #[trigger] is_path(g, p) && p.len() >= 2 && p[0] == p.last()
}

/// A path to `u` extends along an edge out of `u`.
proof fn lemma_reaches_step(g: Seq<Seq<int>>, x: int, u: int, c: int)
    requires
        reaches(g, x, u),
        edge(g, u, c),
    ensures
        reaches(g, x, c),
{
    let p = choose|p: Seq<int>| #[trigger] is_path(g, p) && p[0] == x && p.last() == u;
    let q = p.push(c);
    assert forall|i: int| 0 <= i < q.len() - 1 implies #[trigger] edge(g, q[i], q[i + 1]) by {
        if i < p.len() - 1 {
            assert(q[i] == p[i] && q[i + 1] == p[i + 1]);
        } else {
            assert(q[i] == u && q[i + 1] == c);
        }
    }
    assert(is_path(g, q));
}

/// An edge back to a node that reaches its start closes a cycle.
proof fn lemma_back_edge(g: Seq<Seq<int>>, c: int, u: int)
    requires
        reaches(g, c, u),
        edge(g, u, c),
    ensures
        has_cycle_graph(g),
{
    let p = choose|p: Seq<int>| #[trigger] is_path(g, p) && p[0] == c && p.last() == u;
    let q = p.push(c);
    assert forall|i: int| 0 <= i < q.len() - 1 implies #[trigger] edge(g, q[i], q[i + 1]) by {
        if i < p.len() - 1 {
            assert(q[i] == p[i] && q[i + 1] == p[i + 1]);
        } else {
            assert(q[i] == u && q[i + 1] == c);
        }
    }
    assert(is_path(g, q));
}

/// On an acyclic graph, a search from an unvisited node whose stack nodes
/// all reach it finds nothing and leaves the stack as it was.
proof fn lemma_dfs_acyclic(g: Seq<Seq<int>>, fuel: nat, u: int, vis: Seq<bool>, stk: Seq<bool>)
    requires
        !has_cycle_graph(g),
        0 <= u < g.len(),
        vis.len() == g.len(),
        stk.len() == g.len(),
        !vis[u],
        forall|x: int| 0 <= x < g.len() && #[trigger] stk[x] ==> vis[x] && reaches(g, x, u),
        fuel > count_false(vis),
    ensures
        ({
            let r = dfs(g, fuel, u, vis, stk);
            &&& !r.0
            &&& r.2 == stk
            &&& r.1.len() == g.len()
            &&& forall|x: int| 0 <= x < g.len() && #[trigger] vis[x] ==> r.1[x]
        }),
    decreases fuel, 0nat,
{
    lemma_count_false_update(vis, u);
    let vis1 = vis.update(u, true);
    let stk1 = stk.update(u, true);
    assert(is_path(g, seq![u]));
    assert(reaches(g, u, u));
    lemma_dfs_children_acyclic(g, (fuel - 1) as nat, u, 0, vis1, stk1);
    assert(stk1.update(u, false) =~= stk);
    assert(dfs(g, fuel, u, vis, stk) == dfs_children(g, (fuel - 1) as nat, u, 0, vis1, stk1));
    let r = dfs(g, fuel, u, vis, stk);
    assert forall|x: int| 0 <= x < g.len() && #[trigger] vis[x] implies r.1[x] by {
        assert(vis1[x]);
    }
}

/// The search over the children of `u` from the `k`-th on, on an acyclic
/// graph, finds nothing and takes `u` off the stack.
proof fn lemma_dfs_children_acyclic(
    g: Seq<Seq<int>>,
    fuel: nat,
    u: int,
    k: int,
    vis: Seq<bool>,
    stk: Seq<bool>,
)
    requires
        !has_cycle_graph(g),
        0 <= u < g.len(),
        0 <= k,
        vis.len() == g.len(),
        stk.len() == g.len(),
        vis[u],
        stk[u],
        forall|x: int| 0 <= x < g.len() && #[trigger] stk[x] ==> vis[x] && reaches(g, x, u),
        fuel > count_false(vis),
    ensures
        ({
            let r = dfs_children(g, fuel, u, k, vis, stk);
            &&& !r.0
            &&& r.2 == stk.update(u, false)
            &&& r.1.len() == g.len()
            &&& forall|x: int| 0 <= x < g.len() && #[trigger] vis[x] ==> r.1[x]
        }),
    decreases fuel, (g[u].len() - k + 1) as nat,
{
    if k < g[u].len() {
        let c = g[u][k];
        if 0 <= c < vis.len() {
            assert(edge(g, u, c)) by {
                assert(g[u].contains(c));
            }
            if !vis[c] {
                assert forall|x: int| 0 <= x < g.len() && #[trigger] stk[x] implies vis[x] && reaches(
                    g,
                    x,
                    c,
                ) by {
                    lemma_reaches_step(g, x, u, c);
                }
                lemma_dfs_acyclic(g, fuel, c, vis, stk);
                let res = dfs(g, fuel, c, vis, stk);
                lemma_count_false_mono(vis, res.1);
                lemma_dfs_children_acyclic(g, fuel, u, k + 1, res.1, res.2);
            } else {
                if stk[c] {
                    lemma_back_edge(g, c, u);
                }
                lemma_dfs_children_acyclic(g, fuel, u, k + 1, vis, stk);
            }
        } else {
            lemma_dfs_children_acyclic(g, fuel, u, k + 1, vis, stk);
        }
    }
}

/// On an acyclic graph no search from the `i`-th node on finds a cycle.
proof fn lemma_roots_acyclic(g: Seq<Seq<int>>, i: int, vis: Seq<bool>, stk: Seq<bool>)
    requires
        !has_cycle_graph(g),
        0 <= i,
        vis.len() == g.len(),
        stk.len() == g.len(),
        forall|x: int| 0 <= x < g.len() ==> !(#[trigger] stk[x]),
    ensures
        cycle_roots(g, g.len() + 1, i, vis, stk) == Seq::<int>::empty(),
    decreases g.len() - i,
{
    if i < g.len() {
        if vis[i] {
            lemma_roots_acyclic(g, i + 1, vis, stk);
        } else {
            lemma_count_false_le_len(vis);
            lemma_dfs_acyclic(g, g.len() + 1, i, vis, stk);
            let res = dfs(g, g.len() + 1, i, vis, stk);
            lemma_roots_acyclic(g, i + 1, res.1, res.2);
            assert(Seq::<int>::empty() + Seq::<int>::empty() =~= Seq::<int>::empty());
        }
    }
}

/// Law: when the parent-child graph of a document has no cycle, validation
/// reports no circular hierarchy.
pub proof fn law_acyclic_hierarchy_passes<V>(d: DocView<V>)
    requires
        !has_cycle_graph(child_graph(d)),
    ensures
        cycle_issues(d) == Seq::<IssueView>::empty(),
{
    let g = child_graph(d);
    let none = Seq::new(d.nodes.len(), |i: int| false);
    lemma_roots_acyclic(g, 0, none, none);
    assert(cycle_issues(d) =~= Seq::<IssueView>::empty());
}

/// Node `x` is finished: visited and off the search stack.
pub open spec fn finished(vis: Seq<bool>, stk: Seq<bool>, x: int) -> bool {
    vis[x] && !stk[x]
}

/// Finished node `x` has a rank below `t`, and every child of it is
/// finished with a smaller rank.
pub open spec fn node_ranked(
    g: Seq<Seq<int>>,
    vis: Seq<bool>,
    stk: Seq<bool>,
    rank: Map<int, int>,
    t: int,
    x: int,
) -> bool {
    &&& rank.contains_key(x)
    &&& rank[x] < t
    &&& forall|c: int| #[trigger]
        edge(g, x, c) ==> finished(vis, stk, c) && rank.contains_key(c) && rank[c] < rank[x]
}

/// Every finished node is ranked.
pub open spec fn rank_inv(
    g: Seq<Seq<int>>,
    vis: Seq<bool>,
    stk: Seq<bool>,
    rank: Map<int, int>,
    t: int,
) -> bool {
    forall|x: int| 0 <= x < g.len() && #[trigger] finished(vis, stk, x) ==> node_ranked(g, vis, stk, rank, t, x)
}

/// A search from an unvisited node that finds nothing leaves the stack as
/// it was, and the finished nodes (now with this one) can be ranked.
proof fn lemma_dfs_ranks(
    g: Seq<Seq<int>>,
    fuel: nat,
    u: int,
    vis: Seq<bool>,
    stk: Seq<bool>,
    rank: Map<int, int>,
    t: int,
) -> (out: (Map<int, int>, int))
    requires
        0 <= u < g.len(),
        vis.len() == g.len(),
        stk.len() == g.len(),
        !vis[u],
        forall|x: int| 0 <= x < g.len() && #[trigger] stk[x] ==> vis[x],
        rank_inv(g, vis, stk, rank, t),
        fuel > count_false(vis),
    ensures
        ({
            let r = dfs(g, fuel, u, vis, stk);
            !r.0 ==> {
                &&& r.2 == stk
                &&& r.1.len() == g.len()
                &&& r.1[u]
                &&& forall|x: int| 0 <= x < g.len() && #[trigger] vis[x] ==> r.1[x]
                &&& rank_inv(g, r.1, r.2, out.0, out.1)
            }
        }),
    decreases fuel, 0nat,
{
    lemma_count_false_update(vis, u);
    let vis1 = vis.update(u, true);
    let stk1 = stk.update(u, true);
    assert forall|x: int| 0 <= x < g.len() && #[trigger] finished(vis1, stk1, x) implies node_ranked(
        g,
        vis1,
        stk1,
        rank,
        t,
        x,
    ) by {
        assert(x != u);
        assert(finished(vis, stk, x));
        assert forall|c: int| #[trigger] edge(g, x, c) implies finished(vis1, stk1, c)
            && rank.contains_key(c) && rank[c] < rank[x] by {
            assert(node_ranked(g, vis, stk, rank, t, x));
            assert(finished(vis, stk, c));
        }
    }
    let out = lemma_children_ranks(g, (fuel - 1) as nat, u, 0, vis1, stk1, rank, t);
    assert(dfs(g, fuel, u, vis, stk) == dfs_children(g, (fuel - 1) as nat, u, 0, vis1, stk1));
    let r = dfs(g, fuel, u, vis, stk);
    if !r.0 {
        assert(stk1.update(u, false) =~= stk);
        assert forall|x: int| 0 <= x < g.len() && #[trigger] vis[x] implies r.1[x] by {
            assert(vis1[x]);
        }
    }
    out
}

/// The search over the children of `u` from the `k`-th on, when the earlier
/// children are finished: if it finds nothing, `u` comes off the stack and
/// the finished nodes (now with `u`) can be ranked.
proof fn lemma_children_ranks(
    g: Seq<Seq<int>>,
    fuel: nat,
    u: int,
    k: int,
    vis: Seq<bool>,
    stk: Seq<bool>,
    rank: Map<int, int>,
    t: int,
) -> (out: (Map<int, int>, int))
    requires
        0 <= u < g.len(),
        0 <= k,
        vis.len() == g.len(),
        stk.len() == g.len(),
        vis[u],
        stk[u],
        forall|x: int| 0 <= x < g.len() && #[trigger] stk[x] ==> vis[x],
        rank_inv(g, vis, stk, rank, t),
        forall|j: int| 0 <= j < k && j < g[u].len() && 0 <= #[trigger] g[u][j] < g.len() ==> finished(vis, stk, g[u][j]),
        fuel > count_false(vis),
    ensures
        ({
            let r = dfs_children(g, fuel, u, k, vis, stk);
            !r.0 ==> {
                &&& r.2 == stk.update(u, false)
                &&& r.1.len() == g.len()
                &&& forall|x: int| 0 <= x < g.len() && #[trigger] vis[x] ==> r.1[x]
                &&& rank_inv(g, r.1, r.2, out.0, out.1)
            }
        }),
    decreases fuel, (g[u].len() - k + 1) as nat,
{
    if k >= g[u].len() {
        let stk2 = stk.update(u, false);
        let rank2 = rank.insert(u, t);
        assert forall|x: int| 0 <= x < g.len() && #[trigger] finished(vis, stk2, x) implies node_ranked(
            g,
            vis,
            stk2,
            rank2,
            t + 1,
            x,
        ) by {
            if x == u {
                assert forall|c: int| #[trigger] edge(g, x, c) implies finished(vis, stk2, c)
                    && rank2.contains_key(c) && rank2[c] < rank2[x] by {
                    let j = choose|j: int| 0 <= j < g[u].len() && g[u][j] == c;
                    assert(finished(vis, stk, g[u][j]));
                    assert(node_ranked(g, vis, stk, rank, t, c));
                }
            } else {
                assert(finished(vis, stk, x));
                assert(node_ranked(g, vis, stk, rank, t, x));
                assert forall|c: int| #[trigger] edge(g, x, c) implies finished(vis, stk2, c)
                    && rank2.contains_key(c) && rank2[c] < rank2[x] by {
                    assert(finished(vis, stk, c));
                }
            }
        }
        (rank2, t + 1)
    } else {
        let c = g[u][k];
        if 0 <= c < vis.len() {
            if !vis[c] {
                let o1 = lemma_dfs_ranks(g, fuel, c, vis, stk, rank, t);
                let res = dfs(g, fuel, c, vis, stk);
                if !res.0 {
                    lemma_count_false_mono(vis, res.1);
                    assert(!res.2[c]);
                    assert forall|j: int| 0 <= j < k + 1 && j < g[u].len() && 0 <= #[trigger] g[u][j] < g.len() implies finished(
                        res.1,
                        res.2,
                        g[u][j],
                    ) by {
                        if j < k {
                            assert(finished(vis, stk, g[u][j]));
                        }
                    }
                    lemma_children_ranks(g, fuel, u, k + 1, res.1, res.2, o1.0, o1.1)
                } else {
                    (rank, t)
                }
            } else if stk[c] {
                (rank, t)
            } else {
                assert forall|j: int| 0 <= j < k + 1 && j < g[u].len() && 0 <= #[trigger] g[u][j] < g.len() implies finished(
                    vis,
                    stk,
                    g[u][j],
                ) by {
                }
                lemma_children_ranks(g, fuel, u, k + 1, vis, stk, rank, t)
            }
        } else {
            assert forall|j: int| 0 <= j < k + 1 && j < g[u].len() && 0 <= #[trigger] g[u][j] < g.len() implies finished(
                vis,
                stk,
                g[u][j],
            ) by {
            }
            lemma_children_ranks(g, fuel, u, k + 1, vis, stk, rank, t)
        }
    }
}

/// Every node has a rank, above the ranks of its children.
pub open spec fn fully_ranked(g: Seq<Seq<int>>, rank: Map<int, int>) -> bool {
    forall|x: int|
        0 <= x < g.len() ==> #[trigger] rank.contains_key(x) && forall|c: int| #[trigger]
            edge(g, x, c) ==> rank.contains_key(c) && rank[c] < rank[x]
}

/// When no search from the `i`-th node on finds a cycle, all nodes end up
/// finished and ranked.
proof fn lemma_roots_rank(
    g: Seq<Seq<int>>,
    i: int,
    vis: Seq<bool>,
    stk: Seq<bool>,
    rank: Map<int, int>,
    t: int,
) -> (out: Map<int, int>)
    requires
        0 <= i <= g.len(),
        vis.len() == g.len(),
        stk.len() == g.len(),
        forall|x: int| 0 <= x < g.len() ==> !(#[trigger] stk[x]),
        forall|x: int| 0 <= x < i ==> #[trigger] vis[x],
        rank_inv(g, vis, stk, rank, t),
    ensures
        cycle_roots(g, g.len() + 1, i, vis, stk) == Seq::<int>::empty() ==> fully_ranked(g, out),
    decreases g.len() - i,
{
    if i == g.len() {
        assert forall|x: int| 0 <= x < g.len() implies #[trigger] rank.contains_key(x) && forall|c: int| #[trigger]
            edge(g, x, c) ==> rank.contains_key(c) && rank[c] < rank[x] by {
            assert(finished(vis, stk, x));
            assert(node_ranked(g, vis, stk, rank, t, x));
        }
        rank
    } else if vis[i] {
        lemma_roots_rank(g, i + 1, vis, stk, rank, t)
    } else {
        lemma_count_false_le_len(vis);
        let o = lemma_dfs_ranks(g, g.len() + 1, i, vis, stk, rank, t);
        let res = dfs(g, g.len() + 1, i, vis, stk);
        assert(cycle_roots(g, g.len() + 1, i, vis, stk) == (if res.0 {
            seq![i]
        } else {
            Seq::<int>::empty()
        }) + cycle_roots(g, g.len() + 1, i + 1, res.1, res.2));
        if !res.0 {
            assert forall|x: int| 0 <= x < i + 1 implies #[trigger] res.1[x] by {
                if x < i {
                    assert(vis[x]);
                }
            }
            let out = lemma_roots_rank(g, i + 1, res.1, res.2, o.0, o.1);
            assert(Seq::<int>::empty() + cycle_roots(g, g.len() + 1, i + 1, res.1, res.2)
                =~= cycle_roots(g, g.len() + 1, i + 1, res.1, res.2));
            out
        } else {
            assert((seq![i] + cycle_roots(g, g.len() + 1, i + 1, res.1, res.2)).len() > 0);
            rank
        }
    }
}

/// Along a path, ranks fall at every step.
proof fn lemma_path_ranks(g: Seq<Seq<int>>, p: Seq<int>, rank: Map<int, int>, j: int)
    requires
        is_path(g, p),
        1 <= j < p.len(),
        fully_ranked(g, rank),
    ensures
        rank[p[j]] < rank[p[0]],
    decreases j,
{
    let q = j - 1;
    assert(edge(g, p[q], p[q + 1]));
    assert(0 <= p[q] < g.len());
    assert(rank.contains_key(p[q]));
    if j > 1 {
        lemma_path_ranks(g, p, rank, j - 1);
    }
}

/// Law: when the parent-child graph of a document has a cycle, validation
/// reports a circular hierarchy.
pub proof fn law_cyclic_hierarchy_reported<V>(d: DocView<V>)
    requires
        has_cycle_graph(child_graph(d)),
    ensures
        cycle_issues(d).len() > 0,
{
    let g = child_graph(d);
    let none = Seq::new(d.nodes.len(), |i: int| false);
    assert(rank_inv(g, none, none, Map::empty(), 0));
    let rank = lemma_roots_rank(g, 0, none, none, Map::empty(), 0);
    if cycle_roots(g, g.len() + 1, 0, none, none) == Seq::<int>::empty() {
        let p = choose|p: Seq<int>| #[trigger] is_path(g, p) && p.len() >= 2 && p[0] == p.last();
        lemma_path_ranks(g, p, rank, p.len() - 1);
    }
}

/// The range warnings of a node are among those of any longer prefix of
/// nodes.
proof fn lemma_range_warning_within<V>(d: DocView<V>, i: int, k: int, w: WarningView)
    requires
        0 <= i < k,
        range_warning(d, i).contains(w),
    ensures
        range_warnings(d, k).contains(w),
    decreases k,
{
    let before = range_warnings(d, k - 1);
    let last = range_warning(d, k - 1);
    assert(range_warnings(d, k) == before + last);
    if i == k - 1 {
        let j = choose|j: int| 0 <= j < last.len() && last[j] == w;
        assert((before + last)[before.len() + j] == w);
    } else {
        lemma_range_warning_within(d, i, k - 1, w);
        let j = choose|j: int| 0 <= j < before.len() && before[j] == w;
        assert((before + last)[j] == w);
    }
}

/// Law: every node whose minimum width or height exceeds its maximum gets a
/// `MIN_EXCEEDS_MAX` warning at its layout sizing, naming both values.
pub proof fn law_min_exceeds_max_warned<V>(d: DocView<V>, i: int)
    requires
        0 <= i < d.nodes.len(),
    ensures
        d.nodes[i].width_excess matches Some((min, max)) ==> validation_warnings(d).contains(
            WarningView {
                path: "nodes["@ + decimal(i as nat) + "].layout_sizing.min_width/max_width"@,
                code: "MIN_EXCEEDS_MAX"@,
                message: "min_width ("@ + min + ") exceeds max_width ("@ + max + ")"@,
            },
        ),
        d.nodes[i].height_excess matches Some((min, max)) ==> validation_warnings(d).contains(
            WarningView {
                path: "nodes["@ + decimal(i as nat) + "].layout_sizing.min_height/max_height"@,
                code: "MIN_EXCEEDS_MAX"@,
                message: "min_height ("@ + min + ") exceeds max_height ("@ + max + ")"@,
            },
        ),
{
    let n = d.nodes.len() as int;
    let rw = range_warning(d, i);
    let all = validation_warnings(d);
    let head = range_warnings(d, n);
    assert(all == head + cmyk_warnings(d, n));
    if let Some((min, max)) = d.nodes[i].width_excess {
        let w = WarningView {
            path: "nodes["@ + decimal(i as nat) + "].layout_sizing.min_width/max_width"@,
            code: "MIN_EXCEEDS_MAX"@,
            message: "min_width ("@ + min + ") exceeds max_width ("@ + max + ")"@,
        };
        assert(rw[0] == w);
        lemma_range_warning_within(d, i, n, w);
        let j = choose|j: int| 0 <= j < head.len() && head[j] == w;
        assert(all[j] == w);
    }
    if let Some((min, max)) = d.nodes[i].height_excess {
        let w = WarningView {
            path: "nodes["@ + decimal(i as nat) + "].layout_sizing.min_height/max_height"@,
            code: "MIN_EXCEEDS_MAX"@,
            message: "min_height ("@ + min + ") exceeds max_height ("@ + max + ")"@,
        };
        assert(rw[rw.len() - 1] == w);
        lemma_range_warning_within(d, i, n, w);
        let j = choose|j: int| 0 <= j < head.len() && head[j] == w;
        assert(all[j] == w);
    }
}

} // verus!
