//! The structure summary of a document that `inspect` reports: its name,
//! version, color space, node count, canvas roots, the node tree under each
//! root, and its token collections.
use vstd::prelude::*;
use vstd::string::StringExecFns;
use crate::document::{Version, WorkingColorSpace};
use crate::seqs::{last_index, last_index_before};
use crate::text::{decimal, str_eq};
use crate::tokens::{CollectionView, DesignTokens, TokenCollection};

verus! {

broadcast use vstd::seq_lib::group_seq_properties;

/// What the summary reads of a node: identifier, name, kind name and child
/// references (empty for kinds without children).
#[derive(Debug, Clone)]
pub struct InspectIn {
    pub stable_id: String,
    pub name: String,
    pub kind: String,
    pub children: Vec<String>,
}

/// A node of the summary tree: the node's position in the document, its
/// identifier, name and kind name, and the trees of its children.
#[derive(Debug)]
pub struct InspectNode {
    pub index: usize,
    pub stable_id: String,
    pub name: String,
    pub kind: String,
    pub children: Vec<InspectNode>,
}

/// The token part of the summary: collection names and the number of tokens.
#[derive(Debug)]
pub struct TokensSummary {
    pub collections: Vec<String>,
    pub total_tokens: usize,
}

/// The summary `inspect` reports.
#[derive(Debug)]
pub struct InspectSummary {
    pub name: String,
    pub format_version: String,
    pub working_color_space: String,
    pub node_count: usize,
    pub canvas: Vec<String>,
    pub tree: Vec<InspectNode>,
    pub tokens: TokensSummary,
}

/// The identifiers of the nodes, in order.
pub open spec fn in_ids(nodes: Seq<InspectIn>) -> Seq<Seq<char>> {
    nodes.map_values(|n: InspectIn| n.stable_id@)
}

/// The position of the node an identifier names: the last node with it.
pub open spec fn named(nodes: Seq<InspectIn>, s: Seq<char>) -> Option<int> {
    last_index(in_ids(nodes), s)
}

/// The positions of the nodes a list of references names, in order,
/// skipping references that name no node.
pub open spec fn positions(nodes: Seq<InspectIn>, refs: Seq<Seq<char>>) -> Seq<int> {
    refs.filter_map(|s: Seq<char>| named(nodes, s))
}

/// The positions of the children of node `j` that name a node.
pub open spec fn child_positions(nodes: Seq<InspectIn>, j: int) -> Seq<int> {
    positions(nodes, nodes[j].children@.map_values(|s: String| s@))
}

/// The tree under node `j` is at most `fuel` levels deep (the summary is
/// built by recursion down the child references, which ends exactly when
/// some such bound exists).
pub open spec fn ends_within(nodes: Seq<InspectIn>, j: int, fuel: nat) -> bool
    decreases fuel,
{
    let cp = child_positions(nodes, j);
    fuel > 0 && forall|i: int|
        0 <= i < cp.len() ==> ends_within(nodes, #[trigger] cp[i], (fuel - 1) as nat)
}

/// `t` is the summary tree of node `j`, down to `fuel` levels.
pub open spec fn tree_matches(t: InspectNode, nodes: Seq<InspectIn>, j: int, fuel: nat) -> bool
    decreases fuel,
{
    let cp = child_positions(nodes, j);
    &&& t.index == j
    &&& t.stable_id@ == nodes[j].stable_id@
    &&& t.name@ == nodes[j].name@
    &&& t.kind@ == nodes[j].kind@
    &&& t.children@.len() == cp.len()
    &&& fuel > 0 ==> forall|i: int|
        0 <= i < cp.len() ==> tree_matches(#[trigger] t.children@[i], nodes, cp[i], (fuel - 1) as nat)
}

/// A depth bound of the tree under node `j`, when there is one.
pub open spec fn depth_bound(nodes: Seq<InspectIn>, j: int) -> nat {
    choose|f: nat| ends_within(nodes, j, f)
}

/// `t` is the whole summary tree of node `j`.
pub open spec fn is_tree_of(t: InspectNode, nodes: Seq<InspectIn>, j: int) -> bool {
    tree_matches(t, nodes, j, depth_bound(nodes, j))
}

/// The serialized name of a working color space.
pub open spec fn space_name(s: WorkingColorSpace) -> Seq<char> {
    match s {
        WorkingColorSpace::Srgb => "srgb"@,
        WorkingColorSpace::DisplayP3 => "display-p3"@,
        WorkingColorSpace::AdobeRgb => "adobe-rgb"@,
        WorkingColorSpace::ProPhotoRgb => "pro-photo-rgb"@,
    }
}

/// Number of tokens over a sequence of collections.
pub open spec fn total_tokens<V>(cols: Seq<CollectionView<V>>) -> nat
    decreases cols.len(),
{
    if cols.len() == 0 {
        0
    } else {
        total_tokens(cols.drop_last()) + cols.last().tokens.len()
    }
}

/// Position of the node that identifier `s` names, if any.
fn position_of(nodes: &Vec<InspectIn>, s: &str) -> (r: Option<usize>)
    ensures
        match r {
            Some(k) => named(nodes@, s@) == Some(k as int) && k < nodes@.len(),
            None => named(nodes@, s@) is None,
        },
{
    let ghost ids = in_ids(nodes@);
    let mut found: Option<usize> = None;
    let mut j: usize = 0;
    while j < nodes.len()
        invariant
            0 <= j <= nodes@.len(),
            ids == in_ids(nodes@),
            ids.len() == nodes@.len(),
            match found {
                Some(f) => last_index_before(ids, s@, j as int) == Some(f as int) && f < j,
                None => last_index_before(ids, s@, j as int) is None,
            },
        decreases nodes@.len() - j,
    {
        if str_eq(nodes[j].stable_id.as_str(), s) {
            found = Some(j);
        }
        j += 1;
    }
    found
}

/// The summary tree of node `j`.
fn build_tree_node(nodes: &Vec<InspectIn>, j: usize, Ghost(fuel): Ghost<nat>) -> (r: InspectNode)
    requires
        j < nodes@.len(),
        ends_within(nodes@, j as int, fuel),
    ensures
        tree_matches(r, nodes@, j as int, fuel),
    decreases fuel,
{
    proof {
        reveal_with_fuel(tree_matches, 2);
        reveal_with_fuel(ends_within, 2);
    }
    let node = &nodes[j];
    let ghost refs = node.children@.map_values(|s: String| s@);
    let ghost f = |s: Seq<char>| named(nodes@, s);
    let ghost cp = child_positions(nodes@, j as int);
    let mut children: Vec<InspectNode> = Vec::new();
    let mut i: usize = 0;
    while i < node.children.len()
        invariant
            0 <= i <= node.children@.len(),
            j < nodes@.len(),
            node == &nodes@[j as int],
            fuel > 0,
            ends_within(nodes@, j as int, fuel),
            refs == node.children@.map_values(|s: String| s@),
            f == (|s: Seq<char>| named(nodes@, s)),
            cp == child_positions(nodes@, j as int),
            cp == refs.filter_map(f),
            children@.len() == refs.take(i as int).filter_map(f).len(),
            forall|m: int| 0 <= m < children@.len() ==> tree_matches(
                #[trigger] children@[m],
                nodes@,
                refs.take(i as int).filter_map(f)[m],
                (fuel - 1) as nat,
            ),
        decreases node.children@.len() - i,
    {
        let ghost before = refs.take(i as int).filter_map(f);
        assert(refs.take(i as int + 1).drop_last() =~= refs.take(i as int));
        assert(refs.take(i as int + 1).last() == node.children@[i as int]@);
        match position_of(nodes, node.children[i].as_str()) {
            Some(k) => {
                proof {
                    assert(refs.take(i as int + 1).filter_map(f) == before + seq![k as int]);
                    assert(refs.filter_map(f) == (refs.take(i as int + 1) + refs.skip(i as int + 1)).filter_map(f)) by {
                        assert(refs =~= refs.take(i as int + 1) + refs.skip(i as int + 1));
                    }
                    lemma_filter_map_prefix(refs, f, i as int + 1);
                    assert(refs.take(i as int + 1).filter_map(f)[before.len() as int] == k as int);
                    assert(cp[before.len() as int] == k as int);
                    assert(ends_within(nodes@, cp[before.len() as int], (fuel - 1) as nat));
                }
                let t = build_tree_node(nodes, k, Ghost((fuel - 1) as nat));
                let ghost old_children = children@;
                children.push(t);
                proof {
                    assert forall|m: int| 0 <= m < children@.len() implies #[trigger] tree_matches(
                        children@[m],
                        nodes@,
                        refs.take(i as int + 1).filter_map(f)[m],
                        (fuel - 1) as nat,
                    ) by {
                        if m < old_children.len() {
                            assert(children@[m] == old_children[m]);
                        }
                    }
                }
            },
            None => {
                assert(refs.take(i as int + 1).filter_map(f) == before);
            },
        }
        i += 1;
    }
    assert(refs.take(i as int) =~= refs);
    assert(refs.take(i as int).filter_map(f) == cp);
    assert forall|m: int| 0 <= m < cp.len() implies tree_matches(
        #[trigger] children@[m],
        nodes@,
        cp[m],
        (fuel - 1) as nat,
    ) by {
        assert(refs.take(i as int).filter_map(f)[m] == cp[m]);
    }
    InspectNode {
        index: j,
        stable_id: node.stable_id.clone(),
        name: node.name.clone(),
        kind: node.kind.clone(),
        children,
    }
}

/// The positions a prefix of references names are the first of those the
/// whole list names.
proof fn lemma_filter_map_prefix(refs: Seq<Seq<char>>, f: spec_fn(Seq<char>) -> Option<int>, k: int)
    requires
        0 <= k <= refs.len(),
    ensures
        refs.take(k).filter_map(f).len() <= refs.filter_map(f).len(),
        forall|m: int|
            0 <= m < refs.take(k).filter_map(f).len() ==> #[trigger] refs.take(k).filter_map(f)[m]
                == refs.filter_map(f)[m],
    decreases refs.len() - k,
{
    if k < refs.len() {
        lemma_filter_map_prefix(refs, f, k + 1);
        assert(refs.take(k + 1).drop_last() =~= refs.take(k));
        assert(refs.take(k + 1).last() == refs[k]);
        let a = refs.take(k).filter_map(f);
        let b = refs.take(k + 1).filter_map(f);
        assert(b == match f(refs[k]) {
            Some(x) => a + seq![x],
            None => a,
        });
        assert forall|m: int| 0 <= m < a.len() implies #[trigger] a[m] == refs.filter_map(f)[m] by {
            assert(a[m] == b[m]);
        }
    } else {
        assert(refs.take(k) =~= refs);
    }
}

/// The texts of a list of strings.
pub open spec fn texts(v: Seq<String>) -> Seq<Seq<char>> {
    v.map_values(|s: String| s@)
}

/// The positions of the canvas roots that name a node, in order.
pub open spec fn root_positions(nodes: Seq<InspectIn>, canvas: Seq<String>) -> Seq<int> {
    positions(nodes, texts(canvas))
}

/// The tree under node `j` ends: it reaches no reference cycle.
pub open spec fn tree_ends(nodes: Seq<InspectIn>, j: int) -> bool {
    exists|f: nat| ends_within(nodes, j, f)
}

/// The tree under every canvas root ends.
pub open spec fn roots_end(nodes: Seq<InspectIn>, canvas: Seq<String>) -> bool {
    forall|m: int|
        0 <= m < root_positions(nodes, canvas).len() ==> tree_ends(
            nodes,
            #[trigger] root_positions(nodes, canvas)[m],
        )
}

/// Whether the tree under node `j` ends within `fuel` levels. The summary
/// follows child references without bound, so a document whose canvas
/// reaches a reference cycle has no summary; this is the check for it.
pub fn tree_ends_within(nodes: &Vec<InspectIn>, j: usize, fuel: usize) -> (r: bool)
    requires
        j < nodes@.len(),
    ensures
        r == ends_within(nodes@, j as int, fuel as nat),
    decreases fuel,
{
    if fuel == 0 {
        return false;
    }
    let node = &nodes[j];
    let ghost refs = texts(node.children@);
    let ghost f = |s: Seq<char>| named(nodes@, s);
    let ghost cp = child_positions(nodes@, j as int);
    assert(cp == refs.filter_map(f));
    let mut i: usize = 0;
    while i < node.children.len()
        invariant
            0 <= i <= node.children@.len(),
            j < nodes@.len(),
            node == &nodes@[j as int],
            fuel > 0,
            refs == texts(node.children@),
            f == (|s: Seq<char>| named(nodes@, s)),
            cp == child_positions(nodes@, j as int),
            cp == refs.filter_map(f),
            forall|m: int|
                0 <= m < refs.take(i as int).filter_map(f).len() ==> ends_within(
                    nodes@,
                    #[trigger] refs.take(i as int).filter_map(f)[m],
                    (fuel - 1) as nat,
                ),
        decreases node.children@.len() - i,
    {
        let ghost before = refs.take(i as int).filter_map(f);
        assert(refs.take(i as int + 1).drop_last() =~= refs.take(i as int));
        assert(refs.take(i as int + 1).last() == node.children@[i as int]@);
        match position_of(nodes, node.children[i].as_str()) {
            Some(k) => {
                let ghost after = refs.take(i as int + 1).filter_map(f);
                proof {
                    assert(after == before + seq![k as int]);
                    lemma_filter_map_prefix(refs, f, i as int + 1);
                    assert(after[before.len() as int] == k as int);
                    assert(cp[before.len() as int] == k as int);
                }
                if !tree_ends_within(nodes, k, fuel - 1) {
                    assert(!ends_within(nodes@, cp[before.len() as int], (fuel - 1) as nat));
                    return false;
                }
                assert forall|m: int| 0 <= m < after.len() implies ends_within(
                    nodes@,
                    #[trigger] after[m],
                    (fuel - 1) as nat,
                ) by {
                    if m < before.len() {
                        assert(after[m] == before[m]);
                    }
                }
            },
            None => {
                assert(refs.take(i as int + 1).filter_map(f) == before);
            },
        }
        i += 1;
    }
    assert(refs.take(i as int) =~= refs);
    assert forall|m: int| 0 <= m < cp.len() implies ends_within(
        nodes@,
        #[trigger] cp[m],
        (fuel - 1) as nat,
    ) by {
        assert(refs.take(i as int).filter_map(f)[m] == cp[m]);
    }
    true
}

/// Whether the tree under every canvas root that names a node ends within
/// `fuel` levels. A tree that ends at all ends within one level more than
/// there are nodes, so that many levels decide whether the summary exists.
pub fn canvas_trees_end_within(nodes: &Vec<InspectIn>, canvas: &Vec<String>, fuel: usize) -> (r:
    bool)
    ensures
        r == forall|m: int|
            0 <= m < root_positions(nodes@, canvas@).len() ==> ends_within(
                nodes@,
                #[trigger] root_positions(nodes@, canvas@)[m],
                fuel as nat,
            ),
        r ==> roots_end(nodes@, canvas@),
{
    let ghost refs = texts(canvas@);
    let ghost f = |s: Seq<char>| named(nodes@, s);
    let ghost roots = root_positions(nodes@, canvas@);
    assert(roots == refs.filter_map(f));
    let mut i: usize = 0;
    while i < canvas.len()
        invariant
            0 <= i <= canvas@.len(),
            refs == texts(canvas@),
            f == (|s: Seq<char>| named(nodes@, s)),
            roots == root_positions(nodes@, canvas@),
            roots == refs.filter_map(f),
            forall|m: int|
                0 <= m < refs.take(i as int).filter_map(f).len() ==> ends_within(
                    nodes@,
                    #[trigger] refs.take(i as int).filter_map(f)[m],
                    fuel as nat,
                ),
        decreases canvas@.len() - i,
    {
        let ghost before = refs.take(i as int).filter_map(f);
        assert(refs.take(i as int + 1).drop_last() =~= refs.take(i as int));
        assert(refs.take(i as int + 1).last() == canvas@[i as int]@);
        match position_of(nodes, canvas[i].as_str()) {
            Some(k) => {
                let ghost after = refs.take(i as int + 1).filter_map(f);
                proof {
                    assert(after == before + seq![k as int]);
                    lemma_filter_map_prefix(refs, f, i as int + 1);
                    assert(after[before.len() as int] == k as int);
                    assert(roots[before.len() as int] == k as int);
                }
                if !tree_ends_within(nodes, k, fuel) {
                    assert(!ends_within(nodes@, roots[before.len() as int], fuel as nat));
                    return false;
                }
                assert forall|m: int| 0 <= m < after.len() implies ends_within(
                    nodes@,
                    #[trigger] after[m],
                    fuel as nat,
                ) by {
                    if m < before.len() {
                        assert(after[m] == before[m]);
                    }
                }
            },
            None => {
                assert(refs.take(i as int + 1).filter_map(f) == before);
            },
        }
        i += 1;
    }
    assert(refs.take(i as int) =~= refs);
    assert forall|m: int| 0 <= m < roots.len() implies ends_within(
        nodes@,
        #[trigger] roots[m],
        fuel as nat,
    ) by {
        assert(refs.take(i as int).filter_map(f)[m] == roots[m]);
    }
    assert forall|m: int| 0 <= m < roots.len() implies tree_ends(nodes@, #[trigger] roots[m]) by {
        assert(ends_within(nodes@, roots[m], fuel as nat));
    }
    true
}

/// Copy of a list of strings.
fn copy_strings(v: &Vec<String>) -> (r: Vec<String>)
    ensures
        texts(r@) == texts(v@),
{
    let mut r: Vec<String> = Vec::new();
    let mut i: usize = 0;
    while i < v.len()
        invariant
            0 <= i <= v@.len(),
            r@.len() == i,
            forall|m: int| 0 <= m < i ==> #[trigger] r@[m]@ == v@[m]@,
        decreases v@.len() - i,
    {
        r.push(v[i].clone());
        i += 1;
    }
    assert(texts(r@) =~= texts(v@));
    r
}

/// The summary `inspect` prints: the document's name, format version,
/// working color space and node count, its canvas roots, the summary tree
/// of each root that names a node (in canvas order), the names of its
/// token collections and the number of tokens in all of them.
pub fn build_inspect_summary<V>(
    name: &String,
    version: &Version,
    space: WorkingColorSpace,
    nodes: &Vec<InspectIn>,
    canvas: &Vec<String>,
    tokens: &DesignTokens<V>,
) -> (r: InspectSummary)
    requires
        roots_end(nodes@, canvas@),
        total_tokens(tokens@.collections) <= usize::MAX,
    ensures
        r.name@ == name@,
        r.format_version@ == decimal(version.0 as nat) + "."@ + decimal(version.1 as nat) + "."@
            + decimal(version.2 as nat),
        r.working_color_space@ == space_name(space),
        r.node_count == nodes@.len(),
        texts(r.canvas@) == texts(canvas@),
        r.tree@.len() == root_positions(nodes@, canvas@).len(),
        forall|m: int|
            0 <= m < r.tree@.len() ==> is_tree_of(
                #[trigger] r.tree@[m],
                nodes@,
                root_positions(nodes@, canvas@)[m],
            ),
        texts(r.tokens.collections@) == tokens@.collections.map_values(
            |c: CollectionView<V>| c.name,
        ),
        r.tokens.total_tokens == total_tokens(tokens@.collections),
{
    let ghost refs = texts(canvas@);
    let ghost f = |s: Seq<char>| named(nodes@, s);
    let ghost roots = root_positions(nodes@, canvas@);
    assert(roots == refs.filter_map(f));
    let mut tree: Vec<InspectNode> = Vec::new();
    let mut i: usize = 0;
    while i < canvas.len()
        invariant
            0 <= i <= canvas@.len(),
            refs == texts(canvas@),
            f == (|s: Seq<char>| named(nodes@, s)),
            roots == root_positions(nodes@, canvas@),
            roots == refs.filter_map(f),
            roots_end(nodes@, canvas@),
            tree@.len() == refs.take(i as int).filter_map(f).len(),
            forall|m: int|
                0 <= m < tree@.len() ==> is_tree_of(
                    #[trigger] tree@[m],
                    nodes@,
                    refs.take(i as int).filter_map(f)[m],
                ),
        decreases canvas@.len() - i,
    {
        let ghost before = refs.take(i as int).filter_map(f);
        assert(refs.take(i as int + 1).drop_last() =~= refs.take(i as int));
        assert(refs.take(i as int + 1).last() == canvas@[i as int]@);
        match position_of(nodes, canvas[i].as_str()) {
            Some(k) => {
                let ghost after = refs.take(i as int + 1).filter_map(f);
                proof {
                    assert(after == before + seq![k as int]);
                    lemma_filter_map_prefix(refs, f, i as int + 1);
                    assert(after[before.len() as int] == k as int);
                    assert(roots[before.len() as int] == k as int);
                    assert(tree_ends(nodes@, roots[before.len() as int]));
                }
                let ghost bound = depth_bound(nodes@, k as int);
                let t = build_tree_node(nodes, k, Ghost(bound));
                let ghost old_tree = tree@;
                tree.push(t);
                assert forall|m: int| 0 <= m < tree@.len() implies is_tree_of(
                    #[trigger] tree@[m],
                    nodes@,
                    after[m],
                ) by {
                    if m < old_tree.len() {
                        assert(tree@[m] == old_tree[m]);
                        assert(after[m] == before[m]);
                    }
                }
            },
            None => {
                assert(refs.take(i as int + 1).filter_map(f) == before);
            },
        }
        i += 1;
    }
    assert(refs.take(i as int) =~= refs);
    assert(refs.take(i as int).filter_map(f) == roots);
    let cols = tokens.collections();
    let ghost cv = tokens@.collections;
    let mut names: Vec<String> = Vec::new();
    let mut total: usize = 0;
    let mut c: usize = 0;
    while c < cols.len()
        invariant
            0 <= c <= cols@.len(),
            cols@.map_values(|x: TokenCollection<V>| x@) == cv,
            total_tokens(cv) <= usize::MAX,
            names@.len() == c,
            forall|m: int| 0 <= m < c ==> #[trigger] names@[m]@ == cv[m].name,
            total == total_tokens(cv.take(c as int)),
        decreases cols@.len() - c,
    {
        assert(cv.take(c as int + 1).drop_last() =~= cv.take(c as int));
        assert(cv[c as int] == cols@[c as int]@);
        proof {
            lemma_total_tokens_prefix(cv, c as int + 1);
        }
        names.push(cols[c].name.clone());
        total = total + cols[c].tokens.len();
        c += 1;
    }
    assert(cv.take(c as int) =~= cv);
    assert(texts(names@) =~= cv.map_values(|x: CollectionView<V>| x.name));
    InspectSummary {
        name: name.clone(),
        format_version: version.to_text(),
        working_color_space: space_text(space),
        node_count: nodes.len(),
        canvas: copy_strings(canvas),
        tree,
        tokens: TokensSummary { collections: names, total_tokens: total },
    }
}

/// The tokens of a prefix of the collections are no more than those of all.
proof fn lemma_total_tokens_prefix<V>(cols: Seq<CollectionView<V>>, k: int)
    requires
        0 <= k <= cols.len(),
    ensures
        total_tokens(cols.take(k)) <= total_tokens(cols),
    decreases cols.len() - k,
{
    if k < cols.len() {
        lemma_total_tokens_prefix(cols, k + 1);
        assert(cols.take(k + 1).drop_last() =~= cols.take(k));
    } else {
        assert(cols.take(k) =~= cols);
    }
}

/// The serialized name of a working color space.
pub fn space_text(s: WorkingColorSpace) -> (r: String)
    ensures
        r@ == space_name(s),
{
    match s {
        WorkingColorSpace::Srgb => "srgb".to_string(),
        WorkingColorSpace::DisplayP3 => "display-p3".to_string(),
        WorkingColorSpace::AdobeRgb => "adobe-rgb".to_string(),
        WorkingColorSpace::ProPhotoRgb => "pro-photo-rgb".to_string(),
    }
}

} // verus!
