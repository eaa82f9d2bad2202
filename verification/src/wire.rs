//! The node references of a document between its stored form, where nodes
//! name each other by stable identifier, and its loaded form, where they
//! name each other by arena key (the node's position in the arena).
use vstd::prelude::*;
use crate::errors::WireError;
use crate::node::NodeId;
use crate::seqs::{last_index, last_index_before, lemma_last_index_before};
use crate::text::str_eq;
use crate::validate::{ViewOutline, ViewRefs};

verus! {

broadcast use vstd::seq_lib::group_seq_properties;

/// The references of a stored node: its stable identifier and, for a node
/// that holds children, the stable identifiers of its children.
#[derive(Debug, Clone)]
pub struct NodeRefsWire {
    pub stable_id: String,
    pub children: Option<Vec<String>>,
}

/// The references of a stored document: its nodes in order, its canvas
/// roots and its views.
#[derive(Debug, Clone)]
pub struct DocRefsWire {
    pub nodes: Vec<NodeRefsWire>,
    pub canvas: Vec<String>,
    pub views: Vec<ViewOutline>,
}

/// The references of a loaded node: its stable identifier and, for a node
/// that holds children, the arena keys of its children.
#[derive(Debug, Clone)]
pub struct NodeRefs {
    pub stable_id: String,
    pub children: Option<Vec<NodeId>>,
}

/// The nodes a loaded view refers to.
#[derive(Debug, Clone)]
pub enum ViewNodes {
    Print { pages: Vec<NodeId> },
    Web { root: NodeId },
    Presentation { slides: Vec<NodeId> },
    Export,
}

/// The references of a loaded document: its nodes in arena order, its
/// canvas roots and its views.
#[derive(Debug, Clone)]
pub struct DocRefs {
    pub nodes: Vec<NodeRefs>,
    pub canvas: Vec<NodeId>,
    pub views: Vec<ViewNodes>,
}

// ─── Models ───

/// Model of a sequence of strings.
pub open spec fn names(v: Seq<String>) -> Seq<Seq<char>> {
    v.map_values(|s: String| s@)
}

/// Model of a stored node's references.
pub struct NodeRefsWireView {
    pub id: Seq<char>,
    pub children: Option<Seq<Seq<char>>>,
}

/// Model of a stored document's references.
pub struct DocRefsWireView {
    pub nodes: Seq<NodeRefsWireView>,
    pub canvas: Seq<Seq<char>>,
    pub views: Seq<ViewRefs>,
}

/// Model of a loaded node's references.
pub struct NodeRefsView {
    pub id: Seq<char>,
    pub children: Option<Seq<NodeId>>,
}

/// Model of a loaded view's references.
pub enum ViewKeys {
    Print(Seq<NodeId>),
    Web(NodeId),
    Presentation(Seq<NodeId>),
    Export,
}

/// Model of a loaded document's references.
pub struct DocRefsView {
    pub nodes: Seq<NodeRefsView>,
    pub canvas: Seq<NodeId>,
    pub views: Seq<ViewKeys>,
}

impl View for NodeRefsWire {
    type V = NodeRefsWireView;

    open spec fn view(&self) -> NodeRefsWireView {
        NodeRefsWireView {
            id: self.stable_id@,
            children: match &self.children {
                Some(c) => Some(names(c@)),
                None => None,
            },
        }
    }
}

impl View for DocRefsWire {
    type V = DocRefsWireView;

    open spec fn view(&self) -> DocRefsWireView {
        DocRefsWireView {
            nodes: self.nodes@.map_values(|n: NodeRefsWire| n@),
            canvas: names(self.canvas@),
            views: self.views@.map_values(|v: ViewOutline| v@),
        }
    }
}

impl View for NodeRefs {
    type V = NodeRefsView;

    open spec fn view(&self) -> NodeRefsView {
        NodeRefsView {
            id: self.stable_id@,
            children: match &self.children {
                Some(c) => Some(c@),
                None => None,
            },
        }
    }
}

impl View for ViewNodes {
    type V = ViewKeys;

    open spec fn view(&self) -> ViewKeys {
        match self {
            ViewNodes::Print { pages } => ViewKeys::Print(pages@),
            ViewNodes::Web { root } => ViewKeys::Web(*root),
            ViewNodes::Presentation { slides } => ViewKeys::Presentation(slides@),
            ViewNodes::Export => ViewKeys::Export,
        }
    }
}

impl View for DocRefs {
    type V = DocRefsView;

    open spec fn view(&self) -> DocRefsView {
        DocRefsView {
            nodes: self.nodes@.map_values(|n: NodeRefs| n@),
            canvas: self.canvas@,
            views: self.views@.map_values(|v: ViewNodes| v@),
        }
    }
}

// ─── Loading: identifiers to keys ───

/// The stable identifiers of the stored nodes, in order.
pub open spec fn wire_ids(w: DocRefsWireView) -> Seq<Seq<char>> {
    w.nodes.map_values(|n: NodeRefsWireView| n.id)
}

/// The key an identifier loads as: the position of the last node with that
/// identifier (a later node takes the identifier over).
pub open spec fn key_of(ids: Seq<Seq<char>>, s: Seq<char>) -> NodeId {
    last_index(ids, s)->0 as NodeId
}

/// The first of `refs` that no node has as identifier.
pub open spec fn first_unknown(ids: Seq<Seq<char>>, refs: Seq<Seq<char>>) -> Option<Seq<char>>
    decreases refs.len(),
{
    if refs.len() == 0 {
        None
    } else if last_index(ids, refs[0]) is None {
        Some(refs[0])
    } else {
        first_unknown(ids, refs.drop_first())
    }
}

/// The first unknown reference of a sequence of reference lists.
pub open spec fn first_unknown_in(ids: Seq<Seq<char>>, lists: Seq<Seq<Seq<char>>>) -> Option<
    Seq<char>,
>
    decreases lists.len(),
{
    if lists.len() == 0 {
        None
    } else {
        match first_unknown(ids, lists[0]) {
            Some(s) => Some(s),
            None => first_unknown_in(ids, lists.drop_first()),
        }
    }
}

/// The child references of a stored node (none for a node without children).
pub open spec fn child_list(n: NodeRefsWireView) -> Seq<Seq<char>> {
    match n.children {
        Some(c) => c,
        None => Seq::empty(),
    }
}

/// The references of a stored view.
pub open spec fn view_list(v: ViewRefs) -> Seq<Seq<char>> {
    match v {
        ViewRefs::Print(p) => p,
        ViewRefs::Web(r) => seq![r],
        ViewRefs::Presentation(s) => s,
        ViewRefs::Export => Seq::empty(),
    }
}

/// All reference lists of a stored document, in the order loading reads
/// them: node children in node order, the canvas, then the views.
pub open spec fn reference_lists(w: DocRefsWireView) -> Seq<Seq<Seq<char>>> {
    w.nodes.map_values(|n: NodeRefsWireView| child_list(n)) + seq![w.canvas] + w.views.map_values(
        |v: ViewRefs| view_list(v),
    )
}

/// The keys a list of references loads as.
pub open spec fn keys(ids: Seq<Seq<char>>, refs: Seq<Seq<char>>) -> Seq<NodeId> {
    refs.map_values(|s: Seq<char>| key_of(ids, s))
}

/// A stored view with its references loaded.
pub open spec fn view_keys(ids: Seq<Seq<char>>, v: ViewRefs) -> ViewKeys {
    match v {
        ViewRefs::Print(p) => ViewKeys::Print(keys(ids, p)),
        ViewRefs::Web(r) => ViewKeys::Web(key_of(ids, r)),
        ViewRefs::Presentation(s) => ViewKeys::Presentation(keys(ids, s)),
        ViewRefs::Export => ViewKeys::Export,
    }
}

/// The loaded references of stored node `i`. The node that an identifier
/// names (the last one with it) gets its child references loaded; an
/// earlier node with the same identifier keeps only its identifier and
/// becomes a group with no children.
pub open spec fn loaded_node(ids: Seq<Seq<char>>, w: DocRefsWireView, i: int) -> NodeRefsView {
    let n = w.nodes[i];
    if last_index(ids, n.id) == Some(i) {
        NodeRefsView {
            id: n.id,
            children: match n.children {
                Some(c) => Some(keys(ids, c)),
                None => None,
            },
        }
    } else {
        NodeRefsView { id: n.id, children: Some(Seq::empty()) }
    }
}

/// Loading the references of a stored document: fails with the first
/// reference no node has as identifier; otherwise every identifier becomes
/// the key of the node it names, and each node is loaded by `loaded_node`.
pub open spec fn loaded(w: DocRefsWireView) -> Result<DocRefsView, Seq<char>> {
    let ids = wire_ids(w);
    match first_unknown_in(ids, reference_lists(w)) {
        Some(s) => Err(s),
        None => Ok(
            DocRefsView {
                nodes: Seq::new(w.nodes.len(), |i: int| loaded_node(ids, w, i)),
                canvas: keys(ids, w.canvas),
                views: w.views.map_values(|v: ViewRefs| view_keys(ids, v)),
            },
        ),
    }
}

// ─── Storing: keys to identifiers ───

/// The stable identifiers of the loaded nodes, in arena order.
pub open spec fn arena_ids(d: DocRefsView) -> Seq<Seq<char>> {
    d.nodes.map_values(|n: NodeRefsView| n.id)
}

/// The identifier a key stores as: the identifier of the node at that
/// position, or the empty string for a key of no node.
pub open spec fn name_of(ids: Seq<Seq<char>>, k: NodeId) -> Seq<char> {
    if k < ids.len() {
        ids[k as int]
    } else {
        Seq::empty()
    }
}

/// The identifiers a list of keys stores as.
pub open spec fn names_of(ids: Seq<Seq<char>>, ks: Seq<NodeId>) -> Seq<Seq<char>> {
    ks.map_values(|k: NodeId| name_of(ids, k))
}

/// A loaded view with its keys stored as identifiers.
pub open spec fn view_names(ids: Seq<Seq<char>>, v: ViewKeys) -> ViewRefs {
    match v {
        ViewKeys::Print(p) => ViewRefs::Print(names_of(ids, p)),
        ViewKeys::Web(r) => ViewRefs::Web(name_of(ids, r)),
        ViewKeys::Presentation(s) => ViewRefs::Presentation(names_of(ids, s)),
        ViewKeys::Export => ViewRefs::Export,
    }
}

/// Storing the references of a loaded document: every key becomes the
/// identifier of its node.
pub open spec fn stored(d: DocRefsView) -> DocRefsWireView {
    let ids = arena_ids(d);
    DocRefsWireView {
        nodes: d.nodes.map_values(
            |n: NodeRefsView|
                NodeRefsWireView {
                    id: n.id,
                    children: match n.children {
                        Some(c) => Some(names_of(ids, c)),
                        None => None,
                    },
                },
        ),
        canvas: names_of(ids, d.canvas),
        views: d.views.map_values(|v: ViewKeys| view_names(ids, v)),
    }
}

// ─── Round trips ───

/// A list without unknown references holds only identifiers of nodes.
proof fn lemma_no_unknown(ids: Seq<Seq<char>>, refs: Seq<Seq<char>>)
    ensures
        first_unknown(ids, refs) is None <==> forall|i: int|
            0 <= i < refs.len() ==> #[trigger] last_index(ids, refs[i]) is Some,
    decreases refs.len(),
{
    if refs.len() > 0 {
        lemma_no_unknown(ids, refs.drop_first());
        if first_unknown(ids, refs) is None {
            assert forall|i: int| 0 <= i < refs.len() implies #[trigger] last_index(ids, refs[i]) is Some by {
                if i > 0 {
                    assert(refs[i] == refs.drop_first()[i - 1]);
                }
            }
        } else if forall|i: int| 0 <= i < refs.len() ==> #[trigger] last_index(ids, refs[i]) is Some {
            assert(last_index(ids, refs[0]) is Some);
            assert forall|i: int| 0 <= i < refs.drop_first().len() implies #[trigger] last_index(
                ids,
                refs.drop_first()[i],
            ) is Some by {
                assert(refs.drop_first()[i] == refs[i + 1]);
            }
        }
    }
}

/// A sequence of lists without unknown references has none in any list.
proof fn lemma_no_unknown_in(ids: Seq<Seq<char>>, lists: Seq<Seq<Seq<char>>>)
    ensures
        first_unknown_in(ids, lists) is None <==> forall|i: int|
            0 <= i < lists.len() ==> #[trigger] first_unknown(ids, lists[i]) is None,
    decreases lists.len(),
{
    if lists.len() > 0 {
        lemma_no_unknown_in(ids, lists.drop_first());
        if first_unknown_in(ids, lists) is None {
            assert forall|i: int| 0 <= i < lists.len() implies #[trigger] first_unknown(ids, lists[i]) is None by {
                if i > 0 {
                    assert(lists[i] == lists.drop_first()[i - 1]);
                }
            }
        } else if forall|i: int| 0 <= i < lists.len() ==> #[trigger] first_unknown(ids, lists[i]) is None {
            assert(first_unknown(ids, lists[0]) is None);
            assert forall|i: int| 0 <= i < lists.drop_first().len() implies #[trigger] first_unknown(
                ids,
                lists.drop_first()[i],
            ) is None by {
                assert(lists.drop_first()[i] == lists[i + 1]);
            }
        }
    }
}

/// The key of a known identifier stores as that identifier.
proof fn lemma_name_of_key(ids: Seq<Seq<char>>, s: Seq<char>)
    requires
        last_index(ids, s) is Some,
        ids.len() <= u64::MAX,
    ensures
        name_of(ids, key_of(ids, s)) == s,
{
    lemma_last_index_before(ids, s, ids.len() as int);
    let j = last_index(ids, s)->0;
    assert(0 <= j < ids.len());
    assert((j as NodeId) as int == j);
}

/// Storing the keys of known identifiers gives the identifiers back.
proof fn lemma_names_of_keys(ids: Seq<Seq<char>>, refs: Seq<Seq<char>>)
    requires
        first_unknown(ids, refs) is None,
        ids.len() <= u64::MAX,
    ensures
        names_of(ids, keys(ids, refs)) == refs,
{
    lemma_no_unknown(ids, refs);
    assert forall|i: int| 0 <= i < refs.len() implies #[trigger] names_of(ids, keys(ids, refs))[i]
        == refs[i] by {
        lemma_name_of_key(ids, refs[i]);
    }
    assert(names_of(ids, keys(ids, refs)) =~= refs);
}

/// Law: storing loaded references gives back the stored document they were
/// loaded from, when every node whose identifier a later node takes over
/// holds an empty child list (loading keeps nothing else of such a node).
pub proof fn law_store_after_load(w: DocRefsWireView)
    requires
        loaded(w) is Ok,
        w.nodes.len() <= u64::MAX,
        forall|i: int|
            0 <= i < w.nodes.len() ==> last_index(wire_ids(w), #[trigger] w.nodes[i].id) == Some(i)
                || w.nodes[i].children == Some(Seq::<Seq<char>>::empty()),
    ensures
        stored(loaded(w)->Ok_0) == w,
{
    let ids = wire_ids(w);
    let d = loaded(w)->Ok_0;
    let lists = reference_lists(w);
    let n = w.nodes.len();
    lemma_no_unknown_in(ids, lists);
    assert(arena_ids(d) =~= ids);
    assert forall|i: int| 0 <= i < n implies #[trigger] stored(d).nodes[i] == w.nodes[i] by {
        assert(lists[i] == child_list(w.nodes[i]));
        assert(first_unknown(ids, lists[i]) is None);
        assert(w.nodes[i].id == ids[i]);
        if last_index(ids, w.nodes[i].id) == Some(i) {
            match w.nodes[i].children {
                Some(c) => {
                    lemma_names_of_keys(ids, c);
                },
                None => {},
            }
        } else {
            assert(names_of(ids, Seq::<NodeId>::empty()) =~= Seq::<Seq<char>>::empty());
        }
    }
    assert(stored(d).nodes =~= w.nodes);
    assert(lists[n as int] == w.canvas);
    assert(first_unknown(ids, lists[n as int]) is None);
    lemma_names_of_keys(ids, w.canvas);
    assert forall|j: int| 0 <= j < w.views.len() implies #[trigger] stored(d).views[j] == w.views[j] by {
        assert(lists[n + 1 + j] == view_list(w.views[j]));
        assert(first_unknown(ids, lists[n + 1 + j]) is None);
        match w.views[j] {
            ViewRefs::Print(p) => {
                lemma_names_of_keys(ids, p);
            },
            ViewRefs::Web(r) => {
                lemma_no_unknown(ids, seq![r]);
                assert(seq![r][0] == r);
                lemma_name_of_key(ids, r);
            },
            ViewRefs::Presentation(sl) => {
                lemma_names_of_keys(ids, sl);
            },
            ViewRefs::Export => {},
        }
    }
    assert(stored(d).views =~= w.views);
}

/// The key of the identifier of node `k` is `k` when identifiers are
/// distinct.
proof fn lemma_key_of_name(ids: Seq<Seq<char>>, k: int)
    requires
        ids.no_duplicates(),
        0 <= k < ids.len(),
    ensures
        last_index(ids, ids[k]) == Some(k),
{
    lemma_last_index_before(ids, ids[k], ids.len() as int);
}

/// Keys of nodes store as identifiers that load back as the same keys.
proof fn lemma_keys_of_names(ids: Seq<Seq<char>>, ks: Seq<NodeId>)
    requires
        ids.no_duplicates(),
        forall|i: int| 0 <= i < ks.len() ==> #[trigger] ks[i] < ids.len(),
    ensures
        first_unknown(ids, names_of(ids, ks)) is None,
        keys(ids, names_of(ids, ks)) == ks,
{
    let nm = names_of(ids, ks);
    assert forall|i: int| 0 <= i < nm.len() implies #[trigger] last_index(ids, nm[i]) is Some by {
        lemma_key_of_name(ids, ks[i] as int);
    }
    lemma_no_unknown(ids, nm);
    assert forall|i: int| 0 <= i < ks.len() implies #[trigger] keys(ids, nm)[i] == ks[i] by {
        lemma_key_of_name(ids, ks[i] as int);
    }
    assert(keys(ids, nm) =~= ks);
}

/// Every key of a loaded document names a node.
pub open spec fn keys_in_arena(d: DocRefsView) -> bool {
    let n = d.nodes.len();
    &&& forall|i: int, j: int|
        #![trigger d.nodes[i].children->0[j]]
        0 <= i < n && d.nodes[i].children is Some && 0 <= j < d.nodes[i].children->0.len()
            ==> d.nodes[i].children->0[j] < n
    &&& forall|j: int| 0 <= j < d.canvas.len() ==> #[trigger] d.canvas[j] < n
    &&& forall|j: int|
        0 <= j < d.views.len() ==> match #[trigger] d.views[j] {
            ViewKeys::Print(p) => forall|m: int| 0 <= m < p.len() ==> #[trigger] p[m] < n,
            ViewKeys::Web(r) => r < n,
            ViewKeys::Presentation(sl) => forall|m: int| 0 <= m < sl.len() ==> #[trigger] sl[m] < n,
            ViewKeys::Export => true,
        }
}

/// Law: loading stored references gives back the loaded document they were
/// stored from, when its nodes have distinct identifiers and every key names
/// a node.
pub proof fn law_load_after_store(d: DocRefsView)
    requires
        arena_ids(d).no_duplicates(),
        keys_in_arena(d),
    ensures
        loaded(stored(d)) == Ok::<DocRefsView, Seq<char>>(d),
{
    let ids = arena_ids(d);
    let w = stored(d);
    let n = d.nodes.len();
    assert(wire_ids(w) =~= ids);
    let lists = reference_lists(w);
    assert forall|i: int| 0 <= i < lists.len() implies #[trigger] first_unknown(ids, lists[i]) is None by {
        if i < n {
            assert(lists[i] == child_list(w.nodes[i]));
            match d.nodes[i].children {
                Some(c) => {
                    assert forall|j: int| 0 <= j < c.len() implies #[trigger] c[j] < ids.len() by {
                        assert(d.nodes[i].children->0[j] < n);
                    }
                    lemma_keys_of_names(ids, c);
                },
                None => {
                    lemma_no_unknown(ids, Seq::empty());
                },
            }
        } else if i == n {
            lemma_keys_of_names(ids, d.canvas);
        } else {
            let j = i - n - 1;
            assert(lists[i] == view_list(w.views[j]));
            match d.views[j] {
                ViewKeys::Print(p) => {
                    lemma_keys_of_names(ids, p);
                },
                ViewKeys::Web(r) => {
                    lemma_key_of_name(ids, r as int);
                    lemma_no_unknown(ids, seq![ids[r as int]]);
                },
                ViewKeys::Presentation(sl) => {
                    lemma_keys_of_names(ids, sl);
                },
                ViewKeys::Export => {
                    lemma_no_unknown(ids, Seq::empty());
                },
            }
        }
    }
    lemma_no_unknown_in(ids, lists);
    let d2 = loaded(w)->Ok_0;
    assert forall|i: int| 0 <= i < n implies #[trigger] d2.nodes[i] == d.nodes[i] by {
        lemma_key_of_name(ids, i);
        assert(w.nodes[i].id == ids[i]);
        match d.nodes[i].children {
            Some(c) => {
                assert forall|j: int| 0 <= j < c.len() implies #[trigger] c[j] < ids.len() by {
                    assert(d.nodes[i].children->0[j] < n);
                }
                lemma_keys_of_names(ids, c);
            },
            None => {},
        }
    }
    assert(d2.nodes =~= d.nodes);
    lemma_keys_of_names(ids, d.canvas);
    assert forall|j: int| 0 <= j < d.views.len() implies #[trigger] d2.views[j] == d.views[j] by {
        match d.views[j] {
            ViewKeys::Print(p) => {
                lemma_keys_of_names(ids, p);
            },
            ViewKeys::Web(r) => {
                lemma_key_of_name(ids, r as int);
            },
            ViewKeys::Presentation(sl) => {
                lemma_keys_of_names(ids, sl);
            },
            ViewKeys::Export => {},
        }
    }
    assert(d2.views =~= d.views);
}

// ─── Executable loading and storing ───

/// When the first lists have no unknown reference, the first unknown
/// reference is that of the remaining lists.
proof fn lemma_first_unknown_skip(ids: Seq<Seq<char>>, lists: Seq<Seq<Seq<char>>>, i: int)
    requires
        0 <= i <= lists.len(),
        forall|j: int| 0 <= j < i ==> #[trigger] first_unknown(ids, lists[j]) is None,
    ensures
        first_unknown_in(ids, lists) == first_unknown_in(ids, lists.skip(i)),
    decreases i,
{
    if i > 0 {
        assert(first_unknown(ids, lists[0]) is None);
        assert forall|j: int| 0 <= j < i - 1 implies #[trigger] first_unknown(
            ids,
            lists.drop_first()[j],
        ) is None by {
            assert(lists.drop_first()[j] == lists[j + 1]);
        }
        lemma_first_unknown_skip(ids, lists.drop_first(), i - 1);
        assert(lists.drop_first().skip(i - 1) =~= lists.skip(i));
    }
}

/// The arena key of the node that identifier `s` names, if any.
fn key_for(ids: &Vec<String>, s: &str) -> (r: Option<NodeId>)
    ensures
        match r {
            Some(k) => last_index(names(ids@), s@) is Some && k == key_of(names(ids@), s@),
            None => last_index(names(ids@), s@) is None,
        },
{
    let ghost nm = names(ids@);
    let mut found: Option<usize> = None;
    let mut j: usize = 0;
    while j < ids.len()
        invariant
            0 <= j <= ids@.len(),
            nm == names(ids@),
            nm.len() == ids@.len(),
            match found {
                Some(f) => last_index_before(nm, s@, j as int) == Some(f as int),
                None => last_index_before(nm, s@, j as int) is None,
            },
        decreases ids@.len() - j,
    {
        if str_eq(ids[j].as_str(), s) {
            found = Some(j);
        }
        j += 1;
    }
    match found {
        Some(k) => Some(k as NodeId),
        None => None,
    }
}

/// The keys of a list of references, or the first reference that names no
/// node.
fn keys_for(ids: &Vec<String>, refs: &Vec<String>) -> (r: Result<Vec<NodeId>, String>)
    ensures
        match r {
            Ok(v) => first_unknown(names(ids@), names(refs@)) is None && v@ == keys(
                names(ids@),
                names(refs@),
            ),
            Err(s) => first_unknown(names(ids@), names(refs@)) == Some(s@),
        },
{
    let ghost nm = names(ids@);
    let ghost rs = names(refs@);
    let mut out: Vec<NodeId> = Vec::new();
    let mut i: usize = 0;
    while i < refs.len()
        invariant
            0 <= i <= refs@.len(),
            nm == names(ids@),
            rs == names(refs@),
            rs.len() == refs@.len(),
            first_unknown(nm, rs) == first_unknown(nm, rs.skip(i as int)),
            out@ == keys(nm, rs.take(i as int)),
        decreases refs@.len() - i,
    {
        let ghost rest = rs.skip(i as int);
        assert(rest[0] == refs@[i as int]@);
        assert(rest.drop_first() =~= rs.skip(i as int + 1));
        match key_for(ids, refs[i].as_str()) {
            Some(k) => {
                out.push(k);
                assert(keys(nm, rs.take(i as int + 1)) =~= keys(nm, rs.take(i as int)).push(k));
            },
            None => {
                return Err(refs[i].clone());
            },
        }
        i += 1;
    }
    assert(rs.skip(i as int) =~= Seq::<Seq<char>>::empty());
    assert(rs.take(i as int) =~= rs);
    Ok(out)
}

/// The stable identifier that key `k` stores as.
fn name_for(ids: &Vec<String>, k: NodeId) -> (r: String)
    ensures
        r@ == name_of(names(ids@), k),
{
    if k < ids.len() as NodeId {
        ids[k as usize].clone()
    } else {
        String::new()
    }
}

/// The stable identifiers a list of keys stores as.
fn names_for(ids: &Vec<String>, ks: &Vec<NodeId>) -> (r: Vec<String>)
    ensures
        names(r@) == names_of(names(ids@), ks@),
{
    let mut out: Vec<String> = Vec::new();
    let mut i: usize = 0;
    while i < ks.len()
        invariant
            0 <= i <= ks@.len(),
            names(out@) == names_of(names(ids@), ks@.take(i as int)),
        decreases ks@.len() - i,
    {
        let s = name_for(ids, ks[i]);
        let ghost before = out@;
        out.push(s);
        assert(names(out@) =~= names_of(names(ids@), ks@.take(i as int + 1))) by {
            assert(names(out@) =~= names(before).push(s@));
        }
        i += 1;
    }
    assert(ks@.take(i as int) =~= ks@);
    out
}

impl DocRefsWire {
    /// The stable identifiers of the nodes, in order.
    fn id_list(&self) -> (r: Vec<String>)
        ensures
            names(r@) == wire_ids(self@),
    {
        let mut out: Vec<String> = Vec::new();
        let mut i: usize = 0;
        while i < self.nodes.len()
            invariant
                0 <= i <= self.nodes@.len(),
                names(out@) == wire_ids(self@).take(i as int),
            decreases self.nodes@.len() - i,
        {
            let ghost before = out@;
            out.push(self.nodes[i].stable_id.clone());
            assert(names(out@) =~= wire_ids(self@).take(i as int + 1)) by {
                assert(names(out@) =~= names(before).push(self.nodes@[i as int].stable_id@));
            }
            i += 1;
        }
        assert(wire_ids(self@).take(i as int) =~= wire_ids(self@));
        out
    }

    /// Load the references: every stable identifier becomes the arena key of
    /// the (last) node with that identifier; fails with `UnknownReference`
    /// at the first reference, in node order, then canvas, then views, that
    /// no node has as identifier.
    pub fn into_document(&self) -> (r: Result<DocRefs, WireError>)
        ensures
            match r {
                Ok(d) => loaded(self@) == Ok::<DocRefsView, Seq<char>>(d@),
                Err(WireError::UnknownReference(s)) => loaded(self@) == Err::<DocRefsView, Seq<char>>(
                    s@,
                ),
            },
    {
        let ids = self.id_list();
        let ghost gids = wire_ids(self@);
        let ghost lists = reference_lists(self@);
        let ghost n = self.nodes@.len();
        assert(lists.len() == n + 1 + self.views@.len());
        let mut nodes: Vec<NodeRefs> = Vec::new();
        let mut i: usize = 0;
        while i < self.nodes.len()
            invariant
                0 <= i <= self.nodes@.len(),
                n == self.nodes@.len(),
                names(ids@) == gids,
                gids == wire_ids(self@),
                lists == reference_lists(self@),
                lists.len() == n + 1 + self.views@.len(),
                forall|j: int| 0 <= j < i ==> #[trigger] first_unknown(gids, lists[j]) is None,
                nodes@.len() == i,
                forall|j: int| 0 <= j < i ==> #[trigger] nodes@[j]@ == loaded_node(gids, self@, j),
            decreases self.nodes@.len() - i,
        {
            let node = &self.nodes[i];
            assert(lists[i as int] == child_list(self@.nodes[i as int]));
            let children = match &node.children {
                Some(c) => match keys_for(&ids, c) {
                    Ok(v) => Some(v),
                    Err(s) => {
                        proof {
                            lemma_first_unknown_skip(gids, lists, i as int);
                            assert(lists.skip(i as int)[0] == lists[i as int]);
                        }
                        return Err(WireError::UnknownReference(s));
                    },
                },
                None => {
                    assert(first_unknown(gids, lists[i as int]) is None);
                    None
                },
            };
            let own = key_for(&ids, node.stable_id.as_str());
            proof {
                assert(gids[i as int] == node.stable_id@);
                lemma_last_index_before(gids, node.stable_id@, n as int);
            }
            let kept = match own {
                Some(k) => k == i as NodeId,
                None => false,
            };
            let children = if kept {
                children
            } else {
                let empty: Vec<NodeId> = Vec::new();
                Some(empty)
            };
            nodes.push(NodeRefs { stable_id: node.stable_id.clone(), children });
            i += 1;
        }
        assert(lists[n as int] == self@.canvas);
        let canvas = match keys_for(&ids, &self.canvas) {
            Ok(v) => v,
            Err(s) => {
                proof {
                    lemma_first_unknown_skip(gids, lists, n as int);
                    assert(lists.skip(n as int)[0] == lists[n as int]);
                }
                return Err(WireError::UnknownReference(s));
            },
        };
        let mut views: Vec<ViewNodes> = Vec::new();
        let mut j: usize = 0;
        while j < self.views.len()
            invariant
                0 <= j <= self.views@.len(),
                n == self.nodes@.len(),
                names(ids@) == gids,
                gids == wire_ids(self@),
                lists == reference_lists(self@),
                lists.len() == n + 1 + self.views@.len(),
                forall|m: int| 0 <= m < n + 1 + j ==> #[trigger] first_unknown(gids, lists[m]) is None,
                views@.len() == j,
                forall|m: int| 0 <= m < j ==> #[trigger] views@[m]@ == view_keys(gids, self@.views[m]),
            decreases self.views@.len() - j,
        {
            assert(lists[n + 1 + j] == view_list(self@.views[j as int]));
            let ghost at = n + 1 + j;
            let v = match &self.views[j] {
                ViewOutline::Print { pages } => match keys_for(&ids, pages) {
                    Ok(k) => ViewNodes::Print { pages: k },
                    Err(s) => {
                        proof {
                            lemma_first_unknown_skip(gids, lists, at);
                            assert(lists.skip(at)[0] == lists[at]);
                        }
                        return Err(WireError::UnknownReference(s));
                    },
                },
                ViewOutline::Web { root } => match key_for(&ids, root.as_str()) {
                    Some(k) => {
                        assert(first_unknown(gids, seq![root@].drop_first()) is None);
                        ViewNodes::Web { root: k }
                    },
                    None => {
                        proof {
                            lemma_first_unknown_skip(gids, lists, at);
                            assert(lists.skip(at)[0] == lists[at]);
                        }
                        return Err(WireError::UnknownReference(root.clone()));
                    },
                },
                ViewOutline::Presentation { slides } => match keys_for(&ids, slides) {
                    Ok(k) => ViewNodes::Presentation { slides: k },
                    Err(s) => {
                        proof {
                            lemma_first_unknown_skip(gids, lists, at);
                            assert(lists.skip(at)[0] == lists[at]);
                        }
                        return Err(WireError::UnknownReference(s));
                    },
                },
                ViewOutline::Export => ViewNodes::Export,
            };
            views.push(v);
            j += 1;
        }
        proof {
            lemma_no_unknown_in(gids, lists);
        }
        let d = DocRefs { nodes, canvas, views };
        assert(d@.nodes =~= (loaded(self@)->Ok_0).nodes);
        assert(d@.views =~= (loaded(self@)->Ok_0).views);
        Ok(d)
    }

    /// Store the references of a loaded document: every arena key becomes
    /// the stable identifier of its node (empty for a key of no node).
    pub fn from_document(d: &DocRefs) -> (r: Self)
        ensures
            r@ == stored(d@),
    {
        let mut ids: Vec<String> = Vec::new();
        let mut i: usize = 0;
        while i < d.nodes.len()
            invariant
                0 <= i <= d.nodes@.len(),
                names(ids@) == arena_ids(d@).take(i as int),
            decreases d.nodes@.len() - i,
        {
            let ghost before = ids@;
            ids.push(d.nodes[i].stable_id.clone());
            assert(names(ids@) =~= arena_ids(d@).take(i as int + 1)) by {
                assert(names(ids@) =~= names(before).push(d.nodes@[i as int].stable_id@));
            }
            i += 1;
        }
        assert(arena_ids(d@).take(i as int) =~= arena_ids(d@));
        let ghost gids = arena_ids(d@);
        let mut nodes: Vec<NodeRefsWire> = Vec::new();
        let mut i: usize = 0;
        while i < d.nodes.len()
            invariant
                0 <= i <= d.nodes@.len(),
                names(ids@) == gids,
                gids == arena_ids(d@),
                nodes@.len() == i,
                forall|j: int| 0 <= j < i ==> #[trigger] nodes@[j]@ == (NodeRefsWireView {
                    id: d@.nodes[j].id,
                    children: match d@.nodes[j].children {
                        Some(c) => Some(names_of(gids, c)),
                        None => None,
                    },
                }),
            decreases d.nodes@.len() - i,
        {
            let node = &d.nodes[i];
            let children = match &node.children {
                Some(c) => Some(names_for(&ids, c)),
                None => None,
            };
            nodes.push(NodeRefsWire { stable_id: node.stable_id.clone(), children });
            i += 1;
        }
        let canvas = names_for(&ids, &d.canvas);
        let mut views: Vec<ViewOutline> = Vec::new();
        let mut j: usize = 0;
        while j < d.views.len()
            invariant
                0 <= j <= d.views@.len(),
                names(ids@) == gids,
                gids == arena_ids(d@),
                views@.len() == j,
                forall|m: int| 0 <= m < j ==> #[trigger] views@[m]@ == view_names(gids, d@.views[m]),
            decreases d.views@.len() - j,
        {
            let v = match &d.views[j] {
                ViewNodes::Print { pages } => ViewOutline::Print { pages: names_for(&ids, pages) },
                ViewNodes::Web { root } => ViewOutline::Web { root: name_for(&ids, *root) },
                ViewNodes::Presentation { slides } => ViewOutline::Presentation {
                    slides: names_for(&ids, slides),
                },
                ViewNodes::Export => ViewOutline::Export,
            };
            views.push(v);
            j += 1;
        }
        let w = DocRefsWire { nodes, canvas, views };
        assert(w@.nodes =~= stored(d@).nodes);
        assert(w@.views =~= stored(d@).views);
        w
    }
}

} // verus!
