//! The dependency graph: one node per (file, section) that a directive starts
//! from or points at, one edge per directive; and its DOT rendering.

use vstd::prelude::*;
use vstd::std_specs::cmp::PartialEqSpecImpl;

use crate::paths::{
    lemma_parts_lt_irreflexive, lemma_parts_lt_total, lemma_parts_lt_transitive, parts_lt,
    path_order, path_parts,
};
use crate::text::{
    chars_of, decimal, lemma_text_lt_irreflexive, lemma_text_lt_total, lemma_text_lt_transitive,
    push_decimal, push_text, text_lt, text_order,
};
use crate::{clone_opt_text, kind_name, opt_text, Directive, DirectiveKind, DirectiveView};

verus! {

/// A node of the graph: a file, or a section of it.
#[derive(Debug)]
pub struct NodeId {
    pub file: String,
    pub section: Option<String>,
}

/// A node taken as its file and optional section texts.
pub type NodeV = (Seq<char>, Option<Seq<char>>);

impl View for NodeId {
    type V = NodeV;

    open spec fn view(&self) -> NodeV {
        (self.file@, opt_text(self.section))
    }
}

impl Clone for NodeId {
    fn clone(&self) -> (r: Self)
        ensures
            r@ == self@,
    {
        NodeId { file: self.file.clone(), section: clone_opt_text(&self.section) }
    }
}

impl PartialEq for NodeId {
    /// Two nodes are equal when their files have the same path components
    /// and their sections are equal.
    fn eq(&self, other: &Self) -> (r: bool) {
        node_order(self, other) == 0
    }
}

impl Eq for NodeId {
}

impl PartialEqSpecImpl for NodeId {
    open spec fn obeys_eq_spec() -> bool {
        true
    }

    open spec fn eq_spec(&self, other: &Self) -> bool {
        same_key(self@, other@)
    }
}

/// An edge of the graph: the directive's source, its target and its kind.
#[derive(Debug)]
pub struct Edge {
    pub source: NodeId,
    pub target: NodeId,
    pub kind: DirectiveKind,
}

/// An edge taken as its endpoints and kind.
pub type EdgeV = (NodeV, NodeV, DirectiveKind);

impl View for Edge {
    type V = EdgeV;

    open spec fn view(&self) -> EdgeV {
        (self.source@, self.target@, self.kind)
    }
}

impl Clone for Edge {
    fn clone(&self) -> (r: Self)
        ensures
            r@ == self@,
    {
        Edge { source: self.source.clone(), target: self.target.clone(), kind: self.kind }
    }
}

/// A dependency graph.
#[derive(Debug)]
pub struct Graph {
    pub nodes: Vec<NodeId>,
    pub edges: Vec<Edge>,
}

/// Nodes taken by their texts.
pub open spec fn nodes_view(ns: Seq<NodeId>) -> Seq<NodeV> {
    ns.map_values(|n: NodeId| n@)
}

/// Edges taken by their texts.
pub open spec fn edges_view(es: Seq<Edge>) -> Seq<EdgeV> {
    es.map_values(|e: Edge| e@)
}

impl Default for Graph {
    fn default() -> (r: Self)
        ensures
            r.nodes@.len() == 0,
            r.edges@.len() == 0,
    {
        Graph { nodes: Vec::new(), edges: Vec::new() }
    }
}

/// The order of optional sections: none first, then by text.
pub open spec fn section_lt(a: Option<Seq<char>>, b: Option<Seq<char>>) -> bool {
    match (a, b) {
        (None, Some(_)) => true,
        (Some(x), Some(y)) => text_lt(x, y),
        _ => false,
    }
}

/// Two nodes name the same place: their files have the same path components
/// and their sections are equal.
pub open spec fn same_key(a: NodeV, b: NodeV) -> bool {
    path_parts(a.0) == path_parts(b.0) && a.1 == b.1
}

/// The order of nodes: by the path components of the file, then by section.
pub open spec fn node_lt(a: NodeV, b: NodeV) -> bool {
    parts_lt(path_parts(a.0), path_parts(b.0)) || (path_parts(a.0) == path_parts(b.0) && section_lt(
        a.1,
        b.1,
    ))
}

proof fn lemma_node_lt_irreflexive(a: NodeV, b: NodeV)
    requires
        same_key(a, b),
    ensures
        !node_lt(a, b),
{
    lemma_parts_lt_irreflexive(path_parts(a.0));
    if let Some(s) = a.1 {
        lemma_text_lt_irreflexive(s);
    }
}

proof fn lemma_node_lt_transitive(a: NodeV, b: NodeV, c: NodeV)
    requires
        node_lt(a, b),
        node_lt(b, c),
    ensures
        node_lt(a, c),
{
    let (pa, pb, pc) = (path_parts(a.0), path_parts(b.0), path_parts(c.0));
    if parts_lt(pa, pb) && parts_lt(pb, pc) {
        lemma_parts_lt_transitive(pa, pb, pc);
    }
    if let (Some(x), Some(y), Some(z)) = (a.1, b.1, c.1) {
        if text_lt(x, y) && text_lt(y, z) {
            lemma_text_lt_transitive(x, y, z);
        }
    }
}

proof fn lemma_node_lt_total(a: NodeV, b: NodeV)
    ensures
        node_lt(a, b) || node_lt(b, a) || same_key(a, b),
{
    lemma_parts_lt_total(path_parts(a.0), path_parts(b.0));
    if let (Some(x), Some(y)) = (a.1, b.1) {
        lemma_text_lt_total(x, y);
    }
}

/// Nodes in strictly increasing order (so no two with the same key).
pub open spec fn strictly_sorted(ns: Seq<NodeV>) -> bool {
    forall|i: int, j: int| 0 <= i < j < ns.len() ==> node_lt(#[trigger] ns[i], #[trigger] ns[j])
}

/// The graph node a directive starts from.
pub open spec fn source_node(d: DirectiveView) -> NodeV {
    (d.source_file, d.source_section)
}

/// The graph node a directive points at: its target file (its own file when
/// none is given) and target section.
pub open spec fn target_node(d: DirectiveView) -> NodeV {
    (
        match d.target_file {
            Some(f) => f,
            None => d.source_file,
        },
        d.target_section,
    )
}

/// The edge a directive contributes.
pub open spec fn edge_of(d: DirectiveView) -> EdgeV {
    (source_node(d), target_node(d), d.kind)
}

/// Directives taken by their texts.
pub open spec fn directives_view(ds: Seq<Directive>) -> Seq<DirectiveView> {
    ds.map_values(|d: Directive| d@)
}

/// The nodes the directives start from and point at, in order: the source and
/// then the target of each directive.
pub open spec fn endpoint_list(ds: Seq<DirectiveView>) -> Seq<NodeV>
    decreases ds.len(),
{
    if ds.len() == 0 {
        seq![]
    } else {
        endpoint_list(ds.drop_last()) + seq![source_node(ds.last()), target_node(ds.last())]
    }
}

/// Some node of `ns` has the key of `x`.
pub open spec fn has_key(ns: Seq<NodeV>, x: NodeV) -> bool {
    exists|i: int| 0 <= i < ns.len() && same_key(#[trigger] ns[i], x)
}

/// `x` occurs in `list` before any other node with its key.
pub open spec fn first_of_key(list: Seq<NodeV>, x: NodeV) -> bool {
    exists|j: int|
        0 <= j < list.len() && list[j] == x && forall|k: int|
            0 <= k < j ==> !same_key(#[trigger] list[k], x)
}

/// The nodes of a graph built from the endpoint list `list`: each is the
/// first endpoint with its key, and each endpoint's key is among them.
pub open spec fn nodes_cover(ns: Seq<NodeV>, list: Seq<NodeV>) -> bool {
    &&& forall|i: int| 0 <= i < ns.len() ==> first_of_key(list, #[trigger] ns[i])
    &&& forall|j: int| 0 <= j < list.len() ==> has_key(ns, #[trigger] list[j])
}

/// Some edge of `es` starts or ends at the key of `x`.
pub open spec fn is_endpoint(es: Seq<EdgeV>, x: NodeV) -> bool {
    exists|k: int| 0 <= k < es.len() && (same_key((#[trigger] es[k]).0, x) || same_key(es[k].1, x))
}

/// Every edge of the graph starts and ends at a node with its key.
pub open spec fn edges_closed(ns: Seq<NodeV>, es: Seq<EdgeV>) -> bool {
    forall|i: int| #![trigger es[i]] 0 <= i < es.len() ==> has_key(ns, es[i].0) && has_key(ns, es[i].1)
}

/// The order of two nodes: -1, 0 or 1 as `a` comes before, has the key of, or
/// comes after `b`.
fn node_order(a: &NodeId, b: &NodeId) -> (r: i8)
    ensures
        r == -1 <==> node_lt(a@, b@),
        r == 0 <==> same_key(a@, b@),
        r == 1 <==> node_lt(b@, a@),
        -1 <= r <= 1,
{
    proof {
        lemma_node_lt_total(a@, b@);
        if node_lt(a@, b@) && node_lt(b@, a@) {
            lemma_node_lt_transitive(a@, b@, a@);
            lemma_node_lt_irreflexive(a@, a@);
        }
        if same_key(a@, b@) {
            lemma_node_lt_irreflexive(a@, b@);
            lemma_node_lt_irreflexive(b@, a@);
        }
        lemma_text_lt_irreflexive(a@.0);
    }
    let f = path_order(&a.file, &b.file);
    if f != 0 {
        return f;
    }
    match (&a.section, &b.section) {
        (None, None) => 0,
        (None, Some(_)) => -1,
        (Some(_), None) => 1,
        (Some(x), Some(y)) => text_order(x, y),
    }
}

/// Adds `x` to the strictly sorted `nodes`, unless a node with its key is
/// there already.
fn insert_node(nodes: &mut Vec<NodeId>, x: NodeId)
    requires
        strictly_sorted(nodes_view(old(nodes)@)),
    ensures
        strictly_sorted(nodes_view(final(nodes)@)),
        has_key(nodes_view(old(nodes)@), x@) ==> nodes_view(final(nodes)@) == nodes_view(
            old(nodes)@,
        ),
        !has_key(nodes_view(old(nodes)@), x@) ==> nodes_view(final(nodes)@).to_set()
            == nodes_view(old(nodes)@).to_set().insert(x@),
{
    let ghost old_v = nodes_view(nodes@);
    let mut p: usize = 0;
    while p < nodes.len() && node_order(&nodes[p], &x) == -1
        invariant
            p <= nodes.len(),
            old_v == nodes_view(nodes@),
            forall|i: int| 0 <= i < p ==> node_lt(#[trigger] old_v[i], x@),
        decreases nodes.len() - p,
    {
        p = p + 1;
    }
    if p < nodes.len() && node_order(&nodes[p], &x) == 0 {
        assert(same_key(old_v[p as int], x@));
        return;
    }
    proof {
        if p < nodes.len() {
            lemma_node_lt_total(old_v[p as int], x@);
        }
        if has_key(old_v, x@) {
            let k = choose|k: int| 0 <= k < old_v.len() && same_key(#[trigger] old_v[k], x@);
            if k < p {
                lemma_node_lt_irreflexive(old_v[k], x@);
            } else if k > p {
                assert(node_lt(old_v[p as int], old_v[k]));
                assert(node_lt(x@, old_v[p as int]));
                lemma_node_lt_transitive(x@, old_v[p as int], old_v[k]);
                lemma_node_lt_irreflexive(x@, old_v[k]);
            }
        }
    }
    nodes.insert(p, x);
    let ghost new_v = nodes_view(nodes@);
    proof {
        assert(new_v =~= old_v.take(p as int).push(x@) + old_v.skip(p as int));
        assert forall|i: int, j: int| 0 <= i < j < new_v.len() implies node_lt(
            #[trigger] new_v[i],
            #[trigger] new_v[j],
        ) by {
            if j < p {
                assert(new_v[i] == old_v[i] && new_v[j] == old_v[j]);
            } else if j == p {
                assert(new_v[i] == old_v[i]);
            } else if i == p {
                assert(new_v[j] == old_v[j - 1]);
                if j - 1 > p {
                    assert(node_lt(old_v[p as int], old_v[j - 1]));
                    lemma_node_lt_transitive(x@, old_v[p as int], old_v[j - 1]);
                }
            } else if i < p {
                assert(new_v[i] == old_v[i] && new_v[j] == old_v[j - 1]);
            } else {
                assert(new_v[i] == old_v[i - 1] && new_v[j] == old_v[j - 1]);
            }
        }
        assert forall|y: NodeV| new_v.to_set().contains(y) <==> old_v.to_set().insert(x@).contains(
            y,
        ) by {
            if new_v.contains(y) {
                let k = choose|k: int| 0 <= k < new_v.len() && new_v[k] == y;
                if k < p {
                    assert(old_v[k] == y);
                } else if k > p {
                    assert(old_v[k - 1] == y);
                }
            }
            if old_v.contains(y) {
                let k = choose|k: int| 0 <= k < old_v.len() && old_v[k] == y;
                if k < p {
                    assert(new_v[k] == y);
                } else {
                    assert(new_v[k + 1] == y);
                }
            }
            if y == x@ {
                assert(new_v[p as int] == y);
            }
        }
        assert(new_v.to_set() =~= old_v.to_set().insert(x@));
    }
}

/// Adding the endpoint `x` to the nodes built from `list` gives the nodes of
/// `list` followed by `x`.
proof fn lemma_cover_step(old_ns: Seq<NodeV>, new_ns: Seq<NodeV>, list: Seq<NodeV>, x: NodeV)
    requires
        nodes_cover(old_ns, list),
        has_key(old_ns, x) ==> new_ns == old_ns,
        !has_key(old_ns, x) ==> new_ns.to_set() == old_ns.to_set().insert(x),
    ensures
        nodes_cover(new_ns, list.push(x)),
{
    let l2 = list.push(x);
    assert forall|i: int| 0 <= i < new_ns.len() implies first_of_key(l2, #[trigger] new_ns[i]) by {
        let n = new_ns[i];
        assert(new_ns.to_set().contains(n));
        if old_ns.contains(n) {
            let k = choose|k: int| 0 <= k < old_ns.len() && old_ns[k] == n;
            assert(first_of_key(list, old_ns[k]));
            let j = choose|j: int|
                0 <= j < list.len() && list[j] == n && forall|m: int|
                    0 <= m < j ==> !same_key(#[trigger] list[m], n);
            assert(l2[j] == n);
            assert forall|m: int| 0 <= m < j implies !same_key(#[trigger] l2[m], n) by {
                assert(l2[m] == list[m]);
            }
        } else {
            assert(n == x);
            assert(!has_key(old_ns, x));
            assert(l2[list.len() as int] == n);
            assert forall|m: int| 0 <= m < list.len() implies !same_key(#[trigger] l2[m], n) by {
                assert(l2[m] == list[m]);
                if same_key(list[m], n) {
                    assert(has_key(old_ns, list[m]));
                    let q = choose|q: int| 0 <= q < old_ns.len() && same_key(#[trigger] old_ns[q], list[m]);
                    assert(same_key(old_ns[q], x));
                }
            }
        }
    }
    assert forall|j: int| 0 <= j < l2.len() implies has_key(new_ns, #[trigger] l2[j]) by {
        if j < list.len() {
            assert(l2[j] == list[j]);
            assert(has_key(old_ns, list[j]));
            let q = choose|q: int| 0 <= q < old_ns.len() && same_key(#[trigger] old_ns[q], list[j]);
            assert(new_ns.to_set().contains(old_ns[q]) || new_ns == old_ns);
            if new_ns != old_ns {
                assert(old_ns.to_set().contains(old_ns[q]));
                assert(new_ns.contains(old_ns[q]));
            }
            assert(new_ns.contains(old_ns[q]));
            let r = choose|r: int| 0 <= r < new_ns.len() && new_ns[r] == old_ns[q];
            assert(same_key(new_ns[r], l2[j]));
        } else {
            assert(l2[j] == x);
            if has_key(old_ns, x) {
            } else {
                assert(new_ns.to_set().contains(x));
                let r = choose|r: int| 0 <= r < new_ns.len() && new_ns[r] == x;
                assert(same_key(new_ns[r], x));
            }
        }
    }
}

impl Graph {
    /// The graph of a set of directives: one edge per directive, in order;
    /// one node per place (file path components and section) that a
    /// directive starts from or points at, written as that place's first
    /// occurrence among the directives' sources and targets, the nodes sorted
    /// by file path then section. File paths are compared by their components
    /// in Unix syntax (see `path_parts`).
    pub fn from_directives(directives: &[Directive]) -> (g: Self)
        ensures
            edges_view(g.edges@) == directives_view(directives@).map_values(
                |d: DirectiveView| edge_of(d),
            ),
            strictly_sorted(nodes_view(g.nodes@)),
            nodes_cover(nodes_view(g.nodes@), endpoint_list(directives_view(directives@))),
            edges_closed(nodes_view(g.nodes@), edges_view(g.edges@)),
            forall|x: NodeV|
                has_key(nodes_view(g.nodes@), x) <==> is_endpoint(edges_view(g.edges@), x),
    {
        let ghost ds = directives_view(directives@);
        let mut nodes: Vec<NodeId> = Vec::new();
        let mut edges: Vec<Edge> = Vec::new();
        let mut i: usize = 0;
        assert(ds.take(0) =~= Seq::<DirectiveView>::empty());
        while i < directives.len()
            invariant
                i <= directives.len(),
                ds == directives_view(directives@),
                strictly_sorted(nodes_view(nodes@)),
                nodes_cover(nodes_view(nodes@), endpoint_list(ds.take(i as int))),
                edges_view(edges@) == ds.take(i as int).map_values(|d: DirectiveView| edge_of(d)),
            decreases directives.len() - i,
        {
            let d = &directives[i];
            let source = NodeId { file: d.source_file.clone(), section: clone_opt_text(&d.source_section) };
            let target_file = match &d.target_file {
                Some(f) => f.clone(),
                None => d.source_file.clone(),
            };
            let target = NodeId { file: target_file, section: clone_opt_text(&d.target_section) };
            let ghost sv = source@;
            let ghost tv = target@;
            assert(sv == source_node(ds[i as int]));
            assert(tv == target_node(ds[i as int]));
            let ghost list = endpoint_list(ds.take(i as int));
            let ghost n0 = nodes_view(nodes@);
            insert_node(&mut nodes, source.clone());
            let ghost n1 = nodes_view(nodes@);
            proof {
                lemma_cover_step(n0, n1, list, sv);
            }
            insert_node(&mut nodes, target.clone());
            proof {
                lemma_cover_step(n1, nodes_view(nodes@), list.push(sv), tv);
                let t = ds.take(i + 1);
                assert(t.drop_last() =~= ds.take(i as int));
                assert(endpoint_list(t) =~= list.push(sv).push(tv));
            }
            let ghost old_edges = edges_view(edges@);
            edges.push(Edge { source, target, kind: d.kind });
            proof {
                let t = ds.take(i + 1);
                assert(edges_view(edges@) =~= old_edges.push(edge_of(ds[i as int])));
                assert(t.map_values(|d: DirectiveView| edge_of(d)) =~= ds.take(i as int).map_values(
                    |d: DirectiveView| edge_of(d),
                ).push(edge_of(ds[i as int])));
            }
            i = i + 1;
        }
        proof {
            assert(ds.take(i as int) =~= ds);
            let nv = nodes_view(nodes@);
            let ev = edges_view(edges@);
            assert forall|k: int| #![trigger ev[k]] 0 <= k < ev.len() implies has_key(nv, ev[k].0) && has_key(
                nv,
                ev[k].1,
            ) by {
                assert(ev[k] == edge_of(ds[k]));
                lemma_endpoints_of(ds, k);
            }
            lemma_nodes_are_endpoints(ds, nv, ev);
        }
        Graph { nodes, edges }
    }
}

/// The nodes built from directives are exactly the keys their edges start or
/// end at.
proof fn lemma_nodes_are_endpoints(ds: Seq<DirectiveView>, ns: Seq<NodeV>, es: Seq<EdgeV>)
    requires
        es == ds.map_values(|d: DirectiveView| edge_of(d)),
        nodes_cover(ns, endpoint_list(ds)),
        edges_closed(ns, es),
    ensures
        forall|x: NodeV| has_key(ns, x) <==> is_endpoint(es, x),
{
    let list = endpoint_list(ds);
    lemma_endpoint_list_len(ds);
    assert forall|x: NodeV| has_key(ns, x) implies is_endpoint(es, x) by {
        let i = choose|i: int| 0 <= i < ns.len() && same_key(#[trigger] ns[i], x);
        assert(first_of_key(list, ns[i]));
        let j = choose|j: int|
            0 <= j < list.len() && list[j] == ns[i] && forall|m: int|
                0 <= m < j ==> !same_key(#[trigger] list[m], ns[i]);
        let k = j / 2;
        lemma_endpoints_of(ds, k);
        assert(es[k] == edge_of(ds[k]));
        if j == 2 * k {
            assert(same_key(es[k].0, x));
        } else {
            assert(j == 2 * k + 1);
            assert(same_key(es[k].1, x));
        }
    }
    assert forall|x: NodeV| is_endpoint(es, x) implies has_key(ns, x) by {
        let k = choose|k: int|
            0 <= k < es.len() && (same_key((#[trigger] es[k]).0, x) || same_key(es[k].1, x));
        assert(has_key(ns, es[k].0) && has_key(ns, es[k].1));
        if same_key(es[k].0, x) {
            let i = choose|i: int| 0 <= i < ns.len() && same_key(#[trigger] ns[i], es[k].0);
            assert(same_key(ns[i], x));
        } else {
            let i = choose|i: int| 0 <= i < ns.len() && same_key(#[trigger] ns[i], es[k].1);
            assert(same_key(ns[i], x));
        }
    }
}

/// The source and target of the `k`-th directive are in the endpoint list.
proof fn lemma_endpoints_of(ds: Seq<DirectiveView>, k: int)
    requires
        0 <= k < ds.len(),
    ensures
        endpoint_list(ds)[2 * k] == source_node(ds[k]),
        endpoint_list(ds)[2 * k + 1] == target_node(ds[k]),
        endpoint_list(ds).len() == 2 * ds.len(),
    decreases ds.len(),
{
    lemma_endpoint_list_len(ds);
    if k < ds.len() - 1 {
        lemma_endpoints_of(ds.drop_last(), k);
    }
}

proof fn lemma_endpoint_list_len(ds: Seq<DirectiveView>)
    ensures
        endpoint_list(ds).len() == 2 * ds.len(),
    decreases ds.len(),
{
    if ds.len() > 0 {
        lemma_endpoint_list_len(ds.drop_last());
    }
}

/// The DOT colour of an edge of the given kind.
pub open spec fn edge_color(kind: DirectiveKind) -> Seq<char> {
    match kind {
        DirectiveKind::ConstrainedBy => "blue"@,
        DirectiveKind::BlockedBy => "red"@,
        DirectiveKind::Supersedes => "orange"@,
        DirectiveKind::DerivedFrom => "green"@,
    }
}

/// The DOT line style of an edge of the given kind.
pub open spec fn edge_dash(kind: DirectiveKind) -> Seq<char> {
    match kind {
        DirectiveKind::Supersedes => "dashed"@,
        _ => "solid"@,
    }
}

fn edge_style(kind: DirectiveKind) -> (r: (&'static str, &'static str))
    ensures
        r.0@ == edge_color(kind),
        r.1@ == edge_dash(kind),
{
    match kind {
        DirectiveKind::ConstrainedBy => ("blue", "solid"),
        DirectiveKind::BlockedBy => ("red", "solid"),
        DirectiveKind::Supersedes => ("orange", "dashed"),
        DirectiveKind::DerivedFrom => ("green", "solid"),
    }
}

/// The label of a node: its file, followed by `#` and the section if there is one.
pub open spec fn dot_label(n: NodeV) -> Seq<char> {
    match n.1 {
        Some(s) => n.0 + seq!['#'] + s,
        None => n.0,
    }
}

/// Text with every `"` written as `\"`.
pub open spec fn escape_quotes(s: Seq<char>) -> Seq<char>
    decreases s.len(),
{
    if s.len() == 0 {
        seq![]
    } else {
        escape_quotes(s.drop_last()) + if s.last() == '"' {
            seq!['\\', '"']
        } else {
            seq![s.last()]
        }
    }
}

/// The last position in `ns` of a node with the key of `x` (-1 when there is none).
pub open spec fn last_index(ns: Seq<NodeV>, x: NodeV) -> int
    decreases ns.len(),
{
    if ns.len() == 0 {
        -1
    } else if same_key(ns.last(), x) {
        ns.len() - 1
    } else {
        last_index(ns.drop_last(), x)
    }
}

/// The DOT statement of node number `i`.
pub open spec fn node_line(i: int, n: NodeV) -> Seq<char> {
    "  n"@ + decimal(i as nat) + " [label=\""@ + escape_quotes(dot_label(n)) + "\"];\n"@
}

/// The DOT statements of the first `k` nodes.
pub open spec fn node_lines(ns: Seq<NodeV>, k: int) -> Seq<char>
    decreases k,
{
    if k <= 0 {
        seq![]
    } else {
        node_lines(ns, k - 1) + node_line(k - 1, ns[k - 1])
    }
}

/// The DOT statement of an edge; its endpoints are named by the last position
/// at which a node with their key occurs among the nodes.
pub open spec fn edge_line(ns: Seq<NodeV>, e: EdgeV) -> Seq<char> {
    "  n"@ + decimal(last_index(ns, e.0) as nat) + " -> n"@ + decimal(last_index(ns, e.1) as nat)
        + " [label=\""@ + kind_name(e.2) + "\", color=\""@ + edge_color(e.2) + "\", style=\""@
        + edge_dash(e.2) + "\"];\n"@
}

/// The DOT statements of the first `k` edges.
pub open spec fn edge_lines(ns: Seq<NodeV>, es: Seq<EdgeV>, k: int) -> Seq<char>
    decreases k,
{
    if k <= 0 {
        seq![]
    } else {
        edge_lines(ns, es, k - 1) + edge_line(ns, es[k - 1])
    }
}

/// Each edge's DOT statement, in the order of the edges: `  nA -> nB
/// [label="kind", color="C", style="S"];` with A and B the numbers of its end
/// nodes, and C and S by kind: constrained-by blue and solid, blocked-by red
/// and solid, supersedes orange and dashed, derived-from green and solid.
pub proof fn lemma_dot_edge_statement(ns: Seq<NodeV>, es: Seq<EdgeV>, k: int)
    requires
        0 <= k < es.len(),
    ensures
        edge_lines(ns, es, k + 1) == edge_lines(ns, es, k) + "  n"@ + decimal(
            last_index(ns, es[k].0) as nat,
        ) + " -> n"@ + decimal(last_index(ns, es[k].1) as nat) + " [label=\""@ + match es[k].2 {
            DirectiveKind::ConstrainedBy => "constrained-by"@,
            DirectiveKind::BlockedBy => "blocked-by"@,
            DirectiveKind::Supersedes => "supersedes"@,
            DirectiveKind::DerivedFrom => "derived-from"@,
        } + "\", color=\""@ + match es[k].2 {
            DirectiveKind::ConstrainedBy => "blue"@,
            DirectiveKind::BlockedBy => "red"@,
            DirectiveKind::Supersedes => "orange"@,
            DirectiveKind::DerivedFrom => "green"@,
        } + "\", style=\""@ + match es[k].2 {
            DirectiveKind::Supersedes => "dashed"@,
            _ => "solid"@,
        } + "\"];\n"@,
{
}

/// The DOT rendering of a graph.
pub open spec fn dot_text(ns: Seq<NodeV>, es: Seq<EdgeV>) -> Seq<char> {
    "digraph {\n  rankdir=LR;\n  node [shape=box];\n"@ + node_lines(ns, ns.len() as int) + edge_lines(
        ns,
        es,
        es.len() as int,
    ) + seq!['}']
}

/// Appends `s` to `out` with every `"` written as `\"`.
fn push_escaped(out: &mut String, s: &String)
    ensures
        final(out)@ == old(out)@ + escape_quotes(s@),
{
    let v = chars_of(s.as_str());
    let mut i: usize = 0;
    assert(v@.take(0) =~= Seq::<char>::empty());
    while i < v.len()
        invariant
            i <= v.len(),
            v@ == s@,
            out@ == old(out)@ + escape_quotes(v@.take(i as int)),
        decreases v.len() - i,
    {
        let c = v[i];
        if c == '"' {
            out.push('\\');
            out.push('"');
        } else {
            out.push(c);
        }
        proof {
            assert(v@.take(i + 1).drop_last() =~= v@.take(i as int));
        }
        i = i + 1;
        assert(out@ =~= old(out)@ + escape_quotes(v@.take(i as int)));
    }
    assert(v@.take(i as int) =~= v@);
}

/// The last position among `nodes` of a node with the key of `x`.
fn node_position(nodes: &Vec<NodeId>, x: &NodeId) -> (r: usize)
    requires
        has_key(nodes_view(nodes@), x@),
    ensures
        r as int == last_index(nodes_view(nodes@), x@),
{
    let ghost nv = nodes_view(nodes@);
    let mut k = nodes.len();
    assert(nv.take(k as int) =~= nv);
    while k > 0
        invariant
            k <= nodes.len(),
            nv == nodes_view(nodes@),
            last_index(nv, x@) == last_index(nv.take(k as int), x@),
            has_key(nv.take(k as int), x@),
        decreases k,
    {
        assert(nv.take(k as int).drop_last() =~= nv.take(k - 1));
        if node_order(&nodes[k - 1], x) == 0 {
            return k - 1;
        }
        proof {
            let w = choose|w: int| 0 <= w < k && same_key(#[trigger] nv.take(k as int)[w], x@);
            if w == k - 1 {
                assert(nv.take(k as int)[w] == nv[k - 1]);
            }
            assert(nv.take(k - 1)[w] == nv.take(k as int)[w]);
        }
        k = k - 1;
    }
    k
}

fn push_node_line(out: &mut String, i: usize, node: &NodeId)
    ensures
        final(out)@ == old(out)@ + node_line(i as int, node@),
{
    let mut label = node.file.clone();
    match &node.section {
        Some(s) => {
            label.push('#');
            push_text(&mut label, s.as_str());
        },
        None => {},
    }
    assert(label@ == dot_label(node@));
    push_text(out, "  n");
    push_decimal(out, i as u128);
    push_text(out, " [label=\"");
    push_escaped(out, &label);
    push_text(out, "\"];\n");
    assert(final(out)@ =~= old(out)@ + node_line(i as int, node@));
}

fn push_edge_line(out: &mut String, nodes: &Vec<NodeId>, edge: &Edge)
    requires
        has_key(nodes_view(nodes@), edge@.0),
        has_key(nodes_view(nodes@), edge@.1),
    ensures
        final(out)@ == old(out)@ + edge_line(nodes_view(nodes@), edge@),
{
    let src = node_position(nodes, &edge.source);
    let tgt = node_position(nodes, &edge.target);
    let (color, style) = edge_style(edge.kind);
    push_text(out, "  n");
    push_decimal(out, src as u128);
    push_text(out, " -> n");
    push_decimal(out, tgt as u128);
    push_text(out, " [label=\"");
    push_text(out, edge.kind.as_str());
    push_text(out, "\", color=\"");
    push_text(out, color);
    push_text(out, "\", style=\"");
    push_text(out, style);
    push_text(out, "\"];\n");
    assert(final(out)@ =~= old(out)@ + edge_line(nodes_view(nodes@), edge@));
}

impl Graph {
    /// Render the graph in Graphviz DOT: one box per node labelled with its
    /// file and section, one edge per directive labelled with its kind and
    /// drawn in the colour and style of that kind.
    pub fn to_dot(&self) -> (r: String)
        requires
            edges_closed(nodes_view(self.nodes@), edges_view(self.edges@)),
        ensures
            r@ == dot_text(nodes_view(self.nodes@), edges_view(self.edges@)),
    {
        let ghost ns = nodes_view(self.nodes@);
        let ghost es = edges_view(self.edges@);
        let mut out = String::new();
        push_text(&mut out, "digraph {\n  rankdir=LR;\n  node [shape=box];\n");
        let ghost head = out@;
        let mut i: usize = 0;
        while i < self.nodes.len()
            invariant
                i <= self.nodes.len(),
                ns == nodes_view(self.nodes@),
                out@ == head + node_lines(ns, i as int),
            decreases self.nodes.len() - i,
        {
            push_node_line(&mut out, i, &self.nodes[i]);
            i = i + 1;
            assert(out@ =~= head + node_lines(ns, i as int));
        }
        let ghost mid = out@;
        assert(mid =~= head + node_lines(ns, ns.len() as int));
        let mut k: usize = 0;
        while k < self.edges.len()
            invariant
                k <= self.edges.len(),
                ns == nodes_view(self.nodes@),
                es == edges_view(self.edges@),
                edges_closed(ns, es),
                out@ == mid + edge_lines(ns, es, k as int),
            decreases self.edges.len() - k,
        {
            let edge = &self.edges[k];
            assert(es.len() == self.edges@.len());
            assert(es[k as int] == edge@);
            assert(has_key(ns, es[k as int].0) && has_key(ns, es[k as int].1));
            push_edge_line(&mut out, &self.nodes, edge);
            k = k + 1;
            assert(out@ =~= mid + edge_lines(ns, es, k as int));
        }
        out.push('}');
        assert(out@ =~= dot_text(ns, es));
        out
    }
}

} // verus!
