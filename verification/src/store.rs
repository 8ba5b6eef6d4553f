//! The persistent store's in-memory state and the logic it runs:
//! pattern matching, breadth-first traversal, ordering and projection of
//! result rows, diffs, and commits that stamp provenance and bump a
//! monotonic version.
use vstd::prelude::*;

use crate::model::{
    axiom_upserted, edge_upserted, get_property, has_type_spec, node_ids, node_upserted,
    prop_lookup, Axiom, Edge, EdgeId, EdgeKey, Node, NodeId, Ontology, Property, PropertyValue,
    ProvenanceId,
};
use crate::provenance::{activity_map, Activity, ProvenanceLog};

verus! {

// ---------------------------------------------------------------------
// Patterns
// ---------------------------------------------------------------------

/// A node predicate: all given conditions must hold.
#[derive(Debug)]
pub struct NodePattern {
    /// Variable the matched node binds to.
    pub bind: Option<String>,
    /// Types the node must carry (all of them).
    pub types: Vec<String>,
    /// Properties the node must carry with these exact values.
    pub properties: Vec<Property>,
    /// The node's exact id.
    pub id: Option<NodeId>,
    /// Alternatives: when non-empty, at least one must match.
    pub or: Vec<NodePattern>,
    /// Exclusions: none may match.
    pub not: Vec<NodePattern>,
}

/// An edge predicate, with optional variable-length repetition.
#[derive(Clone, Debug)]
pub struct EdgePattern {
    /// Variable the traversed edge binds to.
    pub bind: Option<String>,
    /// The edge's exact label.
    pub label: Option<String>,
    /// Properties the edge must carry with these exact values.
    pub properties: Vec<Property>,
    /// Hop count `(min, max)`, inclusive; one hop when absent.
    pub repeat: Option<(usize, usize)>,
}

/// One traversal hop: follow edges matching `edge` (from source to target
/// when `outbound`, else backwards) to nodes matching `target`.
#[derive(Debug)]
pub struct TraversalStep {
    pub edge: EdgePattern,
    pub target: NodePattern,
    pub outbound: bool,
}

/// Row ordering direction.
#[derive(Clone, Copy, Debug, PartialEq, Eq, Structural)]
pub enum SortOrder {
    Ascending,
    Descending,
}

/// A seed pattern, a chain of hops, then ordering, paging and projection.
#[derive(Debug)]
pub struct TraversalPlan {
    pub seed: NodePattern,
    pub steps: Vec<TraversalStep>,
    /// Bindings kept in each row (all when empty).
    pub return_columns: Vec<String>,
    /// Sort keys: a binding and a direction, most significant first.
    pub order: Vec<(String, SortOrder)>,
    /// Rows dropped from the front after ordering.
    pub skip: usize,
    /// Rows kept after skipping.
    pub limit: Option<usize>,
}

impl NodePattern {
    /// The pattern every node matches.
    pub fn any() -> (r: NodePattern)
        ensures
            r.bind is None,
            r.types@.len() == 0,
            r.properties@.len() == 0,
            r.id is None,
            r.or@.len() == 0,
            r.not@.len() == 0,
    {
        NodePattern {
            bind: None,
            types: Vec::new(),
            properties: Vec::new(),
            id: None,
            or: Vec::new(),
            not: Vec::new(),
        }
    }

    /// This pattern binding its node to `name`.
    pub fn bind(self, name: String) -> (r: NodePattern)
        ensures
            r == (NodePattern { bind: Some(name), ..self }),
    {
        NodePattern { bind: Some(name), ..self }
    }

    /// This pattern also requiring type `ty`.
    pub fn typed(self, ty: String) -> (r: NodePattern)
        ensures
            r.types@ == self.types@.push(ty),
            r.bind == self.bind,
            r.properties == self.properties,
            r.id == self.id,
            r.or == self.or,
            r.not == self.not,
    {
        let mut types = self.types;
        types.push(ty);
        NodePattern { types, ..self }
    }

    /// This pattern also requiring property `key` to hold `value`.
    pub fn with_property(self, key: String, value: PropertyValue) -> (r: NodePattern)
        ensures
            r.properties@ == self.properties@.push(Property { key, value }),
            r.bind == self.bind,
            r.types == self.types,
            r.id == self.id,
            r.or == self.or,
            r.not == self.not,
    {
        let mut properties = self.properties;
        properties.push(Property { key, value });
        NodePattern { properties, ..self }
    }

    /// This pattern with one more alternative.
    pub fn or(self, alt: NodePattern) -> (r: NodePattern)
        ensures
            r.or@ == self.or@.push(alt),
            r.bind == self.bind,
            r.types == self.types,
            r.properties == self.properties,
            r.id == self.id,
            r.not == self.not,
    {
        let mut or = self.or;
        or.push(alt);
        NodePattern { or, ..self }
    }

    /// This pattern with one more exclusion.
    pub fn not(self, neg: NodePattern) -> (r: NodePattern)
        ensures
            r.not@ == self.not@.push(neg),
            r.bind == self.bind,
            r.types == self.types,
            r.properties == self.properties,
            r.id == self.id,
            r.or == self.or,
    {
        let mut not = self.not;
        not.push(neg);
        NodePattern { not, ..self }
    }
}

impl EdgePattern {
    /// The pattern every edge matches, one hop.
    pub fn any() -> (r: EdgePattern)
        ensures
            r.bind is None,
            r.label is None,
            r.properties@.len() == 0,
            r.repeat is None,
    {
        EdgePattern { bind: None, label: None, properties: Vec::new(), repeat: None }
    }

    /// This pattern requiring label `label`.
    pub fn labeled(self, label: String) -> (r: EdgePattern)
        ensures
            r == (EdgePattern { label: Some(label), ..self }),
    {
        EdgePattern { label: Some(label), ..self }
    }

    /// This pattern binding the traversed edge to `name`.
    pub fn bind(self, name: String) -> (r: EdgePattern)
        ensures
            r == (EdgePattern { bind: Some(name), ..self }),
    {
        EdgePattern { bind: Some(name), ..self }
    }

    /// This pattern repeated from `min` to `max` hops.
    pub fn repeat(self, min: usize, max: usize) -> (r: EdgePattern)
        ensures
            r == (EdgePattern { repeat: Some((min, max)), ..self }),
    {
        EdgePattern { repeat: Some((min, max)), ..self }
    }
}

impl TraversalPlan {
    /// A plan of just `seed`: no steps, all columns, no ordering or paging.
    pub fn from_seed(seed: NodePattern) -> (r: TraversalPlan)
        ensures
            r.seed == seed,
            r.steps@.len() == 0,
            r.return_columns@.len() == 0,
            r.order@.len() == 0,
            r.skip == 0,
            r.limit is None,
    {
        TraversalPlan {
            seed,
            steps: Vec::new(),
            return_columns: Vec::new(),
            order: Vec::new(),
            skip: 0,
            limit: None,
        }
    }
}

/// `true` when every entry of `wanted` is a property of `props` with the same value.
pub open spec fn props_match(props: Seq<Property>, wanted: Seq<Property>) -> bool {
    forall|i: int|
        0 <= i < wanted.len() ==> prop_lookup(props, #[trigger] wanted[i].key@) == Some(
            wanted[i].value@,
        )
}

/// `true` when node `n` satisfies pattern `p`.
pub open spec fn node_matches(n: Node, p: NodePattern) -> bool
    decreases p,
{
    &&& (p.id matches Some(id) ==> n.id == id)
    &&& forall|i: int| 0 <= i < p.types@.len() ==> has_type_spec(n.types@, #[trigger] p.types@[i]@)
    &&& props_match(n.properties@, p.properties@)
    &&& (p.or@.len() == 0 || matches_any(n, p.or@))
    &&& !matches_any(n, p.not@)
}

/// `true` when node `n` satisfies some pattern of `ps`.
pub open spec fn matches_any(n: Node, ps: Seq<NodePattern>) -> bool
    decreases ps,
{
    if ps.len() == 0 {
        false
    } else {
        node_matches(n, ps[0]) || matches_any(n, ps.drop_first())
    }
}

/// Some pattern of `ps` matches exactly when one at an index does.
proof fn lemma_matches_any(n: Node, ps: Seq<NodePattern>)
    ensures
        matches_any(n, ps) <==> exists|i: int| 0 <= i < ps.len() && #[trigger] node_matches(n, ps[i]),
    decreases ps.len(),
{
    if ps.len() > 0 {
        assert(matches_any(n, ps) == (node_matches(n, ps[0]) || matches_any(n, ps.drop_first())));
        lemma_matches_any(n, ps.drop_first());
        if exists|i: int| 0 <= i < ps.len() && #[trigger] node_matches(n, ps[i]) {
            let i = choose|i: int| 0 <= i < ps.len() && #[trigger] node_matches(n, ps[i]);
            if i > 0 {
                assert(node_matches(n, ps.drop_first()[i - 1]));
            }
        }
        if matches_any(n, ps.drop_first()) {
            let i = choose|i: int| 0 <= i < ps.drop_first().len() && #[trigger] node_matches(n, ps.drop_first()[i]);
            assert(node_matches(n, ps[i + 1]));
        }
    }
}

/// `true` when edge `e` satisfies pattern `p` (label and properties).
pub open spec fn edge_matches(e: Edge, p: EdgePattern) -> bool {
    &&& (p.label matches Some(l) ==> e.label@ == l@)
    &&& props_match(e.properties@, p.properties@)
}

fn props_match_exec(props: &Vec<Property>, wanted: &Vec<Property>) -> (r: bool)
    ensures
        r == props_match(props@, wanted@),
{
    let mut i: usize = 0;
    while i < wanted.len()
        invariant
            i <= wanted.len(),
            forall|j: int|
                0 <= j < i ==> prop_lookup(props@, #[trigger] wanted@[j].key@) == Some(
                    wanted@[j].value@,
                ),
        decreases wanted.len() - i,
    {
        match get_property(props, &wanted[i].key) {
            Some(v) => {
                if !v.same_as(&wanted[i].value) {
                    return false;
                }
            },
            None => {
                return false;
            },
        }
        i = i + 1;
    }
    true
}

/// `true` when `node` satisfies `pattern`.
pub fn match_node(node: &Node, pattern: &NodePattern) -> (r: bool)
    ensures
        r == node_matches(*node, *pattern),
    decreases pattern,
{
    proof {
        lemma_matches_any(*node, pattern.or@);
        lemma_matches_any(*node, pattern.not@);
    }
    if let Some(id) = pattern.id {
        if node.id != id {
            return false;
        }
    }
    let mut i: usize = 0;
    while i < pattern.types.len()
        invariant
            i <= pattern.types@.len(),
            pattern.id matches Some(id) ==> node.id == id,
            forall|j: int| 0 <= j < i ==> has_type_spec(node.types@, #[trigger] pattern.types@[j]@),
        decreases pattern.types@.len() - i,
    {
        if !node.has_type(&pattern.types[i]) {
            return false;
        }
        i = i + 1;
    }
    if !props_match_exec(&node.properties, &pattern.properties) {
        return false;
    }
    if pattern.or.len() > 0 {
        let mut any = false;
        let mut k: usize = 0;
        while k < pattern.or.len()
            invariant
                k <= pattern.or@.len(),
                pattern.id matches Some(id) ==> node.id == id,
                forall|j: int| 0 <= j < pattern.types@.len() ==> has_type_spec(node.types@, #[trigger] pattern.types@[j]@),
                props_match(node.properties@, pattern.properties@),
                any == exists|j: int| 0 <= j < k && #[trigger] node_matches(*node, pattern.or@[j]),
            decreases pattern.or@.len() - k,
        {
            assert(decreases_to!(pattern => pattern.or@[k as int]));
            if match_node(node, &pattern.or[k]) {
                any = true;
            }
            k = k + 1;
        }
        if !any {
            return false;
        }
    }
    let mut k: usize = 0;
    while k < pattern.not.len()
        invariant
            k <= pattern.not@.len(),
            pattern.id matches Some(id) ==> node.id == id,
            forall|j: int| 0 <= j < pattern.types@.len() ==> has_type_spec(node.types@, #[trigger] pattern.types@[j]@),
            props_match(node.properties@, pattern.properties@),
            pattern.or@.len() == 0 || exists|j: int| 0 <= j < pattern.or@.len() && #[trigger] node_matches(*node, pattern.or@[j]),
            !exists|j: int| 0 <= j < k && #[trigger] node_matches(*node, pattern.not@[j]),
        decreases pattern.not@.len() - k,
    {
        assert(decreases_to!(pattern => pattern.not@[k as int]));
        if match_node(node, &pattern.not[k]) {
            proof {
                lemma_matches_any(*node, pattern.not@);
            }
            assert(node_matches(*node, pattern.not@[k as int]));
            return false;
        }
        k = k + 1;
    }
    true
}

/// `true` when `edge` satisfies `pattern`'s label and properties.
pub fn match_edge(edge: &Edge, pattern: &EdgePattern) -> (r: bool)
    ensures
        r == edge_matches(*edge, *pattern),
{
    if let Some(label) = &pattern.label {
        if edge.label != *label {
            return false;
        }
    }
    props_match_exec(&edge.properties, &pattern.properties)
}

// ---------------------------------------------------------------------
// Result rows
// ---------------------------------------------------------------------

/// A named value in a result row.
#[derive(Clone, Debug)]
pub struct Binding<T> {
    pub name: String,
    pub value: T,
}

/// The view of a binding list: names paired with values.
pub open spec fn bindings_view<T>(s: Seq<Binding<T>>) -> Seq<(Seq<char>, T)> {
    s.map_values(|b: Binding<T>| (b.name@, b.value))
}

/// `i` is the first index of `s` naming `name`.
pub open spec fn first_named_at<T>(s: Seq<(Seq<char>, T)>, name: Seq<char>, i: int) -> bool {
    0 <= i < s.len() && s[i].0 == name && forall|j: int| 0 <= j < i ==> s[j].0 != name
}

/// The value `s` binds `name` to (its first binding), if any.
pub open spec fn bound<T>(s: Seq<(Seq<char>, T)>, name: Seq<char>) -> Option<T> {
    if exists|i: int| first_named_at(s, name, i) {
        Some(s[choose|i: int| first_named_at(s, name, i)].1)
    } else {
        None
    }
}

/// `s` with `name` bound to `v`: its first binding replaced, or one appended.
pub open spec fn rebound<T>(s: Seq<(Seq<char>, T)>, name: Seq<char>, v: T) -> Seq<(Seq<char>, T)> {
    if exists|i: int| first_named_at(s, name, i) {
        s.update(choose|i: int| first_named_at(s, name, i), (name, v))
    } else {
        s.push((name, v))
    }
}

/// Bind `name` to `value` in `s`, replacing its first binding or appending one.
fn rebind<T>(s: &mut Vec<Binding<T>>, name: String, value: T)
    ensures
        bindings_view(final(s)@) == rebound(bindings_view(old(s)@), name@, value),
{
    let ghost v0 = bindings_view(s@);
    let ghost nv = name@;
    let mut i: usize = 0;
    while i < s.len()
        invariant
            i <= s.len(),
            bindings_view(s@) == v0,
            v0 == bindings_view(old(s)@),
            nv == name@,
            forall|j: int| 0 <= j < i ==> v0[j].0 != nv,
        decreases s.len() - i,
    {
        if s[i].name == name {
            assert(first_named_at(v0, nv, i as int));
            assert(forall|k: int| first_named_at(v0, nv, k) ==> k == i);
            s.set(i, Binding { name, value });
            assert(bindings_view(s@) =~= rebound(v0, nv, value));
            return;
        }
        i = i + 1;
    }
    s.push(Binding { name, value });
    assert(bindings_view(s@) =~= rebound(v0, nv, value));
}

/// One result row: node bindings and edge bindings.
#[derive(Clone, Debug)]
pub struct MatchRow {
    pub nodes: Vec<Binding<NodeId>>,
    pub edges: Vec<Binding<EdgeId>>,
}

/// The mathematical view of a row.
pub struct RowView {
    pub nodes: Seq<(Seq<char>, NodeId)>,
    pub edges: Seq<(Seq<char>, EdgeKey)>,
}

/// Edge bindings with identities as keys.
pub open spec fn edge_bindings_view(s: Seq<Binding<EdgeId>>) -> Seq<(Seq<char>, EdgeKey)> {
    s.map_values(|b: Binding<EdgeId>| (b.name@, b.value.key()))
}

impl View for MatchRow {
    type V = RowView;

    open spec fn view(&self) -> RowView {
        RowView { nodes: bindings_view(self.nodes@), edges: edge_bindings_view(self.edges@) }
    }
}

/// The empty row.
pub open spec fn empty_row() -> RowView {
    RowView { nodes: seq![], edges: seq![] }
}

/// `r` with node variable `name` bound to `id`.
pub open spec fn bind_node_view(r: RowView, name: Seq<char>, id: NodeId) -> RowView {
    RowView { nodes: rebound(r.nodes, name, id), edges: r.edges }
}

/// `r` with edge variable `name` bound to `k`.
pub open spec fn bind_edge_view(r: RowView, name: Seq<char>, k: EdgeKey) -> RowView {
    RowView { nodes: r.nodes, edges: rebound(r.edges, name, k) }
}

impl MatchRow {
    /// A row without bindings.
    pub fn new() -> (r: MatchRow)
        ensures
            r@ == empty_row(),
    {
        let r = MatchRow { nodes: Vec::new(), edges: Vec::new() };
        assert(r@.nodes =~= seq![]);
        assert(r@.edges =~= seq![]);
        r
    }

    /// This row with node variable `name` bound to `id`.
    pub fn bind_node(self, name: String, id: NodeId) -> (r: MatchRow)
        ensures
            r@ == bind_node_view(self@, name@, id),
    {
        let mut nodes = self.nodes;
        rebind(&mut nodes, name, id);
        MatchRow { nodes, edges: self.edges }
    }

    /// This row with edge variable `name` bound to `id`.
    pub fn bind_edge(self, name: String, id: EdgeId) -> (r: MatchRow)
        ensures
            r@ == bind_edge_view(self@, name@, id.key()),
    {
        let ghost k = id.key();
        let ghost sv = self@;
        let MatchRow { nodes, edges } = self;
        let mut edges = edges;
        let ghost e0 = edges@;
        let mut i: usize = 0;
        let ghost nv = name@;
        while i < edges.len()
            invariant
                i <= edges.len(),
                edges@ == e0,
                nv == name@,
                k == id.key(),
                bindings_view(nodes@) == sv.nodes,
                sv == self@,
                edge_bindings_view(e0) == sv.edges,
                forall|j: int| 0 <= j < i ==> edge_bindings_view(e0)[j].0 != nv,
            decreases edges.len() - i,
        {
            if edges[i].name == name {
                let ghost v0 = edge_bindings_view(e0);
                assert(first_named_at(v0, nv, i as int));
                assert(forall|m: int| first_named_at(v0, nv, m) ==> m == i);
                edges.set(i, Binding { name, value: id });
                let r = MatchRow { nodes, edges };
                assert(r@.edges =~= rebound(v0, nv, k));
                return r;
            }
            i = i + 1;
        }
        edges.push(Binding { name, value: id });
        let r = MatchRow { nodes, edges };
        assert(r@.edges =~= rebound(edge_bindings_view(e0), nv, k));
        r
    }

    /// The node bound to `name`, if any.
    pub fn node(&self, name: &String) -> (r: Option<NodeId>)
        ensures
            r == bound(self@.nodes, name@),
    {
        let mut i: usize = 0;
        while i < self.nodes.len()
            invariant
                i <= self.nodes.len(),
                forall|j: int| 0 <= j < i ==> self@.nodes[j].0 != name@,
            decreases self.nodes.len() - i,
        {
            if self.nodes[i].name == *name {
                assert(first_named_at(self@.nodes, name@, i as int));
                assert(forall|m: int| first_named_at(self@.nodes, name@, m) ==> m == i);
                return Some(self.nodes[i].value);
            }
            i = i + 1;
        }
        None
    }

    /// A copy with the same bindings.
    pub fn duplicate(&self) -> (r: MatchRow)
        ensures
            r@ == self@,
    {
        let mut nodes: Vec<Binding<NodeId>> = Vec::new();
        let mut i: usize = 0;
        while i < self.nodes.len()
            invariant
                i <= self.nodes.len(),
                nodes@.len() == i,
                forall|j: int| 0 <= j < i ==> (#[trigger] nodes@[j]).name@ == self.nodes@[j].name@ && nodes@[j].value == self.nodes@[j].value,
            decreases self.nodes.len() - i,
        {
            nodes.push(Binding { name: self.nodes[i].name.clone(), value: self.nodes[i].value });
            i = i + 1;
        }
        let mut edges: Vec<Binding<EdgeId>> = Vec::new();
        let mut i: usize = 0;
        while i < self.edges.len()
            invariant
                i <= self.edges.len(),
                edges@.len() == i,
                forall|j: int| 0 <= j < i ==> (#[trigger] edges@[j]).name@ == self.edges@[j].name@ && edges@[j].value.key() == self.edges@[j].value.key(),
            decreases self.edges.len() - i,
        {
            edges.push(Binding { name: self.edges[i].name.clone(), value: self.edges[i].value.duplicate() });
            i = i + 1;
        }
        let r = MatchRow { nodes, edges };
        assert(r@.nodes =~= self@.nodes);
        assert(r@.edges =~= self@.edges);
        r
    }
}

// ---------------------------------------------------------------------
// Breadth-first traversal
// ---------------------------------------------------------------------

/// `e` leaves `cur` in the given direction.
pub open spec fn leaves(e: Edge, outbound: bool, cur: NodeId) -> bool {
    if outbound {
        e.source == cur
    } else {
        e.target == cur
    }
}

/// The node `e` leads to in the given direction.
pub open spec fn far_end(e: Edge, outbound: bool) -> NodeId {
    if outbound {
        e.target
    } else {
        e.source
    }
}

/// The hops from `cur`: for each edge of `edges`, in order, that leaves
/// `cur` and matches `ep`, the node it leads to and its identity.
pub open spec fn hops(edges: Seq<Edge>, ep: EdgePattern, outbound: bool, cur: NodeId) -> Seq<(NodeId, EdgeKey)>
    decreases edges.len(),
{
    if edges.len() == 0 {
        seq![]
    } else {
        let prev = hops(edges.drop_last(), ep, outbound, cur);
        let e = edges.last();
        if leaves(e, outbound, cur) && edge_matches(e, ep) {
            prev.push((far_end(e, outbound), e.key()))
        } else {
            prev
        }
    }
}

/// The hops of `cands` to nodes not in `seen`, the first hop to each node
/// kept, and `seen` grown by the nodes they reach.
pub open spec fn fresh_hops(cands: Seq<(NodeId, EdgeKey)>, seen: Set<NodeId>) -> (Seq<(NodeId, EdgeKey)>, Set<NodeId>)
    decreases cands.len(),
{
    if cands.len() == 0 {
        (seq![], seen)
    } else {
        let (kept, s) = fresh_hops(cands.drop_last(), seen);
        let c = cands.last();
        if s.contains(c.0) {
            (kept, s)
        } else {
            (kept.push(c), s.insert(c.0))
        }
    }
}

/// The nodes of a layer.
pub open spec fn layer_nodes(l: Seq<(NodeId, Option<EdgeKey>)>) -> Seq<NodeId> {
    l.map_values(|x: (NodeId, Option<EdgeKey>)| x.0)
}

/// The next layer after the nodes `layer`: the fresh hops of each node in turn.
pub open spec fn next_layer(
    edges: Seq<Edge>,
    ep: EdgePattern,
    outbound: bool,
    layer: Seq<NodeId>,
    seen: Set<NodeId>,
) -> (Seq<(NodeId, EdgeKey)>, Set<NodeId>)
    decreases layer.len(),
{
    if layer.len() == 0 {
        (seq![], seen)
    } else {
        let (prev, s) = next_layer(edges, ep, outbound, layer.drop_last(), seen);
        let (kept, s2) = fresh_hops(hops(edges, ep, outbound, layer.last()), s);
        (prev + kept, s2)
    }
}

/// Hops as layer entries: each node with the edge that reached it.
pub open spec fn as_entries(s: Seq<(NodeId, EdgeKey)>) -> Seq<(NodeId, Option<EdgeKey>)> {
    s.map_values(|h: (NodeId, EdgeKey)| (h.0, Some(h.1)))
}

/// Layer `d` of the breadth-first search from `start`: each node first
/// reached in `d` hops, with the edge that reached it, and every node
/// reached so far.
pub open spec fn layer(edges: Seq<Edge>, ep: EdgePattern, outbound: bool, start: NodeId, d: nat) -> (Seq<(NodeId, Option<EdgeKey>)>, Set<NodeId>)
    decreases d,
{
    if d == 0 {
        (seq![(start, None)], set![start])
    } else {
        let (l, s) = layer(edges, ep, outbound, start, (d - 1) as nat);
        let (n, s2) = next_layer(edges, ep, outbound, layer_nodes(l), s);
        (as_entries(n), s2)
    }
}

/// The first node of `nodes` with id `id`, if any.
pub open spec fn node_with_id(nodes: Seq<Node>, id: NodeId) -> Option<Node>
    decreases nodes.len(),
{
    if nodes.len() == 0 {
        None
    } else if nodes[0].id == id {
        Some(nodes[0])
    } else {
        node_with_id(nodes.drop_first(), id)
    }
}

/// `row` extended for a node `cur` reached by `last`: the edge variable
/// bound to `last` (when both exist), then the target variable to `cur`.
pub open spec fn extend_row(row: RowView, step: TraversalStep, cur: NodeId, last: Option<EdgeKey>) -> RowView {
    let r1 = match (step.edge.bind, last) {
        (Some(name), Some(k)) => bind_edge_view(row, name@, k),
        _ => row,
    };
    match step.target.bind {
        Some(name) => bind_node_view(r1, name@, cur),
        None => r1,
    }
}

/// The rows a layer yields: for each of its nodes, in order, that exists
/// and matches the step's target, `row` extended for it.
pub open spec fn emit(nodes: Seq<Node>, step: TraversalStep, row: RowView, entries: Seq<(NodeId, Option<EdgeKey>)>) -> Seq<(RowView, NodeId)>
    decreases entries.len(),
{
    if entries.len() == 0 {
        seq![]
    } else {
        let prev = emit(nodes, step, row, entries.drop_last());
        let (cur, last) = entries.last();
        match node_with_id(nodes, cur) {
            Some(n) => if node_matches(n, step.target) {
                prev.push((extend_row(row, step, cur, last), cur))
            } else {
                prev
            },
            None => prev,
        }
    }
}

/// The hop-count range of a step: `(min, max)`, one hop by default.
pub open spec fn hop_range(step: TraversalStep) -> (usize, usize) {
    match step.edge.repeat {
        Some(r) => r,
        None => (1, 1),
    }
}

/// The rows a step yields from `start` for depths `0..=d`: the layers
/// at depths from the step's minimum hop count on, in depth order.
pub open spec fn step_rows_upto(o: Ontology, step: TraversalStep, row: RowView, start: NodeId, d: nat) -> Seq<(RowView, NodeId)>
    decreases d,
{
    let prev = if d == 0 {
        seq![]
    } else {
        step_rows_upto(o, step, row, start, (d - 1) as nat)
    };
    if d >= hop_range(step).0 {
        prev + emit(o.nodes@, step, row, layer(o.edges@, step.edge, step.outbound, start, d).0)
    } else {
        prev
    }
}

/// The rows one step yields from `(row, start)`: every depth within its hop range.
pub open spec fn step_rows(o: Ontology, step: TraversalStep, row: RowView, start: NodeId) -> Seq<(RowView, NodeId)> {
    step_rows_upto(o, step, row, start, hop_range(step).1 as nat)
}

/// The rows one step yields from a whole frontier, entry by entry.
pub open spec fn frontier_rows(o: Ontology, step: TraversalStep, frontier: Seq<(RowView, NodeId)>) -> Seq<(RowView, NodeId)>
    decreases frontier.len(),
{
    if frontier.len() == 0 {
        seq![]
    } else {
        frontier_rows(o, step, frontier.drop_last()) + step_rows(o, step, frontier.last().0, frontier.last().1)
    }
}

/// The seed frontier: each node of `nodes`, in order, matching `seed`,
/// with a row binding the seed variable to it.
pub open spec fn seed_frontier(nodes: Seq<Node>, seed: NodePattern) -> Seq<(RowView, NodeId)>
    decreases nodes.len(),
{
    if nodes.len() == 0 {
        seq![]
    } else {
        let prev = seed_frontier(nodes.drop_last(), seed);
        let n = nodes.last();
        if node_matches(n, seed) {
            prev.push((
                match seed.bind {
                    Some(name) => bind_node_view(empty_row(), name@, n.id),
                    None => empty_row(),
                },
                n.id,
            ))
        } else {
            prev
        }
    }
}

/// The frontier after the first `k` steps.
pub open spec fn frontier_after(o: Ontology, plan: TraversalPlan, k: nat) -> Seq<(RowView, NodeId)>
    decreases k,
{
    if k == 0 {
        seed_frontier(o.nodes@, plan.seed)
    } else {
        frontier_rows(o, plan.steps@[k - 1], frontier_after(o, plan, (k - 1) as nat))
    }
}

/// The view of a hop list.
pub open spec fn hops_view(s: Seq<(NodeId, EdgeId)>) -> Seq<(NodeId, EdgeKey)> {
    s.map_values(|h: (NodeId, EdgeId)| (h.0, h.1.key()))
}

/// The view of a layer.
pub open spec fn entries_view(s: Seq<(NodeId, Option<EdgeId>)>) -> Seq<(NodeId, Option<EdgeKey>)> {
    s.map_values(|x: (NodeId, Option<EdgeId>)| (x.0, match x.1 { Some(e) => Some(e.key()), None => None }))
}

/// The view of a frontier.
pub open spec fn frontier_view(s: Seq<(MatchRow, NodeId)>) -> Seq<(RowView, NodeId)> {
    s.map_values(|x: (MatchRow, NodeId)| (x.0@, x.1))
}

fn hops_exec(edges: &Vec<Edge>, ep: &EdgePattern, outbound: bool, cur: NodeId) -> (r: Vec<(NodeId, EdgeId)>)
    ensures
        hops_view(r@) == hops(edges@, *ep, outbound, cur),
{
    let mut r: Vec<(NodeId, EdgeId)> = Vec::new();
    let mut i: usize = 0;
    while i < edges.len()
        invariant
            i <= edges.len(),
            hops_view(r@) == hops(edges@.take(i as int), *ep, outbound, cur),
        decreases edges.len() - i,
    {
        let e = &edges[i];
        let ghost before = r@;
        assert(edges@.take(i + 1).drop_last() =~= edges@.take(i as int));
        let leaving = if outbound { e.source == cur } else { e.target == cur };
        if leaving && match_edge(e, ep) {
            let far = if outbound { e.target } else { e.source };
            r.push((far, e.id()));
            assert(hops_view(r@) =~= hops_view(before).push((far, e.key())));
        }
        i = i + 1;
    }
    assert(edges@.take(edges@.len() as int) =~= edges@);
    r
}

/// `true` when `v` lists `x`.
fn lists(v: &Vec<NodeId>, x: NodeId) -> (r: bool)
    ensures
        r == v@.contains(x),
{
    let mut i: usize = 0;
    while i < v.len()
        invariant
            i <= v.len(),
            forall|j: int| 0 <= j < i ==> v@[j] != x,
        decreases v.len() - i,
    {
        if v[i] == x {
            assert(v@[i as int] == x);
            return true;
        }
        i = i + 1;
    }
    false
}

fn fresh_hops_exec(cands: Vec<(NodeId, EdgeId)>, seen: &mut Vec<NodeId>) -> (r: Vec<(NodeId, EdgeId)>)
    ensures
        (hops_view(r@), final(seen)@.to_set()) == fresh_hops(hops_view(cands@), old(seen)@.to_set()),
{
    let mut r: Vec<(NodeId, EdgeId)> = Vec::new();
    let mut i: usize = 0;
    let ghost cv = hops_view(cands@);
    while i < cands.len()
        invariant
            i <= cands.len(),
            cv == hops_view(cands@),
            (hops_view(r@), seen@.to_set()) == fresh_hops(cv.take(i as int), old(seen)@.to_set()),
        decreases cands.len() - i,
    {
        assert(cv.take(i + 1).drop_last() =~= cv.take(i as int));
        let (node, ref edge) = cands[i];
        let ghost before = r@;
        let ghost sb = seen@;
        if !lists(seen, node) {
            r.push((node, edge.duplicate()));
            seen.push(node);
            assert(hops_view(r@) =~= hops_view(before).push(cv[i as int]));
            proof {
                sb.lemma_push_to_set_commute(node);
            }
        }
        i = i + 1;
    }
    assert(cv.take(cands.len() as int) =~= cv);
    r
}

fn next_layer_exec(
    edges: &Vec<Edge>,
    ep: &EdgePattern,
    outbound: bool,
    layer_in: &Vec<(NodeId, Option<EdgeId>)>,
    seen: &mut Vec<NodeId>,
) -> (r: Vec<(NodeId, Option<EdgeId>)>)
    ensures
        ({
            let (n, s) = next_layer(edges@, *ep, outbound, layer_nodes(entries_view(layer_in@)), old(seen)@.to_set());
            entries_view(r@) == as_entries(n) && final(seen)@.to_set() == s
        }),
{
    let ghost ln = layer_nodes(entries_view(layer_in@));
    let mut r: Vec<(NodeId, Option<EdgeId>)> = Vec::new();
    let mut i: usize = 0;
    while i < layer_in.len()
        invariant
            i <= layer_in.len(),
            ln == layer_nodes(entries_view(layer_in@)),
            ({
                let (n, s) = next_layer(edges@, *ep, outbound, ln.take(i as int), old(seen)@.to_set());
                entries_view(r@) == as_entries(n) && seen@.to_set() == s
            }),
        decreases layer_in.len() - i,
    {
        assert(ln.take(i + 1).drop_last() =~= ln.take(i as int));
        assert(ln.take(i + 1).last() == layer_in@[i as int].0);
        let cands = hops_exec(edges, ep, outbound, layer_in[i].0);
        let kept = fresh_hops_exec(cands, seen);
        let ghost before = r@;
        let mut t: usize = 0;
        while t < kept.len()
            invariant
                t <= kept.len(),
                r@.len() == before.len() + t,
                forall|j: int| 0 <= j < before.len() ==> r@[j] == before[j],
                forall|j: int| 0 <= j < t ==> ((#[trigger] r@[before.len() + j]).0 == kept@[j].0 && (r@[before.len() + j].1 matches Some(e) && e.key() == kept@[j].1.key())),
            decreases kept.len() - t,
        {
            r.push((kept[t].0, Some(kept[t].1.duplicate())));
            t = t + 1;
        }
        proof {
            let (n0, s0) = next_layer(edges@, *ep, outbound, ln.take(i as int), old(seen)@.to_set());
            let (k1, s1) = fresh_hops(hops(edges@, *ep, outbound, layer_in@[i as int].0), s0);
            assert(hops_view(kept@) == k1);
            assert(entries_view(before) == as_entries(n0));
            assert(entries_view(before).len() == before.len());
            assert(as_entries(n0).len() == n0.len());
            assert(n0.len() == before.len());
            assert forall|j: int| 0 <= j < r@.len() implies #[trigger] entries_view(r@)[j] == as_entries(n0 + k1)[j] by {
                if j < before.len() {
                    assert(r@[j] == before[j]);
                    assert(entries_view(before)[j] == as_entries(n0)[j]);
                } else {
                    let u = j - before.len();
                    assert(r@[before.len() + u].0 == kept@[u].0);
                    assert(hops_view(kept@)[u] == k1[u]);
                    assert((n0 + k1)[j] == k1[u]);
                }
            }
            assert(entries_view(r@) =~= as_entries(n0 + k1));
        }
        i = i + 1;
    }
    assert(ln.take(layer_in.len() as int) =~= ln);
    r
}

/// The first node of `nodes` with id `id`.
fn node_by_id(nodes: &Vec<Node>, id: NodeId) -> (r: Option<&Node>)
    ensures
        match r {
            Some(n) => node_with_id(nodes@, id) == Some(*n),
            None => node_with_id(nodes@, id) is None,
        },
{
    let mut i: usize = 0;
    assert(nodes@.skip(0) =~= nodes@);
    while i < nodes.len()
        invariant
            i <= nodes.len(),
            node_with_id(nodes@, id) == node_with_id(nodes@.skip(i as int), id),
        decreases nodes.len() - i,
    {
        assert(nodes@.skip(i as int)[0] == nodes@[i as int]);
        if nodes[i].id == id {
            return Some(&nodes[i]);
        }
        assert(nodes@.skip(i as int).drop_first() =~= nodes@.skip(i + 1));
        i = i + 1;
    }
    None
}

fn extend(row: &MatchRow, step: &TraversalStep, cur: NodeId, last: &Option<EdgeId>) -> (r: MatchRow)
    ensures
        r@ == extend_row(row@, *step, cur, match last { Some(e) => Some(e.key()), None => None }),
{
    let mut r = row.duplicate();
    match (&step.edge.bind, last) {
        (Some(name), Some(e)) => {
            r = r.bind_edge(name.clone(), e.duplicate());
        },
        _ => {},
    }
    match &step.target.bind {
        Some(name) => {
            r = r.bind_node(name.clone(), cur);
        },
        None => {},
    }
    r
}

fn emit_exec(
    nodes: &Vec<Node>,
    step: &TraversalStep,
    row: &MatchRow,
    entries: &Vec<(NodeId, Option<EdgeId>)>,
    out: &mut Vec<(MatchRow, NodeId)>,
)
    ensures
        frontier_view(final(out)@) == frontier_view(old(out)@) + emit(nodes@, *step, row@, entries_view(entries@)),
{
    let ghost ev = entries_view(entries@);
    let ghost o0 = frontier_view(out@);
    let mut i: usize = 0;
    while i < entries.len()
        invariant
            i <= entries.len(),
            ev == entries_view(entries@),
            o0 == frontier_view(old(out)@),
            frontier_view(out@) == o0 + emit(nodes@, *step, row@, ev.take(i as int)),
        decreases entries.len() - i,
    {
        assert(ev.take(i + 1).drop_last() =~= ev.take(i as int));
        assert(ev.take(i + 1).last() == ev[i as int]);
        let cur = entries[i].0;
        let ghost before = out@;
        match node_by_id(nodes, cur) {
            Some(n) => {
                if match_node(n, &step.target) {
                    let nr = extend(row, step, cur, &entries[i].1);
                    out.push((nr, cur));
                    assert(frontier_view(out@) =~= frontier_view(before).push((nr@, cur)));
                }
            },
            None => {},
        }
        i = i + 1;
    }
    assert(ev.take(entries.len() as int) =~= ev);
}

/// Once a layer is empty, every later layer is.
proof fn lemma_layers_stay_empty(edges: Seq<Edge>, ep: EdgePattern, outbound: bool, start: NodeId, d: nat, e: nat)
    requires
        layer(edges, ep, outbound, start, d).0.len() == 0,
        d <= e,
    ensures
        layer(edges, ep, outbound, start, e).0.len() == 0,
    decreases e - d,
{
    if d < e {
        let (l, sn) = layer(edges, ep, outbound, start, d);
        assert(layer_nodes(l) =~= Seq::<NodeId>::empty());
        assert(as_entries(Seq::<(NodeId, EdgeKey)>::empty()) =~= Seq::<(NodeId, Option<EdgeKey>)>::empty());
        lemma_layers_stay_empty(edges, ep, outbound, start, d + 1, e);
    }
}

/// Depths whose layers are empty add no rows.
proof fn lemma_rows_after_empty_layer(o: Ontology, step: TraversalStep, row: RowView, start: NodeId, d: nat, m: nat)
    requires
        1 <= d <= m,
        layer(o.edges@, step.edge, step.outbound, start, d).0.len() == 0,
    ensures
        step_rows_upto(o, step, row, start, m) == step_rows_upto(o, step, row, start, (d - 1) as nat),
    decreases m,
{
    if m > d {
        lemma_rows_after_empty_layer(o, step, row, start, d, (m - 1) as nat);
    }
    lemma_layers_stay_empty(o.edges@, step.edge, step.outbound, start, d, m);
    let l = layer(o.edges@, step.edge, step.outbound, start, m).0;
    assert(emit(o.nodes@, step, row, l) =~= Seq::<(RowView, NodeId)>::empty());
    assert(step_rows_upto(o, step, row, start, m) =~= step_rows_upto(o, step, row, start, (m - 1) as nat));
}

fn step_rows_exec(o: &Ontology, step: &TraversalStep, row: &MatchRow, start: NodeId, out: &mut Vec<(MatchRow, NodeId)>)
    ensures
        frontier_view(final(out)@) == frontier_view(old(out)@) + step_rows(*o, *step, row@, start),
{
    let (min, max) = match step.edge.repeat {
        Some(r) => r,
        None => (1, 1),
    };
    let ghost o0 = frontier_view(out@);
    let mut seen: Vec<NodeId> = Vec::new();
    seen.push(start);
    let mut current: Vec<(NodeId, Option<EdgeId>)> = Vec::new();
    current.push((start, None));
    let mut depth: usize = 0;
    proof {
        assert(seen@[0] == start);
        assert(seen@.to_set() =~= set![start]);
        assert(entries_view(current@) =~= seq![(start, None::<EdgeKey>)]);
    }
    loop
        invariant_except_break
            (entries_view(current@), seen@.to_set()) == layer(o.edges@, step.edge, step.outbound, start, depth as nat),
            frontier_view(out@) == o0 + if depth == 0 {
                seq![]
            } else {
                step_rows_upto(*o, *step, row@, start, (depth - 1) as nat)
            },
            depth <= max,
        invariant
            (min, max) == hop_range(*step),
            o0 == frontier_view(old(out)@),
        ensures
            frontier_view(out@) == o0 + step_rows(*o, *step, row@, start),
        decreases max - depth,
    {
        if depth >= min {
            emit_exec(&o.nodes, step, row, &current, out);
        }
        assert(frontier_view(out@) =~= o0 + step_rows_upto(*o, *step, row@, start, depth as nat));
        if depth == max {
            break;
        }
        let next = next_layer_exec(&o.edges, &step.edge, step.outbound, &current, &mut seen);
        current = next;
        depth = depth + 1;
        if current.len() == 0 {
            proof {
                lemma_rows_after_empty_layer(*o, *step, row@, start, depth as nat, max as nat);
            }
            break;
        }
    }
}

// ---------------------------------------------------------------------
// Ordering, paging and projection
// ---------------------------------------------------------------------

/// Compare two optional node ids, absent first: `-1`, `0` or `1`.
pub open spec fn id_rank(a: Option<NodeId>, b: Option<NodeId>) -> int {
    match (a, b) {
        (None, None) => 0,
        (None, Some(_)) => -1,
        (Some(_), None) => 1,
        (Some(x), Some(y)) => if x < y {
            -1
        } else if x == y {
            0
        } else {
            1
        },
    }
}

/// The view of an ordering.
pub open spec fn order_view(s: Seq<(String, SortOrder)>) -> Seq<(Seq<char>, SortOrder)> {
    s.map_values(|x: (String, SortOrder)| (x.0@, x.1))
}

/// Compare rows by the sort keys of `order` from key `i` on: the first key
/// on which they differ decides, reversed for descending keys.
pub open spec fn row_rank(a: RowView, b: RowView, order: Seq<(Seq<char>, SortOrder)>, i: int) -> int
    decreases order.len() - i,
{
    if i >= order.len() || i < 0 {
        0
    } else {
        let c = id_rank(bound(a.nodes, order[i].0), bound(b.nodes, order[i].0));
        if c != 0 {
            if order[i].1 == SortOrder::Ascending {
                c
            } else {
                -c
            }
        } else {
            row_rank(a, b, order, i + 1)
        }
    }
}

/// `x` inserted into `s` after every row that does not sort after it.
pub open spec fn insert_row(s: Seq<RowView>, x: RowView, order: Seq<(Seq<char>, SortOrder)>) -> Seq<RowView>
    decreases s.len(),
{
    if s.len() == 0 {
        seq![x]
    } else if row_rank(s.last(), x, order, 0) > 0 {
        insert_row(s.drop_last(), x, order).push(s.last())
    } else {
        s.push(x)
    }
}

/// `rows` sorted by `order`, stably: rows with equal keys keep their order.
pub open spec fn sort_rows(rows: Seq<RowView>, order: Seq<(Seq<char>, SortOrder)>) -> Seq<RowView>
    decreases rows.len(),
{
    if rows.len() == 0 {
        seq![]
    } else {
        insert_row(sort_rows(rows.drop_last(), order), rows.last(), order)
    }
}

/// The bindings of `s` whose names are listed in `cols`, in order.
pub open spec fn keep_named<T>(s: Seq<(Seq<char>, T)>, cols: Seq<Seq<char>>) -> Seq<(Seq<char>, T)>
    decreases s.len(),
{
    if s.len() == 0 {
        seq![]
    } else if cols.contains(s.last().0) {
        keep_named(s.drop_last(), cols).push(s.last())
    } else {
        keep_named(s.drop_last(), cols)
    }
}

/// A row reduced to the bindings named in `cols` (all of them when `cols` is empty).
pub open spec fn project_row(r: RowView, cols: Seq<Seq<char>>) -> RowView {
    if cols.len() == 0 {
        r
    } else {
        RowView { nodes: keep_named(r.nodes, cols), edges: keep_named(r.edges, cols) }
    }
}

/// The views of a list of strings.
pub open spec fn names_view(s: Seq<String>) -> Seq<Seq<char>> {
    s.map_values(|x: String| x@)
}

/// `rows` after a plan's ordering, skip, limit and projection.
pub open spec fn order_and_project(rows: Seq<RowView>, plan: TraversalPlan) -> Seq<RowView> {
    let sorted = sort_rows(rows, order_view(plan.order@));
    let from = if plan.skip < sorted.len() { plan.skip as int } else { sorted.len() as int };
    let skipped = sorted.subrange(from, sorted.len() as int);
    let limited = match plan.limit {
        Some(n) => if n < skipped.len() { skipped.take(n as int) } else { skipped },
        None => skipped,
    };
    limited.map_values(|r: RowView| project_row(r, names_view(plan.return_columns@)))
}

/// The views of a list of rows.
pub open spec fn rows_view(s: Seq<MatchRow>) -> Seq<RowView> {
    s.map_values(|r: MatchRow| r@)
}

fn rank_ids(a: Option<NodeId>, b: Option<NodeId>) -> (r: i8)
    ensures
        r as int == id_rank(a, b),
{
    match (a, b) {
        (None, None) => 0,
        (None, Some(_)) => -1,
        (Some(_), None) => 1,
        (Some(x), Some(y)) => if x < y {
            -1
        } else if x == y {
            0
        } else {
            1
        },
    }
}

/// Compare two rows under `order`: `-1`, `0` or `1`.
fn compare_rows(a: &MatchRow, b: &MatchRow, order: &Vec<(String, SortOrder)>) -> (r: i8)
    ensures
        r as int == row_rank(a@, b@, order_view(order@), 0),
        -1 <= r <= 1,
{
    let ghost ov = order_view(order@);
    let mut i: usize = order.len();
    let mut acc: i8 = 0;
    while i > 0
        invariant
            i <= order.len(),
            ov == order_view(order@),
            acc as int == row_rank(a@, b@, ov, i as int),
            -1 <= acc <= 1,
        decreases i,
    {
        i = i - 1;
        let c = rank_ids(a.node(&order[i].0), b.node(&order[i].0));
        assert(ov[i as int] == (order@[i as int].0@, order@[i as int].1));
        if c != 0 {
            acc = match order[i].1 {
                SortOrder::Ascending => c,
                SortOrder::Descending => -c,
            };
        }
    }
    acc
}

/// Insert `x` into `sorted` after every row that does not sort after it.
fn insert_sorted(sorted: &mut Vec<MatchRow>, x: MatchRow, order: &Vec<(String, SortOrder)>)
    ensures
        rows_view(final(sorted)@) == insert_row(rows_view(old(sorted)@), x@, order_view(order@)),
{
    let ghost sv = rows_view(sorted@);
    let ghost ov = order_view(order@);
    let mut j: usize = sorted.len();
    assert(sv.take(sv.len() as int) =~= sv);
    assert(sv.skip(sv.len() as int) =~= Seq::<RowView>::empty());
    while j > 0 && compare_rows(&sorted[j - 1], &x, order) > 0
        invariant
            j <= sorted.len(),
            sv == rows_view(sorted@),
            sv == rows_view(old(sorted)@),
            ov == order_view(order@),
            insert_row(sv, x@, ov) == insert_row(sv.take(j as int), x@, ov) + sv.skip(j as int),
        decreases j,
    {
        assert(sv.take(j as int).drop_last() =~= sv.take(j - 1));
        assert(sv.take(j as int).last() == sv[j - 1]);
        assert(sv.skip(j - 1) =~= seq![sv[j - 1]] + sv.skip(j as int));
        assert(insert_row(sv.take(j - 1), x@, ov).push(sv[j - 1]) + sv.skip(j as int) =~= insert_row(sv.take(j - 1), x@, ov) + sv.skip(j - 1));
        j = j - 1;
    }
    let ghost xv = x@;
    sorted.insert(j, x);
    assert(rows_view(sorted@) =~= sv.take(j as int).push(xv) + sv.skip(j as int));
}

/// `rows` sorted stably by `order`.
fn sort_rows_exec(input: &Vec<MatchRow>, order: &Vec<(String, SortOrder)>) -> (r: Vec<MatchRow>)
    ensures
        rows_view(r@) == sort_rows(rows_view(input@), order_view(order@)),
{
    let ghost rv = rows_view(input@);
    let ghost ov = order_view(order@);
    let mut sorted: Vec<MatchRow> = Vec::new();
    let mut i: usize = 0;
    assert(rv.take(0) =~= Seq::<RowView>::empty());
    assert(rows_view(sorted@) =~= Seq::<RowView>::empty());
    while i < input.len()
        invariant
            i <= input.len(),
            rv == rows_view(input@),
            ov == order_view(order@),
            rows_view(sorted@) == sort_rows(rv.take(i as int), ov),
        decreases input.len() - i,
    {
        assert(rv.take(i + 1).drop_last() =~= rv.take(i as int));
        assert(rv.take(i + 1).last() == input@[i as int]@);
        insert_sorted(&mut sorted, input[i].duplicate(), order);
        i = i + 1;
    }
    assert(rv.take(input.len() as int) =~= rv);
    sorted
}

/// Sort `rows` stably by `order`, drop `skip` rows, keep `limit`, and
/// reduce each row to the returned columns.
pub fn apply_ordering_and_projection(rows: &mut Vec<MatchRow>, plan: &TraversalPlan)
    ensures
        rows_view(final(rows)@) == order_and_project(rows_view(old(rows)@), *plan),
{
    let mut input: Vec<MatchRow> = Vec::new();
    std::mem::swap(&mut input, rows);
    let sorted = sort_rows_exec(&input, &plan.order);
    let ghost sv = rows_view(sorted@);
    let from = if plan.skip < sorted.len() { plan.skip } else { sorted.len() };
    let mut paged: Vec<MatchRow> = Vec::new();
    let end = match plan.limit {
        Some(n) => if n < sorted.len() - from { from + n } else { sorted.len() },
        None => sorted.len(),
    };
    let ghost cols = names_view(plan.return_columns@);
    let mut k: usize = from;
    while k < end
        invariant
            from <= k <= end <= sorted.len(),
            sv == rows_view(sorted@),
            cols == names_view(plan.return_columns@),
            paged@.len() == k - from,
            forall|j: int| 0 <= j < k - from ==> (#[trigger] paged@[j])@ == project_row(sv[from + j], cols),
        decreases end - k,
    {
        let r = project(&sorted[k], &plan.return_columns);
        paged.push(r);
        k = k + 1;
    }
    proof {
        let skipped = sv.subrange(from as int, sv.len() as int);
        let limited = match plan.limit {
            Some(n) => if n < skipped.len() { skipped.take(n as int) } else { skipped },
            None => skipped,
        };
        assert(limited =~= sv.subrange(from as int, end as int));
        assert(rows_view(paged@) =~= limited.map_values(|r: RowView| project_row(r, cols)));
    }
    *rows = paged;
}

/// The bindings of `s` named in `cols`.
fn keep_bindings<T: Copy>(s: &Vec<Binding<T>>, cols: &Vec<String>) -> (r: Vec<Binding<T>>)
    ensures
        bindings_view(r@) == keep_named(bindings_view(s@), names_view(cols@)),
{
    let ghost sv = bindings_view(s@);
    let ghost cv = names_view(cols@);
    let mut r: Vec<Binding<T>> = Vec::new();
    let mut i: usize = 0;
    while i < s.len()
        invariant
            i <= s.len(),
            sv == bindings_view(s@),
            cv == names_view(cols@),
            bindings_view(r@) == keep_named(sv.take(i as int), cv),
        decreases s.len() - i,
    {
        assert(sv.take(i + 1).drop_last() =~= sv.take(i as int));
        assert(sv.take(i + 1).last() == sv[i as int]);
        let listed = names_contain(cols, &s[i].name);
        let ghost before = r@;
        if listed {
            r.push(Binding { name: s[i].name.clone(), value: s[i].value });
            assert(bindings_view(r@) =~= bindings_view(before).push(sv[i as int]));
        }
        i = i + 1;
    }
    assert(sv.take(s.len() as int) =~= sv);
    r
}

/// The edge bindings of `s` named in `cols`.
fn keep_edge_bindings(s: &Vec<Binding<EdgeId>>, cols: &Vec<String>) -> (r: Vec<Binding<EdgeId>>)
    ensures
        edge_bindings_view(r@) == keep_named(edge_bindings_view(s@), names_view(cols@)),
{
    let ghost sv = edge_bindings_view(s@);
    let ghost cv = names_view(cols@);
    let mut r: Vec<Binding<EdgeId>> = Vec::new();
    let mut i: usize = 0;
    while i < s.len()
        invariant
            i <= s.len(),
            sv == edge_bindings_view(s@),
            cv == names_view(cols@),
            edge_bindings_view(r@) == keep_named(sv.take(i as int), cv),
        decreases s.len() - i,
    {
        assert(sv.take(i + 1).drop_last() =~= sv.take(i as int));
        assert(sv.take(i + 1).last() == sv[i as int]);
        let listed = names_contain(cols, &s[i].name);
        let ghost before = r@;
        if listed {
            r.push(Binding { name: s[i].name.clone(), value: s[i].value.duplicate() });
            assert(edge_bindings_view(r@) =~= edge_bindings_view(before).push(sv[i as int]));
        }
        i = i + 1;
    }
    assert(sv.take(s.len() as int) =~= sv);
    r
}

/// `true` when `cols` lists `name`.
fn names_contain(cols: &Vec<String>, name: &String) -> (r: bool)
    ensures
        r == names_view(cols@).contains(name@),
{
    let mut i: usize = 0;
    while i < cols.len()
        invariant
            i <= cols.len(),
            forall|j: int| 0 <= j < i ==> cols@[j]@ != name@,
        decreases cols.len() - i,
    {
        if cols[i] == *name {
            assert(names_view(cols@)[i as int] == name@);
            return true;
        }
        i = i + 1;
    }
    assert forall|j: int| 0 <= j < names_view(cols@).len() implies names_view(cols@)[j] != name@ by {
        assert(names_view(cols@)[j] == cols@[j]@);
    }
    false
}

/// `row` reduced to the bindings named in `cols` (all of them when `cols` is empty).
fn project(row: &MatchRow, cols: &Vec<String>) -> (r: MatchRow)
    ensures
        r@ == project_row(row@, names_view(cols@)),
{
    if cols.len() == 0 {
        row.duplicate()
    } else {
        MatchRow { nodes: keep_bindings(&row.nodes, cols), edges: keep_edge_bindings(&row.edges, cols) }
    }
}

// ---------------------------------------------------------------------
// Queries
// ---------------------------------------------------------------------

/// The rows of a traversal: the frontier after every step, then ordered,
/// paged and projected by the plan.
pub open spec fn traversal(o: Ontology, plan: TraversalPlan) -> Seq<RowView> {
    order_and_project(
        frontier_after(o, plan, plan.steps@.len()).map_values(|x: (RowView, NodeId)| x.0),
        plan,
    )
}

/// The ordering `match_pattern` sorts by: the bound variable, ascending.
pub open spec fn pattern_order(p: NodePattern) -> Seq<(Seq<char>, SortOrder)> {
    match p.bind {
        Some(name) => seq![(name@, SortOrder::Ascending)],
        None => seq![],
    }
}

fn seed_exec(o: &Ontology, seed: &NodePattern) -> (r: Vec<(MatchRow, NodeId)>)
    ensures
        frontier_view(r@) == seed_frontier(o.nodes@, *seed),
{
    let mut r: Vec<(MatchRow, NodeId)> = Vec::new();
    let mut i: usize = 0;
    while i < o.nodes.len()
        invariant
            i <= o.nodes.len(),
            frontier_view(r@) == seed_frontier(o.nodes@.take(i as int), *seed),
        decreases o.nodes.len() - i,
    {
        assert(o.nodes@.take(i + 1).drop_last() =~= o.nodes@.take(i as int));
        assert(o.nodes@.take(i + 1).last() == o.nodes@[i as int]);
        let node = &o.nodes[i];
        let ghost before = r@;
        if match_node(node, seed) {
            let row = match &seed.bind {
                Some(name) => MatchRow::new().bind_node(name.clone(), node.id),
                None => MatchRow::new(),
            };
            r.push((row, node.id));
            assert(frontier_view(r@) =~= frontier_view(before).push((row@, node.id)));
        }
        i = i + 1;
    }
    assert(o.nodes@.take(o.nodes@.len() as int) =~= o.nodes@);
    r
}

/// The rows of nodes matching `pattern`, each binding the pattern's
/// variable (if any) to its node, sorted by the bound node.
pub fn match_pattern(o: &Ontology, pattern: &NodePattern) -> (r: Vec<MatchRow>)
    ensures
        rows_view(r@) == sort_rows(
            seed_frontier(o.nodes@, *pattern).map_values(|x: (RowView, NodeId)| x.0),
            pattern_order(*pattern),
        ),
{
    let seeds = seed_exec(o, pattern);
    let mut rows: Vec<MatchRow> = Vec::new();
    let mut i: usize = 0;
    let ghost fv = frontier_view(seeds@);
    while i < seeds.len()
        invariant
            i <= seeds.len(),
            fv == frontier_view(seeds@),
            rows@.len() == i,
            forall|j: int| 0 <= j < i ==> (#[trigger] rows@[j])@ == fv[j].0,
        decreases seeds.len() - i,
    {
        rows.push(seeds[i].0.duplicate());
        i = i + 1;
    }
    let mut order: Vec<(String, SortOrder)> = Vec::new();
    match &pattern.bind {
        Some(name) => {
            order.push((name.clone(), SortOrder::Ascending));
        },
        None => {},
    }
    assert(order_view(order@) =~= pattern_order(*pattern));
    assert(rows_view(rows@) =~= fv.map_values(|x: (RowView, NodeId)| x.0));
    sort_rows_exec(&rows, &order)
}

/// Run `plan` over `o`: seed rows, each step's breadth-first hops, then
/// ordering, paging and projection.
pub fn traverse(o: &Ontology, plan: &TraversalPlan) -> (r: Vec<MatchRow>)
    ensures
        rows_view(r@) == traversal(*o, *plan),
{
    let mut frontier = seed_exec(o, &plan.seed);
    let mut k: usize = 0;
    while k < plan.steps.len()
        invariant
            k <= plan.steps.len(),
            frontier_view(frontier@) == frontier_after(*o, *plan, k as nat),
        decreases plan.steps.len() - k,
    {
        let step = &plan.steps[k];
        let ghost fv = frontier_view(frontier@);
        let mut next: Vec<(MatchRow, NodeId)> = Vec::new();
        let mut i: usize = 0;
        assert(frontier_view(next@) =~= frontier_rows(*o, *step, fv.take(0)));
        while i < frontier.len()
            invariant
                i <= frontier.len(),
                fv == frontier_view(frontier@),
                *step == plan.steps@[k as int],
                frontier_view(next@) == frontier_rows(*o, *step, fv.take(i as int)),
            decreases frontier.len() - i,
        {
            assert(fv.take(i + 1).drop_last() =~= fv.take(i as int));
            assert(fv.take(i + 1).last() == fv[i as int]);
            step_rows_exec(o, step, &frontier[i].0, frontier[i].1, &mut next);
            i = i + 1;
        }
        assert(fv.take(frontier.len() as int) =~= fv);
        frontier = next;
        k = k + 1;
    }
    let ghost fv = frontier_view(frontier@);
    let mut rows: Vec<MatchRow> = Vec::new();
    let mut i: usize = 0;
    while i < frontier.len()
        invariant
            i <= frontier.len(),
            fv == frontier_view(frontier@),
            rows@.len() == i,
            forall|j: int| 0 <= j < i ==> (#[trigger] rows@[j])@ == fv[j].0,
        decreases frontier.len() - i,
    {
        rows.push(frontier[i].0.duplicate());
        i = i + 1;
    }
    assert(rows_view(rows@) =~= fv.map_values(|x: (RowView, NodeId)| x.0));
    apply_ordering_and_projection(&mut rows, plan);
    rows
}

// ---------------------------------------------------------------------
// Diffs
// ---------------------------------------------------------------------

/// The entries of `s` outside `excluded`, each once, in order of first appearance.
pub open spec fn fresh_ids<T>(s: Seq<T>, excluded: Set<T>) -> Seq<T>
    decreases s.len(),
{
    if s.len() == 0 {
        seq![]
    } else {
        let prev = fresh_ids(s.drop_last(), excluded);
        if excluded.contains(s.last()) || prev.contains(s.last()) {
            prev
        } else {
            prev.push(s.last())
        }
    }
}

/// The ids of a list of nodes, in order.
pub open spec fn ids_of(s: Seq<Node>) -> Seq<NodeId> {
    s.map_values(|n: Node| n.id)
}

/// The identities of a list of edges, in order.
pub open spec fn keys_of(s: Seq<Edge>) -> Seq<EdgeKey> {
    s.map_values(|e: Edge| e.key())
}

/// The views of a list of edge identities.
pub open spec fn edge_ids_view(s: Seq<EdgeId>) -> Seq<EdgeKey> {
    s.map_values(|e: EdgeId| e.key())
}

/// How one ontology differs from another, by node ids and edge identities.
#[derive(Clone, Debug)]
pub struct StoreDiff {
    pub added_nodes: Vec<NodeId>,
    pub removed_nodes: Vec<NodeId>,
    pub added_edges: Vec<EdgeId>,
    pub removed_edges: Vec<EdgeId>,
}

fn fresh_node_ids(s: &Vec<Node>, other: &Vec<Node>) -> (r: Vec<NodeId>)
    ensures
        r@ == fresh_ids(ids_of(s@), ids_of(other@).to_set()),
{
    let ghost sv = ids_of(s@);
    let ghost ex = ids_of(other@).to_set();
    let mut r: Vec<NodeId> = Vec::new();
    let mut i: usize = 0;
    while i < s.len()
        invariant
            i <= s.len(),
            sv == ids_of(s@),
            ex == ids_of(other@).to_set(),
            r@ == fresh_ids(sv.take(i as int), ex),
        decreases s.len() - i,
    {
        assert(sv.take(i + 1).drop_last() =~= sv.take(i as int));
        assert(sv.take(i + 1).last() == s@[i as int].id);
        let id = s[i].id;
        let mut j: usize = 0;
        let mut found = false;
        while j < other.len()
            invariant
                j <= other.len(),
                ex == ids_of(other@).to_set(),
                found == exists|t: int| 0 <= t < j && other@[t].id == id,
            decreases other.len() - j,
        {
            if other[j].id == id {
                found = true;
            }
            j = j + 1;
        }
        assert(found == ex.contains(id)) by {
            if found {
                let t = choose|t: int| 0 <= t < other@.len() && other@[t].id == id;
                assert(ids_of(other@)[t] == id);
            }
            if ex.contains(id) {
                let t = choose|t: int| 0 <= t < ids_of(other@).len() && ids_of(other@)[t] == id;
                assert(other@[t].id == id);
            }
        }
        if !found && !lists(&r, id) {
            r.push(id);
        }
        i = i + 1;
    }
    assert(sv.take(s.len() as int) =~= sv);
    r
}

fn lists_edge(v: &Vec<EdgeId>, k: &EdgeId) -> (r: bool)
    ensures
        r == edge_ids_view(v@).contains(k.key()),
{
    let mut i: usize = 0;
    while i < v.len()
        invariant
            i <= v.len(),
            forall|j: int| 0 <= j < i ==> v@[j].key() != k.key(),
        decreases v.len() - i,
    {
        if v[i].source == k.source && v[i].target == k.target && v[i].label == k.label {
            assert(edge_ids_view(v@)[i as int] == k.key());
            return true;
        }
        i = i + 1;
    }
    assert forall|j: int| 0 <= j < edge_ids_view(v@).len() implies edge_ids_view(v@)[j] != k.key() by {
        assert(edge_ids_view(v@)[j] == v@[j].key());
    }
    false
}

fn fresh_edge_ids(s: &Vec<Edge>, other: &Vec<Edge>) -> (r: Vec<EdgeId>)
    ensures
        edge_ids_view(r@) == fresh_ids(keys_of(s@), keys_of(other@).to_set()),
{
    let ghost sv = keys_of(s@);
    let ghost ex = keys_of(other@).to_set();
    let mut r: Vec<EdgeId> = Vec::new();
    let mut i: usize = 0;
    while i < s.len()
        invariant
            i <= s.len(),
            sv == keys_of(s@),
            ex == keys_of(other@).to_set(),
            edge_ids_view(r@) == fresh_ids(sv.take(i as int), ex),
        decreases s.len() - i,
    {
        assert(sv.take(i + 1).drop_last() =~= sv.take(i as int));
        assert(sv.take(i + 1).last() == s@[i as int].key());
        let id = s[i].id();
        let mut j: usize = 0;
        let mut found = false;
        while j < other.len()
            invariant
                j <= other.len(),
                ex == keys_of(other@).to_set(),
                found == exists|t: int| 0 <= t < j && other@[t].key() == id.key(),
            decreases other.len() - j,
        {
            if other[j].source == id.source && other[j].target == id.target && other[j].label == id.label {
                found = true;
            }
            j = j + 1;
        }
        assert(found == ex.contains(id.key())) by {
            if found {
                let t = choose|t: int| 0 <= t < other@.len() && other@[t].key() == id.key();
                assert(keys_of(other@)[t] == id.key());
            }
            if ex.contains(id.key()) {
                let t = choose|t: int| 0 <= t < keys_of(other@).len() && keys_of(other@)[t] == id.key();
                assert(other@[t].key() == id.key());
            }
        }
        let ghost before = r@;
        if !found && !lists_edge(&r, &id) {
            r.push(id);
            assert(edge_ids_view(r@) =~= edge_ids_view(before).push(sv[i as int]));
        }
        i = i + 1;
    }
    assert(sv.take(s.len() as int) =~= sv);
    r
}

/// How `current` differs from `other`: nodes and edges present in one and
/// not the other, each once, in the order they appear.
pub fn diff(current: &Ontology, other: &Ontology) -> (r: StoreDiff)
    ensures
        r.added_nodes@ == fresh_ids(ids_of(current.nodes@), ids_of(other.nodes@).to_set()),
        r.removed_nodes@ == fresh_ids(ids_of(other.nodes@), ids_of(current.nodes@).to_set()),
        edge_ids_view(r.added_edges@) == fresh_ids(keys_of(current.edges@), keys_of(other.edges@).to_set()),
        edge_ids_view(r.removed_edges@) == fresh_ids(keys_of(other.edges@), keys_of(current.edges@).to_set()),
{
    StoreDiff {
        added_nodes: fresh_node_ids(&current.nodes, &other.nodes),
        removed_nodes: fresh_node_ids(&other.nodes, &current.nodes),
        added_edges: fresh_edge_ids(&current.edges, &other.edges),
        removed_edges: fresh_edge_ids(&other.edges, &current.edges),
    }
}

// ---------------------------------------------------------------------
// Commits
// ---------------------------------------------------------------------

/// Nodes, edges and axioms to upsert together.
#[derive(Clone, Debug)]
pub struct OntologyDelta {
    pub nodes: Vec<Node>,
    pub edges: Vec<Edge>,
    pub axioms: Vec<Axiom>,
}

impl OntologyDelta {
    /// An empty delta.
    pub fn new() -> (r: OntologyDelta)
        ensures
            r.nodes@.len() == 0,
            r.edges@.len() == 0,
            r.axioms@.len() == 0,
    {
        OntologyDelta { nodes: Vec::new(), edges: Vec::new(), axioms: Vec::new() }
    }

    /// This delta with one more node.
    pub fn with_node(self, node: Node) -> (r: OntologyDelta)
        ensures
            r.nodes@ == self.nodes@.push(node),
            r.edges == self.edges,
            r.axioms == self.axioms,
    {
        let mut nodes = self.nodes;
        nodes.push(node);
        OntologyDelta { nodes, edges: self.edges, axioms: self.axioms }
    }

    /// This delta with one more edge.
    pub fn with_edge(self, edge: Edge) -> (r: OntologyDelta)
        ensures
            r.edges@ == self.edges@.push(edge),
            r.nodes == self.nodes,
            r.axioms == self.axioms,
    {
        let mut edges = self.edges;
        edges.push(edge);
        OntologyDelta { nodes: self.nodes, edges, axioms: self.axioms }
    }

    /// This delta with one more axiom.
    pub fn with_axiom(self, ax: Axiom) -> (r: OntologyDelta)
        ensures
            r.axioms@ == self.axioms@.push(ax),
            r.nodes == self.nodes,
            r.edges == self.edges,
    {
        let mut axioms = self.axioms;
        axioms.push(ax);
        OntologyDelta { nodes: self.nodes, edges: self.edges, axioms }
    }
}

/// `s` with every node of `d` upserted in turn.
pub open spec fn nodes_upserted(s: Seq<Node>, d: Seq<Node>) -> Seq<Node>
    decreases d.len(),
{
    if d.len() == 0 {
        s
    } else {
        node_upserted(nodes_upserted(s, d.drop_last()), d.last())
    }
}

/// `s` with every edge of `d` upserted in turn.
pub open spec fn edges_upserted(s: Seq<Edge>, d: Seq<Edge>) -> Seq<Edge>
    decreases d.len(),
{
    if d.len() == 0 {
        s
    } else {
        edge_upserted(edges_upserted(s, d.drop_last()), d.last())
    }
}

/// `a`, stamped with provenance `pid` when it carries none.
pub open spec fn stamped(a: Axiom, pid: ProvenanceId) -> Axiom {
    if a.provenance is None {
        Axiom { kind: a.kind, provenance: Some(pid) }
    } else {
        a
    }
}

/// `s` with every axiom of `d`, stamped with `pid`, upserted in turn.
pub open spec fn axioms_upserted(s: Seq<Axiom>, d: Seq<Axiom>, pid: ProvenanceId) -> Seq<Axiom>
    decreases d.len(),
{
    if d.len() == 0 {
        s
    } else {
        axiom_upserted(axioms_upserted(s, d.drop_last(), pid), stamped(d.last(), pid))
    }
}

/// A store's state: the ontology, its provenance ledger and a version
/// counter bumped by every commit.
#[derive(Debug)]
pub struct StoreState {
    pub ontology: Ontology,
    pub provenance: ProvenanceLog,
    pub version: u64,
}

impl StoreState {
    /// The empty state at version zero.
    pub fn new() -> (r: StoreState)
        ensures
            crate::checkpointer::empty_ontology(r.ontology),
            crate::checkpointer::empty_log(r.provenance),
            r.version == 0,
    {
        StoreState { ontology: Ontology::new(), provenance: ProvenanceLog::new(), version: 0 }
    }

    /// Apply `delta` (nodes, then edges, then axioms stamped with the
    /// activity's id where they carry no provenance), record `activity`,
    /// and bump the version (saturating). Returns the activity's id.
    pub fn commit_with_provenance(&mut self, delta: OntologyDelta, activity: Activity) -> (pid: ProvenanceId)
        requires
            old(self).provenance.wf(),
        ensures
            pid == activity.id,
            final(self).ontology.nodes@ == nodes_upserted(old(self).ontology.nodes@, delta.nodes@),
            final(self).ontology.edges@ == edges_upserted(old(self).ontology.edges@, delta.edges@),
            final(self).ontology.axioms@ == axioms_upserted(old(self).ontology.axioms@, delta.axioms@, pid),
            final(self).ontology.iri == old(self).ontology.iri,
            final(self).ontology.vocabulary == old(self).ontology.vocabulary,
            final(self).ontology.schema == old(self).ontology.schema,
            final(self).provenance.wf(),
            activity_map(final(self).provenance.activities@) == activity_map(old(self).provenance.activities@).insert(pid, activity),
            final(self).provenance.entities == old(self).provenance.entities,
            final(self).provenance.generations == old(self).provenance.generations,
            final(self).provenance.derivations == old(self).provenance.derivations,
            final(self).provenance.attributions == old(self).provenance.attributions,
            final(self).provenance.uses == old(self).provenance.uses,
            final(self).version == if old(self).version == u64::MAX {
                u64::MAX
            } else {
                (old(self).version + 1) as u64
            },
    {
        let pid = activity.id;
        let ghost o0 = self.ontology;
        let OntologyDelta { nodes, edges, axioms } = delta;
        let ghost (dn, de, da) = (nodes@, edges@, axioms@);
        let mut nodes = nodes;
        let mut edges = edges;
        let mut i: usize = 0;
        let n_len = nodes.len();
        while i < n_len
            invariant
                i <= n_len,
                n_len == dn.len(),
                nodes@ == dn.skip(i as int),
                self.ontology.nodes@ == nodes_upserted(o0.nodes@, dn.take(i as int)),
                self.ontology.edges@ == o0.edges@,
                self.ontology.axioms@ == o0.axioms@,
                self.ontology.iri == o0.iri,
                self.ontology.vocabulary == o0.vocabulary,
                self.ontology.schema == o0.schema,
                self.provenance == old(self).provenance,
                self.version == old(self).version,
                o0 == old(self).ontology,
            decreases n_len - i,
        {
            assert(dn.take(i + 1).drop_last() =~= dn.take(i as int));
            assert(dn.take(i + 1).last() == dn[i as int]);
            let n = nodes.remove(0);
            assert(nodes@ =~= dn.skip(i + 1));
            self.ontology.upsert_node(n);
            i = i + 1;
        }
        assert(dn.take(n_len as int) =~= dn);
        i = 0;
        let e_len = edges.len();
        while i < e_len
            invariant
                i <= e_len,
                e_len == de.len(),
                edges@ == de.skip(i as int),
                self.ontology.nodes@ == nodes_upserted(o0.nodes@, dn),
                self.ontology.edges@ == edges_upserted(o0.edges@, de.take(i as int)),
                self.ontology.axioms@ == o0.axioms@,
                self.ontology.iri == o0.iri,
                self.ontology.vocabulary == o0.vocabulary,
                self.ontology.schema == o0.schema,
                self.provenance == old(self).provenance,
                self.version == old(self).version,
                o0 == old(self).ontology,
            decreases e_len - i,
        {
            assert(de.take(i + 1).drop_last() =~= de.take(i as int));
            assert(de.take(i + 1).last() == de[i as int]);
            let e = edges.remove(0);
            assert(edges@ =~= de.skip(i + 1));
            self.ontology.upsert_edge(e);
            i = i + 1;
        }
        assert(de.take(e_len as int) =~= de);
        i = 0;
        while i < axioms.len()
            invariant
                i <= axioms.len(),
                da == axioms@,
                pid == activity.id,
                self.ontology.nodes@ == nodes_upserted(o0.nodes@, dn),
                self.ontology.edges@ == edges_upserted(o0.edges@, de),
                self.ontology.axioms@ == axioms_upserted(o0.axioms@, da.take(i as int), pid),
                self.ontology.iri == o0.iri,
                self.ontology.vocabulary == o0.vocabulary,
                self.ontology.schema == o0.schema,
                self.provenance == old(self).provenance,
                self.version == old(self).version,
                o0 == old(self).ontology,
            decreases axioms.len() - i,
        {
            assert(da.take(i + 1).drop_last() =~= da.take(i as int));
            assert(da.take(i + 1).last() == axioms@[i as int]);
            let a = axioms[i].duplicate();
            let a = if a.provenance.is_none() {
                Axiom { kind: a.kind, provenance: Some(pid) }
            } else {
                a
            };
            self.ontology.upsert_axiom(a);
            i = i + 1;
        }
        assert(da.take(axioms.len() as int) =~= da);
        self.provenance.record_activity(activity);
        self.version = self.version.saturating_add(1);
        pid
    }
}


// ---------------------------------------------------------------------
// Steps follow edges
// ---------------------------------------------------------------------

/// Each hop from `cur` comes from an edge leaving `cur` that matches the
/// pattern: the node it leads to, and its identity.
proof fn lemma_hops_from_edges(edges: Seq<Edge>, ep: EdgePattern, outbound: bool, cur: NodeId)
    ensures
        forall|j: int| #![trigger hops(edges, ep, outbound, cur)[j]] 0 <= j < hops(edges, ep, outbound, cur).len() ==> exists|k: int|
            0 <= k < edges.len() && leaves(#[trigger] edges[k], outbound, cur) && edge_matches(edges[k], ep)
                && hops(edges, ep, outbound, cur)[j] == (far_end(edges[k], outbound), edges[k].key()),
    decreases edges.len(),
{
    if edges.len() > 0 {
        let d = edges.drop_last();
        lemma_hops_from_edges(d, ep, outbound, cur);
        let h = hops(edges, ep, outbound, cur);
        let hd = hops(d, ep, outbound, cur);
        assert forall|j: int| #![trigger h[j]] 0 <= j < h.len() implies exists|k: int|
            0 <= k < edges.len() && leaves(#[trigger] edges[k], outbound, cur) && edge_matches(edges[k], ep)
                && h[j] == (far_end(edges[k], outbound), edges[k].key()) by {
            if j < hd.len() {
                assert(h[j] == hd[j]);
                let k = choose|k: int| 0 <= k < d.len() && leaves(#[trigger] d[k], outbound, cur) && edge_matches(d[k], ep)
                    && hd[j] == (far_end(d[k], outbound), d[k].key());
                assert(d[k] == edges[k]);
            } else {
                let k = edges.len() - 1;
                assert(edges[k] == edges.last());
            }
        }
    }
}

/// The hops kept as fresh are among the candidates.
proof fn lemma_fresh_hops_from(cands: Seq<(NodeId, EdgeKey)>, seen: Set<NodeId>)
    ensures
        forall|j: int| 0 <= j < fresh_hops(cands, seen).0.len() ==> exists|k: int|
            0 <= k < cands.len() && #[trigger] fresh_hops(cands, seen).0[j] == cands[k],
    decreases cands.len(),
{
    if cands.len() > 0 {
        let d = cands.drop_last();
        lemma_fresh_hops_from(d, seen);
        let (kept, st) = fresh_hops(d, seen);
        let f = fresh_hops(cands, seen).0;
        assert forall|j: int| 0 <= j < f.len() implies exists|k: int| 0 <= k < cands.len() && #[trigger] f[j] == cands[k] by {
            if j < kept.len() {
                assert(f[j] == kept[j]);
                let k = choose|k: int| 0 <= k < d.len() && #[trigger] kept[j] == d[k];
                assert(d[k] == cands[k]);
            } else {
                assert(f[j] == cands[cands.len() - 1]);
            }
        }
    }
}

/// Each row a layer yields extends `row` for one of the layer's nodes.
proof fn lemma_emit_from(nodes: Seq<Node>, step: TraversalStep, row: RowView, entries: Seq<(NodeId, Option<EdgeKey>)>)
    ensures
        forall|j: int| 0 <= j < emit(nodes, step, row, entries).len() ==> exists|k: int|
            0 <= k < entries.len() && #[trigger] emit(nodes, step, row, entries)[j] == (
                extend_row(row, step, entries[k].0, entries[k].1),
                entries[k].0,
            ),
    decreases entries.len(),
{
    if entries.len() > 0 {
        let d = entries.drop_last();
        lemma_emit_from(nodes, step, row, d);
        let e = emit(nodes, step, row, entries);
        let ed = emit(nodes, step, row, d);
        assert forall|j: int| 0 <= j < e.len() implies exists|k: int|
            0 <= k < entries.len() && #[trigger] e[j] == (extend_row(row, step, entries[k].0, entries[k].1), entries[k].0) by {
            if j < ed.len() {
                assert(e[j] == ed[j]);
                let k = choose|k: int| 0 <= k < d.len() && #[trigger] ed[j] == (extend_row(row, step, d[k].0, d[k].1), d[k].0);
                assert(d[k] == entries[k]);
            } else {
                assert(e[j] == (extend_row(row, step, entries.last().0, entries.last().1), entries.last().0));
            }
        }
    }
}

/// A single-hop step follows edges: every row it yields from `start` is
/// reached over an edge of the ontology matching the step's edge pattern
/// (its label among them) that leaves `start` (outbound: from `start` to
/// the reached node; inbound: from the reached node to `start`), and the
/// row is `row` with the step's edge variable bound to that edge and its
/// target variable to the reached node.
pub proof fn law_single_hop_follows_edges(o: Ontology, step: TraversalStep, row: RowView, start: NodeId, j: int)
    requires
        hop_range(step) == (1usize, 1usize),
        0 <= j < step_rows(o, step, row, start).len(),
    ensures
        exists|k: int|
            0 <= k < o.edges@.len() && edge_matches(#[trigger] o.edges@[k], step.edge) && (step.edge.label matches Some(
                l,
            ) ==> o.edges@[k].label@ == l@) && (if step.outbound {
                o.edges@[k].source == start && o.edges@[k].target == step_rows(o, step, row, start)[j].1
            } else {
                o.edges@[k].target == start && o.edges@[k].source == step_rows(o, step, row, start)[j].1
            }) && step_rows(o, step, row, start)[j].0 == extend_row(
                row,
                step,
                step_rows(o, step, row, start)[j].1,
                Some(o.edges@[k].key()),
            ),
{
    let edges = o.edges@;
    let ep = step.edge;
    let out = step.outbound;
    let h = hops(edges, ep, out, start);
    let f = fresh_hops(h, set![start]).0;
    let l0 = layer(edges, ep, out, start, 0);
    assert(layer_nodes(l0.0) =~= seq![start]);
    assert(seq![start].drop_last() =~= Seq::<NodeId>::empty());
    let n = next_layer(edges, ep, out, seq![start], set![start]);
    let p0 = next_layer(edges, ep, out, seq![start].drop_last(), set![start]);
    assert(p0 == (Seq::<(NodeId, EdgeKey)>::empty(), set![start]));
    assert(seq![start].last() == start);
    assert(n.0 == p0.0 + f);
    assert(n.0 =~= f);
    let entries = layer(edges, ep, out, start, 1).0;
    assert(entries == as_entries(f));
    let rows = step_rows(o, step, row, start);
    assert(step_rows_upto(o, step, row, start, 0) =~= Seq::<(RowView, NodeId)>::empty());
    assert(rows =~= emit(o.nodes@, step, row, entries));
    lemma_emit_from(o.nodes@, step, row, entries);
    let k1 = choose|k: int| 0 <= k < entries.len() && #[trigger] emit(o.nodes@, step, row, entries)[j] == (
        extend_row(row, step, entries[k].0, entries[k].1),
        entries[k].0,
    );
    lemma_fresh_hops_from(h, set![start]);
    assert(entries[k1] == (f[k1].0, Some(f[k1].1)));
    let k2 = choose|k: int| 0 <= k < h.len() && #[trigger] f[k1] == h[k];
    lemma_hops_from_edges(edges, ep, out, start);
    let k3 = choose|k: int| 0 <= k < edges.len() && leaves(#[trigger] edges[k], out, start) && edge_matches(edges[k], ep)
        && h[k2] == (far_end(edges[k], out), edges[k].key());
    assert(edge_matches(edges[k3], ep));
}


/// Each node of the next layer is reached over an edge matching the
/// pattern that leaves a node of the current layer.
proof fn lemma_next_layer_from(edges: Seq<Edge>, ep: EdgePattern, outbound: bool, nodes: Seq<NodeId>, seen: Set<NodeId>)
    ensures
        forall|j: int| #![trigger next_layer(edges, ep, outbound, nodes, seen).0[j]]
            0 <= j < next_layer(edges, ep, outbound, nodes, seen).0.len() ==> exists|k: int|
                0 <= k < edges.len() && edge_matches(#[trigger] edges[k], ep)
                    && next_layer(edges, ep, outbound, nodes, seen).0[j] == (far_end(edges[k], outbound), edges[k].key()),
    decreases nodes.len(),
{
    if nodes.len() > 0 {
        let d = nodes.drop_last();
        lemma_next_layer_from(edges, ep, outbound, d, seen);
        let (prev, st) = next_layer(edges, ep, outbound, d, seen);
        let h = hops(edges, ep, outbound, nodes.last());
        let kept = fresh_hops(h, st).0;
        let all = next_layer(edges, ep, outbound, nodes, seen).0;
        assert(all == prev + kept);
        lemma_fresh_hops_from(h, st);
        lemma_hops_from_edges(edges, ep, outbound, nodes.last());
        assert forall|j: int| #![trigger all[j]] 0 <= j < all.len() implies exists|k: int|
            0 <= k < edges.len() && edge_matches(#[trigger] edges[k], ep) && all[j] == (far_end(edges[k], outbound), edges[k].key()) by {
            if j < prev.len() {
                assert(all[j] == prev[j]);
            } else {
                let j2 = j - prev.len();
                assert(all[j] == kept[j2]);
                let k2 = choose|k: int| 0 <= k < h.len() && #[trigger] kept[j2] == h[k];
                let k3 = choose|k: int| 0 <= k < edges.len() && leaves(#[trigger] edges[k], outbound, nodes.last()) && edge_matches(edges[k], ep)
                    && h[k2] == (far_end(edges[k], outbound), edges[k].key());
                assert(edge_matches(edges[k3], ep));
            }
        }
    }
}

/// Past depth zero, each node of a layer is reached over an edge matching
/// the pattern, and the layer records that edge.
proof fn lemma_layer_from(edges: Seq<Edge>, ep: EdgePattern, outbound: bool, start: NodeId, d: nat)
    ensures
        d == 0 ==> layer(edges, ep, outbound, start, d).0 == seq![(start, None::<EdgeKey>)],
        d > 0 ==> forall|j: int| #![trigger layer(edges, ep, outbound, start, d).0[j]]
            0 <= j < layer(edges, ep, outbound, start, d).0.len() ==> exists|k: int|
                0 <= k < edges.len() && edge_matches(#[trigger] edges[k], ep)
                    && layer(edges, ep, outbound, start, d).0[j] == (far_end(edges[k], outbound), Some(edges[k].key())),
{
    if d > 0 {
        let (l, st) = layer(edges, ep, outbound, start, (d - 1) as nat);
        lemma_next_layer_from(edges, ep, outbound, layer_nodes(l), st);
        let n = next_layer(edges, ep, outbound, layer_nodes(l), st).0;
        let ents = layer(edges, ep, outbound, start, d).0;
        assert(ents == as_entries(n));
        assert forall|j: int| #![trigger ents[j]] 0 <= j < ents.len() implies exists|k: int|
            0 <= k < edges.len() && edge_matches(#[trigger] edges[k], ep) && ents[j] == (far_end(edges[k], outbound), Some(edges[k].key())) by {
            assert(ents[j] == (n[j].0, Some(n[j].1)));
        }
    }
}

/// `t` is a node of a layer of the step from `start` at a depth from the
/// step's minimum to `d`.
pub open spec fn reached_within(o: Ontology, step: TraversalStep, start: NodeId, t: NodeId, d: nat) -> bool {
    exists|dd: nat, k: int|
        hop_range(step).0 <= dd <= d && 0 <= k < layer(o.edges@, step.edge, step.outbound, start, dd).0.len()
            && #[trigger] layer(o.edges@, step.edge, step.outbound, start, dd).0[k].0 == t
}

/// Each row of the first `d + 1` depths is one a layer at a depth from the
/// step's minimum on yields.
proof fn lemma_step_rows_from(o: Ontology, step: TraversalStep, row: RowView, start: NodeId, d: nat)
    ensures
        forall|j: int| #![trigger step_rows_upto(o, step, row, start, d)[j]]
            0 <= j < step_rows_upto(o, step, row, start, d).len() ==> reached_within(
                o,
                step,
                start,
                step_rows_upto(o, step, row, start, d)[j].1,
                d,
            ),
    decreases d,
{
    let rows = step_rows_upto(o, step, row, start, d);
    let prev = if d == 0 {
        seq![]
    } else {
        step_rows_upto(o, step, row, start, (d - 1) as nat)
    };
    if d > 0 {
        lemma_step_rows_from(o, step, row, start, (d - 1) as nat);
    }
    let ents = layer(o.edges@, step.edge, step.outbound, start, d).0;
    let em = emit(o.nodes@, step, row, ents);
    lemma_emit_from(o.nodes@, step, row, ents);
    assert forall|j: int| #![trigger rows[j]] 0 <= j < rows.len() implies reached_within(o, step, start, rows[j].1, d) by {
        if j < prev.len() {
            assert(rows[j] == prev[j]);
            assert(reached_within(o, step, start, prev[j].1, (d - 1) as nat));
            let (dd, k) = choose|dd: nat, k: int| hop_range(step).0 <= dd <= (d - 1) as nat && 0 <= k < layer(
                o.edges@,
                step.edge,
                step.outbound,
                start,
                dd,
            ).0.len() && #[trigger] layer(o.edges@, step.edge, step.outbound, start, dd).0[k].0 == prev[j].1;
            assert(layer(o.edges@, step.edge, step.outbound, start, dd).0[k].0 == rows[j].1);
        } else {
            assert(d >= hop_range(step).0);
            assert(rows == prev + em);
            let j2 = j - prev.len();
            assert(rows[j] == em[j2]);
            let k = choose|k: int| 0 <= k < ents.len() && #[trigger] em[j2] == (extend_row(row, step, ents[k].0, ents[k].1), ents[k].0);
            assert(layer(o.edges@, step.edge, step.outbound, start, d).0[k].0 == rows[j].1);
        }
    }
}

/// Every step lands on what its edges reach: each row a step yields from
/// `start` is at a node `t` that is either `start` itself (only when the
/// step allows zero hops) or reached over an edge of the ontology matching
/// the step's edge pattern (its label among them) in the step's direction:
/// outbound, an edge into `t`; inbound, an edge out of `t`.
pub proof fn law_steps_land_on_edge_ends(o: Ontology, step: TraversalStep, row: RowView, start: NodeId, j: int)
    requires
        0 <= j < step_rows(o, step, row, start).len(),
    ensures
        ({
            let t = step_rows(o, step, row, start)[j].1;
            ||| (t == start && hop_range(step).0 == 0)
            ||| exists|k: int|
                0 <= k < o.edges@.len() && edge_matches(#[trigger] o.edges@[k], step.edge) && (step.edge.label matches Some(
                    l,
                ) ==> o.edges@[k].label@ == l@) && (if step.outbound {
                    o.edges@[k].target == t
                } else {
                    o.edges@[k].source == t
                })
        }),
{
    let d = hop_range(step).1 as nat;
    lemma_step_rows_from(o, step, row, start, d);
    let rows = step_rows_upto(o, step, row, start, d);
    let t = rows[j].1;
    let (dd, k) = choose|dd: nat, k: int| hop_range(step).0 <= dd <= d && 0 <= k < layer(
        o.edges@,
        step.edge,
        step.outbound,
        start,
        dd,
    ).0.len() && #[trigger] layer(o.edges@, step.edge, step.outbound, start, dd).0[k].0 == rows[j].1;
    lemma_layer_from(o.edges@, step.edge, step.outbound, start, dd);
    let ents = layer(o.edges@, step.edge, step.outbound, start, dd).0;
    if dd == 0 {
        assert(ents[k] == (start, None::<EdgeKey>));
    } else {
        let e = choose|e: int| 0 <= e < o.edges@.len() && edge_matches(#[trigger] o.edges@[e], step.edge)
            && ents[k] == (far_end(o.edges@[e], step.outbound), Some(o.edges@[e].key()));
        assert(edge_matches(o.edges@[e], step.edge));
    }
}

} // verus!
