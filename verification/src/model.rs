//! The labeled-property-graph data model: nodes, edges, axioms and the
//! ontology that holds them, with mathematical views used by contracts.
use vstd::prelude::*;

use crate::keyed::{key_index, lemma_key_index, lemma_key_index_at, set_entry};
use crate::schema::{opt_view, Schema, Vocabulary};

verus! {

/// Identifier of a node.
pub type NodeId = u64;

/// Identifier of a provenance record (activity or entity).
pub type ProvenanceId = u64;

/// A property value carried by nodes and edges.
#[derive(Clone, Debug)]
pub enum PropertyValue {
    /// UTF-8 text.
    String(String),
    /// Signed integer.
    Integer(i64),
    /// Boolean.
    Bool(bool),
    /// IRI reference.
    Iri(String),
    /// Raw bytes.
    Bytes(Vec<u8>),
    /// Explicit absence of a value.
    Null,
}

/// Mathematical view of a [`PropertyValue`].
pub enum ValueView {
    String(Seq<char>),
    Integer(i64),
    Bool(bool),
    Iri(Seq<char>),
    Bytes(Seq<u8>),
    Null,
}

impl View for PropertyValue {
    type V = ValueView;

    open spec fn view(&self) -> ValueView {
        match self {
            PropertyValue::String(s) => ValueView::String(s@),
            PropertyValue::Integer(i) => ValueView::Integer(*i),
            PropertyValue::Bool(b) => ValueView::Bool(*b),
            PropertyValue::Iri(s) => ValueView::Iri(s@),
            PropertyValue::Bytes(b) => ValueView::Bytes(b@),
            PropertyValue::Null => ValueView::Null,
        }
    }
}

/// Compare two byte vectors element by element.
pub fn bytes_eq(a: &Vec<u8>, b: &Vec<u8>) -> (r: bool)
    ensures
        r == (a@ == b@),
{
    if a.len() != b.len() {
        return false;
    }
    let mut i: usize = 0;
    while i < a.len()
        invariant
            a.len() == b.len(),
            i <= a.len(),
            forall|j: int| 0 <= j < i ==> a@[j] == b@[j],
        decreases a.len() - i,
    {
        if a[i] != b[i] {
            return false;
        }
        i = i + 1;
    }
    assert(a@ =~= b@);
    true
}

impl PropertyValue {
    /// Structural equality of two values.
    pub fn same_as(&self, other: &PropertyValue) -> (r: bool)
        ensures
            r == (self@ == other@),
    {
        match self {
            PropertyValue::String(a) => match other {
                PropertyValue::String(b) => *a == *b,
                _ => false,
            },
            PropertyValue::Integer(a) => match other {
                PropertyValue::Integer(b) => *a == *b,
                _ => false,
            },
            PropertyValue::Bool(a) => match other {
                PropertyValue::Bool(b) => *a == *b,
                _ => false,
            },
            PropertyValue::Iri(a) => match other {
                PropertyValue::Iri(b) => *a == *b,
                _ => false,
            },
            PropertyValue::Bytes(a) => match other {
                PropertyValue::Bytes(b) => bytes_eq(a, b),
                _ => false,
            },
            PropertyValue::Null => match other {
                PropertyValue::Null => true,
                _ => false,
            },
        }
    }

    /// A copy of the value with the same view.
    pub fn duplicate(&self) -> (r: PropertyValue)
        ensures
            r@ == self@,
    {
        match self {
            PropertyValue::String(s) => PropertyValue::String(s.clone()),
            PropertyValue::Integer(i) => PropertyValue::Integer(*i),
            PropertyValue::Bool(b) => PropertyValue::Bool(*b),
            PropertyValue::Iri(s) => PropertyValue::Iri(s.clone()),
            PropertyValue::Bytes(b) => {
                let c = b.clone();
                assert(c@ =~= b@);
                PropertyValue::Bytes(c)
            },
            PropertyValue::Null => PropertyValue::Null,
        }
    }
}

/// A named property: key and value.
#[derive(Clone, Debug)]
pub struct Property {
    pub key: String,
    pub value: PropertyValue,
}

/// The key/value view of a property list: the first entry for each key wins.
pub open spec fn prop_lookup(props: Seq<Property>, key: Seq<char>) -> Option<ValueView>
    decreases props.len(),
{
    if props.len() == 0 {
        None
    } else if props[0].key@ == key {
        Some(props[0].value@)
    } else {
        prop_lookup(props.drop_first(), key)
    }
}

/// Look up a property by key.
pub fn get_property<'a>(props: &'a Vec<Property>, key: &String) -> (r: Option<&'a PropertyValue>)
    ensures
        match r {
            Some(v) => prop_lookup(props@, key@) == Some(v@),
            None => prop_lookup(props@, key@).is_none(),
        },
{
    let mut i: usize = 0;
    assert(props@.skip(0) =~= props@);
    while i < props.len()
        invariant
            i <= props.len(),
            prop_lookup(props@, key@) == prop_lookup(props@.skip(i as int), key@),
        decreases props.len() - i,
    {
        assert(props@.skip(i as int)[0] == props@[i as int]);
        if props[i].key == *key {
            return Some(&props[i].value);
        }
        assert(props@.skip(i as int).drop_first() =~= props@.skip(i + 1));
        i = i + 1;
    }
    None
}

/// One of the ten supported OWL axiom shapes.
#[derive(Clone, Debug)]
pub enum AxiomKind {
    /// `sub ⊑ sup`.
    SubClassOf { sub: String, sup: String },
    /// `left ≡ right`.
    EquivalentClass { left: String, right: String },
    /// `left ⊓ right = ⊥`.
    DisjointWith { left: String, right: String },
    /// `domain(property) = class`.
    Domain { property: String, class: String },
    /// `range(property) = class`.
    Range { property: String, class: String },
    /// `property` is functional.
    Functional { property: String },
    /// `property` is inverse-functional.
    InverseFunctional { property: String },
    /// `left` is the inverse of `right`.
    InverseOf { left: String, right: String },
    /// `property` is symmetric.
    Symmetric { property: String },
    /// `property` is transitive.
    Transitive { property: String },
}

/// Mathematical view of an [`AxiomKind`].
pub enum KindView {
    SubClassOf(Seq<char>, Seq<char>),
    EquivalentClass(Seq<char>, Seq<char>),
    DisjointWith(Seq<char>, Seq<char>),
    Domain(Seq<char>, Seq<char>),
    Range(Seq<char>, Seq<char>),
    Functional(Seq<char>),
    InverseFunctional(Seq<char>),
    InverseOf(Seq<char>, Seq<char>),
    Symmetric(Seq<char>),
    Transitive(Seq<char>),
}

impl View for AxiomKind {
    type V = KindView;

    open spec fn view(&self) -> KindView {
        match self {
            AxiomKind::SubClassOf { sub, sup } => KindView::SubClassOf(sub@, sup@),
            AxiomKind::EquivalentClass { left, right } => KindView::EquivalentClass(left@, right@),
            AxiomKind::DisjointWith { left, right } => KindView::DisjointWith(left@, right@),
            AxiomKind::Domain { property, class } => KindView::Domain(property@, class@),
            AxiomKind::Range { property, class } => KindView::Range(property@, class@),
            AxiomKind::Functional { property } => KindView::Functional(property@),
            AxiomKind::InverseFunctional { property } => KindView::InverseFunctional(property@),
            AxiomKind::InverseOf { left, right } => KindView::InverseOf(left@, right@),
            AxiomKind::Symmetric { property } => KindView::Symmetric(property@),
            AxiomKind::Transitive { property } => KindView::Transitive(property@),
        }
    }
}

impl AxiomKind {
    /// Structural equality of two axiom shapes.
    pub fn same_as(&self, other: &AxiomKind) -> (r: bool)
        ensures
            r == (self@ == other@),
    {
        match self {
            AxiomKind::SubClassOf { sub: a, sup: b } => match other {
                AxiomKind::SubClassOf { sub: c, sup: d } => *a == *c && *b == *d,
                _ => false,
            },
            AxiomKind::EquivalentClass { left: a, right: b } => match other {
                AxiomKind::EquivalentClass { left: c, right: d } => *a == *c && *b == *d,
                _ => false,
            },
            AxiomKind::DisjointWith { left: a, right: b } => match other {
                AxiomKind::DisjointWith { left: c, right: d } => *a == *c && *b == *d,
                _ => false,
            },
            AxiomKind::Domain { property: a, class: b } => match other {
                AxiomKind::Domain { property: c, class: d } => *a == *c && *b == *d,
                _ => false,
            },
            AxiomKind::Range { property: a, class: b } => match other {
                AxiomKind::Range { property: c, class: d } => *a == *c && *b == *d,
                _ => false,
            },
            AxiomKind::Functional { property: a } => match other {
                AxiomKind::Functional { property: c } => *a == *c,
                _ => false,
            },
            AxiomKind::InverseFunctional { property: a } => match other {
                AxiomKind::InverseFunctional { property: c } => *a == *c,
                _ => false,
            },
            AxiomKind::InverseOf { left: a, right: b } => match other {
                AxiomKind::InverseOf { left: c, right: d } => *a == *c && *b == *d,
                _ => false,
            },
            AxiomKind::Symmetric { property: a } => match other {
                AxiomKind::Symmetric { property: c } => *a == *c,
                _ => false,
            },
            AxiomKind::Transitive { property: a } => match other {
                AxiomKind::Transitive { property: c } => *a == *c,
                _ => false,
            },
        }
    }

    /// A copy of the axiom shape with the same view.
    pub fn duplicate(&self) -> (r: AxiomKind)
        ensures
            r@ == self@,
            r == *self,
    {
        match self {
            AxiomKind::SubClassOf { sub, sup } => AxiomKind::SubClassOf {
                sub: sub.clone(),
                sup: sup.clone(),
            },
            AxiomKind::EquivalentClass { left, right } => AxiomKind::EquivalentClass {
                left: left.clone(),
                right: right.clone(),
            },
            AxiomKind::DisjointWith { left, right } => AxiomKind::DisjointWith {
                left: left.clone(),
                right: right.clone(),
            },
            AxiomKind::Domain { property, class } => AxiomKind::Domain {
                property: property.clone(),
                class: class.clone(),
            },
            AxiomKind::Range { property, class } => AxiomKind::Range {
                property: property.clone(),
                class: class.clone(),
            },
            AxiomKind::Functional { property } => AxiomKind::Functional {
                property: property.clone(),
            },
            AxiomKind::InverseFunctional { property } => AxiomKind::InverseFunctional {
                property: property.clone(),
            },
            AxiomKind::InverseOf { left, right } => AxiomKind::InverseOf {
                left: left.clone(),
                right: right.clone(),
            },
            AxiomKind::Symmetric { property } => AxiomKind::Symmetric {
                property: property.clone(),
            },
            AxiomKind::Transitive { property } => AxiomKind::Transitive {
                property: property.clone(),
            },
        }
    }
}

/// An axiom: its shape plus an optional pointer to the activity that produced it.
/// Two axioms with the same shape are the same axiom (their identity is their content).
#[derive(Clone, Debug)]
pub struct Axiom {
    pub kind: AxiomKind,
    pub provenance: Option<ProvenanceId>,
}

impl Axiom {
    /// An axiom without provenance.
    pub fn new(kind: AxiomKind) -> (r: Axiom)
        ensures
            r.kind@ == kind@,
            r.provenance.is_none(),
    {
        Axiom { kind, provenance: None }
    }

    /// Attach a provenance pointer.
    pub fn with_provenance(self, prov: ProvenanceId) -> (r: Axiom)
        ensures
            r.kind@ == self.kind@,
            r.provenance == Some(prov),
    {
        Axiom { kind: self.kind, provenance: Some(prov) }
    }

    /// A copy with the same shape and provenance.
    pub fn duplicate(&self) -> (r: Axiom)
        ensures
            r.kind@ == self.kind@,
            r.provenance == self.provenance,
            r == *self,
    {
        Axiom { kind: self.kind.duplicate(), provenance: self.provenance }
    }
}

/// An edge's identity: `(label, source, target)`.
pub type EdgeKey = (Seq<char>, NodeId, NodeId);

/// The identity of an edge: its label and endpoints.
#[derive(Clone, Debug)]
pub struct EdgeId {
    pub label: String,
    pub source: NodeId,
    pub target: NodeId,
}

impl EdgeId {
    /// The identity as a mathematical value.
    pub open spec fn key(&self) -> EdgeKey {
        (self.label@, self.source, self.target)
    }

    /// A copy of this identity.
    pub fn duplicate(&self) -> (r: EdgeId)
        ensures
            r == *self,
    {
        EdgeId { label: self.label.clone(), source: self.source, target: self.target }
    }
}

/// A directed, labeled edge between two nodes. Edges with the same
/// `(label, source, target)` are the same edge.
#[derive(Clone, Debug)]
pub struct Edge {
    pub source: NodeId,
    pub label: String,
    pub target: NodeId,
    pub properties: Vec<Property>,
}

impl Edge {
    /// The identity of this edge.
    pub open spec fn key(&self) -> EdgeKey {
        (self.label@, self.source, self.target)
    }

    /// The identity of this edge, as a value.
    pub fn id(&self) -> (r: EdgeId)
        ensures
            r.key() == self.key(),
    {
        EdgeId { label: self.label.clone(), source: self.source, target: self.target }
    }

    /// An edge with no properties.
    pub fn between(source: NodeId, label: String, target: NodeId) -> (r: Edge)
        ensures
            r.source == source,
            r.target == target,
            r.label@ == label@,
            r.properties@.len() == 0,
    {
        Edge { source, label, target, properties: Vec::new() }
    }
}

/// A labeled-property-graph node.
#[derive(Clone, Debug)]
pub struct Node {
    pub id: NodeId,
    pub iri: Option<String>,
    pub types: Vec<String>,
    pub properties: Vec<Property>,
}

/// `true` when `types` lists the type name `ty`.
pub open spec fn has_type_spec(types: Seq<String>, ty: Seq<char>) -> bool {
    exists|i: int| 0 <= i < types.len() && types[i]@ == ty
}

impl Node {
    /// A node with one type and no IRI or properties.
    pub fn new(id: NodeId, ty: String) -> (r: Node)
        ensures
            r.id == id,
            r.iri.is_none(),
            r.types@.len() == 1,
            r.types@[0]@ == ty@,
            r.properties@.len() == 0,
    {
        let mut types = Vec::new();
        types.push(ty);
        Node { id, iri: None, types, properties: Vec::new() }
    }

    /// `true` when the node carries the type `ty`.
    pub fn has_type(&self, ty: &String) -> (r: bool)
        ensures
            r == has_type_spec(self.types@, ty@),
    {
        let mut i: usize = 0;
        while i < self.types.len()
            invariant
                i <= self.types.len(),
                forall|j: int| 0 <= j < i ==> self.types@[j]@ != ty@,
            decreases self.types.len() - i,
        {
            if self.types[i] == *ty {
                return true;
            }
            i = i + 1;
        }
        false
    }
}

/// The set of axiom shapes held by a sequence of axioms.
pub open spec fn axiom_kinds(s: Seq<Axiom>) -> Set<KindView> {
    Set::new(|k: KindView| exists|i: int| 0 <= i < s.len() && s[i].kind@ == k)
}

/// The set of edge identities held by a sequence of edges.
pub open spec fn edge_keys(s: Seq<Edge>) -> Set<EdgeKey> {
    Set::new(|k: EdgeKey| exists|i: int| 0 <= i < s.len() && s[i].key() == k)
}

/// The set of node identifiers held by a sequence of nodes.
pub open spec fn node_ids(s: Seq<Node>) -> Set<NodeId> {
    Set::new(|id: NodeId| exists|i: int| 0 <= i < s.len() && s[i].id == id)
}

/// Pushing an axiom adds exactly its shape to the set of shapes.
pub proof fn lemma_axiom_kinds_push(s: Seq<Axiom>, a: Axiom)
    ensures
        axiom_kinds(s.push(a)) == axiom_kinds(s).insert(a.kind@),
{
    let l = axiom_kinds(s.push(a));
    let r = axiom_kinds(s).insert(a.kind@);
    assert forall|k: KindView| l.contains(k) implies r.contains(k) by {
        let i = choose|i: int| 0 <= i < s.push(a).len() && s.push(a)[i].kind@ == k;
        if i < s.len() {
            assert(s[i].kind@ == k);
        }
    }
    assert forall|k: KindView| r.contains(k) implies l.contains(k) by {
        if k == a.kind@ {
            assert(s.push(a)[s.len() as int].kind@ == k);
        } else {
            let i = choose|i: int| 0 <= i < s.len() && s[i].kind@ == k;
            assert(s.push(a)[i].kind@ == k);
        }
    }
    assert(l =~= r);
}

/// Pushing an edge adds exactly its identity to the set of identities.
pub proof fn lemma_edge_keys_push(s: Seq<Edge>, e: Edge)
    ensures
        edge_keys(s.push(e)) == edge_keys(s).insert(e.key()),
{
    let l = edge_keys(s.push(e));
    let r = edge_keys(s).insert(e.key());
    assert forall|k: EdgeKey| l.contains(k) implies r.contains(k) by {
        let i = choose|i: int| 0 <= i < s.push(e).len() && s.push(e)[i].key() == k;
        if i < s.len() {
            assert(s[i].key() == k);
        }
    }
    assert forall|k: EdgeKey| r.contains(k) implies l.contains(k) by {
        if k == e.key() {
            assert(s.push(e)[s.len() as int].key() == k);
        } else {
            let i = choose|i: int| 0 <= i < s.len() && s[i].key() == k;
            assert(s.push(e)[i].key() == k);
        }
    }
    assert(l =~= r);
}

/// `true` when some axiom in `axioms` has the shape `kind`.
pub fn contains_kind(axioms: &Vec<Axiom>, kind: &AxiomKind) -> (r: bool)
    ensures
        r == axiom_kinds(axioms@).contains(kind@),
{
    let mut i: usize = 0;
    while i < axioms.len()
        invariant
            i <= axioms.len(),
            forall|j: int| 0 <= j < i ==> axioms@[j].kind@ != kind@,
        decreases axioms.len() - i,
    {
        if axioms[i].kind.same_as(kind) {
            assert(axioms@[i as int].kind@ == kind@);
            return true;
        }
        i = i + 1;
    }
    false
}

/// `true` when some edge in `edges` has the identity `(label, source, target)`.
pub fn contains_edge(edges: &Vec<Edge>, label: &String, source: NodeId, target: NodeId) -> (r:
    bool)
    ensures
        r == edge_keys(edges@).contains((label@, source, target)),
{
    let mut i: usize = 0;
    while i < edges.len()
        invariant
            i <= edges.len(),
            forall|j: int| 0 <= j < i ==> edges@[j].key() != (label@, source, target),
        decreases edges.len() - i,
    {
        if edges[i].source == source && edges[i].target == target && edges[i].label == *label {
            assert(edges@[i as int].key() == (label@, source, target));
            return true;
        }
        i = i + 1;
    }
    false
}

/// A graph of nodes and edges plus the axioms that govern them.
#[derive(Clone, Debug)]
pub struct Ontology {
    pub iri: Option<String>,
    pub vocabulary: Vocabulary,
    pub schema: Schema,
    pub nodes: Vec<Node>,
    pub edges: Vec<Edge>,
    pub axioms: Vec<Axiom>,
}

/// The facts an ontology asserts: its axiom shapes and its edge identities.
#[verifier::ext_equal]
pub struct Facts {
    pub axioms: Set<KindView>,
    pub edges: Set<EdgeKey>,
}

impl Ontology {
    /// An empty ontology.
    pub fn new() -> (r: Ontology)
        ensures
            r.iri.is_none(),
            r.vocabulary.bindings@.len() == 0,
            r.schema.node_types@.len() == 0,
            r.schema.edge_types@.len() == 0,
            r.nodes@.len() == 0,
            r.edges@.len() == 0,
            r.axioms@.len() == 0,
    {
        Ontology {
            iri: None,
            vocabulary: Vocabulary::new(),
            schema: Schema::new(),
            nodes: Vec::new(),
            edges: Vec::new(),
            axioms: Vec::new(),
        }
    }

    /// An empty ontology named by `iri`.
    pub fn with_iri(iri: String) -> (r: Ontology)
        ensures
            opt_view(r.iri) == Some(iri@),
            r.vocabulary.bindings@.len() == 0,
            r.schema.node_types@.len() == 0,
            r.schema.edge_types@.len() == 0,
            r.nodes@.len() == 0,
            r.edges@.len() == 0,
            r.axioms@.len() == 0,
    {
        let mut o = Ontology::new();
        o.iri = Some(iri);
        o
    }

    /// The facts this ontology asserts.
    pub open spec fn facts(&self) -> Facts {
        Facts { axioms: axiom_kinds(self.axioms@), edges: edge_keys(self.edges@) }
    }

    /// Insert `ax`, replacing the first entry of the same shape.
    pub fn upsert_axiom(&mut self, ax: Axiom)
        ensures
            final(self).axioms@ == axiom_upserted(old(self).axioms@, ax),
            final(self).edges@ == old(self).edges@,
            final(self).nodes@ == old(self).nodes@,
            final(self).iri == old(self).iri,
            final(self).vocabulary == old(self).vocabulary,
            final(self).schema == old(self).schema,
    {
        let mut i: usize = 0;
        while i < self.axioms.len()
            invariant
                i <= self.axioms.len(),
                *self == *old(self),
                forall|j: int| 0 <= j < i ==> self.axioms@[j].kind@ != ax.kind@,
            decreases self.axioms.len() - i,
        {
            if self.axioms[i].kind.same_as(&ax.kind) {
                let ghost s = self.axioms@;
                assert(first_kind_at(s, ax.kind@, i as int));
                assert(first_kind_at(s, ax.kind@, kind_position(s, ax.kind@)));
                self.axioms.set(i, ax);
                return;
            }
            i = i + 1;
        }
        self.axioms.push(ax);
    }

    /// Insert `edge`, replacing the first edge with the same identity.
    pub fn upsert_edge(&mut self, edge: Edge)
        ensures
            final(self).edges@ == edge_upserted(old(self).edges@, edge),
            final(self).axioms@ == old(self).axioms@,
            final(self).nodes@ == old(self).nodes@,
            final(self).iri == old(self).iri,
            final(self).vocabulary == old(self).vocabulary,
            final(self).schema == old(self).schema,
    {
        let mut i: usize = 0;
        while i < self.edges.len()
            invariant
                i <= self.edges.len(),
                *self == *old(self),
                forall|j: int| 0 <= j < i ==> self.edges@[j].key() != edge.key(),
            decreases self.edges.len() - i,
        {
            if self.edges[i].source == edge.source && self.edges[i].target == edge.target
                && self.edges[i].label == edge.label {
                let ghost s = self.edges@;
                assert(first_key_at(s, edge.key(), i as int));
                assert(first_key_at(s, edge.key(), key_position(s, edge.key())));
                self.edges.set(i, edge);
                return;
            }
            i = i + 1;
        }
        self.edges.push(edge);
    }

    /// Insert `node`, replacing the first node with the same id; returns the id.
    pub fn upsert_node(&mut self, node: Node) -> (id: NodeId)
        ensures
            id == node.id,
            final(self).nodes@ == node_upserted(old(self).nodes@, node),
            final(self).axioms@ == old(self).axioms@,
            final(self).edges@ == old(self).edges@,
            final(self).iri == old(self).iri,
            final(self).vocabulary == old(self).vocabulary,
            final(self).schema == old(self).schema,
    {
        let id = node.id;
        let mut i: usize = 0;
        while i < self.nodes.len()
            invariant
                i <= self.nodes.len(),
                *self == *old(self),
                id == node.id,
                forall|j: int| 0 <= j < i ==> self.nodes@[j].id != id,
            decreases self.nodes.len() - i,
        {
            if self.nodes[i].id == id {
                let ghost s = self.nodes@;
                assert(first_id_at(s, id, i as int));
                assert(first_id_at(s, id, id_position(s, id)));
                self.nodes.set(i, node);
                return id;
            }
            i = i + 1;
        }
        self.nodes.push(node);
        id
    }

    /// The node with id `id`: the first one, where there is one.
    pub fn node(&self, id: NodeId) -> (r: Option<&Node>)
        ensures
            match r {
                Some(n) => exists|i: int| first_id_at(self.nodes@, id, i) && *n == self.nodes@[i],
                None => forall|i: int| 0 <= i < self.nodes@.len() ==> self.nodes@[i].id != id,
            },
    {
        let mut i: usize = 0;
        while i < self.nodes.len()
            invariant
                i <= self.nodes.len(),
                forall|j: int| 0 <= j < i ==> self.nodes@[j].id != id,
            decreases self.nodes.len() - i,
        {
            if self.nodes[i].id == id {
                assert(first_id_at(self.nodes@, id, i as int));
                return Some(&self.nodes[i]);
            }
            i = i + 1;
        }
        None
    }

    /// The edge with identity `id`: the first one, where there is one.
    pub fn edge(&self, id: &EdgeId) -> (r: Option<&Edge>)
        ensures
            match r {
                Some(e) => exists|i: int| first_key_at(self.edges@, id.key(), i) && *e == self.edges@[i],
                None => forall|i: int| 0 <= i < self.edges@.len() ==> self.edges@[i].key() != id.key(),
            },
    {
        let mut i: usize = 0;
        while i < self.edges.len()
            invariant
                i <= self.edges.len(),
                forall|j: int| 0 <= j < i ==> self.edges@[j].key() != id.key(),
            decreases self.edges.len() - i,
        {
            if self.edges[i].source == id.source && self.edges[i].target == id.target
                && self.edges[i].label == id.label {
                assert(first_key_at(self.edges@, id.key(), i as int));
                return Some(&self.edges[i]);
            }
            i = i + 1;
        }
        None
    }
}

/// `i` is the first index of `s` holding an axiom of shape `k`.
pub open spec fn first_kind_at(s: Seq<Axiom>, k: KindView, i: int) -> bool {
    0 <= i < s.len() && s[i].kind@ == k && forall|j: int| 0 <= j < i ==> s[j].kind@ != k
}

/// The first index of `s` holding an axiom of shape `k`, where there is one.
pub open spec fn kind_position(s: Seq<Axiom>, k: KindView) -> int {
    choose|i: int| first_kind_at(s, k, i)
}

/// `s` with `a` upserted: the first axiom of `a`'s shape replaced, or `a` appended.
pub open spec fn axiom_upserted(s: Seq<Axiom>, a: Axiom) -> Seq<Axiom> {
    if axiom_kinds(s).contains(a.kind@) {
        s.update(kind_position(s, a.kind@), a)
    } else {
        s.push(a)
    }
}

/// Upserting an axiom adds exactly its shape to the set of shapes.
pub proof fn lemma_axiom_upserted_kinds(s: Seq<Axiom>, a: Axiom)
    ensures
        axiom_kinds(axiom_upserted(s, a)) == axiom_kinds(s).insert(a.kind@),
{
    if axiom_kinds(s).contains(a.kind@) {
        let i = choose|i: int| 0 <= i < s.len() && s[i].kind@ == a.kind@;
        assert(exists|j: int| first_kind_at(s, a.kind@, j)) by {
            lemma_first_kind_exists(s, a.kind@, i);
        }
        let q = kind_position(s, a.kind@);
        let t = s.update(q, a);
        assert forall|k: KindView| axiom_kinds(t).contains(k) <==> axiom_kinds(s).insert(a.kind@).contains(k) by {
            if axiom_kinds(t).contains(k) {
                let j = choose|j: int| 0 <= j < t.len() && t[j].kind@ == k;
                if j != q {
                    assert(s[j].kind@ == k);
                }
            }
            if axiom_kinds(s).contains(k) && k != a.kind@ {
                let j = choose|j: int| 0 <= j < s.len() && s[j].kind@ == k;
                assert(t[j].kind@ == k);
            }
            if k == a.kind@ {
                assert(t[q].kind@ == k);
            }
        }
        assert(axiom_kinds(t) =~= axiom_kinds(s).insert(a.kind@));
    } else {
        lemma_axiom_kinds_push(s, a);
    }
}

/// Where some axiom of `s` has shape `k`, a first one does.
proof fn lemma_first_kind_exists(s: Seq<Axiom>, k: KindView, i: int)
    requires
        0 <= i < s.len(),
        s[i].kind@ == k,
    ensures
        exists|j: int| first_kind_at(s, k, j),
    decreases i,
{
    if exists|j: int| 0 <= j < i && s[j].kind@ == k {
        let j = choose|j: int| 0 <= j < i && s[j].kind@ == k;
        lemma_first_kind_exists(s, k, j);
    } else {
        assert(first_kind_at(s, k, i));
    }
}

/// `i` is the first index of `s` holding an edge with identity `k`.
pub open spec fn first_key_at(s: Seq<Edge>, k: EdgeKey, i: int) -> bool {
    0 <= i < s.len() && s[i].key() == k && forall|j: int| 0 <= j < i ==> s[j].key() != k
}

/// The first index of `s` holding an edge with identity `k`, where there is one.
pub open spec fn key_position(s: Seq<Edge>, k: EdgeKey) -> int {
    choose|i: int| first_key_at(s, k, i)
}

/// `s` with `e` upserted: the first edge of `e`'s identity replaced, or `e` appended.
pub open spec fn edge_upserted(s: Seq<Edge>, e: Edge) -> Seq<Edge> {
    if edge_keys(s).contains(e.key()) {
        s.update(key_position(s, e.key()), e)
    } else {
        s.push(e)
    }
}

/// `i` is the first index of `s` holding a node with id `id`.
pub open spec fn first_id_at(s: Seq<Node>, id: NodeId, i: int) -> bool {
    0 <= i < s.len() && s[i].id == id && forall|j: int| 0 <= j < i ==> s[j].id != id
}

/// The first index of `s` holding a node with id `id`, where there is one.
pub open spec fn id_position(s: Seq<Node>, id: NodeId) -> int {
    choose|i: int| first_id_at(s, id, i)
}

/// `s` with `n` upserted: the first node with `n`'s id replaced, or `n` appended.
pub open spec fn node_upserted(s: Seq<Node>, n: Node) -> Seq<Node> {
    if node_ids(s).contains(n.id) {
        s.update(id_position(s, n.id), n)
    } else {
        s.push(n)
    }
}

/// No two nodes of `s` share an id.
pub open spec fn nodes_keyed(s: Seq<Node>) -> bool {
    forall|i: int, j: int| 0 <= i < j < s.len() ==> s[i].id != s[j].id
}

/// No two edges of `s` share an identity.
pub open spec fn edges_keyed(s: Seq<Edge>) -> bool {
    forall|i: int, j: int| 0 <= i < j < s.len() ==> s[i].key() != s[j].key()
}

/// No two axioms of `s` share a shape.
pub open spec fn axioms_keyed(s: Seq<Axiom>) -> bool {
    forall|i: int, j: int| 0 <= i < j < s.len() ==> s[i].kind@ != s[j].kind@
}

/// Upserting an axiom of a new shape adds one entry; one of a held shape
/// replaces it in place.
pub proof fn lemma_axiom_upserted_len(s: Seq<Axiom>, a: Axiom)
    ensures
        axiom_upserted(s, a).len() == s.len() + if axiom_kinds(s).contains(a.kind@) {
            0int
        } else {
            1int
        },
{
    if axiom_kinds(s).contains(a.kind@) {
        let i = choose|i: int| 0 <= i < s.len() && s[i].kind@ == a.kind@;
        assert(exists|j: int| first_kind_at(s, a.kind@, j)) by {
            lemma_first_kind_exists(s, a.kind@, i);
        }
        let q = kind_position(s, a.kind@);
        assert(first_kind_at(s, a.kind@, q));
    }
}

/// The views of a list of axioms: shape and provenance.
pub open spec fn axioms_view(s: Seq<Axiom>) -> Seq<(KindView, Option<ProvenanceId>)> {
    s.map_values(|a: Axiom| (a.kind@, a.provenance))
}

/// An axiom is found by its shape.
pub open spec fn axiom_shape() -> spec_fn((KindView, Option<ProvenanceId>)) -> KindView {
    |v: (KindView, Option<ProvenanceId>)| v.0
}

/// Upserting an axiom sets its entry by shape.
pub proof fn lemma_axiom_upserted_view(s: Seq<Axiom>, a: Axiom)
    ensures
        axioms_view(axiom_upserted(s, a)) == set_entry(axioms_view(s), axiom_shape(), (a.kind@, a.provenance)),
{
    let vs = axioms_view(s);
    let k = a.kind@;
    if axiom_kinds(s).contains(k) {
        let i = choose|i: int| 0 <= i < s.len() && s[i].kind@ == k;
        assert(exists|j: int| first_kind_at(s, k, j)) by {
            lemma_first_kind_exists(s, k, i);
        }
        let q = kind_position(s, k);
        assert(first_kind_at(s, k, q));
        assert forall|j: int| 0 <= j < q implies (axiom_shape())(#[trigger] vs[j]) != k by {}
        lemma_key_index_at(vs, axiom_shape(), k, q);
        assert(axioms_view(axiom_upserted(s, a)) =~= vs.update(q, (k, a.provenance)));
    } else {
        lemma_key_index(vs, axiom_shape(), k);
        if let Some(q) = key_index(vs, axiom_shape(), k) {
            assert(s[q].kind@ == k);
            assert(axiom_kinds(s).contains(k));
        }
        assert(axioms_view(axiom_upserted(s, a)) =~= vs.push((k, a.provenance)));
    }
}

/// Upserting an axiom keeps the axioms keyed.
pub proof fn lemma_axiom_upserted_keyed(s: Seq<Axiom>, a: Axiom)
    requires
        axioms_keyed(s),
    ensures
        axioms_keyed(axiom_upserted(s, a)),
{
    if axiom_kinds(s).contains(a.kind@) {
        let i = choose|i: int| 0 <= i < s.len() && s[i].kind@ == a.kind@;
        assert(first_kind_at(s, a.kind@, i));
        let q = kind_position(s, a.kind@);
        assert(first_kind_at(s, a.kind@, q));
    }
}

/// An ontology's nodes, edges and axioms are keyed: no two nodes share an
/// id, no two edges an identity, no two axioms a shape.
pub open spec fn keyed(o: Ontology) -> bool {
    nodes_keyed(o.nodes@) && edges_keyed(o.edges@) && axioms_keyed(o.axioms@)
}

/// Upserting keeps nodes, edges and axioms keyed: an entry of an existing
/// key is replaced in place, one of a new key appended.
pub proof fn law_upserts_keep_keyed(o: Ontology, n: Node, e: Edge, a: Axiom)
    requires
        keyed(o),
    ensures
        nodes_keyed(node_upserted(o.nodes@, n)),
        edges_keyed(edge_upserted(o.edges@, e)),
        axioms_keyed(axiom_upserted(o.axioms@, a)),
{
    let ns = o.nodes@;
    if node_ids(ns).contains(n.id) {
        let i = choose|i: int| 0 <= i < ns.len() && ns[i].id == n.id;
        assert(first_id_at(ns, n.id, i));
        let q = id_position(ns, n.id);
        assert(first_id_at(ns, n.id, q));
    }
    let es = o.edges@;
    if edge_keys(es).contains(e.key()) {
        let i = choose|i: int| 0 <= i < es.len() && es[i].key() == e.key();
        assert(first_key_at(es, e.key(), i));
        let q = key_position(es, e.key());
        assert(first_key_at(es, e.key(), q));
    }
    let xs = o.axioms@;
    if axiom_kinds(xs).contains(a.kind@) {
        let i = choose|i: int| 0 <= i < xs.len() && xs[i].kind@ == a.kind@;
        assert(first_kind_at(xs, a.kind@, i));
        let q = kind_position(xs, a.kind@);
        assert(first_kind_at(xs, a.kind@, q));
    }
}

} // verus!
