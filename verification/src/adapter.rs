//! Translation between an [`Ontology`] and a stream of RDF triples.
//!
//! Declared node types become `owl:Class`es, edge types
//! `owl:ObjectProperty`s and property types `owl:DatatypeProperty`s; nodes
//! become subjects with `rdf:type` and literal triples; edges become
//! `<source> predicate <target>` triples; axioms become their RDFS/OWL
//! counterparts. The projection is lossy: nodes without an IRI become
//! blank nodes named by their hex identifier. The reverse direction
//! recovers class and object-property declarations and subclass links.
use vstd::prelude::*;

use crate::model::{Axiom, AxiomKind, Edge, KindView, Node, NodeId, Ontology, PropertyValue, ValueView, first_id_at};
use crate::model::{Property};
use crate::rdf::{
    base64, decimal, signed_decimal, AdapterError, triples_view, typed_literal, Object, ObjectView, Subject, SubjectView, Triple,
    TripleView, LOCAL_PREFIX, OWL_CLASS, OWL_DATATYPE_PROPERTY, OWL_DISJOINT_WITH, OWL_EQUIVALENT_CLASS,
    OWL_FUNCTIONAL_PROPERTY, OWL_INVERSE_FUNCTIONAL_PROPERTY, OWL_INVERSE_OF, OWL_OBJECT_PROPERTY,
    OWL_SYMMETRIC_PROPERTY, OWL_TRANSITIVE_PROPERTY, RDFS_DOMAIN, RDFS_RANGE, RDFS_SUBCLASS_OF, RDF_JSON, RDF_TYPE,
    XSD_ANY_URI, XSD_BASE64_BINARY, XSD_BOOLEAN, XSD_DATE_TIME, XSD_DOUBLE, XSD_INTEGER, XSD_STRING,
};
use crate::schema::{
    Cardinality, base_in, strings_view, curie_expansion, edge_type_in, node_type_in, standard_binding, Datatype, EdgeType, EdgeTypeView, Namespace,
    NodeType, NodeTypeView, PropertyType, PropertyTypeView, Schema, Vocabulary,
};
use crate::sparql::{label_localname, local_start};
use crate::text::{first_colon, has_colon, string_of_chars};
use crate::wire::{encode_id, hex_lower, id_bytes};
use crate::order::{edge_type_after, edge_type_order, isort, lemma_isort_contains, node_after, node_order, node_type_after, node_type_order, picked};

verus! {

// ---------------------------------------------------------------------
// Naming
// ---------------------------------------------------------------------

/// The base IRI a prefix resolves to when projecting an ontology whose
/// own bindings are `ob`: its own bindings, or the standard ones when it
/// has none.
pub open spec fn vocab_lookup(ob: Seq<Namespace>, p: Seq<char>) -> Option<Seq<char>> {
    if ob.len() > 0 {
        base_in(ob, p)
    } else {
        standard_binding(p)
    }
}

/// `vocab` resolves prefixes as the bindings `ob` do under [`vocab_lookup`].
pub open spec fn serves(vocab: Vocabulary, ob: Seq<Namespace>) -> bool {
    forall|p: Seq<char>| #[trigger] base_in(vocab.bindings@, p) == vocab_lookup(ob, p)
}

/// The IRI a name gets: its CURIE expansion when its prefix is bound, the
/// name itself when it holds a `:` otherwise, else the name in the local
/// namespace.
pub open spec fn iri_for(name: Seq<char>, ob: Seq<Namespace>) -> Seq<char> {
    if has_colon(name) {
        match vocab_lookup(ob, name.take(first_colon(name))) {
            Some(b) => b + name.skip(first_colon(name) + 1),
            None => name,
        }
    } else {
        LOCAL_PREFIX@ + name
    }
}

/// The IRI `name` gets under `vocab`.
pub fn ensure_iri(name: &String, vocab: &Vocabulary, Ghost(ob): Ghost<Seq<Namespace>>) -> (r: String)
    requires
        serves(*vocab, ob),
    ensures
        r@ == iri_for(name@, ob),
{
    match vocab.expand_curie(name) {
        Some(iri) => iri,
        None => {
            if has_colon_exec(name) {
                name.clone()
            } else {
                String::from_str(LOCAL_PREFIX).concat(name.as_str())
            }
        },
    }
}

fn has_colon_exec(s: &String) -> (r: bool)
    ensures
        r == has_colon(s@),
{
    let chars = crate::text::chars_of(s.as_str());
    crate::text::colon_position(&chars).is_some()
}

/// The XSD (or RDF) datatype IRI of a property datatype.
pub open spec fn datatype_iri_of(d: Datatype) -> Seq<char> {
    match d {
        Datatype::String => XSD_STRING@,
        Datatype::Integer => XSD_INTEGER@,
        Datatype::Float => XSD_DOUBLE@,
        Datatype::Bool => XSD_BOOLEAN@,
        Datatype::DateTime => XSD_DATE_TIME@,
        Datatype::Iri => XSD_ANY_URI@,
        Datatype::Bytes => XSD_BASE64_BINARY@,
        Datatype::Json => RDF_JSON@,
    }
}

/// The datatype IRI of `d`.
pub fn datatype_iri(d: Datatype) -> (r: &'static str)
    ensures
        r@ == datatype_iri_of(d),
{
    match d {
        Datatype::String => XSD_STRING,
        Datatype::Integer => XSD_INTEGER,
        Datatype::Float => XSD_DOUBLE,
        Datatype::Bool => XSD_BOOLEAN,
        Datatype::DateTime => XSD_DATE_TIME,
        Datatype::Iri => XSD_ANY_URI,
        Datatype::Bytes => XSD_BASE64_BINARY,
        Datatype::Json => RDF_JSON,
    }
}

/// The local name of an IRI: the suffix after its last `#`, `/` or `:`.
pub open spec fn local_name_of(s: Seq<char>) -> Seq<char> {
    s.subrange(local_start(s), s.len() as int)
}

/// The local name of `iri`.
pub fn local_name(iri: &String) -> (r: String)
    ensures
        r@ == local_name_of(iri@),
{
    String::from_str(label_localname(iri.as_str()))
}

// ---------------------------------------------------------------------
// Triple shapes
// ---------------------------------------------------------------------

/// A triple whose subject and object are both IRIs.
pub open spec fn iri3(s: Seq<char>, p: Seq<char>, o: Seq<char>) -> TripleView {
    TripleView { subject: SubjectView::Iri(s), predicate: p, object: ObjectView::Iri(o) }
}

fn iri_triple(s: String, p: &str, o: String) -> (r: Triple)
    ensures
        r@ == iri3(s@, p@, o@),
{
    Triple { subject: Subject::Iri(s), predicate: String::from_str(p), object: Object::Iri(o) }
}

fn push_triple(out: &mut Vec<Triple>, t: Triple)
    ensures
        triples_view(final(out)@) == triples_view(old(out)@).push(t@),
{
    out.push(t);
    assert(triples_view(final(out)@) =~= triples_view(old(out)@).push(t@));
}

// ---------------------------------------------------------------------
// Schema
// ---------------------------------------------------------------------

/// `subj pred <name>` for each name, in order.
pub open spec fn named_triples(subj: Seq<char>, pred: Seq<char>, names: Seq<Seq<char>>, ob: Seq<Namespace>) -> Seq<
    TripleView,
>
    decreases names.len(),
{
    if names.len() == 0 {
        seq![]
    } else {
        named_triples(subj, pred, names.drop_last(), ob).push(iri3(subj, pred, iri_for(names.last(), ob)))
    }
}

/// The IRI of a property type: its own, else minted from its name.
pub open spec fn property_type_iri(p: PropertyTypeView, ob: Seq<Namespace>) -> Seq<char> {
    match p.iri {
        Some(i) => i,
        None => iri_for(p.name, ob),
    }
}

/// For each property type: it is an `owl:DatatypeProperty`, its domain is
/// `class` and its range its datatype.
pub open spec fn datatype_property_triples(class: Seq<char>, ps: Seq<PropertyTypeView>, ob: Seq<Namespace>) -> Seq<
    TripleView,
>
    decreases ps.len(),
{
    if ps.len() == 0 {
        seq![]
    } else {
        let p = property_type_iri(ps.last(), ob);
        datatype_property_triples(class, ps.drop_last(), ob) + seq![
            iri3(p, RDF_TYPE@, OWL_DATATYPE_PROPERTY@),
            iri3(p, RDFS_DOMAIN@, class),
            iri3(p, RDFS_RANGE@, datatype_iri_of(ps.last().datatype)),
        ]
    }
}

/// The IRI of a node type: its own, else minted from its name.
pub open spec fn class_iri(t: NodeTypeView, ob: Seq<Namespace>) -> Seq<char> {
    match t.iri {
        Some(i) => i,
        None => iri_for(t.name, ob),
    }
}

/// A node type as an `owl:Class` with its superclasses and datatype properties.
pub open spec fn node_type_triples(t: NodeTypeView, ob: Seq<Namespace>) -> Seq<TripleView> {
    let c = class_iri(t, ob);
    seq![iri3(c, RDF_TYPE@, OWL_CLASS@)] + named_triples(c, RDFS_SUBCLASS_OF@, t.supertypes, ob)
        + datatype_property_triples(c, t.properties, ob)
}

/// The IRI of an edge type: its own, else minted from its name.
pub open spec fn predicate_iri(t: EdgeTypeView, ob: Seq<Namespace>) -> Seq<char> {
    match t.iri {
        Some(i) => i,
        None => iri_for(t.name, ob),
    }
}

/// An edge type as an `owl:ObjectProperty`: functional when it is, its
/// inverse, domains and ranges.
pub open spec fn edge_type_triples(t: EdgeTypeView, ob: Seq<Namespace>) -> Seq<TripleView> {
    let p = predicate_iri(t, ob);
    seq![iri3(p, RDF_TYPE@, OWL_OBJECT_PROPERTY@)] + (if t.functional {
        seq![iri3(p, RDF_TYPE@, OWL_FUNCTIONAL_PROPERTY@)]
    } else {
        seq![]
    }) + (match t.inverse_of {
        Some(inv) => seq![iri3(p, OWL_INVERSE_OF@, iri_for(inv, ob))],
        None => seq![],
    }) + named_triples(p, RDFS_DOMAIN@, t.domain, ob) + named_triples(p, RDFS_RANGE@, t.range, ob)
}

/// The triples of a list of node types, in order.
pub open spec fn node_types_triples(ts: Seq<NodeType>, ob: Seq<Namespace>) -> Seq<TripleView>
    decreases ts.len(),
{
    if ts.len() == 0 {
        seq![]
    } else {
        node_types_triples(ts.drop_last(), ob) + node_type_triples(ts.last()@, ob)
    }
}

/// The triples of a list of edge types, in order.
pub open spec fn edge_types_triples(ts: Seq<EdgeType>, ob: Seq<Namespace>) -> Seq<TripleView>
    decreases ts.len(),
{
    if ts.len() == 0 {
        seq![]
    } else {
        edge_types_triples(ts.drop_last(), ob) + edge_type_triples(ts.last()@, ob)
    }
}

fn emit_named(
    out: &mut Vec<Triple>,
    subj: &String,
    pred: &'static str,
    names: &Vec<String>,
    vocab: &Vocabulary,
    Ghost(ob): Ghost<Seq<Namespace>>,
)
    requires
        serves(*vocab, ob),
    ensures
        triples_view(final(out)@) == triples_view(old(out)@) + named_triples(
            subj@,
            pred@,
            names@.map_values(|n: String| n@),
            ob,
        ),
{
    let ghost base = triples_view(out@);
    let ghost all = names@.map_values(|n: String| n@);
    let mut i: usize = 0;
    assert(all.take(0) =~= Seq::<Seq<char>>::empty());
    while i < names.len()
        invariant
            i <= names.len(),
            serves(*vocab, ob),
            all == names@.map_values(|n: String| n@),
            triples_view(out@) == base + named_triples(subj@, pred@, all.take(i as int), ob),
        decreases names.len() - i,
    {
        let o = ensure_iri(&names[i], vocab, Ghost(ob));
        push_triple(out, iri_triple(subj.clone(), pred, o));
        assert(all.take(i + 1).drop_last() =~= all.take(i as int));
        assert(triples_view(out@) =~= base + named_triples(subj@, pred@, all.take(i + 1), ob));
        i = i + 1;
    }
    assert(all.take(names.len() as int) =~= all);
}

fn opt_iri_or(own: &Option<String>, name: &String, vocab: &Vocabulary, Ghost(ob): Ghost<Seq<Namespace>>) -> (r: String)
    requires
        serves(*vocab, ob),
    ensures
        r@ == match own {
            Some(i) => i@,
            None => iri_for(name@, ob),
        },
{
    match own {
        Some(i) => i.clone(),
        None => ensure_iri(name, vocab, Ghost(ob)),
    }
}

fn emit_datatype_properties(
    out: &mut Vec<Triple>,
    class: &String,
    props: &Vec<PropertyType>,
    vocab: &Vocabulary,
    Ghost(ob): Ghost<Seq<Namespace>>,
)
    requires
        serves(*vocab, ob),
    ensures
        triples_view(final(out)@) == triples_view(old(out)@) + datatype_property_triples(
            class@,
            props@.map_values(|p: PropertyType| p@),
            ob,
        ),
{
    let ghost base = triples_view(out@);
    let ghost all = props@.map_values(|p: PropertyType| p@);
    let mut i: usize = 0;
    assert(all.take(0) =~= Seq::<PropertyTypeView>::empty());
    while i < props.len()
        invariant
            i <= props.len(),
            serves(*vocab, ob),
            all == props@.map_values(|p: PropertyType| p@),
            triples_view(out@) == base + datatype_property_triples(class@, all.take(i as int), ob),
        decreases props.len() - i,
    {
        let p = &props[i];
        let piri = opt_iri_or(&p.iri, &p.name, vocab, Ghost(ob));
        assert(piri@ == property_type_iri(all[i as int], ob));
        push_triple(out, iri_triple(piri.clone(), RDF_TYPE, String::from_str(OWL_DATATYPE_PROPERTY)));
        push_triple(out, iri_triple(piri.clone(), RDFS_DOMAIN, class.clone()));
        push_triple(out, iri_triple(piri, RDFS_RANGE, String::from_str(datatype_iri(p.datatype))));
        assert(all.take(i + 1).drop_last() =~= all.take(i as int));
        assert(all.take(i + 1).last() == all[i as int]);
        assert(triples_view(out@) =~= base + datatype_property_triples(class@, all.take(i + 1), ob));
        i = i + 1;
    }
    assert(all.take(props.len() as int) =~= all);
}

fn emit_node_type(out: &mut Vec<Triple>, t: &NodeType, vocab: &Vocabulary, Ghost(ob): Ghost<Seq<Namespace>>)
    requires
        serves(*vocab, ob),
    ensures
        triples_view(final(out)@) == triples_view(old(out)@) + node_type_triples(t@, ob),
{
    let ghost base = triples_view(out@);
    let class = opt_iri_or(&t.iri, &t.name, vocab, Ghost(ob));
    push_triple(out, iri_triple(class.clone(), RDF_TYPE, String::from_str(OWL_CLASS)));
    let ghost mid = triples_view(out@);
    emit_named(out, &class, RDFS_SUBCLASS_OF, &t.supertypes, vocab, Ghost(ob));
    let ghost mid2 = triples_view(out@);
    emit_datatype_properties(out, &class, &t.properties, vocab, Ghost(ob));
    assert(triples_view(out@) =~= base + node_type_triples(t@, ob));
}

fn emit_edge_type(out: &mut Vec<Triple>, t: &EdgeType, vocab: &Vocabulary, Ghost(ob): Ghost<Seq<Namespace>>)
    requires
        serves(*vocab, ob),
    ensures
        triples_view(final(out)@) == triples_view(old(out)@) + edge_type_triples(t@, ob),
{
    let ghost base = triples_view(out@);
    let pred = opt_iri_or(&t.iri, &t.name, vocab, Ghost(ob));
    push_triple(out, iri_triple(pred.clone(), RDF_TYPE, String::from_str(OWL_OBJECT_PROPERTY)));
    if t.functional {
        push_triple(out, iri_triple(pred.clone(), RDF_TYPE, String::from_str(OWL_FUNCTIONAL_PROPERTY)));
    }
    match &t.inverse_of {
        Some(inv) => {
            let o = ensure_iri(inv, vocab, Ghost(ob));
            push_triple(out, iri_triple(pred.clone(), OWL_INVERSE_OF, o));
        },
        None => {},
    }
    let ghost mid = triples_view(out@);
    emit_named(out, &pred, RDFS_DOMAIN, &t.domain, vocab, Ghost(ob));
    emit_named(out, &pred, RDFS_RANGE, &t.range, vocab, Ghost(ob));
    assert(triples_view(out@) =~= base + edge_type_triples(t@, ob));
}

/// The schema's node types, then its edge types, each in increasing order
/// of name.
pub open spec fn schema_triples(s: Schema, ob: Seq<Namespace>) -> Seq<TripleView> {
    node_types_triples(isort(s.node_types@, node_type_after()), ob) + edge_types_triples(
        isort(s.edge_types@, edge_type_after()),
        ob,
    )
}

fn emit_schema(out: &mut Vec<Triple>, schema: &Schema, vocab: &Vocabulary, Ghost(ob): Ghost<Seq<Namespace>>)
    requires
        serves(*vocab, ob),
    ensures
        triples_view(final(out)@) == triples_view(old(out)@) + schema_triples(*schema, ob),
{
    let ghost base = triples_view(out@);
    let order = node_type_order(&schema.node_types);
    let ghost ns = isort(schema.node_types@, node_type_after());
    let mut i: usize = 0;
    assert(ns.take(0) =~= Seq::<NodeType>::empty());
    while i < order.len()
        invariant
            i <= order@.len(),
            serves(*vocab, ob),
            ns == picked(schema.node_types@, order@),
            forall|q: int| 0 <= q < order@.len() ==> #[trigger] order@[q] < schema.node_types@.len(),
            triples_view(out@) == base + node_types_triples(ns.take(i as int), ob),
        decreases order@.len() - i,
    {
        emit_node_type(out, &schema.node_types[order[i]], vocab, Ghost(ob));
        assert(ns[i as int] == schema.node_types@[order@[i as int] as int]);
        assert(ns.take(i + 1).drop_last() =~= ns.take(i as int));
        assert(triples_view(out@) =~= base + node_types_triples(ns.take(i + 1), ob));
        i = i + 1;
    }
    assert(ns.take(i as int) =~= ns);
    let ghost mid = triples_view(out@);
    let order = edge_type_order(&schema.edge_types);
    let ghost es = isort(schema.edge_types@, edge_type_after());
    let mut j: usize = 0;
    assert(es.take(0) =~= Seq::<EdgeType>::empty());
    while j < order.len()
        invariant
            j <= order@.len(),
            serves(*vocab, ob),
            es == picked(schema.edge_types@, order@),
            forall|q: int| 0 <= q < order@.len() ==> #[trigger] order@[q] < schema.edge_types@.len(),
            triples_view(out@) == mid + edge_types_triples(es.take(j as int), ob),
        decreases order@.len() - j,
    {
        emit_edge_type(out, &schema.edge_types[order[j]], vocab, Ghost(ob));
        assert(es[j as int] == schema.edge_types@[order@[j as int] as int]);
        assert(es.take(j + 1).drop_last() =~= es.take(j as int));
        assert(triples_view(out@) =~= mid + edge_types_triples(es.take(j + 1), ob));
        j = j + 1;
    }
    assert(es.take(j as int) =~= es);
    assert(triples_view(out@) =~= base + schema_triples(*schema, ob));
}

// ---------------------------------------------------------------------
// Nodes
// ---------------------------------------------------------------------

/// The first node of `s` with identifier `id`, if any.
pub open spec fn node_by_id(s: Seq<Node>, id: NodeId) -> Option<Node> {
    if exists|i: int| first_id_at(s, id, i) {
        Some(s[choose|i: int| first_id_at(s, id, i)])
    } else {
        None
    }
}

/// The hex text naming an identifier.
pub open spec fn id_text(id: NodeId) -> Seq<char> {
    hex_lower(id_bytes(id))
}

/// A node as a subject: its IRI, else a blank node named by its identifier.
pub open spec fn subject_of(n: Node) -> SubjectView {
    match n.iri {
        Some(i) => SubjectView::Iri(i@),
        None => SubjectView::Blank(id_text(n.id)),
    }
}

/// A node as the object of an edge triple: its IRI when the node is
/// present and has one, else the IRI `_:n` followed by its identifier.
pub open spec fn object_of(nodes: Seq<Node>, id: NodeId) -> ObjectView {
    match node_by_id(nodes, id) {
        Some(n) => match n.iri {
            Some(i) => ObjectView::Iri(i@),
            None => ObjectView::Iri("_:n"@ + id_text(id)),
        },
        None => ObjectView::Iri("_:n"@ + id_text(id)),
    }
}

/// The class IRI of a node type name: the declared type's IRI, else minted.
pub open spec fn type_iri(nts: Seq<NodeType>, ty: Seq<char>, ob: Seq<Namespace>) -> Seq<char> {
    match node_type_in(nts, ty) {
        Some(t) => match t.iri {
            Some(i) => i@,
            None => iri_for(ty, ob),
        },
        None => iri_for(ty, ob),
    }
}

/// `subj rdf:type <class>` for each type name, in order.
pub open spec fn type_triples(subj: SubjectView, types: Seq<String>, nts: Seq<NodeType>, ob: Seq<Namespace>) -> Seq<
    TripleView,
>
    decreases types.len(),
{
    if types.len() == 0 {
        seq![]
    } else {
        type_triples(subj, types.drop_last(), nts, ob).push(
            TripleView {
                subject: subj,
                predicate: RDF_TYPE@,
                object: ObjectView::Iri(type_iri(nts, types.last()@, ob)),
            },
        )
    }
}

/// The object a property value projects to; `Null` projects to nothing.
pub open spec fn value_object(v: ValueView) -> Option<ObjectView> {
    match v {
        ValueView::String(s) => Some(typed_literal(s, XSD_STRING@)),
        ValueView::Integer(i) => Some(typed_literal(signed_decimal(i as int), XSD_INTEGER@)),
        ValueView::Bool(b) => Some(typed_literal(if b { "true"@ } else { "false"@ }, XSD_BOOLEAN@)),
        ValueView::Iri(s) => Some(ObjectView::Iri(s)),
        ValueView::Bytes(b) => Some(typed_literal(base64(b), XSD_BASE64_BINARY@)),
        ValueView::Null => None,
    }
}

/// The first of `types` that `nts` declares.
pub open spec fn first_declared(types: Seq<String>, nts: Seq<NodeType>) -> Option<NodeType>
    decreases types.len(),
{
    if types.len() == 0 {
        None
    } else {
        match node_type_in(nts, types[0]@) {
            Some(t) => Some(t),
            None => first_declared(types.drop_first(), nts),
        }
    }
}

/// The first property type of `ps` named `name`.
pub open spec fn declared_property(ps: Seq<PropertyType>, name: Seq<char>) -> Option<PropertyType>
    decreases ps.len(),
{
    if ps.len() == 0 {
        None
    } else if ps[0].name@ == name {
        Some(ps[0])
    } else {
        declared_property(ps.drop_first(), name)
    }
}

/// The predicate of a node's property `key`: the IRI of the property type
/// of that name in the node's first declared type, else minted.
pub open spec fn property_iri(n: Node, key: Seq<char>, nts: Seq<NodeType>, ob: Seq<Namespace>) -> Seq<char> {
    match first_declared(n.types@, nts) {
        Some(t) => match declared_property(t.properties@, key) {
            Some(p) => match p.iri {
                Some(i) => i@,
                None => iri_for(key, ob),
            },
            None => iri_for(key, ob),
        },
        None => iri_for(key, ob),
    }
}

/// `subj <property> value` for each property with a projectable value.
pub open spec fn value_triples(n: Node, props: Seq<Property>, nts: Seq<NodeType>, ob: Seq<Namespace>) -> Seq<
    TripleView,
>
    decreases props.len(),
{
    if props.len() == 0 {
        seq![]
    } else {
        let rest = value_triples(n, props.drop_last(), nts, ob);
        match value_object(props.last().value@) {
            Some(o) => rest.push(
                TripleView { subject: subject_of(n), predicate: property_iri(n, props.last().key@, nts, ob), object: o },
            ),
            None => rest,
        }
    }
}

/// A node's type triples, then its property triples.
pub open spec fn node_triples(n: Node, nts: Seq<NodeType>, ob: Seq<Namespace>) -> Seq<TripleView> {
    type_triples(subject_of(n), n.types@, nts, ob) + value_triples(n, n.properties@, nts, ob)
}

/// The triples of a list of nodes, in order.
pub open spec fn nodes_triples(ns: Seq<Node>, nts: Seq<NodeType>, ob: Seq<Namespace>) -> Seq<TripleView>
    decreases ns.len(),
{
    if ns.len() == 0 {
        seq![]
    } else {
        nodes_triples(ns.drop_last(), nts, ob) + node_triples(ns.last(), nts, ob)
    }
}

fn find_node(nodes: &Vec<Node>, id: NodeId) -> (r: Option<&Node>)
    ensures
        match r {
            Some(n) => node_by_id(nodes@, id) == Some(*n),
            None => node_by_id(nodes@, id) is None,
        },
{
    let mut i: usize = 0;
    while i < nodes.len()
        invariant
            i <= nodes.len(),
            forall|j: int| 0 <= j < i ==> nodes@[j].id != id,
        decreases nodes.len() - i,
    {
        if nodes[i].id == id {
            assert(first_id_at(nodes@, id, i as int));
            assert forall|k: int| first_id_at(nodes@, id, k) implies k == i by {
                if k < i {
                    assert(nodes@[k].id != id);
                } else if k > i {
                    assert(nodes@[i as int].id == id);
                }
            }
            return Some(&nodes[i]);
        }
        i = i + 1;
    }
    None
}

fn node_subject(n: &Node) -> (r: Subject)
    ensures
        r@ == subject_of(*n),
{
    match &n.iri {
        Some(i) => Subject::Iri(i.clone()),
        None => Subject::Blank(encode_id(n.id)),
    }
}

fn value_to_object(v: &PropertyValue) -> (r: Option<Object>)
    ensures
        match r {
            Some(o) => value_object(v@) == Some(o@),
            None => value_object(v@) is None,
        },
{
    match v {
        PropertyValue::String(s) => Some(Object::xsd_string(s.clone())),
        PropertyValue::Integer(i) => Some(Object::xsd_integer(*i)),
        PropertyValue::Bool(b) => Some(Object::xsd_boolean(*b)),
        PropertyValue::Iri(s) => Some(Object::Iri(s.clone())),
        PropertyValue::Bytes(b) => Some(Object::xsd_base64(b.as_slice())),
        PropertyValue::Null => None,
    }
}

fn first_declared_type<'a>(types: &Vec<String>, schema: &'a Schema) -> (r: Option<&'a NodeType>)
    ensures
        match r {
            Some(t) => first_declared(types@, schema.node_types@) == Some(*t),
            None => first_declared(types@, schema.node_types@) is None,
        },
{
    let mut i: usize = 0;
    assert(types@.skip(0) =~= types@);
    while i < types.len()
        invariant
            i <= types.len(),
            first_declared(types@, schema.node_types@) == first_declared(types@.skip(i as int), schema.node_types@),
        decreases types.len() - i,
    {
        let ghost rest = types@.skip(i as int);
        assert(rest[0] == types@[i as int]);
        assert(rest.drop_first() =~= types@.skip(i + 1));
        match schema.node_type(&types[i]) {
            Some(t) => {
                return Some(t);
            },
            None => {},
        }
        i = i + 1;
    }
    None
}

fn declared_property_type<'a>(props: &'a Vec<PropertyType>, name: &String) -> (r: Option<&'a PropertyType>)
    ensures
        match r {
            Some(p) => declared_property(props@, name@) == Some(*p),
            None => declared_property(props@, name@) is None,
        },
{
    let mut i: usize = 0;
    assert(props@.skip(0) =~= props@);
    while i < props.len()
        invariant
            i <= props.len(),
            declared_property(props@, name@) == declared_property(props@.skip(i as int), name@),
        decreases props.len() - i,
    {
        let ghost rest = props@.skip(i as int);
        assert(rest[0] == props@[i as int]);
        assert(rest.drop_first() =~= props@.skip(i + 1));
        if props[i].name == *name {
            return Some(&props[i]);
        }
        i = i + 1;
    }
    None
}

fn property_predicate(
    n: &Node,
    key: &String,
    schema: &Schema,
    vocab: &Vocabulary,
    Ghost(ob): Ghost<Seq<Namespace>>,
) -> (r: String)
    requires
        serves(*vocab, ob),
    ensures
        r@ == property_iri(*n, key@, schema.node_types@, ob),
{
    match first_declared_type(&n.types, schema) {
        Some(t) => match declared_property_type(&t.properties, key) {
            Some(p) => match &p.iri {
                Some(i) => i.clone(),
                None => ensure_iri(key, vocab, Ghost(ob)),
            },
            None => ensure_iri(key, vocab, Ghost(ob)),
        },
        None => ensure_iri(key, vocab, Ghost(ob)),
    }
}

fn emit_node(out: &mut Vec<Triple>, n: &Node, schema: &Schema, vocab: &Vocabulary, Ghost(ob): Ghost<Seq<Namespace>>)
    requires
        serves(*vocab, ob),
    ensures
        triples_view(final(out)@) == triples_view(old(out)@) + node_triples(*n, schema.node_types@, ob),
{
    let ghost base = triples_view(out@);
    let ghost nts = schema.node_types@;
    let mut i: usize = 0;
    assert(n.types@.take(0) =~= Seq::<String>::empty());
    while i < n.types.len()
        invariant
            i <= n.types.len(),
            serves(*vocab, ob),
            nts == schema.node_types@,
            triples_view(out@) == base + type_triples(subject_of(*n), n.types@.take(i as int), nts, ob),
        decreases n.types.len() - i,
    {
        let ty = &n.types[i];
        let class = match schema.node_type(ty) {
            Some(t) => match &t.iri {
                Some(iri) => iri.clone(),
                None => ensure_iri(ty, vocab, Ghost(ob)),
            },
            None => ensure_iri(ty, vocab, Ghost(ob)),
        };
        push_triple(out, Triple { subject: node_subject(n), predicate: String::from_str(RDF_TYPE), object: Object::Iri(class) });
        assert(n.types@.take(i + 1).drop_last() =~= n.types@.take(i as int));
        assert(triples_view(out@) =~= base + type_triples(subject_of(*n), n.types@.take(i + 1), nts, ob));
        i = i + 1;
    }
    assert(n.types@.take(i as int) =~= n.types@);
    let ghost mid = triples_view(out@);
    let mut j: usize = 0;
    assert(n.properties@.take(0) =~= Seq::<Property>::empty());
    while j < n.properties.len()
        invariant
            j <= n.properties.len(),
            serves(*vocab, ob),
            nts == schema.node_types@,
            triples_view(out@) == mid + value_triples(*n, n.properties@.take(j as int), nts, ob),
        decreases n.properties.len() - j,
    {
        let p = &n.properties[j];
        assert(n.properties@.take(j + 1).drop_last() =~= n.properties@.take(j as int));
        assert(n.properties@.take(j + 1).last() == n.properties@[j as int]);
        match value_to_object(&p.value) {
            Some(o) => {
                let pred = property_predicate(n, &p.key, schema, vocab, Ghost(ob));
                push_triple(out, Triple { subject: node_subject(n), predicate: pred, object: o });
            },
            None => {},
        }
        assert(triples_view(out@) =~= mid + value_triples(*n, n.properties@.take(j + 1), nts, ob));
        j = j + 1;
    }
    assert(n.properties@.take(j as int) =~= n.properties@);
    assert(triples_view(out@) =~= base + node_triples(*n, nts, ob));
}

// ---------------------------------------------------------------------
// Edges and axioms
// ---------------------------------------------------------------------

/// The predicate of an edge label: the declared edge type's IRI, else minted.
pub open spec fn edge_predicate(ets: Seq<EdgeType>, label: Seq<char>, ob: Seq<Namespace>) -> Seq<char> {
    match edge_type_in(ets, label) {
        Some(t) => match t.iri {
            Some(i) => i@,
            None => iri_for(label, ob),
        },
        None => iri_for(label, ob),
    }
}

/// `<source> predicate <target>` for each edge whose source node is present.
pub open spec fn edges_triples(es: Seq<Edge>, nodes: Seq<Node>, ets: Seq<EdgeType>, ob: Seq<Namespace>) -> Seq<
    TripleView,
>
    decreases es.len(),
{
    if es.len() == 0 {
        seq![]
    } else {
        let rest = edges_triples(es.drop_last(), nodes, ets, ob);
        let e = es.last();
        match node_by_id(nodes, e.source) {
            Some(src) => rest.push(
                TripleView {
                    subject: subject_of(src),
                    predicate: edge_predicate(ets, e.label@, ob),
                    object: object_of(nodes, e.target),
                },
            ),
            None => rest,
        }
    }
}

/// The RDFS/OWL triple of an axiom.
pub open spec fn axiom_triple(k: KindView, ob: Seq<Namespace>) -> TripleView {
    match k {
        KindView::SubClassOf(a, b) => iri3(iri_for(a, ob), RDFS_SUBCLASS_OF@, iri_for(b, ob)),
        KindView::EquivalentClass(a, b) => iri3(iri_for(a, ob), OWL_EQUIVALENT_CLASS@, iri_for(b, ob)),
        KindView::DisjointWith(a, b) => iri3(iri_for(a, ob), OWL_DISJOINT_WITH@, iri_for(b, ob)),
        KindView::Domain(p, c) => iri3(iri_for(p, ob), RDFS_DOMAIN@, iri_for(c, ob)),
        KindView::Range(p, c) => iri3(iri_for(p, ob), RDFS_RANGE@, iri_for(c, ob)),
        KindView::Functional(p) => iri3(iri_for(p, ob), RDF_TYPE@, OWL_FUNCTIONAL_PROPERTY@),
        KindView::InverseFunctional(p) => iri3(iri_for(p, ob), RDF_TYPE@, OWL_INVERSE_FUNCTIONAL_PROPERTY@),
        KindView::InverseOf(a, b) => iri3(iri_for(a, ob), OWL_INVERSE_OF@, iri_for(b, ob)),
        KindView::Symmetric(p) => iri3(iri_for(p, ob), RDF_TYPE@, OWL_SYMMETRIC_PROPERTY@),
        KindView::Transitive(p) => iri3(iri_for(p, ob), RDF_TYPE@, OWL_TRANSITIVE_PROPERTY@),
    }
}

/// The triples of a list of axioms, in order.
pub open spec fn axioms_triples(axs: Seq<Axiom>, ob: Seq<Namespace>) -> Seq<TripleView>
    decreases axs.len(),
{
    if axs.len() == 0 {
        seq![]
    } else {
        axioms_triples(axs.drop_last(), ob).push(axiom_triple(axs.last().kind@, ob))
    }
}

fn node_object(id: NodeId, nodes: &Vec<Node>) -> (r: Object)
    ensures
        r@ == object_of(nodes@, id),
{
    let anon = String::from_str("_:n").concat(encode_id(id).as_str());
    match find_node(nodes, id) {
        Some(n) => match &n.iri {
            Some(i) => Object::Iri(i.clone()),
            None => Object::Iri(anon),
        },
        None => Object::Iri(anon),
    }
}

fn emit_edges(out: &mut Vec<Triple>, o: &Ontology, vocab: &Vocabulary, Ghost(ob): Ghost<Seq<Namespace>>)
    requires
        serves(*vocab, ob),
    ensures
        triples_view(final(out)@) == triples_view(old(out)@) + edges_triples(
            o.edges@,
            o.nodes@,
            o.schema.edge_types@,
            ob,
        ),
{
    let ghost base = triples_view(out@);
    let mut i: usize = 0;
    assert(o.edges@.take(0) =~= Seq::<Edge>::empty());
    while i < o.edges.len()
        invariant
            i <= o.edges.len(),
            serves(*vocab, ob),
            triples_view(out@) == base + edges_triples(o.edges@.take(i as int), o.nodes@, o.schema.edge_types@, ob),
        decreases o.edges.len() - i,
    {
        let e = &o.edges[i];
        assert(o.edges@.take(i + 1).drop_last() =~= o.edges@.take(i as int));
        assert(o.edges@.take(i + 1).last() == o.edges@[i as int]);
        match find_node(&o.nodes, e.source) {
            Some(src) => {
                let pred = match o.schema.edge_type(&e.label) {
                    Some(t) => match &t.iri {
                        Some(iri) => iri.clone(),
                        None => ensure_iri(&e.label, vocab, Ghost(ob)),
                    },
                    None => ensure_iri(&e.label, vocab, Ghost(ob)),
                };
                let obj = node_object(e.target, &o.nodes);
                push_triple(out, Triple { subject: node_subject(src), predicate: pred, object: obj });
            },
            None => {},
        }
        assert(triples_view(out@) =~= base + edges_triples(o.edges@.take(i + 1), o.nodes@, o.schema.edge_types@, ob));
        i = i + 1;
    }
    assert(o.edges@.take(i as int) =~= o.edges@);
}

fn axiom_to_triple(k: &AxiomKind, vocab: &Vocabulary, Ghost(ob): Ghost<Seq<Namespace>>) -> (r: Triple)
    requires
        serves(*vocab, ob),
    ensures
        r@ == axiom_triple(k@, ob),
{
    match k {
        AxiomKind::SubClassOf { sub, sup } => iri_triple(
            ensure_iri(sub, vocab, Ghost(ob)),
            RDFS_SUBCLASS_OF,
            ensure_iri(sup, vocab, Ghost(ob)),
        ),
        AxiomKind::EquivalentClass { left, right } => iri_triple(
            ensure_iri(left, vocab, Ghost(ob)),
            OWL_EQUIVALENT_CLASS,
            ensure_iri(right, vocab, Ghost(ob)),
        ),
        AxiomKind::DisjointWith { left, right } => iri_triple(
            ensure_iri(left, vocab, Ghost(ob)),
            OWL_DISJOINT_WITH,
            ensure_iri(right, vocab, Ghost(ob)),
        ),
        AxiomKind::Domain { property, class } => iri_triple(
            ensure_iri(property, vocab, Ghost(ob)),
            RDFS_DOMAIN,
            ensure_iri(class, vocab, Ghost(ob)),
        ),
        AxiomKind::Range { property, class } => iri_triple(
            ensure_iri(property, vocab, Ghost(ob)),
            RDFS_RANGE,
            ensure_iri(class, vocab, Ghost(ob)),
        ),
        AxiomKind::Functional { property } => iri_triple(
            ensure_iri(property, vocab, Ghost(ob)),
            RDF_TYPE,
            String::from_str(OWL_FUNCTIONAL_PROPERTY),
        ),
        AxiomKind::InverseFunctional { property } => iri_triple(
            ensure_iri(property, vocab, Ghost(ob)),
            RDF_TYPE,
            String::from_str(OWL_INVERSE_FUNCTIONAL_PROPERTY),
        ),
        AxiomKind::InverseOf { left, right } => iri_triple(
            ensure_iri(left, vocab, Ghost(ob)),
            OWL_INVERSE_OF,
            ensure_iri(right, vocab, Ghost(ob)),
        ),
        AxiomKind::Symmetric { property } => iri_triple(
            ensure_iri(property, vocab, Ghost(ob)),
            RDF_TYPE,
            String::from_str(OWL_SYMMETRIC_PROPERTY),
        ),
        AxiomKind::Transitive { property } => iri_triple(
            ensure_iri(property, vocab, Ghost(ob)),
            RDF_TYPE,
            String::from_str(OWL_TRANSITIVE_PROPERTY),
        ),
    }
}

// ---------------------------------------------------------------------
// Projection
// ---------------------------------------------------------------------

/// The triples an ontology projects to: its schema (node types, then edge
/// types, each by increasing name), then its nodes by increasing id, then
/// its edges and its axioms as stored, with names resolved against its own
/// bindings (the standard ones when it has none).
pub open spec fn rdf_of(o: Ontology) -> Seq<TripleView> {
    let ob = o.vocabulary.bindings@;
    schema_triples(o.schema, ob) + nodes_triples(isort(o.nodes@, node_after()), o.schema.node_types@, ob) + edges_triples(
        o.edges@,
        o.nodes@,
        o.schema.edge_types@,
        ob,
    ) + axioms_triples(o.axioms@, ob)
}

/// Project an ontology to RDF triples.
pub fn to_rdf(ontology: &Ontology) -> (r: Vec<Triple>)
    ensures
        triples_view(r@) == rdf_of(*ontology),
{
    let ghost ob = ontology.vocabulary.bindings@;
    let standard = Vocabulary::with_standard_bindings();
    let vocab: &Vocabulary = if ontology.vocabulary.is_empty() {
        &standard
    } else {
        &ontology.vocabulary
    };
    assert(serves(*vocab, ob));
    let mut out: Vec<Triple> = Vec::new();
    assert(triples_view(out@) =~= Seq::<TripleView>::empty());
    emit_schema(&mut out, &ontology.schema, vocab, Ghost(ob));
    let ghost s1 = triples_view(out@);
    let order = node_order(&ontology.nodes);
    let ghost ns = isort(ontology.nodes@, node_after());
    let mut i: usize = 0;
    assert(ns.take(0) =~= Seq::<Node>::empty());
    while i < order.len()
        invariant
            i <= order@.len(),
            serves(*vocab, ob),
            ns == picked(ontology.nodes@, order@),
            forall|q: int| 0 <= q < order@.len() ==> #[trigger] order@[q] < ontology.nodes@.len(),
            triples_view(out@) == s1 + nodes_triples(ns.take(i as int), ontology.schema.node_types@, ob),
        decreases order@.len() - i,
    {
        emit_node(&mut out, &ontology.nodes[order[i]], &ontology.schema, vocab, Ghost(ob));
        assert(ns[i as int] == ontology.nodes@[order@[i as int] as int]);
        assert(ns.take(i + 1).drop_last() =~= ns.take(i as int));
        assert(triples_view(out@) =~= s1 + nodes_triples(ns.take(i + 1), ontology.schema.node_types@, ob));
        i = i + 1;
    }
    assert(ns.take(i as int) =~= ns);
    emit_edges(&mut out, ontology, vocab, Ghost(ob));
    let ghost s3 = triples_view(out@);
    let mut j: usize = 0;
    assert(ontology.axioms@.take(0) =~= Seq::<Axiom>::empty());
    while j < ontology.axioms.len()
        invariant
            j <= ontology.axioms.len(),
            serves(*vocab, ob),
            triples_view(out@) == s3 + axioms_triples(ontology.axioms@.take(j as int), ob),
        decreases ontology.axioms.len() - j,
    {
        let t = axiom_to_triple(&ontology.axioms[j].kind, vocab, Ghost(ob));
        push_triple(&mut out, t);
        assert(ontology.axioms@.take(j + 1).drop_last() =~= ontology.axioms@.take(j as int));
        assert(triples_view(out@) =~= s3 + axioms_triples(ontology.axioms@.take(j + 1), ob));
        j = j + 1;
    }
    assert(ontology.axioms@.take(j as int) =~= ontology.axioms@);
    assert(triples_view(out@) =~= rdf_of(*ontology));
    out
}

// ---------------------------------------------------------------------
// Import
// ---------------------------------------------------------------------

/// The node type a class IRI is imported as: named by its local name.
pub open spec fn imported_class(iri: Seq<char>) -> NodeTypeView {
    NodeTypeView { name: local_name_of(iri), iri: Some(iri), supertypes: seq![], properties: seq![], description: None }
}

/// The edge type an object-property IRI is imported as: named by its local name.
pub open spec fn imported_property(iri: Seq<char>) -> EdgeTypeView {
    EdgeTypeView {
        name: local_name_of(iri),
        iri: Some(iri),
        domain: seq![],
        range: seq![],
        functional: false,
        inverse_of: None,
        properties: seq![],
        cardinality: Cardinality::spec_any(),
        description: None,
    }
}

/// The node types `ts` declares, by name: `<c> rdf:type owl:Class`
/// (re)declares `c`; `<c> rdfs:subClassOf <d>` adds `d`'s local name to
/// `c`'s supertypes (declaring `c` first when needed) unless present.
pub open spec fn imported_classes(ts: Seq<TripleView>) -> Map<Seq<char>, NodeTypeView>
    decreases ts.len(),
{
    if ts.len() == 0 {
        Map::empty()
    } else {
        let m = imported_classes(ts.drop_last());
        let t = ts.last();
        match t.subject {
            SubjectView::Iri(s) => if t.predicate == RDF_TYPE@ {
                if t.object == ObjectView::Iri(OWL_CLASS@) {
                    m.insert(local_name_of(s), imported_class(s))
                } else {
                    m
                }
            } else if t.predicate == RDFS_SUBCLASS_OF@ {
                match t.object {
                    ObjectView::Iri(o) => {
                        let n = local_name_of(s);
                        let sup = local_name_of(o);
                        let cur = if m.dom().contains(n) {
                            m[n]
                        } else {
                            imported_class(s)
                        };
                        m.insert(
                            n,
                            if cur.supertypes.contains(sup) {
                                cur
                            } else {
                                NodeTypeView { supertypes: cur.supertypes.push(sup), ..cur }
                            },
                        )
                    },
                    _ => m,
                }
            } else {
                m
            },
            SubjectView::Blank(_) => m,
        }
    }
}

/// The edge types `ts` declares, by name: `<p> rdf:type owl:ObjectProperty`
/// (re)declares `p`.
pub open spec fn imported_properties(ts: Seq<TripleView>) -> Map<Seq<char>, EdgeTypeView>
    decreases ts.len(),
{
    if ts.len() == 0 {
        Map::empty()
    } else {
        let m = imported_properties(ts.drop_last());
        let t = ts.last();
        match t.subject {
            SubjectView::Iri(s) => if t.predicate == RDF_TYPE@ && t.object == ObjectView::Iri(OWL_OBJECT_PROPERTY@) {
                m.insert(local_name_of(s), imported_property(s))
            } else {
                m
            },
            SubjectView::Blank(_) => m,
        }
    }
}

/// `schema` declares exactly the node types of `classes` and the edge
/// types of `props`.
pub open spec fn schema_declares(
    schema: Schema,
    classes: Map<Seq<char>, NodeTypeView>,
    props: Map<Seq<char>, EdgeTypeView>,
) -> bool {
    &&& forall|n: Seq<char>| #[trigger]
        node_type_in(schema.node_types@, n) == None::<NodeType> <==> !classes.dom().contains(n)
    &&& forall|n: Seq<char>| #[trigger]
        node_type_in(schema.node_types@, n) matches Some(t) ==> classes.dom().contains(n) && t@ == classes[n]
    &&& forall|n: Seq<char>| #[trigger]
        edge_type_in(schema.edge_types@, n) == None::<EdgeType> <==> !props.dom().contains(n)
    &&& forall|n: Seq<char>| #[trigger]
        edge_type_in(schema.edge_types@, n) matches Some(t) ==> props.dom().contains(n) && t@ == props[n]
}

fn contains_string(s: &Vec<String>, x: &String) -> (r: bool)
    ensures
        r == strings_view(s@).contains(x@),
{
    let ghost v = strings_view(s@);
    let mut i: usize = 0;
    while i < s.len()
        invariant
            i <= s.len(),
            v == strings_view(s@),
            forall|j: int| 0 <= j < i ==> v[j] != x@,
        decreases s.len() - i,
    {
        if s[i] == *x {
            assert(v[i as int] == x@);
            return true;
        }
        i = i + 1;
    }
    false
}

/// Import class and object-property declarations and subclass links
/// from a triple stream; other triples are skipped. Always succeeds.
pub fn from_rdf(triples: &Vec<Triple>) -> (r: Result<Ontology, AdapterError>)
    ensures
        r matches Ok(o) && o.iri is None && o.vocabulary.bindings@.len() == 0 && o.nodes@.len() == 0
            && o.edges@.len() == 0 && o.axioms@.len() == 0 && schema_declares(
            o.schema,
            imported_classes(triples_view(triples@)),
            imported_properties(triples_view(triples@)),
        ),
{
    let mut o = Ontology::new();
    let ghost tv = triples_view(triples@);
    let mut i: usize = 0;
    assert(tv.take(0) =~= Seq::<TripleView>::empty());
    while i < triples.len()
        invariant
            i <= triples.len(),
            tv == triples_view(triples@),
            o.iri is None,
            o.vocabulary.bindings@.len() == 0,
            o.nodes@.len() == 0,
            o.edges@.len() == 0,
            o.axioms@.len() == 0,
            schema_declares(o.schema, imported_classes(tv.take(i as int)), imported_properties(tv.take(i as int))),
        decreases triples.len() - i,
    {
        let t = &triples[i];
        let ghost before = tv.take(i as int);
        let ghost after = tv.take(i + 1);
        assert(after.drop_last() =~= before);
        assert(after.last() == t@);
        let ghost c0 = imported_classes(before);
        let ghost p0 = imported_properties(before);
        match &t.subject {
            Subject::Iri(s) => {
                if str_eq(&t.predicate, RDF_TYPE) {
                    match &t.object {
                        Object::Iri(obj) => {
                            if str_eq(obj, OWL_CLASS) {
                                let name = local_name(s);
                                let nt = NodeType::new(name).with_iri(s.clone());
                                assert(nt@ =~= imported_class(s@)) by {
                                    assert(nt@.supertypes =~= Seq::<Seq<char>>::empty());
                                    assert(nt@.properties =~= Seq::<PropertyTypeView>::empty());
                                }
                                assert(imported_classes(after) == c0.insert(local_name_of(s@), imported_class(s@)));
                                assert(OWL_CLASS@ != OWL_OBJECT_PROPERTY@) by {
                                    reveal_strlit("http://www.w3.org/2002/07/owl#Class");
                                    reveal_strlit("http://www.w3.org/2002/07/owl#ObjectProperty");
                                }
                                assert(imported_properties(after) == p0);
                                o.schema.declare_node_type(nt);
                                assert(schema_declares(o.schema, imported_classes(after), imported_properties(after)));
                            } else if str_eq(obj, OWL_OBJECT_PROPERTY) {
                                let name = local_name(s);
                                let et = EdgeType::new(name).with_iri(s.clone());
                                assert(et@ =~= imported_property(s@)) by {
                                    assert(et@.domain =~= Seq::<Seq<char>>::empty());
                                    assert(et@.range =~= Seq::<Seq<char>>::empty());
                                    assert(et@.properties =~= Seq::<PropertyTypeView>::empty());
                                }
                                assert(imported_classes(after) == c0);
                                assert(imported_properties(after) == p0.insert(local_name_of(s@), imported_property(s@)));
                                o.schema.declare_edge_type(et);
                                assert(schema_declares(o.schema, imported_classes(after), imported_properties(after)));
                            }
                        },
                        _ => {},
                    }
                } else if str_eq(&t.predicate, RDFS_SUBCLASS_OF) {
                    match &t.object {
                        Object::Iri(sup_iri) => {
                            let sub_name = local_name(s);
                            let sup_name = local_name(sup_iri);
                            let ghost n = local_name_of(s@);
                            let ghost sup = local_name_of(sup_iri@);
                            let mut existing = match o.schema.node_type(&sub_name) {
                                Some(nt) => nt.duplicate(),
                                None => {
                                    let fresh = NodeType::new(sub_name.clone()).with_iri(s.clone());
                                    assert(fresh@ =~= imported_class(s@)) by {
                                        assert(fresh@.supertypes =~= Seq::<Seq<char>>::empty());
                                        assert(fresh@.properties =~= Seq::<PropertyTypeView>::empty());
                                    }
                                    fresh
                                },
                            };
                            let ghost cur = if c0.dom().contains(n) {
                                c0[n]
                            } else {
                                imported_class(s@)
                            };
                            assert(existing@ == cur);
                            if !contains_string(&existing.supertypes, &sup_name) {
                                existing = existing.with_supertype(sup_name);
                                assert(existing@ =~= NodeTypeView { supertypes: cur.supertypes.push(sup), ..cur });
                            }
                            assert(existing.name@ == n);
                            assert(imported_classes(after) == c0.insert(
                                n,
                                if cur.supertypes.contains(sup) {
                                    cur
                                } else {
                                    NodeTypeView { supertypes: cur.supertypes.push(sup), ..cur }
                                },
                            ));
                            assert(imported_properties(after) == p0);
                            o.schema.declare_node_type(existing);
                            assert(schema_declares(o.schema, imported_classes(after), imported_properties(after)));
                        },
                        _ => {},
                    }
                }
            },
            Subject::Blank(_) => {},
        }
        assert(schema_declares(o.schema, imported_classes(after), imported_properties(after)));
        i = i + 1;
    }
    assert(tv.take(i as int) =~= tv);
    Ok(o)
}

fn str_eq(a: &String, b: &str) -> (r: bool)
    ensures
        r == (a@ == b@),
{
    let bs = String::from_str(b);
    *a == bs
}


/// The triples of a list of axioms, axiom by axiom.
proof fn lemma_axioms_triples(axs: Seq<Axiom>, ob: Seq<Namespace>)
    ensures
        axioms_triples(axs, ob).len() == axs.len(),
        forall|j: int| 0 <= j < axs.len() ==> #[trigger] axioms_triples(axs, ob)[j] == axiom_triple(axs[j].kind@, ob),
    decreases axs.len(),
{
    if axs.len() > 0 {
        lemma_axioms_triples(axs.drop_last(), ob);
        assert forall|j: int| 0 <= j < axs.len() implies #[trigger] axioms_triples(axs, ob)[j] == axiom_triple(axs[j].kind@, ob) by {
            if j < axs.len() - 1 {
                assert(axs.drop_last()[j] == axs[j]);
            }
        }
    }
}

/// Every axiom of an ontology appears among its triples with its roles in
/// place: `SubClassOf(sub, sup)` as `<sub> rdfs:subClassOf <sup>` (the
/// subclass is the subject), `Domain(p, c)` and `Range(p, c)` with the
/// property as subject and the class as object, `InverseOf(a, b)`,
/// `EquivalentClass(a, b)` and `DisjointWith(a, b)` with `a` as subject and
/// `b` as object, and each property characteristic as `<p> rdf:type` its
/// OWL class; every name resolved to its IRI.
pub proof fn law_axioms_project(o: Ontology, i: int)
    requires
        0 <= i < o.axioms@.len(),
    ensures
        ({
            let ob = o.vocabulary.bindings@;
            let has = |s: Seq<char>, p: Seq<char>, t: Seq<char>|
                rdf_of(o).contains(TripleView { subject: SubjectView::Iri(s), predicate: p, object: ObjectView::Iri(t) });
            match o.axioms@[i].kind@ {
                KindView::SubClassOf(sub, sup) => has(iri_for(sub, ob), RDFS_SUBCLASS_OF@, iri_for(sup, ob)),
                KindView::EquivalentClass(a, b) => has(iri_for(a, ob), OWL_EQUIVALENT_CLASS@, iri_for(b, ob)),
                KindView::DisjointWith(a, b) => has(iri_for(a, ob), OWL_DISJOINT_WITH@, iri_for(b, ob)),
                KindView::Domain(p, c) => has(iri_for(p, ob), RDFS_DOMAIN@, iri_for(c, ob)),
                KindView::Range(p, c) => has(iri_for(p, ob), RDFS_RANGE@, iri_for(c, ob)),
                KindView::Functional(p) => has(iri_for(p, ob), RDF_TYPE@, OWL_FUNCTIONAL_PROPERTY@),
                KindView::InverseFunctional(p) => has(iri_for(p, ob), RDF_TYPE@, OWL_INVERSE_FUNCTIONAL_PROPERTY@),
                KindView::InverseOf(a, b) => has(iri_for(a, ob), OWL_INVERSE_OF@, iri_for(b, ob)),
                KindView::Symmetric(p) => has(iri_for(p, ob), RDF_TYPE@, OWL_SYMMETRIC_PROPERTY@),
                KindView::Transitive(p) => has(iri_for(p, ob), RDF_TYPE@, OWL_TRANSITIVE_PROPERTY@),
            }
        }),
{
    let ob = o.vocabulary.bindings@;
    lemma_axioms_triples(o.axioms@, ob);
    let pre = schema_triples(o.schema, ob) + nodes_triples(isort(o.nodes@, node_after()), o.schema.node_types@, ob)
        + edges_triples(o.edges@, o.nodes@, o.schema.edge_types@, ob);
    let ax = axioms_triples(o.axioms@, ob);
    assert(rdf_of(o) == pre + ax);
    assert(rdf_of(o)[pre.len() + i] == axiom_triple(o.axioms@[i].kind@, ob));
}


/// Each edge whose source node is present has its triple among the edge
/// triples.
proof fn lemma_edges_triples_has(es: Seq<Edge>, nodes: Seq<Node>, ets: Seq<EdgeType>, ob: Seq<Namespace>, i: int)
    requires
        0 <= i < es.len(),
        node_by_id(nodes, es[i].source) is Some,
    ensures
        edges_triples(es, nodes, ets, ob).contains(
            TripleView {
                subject: subject_of(node_by_id(nodes, es[i].source)->Some_0),
                predicate: edge_predicate(ets, es[i].label@, ob),
                object: object_of(nodes, es[i].target),
            },
        ),
    decreases es.len(),
{
    let d = es.drop_last();
    let rest = edges_triples(d, nodes, ets, ob);
    let all = edges_triples(es, nodes, ets, ob);
    let t = TripleView {
        subject: subject_of(node_by_id(nodes, es[i].source)->Some_0),
        predicate: edge_predicate(ets, es[i].label@, ob),
        object: object_of(nodes, es[i].target),
    };
    if i == es.len() - 1 {
        assert(all == rest.push(t));
        assert(all[rest.len() as int] == t);
    } else {
        assert(d[i] == es[i]);
        lemma_edges_triples_has(d, nodes, ets, ob, i);
        let k = choose|k: int| 0 <= k < rest.len() && rest[k] == t;
        assert(all[k] == t);
    }
}

/// Every edge keeps its direction in RDF: an edge from a present node
/// `a` to `b` appears as a triple whose subject is `a` (its IRI, or the
/// blank node of its identifier) and whose object is `b`, with the edge
/// label's predicate between them.
pub proof fn law_edges_project(o: Ontology, i: int)
    requires
        0 <= i < o.edges@.len(),
        node_by_id(o.nodes@, o.edges@[i].source) is Some,
    ensures
        ({
            let e = o.edges@[i];
            let src = node_by_id(o.nodes@, e.source)->Some_0;
            &&& src.id == e.source
            &&& rdf_of(o).contains(
                TripleView {
                    subject: subject_of(src),
                    predicate: edge_predicate(o.schema.edge_types@, e.label@, o.vocabulary.bindings@),
                    object: object_of(o.nodes@, e.target),
                },
            )
        }),
{
    let ob = o.vocabulary.bindings@;
    let e = o.edges@[i];
    let q = choose|q: int| first_id_at(o.nodes@, e.source, q);
    assert(first_id_at(o.nodes@, e.source, q));
    lemma_edges_triples_has(o.edges@, o.nodes@, o.schema.edge_types@, ob, i);
    let pre = schema_triples(o.schema, ob) + nodes_triples(isort(o.nodes@, node_after()), o.schema.node_types@, ob);
    let et = edges_triples(o.edges@, o.nodes@, o.schema.edge_types@, ob);
    let ax = axioms_triples(o.axioms@, ob);
    assert(rdf_of(o) == pre + et + ax);
    let t = TripleView {
        subject: subject_of(node_by_id(o.nodes@, e.source)->Some_0),
        predicate: edge_predicate(o.schema.edge_types@, e.label@, ob),
        object: object_of(o.nodes@, e.target),
    };
    let k = choose|k: int| 0 <= k < et.len() && et[k] == t;
    assert(rdf_of(o)[pre.len() + k] == t);
}


/// `subj pred <name>` for each listed name is among the named triples.
proof fn lemma_named_triples_has(subj: Seq<char>, pred: Seq<char>, names: Seq<Seq<char>>, ob: Seq<Namespace>, j: int)
    requires
        0 <= j < names.len(),
    ensures
        named_triples(subj, pred, names, ob).contains(
            TripleView { subject: SubjectView::Iri(subj), predicate: pred, object: ObjectView::Iri(iri_for(names[j], ob)) },
        ),
    decreases names.len(),
{
    let d = names.drop_last();
    let rest = named_triples(subj, pred, d, ob);
    let all = named_triples(subj, pred, names, ob);
    if j == names.len() - 1 {
        assert(all[rest.len() as int] == iri3(subj, pred, iri_for(names.last(), ob)));
    } else {
        assert(d[j] == names[j]);
        lemma_named_triples_has(subj, pred, d, ob, j);
        let k = choose|k: int| 0 <= k < rest.len() && rest[k] == TripleView {
            subject: SubjectView::Iri(subj),
            predicate: pred,
            object: ObjectView::Iri(iri_for(names[j], ob)),
        };
        assert(all[k] == rest[k]);
    }
}

/// The triples of each listed node type are among those of the list.
proof fn lemma_node_types_triples_has(ts: Seq<NodeType>, ob: Seq<Namespace>, m: int, t: TripleView)
    requires
        0 <= m < ts.len(),
        node_type_triples(ts[m]@, ob).contains(t),
    ensures
        node_types_triples(ts, ob).contains(t),
    decreases ts.len(),
{
    let d = ts.drop_last();
    let rest = node_types_triples(d, ob);
    let mine = node_type_triples(ts.last()@, ob);
    assert(node_types_triples(ts, ob) == rest + mine);
    if m == ts.len() - 1 {
        let k = choose|k: int| 0 <= k < mine.len() && mine[k] == t;
        assert((rest + mine)[rest.len() + k] == t);
    } else {
        assert(d[m] == ts[m]);
        lemma_node_types_triples_has(d, ob, m, t);
        let k = choose|k: int| 0 <= k < rest.len() && rest[k] == t;
        assert((rest + mine)[k] == t);
    }
}

/// The triples of each listed edge type are among those of the list.
proof fn lemma_edge_types_triples_has(ts: Seq<EdgeType>, ob: Seq<Namespace>, m: int, t: TripleView)
    requires
        0 <= m < ts.len(),
        edge_type_triples(ts[m]@, ob).contains(t),
    ensures
        edge_types_triples(ts, ob).contains(t),
    decreases ts.len(),
{
    let d = ts.drop_last();
    let rest = edge_types_triples(d, ob);
    let mine = edge_type_triples(ts.last()@, ob);
    assert(edge_types_triples(ts, ob) == rest + mine);
    if m == ts.len() - 1 {
        let k = choose|k: int| 0 <= k < mine.len() && mine[k] == t;
        assert((rest + mine)[rest.len() + k] == t);
    } else {
        assert(d[m] == ts[m]);
        lemma_edge_types_triples_has(d, ob, m, t);
        let k = choose|k: int| 0 <= k < rest.len() && rest[k] == t;
        assert((rest + mine)[k] == t);
    }
}

/// A node type's superclasses keep their direction in RDF: for each
/// supertype `S` of a declared class `C`, the triples hold
/// `<C> rdfs:subClassOf <S>` (the subclass is the subject).
pub proof fn law_supertypes_project(o: Ontology, i: int, j: int)
    requires
        0 <= i < o.schema.node_types@.len(),
        0 <= j < o.schema.node_types@[i]@.supertypes.len(),
    ensures
        ({
            let ob = o.vocabulary.bindings@;
            let t = o.schema.node_types@[i]@;
            rdf_of(o).contains(
                TripleView {
                    subject: SubjectView::Iri(class_iri(t, ob)),
                    predicate: RDFS_SUBCLASS_OF@,
                    object: ObjectView::Iri(iri_for(t.supertypes[j], ob)),
                },
            )
        }),
{
    let ob = o.vocabulary.bindings@;
    let nt = o.schema.node_types@[i];
    let t = nt@;
    let c = class_iri(t, ob);
    let tr = TripleView { subject: SubjectView::Iri(c), predicate: RDFS_SUBCLASS_OF@, object: ObjectView::Iri(iri_for(t.supertypes[j], ob)) };
    lemma_named_triples_has(c, RDFS_SUBCLASS_OF@, t.supertypes, ob, j);
    let named = named_triples(c, RDFS_SUBCLASS_OF@, t.supertypes, ob);
    let k = choose|k: int| 0 <= k < named.len() && named[k] == tr;
    let all = node_type_triples(t, ob);
    assert(all == seq![iri3(c, RDF_TYPE@, OWL_CLASS@)] + named + datatype_property_triples(c, t.properties, ob));
    assert(all[1 + k] == tr);
    let sorted = isort(o.schema.node_types@, node_type_after());
    lemma_isort_contains(o.schema.node_types@, node_type_after());
    assert(sorted.contains(o.schema.node_types@[i]));
    let m = choose|m: int| 0 <= m < sorted.len() && sorted[m] == nt;
    lemma_node_types_triples_has(sorted, ob, m, tr);
    let nts = node_types_triples(sorted, ob);
    let q = choose|q: int| 0 <= q < nts.len() && nts[q] == tr;
    assert(rdf_of(o)[q] == tr) by {
        assert(schema_triples(o.schema, ob)[q] == tr);
    }
}

/// An edge type's domains, ranges and inverse keep their direction in
/// RDF: for a declared property `P`, each domain `D` gives
/// `<P> rdfs:domain <D>`, each range `R` gives `<P> rdfs:range <R>`, and a
/// declared inverse `Q` gives `<P> owl:inverseOf <Q>`.
pub proof fn law_edge_type_project(o: Ontology, i: int)
    requires
        0 <= i < o.schema.edge_types@.len(),
    ensures
        ({
            let ob = o.vocabulary.bindings@;
            let t = o.schema.edge_types@[i]@;
            let p = predicate_iri(t, ob);
            &&& forall|j: int| 0 <= j < t.domain.len() ==> rdf_of(o).contains(
                TripleView { subject: SubjectView::Iri(p), predicate: RDFS_DOMAIN@, object: ObjectView::Iri(iri_for(#[trigger] t.domain[j], ob)) },
            )
            &&& forall|j: int| 0 <= j < t.range.len() ==> rdf_of(o).contains(
                TripleView { subject: SubjectView::Iri(p), predicate: RDFS_RANGE@, object: ObjectView::Iri(iri_for(#[trigger] t.range[j], ob)) },
            )
            &&& (t.inverse_of matches Some(q) ==> rdf_of(o).contains(
                TripleView { subject: SubjectView::Iri(p), predicate: OWL_INVERSE_OF@, object: ObjectView::Iri(iri_for(q, ob)) },
            ))
        }),
{
    let ob = o.vocabulary.bindings@;
    let et = o.schema.edge_types@[i];
    let t = et@;
    let p = predicate_iri(t, ob);
    let sorted = isort(o.schema.edge_types@, edge_type_after());
    lemma_isort_contains(o.schema.edge_types@, edge_type_after());
    assert(sorted.contains(o.schema.edge_types@[i]));
    let m = choose|m: int| 0 <= m < sorted.len() && sorted[m] == et;
    let a = seq![iri3(p, RDF_TYPE@, OWL_OBJECT_PROPERTY@)];
    let b: Seq<TripleView> = if t.functional {
        seq![iri3(p, RDF_TYPE@, OWL_FUNCTIONAL_PROPERTY@)]
    } else {
        seq![]
    };
    let c: Seq<TripleView> = match t.inverse_of {
        Some(inv) => seq![iri3(p, OWL_INVERSE_OF@, iri_for(inv, ob))],
        None => seq![],
    };
    let dn = named_triples(p, RDFS_DOMAIN@, t.domain, ob);
    let rn = named_triples(p, RDFS_RANGE@, t.range, ob);
    let all = edge_type_triples(t, ob);
    assert(all == a + b + c + dn + rn);
    let nodes_part = node_types_triples(isort(o.schema.node_types@, node_type_after()), ob);
    let ets = edge_types_triples(sorted, ob);
    assert forall|tr: TripleView| #[trigger] all.contains(tr) implies rdf_of(o).contains(tr) by {
        lemma_edge_types_triples_has(sorted, ob, m, tr);
        let q = choose|q: int| 0 <= q < ets.len() && ets[q] == tr;
        assert(schema_triples(o.schema, ob) == nodes_part + ets);
        assert(rdf_of(o)[nodes_part.len() + q] == tr);
    }
    assert forall|j: int| 0 <= j < t.domain.len() implies rdf_of(o).contains(
        TripleView { subject: SubjectView::Iri(p), predicate: RDFS_DOMAIN@, object: ObjectView::Iri(iri_for(#[trigger] t.domain[j], ob)) },
    ) by {
        lemma_named_triples_has(p, RDFS_DOMAIN@, t.domain, ob, j);
        let tr = TripleView { subject: SubjectView::Iri(p), predicate: RDFS_DOMAIN@, object: ObjectView::Iri(iri_for(t.domain[j], ob)) };
        let k = choose|k: int| 0 <= k < dn.len() && dn[k] == tr;
        assert(all[a.len() + b.len() + c.len() + k] == tr);
        assert(all.contains(tr));
    }
    assert forall|j: int| 0 <= j < t.range.len() implies rdf_of(o).contains(
        TripleView { subject: SubjectView::Iri(p), predicate: RDFS_RANGE@, object: ObjectView::Iri(iri_for(#[trigger] t.range[j], ob)) },
    ) by {
        lemma_named_triples_has(p, RDFS_RANGE@, t.range, ob, j);
        let tr = TripleView { subject: SubjectView::Iri(p), predicate: RDFS_RANGE@, object: ObjectView::Iri(iri_for(t.range[j], ob)) };
        let k = choose|k: int| 0 <= k < rn.len() && rn[k] == tr;
        assert(all[a.len() + b.len() + c.len() + dn.len() + k] == tr);
        assert(all.contains(tr));
    }
    if let Some(q) = t.inverse_of {
        assert(all[(a.len() + b.len()) as int] == iri3(p, OWL_INVERSE_OF@, iri_for(q, ob)));
        assert(all.contains(iri3(p, OWL_INVERSE_OF@, iri_for(q, ob))));
    }
}


/// `subj rdf:type <class>` for each listed type is among the type triples.
proof fn lemma_type_triples_has(subj: SubjectView, types: Seq<String>, nts: Seq<NodeType>, ob: Seq<Namespace>, j: int)
    requires
        0 <= j < types.len(),
    ensures
        type_triples(subj, types, nts, ob).contains(
            TripleView { subject: subj, predicate: RDF_TYPE@, object: ObjectView::Iri(type_iri(nts, types[j]@, ob)) },
        ),
    decreases types.len(),
{
    let d = types.drop_last();
    let rest = type_triples(subj, d, nts, ob);
    let all = type_triples(subj, types, nts, ob);
    let tr = TripleView { subject: subj, predicate: RDF_TYPE@, object: ObjectView::Iri(type_iri(nts, types[j]@, ob)) };
    if j == types.len() - 1 {
        assert(all[rest.len() as int] == tr);
    } else {
        assert(d[j] == types[j]);
        lemma_type_triples_has(subj, d, nts, ob, j);
        let k = choose|k: int| 0 <= k < rest.len() && rest[k] == tr;
        assert(all[k] == tr);
    }
}

/// The triples of each listed node are among those of the list.
proof fn lemma_nodes_triples_has(ns: Seq<Node>, nts: Seq<NodeType>, ob: Seq<Namespace>, m: int, t: TripleView)
    requires
        0 <= m < ns.len(),
        node_triples(ns[m], nts, ob).contains(t),
    ensures
        nodes_triples(ns, nts, ob).contains(t),
    decreases ns.len(),
{
    let d = ns.drop_last();
    let rest = nodes_triples(d, nts, ob);
    let mine = node_triples(ns.last(), nts, ob);
    assert(nodes_triples(ns, nts, ob) == rest + mine);
    if m == ns.len() - 1 {
        let k = choose|k: int| 0 <= k < mine.len() && mine[k] == t;
        assert((rest + mine)[rest.len() + k] == t);
    } else {
        assert(d[m] == ns[m]);
        lemma_nodes_triples_has(d, nts, ob, m, t);
        let k = choose|k: int| 0 <= k < rest.len() && rest[k] == t;
        assert((rest + mine)[k] == t);
    }
}

/// Every node is typed in RDF: for each type name `T` of a node, the
/// triples hold `<node> rdf:type <T's class>`, the node (its IRI, or the
/// blank node of its identifier) as subject.
pub proof fn law_node_types_project(o: Ontology, i: int, j: int)
    requires
        0 <= i < o.nodes@.len(),
        0 <= j < o.nodes@[i].types@.len(),
    ensures
        rdf_of(o).contains(
            TripleView {
                subject: subject_of(o.nodes@[i]),
                predicate: RDF_TYPE@,
                object: ObjectView::Iri(type_iri(o.schema.node_types@, o.nodes@[i].types@[j]@, o.vocabulary.bindings@)),
            },
        ),
{
    let ob = o.vocabulary.bindings@;
    let n = o.nodes@[i];
    let nts = o.schema.node_types@;
    let tr = TripleView { subject: subject_of(n), predicate: RDF_TYPE@, object: ObjectView::Iri(type_iri(nts, n.types@[j]@, ob)) };
    lemma_type_triples_has(subject_of(n), n.types@, nts, ob, j);
    let tt = type_triples(subject_of(n), n.types@, nts, ob);
    let k = choose|k: int| 0 <= k < tt.len() && tt[k] == tr;
    let mine = node_triples(n, nts, ob);
    assert(mine[k] == tr);
    let sorted = isort(o.nodes@, node_after());
    lemma_isort_contains(o.nodes@, node_after());
    assert(sorted.contains(o.nodes@[i]));
    let m = choose|m: int| 0 <= m < sorted.len() && sorted[m] == n;
    lemma_nodes_triples_has(sorted, nts, ob, m, tr);
    let st = schema_triples(o.schema, ob);
    let nt = nodes_triples(sorted, nts, ob);
    let q = choose|q: int| 0 <= q < nt.len() && nt[q] == tr;
    assert(rdf_of(o)[st.len() + q] == tr);
}

} // verus!
