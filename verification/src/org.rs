//! Reference vocabulary for organizational ontologies.
//!
//! The W3C Org Ontology core types (`Organization`, `FormalOrganization`,
//! `OrganizationalUnit`, `Membership`, `Role`, `Post`, `Site`), FOAF's
//! `Person`, the Org relations between them, and the schema.org
//! `Organization` projection, ready to be merged into an [`Ontology`].
use vstd::prelude::*;

use crate::keyed::{keys_distinct, lemma_set_all_step, lemma_set_all_twice, set_all};
use crate::model::{axiom_kinds, axiom_shape, axiom_upserted, axioms_keyed, axioms_view, lemma_axiom_upserted_view, ProvenanceId, lemma_axiom_upserted_len, lemma_axiom_upserted_keyed, lemma_axiom_upserted_kinds, Axiom, AxiomKind, KindView, Ontology};
use crate::schema::{
    base_in, bindings_view, edge_type_name, edge_types_view, node_type_name, node_types_view, standard_bindings, edge_type_in, node_type_in, standard_binding, Cardinality, Datatype, EdgeType,
    EdgeTypeView, NodeType, NodeTypeView, PropertyType, PropertyTypeView, Vocabulary,
};

verus! {

/// W3C Org Ontology namespace base.
pub const ORG_NS: &'static str = "http://www.w3.org/ns/org#";

/// FOAF namespace base.
pub const FOAF_NS: &'static str = "http://xmlns.com/foaf/0.1/";

/// schema.org namespace base.
pub const SCHEMA_NS: &'static str = "http://schema.org/";

/// The IRI of the reference ontology.
pub const REFERENCE_IRI: &'static str = "https://atomr.dev/ontology/org/v1";

/// `base` followed by `name`.
fn iri(base: &str, name: &str) -> (r: String)
    ensures
        r@ == base@ + name@,
{
    String::from_str(base).concat(name)
}

/// The `name` property every labelled reference type carries.
pub open spec fn label_property_view() -> PropertyTypeView {
    PropertyTypeView {
        name: "name"@,
        datatype: Datatype::String,
        cardinality: Cardinality { min: 1, max: Some(1u32) },
        iri: Some("http://www.w3.org/2000/01/rdf-schema#label"@),
        description: Some("Display name"@),
    }
}

fn label_property() -> (r: PropertyType)
    ensures
        r@ == label_property_view(),
{
    PropertyType {
        name: String::from_str("name"),
        datatype: Datatype::String,
        cardinality: Cardinality::one(),
        iri: Some(String::from_str("http://www.w3.org/2000/01/rdf-schema#label")),
        description: Some(String::from_str("Display name")),
    }
}

/// A node type of the reference vocabulary.
pub open spec fn ref_node(
    name: Seq<char>,
    iri: Seq<char>,
    supertypes: Seq<Seq<char>>,
    labelled: bool,
    description: Seq<char>,
) -> NodeTypeView {
    NodeTypeView {
        name,
        iri: Some(iri),
        supertypes,
        properties: if labelled { seq![label_property_view()] } else { seq![] },
        description: Some(description),
    }
}

/// The node types the reference vocabulary declares, by name.
pub open spec fn reference_node_type(n: Seq<char>) -> Option<NodeTypeView> {
    if n == "Organization"@ {
        Some(ref_node(n, ORG_NS@ + n, seq![], true,
            "A collection of people organized for some purpose (W3C Org)."@))
    } else if n == "FormalOrganization"@ {
        Some(ref_node(n, ORG_NS@ + n, seq!["Organization"@], false,
            "An organization recognized in the world at large, e.g., a corporation, government."@))
    } else if n == "OrganizationalUnit"@ {
        Some(ref_node(n, ORG_NS@ + n, seq!["Organization"@], false,
            "A unit of an organization, e.g., a department or division."@))
    } else if n == "Person"@ {
        Some(ref_node(n, FOAF_NS@ + n, seq![], true, "A natural person."@))
    } else if n == "Role"@ {
        Some(ref_node(n, ORG_NS@ + n, seq![], false, "A role that an agent may play."@))
    } else if n == "Post"@ {
        Some(ref_node(n, ORG_NS@ + n, seq![], false,
            "A position that may be held by a single agent."@))
    } else if n == "Site"@ {
        Some(ref_node(n, ORG_NS@ + n, seq![], false, "A site that an organization occupies."@))
    } else if n == "Membership"@ {
        Some(ref_node(n, ORG_NS@ + n, seq![], false,
            "Indirect relation between an agent and an organization."@))
    } else {
        None
    }
}

/// An edge type of the reference vocabulary.
pub open spec fn ref_edge(
    name: Seq<char>,
    domain: Seq<Seq<char>>,
    range: Seq<Seq<char>>,
    inverse_of: Option<Seq<char>>,
    description: Option<Seq<char>>,
) -> EdgeTypeView {
    EdgeTypeView {
        name,
        iri: Some(ORG_NS@ + name),
        domain,
        range,
        functional: false,
        inverse_of,
        properties: seq![],
        cardinality: Cardinality { min: 0, max: None },
        description,
    }
}

/// The edge types the reference vocabulary declares, by name.
pub open spec fn reference_edge_type(n: Seq<char>) -> Option<EdgeTypeView> {
    if n == "memberOf"@ {
        Some(ref_edge(n, seq!["Person"@, "Organization"@], seq!["Organization"@],
            Some("hasMember"@), Some("Indicates that the agent is a member of the organization."@)))
    } else if n == "hasMember"@ {
        Some(ref_edge(n, seq!["Organization"@], seq!["Person"@, "Organization"@],
            Some("memberOf"@), None))
    } else if n == "subOrganizationOf"@ {
        Some(ref_edge(n, seq!["Organization"@], seq!["Organization"@],
            Some("hasSubOrganization"@), None))
    } else if n == "hasSubOrganization"@ {
        Some(ref_edge(n, seq!["Organization"@], seq!["Organization"@],
            Some("subOrganizationOf"@), None))
    } else if n == "hasMembership"@ {
        Some(ref_edge(n, seq!["Person"@], seq!["Membership"@], None, None))
    } else if n == "organization"@ {
        Some(ref_edge(n, seq!["Membership"@], seq!["Organization"@], None, None))
    } else if n == "role"@ {
        Some(ref_edge(n, seq!["Membership"@], seq!["Role"@], None, None))
    } else if n == "hasSite"@ {
        Some(ref_edge(n, seq!["Organization"@], seq!["Site"@], None, None))
    } else {
        None
    }
}

/// The axioms the reference vocabulary asserts.
pub open spec fn reference_axioms() -> Set<KindView> {
    set![
        KindView::EquivalentClass("Organization"@, "schema:Organization"@),
        KindView::SubClassOf("FormalOrganization"@, "Organization"@),
        KindView::SubClassOf("OrganizationalUnit"@, "Organization"@),
        KindView::InverseOf("memberOf"@, "hasMember"@),
        KindView::InverseOf("subOrganizationOf"@, "hasSubOrganization"@),
        KindView::Transitive("subOrganizationOf"@),
    ]
}

/// The view of an optional node type.
pub open spec fn node_view(t: Option<NodeType>) -> Option<NodeTypeView> {
    match t {
        Some(x) => Some(x@),
        None => None,
    }
}

/// The view of an optional edge type.
pub open spec fn edge_view(t: Option<EdgeType>) -> Option<EdgeTypeView> {
    match t {
        Some(x) => Some(x@),
        None => None,
    }
}

/// One when `found` is nothing, else zero.
pub open spec fn absent<T>(found: Option<T>) -> int {
    if found is Some {
        0
    } else {
        1
    }
}

/// How many reference node types `s` does not declare yet.
pub open spec fn new_node_types(s: Seq<NodeType>) -> int {
    absent(node_type_in(s, "Organization"@)) + absent(node_type_in(s, "FormalOrganization"@))
        + absent(node_type_in(s, "OrganizationalUnit"@)) + absent(node_type_in(s, "Person"@))
        + absent(node_type_in(s, "Role"@)) + absent(node_type_in(s, "Post"@))
        + absent(node_type_in(s, "Site"@)) + absent(node_type_in(s, "Membership"@))
}

/// How many reference edge types `s` does not declare yet.
pub open spec fn new_edge_types(s: Seq<EdgeType>) -> int {
    absent(edge_type_in(s, "memberOf"@)) + absent(edge_type_in(s, "hasMember"@))
        + absent(edge_type_in(s, "subOrganizationOf"@)) + absent(edge_type_in(s, "hasSubOrganization"@))
        + absent(edge_type_in(s, "hasMembership"@)) + absent(edge_type_in(s, "organization"@))
        + absent(edge_type_in(s, "role"@)) + absent(edge_type_in(s, "hasSite"@))
}

/// One when shape `k` is not among `ks`, else zero.
pub open spec fn absent_kind(ks: Set<KindView>, k: KindView) -> int {
    if ks.contains(k) {
        0
    } else {
        1
    }
}

/// How many reference axiom shapes `s` does not hold yet.
pub open spec fn new_axioms(s: Seq<Axiom>) -> int {
    let ks = axiom_kinds(s);
    absent_kind(ks, KindView::EquivalentClass("Organization"@, "schema:Organization"@))
        + absent_kind(ks, KindView::SubClassOf("FormalOrganization"@, "Organization"@))
        + absent_kind(ks, KindView::SubClassOf("OrganizationalUnit"@, "Organization"@))
        + absent_kind(ks, KindView::InverseOf("memberOf"@, "hasMember"@))
        + absent_kind(ks, KindView::InverseOf("subOrganizationOf"@, "hasSubOrganization"@))
        + absent_kind(ks, KindView::Transitive("subOrganizationOf"@))
}

/// The reference node types, in the order they are declared.
pub open spec fn reference_node_views() -> Seq<NodeTypeView> {
    seq![
        reference_node_type("Organization"@).unwrap(),
        reference_node_type("FormalOrganization"@).unwrap(),
        reference_node_type("OrganizationalUnit"@).unwrap(),
        reference_node_type("Person"@).unwrap(),
        reference_node_type("Role"@).unwrap(),
        reference_node_type("Post"@).unwrap(),
        reference_node_type("Site"@).unwrap(),
        reference_node_type("Membership"@).unwrap(),
    ]
}

/// The reference edge types, in the order they are declared.
pub open spec fn reference_edge_views() -> Seq<EdgeTypeView> {
    seq![
        reference_edge_type("memberOf"@).unwrap(),
        reference_edge_type("hasMember"@).unwrap(),
        reference_edge_type("subOrganizationOf"@).unwrap(),
        reference_edge_type("hasSubOrganization"@).unwrap(),
        reference_edge_type("hasMembership"@).unwrap(),
        reference_edge_type("organization"@).unwrap(),
        reference_edge_type("role"@).unwrap(),
        reference_edge_type("hasSite"@).unwrap(),
    ]
}

/// The reference axioms, in the order they are asserted, each with no
/// provenance.
pub open spec fn reference_axiom_views() -> Seq<(KindView, Option<ProvenanceId>)> {
    seq![
        (KindView::EquivalentClass("Organization"@, "schema:Organization"@), None),
        (KindView::SubClassOf("FormalOrganization"@, "Organization"@), None),
        (KindView::SubClassOf("OrganizationalUnit"@, "Organization"@), None),
        (KindView::InverseOf("memberOf"@, "hasMember"@), None),
        (KindView::InverseOf("subOrganizationOf"@, "hasSubOrganization"@), None),
        (KindView::Transitive("subOrganizationOf"@), None),
    ]
}

/// `after` is `before` with the reference vocabulary merged in: exactly
/// the standard prefix bindings where `before` bound none, every reference
/// node and edge type declared in turn (replacing the first same-named
/// one in place, else appended), the reference axioms upserted in turn
/// with no provenance, and nodes, edges and IRI unchanged.
pub open spec fn reference_built(before: Ontology, after: Ontology) -> bool {
    &&& if before.vocabulary.bindings@.len() > 0 {
        after.vocabulary == before.vocabulary
    } else {
        &&& bindings_view(after.vocabulary.bindings@) == standard_bindings()
        &&& after.vocabulary.bindings@.len() >= 1
        &&& forall|p: Seq<char>| #[trigger] base_in(after.vocabulary.bindings@, p) == standard_binding(p)
    }
    &&& forall|n: Seq<char>|
        #[trigger] node_view(node_type_in(after.schema.node_types@, n)) == match reference_node_type(n) {
            Some(v) => Some(v),
            None => node_view(node_type_in(before.schema.node_types@, n)),
        }
    &&& forall|n: Seq<char>|
        #[trigger] edge_view(edge_type_in(after.schema.edge_types@, n)) == match reference_edge_type(n) {
            Some(v) => Some(v),
            None => edge_view(edge_type_in(before.schema.edge_types@, n)),
        }
    &&& after.schema.node_types@.len() == before.schema.node_types@.len() + new_node_types(before.schema.node_types@)
    &&& after.schema.edge_types@.len() == before.schema.edge_types@.len() + new_edge_types(before.schema.edge_types@)
    &&& node_types_view(after.schema.node_types@) == set_all(node_types_view(before.schema.node_types@), node_type_name(), reference_node_views())
    &&& edge_types_view(after.schema.edge_types@) == set_all(edge_types_view(before.schema.edge_types@), edge_type_name(), reference_edge_views())
    &&& axioms_view(after.axioms@) == set_all(axioms_view(before.axioms@), axiom_shape(), reference_axiom_views())
    &&& after.facts().axioms == before.facts().axioms.union(reference_axioms())
    &&& after.axioms@.len() == before.axioms@.len() + new_axioms(before.axioms@)
    &&& (axioms_keyed(before.axioms@) ==> axioms_keyed(after.axioms@))
    &&& after.facts().edges == before.facts().edges
    &&& after.nodes@ == before.nodes@
    &&& after.edges@ == before.edges@
    &&& after.iri == before.iri
}


/// Merge the reference vocabulary into `out`: bind the standard prefixes
/// when `out` binds none, declare the reference node and edge types, and
/// assert the reference axioms. Applying it twice changes nothing more.
#[verifier::rlimit(40)]
pub fn build_reference_vocabulary(out: &mut Ontology)
    ensures
        reference_built(*old(out), *final(out)),
{
    if out.vocabulary.is_empty() {
        out.vocabulary = Vocabulary::with_standard_bindings();
    }
    let ghost s0 = out.schema.node_types@;
    proof {
        reveal_strlit("Organization");
        reveal_strlit("FormalOrganization");
        reveal_strlit("OrganizationalUnit");
        reveal_strlit("Person");
        reveal_strlit("Role");
        reveal_strlit("Post");
        reveal_strlit("Site");
        reveal_strlit("Membership");
        reveal_strlit("memberOf");
        reveal_strlit("hasMember");
        reveal_strlit("subOrganizationOf");
        reveal_strlit("hasSubOrganization");
        reveal_strlit("hasMembership");
        reveal_strlit("organization");
        reveal_strlit("role");
        reveal_strlit("hasSite");
        assert("FormalOrganization"@[0] == 'F' && "OrganizationalUnit"@[0] == 'O');
        assert("Role"@[0] == 'R' && "Post"@[0] == 'P' && "Site"@[0] == 'S');
    }
    let t = NodeType::new(String::from_str("Organization")).with_iri(iri(ORG_NS, "Organization")).with_description(String::from_str("A collection of people organized for some purpose (W3C Org).")).with_property(label_property());
    assert(t@.supertypes =~= reference_node_type("Organization"@).unwrap().supertypes);
    assert(t@.properties =~= reference_node_type("Organization"@).unwrap().properties);
    assert(t@ == reference_node_type("Organization"@).unwrap());
    out.schema.declare_node_type(t);
    let ghost s1 = out.schema.node_types@;
    let t = NodeType::new(String::from_str("FormalOrganization")).with_iri(iri(ORG_NS, "FormalOrganization")).with_supertype(String::from_str("Organization")).with_description(String::from_str("An organization recognized in the world at large, e.g., a corporation, government."));
    assert(t@.supertypes =~= reference_node_type("FormalOrganization"@).unwrap().supertypes);
    assert(t@.properties =~= reference_node_type("FormalOrganization"@).unwrap().properties);
    assert(t@ == reference_node_type("FormalOrganization"@).unwrap());
    out.schema.declare_node_type(t);
    let ghost s2 = out.schema.node_types@;
    let t = NodeType::new(String::from_str("OrganizationalUnit")).with_iri(iri(ORG_NS, "OrganizationalUnit")).with_supertype(String::from_str("Organization")).with_description(String::from_str("A unit of an organization, e.g., a department or division."));
    assert(t@.supertypes =~= reference_node_type("OrganizationalUnit"@).unwrap().supertypes);
    assert(t@.properties =~= reference_node_type("OrganizationalUnit"@).unwrap().properties);
    assert(t@ == reference_node_type("OrganizationalUnit"@).unwrap());
    out.schema.declare_node_type(t);
    let ghost s3 = out.schema.node_types@;
    let t = NodeType::new(String::from_str("Person")).with_iri(iri(FOAF_NS, "Person")).with_description(String::from_str("A natural person.")).with_property(label_property());
    assert(t@.supertypes =~= reference_node_type("Person"@).unwrap().supertypes);
    assert(t@.properties =~= reference_node_type("Person"@).unwrap().properties);
    assert(t@ == reference_node_type("Person"@).unwrap());
    out.schema.declare_node_type(t);
    let ghost s4 = out.schema.node_types@;
    let t = NodeType::new(String::from_str("Role")).with_iri(iri(ORG_NS, "Role")).with_description(String::from_str("A role that an agent may play."));
    assert(t@.supertypes =~= reference_node_type("Role"@).unwrap().supertypes);
    assert(t@.properties =~= reference_node_type("Role"@).unwrap().properties);
    assert(t@ == reference_node_type("Role"@).unwrap());
    out.schema.declare_node_type(t);
    let ghost s5 = out.schema.node_types@;
    let t = NodeType::new(String::from_str("Post")).with_iri(iri(ORG_NS, "Post")).with_description(String::from_str("A position that may be held by a single agent."));
    assert(t@.supertypes =~= reference_node_type("Post"@).unwrap().supertypes);
    assert(t@.properties =~= reference_node_type("Post"@).unwrap().properties);
    assert(t@ == reference_node_type("Post"@).unwrap());
    out.schema.declare_node_type(t);
    let ghost s6 = out.schema.node_types@;
    let t = NodeType::new(String::from_str("Site")).with_iri(iri(ORG_NS, "Site")).with_description(String::from_str("A site that an organization occupies."));
    assert(t@.supertypes =~= reference_node_type("Site"@).unwrap().supertypes);
    assert(t@.properties =~= reference_node_type("Site"@).unwrap().properties);
    assert(t@ == reference_node_type("Site"@).unwrap());
    out.schema.declare_node_type(t);
    let ghost s7 = out.schema.node_types@;
    let t = NodeType::new(String::from_str("Membership")).with_iri(iri(ORG_NS, "Membership")).with_description(String::from_str("Indirect relation between an agent and an organization."));
    assert(t@.supertypes =~= reference_node_type("Membership"@).unwrap().supertypes);
    assert(t@.properties =~= reference_node_type("Membership"@).unwrap().properties);
    assert(t@ == reference_node_type("Membership"@).unwrap());
    out.schema.declare_node_type(t);
    let ghost s8 = out.schema.node_types@;
    let ghost e0 = out.schema.edge_types@;
    let t = EdgeType::new(String::from_str("memberOf")).with_iri(iri(ORG_NS, "memberOf")).with_domain(String::from_str("Person")).with_domain(String::from_str("Organization")).with_range(String::from_str("Organization")).with_inverse(String::from_str("hasMember")).with_description(String::from_str("Indicates that the agent is a member of the organization."));
    assert(t@.domain =~= reference_edge_type("memberOf"@).unwrap().domain);
    assert(t@.range =~= reference_edge_type("memberOf"@).unwrap().range);
    assert(t@.properties =~= reference_edge_type("memberOf"@).unwrap().properties);
    assert(t@ == reference_edge_type("memberOf"@).unwrap());
    out.schema.declare_edge_type(t);
    let ghost e1 = out.schema.edge_types@;
    let t = EdgeType::new(String::from_str("hasMember")).with_iri(iri(ORG_NS, "hasMember")).with_domain(String::from_str("Organization")).with_range(String::from_str("Person")).with_range(String::from_str("Organization")).with_inverse(String::from_str("memberOf"));
    assert(t@.domain =~= reference_edge_type("hasMember"@).unwrap().domain);
    assert(t@.range =~= reference_edge_type("hasMember"@).unwrap().range);
    assert(t@.properties =~= reference_edge_type("hasMember"@).unwrap().properties);
    assert(t@ == reference_edge_type("hasMember"@).unwrap());
    out.schema.declare_edge_type(t);
    let ghost e2 = out.schema.edge_types@;
    let t = EdgeType::new(String::from_str("subOrganizationOf")).with_iri(iri(ORG_NS, "subOrganizationOf")).with_domain(String::from_str("Organization")).with_range(String::from_str("Organization")).with_inverse(String::from_str("hasSubOrganization"));
    assert(t@.domain =~= reference_edge_type("subOrganizationOf"@).unwrap().domain);
    assert(t@.range =~= reference_edge_type("subOrganizationOf"@).unwrap().range);
    assert(t@.properties =~= reference_edge_type("subOrganizationOf"@).unwrap().properties);
    assert(t@ == reference_edge_type("subOrganizationOf"@).unwrap());
    out.schema.declare_edge_type(t);
    let ghost e3 = out.schema.edge_types@;
    let t = EdgeType::new(String::from_str("hasSubOrganization")).with_iri(iri(ORG_NS, "hasSubOrganization")).with_domain(String::from_str("Organization")).with_range(String::from_str("Organization")).with_inverse(String::from_str("subOrganizationOf"));
    assert(t@.domain =~= reference_edge_type("hasSubOrganization"@).unwrap().domain);
    assert(t@.range =~= reference_edge_type("hasSubOrganization"@).unwrap().range);
    assert(t@.properties =~= reference_edge_type("hasSubOrganization"@).unwrap().properties);
    assert(t@ == reference_edge_type("hasSubOrganization"@).unwrap());
    out.schema.declare_edge_type(t);
    let ghost e4 = out.schema.edge_types@;
    let t = EdgeType::new(String::from_str("hasMembership")).with_iri(iri(ORG_NS, "hasMembership")).with_domain(String::from_str("Person")).with_range(String::from_str("Membership"));
    assert(t@.domain =~= reference_edge_type("hasMembership"@).unwrap().domain);
    assert(t@.range =~= reference_edge_type("hasMembership"@).unwrap().range);
    assert(t@.properties =~= reference_edge_type("hasMembership"@).unwrap().properties);
    assert(t@ == reference_edge_type("hasMembership"@).unwrap());
    out.schema.declare_edge_type(t);
    let ghost e5 = out.schema.edge_types@;
    let t = EdgeType::new(String::from_str("organization")).with_iri(iri(ORG_NS, "organization")).with_domain(String::from_str("Membership")).with_range(String::from_str("Organization"));
    assert(t@.domain =~= reference_edge_type("organization"@).unwrap().domain);
    assert(t@.range =~= reference_edge_type("organization"@).unwrap().range);
    assert(t@.properties =~= reference_edge_type("organization"@).unwrap().properties);
    assert(t@ == reference_edge_type("organization"@).unwrap());
    out.schema.declare_edge_type(t);
    let ghost e6 = out.schema.edge_types@;
    let t = EdgeType::new(String::from_str("role")).with_iri(iri(ORG_NS, "role")).with_domain(String::from_str("Membership")).with_range(String::from_str("Role"));
    assert(t@.domain =~= reference_edge_type("role"@).unwrap().domain);
    assert(t@.range =~= reference_edge_type("role"@).unwrap().range);
    assert(t@.properties =~= reference_edge_type("role"@).unwrap().properties);
    assert(t@ == reference_edge_type("role"@).unwrap());
    out.schema.declare_edge_type(t);
    let ghost e7 = out.schema.edge_types@;
    let t = EdgeType::new(String::from_str("hasSite")).with_iri(iri(ORG_NS, "hasSite")).with_domain(String::from_str("Organization")).with_range(String::from_str("Site"));
    assert(t@.domain =~= reference_edge_type("hasSite"@).unwrap().domain);
    assert(t@.range =~= reference_edge_type("hasSite"@).unwrap().range);
    assert(t@.properties =~= reference_edge_type("hasSite"@).unwrap().properties);
    assert(t@ == reference_edge_type("hasSite"@).unwrap());
    out.schema.declare_edge_type(t);
    let ghost e8 = out.schema.edge_types@;
    let ghost a0 = out.axioms@;
    let ax = Axiom::new(AxiomKind::EquivalentClass { left: String::from_str("Organization"), right: String::from_str("schema:Organization") });
    proof {
        assert(ax.kind@ == KindView::EquivalentClass("Organization"@, "schema:Organization"@));
        lemma_axiom_upserted_len(out.axioms@, ax);
        assert(axiom_upserted(out.axioms@, ax).len() == out.axioms@.len() + absent_kind(axiom_kinds(out.axioms@), KindView::EquivalentClass("Organization"@, "schema:Organization"@)));
        lemma_axiom_upserted_kinds(out.axioms@, ax);
        lemma_axiom_upserted_view(out.axioms@, ax);
        if axioms_keyed(out.axioms@) {
            lemma_axiom_upserted_keyed(out.axioms@, ax);
        }
    }
    out.upsert_axiom(ax);
    let ghost a1 = out.axioms@;
    let ax = Axiom::new(AxiomKind::SubClassOf { sub: String::from_str("FormalOrganization"), sup: String::from_str("Organization") });
    proof {
        assert(ax.kind@ == KindView::SubClassOf("FormalOrganization"@, "Organization"@));
        lemma_axiom_upserted_len(out.axioms@, ax);
        assert(axiom_upserted(out.axioms@, ax).len() == out.axioms@.len() + absent_kind(axiom_kinds(out.axioms@), KindView::SubClassOf("FormalOrganization"@, "Organization"@)));
        lemma_axiom_upserted_kinds(out.axioms@, ax);
        lemma_axiom_upserted_view(out.axioms@, ax);
        if axioms_keyed(out.axioms@) {
            lemma_axiom_upserted_keyed(out.axioms@, ax);
        }
    }
    out.upsert_axiom(ax);
    let ghost a2 = out.axioms@;
    let ax = Axiom::new(AxiomKind::SubClassOf { sub: String::from_str("OrganizationalUnit"), sup: String::from_str("Organization") });
    proof {
        assert(ax.kind@ == KindView::SubClassOf("OrganizationalUnit"@, "Organization"@));
        lemma_axiom_upserted_len(out.axioms@, ax);
        assert(axiom_upserted(out.axioms@, ax).len() == out.axioms@.len() + absent_kind(axiom_kinds(out.axioms@), KindView::SubClassOf("OrganizationalUnit"@, "Organization"@)));
        lemma_axiom_upserted_kinds(out.axioms@, ax);
        lemma_axiom_upserted_view(out.axioms@, ax);
        if axioms_keyed(out.axioms@) {
            lemma_axiom_upserted_keyed(out.axioms@, ax);
        }
    }
    out.upsert_axiom(ax);
    let ghost a3 = out.axioms@;
    let ax = Axiom::new(AxiomKind::InverseOf { left: String::from_str("memberOf"), right: String::from_str("hasMember") });
    proof {
        assert(ax.kind@ == KindView::InverseOf("memberOf"@, "hasMember"@));
        lemma_axiom_upserted_len(out.axioms@, ax);
        assert(axiom_upserted(out.axioms@, ax).len() == out.axioms@.len() + absent_kind(axiom_kinds(out.axioms@), KindView::InverseOf("memberOf"@, "hasMember"@)));
        lemma_axiom_upserted_kinds(out.axioms@, ax);
        lemma_axiom_upserted_view(out.axioms@, ax);
        if axioms_keyed(out.axioms@) {
            lemma_axiom_upserted_keyed(out.axioms@, ax);
        }
    }
    out.upsert_axiom(ax);
    let ghost a4 = out.axioms@;
    let ax = Axiom::new(AxiomKind::InverseOf { left: String::from_str("subOrganizationOf"), right: String::from_str("hasSubOrganization") });
    proof {
        assert(ax.kind@ == KindView::InverseOf("subOrganizationOf"@, "hasSubOrganization"@));
        lemma_axiom_upserted_len(out.axioms@, ax);
        assert(axiom_upserted(out.axioms@, ax).len() == out.axioms@.len() + absent_kind(axiom_kinds(out.axioms@), KindView::InverseOf("subOrganizationOf"@, "hasSubOrganization"@)));
        lemma_axiom_upserted_kinds(out.axioms@, ax);
        lemma_axiom_upserted_view(out.axioms@, ax);
        if axioms_keyed(out.axioms@) {
            lemma_axiom_upserted_keyed(out.axioms@, ax);
        }
    }
    out.upsert_axiom(ax);
    let ghost a5 = out.axioms@;
    let ax = Axiom::new(AxiomKind::Transitive { property: String::from_str("subOrganizationOf") });
    proof {
        assert(ax.kind@ == KindView::Transitive("subOrganizationOf"@));
        lemma_axiom_upserted_len(out.axioms@, ax);
        assert(axiom_upserted(out.axioms@, ax).len() == out.axioms@.len() + absent_kind(axiom_kinds(out.axioms@), KindView::Transitive("subOrganizationOf"@)));
        lemma_axiom_upserted_kinds(out.axioms@, ax);
        lemma_axiom_upserted_view(out.axioms@, ax);
        if axioms_keyed(out.axioms@) {
            lemma_axiom_upserted_keyed(out.axioms@, ax);
        }
    }
    out.upsert_axiom(ax);
    let ghost a6 = out.axioms@;
    proof {
        assert(s8.len() == s0.len() + new_node_types(s0)) by {
            reveal_strlit("Organization");
            reveal_strlit("FormalOrganization");
            reveal_strlit("OrganizationalUnit");
            reveal_strlit("Person");
            reveal_strlit("Role");
            reveal_strlit("Post");
            reveal_strlit("Site");
            reveal_strlit("Membership");
            assert("FormalOrganization"@[0] == 'F' && "OrganizationalUnit"@[0] == 'O');
            assert("Role"@[0] == 'R' && "Post"@[0] == 'P' && "Site"@[0] == 'S');
            assert(s1.len() == s0.len() + absent(node_type_in(s0, "Organization"@)));
            assert(node_type_in(s1, "FormalOrganization"@) == node_type_in(s0, "FormalOrganization"@));
            assert(s2.len() == s1.len() + absent(node_type_in(s0, "FormalOrganization"@)));
            assert(node_type_in(s1, "OrganizationalUnit"@) == node_type_in(s0, "OrganizationalUnit"@));
            assert(node_type_in(s2, "OrganizationalUnit"@) == node_type_in(s1, "OrganizationalUnit"@));
            assert(s3.len() == s2.len() + absent(node_type_in(s0, "OrganizationalUnit"@)));
            assert(node_type_in(s1, "Person"@) == node_type_in(s0, "Person"@));
            assert(node_type_in(s2, "Person"@) == node_type_in(s1, "Person"@));
            assert(node_type_in(s3, "Person"@) == node_type_in(s2, "Person"@));
            assert(s4.len() == s3.len() + absent(node_type_in(s0, "Person"@)));
            assert(node_type_in(s1, "Role"@) == node_type_in(s0, "Role"@));
            assert(node_type_in(s2, "Role"@) == node_type_in(s1, "Role"@));
            assert(node_type_in(s3, "Role"@) == node_type_in(s2, "Role"@));
            assert(node_type_in(s4, "Role"@) == node_type_in(s3, "Role"@));
            assert(s5.len() == s4.len() + absent(node_type_in(s0, "Role"@)));
            assert(node_type_in(s1, "Post"@) == node_type_in(s0, "Post"@));
            assert(node_type_in(s2, "Post"@) == node_type_in(s1, "Post"@));
            assert(node_type_in(s3, "Post"@) == node_type_in(s2, "Post"@));
            assert(node_type_in(s4, "Post"@) == node_type_in(s3, "Post"@));
            assert(node_type_in(s5, "Post"@) == node_type_in(s4, "Post"@));
            assert(s6.len() == s5.len() + absent(node_type_in(s0, "Post"@)));
            assert(node_type_in(s1, "Site"@) == node_type_in(s0, "Site"@));
            assert(node_type_in(s2, "Site"@) == node_type_in(s1, "Site"@));
            assert(node_type_in(s3, "Site"@) == node_type_in(s2, "Site"@));
            assert(node_type_in(s4, "Site"@) == node_type_in(s3, "Site"@));
            assert(node_type_in(s5, "Site"@) == node_type_in(s4, "Site"@));
            assert(node_type_in(s6, "Site"@) == node_type_in(s5, "Site"@));
            assert(s7.len() == s6.len() + absent(node_type_in(s0, "Site"@)));
            assert(node_type_in(s1, "Membership"@) == node_type_in(s0, "Membership"@));
            assert(node_type_in(s2, "Membership"@) == node_type_in(s1, "Membership"@));
            assert(node_type_in(s3, "Membership"@) == node_type_in(s2, "Membership"@));
            assert(node_type_in(s4, "Membership"@) == node_type_in(s3, "Membership"@));
            assert(node_type_in(s5, "Membership"@) == node_type_in(s4, "Membership"@));
            assert(node_type_in(s6, "Membership"@) == node_type_in(s5, "Membership"@));
            assert(node_type_in(s7, "Membership"@) == node_type_in(s6, "Membership"@));
            assert(s8.len() == s7.len() + absent(node_type_in(s0, "Membership"@)));
        }
        assert(e8.len() == e0.len() + new_edge_types(e0)) by {
            reveal_strlit("memberOf");
            reveal_strlit("hasMember");
            reveal_strlit("subOrganizationOf");
            reveal_strlit("hasSubOrganization");
            reveal_strlit("hasMembership");
            reveal_strlit("organization");
            reveal_strlit("role");
            reveal_strlit("hasSite");
            assert(e1.len() == e0.len() + absent(edge_type_in(e0, "memberOf"@)));
            assert(edge_type_in(e1, "hasMember"@) == edge_type_in(e0, "hasMember"@));
            assert(e2.len() == e1.len() + absent(edge_type_in(e0, "hasMember"@)));
            assert(edge_type_in(e1, "subOrganizationOf"@) == edge_type_in(e0, "subOrganizationOf"@));
            assert(edge_type_in(e2, "subOrganizationOf"@) == edge_type_in(e1, "subOrganizationOf"@));
            assert(e3.len() == e2.len() + absent(edge_type_in(e0, "subOrganizationOf"@)));
            assert(edge_type_in(e1, "hasSubOrganization"@) == edge_type_in(e0, "hasSubOrganization"@));
            assert(edge_type_in(e2, "hasSubOrganization"@) == edge_type_in(e1, "hasSubOrganization"@));
            assert(edge_type_in(e3, "hasSubOrganization"@) == edge_type_in(e2, "hasSubOrganization"@));
            assert(e4.len() == e3.len() + absent(edge_type_in(e0, "hasSubOrganization"@)));
            assert(edge_type_in(e1, "hasMembership"@) == edge_type_in(e0, "hasMembership"@));
            assert(edge_type_in(e2, "hasMembership"@) == edge_type_in(e1, "hasMembership"@));
            assert(edge_type_in(e3, "hasMembership"@) == edge_type_in(e2, "hasMembership"@));
            assert(edge_type_in(e4, "hasMembership"@) == edge_type_in(e3, "hasMembership"@));
            assert(e5.len() == e4.len() + absent(edge_type_in(e0, "hasMembership"@)));
            assert(edge_type_in(e1, "organization"@) == edge_type_in(e0, "organization"@));
            assert(edge_type_in(e2, "organization"@) == edge_type_in(e1, "organization"@));
            assert(edge_type_in(e3, "organization"@) == edge_type_in(e2, "organization"@));
            assert(edge_type_in(e4, "organization"@) == edge_type_in(e3, "organization"@));
            assert(edge_type_in(e5, "organization"@) == edge_type_in(e4, "organization"@));
            assert(e6.len() == e5.len() + absent(edge_type_in(e0, "organization"@)));
            assert(edge_type_in(e1, "role"@) == edge_type_in(e0, "role"@));
            assert(edge_type_in(e2, "role"@) == edge_type_in(e1, "role"@));
            assert(edge_type_in(e3, "role"@) == edge_type_in(e2, "role"@));
            assert(edge_type_in(e4, "role"@) == edge_type_in(e3, "role"@));
            assert(edge_type_in(e5, "role"@) == edge_type_in(e4, "role"@));
            assert(edge_type_in(e6, "role"@) == edge_type_in(e5, "role"@));
            assert(e7.len() == e6.len() + absent(edge_type_in(e0, "role"@)));
            assert(edge_type_in(e1, "hasSite"@) == edge_type_in(e0, "hasSite"@));
            assert(edge_type_in(e2, "hasSite"@) == edge_type_in(e1, "hasSite"@));
            assert(edge_type_in(e3, "hasSite"@) == edge_type_in(e2, "hasSite"@));
            assert(edge_type_in(e4, "hasSite"@) == edge_type_in(e3, "hasSite"@));
            assert(edge_type_in(e5, "hasSite"@) == edge_type_in(e4, "hasSite"@));
            assert(edge_type_in(e6, "hasSite"@) == edge_type_in(e5, "hasSite"@));
            assert(edge_type_in(e7, "hasSite"@) == edge_type_in(e6, "hasSite"@));
            assert(e8.len() == e7.len() + absent(edge_type_in(e0, "hasSite"@)));
        }
        assert(a6.len() == a0.len() + new_axioms(a0)) by {
            reveal_strlit("Organization");
            reveal_strlit("schema:Organization");
            reveal_strlit("FormalOrganization");
            reveal_strlit("OrganizationalUnit");
            reveal_strlit("memberOf");
            reveal_strlit("hasMember");
            reveal_strlit("subOrganizationOf");
            reveal_strlit("hasSubOrganization");
            assert(a1.len() == a0.len() + absent_kind(axiom_kinds(a0), KindView::EquivalentClass("Organization"@, "schema:Organization"@)));
            assert(axiom_kinds(a1).contains(KindView::SubClassOf("FormalOrganization"@, "Organization"@)) == axiom_kinds(a0).contains(KindView::SubClassOf("FormalOrganization"@, "Organization"@)));
            assert(a2.len() == a1.len() + absent_kind(axiom_kinds(a0), KindView::SubClassOf("FormalOrganization"@, "Organization"@)));
            assert(axiom_kinds(a1).contains(KindView::SubClassOf("OrganizationalUnit"@, "Organization"@)) == axiom_kinds(a0).contains(KindView::SubClassOf("OrganizationalUnit"@, "Organization"@)));
            assert(axiom_kinds(a2).contains(KindView::SubClassOf("OrganizationalUnit"@, "Organization"@)) == axiom_kinds(a1).contains(KindView::SubClassOf("OrganizationalUnit"@, "Organization"@)));
            assert(a3.len() == a2.len() + absent_kind(axiom_kinds(a0), KindView::SubClassOf("OrganizationalUnit"@, "Organization"@)));
            assert(axiom_kinds(a1).contains(KindView::InverseOf("memberOf"@, "hasMember"@)) == axiom_kinds(a0).contains(KindView::InverseOf("memberOf"@, "hasMember"@)));
            assert(axiom_kinds(a2).contains(KindView::InverseOf("memberOf"@, "hasMember"@)) == axiom_kinds(a1).contains(KindView::InverseOf("memberOf"@, "hasMember"@)));
            assert(axiom_kinds(a3).contains(KindView::InverseOf("memberOf"@, "hasMember"@)) == axiom_kinds(a2).contains(KindView::InverseOf("memberOf"@, "hasMember"@)));
            assert(a4.len() == a3.len() + absent_kind(axiom_kinds(a0), KindView::InverseOf("memberOf"@, "hasMember"@)));
            assert(axiom_kinds(a1).contains(KindView::InverseOf("subOrganizationOf"@, "hasSubOrganization"@)) == axiom_kinds(a0).contains(KindView::InverseOf("subOrganizationOf"@, "hasSubOrganization"@)));
            assert(axiom_kinds(a2).contains(KindView::InverseOf("subOrganizationOf"@, "hasSubOrganization"@)) == axiom_kinds(a1).contains(KindView::InverseOf("subOrganizationOf"@, "hasSubOrganization"@)));
            assert(axiom_kinds(a3).contains(KindView::InverseOf("subOrganizationOf"@, "hasSubOrganization"@)) == axiom_kinds(a2).contains(KindView::InverseOf("subOrganizationOf"@, "hasSubOrganization"@)));
            assert(axiom_kinds(a4).contains(KindView::InverseOf("subOrganizationOf"@, "hasSubOrganization"@)) == axiom_kinds(a3).contains(KindView::InverseOf("subOrganizationOf"@, "hasSubOrganization"@)));
            assert(a5.len() == a4.len() + absent_kind(axiom_kinds(a0), KindView::InverseOf("subOrganizationOf"@, "hasSubOrganization"@)));
            assert(axiom_kinds(a1).contains(KindView::Transitive("subOrganizationOf"@)) == axiom_kinds(a0).contains(KindView::Transitive("subOrganizationOf"@)));
            assert(axiom_kinds(a2).contains(KindView::Transitive("subOrganizationOf"@)) == axiom_kinds(a1).contains(KindView::Transitive("subOrganizationOf"@)));
            assert(axiom_kinds(a3).contains(KindView::Transitive("subOrganizationOf"@)) == axiom_kinds(a2).contains(KindView::Transitive("subOrganizationOf"@)));
            assert(axiom_kinds(a4).contains(KindView::Transitive("subOrganizationOf"@)) == axiom_kinds(a3).contains(KindView::Transitive("subOrganizationOf"@)));
            assert(axiom_kinds(a5).contains(KindView::Transitive("subOrganizationOf"@)) == axiom_kinds(a4).contains(KindView::Transitive("subOrganizationOf"@)));
            assert(a6.len() == a5.len() + absent_kind(axiom_kinds(a0), KindView::Transitive("subOrganizationOf"@)));
        }
        assert(node_types_view(s8) == set_all(node_types_view(s0), node_type_name(), reference_node_views())) by {
            let r = reference_node_views();
            assert(r.take(0) =~= Seq::<NodeTypeView>::empty());
            lemma_set_all_step(node_types_view(s0), node_type_name(), r, 0);
            assert(node_types_view(s1) == set_all(node_types_view(s0), node_type_name(), r.take(1)));
            lemma_set_all_step(node_types_view(s0), node_type_name(), r, 1);
            assert(node_types_view(s2) == set_all(node_types_view(s0), node_type_name(), r.take(2)));
            lemma_set_all_step(node_types_view(s0), node_type_name(), r, 2);
            assert(node_types_view(s3) == set_all(node_types_view(s0), node_type_name(), r.take(3)));
            lemma_set_all_step(node_types_view(s0), node_type_name(), r, 3);
            assert(node_types_view(s4) == set_all(node_types_view(s0), node_type_name(), r.take(4)));
            lemma_set_all_step(node_types_view(s0), node_type_name(), r, 4);
            assert(node_types_view(s5) == set_all(node_types_view(s0), node_type_name(), r.take(5)));
            lemma_set_all_step(node_types_view(s0), node_type_name(), r, 5);
            assert(node_types_view(s6) == set_all(node_types_view(s0), node_type_name(), r.take(6)));
            lemma_set_all_step(node_types_view(s0), node_type_name(), r, 6);
            assert(node_types_view(s7) == set_all(node_types_view(s0), node_type_name(), r.take(7)));
            lemma_set_all_step(node_types_view(s0), node_type_name(), r, 7);
            assert(node_types_view(s8) == set_all(node_types_view(s0), node_type_name(), r.take(8)));
            assert(r.take(8) =~= r);
        }
        assert(edge_types_view(e8) == set_all(edge_types_view(e0), edge_type_name(), reference_edge_views())) by {
            let r = reference_edge_views();
            assert(r.take(0) =~= Seq::<EdgeTypeView>::empty());
            lemma_set_all_step(edge_types_view(e0), edge_type_name(), r, 0);
            assert(edge_types_view(e1) == set_all(edge_types_view(e0), edge_type_name(), r.take(1)));
            lemma_set_all_step(edge_types_view(e0), edge_type_name(), r, 1);
            assert(edge_types_view(e2) == set_all(edge_types_view(e0), edge_type_name(), r.take(2)));
            lemma_set_all_step(edge_types_view(e0), edge_type_name(), r, 2);
            assert(edge_types_view(e3) == set_all(edge_types_view(e0), edge_type_name(), r.take(3)));
            lemma_set_all_step(edge_types_view(e0), edge_type_name(), r, 3);
            assert(edge_types_view(e4) == set_all(edge_types_view(e0), edge_type_name(), r.take(4)));
            lemma_set_all_step(edge_types_view(e0), edge_type_name(), r, 4);
            assert(edge_types_view(e5) == set_all(edge_types_view(e0), edge_type_name(), r.take(5)));
            lemma_set_all_step(edge_types_view(e0), edge_type_name(), r, 5);
            assert(edge_types_view(e6) == set_all(edge_types_view(e0), edge_type_name(), r.take(6)));
            lemma_set_all_step(edge_types_view(e0), edge_type_name(), r, 6);
            assert(edge_types_view(e7) == set_all(edge_types_view(e0), edge_type_name(), r.take(7)));
            lemma_set_all_step(edge_types_view(e0), edge_type_name(), r, 7);
            assert(edge_types_view(e8) == set_all(edge_types_view(e0), edge_type_name(), r.take(8)));
            assert(r.take(8) =~= r);
        }
        assert(axioms_view(a6) == set_all(axioms_view(a0), axiom_shape(), reference_axiom_views())) by {
            let r = reference_axiom_views();
            assert(r.take(0) =~= Seq::<(KindView, Option<ProvenanceId>)>::empty());
            lemma_set_all_step(axioms_view(a0), axiom_shape(), r, 0);
            assert(axioms_view(a1) == set_all(axioms_view(a0), axiom_shape(), r.take(1)));
            lemma_set_all_step(axioms_view(a0), axiom_shape(), r, 1);
            assert(axioms_view(a2) == set_all(axioms_view(a0), axiom_shape(), r.take(2)));
            lemma_set_all_step(axioms_view(a0), axiom_shape(), r, 2);
            assert(axioms_view(a3) == set_all(axioms_view(a0), axiom_shape(), r.take(3)));
            lemma_set_all_step(axioms_view(a0), axiom_shape(), r, 3);
            assert(axioms_view(a4) == set_all(axioms_view(a0), axiom_shape(), r.take(4)));
            lemma_set_all_step(axioms_view(a0), axiom_shape(), r, 4);
            assert(axioms_view(a5) == set_all(axioms_view(a0), axiom_shape(), r.take(5)));
            lemma_set_all_step(axioms_view(a0), axiom_shape(), r, 5);
            assert(axioms_view(a6) == set_all(axioms_view(a0), axiom_shape(), r.take(6)));
            assert(r.take(6) =~= r);
        }
        assert(axiom_kinds(out.axioms@) =~= axiom_kinds(a0).union(reference_axioms()));
        assert forall|n: Seq<char>| #[trigger] node_view(node_type_in(out.schema.node_types@, n)) == match reference_node_type(n) {
            Some(v) => Some(v),
            None => node_view(node_type_in(s0, n)),
        } by {
            reveal_strlit("Organization");
            reveal_strlit("FormalOrganization");
            reveal_strlit("OrganizationalUnit");
            reveal_strlit("Person");
            reveal_strlit("Role");
            reveal_strlit("Post");
            reveal_strlit("Site");
            reveal_strlit("Membership");
            assert("FormalOrganization"@[0] == 'F' && "OrganizationalUnit"@[0] == 'O');
            assert("Role"@[0] == 'R' && "Post"@[0] == 'P' && "Site"@[0] == 'S');
        }
        assert forall|n: Seq<char>| #[trigger] edge_view(edge_type_in(out.schema.edge_types@, n)) == match reference_edge_type(n) {
            Some(v) => Some(v),
            None => edge_view(edge_type_in(e0, n)),
        } by {
            reveal_strlit("memberOf");
            reveal_strlit("hasMember");
            reveal_strlit("subOrganizationOf");
            reveal_strlit("hasSubOrganization");
            reveal_strlit("hasMembership");
            reveal_strlit("organization");
            reveal_strlit("role");
            reveal_strlit("hasSite");
        }
    }
}

/// A fresh reference ontology: named by [`REFERENCE_IRI`], holding the
/// reference vocabulary and no instances.
pub fn reference_ontology() -> (r: Ontology)
    ensures
        r.iri matches Some(i) && i@ == REFERENCE_IRI@,
        r.nodes@.len() == 0,
        r.edges@.len() == 0,
        forall|p: Seq<char>| #[trigger] base_in(r.vocabulary.bindings@, p) == standard_binding(p),
        forall|n: Seq<char>| #[trigger] node_view(node_type_in(r.schema.node_types@, n)) == reference_node_type(n),
        forall|n: Seq<char>| #[trigger] edge_view(edge_type_in(r.schema.edge_types@, n)) == reference_edge_type(n),
        r.facts().axioms == reference_axioms(),
        r.schema.node_types@.len() == 8,
        r.schema.edge_types@.len() == 8,
        r.axioms@.len() == 6,
        axioms_keyed(r.axioms@),
{
    let mut o = Ontology::with_iri(String::from_str(REFERENCE_IRI));
    let ghost before = o;
    build_reference_vocabulary(&mut o);
    proof {
        assert forall|n: Seq<char>| #[trigger] node_view(node_type_in(o.schema.node_types@, n)) == reference_node_type(n) by {
            assert(node_type_in(before.schema.node_types@, n) is None);
        }
        assert forall|n: Seq<char>| #[trigger] edge_view(edge_type_in(o.schema.edge_types@, n)) == reference_edge_type(n) by {
            assert(edge_type_in(before.schema.edge_types@, n) is None);
        }
        assert(axiom_kinds(before.axioms@) =~= Set::empty());
        assert(o.facts().axioms =~= reference_axioms());
    }
    o
}

/// The reference node types, edge types and axioms each differ in name or
/// shape.
proof fn lemma_reference_keys_distinct()
    ensures
        keys_distinct(reference_node_views(), node_type_name()),
        keys_distinct(reference_edge_views(), edge_type_name()),
        keys_distinct(reference_axiom_views(), axiom_shape()),
{
    reveal_strlit("Organization");
    reveal_strlit("FormalOrganization");
    reveal_strlit("OrganizationalUnit");
    reveal_strlit("Person");
    reveal_strlit("Role");
    reveal_strlit("Post");
    reveal_strlit("Site");
    reveal_strlit("Membership");
    reveal_strlit("memberOf");
    reveal_strlit("hasMember");
    reveal_strlit("subOrganizationOf");
    reveal_strlit("hasSubOrganization");
    reveal_strlit("hasMembership");
    reveal_strlit("organization");
    reveal_strlit("role");
    reveal_strlit("hasSite");
    reveal_strlit("schema:Organization");
    assert("FormalOrganization"@[0] == 'F' && "OrganizationalUnit"@[0] == 'O');
    assert("Role"@[0] == 'R' && "Post"@[0] == 'P' && "Site"@[0] == 'S');
    let rn = reference_node_views();
    assert forall|i: int, j: int| 0 <= i < j < rn.len() implies (node_type_name())(#[trigger] rn[i]) != (node_type_name())(#[trigger] rn[j]) by {
        assert(rn[i].name.len() != rn[j].name.len() || rn[i].name[0] != rn[j].name[0]);
    }
    let re = reference_edge_views();
    assert forall|i: int, j: int| 0 <= i < j < re.len() implies (edge_type_name())(#[trigger] re[i]) != (edge_type_name())(#[trigger] re[j]) by {
        assert(re[i].name.len() != re[j].name.len());
    }
    let ra = reference_axiom_views();
    assert forall|i: int, j: int| 0 <= i < j < ra.len() implies (axiom_shape())(#[trigger] ra[i]) != (axiom_shape())(#[trigger] ra[j]) by {
        if i == 1 && j == 2 {
            assert(ra[1].0->SubClassOf_0 != ra[2].0->SubClassOf_0);
        }
        if i == 3 && j == 4 {
            assert(ra[3].0->InverseOf_0.len() != ra[4].0->InverseOf_0.len());
        }
    }
}

/// Idempotence: merging the reference vocabulary a second time leaves
/// the bindings, the node and edge type lists entry for entry, the axiom
/// list (shapes and provenance), the facts, the nodes, the edges and the
/// IRI as the first merge left them.
pub proof fn law_reference_vocabulary_idempotent(a: Ontology, b: Ontology, c: Ontology)
    requires
        reference_built(a, b),
        reference_built(b, c),
    ensures
        c.vocabulary == b.vocabulary,
        forall|n: Seq<char>|
            #[trigger] node_view(node_type_in(c.schema.node_types@, n)) == node_view(node_type_in(b.schema.node_types@, n)),
        forall|n: Seq<char>|
            #[trigger] edge_view(edge_type_in(c.schema.edge_types@, n)) == edge_view(edge_type_in(b.schema.edge_types@, n)),
        c.facts() == b.facts(),
        node_types_view(c.schema.node_types@) == node_types_view(b.schema.node_types@),
        edge_types_view(c.schema.edge_types@) == edge_types_view(b.schema.edge_types@),
        axioms_view(c.axioms@) == axioms_view(b.axioms@),
        c.nodes@ == b.nodes@,
        c.edges@ == b.edges@,
        c.iri == b.iri,
{
    assert forall|n: Seq<char>| #[trigger] node_view(node_type_in(c.schema.node_types@, n)) == node_view(node_type_in(b.schema.node_types@, n)) by {
        assert(node_view(node_type_in(b.schema.node_types@, n)) == match reference_node_type(n) {
            Some(v) => Some(v),
            None => node_view(node_type_in(a.schema.node_types@, n)),
        });
    }
    assert forall|n: Seq<char>| #[trigger] edge_view(edge_type_in(c.schema.edge_types@, n)) == edge_view(edge_type_in(b.schema.edge_types@, n)) by {
        assert(edge_view(edge_type_in(b.schema.edge_types@, n)) == match reference_edge_type(n) {
            Some(v) => Some(v),
            None => edge_view(edge_type_in(a.schema.edge_types@, n)),
        });
    }
    assert(c.facts().axioms =~= b.facts().axioms);
    assert(c.facts() =~= b.facts());
    lemma_reference_keys_distinct();
    lemma_set_all_twice(node_types_view(a.schema.node_types@), node_type_name(), reference_node_views());
    lemma_set_all_twice(edge_types_view(a.schema.edge_types@), edge_type_name(), reference_edge_views());
    lemma_set_all_twice(axioms_view(a.axioms@), axiom_shape(), reference_axiom_views());
}

} // verus!
