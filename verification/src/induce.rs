//! What ontology induction proposes, and how a proposal becomes part of an
//! ontology: subclass proposals become `SubClassOf` axioms, axiom proposals
//! their axioms, concept clusters candidate node types. (Confidence scores
//! travel beside the proposals, outside this model.)
use vstd::prelude::*;

use crate::model::{Axiom, AxiomKind, KindView, ProvenanceId};
use crate::schema::{NodeType, NodeTypeView};

verus! {

/// A `(sub, sup)` subclass proposal.
#[derive(Clone, Debug)]
pub struct SubclassProposal {
    /// Subclass name (the more specific class).
    pub sub: String,
    /// Superclass name.
    pub sup: String,
}

/// An axiom proposal, one variant per axiom shape.
#[derive(Clone, Debug)]
pub enum AxiomProposal {
    SubClassOf { sub: String, sup: String },
    EquivalentClass { left: String, right: String },
    DisjointWith { left: String, right: String },
    Domain { property: String, class: String },
    Range { property: String, class: String },
    Functional { property: String },
    InverseFunctional { property: String },
    InverseOf { left: String, right: String },
    Symmetric { property: String },
    Transitive { property: String },
}

/// The axiom shape a proposal proposes.
pub open spec fn proposal_kind(p: AxiomProposal) -> KindView {
    match p {
        AxiomProposal::SubClassOf { sub, sup } => KindView::SubClassOf(sub@, sup@),
        AxiomProposal::EquivalentClass { left, right } => KindView::EquivalentClass(left@, right@),
        AxiomProposal::DisjointWith { left, right } => KindView::DisjointWith(left@, right@),
        AxiomProposal::Domain { property, class } => KindView::Domain(property@, class@),
        AxiomProposal::Range { property, class } => KindView::Range(property@, class@),
        AxiomProposal::Functional { property } => KindView::Functional(property@),
        AxiomProposal::InverseFunctional { property } => KindView::InverseFunctional(property@),
        AxiomProposal::InverseOf { left, right } => KindView::InverseOf(left@, right@),
        AxiomProposal::Symmetric { property } => KindView::Symmetric(property@),
        AxiomProposal::Transitive { property } => KindView::Transitive(property@),
    }
}

/// `k` is the axiom `p` proposes, each named role in place: the same
/// shape, with `sub`, `sup`, `left`, `right`, `property` and `class` each
/// carrying the proposal's text of that role.
pub open spec fn keeps_roles(p: AxiomProposal, k: AxiomKind) -> bool {
    match p {
        AxiomProposal::SubClassOf { sub, sup } => k matches AxiomKind::SubClassOf { sub: a, sup: b } && a@ == sub@
            && b@ == sup@,
        AxiomProposal::EquivalentClass { left, right } => k matches AxiomKind::EquivalentClass { left: a, right: b }
            && a@ == left@ && b@ == right@,
        AxiomProposal::DisjointWith { left, right } => k matches AxiomKind::DisjointWith { left: a, right: b } && a@
            == left@ && b@ == right@,
        AxiomProposal::Domain { property, class } => k matches AxiomKind::Domain { property: a, class: b } && a@
            == property@ && b@ == class@,
        AxiomProposal::Range { property, class } => k matches AxiomKind::Range { property: a, class: b } && a@
            == property@ && b@ == class@,
        AxiomProposal::Functional { property } => k matches AxiomKind::Functional { property: a } && a@ == property@,
        AxiomProposal::InverseFunctional { property } => k matches AxiomKind::InverseFunctional { property: a } && a@
            == property@,
        AxiomProposal::InverseOf { left, right } => k matches AxiomKind::InverseOf { left: a, right: b } && a@ == left@
            && b@ == right@,
        AxiomProposal::Symmetric { property } => k matches AxiomKind::Symmetric { property: a } && a@ == property@,
        AxiomProposal::Transitive { property } => k matches AxiomKind::Transitive { property: a } && a@ == property@,
    }
}

/// Promotion keeps every role in place: any axiom whose shape is the one a
/// proposal proposes has the proposal's shape with each role (`sub` and
/// `sup`, `left` and `right`, `property` and `class`) carrying the same
/// text, never two swapped.
pub proof fn law_promotion_keeps_roles(p: AxiomProposal, a: Axiom)
    requires
        a.kind@ == proposal_kind(p),
    ensures
        keeps_roles(p, a.kind),
{
}

impl AxiomProposal {
    /// Promote a proposal to an axiom of the proposed shape, with no
    /// provenance.
    pub fn into_axiom(self) -> (r: Axiom)
        ensures
            r.kind@ == proposal_kind(self),
            keeps_roles(self, r.kind),
            r.provenance is None,
    {
        let kind = match self {
            AxiomProposal::SubClassOf { sub, sup } => AxiomKind::SubClassOf { sub, sup },
            AxiomProposal::EquivalentClass { left, right } => AxiomKind::EquivalentClass { left, right },
            AxiomProposal::DisjointWith { left, right } => AxiomKind::DisjointWith { left, right },
            AxiomProposal::Domain { property, class } => AxiomKind::Domain { property, class },
            AxiomProposal::Range { property, class } => AxiomKind::Range { property, class },
            AxiomProposal::Functional { property } => AxiomKind::Functional { property },
            AxiomProposal::InverseFunctional { property } => AxiomKind::InverseFunctional { property },
            AxiomProposal::InverseOf { left, right } => AxiomKind::InverseOf { left, right },
            AxiomProposal::Symmetric { property } => AxiomKind::Symmetric { property },
            AxiomProposal::Transitive { property } => AxiomKind::Transitive { property },
        };
        Axiom::new(kind)
    }
}

/// Subclass induction over a candidate class list; its promotion step.
pub struct TaxonomyInducer {}

impl TaxonomyInducer {
    /// One `SubClassOf(sub, sup)` axiom per proposal, in order, each
    /// carrying `provenance`.
    pub fn into_axioms(proposals: &Vec<SubclassProposal>, provenance: Option<ProvenanceId>) -> (r: Vec<Axiom>)
        ensures
            r@.len() == proposals@.len(),
            forall|i: int|
                0 <= i < r@.len() ==> (#[trigger] r@[i]).kind@ == KindView::SubClassOf(
                    proposals@[i].sub@,
                    proposals@[i].sup@,
                ) && r@[i].provenance == provenance,
    {
        let mut out: Vec<Axiom> = Vec::new();
        let mut i: usize = 0;
        while i < proposals.len()
            invariant
                i <= proposals@.len(),
                out@.len() == i,
                forall|j: int|
                    0 <= j < i ==> (#[trigger] out@[j]).kind@ == KindView::SubClassOf(
                        proposals@[j].sub@,
                        proposals@[j].sup@,
                    ) && out@[j].provenance == provenance,
            decreases proposals@.len() - i,
        {
            let p = &proposals[i];
            let mut a = Axiom::new(AxiomKind::SubClassOf { sub: p.sub.clone(), sup: p.sup.clone() });
            match provenance {
                Some(pid) => {
                    a = a.with_provenance(pid);
                },
                None => {},
            }
            out.push(a);
            i = i + 1;
        }
        out
    }
}

/// A cluster of synonymous surface forms with a proposed canonical name.
#[derive(Clone, Debug)]
pub struct ConceptCluster {
    /// Proposed canonical type name.
    pub name: String,
    /// Surface forms that fell into this cluster.
    pub members: Vec<String>,
    /// Optional human description.
    pub description: Option<String>,
}

impl ConceptCluster {
    /// The candidate node type: the cluster's name and description, nothing
    /// else declared.
    pub fn into_node_type(self) -> (r: NodeType)
        ensures
            r@ == (NodeTypeView {
                name: self.name@,
                iri: None,
                supertypes: seq![],
                properties: seq![],
                description: match self.description {
                    Some(d) => Some(d@),
                    None => None,
                },
            }),
    {
        let ty = NodeType::new(self.name);
        let r = match self.description {
            Some(d) => ty.with_description(d),
            None => ty,
        };
        assert(crate::schema::strings_view(r.supertypes@) =~= seq![]);
        assert(crate::schema::properties_view(r.properties@) =~= seq![]);
        r
    }
}

} // verus!
