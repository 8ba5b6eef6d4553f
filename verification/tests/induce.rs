use atomr_ontology::induce::{AxiomProposal, ConceptCluster, SubclassProposal, TaxonomyInducer};
use atomr_ontology::model::AxiomKind;

#[test]
fn subclass_proposals_promote_to_subclass_axioms() {
    let ps = vec![SubclassProposal { sub: "FormalOrganization".to_string(), sup: "Organization".to_string() }];
    let axs = TaxonomyInducer::into_axioms(&ps, None);
    assert_eq!(axs.len(), 1);
    match &axs[0].kind {
        AxiomKind::SubClassOf { sub, sup } => {
            assert_eq!(sub, "FormalOrganization");
            assert_eq!(sup, "Organization");
        }
        _ => panic!("expected SubClassOf"),
    }
    assert!(axs[0].provenance.is_none());
    let stamped = TaxonomyInducer::into_axioms(&ps, Some(42));
    assert_eq!(stamped[0].provenance, Some(42));
}

#[test]
fn axiom_proposals_promote_to_their_shapes() {
    let a = AxiomProposal::Functional { property: "homepage".to_string() }.into_axiom();
    assert!(matches!(a.kind, AxiomKind::Functional { .. }));
    let b = AxiomProposal::SubClassOf { sub: "FormalOrganization".to_string(), sup: "Organization".to_string() }
        .into_axiom();
    assert!(matches!(b.kind, AxiomKind::SubClassOf { .. }));
    assert!(b.provenance.is_none());
}

#[test]
fn clusters_become_candidate_node_types() {
    let c = ConceptCluster {
        name: "Organization".to_string(),
        members: vec!["Org".to_string(), "Company".to_string(), "Firm".to_string()],
        description: Some("A formal organization".to_string()),
    };
    let nt = c.into_node_type();
    assert_eq!(nt.name, "Organization");
    assert_eq!(nt.description.as_deref(), Some("A formal organization"));
    assert!(nt.iri.is_none());
}
