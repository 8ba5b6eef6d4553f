use atomr_ontology::schema::Vocabulary;
use atomr_ontology::model::AxiomKind;
use atomr_ontology::org::{build_reference_vocabulary, reference_ontology, REFERENCE_IRI};
use atomr_ontology::model::Ontology;

#[test]
fn reference_ontology_has_declared_types() {
    let o = reference_ontology();
    assert!(o.schema.node_type(&"Organization".to_string()).is_some());
    assert!(o.schema.node_type(&"FormalOrganization".to_string()).is_some());
    assert!(o.schema.edge_type(&"memberOf".to_string()).is_some());
    assert!(o.axioms.iter().any(|a| matches!(a.kind, AxiomKind::Transitive { .. })));
}

#[test]
fn reference_ontology_is_named() {
    let o = reference_ontology();
    assert_eq!(o.iri.as_deref(), Some(REFERENCE_IRI));
    assert_eq!(REFERENCE_IRI, "https://atomr.dev/ontology/org/v1");
}

#[test]
fn building_the_vocabulary_twice_changes_nothing() {
    let mut once = Ontology::new();
    build_reference_vocabulary(&mut once);
    let mut twice = Ontology::new();
    build_reference_vocabulary(&mut twice);
    build_reference_vocabulary(&mut twice);
    assert_eq!(once.axioms.len(), twice.axioms.len());
    assert_eq!(once.schema.node_types.len(), twice.schema.node_types.len());
    assert_eq!(once.schema.edge_types.len(), twice.schema.edge_types.len());
}

#[test]
fn member_of_has_an_inverse() {
    let o = reference_ontology();
    let member_of = o.schema.edge_type(&"memberOf".to_string()).unwrap();
    assert!(member_of.inverse_of.is_some());
}

#[test]
fn building_keeps_existing_bindings_and_declares_each_type_once() {
    let mut o = Ontology::new();
    o.vocabulary.bind("ex".to_string(), "https://example.org/".to_string());
    build_reference_vocabulary(&mut o);
    assert_eq!(o.vocabulary.bindings.len(), 1);
    assert_eq!(o.vocabulary.base(&"ex".to_string()).map(|s| s.as_str()), Some("https://example.org/"));
    assert_eq!(o.schema.node_types.len(), 8);
    assert_eq!(o.schema.edge_types.len(), 8);
    assert_eq!(o.axioms.len(), 6);
    let r = reference_ontology();
    assert_eq!(r.schema.node_types.len(), 8);
    assert_eq!(r.axioms.len(), 6);
}

#[test]
fn building_on_no_bindings_binds_exactly_the_standard_ones() {
    let mut o = Ontology::new();
    build_reference_vocabulary(&mut o);
    let std = Vocabulary::with_standard_bindings();
    assert_eq!(o.vocabulary.bindings.len(), std.bindings.len());
    for (a, b) in o.vocabulary.bindings.iter().zip(std.bindings.iter()) {
        assert_eq!(a.prefix, b.prefix);
        assert_eq!(a.base, b.base);
    }
    assert_eq!(o.schema.node_type(&"FormalOrganization".to_string()).unwrap().supertypes, vec!["Organization".to_string()]);
    assert_eq!(o.schema.node_type(&"OrganizationalUnit".to_string()).unwrap().supertypes, vec!["Organization".to_string()]);
    assert_eq!(o.schema.edge_type(&"memberOf".to_string()).unwrap().inverse_of.as_deref(), Some("hasMember"));
}

#[test]
fn building_twice_leaves_lists_entry_for_entry() {
    let mut once = Ontology::new();
    build_reference_vocabulary(&mut once);
    let names: Vec<String> = once.schema.node_types.iter().map(|t| t.name.clone()).collect();
    let edges: Vec<String> = once.schema.edge_types.iter().map(|t| t.name.clone()).collect();
    build_reference_vocabulary(&mut once);
    let names2: Vec<String> = once.schema.node_types.iter().map(|t| t.name.clone()).collect();
    let edges2: Vec<String> = once.schema.edge_types.iter().map(|t| t.name.clone()).collect();
    assert_eq!(names, names2);
    assert_eq!(edges, edges2);
    assert_eq!(once.axioms.len(), 6);
    assert!(once.axioms.iter().all(|a| a.provenance.is_none()));
}
