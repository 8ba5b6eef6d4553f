use atomr_ontology::engine::{Reasoner, ReasonerError, DEFAULT_MAX_ITERATIONS};
use atomr_ontology::model::{Axiom, AxiomKind, Edge, Node, Ontology};
use atomr_ontology::rules::{Rule, RuleSet};

fn ax(kind: AxiomKind) -> Axiom {
    Axiom::new(kind)
}

fn sub(a: &str, b: &str) -> Axiom {
    ax(AxiomKind::SubClassOf { sub: a.to_string(), sup: b.to_string() })
}

fn person(o: &mut Ontology, id: u64) -> u64 {
    o.upsert_node(Node::new(id, "Person".to_string()))
}

#[test]
fn standard_includes_all_rules() {
    let rs = RuleSet::standard();
    assert_eq!(rs.rules.len(), 7);
    assert!(rs.rules.contains(&Rule::SubClassTransitivity));
    assert!(rs.rules.contains(&Rule::PropertyTransitivity));
}

#[test]
fn subclass_transitivity_emits_skip_hop() {
    let mut o = Ontology::new();
    o.upsert_axiom(sub("A", "B"));
    o.upsert_axiom(sub("B", "C"));
    let out = Rule::SubClassTransitivity.apply(&o);
    assert_eq!(out.axioms.len(), 1);
    match &out.axioms[0].kind {
        AxiomKind::SubClassOf { sub, sup } => {
            assert_eq!(sub, "A");
            assert_eq!(sup, "C");
        }
        other => panic!("unexpected kind: {other:?}"),
    }
}

#[test]
fn subclass_transitivity_does_not_loop_on_cycle() {
    let mut o = Ontology::new();
    o.upsert_axiom(sub("A", "B"));
    o.upsert_axiom(sub("B", "A"));
    let out = Rule::SubClassTransitivity.apply(&o);
    for a in &out.axioms {
        if let AxiomKind::SubClassOf { sub, sup } = &a.kind {
            assert_ne!(sub, sup, "rule must not emit reflexive cycles");
        }
    }
}

#[test]
fn equivalent_symmetry_round_trips() {
    let mut o = Ontology::new();
    o.upsert_axiom(ax(AxiomKind::EquivalentClass {
        left: "Org".to_string(),
        right: "Organization".to_string(),
    }));
    let out = Rule::EquivalentSymmetry.apply(&o);
    assert_eq!(out.axioms.len(), 1);
    match &out.axioms[0].kind {
        AxiomKind::EquivalentClass { left, right } => {
            assert_eq!(left, "Organization");
            assert_eq!(right, "Org");
        }
        other => panic!("unexpected: {other:?}"),
    }
}

#[test]
fn equivalent_to_subclass_yields_two_subclass_facts() {
    let mut o = Ontology::new();
    o.upsert_axiom(ax(AxiomKind::EquivalentClass {
        left: "Org".to_string(),
        right: "Organization".to_string(),
    }));
    let out = Rule::EquivalentToSubClass.apply(&o);
    assert_eq!(out.axioms.len(), 2);
}

#[test]
fn property_symmetry_materializes_reverse_edge() {
    let mut o = Ontology::new();
    o.upsert_axiom(ax(AxiomKind::Symmetric { property: "knows".to_string() }));
    let a = person(&mut o, 1);
    let b = person(&mut o, 2);
    o.upsert_edge(Edge::between(a, "knows".to_string(), b));
    let out = Rule::PropertySymmetry.apply(&o);
    assert_eq!(out.edges.len(), 1);
    assert_eq!(out.edges[0].source, b);
    assert_eq!(out.edges[0].target, a);
}

#[test]
fn transitive_property_chains() {
    let mut o = Ontology::new();
    o.upsert_axiom(ax(AxiomKind::Transitive { property: "ancestorOf".to_string() }));
    let a = person(&mut o, 1);
    let b = person(&mut o, 2);
    let c = person(&mut o, 3);
    o.upsert_edge(Edge::between(a, "ancestorOf".to_string(), b));
    o.upsert_edge(Edge::between(b, "ancestorOf".to_string(), c));
    let out = Rule::PropertyTransitivity.apply(&o);
    assert_eq!(out.edges.len(), 1);
    assert_eq!(out.edges[0].source, a);
    assert_eq!(out.edges[0].target, c);
    assert_eq!(out.edges[0].label, "ancestorOf");
}

#[test]
fn inverse_of_symmetry_round_trips() {
    let mut o = Ontology::new();
    o.upsert_axiom(ax(AxiomKind::InverseOf {
        left: "memberOf".to_string(),
        right: "hasMember".to_string(),
    }));
    let out = Rule::InverseOfSymmetry.apply(&o);
    assert_eq!(out.axioms.len(), 1);
    match &out.axioms[0].kind {
        AxiomKind::InverseOf { left, right } => {
            assert_eq!(left, "hasMember");
            assert_eq!(right, "memberOf");
        }
        other => panic!("unexpected: {other:?}"),
    }
}

#[test]
fn inverse_of_materializes_both_directions() {
    let mut o = Ontology::new();
    o.upsert_axiom(ax(AxiomKind::InverseOf {
        left: "memberOf".to_string(),
        right: "hasMember".to_string(),
    }));
    let alice = person(&mut o, 1);
    let acme = o.upsert_node(Node::new(2, "Organization".to_string()));
    o.upsert_edge(Edge::between(alice, "memberOf".to_string(), acme));
    let out = Rule::InverseOfMaterializes.apply(&o);
    assert_eq!(out.edges.len(), 1);
    assert_eq!(out.edges[0].label, "hasMember");
    assert_eq!(out.edges[0].source, acme);
    assert_eq!(out.edges[0].target, alice);
}

#[test]
fn rules_are_idempotent_on_a_closed_ontology() {
    let mut o = Ontology::new();
    o.upsert_axiom(sub("A", "B"));
    o.upsert_axiom(sub("B", "C"));
    o.upsert_axiom(sub("A", "C"));
    let out = Rule::SubClassTransitivity.apply(&o);
    assert!(out.is_empty(), "closed ontology must yield no new facts");
}

#[test]
fn empty_ontology_yields_clean_report() {
    let o = Ontology::new();
    let r = Reasoner::new().run(&o).expect("run");
    assert!(r.is_clean());
    assert!(r.iterations >= 1);
}

#[test]
fn subclass_transitivity_three_class_chain() {
    let mut o = Ontology::new();
    o.upsert_axiom(sub("A", "B"));
    o.upsert_axiom(sub("B", "C"));
    let report = Reasoner::new().run(&o).expect("run");
    let derived_pairs: Vec<(String, String)> = report
        .derived_axioms
        .iter()
        .filter_map(|a| match &a.kind {
            AxiomKind::SubClassOf { sub, sup } => Some((sub.clone(), sup.clone())),
            _ => None,
        })
        .collect();
    assert!(derived_pairs.contains(&("A".to_string(), "C".to_string())));
}

#[test]
fn equivalent_symmetry_is_derived() {
    let mut o = Ontology::new();
    o.upsert_axiom(ax(AxiomKind::EquivalentClass {
        left: "Org".to_string(),
        right: "Organization".to_string(),
    }));
    let report = Reasoner::new().run(&o).expect("run");
    let symmetric = report.derived_axioms.iter().any(|a| {
        matches!(&a.kind, AxiomKind::EquivalentClass { left, right }
            if left == "Organization" && right == "Org")
    });
    assert!(symmetric, "Equivalent symmetry not derived");
}

#[test]
fn transitive_property_closes_a_chain() {
    let mut o = Ontology::new();
    o.upsert_axiom(ax(AxiomKind::Transitive { property: "ancestorOf".to_string() }));
    let a = person(&mut o, 1);
    let b = person(&mut o, 2);
    let c = person(&mut o, 3);
    o.upsert_edge(Edge::between(a, "ancestorOf".to_string(), b));
    o.upsert_edge(Edge::between(b, "ancestorOf".to_string(), c));
    let report = Reasoner::new().run(&o).expect("run");
    let has_ac = report
        .derived_edges
        .iter()
        .any(|e| e.label == "ancestorOf" && e.source == a && e.target == c);
    assert!(has_ac, "transitive (a, c) edge not derived");
}

#[test]
fn transitive_property_closes_longer_chain_over_iterations() {
    let mut o = Ontology::new();
    o.upsert_axiom(ax(AxiomKind::Transitive { property: "ancestorOf".to_string() }));
    let a = person(&mut o, 1);
    let b = person(&mut o, 2);
    let c = person(&mut o, 3);
    let d = person(&mut o, 4);
    o.upsert_edge(Edge::between(a, "ancestorOf".to_string(), b));
    o.upsert_edge(Edge::between(b, "ancestorOf".to_string(), c));
    o.upsert_edge(Edge::between(c, "ancestorOf".to_string(), d));
    let report = Reasoner::new().run(&o).expect("run");
    assert!(report.derived_edges.iter().any(|e| e.source == a && e.target == c));
    assert!(report.derived_edges.iter().any(|e| e.source == b && e.target == d));
    assert!(report.derived_edges.iter().any(|e| e.source == a && e.target == d));
}

#[test]
fn inverse_of_bidirectional() {
    let mut o = Ontology::new();
    o.upsert_axiom(ax(AxiomKind::InverseOf {
        left: "memberOf".to_string(),
        right: "hasMember".to_string(),
    }));
    let alice = person(&mut o, 1);
    let acme = o.upsert_node(Node::new(2, "Organization".to_string()));
    o.upsert_edge(Edge::between(alice, "memberOf".to_string(), acme));
    let report = Reasoner::new().run(&o).expect("run");
    let reverse = report
        .derived_edges
        .iter()
        .any(|e| e.source == acme && e.target == alice && e.label == "hasMember");
    assert!(reverse, "inverse-of edge not materialized");
    let inverse_axiom = report.derived_axioms.iter().any(|a| {
        matches!(&a.kind, AxiomKind::InverseOf { left, right }
            if left == "hasMember" && right == "memberOf")
    });
    assert!(inverse_axiom, "inverse-of symmetry not derived");
}

#[test]
fn cycle_in_subclass_does_not_infinite_loop() {
    let mut o = Ontology::new();
    o.upsert_axiom(sub("A", "B"));
    o.upsert_axiom(sub("B", "A"));
    let report = Reasoner::new().run(&o).expect("run terminates on cycle");
    assert!(report.iterations <= DEFAULT_MAX_ITERATIONS);
}

#[test]
fn idempotent_on_a_closed_ontology() {
    let mut o = Ontology::new();
    o.upsert_axiom(sub("A", "B"));
    let reasoner = Reasoner::new();
    let _first = reasoner.materialize(&mut o).expect("first run");
    let second = reasoner.run(&o).expect("second run");
    assert!(second.is_clean(), "re-running on closed ontology must produce nothing");
}

#[test]
fn derived_axioms_carry_activity_provenance() {
    let mut o = Ontology::new();
    o.upsert_axiom(sub("A", "B"));
    o.upsert_axiom(sub("B", "C"));
    let report = Reasoner::new().run(&o).expect("run");
    let act_id = report.activity.id;
    for a in &report.derived_axioms {
        assert_eq!(a.provenance, Some(act_id));
    }
}

#[test]
fn materialize_merges_back_into_ontology() {
    let mut o = Ontology::new();
    o.upsert_axiom(sub("A", "B"));
    o.upsert_axiom(sub("B", "C"));
    let before = o.axioms.len();
    let report = Reasoner::new().materialize(&mut o).expect("materialize");
    assert_eq!(o.axioms.len(), before + report.derived_axioms.len());
}

#[test]
fn cap_iterations_raises_cycle_error() {
    let mut o = Ontology::new();
    o.upsert_axiom(ax(AxiomKind::Transitive { property: "knows".to_string() }));
    let a = person(&mut o, 1);
    let b = person(&mut o, 2);
    o.upsert_edge(Edge::between(a, "knows".to_string(), b));
    o.upsert_edge(Edge::between(b, "knows".to_string(), a));
    let reasoner = Reasoner::new().with_max_iterations(1);
    match reasoner.run(&o) {
        Err(ReasonerError::Cycle { limit }) => assert_eq!(limit, 1),
        Ok(_) => {}
    }
}

// ---- further cases ----

#[test]
fn materialized_ontology_is_closed_after_two_hops() {
    // A ⊑ B ⊑ C ⊑ D: the closure adds A ⊑ C, B ⊑ D, A ⊑ D and nothing else.
    let mut o = Ontology::new();
    o.upsert_axiom(sub("A", "B"));
    o.upsert_axiom(sub("B", "C"));
    o.upsert_axiom(sub("C", "D"));
    let reasoner = Reasoner::with_rules(RuleSet::new(vec![Rule::SubClassTransitivity]));
    let report = reasoner.materialize(&mut o).expect("materialize");
    assert_eq!(report.derived_axioms.len(), 3);
    assert_eq!(o.axioms.len(), 6);
    let again = reasoner.run(&o).expect("run");
    assert!(again.is_clean());
    assert_eq!(again.iterations, 1);
}

#[test]
fn run_does_not_modify_the_ontology() {
    let mut o = Ontology::new();
    o.upsert_axiom(sub("A", "B"));
    o.upsert_axiom(sub("B", "C"));
    let _ = Reasoner::new().run(&o).expect("run");
    assert_eq!(o.axioms.len(), 2);
}

#[test]
fn with_max_iterations_zero_counts_as_one() {
    let mut o = Ontology::new();
    o.upsert_axiom(sub("A", "B"));
    o.upsert_axiom(sub("B", "C"));
    match Reasoner::new().with_max_iterations(0).run(&o) {
        Err(ReasonerError::Cycle { limit }) => assert_eq!(limit, 1),
        Ok(_) => panic!("a derivation needs a second round to confirm the fixed point"),
    }
}

#[test]
fn cycle_error_message() {
    let e = ReasonerError::Cycle { limit: 3 };
    assert!(e.message().contains("did not converge"));
}

#[test]
fn empty_rule_set_is_clean() {
    let mut o = Ontology::new();
    o.upsert_axiom(sub("A", "B"));
    o.upsert_axiom(sub("B", "C"));
    let r = Reasoner::with_rules(RuleSet::empty()).run(&o).expect("run");
    assert!(r.is_clean());
    assert!(RuleSet::empty().is_empty());
    assert_eq!(RuleSet::empty().with(Rule::EquivalentSymmetry).rules.len(), 1);
}

#[test]
fn reasoner_agent_is_recorded() {
    let agent = atomr_ontology::provenance::AgentRef::person("mailto:ana@example.org".to_string(), "Ana".to_string());
    let r = Reasoner::new().with_agent(agent).run(&Ontology::new()).expect("run");
    let a = r.activity.agent.expect("agent");
    assert_eq!(a.label, "Ana");
    assert_eq!(r.activity.label, "reasoning");
    assert!(r.activity.ended_at.is_some());
}

#[test]
fn cycle_error_message_names_the_cap() {
    let e = ReasonerError::Cycle { limit: 12 };
    assert_eq!(e.message(), "reasoning did not converge after 12 iterations (cap reached)");
}

#[test]
fn node_and_edge_lookup_find_the_stored_entries() {
    let mut o = Ontology::new();
    let a = person(&mut o, 7);
    let b = person(&mut o, 9);
    o.upsert_edge(Edge::between(a, "knows".to_string(), b));
    assert_eq!(o.node(7).map(|n| n.id), Some(7));
    assert!(o.node(8).is_none());
    let found = o.edge(&Edge::between(a, "knows".to_string(), b).id()).expect("edge");
    assert_eq!((found.source, found.target), (7, 9));
    assert!(o.edge(&Edge::between(b, "knows".to_string(), a).id()).is_none());
}

#[test]
fn run_activity_credits_the_default_software_agent_and_counts_rules() {
    let r = Reasoner::new().run(&Ontology::new()).expect("run");
    assert_eq!(r.activity.label, "reasoning");
    let agent = r.activity.agent.as_ref().expect("agent");
    assert_eq!(agent.id, "agent://atomr-ontology-reason/Reasoner");
    assert_eq!(agent.kind, atomr_ontology::provenance::AgentKind::Software);
    assert_eq!(agent.label, "atomr-ontology-reason");
    assert_eq!(r.activity.attributes.len(), 1);
    assert_eq!(r.activity.attributes[0].key, "rules");
    assert!(matches!(&r.activity.attributes[0].value, atomr_ontology::json::JsonValue::Number(t) if t == "7"));
}

#[test]
fn empty_rule_set_runs_clean_in_one_round() {
    let mut o = Ontology::new();
    o.upsert_axiom(sub("A", "B"));
    o.upsert_axiom(sub("B", "C"));
    let r = Reasoner::with_rules(RuleSet::empty()).run(&o).expect("run");
    assert!(r.is_clean());
    assert_eq!(r.iterations, 1);
    assert!(matches!(&r.activity.attributes[0].value, atomr_ontology::json::JsonValue::Number(t) if t == "0"));
}
