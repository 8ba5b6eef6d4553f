use atomr_ontology::cypher::{self, CypherError};
use atomr_ontology::lexer::{is_ident_continue, is_ident_start};
use atomr_ontology::model::PropertyValue;
use atomr_ontology::sparql::{self, label_localname, SparqlError};
use atomr_ontology::store::NodePattern;

fn prop<'a>(p: &'a NodePattern, key: &str) -> Option<&'a PropertyValue> {
    p.properties.iter().find(|q| q.key == key).map(|q| &q.value)
}

// ---- SPARQL ----

#[test]
fn parses_basic_select_where() {
    let plan = sparql::parse("SELECT ?a ?b WHERE { ?a a :Org . ?a :memberOf ?b . } LIMIT 10").expect("parse");
    assert_eq!(plan.seed.bind.as_deref(), Some("a"));
    assert_eq!(plan.seed.types, vec!["Org".to_string()]);
    assert_eq!(plan.steps.len(), 1);
    assert_eq!(plan.steps[0].edge.label.as_deref(), Some("memberOf"));
    assert!(plan.steps[0].outbound);
    assert_eq!(plan.steps[0].target.bind.as_deref(), Some("b"));
    assert_eq!(plan.return_columns, vec!["a".to_string(), "b".to_string()]);
    assert_eq!(plan.limit, Some(10));
}

#[test]
fn expands_prefixes() {
    let q = r#"
        PREFIX ex: <http://example.com/>
        SELECT ?x WHERE { ?x a ex:Person . ?x ex:knows ?y . }
    "#;
    let plan = sparql::parse(q).expect("parse");
    assert_eq!(plan.seed.types, vec!["Person".to_string()]);
    assert_eq!(plan.steps[0].edge.label.as_deref(), Some("knows"));
}

#[test]
fn parses_limit_and_offset() {
    let plan = sparql::parse("SELECT ?a WHERE { ?a a :T . } LIMIT 5 OFFSET 7").expect("parse");
    assert_eq!(plan.limit, Some(5));
    assert_eq!(plan.skip, 7);
}

#[test]
fn parses_offset_before_limit() {
    let plan = sparql::parse("SELECT ?a WHERE { ?a a :T . } OFFSET 3 LIMIT 2").expect("parse");
    assert_eq!(plan.limit, Some(2));
    assert_eq!(plan.skip, 3);
}

#[test]
fn parses_select_star() {
    let plan = sparql::parse("SELECT * WHERE { ?a a :Org . }").expect("parse");
    assert!(plan.return_columns.is_empty());
}

#[test]
fn rejects_unknown_trailing_input() {
    let err = sparql::parse("SELECT ?a WHERE { ?a a :Org . } JUNK").unwrap_err();
    match err {
        SparqlError::Parse(_) => {}
        other => panic!("expected Parse, got {other:?}"),
    }
}

#[test]
fn rejects_non_variable_subject() {
    let err = sparql::parse("SELECT ?a WHERE { :foo a :Org . }").unwrap_err();
    match err {
        SparqlError::Unsupported(_) => {}
        other => panic!("expected Unsupported, got {other:?}"),
    }
}

#[test]
fn handles_optional_trailing_dot() {
    let plan = sparql::parse("SELECT ?a WHERE { ?a a :Org }").expect("parse");
    assert_eq!(plan.seed.types, vec!["Org".to_string()]);
}

#[test]
fn iri_local_name_extraction() {
    assert_eq!(label_localname("http://example.com/Person"), "Person");
    assert_eq!(label_localname("http://example.com#Person"), "Person");
    assert_eq!(label_localname("Person"), "Person");
    assert_eq!(label_localname("ex:Person"), "Person");
}

#[test]
fn sparql_comments_and_case_insensitive_keywords() {
    let q = "# find orgs\nselect ?a where { ?a a <http://x.org/ns#Org> } # done\n";
    let plan = sparql::parse(q).expect("parse");
    assert_eq!(plan.seed.types, vec!["Org".to_string()]);
}

#[test]
fn sparql_requires_a_triple() {
    match sparql::parse("SELECT ?a WHERE { }") {
        Err(SparqlError::Parse(m)) => assert!(m.contains("at least one triple")),
        other => panic!("expected Parse, got {other:?}"),
    }
}

#[test]
fn sparql_rejects_variable_predicate() {
    match sparql::parse("SELECT ?a WHERE { ?a ?p ?b }") {
        Err(SparqlError::Parse(_)) | Err(SparqlError::Unsupported(_)) => {}
        Ok(_) => panic!("variable predicates are outside the subset"),
    }
}

#[test]
fn sparql_error_messages() {
    assert_eq!(SparqlError::Parse("x".to_string()).message(), "sparql parse error: x");
    assert_eq!(SparqlError::Unsupported("y".to_string()).message(), "sparql unsupported feature: y");
}

#[test]
fn identifier_bytes() {
    assert!(is_ident_start(b'_'));
    assert!(is_ident_start(b'a'));
    assert!(!is_ident_start(b'1'));
    assert!(is_ident_continue(b'1'));
    assert!(!is_ident_continue(b'-'));
}

// ---- Cypher ----

#[test]
fn parses_simple_node_pattern() {
    let plan = cypher::parse("MATCH (a:Org) RETURN a").expect("parse");
    assert_eq!(plan.seed.bind.as_deref(), Some("a"));
    assert_eq!(plan.seed.types, vec!["Org".to_string()]);
    assert!(plan.steps.is_empty());
    assert_eq!(plan.return_columns, vec!["a".to_string()]);
    assert!(plan.limit.is_none());
}

#[test]
fn parses_two_hop_with_limit() {
    let plan = cypher::parse("MATCH (a:Org)-[:memberOf]->(b:Org) RETURN a, b LIMIT 10").expect("parse");
    assert_eq!(plan.seed.bind.as_deref(), Some("a"));
    assert_eq!(plan.steps.len(), 1);
    assert!(plan.steps[0].outbound);
    assert_eq!(plan.steps[0].edge.label.as_deref(), Some("memberOf"));
    assert_eq!(plan.steps[0].target.bind.as_deref(), Some("b"));
    assert_eq!(plan.return_columns, vec!["a".to_string(), "b".to_string()]);
    assert_eq!(plan.limit, Some(10));
}

#[test]
fn parses_variable_length_path() {
    let plan = cypher::parse("MATCH (a:Org)-[:subClassOf*1..3]->(b) RETURN b").expect("parse");
    assert_eq!(plan.steps.len(), 1);
    let repeat = plan.steps[0].edge.repeat.expect("repeat range present");
    assert_eq!(repeat.0, 1);
    assert_eq!(repeat.1, 3);
    assert_eq!(plan.steps[0].edge.label.as_deref(), Some("subClassOf"));
}

#[test]
fn parses_property_map_and_where_not() {
    let plan = cypher::parse(r#"MATCH (a:Org {name: "Acme"}) WHERE NOT a:Excluded RETURN a"#).expect("parse");
    let name = prop(&plan.seed, "name").expect("name property bound");
    assert!(name.same_as(&PropertyValue::String("Acme".to_string())));
    assert_eq!(plan.seed.not.len(), 1);
    assert_eq!(plan.seed.not[0].types, vec!["Excluded".to_string()]);
}

#[test]
fn parses_where_not_parenthesised() {
    let plan = cypher::parse(r#"MATCH (a:Org) WHERE NOT (a:Excluded) RETURN a"#).expect("parse");
    assert_eq!(plan.seed.not.len(), 1);
    assert_eq!(plan.seed.not[0].types, vec!["Excluded".to_string()]);
}

#[test]
fn parses_integer_and_bool_properties() {
    let plan = cypher::parse(r#"MATCH (a:Org {size: 42, active: true}) RETURN a"#).expect("parse");
    assert!(prop(&plan.seed, "size").unwrap().same_as(&PropertyValue::Integer(42)));
    assert!(prop(&plan.seed, "active").unwrap().same_as(&PropertyValue::Bool(true)));
}

#[test]
fn parses_inbound_edge() {
    let plan = cypher::parse("MATCH (a:Org)<-[:memberOf]-(b:Org) RETURN a, b").expect("parse");
    assert_eq!(plan.steps.len(), 1);
    assert!(!plan.steps[0].outbound);
}

#[test]
fn rejects_trailing_garbage() {
    let err = cypher::parse("MATCH (a:Org) RETURN a GARBAGE").unwrap_err();
    match err {
        CypherError::Parse(_) => {}
        other => panic!("expected Parse error, got {other:?}"),
    }
}

#[test]
fn rejects_unsupported_where() {
    let err = cypher::parse("MATCH (a:Org) WHERE a.foo = 1 RETURN a").unwrap_err();
    match err {
        CypherError::Unsupported(_) => {}
        other => panic!("expected Unsupported, got {other:?}"),
    }
}

#[test]
fn parses_open_ended_variable_length() {
    let plan = cypher::parse("MATCH (a)-[:r*2..]->(b) RETURN b").expect("parse");
    let r = plan.steps[0].edge.repeat.unwrap();
    assert_eq!(r.0, 2);
    assert_eq!(r.1, usize::MAX);
}

#[test]
fn cypher_rejects_bidirectional_edge() {
    match cypher::parse("MATCH (a)<-[:r]->(b) RETURN a") {
        Err(CypherError::Unsupported(_)) => {}
        other => panic!("expected Unsupported, got {other:?}"),
    }
}

#[test]
fn cypher_rejects_inverted_range() {
    match cypher::parse("MATCH (a)-[:r*3..1]->(b) RETURN a") {
        Err(CypherError::Parse(_)) => {}
        other => panic!("expected Parse, got {other:?}"),
    }
}

#[test]
fn cypher_string_escapes_and_negative_integers() {
    let plan = cypher::parse(r#"MATCH (a {name: "A\"b\n", n: -7}) RETURN a"#).expect("parse");
    assert!(prop(&plan.seed, "name").unwrap().same_as(&PropertyValue::String("A\"b\n".to_string())));
    assert!(prop(&plan.seed, "n").unwrap().same_as(&PropertyValue::Integer(-7)));
}

#[test]
fn cypher_star_defaults_to_one_or_more_hops() {
    let plan = cypher::parse("MATCH (a)-[e:r*]->(b) RETURN e").expect("parse");
    assert_eq!(plan.steps[0].edge.repeat, Some((1, usize::MAX)));
    assert_eq!(plan.steps[0].edge.bind.as_deref(), Some("e"));
}

#[test]
fn cypher_error_messages() {
    assert_eq!(CypherError::Parse("x".to_string()).message(), "cypher parse error: x");
    assert_eq!(CypherError::Unsupported("y".to_string()).message(), "cypher unsupported feature: y");
}

#[test]
fn cypher_keywords_ignore_case() {
    let plan = cypher::parse("match (a:Org) return a limit 3").expect("parse");
    assert_eq!(plan.seed.bind.as_deref(), Some("a"));
    assert_eq!(plan.return_columns, vec!["a".to_string()]);
    assert_eq!(plan.limit, Some(3));
}

#[test]
fn cypher_repeated_property_key_keeps_last_value() {
    let plan = cypher::parse(r#"MATCH (a {k: 1, j: "x", k: 2}) RETURN a"#).expect("parse");
    assert_eq!(plan.seed.properties.len(), 2);
    assert_eq!(plan.seed.properties[0].key, "k");
    assert!(prop(&plan.seed, "k").unwrap().same_as(&PropertyValue::Integer(2)));
    assert!(prop(&plan.seed, "j").unwrap().same_as(&PropertyValue::String("x".to_string())));
}

#[test]
fn cypher_negation_attaches_to_the_named_hop_target() {
    let plan = cypher::parse("MATCH (a)-[:r]->(b)-[:s]->(c) WHERE NOT c:Hidden RETURN a").expect("parse");
    assert_eq!(plan.seed.not.len(), 0);
    assert_eq!(plan.steps[0].target.not.len(), 0);
    assert_eq!(plan.steps[1].target.not.len(), 1);
    assert_eq!(plan.steps[1].target.not[0].types, vec!["Hidden".to_string()]);
    assert!(plan.steps[1].target.not[0].bind.is_none());
}

#[test]
fn cypher_negation_of_an_unbound_name_goes_to_the_seed() {
    let plan = cypher::parse("MATCH (a)-[:r]->(b) WHERE NOT z:Gone RETURN a").expect("parse");
    assert_eq!(plan.seed.not.len(), 1);
    assert_eq!(plan.steps[0].target.not.len(), 0);
}

#[test]
fn cypher_string_literal_errors() {
    match cypher::parse(r#"MATCH (a {name: "open}) RETURN a"#) {
        Err(CypherError::Parse(m)) => assert_eq!(m, "unterminated string literal"),
        other => panic!("expected Parse, got {other:?}"),
    }
    match cypher::parse("MATCH (a {name: 5 6}) RETURN a") {
        Err(CypherError::Parse(m)) => assert_eq!(m, "expected `,` or `}` in property map"),
        other => panic!("expected Parse, got {other:?}"),
    }
}
