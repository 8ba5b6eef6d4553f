use atomr_ontology::adapter::{from_rdf, to_rdf};
use atomr_ontology::model::{Edge, Node, Ontology, Property, PropertyValue};
use atomr_ontology::ntriples;
use atomr_ontology::rdf::{base64_encode, AdapterError, Object, Subject, Triple};
use atomr_ontology::schema::{Cardinality, Datatype, EdgeType, NodeType, PropertyType};

fn name_property(iri: Option<&str>) -> PropertyType {
    PropertyType {
        name: "name".to_string(),
        datatype: Datatype::String,
        cardinality: Cardinality::one(),
        iri: iri.map(|s| s.to_string()),
        description: None,
    }
}

fn node_with_iri(id: u64, iri: &str, ty: &str) -> Node {
    let mut n = Node::new(id, ty.to_string());
    n.iri = Some(iri.to_string());
    n
}

fn fixture() -> Ontology {
    let mut o = Ontology::new();
    let org = NodeType::new("Organization".to_string())
        .with_iri("http://www.w3.org/ns/org#Organization".to_string())
        .with_property(name_property(Some("http://www.w3.org/2000/01/rdf-schema#label")));
    o.schema.declare_node_type(org);
    o.schema.declare_edge_type(
        EdgeType::new("memberOf".to_string())
            .with_iri("http://www.w3.org/ns/org#memberOf".to_string())
            .with_domain("Organization".to_string())
            .with_range("Organization".to_string()),
    );
    let mut acme = node_with_iri(1, "https://example.org/Acme", "Organization");
    acme.properties.push(Property { key: "name".to_string(), value: PropertyValue::String("Acme".to_string()) });
    let acme = o.upsert_node(acme);
    let bob = o.upsert_node(node_with_iri(2, "https://example.org/Bob", "Organization"));
    o.upsert_edge(Edge::between(bob, "memberOf".to_string(), acme));
    o
}

fn acme_only() -> Ontology {
    let mut o = Ontology::new();
    o.schema.declare_node_type(
        NodeType::new("Organization".to_string())
            .with_iri("http://www.w3.org/ns/org#Organization".to_string())
            .with_property(name_property(None)),
    );
    let mut acme = node_with_iri(1, "https://example.org/Acme", "Organization");
    acme.properties.push(Property { key: "name".to_string(), value: PropertyValue::String("Acme".to_string()) });
    o.upsert_node(acme);
    o
}

#[test]
fn projects_schema_and_instances() {
    let triples = to_rdf(&fixture());
    let predicates: Vec<&str> = triples.iter().map(|t| t.predicate.as_str()).collect();
    assert!(predicates.iter().any(|p| p.ends_with("#type")));
    assert!(predicates.iter().any(|p| p.ends_with("#label")));
    assert!(predicates.iter().any(|p| p.contains("org#memberOf")));
}

#[test]
fn from_rdf_partial_roundtrip() {
    let triples = to_rdf(&fixture());
    let o = from_rdf(&triples).unwrap();
    assert!(o.schema.node_type(&"Organization".to_string()).is_some());
}

#[test]
fn from_rdf_reads_object_properties_and_subclasses() {
    let ty = "http://www.w3.org/1999/02/22-rdf-syntax-ns#type".to_string();
    let sub = "http://www.w3.org/2000/01/rdf-schema#subClassOf".to_string();
    let triples = vec![
        Triple::new(
            Subject::Iri("http://example.org/memberOf".to_string()),
            ty.clone(),
            Object::Iri("http://www.w3.org/2002/07/owl#ObjectProperty".to_string()),
        ),
        Triple::new(
            Subject::Iri("http://example.org/FormalOrganization".to_string()),
            sub.clone(),
            Object::Iri("http://example.org/Organization".to_string()),
        ),
        Triple::new(
            Subject::Iri("http://example.org/FormalOrganization".to_string()),
            sub,
            Object::Iri("http://example.org/Organization".to_string()),
        ),
    ];
    let o = from_rdf(&triples).unwrap();
    assert!(o.schema.edge_type(&"memberOf".to_string()).is_some());
    let formal = o.schema.node_type(&"FormalOrganization".to_string()).unwrap();
    assert_eq!(formal.supertypes, vec!["Organization".to_string()]);
    assert_eq!(formal.iri.as_deref(), Some("http://example.org/FormalOrganization"));
}

#[test]
fn unnamed_nodes_become_blank_subjects() {
    let mut o = Ontology::new();
    let mut n = Node::new(0x2a, "Thing".to_string());
    n.properties.push(Property { key: "count".to_string(), value: PropertyValue::Integer(-42) });
    n.properties.push(Property { key: "ok".to_string(), value: PropertyValue::Bool(true) });
    n.properties.push(Property { key: "none".to_string(), value: PropertyValue::Null });
    o.upsert_node(n);
    let triples = to_rdf(&o);
    assert_eq!(triples.len(), 3);
    match &triples[0].subject {
        Subject::Blank(l) => assert_eq!(l, "000000000000000000000000000000000000000000000000000000000000002a"),
        _ => panic!("expected blank"),
    }
    assert_eq!(triples[0].predicate, "http://www.w3.org/1999/02/22-rdf-syntax-ns#type");
    match &triples[0].object {
        Object::Iri(i) => assert_eq!(i, "https://atomr.dev/ontology/local#Thing"),
        _ => panic!("expected iri"),
    }
    match &triples[1].object {
        Object::Literal { lexical, datatype, .. } => {
            assert_eq!(lexical, "-42");
            assert_eq!(datatype, "http://www.w3.org/2001/XMLSchema#integer");
        }
        _ => panic!("expected literal"),
    }
    assert_eq!(triples[1].predicate, "https://atomr.dev/ontology/local#count");
}

#[test]
fn curie_names_expand_through_the_standard_bindings() {
    let mut o = Ontology::new();
    o.upsert_node(node_with_iri(1, "https://example.org/x", "owl:Thing"));
    let triples = to_rdf(&o);
    match &triples[0].object {
        Object::Iri(i) => assert_eq!(i, "http://www.w3.org/2002/07/owl#Thing"),
        _ => panic!("expected iri"),
    }
}

#[test]
fn edges_to_unknown_nodes_use_an_anonymous_iri() {
    let mut o = Ontology::new();
    o.upsert_node(node_with_iri(1, "https://example.org/a", "T"));
    o.upsert_edge(Edge::between(1, "knows".to_string(), 255));
    let triples = to_rdf(&o);
    let last = triples.last().unwrap();
    match &last.object {
        Object::Iri(i) => assert_eq!(i, "_:n00000000000000000000000000000000000000000000000000000000000000ff"),
        _ => panic!("expected iri"),
    }
}

#[test]
fn base64_matches_rfc4648() {
    let enc = |b: &[u8]| base64_encode(b).into_iter().collect::<String>();
    assert_eq!(enc(b""), "");
    assert_eq!(enc(b"f"), "Zg==");
    assert_eq!(enc(b"fo"), "Zm8=");
    assert_eq!(enc(b"foo"), "Zm9v");
    assert_eq!(enc(b"foobar"), "Zm9vYmFy");
    assert_eq!(enc(&[0xff, 0xfe, 0x00]), "//4A");
}

#[test]
fn xsd_literals_round_trip() {
    let lit = Object::xsd_integer(42);
    match lit {
        Object::Literal { lexical, datatype, .. } => {
            assert_eq!(lexical, "42");
            assert!(datatype.ends_with("#integer"));
        }
        _ => panic!("expected literal"),
    }
}

#[test]
fn integer_literals_cover_the_extremes() {
    match Object::xsd_integer(i64::MIN) {
        Object::Literal { lexical, .. } => assert_eq!(lexical, "-9223372036854775808"),
        _ => panic!("expected literal"),
    }
    match Object::xsd_integer(0) {
        Object::Literal { lexical, .. } => assert_eq!(lexical, "0"),
        _ => panic!("expected literal"),
    }
}

#[test]
fn blank_node_helper() {
    match Subject::blank_n(7) {
        Subject::Blank(s) => assert_eq!(s, "n7"),
        _ => panic!("expected blank"),
    }
}

#[test]
fn adapter_error_messages() {
    assert_eq!(AdapterError::Parse("x".to_string()).message(), "parse error: x");
    assert_eq!(AdapterError::AnonymousNode("n".to_string()).message(), "anonymous node has no IRI: n");
    assert_eq!(AdapterError::UnsupportedValue("v".to_string()).message(), "unsupported value: v");
}

#[test]
fn writes_some_triples() {
    let nt = ntriples::write(&acme_only());
    assert!(nt.contains("<https://example.org/Acme>"));
    assert!(nt.contains("\"Acme\""));
    assert!(nt.contains("#type"));
}

#[test]
fn parses_simple_triples() {
    let nt = "<https://example.org/Acme> <http://www.w3.org/1999/02/22-rdf-syntax-ns#type> <http://www.w3.org/2002/07/owl#Class> .\n";
    let triples = ntriples::parse(nt).unwrap();
    assert_eq!(triples.len(), 1);
}

#[test]
fn parses_literal_with_datatype() {
    let nt = r#"<https://example.org/Acme> <http://example.org/name> "Acme"^^<http://www.w3.org/2001/XMLSchema#string> ."#;
    let triples = ntriples::parse(nt).unwrap();
    assert_eq!(triples.len(), 1);
    match &triples[0].object {
        Object::Literal { lexical, .. } => assert_eq!(lexical, "Acme"),
        _ => panic!("expected literal"),
    }
}

#[test]
fn parses_literal_with_language() {
    let nt = r#"<https://example.org/Acme> <http://example.org/label> "Acme"@en ."#;
    let triples = ntriples::parse(nt).unwrap();
    match &triples[0].object {
        Object::Literal { language, .. } => assert_eq!(language.as_deref(), Some("en")),
        _ => panic!("expected literal"),
    }
}

#[test]
fn parses_blank_node_subject() {
    let nt = "_:b0 <http://example.org/p> <http://example.org/o> .\n";
    let triples = ntriples::parse(nt).unwrap();
    assert!(matches!(triples[0].subject, Subject::Blank(_)));
}

#[test]
fn ntriples_round_trip_via_write_and_parse() {
    let nt = ntriples::write(&acme_only());
    let triples = ntriples::parse(&nt).unwrap();
    assert!(!triples.is_empty());
}

#[test]
fn skips_comments_and_blank_lines() {
    let nt = "# a comment\n\n<https://example.org/x> <http://example.org/p> <http://example.org/o> .\n# trailing\n";
    let triples = ntriples::parse(nt).unwrap();
    assert_eq!(triples.len(), 1);
}

#[test]
fn ntriples_escapes_and_unicode_escapes() {
    let nt = "<http://e/s> <http://e/p> \"a\\\"b\\n\\u00e9\\U0001F600\" .";
    let triples = ntriples::parse(nt).unwrap();
    match &triples[0].object {
        Object::Literal { lexical, datatype, language } => {
            assert_eq!(lexical, "a\"b\né\u{1F600}");
            assert_eq!(datatype, "http://www.w3.org/2001/XMLSchema#string");
            assert!(language.is_none());
        }
        _ => panic!("expected literal"),
    }
}

#[test]
fn ntriples_errors_carry_the_line_number() {
    let err = |s: &str| match ntriples::parse(s) {
        Err(AdapterError::Parse(m)) => m,
        other => panic!("expected parse error, got {other:?}"),
    };
    assert_eq!(err("<http://e/s> <http://e/p> <http://e/o>"), "line 1: missing trailing dot");
    assert_eq!(err("\n\"lit\" <http://e/p> <http://e/o> ."), "line 2: subject cannot be a literal");
    assert_eq!(err("<http://e/s> _:p <http://e/o> ."), "line 1: predicate must be an IRI");
    assert_eq!(err("<http://e/s> <http://e/p> \"x ."), "line 1: unterminated literal");
    assert_eq!(err("<http://e/s> <http://e/p> \"\\q\" ."), "line 1: unknown escape \\q");
    assert_eq!(err("<http://e/s> <http://e/p> \"\\u00zz\" ."), "line 1: invalid digit found in string");
    assert_eq!(err("<http://e/s> <http://e/p> <http://e/o> <http://e/x> ."), "line 1: trailing data after object");
    assert_eq!(err("x <http://e/p> <http://e/o> ."), "line 1: unexpected term start: Some('x')");
    assert_eq!(err("<http://e/s <http://e/p ."), "line 1: unterminated IRI");
    assert_eq!(err("<http://e/s> <http://e/p> ."), "line 1: expected term, got end of input");
}

#[test]
fn ntriples_read_imports_classes() {
    let nt = "<http://e/Org> <http://www.w3.org/1999/02/22-rdf-syntax-ns#type> <http://www.w3.org/2002/07/owl#Class> .\n";
    let o = ntriples::read(nt).unwrap();
    assert!(o.schema.node_type(&"Org".to_string()).is_some());
}

#[test]
fn ntriples_writes_escaped_literals_and_language_tags() {
    let triples = vec![Triple::new(
        Subject::Blank("b".to_string()),
        "http://e/p".to_string(),
        Object::Literal { lexical: "a\"b\\\n".to_string(), datatype: "x".to_string(), language: Some("en".to_string()) },
    )];
    assert_eq!(ntriples::write_triples(&triples), "_:b <http://e/p> \"a\\\"b\\\\\\n\"@en .\n");
}

fn turtle_fixture(label_iri: Option<&str>) -> Ontology {
    let mut o = Ontology::new();
    o.vocabulary = atomr_ontology::schema::Vocabulary::with_standard_bindings();
    o.schema.declare_node_type(
        NodeType::new("Organization".to_string())
            .with_iri("http://www.w3.org/ns/org#Organization".to_string())
            .with_property(name_property(label_iri)),
    );
    let mut acme = node_with_iri(1, "https://example.org/Acme", "Organization");
    acme.properties.push(Property { key: "name".to_string(), value: PropertyValue::String("Acme".to_string()) });
    o.upsert_node(acme);
    o
}

#[test]
fn writes_prefix_header_and_triples() {
    let ttl = atomr_ontology::turtle::write(&turtle_fixture(Some("http://www.w3.org/2000/01/rdf-schema#label")));
    assert!(ttl.contains("@prefix rdf:"));
    assert!(ttl.contains("org:Organization"));
    assert!(ttl.contains("\"Acme\""));
}

#[test]
fn parses_simple_turtle() {
    let ttl = "@prefix ex: <http://example.org/> .\n\nex:Acme <http://www.w3.org/1999/02/22-rdf-syntax-ns#type> ex:Org .\n";
    let triples = atomr_ontology::turtle::parse(ttl).unwrap();
    assert_eq!(triples.len(), 1);
}

#[test]
fn parses_literal_object() {
    let ttl = "@prefix ex: <http://example.org/> .\nex:Acme ex:name \"Acme\" .\n";
    let triples = atomr_ontology::turtle::parse(ttl).unwrap();
    match &triples[0].object {
        Object::Literal { lexical, .. } => assert_eq!(lexical, "Acme"),
        _ => panic!("expected literal"),
    }
}

#[test]
fn parses_predicate_object_list() {
    let ttl = "@prefix ex: <http://example.org/> .\nex:Acme a ex:Org ; ex:name \"Acme\" , \"ACME\" .\n";
    let triples = atomr_ontology::turtle::parse(ttl).unwrap();
    assert_eq!(triples.len(), 3);
}

#[test]
fn turtle_round_trip_via_write_and_parse() {
    let ttl = atomr_ontology::turtle::write(&turtle_fixture(None));
    let triples = atomr_ontology::turtle::parse(&ttl).unwrap();
    assert!(!triples.is_empty());
}

#[test]
fn turtle_reads_back_exactly_what_it_wrote() {
    let o = turtle_fixture(None);
    let ttl = atomr_ontology::turtle::write(&o);
    let back = atomr_ontology::turtle::parse(&ttl).unwrap();
    assert_eq!(ntriples::write_triples(&back), ntriples::write_triples(&to_rdf(&o)));
    let tricky = "@prefix ex: <http://example.org/> .\n\nex:a ex:p \"q\\\"uote\\\\ and\\nline\"@en .\n";
    let triples = atomr_ontology::turtle::parse(tricky).unwrap();
    match &triples[0].object {
        Object::Literal { lexical, .. } => assert_eq!(lexical, "q\"uote\\ and\nline"),
        _ => panic!("expected literal"),
    }
}

#[test]
fn turtle_expands_curies_and_skips_comments() {
    let ttl = "# header comment\n@prefix ex: <http://example.org/> . # trailing\nex:a ex:p ex:b ; # note\n ex:q \"x\"@en , \"1\"^^ex:int .\n";
    let triples = atomr_ontology::turtle::parse(ttl).unwrap();
    assert_eq!(triples.len(), 3);
    match &triples[0].subject {
        Subject::Iri(i) => assert_eq!(i, "http://example.org/a"),
        _ => panic!("expected iri"),
    }
    match &triples[0].object {
        Object::Iri(i) => assert_eq!(i, "http://example.org/b"),
        _ => panic!("expected iri"),
    }
    match &triples[1].object {
        Object::Literal { lexical, datatype, language } => {
            assert_eq!(lexical, "x");
            assert_eq!(datatype, "http://www.w3.org/1999/02/22-rdf-syntax-ns#langString");
            assert_eq!(language.as_deref(), Some("en"));
        }
        _ => panic!("expected literal"),
    }
    match &triples[2].object {
        Object::Literal { datatype, .. } => assert_eq!(datatype, "http://example.org/int"),
        _ => panic!("expected literal"),
    }
}

#[test]
fn turtle_errors() {
    let err = |s: &str| match atomr_ontology::turtle::parse(s) {
        Err(AdapterError::Parse(m)) => m,
        other => panic!("expected parse error, got {other:?}"),
    };
    assert_eq!(err("ex:a ex:p ex:b ."), "unknown prefix \"ex\"");
    assert_eq!(err("@prefix ex <e> ."), "missing ':' in @prefix");
    assert_eq!(err("@prefix ex: http://e/ ."), "expected <iri> after @prefix");
    assert_eq!(err("@prefix ex: <http://e/> ex:a ex:b ex:c ."), "expected '.' after @prefix");
    assert_eq!(err("<http://e/a> _:b <http://e/c> ."), "predicate must be an IRI");
    assert_eq!(err("<http://e/a> <http://e/b> <http://e/c>"), "expected ';' or '.' at: \"\"");
    assert_eq!(err("foo <http://e/b> <http://e/c> ."), "unrecognized token \"foo\"");
    assert_eq!(err("<http://e/a> <http://e/b> \"open ."), "unterminated literal");
}

#[test]
fn turtle_read_imports_classes() {
    let ttl = "@prefix owl: <http://www.w3.org/2002/07/owl#> .\n<http://e/Org> a owl:Class .\n";
    let o = atomr_ontology::turtle::read(ttl).unwrap();
    assert!(o.schema.node_type(&"Org".to_string()).is_some());
}

#[test]
fn turtle_compacts_iris_but_not_paths() {
    let triples = to_rdf(&turtle_fixture(None));
    assert!(!triples.is_empty());
    let ttl = atomr_ontology::turtle::write(&turtle_fixture(None));
    assert!(ttl.contains("<https://example.org/Acme>"));
    assert!(ttl.starts_with("@prefix rdf: <http://www.w3.org/1999/02/22-rdf-syntax-ns#> .\n"));
    assert!(ttl.contains("rdf:type owl:Class"));
}

use atomr_ontology::json::{JsonMember, JsonValue};
use atomr_ontology::jsonld;

fn jstr(s: &str) -> JsonValue {
    JsonValue::String(s.to_string())
}

fn jobj(members: Vec<(&str, JsonValue)>) -> JsonValue {
    JsonValue::Object(members.into_iter().map(|(k, v)| JsonMember { key: k.to_string(), value: v }).collect())
}

fn jget<'a>(v: &'a JsonValue, key: &str) -> Option<&'a JsonValue> {
    match v {
        JsonValue::Object(ms) => ms.iter().find(|m| m.key == key).map(|m| &m.value),
        _ => None,
    }
}

#[test]
fn produces_graph_doc() {
    let text = jsonld::write(&acme_only());
    let doc: serde_json::Value = serde_json::from_str(&text).unwrap();
    assert!(doc.get("@graph").is_some());
    assert!(!doc["@graph"].as_array().unwrap().is_empty());
}

#[test]
fn parses_minimal_doc() {
    let doc = r#"{
        "@context": { "ex": "http://example.org/" },
        "@graph": [
            {
                "@id": "ex:Acme",
                "http://example.org/name": [{"@value": "Acme"}]
            }
        ]
    }"#;
    let triples = jsonld::parse(doc).unwrap();
    assert!(!triples.is_empty());
}

#[test]
fn jsonld_round_trip_via_write_and_parse() {
    let doc = jsonld::write(&acme_only());
    let triples = jsonld::parse(&doc).unwrap();
    assert!(!triples.is_empty());
}

#[test]
fn jsonld_text_that_is_not_json_is_a_parse_error() {
    match jsonld::parse("{ not json") {
        Err(atomr_ontology::rdf::AdapterError::Parse(m)) => assert!(!m.is_empty()),
        other => panic!("expected Parse, got {other:?}"),
    }
    assert!(jsonld::read("[1,").is_err());
}

#[test]
fn jsonld_text_reads_the_document_it_holds() {
    let o = acme_only();
    let text = jsonld::write(&o);
    let from_text = jsonld::parse(&text).unwrap();
    let from_doc = jsonld::triples_of(&jsonld::document(&o));
    assert_eq!(from_text.len(), from_doc.len());
    let read = jsonld::read(&text).unwrap();
    assert!(read.nodes.is_empty());
}

#[test]
fn jsonld_groups_subjects_in_key_order() {
    let mut o = Ontology::new();
    o.upsert_node(node_with_iri(1, "https://example.org/b", "T"));
    o.upsert_node(node_with_iri(2, "https://example.org/a", "T"));
    let doc = jsonld::document(&o);
    let graph = match jget(&doc, "@graph").unwrap() {
        JsonValue::Array(items) => items,
        _ => panic!("expected array"),
    };
    assert_eq!(graph.len(), 2);
    let id0 = jget(&graph[0], "@id").unwrap();
    let id1 = jget(&graph[1], "@id").unwrap();
    assert!(matches!(id0, JsonValue::String(s) if s == "https://example.org/a"));
    assert!(matches!(id1, JsonValue::String(s) if s == "https://example.org/b"));
    let ctx = jget(&doc, "@context").unwrap();
    assert!(matches!(jget(ctx, "org"), Some(JsonValue::String(s)) if s == "http://www.w3.org/ns/org#"));
}

#[test]
fn jsonld_reads_literals_types_and_blank_ids() {
    let doc = jobj(vec![
        ("@context", jobj(vec![("ex", jstr("http://example.org/")), ("n", JsonValue::Number("1".to_string()))])),
        (
            "@graph",
            JsonValue::Array(vec![
                jobj(vec![
                    ("@id", jstr("_:b1")),
                    ("@type", jstr("ex:Org")),
                    (
                        "ex:p",
                        JsonValue::Array(vec![
                            jobj(vec![("@value", JsonValue::Number("42".to_string())), ("@type", jstr("ex:int"))]),
                            jobj(vec![("@value", jstr("hi")), ("@language", jstr("en"))]),
                            jobj(vec![("@id", jstr("_:b2"))]),
                            jstr("ignored"),
                        ]),
                    ),
                ]),
                jstr("not a node"),
            ]),
        ),
    ]);
    let triples = jsonld::triples_of(&doc);
    assert_eq!(triples.len(), 4);
    assert!(matches!(&triples[0].subject, Subject::Blank(l) if l == "b1"));
    assert_eq!(triples[0].predicate, "http://example.org/Org");
    assert_eq!(triples[1].predicate, "http://example.org/p");
    match &triples[1].object {
        Object::Literal { lexical, datatype, language } => {
            assert_eq!(lexical, "42");
            assert_eq!(datatype, "http://example.org/int");
            assert!(language.is_none());
        }
        _ => panic!("expected literal"),
    }
    match &triples[2].object {
        Object::Literal { datatype, language, .. } => {
            assert_eq!(datatype, "http://www.w3.org/1999/02/22-rdf-syntax-ns#langString");
            assert_eq!(language.as_deref(), Some("en"));
        }
        _ => panic!("expected literal"),
    }
    assert!(matches!(&triples[3].object, Object::Blank(l) if l == "b2"));
}

#[test]
fn jsonld_read_imports_classes() {
    let doc = jobj(vec![(
        "@graph",
        JsonValue::Array(vec![jobj(vec![
            ("@id", jstr("http://e/Org")),
            (
                "http://www.w3.org/1999/02/22-rdf-syntax-ns#type",
                JsonValue::Array(vec![jobj(vec![("@id", jstr("http://www.w3.org/2002/07/owl#Class"))])]),
            ),
        ])]),
    )]);
    let o = jsonld::read_document(&doc).unwrap();
    assert!(o.schema.node_type(&"Org".to_string()).is_some());
}

#[test]
fn jsonld_reads_back_every_written_triple() {
    let o = turtle_fixture(None);
    let doc = jsonld::document(&o);
    let back = jsonld::triples_of(&doc);
    let mut a: Vec<String> = ntriples::write_triples(&back).lines().map(String::from).collect();
    let mut b: Vec<String> = ntriples::write_triples(&to_rdf(&o)).lines().map(String::from).collect();
    a.sort();
    b.sort();
    assert_eq!(a, b);
}

#[test]
fn projection_lists_types_by_name_and_nodes_by_id() {
    let mut o = Ontology::new();
    o.schema.declare_node_type(NodeType::new("Zeta".to_string()));
    o.schema.declare_node_type(NodeType::new("Alpha".to_string()));
    o.upsert_node(node_with_iri(5, "https://example.org/Five", "Alpha"));
    o.upsert_node(node_with_iri(2, "https://example.org/Two", "Alpha"));
    let triples = to_rdf(&o);
    let subj = |t: &Triple| match &t.subject {
        Subject::Iri(i) => i.clone(),
        Subject::Blank(b) => b.clone(),
    };
    let pos = |needle: &str| triples.iter().position(|t| subj(t).ends_with(needle)).unwrap();
    assert!(pos("Alpha") < pos("Zeta"));
    assert!(pos("Two") < pos("Five"));
}
