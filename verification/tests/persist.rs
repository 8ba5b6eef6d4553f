use atomr_ontology::checkpointer::store_failure_message;
use atomr_ontology::json::JsonValue;
use atomr_ontology::checkpointer::{
    state_from_snapshot, CheckpointerError, FileCheckpointer, MemCheckpointer, Snapshot, SqliteCheckpointer,
};
use atomr_ontology::model::{Axiom, AxiomKind, Edge, Node, Ontology, Property, PropertyValue};
use atomr_ontology::provenance::{Activity, AgentRef, ProvEntity, ProvenanceLog};
use atomr_ontology::store::{OntologyDelta, StoreState};
use atomr_ontology::wire::{decode_id, encode_id, HexFault, IdError, SnapshotWire};

fn org_with_name(id: u64, name: &str) -> Node {
    let mut n = Node::new(id, "Organization".to_string());
    n.properties.push(Property { key: "name".to_string(), value: PropertyValue::String(name.to_string()) });
    n
}

fn copy(s: &Snapshot) -> Snapshot {
    Snapshot::new(s.ontology.clone(), s.provenance.clone(), s.version)
}

#[test]
fn mem_checkpointer_round_trip() {
    let mut cp = MemCheckpointer::new();
    assert!(cp.load().is_none());

    let mut ontology = Ontology::new();
    ontology.upsert_node(org_with_name(1, "Acme"));
    let snap = Snapshot::new(ontology, ProvenanceLog::new(), 1);
    cp.save(snap);

    let loaded = cp.load().expect("snapshot present");
    assert_eq!(loaded.version, 1);
    assert_eq!(loaded.ontology.nodes.len(), 1);
}

#[test]
fn mem_checkpointer_overwrites_previous() {
    let mut cp = MemCheckpointer::new();
    let s1 = Snapshot::new(Ontology::new(), ProvenanceLog::new(), 1);
    let s2 = Snapshot::new(Ontology::new(), ProvenanceLog::new(), 2);
    cp.save(s1);
    cp.save(s2);
    let loaded = cp.load().unwrap();
    assert_eq!(loaded.version, 2);
}

#[test]
fn mem_checkpointer_label() {
    let cp = MemCheckpointer::new();
    assert_eq!(cp.label(), "memory");
}

#[test]
fn mem_checkpointer_starts_from_a_snapshot() {
    let cp = MemCheckpointer::with_snapshot(Snapshot::new(Ontology::new(), ProvenanceLog::new(), 9));
    assert_eq!(cp.load().unwrap().version, 9);
}

#[test]
fn file_and_sqlite_labels() {
    let f = FileCheckpointer::new("snap.json".to_string());
    assert_eq!(f.path(), "snap.json");
    assert_eq!(f.label(), "file:snap.json");
    let s = SqliteCheckpointer::new("snap.sqlite".to_string());
    assert_eq!(s.path(), "snap.sqlite");
    assert_eq!(s.label(), "sqlite:snap.sqlite");
}

#[test]
fn checkpointer_error_messages() {
    assert_eq!(CheckpointerError::Io("disk".to_string()).message(), "io error: disk");
    assert_eq!(CheckpointerError::Serialize("bad".to_string()).message(), "serialize error: bad");
    assert_eq!(CheckpointerError::Other("x".to_string()).message(), "checkpointer error: x");
}

#[test]
fn loads_empty_when_checkpointer_empty() {
    let cp = MemCheckpointer::new();
    let (o, log, version) = state_from_snapshot(cp.load().map(copy));
    assert_eq!(version, 0);
    assert_eq!(o.nodes.len(), 0);
    assert_eq!(log.activities.len(), 0);
}

#[test]
fn upsert_and_fetch() {
    let mut state = StoreState::new();
    let id = state.ontology.upsert_node(org_with_name(5, "Acme"));
    let got = state.ontology.nodes.iter().find(|n| n.id == id).unwrap();
    assert_eq!(got.id, id);
}

#[test]
fn commit_flushes_to_checkpointer_and_reloads() {
    let mut cp = MemCheckpointer::new();
    let mut state = StoreState::new();
    let delta = OntologyDelta::new().with_node(org_with_name(1, "Acme"));
    let activity = Activity::started("commit-test".to_string());
    let pid = state.commit_with_provenance(delta, activity);

    assert!(state.provenance.activities.iter().any(|a| a.id == pid));
    assert_eq!(state.version, 1);

    cp.save(Snapshot::new(state.ontology.clone(), state.provenance.clone(), state.version));
    let snap = cp.load().expect("snapshot present after commit");
    assert_eq!(snap.version, 1);
    assert_eq!(snap.ontology.nodes.len(), 1);
    assert!(snap.provenance.activities.iter().any(|a| a.id == pid));

    let (o2, log2, v2) = state_from_snapshot(cp.load().map(copy));
    assert_eq!(v2, 1);
    assert_eq!(o2.nodes.len(), 1);
    assert!(log2.activities.iter().any(|a| a.id == pid));
}

#[test]
fn multiple_commits_increment_version() {
    let mut cp = MemCheckpointer::new();
    let mut state = StoreState::new();
    for i in 0..3u64 {
        let mut n = Node::new(i + 1, "Organization".to_string());
        n.properties.push(Property { key: "seq".to_string(), value: PropertyValue::Integer(i as i64) });
        let delta = OntologyDelta::new().with_node(n);
        let activity = Activity::started(format!("commit-{i}"));
        state.commit_with_provenance(delta, activity);
        cp.save(Snapshot::new(state.ontology.clone(), state.provenance.clone(), state.version));
    }
    assert_eq!(state.version, 3);
    let snap = cp.load().unwrap();
    assert_eq!(snap.version, 3);
    assert_eq!(snap.ontology.nodes.len(), 3);
}

#[test]
fn from_memory_skips_initial_load() {
    let mut o = Ontology::new();
    o.upsert_node(Node::new(1, "Organization".to_string()));
    let mut cp = MemCheckpointer::with_snapshot(Snapshot::new(o, ProvenanceLog::new(), 7));

    let mut state = StoreState::new();
    assert_eq!(state.version, 0);
    assert_eq!(state.ontology.nodes.len(), 0);

    let delta = OntologyDelta::new().with_node(Node::new(2, "Organization".to_string()));
    state.commit_with_provenance(delta, Activity::started("first".to_string()));
    cp.save(Snapshot::new(state.ontology.clone(), state.provenance.clone(), state.version));
    let snap = cp.load().unwrap();
    assert_eq!(snap.version, 1);
    assert_eq!(snap.ontology.nodes.len(), 1);
}

#[test]
fn commit_stamps_axioms_with_the_activity() {
    let mut state = StoreState::new();
    let delta = OntologyDelta::new()
        .with_axiom(Axiom::new(AxiomKind::Transitive { property: "ancestorOf".to_string() }))
        .with_edge(Edge::between(1, "knows".to_string(), 2));
    let pid = state.commit_with_provenance(delta, Activity::started("stamp".to_string()));
    assert_eq!(state.ontology.axioms.len(), 1);
    assert_eq!(state.ontology.axioms[0].provenance, Some(pid));
    assert_eq!(state.ontology.edges.len(), 1);
}

#[test]
fn commit_upserts_an_existing_node() {
    let mut state = StoreState::new();
    state.commit_with_provenance(OntologyDelta::new().with_node(org_with_name(1, "Acme")), Activity::started("a".to_string()));
    state.commit_with_provenance(OntologyDelta::new().with_node(org_with_name(1, "Acme Corp")), Activity::started("b".to_string()));
    assert_eq!(state.ontology.nodes.len(), 1);
    assert_eq!(state.version, 2);
    assert_eq!(state.provenance.activities.len(), 2);
}

#[test]
fn snapshot_json_round_trip() {
    let mut o = Ontology::with_iri("https://example.org/ontology".to_string());
    let acme_id = o.upsert_node(org_with_name(acme_u64_id(), "Acme"));
    let bob = o.upsert_node(org_with_name(2, "Bob"));
    let mut e = Edge::between(bob, "memberOf".to_string(), acme_id);
    e.properties.push(Property { key: "since".to_string(), value: PropertyValue::Integer(2020) });
    o.upsert_edge(e);
    o.upsert_axiom(Axiom::new(AxiomKind::SubClassOf {
        sub: "FormalOrganization".to_string(),
        sup: "Organization".to_string(),
    }));

    let mut prov = ProvenanceLog::new();
    let agent = AgentRef::software("agent://t".to_string(), "T".to_string());
    let act = Activity::started("test".to_string())
        .by_agent(agent.clone())
        .with_attribute("model".to_string(), JsonValue::String("gpt".to_string()))
        .finish();
    let act_id = prov.record_activity(act);
    let e1 = prov.record_entity(ProvEntity::new("doc.txt".to_string(), Some("deadbeef".to_string())));
    let e2 = prov.record_entity(ProvEntity::new("Term".to_string(), None));
    prov.used(act_id, e1);
    prov.generated(e2, act_id);
    prov.derived(e2, e1);
    prov.attributed(e2, agent);

    let snap = Snapshot::new(o, prov, 7);
    let wire = SnapshotWire::from_snapshot(snap);
    let parsed = wire.into_snapshot().expect("deserialize");
    assert_eq!(parsed.version, 7);
    assert_eq!(parsed.ontology.nodes.len(), 2);
    assert_eq!(parsed.ontology.edges.len(), 1);
    assert_eq!(parsed.ontology.axioms.len(), 1);
    assert_eq!(parsed.provenance.activities.len(), 1);
    assert_eq!(parsed.provenance.entities.len(), 2);
    assert_eq!(parsed.provenance.uses.len(), 1);
    assert_eq!(parsed.provenance.generations.len(), 1);
    assert_eq!(parsed.provenance.derivations.len(), 1);
    assert_eq!(parsed.provenance.attributions.len(), 1);
    assert!(parsed.ontology.nodes.iter().any(|n| n.id == acme_id));
    assert!(parsed.provenance.activities.iter().any(|a| a.id == act_id));
}

fn acme_u64_id() -> u64 {
    0xac3e
}

#[test]
fn ids_travel_as_thirty_two_bytes_of_hex() {
    let text = encode_id(0x0102_0304_0506_07ff);
    assert_eq!(text.len(), 64);
    assert_eq!(text, format!("{}{}", "0".repeat(48), "01020304050607ff"));
    assert_eq!(decode_id(&text), Ok(0x0102_0304_0506_07ff));
    assert_eq!(decode_id(&encode_id(u64::MAX)), Ok(u64::MAX));
}

#[test]
fn malformed_ids_are_refused_with_a_reason() {
    let bad = decode_id(&"zz".to_string()).unwrap_err();
    assert_eq!(bad, IdError::InvalidHex(HexFault::InvalidHexCharacter { c: 'z', index: 0 }));
    assert_eq!(bad.message(), "invalid hex id: Invalid character 'z' at position 0");
    let odd = decode_id(&"abc".to_string()).unwrap_err();
    assert_eq!(odd, IdError::InvalidHex(HexFault::OddLength));
    assert_eq!(odd.message(), "invalid hex id: Odd number of digits");
    assert_eq!(decode_id(&"0102".to_string()), Err(IdError::WrongLength { got: 2 }));
    assert_eq!(IdError::WrongLength { got: 2 }.message(), "expected 32-byte id, got 2 bytes");
    let wide = format!("01{}", "0".repeat(62));
    assert_eq!(decode_id(&wide), Err(IdError::TooWide));
}

#[test]
fn store_failure_message_names_the_checkpointer() {
    let m = store_failure_message("file", &CheckpointerError::Io("disk full".to_string()));
    assert_eq!(m, "checkpointer(file): io error: disk full");
}
