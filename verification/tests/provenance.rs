use atomr_ontology::json::JsonValue;
use atomr_ontology::provenance::{Activity, AgentKind, AgentRef, ProvEntity, ProvenanceLog};

#[test]
fn record_activity_and_finish() {
    let mut log = ProvenanceLog::new();
    let agent = AgentRef::software("agent://term-extractor".to_string(), "TermExtractor".to_string());
    let act = Activity::started("term-extraction".to_string())
        .by_agent(agent.clone())
        .with_attribute("model".to_string(), JsonValue::String("gpt-4o".to_string()))
        .finish();
    let id = log.record_activity(act);
    let act_ref = log.activity(id).unwrap();
    assert!(act_ref.ended_at.is_some());
    assert_eq!(act_ref.agent.as_ref().unwrap().label, "TermExtractor");
}

#[test]
fn lineage_edges_accumulate() {
    let mut log = ProvenanceLog::new();
    let a = log.record_entity(ProvEntity::new("doc.txt".to_string(), None));
    let b = log.record_entity(ProvEntity::new("Term: ACME".to_string(), None));
    let act = log.record_activity(Activity::started("extract".to_string()));
    log.used(act, a);
    log.generated(b, act);
    log.derived(b, a);
    assert_eq!(log.uses.len(), 1);
    assert_eq!(log.generations.len(), 1);
    assert_eq!(log.derivations.len(), 1);
}

#[test]
fn recording_twice_under_one_id_replaces() {
    let mut log = ProvenanceLog::new();
    log.record_activity(Activity::begun(7, "first".to_string(), 10));
    log.record_activity(Activity::begun(7, "second".to_string(), 20));
    assert_eq!(log.activities.len(), 1);
    assert_eq!(log.activity(7).unwrap().label, "second");
    assert!(log.activity(8).is_none());
}

#[test]
fn finishing_at_a_time_and_attributes() {
    let a = Activity::begun(1, "x".to_string(), 5)
        .with_attribute("k".to_string(), JsonValue::Number("1".to_string()))
        .with_attribute("k".to_string(), JsonValue::Number("2".to_string()))
        .finish_at(9);
    assert_eq!(a.ended_at, Some(9));
    assert_eq!(a.started_at, 5);
    assert_eq!(a.attributes.len(), 1);
    assert!(matches!(&a.attributes[0].value, JsonValue::Number(t) if t == "2"));
}

#[test]
fn agent_constructors() {
    let p = AgentRef::person("mailto:a@b".to_string(), "A".to_string());
    assert_eq!(p.kind, AgentKind::Person);
    let s = AgentRef::software("agent://x".to_string(), "X".to_string());
    assert_eq!(s.kind, AgentKind::Software);
    assert_eq!(s.id, "agent://x");
}

#[test]
fn ledger_well_formedness_detects_duplicate_ids() {
    let mut log = ProvenanceLog::new();
    assert!(log.is_wf());
    log.record_activity(Activity::begun(1, "a".to_string(), 0));
    log.record_activity(Activity::begun(2, "b".to_string(), 0));
    assert!(log.is_wf());
    log.activities.push(Activity::begun(1, "again".to_string(), 5));
    assert!(!log.is_wf());
    let mut log2 = ProvenanceLog::new();
    log2.entities.push(ProvEntity::with_id(3, "x".to_string(), None));
    log2.entities.push(ProvEntity::with_id(3, "y".to_string(), None));
    assert!(!log2.is_wf());
}
