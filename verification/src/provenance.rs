//! PROV-O-aligned provenance: activities, agents, entities and lineage
//! records, collected in an in-memory ledger.
use std::hash::BuildHasher;

use vstd::prelude::*;

use crate::json::JsonValue;
use crate::model::ProvenanceId;

verus! {

/// Calls `std::collections::hash_map::RandomState::new().hash_one(..)`: a
/// value drawn from the per-process random hasher keys. Nothing is stated of
/// the result: it is random.
#[verifier::external_body]
fn random_id() -> ProvenanceId {
    std::collections::hash_map::RandomState::new().hash_one(0u8)
}

/// Calls `chrono::Utc::now()` and returns its `timestamp_millis()`, the
/// milliseconds since the Unix epoch. Nothing is stated of the result: it is
/// the clock's reading.
#[verifier::external_body]
fn now_millis() -> i64 {
    chrono::Utc::now().timestamp_millis()
}

/// PROV-O agent kind.
#[derive(Clone, Copy, Debug, PartialEq, Eq, Structural, Hash)]
pub enum AgentKind {
    /// A human author.
    Person,
    /// A software agent.
    Software,
    /// An organization.
    Organization,
}

/// Reference to a PROV-O agent.
#[derive(Clone, Debug)]
pub struct AgentRef {
    /// Stable identifier (free-form, e.g. `"agent://term-extractor"`).
    pub id: String,
    /// Agent kind.
    pub kind: AgentKind,
    /// Human-readable label.
    pub label: String,
}

impl AgentRef {
    /// A software-agent reference.
    pub fn software(id: String, label: String) -> (r: AgentRef)
        ensures
            r.id@ == id@,
            r.kind == AgentKind::Software,
            r.label@ == label@,
    {
        AgentRef { id, kind: AgentKind::Software, label }
    }

    /// A person reference.
    pub fn person(id: String, label: String) -> (r: AgentRef)
        ensures
            r.id@ == id@,
            r.kind == AgentKind::Person,
            r.label@ == label@,
    {
        AgentRef { id, kind: AgentKind::Person, label }
    }

    /// A copy with the same identifier, kind and label.
    pub fn duplicate(&self) -> (r: AgentRef)
        ensures
            r.id@ == self.id@,
            r.kind == self.kind,
            r.label@ == self.label@,
    {
        AgentRef { id: self.id.clone(), kind: self.kind, label: self.label.clone() }
    }
}

/// A free-form attribute of an activity or entity.
#[derive(Clone, Debug)]
pub struct Attribute {
    pub key: String,
    pub value: JsonValue,
}

/// `true` when `i` is the first position of `s` whose key is `key`.
pub open spec fn first_key_at(s: Seq<Attribute>, key: Seq<char>, i: int) -> bool {
    0 <= i < s.len() && s[i].key@ == key && forall|j: int| 0 <= j < i ==> s[j].key@ != key
}

/// `true` when `s` holds an entry with key `key`.
pub open spec fn has_key(s: Seq<Attribute>, key: Seq<char>) -> bool {
    exists|i: int| 0 <= i < s.len() && s[i].key@ == key
}

/// `after` is `before` with the attribute `key` set to `value`: an existing
/// entry with that key (the first) takes the value in place, otherwise the
/// entry is appended.
pub open spec fn attribute_set(
    before: Seq<Attribute>,
    after: Seq<Attribute>,
    key: String,
    value: JsonValue,
) -> bool {
    if has_key(before, key@) {
        exists|i: int|
            first_key_at(before, key@, i) && after == before.update(
                i,
                Attribute { key: before[i].key, value },
            )
    } else {
        after == before.push(Attribute { key, value })
    }
}

/// Insert or replace the attribute `key` in `attrs`.
pub fn set_attribute(attrs: &mut Vec<Attribute>, key: String, value: JsonValue)
    ensures
        attribute_set(old(attrs)@, final(attrs)@, key, value),
{
    let mut i: usize = 0;
    while i < attrs.len()
        invariant
            attrs@ == old(attrs)@,
            i <= attrs.len(),
            forall|j: int| 0 <= j < i ==> attrs@[j].key@ != key@,
        decreases attrs.len() - i,
    {
        if attrs[i].key == key {
            let k = attrs[i].key.clone();
            let ghost before = attrs@;
            attrs.set(i, Attribute { key: k, value });
            assert(first_key_at(before, key@, i as int));
            return;
        }
        i = i + 1;
    }
    attrs.push(Attribute { key, value });
}

/// A PROV-O activity. Times are milliseconds since the Unix epoch.
#[derive(Clone, Debug)]
pub struct Activity {
    /// Stable identifier.
    pub id: ProvenanceId,
    /// Human-readable label.
    pub label: String,
    /// Activity start.
    pub started_at: i64,
    /// Activity end (`None` while running).
    pub ended_at: Option<i64>,
    /// The agent responsible for the activity.
    pub agent: Option<AgentRef>,
    /// Free-form attributes (provider, model, pipeline stage, …).
    pub attributes: Vec<Attribute>,
}

impl Activity {
    /// A running activity with the given identity and start time.
    pub fn begun(id: ProvenanceId, label: String, started_at: i64) -> (r: Activity)
        ensures
            r.id == id,
            r.label@ == label@,
            r.started_at == started_at,
            r.ended_at.is_none(),
            r.agent.is_none(),
            r.attributes@.len() == 0,
    {
        Activity { id, label, started_at, ended_at: None, agent: None, attributes: Vec::new() }
    }

    /// A freshly started activity: a random identifier, started now.
    pub fn started(label: String) -> (r: Activity)
        ensures
            r.label@ == label@,
            r.ended_at.is_none(),
            r.agent.is_none(),
            r.attributes@.len() == 0,
    {
        Activity::begun(random_id(), label, now_millis())
    }

    /// Mark the activity finished at `at`.
    pub fn finish_at(self, at: i64) -> (r: Activity)
        ensures
            r.id == self.id,
            r.label == self.label,
            r.started_at == self.started_at,
            r.ended_at == Some(at),
            r.agent == self.agent,
            r.attributes == self.attributes,
    {
        Activity { ended_at: Some(at), ..self }
    }

    /// Mark the activity finished now.
    pub fn finish(self) -> (r: Activity)
        ensures
            r.id == self.id,
            r.label == self.label,
            r.started_at == self.started_at,
            r.ended_at.is_some(),
            r.agent == self.agent,
            r.attributes == self.attributes,
    {
        let now = now_millis();
        self.finish_at(now)
    }

    /// Attach an attribute, replacing an earlier value under the same key.
    pub fn with_attribute(self, key: String, value: JsonValue) -> (r: Activity)
        ensures
            r.id == self.id,
            r.label == self.label,
            r.started_at == self.started_at,
            r.ended_at == self.ended_at,
            r.agent == self.agent,
            attribute_set(self.attributes@, r.attributes@, key, value),
    {
        let mut attributes = self.attributes;
        set_attribute(&mut attributes, key, value);
        Activity { attributes, ..self }
    }

    /// Attach an agent reference.
    pub fn by_agent(self, agent: AgentRef) -> (r: Activity)
        ensures
            r.id == self.id,
            r.label == self.label,
            r.started_at == self.started_at,
            r.ended_at == self.ended_at,
            r.agent == Some(agent),
            r.attributes == self.attributes,
    {
        Activity { agent: Some(agent), ..self }
    }
}

/// A PROV-O entity: a snapshot of data that took part in an activity.
#[derive(Clone, Debug)]
pub struct ProvEntity {
    /// Stable identifier.
    pub id: ProvenanceId,
    /// Human-readable label.
    pub label: String,
    /// Optional content digest.
    pub digest: Option<String>,
    /// Free-form attributes.
    pub attributes: Vec<Attribute>,
}

impl ProvEntity {
    /// An entity with the given identity, label and optional digest.
    pub fn with_id(id: ProvenanceId, label: String, digest: Option<String>) -> (r: ProvEntity)
        ensures
            r.id == id,
            r.label == label,
            r.digest == digest,
            r.attributes@.len() == 0,
    {
        ProvEntity { id, label, digest, attributes: Vec::new() }
    }

    /// A new entity with a random identifier.
    pub fn new(label: String, digest: Option<String>) -> (r: ProvEntity)
        ensures
            r.label == label,
            r.digest == digest,
            r.attributes@.len() == 0,
    {
        ProvEntity::with_id(random_id(), label, digest)
    }
}

/// `prov:wasGeneratedBy` — an entity was produced by an activity.
#[derive(Clone, Copy, Debug, PartialEq, Eq, Structural, Hash)]
pub struct WasGeneratedBy {
    pub entity: ProvenanceId,
    pub activity: ProvenanceId,
}

/// `prov:wasDerivedFrom` — an entity is derived from another entity.
#[derive(Clone, Copy, Debug, PartialEq, Eq, Structural, Hash)]
pub struct WasDerivedFrom {
    pub derived: ProvenanceId,
    pub source: ProvenanceId,
}

/// `prov:wasAttributedTo` — an entity is attributed to an agent.
#[derive(Clone, Debug)]
pub struct WasAttributedTo {
    pub entity: ProvenanceId,
    pub agent: AgentRef,
}

/// `prov:used` — an activity consumed an entity.
#[derive(Clone, Copy, Debug, PartialEq, Eq, Structural, Hash)]
pub struct Used {
    pub activity: ProvenanceId,
    pub entity: ProvenanceId,
}

/// In-memory provenance ledger. Activities and entities are keyed by
/// their identifiers: no two share one.
#[derive(Clone, Debug)]
pub struct ProvenanceLog {
    pub activities: Vec<Activity>,
    pub entities: Vec<ProvEntity>,
    pub generations: Vec<WasGeneratedBy>,
    pub derivations: Vec<WasDerivedFrom>,
    pub attributions: Vec<WasAttributedTo>,
    pub uses: Vec<Used>,
}

/// The activities of a ledger keyed by identifier.
pub open spec fn activity_map(s: Seq<Activity>) -> Map<ProvenanceId, Activity> {
    Map::new(
        |id: ProvenanceId| exists|i: int| 0 <= i < s.len() && s[i].id == id,
        |id: ProvenanceId| s[choose|i: int| 0 <= i < s.len() && s[i].id == id],
    )
}

/// The entities of a ledger keyed by identifier.
pub open spec fn entity_map(s: Seq<ProvEntity>) -> Map<ProvenanceId, ProvEntity> {
    Map::new(
        |id: ProvenanceId| exists|i: int| 0 <= i < s.len() && s[i].id == id,
        |id: ProvenanceId| s[choose|i: int| 0 <= i < s.len() && s[i].id == id],
    )
}

impl ProvenanceLog {
    /// No two activities and no two entities share an identifier.
    pub open spec fn wf(&self) -> bool {
        &&& forall|i: int, j: int|
            0 <= i < j < self.activities@.len() ==> self.activities@[i].id != self.activities@[j].id
        &&& forall|i: int, j: int|
            0 <= i < j < self.entities@.len() ==> self.entities@[i].id != self.entities@[j].id
    }

    /// An empty ledger.
    pub fn new() -> (r: ProvenanceLog)
        ensures
            r.wf(),
            r.activities@.len() == 0,
            r.entities@.len() == 0,
            r.generations@.len() == 0,
            r.derivations@.len() == 0,
            r.attributions@.len() == 0,
            r.uses@.len() == 0,
    {
        ProvenanceLog {
            activities: Vec::new(),
            entities: Vec::new(),
            generations: Vec::new(),
            derivations: Vec::new(),
            attributions: Vec::new(),
            uses: Vec::new(),
        }
    }

    /// `true` when no two activities and no two entities share an identifier.
    pub fn is_wf(&self) -> (r: bool)
        ensures
            r == self.wf(),
    {
        let n = self.activities.len();
        let mut i: usize = 0;
        while i < n
            invariant
                i <= n,
                n == self.activities@.len(),
                forall|a: int, b: int| 0 <= a < i && a < b < n ==> self.activities@[a].id != self.activities@[b].id,
            decreases n - i,
        {
            let mut j: usize = i + 1;
            while j < n
                invariant
                    i < n,
                    i < j <= n,
                    n == self.activities@.len(),
                    forall|a: int, b: int| 0 <= a < i && a < b < n ==> self.activities@[a].id != self.activities@[b].id,
                    forall|b: int| i < b < j ==> self.activities@[i as int].id != self.activities@[b].id,
                decreases n - j,
            {
                if self.activities[i].id == self.activities[j].id {
                    return false;
                }
                j = j + 1;
            }
            i = i + 1;
        }
        let m = self.entities.len();
        let mut i: usize = 0;
        while i < m
            invariant
                i <= m,
                m == self.entities@.len(),
                n == self.activities@.len(),
                forall|a: int, b: int| 0 <= a < b < n ==> self.activities@[a].id != self.activities@[b].id,
                forall|a: int, b: int| 0 <= a < i && a < b < m ==> self.entities@[a].id != self.entities@[b].id,
            decreases m - i,
        {
            let mut j: usize = i + 1;
            while j < m
                invariant
                    i < m,
                    i < j <= m,
                    m == self.entities@.len(),
                    forall|a: int, b: int| 0 <= a < i && a < b < m ==> self.entities@[a].id != self.entities@[b].id,
                    forall|b: int| i < b < j ==> self.entities@[i as int].id != self.entities@[b].id,
                decreases m - j,
            {
                if self.entities[i].id == self.entities[j].id {
                    return false;
                }
                j = j + 1;
            }
            i = i + 1;
        }
        true
    }

    /// Record an activity, replacing one with the same identifier; returns its id.
    pub fn record_activity(&mut self, activity: Activity) -> (id: ProvenanceId)
        requires
            old(self).wf(),
        ensures
            id == activity.id,
            final(self).wf(),
            activity_map(final(self).activities@) == activity_map(old(self).activities@).insert(id, activity),
            final(self).entities == old(self).entities,
            final(self).generations == old(self).generations,
            final(self).derivations == old(self).derivations,
            final(self).attributions == old(self).attributions,
            final(self).uses == old(self).uses,
    {
        let id = activity.id;
        let ghost s0 = self.activities@;
        let mut i: usize = 0;
        while i < self.activities.len()
            invariant
                self.activities@ == s0,
                s0 == old(self).activities@,
                id == activity.id,
                old(self).wf(),
                self.entities == old(self).entities,
                self.generations == old(self).generations,
                self.derivations == old(self).derivations,
                self.attributions == old(self).attributions,
                self.uses == old(self).uses,
                i <= s0.len(),
                forall|j: int| 0 <= j < i ==> s0[j].id != id,
            decreases s0.len() - i,
        {
            if self.activities[i].id == id {
                let ghost act = activity;
                self.activities.set(i, activity);
                let ghost s1 = self.activities@;
                assert(s1 == s0.update(i as int, act));
                assert(s1[i as int] == act);
                assert(act.id == id);
                assert(activity_map(s1) =~= activity_map(s0).insert(id, act)) by {
                    assert forall|k: ProvenanceId| activity_map(s1).contains_key(k) implies activity_map(s0).insert(id, act).contains_key(k) by {
                        let j = choose|j: int| 0 <= j < s1.len() && s1[j].id == k;
                        if j != i {
                            assert(s0[j].id == k);
                        }
                    }
                    assert forall|k: ProvenanceId| activity_map(s0).insert(id, act).contains_key(k) implies activity_map(s1).contains_key(k) by {
                        if k == id {
                            assert(s1[i as int].id == k);
                        } else {
                            let j = choose|j: int| 0 <= j < s0.len() && s0[j].id == k;
                            assert(s1[j].id == k);
                        }
                    }
                    assert forall|k: ProvenanceId| #[trigger] activity_map(s1).contains_key(k) implies activity_map(s1)[k] == activity_map(s0).insert(id, act)[k] by {
                        let j1 = choose|j: int| 0 <= j < s1.len() && s1[j].id == k;
                        if k == id {
                            assert(j1 == i);
                        } else {
                            let j0 = choose|j: int| 0 <= j < s0.len() && s0[j].id == k;
                            assert(j0 == j1);
                        }
                    }
                }
                return id;
            }
            i = i + 1;
        }
        self.activities.push(activity);
        let ghost s1 = self.activities@;
        assert(activity_map(s1) =~= activity_map(s0).insert(id, activity)) by {
            assert forall|k: ProvenanceId| activity_map(s1).contains_key(k) implies activity_map(s0).insert(id, activity).contains_key(k) by {
                let j = choose|j: int| 0 <= j < s1.len() && s1[j].id == k;
                if j < s0.len() {
                    assert(s0[j].id == k);
                }
            }
            assert forall|k: ProvenanceId| activity_map(s0).insert(id, activity).contains_key(k) implies activity_map(s1).contains_key(k) by {
                if k == id {
                    assert(s1[s0.len() as int].id == k);
                } else {
                    let j = choose|j: int| 0 <= j < s0.len() && s0[j].id == k;
                    assert(s1[j].id == k);
                }
            }
            assert forall|k: ProvenanceId| #[trigger] activity_map(s1).contains_key(k) implies activity_map(s1)[k] == activity_map(s0).insert(id, activity)[k] by {
                let j1 = choose|j: int| 0 <= j < s1.len() && s1[j].id == k;
                if k == id {
                    assert(j1 == s0.len());
                } else {
                    let j0 = choose|j: int| 0 <= j < s0.len() && s0[j].id == k;
                    assert(j0 == j1);
                }
            }
        }
        id
    }

    /// Record an entity, replacing one with the same identifier; returns its id.
    pub fn record_entity(&mut self, entity: ProvEntity) -> (id: ProvenanceId)
        requires
            old(self).wf(),
        ensures
            id == entity.id,
            final(self).wf(),
            entity_map(final(self).entities@) == entity_map(old(self).entities@).insert(id, entity),
            final(self).activities == old(self).activities,
            final(self).generations == old(self).generations,
            final(self).derivations == old(self).derivations,
            final(self).attributions == old(self).attributions,
            final(self).uses == old(self).uses,
    {
        let id = entity.id;
        let ghost s0 = self.entities@;
        let mut i: usize = 0;
        while i < self.entities.len()
            invariant
                self.entities@ == s0,
                s0 == old(self).entities@,
                id == entity.id,
                old(self).wf(),
                self.activities == old(self).activities,
                self.generations == old(self).generations,
                self.derivations == old(self).derivations,
                self.attributions == old(self).attributions,
                self.uses == old(self).uses,
                i <= s0.len(),
                forall|j: int| 0 <= j < i ==> s0[j].id != id,
            decreases s0.len() - i,
        {
            if self.entities[i].id == id {
                let ghost ent = entity;
                self.entities.set(i, entity);
                let ghost s1 = self.entities@;
                assert(s1 == s0.update(i as int, ent));
                assert(s1[i as int] == ent);
                assert(ent.id == id);
                assert(entity_map(s1) =~= entity_map(s0).insert(id, ent)) by {
                    assert forall|k: ProvenanceId| entity_map(s1).contains_key(k) implies entity_map(s0).insert(id, ent).contains_key(k) by {
                        let j = choose|j: int| 0 <= j < s1.len() && s1[j].id == k;
                        if j != i {
                            assert(s0[j].id == k);
                        }
                    }
                    assert forall|k: ProvenanceId| entity_map(s0).insert(id, ent).contains_key(k) implies entity_map(s1).contains_key(k) by {
                        if k == id {
                            assert(s1[i as int].id == k);
                        } else {
                            let j = choose|j: int| 0 <= j < s0.len() && s0[j].id == k;
                            assert(s1[j].id == k);
                        }
                    }
                    assert forall|k: ProvenanceId| #[trigger] entity_map(s1).contains_key(k) implies entity_map(s1)[k] == entity_map(s0).insert(id, ent)[k] by {
                        let j1 = choose|j: int| 0 <= j < s1.len() && s1[j].id == k;
                        if k == id {
                            assert(j1 == i);
                        } else {
                            let j0 = choose|j: int| 0 <= j < s0.len() && s0[j].id == k;
                            assert(j0 == j1);
                        }
                    }
                }
                return id;
            }
            i = i + 1;
        }
        self.entities.push(entity);
        let ghost s1 = self.entities@;
        assert(entity_map(s1) =~= entity_map(s0).insert(id, entity)) by {
            assert forall|k: ProvenanceId| entity_map(s1).contains_key(k) implies entity_map(s0).insert(id, entity).contains_key(k) by {
                let j = choose|j: int| 0 <= j < s1.len() && s1[j].id == k;
                if j < s0.len() {
                    assert(s0[j].id == k);
                }
            }
            assert forall|k: ProvenanceId| entity_map(s0).insert(id, entity).contains_key(k) implies entity_map(s1).contains_key(k) by {
                if k == id {
                    assert(s1[s0.len() as int].id == k);
                } else {
                    let j = choose|j: int| 0 <= j < s0.len() && s0[j].id == k;
                    assert(s1[j].id == k);
                }
            }
            assert forall|k: ProvenanceId| #[trigger] entity_map(s1).contains_key(k) implies entity_map(s1)[k] == entity_map(s0).insert(id, entity)[k] by {
                let j1 = choose|j: int| 0 <= j < s1.len() && s1[j].id == k;
                if k == id {
                    assert(j1 == s0.len());
                } else {
                    let j0 = choose|j: int| 0 <= j < s0.len() && s0[j].id == k;
                    assert(j0 == j1);
                }
            }
        }
        id
    }

    /// The activity recorded under `id`, if any.
    pub fn activity(&self, id: ProvenanceId) -> (r: Option<&Activity>)
        requires
            self.wf(),
        ensures
            match r {
                Some(a) => activity_map(self.activities@).contains_key(id) && activity_map(self.activities@)[id] == *a,
                None => !activity_map(self.activities@).contains_key(id),
            },
    {
        let mut i: usize = 0;
        while i < self.activities.len()
            invariant
                i <= self.activities@.len(),
                self.wf(),
                forall|j: int| 0 <= j < i ==> self.activities@[j].id != id,
            decreases self.activities@.len() - i,
        {
            if self.activities[i].id == id {
                assert(activity_map(self.activities@).contains_key(id));
                let ghost k = choose|k: int| 0 <= k < self.activities@.len() && self.activities@[k].id == id;
                assert(k == i);
                return Some(&self.activities[i]);
            }
            i = i + 1;
        }
        None
    }

    /// Append a `wasGeneratedBy` record.
    pub fn generated(&mut self, entity: ProvenanceId, activity: ProvenanceId)
        ensures
            final(self).generations@ == old(self).generations@.push(WasGeneratedBy { entity, activity }),
            final(self).activities == old(self).activities,
            final(self).entities == old(self).entities,
            final(self).derivations == old(self).derivations,
            final(self).attributions == old(self).attributions,
            final(self).uses == old(self).uses,
    {
        self.generations.push(WasGeneratedBy { entity, activity });
    }

    /// Append a `wasDerivedFrom` record.
    pub fn derived(&mut self, derived: ProvenanceId, source: ProvenanceId)
        ensures
            final(self).derivations@ == old(self).derivations@.push(WasDerivedFrom { derived, source }),
            final(self).activities == old(self).activities,
            final(self).entities == old(self).entities,
            final(self).generations == old(self).generations,
            final(self).attributions == old(self).attributions,
            final(self).uses == old(self).uses,
    {
        self.derivations.push(WasDerivedFrom { derived, source });
    }

    /// Append a `wasAttributedTo` record.
    pub fn attributed(&mut self, entity: ProvenanceId, agent: AgentRef)
        ensures
            final(self).attributions@ == old(self).attributions@.push(WasAttributedTo { entity, agent }),
            final(self).activities == old(self).activities,
            final(self).entities == old(self).entities,
            final(self).generations == old(self).generations,
            final(self).derivations == old(self).derivations,
            final(self).uses == old(self).uses,
    {
        self.attributions.push(WasAttributedTo { entity, agent });
    }

    /// Append a `used` record.
    pub fn used(&mut self, activity: ProvenanceId, entity: ProvenanceId)
        ensures
            final(self).uses@ == old(self).uses@.push(Used { activity, entity }),
            final(self).activities == old(self).activities,
            final(self).entities == old(self).entities,
            final(self).generations == old(self).generations,
            final(self).derivations == old(self).derivations,
            final(self).attributions == old(self).attributions,
    {
        self.uses.push(Used { activity, entity });
    }
}

} // verus!
