//! Snapshots and the checkpointers that persist them.
//!
//! A [`Snapshot`] is an ontology, its provenance ledger and a version.
//! The checkpointers here hold what is decidable without I/O: the
//! in-memory slot of [`MemCheckpointer`], and the destination and label
//! of [`FileCheckpointer`] and [`SqliteCheckpointer`].
use vstd::prelude::*;

use crate::model::Ontology;
use crate::provenance::ProvenanceLog;

verus! {

/// One persisted state of a store.
#[derive(Debug)]
pub struct Snapshot {
    /// The ontology.
    pub ontology: Ontology,
    /// The provenance ledger live when the snapshot was taken.
    pub provenance: ProvenanceLog,
    /// Monotonic version; newer versions supersede older ones.
    pub version: u64,
}

impl Snapshot {
    /// A snapshot from its parts.
    pub fn new(ontology: Ontology, provenance: ProvenanceLog, version: u64) -> (r: Snapshot)
        ensures
            r.ontology == ontology,
            r.provenance == provenance,
            r.version == version,
    {
        Snapshot { ontology, provenance, version }
    }
}

/// Errors raised by checkpointers.
#[derive(Debug, Clone, PartialEq, Eq)]
pub enum CheckpointerError {
    /// An I/O error reached the checkpointer (file, socket, db handle).
    Io(String),
    /// A (de)serialization error occurred.
    Serialize(String),
    /// Any other failure surfaced from a provider.
    Other(String),
}

/// The text a checkpointer error renders as.
pub open spec fn error_text(e: CheckpointerError) -> Seq<char> {
    match e {
        CheckpointerError::Io(d) => "io error: "@ + d@,
        CheckpointerError::Serialize(d) => "serialize error: "@ + d@,
        CheckpointerError::Other(d) => "checkpointer error: "@ + d@,
    }
}

/// What a store reports when checkpointer `label` fails with `err`:
/// `checkpointer(<label>): <err>`.
pub fn store_failure_message(label: &str, err: &CheckpointerError) -> (r: String)
    ensures
        r@ == "checkpointer("@ + label@ + "): "@ + error_text(*err),
{
    let m = err.message();
    String::from_str("checkpointer(").concat(label).concat("): ").concat(m.as_str())
}

impl CheckpointerError {
    /// The message this error renders as.
    pub fn message(&self) -> (r: String)
        ensures
            r@ == error_text(*self),
    {
        match self {
            CheckpointerError::Io(d) => String::from_str("io error: ").concat(d.as_str()),
            CheckpointerError::Serialize(d) => String::from_str("serialize error: ").concat(d.as_str()),
            CheckpointerError::Other(d) => String::from_str("checkpointer error: ").concat(d.as_str()),
        }
    }
}

/// An in-memory checkpointer: a slot holding the most recent snapshot.
#[derive(Debug)]
pub struct MemCheckpointer {
    slot: Option<Snapshot>,
}

impl MemCheckpointer {
    /// The snapshot in the slot.
    pub closed spec fn stored(&self) -> Option<Snapshot> {
        self.slot
    }

    /// An empty checkpointer.
    pub fn new() -> (r: MemCheckpointer)
        ensures
            r.stored() is None,
    {
        MemCheckpointer { slot: None }
    }

    /// A checkpointer holding `snapshot`.
    pub fn with_snapshot(snapshot: Snapshot) -> (r: MemCheckpointer)
        ensures
            r.stored() == Some(snapshot),
    {
        MemCheckpointer { slot: Some(snapshot) }
    }

    /// Keep `snapshot`, replacing whatever was kept.
    pub fn save(&mut self, snapshot: Snapshot)
        ensures
            final(self).stored() == Some(snapshot),
    {
        self.slot = Some(snapshot);
    }

    /// The most recently saved snapshot, if any.
    pub fn load(&self) -> (r: Option<&Snapshot>)
        ensures
            match r {
                Some(s) => self.stored() == Some(*s),
                None => self.stored() is None,
            },
    {
        match &self.slot {
            Some(s) => Some(s),
            None => None,
        }
    }

    /// The label of the in-memory checkpointer.
    pub fn label(&self) -> (r: &'static str)
        ensures
            r@ == "memory"@,
    {
        "memory"
    }
}

/// A checkpointer writing JSON to a file.
#[derive(Clone, Debug)]
pub struct FileCheckpointer {
    path: String,
    label: String,
}

impl FileCheckpointer {
    /// The destination path.
    pub closed spec fn spec_path(&self) -> Seq<char> {
        self.path@
    }

    /// The label: `file:` followed by the path.
    pub closed spec fn spec_label(&self) -> Seq<char> {
        self.label@
    }

    /// A checkpointer reading from and writing to `path`.
    pub fn new(path: String) -> (r: FileCheckpointer)
        ensures
            r.spec_path() == path@,
            r.spec_label() == "file:"@ + path@,
    {
        let label = String::from_str("file:").concat(path.as_str());
        FileCheckpointer { path, label }
    }

    /// The destination path.
    pub fn path(&self) -> (r: &String)
        ensures
            r@ == self.spec_path(),
    {
        &self.path
    }

    /// The label used in traces and error messages.
    pub fn label(&self) -> (r: &String)
        ensures
            r@ == self.spec_label(),
    {
        &self.label
    }
}

/// A checkpointer appending JSON rows to a SQLite database.
#[derive(Clone, Debug)]
pub struct SqliteCheckpointer {
    path: String,
    label: String,
}

impl SqliteCheckpointer {
    /// The database path.
    pub closed spec fn spec_path(&self) -> Seq<char> {
        self.path@
    }

    /// The label: `sqlite:` followed by the path.
    pub closed spec fn spec_label(&self) -> Seq<char> {
        self.label@
    }

    /// A checkpointer for the database at `path`.
    pub fn new(path: String) -> (r: SqliteCheckpointer)
        ensures
            r.spec_path() == path@,
            r.spec_label() == "sqlite:"@ + path@,
    {
        let label = String::from_str("sqlite:").concat(path.as_str());
        SqliteCheckpointer { path, label }
    }

    /// The database path.
    pub fn path(&self) -> (r: &String)
        ensures
            r@ == self.spec_path(),
    {
        &self.path
    }

    /// The label used in traces and error messages.
    pub fn label(&self) -> (r: &String)
        ensures
            r@ == self.spec_label(),
    {
        &self.label
    }
}

/// `o` is the empty ontology: no IRI, no bindings, no declared types, no
/// nodes, edges or axioms.
pub open spec fn empty_ontology(o: Ontology) -> bool {
    &&& o.iri is None
    &&& o.vocabulary.bindings@.len() == 0
    &&& o.schema.node_types@.len() == 0
    &&& o.schema.edge_types@.len() == 0
    &&& o.nodes@.len() == 0
    &&& o.edges@.len() == 0
    &&& o.axioms@.len() == 0
}

/// `l` is the empty ledger: no activities, entities or lineage records.
pub open spec fn empty_log(l: ProvenanceLog) -> bool {
    &&& l.wf()
    &&& l.activities@.len() == 0
    &&& l.entities@.len() == 0
    &&& l.generations@.len() == 0
    &&& l.derivations@.len() == 0
    &&& l.attributions@.len() == 0
    &&& l.uses@.len() == 0
}

/// The state a store starts from, given what a checkpointer loaded: the
/// snapshot's parts, or the empty state at version zero.
pub fn state_from_snapshot(loaded: Option<Snapshot>) -> (r: (Ontology, ProvenanceLog, u64))
    ensures
        match loaded {
            Some(s) => r == (s.ontology, s.provenance, s.version),
            None => empty_ontology(r.0) && empty_log(r.1) && r.2 == 0,
        },
{
    match loaded {
        Some(s) => (s.ontology, s.provenance, s.version),
        None => (Ontology::new(), ProvenanceLog::new(), 0),
    }
}

} // verus!
