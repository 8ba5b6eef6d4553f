//! Forward-chaining reasoning engine.
//!
//! [`Reasoner`] applies a [`RuleSet`] round after round until a round adds
//! nothing, and reports the facts it derived together with the activity
//! that derived them. The reasoner is sound (it adds only what every
//! rule-closed extension of the ontology holds), closes the ontology under
//! its rules, and is idempotent on a closed ontology.
use vstd::prelude::*;

use crate::model::{
    axiom_kinds, contains_edge, contains_kind, edge_keys, lemma_axiom_kinds_push,
    lemma_edge_keys_push, Axiom, Edge, EdgeKey, Facts, KindView, NodeId, Ontology, ProvenanceId,
};
use crate::json::{json_unsigned, jview, JsonView};
use crate::provenance::{Activity, AgentKind, AgentRef};
use crate::schema::{Schema, Vocabulary};
use crate::rules::{
    bare_edges, concluded_axioms, concluded_edges, derived, distinct_axioms, distinct_edges,
    fresh_axioms, inverse_edge, law_rule_sound, models, standard_rules, subclass_chain, symmetric_edge, transitive_edge,
    Rule, RuleOutput, RuleSet,
};

verus! {

/// Default cap on fixed-point rounds.
pub const DEFAULT_MAX_ITERATIONS: usize = 100;

// ---------------------------------------------------------------------
// Rounds and fixed points
// ---------------------------------------------------------------------

/// `f` with the facts `d` added.
pub open spec fn add_facts(f: Facts, d: Facts) -> Facts {
    Facts { axioms: f.axioms.union(d.axioms), edges: f.edges.union(d.edges) }
}

/// The facts after applying the first `n` rules of `rules` in turn,
/// each to the facts its predecessors left.
pub open spec fn round_upto(f: Facts, rules: Seq<Rule>, n: nat) -> Facts
    decreases n,
{
    if n == 0 {
        f
    } else {
        let g = round_upto(f, rules, (n - 1) as nat);
        add_facts(g, derived(rules[n - 1], g))
    }
}

/// One round: every rule of `rules` applied in turn.
pub open spec fn round(f: Facts, rules: Seq<Rule>) -> Facts {
    round_upto(f, rules, rules.len())
}

/// The facts after `k` rounds.
pub open spec fn iterate(f: Facts, rules: Seq<Rule>, k: nat) -> Facts
    decreases k,
{
    if k == 0 {
        f
    } else {
        round(iterate(f, rules, (k - 1) as nat), rules)
    }
}

/// A round adds nothing to `f`.
pub open spec fn stable(f: Facts, rules: Seq<Rule>) -> bool {
    round(f, rules) == f
}

/// No rule of `rules` derives anything from `f`: `f` holds all its conclusions.
pub open spec fn closed_under(f: Facts, rules: Seq<Rule>) -> bool {
    forall|i: int|
        0 <= i < rules.len() ==> concluded_axioms(#[trigger] rules[i], f).subset_of(f.axioms)
            && concluded_edges(rules[i], f).subset_of(f.edges)
}

/// Every fact of `f` is a fact of `g`.
pub open spec fn facts_within(f: Facts, g: Facts) -> bool {
    f.axioms.subset_of(g.axioms) && f.edges.subset_of(g.edges)
}

// ---------------------------------------------------------------------
// The reasoner
// ---------------------------------------------------------------------

/// Outcome of a reasoning run.
#[derive(Clone, Debug)]
pub struct ReasoningReport {
    /// Axioms inferred by the rule set, each stamped with the activity's id.
    pub derived_axioms: Vec<Axiom>,
    /// Edges inferred by the rule set.
    pub derived_edges: Vec<Edge>,
    /// Number of rounds executed (at least one).
    pub iterations: usize,
    /// The reasoning activity, finished when the fixed point was reached.
    pub activity: Activity,
}

impl ReasoningReport {
    /// `true` when the reasoner derived no new facts.
    pub fn is_clean(&self) -> (r: bool)
        ensures
            r == (self.derived_axioms@.len() == 0 && self.derived_edges@.len() == 0),
    {
        self.derived_axioms.len() == 0 && self.derived_edges.len() == 0
    }
}

/// Reasoner-level errors.
#[derive(Clone, Copy, Debug, PartialEq, Eq, Structural)]
pub enum ReasonerError {
    /// The round cap was reached while rounds still added facts.
    Cycle { limit: usize },
}

impl ReasonerError {
    /// The message this error renders as.
    pub fn message(&self) -> (r: String)
        ensures
            r@ == match *self {
                ReasonerError::Cycle { limit } => "reasoning did not converge after "@ + crate::rdf::decimal(
                    limit as nat,
                ) + " iterations (cap reached)"@,
            },
    {
        match self {
            ReasonerError::Cycle { limit } => {
                let digits = crate::rdf::unsigned_text(*limit as u64);
                String::from_str("reasoning did not converge after ").concat(
                    crate::text::string_of_chars(&digits).as_str(),
                ).concat(" iterations (cap reached)")
            },
        }
    }
}

/// Forward-chaining reasoner: a rule set, the agent credited with its
/// derivations, and a cap on rounds (at least one).
#[derive(Debug)]
pub struct Reasoner {
    rules: RuleSet,
    agent: AgentRef,
    max_iterations: usize,
}

/// The agent credited by default.
pub open spec fn default_agent_id() -> Seq<char> {
    "agent://atomr-ontology-reason/Reasoner"@
}

/// The label of the agent a reasoner credits by default.
pub open spec fn default_agent_label() -> Seq<char> {
    "atomr-ontology-reason"@
}

impl Reasoner {
    #[verifier::type_invariant]
    spec fn inv(self) -> bool {
        self.max_iterations >= 1
    }

    /// The active rules.
    pub closed spec fn spec_rules(&self) -> Seq<Rule> {
        self.rules.rules@
    }

    /// The round cap.
    pub closed spec fn spec_limit(&self) -> usize {
        self.max_iterations
    }

    /// The credited agent.
    pub closed spec fn spec_agent(&self) -> AgentRef {
        self.agent
    }

    /// A reasoner with the standard rule set.
    pub fn new() -> (r: Reasoner)
        ensures
            r.spec_rules() == standard_rules(),
            r.spec_limit() == DEFAULT_MAX_ITERATIONS,
            r.spec_agent().id@ == default_agent_id(),
            r.spec_agent().kind == AgentKind::Software,
            r.spec_agent().label@ == default_agent_label(),
    {
        Reasoner::with_rules(RuleSet::standard())
    }

    /// A reasoner with a custom rule set.
    pub fn with_rules(rules: RuleSet) -> (r: Reasoner)
        ensures
            r.spec_rules() == rules.rules@,
            r.spec_limit() == DEFAULT_MAX_ITERATIONS,
            r.spec_agent().id@ == default_agent_id(),
            r.spec_agent().kind == AgentKind::Software,
            r.spec_agent().label@ == default_agent_label(),
    {
        let id = String::from_str("agent://atomr-ontology-reason/Reasoner");
        proof {
            reveal_strlit("agent://atomr-ontology-reason/Reasoner");
            reveal_strlit("atomr-ontology-reason");
        }
        Reasoner {
            rules,
            agent: AgentRef::software(id, String::from_str("atomr-ontology-reason")),
            max_iterations: DEFAULT_MAX_ITERATIONS,
        }
    }

    /// Credit derivations to `agent`.
    pub fn with_agent(self, agent: AgentRef) -> (r: Reasoner)
        ensures
            r.spec_rules() == self.spec_rules(),
            r.spec_limit() == self.spec_limit(),
            r.spec_agent() == agent,
    {
        proof {
            use_type_invariant(&self);
        }
        Reasoner { rules: self.rules, agent, max_iterations: self.max_iterations }
    }

    /// Cap the rounds per run at `limit` (a cap below one counts as one).
    pub fn with_max_iterations(self, limit: usize) -> (r: Reasoner)
        ensures
            r.spec_rules() == self.spec_rules(),
            r.spec_agent() == self.spec_agent(),
            r.spec_limit() == if limit >= 1 { limit } else { 1 },
    {
        let cap = if limit >= 1 { limit } else { 1 };
        Reasoner { rules: self.rules, agent: self.agent, max_iterations: cap }
    }

    /// The active rule set.
    pub fn rules(&self) -> (r: &RuleSet)
        ensures
            r.rules@ == self.spec_rules(),
    {
        &self.rules
    }
}

impl Clone for Reasoner {
    /// A reasoner with the same rules, agent and cap.
    fn clone(&self) -> (r: Reasoner)
        ensures
            r.spec_rules() == self.spec_rules(),
            r.spec_limit() == self.spec_limit(),
    {
        proof {
            use_type_invariant(self);
        }
        let rules = self.rules.rules.clone();
        assert(rules@ =~= self.rules.rules@);
        Reasoner {
            rules: RuleSet { rules },
            agent: self.agent.duplicate(),
            max_iterations: self.max_iterations,
        }
    }
}

impl Default for Reasoner {
    /// The reasoner with the standard rule set.
    fn default() -> (r: Reasoner)
        ensures
            r.spec_rules() == standard_rules(),
            r.spec_limit() == DEFAULT_MAX_ITERATIONS,
    {
        Reasoner::new()
    }
}

// ---------------------------------------------------------------------
// Running the reasoner
// ---------------------------------------------------------------------

/// `w` extends `o`: `o`'s axiom shapes and edge identities first, in order,
/// then new ones, each absent from `o` and each once; new axioms carry the
/// provenance `pid` and new edges no properties.
pub open spec fn grown_from(w: Ontology, o: Ontology, pid: ProvenanceId) -> bool {
    let (wa, oa, we, oe) = (w.axioms@, o.axioms@, w.edges@, o.edges@);
    &&& wa.len() >= oa.len()
    &&& forall|i: int| 0 <= i < oa.len() ==> wa[i].kind@ == oa[i].kind@
    &&& forall|i: int|
        oa.len() <= i < wa.len() ==> wa[i].provenance == Some(pid) && !axiom_kinds(oa).contains(
            wa[i].kind@,
        )
    &&& forall|i: int, j: int| oa.len() <= i < j < wa.len() ==> wa[i].kind@ != wa[j].kind@
    &&& we.len() >= oe.len()
    &&& forall|i: int| 0 <= i < oe.len() ==> we[i].key() == oe[i].key()
    &&& forall|i: int|
        oe.len() <= i < we.len() ==> we[i].properties@.len() == 0 && !edge_keys(oe).contains(
            we[i].key(),
        )
    &&& forall|i: int, j: int| oe.len() <= i < j < we.len() ==> we[i].key() != we[j].key()
}

proof fn lemma_axiom_kinds_prefix(w: Seq<Axiom>, o: Seq<Axiom>)
    requires
        w.len() >= o.len(),
        forall|i: int| 0 <= i < o.len() ==> w[i].kind@ == o[i].kind@,
    ensures
        axiom_kinds(w) == axiom_kinds(o).union(axiom_kinds(w.subrange(o.len() as int, w.len() as int))),
{
    let suffix = w.subrange(o.len() as int, w.len() as int);
    let r = axiom_kinds(o).union(axiom_kinds(suffix));
    assert forall|k: KindView| axiom_kinds(w).contains(k) implies r.contains(k) by {
        let i = choose|i: int| 0 <= i < w.len() && w[i].kind@ == k;
        if i < o.len() {
            assert(o[i].kind@ == k);
        } else {
            assert(suffix[i - o.len()].kind@ == k);
        }
    }
    assert forall|k: KindView| r.contains(k) implies axiom_kinds(w).contains(k) by {
        if axiom_kinds(o).contains(k) {
            let i = choose|i: int| 0 <= i < o.len() && o[i].kind@ == k;
            assert(w[i].kind@ == k);
        } else {
            let i = choose|i: int| 0 <= i < suffix.len() && suffix[i].kind@ == k;
            assert(w[i + o.len()].kind@ == k);
        }
    }
    assert(axiom_kinds(w) =~= r);
}

proof fn lemma_edge_keys_prefix(w: Seq<Edge>, o: Seq<Edge>)
    requires
        w.len() >= o.len(),
        forall|i: int| 0 <= i < o.len() ==> w[i].key() == o[i].key(),
    ensures
        edge_keys(w) == edge_keys(o).union(edge_keys(w.subrange(o.len() as int, w.len() as int))),
{
    let suffix = w.subrange(o.len() as int, w.len() as int);
    let r = edge_keys(o).union(edge_keys(suffix));
    assert forall|k: EdgeKey| edge_keys(w).contains(k) implies r.contains(k) by {
        let i = choose|i: int| 0 <= i < w.len() && w[i].key() == k;
        if i < o.len() {
            assert(o[i].key() == k);
        } else {
            assert(suffix[i - o.len()].key() == k);
        }
    }
    assert forall|k: EdgeKey| r.contains(k) implies edge_keys(w).contains(k) by {
        if edge_keys(o).contains(k) {
            let i = choose|i: int| 0 <= i < o.len() && o[i].key() == k;
            assert(w[i].key() == k);
        } else {
            let i = choose|i: int| 0 <= i < suffix.len() && suffix[i].key() == k;
            assert(w[i + o.len()].key() == k);
        }
    }
    assert(edge_keys(w) =~= r);
}

/// Copy a list of axioms.
fn copy_axioms(s: &Vec<Axiom>) -> (r: Vec<Axiom>)
    ensures
        r@ == s@,
{
    let mut r: Vec<Axiom> = Vec::new();
    let mut i: usize = 0;
    while i < s.len()
        invariant
            i <= s.len(),
            r@ == s@.take(i as int),
        decreases s.len() - i,
    {
        r.push(s[i].duplicate());
        assert(r@ =~= s@.take(i + 1));
        i = i + 1;
    }
    assert(s@.take(s.len() as int) =~= s@);
    r
}

/// Copy the identities of a list of edges, as bare edges.
fn copy_edge_keys(s: &Vec<Edge>) -> (r: Vec<Edge>)
    ensures
        r@.len() == s@.len(),
        forall|i: int| 0 <= i < s@.len() ==> r@[i].key() == s@[i].key(),
{
    let mut r: Vec<Edge> = Vec::new();
    let mut i: usize = 0;
    while i < s.len()
        invariant
            i <= s.len(),
            r@.len() == i,
            forall|j: int| 0 <= j < i ==> r@[j].key() == s@[j].key(),
        decreases s.len() - i,
    {
        r.push(Edge::between(s[i].source, s[i].label.clone(), s[i].target));
        i = i + 1;
    }
    r
}

/// Add the facts of `out` (each absent from `working`) to `working`,
/// stamping axioms with `pid`.
fn absorb(working: &mut Ontology, out: &RuleOutput, pid: ProvenanceId, orig: &Ontology)
    requires
        grown_from(*old(working), *orig, pid),
        distinct_axioms(out.axioms@),
        distinct_edges(out.edges@),
        bare_edges(out.edges@),
        axiom_kinds(out.axioms@).disjoint(axiom_kinds(old(working).axioms@)),
        edge_keys(out.edges@).disjoint(edge_keys(old(working).edges@)),
    ensures
        grown_from(*final(working), *orig, pid),
        final(working).axioms@.len() == old(working).axioms@.len() + out.axioms@.len(),
        final(working).edges@.len() == old(working).edges@.len() + out.edges@.len(),
        final(working).axioms@.subrange(0, old(working).axioms@.len() as int) == old(working).axioms@,
        final(working).edges@.subrange(0, old(working).edges@.len() as int) == old(working).edges@,
        forall|i: int| 0 <= i < out.axioms@.len() ==> final(working).axioms@[old(working).axioms@.len() + i].kind@ == (#[trigger] out.axioms@[i]).kind@,
        forall|i: int| 0 <= i < out.edges@.len() ==> final(working).edges@[old(working).edges@.len() + i].key() == (#[trigger] out.edges@[i]).key(),
        final(working).facts() == add_facts(
            old(working).facts(),
            Facts { axioms: axiom_kinds(out.axioms@), edges: edge_keys(out.edges@) },
        ),
{
    let ghost w0 = working.axioms@;
    let ghost e0 = working.edges@;
    let mut t: usize = 0;
    assert(axiom_kinds(out.axioms@.take(0)) =~= Set::empty());
    assert(axiom_kinds(working.axioms@) =~= axiom_kinds(w0).union(axiom_kinds(out.axioms@.take(0))));
    while t < out.axioms.len()
        invariant
            t <= out.axioms@.len(),
            working.edges@ == e0,
            grown_from(*working, *orig, pid),
            grown_from(*old(working), *orig, pid),
            w0 == old(working).axioms@,
            distinct_axioms(out.axioms@),
            axiom_kinds(out.axioms@).disjoint(axiom_kinds(w0)),
            working.axioms@.len() == w0.len() + t,
            working.axioms@.subrange(0, w0.len() as int) == w0,
            forall|i: int| 0 <= i < t ==> working.axioms@[w0.len() + i].kind@ == (#[trigger] out.axioms@[i]).kind@,
            axiom_kinds(working.axioms@) == axiom_kinds(w0).union(axiom_kinds(out.axioms@.take(t as int))),
        decreases out.axioms@.len() - t,
    {
        let stamped = out.axioms[t].duplicate().with_provenance(pid);
        let ghost k = stamped.kind@;
        assert(axiom_kinds(out.axioms@).contains(k));
        assert(!axiom_kinds(working.axioms@).contains(k)) by {
            if axiom_kinds(w0).contains(k) {
            } else if axiom_kinds(out.axioms@.take(t as int)).contains(k) {
                let u = choose|u: int| 0 <= u < t && out.axioms@.take(t as int)[u].kind@ == k;
                assert(out.axioms@[u].kind@ == out.axioms@[t as int].kind@);
            }
        }
        assert(!axiom_kinds(orig.axioms@).contains(k)) by {
            assert forall|i: int| 0 <= i < orig.axioms@.len() implies orig.axioms@[i].kind@ != k by {
                assert(working.axioms@[i].kind@ == orig.axioms@[i].kind@);
                assert(axiom_kinds(working.axioms@).contains(working.axioms@[i].kind@));
            }
        }
        if !contains_kind(&working.axioms, &stamped.kind) {
            let ghost before = working.axioms@;
            proof {
                lemma_axiom_kinds_push(before, stamped);
            }
            working.axioms.push(stamped);
            assert(working.axioms@ == before.push(stamped));
            assert forall|i: int, j: int| orig.axioms@.len() <= i < j < working.axioms@.len() implies working.axioms@[i].kind@ != working.axioms@[j].kind@ by {
                if j == before.len() {
                    assert(axiom_kinds(before).contains(before[i].kind@));
                }
            }
            assert(out.axioms@.take(t + 1) =~= out.axioms@.take(t as int).push(out.axioms@[t as int]));
            proof {
                lemma_axiom_kinds_push(out.axioms@.take(t as int), out.axioms@[t as int]);
            }
            assert(working.axioms@.subrange(0, w0.len() as int) =~= w0);
        }
        t = t + 1;
    }
    assert(out.axioms@.take(out.axioms@.len() as int) =~= out.axioms@);
    let ghost w1 = working.axioms@;
    let mut t: usize = 0;
    assert(edge_keys(out.edges@.take(0)) =~= Set::empty());
    assert(edge_keys(working.edges@) =~= edge_keys(e0).union(edge_keys(out.edges@.take(0))));
    while t < out.edges.len()
        invariant
            t <= out.edges@.len(),
            working.axioms@ == w1,
            grown_from(*working, *orig, pid),
            e0 == old(working).edges@,
            distinct_edges(out.edges@),
            bare_edges(out.edges@),
            edge_keys(out.edges@).disjoint(edge_keys(e0)),
            working.edges@.len() == e0.len() + t,
            working.edges@.subrange(0, e0.len() as int) == e0,
            forall|i: int| 0 <= i < t ==> working.edges@[e0.len() + i].key() == (#[trigger] out.edges@[i]).key(),
            edge_keys(working.edges@) == edge_keys(e0).union(edge_keys(out.edges@.take(t as int))),
        decreases out.edges@.len() - t,
    {
        let e = Edge::between(out.edges[t].source, out.edges[t].label.clone(), out.edges[t].target);
        let ghost k = e.key();
        assert(k == out.edges@[t as int].key());
        assert(edge_keys(out.edges@).contains(k));
        assert(!edge_keys(working.edges@).contains(k)) by {
            if edge_keys(e0).contains(k) {
            } else if edge_keys(out.edges@.take(t as int)).contains(k) {
                let u = choose|u: int| 0 <= u < t && out.edges@.take(t as int)[u].key() == k;
                assert(out.edges@[u].key() == out.edges@[t as int].key());
            }
        }
        assert(!edge_keys(orig.edges@).contains(k)) by {
            assert forall|i: int| 0 <= i < orig.edges@.len() implies orig.edges@[i].key() != k by {
                assert(working.edges@[i].key() == orig.edges@[i].key());
                assert(edge_keys(working.edges@).contains(working.edges@[i].key()));
            }
        }
        if !contains_edge(&working.edges, &out.edges[t].label, out.edges[t].source, out.edges[t].target) {
            let ghost before = working.edges@;
            proof {
                lemma_edge_keys_push(before, e);
            }
            working.edges.push(e);
            assert(working.edges@ == before.push(e));
            assert forall|i: int, j: int| orig.edges@.len() <= i < j < working.edges@.len() implies working.edges@[i].key() != working.edges@[j].key() by {
                if j == before.len() {
                    assert(edge_keys(before).contains(before[i].key()));
                }
            }
            assert(out.edges@.take(t + 1) =~= out.edges@.take(t as int).push(out.edges@[t as int]));
            proof {
                lemma_edge_keys_push(out.edges@.take(t as int), out.edges@[t as int]);
            }
            assert(working.edges@.subrange(0, e0.len() as int) =~= e0);
        }
        t = t + 1;
    }
    assert(out.edges@.take(out.edges@.len() as int) =~= out.edges@);
    assert(working.facts() =~= add_facts(
        old(working).facts(),
        Facts { axioms: axiom_kinds(out.axioms@), edges: edge_keys(out.edges@) },
    ));
}

/// Run one round of `rules` over `working`; `true` when it added a fact.
fn apply_round(working: &mut Ontology, rules: &Vec<Rule>, pid: ProvenanceId, orig: &Ontology) -> (produced: bool)
    requires
        grown_from(*old(working), *orig, pid),
    ensures
        grown_from(*final(working), *orig, pid),
        final(working).facts() == round(old(working).facts(), rules@),
        produced <==> final(working).facts() != old(working).facts(),
{
    let ghost g = working.facts();
    let ghost a0 = working.axioms@;
    let ghost e0 = working.edges@;
    let a0_len = working.axioms.len();
    let e0_len = working.edges.len();
    let mut idx: usize = 0;
    assert(working.axioms@.subrange(0, a0.len() as int) =~= a0);
    assert(working.edges@.subrange(0, e0.len() as int) =~= e0);
    while idx < rules.len()
        invariant
            idx <= rules@.len(),
            a0_len == a0.len(),
            e0_len == e0.len(),
            grown_from(*working, *orig, pid),
            g == (Facts { axioms: axiom_kinds(a0), edges: edge_keys(e0) }),
            working.facts() == round_upto(g, rules@, idx as nat),
            working.axioms@.len() >= a0.len(),
            working.edges@.len() >= e0.len(),
            working.axioms@.subrange(0, a0.len() as int) == a0,
            working.edges@.subrange(0, e0.len() as int) == e0,
            forall|i: int| a0.len() <= i < working.axioms@.len() ==> !g.axioms.contains(#[trigger] working.axioms@[i].kind@),
            forall|i: int| e0.len() <= i < working.edges@.len() ==> !g.edges.contains(#[trigger] working.edges@[i].key()),
            g.axioms.subset_of(working.facts().axioms),
            g.edges.subset_of(working.facts().edges),
        decreases rules@.len() - idx,
    {
        let rule = rules[idx];
        let out = rule.apply(working);
        let ghost before = *working;
        let ghost d = derived(rule, before.facts());
        assert(axiom_kinds(out.axioms@).disjoint(axiom_kinds(before.axioms@)));
        assert(edge_keys(out.edges@).disjoint(edge_keys(before.edges@)));
        absorb(working, &out, pid, orig);
        assert(working.facts() =~= add_facts(before.facts(), d));
        assert(working.axioms@.subrange(0, a0.len() as int) =~= a0) by {
            assert(working.axioms@.subrange(0, before.axioms@.len() as int) == before.axioms@);
            assert forall|i: int| 0 <= i < a0.len() implies working.axioms@[i] == a0[i] by {
                assert(working.axioms@.subrange(0, before.axioms@.len() as int)[i] == before.axioms@[i]);
                assert(before.axioms@.subrange(0, a0.len() as int)[i] == a0[i]);
            }
        }
        assert(working.edges@.subrange(0, e0.len() as int) =~= e0) by {
            assert(working.edges@.subrange(0, before.edges@.len() as int) == before.edges@);
            assert forall|i: int| 0 <= i < e0.len() implies working.edges@[i] == e0[i] by {
                assert(working.edges@.subrange(0, before.edges@.len() as int)[i] == before.edges@[i]);
                assert(before.edges@.subrange(0, e0.len() as int)[i] == e0[i]);
            }
        }
        assert forall|i: int| a0.len() <= i < working.axioms@.len() implies !g.axioms.contains(#[trigger] working.axioms@[i].kind@) by {
            if i < before.axioms@.len() {
                assert(working.axioms@.subrange(0, before.axioms@.len() as int)[i] == before.axioms@[i]);
            } else {
                let u = i - before.axioms@.len();
                assert(working.axioms@[before.axioms@.len() + u].kind@ == out.axioms@[u].kind@);
                assert(axiom_kinds(out.axioms@).contains(out.axioms@[u].kind@));
            }
        }
        assert forall|i: int| e0.len() <= i < working.edges@.len() implies !g.edges.contains(#[trigger] working.edges@[i].key()) by {
            if i < before.edges@.len() {
                assert(working.edges@.subrange(0, before.edges@.len() as int)[i] == before.edges@[i]);
            } else {
                let u = i - before.edges@.len();
                assert(working.edges@[before.edges@.len() + u].key() == out.edges@[u].key());
                assert(edge_keys(out.edges@).contains(out.edges@[u].key()));
            }
        }
        idx = idx + 1;
    }
    let produced = working.axioms.len() > a0_len || working.edges.len() > e0_len;
    if produced {
        if working.axioms.len() > a0_len {
            let ghost k = working.axioms@[a0.len() as int].kind@;
            assert(working.facts().axioms.contains(k));
            assert(!g.axioms.contains(k));
        } else {
            let ghost k = working.edges@[e0.len() as int].key();
            assert(working.facts().edges.contains(k));
            assert(!g.edges.contains(k));
        }
    } else {
        assert(working.axioms@ =~= a0);
        assert(working.edges@ =~= e0);
    }
    produced
}

/// `w` is `o` followed by edges with the identities of `d`, in order, each bare.
pub open spec fn edges_appended(w: Seq<Edge>, o: Seq<Edge>, d: Seq<Edge>) -> bool {
    &&& w.len() == o.len() + d.len()
    &&& w.subrange(0, o.len() as int) == o
    &&& forall|i: int| 0 <= i < d.len() ==> w[o.len() + i].key() == (#[trigger] d[i]).key() && w[o.len() + i].properties@.len() == 0
}

impl Reasoner {
    /// `r` is what a run over facts `f` reports: on success, the round
    /// count `k` (within the cap) such that round `k` was the first to add
    /// nothing, the facts derived by then (each once, disjoint from `f`,
    /// axioms stamped with the activity's id), and the finished
    /// `"reasoning"` activity credited to the agent; on failure, the cap,
    /// every round up to which still added facts.
    pub open spec fn reports(&self, f: Facts, r: Result<ReasoningReport, ReasonerError>) -> bool {
        let rules = self.spec_rules();
        match r {
            Ok(rep) => {
                let k = rep.iterations;
                let last = iterate(f, rules, (k - 1) as nat);
                &&& 1 <= k <= self.spec_limit()
                &&& stable(last, rules)
                &&& forall|j: nat| j < k - 1 ==> !stable(#[trigger] iterate(f, rules, j), rules)
                &&& axiom_kinds(rep.derived_axioms@) == last.axioms.difference(f.axioms)
                &&& edge_keys(rep.derived_edges@) == last.edges.difference(f.edges)
                &&& distinct_axioms(rep.derived_axioms@)
                &&& distinct_edges(rep.derived_edges@)
                &&& bare_edges(rep.derived_edges@)
                &&& forall|i: int| 0 <= i < rep.derived_axioms@.len() ==> (#[trigger] rep.derived_axioms@[i]).provenance == Some(rep.activity.id)
                &&& rep.activity.label@ == "reasoning"@
                &&& rep.activity.ended_at.is_some()
                &&& rep.activity.agent matches Some(a) && a.id@ == self.spec_agent().id@ && a.kind == self.spec_agent().kind && a.label@ == self.spec_agent().label@
                &&& rep.activity.attributes@.len() == 1
                &&& rep.activity.attributes@[0].key@ == "rules"@
                &&& jview(rep.activity.attributes@[0].value) == JsonView::Number(crate::rdf::decimal(rules.len()))
            },
            Err(e) => {
                &&& e == ReasonerError::Cycle { limit: self.spec_limit() }
                &&& forall|j: nat| j < self.spec_limit() ==> !stable(#[trigger] iterate(f, rules, j), rules)
            },
        }
    }

    /// Run the rules over `ontology` round after round until a round adds
    /// nothing, without modifying `ontology`. Returns the facts derived
    /// (axioms stamped with the run's activity) or, when the round cap is
    /// reached while rounds still add facts, a `Cycle` error.
    pub fn run(&self, ontology: &Ontology) -> (r: Result<ReasoningReport, ReasonerError>)
        ensures
            self.reports(ontology.facts(), r),
    {
        proof {
            use_type_invariant(self);
        }
        let ghost f = ontology.facts();
        let ghost rules = self.rules.rules@;
        let label = String::from_str("reasoning");
        proof {
            reveal_strlit("reasoning");
            reveal_strlit("rules");
        }
        let activity = Activity::started(label).by_agent(self.agent.duplicate()).with_attribute(
            String::from_str("rules"),
            json_unsigned(self.rules.rules.len() as u64),
        );
        let pid = activity.id;
        let mut working = Ontology {
            iri: None,
            vocabulary: Vocabulary::new(),
            schema: Schema::new(),
            nodes: Vec::new(),
            edges: copy_edge_keys(&ontology.edges),
            axioms: copy_axioms(&ontology.axioms),
        };
        assert(axiom_kinds(working.axioms@) =~= axiom_kinds(ontology.axioms@));
        assert(edge_keys(working.edges@) =~= edge_keys(ontology.edges@)) by {
            assert forall|k: EdgeKey| edge_keys(working.edges@).contains(k) implies edge_keys(ontology.edges@).contains(k) by {
                let i = choose|i: int| 0 <= i < working.edges@.len() && working.edges@[i].key() == k;
                assert(ontology.edges@[i].key() == k);
            }
            assert forall|k: EdgeKey| edge_keys(ontology.edges@).contains(k) implies edge_keys(working.edges@).contains(k) by {
                let i = choose|i: int| 0 <= i < ontology.edges@.len() && ontology.edges@[i].key() == k;
                assert(working.edges@[i].key() == k);
            }
        }
        assert(working.facts() =~= f);
        let mut iterations: usize = 0;
        loop
            invariant_except_break
                working.facts() == iterate(f, rules, iterations as nat),
                forall|j: nat| j < iterations ==> !stable(#[trigger] iterate(f, rules, j), rules),
            invariant
                self.max_iterations >= 1,
                rules == self.rules.rules@,
                f == ontology.facts(),
                iterations <= self.max_iterations,
                grown_from(working, *ontology, pid),
            ensures
                1 <= iterations,
                working.facts() == iterate(f, rules, (iterations - 1) as nat),
                stable(iterate(f, rules, (iterations - 1) as nat), rules),
                forall|j: nat| j < iterations - 1 ==> !stable(#[trigger] iterate(f, rules, j), rules),
            decreases self.max_iterations - iterations,
        {
            if iterations >= self.max_iterations {
                return Err(ReasonerError::Cycle { limit: self.max_iterations });
            }
            iterations = iterations + 1;
            let ghost g = working.facts();
            let produced = apply_round(&mut working, &self.rules.rules, pid, ontology);
            if !produced {
                assert(stable(iterate(f, rules, (iterations - 1) as nat), rules));
                break;
            }
            assert(!stable(iterate(f, rules, (iterations - 1) as nat), rules));
            assert(working.facts() == iterate(f, rules, iterations as nat));
        }
        let ghost last = working.facts();
        let ghost wa = working.axioms@;
        let ghost we = working.edges@;
        proof {
            lemma_axiom_kinds_prefix(wa, ontology.axioms@);
            lemma_edge_keys_prefix(we, ontology.edges@);
        }
        let derived_axioms = working.axioms.split_off(ontology.axioms.len());
        let derived_edges = working.edges.split_off(ontology.edges.len());
        assert(derived_axioms@ == wa.subrange(ontology.axioms@.len() as int, wa.len() as int));
        assert(derived_edges@ == we.subrange(ontology.edges@.len() as int, we.len() as int));
        assert(axiom_kinds(derived_axioms@) =~= last.axioms.difference(f.axioms)) by {
            assert forall|k: KindView| axiom_kinds(derived_axioms@).contains(k) implies !f.axioms.contains(k) by {
                let i = choose|i: int| 0 <= i < derived_axioms@.len() && derived_axioms@[i].kind@ == k;
                assert(wa[i + ontology.axioms@.len()].kind@ == k);
            }
        }
        assert(edge_keys(derived_edges@) =~= last.edges.difference(f.edges)) by {
            assert forall|k: EdgeKey| edge_keys(derived_edges@).contains(k) implies !f.edges.contains(k) by {
                let i = choose|i: int| 0 <= i < derived_edges@.len() && derived_edges@[i].key() == k;
                assert(we[i + ontology.edges@.len()].key() == k);
            }
        }
        assert forall|i: int, j: int| 0 <= i < j < derived_axioms@.len() implies derived_axioms@[i].kind@ != derived_axioms@[j].kind@ by {
            assert(wa[i + ontology.axioms@.len()].kind@ != wa[j + ontology.axioms@.len()].kind@);
        }
        assert forall|i: int, j: int| 0 <= i < j < derived_edges@.len() implies derived_edges@[i].key() != derived_edges@[j].key() by {
            assert(we[i + ontology.edges@.len()].key() != we[j + ontology.edges@.len()].key());
        }
        assert forall|i: int| 0 <= i < derived_edges@.len() implies derived_edges@[i].properties@.len() == 0 by {
            assert(we[i + ontology.edges@.len()].properties@.len() == 0);
        }
        assert forall|i: int| 0 <= i < derived_axioms@.len() implies (#[trigger] derived_axioms@[i]).provenance == Some(pid) by {
            assert(wa[i + ontology.axioms@.len()].provenance == Some(pid));
        }
        Ok(ReasoningReport { derived_axioms, derived_edges, iterations, activity: activity.finish() })
    }

    /// Run the rules over `ontology` and merge every derived axiom and edge
    /// into it. On failure the ontology is left as it was.
    pub fn materialize(&self, ontology: &mut Ontology) -> (r: Result<ReasoningReport, ReasonerError>)
        ensures
            self.reports(old(ontology).facts(), r),
            match r {
                Ok(rep) => {
                    &&& final(ontology).axioms@ == old(ontology).axioms@ + rep.derived_axioms@
                    &&& edges_appended(final(ontology).edges@, old(ontology).edges@, rep.derived_edges@)
                    &&& final(ontology).nodes@ == old(ontology).nodes@
                    &&& final(ontology).iri == old(ontology).iri
                    &&& final(ontology).vocabulary == old(ontology).vocabulary
                    &&& final(ontology).schema == old(ontology).schema
                },
                Err(_) => *final(ontology) == *old(ontology),
            },
    {
        let report = match self.run(ontology) {
            Ok(rep) => rep,
            Err(e) => return Err(e),
        };
        let ghost o = *ontology;
        let ghost f = o.facts();
        let mut t: usize = 0;
        while t < report.derived_axioms.len()
            invariant
                t <= report.derived_axioms@.len(),
                ontology.axioms@ == o.axioms@ + report.derived_axioms@.take(t as int),
                ontology.edges@ == o.edges@,
                ontology.nodes@ == o.nodes@,
                ontology.iri == o.iri,
                ontology.vocabulary == o.vocabulary,
                ontology.schema == o.schema,
                distinct_axioms(report.derived_axioms@),
                axiom_kinds(report.derived_axioms@).disjoint(axiom_kinds(o.axioms@)),
            decreases report.derived_axioms@.len() - t,
        {
            let ax = report.derived_axioms[t].duplicate();
            let ghost k = ax.kind@;
            assert(axiom_kinds(report.derived_axioms@).contains(k));
            assert(!axiom_kinds(ontology.axioms@).contains(k)) by {
                if axiom_kinds(ontology.axioms@).contains(k) {
                    let i = choose|i: int| 0 <= i < ontology.axioms@.len() && ontology.axioms@[i].kind@ == k;
                    if i < o.axioms@.len() {
                        assert(axiom_kinds(o.axioms@).contains(o.axioms@[i].kind@));
                    } else {
                        assert(report.derived_axioms@[i - o.axioms@.len()].kind@ == k);
                    }
                }
            }
            ontology.upsert_axiom(ax);
            assert(report.derived_axioms@.take(t + 1) =~= report.derived_axioms@.take(t as int).push(report.derived_axioms@[t as int]));
            assert(ontology.axioms@ =~= o.axioms@ + report.derived_axioms@.take(t + 1));
            t = t + 1;
        }
        assert(report.derived_axioms@.take(report.derived_axioms@.len() as int) =~= report.derived_axioms@);
        assert(ontology.edges@.subrange(0, o.edges@.len() as int) =~= o.edges@);
        let mut t: usize = 0;
        while t < report.derived_edges.len()
            invariant
                t <= report.derived_edges@.len(),
                ontology.axioms@ == o.axioms@ + report.derived_axioms@,
                edges_appended(ontology.edges@, o.edges@, report.derived_edges@.take(t as int)),
                ontology.nodes@ == o.nodes@,
                ontology.iri == o.iri,
                ontology.vocabulary == o.vocabulary,
                ontology.schema == o.schema,
                distinct_edges(report.derived_edges@),
                bare_edges(report.derived_edges@),
                edge_keys(report.derived_edges@).disjoint(edge_keys(o.edges@)),
            decreases report.derived_edges@.len() - t,
        {
            let de = &report.derived_edges[t];
            let e = Edge::between(de.source, de.label.clone(), de.target);
            let ghost k = e.key();
            assert(k == report.derived_edges@[t as int].key());
            assert(edge_keys(report.derived_edges@).contains(k));
            assert(!edge_keys(ontology.edges@).contains(k)) by {
                if edge_keys(ontology.edges@).contains(k) {
                    let i = choose|i: int| 0 <= i < ontology.edges@.len() && ontology.edges@[i].key() == k;
                    if i < o.edges@.len() {
                        assert(ontology.edges@.subrange(0, o.edges@.len() as int) == o.edges@);
                        assert(ontology.edges@.subrange(0, o.edges@.len() as int)[i] == ontology.edges@[i]);
                        assert(edge_keys(o.edges@).contains(o.edges@[i].key()));
                    } else {
                        let j = i - o.edges@.len();
                        assert(report.derived_edges@.take(t as int)[j].key() == k);
                        assert(report.derived_edges@[j].key() == report.derived_edges@[t as int].key());
                    }
                }
            }
            let ghost w0 = ontology.edges@;
            ontology.upsert_edge(e);
            assert(ontology.edges@ == w0.push(e));
            assert(ontology.edges@.subrange(0, o.edges@.len() as int) =~= o.edges@) by {
                assert forall|i: int| 0 <= i < o.edges@.len() implies ontology.edges@[i] == o.edges@[i] by {
                    assert(w0.subrange(0, o.edges@.len() as int)[i] == w0[i]);
                }
            }
            assert forall|i: int| 0 <= i < t + 1 implies ontology.edges@[o.edges@.len() + i].key() == (#[trigger] report.derived_edges@.take(t + 1)[i]).key() && ontology.edges@[o.edges@.len() + i].properties@.len() == 0 by {
                if i < t {
                    assert(report.derived_edges@.take(t as int)[i] == report.derived_edges@.take(t + 1)[i]);
                }
            }
            t = t + 1;
        }
        assert(report.derived_edges@.take(report.derived_edges@.len() as int) =~= report.derived_edges@);
        Ok(report)
    }
}

} // verus!

verus! {

// ---------------------------------------------------------------------
// Laws of reasoning
// ---------------------------------------------------------------------

/// Each rule concludes at least as much from more facts.
proof fn lemma_concluded_monotone(rule: Rule, g: Facts, t: Facts)
    requires
        facts_within(g, t),
    ensures
        concluded_axioms(rule, g).subset_of(concluded_axioms(rule, t)),
        concluded_edges(rule, g).subset_of(concluded_edges(rule, t)),
{
    assert forall|k: KindView| concluded_axioms(rule, g).contains(k) implies concluded_axioms(rule, t).contains(k) by {
        if rule == Rule::SubClassTransitivity {
            if let KindView::SubClassOf(x, z) = k {
                let y = choose|y: Seq<char>| g.axioms.contains(KindView::SubClassOf(x, y)) && g.axioms.contains(KindView::SubClassOf(y, z));
                assert(t.axioms.contains(KindView::SubClassOf(x, y)));
            }
        }
    }
    assert forall|k: EdgeKey| concluded_edges(rule, g).contains(k) implies concluded_edges(rule, t).contains(k) by {
        if rule == Rule::PropertyTransitivity {
            let b = choose|b: NodeId| g.edges.contains((k.0, k.1, b)) && g.edges.contains((k.0, b, k.2));
            assert(t.edges.contains((k.0, k.1, b)));
        } else if rule == Rule::InverseOfMaterializes {
            let p = choose|p: Seq<char>| g.edges.contains((p, k.2, k.1)) && (g.axioms.contains(KindView::InverseOf(p, k.0))
                || g.axioms.contains(KindView::InverseOf(k.0, p)));
            assert(t.edges.contains((p, k.2, k.1)));
        }
    }
}

/// Partial rounds stay within any rule-closed superset.
proof fn lemma_round_upto_within(f: Facts, rules: Seq<Rule>, n: nat, t: Facts)
    requires
        n <= rules.len(),
        facts_within(f, t),
        closed_under(t, rules),
    ensures
        facts_within(round_upto(f, rules, n), t),
    decreases n,
{
    if n > 0 {
        lemma_round_upto_within(f, rules, (n - 1) as nat, t);
        let g = round_upto(f, rules, (n - 1) as nat);
        lemma_concluded_monotone(rules[n - 1], g, t);
        assert(concluded_axioms(rules[n - 1], t).subset_of(t.axioms));
    }
}

/// Partial rounds only add facts.
proof fn lemma_round_upto_grows(f: Facts, rules: Seq<Rule>, i: nat, j: nat)
    requires
        i <= j <= rules.len(),
    ensures
        facts_within(round_upto(f, rules, i), round_upto(f, rules, j)),
    decreases j,
{
    if i < j {
        lemma_round_upto_grows(f, rules, i, (j - 1) as nat);
    }
}

/// Rounds only add facts.
proof fn lemma_iterate_grows(f: Facts, rules: Seq<Rule>, k: nat)
    ensures
        facts_within(f, iterate(f, rules, k)),
    decreases k,
{
    if k > 0 {
        lemma_iterate_grows(f, rules, (k - 1) as nat);
        lemma_round_upto_grows(iterate(f, rules, (k - 1) as nat), rules, 0, rules.len());
    }
}

/// On rule-closed facts every partial round changes nothing.
proof fn lemma_closed_round_upto_fixed(f: Facts, rules: Seq<Rule>, n: nat)
    requires
        n <= rules.len(),
        closed_under(f, rules),
    ensures
        round_upto(f, rules, n) == f,
    decreases n,
{
    if n > 0 {
        lemma_closed_round_upto_fixed(f, rules, (n - 1) as nat);
        assert(concluded_axioms(rules[n - 1], f).subset_of(f.axioms));
        assert(add_facts(f, derived(rules[n - 1], f)) =~= f);
    }
}

/// Soundness: whatever any number of rounds derives from `f` holds in
/// every extension of `f` that is closed under the rules.
pub proof fn law_reasoning_is_sound(f: Facts, rules: Seq<Rule>, k: nat, t: Facts)
    requires
        facts_within(f, t),
        closed_under(t, rules),
    ensures
        facts_within(iterate(f, rules, k), t),
    decreases k,
{
    if k > 0 {
        law_reasoning_is_sound(f, rules, (k - 1) as nat, t);
        lemma_round_upto_within(iterate(f, rules, (k - 1) as nat), rules, rules.len(), t);
    }
}

/// A round adds nothing exactly when the facts are closed under every rule.
pub proof fn law_stable_iff_closed(f: Facts, rules: Seq<Rule>)
    ensures
        stable(f, rules) <==> closed_under(f, rules),
{
    if closed_under(f, rules) {
        lemma_closed_round_upto_fixed(f, rules, rules.len());
    }
    if stable(f, rules) {
        assert forall|i: int| 0 <= i < rules.len() implies concluded_axioms(#[trigger] rules[i], f).subset_of(f.axioms)
            && concluded_edges(rules[i], f).subset_of(f.edges) by {
            lemma_round_upto_grows(f, rules, 0, i as nat);
            lemma_round_upto_grows(f, rules, i as nat, rules.len());
            lemma_round_upto_grows(f, rules, (i + 1) as nat, rules.len());
            assert(round_upto(f, rules, i as nat) =~= f);
        }
    }
}

/// The facts a successful run leaves: the input plus everything derived.
pub open spec fn closure_of(f: Facts, rep: ReasoningReport) -> Facts {
    add_facts(f, Facts { axioms: axiom_kinds(rep.derived_axioms@), edges: edge_keys(rep.derived_edges@) })
}

/// A successful run reaches the least rule-closed extension of its input:
/// the input plus the derived facts is closed under the rules, and lies
/// within every rule-closed extension of the input.
pub proof fn law_run_reaches_closure(reasoner: Reasoner, f: Facts, rep: ReasoningReport)
    requires
        reasoner.reports(f, Ok(rep)),
    ensures
        closed_under(closure_of(f, rep), reasoner.spec_rules()),
        forall|t: Facts|
            facts_within(f, t) && closed_under(t, reasoner.spec_rules()) ==> facts_within(
                #[trigger] closure_of(f, rep),
                t,
            ),
{
    let rules = reasoner.spec_rules();
    let last = iterate(f, rules, (rep.iterations - 1) as nat);
    lemma_iterate_grows(f, rules, (rep.iterations - 1) as nat);
    assert(closure_of(f, rep) =~= last);
    law_stable_iff_closed(last, rules);
    assert forall|t: Facts| facts_within(f, t) && closed_under(t, rules) implies facts_within(
        #[trigger] closure_of(f, rep),
        t,
    ) by {
        law_reasoning_is_sound(f, rules, (rep.iterations - 1) as nat, t);
    }
}

/// Idempotence: on facts already closed under the rules, a run succeeds
/// after a single round and derives nothing.
pub proof fn law_run_on_closed_is_clean(
    reasoner: Reasoner,
    f: Facts,
    r: Result<ReasoningReport, ReasonerError>,
)
    requires
        reasoner.spec_limit() >= 1,
        closed_under(f, reasoner.spec_rules()),
        reasoner.reports(f, r),
    ensures
        r matches Ok(rep) && rep.iterations == 1 && rep.derived_axioms@.len() == 0
            && rep.derived_edges@.len() == 0,
{
    let rules = reasoner.spec_rules();
    law_stable_iff_closed(f, rules);
    assert(iterate(f, rules, 0) == f);
    match r {
        Ok(rep) => {
            if rep.iterations > 1 {
                assert(!stable(iterate(f, rules, 0), rules));
            }
            let last = iterate(f, rules, (rep.iterations - 1) as nat);
            assert(last.axioms.difference(f.axioms) =~= Set::empty());
            assert(last.edges.difference(f.edges) =~= Set::empty());
            if rep.derived_axioms@.len() > 0 {
                assert(axiom_kinds(rep.derived_axioms@).contains(rep.derived_axioms@[0].kind@));
            }
            if rep.derived_edges@.len() > 0 {
                assert(edge_keys(rep.derived_edges@).contains(rep.derived_edges@[0].key()));
            }
        },
        Err(_) => {
            assert(!stable(iterate(f, rules, 0), rules));
        },
    }
}

/// Materializing closes the ontology: once a run's derivations are merged
/// back, the ontology's facts are closed under the rules (so a second run
/// derives nothing).
pub proof fn law_materialize_closes(reasoner: Reasoner, before: Ontology, after: Ontology, rep: ReasoningReport)
    requires
        reasoner.reports(before.facts(), Ok(rep)),
        after.axioms@ == before.axioms@ + rep.derived_axioms@,
        edges_appended(after.edges@, before.edges@, rep.derived_edges@),
    ensures
        closed_under(after.facts(), reasoner.spec_rules()),
{
    law_run_reaches_closure(reasoner, before.facts(), rep);
    let (a, b, d) = (after.axioms@, before.axioms@, rep.derived_axioms@);
    assert(axiom_kinds(a) =~= axiom_kinds(b).union(axiom_kinds(d))) by {
        assert forall|k: KindView| axiom_kinds(a).contains(k) implies axiom_kinds(b).union(axiom_kinds(d)).contains(k) by {
            let i = choose|i: int| 0 <= i < a.len() && a[i].kind@ == k;
            if i < b.len() {
                assert(a[i] == b[i]);
            } else {
                assert(a[i] == d[i - b.len()]);
            }
        }
        assert forall|k: KindView| axiom_kinds(b).union(axiom_kinds(d)).contains(k) implies axiom_kinds(a).contains(k) by {
            if axiom_kinds(b).contains(k) {
                let i = choose|i: int| 0 <= i < b.len() && b[i].kind@ == k;
                assert(a[i] == b[i]);
            } else {
                let i = choose|i: int| 0 <= i < d.len() && d[i].kind@ == k;
                assert(a[i + b.len()] == d[i]);
            }
        }
    }
    let (ae, be, de) = (after.edges@, before.edges@, rep.derived_edges@);
    assert(edge_keys(ae) =~= edge_keys(be).union(edge_keys(de))) by {
        assert forall|k: EdgeKey| edge_keys(ae).contains(k) implies edge_keys(be).union(edge_keys(de)).contains(k) by {
            let i = choose|i: int| 0 <= i < ae.len() && ae[i].key() == k;
            if i < be.len() {
                assert(ae.subrange(0, be.len() as int)[i] == ae[i]);
            } else {
                assert(ae[be.len() + (i - be.len())].key() == de[i - be.len()].key());
            }
        }
        assert forall|k: EdgeKey| edge_keys(be).union(edge_keys(de)).contains(k) implies edge_keys(ae).contains(k) by {
            if edge_keys(be).contains(k) {
                let i = choose|i: int| 0 <= i < be.len() && be[i].key() == k;
                assert(ae.subrange(0, be.len() as int)[i] == ae[i]);
            } else {
                let i = choose|i: int| 0 <= i < de.len() && de[i].key() == k;
                assert(ae[be.len() + i].key() == de[i].key());
            }
        }
    }
    assert(after.facts() =~= closure_of(before.facts(), rep));
}


/// One rule's additions keep every interpretation of the facts.
proof fn lemma_round_upto_models(
    f: Facts,
    rules: Seq<Rule>,
    n: nat,
    class: spec_fn(Seq<char>) -> Set<NodeId>,
    prop: spec_fn(Seq<char>) -> Set<(NodeId, NodeId)>,
)
    requires
        models(class, prop, f),
        n <= rules.len(),
    ensures
        models(class, prop, round_upto(f, rules, n)),
    decreases n,
{
    if n > 0 {
        lemma_round_upto_models(f, rules, (n - 1) as nat, class, prop);
        let g = round_upto(f, rules, (n - 1) as nat);
        law_rule_sound(rules[n - 1], g, class, prop);
    }
}

/// Reasoning is sound in every interpretation: wherever all the asserted
/// axioms and edges hold (classes read as sets of nodes, properties as
/// relations between nodes), everything derived after any number of
/// rounds holds as well.
pub proof fn law_reasoning_preserves_models(
    f: Facts,
    rules: Seq<Rule>,
    k: nat,
    class: spec_fn(Seq<char>) -> Set<NodeId>,
    prop: spec_fn(Seq<char>) -> Set<(NodeId, NodeId)>,
)
    requires
        models(class, prop, f),
    ensures
        models(class, prop, iterate(f, rules, k)),
    decreases k,
{
    if k > 0 {
        law_reasoning_preserves_models(f, rules, (k - 1) as nat, class, prop);
        lemma_round_upto_models(iterate(f, rules, (k - 1) as nat), rules, rules.len(), class, prop);
    }
}

} // verus!
