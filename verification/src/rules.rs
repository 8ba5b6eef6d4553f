//! Forward-chaining rule definitions.
//!
//! Each [`Rule`] is a single OWL 2 RL / EL inference shape. Applied to an
//! ontology it yields the conclusions that the ontology does not assert yet:
//!
//! - `SubClassTransitivity` — `A ⊑ B ∧ B ⊑ C ⟹ A ⊑ C` (never `A ⊑ A`)
//! - `EquivalentSymmetry`   — `A ≡ B ⟹ B ≡ A`
//! - `EquivalentToSubClass` — `A ≡ B ⟹ A ⊑ B ∧ B ⊑ A`
//! - `InverseOfSymmetry`    — `InverseOf(P, Q) ⟹ InverseOf(Q, P)`
//! - `PropertySymmetry`     — `Symmetric(P) ∧ (a P b) ⟹ (b P a)`
//! - `PropertyTransitivity` — `Transitive(P) ∧ (a P b) ∧ (b P c) ⟹ (a P c)` (never `a P a`)
//! - `InverseOfMaterializes`— `InverseOf(P, Q) ∧ (a P b) ⟹ (b Q a)`, in both rotations
use vstd::prelude::*;

use crate::model::{
    axiom_kinds, contains_edge, contains_kind, edge_keys, lemma_axiom_kinds_push, lemma_edge_keys_push,
    Axiom, AxiomKind, Edge, EdgeKey, Facts, KindView, NodeId, Ontology,
};

verus! {

/// A single forward-chaining inference rule.
#[derive(Clone, Copy, Debug, PartialEq, Eq, Structural, Hash)]
pub enum Rule {
    SubClassTransitivity,
    EquivalentSymmetry,
    EquivalentToSubClass,
    InverseOfSymmetry,
    PropertySymmetry,
    PropertyTransitivity,
    InverseOfMaterializes,
}

/// What one rule application adds: axioms and edges.
#[derive(Clone, Debug)]
pub struct RuleOutput {
    pub axioms: Vec<Axiom>,
    pub edges: Vec<Edge>,
}

// ---------------------------------------------------------------------
// What each rule concludes from a set of facts
// ---------------------------------------------------------------------

/// `A ⊑ C` follows from `A ⊑ B ∧ B ⊑ C` with `A ≠ C`.
pub open spec fn subclass_chain(a: Set<KindView>, k: KindView) -> bool {
    match k {
        KindView::SubClassOf(x, z) => x != z && exists|y: Seq<char>|
            #![trigger a.contains(KindView::SubClassOf(x, y))]
            a.contains(KindView::SubClassOf(x, y)) && a.contains(KindView::SubClassOf(y, z)),
        _ => false,
    }
}

/// `B ≡ A` follows from `A ≡ B`.
pub open spec fn equivalence_flipped(a: Set<KindView>, k: KindView) -> bool {
    match k {
        KindView::EquivalentClass(l, r) => a.contains(KindView::EquivalentClass(r, l)),
        _ => false,
    }
}

/// `A ⊑ B` follows from `A ≡ B` or from `B ≡ A`.
pub open spec fn equivalence_as_subclass(a: Set<KindView>, k: KindView) -> bool {
    match k {
        KindView::SubClassOf(l, r) => a.contains(KindView::EquivalentClass(l, r)) || a.contains(
            KindView::EquivalentClass(r, l),
        ),
        _ => false,
    }
}

/// `InverseOf(Q, P)` follows from `InverseOf(P, Q)`.
pub open spec fn inverse_flipped(a: Set<KindView>, k: KindView) -> bool {
    match k {
        KindView::InverseOf(l, r) => a.contains(KindView::InverseOf(r, l)),
        _ => false,
    }
}

/// `(b P a)` follows from `Symmetric(P)` and `(a P b)`.
pub open spec fn symmetric_edge(f: Facts, k: EdgeKey) -> bool {
    f.axioms.contains(KindView::Symmetric(k.0)) && f.edges.contains((k.0, k.2, k.1))
}

/// `(a P c)` follows from `Transitive(P)`, `(a P b)` and `(b P c)` with `a ≠ c`.
pub open spec fn transitive_edge(f: Facts, k: EdgeKey) -> bool {
    f.axioms.contains(KindView::Transitive(k.0)) && k.1 != k.2 && exists|b: NodeId|
        #![trigger f.edges.contains((k.0, k.1, b))]
        f.edges.contains((k.0, k.1, b)) && f.edges.contains((k.0, b, k.2))
}

/// `(b Q a)` follows from `(a P b)` when `P` and `Q` are declared inverses (either way round).
pub open spec fn inverse_edge(f: Facts, k: EdgeKey) -> bool {
    exists|p: Seq<char>|
        #![trigger f.edges.contains((p, k.2, k.1))]
        f.edges.contains((p, k.2, k.1)) && (f.axioms.contains(KindView::InverseOf(p, k.0))
            || f.axioms.contains(KindView::InverseOf(k.0, p)))
}

/// The axiom shapes a rule concludes from `f` (asserted or not).
pub open spec fn concluded_axioms(rule: Rule, f: Facts) -> Set<KindView> {
    match rule {
        Rule::SubClassTransitivity => Set::new(|k: KindView| subclass_chain(f.axioms, k)),
        Rule::EquivalentSymmetry => Set::new(|k: KindView| equivalence_flipped(f.axioms, k)),
        Rule::EquivalentToSubClass => Set::new(|k: KindView| equivalence_as_subclass(f.axioms, k)),
        Rule::InverseOfSymmetry => Set::new(|k: KindView| inverse_flipped(f.axioms, k)),
        _ => Set::empty(),
    }
}

/// The edge identities a rule concludes from `f` (asserted or not).
pub open spec fn concluded_edges(rule: Rule, f: Facts) -> Set<EdgeKey> {
    match rule {
        Rule::PropertySymmetry => Set::new(|k: EdgeKey| symmetric_edge(f, k)),
        Rule::PropertyTransitivity => Set::new(|k: EdgeKey| transitive_edge(f, k)),
        Rule::InverseOfMaterializes => Set::new(|k: EdgeKey| inverse_edge(f, k)),
        _ => Set::empty(),
    }
}

/// The new facts a rule derives from `f`: its conclusions that `f` does not assert.
pub open spec fn derived(rule: Rule, f: Facts) -> Facts {
    Facts {
        axioms: concluded_axioms(rule, f).difference(f.axioms),
        edges: concluded_edges(rule, f).difference(f.edges),
    }
}

// ---------------------------------------------------------------------
// Meaning: the rules are sound in every interpretation
// ---------------------------------------------------------------------

/// Every member of class `a` is a member of class `b`.
pub open spec fn included(class: spec_fn(Seq<char>) -> Set<NodeId>, a: Seq<char>, b: Seq<char>) -> bool {
    forall|x: NodeId| #[trigger] class(a).contains(x) ==> class(b).contains(x)
}

/// Property `p` relates `x` to `y` exactly when `q` relates `y` to `x`.
pub open spec fn inverse_pairs(prop: spec_fn(Seq<char>) -> Set<(NodeId, NodeId)>, p: Seq<char>, q: Seq<char>) -> bool {
    &&& forall|x: NodeId, y: NodeId| #[trigger] prop(p).contains((x, y)) ==> prop(q).contains((y, x))
    &&& forall|x: NodeId, y: NodeId| #[trigger] prop(q).contains((y, x)) ==> prop(p).contains((x, y))
}

/// Property `p` relates `y` to `x` whenever it relates `x` to `y`.
pub open spec fn symmetric_pairs(prop: spec_fn(Seq<char>) -> Set<(NodeId, NodeId)>, p: Seq<char>) -> bool {
    forall|x: NodeId, y: NodeId| #[trigger] prop(p).contains((x, y)) ==> prop(p).contains((y, x))
}

/// Property `p` relates `x` to `z` whenever it relates `x` to `y` and `y` to `z`.
pub open spec fn transitive_pairs(prop: spec_fn(Seq<char>) -> Set<(NodeId, NodeId)>, p: Seq<char>) -> bool {
    forall|x: NodeId, y: NodeId, z: NodeId|
        #[trigger] prop(p).contains((x, y)) && #[trigger] prop(p).contains((y, z)) ==> prop(p).contains((x, z))
}

/// Axiom `k` holds when each class name denotes the set `class` gives it
/// and each property name the pairs `prop` gives it: `A ⊑ B` is inclusion,
/// `A ≡ B` inclusion both ways, disjointness empty overlap, domain and range
/// bound the pairs' ends, and the property characteristics constrain the
/// pairs.
pub open spec fn holds_in(class: spec_fn(Seq<char>) -> Set<NodeId>, prop: spec_fn(Seq<char>) -> Set<(NodeId, NodeId)>, k: KindView) -> bool {
    match k {
        KindView::SubClassOf(a, b) => included(class, a, b),
        KindView::EquivalentClass(a, b) => included(class, a, b) && included(class, b, a),
        KindView::DisjointWith(a, b) => forall|x: NodeId| #[trigger] class(a).contains(x) ==> !class(b).contains(x),
        KindView::Domain(p, c) => forall|x: NodeId, y: NodeId| #[trigger] prop(p).contains((x, y)) ==> class(c).contains(x),
        KindView::Range(p, c) => forall|x: NodeId, y: NodeId| #[trigger] prop(p).contains((x, y)) ==> class(c).contains(y),
        KindView::Functional(p) => forall|x: NodeId, y: NodeId, z: NodeId|
            #[trigger] prop(p).contains((x, y)) && #[trigger] prop(p).contains((x, z)) ==> y == z,
        KindView::InverseFunctional(p) => forall|x: NodeId, y: NodeId, z: NodeId|
            #[trigger] prop(p).contains((x, z)) && #[trigger] prop(p).contains((y, z)) ==> x == y,
        KindView::InverseOf(p, q) => inverse_pairs(prop, p, q),
        KindView::Symmetric(p) => symmetric_pairs(prop, p),
        KindView::Transitive(p) => transitive_pairs(prop, p),
    }
}

/// Every axiom and edge of `f` holds: each edge `(P, a, b)` relates `a` to
/// `b` under `P`.
pub open spec fn models(class: spec_fn(Seq<char>) -> Set<NodeId>, prop: spec_fn(Seq<char>) -> Set<(NodeId, NodeId)>, f: Facts) -> bool {
    &&& forall|k: KindView| #[trigger] f.axioms.contains(k) ==> holds_in(class, prop, k)
    &&& forall|e: EdgeKey| #[trigger] f.edges.contains(e) ==> prop(e.0).contains((e.1, e.2))
}

/// Soundness: in every interpretation where the facts hold, everything a
/// rule concludes from them holds too. So `A ⊑ B ∧ B ⊑ C` gives `A ⊑ C`
/// (never `C ⊑ A`), a symmetric or inverse property's pair comes back
/// reversed, and a transitive chain closes from its first node to its
/// last.
pub proof fn law_rule_sound(
    rule: Rule,
    f: Facts,
    class: spec_fn(Seq<char>) -> Set<NodeId>,
    prop: spec_fn(Seq<char>) -> Set<(NodeId, NodeId)>,
)
    requires
        models(class, prop, f),
    ensures
        forall|k: KindView| #[trigger] concluded_axioms(rule, f).contains(k) ==> holds_in(class, prop, k),
        forall|e: EdgeKey| #[trigger] concluded_edges(rule, f).contains(e) ==> prop(e.0).contains((e.1, e.2)),
{
    assert forall|k: KindView| #[trigger] concluded_axioms(rule, f).contains(k) implies holds_in(class, prop, k) by {
        match rule {
            Rule::SubClassTransitivity => {
                if let KindView::SubClassOf(x, z) = k {
                    let y = choose|y: Seq<char>| #![trigger f.axioms.contains(KindView::SubClassOf(x, y))]
                        f.axioms.contains(KindView::SubClassOf(x, y)) && f.axioms.contains(KindView::SubClassOf(y, z));
                    assert(holds_in(class, prop, KindView::SubClassOf(x, y)));
                    assert(holds_in(class, prop, KindView::SubClassOf(y, z)));
                    assert(included(class, x, y) && included(class, y, z));
                    assert(included(class, x, z));
                }
            },
            Rule::EquivalentSymmetry => {
                if let KindView::EquivalentClass(l, r) = k {
                    assert(holds_in(class, prop, KindView::EquivalentClass(r, l)));
                }
            },
            Rule::EquivalentToSubClass => {
                if let KindView::SubClassOf(l, r) = k {
                    if f.axioms.contains(KindView::EquivalentClass(l, r)) {
                        assert(holds_in(class, prop, KindView::EquivalentClass(l, r)));
                    } else {
                        assert(holds_in(class, prop, KindView::EquivalentClass(r, l)));
                    }
                }
            },
            Rule::InverseOfSymmetry => {
                if let KindView::InverseOf(l, r) = k {
                    assert(holds_in(class, prop, KindView::InverseOf(r, l)));
                    assert(inverse_pairs(prop, r, l));
                    assert(inverse_pairs(prop, l, r));
                }
            },
            _ => {},
        }
    }
    assert forall|e: EdgeKey| #[trigger] concluded_edges(rule, f).contains(e) implies prop(e.0).contains((e.1, e.2)) by {
        match rule {
            Rule::PropertySymmetry => {
                assert(f.edges.contains((e.0, e.2, e.1)));
                assert(holds_in(class, prop, KindView::Symmetric(e.0)));
                assert(symmetric_pairs(prop, e.0));
                assert(prop(e.0).contains((e.2, e.1)));
            },
            Rule::PropertyTransitivity => {
                let b = choose|b: NodeId| #![trigger f.edges.contains((e.0, e.1, b))]
                    f.edges.contains((e.0, e.1, b)) && f.edges.contains((e.0, b, e.2));
                assert(f.edges.contains((e.0, e.1, b)));
                assert(f.edges.contains((e.0, b, e.2)));
                assert(holds_in(class, prop, KindView::Transitive(e.0)));
                assert(transitive_pairs(prop, e.0));
                assert(prop(e.0).contains((e.1, b)) && prop(e.0).contains((b, e.2)));
            },
            Rule::InverseOfMaterializes => {
                let p = choose|p: Seq<char>| #![trigger f.edges.contains((p, e.2, e.1))]
                    f.edges.contains((p, e.2, e.1)) && (f.axioms.contains(KindView::InverseOf(p, e.0))
                        || f.axioms.contains(KindView::InverseOf(e.0, p)));
                assert(f.edges.contains((p, e.2, e.1)));
                assert(prop(p).contains((e.2, e.1)));
                if f.axioms.contains(KindView::InverseOf(p, e.0)) {
                    assert(holds_in(class, prop, KindView::InverseOf(p, e.0)));
                    assert(inverse_pairs(prop, p, e.0));
                } else {
                    assert(holds_in(class, prop, KindView::InverseOf(e.0, p)));
                    assert(inverse_pairs(prop, e.0, p));
                }
            },
            _ => {},
        }
    }
}

/// No two axioms of `s` share a shape.
pub open spec fn distinct_axioms(s: Seq<Axiom>) -> bool {
    forall|i: int, j: int| 0 <= i < j < s.len() ==> s[i].kind@ != s[j].kind@
}

/// No two edges of `s` share an identity.
pub open spec fn distinct_edges(s: Seq<Edge>) -> bool {
    forall|i: int, j: int| 0 <= i < j < s.len() ==> s[i].key() != s[j].key()
}

/// Every axiom of `s` is without provenance.
pub open spec fn fresh_axioms(s: Seq<Axiom>) -> bool {
    forall|i: int| 0 <= i < s.len() ==> s[i].provenance.is_none()
}

/// Every edge of `s` is without properties.
pub open spec fn bare_edges(s: Seq<Edge>) -> bool {
    forall|i: int| 0 <= i < s.len() ==> s[i].properties@.len() == 0
}

impl RuleOutput {
    /// `true` when this output holds exactly the facts `d`, each once,
    /// as fresh axioms and bare edges.
    pub open spec fn holds_exactly(&self, d: Facts) -> bool {
        &&& axiom_kinds(self.axioms@) == d.axioms
        &&& edge_keys(self.edges@) == d.edges
        &&& distinct_axioms(self.axioms@)
        &&& distinct_edges(self.edges@)
        &&& fresh_axioms(self.axioms@)
        &&& bare_edges(self.edges@)
    }

    /// Empty output.
    pub fn empty() -> (r: RuleOutput)
        ensures
            r.axioms@.len() == 0,
            r.edges@.len() == 0,
    {
        RuleOutput { axioms: Vec::new(), edges: Vec::new() }
    }

    /// `true` when the rule produced neither axioms nor edges.
    pub fn is_empty(&self) -> (r: bool)
        ensures
            r == (self.axioms@.len() == 0 && self.edges@.len() == 0),
    {
        self.axioms.len() == 0 && self.edges.len() == 0
    }
}

// ---------------------------------------------------------------------
// Building outputs without duplicates
// ---------------------------------------------------------------------

/// Push `kind` onto `out` unless `known` or `out` already holds that shape.
fn push_axiom_if_new(out: &mut Vec<Axiom>, known: &Vec<Axiom>, kind: AxiomKind)
    requires
        distinct_axioms(old(out)@),
        fresh_axioms(old(out)@),
    ensures
        distinct_axioms(final(out)@),
        fresh_axioms(final(out)@),
        axiom_kinds(final(out)@) == axiom_kinds(old(out)@).union(
            set![kind@].difference(axiom_kinds(known@)),
        ),
{
    if contains_kind(known, &kind) || contains_kind(out, &kind) {
        assert(axiom_kinds(old(out)@).union(set![kind@].difference(axiom_kinds(known@)))
            =~= axiom_kinds(old(out)@));
    } else {
        let ghost before = out@;
        let a = Axiom::new(kind);
        proof {
            lemma_axiom_kinds_push(before, a);
        }
        out.push(a);
        assert(out@ == before.push(a));
        assert(axiom_kinds(before).union(set![a.kind@].difference(axiom_kinds(known@)))
            =~= axiom_kinds(before).insert(a.kind@));
    }
}

/// Push the bare edge `(label, source, target)` unless `known` or `out` holds it.
fn push_edge_if_new(
    out: &mut Vec<Edge>,
    known: &Vec<Edge>,
    source: NodeId,
    label: String,
    target: NodeId,
)
    requires
        distinct_edges(old(out)@),
        bare_edges(old(out)@),
    ensures
        distinct_edges(final(out)@),
        bare_edges(final(out)@),
        edge_keys(final(out)@) == edge_keys(old(out)@).union(
            set![(label@, source, target)].difference(edge_keys(known@)),
        ),
{
    if contains_edge(known, &label, source, target) || contains_edge(out, &label, source, target) {
        assert(edge_keys(old(out)@).union(
            set![(label@, source, target)].difference(edge_keys(known@)),
        ) =~= edge_keys(old(out)@));
    } else {
        let ghost before = out@;
        let e = Edge::between(source, label, target);
        proof {
            lemma_edge_keys_push(before, e);
        }
        out.push(e);
        assert(out@ == before.push(e));
        assert(edge_keys(before).union(
            set![(label@, source, target)].difference(edge_keys(known@)),
        ) =~= edge_keys(before).insert(e.key()));
    }
}

// ---------------------------------------------------------------------
// Single-premise axiom rules
// ---------------------------------------------------------------------

/// The single-premise axiom rewrites.
#[derive(Clone, Copy)]
enum Rewrite {
    FlipEquivalence,
    EquivalenceForward,
    EquivalenceBackward,
    FlipInverse,
}

spec fn rewrite_of(w: Rewrite, k: KindView) -> Option<KindView> {
    match (w, k) {
        (Rewrite::FlipEquivalence, KindView::EquivalentClass(l, r)) => Some(
            KindView::EquivalentClass(r, l),
        ),
        (Rewrite::EquivalenceForward, KindView::EquivalentClass(l, r)) => Some(
            KindView::SubClassOf(l, r),
        ),
        (Rewrite::EquivalenceBackward, KindView::EquivalentClass(l, r)) => Some(
            KindView::SubClassOf(r, l),
        ),
        (Rewrite::FlipInverse, KindView::InverseOf(l, r)) => Some(KindView::InverseOf(r, l)),
        _ => None,
    }
}

fn rewrite_exec(w: Rewrite, k: &AxiomKind) -> (r: Option<AxiomKind>)
    ensures
        match r {
            Some(v) => rewrite_of(w, k@) == Some(v@),
            None => rewrite_of(w, k@).is_none(),
        },
{
    match (w, k) {
        (Rewrite::FlipEquivalence, AxiomKind::EquivalentClass { left, right }) => Some(
            AxiomKind::EquivalentClass { left: right.clone(), right: left.clone() },
        ),
        (Rewrite::EquivalenceForward, AxiomKind::EquivalentClass { left, right }) => Some(
            AxiomKind::SubClassOf { sub: left.clone(), sup: right.clone() },
        ),
        (Rewrite::EquivalenceBackward, AxiomKind::EquivalentClass { left, right }) => Some(
            AxiomKind::SubClassOf { sub: right.clone(), sup: left.clone() },
        ),
        (Rewrite::FlipInverse, AxiomKind::InverseOf { left, right }) => Some(
            AxiomKind::InverseOf { left: right.clone(), right: left.clone() },
        ),
        _ => None,
    }
}

/// The rewrites of the first `n` axioms of `s`.
spec fn rewrites_upto(s: Seq<Axiom>, n: int, w: Rewrite) -> Set<KindView> {
    Set::new(|k: KindView| exists|i: int| 0 <= i < n && rewrite_of(w, #[trigger] s[i].kind@) == Some(k))
}

/// The rewrites of a set of shapes.
spec fn rewrites_of(a: Set<KindView>, w: Rewrite) -> Set<KindView> {
    Set::new(|k: KindView| exists|x: KindView| a.contains(x) && rewrite_of(w, x) == Some(k))
}

proof fn lemma_rewrites_full(s: Seq<Axiom>, w: Rewrite)
    ensures
        rewrites_upto(s, s.len() as int, w) == rewrites_of(axiom_kinds(s), w),
{
    let l = rewrites_upto(s, s.len() as int, w);
    let r = rewrites_of(axiom_kinds(s), w);
    assert forall|k: KindView| l.contains(k) implies r.contains(k) by {
        let i = choose|i: int| 0 <= i < s.len() && rewrite_of(w, #[trigger] s[i].kind@) == Some(k);
        assert(axiom_kinds(s).contains(s[i].kind@));
    }
    assert forall|k: KindView| r.contains(k) implies l.contains(k) by {
        let x = choose|x: KindView| axiom_kinds(s).contains(x) && rewrite_of(w, x) == Some(k);
        let i = choose|i: int| 0 <= i < s.len() && s[i].kind@ == x;
        assert(rewrite_of(w, s[i].kind@) == Some(k));
    }
    assert(l =~= r);
}

/// Push the rewrite `w` of every axiom of `axioms` that is not asserted yet.
fn apply_rewrite(axioms: &Vec<Axiom>, out: &mut Vec<Axiom>, w: Rewrite)
    requires
        distinct_axioms(old(out)@),
        fresh_axioms(old(out)@),
    ensures
        distinct_axioms(final(out)@),
        fresh_axioms(final(out)@),
        axiom_kinds(final(out)@) == axiom_kinds(old(out)@).union(
            rewrites_of(axiom_kinds(axioms@), w).difference(axiom_kinds(axioms@)),
        ),
{
    let ghost start = axiom_kinds(out@);
    let ghost a = axiom_kinds(axioms@);
    let mut i: usize = 0;
    assert(rewrites_upto(axioms@, 0, w) =~= Set::empty());
    assert(start.union(rewrites_upto(axioms@, 0, w).difference(a)) =~= start);
    while i < axioms.len()
        invariant
            i <= axioms.len(),
            a == axiom_kinds(axioms@),
            distinct_axioms(out@),
            fresh_axioms(out@),
            axiom_kinds(out@) == start.union(rewrites_upto(axioms@, i as int, w).difference(a)),
        decreases axioms.len() - i,
    {
        let r = rewrite_exec(w, &axioms[i].kind);
        let ghost prev = axiom_kinds(out@);
        match r {
            Some(kind) => {
                let ghost kv = kind@;
                push_axiom_if_new(out, axioms, kind);
                assert(rewrites_upto(axioms@, i + 1, w) =~= rewrites_upto(axioms@, i as int, w).insert(kv)) by {
                    assert(rewrite_of(w, axioms@[i as int].kind@) == Some(kv));
                }
                assert(axiom_kinds(out@) =~= start.union(rewrites_upto(axioms@, i + 1, w).difference(a)));
            },
            None => {
                assert(rewrites_upto(axioms@, i + 1, w) =~= rewrites_upto(axioms@, i as int, w));
            },
        }
        i = i + 1;
    }
    proof {
        lemma_rewrites_full(axioms@, w);
    }
}

fn equivalent_symmetry(ontology: &Ontology) -> (out: RuleOutput)
    ensures
        out.holds_exactly(derived(Rule::EquivalentSymmetry, ontology.facts())),
{
    let mut out = RuleOutput::empty();
    apply_rewrite(&ontology.axioms, &mut out.axioms, Rewrite::FlipEquivalence);
    let ghost a = axiom_kinds(ontology.axioms@);
    assert(rewrites_of(a, Rewrite::FlipEquivalence) =~= concluded_axioms(Rule::EquivalentSymmetry, ontology.facts())) by {
        assert forall|k: KindView| #[trigger] rewrites_of(a, Rewrite::FlipEquivalence).contains(k) implies equivalence_flipped(a, k) by {
            let x = choose|x: KindView| a.contains(x) && rewrite_of(Rewrite::FlipEquivalence, x) == Some(k);
        }
        assert forall|k: KindView| equivalence_flipped(a, k) implies #[trigger] rewrites_of(a, Rewrite::FlipEquivalence).contains(k) by {
            if let KindView::EquivalentClass(l, r) = k {
                assert(rewrite_of(Rewrite::FlipEquivalence, KindView::EquivalentClass(r, l)) == Some(k));
            }
        }
    }
    assert(axiom_kinds(out.axioms@) =~= derived(Rule::EquivalentSymmetry, ontology.facts()).axioms);
    assert(edge_keys(out.edges@) =~= Set::empty());
    assert(derived(Rule::EquivalentSymmetry, ontology.facts()).edges =~= Set::empty());
    out
}

fn inverse_of_symmetry(ontology: &Ontology) -> (out: RuleOutput)
    ensures
        out.holds_exactly(derived(Rule::InverseOfSymmetry, ontology.facts())),
{
    let mut out = RuleOutput::empty();
    apply_rewrite(&ontology.axioms, &mut out.axioms, Rewrite::FlipInverse);
    let ghost a = axiom_kinds(ontology.axioms@);
    assert(rewrites_of(a, Rewrite::FlipInverse) =~= concluded_axioms(Rule::InverseOfSymmetry, ontology.facts())) by {
        assert forall|k: KindView| #[trigger] rewrites_of(a, Rewrite::FlipInverse).contains(k) implies inverse_flipped(a, k) by {
            let x = choose|x: KindView| a.contains(x) && rewrite_of(Rewrite::FlipInverse, x) == Some(k);
        }
        assert forall|k: KindView| inverse_flipped(a, k) implies #[trigger] rewrites_of(a, Rewrite::FlipInverse).contains(k) by {
            if let KindView::InverseOf(l, r) = k {
                assert(rewrite_of(Rewrite::FlipInverse, KindView::InverseOf(r, l)) == Some(k));
            }
        }
    }
    assert(axiom_kinds(out.axioms@) =~= derived(Rule::InverseOfSymmetry, ontology.facts()).axioms);
    assert(edge_keys(out.edges@) =~= Set::empty());
    assert(derived(Rule::InverseOfSymmetry, ontology.facts()).edges =~= Set::empty());
    out
}

fn equivalent_to_subclass(ontology: &Ontology) -> (out: RuleOutput)
    ensures
        out.holds_exactly(derived(Rule::EquivalentToSubClass, ontology.facts())),
{
    let mut out = RuleOutput::empty();
    apply_rewrite(&ontology.axioms, &mut out.axioms, Rewrite::EquivalenceForward);
    apply_rewrite(&ontology.axioms, &mut out.axioms, Rewrite::EquivalenceBackward);
    let ghost a = axiom_kinds(ontology.axioms@);
    let ghost both = rewrites_of(a, Rewrite::EquivalenceForward).union(rewrites_of(a, Rewrite::EquivalenceBackward));
    assert(both =~= concluded_axioms(Rule::EquivalentToSubClass, ontology.facts())) by {
        assert forall|k: KindView| #[trigger] both.contains(k) implies equivalence_as_subclass(a, k) by {
            if rewrites_of(a, Rewrite::EquivalenceForward).contains(k) {
                let x = choose|x: KindView| a.contains(x) && rewrite_of(Rewrite::EquivalenceForward, x) == Some(k);
            } else {
                let x = choose|x: KindView| a.contains(x) && rewrite_of(Rewrite::EquivalenceBackward, x) == Some(k);
            }
        }
        assert forall|k: KindView| equivalence_as_subclass(a, k) implies #[trigger] both.contains(k) by {
            if let KindView::SubClassOf(l, r) = k {
                if a.contains(KindView::EquivalentClass(l, r)) {
                    assert(rewrite_of(Rewrite::EquivalenceForward, KindView::EquivalentClass(l, r)) == Some(k));
                    assert(rewrites_of(a, Rewrite::EquivalenceForward).contains(k));
                } else {
                    assert(rewrite_of(Rewrite::EquivalenceBackward, KindView::EquivalentClass(r, l)) == Some(k));
                    assert(rewrites_of(a, Rewrite::EquivalenceBackward).contains(k));
                }
            }
        }
    }
    assert(axiom_kinds(out.axioms@) =~= derived(Rule::EquivalentToSubClass, ontology.facts()).axioms);
    assert(edge_keys(out.edges@) =~= Set::empty());
    assert(derived(Rule::EquivalentToSubClass, ontology.facts()).edges =~= Set::empty());
    out
}

// ---------------------------------------------------------------------
// Subclass transitivity
// ---------------------------------------------------------------------

spec fn chain_of(kp: KindView, kq: KindView) -> Option<KindView> {
    match (kp, kq) {
        (KindView::SubClassOf(x, y), KindView::SubClassOf(y2, z)) => if y == y2 && x != z {
            Some(KindView::SubClassOf(x, z))
        } else {
            None
        },
        _ => None,
    }
}

fn chain_exec(kp: &AxiomKind, kq: &AxiomKind) -> (r: Option<AxiomKind>)
    ensures
        match r {
            Some(v) => chain_of(kp@, kq@) == Some(v@),
            None => chain_of(kp@, kq@).is_none(),
        },
{
    match (kp, kq) {
        (AxiomKind::SubClassOf { sub: x, sup: y }, AxiomKind::SubClassOf { sub: y2, sup: z }) => {
            if *y == *y2 && !(*x == *z) {
                Some(AxiomKind::SubClassOf { sub: x.clone(), sup: z.clone() })
            } else {
                None
            }
        },
        _ => None,
    }
}

/// Pairs `(p, q)` strictly before `(i, j)` in row-major order.
spec fn before(p: int, q: int, i: int, j: int) -> bool {
    p < i || (p == i && q < j)
}

spec fn chains_upto(s: Seq<Axiom>, i: int, j: int) -> Set<KindView> {
    Set::new(|k: KindView| exists|p: int, q: int|
        0 <= p < s.len() && 0 <= q < s.len() && before(p, q, i, j)
        && chain_of(#[trigger] s[p].kind@, #[trigger] s[q].kind@) == Some(k))
}

proof fn lemma_chains_full(s: Seq<Axiom>)
    ensures
        chains_upto(s, s.len() as int, 0) == Set::new(|k: KindView| subclass_chain(axiom_kinds(s), k)),
{
    let a = axiom_kinds(s);
    let l = chains_upto(s, s.len() as int, 0);
    let r = Set::new(|k: KindView| subclass_chain(a, k));
    assert forall|k: KindView| l.contains(k) implies r.contains(k) by {
        let (p, q) = choose|p: int, q: int|
            0 <= p < s.len() && 0 <= q < s.len() && before(p, q, s.len() as int, 0)
            && chain_of(#[trigger] s[p].kind@, #[trigger] s[q].kind@) == Some(k);
        if let KindView::SubClassOf(x, y) = s[p].kind@ {
            if let KindView::SubClassOf(y2, z) = s[q].kind@ {
                assert(a.contains(s[p].kind@));
                assert(a.contains(s[q].kind@));
                assert(a.contains(KindView::SubClassOf(x, y)) && a.contains(KindView::SubClassOf(y, z)));
            }
        }
    }
    assert forall|k: KindView| r.contains(k) implies l.contains(k) by {
        if let KindView::SubClassOf(x, z) = k {
            let y = choose|y: Seq<char>| a.contains(KindView::SubClassOf(x, y)) && a.contains(KindView::SubClassOf(y, z));
            let p = choose|p: int| 0 <= p < s.len() && s[p].kind@ == KindView::SubClassOf(x, y);
            let q = choose|q: int| 0 <= q < s.len() && s[q].kind@ == KindView::SubClassOf(y, z);
            assert(chain_of(s[p].kind@, s[q].kind@) == Some(k));
        }
    }
    assert(l =~= r);
}

fn subclass_transitivity(ontology: &Ontology) -> (out: RuleOutput)
    ensures
        out.holds_exactly(derived(Rule::SubClassTransitivity, ontology.facts())),
{
    let mut out = RuleOutput::empty();
    let axs = &ontology.axioms;
    let ghost s = axs@;
    let ghost a = axiom_kinds(s);
    let n = axs.len();
    let mut i: usize = 0;
    assert(chains_upto(s, 0, 0) =~= Set::empty());
    assert(axiom_kinds(out.axioms@) =~= chains_upto(s, 0, 0).difference(a));
    while i < n
        invariant
            n == s.len(),
            s == axs@,
            a == axiom_kinds(s),
            i <= n,
            distinct_axioms(out.axioms@),
            fresh_axioms(out.axioms@),
            out.edges@.len() == 0,
            axiom_kinds(out.axioms@) == chains_upto(s, i as int, 0).difference(a),
        decreases n - i,
    {
        let mut j: usize = 0;
        assert(chains_upto(s, i as int, 0) =~= chains_upto(s, i as int, 0));
        while j < n
            invariant
                n == s.len(),
                s == axs@,
                a == axiom_kinds(s),
                i < n,
                j <= n,
                distinct_axioms(out.axioms@),
                fresh_axioms(out.axioms@),
                out.edges@.len() == 0,
                axiom_kinds(out.axioms@) == chains_upto(s, i as int, j as int).difference(a),
            decreases n - j,
        {
            let c = chain_exec(&axs[i].kind, &axs[j].kind);
            match c {
                Some(kind) => {
                    let ghost kv = kind@;
                    push_axiom_if_new(&mut out.axioms, axs, kind);
                    assert(chains_upto(s, i as int, j + 1) =~= chains_upto(s, i as int, j as int).insert(kv)) by {
                        assert(chain_of(s[i as int].kind@, s[j as int].kind@) == Some(kv));
                    }
                    assert(axiom_kinds(out.axioms@) =~= chains_upto(s, i as int, j + 1).difference(a));
                },
                None => {
                    assert(chains_upto(s, i as int, j + 1) =~= chains_upto(s, i as int, j as int));
                },
            }
            j = j + 1;
        }
        assert(chains_upto(s, i + 1, 0) =~= chains_upto(s, i as int, n as int));
        i = i + 1;
    }
    proof {
        lemma_chains_full(s);
    }
    assert(axiom_kinds(out.axioms@) =~= derived(Rule::SubClassTransitivity, ontology.facts()).axioms);
    assert(edge_keys(out.edges@) =~= Set::empty());
    assert(derived(Rule::SubClassTransitivity, ontology.facts()).edges =~= Set::empty());
    out
}

// ---------------------------------------------------------------------
// Edge rules
// ---------------------------------------------------------------------

spec fn symmetric_upto(s: Seq<Edge>, a: Set<KindView>, i: int) -> Set<EdgeKey> {
    Set::new(|k: EdgeKey| exists|p: int|
        0 <= p < i && a.contains(KindView::Symmetric((#[trigger] s[p]).label@))
        && k == (s[p].label@, s[p].target, s[p].source))
}

fn property_symmetry(ontology: &Ontology) -> (out: RuleOutput)
    ensures
        out.holds_exactly(derived(Rule::PropertySymmetry, ontology.facts())),
{
    let mut out = RuleOutput::empty();
    let es = &ontology.edges;
    let ghost s = es@;
    let ghost a = axiom_kinds(ontology.axioms@);
    let ghost e = edge_keys(s);
    let n = es.len();
    let mut i: usize = 0;
    assert(edge_keys(out.edges@) =~= symmetric_upto(s, a, 0).difference(e));
    while i < n
        invariant
            n == s.len(),
            s == es@,
            a == axiom_kinds(ontology.axioms@),
            e == edge_keys(s),
            i <= n,
            distinct_edges(out.edges@),
            bare_edges(out.edges@),
            out.axioms@.len() == 0,
            edge_keys(out.edges@) == symmetric_upto(s, a, i as int).difference(e),
        decreases n - i,
    {
        let probe = AxiomKind::Symmetric { property: es[i].label.clone() };
        if contains_kind(&ontology.axioms, &probe) {
            let ghost kv = (s[i as int].label@, s[i as int].target, s[i as int].source);
            push_edge_if_new(&mut out.edges, es, es[i].target, es[i].label.clone(), es[i].source);
            assert(symmetric_upto(s, a, i + 1) =~= symmetric_upto(s, a, i as int).insert(kv)) by {
                assert(a.contains(KindView::Symmetric(s[i as int].label@)));
            }
            assert(edge_keys(out.edges@) =~= symmetric_upto(s, a, i + 1).difference(e));
        } else {
            assert(symmetric_upto(s, a, i + 1) =~= symmetric_upto(s, a, i as int));
        }
        i = i + 1;
    }
    let ghost f = ontology.facts();
    assert(symmetric_upto(s, a, n as int) =~= concluded_edges(Rule::PropertySymmetry, f)) by {
        assert forall|k: EdgeKey| #[trigger] symmetric_upto(s, a, n as int).contains(k) implies symmetric_edge(f, k) by {
            let p = choose|p: int| 0 <= p < n && a.contains(KindView::Symmetric((#[trigger] s[p]).label@))
                && k == (s[p].label@, s[p].target, s[p].source);
            assert(s[p].key() == (k.0, k.2, k.1));
            assert(e.contains((k.0, k.2, k.1)));
        }
        assert forall|k: EdgeKey| symmetric_edge(f, k) implies #[trigger] symmetric_upto(s, a, n as int).contains(k) by {
            let p = choose|p: int| 0 <= p < s.len() && s[p].key() == (k.0, k.2, k.1);
            assert(a.contains(KindView::Symmetric(s[p].label@)));
        }
    }
    assert(edge_keys(out.edges@) =~= derived(Rule::PropertySymmetry, f).edges);
    assert(axiom_kinds(out.axioms@) =~= Set::empty());
    assert(derived(Rule::PropertySymmetry, f).axioms =~= Set::empty());
    out
}

spec fn hop_of(a: Set<KindView>, ep: Edge, eq: Edge) -> Option<EdgeKey> {
    if a.contains(KindView::Transitive(ep.label@)) && eq.label@ == ep.label@ && eq.source
        == ep.target && ep.source != eq.target {
        Some((ep.label@, ep.source, eq.target))
    } else {
        None
    }
}

spec fn hops_upto(s: Seq<Edge>, a: Set<KindView>, i: int, j: int) -> Set<EdgeKey> {
    Set::new(|k: EdgeKey| exists|p: int, q: int|
        0 <= p < s.len() && 0 <= q < s.len() && before(p, q, i, j)
        && hop_of(a, #[trigger] s[p], #[trigger] s[q]) == Some(k))
}

fn property_transitivity(ontology: &Ontology) -> (out: RuleOutput)
    ensures
        out.holds_exactly(derived(Rule::PropertyTransitivity, ontology.facts())),
{
    let mut out = RuleOutput::empty();
    let es = &ontology.edges;
    let ghost s = es@;
    let ghost a = axiom_kinds(ontology.axioms@);
    let ghost e = edge_keys(s);
    let n = es.len();
    let mut i: usize = 0;
    assert(edge_keys(out.edges@) =~= hops_upto(s, a, 0, 0).difference(e));
    while i < n
        invariant
            n == s.len(),
            s == es@,
            a == axiom_kinds(ontology.axioms@),
            e == edge_keys(s),
            i <= n,
            distinct_edges(out.edges@),
            bare_edges(out.edges@),
            out.axioms@.len() == 0,
            edge_keys(out.edges@) == hops_upto(s, a, i as int, 0).difference(e),
        decreases n - i,
    {
        let probe = AxiomKind::Transitive { property: es[i].label.clone() };
        let transitive = contains_kind(&ontology.axioms, &probe);
        let mut j: usize = 0;
        while j < n
            invariant
                n == s.len(),
                s == es@,
                a == axiom_kinds(ontology.axioms@),
                e == edge_keys(s),
                i < n,
                j <= n,
                transitive == a.contains(KindView::Transitive(s[i as int].label@)),
                distinct_edges(out.edges@),
                bare_edges(out.edges@),
                out.axioms@.len() == 0,
                edge_keys(out.edges@) == hops_upto(s, a, i as int, j as int).difference(e),
            decreases n - j,
        {
            if transitive && es[j].label == es[i].label && es[j].source == es[i].target
                && es[i].source != es[j].target {
                let ghost kv = (s[i as int].label@, s[i as int].source, s[j as int].target);
                push_edge_if_new(&mut out.edges, es, es[i].source, es[i].label.clone(), es[j].target);
                assert(hops_upto(s, a, i as int, j + 1) =~= hops_upto(s, a, i as int, j as int).insert(kv)) by {
                    assert(hop_of(a, s[i as int], s[j as int]) == Some(kv));
                }
                assert(edge_keys(out.edges@) =~= hops_upto(s, a, i as int, j + 1).difference(e));
            } else {
                assert(hop_of(a, s[i as int], s[j as int]).is_none());
                assert(hops_upto(s, a, i as int, j + 1) =~= hops_upto(s, a, i as int, j as int));
            }
            j = j + 1;
        }
        assert(hops_upto(s, a, i + 1, 0) =~= hops_upto(s, a, i as int, n as int));
        i = i + 1;
    }
    let ghost f = ontology.facts();
    assert(hops_upto(s, a, n as int, 0) =~= concluded_edges(Rule::PropertyTransitivity, f)) by {
        assert forall|k: EdgeKey| #[trigger] hops_upto(s, a, n as int, 0).contains(k) implies transitive_edge(f, k) by {
            let (p, q) = choose|p: int, q: int| 0 <= p < s.len() && 0 <= q < s.len() && before(p, q, n as int, 0)
                && hop_of(a, #[trigger] s[p], #[trigger] s[q]) == Some(k);
            assert(e.contains(s[p].key()));
            assert(e.contains(s[q].key()));
            assert(f.edges.contains((k.0, k.1, s[p].target)));
        }
        assert forall|k: EdgeKey| transitive_edge(f, k) implies #[trigger] hops_upto(s, a, n as int, 0).contains(k) by {
            let b = choose|b: NodeId| f.edges.contains((k.0, k.1, b)) && f.edges.contains((k.0, b, k.2));
            let p = choose|p: int| 0 <= p < s.len() && s[p].key() == (k.0, k.1, b);
            let q = choose|q: int| 0 <= q < s.len() && s[q].key() == (k.0, b, k.2);
            assert(hop_of(a, s[p], s[q]) == Some(k));
        }
    }
    assert(edge_keys(out.edges@) =~= derived(Rule::PropertyTransitivity, f).edges);
    assert(axiom_kinds(out.axioms@) =~= Set::empty());
    assert(derived(Rule::PropertyTransitivity, f).axioms =~= Set::empty());
    out
}

/// The edge that the inverse declaration `kq` materializes from `ep`, reading
/// `kq = InverseOf(l, r)` left to right (`side == 0`) or right to left (`side == 1`).
spec fn flip_of(ep: Edge, kq: KindView, side: int) -> Option<EdgeKey> {
    match kq {
        KindView::InverseOf(l, r) => if side == 0 && l == ep.label@ {
            Some((r, ep.target, ep.source))
        } else if side == 1 && r == ep.label@ {
            Some((l, ep.target, ep.source))
        } else {
            None
        },
        _ => None,
    }
}

spec fn flips_upto(s: Seq<Edge>, t: Seq<Axiom>, i: int, j: int) -> Set<EdgeKey> {
    Set::new(|k: EdgeKey| exists|p: int, q: int, side: int|
        0 <= p < s.len() && 0 <= q < t.len() && before(p, q, i, j) && (side == 0 || side == 1)
        && #[trigger] flip_of(s[p], t[q].kind@, side) == Some(k))
}

fn inverse_of_materializes(ontology: &Ontology) -> (out: RuleOutput)
    ensures
        out.holds_exactly(derived(Rule::InverseOfMaterializes, ontology.facts())),
{
    let mut out = RuleOutput::empty();
    let es = &ontology.edges;
    let axs = &ontology.axioms;
    let ghost s = es@;
    let ghost t = axs@;
    let ghost e = edge_keys(s);
    let n = es.len();
    let m = axs.len();
    let mut i: usize = 0;
    assert(edge_keys(out.edges@) =~= flips_upto(s, t, 0, 0).difference(e));
    while i < n
        invariant
            n == s.len(),
            m == t.len(),
            s == es@,
            t == axs@,
            e == edge_keys(s),
            i <= n,
            distinct_edges(out.edges@),
            bare_edges(out.edges@),
            out.axioms@.len() == 0,
            edge_keys(out.edges@) == flips_upto(s, t, i as int, 0).difference(e),
        decreases n - i,
    {
        let mut j: usize = 0;
        while j < m
            invariant
                n == s.len(),
                m == t.len(),
                s == es@,
                t == axs@,
                e == edge_keys(s),
                i < n,
                j <= m,
                distinct_edges(out.edges@),
                bare_edges(out.edges@),
                out.axioms@.len() == 0,
                edge_keys(out.edges@) == flips_upto(s, t, i as int, j as int).difference(e),
            decreases m - j,
        {
            let ghost before_set = flips_upto(s, t, i as int, j as int);
            if let AxiomKind::InverseOf { left, right } = &axs[j].kind {
                let ghost k0 = flip_of(s[i as int], t[j as int].kind@, 0);
                let ghost k1 = flip_of(s[i as int], t[j as int].kind@, 1);
                let ghost mid = match k0 { Some(k) => before_set.insert(k), None => before_set };
                if *left == es[i].label {
                    push_edge_if_new(&mut out.edges, es, es[i].target, right.clone(), es[i].source);
                }
                assert(edge_keys(out.edges@) =~= mid.difference(e));
                if *right == es[i].label {
                    push_edge_if_new(&mut out.edges, es, es[i].target, left.clone(), es[i].source);
                }
                let ghost after = match k1 { Some(k) => mid.insert(k), None => mid };
                assert(edge_keys(out.edges@) =~= after.difference(e));
                assert(flips_upto(s, t, i as int, j + 1) =~= after) by {
                    assert forall|k: EdgeKey| #[trigger] flips_upto(s, t, i as int, j + 1).contains(k) implies after.contains(k) by {
                        let (p, q, side) = choose|p: int, q: int, side: int|
                            0 <= p < s.len() && 0 <= q < t.len() && before(p, q, i as int, j + 1) && (side == 0 || side == 1)
                            && #[trigger] flip_of(s[p], t[q].kind@, side) == Some(k);
                        if !(p == i && q == j) {
                            assert(before_set.contains(k));
                        }
                    }
                    assert forall|k: EdgeKey| after.contains(k) implies #[trigger] flips_upto(s, t, i as int, j + 1).contains(k) by {
                        if before_set.contains(k) {
                            let (p, q, side) = choose|p: int, q: int, side: int|
                                0 <= p < s.len() && 0 <= q < t.len() && before(p, q, i as int, j as int) && (side == 0 || side == 1)
                                && #[trigger] flip_of(s[p], t[q].kind@, side) == Some(k);
                            assert(before(p, q, i as int, j + 1));
                        } else if k0 == Some(k) {
                            assert(flip_of(s[i as int], t[j as int].kind@, 0) == Some(k));
                        } else {
                            assert(flip_of(s[i as int], t[j as int].kind@, 1) == Some(k));
                        }
                    }
                }
            } else {
                assert(flips_upto(s, t, i as int, j + 1) =~= before_set) by {
                    assert forall|k: EdgeKey| #[trigger] flips_upto(s, t, i as int, j + 1).contains(k) implies before_set.contains(k) by {
                        let (p, q, side) = choose|p: int, q: int, side: int|
                            0 <= p < s.len() && 0 <= q < t.len() && before(p, q, i as int, j + 1) && (side == 0 || side == 1)
                            && #[trigger] flip_of(s[p], t[q].kind@, side) == Some(k);
                        if p == i && q == j {
                            assert(flip_of(s[p], t[q].kind@, side).is_none());
                        }
                    }
                }
            }
            j = j + 1;
        }
        assert(flips_upto(s, t, i + 1, 0) =~= flips_upto(s, t, i as int, m as int)) by {
            assert forall|k: EdgeKey| #[trigger] flips_upto(s, t, i + 1, 0).contains(k) implies flips_upto(s, t, i as int, m as int).contains(k) by {
                let (p, q, side) = choose|p: int, q: int, side: int|
                    0 <= p < s.len() && 0 <= q < t.len() && before(p, q, i + 1, 0) && (side == 0 || side == 1)
                    && #[trigger] flip_of(s[p], t[q].kind@, side) == Some(k);
                assert(before(p, q, i as int, m as int));
            }
            assert forall|k: EdgeKey| #[trigger] flips_upto(s, t, i as int, m as int).contains(k) implies flips_upto(s, t, i + 1, 0).contains(k) by {
                let (p, q, side) = choose|p: int, q: int, side: int|
                    0 <= p < s.len() && 0 <= q < t.len() && before(p, q, i as int, m as int) && (side == 0 || side == 1)
                    && #[trigger] flip_of(s[p], t[q].kind@, side) == Some(k);
                assert(before(p, q, i + 1, 0));
            }
        }
        i = i + 1;
    }
    let ghost f = ontology.facts();
    assert(flips_upto(s, t, n as int, 0) =~= concluded_edges(Rule::InverseOfMaterializes, f)) by {
        assert forall|k: EdgeKey| #[trigger] flips_upto(s, t, n as int, 0).contains(k) implies inverse_edge(f, k) by {
            let (p, q, side) = choose|p: int, q: int, side: int|
                0 <= p < s.len() && 0 <= q < t.len() && before(p, q, n as int, 0) && (side == 0 || side == 1)
                && #[trigger] flip_of(s[p], t[q].kind@, side) == Some(k);
            assert(e.contains(s[p].key()));
            assert(f.axioms.contains(t[q].kind@));
            assert(f.edges.contains((s[p].label@, k.2, k.1)));
        }
        assert forall|k: EdgeKey| inverse_edge(f, k) implies #[trigger] flips_upto(s, t, n as int, 0).contains(k) by {
            let lbl = choose|lbl: Seq<char>| f.edges.contains((lbl, k.2, k.1)) && (f.axioms.contains(KindView::InverseOf(lbl, k.0))
                || f.axioms.contains(KindView::InverseOf(k.0, lbl)));
            let p = choose|p: int| 0 <= p < s.len() && s[p].key() == (lbl, k.2, k.1);
            if f.axioms.contains(KindView::InverseOf(lbl, k.0)) {
                let q = choose|q: int| 0 <= q < t.len() && t[q].kind@ == KindView::InverseOf(lbl, k.0);
                assert(flip_of(s[p], t[q].kind@, 0) == Some(k));
            } else {
                let q = choose|q: int| 0 <= q < t.len() && t[q].kind@ == KindView::InverseOf(k.0, lbl);
                assert(flip_of(s[p], t[q].kind@, 1) == Some(k));
            }
        }
    }
    assert(edge_keys(out.edges@) =~= derived(Rule::InverseOfMaterializes, f).edges);
    assert(axiom_kinds(out.axioms@) =~= Set::empty());
    assert(derived(Rule::InverseOfMaterializes, f).axioms =~= Set::empty());
    out
}

impl Rule {
    /// Apply this rule once, returning the facts it derives that the
    /// ontology does not assert yet, each once.
    pub fn apply(self, ontology: &Ontology) -> (out: RuleOutput)
        ensures
            out.holds_exactly(derived(self, ontology.facts())),
    {
        match self {
            Rule::SubClassTransitivity => subclass_transitivity(ontology),
            Rule::EquivalentSymmetry => equivalent_symmetry(ontology),
            Rule::EquivalentToSubClass => equivalent_to_subclass(ontology),
            Rule::InverseOfSymmetry => inverse_of_symmetry(ontology),
            Rule::PropertySymmetry => property_symmetry(ontology),
            Rule::PropertyTransitivity => property_transitivity(ontology),
            Rule::InverseOfMaterializes => inverse_of_materializes(ontology),
        }
    }
}

/// The standard rule list: every rule once, in declaration order.
pub open spec fn standard_rules() -> Seq<Rule> {
    seq![
        Rule::SubClassTransitivity,
        Rule::EquivalentSymmetry,
        Rule::EquivalentToSubClass,
        Rule::InverseOfSymmetry,
        Rule::PropertySymmetry,
        Rule::PropertyTransitivity,
        Rule::InverseOfMaterializes,
    ]
}

/// An ordered bundle of rules applied together by a reasoner pass.
#[derive(Clone, Debug)]
pub struct RuleSet {
    /// The active rules, applied in this order.
    pub rules: Vec<Rule>,
}

impl RuleSet {
    /// An empty rule set.
    pub fn empty() -> (r: RuleSet)
        ensures
            r.rules@ == Seq::<Rule>::empty(),
    {
        RuleSet { rules: Vec::new() }
    }

    /// A rule set from an explicit list.
    pub fn new(rules: Vec<Rule>) -> (r: RuleSet)
        ensures
            r.rules@ == rules@,
    {
        RuleSet { rules }
    }

    /// The standard OWL 2 RL / EL subset.
    pub fn standard() -> (r: RuleSet)
        ensures
            r.rules@ == standard_rules(),
    {
        let mut rules = Vec::new();
        rules.push(Rule::SubClassTransitivity);
        rules.push(Rule::EquivalentSymmetry);
        rules.push(Rule::EquivalentToSubClass);
        rules.push(Rule::InverseOfSymmetry);
        rules.push(Rule::PropertySymmetry);
        rules.push(Rule::PropertyTransitivity);
        rules.push(Rule::InverseOfMaterializes);
        assert(rules@ =~= standard_rules());
        RuleSet { rules }
    }

    /// Append a rule.
    pub fn with(self, rule: Rule) -> (r: RuleSet)
        ensures
            r.rules@ == self.rules@.push(rule),
    {
        let mut rules = self.rules;
        rules.push(rule);
        RuleSet { rules }
    }

    /// The active rules in declaration order.
    pub fn iter(&self) -> (r: std::slice::Iter<'_, Rule>)
        ensures
            vstd::std_specs::slice::into_iter_elts(r) == self.rules@,
    {
        self.rules.as_slice().iter()
    }

    /// `true` if the rule set has no rules.
    pub fn is_empty(&self) -> (r: bool)
        ensures
            r == (self.rules@.len() == 0),
    {
        self.rules.len() == 0
    }
}

impl Default for RuleSet {
    /// The standard rule set.
    fn default() -> (r: RuleSet)
        ensures
            r.rules@ == standard_rules(),
    {
        RuleSet::standard()
    }
}

} // verus!
