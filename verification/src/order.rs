//! Stable insertion order: a sequence sorted by a strict "goes after"
//! relation, equal items keeping their order, and the positions that list
//! an ontology's nodes by id and its node and edge types by name.
use vstd::prelude::*;

use crate::jsonld::{lex_lt, string_lt};
use crate::model::Node;
use crate::schema::{EdgeType, NodeType};

verus! {

/// `s` with `x` inserted after every item that does not go after it and
/// before the trailing items that do.
pub open spec fn ins<T>(s: Seq<T>, x: T, after: spec_fn(T, T) -> bool) -> Seq<T>
    decreases s.len(),
{
    if s.len() == 0 {
        seq![x]
    } else if !after(s.last(), x) {
        s.push(x)
    } else {
        ins(s.drop_last(), x, after).push(s.last())
    }
}

/// `s` sorted by stable insertion: each item in turn inserted by [`ins`].
pub open spec fn isort<T>(s: Seq<T>, after: spec_fn(T, T) -> bool) -> Seq<T>
    decreases s.len(),
{
    if s.len() == 0 {
        seq![]
    } else {
        ins(isort(s.drop_last(), after), s.last(), after)
    }
}

/// Inserting where the trailing run of items that go after `x` begins.
pub proof fn lemma_ins_at<T>(s: Seq<T>, x: T, after: spec_fn(T, T) -> bool, k: int)
    requires
        0 <= k <= s.len(),
        forall|j: int| k <= j < s.len() ==> after(#[trigger] s[j], x),
        k == 0 || !after(s[k - 1], x),
    ensures
        ins(s, x, after) == s.take(k).push(x) + s.skip(k),
    decreases s.len(),
{
    if s.len() == 0 {
        assert(s.take(k).push(x) + s.skip(k) =~= seq![x]);
    } else if !after(s.last(), x) {
        if k < s.len() {
            assert(after(s[s.len() - 1], x));
        }
        assert(s.take(k).push(x) + s.skip(k) =~= s.push(x));
    } else {
        let d = s.drop_last();
        assert(k < s.len());
        assert forall|j: int| k <= j < d.len() implies after(#[trigger] d[j], x) by {
            assert(d[j] == s[j]);
        }
        if k > 0 {
            assert(d[k - 1] == s[k - 1]);
        }
        lemma_ins_at(d, x, after, k);
        assert(d.take(k).push(x) + d.skip(k) + seq![s.last()] =~= s.take(k).push(x) + s.skip(k));
        assert(ins(d, x, after).push(s.last()) =~= d.take(k).push(x) + d.skip(k) + seq![s.last()]);
    }
}

/// The items of `s` at positions `r`, in that order.
pub open spec fn picked<T>(s: Seq<T>, r: Seq<usize>) -> Seq<T> {
    r.map_values(|k: usize| s[k as int])
}

/// A node goes after another when its id is greater.
pub open spec fn node_after() -> spec_fn(Node, Node) -> bool {
    |a: Node, b: Node| a.id > b.id
}

/// A node type goes after another when its name sorts after.
pub open spec fn node_type_after() -> spec_fn(NodeType, NodeType) -> bool {
    |a: NodeType, b: NodeType| lex_lt(b.name@, a.name@)
}

/// An edge type goes after another when its name sorts after.
pub open spec fn edge_type_after() -> spec_fn(EdgeType, EdgeType) -> bool {
    |a: EdgeType, b: EdgeType| lex_lt(b.name@, a.name@)
}

/// The positions of `nodes` in increasing order of id, equal ids in their
/// order.
pub fn node_order(nodes: &Vec<Node>) -> (r: Vec<usize>)
    ensures
        forall|i: int| 0 <= i < r@.len() ==> #[trigger] r@[i] < nodes@.len(),
        picked(nodes@, r@) == isort(nodes@, node_after()),
{
    let ghost after = node_after();
    let mut r: Vec<usize> = Vec::new();
    let mut i: usize = 0;
    assert(picked(nodes@, r@) =~= isort(nodes@.take(0), after));
    while i < nodes.len()
        invariant
            i <= nodes@.len(),
            after == node_after(),
            forall|q: int| 0 <= q < r@.len() ==> #[trigger] r@[q] < nodes@.len(),
            picked(nodes@, r@) == isort(nodes@.take(i as int), after),
        decreases nodes@.len() - i,
    {
        let ghost before = picked(nodes@, r@);
        let x = nodes[i].id;
        let mut k: usize = r.len();
        loop
            invariant_except_break
                k <= r@.len(),
                before == picked(nodes@, r@),
                forall|q: int| 0 <= q < r@.len() ==> #[trigger] r@[q] < nodes@.len(),
                forall|j: int| k <= j < before.len() ==> (#[trigger] before[j]).id > x,
            ensures
                k <= r@.len(),
                before == picked(nodes@, r@),
                forall|q: int| 0 <= q < r@.len() ==> #[trigger] r@[q] < nodes@.len(),
                forall|j: int| k <= j < before.len() ==> (#[trigger] before[j]).id > x,
                k == 0 || before[k - 1].id <= x,
            decreases k,
        {
            if k == 0 {
                break;
            }
            if nodes[r[k - 1]].id <= x {
                break;
            }
            k = k - 1;
        }
        proof {
            lemma_ins_at(before, nodes@[i as int], after, k as int);
            assert(nodes@.take(i + 1).drop_last() =~= nodes@.take(i as int));
        }
        r.insert(k, i);
        assert(picked(nodes@, r@) =~= before.take(k as int).push(nodes@[i as int]) + before.skip(k as int));
        i = i + 1;
    }
    assert(nodes@.take(i as int) =~= nodes@);
    r
}

/// The positions of `ts` in increasing order of name, equal names in
/// their order.
pub fn node_type_order(ts: &Vec<NodeType>) -> (r: Vec<usize>)
    ensures
        forall|i: int| 0 <= i < r@.len() ==> #[trigger] r@[i] < ts@.len(),
        picked(ts@, r@) == isort(ts@, node_type_after()),
{
    let ghost after = node_type_after();
    let mut r: Vec<usize> = Vec::new();
    let mut i: usize = 0;
    assert(picked(ts@, r@) =~= isort(ts@.take(0), after));
    while i < ts.len()
        invariant
            i <= ts@.len(),
            after == node_type_after(),
            forall|q: int| 0 <= q < r@.len() ==> #[trigger] r@[q] < ts@.len(),
            picked(ts@, r@) == isort(ts@.take(i as int), after),
        decreases ts@.len() - i,
    {
        let ghost before = picked(ts@, r@);
        let x = &ts[i].name;
        let mut k: usize = r.len();
        loop
            invariant_except_break
                k <= r@.len(),
                before == picked(ts@, r@),
                forall|q: int| 0 <= q < r@.len() ==> #[trigger] r@[q] < ts@.len(),
                forall|j: int| k <= j < before.len() ==> lex_lt(x@, (#[trigger] before[j]).name@),
            ensures
                k <= r@.len(),
                before == picked(ts@, r@),
                forall|q: int| 0 <= q < r@.len() ==> #[trigger] r@[q] < ts@.len(),
                forall|j: int| k <= j < before.len() ==> lex_lt(x@, (#[trigger] before[j]).name@),
                k == 0 || !lex_lt(x@, before[k - 1].name@),
            decreases k,
        {
            if k == 0 {
                break;
            }
            if !string_lt(x, &ts[r[k - 1]].name) {
                break;
            }
            k = k - 1;
        }
        proof {
            lemma_ins_at(before, ts@[i as int], after, k as int);
            assert(ts@.take(i + 1).drop_last() =~= ts@.take(i as int));
        }
        r.insert(k, i);
        assert(picked(ts@, r@) =~= before.take(k as int).push(ts@[i as int]) + before.skip(k as int));
        i = i + 1;
    }
    assert(ts@.take(i as int) =~= ts@);
    r
}

/// The positions of `ts` in increasing order of name, equal names in
/// their order.
pub fn edge_type_order(ts: &Vec<EdgeType>) -> (r: Vec<usize>)
    ensures
        forall|i: int| 0 <= i < r@.len() ==> #[trigger] r@[i] < ts@.len(),
        picked(ts@, r@) == isort(ts@, edge_type_after()),
{
    let ghost after = edge_type_after();
    let mut r: Vec<usize> = Vec::new();
    let mut i: usize = 0;
    assert(picked(ts@, r@) =~= isort(ts@.take(0), after));
    while i < ts.len()
        invariant
            i <= ts@.len(),
            after == edge_type_after(),
            forall|q: int| 0 <= q < r@.len() ==> #[trigger] r@[q] < ts@.len(),
            picked(ts@, r@) == isort(ts@.take(i as int), after),
        decreases ts@.len() - i,
    {
        let ghost before = picked(ts@, r@);
        let x = &ts[i].name;
        let mut k: usize = r.len();
        loop
            invariant_except_break
                k <= r@.len(),
                before == picked(ts@, r@),
                forall|q: int| 0 <= q < r@.len() ==> #[trigger] r@[q] < ts@.len(),
                forall|j: int| k <= j < before.len() ==> lex_lt(x@, (#[trigger] before[j]).name@),
            ensures
                k <= r@.len(),
                before == picked(ts@, r@),
                forall|q: int| 0 <= q < r@.len() ==> #[trigger] r@[q] < ts@.len(),
                forall|j: int| k <= j < before.len() ==> lex_lt(x@, (#[trigger] before[j]).name@),
                k == 0 || !lex_lt(x@, before[k - 1].name@),
            decreases k,
        {
            if k == 0 {
                break;
            }
            if !string_lt(x, &ts[r[k - 1]].name) {
                break;
            }
            k = k - 1;
        }
        proof {
            lemma_ins_at(before, ts@[i as int], after, k as int);
            assert(ts@.take(i + 1).drop_last() =~= ts@.take(i as int));
        }
        r.insert(k, i);
        assert(picked(ts@, r@) =~= before.take(k as int).push(ts@[i as int]) + before.skip(k as int));
        i = i + 1;
    }
    assert(ts@.take(i as int) =~= ts@);
    r
}

/// Insertion keeps every item and adds the new one.
pub proof fn lemma_ins_contains<T>(s: Seq<T>, x: T, after: spec_fn(T, T) -> bool)
    ensures
        ins(s, x, after).contains(x),
        forall|i: int| 0 <= i < s.len() ==> ins(s, x, after).contains(#[trigger] s[i]),
    decreases s.len(),
{
    let r = ins(s, x, after);
    if s.len() == 0 {
        assert(r[0] == x);
    } else if !after(s.last(), x) {
        assert(r[s.len() as int] == x);
        assert forall|i: int| 0 <= i < s.len() implies r.contains(#[trigger] s[i]) by {
            assert(r[i] == s[i]);
        }
    } else {
        let d = s.drop_last();
        lemma_ins_contains(d, x, after);
        let rd = ins(d, x, after);
        assert(r == rd.push(s.last()));
        let k = choose|k: int| 0 <= k < rd.len() && rd[k] == x;
        assert(r[k] == x);
        assert forall|i: int| 0 <= i < s.len() implies r.contains(#[trigger] s[i]) by {
            if i == s.len() - 1 {
                assert(r[rd.len() as int] == s[i]);
            } else {
                assert(d[i] == s[i]);
                assert(rd.contains(d[i]));
                let k2 = choose|k2: int| 0 <= k2 < rd.len() && rd[k2] == d[i];
                assert(r[k2] == s[i]);
            }
        }
    }
}

/// Sorting keeps every item.
pub proof fn lemma_isort_contains<T>(s: Seq<T>, after: spec_fn(T, T) -> bool)
    ensures
        forall|i: int| 0 <= i < s.len() ==> isort(s, after).contains(#[trigger] s[i]),
    decreases s.len(),
{
    if s.len() > 0 {
        let d = s.drop_last();
        lemma_isort_contains(d, after);
        let sd = isort(d, after);
        lemma_ins_contains(sd, s.last(), after);
        assert forall|i: int| 0 <= i < s.len() implies isort(s, after).contains(#[trigger] s[i]) by {
            if i < s.len() - 1 {
                assert(d[i] == s[i]);
                assert(sd.contains(d[i]));
                let k = choose|k: int| 0 <= k < sd.len() && sd[k] == d[i];
                assert(ins(sd, s.last(), after).contains(sd[k]));
            }
        }
    }
}

} // verus!
