//! Sequences of entries found by key: the first entry of a key, setting
//! an entry (replacing the first of its key in place, else appending), and
//! what repeated settings leave.
use vstd::prelude::*;

verus! {

/// The position of the first entry of `vs` whose key is `k`.
pub open spec fn key_index<V, K>(vs: Seq<V>, key: spec_fn(V) -> K, k: K) -> Option<int>
    decreases vs.len(),
{
    if vs.len() == 0 {
        None
    } else if key(vs[0]) == k {
        Some(0)
    } else {
        match key_index(vs.drop_first(), key, k) {
            Some(i) => Some(i + 1),
            None => None,
        }
    }
}

/// `vs` with `t` set: the first entry of `t`'s key replaced by `t`, or `t`
/// appended when there is none.
pub open spec fn set_entry<V, K>(vs: Seq<V>, key: spec_fn(V) -> K, t: V) -> Seq<V> {
    match key_index(vs, key, key(t)) {
        Some(i) => vs.update(i, t),
        None => vs.push(t),
    }
}

/// What [`key_index`] finds: the first entry of the key, or none at all.
pub proof fn lemma_key_index<V, K>(vs: Seq<V>, key: spec_fn(V) -> K, k: K)
    ensures
        key_index(vs, key, k) matches Some(i) ==> 0 <= i < vs.len() && key(vs[i]) == k && forall|j: int|
            0 <= j < i ==> key(#[trigger] vs[j]) != k,
        key_index(vs, key, k) is None ==> forall|j: int| 0 <= j < vs.len() ==> key(#[trigger] vs[j]) != k,
    decreases vs.len(),
{
    if vs.len() > 0 {
        lemma_key_index(vs.drop_first(), key, k);
        assert forall|j: int| 1 <= j < vs.len() implies vs[j] == vs.drop_first()[j - 1] by {}
    }
}

/// The first entry of key `k` is at `i`.
pub proof fn lemma_key_index_at<V, K>(vs: Seq<V>, key: spec_fn(V) -> K, k: K, i: int)
    requires
        0 <= i < vs.len(),
        key(vs[i]) == k,
        forall|j: int| 0 <= j < i ==> key(#[trigger] vs[j]) != k,
    ensures
        key_index(vs, key, k) == Some(i),
{
    lemma_key_index(vs, key, k);
    match key_index(vs, key, k) {
        Some(q) => {
            if q < i {
                assert(key(vs[q]) != k);
            } else if q > i {
                assert(key(vs[i]) != k);
            }
        },
        None => {
            assert(key(vs[i]) != k);
        },
    }
}

/// After setting `t`, the first entry of its key is `t`.
pub proof fn lemma_set_entry_finds<V, K>(vs: Seq<V>, key: spec_fn(V) -> K, t: V)
    ensures
        key_index(set_entry(vs, key, t), key, key(t)) matches Some(i) && set_entry(vs, key, t)[i] == t,
{
    lemma_key_index(vs, key, key(t));
    let w = set_entry(vs, key, t);
    match key_index(vs, key, key(t)) {
        Some(i) => {
            assert forall|j: int| 0 <= j < i implies key(#[trigger] w[j]) != key(t) by {
                assert(w[j] == vs[j]);
            }
            lemma_key_index_at(w, key, key(t), i);
        },
        None => {
            let i = vs.len() as int;
            assert forall|j: int| 0 <= j < i implies key(#[trigger] w[j]) != key(t) by {
                assert(w[j] == vs[j]);
            }
            lemma_key_index_at(w, key, key(t), i);
        },
    }
}

/// Setting an entry of another key leaves where key `k` is first found, and
/// what is there, as they were.
pub proof fn lemma_set_entry_keeps<V, K>(vs: Seq<V>, key: spec_fn(V) -> K, t: V, k: K)
    requires
        key(t) != k,
    ensures
        key_index(set_entry(vs, key, t), key, k) == key_index(vs, key, k),
        key_index(vs, key, k) matches Some(i) ==> set_entry(vs, key, t)[i] == vs[i],
{
    lemma_key_index(vs, key, k);
    lemma_key_index(vs, key, key(t));
    let w = set_entry(vs, key, t);
    match key_index(vs, key, k) {
        Some(i) => {
            assert(w[i] == vs[i]) by {
                match key_index(vs, key, key(t)) {
                    Some(p) => {
                        assert(p != i);
                    },
                    None => {},
                }
            }
            assert forall|j: int| 0 <= j < i implies key(#[trigger] w[j]) != k by {
                match key_index(vs, key, key(t)) {
                    Some(p) => {
                        if j == p {
                            assert(w[j] == t);
                        } else {
                            assert(w[j] == vs[j]);
                        }
                    },
                    None => {
                        assert(w[j] == vs[j]);
                    },
                }
            }
            lemma_key_index_at(w, key, k, i);
        },
        None => {
            lemma_key_index(w, key, k);
            if let Some(q) = key_index(w, key, k) {
                match key_index(vs, key, key(t)) {
                    Some(p) => {
                        if q == p {
                            assert(w[q] == t);
                        } else {
                            assert(w[q] == vs[q]);
                        }
                    },
                    None => {
                        if q < vs.len() {
                            assert(w[q] == vs[q]);
                        } else {
                            assert(w[q] == t);
                        }
                    },
                }
            }
        },
    }
}

/// Setting an entry that is already the first of its key changes nothing.
pub proof fn lemma_set_entry_present<V, K>(vs: Seq<V>, key: spec_fn(V) -> K, t: V)
    requires
        key_index(vs, key, key(t)) matches Some(i) && vs[i] == t,
    ensures
        set_entry(vs, key, t) == vs,
{
    let i = key_index(vs, key, key(t))->Some_0;
    lemma_key_index(vs, key, key(t));
    assert(vs.update(i, t) =~= vs);
}

/// `vs` with each entry of `ts` set in turn.
pub open spec fn set_all<V, K>(vs: Seq<V>, key: spec_fn(V) -> K, ts: Seq<V>) -> Seq<V>
    decreases ts.len(),
{
    if ts.len() == 0 {
        vs
    } else {
        set_entry(set_all(vs, key, ts.drop_last()), key, ts.last())
    }
}

/// No two entries of `ts` share a key.
pub open spec fn keys_distinct<V, K>(ts: Seq<V>, key: spec_fn(V) -> K) -> bool {
    forall|i: int, j: int| 0 <= i < j < ts.len() ==> key(#[trigger] ts[i]) != key(#[trigger] ts[j])
}

/// `t` is the first entry of its key in `vs`.
pub open spec fn present<V, K>(vs: Seq<V>, key: spec_fn(V) -> K, t: V) -> bool {
    key_index(vs, key, key(t)) matches Some(i) && vs[i] == t
}

/// Setting the first `k + 1` entries is setting the first `k`, then entry `k`.
pub proof fn lemma_set_all_step<V, K>(vs: Seq<V>, key: spec_fn(V) -> K, ts: Seq<V>, k: int)
    requires
        0 <= k < ts.len(),
    ensures
        set_all(vs, key, ts.take(k + 1)) == set_entry(set_all(vs, key, ts.take(k)), key, ts[k]),
{
    assert(ts.take(k + 1).drop_last() =~= ts.take(k));
}

/// After setting entries of distinct keys, each is the first of its key.
pub proof fn lemma_set_all_present<V, K>(vs: Seq<V>, key: spec_fn(V) -> K, ts: Seq<V>, m: int)
    requires
        keys_distinct(ts, key),
        0 <= m < ts.len(),
    ensures
        present(set_all(vs, key, ts), key, ts[m]),
    decreases ts.len(),
{
    let d = ts.drop_last();
    if m == ts.len() - 1 {
        lemma_set_entry_finds(set_all(vs, key, d), key, ts.last());
    } else {
        assert(d[m] == ts[m]);
        assert forall|i: int, j: int| 0 <= i < j < d.len() implies key(#[trigger] d[i]) != key(#[trigger] d[j]) by {
            assert(d[i] == ts[i] && d[j] == ts[j]);
        }
        lemma_set_all_present(vs, key, d, m);
        assert(key(ts[m]) != key(ts[ts.len() - 1]));
        lemma_set_entry_keeps(set_all(vs, key, d), key, ts.last(), key(ts[m]));
    }
}

/// Setting entries that are all present already changes nothing.
pub proof fn lemma_set_all_unchanged<V, K>(w: Seq<V>, key: spec_fn(V) -> K, ts: Seq<V>)
    requires
        forall|m: int| 0 <= m < ts.len() ==> present(w, key, #[trigger] ts[m]),
    ensures
        set_all(w, key, ts) == w,
    decreases ts.len(),
{
    if ts.len() > 0 {
        let d = ts.drop_last();
        assert forall|m: int| 0 <= m < d.len() implies present(w, key, #[trigger] d[m]) by {
            assert(d[m] == ts[m]);
        }
        lemma_set_all_unchanged(w, key, d);
        assert(present(w, key, ts[ts.len() - 1]));
        lemma_set_entry_present(w, key, ts.last());
    }
}

/// Setting the same entries of distinct keys twice is setting them once.
pub proof fn lemma_set_all_twice<V, K>(vs: Seq<V>, key: spec_fn(V) -> K, ts: Seq<V>)
    requires
        keys_distinct(ts, key),
    ensures
        set_all(set_all(vs, key, ts), key, ts) == set_all(vs, key, ts),
{
    let w = set_all(vs, key, ts);
    assert forall|m: int| 0 <= m < ts.len() implies present(w, key, #[trigger] ts[m]) by {
        lemma_set_all_present(vs, key, ts, m);
    }
    lemma_set_all_unchanged(w, key, ts);
}

} // verus!
