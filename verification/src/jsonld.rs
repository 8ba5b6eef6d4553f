//! JSON-LD documents of an ontology's triples, over the [`JsonValue`]
//! model.
//!
//! [`document`] builds `{ "@context": {...}, "@graph": [...] }`: the
//! context maps each prefix to its base, and the graph holds one node
//! object per subject, in increasing order of subject key, with its `@id`
//! and, per predicate, the array of its objects. [`triples_of`] reads such
//! a document back: `@context` prefixes expand CURIEs, each `@graph` node
//! with a string `@id` yields a triple per value of each other key, and
//! unrecognized members are skipped.
use vstd::multiset::Multiset;
use vstd::prelude::*;

use crate::adapter::{from_rdf, imported_classes, imported_properties, rdf_of, schema_declares, to_rdf};
use crate::json::{
    json_pretty_text, json_text_value, jview, jview_items, jview_members, read_json_text, render_json_pretty, JsonMember,
    JsonValue, JsonView,
};
use crate::model::Ontology;
use crate::rdf::{
    triples_view, AdapterError, Object, ObjectView, Subject, SubjectView, Triple, TripleView, RDF_LANG_STRING,
    XSD_STRING,
};
use crate::schema::Vocabulary;
use crate::text::{first_colon, has_colon};

verus! {

// ---------------------------------------------------------------------
// Reading
// ---------------------------------------------------------------------

/// The value of the first member of `ms` named `key`.
pub open spec fn member(ms: Seq<(Seq<char>, JsonView)>, key: Seq<char>) -> Option<JsonView>
    decreases ms.len(),
{
    if ms.len() == 0 {
        None
    } else if ms[0].0 == key {
        Some(ms[0].1)
    } else {
        member(ms.drop_first(), key)
    }
}

/// The prefixes a list of `@context` members binds: each string-valued
/// member, later ones replacing earlier ones.
pub open spec fn context_of(ms: Seq<(Seq<char>, JsonView)>) -> Map<Seq<char>, Seq<char>>
    decreases ms.len(),
{
    if ms.len() == 0 {
        Map::empty()
    } else {
        let m = context_of(ms.drop_last());
        match ms.last().1 {
            JsonView::String(b) => m.insert(ms.last().0, b),
            _ => m,
        }
    }
}

/// The prefixes a document's `@context` binds.
pub open spec fn document_context(doc: JsonView) -> Map<Seq<char>, Seq<char>> {
    match doc {
        JsonView::Object(ms) => match member(ms, "@context"@) {
            Some(JsonView::Object(cms)) => context_of(cms),
            _ => Map::empty(),
        },
        _ => Map::empty(),
    }
}

/// An absolute IRI (`http://`, `https://` or `urn:`) stays as it is; a
/// CURIE with a bound prefix expands; anything else stays as it is.
pub open spec fn expand(s: Seq<char>, m: Map<Seq<char>, Seq<char>>) -> Seq<char> {
    if "http://"@.is_prefix_of(s) || "https://"@.is_prefix_of(s) || "urn:"@.is_prefix_of(s) {
        s
    } else if has_colon(s) && m.dom().contains(s.take(first_colon(s))) {
        m[s.take(first_colon(s))] + s.skip(first_colon(s) + 1)
    } else {
        s
    }
}

/// The values a member stands for: an array's items, or the value itself.
pub open spec fn flat(v: JsonView) -> Seq<JsonView> {
    match v {
        JsonView::Array(items) => items,
        _ => seq![v],
    }
}

/// The lexical form of a literal's `@value`: a string's text, a number's
/// text, `true`, `false` or `null`; arrays and objects have none.
pub open spec fn lexical_of(v: JsonView) -> Option<Seq<char>> {
    match v {
        JsonView::String(s) => Some(s),
        JsonView::Number(t) => Some(t),
        JsonView::Bool(b) => Some(if b { "true"@ } else { "false"@ }),
        JsonView::Null => Some("null"@),
        _ => None,
    }
}

/// The RDF object a JSON value stands for: `{"@id": ..}` a resource,
/// `{"@value": .., "@language"/"@type": ..}` a literal.
pub open spec fn value_object(v: JsonView, m: Map<Seq<char>, Seq<char>>) -> Option<ObjectView> {
    match v {
        JsonView::Object(ms) => match member(ms, "@id"@) {
            Some(JsonView::String(id)) => Some(
                if "_:"@.is_prefix_of(id) {
                    ObjectView::Blank(id.skip(2))
                } else {
                    ObjectView::Iri(expand(id, m))
                },
            ),
            _ => match member(ms, "@value"@) {
                Some(val) => match lexical_of(val) {
                    Some(lex) => {
                        let lang = match member(ms, "@language"@) {
                            Some(JsonView::String(l)) => Some(l),
                            _ => None,
                        };
                        let dt = if lang is Some {
                            RDF_LANG_STRING@
                        } else {
                            match member(ms, "@type"@) {
                                Some(JsonView::String(t)) => expand(t, m),
                                _ => XSD_STRING@,
                            }
                        };
                        Some(ObjectView::Literal(lex, dt, lang))
                    },
                    None => None,
                },
                None => None,
            },
        },
        _ => None,
    }
}

/// The subject a node's `@id` names: `_:label` a blank node, else an IRI
/// (as written).
pub open spec fn subject_of_id(id: Seq<char>) -> SubjectView {
    if "_:"@.is_prefix_of(id) {
        SubjectView::Blank(id.skip(2))
    } else {
        SubjectView::Iri(id)
    }
}

/// The triples of a node's `@type` values: each string `t`, expanded,
/// serves as both predicate and object.
pub open spec fn type_triples(subj: SubjectView, vs: Seq<JsonView>, m: Map<Seq<char>, Seq<char>>) -> Seq<TripleView>
    decreases vs.len(),
{
    if vs.len() == 0 {
        seq![]
    } else {
        let rest = type_triples(subj, vs.drop_last(), m);
        match vs.last() {
            JsonView::String(t) => rest.push(
                TripleView { subject: subj, predicate: expand(t, m), object: ObjectView::Iri(expand(t, m)) },
            ),
            _ => rest,
        }
    }
}

/// The triples of one predicate's values.
pub open spec fn value_triples(subj: SubjectView, p: Seq<char>, vs: Seq<JsonView>, m: Map<Seq<char>, Seq<char>>) -> Seq<
    TripleView,
>
    decreases vs.len(),
{
    if vs.len() == 0 {
        seq![]
    } else {
        let rest = value_triples(subj, p, vs.drop_last(), m);
        match value_object(vs.last(), m) {
            Some(o) => rest.push(TripleView { subject: subj, predicate: p, object: o }),
            None => rest,
        }
    }
}

/// The triples of a node's members, in order; `@id` yields none.
pub open spec fn member_triples(subj: SubjectView, ms: Seq<(Seq<char>, JsonView)>, m: Map<Seq<char>, Seq<char>>) -> Seq<
    TripleView,
>
    decreases ms.len(),
{
    if ms.len() == 0 {
        seq![]
    } else {
        let rest = member_triples(subj, ms.drop_last(), m);
        let (k, v) = ms.last();
        if k == "@id"@ {
            rest
        } else if k == "@type"@ {
            rest + type_triples(subj, flat(v), m)
        } else {
            rest + value_triples(subj, expand(k, m), flat(v), m)
        }
    }
}

/// The triples of the `@graph` nodes that are objects with a string `@id`.
pub open spec fn graph_triples(items: Seq<JsonView>, m: Map<Seq<char>, Seq<char>>) -> Seq<TripleView>
    decreases items.len(),
{
    if items.len() == 0 {
        seq![]
    } else {
        let rest = graph_triples(items.drop_last(), m);
        match items.last() {
            JsonView::Object(ms) => match member(ms, "@id"@) {
                Some(JsonView::String(id)) => rest + member_triples(subject_of_id(id), ms, m),
                _ => rest,
            },
            _ => rest,
        }
    }
}

/// The triples a JSON-LD document holds.
pub open spec fn document_triples(doc: JsonView) -> Seq<TripleView> {
    match doc {
        JsonView::Object(ms) => match member(ms, "@graph"@) {
            Some(JsonView::Array(items)) => graph_triples(items, document_context(doc)),
            _ => seq![],
        },
        _ => seq![],
    }
}

fn find_member<'a>(ms: &'a Vec<JsonMember>, key: &str) -> (r: Option<&'a JsonValue>)
    ensures
        match r {
            Some(v) => member(jview_members(ms@), key@) == Some(jview(*v)),
            None => member(jview_members(ms@), key@) is None,
        },
{
    let ghost vs = jview_members(ms@);
    proof {
        crate::json::lemma_jview_members(ms@);
    }
    let k = String::from_str(key);
    let mut i: usize = 0;
    assert(vs.skip(0) =~= vs);
    while i < ms.len()
        invariant
            i <= ms.len(),
            vs == jview_members(ms@),
            vs.len() == ms@.len(),
            forall|j: int| 0 <= j < ms@.len() ==> #[trigger] vs[j] == (ms@[j].key@, jview(ms@[j].value)),
            k@ == key@,
            member(vs, key@) == member(vs.skip(i as int), key@),
        decreases ms.len() - i,
    {
        let ghost rest = vs.skip(i as int);
        assert(rest[0] == vs[i as int]);
        assert(rest.drop_first() =~= vs.skip(i + 1));
        if ms[i].key == k {
            return Some(&ms[i].value);
        }
        i = i + 1;
    }
    None
}

fn has_prefix(s: &String, lit: &str) -> (r: bool)
    ensures
        r == lit@.is_prefix_of(s@),
{
    let a = crate::text::chars_of(s.as_str());
    let b = crate::text::chars_of(lit);
    if b.len() > a.len() {
        return false;
    }
    let mut i: usize = 0;
    while i < b.len()
        invariant
            i <= b.len() <= a.len(),
            a@ == s@,
            b@ == lit@,
            forall|j: int| 0 <= j < i ==> b@[j] == a@[j],
        decreases b.len() - i,
    {
        if a[i] != b[i] {
            return false;
        }
        i = i + 1;
    }
    true
}

fn expand_name(s: &String, vocab: &Vocabulary, Ghost(m): Ghost<Map<Seq<char>, Seq<char>>>) -> (r: String)
    requires
        crate::turtle::resolves(*vocab, m),
    ensures
        r@ == expand(s@, m),
{
    if has_prefix(s, "http://") || has_prefix(s, "https://") || has_prefix(s, "urn:") {
        return s.clone();
    }
    match vocab.expand_curie(s) {
        Some(i) => i,
        None => s.clone(),
    }
}

fn str_is(s: &String, lit: &str) -> (r: bool)
    ensures
        r == (s@ == lit@),
{
    let t = String::from_str(lit);
    *s == t
}

fn strip_blank(id: &String) -> (r: Option<String>)
    ensures
        match r {
            Some(l) => "_:"@.is_prefix_of(id@) && l@ == id@.skip(2),
            None => !"_:"@.is_prefix_of(id@),
        },
{
    if has_prefix(id, "_:") {
        proof {
            reveal_strlit("_:");
        }
        let n = id.as_str().unicode_len();
        Some(String::from_str(id.as_str().substring_char(2, n)))
    } else {
        None
    }
}

fn lexical_text(v: &JsonValue) -> (r: Option<String>)
    ensures
        match r {
            Some(l) => lexical_of(jview(*v)) == Some(l@),
            None => lexical_of(jview(*v)) is None,
        },
{
    match v {
        JsonValue::String(s) => Some(s.clone()),
        JsonValue::Number(t) => Some(t.clone()),
        JsonValue::Bool(b) => Some(if *b { String::from_str("true") } else { String::from_str("false") }),
        JsonValue::Null => Some(String::from_str("null")),
        _ => None,
    }
}

fn json_object_value(v: &JsonValue, vocab: &Vocabulary, Ghost(m): Ghost<Map<Seq<char>, Seq<char>>>) -> (r: Option<Object>)
    requires
        crate::turtle::resolves(*vocab, m),
    ensures
        match r {
            Some(o) => value_object(jview(*v), m) == Some(o@),
            None => value_object(jview(*v), m) is None,
        },
{
    let ms = match v {
        JsonValue::Object(ms) => ms,
        _ => {
            return None;
        },
    };
    match find_member(ms, "@id") {
        Some(JsonValue::String(id)) => {
            return Some(
                match strip_blank(id) {
                    Some(l) => Object::Blank(l),
                    None => Object::Iri(expand_name(id, vocab, Ghost(m))),
                },
            );
        },
        _ => {},
    }
    let val = match find_member(ms, "@value") {
        Some(val) => val,
        None => {
            return None;
        },
    };
    let lexical = match lexical_text(val) {
        Some(l) => l,
        None => {
            return None;
        },
    };
    let language = match find_member(ms, "@language") {
        Some(JsonValue::String(l)) => Some(l.clone()),
        _ => None,
    };
    let datatype = if language.is_some() {
        String::from_str(RDF_LANG_STRING)
    } else {
        match find_member(ms, "@type") {
            Some(JsonValue::String(t)) => expand_name(t, vocab, Ghost(m)),
            _ => String::from_str(XSD_STRING),
        }
    };
    Some(Object::Literal { lexical, datatype, language })
}

fn push_one(out: &mut Vec<Triple>, t: Triple)
    ensures
        triples_view(final(out)@) == triples_view(old(out)@).push(t@),
{
    out.push(t);
    assert(triples_view(final(out)@) =~= triples_view(old(out)@).push(t@));
}

fn copy_subject(s: &Subject) -> (r: Subject)
    ensures
        r@ == s@,
{
    match s {
        Subject::Iri(i) => Subject::Iri(i.clone()),
        Subject::Blank(b) => Subject::Blank(b.clone()),
    }
}

fn flat_values(v: &JsonValue) -> (r: Vec<&JsonValue>)
    ensures
        r@.len() == flat(jview(*v)).len(),
        forall|i: int| 0 <= i < r@.len() ==> jview(*#[trigger] r@[i]) == flat(jview(*v))[i],
{
    let mut out: Vec<&JsonValue> = Vec::new();
    match v {
        JsonValue::Array(items) => {
            proof {
                crate::json::lemma_jview_items(items@);
            }
            let mut i: usize = 0;
            while i < items.len()
                invariant
                    i <= items.len(),
                    out@.len() == i,
                    jview_items(items@).len() == items@.len(),
                    forall|j: int| 0 <= j < items@.len() ==> #[trigger] jview_items(items@)[j] == jview(items@[j]),
                    forall|j: int| 0 <= j < i ==> jview(*#[trigger] out@[j]) == jview(items@[j]),
                decreases items.len() - i,
            {
                out.push(&items[i]);
                i = i + 1;
            }
        },
        _ => {
            out.push(v);
        },
    }
    out
}

fn push_member_triples(
    out: &mut Vec<Triple>,
    subj: &Subject,
    ms: &Vec<JsonMember>,
    vocab: &Vocabulary,
    Ghost(m): Ghost<Map<Seq<char>, Seq<char>>>,
)
    requires
        crate::turtle::resolves(*vocab, m),
    ensures
        triples_view(final(out)@) == triples_view(old(out)@) + member_triples(subj@, jview_members(ms@), m),
{
    let ghost base = triples_view(out@);
    let ghost vs = jview_members(ms@);
    proof {
        crate::json::lemma_jview_members(ms@);
    }
    let mut i: usize = 0;
    assert(vs.take(0) =~= Seq::<(Seq<char>, JsonView)>::empty());
    while i < ms.len()
        invariant
            i <= ms.len(),
            crate::turtle::resolves(*vocab, m),
            vs == jview_members(ms@),
            vs.len() == ms@.len(),
            forall|j: int| 0 <= j < ms@.len() ==> #[trigger] vs[j] == (ms@[j].key@, jview(ms@[j].value)),
            triples_view(out@) == base + member_triples(subj@, vs.take(i as int), m),
        decreases ms.len() - i,
    {
        let mb = &ms[i];
        let ghost mid = triples_view(out@);
        assert(vs.take(i + 1).drop_last() =~= vs.take(i as int));
        assert(vs.take(i + 1).last() == vs[i as int]);
        if str_is(&mb.key, "@id") {
            assert(triples_view(out@) =~= base + member_triples(subj@, vs.take(i + 1), m));
        } else if str_is(&mb.key, "@type") {
            let values = flat_values(&mb.value);
            let ghost fv = flat(jview(mb.value));
            let mut j: usize = 0;
            assert(fv.take(0) =~= Seq::<JsonView>::empty());
            while j < values.len()
                invariant
                    j <= values@.len(),
                    values@.len() == fv.len(),
                    forall|k: int| 0 <= k < values@.len() ==> jview(*#[trigger] values@[k]) == fv[k],
                    crate::turtle::resolves(*vocab, m),
                    triples_view(out@) == mid + type_triples(subj@, fv.take(j as int), m),
                decreases values.len() - j,
            {
                assert(fv.take(j + 1).drop_last() =~= fv.take(j as int));
                assert(fv.take(j + 1).last() == fv[j as int]);
                match values[j] {
                    JsonValue::String(t) => {
                        let iri = expand_name(t, vocab, Ghost(m));
                        let triple = Triple { subject: copy_subject(subj), predicate: iri.clone(), object: Object::Iri(iri) };
                        push_one(out, triple);
                    },
                    _ => {},
                }
                assert(triples_view(out@) =~= mid + type_triples(subj@, fv.take(j + 1), m));
                j = j + 1;
            }
            assert(fv.take(j as int) =~= fv);
            assert(triples_view(out@) =~= base + member_triples(subj@, vs.take(i + 1), m));
        } else {
            let pred = expand_name(&mb.key, vocab, Ghost(m));
            let values = flat_values(&mb.value);
            let ghost fv = flat(jview(mb.value));
            let mut j: usize = 0;
            assert(fv.take(0) =~= Seq::<JsonView>::empty());
            while j < values.len()
                invariant
                    j <= values@.len(),
                    values@.len() == fv.len(),
                    forall|k: int| 0 <= k < values@.len() ==> jview(*#[trigger] values@[k]) == fv[k],
                    crate::turtle::resolves(*vocab, m),
                    triples_view(out@) == mid + value_triples(subj@, pred@, fv.take(j as int), m),
                decreases values.len() - j,
            {
                assert(fv.take(j + 1).drop_last() =~= fv.take(j as int));
                assert(fv.take(j + 1).last() == fv[j as int]);
                match json_object_value(values[j], vocab, Ghost(m)) {
                    Some(o) => {
                        let triple = Triple { subject: copy_subject(subj), predicate: pred.clone(), object: o };
                        push_one(out, triple);
                    },
                    None => {},
                }
                assert(triples_view(out@) =~= mid + value_triples(subj@, pred@, fv.take(j + 1), m));
                j = j + 1;
            }
            assert(fv.take(j as int) =~= fv);
            assert(triples_view(out@) =~= base + member_triples(subj@, vs.take(i + 1), m));
        }
        i = i + 1;
    }
    assert(vs.take(i as int) =~= vs);
}

/// The triples a JSON-LD document holds: for each `@graph` node with a
/// string `@id`, one triple per value of each other member, `@context`
/// prefixes expanding CURIEs.
pub fn triples_of(doc: &JsonValue) -> (r: Vec<Triple>)
    ensures
        triples_view(r@) == document_triples(jview(*doc)),
{
    let mut out: Vec<Triple> = Vec::new();
    let ms = match doc {
        JsonValue::Object(ms) => ms,
        _ => {
            assert(triples_view(out@) =~= Seq::<TripleView>::empty());
            return out;
        },
    };
    let mut vocab = Vocabulary::new();
    let ghost mut m = Map::<Seq<char>, Seq<char>>::empty();
    assert forall|q: Seq<char>| #[trigger] crate::schema::base_in(vocab.bindings@, q) == crate::turtle::bound(m, q) by {}
    match find_member(ms, "@context") {
        Some(JsonValue::Object(cms)) => {
            let ghost cv = jview_members(cms@);
            proof {
                crate::json::lemma_jview_members(cms@);
            }
            let mut i: usize = 0;
            assert(cv.take(0) =~= Seq::<(Seq<char>, JsonView)>::empty());
            while i < cms.len()
                invariant
                    i <= cms.len(),
                    cv == jview_members(cms@),
                    cv.len() == cms@.len(),
                    forall|j: int| 0 <= j < cms@.len() ==> #[trigger] cv[j] == (cms@[j].key@, jview(cms@[j].value)),
                    crate::turtle::resolves(vocab, m),
                    m == context_of(cv.take(i as int)),
                decreases cms.len() - i,
            {
                assert(cv.take(i + 1).drop_last() =~= cv.take(i as int));
                assert(cv.take(i + 1).last() == cv[i as int]);
                match &cms[i].value {
                    JsonValue::String(b) => {
                        let ghost (pk, bv) = (cms@[i as int].key@, b@);
                        vocab.bind(cms[i].key.clone(), b.clone());
                        proof {
                            m = m.insert(pk, bv);
                            assert forall|q: Seq<char>| #[trigger] crate::schema::base_in(vocab.bindings@, q)
                                == crate::turtle::bound(m, q) by {}
                        }
                    },
                    _ => {},
                }
                i = i + 1;
            }
            assert(cv.take(i as int) =~= cv);
        },
        _ => {},
    }
    assert(m == document_context(jview(*doc)));
    let items = match find_member(ms, "@graph") {
        Some(JsonValue::Array(items)) => items,
        _ => {
            assert(triples_view(out@) =~= Seq::<TripleView>::empty());
            return out;
        },
    };
    let ghost iv = jview_items(items@);
    proof {
        crate::json::lemma_jview_items(items@);
    }
    let mut i: usize = 0;
    assert(iv.take(0) =~= Seq::<JsonView>::empty());
    assert(triples_view(out@) =~= Seq::<TripleView>::empty());
    while i < items.len()
        invariant
            i <= items.len(),
            iv == jview_items(items@),
            iv.len() == items@.len(),
            forall|j: int| 0 <= j < items@.len() ==> #[trigger] iv[j] == jview(items@[j]),
            crate::turtle::resolves(vocab, m),
            triples_view(out@) == graph_triples(iv.take(i as int), m),
        decreases items.len() - i,
    {
        assert(iv.take(i + 1).drop_last() =~= iv.take(i as int));
        assert(iv.take(i + 1).last() == iv[i as int]);
        let ghost before = triples_view(out@);
        match &items[i] {
            JsonValue::Object(nms) => match find_member(nms, "@id") {
                Some(JsonValue::String(id)) => {
                    let subject = match strip_blank(id) {
                        Some(l) => Subject::Blank(l),
                        None => Subject::Iri(id.clone()),
                    };
                    push_member_triples(&mut out, &subject, nms, &vocab, Ghost(m));
                },
                _ => {},
            },
            _ => {},
        }
        assert(triples_view(out@) =~= graph_triples(iv.take(i + 1), m)) by {
            if let JsonValue::Object(nms) = items@[i as int] {
                if let Some(JsonView::String(id)) = member(jview_members(nms@), "@id"@) {
                    assert(before + member_triples(subject_of_id(id), jview_members(nms@), m) =~= triples_view(out@));
                }
            }
        }
        i = i + 1;
    }
    assert(iv.take(i as int) =~= iv);
    out
}

// ---------------------------------------------------------------------
// Writing
// ---------------------------------------------------------------------

/// The key a subject's node object is filed under: its IRI, or `_:label`.
pub open spec fn subject_key(s: SubjectView) -> Seq<char> {
    match s {
        SubjectView::Iri(i) => i,
        SubjectView::Blank(b) => "_:"@ + b,
    }
}

/// The JSON value of an RDF object.
pub open spec fn object_json(o: ObjectView) -> JsonView {
    match o {
        ObjectView::Iri(i) => JsonView::Object(seq![("@id"@, JsonView::String(i))]),
        ObjectView::Blank(l) => JsonView::Object(seq![("@id"@, JsonView::String("_:"@ + l))]),
        ObjectView::Literal(lex, dt, lang) => JsonView::Object(
            seq![
                ("@value"@, JsonView::String(lex)),
                match lang {
                    Some(l) => ("@language"@, JsonView::String(l)),
                    None => ("@type"@, JsonView::String(dt)),
                },
            ],
        ),
    }
}

/// `a` sorts before `b`: character by character, a proper prefix first.
pub open spec fn lex_lt(a: Seq<char>, b: Seq<char>) -> bool
    decreases a.len(),
{
    if a.len() == 0 {
        b.len() > 0
    } else if b.len() == 0 {
        false
    } else if (a[0] as u32) < (b[0] as u32) {
        true
    } else if (a[0] as u32) > (b[0] as u32) {
        false
    } else {
        lex_lt(a.drop_first(), b.drop_first())
    }
}

/// The position of the first member of `ms` named `k`.
pub open spec fn key_index(ms: Seq<(Seq<char>, JsonView)>, k: Seq<char>) -> Option<int>
    decreases ms.len(),
{
    if ms.len() == 0 {
        None
    } else if ms[0].0 == k {
        Some(0)
    } else {
        match key_index(ms.drop_first(), k) {
            Some(i) => Some(i + 1),
            None => None,
        }
    }
}

/// `v` appended to the array of member `p`, the member added when missing.
pub open spec fn add_value(ms: Seq<(Seq<char>, JsonView)>, p: Seq<char>, v: JsonView) -> Seq<(Seq<char>, JsonView)> {
    match key_index(ms, p) {
        Some(i) => ms.update(
            i,
            (
                p,
                match ms[i].1 {
                    JsonView::Array(items) => JsonView::Array(items.push(v)),
                    other => other,
                },
            ),
        ),
        None => ms.push((p, JsonView::Array(seq![v]))),
    }
}

/// Where a subject key is filed among the groups: the first group whose
/// key is it or sorts after it.
pub open spec fn slot(groups: Seq<(Seq<char>, Seq<(Seq<char>, JsonView)>)>, k: Seq<char>) -> int
    decreases groups.len(),
{
    if groups.len() == 0 {
        0
    } else if groups[0].0 == k || lex_lt(k, groups[0].0) {
        0
    } else {
        1 + slot(groups.drop_first(), k)
    }
}

/// The groups after filing triple `t`: its object joins its predicate's
/// array in its subject's node object, which is created in key order when
/// missing.
pub open spec fn add_triple(groups: Seq<(Seq<char>, Seq<(Seq<char>, JsonView)>)>, t: TripleView) -> Seq<
    (Seq<char>, Seq<(Seq<char>, JsonView)>),
> {
    let k = subject_key(t.subject);
    let i = slot(groups, k);
    let v = object_json(t.object);
    if 0 <= i < groups.len() && groups[i].0 == k {
        groups.update(i, (k, add_value(groups[i].1, t.predicate, v)))
    } else {
        groups.insert(i, (k, add_value(seq![("@id"@, JsonView::String(k))], t.predicate, v)))
    }
}

/// The node objects of a list of triples, by subject key.
pub open spec fn grouped(ts: Seq<TripleView>) -> Seq<(Seq<char>, Seq<(Seq<char>, JsonView)>)>
    decreases ts.len(),
{
    if ts.len() == 0 {
        seq![]
    } else {
        add_triple(grouped(ts.drop_last()), ts.last())
    }
}

/// The `@graph` array of a list of groups.
pub open spec fn graph_of(groups: Seq<(Seq<char>, Seq<(Seq<char>, JsonView)>)>) -> Seq<JsonView> {
    groups.map_values(|g: (Seq<char>, Seq<(Seq<char>, JsonView)>)| JsonView::Object(g.1))
}

/// The `@context` members of a list of bindings.
pub open spec fn context_members(vs: Seq<(Seq<char>, Seq<char>)>) -> Seq<(Seq<char>, JsonView)> {
    vs.map_values(|b: (Seq<char>, Seq<char>)| (b.0, JsonView::String(b.1)))
}

/// The JSON-LD document of an ontology: its bindings as `@context`, its
/// RDF projection grouped by subject as `@graph`.
pub open spec fn document_of(o: Ontology) -> JsonView {
    JsonView::Object(
        seq![
            ("@context"@, JsonView::Object(context_members(crate::turtle::effective_bindings(o)))),
            ("@graph"@, JsonView::Array(graph_of(grouped(rdf_of(o))))),
        ],
    )
}

pub(crate) fn string_lt(a: &String, b: &String) -> (r: bool)
    ensures
        r == lex_lt(a@, b@),
{
    let x = crate::text::chars_of(a.as_str());
    let y = crate::text::chars_of(b.as_str());
    let mut i: usize = 0;
    assert(x@.skip(0) =~= x@);
    assert(y@.skip(0) =~= y@);
    loop
        invariant
            i <= x@.len(),
            i <= y@.len(),
            x@ == a@,
            y@ == b@,
            lex_lt(a@, b@) == lex_lt(x@.skip(i as int), y@.skip(i as int)),
        decreases x@.len() - i,
    {
        let ghost xs = x@.skip(i as int);
        let ghost ys = y@.skip(i as int);
        if i == x.len() {
            return i < y.len();
        }
        if i == y.len() {
            return false;
        }
        assert(xs[0] == x@[i as int] && ys[0] == y@[i as int]);
        let cx = x[i] as u32;
        let cy = y[i] as u32;
        if cx < cy {
            return true;
        }
        if cx > cy {
            return false;
        }
        assert(xs.drop_first() =~= x@.skip(i + 1));
        assert(ys.drop_first() =~= y@.skip(i + 1));
        i = i + 1;
    }
}

/// A node object while it is built.
struct Group {
    key: String,
    members: Vec<JsonMember>,
}

spec fn group_view(g: Group) -> (Seq<char>, Seq<(Seq<char>, JsonView)>) {
    (g.key@, jview_members(g.members@))
}

spec fn groups_view(gs: Seq<Group>) -> Seq<(Seq<char>, Seq<(Seq<char>, JsonView)>)> {
    gs.map_values(|g: Group| group_view(g))
}

fn object_to_json(o: &Object) -> (r: JsonValue)
    ensures
        jview(r) == object_json(o@),
{
    let mut ms: Vec<JsonMember> = Vec::new();
    match o {
        Object::Iri(i) => {
            ms.push(JsonMember { key: String::from_str("@id"), value: JsonValue::String(i.clone()) });
        },
        Object::Blank(l) => {
            ms.push(JsonMember { key: String::from_str("@id"), value: JsonValue::String(String::from_str("_:").concat(l.as_str())) });
        },
        Object::Literal { lexical, datatype, language } => {
            ms.push(JsonMember { key: String::from_str("@value"), value: JsonValue::String(lexical.clone()) });
            match language {
                Some(l) => ms.push(JsonMember { key: String::from_str("@language"), value: JsonValue::String(l.clone()) }),
                None => ms.push(JsonMember { key: String::from_str("@type"), value: JsonValue::String(datatype.clone()) }),
            }
        },
    }
    let r = JsonValue::Object(ms);
    proof {
        let want = match object_json(o@) {
            JsonView::Object(w) => w,
            _ => seq![],
        };
        crate::json::lemma_jview_members_ext(ms@, want);
    }
    r
}

fn find_key(ms: &Vec<JsonMember>, p: &String) -> (r: Option<usize>)
    ensures
        match r {
            Some(i) => key_index(jview_members(ms@), p@) == Some(i as int) && i < ms@.len(),
            None => key_index(jview_members(ms@), p@) is None,
        },
{
    let ghost vs = jview_members(ms@);
    proof {
        crate::json::lemma_jview_members(ms@);
    }
    let mut i: usize = 0;
    assert(vs.skip(0) =~= vs);
    while i < ms.len()
        invariant
            i <= ms.len(),
            vs == jview_members(ms@),
            vs.len() == ms@.len(),
            forall|j: int| 0 <= j < ms@.len() ==> #[trigger] vs[j] == (ms@[j].key@, jview(ms@[j].value)),
            key_index(vs, p@) == match key_index(vs.skip(i as int), p@) {
                Some(k) => Some(k + i),
                None => None::<int>,
            },
        decreases ms.len() - i,
    {
        let ghost rest = vs.skip(i as int);
        assert(rest[0] == vs[i as int]);
        assert(rest.drop_first() =~= vs.skip(i + 1));
        if ms[i].key == *p {
            return Some(i);
        }
        i = i + 1;
    }
    None
}

fn add_value_exec(ms: &mut Vec<JsonMember>, p: &String, v: JsonValue)
    ensures
        jview_members(final(ms)@) == add_value(jview_members(old(ms)@), p@, jview(v)),
{
    let ghost before = jview_members(ms@);
    proof {
        crate::json::lemma_jview_members(ms@);
    }
    let ghost vv = jview(v);
    match find_key(ms, p) {
        Some(i) => {
            let mut mb = ms.remove(i);
            let ghost old_value = jview(mb.value);
            let value = match mb.value {
                JsonValue::Array(items) => {
                    let mut items = items;
                    let ghost iv = jview_items(items@);
                    proof {
                        crate::json::lemma_jview_items(items@);
                    }
                    items.push(v);
                    proof {
                        crate::json::lemma_jview_items(items@);
                        crate::json::lemma_jview_items_ext(items@, iv.push(vv));
                    }
                    JsonValue::Array(items)
                },
                other => other,
            };
            let ghost new_member = (p@, match old_value {
                JsonView::Array(items) => JsonView::Array(items.push(vv)),
                other => other,
            });
            assert(jview(value) == new_member.1);
            let ghost key_view = mb.key@;
            ms.insert(i, JsonMember { key: p.clone(), value });
            proof {
                let want = before.update(i as int, new_member);
                assert forall|j: int| 0 <= j < ms@.len() implies (#[trigger] ms@[j]).key@ == want[j].0 && jview(ms@[j].value)
                    == want[j].1 by {
                    if j != i {
                        assert(ms@[j] == old(ms)@[j]);
                    }
                }
                crate::json::lemma_jview_members_ext(ms@, want);
            }
        },
        None => {
            let mut items: Vec<JsonValue> = Vec::new();
            items.push(v);
            proof {
                crate::json::lemma_jview_items_ext(items@, seq![vv]);
            }
            ms.push(JsonMember { key: p.clone(), value: JsonValue::Array(items) });
            proof {
                let want = before.push((p@, JsonView::Array(seq![vv])));
                assert forall|j: int| 0 <= j < ms@.len() implies (#[trigger] ms@[j]).key@ == want[j].0 && jview(ms@[j].value)
                    == want[j].1 by {
                    if j < before.len() {
                        assert(ms@[j] == old(ms)@[j]);
                    }
                }
                crate::json::lemma_jview_members_ext(ms@, want);
            }
        },
    }
}

fn file_triple(groups: &mut Vec<Group>, t: &Triple)
    ensures
        groups_view(final(groups)@) == add_triple(groups_view(old(groups)@), t@),
{
    let ghost gv = groups_view(groups@);
    let key = match &t.subject {
        Subject::Iri(i) => i.clone(),
        Subject::Blank(b) => String::from_str("_:").concat(b.as_str()),
    };
    assert(key@ == subject_key(t.subject@));
    let mut i: usize = 0;
    assert(gv.skip(0) =~= gv);
    while i < groups.len() && !(groups[i].key == key || string_lt(&key, &groups[i].key))
        invariant
            i <= groups@.len(),
            gv == groups_view(groups@),
            gv.len() == groups@.len(),
            slot(gv, key@) == i + slot(gv.skip(i as int), key@),
        decreases groups.len() - i,
    {
        let ghost rest = gv.skip(i as int);
        assert(rest[0] == gv[i as int]);
        assert(gv[i as int] == group_view(groups@[i as int]));
        assert(rest.drop_first() =~= gv.skip(i + 1));
        i = i + 1;
    }
    proof {
        if i < groups@.len() {
            let rest = gv.skip(i as int);
            assert(rest[0] == gv[i as int]);
            assert(gv[i as int] == group_view(groups@[i as int]));
        }
    }
    assert(slot(gv, key@) == i);
    let v = object_to_json(&t.object);
    if i < groups.len() && groups[i].key == key {
        assert(gv[i as int].0 == key@);
        let mut g = groups.remove(i);
        add_value_exec(&mut g.members, &t.predicate, v);
        groups.insert(i, g);
        assert(groups_view(groups@) =~= gv.update(i as int, (key@, add_value(gv[i as int].1, t.predicate@, object_json(t.object@)))));
    } else {
        proof {
            if i < groups@.len() {
                assert(gv[i as int] == group_view(groups@[i as int]));
            }
        }
        let mut members: Vec<JsonMember> = Vec::new();
        members.push(JsonMember { key: String::from_str("@id"), value: JsonValue::String(key.clone()) });
        proof {
            crate::json::lemma_jview_members_ext(members@, seq![("@id"@, JsonView::String(key@))]);
        }
        add_value_exec(&mut members, &t.predicate, v);
        let ghost g = Group { key: key, members: members };
        groups.insert(i, Group { key, members });
        assert(groups_view(groups@) =~= gv.insert(
            i as int,
            (key@, add_value(seq![("@id"@, JsonView::String(key@))], t.predicate@, object_json(t.object@))),
        ));
    }
}

/// The JSON-LD document of an ontology: `@context` from its bindings (the
/// standard ones when it has none), `@graph` its RDF projection with one
/// node object per subject, in increasing order of subject key.
pub fn document(ontology: &Ontology) -> (r: JsonValue)
    requires
        forall|i: int| 0 <= i < rdf_of(*ontology).len() ==> (#[trigger] rdf_of(*ontology)[i]).predicate != "@id"@,
    ensures
        jview(r) == document_of(*ontology),
{
    let standard = Vocabulary::with_standard_bindings();
    let vocab: &Vocabulary = if ontology.vocabulary.is_empty() {
        &standard
    } else {
        &ontology.vocabulary
    };
    let ghost vs = crate::schema::bindings_view(vocab.bindings@);
    assert(vs == crate::turtle::effective_bindings(*ontology));
    let mut ctx: Vec<JsonMember> = Vec::new();
    let mut k: usize = 0;
    while k < vocab.bindings.len()
        invariant
            k <= vocab.bindings@.len(),
            vs == crate::schema::bindings_view(vocab.bindings@),
            ctx@.len() == k,
            forall|j: int| 0 <= j < k ==> (#[trigger] ctx@[j]).key@ == vs[j].0 && jview(ctx@[j].value) == JsonView::String(
                vs[j].1,
            ),
        decreases vocab.bindings.len() - k,
    {
        let ns = &vocab.bindings[k];
        ctx.push(JsonMember { key: ns.prefix.clone(), value: JsonValue::String(ns.base.clone()) });
        assert(vs[k as int] == (ns.prefix@, ns.base@));
        k = k + 1;
    }
    proof {
        crate::json::lemma_jview_members_ext(ctx@, context_members(vs));
    }
    let triples = to_rdf(ontology);
    let ghost tv = triples_view(triples@);
    let mut groups: Vec<Group> = Vec::new();
    let mut i: usize = 0;
    assert(tv.take(0) =~= Seq::<TripleView>::empty());
    assert(groups_view(groups@) =~= grouped(tv.take(0)));
    while i < triples.len()
        invariant
            i <= triples.len(),
            tv == triples_view(triples@),
            groups_view(groups@) == grouped(tv.take(i as int)),
        decreases triples.len() - i,
    {
        file_triple(&mut groups, &triples[i]);
        assert(tv.take(i + 1).drop_last() =~= tv.take(i as int));
        assert(tv.take(i + 1).last() == triples@[i as int]@);
        i = i + 1;
    }
    assert(tv.take(i as int) =~= tv);
    let ghost gv = groups_view(groups@);
    assert(gv.skip(0) =~= gv);
    let mut graph: Vec<JsonValue> = Vec::new();
    let n = groups.len();
    let mut j: usize = 0;
    while j < n
        invariant
            j <= n,
            n == gv.len(),
            groups_view(groups@) == gv.skip(j as int),
            groups@.len() == n - j,
            graph@.len() == j,
            forall|q: int| 0 <= q < j ==> jview(#[trigger] graph@[q]) == JsonView::Object(gv[q].1),
        decreases n - j,
    {
        let ghost before = groups@;
        let g = groups.remove(0);
        assert(group_view(g) == gv[j as int]) by {
            assert(g == before[0]);
            assert(groups_view(before)[0] == group_view(before[0]));
            assert(gv.skip(j as int)[0] == gv[j as int]);
        }
        graph.push(JsonValue::Object(g.members));
        assert(groups@ =~= before.drop_first());
        assert forall|q: int| 0 <= q < groups@.len() implies groups_view(groups@)[q] == gv.skip(j + 1)[q] by {
            assert(groups_view(groups@)[q] == group_view(groups@[q]));
            assert(groups@[q] == before[q + 1]);
            assert(groups_view(before)[q + 1] == group_view(before[q + 1]));
            assert(gv.skip(j as int)[q + 1] == gv.skip(j + 1)[q]);
        }
        assert(groups_view(groups@) =~= gv.skip(j + 1));
        j = j + 1;
    }
    proof {
        crate::json::lemma_jview_items_ext(graph@, graph_of(gv));
    }
    let mut top: Vec<JsonMember> = Vec::new();
    top.push(JsonMember { key: String::from_str("@context"), value: JsonValue::Object(ctx) });
    top.push(JsonMember { key: String::from_str("@graph"), value: JsonValue::Array(graph) });
    let r = JsonValue::Object(top);
    proof {
        crate::json::lemma_jview_members_ext(
            top@,
            seq![
                ("@context"@, JsonView::Object(context_members(vs))),
                ("@graph"@, JsonView::Array(graph_of(gv))),
            ],
        );
    }
    r
}

/// Serialize an ontology as pretty-printed JSON-LD text: the text of its
/// [`document`] (`{}` should the printer fail).
pub fn write(ontology: &Ontology) -> (r: String)
    requires
        forall|i: int| 0 <= i < rdf_of(*ontology).len() ==> (#[trigger] rdf_of(*ontology)[i]).predicate != "@id"@,
    ensures
        r@ == match json_pretty_text(document_of(*ontology)) {
            Some(t) => t,
            None => "{}"@,
        },
{
    let doc = document(ontology);
    match render_json_pretty(&doc) {
        Some(t) => t,
        None => String::from_str("{}"),
    }
}

/// Parse JSON-LD text into the triples its document holds (see
/// [`triples_of`]); text that is not JSON is a `Parse` error carrying the
/// reader's message.
pub fn parse(input: &str) -> (r: Result<Vec<Triple>, AdapterError>)
    ensures
        match json_text_value(input@) {
            Ok(v) => r matches Ok(ts) && triples_view(ts@) == document_triples(v),
            Err(m) => r matches Err(AdapterError::Parse(e)) && e@ == m,
        },
{
    match read_json_text(input) {
        Ok(doc) => Ok(triples_of(&doc)),
        Err(e) => Err(AdapterError::Parse(e)),
    }
}

/// Parse JSON-LD text into an ontology through [`read_document`].
pub fn read(input: &str) -> (r: Result<Ontology, AdapterError>)
    ensures
        match json_text_value(input@) {
            Ok(v) => r matches Ok(o) && o.nodes@.len() == 0 && o.edges@.len() == 0 && o.axioms@.len() == 0
                && schema_declares(o.schema, imported_classes(document_triples(v)), imported_properties(document_triples(v))),
            Err(m) => r matches Err(AdapterError::Parse(e)) && e@ == m,
        },
{
    match read_json_text(input) {
        Ok(doc) => read_document(&doc),
        Err(e) => Err(AdapterError::Parse(e)),
    }
}

/// Read a JSON-LD document into an ontology through [`from_rdf`].
pub fn read_document(doc: &JsonValue) -> (r: Result<Ontology, AdapterError>)
    ensures
        r matches Ok(o) && o.nodes@.len() == 0 && o.edges@.len() == 0 && o.axioms@.len() == 0 && schema_declares(
            o.schema,
            imported_classes(document_triples(jview(*doc))),
            imported_properties(document_triples(jview(*doc))),
        ),
{
    let triples = triples_of(doc);
    from_rdf(&triples)
}


// ---------------------------------------------------------------------
// Reading back what was written
// ---------------------------------------------------------------------

/// The triples one `@graph` item holds.
pub open spec fn node_triples(v: JsonView, m: Map<Seq<char>, Seq<char>>) -> Seq<TripleView> {
    match v {
        JsonView::Object(ms) => match member(ms, "@id"@) {
            Some(JsonView::String(id)) => member_triples(subject_of_id(id), ms, m),
            _ => seq![],
        },
        _ => seq![],
    }
}

/// The triples one member of a node object holds.
pub open spec fn member_part(subj: SubjectView, kv: (Seq<char>, JsonView), m: Map<Seq<char>, Seq<char>>) -> Seq<
    TripleView,
> {
    if kv.0 == "@id"@ {
        seq![]
    } else if kv.0 == "@type"@ {
        type_triples(subj, flat(kv.1), m)
    } else {
        value_triples(subj, expand(kv.0, m), flat(kv.1), m)
    }
}

proof fn lemma_graph_triples_concat(a: Seq<JsonView>, b: Seq<JsonView>, m: Map<Seq<char>, Seq<char>>)
    ensures
        graph_triples(a + b, m) == graph_triples(a, m) + graph_triples(b, m),
    decreases b.len(),
{
    if b.len() == 0 {
        assert(a + b =~= a);
        assert(graph_triples(a, m) + graph_triples(b, m) =~= graph_triples(a, m));
    } else {
        lemma_graph_triples_concat(a, b.drop_last(), m);
        assert((a + b).drop_last() =~= a + b.drop_last());
        assert((a + b).last() == b.last());
        assert(graph_triples(a + b, m) =~= graph_triples(a + b.drop_last(), m) + node_triples(b.last(), m));
        assert(graph_triples(b, m) =~= graph_triples(b.drop_last(), m) + node_triples(b.last(), m));
        assert(graph_triples(a + b, m) =~= graph_triples(a, m) + graph_triples(b, m));
    }
}

proof fn lemma_member_triples_concat(
    subj: SubjectView,
    a: Seq<(Seq<char>, JsonView)>,
    b: Seq<(Seq<char>, JsonView)>,
    m: Map<Seq<char>, Seq<char>>,
)
    ensures
        member_triples(subj, a + b, m) == member_triples(subj, a, m) + member_triples(subj, b, m),
    decreases b.len(),
{
    if b.len() == 0 {
        assert(a + b =~= a);
        assert(member_triples(subj, a, m) + member_triples(subj, b, m) =~= member_triples(subj, a, m));
    } else {
        lemma_member_triples_concat(subj, a, b.drop_last(), m);
        assert((a + b).drop_last() =~= a + b.drop_last());
        assert((a + b).last() == b.last());
        assert(member_triples(subj, a + b, m) =~= member_triples(subj, a + b.drop_last(), m) + member_part(subj, b.last(), m));
        assert(member_triples(subj, b, m) =~= member_triples(subj, b.drop_last(), m) + member_part(subj, b.last(), m));
        assert(member_triples(subj, a + b, m) =~= member_triples(subj, a, m) + member_triples(subj, b, m));
    }
}

proof fn lemma_member_triples_one(subj: SubjectView, kv: (Seq<char>, JsonView), m: Map<Seq<char>, Seq<char>>)
    ensures
        member_triples(subj, seq![kv], m) == member_part(subj, kv, m),
{
    let e = Seq::<(Seq<char>, JsonView)>::empty();
    assert(seq![kv].drop_last() =~= e);
    assert(seq![kv].last() == kv);
    assert(member_triples(subj, e, m) =~= Seq::<TripleView>::empty());
    let rest = Seq::<TripleView>::empty();
    if kv.0 == "@id"@ {
    } else if kv.0 == "@type"@ {
        assert(rest + type_triples(subj, flat(kv.1), m) =~= type_triples(subj, flat(kv.1), m));
    } else {
        assert(rest + value_triples(subj, expand(kv.0, m), flat(kv.1), m) =~= value_triples(subj, expand(kv.0, m), flat(kv.1), m));
    }
    assert(member_triples(subj, seq![kv], m) =~= member_part(subj, kv, m));
}

proof fn lemma_graph_triples_one(v: JsonView, m: Map<Seq<char>, Seq<char>>)
    ensures
        graph_triples(seq![v], m) == node_triples(v, m),
{
    let e = Seq::<JsonView>::empty();
    assert(seq![v].drop_last() =~= e);
    assert(seq![v].last() == v);
    assert(graph_triples(e, m) =~= Seq::<TripleView>::empty());
    match v {
        JsonView::Object(ms) => match member(ms, "@id"@) {
            Some(JsonView::String(id)) => {
                assert(Seq::<TripleView>::empty() + member_triples(subject_of_id(id), ms, m) =~= member_triples(subject_of_id(id), ms, m));
            },
            _ => {},
        },
        _ => {},
    }
    assert(graph_triples(seq![v], m) =~= node_triples(v, m));
}

/// Replacing item `i` of a graph swaps its triples for the new item's.
proof fn lemma_graph_update(items: Seq<JsonView>, i: int, x: JsonView, m: Map<Seq<char>, Seq<char>>)
    requires
        0 <= i < items.len(),
    ensures
        graph_triples(items, m).to_multiset().add(node_triples(x, m).to_multiset()) == graph_triples(
            items.update(i, x),
            m,
        ).to_multiset().add(node_triples(items[i], m).to_multiset()),
{
    broadcast use vstd::seq_lib::lemma_multiset_commutative;
    let a = items.take(i);
    let b = items.skip(i + 1);
    assert(items =~= a + seq![items[i]] + b);
    assert(items.update(i, x) =~= a + seq![x] + b);
    lemma_graph_triples_concat(a + seq![items[i]], b, m);
    lemma_graph_triples_concat(a, seq![items[i]], m);
    lemma_graph_triples_concat(a + seq![x], b, m);
    lemma_graph_triples_concat(a, seq![x], m);
    lemma_graph_triples_one(items[i], m);
    lemma_graph_triples_one(x, m);
    assert(graph_triples(items, m).to_multiset().add(node_triples(x, m).to_multiset()) =~= graph_triples(
        items.update(i, x),
        m,
    ).to_multiset().add(node_triples(items[i], m).to_multiset()));
}

/// Inserting an item into a graph adds its triples.
proof fn lemma_graph_insert(items: Seq<JsonView>, i: int, x: JsonView, m: Map<Seq<char>, Seq<char>>)
    requires
        0 <= i <= items.len(),
    ensures
        graph_triples(items.insert(i, x), m).to_multiset() == graph_triples(items, m).to_multiset().add(
            node_triples(x, m).to_multiset(),
        ),
{
    broadcast use vstd::seq_lib::lemma_multiset_commutative;
    let a = items.take(i);
    let b = items.skip(i);
    assert(items =~= a + b);
    assert(items.insert(i, x) =~= a + seq![x] + b);
    lemma_graph_triples_concat(a, b, m);
    lemma_graph_triples_concat(a + seq![x], b, m);
    lemma_graph_triples_concat(a, seq![x], m);
    lemma_graph_triples_one(x, m);
    assert(graph_triples(items.insert(i, x), m).to_multiset() =~= graph_triples(items, m).to_multiset().add(
        node_triples(x, m).to_multiset(),
    ));
}

/// Replacing member `j` of a node object swaps its triples for the new member's.
proof fn lemma_members_update(
    subj: SubjectView,
    ms: Seq<(Seq<char>, JsonView)>,
    j: int,
    kv: (Seq<char>, JsonView),
    m: Map<Seq<char>, Seq<char>>,
)
    requires
        0 <= j < ms.len(),
    ensures
        member_triples(subj, ms, m).to_multiset().add(member_part(subj, kv, m).to_multiset()) == member_triples(
            subj,
            ms.update(j, kv),
            m,
        ).to_multiset().add(member_part(subj, ms[j], m).to_multiset()),
{
    broadcast use vstd::seq_lib::lemma_multiset_commutative;
    let a = ms.take(j);
    let b = ms.skip(j + 1);
    assert(ms =~= a + seq![ms[j]] + b);
    assert(ms.update(j, kv) =~= a + seq![kv] + b);
    lemma_member_triples_concat(subj, a + seq![ms[j]], b, m);
    lemma_member_triples_concat(subj, a, seq![ms[j]], m);
    lemma_member_triples_concat(subj, a + seq![kv], b, m);
    lemma_member_triples_concat(subj, a, seq![kv], m);
    lemma_member_triples_one(subj, ms[j], m);
    lemma_member_triples_one(subj, kv, m);
    assert(member_triples(subj, ms, m).to_multiset().add(member_part(subj, kv, m).to_multiset()) =~= member_triples(
        subj,
        ms.update(j, kv),
        m,
    ).to_multiset().add(member_part(subj, ms[j], m).to_multiset()));
}

proof fn lemma_key_index(ms: Seq<(Seq<char>, JsonView)>, k: Seq<char>)
    ensures
        key_index(ms, k) matches Some(i) ==> 0 <= i < ms.len() && ms[i].0 == k,
        key_index(ms, k) is None ==> forall|i: int| 0 <= i < ms.len() ==> ms[i].0 != k,
        ms.len() > 0 && ms[0].0 != k ==> (key_index(ms, k) matches Some(i) ==> i > 0),
    decreases ms.len(),
{
    if ms.len() > 0 {
        lemma_key_index(ms.drop_first(), k);
        if key_index(ms, k) is None {
            assert forall|i: int| 0 <= i < ms.len() implies ms[i].0 != k by {
                if i > 0 {
                    assert(ms[i] == ms.drop_first()[i - 1]);
                }
            }
        }
    }
}

proof fn lemma_slot_bounds(groups: Seq<(Seq<char>, Seq<(Seq<char>, JsonView)>)>, k: Seq<char>)
    ensures
        0 <= slot(groups, k) <= groups.len(),
    decreases groups.len(),
{
    if groups.len() > 0 {
        lemma_slot_bounds(groups.drop_first(), k);
    }
}

proof fn lemma_keys_distinct()
    ensures
        "@id"@ != "@type"@,
        "@id"@ != "@value"@,
        "@id"@ != "@language"@,
        "@value"@ != "@language"@,
        "@value"@ != "@type"@,
        "@language"@ != "@type"@,
        "@context"@ != "@graph"@,
        "_:"@.len() == 2,
        "@id"@.len() == 3,
{
    reveal_strlit("@id");
    reveal_strlit("@type");
    reveal_strlit("@value");
    reveal_strlit("@language");
    reveal_strlit("@context");
    reveal_strlit("@graph");
    reveal_strlit("_:");
    assert("@id"@.len() != "@type"@.len());
    assert("@id"@.len() != "@value"@.len());
    assert("@id"@.len() != "@language"@.len());
    assert("@value"@.len() != "@language"@.len());
    assert("@value"@.len() != "@type"@.len());
    assert("@language"@.len() != "@type"@.len());
    assert("@context"@.len() != "@graph"@.len());
}

/// A triple whose JSON-LD form reads back as itself under context `m`: a
/// subject IRI not written `_:…`, a predicate other than `@id` and
/// `@type`, IRIs that `m` leaves as they are (absolute ones always are),
/// language-tagged literals typed `rdf:langString`.
pub open spec fn jsonld_ok(m: Map<Seq<char>, Seq<char>>, t: TripleView) -> bool {
    &&& match t.subject {
        SubjectView::Iri(i) => !"_:"@.is_prefix_of(i),
        SubjectView::Blank(_) => true,
    }
    &&& t.predicate != "@id"@
    &&& t.predicate != "@type"@
    &&& expand(t.predicate, m) == t.predicate
    &&& match t.object {
        ObjectView::Iri(i) => !"_:"@.is_prefix_of(i) && expand(i, m) == i,
        ObjectView::Blank(_) => true,
        ObjectView::Literal(_, dt, lang) => match lang {
            Some(_) => dt == RDF_LANG_STRING@,
            None => expand(dt, m) == dt,
        },
    }
}

proof fn lemma_subject_key_reads(s: SubjectView)
    requires
        match s {
            SubjectView::Iri(i) => !"_:"@.is_prefix_of(i),
            SubjectView::Blank(_) => true,
        },
    ensures
        subject_of_id(subject_key(s)) == s,
{
    lemma_keys_distinct();
    if let SubjectView::Blank(b) = s {
        assert("_:"@.is_prefix_of("_:"@ + b));
        assert(("_:"@ + b).skip(2) =~= b);
    }
}

proof fn lemma_object_json_reads(o: ObjectView, m: Map<Seq<char>, Seq<char>>)
    requires
        match o {
            ObjectView::Iri(i) => !"_:"@.is_prefix_of(i) && expand(i, m) == i,
            ObjectView::Blank(_) => true,
            ObjectView::Literal(_, dt, lang) => match lang {
                Some(_) => dt == RDF_LANG_STRING@,
                None => expand(dt, m) == dt,
            },
        },
    ensures
        value_object(object_json(o), m) == Some(o),
{
    lemma_keys_distinct();
    match o {
        ObjectView::Iri(i) => {
            let ms = seq![("@id"@, JsonView::String(i))];
            assert(ms[0].0 == "@id"@);
            assert(member(ms, "@id"@) == Some(JsonView::String(i)));
            assert(object_json(o) == JsonView::Object(ms));
            assert(!"_:"@.is_prefix_of(i));
            assert(value_object(JsonView::Object(ms), m) == Some(ObjectView::Iri(expand(i, m))));
            assert(expand(i, m) == i);
            assert(value_object(object_json(o), m) == Some(o));
        },
        ObjectView::Blank(l) => {
            let ms = seq![("@id"@, JsonView::String("_:"@ + l))];
            assert(ms[0].0 == "@id"@);
            assert(member(ms, "@id"@) == Some(JsonView::String("_:"@ + l)));
            assert("_:"@.is_prefix_of("_:"@ + l));
            assert(("_:"@ + l).skip(2) =~= l);
            assert(value_object(object_json(o), m) == Some(o));
        },
        ObjectView::Literal(lex, dt, lang) => {
            let second = match lang {
                Some(l) => ("@language"@, JsonView::String(l)),
                None => ("@type"@, JsonView::String(dt)),
            };
            let ms = seq![("@value"@, JsonView::String(lex)), second];
            assert(ms.drop_first() =~= seq![second]);
            let e = Seq::<(Seq<char>, JsonView)>::empty();
            assert(seq![second].drop_first() =~= e);
            assert(member(e, "@id"@) is None);
            assert(member(e, "@language"@) is None);
            assert(ms[0].0 != "@id"@);
            assert(second.0 != "@id"@);
            assert(member(seq![second], "@id"@) is None);
            assert(member(ms, "@id"@) is None);
            assert(member(ms, "@value"@) == Some(JsonView::String(lex)));
            match object_json(o) {
                JsonView::Object(ms2) => {
                    assert(ms2[1] == second);
                    assert(ms2 =~= ms);
                },
                _ => {},
            }
            assert(object_json(o) == JsonView::Object(ms));
            match lang {
                Some(l) => {
                    assert(member(ms, "@language"@) == Some(JsonView::String(l)));
                    assert(value_object(JsonView::Object(ms), m) == Some(ObjectView::Literal(lex, RDF_LANG_STRING@, Some(l))));
                },
                None => {
                    assert(member(seq![second], "@language"@) is None);
                    assert(member(ms, "@language"@) is None);
                    assert(member(seq![second], "@type"@) == Some(JsonView::String(dt)));
                    assert(member(ms, "@type"@) == Some(JsonView::String(dt)));
                    assert(value_object(JsonView::Object(ms), m) == Some(ObjectView::Literal(lex, expand(dt, m), None)));
                },
            }
        },
    }
}

/// The members of a node object as the writer builds them: `@id` first,
/// then arrays under other keys.
pub open spec fn node_members_wf(k: Seq<char>, ms: Seq<(Seq<char>, JsonView)>) -> bool {
    &&& ms.len() >= 1
    &&& ms[0] == ("@id"@, JsonView::String(k))
    &&& forall|j: int|
        1 <= j < ms.len() ==> (#[trigger] ms[j]).0 != "@id"@ && ms[j].0 != "@type"@ && ms[j].1 is Array
}

/// Node objects as the writer builds them.
pub open spec fn groups_wf(groups: Seq<(Seq<char>, Seq<(Seq<char>, JsonView)>)>) -> bool {
    forall|i: int| 0 <= i < groups.len() ==> node_members_wf(#[trigger] groups[i].0, groups[i].1)
}

proof fn lemma_node_of_members(k: Seq<char>, ms: Seq<(Seq<char>, JsonView)>, m: Map<Seq<char>, Seq<char>>)
    requires
        node_members_wf(k, ms),
    ensures
        node_triples(JsonView::Object(ms), m) == member_triples(subject_of_id(k), ms, m),
{
}

proof fn lemma_value_triples_push(subj: SubjectView, p: Seq<char>, items: Seq<JsonView>, v: JsonView, o: ObjectView, m: Map<Seq<char>, Seq<char>>)
    requires
        value_object(v, m) == Some(o),
    ensures
        value_triples(subj, p, items.push(v), m) == value_triples(subj, p, items, m).push(
            TripleView { subject: subj, predicate: p, object: o },
        ),
{
    assert(items.push(v).drop_last() =~= items);
    assert(items.push(v).last() == v);
}

/// Adding a value under a key adds its triple to the node object's triples.
proof fn lemma_add_value(
    k: Seq<char>,
    ms: Seq<(Seq<char>, JsonView)>,
    p: Seq<char>,
    v: JsonView,
    o: ObjectView,
    m: Map<Seq<char>, Seq<char>>,
)
    requires
        node_members_wf(k, ms),
        p != "@id"@,
        p != "@type"@,
        value_object(v, m) == Some(o),
    ensures
        node_members_wf(k, add_value(ms, p, v)),
        member_triples(subject_of_id(k), add_value(ms, p, v), m).to_multiset() == member_triples(
            subject_of_id(k),
            ms,
            m,
        ).to_multiset().insert(TripleView { subject: subject_of_id(k), predicate: expand(p, m), object: o }),
{
    broadcast use vstd::seq_lib::lemma_multiset_commutative, vstd::seq_lib::to_multiset_build;
    lemma_keys_distinct();
    let subj = subject_of_id(k);
    let t = TripleView { subject: subj, predicate: expand(p, m), object: o };
    lemma_key_index(ms, p);
    match key_index(ms, p) {
        Some(j) => {
            let items = match ms[j].1 {
                JsonView::Array(items) => items,
                _ => seq![],
            };
            let kv = (p, JsonView::Array(items.push(v)));
            assert(add_value(ms, p, v) == ms.update(j, kv));
            lemma_members_update(subj, ms, j, kv, m);
            lemma_value_triples_push(subj, expand(p, m), items, v, o, m);
            assert(member_part(subj, ms[j], m) == value_triples(subj, expand(p, m), items, m));
            assert(member_part(subj, kv, m) == value_triples(subj, expand(p, m), items, m).push(t));
            let r = ms.update(j, kv);
            assert forall|i: int| 1 <= i < r.len() implies (#[trigger] r[i]).0 != "@id"@ && r[i].0 != "@type"@ && r[i].1 is Array by {
                if i != j {
                    assert(r[i] == ms[i]);
                }
            }
            let a = member_triples(subj, ms, m).to_multiset();
            let u = member_triples(subj, r, m).to_multiset();
            let pold = member_part(subj, ms[j], m).to_multiset();
            let pnew = member_part(subj, kv, m).to_multiset();
            assert(pnew == pold.insert(t));
            assert(a.add(pnew) == u.add(pold));
            assert forall|x: TripleView| #[trigger] u.count(x) == a.insert(t).count(x) by {
                assert(a.add(pnew).count(x) == u.add(pold).count(x));
            }
            assert(u =~= a.insert(t));
        },
        None => {
            let kv = (p, JsonView::Array(seq![v]));
            let r = ms.push(kv);
            assert(add_value(ms, p, v) == r);
            assert(r.drop_last() =~= ms);
            assert(r.last() == kv);
            lemma_value_triples_push(subj, expand(p, m), seq![], v, o, m);
            assert(seq![].push(v) =~= seq![v]);
            assert(value_triples(subj, expand(p, m), Seq::<JsonView>::empty(), m) =~= Seq::<TripleView>::empty());
            assert(member_part(subj, kv, m) =~= seq![t]);
            assert(member_triples(subj, r, m) =~= member_triples(subj, ms, m) + seq![t]);
            assert(member_triples(subj, ms, m) + seq![t] =~= member_triples(subj, ms, m).push(t));
            assert forall|i: int| 1 <= i < r.len() implies (#[trigger] r[i]).0 != "@id"@ && r[i].0 != "@type"@ && r[i].1 is Array by {
                if i < ms.len() {
                    assert(r[i] == ms[i]);
                }
            }
        },
    }
}

/// Filing a triple adds it to the triples the node objects hold.
proof fn lemma_add_triple(groups: Seq<(Seq<char>, Seq<(Seq<char>, JsonView)>)>, t: TripleView, m: Map<Seq<char>, Seq<char>>)
    requires
        groups_wf(groups),
        jsonld_ok(m, t),
    ensures
        groups_wf(add_triple(groups, t)),
        graph_triples(graph_of(add_triple(groups, t)), m).to_multiset() == graph_triples(graph_of(groups), m).to_multiset().insert(t),
{
    broadcast use vstd::seq_lib::lemma_multiset_commutative;
    lemma_keys_distinct();
    let k = subject_key(t.subject);
    let i = slot(groups, k);
    let v = object_json(t.object);
    let items = graph_of(groups);
    lemma_slot_bounds(groups, k);
    lemma_subject_key_reads(t.subject);
    lemma_object_json_reads(t.object, m);
    let tv = TripleView { subject: subject_of_id(k), predicate: expand(t.predicate, m), object: t.object };
    assert(tv == t);
    if 0 <= i < groups.len() && groups[i].0 == k {
        let ms = groups[i].1;
        assert(node_members_wf(groups[i].0, ms));
        lemma_add_value(k, ms, t.predicate, v, t.object, m);
        let g2 = (k, add_value(ms, t.predicate, v));
        let r = groups.update(i, g2);
        assert(add_triple(groups, t) == r);
        assert forall|j: int| 0 <= j < r.len() implies node_members_wf(#[trigger] r[j].0, r[j].1) by {
            if j != i {
                assert(r[j] == groups[j]);
            }
        }
        assert(graph_of(r) =~= items.update(i, JsonView::Object(g2.1)));
        lemma_graph_update(items, i, JsonView::Object(g2.1), m);
        lemma_node_of_members(k, ms, m);
        lemma_node_of_members(k, g2.1, m);
        assert(items[i] == JsonView::Object(ms));
        let a = graph_triples(items, m).to_multiset();
        let u = graph_triples(graph_of(r), m).to_multiset();
        let nold = node_triples(items[i], m).to_multiset();
        let nnew = node_triples(JsonView::Object(g2.1), m).to_multiset();
        assert(nnew == nold.insert(t));
        assert(a.add(nnew) == u.add(nold));
        assert forall|x: TripleView| #[trigger] u.count(x) == a.insert(t).count(x) by {
            assert(a.add(nnew).count(x) == u.add(nold).count(x));
        }
        assert(u =~= a.insert(t));
    } else {
        let ms0 = seq![("@id"@, JsonView::String(k))];
        assert(node_members_wf(k, ms0));
        lemma_add_value(k, ms0, t.predicate, v, t.object, m);
        let g2 = (k, add_value(ms0, t.predicate, v));
        let r = groups.insert(i, g2);
        assert(add_triple(groups, t) == r);
        assert forall|j: int| 0 <= j < r.len() implies node_members_wf(#[trigger] r[j].0, r[j].1) by {
            if j < i {
                assert(r[j] == groups[j]);
            } else if j > i {
                assert(r[j] == groups[j - 1]);
            }
        }
        assert(graph_of(r) =~= items.insert(i, JsonView::Object(g2.1)));
        lemma_graph_insert(items, i, JsonView::Object(g2.1), m);
        lemma_node_of_members(k, g2.1, m);
        lemma_member_triples_one(subject_of_id(k), ms0[0], m);
        assert(member_triples(subject_of_id(k), ms0, m) =~= Seq::<TripleView>::empty());
        assert(member_triples(subject_of_id(k), ms0, m).to_multiset() =~= Multiset::<TripleView>::empty()) by {
            broadcast use vstd::seq_lib::to_multiset_len, vstd::multiset::lemma_multiset_empty_len;
            assert(member_triples(subject_of_id(k), ms0, m).to_multiset().len() == 0);
        }
        assert(node_triples(JsonView::Object(g2.1), m).to_multiset() =~= Multiset::<TripleView>::empty().insert(t));
        assert(graph_triples(graph_of(r), m).to_multiset() =~= graph_triples(items, m).to_multiset().insert(t));
    }
}

/// Grouping triples into node objects keeps every triple.
proof fn lemma_grouped(ts: Seq<TripleView>, m: Map<Seq<char>, Seq<char>>)
    requires
        forall|i: int| 0 <= i < ts.len() ==> jsonld_ok(m, #[trigger] ts[i]),
    ensures
        groups_wf(grouped(ts)),
        graph_triples(graph_of(grouped(ts)), m).to_multiset() == ts.to_multiset(),
    decreases ts.len(),
{
    broadcast use vstd::seq_lib::to_multiset_build, vstd::seq_lib::to_multiset_len, vstd::multiset::lemma_multiset_empty_len;
    if ts.len() == 0 {
        assert(graph_of(grouped(ts)) =~= Seq::<JsonView>::empty());
        assert(graph_triples(Seq::<JsonView>::empty(), m) =~= Seq::<TripleView>::empty());
        assert(ts.to_multiset().len() == 0);
        assert(Seq::<TripleView>::empty().to_multiset().len() == 0);
        assert(ts.to_multiset() =~= Multiset::<TripleView>::empty());
        assert(Seq::<TripleView>::empty().to_multiset() =~= Multiset::<TripleView>::empty());
    } else {
        let d = ts.drop_last();
        assert forall|i: int| 0 <= i < d.len() implies jsonld_ok(m, #[trigger] d[i]) by {
            assert(d[i] == ts[i]);
        }
        lemma_grouped(d, m);
        assert(jsonld_ok(m, ts[ts.len() - 1]));
        lemma_add_triple(grouped(d), ts.last(), m);
        assert(d.push(ts.last()) =~= ts);
    }
}

/// Reading back what was written: the JSON-LD document of an ontology
/// holds exactly the triples of its RDF projection (grouped by subject,
/// so in another order), where each triple's JSON form reads back under
/// the document's context.
pub proof fn law_jsonld_round_trip(o: Ontology)
    requires
        forall|i: int|
            0 <= i < rdf_of(o).len() ==> jsonld_ok(document_context(document_of(o)), #[trigger] rdf_of(o)[i]),
    ensures
        document_triples(document_of(o)).to_multiset() == rdf_of(o).to_multiset(),
{
    lemma_keys_distinct();
    reveal_strlit("@graph");
    reveal_strlit("@context");
    let doc = document_of(o);
    let m = document_context(doc);
    lemma_grouped(rdf_of(o), m);
    let ms = seq![
        ("@context"@, JsonView::Object(context_members(crate::turtle::effective_bindings(o)))),
        ("@graph"@, JsonView::Array(graph_of(grouped(rdf_of(o))))),
    ];
    assert(doc == JsonView::Object(ms));
    assert(ms.drop_first() =~= seq![ms[1]]);
    assert(member(seq![ms[1]], "@graph"@) == Some(ms[1].1));
    assert(member(ms, "@graph"@) == Some(JsonView::Array(graph_of(grouped(rdf_of(o))))));
}

} // verus!
