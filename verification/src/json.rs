//! A JSON document model: the values a JSON text denotes, with numbers
//! kept as their text. JSON text is read and pretty-printed by
//! serde_json.
use vstd::prelude::*;

verus! {

#[verifier::external_type_specification]
#[verifier::external_body]
pub struct ExJsonValue(serde_json::Value);

/// The value serde_json reads from `text` (object members in the order of
/// its map, by key; numbers as serde_json writes them), or the message of
/// the error it reports.
pub uninterp spec fn json_text_value(text: Seq<char>) -> Result<JsonView, Seq<char>>;

/// The text `serde_json::to_string_pretty` makes of `v`, or nothing when
/// it reports an error.
pub uninterp spec fn json_pretty_text(v: JsonView) -> Option<Seq<char>>;

/// A serde_json value as a [`JsonValue`], variant by variant (numbers as
/// their text, object members in the map's order). Used by the bodies of
/// [`read_json_text`] only; that function's contract states the outcome.
#[verifier::external_body]
fn json_from_serde(v: serde_json::Value) -> JsonValue {
    match v {
        serde_json::Value::Null => JsonValue::Null,
        serde_json::Value::Bool(b) => JsonValue::Bool(b),
        serde_json::Value::Number(n) => JsonValue::Number(n.to_string()),
        serde_json::Value::String(t) => JsonValue::String(t),
        serde_json::Value::Array(items) => JsonValue::Array(items.into_iter().map(json_from_serde).collect()),
        serde_json::Value::Object(map) => JsonValue::Object(
            map.into_iter().map(|(key, value)| JsonMember { key, value: json_from_serde(value) }).collect(),
        ),
    }
}

/// A [`JsonValue`] as a serde_json value, variant by variant (a number's
/// text read as a serde_json number, kept as a string where it is not
/// one). Used by the body of [`render_json_pretty`] only; that function's
/// contract states the outcome.
#[verifier::external_body]
fn json_to_serde(v: &JsonValue) -> serde_json::Value {
    match v {
        JsonValue::Null => serde_json::Value::Null,
        JsonValue::Bool(b) => serde_json::Value::Bool(*b),
        JsonValue::Number(t) => match t.parse::<serde_json::Number>() {
            Ok(n) => serde_json::Value::Number(n),
            Err(_) => serde_json::Value::String(t.clone()),
        },
        JsonValue::String(t) => serde_json::Value::String(t.clone()),
        JsonValue::Array(items) => serde_json::Value::Array(items.iter().map(json_to_serde).collect()),
        JsonValue::Object(ms) => serde_json::Value::Object(ms.iter().map(|m| (m.key.clone(), json_to_serde(&m.value))).collect()),
    }
}

/// Calls `serde_json::from_str::<serde_json::Value>`: the value `text`
/// holds, named [`json_text_value`], or the message of serde_json's error.
#[verifier::external_body]
pub(crate) fn read_json_text(text: &str) -> (r: Result<JsonValue, String>)
    ensures
        match json_text_value(text@) {
            Ok(v) => r matches Ok(x) && jview(x) == v,
            Err(m) => r matches Err(e) && e@ == m,
        },
{
    match serde_json::from_str::<serde_json::Value>(text) {
        Ok(v) => Ok(json_from_serde(v)),
        Err(e) => Err(e.to_string()),
    }
}

/// Calls `serde_json::to_string_pretty` on `v`: its pretty-printed text,
/// named [`json_pretty_text`], or nothing when serde_json reports an error.
#[verifier::external_body]
pub(crate) fn render_json_pretty(v: &JsonValue) -> (r: Option<String>)
    ensures
        match json_pretty_text(jview(*v)) {
            Some(t) => r matches Some(x) && x@ == t,
            None => r is None,
        },
{
    serde_json::to_string_pretty(&json_to_serde(v)).ok()
}

/// A JSON value.
#[derive(Debug)]
pub enum JsonValue {
    Null,
    Bool(bool),
    Number(String),
    String(String),
    Array(Vec<JsonValue>),
    Object(Vec<JsonMember>),
}

/// A member of a JSON object.
#[derive(Debug)]
pub struct JsonMember {
    pub key: String,
    pub value: JsonValue,
}

/// Mathematical view of a JSON value.
pub enum JsonView {
    Null,
    Bool(bool),
    Number(Seq<char>),
    String(Seq<char>),
    Array(Seq<JsonView>),
    Object(Seq<(Seq<char>, JsonView)>),
}

/// The view of a JSON value.
pub open spec fn jview(v: JsonValue) -> JsonView
    decreases v,
{
    match v {
        JsonValue::Null => JsonView::Null,
        JsonValue::Bool(b) => JsonView::Bool(b),
        JsonValue::Number(t) => JsonView::Number(t@),
        JsonValue::String(s) => JsonView::String(s@),
        JsonValue::Array(items) => JsonView::Array(jview_items(items@)),
        JsonValue::Object(ms) => JsonView::Object(jview_members(ms@)),
    }
}

/// The views of a list of values.
pub open spec fn jview_items(items: Seq<JsonValue>) -> Seq<JsonView>
    decreases items,
{
    if items.len() == 0 {
        seq![]
    } else {
        seq![jview(items[0])] + jview_items(items.drop_first())
    }
}

/// The views of a list of members.
pub open spec fn jview_members(ms: Seq<JsonMember>) -> Seq<(Seq<char>, JsonView)>
    decreases ms,
{
    if ms.len() == 0 {
        seq![]
    } else {
        seq![(ms[0].key@, jview(ms[0].value))] + jview_members(ms.drop_first())
    }
}

/// A copy of `v`.
pub fn json_copy(v: &JsonValue) -> (r: JsonValue)
    ensures
        jview(r) == jview(*v),
    decreases v,
{
    broadcast use vstd::std_specs::vec::axiom_vec_index_decreases;

    match v {
        JsonValue::Null => JsonValue::Null,
        JsonValue::Bool(b) => JsonValue::Bool(*b),
        JsonValue::Number(t) => JsonValue::Number(t.clone()),
        JsonValue::String(t) => JsonValue::String(t.clone()),
        JsonValue::Array(items) => {
            let mut out: Vec<JsonValue> = Vec::new();
            let mut i: usize = 0;
            while i < items.len()
                invariant
                    *v == JsonValue::Array(*items),
                    i <= items@.len(),
                    out@.len() == i,
                    forall|j: int| 0 <= j < i ==> jview(#[trigger] out@[j]) == jview(items@[j]),
                decreases items@.len() - i,
            {
                proof {
                    assert(decreases_to!(*v => (*v)->Array_0));
                    assert(decreases_to!(*items => items[i as int]));
                }
                let c = json_copy(&items[i]);
                out.push(c);
                i = i + 1;
            }
            proof {
                lemma_jview_items(items@);
                lemma_jview_items_ext(out@, jview_items(items@));
            }
            JsonValue::Array(out)
        },
        JsonValue::Object(ms) => {
            let mut out: Vec<JsonMember> = Vec::new();
            let mut i: usize = 0;
            while i < ms.len()
                invariant
                    *v == JsonValue::Object(*ms),
                    i <= ms@.len(),
                    out@.len() == i,
                    forall|j: int| 0 <= j < i ==> (#[trigger] out@[j]).key@ == ms@[j].key@ && jview(out@[j].value) == jview(ms@[j].value),
                decreases ms@.len() - i,
            {
                proof {
                    assert(decreases_to!(*v => (*v)->Object_0));
                    assert(decreases_to!(*ms => ms[i as int]));
                    assert(decreases_to!(ms[i as int] => ms[i as int].value));
                }
                let c = json_copy(&ms[i].value);
                out.push(JsonMember { key: ms[i].key.clone(), value: c });
                i = i + 1;
            }
            proof {
                lemma_jview_members(ms@);
                lemma_jview_members_ext(out@, jview_members(ms@));
            }
            JsonValue::Object(out)
        },
    }
}

impl Clone for JsonValue {
    fn clone(&self) -> (r: Self)
        ensures
            jview(r) == jview(*self),
    {
        json_copy(self)
    }
}

impl Clone for JsonMember {
    fn clone(&self) -> (r: Self)
        ensures
            r.key@ == self.key@,
            jview(r.value) == jview(self.value),
    {
        JsonMember { key: self.key.clone(), value: json_copy(&self.value) }
    }
}

/// The JSON number `n`, written in decimal.
pub fn json_unsigned(n: u64) -> (r: JsonValue)
    ensures
        jview(r) == JsonView::Number(crate::rdf::decimal(n as nat)),
{
    let digits = crate::rdf::unsigned_text(n);
    JsonValue::Number(crate::text::string_of_chars(&digits))
}

/// A list's views, index by index.
pub proof fn lemma_jview_items(items: Seq<JsonValue>)
    ensures
        jview_items(items).len() == items.len(),
        forall|i: int| 0 <= i < items.len() ==> #[trigger] jview_items(items)[i] == jview(items[i]),
    decreases items.len(),
{
    if items.len() > 0 {
        lemma_jview_items(items.drop_first());
        assert forall|i: int| 0 <= i < items.len() implies #[trigger] jview_items(items)[i] == jview(items[i]) by {
            if i > 0 {
                assert(items.drop_first()[i - 1] == items[i]);
            }
        }
    }
}

/// A member list's views, index by index.
pub proof fn lemma_jview_members(ms: Seq<JsonMember>)
    ensures
        jview_members(ms).len() == ms.len(),
        forall|i: int| 0 <= i < ms.len() ==> #[trigger] jview_members(ms)[i] == (ms[i].key@, jview(ms[i].value)),
    decreases ms.len(),
{
    if ms.len() > 0 {
        lemma_jview_members(ms.drop_first());
        assert forall|i: int| 0 <= i < ms.len() implies #[trigger] jview_members(ms)[i] == (ms[i].key@, jview(ms[i].value)) by {
            if i > 0 {
                assert(ms.drop_first()[i - 1] == ms[i]);
            }
        }
    }
}

/// Two lists with the same views index by index have the same view.
pub proof fn lemma_jview_items_ext(a: Seq<JsonValue>, b: Seq<JsonView>)
    requires
        a.len() == b.len(),
        forall|i: int| 0 <= i < a.len() ==> jview(#[trigger] a[i]) == b[i],
    ensures
        jview_items(a) == b,
{
    lemma_jview_items(a);
    assert(jview_items(a) =~= b);
}

/// Two member lists with the same views index by index have the same view.
pub proof fn lemma_jview_members_ext(a: Seq<JsonMember>, b: Seq<(Seq<char>, JsonView)>)
    requires
        a.len() == b.len(),
        forall|i: int| 0 <= i < a.len() ==> (#[trigger] a[i]).key@ == b[i].0 && jview(a[i].value) == b[i].1,
    ensures
        jview_members(a) == b,
{
    lemma_jview_members(a);
    assert(jview_members(a) =~= b);
}

} // verus!
