//! JSON values: what this library builds of them and reads from them.
//!
//! The values themselves are `serde_json`'s. Contracts speak of them through
//! [`json`], the document a value holds.

use serde_json::value::RawValue;
use serde_json::Value;
use std::sync::Arc;
use vstd::prelude::*;

verus! {

#[verifier::external_type_specification]
#[verifier::external_body]
pub struct ExValue(serde_json::Value);

#[verifier::external_type_specification]
#[verifier::external_body]
pub struct ExRawValue(serde_json::value::RawValue);

#[verifier::external_type_specification]
#[verifier::external_body]
#[verifier::reject_recursive_types(K)]
#[verifier::reject_recursive_types(V)]
pub struct ExObject<K, V>(serde_json::Map<K, V>);

/// A JSON document.
pub enum Json {
    Null,
    Bool(bool),
    Int(int),
    /// A number with a fraction or an exponent, by its bits.
    Float(u64),
    Str(Seq<char>),
    Array(Seq<Json>),
    Object(Map<Seq<char>, Json>),
}

/// The document a value holds.
pub uninterp spec fn json(v: Value) -> Json;

/// The members of an object that is being built.
pub uninterp spec fn members(o: serde_json::Map<String, Value>) -> Map<Seq<char>, Value>;

/// The document of an object with the given members.
pub open spec fn json_object(fields: Map<Seq<char>, Value>) -> Json {
    Json::Object(fields.map_values(|v: Value| json(v)))
}

/// `Value::clone` copies the whole value.
pub assume_specification[ <serde_json::Value as Clone>::clone ](v: &serde_json::Value) -> (res:
    serde_json::Value)
    ensures
        res == *v,
;

/// `Value::from(u64)` is the number.
#[verifier::external_body]
pub(crate) fn value_of_u64(n: u64) -> (v: Value)
    ensures
        json(v) == Json::Int(n as int),
{
    Value::from(n)
}

/// `Value::from(i64)` is the number.
#[verifier::external_body]
pub(crate) fn value_of_i64(n: i64) -> (v: Value)
    ensures
        json(v) == Json::Int(n as int),
{
    Value::from(n)
}

/// `Value::from(&str)` is the string.
#[verifier::external_body]
pub(crate) fn value_of_str(s: &str) -> (v: Value)
    ensures
        json(v) == Json::Str(s@),
{
    Value::from(s)
}

/// `serde_json::Map::new` has no members.
#[verifier::external_body]
pub(crate) fn new_object() -> (o: serde_json::Map<String, Value>)
    ensures
        (members(o) == Map::<Seq<char>, Value>::empty()),
{
    serde_json::Map::new()
}

/// `serde_json::Map::insert` sets one member and gives back the value it
/// replaced.
#[verifier::external_body]
pub(crate) fn set_member(o: &mut serde_json::Map<String, Value>, key: &str, v: Value) -> (r: Option<
    Value,
>)
    ensures
        members(*final(o)) == members(*old(o)).insert(key@, v),
        r == if members(*old(o)).contains_key(key@) {
            Some(members(*old(o))[key@])
        } else {
            None
        },
{
    o.insert(key.to_string(), v)
}

/// `Value::Object` is the object with the members collected.
#[verifier::external_body]
pub(crate) fn value_of_object(o: serde_json::Map<String, Value>) -> (v: Value)
    ensures
        json(v) == json_object(members(o)),
{
    Value::Object(o)
}

/// The compact text of a document, as `serde_json::to_string` writes it.
pub uninterp spec fn json_text(j: Json) -> Option<Seq<char>>;

/// The text that `RawValue::from_string` keeps of a text: the one JSON value
/// it holds, without the white space around it.
pub uninterp spec fn raw_json(text: Seq<char>) -> Option<Seq<char>>;

/// The text of a raw value, as `RawValue::get` gives it.
pub uninterp spec fn raw_text(r: &RawValue) -> Seq<char>;

/// `serde_json::to_string`: the text is determined by the document. What it
/// writes is one JSON value without white space around it, so
/// `RawValue::from_string` keeps it as it is.
#[verifier::external_body]
pub(crate) fn text_of(v: &Value) -> (r: Option<String>)
    ensures
        r matches Some(t) ==> json_text(json(*v)) == Some(t@) && raw_json(t@) == Some(t@),
        r is None ==> json_text(json(*v)) is None,
{
    serde_json::to_string(v).ok()
}

/// `RawValue::from_string`: whether it accepts, and what it keeps, is
/// determined by the text.
#[verifier::external_body]
pub(crate) fn raw_of_text(text: String) -> (r: Option<Arc<RawValue>>)
    ensures
        r matches Some(raw) ==> raw_json(text@) == Some(raw_text(&*raw)),
        r is None ==> raw_json(text@) is None,
{
    RawValue::from_string(text).ok().map(Arc::from)
}

/// `RawValue::NULL` is the text `null`.
#[verifier::external_body]
pub(crate) fn raw_null() -> (r: Arc<RawValue>)
    ensures
        raw_text(&*r) == "null"@,
{
    Arc::from(RawValue::NULL.to_owned())
}

/// The text of a value as a raw value: its compact text, or `null` where it
/// has none.
pub open spec fn raw_text_of(j: Json) -> Seq<char> {
    match json_text(j) {
        Some(t) => t,
        None => "null"@,
    }
}

/// Serializes a value once, so that its text can be shared.
pub fn raw_of(v: &Value) -> (r: Arc<RawValue>)
    ensures
        raw_text(&*r) == raw_text_of(json(*v)),
{
    match text_of(v) {
        Some(text) => match raw_of_text(text) {
            Some(raw) => raw,
            None => raw_null(),
        },
        None => raw_null(),
    }
}

/// `m` with one more member, where there is a value for it.
pub open spec fn with_member(m: Map<Seq<char>, Json>, key: Seq<char>, v: Option<Json>) -> Map<
    Seq<char>,
    Json,
> {
    match v {
        Some(j) => m.insert(key, j),
        None => m,
    }
}

/// The string document of a text, where there is one.
pub open spec fn json_str_opt(s: Option<String>) -> Option<Json> {
    match s {
        Some(t) => Some(Json::Str(t@)),
        None => None,
    }
}

/// The document of a value, where there is one.
pub open spec fn json_opt(v: Option<Value>) -> Option<Json> {
    match v {
        Some(x) => Some(json(x)),
        None => None,
    }
}

/// `null` in place of a document that is not there.
pub open spec fn json_or_null(v: Option<Value>) -> Json {
    match v {
        Some(x) => json(x),
        None => Json::Null,
    }
}

/// `Value::Null` is `null`.
#[verifier::external_body]
pub(crate) fn value_null() -> (v: Value)
    ensures
        json(v) == Json::Null,
{
    Value::Null
}

/// `Value::Bool` is the truth value.
#[verifier::external_body]
pub(crate) fn value_of_bool(b: bool) -> (v: Value)
    ensures
        json(v) == Json::Bool(b),
{
    Value::Bool(b)
}

/// The documents of values.
pub open spec fn jsons(vs: Seq<Value>) -> Seq<Json> {
    vs.map_values(|v: Value| json(v))
}

/// `Value::Array` is the array of the values.
#[verifier::external_body]
pub(crate) fn value_of_array(vs: Vec<Value>) -> (v: Value)
    ensures
        json(v) == Json::Array(jsons(vs@)),
{
    Value::Array(vs)
}

/// The array of some texts.
pub open spec fn json_texts(texts: Seq<Seq<char>>) -> Json {
    Json::Array(texts.map_values(|t: Seq<char>| Json::Str(t)))
}

/// The array of some strings.
pub fn array_of_strings(texts: &Vec<String>) -> (v: Value)
    ensures
        json(v) == json_texts(texts@.map_values(|s: String| s@)),
{
    let mut vs: Vec<Value> = Vec::new();
    let mut i: usize = 0;
    while i < texts.len()
        invariant
            i <= texts@.len(),
            vs@.len() == i,
            forall|j: int| 0 <= j < i ==> json(#[trigger] vs@[j]) == Json::Str(texts@[j]@),
        decreases texts@.len() - i,
    {
        vs.push(value_of_str(texts[i].as_str()));
        i += 1;
    }
    let v = value_of_array(vs);
    assert(jsons(vs@) =~= texts@.map_values(|s: String| s@).map_values(
        |t: Seq<char>| Json::Str(t),
    ));
    v
}

/// The array of some numbers.
pub open spec fn json_numbers(ns: Seq<u64>) -> Json {
    Json::Array(ns.map_values(|n: u64| Json::Int(n as int)))
}

/// The array of some numbers.
pub fn array_of_numbers(ns: &Vec<u64>) -> (v: Value)
    ensures
        json(v) == json_numbers(ns@),
{
    let mut vs: Vec<Value> = Vec::new();
    let mut i: usize = 0;
    while i < ns.len()
        invariant
            i <= ns@.len(),
            vs@.len() == i,
            forall|j: int| 0 <= j < i ==> json(#[trigger] vs@[j]) == Json::Int(ns@[j] as int),
        decreases ns@.len() - i,
    {
        vs.push(value_of_u64(ns[i]));
        i += 1;
    }
    let v = value_of_array(vs);
    assert(jsons(vs@) =~= ns@.map_values(|n: u64| Json::Int(n as int)));
    v
}

/// A JSON object under construction.
pub struct ObjectBuilder {
    pub fields: serde_json::Map<String, Value>,
}

impl ObjectBuilder {
    /// The members set so far.
    pub open spec fn doc(self) -> Map<Seq<char>, Json> {
        members(self.fields).map_values(|v: Value| json(v))
    }

    /// An object without members.
    pub fn new() -> (r: Self)
        ensures
            (r.doc() == Map::<Seq<char>, Json>::empty()),
    {
        let r = ObjectBuilder { fields: new_object() };
        assert(r.doc() =~= Map::<Seq<char>, Json>::empty());
        r
    }

    /// Sets a member.
    pub fn put(&mut self, key: &str, v: Value)
        ensures
            final(self).doc() == old(self).doc().insert(key@, json(v)),
    {
        set_member(&mut self.fields, key, v);
        assert(self.doc() =~= old(self).doc().insert(key@, json(v)));
    }

    /// Sets a member to a number.
    pub fn put_u64(&mut self, key: &str, n: u64)
        ensures
            final(self).doc() == old(self).doc().insert(key@, Json::Int(n as int)),
    {
        self.put(key, value_of_u64(n));
    }

    /// Sets a member to a signed number.
    pub fn put_i64(&mut self, key: &str, n: i64)
        ensures
            final(self).doc() == old(self).doc().insert(key@, Json::Int(n as int)),
    {
        self.put(key, value_of_i64(n));
    }

    /// Sets a member to a string.
    pub fn put_str(&mut self, key: &str, s: &str)
        ensures
            final(self).doc() == old(self).doc().insert(key@, Json::Str(s@)),
    {
        self.put(key, value_of_str(s));
    }

    /// Sets a member to a truth value.
    pub fn put_bool(&mut self, key: &str, b: bool)
        ensures
            final(self).doc() == old(self).doc().insert(key@, Json::Bool(b)),
    {
        self.put(key, value_of_bool(b));
    }

    /// Sets a member to a value, or to `null` where there is none.
    pub fn put_or_null(&mut self, key: &str, v: &Option<Value>)
        ensures
            final(self).doc() == old(self).doc().insert(key@, json_or_null(*v)),
    {
        match v {
            Some(x) => self.put(key, x.clone()),
            None => self.put(key, value_null()),
        }
    }

    /// The object.
    pub fn finish(self) -> (v: Value)
        ensures
            json(v) == Json::Object(self.doc()),
    {
        value_of_object(self.fields)
    }
}

/// An array has its items in order, each as it is; and what is not there is `null`.
pub proof fn law_documents_hold_what_they_are_made_of(
    texts: Seq<Seq<char>>,
    numbers: Seq<u64>,
    value: Option<Value>,
    i: int,
)
    ensures
        json_texts(texts) matches Json::Array(items) && items.len() == texts.len() && (0 <= i
            < texts.len() ==> items[i] == Json::Str(texts[i])),
        json_numbers(numbers) matches Json::Array(items) && items.len() == numbers.len() && (0 <= i
            < numbers.len() ==> items[i] == Json::Int(numbers[i] as int)),
        value matches Some(v) ==> json_or_null(value) == json(v),
        value is None ==> json_or_null(value) == Json::Null,
{
}

/// A member that is set has its value, one that is not there is not set, and the others
/// stay.
pub proof fn law_members_are_set_one_by_one(
    m: Map<Seq<char>, Json>,
    key: Seq<char>,
    v: Option<Json>,
    other: Seq<char>,
)
    ensures
        v matches Some(j) ==> with_member(m, key, v).contains_key(key) && with_member(m, key, v)[key]
            == j,
        v is None ==> with_member(m, key, v) == m,
        other != key ==> {
            &&& with_member(m, key, v).contains_key(other) <==> m.contains_key(other)
            &&& m.contains_key(other) ==> with_member(m, key, v)[other] == m[other]
        },
{
}

}
