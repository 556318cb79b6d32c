//! JSON values, as `serde_json` holds, reads and writes them.

use serde_json::Value;
use vstd::prelude::*;

use crate::text;

verus! {

/// A JSON value of `serde_json`.
#[verifier::external_type_specification]
#[verifier::external_body]
pub struct ExValue(serde_json::Value);

/// What a JSON value is.
#[verifier::ext_equal]
pub enum Json {
    Null,
    Bool(bool),
    Int(int),
    /// A floating-point number, by its bits.
    Float(u64),
    Str(Seq<char>),
    Arr(Seq<Json>),
    Obj(Map<Seq<char>, Json>),
}

/// What a value of `serde_json` holds. A number that was written as an integer, or
/// made from one, is an integer.
pub uninterp spec fn json(v: serde_json::Value) -> Json;

/// What the values hold.
pub open spec fn jsons(v: Seq<Value>) -> Seq<Json> {
    v.map_values(|x: Value| json(x))
}

// ---- reading --------------------------------------------------------------------

/// `Value::as_str`: the text of a string; nothing else has one.
pub assume_specification[ serde_json::Value::as_str ](v: &Value) -> (r: Option<&str>)
    ensures
        json(*v) matches Json::Str(s) ==> r is Some && r->0@ == s,
        !(json(*v) is Str) ==> r is None,
;

/// `Value::as_bool`: the value of a boolean; nothing else has one.
pub assume_specification[ serde_json::Value::as_bool ](v: &Value) -> (r: Option<bool>)
    ensures
        r == (match json(*v) {
            Json::Bool(b) => Some(b),
            _ => None,
        }),
;

/// `Value::as_u64`: the value of an integer that is not negative; nothing else has
/// one.
pub assume_specification[ serde_json::Value::as_u64 ](v: &Value) -> (r: Option<u64>)
    ensures
        json(*v) matches Json::Int(n) ==> (if n >= 0 {
            r is Some && r->0 == n
        } else {
            r is None
        }),
        !(json(*v) is Int) ==> r is None,
;

/// `Value::as_array`: the elements of an array; nothing else has them.
pub assume_specification[ serde_json::Value::as_array ](v: &Value) -> (r: Option<&Vec<Value>>)
    ensures
        json(*v) matches Json::Arr(s) ==> r is Some && jsons(r->0@) == s,
        !(json(*v) is Arr) ==> r is None,
;

/// `Value::get` with a key: the member of that name of an object; nothing else has
/// members.
#[verifier::external_body]
pub(crate) fn member<'a>(v: &'a Value, key: &str) -> (r: Option<&'a Value>)
    ensures
        match json(*v) {
            Json::Obj(m) => if m.contains_key(key@) {
                r is Some && json(*r->0) == m[key@]
            } else {
                r is None
            },
            _ => r is None,
        },
{
    v.get(key)
}

/// The members of an object, in the order of their names.
pub open spec fn listing(m: Map<Seq<char>, Json>, es: Seq<(Seq<char>, Json)>) -> bool {
    &&& forall|i: int|
        0 <= i < es.len() ==> m.contains_key((#[trigger] es[i]).0) && m[es[i].0] == es[i].1
    &&& forall|k: Seq<char>| #[trigger]
        m.contains_key(k) ==> exists|i: int| 0 <= i < es.len() && (#[trigger] es[i]).0 == k
    &&& forall|i: int, j: int|
        0 <= i < j < es.len() ==> text::text_lt((#[trigger] es[i]).0, (#[trigger] es[j]).0)
}

/// The members, each as its name and what it holds.
pub open spec fn members_view(v: Seq<(String, &Value)>) -> Seq<(Seq<char>, Json)> {
    v.map_values(|e: (String, &Value)| (e.0@, json(*e.1)))
}

/// `Value::as_object` and the map's iterator: the members of an object, in the
/// order of their names; nothing else has members.
#[verifier::external_body]
pub(crate) fn members(v: &Value) -> (r: Option<Vec<(String, &Value)>>)
    ensures
        json(*v) matches Json::Obj(m) ==> r is Some && listing(m, members_view(r->0@)),
        !(json(*v) is Obj) ==> r is None,
{
    v.as_object().map(|m| m.iter().map(|(k, x)| (k.clone(), x)).collect())
}

/// An object lists its members in one way only.
pub proof fn law_listing_is_unique(
    m: Map<Seq<char>, Json>,
    a: Seq<(Seq<char>, Json)>,
    b: Seq<(Seq<char>, Json)>,
)
    requires
        listing(m, a),
        listing(m, b),
    ensures
        a == b,
{
    lemma_listing_prefix(m, a, b, a.len());
    lemma_listing_prefix(m, b, a, b.len());
    assert(a =~= b);
}

/// The first `k` members of one listing are those of the other.
proof fn lemma_listing_prefix(
    m: Map<Seq<char>, Json>,
    a: Seq<(Seq<char>, Json)>,
    b: Seq<(Seq<char>, Json)>,
    k: nat,
)
    requires
        listing(m, a),
        listing(m, b),
        k <= a.len(),
    ensures
        k <= b.len(),
        forall|i: int| 0 <= i < k ==> a[i] == b[i],
    decreases k,
{
    if k > 0 {
        let n = k - 1;
        lemma_listing_prefix(m, a, b, n as nat);
        assert(m.contains_key(a[n].0));
        let j = choose|j: int| 0 <= j < b.len() && (#[trigger] b[j]).0 == a[n].0;
        if j < n {
            assert(a[j] == b[j]);
            text::lemma_text_total(a[j].0, a[n].0);
        }
        assert(n < b.len());
        assert(m.contains_key(b[n].0));
        let i = choose|i: int| 0 <= i < a.len() && (#[trigger] a[i]).0 == b[n].0;
        if i < n {
            assert(a[i] == b[i]);
            text::lemma_text_total(b[i].0, b[n].0);
        } else if i > n {
            if j > n {
                text::lemma_text_total(a[n].0, a[i].0);
                text::lemma_text_total(b[n].0, b[j].0);
            }
        }
        assert(a[n].0 == b[n].0);
    }
}

/// What `serde_json` reads in a text: a value, or why there is none.
pub uninterp spec fn parsed(s: Seq<char>) -> Result<Json, Seq<char>>;

/// `serde_json::from_str`: what the text holds, or the error in words.
#[verifier::external_body]
pub(crate) fn parse(s: &str) -> (r: Result<Value, String>)
    ensures
        match r {
            Ok(v) => parsed(s@) == Ok::<Json, Seq<char>>(json(v)),
            Err(e) => parsed(s@) == Err::<Json, Seq<char>>(e@),
        },
{
    serde_json::from_str(s).map_err(|e: serde_json::Error| e.to_string())
}

// ---- writing --------------------------------------------------------------------

/// The text of a value over several lines, as `serde_json` writes it.
pub uninterp spec fn pretty_text(j: Json) -> Seq<char>;

/// `serde_json::to_string_pretty`. Writing a value into a string does not fail.
#[verifier::external_body]
pub(crate) fn pretty(v: &Value) -> (r: String)
    ensures
        r@ == pretty_text(json(*v)),
{
    serde_json::to_string_pretty(v).unwrap_or_default()
}

/// The text of a value on one line, as `serde_json` writes it.
pub uninterp spec fn compact_text(j: Json) -> Seq<char>;

/// `Value::to_string`. No character of the text ends a line: the compact form has
/// none between its parts, and in strings they are escaped.
#[verifier::external_body]
pub(crate) fn compact(v: &Value) -> (r: String)
    ensures
        r@ == compact_text(json(*v)),
        !r@.contains('\n'),
{
    v.to_string()
}

// ---- making ---------------------------------------------------------------------

/// `Value::clone`: the same value again.
pub assume_specification[ <serde_json::Value as Clone>::clone ](v: &Value) -> (r: Value)
    ensures
        json(r) == json(*v),
;

/// `Value::Null`.
#[verifier::external_body]
pub(crate) fn null() -> (r: Value)
    ensures
        json(r) == Json::Null,
{
    Value::Null
}

/// `Value::from` a boolean.
#[verifier::external_body]
pub(crate) fn boolean(b: bool) -> (r: Value)
    ensures
        json(r) == Json::Bool(b),
{
    Value::from(b)
}

/// `Value::from` a number of 64 bits.
#[verifier::external_body]
pub(crate) fn number(n: u64) -> (r: Value)
    ensures
        json(r) == Json::Int(n as int),
{
    Value::from(n)
}

/// `Value::from` a signed number of 64 bits.
#[verifier::external_body]
pub(crate) fn signed_number(n: i64) -> (r: Value)
    ensures
        json(r) == Json::Int(n as int),
{
    Value::from(n)
}

/// `Value::from` a text.
#[verifier::external_body]
pub(crate) fn string(s: &str) -> (r: Value)
    ensures
        json(r) == Json::Str(s@),
{
    Value::from(s)
}

/// `Value::from` a vector of values.
#[verifier::external_body]
pub(crate) fn array(v: Vec<Value>) -> (r: Value)
    ensures
        json(r) == Json::Arr(jsons(v@)),
{
    Value::from(v)
}

/// The members that a list of them makes. Of two of one name the later counts.
pub open spec fn members_of(fields: Seq<(Seq<char>, Json)>) -> Map<Seq<char>, Json>
    decreases fields.len(),
{
    if fields.len() == 0 {
        Map::empty()
    } else {
        members_of(fields.drop_last()).insert(fields.last().0, fields.last().1)
    }
}

/// The members, each as its name and what it holds.
pub open spec fn fields_view(v: Seq<(String, Value)>) -> Seq<(Seq<char>, Json)> {
    v.map_values(|e: (String, Value)| (e.0@, json(e.1)))
}

/// `serde_json::Map` collected from its members, as a value.
#[verifier::external_body]
fn object(fields: Vec<(String, Value)>) -> (r: Value)
    ensures
        json(r) == Json::Obj(members_of(fields_view(fields@))),
{
    Value::Object(fields.into_iter().collect())
}

/// An object under construction.
pub(crate) struct Fields {
    list: Vec<(String, Value)>,
}

impl View for Fields {
    type V = Map<Seq<char>, Json>;

    closed spec fn view(&self) -> Map<Seq<char>, Json> {
        members_of(fields_view(self.list@))
    }
}

impl Fields {
    /// No members yet.
    pub(crate) fn new() -> (r: Fields)
        ensures
            r@ == Map::<Seq<char>, Json>::empty(),
    {
        Fields { list: Vec::new() }
    }

    /// One member more; where there is one of that name, it takes its place.
    pub(crate) fn put(&mut self, key: &str, v: Value)
        ensures
            final(self)@ == old(self)@.insert(key@, json(v)),
    {
        let ghost before = fields_view(self.list@);
        self.list.push((key.to_owned(), v));
        let ghost after = fields_view(self.list@);
        assert(after =~= before.push((key@, json(v))));
        assert(after.drop_last() =~= before);
    }

    /// One member more, a text.
    pub(crate) fn put_str(&mut self, key: &str, s: &str)
        ensures
            final(self)@ == old(self)@.insert(key@, Json::Str(s@)),
    {
        self.put(key, string(s));
    }

    /// One member more, a number.
    pub(crate) fn put_num(&mut self, key: &str, n: u64)
        ensures
            final(self)@ == old(self)@.insert(key@, Json::Int(n as int)),
    {
        self.put(key, number(n));
    }

    /// One member more, a boolean.
    pub(crate) fn put_bool(&mut self, key: &str, b: bool)
        ensures
            final(self)@ == old(self)@.insert(key@, Json::Bool(b)),
    {
        self.put(key, boolean(b));
    }

    /// The object.
    pub(crate) fn done(self) -> (r: Value)
        ensures
            json(r) == Json::Obj(self@),
    {
        object(self.list)
    }
}

/// An array under construction.
pub(crate) struct Values {
    list: Vec<Value>,
}

impl View for Values {
    type V = Seq<Json>;

    closed spec fn view(&self) -> Seq<Json> {
        jsons(self.list@)
    }
}

impl Values {
    /// No elements yet.
    pub(crate) fn new() -> (r: Values)
        ensures
            r@ == Seq::<Json>::empty(),
    {
        let r = Values { list: Vec::new() };
        assert(jsons(r.list@) =~= Seq::<Json>::empty());
        r
    }

    /// One element more.
    pub(crate) fn push(&mut self, v: Value)
        ensures
            final(self)@ == old(self)@.push(json(v)),
    {
        let ghost before = self@;
        self.list.push(v);
        assert(jsons(self.list@) =~= before.push(json(v)));
    }

    /// The array.
    pub(crate) fn done(self) -> (r: Value)
        ensures
            json(r) == Json::Arr(self@),
    {
        array(self.list)
    }
}

/// A text, or `null` where there is none.
pub open spec fn text_or_null(s: Option<Seq<char>>) -> Json {
    match s {
        Some(s) => Json::Str(s),
        None => Json::Null,
    }
}

/// A text, or `null` where there is none.
pub(crate) fn optional(s: &Option<String>) -> (r: Value)
    ensures
        json(r) == text_or_null(crate::index::opt_string(*s)),
{
    match s {
        Some(s) => string(s.as_str()),
        None => null(),
    }
}

/// The member of a value, if it has it.
pub open spec fn field(j: Json, key: Seq<char>) -> Option<Json> {
    match j {
        Json::Obj(m) => if m.contains_key(key) {
            Some(m[key])
        } else {
            None
        },
        _ => None,
    }
}

} // verus!
