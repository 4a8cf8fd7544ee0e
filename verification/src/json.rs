//! JSON values, and their texts as `serde_json` reads and writes them.

use serde_json::Value;
use vstd::prelude::*;

verus! {

/// A `serde_json` number: carried from a text to a text, never looked into.
#[verifier::external_type_specification]
#[verifier::external_body]
pub struct ExNumber(serde_json::Number);

/// A number that was read from a text and is not an integer.
#[derive(Debug)]
pub struct Fraction {
    number: serde_json::Number,
}

/// A JSON value. Of several members of an object with one name, the last one counts.
#[derive(Debug)]
pub enum Json {
    Null,
    Bool(bool),
    Unsigned(u64),
    Signed(i64),
    Float(Fraction),
    Str(String),
    Array(Vec<Json>),
    Object(Vec<(String, Json)>),
}

/// What a JSON value is, apart from the order of the members of its objects.
pub enum JsonView {
    Null,
    Bool(bool),
    Whole(int),
    Float(Fraction),
    Str(Seq<char>),
    Array(Seq<JsonView>),
    Object(Map<Seq<char>, JsonView>),
}

/// The values of a row of items.
pub open spec fn items_view(items: Seq<Json>) -> Seq<JsonView>
    decreases items,
{
    if items.len() == 0 {
        Seq::empty()
    } else {
        items_view(items.drop_last()).push(items.last().as_view())
    }
}

/// The members by name, later ones in place of earlier ones.
pub open spec fn members_view(members: Seq<(String, Json)>) -> Map<Seq<char>, JsonView>
    decreases members,
{
    if members.len() == 0 {
        Map::empty()
    } else {
        members_view(members.drop_last()).insert(members.last().0@, members.last().1.as_view())
    }
}

impl Json {
    /// What the value is.
    pub open spec fn as_view(self) -> JsonView
        decreases self,
    {
        match self {
            Json::Null => JsonView::Null,
            Json::Bool(b) => JsonView::Bool(b),
            Json::Unsigned(n) => JsonView::Whole(n as int),
            Json::Signed(n) => JsonView::Whole(n as int),
            Json::Float(n) => JsonView::Float(n),
            Json::Str(s) => JsonView::Str(s@),
            Json::Array(items) => JsonView::Array(items_view(items@)),
            Json::Object(members) => JsonView::Object(members_view(members@)),
        }
    }
}

impl View for Json {
    type V = JsonView;

    open spec fn view(&self) -> JsonView {
        self.as_view()
    }
}

// ------------------------------------------------------------------------------- reading
/// The member of an object under `key`.
pub open spec fn member_of(json: JsonView, key: Seq<char>) -> Option<JsonView> {
    match json {
        JsonView::Object(members) => if members.contains_key(key) {
            Some(members[key])
        } else {
            None
        },
        _ => None,
    }
}

/// The characters of a JSON string.
pub open spec fn text_of(json: JsonView) -> Option<Seq<char>> {
    match json {
        JsonView::Str(s) => Some(s),
        _ => None,
    }
}

/// The items of a JSON array.
pub open spec fn items_of(json: JsonView) -> Option<Seq<JsonView>> {
    match json {
        JsonView::Array(items) => Some(items),
        _ => None,
    }
}

/// The characters of the string member of an object under `key`.
pub open spec fn text_member(json: JsonView, key: Seq<char>) -> Option<Seq<char>> {
    match member_of(json, key) {
        Some(member) => text_of(member),
        None => None,
    }
}

/// An item of a row keeps its place in the values of the row.
pub proof fn lemma_items_view(items: Seq<Json>)
    ensures
        items_view(items).len() == items.len(),
        forall|i: int| 0 <= i < items.len() ==> #[trigger] items_view(items)[i] == items[i]@,
    decreases items,
{
    if items.len() > 0 {
        lemma_items_view(items.drop_last());
        assert forall|i: int| 0 <= i < items.len() implies #[trigger] items_view(items)[i] == items[i]@ by {
            if i < items.len() - 1 {
                assert(items.drop_last()[i] == items[i]);
            }
        }
    }
}

impl Json {
    /// The member of an object under `key`.
    pub fn get(&self, key: &str) -> (r: Option<&Json>)
        ensures
            r is Some <==> member_of(self@, key@) is Some,
            r matches Some(json) ==> member_of(self@, key@) == Some(json@),
    {
        match self {
            Json::Object(members) => {
                let mut found: Option<usize> = None;
                let mut i: usize = 0;
                while i < members.len()
                    invariant
                        i <= members@.len(),
                        found matches Some(at) ==> at < i,
                        found is Some <==> members_view(members@.take(i as int)).contains_key(key@),
                        found matches Some(at) ==> members_view(members@.take(i as int))[key@] == members@[at as int].1@,
                    decreases members@.len() - i,
                {
                    proof {
                        assert(members@.take(i + 1).drop_last() =~= members@.take(i as int));
                    }
                    if crate::text::same(members[i].0.as_str(), key) {
                        found = Some(i);
                    }
                    i = i + 1;
                }
                assert(members@.take(i as int) =~= members@);
                match found {
                    Some(at) => Some(&members[at].1),
                    None => None,
                }
            },
            _ => None,
        }
    }

    /// The characters of a JSON string.
    pub fn as_str(&self) -> (r: Option<&str>)
        ensures
            r is Some <==> text_of(self@) is Some,
            r matches Some(s) ==> text_of(self@) == Some(s@),
    {
        match self {
            Json::Str(s) => Some(s.as_str()),
            _ => None,
        }
    }

    /// The items of a JSON array.
    pub fn as_array(&self) -> (r: Option<&Vec<Json>>)
        ensures
            r is Some <==> items_of(self@) is Some,
            r matches Some(items) ==> items_of(self@) == Some(items_view(items@)),
    {
        match self {
            Json::Array(items) => Some(items),
            _ => None,
        }
    }

    /// A copy of the string member under `key`.
    pub fn get_text(&self, key: &str) -> (r: Option<String>)
        ensures
            r.deep_view() == text_member(self@, key@),
    {
        match self.get(key) {
            Some(json) => match json.as_str() {
                Some(s) => Some(s.to_owned()),
                None => None,
            },
            None => None,
        }
    }

    /// The member of an object under `key`, taken out of it.
    pub fn into_member(self, key: &str) -> (r: Option<Json>)
        ensures
            r is Some <==> member_of(self@, key@) is Some,
            r matches Some(json) ==> member_of(self@, key@) == Some(json@),
    {
        match self {
            Json::Object(all) => {
                let mut members = all;
                while members.len() > 0
                    invariant
                        self@ == JsonView::Object(members_view(all@)),
                        members_view(all@).contains_key(key@) <==> members_view(members@).contains_key(key@),
                        members_view(all@).contains_key(key@) ==> members_view(all@)[key@] == members_view(members@)[key@],
                    decreases members@.len(),
                {
                    let ghost before = members@;
                    match members.pop() {
                        Some(member) => {
                            proof {
                                assert(before.drop_last() =~= members@);
                            }
                            if crate::text::same(member.0.as_str(), key) {
                                return Some(member.1);
                            }
                        },
                        None => {},
                    }
                }
                None
            },
            _ => None,
        }
    }

    /// An object without members.
    pub fn object() -> (json: Json)
        ensures
            json@ == JsonView::Object(Map::empty()),
    {
        Json::Object(Vec::new())
    }

    /// The object with `value` as its member under `key`.
    pub fn and(self, key: &str, value: Json) -> (json: Json)
        requires
            self@ is Object,
        ensures
            json@ == JsonView::Object(self@->Object_0.insert(key@, value@)),
    {
        match self {
            Json::Object(all) => {
                let mut members = all;
                members.push((key.to_owned(), value));
                assert(members@.drop_last() =~= all@);
                Json::Object(members)
            },
            other => other,
        }
    }

    /// The object with `value` as its member under `key`; `None` for what has no such member yet.
    pub fn with_member(self, key: &str, value: Json) -> (r: Option<Json>)
        ensures
            r is Some <==> member_of(self@, key@) is Some,
            r matches Some(json) ==> (self@ matches JsonView::Object(members) && json@ == JsonView::Object(
                members.insert(key@, value@),
            )),
    {
        if self.get(key).is_none() {
            None
        } else {
            Some(self.and(key, value))
        }
    }
}

// ---------------------------------------------------------------------- reading from bytes
/// Arrays and objects stand inside one another at most `depth` deep.
pub open spec fn is_shallow(json: JsonView, depth: nat) -> bool
    decreases depth,
{
    match json {
        JsonView::Array(items) => depth > 0 && forall|i: int|
            0 <= i < items.len() ==> is_shallow(#[trigger] items[i], (depth - 1) as nat),
        JsonView::Object(members) => depth > 0 && forall|key: Seq<char>|
            members.contains_key(key) ==> is_shallow(#[trigger] members[key], (depth - 1) as nat),
        _ => true,
    }
}

/// How deep `serde_json` follows nested arrays and objects.
pub const MAX_NESTING: usize = 127;

/// What `serde_json::from_slice` reads from these bytes: `None` where it refuses them.
pub uninterp spec fn json_parsed(bytes: Seq<u8>) -> Option<JsonView>;

/// What the error says with which `serde_json::from_slice` refuses these bytes.
pub uninterp spec fn json_error(bytes: Seq<u8>) -> Seq<char>;

/// What `serde_json::to_vec` writes for this value. The crate keeps objects sorted by name, so the
/// order of the members plays no part.
pub uninterp spec fn json_written(json: JsonView) -> Seq<u8>;

/// The JSON value that a text writes: `None` where it writes none.
pub open spec fn text_parsed(s: Seq<char>) -> Option<JsonView> {
    json_parsed(vstd::utf8::encode_utf8(s))
}

/// A `serde_json` value of any shape, on its way between a text and a `Json`.
#[verifier::external_type_specification]
#[verifier::external_body]
pub struct ExValue(serde_json::Value);

/// A `serde_json::Value` as a `Json`: one variant for another, integers apart from other numbers.
#[verifier::external_body]
fn from_value(value: Value) -> (json: Json) {
    match value {
        Value::Null => Json::Null,
        Value::Bool(b) => Json::Bool(b),
        Value::Number(n) => match (n.as_u64(), n.as_i64()) {
            (Some(u), _) => Json::Unsigned(u),
            (None, Some(i)) => Json::Signed(i),
            (None, None) => Json::Float(Fraction { number: n }),
        },
        Value::String(s) => Json::Str(s),
        Value::Array(items) => Json::Array(items.into_iter().map(from_value).collect()),
        Value::Object(map) => Json::Object(map.into_iter().map(|(k, v)| (k, from_value(v))).collect()),
    }
}

/// A `Json` as a `serde_json::Value`: one variant for another.
#[verifier::external_body]
fn to_value(json: &Json) -> (value: Value) {
    match json {
        Json::Null => Value::Null,
        Json::Bool(b) => Value::Bool(*b),
        Json::Unsigned(n) => Value::from(*n),
        Json::Signed(n) => Value::from(*n),
        Json::Float(n) => Value::Number(n.number.clone()),
        Json::Str(s) => Value::String(s.clone()),
        Json::Array(items) => Value::Array(items.iter().map(to_value).collect()),
        Json::Object(members) => Value::Object(members.iter().map(|m| (m.0.clone(), to_value(&m.1))).collect()),
    }
}

/// Reads a JSON text with `serde_json::from_slice`. The crate is built without `raw_value` and
/// `arbitrary_precision`, which would give certain member names a meaning of their own, and with
/// `float_roundtrip`, so that it rounds a number to the nearest one it can hold. Claimed: whether the
/// bytes are accepted, what value they give and what the error says depends on the bytes alone, and no
/// accepted value is nested deeper than the reader follows.
#[verifier::external_body]
fn from_slice(bytes: &[u8]) -> (r: Result<Json, String>)
    ensures
        r is Ok <==> json_parsed(bytes@) is Some,
        r matches Ok(json) ==> json_parsed(bytes@) == Some(json@) && is_shallow(json@, MAX_NESTING as nat),
        r matches Err(error) ==> error@ == json_error(bytes@),
{
    serde_json::from_slice::<Value>(bytes).map(from_value).map_err(|error| error.to_string())
}

/// Writes a JSON text with `serde_json::to_vec`, of the crate built as for the reader. Claimed: the text
/// depends on the value alone, and where the value is not nested deeper than the reader follows, reading
/// the text gives the value back. A number that is not an integer is written with as many digits as it
/// takes to tell it from every other one.
#[verifier::external_body]
fn to_vec(json: &Json) -> (bytes: Vec<u8>)
    ensures
        bytes@ == json_written(json@),
        is_shallow(json@, MAX_NESTING as nat) ==> json_parsed(bytes@) == Some(json@),
{
    serde_json::to_vec(&to_value(json)).expect("a JSON value always has a text")
}

impl Json {
    /// Reads a JSON text; the error is what the reader says of it.
    pub fn parse(bytes: &[u8]) -> (r: Result<Json, String>)
        ensures
            r is Ok <==> json_parsed(bytes@) is Some,
            r matches Ok(json) ==> json_parsed(bytes@) == Some(json@) && is_shallow(json@, MAX_NESTING as nat),
            r matches Err(error) ==> error@ == json_error(bytes@),
    {
        from_slice(bytes)
    }

    /// Reads a JSON text; the error is what the reader says of it.
    pub fn parse_text(s: &str) -> (r: Result<Json, String>)
        ensures
            r is Ok <==> text_parsed(s@) is Some,
            r matches Ok(json) ==> text_parsed(s@) == Some(json@),
            r matches Err(error) ==> error@ == json_error(vstd::utf8::encode_utf8(s@)),
    {
        Json::parse(s.as_bytes())
    }

    /// The text of the value.
    pub fn to_bytes(&self) -> (bytes: Vec<u8>)
        ensures
            bytes@ == json_written(self@),
            is_shallow(self@, MAX_NESTING as nat) ==> json_parsed(bytes@) == Some(self@),
    {
        to_vec(self)
    }
}

// ------------------------------------------------------------------------------------ laws
/// A string member of an object is found under its name, and nothing else passes for one. Of several members
/// with one name the last one counts.
pub proof fn law_members_are_found_by_name(json: JsonView, key: Seq<char>, value: Seq<char>)
    ensures
        text_member(json, key) == Some(value) <==> (json matches JsonView::Object(members) && members.contains_key(key)
            && members[key] == JsonView::Str(value)),
        member_of(json, key) is Some <==> (json matches JsonView::Object(members) && members.contains_key(key)),
        member_of(json, key) matches Some(member) ==> (json matches JsonView::Object(members) && members[key] == member),
        items_of(json) is Some <==> json is Array,
        items_of(json) matches Some(items) ==> json == JsonView::Array(items),
{
}

/// Of several members of an object with one name, the last one counts.
pub proof fn law_last_member_counts(members: Seq<(String, Json)>, member: (String, Json), key: Seq<char>)
    ensures
        members_view(members.push(member))[member.0@] == member.1@,
        members_view(members.push(member)).contains_key(member.0@),
        key != member.0@ ==> (members_view(members.push(member)).contains_key(key) <==> members_view(
            members,
        ).contains_key(key)),
        key != member.0@ && members_view(members).contains_key(key) ==> members_view(members.push(member))[key]
            == members_view(members)[key],
        !members_view(Seq::<(String, Json)>::empty()).contains_key(key),
{
    assert(members.push(member).drop_last() =~= members);
}

} // verus!
