//! JSON values: what a document says, and the text that says it.
use vstd::prelude::*;

use crate::numbers::decimal;
use crate::text::same_text;

verus! {

/// A number of a JSON document. One that is no integer of 64 bits is known by its text.
#[verifier::ext_equal]
pub enum NumberText {
    PosInt(u64),
    NegInt(i64),
    Float(Seq<char>),
}

/// What a JSON document says. The keys of an object stand in the order in which the object
/// lists them.
#[verifier::ext_equal]
pub enum Json {
    Null,
    Bool(bool),
    Number(NumberText),
    Text(Seq<char>),
    Array(Seq<Json>),
    Object(Seq<(Seq<char>, Json)>),
}

/// A number of a JSON document.
#[derive(Debug)]
pub enum JsonNumber {
    PosInt(u64),
    NegInt(i64),
    Float(String),
}

/// A JSON value.
#[derive(Debug)]
pub enum JsonValue {
    Null,
    Bool(bool),
    Number(JsonNumber),
    Text(String),
    Array(Vec<JsonValue>),
    Object(Vec<(String, JsonValue)>),
}

impl View for JsonNumber {
    type V = NumberText;

    open spec fn view(&self) -> NumberText {
        match *self {
            JsonNumber::PosInt(n) => NumberText::PosInt(n),
            JsonNumber::NegInt(n) => NumberText::NegInt(n),
            JsonNumber::Float(t) => NumberText::Float(t@),
        }
    }
}

/// What a value says.
pub open spec fn json_of(v: JsonValue) -> Json
    decreases v,
{
    match v {
        JsonValue::Null => Json::Null,
        JsonValue::Bool(b) => Json::Bool(b),
        JsonValue::Number(n) => Json::Number(n@),
        JsonValue::Text(s) => Json::Text(s@),
        JsonValue::Array(items) => Json::Array(
            Seq::new(
                items@.len(),
                |i: int|
                    if 0 <= i < items@.len() {
                        json_of(items@[i])
                    } else {
                        Json::Null
                    },
            ),
        ),
        JsonValue::Object(members) => Json::Object(
            Seq::new(
                members@.len(),
                |i: int|
                    if 0 <= i < members@.len() {
                        (members@[i].0@, json_of(members@[i].1))
                    } else {
                        (Seq::<char>::empty(), Json::Null)
                    },
            ),
        ),
    }
}

impl View for JsonValue {
    type V = Json;

    open spec fn view(&self) -> Json {
        json_of(*self)
    }
}

// ---------------------------------------------------------------------------------------------
// Members, equality, text
// ---------------------------------------------------------------------------------------------
/// The position of the member with the given key.
pub open spec fn find_member(members: Seq<(Seq<char>, Json)>, key: Seq<char>) -> Option<int>
    decreases members.len(),
{
    if members.len() == 0 {
        None
    } else if members.last().0 == key {
        Some(members.len() - 1)
    } else {
        find_member(members.drop_last(), key)
    }
}

/// The value that an object has for a key. Other values have none.
pub open spec fn json_get(j: Json, key: Seq<char>) -> Option<Json> {
    match j {
        Json::Object(members) => match find_member(members, key) {
            Some(i) => Some(members[i].1),
            None => None,
        },
        _ => None,
    }
}

/// The text of a value that is a text.
pub open spec fn json_text(j: Json) -> Option<Seq<char>> {
    match j {
        Json::Text(s) => Some(s),
        _ => None,
    }
}

/// The number of a value that is an integer from zero on.
pub open spec fn json_unsigned(j: Json) -> Option<u64> {
    match j {
        Json::Number(NumberText::PosInt(n)) => Some(n),
        _ => None,
    }
}

/// The text of the member with the given key, where there is one and it is a text.
pub open spec fn text_member(j: Json, key: Seq<char>) -> Option<Seq<char>> {
    match json_get(j, key) {
        Some(v) => json_text(v),
        None => None,
    }
}

/// Whether no two members have the same key.
pub open spec fn distinct_keys(members: Seq<(Seq<char>, Json)>) -> bool {
    forall|i: int, k: int|
        0 <= i < k < members.len() ==> (#[trigger] members[i]).0 != (#[trigger] members[k]).0
}

/// Whether no object inside `j` has a key twice.
pub open spec fn proper(j: Json) -> bool
    decreases j,
{
    match j {
        Json::Array(items) => forall|i: int|
            0 <= i < items.len() ==> proper(#[trigger] items[i]),
        Json::Object(members) => distinct_keys(members) && forall|i: int|
            #![trigger members[i]]
            0 <= i < members.len() ==> proper(members[i].1),
        _ => true,
    }
}

/// Whether a number is written as zero, with or without a sign.
pub open spec fn float_zero(t: Seq<char>) -> bool {
    t == "0.0"@ || t == "-0.0"@
}

/// Whether two numbers are equal. An integer never equals a number that is none.
pub open spec fn number_same(a: NumberText, b: NumberText) -> bool {
    match (a, b) {
        (NumberText::PosInt(x), NumberText::PosInt(y)) => x == y,
        (NumberText::NegInt(x), NumberText::NegInt(y)) => x == y,
        (NumberText::Float(x), NumberText::Float(y)) => x == y || (float_zero(x) && float_zero(y)),
        _ => false,
    }
}

/// Whether two values are equal. The order of the keys of an object does not matter.
pub open spec fn json_same(a: Json, b: Json) -> bool
    decreases a,
{
    match (a, b) {
        (Json::Null, Json::Null) => true,
        (Json::Bool(x), Json::Bool(y)) => x == y,
        (Json::Number(x), Json::Number(y)) => number_same(x, y),
        (Json::Text(x), Json::Text(y)) => x == y,
        (Json::Array(x), Json::Array(y)) => x.len() == y.len() && forall|i: int|
            #![trigger x[i]]
            0 <= i < x.len() ==> json_same(x[i], y[i]),
        (Json::Object(x), Json::Object(y)) => x.len() == y.len() && forall|i: int|
            #![trigger x[i]]
            0 <= i < x.len() ==> match find_member(y, x[i].0) {
                Some(k) => json_same(x[i].1, y[k].1),
                None => false,
            },
        _ => false,
    }
}

proof fn lemma_find_member(members: Seq<(Seq<char>, Json)>, key: Seq<char>)
    ensures
        match find_member(members, key) {
            Some(i) => 0 <= i < members.len() && members[i].0 == key && forall|k: int|
                i < k < members.len() ==> (#[trigger] members[k]).0 != key,
            None => forall|k: int| 0 <= k < members.len() ==> (#[trigger] members[k]).0 != key,
        },
    decreases members.len(),
{
    if members.len() > 0 && members.last().0 != key {
        lemma_find_member(members.drop_last(), key);
        assert forall|k: int| 0 <= k < members.len() - 1 implies members[k]
            == members.drop_last()[k] by {}
    }
}

/// Every value without a doubled key equals itself.
pub proof fn law_json_same_reflexive(j: Json)
    requires
        proper(j),
    ensures
        json_same(j, j),
    decreases j,
{
    match j {
        Json::Array(items) => {
            assert forall|i: int|
                #![trigger items[i]]
                0 <= i < items.len() implies json_same(items[i], items[i]) by {
                assert(proper(items[i]));
                law_json_same_reflexive(items[i]);
            }
        },
        Json::Object(members) => {
            assert forall|i: int|
                #![trigger members[i]]
                0 <= i < members.len() implies match find_member(members, members[i].0) {
                Some(k) => json_same(members[i].1, members[k].1),
                None => false,
            } by {
                lemma_find_member(members, members[i].0);
                assert(proper(members[i].1));
                law_json_same_reflexive(members[i].1);
            }
        },
        _ => {},
    }
}

impl JsonValue {
    /// The value that an object has for a key. Other values have none.
    pub fn get(&self, key: &str) -> (res: Option<&JsonValue>)
        ensures
            match res {
                Some(v) => json_get(self@, key@) == Some(v@),
                None => json_get(self@, key@) is None,
            },
    {
        let members = match self {
            JsonValue::Object(members) => members,
            _ => {
                return None;
            },
        };
        let ghost seen: Seq<(Seq<char>, Json)> = self@->Object_0;
        let mut i: usize = members.len();
        assert(seen.take(i as int) =~= seen);
        while i > 0
            invariant
                i <= members@.len(),
                *self == JsonValue::Object(*members),
                self@ == Json::Object(seen),
                seen.len() == members@.len(),
                find_member(seen, key@) == find_member(seen.take(i as int), key@),
            decreases i,
        {
            i = i - 1;
            assert(seen.take(i + 1).last() == seen[i as int]);
            assert(seen.take(i + 1).drop_last() =~= seen.take(i as int));
            assert(seen[i as int] == (members@[i as int].0@, json_of(members@[i as int].1)));
            if same_text(members[i].0.as_str(), key) {
                return Some(&members[i].1);
            }
        }
        None
    }

    /// The text of a value that is a text.
    pub fn as_str(&self) -> (res: Option<&str>)
        ensures
            match res {
                Some(s) => json_text(self@) == Some(s@),
                None => json_text(self@) is None,
            },
    {
        match self {
            JsonValue::Text(s) => Some(s.as_str()),
            _ => None,
        }
    }

    /// The number of a value that is an integer from zero on.
    pub fn as_u64(&self) -> (res: Option<u64>)
        ensures
            res == json_unsigned(self@),
    {
        match self {
            JsonValue::Number(n) => match n {
                JsonNumber::PosInt(n) => Some(*n),
                _ => None,
            },
            _ => None,
        }
    }

    /// Whether the value is an object.
    pub fn is_object(&self) -> (res: bool)
        ensures
            res == (self@ is Object),
    {
        match self {
            JsonValue::Object(_) => true,
            _ => false,
        }
    }

    /// The text of the member with the given key, where there is one and it is a text.
    pub fn text_member(&self, key: &str) -> (res: Option<&str>)
        ensures
            match res {
                Some(s) => text_member(self@, key@) == Some(s@),
                None => text_member(self@, key@) is None,
            },
    {
        match self.get(key) {
            Some(v) => v.as_str(),
            None => None,
        }
    }
}

/// Whether two numbers are equal.
fn same_number(a: &JsonNumber, b: &JsonNumber) -> (res: bool)
    ensures
        res == number_same(a@, b@),
{
    match (a, b) {
        (JsonNumber::PosInt(x), JsonNumber::PosInt(y)) => *x == *y,
        (JsonNumber::NegInt(x), JsonNumber::NegInt(y)) => *x == *y,
        (JsonNumber::Float(x), JsonNumber::Float(y)) => {
            let x_zero = same_text(x.as_str(), "0.0") || same_text(x.as_str(), "-0.0");
            let y_zero = same_text(y.as_str(), "0.0") || same_text(y.as_str(), "-0.0");
            same_text(x.as_str(), y.as_str()) || (x_zero && y_zero)
        },
        _ => false,
    }
}

/// Whether two values are equal. The order of the keys of an object does not matter.
pub fn same_json(a: &JsonValue, b: &JsonValue) -> (res: bool)
    ensures
        res == json_same(a@, b@),
    decreases *a,
{
    match (a, b) {
        (JsonValue::Null, JsonValue::Null) => true,
        (JsonValue::Bool(x), JsonValue::Bool(y)) => *x == *y,
        (JsonValue::Number(x), JsonValue::Number(y)) => same_number(x, y),
        (JsonValue::Text(x), JsonValue::Text(y)) => same_text(x.as_str(), y.as_str()),
        (JsonValue::Array(x), JsonValue::Array(y)) => {
            if x.len() != y.len() {
                return false;
            }
            let ghost xs = a@->Array_0;
            let ghost ys = b@->Array_0;
            for i in 0..x.len()
                invariant
                    *a == JsonValue::Array(*x),
                    *b == JsonValue::Array(*y),
                    a@ == Json::Array(xs),
                    b@ == Json::Array(ys),
                    x@.len() == y@.len(),
                    xs.len() == x@.len(),
                    ys.len() == y@.len(),
                    forall|k: int| #![trigger xs[k]] 0 <= k < i ==> json_same(xs[k], ys[k]),
            {
                assert(xs[i as int] == x@[i as int]@);
                assert(ys[i as int] == y@[i as int]@);
                assert(decreases_to!(*a => *x));
                assert(decreases_to!(*x => x@));
                assert(decreases_to!(x@ => x@[i as int]));
                if !same_json(&x[i], &y[i]) {
                    assert(!json_same(xs[i as int], ys[i as int]));
                    return false;
                }
            }
            true
        },
        (JsonValue::Object(x), JsonValue::Object(y)) => {
            if x.len() != y.len() {
                return false;
            }
            let ghost xs = a@->Object_0;
            let ghost ys = b@->Object_0;
            for i in 0..x.len()
                invariant
                    *a == JsonValue::Object(*x),
                    *b == JsonValue::Object(*y),
                    a@ == Json::Object(xs),
                    b@ == Json::Object(ys),
                    x@.len() == y@.len(),
                    xs.len() == x@.len(),
                    ys.len() == y@.len(),
                    forall|k: int|
                        #![trigger xs[k]]
                        0 <= k < i ==> match find_member(ys, xs[k].0) {
                            Some(m) => json_same(xs[k].1, ys[m].1),
                            None => false,
                        },
            {
                assert(xs[i as int] == (x@[i as int].0@, x@[i as int].1@));
                assert(decreases_to!(*a => *x));
                assert(decreases_to!(*x => x@));
                assert(decreases_to!(x@ => x@[i as int]));
                assert(decreases_to!(x@[i as int] => x@[i as int].1));
                match b.get(x[i].0.as_str()) {
                    Some(other) => {
                        if !same_json(&x[i].1, other) {
                            return false;
                        }
                    },
                    None => {
                        return false;
                    },
                }
            }
            true
        },
        _ => false,
    }
}

/// A copy of a value.
pub fn copy_json(v: &JsonValue) -> (res: JsonValue)
    ensures
        res@ == v@,
    decreases *v,
{
    match v {
        JsonValue::Null => JsonValue::Null,
        JsonValue::Bool(b) => JsonValue::Bool(*b),
        JsonValue::Number(n) => JsonValue::Number(
            match n {
                JsonNumber::PosInt(n) => JsonNumber::PosInt(*n),
                JsonNumber::NegInt(n) => JsonNumber::NegInt(*n),
                JsonNumber::Float(t) => JsonNumber::Float(t.as_str().to_owned()),
            },
        ),
        JsonValue::Text(s) => JsonValue::Text(s.as_str().to_owned()),
        JsonValue::Array(items) => {
            let mut out: Vec<JsonValue> = Vec::new();
            for i in 0..items.len()
                invariant
                    *v == JsonValue::Array(*items),
                    out@.len() == i,
                    forall|k: int| 0 <= k < i ==> (#[trigger] out@[k])@ == items@[k]@,
            {
                assert(decreases_to!(*v => v->Array_0));
                assert(decreases_to!(*items => items@));
                assert(decreases_to!(items@ => items@[i as int]));
                out.push(copy_json(&items[i]));
            }
            let res = JsonValue::Array(out);
            assert(res@->Array_0 =~= v@->Array_0);
            res
        },
        JsonValue::Object(members) => {
            let mut out: Vec<(String, JsonValue)> = Vec::new();
            for i in 0..members.len()
                invariant
                    *v == JsonValue::Object(*members),
                    out@.len() == i,
                    forall|k: int|
                        0 <= k < i ==> (#[trigger] out@[k]).0@ == members@[k].0@ && out@[k].1@
                            == members@[k].1@,
            {
                assert(decreases_to!(*v => v->Object_0));
                assert(decreases_to!(*members => members@));
                assert(decreases_to!(members@ => members@[i as int]));
                assert(decreases_to!(members@[i as int] => members@[i as int].1));
                out.push((members[i].0.as_str().to_owned(), copy_json(&members[i].1)));
            }
            let res = JsonValue::Object(out);
            assert(res@->Object_0 =~= v@->Object_0);
            res
        },
    }
}

// ---------------------------------------------------------------------------------------------
// Documents
// ---------------------------------------------------------------------------------------------
/// A value of `serde_json`. Nothing is known of it but what `json_tree` names.
#[verifier::external_type_specification]
#[verifier::external_body]
pub struct ExJsonTree(serde_json::Value);

/// What a `serde_json::Value` says.
pub uninterp spec fn json_tree(value: serde_json::Value) -> Json;

/// What `serde_json` reads from a text, if it is a JSON document.
pub uninterp spec fn parsed_json(text: Seq<char>) -> Option<Json>;

/// The compact text in which `serde_json` writes a text, an array or an object.
pub uninterp spec fn rendered(j: Json) -> Seq<char>;

/// The text of a value that is no text, no array and no object.
pub open spec fn simple_text(j: Json) -> Option<Seq<char>> {
    match j {
        Json::Null => Some("null"@),
        Json::Bool(b) => Some(
            if b {
                "true"@
            } else {
                "false"@
            },
        ),
        Json::Number(NumberText::PosInt(n)) => Some(decimal(n as nat)),
        Json::Number(NumberText::NegInt(n)) => Some(
            if n < 0 {
                "-"@ + decimal((-n) as nat)
            } else {
                decimal(n as nat)
            },
        ),
        Json::Number(NumberText::Float(t)) => Some(t),
        _ => None,
    }
}

/// The compact text of a value.
pub open spec fn compact(j: Json) -> Seq<char> {
    match simple_text(j) {
        Some(t) => t,
        None => rendered(j),
    }
}

/// A `serde_json::Value` taken apart by its variant. Numbers are read by other means.
pub enum ValueParts<'a> {
    Null,
    Bool(bool),
    Number,
    Text(&'a String),
    Array(&'a Vec<serde_json::Value>),
    Object(Vec<(&'a String, &'a serde_json::Value)>),
}

/// Whether `parts` are the parts of a value that says `j`.
pub open spec fn parts_say(parts: ValueParts<'_>, j: Json) -> bool {
    match parts {
        ValueParts::Null => j == Json::Null,
        ValueParts::Bool(b) => j == Json::Bool(b),
        ValueParts::Number => j is Number,
        ValueParts::Text(s) => j == Json::Text(s@),
        ValueParts::Array(items) => j matches Json::Array(js) && js.len() == items@.len() && forall|
            i: int,
        |
            0 <= i < js.len() ==> #[trigger] js[i] == json_tree(items@[i]),
        ValueParts::Object(members) => j matches Json::Object(js) && js.len() == members@.len()
            && distinct_keys(js) && forall|i: int|
            0 <= i < js.len() ==> #[trigger] js[i] == (
                members@[i].0@,
                json_tree(*members@[i].1),
            ),
    }
}

/// Calls `serde_json::from_str` for a `serde_json::Value`. Claimed: whether the text is a JSON
/// document, and what the value says, depend on the text alone.
#[verifier::external_body]
fn parse_value(text: &str) -> (res: Option<serde_json::Value>)
    ensures
        match res {
            Some(value) => parsed_json(text@) == Some(json_tree(value)),
            None => parsed_json(text@) is None,
        },
{
    serde_json::from_str(text).ok()
}

/// Tells the variants of a `serde_json::Value` apart, with `serde_json::Map::iter` for the members
/// of an object. Claimed: the parts are those of the value, in the order in which the array or
/// the map lists them, and a map has no key twice.
#[verifier::external_body]
fn value_parts(value: &serde_json::Value) -> (res: ValueParts<'_>)
    ensures
        parts_say(res, json_tree(*value)),
{
    match value {
        serde_json::Value::Null => ValueParts::Null,
        serde_json::Value::Bool(b) => ValueParts::Bool(*b),
        serde_json::Value::Number(_) => ValueParts::Number,
        serde_json::Value::String(s) => ValueParts::Text(s),
        serde_json::Value::Array(items) => ValueParts::Array(items),
        serde_json::Value::Object(members) => ValueParts::Object(members.iter().collect()),
    }
}

/// Calls `serde_json::Value::as_u64`. Claimed: it gives the integers from zero on, and nothing
/// else.
#[verifier::external_body]
fn value_as_u64(value: &serde_json::Value) -> (res: Option<u64>)
    ensures
        res == json_unsigned(json_tree(*value)),
{
    value.as_u64()
}

/// The integer that a value is, where it fits in a signed number of 64 bits.
pub open spec fn json_signed(j: Json) -> Option<i64> {
    match j {
        Json::Number(NumberText::PosInt(n)) => if n <= i64::MAX {
            Some(n as i64)
        } else {
            None
        },
        Json::Number(NumberText::NegInt(n)) => Some(n),
        _ => None,
    }
}

/// Calls `serde_json::Value::as_i64`. Claimed: it gives the integers that fit, and nothing else.
#[verifier::external_body]
fn value_as_i64(value: &serde_json::Value) -> (res: Option<i64>)
    ensures
        res == json_signed(json_tree(*value)),
{
    value.as_i64()
}

/// Calls `to_string` of a `serde_json::Value`, which is its compact text. Claimed: what that text
/// is for constants and numbers, and that it depends on what the value says alone.
#[verifier::external_body]
fn value_text(value: &serde_json::Value) -> (res: String)
    ensures
        res@ == match simple_text(json_tree(*value)) {
            Some(t) => t,
            None => rendered(json_tree(*value)),
        },
{
    value.to_string()
}

/// A JSON value together with its compact text.
#[derive(Debug)]
pub struct JsonDocument {
    value: JsonValue,
    text: String,
}

impl View for JsonDocument {
    type V = Json;

    closed spec fn view(&self) -> Json {
        self.value@
    }
}

impl JsonDocument {
    /// The text is the compact text of the value, and no object has a key twice.
    #[verifier::type_invariant]
    spec fn consistent(self) -> bool {
        self.text@ == compact(self.value@) && proper(self.value@)
    }

    /// The document that says nothing: `null`.
    pub fn null() -> (res: JsonDocument)
        ensures
            res@ == Json::Null,
    {
        JsonDocument { value: JsonValue::Null, text: "null".to_owned() }
    }

    /// The value.
    pub fn value(&self) -> (res: &JsonValue)
        ensures
            res@ == self@,
    {
        &self.value
    }

    /// The compact text of the value.
    pub fn text(&self) -> (res: &str)
        ensures
            res@ == compact(self@),
            proper(self@),
    {
        proof {
            use_type_invariant(self);
        }
        self.text.as_str()
    }

    /// A copy of the document.
    pub fn copy(&self) -> (res: JsonDocument)
        ensures
            res@ == self@,
    {
        proof {
            use_type_invariant(self);
        }
        JsonDocument { value: copy_json(&self.value), text: self.text.as_str().to_owned() }
    }
}

/// Takes what a value says into a value of the library.
fn read_value(value: &serde_json::Value) -> (res: JsonValue)
    ensures
        res@ == json_tree(*value),
        proper(res@),
    decreases json_tree(*value),
{
    let ghost j = json_tree(*value);
    match value_parts(value) {
        ValueParts::Null => JsonValue::Null,
        ValueParts::Bool(b) => JsonValue::Bool(b),
        ValueParts::Number => JsonValue::Number(
            match value_as_u64(value) {
                Some(n) => JsonNumber::PosInt(n),
                None => match value_as_i64(value) {
                    Some(n) => JsonNumber::NegInt(n),
                    None => JsonNumber::Float(value_text(value)),
                },
            },
        ),
        ValueParts::Text(s) => JsonValue::Text(s.as_str().to_owned()),
        ValueParts::Array(items) => {
            let mut out: Vec<JsonValue> = Vec::new();
            let ghost js = j->Array_0;
            for i in 0..items.len()
                invariant
                    j == json_tree(*value),
                    j == Json::Array(js),
                    js.len() == items@.len(),
                    forall|k: int| 0 <= k < js.len() ==> #[trigger] js[k] == json_tree(items@[k]),
                    out@.len() == i,
                    forall|k: int|
                        0 <= k < i ==> (#[trigger] out@[k])@ == js[k] && proper(out@[k]@),
            {
                assert(js[i as int] == json_tree(items@[i as int]));
                assert(decreases_to!(j => j->Array_0));
                assert(decreases_to!(js => js[i as int]));
                out.push(read_value(&items[i]));
            }
            let res = JsonValue::Array(out);
            assert(res@->Array_0 =~= js);
            assert forall|k: int| 0 <= k < js.len() implies proper(#[trigger] js[k]) by {
                assert(out@[k]@ == js[k]);
            }
            res
        },
        ValueParts::Object(members) => {
            let mut out: Vec<(String, JsonValue)> = Vec::new();
            let ghost js = j->Object_0;
            for i in 0..members.len()
                invariant
                    j == json_tree(*value),
                    j == Json::Object(js),
                    js.len() == members@.len(),
                    forall|k: int|
                        0 <= k < js.len() ==> #[trigger] js[k] == (
                            members@[k].0@,
                            json_tree(*members@[k].1),
                        ),
                    out@.len() == i,
                    forall|k: int|
                        0 <= k < i ==> (#[trigger] out@[k]).0@ == js[k].0 && out@[k].1@ == js[k].1
                            && proper(out@[k].1@),
            {
                assert(js[i as int].1 == json_tree(*members@[i as int].1));
                assert(decreases_to!(j => j->Object_0));
                assert(decreases_to!(js => js[i as int]));
                assert(decreases_to!(js[i as int] => js[i as int].1));
                out.push((members[i].0.as_str().to_owned(), read_value(members[i].1)));
            }
            let res = JsonValue::Object(out);
            assert(res@->Object_0 =~= js);
            assert forall|k: int| #![trigger js[k]] 0 <= k < js.len() implies proper(js[k].1) by {
                assert(out@[k].1@ == js[k].1);
            }
            res
        },
    }
}

/// The document that a `serde_json::Value` is.
pub fn read_json(value: &serde_json::Value) -> (res: JsonDocument)
    ensures
        res@ == json_tree(*value),
{
    let text = value_text(value);
    JsonDocument { value: read_value(value), text }
}

/// The document in a text, if the text is one.
pub fn parse_json(text: &str) -> (res: Option<JsonDocument>)
    ensures
        match res {
            Some(document) => parsed_json(text@) == Some(document@),
            None => parsed_json(text@) is None,
        },
{
    match parse_value(text) {
        Some(value) => Some(read_json(&value)),
        None => None,
    }
}

// ---------------------------------------------------------------------------------------------
// Laws
// ---------------------------------------------------------------------------------------------
/// Whether an object lists a member with this key and this value.
pub open spec fn lists(j: Json, key: Seq<char>, value: Json) -> bool {
    j matches Json::Object(members) && exists|i: int|
        0 <= i < members.len() && #[trigger] members[i] == (key, value)
}

/// Whether a value lists no member with this key.
pub open spec fn lists_no(j: Json, key: Seq<char>) -> bool {
    j matches Json::Object(members) ==> forall|i: int|
        0 <= i < members.len() ==> (#[trigger] members[i]).0 != key
}

/// Whether a value lists no text under this key.
pub open spec fn lists_no_text(j: Json, key: Seq<char>) -> bool {
    j matches Json::Object(members) ==> forall|i: int|
        0 <= i < members.len() && (#[trigger] members[i]).0 == key ==> !(members[i].1 is Text)
}

/// What an object lists under a key is what the key gives, and what it gives is listed: a key that
/// is not listed gives nothing.
pub proof fn law_members_are_found(j: Json, key: Seq<char>, value: Json)
    requires
        proper(j),
    ensures
        lists(j, key, value) <==> json_get(j, key) == Some(value),
        lists_no(j, key) <==> json_get(j, key) is None,
{
    if let Json::Object(members) = j {
        lemma_find_member(members, key);
        if let Some(k) = find_member(members, key) {
            assert(members[k] == (key, members[k].1));
        }
    }
}

/// A text that an object lists under a key is the text of that member, and there is no other.
pub proof fn law_text_members_are_found(j: Json, key: Seq<char>, text: Seq<char>)
    requires
        proper(j),
    ensures
        lists(j, key, Json::Text(text)) <==> text_member(j, key) == Some(text),
        lists_no_text(j, key) <==> text_member(j, key) is None,
{
    law_members_are_found(j, key, Json::Text(text));
    if let Json::Object(members) = j {
        lemma_find_member(members, key);
        if let Some(k) = find_member(members, key) {
            assert(members[k] == (key, members[k].1));
        }
    }
}

/// Values that are equal say the same: every text, every whole number and every truth value that one
/// lists under a key, the other lists too.
pub proof fn law_equal_values_list_the_same(a: Json, b: Json, key: Seq<char>)
    requires
        json_same(a, b),
        a is Object,
    ensures
        b is Object,
        forall|text: Seq<char>|
            #![trigger lists(a, key, Json::Text(text))]
            lists(a, key, Json::Text(text)) ==> lists(b, key, Json::Text(text)),
        forall|n: u64|
            #![trigger lists(a, key, Json::Number(NumberText::PosInt(n)))]
            lists(a, key, Json::Number(NumberText::PosInt(n))) ==> lists(
                b,
                key,
                Json::Number(NumberText::PosInt(n)),
            ),
        forall|t: bool|
            #![trigger lists(a, key, Json::Bool(t))]
            lists(a, key, Json::Bool(t)) ==> lists(b, key, Json::Bool(t)),
{
    let x = a->Object_0;
    let y = b->Object_0;
    lemma_find_member(y, key);
    assert forall|text: Seq<char>|
        #![trigger lists(a, key, Json::Text(text))]
        lists(a, key, Json::Text(text)) implies lists(b, key, Json::Text(text)) by {
        let i = choose|i: int| 0 <= i < x.len() && #[trigger] x[i] == (key, Json::Text(text));
        let k = find_member(y, x[i].0)->Some_0;
        assert(json_same(x[i].1, y[k].1));
        assert(y[k] == (key, Json::Text(text)));
    }
    assert forall|n: u64|
        #![trigger lists(a, key, Json::Number(NumberText::PosInt(n)))]
        lists(a, key, Json::Number(NumberText::PosInt(n))) implies lists(
        b,
        key,
        Json::Number(NumberText::PosInt(n)),
    ) by {
        let v = Json::Number(NumberText::PosInt(n));
        let i = choose|i: int| 0 <= i < x.len() && #[trigger] x[i] == (key, v);
        let k = find_member(y, x[i].0)->Some_0;
        assert(json_same(x[i].1, y[k].1));
        assert(y[k] == (key, v));
    }
    assert forall|t: bool|
        #![trigger lists(a, key, Json::Bool(t))]
        lists(a, key, Json::Bool(t)) implies lists(b, key, Json::Bool(t)) by {
        let i = choose|i: int| 0 <= i < x.len() && #[trigger] x[i] == (key, Json::Bool(t));
        let k = find_member(y, x[i].0)->Some_0;
        assert(json_same(x[i].1, y[k].1));
        assert(y[k] == (key, Json::Bool(t)));
    }
}

/// The order of the keys of an object makes no difference to what it equals.
pub proof fn law_order_of_keys_does_not_matter(
    members: Seq<(Seq<char>, Json)>,
    i: int,
    k: int,
)
    requires
        proper(Json::Object(members)),
        0 <= i < k < members.len(),
    ensures
        json_same(
            Json::Object(members),
            Json::Object(members.update(i, members[k]).update(k, members[i])),
        ),
{
    let swapped = members.update(i, members[k]).update(k, members[i]);
    assert forall|j: int| #![trigger members[j]] 0 <= j < members.len() implies match find_member(
        swapped,
        members[j].0,
    ) {
        Some(m) => json_same(members[j].1, swapped[m].1),
        None => false,
    } by {
        let at = if j == i {
            k
        } else if j == k {
            i
        } else {
            j
        };
        assert(swapped[at] == members[j]);
        lemma_find_member(swapped, members[j].0);
        if let Some(m) = find_member(swapped, members[j].0) {
            let from = if m == i {
                k
            } else if m == k {
                i
            } else {
                m
            };
            assert(swapped[m] == members[from]);
            assert(from == j) by {
                if from < j {
                    assert(members[from].0 != members[j].0);
                } else if j < from {
                    assert(members[j].0 != members[from].0);
                }
            }
            law_json_same_reflexive(members[j].1);
        }
    }
}

} // verus!
