//! The JSON values that the engine reads, and their mathematical model.
use vstd::prelude::*;

verus! {

/// The model of a JSON value: strings are sequences of characters, a number
/// is its canonical text, an object is the sequence of its fields.
pub enum Json {
    Null,
    Bool(bool),
    Number(Seq<char>),
    Text(Seq<char>),
    Array(Seq<Json>),
    Object(Seq<Field>),
}

/// The model of one field of an object.
pub struct Field {
    pub name: Seq<char>,
    pub value: Json,
}

/// A parsed JSON value. A number holds its canonical text.
#[derive(Debug, PartialEq)]
pub enum JsonValue {
    Null,
    Bool(bool),
    Number(String),
    String(String),
    Array(Vec<JsonValue>),
    Object(Vec<(String, JsonValue)>),
}

impl View for JsonValue {
    type V = Json;

    open spec fn view(&self) -> Json
        decreases self,
    {
        match self {
            JsonValue::Null => Json::Null,
            JsonValue::Bool(b) => Json::Bool(*b),
            JsonValue::Number(n) => Json::Number(n@),
            JsonValue::String(s) => Json::Text(s@),
            JsonValue::Array(items) => Json::Array(
                Seq::new(
                    items@.len(),
                    |i: int|
                        if 0 <= i < items@.len() {
                            items@[i]@
                        } else {
                            Json::Null
                        },
                ),
            ),
            JsonValue::Object(fields) => Json::Object(
                Seq::new(
                    fields@.len(),
                    |i: int|
                        if 0 <= i < fields@.len() {
                            Field { name: fields@[i].0@, value: fields@[i].1@ }
                        } else {
                            Field { name: Seq::empty(), value: Json::Null }
                        },
                ),
            ),
        }
    }
}

/// The models of a vector of values, in order.
pub open spec fn values_view(items: Seq<JsonValue>) -> Seq<Json> {
    Seq::new(items.len(), |i: int| items[i]@)
}

/// The models of an object's fields, in order.
pub open spec fn fields_view(fields: Seq<(String, JsonValue)>) -> Seq<Field> {
    Seq::new(fields.len(), |i: int| Field { name: fields[i].0@, value: fields[i].1@ })
}

/// The model of an array holds the models of its elements.
pub proof fn lemma_view_array(items: Vec<JsonValue>)
    ensures
        JsonValue::Array(items)@ == Json::Array(values_view(items@)),
{
    assert(JsonValue::Array(items)@->Array_0 =~= values_view(items@));
}

/// The model of an object holds the names and the models of its fields.
pub proof fn lemma_view_object(fields: Vec<(String, JsonValue)>)
    ensures
        JsonValue::Object(fields)@ == Json::Object(fields_view(fields@)),
{
    assert(JsonValue::Object(fields)@->Object_0 =~= fields_view(fields@));
}

impl Json {
    /// Whether a field holding this value is kept by path discovery: not
    /// null, not an empty array, not an empty object.
    pub open spec fn non_empty(self) -> bool {
        match self {
            Json::Null => false,
            Json::Array(items) => items.len() > 0,
            Json::Object(fields) => fields.len() > 0,
            _ => true,
        }
    }

    /// The text of a cell: the canonical text of a boolean or a number, a
    /// string as it is, and nothing for null, arrays and objects.
    pub open spec fn shown(self) -> Seq<char> {
        match self {
            Json::Bool(b) => if b { "true"@ } else { "false"@ },
            Json::Number(n) => n,
            Json::Text(s) => s,
            _ => Seq::empty(),
        }
    }

    /// The value of the first field named `key` among `fields`.
    pub open spec fn lookup(fields: Seq<Field>, key: Seq<char>) -> Option<Json>
        decreases fields.len(),
    {
        if fields.len() == 0 {
            None
        } else if fields[0].name == key {
            Some(fields[0].value)
        } else {
            Self::lookup(fields.skip(1), key)
        }
    }

    /// The value of the field `key` of an object; nothing for a missing field
    /// and for a value that is no object.
    pub open spec fn field(self, key: Seq<char>) -> Option<Json> {
        match self {
            Json::Object(fields) => Self::lookup(fields, key),
            _ => None,
        }
    }

    /// The elements of an array; nothing for any other value.
    pub open spec fn elements(self) -> Option<Seq<Json>> {
        match self {
            Json::Array(items) => Some(items),
            _ => None,
        }
    }
}

impl JsonValue {
    /// The value of the field `key`, where this is an object that has it.
    #[verifier::loop_isolation(false)]
    pub fn get(&self, key: &String) -> (r: Option<&JsonValue>)
        ensures
            r is Some == self@.field(key@) is Some,
            r matches Some(v) ==> self@.field(key@) == Some(v@),
    {
        match self {
            JsonValue::Object(fields) => {
                proof {
                    lemma_view_object(*fields);
                }
                let ghost all = fields_view(fields@);
                let mut i: usize = 0;
                assert(all.skip(0) =~= all);
                while i < fields.len()
                    invariant
                        i <= fields.len(),
                        all == fields_view(fields@),
                        Json::lookup(all, key@) == Json::lookup(all.skip(i as int), key@),
                    decreases fields.len() - i,
                {
                    assert(all.skip(i as int)[0] == all[i as int]);
                    assert(all.skip(i as int).skip(1) =~= all.skip(i + 1));
                    if fields[i].0 == *key {
                        assert(all[i as int].name == key@);
                        assert(all[i as int].value == fields@[i as int].1@);
                        return Some(&fields[i].1);
                    }
                    i += 1;
                }
                None
            },
            _ => None,
        }
    }

    /// The elements, where this is an array.
    pub fn as_array(&self) -> (r: Option<&Vec<JsonValue>>)
        ensures
            r is Some == self@.elements() is Some,
            r matches Some(items) ==> self@.elements() == Some(values_view(items@)),
    {
        match self {
            JsonValue::Array(items) => {
                proof {
                    lemma_view_array(*items);
                }
                Some(items)
            },
            _ => None,
        }
    }

    /// A copy of the value.
    #[verifier::loop_isolation(false)]
    pub fn duplicate(&self) -> (r: JsonValue)
        ensures
            r@ == self@,
        decreases self,
    {
        match self {
            JsonValue::Null => JsonValue::Null,
            JsonValue::Bool(b) => JsonValue::Bool(*b),
            JsonValue::Number(n) => JsonValue::Number(n.clone()),
            JsonValue::String(s) => JsonValue::String(s.clone()),
            JsonValue::Array(items) => {
                let mut out: Vec<JsonValue> = Vec::new();
                let mut i: usize = 0;
                while i < items.len()
                    invariant
                        i <= items.len(),
                        out@.len() == i,
                        forall|j: int| 0 <= j < i ==> out@[j]@ == items@[j]@,
                    decreases items.len() - i,
                {
                    assert(decreases_to!(self => items@[i as int]));
                    out.push(items[i].duplicate());
                    i += 1;
                }
                proof {
                    lemma_view_array(*items);
                    lemma_view_array(out);
                    assert(values_view(out@) =~= values_view(items@));
                }
                JsonValue::Array(out)
            },
            JsonValue::Object(fields) => {
                let mut out: Vec<(String, JsonValue)> = Vec::new();
                let mut i: usize = 0;
                while i < fields.len()
                    invariant
                        i <= fields.len(),
                        out@.len() == i,
                        forall|j: int|
                            0 <= j < i ==> out@[j].0@ == fields@[j].0@ && out@[j].1@
                                == fields@[j].1@,
                    decreases fields.len() - i,
                {
                    assert(decreases_to!(self => fields@[i as int].1));
                    out.push((fields[i].0.clone(), fields[i].1.duplicate()));
                    i += 1;
                }
                proof {
                    lemma_view_object(*fields);
                    lemma_view_object(out);
                    assert(fields_view(out@) =~= fields_view(fields@));
                }
                JsonValue::Object(out)
            },
        }
    }
}

/// Whether a value counts as content: not null, not an empty array, not an
/// empty object.
pub fn non_empty_json(value: &JsonValue) -> (r: bool)
    ensures
        r == value@.non_empty(),
{
    match value {
        JsonValue::Null => false,
        JsonValue::Array(items) => {
            proof {
                lemma_view_array(*items);
            }
            items.len() > 0
        },
        JsonValue::Object(fields) => {
            proof {
                lemma_view_object(*fields);
            }
            fields.len() > 0
        },
        _ => true,
    }
}

/// The text of a cell for a value.
pub fn show_value(value: JsonValue) -> (r: String)
    ensures
        r@ == value@.shown(),
{
    match value {
        JsonValue::Bool(b) => if b {
            "true".to_string()
        } else {
            "false".to_string()
        },
        JsonValue::Number(n) => n,
        JsonValue::String(s) => s,
        _ => String::new(),
    }
}

} // verus!
