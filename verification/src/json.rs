//! JSON documents as plain values, read and written with `serde_json`.
use std::collections::BTreeMap;

use vstd::prelude::*;
use vstd::utf8::encode_utf8;

verus! {

/// A JSON document.
#[derive(Debug)]
pub enum Json {
    Null,
    Bool(bool),
    /// A non-negative integer that fits in a `u64`.
    Number(u64),
    /// Any other number: negative, fractional or too large.
    OtherNumber,
    Text(String),
    Array(Vec<Json>),
    /// The members in the order of the document, each key once.
    Object(Vec<(String, Json)>),
}

pub ghost enum JsonView {
    Null,
    Bool(bool),
    Number(u64),
    OtherNumber,
    Text(Seq<char>),
    Array(Seq<JsonView>),
    Object(Seq<(Seq<char>, JsonView)>),
}

impl JsonView {
    /// No number was dropped and no object repeats a key.
    pub open spec fn writable(self) -> bool
        decreases self,
    {
        match self {
            JsonView::OtherNumber => false,
            JsonView::Array(items) => forall|i: int|
                0 <= i < items.len() ==> (#[trigger] items[i]).writable(),
            JsonView::Object(members) => {
                &&& forall|i: int| 0 <= i < members.len() ==> (#[trigger] members[i]).1.writable()
                &&& forall|i: int, j: int|
                    0 <= i < j < members.len() ==> (#[trigger] members[i]).0 != (
                    #[trigger] members[j]).0
            },
            _ => true,
        }
    }

    /// Arrays and objects are nested at most `levels` deep.
    pub open spec fn nested_within(self, levels: nat) -> bool
        decreases levels,
    {
        match self {
            JsonView::Array(items) => levels > 0 && forall|i: int|
                0 <= i < items.len() ==> (#[trigger] items[i]).nested_within((levels - 1) as nat),
            JsonView::Object(members) => levels > 0 && forall|i: int|
                0 <= i < members.len() ==> (#[trigger] members[i]).1.nested_within(
                    (levels - 1) as nat,
                ),
            _ => true,
        }
    }

    /// No object begins with a key that `serde_json` may keep for itself. Those all begin with a
    /// dollar sign; which of them are in use depends on how `serde_json` was built.
    pub open spec fn ordinary(self) -> bool
        decreases self,
    {
        match self {
            JsonView::Array(items) => forall|i: int|
                0 <= i < items.len() ==> (#[trigger] items[i]).ordinary(),
            JsonView::Object(members) => {
                &&& members.len() > 0 && members[0].0.len() > 0 ==> members[0].0[0] != '$'
                &&& forall|i: int| 0 <= i < members.len() ==> (#[trigger] members[i]).1.ordinary()
            },
            _ => true,
        }
    }

    /// The value of the first member with the given key.
    pub open spec fn member(self, key: Seq<char>) -> Option<JsonView> {
        match self {
            JsonView::Object(members) => find_member(members, key),
            _ => None,
        }
    }
}

/// A document that fits within few levels fits within more.
pub proof fn lemma_nested_within_more(document: JsonView, few: nat, many: nat)
    requires
        document.nested_within(few),
        few <= many,
    ensures
        document.nested_within(many),
    decreases few,
{
    match document {
        JsonView::Array(items) => {
            assert forall|i: int| 0 <= i < items.len() implies (#[trigger] items[i]).nested_within(
                (many - 1) as nat,
            ) by {
                lemma_nested_within_more(items[i], (few - 1) as nat, (many - 1) as nat);
            }
        },
        JsonView::Object(members) => {
            assert forall|i: int|
                0 <= i < members.len() implies (#[trigger] members[i]).1.nested_within(
                (many - 1) as nat,
            ) by {
                lemma_nested_within_more(members[i].1, (few - 1) as nat, (many - 1) as nat);
            }
        },
        _ => {},
    }
}

pub open spec fn find_member(members: Seq<(Seq<char>, JsonView)>, key: Seq<char>) -> Option<JsonView>
    decreases members.len(),
{
    if members.len() == 0 {
        None
    } else if members[0].0 == key {
        Some(members[0].1)
    } else {
        find_member(members.skip(1), key)
    }
}

impl Json {
    pub open spec fn tree(self) -> JsonView
        decreases self,
    {
        match self {
            Json::Null => JsonView::Null,
            Json::Bool(b) => JsonView::Bool(b),
            Json::Number(n) => JsonView::Number(n),
            Json::OtherNumber => JsonView::OtherNumber,
            Json::Text(s) => JsonView::Text(s@),
            Json::Array(items) => JsonView::Array(
                Seq::new(
                    items@.len(),
                    |i: int|
                        if 0 <= i < items@.len() {
                            items@[i].tree()
                        } else {
                            JsonView::Null
                        },
                ),
            ),
            Json::Object(members) => JsonView::Object(
                Seq::new(
                    members@.len(),
                    |i: int|
                        if 0 <= i < members@.len() {
                            (members@[i].0@, members@[i].1.tree())
                        } else {
                            (Seq::<char>::empty(), JsonView::Null)
                        },
                ),
            ),
        }
    }
}

impl View for Json {
    type V = JsonView;

    open spec fn view(&self) -> JsonView {
        self.tree()
    }
}

/// The opaque error type of `serde_json`.
#[verifier::external_type_specification]
#[verifier::external_body]
pub struct ExSerdeJsonError(serde_json::Error);

/// The document type of `serde_json`, which only the conversions below look into.
#[verifier::external_type_specification]
#[verifier::external_body]
pub struct ExSerdeJsonValue(serde_json::Value);

/// Why a document could not be turned into a value of this library.
#[derive(Debug)]
pub enum JsonError {
    /// `serde_json` does not take the bytes for a JSON document.
    Syntax(serde_json::Error),
    /// The document does not have the expected members.
    Shape,
}

/// The document that `serde_json` reads from `text`, or `None` where it rejects the text.
pub uninterp spec fn json_parsed(text: Seq<u8>) -> Option<JsonView>;

/// The text that `serde_json` writes for a document.
pub uninterp spec fn json_text(document: JsonView) -> Seq<u8>;

/// Converts a `serde_json::Value`, variant by variant.
#[verifier::external_body]
fn from_value(value: serde_json::Value) -> Json {
    match value {
        serde_json::Value::Null => Json::Null,
        serde_json::Value::Bool(b) => Json::Bool(b),
        serde_json::Value::Number(n) => n.as_u64().map_or(Json::OtherNumber, Json::Number),
        serde_json::Value::String(s) => Json::Text(s),
        serde_json::Value::Array(items) => Json::Array(items.into_iter().map(from_value).collect()),
        serde_json::Value::Object(members) => {
            Json::Object(members.into_iter().map(|(k, v)| (k, from_value(v))).collect())
        },
    }
}

/// Converts to a `serde_json::Value`, variant by variant.
#[verifier::external_body]
fn to_value(json: &Json) -> serde_json::Value {
    match json {
        Json::Null | Json::OtherNumber => serde_json::Value::Null,
        Json::Bool(b) => serde_json::Value::Bool(*b),
        Json::Number(n) => serde_json::Value::from(*n),
        Json::Text(s) => serde_json::Value::String(s.clone()),
        Json::Array(items) => serde_json::Value::Array(items.iter().map(to_value).collect()),
        Json::Object(members) => serde_json::Value::Object(
            members.iter().map(|(k, v)| (k.clone(), to_value(v))).collect(),
        ),
    }
}

/// Calls `serde_json::from_slice`. The result is a function of the text alone: the document it
/// holds, or an error exactly where the text is rejected.
#[verifier::external_body]
pub(crate) fn parse(text: &[u8]) -> (document: Result<Json, serde_json::Error>)
    ensures
        document is Ok <==> json_parsed(text@) is Some,
        document matches Ok(json) ==> json_parsed(text@) == Some(json@),
{
    serde_json::from_slice::<serde_json::Value>(text).map(from_value)
}

/// Calls `serde_json::to_vec`. The text is a function of the document alone. Reading it back gives
/// the document again, unless an object begins with a key that `serde_json` treats as its own.
/// Arrays and objects are nested fewer than 128 deep, the depth at which `serde_json` stops reading.
#[verifier::external_body]
pub(crate) fn render(document: &Json) -> (text: Vec<u8>)
    requires
        document@.writable(),
        document@.nested_within(127),
    ensures
        text@ == json_text(document@),
        document@.ordinary() ==> json_parsed(text@) == Some(document@),
{
    serde_json::to_vec(&to_value(document)).expect("a JSON document is always writable")
}

// ── Maps of texts ──────────────────────────────────────────────────────────

/// The texts by key of a list of pairs; of two pairs with the same key the later counts.
pub open spec fn pair_map(pairs: Seq<(Seq<char>, Seq<char>)>) -> Map<Seq<char>, Seq<char>>
    decreases pairs.len(),
{
    if pairs.len() == 0 {
        Map::empty()
    } else {
        pair_map(pairs.drop_last()).insert(pairs.last().0, pairs.last().1)
    }
}

pub open spec fn pair_views(pairs: Seq<(String, String)>) -> Seq<(Seq<char>, Seq<char>)> {
    pairs.map_values(|p: (String, String)| (p.0@, p.1@))
}

/// The texts by key that `serde_json` reads from `text`, or `None` where it rejects the text.
pub uninterp spec fn json_map_parsed(text: Seq<u8>) -> Option<Map<Seq<char>, Seq<char>>>;

/// The text that `serde_json` writes for texts by key.
pub uninterp spec fn json_map_text(map: Map<Seq<char>, Seq<char>>) -> Seq<u8>;

/// Calls `serde_json::from_slice` for a map of strings. The result is a function of the text alone:
/// the map it holds, listed as pairs, or an error exactly where the text is rejected.
#[verifier::external_body]
pub(crate) fn parse_map(text: &[u8]) -> (pairs: Result<Vec<(String, String)>, serde_json::Error>)
    ensures
        pairs is Ok <==> json_map_parsed(text@) is Some,
        pairs matches Ok(p) ==> json_map_parsed(text@) == Some(pair_map(pair_views(p@))),
{
    serde_json::from_slice::<BTreeMap<String, String>>(text).map(|map| map.into_iter().collect())
}

/// Calls `serde_json::to_vec` for a map of strings. The text is a function of the map alone, and
/// reading it back as a map of strings gives the map again: there any key is a key.
#[verifier::external_body]
pub(crate) fn render_map(pairs: &[(String, String)]) -> (text: Vec<u8>)
    ensures
        text@ == json_map_text(pair_map(pair_views(pairs@))),
        json_map_parsed(text@) == Some(pair_map(pair_views(pairs@))),
{
    let map: BTreeMap<&String, &String> = pairs.iter().map(|(k, v)| (k, v)).collect();
    serde_json::to_vec(&map).expect("a map of strings is always writable")
}

impl Json {
    /// The value of the first member with the given key.
    pub fn member(&self, key: &str) -> (value: Option<&Json>)
        ensures
            value is Some <==> self@.member(key@) is Some,
            value matches Some(json) ==> self@.member(key@) == Some(json@),
    {
        match self {
            Json::Object(members) => {
                let wanted: String = key.to_owned();
                let ghost views = self@->Object_0;
                let mut i: usize = 0;
                assert(views.skip(0) =~= views);
                while i < members.len()
                    invariant
                        i <= members@.len(),
                        wanted@ == key@,
                        self@ == JsonView::Object(views),
                        views.len() == members@.len(),
                        forall|j: int|
                            0 <= j < members@.len() ==> (#[trigger] views[j]) == (
                                members@[j].0@,
                                members@[j].1@,
                            ),
                        find_member(views, key@) == find_member(views.skip(i as int), key@),
                    decreases members@.len() - i,
                {
                    assert(views.skip(i as int)[0] == views[i as int]);
                    assert(views.skip(i as int).skip(1) =~= views.skip(i + 1));
                    if members[i].0 == wanted {
                        return Some(&members[i].1);
                    }
                    i += 1;
                }
                None
            },
            _ => None,
        }
    }
}

/// The field of a record: the member with the given key or, in a record written as an array, the
/// item at the given position.
pub open spec fn record_field(document: JsonView, key: Seq<char>, position: int) -> Option<JsonView> {
    match document {
        JsonView::Object(_) => document.member(key),
        JsonView::Array(items) => if position < items.len() {
            Some(items[position])
        } else {
            None
        },
        _ => None,
    }
}

/// Whether a document can stand for a record of `fields` fields, of which the first `required`
/// must be present when it is written as an array.
pub open spec fn is_record(document: JsonView, required: int, fields: int) -> bool {
    match document {
        JsonView::Object(_) => true,
        JsonView::Array(items) => required <= items.len() <= fields,
        _ => false,
    }
}

/// The name of a variant without data: a string, or an object with that one key and no value.
pub open spec fn unit_variant(document: JsonView) -> Option<Seq<char>> {
    match document {
        JsonView::Text(name) => Some(name),
        JsonView::Object(members) => if members.len() == 1 && members[0].1 == JsonView::Null {
            Some(members[0].0)
        } else {
            None
        },
        _ => None,
    }
}

/// The name and the data of a variant: an object with exactly one member.
pub open spec fn data_variant(document: JsonView) -> Option<(Seq<char>, JsonView)> {
    match document {
        JsonView::Object(members) => if members.len() == 1 {
            Some(members[0])
        } else {
            None
        },
        _ => None,
    }
}

/// A member that may be absent or null.
pub open spec fn optional_text(field: Option<JsonView>) -> Option<Option<Seq<char>>> {
    match field {
        None | Some(JsonView::Null) => Some(None),
        Some(JsonView::Text(text)) => Some(Some(text)),
        Some(_) => None,
    }
}

pub open spec fn optional_number(field: Option<JsonView>) -> Option<Option<u64>> {
    match field {
        None | Some(JsonView::Null) => Some(None),
        Some(JsonView::Number(n)) => Some(Some(n)),
        Some(_) => None,
    }
}

pub open spec fn text_field(field: Option<JsonView>) -> Option<Seq<char>> {
    match field {
        Some(JsonView::Text(text)) => Some(text),
        _ => None,
    }
}

pub open spec fn number_field(field: Option<JsonView>) -> Option<u64> {
    match field {
        Some(JsonView::Number(n)) => Some(n),
        _ => None,
    }
}

/// A number that counts as 0 when it is absent.
pub open spec fn number_or_zero(field: Option<JsonView>) -> Option<u64> {
    match field {
        None => Some(0),
        _ => number_field(field),
    }
}

/// The view of an optional reference to a document.
pub open spec fn field_view(field: Option<&Json>) -> Option<JsonView> {
    match field {
        Some(json) => Some(json@),
        None => None,
    }
}

impl Json {
    pub fn record_field(&self, key: &str, position: usize) -> (field: Option<&Json>)
        ensures
            field_view(field) == record_field(self@, key@, position as int),
    {
        match self {
            Json::Object(_) => self.member(key),
            Json::Array(items) => {
                if position < items.len() {
                    assert(self@->Array_0[position as int] == items@[position as int]@);
                    Some(&items[position])
                } else {
                    None
                }
            },
            _ => None,
        }
    }

    pub fn is_record(&self, required: usize, fields: usize) -> (res: bool)
        ensures
            res == is_record(self@, required as int, fields as int),
    {
        match self {
            Json::Object(_) => true,
            Json::Array(items) => required <= items.len() && items.len() <= fields,
            _ => false,
        }
    }

    pub fn unit_variant(&self) -> (name: Option<&String>)
        ensures
            name is Some <==> unit_variant(self@) is Some,
            name matches Some(n) ==> unit_variant(self@) == Some(n@),
    {
        match self {
            Json::Text(name) => Some(name),
            Json::Object(members) => {
                if members.len() == 1 {
                    assert(self@->Object_0[0] == (members@[0].0@, members@[0].1@));
                    match &members[0].1 {
                        Json::Null => Some(&members[0].0),
                        _ => None,
                    }
                } else {
                    None
                }
            },
            _ => None,
        }
    }

    pub fn data_variant(&self) -> (variant: Option<(&String, &Json)>)
        ensures
            variant is Some <==> data_variant(self@) is Some,
            variant matches Some(v) ==> data_variant(self@) == Some((v.0@, v.1@)),
    {
        match self {
            Json::Object(members) => {
                if members.len() == 1 {
                    assert(self@->Object_0[0] == (members@[0].0@, members@[0].1@));
                    Some((&members[0].0, &members[0].1))
                } else {
                    None
                }
            },
            _ => None,
        }
    }
}

pub fn read_optional_text(field: Option<&Json>) -> (text: Option<Option<String>>)
    ensures
        text is Some <==> optional_text(field_view(field)) is Some,
        text matches Some(t) ==> optional_text(field_view(field)) == Some(
            crate::message::text_view(t),
        ),
{
    match field {
        None => Some(None),
        Some(json) => match json {
            Json::Null => Some(None),
            Json::Text(text) => Some(Some(text.clone())),
            _ => None,
        },
    }
}

pub fn read_optional_number(field: Option<&Json>) -> (number: Option<Option<u64>>)
    ensures
        number == optional_number(field_view(field)),
{
    match field {
        None => Some(None),
        Some(json) => match json {
            Json::Null => Some(None),
            Json::Number(n) => Some(Some(*n)),
            _ => None,
        },
    }
}

pub fn read_text(field: Option<&Json>) -> (text: Option<String>)
    ensures
        crate::message::text_view(text) == text_field(field_view(field)),
{
    match field {
        Some(Json::Text(text)) => Some(text.clone()),
        _ => None,
    }
}

pub fn read_number(field: Option<&Json>) -> (number: Option<u64>)
    ensures
        number == number_field(field_view(field)),
{
    match field {
        Some(Json::Number(n)) => Some(*n),
        _ => None,
    }
}

pub fn read_number_or_zero(field: Option<&Json>) -> (number: Option<u64>)
    ensures
        number == number_or_zero(field_view(field)),
{
    match field {
        None => Some(0),
        Some(_) => read_number(field),
    }
}

/// The bytes that an array of small numbers spells.
pub open spec fn byte_array(document: JsonView) -> Option<Seq<u8>> {
    match document {
        JsonView::Array(items) => if forall|i: int|
            0 <= i < items.len() ==> ((#[trigger] items[i]) matches JsonView::Number(n) && n
                <= 255) {
            Some(items.map_values(|item: JsonView| item->Number_0 as u8))
        } else {
            None
        },
        _ => None,
    }
}

/// The array of numbers that spells some bytes.
pub open spec fn bytes_json(bytes: Seq<u8>) -> JsonView {
    JsonView::Array(bytes.map_values(|b: u8| JsonView::Number(b as u64)))
}

/// Reads an array of small numbers as bytes.
pub fn json_bytes(document: &Json) -> (bytes: Option<Vec<u8>>)
    ensures
        bytes is Some <==> byte_array(document@) is Some,
        bytes matches Some(b) ==> byte_array(document@) == Some(b@),
{
    match document {
        Json::Array(items) => {
            let ghost views = document@->Array_0;
            let mut bytes: Vec<u8> = Vec::new();
            let mut i: usize = 0;
            while i < items.len()
                invariant
                    i <= items@.len(),
                    document@ == JsonView::Array(views),
                    views.len() == items@.len(),
                    forall|j: int|
                        0 <= j < items@.len() ==> (#[trigger] views[j]) == items@[j]@,
                    bytes@.len() == i,
                    forall|j: int|
                        0 <= j < i ==> (#[trigger] views[j]) == JsonView::Number(bytes@[j] as u64),
                decreases items@.len() - i,
            {
                assert(views[i as int] == items@[i as int]@);
                match &items[i] {
                    Json::Number(n) => {
                        if *n > 255 {
                            return None;
                        }
                        bytes.push(*n as u8);
                    },
                    _ => return None,
                }
                i += 1;
            }
            assert(byte_array(document@)->Some_0 =~= bytes@);
            Some(bytes)
        },
        _ => None,
    }
}

/// The bytes that a document spells: an array of small numbers, or a text in UTF-8.
pub open spec fn byte_string(document: JsonView) -> Option<Seq<u8>> {
    match document {
        JsonView::Text(text) => Some(encode_utf8(text)),
        _ => byte_array(document),
    }
}

/// Reads an array of small numbers, or a text, as bytes.
pub fn json_byte_string(document: &Json) -> (bytes: Option<Vec<u8>>)
    ensures
        bytes is Some <==> byte_string(document@) is Some,
        bytes matches Some(b) ==> byte_string(document@) == Some(b@),
{
    match document {
        Json::Text(text) => Some(vstd::slice::slice_to_vec(text.as_str().as_bytes())),
        _ => json_bytes(document),
    }
}

/// Writes bytes as an array of numbers.
pub fn bytes_to_json(bytes: &[u8]) -> (document: Json)
    ensures
        document@ == bytes_json(bytes@),
{
    let mut items: Vec<Json> = Vec::new();
    let mut i: usize = 0;
    while i < bytes.len()
        invariant
            i <= bytes@.len(),
            items@.len() == i,
            forall|j: int| 0 <= j < i ==> (#[trigger] items@[j]) == Json::Number(bytes@[j] as u64),
        decreases bytes@.len() - i,
    {
        items.push(Json::Number(bytes[i] as u64));
        i += 1;
    }
    let document = Json::Array(items);
    reveal_with_fuel(Json::tree, 2);
    assert(document@->Array_0 =~= bytes_json(bytes@)->Array_0);
    document
}

/// Bytes written as numbers are read back as the same bytes.
pub proof fn lemma_bytes_json(bytes: Seq<u8>)
    ensures
        byte_array(bytes_json(bytes)) == Some(bytes),
        bytes_json(bytes).writable(),
        bytes_json(bytes).ordinary(),
        bytes_json(bytes).nested_within(1),
{
    reveal_with_fuel(JsonView::writable, 2);
    reveal_with_fuel(JsonView::ordinary, 2);
    let items = bytes_json(bytes)->Array_0;
    assert(items.map_values(|item: JsonView| item->Number_0 as u8) =~= bytes);
    assert forall|i: int| 0 <= i < items.len() implies (#[trigger] items[i]).nested_within(0) by {}
}

// ── Laws ───────────────────────────────────────────────────────────────────

/// A record may be written as an object, where its fields are found by name, or as an array, where
/// they are found by position; then it must have at least the required fields, and no more than it
/// has fields.
pub proof fn law_records_are_objects_or_arrays(
    members: Seq<(Seq<char>, JsonView)>,
    items: Seq<JsonView>,
    key: Seq<char>,
    position: int,
    required: int,
    fields: int,
)
    requires
        0 <= position,
    ensures
        record_field(JsonView::Object(members), key, position) == find_member(members, key),
        position < items.len() ==> record_field(JsonView::Array(items), key, position) == Some(
            items[position],
        ),
        position >= items.len() ==> record_field(JsonView::Array(items), key, position) is None,
        is_record(JsonView::Object(members), required, fields),
        is_record(JsonView::Array(items), required, fields) <==> required <= items.len() && items.len()
            <= fields,
{
}

/// A variant without data is named by a text, or by an object whose one member has no value; one
/// with data by an object with that one member.
pub proof fn law_variants_are_named(name: Seq<char>, value: JsonView, document: JsonView)
    ensures
        unit_variant(JsonView::Text(name)) == Some(name),
        unit_variant(JsonView::Object(seq![(name, JsonView::Null)])) == Some(name),
        value != JsonView::Null ==> unit_variant(JsonView::Object(seq![(name, value)])) is None,
        data_variant(JsonView::Object(seq![(name, value)])) == Some((name, value)),
        data_variant(document) is Some ==> document is Object && document->Object_0.len() == 1,
{
}

/// Fields that may be missing or null are then none; any other value must be of the right kind.
pub proof fn law_optional_fields(text: Seq<char>, number: u64, other: JsonView)
    ensures
        optional_text(None) == Some(None::<Seq<char>>),
        optional_text(Some(JsonView::Null)) == Some(None::<Seq<char>>),
        optional_text(Some(JsonView::Text(text))) == Some(Some(text)),
        optional_number(None) == Some(None::<u64>),
        optional_number(Some(JsonView::Null)) == Some(None::<u64>),
        optional_number(Some(JsonView::Number(number))) == Some(Some(number)),
        !(other is Null) && !(other is Text) ==> optional_text(Some(other)) is None,
        !(other is Null) && !(other is Number) ==> optional_number(Some(other)) is None,
        text_field(Some(JsonView::Text(text))) == Some(text),
        !(other is Text) ==> text_field(Some(other)) is None,
        text_field(None) is None,
        number_field(Some(JsonView::Number(number))) == Some(number),
        !(other is Number) ==> number_field(Some(other)) is None,
        number_field(None) is None,
        number_or_zero(None) == Some(0u64),
        number_or_zero(Some(JsonView::Number(number))) == Some(number),
{
}

/// Bytes are spelled as an array of numbers, one for each byte, and read back from any array of
/// numbers that are small enough.
pub proof fn law_bytes_are_arrays_of_numbers(bytes: Seq<u8>, items: Seq<JsonView>, at: int)
    ensures
        byte_array(JsonView::Array(bytes.map_values(|b: u8| JsonView::Number(b as u64)))) == Some(
            bytes,
        ),
        0 <= at < items.len() && !(items[at] matches JsonView::Number(n) && n <= 255) ==> byte_array(
            JsonView::Array(items),
        ) is None,
        byte_array(JsonView::Array(items)) matches Some(read) ==> read.len() == items.len() && (
        0 <= at < items.len() ==> items[at] == JsonView::Number(read[at] as u64)),
{
    lemma_bytes_json(bytes);
    if byte_array(JsonView::Array(items)) is Some && 0 <= at < items.len() {
        assert(items[at] matches JsonView::Number(n) && n <= 255);
    }
}

/// The member that is found under a key is the first one with that key.
pub proof fn law_first_member_is_found(
    members: Seq<(Seq<char>, JsonView)>,
    key: Seq<char>,
    at: int,
)
    requires
        0 <= at < members.len(),
        members[at].0 == key,
        forall|i: int| 0 <= i < at ==> (#[trigger] members[i]).0 != key,
    ensures
        find_member(members, key) == Some(members[at].1),
    decreases at,
{
    if at > 0 {
        assert(members[0].0 != key);
        let rest = members.skip(1);
        assert forall|i: int| 0 <= i < at - 1 implies (#[trigger] rest[i]).0 != key by {
            assert(rest[i] == members[i + 1]);
        }
        law_first_member_is_found(rest, key, at - 1);
    }
}

} // verus!
