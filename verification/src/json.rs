//! JSON documents: a tree of plain values, read and written through `serde_json`.

use crate::text::{comes_before, lemma_precedes_total, lemma_precedes_transitive, precedes, str_eq};
use serde_json::{Number, Value};
use vstd::prelude::*;
use vstd::utf8::encode_utf8;

verus! {

/// A JSON document.
pub enum Json {
    /// `null`.
    Null,
    /// `true` or `false`.
    Bool(bool),
    /// A number, given by its value where it is an integer of 64 bits, with sign or
    /// without.
    Number(Option<i128>),
    /// A string.
    Str(String),
    /// An array.
    Array(Vec<Json>),
    /// An object: its members in the order of their keys.
    Object(Vec<(String, Json)>),
}

/// The mathematical view of a [`Json`].
pub enum JsonView {
    /// `null`.
    Null,
    /// `true` or `false`.
    Bool(bool),
    /// A number, given by its value where it is an integer of 64 bits, with sign or
    /// without.
    Number(Option<i128>),
    /// A string.
    Str(Seq<char>),
    /// An array.
    Array(Seq<JsonView>),
    /// An object: its members in the order of their keys.
    Object(Seq<(Seq<char>, JsonView)>),
}

/// A document with its strings as character sequences.
pub open spec fn json_view(j: Json) -> JsonView
    decreases j,
{
    match j {
        Json::Null => JsonView::Null,
        Json::Bool(b) => JsonView::Bool(b),
        Json::Number(n) => JsonView::Number(n),
        Json::Str(s) => JsonView::Str(s@),
        Json::Array(items) => JsonView::Array(
            Seq::new(
                items@.len(),
                |i: int|
                    if 0 <= i < items@.len() {
                        json_view(items@[i])
                    } else {
                        JsonView::Null
                    },
            ),
        ),
        Json::Object(members) => JsonView::Object(
            Seq::new(
                members@.len(),
                |i: int|
                    if 0 <= i < members@.len() {
                        (members@[i].0@, json_view(members@[i].1))
                    } else {
                        (Seq::<char>::empty(), JsonView::Null)
                    },
            ),
        ),
    }
}

impl View for Json {
    type V = JsonView;

    open spec fn view(&self) -> JsonView {
        json_view(*self)
    }
}

/// The views of a list of documents.
pub open spec fn json_views(items: Seq<Json>) -> Seq<JsonView> {
    Seq::new(items.len(), |i: int| items[i]@)
}

/// The views of the members of an object.
pub open spec fn member_views(members: Seq<(String, Json)>) -> Seq<(Seq<char>, JsonView)> {
    Seq::new(members.len(), |i: int| (members[i].0@, members[i].1@))
}

/// The view of an array or object is made of the views of its parts.
pub proof fn lemma_json_view(j: Json)
    ensures
        j matches Json::Array(items) ==> j@ == JsonView::Array(json_views(items@)),
        j matches Json::Object(members) ==> j@ == JsonView::Object(member_views(members@)),
{
    match j {
        Json::Array(items) => {
            assert(j@->Array_0 =~= json_views(items@));
        },
        Json::Object(members) => {
            assert(j@->Object_0 =~= member_views(members@));
        },
        _ => {},
    }
}

/// The view of an optional document.
pub open spec fn opt_json(j: Option<&Json>) -> Option<JsonView> {
    match j {
        Some(v) => Some(v@),
        None => None,
    }
}

/// The view of an optional string slice.
pub open spec fn opt_str(s: Option<&str>) -> Option<Seq<char>> {
    match s {
        Some(t) => Some(t@),
        None => None,
    }
}

/// The value of the first member with a key.
pub open spec fn member(members: Seq<(Seq<char>, JsonView)>, key: Seq<char>) -> Option<JsonView>
    decreases members.len(),
{
    if members.len() == 0 {
        None
    } else if members[0].0 == key {
        Some(members[0].1)
    } else {
        member(members.skip(1), key)
    }
}

/// The value under a key, if the document is an object that has the key.
pub open spec fn field(j: JsonView, key: Seq<char>) -> Option<JsonView> {
    match j {
        JsonView::Object(members) => member(members, key),
        _ => None,
    }
}

/// The value under a key of an optional document.
pub open spec fn opt_field(j: Option<JsonView>, key: Seq<char>) -> Option<JsonView> {
    match j {
        Some(v) => field(v, key),
        None => None,
    }
}

/// The text of an optional document, if it is a string.
pub open spec fn text_of(j: Option<JsonView>) -> Option<Seq<char>> {
    match j {
        Some(JsonView::Str(s)) => Some(s),
        _ => None,
    }
}

/// The string under a key.
pub open spec fn text_field(j: JsonView, key: Seq<char>) -> Option<Seq<char>> {
    text_of(field(j, key))
}

/// The number that a document is, if it is a 64-bit integer with sign.
pub open spec fn signed_number(j: JsonView) -> Option<i64> {
    match j {
        JsonView::Number(Some(n)) => if i64::MIN <= n <= i64::MAX {
            Some(n as i64)
        } else {
            None
        },
        _ => None,
    }
}

/// The members of a document, none where it is no object.
pub open spec fn members_of(j: JsonView) -> Seq<(Seq<char>, JsonView)> {
    match j {
        JsonView::Object(members) => members,
        _ => Seq::empty(),
    }
}

/// Whether the keys ascend in dictionary order; none occurs twice.
pub open spec fn ascending(members: Seq<(Seq<char>, JsonView)>) -> bool {
    forall|i: int, j: int|
        0 <= i < j < members.len() ==> precedes(#[trigger] members[i].0, #[trigger] members[j].0)
}

/// Whether a number is an integer of 64 bits, with sign or without.
pub open spec fn integral(n: Option<i128>) -> bool {
    n matches Some(v) && i64::MIN <= v <= u64::MAX
}

/// Whether a document can be written out: its numbers are 64-bit integers, and the
/// keys of its objects ascend.
pub open spec fn writable(j: JsonView) -> bool
    decreases j,
{
    match j {
        JsonView::Number(n) => integral(n),
        JsonView::Array(items) => forall|i: int|
            0 <= i < items.len() ==> writable(#[trigger] items[i]),
        JsonView::Object(members) => ascending(members) && forall|i: int|
            0 <= i < members.len() ==> writable((#[trigger] members[i]).1),
        _ => true,
    }
}

/// Whether a document is nested at most `levels` deep.
pub open spec fn within(j: JsonView, levels: nat) -> bool
    decreases levels,
{
    match j {
        JsonView::Array(items) => levels > 0 && forall|i: int|
            0 <= i < items.len() ==> within(#[trigger] items[i], (levels - 1) as nat),
        JsonView::Object(members) => levels > 0 && forall|i: int|
            0 <= i < members.len() ==> within((#[trigger] members[i]).1, (levels - 1) as nat),
        _ => true,
    }
}

/// Whether a document can be written out and is read back as it was.
pub open spec fn round_trips(j: JsonView) -> bool {
    writable(j) && within(j, max_levels())
}

/// How deep a document may be nested for the parser to accept it.
pub open spec fn max_levels() -> nat {
    127
}

/// `serde_json::Value`, the tree that `serde_json` reads and writes.
#[verifier::external_type_specification]
#[verifier::external_body]
pub struct ExValue(Value);

/// What a `serde_json::Value` holds: its items and members, down to the leaves.
pub uninterp spec fn value_view(v: Value) -> JsonView;

/// The document that `serde_json` reads from a byte sequence, or its complaint.
pub uninterp spec fn json_of_bytes(bytes: Seq<u8>) -> Result<JsonView, Seq<char>>;

/// The compact text that `serde_json` writes for a document.
pub uninterp spec fn json_text(j: JsonView) -> Seq<char>;

/// Whether `serde_json` reads a document from a text.
pub open spec fn reads_as(text: Seq<char>, j: JsonView) -> bool {
    json_of_bytes(encode_utf8(text)) == Ok::<JsonView, Seq<char>>(j)
}

/// The top level of a `serde_json::Value`.
enum Parts {
    Null,
    Bool(bool),
    Number(Option<i128>),
    Str(String),
    Array(Vec<Value>),
    Object(Vec<(String, Value)>),
}

/// What a value with these parts holds.
spec fn parts_view(p: Parts) -> JsonView {
    match p {
        Parts::Null => JsonView::Null,
        Parts::Bool(b) => JsonView::Bool(b),
        Parts::Number(n) => JsonView::Number(n),
        Parts::Str(s) => JsonView::Str(s@),
        Parts::Array(items) => JsonView::Array(
            Seq::new(items@.len(), |i: int| value_view(items@[i])),
        ),
        Parts::Object(members) => JsonView::Object(
            Seq::new(members@.len(), |i: int| (members@[i].0@, value_view(members@[i].1))),
        ),
    }
}

/// What a parsed value holds, or the message of the error.
pub open spec fn value_or_message(r: Result<Value, String>) -> Result<JsonView, Seq<char>> {
    match r {
        Ok(v) => Ok(value_view(v)),
        Err(e) => Err(e@),
    }
}

/// `serde_json::from_slice` into a `serde_json::Value`: the value, or the text of
/// the error, depends on the bytes alone.
#[verifier::external_body]
fn value_from_slice(bytes: &[u8]) -> (r: Result<Value, String>)
    ensures
        value_or_message(r) == json_of_bytes(bytes@),
{
    serde_json::from_slice(bytes).map_err(|e| e.to_string())
}

/// The variants of `serde_json::Value`: hands out what the value holds, the
/// members of an object in the order of `serde_json::Map`'s iteration and a number
/// by `serde_json::Number::as_i128`.
#[verifier::external_body]
fn take_apart(v: Value) -> (p: Parts)
    ensures
        parts_view(p) == value_view(v),
{
    match v {
        Value::Null => Parts::Null,
        Value::Bool(b) => Parts::Bool(b),
        Value::Number(n) => Parts::Number(n.as_i128()),
        Value::String(s) => Parts::Str(s),
        Value::Array(items) => Parts::Array(items),
        Value::Object(members) => Parts::Object(members.into_iter().collect()),
    }
}

/// The variants of `serde_json::Value`: makes the value that holds the parts. A
/// `serde_json::Map` keeps its members in the order of their keys, so the keys are
/// asked to come in that order, each once; a number has to be an integer that `serde_json::Number::from_i128` takes.
#[verifier::external_body]
fn put_together(p: Parts) -> (v: Value)
    requires
        p matches Parts::Number(n) ==> integral(n),
        parts_view(p) matches JsonView::Object(members) ==> ascending(members),
    ensures
        value_view(v) == parts_view(p),
{
    match p {
        Parts::Null => Value::Null,
        Parts::Bool(b) => Value::Bool(b),
        Parts::Number(n) => n.and_then(Number::from_i128).map_or(Value::Null, Value::Number),
        Parts::Str(s) => Value::String(s),
        Parts::Array(items) => Value::Array(items),
        Parts::Object(members) => Value::Object(members.into_iter().collect()),
    }
}

/// `serde_json::Value`'s `to_string`: compact text that depends on what the value
/// holds alone. Unless the value is nested deeper than the parser allows,
/// `serde_json::from_slice` reads from the text a value that holds the same.
#[verifier::external_body]
fn value_to_text(v: &Value) -> (r: String)
    requires
        writable(value_view(*v)),
    ensures
        r@ == json_text(value_view(*v)),
        within(value_view(*v), max_levels()) ==> reads_as(r@, value_view(*v)),
{
    v.to_string()
}

/// The document that a `serde_json::Value` holds.
fn json_of_value(v: Value) -> (r: Json)
    ensures
        r@ == value_view(v),
    decreases value_view(v),
{
    let ghost whole = value_view(v);
    match take_apart(v) {
        Parts::Null => Json::Null,
        Parts::Bool(b) => Json::Bool(b),
        Parts::Number(n) => Json::Number(n),
        Parts::Str(s) => Json::Str(s),
        Parts::Array(items) => {
            let ghost all = items@;
            assert(whole == parts_view(Parts::Array(items)));
            let mut out: Vec<Json> = Vec::new();
            for item in it: items.into_iter()
                invariant
                    it.seq() == all,
                    out@.len() == it.index(),
                    whole == value_view(v),
                    whole is Array,
                    whole->Array_0.len() == all.len(),
                    forall|k: int|
                        0 <= k < all.len() ==> whole->Array_0[k] == value_view(#[trigger] all[k]),
                    forall|k: int| 0 <= k < out@.len() ==> (#[trigger] out@[k])@ == value_view(all[k]),
            {
                assert(value_view(item) == whole->Array_0[it.index()]);
                assert(decreases_to!(whole => whole->Array_0));
                assert(decreases_to!(whole->Array_0 => whole->Array_0[it.index()]));
                out.push(json_of_value(item));
            }
            let r: Json = Json::Array(out);
            proof {
                lemma_json_view(r);
                assert(json_views(out@) =~= whole->Array_0);
            }
            r
        },
        Parts::Object(members) => {
            let ghost all = members@;
            assert(whole == parts_view(Parts::Object(members)));
            let mut out: Vec<(String, Json)> = Vec::new();
            for entry in it: members.into_iter()
                invariant
                    it.seq() == all,
                    out@.len() == it.index(),
                    whole == value_view(v),
                    whole is Object,
                    whole->Object_0.len() == all.len(),
                    forall|k: int|
                        0 <= k < all.len() ==> whole->Object_0[k] == (
                            (#[trigger] all[k]).0@,
                            value_view(all[k].1),
                        ),
                    forall|k: int|
                        0 <= k < out@.len() ==> ((#[trigger] out@[k]).0@, out@[k].1@) == (
                            all[k].0@,
                            value_view(all[k].1),
                        ),
            {
                assert(entry == all[it.index()]);
                assert(value_view(entry.1) == whole->Object_0[it.index()].1);
                assert(decreases_to!(whole => whole->Object_0));
                assert(decreases_to!(whole->Object_0 => whole->Object_0[it.index()]));
                assert(decreases_to!(whole->Object_0[it.index()] => whole->Object_0[it.index()].1));
                let (key, value): (String, Value) = entry;
                out.push((key, json_of_value(value)));
            }
            let r: Json = Json::Object(out);
            proof {
                lemma_json_view(r);
                assert(member_views(out@) =~= whole->Object_0);
            }
            r
        },
    }
}

/// The `serde_json::Value` that holds a document.
fn value_of_json(j: &Json) -> (r: Value)
    requires
        writable(j@),
    ensures
        value_view(r) == j@,
    decreases j,
{
    proof {
        lemma_json_view(*j);
    }
    match j {
        Json::Null => put_together(Parts::Null),
        Json::Bool(b) => put_together(Parts::Bool(*b)),
        Json::Number(n) => put_together(Parts::Number(*n)),
        Json::Str(s) => put_together(Parts::Str(s.clone())),
        Json::Array(items) => {
            let mut out: Vec<Value> = Vec::new();
            let mut i: usize = 0;
            assert forall|k: int| 0 <= k < items@.len() implies writable(
                #[trigger] json_views(items@)[k],
            ) by {
                assert(j@->Array_0 == json_views(items@));
                assert(writable(j@->Array_0[k]));
            }
            while i < items.len()
                invariant
                    i <= items@.len(),
                    out@.len() == i,
                    *j == Json::Array(*items),
                    forall|k: int|
                        0 <= k < items@.len() ==> writable(#[trigger] json_views(items@)[k]),
                    forall|k: int| 0 <= k < i ==> value_view(#[trigger] out@[k]) == items@[k]@,
                decreases items@.len() - i,
            {
                assert(json_views(items@)[i as int] == items@[i as int]@);
                assert(decreases_to!(*j => j->Array_0));
                assert(decreases_to!(*items => items@));
                assert(decreases_to!(items@ => items@[i as int]));
                out.push(value_of_json(&items[i]));
                i += 1;
            }
            let p: Parts = Parts::Array(out);
            assert(parts_view(p)->Array_0 =~= json_views(items@));
            put_together(p)
        },
        Json::Object(members) => {
            let mut out: Vec<(String, Value)> = Vec::new();
            let mut i: usize = 0;
            while i < members.len()
                invariant
                    i <= members@.len(),
                    out@.len() == i,
                    *j == Json::Object(*members),
                    forall|k: int|
                        0 <= k < members@.len() ==> writable(
                            (#[trigger] member_views(members@)[k]).1,
                        ),
                    forall|k: int|
                        0 <= k < i ==> (#[trigger] out@[k]).0@ == members@[k].0@ && value_view(
                            out@[k].1,
                        ) == members@[k].1@,
                decreases members@.len() - i,
            {
                assert(member_views(members@)[i as int].1 == members@[i as int].1@);
                assert(decreases_to!(*j => j->Object_0));
                assert(decreases_to!(*members => members@));
                assert(decreases_to!(members@ => members@[i as int]));
                assert(decreases_to!(members@[i as int] => members@[i as int].1));
                let value: Value = value_of_json(&members[i].1);
                out.push((members[i].0.clone(), value));
                i += 1;
            }
            let p: Parts = Parts::Object(out);
            assert(parts_view(p)->Object_0 =~= member_views(members@));
            put_together(p)
        },
    }
}

/// The view of a document or of an error message.
pub open spec fn json_or_message(r: Result<Json, String>) -> Result<JsonView, Seq<char>> {
    match r {
        Ok(j) => Ok(j@),
        Err(e) => Err(e@),
    }
}

/// Reads a document.
pub fn parse(bytes: &[u8]) -> (r: Result<Json, String>)
    ensures
        json_or_message(r) == json_of_bytes(bytes@),
{
    match value_from_slice(bytes) {
        Ok(v) => Ok(json_of_value(v)),
        Err(e) => Err(e),
    }
}

/// The members with one of them set: replaced where the key occurs, else put in
/// front of the first member with a later key.
pub open spec fn with_member(
    members: Seq<(Seq<char>, JsonView)>,
    key: Seq<char>,
    value: JsonView,
) -> Seq<(Seq<char>, JsonView)>
    decreases members.len(),
{
    if members.len() == 0 {
        seq![(key, value)]
    } else if members[0].0 == key {
        members.update(0, (key, value))
    } else if precedes(key, members[0].0) {
        members.insert(0, (key, value))
    } else {
        with_member(members.skip(1), key, value).insert(0, members[0])
    }
}

/// A document with one field set.
pub open spec fn with_field(j: JsonView, key: Seq<char>, value: JsonView) -> JsonView {
    JsonView::Object(with_member(members_of(j), key, value))
}

/// Setting a field sets that field and no other.
pub proof fn lemma_with_field(j: JsonView, key: Seq<char>, value: JsonView, other: Seq<char>)
    ensures
        field(with_field(j, key, value), key) == Some(value),
        other != key ==> field(with_field(j, key, value), other) == member(members_of(j), other),
{
    lemma_with_member(members_of(j), key, value, other);
}

proof fn lemma_with_member(
    members: Seq<(Seq<char>, JsonView)>,
    key: Seq<char>,
    value: JsonView,
    other: Seq<char>,
)
    ensures
        member(with_member(members, key, value), key) == Some(value),
        other != key ==> member(with_member(members, key, value), other) == member(members, other),
    decreases members.len(),
{
    let set = with_member(members, key, value);
    if members.len() == 0 {
        assert(set.skip(1) =~= members);
    } else if members[0].0 == key {
        assert(set.skip(1) =~= members.skip(1));
    } else if precedes(key, members[0].0) {
        assert(set.skip(1) =~= members);
    } else {
        lemma_with_member(members.skip(1), key, value, other);
        assert(set.skip(1) =~= with_member(members.skip(1), key, value));
    }
}

/// The keys of the members stay in order when one is set.
proof fn lemma_with_member_ascending(
    members: Seq<(Seq<char>, JsonView)>,
    key: Seq<char>,
    value: JsonView,
)
    requires
        ascending(members),
    ensures
        ascending(with_member(members, key, value)),
        forall|i: int|
            0 <= i < with_member(members, key, value).len() ==> {
                ||| (#[trigger] with_member(members, key, value)[i]) == (key, value)
                ||| exists|k: int|
                    0 <= k < members.len() && with_member(members, key, value)[i] == members[k]
            },
    decreases members.len(),
{
    let set = with_member(members, key, value);
    if members.len() == 0 {
    } else if members[0].0 == key {
        assert forall|i: int| 0 <= i < set.len() implies {
            ||| (#[trigger] set[i]) == (key, value)
            ||| exists|k: int| 0 <= k < members.len() && set[i] == members[k]
        } by {
            if i > 0 {
                assert(set[i] == members[i]);
            }
        }
    } else if precedes(key, members[0].0) {
        assert forall|i: int, j: int| 0 <= i < j < set.len() implies precedes(
            #[trigger] set[i].0,
            #[trigger] set[j].0,
        ) by {
            assert(set[j] == members[j - 1]);
            if i > 0 {
                assert(set[i] == members[i - 1]);
            } else if j > 1 {
                lemma_precedes_transitive(key, members[0].0, members[j - 1].0);
            }
        }
        assert forall|i: int| 0 <= i < set.len() implies {
            ||| (#[trigger] set[i]) == (key, value)
            ||| exists|k: int| 0 <= k < members.len() && set[i] == members[k]
        } by {
            if i > 0 {
                assert(set[i] == members[i - 1]);
            }
        }
    } else {
        let rest = members.skip(1);
        let tail = with_member(rest, key, value);
        assert forall|i: int, j: int| 0 <= i < j < rest.len() implies precedes(
            #[trigger] rest[i].0,
            #[trigger] rest[j].0,
        ) by {
            assert(rest[i] == members[i + 1]);
            assert(rest[j] == members[j + 1]);
        }
        lemma_with_member_ascending(rest, key, value);
        lemma_precedes_total(members[0].0, key);
        assert forall|i: int| 0 <= i < tail.len() implies {
            ||| (#[trigger] tail[i]) == (key, value)
            ||| exists|k: int| 1 <= k < members.len() && tail[i] == members[k]
        } by {
            if tail[i] != (key, value) {
                let k = choose|k: int| 0 <= k < rest.len() && tail[i] == rest[k];
                assert(tail[i] == members[k + 1]);
            }
        }
        assert forall|i: int, j: int| 0 <= i < j < set.len() implies precedes(
            #[trigger] set[i].0,
            #[trigger] set[j].0,
        ) by {
            assert(set[j] == tail[j - 1]);
            if i > 0 {
                assert(set[i] == tail[i - 1]);
            } else if tail[j - 1] != (key, value) {
                let k = choose|k: int| 1 <= k < members.len() && tail[j - 1] == members[k];
                assert(precedes(members[0].0, members[k].0));
            }
        }
        assert forall|i: int| 0 <= i < set.len() implies {
            ||| (#[trigger] set[i]) == (key, value)
            ||| exists|k: int| 0 <= k < members.len() && set[i] == members[k]
        } by {
            if i > 0 {
                assert(set[i] == tail[i - 1]);
            } else {
                assert(set[i] == members[0]);
            }
        }
    }
}

/// A document stays writable when a field is set to a writable value, and within its
/// levels when the value is within one less.
pub proof fn lemma_with_field_writable(
    j: JsonView,
    key: Seq<char>,
    value: JsonView,
    levels: nat,
)
    requires
        levels > 0,
        j is Null || writable(j),
        writable(value),
    ensures
        writable(with_field(j, key, value)),
        (j is Null || within(j, levels)) && within(value, (levels - 1) as nat) ==> within(
            with_field(j, key, value),
            levels,
        ),
{
    let members = members_of(j);
    let set = with_member(members, key, value);
    lemma_with_member_ascending(members, key, value);
    assert forall|i: int| 0 <= i < set.len() implies writable((#[trigger] set[i]).1) by {
        if set[i] != (key, value) {
            let k = choose|k: int| 0 <= k < members.len() && set[i] == members[k];
            assert(writable(members[k].1));
        }
    }
    if (j is Null || within(j, levels)) && within(value, (levels - 1) as nat) {
        assert forall|i: int| 0 <= i < set.len() implies within(
            (#[trigger] set[i]).1,
            (levels - 1) as nat,
        ) by {
            if set[i] != (key, value) {
                let k = choose|k: int| 0 <= k < members.len() && set[i] == members[k];
                assert(within(members[k].1, (levels - 1) as nat));
            }
        }
    }
}

impl Json {
    /// The value under `key`, if this is an object that has it.
    pub fn get(&self, key: &str) -> (r: Option<&Json>)
        ensures
            opt_json(r) == field(self@, key@),
    {
        proof {
            lemma_json_view(*self);
        }
        match self {
            Json::Object(members) => {
                let ghost all = member_views(members@);
                let mut i: usize = 0;
                assert(all.skip(0) =~= all);
                while i < members.len()
                    invariant
                        i <= members@.len(),
                        all == member_views(members@),
                        self@ == JsonView::Object(all),
                        member(all, key@) == member(all.skip(i as int), key@),
                    decreases members@.len() - i,
                {
                    assert(all.skip(i as int)[0] == all[i as int]);
                    if str_eq(members[i].0.as_str(), key) {
                        return Some(&members[i].1);
                    }
                    assert(all.skip(i as int).skip(1) =~= all.skip(i + 1));
                    i += 1;
                }
                None
            },
            _ => None,
        }
    }

    /// The text, if this is a string.
    pub fn as_str(&self) -> (r: Option<&str>)
        ensures
            opt_str(r) == text_of(Some(self@)),
    {
        match self {
            Json::Str(s) => Some(s.as_str()),
            _ => None,
        }
    }

    /// The number, if this is a 64-bit integer with sign.
    pub fn as_i64(&self) -> (r: Option<i64>)
        ensures
            r == signed_number(self@),
    {
        match self {
            Json::Number(Some(n)) => if i64::MIN as i128 <= *n && *n <= i64::MAX as i128 {
                Some(*n as i64)
            } else {
                None
            },
            _ => None,
        }
    }

    /// The truth value, if this is one.
    pub fn as_bool(&self) -> (r: Option<bool>)
        ensures
            r == (if let JsonView::Bool(b) = self@ {
                Some(b)
            } else {
                None
            }),
    {
        match self {
            Json::Bool(b) => Some(*b),
            _ => None,
        }
    }

    /// The string under `key`.
    pub fn text(&self, key: &str) -> (r: Option<&str>)
        ensures
            opt_str(r) == text_field(self@, key@),
    {
        match self.get(key) {
            Some(v) => v.as_str(),
            None => None,
        }
    }

    /// A JSON string.
    pub fn string(s: &str) -> (r: Json)
        ensures
            r@ == JsonView::Str(s@),
    {
        Json::Str(s.to_owned())
    }

    /// An integer.
    pub fn integer(n: i64) -> (r: Json)
        ensures
            r@ == JsonView::Number(Some(n as i128)),
    {
        Json::Number(Some(n as i128))
    }

    /// The document with the field `key` set.
    pub fn with(self, key: &str, value: Json) -> (r: Json)
        requires
            self is Null || self is Object,
        ensures
            r@ == with_field(self@, key@, value@),
    {
        proof {
            lemma_json_view(self);
        }
        let mut members: Vec<(String, Json)> = match self {
            Json::Object(members) => members,
            _ => Vec::new(),
        };
        let ghost all = member_views(members@);
        assert(all =~= members_of(self@));
        let mut i: usize = 0;
        let mut found: bool = false;
        assert(all.skip(0) =~= all);
        assert(all.take(0) + with_member(all.skip(0), key@, value@) =~= with_member(
            all,
            key@,
            value@,
        ));
        while i < members.len() && !found && !comes_before(key, members[i].0.as_str())
            invariant
                i <= members@.len(),
                all == member_views(members@),
                found ==> i < members@.len() && all[i as int].0 == key@,
                all.take(i as int) + with_member(all.skip(i as int), key@, value@) == with_member(
                    all,
                    key@,
                    value@,
                ),
            decreases members@.len() - i, (if found { 0int } else { 1int }),
        {
            let ghost rest = all.skip(i as int);
            assert(rest[0] == all[i as int]);
            proof {
                lemma_precedes_total(key@, all[i as int].0);
            }
            if str_eq(members[i].0.as_str(), key) {
                found = true;
            } else {
                assert(rest.skip(1) =~= all.skip(i + 1));
                assert(all.take(i as int) + with_member(rest, key@, value@) =~= all.take(i + 1)
                    + with_member(rest.skip(1), key@, value@));
                i += 1;
            }
        }
        let ghost rest = all.skip(i as int);
        let ghost done = all.take(i as int) + with_member(rest, key@, value@);
        assert(i < all.len() ==> rest[0] == all[i as int]);
        if found {
            let _old: (String, Json) = members.remove(i);
        }
        members.insert(i, (key.to_owned(), value));
        proof {
            lemma_precedes_total(key@, key@);
            if !found {
                assert(with_member(rest, key@, value@) =~= rest.insert(0, (key@, value@)));
            }
        }
        assert(member_views(members@) =~= done);
        let r: Json = Json::Object(members);
        proof {
            lemma_json_view(r);
        }
        r
    }

    /// The compact text of the document. What is not nested too deep is read back from
    /// it.
    pub fn to_text(&self) -> (r: String)
        requires
            writable(self@),
        ensures
            r@ == json_text(self@),
            within(self@, max_levels()) ==> reads_as(r@, self@),
    {
        let v: Value = value_of_json(self);
        value_to_text(&v)
    }
}

/// The value under a key is that of the first member with the key, and there is none
/// where no member has it.
pub proof fn lemma_first_member(
    before: Seq<(Seq<char>, JsonView)>,
    key: Seq<char>,
    value: JsonView,
    after: Seq<(Seq<char>, JsonView)>,
)
    requires
        forall|i: int| 0 <= i < before.len() ==> (#[trigger] before[i]).0 != key,
    ensures
        field(JsonView::Object(before + seq![(key, value)] + after), key) == Some(value),
        field(JsonView::Object(before), key) is None,
    decreases before.len(),
{
    let all = before + seq![(key, value)] + after;
    if before.len() > 0 {
        let rest = before.skip(1);
        assert forall|i: int| 0 <= i < rest.len() implies (#[trigger] rest[i]).0 != key by {
            assert(before[i + 1].0 != key);
        }
        lemma_first_member(rest, key, value, after);
        assert(all.skip(1) =~= rest + seq![(key, value)] + after);
        assert(before[0].0 != key);
        assert(all[0] == before[0]);
    } else {
        assert(all[0] == (key, value));
    }
}

/// Only objects have fields, and only strings have a text, which is the string itself.
pub proof fn lemma_fields_and_texts(j: JsonView, key: Seq<char>, s: Seq<char>)
    ensures
        !(j is Object) ==> field(j, key) is None,
        opt_field(None, key) is None,
        opt_field(Some(j), key) == field(j, key),
        text_of(Some(JsonView::Str(s))) == Some(s),
        !(j is Str) ==> text_of(Some(j)) is None,
        text_of(None) is None,
        field(j, key) == Some(JsonView::Str(s)) <==> text_field(j, key) == Some(s),
{
}

/// Every integer of 64 bits with sign is read as itself, and no other document as an
/// integer.
pub proof fn lemma_signed_number(n: i64, j: JsonView)
    ensures
        signed_number(JsonView::Number(Some(n as i128))) == Some(n),
        signed_number(j) matches Some(v) ==> j == JsonView::Number(Some(v as i128)),
{
}

} // verus!
