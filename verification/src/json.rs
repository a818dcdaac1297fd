//! JSON values: how they are read, built and written. The text itself is
//! `serde_json`'s.

use vstd::prelude::*;
use vstd::utf8::*;

use crate::layout::{integers_only, layout};
use crate::text::{same, trimmed};

verus! {

/// `serde_json::Value`, opaque here; [`value_model`] names what it holds.
#[verifier::external_type_specification]
#[verifier::external_body]
pub struct ExValue(serde_json::Value);

/// `serde_json::Number`, opaque here; [`number_parts`] names its two integer
/// readings.
#[verifier::external_type_specification]
#[verifier::external_body]
pub struct ExNumber(serde_json::Number);

/// A number: one that fits `u64`, a negative one that fits `i64`, or any other,
/// carried as it is.
pub enum JsonNumber {
    Pos(u64),
    Neg(i64),
    Other(serde_json::Number),
}

/// A JSON value as mathematics. An object is the map from its keys to their
/// values.
pub enum JsonModel {
    Null,
    Bool(bool),
    Number(JsonNumber),
    Text(Seq<char>),
    Array(Seq<JsonModel>),
    Object(Map<Seq<char>, JsonModel>),
}

/// A JSON value. An object is a list of pairs; of two pairs with one key the
/// later one counts.
pub enum Json {
    Null,
    Bool(bool),
    Number(JsonNumber),
    Text(String),
    Array(Vec<Json>),
    Object(Vec<(String, Json)>),
}

/// What `serde_json::Number::as_u64` and `as_i64` give for a number.
pub uninterp spec fn number_parts(n: serde_json::Number) -> (Option<u64>, Option<i64>);

/// What a `serde_json::Value` holds.
pub uninterp spec fn value_model(v: serde_json::Value) -> JsonModel;

/// What `serde_json::from_slice` gives for these bytes: a value, or the text of
/// its error.
pub uninterp spec fn json_parse(bytes: Seq<u8>) -> Result<JsonModel, Seq<char>>;

/// What `serde_json::to_string` writes for a value.
pub uninterp spec fn json_text(m: JsonModel) -> Seq<char>;

/// What `serde_json::to_string_pretty` writes for a value.
pub uninterp spec fn json_pretty(m: JsonModel) -> Seq<char>;

/// The number that a `serde_json::Number` is.
pub open spec fn number_model(n: serde_json::Number) -> JsonNumber {
    match number_parts(n) {
        (Some(u), _) => JsonNumber::Pos(u),
        (None, Some(i)) => JsonNumber::Neg(i),
        (None, None) => JsonNumber::Other(n),
    }
}

impl JsonNumber {
    /// The number, with the variant that its value calls for.
    pub open spec fn norm(self) -> JsonNumber {
        match self {
            JsonNumber::Pos(u) => JsonNumber::Pos(u),
            JsonNumber::Neg(i) => if i < 0 {
                JsonNumber::Neg(i)
            } else {
                JsonNumber::Pos(i as u64)
            },
            JsonNumber::Other(n) => number_model(n),
        }
    }
}

/// The values of a list.
pub open spec fn array_model(items: Seq<Json>) -> Seq<JsonModel>
    decreases items,
{
    if items.len() == 0 {
        Seq::empty()
    } else {
        array_model(items.drop_last()).push(items.last().model())
    }
}

/// The map that a list of pairs stands for.
pub open spec fn object_model(pairs: Seq<(String, Json)>) -> Map<Seq<char>, JsonModel>
    decreases pairs,
{
    if pairs.len() == 0 {
        Map::empty()
    } else {
        object_model(pairs.drop_last()).insert(pairs.last().0@, pairs.last().1.model())
    }
}

impl Json {
    /// The value as mathematics.
    pub open spec fn model(self) -> JsonModel
        decreases self,
    {
        match self {
            Json::Null => JsonModel::Null,
            Json::Bool(b) => JsonModel::Bool(b),
            Json::Number(n) => JsonModel::Number(n.norm()),
            Json::Text(s) => JsonModel::Text(s@),
            Json::Array(items) => JsonModel::Array(array_model(items@)),
            Json::Object(pairs) => JsonModel::Object(object_model(pairs@)),
        }
    }
}

pub proof fn lemma_array_model(items: Seq<Json>)
    ensures
        array_model(items).len() == items.len(),
        forall|i: int|
            0 <= i < items.len() ==> #[trigger] array_model(items)[i] == items[i].model(),
    decreases items.len(),
{
    if items.len() > 0 {
        lemma_array_model(items.drop_last());
        assert forall|i: int| 0 <= i < items.len() implies #[trigger] array_model(items)[i]
            == items[i].model() by {
            if i < items.len() - 1 {
                assert(items.drop_last()[i] == items[i]);
            }
        }
    }
}

/// The key that `serde_json` keeps for itself: an object that begins with it is read as
/// the value in the text under it, not as an object.
pub open spec fn reserved_key() -> Seq<char> {
    "$serde_json::private::RawValue"@
}

/// A value that its text gives back: nested at most `depth` deep, with integers for
/// numbers, and without the reserved key in any object.
pub open spec fn readable_within(m: JsonModel, depth: nat) -> bool
    decreases depth,
{
    match m {
        JsonModel::Number(n) => !(n is Other),
        JsonModel::Array(items) => depth > 0 && forall|i: int|
            0 <= i < items.len() ==> readable_within(#[trigger] items[i], (depth - 1) as nat),
        JsonModel::Object(fields) => depth > 0 && !fields.contains_key(reserved_key())
            && forall|k: Seq<char>| #[trigger]
            fields.contains_key(k) ==> readable_within(fields[k], (depth - 1) as nat),
        _ => true,
    }
}

/// How deep `serde_json` reads nested lists and objects.
pub const MAX_DEPTH: u8 = 127;

/// A text that reads back as this value.
pub open spec fn reads_as(text: Seq<char>, m: JsonModel) -> bool {
    json_parse(encode_utf8(text)) == Ok::<JsonModel, Seq<char>>(m)
}

/// The outermost layer of a `serde_json::Value`.
enum JsonNode {
    Null,
    Bool(bool),
    Number(serde_json::Number),
    Text(String),
    Array(Vec<serde_json::Value>),
    Object(Vec<(String, serde_json::Value)>),
}

spec fn pairs_model(pairs: Seq<(String, serde_json::Value)>) -> Map<Seq<char>, JsonModel>
    decreases pairs.len(),
{
    if pairs.len() == 0 {
        Map::empty()
    } else {
        pairs_model(pairs.drop_last()).insert(pairs.last().0@, value_model(pairs.last().1))
    }
}

spec fn node_model(n: JsonNode) -> JsonModel {
    match n {
        JsonNode::Null => JsonModel::Null,
        JsonNode::Bool(b) => JsonModel::Bool(b),
        JsonNode::Number(n) => JsonModel::Number(number_model(n)),
        JsonNode::Text(s) => JsonModel::Text(s@),
        JsonNode::Array(items) => JsonModel::Array(
            items@.map_values(|v: serde_json::Value| value_model(v)),
        ),
        JsonNode::Object(pairs) => JsonModel::Object(pairs_model(pairs@)),
    }
}

spec fn pairs_distinct(pairs: Seq<(String, serde_json::Value)>) -> bool {
    forall|i: int, j: int|
        0 <= i < j < pairs.len() ==> (#[trigger] pairs[i]).0@ != (#[trigger] pairs[j]).0@
}

spec fn keys_distinct(n: JsonNode) -> bool {
    n matches JsonNode::Object(pairs) ==> pairs_distinct(pairs@)
}

/// `serde_json::Number::as_u64` and `as_i64`, named by [`number_parts`]. What is
/// an `i64` but no `u64` is negative.
#[verifier::external_body]
fn number_open(n: &serde_json::Number) -> (r: (Option<u64>, Option<i64>))
    ensures
        r == number_parts(*n),
        r.0 is None && r.1 is Some ==> r.1->0 < 0,
{
    (n.as_u64(), n.as_i64())
}

/// `serde_json::Number::from` of a `u64`: it reads back as that number, and as
/// an `i64` where it fits.
#[verifier::external_body]
fn number_from_u64(u: u64) -> (r: serde_json::Number)
    ensures
        number_parts(r) == (
            Some(u),
            if u <= i64::MAX {
                Some(u as i64)
            } else {
                None
            },
        ),
{
    serde_json::Number::from(u)
}

/// `serde_json::Number::from` of a negative `i64`: it reads back as that
/// number, and not as a `u64`.
#[verifier::external_body]
fn number_from_i64(i: i64) -> (r: serde_json::Number)
    requires
        i < 0,
    ensures
        number_parts(r) == (None::<u64>, Some(i)),
{
    serde_json::Number::from(i)
}

/// `serde_json::Number::clone` gives the same number.
pub assume_specification[ <serde_json::Number as Clone>::clone ](n: &serde_json::Number) -> (r:
    serde_json::Number)
    ensures
        r == n,
;

/// The variants of `serde_json::Value`, field by field. Its map of an object
/// holds each key once.
#[verifier::external_body]
fn value_open(v: serde_json::Value) -> (n: JsonNode)
    ensures
        node_model(n) == value_model(v),
        keys_distinct(n),
{
    match v {
        serde_json::Value::Null => JsonNode::Null,
        serde_json::Value::Bool(b) => JsonNode::Bool(b),
        serde_json::Value::Number(n) => JsonNode::Number(n),
        serde_json::Value::String(s) => JsonNode::Text(s),
        serde_json::Value::Array(items) => JsonNode::Array(items),
        serde_json::Value::Object(fields) => JsonNode::Object(fields.into_iter().collect()),
    }
}

/// The variants of `serde_json::Value`, built from their fields. Its map of an object
/// holds each of the pairs, whose keys differ.
#[verifier::external_body]
fn value_close(n: JsonNode) -> (v: serde_json::Value)
    requires
        keys_distinct(n),
    ensures
        value_model(v) == node_model(n),
{
    match n {
        JsonNode::Null => serde_json::Value::Null,
        JsonNode::Bool(b) => serde_json::Value::Bool(b),
        JsonNode::Number(n) => serde_json::Value::Number(n),
        JsonNode::Text(s) => serde_json::Value::String(s),
        JsonNode::Array(items) => serde_json::Value::Array(items),
        JsonNode::Object(pairs) => serde_json::Value::Object(pairs.into_iter().collect()),
    }
}

/// `serde_json::from_slice` into a `serde_json::Value`, with the text of its
/// error; [`json_parse`] names what comes out.
#[verifier::external_body]
fn value_from_slice(bytes: &[u8]) -> (r: Result<serde_json::Value, String>)
    ensures
        match r {
            Ok(v) => json_parse(bytes@) == Ok::<JsonModel, Seq<char>>(value_model(v)),
            Err(e) => json_parse(bytes@) == Err::<JsonModel, Seq<char>>(e@),
        },
{
    serde_json::from_slice::<serde_json::Value>(bytes).map_err(|e| e.to_string())
}

/// `serde_json::to_string` of a `serde_json::Value`, which does not fail;
/// [`json_text`] names the text. `from_slice` reads a value back from it, where
/// the value is not nested deeper than the reader goes, holds integers only and no
/// object with the reserved key. No white space stands at either end of it. Where all
/// numbers are integers, it is written as [`layout`] says.
#[verifier::external_body]
fn value_to_text(v: &serde_json::Value) -> (r: String)
    ensures
        r@ == json_text(value_model(*v)),
        readable_within(value_model(*v), MAX_DEPTH as nat) ==> reads_as(r@, value_model(*v)),
        trimmed(r@) == r@,
        integers_only(value_model(*v)) ==> r@ == layout(value_model(*v)),
{
    serde_json::to_string(v).expect("a value has a text")
}

/// `serde_json::to_string_pretty` of a `serde_json::Value`, which does not
/// fail; [`json_pretty`] names the text.
#[verifier::external_body]
fn value_to_pretty(v: &serde_json::Value) -> (r: String)
    ensures
        r@ == json_pretty(value_model(*v)),
{
    serde_json::to_string_pretty(v).expect("a value has a text")
}

proof fn lemma_pairs_model(pairs: Seq<(String, serde_json::Value)>, k: int)
    requires
        0 <= k < pairs.len(),
        pairs_distinct(pairs),
    ensures
        pairs_model(pairs).contains_key(pairs[k].0@),
        pairs_model(pairs)[pairs[k].0@] == value_model(pairs[k].1),
    decreases pairs.len(),
{
    if k < pairs.len() - 1 {
        lemma_pairs_model(pairs.drop_last(), k);
        assert(pairs.drop_last()[k] == pairs[k]);
    }
}

proof fn lemma_pairs_finite(pairs: Seq<(String, serde_json::Value)>)
    ensures
        pairs_model(pairs).dom().finite(),
    decreases pairs.len(),
{
    if pairs.len() > 0 {
        lemma_pairs_finite(pairs.drop_last());
    }
}

fn json_from_value(v: serde_json::Value) -> (j: Json)
    ensures
        j.model() == value_model(v),
    decreases value_model(v),
{
    let ghost m = value_model(v);
    let node = value_open(v);
    let ghost whole = node;
    match node {
        JsonNode::Null => Json::Null,
        JsonNode::Bool(b) => Json::Bool(b),
        JsonNode::Text(s) => Json::Text(s),
        JsonNode::Number(n) => {
            let (u, i) = number_open(&n);
            match (u, i) {
                (Some(u), _) => Json::Number(JsonNumber::Pos(u)),
                (None, Some(i)) => Json::Number(JsonNumber::Neg(i)),
                (None, None) => Json::Number(JsonNumber::Other(n)),
            }
        },
        JsonNode::Array(items) => {
            let ghost all = items@;
            let mut out: Vec<Json> = Vec::new();
            for x in it: items
                invariant
                    it.seq() == all,
                    m == value_model(v),
                    m == JsonModel::Array(all.map_values(|v: serde_json::Value| value_model(v))),
                    out@.len() == it.index(),
                    forall|k: int|
                        0 <= k < out@.len() ==> (#[trigger] out@[k]).model() == value_model(all[k]),
            {
                assert(m->Array_0[it.index() as int] == value_model(x));
                assert(decreases_to!(m => m->Array_0));
                assert(decreases_to!(m->Array_0 => m->Array_0[it.index() as int]));
                out.push(json_from_value(x));
            }
            proof {
                lemma_array_model(out@);
                assert(array_model(out@) =~= all.map_values(
                    |v: serde_json::Value| value_model(v),
                ));
            }
            Json::Array(out)
        },
        JsonNode::Object(pairs) => {
            let ghost all = pairs@;
            let mut out: Vec<(String, Json)> = Vec::new();
            assert(all.take(0) == Seq::<(String, serde_json::Value)>::empty());
            proof {
                lemma_pairs_finite(all);
            }
            for p in it: pairs
                invariant
                    it.seq() == all,
                    m == value_model(v),
                    m == JsonModel::Object(pairs_model(all)),
                    pairs_model(all).dom().finite(),
                    pairs_distinct(all),
                    object_model(out@) == pairs_model(all.take(it.index() as int)),
            {
                let ghost k = it.index() as int;
                proof {
                    lemma_pairs_model(all, k);
                    assert(all.take(k + 1).drop_last() == all.take(k));
                }
                let ghost before = out@;
                assert(decreases_to!(m => m->Object_0));
                assert(decreases_to!(m->Object_0 => m->Object_0[p.0@]));
                let j = json_from_value(p.1);
                out.push((p.0, j));
                assert(out@.drop_last() == before);
            }
            assert(all.take(all.len() as int) == all);
            Json::Object(out)
        },
    }
}

proof fn lemma_pairs_without(pairs: Seq<(String, serde_json::Value)>, k: int)
    requires
        0 <= k < pairs.len(),
        pairs_distinct(pairs),
    ensures
        pairs_model(pairs) == pairs_model(pairs.remove(k)).insert(
            pairs[k].0@,
            value_model(pairs[k].1),
        ),
        pairs_distinct(pairs.remove(k)),
        forall|i: int|
            0 <= i < pairs.len() - 1 ==> (#[trigger] pairs.remove(k)[i]).0@ != pairs[k].0@,
    decreases pairs.len(),
{
    let rest = pairs.remove(k);
    assert forall|i: int| 0 <= i < rest.len() implies (#[trigger] rest[i]).0@ != pairs[k].0@ by {
        assert(rest[i] == if i < k {
            pairs[i]
        } else {
            pairs[i + 1]
        });
    }
    if k == pairs.len() - 1 {
        assert(rest =~= pairs.drop_last());
    } else {
        let first = pairs.drop_last();
        lemma_pairs_without(first, k);
        assert(rest.drop_last() =~= first.remove(k));
        assert(rest.last() == pairs.last());
        assert(pairs.last().0@ != pairs[k].0@);
        assert(pairs_model(pairs) =~= pairs_model(rest).insert(
            pairs[k].0@,
            value_model(pairs[k].1),
        ));
    }
}

/// Puts a pair behind the others, and takes an earlier one with its key away.
fn put_pair(pairs: &mut Vec<(String, serde_json::Value)>, key: &str, value: serde_json::Value)
    requires
        pairs_distinct(old(pairs)@),
    ensures
        pairs_distinct(final(pairs)@),
        pairs_model(final(pairs)@) == pairs_model(old(pairs)@).insert(key@, value_model(value)),
{
    let ghost all = pairs@;
    let n = pairs.len();
    let mut i: usize = 0;
    while i < n && !same(&pairs[i].0, key)
        invariant
            pairs@ == all,
            n == all.len(),
            i <= n,
            forall|k: int| 0 <= k < i ==> (#[trigger] all[k]).0@ != key@,
        decreases n - i,
    {
        i += 1;
    }
    if i < n {
        proof {
            lemma_pairs_without(all, i as int);
        }
        let _ = pairs.remove(i);
    }
    let ghost kept = pairs@;
    pairs.push((key.to_owned(), value));
    assert(pairs@.drop_last() =~= kept);
    assert(pairs_model(pairs@) =~= pairs_model(all).insert(key@, value_model(value)));
}

fn json_to_value(j: &Json) -> (v: serde_json::Value)
    ensures
        value_model(v) == j.model(),
    decreases j,
{
    match j {
        Json::Null => value_close(JsonNode::Null),
        Json::Bool(b) => value_close(JsonNode::Bool(*b)),
        Json::Text(s) => value_close(JsonNode::Text(s.clone())),
        Json::Number(n) => {
            let number = match n {
                JsonNumber::Pos(u) => number_from_u64(*u),
                JsonNumber::Neg(i) => if *i < 0 {
                    number_from_i64(*i)
                } else {
                    number_from_u64(*i as u64)
                },
                JsonNumber::Other(n) => n.clone(),
            };
            value_close(JsonNode::Number(number))
        },
        Json::Array(items) => {
            let mut out: Vec<serde_json::Value> = Vec::new();
            let mut k: usize = 0;
            while k < items.len()
                invariant
                    decreases_to!(j => items),
                    k <= items@.len(),
                    out@.len() == k,
                    forall|i: int|
                        0 <= i < k ==> value_model(#[trigger] out@[i]) == items@[i].model(),
                decreases items@.len() - k,
            {
                out.push(json_to_value(&items[k]));
                k += 1;
            }
            proof {
                lemma_array_model(items@);
                assert(array_model(items@) =~= out@.map_values(
                    |v: serde_json::Value| value_model(v),
                ));
            }
            value_close(JsonNode::Array(out))
        },
        Json::Object(pairs) => {
            let mut out: Vec<(String, serde_json::Value)> = Vec::new();
            let mut k: usize = 0;
            assert(pairs@.take(0) == Seq::<(String, Json)>::empty());
            while k < pairs.len()
                invariant
                    decreases_to!(j => pairs),
                    k <= pairs@.len(),
                    pairs_distinct(out@),
                    pairs_model(out@) == object_model(pairs@.take(k as int)),
                decreases pairs@.len() - k,
            {
                let x = json_to_value(&pairs[k].1);
                put_pair(&mut out, &pairs[k].0, x);
                k += 1;
                assert(pairs@.take(k as int).drop_last() == pairs@.take(k - 1));
            }
            assert(pairs@.take(k as int) == pairs@);
            value_close(JsonNode::Object(out))
        },
    }
}

/// Reads a value from its text.
pub fn parse_json(bytes: &[u8]) -> (r: Result<Json, String>)
    ensures
        match r {
            Ok(j) => json_parse(bytes@) == Ok::<JsonModel, Seq<char>>(j.model()),
            Err(e) => json_parse(bytes@) == Err::<JsonModel, Seq<char>>(e@),
        },
{
    match value_from_slice(bytes) {
        Ok(v) => Ok(json_from_value(v)),
        Err(e) => Err(e),
    }
}

/// Writes a value without white space, the keys of each object in order.
pub fn canon(v: &Json) -> (r: String)
    ensures
        r@ == json_text(v.model()),
        readable_within(v.model(), MAX_DEPTH as nat) ==> reads_as(r@, v.model()),
        trimmed(r@) == r@,
        integers_only(v.model()) ==> r@ == layout(v.model()),
{
    value_to_text(&json_to_value(v))
}

/// Writes a value over several lines, indented.
pub fn pretty(v: &Json) -> (r: String)
    ensures
        r@ == json_pretty(v.model()),
{
    value_to_pretty(&json_to_value(v))
}

/// The value under a key of an object.
pub open spec fn field(m: JsonModel, key: Seq<char>) -> Option<JsonModel> {
    match m {
        JsonModel::Object(fields) => if fields.contains_key(key) {
            Some(fields[key])
        } else {
            None
        },
        _ => None,
    }
}

/// The text under a key of an object.
pub open spec fn text_field(m: JsonModel, key: Seq<char>) -> Option<Seq<char>> {
    match field(m, key) {
        Some(JsonModel::Text(s)) => Some(s),
        _ => None,
    }
}

/// A text, or the empty one.
pub open spec fn or_empty(s: Option<Seq<char>>) -> Seq<char> {
    match s {
        Some(s) => s,
        None => Seq::empty(),
    }
}

/// The list under a key of an object.
pub open spec fn list_field(m: JsonModel, key: Seq<char>) -> Option<Seq<JsonModel>> {
    match field(m, key) {
        Some(JsonModel::Array(items)) => Some(items),
        _ => None,
    }
}

/// The `u64` under a key of an object.
pub open spec fn u64_field(m: JsonModel, key: Seq<char>) -> Option<u64> {
    match field(m, key) {
        Some(JsonModel::Number(JsonNumber::Pos(u))) => Some(u),
        _ => None,
    }
}

/// The `i64` under a key of an object.
pub open spec fn i64_field(m: JsonModel, key: Seq<char>) -> Option<i64> {
    match field(m, key) {
        Some(JsonModel::Number(JsonNumber::Pos(u))) => if u <= i64::MAX {
            Some(u as i64)
        } else {
            None
        },
        Some(JsonModel::Number(JsonNumber::Neg(i))) => Some(i),
        _ => None,
    }
}

/// The texts as mathematics.
pub open spec fn texts_of(v: Seq<String>) -> Seq<Seq<char>> {
    v.map_values(|s: String| s@)
}

impl Json {
    /// An object without keys.
    pub fn object() -> (r: Json)
        ensures
            r is Object,
            r.model() == JsonModel::Object(Map::empty()),
    {
        Json::Object(Vec::new())
    }

    /// The object with one more key, or with the key's new value.
    pub fn with(self, key: &str, value: Json) -> (r: Json)
        requires
            self is Object,
        ensures
            r is Object,
            r.model() == JsonModel::Object(self.model()->Object_0.insert(key@, value.model())),
    {
        match self {
            Json::Object(pairs) => {
                let mut pairs = pairs;
                let ghost before = pairs@;
                pairs.push((key.to_owned(), value));
                assert(pairs@.drop_last() == before);
                Json::Object(pairs)
            },
            other => other,
        }
    }

    /// A text.
    pub fn text(s: &str) -> (r: Json)
        ensures
            r.model() == JsonModel::Text(s@),
    {
        Json::Text(s.to_owned())
    }

    /// A natural number.
    pub fn number(n: u64) -> (r: Json)
        ensures
            r.model() == JsonModel::Number(JsonNumber::Pos(n)),
    {
        Json::Number(JsonNumber::Pos(n))
    }

    /// An integer.
    pub fn integer(n: i64) -> (r: Json)
        ensures
            r.model() == JsonModel::Number(
                if n < 0 {
                    JsonNumber::Neg(n)
                } else {
                    JsonNumber::Pos(n as u64)
                },
            ),
    {
        Json::Number(JsonNumber::Neg(n))
    }

    /// A list.
    pub fn array(items: Vec<Json>) -> (r: Json)
        ensures
            r.model() == JsonModel::Array(array_model(items@)),
    {
        Json::Array(items)
    }

    /// A list of texts.
    pub fn texts(items: &[String]) -> (r: Json)
        ensures
            r.model() == JsonModel::Array(
                texts_of(items@).map_values(|s: Seq<char>| JsonModel::Text(s)),
            ),
    {
        let mut out: Vec<Json> = Vec::new();
        let mut i: usize = 0;
        while i < items.len()
            invariant
                i <= items@.len(),
                out@.len() == i,
                forall|k: int|
                    0 <= k < i ==> (#[trigger] out@[k]).model() == JsonModel::Text(items@[k]@),
            decreases items@.len() - i,
        {
            out.push(Json::text(&items[i]));
            i += 1;
        }
        proof {
            lemma_array_model(out@);
            assert(array_model(out@) =~= texts_of(items@).map_values(
                |s: Seq<char>| JsonModel::Text(s),
            ));
        }
        Json::Array(out)
    }

    /// The value under a key of an object.
    pub fn get(&self, key: &str) -> (r: Option<&Json>)
        ensures
            match r {
                Some(j) => field(self.model(), key@) == Some(j.model()),
                None => field(self.model(), key@) is None,
            },
    {
        match self {
            Json::Object(pairs) => {
                let mut n: usize = pairs.len();
                assert(pairs@.take(n as int) == pairs@);
                while n > 0
                    invariant
                        n <= pairs@.len(),
                        self.model() == JsonModel::Object(object_model(pairs@)),
                        field(self.model(), key@) == field(
                            JsonModel::Object(object_model(pairs@.take(n as int))),
                            key@,
                        ),
                    decreases n,
                {
                    assert(pairs@.take(n as int).drop_last() == pairs@.take(n - 1));
                    if same(&pairs[n - 1].0, key) {
                        return Some(&pairs[n - 1].1);
                    }
                    n -= 1;
                }
                None
            },
            _ => None,
        }
    }

    /// The text under a key of an object.
    pub fn get_text(&self, key: &str) -> (r: Option<String>)
        ensures
            match r {
                Some(s) => text_field(self.model(), key@) == Some(s@),
                None => text_field(self.model(), key@) is None,
            },
    {
        match self.get(key) {
            Some(Json::Text(s)) => Some(s.clone()),
            _ => None,
        }
    }

    /// The text under a key of an object; without one, the empty text.
    pub fn get_word(&self, key: &str) -> (r: String)
        ensures
            r@ == or_empty(text_field(self.model(), key@)),
    {
        match self.get_text(key) {
            Some(s) => s,
            None => String::new(),
        }
    }

    /// The list under a key of an object.
    pub fn get_list(&self, key: &str) -> (r: Option<&Vec<Json>>)
        ensures
            match r {
                Some(items) => list_field(self.model(), key@) == Some(array_model(items@)),
                None => list_field(self.model(), key@) is None,
            },
    {
        match self.get(key) {
            Some(Json::Array(items)) => Some(items),
            _ => None,
        }
    }

    /// The `u64` under a key of an object.
    pub fn get_u64(&self, key: &str) -> (r: Option<u64>)
        ensures
            r == u64_field(self.model(), key@),
    {
        match self.get(key) {
            Some(Json::Number(n)) => match n {
                JsonNumber::Pos(u) => Some(*u),
                JsonNumber::Neg(i) => if *i < 0 {
                    None
                } else {
                    Some(*i as u64)
                },
                JsonNumber::Other(n) => number_open(n).0,
            },
            _ => None,
        }
    }

    /// The `i64` under a key of an object.
    pub fn get_i64(&self, key: &str) -> (r: Option<i64>)
        ensures
            r == i64_field(self.model(), key@),
    {
        match self.get(key) {
            Some(Json::Number(n)) => match n {
                JsonNumber::Pos(u) => if *u <= i64::MAX as u64 {
                    Some(*u as i64)
                } else {
                    None
                },
                JsonNumber::Neg(i) => Some(*i),
                JsonNumber::Other(n) => {
                    let (u, i) = number_open(n);
                    match u {
                        Some(u) => if u <= i64::MAX as u64 {
                            Some(u as i64)
                        } else {
                            None
                        },
                        None => i,
                    }
                },
            },
            _ => None,
        }
    }

    /// The same value once more.
    pub fn copy(&self) -> (r: Json)
        ensures
            r.model() == self.model(),
    {
        json_from_value(json_to_value(self))
    }
}

proof fn lemma_object_without(pairs: Seq<(String, Json)>, k: int)
    requires
        0 <= k < pairs.len(),
        forall|j: int| 0 <= j < pairs.len() && j != k ==> (#[trigger] pairs[j]).0@ != pairs[k].0@,
    ensures
        object_model(pairs) == object_model(pairs.remove(k)).insert(
            pairs[k].0@,
            pairs[k].1.model(),
        ),
    decreases pairs.len(),
{
    if k == pairs.len() - 1 {
        assert(pairs.remove(k) =~= pairs.drop_last());
    } else {
        let first = pairs.drop_last();
        assert forall|j: int| 0 <= j < first.len() && j != k implies (#[trigger] first[j]).0@
            != first[k].0@ by {
            assert(first[j] == pairs[j]);
        }
        lemma_object_without(first, k);
        let rest = pairs.remove(k);
        assert(rest.drop_last() =~= first.remove(k));
        assert(rest.last() == pairs.last());
        assert(object_model(pairs) =~= object_model(rest).insert(
            pairs[k].0@,
            pairs[k].1.model(),
        ));
    }
}

/// The order in which the keys of an object are given does not matter to its text.
pub proof fn law_canon_ignores_key_order(a: Seq<(String, Json)>, b: Seq<(String, Json)>)
    requires
        a.to_multiset() == b.to_multiset(),
        forall|i: int, j: int|
            0 <= i < j < a.len() ==> (#[trigger] a[i]).0@ != (#[trigger] a[j]).0@,
    ensures
        object_model(a) == object_model(b),
        json_text(JsonModel::Object(object_model(a))) == json_text(
            JsonModel::Object(object_model(b)),
        ),
    decreases a.len(),
{
    broadcast use vstd::seq_lib::group_to_multiset_ensures;

    vstd::seq_lib::to_multiset_len(a);
    vstd::seq_lib::to_multiset_len(b);
    if a.len() == 0 {
        assert(a =~= b);
    } else {
        let x = a.last();
        assert(a.contains(x));
        assert(b.to_multiset().count(x) > 0);
        assert(b.contains(x));
        let k = choose|k: int| 0 <= k < b.len() && b[k] == x;
        let a1 = a.drop_last();
        let b1 = b.remove(k);
        assert(a1 =~= a.remove(a.len() - 1));
        assert(a1.to_multiset() == b1.to_multiset());
        law_canon_ignores_key_order(a1, b1);
        assert forall|j: int| 0 <= j < b.len() && j != k implies (#[trigger] b[j]).0@
            != b[k].0@ by {
            let y = b[j];
            assert(b1.contains(y)) by {
                assert(y == b1[if j < k {
                    j
                } else {
                    j - 1
                }]);
            }
            assert(b1.to_multiset().count(y) > 0);
            assert(a1.contains(y));
            let i = choose|i: int| 0 <= i < a1.len() && a1[i] == y;
            assert(a[i] == y);
            assert(a[i].0@ != a[a.len() - 1].0@);
        }
        lemma_object_without(b, k);
    }
}

/// An object has under a key what was put there last, and under every other key what it
/// had; where nothing was put, and in what is no object, there is nothing.
pub proof fn law_fields_are_found(
    fields: Map<Seq<char>, JsonModel>,
    key: Seq<char>,
    value: JsonModel,
    other: Seq<char>,
    m: JsonModel,
)
    ensures
        field(JsonModel::Object(fields.insert(key, value)), key) == Some(value),
        other != key ==> field(JsonModel::Object(fields.insert(key, value)), other) == field(
            JsonModel::Object(fields),
            other,
        ),
        !fields.contains_key(key) ==> field(JsonModel::Object(fields), key) is None,
        !(m is Object) ==> field(m, key) is None,
{
}

/// A field is read as a text, a list or a number exactly where it is one, and then as it
/// is: a list with all its items, a number with its value.
pub proof fn law_fields_are_read_by_kind(
    fields: Map<Seq<char>, JsonModel>,
    key: Seq<char>,
    s: Seq<char>,
    items: Seq<JsonModel>,
    u: u64,
    i: i64,
    value: JsonModel,
)
    ensures
        text_field(JsonModel::Object(fields.insert(key, JsonModel::Text(s))), key) == Some(s),
        list_field(JsonModel::Object(fields.insert(key, JsonModel::Array(items))), key) == Some(
            items,
        ),
        u64_field(
            JsonModel::Object(fields.insert(key, JsonModel::Number(JsonNumber::Pos(u)))),
            key,
        ) == Some(u),
        i64_field(
            JsonModel::Object(fields.insert(key, JsonModel::Number(JsonNumber::Neg(i)))),
            key,
        ) == Some(i),
        u <= i64::MAX ==> i64_field(
            JsonModel::Object(fields.insert(key, JsonModel::Number(JsonNumber::Pos(u)))),
            key,
        ) == Some(u as i64),
        u > i64::MAX ==> i64_field(
            JsonModel::Object(fields.insert(key, JsonModel::Number(JsonNumber::Pos(u)))),
            key,
        ) is None,
        !(value is Text) ==> text_field(JsonModel::Object(fields.insert(key, value)), key) is None,
        !(value is Array) ==> list_field(
            JsonModel::Object(fields.insert(key, value)),
            key,
        ) is None,
        !(value is Number) ==> {
            &&& u64_field(JsonModel::Object(fields.insert(key, value)), key) is None
            &&& i64_field(JsonModel::Object(fields.insert(key, value)), key) is None
        },
        value matches JsonModel::Number(JsonNumber::Other(_)) ==> {
            &&& u64_field(JsonModel::Object(fields.insert(key, value)), key) is None
            &&& i64_field(JsonModel::Object(fields.insert(key, value)), key) is None
        },
        u64_field(
            JsonModel::Object(fields.insert(key, JsonModel::Number(JsonNumber::Neg(i)))),
            key,
        ) is None,
        or_empty(Some(s)) == s,
        or_empty(None) == Seq::<char>::empty(),
{
}

/// A field that is missing is read as nothing, whatever is asked for.
pub proof fn law_missing_fields_are_nothing(m: JsonModel, key: Seq<char>)
    requires
        m matches JsonModel::Object(fields) ==> !fields.contains_key(key),
    ensures
        text_field(m, key) is None,
        list_field(m, key) is None,
        u64_field(m, key) is None,
        i64_field(m, key) is None,
{
}

/// The items of two lists put together are those of the one and then those of the other.
pub proof fn law_lists_join(a: Seq<Json>, b: Seq<Json>, item: Json)
    ensures
        array_model(a + b) == array_model(a) + array_model(b),
        array_model(seq![item]) == seq![item.model()],
{
    lemma_array_model(a);
    lemma_array_model(b);
    lemma_array_model(a + b);
    lemma_array_model(seq![item]);
    assert(array_model(a + b) =~= array_model(a) + array_model(b));
    assert(array_model(seq![item]) =~= seq![item.model()]);
}

/// The pairs of two objects put together: what the later has counts, and beside it what
/// only the earlier has.
pub proof fn law_objects_join(a: Seq<(String, Json)>, b: Seq<(String, Json)>, p: (String, Json))
    ensures
        object_model(a + b) == object_model(a).union_prefer_right(object_model(b)),
        object_model(seq![p]) == Map::<Seq<char>, JsonModel>::empty().insert(p.0@, p.1.model()),
    decreases b.len(),
{
    assert(seq![p].drop_last() =~= Seq::<(String, Json)>::empty());
    assert(object_model(seq![p].drop_last()) == Map::<Seq<char>, JsonModel>::empty());
    if b.len() == 0 {
        assert(a + b =~= a);
        assert(object_model(b) == Map::<Seq<char>, JsonModel>::empty());
        assert(object_model(a).union_prefer_right(object_model(b)) =~= object_model(a));
    } else {
        law_objects_join(a, b.drop_last(), p);
        assert((a + b).drop_last() =~= a + b.drop_last());
        assert((a + b).last() == b.last());
        assert(object_model(a + b) =~= object_model(a).union_prefer_right(object_model(b)));
    }
}

/// A value stands for what it holds.
pub proof fn law_values_stand_for_what_they_hold(
    b: bool,
    u: u64,
    i: i64,
    s: String,
    items: Vec<Json>,
    k: int,
)
    ensures
        Json::Null.model() == JsonModel::Null,
        Json::Bool(b).model() == JsonModel::Bool(b),
        Json::Number(JsonNumber::Pos(u)).model() == JsonModel::Number(JsonNumber::Pos(u)),
        i < 0 ==> Json::Number(JsonNumber::Neg(i)).model() == JsonModel::Number(
            JsonNumber::Neg(i),
        ),
        i >= 0 ==> Json::Number(JsonNumber::Neg(i)).model() == JsonModel::Number(
            JsonNumber::Pos(i as u64),
        ),
        Json::Text(s).model() == JsonModel::Text(s@),
        Json::Array(items).model() matches JsonModel::Array(all) && all.len() == items@.len() && (0
            <= k < items@.len() ==> all[k] == items@[k].model()),
{
    lemma_array_model(items@);
}

/// Of texts each is seen, in its place.
pub proof fn law_texts_are_seen(v: Seq<String>)
    ensures
        texts_of(v).len() == v.len(),
        forall|i: int| 0 <= i < v.len() ==> #[trigger] texts_of(v)[i] == v[i]@,
{
}

/// A number that is carried as it is stands for the natural number that it reads as, else
/// for the integer, else for itself.
pub proof fn law_carried_numbers(n: serde_json::Number, u: u64, i: i64, either: Option<i64>)
    ensures
        number_parts(n) == (Some(u), either) ==> Json::Number(JsonNumber::Other(n)).model()
            == JsonModel::Number(JsonNumber::Pos(u)),
        number_parts(n) == (None::<u64>, Some(i)) ==> Json::Number(JsonNumber::Other(n)).model()
            == JsonModel::Number(JsonNumber::Neg(i)),
        number_parts(n) == (None::<u64>, None::<i64>) ==> Json::Number(
            JsonNumber::Other(n),
        ).model() == JsonModel::Number(JsonNumber::Other(n)),
{
}

} // verus!
