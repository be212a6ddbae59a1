//! Conversion between JSON values and runtime values.
//!
//! Arguments of the reflection functions are JSON on their way in, and what
//! they return is JSON on its way out.
//!
//! - JSON objects lower to maps with values of unknown type; the runtime
//!   coerces a map to a class instance by the parameter's declared type.
//! - Union provenance is not tracked. An absent optional field comes back as
//!   null.

use vstd::prelude::*;
use vstd::string::*;

use crate::assoc::{distinct_keys, key_position, lemma_key_position, lemma_put_distinct, put};
use crate::measure::Measure;

verus! {

// ---------------------------------------------------------------------------
// Values
// ---------------------------------------------------------------------------

/// A JSON value. An object pairs keys with values; no key occurs there twice,
/// and the order of the pairs carries no meaning. A `NegInt` is negative and a
/// `Float` is finite.
#[derive(Debug)]
pub enum JsonValue {
    Null,
    Bool(bool),
    PosInt(u64),
    NegInt(i64),
    Float(Measure),
    Text(String),
    Array(Vec<JsonValue>),
    Object(Vec<(String, JsonValue)>),
}

/// What a [`JsonValue`] says.
pub ghost enum JsonModel {
    Null,
    Bool(bool),
    PosInt(u64),
    NegInt(i64),
    Float(Measure),
    Text(Seq<char>),
    Array(Seq<JsonModel>),
    Object(Seq<(Seq<char>, JsonModel)>),
}

/// A declared type, as far as the bridge tells types apart.
#[derive(Clone, Copy, Debug, PartialEq, Eq, Structural)]
pub enum ValueType {
    Unknown,
    Text,
    Declared,
}

/// A value of the runtime. `Opaque` stands for the kinds of values that have
/// no JSON form, by the name of their type.
#[derive(Debug)]
pub enum BexExternalValue {
    Null,
    Int(i64),
    Float(Measure),
    Bool(bool),
    Text(String),
    Array { element_type: ValueType, items: Vec<BexExternalValue> },
    Mapping {
        key_type: ValueType,
        value_type: ValueType,
        entries: Vec<(String, BexExternalValue)>,
    },
    Instance { class_name: String, fields: Vec<(String, BexExternalValue)> },
    Variant { enum_name: String, variant_name: String },
    Union { value: Box<BexExternalValue> },
    Opaque { kind: String },
}

/// What a [`BexExternalValue`] says.
pub ghost enum BexModel {
    Null,
    Int(i64),
    Float(Measure),
    Bool(bool),
    Text(Seq<char>),
    Array { element_type: ValueType, items: Seq<BexModel> },
    Mapping {
        key_type: ValueType,
        value_type: ValueType,
        entries: Seq<(Seq<char>, BexModel)>,
    },
    Instance { class_name: Seq<char>, fields: Seq<(Seq<char>, BexModel)> },
    Variant { enum_name: Seq<char>, variant_name: Seq<char> },
    Union { value: Box<BexModel> },
    Opaque { kind: Seq<char> },
}

/// What a JSON value says.
pub open spec fn json_model(json: JsonValue) -> JsonModel
    decreases json,
{
    match json {
        JsonValue::Null => JsonModel::Null,
        JsonValue::Bool(b) => JsonModel::Bool(b),
        JsonValue::PosInt(n) => JsonModel::PosInt(n),
        JsonValue::NegInt(n) => JsonModel::NegInt(n),
        JsonValue::Float(x) => JsonModel::Float(x),
        JsonValue::Text(s) => JsonModel::Text(s@),
        JsonValue::Array(items) => JsonModel::Array(json_models(items@)),
        JsonValue::Object(pairs) => JsonModel::Object(json_pairs(pairs@)),
    }
}

/// What some JSON values say.
pub open spec fn json_models(items: Seq<JsonValue>) -> Seq<JsonModel>
    decreases items,
{
    if items.len() == 0 {
        Seq::empty()
    } else {
        json_models(items.drop_last()).push(json_model(items.last()))
    }
}

/// What some pairs of a key and a JSON value say.
pub open spec fn json_pairs(pairs: Seq<(String, JsonValue)>) -> Seq<(Seq<char>, JsonModel)>
    decreases pairs,
{
    if pairs.len() == 0 {
        Seq::empty()
    } else {
        json_pairs(pairs.drop_last()).push((pairs.last().0@, json_model(pairs.last().1)))
    }
}

/// What a runtime value says.
pub open spec fn bex_model(value: BexExternalValue) -> BexModel
    decreases value,
{
    match value {
        BexExternalValue::Null => BexModel::Null,
        BexExternalValue::Int(i) => BexModel::Int(i),
        BexExternalValue::Float(x) => BexModel::Float(x),
        BexExternalValue::Bool(b) => BexModel::Bool(b),
        BexExternalValue::Text(s) => BexModel::Text(s@),
        BexExternalValue::Array { element_type, items } => BexModel::Array {
            element_type,
            items: bex_models(items@),
        },
        BexExternalValue::Mapping { key_type, value_type, entries } => BexModel::Mapping {
            key_type,
            value_type,
            entries: bex_pairs(entries@),
        },
        BexExternalValue::Instance { class_name, fields } => BexModel::Instance {
            class_name: class_name@,
            fields: bex_pairs(fields@),
        },
        BexExternalValue::Variant { enum_name, variant_name } => BexModel::Variant {
            enum_name: enum_name@,
            variant_name: variant_name@,
        },
        BexExternalValue::Union { value } => BexModel::Union { value: Box::new(bex_model(*value)) },
        BexExternalValue::Opaque { kind } => BexModel::Opaque { kind: kind@ },
    }
}

/// What some runtime values say.
pub open spec fn bex_models(items: Seq<BexExternalValue>) -> Seq<BexModel>
    decreases items,
{
    if items.len() == 0 {
        Seq::empty()
    } else {
        bex_models(items.drop_last()).push(bex_model(items.last()))
    }
}

/// What some pairs of a key and a runtime value say.
pub open spec fn bex_pairs(pairs: Seq<(String, BexExternalValue)>) -> Seq<(Seq<char>, BexModel)>
    decreases pairs,
{
    if pairs.len() == 0 {
        Seq::empty()
    } else {
        bex_pairs(pairs.drop_last()).push((pairs.last().0@, bex_model(pairs.last().1)))
    }
}

// ---------------------------------------------------------------------------
// JSON to runtime values
// ---------------------------------------------------------------------------

/// An integer that does not fit a signed word, as the nearest double, ties to
/// the even one: 53 bits of it are kept.
pub open spec fn wide_double_bits(n: u64) -> u64 {
    let kept = n as int / 2048;
    let rest = n as int % 2048;
    let rounded = if rest > 1024 || (rest == 1024 && kept % 2 == 1) {
        kept + 1
    } else {
        kept
    };
    (0x43E0_0000_0000_0000 + (rounded - 0x10_0000_0000_0000)) as u64
}

/// The runtime value of a JSON value.
pub open spec fn lower(json: JsonModel) -> BexModel
    decreases json,
{
    match json {
        JsonModel::Null => BexModel::Null,
        JsonModel::Bool(b) => BexModel::Bool(b),
        JsonModel::PosInt(n) => if n <= i64::MAX {
            BexModel::Int(n as i64)
        } else {
            BexModel::Float(Measure { bits: wide_double_bits(n) })
        },
        JsonModel::NegInt(n) => BexModel::Int(n),
        JsonModel::Float(x) => BexModel::Float(x),
        JsonModel::Text(s) => BexModel::Text(s),
        JsonModel::Array(items) => BexModel::Array {
            element_type: ValueType::Unknown,
            items: lower_all(items),
        },
        JsonModel::Object(pairs) => BexModel::Mapping {
            key_type: ValueType::Text,
            value_type: ValueType::Unknown,
            entries: lower_pairs(pairs),
        },
    }
}

/// The runtime values of some JSON values.
pub open spec fn lower_all(items: Seq<JsonModel>) -> Seq<BexModel>
    decreases items,
{
    if items.len() == 0 {
        Seq::empty()
    } else {
        lower_all(items.drop_last()).push(lower(items.last()))
    }
}

/// The runtime values of the pairs of an object.
pub open spec fn lower_pairs(pairs: Seq<(Seq<char>, JsonModel)>) -> Seq<(Seq<char>, BexModel)>
    decreases pairs,
{
    if pairs.len() == 0 {
        Seq::empty()
    } else {
        lower_pairs(pairs.drop_last()).push((pairs.last().0, lower(pairs.last().1)))
    }
}

/// The nearest double of an integer that does not fit a signed word.
fn wide_double(n: u64) -> (r: Measure)
    requires
        n > i64::MAX,
    ensures
        r.bits == wide_double_bits(n),
{
    let kept: u64 = n / 2048;
    let rest: u64 = n % 2048;
    let rounded: u64 = if rest > 1024 || (rest == 1024 && kept % 2 == 1) {
        kept + 1
    } else {
        kept
    };
    Measure { bits: 0x43E0_0000_0000_0000 + (rounded - 0x10_0000_0000_0000) }
}

/// Converts a JSON value to a value suitable as an argument of a call into the
/// runtime.
pub fn json_to_bex_value(json: &JsonValue) -> (r: BexExternalValue)
    ensures
        bex_model(r) == lower(json_model(*json)),
    decreases json,
{
    match json {
        JsonValue::Null => BexExternalValue::Null,
        JsonValue::Bool(b) => BexExternalValue::Bool(*b),
        JsonValue::PosInt(n) => {
            if *n <= i64::MAX as u64 {
                BexExternalValue::Int(*n as i64)
            } else {
                BexExternalValue::Float(wide_double(*n))
            }
        },
        JsonValue::NegInt(n) => BexExternalValue::Int(*n),
        JsonValue::Float(x) => BexExternalValue::Float(*x),
        JsonValue::Text(s) => BexExternalValue::Text(s.clone()),
        JsonValue::Array(items) => {
            let mut out: Vec<BexExternalValue> = Vec::new();
            let mut k: usize = 0;
            proof {
                assert(items@.take(0) =~= Seq::<JsonValue>::empty());
                assert(bex_models(out@) =~= lower_all(json_models(items@.take(0))));
            }
            while k < items.len()
                invariant
                    k <= items.len(),
                    bex_models(out@) == lower_all(json_models(items@.take(k as int))),
                    decreases_to!(json => items@),
                decreases items.len() - k,
            {
                let value = json_to_bex_value(&items[k]);
                let ghost before = out@;
                out.push(value);
                proof {
                    let now = items@.take(k + 1);
                    assert(now.drop_last() =~= items@.take(k as int));
                    assert(out@.drop_last() =~= before);
                    let models = json_models(now);
                    assert(models.drop_last() =~= json_models(items@.take(k as int)));
                }
                k = k + 1;
            }
            assert(items@.take(items@.len() as int) =~= items@);
            BexExternalValue::Array { element_type: ValueType::Unknown, items: out }
        },
        JsonValue::Object(pairs) => {
            let mut out: Vec<(String, BexExternalValue)> = Vec::new();
            let mut k: usize = 0;
            proof {
                assert(pairs@.take(0) =~= Seq::<(String, JsonValue)>::empty());
                assert(bex_pairs(out@) =~= lower_pairs(json_pairs(pairs@.take(0))));
            }
            while k < pairs.len()
                invariant
                    k <= pairs.len(),
                    bex_pairs(out@) == lower_pairs(json_pairs(pairs@.take(k as int))),
                    decreases_to!(json => pairs@),
                decreases pairs.len() - k,
            {
                let value = json_to_bex_value(&pairs[k].1);
                let ghost before = out@;
                out.push((pairs[k].0.clone(), value));
                proof {
                    let now = pairs@.take(k + 1);
                    assert(now.drop_last() =~= pairs@.take(k as int));
                    assert(out@.drop_last() =~= before);
                    let models = json_pairs(now);
                    assert(models.drop_last() =~= json_pairs(pairs@.take(k as int)));
                }
                k = k + 1;
            }
            assert(pairs@.take(pairs@.len() as int) =~= pairs@);
            BexExternalValue::Mapping {
                key_type: ValueType::Text,
                value_type: ValueType::Unknown,
                entries: out,
            }
        },
    }
}

// ---------------------------------------------------------------------------
// Runtime values to JSON
// ---------------------------------------------------------------------------

/// Why a runtime value has no JSON form.
#[derive(Debug)]
pub enum BridgeError {
    /// JSON has no infinities and no non-numbers.
    NonFinite { value: Measure },
    /// Values of this kind have no JSON form.
    NotJson { kind: String },
}

/// What a [`BridgeError`] says.
pub ghost enum BridgeErrorModel {
    NonFinite { value: Measure },
    NotJson { kind: Seq<char> },
}

impl DeepView for BridgeError {
    type V = BridgeErrorModel;

    open spec fn deep_view(&self) -> BridgeErrorModel {
        match self {
            BridgeError::NonFinite { value } => BridgeErrorModel::NonFinite { value: *value },
            BridgeError::NotJson { kind } => BridgeErrorModel::NotJson { kind: kind@ },
        }
    }
}

/// The display text of a measure that is not finite.
pub open spec fn non_finite_text(value: Measure) -> Seq<char> {
    if value.nan() {
        "NaN"@
    } else if value.negative() {
        "-inf"@
    } else {
        "inf"@
    }
}

impl BridgeError {
    /// What to tell the user. A `NonFinite` error is about a measure that is
    /// not finite.
    pub fn message(&self) -> (r: String)
        ensures
            r@ == match self.deep_view() {
                BridgeErrorModel::NonFinite { value }
                    => "non-finite float cannot be encoded as JSON: "@ + non_finite_text(value),
                BridgeErrorModel::NotJson { kind } => "cannot convert "@ + kind + " to JSON"@,
            },
    {
        match self {
            BridgeError::NonFinite { value } => {
                let mut out = String::from_str("non-finite float cannot be encoded as JSON: ");
                if value.is_nan() {
                    out.append("NaN");
                } else if value.is_negative() {
                    out.append("-inf");
                } else {
                    out.append("inf");
                }
                out
            },
            BridgeError::NotJson { kind } => {
                let mut out = String::from_str("cannot convert ");
                out.append(kind.as_str());
                out.append(" to JSON");
                out
            },
        }
    }
}

/// The JSON form of a runtime value, or the first reason why there is none.
pub open spec fn lift(value: BexModel) -> Result<JsonModel, BridgeErrorModel>
    decreases value,
{
    match value {
        BexModel::Null => Ok(JsonModel::Null),
        BexModel::Int(i) => if i >= 0 {
            Ok(JsonModel::PosInt(i as u64))
        } else {
            Ok(JsonModel::NegInt(i))
        },
        BexModel::Float(x) => if x.finite() {
            Ok(JsonModel::Float(x))
        } else {
            Err(BridgeErrorModel::NonFinite { value: x })
        },
        BexModel::Bool(b) => Ok(JsonModel::Bool(b)),
        BexModel::Text(s) => Ok(JsonModel::Text(s)),
        BexModel::Array { element_type, items } => match lift_all(items) {
            Ok(out) => Ok(JsonModel::Array(out)),
            Err(e) => Err(e),
        },
        BexModel::Mapping { key_type, value_type, entries } => match lift_pairs(entries) {
            Ok(out) => Ok(JsonModel::Object(out)),
            Err(e) => Err(e),
        },
        BexModel::Instance { class_name, fields } => match lift_pairs(fields) {
            Ok(out) => Ok(JsonModel::Object(out)),
            Err(e) => Err(e),
        },
        BexModel::Variant { enum_name, variant_name } => Ok(JsonModel::Text(variant_name)),
        BexModel::Union { value } => lift(*value),
        BexModel::Opaque { kind } => Err(BridgeErrorModel::NotJson { kind }),
    }
}

/// The JSON forms of some runtime values.
pub open spec fn lift_all(items: Seq<BexModel>) -> Result<Seq<JsonModel>, BridgeErrorModel>
    decreases items,
{
    if items.len() == 0 {
        Ok(Seq::empty())
    } else {
        match lift_all(items.drop_last()) {
            Err(e) => Err(e),
            Ok(front) => match lift(items.last()) {
                Err(e) => Err(e),
                Ok(json) => Ok(front.push(json)),
            },
        }
    }
}

/// The object of some pairs of a key and a runtime value.
pub open spec fn lift_pairs(pairs: Seq<(Seq<char>, BexModel)>) -> Result<
    Seq<(Seq<char>, JsonModel)>,
    BridgeErrorModel,
>
    decreases pairs,
{
    if pairs.len() == 0 {
        Ok(Seq::empty())
    } else {
        match lift_pairs(pairs.drop_last()) {
            Err(e) => Err(e),
            Ok(front) => match lift(pairs.last().1) {
                Err(e) => Err(e),
                Ok(json) => Ok(put(front, pairs.last().0, json)),
            },
        }
    }
}

/// The result of a conversion says what `want` says.
pub open spec fn lifted(
    r: Result<JsonValue, BridgeError>,
    want: Result<JsonModel, BridgeErrorModel>,
) -> bool {
    match r {
        Ok(json) => want == Ok::<JsonModel, BridgeErrorModel>(json_model(json)),
        Err(e) => want == Err::<JsonModel, BridgeErrorModel>(e.deep_view()),
    }
}

/// An error while converting a front part is the error of the whole.
proof fn lemma_lift_all_err(items: Seq<BexModel>, n: int)
    requires
        0 <= n <= items.len(),
        lift_all(items.take(n)) is Err,
    ensures
        lift_all(items) == lift_all(items.take(n)),
    decreases items.len() - n,
{
    if n < items.len() {
        assert(items.take(n + 1).drop_last() =~= items.take(n));
        lemma_lift_all_err(items, n + 1);
    } else {
        assert(items.take(n) =~= items);
    }
}

/// An error while converting a front part is the error of the whole.
proof fn lemma_lift_pairs_err(pairs: Seq<(Seq<char>, BexModel)>, n: int)
    requires
        0 <= n <= pairs.len(),
        lift_pairs(pairs.take(n)) is Err,
    ensures
        lift_pairs(pairs) == lift_pairs(pairs.take(n)),
    decreases pairs.len() - n,
{
    if n < pairs.len() {
        assert(pairs.take(n + 1).drop_last() =~= pairs.take(n));
        lemma_lift_pairs_err(pairs, n + 1);
    } else {
        assert(pairs.take(n) =~= pairs);
    }
}

/// What some values say, one by one.
proof fn lemma_bex_models(items: Seq<BexExternalValue>)
    ensures
        bex_models(items).len() == items.len(),
        forall|k: int|
            0 <= k < items.len() ==> #[trigger] bex_models(items)[k] == bex_model(items[k]),
    decreases items.len(),
{
    if items.len() > 0 {
        lemma_bex_models(items.drop_last());
        assert forall|k: int| 0 <= k < items.len() implies #[trigger] bex_models(items)[k]
            == bex_model(items[k]) by {
            if k < items.len() - 1 {
                assert(bex_models(items.drop_last())[k] == bex_model(items.drop_last()[k]));
            }
        }
    }
}

/// What some pairs say, one by one.
proof fn lemma_bex_pairs(pairs: Seq<(String, BexExternalValue)>)
    ensures
        bex_pairs(pairs).len() == pairs.len(),
        forall|k: int|
            0 <= k < pairs.len() ==> #[trigger] bex_pairs(pairs)[k] == (
                pairs[k].0@,
                bex_model(pairs[k].1),
            ),
    decreases pairs.len(),
{
    if pairs.len() > 0 {
        let front = pairs.drop_last();
        lemma_bex_pairs(front);
        assert forall|k: int| 0 <= k < pairs.len() implies #[trigger] bex_pairs(pairs)[k] == (
            pairs[k].0@,
            bex_model(pairs[k].1),
        ) by {
            if k < pairs.len() - 1 {
                assert(bex_pairs(front)[k] == (front[k].0@, bex_model(front[k].1)));
            }
        }
    }
}

/// What some pairs say, one by one.
proof fn lemma_json_pairs(pairs: Seq<(String, JsonValue)>)
    ensures
        json_pairs(pairs).len() == pairs.len(),
        forall|k: int|
            0 <= k < pairs.len() ==> #[trigger] json_pairs(pairs)[k] == (
                pairs[k].0@,
                json_model(pairs[k].1),
            ),
    decreases pairs.len(),
{
    if pairs.len() > 0 {
        let front = pairs.drop_last();
        lemma_json_pairs(front);
        assert forall|k: int| 0 <= k < pairs.len() implies #[trigger] json_pairs(pairs)[k] == (
            pairs[k].0@,
            json_model(pairs[k].1),
        ) by {
            if k < pairs.len() - 1 {
                assert(json_pairs(front)[k] == (front[k].0@, json_model(front[k].1)));
            }
        }
    }
}

/// Puts a JSON value under a key of an object.
fn put_json(pairs: &mut Vec<(String, JsonValue)>, key: String, value: JsonValue)
    ensures
        json_pairs(final(pairs)@) == put(json_pairs(old(pairs)@), key@, json_model(value)),
{
    let ghost before = pairs@;
    let ghost models = json_pairs(pairs@);
    let ghost k = key@;
    let ghost p = crate::assoc::keyed(models, k);
    proof {
        lemma_json_pairs(before);
    }
    let mut i: usize = 0;
    while i < pairs.len()
        invariant
            i <= pairs.len(),
            pairs@ == before,
            before == old(pairs)@,
            models == json_pairs(before),
            models.len() == before.len(),
            forall|j: int|
                0 <= j < before.len() ==> #[trigger] models[j] == (
                    before[j].0@,
                    json_model(before[j].1),
                ),
            k == key@,
            p == crate::assoc::keyed(models, k),
            forall|j: int| 0 <= j < i ==> !#[trigger] p(j),
        decreases pairs.len() - i,
    {
        assert(models[i as int].0 == before[i as int].0@);
        if crate::text::same_text(pairs[i].0.as_str(), key.as_str()) {
            proof {
                assert(p(i as int));
                crate::text::lemma_seek_is(p, 0, models.len() as int, i as int);
            }
            let ghost v = json_model(value);
            pairs.set(i, (key, value));
            proof {
                lemma_json_pairs(pairs@);
                assert(json_pairs(pairs@) =~= models.update(i as int, (k, v)));
            }
            return;
        }
        assert(!p(i as int));
        i = i + 1;
    }
    proof {
        crate::text::lemma_seek_is(p, 0, models.len() as int, i as int);
    }
    pairs.push((key, value));
    assert(pairs@.drop_last() =~= before);
}

/// The JSON object of some pairs of a key and a runtime value.
fn bex_pairs_to_json(pairs: &Vec<(String, BexExternalValue)>) -> (r: Result<
    JsonValue,
    BridgeError,
>)
    ensures
        lifted(
            r,
            match lift_pairs(bex_pairs(pairs@)) {
                Ok(out) => Ok(JsonModel::Object(out)),
                Err(e) => Err(e),
            },
        ),
    decreases pairs,
{
    let ghost models = bex_pairs(pairs@);
    let mut out: Vec<(String, JsonValue)> = Vec::new();
    let mut k: usize = 0;
    proof {
        lemma_bex_pairs(pairs@);
        assert(models.take(0) =~= Seq::<(Seq<char>, BexModel)>::empty());
        assert(json_pairs(out@) =~= Seq::<(Seq<char>, JsonModel)>::empty());
    }
    while k < pairs.len()
        invariant
            k <= pairs.len(),
            models == bex_pairs(pairs@),
            models.len() == pairs@.len(),
            forall|j: int|
                0 <= j < pairs@.len() ==> #[trigger] models[j] == (
                    pairs@[j].0@,
                    bex_model(pairs@[j].1),
                ),
            lift_pairs(models.take(k as int)) == Ok::<
                Seq<(Seq<char>, JsonModel)>,
                BridgeErrorModel,
            >(json_pairs(out@)),
        decreases pairs.len() - k,
    {
        proof {
            assert(models.take(k + 1).drop_last() =~= models.take(k as int));
            assert(models.take(k + 1).last() == models[k as int]);
        }
        match bex_to_json_value(&pairs[k].1) {
            Ok(json) => {
                put_json(&mut out, pairs[k].0.clone(), json);
            },
            Err(e) => {
                proof {
                    lemma_lift_pairs_err(models, k + 1);
                }
                return Err(e);
            },
        }
        k = k + 1;
    }
    assert(models.take(models.len() as int) =~= models);
    Ok(JsonValue::Object(out))
}

/// Converts a value returned by the runtime into JSON. The inverse of
/// [`json_to_bex_value`] for the shapes the reflection functions return.
///
/// Handles what a call can produce: primitives, arrays, maps, class instances
/// (projected to JSON objects), enum variants (projected to their variant
/// name), and unions (unwrapped to the inner value).
pub fn bex_to_json_value(value: &BexExternalValue) -> (r: Result<JsonValue, BridgeError>)
    ensures
        lifted(r, lift(bex_model(*value))),
        match lift(bex_model(*value)) {
            Ok(json) => r is Ok && json_model(r->Ok_0) == json,
            Err(e) => r is Err && r->Err_0.deep_view() == e,
        },
    decreases value,
{
    match value {
        BexExternalValue::Null => Ok(JsonValue::Null),
        BexExternalValue::Int(i) => {
            if *i >= 0 {
                Ok(JsonValue::PosInt(*i as u64))
            } else {
                Ok(JsonValue::NegInt(*i))
            }
        },
        BexExternalValue::Float(x) => {
            if x.is_finite() {
                Ok(JsonValue::Float(*x))
            } else {
                Err(BridgeError::NonFinite { value: *x })
            }
        },
        BexExternalValue::Bool(b) => Ok(JsonValue::Bool(*b)),
        BexExternalValue::Text(s) => Ok(JsonValue::Text(s.clone())),
        BexExternalValue::Array { items, .. } => {
            let ghost models = bex_models(items@);
            let mut out: Vec<JsonValue> = Vec::new();
            let mut k: usize = 0;
            proof {
                lemma_bex_models(items@);
                assert(models.take(0) =~= Seq::<BexModel>::empty());
                assert(json_models(out@) =~= Seq::<JsonModel>::empty());
            }
            while k < items.len()
                invariant
                    k <= items.len(),
                    models == bex_models(items@),
                    models.len() == items@.len(),
                    forall|j: int|
                        0 <= j < items@.len() ==> #[trigger] models[j] == bex_model(items@[j]),
                    lift_all(models.take(k as int)) == Ok::<Seq<JsonModel>, BridgeErrorModel>(
                        json_models(out@),
                    ),
                    bex_model(*value) == (BexModel::Array {
                        element_type: value->element_type,
                        items: models,
                    }),
                    decreases_to!(value => items@),
                decreases items.len() - k,
            {
                proof {
                    assert(models.take(k + 1).drop_last() =~= models.take(k as int));
                    assert(models.take(k + 1).last() == models[k as int]);
                }
                match bex_to_json_value(&items[k]) {
                    Ok(json) => {
                        let ghost before = out@;
                        out.push(json);
                        assert(out@.drop_last() =~= before);
                    },
                    Err(e) => {
                        proof {
                            lemma_lift_all_err(models, k + 1);
                        }
                        return Err(e);
                    },
                }
                k = k + 1;
            }
            assert(models.take(models.len() as int) =~= models);
            Ok(JsonValue::Array(out))
        },
        BexExternalValue::Mapping { entries, .. } => bex_pairs_to_json(entries),
        BexExternalValue::Instance { fields, .. } => bex_pairs_to_json(fields),
        BexExternalValue::Variant { variant_name, .. } => Ok(JsonValue::Text(variant_name.clone())),
        BexExternalValue::Union { value } => bex_to_json_value(value),
        BexExternalValue::Opaque { kind } => Err(BridgeError::NotJson { kind: kind.clone() }),
    }
}

// ---------------------------------------------------------------------------
// Laws
// ---------------------------------------------------------------------------

/// The bits of the double 2^63.
pub const TWO_TO_63: u64 = 0x43E0_0000_0000_0000;

/// The bits of the double 2^64.
pub const TWO_TO_64: u64 = 0x43F0_0000_0000_0000;

/// The number that a double from 2^63 to 2^64 stands for, by its bits: 53
/// significant bits, of which the first is implied, and eleven zeros.
pub open spec fn wide_value(bits: u64) -> int {
    (0x10_0000_0000_0000 + (bits - TWO_TO_63)) * 2048
}

/// How far two integers are apart.
pub open spec fn apart(a: int, b: int) -> int {
    if a < b {
        b - a
    } else {
        a - b
    }
}

/// An integer that does not fit a signed word becomes the nearest double: no
/// other double from 2^63 to 2^64 is nearer, and where another is as near, the
/// one that it becomes is even.
pub proof fn law_wide_double_is_nearest(n: u64, other: u64)
    requires
        n > i64::MAX,
        TWO_TO_63 <= other <= TWO_TO_64,
    ensures
        TWO_TO_63 <= wide_double_bits(n) <= TWO_TO_64,
        apart(wide_value(wide_double_bits(n)), n as int) <= apart(wide_value(other), n as int),
        other != wide_double_bits(n) && apart(wide_value(wide_double_bits(n)), n as int) == apart(
            wide_value(other),
            n as int,
        ) ==> wide_double_bits(n) % 2 == 0,
{
}

/// A JSON value as the type describes it, with every integer in the range of a
/// signed word.
pub open spec fn plain_json(json: JsonModel) -> bool
    decreases json,
{
    match json {
        JsonModel::PosInt(n) => n <= i64::MAX,
        JsonModel::NegInt(n) => n < 0,
        JsonModel::Float(x) => x.finite(),
        JsonModel::Array(items) => forall|i: int|
            0 <= i < items.len() ==> plain_json(#[trigger] items[i]),
        JsonModel::Object(pairs) => distinct_keys(pairs) && forall|i: int|
            0 <= i < pairs.len() ==> plain_json((#[trigger] pairs[i]).1),
        _ => true,
    }
}

/// A JSON value survives the way to a runtime value and back, as long as its
/// integers fit a signed word.
pub proof fn law_json_round_trips(json: JsonModel)
    requires
        plain_json(json),
    ensures
        lift(lower(json)) == Ok::<JsonModel, BridgeErrorModel>(json),
    decreases json,
{
    match json {
        JsonModel::Array(items) => {
            lemma_items_round_trip(items);
        },
        JsonModel::Object(pairs) => {
            lemma_pairs_round_trip(pairs);
        },
        _ => {},
    }
}

proof fn lemma_items_round_trip(items: Seq<JsonModel>)
    requires
        forall|i: int| 0 <= i < items.len() ==> plain_json(#[trigger] items[i]),
    ensures
        lift_all(lower_all(items)) == Ok::<Seq<JsonModel>, BridgeErrorModel>(items),
    decreases items,
{
    if items.len() > 0 {
        let front = items.drop_last();
        assert forall|i: int| 0 <= i < front.len() implies plain_json(#[trigger] front[i]) by {
            assert(front[i] == items[i]);
        }
        lemma_items_round_trip(front);
        assert(plain_json(items[items.len() - 1]));
        law_json_round_trips(items.last());
        assert(lower_all(items).drop_last() =~= lower_all(front));
        assert(front.push(items.last()) =~= items);
    } else {
        assert(items =~= Seq::<JsonModel>::empty());
    }
}

proof fn lemma_pairs_round_trip(pairs: Seq<(Seq<char>, JsonModel)>)
    requires
        distinct_keys(pairs),
        forall|i: int| 0 <= i < pairs.len() ==> plain_json((#[trigger] pairs[i]).1),
    ensures
        lift_pairs(lower_pairs(pairs)) == Ok::<Seq<(Seq<char>, JsonModel)>, BridgeErrorModel>(
            pairs,
        ),
    decreases pairs,
{
    if pairs.len() > 0 {
        let front = pairs.drop_last();
        let last = pairs.last();
        assert forall|i: int| 0 <= i < front.len() implies plain_json((#[trigger] front[i]).1) by {
            assert(front[i] == pairs[i]);
        }
        assert(distinct_keys(front)) by {
            assert forall|i: int, j: int| 0 <= i < j < front.len() implies (
            #[trigger] front[i]).0 != (#[trigger] front[j]).0 by {
                assert(pairs[i].0 != pairs[j].0);
            }
        }
        lemma_pairs_round_trip(front);
        assert(plain_json(pairs[pairs.len() - 1].1));
        law_json_round_trips(last.1);
        assert(lower_pairs(pairs).drop_last() =~= lower_pairs(front));
        lemma_key_position(front, last.0);
        assert(key_position(front, last.0) is None) by {
            if key_position(front, last.0) is Some {
                let i = key_position(front, last.0)->0;
                assert(pairs[i].0 != pairs[pairs.len() - 1].0);
            }
        }
        assert(front.push(last) =~= pairs);
    } else {
        assert(pairs =~= Seq::<(Seq<char>, JsonModel)>::empty());
    }
}

/// What a runtime value becomes as JSON is as the type describes it: no key
/// occurs twice in an object, and every number is in its range. So it survives
/// the way back to a runtime value.
pub proof fn law_converted_json_is_plain(value: BexModel)
    ensures
        lift(value) matches Ok(json) ==> plain_json(json),
    decreases value,
{
    match value {
        BexModel::Array { element_type, items } => {
            lemma_items_plain(items);
        },
        BexModel::Mapping { key_type, value_type, entries } => {
            lemma_pairs_plain(entries);
        },
        BexModel::Instance { class_name, fields } => {
            lemma_pairs_plain(fields);
        },
        BexModel::Union { value } => {
            law_converted_json_is_plain(*value);
        },
        _ => {},
    }
}

proof fn lemma_items_plain(items: Seq<BexModel>)
    ensures
        lift_all(items) matches Ok(out) ==> forall|i: int|
            0 <= i < out.len() ==> plain_json(#[trigger] out[i]),
    decreases items,
{
    if items.len() > 0 {
        lemma_items_plain(items.drop_last());
        law_converted_json_is_plain(items.last());
    }
}

proof fn lemma_pairs_plain(pairs: Seq<(Seq<char>, BexModel)>)
    ensures
        lift_pairs(pairs) matches Ok(out) ==> distinct_keys(out) && forall|i: int|
            0 <= i < out.len() ==> plain_json((#[trigger] out[i]).1),
    decreases pairs,
{
    if pairs.len() > 0 {
        lemma_pairs_plain(pairs.drop_last());
        law_converted_json_is_plain(pairs.last().1);
        if lift_pairs(pairs) is Ok {
            let front = lift_pairs(pairs.drop_last())->Ok_0;
            let json = lift(pairs.last().1)->Ok_0;
            lemma_put_distinct(front, pairs.last().0, json);
            lemma_key_position(front, pairs.last().0);
        }
    }
}

} // verus!
