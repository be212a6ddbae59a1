//! Laws of runtime values: what becomes of each part of a value on its way to
//! JSON and to text.

use vstd::prelude::*;

use crate::assoc::lookup;
use crate::json_text::{
    hex_digit, json_escape, json_escaped, json_members, json_text, json_texts, quoted,
};
use crate::measure::Measure;
use crate::selection_laws::{lemma_join_holds, lemma_put_lookup};
use crate::text::{decimal, join, lemma_seek, occurs, occurs_at, seek};
use crate::value_bridge::{
    bex_model, bex_models, bex_pairs, json_model, json_models, json_pairs, lift, lift_all,
    lift_pairs, lower, lower_all, lower_pairs, BexExternalValue, BexModel, BridgeErrorModel,
    JsonModel, JsonValue, ValueType,
};

verus! {

// ---------------------------------------------------------------------------
// Models
// ---------------------------------------------------------------------------

/// The model of a list has the model of each item at its place.
pub proof fn law_json_models_are_item_by_item(
    items: Seq<JsonValue>,
    pairs: Seq<(String, JsonValue)>,
)
    ensures
        json_models(items).len() == items.len(),
        forall|i: int|
            0 <= i < items.len() ==> #[trigger] json_models(items)[i] == json_model(items[i]),
        json_pairs(pairs).len() == pairs.len(),
        forall|i: int|
            0 <= i < pairs.len() ==> (#[trigger] json_pairs(pairs)[i]).0 == pairs[i].0@
                && json_pairs(pairs)[i].1 == json_model(pairs[i].1),
    decreases items.len() + pairs.len(),
{
    if items.len() > 0 {
        law_json_models_are_item_by_item(items.drop_last(), Seq::empty());
        assert forall|i: int| 0 <= i < items.len() implies #[trigger] json_models(items)[i]
            == json_model(items[i]) by {
            if i < items.len() - 1 {
                assert(json_models(items)[i] == json_models(items.drop_last())[i]);
            }
        }
    }
    if pairs.len() > 0 {
        law_json_models_are_item_by_item(Seq::empty(), pairs.drop_last());
        assert forall|i: int| 0 <= i < pairs.len() implies (#[trigger] json_pairs(pairs)[i]).0
            == pairs[i].0@ && json_pairs(pairs)[i].1 == json_model(pairs[i].1) by {
            if i < pairs.len() - 1 {
                assert(json_pairs(pairs)[i] == json_pairs(pairs.drop_last())[i]);
            }
        }
    }
}

/// The model of a list of runtime values has the model of each at its place.
pub proof fn law_bex_models_are_item_by_item(
    items: Seq<BexExternalValue>,
    pairs: Seq<(String, BexExternalValue)>,
)
    ensures
        bex_models(items).len() == items.len(),
        forall|i: int|
            0 <= i < items.len() ==> #[trigger] bex_models(items)[i] == bex_model(items[i]),
        bex_pairs(pairs).len() == pairs.len(),
        forall|i: int|
            0 <= i < pairs.len() ==> (#[trigger] bex_pairs(pairs)[i]).0 == pairs[i].0@ && bex_pairs(
                pairs,
            )[i].1 == bex_model(pairs[i].1),
    decreases items.len() + pairs.len(),
{
    if items.len() > 0 {
        law_bex_models_are_item_by_item(items.drop_last(), Seq::empty());
        assert forall|i: int| 0 <= i < items.len() implies #[trigger] bex_models(items)[i]
            == bex_model(items[i]) by {
            if i < items.len() - 1 {
                assert(bex_models(items)[i] == bex_models(items.drop_last())[i]);
            }
        }
    }
    if pairs.len() > 0 {
        law_bex_models_are_item_by_item(Seq::empty(), pairs.drop_last());
        assert forall|i: int| 0 <= i < pairs.len() implies (#[trigger] bex_pairs(pairs)[i]).0
            == pairs[i].0@ && bex_pairs(pairs)[i].1 == bex_model(pairs[i].1) by {
            if i < pairs.len() - 1 {
                assert(bex_pairs(pairs)[i] == bex_pairs(pairs.drop_last())[i]);
            }
        }
    }
}

// ---------------------------------------------------------------------------
// From JSON
// ---------------------------------------------------------------------------

/// A JSON array becomes an array with what each item becomes at its place, and
/// an object a mapping with what each member becomes, under its key, at its
/// place.
pub proof fn law_every_part_is_converted(
    items: Seq<JsonModel>,
    pairs: Seq<(Seq<char>, JsonModel)>,
    i: int,
)
    ensures
        lower(JsonModel::Array(items)) matches BexModel::Array { element_type, items: out }
            && out.len() == items.len() && (0 <= i < items.len() ==> out[i] == lower(items[i])),
        lower(JsonModel::Object(pairs)) matches BexModel::Mapping { key_type, value_type, entries }
            && entries.len() == pairs.len() && (0 <= i < pairs.len() ==> entries[i] == (
            pairs[i].0,
            lower(pairs[i].1),
        )),
{
    lemma_lower_all(items);
    lemma_lower_pairs(pairs);
}

proof fn lemma_lower_all(items: Seq<JsonModel>)
    ensures
        lower_all(items).len() == items.len(),
        forall|i: int| 0 <= i < items.len() ==> #[trigger] lower_all(items)[i] == lower(items[i]),
    decreases items.len(),
{
    if items.len() > 0 {
        lemma_lower_all(items.drop_last());
    }
}

proof fn lemma_lower_pairs(pairs: Seq<(Seq<char>, JsonModel)>)
    ensures
        lower_pairs(pairs).len() == pairs.len(),
        forall|i: int|
            0 <= i < pairs.len() ==> #[trigger] lower_pairs(pairs)[i] == (
                pairs[i].0,
                lower(pairs[i].1),
            ),
    decreases pairs.len(),
{
    if pairs.len() > 0 {
        lemma_lower_pairs(pairs.drop_last());
    }
}

/// What has no parts becomes the same of its own sort: a number its own value,
/// a text itself.
pub proof fn law_plain_json_keeps_its_value(b: bool, n: i64, x: Measure, s: Seq<char>)
    ensures
        lower(JsonModel::Null) is Null,
        lower(JsonModel::Bool(b)) == BexModel::Bool(b),
        n >= 0 ==> lower(JsonModel::PosInt(n as u64)) == BexModel::Int(n),
        lower(JsonModel::NegInt(n)) == BexModel::Int(n),
        lower(JsonModel::Float(x)) == BexModel::Float(x),
        lower(JsonModel::Text(s)) == BexModel::Text(s),
{
}

// ---------------------------------------------------------------------------
// To JSON
// ---------------------------------------------------------------------------

/// An array becomes JSON exactly if all its items do, and then each item stands
/// at its place. Otherwise it fails as the first item fails that does.
pub proof fn law_every_item_is_converted(element_type: ValueType, items: Seq<BexModel>, i: int)
    requires
        0 <= i < items.len(),
    ensures
        lift(BexModel::Array { element_type, items }) is Ok <==> forall|j: int|
            0 <= j < items.len() ==> lift(#[trigger] items[j]) is Ok,
        lift(BexModel::Array { element_type, items }) matches Ok(json) ==> (
        json matches JsonModel::Array(out) && out.len() == items.len() && lift(items[i])
            == Ok::<JsonModel, BridgeErrorModel>(out[i])),
        (lift(items[i]) matches Err(e) && forall|j: int|
            0 <= j < i ==> lift(#[trigger] items[j]) is Ok) ==> lift(
            BexModel::Array { element_type, items },
        ) == Err::<JsonModel, BridgeErrorModel>(lift(items[i])->Err_0),
{
    lemma_lift_all(items);
    if lift(items[i]) is Err && forall|j: int| 0 <= j < i ==> lift(#[trigger] items[j]) is Ok {
        lemma_lift_all_error(items, i);
    }
}

proof fn lemma_lift_all(items: Seq<BexModel>)
    ensures
        lift_all(items) is Ok <==> forall|j: int|
            0 <= j < items.len() ==> lift(#[trigger] items[j]) is Ok,
        lift_all(items) matches Ok(out) ==> out.len() == items.len() && forall|j: int|
            0 <= j < items.len() ==> lift(items[j]) == Ok::<JsonModel, BridgeErrorModel>(
                #[trigger] out[j],
            ),
    decreases items.len(),
{
    if items.len() > 0 {
        let front = items.drop_last();
        lemma_lift_all(front);
        assert(items[items.len() - 1] == items.last());
        assert forall|j: int| 0 <= j < front.len() implies #[trigger] items[j] == front[j] by {}
        if lift_all(items) is Ok {
            assert forall|j: int| 0 <= j < items.len() implies lift(#[trigger] items[j]) is Ok by {
                if j < front.len() {
                    assert(lift(front[j]) is Ok);
                }
            }
            let out = lift_all(items)->Ok_0;
            let before = lift_all(front)->Ok_0;
            assert forall|j: int| 0 <= j < items.len() implies lift(items[j]) == Ok::<
                JsonModel,
                BridgeErrorModel,
            >(#[trigger] out[j]) by {
                if j < front.len() {
                    assert(out[j] == before[j]);
                }
            }
        } else if forall|j: int| 0 <= j < items.len() ==> lift(#[trigger] items[j]) is Ok {
            assert forall|j: int| 0 <= j < front.len() implies lift(#[trigger] front[j]) is Ok by {
                assert(lift(items[j]) is Ok);
            }
            assert(lift(items[items.len() - 1]) is Ok);
        }
    }
}

proof fn lemma_lift_all_error(items: Seq<BexModel>, i: int)
    requires
        0 <= i < items.len(),
        lift(items[i]) is Err,
        forall|j: int| 0 <= j < i ==> lift(#[trigger] items[j]) is Ok,
    ensures
        lift_all(items) is Err,
        lift_all(items)->Err_0 == lift(items[i])->Err_0,
    decreases items.len(),
{
    let front = items.drop_last();
    if i < front.len() {
        assert forall|j: int| 0 <= j < i implies lift(#[trigger] front[j]) is Ok by {
            assert(lift(items[j]) is Ok);
        }
        lemma_lift_all_error(front, i);
    } else {
        assert forall|j: int| 0 <= j < front.len() implies lift(#[trigger] front[j]) is Ok by {
            assert(lift(items[j]) is Ok);
        }
        lemma_lift_all(front);
    }
}

/// A mapping becomes JSON exactly if all its entries do, and then what the last
/// entry of a key becomes stands under that key, and no other key is there.
/// Otherwise it fails as the first entry fails that does.
pub proof fn law_every_entry_is_converted(
    key_type: ValueType,
    value_type: ValueType,
    entries: Seq<(Seq<char>, BexModel)>,
    i: int,
)
    requires
        0 <= i < entries.len(),
    ensures
        ({
            let whole = lift(BexModel::Mapping { key_type, value_type, entries });
            &&& whole is Ok <==> forall|j: int|
                0 <= j < entries.len() ==> lift((#[trigger] entries[j]).1) is Ok
            &&& whole matches Ok(json) ==> (json matches JsonModel::Object(out) && {
                &&& (forall|j: int| i < j < entries.len() ==> (#[trigger] entries[j]).0
                    != entries[i].0) ==> lift(entries[i].1) == Ok::<JsonModel, BridgeErrorModel>(
                    lookup(out, entries[i].0)->0,
                ) && lookup(out, entries[i].0) is Some
                &&& forall|k: int|
                    0 <= k < out.len() ==> exists|j: int|
                        0 <= j < entries.len() && (#[trigger] entries[j]).0 == (
                        #[trigger] out[k]).0
            })
            &&& (lift(entries[i].1) is Err && forall|j: int|
                0 <= j < i ==> lift((#[trigger] entries[j]).1) is Ok) ==> whole == Err::<
                JsonModel,
                BridgeErrorModel,
            >(lift(entries[i].1)->Err_0)
        }),
{
    lemma_lift_pairs(entries);
    if lift_pairs(entries) is Ok && forall|j: int|
        i < j < entries.len() ==> (#[trigger] entries[j]).0 != entries[i].0 {
        lemma_lifted_entry(entries, i);
    }
    if lift(entries[i].1) is Err && forall|j: int|
        0 <= j < i ==> lift((#[trigger] entries[j]).1) is Ok {
        lemma_lift_pairs_error(entries, i);
    }
}

proof fn lemma_lift_pairs(entries: Seq<(Seq<char>, BexModel)>)
    ensures
        lift_pairs(entries) is Ok <==> forall|j: int|
            0 <= j < entries.len() ==> lift((#[trigger] entries[j]).1) is Ok,
        lift_pairs(entries) matches Ok(out) ==> forall|k: int|
            0 <= k < out.len() ==> exists|j: int|
                0 <= j < entries.len() && (#[trigger] entries[j]).0 == (#[trigger] out[k]).0,
    decreases entries.len(),
{
    if entries.len() > 0 {
        let front = entries.drop_last();
        let last = entries.last();
        lemma_lift_pairs(front);
        assert(entries[entries.len() - 1] == last);
        assert forall|j: int| 0 <= j < front.len() implies #[trigger] entries[j] == front[j] by {}
        if lift_pairs(entries) is Ok {
            assert forall|j: int| 0 <= j < entries.len() implies lift(
                (#[trigger] entries[j]).1,
            ) is Ok by {
                if j < front.len() {
                    assert(lift(front[j].1) is Ok);
                }
            }
            let out = lift_pairs(entries)->Ok_0;
            let before = lift_pairs(front)->Ok_0;
            crate::assoc::lemma_first_key(before, last.0);
            assert forall|k: int| 0 <= k < out.len() implies exists|j: int|
                0 <= j < entries.len() && (#[trigger] entries[j]).0 == (#[trigger] out[k]).0 by {
                if k < before.len() && out[k] == before[k] {
                    let j = choose|j: int|
                        0 <= j < front.len() && (#[trigger] front[j]).0 == before[k].0;
                    assert(entries[j].0 == out[k].0);
                } else {
                    assert(entries[entries.len() - 1].0 == out[k].0);
                }
            }
        } else if forall|j: int| 0 <= j < entries.len() ==> lift((#[trigger] entries[j]).1) is Ok {
            assert forall|j: int| 0 <= j < front.len() implies lift(
                (#[trigger] front[j]).1,
            ) is Ok by {
                assert(lift(entries[j].1) is Ok);
            }
            assert(lift(entries[entries.len() - 1].1) is Ok);
        }
    }
}

proof fn lemma_lifted_entry(entries: Seq<(Seq<char>, BexModel)>, i: int)
    requires
        0 <= i < entries.len(),
        lift_pairs(entries) is Ok,
        forall|j: int| i < j < entries.len() ==> (#[trigger] entries[j]).0 != entries[i].0,
    ensures
        lookup(lift_pairs(entries)->Ok_0, entries[i].0) is Some,
        lift(entries[i].1) == Ok::<JsonModel, BridgeErrorModel>(
            lookup(lift_pairs(entries)->Ok_0, entries[i].0)->0,
        ),
    decreases entries.len(),
{
    let front = entries.drop_last();
    let last = entries.last();
    let before = lift_pairs(front)->Ok_0;
    let json = lift(last.1)->Ok_0;
    lemma_put_lookup(before, last.0, json, entries[i].0);
    assert(entries[entries.len() - 1] == last);
    if i < front.len() {
        assert forall|j: int| i < j < front.len() implies (#[trigger] front[j]).0 != front[i].0 by {
            assert(entries[j].0 != entries[i].0);
        }
        lemma_lifted_entry(front, i);
    }
}

proof fn lemma_lift_pairs_error(entries: Seq<(Seq<char>, BexModel)>, i: int)
    requires
        0 <= i < entries.len(),
        lift(entries[i].1) is Err,
        forall|j: int| 0 <= j < i ==> lift((#[trigger] entries[j]).1) is Ok,
    ensures
        lift_pairs(entries) is Err,
        lift_pairs(entries)->Err_0 == lift(entries[i].1)->Err_0,
    decreases entries.len(),
{
    let front = entries.drop_last();
    if i < front.len() {
        assert forall|j: int| 0 <= j < i implies lift((#[trigger] front[j]).1) is Ok by {
            assert(lift(entries[j].1) is Ok);
        }
        lemma_lift_pairs_error(front, i);
    } else {
        assert forall|j: int| 0 <= j < front.len() implies lift((#[trigger] front[j]).1) is Ok by {
            assert(lift(entries[j].1) is Ok);
        }
        lemma_lift_pairs(front);
    }
}

/// An instance becomes what a mapping of its fields becomes, a variant its
/// name, and a member of a union what it becomes by itself. A float becomes
/// itself exactly if it is finite, and what is opaque becomes nothing.
pub proof fn law_wrapped_values_become_their_contents(
    class_name: Seq<char>,
    fields: Seq<(Seq<char>, BexModel)>,
    enum_name: Seq<char>,
    variant_name: Seq<char>,
    value: BexModel,
    x: Measure,
    kind: Seq<char>,
)
    ensures
        lift(BexModel::Instance { class_name, fields }) == lift(
            BexModel::Mapping {
                key_type: ValueType::Text,
                value_type: ValueType::Unknown,
                entries: fields,
            },
        ),
        lift(BexModel::Variant { enum_name, variant_name }) == Ok::<JsonModel, BridgeErrorModel>(
            JsonModel::Text(variant_name),
        ),
        lift(BexModel::Union { value: Box::new(value) }) == lift(value),
        x.finite() ==> lift(BexModel::Float(x)) == Ok::<JsonModel, BridgeErrorModel>(
            JsonModel::Float(x),
        ),
        !x.finite() ==> lift(BexModel::Float(x)) is Err,
        lift(BexModel::Opaque { kind }) is Err,
{
}

// ---------------------------------------------------------------------------
// JSON as text
// ---------------------------------------------------------------------------

/// The text of a list of items, one by one.
proof fn lemma_json_texts(items: Seq<JsonModel>, floats: Seq<(Measure, Seq<char>)>)
    ensures
        json_texts(items, floats).len() == items.len(),
        forall|i: int|
            0 <= i < items.len() ==> #[trigger] json_texts(items, floats)[i] == json_text(
                items[i],
                floats,
            ),
    decreases items.len(),
{
    if items.len() > 0 {
        lemma_json_texts(items.drop_last(), floats);
    }
}

/// An array is written item by item: one more item follows a comma, in front of
/// the closing bracket, and the rest stays.
pub proof fn law_arrays_are_written_item_by_item(
    items: Seq<JsonModel>,
    item: JsonModel,
    floats: Seq<(Measure, Seq<char>)>,
)
    ensures
        json_text(JsonModel::Array(Seq::empty()), floats) == seq!['[', ']'],
        json_text(JsonModel::Array(seq![item]), floats) == seq!['['] + json_text(item, floats)
            + seq![']'],
        items.len() > 0 ==> json_text(JsonModel::Array(items.push(item)), floats) == json_text(
            JsonModel::Array(items),
            floats,
        ).drop_last() + seq![','] + json_text(item, floats) + seq![']'],
{
    reveal_strlit("[");
    reveal_strlit("]");
    reveal_strlit(",");
    let none = Seq::<JsonModel>::empty();
    let one = seq![item];
    let more = items.push(item);
    assert("["@ =~= seq!['['] && "]"@ =~= seq![']'] && ","@ =~= seq![',']);
    assert(json_texts(none, floats) =~= Seq::<Seq<char>>::empty());
    assert(json_text(JsonModel::Array(none), floats) =~= seq!['[', ']']);
    lemma_json_texts(one, floats);
    assert(one[0] == item);
    assert(json_texts(one, floats)[0] == json_text(item, floats));
    assert(join(json_texts(one, floats), ","@) == json_text(item, floats));
    if items.len() > 0 {
        assert(more.drop_last() =~= items);
        assert(more.last() == item);
        let texts = json_texts(items, floats);
        lemma_json_texts(items, floats);
        let longer = json_texts(more, floats);
        assert(longer == texts.push(json_text(item, floats)));
        assert(longer.drop_last() =~= texts);
        assert(join(longer, ","@) == join(texts, ","@) + ","@ + json_text(item, floats));
        let whole = json_text(JsonModel::Array(items), floats);
        assert(whole.drop_last() =~= "["@ + join(texts, ","@));
        assert(json_text(JsonModel::Array(more), floats) =~= whole.drop_last() + seq![',']
            + json_text(item, floats) + seq![']']);
    }
}

/// The members are the pairs, each with its value written out, in some order.
pub proof fn law_every_member_is_written(
    pairs: Seq<(Seq<char>, JsonModel)>,
    floats: Seq<(Measure, Seq<char>)>,
    i: int,
)
    requires
        0 <= i < pairs.len(),
    ensures
        json_members(pairs, floats).len() == pairs.len(),
        json_members(pairs, floats).contains((pairs[i].0, json_text(pairs[i].1, floats))),
        occurs(
            json_text(JsonModel::Object(pairs), floats),
            seq!['"'] + json_escaped(pairs[i].0) + seq!['"', ':'] + json_text(pairs[i].1, floats),
        ),
{
    reveal_strlit(":");
    lemma_json_members(pairs, floats);
    let members = json_members(pairs, floats);
    let member = (pairs[i].0, json_text(pairs[i].1, floats));
    assert(members.contains(member));
    let k = choose|k: int| 0 <= k < members.len() && members[k] == member;
    let texts = members.map_values(
        |member: (Seq<char>, Seq<char>)| crate::json_text::member_text(member),
    );
    assert(texts[k] == crate::json_text::member_text(member));
    lemma_join_holds(texts, ","@, k);
    let inner = join(texts, ","@);
    let whole = json_text(JsonModel::Object(pairs), floats);
    assert(whole == "{"@ + inner + "}"@);
    let at = choose|at: int| occurs_at(inner, texts[k], at);
    let n = texts[k].len() as int;
    let front = "{"@.len() as int;
    assert(whole.subrange(front + at, front + at + n) =~= inner.subrange(at, at + n));
    assert(texts[k] =~= seq!['"'] + json_escaped(pairs[i].0) + seq!['"', ':'] + json_text(
        pairs[i].1,
        floats,
    ));
    assert(occurs_at(whole, texts[k], front + at));
}

proof fn lemma_json_members(pairs: Seq<(Seq<char>, JsonModel)>, floats: Seq<(Measure, Seq<char>)>)
    ensures
        json_members(pairs, floats).len() == pairs.len(),
        forall|i: int|
            0 <= i < pairs.len() ==> json_members(pairs, floats).contains(
                ((#[trigger] pairs[i]).0, json_text(pairs[i].1, floats)),
            ),
    decreases pairs.len(),
{
    if pairs.len() > 0 {
        let front = pairs.drop_last();
        let last = pairs.last();
        let before = json_members(front, floats);
        let text = json_text(last.1, floats);
        lemma_json_members(front, floats);
        let at = seek(crate::json_text::behind(before, last.0), 0, before.len() as int);
        lemma_seek(crate::json_text::behind(before, last.0), 0, before.len() as int);
        let after = before.insert(at, (last.0, text));
        assert(json_members(pairs, floats) == after);
        assert forall|i: int| 0 <= i < pairs.len() implies after.contains(
            ((#[trigger] pairs[i]).0, json_text(pairs[i].1, floats)),
        ) by {
            if i < front.len() {
                let member = (front[i].0, json_text(front[i].1, floats));
                assert(before.contains(member));
                let k = choose|k: int| 0 <= k < before.len() && before[k] == member;
                if k < at {
                    assert(after[k] == member);
                } else {
                    assert(after[k + 1] == member);
                }
            } else {
                assert(after[at] == (last.0, text));
            }
        }
    }
}

/// The number that a hexadecimal digit stands for.
pub open spec fn hex_value(c: char) -> int {
    if '0' <= c <= '9' {
        c as int - '0' as int
    } else {
        c as int - 'a' as int + 10
    }
}

/// What a JSON string says, read from between its quotes.
pub open spec fn read_json(s: Seq<char>) -> Seq<char>
    decreases s.len(),
{
    if s.len() == 0 {
        Seq::empty()
    } else if s[0] != '\\' || s.len() == 1 {
        seq![s[0]] + read_json(s.skip(1))
    } else if s[1] == 'u' && s.len() >= 6 {
        seq![
            (((hex_value(s[2]) * 16 + hex_value(s[3])) * 16 + hex_value(s[4])) * 16 + hex_value(
                s[5],
            )) as char,
        ] + read_json(s.skip(6))
    } else {
        seq![
            if s[1] == 'b' {
                '\x08'
            } else if s[1] == 't' {
                '\t'
            } else if s[1] == 'n' {
                '\n'
            } else if s[1] == 'f' {
                '\x0C'
            } else if s[1] == 'r' {
                '\r'
            } else {
                s[1]
            },
        ] + read_json(s.skip(2))
    }
}

/// What is written as a JSON string reads back, and holds no line break and no
/// other control character.
pub proof fn law_json_strings_read_back(s: Seq<char>)
    ensures
        read_json(json_escaped(s)) == s,
        forall|i: int|
            0 <= i < json_escaped(s).len() ==> (#[trigger] json_escaped(s)[i]) as int >= 0x20,
{
    lemma_read_json(s, Seq::empty());
    assert(json_escaped(s) + Seq::<char>::empty() =~= json_escaped(s));
    assert(read_json(Seq::<char>::empty()) =~= Seq::<char>::empty());
    assert(s + read_json(Seq::<char>::empty()) =~= s);
    lemma_no_control(s);
}

proof fn lemma_read_json(s: Seq<char>, rest: Seq<char>)
    ensures
        read_json(json_escaped(s) + rest) == s + read_json(rest),
    decreases s.len(),
{
    if s.len() == 0 {
        assert(json_escaped(s) + rest =~= rest);
        assert(s + read_json(rest) =~= read_json(rest));
    } else {
        let front = s.drop_last();
        let c = s.last();
        let e = json_escape(c);
        let tail = e + rest;
        assert(json_escaped(s) + rest =~= json_escaped(front) + tail);
        lemma_read_json(front, tail);
        lemma_read_one(c, rest);
        assert(front + (seq![c] + read_json(rest)) =~= s + read_json(rest));
    }
}

proof fn lemma_read_one(c: char, rest: Seq<char>)
    ensures
        read_json(json_escape(c) + rest) == seq![c] + read_json(rest),
{
    let e = json_escape(c);
    let s = e + rest;
    let n = c as int;
    assert(s.skip(e.len() as int) =~= rest);
    if e.len() == 6 {
        assert(s[1] == 'u' && s[2] == '0' && s[3] == '0');
        assert(s[4] == hex_digit(n / 16) && s[5] == hex_digit(n % 16));
        assert(hex_value(s[4]) == n / 16);
        assert(hex_value(s[5]) == n % 16);
        assert(n / 16 * 16 + n % 16 == n);
    } else if e.len() == 2 {
        assert(s[0] == '\\' && s[1] == e[1]);
    } else {
        assert(s[0] == c);
    }
}

proof fn lemma_hex_digit(n: int)
    requires
        0 <= n < 16,
    ensures
        hex_digit(n) as int >= 0x20,
{
    let c = hex_digit(n);
    if n < 10 {
        assert(c as int == n + 0x30);
    } else {
        assert(c as int == n + 0x57);
    }
}

proof fn lemma_escape_shown(c: char)
    ensures
        forall|k: int| 0 <= k < json_escape(c).len() ==> (#[trigger] json_escape(c)[k]) as int >= 0x20,
{
    let e = json_escape(c);
    let n = c as int;
    if n >= 0x20 && c != '"' && c != '\\' {
        assert(e == seq![c]);
    } else if e.len() != 2 {
        let long = seq!['\\', 'u', '0', '0', hex_digit(n / 16), hex_digit(n % 16)];
        assert(e == long);
        assert(0 <= n < 0x20);
        lemma_hex_digit(n / 16);
        lemma_hex_digit(n % 16);
    }
}

proof fn lemma_no_control(s: Seq<char>)
    ensures
        forall|i: int|
            0 <= i < json_escaped(s).len() ==> (#[trigger] json_escaped(s)[i]) as int >= 0x20,
    decreases s.len(),
{
    if s.len() > 0 {
        lemma_no_control(s.drop_last());
        let before = json_escaped(s.drop_last());
        let e = json_escape(s.last());
        lemma_escape_shown(s.last());
        assert forall|i: int| 0 <= i < json_escaped(s).len() implies (
        #[trigger] json_escaped(s)[i]) as int >= 0x20 by {
            if i < before.len() {
                assert(json_escaped(s)[i] == before[i]);
            } else {
                assert(json_escaped(s)[i] == e[i - before.len()]);
            }
        }
    }
}

/// Values without parts are written as JSON writes them: a text between quotes,
/// a negative number behind a minus sign.
pub proof fn law_plain_values_are_written(
    n: u64,
    m: i64,
    s: Seq<char>,
    floats: Seq<(Measure, Seq<char>)>,
)
    requires
        m < 0,
    ensures
        json_text(JsonModel::PosInt(n), floats) == decimal(n as nat),
        json_text(JsonModel::NegInt(m), floats) == seq!['-'] + decimal((-m) as nat),
        json_text(JsonModel::Text(s), floats).len() >= 2,
        json_text(JsonModel::Text(s), floats)[0] == '"',
        json_text(JsonModel::Text(s), floats).last() == '"',
        read_json(
            json_text(JsonModel::Text(s), floats).subrange(
                1,
                json_text(JsonModel::Text(s), floats).len() - 1,
            ),
        ) == s,
{
    reveal_strlit("-");
    assert("-"@ =~= seq!['-']);
    let whole = json_text(JsonModel::Text(s), floats);
    assert(whole == quoted(s));
    assert(whole.subrange(1, whole.len() - 1) =~= json_escaped(s));
    law_json_strings_read_back(s);
}

} // verus!
