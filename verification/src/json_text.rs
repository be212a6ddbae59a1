//! The compact text of a JSON value: no white space, and the members of an
//! object in the order of their keys.
//!
//! The text of a double comes from the caller.

use vstd::prelude::*;
use vstd::string::*;

use crate::measure::Measure;
use crate::paths::{key_precedes, law_paths_are_ordered, precedes};
use crate::text::{
    chars_of, decimal, join, join_strings, lemma_seek, lemma_seek_is, seek, to_decimal,
};
use crate::value_bridge::{json_model, json_models, json_pairs, JsonModel, JsonValue};

verus! {

// ---------------------------------------------------------------------------
// Strings
// ---------------------------------------------------------------------------

/// A hexadecimal digit.
pub open spec fn hex_digit(n: int) -> char {
    if n < 10 {
        (n + 0x30) as char
    } else {
        (n + 0x57) as char
    }
}

/// How a character stands in a JSON string: quotes, backslashes and control
/// characters are escaped.
pub open spec fn json_escape(c: char) -> Seq<char> {
    if c == '"' {
        seq!['\\', '"']
    } else if c == '\\' {
        seq!['\\', '\\']
    } else if c == '\x08' {
        seq!['\\', 'b']
    } else if c == '\t' {
        seq!['\\', 't']
    } else if c == '\n' {
        seq!['\\', 'n']
    } else if c == '\x0C' {
        seq!['\\', 'f']
    } else if c == '\r' {
        seq!['\\', 'r']
    } else if (c as int) < 0x20 {
        seq!['\\', 'u', '0', '0', hex_digit(c as int / 16), hex_digit(c as int % 16)]
    } else {
        seq![c]
    }
}

/// The characters of a JSON string between its quotes.
pub open spec fn json_escaped(s: Seq<char>) -> Seq<char>
    decreases s.len(),
{
    if s.len() == 0 {
        Seq::empty()
    } else {
        json_escaped(s.drop_last()) + json_escape(s.last())
    }
}

/// A JSON string.
pub open spec fn quoted(s: Seq<char>) -> Seq<char> {
    seq!['"'] + json_escaped(s) + seq!['"']
}

/// Outside function: `serde_json::to_string`, of a string, which does not
/// fail. The contract claims that it puts the string in quotes and escapes, by
/// the table in its source, quotes, backslashes and the control characters
/// below the space, and nothing else.
#[verifier::external_body]
fn quote_json(text: &str) -> (r: String)
    ensures
        r@ == quoted(text@),
{
    serde_json::to_string(text).unwrap_or_default()
}

// ---------------------------------------------------------------------------
// Values
// ---------------------------------------------------------------------------

/// Holds at the texts of `x`.
pub open spec fn text_for(floats: Seq<(Measure, Seq<char>)>, x: Measure) -> spec_fn(int) -> bool {
    |i: int| floats[i].0 == x
}

/// The text of a double: the first that is given for it, `null` where none is.
pub open spec fn float_text(floats: Seq<(Measure, Seq<char>)>, x: Measure) -> Seq<char> {
    let i = seek(text_for(floats, x), 0, floats.len() as int);
    if i < floats.len() {
        floats[i].1
    } else {
        "null"@
    }
}

/// The text of a negative integer, or of any other signed one.
pub open spec fn signed_text(n: int) -> Seq<char> {
    if n < 0 {
        "-"@ + decimal((-n) as nat)
    } else {
        decimal(n as nat)
    }
}

/// The numbers of the characters of a text, which order texts.
pub open spec fn codes(s: Seq<char>) -> Seq<u32> {
    s.map_values(|c: char| c as u32)
}

/// Holds at the members whose key stands behind `key`.
pub open spec fn behind(members: Seq<(Seq<char>, Seq<char>)>, key: Seq<char>) -> spec_fn(
    int,
) -> bool {
    |i: int| precedes(codes(key), codes(members[i].0))
}

/// Ordered members with one more, in front of the first whose key stands
/// behind its own.
pub open spec fn with_member(
    members: Seq<(Seq<char>, Seq<char>)>,
    key: Seq<char>,
    text: Seq<char>,
) -> Seq<(Seq<char>, Seq<char>)> {
    members.insert(seek(behind(members, key), 0, members.len() as int), (key, text))
}

/// A member of an object.
pub open spec fn member_text(member: (Seq<char>, Seq<char>)) -> Seq<char> {
    quoted(member.0) + ":"@ + member.1
}

/// The compact text of a JSON value, with the texts of its doubles given.
pub open spec fn json_text(json: JsonModel, floats: Seq<(Measure, Seq<char>)>) -> Seq<char>
    decreases json,
{
    match json {
        JsonModel::Null => "null"@,
        JsonModel::Bool(b) => if b {
            "true"@
        } else {
            "false"@
        },
        JsonModel::PosInt(n) => decimal(n as nat),
        JsonModel::NegInt(n) => signed_text(n as int),
        JsonModel::Float(x) => float_text(floats, x),
        JsonModel::Text(s) => quoted(s),
        JsonModel::Array(items) => "["@ + join(json_texts(items, floats), ","@) + "]"@,
        JsonModel::Object(pairs) => "{"@ + join(
            json_members(pairs, floats).map_values(
                |member: (Seq<char>, Seq<char>)| member_text(member),
            ),
            ","@,
        ) + "}"@,
    }
}

/// The texts of some JSON values.
pub open spec fn json_texts(items: Seq<JsonModel>, floats: Seq<(Measure, Seq<char>)>) -> Seq<
    Seq<char>,
>
    decreases items,
{
    if items.len() == 0 {
        Seq::empty()
    } else {
        json_texts(items.drop_last(), floats).push(json_text(items.last(), floats))
    }
}

/// The members of an object, each with the text of its value, in the order of
/// their keys.
pub open spec fn json_members(
    pairs: Seq<(Seq<char>, JsonModel)>,
    floats: Seq<(Measure, Seq<char>)>,
) -> Seq<(Seq<char>, Seq<char>)>
    decreases pairs,
{
    if pairs.len() == 0 {
        Seq::empty()
    } else {
        with_member(
            json_members(pairs.drop_last(), floats),
            pairs.last().0,
            json_text(pairs.last().1, floats),
        )
    }
}

/// The text of a double.
fn find_float_text(floats: &Vec<(Measure, String)>, x: Measure) -> (r: String)
    ensures
        r@ == float_text(floats.deep_view(), x),
{
    let ghost p = text_for(floats.deep_view(), x);
    let mut i: usize = 0;
    while i < floats.len()
        invariant
            i <= floats.len(),
            p == text_for(floats.deep_view(), x),
            forall|j: int| 0 <= j < i ==> !#[trigger] p(j),
        decreases floats.len() - i,
    {
        assert(floats.deep_view()[i as int] == floats@[i as int].deep_view());
        if floats[i].0 == x {
            proof {
                assert(p(i as int));
                lemma_seek_is(p, 0, floats@.len() as int, i as int);
            }
            return floats[i].1.clone();
        }
        assert(!p(i as int));
        i = i + 1;
    }
    proof {
        lemma_seek_is(p, 0, floats@.len() as int, i as int);
    }
    String::from_str("null")
}

/// The text of a signed integer.
fn write_signed(n: i64) -> (r: String)
    ensures
        r@ == signed_text(n as int),
{
    if n < 0 {
        let magnitude: u64 = (-(n + 1)) as u64 + 1;
        let mut out = String::from_str("-");
        out.append(to_decimal(magnitude).as_str());
        out
    } else {
        to_decimal(n as u64)
    }
}

/// The numbers of the characters of a text.
fn codes_of(s: &str) -> (r: Vec<u32>)
    ensures
        r@ == codes(s@),
{
    let chars = chars_of(s);
    let mut out: Vec<u32> = Vec::new();
    let mut i: usize = 0;
    while i < chars.len()
        invariant
            i <= chars.len(),
            chars@ == s@,
            out@ == codes(s@).take(i as int),
        decreases chars.len() - i,
    {
        out.push(chars[i] as u32);
        assert(out@ =~= codes(s@).take(i + 1));
        i = i + 1;
    }
    assert(out@ =~= codes(s@));
    out
}

/// Puts a member in its place among ordered ones.
fn insert_member(members: &mut Vec<(String, String)>, key: String, text: String)
    ensures
        final(members).deep_view() == with_member(old(members).deep_view(), key@, text@),
{
    let ghost before = members.deep_view();
    let ghost p = behind(before, key@);
    let ghost k = key@;
    let ghost t = text@;
    let own = codes_of(key.as_str());
    let mut i: usize = 0;
    while i < members.len()
        invariant_except_break
            forall|j: int| 0 <= j < i ==> !#[trigger] p(j),
        invariant
            i <= members.len(),
            members.deep_view() == before,
            own@ == codes(k),
            p == behind(before, k),
        ensures
            i <= members.len(),
            forall|j: int| 0 <= j < i ==> !#[trigger] p(j),
            i < members.len() ==> p(i as int),
        decreases members.len() - i,
    {
        assert(before[i as int] == members@[i as int].deep_view());
        if key_precedes(&own, &codes_of(members[i].0.as_str())) {
            assert(p(i as int));
            break;
        }
        assert(!p(i as int));
        i = i + 1;
    }
    proof {
        lemma_seek_is(p, 0, before.len() as int, i as int);
    }
    members.insert(i, (key, text));
    assert(members.deep_view() =~= before.insert(i as int, (k, t)));
}

/// The text of an object with these members.
fn write_members(members: &Vec<(String, String)>) -> (r: String)
    ensures
        r@ == "{"@ + join(
            members.deep_view().map_values(
                |member: (Seq<char>, Seq<char>)| member_text(member),
            ),
            ","@,
        ) + "}"@,
{
    let ghost f = |member: (Seq<char>, Seq<char>)| member_text(member);
    let mut texts: Vec<String> = Vec::new();
    let mut k: usize = 0;
    while k < members.len()
        invariant
            k <= members.len(),
            texts@.len() == k,
            forall|j: int|
                0 <= j < k ==> (#[trigger] texts@[j])@ == member_text(members@[j].deep_view()),
        decreases members.len() - k,
    {
        let mut text = quote_json(members[k].0.as_str());
        text.append(":");
        text.append(members[k].1.as_str());
        texts.push(text);
        k = k + 1;
    }
    assert(texts.deep_view() =~= members.deep_view().map_values(f));
    let mut out = String::from_str("{");
    out.append(join_strings(&texts, ",").as_str());
    out.append("}");
    out
}

/// The compact text of a JSON value, with the texts of its doubles given.
pub fn write_json(json: &JsonValue, floats: &Vec<(Measure, String)>) -> (r: String)
    ensures
        r@ == json_text(json_model(*json), floats.deep_view()),
    decreases json,
{
    match json {
        JsonValue::Null => String::from_str("null"),
        JsonValue::Bool(b) => if *b {
            String::from_str("true")
        } else {
            String::from_str("false")
        },
        JsonValue::PosInt(n) => to_decimal(*n),
        JsonValue::NegInt(n) => write_signed(*n),
        JsonValue::Float(x) => find_float_text(floats, *x),
        JsonValue::Text(s) => quote_json(s.as_str()),
        JsonValue::Array(items) => {
            let mut texts: Vec<String> = Vec::new();
            let mut k: usize = 0;
            proof {
                assert(items@.take(0) =~= Seq::<JsonValue>::empty());
                assert(texts.deep_view() =~= Seq::<Seq<char>>::empty());
            }
            while k < items.len()
                invariant
                    k <= items.len(),
                    texts.deep_view() == json_texts(
                        json_models(items@.take(k as int)),
                        floats.deep_view(),
                    ),
                    decreases_to!(json => items@),
                decreases items.len() - k,
            {
                let text = write_json(&items[k], floats);
                let ghost before = texts.deep_view();
                let ghost t = text@;
                texts.push(text);
                proof {
                    let now = items@.take(k + 1);
                    assert(now.drop_last() =~= items@.take(k as int));
                    assert(texts.deep_view() =~= before.push(t));
                    let models = json_models(now);
                    assert(models.drop_last() =~= json_models(items@.take(k as int)));
                }
                k = k + 1;
            }
            assert(items@.take(items@.len() as int) =~= items@);
            let mut out = String::from_str("[");
            out.append(join_strings(&texts, ",").as_str());
            out.append("]");
            out
        },
        JsonValue::Object(pairs) => {
            let mut members: Vec<(String, String)> = Vec::new();
            let mut k: usize = 0;
            proof {
                assert(pairs@.take(0) =~= Seq::<(String, JsonValue)>::empty());
                assert(members.deep_view() =~= Seq::<(Seq<char>, Seq<char>)>::empty());
            }
            while k < pairs.len()
                invariant
                    k <= pairs.len(),
                    members.deep_view() == json_members(
                        json_pairs(pairs@.take(k as int)),
                        floats.deep_view(),
                    ),
                    decreases_to!(json => pairs@),
                decreases pairs.len() - k,
            {
                let text = write_json(&pairs[k].1, floats);
                insert_member(&mut members, pairs[k].0.clone(), text);
                proof {
                    let now = pairs@.take(k + 1);
                    assert(now.drop_last() =~= pairs@.take(k as int));
                    let models = json_pairs(now);
                    assert(models.drop_last() =~= json_pairs(pairs@.take(k as int)));
                }
                k = k + 1;
            }
            assert(pairs@.take(pairs@.len() as int) =~= pairs@);
            write_members(&members)
        },
    }
}

// ---------------------------------------------------------------------------
// Laws
// ---------------------------------------------------------------------------

/// The members of an object are written in the order of their keys: none has a
/// key that precedes that of a member written before it.
pub proof fn law_members_are_ordered(
    pairs: Seq<(Seq<char>, JsonModel)>,
    floats: Seq<(Measure, Seq<char>)>,
)
    ensures
        forall|i: int, j: int|
            0 <= i < j < json_members(pairs, floats).len() ==> !precedes(
                codes((#[trigger] json_members(pairs, floats)[j]).0),
                codes((#[trigger] json_members(pairs, floats)[i]).0),
            ),
    decreases pairs.len(),
{
    if pairs.len() > 0 {
        let before = json_members(pairs.drop_last(), floats);
        let member = (pairs.last().0, json_text(pairs.last().1, floats));
        let p = behind(before, member.0);
        let at = seek(p, 0, before.len() as int);
        law_members_are_ordered(pairs.drop_last(), floats);
        lemma_seek(p, 0, before.len() as int);
        let after = before.insert(at, member);
        assert forall|i: int, j: int| 0 <= i < j < after.len() implies !precedes(
            codes((#[trigger] after[j]).0),
            codes((#[trigger] after[i]).0),
        ) by {
            let key = codes(member.0);
            if i < at && j == at {
                assert(after[i] == before[i]);
                assert(!p(i));
            } else if i == at {
                assert(after[j] == before[j - 1]);
                assert(p(at));
                let first = codes(before[at].0);
                law_paths_are_ordered(key, first, key);
                if j - 1 > at {
                    assert(!precedes(codes(before[j - 1].0), first));
                    law_paths_are_ordered(codes(before[j - 1].0), key, first);
                }
            } else if j < at {
                assert(after[i] == before[i] && after[j] == before[j]);
            } else if i < at {
                assert(after[i] == before[i] && after[j] == before[j - 1]);
            } else {
                assert(after[i] == before[i - 1] && after[j] == before[j - 1]);
            }
        }
    }
}

/// A float is written as the first text that is given for it; one that no text
/// is given for is written as null.
pub proof fn law_floats_are_written_as_given(
    floats: Seq<(Measure, Seq<char>)>,
    x: Measure,
    i: int,
)
    ensures
        0 <= i < floats.len() && floats[i].0 == x && (forall|j: int|
            0 <= j < i ==> (#[trigger] floats[j]).0 != x) ==> json_text(JsonModel::Float(x), floats)
            == floats[i].1,
        (forall|j: int| 0 <= j < floats.len() ==> (#[trigger] floats[j]).0 != x) ==> json_text(
            JsonModel::Float(x),
            floats,
        ) == "null"@,
{
    let p = text_for(floats, x);
    let n = floats.len() as int;
    if 0 <= i < n && floats[i].0 == x && (forall|j: int|
        0 <= j < i ==> (#[trigger] floats[j]).0 != x) {
        assert forall|j: int| 0 <= j < i implies !#[trigger] p(j) by {
            assert(floats[j].0 != x);
        }
        assert(p(i));
        lemma_seek_is(p, 0, n, i);
    }
    if forall|j: int| 0 <= j < n ==> (#[trigger] floats[j]).0 != x {
        assert forall|j: int| 0 <= j < n implies !#[trigger] p(j) by {
            assert(floats[j].0 != x);
        }
        lemma_seek_is(p, 0, n, n);
    }
}

} // verus!
