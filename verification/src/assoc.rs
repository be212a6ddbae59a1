//! Lists of pairs with texts as keys.

use vstd::prelude::*;

use crate::text::{first_in, lemma_seek, lemma_seek_is, position, same_text};

verus! {

/// Holds at the pairs with the given key.
pub open spec fn keyed<V>(pairs: Seq<(Seq<char>, V)>, key: Seq<char>) -> spec_fn(int) -> bool {
    |i: int| pairs[i].0 == key
}

/// Where the key stands first.
pub open spec fn key_position<V>(pairs: Seq<(Seq<char>, V)>, key: Seq<char>) -> Option<int> {
    first_in(keyed(pairs, key), 0, pairs.len() as int)
}

/// The value of the first pair with the key.
pub open spec fn lookup<V>(pairs: Seq<(Seq<char>, V)>, key: Seq<char>) -> Option<V> {
    match key_position(pairs, key) {
        Some(i) => Some(pairs[i].1),
        None => None,
    }
}

/// The list with `value` under `key`: in place where the key is there, else at
/// the end.
pub open spec fn put<V>(pairs: Seq<(Seq<char>, V)>, key: Seq<char>, value: V) -> Seq<
    (Seq<char>, V),
> {
    match key_position(pairs, key) {
        Some(i) => pairs.update(i, (key, value)),
        None => pairs.push((key, value)),
    }
}

/// No key occurs twice.
pub open spec fn distinct_keys<V>(pairs: Seq<(Seq<char>, V)>) -> bool {
    forall|i: int, j: int|
        0 <= i < j < pairs.len() ==> (#[trigger] pairs[i]).0 != (#[trigger] pairs[j]).0
}

/// The key's position is in range, and it is the first.
pub proof fn lemma_key_position<V>(pairs: Seq<(Seq<char>, V)>, key: Seq<char>)
    ensures
        key_position(pairs, key) matches Some(i) ==> 0 <= i < pairs.len() && pairs[i].0 == key,
        key_position(pairs, key) is None ==> forall|i: int|
            0 <= i < pairs.len() ==> (#[trigger] pairs[i]).0 != key,
{
    lemma_seek(keyed(pairs, key), 0, pairs.len() as int);
    if key_position(pairs, key) is None {
        assert forall|i: int| 0 <= i < pairs.len() implies (#[trigger] pairs[i]).0 != key by {
            assert(!keyed(pairs, key)(i));
        }
    }
}

/// The key's position is the first one with the key, where there is one.
pub proof fn lemma_first_key<V>(pairs: Seq<(Seq<char>, V)>, key: Seq<char>)
    ensures
        match key_position(pairs, key) {
            Some(i) => 0 <= i < pairs.len() && pairs[i].0 == key && forall|j: int|
                0 <= j < i ==> (#[trigger] pairs[j]).0 != key,
            None => forall|j: int| 0 <= j < pairs.len() ==> (#[trigger] pairs[j]).0 != key,
        },
{
    lemma_key_position(pairs, key);
    lemma_seek(keyed(pairs, key), 0, pairs.len() as int);
    match key_position(pairs, key) {
        Some(i) => {
            assert forall|j: int| 0 <= j < i implies (#[trigger] pairs[j]).0 != key by {
                assert(!keyed(pairs, key)(j));
            }
        },
        None => {},
    }
}

/// Putting a value keeps the keys distinct.
pub proof fn lemma_put_distinct<V>(pairs: Seq<(Seq<char>, V)>, key: Seq<char>, value: V)
    requires
        distinct_keys(pairs),
    ensures
        distinct_keys(put(pairs, key, value)),
{
    lemma_key_position(pairs, key);
    let after = put(pairs, key, value);
    assert forall|i: int, j: int| 0 <= i < j < after.len() implies (#[trigger] after[i]).0 != (
    #[trigger] after[j]).0 by {
        if j < pairs.len() {
            assert(pairs[i].0 != pairs[j].0);
        } else {
            assert(pairs[i].0 != key);
        }
    }
}

/// Where the key stands first.
pub fn find_key<V: DeepView>(pairs: &Vec<(String, V)>, key: &str) -> (r: Option<usize>)
    ensures
        position(r) == key_position(pairs.deep_view(), key@),
        r is Some ==> r->0 < pairs.len(),
{
    let ghost p = keyed(pairs.deep_view(), key@);
    let mut i: usize = 0;
    while i < pairs.len()
        invariant
            i <= pairs.len(),
            p == keyed(pairs.deep_view(), key@),
            forall|j: int| 0 <= j < i ==> !#[trigger] p(j),
        decreases pairs.len() - i,
    {
        assert(pairs.deep_view()[i as int].0 == pairs@[i as int].0@);
        if same_text(pairs[i].0.as_str(), key) {
            proof {
                assert(p(i as int));
                lemma_seek_is(p, 0, pairs.deep_view().len() as int, i as int);
            }
            return Some(i);
        }
        assert(!p(i as int));
        i = i + 1;
    }
    proof {
        lemma_seek_is(p, 0, pairs.deep_view().len() as int, i as int);
    }
    None
}

/// Puts `value` under `key`.
pub fn put_pair<V: DeepView>(pairs: &mut Vec<(String, V)>, key: String, value: V)
    ensures
        final(pairs).deep_view() == put(old(pairs).deep_view(), key@, value.deep_view()),
{
    let ghost before = pairs.deep_view();
    let ghost k = key@;
    let ghost v = value.deep_view();
    match find_key(pairs, key.as_str()) {
        Some(i) => {
            pairs.set(i, (key, value));
            assert(pairs.deep_view() =~= before.update(i as int, (k, v)));
        },
        None => {
            pairs.push((key, value));
            assert(pairs.deep_view() =~= before.push((k, v)));
        },
    }
}

} // verus!
