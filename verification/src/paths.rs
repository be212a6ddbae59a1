//! Paths as texts: joining, comparing, sorting.
//!
//! A path is compared by its components: repeated and trailing slashes do not
//! count, nor does `.` but at the start of a relative path.

use vstd::prelude::*;
use vstd::string::*;

use crate::text::{chars_of, lemma_seek, lemma_seek_is, seek, split, split_chars, texts};

verus! {

/// `rel` below `base`; an absolute `rel` stands for itself.
pub open spec fn joined(base: Seq<char>, rel: Seq<char>) -> Seq<char> {
    if base.len() == 0 || (rel.len() > 0 && rel[0] == '/') {
        rel
    } else if base.last() == '/' {
        base + rel
    } else {
        base.push('/') + rel
    }
}

/// The path `rel` below `base`; an absolute `rel` stands for itself.
pub fn join_path(base: &str, rel: &str) -> (r: String)
    ensures
        r@ == joined(base@, rel@),
{
    let b = chars_of(base);
    let c = chars_of(rel);
    if b.len() == 0 || (c.len() > 0 && c[0] == '/') {
        return String::from_str(rel);
    }
    let mut out = String::from_str(base);
    if b[b.len() - 1] != '/' {
        out.push('/');
    }
    out.append(rel);
    out
}

// ---------------------------------------------------------------------------
// Order
// ---------------------------------------------------------------------------

/// The characters of a name as numbers, each one greater than its own.
pub open spec fn name_key(name: Seq<char>) -> Seq<u32> {
    name.map_values(|c: char| (c as u32 + 1) as u32)
}

/// A component as numbers that order components: the root comes first, then
/// `.`, then `..`, then names, by their characters.
pub open spec fn part_key(part: Seq<char>, first: bool) -> Seq<u32> {
    if part.len() == 0 {
        Seq::empty()
    } else if part == seq!['.'] {
        if first {
            seq![1u32]
        } else {
            Seq::empty()
        }
    } else if part == seq!['.', '.'] {
        seq![2u32]
    } else {
        seq![3u32] + name_key(part) + seq![0u32]
    }
}

/// The components of a path without its root, as numbers.
pub open spec fn parts_key(parts: Seq<Seq<char>>) -> Seq<u32>
    decreases parts.len(),
{
    if parts.len() == 0 {
        Seq::empty()
    } else {
        parts_key(parts.drop_last()) + part_key(parts.last(), parts.len() == 1)
    }
}

/// A path as numbers: two paths are the same if these are, and stand in the
/// order in which these stand.
pub open spec fn path_key(path: Seq<char>) -> Seq<u32> {
    let rest = parts_key(split(path, '/'));
    if path.len() > 0 && path[0] == '/' {
        seq![0u32] + rest
    } else {
        rest
    }
}

/// Appends the numbers of a component.
fn push_part(out: &mut Vec<u32>, part: &Vec<char>, first: bool)
    ensures
        final(out)@ == old(out)@ + part_key(part@, first),
{
    let ghost start = out@;
    if part.len() == 0 {
        assert(out@ =~= start + part_key(part@, first));
        return;
    }
    if part.len() == 1 && part[0] == '.' {
        assert(part@ =~= seq!['.']);
        if first {
            out.push(1);
        }
        assert(out@ =~= start + part_key(part@, first));
        return;
    }
    if part.len() == 2 && part[0] == '.' && part[1] == '.' {
        assert(part@ =~= seq!['.', '.']);
        out.push(2);
        assert(out@ =~= start + part_key(part@, first));
        return;
    }
    proof {
        assert(part@ != seq!['.']) by {
            if part@ == seq!['.'] {
                assert(part@.len() == 1 && part@[0] == '.');
            }
        }
        assert(part@ != seq!['.', '.']) by {
            if part@ == seq!['.', '.'] {
                assert(part@.len() == 2 && part@[0] == '.' && part@[1] == '.');
            }
        }
    }
    out.push(3);
    let mut i: usize = 0;
    while i < part.len()
        invariant
            i <= part.len(),
            out@ == start + seq![3u32] + name_key(part@).take(i as int),
        decreases part.len() - i,
    {
        let c: char = part[i];
        let n: u32 = c as u32;
        proof {
            vstd::utf8::char_is_scalar(c);
        }
        out.push(n + 1);
        assert(out@ =~= start + seq![3u32] + name_key(part@).take(i + 1));
        i = i + 1;
    }
    out.push(0);
    assert(out@ =~= start + part_key(part@, first));
}

/// A path as numbers.
pub fn key_of(path: &str) -> (r: Vec<u32>)
    ensures
        r@ == path_key(path@),
{
    let chars = chars_of(path);
    let parts = split_chars(&chars, '/');
    let ghost all = texts(parts@);
    let mut out: Vec<u32> = Vec::new();
    if chars.len() > 0 && chars[0] == '/' {
        out.push(0);
    }
    let ghost start = out@;
    let mut k: usize = 0;
    proof {
        assert(all.take(0) =~= Seq::<Seq<char>>::empty());
        assert(out@ =~= start + parts_key(all.take(0)));
    }
    while k < parts.len()
        invariant
            k <= parts.len(),
            all == texts(parts@),
            out@ == start + parts_key(all.take(k as int)),
        decreases parts.len() - k,
    {
        let ghost before = out@;
        push_part(&mut out, &parts[k], k == 0);
        proof {
            assert(all.take(k + 1).drop_last() =~= all.take(k as int));
            assert(all.take(k + 1).last() == parts@[k as int]@);
            assert(out@ =~= start + parts_key(all.take(k + 1)));
        }
        k = k + 1;
    }
    proof {
        assert(all.take(all.len() as int) =~= all);
        assert(out@ =~= path_key(path@));
    }
    out
}

/// Holds where the second run has ended or differs.
pub open spec fn parts_ways(a: Seq<u32>, b: Seq<u32>) -> spec_fn(int) -> bool {
    |i: int| i >= b.len() || a[i] != b[i]
}

/// How far two runs of numbers agree.
pub open spec fn agreement(a: Seq<u32>, b: Seq<u32>) -> int {
    seek(parts_ways(a, b), 0, a.len() as int)
}

/// `a` stands before `b`: it is smaller where they first differ, or it is a
/// front part of `b`.
pub open spec fn precedes(a: Seq<u32>, b: Seq<u32>) -> bool {
    let k = agreement(a, b);
    if k < a.len() {
        k < b.len() && a[k] < b[k]
    } else {
        a.len() < b.len()
    }
}

/// Whether `a` stands before `b`.
pub fn key_precedes(a: &Vec<u32>, b: &Vec<u32>) -> (r: bool)
    ensures
        r == precedes(a@, b@),
{
    let mut k: usize = 0;
    while k < a.len() && k < b.len() && a[k] == b[k]
        invariant
            k <= a.len(),
            k <= b.len(),
            forall|j: int| 0 <= j < k ==> !#[trigger] parts_ways(a@, b@)(j),
        decreases a.len() - k,
    {
        k = k + 1;
    }
    proof {
        lemma_seek_is(parts_ways(a@, b@), 0, a@.len() as int, k as int);
    }
    if k < a.len() {
        k < b.len() && a[k] < b[k]
    } else {
        a.len() < b.len()
    }
}

/// Whether two runs of numbers are the same.
pub fn same_key(a: &Vec<u32>, b: &Vec<u32>) -> (r: bool)
    ensures
        r == (a@ == b@),
{
    if a.len() != b.len() {
        return false;
    }
    let mut k: usize = 0;
    while k < a.len()
        invariant
            k <= a.len(),
            a.len() == b.len(),
            forall|j: int| 0 <= j < k ==> a@[j] == b@[j],
        decreases a.len() - k,
    {
        if a[k] != b[k] {
            return false;
        }
        k = k + 1;
    }
    assert(a@ =~= b@);
    true
}

/// Whether two paths have the same components.
pub fn same_path(a: &str, b: &str) -> (r: bool)
    ensures
        r == (path_key(a@) == path_key(b@)),
{
    same_key(&key_of(a), &key_of(b))
}

// ---------------------------------------------------------------------------
// Sorting
// ---------------------------------------------------------------------------

/// Holds at the paths that a path stands before.
pub open spec fn later(paths: Seq<Seq<char>>, path: Seq<char>) -> spec_fn(int) -> bool {
    |i: int| precedes(path_key(path), path_key(paths[i]))
}

/// Sorted paths with one more: in front of the first path that it precedes.
pub open spec fn with_path(paths: Seq<Seq<char>>, path: Seq<char>) -> Seq<Seq<char>> {
    paths.insert(seek(later(paths, path), 0, paths.len() as int), path)
}

/// The paths in order; paths with the same components stay as they stand.
pub open spec fn sorted(paths: Seq<Seq<char>>) -> Seq<Seq<char>>
    decreases paths.len(),
{
    if paths.len() == 0 {
        Seq::empty()
    } else {
        with_path(sorted(paths.drop_last()), paths.last())
    }
}

/// Sorts paths.
pub fn sort_paths(paths: &Vec<String>) -> (r: Vec<String>)
    ensures
        r.deep_view() == sorted(paths.deep_view()),
{
    let ghost all = paths.deep_view();
    let mut out: Vec<String> = Vec::new();
    let mut k: usize = 0;
    proof {
        assert(all.take(0) =~= Seq::<Seq<char>>::empty());
        assert(out.deep_view() =~= Seq::<Seq<char>>::empty());
    }
    while k < paths.len()
        invariant
            k <= paths.len(),
            all == paths.deep_view(),
            out@.len() == k,
            out.deep_view() == sorted(all.take(k as int)),
        decreases paths.len() - k,
    {
        let path = paths[k].clone();
        let key = key_of(path.as_str());
        let ghost before = out.deep_view();
        let ghost p = later(before, path@);
        let mut i: usize = 0;
        while i < out.len()
            invariant
                i <= out.len(),
                before == out.deep_view(),
                key@ == path_key(path@),
                p == later(before, path@),
                forall|j: int| 0 <= j < i ==> !#[trigger] p(j),
            ensures
                i <= out.len(),
                i < out.len() ==> p(i as int),
                forall|j: int| 0 <= j < i ==> !#[trigger] p(j),
            decreases out.len() - i,
        {
            assert(before[i as int] == out@[i as int]@);
            if key_precedes(&key, &key_of(out[i].as_str())) {
                assert(p(i as int));
                break;
            }
            assert(!p(i as int));
            i = i + 1;
        }
        proof {
            lemma_seek_is(p, 0, before.len() as int, i as int);
            assert(all.take(k + 1).drop_last() =~= all.take(k as int));
            assert(all.take(k + 1).last() == path@);
        }
        out.insert(i, path);
        assert(out.deep_view() =~= before.insert(i as int, path@));
        k = k + 1;
    }
    assert(all.take(all.len() as int) =~= all);
    out
}

// ---------------------------------------------------------------------------
// Laws
// ---------------------------------------------------------------------------

/// What two runs agree on.
proof fn lemma_agreement(a: Seq<u32>, b: Seq<u32>)
    ensures
        0 <= agreement(a, b) <= a.len(),
        agreement(a, b) <= b.len(),
        forall|j: int| 0 <= j < agreement(a, b) ==> a[j] == b[j],
        agreement(a, b) < a.len() && agreement(a, b) < b.len() ==> a[agreement(a, b)]
            != b[agreement(a, b)],
{
    let k = agreement(a, b);
    lemma_seek(parts_ways(a, b), 0, a.len() as int);
    assert forall|j: int| 0 <= j < k implies j < b.len() && a[j] == b[j] by {
        assert(!parts_ways(a, b)(j));
    }
    assert(k > 0 ==> !parts_ways(a, b)(k - 1));
}

/// Two runs agree exactly as far as they are the same.
pub proof fn lemma_agreement_is(a: Seq<u32>, b: Seq<u32>, k: int)
    requires
        0 <= k <= a.len(),
        k <= b.len(),
        forall|j: int| 0 <= j < k ==> a[j] == b[j],
        k < a.len() ==> k == b.len() || a[k] != b[k],
    ensures
        agreement(a, b) == k,
{
    assert forall|j: int| 0 <= j < k implies !#[trigger] parts_ways(a, b)(j) by {
        assert(a[j] == b[j]);
    }
    lemma_seek_is(parts_ways(a, b), 0, a.len() as int, k);
}

/// The order of paths is strict and total: of two paths with different
/// components one precedes the other, and never both; precedence is
/// transitive.
pub proof fn law_paths_are_ordered(a: Seq<u32>, b: Seq<u32>, c: Seq<u32>)
    ensures
        !precedes(a, a),
        precedes(a, b) ==> !precedes(b, a),
        a != b ==> precedes(a, b) || precedes(b, a),
        precedes(a, b) && precedes(b, c) ==> precedes(a, c),
{
    let ab = agreement(a, b);
    lemma_agreement(a, a);
    lemma_agreement_is(a, a, a.len() as int);
    lemma_agreement(a, b);
    lemma_agreement_is(b, a, ab);
    if ab == a.len() && ab == b.len() {
        assert(a =~= b);
    }
    if precedes(a, b) && precedes(b, c) {
        let bc = agreement(b, c);
        lemma_agreement(b, c);
        let k = if ab < bc {
            ab
        } else {
            bc
        };
        lemma_agreement_is(a, c, k);
    }
}

/// Sorting orders: no path precedes one that stands before it.
pub proof fn law_sorted_is_ordered(paths: Seq<Seq<char>>)
    ensures
        forall|i: int, j: int|
            0 <= i < j < sorted(paths).len() ==> !precedes(
                path_key(#[trigger] sorted(paths)[j]),
                path_key(#[trigger] sorted(paths)[i]),
            ),
    decreases paths.len(),
{
    if paths.len() > 0 {
        let before = sorted(paths.drop_last());
        let path = paths.last();
        let p = later(before, path);
        let at = seek(p, 0, before.len() as int);
        law_sorted_is_ordered(paths.drop_last());
        lemma_seek(p, 0, before.len() as int);
        let after = before.insert(at, path);
        assert forall|i: int, j: int| 0 <= i < j < after.len() implies !precedes(
            path_key(#[trigger] after[j]),
            path_key(#[trigger] after[i]),
        ) by {
            let key = path_key(path);
            if i < at && j == at {
                assert(after[i] == before[i]);
                assert(!p(i));
            } else if i == at {
                assert(after[j] == before[j - 1]);
                assert(p(at));
                let first = path_key(before[at]);
                law_paths_are_ordered(key, first, key);
                if j - 1 > at {
                    assert(!precedes(path_key(before[j - 1]), first));
                    law_paths_are_ordered(path_key(before[j - 1]), key, first);
                }
            } else if j < at {
                assert(after[i] == before[i] && after[j] == before[j]);
            } else if i < at {
                assert(after[i] == before[i] && after[j] == before[j - 1]);
            } else {
                assert(after[i] == before[i - 1] && after[j] == before[j - 1]);
            }
        }
    }
}

/// Sorting neither loses nor adds a path.
pub proof fn law_sorted_keeps_paths(paths: Seq<Seq<char>>)
    ensures
        sorted(paths).to_multiset() == paths.to_multiset(),
    decreases paths.len(),
{
    broadcast use vstd::seq_lib::group_to_multiset_ensures;

    if paths.len() > 0 {
        let before = sorted(paths.drop_last());
        let path = paths.last();
        let at = seek(later(before, path), 0, before.len() as int);
        law_sorted_keeps_paths(paths.drop_last());
        lemma_seek(later(before, path), 0, before.len() as int);
        vstd::seq_lib::lemma_multiset_commutative(
            before.subrange(0, at).push(path),
            before.subrange(at, before.len() as int),
        );
        vstd::seq_lib::lemma_multiset_commutative(
            before.subrange(0, at),
            before.subrange(at, before.len() as int),
        );
        assert(before.subrange(0, at) + before.subrange(at, before.len() as int) =~= before);
        assert(paths =~= paths.drop_last().push(path));
        assert(sorted(paths).to_multiset() =~= paths.to_multiset());
    } else {
        assert(paths =~= Seq::<Seq<char>>::empty());
    }
}

/// Paths with the same components are written the same.
pub open spec fn written_alike(paths: Seq<Seq<char>>) -> bool {
    forall|p: Seq<char>, q: Seq<char>|
        #![trigger paths.contains(p), paths.contains(q)]
        paths.contains(p) && paths.contains(q) && path_key(p) == path_key(q) ==> p == q
}

/// No path precedes one that stands before it.
spec fn ordered(paths: Seq<Seq<char>>) -> bool {
    forall|i: int, j: int|
        0 <= i < j < paths.len() ==> !precedes(
            path_key(#[trigger] paths[j]),
            path_key(#[trigger] paths[i]),
        )
}

/// There is one way to order given paths.
proof fn lemma_order_is_unique(a: Seq<Seq<char>>, b: Seq<Seq<char>>)
    requires
        ordered(a),
        ordered(b),
        a.to_multiset() == b.to_multiset(),
        written_alike(a),
    ensures
        a == b,
    decreases a.len(),
{
    broadcast use vstd::seq_lib::group_to_multiset_ensures;

    assert(a.len() == a.to_multiset().len());
    assert(b.len() == b.to_multiset().len());
    if a.len() > 0 {
        let x = a.last();
        let y = b.last();
        assert(a[a.len() - 1] == x);
        assert(b[b.len() - 1] == y);
        assert(a.contains(x));
        assert(b.contains(y));
        assert(b.to_multiset().contains(x));
        assert(a.to_multiset().contains(y));
        assert(b.contains(x));
        assert(a.contains(y));
        let i = choose|i: int| 0 <= i < a.len() && a[i] == y;
        let j = choose|j: int| 0 <= j < b.len() && b[j] == x;
        law_paths_are_ordered(path_key(x), path_key(y), path_key(x));
        assert(!precedes(path_key(x), path_key(y))) by {
            if i < a.len() - 1 {
                assert(!precedes(path_key(a[a.len() - 1]), path_key(a[i])));
            }
        }
        assert(!precedes(path_key(y), path_key(x))) by {
            law_paths_are_ordered(path_key(y), path_key(x), path_key(y));
            if j < b.len() - 1 {
                assert(!precedes(path_key(b[b.len() - 1]), path_key(b[j])));
            }
        }
        assert(x == y);
        let fa = a.drop_last();
        let fb = b.drop_last();
        assert(a =~= fa.push(x));
        assert(b =~= fb.push(x));
        assert(a.to_multiset() == fa.to_multiset().insert(x));
        assert(b.to_multiset() == fb.to_multiset().insert(x));
        assert(fa.to_multiset() =~= a.to_multiset().remove(x));
        assert(fb.to_multiset() =~= b.to_multiset().remove(x));
        assert(written_alike(fa)) by {
            assert forall|p: Seq<char>, q: Seq<char>|
                #![trigger fa.contains(p), fa.contains(q)]
                fa.contains(p) && fa.contains(q) && path_key(p) == path_key(q) implies p == q by {
                let k = choose|k: int| 0 <= k < fa.len() && fa[k] == p;
                let l = choose|l: int| 0 <= l < fa.len() && fa[l] == q;
                assert(a[k] == p && a[l] == q);
                assert(a.contains(p) && a.contains(q));
            }
        }
        assert(ordered(fa)) by {
            assert forall|k: int, l: int| 0 <= k < l < fa.len() implies !precedes(
                path_key(#[trigger] fa[l]),
                path_key(#[trigger] fa[k]),
            ) by {
                assert(!precedes(path_key(a[l]), path_key(a[k])));
            }
        }
        assert(ordered(fb)) by {
            assert forall|k: int, l: int| 0 <= k < l < fb.len() implies !precedes(
                path_key(#[trigger] fb[l]),
                path_key(#[trigger] fb[k]),
            ) by {
                assert(!precedes(path_key(b[l]), path_key(b[k])));
            }
        }
        lemma_order_is_unique(fa, fb);
    } else {
        assert(a =~= b);
    }
}

/// Sorting the same paths in any other order gives the same, as long as paths
/// with the same components are written the same.
pub proof fn law_sorting_ignores_order(a: Seq<Seq<char>>, b: Seq<Seq<char>>)
    requires
        a.to_multiset() == b.to_multiset(),
        written_alike(a),
    ensures
        sorted(a) == sorted(b),
{
    broadcast use vstd::seq_lib::group_to_multiset_ensures;

    law_sorted_is_ordered(a);
    law_sorted_is_ordered(b);
    law_sorted_keeps_paths(a);
    law_sorted_keeps_paths(b);
    let s = sorted(a);
    assert forall|p: Seq<char>| #[trigger] s.contains(p) implies a.contains(p) by {
        assert(s.to_multiset().contains(p));
        assert(a.to_multiset().contains(p));
    }
    assert forall|p: Seq<char>, q: Seq<char>|
        #![trigger s.contains(p), s.contains(q)]
        s.contains(p) && s.contains(q) && path_key(p) == path_key(q) implies p == q by {
        assert(a.contains(p) && a.contains(q));
    }
    lemma_order_is_unique(sorted(a), sorted(b));
}

} // verus!
