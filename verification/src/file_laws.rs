//! Laws of paths and files: what paths are made of, which files are compared,
//! and what a diff tells.

use vstd::prelude::*;

use crate::paths::{
    joined, law_paths_are_ordered, law_sorted_is_ordered, law_sorted_keeps_paths,
    lemma_agreement_is, name_key, part_key, parts_key, path_key, precedes, sorted,
};
use crate::sources::FileModel;
use crate::storage::{
    all_paths, content_of, deduped, diff_side, diffs, file_at, file_diff, file_paths,
    lemma_all_paths, lemma_content_key, slashed, unified_text,
};
use crate::text::{
    join, lemma_seek, lemma_seek_is, lemma_split_append, lemma_split_join, lemma_split_nonempty,
    lemma_split_one, occurs, occurs_at, split,
};
use crate::workspace::{file_name, is_baml, last_dot, open_entry, WalkedEntry};

verus! {

// ---------------------------------------------------------------------------
// Components
// ---------------------------------------------------------------------------

/// The pieces of two texts with the separator between them are those of the
/// first, then those of the second.
pub proof fn law_pieces_are_those_of_both(s: Seq<char>, t: Seq<char>, sep: char)
    ensures
        split(s.push(sep) + t, sep) == split(s, sep) + split(t, sep),
    decreases t.len(),
{
    let whole = s.push(sep) + t;
    if t.len() == 0 {
        assert(whole =~= s.push(sep));
        assert(whole.drop_last() =~= s);
        assert(split(t, sep) =~= seq![Seq::<char>::empty()]);
        assert(split(whole, sep) =~= split(s, sep) + split(t, sep));
    } else {
        let front = t.drop_last();
        law_pieces_are_those_of_both(s, front, sep);
        lemma_split_nonempty(front, sep);
        assert(whole.drop_last() =~= s.push(sep) + front);
        assert(whole.last() == t.last());
        let before = split(front, sep);
        let both = split(s, sep) + before;
        assert(both.last() == before.last());
        assert(both.drop_last() =~= split(s, sep) + before.drop_last());
        assert(split(whole, sep) =~= split(s, sep) + split(t, sep));
    }
}

/// The numbers of components behind others follow theirs.
proof fn lemma_parts_key_append(a: Seq<Seq<char>>, b: Seq<Seq<char>>)
    requires
        a.len() > 0,
        b.len() > 0 ==> b[0] != seq!['.'],
    ensures
        parts_key(a + b) == parts_key(a) + parts_key(b),
    decreases b.len(),
{
    if b.len() == 0 {
        assert(a + b =~= a);
        assert(parts_key(a) + parts_key(b) =~= parts_key(a));
    } else {
        let front = b.drop_last();
        lemma_parts_key_append(a, front);
        assert((a + b).drop_last() =~= a + front);
        assert((a + b).last() == b.last());
        assert(part_key(b.last(), false) == part_key(b.last(), b.len() == 1));
        assert(parts_key(a + b) =~= parts_key(a) + parts_key(b));
    }
}

/// A path below another has the components of the other, then its own; a
/// trailing slash of the other makes no difference.
pub proof fn law_joined_paths_have_both_components(base: Seq<char>, rel: Seq<char>)
    requires
        base.len() > 0,
        rel.len() > 0 ==> rel[0] != '/',
        split(rel, '/')[0] != seq!['.'],
    ensures
        path_key(joined(base, rel)) == path_key(base) + path_key(rel),
{
    let whole = joined(base, rel);
    let parts = split(rel, '/');
    lemma_split_nonempty(rel, '/');
    lemma_split_nonempty(base, '/');
    assert(whole[0] == base[0]);
    if base.last() == '/' {
        let front = base.drop_last();
        assert(base =~= front.push('/'));
        assert(whole =~= front.push('/') + rel);
        law_pieces_are_those_of_both(front, rel, '/');
        lemma_split_nonempty(front, '/');
        lemma_parts_key_append(split(front, '/'), parts);
        let pieces = split(base, '/');
        assert(pieces == split(front, '/').push(Seq::<char>::empty()));
        assert(pieces.drop_last() =~= split(front, '/'));
        assert(parts_key(pieces) =~= parts_key(split(front, '/')));
    } else {
        assert(whole =~= base.push('/') + rel);
        law_pieces_are_those_of_both(base, rel, '/');
        lemma_parts_key_append(split(base, '/'), parts);
    }
    assert(path_key(whole) =~= path_key(base) + path_key(rel));
}

/// What counts as a component: a trailing slash does not, nor does `.` behind
/// something; `..` does, and so does `.` at the start of a relative path.
pub proof fn law_dots_and_slashes_as_components(path: Seq<char>, rel: Seq<char>)
    requires
        path.len() > 0,
        rel.len() > 0 ==> rel[0] != '/',
        split(rel, '/')[0] != seq!['.'],
    ensures
        path_key(path.push('/')) == path_key(path),
        path_key(path.push('/').push('.')) == path_key(path),
        path_key(path.push('/').push('.').push('.')).len() == path_key(path).len() + 1,
        path_key(path.push('/').push('.').push('.')).drop_last() == path_key(path),
        path_key(seq!['.', '/'] + rel).len() == path_key(rel).len() + 1,
        path_key(seq!['.', '/'] + rel).skip(1) == path_key(rel),
{
    let none = Seq::<char>::empty();
    let dot = seq!['.'];
    let dots = seq!['.', '.'];
    let parts = split(path, '/');
    lemma_split_nonempty(path, '/');
    lemma_split_append(path, none, '/');
    assert(path.push('/') + none =~= path.push('/'));
    assert(parts.push(none).drop_last() =~= parts);
    assert(parts_key(parts.push(none)) =~= parts_key(parts));
    lemma_split_append(path, dot, '/');
    assert(path.push('/') + dot =~= path.push('/').push('.'));
    assert(parts.push(dot).drop_last() =~= parts);
    assert(parts_key(parts.push(dot)) =~= parts_key(parts));
    lemma_split_append(path, dots, '/');
    assert(path.push('/') + dots =~= path.push('/').push('.').push('.'));
    assert(parts.push(dots).drop_last() =~= parts);
    assert(dots.len() == 2 && dot.len() == 1);
    assert(parts_key(parts.push(dots)) =~= parts_key(parts).push(2u32));
    assert(path_key(path.push('/').push('.').push('.')) =~= path_key(path).push(2u32));
    assert(path_key(path).push(2u32).drop_last() =~= path_key(path));
    let here = dot.push('/') + rel;
    assert(seq!['.', '/'] + rel =~= here);
    law_pieces_are_those_of_both(dot, rel, '/');
    assert(!dot.contains('/'));
    lemma_split_one(dot, '/');
    lemma_split_nonempty(rel, '/');
    lemma_parts_key_append(seq![dot], split(rel, '/'));
    assert(seq![dot].drop_last() =~= Seq::<Seq<char>>::empty());
    assert(seq![dot].last() == dot);
    assert(seq![dot].len() == 1);
    assert(parts_key(Seq::<Seq<char>>::empty()) =~= Seq::<u32>::empty());
    assert(part_key(dot, true) == seq![1u32]);
    assert(parts_key(seq![dot]) =~= parts_key(seq![dot].drop_last()) + part_key(dot, true));
    assert(parts_key(seq![dot]) =~= seq![1u32]);
    assert(path_key(here) =~= seq![1u32] + path_key(rel));
    assert(path_key(here).skip(1) =~= path_key(rel));
}

/// A path below another begins with the other and ends with itself, with one
/// slash between them; an absolute path stands for itself.
pub proof fn law_joined_paths_hold_both_texts(base: Seq<char>, rel: Seq<char>)
    requires
        base.len() > 0,
    ensures
        rel.len() > 0 && rel[0] == '/' ==> joined(base, rel) == rel,
        !(rel.len() > 0 && rel[0] == '/') ==> {
            let whole = joined(base, rel);
            &&& whole.take(base.len() as int) == base
            &&& whole.skip(whole.len() - rel.len()) == rel
            &&& whole.len() - rel.len() > 0
            &&& whole[whole.len() - rel.len() - 1] == '/'
            &&& base.last() != '/' ==> whole.len() == base.len() + 1 + rel.len()
            &&& base.last() == '/' ==> whole.len() == base.len() + rel.len()
        },
{
    if !(rel.len() > 0 && rel[0] == '/') {
        let whole = joined(base, rel);
        assert(whole.take(base.len() as int) =~= base);
        assert(whole.skip(whole.len() - rel.len()) =~= rel);
    }
}

/// A name that a component of a path can have.
pub open spec fn plain_name(name: Seq<char>) -> bool {
    &&& name.len() > 0
    &&& !name.contains('/')
    &&& name != seq!['.']
    &&& name != seq!['.', '.']
}

/// Each is a name.
pub open spec fn plain_names(names: Seq<Seq<char>>) -> bool {
    forall|k: int| 0 <= k < names.len() ==> plain_name(#[trigger] names[k])
}

/// The first text stands at the beginning of the joined text.
proof fn lemma_join_first(parts: Seq<Seq<char>>, sep: Seq<char>)
    requires
        parts.len() > 0,
    ensures
        parts[0].len() <= join(parts, sep).len(),
        join(parts, sep).take(parts[0].len() as int) == parts[0],
    decreases parts.len(),
{
    let n = parts[0].len() as int;
    if parts.len() == 1 {
        assert(parts[0].take(n) =~= parts[0]);
    } else {
        let front = parts.drop_last();
        lemma_join_first(front, sep);
        assert(front[0] == parts[0]);
        assert(join(parts, sep).take(n) =~= join(front, sep).take(n));
    }
}

/// The numbers of a path made of names are those of its names.
proof fn lemma_named_path(names: Seq<Seq<char>>)
    requires
        names.len() > 0,
        plain_names(names),
    ensures
        path_key(join(names, seq!['/'])) == parts_key(names),
{
    let path = join(names, seq!['/']);
    assert forall|k: int| 0 <= k < names.len() implies !(#[trigger] names[k]).contains('/') by {
        assert(plain_name(names[k]));
    }
    lemma_split_join(names, '/');
    lemma_join_first(names, seq!['/']);
    assert(plain_name(names[0]));
    assert(path[0] == path.take(names[0].len() as int)[0]);
    assert(names[0].contains(names[0][0]));
}

/// The numbers of names, with those of one of them picked out.
proof fn lemma_picked_name(before: Seq<Seq<char>>, name: Seq<char>, after: Seq<Seq<char>>)
    requires
        plain_names(before),
        plain_name(name),
        plain_names(after),
    ensures
        plain_names(before.push(name) + after),
        parts_key(before.push(name) + after) == parts_key(before) + (seq![3u32] + name_key(name)
            + seq![0u32]) + parts_key(after),
{
    let upto = before.push(name);
    assert(upto.drop_last() =~= before);
    assert forall|k: int| 0 <= k < (upto + after).len() implies plain_name(
        #[trigger] (upto + after)[k],
    ) by {
        if k < before.len() {
            assert((upto + after)[k] == before[k]);
        } else if k > before.len() {
            assert((upto + after)[k] == after[k - upto.len()]);
        }
    }
    if after.len() > 0 {
        assert(plain_name(after[0]));
    }
    lemma_parts_key_append(upto, after);
}

/// The number of a character of a name.
proof fn lemma_name_key(name: Seq<char>, i: int)
    requires
        0 <= i < name.len(),
    ensures
        name_key(name)[i] as int == name[i] as int + 1,
        name_key(name)[i] > 0,
{
    lemma_char_key(name[i]);
}

proof fn lemma_char_key(c: char)
    ensures
        (c as u32 + 1) as u32 as int == c as int + 1,
        (c as u32 + 1) as u32 > 0,
{
}

/// Numbers that are the same up to two names part where the names do.
proof fn lemma_names_part(
    front: Seq<u32>,
    x: Seq<char>,
    y: Seq<char>,
    xs: Seq<u32>,
    ys: Seq<u32>,
    k: int,
)
    requires
        0 <= k <= x.len(),
        k < y.len(),
        x.take(k) == y.take(k),
        k < x.len() ==> (x[k] as int) < (y[k] as int),
    ensures
        precedes(
            front + (seq![3u32] + name_key(x) + seq![0u32]) + xs,
            front + (seq![3u32] + name_key(y) + seq![0u32]) + ys,
        ),
{
    let p = name_key(x);
    let q = name_key(y);
    let a = front + (seq![3u32] + p + seq![0u32]) + xs;
    let b = front + (seq![3u32] + q + seq![0u32]) + ys;
    let n = front.len() as int;
    let at = n + 1 + k;
    assert forall|j: int| 0 <= j < at implies a[j] == b[j] by {
        if j > n {
            let i = j - n - 1;
            assert(x.take(k)[i] == x[i]);
            assert(y.take(k)[i] == y[i]);
            assert(a[j] == p[i]);
            assert(b[j] == q[i]);
        }
    }
    lemma_name_key(y, k);
    assert(b[at] == q[k]);
    if k < x.len() {
        lemma_name_key(x, k);
        assert(a[at] == p[k]);
    } else {
        assert(a[at] == 0u32);
    }
    lemma_agreement_is(a, b, at);
}

/// Paths are ordered by the first name in which they differ, and names by the
/// first character in which they differ; a name comes before the names that it
/// begins.
pub proof fn law_names_decide_the_order(
    common: Seq<Seq<char>>,
    x: Seq<char>,
    y: Seq<char>,
    xs: Seq<Seq<char>>,
    ys: Seq<Seq<char>>,
    k: int,
)
    requires
        plain_names(common),
        plain_names(xs),
        plain_names(ys),
        plain_name(x),
        plain_name(y),
        0 <= k <= x.len(),
        k < y.len(),
        x.take(k) == y.take(k),
        k < x.len() ==> (x[k] as int) < (y[k] as int),
    ensures
        precedes(
            path_key(join(common.push(x) + xs, seq!['/'])),
            path_key(join(common.push(y) + ys, seq!['/'])),
        ),
{
    lemma_picked_name(common, x, xs);
    lemma_picked_name(common, y, ys);
    lemma_named_path(common.push(x) + xs);
    lemma_named_path(common.push(y) + ys);
    lemma_names_part(parts_key(common), x, y, parts_key(xs), parts_key(ys), k);
}

/// A path comes before what lies below it.
pub proof fn law_directories_come_first(names: Seq<Seq<char>>, more: Seq<Seq<char>>)
    requires
        names.len() > 0,
        more.len() > 0,
        plain_names(names),
        plain_names(more),
    ensures
        precedes(path_key(join(names, seq!['/'])), path_key(join(names + more, seq!['/']))),
{
    assert(plain_name(more[0]));
    lemma_parts_key_append(names, more);
    lemma_named_path(names);
    assert forall|k: int| 0 <= k < (names + more).len() implies plain_name(
        #[trigger] (names + more)[k],
    ) by {
        if k < names.len() {
            assert((names + more)[k] == names[k]);
        } else {
            assert((names + more)[k] == more[k - names.len()]);
        }
    }
    lemma_named_path(names + more);
    let tail = more.skip(1);
    assert forall|k: int| 0 <= k < tail.len() implies plain_name(#[trigger] tail[k]) by {
        assert(tail[k] == more[k + 1]);
    }
    lemma_picked_name(Seq::empty(), more[0], tail);
    assert(Seq::<Seq<char>>::empty().push(more[0]) + tail =~= more);
    let a = parts_key(names);
    let b = parts_key(names + more);
    lemma_agreement_is(a, b, a.len() as int);
}

// ---------------------------------------------------------------------------
// Files
// ---------------------------------------------------------------------------

/// The text at a path is that of the first file with the path's components;
/// there is none exactly if no file has them.
pub proof fn law_contents_are_those_of_the_files(
    files: Seq<FileModel>,
    path: Seq<char>,
    i: int,
)
    ensures
        content_of(files, path) is None <==> forall|j: int|
            0 <= j < files.len() ==> path_key((#[trigger] files[j]).path) != path_key(path),
        0 <= i < files.len() && path_key(files[i].path) == path_key(path) && (forall|j: int|
            0 <= j < i ==> path_key((#[trigger] files[j]).path) != path_key(path)) ==> content_of(
            files,
            path,
        ) == Some(files[i].content),
{
    let p = file_at(files, path);
    lemma_seek(p, 0, files.len() as int);
    if content_of(files, path) is None {
        assert forall|j: int| 0 <= j < files.len() implies path_key((#[trigger] files[j]).path)
            != path_key(path) by {
            assert(!p(j));
        }
    } else {
        let k = crate::text::seek(p, 0, files.len() as int);
        assert(p(k));
        assert(path_key(files[k].path) == path_key(path));
    }
    if 0 <= i < files.len() && path_key(files[i].path) == path_key(path) && (forall|j: int|
        0 <= j < i ==> path_key((#[trigger] files[j]).path) != path_key(path)) {
        assert forall|j: int| 0 <= j < i implies !#[trigger] p(j) by {
            assert(path_key(files[j].path) != path_key(path));
        }
        assert(p(i));
        lemma_seek_is(p, 0, files.len() as int, i);
    }
}

/// Repeated paths stand side by side where paths are in order.
proof fn lemma_deduped_ascends(paths: Seq<Seq<char>>)
    requires
        forall|i: int, j: int|
            0 <= i < j < paths.len() ==> !precedes(
                path_key(#[trigger] paths[j]),
                path_key(#[trigger] paths[i]),
            ),
    ensures
        forall|i: int, j: int|
            0 <= i < j < deduped(paths).len() ==> precedes(
                path_key(#[trigger] deduped(paths)[i]),
                path_key(#[trigger] deduped(paths)[j]),
            ),
        forall|i: int|
            0 <= i < deduped(paths).len() ==> paths.contains(#[trigger] deduped(paths)[i]),
    decreases paths.len(),
{
    if paths.len() > 0 {
        let front = paths.drop_last();
        let last = paths.last();
        let before = deduped(front);
        let after = deduped(paths);
        assert(paths[paths.len() - 1] == last);
        assert forall|i: int, j: int| 0 <= i < j < front.len() implies !precedes(
            path_key(#[trigger] front[j]),
            path_key(#[trigger] front[i]),
        ) by {
            assert(front[i] == paths[i] && front[j] == paths[j]);
        }
        lemma_deduped_ascends(front);
        assert forall|i: int| 0 <= i < before.len() implies paths.contains(#[trigger] before[i])
            && !precedes(path_key(last), path_key(before[i])) by {
            assert(front.contains(before[i]));
            let k = choose|k: int| 0 <= k < front.len() && front[k] == before[i];
            assert(paths[k] == before[i]);
        }
        if after != before {
            let n = before.len() as int;
            assert(after == before.push(last));
            assert forall|i: int, j: int| 0 <= i < j < after.len() implies precedes(
                path_key(#[trigger] after[i]),
                path_key(#[trigger] after[j]),
            ) by {
                assert(after[i] == before[i]);
                if j < n {
                    assert(after[j] == before[j]);
                } else {
                    let top = path_key(before[n - 1]);
                    let key = path_key(last);
                    law_paths_are_ordered(top, key, key);
                    assert(precedes(top, key));
                    if i < n - 1 {
                        assert(precedes(path_key(before[i]), path_key(before[n - 1])));
                        law_paths_are_ordered(path_key(before[i]), top, key);
                    }
                }
            }
            assert forall|i: int| 0 <= i < after.len() implies paths.contains(
                #[trigger] after[i],
            ) by {
                if i < n {
                    assert(after[i] == before[i]);
                }
            }
        }
    }
}

/// A diff looks at every file of either side, once, in the order of the paths:
/// the paths ascend, each is that of a file, and the path of every file is among
/// them.
pub proof fn law_every_path_is_compared_once(
    base: Seq<FileModel>,
    modified: Seq<FileModel>,
    path: Seq<char>,
)
    ensures
        forall|i: int, j: int|
            0 <= i < j < all_paths(base, modified).len() ==> precedes(
                path_key(#[trigger] all_paths(base, modified)[i]),
                path_key(#[trigger] all_paths(base, modified)[j]),
            ),
        all_paths(base, modified).contains(path) ==> (exists|i: int|
            0 <= i < base.len() && (#[trigger] base[i]).path == path) || (exists|i: int|
            0 <= i < modified.len() && (#[trigger] modified[i]).path == path),
        (exists|i: int| 0 <= i < base.len() && (#[trigger] base[i]).path == path) || (exists|
            i: int,
        |
            0 <= i < modified.len() && (#[trigger] modified[i]).path == path) ==> exists|k: int|
            0 <= k < all_paths(base, modified).len() && path_key(
                #[trigger] all_paths(base, modified)[k],
            ) == path_key(path),
{
    broadcast use vstd::seq_lib::group_to_multiset_ensures;

    let paths = file_paths(base) + file_paths(modified);
    let ordered = sorted(paths);
    let all = all_paths(base, modified);
    law_sorted_is_ordered(paths);
    law_sorted_keeps_paths(paths);
    lemma_deduped_ascends(ordered);
    if all.contains(path) {
        let k = choose|k: int| 0 <= k < all.len() && all[k] == path;
        assert(ordered.contains(all[k]));
        assert(ordered.to_multiset().contains(path));
        assert(paths.to_multiset().contains(path));
        assert(paths.contains(path));
        let i = choose|i: int| 0 <= i < paths.len() && paths[i] == path;
        if i < base.len() {
            assert(base[i].path == path);
        } else {
            assert(modified[i - base.len()].path == path);
        }
    }
    if exists|i: int| 0 <= i < base.len() && (#[trigger] base[i]).path == path {
        let i = choose|i: int| 0 <= i < base.len() && (#[trigger] base[i]).path == path;
        assert(file_paths(base)[i] == path);
        lemma_all_paths(base, modified, path);
    }
    if exists|i: int| 0 <= i < modified.len() && (#[trigger] modified[i]).path == path {
        let i = choose|i: int| 0 <= i < modified.len() && (#[trigger] modified[i]).path == path;
        assert(file_paths(modified)[i] == path);
        lemma_all_paths(base, modified, path);
    }
}

/// Diffs of more paths are the diffs of some, then those of the others.
proof fn lemma_diffs_append(
    a: Seq<Seq<char>>,
    b: Seq<Seq<char>>,
    base: Seq<FileModel>,
    modified: Seq<FileModel>,
)
    ensures
        diffs(a + b, base, modified) == diffs(a, base, modified) + diffs(b, base, modified),
    decreases b.len(),
{
    if b.len() == 0 {
        assert(a + b =~= a);
        assert(diffs(a, base, modified) + diffs(b, base, modified) =~= diffs(a, base, modified));
    } else {
        lemma_diffs_append(a, b.drop_last(), base, modified);
        assert((a + b).drop_last() =~= a + b.drop_last());
        assert((a + b).last() == b.last());
        assert(diffs(a + b, base, modified) =~= diffs(a, base, modified) + diffs(
            b,
            base,
            modified,
        ));
    }
}

/// Every file that differs is told of: where the texts at a path differ, the
/// unified diff of the two stands in the whole, labelled with the path.
pub proof fn law_every_changed_file_is_told(
    base: Seq<FileModel>,
    modified: Seq<FileModel>,
    path: Seq<char>,
    before: Seq<char>,
    after: Seq<char>,
)
    requires
        content_of(base, path) == Some(before) || (content_of(base, path) is None && before.len()
            == 0),
        content_of(modified, path) == Some(after) || (content_of(modified, path) is None
            && after.len() == 0),
        before != after,
    ensures
        exists|label: Seq<char>| #[trigger]
            path_key(label) == path_key(path) && occurs(
                diffs(all_paths(base, modified), base, modified),
                unified_text(slashed(label), before, after),
            ),
{
    let all = all_paths(base, modified);
    law_contents_are_those_of_the_files(base, path, 0);
    law_contents_are_those_of_the_files(modified, path, 0);
    assert(Seq::<char>::empty() =~= before || content_of(base, path) is Some);
    assert(Seq::<char>::empty() =~= after || content_of(modified, path) is Some);
    let file = if content_of(base, path) is Some {
        let i = choose|i: int|
            0 <= i < base.len() && path_key((#[trigger] base[i]).path) == path_key(path);
        base[i].path
    } else {
        let i = choose|i: int|
            0 <= i < modified.len() && path_key((#[trigger] modified[i]).path) == path_key(path);
        modified[i].path
    };
    law_every_path_is_compared_once(base, modified, file);
    let k = choose|k: int| 0 <= k < all.len() && path_key(#[trigger] all[k]) == path_key(file);
    let label = all[k];
    lemma_content_key(base, label, path);
    lemma_content_key(modified, label, path);
    let head = all.take(k);
    let tail = all.skip(k + 1);
    assert(all =~= head.push(label) + tail);
    lemma_diffs_append(head.push(label), tail, base, modified);
    assert(head.push(label).drop_last() =~= head);
    let told = unified_text(slashed(label), before, after);
    let whole = diffs(all, base, modified);
    let at = diffs(head, base, modified).len() as int;
    assert(diffs(head.push(label), base, modified) == diffs(head, base, modified) + told);
    assert(whole.subrange(at, at + told.len()) =~= told);
    assert(occurs_at(whole, told, at));
    assert(path_key(label) == path_key(path));
}

/// Files that are the same on both sides leave no trace: the diff is that of
/// the paths at which the two sides differ.
pub proof fn law_equal_files_are_not_told(
    paths: Seq<Seq<char>>,
    base: Seq<FileModel>,
    modified: Seq<FileModel>,
)
    ensures
        diffs(paths, base, modified) == diffs(
            paths.filter(
                |path: Seq<char>| content_of(base, path) != content_of(modified, path),
            ),
            base,
            modified,
        ),
    decreases paths.len(),
{
    reveal(Seq::filter);
    let keep = |path: Seq<char>| content_of(base, path) != content_of(modified, path);
    if paths.len() > 0 {
        let front = paths.drop_last();
        law_equal_files_are_not_told(front, base, modified);
        if keep(paths.last()) {
            let kept = front.filter(keep).push(paths.last());
            assert(paths.filter(keep) == kept);
            assert(kept.drop_last() =~= front.filter(keep));
        } else {
            assert(diffs(paths, base, modified) =~= diffs(front, base, modified));
        }
    } else {
        assert(paths.filter(keep) =~= paths);
    }
}

/// A label is the path with every backslash turned into a slash.
pub proof fn law_labels_have_forward_slashes(path: Seq<char>, i: int)
    ensures
        slashed(path).len() == path.len(),
        !slashed(path).contains('\\'),
        0 <= i < path.len() && path[i] != '\\' ==> slashed(path)[i] == path[i],
        0 <= i < path.len() && path[i] == '\\' ==> slashed(path)[i] == '/',
{
}

// ---------------------------------------------------------------------------
// BAML files
// ---------------------------------------------------------------------------

proof fn lemma_last_dot(name: Seq<char>)
    ensures
        match last_dot(name) {
            Some(i) => 0 <= i < name.len() && name[i] == '.' && forall|j: int|
                i < j < name.len() ==> name[j] != '.',
            None => forall|j: int| 0 <= j < name.len() ==> name[j] != '.',
        },
    decreases name.len(),
{
    if name.len() > 0 && name.last() != '.' {
        let front = name.drop_last();
        lemma_last_dot(front);
        assert forall|j: int| 0 <= j < front.len() implies front[j] == name[j] by {}
    }
}

/// A file is a BAML file exactly if its name ends in `.baml`, with something in
/// front of it, whatever directory it is in.
pub proof fn law_baml_files_are_named_so(dir: Seq<char>, name: Seq<char>)
    requires
        plain_name(name),
    ensures
        is_baml(dir.push('/') + name) == is_baml(name),
        is_baml(name) <==> name.len() > 5 && name.skip(name.len() - 5) == seq![
            '.',
            'b',
            'a',
            'm',
            'l',
        ],
{
    reveal_strlit("baml");
    let end = seq!['.', 'b', 'a', 'm', 'l'];
    lemma_split_append(dir, name, '/');
    lemma_split_one(name, '/');
    assert(seq![name].last() == name);
    assert(split(dir, '/').push(name).last() == name);
    assert(file_name(dir.push('/') + name) == Some(name));
    assert(file_name(name) == Some(name));
    lemma_last_dot(name);
    if name.len() > 5 && name.skip(name.len() - 5) == end {
        let n = name.len() - 5;
        let tail = name.skip(n);
        assert forall|j: int| 0 <= j < 5 implies name[n + j] == #[trigger] end[j] by {
            assert(tail[j] == name[n + j]);
        }
        assert(end[0] == '.' && end[1] == 'b' && end[2] == 'a' && end[3] == 'm' && end[4] == 'l');
        assert(name[n] == '.' && name[n + 1] != '.' && name[n + 2] != '.' && name[n + 3] != '.'
            && name[n + 4] != '.');
        let i = last_dot(name)->0;
        assert(i == n);
        assert(name.skip(i + 1) =~= "baml"@);
    }
    if is_baml(name) {
        let i = last_dot(name)->0;
        let tail = name.skip(i + 1);
        assert(tail == "baml"@);
        assert(tail.len() == 4);
        assert(name.len() == i + 5);
        assert(tail[0] == 'b' && tail[1] == 'a' && tail[2] == 'm' && tail[3] == 'l');
        assert(name[i + 1] == tail[0] && name[i + 2] == tail[1] && name[i + 3] == tail[2]
            && name[i + 4] == tail[3]);
        assert(name.skip(name.len() - 5) =~= end);
    }
}

/// What is not walked into: directories below the root that are hidden or hold
/// what was built or installed. A file is never left out.
pub proof fn law_only_some_directories_are_skipped(entry: WalkedEntry)
    ensures
        !entry.is_dir || entry.depth == 0 ==> open_entry(entry),
        entry.is_dir && entry.depth > 0 ==> (!open_entry(entry) <==> (entry.name@.len() > 0
            && entry.name@[0] == '.') || entry.name@ == "node_modules"@ || entry.name@
            == "target"@),
{
}

/// A file that is empty on one side and missing on the other is told of by the
/// two lines of a header alone.
pub proof fn law_new_empty_files_are_told(
    base: Seq<FileModel>,
    modified: Seq<FileModel>,
    path: Seq<char>,
)
    requires
        content_of(base, path) != content_of(modified, path),
        diff_side(content_of(base, path)) == diff_side(content_of(modified, path)),
    ensures
        (content_of(base, path) is None && content_of(modified, path) == Some(
            Seq::<char>::empty(),
        )) || (content_of(base, path) == Some(Seq::<char>::empty()) && content_of(
            modified,
            path,
        ) is None),
        diffs(seq![path], base, modified) == "--- "@ + slashed(path) + "\n+++ "@ + slashed(path)
            + "\n"@,
{
    assert(seq![path].drop_last() =~= Seq::<Seq<char>>::empty());
    let told = file_diff(path, content_of(base, path), content_of(modified, path));
    assert(diffs(seq![path].drop_last(), base, modified) =~= Seq::<char>::empty());
    assert(diffs(seq![path], base, modified) =~= told);
    match content_of(base, path) {
        Some(text) => {
            assert(text =~= Seq::<char>::empty() || content_of(modified, path) is Some);
        },
        None => {},
    }
}

/// A trailing slash makes no difference, nor does a component `.` at the end.
pub proof fn law_trailing_slashes_do_not_matter(path: Seq<char>)
    ensures
        is_baml(path.push('/')) == is_baml(path),
        is_baml(path.push('/').push('.')) == is_baml(path),
{
    let none = Seq::<char>::empty();
    let dot = seq!['.'];
    lemma_split_append(path, none, '/');
    assert(path.push('/') + none =~= path.push('/'));
    assert(split(path, '/').push(none).drop_last() =~= split(path, '/'));
    lemma_split_append(path, dot, '/');
    assert(path.push('/') + dot =~= path.push('/').push('.'));
    assert(split(path, '/').push(dot).drop_last() =~= split(path, '/'));
}

} // verus!
