//! Which files of a directory tree are BAML sources.

use vstd::prelude::*;
use vstd::string::*;

use crate::paths::{sort_paths, sorted};
use crate::text::{chars_of, same_chars, same_text, split, split_chars, texts};

verus! {

/// An entry is traversed: prunes hidden directories (except the starting
/// directory itself, which has depth `0`), `node_modules`, and `target`.
pub open spec fn traversed(depth: usize, is_dir: bool, name: Seq<char>) -> bool {
    depth == 0 || !is_dir || !((name.len() > 0 && name[0] == '.') || name == "node_modules"@
        || name == "target"@)
}

/// Returns `true` if an entry should be traversed. What is below an entry that
/// is not traversed is skipped with it.
pub fn should_traverse(depth: usize, is_dir: bool, name: &str) -> (r: bool)
    ensures
        r == traversed(depth, is_dir, name@),
{
    if depth == 0 {
        return true;
    }
    if !is_dir {
        return true;
    }
    let chars = chars_of(name);
    let hidden = chars.len() > 0 && chars[0] == '.';
    !(hidden || same_text(name, "node_modules") || same_text(name, "target"))
}

/// The last of the parts that names something: neither empty nor `.`.
pub open spec fn last_name(parts: Seq<Seq<char>>) -> Option<Seq<char>>
    decreases parts.len(),
{
    if parts.len() == 0 {
        None
    } else if parts.last().len() == 0 || parts.last() == seq!['.'] {
        last_name(parts.drop_last())
    } else {
        Some(parts.last())
    }
}

/// The file name of a path; none where the path ends in `..`.
pub open spec fn file_name(path: Seq<char>) -> Option<Seq<char>> {
    match last_name(split(path, '/')) {
        Some(name) => if name == seq!['.', '.'] {
            None
        } else {
            Some(name)
        },
        None => None,
    }
}

/// Where the last dot stands.
pub open spec fn last_dot(name: Seq<char>) -> Option<int>
    decreases name.len(),
{
    if name.len() == 0 {
        None
    } else if name.last() == '.' {
        Some(name.len() - 1)
    } else {
        last_dot(name.drop_last())
    }
}

/// The extension of a file name: what stands behind its last dot; none without
/// a dot behind the first character.
pub open spec fn extension(name: Seq<char>) -> Option<Seq<char>> {
    match last_dot(name) {
        Some(i) => if i == 0 {
            None
        } else {
            Some(name.skip(i + 1))
        },
        None => None,
    }
}

/// A path with the extension `baml`.
pub open spec fn is_baml(path: Seq<char>) -> bool {
    match file_name(path) {
        Some(name) => extension(name) == Some("baml"@),
        None => false,
    }
}

/// Whether the extension of a file name is `baml`.
fn ends_in_baml(name: &Vec<char>) -> (r: bool)
    ensures
        r == (extension(name@) == Some("baml"@)),
{
    let mut i: usize = name.len();
    proof {
        assert(name@.take(name@.len() as int) =~= name@);
    }
    while i > 0
        invariant
            i <= name@.len(),
            last_dot(name@) == last_dot(name@.take(i as int)),
        decreases i,
    {
        proof {
            assert(name@.take(i as int).drop_last() =~= name@.take(i - 1));
            assert(name@.take(i as int).last() == name@[i - 1]);
        }
        i = i - 1;
        if name[i] == '.' {
            if i == 0 {
                return false;
            }
            let end: usize = name.len();
            let tail = crate::text::slice_of(name, i + 1, end);
            assert(tail@ =~= name@.skip(i + 1));
            return same_chars(&tail, &chars_of("baml"));
        }
    }
    false
}

/// Whether a path has the extension `baml`.
pub fn has_baml_extension(path: &str) -> (r: bool)
    ensures
        r == is_baml(path@),
{
    let parts = split_chars(&chars_of(path), '/');
    let ghost all = texts(parts@);
    let mut i: usize = parts.len();
    proof {
        assert(all.take(all.len() as int) =~= all);
    }
    while i > 0
        invariant
            i <= parts.len(),
            all == texts(parts@),
            all == split(path@, '/'),
            last_name(all) == last_name(all.take(i as int)),
        decreases i,
    {
        proof {
            assert(all.take(i as int).drop_last() =~= all.take(i - 1));
            assert(all.take(i as int).last() == parts@[i - 1]@);
        }
        i = i - 1;
        let part = &parts[i];
        let skipped = part.len() == 0 || (part.len() == 1 && part[0] == '.');
        proof {
            if part@.len() == 1 && part@[0] == '.' {
                assert(part@ =~= seq!['.']);
            }
            assert(skipped == (part@.len() == 0 || part@ == seq!['.']));
        }
        if !skipped {
            let parent = part.len() == 2 && part[0] == '.' && part[1] == '.';
            proof {
                if parent {
                    assert(part@ =~= seq!['.', '.']);
                }
                assert(parent == (part@ == seq!['.', '.']));
            }
            if parent {
                return false;
            }
            return ends_in_baml(part);
        }
    }
    false
}

/// An entry that a walk through a directory tree came by: a directory comes
/// before what it holds, at one depth less.
#[derive(Debug)]
pub struct WalkedEntry {
    pub path: String,
    pub name: String,
    pub depth: usize,
    pub is_dir: bool,
    pub is_file: bool,
}

/// The entry is traversed by itself.
pub open spec fn open_entry(entry: WalkedEntry) -> bool {
    traversed(entry.depth, entry.is_dir, entry.name@)
}

/// The depth of the pruned entry that the last of the entries lies in or is;
/// none where the walk reaches the last entry.
pub open spec fn pruned_at(entries: Seq<WalkedEntry>) -> Option<usize>
    decreases entries.len(),
{
    if entries.len() == 0 {
        None
    } else {
        let entry = entries.last();
        match pruned_at(entries.drop_last()) {
            Some(depth) if entry.depth > depth => Some(depth),
            _ => if open_entry(entry) {
                None
            } else {
                Some(entry.depth)
            },
        }
    }
}

/// The paths of the BAML files that the walk reaches, in its order.
pub open spec fn baml_paths(entries: Seq<WalkedEntry>) -> Seq<Seq<char>>
    decreases entries.len(),
{
    if entries.len() == 0 {
        Seq::empty()
    } else if pruned_at(entries) is None && entries.last().is_file && is_baml(
        entries.last().path@,
    ) {
        baml_paths(entries.drop_last()).push(entries.last().path@)
    } else {
        baml_paths(entries.drop_last())
    }
}

/// Discovers all BAML files among the entries of a walk.
///
/// Skips hidden directories (`.*`), `node_modules`, and `target` with all that
/// is below them. Returns paths sorted for deterministic ordering.
pub fn discover_baml_files(entries: &Vec<WalkedEntry>) -> (r: Vec<String>)
    ensures
        r.deep_view() == sorted(baml_paths(entries@)),
{
    let mut files: Vec<String> = Vec::new();
    let mut pruned: Option<usize> = None;
    let mut k: usize = 0;
    proof {
        assert(entries@.take(0) =~= Seq::<WalkedEntry>::empty());
        assert(files.deep_view() =~= Seq::<Seq<char>>::empty());
    }
    while k < entries.len()
        invariant
            k <= entries.len(),
            pruned == pruned_at(entries@.take(k as int)),
            files.deep_view() == baml_paths(entries@.take(k as int)),
        decreases entries.len() - k,
    {
        let entry = &entries[k];
        let ghost before = files.deep_view();
        proof {
            assert(entries@.take(k + 1).drop_last() =~= entries@.take(k as int));
            assert(entries@.take(k + 1).last() == *entry);
        }
        let inside = match pruned {
            Some(depth) => entry.depth > depth,
            None => false,
        };
        if !inside {
            pruned = if should_traverse(entry.depth, entry.is_dir, entry.name.as_str()) {
                None
            } else {
                Some(entry.depth)
            };
        }
        if pruned.is_none() && entry.is_file && has_baml_extension(entry.path.as_str()) {
            files.push(entry.path.clone());
            assert(files.deep_view() =~= before.push(entry.path@));
        }
        k = k + 1;
    }
    assert(entries@.take(entries@.len() as int) =~= entries@);
    sort_paths(&files)
}

// ---------------------------------------------------------------------------
// Laws
// ---------------------------------------------------------------------------

/// Entry `i` is entry `j` or lies in it: everything from there on is deeper.
pub open spec fn lies_in(entries: Seq<WalkedEntry>, i: int, j: int) -> bool {
    &&& 0 <= j <= i < entries.len()
    &&& forall|k: int| j < k <= i ==> (#[trigger] entries[k]).depth > entries[j].depth
}

/// The pruned entry that the last entry lies in is the outermost of those that
/// are not traversed.
proof fn lemma_pruned(entries: Seq<WalkedEntry>)
    requires
        entries.len() > 0,
    ensures
        match pruned_at(entries) {
            Some(depth) => {
                &&& exists|j: int|
                    #![trigger entries[j]]
                    lies_in(entries, entries.len() - 1, j) && !open_entry(entries[j])
                        && entries[j].depth == depth
                &&& forall|j: int|
                    #![trigger entries[j]]
                    lies_in(entries, entries.len() - 1, j) && !open_entry(entries[j])
                        ==> entries[j].depth >= depth
            },
            None => forall|j: int|
                #![trigger entries[j]]
                lies_in(entries, entries.len() - 1, j) ==> open_entry(entries[j]),
        },
    decreases entries.len(),
{
    let front = entries.drop_last();
    let last = entries.len() - 1;
    let entry = entries[last];
    assert(entries.last() == entry);
    if front.len() > 0 {
        lemma_pruned(front);
    }
    assert forall|j: int| lies_in(entries, last, j) && j < last implies #[trigger] lies_in(
        front,
        last - 1,
        j,
    ) && front[j] == entries[j] && entries[j].depth < entry.depth by {
        assert(entries[last].depth > entries[j].depth);
        assert forall|k: int| j < k <= last - 1 implies (#[trigger] front[k]).depth
            > front[j].depth by {
            assert(front[k] == entries[k]);
            assert(entries[k].depth > entries[j].depth);
        }
    }
    assert(lies_in(entries, last, last));
    match pruned_at(front) {
        Some(depth) => {
            if entry.depth > depth {
                let w = choose|j: int|
                    #![trigger front[j]]
                    lies_in(front, last - 1, j) && !open_entry(front[j]) && front[j].depth == depth;
                assert(front[w] == entries[w]);
                assert(lies_in(entries, last, w)) by {
                    assert forall|k: int| w < k <= last implies (#[trigger] entries[k]).depth
                        > entries[w].depth by {
                        if k < last {
                            assert(front[k] == entries[k]);
                        }
                    }
                }
            }
            assert forall|j: int|
                #![trigger entries[j]]
                lies_in(entries, last, j) && !open_entry(entries[j]) && j < last implies entries[j].depth
                >= depth by {
                assert(lies_in(front, last - 1, j));
                assert(front[j] == entries[j]);
            }
        },
        None => {
            assert forall|j: int|
                #![trigger entries[j]]
                lies_in(entries, last, j) && j < last implies open_entry(entries[j]) by {
                assert(lies_in(front, last - 1, j));
                assert(front[j] == entries[j]);
            }
        },
    }
}

/// A walk reaches an entry exactly if the entry and all that it lies in are
/// traversed: what is below a pruned directory is skipped whole.
pub proof fn law_pruned_subtrees_are_skipped(entries: Seq<WalkedEntry>, i: int)
    requires
        0 <= i < entries.len(),
    ensures
        pruned_at(entries.take(i + 1)) is None <==> forall|j: int|
            #![trigger entries[j]]
            lies_in(entries, i, j) ==> open_entry(entries[j]),
{
    let upto = entries.take(i + 1);
    lemma_pruned(upto);
    assert forall|j: int| #[trigger] lies_in(upto, i, j) <==> lies_in(entries, i, j) by {
        if lies_in(upto, i, j) {
            assert forall|k: int| j < k <= i implies (#[trigger] entries[k]).depth
                > entries[j].depth by {
                assert(upto[k] == entries[k]);
            }
        }
        if lies_in(entries, i, j) {
            assert forall|k: int| j < k <= i implies (#[trigger] upto[k]).depth > upto[j].depth by {
                assert(upto[k] == entries[k]);
            }
        }
    }
    if pruned_at(upto) is None {
        assert forall|j: int| #![trigger entries[j]] lies_in(entries, i, j) implies open_entry(
            entries[j],
        ) by {
            assert(lies_in(upto, i, j));
            assert(upto[j] == entries[j]);
        }
    } else {
        let w = choose|j: int|
            #![trigger upto[j]]
            lies_in(upto, i, j) && !open_entry(upto[j]) && upto[j].depth == pruned_at(upto)->0;
        assert(upto[w] == entries[w]);
        assert(lies_in(entries, i, w));
    }
}

} // verus!
