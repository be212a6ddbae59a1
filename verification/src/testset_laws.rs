//! What holds of every filtering: which tests have a path, and which of them
//! are kept.

use vstd::prelude::*;

use crate::assoc::{key_position, lemma_key_position, lookup, put};
use crate::discovery::{TestKindModel, TestModel};
use crate::testset_filter::{
    covers, literal_name, path_join, project_paths, retained, sole_literal, static_paths, stays,
    used_in, NodeKind, ParsedFile, Site, SyntaxNode,
};
use crate::text::join;

verus! {

// ---------------------------------------------------------------------------
// Trails
// ---------------------------------------------------------------------------

/// Going down from `nodes`, child by child, `trail` leads to a test with a
/// literal name, past testsets with literal names and past nodes that are
/// neither testset nor test.
pub open spec fn leads(nodes: Seq<SyntaxNode>, trail: Seq<int>) -> bool
    decreases trail.len(),
{
    &&& trail.len() > 0
    &&& 0 <= trail[0] < nodes.len()
    &&& if trail.len() == 1 {
        nodes[trail[0]].kind == NodeKind::TestExprDef && literal_name(nodes[trail[0]]) is Some
    } else {
        &&& nodes[trail[0]].kind != NodeKind::TestExprDef
        &&& nodes[trail[0]].kind == NodeKind::TestsetDef ==> literal_name(nodes[trail[0]]) is Some
        &&& leads(nodes[trail[0]].children@, trail.skip(1))
    }
}

/// The names of the testsets that `trail` leads past, outermost first, and of
/// the test.
pub open spec fn trail_names(nodes: Seq<SyntaxNode>, trail: Seq<int>) -> Seq<Seq<char>>
    decreases trail.len(),
{
    if trail.len() == 0 {
        Seq::empty()
    } else {
        let node = nodes[trail[0]];
        let own = if node.kind == NodeKind::TestsetDef || node.kind == NodeKind::TestExprDef {
            seq![literal_name(node)->0]
        } else {
            Seq::empty()
        };
        own + trail_names(node.children@, trail.skip(1))
    }
}

/// The node that `trail` leads to.
pub open spec fn trail_end(nodes: Seq<SyntaxNode>, trail: Seq<int>) -> SyntaxNode
    decreases trail.len(),
{
    if trail.len() <= 1 {
        nodes[trail[0]]
    } else {
        trail_end(nodes[trail[0]].children@, trail.skip(1))
    }
}

/// The range of the test that `trail` leads to.
pub open spec fn trail_site(nodes: Seq<SyntaxNode>, file: usize, trail: Seq<int>) -> Site {
    Site { file, start: trail_end(nodes, trail).start, end: trail_end(nodes, trail).end }
}

/// No testset on the way has an empty name.
pub open spec fn named_throughout(names: Seq<Seq<char>>) -> bool {
    forall|k: int| 0 <= k < names.len() - 1 ==> (#[trigger] names[k]).len() > 0
}

/// A path made longer by some names.
spec fn longer(prefix: Seq<char>, names: Seq<Seq<char>>) -> Seq<char>
    decreases names.len(),
{
    if names.len() == 0 {
        prefix
    } else {
        longer(path_join(prefix, names[0]), names.skip(1))
    }
}

/// Trails of length one and more have a name at the end.
proof fn lemma_trail_names(nodes: Seq<SyntaxNode>, trail: Seq<int>)
    requires
        leads(nodes, trail),
    ensures
        trail_names(nodes, trail).len() > 0,
        trail.len() == 1 ==> trail_names(nodes, trail) == seq![
            literal_name(nodes[trail[0]])->0,
        ],
    decreases trail.len(),
{
    let node = nodes[trail[0]];
    if trail.len() == 1 {
        assert(trail_names(node.children@, trail.skip(1)) =~= Seq::<Seq<char>>::empty());
        assert(trail_names(nodes, trail) =~= seq![literal_name(node)->0]);
    } else {
        lemma_trail_names(node.children@, trail.skip(1));
    }
}

/// Names joined one by one make the same path as names joined at once.
proof fn lemma_longer(prefix: Seq<char>, names: Seq<Seq<char>>)
    requires
        names.len() > 0,
        named_throughout(names),
    ensures
        prefix.len() > 0 ==> longer(prefix, names) == prefix + "/"@ + join(names, "/"@),
        prefix.len() == 0 ==> longer(prefix, names) == join(names, "/"@),
    decreases names.len(),
{
    reveal_strlit("/");
    let next = path_join(prefix, names[0]);
    let rest = names.skip(1);
    if names.len() == 1 {
        assert(longer(next, rest) == next);
        assert(names =~= seq![names[0]]);
    } else {
        assert forall|k: int| 0 <= k < rest.len() - 1 implies (#[trigger] rest[k]).len() > 0 by {
            assert(rest[k] == names[k + 1]);
        }
        assert(names[0].len() > 0);
        lemma_longer(next, rest);
        crate::text::lemma_join_front(names[0], rest, "/"@);
        assert(names =~= seq![names[0]] + rest);
        assert(join(names, "/"@) == names[0] + "/"@ + join(rest, "/"@));
        assert(longer(prefix, names) == next + "/"@ + join(rest, "/"@));
        if prefix.len() > 0 {
            assert(longer(prefix, names) =~= prefix + "/"@ + join(names, "/"@));
        }
    }
}

// ---------------------------------------------------------------------------
// Paths
// ---------------------------------------------------------------------------

/// A path is among the keys.
pub open spec fn known(paths: Seq<(Seq<char>, Site)>, path: Seq<char>) -> bool {
    exists|k: int| 0 <= k < paths.len() && (#[trigger] paths[k]).0 == path
}

/// Putting a path in makes it known and keeps the others.
proof fn lemma_put_known(
    paths: Seq<(Seq<char>, Site)>,
    key: Seq<char>,
    site: Site,
    path: Seq<char>,
)
    ensures
        known(put(paths, key, site), path) == (known(paths, path) || path == key),
{
    let after = put(paths, key, site);
    lemma_key_position(paths, key);
    match key_position(paths, key) {
        Some(i) => {
            assert(after[i].0 == key);
            if known(paths, path) {
                let k = choose|k: int| 0 <= k < paths.len() && (#[trigger] paths[k]).0 == path;
                assert(after[k].0 == path);
            }
            if known(after, path) {
                let k = choose|k: int| 0 <= k < after.len() && (#[trigger] after[k]).0 == path;
                assert(k == i || paths[k].0 == path);
            }
        },
        None => {
            assert(after[paths.len() as int].0 == key);
            if known(paths, path) {
                let k = choose|k: int| 0 <= k < paths.len() && (#[trigger] paths[k]).0 == path;
                assert(after[k].0 == path);
            }
            if known(after, path) {
                let k = choose|k: int| 0 <= k < after.len() && (#[trigger] after[k]).0 == path;
                assert(k == paths.len() || paths[k].0 == path);
            }
        },
    }
}

/// A known path stays known.
proof fn lemma_stays_known(
    nodes: Seq<SyntaxNode>,
    file: usize,
    prefix: Seq<char>,
    before: Seq<(Seq<char>, Site)>,
    path: Seq<char>,
)
    requires
        known(before, path),
    ensures
        known(static_paths(nodes, file, prefix, before), path),
    decreases nodes,
{
    if nodes.len() > 0 {
        let front = static_paths(nodes.drop_last(), file, prefix, before);
        let node = nodes.last();
        lemma_stays_known(nodes.drop_last(), file, prefix, before, path);
        match node.kind {
            NodeKind::TestsetDef => match literal_name(node) {
                Some(name) => {
                    lemma_stays_known(
                        node.children@,
                        file,
                        path_join(prefix, name),
                        front,
                        path,
                    );
                },
                None => {},
            },
            NodeKind::TestExprDef => match literal_name(node) {
                Some(name) => {
                    lemma_put_known(
                        front,
                        path_join(prefix, name),
                        Site { file, start: node.start, end: node.end },
                        path,
                    );
                },
                None => {},
            },
            _ => {
                lemma_stays_known(node.children@, file, prefix, front, path);
            },
        }
    }
}

/// The path of a test that a trail leads to is known.
proof fn lemma_trail_known(
    nodes: Seq<SyntaxNode>,
    file: usize,
    prefix: Seq<char>,
    before: Seq<(Seq<char>, Site)>,
    trail: Seq<int>,
)
    requires
        leads(nodes, trail),
    ensures
        known(
            static_paths(nodes, file, prefix, before),
            longer(prefix, trail_names(nodes, trail)),
        ),
    decreases nodes,
{
    let front = static_paths(nodes.drop_last(), file, prefix, before);
    let node = nodes[trail[0]];
    let names = trail_names(nodes, trail);
    let path = longer(prefix, names);
    lemma_trail_names(nodes, trail);
    if trail[0] < nodes.len() - 1 {
        let shorter = nodes.drop_last();
        assert(shorter[trail[0]] == node);
        lemma_trail_known(shorter, file, prefix, before, trail);
        assert(trail_names(shorter, trail) == names);
        // What comes later does not take it away.
        let last = nodes.last();
        match last.kind {
            NodeKind::TestsetDef => match literal_name(last) {
                Some(name) => {
                    lemma_stays_known(
                        last.children@,
                        file,
                        path_join(prefix, name),
                        front,
                        path,
                    );
                },
                None => {},
            },
            NodeKind::TestExprDef => match literal_name(last) {
                Some(name) => {
                    lemma_put_known(
                        front,
                        path_join(prefix, name),
                        Site { file, start: last.start, end: last.end },
                        path,
                    );
                },
                None => {},
            },
            _ => {
                lemma_stays_known(last.children@, file, prefix, front, path);
            },
        }
    } else {
        assert(nodes.last() == node);
        if trail.len() == 1 {
            let name = literal_name(node)->0;
            assert(names.skip(1) =~= Seq::<Seq<char>>::empty());
            assert(longer(path_join(prefix, name), names.skip(1)) == path_join(prefix, name));
            lemma_put_known(
                front,
                path_join(prefix, name),
                Site { file, start: node.start, end: node.end },
                path,
            );
        } else {
            let below = trail_names(node.children@, trail.skip(1));
            if node.kind == NodeKind::TestsetDef {
                let name = literal_name(node)->0;
                assert(names.skip(1) =~= below);
                lemma_trail_known(
                    node.children@,
                    file,
                    path_join(prefix, name),
                    front,
                    trail.skip(1),
                );
            } else {
                assert(names =~= below);
                lemma_trail_known(node.children@, file, prefix, front, trail.skip(1));
            }
        }
    }
}

/// A pair belongs to a test that some trail leads to.
spec fn comes_from(
    nodes: Seq<SyntaxNode>,
    file: usize,
    prefix: Seq<char>,
    pair: (Seq<char>, Site),
    trail: Seq<int>,
) -> bool {
    &&& leads(nodes, trail)
    &&& pair.0 == longer(prefix, trail_names(nodes, trail))
    &&& pair.1 == trail_site(nodes, file, trail)
}

/// What leads on below a node leads on from the node.
proof fn lemma_trail_below(
    nodes: Seq<SyntaxNode>,
    file: usize,
    prefix: Seq<char>,
    inner: Seq<char>,
    pair: (Seq<char>, Site),
    trail: Seq<int>,
)
    requires
        nodes.len() > 0,
        nodes.last().kind != NodeKind::TestExprDef,
        nodes.last().kind == NodeKind::TestsetDef ==> literal_name(nodes.last()) is Some && inner
            == path_join(prefix, literal_name(nodes.last())->0),
        nodes.last().kind != NodeKind::TestsetDef ==> inner == prefix,
        comes_from(nodes.last().children@, file, inner, pair, trail),
    ensures
        exists|longer_trail: Seq<int>| comes_from(nodes, file, prefix, pair, longer_trail),
{
    let node = nodes.last();
    let whole = seq![nodes.len() - 1] + trail;
    assert(whole[0] == nodes.len() - 1);
    assert(whole.skip(1) =~= trail);
    assert(nodes[whole[0]] == node);
    let below = trail_names(node.children@, trail);
    let names = trail_names(nodes, whole);
    if node.kind == NodeKind::TestsetDef {
        assert(names =~= seq![literal_name(node)->0] + below);
        assert(names.skip(1) =~= below);
    } else {
        assert(names =~= below);
    }
    assert(trail_end(nodes, whole) == trail_end(node.children@, trail));
    assert(comes_from(nodes, file, prefix, pair, whole));
}

/// A path that is known was known before, or is that of a test that a trail
/// leads to, with the range of that test.
proof fn lemma_known_from(
    nodes: Seq<SyntaxNode>,
    file: usize,
    prefix: Seq<char>,
    before: Seq<(Seq<char>, Site)>,
    k: int,
)
    requires
        0 <= k < static_paths(nodes, file, prefix, before).len(),
    ensures
        ({
            let pair = static_paths(nodes, file, prefix, before)[k];
            before.contains(pair) || exists|trail: Seq<int>|
                comes_from(nodes, file, prefix, pair, trail)
        }),
    decreases nodes,
{
    let after = static_paths(nodes, file, prefix, before);
    let pair = after[k];
    if nodes.len() == 0 {
        assert(before.contains(pair));
    } else {
        let shorter = nodes.drop_last();
        let front = static_paths(shorter, file, prefix, before);
        let node = nodes.last();
        if front.contains(pair) {
            let j = choose|j: int| 0 <= j < front.len() && front[j] == pair;
            lemma_known_from(shorter, file, prefix, before, j);
            if !before.contains(pair) {
                let trail = choose|trail: Seq<int>|
                    comes_from(shorter, file, prefix, pair, trail);
                assert(shorter[trail[0]] == nodes[trail[0]]);
                assert(comes_from(nodes, file, prefix, pair, trail));
            }
        } else {
            match node.kind {
                NodeKind::TestsetDef => match literal_name(node) {
                    Some(name) => {
                        let inner = path_join(prefix, name);
                        lemma_known_from(node.children@, file, inner, front, k);
                        let trail = choose|trail: Seq<int>|
                            comes_from(node.children@, file, inner, pair, trail);
                        lemma_trail_below(nodes, file, prefix, inner, pair, trail);
                    },
                    None => {
                        assert(front.contains(pair));
                    },
                },
                NodeKind::TestExprDef => match literal_name(node) {
                    Some(name) => {
                        let key = path_join(prefix, name);
                        lemma_key_position(front, key);
                        let at = match key_position(front, key) {
                            Some(i) => i,
                            None => front.len() as int,
                        };
                        if k != at {
                            assert(after[k] == front[k]);
                            assert(front.contains(pair));
                        }
                        let trail = seq![nodes.len() - 1];
                        assert(nodes[trail[0]] == node);
                        assert(leads(nodes, trail));
                        lemma_trail_names(nodes, trail);
                        let names = trail_names(nodes, trail);
                        assert(names.skip(1) =~= Seq::<Seq<char>>::empty());
                        assert(longer(key, names.skip(1)) == key);
                        assert(comes_from(nodes, file, prefix, pair, trail));
                    },
                    None => {
                        assert(front.contains(pair));
                    },
                },
                _ => {
                    lemma_known_from(node.children@, file, prefix, front, k);
                    let trail = choose|trail: Seq<int>|
                        comes_from(node.children@, file, prefix, pair, trail);
                    lemma_trail_below(nodes, file, prefix, prefix, pair, trail);
                },
            }
        }
    }
}

// ---------------------------------------------------------------------------
// Laws
// ---------------------------------------------------------------------------

/// A test that is named by string literals has a path: the names of the
/// testsets that it lies in, outermost first, and its own, with a slash between
/// neighbours, whatever other nodes lie in between. No testset around it may
/// have an empty name.
pub proof fn law_literal_tests_have_paths(files: Seq<ParsedFile>, i: int, trail: Seq<int>)
    requires
        files.len() <= usize::MAX,
        0 <= i < files.len(),
        leads(files[i].tree.children@, trail),
        named_throughout(trail_names(files[i].tree.children@, trail)),
    ensures
        lookup(
            project_paths(files),
            join(trail_names(files[i].tree.children@, trail), "/"@),
        ) is Some,
    decreases files.len(),
{
    let path = join(trail_names(files[i].tree.children@, trail), "/"@);
    let before = project_paths(files.drop_last());
    let nodes = files.last().tree.children@;
    let file = (files.len() - 1) as usize;
    if i < files.len() - 1 {
        law_literal_tests_have_paths(files.drop_last(), i, trail);
        lemma_key_position(before, path);
        lemma_stays_known(nodes, file, Seq::empty(), before, path);
    } else {
        lemma_trail_names(nodes, trail);
        lemma_longer(Seq::empty(), trail_names(nodes, trail));
        lemma_trail_known(nodes, file, Seq::empty(), before, trail);
    }
    lemma_lookup_known(project_paths(files), path);
}

/// A known path has a range.
proof fn lemma_lookup_known(paths: Seq<(Seq<char>, Site)>, path: Seq<char>)
    requires
        known(paths, path),
    ensures
        lookup(paths, path) matches Some(site) && paths.contains((path, site)),
{
    lemma_key_position(paths, path);
    let k = choose|k: int| 0 <= k < paths.len() && (#[trigger] paths[k]).0 == path;
    match key_position(paths, path) {
        Some(i) => {
            assert(paths[i] == (path, lookup(paths, path)->0));
        },
        None => {},
    }
}

/// A range in the paths is that of a test in some file.
proof fn lemma_project_from(files: Seq<ParsedFile>, pair: (Seq<char>, Site))
    requires
        files.len() <= usize::MAX,
        project_paths(files).contains(pair),
    ensures
        exists|i: int, trail: Seq<int>|
            0 <= i < files.len() && #[trigger] comes_from(
                files[i].tree.children@,
                i as usize,
                Seq::empty(),
                pair,
                trail,
            ),
    decreases files.len(),
{
    if files.len() > 0 {
        let shorter = files.drop_last();
        let nodes = files.last().tree.children@;
        let file = (files.len() - 1) as usize;
        let after = project_paths(files);
        let k = choose|k: int| 0 <= k < after.len() && after[k] == pair;
        lemma_known_from(nodes, file, Seq::empty(), project_paths(shorter), k);
        if project_paths(shorter).contains(pair) {
            lemma_project_from(shorter, pair);
            let (i, trail) = choose|i: int, trail: Seq<int>|
                0 <= i < shorter.len() && #[trigger] comes_from(
                    shorter[i].tree.children@,
                    i as usize,
                    Seq::empty(),
                    pair,
                    trail,
                );
            assert(files[i] == shorter[i]);
            assert(comes_from(files[i].tree.children@, i as usize, Seq::empty(), pair, trail));
        } else {
            let trail = choose|trail: Seq<int>|
                comes_from(nodes, file, Seq::empty(), pair, trail);
            assert(files[files.len() - 1] == files.last());
            assert(comes_from(
                files[files.len() - 1].tree.children@,
                (files.len() - 1) as usize,
                Seq::empty(),
                pair,
                trail,
            ));
        }
    }
}

/// The target is used inside the test that `trail` leads to in file `i`.
pub open spec fn calls(
    files: Seq<ParsedFile>,
    i: int,
    trail: Seq<int>,
    usages: Seq<Site>,
) -> bool {
    let test = trail_end(files[i].tree.children@, trail);
    exists|u: int|
        0 <= u < usages.len() && (#[trigger] usages[u]).file == i && test.start <= usages[u].start
            && usages[u].end <= test.end
}

/// A testset test with the path of a test that is named by string literals is
/// judged by what stands inside: if no test of that path calls the target it is
/// dropped, and if every test of that path does, it stays. No testset may have
/// an empty name.
pub proof fn law_tests_are_judged_by_their_calls(
    files: Seq<ParsedFile>,
    usages: Seq<Site>,
    test: TestModel,
    i: int,
    trail: Seq<int>,
)
    requires
        files.len() <= usize::MAX,
        0 <= i < files.len(),
        leads(files[i].tree.children@, trail),
        forall|j: int, t: Seq<int>|
            0 <= j < files.len() && #[trigger] leads(files[j].tree.children@, t)
                ==> named_throughout(trail_names(files[j].tree.children@, t)),
        test.kind matches TestKindModel::Testset { full_path } && full_path == join(
            trail_names(files[i].tree.children@, trail),
            "/"@,
        ),
    ensures
        ({
            let path = join(trail_names(files[i].tree.children@, trail), "/"@);
            &&& (forall|j: int, t: Seq<int>|
                0 <= j < files.len() && #[trigger] leads(files[j].tree.children@, t) && join(
                    trail_names(files[j].tree.children@, t),
                    "/"@,
                ) == path ==> !calls(files, j, t, usages)) ==> !stays(
                test,
                project_paths(files),
                usages,
            )
            &&& (forall|j: int, t: Seq<int>|
                0 <= j < files.len() && #[trigger] leads(files[j].tree.children@, t) && join(
                    trail_names(files[j].tree.children@, t),
                    "/"@,
                ) == path ==> calls(files, j, t, usages)) ==> stays(
                test,
                project_paths(files),
                usages,
            )
        }),
{
    let paths = project_paths(files);
    let path = join(trail_names(files[i].tree.children@, trail), "/"@);
    law_literal_tests_have_paths(files, i, trail);
    lemma_key_position(paths, path);
    let site = lookup(paths, path)->0;
    let at = key_position(paths, path)->0;
    assert(paths[at] == (path, site));
    assert(paths.contains((path, site)));
    lemma_project_from(files, (path, site));
    let (j, t) = choose|j: int, t: Seq<int>|
        0 <= j < files.len() && #[trigger] comes_from(
            files[j].tree.children@,
            j as usize,
            Seq::empty(),
            (path, site),
            t,
        );
    let nodes = files[j].tree.children@;
    assert(leads(nodes, t));
    lemma_trail_names(nodes, t);
    lemma_longer(Seq::empty(), trail_names(nodes, t));
    assert(join(trail_names(nodes, t), "/"@) == path);
    assert(site == trail_site(nodes, j as usize, t));
    assert(calls(files, j, t, usages) == used_in(site, usages)) by {
        if used_in(site, usages) {
            let u = choose|u: int| 0 <= u < usages.len() && covers(site, #[trigger] usages[u]);
            assert(usages[u].file == j);
        }
        if calls(files, j, t, usages) {
            let test = trail_end(nodes, t);
            let u = choose|u: int|
                0 <= u < usages.len() && (#[trigger] usages[u]).file == j && test.start
                    <= usages[u].start && usages[u].end <= test.end;
            assert(covers(site, usages[u]));
        }
    }
}

/// Nodes that are neither testset nor test do not matter: putting one around
/// some nodes leaves the paths as they are.
pub proof fn law_plain_nodes_do_not_matter(
    node: SyntaxNode,
    file: usize,
    prefix: Seq<char>,
    before: Seq<(Seq<char>, Site)>,
)
    requires
        node.kind != NodeKind::TestsetDef,
        node.kind != NodeKind::TestExprDef,
    ensures
        static_paths(seq![node], file, prefix, before) == static_paths(
            node.children@,
            file,
            prefix,
            before,
        ),
{
    let nodes = seq![node];
    assert(nodes.drop_last() =~= Seq::<SyntaxNode>::empty());
    assert(static_paths(nodes.drop_last(), file, prefix, before) == before);
    assert(nodes.last() == node);
}

/// Where in the result a test that stays stands: behind those before it that
/// stay, in the order of the list.
pub proof fn law_retained_keeps_order(
    tests: Seq<TestModel>,
    more: Seq<TestModel>,
    paths: Seq<(Seq<char>, Site)>,
    usages: Seq<Site>,
    files: Seq<ParsedFile>,
)
    ensures
        retained(tests + more, paths, usages, files) == retained(tests, paths, usages, files)
            + retained(more, paths, usages, files),
    decreases more.len(),
{
    if more.len() == 0 {
        assert(tests + more =~= tests);
        assert(retained(tests, paths, usages, files) + retained(more, paths, usages, files)
            =~= retained(tests, paths, usages, files));
    } else {
        let all = tests + more;
        assert(all.drop_last() =~= tests + more.drop_last());
        assert(all.last() == more.last());
        law_retained_keeps_order(tests, more.drop_last(), paths, usages, files);
        assert(retained(all, paths, usages, files) =~= retained(tests, paths, usages, files)
            + retained(more, paths, usages, files));
    }
}

/// A name is what the first child comes down to: a string literal, without its
/// quotes, whatever single nodes stand around it; of anything else there is none.
pub proof fn law_names_are_read_through_wrappers(
    node: SyntaxNode,
    inner: SyntaxNode,
    text: Seq<char>,
)
    ensures
        node.children@.len() > 0 ==> literal_name(node) == sole_literal(node.children@[0]),
        node.children@.len() == 0 ==> literal_name(node) is None,
        inner.kind == NodeKind::StringLiteral && inner.text@ == seq!['"'] + text + seq!['"']
            ==> sole_literal(inner) == Some(text),
        inner.kind == NodeKind::StringLiteral && !inner.text@.contains('"') ==> sole_literal(inner)
            == Some(inner.text@),
        inner.kind != NodeKind::StringLiteral && inner.children@.len() == 1 ==> sole_literal(inner)
            == sole_literal(inner.children@[0]),
        inner.kind != NodeKind::StringLiteral && inner.children@.len() != 1
            ==> sole_literal(inner) is None,
{
    let s = inner.text@;
    if s == seq!['"'] + text + seq!['"'] {
        assert(s.last() == '"');
        assert(s.subrange(1, s.len() - 1) =~= text);
    }
    if !s.contains('"') && s.len() > 0 {
        assert(s[0] != '"') by {
            if s[0] == '"' {
                assert(s.contains('"'));
            }
        }
    }
}

/// The source of a testset test is cut out of the file that its path leads to,
/// from where the test begins to where it ends.
pub proof fn law_sources_are_cut_out(
    test: crate::discovery::TestModel,
    full_path: Seq<char>,
    paths: Seq<(Seq<char>, Site)>,
    files: Seq<ParsedFile>,
    before: Seq<char>,
    inside: Seq<char>,
    after: Seq<char>,
)
    requires
        test.kind == (crate::discovery::TestKindModel::Testset { full_path }),
        lookup(paths, full_path) is Some,
        ({
            let site = lookup(paths, full_path)->0;
            &&& files[site.file as int].text@ == before + inside + after
            &&& site.start == vstd::utf8::encode_utf8(before).len()
            &&& site.end == vstd::utf8::encode_utf8(before + inside).len()
        }),
    ensures
        crate::testset_filter::with_source(test, paths, files).test_source == Some(inside),
{
    let site = lookup(paths, full_path)->0;
    let whole = before + inside + after;
    lemma_encoded_append(before + inside, after);
    lemma_encoded_append(before, inside);
    let bytes = vstd::utf8::encode_utf8(whole);
    assert(bytes.subrange(site.start as int, site.end as int) =~= vstd::utf8::encode_utf8(inside));
    vstd::utf8::encode_utf8_decode_utf8(inside);
}

/// The bytes of two texts are those of the first, then those of the second.
proof fn lemma_encoded_append(a: Seq<char>, b: Seq<char>)
    ensures
        vstd::utf8::encode_utf8(a + b) == vstd::utf8::encode_utf8(a) + vstd::utf8::encode_utf8(b),
    decreases a.len(),
{
    let bytes = vstd::utf8::encode_utf8(b);
    if a.len() == 0 {
        assert(a + b =~= b);
        assert(vstd::utf8::encode_utf8(a) + bytes =~= bytes);
    } else {
        let rest = a.drop_first();
        lemma_encoded_append(rest, b);
        assert((a + b).drop_first() =~= rest + b);
        assert((a + b)[0] == a[0]);
        assert(vstd::utf8::encode_utf8(a + b) =~= vstd::utf8::encode_utf8(a) + bytes);
    }
}

/// A test that is not in a testset stays, and so does one whose path no test
/// that is named by string literals has: it is not known what it calls.
pub proof fn law_unknown_tests_stay(
    test: crate::discovery::TestModel,
    paths: Seq<(Seq<char>, Site)>,
    usages: Seq<Site>,
)
    ensures
        test.kind is Legacy ==> stays(test, paths, usages),
        (test.kind matches crate::discovery::TestKindModel::Testset { full_path } && forall|i: int|
            0 <= i < paths.len() ==> (#[trigger] paths[i]).0 != full_path) ==> stays(
            test,
            paths,
            usages,
        ),
{
    match test.kind {
        crate::discovery::TestKindModel::Legacy => {},
        crate::discovery::TestKindModel::Testset { full_path } => {
            crate::assoc::lemma_first_key(paths, full_path);
        },
    }
}

/// Of several tests with the same path the last one counts: behind a test that
/// is named by a string literal, its path leads to where it stands, whatever was
/// there before.
pub proof fn law_the_last_test_of_a_path_counts(
    nodes: Seq<SyntaxNode>,
    node: SyntaxNode,
    file: usize,
    prefix: Seq<char>,
    before: Seq<(Seq<char>, Site)>,
    name: Seq<char>,
)
    requires
        node.kind == NodeKind::TestExprDef,
        literal_name(node) == Some(name),
    ensures
        lookup(
            static_paths(nodes.push(node), file, prefix, before),
            if prefix.len() == 0 {
                name
            } else {
                prefix + seq!['/'] + name
            },
        ) == Some(Site { file, start: node.start, end: node.end }),
{
    reveal_strlit("/");
    assert("/"@ =~= seq!['/']);
    assert(nodes.push(node).drop_last() =~= nodes);
    assert(nodes.push(node).last() == node);
    let front = static_paths(nodes, file, prefix, before);
    let path = path_join(prefix, name);
    let site = Site { file, start: node.start, end: node.end };
    crate::selection_laws::lemma_put_lookup(front, path, site, path);
}

} // verus!
