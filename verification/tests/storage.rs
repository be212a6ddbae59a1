use baml_optimize::paths::{join_path, same_path, sort_paths};
use baml_optimize::sources::SourceFile;
use baml_optimize::storage::{find_content, find_file, generate_unified_diff, Storage};

fn file(path: &str, content: &str) -> SourceFile {
    SourceFile { path: path.to_string(), content: content.to_string() }
}

#[test]
fn unified_diff_is_empty_for_identical_sources() {
    let base = vec![file("a.baml", "one\ntwo\n")];
    let patch = generate_unified_diff(&base, &base);
    assert!(patch.is_empty());
}

#[test]
fn unified_diff_emits_hunk_for_changed_file() {
    let base = vec![file("a.baml", "one\ntwo\n")];
    let modified = vec![file("a.baml", "one\nTWO\n")];

    let patch = generate_unified_diff(&base, &modified);
    assert!(patch.contains("--- a.baml"));
    assert!(patch.contains("+++ a.baml"));
    assert!(patch.contains("-two"));
    assert!(patch.contains("+TWO"));
    assert_eq!(patch, "--- a.baml\n+++ a.baml\n@@ -1,2 +1,2 @@\n one\n-two\n+TWO\n");
}

#[test]
fn unified_diff_handles_added_and_removed_files() {
    let base = vec![file("gone.baml", "old\n")];
    let modified = vec![file("new.baml", "new\n")];

    let patch = generate_unified_diff(&base, &modified);
    assert!(patch.contains("gone.baml"));
    assert!(patch.contains("new.baml"));
    assert!(patch.contains("-old"));
    assert!(patch.contains("+new"));
}

#[test]
fn base_snapshot_lies_below_the_run_directory() {
    let storage = Storage::new("/project", 7);
    let sources = vec![file("a.baml", "hello"), file("sub/b.baml", "world")];
    let snapshot = storage.base_snapshot(&sources);
    assert_eq!(snapshot[0].path, "/project/.baml_optimize/run_7/base/a.baml");
    assert_eq!(snapshot[0].content, "hello");
    assert_eq!(snapshot[1].path, "/project/.baml_optimize/run_7/base/sub/b.baml");
    assert_eq!(snapshot[1].content, "world");
}

#[test]
fn candidate_patch_is_named_after_the_candidate() {
    let storage = Storage::new("/project", 1700000000);
    let base = vec![file("a.baml", "x\n")];
    let modified = vec![file("a.baml", "y\n")];
    let path = storage.patch_path(3);
    assert!(path.ends_with("candidate_3.patch"));
    assert_eq!(path, "/project/.baml_optimize/run_1700000000/candidates/candidate_3.patch");
    let contents = generate_unified_diff(&base, &modified);
    assert!(contents.contains("-x"));
    assert!(contents.contains("+y"));
}

#[test]
fn a_run_directory_holds_its_artifacts() {
    let storage = Storage::new("root/", 0);
    assert_eq!(storage.run_dir(), "root/.baml_optimize/run_0");
    assert_eq!(
        storage.directories(),
        vec![
            "root/.baml_optimize/run_0",
            "root/.baml_optimize/run_0/candidates",
            "root/.baml_optimize/run_0/evaluations",
            "root/.baml_optimize/run_0/reflections",
            "root/.baml_optimize/run_0/base",
        ]
    );
    assert_eq!(storage.config_path(), "root/.baml_optimize/run_0/config.json");
    assert_eq!(storage.state_path(), "root/.baml_optimize/run_0/state.json");
    assert_eq!(storage.final_results_path(), "root/.baml_optimize/run_0/final_results.json");
    assert_eq!(
        storage.candidate_path(usize::MAX),
        format!("root/.baml_optimize/run_0/candidates/candidate_{}.json", usize::MAX)
    );
}

#[test]
fn only_an_existing_run_directory_is_opened() {
    assert_eq!(Storage::load("/run".into(), true).unwrap().run_dir(), "/run");
    let e = Storage::load("/run".into(), false).unwrap_err();
    assert_eq!(e.message(), "run directory does not exist: /run");
}

#[test]
fn the_diff_ignores_the_order_of_the_files() {
    let base = vec![file("b.baml", "b\n"), file("a.baml", "a\n"), file("a/c.baml", "c\n")];
    let other = vec![file("a/c.baml", "c\n"), file("b.baml", "b\n"), file("a.baml", "a\n")];
    let modified = vec![file("a.baml", "A\n"), file("b.baml", "B\n"), file("a/c.baml", "C\n")];
    let patch = generate_unified_diff(&base, &modified);
    assert_eq!(patch, generate_unified_diff(&other, &modified));
    let headers: Vec<&str> = patch.lines().filter(|l| l.starts_with("--- ")).collect();
    assert_eq!(headers, vec!["--- a/c.baml", "--- a.baml", "--- b.baml"]);
}

#[test]
fn an_empty_file_and_a_missing_one_differ() {
    let base = vec![file("a.baml", "")];
    assert_eq!(generate_unified_diff(&base, &vec![]), "--- a.baml\n+++ a.baml\n");
    assert_eq!(generate_unified_diff(&vec![], &base), "--- a.baml\n+++ a.baml\n");
    assert_eq!(generate_unified_diff(&base, &vec![file("a.baml", "")]), "");
    assert_eq!(generate_unified_diff(&vec![], &vec![]), "");
}

#[test]
fn labels_have_forward_slashes() {
    let base = vec![file("sub\\a.baml", "x\n")];
    let patch = generate_unified_diff(&base, &vec![]);
    assert!(patch.starts_with("--- sub/a.baml\n+++ sub/a.baml\n"), "{patch}");
}

#[test]
fn files_are_found_by_the_components_of_their_path() {
    let files = vec![file("a//b/./c.baml", "x"), file("a/b/c.baml", "y")];
    assert_eq!(find_file(&files, "a/b/c.baml"), Some(0));
    assert_eq!(find_content(&files, "a/b/c.baml").as_deref(), Some("x"));
    assert_eq!(find_file(&files, "a/c.baml"), None);
    assert_eq!(find_content(&files, "a/c.baml"), None);
}

#[test]
fn paths_join_like_directories_and_names() {
    assert_eq!(join_path("a", "b"), "a/b");
    assert_eq!(join_path("a/", "b"), "a/b");
    assert_eq!(join_path("", "b"), "b");
    assert_eq!(join_path("a", "/b"), "/b");
    assert_eq!(join_path("a", ""), "a/");
    for (base, rel) in [("a", "b"), ("a/", "b"), ("", "b"), ("a", "/b"), ("a", ""), ("/", "x/y")] {
        let std_join = std::path::Path::new(base).join(rel);
        assert_eq!(join_path(base, rel), std_join.to_str().unwrap());
    }
}

#[test]
fn paths_compare_by_components() {
    let names = [
        "a", "a/b", "a.b", "a/./b", "/a", "./a", "a//b", "", ".", "b", "a/é", "a-b/c", "..", "a/..",
        "ab", "A", "a/b/", "./", "//a", "\u{10ffff}",
    ];
    for a in names {
        for b in names {
            let (x, y) = (std::path::Path::new(a), std::path::Path::new(b));
            assert_eq!(same_path(a, b), x == y, "{a:?} {b:?}");
        }
    }
    let paths: Vec<String> = names.iter().map(|n| n.to_string()).collect();
    let mut want: Vec<std::path::PathBuf> = paths.iter().map(std::path::PathBuf::from).collect();
    want.sort();
    let got: Vec<std::path::PathBuf> =
        sort_paths(&paths).iter().map(std::path::PathBuf::from).collect();
    assert_eq!(got, want);
}

#[test]
fn no_two_candidates_share_an_artifact() {
    let storage = Storage::new("/project", 7);
    let mut paths: Vec<String> = (0..120).map(|id| storage.candidate_path(id)).collect();
    paths.extend((0..120).map(|id| storage.patch_path(id)));
    paths.sort();
    paths.dedup();
    assert_eq!(paths.len(), 240);
}
