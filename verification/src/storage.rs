//! Checkpoint and artifact layout of optimisation runs.
//!
//! Layout of `<root>/.baml_optimize/run_<epoch_secs>/`:
//! ```text
//! config.json              // RunConfig (objectives, parallelism, etc.)
//! state.json               // RunState (iteration, frontier, candidate ids)
//! base/                    // immutable snapshot of baml_src at run start
//!   <mirrors the baml_src tree>
//! candidates/
//!   candidate_<id>.json    // structured candidate metadata
//!   candidate_<id>.patch   // unified diff of modified sources vs base
//! evaluations/             // reserved for per-test results
//! reflections/             // reserved for reflection logs
//! final_results.json       // written once the run completes
//! ```
//!
//! Candidate source changes are stored as unified-diff patches against the
//! base snapshot. The caller reads and writes the files.

use vstd::prelude::*;
use vstd::string::*;

use crate::measure::Measure;
use crate::paths::{
    join_path, joined, law_sorted_keeps_paths, path_key, same_path, sort_paths, sorted,
};
use crate::sources::{FileModel, SourceFile};
use crate::text::{
    chars_of, decimal, digit, first_in, lemma_seek, lemma_seek_is, occurs_at, position, same_text,
    to_decimal,
};

verus! {

/// Where a run is in its optimisation loop.
#[derive(Debug)]
pub struct RunState {
    pub function_name: String,
    pub current_iteration: usize,
    pub total_evals: usize,
    pub candidate_ids: Vec<usize>,
    pub pareto_frontier: Vec<usize>,
}

/// Configuration captured at run start so that later invocations can resume
/// with matching parameters.
#[derive(Debug)]
pub struct RunConfig {
    pub function_name: String,
    pub max_iterations: u32,
    pub parallel: usize,
    pub objectives: Vec<ObjectiveConfig>,
}

/// An objective as it is written down.
#[derive(Debug)]
pub struct ObjectiveConfig {
    pub name: String,
    pub direction: String,
    pub weight: Measure,
}

/// What an [`ObjectiveConfig`] says.
pub ghost struct ObjectiveConfigModel {
    pub name: Seq<char>,
    pub direction: Seq<char>,
    pub weight: Measure,
}

impl DeepView for ObjectiveConfig {
    type V = ObjectiveConfigModel;

    open spec fn deep_view(&self) -> ObjectiveConfigModel {
        ObjectiveConfigModel {
            name: self.name@,
            direction: self.direction@,
            weight: self.weight,
        }
    }
}

/// Manages the artifacts of a single optimisation run.
#[derive(Debug)]
pub struct Storage {
    pub run_dir: String,
}

/// Why a run directory could not be opened.
#[derive(Debug)]
pub enum StorageError {
    /// The run directory does not exist.
    NoRunDir { run_dir: String },
}

impl StorageError {
    /// What to tell the user.
    pub fn message(&self) -> (r: String)
        ensures
            r@ == "run directory does not exist: "@ + self->run_dir@,
    {
        match self {
            StorageError::NoRunDir { run_dir } => {
                let mut out = String::from_str("run directory does not exist: ");
                out.append(run_dir.as_str());
                out
            },
        }
    }
}

/// The name of the artifact of a candidate.
pub open spec fn candidate_file(id: usize, extension: Seq<char>) -> Seq<char> {
    "candidate_"@ + decimal(id as nat) + extension
}

/// Where the artifact of a candidate lies.
pub open spec fn artifact(run_dir: Seq<char>, id: usize, extension: Seq<char>) -> Seq<char> {
    joined(joined(run_dir, "candidates"@), candidate_file(id, extension))
}

impl Storage {
    /// A new run directory `<root>/.baml_optimize/run_<epoch>`.
    pub fn new(root: &str, epoch_secs: u64) -> (r: Self)
        ensures
            r.run_dir@ == joined(
                joined(root@, ".baml_optimize"@),
                "run_"@ + decimal(epoch_secs as nat),
            ),
    {
        let mut name = String::from_str("run_");
        name.append(to_decimal(epoch_secs).as_str());
        let parent = join_path(root, ".baml_optimize");
        Storage { run_dir: join_path(parent.as_str(), name.as_str()) }
    }

    /// Opens an existing run directory.
    pub fn load(run_dir: String, exists_on_disk: bool) -> (r: Result<Self, StorageError>)
        ensures
            match r {
                Ok(storage) => exists_on_disk && storage.run_dir@ == run_dir@,
                Err(StorageError::NoRunDir { run_dir: dir }) => !exists_on_disk && dir@ == run_dir@,
            },
    {
        if !exists_on_disk {
            return Err(StorageError::NoRunDir { run_dir });
        }
        Ok(Storage { run_dir })
    }

    /// The run directory.
    pub fn run_dir(&self) -> (r: &String)
        ensures
            r@ == self.run_dir@,
    {
        &self.run_dir
    }

    /// The directories of a run, in the order in which they are created.
    pub fn directories(&self) -> (r: Vec<String>)
        ensures
            r.deep_view() == seq![
                self.run_dir@,
                joined(self.run_dir@, "candidates"@),
                joined(self.run_dir@, "evaluations"@),
                joined(self.run_dir@, "reflections"@),
                joined(self.run_dir@, "base"@),
            ],
    {
        let dir = self.run_dir.as_str();
        let mut out: Vec<String> = Vec::new();
        out.push(self.run_dir.clone());
        out.push(join_path(dir, "candidates"));
        out.push(join_path(dir, "evaluations"));
        out.push(join_path(dir, "reflections"));
        out.push(join_path(dir, "base"));
        assert(out.deep_view() =~= seq![
            self.run_dir@,
            joined(self.run_dir@, "candidates"@),
            joined(self.run_dir@, "evaluations"@),
            joined(self.run_dir@, "reflections"@),
            joined(self.run_dir@, "base"@),
        ]);
        out
    }

    /// Where the run configuration is written.
    pub fn config_path(&self) -> (r: String)
        ensures
            r@ == joined(self.run_dir@, "config.json"@),
    {
        join_path(self.run_dir.as_str(), "config.json")
    }

    /// Where the checkpoint is written.
    pub fn state_path(&self) -> (r: String)
        ensures
            r@ == joined(self.run_dir@, "state.json"@),
    {
        join_path(self.run_dir.as_str(), "state.json")
    }

    /// Where the final results are written.
    pub fn final_results_path(&self) -> (r: String)
        ensures
            r@ == joined(self.run_dir@, "final_results.json"@),
    {
        join_path(self.run_dir.as_str(), "final_results.json")
    }

    /// Where a candidate is written.
    pub fn candidate_path(&self, id: usize) -> (r: String)
        ensures
            r@ == artifact(self.run_dir@, id, ".json"@),
    {
        let dir = join_path(self.run_dir.as_str(), "candidates");
        join_path(dir.as_str(), candidate_name(id, ".json").as_str())
    }

    /// Where the patch of a candidate is written.
    pub fn patch_path(&self, id: usize) -> (r: String)
        ensures
            r@ == artifact(self.run_dir@, id, ".patch"@),
    {
        let dir = join_path(self.run_dir.as_str(), "candidates");
        join_path(dir.as_str(), candidate_name(id, ".patch").as_str())
    }

    /// The snapshot of the sources: each file below `base/`.
    pub fn base_snapshot(&self, sources: &Vec<SourceFile>) -> (r: Vec<SourceFile>)
        ensures
            r.deep_view() == sources.deep_view().map_values(
                |file: FileModel|
                    FileModel {
                        path: joined(joined(self.run_dir@, "base"@), file.path),
                        content: file.content,
                    },
            ),
    {
        let base = join_path(self.run_dir.as_str(), "base");
        let mut out: Vec<SourceFile> = Vec::new();
        let mut k: usize = 0;
        while k < sources.len()
            invariant
                k <= sources.len(),
                base@ == joined(self.run_dir@, "base"@),
                out@.len() == k,
                forall|j: int|
                    0 <= j < k ==> (#[trigger] out@[j]).path@ == joined(base@, sources@[j].path@)
                        && out@[j].content@ == sources@[j].content@,
            decreases sources.len() - k,
        {
            out.push(
                SourceFile {
                    path: join_path(base.as_str(), sources[k].path.as_str()),
                    content: sources[k].content.clone(),
                },
            );
            k = k + 1;
        }
        assert(out.deep_view() =~= sources.deep_view().map_values(
            |file: FileModel|
                FileModel {
                    path: joined(joined(self.run_dir@, "base"@), file.path),
                    content: file.content,
                },
        ));
        out
    }
}

/// The name of the artifact of a candidate.
fn candidate_name(id: usize, extension: &str) -> (r: String)
    ensures
        r@ == candidate_file(id, extension@),
{
    let mut out = String::from_str("candidate_");
    out.append(to_decimal(id as u64).as_str());
    out.append(extension);
    out
}

// ---------------------------------------------------------------------------
// Patches
// ---------------------------------------------------------------------------

/// The unified diff from `old` to `new`, line by line, with `label` as the
/// name of both sides.
pub uninterp spec fn unified_text(label: Seq<char>, old: Seq<char>, new: Seq<char>) -> Seq<char>;

/// The first two lines of a unified diff.
pub open spec fn diff_header(label: Seq<char>) -> Seq<char> {
    "--- "@ + label + "\n+++ "@ + label + "\n"@
}

/// Outside functions: `similar::TextDiff::from_lines`, and the `Display` of
/// the `similar::udiff::UnifiedDiff` with a header that it gives. The contract
/// claims that the text is a function of label, old and new text, and that the
/// diff of two different texts begins with the two header lines. Which hunks
/// follow is left unsaid.
#[verifier::external_body]
fn unified_diff(label: &str, old_text: &str, new_text: &str) -> (r: String)
    ensures
        r@ == unified_text(label@, old_text@, new_text@),
        old_text@ != new_text@ ==> occurs_at(r@, diff_header(label@), 0),
{
    similar::TextDiff::from_lines(old_text, new_text).unified_diff().header(label, label).to_string()
}

/// A path with forward slashes.
pub open spec fn slashed(path: Seq<char>) -> Seq<char> {
    path.map_values(
        |c: char|
            if c == '\\' {
                '/'
            } else {
                c
            },
    )
}

/// A path with forward slashes.
fn diff_label(path: &str) -> (r: String)
    ensures
        r@ == slashed(path@),
{
    let chars = chars_of(path);
    let mut out = String::new();
    let mut i: usize = 0;
    while i < chars.len()
        invariant
            i <= chars.len(),
            chars@ == path@,
            out@ == slashed(path@).take(i as int),
        decreases chars.len() - i,
    {
        if chars[i] == '\\' {
            out.push('/');
        } else {
            out.push(chars[i]);
        }
        assert(out@ =~= slashed(path@).take(i + 1));
        i = i + 1;
    }
    assert(out@ =~= slashed(path@));
    out
}

/// Holds at the files with the components of `path`.
pub open spec fn file_at(files: Seq<FileModel>, path: Seq<char>) -> spec_fn(int) -> bool {
    |i: int| path_key(files[i].path) == path_key(path)
}

/// The text of the file at `path`; none where there is no such file.
pub open spec fn content_of(files: Seq<FileModel>, path: Seq<char>) -> Option<Seq<char>> {
    match first_in(file_at(files, path), 0, files.len() as int) {
        Some(i) => Some(files[i].content),
        None => None,
    }
}

/// Where the file at `path` stands.
pub fn find_file(files: &Vec<SourceFile>, path: &str) -> (r: Option<usize>)
    ensures
        position(r) == first_in(file_at(files.deep_view(), path@), 0, files@.len() as int),
        r is Some ==> r->0 < files@.len(),
{
    let ghost p = file_at(files.deep_view(), path@);
    let mut i: usize = 0;
    while i < files.len()
        invariant
            i <= files.len(),
            p == file_at(files.deep_view(), path@),
            forall|j: int| 0 <= j < i ==> !#[trigger] p(j),
        decreases files.len() - i,
    {
        assert(files.deep_view()[i as int] == files@[i as int].deep_view());
        if same_path(files[i].path.as_str(), path) {
            proof {
                assert(p(i as int));
                lemma_seek_is(p, 0, files@.len() as int, i as int);
            }
            return Some(i);
        }
        assert(!p(i as int));
        i = i + 1;
    }
    proof {
        lemma_seek_is(p, 0, files@.len() as int, i as int);
    }
    None
}

/// The text of the file at `path`; none where there is no such file.
pub fn find_content(files: &Vec<SourceFile>, path: &str) -> (r: Option<String>)
    ensures
        r.deep_view() == content_of(files.deep_view(), path@),
{
    match find_file(files, path) {
        Some(i) => {
            assert(files.deep_view()[i as int] == files@[i as int].deep_view());
            Some(files[i].content.clone())
        },
        None => None,
    }
}

/// Sorted paths without the ones whose components stand right before them.
pub open spec fn deduped(paths: Seq<Seq<char>>) -> Seq<Seq<char>>
    decreases paths.len(),
{
    if paths.len() == 0 {
        Seq::empty()
    } else {
        let front = deduped(paths.drop_last());
        if front.len() > 0 && path_key(front.last()) == path_key(paths.last()) {
            front
        } else {
            front.push(paths.last())
        }
    }
}

/// The paths of some files.
pub open spec fn file_paths(files: Seq<FileModel>) -> Seq<Seq<char>> {
    files.map_values(|file: FileModel| file.path)
}

/// The paths of both sides, sorted, each once.
pub open spec fn all_paths(base: Seq<FileModel>, modified: Seq<FileModel>) -> Seq<Seq<char>> {
    deduped(sorted(file_paths(base) + file_paths(modified)))
}

/// The text that stands for a file in a diff: a missing file is empty there.
pub open spec fn diff_side(content: Option<Seq<char>>) -> Seq<char> {
    match content {
        Some(text) => text,
        None => Seq::empty(),
    }
}

/// The diff of one file: empty where the two sides are the same, and the
/// header alone where one side has an empty file and the other has none.
pub open spec fn file_diff(
    path: Seq<char>,
    before: Option<Seq<char>>,
    after: Option<Seq<char>>,
) -> Seq<char> {
    if before == after {
        Seq::empty()
    } else if diff_side(before) == diff_side(after) {
        diff_header(slashed(path))
    } else {
        unified_text(slashed(path), diff_side(before), diff_side(after))
    }
}

/// The diffs of some files, one after another.
pub open spec fn diffs(
    paths: Seq<Seq<char>>,
    base: Seq<FileModel>,
    modified: Seq<FileModel>,
) -> Seq<char>
    decreases paths.len(),
{
    if paths.len() == 0 {
        Seq::empty()
    } else {
        diffs(paths.drop_last(), base, modified) + file_diff(
            paths.last(),
            content_of(base, paths.last()),
            content_of(modified, paths.last()),
        )
    }
}

/// Both sides hold files at the same paths, with the same texts.
pub open spec fn same_sources(base: Seq<FileModel>, modified: Seq<FileModel>) -> bool {
    forall|path: Seq<char>|
        #![trigger content_of(base, path)]
        #![trigger content_of(modified, path)]
        content_of(base, path) == content_of(modified, path)
}

/// Dropping repeated paths loses no components.
proof fn lemma_deduped(paths: Seq<Seq<char>>, i: int)
    requires
        0 <= i < paths.len(),
    ensures
        exists|j: int|
            0 <= j < deduped(paths).len() && path_key(#[trigger] deduped(paths)[j]) == path_key(
                paths[i],
            ),
    decreases paths.len(),
{
    let front = paths.drop_last();
    let before = deduped(front);
    let after = deduped(paths);
    if i < front.len() {
        lemma_deduped(front, i);
        let j = choose|j: int|
            0 <= j < before.len() && path_key(#[trigger] before[j]) == path_key(front[i]);
        assert(after[j] == before[j]);
    } else {
        assert(path_key(after[after.len() - 1]) == path_key(paths[i]));
    }
}

/// Every file of either side has its components among the paths.
pub proof fn lemma_all_paths(base: Seq<FileModel>, modified: Seq<FileModel>, path: Seq<char>)
    requires
        file_paths(base).contains(path) || file_paths(modified).contains(path),
    ensures
        exists|j: int|
            0 <= j < all_paths(base, modified).len() && path_key(
                #[trigger] all_paths(base, modified)[j],
            ) == path_key(path),
{
    broadcast use vstd::seq_lib::group_to_multiset_ensures;

    let paths = file_paths(base) + file_paths(modified);
    if file_paths(base).contains(path) {
        let i = choose|i: int| 0 <= i < file_paths(base).len() && file_paths(base)[i] == path;
        assert(paths[i] == path);
    } else {
        let i = choose|i: int|
            0 <= i < file_paths(modified).len() && file_paths(modified)[i] == path;
        assert(paths[file_paths(base).len() + i] == path);
    }
    assert(paths.contains(path));
    law_sorted_keeps_paths(paths);
    assert(sorted(paths).to_multiset().contains(path));
    let i = choose|i: int| 0 <= i < sorted(paths).len() && sorted(paths)[i] == path;
    lemma_deduped(sorted(paths), i);
    let kept = deduped(sorted(paths));
    let j = choose|j: int| 0 <= j < kept.len() && path_key(#[trigger] kept[j]) == path_key(path);
    assert(all_paths(base, modified)[j] == kept[j]);
}

/// A text is that of some file.
proof fn lemma_content_absent(files: Seq<FileModel>, path: Seq<char>)
    ensures
        content_of(files, path) is Some ==> exists|p: Seq<char>| #[trigger]
            file_paths(files).contains(p) && path_key(p) == path_key(path),
{
    lemma_seek(file_at(files, path), 0, files.len() as int);
    if content_of(files, path) is Some {
        let i = first_in(file_at(files, path), 0, files.len() as int)->0;
        assert(file_at(files, path)(i));
        assert(file_paths(files)[i] == files[i].path);
        assert(file_paths(files).contains(files[i].path));
    }
}

/// The text at a path depends only on the path's components.
pub proof fn lemma_content_key(files: Seq<FileModel>, p: Seq<char>, q: Seq<char>)
    requires
        path_key(p) == path_key(q),
    ensures
        content_of(files, p) == content_of(files, q),
{
    assert(file_at(files, p) =~= file_at(files, q));
}

/// Both sides are the same if they are at every path that one of them has.
proof fn lemma_same_sources(base: Seq<FileModel>, modified: Seq<FileModel>)
    requires
        forall|j: int|
            0 <= j < all_paths(base, modified).len() ==> content_of(
                base,
                #[trigger] all_paths(base, modified)[j],
            ) == content_of(modified, all_paths(base, modified)[j]),
    ensures
        same_sources(base, modified),
{
    assert forall|path: Seq<char>|
        #![trigger content_of(base, path)]
        #![trigger content_of(modified, path)]
        content_of(base, path) == content_of(modified, path) by {
        lemma_content_absent(base, path);
        lemma_content_absent(modified, path);
        if content_of(base, path) is Some || content_of(modified, path) is Some {
            let p = if content_of(base, path) is Some {
                choose|p: Seq<char>| #[trigger]
                    file_paths(base).contains(p) && path_key(p) == path_key(path)
            } else {
                choose|p: Seq<char>| #[trigger]
                    file_paths(modified).contains(p) && path_key(p) == path_key(path)
            };
            lemma_all_paths(base, modified, p);
            let j = choose|j: int|
                0 <= j < all_paths(base, modified).len() && path_key(
                    #[trigger] all_paths(base, modified)[j],
                ) == path_key(p);
            lemma_content_key(base, path, all_paths(base, modified)[j]);
            lemma_content_key(modified, path, all_paths(base, modified)[j]);
        }
    }
}

/// The paths of both sides, sorted, each once.
fn collect_paths(base: &Vec<SourceFile>, modified: &Vec<SourceFile>) -> (r: Vec<String>)
    ensures
        r.deep_view() == all_paths(base.deep_view(), modified.deep_view()),
{
    let mut paths: Vec<String> = Vec::new();
    let mut k: usize = 0;
    while k < base.len()
        invariant
            k <= base.len(),
            paths@.len() == k,
            forall|j: int| 0 <= j < k ==> (#[trigger] paths@[j])@ == base@[j].path@,
        decreases base.len() - k,
    {
        paths.push(base[k].path.clone());
        k = k + 1;
    }
    let mut m: usize = 0;
    while m < modified.len()
        invariant
            m <= modified.len(),
            paths@.len() == base@.len() + m,
            forall|j: int| 0 <= j < base@.len() ==> (#[trigger] paths@[j])@ == base@[j].path@,
            forall|j: int|
                0 <= j < m ==> (#[trigger] paths@[base@.len() + j])@ == modified@[j].path@,
        decreases modified.len() - m,
    {
        let ghost before = paths@;
        paths.push(modified[m].path.clone());
        assert forall|j: int| 0 <= j < m + 1 implies (#[trigger] paths@[base@.len() + j])@
            == modified@[j].path@ by {
            if j < m {
                assert(paths@[base@.len() + j] == before[base@.len() + j]);
            }
        }
        m = m + 1;
    }
    let ghost want = file_paths(base.deep_view()) + file_paths(modified.deep_view());
    proof {
        assert forall|j: int| 0 <= j < paths@.len() implies paths.deep_view()[j] == want[j] by {
            if j >= base@.len() {
                assert(paths@[base@.len() + (j - base@.len())]@ == modified@[j - base@.len()].path@);
            }
        }
        assert(paths.deep_view() =~= want);
    }
    let ordered = sort_paths(&paths);
    let ghost all = ordered.deep_view();
    let mut out: Vec<String> = Vec::new();
    let mut i: usize = 0;
    proof {
        assert(all.take(0) =~= Seq::<Seq<char>>::empty());
        assert(out.deep_view() =~= Seq::<Seq<char>>::empty());
    }
    while i < ordered.len()
        invariant
            i <= ordered.len(),
            all == ordered.deep_view(),
            out.deep_view() == deduped(all.take(i as int)),
        decreases ordered.len() - i,
    {
        let ghost before = out.deep_view();
        proof {
            assert(all.take(i + 1).drop_last() =~= all.take(i as int));
            assert(all.take(i + 1).last() == ordered@[i as int]@);
            if out@.len() > 0 {
                assert(before.last() == out@[out@.len() - 1]@);
            }
        }
        let repeated = out.len() > 0 && same_path(
            out[out.len() - 1].as_str(),
            ordered[i].as_str(),
        );
        if !repeated {
            out.push(ordered[i].clone());
            assert(out.deep_view() =~= before.push(ordered@[i as int]@));
        }
        i = i + 1;
    }
    assert(all.take(all.len() as int) =~= all);
    out
}

/// The first two lines of a unified diff.
fn header_lines(label: &str) -> (r: String)
    ensures
        r@ == diff_header(label@),
{
    let mut out = String::from_str("--- ");
    out.append(label);
    out.append("\n+++ ");
    out.append(label);
    out.append("\n");
    out
}

/// The diff of one file.
fn diff_of(path: &str, before: Option<String>, after: Option<String>) -> (r: String)
    ensures
        r@ == file_diff(path@, before.deep_view(), after.deep_view()),
        r@.len() == 0 <==> before.deep_view() == after.deep_view(),
{
    proof {
        reveal_strlit("--- ");
        assert(diff_header(slashed(path@)).len() > 0);
    }
    let one_sided = before.is_some() != after.is_some();
    let old_text = match before {
        Some(text) => text,
        None => String::new(),
    };
    let new_text = match after {
        Some(text) => text,
        None => String::new(),
    };
    proof {
        assert(diff_side(before.deep_view()) =~= old_text@);
        assert(diff_side(after.deep_view()) =~= new_text@);
    }
    if !same_text(old_text.as_str(), new_text.as_str()) {
        unified_diff(diff_label(path).as_str(), old_text.as_str(), new_text.as_str())
    } else if one_sided {
        header_lines(diff_label(path).as_str())
    } else {
        String::new()
    }
}

/// Produces a multi-file unified diff comparing `base` to `modified`.
///
/// Files are processed in sorted-path order for deterministic output. Paths
/// are rendered relative (no `a/`, `b/` prefixes) and use forward slashes. A
/// file that one side lacks is an empty side; where the other side is empty
/// too, the header alone tells of it. Empty output means that the two sides
/// are identical.
pub fn generate_unified_diff(base: &Vec<SourceFile>, modified: &Vec<SourceFile>) -> (r: String)
    ensures
        r@ == diffs(
            all_paths(base.deep_view(), modified.deep_view()),
            base.deep_view(),
            modified.deep_view(),
        ),
        r@.len() == 0 <==> same_sources(base.deep_view(), modified.deep_view()),
{
    let paths = collect_paths(base, modified);
    let ghost all = paths.deep_view();
    let ghost b = base.deep_view();
    let ghost m = modified.deep_view();
    let mut out = String::new();
    let mut k: usize = 0;
    proof {
        assert(all.take(0) =~= Seq::<Seq<char>>::empty());
    }
    while k < paths.len()
        invariant
            k <= paths.len(),
            all == paths.deep_view(),
            b == base.deep_view(),
            m == modified.deep_view(),
            out@ == diffs(all.take(k as int), b, m),
            out@.len() == 0 <==> forall|j: int|
                0 <= j < k ==> content_of(b, #[trigger] all[j]) == content_of(m, all[j]),
        decreases paths.len() - k,
    {
        let path = paths[k].as_str();
        let before = find_content(base, path);
        let after = find_content(modified, path);
        let ghost so_far = out@;
        proof {
            assert(all[k as int] == path@);
            assert(all.take(k + 1).drop_last() =~= all.take(k as int));
            assert(all.take(k + 1).last() == path@);
        }
        let hunk = diff_of(path, before, after);
        out.append(hunk.as_str());
        assert(out@ == so_far + hunk@);
        k = k + 1;
    }
    proof {
        assert(all.take(all.len() as int) =~= all);
        if out@.len() == 0 {
            lemma_same_sources(b, m);
        }
    }
    out
}

// ---------------------------------------------------------------------------
// Laws
// ---------------------------------------------------------------------------

/// No two files have the same components.
pub open spec fn distinct_files(files: Seq<FileModel>) -> bool {
    forall|i: int, j: int|
        0 <= i < j < files.len() ==> path_key((#[trigger] files[i]).path) != path_key(
            (#[trigger] files[j]).path,
        )
}

/// In whatever order files are listed, the text at a path is the same.
proof fn lemma_content_ignores_order(a: Seq<FileModel>, b: Seq<FileModel>, path: Seq<char>)
    requires
        a.to_multiset() == b.to_multiset(),
        distinct_files(a),
        distinct_files(b),
    ensures
        content_of(a, path) == content_of(b, path),
{
    broadcast use vstd::seq_lib::group_to_multiset_ensures;

    lemma_seek(file_at(a, path), 0, a.len() as int);
    lemma_seek(file_at(b, path), 0, b.len() as int);
    let at = seek_file(a, path);
    let bt = seek_file(b, path);
    if at < a.len() {
        assert(file_at(a, path)(at));
        assert(a.contains(a[at]));
        assert(b.to_multiset().contains(a[at]));
        let j = choose|j: int| 0 <= j < b.len() && b[j] == a[at];
        assert(file_at(b, path)(j));
        assert(bt <= j);
        assert(file_at(b, path)(bt));
        assert(bt == j) by {
            if bt < j {
                assert(path_key(b[bt].path) != path_key(b[j].path));
            }
        }
    } else if bt < b.len() {
        assert(file_at(b, path)(bt));
        assert(b.contains(b[bt]));
        assert(a.to_multiset().contains(b[bt]));
        let j = choose|j: int| 0 <= j < a.len() && a[j] == b[bt];
        assert(file_at(a, path)(j));
    }
}

spec fn seek_file(files: Seq<FileModel>, path: Seq<char>) -> int {
    crate::text::seek(file_at(files, path), 0, files.len() as int)
}

/// The paths of files in another order.
proof fn lemma_paths_multiset(a: Seq<FileModel>, b: Seq<FileModel>)
    requires
        a.to_multiset() == b.to_multiset(),
    ensures
        file_paths(a).to_multiset() == file_paths(b).to_multiset(),
    decreases a.len(),
{
    broadcast use vstd::seq_lib::group_to_multiset_ensures;

    assert(a.len() == a.to_multiset().len());
    assert(b.len() == b.to_multiset().len());
    if a.len() > 0 {
        let x = a.last();
        assert(a[a.len() - 1] == x);
        assert(a.contains(x));
        assert(b.to_multiset().contains(x));
        let j = choose|j: int| 0 <= j < b.len() && b[j] == x;
        let fa = a.drop_last();
        let fb = b.remove(j);
        assert(a =~= fa.push(x));
        assert(fa.to_multiset() =~= a.to_multiset().remove(x));
        assert(fb.to_multiset() =~= b.to_multiset().remove(x));
        lemma_paths_multiset(fa, fb);
        assert(file_paths(a) =~= file_paths(fa).push(x.path));
        assert(file_paths(fb) =~= file_paths(b).remove(j));
        assert(file_paths(b)[j] == x.path);
        assert(file_paths(fb).to_multiset() == file_paths(b).to_multiset().remove(x.path));
        assert(file_paths(b).contains(file_paths(b)[j]));
        assert(file_paths(b).to_multiset().contains(x.path));
        assert(file_paths(a).to_multiset() =~= file_paths(b).to_multiset());
    } else {
        assert(file_paths(a) =~= file_paths(b));
    }
}

/// The diffs of some files do not change with the order in which the files are
/// listed.
proof fn lemma_diffs_ignore_order(
    paths: Seq<Seq<char>>,
    base: Seq<FileModel>,
    other_base: Seq<FileModel>,
    modified: Seq<FileModel>,
    other_modified: Seq<FileModel>,
)
    requires
        base.to_multiset() == other_base.to_multiset(),
        modified.to_multiset() == other_modified.to_multiset(),
        distinct_files(base),
        distinct_files(other_base),
        distinct_files(modified),
        distinct_files(other_modified),
    ensures
        diffs(paths, base, modified) == diffs(paths, other_base, other_modified),
    decreases paths.len(),
{
    if paths.len() > 0 {
        lemma_diffs_ignore_order(
            paths.drop_last(),
            base,
            other_base,
            modified,
            other_modified,
        );
        lemma_content_ignores_order(base, other_base, paths.last());
        lemma_content_ignores_order(modified, other_modified, paths.last());
    }
}

/// The diff does not depend on the order in which the files of either side are
/// listed, as long as no file is listed twice and paths with the same
/// components are written the same.
pub proof fn law_diff_ignores_listing_order(
    base: Seq<FileModel>,
    other_base: Seq<FileModel>,
    modified: Seq<FileModel>,
    other_modified: Seq<FileModel>,
)
    requires
        base.to_multiset() == other_base.to_multiset(),
        modified.to_multiset() == other_modified.to_multiset(),
        distinct_files(base),
        distinct_files(other_base),
        distinct_files(modified),
        distinct_files(other_modified),
        crate::paths::written_alike(file_paths(base) + file_paths(modified)),
    ensures
        diffs(all_paths(base, modified), base, modified) == diffs(
            all_paths(other_base, other_modified),
            other_base,
            other_modified,
        ),
{
    let a = file_paths(base) + file_paths(modified);
    let b = file_paths(other_base) + file_paths(other_modified);
    lemma_paths_multiset(base, other_base);
    lemma_paths_multiset(modified, other_modified);
    vstd::seq_lib::lemma_multiset_commutative(file_paths(base), file_paths(modified));
    vstd::seq_lib::lemma_multiset_commutative(file_paths(other_base), file_paths(other_modified));
    assert(a.to_multiset() == b.to_multiset());
    crate::paths::law_sorting_ignores_order(a, b);
    lemma_diffs_ignore_order(
        all_paths(base, modified),
        base,
        other_base,
        modified,
        other_modified,
    );
}

/// A number is told by its decimal digits.
proof fn lemma_decimal_injective(n: nat, m: nat)
    ensures
        decimal(n) == decimal(m) ==> n == m,
        decimal(n).len() > 0,
    decreases n,
{
    if n >= 10 {
        lemma_decimal_injective(n / 10, m / 10);
    }
    if m >= 10 {
        lemma_decimal_nonempty(m / 10);
    }
    if decimal(n) == decimal(m) {
        assert(decimal(n).last() == digit(n));
        assert(decimal(m).last() == digit(m));
        assert(digit(n) as int == 48 + n % 10);
        assert(digit(m) as int == 48 + m % 10);
        if n >= 10 && m >= 10 {
            assert(decimal(n).drop_last() =~= decimal(n / 10));
            assert(decimal(m).drop_last() =~= decimal(m / 10));
        }
    }
}

proof fn lemma_decimal_nonempty(n: nat)
    ensures
        decimal(n).len() > 0,
    decreases n,
{
    if n >= 10 {
        lemma_decimal_nonempty(n / 10);
    }
}

/// No two candidates share an artifact.
pub proof fn law_artifacts_are_apart(run_dir: Seq<char>, i: usize, j: usize, extension: Seq<char>)
    requires
        i != j,
    ensures
        artifact(run_dir, i, extension) != artifact(run_dir, j, extension),
{
    reveal_strlit("candidate_");
    reveal_strlit("candidates");
    let dir = joined(run_dir, "candidates"@);
    let a = candidate_file(i, extension);
    let b = candidate_file(j, extension);
    if artifact(run_dir, i, extension) == artifact(run_dir, j, extension) {
        assert(a[0] == 'c' && b[0] == 'c');
        let whole_a = joined(dir, a);
        let whole_b = joined(dir, b);
        let skip = whole_a.len() - a.len();
        assert(whole_a.skip(skip) =~= a);
        assert(whole_b.skip(skip) =~= b);
        let head = "candidate_"@.len() as int;
        let end = a.len() - extension.len();
        assert(a.subrange(head, end) =~= decimal(i as nat));
        assert(b.subrange(head, end) =~= decimal(j as nat));
        lemma_decimal_injective(i as nat, j as nat);
    }
}

} // verus!
