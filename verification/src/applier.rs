//! Applier: rewrites source files with a candidate's prompt and descriptions.
//!
//! The approach is textual. `function NAME` is located in a source file, then
//! the `prompt` keyword in its body, then the raw-string delimiters (`#"..."#`,
//! `##"..."##`, and so on); the candidate's prompt text is spliced in between
//! them. Class descriptions become `///` lines above the class. What stands in
//! a comment declares nothing.
//!
//! Positions count characters.

use vstd::prelude::*;
use vstd::string::*;

use crate::candidate::{Candidate, ClassDefinition, ClassModel, FunctionModel, OptimizableFunction};
use crate::scan::{
    block_end, block_start, counts_within, ends_block, find_block, lemma_counts, mode_at, Mode,
};
use crate::sources::{FileModel, SourceFile};
use crate::text::{
    chars_of, extend_chars, first_in, is_ascii_space, is_ascii_whitespace, is_space, is_whitespace,
    join, lemma_seek, lemma_seek_is, matches_at, occurs_at, position, push_range, same_chars, seek,
    slice_of, split, split_chars, texts,
};

verus! {

// ---------------------------------------------------------------------------
// Words
// ---------------------------------------------------------------------------

/// A character that can stand inside an identifier.
pub open spec fn ident_char(c: char) -> bool {
    'a' <= c <= 'z' || 'A' <= c <= 'Z' || '0' <= c <= '9' || c == '_'
}

/// Whether `c` can stand inside an identifier.
pub fn is_ident_continue(c: char) -> (r: bool)
    ensures
        r == ident_char(c),
{
    ('a' <= c && c <= 'z') || ('A' <= c && c <= 'Z') || ('0' <= c && c <= '9') || c == '_'
}

/// A word can begin at `i`: no identifier runs into it.
pub open spec fn bound_before(s: Seq<char>, i: int) -> bool {
    i == 0 || !ident_char(s[i - 1])
}

/// A word can end before `i`: no identifier goes on there.
pub open spec fn bound_after(s: Seq<char>, i: int) -> bool {
    i >= s.len() || !ident_char(s[i])
}

/// Holds at the positions of `s` that are not ASCII white space.
pub open spec fn solid(s: Seq<char>) -> spec_fn(int) -> bool {
    |i: int| !is_ascii_space(s[i])
}

/// Where the run of ASCII white space that starts at `from` ends.
pub open spec fn space_end(s: Seq<char>, from: int) -> int {
    seek(solid(s), from, s.len() as int)
}

/// The end of the run of ASCII white space that starts at `from`.
pub fn skip_whitespace(s: &Vec<char>, from: usize) -> (r: usize)
    ensures
        r == space_end(s@, from as int),
        from <= r,
        from <= s@.len() ==> r <= s@.len(),
{
    let mut i: usize = from;
    while i < s.len() && is_ascii_whitespace(s[i])
        invariant
            from <= i,
            i <= s@.len() || i == from,
            forall|j: int| from <= j < i ==> !#[trigger] solid(s@)(j),
        decreases s.len() - i,
    {
        i = i + 1;
    }
    proof {
        if from <= s@.len() {
            lemma_seek_is(solid(s@), from as int, s@.len() as int, i as int);
        }
    }
    i
}

/// At `i` stands `keyword`, as the start of a word, then white space, then
/// `name` as the end of a word.
pub open spec fn mentions_at(s: Seq<char>, keyword: Seq<char>, name: Seq<char>, i: int) -> bool {
    let after = i + keyword.len();
    let at = space_end(s, after);
    &&& occurs_at(s, keyword, i)
    &&& bound_before(s, i)
    &&& at > after
    &&& occurs_at(s, name, at)
    &&& bound_after(s, at + name.len())
}

/// Holds where `keyword name` is mentioned.
pub open spec fn mentions(s: Seq<char>, keyword: Seq<char>, name: Seq<char>) -> spec_fn(
    int,
) -> bool {
    |i: int| mentions_at(s, keyword, name, i)
}

/// Where `keyword name` is first mentioned in `s`.
pub open spec fn mention(s: Seq<char>, keyword: Seq<char>, name: Seq<char>) -> Option<int> {
    first_in(mentions(s, keyword, name), 0, s.len() as int)
}

/// Position `i` lies in a comment.
pub open spec fn commented(s: Seq<char>, i: int) -> bool {
    mode_at(s, i) == Mode::Comment
}

/// `keyword name` is mentioned at `i`, in no comment.
pub open spec fn declares_at(s: Seq<char>, keyword: Seq<char>, name: Seq<char>, i: int) -> bool {
    mentions_at(s, keyword, name, i) && !commented(s, i)
}

/// Holds where `keyword name` is declared.
pub open spec fn declares(s: Seq<char>, keyword: Seq<char>, name: Seq<char>) -> spec_fn(
    int,
) -> bool {
    |i: int| declares_at(s, keyword, name, i)
}

/// Where `keyword name` is first declared in `s`.
pub open spec fn declaration(s: Seq<char>, keyword: Seq<char>, name: Seq<char>) -> Option<int> {
    first_in(declares(s, keyword, name), 0, s.len() as int)
}

/// Whether `keyword name` is mentioned at `i`.
fn is_mentioned_at(s: &Vec<char>, keyword: &Vec<char>, name: &Vec<char>, i: usize) -> (r: bool)
    requires
        i < s@.len(),
    ensures
        r == mentions_at(s@, keyword@, name@, i as int),
{
    let len: usize = s.len();
    if !matches_at(s, keyword, i) || (i > 0 && is_ident_continue(s[i - 1])) {
        return false;
    }
    let after: usize = i + keyword.len();
    let at: usize = skip_whitespace(s, after);
    at > after && matches_at(s, name, at) && (at + name.len() >= len || !is_ident_continue(
        s[at + name.len()],
    ))
}

/// Finds the first declaration `keyword name`.
fn find_declaration(s: &Vec<char>, keyword: &Vec<char>, name: &Vec<char>) -> (r: Option<usize>)
    ensures
        position(r) == declaration(s@, keyword@, name@),
{
    let ghost p = declares(s@, keyword@, name@);
    let mut mode = Mode::Code;
    let mut i: usize = 0;
    while i < s.len()
        invariant
            i <= s.len(),
            p == declares(s@, keyword@, name@),
            mode == mode_at(s@, i as int),
            counts_within(mode, i as int),
            forall|j: int| 0 <= j < i ==> !#[trigger] p(j),
        decreases s.len() - i,
    {
        if mode != Mode::Comment && is_mentioned_at(s, keyword, name, i) {
            proof {
                assert(p(i as int));
                lemma_seek_is(p, 0, s@.len() as int, i as int);
            }
            return Some(i);
        }
        assert(!p(i as int));
        proof {
            lemma_counts(mode, s@[i as int], i as int);
        }
        mode = mode.step(s[i]);
        i = i + 1;
    }
    proof {
        lemma_seek_is(p, 0, s@.len() as int, s@.len() as int);
    }
    None
}

/// Finds `class <name>` as a word-boundary match outside comments. The result
/// is the position of the `c` in `class`.
pub fn find_class_start(s: &Vec<char>, name: &Vec<char>) -> (r: Option<usize>)
    ensures
        position(r) == declaration(s@, "class"@, name@),
{
    find_declaration(s, &chars_of("class"), name)
}

/// Finds `function <name>` as a word-boundary match, wherever it stands. The
/// result is the position of the `f` in `function`.
pub fn find_function_start(s: &Vec<char>, name: &Vec<char>) -> (r: Option<usize>)
    ensures
        position(r) == mention(s@, "function"@, name@),
{
    let keyword = chars_of("function");
    let ghost p = mentions(s@, "function"@, name@);
    let mut i: usize = 0;
    while i < s.len()
        invariant
            i <= s.len(),
            keyword@ == "function"@,
            p == mentions(s@, "function"@, name@),
            forall|j: int| 0 <= j < i ==> !#[trigger] p(j),
        decreases s.len() - i,
    {
        if is_mentioned_at(s, &keyword, name, i) {
            proof {
                assert(p(i as int));
                lemma_seek_is(p, 0, s@.len() as int, i as int);
            }
            return Some(i);
        }
        assert(!p(i as int));
        i = i + 1;
    }
    proof {
        lemma_seek_is(p, 0, s@.len() as int, s@.len() as int);
    }
    None
}

/// `word` stands at `i` with no identifier running into it or on from it.
pub open spec fn word_at(s: Seq<char>, word: Seq<char>, i: int) -> bool {
    occurs_at(s, word, i) && bound_before(s, i) && bound_after(s, i + word.len())
}

/// Holds where `word` stands alone.
pub open spec fn words(s: Seq<char>, word: Seq<char>) -> spec_fn(int) -> bool {
    |i: int| word_at(s, word, i)
}

/// Finds the next occurrence of `keyword` as a standalone word at or after
/// `from`.
pub fn find_keyword_after(s: &Vec<char>, from: usize, keyword: &Vec<char>) -> (r: Option<usize>)
    ensures
        position(r) == first_in(words(s@, keyword@), from as int, s@.len() as int),
{
    let ghost p = words(s@, keyword@);
    let mut i: usize = from;
    while i < s.len()
        invariant
            from <= i,
            i <= s.len() || i == from,
            p == words(s@, keyword@),
            forall|j: int| from <= j < i ==> !#[trigger] p(j),
        decreases s.len() - i,
    {
        if matches_at(s, keyword, i) && (i == 0 || !is_ident_continue(s[i - 1])) && (i
            + keyword.len() >= s.len() || !is_ident_continue(s[i + keyword.len()])) {
            proof {
                assert(p(i as int));
                lemma_seek_is(p, from as int, s@.len() as int, i as int);
            }
            return Some(i);
        }
        assert(!p(i as int));
        i = i + 1;
    }
    proof {
        if from <= s@.len() {
            lemma_seek_is(p, from as int, s@.len() as int, s@.len() as int);
        }
    }
    None
}

/// Where `word` first stands alone in the first block behind `from`.
pub open spec fn word_in_block(s: Seq<char>, word: Seq<char>, from: int) -> Option<int> {
    first_in(words(s, word), block_start(s, from) + 1, block_end(s, from))
}

/// Finds the first occurrence of `keyword` as a standalone word in the block
/// that opens behind `from`.
pub fn find_keyword_in_block(s: &Vec<char>, from: usize, keyword: &Vec<char>) -> (r: Option<usize>)
    ensures
        position(r) == word_in_block(s@, keyword@, from as int),
{
    let (start, end) = find_block(s, from);
    if start >= end {
        return None;
    }
    let ghost p = words(s@, keyword@);
    let ghost len = s@.len() as int;
    proof {
        lemma_seek(ends_block(s@, from as int), from as int, len);
        lemma_seek(p, start + 1, len);
    }
    match find_keyword_after(s, start + 1, keyword) {
        Some(i) => {
            if i < end {
                proof {
                    lemma_seek_is(p, start + 1, end as int, i as int);
                }
                Some(i)
            } else {
                proof {
                    lemma_seek_is(p, start + 1, end as int, end as int);
                }
                None
            }
        },
        None => {
            proof {
                lemma_seek_is(p, start + 1, end as int, end as int);
            }
            None
        },
    }
}

// ---------------------------------------------------------------------------
// Raw strings
// ---------------------------------------------------------------------------

/// Holds at the positions of `s` that are not `#`.
pub open spec fn not_hash(s: Seq<char>) -> spec_fn(int) -> bool {
    |i: int| s[i] != '#'
}

/// Where the run of `#` that starts at `from` ends.
pub open spec fn hash_end(s: Seq<char>, from: int) -> int {
    seek(not_hash(s), from, s.len() as int)
}

/// The end of the run of `#` that starts at `from`.
fn skip_hashes(s: &Vec<char>, from: usize) -> (r: usize)
    ensures
        r == hash_end(s@, from as int),
        from <= r,
        from <= s@.len() ==> r <= s@.len(),
{
    let mut i: usize = from;
    while i < s.len() && s[i] == '#'
        invariant
            from <= i,
            i <= s@.len() || i == from,
            forall|j: int| from <= j < i ==> !#[trigger] not_hash(s@)(j),
        decreases s.len() - i,
    {
        i = i + 1;
    }
    proof {
        if from <= s@.len() {
            lemma_seek_is(not_hash(s@), from as int, s@.len() as int, i as int);
        }
    }
    i
}

/// The opening of a raw string after a keyword that ends at `after`: the
/// position behind the opening quote, and the number of `#`. The opening is
/// white space, one `#` or more, then `"`.
pub open spec fn raw_open(s: Seq<char>, after: int) -> Option<(int, int)> {
    let start = space_end(s, after);
    let end = hash_end(s, start);
    if end > start && end < s.len() && s[end] == '"' {
        Some((end + 1, end - start))
    } else {
        None
    }
}

/// Parses the opening of a raw string behind the `prompt` keyword at
/// `prompt_kw`. The result is the position behind the opening quote and the
/// number of `#`.
fn parse_raw_string_open(s: &Vec<char>, prompt_kw: usize) -> (r: Option<(usize, usize)>)
    requires
        prompt_kw + 6 <= s.len(),
    ensures
        match r {
            Some((open, hashes)) => raw_open(s@, prompt_kw + 6) == Some(
                (open as int, hashes as int),
            ) && prompt_kw + 6 < open <= s@.len(),
            None => raw_open(s@, prompt_kw + 6) is None,
        },
{
    let start: usize = skip_whitespace(s, prompt_kw + 6);
    let end: usize = skip_hashes(s, start);
    let hash_count: usize = end - start;
    if hash_count == 0 {
        return None;
    }
    if end >= s.len() || s[end] != '"' {
        return None;
    }
    Some((end + 1, hash_count))
}

/// Holds at the quotes that exactly `hashes` `#` follow.
pub open spec fn closes(s: Seq<char>, hashes: int) -> spec_fn(int) -> bool {
    |i: int| s[i] == '"' && hash_end(s, i + 1) - (i + 1) == hashes
}

/// Where the raw string with `hashes` `#` that is open at `from` closes.
pub open spec fn raw_close(s: Seq<char>, from: int, hashes: int) -> Option<int> {
    first_in(closes(s, hashes), from, s.len() as int)
}

/// Finds the closing `"###...` of a raw string: a `"` followed by exactly
/// `hash_count` `#`. The result is the position of the `"`.
pub fn find_raw_string_close(s: &Vec<char>, from: usize, hash_count: usize) -> (r: Option<usize>)
    ensures
        position(r) == raw_close(s@, from as int, hash_count as int),
        r is Some ==> from <= r->0 < s@.len(),
{
    let ghost p = closes(s@, hash_count as int);
    let mut i: usize = from;
    while i < s.len()
        invariant
            from <= i,
            i <= s.len() || i == from,
            p == closes(s@, hash_count as int),
            forall|j: int| from <= j < i ==> !#[trigger] p(j),
        decreases s.len() - i,
    {
        if s[i] == '"' {
            let end: usize = skip_hashes(s, i + 1);
            if end - (i + 1) == hash_count {
                proof {
                    assert(p(i as int));
                    lemma_seek_is(p, from as int, s@.len() as int, i as int);
                }
                return Some(i);
            }
        }
        assert(!p(i as int));
        i = i + 1;
    }
    proof {
        if from <= s@.len() {
            lemma_seek_is(p, from as int, s@.len() as int, s@.len() as int);
        }
    }
    None
}

// ---------------------------------------------------------------------------
// Indentation
// ---------------------------------------------------------------------------

/// Every character of `line` is white space.
pub open spec fn blank(line: Seq<char>) -> bool {
    forall|i: int| 0 <= i < line.len() ==> is_space(#[trigger] line[i])
}

/// Holds at the positions of `s` that are not white space.
pub open spec fn inked(s: Seq<char>) -> spec_fn(int) -> bool {
    |i: int| !is_space(s[i])
}

/// The white space that `line` begins with.
pub open spec fn lead(line: Seq<char>) -> Seq<char> {
    line.take(seek(inked(line), 0, line.len() as int))
}

/// Holds at the positions of `a` where `b` has ended or differs.
pub open spec fn differs(a: Seq<char>, b: Seq<char>) -> spec_fn(int) -> bool {
    |i: int| i >= b.len() || a[i] != b[i]
}

/// The longest prefix that `a` and `b` share.
pub open spec fn common_prefix(a: Seq<char>, b: Seq<char>) -> Seq<char> {
    a.take(seek(differs(a, b), 0, a.len() as int))
}

/// The white-space prefix that all non-blank lines share; none without such a
/// line.
pub open spec fn shared_lead(lines: Seq<Seq<char>>) -> Option<Seq<char>>
    decreases lines.len(),
{
    if lines.len() == 0 {
        None
    } else if blank(lines.last()) {
        shared_lead(lines.drop_last())
    } else {
        match shared_lead(lines.drop_last()) {
            None => Some(lead(lines.last())),
            Some(p) => Some(common_prefix(p, lead(lines.last()))),
        }
    }
}

/// The indentation of a text: the longest white-space prefix shared by every
/// line that is not blank, empty without such a line.
pub open spec fn common_indent(text: Seq<char>) -> Seq<char> {
    match shared_lead(split(text, '\n')) {
        Some(p) => p,
        None => Seq::<char>::empty(),
    }
}

/// Whether every character of `line` is white space.
fn is_blank(line: &Vec<char>) -> (r: bool)
    ensures
        r == blank(line@),
{
    let mut i: usize = 0;
    while i < line.len()
        invariant
            i <= line.len(),
            forall|j: int| 0 <= j < i ==> is_space(#[trigger] line@[j]),
        decreases line.len() - i,
    {
        if !is_whitespace(line[i]) {
            return false;
        }
        i = i + 1;
    }
    true
}

/// The white space in `from..to` up to the first other character.
fn lead_end(s: &Vec<char>, from: usize, to: usize) -> (r: usize)
    requires
        from <= to <= s@.len(),
    ensures
        r == seek(inked(s@), from as int, to as int),
        from <= r <= to,
{
    let mut i: usize = from;
    while i < to && is_whitespace(s[i])
        invariant
            from <= i <= to,
            to <= s@.len(),
            forall|j: int| from <= j < i ==> !#[trigger] inked(s@)(j),
        decreases to - i,
    {
        i = i + 1;
    }
    proof {
        lemma_seek_is(inked(s@), from as int, to as int, i as int);
    }
    i
}

/// The longest prefix that `a` and `b` share.
fn longest_common_prefix(a: &Vec<char>, b: &Vec<char>) -> (r: Vec<char>)
    ensures
        r@ == common_prefix(a@, b@),
{
    let mut i: usize = 0;
    while i < a.len() && i < b.len() && a[i] == b[i]
        invariant
            i <= a.len(),
            i <= b.len(),
            forall|j: int| 0 <= j < i ==> !#[trigger] differs(a@, b@)(j),
        decreases a.len() - i,
    {
        i = i + 1;
    }
    proof {
        lemma_seek_is(differs(a@, b@), 0, a@.len() as int, i as int);
    }
    slice_of(a, 0, i)
}

/// The longest white-space prefix shared by every line that is not blank.
pub fn detect_common_indent(text: &Vec<char>) -> (r: Vec<char>)
    ensures
        r@ == common_indent(text@),
{
    let lines = split_chars(text, '\n');
    let ghost ls = texts(lines@);
    let mut common: Option<Vec<char>> = None;
    let mut k: usize = 0;
    proof {
        assert(ls.take(0) =~= Seq::<Seq<char>>::empty());
    }
    while k < lines.len()
        invariant
            k <= lines.len(),
            ls == texts(lines@),
            match common {
                Some(p) => shared_lead(ls.take(k as int)) == Some(p@),
                None => shared_lead(ls.take(k as int)) is None,
            },
        decreases lines.len() - k,
    {
        let line = &lines[k];
        proof {
            assert(ls.take(k + 1).drop_last() =~= ls.take(k as int));
            assert(ls.take(k + 1).last() == line@);
        }
        if !is_blank(line) {
            let end: usize = lead_end(line, 0, line.len());
            let this = slice_of(line, 0, end);
            common = match common {
                None => Some(this),
                Some(previous) => Some(longest_common_prefix(&previous, &this)),
            };
        }
        k = k + 1;
    }
    proof {
        assert(ls.take(lines@.len() as int) =~= ls);
    }
    match common {
        Some(p) => p,
        None => Vec::new(),
    }
}

/// `line` without `indent` in front, where it stands there.
pub open spec fn outdented(line: Seq<char>, indent: Seq<char>) -> Seq<char> {
    if occurs_at(line, indent, 0) {
        line.skip(indent.len() as int)
    } else {
        line
    }
}

/// `text` without its common indentation.
pub open spec fn stripped(text: Seq<char>) -> Seq<char> {
    join(
        split(text, '\n').map_values(|line: Seq<char>| outdented(line, common_indent(text))),
        seq!['\n'],
    )
}

/// Removes the shared leading white space from every line that has it.
pub fn strip_common_indent(text: &Vec<char>) -> (r: Vec<char>)
    ensures
        r@ == stripped(text@),
{
    let indent = detect_common_indent(text);
    let lines = split_chars(text, '\n');
    let ghost f = |line: Seq<char>| outdented(line, common_indent(text@));
    let ghost want = split(text@, '\n').map_values(f);
    let mut out: Vec<char> = Vec::new();
    let mut k: usize = 0;
    proof {
        assert(join(want.take(0), seq!['\n']) =~= Seq::<char>::empty());
        assert(texts(lines@).len() == want.len());
    }
    while k < lines.len()
        invariant
            k <= lines.len(),
            want == texts(lines@).map_values(f),
            f == (|line: Seq<char>| outdented(line, indent@)),
            out@ == join(want.take(k as int), seq!['\n']),
        decreases lines.len() - k,
    {
        let line = &lines[k];
        let ghost before = out@;
        if k > 0 {
            out.push('\n');
        }
        let rest = if matches_at(line, &indent, 0) {
            slice_of(line, indent.len(), line.len())
        } else {
            slice_of(line, 0, line.len())
        };
        extend_chars(&mut out, &rest);
        proof {
            assert(texts(lines@)[k as int] == line@);
            assert(line@.subrange(0, line@.len() as int) =~= line@);
            assert(line@.skip(indent@.len() as int) =~= line@.subrange(
                indent@.len() as int,
                line@.len() as int,
            ));
            assert(want[k as int] == rest@);
            assert(want.take(k + 1).drop_last() =~= want.take(k as int));
            assert(want.take(k + 1).last() == rest@);
            if k > 0 {
                assert(out@ =~= before + seq!['\n'] + rest@);
            } else {
                assert(out@ =~= rest@);
            }
        }
        k = k + 1;
    }
    proof {
        assert(want.take(lines@.len() as int) =~= want);
    }
    out
}

/// `line` with `indent` in front, unless it is empty.
pub open spec fn indented(line: Seq<char>, indent: Seq<char>) -> Seq<char> {
    if line.len() == 0 {
        line
    } else {
        indent + line
    }
}

/// `text` with `indent` in front of every line that is not empty.
pub open spec fn indent_lines(text: Seq<char>, indent: Seq<char>) -> Seq<char> {
    join(
        split(text, '\n').map_values(|line: Seq<char>| indented(line, indent)),
        seq!['\n'],
    )
}

/// Puts `indent` in front of every line that is not empty.
pub fn indent_non_empty_lines(text: &Vec<char>, indent: &Vec<char>) -> (r: Vec<char>)
    ensures
        r@ == indent_lines(text@, indent@),
{
    let lines = split_chars(text, '\n');
    let ghost f = |line: Seq<char>| indented(line, indent@);
    let ghost want = split(text@, '\n').map_values(f);
    let mut out: Vec<char> = Vec::new();
    let mut k: usize = 0;
    proof {
        assert(join(want.take(0), seq!['\n']) =~= Seq::<char>::empty());
        assert(texts(lines@).len() == want.len());
    }
    while k < lines.len()
        invariant
            k <= lines.len(),
            want == texts(lines@).map_values(f),
            f == (|line: Seq<char>| indented(line, indent@)),
            out@ == join(want.take(k as int), seq!['\n']),
        decreases lines.len() - k,
    {
        let line = &lines[k];
        let ghost before = out@;
        if k > 0 {
            out.push('\n');
        }
        if line.len() > 0 {
            extend_chars(&mut out, indent);
        }
        extend_chars(&mut out, line);
        proof {
            assert(texts(lines@)[k as int] == line@);
            let this = indented(line@, indent@);
            assert(want[k as int] == this);
            assert(want.take(k + 1).drop_last() =~= want.take(k as int));
            assert(want.take(k + 1).last() == this);
            if k > 0 {
                assert(out@ =~= before + seq!['\n'] + this);
            } else {
                assert(out@ =~= this);
            }
        }
        k = k + 1;
    }
    proof {
        assert(want.take(lines@.len() as int) =~= want);
    }
    out
}

/// What stands behind the last line break of `original`, if that is only
/// white space: the indentation of the closing delimiter.
pub open spec fn closing_indent(original: Seq<char>) -> Option<Seq<char>> {
    let lines = split(original, '\n');
    if lines.len() > 1 && blank(lines.last()) {
        Some(lines.last())
    } else {
        None
    }
}

/// `new_prompt` in the shape of `original`: its indentation, its leading line
/// break and its closing indentation on a line of its own.
pub open spec fn reindented(original: Seq<char>, new_prompt: Seq<char>) -> Seq<char> {
    let body = indent_lines(stripped(new_prompt), common_indent(original));
    let out = if original.len() > 0 && original[0] == '\n' {
        seq!['\n'] + body
    } else {
        body
    };
    match closing_indent(original) {
        Some(tail) => if out.len() > 0 && out.last() == '\n' {
            out + tail
        } else {
            out.push('\n') + tail
        },
        None => out,
    }
}

/// Matches the indentation and newline shape of `original` when substituting
/// in `new_prompt`.
pub fn reindent_prompt(original: &Vec<char>, new_prompt: &Vec<char>) -> (r: Vec<char>)
    ensures
        r@ == reindented(original@, new_prompt@),
{
    let indent = detect_common_indent(original);
    let body = indent_non_empty_lines(&strip_common_indent(new_prompt), &indent);
    let mut out: Vec<char> = Vec::new();
    if original.len() > 0 && original[0] == '\n' {
        out.push('\n');
    }
    extend_chars(&mut out, &body);
    proof {
        if original@.len() > 0 && original@[0] == '\n' {
            assert(out@ =~= seq!['\n'] + body@);
        } else {
            assert(out@ =~= body@);
        }
    }
    let lines = split_chars(original, '\n');
    proof {
        assert(texts(lines@).len() == lines@.len());
    }
    if lines.len() > 1 {
        let tail = &lines[lines.len() - 1];
        assert(texts(lines@).last() == tail@);
        if is_blank(tail) {
            if out.len() == 0 || out[out.len() - 1] != '\n' {
                out.push('\n');
            }
            extend_chars(&mut out, tail);
        }
    }
    out
}

// ---------------------------------------------------------------------------
// Prompts
// ---------------------------------------------------------------------------

/// Where the prompt of function `name` opens, and its number of `#`: the raw
/// string behind the first `prompt` in the body of the first `function name`.
pub open spec fn prompt_open(s: Seq<char>, name: Seq<char>) -> Option<(int, int)> {
    match declaration(s, "function"@, name) {
        None => None,
        Some(start) => match word_in_block(s, "prompt"@, start) {
            None => None,
            Some(keyword) => raw_open(s, keyword + 6),
        },
    }
}

/// Where the text of the prompt of function `name` begins and ends.
pub open spec fn prompt_site(s: Seq<char>, name: Seq<char>) -> Option<(int, int)> {
    match prompt_open(s, name) {
        None => None,
        Some((open, hashes)) => match raw_close(s, open, hashes) {
            None => None,
            Some(close) => Some((open, close)),
        },
    }
}

/// `s` with `new_prompt` in place of the prompt of function `name`; none where
/// there is no such prompt or nothing would change.
pub open spec fn replaced_prompt(s: Seq<char>, name: Seq<char>, new_prompt: Seq<char>) -> Option<
    Seq<char>,
> {
    match prompt_site(s, name) {
        None => None,
        Some((open, close)) => {
            let body = s.subrange(open, close);
            if reindented(body, new_prompt) == body {
                None
            } else {
                Some(s.take(open) + reindented(body, new_prompt) + s.skip(close))
            }
        },
    }
}

/// Where the text of the prompt of function `name` begins and ends.
fn find_prompt(s: &Vec<char>, name: &Vec<char>) -> (r: Option<(usize, usize)>)
    ensures
        match r {
            Some((open, close)) => prompt_site(s@, name@) == Some((open as int, close as int))
                && open <= close < s@.len(),
            None => prompt_site(s@, name@) is None,
        },
{
    proof {
        reveal_strlit("prompt");
    }
    let start: usize = match find_declaration(s, &chars_of("function"), name) {
        Some(start) => start,
        None => {
            return None;
        },
    };
    let keyword: usize = match find_keyword_in_block(s, start, &chars_of("prompt")) {
        Some(keyword) => keyword,
        None => {
            return None;
        },
    };
    proof {
        lemma_seek(ends_block(s@, start as int), start as int, s@.len() as int);
        lemma_seek(
            words(s@, "prompt"@),
            block_start(s@, start as int) + 1,
            block_end(s@, start as int),
        );
        assert(words(s@, "prompt"@)(keyword as int));
    }
    let (open, hash_count) = match parse_raw_string_open(s, keyword) {
        Some(open) => open,
        None => {
            return None;
        },
    };
    match find_raw_string_close(s, open, hash_count) {
        Some(close) => Some((open, close)),
        None => None,
    }
}

/// Locates `function <func_name> { ... prompt #"..."# ... }` in `source` and
/// rewrites the prompt's contents to `new_prompt`, preserving the original
/// `#` delimiter count.
///
/// Returns `None` if the function isn't found, if its body holds no prompt or
/// the prompt's raw-string delimiters can't be parsed, or if no change would be
/// made. The prompt of another function is never touched.
pub fn replace_prompt_in_file(source: &str, func_name: &str, new_prompt: &str) -> (r: Option<
    String,
>)
    ensures
        match r {
            Some(out) => replaced_prompt(source@, func_name@, new_prompt@) == Some(out@),
            None => replaced_prompt(source@, func_name@, new_prompt@) is None,
        },
{
    let s = chars_of(source);
    let (open, close) = match find_prompt(&s, &chars_of(func_name)) {
        Some(site) => site,
        None => {
            return None;
        },
    };
    let original = slice_of(&s, open, close);
    let body = reindent_prompt(&original, &chars_of(new_prompt));
    if same_chars(&body, &original) {
        return None;
    }
    let mut out = String::new();
    push_range(&mut out, &s, 0, open);
    push_range(&mut out, &body, 0, body.len());
    push_range(&mut out, &s, close, s.len());
    assert(out@ =~= s@.take(open as int) + body@ + s@.skip(close as int));
    Some(out)
}

// ---------------------------------------------------------------------------
// Class descriptions
// ---------------------------------------------------------------------------

/// The start of the line that holds position `pos`.
pub open spec fn line_start(s: Seq<char>, pos: int) -> int
    decreases pos,
{
    if pos <= 0 {
        0
    } else if s[pos - 1] == '\n' {
        pos
    } else {
        line_start(s, pos - 1)
    }
}

/// A line starts no later than any position on it, behind a line break or at
/// the start of the text, and holds no line break up to that position.
pub proof fn lemma_line_start(s: Seq<char>, pos: int)
    requires
        pos >= 0,
    ensures
        0 <= line_start(s, pos) <= pos,
        line_start(s, pos) > 0 ==> s[line_start(s, pos) - 1] == '\n',
        forall|i: int| line_start(s, pos) <= i < pos ==> s[i] != '\n',
    decreases pos,
{
    if pos > 0 && s[pos - 1] != '\n' {
        lemma_line_start(s, pos - 1);
    }
}

/// The start of the line that contains `pos`.
fn line_start_of(s: &Vec<char>, pos: usize) -> (r: usize)
    requires
        pos <= s@.len(),
    ensures
        r == line_start(s@, pos as int),
        r <= pos,
{
    let mut i: usize = pos;
    while i > 0 && s[i - 1] != '\n'
        invariant
            i <= pos <= s@.len(),
            line_start(s@, pos as int) == line_start(s@, i as int),
        decreases i,
    {
        i = i - 1;
    }
    i
}

/// A `///` line: white space, then three slashes.
pub open spec fn doc_line(line: Seq<char>) -> bool {
    occurs_at(line, "///"@, seek(inked(line), 0, line.len() as int))
}

/// Where the block of `///` lines that ends at the line start `at` begins.
pub open spec fn doc_start(s: Seq<char>, at: int) -> int
    decreases at,
{
    if at <= 0 {
        at
    } else {
        let previous = line_start(s, at - 1);
        proof {
            lemma_line_start(s, at - 1);
        }
        if doc_line(s.subrange(previous, at - 1)) {
            doc_start(s, previous)
        } else {
            at
        }
    }
}

/// Finds where the contiguous `///` lines immediately before the line that
/// starts at `line_start` begin; `line_start` itself when there are none.
fn existing_doc_block(s: &Vec<char>, line_start: usize) -> (r: usize)
    requires
        line_start <= s@.len(),
    ensures
        r == doc_start(s@, line_start as int),
        r <= line_start,
{
    let slashes = chars_of("///");
    let mut cursor: usize = line_start;
    while cursor > 0
        invariant
            cursor <= line_start <= s@.len(),
            slashes@ == "///"@,
            doc_start(s@, line_start as int) == doc_start(s@, cursor as int),
        decreases cursor,
    {
        let previous: usize = line_start_of(s, cursor - 1);
        let line = slice_of(s, previous, cursor - 1);
        let ink: usize = lead_end(&line, 0, line.len());
        if !matches_at(&line, &slashes, ink) {
            return cursor;
        }
        cursor = previous;
    }
    cursor
}

/// The lines of a description as `///` lines with `indent` in front.
pub open spec fn doc_lines(lines: Seq<Seq<char>>, indent: Seq<char>) -> Seq<char>
    decreases lines.len(),
{
    if lines.len() == 0 {
        Seq::<char>::empty()
    } else {
        doc_lines(lines.drop_last(), indent) + (indent + "/// "@ + lines.last() + seq!['\n'])
    }
}

/// Renders `description` as one or more `/// ...` lines, each indented to
/// match `indent`, with a line break at the end.
fn format_doc_comment(description: &Vec<char>, indent: &Vec<char>) -> (r: Vec<char>)
    ensures
        r@ == doc_lines(split(description@, '\n'), indent@),
{
    let lines = split_chars(description, '\n');
    let slashes = chars_of("/// ");
    let ghost ls = texts(lines@);
    let mut out: Vec<char> = Vec::new();
    let mut k: usize = 0;
    proof {
        assert(ls.take(0) =~= Seq::<Seq<char>>::empty());
    }
    while k < lines.len()
        invariant
            k <= lines.len(),
            ls == texts(lines@),
            slashes@ == "/// "@,
            out@ == doc_lines(ls.take(k as int), indent@),
        decreases lines.len() - k,
    {
        let ghost before = out@;
        extend_chars(&mut out, indent);
        extend_chars(&mut out, &slashes);
        extend_chars(&mut out, &lines[k]);
        out.push('\n');
        proof {
            assert(ls.take(k + 1).drop_last() =~= ls.take(k as int));
            assert(ls.take(k + 1).last() == lines@[k as int]@);
            assert(out@ =~= before + (indent@ + "/// "@ + lines@[k as int]@ + seq!['\n']));
        }
        k = k + 1;
    }
    proof {
        assert(ls.take(lines@.len() as int) =~= ls);
    }
    out
}

/// The white space between the start of a line and `end`.
pub open spec fn line_indent(s: Seq<char>, start: int, end: int) -> Seq<char> {
    s.subrange(start, seek(inked(s), start, end))
}

/// `s` with `description` as the block of `///` lines above the first
/// declaration of class `name`; none where there is no such class or the block
/// is already that.
pub open spec fn described(s: Seq<char>, name: Seq<char>, description: Seq<char>) -> Option<
    Seq<char>,
> {
    match declaration(s, "class"@, name) {
        None => None,
        Some(class_start) => {
            let line = line_start(s, class_start);
            let doc = doc_lines(
                split(description, '\n'),
                line_indent(s, line, class_start),
            );
            let start = doc_start(s, line);
            if s.subrange(start, line) == doc {
                None
            } else {
                Some(s.take(start) + doc + s.skip(line))
            }
        },
    }
}

/// If `class.description` is set, adds or replaces a `///` block immediately
/// above the `class <ClassName>` line in `source`.
///
/// Returns `None` when there is no description, no such class, or when the
/// block above the class is already the description.
pub fn apply_class_description(source: &str, class: &ClassDefinition) -> (r: Option<String>)
    ensures
        match class.deep_view().description {
            None => r is None,
            Some(description) => match r {
                Some(out) => described(source@, class.deep_view().class_name, description) == Some(
                    out@,
                ),
                None => described(source@, class.deep_view().class_name, description) is None,
            },
        },
{
    let description = match &class.description {
        Some(description) => chars_of(description.as_str()),
        None => {
            return None;
        },
    };
    let s = chars_of(source);
    let class_start: usize = match find_class_start(&s, &chars_of(class.class_name.as_str())) {
        Some(class_start) => class_start,
        None => {
            return None;
        },
    };
    let line: usize = line_start_of(&s, class_start);
    let indent_end: usize = lead_end(&s, line, class_start);
    let doc = format_doc_comment(&description, &slice_of(&s, line, indent_end));
    let start: usize = existing_doc_block(&s, line);
    if same_chars(&slice_of(&s, start, line), &doc) {
        return None;
    }
    let mut out = String::new();
    push_range(&mut out, &s, 0, start);
    push_range(&mut out, &doc, 0, doc.len());
    push_range(&mut out, &s, line, s.len());
    assert(out@ =~= s@.take(start as int) + doc@ + s@.skip(line as int));
    Some(out)
}

// ---------------------------------------------------------------------------
// Candidates
// ---------------------------------------------------------------------------

/// `s` with the classes' descriptions applied, one after another.
pub open spec fn with_descriptions(s: Seq<char>, classes: Seq<ClassModel>) -> Seq<char>
    decreases classes.len(),
{
    if classes.len() == 0 {
        s
    } else {
        let before = with_descriptions(s, classes.drop_last());
        match classes.last().description {
            None => before,
            Some(description) => match described(before, classes.last().class_name, description) {
                None => before,
                Some(after) => after,
            },
        }
    }
}

/// Some change of the classes lands on `s`.
pub open spec fn some_described(s: Seq<char>, classes: Seq<ClassModel>) -> bool
    decreases classes.len(),
{
    if classes.len() == 0 {
        false
    } else {
        ||| some_described(s, classes.drop_last())
        ||| match classes.last().description {
            None => false,
            Some(description) => described(
                with_descriptions(s, classes.drop_last()),
                classes.last().class_name,
                description,
            ) is Some,
        }
    }
}

/// `s` with the prompt of `func` in place.
pub open spec fn with_prompt(s: Seq<char>, func: FunctionModel) -> Seq<char> {
    match replaced_prompt(s, func.function_name, func.prompt_text) {
        Some(out) => out,
        None => s,
    }
}

/// `s` with every change of `func`: the prompt, then the class descriptions;
/// none when no change landed.
pub open spec fn changed(s: Seq<char>, func: FunctionModel) -> Option<Seq<char>> {
    let prompted = with_prompt(s, func);
    if replaced_prompt(s, func.function_name, func.prompt_text) is Some || some_described(
        prompted,
        func.classes,
    ) {
        Some(with_descriptions(prompted, func.classes))
    } else {
        None
    }
}

/// Applies all changes from a candidate's [`OptimizableFunction`] to a single
/// file's source text. Returns `Some(new_content)` when at least one change
/// landed; `None` when nothing matched or nothing changed.
pub fn apply_prompt_change(source: &str, func: &OptimizableFunction) -> (r: Option<String>)
    ensures
        match r {
            Some(out) => changed(source@, func.deep_view()) == Some(out@),
            None => changed(source@, func.deep_view()) is None,
        },
{
    let mut current: String = source.to_string();
    let mut landed: bool = false;
    match replace_prompt_in_file(source, func.function_name.as_str(), func.prompt_text.as_str()) {
        Some(rewrite) => {
            current = rewrite;
            landed = true;
        },
        None => {},
    }
    let ghost prompted = with_prompt(source@, func.deep_view());
    let ghost classes = func.deep_view().classes;
    let ghost first = landed;
    let mut k: usize = 0;
    proof {
        assert(classes.take(0) =~= Seq::<ClassModel>::empty());
    }
    while k < func.classes.len()
        invariant
            k <= func.classes.len(),
            classes == func.classes.deep_view(),
            current@ == with_descriptions(prompted, classes.take(k as int)),
            landed == (first || some_described(prompted, classes.take(k as int))),
        decreases func.classes.len() - k,
    {
        let class = &func.classes[k];
        proof {
            assert(classes[k as int] == class.deep_view());
            assert(classes.take(k + 1).drop_last() =~= classes.take(k as int));
            assert(classes.take(k + 1).last() == class.deep_view());
        }
        match apply_class_description(current.as_str(), class) {
            Some(rewrite) => {
                current = rewrite;
                landed = true;
            },
            None => {},
        }
        k = k + 1;
    }
    proof {
        assert(classes.take(classes.len() as int) =~= classes);
    }
    if landed {
        Some(current)
    } else {
        None
    }
}

/// A file with the changes of `func`; a file that does not mention the
/// function stays as it is.
pub open spec fn modified_file(file: FileModel, func: FunctionModel) -> FileModel {
    if mention(file.content, "function"@, func.function_name) is None {
        file
    } else {
        match changed(file.content, func) {
            Some(content) => FileModel { path: file.path, content },
            None => file,
        }
    }
}

/// Applies candidate changes to produce modified source files.
#[derive(Debug)]
pub struct Applier {
    pub root_path: String,
}

impl Applier {
    /// An applier for the project at `root_path`.
    pub fn new(root_path: String) -> (r: Self)
        ensures
            r.root_path@ == root_path@,
    {
        Applier { root_path }
    }

    /// Produces a modified copy of `original_sources` with the candidate's
    /// edits applied. Files that don't mention `function NAME` are copied
    /// unchanged.
    pub fn generate_modified_files(
        &self,
        candidate: &Candidate,
        original_sources: &Vec<SourceFile>,
    ) -> (r: Vec<SourceFile>)
        ensures
            r.deep_view() == original_sources.deep_view().map_values(
                |file: FileModel| modified_file(file, candidate.deep_view().function),
            ),
            forall|k: int|
                0 <= k < r@.len() ==> (#[trigger] r@[k]).path@ == original_sources@[k].path@,
            forall|k: int|
                0 <= k < r@.len() && mention(
                    original_sources@[k].content@,
                    "function"@,
                    candidate.function.function_name@,
                ) is None ==> (#[trigger] r@[k]).content@ == original_sources@[k].content@,
    {
        let func = &candidate.function;
        let name = chars_of(func.function_name.as_str());
        let mut modified: Vec<SourceFile> = Vec::new();
        let mut k: usize = 0;
        while k < original_sources.len()
            invariant
                k <= original_sources.len(),
                modified.len() == k,
                name@ == func.deep_view().function_name,
                forall|j: int|
                    0 <= j < k ==> (#[trigger] modified@[j]).deep_view() == modified_file(
                        original_sources@[j].deep_view(),
                        func.deep_view(),
                    ),
            decreases original_sources.len() - k,
        {
            let mut file = original_sources[k].clone();
            if find_function_start(&chars_of(file.content.as_str()), &name).is_some() {
                match apply_prompt_change(file.content.as_str(), func) {
                    Some(content) => {
                        file.content = content;
                    },
                    None => {},
                }
            }
            modified.push(file);
            k = k + 1;
        }
        proof {
            assert(modified.deep_view() =~= original_sources.deep_view().map_values(
                |file: FileModel| modified_file(file, candidate.deep_view().function),
            ));
        }
        modified
    }
}

} // verus!
