//! Laws of scanning: what comments, strings and blocks are.

use vstd::prelude::*;

use crate::scan::{
    block_end, block_start, ends_block, in_code, mode_at, nesting_at, opens_block, Mode,
};
use crate::text::lemma_seek;

verus! {

// ---------------------------------------------------------------------------
// Comments and strings
// ---------------------------------------------------------------------------

/// Two slashes in code begin a comment, which runs to the end of the line, and
/// code goes on behind it. `end` is a position on the line, or its end.
pub proof fn law_comments_run_to_the_end_of_the_line(s: Seq<char>, i: int, end: int)
    requires
        0 <= i,
        i + 2 <= end <= s.len(),
        mode_at(s, i) == Mode::Code,
        s[i] == '/',
        s[i + 1] == '/',
        forall|j: int| i + 2 <= j < end ==> s[j] != '\n',
    ensures
        forall|j: int| i + 2 <= j <= end ==> !in_code(#[trigger] mode_at(s, j)),
        end < s.len() && s[end] == '\n' ==> mode_at(s, end + 1) == Mode::Code,
{
    assert(mode_at(s, i + 1) == Mode::Slash);
    assert(mode_at(s, i + 2) == Mode::Comment);
    assert forall|j: int| i + 2 <= j <= end implies #[trigger] mode_at(s, j) == Mode::Comment by {
        lemma_comment(s, i + 2, j);
    }
    assert(mode_at(s, end) == Mode::Comment);
}

proof fn lemma_comment(s: Seq<char>, from: int, j: int)
    requires
        0 <= from <= j,
        mode_at(s, from) == Mode::Comment,
        forall|k: int| from <= k < j ==> s[k] != '\n',
    ensures
        mode_at(s, j) == Mode::Comment,
    decreases j - from,
{
    if j > from {
        lemma_comment(s, from, j - 1);
        assert(s[j - 1] != '\n');
    }
}

/// A quote in code begins a string, which runs to the next quote, and code goes
/// on behind it. In a string a backslash takes its meaning from the character
/// behind it.
pub proof fn law_strings_run_to_the_next_quote(s: Seq<char>, i: int, end: int, j: int)
    requires
        0 <= i < end < s.len(),
        mode_at(s, i) == Mode::Code,
        s[i] == '"',
        s[end] == '"',
        forall|k: int| i < k < end ==> s[k] != '"' && s[k] != '\\',
        0 <= j < s.len(),
    ensures
        forall|k: int| i < k <= end ==> !in_code(#[trigger] mode_at(s, k)),
        mode_at(s, end + 1) == Mode::Code,
        mode_at(s, j) == Mode::Quoted && s[j] == '\\' ==> mode_at(s, j + 2) == Mode::Quoted,
{
    assert(mode_at(s, i + 1) == Mode::Quoted);
    assert forall|k: int| i < k <= end implies #[trigger] mode_at(s, k) == Mode::Quoted by {
        lemma_quoted(s, i + 1, k);
    }
    assert(mode_at(s, end) == Mode::Quoted);
    if mode_at(s, j) == Mode::Quoted && s[j] == '\\' {
        assert(mode_at(s, j + 1) == Mode::Escaped);
    }
}

proof fn lemma_quoted(s: Seq<char>, from: int, j: int)
    requires
        0 <= from <= j,
        mode_at(s, from) == Mode::Quoted,
        forall|k: int| from <= k < j ==> s[k] != '"' && s[k] != '\\',
    ensures
        mode_at(s, j) == Mode::Quoted,
    decreases j - from,
{
    if j > from {
        lemma_quoted(s, from, j - 1);
        assert(s[j - 1] != '"' && s[j - 1] != '\\');
    }
}

/// Hashes and a quote in code begin a raw string, which runs to a quote with as
/// many hashes behind it, and code goes on behind them. The hashes begin at `i`,
/// and the closing quote is at `close`.
pub proof fn law_raw_strings_run_to_the_same_hashes(
    s: Seq<char>,
    i: int,
    hashes: int,
    close: int,
)
    requires
        0 <= i,
        1 <= hashes <= usize::MAX,
        mode_at(s, i) == Mode::Code,
        i + hashes < close,
        close + hashes < s.len(),
        forall|k: int| i <= k < i + hashes ==> s[k] == '#',
        s[i + hashes] == '"',
        forall|k: int| i + hashes < k < close ==> s[k] != '"',
        s[close] == '"',
        forall|k: int| close < k <= close + hashes ==> s[k] == '#',
    ensures
        forall|k: int| i + hashes < k <= close + hashes ==> !in_code(#[trigger] mode_at(s, k)),
        in_code(mode_at(s, close + hashes + 1)),
{
    let n = hashes as usize;
    lemma_hashes(s, i, hashes);
    let open = i + hashes + 1;
    assert(mode_at(s, open) == Mode::Raw { hashes: n });
    assert forall|k: int| open <= k <= close implies #[trigger] mode_at(s, k) == (Mode::Raw {
        hashes: n,
    }) by {
        lemma_raw(s, open, n, k);
    }
    assert forall|k: int| close < k <= close + hashes + 1 implies #[trigger] mode_at(s, k) == (
    Mode::Closing { hashes: n, seen: (k - close - 1) as usize }) by {
        lemma_closing(s, close, n, k);
    }
}

proof fn lemma_hashes(s: Seq<char>, i: int, n: int)
    requires
        0 <= i,
        1 <= n <= usize::MAX,
        mode_at(s, i) == Mode::Code,
        forall|k: int| i <= k < i + n ==> s[k] == '#',
    ensures
        mode_at(s, i + n) == (Mode::Hashes { hashes: n as usize }),
    decreases n,
{
    if n > 1 {
        lemma_hashes(s, i, n - 1);
        assert(s[i + n - 1] == '#');
    } else {
        assert(s[i] == '#');
    }
}

proof fn lemma_raw(s: Seq<char>, from: int, n: usize, j: int)
    requires
        0 <= from <= j,
        mode_at(s, from) == (Mode::Raw { hashes: n }),
        forall|k: int| from <= k < j ==> s[k] != '"',
    ensures
        mode_at(s, j) == (Mode::Raw { hashes: n }),
    decreases j - from,
{
    if j > from {
        lemma_raw(s, from, n, j - 1);
        assert(s[j - 1] != '"');
    }
}

proof fn lemma_closing(s: Seq<char>, close: int, n: usize, j: int)
    requires
        0 <= close < j <= close + n + 1,
        mode_at(s, close) == (Mode::Raw { hashes: n }),
        s[close] == '"',
        forall|k: int| close < k < j ==> s[k] == '#',
    ensures
        mode_at(s, j) == (Mode::Closing { hashes: n, seen: (j - close - 1) as usize }),
    decreases j - close,
{
    if j > close + 1 {
        lemma_closing(s, close, n, j - 1);
        assert(s[j - 1] == '#');
    }
}

// ---------------------------------------------------------------------------
// Blocks
// ---------------------------------------------------------------------------

/// How often `c` stands in code from `from` up to `to`.
pub open spec fn code_count(s: Seq<char>, c: char, from: int, to: int) -> int
    decreases to - from,
{
    if to <= from {
        0
    } else {
        code_count(s, c, from, to - 1) + if in_code(mode_at(s, to - 1)) && s[to - 1] == c {
            1int
        } else {
            0int
        }
    }
}

/// In front of the block no brace is open.
proof fn lemma_before_block(s: Seq<char>, from: int, i: int)
    requires
        0 <= from <= i <= block_start(s, from),
        from <= s.len(),
    ensures
        nesting_at(s, from, i).depth == 0,
{
    lemma_seek(opens_block(s, from), from, s.len() as int);
    if i > from {
        assert(!opens_block(s, from)(i - 1));
    }
}

/// In the block, the depth is how many more braces opened than closed.
proof fn lemma_in_block(s: Seq<char>, from: int, i: int)
    requires
        s.len() <= usize::MAX,
        0 <= from <= s.len(),
        block_start(s, from) < s.len(),
        block_start(s, from) < i <= s.len(),
        i <= block_end(s, from),
    ensures
        nesting_at(s, from, i).depth == code_count(s, '{', block_start(s, from), i) - code_count(
            s,
            '}',
            block_start(s, from),
            i,
        ),
        1 <= nesting_at(s, from, i).depth <= i,
        s[block_start(s, from)] == '{',
        in_code(mode_at(s, block_start(s, from))),
    decreases i,
{
    let start = block_start(s, from);
    lemma_seek(opens_block(s, from), from, s.len() as int);
    lemma_seek(ends_block(s, from), from, s.len() as int);
    lemma_before_block(s, from, start);
    assert(opens_block(s, from)(start));
    if i == start + 1 {
        assert(code_count(s, '{', start, start) == 0);
        assert(code_count(s, '}', start, start) == 0);
    } else {
        lemma_in_block(s, from, i - 1);
        assert(!ends_block(s, from)(i - 1));
    }
}

/// A block runs from a brace in code to the first place where as many braces
/// have closed as opened, braces in comments and strings not counted.
pub proof fn law_blocks_are_balanced(s: Seq<char>, from: int)
    requires
        s.len() <= usize::MAX,
        0 <= from <= s.len(),
        block_start(s, from) < block_end(s, from) < s.len(),
    ensures
        ({
            let start = block_start(s, from);
            let end = block_end(s, from);
            &&& from <= start
            &&& s[start] == '{' && in_code(mode_at(s, start))
            &&& s[end] == '}' && in_code(mode_at(s, end))
            &&& code_count(s, '{', start, end + 1) == code_count(s, '}', start, end + 1)
            &&& forall|i: int|
                start < i <= end ==> #[trigger] code_count(s, '{', start, i) > code_count(
                    s,
                    '}',
                    start,
                    i,
                )
        }),
{
    let start = block_start(s, from);
    let end = block_end(s, from);
    lemma_seek(opens_block(s, from), from, s.len() as int);
    lemma_seek(ends_block(s, from), from, s.len() as int);
    assert(ends_block(s, from)(end));
    lemma_in_block(s, from, end);
    assert forall|i: int| start < i <= end implies #[trigger] code_count(s, '{', start, i)
        > code_count(s, '}', start, i) by {
        lemma_in_block(s, from, i);
    }
}

/// A block opens at the first brace in code: where no round bracket stands in
/// code in front of it, no other brace does.
pub proof fn law_blocks_open_at_the_first_brace(s: Seq<char>, from: int, i: int)
    requires
        0 <= from <= i < block_start(s, from),
        from <= s.len(),
        forall|j: int|
            from <= j <= i ==> !(in_code(#[trigger] mode_at(s, j)) && (s[j] == '(' || s[j] == ')')),
    ensures
        !(in_code(mode_at(s, i)) && s[i] == '{'),
{
    lemma_no_round(s, from, i);
    lemma_before_block(s, from, i);
    lemma_before_block(s, from, i + 1);
}

proof fn lemma_no_round(s: Seq<char>, from: int, i: int)
    requires
        0 <= from <= i,
        forall|j: int|
            from <= j < i ==> !(in_code(#[trigger] mode_at(s, j)) && (s[j] == '(' || s[j] == ')')),
    ensures
        nesting_at(s, from, i).round == 0,
    decreases i - from,
{
    if i > from {
        lemma_no_round(s, from, i - 1);
        assert(!(in_code(mode_at(s, i - 1)) && (s[i - 1] == '(' || s[i - 1] == ')')));
    }
}

/// In front of the block, how many round brackets are open.
proof fn lemma_round(s: Seq<char>, from: int, i: int)
    requires
        s.len() <= usize::MAX,
        0 <= from <= i <= block_start(s, from),
        i <= s.len(),
        forall|j: int|
            from <= j <= i ==> #[trigger] code_count(s, '(', from, j) >= code_count(
                s,
                ')',
                from,
                j,
            ),
    ensures
        nesting_at(s, from, i).round == code_count(s, '(', from, i) - code_count(s, ')', from, i),
        nesting_at(s, from, i).round <= i - from,
    decreases i - from,
{
    if i > from {
        lemma_round(s, from, i - 1);
        lemma_before_block(s, from, i - 1);
        lemma_before_block(s, from, i);
        assert(code_count(s, '(', from, i) >= code_count(s, ')', from, i));
    }
}

/// A block opens outside round brackets, at the first brace in code that stands
/// outside them, as long as no round bracket closes that was not opened.
pub proof fn law_blocks_open_outside_round_brackets(s: Seq<char>, from: int, i: int)
    requires
        s.len() <= usize::MAX,
        0 <= from <= block_start(s, from) < s.len(),
        forall|j: int|
            from <= j <= block_start(s, from) ==> #[trigger] code_count(s, '(', from, j)
                >= code_count(s, ')', from, j),
    ensures
        code_count(s, '(', from, block_start(s, from)) == code_count(
            s,
            ')',
            from,
            block_start(s, from),
        ),
        from <= i < block_start(s, from) && in_code(mode_at(s, i)) && s[i] == '{' ==> code_count(
            s,
            '(',
            from,
            i,
        ) > code_count(s, ')', from, i),
{
    let start = block_start(s, from);
    lemma_seek(opens_block(s, from), from, s.len() as int);
    assert(opens_block(s, from)(start));
    lemma_round(s, from, start);
    lemma_before_block(s, from, start);
    if from <= i < start {
        assert forall|j: int| from <= j <= i implies #[trigger] code_count(s, '(', from, j)
            >= code_count(s, ')', from, j) by {}
        lemma_round(s, from, i);
        lemma_before_block(s, from, i);
        lemma_before_block(s, from, i + 1);
    }
}

} // verus!
