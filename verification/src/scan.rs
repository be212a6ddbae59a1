//! Scanning of BAML source: what each position is part of, and how deep in
//! braces it lies.
//!
//! `//` opens a comment that the line ends; `"` opens a string in which `\`
//! escapes the next character; a run of `#` with a quote behind it opens a raw
//! string, which a quote with as many `#` behind it closes. The rest is code.

use vstd::prelude::*;

use crate::text::{lemma_seek, lemma_seek_is, seek};

verus! {

// ---------------------------------------------------------------------------
// Code, comments and strings
// ---------------------------------------------------------------------------

/// What the text at a position is part of.
#[derive(Clone, Copy, Debug, PartialEq, Eq, Structural)]
pub enum Mode {
    Code,
    /// Code, behind a `/`.
    Slash,
    Comment,
    Quoted,
    /// A string, behind a `\`.
    Escaped,
    /// Code, behind `hashes` `#`.
    Hashes { hashes: usize },
    /// A raw string that `hashes` `#` opened.
    Raw { hashes: usize },
    /// A raw string, behind a quote and `seen` `#`.
    Closing { hashes: usize, seen: usize },
}

/// The mode behind the character `c` of code.
pub open spec fn code_step(c: char) -> Mode {
    if c == '/' {
        Mode::Slash
    } else if c == '"' {
        Mode::Quoted
    } else if c == '#' {
        Mode::Hashes { hashes: 1 }
    } else {
        Mode::Code
    }
}

/// The mode behind the character `c`.
pub open spec fn stepped(mode: Mode, c: char) -> Mode {
    match mode {
        Mode::Code => code_step(c),
        Mode::Slash => if c == '/' {
            Mode::Comment
        } else {
            code_step(c)
        },
        Mode::Comment => if c == '\n' {
            Mode::Code
        } else {
            mode
        },
        Mode::Quoted => if c == '"' {
            Mode::Code
        } else if c == '\\' {
            Mode::Escaped
        } else {
            mode
        },
        Mode::Escaped => Mode::Quoted,
        Mode::Hashes { hashes } => if c == '#' {
            Mode::Hashes { hashes: (hashes + 1) as usize }
        } else if c == '"' {
            Mode::Raw { hashes }
        } else {
            code_step(c)
        },
        Mode::Raw { hashes } => if c == '"' {
            Mode::Closing { hashes, seen: 0 }
        } else {
            mode
        },
        Mode::Closing { hashes, seen } => if c == '#' {
            Mode::Closing { hashes, seen: (seen + 1) as usize }
        } else if seen == hashes {
            code_step(c)
        } else if c == '"' {
            Mode::Closing { hashes, seen: 0 }
        } else {
            Mode::Raw { hashes }
        },
    }
}

/// The mode in front of position `i`.
pub open spec fn mode_at(s: Seq<char>, i: int) -> Mode
    decreases i,
{
    if i <= 0 {
        Mode::Code
    } else {
        stepped(mode_at(s, i - 1), s[i - 1])
    }
}

/// A brace or a round bracket counts where the mode is this.
pub open spec fn in_code(mode: Mode) -> bool {
    match mode {
        Mode::Code | Mode::Slash | Mode::Hashes { .. } => true,
        Mode::Closing { hashes, seen } => hashes == seen,
        _ => false,
    }
}

/// No count of a mode is over `most`.
pub open spec fn counts_within(mode: Mode, most: int) -> bool {
    match mode {
        Mode::Hashes { hashes } => hashes <= most,
        Mode::Raw { hashes } => hashes <= most,
        Mode::Closing { hashes, seen } => hashes <= most && seen <= most,
        _ => true,
    }
}

impl Mode {
    /// The mode behind the character `c` of code.
    fn step_in_code(c: char) -> (r: Mode)
        ensures
            r == code_step(c),
    {
        if c == '/' {
            Mode::Slash
        } else if c == '"' {
            Mode::Quoted
        } else if c == '#' {
            Mode::Hashes { hashes: 1 }
        } else {
            Mode::Code
        }
    }

    /// The mode behind the character `c`.
    pub fn step(&self, c: char) -> (r: Mode)
        requires
            counts_within(*self, usize::MAX - 1),
        ensures
            r == stepped(*self, c),
    {
        match *self {
            Mode::Code => Mode::step_in_code(c),
            Mode::Slash => if c == '/' {
                Mode::Comment
            } else {
                Mode::step_in_code(c)
            },
            Mode::Comment => if c == '\n' {
                Mode::Code
            } else {
                *self
            },
            Mode::Quoted => if c == '"' {
                Mode::Code
            } else if c == '\\' {
                Mode::Escaped
            } else {
                *self
            },
            Mode::Escaped => Mode::Quoted,
            Mode::Hashes { hashes } => if c == '#' {
                Mode::Hashes { hashes: hashes + 1 }
            } else if c == '"' {
                Mode::Raw { hashes }
            } else {
                Mode::step_in_code(c)
            },
            Mode::Raw { hashes } => if c == '"' {
                Mode::Closing { hashes, seen: 0 }
            } else {
                *self
            },
            Mode::Closing { hashes, seen } => if c == '#' {
                Mode::Closing { hashes, seen: seen + 1 }
            } else if seen == hashes {
                Mode::step_in_code(c)
            } else if c == '"' {
                Mode::Closing { hashes, seen: 0 }
            } else {
                Mode::Raw { hashes }
            },
        }
    }

    /// Whether a brace or a round bracket counts here.
    pub fn is_code(&self) -> (r: bool)
        ensures
            r == in_code(*self),
    {
        match *self {
            Mode::Code => true,
            Mode::Slash => true,
            Mode::Hashes { .. } => true,
            Mode::Closing { hashes, seen } => hashes == seen,
            _ => false,
        }
    }
}

/// One step raises each count by one at most.
pub proof fn lemma_counts(mode: Mode, c: char, most: int)
    requires
        counts_within(mode, most),
        0 <= most < usize::MAX,
    ensures
        counts_within(stepped(mode, c), most + 1),
{
}

/// The mode depends only on the text that was read.
pub proof fn lemma_mode_prefix(s: Seq<char>, t: Seq<char>, i: int)
    requires
        i <= s.len(),
        i <= t.len(),
        forall|j: int| 0 <= j < i ==> s[j] == t[j],
    ensures
        mode_at(t, i) == mode_at(s, i),
    decreases i,
{
    if i > 0 {
        lemma_mode_prefix(s, t, i - 1);
    }
}

/// Where two texts have the same mode, it stays the same as long as they
/// agree.
pub proof fn lemma_mode_shift(s: Seq<char>, t: Seq<char>, from: int, i: int, shift: int)
    requires
        0 <= from <= i,
        0 <= from + shift,
        mode_at(t, from + shift) == mode_at(s, from),
        forall|j: int| from <= j < i ==> #[trigger] s[j] == t[j + shift],
    ensures
        mode_at(t, i + shift) == mode_at(s, i),
    decreases i - from,
{
    if i > from {
        lemma_mode_shift(s, t, from, i - 1, shift);
        assert(s[i - 1] == t[i - 1 + shift]);
    }
}

// ---------------------------------------------------------------------------
// Blocks
// ---------------------------------------------------------------------------

/// How many round brackets are open in front of a block, and how many braces.
#[derive(Clone, Copy, Debug, PartialEq, Eq, Structural)]
pub struct Nesting {
    pub round: usize,
    pub depth: usize,
}

/// The nesting behind the character `c`. Round brackets count in front of the
/// block only, and a brace opens the block only outside them.
pub open spec fn nest_step(nesting: Nesting, mode: Mode, c: char) -> Nesting {
    let Nesting { round, depth } = nesting;
    if !in_code(mode) {
        nesting
    } else if depth > 0 {
        if c == '{' {
            Nesting { round, depth: (depth + 1) as usize }
        } else if c == '}' {
            Nesting { round, depth: (depth - 1) as usize }
        } else {
            nesting
        }
    } else if c == '(' {
        Nesting { round: (round + 1) as usize, depth }
    } else if c == ')' && round > 0 {
        Nesting { round: (round - 1) as usize, depth }
    } else if c == '{' && round == 0 {
        Nesting { round, depth: 1 }
    } else {
        nesting
    }
}

/// The nesting in front of position `i`, counted from `from` on.
pub open spec fn nesting_at(s: Seq<char>, from: int, i: int) -> Nesting
    decreases i - from,
{
    if i <= from {
        Nesting { round: 0, depth: 0 }
    } else {
        nest_step(nesting_at(s, from, i - 1), mode_at(s, i - 1), s[i - 1])
    }
}

/// Holds at the brace that opens the first block behind `from`.
pub open spec fn opens_block(s: Seq<char>, from: int) -> spec_fn(int) -> bool {
    |i: int| nesting_at(s, from, i + 1).depth > 0
}

/// Where the first block behind `from` opens: at its brace, or at the end of
/// the text where there is none.
pub open spec fn block_start(s: Seq<char>, from: int) -> int {
    seek(opens_block(s, from), from, s.len() as int)
}

/// Holds at the brace that closes the first block behind `from`.
pub open spec fn ends_block(s: Seq<char>, from: int) -> spec_fn(int) -> bool {
    |i: int| nesting_at(s, from, i).depth == 1 && nesting_at(s, from, i + 1).depth == 0
}

/// Where the first block behind `from` ends: at its closing brace, or at the
/// end of the text where it is never closed.
pub open spec fn block_end(s: Seq<char>, from: int) -> int {
    seek(ends_block(s, from), from, s.len() as int)
}

impl Nesting {
    /// The nesting behind the character `c`.
    pub fn step(&self, mode: &Mode, c: char) -> (r: Nesting)
        requires
            self.round < usize::MAX,
            self.depth < usize::MAX,
        ensures
            r == nest_step(*self, *mode, c),
            r.round <= self.round + 1,
            r.depth <= self.depth + 1,
    {
        let round: usize = self.round;
        let depth: usize = self.depth;
        if !mode.is_code() {
            *self
        } else if depth > 0 {
            if c == '{' {
                Nesting { round, depth: depth + 1 }
            } else if c == '}' {
                Nesting { round, depth: depth - 1 }
            } else {
                *self
            }
        } else if c == '(' {
            Nesting { round: round + 1, depth }
        } else if c == ')' && round > 0 {
            Nesting { round: round - 1, depth }
        } else if c == '{' && round == 0 {
            Nesting { round, depth: 1 }
        } else {
            *self
        }
    }
}

/// The nesting depends only on the text that was read.
pub proof fn lemma_nesting_prefix(s: Seq<char>, t: Seq<char>, from: int, i: int)
    requires
        0 <= from,
        i <= s.len(),
        i <= t.len(),
        forall|j: int| 0 <= j < i ==> s[j] == t[j],
    ensures
        nesting_at(t, from, i) == nesting_at(s, from, i),
    decreases i - from,
{
    if i > from {
        lemma_nesting_prefix(s, t, from, i - 1);
        lemma_mode_prefix(s, t, i - 1);
    }
}

/// The mode in front of position `end`.
fn find_mode(s: &Vec<char>, end: usize) -> (r: Mode)
    requires
        end <= s@.len(),
    ensures
        r == mode_at(s@, end as int),
        counts_within(r, end as int),
{
    let mut mode = Mode::Code;
    let mut i: usize = 0;
    while i < end
        invariant
            i <= end <= s@.len(),
            mode == mode_at(s@, i as int),
            counts_within(mode, i as int),
        decreases end - i,
    {
        proof {
            lemma_counts(mode, s@[i as int], i as int);
        }
        mode = mode.step(s[i]);
        i = i + 1;
    }
    mode
}

/// Where the first block behind `from` opens and where it ends.
pub fn find_block(s: &Vec<char>, from: usize) -> (r: (usize, usize))
    ensures
        r.0 == block_start(s@, from as int),
        r.1 == block_end(s@, from as int),
{
    if from >= s.len() {
        return (from, from);
    }
    let ghost p = opens_block(s@, from as int);
    let ghost q = ends_block(s@, from as int);
    let ghost len = s@.len() as int;
    let mut mode = find_mode(s, from);
    let mut nesting = Nesting { round: 0, depth: 0 };
    let mut start: usize = s.len();
    let mut i: usize = from;
    while i < s.len()
        invariant
            from <= i <= s.len(),
            len == s@.len(),
            p == opens_block(s@, from as int),
            q == ends_block(s@, from as int),
            mode == mode_at(s@, i as int),
            counts_within(mode, i as int),
            nesting == nesting_at(s@, from as int, i as int),
            nesting.round <= i - from,
            nesting.depth <= i - from,
            start == len ==> nesting.depth == 0 && forall|j: int| from <= j < i ==> !#[trigger] p(j),
            start < len ==> start == block_start(s@, from as int),
            start <= len,
            forall|j: int| from <= j < i ==> !#[trigger] q(j),
        decreases s.len() - i,
    {
        let next = nesting.step(&mode, s[i]);
        proof {
            lemma_counts(mode, s@[i as int], i as int);
            assert(next == nesting_at(s@, from as int, i + 1));
        }
        if start == s.len() && next.depth > 0 {
            start = i;
            proof {
                assert(p(i as int));
                lemma_seek_is(p, from as int, len, i as int);
            }
        } else if nesting.depth == 1 && next.depth == 0 {
            proof {
                assert(q(i as int));
                lemma_seek_is(q, from as int, len, i as int);
            }
            return (start, i);
        }
        assert(!q(i as int));
        assert(start == len ==> !p(i as int));
        mode = mode.step(s[i]);
        nesting = next;
        i = i + 1;
    }
    proof {
        if start == len {
            lemma_seek_is(p, from as int, len, len);
        }
        lemma_seek_is(q, from as int, len, len);
    }
    (start, i)
}

/// Two texts that agree behind the opening of the block agree on it.
pub proof fn lemma_block_start_prefix(s: Seq<char>, t: Seq<char>, from: int, n: int)
    requires
        0 <= from,
        block_start(s, from) < n <= s.len(),
        n <= t.len(),
        forall|j: int| 0 <= j < n ==> s[j] == t[j],
    ensures
        block_start(t, from) == block_start(s, from),
{
    let p = opens_block(s, from);
    let q = opens_block(t, from);
    let start = block_start(s, from);
    if from <= s.len() {
        lemma_seek(p, from, s.len() as int);
        assert forall|j: int| from <= j < start implies !#[trigger] q(j) by {
            assert(!p(j));
            lemma_nesting_prefix(s, t, from, j + 1);
        }
        assert(p(start));
        lemma_nesting_prefix(s, t, from, start + 1);
        assert(q(start));
        lemma_seek_is(q, from, t.len() as int, start);
    }
}

/// Two texts that agree up to `n` agree on whether the block ends before `n`.
pub proof fn lemma_block_end_prefix(s: Seq<char>, t: Seq<char>, from: int, n: int)
    requires
        0 <= from <= n <= s.len(),
        n <= t.len(),
        forall|j: int| 0 <= j < n ==> s[j] == t[j],
        block_end(s, from) >= n,
    ensures
        block_end(t, from) >= n,
{
    lemma_seek(ends_block(s, from), from, s.len() as int);
    lemma_seek(ends_block(t, from), from, t.len() as int);
    let end = block_end(t, from);
    if end < n {
        lemma_nesting_prefix(s, t, from, end);
        lemma_nesting_prefix(s, t, from, end + 1);
        assert(ends_block(t, from)(end));
        assert(!ends_block(s, from)(end));
    }
}

} // verus!
