//! Text at the level of characters: searching, splitting, joining, trimming.
//!
//! Positions count characters, not bytes.

use vstd::prelude::*;
use vstd::string::*;

verus! {

/// Appends `c` to the string. Outside function: `String::push`, which its
/// documentation describes as appending the given character to the end.
pub assume_specification[ String::push ](s: &mut String, c: char)
    ensures
        final(s)@ == old(s)@.push(c),
;

// ---------------------------------------------------------------------------
// Characters
// ---------------------------------------------------------------------------

/// The characters with the Unicode property `White_Space`.
pub open spec fn is_space(c: char) -> bool {
    let n = c as int;
    ||| 0x9 <= n <= 0xD
    ||| n == 0x20
    ||| n == 0x85
    ||| n == 0xA0
    ||| n == 0x1680
    ||| 0x2000 <= n <= 0x200A
    ||| n == 0x2028
    ||| n == 0x2029
    ||| n == 0x202F
    ||| n == 0x205F
    ||| n == 0x3000
}

/// Whether `c` has the Unicode property `White_Space`.
pub fn is_whitespace(c: char) -> (r: bool)
    ensures
        r == is_space(c),
{
    let n: u32 = c as u32;
    (0x9 <= n && n <= 0xD) || n == 0x20 || n == 0x85 || n == 0xA0 || n == 0x1680 || (0x2000 <= n
        && n <= 0x200A) || n == 0x2028 || n == 0x2029 || n == 0x202F || n == 0x205F || n == 0x3000
}

/// ASCII white space: space, tab, line feed, form feed, carriage return.
pub open spec fn is_ascii_space(c: char) -> bool {
    c == ' ' || c == '\t' || c == '\n' || c == '\x0C' || c == '\r'
}

/// Whether `c` is ASCII white space.
pub fn is_ascii_whitespace(c: char) -> (r: bool)
    ensures
        r == is_ascii_space(c),
{
    c == ' ' || c == '\t' || c == '\n' || c == '\x0C' || c == '\r'
}

/// The lower-case form of an ASCII letter; any other character is its own.
pub open spec fn ascii_lower(c: char) -> char {
    if 'A' <= c <= 'Z' {
        (c as u32 + 32) as char
    } else {
        c
    }
}

/// A text with its ASCII letters in lower case.
pub open spec fn lowered(s: Seq<char>) -> Seq<char> {
    s.map_values(|c: char| ascii_lower(c))
}

/// The lower-case form of an ASCII letter; any other character is its own.
pub fn lowercase_char(c: char) -> (r: char)
    ensures
        r == ascii_lower(c),
{
    if 'A' <= c && c <= 'Z' {
        let n: u8 = c as u8;
        (n + 32) as char
    } else {
        c
    }
}

/// A text with its ASCII letters in lower case.
pub fn lowercase(s: &str) -> (r: String)
    ensures
        r@ == lowered(s@),
{
    let mut out = String::new();
    let v = chars_of(s);
    let mut i: usize = 0;
    while i < v.len()
        invariant
            i <= v.len(),
            v@ == s@,
            out@ == lowered(s@).take(i as int),
        decreases v.len() - i,
    {
        out.push(lowercase_char(v[i]));
        assert(out@ =~= lowered(s@).take(i + 1));
        i = i + 1;
    }
    assert(out@ =~= lowered(s@));
    out
}

// ---------------------------------------------------------------------------
// Searching
// ---------------------------------------------------------------------------

/// The first position in `from..end` at which `p` holds, `end` if there is none.
pub open spec fn seek(p: spec_fn(int) -> bool, from: int, end: int) -> int
    decreases end - from,
{
    if from >= end || p(from) {
        from
    } else {
        seek(p, from + 1, end)
    }
}

/// [`seek`] stops at the one position before which `p` never holds and at
/// which it does hold, unless that position is the end.
pub proof fn lemma_seek_is(p: spec_fn(int) -> bool, from: int, end: int, r: int)
    requires
        from <= r <= end,
        forall|j: int| from <= j < r ==> !#[trigger] p(j),
        r < end ==> p(r),
    ensures
        seek(p, from, end) == r,
    decreases end - from,
{
    if from < r {
        assert(!p(from));
        lemma_seek_is(p, from + 1, end, r);
    }
}

/// What [`seek`] finds: a position in range, with nothing found before it.
pub proof fn lemma_seek(p: spec_fn(int) -> bool, from: int, end: int)
    requires
        from <= end,
    ensures
        from <= seek(p, from, end) <= end,
        forall|j: int| from <= j < seek(p, from, end) ==> !#[trigger] p(j),
        seek(p, from, end) < end ==> p(seek(p, from, end)),
    decreases end - from,
{
    if from < end && !p(from) {
        lemma_seek(p, from + 1, end);
        assert forall|j: int| from <= j < seek(p, from, end) implies !#[trigger] p(j) by {
            if j != from {
                assert(from + 1 <= j);
            }
        }
    }
}

/// The first position in `from..end` at which `p` holds, if there is one.
pub open spec fn first_in(p: spec_fn(int) -> bool, from: int, end: int) -> Option<int> {
    if seek(p, from, end) < end {
        Some(seek(p, from, end))
    } else {
        None
    }
}

/// A position as a mathematical integer.
pub open spec fn position(r: Option<usize>) -> Option<int> {
    match r {
        Some(i) => Some(i as int),
        None => None,
    }
}

/// `w` stands in `s` at position `i`.
pub open spec fn occurs_at(s: Seq<char>, w: Seq<char>, i: int) -> bool {
    &&& 0 <= i
    &&& i + w.len() <= s.len()
    &&& s.subrange(i, i + w.len()) == w
}

/// `w` stands somewhere in `s`.
pub open spec fn occurs(s: Seq<char>, w: Seq<char>) -> bool {
    exists|i: int| occurs_at(s, w, i)
}

/// Whether `w` stands in `s` at position `i`.
pub fn matches_at(s: &Vec<char>, w: &Vec<char>, i: usize) -> (r: bool)
    ensures
        r == occurs_at(s@, w@, i as int),
{
    if i > s.len() || w.len() > s.len() - i {
        return false;
    }
    let mut k: usize = 0;
    while k < w.len()
        invariant
            k <= w.len(),
            i + w.len() <= s.len(),
            forall|j: int| 0 <= j < k ==> s@[i + j] == w@[j],
        decreases w.len() - k,
    {
        if s[i + k] != w[k] {
            proof {
                assert(s@.subrange(i as int, i + w@.len())[k as int] != w@[k as int]);
            }
            return false;
        }
        k = k + 1;
    }
    assert(s@.subrange(i as int, i + w@.len()) =~= w@);
    true
}

/// Whether `needle` stands somewhere in `haystack`.
pub fn contains(haystack: &str, needle: &str) -> (r: bool)
    ensures
        r == occurs(haystack@, needle@),
{
    let s = chars_of(haystack);
    let w = chars_of(needle);
    if w.len() > s.len() {
        return false;
    }
    let mut i: usize = 0;
    while i <= s.len() - w.len()
        invariant
            w.len() <= s.len(),
            i <= s.len() - w.len() + 1,
            s@ == haystack@,
            w@ == needle@,
            forall|j: int| 0 <= j < i ==> !occurs_at(s@, w@, j),
        decreases s.len() - w.len() + 1 - i,
    {
        if matches_at(&s, &w, i) {
            return true;
        }
        if i == s.len() - w.len() {
            return false;
        }
        i = i + 1;
    }
    false
}

// ---------------------------------------------------------------------------
// Strings and characters
// ---------------------------------------------------------------------------

/// The characters of `s`.
pub fn chars_of(s: &str) -> (v: Vec<char>)
    ensures
        v@ == s@,
{
    let mut v: Vec<char> = Vec::new();
    for c in it: s.chars()
        invariant
            v@ == it.seq().take(it.index()),
            it.seq() == s@,
    {
        v.push(c);
        assert(v@ =~= it.seq().take(it.index() + 1));
    }
    assert(v@ =~= s@);
    v
}

/// Appends the characters `from..to` of `v` to `out`.
pub fn push_range(out: &mut String, v: &Vec<char>, from: usize, to: usize)
    requires
        from <= to <= v@.len(),
    ensures
        final(out)@ == old(out)@ + v@.subrange(from as int, to as int),
{
    let mut i: usize = from;
    let ghost start = out@;
    while i < to
        invariant
            from <= i <= to,
            to <= v@.len(),
            out@ == start + v@.subrange(from as int, i as int),
        decreases to - i,
    {
        out.push(v[i]);
        assert(out@ =~= start + v@.subrange(from as int, i + 1));
        i = i + 1;
    }
}

/// The string of the characters `from..to` of `v`.
pub fn string_of(v: &Vec<char>, from: usize, to: usize) -> (r: String)
    requires
        from <= to <= v@.len(),
    ensures
        r@ == v@.subrange(from as int, to as int),
{
    let mut out = String::new();
    push_range(&mut out, v, from, to);
    assert(out@ =~= v@.subrange(from as int, to as int));
    out
}

/// The characters `from..to` of `v`.
pub fn slice_of(v: &Vec<char>, from: usize, to: usize) -> (r: Vec<char>)
    requires
        from <= to <= v@.len(),
    ensures
        r@ == v@.subrange(from as int, to as int),
{
    let mut out: Vec<char> = Vec::new();
    let mut i: usize = from;
    while i < to
        invariant
            from <= i <= to,
            to <= v@.len(),
            out@ == v@.subrange(from as int, i as int),
        decreases to - i,
    {
        out.push(v[i]);
        assert(out@ =~= v@.subrange(from as int, i + 1));
        i = i + 1;
    }
    out
}

/// Appends `more` to `out`.
pub fn extend_chars(out: &mut Vec<char>, more: &Vec<char>)
    ensures
        final(out)@ == old(out)@ + more@,
{
    let ghost start = out@;
    let mut i: usize = 0;
    while i < more.len()
        invariant
            i <= more.len(),
            out@ == start + more@.take(i as int),
        decreases more.len() - i,
    {
        out.push(more[i]);
        assert(out@ =~= start + more@.take(i + 1));
        i = i + 1;
    }
    assert(out@ =~= start + more@);
}

/// Whether two runs of characters are the same.
pub fn same_chars(a: &Vec<char>, b: &Vec<char>) -> (r: bool)
    ensures
        r == (a@ == b@),
{
    if a.len() != b.len() {
        return false;
    }
    let r = matches_at(a, b, 0);
    assert(a@.subrange(0, a@.len() as int) =~= a@);
    r
}

/// Whether two strings are the same.
pub fn same_text(a: &str, b: &str) -> (r: bool)
    ensures
        r == (a@ == b@),
{
    same_chars(&chars_of(a), &chars_of(b))
}

/// Where `text` stands first in `list`.
pub fn find_text(list: &Vec<String>, text: &str) -> (r: Option<usize>)
    ensures
        match r {
            Some(i) => i < list@.len() && list@[i as int]@ == text@ && forall|j: int|
                0 <= j < i ==> (#[trigger] list@[j])@ != text@,
            None => !list.deep_view().contains(text@),
        },
{
    let mut i: usize = 0;
    while i < list.len()
        invariant
            i <= list.len(),
            forall|j: int| 0 <= j < i ==> (#[trigger] list@[j])@ != text@,
        decreases list.len() - i,
    {
        if same_text(list[i].as_str(), text) {
            return Some(i);
        }
        i = i + 1;
    }
    assert forall|j: int| 0 <= j < list.deep_view().len() implies list.deep_view()[j] != text@ by {
        assert(list.deep_view()[j] == list@[j]@);
    }
    None
}

/// Whether `text` is one of `list`.
pub fn has_text(list: &Vec<String>, text: &str) -> (r: bool)
    ensures
        r == list.deep_view().contains(text@),
{
    match find_text(list, text) {
        Some(i) => {
            assert(list.deep_view()[i as int] == text@);
            true
        },
        None => false,
    }
}

// ---------------------------------------------------------------------------
// Trimming
// ---------------------------------------------------------------------------

/// What trimming takes off in front is white space, and the rest begins with
/// something else.
proof fn lemma_trim_start(s: Seq<char>)
    ensures
        exists|a: int|
            0 <= a <= s.len() && #[trigger] s.skip(a) == trim_start(s) && forall|i: int|
                0 <= i < a ==> is_space(#[trigger] s[i]),
        trim_start(s).len() > 0 ==> !is_space(trim_start(s)[0]),
    decreases s.len(),
{
    if s.len() > 0 && is_space(s[0]) {
        let rest = s.skip(1);
        lemma_trim_start(rest);
        let a = choose|a: int|
            0 <= a <= rest.len() && #[trigger] rest.skip(a) == trim_start(rest) && forall|i: int|
                0 <= i < a ==> is_space(#[trigger] rest[i]);
        assert(s.skip(a + 1) =~= rest.skip(a));
        assert forall|i: int| 0 <= i < a + 1 implies is_space(#[trigger] s[i]) by {
            if i > 0 {
                assert(s[i] == rest[i - 1]);
            }
        }
    } else {
        assert(s.skip(0) =~= s);
    }
}

/// What trimming takes off behind is white space, and the rest ends with
/// something else.
proof fn lemma_trim_end(s: Seq<char>)
    ensures
        trim_end(s).len() <= s.len(),
        s.take(trim_end(s).len() as int) == trim_end(s),
        forall|i: int| trim_end(s).len() <= i < s.len() ==> is_space(#[trigger] s[i]),
        trim_end(s).len() > 0 ==> !is_space(trim_end(s).last()),
    decreases s.len(),
{
    if s.len() > 0 && is_space(s.last()) {
        let front = s.drop_last();
        lemma_trim_end(front);
        assert(s.take(trim_end(s).len() as int) =~= front.take(trim_end(front).len() as int));
        assert forall|i: int| trim_end(s).len() <= i < s.len() implies is_space(
            #[trigger] s[i],
        ) by {
            if i < front.len() {
                assert(s[i] == front[i]);
            }
        }
    } else {
        assert(s.take(s.len() as int) =~= s);
    }
}

/// Trimming takes white space off both ends, all of it and nothing else.
pub proof fn law_trimming_takes_white_space_off(s: Seq<char>)
    ensures
        exists|a: int, b: int|
            0 <= a <= b <= s.len() && #[trigger] s.subrange(a, b) == trim(s) && (forall|i: int|
                0 <= i < a || b <= i < s.len() ==> is_space(#[trigger] s[i])),
        trim(s).len() > 0 ==> !is_space(trim(s)[0]) && !is_space(trim(s).last()),
{
    lemma_trim_start(s);
    let mid = trim_start(s);
    lemma_trim_end(mid);
    let a = choose|a: int|
        0 <= a <= s.len() && #[trigger] s.skip(a) == mid && forall|i: int|
            0 <= i < a ==> is_space(#[trigger] s[i]);
    let b = a + trim(s).len();
    assert(mid == s.skip(a));
    assert(s.subrange(a, b) =~= trim(s)) by {
        assert(mid.take(trim(s).len() as int) == trim(s));
    }
    assert forall|i: int| 0 <= i < a || b <= i < s.len() implies is_space(#[trigger] s[i]) by {
        if b <= i {
            assert(mid[i - a] == s[i]);
        }
    }
    if trim(s).len() > 0 {
        assert(trim(s)[0] == mid[0]) by {
            assert(mid.take(trim(s).len() as int)[0] == mid[0]);
        }
    }
}

/// `s` without white space in front.
pub open spec fn trim_start(s: Seq<char>) -> Seq<char>
    decreases s.len(),
{
    if s.len() > 0 && is_space(s[0]) {
        trim_start(s.skip(1))
    } else {
        s
    }
}

/// `s` without white space behind.
pub open spec fn trim_end(s: Seq<char>) -> Seq<char>
    decreases s.len(),
{
    if s.len() > 0 && is_space(s.last()) {
        trim_end(s.drop_last())
    } else {
        s
    }
}

/// `s` without white space around.
pub open spec fn trim(s: Seq<char>) -> Seq<char> {
    trim_end(trim_start(s))
}

/// The characters without white space around.
pub fn trim_chars(s: &Vec<char>) -> (r: Vec<char>)
    ensures
        r@ == trim(s@),
{
    let mut from: usize = 0;
    proof {
        assert(s@.skip(0) =~= s@);
    }
    while from < s.len() && is_whitespace(s[from])
        invariant
            from <= s@.len(),
            trim_start(s@) == trim_start(s@.skip(from as int)),
        decreases s.len() - from,
    {
        assert(s@.skip(from as int).skip(1) =~= s@.skip(from + 1));
        from = from + 1;
    }
    let mut to: usize = s.len();
    proof {
        assert(s@.subrange(from as int, to as int) =~= s@.skip(from as int));
    }
    while to > from && is_whitespace(s[to - 1])
        invariant
            from <= to <= s@.len(),
            trim(s@) == trim_end(s@.subrange(from as int, to as int)),
        decreases to,
    {
        assert(s@.subrange(from as int, to as int).drop_last() =~= s@.subrange(
            from as int,
            to - 1,
        ));
        to = to - 1;
    }
    slice_of(s, from, to)
}

/// The text without white space around.
pub fn trim_text(s: &str) -> (r: String)
    ensures
        r@ == trim(s@),
{
    let v = trim_chars(&chars_of(s));
    let r = string_of(&v, 0, v.len());
    assert(r@ =~= v@);
    r
}

/// Holds where `c` stands.
pub open spec fn stands(s: Seq<char>, c: char) -> spec_fn(int) -> bool {
    |i: int| s[i] == c
}

/// Where `c` stands first.
pub open spec fn char_position(s: Seq<char>, c: char) -> Option<int> {
    first_in(stands(s, c), 0, s.len() as int)
}

/// Where `c` stands first.
pub fn find_char(s: &Vec<char>, c: char) -> (r: Option<usize>)
    ensures
        position(r) == char_position(s@, c),
        r is Some ==> r->0 < s@.len(),
{
    let ghost p = stands(s@, c);
    let mut i: usize = 0;
    while i < s.len()
        invariant
            i <= s.len(),
            p == stands(s@, c),
            forall|j: int| 0 <= j < i ==> !#[trigger] p(j),
        decreases s.len() - i,
    {
        if s[i] == c {
            proof {
                assert(p(i as int));
                lemma_seek_is(p, 0, s@.len() as int, i as int);
            }
            return Some(i);
        }
        assert(!p(i as int));
        i = i + 1;
    }
    proof {
        lemma_seek_is(p, 0, s@.len() as int, i as int);
    }
    None
}

// ---------------------------------------------------------------------------
// Splitting and joining
// ---------------------------------------------------------------------------

/// The pieces of `s` between the occurrences of `sep`: one more than there
/// are occurrences.
pub open spec fn split(s: Seq<char>, sep: char) -> Seq<Seq<char>>
    decreases s.len(),
{
    if s.len() == 0 {
        seq![Seq::<char>::empty()]
    } else {
        let before = split(s.drop_last(), sep);
        if s.last() == sep {
            before.push(Seq::<char>::empty())
        } else {
            before.drop_last().push(before.last().push(s.last()))
        }
    }
}

/// The parts in order, with `sep` between neighbours.
pub open spec fn join(parts: Seq<Seq<char>>, sep: Seq<char>) -> Seq<char>
    decreases parts.len(),
{
    if parts.len() == 0 {
        Seq::<char>::empty()
    } else if parts.len() == 1 {
        parts[0]
    } else {
        join(parts.drop_last(), sep) + sep + parts.last()
    }
}

/// There is always at least one piece.
pub proof fn lemma_split_nonempty(s: Seq<char>, sep: char)
    ensures
        split(s, sep).len() >= 1,
    decreases s.len(),
{
    if s.len() > 0 {
        lemma_split_nonempty(s.drop_last(), sep);
    }
}

/// No piece holds the separator.
pub proof fn lemma_split_pieces(s: Seq<char>, sep: char)
    ensures
        forall|k: int| 0 <= k < split(s, sep).len() ==> !(#[trigger] split(s, sep)[k]).contains(sep),
    decreases s.len(),
{
    if s.len() > 0 {
        let before = split(s.drop_last(), sep);
        lemma_split_nonempty(s.drop_last(), sep);
        lemma_split_pieces(s.drop_last(), sep);
        if s.last() != sep {
            let last = before.last();
            assert(!before[before.len() - 1].contains(sep));
            assert(!last.push(s.last()).contains(sep)) by {
                if last.push(s.last()).contains(sep) {
                    let j = choose|j: int|
                        0 <= j < last.push(s.last()).len() && last.push(s.last())[j] == sep;
                    if j < last.len() {
                        assert(last[j] == sep);
                    }
                }
            }
        }
        assert forall|k: int| 0 <= k < split(s, sep).len() implies !(#[trigger] split(
            s,
            sep,
        )[k]).contains(sep) by {
            if k < before.len() {
                assert(!before[k].contains(sep));
            }
        }
    }
}

/// Splitting a text that goes on with a piece after a separator.
pub proof fn lemma_split_append(s: Seq<char>, piece: Seq<char>, sep: char)
    requires
        !piece.contains(sep),
    ensures
        split(s.push(sep) + piece, sep) == split(s, sep).push(piece),
    decreases piece.len(),
{
    let t = s.push(sep) + piece;
    if piece.len() == 0 {
        assert(piece =~= Seq::<char>::empty());
        assert(t =~= s.push(sep));
        assert(t.drop_last() =~= s);
    } else {
        let c = piece.last();
        assert(piece[piece.len() - 1] == c);
        assert(!piece.drop_last().contains(sep)) by {
            if piece.drop_last().contains(sep) {
                let j = choose|j: int| 0 <= j < piece.drop_last().len() && piece.drop_last()[j] == sep;
                assert(piece[j] == sep);
            }
        }
        lemma_split_append(s, piece.drop_last(), sep);
        assert(t.drop_last() =~= s.push(sep) + piece.drop_last());
        assert(split(s, sep).push(piece.drop_last()).drop_last() =~= split(s, sep));
        assert(piece.drop_last().push(c) =~= piece);
    }
}

/// Splitting a text without the separator.
pub proof fn lemma_split_one(s: Seq<char>, sep: char)
    requires
        !s.contains(sep),
    ensures
        split(s, sep) == seq![s],
    decreases s.len(),
{
    if s.len() > 0 {
        assert(s[s.len() - 1] == s.last());
        assert(!s.drop_last().contains(sep)) by {
            if s.drop_last().contains(sep) {
                let j = choose|j: int| 0 <= j < s.drop_last().len() && s.drop_last()[j] == sep;
                assert(s[j] == sep);
            }
        }
        lemma_split_one(s.drop_last(), sep);
        assert(s.drop_last().push(s.last()) =~= s);
        assert(seq![s.drop_last()].drop_last() =~= Seq::<Seq<char>>::empty());
        assert(split(s, sep) =~= seq![s]);
    } else {
        assert(s =~= Seq::<char>::empty());
    }
}

/// Splitting undoes joining, when no part holds the separator.
pub proof fn lemma_split_join(parts: Seq<Seq<char>>, sep: char)
    requires
        parts.len() >= 1,
        forall|k: int| 0 <= k < parts.len() ==> !(#[trigger] parts[k]).contains(sep),
    ensures
        split(join(parts, seq![sep]), sep) == parts,
    decreases parts.len(),
{
    if parts.len() == 1 {
        lemma_split_one(parts[0], sep);
        assert(parts =~= seq![parts[0]]);
    } else {
        let front = parts.drop_last();
        assert forall|k: int| 0 <= k < front.len() implies !(#[trigger] front[k]).contains(sep) by {
            assert(front[k] == parts[k]);
        }
        lemma_split_join(front, sep);
        assert(!parts[parts.len() - 1].contains(sep));
        lemma_split_append(join(front, seq![sep]), parts.last(), sep);
        assert(join(front, seq![sep]) + seq![sep] =~= join(front, seq![sep]).push(sep));
        assert(parts =~= front.push(parts.last()));
    }
}

/// A character that is not in a text is in none of its pieces.
pub proof fn lemma_split_without(s: Seq<char>, sep: char, c: char)
    requires
        !s.contains(c),
    ensures
        forall|k: int| 0 <= k < split(s, sep).len() ==> !(#[trigger] split(s, sep)[k]).contains(c),
    decreases s.len(),
{
    if s.len() > 0 {
        let before = split(s.drop_last(), sep);
        assert(s[s.len() - 1] == s.last());
        assert(!s.drop_last().contains(c)) by {
            if s.drop_last().contains(c) {
                let j = choose|j: int| 0 <= j < s.drop_last().len() && s.drop_last()[j] == c;
                assert(s[j] == c);
            }
        }
        lemma_split_nonempty(s.drop_last(), sep);
        lemma_split_without(s.drop_last(), sep, c);
        if s.last() != sep {
            let last = before.last();
            assert(!before[before.len() - 1].contains(c));
            if last.push(s.last()).contains(c) {
                let j = choose|j: int|
                    0 <= j < last.push(s.last()).len() && last.push(s.last())[j] == c;
                if j < last.len() {
                    assert(last[j] == c);
                }
            }
        }
    }
}

/// Joining parts of which there is one more in front.
pub proof fn lemma_join_front(first: Seq<char>, parts: Seq<Seq<char>>, sep: Seq<char>)
    requires
        parts.len() >= 1,
    ensures
        join(seq![first] + parts, sep) == first + sep + join(parts, sep),
    decreases parts.len(),
{
    let all = seq![first] + parts;
    assert(all.last() == parts.last());
    assert(join(all, sep) == join(all.drop_last(), sep) + sep + all.last());
    if parts.len() == 1 {
        assert(all.drop_last() =~= seq![first]);
        assert(join(all.drop_last(), sep) == first);
    } else {
        assert(all.drop_last() =~= seq![first] + parts.drop_last());
        lemma_join_front(first, parts.drop_last(), sep);
        assert(join(parts, sep) == join(parts.drop_last(), sep) + sep + parts.last());
    }
    assert(join(all, sep) =~= first + sep + join(parts, sep));
}

/// A character that neither the parts nor the separator hold is not in the
/// joined text.
pub proof fn lemma_join_without(parts: Seq<Seq<char>>, sep: Seq<char>, c: char)
    requires
        !sep.contains(c),
        forall|k: int| 0 <= k < parts.len() ==> !(#[trigger] parts[k]).contains(c),
    ensures
        !join(parts, sep).contains(c),
    decreases parts.len(),
{
    if parts.len() > 1 {
        let front = parts.drop_last();
        assert forall|k: int| 0 <= k < front.len() implies !(#[trigger] front[k]).contains(c) by {
            assert(front[k] == parts[k]);
        }
        lemma_join_without(front, sep, c);
        let whole = join(parts, sep);
        let head = join(front, sep);
        assert(!parts[parts.len() - 1].contains(c));
        if whole.contains(c) {
            let j = choose|j: int| 0 <= j < whole.len() && whole[j] == c;
            if j < head.len() {
                assert(head[j] == c);
            } else if j < head.len() + sep.len() {
                assert(sep[j - head.len()] == c);
            } else {
                assert(parts.last()[j - head.len() - sep.len()] == c);
            }
        }
    } else if parts.len() == 1 {
        assert(!parts[0].contains(c));
    }
}

/// Joining the pieces of a text gives the text.
pub proof fn lemma_join_split(s: Seq<char>, sep: char)
    ensures
        join(split(s, sep), seq![sep]) == s,
    decreases s.len(),
{
    if s.len() > 0 {
        let before = split(s.drop_last(), sep);
        lemma_split_nonempty(s.drop_last(), sep);
        lemma_join_split(s.drop_last(), sep);
        if s.last() == sep {
            let after = before.push(Seq::<char>::empty());
            assert(after.drop_last() =~= before);
            assert(join(after, seq![sep]) =~= s);
        } else {
            let after = before.drop_last().push(before.last().push(s.last()));
            assert(split(s, sep) == after);
            assert(after.last() == before.last().push(s.last()));
            if before.len() > 1 {
                assert(after.drop_last() =~= before.drop_last());
                assert(join(before, seq![sep]) == join(before.drop_last(), seq![sep]) + seq![sep]
                    + before.last());
                assert(join(after, seq![sep]) == join(after.drop_last(), seq![sep]) + seq![sep]
                    + after.last());
            }
            assert(join(after, seq![sep]) =~= join(before, seq![sep]).push(s.last()));
            assert(s.drop_last().push(s.last()) =~= s);
        }
    } else {
        assert(join(split(s, sep), seq![sep]) =~= s);
    }
}

/// The views of a vector of character runs.
pub open spec fn texts(v: Seq<Vec<char>>) -> Seq<Seq<char>> {
    v.map_values(|x: Vec<char>| x@)
}

/// Splits `s` at every `sep`.
pub fn split_chars(s: &Vec<char>, sep: char) -> (r: Vec<Vec<char>>)
    ensures
        texts(r@) == split(s@, sep),
{
    let mut parts: Vec<Vec<char>> = Vec::new();
    let mut current: Vec<char> = Vec::new();
    let mut i: usize = 0;
    proof {
        assert(s@.take(0) =~= Seq::<char>::empty());
        assert(texts(parts@).push(current@) =~= split(s@.take(0), sep));
    }
    while i < s.len()
        invariant
            i <= s.len(),
            texts(parts@).push(current@) == split(s@.take(i as int), sep),
        decreases s.len() - i,
    {
        let c = s[i];
        let ghost before = texts(parts@).push(current@);
        proof {
            assert(s@.take(i + 1).drop_last() =~= s@.take(i as int));
            assert(before.drop_last() =~= texts(parts@));
        }
        if c == sep {
            let ghost old_parts = parts@;
            let done = current;
            parts.push(done);
            current = Vec::new();
            proof {
                assert(texts(parts@) =~= texts(old_parts).push(done@));
                assert(current@ =~= Seq::<char>::empty());
            }
        } else {
            current.push(c);
        }
        i = i + 1;
    }
    let ghost old_parts = parts@;
    let ghost last = current@;
    parts.push(current);
    proof {
        assert(s@.take(s@.len() as int) =~= s@);
        assert(texts(parts@) =~= texts(old_parts).push(last));
    }
    parts
}

/// Joins texts with `sep` between neighbours.
pub fn join_strings(parts: &Vec<String>, sep: &str) -> (r: String)
    ensures
        r@ == join(parts.deep_view(), sep@),
{
    let ghost want = parts.deep_view();
    let mut out = String::new();
    let mut k: usize = 0;
    proof {
        assert(join(want.take(0), sep@) =~= Seq::<char>::empty());
    }
    while k < parts.len()
        invariant
            k <= parts.len(),
            want == parts.deep_view(),
            out@ == join(want.take(k as int), sep@),
        decreases parts.len() - k,
    {
        let ghost before = out@;
        if k > 0 {
            out.append(sep);
        }
        out.append(parts[k].as_str());
        proof {
            assert(want[k as int] == parts@[k as int]@);
            assert(want.take(k + 1).drop_last() =~= want.take(k as int));
            assert(want.take(k + 1).last() == want[k as int]);
            if k == 0 {
                assert(out@ =~= want[0]);
            }
        }
        k = k + 1;
    }
    proof {
        assert(want.take(want.len() as int) =~= want);
    }
    out
}

// ---------------------------------------------------------------------------
// Numbers
// ---------------------------------------------------------------------------

/// The character of a decimal digit.
pub open spec fn digit(n: nat) -> char {
    (48 + n % 10) as char
}

/// A number in decimal digits.
pub open spec fn decimal(n: nat) -> Seq<char>
    decreases n,
{
    if n < 10 {
        seq![digit(n)]
    } else {
        decimal(n / 10).push(digit(n))
    }
}

/// A number in decimal digits.
pub fn to_decimal(n: u64) -> (r: String)
    ensures
        r@ == decimal(n as nat),
    decreases n,
{
    let low: u8 = (n % 10) as u8;
    let c: char = (48 + low) as char;
    let mut out = if n < 10 {
        String::new()
    } else {
        to_decimal(n / 10)
    };
    let ghost before = out@;
    out.push(c);
    if n < 10 {
        assert(out@ =~= seq![digit(n as nat)]);
    }
    out
}

/// The number that decimal digits stand for.
pub open spec fn number_of(digits: Seq<char>) -> int
    decreases digits.len(),
{
    if digits.len() == 0 {
        0
    } else {
        number_of(digits.drop_last()) * 10 + (digits.last() as int - '0' as int)
    }
}

/// A number in decimal reads back; it is made of digits, and does not begin with
/// a zero unless it is zero.
pub proof fn law_decimals_read_back(n: nat)
    ensures
        number_of(decimal(n)) == n,
        decimal(n).len() > 0,
        forall|i: int| 0 <= i < decimal(n).len() ==> '0' <= #[trigger] decimal(n)[i] <= '9',
        n > 0 ==> decimal(n)[0] != '0',
    decreases n,
{
    let last = digit(n);
    assert(last as int == 48 + n % 10);
    if n < 10 {
        let one = seq![last];
        assert(one.drop_last() =~= Seq::<char>::empty());
        assert(number_of(one.drop_last()) == 0);
        assert(decimal(n) == one);
    } else {
        let front = decimal(n / 10);
        law_decimals_read_back(n / 10);
        assert(decimal(n) == front.push(last));
        assert(front.push(last).drop_last() =~= front);
    }
}

/// Lower case changes the capital letters of ASCII, each to its small one, and
/// nothing else.
pub proof fn law_lower_case_changes_capitals_only(s: Seq<char>, i: int)
    requires
        0 <= i < s.len(),
    ensures
        lowered(s).len() == s.len(),
        'A' <= s[i] <= 'Z' ==> lowered(s)[i] as int - 'a' as int == s[i] as int - 'A' as int,
        !('A' <= s[i] <= 'Z') ==> lowered(s)[i] == s[i],
{
}

} // verus!
