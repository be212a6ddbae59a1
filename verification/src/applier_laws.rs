//! What holds of every rewrite.

use vstd::prelude::*;

use crate::applier::{
    blank, changed, closes, closing_indent, commented, common_indent, common_prefix, declaration,
    declares, declares_at, described, differs, doc_line, doc_lines, doc_start, hash_end,
    ident_char, indent_lines, indented, inked, lead, lemma_line_start, line_indent, line_start,
    mention, mentions, mentions_at, modified_file, not_hash, outdented, prompt_open, prompt_site,
    raw_close, reindented, replaced_prompt, shared_lead, some_described, solid, space_end,
    stripped, with_descriptions, word_in_block, words,
};
use crate::candidate::{ClassModel, FunctionModel};
use crate::scan::{
    block_end, block_start, ends_block, lemma_block_end_prefix, lemma_block_start_prefix,
    lemma_mode_prefix, lemma_mode_shift, mode_at, nesting_at, opens_block, Mode,
};
use crate::sources::FileModel;
use crate::text::{
    is_space, join, lemma_join_front, lemma_join_split, lemma_join_without, lemma_seek,
    lemma_seek_is, lemma_split_join, lemma_split_nonempty, lemma_split_one, lemma_split_pieces,
    lemma_split_without, occurs_at, seek, split,
};

verus! {

// ---------------------------------------------------------------------------
// Indentation
// ---------------------------------------------------------------------------

/// The white space in front of a line that is not blank is its longest
/// white-space prefix.
proof fn lemma_lead(line: Seq<char>, p: Seq<char>)
    requires
        !blank(line),
    ensures
        blank(lead(line)),
        occurs_at(line, lead(line), 0),
        blank(p) && occurs_at(line, p, 0) ==> occurs_at(lead(line), p, 0),
{
    let end = seek(inked(line), 0, line.len() as int);
    lemma_seek(inked(line), 0, line.len() as int);
    assert forall|i: int| 0 <= i < end implies is_space(#[trigger] line[i]) by {
        assert(!inked(line)(i));
    }
    assert(end < line.len());
    assert(inked(line)(end));
    assert(line.subrange(0, end) =~= lead(line));
    if blank(p) && occurs_at(line, p, 0) {
        if p.len() > end {
            assert(line.subrange(0, p.len() as int)[end] == line[end]);
            assert(is_space(p[end]));
        }
        assert(lead(line).subrange(0, p.len() as int) =~= line.subrange(0, p.len() as int));
    }
}

/// What two texts share is a prefix of both, and the longest.
proof fn lemma_common_prefix(a: Seq<char>, b: Seq<char>, p: Seq<char>)
    ensures
        occurs_at(a, common_prefix(a, b), 0),
        occurs_at(b, common_prefix(a, b), 0),
        occurs_at(a, p, 0) && occurs_at(b, p, 0) ==> occurs_at(common_prefix(a, b), p, 0),
{
    let end = seek(differs(a, b), 0, a.len() as int);
    let c = common_prefix(a, b);
    lemma_seek(differs(a, b), 0, a.len() as int);
    assert forall|i: int| 0 <= i < end implies i < b.len() && a[i] == b[i] by {
        assert(!differs(a, b)(i));
    }
    assert(end > 0 ==> !differs(a, b)(end - 1));
    assert(a.subrange(0, end) =~= c);
    assert(b.subrange(0, end) =~= c);
    if occurs_at(a, p, 0) && occurs_at(b, p, 0) {
        if p.len() > end {
            assert(differs(a, b)(end));
            assert(a.subrange(0, p.len() as int)[end] == a[end]);
            assert(b.subrange(0, p.len() as int)[end] == b[end]);
        }
        assert(c.subrange(0, p.len() as int) =~= a.subrange(0, p.len() as int));
    }
}

/// A prefix of a prefix.
proof fn lemma_prefix_trans(a: Seq<char>, b: Seq<char>, c: Seq<char>)
    requires
        occurs_at(b, a, 0),
        occurs_at(c, b, 0),
    ensures
        occurs_at(c, a, 0),
{
    assert(c.subrange(0, a.len() as int) =~= c.subrange(0, b.len() as int).subrange(
        0,
        a.len() as int,
    ));
}

/// The shared white space of some lines, as a longest shared prefix.
proof fn lemma_shared_lead(lines: Seq<Seq<char>>, p: Seq<char>)
    ensures
        shared_lead(lines) is None <==> forall|k: int|
            0 <= k < lines.len() ==> blank(#[trigger] lines[k]),
        shared_lead(lines) matches Some(q) ==> {
            &&& blank(q)
            &&& forall|k: int|
                0 <= k < lines.len() && !blank(#[trigger] lines[k]) ==> occurs_at(lines[k], q, 0)
            &&& blank(p) && (forall|k: int|
                0 <= k < lines.len() && !blank(#[trigger] lines[k]) ==> occurs_at(lines[k], p, 0))
                ==> occurs_at(q, p, 0)
        },
    decreases lines.len(),
{
    if lines.len() > 0 {
        let front = lines.drop_last();
        let last = lines.last();
        lemma_shared_lead(front, p);
        assert(forall|k: int| 0 <= k < front.len() ==> front[k] == lines[k]);
        assert(lines[lines.len() - 1] == last);
        if !blank(last) {
            lemma_lead(last, p);
            match shared_lead(front) {
                None => {},
                Some(prior) => {
                    let q = common_prefix(prior, lead(last));
                    lemma_common_prefix(prior, lead(last), p);
                    lemma_prefix_trans(q, lead(last), last);
                    assert forall|k: int| 0 <= k < lines.len() && !blank(#[trigger] lines[k]) implies occurs_at(
                        lines[k],
                        q,
                        0,
                    ) by {
                        if k < front.len() {
                            assert(front[k] == lines[k]);
                            lemma_prefix_trans(q, prior, lines[k]);
                        }
                    }
                    assert forall|i: int| 0 <= i < q.len() implies is_space(#[trigger] q[i]) by {
                        assert(prior.subrange(0, q.len() as int)[i] == prior[i]);
                    }
                },
            }
        }
    }
}

/// The common indentation of a text is white space that every line which is
/// not blank begins with, and no longer white space is that: each shared
/// white-space prefix `p` is a prefix of it.
pub proof fn law_common_indent_is_longest(text: Seq<char>, p: Seq<char>)
    ensures
        blank(common_indent(text)),
        forall|k: int|
            0 <= k < split(text, '\n').len() && !blank(#[trigger] split(text, '\n')[k])
                ==> occurs_at(split(text, '\n')[k], common_indent(text), 0),
        blank(p) && (exists|k: int|
            0 <= k < split(text, '\n').len() && !blank(#[trigger] split(text, '\n')[k])) && (forall|
            k: int,
        |
            0 <= k < split(text, '\n').len() && !blank(#[trigger] split(text, '\n')[k])
                ==> occurs_at(split(text, '\n')[k], p, 0)) ==> occurs_at(
            common_indent(text),
            p,
            0,
        ),
{
    lemma_shared_lead(split(text, '\n'), p);
}

/// Every line is empty or has something but white space on it.
pub open spec fn no_padding(lines: Seq<Seq<char>>) -> bool {
    forall|k: int| 0 <= k < lines.len() ==> (#[trigger] lines[k]).len() == 0 || !blank(lines[k])
}

/// The lines with `indent` in front of those that are not empty.
spec fn shifted(lines: Seq<Seq<char>>, indent: Seq<char>) -> Seq<Seq<char>> {
    lines.map_values(|line: Seq<char>| indented(line, indent))
}

/// White space in front of a line lengthens its indentation by as much.
proof fn lemma_lead_shift(line: Seq<char>, indent: Seq<char>)
    requires
        blank(indent),
        !blank(line),
    ensures
        lead(indent + line) == indent + lead(line),
        !blank(indent + line),
{
    let long = indent + line;
    let end = seek(inked(line), 0, line.len() as int);
    lemma_seek(inked(line), 0, line.len() as int);
    let n = indent.len() as int;
    assert(end < line.len()) by {
        let i = choose|i: int| 0 <= i < line.len() && !is_space(#[trigger] line[i]);
        assert(inked(line)(i));
    }
    assert(inked(line)(end));
    assert(long[n + end] == line[end]);
    assert forall|i: int| 0 <= i < n + end implies !#[trigger] inked(long)(i) by {
        if i < n {
            assert(long[i] == indent[i]);
        } else {
            assert(!inked(line)(i - n));
            assert(long[i] == line[i - n]);
        }
    }
    assert(inked(long)(n + end));
    lemma_seek_is(inked(long), 0, long.len() as int, n + end);
    assert(long.take(n + end) =~= indent + line.take(end));
}

/// What two texts share is lengthened by what stands in front of both.
proof fn lemma_common_prefix_shift(a: Seq<char>, b: Seq<char>, indent: Seq<char>)
    ensures
        common_prefix(indent + a, indent + b) == indent + common_prefix(a, b),
{
    let end = seek(differs(a, b), 0, a.len() as int);
    lemma_seek(differs(a, b), 0, a.len() as int);
    let n = indent.len() as int;
    let p = differs(indent + a, indent + b);
    assert forall|i: int| 0 <= i < n + end implies !#[trigger] p(i) by {
        if i >= n {
            assert(!differs(a, b)(i - n));
        }
    }
    if end < a.len() {
        assert(differs(a, b)(end));
        assert(p(n + end));
    }
    lemma_seek_is(p, 0, (indent + a).len() as int, n + end);
    assert((indent + a).take(n + end) =~= indent + a.take(end));
}

/// White space in front of all lines that are not blank lengthens the shared
/// indentation by as much.
proof fn lemma_shared_lead_front(lines: Seq<Seq<char>>, rests: Seq<Seq<char>>, indent: Seq<char>)
    requires
        blank(indent),
        lines.len() == rests.len(),
        forall|k: int|
            0 <= k < lines.len() ==> blank(#[trigger] lines[k]) == blank(rests[k]) && (!blank(
                lines[k],
            ) ==> lines[k] == indent + rests[k]),
    ensures
        shared_lead(lines) == match shared_lead(rests) {
            Some(p) => Some(indent + p),
            None => None,
        },
    decreases lines.len(),
{
    if lines.len() > 0 {
        let front = lines.drop_last();
        let last = rests.last();
        assert(lines[lines.len() - 1] == lines.last());
        assert forall|k: int| 0 <= k < front.len() implies blank(#[trigger] front[k]) == blank(
            rests.drop_last()[k],
        ) && (!blank(front[k]) ==> front[k] == indent + rests.drop_last()[k]) by {
            assert(front[k] == lines[k]);
        }
        lemma_shared_lead_front(front, rests.drop_last(), indent);
        if !blank(last) {
            lemma_lead_shift(last, indent);
            match shared_lead(rests.drop_last()) {
                Some(p) => {
                    lemma_common_prefix_shift(p, lead(last), indent);
                },
                None => {},
            }
        }
    }
}

/// Indenting a line does not change whether it is blank.
proof fn lemma_indented_blank(line: Seq<char>, indent: Seq<char>)
    requires
        blank(indent),
    ensures
        blank(indented(line, indent)) == blank(line),
        !blank(line) ==> indented(line, indent) == indent + line,
{
    let long = indented(line, indent);
    if blank(line) {
        assert forall|i: int| 0 <= i < long.len() implies is_space(#[trigger] long[i]) by {
            if line.len() > 0 {
                if i < indent.len() {
                    assert(long[i] == indent[i]);
                } else {
                    assert(long[i] == line[i - indent.len()]);
                }
            }
        }
    } else {
        lemma_lead_shift(line, indent);
    }
}

/// Neither indenting nor taking indentation off brings in a character that
/// was not there.
proof fn lemma_indented_without(line: Seq<char>, indent: Seq<char>, c: char)
    requires
        !line.contains(c),
    ensures
        !indent.contains(c) ==> !indented(line, indent).contains(c),
        !outdented(line, indent).contains(c),
{
    let long = indented(line, indent);
    if !indent.contains(c) && long.contains(c) {
        let j = choose|j: int| 0 <= j < long.len() && long[j] == c;
        if line.len() > 0 {
            if j < indent.len() {
                assert(indent[j] == c);
            } else {
                assert(line[j - indent.len()] == c);
            }
        }
    }
    let short = outdented(line, indent);
    if short.contains(c) {
        let j = choose|j: int| 0 <= j < short.len() && short[j] == c;
        assert(line[j + (line.len() - short.len())] == c);
    }
}

/// The indented lines of a text are the lines of the indented text.
proof fn lemma_indent_lines(text: Seq<char>, indent: Seq<char>)
    requires
        !indent.contains('\n'),
    ensures
        split(indent_lines(text, indent), '\n') == shifted(split(text, '\n'), indent),
{
    let lines = split(text, '\n');
    let more = shifted(lines, indent);
    lemma_split_nonempty(text, '\n');
    lemma_split_pieces(text, '\n');
    assert forall|k: int| 0 <= k < more.len() implies !(#[trigger] more[k]).contains('\n') by {
        assert(!lines[k].contains('\n'));
        lemma_indented_without(lines[k], indent, '\n');
    }
    lemma_split_join(more, '\n');
    assert(more =~= lines.map_values(|line: Seq<char>| indented(line, indent)));
}

/// The lines of a text without `indent` in front of those that have it.
spec fn unshifted(lines: Seq<Seq<char>>, indent: Seq<char>) -> Seq<Seq<char>> {
    lines.map_values(|line: Seq<char>| outdented(line, indent))
}

/// The lines of a stripped text are the lines of the text, stripped.
proof fn lemma_stripped_lines(text: Seq<char>)
    ensures
        split(stripped(text), '\n') == unshifted(split(text, '\n'), common_indent(text)),
{
    let lines = split(text, '\n');
    let indent = common_indent(text);
    let less = unshifted(lines, indent);
    lemma_split_nonempty(text, '\n');
    lemma_split_pieces(text, '\n');
    assert forall|k: int| 0 <= k < less.len() implies !(#[trigger] less[k]).contains('\n') by {
        assert(!lines[k].contains('\n'));
        lemma_indented_without(lines[k], indent, '\n');
    }
    lemma_split_join(less, '\n');
    assert(less =~= lines.map_values(|line: Seq<char>| outdented(line, indent)));
}

/// The common indentation is white space, and its characters come from the
/// text.
proof fn lemma_common_indent(text: Seq<char>)
    ensures
        blank(common_indent(text)),
        !common_indent(text).contains('\n'),
{
    let lines = split(text, '\n');
    let indent = common_indent(text);
    lemma_split_pieces(text, '\n');
    lemma_shared_lead(lines, Seq::empty());
    if indent.contains('\n') {
        let j = choose|j: int| 0 <= j < indent.len() && indent[j] == '\n';
        let k = choose|k: int| 0 <= k < lines.len() && !blank(#[trigger] lines[k]);
        assert(lines[k].subrange(0, indent.len() as int)[j] == lines[k][j]);
        assert(lines[k].contains('\n'));
    }
}

/// A line and what is left of it without the common indentation.
proof fn lemma_outdented(text: Seq<char>, k: int)
    requires
        0 <= k < split(text, '\n').len(),
    ensures
        ({
            let line = split(text, '\n')[k];
            let rest = outdented(line, common_indent(text));
            &&& blank(line) == blank(rest)
            &&& !blank(line) ==> line == common_indent(text) + rest
        }),
{
    let lines = split(text, '\n');
    let line = lines[k];
    let indent = common_indent(text);
    let rest = outdented(line, indent);
    lemma_shared_lead(lines, Seq::empty());
    lemma_common_indent(text);
    if blank(line) {
        assert forall|i: int| 0 <= i < rest.len() implies is_space(#[trigger] rest[i]) by {
            assert(rest[i] == line[i + (line.len() - rest.len())]);
        }
    } else {
        assert(occurs_at(line, indent, 0));
        assert(line =~= indent + rest) by {
            assert forall|i: int| 0 <= i < indent.len() implies line[i] == indent[i] by {
                assert(line.subrange(0, indent.len() as int)[i] == line[i]);
            }
        }
        if blank(rest) {
            assert forall|i: int| 0 <= i < line.len() implies is_space(#[trigger] line[i]) by {
                if i < indent.len() {
                    assert(line[i] == indent[i]);
                } else {
                    assert(line[i] == rest[i - indent.len()]);
                }
            }
        }
    }
}

/// Taking off what was put on.
proof fn lemma_outdented_shift(line: Seq<char>, common: Seq<char>, indent: Seq<char>)
    requires
        occurs_at(line, common, 0),
    ensures
        outdented(indent + line, indent + common) == outdented(line, common),
{
    let long = indent + line;
    let whole = indent + common;
    assert(long.subrange(0, whole.len() as int) =~= indent + line.subrange(
        0,
        common.len() as int,
    ));
    assert(occurs_at(long, whole, 0));
    assert(long.skip(whole.len() as int) =~= line.skip(common.len() as int));
}

/// There is nothing to take off an empty line.
proof fn lemma_outdented_empty(line: Seq<char>, common: Seq<char>)
    requires
        line.len() == 0,
    ensures
        outdented(line, common) == line,
{
    assert(outdented(line, common) =~= line);
}

/// How a prompt is indented as a whole does not matter: with white space put in
/// front of all its lines, the text that it is rewritten to is the same. Lines
/// of nothing but white space count as text here, so there must be none.
pub proof fn law_reindent_ignores_uniform_indent(
    original: Seq<char>,
    new_prompt: Seq<char>,
    indent: Seq<char>,
)
    requires
        blank(indent),
        !indent.contains('\n'),
        no_padding(split(new_prompt, '\n')),
    ensures
        reindented(original, indent_lines(new_prompt, indent)) == reindented(original, new_prompt),
{
    let lines = split(new_prompt, '\n');
    let more = shifted(lines, indent);
    let text = indent_lines(new_prompt, indent);
    lemma_indent_lines(new_prompt, indent);
    assert forall|k: int| 0 <= k < more.len() implies blank(#[trigger] more[k]) == blank(lines[k])
        && (!blank(more[k]) ==> more[k] == indent + lines[k]) by {
        lemma_indented_blank(lines[k], indent);
    }
    lemma_shared_lead_front(more, lines, indent);
    let before = lines.map_values(|line: Seq<char>| outdented(line, common_indent(new_prompt)));
    let after = more.map_values(|line: Seq<char>| outdented(line, common_indent(text)));
    assert forall|k: int| 0 <= k < lines.len() implies after[k] == before[k] by {
        if lines[k].len() > 0 {
            lemma_shared_lead(lines, Seq::empty());
            assert(!blank(lines[k]));
            assert(shared_lead(lines) is Some);
            lemma_outdented_shift(lines[k], common_indent(new_prompt), indent);
        } else {
            assert(more[k] == lines[k]);
            lemma_outdented_empty(lines[k], common_indent(text));
            lemma_outdented_empty(lines[k], common_indent(new_prompt));
        }
    }
    assert(after =~= before);
}

/// Stripping undoes indenting: white space put in front of all lines of a text
/// that has no indentation of its own is what stripping takes off again. The
/// indented text has as many lines as the text, and the same of them are empty.
pub proof fn law_stripping_undoes_indenting(text: Seq<char>, indent: Seq<char>)
    requires
        blank(indent),
        !indent.contains('\n'),
        common_indent(text).len() == 0,
        exists|k: int|
            0 <= k < split(text, '\n').len() && !blank(#[trigger] split(text, '\n')[k]),
    ensures
        stripped(indent_lines(text, indent)) == text,
        split(indent_lines(text, indent), '\n').len() == split(text, '\n').len(),
        forall|k: int|
            0 <= k < split(text, '\n').len() ==> ((#[trigger] split(
                indent_lines(text, indent),
                '\n',
            )[k]).len() == 0 <==> split(text, '\n')[k].len() == 0),
{
    let lines = split(text, '\n');
    let more = shifted(lines, indent);
    let long = indent_lines(text, indent);
    lemma_indent_lines(text, indent);
    assert forall|k: int| 0 <= k < more.len() implies blank(#[trigger] more[k]) == blank(lines[k])
        && (!blank(more[k]) ==> more[k] == indent + lines[k]) by {
        lemma_indented_blank(lines[k], indent);
    }
    lemma_shared_lead_front(more, lines, indent);
    lemma_shared_lead(lines, Seq::empty());
    assert(common_indent(long) =~= indent);
    let back = more.map_values(|line: Seq<char>| outdented(line, indent));
    assert forall|k: int| 0 <= k < lines.len() implies back[k] == lines[k] by {
        if lines[k].len() == 0 {
            lemma_outdented_empty(lines[k], indent);
        } else {
            assert(more[k].subrange(0, indent.len() as int) =~= indent);
            assert(more[k].skip(indent.len() as int) =~= lines[k]);
        }
    }
    assert(back =~= lines);
    lemma_join_split(text, '\n');
}

/// The lines that a prompt is rewritten to, between the first and the last
/// line of the shape.
spec fn shaped(original: Seq<char>, new_prompt: Seq<char>) -> Seq<Seq<char>> {
    shifted(
        unshifted(split(new_prompt, '\n'), common_indent(new_prompt)),
        common_indent(original),
    )
}

/// The rewritten lines: they are the lines of the rewritten text, blank where
/// the new prompt is, and share the indentation of the original.
proof fn lemma_shaped(original: Seq<char>, new_prompt: Seq<char>)
    ensures
        shaped(original, new_prompt).len() == split(new_prompt, '\n').len(),
        indent_lines(stripped(new_prompt), common_indent(original)) == join(
            shaped(original, new_prompt),
            seq!['\n'],
        ),
        forall|k: int|
            0 <= k < split(new_prompt, '\n').len() ==> {
                &&& blank(#[trigger] shaped(original, new_prompt)[k]) == blank(
                    split(new_prompt, '\n')[k],
                )
                &&& !shaped(original, new_prompt)[k].contains('\n')
            },
        shared_lead(split(new_prompt, '\n')) is Some ==> shared_lead(
            shaped(original, new_prompt),
        ) == Some(common_indent(original)),
{
    let lines = split(new_prompt, '\n');
    let own = common_indent(new_prompt);
    let indent = common_indent(original);
    let rests = unshifted(lines, own);
    let more = shaped(original, new_prompt);
    lemma_common_indent(new_prompt);
    lemma_common_indent(original);
    lemma_stripped_lines(new_prompt);
    lemma_indent_lines(stripped(new_prompt), indent);
    lemma_split_pieces(new_prompt, '\n');
    lemma_join_split(indent_lines(stripped(new_prompt), indent), '\n');
    assert forall|k: int| 0 <= k < lines.len() implies {
        &&& blank(#[trigger] more[k]) == blank(lines[k])
        &&& blank(more[k]) == blank(rests[k])
        &&& !more[k].contains('\n')
        &&& !blank(more[k]) ==> more[k] == indent + rests[k]
    } by {
        lemma_outdented(new_prompt, k);
        lemma_indented_blank(rests[k], indent);
        assert(!lines[k].contains('\n'));
        lemma_indented_without(lines[k], own, '\n');
        lemma_indented_without(rests[k], indent, '\n');
    }
    assert forall|k: int| 0 <= k < lines.len() implies blank(#[trigger] lines[k]) == blank(rests[k])
        && (!blank(lines[k]) ==> lines[k] == own + rests[k]) by {
        lemma_outdented(new_prompt, k);
    }
    lemma_shared_lead_front(lines, rests, own);
    lemma_shared_lead_front(more, rests, indent);
    if shared_lead(lines) is Some {
        let q = shared_lead(rests)->0;
        assert(own == own + q);
        assert(q.len() == 0);
        assert(indent + q =~= indent);
    }
}

/// A blank line in front does not change what the lines share.
proof fn lemma_shared_lead_blank_first(first: Seq<char>, lines: Seq<Seq<char>>)
    requires
        blank(first),
    ensures
        shared_lead(seq![first] + lines) == shared_lead(lines),
    decreases lines.len(),
{
    let all = seq![first] + lines;
    if lines.len() == 0 {
        assert(all.drop_last() =~= lines);
        assert(all.last() == first);
    } else {
        assert(all.drop_last() =~= seq![first] + lines.drop_last());
        assert(all.last() == lines.last());
        lemma_shared_lead_blank_first(first, lines.drop_last());
    }
}

/// The lines of a rewritten prompt whose first and last lines are not blank.
proof fn lemma_reindented_lines(original: Seq<char>, new_prompt: Seq<char>)
    requires
        !blank(split(new_prompt, '\n')[0]),
        !blank(split(new_prompt, '\n').last()),
    ensures
        ({
            let more = shaped(original, new_prompt);
            let top = if original.len() > 0 && original[0] == '\n' {
                seq![Seq::<char>::empty()] + more
            } else {
                more
            };
            let all = match closing_indent(original) {
                Some(tail) => top.push(tail),
                None => top,
            };
            let out = reindented(original, new_prompt);
            &&& out == join(all, seq!['\n'])
            &&& split(out, '\n') == all
            &&& out.len() > 0
            &&& (out[0] == '\n' <==> original.len() > 0 && original[0] == '\n')
        }),
{
    let sep = seq!['\n'];
    let more = shaped(original, new_prompt);
    let body = indent_lines(stripped(new_prompt), common_indent(original));
    let none = Seq::<char>::empty();
    let leads = original.len() > 0 && original[0] == '\n';
    let top = if leads {
        seq![none] + more
    } else {
        more
    };
    let out = if leads {
        sep + body
    } else {
        body
    };
    lemma_split_nonempty(new_prompt, '\n');
    lemma_shaped(original, new_prompt);
    let n = more.len() as int;
    assert(!blank(more[0]) && !blank(more[n - 1]));
    assert(!more[0].contains('\n') && !more[n - 1].contains('\n'));
    assert(more[0].len() > 0 && more[n - 1].len() > 0);
    // The text begins and ends with something but a line break.
    assert(body.len() > 0 && body[0] == more[0][0]) by {
        if n > 1 {
            let later = more.skip(1);
            assert(more =~= seq![more[0]] + later);
            lemma_join_front(more[0], later, sep);
        }
    }
    assert(body.last() == more[n - 1].last()) by {
        if n > 1 {
            assert(body == join(more.drop_last(), sep) + sep + more.last());
        }
    }
    assert(more[0][0] != '\n');
    assert(more[n - 1][more[n - 1].len() - 1] != '\n');
    assert(out == join(top, sep)) by {
        if leads {
            lemma_join_front(none, more, sep);
            assert(none + sep + body =~= sep + body);
        }
    }
    assert(out.last() == body.last());
    let lines = split(original, '\n');
    lemma_split_pieces(original, '\n');
    let all = match closing_indent(original) {
        Some(tail) => top.push(tail),
        None => top,
    };
    match closing_indent(original) {
        Some(tail) => {
            assert(all.drop_last() =~= top);
            assert(out.push('\n') + tail =~= out + sep + tail);
            assert(reindented(original, new_prompt) == out.push('\n') + tail);
            assert(!lines[lines.len() - 1].contains('\n'));
        },
        None => {},
    }
    assert(reindented(original, new_prompt) == join(all, sep));
    assert forall|k: int| 0 <= k < all.len() implies !(#[trigger] all[k]).contains('\n') by {
        let shift: int = if leads {
            1
        } else {
            0
        };
        if leads && k == 0 {
            assert(all[k] == none);
        } else if k - shift < n {
            assert(all[k] == more[k - shift]);
            assert(!more[k - shift].contains('\n'));
        }
    }
    lemma_split_join(all, '\n');
}

/// A prompt whose first and last lines are not blank keeps its shape when it
/// takes its own place.
proof fn lemma_reindented_again(original: Seq<char>, new_prompt: Seq<char>)
    requires
        !blank(split(new_prompt, '\n')[0]),
        !blank(split(new_prompt, '\n').last()),
    ensures
        reindented(reindented(original, new_prompt), new_prompt) == reindented(
            original,
            new_prompt,
        ),
{
    let out = reindented(original, new_prompt);
    let more = shaped(original, new_prompt);
    let lines = split(out, '\n');
    lemma_split_nonempty(new_prompt, '\n');
    lemma_shaped(original, new_prompt);
    lemma_reindented_lines(original, new_prompt);
    lemma_shared_lead(split(new_prompt, '\n'), Seq::empty());
    assert(shared_lead(more) == Some(common_indent(original)));
    lemma_shared_lead_blank_first(Seq::empty(), more);
    let top = if original.len() > 0 && original[0] == '\n' {
        seq![Seq::<char>::empty()] + more
    } else {
        more
    };
    match closing_indent(original) {
        Some(tail) => {
            assert(lines.drop_last() =~= top);
            assert(lines.last() == tail);
        },
        None => {
            assert(lines == top);
            assert(lines.last() == more[more.len() - 1]);
        },
    }
    assert(common_indent(out) == common_indent(original));
    assert(closing_indent(out) == closing_indent(original));
}

/// White space holds no quote.
proof fn lemma_blank_no_quote(line: Seq<char>)
    requires
        blank(line),
    ensures
        !line.contains('"'),
{
    if line.contains('"') {
        let j = choose|j: int| 0 <= j < line.len() && line[j] == '"';
        assert(is_space(line[j]));
    }
}

/// A rewritten prompt holds a quote only if the new prompt does.
proof fn lemma_reindented_no_quote(original: Seq<char>, new_prompt: Seq<char>)
    requires
        !blank(split(new_prompt, '\n')[0]),
        !blank(split(new_prompt, '\n').last()),
        !new_prompt.contains('"'),
    ensures
        !reindented(original, new_prompt).contains('"'),
{
    let more = shaped(original, new_prompt);
    let pieces = split(new_prompt, '\n');
    let own = common_indent(new_prompt);
    let indent = common_indent(original);
    lemma_reindented_lines(original, new_prompt);
    lemma_shaped(original, new_prompt);
    lemma_common_indent(original);
    lemma_blank_no_quote(indent);
    lemma_split_without(new_prompt, '\n', '"');
    let all = split(reindented(original, new_prompt), '\n');
    let leads = original.len() > 0 && original[0] == '\n';
    let shift: int = if leads {
        1
    } else {
        0
    };
    assert forall|k: int| 0 <= k < all.len() implies !(#[trigger] all[k]).contains('"') by {
        if leads && k == 0 {
            assert(all[k] == Seq::<char>::empty());
        } else if k - shift < more.len() {
            assert(all[k] == more[k - shift]);
            assert(!pieces[k - shift].contains('"'));
            lemma_indented_without(pieces[k - shift], own, '"');
            lemma_indented_without(outdented(pieces[k - shift], own), indent, '"');
        } else {
            lemma_blank_no_quote(all[k]);
        }
    }
    lemma_join_without(all, seq!['\n'], '"');
}

/// A text on one line in the place of another: it takes over the indentation.
proof fn lemma_reindented_line(original: Seq<char>, new_prompt: Seq<char>)
    requires
        !original.contains('\n'),
        !new_prompt.contains('\n'),
    ensures
        common_indent(original) == if blank(original) {
            Seq::<char>::empty()
        } else {
            lead(original)
        },
        reindented(original, new_prompt) == indented(
            outdented(new_prompt, common_indent(new_prompt)),
            common_indent(original),
        ),
        !reindented(original, new_prompt).contains('\n'),
{
    lemma_split_one(original, '\n');
    lemma_split_one(new_prompt, '\n');
    let lines = seq![original];
    assert(lines.drop_last() =~= Seq::<Seq<char>>::empty());
    assert(lines.last() == original);
    assert(shared_lead(lines.drop_last()) is None);
    let own = common_indent(new_prompt);
    let indent = common_indent(original);
    let rest = outdented(new_prompt, own);
    lemma_common_indent(original);
    lemma_indented_without(new_prompt, own, '\n');
    lemma_indented_without(rest, indent, '\n');
    assert(seq![new_prompt].map_values(|line: Seq<char>| outdented(line, own)) =~= seq![rest]);
    assert(stripped(new_prompt) == rest);
    lemma_split_one(rest, '\n');
    assert(seq![rest].map_values(|line: Seq<char>| indented(line, indent)) =~= seq![
        indented(rest, indent),
    ]);
    assert(indent_lines(rest, indent) == indented(rest, indent));
    assert(original.len() > 0 ==> original[0] != '\n');
}

/// A line that loses its own indentation and gets it back is as before.
proof fn lemma_line_restored(line: Seq<char>)
    requires
        !line.contains('\n'),
    ensures
        indented(outdented(line, common_indent(line)), common_indent(line)) == line,
{
    lemma_reindented_line(line, line);
    lemma_split_one(line, '\n');
    lemma_outdented(line, 0);
    let indent = common_indent(line);
    if blank(line) {
        assert(line.subrange(0, 0) =~= indent);
        assert(outdented(line, indent) =~= line);
        assert(indented(line, indent) =~= line);
    } else {
        assert(outdented(line, indent).len() > 0);
    }
}

/// A line that has made way for another takes its place again.
proof fn lemma_line_swapped_back(original: Seq<char>, new_prompt: Seq<char>)
    requires
        !original.contains('\n'),
        !new_prompt.contains('\n'),
        !blank(new_prompt),
    ensures
        reindented(reindented(original, new_prompt), original) == original,
{
    let body = reindented(original, new_prompt);
    let indent = common_indent(original);
    let rest = outdented(new_prompt, common_indent(new_prompt));
    lemma_reindented_line(original, new_prompt);
    lemma_reindented_line(new_prompt, new_prompt);
    lemma_split_one(new_prompt, '\n');
    lemma_outdented(new_prompt, 0);
    lemma_common_indent(original);
    lemma_common_indent(new_prompt);
    lemma_lead_shift(rest, indent);
    lemma_lead_shift(rest, lead(new_prompt));
    assert(lead(new_prompt) == lead(new_prompt) + lead(rest));
    assert(lead(rest).len() == 0);
    assert(rest.len() > 0);
    assert(body == indent + rest);
    assert(lead(body) =~= indent);
    lemma_reindented_line(body, original);
    lemma_line_restored(original);
}

// ---------------------------------------------------------------------------
// Searches in texts that agree
// ---------------------------------------------------------------------------

/// The same search in two places.
proof fn lemma_seek_shift(
    p: spec_fn(int) -> bool,
    q: spec_fn(int) -> bool,
    from: int,
    end: int,
    shift: int,
)
    requires
        from <= end,
        forall|j: int| from <= j < end ==> #[trigger] p(j) == q(j + shift),
    ensures
        seek(q, from + shift, end + shift) == seek(p, from, end) + shift,
    decreases end - from,
{
    if from < end {
        assert(p(from) == q(from + shift));
        if !p(from) {
            lemma_seek_shift(p, q, from + 1, end, shift);
        }
    }
}

/// White space that ends where two texts still agree ends there in both.
proof fn lemma_space_end_prefix(s: Seq<char>, t: Seq<char>, from: int, n: int)
    requires
        0 <= from <= s.len(),
        space_end(s, from) < n <= s.len(),
        n <= t.len(),
        forall|j: int| 0 <= j < n ==> s[j] == t[j],
    ensures
        space_end(t, from) == space_end(s, from),
{
    let r = space_end(s, from);
    lemma_seek(solid(s), from, s.len() as int);
    assert forall|j: int| from <= j < r implies !#[trigger] solid(t)(j) by {
        assert(!solid(s)(j));
    }
    assert(solid(s)(r));
    lemma_seek_is(solid(t), from, t.len() as int, r);
}

/// A word that stands where two texts agree stands in both.
proof fn lemma_occurs_prefix(s: Seq<char>, t: Seq<char>, w: Seq<char>, i: int, n: int)
    requires
        0 <= n <= s.len(),
        n <= t.len(),
        forall|j: int| 0 <= j < n ==> s[j] == t[j],
        i + w.len() <= n,
    ensures
        occurs_at(s, w, i) == occurs_at(t, w, i),
{
    if 0 <= i {
        assert(s.subrange(i, i + w.len()) =~= t.subrange(i, i + w.len()));
    }
}

/// The line start is the one position behind a line break, or the first, with
/// no line break from there on.
proof fn lemma_line_start_is(s: Seq<char>, pos: int, r: int)
    requires
        0 <= r <= pos,
        r > 0 ==> s[r - 1] == '\n',
        forall|i: int| r <= i < pos ==> s[i] != '\n',
    ensures
        line_start(s, pos) == r,
    decreases pos,
{
    if r < pos {
        assert(s[pos - 1] != '\n');
        lemma_line_start_is(s, pos - 1, r);
    }
}

/// A declaration whose name ends before the texts part is one in both.
proof fn lemma_declares_prefix(
    s: Seq<char>,
    t: Seq<char>,
    keyword: Seq<char>,
    name: Seq<char>,
    i: int,
    n: int,
)
    requires
        0 <= n <= s.len(),
        n <= t.len(),
        forall|j: int| 0 <= j < n ==> s[j] == t[j],
        declares_at(s, keyword, name, i),
        space_end(s, i + keyword.len()) + name.len() < n,
    ensures
        declares_at(t, keyword, name, i),
{
    let at = space_end(s, i + keyword.len());
    lemma_space_end_prefix(s, t, i + keyword.len(), n);
    lemma_occurs_prefix(s, t, keyword, i, n);
    lemma_occurs_prefix(s, t, name, at, n);
    lemma_mode_prefix(s, t, i);
}

/// Two texts that agree up to the opening of a function's prompt agree on
/// where it opens.
proof fn lemma_prompt_open_prefix(s: Seq<char>, t: Seq<char>, name: Seq<char>)
    requires
        prompt_open(s, name) is Some,
        !name.contains('"'),
        (prompt_open(s, name)->0).0 <= t.len(),
        forall|j: int| 0 <= j < (prompt_open(s, name)->0).0 ==> s[j] == t[j],
    ensures
        prompt_open(t, name) == prompt_open(s, name),
        0 <= (prompt_open(s, name)->0).0 <= s.len(),
        (prompt_open(s, name)->0).1 >= 1,
{
    reveal_strlit("function");
    reveal_strlit("prompt");
    let function = "function"@;
    let prompt = "prompt"@;
    let len = s.len() as int;
    let (open, hashes) = prompt_open(s, name)->0;
    let start = declaration(s, function, name)->0;
    lemma_seek(declares(s, function, name), 0, len);
    assert(declares(s, function, name)(start));
    let at = space_end(s, start + 8);
    lemma_seek(solid(s), start + 8, len);
    let keyword = word_in_block(s, prompt, start)->0;
    let end = block_end(s, start);
    lemma_seek(ends_block(s, start), start, len);
    let brace = block_start(s, start);
    lemma_seek(opens_block(s, start), start, len);
    lemma_seek(words(s, prompt), brace + 1, end);
    assert(words(s, prompt)(keyword));
    let run = space_end(s, keyword + 6);
    lemma_seek(solid(s), keyword + 6, len);
    let quote = hash_end(s, run);
    lemma_seek(not_hash(s), run, len);
    assert(open == quote + 1);
    assert(s.subrange(keyword, keyword + 6)[0] == s[keyword]);
    assert(s.subrange(start, start + 8) == function);
    assert forall|k: int| 0 <= k < 8 implies s[start + k] == #[trigger] function[k] by {
        assert(s.subrange(start, start + 8)[k] == s[start + k]);
    }
    assert(keyword >= at) by {
        if keyword < at {
            if keyword >= start + 8 {
                assert(!solid(s)(keyword));
            } else {
                assert(s[start + (keyword - start)] == function[keyword - start]);
            }
        }
    }
    assert(at + name.len() <= quote) by {
        if at + name.len() > quote {
            assert(s.subrange(at, at + name.len())[quote - at] == s[quote]);
            assert(name[quote - at] == '"');
        }
    }
    assert(declares_at(t, function, name, start)) by {
        lemma_declares_prefix(s, t, function, name, start, open);
    }
    assert forall|i: int| 0 <= i < start implies !#[trigger] declares(t, function, name)(i) by {
        if declares_at(t, function, name, i) {
            assert forall|k: int| 0 <= k < 8 implies t[i + k] == #[trigger] function[k] by {
                assert(t.subrange(i, i + 8)[k] == t[i + k]);
            }
            assert(s[start + 0] == function[0]);
            assert(i + 8 <= start) by {
                if i + 8 > start {
                    assert(t[i + (start - i)] == function[start - i]);
                }
            }
            lemma_seek(solid(t), i + 8, t.len() as int);
            assert(space_end(t, i + 8) <= start) by {
                if space_end(t, i + 8) > start {
                    assert(!solid(t)(start));
                }
            }
            lemma_declares_prefix(t, s, function, name, i, open);
            assert(declares(s, function, name)(i));
        }
    }
    assert(declares(t, function, name)(start));
    lemma_seek_is(declares(t, function, name), 0, t.len() as int, start);
    lemma_occurs_prefix(s, t, prompt, keyword, open);
    assert(words(t, prompt)(keyword));
    assert forall|i: int| brace < i < keyword implies !#[trigger] words(t, prompt)(i) by {
        assert(!words(s, prompt)(i));
        lemma_occurs_prefix(s, t, prompt, i, open);
    }
    lemma_block_start_prefix(s, t, start, keyword);
    lemma_block_end_prefix(s, t, start, keyword + 1);
    lemma_seek_is(words(t, prompt), brace + 1, block_end(t, start), keyword);
    lemma_space_end_prefix(s, t, keyword + 6, open);
    assert forall|j: int| run <= j < quote implies !#[trigger] not_hash(t)(j) by {
        assert(!not_hash(s)(j));
    }
    assert(not_hash(t)(quote));
    lemma_seek_is(not_hash(t), run, t.len() as int, quote);
}

/// Where the prompt text is spliced in, it ends where it should: at the first
/// quote with the right number of `#`.
proof fn lemma_spliced_close(
    s: Seq<char>,
    open: int,
    close: int,
    body: Seq<char>,
    hashes: int,
)
    requires
        0 <= open <= close < s.len(),
        closes(s, hashes)(close),
        raw_close(body, 0, hashes) is None,
    ensures
        raw_close(s.take(open) + body + s.skip(close), open, hashes) == Some(
            open + body.len(),
        ),
{
    let t = s.take(open) + body + s.skip(close);
    let end = open + body.len();
    let shift = end - close;
    assert(t[end] == s[close]);
    assert(t.len() == s.len() + shift);
    lemma_seek(closes(body, hashes), 0, body.len() as int);
    assert forall|i: int| open <= i < end implies !#[trigger] closes(t, hashes)(i) by {
        let k = i - open;
        assert(t[i] == body[k]);
        let r = hash_end(body, k + 1);
        lemma_seek(not_hash(body), k + 1, body.len() as int);
        assert forall|j: int| i + 1 <= j < open + r implies !#[trigger] not_hash(t)(j) by {
            assert(!not_hash(body)(j - open));
            assert(t[j] == body[j - open]);
        }
        if r < body.len() {
            assert(not_hash(body)(r));
            assert(t[open + r] == body[r]);
        }
        assert(not_hash(t)(open + r));
        lemma_seek_is(not_hash(t), i + 1, t.len() as int, open + r);
        assert(!closes(body, hashes)(k));
    }
    assert forall|j: int| close + 1 <= j < s.len() implies #[trigger] not_hash(s)(j) == not_hash(
        t,
    )(j + shift) by {
        assert(t[j + shift] == s[j]);
    }
    lemma_seek_shift(not_hash(s), not_hash(t), close + 1, s.len() as int, shift);
    assert(closes(t, hashes)(end));
    lemma_seek_is(closes(t, hashes), open, t.len() as int, end);
}

/// A text without a quote closes no raw string.
proof fn lemma_no_close(body: Seq<char>, hashes: int)
    requires
        !body.contains('"'),
    ensures
        raw_close(body, 0, hashes) is None,
{
    assert forall|i: int| 0 <= i < body.len() implies !#[trigger] closes(body, hashes)(i) by {
        assert(body[i] != '"');
    }
    lemma_seek_is(closes(body, hashes), 0, body.len() as int, body.len() as int);
}

/// A replaced prompt reads back: in the rewritten text, the prompt of the
/// function is the new one, and the text in front of it and behind it is
/// unchanged. The new text must not hold the closing delimiter, and the
/// function's name no quote.
pub proof fn law_prompt_reads_back(s: Seq<char>, name: Seq<char>, new_prompt: Seq<char>)
    requires
        replaced_prompt(s, name, new_prompt) is Some,
        !name.contains('"'),
        ({
            let (open, close) = prompt_site(s, name)->0;
            raw_close(
                reindented(s.subrange(open, close), new_prompt),
                0,
                (prompt_open(s, name)->0).1,
            ) is None
        }),
    ensures
        ({
            let (open, close) = prompt_site(s, name)->0;
            let body = reindented(s.subrange(open, close), new_prompt);
            let out = replaced_prompt(s, name, new_prompt)->0;
            &&& prompt_site(out, name) == Some((open, open + body.len()))
            &&& out.subrange(open, open + body.len()) == body
            &&& out.take(open) == s.take(open)
            &&& out.skip(open + body.len()) == s.skip(close)
        }),
{
    let (open, close) = prompt_site(s, name)->0;
    let hashes = (prompt_open(s, name)->0).1;
    let body = reindented(s.subrange(open, close), new_prompt);
    let out = s.take(open) + body + s.skip(close);
    lemma_prompt_open_prefix(s, s, name);
    lemma_seek(closes(s, hashes), open, s.len() as int);
    assert(out =~= replaced_prompt(s, name, new_prompt)->0);
    lemma_prompt_open_prefix(s, out, name);
    lemma_spliced_close(s, open, close, body, hashes);
    assert(out.subrange(open, open + body.len()) =~= body);
    assert(out.take(open) =~= s.take(open));
    assert(out.skip(open + body.len()) =~= s.skip(close));
}

/// A prompt on one line that is proposed anew is left alone.
pub proof fn law_same_line_changes_nothing(s: Seq<char>, name: Seq<char>)
    requires
        prompt_site(s, name) is Some,
        ({
            let (open, close) = prompt_site(s, name)->0;
            !s.subrange(open, close).contains('\n')
        }),
    ensures
        ({
            let (open, close) = prompt_site(s, name)->0;
            replaced_prompt(s, name, s.subrange(open, close)) is None
        }),
{
    let (open, close) = prompt_site(s, name)->0;
    let body = s.subrange(open, close);
    lemma_reindented_line(body, body);
    lemma_line_restored(body);
}

/// Rewriting twice is rewriting once: where a prompt without a quote, whose
/// first and last lines are not blank, has been put in place, putting it there
/// again changes nothing. The function's name must hold no quote.
pub proof fn law_rewriting_again_changes_nothing(
    s: Seq<char>,
    name: Seq<char>,
    new_prompt: Seq<char>,
)
    requires
        replaced_prompt(s, name, new_prompt) is Some,
        !name.contains('"'),
        !new_prompt.contains('"'),
        !blank(split(new_prompt, '\n')[0]),
        !blank(split(new_prompt, '\n').last()),
    ensures
        replaced_prompt(replaced_prompt(s, name, new_prompt)->0, name, new_prompt) is None,
{
    let (open, close) = prompt_site(s, name)->0;
    let original = s.subrange(open, close);
    let body = reindented(original, new_prompt);
    lemma_reindented_no_quote(original, new_prompt);
    lemma_no_close(body, (prompt_open(s, name)->0).1);
    law_prompt_reads_back(s, name, new_prompt);
    lemma_reindented_again(original, new_prompt);
}

/// Putting an old prompt back restores the file: where a prompt on one line
/// has made way for another on one line, with no quote and not blank, the old
/// prompt gives the old file again. The function's name must hold no quote.
#[verifier::rlimit(50)]
pub proof fn law_old_line_restores(s: Seq<char>, name: Seq<char>, new_prompt: Seq<char>)
    requires
        replaced_prompt(s, name, new_prompt) is Some,
        !name.contains('"'),
        !new_prompt.contains('"'),
        !new_prompt.contains('\n'),
        !blank(new_prompt),
        ({
            let (open, close) = prompt_site(s, name)->0;
            !s.subrange(open, close).contains('\n')
        }),
    ensures
        ({
            let (open, close) = prompt_site(s, name)->0;
            replaced_prompt(
                replaced_prompt(s, name, new_prompt)->0,
                name,
                s.subrange(open, close),
            ) == Some(s)
        }),
{
    let (open, close) = prompt_site(s, name)->0;
    let original = s.subrange(open, close);
    let body = reindented(original, new_prompt);
    let out = replaced_prompt(s, name, new_prompt)->0;
    lemma_split_one(new_prompt, '\n');
    lemma_reindented_no_quote(original, new_prompt);
    lemma_no_close(body, (prompt_open(s, name)->0).1);
    law_prompt_reads_back(s, name, new_prompt);
    lemma_line_swapped_back(original, new_prompt);
    lemma_prompt_open_prefix(s, s, name);
    lemma_seek(closes(s, (prompt_open(s, name)->0).1), open, s.len() as int);
    assert(out.take(open) + original + out.skip(open + body.len()) =~= s);
}

// ---------------------------------------------------------------------------
// Class descriptions
// ---------------------------------------------------------------------------

/// A declaration depends only on the text from it on, and on whether a word
/// can begin there and a comment covers it.
proof fn lemma_declares_shift(
    s: Seq<char>,
    t: Seq<char>,
    keyword: Seq<char>,
    name: Seq<char>,
    i: int,
    shift: int,
)
    requires
        0 <= i <= s.len(),
        0 <= i + shift,
        t.len() == s.len() + shift,
        forall|j: int| i <= j < s.len() ==> #[trigger] s[j] == t[j + shift],
        crate::applier::bound_before(s, i) == crate::applier::bound_before(t, i + shift),
        commented(s, i) == commented(t, i + shift),
    ensures
        declares_at(t, keyword, name, i + shift) == declares_at(s, keyword, name, i),
{
    let after = i + keyword.len();
    if after <= s.len() {
        assert(s.subrange(i, after) =~= t.subrange(i + shift, after + shift));
        assert forall|j: int| after <= j < s.len() implies #[trigger] solid(s)(j) == solid(t)(
            j + shift,
        ) by {
            assert(s[j] == t[j + shift]);
        }
        lemma_seek_shift(solid(s), solid(t), after, s.len() as int, shift);
        lemma_seek(solid(s), after, s.len() as int);
        let at = space_end(s, after);
        assert(space_end(t, after + shift) == at + shift);
        if at + name.len() <= s.len() {
            assert(s.subrange(at, at + name.len()) =~= t.subrange(
                at + shift,
                at + shift + name.len(),
            ));
            if at + name.len() < s.len() {
                assert(s[at + name.len()] == t[at + name.len() + shift]);
            }
        }
    }
}

/// A block of `///` lines begins at a line start, and nothing in front of it
/// belongs to it.
proof fn lemma_doc_start(s: Seq<char>, at: int)
    requires
        0 <= at,
        at > 0 ==> s[at - 1] == '\n',
    ensures
        0 <= doc_start(s, at) <= at,
        doc_start(s, at) > 0 ==> s[doc_start(s, at) - 1] == '\n',
        doc_start(s, doc_start(s, at)) == doc_start(s, at),
    decreases at,
{
    if at > 0 {
        let previous = line_start(s, at - 1);
        lemma_line_start(s, at - 1);
        if doc_line(s.subrange(previous, at - 1)) {
            lemma_doc_start(s, previous);
        }
    }
}

/// Where a block of `///` lines begins depends only on the text in front.
proof fn lemma_doc_start_prefix(s: Seq<char>, t: Seq<char>, at: int)
    requires
        0 <= at <= s.len(),
        at <= t.len(),
        at > 0 ==> s[at - 1] == '\n',
        forall|j: int| 0 <= j < at ==> s[j] == t[j],
    ensures
        doc_start(t, at) == doc_start(s, at),
    decreases at,
{
    if at > 0 {
        let previous = line_start(s, at - 1);
        lemma_line_start(s, at - 1);
        lemma_line_start_is(t, at - 1, previous);
        assert(s.subrange(previous, at - 1) =~= t.subrange(previous, at - 1));
        lemma_doc_start_prefix(s, t, previous);
    }
}

/// Rendered lines end with a line break.
proof fn lemma_doc_lines_end(lines: Seq<Seq<char>>, indent: Seq<char>)
    requires
        lines.len() > 0,
    ensures
        doc_lines(lines, indent).len() > 0,
        doc_lines(lines, indent).last() == '\n',
{
}

/// Rendered lines belong to the block of `///` lines that they end.
proof fn lemma_doc_start_over(
    t: Seq<char>,
    start: int,
    lines: Seq<Seq<char>>,
    indent: Seq<char>,
)
    requires
        0 <= start,
        start > 0 ==> t[start - 1] == '\n',
        start + doc_lines(lines, indent).len() <= t.len(),
        t.subrange(start, start + doc_lines(lines, indent).len()) == doc_lines(lines, indent),
        blank(indent),
        !indent.contains('\n'),
        forall|k: int| 0 <= k < lines.len() ==> !(#[trigger] lines[k]).contains('\n'),
    ensures
        doc_start(t, start + doc_lines(lines, indent).len()) == doc_start(t, start),
    decreases lines.len(),
{
    if lines.len() > 0 {
        reveal_strlit("/// ");
        reveal_strlit("///");
        let front = lines.drop_last();
        let last = lines.last();
        assert(lines[lines.len() - 1] == last);
        let whole = doc_lines(lines, indent);
        let before = doc_lines(front, indent);
        let line = indent + "/// "@ + last;
        let at = start + whole.len();
        let mid = start + before.len();
        assert(whole =~= before + line + seq!['\n']);
        assert forall|j: int| 0 <= j < whole.len() implies #[trigger] whole[j] == t[start + j] by {
            assert(t.subrange(start, start + whole.len())[j] == t[start + j]);
        }
        assert forall|j: int| 0 <= j < before.len() implies t[start + j] == #[trigger] before[j] by {
            assert(whole[j] == before[j]);
        }
        assert(t.subrange(start, mid) =~= before);
        assert forall|j: int| 0 <= j < line.len() implies #[trigger] t[mid + j] == line[j] by {
            assert(whole[before.len() + j] == line[j]);
        }
        assert(at - 1 == mid + line.len());
        assert forall|j: int| 0 <= j < line.len() implies t.subrange(mid, at - 1)[j] == line[j] by {
            assert(t[mid + j] == line[j]);
        }
        assert(t.subrange(mid, at - 1) =~= line);
        assert(mid > 0 ==> t[mid - 1] == '\n') by {
            if front.len() > 0 {
                lemma_doc_lines_end(front, indent);
                assert(t[start + (before.len() - 1)] == before[before.len() - 1]);
            }
        }
        assert forall|i: int| mid <= i < at - 1 implies t[i] != '\n' by {
            let k = i - mid;
            assert(t[mid + k] == line[k]);
            if k < indent.len() {
                assert(line[k] == indent[k]);
            } else if k >= indent.len() + 4 {
                assert(line[k] == last[k - indent.len() - 4]);
            } else {
                assert(line[k] == "/// "@[k - indent.len()]);
            }
        }
        lemma_line_start_is(t, at - 1, mid);
        assert forall|j: int| 0 <= j < indent.len() implies !#[trigger] inked(line)(j) by {
            assert(line[j] == indent[j]);
        }
        assert(line[indent.len() as int] == "/// "@[0]);
        assert(inked(line)(indent.len() as int));
        lemma_seek_is(inked(line), 0, line.len() as int, indent.len() as int);
        assert(line.subrange(indent.len() as int, indent.len() as int + 3) =~= "///"@);
        assert(doc_line(t.subrange(mid, at - 1)));
        assert(doc_start(t, at) == doc_start(t, mid));
        assert forall|k: int| 0 <= k < front.len() implies !(#[trigger] front[k]).contains('\n') by {
            assert(front[k] == lines[k]);
        }
        lemma_doc_start_over(t, start, front, indent);
    }
}

/// White space does not end code.
proof fn lemma_blank_mode(t: Seq<char>, from: int, end: int)
    requires
        0 <= from <= end,
        mode_at(t, from) == Mode::Code,
        forall|j: int| from <= j < end ==> is_space(#[trigger] t[j]),
    ensures
        mode_at(t, end) == Mode::Code,
    decreases end - from,
{
    if from < end {
        lemma_blank_mode(t, from, end - 1);
        assert(is_space(t[end - 1]));
    }
}

/// What stands behind `//`, up to the end of the line, is a comment.
proof fn lemma_comment_line(t: Seq<char>, line: int, ink: int, i: int)
    requires
        0 <= line <= ink,
        ink + 2 <= i,
        mode_at(t, line) == Mode::Code,
        forall|j: int| line <= j < ink ==> is_space(#[trigger] t[j]),
        t[ink] == '/',
        t[ink + 1] == '/',
        forall|j: int| ink + 2 <= j < i ==> t[j] != '\n',
    ensures
        mode_at(t, i) == Mode::Comment,
    decreases i,
{
    if i > ink + 2 {
        lemma_comment_line(t, line, ink, i - 1);
    } else {
        lemma_blank_mode(t, line, ink);
        assert(mode_at(t, ink + 1) == Mode::Slash);
    }
}

/// Behind a block of `///` lines that begins in code there is code.
proof fn lemma_doc_block_mode(s: Seq<char>, at: int)
    requires
        0 <= at <= s.len(),
        at > 0 ==> s[at - 1] == '\n',
        mode_at(s, doc_start(s, at)) == Mode::Code,
    ensures
        mode_at(s, at) == Mode::Code,
    decreases at,
{
    if at > 0 {
        let previous = line_start(s, at - 1);
        lemma_line_start(s, at - 1);
        let line = s.subrange(previous, at - 1);
        if doc_line(line) {
            reveal_strlit("///");
            lemma_doc_block_mode(s, previous);
            let ink = seek(inked(line), 0, line.len() as int);
            lemma_seek(inked(line), 0, line.len() as int);
            let slashes = "///"@;
            assert(line.subrange(ink, ink + 3) == slashes);
            assert(line.subrange(ink, ink + 3)[0] == slashes[0]);
            assert(line.subrange(ink, ink + 3)[1] == slashes[1]);
            assert forall|j: int| previous <= j < previous + ink implies is_space(
                #[trigger] s[j],
            ) by {
                assert(!inked(line)(j - previous));
            }
            assert(s[previous + ink] == line[ink]);
            assert(s[previous + ink + 1] == line[ink + 1]);
            lemma_comment_line(s, previous, previous + ink, at - 1);
        }
    }
}

/// Rendered lines in code are comments: but for white space and slashes, what
/// stands in them stands behind `//`. Behind them there is code again.
proof fn lemma_doc_lines_commented(
    t: Seq<char>,
    start: int,
    lines: Seq<Seq<char>>,
    indent: Seq<char>,
    i: int,
)
    requires
        0 <= start,
        mode_at(t, start) == Mode::Code,
        start + doc_lines(lines, indent).len() <= t.len(),
        t.subrange(start, start + doc_lines(lines, indent).len()) == doc_lines(lines, indent),
        blank(indent),
        forall|k: int| 0 <= k < lines.len() ==> !(#[trigger] lines[k]).contains('\n'),
    ensures
        mode_at(t, start + doc_lines(lines, indent).len()) == Mode::Code,
        start <= i < start + doc_lines(lines, indent).len() && !is_space(t[i]) && t[i] != '/'
            ==> commented(t, i),
    decreases lines.len(),
{
    if lines.len() > 0 {
        reveal_strlit("/// ");
        let slashes = "/// "@;
        let front = lines.drop_last();
        let last = lines.last();
        assert(lines[lines.len() - 1] == last);
        let whole = doc_lines(lines, indent);
        let before = doc_lines(front, indent);
        let line = indent + slashes + last;
        let mid = start + before.len();
        let n = indent.len() as int;
        let end = mid + line.len();
        assert(whole =~= before + line + seq!['\n']);
        assert forall|j: int| 0 <= j < whole.len() implies #[trigger] whole[j] == t[start + j] by {
            assert(t.subrange(start, start + whole.len())[j] == t[start + j]);
        }
        assert forall|j: int| 0 <= j < before.len() implies t[start + j] == #[trigger] before[j] by {
            assert(whole[j] == before[j]);
        }
        assert(t.subrange(start, mid) =~= before);
        assert forall|j: int| 0 <= j < line.len() implies #[trigger] t[mid + j] == line[j] by {
            assert(whole[before.len() + j] == line[j]);
        }
        assert(whole[before.len() as int + line.len()] == '\n');
        assert(t[start + (before.len() as int + line.len())] == '\n');
        assert forall|k: int| 0 <= k < front.len() implies !(#[trigger] front[k]).contains('\n') by {
            assert(front[k] == lines[k]);
        }
        lemma_doc_lines_commented(t, start, front, indent, i);
        assert forall|j: int| mid <= j < mid + n implies is_space(#[trigger] t[j]) by {
            assert(t[mid + (j - mid)] == line[j - mid] && line[j - mid] == indent[j - mid]);
        }
        assert(t[mid + n] == line[n] && line[n] == slashes[0]);
        assert(t[mid + (n + 1)] == line[n + 1] && line[n + 1] == slashes[1]);
        assert forall|j: int| mid + n + 2 <= j < end implies t[j] != '\n' by {
            let k = j - mid;
            assert(t[mid + k] == line[k]);
            if k >= n + 4 {
                assert(line[k] == last[k - n - 4]);
            } else {
                assert(line[k] == slashes[k - n]);
            }
        }
        lemma_comment_line(t, mid, mid + n, end);
        if mid <= i < end && !is_space(t[i]) && t[i] != '/' {
            assert(i >= mid + n + 2) by {
                assert(t[mid + (i - mid)] == line[i - mid]);
                if n <= i - mid < n + 2 {
                    assert(line[i - mid] == slashes[i - mid - n]);
                }
            }
            lemma_comment_line(t, mid, mid + n, i);
        }
    }
}

/// A name: one or more characters that can stand inside an identifier.
pub open spec fn identifier(name: Seq<char>) -> bool {
    name.len() > 0 && forall|k: int| 0 <= k < name.len() ==> ident_char(#[trigger] name[k])
}

/// Lines put above a class declare nothing.
proof fn lemma_described_front(
    s: Seq<char>,
    out: Seq<char>,
    name: Seq<char>,
    start: int,
    lines: Seq<Seq<char>>,
    indent: Seq<char>,
    i: int,
)
    requires
        identifier(name),
        0 <= start <= s.len(),
        start > 0 ==> s[start - 1] == '\n',
        lines.len() > 0,
        forall|k: int| 0 <= k < lines.len() ==> !(#[trigger] lines[k]).contains('\n'),
        blank(indent),
        !indent.contains('\n'),
        start + doc_lines(lines, indent).len() <= out.len(),
        mode_at(out, start) == Mode::Code,
        forall|j: int| 0 <= j < start ==> s[j] == out[j],
        out.subrange(start, start + doc_lines(lines, indent).len()) == doc_lines(lines, indent),
        0 <= i < start + doc_lines(lines, indent).len(),
        i < start ==> !declares_at(s, "class"@, name, i),
    ensures
        !declares_at(out, "class"@, name, i),
{
    reveal_strlit("class");
    reveal_strlit("/// ");
    let class = "class"@;
    let doc = doc_lines(lines, indent);
    if declares_at(out, class, name, i) {
        assert forall|k: int| 0 <= k < 5 implies out[i + k] == #[trigger] class[k] by {
            assert(out.subrange(i, i + 5)[k] == out[i + k]);
        }
        assert(out[i + 0] == class[0]);
        if i >= start {
            lemma_doc_lines_commented(out, start, lines, indent, i);
        } else {
            assert(out[start - 1] == '\n');
            assert(i + 5 < start) by {
                if i + 5 >= start {
                    assert(out[i + (start - 1 - i)] == class[start - 1 - i]);
                }
            }
            let at = space_end(out, i + 5);
            lemma_seek(solid(out), i + 5, out.len() as int);
            assert forall|k: int| 0 <= k < name.len() implies out[at + k] == #[trigger] name[k] by {
                assert(out.subrange(at, at + name.len())[k] == out[at + k]);
            }
            if at >= start {
                lemma_doc_first(lines, indent);
                let n = indent.len() as int;
                assert forall|k: int| 0 <= k <= n implies out[start + k] == #[trigger] doc[k] by {
                    assert(out.subrange(start, start + doc.len())[k] == out[start + k]);
                }
                assert(at <= start + n) by {
                    if at > start + n {
                        assert(!solid(out)(start + n));
                        assert(out[start + n] == doc[n]);
                    }
                }
                assert(out[start + (at - start)] == doc[at - start]);
                assert(out[at + 0] == name[0]);
            } else {
                assert(at + name.len() < start) by {
                    if at + name.len() >= start {
                        assert(out[at + (start - 1 - at)] == name[start - 1 - at]);
                    }
                }
                lemma_declares_prefix(out, s, class, name, i, start);
            }
        }
    }
}

/// Rendered lines begin with the indentation and a slash.
proof fn lemma_doc_first(lines: Seq<Seq<char>>, indent: Seq<char>)
    requires
        lines.len() > 0,
    ensures
        doc_lines(lines, indent).len() > indent.len(),
        doc_lines(lines, indent)[indent.len() as int] == '/',
        forall|k: int| 0 <= k < indent.len() ==> #[trigger] doc_lines(lines, indent)[k] == indent[k],
    decreases lines.len(),
{
    reveal_strlit("/// ");
    let front = lines.drop_last();
    let own = indent + "/// "@ + lines.last() + seq!['\n'];
    assert(doc_lines(lines, indent) == doc_lines(front, indent) + own);
    if front.len() > 0 {
        lemma_doc_first(front, indent);
    } else {
        assert(doc_lines(lines, indent) =~= own);
        assert(own[indent.len() as int] == "/// "@[0]);
    }
}

/// An applied description reads back: in the rewritten text the block of `///`
/// lines above the class is the description, so that applying it once more
/// changes nothing. The class must be named by an identifier, and the `///`
/// lines above it, if there are any, must begin in code: in a string they are
/// no comments.
#[verifier::rlimit(50)]
pub proof fn law_description_reads_back(
    s: Seq<char>,
    name: Seq<char>,
    description: Seq<char>,
)
    requires
        described(s, name, description) is Some,
        identifier(name),
        mode_at(s, doc_start(s, line_start(s, declaration(s, "class"@, name)->0))) == Mode::Code,
    ensures
        ({
            let out = described(s, name, description)->0;
            let class_start = declaration(s, "class"@, name)->0;
            let line = line_start(s, class_start);
            let doc = doc_lines(split(description, '\n'), line_indent(s, line, class_start));
            let shift = out.len() - s.len();
            &&& declaration(out, "class"@, name) == Some(class_start + shift)
            &&& out.subrange(doc_start(out, line + shift), line + shift) == doc
            &&& out.take(doc_start(s, line)) == s.take(doc_start(s, line))
            &&& out.skip(line + shift) == s.skip(line)
            &&& described(out, name, description) is None
        }),
{
    let class = "class"@;
    let class_start = declaration(s, class, name)->0;
    lemma_seek(declares(s, class, name), 0, s.len() as int);
    assert(declares(s, class, name)(class_start));
    let line = line_start(s, class_start);
    lemma_line_start(s, class_start);
    let indent = line_indent(s, line, class_start);
    let lines = split(description, '\n');
    let doc = doc_lines(lines, indent);
    let start = doc_start(s, line);
    lemma_doc_start(s, line);
    let out = s.take(start) + doc + s.skip(line);
    assert(described(s, name, description) == Some(out));
    let shift = out.len() - s.len();
    assert(shift == start + doc.len() - line);
    lemma_split_nonempty(description, '\n');
    lemma_split_pieces(description, '\n');
    lemma_doc_lines_end(lines, indent);
    assert(out[line + shift - 1] == doc.last());
    assert forall|j: int| line <= j < s.len() implies #[trigger] s[j] == out[j + shift] by {}
    lemma_seek(inked(s), line, class_start);
    assert(blank(indent) && !indent.contains('\n')) by {
        assert forall|k: int| 0 <= k < indent.len() implies is_space(#[trigger] indent[k]) && indent[k]
            != '\n' by {
            assert(!inked(s)(line + k));
        }
    }
    assert(out.subrange(start, start + doc.len()) =~= doc);
    assert(start > 0 ==> out[start - 1] == s[start - 1]);
    lemma_mode_prefix(s, out, start);
    lemma_doc_block_mode(s, line);
    lemma_doc_lines_commented(out, start, lines, indent, start);
    assert(mode_at(out, line + shift) == mode_at(s, line));
    // The class is declared where the text behind the description has it.
    assert forall|i: int| line <= i <= class_start implies declares_at(
        out,
        class,
        name,
        i + shift,
    ) == #[trigger] declares_at(s, class, name, i) by {
        if i > line {
            assert(s[i - 1] == out[i - 1 + shift]);
        }
        lemma_mode_shift(s, out, line, i, shift);
        lemma_declares_shift(s, out, class, name, i, shift);
    }
    assert(declares(out, class, name)(class_start + shift)) by {
        assert(declares_at(s, class, name, class_start));
    }
    assert forall|i: int| 0 <= i < class_start + shift implies !#[trigger] declares(
        out,
        class,
        name,
    )(i) by {
        if i >= line + shift {
            assert(!declares(s, class, name)(i - shift));
            assert(!declares_at(s, class, name, i - shift));
        } else {
            if i < start {
                assert(!declares(s, class, name)(i));
            }
            lemma_described_front(s, out, name, start, lines, indent, i);
        }
    }
    lemma_seek_is(declares(out, class, name), 0, out.len() as int, class_start + shift);
    // Its line and its indentation are the same.
    assert forall|i: int| line + shift <= i < class_start + shift implies out[i] != '\n' by {
        assert(s[i - shift] == out[i - shift + shift]);
    }
    lemma_line_start_is(out, class_start + shift, line + shift);
    assert forall|j: int| line <= j < class_start implies #[trigger] inked(s)(j) == inked(out)(
        j + shift,
    ) by {
        assert(s[j] == out[j + shift]);
    }
    lemma_seek_shift(inked(s), inked(out), line, class_start, shift);
    lemma_seek(inked(s), line, class_start);
    let ink = seek(inked(s), line, class_start);
    assert(line_indent(out, line + shift, class_start + shift) =~= indent) by {
        assert forall|k: int| 0 <= k < indent.len() implies out.subrange(
            line + shift,
            ink + shift,
        )[k] == indent[k] by {
            assert(s[line + k] == out[line + k + shift]);
        }
    }
    // The block above it is the description, whole.
    lemma_doc_start_over(out, start, lines, indent);
    lemma_doc_start_prefix(s, out, start);
    assert(doc_start(out, line + shift) == start);
    assert(out.take(start) =~= s.take(start));
    assert(out.skip(line + shift) =~= s.skip(line));
}

// ---------------------------------------------------------------------------
// Several classes
// ---------------------------------------------------------------------------

/// The line on which class `name` is declared.
pub open spec fn class_line(s: Seq<char>, name: Seq<char>) -> int {
    line_start(s, declaration(s, "class"@, name)->0)
}

/// The `///` lines above the declaration of class `name`.
pub open spec fn class_block(s: Seq<char>, name: Seq<char>) -> Seq<char> {
    s.subrange(doc_start(s, class_line(s, name)), class_line(s, name))
}

/// The white space in front of the declaration of class `name`.
pub open spec fn class_indent(s: Seq<char>, name: Seq<char>) -> Seq<char> {
    line_indent(s, class_line(s, name), declaration(s, "class"@, name)->0)
}

/// Class `name`, an identifier, is declared on one line, in code.
pub open spec fn class_in_code(s: Seq<char>, name: Seq<char>) -> bool {
    &&& identifier(name)
    &&& declaration(s, "class"@, name) matches Some(i) && forall|j: int|
        i <= j < space_end(s, i + 5) ==> s[j] != '\n'
    &&& mode_at(s, doc_start(s, class_line(s, name))) == Mode::Code
}

/// The `///` lines above class `name` are the lines of `description`.
pub open spec fn class_tells(s: Seq<char>, name: Seq<char>, description: Seq<char>) -> bool {
    &&& declaration(s, "class"@, name) is Some
    &&& class_block(s, name) == doc_lines(split(description, '\n'), class_indent(s, name))
}

/// What stands in a block of `///` lines that begins in code is a comment.
proof fn lemma_doc_block_commented(s: Seq<char>, at: int, i: int)
    requires
        0 <= at <= s.len(),
        at > 0 ==> s[at - 1] == '\n',
        mode_at(s, doc_start(s, at)) == Mode::Code,
        doc_start(s, at) <= i < at,
        !is_space(s[i]),
        s[i] != '/',
    ensures
        commented(s, i),
    decreases at,
{
    if at > 0 {
        let previous = line_start(s, at - 1);
        lemma_line_start(s, at - 1);
        let line = s.subrange(previous, at - 1);
        if doc_line(line) {
            if i < previous {
                lemma_doc_block_commented(s, previous, i);
            } else {
                reveal_strlit("///");
                lemma_doc_block_mode(s, previous);
                let ink = seek(inked(line), 0, line.len() as int);
                lemma_seek(inked(line), 0, line.len() as int);
                let slashes = "///"@;
                assert(line.subrange(ink, ink + 3)[0] == slashes[0]);
                assert(line.subrange(ink, ink + 3)[1] == slashes[1]);
                assert(line.subrange(ink, ink + 3)[2] == slashes[2]);
                assert forall|j: int| previous <= j < previous + ink implies is_space(
                    #[trigger] s[j],
                ) by {
                    assert(!inked(line)(j - previous));
                }
                assert(s[previous + ink] == line[ink]);
                assert(s[previous + ink + 1] == line[ink + 1]);
                assert(s[previous + ink + 2] == line[ink + 2]);
                assert(i < at - 1);
                assert(i >= previous + ink + 3);
                lemma_comment_line(s, previous, previous + ink, i);
            }
        }
    }
}

/// Behind a line that is no `///` line, where such lines begin depends only on
/// the text from that line on.
proof fn lemma_doc_start_shift(s: Seq<char>, t: Seq<char>, b: int, at: int, shift: int)
    requires
        0 <= b < at <= s.len(),
        0 <= b + shift,
        t.len() == s.len() + shift,
        b > 0 ==> s[b - 1] == '\n',
        b + shift > 0 ==> t[b + shift - 1] == '\n',
        s[at - 1] == '\n',
        forall|j: int| b <= j < s.len() ==> #[trigger] s[j] == t[j + shift],
        !doc_line(s.subrange(b, first_break(s, b))),
        b <= first_break(s, b) < at,
    ensures
        doc_start(s, at) > b,
        doc_start(t, at + shift) == doc_start(s, at) + shift,
    decreases at,
{
    let previous = line_start(s, at - 1);
    lemma_line_start(s, at - 1);
    lemma_first_break(s, b);
    assert(previous >= b) by {
        if previous < b {
            assert(s[b - 1] != '\n');
        }
    }
    if previous + shift > 0 && previous > b {
        assert(s[previous - 1] == t[previous - 1 + shift]);
    }
    assert forall|i: int| previous + shift <= i < at - 1 + shift implies t[i] != '\n' by {
        assert(s[i - shift] == t[i - shift + shift]);
    }
    lemma_line_start_is(t, at - 1 + shift, previous + shift);
    let text = s.subrange(previous, at - 1);
    let moved = t.subrange(previous + shift, at - 1 + shift);
    assert forall|k: int| 0 <= k < text.len() implies #[trigger] text[k] == moved[k] by {
        assert(s[previous + k] == t[previous + k + shift]);
    }
    assert(text =~= moved);
    if previous == b {
        assert(first_break(s, b) == at - 1) by {
            if first_break(s, b) < at - 1 {
                assert(s[first_break(s, b)] != '\n');
            }
        }
    } else {
        assert(first_break(s, b) < previous) by {
            assert(s[previous - 1] == '\n');
        }
        lemma_doc_start_shift(s, t, b, previous, shift);
    }
}

/// Where the line that holds `from` ends.
spec fn first_break(s: Seq<char>, from: int) -> int {
    seek(breaks(s), from, s.len() as int)
}

/// Holds at line breaks.
spec fn breaks(s: Seq<char>) -> spec_fn(int) -> bool {
    |i: int| s[i] == '\n'
}

/// A line ends at the first line break.
proof fn lemma_first_break(s: Seq<char>, from: int)
    requires
        0 <= from <= s.len(),
    ensures
        from <= first_break(s, from) <= s.len(),
        first_break(s, from) < s.len() ==> s[first_break(s, from)] == '\n',
        forall|i: int| from <= i < s.len() && s[i] == '\n' ==> first_break(s, from) <= i,
{
    lemma_seek(breaks(s), from, s.len() as int);
    if first_break(s, from) < s.len() {
        assert(breaks(s)(first_break(s, from)));
    }
    assert forall|i: int| from <= i < s.len() && s[i] == '\n' implies first_break(s, from) <= i by {
        if i < first_break(s, from) {
            assert(!breaks(s)(i));
        }
    }
}

/// A declaration in code: what stands at its place, and that its line is no
/// `///` line.
proof fn lemma_class_in_code(s: Seq<char>, name: Seq<char>)
    requires
        class_in_code(s, name),
    ensures
        ({
            let i = declaration(s, "class"@, name)->0;
            let line = class_line(s, name);
            &&& declares_at(s, "class"@, name, i)
            &&& forall|j: int| 0 <= j < i ==> !#[trigger] declares_at(s, "class"@, name, j)
            &&& 0 <= doc_start(s, line) <= line <= i < i + 5 < s.len()
            &&& line > 0 ==> s[line - 1] == '\n'
            &&& doc_start(s, line) > 0 ==> s[doc_start(s, line) - 1] == '\n'
            &&& forall|j: int| line <= j < i ==> s[j] != '\n'
            &&& mode_at(s, line) == Mode::Code
            &&& s[i] == 'c'
            &&& forall|j: int| i <= j < space_end(s, i + 5) + name.len() ==> s[j] != '\n'
            &&& !doc_line(s.subrange(line, first_break(s, line)))
            &&& i < first_break(s, line)
        }),
{
    reveal_strlit("class");
    let class = "class"@;
    let i = declaration(s, class, name)->0;
    let line = class_line(s, name);
    lemma_seek(declares(s, class, name), 0, s.len() as int);
    assert(declares(s, class, name)(i));
    assert forall|j: int| 0 <= j < i implies !#[trigger] declares_at(s, class, name, j) by {
        assert(!declares(s, class, name)(j));
    }
    lemma_line_start(s, i);
    lemma_doc_start(s, line);
    lemma_doc_block_mode(s, line);
    assert(s.subrange(i, i + 5)[0] == class[0]);
    let at = space_end(s, i + 5);
    assert forall|j: int| i <= j < at + name.len() implies s[j] != '\n' by {
        if j >= at {
            assert(s.subrange(at, at + name.len())[j - at] == s[j]);
            assert(ident_char(name[j - at]));
        }
    }
    lemma_first_break(s, line);
    let end = first_break(s, line);
    if end < s.len() && end <= i {
        assert(s[end] != '\n');
    }
    let text = s.subrange(line, end);
    if doc_line(text) {
        reveal_strlit("///");
        let slashes = "///"@;
        let ink = seek(inked(text), 0, text.len() as int);
        lemma_seek(inked(text), 0, text.len() as int);
        assert(text.subrange(ink, ink + 3)[0] == slashes[0]);
        assert(text.subrange(ink, ink + 3)[1] == slashes[1]);
        assert(text.subrange(ink, ink + 3)[2] == slashes[2]);
        assert(s[line + ink] == text[ink]);
        assert(s[line + ink + 1] == text[ink + 1]);
        assert(s[line + ink + 2] == text[ink + 2]);
        assert forall|j: int| line <= j < line + ink implies is_space(#[trigger] s[j]) by {
            assert(!inked(text)(j - line));
        }
        assert(i >= line + ink + 3);
        lemma_comment_line(s, line, line + ink, i);
        assert(commented(s, i));
    }
}

/// `t` is `s` with the lines of `description` in place of the `///` lines
/// above class `name`.
spec fn block_replaced(s: Seq<char>, t: Seq<char>, name: Seq<char>, description: Seq<char>) -> bool {
    let line = class_line(s, name);
    let doc = doc_lines(split(description, '\n'), class_indent(s, name));
    t == s.take(doc_start(s, line)) + doc + s.skip(line)
}

/// What replacing the block above one class does to another class on another
/// line: it is declared where it was, counted from the nearer end, and its own
/// block and indentation stay.
#[verifier::rlimit(100)]
proof fn lemma_other_class(
    s: Seq<char>,
    t: Seq<char>,
    name: Seq<char>,
    description: Seq<char>,
    other: Seq<char>,
)
    requires
        class_in_code(s, name),
        class_in_code(s, other),
        class_line(s, name) != class_line(s, other),
        block_replaced(s, t, name, description),
    ensures
        class_in_code(t, other),
        class_block(t, other) == class_block(s, other),
        class_indent(t, other) == class_indent(s, other),
        ({
            let a = doc_start(s, class_line(s, name));
            let b = class_line(s, name);
            if class_line(s, other) < b {
                class_line(s, other) < a && class_line(t, other) == class_line(s, other)
            } else {
                class_line(t, other) == class_line(s, other) + (t.len() - s.len())
            }
        }),
{
    reveal_strlit("class");
    let class = "class"@;
    let b = class_line(s, name);
    let a = doc_start(s, b);
    let lines = split(description, '\n');
    let indent = class_indent(s, name);
    let doc = doc_lines(lines, indent);
    let shift = t.len() - s.len();
    let i = declaration(s, class, other)->0;
    let l = class_line(s, other);
    let at = space_end(s, i + 5);
    lemma_class_in_code(s, name);
    lemma_class_in_code(s, other);
    lemma_seek(solid(s), i + 5, s.len() as int);
    lemma_split_nonempty(description, '\n');
    lemma_split_pieces(description, '\n');
    lemma_class_indent(s, name);
    assert(t.subrange(a, a + doc.len()) =~= doc);
    lemma_mode_prefix(s, t, a);
    lemma_doc_lines_commented(t, a, lines, indent, a);
    lemma_doc_lines_end(lines, indent);
    assert(t[a + doc.len() - 1] == doc.last());
    assert(shift == a + doc.len() - b);
    assert forall|j: int| b <= j < s.len() implies #[trigger] s[j] == t[j + shift] by {}
    // Nothing in front of the class is declared anew.
    assert forall|j: int| 0 <= j < a + doc.len() && (j < i || j >= a) implies !declares_at(
        t,
        class,
        other,
        j,
    ) by {
        lemma_described_front(s, t, other, a, lines, indent, j);
    }
    if l < b {
        // The class stands in front of the block.
        assert(i < a) by {
            if i >= a {
                lemma_first_break(s, l);
                assert(i < b) by {
                    if b <= i {
                        assert(s[b - 1] == '\n');
                    }
                }
                lemma_doc_block_commented(s, b, i);
            }
        }
        assert(at + other.len() < a) by {
            if at + other.len() >= a {
                assert(s[a - 1] == '\n');
            }
        }
        lemma_declares_prefix(s, t, class, other, i, a);
        assert forall|j: int| 0 <= j < i implies !#[trigger] declares(t, class, other)(j) by {
            assert(!declares_at(t, class, other, j));
        }
        assert(declares(t, class, other)(i));
        lemma_seek_is(declares(t, class, other), 0, t.len() as int, i);
        lemma_line_start_is(t, i, l);
        lemma_doc_start_prefix(s, t, l);
        lemma_space_end_prefix(s, t, i + 5, a);
        lemma_mode_prefix(s, t, doc_start(s, l));
        assert(class_block(t, other) =~= class_block(s, other));
        assert forall|j: int| l <= j < i implies #[trigger] inked(s)(j) == inked(t)(j + 0) by {}
        lemma_seek_shift(inked(s), inked(t), l, i, 0);
        lemma_seek(inked(s), l, i);
        assert(class_indent(t, other) =~= class_indent(s, other));
    } else {
        // The class stands behind the line of the first.
        lemma_first_break(s, b);
        assert(first_break(s, b) < l) by {
            assert(s[l - 1] == '\n');
        }
        assert forall|j: int| b <= j <= i implies declares_at(t, class, other, j + shift)
            == #[trigger] declares_at(s, class, other, j) by {
            if j > b {
                assert(s[j - 1] == t[j - 1 + shift]);
            }
            lemma_mode_shift(s, t, b, j, shift);
            lemma_declares_shift(s, t, class, other, j, shift);
        }
        assert(declares(t, class, other)(i + shift)) by {
            assert(declares_at(s, class, other, i));
        }
        assert forall|j: int| 0 <= j < i + shift implies !#[trigger] declares(t, class, other)(j) by {
            if j < a + doc.len() {
                assert(!declares_at(t, class, other, j));
            } else {
                assert(!declares_at(s, class, other, j - shift));
            }
        }
        lemma_seek_is(declares(t, class, other), 0, t.len() as int, i + shift);
        assert(s[l - 1] == t[l - 1 + shift]);
        assert forall|j: int| l + shift <= j < i + shift implies t[j] != '\n' by {
            assert(s[j - shift] == t[j - shift + shift]);
        }
        lemma_line_start_is(t, i + shift, l + shift);
        lemma_doc_start_shift(s, t, b, l, shift);
        let d = doc_start(s, l);
        lemma_mode_shift(s, t, b, d, shift);
        assert forall|j: int| i + 5 <= j < s.len() implies #[trigger] solid(s)(j) == solid(t)(
            j + shift,
        ) by {
            assert(s[j] == t[j + shift]);
        }
        lemma_seek_shift(solid(s), solid(t), i + 5, s.len() as int, shift);
        assert forall|j: int| i + shift <= j < space_end(t, i + shift + 5) implies t[j] != '\n' by {
            assert(s[j - shift] == t[j - shift + shift]);
        }
        let block = class_block(s, other);
        let moved = t.subrange(d + shift, l + shift);
        assert forall|k: int| 0 <= k < block.len() implies #[trigger] block[k] == moved[k] by {
            assert(s[d + k] == t[d + k + shift]);
        }
        assert(block =~= moved);
        assert forall|j: int| l <= j < i implies #[trigger] inked(s)(j) == inked(t)(j + shift) by {
            assert(s[j] == t[j + shift]);
        }
        lemma_seek_shift(inked(s), inked(t), l, i, shift);
        lemma_seek(inked(s), l, i);
        let ink = seek(inked(s), l, i);
        let white = class_indent(s, other);
        let gone = t.subrange(l + shift, ink + shift);
        assert forall|k: int| 0 <= k < white.len() implies #[trigger] white[k] == gone[k] by {
            assert(s[l + k] == t[l + k + shift]);
        }
        assert(white =~= gone);
    }
}

/// The indentation of a class is white space on its line.
proof fn lemma_class_indent(s: Seq<char>, name: Seq<char>)
    requires
        class_in_code(s, name),
    ensures
        blank(class_indent(s, name)),
        !class_indent(s, name).contains('\n'),
{
    lemma_class_in_code(s, name);
    let line = class_line(s, name);
    let i = declaration(s, "class"@, name)->0;
    let indent = class_indent(s, name);
    lemma_seek(inked(s), line, i);
    assert forall|k: int| 0 <= k < indent.len() implies is_space(#[trigger] indent[k]) && indent[k]
        != '\n' by {
        assert(!inked(s)(line + k));
    }
}

/// The class itself, once its block has been replaced: it tells the
/// description, and is still declared on one line in code.
#[verifier::rlimit(100)]
proof fn lemma_own_class(s: Seq<char>, t: Seq<char>, name: Seq<char>, description: Seq<char>)
    requires
        class_in_code(s, name),
        described(s, name, description) == Some(t),
    ensures
        block_replaced(s, t, name, description),
        class_in_code(t, name),
        class_tells(t, name, description),
        class_line(t, name) == class_line(s, name) + (t.len() - s.len()),
{
    reveal_strlit("class");
    let class = "class"@;
    let b = class_line(s, name);
    let a = doc_start(s, b);
    let i = declaration(s, class, name)->0;
    let lines = split(description, '\n');
    let indent = class_indent(s, name);
    let doc = doc_lines(lines, indent);
    let shift = t.len() - s.len();
    lemma_class_in_code(s, name);
    lemma_class_indent(s, name);
    law_description_reads_back(s, name, description);
    lemma_seek(solid(s), i + 5, s.len() as int);
    lemma_split_nonempty(description, '\n');
    lemma_split_pieces(description, '\n');
    lemma_doc_lines_end(lines, indent);
    assert(t == s.take(a) + doc + s.skip(b));
    assert(shift == a + doc.len() - b);
    assert forall|j: int| b <= j < s.len() implies #[trigger] s[j] == t[j + shift] by {}
    assert(t[b + shift - 1] == doc.last());
    assert forall|j: int| b + shift <= j < i + shift implies t[j] != '\n' by {
        assert(s[j - shift] == t[j - shift + shift]);
    }
    lemma_line_start_is(t, i + shift, b + shift);
    assert(t.subrange(a, a + doc.len()) =~= doc);
    assert(a > 0 ==> t[a - 1] == s[a - 1]);
    lemma_doc_start_over(t, a, lines, indent);
    lemma_doc_start_prefix(s, t, a);
    lemma_doc_start(s, b);
    assert(doc_start(t, b + shift) == a);
    lemma_mode_prefix(s, t, a);
    assert forall|j: int| i + 5 <= j < s.len() implies #[trigger] solid(s)(j) == solid(t)(
        j + shift,
    ) by {
        assert(s[j] == t[j + shift]);
    }
    lemma_seek_shift(solid(s), solid(t), i + 5, s.len() as int, shift);
    assert forall|j: int| i + shift <= j < space_end(t, i + shift + 5) implies t[j] != '\n' by {
        assert(s[j - shift] == t[j - shift + shift]);
    }
    assert forall|j: int| b <= j < i implies #[trigger] inked(s)(j) == inked(t)(j + shift) by {
        assert(s[j] == t[j + shift]);
    }
    lemma_seek_shift(inked(s), inked(t), b, i, shift);
    lemma_seek(inked(s), b, i);
    let ink = seek(inked(s), b, i);
    let gone = t.subrange(b + shift, ink + shift);
    assert forall|k: int| 0 <= k < indent.len() implies #[trigger] indent[k] == gone[k] by {
        assert(s[b + k] == t[b + k + shift]);
    }
    assert(indent =~= gone);
}

/// The classes with a description have distinct names, and are declared on one
/// line each, in code, on distinct lines.
pub open spec fn classes_apart(s: Seq<char>, classes: Seq<ClassModel>) -> bool {
    &&& forall|k: int|
        0 <= k < classes.len() && (#[trigger] classes[k]).description is Some ==> class_in_code(
            s,
            classes[k].class_name,
        )
    &&& forall|j: int, k: int|
        0 <= j < k < classes.len() && (#[trigger] classes[j]).description is Some && (
        #[trigger] classes[k]).description is Some ==> classes[j].class_name
            != classes[k].class_name && class_line(s, classes[j].class_name) != class_line(
            s,
            classes[k].class_name,
        )
}

/// Describing one class leaves the classes apart, and what the others tell.
proof fn lemma_described_keeps(
    s: Seq<char>,
    classes: Seq<ClassModel>,
    n: int,
    description: Seq<char>,
)
    requires
        classes_apart(s, classes),
        0 <= n < classes.len(),
        classes[n].description == Some(description),
    ensures
        ({
            let t = match described(s, classes[n].class_name, description) {
                Some(t) => t,
                None => s,
            };
            &&& classes_apart(t, classes)
            &&& class_tells(t, classes[n].class_name, description)
            &&& forall|k: int|
                0 <= k < classes.len() && k != n && (#[trigger] classes[k]).description is Some
                    && class_tells(s, classes[k].class_name, classes[k].description->0)
                    ==> class_tells(t, classes[k].class_name, classes[k].description->0)
        }),
{
    let name = classes[n].class_name;
    match described(s, name, description) {
        Some(t) => {
            lemma_own_class(s, t, name, description);
            lemma_class_in_code(s, name);
            assert forall|k: int|
                0 <= k < classes.len() && k != n && (
                #[trigger] classes[k]).description is Some implies {
                let other = classes[k].class_name;
                &&& class_in_code(t, other)
                &&& class_block(t, other) == class_block(s, other)
                &&& class_indent(t, other) == class_indent(s, other)
                &&& if class_line(s, other) < class_line(s, name) {
                    class_line(s, other) < doc_start(s, class_line(s, name)) && class_line(t, other)
                        == class_line(s, other)
                } else {
                    class_line(t, other) == class_line(s, other) + (t.len() - s.len())
                }
            } by {
                assert(class_line(s, name) != class_line(s, classes[k].class_name)) by {
                    if k < n {
                        assert(classes[k].description is Some && classes[n].description is Some);
                    } else {
                        assert(classes[n].description is Some && classes[k].description is Some);
                    }
                }
                lemma_other_class(s, t, name, description, classes[k].class_name);
            }
            assert forall|j: int, k: int|
                0 <= j < k < classes.len() && (#[trigger] classes[j]).description is Some && (
                #[trigger] classes[k]).description is Some implies classes[j].class_name
                != classes[k].class_name && class_line(t, classes[j].class_name) != class_line(
                t,
                classes[k].class_name,
            ) by {
                assert(class_line(s, classes[j].class_name) != class_line(
                    s,
                    classes[k].class_name,
                ));
            }
        },
        None => {
            assert(class_in_code(s, name));
        },
    }
}

/// All descriptions that have been applied stay.
proof fn lemma_with_descriptions(s: Seq<char>, classes: Seq<ClassModel>, n: int)
    requires
        classes_apart(s, classes),
        0 <= n <= classes.len(),
    ensures
        classes_apart(with_descriptions(s, classes.take(n)), classes),
        forall|k: int|
            0 <= k < n && (#[trigger] classes[k]).description is Some ==> class_tells(
                with_descriptions(s, classes.take(n)),
                classes[k].class_name,
                classes[k].description->0,
            ),
    decreases n,
{
    if n > 0 {
        lemma_with_descriptions(s, classes, n - 1);
        let before = with_descriptions(s, classes.take(n - 1));
        assert(classes.take(n).drop_last() =~= classes.take(n - 1));
        assert(classes.take(n).last() == classes[n - 1]);
        match classes[n - 1].description {
            Some(description) => {
                lemma_described_keeps(before, classes, n - 1, description);
            },
            None => {},
        }
    } else {
        assert(classes.take(0) =~= Seq::<ClassModel>::empty());
    }
}

/// The text once the prompt has been put in place, if it can be.
pub open spec fn prompt_placed(s: Seq<char>, func: FunctionModel) -> Seq<char> {
    match replaced_prompt(s, func.function_name, func.prompt_text) {
        Some(out) => out,
        None => s,
    }
}

/// The text that a change leaves.
pub open spec fn after_change(s: Seq<char>, func: FunctionModel) -> Seq<char> {
    match changed(s, func) {
        Some(out) => out,
        None => s,
    }
}

/// Every class gets its description: in the text that a change leaves, the
/// `///` lines above each class that the change describes are exactly the lines
/// of that description. The classes must be identifiers, with distinct names,
/// each declared on a line of its own, in code, once the prompt is in place.
pub proof fn law_every_class_is_described(s: Seq<char>, func: FunctionModel, k: int)
    requires
        classes_apart(prompt_placed(s, func), func.classes),
        0 <= k < func.classes.len(),
        func.classes[k].description is Some,
    ensures
        class_tells(
            after_change(s, func),
            func.classes[k].class_name,
            func.classes[k].description->0,
        ),
        described(
            after_change(s, func),
            func.classes[k].class_name,
            func.classes[k].description->0,
        ) is None,
{
    let classes = func.classes;
    let placed = prompt_placed(s, func);
    let n = classes.len() as int;
    assert(classes.take(n) =~= classes);
    lemma_with_descriptions(placed, classes, n);
    if changed(s, func) is None {
        lemma_nothing_described(placed, classes);
    }
}

/// Where no change of the classes lands, the text stays as it is.
proof fn lemma_nothing_described(s: Seq<char>, classes: Seq<ClassModel>)
    requires
        !some_described(s, classes),
    ensures
        with_descriptions(s, classes) == s,
    decreases classes.len(),
{
    if classes.len() > 0 {
        lemma_nothing_described(s, classes.drop_last());
    }
}

/// A description becomes one `///` line for each of its lines, in order: what
/// two lists of lines are rendered as is what each is, one behind the other,
/// and a line is rendered behind the indentation and the slashes.
pub proof fn law_every_line_is_rendered(
    lines: Seq<Seq<char>>,
    more: Seq<Seq<char>>,
    line: Seq<char>,
    indent: Seq<char>,
)
    ensures
        doc_lines(lines + more, indent) == doc_lines(lines, indent) + doc_lines(more, indent),
        doc_lines(seq![line], indent) == indent + "/// "@ + line + seq!['\n'],
        doc_lines(Seq::empty(), indent).len() == 0,
    decreases more.len(),
{
    let one = seq![line];
    assert(one.drop_last() =~= Seq::<Seq<char>>::empty());
    assert(doc_lines(one.drop_last(), indent) =~= Seq::<char>::empty());
    assert(doc_lines(one, indent) =~= indent + "/// "@ + line + seq!['\n']);
    if more.len() == 0 {
        assert(lines + more =~= lines);
        assert(doc_lines(lines, indent) + doc_lines(more, indent) =~= doc_lines(lines, indent));
    } else {
        law_every_line_is_rendered(lines, more.drop_last(), line, indent);
        assert((lines + more).drop_last() =~= lines + more.drop_last());
        assert((lines + more).last() == more.last());
        assert(doc_lines(lines + more, indent) =~= doc_lines(lines, indent) + doc_lines(
            more,
            indent,
        ));
    }
}

/// What a prompt is rewritten to, line by line: between the line break that the
/// original begins with and the white space that it ends with, where it has
/// them, stand the lines of the new prompt, and each that is not blank has its
/// own common indentation exchanged for that of the original. The first and the
/// last line of the new prompt must not be blank.
pub proof fn law_prompts_are_rewritten_line_by_line(
    original: Seq<char>,
    new_prompt: Seq<char>,
    k: int,
)
    requires
        !blank(split(new_prompt, '\n')[0]),
        !blank(split(new_prompt, '\n').last()),
        0 <= k < split(new_prompt, '\n').len(),
    ensures
        ({
            let lines = split(reindented(original, new_prompt), '\n');
            let old_lines = split(original, '\n');
            let top: int = if original.len() > 0 && original[0] == '\n' {
                1
            } else {
                0
            };
            let tail: int = if old_lines.len() > 1 && blank(old_lines.last()) {
                1
            } else {
                0
            };
            let line = split(new_prompt, '\n')[k];
            &&& lines.len() == top + split(new_prompt, '\n').len() + tail
            &&& top == 1 ==> lines[0].len() == 0
            &&& tail == 1 ==> lines.last() == old_lines.last()
            &&& blank(lines[top + k]) == blank(line)
            &&& !blank(line) ==> lines[top + k] == common_indent(original) + line.skip(
                common_indent(new_prompt).len() as int,
            )
        }),
{
    let own = common_indent(new_prompt);
    let indent = common_indent(original);
    let pieces = split(new_prompt, '\n');
    let more = shaped(original, new_prompt);
    lemma_reindented_lines(original, new_prompt);
    lemma_shaped(original, new_prompt);
    lemma_outdented(new_prompt, k);
    lemma_common_indent(original);
    let lines = split(reindented(original, new_prompt), '\n');
    let top: int = if original.len() > 0 && original[0] == '\n' {
        1
    } else {
        0
    };
    assert(lines[top + k] == more[k]);
    let rest = outdented(pieces[k], own);
    assert(more[k] == indented(rest, indent));
    lemma_indented_blank(rest, indent);
    if !blank(pieces[k]) {
        assert(pieces[k] == own + rest);
        assert(pieces[k].skip(own.len() as int) =~= rest);
    }
}

// ---------------------------------------------------------------------------
// Prompts and descriptions together
// ---------------------------------------------------------------------------

/// The prompt of function `name`, where it can be found.
pub open spec fn prompt_text(s: Seq<char>, name: Seq<char>) -> Option<Seq<char>> {
    match prompt_site(s, name) {
        Some((open, close)) => Some(s.subrange(open, close)),
        None => None,
    }
}

/// Class `class` is declared outside function `name`: on a line that begins in
/// front of the function, or behind its prompt.
pub open spec fn class_outside(s: Seq<char>, name: Seq<char>, class: Seq<char>) -> bool {
    match prompt_site(s, name) {
        Some((open, close)) => class_line(s, class) <= declaration(s, "function"@, name)->0
            || doc_start(s, class_line(s, class)) > close,
        None => true,
    }
}

/// A search behind a replaced part finds what it found, moved along.
proof fn lemma_nesting_shift(s: Seq<char>, t: Seq<char>, from: int, i: int, shift: int)
    requires
        0 <= from <= i <= s.len(),
        0 <= from + shift,
        mode_at(t, from + shift) == mode_at(s, from),
        forall|j: int| from <= j < s.len() ==> #[trigger] s[j] == t[j + shift],
    ensures
        nesting_at(t, from + shift, i + shift) == nesting_at(s, from, i),
    decreases i - from,
{
    if i > from {
        lemma_nesting_shift(s, t, from, i - 1, shift);
        lemma_mode_shift(s, t, from, i - 1, shift);
        assert(s[i - 1] == t[i - 1 + shift]);
    }
}

/// The prompt of a function whose declaration is moved along moves along.
#[verifier::rlimit(100)]
proof fn lemma_prompt_moved(s: Seq<char>, t: Seq<char>, name: Seq<char>, shift: int)
    requires
        prompt_site(s, name) is Some,
        declaration(s, "function"@, name) matches Some(start) && declaration(
            t,
            "function"@,
            name,
        ) == Some(start + shift),
        t.len() == s.len() + shift,
        0 <= declaration(s, "function"@, name)->0 <= s.len(),
        0 <= declaration(s, "function"@, name)->0 + shift,
        mode_at(t, declaration(s, "function"@, name)->0 + shift) == mode_at(
            s,
            declaration(s, "function"@, name)->0,
        ),
        forall|j: int|
            declaration(s, "function"@, name)->0 <= j < s.len() ==> #[trigger] s[j] == t[j + shift],
    ensures
        prompt_site(t, name) == Some(
            ((prompt_site(s, name)->0).0 + shift, (prompt_site(s, name)->0).1 + shift),
        ),
        declaration(s, "function"@, name)->0 < (prompt_site(s, name)->0).0 <= (prompt_site(
            s,
            name,
        )->0).1 < s.len(),
{
    reveal_strlit("prompt");
    let prompt = "prompt"@;
    let start = declaration(s, "function"@, name)->0;
    let len = s.len() as int;
    let p = opens_block(s, start);
    let q = ends_block(s, start);
    assert forall|j: int| start <= j < len implies #[trigger] p(j) == opens_block(
        t,
        start + shift,
    )(j + shift) by {
        lemma_nesting_shift(s, t, start, j + 1, shift);
    }
    lemma_seek_shift(p, opens_block(t, start + shift), start, len, shift);
    assert forall|j: int| start <= j < len implies #[trigger] q(j) == ends_block(
        t,
        start + shift,
    )(j + shift) by {
        lemma_nesting_shift(s, t, start, j, shift);
        lemma_nesting_shift(s, t, start, j + 1, shift);
    }
    lemma_seek_shift(q, ends_block(t, start + shift), start, len, shift);
    let brace = block_start(s, start);
    let end = block_end(s, start);
    lemma_seek(p, start, len);
    lemma_seek(q, start, len);
    assert(brace < end) by {
        if brace >= end {
            assert(word_in_block(s, prompt, start) is None);
        }
    }
    assert forall|j: int| brace + 1 <= j < end implies #[trigger] words(s, prompt)(j) == words(
        t,
        prompt,
    )(j + shift) by {
        assert(s[j - 1] == t[j - 1 + shift]);
        if j + 6 <= len {
            let a = s.subrange(j, j + 6);
            let b = t.subrange(j + shift, j + 6 + shift);
            assert forall|k: int| 0 <= k < 6 implies #[trigger] a[k] == b[k] by {
                assert(s[j + k] == t[j + k + shift]);
            }
            assert(a =~= b);
            if j + 6 < len {
                assert(s[j + 6] == t[j + 6 + shift]);
            }
        }
    }
    lemma_seek_shift(words(s, prompt), words(t, prompt), brace + 1, end, shift);
    lemma_seek(words(s, prompt), brace + 1, end);
    let keyword = word_in_block(s, prompt, start)->0;
    assert(words(s, prompt)(keyword));
    let after = keyword + 6;
    assert forall|j: int| after <= j < len implies #[trigger] solid(s)(j) == solid(t)(
        j + shift,
    ) by {
        assert(s[j] == t[j + shift]);
    }
    lemma_seek_shift(solid(s), solid(t), after, len, shift);
    lemma_seek(solid(s), after, len);
    let run = space_end(s, after);
    assert forall|j: int| run <= j < len implies #[trigger] not_hash(s)(j) == not_hash(t)(
        j + shift,
    ) by {
        assert(s[j] == t[j + shift]);
    }
    lemma_seek_shift(not_hash(s), not_hash(t), run, len, shift);
    lemma_seek(not_hash(s), run, len);
    let quote = hash_end(s, run);
    assert(s[quote] == t[quote + shift]);
    let (open, hashes) = prompt_open(s, name)->0;
    assert(prompt_open(t, name) == Some((open + shift, hashes)));
    assert forall|j: int| open <= j < len implies #[trigger] closes(s, hashes)(j) == closes(
        t,
        hashes,
    )(j + shift) by {
        assert(s[j] == t[j + shift]);
        assert forall|k: int| j + 1 <= k < len implies #[trigger] not_hash(s)(k) == not_hash(t)(
            k + shift,
        ) by {
            assert(s[k] == t[k + shift]);
        }
        lemma_seek_shift(not_hash(s), not_hash(t), j + 1, len, shift);
    }
    lemma_seek_shift(closes(s, hashes), closes(t, hashes), open, len, shift);
    lemma_seek(closes(s, hashes), open, len);
}

/// What describing a class does to the text: up to the class's block it stays,
/// then come commented lines, and from the class on it is moved along.
proof fn lemma_block_text(s: Seq<char>, t: Seq<char>, class: Seq<char>, description: Seq<char>)
    requires
        class_in_code(s, class),
        block_replaced(s, t, class, description),
    ensures
        ({
            let b = class_line(s, class);
            let a = doc_start(s, b);
            let lines = split(description, '\n');
            let indent = class_indent(s, class);
            let doc = doc_lines(lines, indent);
            let shift = t.len() - s.len();
            &&& 0 <= a <= b <= s.len()
            &&& shift == a + doc.len() - b
            &&& doc.len() > 0
            &&& a > 0 ==> s[a - 1] == '\n'
            &&& t.subrange(a, a + doc.len()) == doc
            &&& forall|j: int| 0 <= j < a ==> s[j] == t[j]
            &&& forall|j: int| b <= j < s.len() ==> #[trigger] s[j] == t[j + shift]
            &&& t[a + doc.len() - 1] == '\n'
            &&& b > 0 ==> s[b - 1] == '\n'
            &&& mode_at(t, a) == Mode::Code
            &&& mode_at(t, b + shift) == mode_at(s, b)
            &&& blank(indent)
            &&& !indent.contains('\n')
            &&& lines.len() > 0
            &&& forall|k: int| 0 <= k < lines.len() ==> !(#[trigger] lines[k]).contains('\n')
        }),
{
    let b = class_line(s, class);
    let a = doc_start(s, b);
    let lines = split(description, '\n');
    let indent = class_indent(s, class);
    let doc = doc_lines(lines, indent);
    lemma_class_in_code(s, class);
    lemma_class_indent(s, class);
    lemma_split_nonempty(description, '\n');
    lemma_split_pieces(description, '\n');
    assert(t.subrange(a, a + doc.len()) =~= doc);
    lemma_mode_prefix(s, t, a);
    lemma_doc_lines_commented(t, a, lines, indent, a);
    lemma_doc_lines_end(lines, indent);
    assert(t[a + doc.len() - 1] == doc.last());
}

/// A function behind a class that is described is declared further on.
#[verifier::rlimit(100)]
proof fn lemma_function_moved(
    s: Seq<char>,
    t: Seq<char>,
    name: Seq<char>,
    class: Seq<char>,
    description: Seq<char>,
)
    requires
        identifier(name),
        declaration(s, "function"@, name) is Some,
        class_in_code(s, class),
        class_line(s, class) <= declaration(s, "function"@, name)->0,
        block_replaced(s, t, class, description),
    ensures
        declaration(t, "function"@, name) == Some(
            declaration(s, "function"@, name)->0 + (t.len() - s.len()),
        ),
{
    reveal_strlit("function");
    let function = "function"@;
    let b = class_line(s, class);
    let a = doc_start(s, b);
    let lines = split(description, '\n');
    let indent = class_indent(s, class);
    let doc = doc_lines(lines, indent);
    let shift = t.len() - s.len();
    let start = declaration(s, function, name)->0;
    lemma_block_text(s, t, class, description);
    lemma_seek(declares(s, function, name), 0, s.len() as int);
    assert(declares(s, function, name)(start));
    assert forall|j: int| b <= j <= start implies declares_at(t, function, name, j + shift)
        == #[trigger] declares_at(s, function, name, j) by {
        if j > b {
            assert(s[j - 1] == t[j - 1 + shift]);
        }
        lemma_mode_shift(s, t, b, j, shift);
        lemma_declares_shift(s, t, function, name, j, shift);
    }
    assert(declares(t, function, name)(start + shift)) by {
        assert(declares_at(s, function, name, start));
    }
    assert forall|j: int| 0 <= j < start + shift implies !#[trigger] declares(t, function, name)(
        j,
    ) by {
        if j < a + doc.len() {
            if j < a {
                assert(!declares(s, function, name)(j));
            }
            lemma_front_declares_nothing(s, t, function, name, a, lines, indent, j);
        } else {
            assert(!declares(s, function, name)(j - shift));
            assert(!declares_at(s, function, name, j - shift));
        }
    }
    lemma_seek_is(declares(t, function, name), 0, t.len() as int, start + shift);
}

/// The prompt of a function in front of a class that is described stays.
#[verifier::rlimit(100)]
proof fn lemma_prompt_ahead(
    s: Seq<char>,
    t: Seq<char>,
    name: Seq<char>,
    class: Seq<char>,
    description: Seq<char>,
)
    requires
        identifier(name),
        prompt_site(s, name) is Some,
        class_in_code(s, class),
        doc_start(s, class_line(s, class)) > (prompt_site(s, name)->0).1,
        block_replaced(s, t, class, description),
    ensures
        declaration(t, "function"@, name) == declaration(s, "function"@, name),
        prompt_site(t, name) == prompt_site(s, name),
        prompt_text(t, name) == prompt_text(s, name),
{
    let b = class_line(s, class);
    let a = doc_start(s, b);
    let (open, close) = prompt_site(s, name)->0;
    let hashes = (prompt_open(s, name)->0).1;
    lemma_block_text(s, t, class, description);
    assert(!name.contains('"')) by {
        if name.contains('"') {
            let k = choose|k: int| 0 <= k < name.len() && name[k] == '"';
            assert(ident_char(name[k]));
        }
    }
    lemma_prompt_open_prefix(s, s, name);
    lemma_seek(closes(s, hashes), open, s.len() as int);
    lemma_prompt_open_prefix(s, t, name);
    assert(closes(s, hashes)(close));
    assert forall|i: int| open <= i <= close implies #[trigger] closes(t, hashes)(i) == closes(
        s,
        hashes,
    )(i) by {
        if s[i] == '"' {
            lemma_hash_end_prefix(s, t, i + 1, a);
        }
    }
    assert forall|i: int| open <= i < close implies !#[trigger] closes(t, hashes)(i) by {
        assert(!closes(s, hashes)(i));
    }
    assert(closes(t, hashes)(close));
    lemma_seek_is(closes(t, hashes), open, t.len() as int, close);
    assert(t.subrange(open, close) =~= s.subrange(open, close));
    lemma_declaration_prefix(s, t, name, open);
}

/// Describing a class outside a function leaves the function's prompt.
#[verifier::rlimit(100)]
proof fn lemma_prompt_kept(
    s: Seq<char>,
    t: Seq<char>,
    name: Seq<char>,
    class: Seq<char>,
    description: Seq<char>,
)
    requires
        identifier(name),
        prompt_site(s, name) is Some,
        class_in_code(s, class),
        class_outside(s, name, class),
        block_replaced(s, t, class, description),
    ensures
        prompt_text(t, name) == prompt_text(s, name),
        ({
            let a = doc_start(s, class_line(s, class));
            let b = class_line(s, class);
            let shift = t.len() - s.len();
            let start = declaration(s, "function"@, name)->0;
            let (open, close) = prompt_site(s, name)->0;
            if b <= start {
                declaration(t, "function"@, name) == Some(start + shift) && prompt_site(t, name)
                    == Some((open + shift, close + shift))
            } else {
                a > close && declaration(t, "function"@, name) == Some(start) && prompt_site(
                    t,
                    name,
                ) == Some((open, close))
            }
        }),
{
    let b = class_line(s, class);
    let shift = t.len() - s.len();
    let start = declaration(s, "function"@, name)->0;
    let (open, close) = prompt_site(s, name)->0;
    if b <= start {
        lemma_block_text(s, t, class, description);
        lemma_function_moved(s, t, name, class, description);
        lemma_seek(declares(s, "function"@, name), 0, s.len() as int);
        lemma_mode_shift(s, t, b, start, shift);
        lemma_prompt_moved(s, t, name, shift);
        let old_text = s.subrange(open, close);
        let new_text = t.subrange(open + shift, close + shift);
        assert forall|k: int| 0 <= k < old_text.len() implies #[trigger] old_text[k]
            == new_text[k] by {
            assert(s[open + k] == t[open + k + shift]);
        }
        assert(old_text =~= new_text);
    } else {
        lemma_prompt_ahead(s, t, name, class, description);
    }
}

/// Up to the opening of its prompt a function is declared where it was.
proof fn lemma_declaration_prefix(s: Seq<char>, t: Seq<char>, name: Seq<char>, open: int)
    requires
        identifier(name),
        prompt_open(s, name) is Some,
        open == (prompt_open(s, name)->0).0,
        open <= s.len(),
        open <= t.len(),
        forall|j: int| 0 <= j < open ==> s[j] == t[j],
    ensures
        declaration(t, "function"@, name) == declaration(s, "function"@, name),
{
    reveal_strlit("function");
    reveal_strlit("prompt");
    let function = "function"@;
    let prompt = "prompt"@;
    let len = s.len() as int;
    let start = declaration(s, function, name)->0;
    lemma_seek(declares(s, function, name), 0, len);
    assert(declares(s, function, name)(start));
    let at = space_end(s, start + 8);
    lemma_seek(solid(s), start + 8, len);
    let keyword = word_in_block(s, prompt, start)->0;
    let brace = block_start(s, start);
    let end = block_end(s, start);
    lemma_seek(opens_block(s, start), start, len);
    lemma_seek(ends_block(s, start), start, len);
    lemma_seek(words(s, prompt), brace + 1, end);
    assert(words(s, prompt)(keyword));
    let run = space_end(s, keyword + 6);
    lemma_seek(solid(s), keyword + 6, len);
    let quote = hash_end(s, run);
    lemma_seek(not_hash(s), run, len);
    assert(open == quote + 1);
    assert forall|k: int| 0 <= k < 8 implies s[start + k] == #[trigger] function[k] by {
        assert(s.subrange(start, start + 8)[k] == s[start + k]);
    }
    assert(s.subrange(keyword, keyword + 6)[0] == s[keyword]);
    assert(keyword >= at) by {
        if keyword < at {
            if keyword >= start + 8 {
                assert(!solid(s)(keyword));
            } else {
                assert(s[start + (keyword - start)] == function[keyword - start]);
            }
        }
    }
    assert(at + name.len() <= quote) by {
        if at + name.len() > quote {
            assert(s.subrange(at, at + name.len())[quote - at] == s[quote]);
            assert(ident_char(name[quote - at]));
        }
    }
    lemma_declares_prefix(s, t, function, name, start, open);
    assert forall|i: int| 0 <= i < start implies !#[trigger] declares(t, function, name)(i) by {
        if declares_at(t, function, name, i) {
            assert forall|k: int| 0 <= k < 8 implies t[i + k] == #[trigger] function[k] by {
                assert(t.subrange(i, i + 8)[k] == t[i + k]);
            }
            assert(s[start + 0] == function[0]);
            assert(i + 8 <= start) by {
                if i + 8 > start {
                    assert(t[i + (start - i)] == function[start - i]);
                }
            }
            lemma_seek(solid(t), i + 8, t.len() as int);
            assert(space_end(t, i + 8) <= start) by {
                if space_end(t, i + 8) > start {
                    assert(!solid(t)(start));
                }
            }
            lemma_declares_prefix(t, s, function, name, i, open);
            assert(declares(s, function, name)(i));
        }
    }
    assert(declares(t, function, name)(start));
    lemma_seek_is(declares(t, function, name), 0, t.len() as int, start);
}

/// A run of `#` that ends before two texts part ends there in both.
proof fn lemma_hash_end_prefix(s: Seq<char>, t: Seq<char>, from: int, a: int)
    requires
        0 <= from < a <= s.len(),
        a <= t.len(),
        s[a - 1] == '\n',
        forall|j: int| 0 <= j < a ==> s[j] == t[j],
    ensures
        hash_end(t, from) == hash_end(s, from),
{
    lemma_seek(not_hash(s), from, s.len() as int);
    let r = hash_end(s, from);
    assert(r < a) by {
        if r >= a {
            assert(!not_hash(s)(a - 1));
        }
    }
    assert forall|j: int| from <= j < r implies !#[trigger] not_hash(t)(j) by {
        assert(!not_hash(s)(j));
    }
    assert(not_hash(s)(r));
    assert(not_hash(t)(r));
    lemma_seek_is(not_hash(t), from, t.len() as int, r);
}

/// Lines put above a class declare nothing, whatever the keyword.
proof fn lemma_front_declares_nothing(
    s: Seq<char>,
    out: Seq<char>,
    keyword: Seq<char>,
    name: Seq<char>,
    start: int,
    lines: Seq<Seq<char>>,
    indent: Seq<char>,
    i: int,
)
    requires
        identifier(keyword),
        identifier(name),
        0 <= start <= s.len(),
        start > 0 ==> s[start - 1] == '\n',
        lines.len() > 0,
        forall|k: int| 0 <= k < lines.len() ==> !(#[trigger] lines[k]).contains('\n'),
        blank(indent),
        !indent.contains('\n'),
        start + doc_lines(lines, indent).len() <= out.len(),
        mode_at(out, start) == Mode::Code,
        forall|j: int| 0 <= j < start ==> s[j] == out[j],
        out.subrange(start, start + doc_lines(lines, indent).len()) == doc_lines(lines, indent),
        0 <= i < start + doc_lines(lines, indent).len(),
        i < start ==> !declares_at(s, keyword, name, i),
    ensures
        !declares_at(out, keyword, name, i),
{
    reveal_strlit("/// ");
    let doc = doc_lines(lines, indent);
    let n = keyword.len() as int;
    if declares_at(out, keyword, name, i) {
        assert forall|k: int| 0 <= k < n implies out[i + k] == #[trigger] keyword[k] by {
            assert(out.subrange(i, i + n)[k] == out[i + k]);
        }
        assert(out[i + 0] == keyword[0]);
        assert(ident_char(keyword[0]));
        if i >= start {
            lemma_doc_lines_commented(out, start, lines, indent, i);
        } else {
            assert(out[start - 1] == '\n');
            assert(i + n < start) by {
                if i + n >= start {
                    assert(out[i + (start - 1 - i)] == keyword[start - 1 - i]);
                    assert(ident_char(keyword[start - 1 - i]));
                }
            }
            let at = space_end(out, i + n);
            lemma_seek(solid(out), i + n, out.len() as int);
            assert forall|k: int| 0 <= k < name.len() implies out[at + k] == #[trigger] name[k] by {
                assert(out.subrange(at, at + name.len())[k] == out[at + k]);
            }
            if at >= start {
                lemma_doc_first(lines, indent);
                let m = indent.len() as int;
                assert forall|k: int| 0 <= k <= m implies out[start + k] == #[trigger] doc[k] by {
                    assert(out.subrange(start, start + doc.len())[k] == out[start + k]);
                }
                assert(at <= start + m) by {
                    if at > start + m {
                        assert(!solid(out)(start + m));
                        assert(out[start + m] == doc[m]);
                    }
                }
                assert(out[start + (at - start)] == doc[at - start]);
                assert(out[at + 0] == name[0]);
                assert(ident_char(name[0]));
            } else {
                assert(at + name.len() < start) by {
                    if at + name.len() >= start {
                        assert(out[at + (start - 1 - at)] == name[start - 1 - at]);
                        assert(ident_char(name[start - 1 - at]));
                    }
                }
                lemma_declares_prefix(out, s, keyword, name, i, start);
            }
        }
    }
}

/// Descriptions that are applied one after another leave the prompt.
proof fn lemma_prompt_kept_by_all(
    s: Seq<char>,
    name: Seq<char>,
    classes: Seq<ClassModel>,
    n: int,
)
    requires
        identifier(name),
        prompt_site(s, name) is Some,
        classes_apart(s, classes),
        forall|k: int|
            0 <= k < classes.len() && (#[trigger] classes[k]).description is Some ==> class_outside(
                s,
                name,
                classes[k].class_name,
            ),
        0 <= n <= classes.len(),
    ensures
        ({
            let t = with_descriptions(s, classes.take(n));
            &&& prompt_site(t, name) is Some
            &&& prompt_text(t, name) == prompt_text(s, name)
            &&& forall|k: int|
                0 <= k < classes.len() && (#[trigger] classes[k]).description is Some
                    ==> class_outside(t, name, classes[k].class_name)
        }),
    decreases n,
{
    if n > 0 {
        lemma_prompt_kept_by_all(s, name, classes, n - 1);
        lemma_with_descriptions(s, classes, n - 1);
        let before = with_descriptions(s, classes.take(n - 1));
        assert(classes.take(n).drop_last() =~= classes.take(n - 1));
        assert(classes.take(n).last() == classes[n - 1]);
        match classes[n - 1].description {
            Some(description) => {
                let class = classes[n - 1].class_name;
                match described(before, class, description) {
                    Some(t) => {
                        lemma_own_class(before, t, class, description);
                        lemma_prompt_kept(before, t, name, class, description);
                        lemma_outside_kept(before, t, name, classes, n - 1, description);
                    },
                    None => {},
                }
            },
            None => {},
        }
    } else {
        assert(classes.take(0) =~= Seq::<ClassModel>::empty());
    }
}

/// Describing one class leaves the classes outside the function.
proof fn lemma_outside_kept(
    s: Seq<char>,
    t: Seq<char>,
    name: Seq<char>,
    classes: Seq<ClassModel>,
    n: int,
    description: Seq<char>,
)
    requires
        identifier(name),
        prompt_site(s, name) is Some,
        classes_apart(s, classes),
        0 <= n < classes.len(),
        classes[n].description == Some(description),
        described(s, classes[n].class_name, description) == Some(t),
        forall|k: int|
            0 <= k < classes.len() && (#[trigger] classes[k]).description is Some ==> class_outside(
                s,
                name,
                classes[k].class_name,
            ),
    ensures
        forall|k: int|
            0 <= k < classes.len() && (#[trigger] classes[k]).description is Some ==> class_outside(
                t,
                name,
                classes[k].class_name,
            ),
{
    let class = classes[n].class_name;
    lemma_own_class(s, t, class, description);
    lemma_prompt_kept(s, t, name, class, description);
    lemma_class_in_code(s, class);
    lemma_class_indent(s, class);
    let b = class_line(s, class);
    let a = doc_start(s, b);
    let lines = split(description, '\n');
    let indent = class_indent(s, class);
    let doc = doc_lines(lines, indent);
    let shift = t.len() - s.len();
    let start = declaration(s, "function"@, name)->0;
    let (open, close) = prompt_site(s, name)->0;
    lemma_split_nonempty(description, '\n');
    lemma_doc_lines_end(lines, indent);
    assert(shift == a + doc.len() - b);
    lemma_site_order(s, name);
    assert forall|k: int|
        0 <= k < classes.len() && (#[trigger] classes[k]).description is Some implies class_outside(
        t,
        name,
        classes[k].class_name,
    ) by {
        let other = classes[k].class_name;
        assert(class_outside(s, name, other));
        if k == n {
            lemma_own_block(s, t, class, description);
        } else {
            assert(class_line(s, class) != class_line(s, other)) by {
                if k < n {
                    assert(classes[k].description is Some && classes[n].description is Some);
                } else {
                    assert(classes[n].description is Some && classes[k].description is Some);
                }
            }
            lemma_other_class(s, t, class, description, other);
            lemma_class_in_code(s, other);
            lemma_class_in_code(t, other);
            assert(class_block(t, other).len() == class_block(s, other).len());
            let m = class_line(s, other);
            let again = s.take(doc_start(s, m)) + doc_lines(
                split(description, '\n'),
                class_indent(s, other),
            ) + s.skip(m);
            lemma_other_class(s, again, other, description, class);
            assert(class_block(s, other).len() == m - doc_start(s, m));
            assert(class_block(t, other).len() == class_line(t, other) - doc_start(
                t,
                class_line(t, other),
            ));
        }
    }
}

/// A function's prompt lies behind its declaration.
proof fn lemma_site_order(s: Seq<char>, name: Seq<char>)
    requires
        prompt_site(s, name) is Some,
    ensures
        0 <= declaration(s, "function"@, name)->0 < (prompt_site(s, name)->0).0 <= (prompt_site(
            s,
            name,
        )->0).1 < s.len(),
{
    let start = declaration(s, "function"@, name)->0;
    lemma_seek(declares(s, "function"@, name), 0, s.len() as int);
    assert forall|j: int| start <= j < s.len() implies #[trigger] s[j] == s[j + 0] by {}
    lemma_prompt_moved(s, s, name, 0);
}

/// Where the block of a class begins once it has been replaced.
proof fn lemma_own_block(s: Seq<char>, t: Seq<char>, name: Seq<char>, description: Seq<char>)
    requires
        class_in_code(s, name),
        described(s, name, description) == Some(t),
    ensures
        doc_start(t, class_line(t, name)) == doc_start(s, class_line(s, name)),
{
    lemma_own_class(s, t, name, description);
    lemma_class_in_code(s, name);
    lemma_class_in_code(t, name);
    let lines = split(description, '\n');
    let doc = doc_lines(lines, class_indent(s, name));
    assert(class_block(t, name).len() == class_line(t, name) - doc_start(t, class_line(t, name)));
    assert(class_indent(t, name) == class_indent(s, name)) by {
        lemma_own_indent(s, t, name, description);
    }
}

/// The indentation of a class stays when its block is replaced.
proof fn lemma_own_indent(s: Seq<char>, t: Seq<char>, name: Seq<char>, description: Seq<char>)
    requires
        class_in_code(s, name),
        described(s, name, description) == Some(t),
    ensures
        class_indent(t, name) == class_indent(s, name),
{
    lemma_class_in_code(s, name);
    lemma_own_class(s, t, name, description);
    law_description_reads_back(s, name, description);
    let b = class_line(s, name);
    let i = declaration(s, "class"@, name)->0;
    let shift = t.len() - s.len();
    let indent = class_indent(s, name);
    assert forall|j: int| b <= j < s.len() implies #[trigger] s[j] == t[j + shift] by {
        assert(t.skip(b + shift)[j - b] == s.skip(b)[j - b]);
    }
    assert forall|j: int| b <= j < i implies #[trigger] inked(s)(j) == inked(t)(j + shift) by {
        assert(s[j] == t[j + shift]);
    }
    lemma_seek_shift(inked(s), inked(t), b, i, shift);
    lemma_seek(inked(s), b, i);
    let ink = seek(inked(s), b, i);
    let gone = t.subrange(b + shift, ink + shift);
    assert forall|k: int| 0 <= k < indent.len() implies #[trigger] indent[k] == gone[k] by {
        assert(s[b + k] == t[b + k + shift]);
    }
    assert(indent =~= gone);
}

/// Descriptions leave the prompt: in the text that a change leaves, the
/// function's prompt is the one that was put in place, however many classes are
/// described. The function must be named by an identifier, and the classes,
/// declared each on a line of its own in code, must stand outside it.
pub proof fn law_descriptions_leave_the_prompt(s: Seq<char>, func: FunctionModel)
    requires
        identifier(func.function_name),
        prompt_site(prompt_placed(s, func), func.function_name) is Some,
        classes_apart(prompt_placed(s, func), func.classes),
        forall|k: int|
            0 <= k < func.classes.len() && (#[trigger] func.classes[k]).description is Some
                ==> class_outside(
                prompt_placed(s, func),
                func.function_name,
                func.classes[k].class_name,
            ),
    ensures
        prompt_text(after_change(s, func), func.function_name) == prompt_text(
            prompt_placed(s, func),
            func.function_name,
        ),
{
    let classes = func.classes;
    let placed = prompt_placed(s, func);
    let n = classes.len() as int;
    assert(classes.take(n) =~= classes);
    lemma_prompt_kept_by_all(placed, func.function_name, classes, n);
    if changed(s, func) is None {
        lemma_nothing_described(placed, classes);
    }
}

/// Nothing described is nothing described of any class.
proof fn lemma_none_described(s: Seq<char>, classes: Seq<ClassModel>)
    ensures
        !some_described(s, classes) <==> forall|k: int|
            0 <= k < classes.len() ==> ((#[trigger] classes[k]).description matches Some(
                description,
            ) ==> described(s, classes[k].class_name, description) is None),
    decreases classes.len(),
{
    if classes.len() > 0 {
        let front = classes.drop_last();
        let n = classes.len() - 1;
        lemma_none_described(s, front);
        assert forall|k: int| 0 <= k < n implies #[trigger] classes[k] == front[k] by {}
        if !some_described(s, front) {
            lemma_nothing_described(s, front);
            assert(classes[n] == classes.last());
        } else {
            let k = choose|k: int|
                0 <= k < front.len() && (#[trigger] front[k]).description is Some && described(
                    s,
                    front[k].class_name,
                    front[k].description->0,
                ) is Some;
            assert(classes[k] == front[k]);
        }
    }
}

/// When there is nothing to change: neither the prompt nor any one of the
/// descriptions, each put to the text as it stands, would change it.
pub proof fn law_no_change_means_nothing_new(s: Seq<char>, func: FunctionModel)
    ensures
        changed(s, func) is None <==> replaced_prompt(s, func.function_name, func.prompt_text)
            is None && forall|k: int|
            0 <= k < func.classes.len() ==> ((#[trigger] func.classes[k]).description matches Some(
                description,
            ) ==> described(s, func.classes[k].class_name, description) is None),
{
    lemma_none_described(s, func.classes);
}

// ---------------------------------------------------------------------------
// Declarations
// ---------------------------------------------------------------------------

/// A letter, a digit or an underscore of ASCII.
pub open spec fn name_char(c: char) -> bool {
    'a' <= c <= 'z' || 'A' <= c <= 'Z' || '0' <= c <= '9' || c == '_'
}

/// At `i` stands `keyword`, as a word of its own, with white space behind it,
/// and then, at `at`, `name`, as a word of its own.
pub open spec fn introduces(
    s: Seq<char>,
    keyword: Seq<char>,
    name: Seq<char>,
    i: int,
    at: int,
) -> bool {
    &&& 0 <= i
    &&& i + keyword.len() < at
    &&& at + name.len() <= s.len()
    &&& s.subrange(i, i + keyword.len()) == keyword
    &&& i > 0 ==> !name_char(s[i - 1])
    &&& forall|k: int|
        i + keyword.len() <= k < at ==> ({
            let c = #[trigger] s[k];
            c == ' ' || c == '\t' || c == '\n' || c == '\x0C' || c == '\r'
        })
    &&& s.subrange(at, at + name.len()) == name
    &&& at + name.len() < s.len() ==> !name_char(s[at + name.len()])
}

/// A keyword introduces a name at one place behind it only.
proof fn lemma_introduces(s: Seq<char>, keyword: Seq<char>, name: Seq<char>, i: int)
    requires
        identifier(name),
        0 <= i < s.len(),
    ensures
        mentions_at(s, keyword, name, i) <==> exists|at: int|
            introduces(s, keyword, name, i, at),
{
    let after = i + keyword.len();
    if mentions_at(s, keyword, name, i) {
        let at = space_end(s, after);
        lemma_seek(solid(s), after, s.len() as int);
        assert forall|k: int| after <= k < at implies ({
            let c = #[trigger] s[k];
            c == ' ' || c == '\t' || c == '\n' || c == '\x0C' || c == '\r'
        }) by {
            assert(!solid(s)(k));
        }
        assert(introduces(s, keyword, name, i, at));
    }
    if exists|at: int| introduces(s, keyword, name, i, at) {
        let at = choose|at: int| introduces(s, keyword, name, i, at);
        assert forall|k: int| after <= k < at implies !#[trigger] solid(s)(k) by {
            let c = s[k];
        }
        assert(ident_char(name[0]));
        assert(s.subrange(at, at + name.len())[0] == s[at]);
        assert(solid(s)(at));
        lemma_seek_is(solid(s), after, s.len() as int, at);
    }
}

/// A declaration is found exactly where the keyword introduces the name outside
/// a comment for the first time; where it does so nowhere, none is found.
pub proof fn law_declarations_are_introduced_first(
    s: Seq<char>,
    keyword: Seq<char>,
    name: Seq<char>,
)
    requires
        identifier(name),
        keyword.len() > 0,
    ensures
        match declaration(s, keyword, name) {
            Some(i) => 0 <= i < s.len() && mode_at(s, i) != Mode::Comment && (exists|at: int|
                introduces(s, keyword, name, i, at)) && forall|j: int, at: int|
                0 <= j < i && mode_at(s, j) != Mode::Comment ==> !#[trigger] introduces(
                    s,
                    keyword,
                    name,
                    j,
                    at,
                ),
            None => forall|j: int, at: int|
                0 <= j < s.len() && mode_at(s, j) != Mode::Comment ==> !#[trigger] introduces(
                    s,
                    keyword,
                    name,
                    j,
                    at,
                ),
        },
{
    let p = declares(s, keyword, name);
    let n = s.len() as int;
    let found = seek(p, 0, n);
    lemma_seek(p, 0, n);
    assert forall|j: int, at: int|
        0 <= j < found && mode_at(s, j) != Mode::Comment implies !#[trigger] introduces(
        s,
        keyword,
        name,
        j,
        at,
    ) by {
        assert(!p(j));
        lemma_introduces(s, keyword, name, j);
    }
    if found < n {
        assert(p(found));
        lemma_introduces(s, keyword, name, found);
    }
}

/// A prompt stands between quotes with the same number of hashes on either
/// side: in front of the opening quote, and behind the closing one, which is
/// the first such quote.
pub proof fn law_prompts_stand_between_hashes(s: Seq<char>, name: Seq<char>)
    requires
        prompt_site(s, name) is Some,
    ensures
        ({
            let (open, close) = prompt_site(s, name)->0;
            exists|hashes: int| #[trigger]
                between_hashes(s, open, close, hashes) && forall|q: int|
                    open <= q < close ==> !#[trigger] closes_with(s, q, hashes)
        }),
{
    let (open, hashes) = prompt_open(s, name)->0;
    let close = (prompt_site(s, name)->0).1;
    let n = s.len() as int;
    let start = declaration(s, "function"@, name)->0;
    lemma_site_order(s, name);
    let p = closes(s, hashes);
    lemma_seek(p, open, n);
    assert(p(close));
    let keyword = word_in_block(s, "prompt"@, start)->0;
    let from = block_start(s, start) + 1;
    let to = block_end(s, start);
    lemma_seek(opens_block(s, start), start, n);
    lemma_seek(ends_block(s, start), start, n);
    assert(from <= to);
    lemma_seek(words(s, "prompt"@), from, to);
    reveal_strlit("prompt");
    assert(words(s, "prompt"@)(keyword));
    let first = space_end(s, keyword + 6);
    lemma_seek(solid(s), keyword + 6, n);
    lemma_seek(not_hash(s), first, n);
    assert forall|k: int| open - 1 - hashes <= k < open - 1 implies s[k] == '#' by {
        assert(!not_hash(s)(k));
    }
    assert forall|q: int| open <= q <= close implies closes_with(s, q, hashes) == #[trigger] p(
        q,
    ) by {
        lemma_closes_with(s, q, hashes);
    }
    assert(closes_with(s, close, hashes));
    assert forall|q: int| open <= q < close implies !#[trigger] closes_with(s, q, hashes) by {
        assert(!p(q));
    }
    assert(between_hashes(s, open, close, hashes));
}

/// At `i` stands the word `prompt`.
pub open spec fn prompt_word(s: Seq<char>, i: int) -> bool {
    &&& 0 <= i
    &&& i + 6 <= s.len()
    &&& s.subrange(i, i + 6) == seq!['p', 'r', 'o', 'm', 'p', 't']
    &&& i > 0 ==> !name_char(s[i - 1])
    &&& i + 6 < s.len() ==> !name_char(s[i + 6])
}

/// The prompt of a function follows the first word `prompt` in the function's
/// block, with nothing but white space and hashes between them.
pub proof fn law_prompts_follow_the_first_keyword(s: Seq<char>, name: Seq<char>)
    requires
        prompt_site(s, name) is Some,
    ensures
        ({
            let (open, close) = prompt_site(s, name)->0;
            let start = declaration(s, "function"@, name)->0;
            exists|keyword: int| #[trigger]
                prompt_word(s, keyword) && block_start(s, start) < keyword < block_end(s, start)
                    && keyword + 6 < open && (forall|i: int|
                    block_start(s, start) < i < keyword ==> !#[trigger] prompt_word(s, i)) && (
                forall|i: int|
                    keyword + 6 <= i < open - 1 ==> ({
                        let c = #[trigger] s[i];
                        c == ' ' || c == '\t' || c == '\n' || c == '\x0C' || c == '\r' || c == '#'
                    }))
        }),
{
    reveal_strlit("prompt");
    let n = s.len() as int;
    let open = (prompt_site(s, name)->0).0;
    let start = declaration(s, "function"@, name)->0;
    let keyword = word_in_block(s, "prompt"@, start)->0;
    let from = block_start(s, start) + 1;
    let to = block_end(s, start);
    let p = words(s, "prompt"@);
    assert("prompt"@ =~= seq!['p', 'r', 'o', 'm', 'p', 't']);
    lemma_site_order(s, name);
    lemma_seek(opens_block(s, start), start, n);
    lemma_seek(ends_block(s, start), start, n);
    assert(from <= to);
    lemma_seek(p, from, to);
    assert(p(keyword));
    let first = space_end(s, keyword + 6);
    lemma_seek(solid(s), keyword + 6, n);
    lemma_seek(not_hash(s), first, n);
    assert forall|i: int| keyword + 6 <= i < open - 1 implies ({
        let c = #[trigger] s[i];
        c == ' ' || c == '\t' || c == '\n' || c == '\x0C' || c == '\r' || c == '#'
    }) by {
        if i < first {
            assert(!solid(s)(i));
        } else {
            assert(!not_hash(s)(i));
        }
    }
    assert forall|i: int| from <= i < keyword implies !#[trigger] prompt_word(s, i) by {
        assert(!p(i));
    }
    assert(prompt_word(s, keyword));
}

/// At `q` stands a quote with exactly so many hashes behind it.
pub open spec fn closes_with(s: Seq<char>, q: int, hashes: int) -> bool {
    &&& 0 <= q
    &&& q + hashes < s.len()
    &&& s[q] == '"'
    &&& forall|k: int| q < k <= q + hashes ==> s[k] == '#'
    &&& q + hashes + 1 < s.len() ==> s[q + hashes + 1] != '#'
}

/// From `open` to `close` a text stands between quotes with so many hashes.
pub open spec fn between_hashes(s: Seq<char>, open: int, close: int, hashes: int) -> bool {
    &&& hashes >= 1
    &&& 0 <= open - 1 - hashes
    &&& open <= close
    &&& s[open - 1] == '"'
    &&& forall|k: int| open - 1 - hashes <= k < open - 1 ==> s[k] == '#'
    &&& closes_with(s, close, hashes)
}

proof fn lemma_closes_with(s: Seq<char>, q: int, hashes: int)
    requires
        0 <= q < s.len(),
        hashes >= 1,
    ensures
        closes_with(s, q, hashes) == closes(s, hashes)(q),
{
    let p = not_hash(s);
    let n = s.len() as int;
    lemma_seek(p, q + 1, n);
    if closes(s, hashes)(q) {
        assert forall|k: int| q < k <= q + hashes implies s[k] == '#' by {
            assert(!p(k));
        }
        if q + hashes + 1 < n {
            assert(p(q + hashes + 1));
        }
    }
    if closes_with(s, q, hashes) {
        assert forall|k: int| q + 1 <= k < q + 1 + hashes implies !#[trigger] p(k) by {
            assert(s[k] == '#');
        }
        lemma_seek_is(p, q + 1, n, q + 1 + hashes);
    }
}

/// A change of one file leaves its path. Where the function is declared the
/// change is the one of its text; where it is not mentioned nothing changes.
pub proof fn law_files_change_by_their_text(file: FileModel, func: FunctionModel)
    ensures
        modified_file(file, func).path == file.path,
        declaration(file.content, "function"@, func.function_name) is Some ==> modified_file(
            file,
            func,
        ).content == after_change(file.content, func),
        (forall|i: int|
            0 <= i < file.content.len() ==> !#[trigger] mentions_at(
                file.content,
                "function"@,
                func.function_name,
                i,
            )) ==> modified_file(file, func) == file,
{
    let s = file.content;
    let n = s.len() as int;
    let p = mentions(s, "function"@, func.function_name);
    let q = declares(s, "function"@, func.function_name);
    lemma_seek(p, 0, n);
    lemma_seek(q, 0, n);
    if declaration(s, "function"@, func.function_name) is Some {
        let i = seek(q, 0, n);
        assert(q(i));
        assert(p(i));
        if mention(s, "function"@, func.function_name) is None {
            assert(!p(i));
        }
    }
    if mention(s, "function"@, func.function_name) is Some {
        let i = seek(p, 0, n);
        assert(p(i));
        assert(mentions_at(s, "function"@, func.function_name, i));
    }
}

} // verus!
