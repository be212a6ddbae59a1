//! Which templates can be handed to the template engine.
//!
//! The engine does not survive every template. Its parser and its code
//! generator call themselves for each operator in a chain, and its column
//! counter is narrow; some filters reserve as much room as a number tells them
//! to, sorting needs an order that not all values have, a division test fails
//! on zero, a slice can step backwards out of range, a sequence can be repeated
//! or joined beyond the range of a word, and a template that runs itself again,
//! or a loop that keeps what it sets, can nest values without end. The templates
//! that are told apart here have none of these. Memory is taken to suffice, as
//! it is everywhere.

use vstd::prelude::*;
use vstd::string::*;

use crate::applier::{bound_after, is_ident_continue, skip_whitespace, space_end, word_at};
use crate::text::{
    chars_of, is_ascii_space, is_ascii_whitespace, lemma_seek_is, matches_at, occurs, occurs_at, seek,
};

verus! {

/// The most characters of a template: the engine counts columns in 16
/// bits, and counts one on where it reports an error.
pub const MAX_SOURCE: usize = 65534;

/// The most characters of code in a template. Each call of the parser
/// or the code generator inside another takes up at least one of them, and so
/// does each level of a value that a template builds; the engine itself lets
/// its parser go 150 levels deep, with a dozen calls for each.
pub const MAX_CODE: usize = 1000;

/// How often a modest template multiplies.
pub const MAX_PRODUCTS: usize = 2;

/// How often a modest template adds something else than a small number.
pub const MAX_SUMS: usize = 8;

/// The most digits of a number that a template may multiply by, step by or
/// count to.
pub const MAX_DIGITS: usize = 4;

// ---------------------------------------------------------------------------
// Text and code
// ---------------------------------------------------------------------------

/// What the character at a position of a template is part of.
#[derive(Clone, Copy, Debug, PartialEq, Eq, Structural)]
pub enum Part {
    /// Text that is rendered as it stands.
    Data,
    /// Text, behind a `{`.
    Brace,
    Comment,
    /// A comment, behind a `#`.
    Hash,
    Code,
    /// Code, behind a character that ends it if a `}` follows.
    Ending,
    /// A string in code.
    Quoted { quote: char },
    /// A string in code, behind a `\`.
    Escaped { quote: char },
}

/// Where a reading of a template is: the part, whether the code stands in a
/// `{% %}` tag rather than in `{{ }}`, and the brackets that are open there.
#[derive(Clone, Copy, Debug, PartialEq, Eq, Structural)]
pub struct Place {
    pub part: Part,
    pub tag: bool,
    pub open: i64,
}

/// The place behind the character `c` of code.
pub open spec fn code_step(tag: bool, open: i64, c: char) -> Place {
    if c == '"' || c == '\'' {
        Place { part: Part::Quoted { quote: c }, tag, open }
    } else if c == '(' || c == '[' || c == '{' {
        Place { part: Part::Code, tag, open: (open + 1) as i64 }
    } else if c == ')' || c == ']' {
        Place { part: Part::Code, tag, open: (open - 1) as i64 }
    } else if c == '}' {
        if !tag && open == 0 {
            Place { part: Part::Ending, tag, open }
        } else {
            Place { part: Part::Code, tag, open: (open - 1) as i64 }
        }
    } else if c == '%' && tag && open == 0 {
        Place { part: Part::Ending, tag, open }
    } else {
        Place { part: Part::Code, tag, open }
    }
}

/// The place behind the character `c`.
pub open spec fn stepped(place: Place, c: char) -> Place {
    let Place { part, tag, open } = place;
    match part {
        Part::Data => Place {
            part: if c == '{' {
                Part::Brace
            } else {
                Part::Data
            },
            tag,
            open,
        },
        Part::Brace => if c == '{' {
            Place { part: Part::Code, tag: false, open }
        } else if c == '%' {
            Place { part: Part::Code, tag: true, open }
        } else if c == '#' {
            Place { part: Part::Comment, tag, open }
        } else {
            Place { part: Part::Data, tag, open }
        },
        Part::Comment => Place {
            part: if c == '#' {
                Part::Hash
            } else {
                Part::Comment
            },
            tag,
            open,
        },
        Part::Hash => Place {
            part: if c == '}' {
                Part::Data
            } else if c == '#' {
                Part::Hash
            } else {
                Part::Comment
            },
            tag,
            open,
        },
        Part::Code => code_step(tag, open, c),
        Part::Ending => if c == '}' {
            Place { part: Part::Data, tag, open }
        } else if tag {
            code_step(tag, open, c)
        } else {
            code_step(tag, (open - 1) as i64, c)
        },
        Part::Quoted { quote } => Place {
            part: if c == quote {
                Part::Code
            } else if c == '\\' {
                Part::Escaped { quote }
            } else {
                part
            },
            tag,
            open,
        },
        Part::Escaped { quote } => Place { part: Part::Quoted { quote }, tag, open },
    }
}

/// The place in front of position `i`.
pub open spec fn place_at(s: Seq<char>, i: int) -> Place
    decreases i,
{
    if i <= 0 {
        Place { part: Part::Data, tag: false, open: 0 }
    } else {
        stepped(place_at(s, i - 1), s[i - 1])
    }
}

/// The character at `i` is code.
pub open spec fn code_at(s: Seq<char>, i: int) -> bool {
    place_at(s, i).part == Part::Code || place_at(s, i).part == Part::Ending
}

/// The `%` of a `{%` stands at `i`.
pub open spec fn tag_at(s: Seq<char>, i: int) -> bool {
    place_at(s, i).part == Part::Brace && s[i] == '%'
}

impl Place {
    /// The place behind the character `c` of code.
    fn step_in_code(tag: bool, open: i64, c: char) -> (r: Place)
        requires
            i64::MIN < open < i64::MAX,
        ensures
            r == code_step(tag, open, c),
            open - 1 <= r.open <= open + 1,
    {
        if c == '"' || c == '\'' {
            Place { part: Part::Quoted { quote: c }, tag, open }
        } else if c == '(' || c == '[' || c == '{' {
            Place { part: Part::Code, tag, open: open + 1 }
        } else if c == ')' || c == ']' {
            Place { part: Part::Code, tag, open: open - 1 }
        } else if c == '}' {
            if !tag && open == 0 {
                Place { part: Part::Ending, tag, open }
            } else {
                Place { part: Part::Code, tag, open: open - 1 }
            }
        } else if c == '%' && tag && open == 0 {
            Place { part: Part::Ending, tag, open }
        } else {
            Place { part: Part::Code, tag, open }
        }
    }

    /// The place behind the character `c`.
    fn step(&self, c: char) -> (r: Place)
        requires
            i64::MIN + 1 < self.open < i64::MAX,
        ensures
            r == stepped(*self, c),
            self.open - 2 <= r.open <= self.open + 1,
    {
        let tag = self.tag;
        let open: i64 = self.open;
        match self.part {
            Part::Data => Place {
                part: if c == '{' {
                    Part::Brace
                } else {
                    Part::Data
                },
                tag,
                open,
            },
            Part::Brace => if c == '{' {
                Place { part: Part::Code, tag: false, open }
            } else if c == '%' {
                Place { part: Part::Code, tag: true, open }
            } else if c == '#' {
                Place { part: Part::Comment, tag, open }
            } else {
                Place { part: Part::Data, tag, open }
            },
            Part::Comment => Place {
                part: if c == '#' {
                    Part::Hash
                } else {
                    Part::Comment
                },
                tag,
                open,
            },
            Part::Hash => Place {
                part: if c == '}' {
                    Part::Data
                } else if c == '#' {
                    Part::Hash
                } else {
                    Part::Comment
                },
                tag,
                open,
            },
            Part::Code => Place::step_in_code(tag, open, c),
            Part::Ending => if c == '}' {
                Place { part: Part::Data, tag, open }
            } else if tag {
                Place::step_in_code(tag, open, c)
            } else {
                Place::step_in_code(tag, open - 1, c)
            },
            Part::Quoted { quote } => Place {
                part: if c == quote {
                    Part::Code
                } else if c == '\\' {
                    Part::Escaped { quote }
                } else {
                    self.part
                },
                tag,
                open,
            },
            Part::Escaped { quote } => Place { part: Part::Quoted { quote }, tag, open },
        }
    }
}

// ---------------------------------------------------------------------------
// What follows
// ---------------------------------------------------------------------------

/// The character `c` stands at `i`.
pub open spec fn stands_at(s: Seq<char>, i: int, c: char) -> bool {
    0 <= i < s.len() && s[i] == c
}

/// `word` stands at `at`, with no identifier going on behind it.
pub open spec fn name_at(s: Seq<char>, word: Seq<char>, at: int) -> bool {
    occurs_at(s, word, at) && bound_after(s, at + word.len())
}

/// One of `words` stands at `at`, with no identifier going on behind it.
pub open spec fn one_of_at(s: Seq<char>, words: Seq<Seq<char>>, at: int) -> bool {
    exists|k: int| 0 <= k < words.len() && name_at(s, #[trigger] words[k], at)
}

/// Holds at the positions of `s` that are no digits.
pub open spec fn no_digit(s: Seq<char>) -> spec_fn(int) -> bool {
    |i: int| !('0' <= s[i] <= '9')
}

/// Where the number of a few digits ends that stands at `at`, if one does.
pub open spec fn number_end(s: Seq<char>, at: int) -> Option<int> {
    let end = seek(no_digit(s), at, s.len() as int);
    if at < end <= at + MAX_DIGITS && bound_after(s, end) {
        Some(end)
    } else {
        None
    }
}

/// Holds at a quote or a backslash.
pub open spec fn stops_text(s: Seq<char>, quote: char) -> spec_fn(int) -> bool {
    |i: int| s[i] == quote || s[i] == '\\'
}

/// Where the string without a backslash ends that stands at `at`, if one does.
pub open spec fn text_end(s: Seq<char>, at: int) -> Option<int> {
    if stands_at(s, at, '"') || stands_at(s, at, '\'') {
        let end = seek(stops_text(s, s[at]), at + 1, s.len() as int);
        if stands_at(s, end, s[at]) {
            Some(end + 1)
        } else {
            None
        }
    } else {
        None
    }
}

/// Behind `p` an argument list opens.
pub open spec fn called(s: Seq<char>, p: int) -> bool {
    stands_at(s, space_end(s, p), '(')
}

/// Where the first argument stands in the list that opens behind `p`.
pub open spec fn argument(s: Seq<char>, p: int) -> int {
    space_end(s, space_end(s, p) + 1)
}

/// What ends at `end` is the last argument.
pub open spec fn last_argument(s: Seq<char>, end: Option<int>) -> bool {
    match end {
        Some(e) => stands_at(s, space_end(s, e), ')'),
        None => false,
    }
}

/// What stands at `at` binds to the operand before it more tightly than a
/// product does.
pub open spec fn binds(s: Seq<char>, at: int) -> bool {
    ||| stands_at(s, at, '*') && stands_at(s, at + 1, '*')
    ||| stands_at(s, at, '|')
    ||| stands_at(s, at, '.')
    ||| stands_at(s, at, '[')
    ||| stands_at(s, at, '(')
}

/// The operand behind `p` is a number of a few digits, and nothing else.
pub open spec fn small_operand(s: Seq<char>, p: int) -> bool {
    match number_end(s, space_end(s, p)) {
        Some(end) => !binds(s, space_end(s, end)),
        None => false,
    }
}

/// Behind the second colon of a slice, at `p`, stands a number of a few digits
/// or nothing.
pub open spec fn small_step(s: Seq<char>, p: int) -> bool {
    let at = space_end(s, p);
    match number_end(s, at) {
        Some(end) => stands_at(s, space_end(s, end), ']'),
        None => stands_at(s, at, ']'),
    }
}

/// The list that opens behind `p` holds one or two numbers of a few digits.
pub open spec fn small_range(s: Seq<char>, p: int) -> bool {
    let first = number_end(s, argument(s, p));
    called(s, p) && (last_argument(s, first) || match first {
        Some(end) => {
            let comma = space_end(s, end);
            stands_at(s, comma, ',') && last_argument(
                s,
                number_end(s, space_end(s, comma + 1)),
            )
        },
        None => false,
    })
}

/// The list that opens behind `p` holds a number of a few digits that is not
/// zero.
pub open spec fn small_divisor(s: Seq<char>, p: int) -> bool {
    &&& called(s, p)
    &&& last_argument(s, number_end(s, argument(s, p)))
    &&& s[argument(s, p)] != '0'
}

/// Behind `p` stands no argument.
pub open spec fn no_argument(s: Seq<char>, p: int) -> bool {
    called(s, p) ==> stands_at(s, argument(s, p), ')')
}

/// At `at` stands the string `text`, as a whole argument.
pub open spec fn text_at(s: Seq<char>, text: Seq<char>, at: int) -> bool {
    text_end(s, at) == Some(at + 2 + text.len()) && occurs_at(s, text, at + 1)
}

/// What ends at `end` is a whole argument.
pub open spec fn whole_argument(s: Seq<char>, end: Option<int>) -> bool {
    match end {
        Some(e) => stands_at(s, space_end(s, e), ')') || stands_at(s, space_end(s, e), ','),
        None => false,
    }
}

/// At `at` stands a string that names a test, and not the one that divides.
pub open spec fn test_at(s: Seq<char>, at: int) -> bool {
    whole_argument(s, text_end(s, at)) && !text_at(s, "divisibleby"@, at)
}

/// The list that opens behind `p` holds one string, or a string and the name of
/// a test.
pub open spec fn attribute_test(s: Seq<char>, p: int) -> bool {
    let end = text_end(s, argument(s, p));
    &&& called(s, p)
    &&& whole_argument(s, end)
    &&& match end {
        Some(e) => stands_at(s, space_end(s, e), ',') ==> test_at(
            s,
            space_end(s, space_end(s, e) + 1),
        ),
        None => false,
    }
}

/// The first argument in the list that opens behind `p` is called `attribute`.
pub open spec fn attribute_argument(s: Seq<char>, p: int) -> bool {
    &&& called(s, p)
    &&& occurs_at(s, "attribute"@, argument(s, p))
    &&& stands_at(s, space_end(s, argument(s, p) + "attribute"@.len()), '=')
}

/// The first argument in the list that opens behind `p` is one of `texts`.
pub open spec fn text_argument(s: Seq<char>, texts: Seq<Seq<char>>, p: int) -> bool {
    &&& called(s, p)
    &&& whole_argument(s, text_end(s, argument(s, p)))
    &&& exists|k: int| 0 <= k < texts.len() && text_at(s, #[trigger] texts[k], argument(s, p))
}

// ---------------------------------------------------------------------------
// Bounded templates
// ---------------------------------------------------------------------------

/// The filters that are safe with any arguments: none takes a size, none
/// sorts, and none applies a filter or a test that a value names.
pub open spec fn safe_filters() -> Seq<Seq<char>> {
    seq![
        "abs"@,
        "attr"@,
        "bool"@,
        "capitalize"@,
        "count"@,
        "d"@,
        "default"@,
        "e"@,
        "escape"@,
        "first"@,
        "float"@,
        "int"@,
        "items"@,
        "join"@,
        "last"@,
        "length"@,
        "lines"@,
        "list"@,
        "lower"@,
        "max"@,
        "min"@,
        "pprint"@,
        "replace"@,
        "reverse"@,
        "round"@,
        "safe"@,
        "split"@,
        "string"@,
        "sum"@,
        "title"@,
        "trim"@,
        "unique"@,
        "upper"@,
        "zip"@,
    ]
}

/// The tags that are safe: none runs a part of the template by its name.
pub open spec fn safe_tags() -> Seq<Seq<char>> {
    seq![
        "if"@,
        "elif"@,
        "else"@,
        "endif"@,
        "for"@,
        "endfor"@,
        "set"@,
        "endset"@,
        "with"@,
        "endwith"@,
        "endfilter"@,
        "autoescape"@,
        "endautoescape"@,
        "do"@,
    ]
}

/// At `at` stands a safe filter, or one that tests or picks with a safe test, a
/// safe filter or an attribute.
pub open spec fn filter_ok(s: Seq<char>, at: int) -> bool {
    ||| one_of_at(s, safe_filters(), at)
    ||| (name_at(s, "select"@, at) || name_at(s, "reject"@, at)) && (no_argument(s, at + 6)
        || test_at(s, argument(s, at + 6)))
    ||| (name_at(s, "selectattr"@, at) || name_at(s, "rejectattr"@, at)) && attribute_test(
        s,
        at + 10,
    )
    ||| name_at(s, "map"@, at) && (attribute_argument(s, at + 3) || text_argument(
        s,
        safe_filters(),
        at + 3,
    ))
}

/// Where the name of a tag stands that opens in front of `p`: behind a sign
/// that trims white space, and behind white space.
pub open spec fn tag_name(s: Seq<char>, p: int) -> int {
    if stands_at(s, p, '-') || stands_at(s, p, '+') {
        space_end(s, p + 1)
    } else {
        space_end(s, p)
    }
}

/// The tag that opens in front of `p` is safe.
pub open spec fn tag_ok(s: Seq<char>, p: int) -> bool {
    let at = tag_name(s, p);
    ||| one_of_at(s, safe_tags(), at)
    ||| name_at(s, "filter"@, at) && filter_ok(s, space_end(s, at + 6))
}

/// `word` stands alone at `i`, and is not the name of an attribute.
pub open spec fn names(s: Seq<char>, word: Seq<char>, i: int) -> bool {
    word_at(s, word, i) && !stands_at(s, i - 1, '.')
}

/// What stands at `i` is neither a function of the engine nor its division
/// test, or is one with safe arguments.
pub open spec fn word_ok(s: Seq<char>, i: int) -> bool {
    &&& !names(s, "namespace"@, i)
    &&& !names(s, "debug"@, i)
    &&& names(s, "dict"@, i) ==> called(s, i + 4)
    &&& names(s, "range"@, i) ==> small_range(s, i + 5)
    &&& names(s, "divisibleby"@, i) ==> small_divisor(s, i + 11)
}

/// The brackets of the code that are open in front of `n`, each with the
/// number of colons that stand directly in it.
pub open spec fn brackets(s: Seq<char>, n: int) -> Seq<(char, usize)>
    decreases n,
{
    if n <= 0 {
        Seq::empty()
    } else {
        let before = brackets(s, n - 1);
        let c = s[n - 1];
        if !code_at(s, n - 1) {
            before
        } else if c == '(' || c == '[' || c == '{' {
            before.push((c, 0usize))
        } else if before.len() == 0 {
            before
        } else if c == ')' || c == ']' || c == '}' {
            before.drop_last()
        } else if c == ':' {
            before.drop_last().push((before.last().0, (before.last().1 + 1) as usize))
        } else {
            before
        }
    }
}

/// A colon at `i` is the second of a slice.
pub open spec fn second_colon(s: Seq<char>, i: int) -> bool {
    let open = brackets(s, i);
    s[i] == ':' && open.len() > 0 && open.last().0 == '[' && open.last().1 > 0
}

/// A product, or a power, is asked for at `i`.
pub open spec fn product_at(s: Seq<char>, i: int) -> bool {
    code_at(s, i) && s[i] == '*' && !stands_at(s, i + 1, '*')
}

/// Something else than a small number is added at `i`.
pub open spec fn sum_at(s: Seq<char>, i: int) -> bool {
    code_at(s, i) && s[i] == '+' && !small_operand(s, i + 1)
}

/// What stands at `i` is safe, as far as it is code.
pub open spec fn safe_at(s: Seq<char>, i: int) -> bool {
    &&& tag_at(s, i) ==> tag_ok(s, i + 1)
    &&& code_at(s, i) && s[i] == '|' ==> filter_ok(s, space_end(s, i + 1))
    &&& code_at(s, i) && second_colon(s, i) ==> small_step(s, i + 1)
    &&& code_at(s, i) ==> word_ok(s, i)
}

/// How many characters in front of `n` are code, white space left out.
pub open spec fn code_count(s: Seq<char>, n: int) -> nat
    decreases n,
{
    if n <= 0 {
        0
    } else {
        code_count(s, n - 1) + if code_at(s, n - 1) && !is_ascii_space(s[n - 1]) {
            1nat
        } else {
            0nat
        }
    }
}

/// How many products are asked for in front of `n`.
pub open spec fn product_count(s: Seq<char>, n: int) -> nat
    decreases n,
{
    if n <= 0 {
        0
    } else {
        product_count(s, n - 1) + if product_at(s, n - 1) {
            1nat
        } else {
            0nat
        }
    }
}

/// How many sums are asked for in front of `n`.
pub open spec fn sum_count(s: Seq<char>, n: int) -> nat
    decreases n,
{
    if n <= 0 {
        0
    } else {
        sum_count(s, n - 1) + if sum_at(s, n - 1) {
            1nat
        } else {
            0nat
        }
    }
}

/// What can be read of a loop, but for what divides by the number of its
/// arguments.
pub open spec fn loop_fields() -> Seq<Seq<char>> {
    seq![
        "index"@,
        "index0"@,
        "revindex"@,
        "revindex0"@,
        "first"@,
        "last"@,
        "length"@,
        "depth"@,
        "depth0"@,
        "previtem"@,
        "nextitem"@,
        "changed"@,
    ]
}

/// Behind the name of a loop, at `p`, a field of it is read.
pub open spec fn field_at(s: Seq<char>, p: int) -> bool {
    stands_at(s, p, '.') && one_of_at(s, loop_fields(), space_end(s, p + 1))
}

/// A loop opens in front of `n`.
pub open spec fn loops(s: Seq<char>, n: int) -> bool {
    exists|i: int| 0 <= i < n && #[trigger] tag_at(s, i) && name_at(s, "for"@, tag_name(s, i + 1))
}

/// At `i` stands what can carry a value from one turn of a loop to the next,
/// or start the loop anew.
pub open spec fn keeps_at(s: Seq<char>, i: int) -> bool {
    ||| tag_at(s, i) && name_at(s, "set"@, tag_name(s, i + 1))
    ||| code_at(s, i) && (names(s, "recursive"@, i) || (names(s, "loop"@, i) && !field_at(s, i + 4)))
}

/// In front of `n` stands what can carry a value from one turn of a loop to
/// the next, or start the loop anew.
pub open spec fn keeps(s: Seq<char>, n: int) -> bool {
    exists|i: int| 0 <= i < n && #[trigger] keeps_at(s, i)
}

/// A template that the engine survives as long as no sequence outgrows a word.
pub open spec fn bounded(source: Seq<char>) -> bool {
    let n = source.len() as int;
    &&& n <= MAX_SOURCE
    &&& code_count(source, n) <= MAX_CODE
    &&& !(loops(source, n) && keeps(source, n))
    &&& forall|i: int| 0 <= i < n ==> #[trigger] safe_at(source, i)
}

/// A template that lets no sequence outgrow a word: it multiplies by small
/// numbers only, and seldom, and seldom adds.
pub open spec fn modest(source: Seq<char>) -> bool {
    let n = source.len() as int;
    &&& product_count(source, n) <= MAX_PRODUCTS
    &&& sum_count(source, n) <= MAX_SUMS
    &&& forall|i: int| 0 <= i < n && #[trigger] product_at(source, i) ==> small_operand(source, i + 1)
}

/// The filters that make no sequence.
pub open spec fn scalar_filters() -> Seq<Seq<char>> {
    seq![
        "abs"@,
        "attr"@,
        "bool"@,
        "capitalize"@,
        "count"@,
        "d"@,
        "default"@,
        "e"@,
        "escape"@,
        "first"@,
        "float"@,
        "int"@,
        "join"@,
        "last"@,
        "length"@,
        "lower"@,
        "max"@,
        "min"@,
        "pprint"@,
        "round"@,
        "safe"@,
        "string"@,
        "sum"@,
        "title"@,
        "trim"@,
        "upper"@,
    ]
}

/// The code at `i` makes no sequence: no list and no tuple stands there, no
/// filter but the scalar ones, and no range.
pub open spec fn scalar_at(s: Seq<char>, i: int) -> bool {
    &&& s[i] != '['
    &&& s[i] != ','
    &&& s[i] == '(' ==> !stands_at(s, space_end(s, i + 1), ')')
    &&& s[i] == '|' ==> one_of_at(s, scalar_filters(), space_end(s, i + 1))
    &&& !names(s, "range"@, i)
}

/// A template that makes no sequence.
pub open spec fn scalar(source: Seq<char>) -> bool {
    forall|i: int|
        0 <= i < source.len() && #[trigger] code_at(source, i) ==> scalar_at(source, i)
}

/// A template that the engine compiles without a panic.
pub open spec fn compilable(source: Seq<char>) -> bool {
    bounded(source) && (modest(source) || scalar(source))
}

/// A template that the engine compiles, and renders with a JSON value, without
/// a panic. Where there is no sequence to begin with and none is made, it may
/// multiply and add at will.
pub open spec fn renderable(source: Seq<char>, json: Seq<char>) -> bool {
    bounded(source) && (modest(source) || (scalar(source) && !json.contains('[')))
}

// ---------------------------------------------------------------------------
// The test
// ---------------------------------------------------------------------------

/// Whether `c` stands at `i`.
fn is_at(s: &Vec<char>, i: usize, c: char) -> (r: bool)
    ensures
        r == stands_at(s@, i as int, c),
        r ==> i < usize::MAX,
{
    let len: usize = s.len();
    i < len && s[i] == c
}

/// Whether `word` stands at `at`, with no identifier going on behind it.
fn is_name_at(s: &Vec<char>, word: &str, at: usize) -> (r: bool)
    ensures
        r == name_at(s@, word@, at as int),
        r ==> at + word@.len() <= usize::MAX,
{
    let chars = chars_of(word);
    let len: usize = chars.len();
    let end: usize = s.len();
    matches_at(s, &chars, at) && (len >= end - at || !is_ident_continue(s[at + len]))
}

/// Whether one of `words` stands at `at`, with no identifier going on behind.
fn is_one_of_at(s: &Vec<char>, words: &Vec<&'static str>, at: usize) -> (r: bool)
    ensures
        r == one_of_at(s@, words.deep_view(), at as int),
{
    let mut k: usize = 0;
    while k < words.len()
        invariant
            k <= words.len(),
            forall|j: int|
                0 <= j < k ==> !name_at(s@, #[trigger] words.deep_view()[j], at as int),
        decreases words.len() - k,
    {
        assert(words.deep_view()[k as int] == words@[k as int]@);
        if is_name_at(s, words[k], at) {
            return true;
        }
        k = k + 1;
    }
    false
}

/// Where a number of a few digits ends.
fn find_number_end(s: &Vec<char>, at: usize) -> (r: Option<usize>)
    ensures
        match r {
            Some(end) => number_end(s@, at as int) == Some(end as int) && at < end <= s@.len(),
            None => number_end(s@, at as int) is None,
        },
{
    if at >= s.len() {
        return None;
    }
    let ghost p = no_digit(s@);
    let mut end: usize = at;
    while end < s.len() && '0' <= s[end] && s[end] <= '9'
        invariant
            at <= end <= s@.len(),
            p == no_digit(s@),
            forall|j: int| at <= j < end ==> !#[trigger] p(j),
        decreases s.len() - end,
    {
        end = end + 1;
    }
    proof {
        if end < s@.len() {
            assert(p(end as int));
        }
        lemma_seek_is(p, at as int, s@.len() as int, end as int);
    }
    if end > at && end - at <= MAX_DIGITS && (end >= s.len() || !is_ident_continue(s[end])) {
        Some(end)
    } else {
        None
    }
}

/// Where a string without a backslash ends.
fn find_text_end(s: &Vec<char>, at: usize) -> (r: Option<usize>)
    ensures
        match r {
            Some(end) => text_end(s@, at as int) == Some(end as int) && at < end <= s@.len(),
            None => text_end(s@, at as int) is None,
        },
{
    if !is_at(s, at, '"') && !is_at(s, at, '\'') {
        return None;
    }
    let quote = s[at];
    let ghost p = stops_text(s@, quote);
    let mut end: usize = at + 1;
    while end < s.len() && s[end] != quote && s[end] != '\\'
        invariant
            at < end <= s@.len(),
            p == stops_text(s@, quote),
            forall|j: int| at < j < end ==> !#[trigger] p(j),
        decreases s.len() - end,
    {
        end = end + 1;
    }
    proof {
        if end < s@.len() {
            assert(p(end as int));
        }
        lemma_seek_is(p, at + 1, s@.len() as int, end as int);
    }
    if is_at(s, end, quote) {
        Some(end + 1)
    } else {
        None
    }
}

/// Whether an argument list opens behind `p`.
fn is_called(s: &Vec<char>, p: usize) -> (r: bool)
    ensures
        r == called(s@, p as int),
        r ==> space_end(s@, p as int) < usize::MAX,
{
    is_at(s, skip_whitespace(s, p), '(')
}

/// Where the first argument stands in the list that opens behind `p`.
fn find_argument(s: &Vec<char>, p: usize) -> (r: usize)
    requires
        called(s@, p as int),
        space_end(s@, p as int) < usize::MAX,
    ensures
        r == argument(s@, p as int),
{
    let open: usize = skip_whitespace(s, p);
    skip_whitespace(s, open + 1)
}

/// Whether what ends at `end` is the last argument.
fn is_last_argument(s: &Vec<char>, end: Option<usize>) -> (r: bool)
    ensures
        r == last_argument(s@, crate::text::position(end)),
{
    match end {
        Some(e) => is_at(s, skip_whitespace(s, e), ')'),
        None => false,
    }
}

/// Whether the operand behind `p` is a number of a few digits.
fn is_small_operand(s: &Vec<char>, p: usize) -> (r: bool)
    ensures
        r == small_operand(s@, p as int),
{
    match find_number_end(s, skip_whitespace(s, p)) {
        Some(end) => {
            let at: usize = skip_whitespace(s, end);
            !((is_at(s, at, '*') && is_at(s, at + 1, '*')) || is_at(s, at, '|') || is_at(s, at, '.')
                || is_at(s, at, '[') || is_at(s, at, '('))
        },
        None => false,
    }
}

/// Whether a number of a few digits, or nothing, stands at `p` in a slice.
fn is_small_step(s: &Vec<char>, p: usize) -> (r: bool)
    ensures
        r == small_step(s@, p as int),
{
    let at: usize = skip_whitespace(s, p);
    match find_number_end(s, at) {
        Some(end) => is_at(s, skip_whitespace(s, end), ']'),
        None => is_at(s, at, ']'),
    }
}

/// Whether the list behind `p` holds one or two numbers of a few digits.
fn is_small_range(s: &Vec<char>, p: usize) -> (r: bool)
    ensures
        r == small_range(s@, p as int),
{
    if !is_called(s, p) {
        return false;
    }
    let first = find_number_end(s, find_argument(s, p));
    if is_last_argument(s, first) {
        return true;
    }
    match first {
        Some(end) => {
            let comma: usize = skip_whitespace(s, end);
            if !is_at(s, comma, ',') {
                return false;
            }
            let second: usize = skip_whitespace(s, comma + 1);
            is_last_argument(s, find_number_end(s, second))
        },
        None => false,
    }
}

/// Whether the list behind `p` holds a number of a few digits but zero.
fn is_small_divisor(s: &Vec<char>, p: usize) -> (r: bool)
    ensures
        r == small_divisor(s@, p as int),
{
    if !is_called(s, p) {
        return false;
    }
    let at: usize = find_argument(s, p);
    is_last_argument(s, find_number_end(s, at)) && s[at] != '0'
}

/// Whether no argument stands behind `p`.
fn has_no_argument(s: &Vec<char>, p: usize) -> (r: bool)
    ensures
        r == no_argument(s@, p as int),
        !r ==> called(s@, p as int) && space_end(s@, p as int) < usize::MAX,
{
    !is_called(s, p) || is_at(s, find_argument(s, p), ')')
}

/// Whether the string `text` stands at `at`.
fn is_text_at(s: &Vec<char>, text: &str, at: usize) -> (r: bool)
    ensures
        r == text_at(s@, text@, at as int),
{
    let chars = chars_of(text);
    match find_text_end(s, at) {
        Some(end) => end - at >= 2 && end - at - 2 == chars.len() && matches_at(s, &chars, at + 1),
        None => false,
    }
}

/// Whether what ends at `end` is a whole argument.
fn is_whole_argument(s: &Vec<char>, end: Option<usize>) -> (r: bool)
    ensures
        r == whole_argument(s@, crate::text::position(end)),
{
    match end {
        Some(e) => {
            let at: usize = skip_whitespace(s, e);
            is_at(s, at, ')') || is_at(s, at, ',')
        },
        None => false,
    }
}

/// Whether the name of a test stands at `at`, and not of the one that divides.
fn is_test_at(s: &Vec<char>, at: usize) -> (r: bool)
    ensures
        r == test_at(s@, at as int),
{
    is_whole_argument(s, find_text_end(s, at)) && !is_text_at(s, "divisibleby", at)
}

/// Whether the list behind `p` holds a string, alone or with a test.
fn has_attribute_test(s: &Vec<char>, p: usize) -> (r: bool)
    ensures
        r == attribute_test(s@, p as int),
{
    if !is_called(s, p) {
        return false;
    }
    let end = find_text_end(s, find_argument(s, p));
    if !is_whole_argument(s, end) {
        return false;
    }
    match end {
        Some(e) => {
            let comma: usize = skip_whitespace(s, e);
            !is_at(s, comma, ',') || is_test_at(s, skip_whitespace(s, comma + 1))
        },
        None => false,
    }
}

/// Whether the first argument behind `p` is called `attribute`.
fn has_attribute_argument(s: &Vec<char>, p: usize) -> (r: bool)
    ensures
        r == attribute_argument(s@, p as int),
{
    if !is_called(s, p) {
        return false;
    }
    let at: usize = find_argument(s, p);
    let word = chars_of("attribute");
    if at >= s.len() || !matches_at(s, &word, at) {
        return false;
    }
    is_at(s, skip_whitespace(s, at + word.len()), '=')
}

/// Whether the first argument behind `p` is one of `texts`.
fn has_text_argument(s: &Vec<char>, texts: &Vec<&'static str>, p: usize) -> (r: bool)
    ensures
        r == text_argument(s@, texts.deep_view(), p as int),
{
    if !is_called(s, p) {
        return false;
    }
    let at: usize = find_argument(s, p);
    if !is_whole_argument(s, find_text_end(s, at)) {
        return false;
    }
    let mut k: usize = 0;
    while k < texts.len()
        invariant
            k <= texts.len(),
            called(s@, p as int),
            at == argument(s@, p as int),
            whole_argument(s@, text_end(s@, at as int)),
            forall|j: int| 0 <= j < k ==> !text_at(s@, #[trigger] texts.deep_view()[j], at as int),
        decreases texts.len() - k,
    {
        assert(texts.deep_view()[k as int] == texts@[k as int]@);
        if is_text_at(s, texts[k], at) {
            return true;
        }
        k = k + 1;
    }
    false
}

/// The filters that are safe with any arguments.
fn filter_names() -> (r: Vec<&'static str>)
    ensures
        r.deep_view() == safe_filters(),
{
    let r = vec![
        "abs",
        "attr",
        "bool",
        "capitalize",
        "count",
        "d",
        "default",
        "e",
        "escape",
        "first",
        "float",
        "int",
        "items",
        "join",
        "last",
        "length",
        "lines",
        "list",
        "lower",
        "max",
        "min",
        "pprint",
        "replace",
        "reverse",
        "round",
        "safe",
        "split",
        "string",
        "sum",
        "title",
        "trim",
        "unique",
        "upper",
        "zip",
    ];
    assert(r.deep_view() =~= safe_filters());
    r
}

/// The tags that are safe.
fn tag_names() -> (r: Vec<&'static str>)
    ensures
        r.deep_view() == safe_tags(),
{
    let r = vec![
        "if",
        "elif",
        "else",
        "endif",
        "for",
        "endfor",
        "set",
        "endset",
        "with",
        "endwith",
        "endfilter",
        "autoescape",
        "endautoescape",
        "do",
    ];
    assert(r.deep_view() =~= safe_tags());
    r
}

/// Whether the filter at `at` is safe.
fn is_filter_ok(s: &Vec<char>, at: usize) -> (r: bool)
    ensures
        r == filter_ok(s@, at as int),
{
    proof {
        reveal_strlit("select");
        reveal_strlit("reject");
        reveal_strlit("selectattr");
        reveal_strlit("rejectattr");
        reveal_strlit("map");
    }
    let filters = filter_names();
    if is_one_of_at(s, &filters, at) {
        return true;
    }
    if (is_name_at(s, "select", at) || is_name_at(s, "reject", at)) && (has_no_argument(s, at + 6)
        || is_test_at(s, find_argument(s, at + 6))) {
        return true;
    }
    if (is_name_at(s, "selectattr", at) || is_name_at(s, "rejectattr", at)) && has_attribute_test(
        s,
        at + 10,
    ) {
        return true;
    }
    is_name_at(s, "map", at) && (has_attribute_argument(s, at + 3) || has_text_argument(
        s,
        &filters,
        at + 3,
    ))
}

/// Where the name of a tag stands that opens in front of `p`.
fn find_tag_name(s: &Vec<char>, p: usize) -> (r: usize)
    ensures
        r == tag_name(s@, p as int),
{
    if is_at(s, p, '-') || is_at(s, p, '+') {
        skip_whitespace(s, p + 1)
    } else {
        skip_whitespace(s, p)
    }
}

/// Whether the tag that opens in front of `p` is safe.
fn is_tag_ok(s: &Vec<char>, p: usize) -> (r: bool)
    ensures
        r == tag_ok(s@, p as int),
{
    proof {
        reveal_strlit("filter");
    }
    let at: usize = find_tag_name(s, p);
    is_one_of_at(s, &tag_names(), at) || (is_name_at(s, "filter", at) && is_filter_ok(
        s,
        skip_whitespace(s, at + 6),
    ))
}

/// Whether `word` stands alone at `i`, and is not the name of an attribute.
fn is_named(s: &Vec<char>, word: &str, i: usize) -> (r: bool)
    requires
        i < s@.len(),
    ensures
        r == names(s@, word@, i as int),
        r ==> i + word@.len() <= usize::MAX,
{
    is_name_at(s, word, i) && (i == 0 || (!is_ident_continue(s[i - 1]) && s[i - 1] != '.'))
}

/// Whether what stands at `i` is no function of the engine, or a safe one.
fn is_word_ok(s: &Vec<char>, i: usize) -> (r: bool)
    requires
        i < s@.len(),
    ensures
        r == word_ok(s@, i as int),
{
    proof {
        reveal_strlit("dict");
        reveal_strlit("range");
        reveal_strlit("divisibleby");
    }
    if is_named(s, "namespace", i) || is_named(s, "debug", i) {
        return false;
    }
    if is_named(s, "dict", i) && !is_called(s, i + 4) {
        return false;
    }
    if is_named(s, "range", i) && !is_small_range(s, i + 5) {
        return false;
    }
    !is_named(s, "divisibleby", i) || is_small_divisor(s, i + 11)
}

/// What can be read of a loop.
fn field_names() -> (r: Vec<&'static str>)
    ensures
        r.deep_view() == loop_fields(),
{
    let r = vec![
        "index",
        "index0",
        "revindex",
        "revindex0",
        "first",
        "last",
        "length",
        "depth",
        "depth0",
        "previtem",
        "nextitem",
        "changed",
    ];
    assert(r.deep_view() =~= loop_fields());
    r
}

/// Whether a field of a loop is read at `p`.
fn is_field_at(s: &Vec<char>, p: usize) -> (r: bool)
    ensures
        r == field_at(s@, p as int),
{
    is_at(s, p, '.') && is_one_of_at(s, &field_names(), skip_whitespace(s, p + 1))
}

/// Takes in the character `c` of code: `open` are the brackets behind it.
fn push_bracket(open: &mut Vec<(char, usize)>, c: char)
    requires
        forall|k: int| 0 <= k < old(open)@.len() ==> (#[trigger] old(open)@[k]).1 < usize::MAX,
    ensures
        final(open)@ == if c == '(' || c == '[' || c == '{' {
            old(open)@.push((c, 0usize))
        } else if old(open)@.len() == 0 {
            old(open)@
        } else if c == ')' || c == ']' || c == '}' {
            old(open)@.drop_last()
        } else if c == ':' {
            old(open)@.drop_last().push((old(open)@.last().0, (old(open)@.last().1 + 1) as usize))
        } else {
            old(open)@
        },
{
    let ghost before = open@;
    if c == '(' || c == '[' || c == '{' {
        open.push((c, 0));
    } else if open.len() > 0 {
        if c == ')' || c == ']' || c == '}' {
            open.pop();
        } else if c == ':' {
            let last: usize = open.len() - 1;
            let (bracket, colons) = open[last];
            open.pop();
            assert(open@ =~= before.drop_last());
            open.push((bracket, colons + 1));
        }
    }
}

/// Whether a template is bounded.
pub fn is_bounded(source: &str) -> (r: bool)
    ensures
        r == bounded(source@),
{
    let s = chars_of(source);
    if s.len() > MAX_SOURCE {
        return false;
    }
    let mut place = Place { part: Part::Data, tag: false, open: 0 };
    let mut open: Vec<(char, usize)> = Vec::new();
    let mut code: usize = 0;
    let mut looping: bool = false;
    let mut keeping: bool = false;
    let mut i: usize = 0;
    while i < s.len()
        invariant
            i <= s.len(),
            s@ == source@,
            s@.len() <= MAX_SOURCE,
            place == place_at(s@, i as int),
            -2 * i <= place.open <= i,
            open@ == brackets(s@, i as int),
            forall|k: int| 0 <= k < open@.len() ==> (#[trigger] open@[k]).1 <= i,
            code == code_count(s@, i as int),
            code <= i,
            looping == loops(s@, i as int),
            keeping == keeps(s@, i as int),
            forall|j: int| 0 <= j < i ==> #[trigger] safe_at(s@, j),
        decreases s.len() - i,
    {
        let c = s[i];
        let coded = place.part == Part::Code || place.part == Part::Ending;
        let tagged = place.part == Part::Brace && c == '%';
        let second = c == ':' && open.len() > 0 && open[open.len() - 1].0 == '[' && open[open.len()
            - 1].1 > 0;
        if (tagged && !is_tag_ok(&s, i + 1)) || (coded && ((c == '|' && !is_filter_ok(
            &s,
            skip_whitespace(&s, i + 1),
        )) || (second && !is_small_step(&s, i + 1)) || !is_word_ok(&s, i))) {
            assert(!safe_at(s@, i as int));
            return false;
        }
        assert(safe_at(s@, i as int));
        let entered = tagged && is_name_at(&s, "for", find_tag_name(&s, i + 1));
        let kept = (tagged && is_name_at(&s, "set", find_tag_name(&s, i + 1))) || (coded && (
        is_named(&s, "recursive", i) || (is_named(&s, "loop", i) && !is_field_at(&s, i + 4))));
        proof {
            assert(kept == keeps_at(s@, i as int));
            lemma_loops_step(s@, i as int);
            lemma_keeps_step(s@, i as int);
        }
        looping = looping || entered;
        keeping = keeping || kept;
        if coded && !is_ascii_whitespace(c) {
            code = code + 1;
        }
        let ghost before = open@;
        if coded {
            push_bracket(&mut open, c);
        }
        proof {
            assert(open@ == brackets(s@, i + 1));
            assert forall|k: int| 0 <= k < open@.len() implies (#[trigger] open@[k]).1 <= i + 1 by {
                if k < before.len() {
                    assert(before[k].1 <= i);
                }
            }
        }
        place = place.step(c);
        i = i + 1;
    }
    code <= MAX_CODE && !(looping && keeping)
}

/// The place of each character of a template.
fn find_places(s: &Vec<char>) -> (r: Vec<Place>)
    requires
        s@.len() <= MAX_SOURCE,
    ensures
        r@.len() == s@.len(),
        forall|i: int| 0 <= i < s@.len() ==> #[trigger] r@[i] == place_at(s@, i),
{
    let mut places: Vec<Place> = Vec::new();
    let mut place = Place { part: Part::Data, tag: false, open: 0 };
    let mut i: usize = 0;
    while i < s.len()
        invariant
            i <= s.len(),
            s@.len() <= MAX_SOURCE,
            place == place_at(s@, i as int),
            -2 * i <= place.open <= i,
            places@.len() == i,
            forall|j: int| 0 <= j < i ==> #[trigger] places@[j] == place_at(s@, j),
        decreases s.len() - i,
    {
        places.push(place);
        place = place.step(s[i]);
        i = i + 1;
    }
    places
}

/// Whether a template multiplies and adds only as a modest one does.
fn is_modest(s: &Vec<char>) -> (r: bool)
    requires
        s@.len() <= MAX_SOURCE,
    ensures
        r == modest(s@),
{
    let places = find_places(s);
    let mut products: usize = 0;
    let mut sums: usize = 0;
    let mut i: usize = 0;
    while i < s.len()
        invariant
            i <= s.len(),
            s@.len() <= MAX_SOURCE,
            places@.len() == s@.len(),
            forall|j: int| 0 <= j < s@.len() ==> #[trigger] places@[j] == place_at(s@, j),
            products == product_count(s@, i as int),
            products <= i,
            sums == sum_count(s@, i as int),
            sums <= i,
            forall|j: int|
                0 <= j < i && #[trigger] product_at(s@, j) ==> small_operand(s@, j + 1),
        decreases s.len() - i,
    {
        let part = places[i].part;
        let coded = part == Part::Code || part == Part::Ending;
        let product = coded && s[i] == '*' && !is_at(s, i + 1, '*');
        assert(product == product_at(s@, i as int));
        if product {
            if !is_small_operand(s, i + 1) {
                return false;
            }
            products = products + 1;
        }
        let added = coded && s[i] == '+' && !is_small_operand(s, i + 1);
        assert(added == sum_at(s@, i as int));
        if added {
            sums = sums + 1;
        }
        i = i + 1;
    }
    products <= MAX_PRODUCTS && sums <= MAX_SUMS
}

/// The filters that make no sequence.
fn scalar_names() -> (r: Vec<&'static str>)
    ensures
        r.deep_view() == scalar_filters(),
{
    let r = vec![
        "abs",
        "attr",
        "bool",
        "capitalize",
        "count",
        "d",
        "default",
        "e",
        "escape",
        "first",
        "float",
        "int",
        "join",
        "last",
        "length",
        "lower",
        "max",
        "min",
        "pprint",
        "round",
        "safe",
        "string",
        "sum",
        "title",
        "trim",
        "upper",
    ];
    assert(r.deep_view() =~= scalar_filters());
    r
}

/// Whether a template makes no sequence.
fn is_scalar(s: &Vec<char>) -> (r: bool)
    requires
        s@.len() <= MAX_SOURCE,
    ensures
        r == scalar(s@),
{
    let places = find_places(s);
    let filters = scalar_names();
    let mut i: usize = 0;
    while i < s.len()
        invariant
            i <= s.len(),
            s@.len() <= MAX_SOURCE,
            places@.len() == s@.len(),
            filters.deep_view() == scalar_filters(),
            forall|j: int| 0 <= j < s@.len() ==> #[trigger] places@[j] == place_at(s@, j),
            forall|j: int| 0 <= j < i && #[trigger] code_at(s@, j) ==> scalar_at(s@, j),
        decreases s.len() - i,
    {
        let c = s[i];
        let part = places[i].part;
        if (part == Part::Code || part == Part::Ending) && (c == '[' || c == ',' || (c == '('
            && is_at(s, skip_whitespace(s, i + 1), ')')) || (c == '|' && !is_one_of_at(
            s,
            &filters,
            skip_whitespace(s, i + 1),
        )) || is_named(s, "range", i)) {
            assert(code_at(s@, i as int) && !scalar_at(s@, i as int));
            return false;
        }
        i = i + 1;
    }
    true
}

/// Whether `c` stands in `text`.
fn has_char(text: &str, c: char) -> (r: bool)
    ensures
        r == text@.contains(c),
{
    let s = chars_of(text);
    let mut i: usize = 0;
    while i < s.len()
        invariant
            i <= s.len(),
            s@ == text@,
            forall|j: int| 0 <= j < i ==> s@[j] != c,
        decreases s.len() - i,
    {
        if s[i] == c {
            return true;
        }
        i = i + 1;
    }
    false
}

/// Whether a template can be compiled.
pub fn is_compilable(source: &str) -> (r: bool)
    ensures
        r == compilable(source@),
{
    if !is_bounded(source) {
        return false;
    }
    let s = chars_of(source);
    is_modest(&s) || is_scalar(&s)
}

/// Whether a template can be rendered with a JSON value.
pub fn is_renderable(source: &str, json: &str) -> (r: bool)
    ensures
        r == renderable(source@, json@),
{
    if !is_bounded(source) {
        return false;
    }
    let s = chars_of(source);
    is_modest(&s) || (is_scalar(&s) && !has_char(json, '['))
}

/// A loop opens in front of a position or at it.
proof fn lemma_loops_step(s: Seq<char>, n: int)
    requires
        n >= 0,
    ensures
        loops(s, n + 1) == (loops(s, n) || (tag_at(s, n) && name_at(
            s,
            "for"@,
            tag_name(s, n + 1),
        ))),
{
    if loops(s, n + 1) {
        let i = choose|i: int|
            0 <= i < n + 1 && #[trigger] tag_at(s, i) && name_at(s, "for"@, tag_name(s, i + 1));
        if i < n {
            assert(tag_at(s, i));
        }
    }
    if loops(s, n) {
        let i = choose|i: int|
            0 <= i < n && #[trigger] tag_at(s, i) && name_at(s, "for"@, tag_name(s, i + 1));
        assert(tag_at(s, i));
    }
}

/// What keeps values stands in front of a position or at it.
proof fn lemma_keeps_step(s: Seq<char>, n: int)
    requires
        n >= 0,
    ensures
        keeps(s, n + 1) == (keeps(s, n) || keeps_at(s, n)),
{
    if keeps(s, n) {
        let i = choose|i: int| 0 <= i < n && #[trigger] keeps_at(s, i);
        assert(keeps_at(s, i));
    }
}

// ---------------------------------------------------------------------------
// Laws
// ---------------------------------------------------------------------------

/// Text that opens no brace is text throughout.
proof fn lemma_text_throughout(s: Seq<char>, i: int)
    requires
        0 <= i <= s.len(),
        !s.contains('{'),
    ensures
        place_at(s, i) == (Place { part: Part::Data, tag: false, open: 0 }),
    decreases i,
{
    if i > 0 {
        lemma_text_throughout(s, i - 1);
        assert(s[i - 1] != '{');
    }
}

/// Without code there is nothing to count.
proof fn lemma_no_code(s: Seq<char>, n: int)
    requires
        0 <= n <= s.len(),
        !s.contains('{'),
    ensures
        code_count(s, n) == 0,
        product_count(s, n) == 0,
        sum_count(s, n) == 0,
    decreases n,
{
    if n > 0 {
        lemma_no_code(s, n - 1);
        lemma_text_throughout(s, n - 1);
    }
}

/// Text that opens no brace can be rendered, with any value, unless it is too
/// long.
pub proof fn law_text_can_be_rendered(source: Seq<char>, json: Seq<char>)
    requires
        !source.contains('{'),
        source.len() <= MAX_SOURCE,
    ensures
        compilable(source),
        renderable(source, json),
{
    let n = source.len() as int;
    lemma_no_code(source, n);
    assert forall|i: int| 0 <= i < n implies #[trigger] safe_at(source, i) by {
        lemma_text_throughout(source, i);
    }
    assert forall|i: int| 0 <= i < n implies !#[trigger] product_at(source, i) by {
        lemma_text_throughout(source, i);
    }
    assert forall|i: int| 0 <= i < n implies !#[trigger] tag_at(source, i) by {
        lemma_text_throughout(source, i);
    }
}

/// A character that stands for nothing but itself in an expression: no bracket,
/// quote, filter, sum, product, rest or colon.
pub open spec fn plain_char(c: char) -> bool {
    &&& c != '{' && c != '}' && c != '(' && c != ')' && c != '[' && c != ']'
    &&& c != '"' && c != '\'' && c != '|' && c != ':' && c != '*' && c != '+' && c != '%'
}

/// An expression of plain characters, without the words that need a closer
/// look.
pub open spec fn plain_expression(expression: Seq<char>) -> bool {
    &&& forall|i: int| 0 <= i < expression.len() ==> plain_char(#[trigger] expression[i])
    &&& !occurs(expression, "namespace"@)
    &&& !occurs(expression, "debug"@)
    &&& !occurs(expression, "dict"@)
    &&& !occurs(expression, "range"@)
    &&& !occurs(expression, "divisibleby"@)
}

/// A plain expression between braces.
spec fn braced(expression: Seq<char>) -> Seq<char> {
    seq!['{', '{', ' '] + expression + seq![' ', '}', '}']
}

proof fn lemma_braced(expression: Seq<char>, i: int)
    requires
        plain_expression(expression),
        0 <= i < braced(expression).len(),
    ensures
        ({
            let n = braced(expression).len();
            let c = braced(expression)[i];
            &&& 2 <= i < n - 2 ==> plain_char(c)
            &&& i < 2 ==> c == '{'
            &&& i >= n - 2 ==> c == '}'
        }),
{
    let s = braced(expression);
    if 3 <= i < 3 + expression.len() {
        assert(s[i] == expression[i - 3]);
    }
}

/// Where the parts of a braced expression are.
proof fn lemma_braced_place(expression: Seq<char>, i: int)
    requires
        plain_expression(expression),
        0 <= i < braced(expression).len(),
    ensures
        ({
            let n = braced(expression).len();
            place_at(braced(expression), i) == Place {
                part: if i == 0 {
                    Part::Data
                } else if i == 1 {
                    Part::Brace
                } else if i == n - 1 {
                    Part::Ending
                } else {
                    Part::Code
                },
                tag: false,
                open: 0,
            }
        }),
    decreases i,
{
    if i > 0 {
        lemma_braced_place(expression, i - 1);
        lemma_braced(expression, i - 1);
    }
}

/// A word of letters that stands in a braced expression stands in the
/// expression.
proof fn lemma_braced_word(expression: Seq<char>, word: Seq<char>, i: int)
    requires
        plain_expression(expression),
        word.len() > 0,
        forall|k: int| 0 <= k < word.len() ==> 'a' <= #[trigger] word[k] <= 'z',
        !occurs(expression, word),
    ensures
        !occurs_at(braced(expression), word, i),
{
    let s = braced(expression);
    let n = word.len() as int;
    if occurs_at(s, word, i) {
        assert forall|k: int| 0 <= k < n implies s[i + k] == #[trigger] word[k] by {
            assert(s.subrange(i, i + n)[k] == s[i + k]);
        }
        assert(s[i + 0] == word[0]);
        assert(s[i + (n - 1)] == word[n - 1]);
        assert(i >= 3);
        assert(i + n - 1 < 3 + expression.len());
        assert(expression.subrange(i - 3, i - 3 + n) =~= word) by {
            assert forall|k: int| 0 <= k < n implies expression[i - 3 + k] == #[trigger] word[k] by {
                assert(s[i + k] == expression[i - 3 + k]);
            }
        }
        assert(occurs_at(expression, word, i - 3));
    }
}

proof fn lemma_braced_counts(expression: Seq<char>, n: int)
    requires
        plain_expression(expression),
        0 <= n <= braced(expression).len(),
    ensures
        code_count(braced(expression), n) <= n,
        product_count(braced(expression), n) == 0,
        sum_count(braced(expression), n) == 0,
    decreases n,
{
    if n > 0 {
        lemma_braced_counts(expression, n - 1);
        lemma_braced(expression, n - 1);
        lemma_braced_place(expression, n - 1);
    }
}

/// A plain expression between braces can be rendered, with any value, unless it
/// is too long.
pub proof fn law_plain_expressions_can_be_rendered(expression: Seq<char>, json: Seq<char>)
    requires
        plain_expression(expression),
        expression.len() + 6 <= MAX_CODE,
    ensures
        compilable(seq!['{', '{', ' '] + expression + seq![' ', '}', '}']),
        renderable(seq!['{', '{', ' '] + expression + seq![' ', '}', '}'], json),
{
    reveal_strlit("namespace");
    reveal_strlit("debug");
    reveal_strlit("dict");
    reveal_strlit("range");
    reveal_strlit("divisibleby");
    let s = braced(expression);
    let n = s.len() as int;
    lemma_braced_counts(expression, n);
    assert forall|i: int| 0 <= i < n implies #[trigger] safe_at(s, i) && !product_at(s, i)
        && !tag_at(s, i) by {
        lemma_braced(expression, i);
        lemma_braced_place(expression, i);
        lemma_braced_word(expression, "namespace"@, i);
        lemma_braced_word(expression, "debug"@, i);
        lemma_braced_word(expression, "dict"@, i);
        lemma_braced_word(expression, "range"@, i);
        lemma_braced_word(expression, "divisibleby"@, i);
    }
}

} // verus!
