//! Template filters.

use vstd::prelude::*;

use crate::measure::Measure;

verus! {

/// Whether the pattern matches somewhere in the value; none where the pattern
/// is no regular expression.
pub uninterp spec fn regex_found(pattern: Seq<char>, value: Seq<char>) -> Option<bool>;

/// Outside functions: `regex::Regex::new`, which compiles a pattern and fails
/// if it is invalid or too big, and `regex::Regex::is_match`, which tells
/// whether there is a match anywhere in the haystack. The contract claims that
/// the answer is a function of pattern and value. What the syntax of patterns
/// is, and what they match, is left unsaid, and so is how big a pattern may be:
/// the limit counts the bytes of the compiled pattern.
#[verifier::external_body]
fn search_regex(pattern: &str, value: &str) -> (r: Option<bool>)
    ensures
        r == regex_found(pattern@, value@),
{
    regex::Regex::new(pattern).ok().map(|re| re.is_match(value))
}

/// What an invalid pattern comes to: no match.
pub fn match_or_not(found: Option<bool>) -> (r: bool)
    ensures
        r == (found == Some(true)),
{
    match found {
        Some(matched) => matched,
        None => false,
    }
}

/// Filter `regex_match`: whether the value matches the pattern. An invalid
/// pattern matches nothing.
pub fn regex_match(value: &str, pattern: &str) -> (r: bool)
    ensures
        r == (regex_found(pattern@, value@) == Some(true)),
{
    match_or_not(search_regex(pattern, value))
}

/// An item of a list that is summed up: a whole number, another number, or
/// something that is no number.
#[derive(Clone, Copy, Debug, PartialEq, Eq, Structural)]
pub enum SumItem {
    Whole(i64),
    Fraction(Measure),
    Other,
}

/// The sum of the whole numbers.
pub open spec fn whole_sum(items: Seq<SumItem>) -> int
    decreases items.len(),
{
    if items.len() == 0 {
        0
    } else {
        whole_sum(items.drop_last()) + match items.last() {
            SumItem::Whole(n) => n as int,
            _ => 0,
        }
    }
}

/// The other numbers, in order.
pub open spec fn fractions(items: Seq<SumItem>) -> Seq<Measure>
    decreases items.len(),
{
    if items.len() == 0 {
        Seq::empty()
    } else {
        match items.last() {
            SumItem::Fraction(x) => fractions(items.drop_last()).push(x),
            _ => fractions(items.drop_last()),
        }
    }
}

/// Every running sum of the whole numbers fits a signed word.
pub open spec fn whole_sums_fit(items: Seq<SumItem>) -> bool {
    forall|k: int|
        0 <= k <= items.len() ==> i64::MIN <= #[trigger] whole_sum(items.take(k)) <= i64::MAX
}

/// Whether every running sum of the whole numbers fits a signed word.
pub fn whole_sums_stay(items: &Vec<SumItem>) -> (r: bool)
    ensures
        r == whole_sums_fit(items@),
{
    let mut sum: i64 = 0;
    let mut k: usize = 0;
    proof {
        assert(items@.take(0) =~= Seq::<SumItem>::empty());
    }
    while k < items.len()
        invariant
            k <= items.len(),
            sum == whole_sum(items@.take(k as int)),
            forall|j: int|
                0 <= j <= k ==> i64::MIN <= #[trigger] whole_sum(items@.take(j)) <= i64::MAX,
        decreases items.len() - k,
    {
        proof {
            assert(items@.take(k + 1).drop_last() =~= items@.take(k as int));
            assert(items@.take(k + 1).last() == items@[k as int]);
        }
        match items[k] {
            SumItem::Whole(n) => match sum.checked_add(n) {
                Some(next) => {
                    sum = next;
                },
                None => {
                    assert(!(i64::MIN <= whole_sum(items@.take(k + 1)) <= i64::MAX));
                    return false;
                },
            },
            _ => {},
        }
        k = k + 1;
    }
    true
}

/// Filter `sum`: adds up the whole numbers of a list and picks out the others,
/// which the caller adds as doubles. Where there are none, the sum is whole.
/// What is no number does not count.
pub fn sum_parts(items: &Vec<SumItem>) -> (r: (i64, Vec<Measure>))
    requires
        whole_sums_fit(items@),
    ensures
        r.0 == whole_sum(items@),
        r.1@ == fractions(items@),
{
    let mut sum: i64 = 0;
    let mut rest: Vec<Measure> = Vec::new();
    let mut k: usize = 0;
    proof {
        assert(items@.take(0) =~= Seq::<SumItem>::empty());
    }
    while k < items.len()
        invariant
            k <= items.len(),
            whole_sums_fit(items@),
            sum == whole_sum(items@.take(k as int)),
            rest@ == fractions(items@.take(k as int)),
        decreases items.len() - k,
    {
        proof {
            assert(items@.take(k + 1).drop_last() =~= items@.take(k as int));
            assert(items@.take(k + 1).last() == items@[k as int]);
            assert(i64::MIN <= whole_sum(items@.take(k + 1)) <= i64::MAX);
        }
        match items[k] {
            SumItem::Whole(n) => {
                sum = sum + n;
            },
            SumItem::Fraction(x) => {
                rest.push(x);
            },
            SumItem::Other => {},
        }
        k = k + 1;
    }
    assert(items@.take(items@.len() as int) =~= items@);
    (sum, rest)
}

} // verus!
