//! Whether sources compiled, and what to tell where they did not.

use vstd::prelude::*;
use vstd::string::*;

use crate::text::{decimal, join, join_strings, to_decimal};

verus! {

/// A compiler diagnostic.
#[derive(Debug)]
pub struct Diagnostic {
    pub is_error: bool,
    pub message: String,
}

/// The messages of the errors, in order.
pub open spec fn error_messages(diagnostics: Seq<Diagnostic>) -> Seq<Seq<char>>
    decreases diagnostics.len(),
{
    if diagnostics.len() == 0 {
        Seq::empty()
    } else if diagnostics.last().is_error {
        error_messages(diagnostics.drop_last()).push(diagnostics.last().message@)
    } else {
        error_messages(diagnostics.drop_last())
    }
}

/// Picks the messages of the errors.
pub fn collect_errors(diagnostics: &Vec<Diagnostic>) -> (r: Vec<String>)
    ensures
        r.deep_view() == error_messages(diagnostics@),
{
    let mut out: Vec<String> = Vec::new();
    let mut k: usize = 0;
    proof {
        assert(diagnostics@.take(0) =~= Seq::<Diagnostic>::empty());
        assert(out.deep_view() =~= Seq::<Seq<char>>::empty());
    }
    while k < diagnostics.len()
        invariant
            k <= diagnostics.len(),
            out.deep_view() == error_messages(diagnostics@.take(k as int)),
        decreases diagnostics.len() - k,
    {
        let ghost before = out.deep_view();
        proof {
            assert(diagnostics@.take(k + 1).drop_last() =~= diagnostics@.take(k as int));
            assert(diagnostics@.take(k + 1).last() == diagnostics@[k as int]);
        }
        if diagnostics[k].is_error {
            out.push(diagnostics[k].message.clone());
            assert(out.deep_view() =~= before.push(diagnostics@[k as int].message@));
        }
        k = k + 1;
    }
    assert(diagnostics@.take(diagnostics@.len() as int) =~= diagnostics@);
    out
}

/// The first `n` of some texts.
pub open spec fn first_of(all: Seq<Seq<char>>, n: int) -> Seq<Seq<char>> {
    if all.len() <= n {
        all
    } else {
        all.take(n)
    }
}

/// What to tell of errors: how many there are, the first ten, and how many
/// more.
pub open spec fn failure_text(errors: Seq<Seq<char>>) -> Seq<char> {
    "compilation failed ("@ + decimal(errors.len()) + " error(s)): "@ + join(
        first_of(errors, 10),
        "; "@,
    ) + if errors.len() > 10 {
        " ... and "@ + decimal((errors.len() - 10) as nat) + " more"@
    } else {
        Seq::empty()
    }
}

/// The first `n` of some texts.
pub fn take_first(all: &Vec<String>, n: usize) -> (r: Vec<String>)
    ensures
        r.deep_view() == first_of(all.deep_view(), n as int),
{
    let mut out: Vec<String> = Vec::new();
    let mut k: usize = 0;
    while k < all.len() && k < n
        invariant
            k <= all.len(),
            k <= n,
            out@.len() == k,
            forall|j: int| 0 <= j < k ==> (#[trigger] out@[j])@ == all@[j]@,
        decreases all.len() - k,
    {
        out.push(all[k].clone());
        k = k + 1;
    }
    assert(out.deep_view() =~= first_of(all.deep_view(), n as int));
    out
}

/// What to tell where sources did not compile; `None` where no diagnostic is an
/// error.
pub fn compilation_failure(diagnostics: &Vec<Diagnostic>) -> (r: Option<String>)
    ensures
        match r {
            Some(message) => error_messages(diagnostics@).len() > 0 && message@ == failure_text(
                error_messages(diagnostics@),
            ),
            None => error_messages(diagnostics@).len() == 0,
        },
{
    let errors = collect_errors(diagnostics);
    assert(errors@.len() == errors.deep_view().len());
    if errors.len() == 0 {
        return None;
    }
    let mut out = String::from_str("compilation failed (");
    out.append(to_decimal(errors.len() as u64).as_str());
    out.append(" error(s)): ");
    let shown = take_first(&errors, 10);
    out.append(join_strings(&shown, "; ").as_str());
    if errors.len() > 10 {
        let mut more = String::from_str(" ... and ");
        more.append(to_decimal((errors.len() - 10) as u64).as_str());
        more.append(" more");
        out.append(more.as_str());
    } else {
        assert(out@ =~= failure_text(errors.deep_view()));
    }
    Some(out)
}

} // verus!
