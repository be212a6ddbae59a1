//! The calls of the reflection functions, `ProposeImprovements` and
//! `MergeVariants`: their argument lists and their failures.

use vstd::prelude::*;
use vstd::string::*;

use crate::value_bridge::{bex_model, bex_pairs, BexExternalValue, BexModel};

verus! {

/// The name of the function that proposes an improvement.
pub open spec fn propose_name() -> Seq<char> {
    "ProposeImprovements"@
}

/// The name of the function that combines two candidates.
pub open spec fn merge_name() -> Seq<char> {
    "MergeVariants"@
}

/// A call of a reflection function with named arguments.
#[derive(Debug)]
pub struct ReflectionCall {
    pub function_name: String,
    pub args: Vec<(String, BexExternalValue)>,
}

/// The call of `ProposeImprovements` that generates an improved function. The
/// arguments match the function's parameter list; without metrics their
/// argument is null.
pub fn propose_improvements(
    current: BexExternalValue,
    failures: BexExternalValue,
    successes: BexExternalValue,
    objectives: BexExternalValue,
    metrics: Option<BexExternalValue>,
) -> (r: ReflectionCall)
    ensures
        r.function_name@ == propose_name(),
        bex_pairs(r.args@) == seq![
            ("current_function"@, bex_model(current)),
            ("failed_examples"@, bex_model(failures)),
            ("successful_examples"@, bex_model(successes)),
            ("optimization_objectives"@, bex_model(objectives)),
            (
                "current_metrics"@,
                match metrics {
                    Some(m) => bex_model(m),
                    None => BexModel::Null,
                },
            ),
        ],
{
    let mut args: Vec<(String, BexExternalValue)> = Vec::new();
    proof {
        assert(bex_pairs(args@) =~= Seq::<(Seq<char>, BexModel)>::empty());
    }
    push_arg(&mut args, "current_function", current);
    push_arg(&mut args, "failed_examples", failures);
    push_arg(&mut args, "successful_examples", successes);
    push_arg(&mut args, "optimization_objectives", objectives);
    let last = match metrics {
        Some(m) => m,
        None => BexExternalValue::Null,
    };
    push_arg(&mut args, "current_metrics", last);
    assert(bex_pairs(args@) =~= seq![
        ("current_function"@, bex_model(current)),
        ("failed_examples"@, bex_model(failures)),
        ("successful_examples"@, bex_model(successes)),
        ("optimization_objectives"@, bex_model(objectives)),
        (
            "current_metrics"@,
            match metrics {
                Some(m) => bex_model(m),
                None => BexModel::Null,
            },
        ),
    ]);
    ReflectionCall { function_name: String::from_str("ProposeImprovements"), args }
}

/// The call of `MergeVariants` that combines two successful candidates.
pub fn merge_variants(
    variant_a: BexExternalValue,
    variant_b: BexExternalValue,
    variant_a_strengths: BexExternalValue,
    variant_b_strengths: BexExternalValue,
) -> (r: ReflectionCall)
    ensures
        r.function_name@ == merge_name(),
        bex_pairs(r.args@) == seq![
            ("variant_a"@, bex_model(variant_a)),
            ("variant_b"@, bex_model(variant_b)),
            ("variant_a_strengths"@, bex_model(variant_a_strengths)),
            ("variant_b_strengths"@, bex_model(variant_b_strengths)),
        ],
{
    let mut args: Vec<(String, BexExternalValue)> = Vec::new();
    proof {
        assert(bex_pairs(args@) =~= Seq::<(Seq<char>, BexModel)>::empty());
    }
    push_arg(&mut args, "variant_a", variant_a);
    push_arg(&mut args, "variant_b", variant_b);
    push_arg(&mut args, "variant_a_strengths", variant_a_strengths);
    push_arg(&mut args, "variant_b_strengths", variant_b_strengths);
    assert(bex_pairs(args@) =~= seq![
        ("variant_a"@, bex_model(variant_a)),
        ("variant_b"@, bex_model(variant_b)),
        ("variant_a_strengths"@, bex_model(variant_a_strengths)),
        ("variant_b_strengths"@, bex_model(variant_b_strengths)),
    ]);
    ReflectionCall { function_name: String::from_str("MergeVariants"), args }
}

/// Appends a named argument.
fn push_arg(args: &mut Vec<(String, BexExternalValue)>, name: &str, value: BexExternalValue)
    ensures
        bex_pairs(final(args)@) == bex_pairs(old(args)@).push((name@, bex_model(value))),
{
    let ghost before = args@;
    args.push((String::from_str(name), value));
    assert(args@.drop_last() =~= before);
}

/// What to tell where a call failed.
pub fn call_failure(function_name: &str, reason: &str) -> (r: String)
    ensures
        r@ == function_name@ + " call failed: "@ + reason@,
{
    let mut out = String::from_str(function_name);
    out.append(" call failed: ");
    out.append(reason);
    out
}

} // verus!
