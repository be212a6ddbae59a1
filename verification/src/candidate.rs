//! Candidate data structures for prompt and schema optimisation.

use vstd::prelude::*;

use crate::measure::Measure;

verus! {

/// A field in a class schema that can be optimised.
#[derive(Debug)]
pub struct SchemaFieldDefinition {
    pub field_name: String,
    pub field_type: String,
    pub description: Option<String>,
    pub alias: Option<String>,
}

/// What a [`SchemaFieldDefinition`] says.
pub ghost struct FieldModel {
    pub field_name: Seq<char>,
    pub field_type: Seq<char>,
    pub description: Option<Seq<char>>,
    pub alias: Option<Seq<char>>,
}

impl DeepView for SchemaFieldDefinition {
    type V = FieldModel;

    open spec fn deep_view(&self) -> FieldModel {
        FieldModel {
            field_name: self.field_name@,
            field_type: self.field_type@,
            description: self.description.deep_view(),
            alias: self.alias.deep_view(),
        }
    }
}

impl Clone for SchemaFieldDefinition {
    fn clone(&self) -> (r: Self)
        ensures
            r.deep_view() == self.deep_view(),
    {
        SchemaFieldDefinition {
            field_name: self.field_name.clone(),
            field_type: self.field_type.clone(),
            description: self.description.clone(),
            alias: self.alias.clone(),
        }
    }
}

/// A class definition with its fields.
#[derive(Debug)]
pub struct ClassDefinition {
    pub class_name: String,
    pub description: Option<String>,
    pub fields: Vec<SchemaFieldDefinition>,
}

/// What a [`ClassDefinition`] says.
pub ghost struct ClassModel {
    pub class_name: Seq<char>,
    pub description: Option<Seq<char>>,
    pub fields: Seq<FieldModel>,
}

impl DeepView for ClassDefinition {
    type V = ClassModel;

    open spec fn deep_view(&self) -> ClassModel {
        ClassModel {
            class_name: self.class_name@,
            description: self.description.deep_view(),
            fields: self.fields.deep_view(),
        }
    }
}

impl Clone for ClassDefinition {
    fn clone(&self) -> (r: Self)
        ensures
            r.deep_view() == self.deep_view(),
    {
        let r = ClassDefinition {
            class_name: self.class_name.clone(),
            description: self.description.clone(),
            fields: self.fields.clone(),
        };
        assert(r.fields.deep_view() =~= self.fields.deep_view());
        r
    }
}

/// An enum definition with value descriptions.
///
/// `value_descriptions` pairs a value with its description; no value occurs
/// there twice.
#[derive(Debug)]
pub struct EnumDefinition {
    pub enum_name: String,
    pub values: Vec<String>,
    pub value_descriptions: Vec<(String, String)>,
}

/// What an [`EnumDefinition`] says.
pub ghost struct EnumModel {
    pub enum_name: Seq<char>,
    pub values: Seq<Seq<char>>,
    pub value_descriptions: Seq<(Seq<char>, Seq<char>)>,
}

impl DeepView for EnumDefinition {
    type V = EnumModel;

    open spec fn deep_view(&self) -> EnumModel {
        EnumModel {
            enum_name: self.enum_name@,
            values: self.values.deep_view(),
            value_descriptions: self.value_descriptions.deep_view(),
        }
    }
}

impl Clone for EnumDefinition {
    fn clone(&self) -> (r: Self)
        ensures
            r.deep_view() == self.deep_view(),
    {
        let r = EnumDefinition {
            enum_name: self.enum_name.clone(),
            values: self.values.clone(),
            value_descriptions: copy_pairs(&self.value_descriptions),
        };
        assert(r.values.deep_view() =~= self.values.deep_view());
        r
    }
}

/// A copy of a list of pairs of texts.
pub fn copy_pairs(pairs: &Vec<(String, String)>) -> (r: Vec<(String, String)>)
    ensures
        r.deep_view() == pairs.deep_view(),
{
    let mut r: Vec<(String, String)> = Vec::new();
    let mut i: usize = 0;
    while i < pairs.len()
        invariant
            i <= pairs.len(),
            r.len() == i,
            forall|k: int| 0 <= k < i ==> (#[trigger] r@[k]).deep_view() == pairs@[k].deep_view(),
        decreases pairs.len() - i,
    {
        r.push((pairs[i].0.clone(), pairs[i].1.clone()));
        i = i + 1;
    }
    assert(r.deep_view() =~= pairs.deep_view());
    r
}

/// The complete optimisable context for a function.
#[derive(Debug)]
pub struct OptimizableFunction {
    pub function_name: String,
    pub prompt_text: String,
    pub classes: Vec<ClassDefinition>,
    pub enums: Vec<EnumDefinition>,
    pub function_source: Option<String>,
}

/// What an [`OptimizableFunction`] says.
pub ghost struct FunctionModel {
    pub function_name: Seq<char>,
    pub prompt_text: Seq<char>,
    pub classes: Seq<ClassModel>,
    pub enums: Seq<EnumModel>,
    pub function_source: Option<Seq<char>>,
}

impl DeepView for OptimizableFunction {
    type V = FunctionModel;

    open spec fn deep_view(&self) -> FunctionModel {
        FunctionModel {
            function_name: self.function_name@,
            prompt_text: self.prompt_text@,
            classes: self.classes.deep_view(),
            enums: self.enums.deep_view(),
            function_source: self.function_source.deep_view(),
        }
    }
}

impl Clone for OptimizableFunction {
    fn clone(&self) -> (r: Self)
        ensures
            r.deep_view() == self.deep_view(),
    {
        let r = OptimizableFunction {
            function_name: self.function_name.clone(),
            prompt_text: self.prompt_text.clone(),
            classes: self.classes.clone(),
            enums: self.enums.clone(),
            function_source: self.function_source.clone(),
        };
        assert(r.classes.deep_view() =~= self.classes.deep_view());
        assert(r.enums.deep_view() =~= self.enums.deep_view());
        r
    }
}

/// How a candidate was created.
#[derive(Clone, Copy, Debug, PartialEq, Eq, Structural)]
pub enum CandidateMethod {
    Initial,
    Reflection,
    Merge,
}

/// Scores from evaluating a candidate.
///
/// `avg_total_tokens` is the sum of the two token averages, as the caller
/// adds them. `per_testset_scores` holds the pass rate of each testset.
#[derive(Debug)]
pub struct CandidateScores {
    pub test_pass_rate: Measure,
    pub tests_passed: usize,
    pub tests_total: usize,
    pub avg_prompt_tokens: Measure,
    pub avg_completion_tokens: Measure,
    pub avg_total_tokens: Measure,
    pub avg_latency_ms: Measure,
    pub per_testset_scores: Vec<(String, Measure)>,
}

/// What a [`CandidateScores`] says.
pub ghost struct ScoresModel {
    pub test_pass_rate: Measure,
    pub tests_passed: usize,
    pub tests_total: usize,
    pub avg_prompt_tokens: Measure,
    pub avg_completion_tokens: Measure,
    pub avg_total_tokens: Measure,
    pub avg_latency_ms: Measure,
    pub per_testset_scores: Seq<(Seq<char>, Measure)>,
}

impl DeepView for CandidateScores {
    type V = ScoresModel;

    open spec fn deep_view(&self) -> ScoresModel {
        ScoresModel {
            test_pass_rate: self.test_pass_rate,
            tests_passed: self.tests_passed,
            tests_total: self.tests_total,
            avg_prompt_tokens: self.avg_prompt_tokens,
            avg_completion_tokens: self.avg_completion_tokens,
            avg_total_tokens: self.avg_total_tokens,
            avg_latency_ms: self.avg_latency_ms,
            per_testset_scores: self.per_testset_scores.deep_view(),
        }
    }
}

/// The scores in which every number is zero and no testset is named.
pub open spec fn zero_scores() -> ScoresModel {
    ScoresModel {
        test_pass_rate: Measure { bits: 0 },
        tests_passed: 0,
        tests_total: 0,
        avg_prompt_tokens: Measure { bits: 0 },
        avg_completion_tokens: Measure { bits: 0 },
        avg_total_tokens: Measure { bits: 0 },
        avg_latency_ms: Measure { bits: 0 },
        per_testset_scores: Seq::empty(),
    }
}

impl Default for CandidateScores {
    fn default() -> (r: Self)
        ensures
            r.deep_view() == zero_scores(),
            r.tests_passed == 0,
            r.tests_total == 0,
            r.test_pass_rate.bits == 0,
            r.avg_prompt_tokens.bits == 0,
            r.avg_completion_tokens.bits == 0,
            r.avg_total_tokens.bits == 0,
            r.avg_latency_ms.bits == 0,
            r.per_testset_scores@.len() == 0,
    {
        let r = CandidateScores {
            test_pass_rate: Measure::zero(),
            tests_passed: 0,
            tests_total: 0,
            avg_prompt_tokens: Measure::zero(),
            avg_completion_tokens: Measure::zero(),
            avg_total_tokens: Measure::zero(),
            avg_latency_ms: Measure::zero(),
            per_testset_scores: Vec::new(),
        };
        assert(r.per_testset_scores.deep_view() =~= Seq::<(Seq<char>, Measure)>::empty());
        r
    }
}

impl Clone for CandidateScores {
    fn clone(&self) -> (r: Self)
        ensures
            r.deep_view() == self.deep_view(),
    {
        let mut per_testset_scores: Vec<(String, Measure)> = Vec::new();
        let mut i: usize = 0;
        while i < self.per_testset_scores.len()
            invariant
                i <= self.per_testset_scores.len(),
                per_testset_scores.len() == i,
                forall|k: int|
                    0 <= k < i ==> (#[trigger] per_testset_scores@[k]).deep_view()
                        == self.per_testset_scores@[k].deep_view(),
            decreases self.per_testset_scores.len() - i,
        {
            per_testset_scores.push(
                (self.per_testset_scores[i].0.clone(), self.per_testset_scores[i].1),
            );
            i = i + 1;
        }
        assert(per_testset_scores.deep_view() =~= self.per_testset_scores.deep_view());
        CandidateScores {
            test_pass_rate: self.test_pass_rate,
            tests_passed: self.tests_passed,
            tests_total: self.tests_total,
            avg_prompt_tokens: self.avg_prompt_tokens,
            avg_completion_tokens: self.avg_completion_tokens,
            avg_total_tokens: self.avg_total_tokens,
            avg_latency_ms: self.avg_latency_ms,
            per_testset_scores,
        }
    }
}

/// A candidate prompt and schema version.
#[derive(Debug)]
pub struct Candidate {
    pub id: usize,
    pub iteration: usize,
    pub parent_ids: Vec<usize>,
    pub method: CandidateMethod,
    pub function: OptimizableFunction,
    pub scores: Option<CandidateScores>,
    pub rationale: Option<String>,
}

/// What a [`Candidate`] says.
pub ghost struct CandidateModel {
    pub id: usize,
    pub iteration: usize,
    pub parent_ids: Seq<usize>,
    pub method: CandidateMethod,
    pub function: FunctionModel,
    pub scores: Option<ScoresModel>,
    pub rationale: Option<Seq<char>>,
}

impl DeepView for Candidate {
    type V = CandidateModel;

    open spec fn deep_view(&self) -> CandidateModel {
        CandidateModel {
            id: self.id,
            iteration: self.iteration,
            parent_ids: self.parent_ids@,
            method: self.method,
            function: self.function.deep_view(),
            scores: self.scores.deep_view(),
            rationale: self.rationale.deep_view(),
        }
    }
}

impl Clone for Candidate {
    fn clone(&self) -> (r: Self)
        ensures
            r.deep_view() == self.deep_view(),
    {
        let scores = match &self.scores {
            Some(s) => Some(s.clone()),
            None => None,
        };
        let r = Candidate {
            id: self.id,
            iteration: self.iteration,
            parent_ids: self.parent_ids.clone(),
            method: self.method,
            function: self.function.clone(),
            scores,
            rationale: self.rationale.clone(),
        };
        assert(r.parent_ids@ =~= self.parent_ids@);
        r
    }
}

/// What a reflection proposes in place of a function's prompt and schema.
#[derive(Debug)]
pub struct ImprovedFunction {
    pub prompt_text: String,
    pub classes: Vec<ClassDefinition>,
    pub enums: Vec<EnumDefinition>,
    pub rationale: String,
}

/// A test run as an example for the reflection. `inputs` and
/// `generated_outputs` pair a name with a rendered value.
#[derive(Debug)]
pub struct ReflectiveExample {
    pub inputs: Vec<(String, String)>,
    pub generated_outputs: Vec<(String, String)>,
    pub feedback: String,
    pub failure_location: Option<String>,
    pub test_source: Option<String>,
    pub test_name: Option<String>,
    pub prompt_tokens: Option<i64>,
    pub completion_tokens: Option<i64>,
    pub latency_ms: Option<Measure>,
}

/// What a [`ReflectiveExample`] says.
pub ghost struct ExampleModel {
    pub inputs: Seq<(Seq<char>, Seq<char>)>,
    pub generated_outputs: Seq<(Seq<char>, Seq<char>)>,
    pub feedback: Seq<char>,
    pub failure_location: Option<Seq<char>>,
    pub test_source: Option<Seq<char>>,
    pub test_name: Option<Seq<char>>,
    pub prompt_tokens: Option<i64>,
    pub completion_tokens: Option<i64>,
    pub latency_ms: Option<Measure>,
}

impl DeepView for ReflectiveExample {
    type V = ExampleModel;

    open spec fn deep_view(&self) -> ExampleModel {
        ExampleModel {
            inputs: self.inputs.deep_view(),
            generated_outputs: self.generated_outputs.deep_view(),
            feedback: self.feedback@,
            failure_location: self.failure_location.deep_view(),
            test_source: self.test_source.deep_view(),
            test_name: self.test_name.deep_view(),
            prompt_tokens: self.prompt_tokens,
            completion_tokens: self.completion_tokens,
            latency_ms: self.latency_ms,
        }
    }
}

/// Where a candidate stands on one objective.
#[derive(Debug)]
pub struct ObjectiveStatus {
    pub name: String,
    pub weight: Measure,
    pub direction: String,
    pub current_value: Measure,
    pub status: String,
}

/// What an [`ObjectiveStatus`] says.
pub ghost struct StatusModel {
    pub name: Seq<char>,
    pub weight: Measure,
    pub direction: Seq<char>,
    pub current_value: Measure,
    pub status: Seq<char>,
}

impl DeepView for ObjectiveStatus {
    type V = StatusModel;

    open spec fn deep_view(&self) -> StatusModel {
        StatusModel {
            name: self.name@,
            weight: self.weight,
            direction: self.direction@,
            current_value: self.current_value,
            status: self.status@,
        }
    }
}

/// Where a candidate stands on every objective.
#[derive(Debug)]
pub struct OptimizationObjectives {
    pub objectives: Vec<ObjectiveStatus>,
}

/// The scores of a candidate as the reflection sees them.
#[derive(Clone, Copy, Debug, PartialEq, Eq, Structural)]
pub struct CurrentMetrics {
    pub test_pass_rate: Measure,
    pub tests_passed: i64,
    pub tests_total: i64,
    pub avg_prompt_tokens: Measure,
    pub avg_completion_tokens: Measure,
    pub avg_total_tokens: Measure,
    pub avg_latency_ms: Measure,
}

} // verus!
