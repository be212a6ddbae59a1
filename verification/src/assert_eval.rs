//! Evaluation of `@@assert(...)` test expressions.
//!
//! The argument of `@@assert({{ this != null }})` is a Jinja template with
//! `this` bound to the function's return value; the rendered output is read as
//! a truthy or falsy string.

use vstd::prelude::*;
use vstd::string::*;

use crate::template_guard::{
    compilable, is_compilable, is_renderable, law_plain_expressions_can_be_rendered, plain_char,
    plain_expression, renderable, MAX_CODE,
};
use crate::text::{contains, lowercase, lowered, occurs, occurs_at, trim, trim_text};

verus! {

/// Result of evaluating a single assertion.
#[derive(Debug)]
pub enum AssertOutcome {
    Passed,
    Failed { rendered: String },
    Error { message: String },
}

/// What an [`AssertOutcome`] says.
pub ghost enum OutcomeModel {
    Passed,
    Failed { rendered: Seq<char> },
    Error { message: Seq<char> },
}

impl DeepView for AssertOutcome {
    type V = OutcomeModel;

    open spec fn deep_view(&self) -> OutcomeModel {
        match self {
            AssertOutcome::Passed => OutcomeModel::Passed,
            AssertOutcome::Failed { rendered } => OutcomeModel::Failed { rendered: rendered@ },
            AssertOutcome::Error { message } => OutcomeModel::Error { message: message@ },
        }
    }
}

impl Clone for AssertOutcome {
    fn clone(&self) -> (r: Self)
        ensures
            r.deep_view() == self.deep_view(),
    {
        match self {
            AssertOutcome::Passed => AssertOutcome::Passed,
            AssertOutcome::Failed { rendered } => AssertOutcome::Failed {
                rendered: rendered.clone(),
            },
            AssertOutcome::Error { message } => AssertOutcome::Error { message: message.clone() },
        }
    }
}

impl AssertOutcome {
    /// Whether the assertion passed.
    pub fn is_passed(&self) -> (r: bool)
        ensures
            r == (self is Passed),
    {
        match self {
            AssertOutcome::Passed => true,
            _ => false,
        }
    }
}

// ---------------------------------------------------------------------------
// The template engine
// ---------------------------------------------------------------------------

/// At which step the rendering of a template failed, and why.
#[derive(Debug)]
pub enum TemplateFailure {
    Compile(String),
    Convert(String),
    Load(String),
    Render(String),
}

/// What a [`TemplateFailure`] says.
pub ghost enum FailureModel {
    Compile(Seq<char>),
    Convert(Seq<char>),
    Load(Seq<char>),
    Render(Seq<char>),
}

impl DeepView for TemplateFailure {
    type V = FailureModel;

    open spec fn deep_view(&self) -> FailureModel {
        match self {
            TemplateFailure::Compile(message) => FailureModel::Compile(message@),
            TemplateFailure::Convert(message) => FailureModel::Convert(message@),
            TemplateFailure::Load(message) => FailureModel::Load(message@),
            TemplateFailure::Render(message) => FailureModel::Render(message@),
        }
    }
}

/// What the result of a rendering says.
pub open spec fn result_model(r: Result<String, TemplateFailure>) -> Result<
    Seq<char>,
    FailureModel,
> {
    match r {
        Ok(rendered) => Ok(rendered@),
        Err(e) => Err(e.deep_view()),
    }
}

/// The text that a value is rendered as: `null` where there is none.
pub open spec fn shown_text(is_none: bool, is_undefined: bool, text: Seq<char>) -> Seq<char> {
    if is_none || is_undefined {
        "null"@
    } else {
        text
    }
}

/// The text that a value is rendered as.
pub fn shown(is_none: bool, is_undefined: bool, text: String) -> (r: String)
    ensures
        r@ == shown_text(is_none, is_undefined, text@),
        is_none || is_undefined ==> r@ == "null"@,
        !is_none && !is_undefined ==> r@ == text@,
{
    if is_none || is_undefined {
        String::from_str("null")
    } else {
        text
    }
}

/// The message with which the template `source`, under `name`, is refused by
/// the compiler of the template engine; none where it compiles.
pub uninterp spec fn template_refusal(name: Seq<char>, source: Seq<char>) -> Option<Seq<char>>;

/// The message with which `text` is refused as JSON; none where it is JSON.
pub uninterp spec fn json_refusal(text: Seq<char>) -> Option<Seq<char>>;

/// What the template `source`, under `name`, renders as when `null_name` is
/// bound to none and `this_name` to the JSON value `this_json`.
pub uninterp spec fn template_rendering(
    name: Seq<char>,
    source: Seq<char>,
    null_name: Seq<char>,
    this_name: Seq<char>,
    this_json: Seq<char>,
) -> Result<Seq<char>, FailureModel>;

/// Outside function: `minijinja::Environment::add_template`, in a new
/// environment, which compiles a template and fails if it has a syntax error.
/// The contract claims that whether it fails, and with what message, is a
/// function of the name and the source. It needs a source that can be compiled:
/// the parser and the code generator call themselves for each operator in a
/// chain, and nothing but the length of the source limits that.
#[verifier::external_body]
fn compile_template(name: &str, source: &str) -> (r: Option<String>)
    requires
        compilable(source@),
    ensures
        r.deep_view() == template_refusal(name@, source@),
{
    let mut env = minijinja::Environment::new();
    env.add_template(name, source).err().map(|e| e.to_string())
}

/// Outside function: `serde_json::from_str`, which reads a JSON value and fails
/// on a text that is not JSON or is nested 128 levels deep. The contract claims
/// that whether it fails, and with what message, is a function of the text.
#[verifier::external_body]
fn check_json(text: &str) -> (r: Option<String>)
    ensures
        r.deep_view() == json_refusal(text@),
{
    serde_json::from_str::<serde_json::Value>(text).err().map(|e| e.to_string())
}

/// Outside function: `minijinja::Template::render`, of a template that was
/// added to an environment under a name, with a global that is none, a
/// formatter that writes what [`shown`] returns, and a context that holds one
/// value, given as JSON. The contract claims that the result is a function of
/// the arguments: the rendered text, or the first of the steps to fail with its
/// message. It needs a source that can be rendered with the value, without the
/// parts of the engine that panic on some values, and JSON that can be read.
/// Left unsaid is what a template renders as.
#[verifier::external_body]
fn render_template(
    name: &str,
    source: &str,
    null_name: &str,
    this_name: &str,
    this_json: &str,
) -> (r: Result<String, TemplateFailure>)
    requires
        renderable(source@, this_json@),
        json_refusal(this_json@) is None,
    ensures
        result_model(r) == template_rendering(name@, source@, null_name@, this_name@, this_json@),
{
    let mut env = minijinja::Environment::new();
    env.add_global(null_name, ());
    env.set_formatter(|out, _state, value| {
        out.write_str(&shown(value.is_none(), value.is_undefined(), value.to_string()))
            .map_err(minijinja::Error::from)
    });
    env.add_template(name, source).map_err(|e| TemplateFailure::Compile(e.to_string()))?;
    let this: serde_json::Value = serde_json::from_str(this_json)
        .map_err(|e| TemplateFailure::Convert(e.to_string()))?;
    let template = env.get_template(name).map_err(|e| TemplateFailure::Load(e.to_string()))?;
    template.render(std::collections::BTreeMap::from([(this_name, this)]))
        .map_err(|e| TemplateFailure::Render(e.to_string()))
}

// ---------------------------------------------------------------------------
// Assertions
// ---------------------------------------------------------------------------

/// The template of an assertion: a bare expression stands between braces.
pub open spec fn assertion_source(template: Seq<char>) -> Seq<char> {
    if occurs(template, "{{"@) || occurs(template, "{%"@) {
        template
    } else {
        "{{ "@ + template + " }}"@
    }
}

/// The template of an assertion: a bare expression is wrapped in `{{ ... }}`.
pub fn wrap_assertion(template: &str) -> (r: String)
    ensures
        r@ == assertion_source(template@),
{
    if contains(template, "{{") || contains(template, "{%") {
        String::from_str(template)
    } else {
        let mut out = String::from_str("{{ ");
        out.append(template);
        out.append(" }}");
        out
    }
}

/// A rendered output that counts as false, whatever its case and the white
/// space around it.
pub open spec fn falsy(rendered: Seq<char>) -> bool {
    let word = lowered(trim(rendered));
    ||| word == "false"@
    ||| word == "0"@
    ||| word == ""@
    ||| word == "null"@
    ||| word == "none"@
}

/// What came of a rendering.
pub open spec fn judged(result: Result<Seq<char>, FailureModel>) -> OutcomeModel {
    match result {
        Ok(rendered) => if falsy(rendered) {
            OutcomeModel::Failed { rendered }
        } else {
            OutcomeModel::Passed
        },
        Err(FailureModel::Compile(message)) => OutcomeModel::Error {
            message: "failed to compile assert template: "@ + message,
        },
        Err(FailureModel::Convert(message)) => OutcomeModel::Error {
            message: "failed to convert result for assertion: "@ + message,
        },
        Err(FailureModel::Load(message)) => OutcomeModel::Error {
            message: "failed to load assert template: "@ + message,
        },
        Err(FailureModel::Render(message)) => OutcomeModel::Error {
            message: "failed to render assertion: "@ + message,
        },
    }
}

/// An error that tells the step and the reason.
fn failure(step: &str, message: &str) -> (r: AssertOutcome)
    ensures
        r.deep_view() == (OutcomeModel::Error { message: step@ + message@ }),
{
    let mut out = String::from_str(step);
    out.append(message);
    AssertOutcome::Error { message: out }
}

/// Reads the result of a rendering: [`AssertOutcome::Failed`] where the
/// rendered output is falsy (`false`, `0`, `null`, `none` or nothing),
/// [`AssertOutcome::Passed`] where it is anything else, and
/// [`AssertOutcome::Error`] where a step failed.
pub fn judge(result: Result<String, TemplateFailure>) -> (r: AssertOutcome)
    ensures
        r.deep_view() == judged(result_model(result)),
{
    match result {
        Ok(rendered) => {
            let trimmed = trim_text(rendered.as_str());
            let word = lowercase(trimmed.as_str());
            let w = word.as_str();
            if crate::text::same_text(w, "false") || crate::text::same_text(w, "0")
                || crate::text::same_text(w, "") || crate::text::same_text(w, "null")
                || crate::text::same_text(w, "none") {
                AssertOutcome::Failed { rendered }
            } else {
                AssertOutcome::Passed
            }
        },
        Err(TemplateFailure::Compile(message)) => failure(
            "failed to compile assert template: ",
            message.as_str(),
        ),
        Err(TemplateFailure::Convert(message)) => failure(
            "failed to convert result for assertion: ",
            message.as_str(),
        ),
        Err(TemplateFailure::Load(message)) => failure(
            "failed to load assert template: ",
            message.as_str(),
        ),
        Err(TemplateFailure::Render(message)) => failure(
            "failed to render assertion: ",
            message.as_str(),
        ),
    }
}

/// What the conversion of a value for the template engine says.
pub open spec fn converted(this: Result<String, String>) -> Result<Seq<char>, Seq<char>> {
    match this {
        Ok(json) => Ok(json@),
        Err(message) => Err(message@),
    }
}

/// What the rendering of an assertion comes to: the template is compiled, the
/// value must have been converted, then the template is rendered.
pub open spec fn assertion_result(
    template: Seq<char>,
    this: Result<Seq<char>, Seq<char>>,
) -> Result<Seq<char>, FailureModel> {
    let source = assertion_source(template);
    match template_refusal("__assert__"@, source) {
        Some(message) => Err(FailureModel::Compile(message)),
        None => match this {
            Err(message) => Err(FailureModel::Convert(message)),
            Ok(json) => match json_refusal(json) {
                Some(message) => Err(FailureModel::Convert(message)),
                None => template_rendering("__assert__"@, source, "null"@, "this"@, json),
            },
        },
    }
}

/// The template engine survives an assertion on a value.
pub open spec fn survives(template: Seq<char>, this: Result<Seq<char>, Seq<char>>) -> bool {
    match this {
        Ok(json) => renderable(assertion_source(template), json),
        Err(_) => compilable(assertion_source(template)),
    }
}

/// Whether [`evaluate_assertion`] can take `template` and `this`: the source is
/// short enough, and free of what the template engine does not survive.
pub fn can_evaluate(template: &str, this: &Result<String, String>) -> (r: bool)
    ensures
        r == survives(template@, converted(*this)),
{
    let source = wrap_assertion(template);
    match this {
        Ok(json) => is_renderable(source.as_str(), json.as_str()),
        Err(_) => is_compilable(source.as_str()),
    }
}

/// Evaluates a single `@@assert` expression against a function result.
///
/// `template` is the raw Jinja source: normally `{{ expression }}`, though
/// callers may also pass a bare expression. `null` stands for none, as it does
/// in BAML source, and none is rendered as `null`. `this` is what became of
/// the function result on its way into the template engine: its JSON text, or
/// the reason why it has none. A text that is nested deeper than the JSON
/// reader goes is refused as well. [`can_evaluate`] tells which templates are
/// taken.
pub fn evaluate_assertion(template: &str, this: &Result<String, String>) -> (r: AssertOutcome)
    requires
        survives(template@, converted(*this)),
    ensures
        r.deep_view() == judged(assertion_result(template@, converted(*this))),
{
    let source = wrap_assertion(template);
    match compile_template("__assert__", source.as_str()) {
        Some(message) => {
            return judge(Err(TemplateFailure::Compile(message)));
        },
        None => {},
    }
    let json = match this {
        Ok(json) => json.as_str(),
        Err(message) => {
            return judge(Err(TemplateFailure::Convert(message.clone())));
        },
    };
    match check_json(json) {
        Some(message) => {
            return judge(Err(TemplateFailure::Convert(message)));
        },
        None => {},
    }
    judge(render_template("__assert__", source.as_str(), "null", "this", json))
}

/// A template that has been wrapped is not wrapped again.
pub proof fn law_wrapping_is_idempotent(template: Seq<char>)
    ensures
        assertion_source(assertion_source(template)) == assertion_source(template),
{
    let once = assertion_source(template);
    if !(occurs(template, "{{"@) || occurs(template, "{%"@)) {
        reveal_strlit("{{ ");
        reveal_strlit("{{");
        assert(once.subrange(0, 2) =~= "{{"@);
        assert(occurs_at(once, "{{"@, 0));
    }
}

/// A bare expression and the same expression in braces are one assertion: the
/// one can be evaluated if and only if the other can, and they come to the same.
pub proof fn law_braces_make_no_difference(
    expression: Seq<char>,
    this: Result<Seq<char>, Seq<char>>,
)
    requires
        !occurs(expression, "{{"@),
        !occurs(expression, "{%"@),
    ensures
        ({
            let braced = "{{ "@ + expression + " }}"@;
            &&& survives(braced, this) == survives(expression, this)
            &&& judged(assertion_result(braced, this)) == judged(
                assertion_result(expression, this),
            )
        }),
{
    law_wrapping_is_idempotent(expression);
}

/// An assertion fails exactly if what it renders as is, but for white space
/// around it and the case of its letters, one of the false words or nothing.
pub proof fn law_false_words_fail(rendered: Seq<char>)
    ensures
        judged(Ok(rendered)) is Passed || judged(Ok(rendered)) == (OutcomeModel::Failed {
            rendered,
        }),
        judged(Ok(rendered)) is Failed <==> exists|a: int, b: int|
            0 <= a <= b <= rendered.len() && false_word(#[trigger] rendered.subrange(a, b)) && (
            forall|i: int|
                0 <= i < a || b <= i < rendered.len() ==> crate::text::is_space(
                    #[trigger] rendered[i],
                )),
{
    reveal_strlit("false");
    reveal_strlit("0");
    reveal_strlit("");
    reveal_strlit("null");
    reveal_strlit("none");
    crate::text::law_trimming_takes_white_space_off(rendered);
    if judged(Ok(rendered)) is Failed {
        let (a, b) = choose|a: int, b: int|
            0 <= a <= b <= rendered.len() && #[trigger] rendered.subrange(a, b) == trim(rendered)
                && (forall|i: int|
                0 <= i < a || b <= i < rendered.len() ==> crate::text::is_space(
                    #[trigger] rendered[i],
                ));
        let word = rendered.subrange(a, b);
        assert("false"@ =~= seq!['f', 'a', 'l', 's', 'e']);
        assert("0"@ =~= seq!['0']);
        assert("null"@ =~= seq!['n', 'u', 'l', 'l']);
        assert("none"@ =~= seq!['n', 'o', 'n', 'e']);
        assert(lowered(word).len() == word.len());
        assert(false_word(word));
    }
    if exists|a: int, b: int|
        0 <= a <= b <= rendered.len() && false_word(#[trigger] rendered.subrange(a, b)) && (
        forall|i: int|
            0 <= i < a || b <= i < rendered.len() ==> crate::text::is_space(
                #[trigger] rendered[i],
            )) {
        let (a, b) = choose|a: int, b: int|
            0 <= a <= b <= rendered.len() && false_word(#[trigger] rendered.subrange(a, b)) && (
            forall|i: int|
                0 <= i < a || b <= i < rendered.len() ==> crate::text::is_space(
                    #[trigger] rendered[i],
                ));
        let word = rendered.subrange(a, b);
        lemma_trim_between(rendered, a, b);
    }
}

/// A word that counts as false, in any case, or nothing.
pub open spec fn false_word(word: Seq<char>) -> bool {
    ||| word.len() == 0
    ||| lowered(word) == seq!['f', 'a', 'l', 's', 'e']
    ||| lowered(word) == seq!['0']
    ||| lowered(word) == seq!['n', 'u', 'l', 'l']
    ||| lowered(word) == seq!['n', 'o', 'n', 'e']
}

/// A template with braces or a tag stands for itself; a bare expression stands
/// between braces.
pub proof fn law_only_bare_expressions_are_wrapped(template: Seq<char>)
    ensures
        occurs(template, seq!['{', '{']) || occurs(template, seq!['{', '%']) ==> assertion_source(
            template,
        ) == template,
        !occurs(template, seq!['{', '{']) && !occurs(template, seq!['{', '%'])
            ==> assertion_source(template) == seq!['{', '{', ' '] + template + seq![' ', '}', '}'],
{
    reveal_strlit("{{");
    reveal_strlit("{%");
    reveal_strlit("{{ ");
    reveal_strlit(" }}");
    assert("{{"@ =~= seq!['{', '{']);
    assert("{%"@ =~= seq!['{', '%']);
    assert("{{ "@ =~= seq!['{', '{', ' ']);
    assert(" }}"@ =~= seq![' ', '}', '}']);
}

/// An assertion tells of the first step that failed: that the template could
/// not be compiled, then that the value could not be converted.
pub proof fn law_the_first_failure_is_told(
    template: Seq<char>,
    this: Result<Seq<char>, Seq<char>>,
)
    ensures
        template_refusal("__assert__"@, assertion_source(template)) matches Some(message) ==> judged(
            assertion_result(template, this),
        ) == (OutcomeModel::Error { message: "failed to compile assert template: "@ + message }),
        template_refusal("__assert__"@, assertion_source(template)) is None && this is Err
            ==> judged(assertion_result(template, this)) == (OutcomeModel::Error {
            message: "failed to convert result for assertion: "@ + this->Err_0,
        }),
        template_refusal("__assert__"@, assertion_source(template)) is None && this is Ok
            && json_refusal(this->Ok_0) is Some ==> judged(assertion_result(template, this)) == (
        OutcomeModel::Error {
            message: "failed to convert result for assertion: "@ + json_refusal(this->Ok_0)->0,
        }),
{
}

proof fn lemma_trim_between(s: Seq<char>, a: int, b: int)
    requires
        0 <= a <= b <= s.len(),
        false_word(s.subrange(a, b)),
        forall|i: int| 0 <= i < a || b <= i < s.len() ==> crate::text::is_space(#[trigger] s[i]),
    ensures
        falsy(s),
{
    reveal_strlit("false");
    reveal_strlit("0");
    reveal_strlit("");
    reveal_strlit("null");
    reveal_strlit("none");
    let word = s.subrange(a, b);
    assert("false"@ =~= seq!['f', 'a', 'l', 's', 'e']);
    assert("0"@ =~= seq!['0']);
    assert("null"@ =~= seq!['n', 'u', 'l', 'l']);
    assert("none"@ =~= seq!['n', 'o', 'n', 'e']);
    crate::text::law_trimming_takes_white_space_off(s);
    let (c, d) = choose|c: int, d: int|
        0 <= c <= d <= s.len() && #[trigger] s.subrange(c, d) == trim(s) && (forall|i: int|
            0 <= i < c || d <= i < s.len() ==> crate::text::is_space(#[trigger] s[i]));
    if word.len() == 0 {
        assert(trim(s).len() == 0) by {
            if trim(s).len() > 0 {
                assert(s.subrange(c, d)[0] == s[c]);
                assert(crate::text::is_space(s[c]));
            }
        }
        assert(lowered(trim(s)) =~= ""@);
    } else {
        let n = word.len() as int;
        assert(lowered(word).len() == n);
        assert(lowered(word)[0] == crate::text::ascii_lower(word[0]));
        assert(lowered(word)[n - 1] == crate::text::ascii_lower(word[n - 1]));
        assert(word[0] == s[a] && word[n - 1] == s[b - 1]);
        assert(!crate::text::is_space(s[a]));
        assert(!crate::text::is_space(s[b - 1]));
        assert(c <= a && b <= d);
        assert(trim(s).len() > 0);
        assert(s.subrange(c, d)[0] == s[c]);
        assert(s.subrange(c, d)[d - c - 1] == s[d - 1]);
        assert(c == a && d == b);
    }
}

/// A plain expression can be evaluated on any value, unless it is too long.
pub proof fn law_plain_expressions_can_be_evaluated(
    expression: Seq<char>,
    this: Result<Seq<char>, Seq<char>>,
)
    requires
        plain_expression(expression),
        expression.len() + 6 <= MAX_CODE,
    ensures
        survives(expression, this),
{
    reveal_strlit("{{");
    reveal_strlit("{%");
    law_only_bare_expressions_are_wrapped(expression);
    assert forall|i: int| !occurs_at(expression, seq!['{', '{'], i) && !occurs_at(
        expression,
        seq!['{', '%'],
        i,
    ) by {
        if 0 <= i && i + 2 <= expression.len() {
            assert(expression.subrange(i, i + 2)[0] == expression[i]);
            assert(plain_char(expression[i]));
        }
    }
    let json = match this {
        Ok(json) => json,
        Err(_) => Seq::empty(),
    };
    law_plain_expressions_can_be_rendered(expression, json);
}

} // verus!
