use baml_optimize::assert_eval::{
    can_evaluate, evaluate_assertion, judge, shown, wrap_assertion, AssertOutcome, TemplateFailure,
};
use baml_optimize::filters::{match_or_not, regex_match, sum_parts, whole_sums_stay, SumItem};
use baml_optimize::json_text::write_json;
use baml_optimize::measure::Measure;
use baml_optimize::template_guard::{is_bounded, MAX_CODE, MAX_SOURCE};
use baml_optimize::value_bridge::{bex_to_json_value, BexExternalValue};

fn person(name: &str, age: Option<i64>) -> Result<String, String> {
    let fields = vec![
        ("name".to_string(), BexExternalValue::Text(name.into())),
        ("age".to_string(), age.map_or(BexExternalValue::Null, BexExternalValue::Int)),
    ];
    convert(&BexExternalValue::Instance { class_name: "Person".into(), fields })
}

fn null() -> Result<String, String> {
    convert(&BexExternalValue::Null)
}

fn convert(value: &BexExternalValue) -> Result<String, String> {
    match bex_to_json_value(value) {
        Ok(json) => Ok(write_json(&json, &vec![])),
        Err(e) => Err(e.message()),
    }
}

fn lists() -> Result<String, String> {
    Ok(r#"{"tags":["a","b"],"people":[{"name":"Meg"}],"age":4}"#.to_string())
}

fn message(outcome: AssertOutcome) -> String {
    match outcome {
        AssertOutcome::Error { message } => message,
        other => panic!("expected an error, got {other:?}"),
    }
}

#[test]
fn passes_non_null_check() {
    let result = evaluate_assertion("{{ this != null }}", &person("Meg", None));
    assert!(result.is_passed(), "expected pass, got {result:?}");
}

#[test]
fn fails_null_check_against_null() {
    let result = evaluate_assertion("{{ this != null }}", &null());
    assert!(!result.is_passed(), "expected fail, got {result:?}");
}

#[test]
fn field_equality_passes() {
    let result = evaluate_assertion("{{ this.name == 'Meg' }}", &person("Meg", None));
    assert!(result.is_passed(), "expected pass, got {result:?}");
}

#[test]
fn field_equality_fails_on_mismatch() {
    let result = evaluate_assertion("{{ this.name == 'Pam' }}", &person("Meg", None));
    assert!(!result.is_passed(), "expected fail, got {result:?}");
}

#[test]
fn bare_expression_is_wrapped_in_braces() {
    let result = evaluate_assertion("this != null", &person("Meg", None));
    assert!(result.is_passed(), "expected pass, got {result:?}");
}

#[test]
fn age_comparison_with_int() {
    let result = evaluate_assertion("{{ this.age == 4 }}", &person("Ellie", Some(4)));
    assert!(result.is_passed(), "expected pass, got {result:?}");
}

#[test]
fn templates_with_tags_are_left_alone() {
    assert_eq!(wrap_assertion("this"), "{{ this }}");
    assert_eq!(wrap_assertion("{{ this }}"), "{{ this }}");
    assert_eq!(wrap_assertion("{% if this %}1{% endif %}"), "{% if this %}1{% endif %}");
    assert_eq!(wrap_assertion("{ this }"), "{{ { this } }}");
    assert_eq!(wrap_assertion(&wrap_assertion("this")), wrap_assertion("this"));
}

#[test]
fn only_falsy_words_fail() {
    for word in ["false", "FALSE", " 0\n", "", "\t", "null", "None"] {
        match judge(Ok(word.to_string())) {
            AssertOutcome::Failed { rendered } => assert_eq!(rendered, word),
            other => panic!("expected a failure for {word:?}, got {other:?}"),
        }
    }
    for word in ["true", "True", "1", "yes", "00", "no", "0.0"] {
        assert!(judge(Ok(word.to_string())).is_passed(), "{word:?}");
    }
}

#[test]
fn each_failed_step_is_told() {
    assert_eq!(
        message(judge(Err(TemplateFailure::Compile("m".into())))),
        "failed to compile assert template: m"
    );
    assert_eq!(
        message(judge(Err(TemplateFailure::Convert("m".into())))),
        "failed to convert result for assertion: m"
    );
    assert_eq!(
        message(judge(Err(TemplateFailure::Load("m".into())))),
        "failed to load assert template: m"
    );
    assert_eq!(
        message(judge(Err(TemplateFailure::Render("m".into())))),
        "failed to render assertion: m"
    );
}

#[test]
fn syntax_errors_come_before_conversion_errors() {
    let opaque = convert(&BexExternalValue::Opaque { kind: "image".into() });
    let text = message(evaluate_assertion("{{ this", &opaque));
    assert!(text.starts_with("failed to compile assert template: "), "{text}");
    assert!(text.contains("__assert__"), "{text}");
    assert_eq!(
        message(evaluate_assertion("{{ this }}", &opaque)),
        "failed to convert result for assertion: cannot convert image to JSON"
    );
    assert_eq!(
        message(evaluate_assertion("{{ this }}", &Err("media".into()))),
        "failed to convert result for assertion: media"
    );
}

#[test]
fn errors_while_rendering_are_told() {
    let text = message(evaluate_assertion("{{ this.age + this.name }}", &person("Meg", Some(4))));
    assert!(text.starts_with("failed to render assertion: "), "{text}");
    let text = message(evaluate_assertion("{{ this }}", &Ok("nul".into())));
    assert!(text.starts_with("failed to convert result for assertion: "), "{text}");
}

#[test]
fn ordinary_assertions_can_be_evaluated() {
    for template in [
        "this != null",
        "{{ this.name == 'Meg' }}",
        "{{ this.tags | length > 2 }}",
        "{{ this.tags|first|upper == \"A\" and this.age / 2 >= 1 }}",
        "{{ this.a * 2 == 8 }}",
        "{{ this.a*2*1000 == 8 }}",
        "{{ this.a ** 2 == 8 }}",
        "{{ this.s == \"* | batch(9) namespace {% for %} :: [\" }}",
        "{% if this.age %}true{%- else -%}false{% endif %}",
        "{%+ set n = this.age %}{{ n == 4 }}",
        "{% with n = this.age %}{{ n == 4 }}{% endwith %}",
        "{% for x in this.tags %}{{ x|trim }}{% endfor %}",
        "{% for i in range(3) %}{{ i }}{% endfor %}",
        "{% filter upper|trim %}true{% endfilter %}",
        "{{ this.tags[1:3] }}",
        "{{ this.tags[::2] == this.tags[0:4:] }}",
        "{{ [{'a': 1, 'b': {'c': 2}}][0].a == 1 }}",
        "{{ this.mapping is mapping }}",
        "{{ this.range == this.loop.debug }}",
        "{{ dict(a=1).a is divisibleby(3) }}",
        "{{ this.tags|unique|list|length }}",
        "{{ this.name|split(',')|select|list }}",
        "{{ this.people|selectattr('active')|rejectattr(\"left\")|map(attribute='name') }}",
        "{{ this.people|selectattr('name', 'eq', 'Meg')|map(attribute=this.key, default=0) }}",
        "{{ this.tags|select('ne', 'x')|reject(\"defined\")|map('upper')|map('round', 2) }}",
        "{% for x in this.tags %}{{ loop.index ~ loop.last ~ loop.changed(x) }}{% endfor %}",
        "{# {{ [1] * this }} #}true * | format",
    ] {
        assert!(can_evaluate(template, &lists()), "{template}");
    }
    // Without sequences there is nothing to outgrow.
    for template in [
        "this.age * this.age == 16",
        "{{ (this.a + this.b) * this.c / this.d + this.e + this.f + this.g + this.h + this.i \
         + this.j + this.k + this.l * 2 * 3 * 4 * 5 }}",
        "{% set n = this.age %}{{ n * n|int ** n == 4 }}",
    ] {
        assert!(can_evaluate(template, &person("Meg", Some(4))), "{template}");
        assert!(!can_evaluate(template, &lists()), "{template}");
    }
    let long = format!("{{{{ this.name != \"{}\" }}}}", "x".repeat(5000));
    assert!(can_evaluate(&long, &lists()));
    let this = person("Meg", Some(4));
    assert!(evaluate_assertion(&long, &this).is_passed());
    for template in [
        "{%- set n = this.age %}{{ n == 4 }}",
        "this.name|lower|trim == 'meg'",
        "this.name[0:1] == 'M'",
        "this.age * 2 == 8",
        "[1] * 3 == [1, 1, 1]",
        "2 ** 3 == 8",
        "{% for x in [1] %}{{ this.age == 4 }}{% endfor %}",
        "{{ {'a': {'b': 1}}.a.b == 1 }}",
        "{{ '}} \\'' ~ \"\" == \"}} '\" }}",
        "[{'n': 'a'}]|map(attribute='n')|first == 'a'",
        "[0, 1]|select|list == [1]",
        "[1, 2]|select('gt', 1)|list == [2]",
        "['a']|map('upper')|first == 'A'",
        "{% for x in [1] %}{{ loop.index == 1 }}{% endfor %}",
        "this.age * this.age == 16",
    ] {
        assert!(can_evaluate(template, &this), "{template}");
        let outcome = evaluate_assertion(template, &this);
        assert!(outcome.is_passed(), "{template}: {outcome:?}");
    }
}

#[test]
fn templates_beyond_the_bounds_are_told() {
    for template in [
        "{{ \"%.70000f\"|format(1.5) }}",
        "{{ \"x\"|indent(18446744073709551615) }}",
        "{{ [1] | batch(18446744073709551615) }}",
        "{{ [1]|slice(18446744073709551615) }}",
        "{{ [this]|map(this.filter, 1) }}",
        "{{ [this]|map('batch', 18446744073709551615) }}",
        "{{ [1]|select(this.test, 0) }}",
        "{{ [1]|select('divisibleby', 0) }}",
        "{{ [1]|select('divisi' ~ 'bleby', 0) }}",
        "{{ [1]|select('\\x64ivisibleby', 0) }}",
        "{{ [1]|selectattr('a', 'divisibleby', 0) }}",
        "{{ [1]|selectattr('a', this.test, 0) }}",
        "{{ [1]|map('map', 'batch', 9) }}",
        "{% for x in this %}{{ loop.cycle() }}{% endfor %}",
        "{% for x in this %}{{ loop['cycle']() }}{% endfor %}",
        "{{ () * this }}",
        "{{ (1,) * this }}",
        "{{ this|list * this }}",
        "{{ 1 is divisibleby(0) }}",
        "{{ 1 is divisibleby(this) }}",
        "{{ 1 is divisibleby 0 }}",
        "{{ [1] * 18446744073709551615 }}",
        "{{ [1] * this }}",
        "{{ [1] * 9999 ** 4 }}",
        "{{ [1] * 9|replace('9', this.n)|int }}",
        "{{ [1] * 2e9 }}",
        "{{ [1] * 0xffffffff }}",
        "{{ [1] * 9999 * 9999 * 9999 }}",
        "{{ {'a': {}} }} it's {{ [1] * this }} it's",
        "{{ {'a': {'b': 1}} ~ \"x {{ y\" ~ [1] * this }}",
        "{{ this[0:2:-1] }}",
        "{{ this[0:2:this] }}",
        "{{ this[0:2:2-5] }}",
        "{{ this|sort(attribute='a.b') }}",
        "{{ range(0, 3, this) }}",
        "{{ range(this) }}",
        "{{ dict }}",
        "{% set n = namespace(x=1) %}",
        "{% for x in this %}{% set y = [y] %}{% endfor %}",
        "{% for x in this recursive %}{{ loop([x]) }}{% endfor %}",
        "{%- macro f() %}{% endmacro %}",
        "{% include '__assert__' %}",
        "{% filter indent(18446744073709551615) %}x{% endfilter %}",
        "{% raw %}{{ \" {% endraw %}{{ [1] * this }}",
    ] {
        assert!(!can_evaluate(template, &Ok("1".into())), "{template}");
        assert!(!can_evaluate(template, &Err("no value".into())), "{template}");
    }
    let grow = "{% set x = x + x %}";
    let grown = |n: usize| "{% set x = [1] * 9999 * 9999 %}".to_string() + &grow.repeat(n);
    assert!(can_evaluate(&grown(8), &null()));
    assert!(!can_evaluate(&grown(9), &null()));
    assert!(is_bounded(&"x".repeat(MAX_SOURCE)));
    assert!(!is_bounded(&"x".repeat(MAX_SOURCE + 1)));
    assert!(is_bounded(&format!("{{{{ {} }}}}", "x ".repeat(MAX_CODE - 2))));
    assert!(!is_bounded(&format!("{{{{ {} }}}}", "x ".repeat(MAX_CODE - 1))));
}

#[test]
fn an_error_far_out_on_a_line_is_told() {
    let template = format!("{}{{{{ ? ", "x".repeat(MAX_SOURCE - 5));
    assert!(can_evaluate(&template, &null()));
    let text = message(evaluate_assertion(&template, &null()));
    assert!(text.starts_with("failed to compile assert template: "), "{text}");
}

#[test]
fn doubles_keep_their_value_on_the_way() {
    for text in ["51.24817837550540", "31.245270191439438", "0.1", "5e-324", "1.7976931348623157e308"] {
        let outcome = evaluate_assertion(&format!("this == {text}"), &Ok(text.to_string()));
        assert!(outcome.is_passed(), "{text}: {outcome:?}");
    }
}

#[test]
fn braces_make_no_difference() {
    for (expression, this) in [("this != null", person("Meg", None)), ("this != null", null())] {
        let braced = format!("{{{{ {expression} }}}}");
        let bare = evaluate_assertion(expression, &this);
        let whole = evaluate_assertion(&braced, &this);
        assert_eq!(format!("{bare:?}"), format!("{whole:?}"));
    }
}

#[test]
fn the_longest_chains_are_evaluated() {
    let this = Ok("1".to_string());
    let fill = |first: &str, piece: &str, last: &str| {
        let code = |text: &str| text.chars().filter(|c| !c.is_whitespace()).count();
        let room = MAX_CODE - 2 - code(first) - code(last);
        format!("{first}{}{last}", piece.repeat(room / code(piece)))
    };
    for template in [
        fill("", "1+", "1"),
        fill("", "1~", "1"),
        fill("", "1 or ", "1"),
        fill("", "1<", "1"),
        fill("", "1if 1else ", "1"),
        fill("", "not ", "1"),
        fill("", "-", "1"),
        fill("", "(", "1"),
        fill("", "[", "1"),
        fill("this", ".a", ""),
        fill("this", "|e", ""),
        fill("this", "|list", ""),
        fill("this", "|zip", ""),
        fill("this", "[0]", ""),
        fill("1", " is odd", ""),
        fill("", "[1]==", "[1]"),
        fill("", "{% if 1 %}", ""),
        fill("", "{% if 1 %}{% elif 1 %}", ""),
        fill("", "{% for x in [1] %}", ""),
    ] {
        assert!(can_evaluate(&template, &this), "{template}");
        evaluate_assertion(&template, &this);
    }
    assert!(evaluate_assertion(&fill("", "1+", "1"), &this).is_passed());
    let tags = "{% if 1 %}".repeat(40) + "true" + &"{% endif %}".repeat(40);
    assert!(evaluate_assertion(&tags, &this).is_passed());
}

#[test]
fn the_deepest_values_are_rendered() {
    let nested = |n: usize| "[".repeat(n) + "x" + &"]".repeat(n);
    let mut template = "{% set x = 1 %}".to_string();
    for _ in 0..6 {
        template += &format!("{{% set x = {} %}}", nested(70));
    }
    template += "{{ x }}{{ x == x }}{{ x|string|length }}";
    assert!(can_evaluate(&template, &null()));
    let deep = Ok("[".repeat(127) + &"]".repeat(127));
    let outcome = evaluate_assertion(&template, &deep);
    assert!(outcome.is_passed(), "{outcome:?}");
    let template = template.replace("x = 1", "x = this");
    assert!(evaluate_assertion(&template, &deep).is_passed());
    let deeper = Ok("[".repeat(128) + &"]".repeat(128));
    let text = message(evaluate_assertion(&template, &deeper));
    assert!(text.starts_with("failed to convert result for assertion: "), "{text}");
}

#[test]
fn none_and_undefined_are_rendered_as_null() {
    for template in ["{{ this }}", "{{ null }}", "{{ missing }}", "{{ none }}"] {
        match evaluate_assertion(template, &null()) {
            AssertOutcome::Failed { rendered } => assert_eq!(rendered, "null"),
            other => panic!("expected a failure, got {other:?}"),
        }
    }
    assert_eq!(shown(false, false, "x".into()), "x");
    assert_eq!(shown(true, false, "x".into()), "null");
    assert_eq!(shown(false, true, "x".into()), "null");
}

#[test]
fn an_outcome_is_cloned_whole() {
    let outcome = AssertOutcome::Failed { rendered: "no".into() };
    match outcome.clone() {
        AssertOutcome::Failed { rendered } => assert_eq!(rendered, "no"),
        other => panic!("expected a failure, got {other:?}"),
    }
}

#[test]
fn patterns_match_anywhere_and_invalid_ones_nowhere() {
    assert!(regex_match("hello world", "o w"));
    assert!(regex_match("abc123", "^[a-z]+\\d{3}$"));
    assert!(!regex_match("abc12", "^[a-z]+\\d{3}$"));
    assert!(!regex_match("(", "("));
    assert!(match_or_not(Some(true)));
    assert!(!match_or_not(Some(false)));
    assert!(!match_or_not(None));
}

#[test]
fn whole_numbers_and_fractions_are_summed_apart() {
    let half = Measure::from_bits(0.5f64.to_bits());
    let items = vec![
        SumItem::Whole(3),
        SumItem::Fraction(half),
        SumItem::Other,
        SumItem::Whole(-5),
        SumItem::Fraction(Measure::one()),
    ];
    assert!(whole_sums_stay(&items));
    let (sum, rest) = sum_parts(&items);
    assert_eq!(sum, -2);
    assert_eq!(rest, vec![half, Measure::one()]);
    let (sum, rest) = sum_parts(&vec![]);
    assert_eq!((sum, rest.len()), (0, 0));
}

#[test]
fn a_running_sum_can_leave_the_range_of_a_word() {
    let most = SumItem::Whole(i64::MAX);
    assert!(!whole_sums_stay(&vec![most, SumItem::Whole(1), SumItem::Whole(-1)]));
    assert!(whole_sums_stay(&vec![SumItem::Whole(i64::MAX), SumItem::Whole(-1), SumItem::Whole(1)]));
    assert!(!whole_sums_stay(&vec![SumItem::Whole(i64::MIN), SumItem::Whole(-1)]));
}
