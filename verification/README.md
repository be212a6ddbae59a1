# baml_optimize

Iterative prompt improvement for BAML functions with multi-objective Pareto
optimisation, as a verified library.

- `src/` holds the decisions: rewriting prompts and class descriptions in source
  text (`applier`, `scan`), extracting a function's schema (`schema_extractor`),
  discovering and filtering tests (`discovery`, `testset_filter`), tallying
  results (`evaluator`), tracking the Pareto frontier (`pareto`), what a
  reflection is shown (`reflection`, `gepa_runtime`), the run as a machine of
  steps (`orchestrator`, `progress`), the layout and patches of a run
  (`storage`), values on their way to the runtime and back (`value_bridge`) and
  as text (`json_text`), assertions and template filters (`assert_eval`,
  `template_guard`, `filters`), and what the command says (`optimize`). `*_laws` state what holds across functions.
- `tests/` runs the library.
- `app/` is ordinary Rust around it: files, tasks, floating point, the command
  line, and traits for the compiler, the engine, the reflection model and the
  viewer.

Doubles pass through the library by their bits (`measure`): it compares them and
leaves arithmetic to the caller.
