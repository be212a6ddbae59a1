//! Prompt optimisation for BAML functions: the decisions of an optimisation
//! run, verified, with the outside world left to the caller.

pub mod applier;
pub mod applier_laws;
pub mod assert_eval;
pub mod assoc;
pub mod candidate;
pub mod discovery;
pub mod engine_build;
pub mod evaluator;
pub mod file_laws;
pub mod filters;
pub mod gepa_runtime;
pub mod json_text;
pub mod measure;
pub mod optimize;
pub mod orchestrator;
pub mod pareto;
pub mod pareto_laws;
pub mod paths;
pub mod progress;
pub mod reflection;
pub mod scan;
pub mod scan_laws;
pub mod schema_extractor;
pub mod schema_laws;
pub mod selection_laws;
pub mod sources;
pub mod storage;
pub mod template_guard;
pub mod testset_filter;
pub mod testset_laws;
pub mod text;
pub mod value_bridge;
pub mod value_laws;
pub mod workspace;
