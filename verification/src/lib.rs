//! Query handling for the MLPerf load generator: the query samples that the load generator
//! issues and the answers they receive, a library of samples that is loaded and unloaded on
//! request, and a system under test that hands each issued sample, together with its loaded
//! data, to a user closure.

mod calls;
mod harness;
mod query;
mod samples;

pub use query::{Query, QuerySample, QuerySamples, Response};
pub use samples::{
    Samples, is_load_of, is_unload_of, last_of, lemma_counts_stay, lemma_load_calls_in_listed_order,
    made_in_order, lemma_load_makes_available,
    loads_or_unloads_to, lemma_unload_removes, lemma_unload_undoes_load, loaded_into,
    unloaded_from,
};
pub use harness::{
    Test, lemma_issue_runs_in_issue_order, lemma_issues_compose, lemma_loaded_query_is_served,
    lemma_reports_in_order, ran_in_order, lemma_unloaded_query_is_refused, ran_with,
};
