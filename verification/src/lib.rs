//! Bottleneck analysis of distributed traces in the Jaeger format: service
//! calls, span trees, critical paths, a service dependency graph and a
//! ranking of the services that slow the traces down.

pub mod models;
pub mod parser;
pub mod span_tree;
pub mod critical_path;
pub mod analysis;
pub mod graph_store;
pub mod dependency_graph;
pub mod ranking;
pub mod output;
pub mod monitor;
pub mod text;
pub mod table_store;
pub mod sample;
pub mod stream;
pub mod detection;
pub mod text_report;

use vstd::prelude::*;
use crate::models::{AnalysisError, AnalysisReport, JaegerTrace, ServiceCall};
use crate::output::OutputFormat;
use crate::ranking::{generate_report, report_fits, report_of, ServiceStats};
use crate::analysis::{analysable, processes_complete, roots_first, trace_fails, trace_fits};
use crate::span_tree::distinct_ids;
use crate::dependency_graph::{calls_fit, empty_model, traces_calls};

verus! {

/// A finished analysis and the form it is to be written in.
#[derive(Debug, Clone)]
pub struct AnalysisOutput {
    pub report: AnalysisReport,
    pub format: OutputFormat,
}

/// Runs the whole analysis of an export and pairs the report with the
/// format it is to be written in; `score` ranks the services. Fails as
/// `generate_report` does.
pub fn run_analysis<F: Fn(&ServiceStats, usize) -> u64>(trace: &JaegerTrace, output_format: OutputFormat, score: F) -> (res:
    Result<AnalysisOutput, AnalysisError>)
    requires
        forall|i: int|
            0 <= i < trace.data@.len() ==> trace_fits((#[trigger] trace.data@[i]).spans@) && roots_first(trace.data@[i].spans@),
        report_fits(trace.data@),
        forall|k: int|
            0 <= k <= trace.data@.len() ==> (traces_calls(#[trigger] trace.data@.subrange(0, k)) matches Ok(c) ==> calls_fit(
                empty_model(),
                c,
            )),
        forall|st: &ServiceStats, n: usize| score.requires((st, n)),
    ensures
        match res {
            Ok(out) => out.format == output_format && report_of(trace.data@, score, out.report),
            Err(e) => (exists|i: int|
                0 <= i < trace.data@.len() && trace_fails(#[trigger] trace.data@[i], e) && forall|j: int|
                    0 <= j < i ==> analysable(#[trigger] trace.data@[j])) || ((forall|j: int|
                0 <= j < trace.data@.len() ==> analysable(#[trigger] trace.data@[j]))
                && traces_calls(trace.data@) == Err::<Seq<crate::models::ServiceCall>, AnalysisError>(e)),
        },
        (forall|i: int| 0 <= i < trace.data@.len() ==> processes_complete(#[trigger] trace.data@[i])) && traces_calls(
            trace.data@,
        ) is Ok ==> res is Ok,
        res is Ok ==> forall|i: int|
            0 <= i < trace.data@.len() && distinct_ids(trace.data@[i].spans@) ==> processes_complete(#[trigger] trace.data@[i]),
{
    match generate_report(trace, score) {
        Ok(report) => Ok(AnalysisOutput { report, format: output_format }),
        Err(e) => Err(e),
    }
}

} // verus!
