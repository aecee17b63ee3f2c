use bottleneck_find::models::{AnalysisError, JaegerTrace, Process, Reference, Span, TraceData};
use bottleneck_find::output::OutputFormat;
use bottleneck_find::ranking::{generate_report, ServiceStats};
use bottleneck_find::run_analysis;

fn span(trace: &str, id: &str, start: u64, duration: u64, refs: Vec<(&str, &str)>, process: &str) -> Span {
    Span {
        trace_id: trace.to_string(),
        span_id: id.to_string(),
        operation: format!("op-{}", id),
        start_time: start,
        duration,
        references: refs
            .into_iter()
            .map(|(kind, target)| Reference { ref_type: kind.to_string(), trace_id: trace.to_string(), span_id: target.to_string() })
            .collect(),
        process_id: process.to_string(),
        tags: vec![],
    }
}

fn process(name: &str) -> Process {
    Process { service_name: name.to_string(), tags: vec![] }
}

fn trace(id: &str, db_duration: u64) -> TraceData {
    TraceData {
        trace_id: id.to_string(),
        spans: vec![
            span(id, "a", 1000, 1000, vec![], "p1"),
            span(id, "b", 1100, 800, vec![("CHILD_OF", "a")], "p2"),
            span(id, "c", 1200, db_duration, vec![("CHILD_OF", "b")], "p3"),
        ],
        processes: vec![
            ("p1".to_string(), process("api-gateway")),
            ("p2".to_string(), process("order-service")),
            ("p3".to_string(), process("mysql-db")),
        ],
    }
}

fn by_total(st: &ServiceStats, _traces: usize) -> u64 {
    st.total_contribution
}

#[test]
fn report_over_two_traces() {
    let export = JaegerTrace { data: vec![trace("t1", 700), trace("t2", 500)] };
    let report = generate_report(&export, by_total).unwrap();
    assert_eq!(report.total_traces, 2);
    assert_eq!(report.trace_analyses.len(), 2);
    assert_eq!(report.total_services, 3);
    assert_eq!(report.service_ranks.len(), 3);
    for i in 1..report.service_ranks.len() {
        assert!(report.service_ranks[i - 1].bottleneck_score >= report.service_ranks[i].bottleneck_score);
    }
    // Durations on the critical paths: api-gateway 1000 + 1000, order-service
    // 800 + 800, mysql-db 700 + 500.
    let ranked: Vec<(&str, u64)> =
        report.service_ranks.iter().map(|r| (r.service_name.as_str(), r.total_contribution)).collect();
    assert_eq!(ranked, vec![("api-gateway", 2000), ("order-service", 1600), ("mysql-db", 1200)]);
    let edges: Vec<(&str, &str, usize, u64)> = report
        .dependency_graph
        .iter()
        .map(|e| (e.from.as_str(), e.to.as_str(), e.call_count, e.total_duration))
        .collect();
    assert_eq!(edges, vec![("api-gateway", "order-service", 2, 1600), ("order-service", "mysql-db", 2, 1200)]);
}

#[test]
fn report_of_no_traces_is_empty() {
    let report = generate_report(&JaegerTrace { data: vec![] }, by_total).unwrap();
    assert_eq!(report.total_traces, 0);
    assert_eq!(report.total_services, 0);
    assert!(report.dependency_graph.is_empty());
}

#[test]
fn report_fails_on_a_missing_process() {
    let mut broken = trace("t1", 700);
    broken.processes.pop();
    match generate_report(&JaegerTrace { data: vec![trace("t0", 10), broken] }, by_total) {
        Err(AnalysisError::ProcessNotFound { span_id }) => assert_eq!(span_id, "c"),
        other => panic!("unexpected result: {:?}", other.map(|r| r.total_traces)),
    }
}

#[test]
fn run_analysis_keeps_the_format() {
    let export = JaegerTrace { data: vec![trace("t1", 700)] };
    let out = run_analysis(&export, OutputFormat::Dot, by_total).unwrap();
    assert_eq!(out.format, OutputFormat::Dot);
    assert_eq!(out.report.total_traces, 1);
    assert_eq!(out.report.service_ranks[0].service_name, "api-gateway");
}
