use bottleneck_find::models::{AnalysisError, JaegerTrace, Process, Reference, Span, TraceData};
use bottleneck_find::parser::{build_service_calls, get_span_service, parse_traces};

fn span(id: &str, start: u64, duration: u64, refs: Vec<(&str, &str)>, process: &str) -> Span {
    Span {
        trace_id: "test-trace-1".to_string(),
        span_id: id.to_string(),
        operation: format!("op-{}", id),
        start_time: start,
        duration,
        references: refs
            .into_iter()
            .map(|(kind, target)| Reference {
                ref_type: kind.to_string(),
                trace_id: "test-trace-1".to_string(),
                span_id: target.to_string(),
            })
            .collect(),
        process_id: process.to_string(),
        tags: vec![],
    }
}

fn process(name: &str) -> Process {
    Process { service_name: name.to_string(), tags: vec![] }
}

fn create_test_trace() -> JaegerTrace {
    JaegerTrace {
        data: vec![TraceData {
            trace_id: "test-trace-1".to_string(),
            spans: vec![
                span("span-1", 1000, 5000, vec![], "p1"),
                span("span-2", 1500, 3000, vec![("CHILD_OF", "span-1")], "p2"),
                span("span-3", 2000, 1000, vec![("CHILD_OF", "span-2")], "p3"),
            ],
            processes: vec![
                ("p1".to_string(), process("api-gateway")),
                ("p2".to_string(), process("order-service")),
                ("p3".to_string(), process("redis-cache")),
            ],
        }],
    }
}

#[test]
fn test_build_service_calls() {
    let trace_data = create_test_trace();
    let calls = build_service_calls(&trace_data.data[0]).unwrap();

    assert_eq!(calls.len(), 2);
    assert_eq!(calls[0].from_service, "api-gateway");
    assert_eq!(calls[0].to_service, "order-service");
    assert_eq!(calls[1].from_service, "order-service");
    assert_eq!(calls[1].to_service, "redis-cache");
}

#[test]
fn service_calls_carry_the_child_span() {
    let trace_data = create_test_trace();
    let calls = build_service_calls(&trace_data.data[0]).unwrap();
    assert_eq!(calls[0].duration, 3000);
    assert_eq!(calls[0].span_id, "span-2");
    assert_eq!(calls[0].start_time, 1500);
    assert!(!calls[0].is_async);
    assert_eq!(calls[0].queue_latency, None);
    assert_eq!(calls[1].operation, "op-span-3");
}

#[test]
fn calls_within_one_service_are_skipped() {
    let trace = TraceData {
        trace_id: "t".to_string(),
        spans: vec![span("a", 0, 10, vec![], "p1"), span("b", 1, 5, vec![("CHILD_OF", "a")], "p1")],
        processes: vec![("p1".to_string(), process("svc"))],
    };
    assert_eq!(build_service_calls(&trace).unwrap().len(), 0);
}

#[test]
fn follows_from_calls_are_async_with_queue_latency() {
    let trace = TraceData {
        trace_id: "t".to_string(),
        spans: vec![
            span("prod", 1000, 100, vec![], "p1"),
            span("cons", 1500, 50, vec![("FOLLOWS_FROM", "prod")], "p2"),
        ],
        processes: vec![("p1".to_string(), process("kafka")), ("p2".to_string(), process("mailer"))],
    };
    let calls = build_service_calls(&trace).unwrap();
    assert_eq!(calls.len(), 1);
    assert!(calls[0].is_async);
    assert_eq!(calls[0].queue_latency, Some(400));
}

#[test]
fn queue_latency_saturates_at_zero() {
    let trace = TraceData {
        trace_id: "t".to_string(),
        spans: vec![
            span("prod", 1000, 1000, vec![], "p1"),
            span("cons", 1500, 50, vec![("FOLLOWS_FROM", "prod")], "p2"),
        ],
        processes: vec![("p1".to_string(), process("kafka")), ("p2".to_string(), process("mailer"))],
    };
    let calls = build_service_calls(&trace).unwrap();
    assert_eq!(calls[0].queue_latency, Some(0));
}

#[test]
fn a_span_without_process_is_an_error() {
    let trace = TraceData {
        trace_id: "t".to_string(),
        spans: vec![span("a", 0, 10, vec![], "missing")],
        processes: vec![("p1".to_string(), process("svc"))],
    };
    match build_service_calls(&trace) {
        Err(AnalysisError::ProcessNotFound { span_id }) => assert_eq!(span_id, "a"),
        other => panic!("unexpected result: {:?}", other),
    }
}

#[test]
fn a_parent_without_process_is_an_error() {
    let trace = TraceData {
        trace_id: "t".to_string(),
        spans: vec![span("b", 1, 5, vec![("CHILD_OF", "a")], "p1"), span("a", 0, 10, vec![], "missing")],
        processes: vec![("p1".to_string(), process("svc"))],
    };
    match build_service_calls(&trace) {
        Err(AnalysisError::ParentProcessNotFound { span_id }) => assert_eq!(span_id, "a"),
        other => panic!("unexpected result: {:?}", other),
    }
}

#[test]
fn span_service_looks_up_the_process() {
    let trace = create_test_trace();
    let t = &trace.data[0];
    assert_eq!(get_span_service(&t.spans[1], &t.processes), Some("order-service"));
    let lost = span("x", 0, 1, vec![], "p9");
    assert_eq!(get_span_service(&lost, &t.processes), None);
}

#[test]
fn parse_traces_copies_every_trace() {
    let trace = create_test_trace();
    let traces = parse_traces(&trace).unwrap();
    assert_eq!(traces.len(), 1);
    assert_eq!(traces[0].trace_id, "test-trace-1");
    assert_eq!(traces[0].spans.len(), 3);
}
