use bottleneck_find::analysis::{analyze_all_traces, analyze_trace};
use bottleneck_find::critical_path::{calculate_bottleneck_scores, find_critical_path};
use bottleneck_find::models::{AnalysisError, CriticalPathNode, Process, Reference, ServiceScore, Span, TraceAnalysis, TraceData};
use bottleneck_find::span_tree::build_span_tree;

fn span(id: &str, op: &str, start: u64, duration: u64, refs: Vec<(&str, &str)>, process: &str) -> Span {
    Span {
        trace_id: "t1".to_string(),
        span_id: id.to_string(),
        operation: op.to_string(),
        start_time: start,
        duration,
        references: refs
            .into_iter()
            .map(|(kind, target)| Reference {
                ref_type: kind.to_string(),
                trace_id: "t1".to_string(),
                span_id: target.to_string(),
            })
            .collect(),
        process_id: process.to_string(),
        tags: vec![],
    }
}

fn process(name: &str) -> Process {
    Process { service_name: name.to_string(), tags: vec![] }
}

fn create_test_trace_with_kafka() -> TraceData {
    let processes = vec![
        ("p1".to_string(), process("order-service")),
        ("p2".to_string(), process("kafka")),
        ("p3".to_string(), process("notification-service")),
    ];
    let spans = vec![
        span("s1", "create_order", 1000, 2000, vec![], "p1"),
        span("s2", "send_to_kafka", 1500, 1500, vec![("CHILD_OF", "s1")], "p1"),
        span("s3", "kafka_produce", 1600, 100, vec![("CHILD_OF", "s2")], "p2"),
        span("s4", "kafka_consume", 2800, 200, vec![("FOLLOWS_FROM", "s3")], "p2"),
        span("s5", "send_email", 2900, 300, vec![("CHILD_OF", "s4")], "p3"),
    ];
    TraceData { trace_id: "t1".to_string(), spans, processes }
}

fn score_of(scores: &[ServiceScore], service: &str) -> Option<f64> {
    scores
        .iter()
        .find(|s| s.service_name == service)
        .map(|s| s.numerator as f64 / s.denominator as f64)
}

#[test]
fn test_build_span_tree_with_follows_from() {
    let trace_data = create_test_trace_with_kafka();
    let (roots, async_edges) = build_span_tree(&trace_data.spans, &trace_data.processes).unwrap();

    assert_eq!(roots.len(), 1);
    assert_eq!(roots[0].children.len(), 1);
    assert_eq!(async_edges.len(), 1);
    assert_eq!(async_edges[0].queue_latency, 1100);
}

#[test]
fn test_critical_path_with_async() {
    let trace_data = create_test_trace_with_kafka();
    let (roots, async_edges) = build_span_tree(&trace_data.spans, &trace_data.processes).unwrap();
    let critical_path = find_critical_path(&roots, &async_edges, &trace_data.processes).unwrap();

    assert!(!critical_path.is_empty());

    let has_async = critical_path.iter().any(|n| n.is_async);
    assert!(has_async, "关键路径应该包含异步节点");
}

#[test]
fn test_bottleneck_scores_with_async_propagation() {
    let trace_data = create_test_trace_with_kafka();
    let analysis = analyze_trace(&trace_data).unwrap();

    let order_score = score_of(&analysis.bottleneck_scores, "order-service");
    let notification_score = score_of(&analysis.bottleneck_scores, "notification-service");

    assert!(order_score.is_some());
    assert!(order_score.unwrap() > 0.0);

    if let Some(notification_score) = notification_score {
        assert!(order_score.unwrap() >= notification_score * 0.5, "生产者应该承担部分消费者延迟");
    }
}

#[test]
fn test_queue_latency_calculation() {
    let trace_data = create_test_trace_with_kafka();
    let (_, async_edges) = build_span_tree(&trace_data.spans, &trace_data.processes).unwrap();

    assert_eq!(async_edges.len(), 1);
    assert_eq!(async_edges[0].queue_latency, 2800 - (1600 + 100));
}

#[test]
fn kafka_trace_critical_path_in_full() {
    let trace_data = create_test_trace_with_kafka();
    let analysis = analyze_trace(&trace_data).unwrap();
    let path: Vec<(&str, u64, bool, Option<u64>, u64, bool)> = analysis
        .critical_path
        .iter()
        .map(|n| (n.span_id.as_str(), n.duration, n.is_async, n.async_propagation_delay, n.cumulative_duration, n.is_bottleneck))
        .collect();
    // Nodes carry their spans' durations; the path is chosen by self time
    // (500 + 1400 + 100 + 0 + 300), and its only leaf is s5.
    assert_eq!(
        path,
        vec![
            ("s1", 2000, false, None, 2000, true),
            ("s2", 1500, false, None, 2000, true),
            ("s3", 100, false, None, 700, false),
            ("s4", 200, true, Some(1100), 2000, false),
            ("s5", 300, false, None, 2200, false),
        ]
    );
    assert_eq!(analysis.total_duration, 2000);
    assert_eq!(analysis.trace_id, "t1");
    assert_eq!(analysis.services, vec!["order-service", "kafka", "notification-service"]);
}

#[test]
fn kafka_trace_scores_exactly() {
    let trace_data = create_test_trace_with_kafka();
    let analysis = analyze_trace(&trace_data).unwrap();
    let scores: Vec<(&str, u128, u128)> =
        analysis.bottleneck_scores.iter().map(|s| (s.service_name.as_str(), s.numerator, s.denominator)).collect();
    // order-service: 2 * (2000 + 1500); kafka: 2 * (100 + 200 + 1100) plus the
    // consumer's 200 for its producer; notification-service: 2 * 300.
    assert_eq!(
        scores,
        vec![("order-service", 7000, 4000), ("kafka", 3000, 4000), ("notification-service", 600, 4000)]
    );
}

fn node(service: &str, duration: u64, is_async: bool, delay: Option<u64>) -> CriticalPathNode {
    CriticalPathNode {
        service_name: service.to_string(),
        span_id: format!("{}-span", service),
        operation: "op".to_string(),
        duration,
        start_time: 0,
        cumulative_duration: 0,
        is_bottleneck: false,
        is_async,
        async_propagation_delay: delay,
    }
}

#[test]
fn async_node_gives_half_its_duration_to_its_producer() {
    let path = vec![node("producer", 100, false, None), node("consumer", 300, true, Some(50))];
    let scores = calculate_bottleneck_scores(&path, 1000);
    let got: Vec<(&str, u128, u128)> = scores.iter().map(|s| (s.service_name.as_str(), s.numerator, s.denominator)).collect();
    // producer: 2 * 100 + 300; consumer: 2 * (300 + 50).
    assert_eq!(got, vec![("producer", 500, 2000), ("consumer", 700, 2000)]);
}

#[test]
fn no_scores_for_a_trace_of_no_duration() {
    let path = vec![node("a", 0, false, None)];
    assert!(calculate_bottleneck_scores(&path, 0).is_empty());
}

#[test]
fn repeated_services_add_up() {
    let path = vec![node("a", 10, false, None), node("b", 5, false, None), node("a", 7, false, None)];
    let scores = calculate_bottleneck_scores(&path, 20);
    let got: Vec<(&str, u128, u128)> = scores.iter().map(|s| (s.service_name.as_str(), s.numerator, s.denominator)).collect();
    assert_eq!(got, vec![("a", 34, 40), ("b", 10, 40)]);
}

#[test]
fn bottleneck_threshold_is_thirty_percent_of_the_longest_node() {
    let spans = vec![
        span("r", "root", 0, 1000, vec![], "p1"),
        span("c", "child", 0, 300, vec![("CHILD_OF", "r")], "p2"),
        span("d", "short", 0, 299, vec![("CHILD_OF", "c")], "p2"),
    ];
    let trace = TraceData {
        trace_id: "t".to_string(),
        spans,
        processes: vec![("p1".to_string(), process("a")), ("p2".to_string(), process("b"))],
    };
    let analysis = analyze_trace(&trace).unwrap();
    // The longest node lasts 1000; 300 is exactly 30% of it, 299 is under.
    let marks: Vec<(u64, bool)> = analysis.critical_path.iter().map(|n| (n.duration, n.is_bottleneck)).collect();
    assert_eq!(marks, vec![(1000, true), (300, true), (299, false)]);
}

#[test]
fn heaviest_path_wins_and_ties_keep_the_first() {
    let spans = vec![
        span("r", "root", 0, 100, vec![], "p1"),
        span("x", "left", 0, 40, vec![("CHILD_OF", "r")], "p2"),
        span("y", "right", 0, 40, vec![("CHILD_OF", "r")], "p3"),
    ];
    let trace = TraceData {
        trace_id: "t".to_string(),
        spans,
        processes: vec![
            ("p1".to_string(), process("a")),
            ("p2".to_string(), process("b")),
            ("p3".to_string(), process("c")),
        ],
    };
    let analysis = analyze_trace(&trace).unwrap();
    let ids: Vec<&str> = analysis.critical_path.iter().map(|n| n.span_id.as_str()).collect();
    assert_eq!(ids, vec!["r", "x"]);
}

#[test]
fn a_reachable_span_without_process_fails_the_analysis() {
    let spans = vec![span("r", "root", 0, 100, vec![], "p1"), span("c", "child", 0, 10, vec![("CHILD_OF", "r")], "p9")];
    let trace = TraceData { trace_id: "t".to_string(), spans, processes: vec![("p1".to_string(), process("a"))] };
    match analyze_trace(&trace) {
        Err(AnalysisError::ProcessNotFound { span_id }) => assert_eq!(span_id, "c"),
        other => panic!("unexpected result: {:?}", other.map(|a: TraceAnalysis| a.trace_id)),
    }
}

#[test]
fn analyze_all_traces_keeps_the_order() {
    let t1 = create_test_trace_with_kafka();
    let mut t2 = create_test_trace_with_kafka();
    t2.trace_id = "t2".to_string();
    let all = analyze_all_traces(&[t1, t2]).unwrap();
    assert_eq!(all.len(), 2);
    assert_eq!(all[0].trace_id, "t1");
    assert_eq!(all[1].trace_id, "t2");
}

#[test]
fn critical_path_runs_forward_in_time() {
    let trace_data = create_test_trace_with_kafka();
    let analysis = analyze_trace(&trace_data).unwrap();
    for w in analysis.critical_path.windows(2) {
        assert!(w[0].start_time <= w[1].start_time);
    }
}

#[test]
fn nodes_last_no_longer_than_the_trace() {
    let trace_data = create_test_trace_with_kafka();
    let analysis = analyze_trace(&trace_data).unwrap();
    for n in &analysis.critical_path {
        assert!(n.duration <= analysis.total_duration);
    }
}

#[test]
fn cumulative_durations_stay_within_the_total_when_spans_end_within_the_root() {
    let spans = vec![
        span("a", "root", 1000, 1000, vec![], "p1"),
        span("b", "mid", 1100, 800, vec![("CHILD_OF", "a")], "p2"),
        span("c", "leaf", 1200, 700, vec![("CHILD_OF", "b")], "p2"),
    ];
    let trace = TraceData {
        trace_id: "t".to_string(),
        spans,
        processes: vec![("p1".to_string(), process("a")), ("p2".to_string(), process("b"))],
    };
    let analysis = analyze_trace(&trace).unwrap();
    let cumulative: Vec<u64> = analysis.critical_path.iter().map(|n| n.cumulative_duration).collect();
    assert_eq!(cumulative, vec![1000, 900, 900]);
    assert!(cumulative.iter().all(|c| *c <= analysis.total_duration));
}

#[test]
fn spans_no_root_reaches_need_no_process() {
    // x and y point at each other: neither is a root, so neither is reached.
    let spans = vec![
        span("r", "root", 0, 10, vec![], "p1"),
        span("x", "lost", 0, 5, vec![("CHILD_OF", "y")], "p9"),
        span("y", "lost", 0, 5, vec![("CHILD_OF", "x")], "p9"),
    ];
    let trace = TraceData { trace_id: "t".to_string(), spans, processes: vec![("p1".to_string(), process("a"))] };
    let analysis = analyze_trace(&trace).unwrap();
    let ids: Vec<&str> = analysis.critical_path.iter().map(|n| n.span_id.as_str()).collect();
    assert_eq!(ids, vec!["r"]);
}

#[test]
fn missing_process_error_names_the_first_span_met_depth_first() {
    let processes = vec![("p1".to_string(), process("api"))];
    let spans = vec![
        span("a", "root", 1000, 500, vec![], "p1"),
        span("d", "other-root", 1000, 100, vec![], "missing-d"),
        span("b", "child", 1100, 100, vec![("CHILD_OF", "a")], "missing-b"),
    ];
    let trace = TraceData { trace_id: "t9".to_string(), spans, processes };
    match build_span_tree(&trace.spans, &trace.processes) {
        Err(AnalysisError::ProcessNotFound { span_id }) => assert_eq!(span_id, "b"),
        _ => panic!("expected a missing process"),
    }
    match analyze_trace(&trace) {
        Err(AnalysisError::ProcessNotFound { span_id }) => assert_eq!(span_id, "b"),
        _ => panic!("expected a missing process"),
    }
}

#[test]
fn a_forest_spending_no_time_has_an_empty_critical_path() {
    let processes = vec![("p1".to_string(), process("api"))];
    let spans = vec![span("a", "root", 1000, 0, vec![], "p1"), span("b", "child", 1000, 0, vec![("CHILD_OF", "a")], "p1")];
    let (roots, edges) = build_span_tree(&spans, &processes).unwrap();
    let path = find_critical_path(&roots, &edges, &processes).unwrap();
    assert!(path.is_empty());
    let none: Vec<Span> = vec![];
    let (roots, edges) = build_span_tree(&none, &processes).unwrap();
    assert!(find_critical_path(&roots, &edges, &processes).unwrap().is_empty());
}
