use bottleneck_find::dependency_graph::{DependencyEdge, ServiceDependencyGraph};
use bottleneck_find::models::{Process, Reference, ServiceCall, Span, TraceData};

fn call(from: &str, to: &str, duration: u64, trace: &str, span: &str, op: &str, start: u64, is_async: bool, queue: Option<u64>) -> ServiceCall {
    ServiceCall {
        from_service: from.to_string(),
        to_service: to.to_string(),
        duration,
        trace_id: trace.to_string(),
        span_id: span.to_string(),
        operation: op.to_string(),
        start_time: start,
        is_async,
        queue_latency: queue,
    }
}

fn create_test_calls() -> Vec<ServiceCall> {
    vec![
        call("api-gateway", "order-service", 100, "t1", "s1", "op1", 1000, false, None),
        call("api-gateway", "order-service", 200, "t2", "s2", "op2", 2000, false, None),
        call("order-service", "redis-cache", 50, "t1", "s3", "op3", 1100, false, None),
    ]
}

fn create_test_async_calls() -> Vec<ServiceCall> {
    vec![
        call("order-service", "kafka", 100, "t1", "s1", "produce", 1000, false, None),
        call("kafka", "notification-service", 300, "t1", "s2", "consume", 1500, true, Some(400)),
    ]
}

fn has_node(graph: &ServiceDependencyGraph, name: &str) -> bool {
    graph.node_indices.iter().any(|(k, _)| k == name)
}

fn avg_duration(e: &DependencyEdge) -> f64 {
    e.total_duration as f64 / e.call_count as f64
}

fn avg_queue_latency(e: &DependencyEdge) -> Option<f64> {
    if e.queue_latency_count > 0 {
        Some(e.total_queue_latency as f64 / e.queue_latency_count as f64)
    } else {
        None
    }
}

#[test]
fn test_add_service_call() {
    let mut graph = ServiceDependencyGraph::new();
    let calls = create_test_calls();

    graph.add_service_calls(&calls);

    assert_eq!(graph.node_indices.len(), 3);
    assert!(has_node(&graph, "api-gateway"));
    assert!(has_node(&graph, "order-service"));
    assert!(has_node(&graph, "redis-cache"));

    let edges = graph.to_dependency_edges();
    assert_eq!(edges.len(), 2);

    let order_edge = edges.iter().find(|e| e.from == "api-gateway" && e.to == "order-service").unwrap();
    assert_eq!(order_edge.call_count, 2);
    assert_eq!(order_edge.total_duration, 300);
    assert_eq!(avg_duration(order_edge), 150.0);
    assert!(!order_edge.is_async);

    let redis_edge = edges.iter().find(|e| e.from == "order-service" && e.to == "redis-cache").unwrap();
    assert_eq!(redis_edge.call_count, 1);
    assert_eq!(redis_edge.total_duration, 50);
    assert_eq!(avg_duration(redis_edge), 50.0);
}

#[test]
fn test_async_service_call() {
    let mut graph = ServiceDependencyGraph::new();
    let calls = create_test_async_calls();

    graph.add_service_calls(&calls);

    let edges = graph.to_dependency_edges();
    assert_eq!(edges.len(), 2);

    let async_edge = edges.iter().find(|e| e.is_async).unwrap();
    assert_eq!(async_edge.from, "kafka");
    assert_eq!(async_edge.to, "notification-service");
    assert_eq!(avg_queue_latency(async_edge), Some(400.0));

    let async_edges = graph.get_async_edges();
    assert_eq!(async_edges.len(), 1);
}

#[test]
fn test_get_outgoing_edges() {
    let mut graph = ServiceDependencyGraph::new();
    let calls = create_test_calls();
    graph.add_service_calls(&calls);

    let outgoing = graph.get_outgoing_edges("api-gateway");
    assert_eq!(outgoing.len(), 1);
    assert_eq!(outgoing[0].0, "order-service");

    let outgoing_order = graph.get_outgoing_edges("order-service");
    assert_eq!(outgoing_order.len(), 1);
    assert_eq!(outgoing_order[0].0, "redis-cache");
}

#[test]
fn test_get_incoming_edges() {
    let mut graph = ServiceDependencyGraph::new();
    let calls = create_test_calls();
    graph.add_service_calls(&calls);

    let incoming = graph.get_incoming_edges("order-service");
    assert_eq!(incoming.len(), 1);
    assert_eq!(incoming[0].0, "api-gateway");

    let incoming_redis = graph.get_incoming_edges("redis-cache");
    assert_eq!(incoming_redis.len(), 1);
    assert_eq!(incoming_redis[0].0, "order-service");
}

#[test]
fn unknown_services_have_no_edges() {
    let mut graph = ServiceDependencyGraph::new();
    graph.add_service_calls(&create_test_calls());
    assert!(graph.get_outgoing_edges("nobody").is_empty());
    assert!(graph.get_incoming_edges("api-gateway").is_empty());
    assert!(graph.get_outgoing_edges("redis-cache").is_empty());
}

#[test]
fn services_are_listed_in_order_of_first_call() {
    let mut graph = ServiceDependencyGraph::new();
    graph.add_service_calls(&create_test_calls());
    assert_eq!(graph.get_all_services(), vec!["api-gateway", "order-service", "redis-cache"]);
}

#[test]
fn nodes_are_added_once() {
    let mut graph = ServiceDependencyGraph::new();
    let a = graph.get_or_add_node("a");
    let b = graph.get_or_add_node("b");
    let a2 = graph.get_or_add_node("a");
    assert_eq!(a, 0);
    assert_eq!(b, 1);
    assert_eq!(a2, 0);
    assert_eq!(graph.node_indices.len(), 2);
}

#[test]
fn an_async_call_marks_an_existing_edge_async() {
    let mut graph = ServiceDependencyGraph::new();
    graph.add_service_calls(&[
        call("a", "b", 10, "t", "s1", "op", 0, false, None),
        call("a", "b", 30, "t", "s2", "op", 5, true, Some(7)),
        call("a", "b", 20, "t", "s3", "op", 9, false, None),
    ]);
    let edges = graph.to_dependency_edges();
    assert_eq!(edges.len(), 1);
    assert_eq!(edges[0].call_count, 3);
    assert_eq!(edges[0].total_duration, 60);
    assert!(edges[0].is_async);
    assert_eq!(edges[0].total_queue_latency, 7);
    assert_eq!(edges[0].queue_latency_count, 1);
}

#[test]
fn newest_edges_come_first() {
    let mut graph = ServiceDependencyGraph::new();
    graph.add_service_calls(&[call("a", "b", 1, "t", "s1", "op", 0, false, None), call("a", "c", 1, "t", "s2", "op", 0, false, None)]);
    let out: Vec<String> = graph.get_outgoing_edges("a").into_iter().map(|(name, _)| name).collect();
    assert_eq!(out, vec!["c", "b"]);
}

fn span(id: &str, start: u64, duration: u64, parent: Option<&str>, process: &str) -> Span {
    Span {
        trace_id: "t".to_string(),
        span_id: id.to_string(),
        operation: "op".to_string(),
        start_time: start,
        duration,
        references: parent
            .map(|p| vec![Reference { ref_type: "CHILD_OF".to_string(), trace_id: "t".to_string(), span_id: p.to_string() }])
            .unwrap_or_default(),
        process_id: process.to_string(),
        tags: vec![],
    }
}

#[test]
fn graph_of_traces_sums_their_calls() {
    let trace = TraceData {
        trace_id: "t".to_string(),
        spans: vec![span("a", 0, 100, None, "p1"), span("b", 10, 40, Some("a"), "p2"), span("c", 60, 30, Some("a"), "p2")],
        processes: vec![
            ("p1".to_string(), Process { service_name: "front".to_string(), tags: vec![] }),
            ("p2".to_string(), Process { service_name: "back".to_string(), tags: vec![] }),
        ],
    };
    let graph = ServiceDependencyGraph::from_trace_data(&[trace]).unwrap();
    let edges = graph.to_dependency_edges();
    assert_eq!(edges.len(), 1);
    assert_eq!((edges[0].from.as_str(), edges[0].to.as_str()), ("front", "back"));
    assert_eq!(edges[0].call_count, 2);
    assert_eq!(edges[0].total_duration, 70);
}

#[test]
fn default_graph_is_empty() {
    let graph = ServiceDependencyGraph::default();
    assert!(graph.get_all_services().is_empty());
    assert!(graph.to_dependency_edges().is_empty());
}

#[test]
fn outgoing_and_incoming_edges_agree() {
    let mut graph = ServiceDependencyGraph::new();
    graph.add_service_calls(&create_test_calls());
    graph.add_service_calls(&create_test_async_calls());
    for from in graph.get_all_services() {
        for (to, w) in graph.get_outgoing_edges(&from) {
            let back = graph.get_incoming_edges(&to);
            assert!(back.iter().any(|(name, w2)| *name == from && w2.call_count == w.call_count && w2.total_duration == w.total_duration));
        }
    }
}

#[test]
fn each_pair_of_services_has_one_edge() {
    let mut graph = ServiceDependencyGraph::new();
    graph.add_service_calls(&create_test_calls());
    graph.add_service_calls(&create_test_calls());
    let edges = graph.to_dependency_edges();
    assert_eq!(edges.len(), 2);
    let order_edge = edges.iter().find(|e| e.from == "api-gateway").unwrap();
    assert_eq!(order_edge.call_count, 4);
    assert_eq!(order_edge.total_duration, 600);
}
