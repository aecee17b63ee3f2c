use bottleneck_find::output::{format_from_lowercase, parse_output_format, OutputFormat};

#[test]
fn test_output_format_from_str() {
    assert_eq!("text".parse::<OutputFormat>().unwrap(), OutputFormat::Text);
    assert_eq!("json".parse::<OutputFormat>().unwrap(), OutputFormat::Json);
    assert_eq!("dot".parse::<OutputFormat>().unwrap(), OutputFormat::Dot);
    assert_eq!("TEXT".parse::<OutputFormat>().unwrap(), OutputFormat::Text);
    assert!("invalid".parse::<OutputFormat>().is_err());
}

#[test]
fn test_output_format_parsing() {
    assert_eq!("text".parse::<OutputFormat>().unwrap(), OutputFormat::Text);
    assert_eq!("json".parse::<OutputFormat>().unwrap(), OutputFormat::Json);
    assert_eq!("dot".parse::<OutputFormat>().unwrap(), OutputFormat::Dot);
    assert_eq!("TEXT".parse::<OutputFormat>().unwrap(), OutputFormat::Text);
    assert_eq!("Json".parse::<OutputFormat>().unwrap(), OutputFormat::Json);
    assert_eq!("DOT".parse::<OutputFormat>().unwrap(), OutputFormat::Dot);

    assert!("invalid".parse::<OutputFormat>().is_err());
    assert!("xml".parse::<OutputFormat>().is_err());
    assert!("".parse::<OutputFormat>().is_err());
}

#[test]
fn invalid_format_message_names_the_input() {
    let err = parse_output_format("Xml").unwrap_err();
    assert_eq!(err, "Invalid output format: Xml. Valid formats: text, json, dot");
}

#[test]
fn mixed_case_names_are_lowered_before_matching() {
    assert_eq!(parse_output_format("dOt"), Ok(OutputFormat::Dot));
    assert_eq!(parse_output_format("JSON"), Ok(OutputFormat::Json));
}

#[test]
fn lowered_names_are_matched_exactly() {
    assert_eq!(format_from_lowercase(&"text".to_string(), "TEXT"), Ok(OutputFormat::Text));
    let err = format_from_lowercase(&"TEXT".to_string(), "TEXT").unwrap_err();
    assert_eq!(err, "Invalid output format: TEXT. Valid formats: text, json, dot");
    assert!(format_from_lowercase(&" text".to_string(), " text").is_err());
}

use bottleneck_find::dependency_graph::DependencyEdge;
use bottleneck_find::models::{AnalysisReport, CriticalPathNode, ServiceBottleneckRank, TraceAnalysis};
use bottleneck_find::output::{critical_path_rows, dot_edge_style, dot_node_styles, format_critical_paths_table};
use bottleneck_find::text_report::text_report_lines;

fn rank(name: &str, total: u64, appearances: usize, count: usize, score: f64, cp: usize) -> ServiceBottleneckRank {
    ServiceBottleneckRank {
        service_name: name.to_string(),
        total_contribution: total,
        appearance_count: appearances,
        contribution_count: count,
        bottleneck_score: score.to_bits(),
        critical_path_count: cp,
    }
}

fn path_node(service: &str, span: &str, op: &str, duration: u64, start: u64, cumulative: u64, bottleneck: bool) -> CriticalPathNode {
    CriticalPathNode {
        service_name: service.to_string(),
        span_id: span.to_string(),
        operation: op.to_string(),
        duration,
        start_time: start,
        cumulative_duration: cumulative,
        is_bottleneck: bottleneck,
        is_async: false,
        async_propagation_delay: None,
    }
}

fn create_test_report() -> AnalysisReport {
    AnalysisReport {
        total_traces: 2,
        total_services: 4,
        service_ranks: vec![rank("order-service", 1100, 2, 2, 0.85, 2), rank("db", 400, 1, 1, 0.65, 1)],
        trace_analyses: vec![TraceAnalysis {
            trace_id: "t1".to_string(),
            total_duration: 1000,
            services: vec!["api".to_string(), "order".to_string()],
            critical_path: vec![
                path_node("api", "s1", "op1", 100, 1000, 100, false),
                path_node("order-service", "s2", "op2", 900, 1100, 1000, true),
            ],
            bottleneck_scores: vec![],
        }],
        dependency_graph: vec![DependencyEdge {
            from: "api-gateway".to_string(),
            to: "order-service".to_string(),
            call_count: 10,
            total_duration: 1500,
            is_async: false,
            total_queue_latency: 0,
            queue_latency_count: 0,
        }],
    }
}

#[test]
fn test_format_critical_paths_table() {
    let report = create_test_report();
    let output = format_critical_paths_table(&report);

    assert!(output.contains("追踪ID"));
    assert!(output.contains("关键路径"));
    assert!(output.contains("order-service"));
    assert!(output.contains("t1"));
}

#[test]
fn critical_path_rows_in_full() {
    let mut report = create_test_report();
    let mut queued = path_node("mailer", "s3", "op3", 50, 0, 0, false);
    queued.is_async = true;
    queued.async_propagation_delay = Some(7);
    report.trace_analyses[0].critical_path.push(queued);
    report.trace_analyses.push(TraceAnalysis {
        trace_id: "t2".to_string(),
        total_duration: 5,
        services: vec![],
        critical_path: vec![path_node("x", "s", "o", 5, 0, 5, false)],
        bottleneck_scores: vec![],
    });
    let rows = critical_path_rows(&report);
    assert_eq!(rows.len(), 3);
    assert_eq!(rows[0], vec!["追踪ID", "总延迟(μs)", "关键路径", "瓶颈节点"]);
    assert_eq!(
        rows[1],
        vec![
            "t1".to_string(),
            "1000".to_string(),
            "api(100μs) → order-service(900μs) → mailer⇝(50μs [queue:7μs])".to_string(),
            "order-service(900μs)".to_string(),
        ]
    );
    assert_eq!(rows[2], vec!["t2", "5", "x(5μs)", "无"]);
}

#[test]
fn dot_nodes_follow_the_ranking() {
    let mut report = create_test_report();
    report.service_ranks.push(rank("a-b-c", 1, 1, 1, 0.1, 0));
    report.service_ranks.push(rank("plain", 1, 1, 1, 0.05, 0));
    let nodes = dot_node_styles(&report, true);
    let got: Vec<(&str, &str, &str, &str)> = nodes
        .iter()
        .map(|n| (n.service_name.as_str(), n.label.as_str(), n.fill_color.as_str(), n.font_color.as_str()))
        .collect();
    assert_eq!(
        got,
        vec![
            ("order-service", "order\\nservice #1", "#ff6b6b", "#ffffff"),
            ("db", "db #2", "#ffa502", "#ffffff"),
            ("a-b-c", "a\\nb\\nc #3", "#ffd93d", "#000000"),
            ("plain", "plain", "#e8e8e8", "#333333"),
        ]
    );
    let plain = dot_node_styles(&report, false);
    assert_eq!(plain[0].label, "order\\nservice");
    assert_eq!(plain[0].fill_color, "#e8e8e8");
}

#[test]
fn a_service_ranked_twice_is_drawn_once() {
    let mut report = create_test_report();
    report.service_ranks.push(rank("order-service", 1, 1, 1, 0.01, 0));
    let nodes = dot_node_styles(&report, true);
    assert_eq!(nodes.len(), 2);
    assert_eq!(nodes[0].label, "order\\nservice #1");
    assert_eq!(nodes[0].fill_color, "#ffd93d");
}

fn edge(total: u64, count: usize, is_async: bool) -> DependencyEdge {
    DependencyEdge {
        from: "a".to_string(),
        to: "b".to_string(),
        call_count: count,
        total_duration: total,
        is_async,
        total_queue_latency: 0,
        queue_latency_count: 0,
    }
}

#[test]
fn dot_edges_by_average_duration() {
    let heavy = dot_edge_style(&edge(1002, 2, false));
    assert_eq!((heavy.penwidth, heavy.color.as_str(), heavy.dashed), (3, "#ff6b6b", false));
    let at_500 = dot_edge_style(&edge(1000, 2, true));
    assert_eq!((at_500.penwidth, at_500.color.as_str(), at_500.dashed), (2, "#ffa502", true));
    let at_200 = dot_edge_style(&edge(400, 2, false));
    assert_eq!((at_200.penwidth, at_200.color.as_str()), (1, "#666666"));
}

fn text_report(report: &AnalysisReport) -> String {
    let scores: Vec<String> =
        report.service_ranks.iter().map(|r| format!("{:.4}", f64::from_bits(r.bottleneck_score))).collect();
    let avgs: Vec<String> = report
        .dependency_graph
        .iter()
        .map(|e| format!("{:.1}", e.total_duration as f64 / e.call_count as f64))
        .collect();
    let queues: Vec<String> = report.dependency_graph.iter().map(|_| String::new()).collect();
    let mut out = String::new();
    for line in text_report_lines(report, &scores, &avgs, &queues) {
        out.push_str(&line);
        out.push('\n');
    }
    out.push_str(&format!("\n{}", format_critical_paths_table(report)));
    out
}

#[test]
fn test_format_text_report() {
    let report = create_test_report();
    let output = text_report(&report);

    assert!(output.contains("分布式追踪瓶颈分析报告"));
    assert!(output.contains("order-service"));
    assert!(output.contains("瓶颈得分"));
    assert!(output.contains("总追踪数:"));
    assert!(output.contains("2"));
    assert!(output.contains("总服务数:"));
    assert!(output.contains("4"));
}

#[test]
fn text_report_lines_match_the_layout() {
    let report = create_test_report();
    let scores = vec!["0.8500".to_string(), "0.6500".to_string()];
    let lines = text_report_lines(&report, &scores, &vec!["150.0".to_string()], &vec!["9".to_string()]);
    assert_eq!(lines.len(), 10 + 2 + 5 + 1 + 1);
    assert_eq!(lines[0], format!("╔{}╗", "═".repeat(78)));
    assert_eq!(lines[1], format!("║{:^78}║", "分布式追踪瓶颈分析报告"));
    assert_eq!(lines[3], format!("║ {:<20} {:<54} ║", "总追踪数:", 2));
    assert_eq!(
        lines[10],
        format!("║ {:<3} {:<25} {:<12.4} {:<12} {:<10} {:<12} ║", "1★", "order-service", 0.85f64, 1100, 2, 2)
    );
    assert_eq!(lines[11], format!("║ {:<3} {:<25} {:<12.4} {:<12} {:<10} {:<12} ║", "2★", "db", 0.65f64, 400, 1, 1));
    assert_eq!(
        lines[17],
        format!("║ {:<22} {:<22} {:<7} {:<10.1} {:<8} {:<7} ║", "api-gateway", "order-service", "同步", 150.0f64, 10, "-")
    );
    assert_eq!(lines[18], format!("╚{}╝", "═".repeat(78)));
}
