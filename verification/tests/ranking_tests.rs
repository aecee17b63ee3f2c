use bottleneck_find::models::{AnalysisReport, CriticalPathNode, ServiceBottleneckRank, ServiceScore, TraceAnalysis};
use bottleneck_find::ranking::{aggregate_service_stats, get_top_bottlenecks, rank_services, ServiceStats};

fn calculate_bottleneck_score(stats: &ServiceStats, total_traces: usize) -> f64 {
    if stats.appearance_count == 0 {
        return 0.0;
    }
    let critical_path_ratio =
        if total_traces > 0 { stats.critical_path_count as f64 / total_traces as f64 } else { 0.0 };
    let score_sum: f64 = stats.score_shares.iter().map(|(n, d)| *n as f64 / *d as f64).sum();
    let avg_score = if stats.durations.is_empty() { 0.0 } else { score_sum / stats.durations.len() as f64 };
    let avg_duration =
        if stats.durations.is_empty() { 0.0 } else { stats.total_contribution as f64 / stats.durations.len() as f64 };
    critical_path_ratio * 0.5 + avg_score * 0.3 + (avg_duration.log10().max(0.0) * 0.0001) * 0.2
}

fn score_bits(stats: &ServiceStats, total_traces: usize) -> u64 {
    calculate_bottleneck_score(stats, total_traces).to_bits()
}

fn node(service: &str, span: &str, op: &str, duration: u64, start: u64, cumulative: u64, bottleneck: bool) -> CriticalPathNode {
    CriticalPathNode {
        service_name: service.to_string(),
        span_id: span.to_string(),
        operation: op.to_string(),
        duration,
        start_time: start,
        cumulative_duration: cumulative,
        is_bottleneck: bottleneck,
        is_async: false,
        async_propagation_delay: None,
    }
}

fn share(service: &str, numerator: u128, denominator: u128) -> ServiceScore {
    ServiceScore { service_name: service.to_string(), numerator, denominator }
}

fn create_test_trace_analyses() -> Vec<TraceAnalysis> {
    vec![
        TraceAnalysis {
            trace_id: "t1".to_string(),
            total_duration: 1000,
            services: vec!["api-gateway".to_string(), "order-service".to_string(), "db".to_string()],
            critical_path: vec![
                node("api-gateway", "s1", "op1", 100, 1000, 100, false),
                node("order-service", "s2", "op2", 500, 1100, 600, true),
                node("db", "s3", "op3", 400, 1200, 1000, true),
            ],
            bottleneck_scores: vec![share("api-gateway", 1, 10), share("order-service", 1, 2), share("db", 2, 5)],
        },
        TraceAnalysis {
            trace_id: "t2".to_string(),
            total_duration: 800,
            services: vec!["api-gateway".to_string(), "order-service".to_string(), "cache".to_string()],
            critical_path: vec![
                node("api-gateway", "s4", "op4", 100, 2000, 100, false),
                node("order-service", "s5", "op5", 600, 2100, 700, true),
                node("cache", "s6", "op6", 100, 2200, 800, false),
            ],
            bottleneck_scores: vec![share("api-gateway", 1, 8), share("order-service", 3, 4), share("cache", 1, 8)],
        },
    ]
}

fn get<'a>(stats: &'a [(String, ServiceStats)], name: &str) -> Option<&'a ServiceStats> {
    stats.iter().find(|(k, _)| k == name).map(|(_, v)| v)
}

#[test]
fn test_aggregate_service_stats() {
    let analyses = create_test_trace_analyses();
    let stats = aggregate_service_stats(&analyses);

    assert_eq!(stats.len(), 4);

    let order_stats = get(&stats, "order-service").unwrap();
    assert_eq!(order_stats.total_contribution, 1100);
    assert_eq!(order_stats.appearance_count, 2);
    assert_eq!(order_stats.critical_path_count, 2);

    let api_stats = get(&stats, "api-gateway").unwrap();
    assert_eq!(api_stats.appearance_count, 2);
    assert_eq!(api_stats.critical_path_count, 2);

    let db_stats = get(&stats, "db").unwrap();
    assert_eq!(db_stats.appearance_count, 1);
    assert_eq!(db_stats.critical_path_count, 1);
}

#[test]
fn test_rank_services() {
    let analyses = create_test_trace_analyses();
    let stats = aggregate_service_stats(&analyses);
    let ranks = rank_services(&stats, 2, score_bits);

    assert_eq!(ranks.len(), 4);
    assert_eq!(ranks[0].service_name, "order-service");
}

#[test]
fn test_get_top_bottlenecks() {
    let analyses = create_test_trace_analyses();
    let stats = aggregate_service_stats(&analyses);
    let ranks = rank_services(&stats, 2, score_bits);

    let report = AnalysisReport {
        total_traces: 2,
        total_services: 4,
        service_ranks: ranks,
        trace_analyses: analyses,
        dependency_graph: vec![],
    };

    let top = get_top_bottlenecks(&report, 2);
    assert_eq!(top.len(), 2);
    assert_eq!(top[0].service_name, "order-service");
}

#[test]
fn aggregated_stats_in_full() {
    let stats = aggregate_service_stats(&create_test_trace_analyses());
    let names: Vec<&str> = stats.iter().map(|(k, _)| k.as_str()).collect();
    assert_eq!(names, vec!["api-gateway", "order-service", "db", "cache"]);
    let order = get(&stats, "order-service").unwrap();
    assert_eq!(order.durations, vec![500, 600]);
    assert_eq!(order.score_shares, vec![(1, 2), (3, 4)]);
    let cache = get(&stats, "cache").unwrap();
    assert_eq!(cache.total_contribution, 100);
    assert_eq!(cache.appearance_count, 1);
    assert_eq!(cache.critical_path_count, 1);
    assert_eq!(cache.score_shares, vec![(1, 8)]);
}

#[test]
fn appearance_off_the_critical_path_is_counted_apart() {
    let analyses = vec![TraceAnalysis {
        trace_id: "t".to_string(),
        total_duration: 10,
        services: vec!["a".to_string(), "b".to_string()],
        critical_path: vec![node("a", "s", "op", 10, 0, 10, true)],
        bottleneck_scores: vec![share("a", 20, 20)],
    }];
    let stats = aggregate_service_stats(&analyses);
    let b = get(&stats, "b").unwrap();
    assert_eq!(b.appearance_count, 1);
    assert_eq!(b.critical_path_count, 0);
    assert_eq!(b.total_contribution, 0);
    assert!(b.durations.is_empty());
}

#[test]
fn no_analyses_no_stats() {
    assert!(aggregate_service_stats(&[]).is_empty());
}

fn stats_entry(name: &str, total: u64) -> (String, ServiceStats) {
    let mut st = ServiceStats::default();
    st.total_contribution = total;
    (name.to_string(), st)
}

#[test]
fn ranks_descend_and_ties_keep_their_order() {
    let stats = vec![stats_entry("a", 1), stats_entry("b", 3), stats_entry("c", 2), stats_entry("d", 3)];
    let ranks = rank_services(&stats, 0, |st: &ServiceStats, _n: usize| st.total_contribution);
    let order: Vec<(&str, u64)> = ranks.iter().map(|r| (r.service_name.as_str(), r.bottleneck_score)).collect();
    assert_eq!(order, vec![("b", 3), ("d", 3), ("c", 2), ("a", 1)]);
}

#[test]
fn ranks_copy_the_counters() {
    let mut st = ServiceStats::default();
    st.total_contribution = 900;
    st.appearance_count = 3;
    st.critical_path_count = 2;
    st.durations = vec![400, 500];
    let ranks = rank_services(&[("svc".to_string(), st)], 3, |_: &ServiceStats, _: usize| 7);
    let r: &ServiceBottleneckRank = &ranks[0];
    assert_eq!(r.service_name, "svc");
    assert_eq!(r.total_contribution, 900);
    assert_eq!(r.appearance_count, 3);
    assert_eq!(r.critical_path_count, 2);
    assert_eq!(r.contribution_count, 2);
    assert_eq!(r.bottleneck_score, 7);
}

#[test]
fn top_bottlenecks_stop_at_the_ranking_length() {
    let stats = vec![stats_entry("a", 1), stats_entry("b", 2)];
    let ranks = rank_services(&stats, 0, |st: &ServiceStats, _n: usize| st.total_contribution);
    let report = AnalysisReport { total_traces: 0, total_services: 2, service_ranks: ranks, trace_analyses: vec![], dependency_graph: vec![] };
    let top = get_top_bottlenecks(&report, 5);
    assert_eq!(top.len(), 2);
    assert_eq!(top[1].service_name, "a");
    assert!(get_top_bottlenecks(&report, 0).is_empty());
}

#[test]
fn each_service_is_ranked_once_and_counts_agree() {
    let analyses = create_test_trace_analyses();
    let stats = aggregate_service_stats(&analyses);
    for (_, st) in &stats {
        assert!(st.critical_path_count <= st.appearance_count);
    }
    let ranks = rank_services(&stats, 2, score_bits);
    let mut names: Vec<&str> = ranks.iter().map(|r| r.service_name.as_str()).collect();
    names.sort();
    names.dedup();
    assert_eq!(names.len(), ranks.len());
    for w in ranks.windows(2) {
        assert!(f64::from_bits(w[0].bottleneck_score) >= f64::from_bits(w[1].bottleneck_score));
    }
}
