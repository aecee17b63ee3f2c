use bottleneck_find::detection::BottleneckHistory;
use bottleneck_find::models::{AnalysisReport, ServiceBottleneckRank};

fn rank(name: &str, score: u64) -> ServiceBottleneckRank {
    ServiceBottleneckRank {
        service_name: name.to_string(),
        total_contribution: 1000,
        appearance_count: 10,
        contribution_count: 10,
        bottleneck_score: score,
        critical_path_count: 10,
    }
}

fn report(ranks: Vec<ServiceBottleneckRank>) -> AnalysisReport {
    AnalysisReport { total_traces: 10, total_services: ranks.len(), service_ranks: ranks, trace_analyses: vec![], dependency_graph: vec![] }
}

#[test]
fn record_tracks_the_top_service() {
    let mut history = BottleneckHistory::new(10);
    let prev = history.record(&report(vec![rank("service-a", 8), rank("other-service", 3)]), 100);
    assert_eq!(prev, None);
    assert_eq!(history.top_bottleneck, Some("service-a".to_string()));
    let prev = history.record(&report(vec![rank("service-b", 9), rank("service-a", 2)]), 200);
    assert_eq!(prev, Some("service-a".to_string()));
    assert_eq!(history.top_bottleneck, Some("service-b".to_string()));
}

#[test]
fn scores_are_kept_newest_first_and_bounded() {
    let mut history = BottleneckHistory::new(2);
    for (i, s) in [5u64, 6, 7].iter().enumerate() {
        history.record(&report(vec![rank("a", *s)]), i as i64);
    }
    let a = history.scores_of(&"a".to_string()).unwrap();
    assert_eq!(a.current_score, 7);
    assert_eq!(a.score_history, vec![7, 6]);
    assert_eq!(a.is_bottleneck_count, 3);
    assert_eq!(a.last_seen, 2);
    assert_eq!(history.history.len(), 2);
    assert_eq!(history.history[0].timestamp, 2);
    assert_eq!(history.history[0].top_score, 7);
    assert_eq!(history.history[1].timestamp, 1);
}

#[test]
fn a_zero_score_top_is_not_counted() {
    let mut history = BottleneckHistory::new(5);
    history.record(&report(vec![rank("a", 0), rank("b", 0)]), 1);
    assert_eq!(history.scores_of(&"a".to_string()).unwrap().is_bottleneck_count, 0);
    assert!(history.scores_of(&"c".to_string()).is_none());
}

#[test]
fn an_empty_report_clears_the_top() {
    let mut history = BottleneckHistory::default();
    history.record(&report(vec![rank("a", 4)]), 1);
    let prev = history.record(&report(vec![]), 2);
    assert_eq!(prev, Some("a".to_string()));
    assert_eq!(history.top_bottleneck, None);
    assert_eq!(history.history[0].top_bottleneck, "");
    assert_eq!(history.history[0].top_score, 0);
    assert!(history.history[0].all_scores.is_empty());
}

#[test]
fn snapshot_keeps_each_service_once() {
    let mut history = BottleneckHistory::new(3);
    history.record(&report(vec![rank("a", 4), rank("b", 3), rank("a", 1)]), 9);
    assert_eq!(history.history[0].all_scores, vec![("a".to_string(), 1), ("b".to_string(), 3)]);
    assert_eq!(history.service_scores.len(), 2);
    assert_eq!(history.scores_of(&"a".to_string()).unwrap().score_history, vec![1, 4]);
}

fn create_test_report(top_service: &str, score: f64) -> AnalysisReport {
    AnalysisReport {
        total_traces: 10,
        total_services: 5,
        service_ranks: vec![
            ServiceBottleneckRank {
                service_name: top_service.to_string(),
                total_contribution: 1000,
                appearance_count: 10,
                contribution_count: 10,
                bottleneck_score: score.to_bits(),
                critical_path_count: 10,
            },
            ServiceBottleneckRank {
                service_name: "other-service".to_string(),
                total_contribution: 500,
                appearance_count: 10,
                contribution_count: 10,
                bottleneck_score: 0.3f64.to_bits(),
                critical_path_count: 5,
            },
        ],
        trace_analyses: vec![],
        dependency_graph: vec![],
    }
}

#[test]
fn test_service_score_history() {
    let mut history = BottleneckHistory::new(10);

    let report = create_test_report("service-a", 0.7);
    history.record(&report, chrono::Utc::now().timestamp_micros());

    assert!(history.scores_of(&"service-a".to_string()).is_some());
    assert_eq!(f64::from_bits(history.scores_of(&"service-a".to_string()).unwrap().current_score), 0.7);
}

#[test]
fn history_stays_bounded_with_one_entry_per_service() {
    let mut history = BottleneckHistory::new(2);
    for t in 0..5i64 {
        history.record(&report(vec![rank("a", t as u64 + 1), rank("b", 1), rank("a", 2)]), t);
    }
    assert_eq!(history.history.len(), 2);
    assert_eq!(history.service_scores.len(), 2);
    for (_, h) in &history.service_scores {
        assert!(h.score_history.len() <= 2);
    }
}

#[test]
fn unranked_services_keep_their_entries() {
    let mut history = BottleneckHistory::new(3);
    history.record(&report(vec![rank("a", 5), rank("b", 2)]), 1);
    history.record(&report(vec![rank("b", 7)]), 2);
    let a = history.scores_of(&"a".to_string()).unwrap();
    assert_eq!(a.current_score, 5);
    assert_eq!(a.score_history, vec![5]);
    assert_eq!(a.is_bottleneck_count, 1);
    assert_eq!(a.last_seen, 1);
    assert_eq!(history.service_scores[0].0, "a");
    assert_eq!(history.scores_of(&"b".to_string()).unwrap().is_bottleneck_count, 1);
}
