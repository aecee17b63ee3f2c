use bottleneck_find::ranking::{generate_report, ServiceStats};
use bottleneck_find::sample::{build_sample_trace, generate_sample_data};

fn by_total(st: &ServiceStats, _traces: usize) -> u64 {
    st.total_contribution
}

#[test]
fn test_sample_data_generation() {
    let sample_data = generate_sample_data(3, 4);

    assert_eq!(sample_data.data.len(), 3);

    for trace in &sample_data.data {
        assert!(!trace.trace_id.is_empty());
        assert!(!trace.spans.is_empty());
        assert!(!trace.processes.is_empty());
    }

    let report = generate_report(&sample_data, by_total).expect("生成报告失败");
    assert_eq!(report.total_traces, 3);
    assert!(report.total_services <= 4);
}

#[test]
fn sample_traces_are_chains() {
    let sample = generate_sample_data(2, 2);
    let t = &sample.data[1];
    assert_eq!(t.trace_id, "trace-0001");
    assert!(t.spans.len() >= 3 && t.spans.len() < 10);
    assert_eq!(t.processes.len(), 2);
    assert_eq!(t.processes[0].0, "p0");
    assert_eq!(t.processes[1].1.service_name, "service-1");
    for (j, s) in t.spans.iter().enumerate() {
        assert_eq!(s.span_id, format!("span-1-{}", j));
        assert_eq!(s.start_time, 2_000_000 + 10_000 * j as u64);
        assert!(s.duration >= 100 && s.duration < 5000);
        assert_eq!(s.process_id, format!("p{}", j % 2));
        assert!(s.operation.starts_with("operation-"));
        if j == 0 {
            assert!(s.references.is_empty());
        } else {
            assert_eq!(s.references.len(), 1);
            assert_eq!(s.references[0].ref_type, "CHILD_OF");
            assert_eq!(s.references[0].span_id, format!("span-1-{}", j - 1));
        }
    }
}

#[test]
fn no_traces_need_no_services() {
    assert!(generate_sample_data(0, 0).data.is_empty());
}

#[test]
fn sample_processes_have_distinct_ids() {
    let sample = generate_sample_data(4, 2);
    for trace in &sample.data {
        let mut ids: Vec<&String> = trace.processes.iter().map(|(id, _)| id).collect();
        let n = ids.len();
        ids.sort();
        ids.dedup();
        assert_eq!(ids.len(), n);
        assert_eq!(n, 2);
    }
}

#[test]
fn sample_trace_from_draws() {
    let t = build_sample_trace(2, 2, &vec![150, 4000, 999], &vec![4, 0, 2]);
    assert_eq!(t.trace_id, "trace-0002");
    assert_eq!(t.spans.len(), 3);
    assert_eq!(t.spans[1].duration, 4000);
    assert_eq!(t.spans[0].operation, "operation-4");
    assert_eq!(t.spans[2].start_time, 3_020_000);
    assert_eq!(t.spans[2].process_id, "p0");
    assert_eq!(t.spans[2].references[0].span_id, "span-2-1");
    assert_eq!(t.processes.len(), 2);
}
