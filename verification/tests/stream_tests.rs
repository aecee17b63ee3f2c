use bottleneck_find::models::{JaegerTrace, TraceData};
use bottleneck_find::monitor::TraceSource;
use bottleneck_find::stream::{
    build_simulated_trace, generate_simulated_trace, monitor_step, next_simulated_trace, simulated_trace_at, simulated_trace_at_clock, MonitorAction, MonitorEvent, TraceBatch, TraceStreamMessage,
};
use rand::rngs::StdRng;
use rand::SeedableRng;

#[test]
fn test_trace_batch_operations() {
    let mut batch = TraceBatch::new();
    assert!(batch.is_empty());
    assert_eq!(batch.len(), 0);

    batch.add(TraceStreamMessage {
        trace: JaegerTrace { data: vec![] },
        received_at: chrono::Utc::now().timestamp_micros(),
        source: TraceSource::Simulated,
    });

    assert!(!batch.is_empty());
    assert_eq!(batch.len(), 1);

    batch.clear();
    assert!(batch.is_empty());
}

#[test]
fn batch_window_spans_first_to_last() {
    let mut batch = TraceBatch::default();
    for t in [10i64, 20, 30] {
        batch.add(TraceStreamMessage { trace: JaegerTrace { data: vec![] }, received_at: t, source: TraceSource::File });
    }
    assert_eq!(batch.window_start, 10);
    assert_eq!(batch.window_end, 30);
}

fn services(n: usize) -> Vec<String> {
    (0..n).map(|i| format!("service-{:02}", i + 1)).collect()
}

#[test]
fn simulated_trace_shape() {
    let mut rng = StdRng::seed_from_u64(7);
    let names = services(4);
    let trace = simulated_trace_at(42, &names, 2, false, 1_000, 2_000, &mut rng);
    assert_eq!(trace.data.len(), 1);
    let t = &trace.data[0];
    assert_eq!(t.trace_id, format!("{:032x}", 42));
    assert_eq!(t.processes.len(), 4);
    assert_eq!(t.processes[3].0, "p3");
    assert_eq!(t.processes[3].1.service_name, "service-04");
    assert_eq!(t.spans.len(), 4);
    let root = &t.spans[0];
    assert_eq!(root.span_id, format!("{:016x}", 42_000));
    assert_eq!(root.operation, "handle_request");
    assert_eq!(root.start_time, 1_000);
    assert_eq!(root.duration, 1_500_000);
    assert_eq!(t.spans[1].start_time, 2_000);
    assert_eq!(t.spans[2].duration, 1_000_000);
    assert_eq!(t.spans[2].operation, "call_service-03");
    assert_eq!(t.spans[2].references[0].span_id, format!("{:016x}", 42_001));
    assert_eq!(t.spans[2].tags[0].value, "\"GET\"");
    for s in [&t.spans[1], &t.spans[3]] {
        assert!(s.duration >= 250_000 && s.duration <= 375_000);
    }
    for i in 1..3 {
        let end = t.spans[i].start_time + t.spans[i].duration;
        assert!(t.spans[i + 1].start_time >= end && t.spans[i + 1].start_time <= end + 1000);
    }
}

#[test]
fn spike_makes_the_bottleneck_longer() {
    let mut rng = StdRng::seed_from_u64(1);
    let names = services(3);
    let trace = simulated_trace_at(1, &names, 1, true, 0, 0, &mut rng);
    assert_eq!(trace.data[0].spans[0].duration, 9_000_000);
    assert_eq!(trace.data[0].spans[1].duration, 12_000_000);
}

#[test]
fn simulated_trace_now() {
    let mut rng = StdRng::seed_from_u64(3);
    let names = services(2);
    let trace = generate_simulated_trace(5, &names, 0, false, &mut rng).unwrap();
    assert_eq!(trace.data[0].spans.len(), 2);
    assert!(trace.data[0].spans[1].start_time >= trace.data[0].spans[0].start_time);
}

fn export(ids: &[&str]) -> JaegerTrace {
    JaegerTrace {
        data: ids.iter().map(|id| TraceData { trace_id: id.to_string(), spans: vec![], processes: vec![] }).collect(),
    }
}

#[test]
fn monitor_waits_for_enough_exports() {
    let mut batch = TraceBatch::new();
    let step = monitor_step(
        &mut batch,
        MonitorEvent::Received(TraceStreamMessage { trace: export(&["a"]), received_at: 5, source: TraceSource::Simulated }),
        2,
    );
    assert!(matches!(step, MonitorAction::Collected));
    assert_eq!(batch.len(), 1);
    match monitor_step(&mut batch, MonitorEvent::Tick, 2) {
        MonitorAction::Wait { have, need } => assert_eq!((have, need), (1, 2)),
        _ => panic!("expected to wait"),
    }
    assert_eq!(batch.len(), 1);
    assert_eq!(batch.window_start, 5);
}

#[test]
fn monitor_analyses_a_full_batch_in_order() {
    let mut batch = TraceBatch::new();
    for (ids, t) in [(&["a", "b"][..], 1i64), (&["c"][..], 2)] {
        monitor_step(
            &mut batch,
            MonitorEvent::Received(TraceStreamMessage { trace: export(ids), received_at: t, source: TraceSource::File }),
            2,
        );
    }
    match monitor_step(&mut batch, MonitorEvent::Tick, 2) {
        MonitorAction::Analyze(trace) => {
            let ids: Vec<&str> = trace.data.iter().map(|d| d.trace_id.as_str()).collect();
            assert_eq!(ids, vec!["a", "b", "c"]);
        }
        _ => panic!("expected an analysis"),
    }
    assert!(batch.is_empty());
}

#[test]
fn simulated_source_moves_the_bottleneck_and_spikes() {
    let mut rng = StdRng::seed_from_u64(11);
    let names = services(3);
    let mut counter = 19u64;
    let trace = next_simulated_trace(&mut counter, &names, &mut rng).unwrap();
    assert_eq!(counter, 20);
    assert_eq!(trace.data[0].trace_id, format!("{:032x}", 20));
    assert_eq!(trace.data[0].spans[1].duration, 1_000_000);
    assert_eq!(trace.data[0].spans[0].duration, 1_500_000);

    let mut counter = 99u64;
    let trace = next_simulated_trace(&mut counter, &names, &mut rng).unwrap();
    assert_eq!(counter, 100);
    assert_eq!(trace.data[0].spans[0].duration, 9_000_000);
    assert_eq!(trace.data[0].spans[2].duration, 12_000_000);
    assert!(trace.data[0].spans[1].duration <= 2_250_000);
}

#[test]
fn simulated_trace_from_clock_readings() {
    let mut rng = StdRng::seed_from_u64(5);
    let names = services(3);
    assert!(simulated_trace_at_clock(1, &names, 0, false, 10, -1, &mut rng).is_none());
    let late = simulated_trace_at_clock(1, &names, 0, false, 10, i64::MAX, &mut rng).unwrap();
    assert_eq!(late.data[0].spans[1].start_time, i64::MAX as u64 + 1000);
    let trace = simulated_trace_at_clock(1, &names, 0, false, -5, 2_000, &mut rng).unwrap();
    assert_eq!(trace.data[0].spans[0].start_time, u64::MAX - 4);
    assert_eq!(trace.data[0].spans[1].start_time, 3_000);
}

#[test]
fn simulated_trace_from_draws() {
    let names = services(3);
    let trace = build_simulated_trace(2, &names, 2, false, 100, 5_000, &vec![0, 30, 0], &vec![0, 7, 0]);
    let spans = &trace.data[0].spans;
    assert_eq!(spans[1].duration, 250_030);
    assert_eq!(spans[2].duration, 1_000_000);
    assert_eq!(spans[1].start_time, 5_000);
    assert_eq!(spans[2].start_time, 5_000 + 250_030 + 7);
}
