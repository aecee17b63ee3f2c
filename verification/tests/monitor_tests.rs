use bottleneck_find::monitor::{AlertSeverity, AlertType, TraceSource};

#[test]
fn test_trace_source_display() {
    assert_eq!(format!("{:?}", TraceSource::Simulated), "Simulated");
    assert_eq!(format!("{:?}", TraceSource::JaegerGrpc), "JaegerGrpc");
}

#[test]
fn test_alert_severity_display() {
    assert_eq!(AlertSeverity::Critical.to_string(), "CRITICAL");
    assert_eq!(AlertSeverity::Warning.to_string(), "WARNING");
    assert_eq!(AlertSeverity::Info.to_string(), "INFO");
}

#[test]
fn test_alert_type_display() {
    assert_eq!(AlertType::BottleneckShift.to_string(), "BOTTLENECK_SHIFT");
    assert_eq!(AlertType::NewBottleneck.to_string(), "NEW_BOTTLENECK");
    assert_eq!(AlertType::LatencySpike.to_string(), "LATENCY_SPIKE");
}

#[test]
fn alert_type_labels_of_the_other_kinds() {
    assert_eq!(AlertType::BottleneckResolved.to_string(), "BOTTLENECK_RESOLVED");
    assert_eq!(AlertType::ServiceDegradation.to_string(), "SERVICE_DEGRADATION");
    assert_eq!(format!("{:?}", TraceSource::File), "File");
}
