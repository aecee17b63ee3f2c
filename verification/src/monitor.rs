//! The vocabulary of live monitoring: where traces come from, and the kinds
//! and severities of the alerts it raises.

use vstd::prelude::*;

verus! {

/// Where a batch of traces came from.
#[derive(Debug, Clone, Copy, PartialEq, Eq, Structural)]
pub enum TraceSource {
    JaegerGrpc,
    Simulated,
    File,
}

/// How urgent an alert is.
#[derive(Debug, Clone, Copy, PartialEq, Eq, Structural)]
pub enum AlertSeverity {
    Info,
    Warning,
    Critical,
}

/// What an alert reports.
#[derive(Debug, Clone, Copy, PartialEq, Eq, Structural)]
pub enum AlertType {
    NewBottleneck,
    BottleneckShift,
    BottleneckResolved,
    LatencySpike,
    ServiceDegradation,
}

/// The label of a severity.
pub open spec fn severity_label(s: AlertSeverity) -> Seq<char> {
    match s {
        AlertSeverity::Info => "INFO"@,
        AlertSeverity::Warning => "WARNING"@,
        AlertSeverity::Critical => "CRITICAL"@,
    }
}

/// The label of an alert type.
pub open spec fn alert_type_label(t: AlertType) -> Seq<char> {
    match t {
        AlertType::NewBottleneck => "NEW_BOTTLENECK"@,
        AlertType::BottleneckShift => "BOTTLENECK_SHIFT"@,
        AlertType::BottleneckResolved => "BOTTLENECK_RESOLVED"@,
        AlertType::LatencySpike => "LATENCY_SPIKE"@,
        AlertType::ServiceDegradation => "SERVICE_DEGRADATION"@,
    }
}

impl AlertSeverity {
    /// The severity's label, in capitals.
    pub fn to_string(&self) -> (res: String)
        ensures
            res@ == severity_label(*self),
    {
        match self {
            AlertSeverity::Info => "INFO".to_owned(),
            AlertSeverity::Warning => "WARNING".to_owned(),
            AlertSeverity::Critical => "CRITICAL".to_owned(),
        }
    }
}

impl AlertType {
    /// The alert type's label, in capitals with underscores.
    pub fn to_string(&self) -> (res: String)
        ensures
            res@ == alert_type_label(*self),
    {
        match self {
            AlertType::NewBottleneck => "NEW_BOTTLENECK".to_owned(),
            AlertType::BottleneckShift => "BOTTLENECK_SHIFT".to_owned(),
            AlertType::BottleneckResolved => "BOTTLENECK_RESOLVED".to_owned(),
            AlertType::LatencySpike => "LATENCY_SPIKE".to_owned(),
            AlertType::ServiceDegradation => "SERVICE_DEGRADATION".to_owned(),
        }
    }
}

} // verus!
