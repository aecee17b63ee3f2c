//! The data that the analysis reads and produces.
//!
//! Where a measure is a fraction in the analysis (a score, an average), the
//! types here keep the integers it is made of; a caller that wants a float
//! divides them.

use vstd::prelude::*;
use crate::dependency_graph::DependencyEdge;

verus! {

/// A reference from one span to another (`CHILD_OF` or `FOLLOWS_FROM`).
#[derive(Debug, Clone)]
pub struct Reference {
    pub ref_type: String,
    pub trace_id: String,
    pub span_id: String,
}

/// A key/value annotation of a span or a process; `value` holds the value's
/// JSON text.
#[derive(Debug, Clone)]
pub struct Tag {
    pub key: String,
    pub tag_type: String,
    pub value: String,
}

/// One timed operation of a trace. Times are in microseconds.
#[derive(Debug, Clone)]
pub struct Span {
    pub trace_id: String,
    pub span_id: String,
    pub operation: String,
    pub start_time: u64,
    pub duration: u64,
    pub references: Vec<Reference>,
    pub process_id: String,
    pub tags: Vec<Tag>,
}

/// The process (service) that ran some spans.
#[derive(Debug, Clone)]
pub struct Process {
    pub service_name: String,
    pub tags: Vec<Tag>,
}

/// One trace: its spans and its processes, keyed by process id.
#[derive(Debug, Clone)]
pub struct TraceData {
    pub trace_id: String,
    pub spans: Vec<Span>,
    pub processes: Vec<(String, Process)>,
}

/// A Jaeger export: a list of traces.
#[derive(Debug, Clone)]
pub struct JaegerTrace {
    pub data: Vec<TraceData>,
}

/// A call from one service to another, seen as a span that references a span
/// of another service.
#[derive(Debug, Clone)]
pub struct ServiceCall {
    pub from_service: String,
    pub to_service: String,
    pub duration: u64,
    pub trace_id: String,
    pub span_id: String,
    pub operation: String,
    pub start_time: u64,
    pub is_async: bool,
    pub queue_latency: Option<u64>,
}

/// One span on the critical path of a trace. `cumulative_duration` is the
/// time from the start of the path's root span to the end of this span.
#[derive(Debug, Clone)]
pub struct CriticalPathNode {
    pub service_name: String,
    pub span_id: String,
    pub operation: String,
    pub duration: u64,
    pub start_time: u64,
    pub cumulative_duration: u64,
    pub is_bottleneck: bool,
    pub is_async: bool,
    pub async_propagation_delay: Option<u64>,
}

/// The bottleneck score of a service in one trace, as the fraction
/// `numerator / denominator`.
#[derive(Debug, Clone)]
pub struct ServiceScore {
    pub service_name: String,
    pub numerator: u128,
    pub denominator: u128,
}

/// The analysis of one trace.
#[derive(Debug, Clone)]
pub struct TraceAnalysis {
    pub trace_id: String,
    pub total_duration: u64,
    pub services: Vec<String>,
    pub critical_path: Vec<CriticalPathNode>,
    pub bottleneck_scores: Vec<ServiceScore>,
}

/// A service's place in the bottleneck ranking. Its average contribution is
/// `total_contribution / contribution_count`. `bottleneck_score` encodes the
/// service's score as an integer whose order is the order of the scores.
#[derive(Debug, Clone)]
pub struct ServiceBottleneckRank {
    pub service_name: String,
    pub total_contribution: u64,
    pub appearance_count: usize,
    pub contribution_count: usize,
    pub bottleneck_score: u64,
    pub critical_path_count: usize,
}

/// The analysis of a whole export.
#[derive(Debug, Clone)]
pub struct AnalysisReport {
    pub total_traces: usize,
    pub total_services: usize,
    pub service_ranks: Vec<ServiceBottleneckRank>,
    pub trace_analyses: Vec<TraceAnalysis>,
    pub dependency_graph: Vec<DependencyEdge>,
}

/// Why an analysis could not be made.
#[derive(Debug, Clone)]
pub enum AnalysisError {
    /// A span names a process that the trace does not hold.
    ProcessNotFound { span_id: String },
    /// A referenced (parent or producer) span names a process that the trace
    /// does not hold.
    ParentProcessNotFound { span_id: String },
}

/// The index of the last span whose id is `id`: a map from span ids to spans,
/// built in order, keeps the last one.
pub open spec fn last_span_with_id(spans: Seq<Span>, id: Seq<char>) -> Option<int>
    decreases spans.len(),
{
    if spans.len() == 0 {
        None
    } else if spans.last().span_id@ == id {
        Some(spans.len() - 1)
    } else {
        last_span_with_id(spans.drop_last(), id)
    }
}

/// The process with the given id, if the trace holds one (the first entry
/// with that key).
pub open spec fn lookup_process(procs: Seq<(String, Process)>, id: Seq<char>) -> Option<Process>
    decreases procs.len(),
{
    if procs.len() == 0 {
        None
    } else if procs[0].0@ == id {
        Some(procs[0].1)
    } else {
        lookup_process(procs.drop_first(), id)
    }
}

/// The process ids are distinct, as the keys of the map that an export
/// holds a trace's processes in.
pub open spec fn process_ids_distinct(procs: Seq<(String, Process)>) -> bool {
    forall|i: int, j: int| 0 <= i < j < procs.len() ==> procs[i].0@ != procs[j].0@
}

impl TraceData {
    /// The trace holds one process per id.
    pub open spec fn wf(&self) -> bool {
        process_ids_distinct(self.processes@)
    }
}

/// Where the process ids are distinct, each id finds the one process it
/// keys, as in a map.
pub proof fn lemma_lookup_keyed(procs: Seq<(String, Process)>, k: int)
    requires
        process_ids_distinct(procs),
        0 <= k < procs.len(),
    ensures
        lookup_process(procs, procs[k].0@) == Some(procs[k].1),
    decreases k,
{
    if k > 0 {
        let rest = procs.drop_first();
        assert(procs[0].0@ != procs[k].0@);
        assert(rest[k - 1] == procs[k]);
        assert forall|i: int, j: int| 0 <= i < j < rest.len() implies rest[i].0@ != rest[j].0@ by {
            assert(rest[i] == procs[i + 1] && rest[j] == procs[j + 1]);
        }
        lemma_lookup_keyed(rest, k - 1);
    }
}

/// Finds the last span whose id is `id`.
pub fn find_span<'a>(spans: &'a [Span], id: &String) -> (res: Option<&'a Span>)
    ensures
        match last_span_with_id(spans@, id@) {
            None => res is None,
            Some(i) => res == Some(&spans@[i]),
        },
{
    let mut i = spans.len();
    assert(spans@.subrange(0, spans@.len() as int) == spans@);
    while i > 0
        invariant
            i <= spans.len(),
            last_span_with_id(spans@, id@) == last_span_with_id(spans@.subrange(0, i as int), id@),
        decreases i,
    {
        assert(spans@.subrange(0, i as int).drop_last() == spans@.subrange(0, i - 1));
        if spans[i - 1].span_id == *id {
            return Some(&spans[i - 1]);
        }
        i = i - 1;
    }
    None
}

/// Finds the process with the given id.
pub fn find_process<'a>(procs: &'a Vec<(String, Process)>, id: &String) -> (res: Option<&'a Process>)
    ensures
        match lookup_process(procs@, id@) {
            None => res is None,
            Some(p) => res == Some(&p),
        },
{
    let mut i: usize = 0;
    assert(procs@.subrange(0, procs@.len() as int) == procs@);
    while i < procs.len()
        invariant
            i <= procs.len(),
            lookup_process(procs@, id@) == lookup_process(procs@.subrange(i as int, procs@.len() as int), id@),
        decreases procs.len() - i,
    {
        assert(procs@.subrange(i as int, procs@.len() as int).drop_first()
            == procs@.subrange(i + 1, procs@.len() as int));
        if procs[i].0 == *id {
            return Some(&procs[i].1);
        }
        i = i + 1;
    }
    None
}

/// A copy of a critical path node.
pub fn clone_path_node(n: &CriticalPathNode) -> (res: CriticalPathNode)
    ensures
        res == *n,
{
    CriticalPathNode {
        service_name: n.service_name.clone(),
        span_id: n.span_id.clone(),
        operation: n.operation.clone(),
        duration: n.duration,
        start_time: n.start_time,
        cumulative_duration: n.cumulative_duration,
        is_bottleneck: n.is_bottleneck,
        is_async: n.is_async,
        async_propagation_delay: n.async_propagation_delay,
    }
}

/// Two spans agree field by field (lists by their contents).
pub open spec fn span_same(a: Span, b: Span) -> bool {
    &&& a.trace_id == b.trace_id
    &&& a.span_id == b.span_id
    &&& a.operation == b.operation
    &&& a.start_time == b.start_time
    &&& a.duration == b.duration
    &&& a.references@ == b.references@
    &&& a.process_id == b.process_id
    &&& a.tags@ == b.tags@
}

/// Two processes agree field by field.
pub open spec fn process_same(a: Process, b: Process) -> bool {
    a.service_name == b.service_name && a.tags@ == b.tags@
}

/// Two traces agree field by field.
pub open spec fn trace_same(a: TraceData, b: TraceData) -> bool {
    &&& a.trace_id == b.trace_id
    &&& a.spans@.len() == b.spans@.len()
    &&& forall|i: int| 0 <= i < a.spans@.len() ==> span_same(#[trigger] a.spans@[i], b.spans@[i])
    &&& a.processes@.len() == b.processes@.len()
    &&& forall|i: int|
        0 <= i < a.processes@.len() ==> (#[trigger] a.processes@[i]).0 == b.processes@[i].0
            && process_same(a.processes@[i].1, b.processes@[i].1)
}

/// A copy of a reference.
pub fn clone_reference(r: &Reference) -> (res: Reference)
    ensures
        res == *r,
{
    Reference {
        ref_type: r.ref_type.clone(),
        trace_id: r.trace_id.clone(),
        span_id: r.span_id.clone(),
    }
}

/// A copy of a tag.
pub fn clone_tag(t: &Tag) -> (res: Tag)
    ensures
        res == *t,
{
    Tag { key: t.key.clone(), tag_type: t.tag_type.clone(), value: t.value.clone() }
}

/// A copy of a list of tags.
pub fn clone_tags(v: &Vec<Tag>) -> (res: Vec<Tag>)
    ensures
        res@ == v@,
{
    let mut out: Vec<Tag> = Vec::new();
    for i in 0..v.len()
        invariant
            out@ == v@.subrange(0, i as int),
    {
        out.push(clone_tag(&v[i]));
    }
    assert(v@.subrange(0, v@.len() as int) == v@);
    out
}

/// A copy of a span.
pub fn clone_span(s: &Span) -> (res: Span)
    ensures
        span_same(res, *s),
{
    let mut refs: Vec<Reference> = Vec::new();
    for i in 0..s.references.len()
        invariant
            refs@ == s.references@.subrange(0, i as int),
    {
        refs.push(clone_reference(&s.references[i]));
    }
    assert(s.references@.subrange(0, s.references@.len() as int) == s.references@);
    Span {
        trace_id: s.trace_id.clone(),
        span_id: s.span_id.clone(),
        operation: s.operation.clone(),
        start_time: s.start_time,
        duration: s.duration,
        references: refs,
        process_id: s.process_id.clone(),
        tags: clone_tags(&s.tags),
    }
}

/// A copy of a process.
pub fn clone_process(p: &Process) -> (res: Process)
    ensures
        process_same(res, *p),
{
    Process { service_name: p.service_name.clone(), tags: clone_tags(&p.tags) }
}

/// A copy of a trace.
pub fn clone_trace_data(t: &TraceData) -> (res: TraceData)
    ensures
        trace_same(res, *t),
{
    let mut spans: Vec<Span> = Vec::new();
    for i in 0..t.spans.len()
        invariant
            spans@.len() == i,
            forall|k: int| 0 <= k < i ==> span_same(#[trigger] spans@[k], t.spans@[k]),
    {
        spans.push(clone_span(&t.spans[i]));
    }
    let mut procs: Vec<(String, Process)> = Vec::new();
    for i in 0..t.processes.len()
        invariant
            procs@.len() == i,
            forall|k: int|
                0 <= k < i ==> (#[trigger] procs@[k]).0 == t.processes@[k].0 && process_same(
                    procs@[k].1,
                    t.processes@[k].1,
                ),
    {
        let (k, p) = &t.processes[i];
        procs.push((k.clone(), clone_process(p)));
    }
    TraceData { trace_id: t.trace_id.clone(), spans, processes: procs }
}

} // verus!
