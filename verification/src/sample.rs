//! Sample exports for trying the analysis out: chains of calls across a
//! set of services, with random span counts, durations and operations.

use vstd::prelude::*;
use vstd::string::StringExecFns;
use rand::Rng;
use rand::rngs::ThreadRng;
use crate::models::{JaegerTrace, Process, Reference, Span, TraceData, process_ids_distinct};
use crate::text::{decimal, decimal_text, lemma_decimal_injective, pad_zeros, zero_padded};

verus! {

/// `rand::rngs::ThreadRng`, the thread's random number generator.
#[verifier::external_type_specification]
#[verifier::external_body]
pub struct ExThreadRng(ThreadRng);

/// `rand::thread_rng`: the thread's generator.
#[verifier::external_body]
fn new_rng() -> ThreadRng {
    rand::thread_rng()
}

/// `Rng::gen_range` on `lo..hi`: a number at least `lo` and below `hi`,
/// drawn at random (the contract says only that).
#[verifier::external_body]
fn random_below(rng: &mut ThreadRng, lo: u64, hi: u64) -> (r: u64)
    requires
        lo < hi,
    ensures
        lo <= r < hi,
{
    rng.gen_range(lo..hi)
}

/// The text `prefix` followed by `n` in decimal.
pub open spec fn numbered(prefix: Seq<char>, n: nat) -> Seq<char> {
    prefix + decimal(n)
}

/// The id of span `j` of trace `i`.
pub open spec fn sample_span_id(i: nat, j: nat) -> Seq<char> {
    "span-"@ + decimal(i) + "-"@ + decimal(j)
}

/// The id of trace `i`.
pub open spec fn sample_trace_id(i: nat) -> Seq<char> {
    "trace-"@ + zero_padded(decimal(i), 4)
}

/// Numbers written after the same prefix differ where the numbers do.
pub proof fn lemma_numbered_injective(prefix: Seq<char>, a: nat, b: nat)
    requires
        numbered(prefix, a) == numbered(prefix, b),
    ensures
        a == b,
{
    assert(decimal(a) =~= numbered(prefix, a).subrange(prefix.len() as int, numbered(prefix, a).len() as int));
    assert(decimal(b) =~= numbered(prefix, b).subrange(prefix.len() as int, numbered(prefix, b).len() as int));
    lemma_decimal_injective(a, b);
}

/// Processes named `p` and their position hold one process per id.
pub proof fn lemma_numbered_ids_distinct(procs: Seq<(String, Process)>)
    requires
        forall|k: int| 0 <= k < procs.len() ==> (#[trigger] procs[k]).0@ == numbered("p"@, k as nat),
    ensures
        process_ids_distinct(procs),
{
    assert forall|i: int, j: int| 0 <= i < j < procs.len() implies procs[i].0@ != procs[j].0@ by {
        if procs[i].0@ == procs[j].0@ {
            lemma_numbered_injective("p"@, i as nat, j as nat);
        }
    }
}

/// Span `j` of sample trace `i` over `services` services, lasting
/// `duration` and running operation number `op`.
pub open spec fn sample_span_is(s: Span, i: nat, j: nat, services: nat, duration: u64, op: nat) -> bool {
    &&& s.trace_id@ == sample_trace_id(i)
    &&& s.span_id@ == sample_span_id(i, j)
    &&& s.operation@ == numbered("operation-"@, op)
    &&& s.start_time == 1000000 + i * 1000000 + j * 10000
    &&& s.duration == duration
    &&& s.process_id@ == numbered("p"@, j % services)
    &&& s.tags@.len() == 0
    &&& if j == 0 {
        s.references@.len() == 0
    } else {
        &&& s.references@.len() == 1
        &&& s.references@[0].ref_type@ == "CHILD_OF"@
        &&& s.references@[0].trace_id@ == sample_trace_id(i)
        &&& s.references@[0].span_id@ == sample_span_id(i, (j - 1) as nat)
    }
}

/// Span `j` of sample trace `i` over `services` services, with a duration
/// from 100 to 4999 and one of five operations.
pub open spec fn sample_span_ok(s: Span, i: nat, j: nat, services: nat) -> bool {
    exists|d: u64, k: nat| 100 <= d < 5000 && k < 5 && #[trigger] sample_span_is(s, i, j, services, d, k)
}

/// Sample trace `i` over `services` services built from the durations and
/// operation numbers of its spans: a chain, span `j` run by service
/// `j % services`, whose processes the trace lists once each in order of
/// first use.
pub open spec fn sample_trace_is(t: TraceData, i: nat, services: nat, durations: Seq<u64>, ops: Seq<u64>) -> bool {
    let n = t.spans@.len();
    let used = if n < services { n } else { services };
    &&& t.trace_id@ == sample_trace_id(i)
    &&& n == durations.len()
    &&& forall|j: int| 0 <= j < n ==> sample_span_is(#[trigger] t.spans@[j], i, j as nat, services, durations[j], ops[j] as nat)
    &&& t.processes@.len() == used
    &&& forall|k: int|
        0 <= k < used ==> (#[trigger] t.processes@[k]).0@ == numbered("p"@, k as nat) && t.processes@[k].1.service_name@
            == numbered("service-"@, k as nat) && t.processes@[k].1.tags@.len() == 0
}

/// Sample trace `i` over `services` services: a chain of 3 to 9 spans, span
/// `j` run by service `j % services`, whose processes the trace lists once
/// each in order of first use.
pub open spec fn sample_trace_ok(t: TraceData, i: nat, services: nat) -> bool {
    let n = t.spans@.len();
    let used = if n < services { n } else { services };
    &&& t.trace_id@ == sample_trace_id(i)
    &&& 3 <= n < 10
    &&& forall|j: int| 0 <= j < n ==> sample_span_ok(#[trigger] t.spans@[j], i, j as nat, services)
    &&& t.processes@.len() == used
    &&& forall|k: int|
        0 <= k < used ==> (#[trigger] t.processes@[k]).0@ == numbered("p"@, k as nat) && t.processes@[k].1.service_name@
            == numbered("service-"@, k as nat) && t.processes@[k].1.tags@.len() == 0
}

/// `prefix` followed by `n` in decimal.
fn write_numbered(prefix: &str, n: u64) -> (s: String)
    ensures
        s@ == numbered(prefix@, n as nat),
{
    let mut s = String::from_str(prefix);
    s.append(decimal_text(n).as_str());
    s
}

/// The id of span `j` of trace `i`.
fn write_span_id(i: u64, j: u64) -> (s: String)
    ensures
        s@ == sample_span_id(i as nat, j as nat),
{
    let mut s = String::from_str("span-");
    s.append(decimal_text(i).as_str());
    s.append("-");
    s.append(decimal_text(j).as_str());
    s
}

/// Sample trace `trace_idx` over `num_services` services, its spans lasting
/// `durations` and running the operations numbered `ops`, in order.
pub fn build_sample_trace(trace_idx: usize, num_services: usize, durations: &Vec<u64>, ops: &Vec<u64>) -> (t: TraceData)
    requires
        num_services > 0,
        trace_idx * 1000000 + 1090000 <= usize::MAX,
        durations@.len() == ops@.len(),
        durations@.len() < 10,
    ensures
        sample_trace_is(t, trace_idx as nat, num_services as nat, durations@, ops@),
{
    let mut trace_id = String::from_str("trace-");
    trace_id.append(pad_zeros(decimal_text(trace_idx as u64), 4).as_str());
    let num_spans = durations.len();
    let mut spans: Vec<Span> = Vec::new();
    let mut processes: Vec<(String, Process)> = Vec::new();
    for span_idx in 0..num_spans
        invariant
            num_services > 0,
            num_spans == durations@.len(),
            durations@.len() == ops@.len(),
            num_spans < 10,
            trace_idx * 1000000 + 1090000 <= usize::MAX,
            trace_id@ == sample_trace_id(trace_idx as nat),
            spans@.len() == span_idx,
            forall|j: int| 0 <= j < span_idx ==> sample_span_is(#[trigger] spans@[j], trace_idx as nat, j as nat, num_services as nat, durations@[j], ops@[j] as nat),
            processes@.len() == if span_idx < num_services { span_idx } else { num_services },
            forall|k: int|
                0 <= k < processes@.len() ==> (#[trigger] processes@[k]).0@ == numbered("p"@, k as nat)
                    && processes@[k].1.service_name@ == numbered("service-"@, k as nat) && processes@[k].1.tags@.len() == 0,
    {
        let service_idx = span_idx % num_services;
        let process_id = write_numbered("p", service_idx as u64);
        if span_idx < num_services {
            assert(service_idx == span_idx) by (nonlinear_arith)
                requires
                    service_idx == span_idx % num_services,
                    span_idx < num_services,
            ;
            let ghost p0 = processes@;
            let entry = (process_id.clone(), Process { service_name: write_numbered("service-", service_idx as u64), tags: Vec::new() });
            assert(entry.1.tags@.len() == 0);
            processes.push(entry);
            assert forall|k: int| 0 <= k < processes@.len() implies (#[trigger] processes@[k]).0@ == numbered("p"@, k as nat)
                && processes@[k].1.service_name@ == numbered("service-"@, k as nat) && processes@[k].1.tags@.len() == 0 by {
                if k < p0.len() {
                    assert(processes@[k] == p0[k]);
                } else {
                    assert(processes@[k] == entry);
                }
            }
        }
        let span_id = write_span_id(trace_idx as u64, span_idx as u64);
        let start_time = (1000000 + trace_idx * 1000000 + span_idx * 10000) as u64;
        let duration = durations[span_idx];
        let mut references: Vec<Reference> = Vec::new();
        if span_idx > 0 {
            references.push(Reference {
                ref_type: String::from_str("CHILD_OF"),
                trace_id: trace_id.clone(),
                span_id: write_span_id(trace_idx as u64, (span_idx - 1) as u64),
            });
        }
        let op = ops[span_idx];
        let span = Span {
            trace_id: trace_id.clone(),
            span_id,
            operation: write_numbered("operation-", op),
            start_time,
            duration,
            references,
            process_id,
            tags: Vec::new(),
        };
        assert(sample_span_is(span, trace_idx as nat, span_idx as nat, num_services as nat, duration, op as nat));
        spans.push(span);
    }
    TraceData { trace_id, spans, processes }
}

/// One sample trace: 3 to 9 spans, each lasting 100 to 4999 and running
/// one of five operations, all drawn at random.
fn sample_trace(rng: &mut ThreadRng, trace_idx: usize, num_services: usize) -> (t: TraceData)
    requires
        num_services > 0,
        trace_idx * 1000000 + 1090000 <= usize::MAX,
    ensures
        sample_trace_ok(t, trace_idx as nat, num_services as nat),
{
    let num_spans = random_below(rng, 3, 10) as usize;
    let mut durations: Vec<u64> = Vec::new();
    let mut ops: Vec<u64> = Vec::new();
    for j in 0..num_spans
        invariant
            durations@.len() == j,
            ops@.len() == j,
            forall|k: int| 0 <= k < j ==> 100 <= #[trigger] durations@[k] < 5000,
            forall|k: int| 0 <= k < j ==> #[trigger] ops@[k] < 5,
    {
        durations.push(random_below(rng, 100, 5000));
        ops.push(random_below(rng, 0, 5));
    }
    let t = build_sample_trace(trace_idx, num_services, &durations, &ops);
    assert forall|j: int| 0 <= j < t.spans@.len() implies sample_span_ok(#[trigger] t.spans@[j], trace_idx as nat, j as nat, num_services as nat) by {
        assert(sample_span_is(t.spans@[j], trace_idx as nat, j as nat, num_services as nat, durations@[j], ops@[j] as nat));
    }
    t
}

/// A sample export of `num_traces` traces over `num_services` services:
/// trace `i` is named `trace-` and `i` on four digits, and is a chain of 3
/// to 9 spans (a random number), each the child of the one before, span
/// `j` run by service `j % num_services`, starting at
/// `1000000 * (i + 1) + 10000 * j` and lasting between 100 and 4999 (at
/// random), with a random operation among five.
pub fn generate_sample_data(num_traces: usize, num_services: usize) -> (trace: JaegerTrace)
    requires
        num_traces > 0 ==> num_services > 0,
        num_traces * 1000000 + 1090000 <= usize::MAX,
    ensures
        trace.data@.len() == num_traces,
        forall|i: int| 0 <= i < num_traces ==> sample_trace_ok(#[trigger] trace.data@[i], i as nat, num_services as nat),
        forall|i: int| 0 <= i < num_traces ==> (#[trigger] trace.data@[i]).wf(),
{
    let mut rng = new_rng();
    let mut data: Vec<TraceData> = Vec::new();
    for trace_idx in 0..num_traces
        invariant
            num_traces > 0 ==> num_services > 0,
            num_traces * 1000000 + 1090000 <= usize::MAX,
            data@.len() == trace_idx,
            forall|i: int| 0 <= i < trace_idx ==> sample_trace_ok(#[trigger] data@[i], i as nat, num_services as nat),
            forall|i: int| 0 <= i < trace_idx ==> (#[trigger] data@[i]).wf(),
    {
        let t = sample_trace(&mut rng, trace_idx, num_services);
        proof {
            lemma_numbered_ids_distinct(t.processes@);
        }
        data.push(t);
    }
    JaegerTrace { data }
}

} // verus!
