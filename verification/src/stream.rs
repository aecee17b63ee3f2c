//! Batches of traces received over time, for the live monitor.

use vstd::prelude::*;
use chrono::Utc;
use rand::Rng;
use rand::rngs::StdRng;
use vstd::string::StringExecFns;
use crate::models::{Process, Reference, Span, Tag, TraceData};
use crate::text::{hex, hex_text, pad_zeros, zero_padded};
use crate::sample::{lemma_numbered_ids_distinct, numbered};
use crate::models::JaegerTrace;
use crate::text::decimal_text;
use crate::monitor::TraceSource;

verus! {

/// `Utc::now`, as microseconds since the Unix epoch: the current time, of
/// which nothing is stated.
#[verifier::external_body]
pub(crate) fn now_micros() -> i64 {
    Utc::now().timestamp_micros()
}

/// A trace export received from a source, with the time it came
/// (microseconds since the Unix epoch).
#[derive(Debug, Clone)]
pub struct TraceStreamMessage {
    pub trace: JaegerTrace,
    pub received_at: i64,
    pub source: TraceSource,
}

/// The exports received since the batch was last cleared, with the times
/// (microseconds since the Unix epoch) of the first and the last.
pub struct TraceBatch {
    pub traces: Vec<JaegerTrace>,
    pub window_start: i64,
    pub window_end: i64,
}

impl TraceBatch {
    /// An empty batch; its window opens and closes now.
    pub fn new() -> (b: Self)
        ensures
            b.traces@.len() == 0,
    {
        TraceBatch { traces: Vec::new(), window_start: now_micros(), window_end: now_micros() }
    }

    /// Adds an export: it closes the window, and opens it if it is the
    /// first.
    pub fn add(&mut self, message: TraceStreamMessage)
        ensures
            final(self).traces@ == old(self).traces@.push(message.trace),
            final(self).window_end == message.received_at,
            final(self).window_start == if old(self).traces@.len() == 0 {
                message.received_at
            } else {
                old(self).window_start
            },
    {
        self.traces.push(message.trace);
        self.window_end = message.received_at;
        if self.traces.len() == 1 {
            self.window_start = message.received_at;
        }
    }

    /// How many exports the batch holds.
    pub fn len(&self) -> (n: usize)
        ensures
            n == self.traces@.len(),
    {
        self.traces.len()
    }

    /// Whether the batch holds no export.
    pub fn is_empty(&self) -> (b: bool)
        ensures
            b == (self.traces@.len() == 0),
    {
        self.traces.len() == 0
    }

    /// Empties the batch; its window opens and closes now.
    pub fn clear(&mut self)
        ensures
            final(self).traces@.len() == 0,
    {
        self.traces.clear();
        self.window_start = now_micros();
        self.window_end = now_micros();
    }
}

impl Default for TraceBatch {
    fn default() -> (b: Self)
        ensures
            b.traces@.len() == 0,
    {
        Self::new()
    }
}

/// Something that happens to the live monitor.
pub enum MonitorEvent {
    /// An export came in from the stream.
    Received(TraceStreamMessage),
    /// The analysis interval has gone by.
    Tick,
}

/// What the live monitor does next.
pub enum MonitorAction {
    /// Nothing more: the export joined the batch.
    Collected,
    /// Too few exports to analyse: `have` of the `need` that an analysis
    /// takes.
    Wait { have: usize, need: usize },
    /// Analyse these traces, taken out of the batch.
    Analyze(JaegerTrace),
}

/// The traces of a sequence of exports, export after export.
pub open spec fn batch_data(exports: Seq<JaegerTrace>) -> Seq<TraceData>
    decreases exports.len(),
{
    if exports.len() == 0 {
        Seq::empty()
    } else {
        batch_data(exports.drop_last()) + exports.last().data@
    }
}

/// The live monitor's decision on an event. An export joins the batch. At
/// a tick, a batch of at least `min_traces` exports is taken for analysis,
/// all their traces in the order they came, and the batch starts afresh; a
/// smaller batch is left as it is, and the monitor waits.
pub fn monitor_step(batch: &mut TraceBatch, event: MonitorEvent, min_traces: usize) -> (action: MonitorAction)
    ensures
        match event {
            MonitorEvent::Received(m) => {
                &&& action is Collected
                &&& final(batch).traces@ == old(batch).traces@.push(m.trace)
                &&& final(batch).window_end == m.received_at
                &&& final(batch).window_start == if old(batch).traces@.len() == 0 {
                    m.received_at
                } else {
                    old(batch).window_start
                }
            },
            MonitorEvent::Tick => if old(batch).traces@.len() >= min_traces {
                &&& action matches MonitorAction::Analyze(t) && t.data@ == batch_data(old(batch).traces@)
                &&& final(batch).traces@.len() == 0
            } else {
                &&& action == (MonitorAction::Wait { have: old(batch).traces@.len() as usize, need: min_traces })
                &&& *final(batch) == *old(batch)
            },
        },
{
    match event {
        MonitorEvent::Received(message) => {
            batch.add(message);
            MonitorAction::Collected
        },
        MonitorEvent::Tick => {
            let have = batch.len();
            if have < min_traces {
                return MonitorAction::Wait { have, need: min_traces };
            }
            let mut taken: Vec<JaegerTrace> = Vec::new();
            std::mem::swap(&mut taken, &mut batch.traces);
            batch.clear();
            let ghost exports = taken@;
            let mut data: Vec<TraceData> = Vec::new();
            let mut i: usize = 0;
            while taken.len() > 0
                invariant
                    i + taken@.len() == exports.len(),
                    exports.len() <= usize::MAX,
                    taken@ == exports.subrange(i as int, exports.len() as int),
                    data@ == batch_data(exports.subrange(0, i as int)),
                decreases taken@.len(),
            {
                let mut export = taken.remove(0);
                assert(exports.subrange(0, i + 1).drop_last() == exports.subrange(0, i as int));
                data.append(&mut export.data);
                i = i + 1;
            }
            assert(exports.subrange(0, exports.len() as int) == exports);
            MonitorAction::Analyze(JaegerTrace { data })
        },
    }
}


/// `rand::rngs::StdRng`, a seeded random number generator.
#[verifier::external_type_specification]
#[verifier::external_body]
pub struct ExStdRng(StdRng);

/// `Rng::gen_range` on `0..=hi`: a number at most `hi`, drawn at random
/// (the contract says only that).
#[verifier::external_body]
fn random_upto(rng: &mut StdRng, hi: u64) -> (r: u64)
    ensures
        r <= hi,
{
    rng.gen_range(0..=hi)
}

/// The base duration of a simulated call: longer in a spike.
pub open spec fn sim_base(has_spike: bool) -> u64 {
    if has_spike {
        3000000
    } else {
        500000
    }
}

/// The id of span `i` of simulated trace `trace_id`.
pub open spec fn sim_span_id(trace_id: nat, i: nat) -> Seq<char> {
    zero_padded(hex(trace_id * 1000 + i), 16)
}

/// Span `i` (past the root) of a simulated trace: a call to service
/// `services[i]`, child of the span before, that lasts twice the base (four
/// times in a spike) if the service is the bottleneck, else half the base
/// and up to a quarter more.
pub open spec fn sim_span_ok(s: Span, trace_id: nat, services: Seq<String>, bottleneck: Seq<char>, has_spike: bool, i: int) -> bool {
    let base = sim_base(has_spike);
    &&& s.trace_id@ == zero_padded(hex(trace_id), 32)
    &&& s.span_id@ == sim_span_id(trace_id, i as nat)
    &&& s.operation@ == "call_"@ + services[i]@
    &&& s.references@.len() == 1
    &&& s.references@[0].ref_type@ == "CHILD_OF"@
    &&& s.references@[0].trace_id@ == zero_padded(hex(trace_id), 32)
    &&& s.references@[0].span_id@ == sim_span_id(trace_id, (i - 1) as nat)
    &&& s.process_id@ == numbered("p"@, i as nat)
    &&& s.tags@.len() == 1
    &&& s.tags@[0].key@ == "http.method"@
    &&& s.tags@[0].tag_type@ == "string"@
    &&& s.tags@[0].value@ == "\"GET\""@
    &&& if services[i]@ == bottleneck {
        s.duration == if has_spike { base * 4 } else { base * 2 }
    } else {
        base / 2 <= s.duration <= base / 2 + base / 4
    }
}

/// A simulated trace over `services`, one process per service (the ids
/// distinct): a root span run by the first
/// service that lasts three times the base, then a chain of calls to each
/// of the other services, each starting up to 1000 after the one before
/// ends.
pub open spec fn sim_trace_ok(t: JaegerTrace, trace_id: nat, services: Seq<String>, bottleneck: Seq<char>, has_spike: bool) -> bool {
    &&& t.data@.len() == 1
    &&& {
        let d = t.data@[0];
        let spans = d.spans@;
        &&& d.trace_id@ == zero_padded(hex(trace_id), 32)
        &&& d.processes@.len() == services.len()
        &&& d.wf()
        &&& forall|k: int| 0 <= k < services.len() ==> (#[trigger] d.processes@[k]).0@ == numbered("p"@, k as nat)
            && d.processes@[k].1.service_name@ == services[k]@ && d.processes@[k].1.tags@.len() == 0
        &&& spans.len() == services.len()
        &&& spans[0].trace_id@ == zero_padded(hex(trace_id), 32)
        &&& spans[0].span_id@ == sim_span_id(trace_id, 0)
        &&& spans[0].operation@ == "handle_request"@
        &&& spans[0].references@.len() == 0
        &&& spans[0].duration == sim_base(has_spike) * 3
        &&& spans[0].process_id@ == "p0"@
        &&& spans[0].tags@.len() == 0
        &&& forall|i: int| 1 <= i < spans.len() ==> sim_span_ok(#[trigger] spans[i], trace_id, services, bottleneck, has_spike, i)
        &&& forall|i: int|
            1 <= i < spans.len() - 1 ==> spans[i].start_time + spans[i].duration <= #[trigger] spans[i + 1].start_time
                <= spans[i].start_time + spans[i].duration + 1000
    }
}

/// The simulated trace built from its draws: a call that is not to the
/// bottleneck lasts half the base and `extras[i]` more, and each call but
/// the first starts `gaps[i - 1]` after the one before ends.
pub fn build_simulated_trace(
    trace_id: u64,
    services: &[String],
    bottleneck_idx: usize,
    has_spike: bool,
    root_start: u64,
    first_start: u64,
    extras: &Vec<u64>,
    gaps: &Vec<u64>,
) -> (t: JaegerTrace)
    requires
        bottleneck_idx < services@.len(),
        trace_id * 1000 + services@.len() <= u64::MAX,
        first_start + services@.len() * 12001000 <= u64::MAX,
        extras@.len() == services@.len(),
        gaps@.len() == services@.len(),
        forall|i: int| 0 <= i < extras@.len() ==> #[trigger] extras@[i] <= sim_base(has_spike) / 4,
        forall|i: int| 0 <= i < gaps@.len() ==> #[trigger] gaps@[i] <= 1000,
    ensures
        sim_trace_ok(t, trace_id as nat, services@, services@[bottleneck_idx as int]@, has_spike),
        t.data@[0].spans@[0].start_time == root_start,
        services@.len() > 1 ==> t.data@[0].spans@[1].start_time == first_start,
        forall|i: int|
            1 <= i < services@.len() && services@[i]@ != services@[bottleneck_idx as int]@ ==> (#[trigger] t.data@[0].spans@[i]).duration
                == sim_base(has_spike) / 2 + extras@[i],
        forall|i: int|
            1 <= i < services@.len() - 1 ==> #[trigger] t.data@[0].spans@[i + 1].start_time == t.data@[0].spans@[i].start_time
                + t.data@[0].spans@[i].duration + gaps@[i],
{
    let trace_id_hex = pad_zeros(hex_text(trace_id), 32);
    let mut processes: Vec<(String, Process)> = Vec::new();
    for i in 0..services.len()
        invariant
            processes@.len() == i,
            forall|k: int| 0 <= k < i ==> (#[trigger] processes@[k]).0@ == numbered("p"@, k as nat)
                && processes@[k].1.service_name@ == services@[k]@ && processes@[k].1.tags@.len() == 0,
    {
        let mut key = String::from_str("p");
        key.append(decimal_text(i as u64).as_str());
        let ghost p0 = processes@;
        let entry = (key, Process { service_name: services[i].clone(), tags: Vec::new() });
        assert(entry.1.tags@.len() == 0);
        processes.push(entry);
        assert forall|k: int| 0 <= k <= i implies (#[trigger] processes@[k]).0@ == numbered("p"@, k as nat)
            && processes@[k].1.service_name@ == services@[k]@ && processes@[k].1.tags@.len() == 0 by {
            if k < i {
                assert(processes@[k] == p0[k]);
            }
        }
    }
    let root_span_id = pad_zeros(hex_text(trace_id * 1000), 16);
    let bottleneck_service = &services[bottleneck_idx];
    let base_duration: u64 = if has_spike { 3000000 } else { 500000 };
    let mut spans: Vec<Span> = Vec::new();
    let root_span = Span {
        trace_id: trace_id_hex.clone(),
        span_id: root_span_id.clone(),
        operation: String::from_str("handle_request"),
        start_time: root_start,
        duration: base_duration * 3,
        references: Vec::new(),
        process_id: String::from_str("p0"),
        tags: Vec::new(),
    };
    spans.push(root_span);
    let mut prev_span_id = root_span_id;
    let mut current_time = first_start;
    let mut i: usize = 1;
    while i < services.len()
        invariant
            1 <= i <= services@.len() || (services@.len() == 0 && i == 1),
            bottleneck_idx < services@.len(),
            trace_id * 1000 + services@.len() <= u64::MAX,
            first_start + services@.len() * 12001000 <= u64::MAX,
            base_duration == sim_base(has_spike),
            *bottleneck_service == services@[bottleneck_idx as int],
            trace_id_hex@ == zero_padded(hex(trace_id as nat), 32),
            spans@.len() == i,
            prev_span_id@ == sim_span_id(trace_id as nat, (i - 1) as nat),
            spans@[0].trace_id@ == zero_padded(hex(trace_id as nat), 32),
            spans@[0].span_id@ == sim_span_id(trace_id as nat, 0),
            spans@[0].operation@ == "handle_request"@,
            spans@[0].references@.len() == 0,
            spans@[0].start_time == root_start,
            spans@[0].duration == sim_base(has_spike) * 3,
            spans@[0].process_id@ == "p0"@,
            spans@[0].tags@.len() == 0,
            forall|k: int| 1 <= k < i ==> sim_span_ok(#[trigger] spans@[k], trace_id as nat, services@, services@[bottleneck_idx as int]@, has_spike, k),
            i > 1 ==> spans@[1].start_time == first_start,
            i == 1 ==> current_time == first_start,
            i > 1 ==> spans@[i - 1].start_time + spans@[i - 1].duration <= current_time <= spans@[i - 1].start_time + spans@[i - 1].duration + 1000,
            forall|k: int| 1 <= k < i - 1 ==> spans@[k].start_time + spans@[k].duration <= #[trigger] spans@[k + 1].start_time
                <= spans@[k].start_time + spans@[k].duration + 1000,
            current_time <= first_start + (i - 1) * 12001000,
            extras@.len() == services@.len(),
            gaps@.len() == services@.len(),
            forall|k: int| 0 <= k < extras@.len() ==> #[trigger] extras@[k] <= sim_base(has_spike) / 4,
            forall|k: int| 0 <= k < gaps@.len() ==> #[trigger] gaps@[k] <= 1000,
            forall|k: int|
                1 <= k < i && services@[k]@ != services@[bottleneck_idx as int]@ ==> (#[trigger] spans@[k]).duration
                    == sim_base(has_spike) / 2 + extras@[k],
            forall|k: int| 1 <= k < i - 1 ==> #[trigger] spans@[k + 1].start_time == spans@[k].start_time + spans@[k].duration + gaps@[k],
            i > 1 ==> current_time == spans@[i - 1].start_time + spans@[i - 1].duration + gaps@[i - 1],
        decreases services@.len() - i,
    {
        let span_id = pad_zeros(hex_text(trace_id * 1000 + i as u64), 16);
        let is_bottleneck = services[i] == *bottleneck_service;
        let duration = if is_bottleneck {
            if has_spike {
                base_duration * 4
            } else {
                base_duration * 2
            }
        } else {
            base_duration / 2 + extras[i]
        };
        let mut operation = String::from_str("call_");
        operation.append(services[i].as_str());
        let mut process_id = String::from_str("p");
        process_id.append(decimal_text(i as u64).as_str());
        let mut references: Vec<Reference> = Vec::new();
        references.push(Reference {
            ref_type: String::from_str("CHILD_OF"),
            trace_id: trace_id_hex.clone(),
            span_id: prev_span_id,
        });
        let mut tags: Vec<Tag> = Vec::new();
        tags.push(Tag {
            key: String::from_str("http.method"),
            tag_type: String::from_str("string"),
            value: String::from_str("\"GET\""),
        });
        let span = Span {
            trace_id: trace_id_hex.clone(),
            span_id: span_id.clone(),
            operation,
            start_time: current_time,
            duration,
            references,
            process_id,
            tags,
        };
        assert(sim_span_ok(span, trace_id as nat, services@, services@[bottleneck_idx as int]@, has_spike, i as int));
        let ghost s0 = spans@;
        spans.push(span);
        assert forall|k: int| 1 <= k <= i implies sim_span_ok(#[trigger] spans@[k], trace_id as nat, services@, services@[bottleneck_idx as int]@, has_spike, k) by {
            if k < i {
                assert(spans@[k] == s0[k]);
            }
        }
        prev_span_id = span_id;
        let gap = gaps[i];
        assert(current_time + duration + gap <= first_start + i * 12001000) by (nonlinear_arith)
            requires
                current_time <= first_start + (i - 1) * 12001000,
                duration <= 12000000,
                gap <= 1000,
        ;
        current_time = current_time + duration + gap;
        i = i + 1;
    }
    proof {
        lemma_numbered_ids_distinct(processes@);
    }
    let trace_data = TraceData { trace_id: trace_id_hex, spans, processes };
    let mut data: Vec<TraceData> = Vec::new();
    data.push(trace_data);
    JaegerTrace { data }
}

/// A simulated trace whose root starts at `root_start` and whose first call
/// starts at `first_start`; the calls' extra time and the gaps between them
/// are drawn at random.
pub fn simulated_trace_at(
    trace_id: u64,
    services: &[String],
    bottleneck_idx: usize,
    has_spike: bool,
    root_start: u64,
    first_start: u64,
    rng: &mut StdRng,
) -> (t: JaegerTrace)
    requires
        bottleneck_idx < services@.len(),
        trace_id * 1000 + services@.len() <= u64::MAX,
        first_start + services@.len() * 12001000 <= u64::MAX,
    ensures
        sim_trace_ok(t, trace_id as nat, services@, services@[bottleneck_idx as int]@, has_spike),
        t.data@[0].spans@[0].start_time == root_start,
        services@.len() > 1 ==> t.data@[0].spans@[1].start_time == first_start,
{
    let base_duration: u64 = if has_spike { 3000000 } else { 500000 };
    let mut extras: Vec<u64> = Vec::new();
    let mut gaps: Vec<u64> = Vec::new();
    for i in 0..services.len()
        invariant
            base_duration == sim_base(has_spike),
            extras@.len() == i,
            gaps@.len() == i,
            forall|k: int| 0 <= k < i ==> #[trigger] extras@[k] <= sim_base(has_spike) / 4,
            forall|k: int| 0 <= k < i ==> #[trigger] gaps@[k] <= 1000,
    {
        extras.push(random_upto(rng, base_duration / 4));
        gaps.push(random_upto(rng, 1000));
    }
    build_simulated_trace(trace_id, services, bottleneck_idx, has_spike, root_start, first_start, &extras, &gaps)
}

/// Whether the calls of a simulated trace over `n` services, the first
/// starting 1000 after `later`, end within what a `u64` holds, however long
/// each call lasts (at most 12000000) and waits (at most 1000).
pub open spec fn sim_times_fit(later: int, n: nat) -> bool {
    later + 1000 + n * 12001000 <= u64::MAX
}

/// The simulated trace for two clock readings, in microseconds since the
/// Unix epoch: `root`, taken as the root's start time (as `u64`, the way a
/// cast reads it), and `later`, a moment after, which the first call starts
/// 1000 after. None where `later` is before the epoch, or where the calls
/// after it might end past what a `u64` holds.
pub fn simulated_trace_at_clock(
    trace_id: u64,
    services: &[String],
    bottleneck_idx: usize,
    has_spike: bool,
    root: i64,
    later: i64,
    rng: &mut StdRng,
) -> (t: Option<JaegerTrace>)
    requires
        bottleneck_idx < services@.len(),
        trace_id * 1000 + services@.len() <= u64::MAX,
    ensures
        t is None <==> (later < 0 || !sim_times_fit(later as int, services@.len())),
        t matches Some(tr) ==> {
            &&& sim_trace_ok(tr, trace_id as nat, services@, services@[bottleneck_idx as int]@, has_spike)
            &&& tr.data@[0].spans@[0].start_time == root as u64
            &&& services@.len() > 1 ==> tr.data@[0].spans@[1].start_time == later + 1000
        },
{
    if later < 0 {
        return None;
    }
    let n = services.len() as u64;
    let calls_time = match n.checked_mul(12001000) {
        Some(v) => v,
        None => return None,
    };
    let first_start = match (later as u64).checked_add(1000) {
        Some(v) => v,
        None => return None,
    };
    if first_start.checked_add(calls_time).is_none() {
        return None;
    }
    Some(simulated_trace_at(trace_id, services, bottleneck_idx, has_spike, root as u64, first_start, rng))
}

/// A simulated trace: its root starts now, its first call a moment
/// later; none where the clock reads a time that the trace's times would
/// not fit after (see `simulated_trace_at_clock`, which says what comes of
/// each reading).
pub fn generate_simulated_trace(
    trace_id: u64,
    services: &[String],
    bottleneck_idx: usize,
    has_spike: bool,
    rng: &mut StdRng,
) -> (t: Option<JaegerTrace>)
    requires
        bottleneck_idx < services@.len(),
        trace_id * 1000 + services@.len() <= u64::MAX,
    ensures
        t matches Some(tr) ==> sim_trace_ok(tr, trace_id as nat, services@, services@[bottleneck_idx as int]@, has_spike),
{
    let root = now_micros();
    let later = now_micros();
    simulated_trace_at_clock(trace_id, services, bottleneck_idx, has_spike, root, later, rng)
}

/// The simulated source's next trace: the counter moves on by one, and the
/// trace it numbers has as its bottleneck the service that the counter
/// picks, moving on to the next service every 20 traces, with a spike every
/// 100th trace. None where the clock does not let the trace be timed (see
/// `generate_simulated_trace`).
pub fn next_simulated_trace(trace_counter: &mut u64, services: &[String], rng: &mut StdRng) -> (t: Option<JaegerTrace>)
    requires
        services@.len() > 0,
        (*old(trace_counter) + 1) * 1000 + services@.len() <= u64::MAX,
    ensures
        *final(trace_counter) == *old(trace_counter) + 1,
        t matches Some(tr) ==> sim_trace_ok(
            tr,
            *final(trace_counter) as nat,
            services@,
            services@[(*final(trace_counter) as int / 20) % (services@.len() as int)]@,
            *final(trace_counter) % 100 == 0,
        ),
{
    *trace_counter = *trace_counter + 1;
    let n = *trace_counter;
    let bottleneck_idx = ((n / 20) % (services.len() as u64)) as usize;
    let has_spike = n % 100 == 0;
    generate_simulated_trace(n, services, bottleneck_idx, has_spike, rng)
}

} // verus!
