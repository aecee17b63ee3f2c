//! From the spans of a trace to the calls between its services.

use vstd::prelude::*;
use crate::models::{
    AnalysisError, JaegerTrace, Process, ServiceCall, Span, TraceData, Reference, last_span_with_id,
    lookup_process, find_process, find_span, clone_trace_data, trace_same,
};

verus! {

/// The reference type of a synchronous child span.
pub open spec fn child_of() -> Seq<char> {
    "CHILD_OF"@
}

/// The reference type of an asynchronous (producer/consumer) span.
pub open spec fn follows_from() -> Seq<char> {
    "FOLLOWS_FROM"@
}

/// `a - b`, or 0 where `b` is larger.
pub open spec fn sat_sub(a: int, b: int) -> u64 {
    if a >= b {
        (a - b) as u64
    } else {
        0
    }
}

/// Every span that some span follows from (asynchronously) ends at a time that
/// a `u64` can hold.
pub open spec fn producers_fit(spans: Seq<Span>) -> bool {
    forall|k: int, j: int|
        0 <= k < spans.len() && 0 <= j < spans[k].references@.len()
            && (#[trigger] spans[k].references@[j]).ref_type@ == follows_from()
            ==> match last_span_with_id(spans, spans[k].references@[j].span_id@) {
            None => true,
            Some(p) => spans[p].start_time + spans[p].duration <= u64::MAX,
        }
}

/// Every producer whose end a call between two services reads ends at a
/// time that a `u64` can hold: the producer of a `FOLLOWS_FROM` reference
/// whose process and the consumer's both exist and run different services.
pub open spec fn call_producers_fit(td: TraceData) -> bool {
    forall|k: int, j: int|
        0 <= k < td.spans@.len() && 0 <= j < td.spans@[k].references@.len()
            && (#[trigger] td.spans@[k].references@[j]).ref_type@ == follows_from()
            ==> match last_span_with_id(td.spans@, td.spans@[k].references@[j].span_id@) {
            None => true,
            Some(p) => match (
                lookup_process(td.processes@, td.spans@[p].process_id@),
                lookup_process(td.processes@, td.spans@[k].process_id@),
            ) {
                (Some(fp), Some(tp)) => fp.service_name@ != tp.service_name@ ==> td.spans@[p].start_time
                    + td.spans@[p].duration <= u64::MAX,
                _ => true,
            },
        }
}

/// Where every producer ends within a `u64`, so does every one that a call
/// reads.
pub proof fn lemma_call_producers_fit(td: TraceData)
    requires
        producers_fit(td.spans@),
    ensures
        call_producers_fit(td),
{
}

/// The call (if any) that one reference of `span` stands for; `to_proc` is
/// the process of `span`.
pub open spec fn ref_call(td: TraceData, span: Span, to_proc: Process, r: Reference) -> Result<
    Seq<ServiceCall>,
    AnalysisError,
> {
    let is_async = r.ref_type@ == follows_from();
    if r.ref_type@ == child_of() || is_async {
        match last_span_with_id(td.spans@, r.span_id@) {
            None => Ok(Seq::empty()),
            Some(pi) => {
                let parent = td.spans@[pi];
                match lookup_process(td.processes@, parent.process_id@) {
                    None => Err(AnalysisError::ParentProcessNotFound { span_id: parent.span_id }),
                    Some(from_proc) => if from_proc.service_name@ != to_proc.service_name@ {
                        Ok(
                            seq![
                                ServiceCall {
                                    from_service: from_proc.service_name,
                                    to_service: to_proc.service_name,
                                    duration: span.duration,
                                    trace_id: td.trace_id,
                                    span_id: span.span_id,
                                    operation: span.operation,
                                    start_time: span.start_time,
                                    is_async,
                                    queue_latency: if is_async {
                                        Some(
                                            sat_sub(
                                                span.start_time as int,
                                                parent.start_time + parent.duration,
                                            ),
                                        )
                                    } else {
                                        None
                                    },
                                },
                            ],
                        )
                    } else {
                        Ok(Seq::empty())
                    },
                }
            },
        }
    } else {
        Ok(Seq::empty())
    }
}

/// The calls of the references `refs` of `span`, in order; the first error
/// stops the walk.
pub open spec fn refs_calls(td: TraceData, span: Span, to_proc: Process, refs: Seq<Reference>) -> Result<
    Seq<ServiceCall>,
    AnalysisError,
>
    decreases refs.len(),
{
    if refs.len() == 0 {
        Ok(Seq::empty())
    } else {
        match refs_calls(td, span, to_proc, refs.drop_last()) {
            Err(e) => Err(e),
            Ok(prev) => match ref_call(td, span, to_proc, refs.last()) {
                Err(e) => Err(e),
                Ok(c) => Ok(prev + c),
            },
        }
    }
}

/// The calls into `span`: one for each of its references to a span of
/// another service.
pub open spec fn span_calls(td: TraceData, span: Span) -> Result<Seq<ServiceCall>, AnalysisError> {
    match lookup_process(td.processes@, span.process_id@) {
        None => Err(AnalysisError::ProcessNotFound { span_id: span.span_id }),
        Some(p) => refs_calls(td, span, p, span.references@),
    }
}

/// The calls into the spans of `spans`, in order.
pub open spec fn spans_calls(td: TraceData, spans: Seq<Span>) -> Result<
    Seq<ServiceCall>,
    AnalysisError,
>
    decreases spans.len(),
{
    if spans.len() == 0 {
        Ok(Seq::empty())
    } else {
        match spans_calls(td, spans.drop_last()) {
            Err(e) => Err(e),
            Ok(prev) => match span_calls(td, spans.last()) {
                Err(e) => Err(e),
                Ok(c) => Ok(prev + c),
            },
        }
    }
}

/// All service calls of a trace.
pub open spec fn trace_calls(td: TraceData) -> Result<Seq<ServiceCall>, AnalysisError> {
    spans_calls(td, td.spans@)
}

/// Once the walk over the spans has failed, a longer walk fails the same way.
proof fn lemma_spans_calls_err(td: TraceData, s: Seq<Span>, k: int, k2: int)
    requires
        0 <= k <= k2 <= s.len(),
        spans_calls(td, s.subrange(0, k)) is Err,
    ensures
        spans_calls(td, s.subrange(0, k2)) == spans_calls(td, s.subrange(0, k)),
    decreases k2 - k,
{
    if k2 > k {
        lemma_spans_calls_err(td, s, k, k2 - 1);
        assert(s.subrange(0, k2).drop_last() == s.subrange(0, k2 - 1));
    }
}

/// Once the walk over the references has failed, a longer walk fails the
/// same way.
proof fn lemma_refs_calls_err(td: TraceData, span: Span, p: Process, s: Seq<Reference>, k: int, k2: int)
    requires
        0 <= k <= k2 <= s.len(),
        refs_calls(td, span, p, s.subrange(0, k)) is Err,
    ensures
        refs_calls(td, span, p, s.subrange(0, k2)) == refs_calls(td, span, p, s.subrange(0, k)),
    decreases k2 - k,
{
    if k2 > k {
        lemma_refs_calls_err(td, span, p, s, k, k2 - 1);
        assert(s.subrange(0, k2).drop_last() == s.subrange(0, k2 - 1));
    }
}

/// Whether `s` reads `lit`.
pub fn str_eq(s: &String, lit: &str) -> (b: bool)
    ensures
        b == (s@ == lit@),
{
    let t: String = lit.to_owned();
    *s == t
}

/// The traces of a Jaeger export.
pub fn parse_traces(trace: &JaegerTrace) -> (res: Result<Vec<TraceData>, AnalysisError>)
    ensures
        res matches Ok(v) && v@.len() == trace.data@.len() && forall|i: int|
            0 <= i < v@.len() ==> trace_same(#[trigger] v@[i], trace.data@[i]),
{
    let mut out: Vec<TraceData> = Vec::new();
    for i in 0..trace.data.len()
        invariant
            out@.len() == i,
            forall|k: int| 0 <= k < i ==> trace_same(#[trigger] out@[k], trace.data@[k]),
    {
        out.push(clone_trace_data(&trace.data[i]));
    }
    Ok(out)
}

/// The name of the service whose process ran `span`.
pub fn get_span_service<'a>(span: &Span, process_map: &'a Vec<(String, Process)>) -> (res: Option<&'a str>)
    ensures
        match lookup_process(process_map@, span.process_id@) {
            None => res is None,
            Some(p) => res matches Some(s) && s@ == p.service_name@,
        },
{
    match find_process(process_map, &span.process_id) {
        Some(p) => Some(p.service_name.as_str()),
        None => None,
    }
}

/// The call that one reference of `span` stands for, if any.
fn reference_call(trace_data: &TraceData, span: &Span, to_process: &Process, reference: &Reference) -> (res:
    Result<Option<ServiceCall>, AnalysisError>)
    requires
        call_producers_fit(*trace_data),
        lookup_process(trace_data.processes@, span.process_id@) == Some(*to_process),
        exists|k: int, j: int|
            0 <= k < trace_data.spans@.len() && 0 <= j < trace_data.spans@[k].references@.len()
                && trace_data.spans@[k] == *span && span.references@[j] == *reference,
    ensures
        match ref_call(*trace_data, *span, *to_process, *reference) {
            Err(e) => res == Err::<Option<ServiceCall>, AnalysisError>(e),
            Ok(c) => res matches Ok(o) && match o {
                None => c.len() == 0,
                Some(call) => c == seq![call],
            },
        },
{
    let is_async = str_eq(&reference.ref_type, "FOLLOWS_FROM");
    if str_eq(&reference.ref_type, "CHILD_OF") || is_async {
        if let Some(parent_span) = find_span(trace_data.spans.as_slice(), &reference.span_id) {
            let from_process = match find_process(&trace_data.processes, &parent_span.process_id) {
                Some(p) => p,
                None => {
                    return Err(
                        AnalysisError::ParentProcessNotFound { span_id: parent_span.span_id.clone() },
                    );
                },
            };
            if from_process.service_name != to_process.service_name {
                let queue_latency = if is_async {
                    Some(span.start_time.saturating_sub(parent_span.start_time + parent_span.duration))
                } else {
                    None
                };
                let call = ServiceCall {
                    from_service: from_process.service_name.clone(),
                    to_service: to_process.service_name.clone(),
                    duration: span.duration,
                    trace_id: trace_data.trace_id.clone(),
                    span_id: span.span_id.clone(),
                    operation: span.operation.clone(),
                    start_time: span.start_time,
                    is_async,
                    queue_latency,
                };
                return Ok(Some(call));
            }
        }
    }
    Ok(None)
}

/// The calls between services that the spans of a trace show: for each span
/// (in order) and each of its `CHILD_OF` or `FOLLOWS_FROM` references (in
/// order) to a span of the trace run by another service, a call from that
/// service to the span's service. A `FOLLOWS_FROM` call is asynchronous and
/// carries the time between the end of the producer and the start of the
/// consumer. A span whose process is missing is an error.
pub fn build_service_calls(trace_data: &TraceData) -> (res: Result<Vec<ServiceCall>, AnalysisError>)
    requires
        call_producers_fit(*trace_data),
    ensures
        match trace_calls(*trace_data) {
            Ok(c) => res matches Ok(v) && v@ == c,
            Err(e) => res == Err::<Vec<ServiceCall>, AnalysisError>(e),
        },
{
    let ghost td = *trace_data;
    let mut service_calls: Vec<ServiceCall> = Vec::new();
    let n = trace_data.spans.len();
    for i in 0..n
        invariant
            n == trace_data.spans@.len(),
            td == *trace_data,
            call_producers_fit(*trace_data),
            spans_calls(td, td.spans@.subrange(0, i as int)) == Ok::<
                Seq<ServiceCall>,
                AnalysisError,
            >(service_calls@),
    {
        let span = &trace_data.spans[i];
        assert(td.spans@.subrange(0, i + 1).drop_last() == td.spans@.subrange(0, i as int));
        let to_process = match find_process(&trace_data.processes, &span.process_id) {
            Some(p) => p,
            None => {
                proof {
                    assert(td.spans@.subrange(0, i + 1).last() == *span);
                    assert(spans_calls(td, td.spans@.subrange(0, i + 1)) is Err);
                    lemma_spans_calls_err(td, td.spans@, i + 1, n as int);
                    assert(td.spans@.subrange(0, n as int) == td.spans@);
                }
                let e = AnalysisError::ProcessNotFound { span_id: span.span_id.clone() };
                assert(trace_calls(td) == Err::<Seq<ServiceCall>, AnalysisError>(e));
                return Err(e);
            },
        };
        let ghost before = service_calls@;
        let m = span.references.len();
        assert(service_calls@.subrange(before.len() as int, service_calls@.len() as int) =~= Seq::<ServiceCall>::empty());
        assert(service_calls@.subrange(0, before.len() as int) =~= before);
        assert(span.references@.subrange(0, 0) =~= Seq::<Reference>::empty());
        for j in 0..m
            invariant
                n == trace_data.spans@.len(),
                m == span.references@.len(),
                td == *trace_data,
                i < n,
                *span == td.spans@[i as int],
                lookup_process(td.processes@, span.process_id@) == Some(*to_process),
                call_producers_fit(*trace_data),
                refs_calls(td, *span, *to_process, span.references@.subrange(0, j as int)) == Ok::<
                    Seq<ServiceCall>,
                    AnalysisError,
                >(service_calls@.subrange(before.len() as int, service_calls@.len() as int)),
                service_calls@.subrange(0, before.len() as int) == before,
                spans_calls(td, td.spans@.subrange(0, i as int)) == Ok::<Seq<ServiceCall>, AnalysisError>(before),
                before.len() <= service_calls@.len(),
        {
            let reference = &span.references[j];
            assert(span.references@.subrange(0, j + 1).drop_last() == span.references@.subrange(
                0,
                j as int,
            ));
            assert(span.references@.subrange(0, j + 1).last() == *reference);
            let ghost cur = service_calls@;
            match reference_call(trace_data, span, to_process, reference) {
                Err(e) => {
                    proof {
                        assert(refs_calls(td, *span, *to_process, span.references@.subrange(0, j + 1)) == Err::<Seq<ServiceCall>, AnalysisError>(e));
                        lemma_refs_calls_err(td, *span, *to_process, span.references@, j + 1, m as int);
                        assert(span.references@.subrange(0, m as int) == span.references@);
                        assert(span_calls(td, *span) == Err::<Seq<ServiceCall>, AnalysisError>(e));
                        assert(td.spans@.subrange(0, i + 1).last() == *span);
                        assert(td.spans@.subrange(0, i + 1).drop_last() == td.spans@.subrange(0, i as int));
                        assert(spans_calls(td, td.spans@.subrange(0, i + 1)) == Err::<Seq<ServiceCall>, AnalysisError>(e));
                        lemma_spans_calls_err(td, td.spans@, i + 1, n as int);
                        assert(td.spans@.subrange(0, n as int) == td.spans@);
                    }
                    assert(trace_calls(td) == Err::<Seq<ServiceCall>, AnalysisError>(e));
                    return Err(e);
                },
                Ok(Some(call)) => {
                    service_calls.push(call);
                    assert(service_calls@.subrange(before.len() as int, service_calls@.len() as int)
                        =~= cur.subrange(before.len() as int, cur.len() as int) + seq![call]);
                },
                Ok(None) => {
                    assert(service_calls@.subrange(before.len() as int, service_calls@.len() as int)
                        =~= cur.subrange(before.len() as int, cur.len() as int) + Seq::<ServiceCall>::empty());
                },
            }
            assert(service_calls@.subrange(0, before.len() as int) =~= before);
        }
        assert(span.references@.subrange(0, m as int) == span.references@);
        assert(service_calls@ =~= before + service_calls@.subrange(
            before.len() as int,
            service_calls@.len() as int,
        ));
    }
    assert(td.spans@.subrange(0, n as int) == td.spans@);
    Ok(service_calls)
}

/// `c` is the call that reference `r` of `span` stands for: `r` is a
/// `CHILD_OF` or `FOLLOWS_FROM` link to a span of the trace (the last of that
/// id) run by another service than `span`, and `c` goes from that service to
/// `span`'s, with `span`'s duration, id, operation and start time; it is
/// asynchronous exactly for `FOLLOWS_FROM`, and then carries the time between
/// the producer's end and `span`'s start (0 if none).
pub open spec fn crossing_call(td: TraceData, span: Span, r: Reference, c: ServiceCall) -> bool {
    let is_async = r.ref_type@ == follows_from();
    &&& r.ref_type@ == child_of() || is_async
    &&& last_span_with_id(td.spans@, r.span_id@) matches Some(pi) && {
        let parent = td.spans@[pi];
        &&& lookup_process(td.processes@, parent.process_id@) matches Some(fp)
        &&& lookup_process(td.processes@, span.process_id@) matches Some(tp)
        &&& fp.service_name@ != tp.service_name@
        &&& c == ServiceCall {
            from_service: fp.service_name,
            to_service: tp.service_name,
            duration: span.duration,
            trace_id: td.trace_id,
            span_id: span.span_id,
            operation: span.operation,
            start_time: span.start_time,
            is_async,
            queue_latency: if is_async {
                Some(sat_sub(span.start_time as int, parent.start_time + parent.duration))
            } else {
                None
            },
        }
    }
}

/// Each call of some references of `span` is the call of one of them.
proof fn lemma_refs_calls_crossing(td: TraceData, span: Span, refs: Seq<Reference>, i: int)
    requires
        lookup_process(td.processes@, span.process_id@) is Some,
        refs_calls(td, span, lookup_process(td.processes@, span.process_id@)->0, refs) matches Ok(cs) && 0 <= i < cs.len(),
    ensures
        exists|j: int|
            0 <= j < refs.len() && crossing_call(
                td,
                span,
                #[trigger] refs[j],
                refs_calls(td, span, lookup_process(td.processes@, span.process_id@)->0, refs)->Ok_0[i],
            ),
    decreases refs.len(),
{
    let tp = lookup_process(td.processes@, span.process_id@)->0;
    let prev = refs_calls(td, span, tp, refs.drop_last())->Ok_0;
    let c = ref_call(td, span, tp, refs.last())->Ok_0;
    let cs = refs_calls(td, span, tp, refs)->Ok_0;
    assert(cs == prev + c);
    if i < prev.len() {
        assert(cs[i] == prev[i]);
        lemma_refs_calls_crossing(td, span, refs.drop_last(), i);
        let j = choose|j: int| 0 <= j < refs.drop_last().len() && crossing_call(td, span, #[trigger] refs.drop_last()[j], prev[i]);
        assert(refs.drop_last()[j] == refs[j]);
    } else {
        assert(cs[i] == c[i - prev.len()]);
        assert(refs.last() == refs[refs.len() - 1]);
        assert(crossing_call(td, span, refs[refs.len() - 1], cs[i]));
    }
}

/// Each call of some spans is the call of a reference of one of them.
proof fn lemma_spans_calls_crossing(td: TraceData, spans: Seq<Span>, i: int)
    requires
        spans_calls(td, spans) matches Ok(cs) && 0 <= i < cs.len(),
    ensures
        exists|k: int, j: int|
            0 <= k < spans.len() && 0 <= j < spans[k].references@.len() && crossing_call(
                td,
                spans[k],
                #[trigger] spans[k].references@[j],
                spans_calls(td, spans)->Ok_0[i],
            ),
    decreases spans.len(),
{
    let prev = spans_calls(td, spans.drop_last())->Ok_0;
    let c = span_calls(td, spans.last())->Ok_0;
    let cs = spans_calls(td, spans)->Ok_0;
    assert(cs == prev + c);
    if i < prev.len() {
        assert(cs[i] == prev[i]);
        lemma_spans_calls_crossing(td, spans.drop_last(), i);
        let (k, j) = choose|k: int, j: int|
            0 <= k < spans.drop_last().len() && 0 <= j < spans.drop_last()[k].references@.len() && crossing_call(
                td,
                spans.drop_last()[k],
                #[trigger] spans.drop_last()[k].references@[j],
                prev[i],
            );
        assert(spans.drop_last()[k] == spans[k]);
    } else {
        let last = spans.last();
        assert(last == spans[spans.len() - 1]);
        assert(cs[i] == c[i - prev.len()]);
        lemma_refs_calls_crossing(td, last, last.references@, i - prev.len());
    }
}

/// Every service call of a trace is the call that one reference of one of
/// its spans stands for: a `CHILD_OF` or `FOLLOWS_FROM` link to a span of
/// another service, with the fields set from the two spans (see
/// `crossing_call`).
pub proof fn law_calls_come_from_references(td: TraceData, i: int)
    requires
        trace_calls(td) matches Ok(cs) && 0 <= i < cs.len(),
    ensures
        exists|k: int, j: int|
            0 <= k < td.spans@.len() && 0 <= j < td.spans@[k].references@.len() && crossing_call(
                td,
                td.spans@[k],
                #[trigger] td.spans@[k].references@[j],
                trace_calls(td)->Ok_0[i],
            ),
{
    lemma_spans_calls_crossing(td, td.spans@, i);
}

} // verus!
