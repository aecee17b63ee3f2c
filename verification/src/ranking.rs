//! Ranking the services of many traces by how much they slow them down.

use vstd::prelude::*;
use crate::models::{
    AnalysisError, AnalysisReport, CriticalPathNode, JaegerTrace, Process, ServiceBottleneckRank, ServiceScore, TraceAnalysis,
    TraceData,
};
use crate::analysis::{
    analysable, analysis_of, analyze_all_traces, lemma_producers_fit, max_span_duration, max_span_start, path_bounded, process_services,
    processes_complete, roots_first, trace_fails, trace_fits,
};
use crate::span_tree::distinct_ids;
use crate::dependency_graph::{
    add_calls_model, calls_fit, dependency_edge_view, edge_list, empty_model, traces_calls, DependencyEdge, ServiceDependencyGraph,
};

verus! {

/// What the analyses say of one service. Its score sum is the sum of the
/// fractions `score_shares` (numerator, denominator); its average
/// contribution is `total_contribution / durations.len()`.
#[derive(Debug, Clone)]
pub struct ServiceStats {
    pub total_contribution: u64,
    pub appearance_count: usize,
    pub critical_path_count: usize,
    pub score_shares: Vec<(u128, u128)>,
    pub durations: Vec<u64>,
}

impl Default for ServiceStats {
    fn default() -> (st: Self)
        ensures
            st.total_contribution == 0,
            st.appearance_count == 0,
            st.critical_path_count == 0,
            st.score_shares@.len() == 0,
            st.durations@.len() == 0,
    {
        ServiceStats {
            total_contribution: 0,
            appearance_count: 0,
            critical_path_count: 0,
            score_shares: Vec::new(),
            durations: Vec::new(),
        }
    }
}

/// One fact the aggregation reads: (tag, service, value, value). A fact
/// tagged 0 is a critical path node and its duration; tagged 1, an
/// appearance of the service in a trace, with 1 if it is also on that
/// trace's critical path; tagged 2, a score share (numerator, denominator).
pub type StatEvent = (int, Seq<char>, int, int);

/// Service `s` has a node on `path`.
pub open spec fn on_path(path: Seq<CriticalPathNode>, s: Seq<char>) -> bool {
    exists|i: int| 0 <= i < path.len() && (#[trigger] path[i]).service_name@ == s
}

/// The facts of one analysis, in the order they are read: the critical path
/// nodes, then the services, then the scores.
pub open spec fn analysis_events(a: TraceAnalysis) -> Seq<StatEvent> {
    a.critical_path@.map_values(|n: CriticalPathNode| (0int, n.service_name@, n.duration as int, 0int))
        + a.services@.map_values(|s: String| (1int, s@, if on_path(a.critical_path@, s@) { 1int } else { 0int }, 0int))
        + a.bottleneck_scores@.map_values(|sc: ServiceScore| (2int, sc.service_name@, sc.numerator as int, sc.denominator as int))
}

/// The facts of the analyses, in order.
pub open spec fn all_events(analyses: Seq<TraceAnalysis>) -> Seq<StatEvent>
    decreases analyses.len(),
{
    if analyses.len() == 0 {
        Seq::empty()
    } else {
        all_events(analyses.drop_last()) + analysis_events(analyses.last())
    }
}

/// The services of the facts, each once, in order of first appearance.
pub open spec fn event_keys(evs: Seq<StatEvent>) -> Seq<Seq<char>>
    decreases evs.len(),
{
    if evs.len() == 0 {
        Seq::empty()
    } else if event_keys(evs.drop_last()).contains(evs.last().1) {
        event_keys(evs.drop_last())
    } else {
        event_keys(evs.drop_last()).push(evs.last().1)
    }
}

/// The sum of the node durations of service `s`.
pub open spec fn stat_total(evs: Seq<StatEvent>, s: Seq<char>) -> int
    decreases evs.len(),
{
    if evs.len() == 0 {
        0
    } else {
        stat_total(evs.drop_last(), s) + if evs.last().0 == 0 && evs.last().1 == s { evs.last().2 } else { 0 }
    }
}

/// The node durations of service `s`, in order.
pub open spec fn stat_durations(evs: Seq<StatEvent>, s: Seq<char>) -> Seq<u64>
    decreases evs.len(),
{
    if evs.len() == 0 {
        Seq::empty()
    } else if evs.last().0 == 0 && evs.last().1 == s {
        stat_durations(evs.drop_last(), s).push(evs.last().2 as u64)
    } else {
        stat_durations(evs.drop_last(), s)
    }
}

/// How many times service `s` appears in the traces.
pub open spec fn stat_appear(evs: Seq<StatEvent>, s: Seq<char>) -> int
    decreases evs.len(),
{
    if evs.len() == 0 {
        0
    } else {
        stat_appear(evs.drop_last(), s) + if evs.last().0 == 1 && evs.last().1 == s { 1int } else { 0 }
    }
}

/// How many of those appearances are also on the trace's critical path.
pub open spec fn stat_cp(evs: Seq<StatEvent>, s: Seq<char>) -> int
    decreases evs.len(),
{
    if evs.len() == 0 {
        0
    } else {
        stat_cp(evs.drop_last(), s) + if evs.last().0 == 1 && evs.last().1 == s { evs.last().2 } else { 0 }
    }
}

/// The score shares of service `s`, in order.
pub open spec fn stat_scores(evs: Seq<StatEvent>, s: Seq<char>) -> Seq<(u128, u128)>
    decreases evs.len(),
{
    if evs.len() == 0 {
        Seq::empty()
    } else if evs.last().0 == 2 && evs.last().1 == s {
        stat_scores(evs.drop_last(), s).push((evs.last().2 as u128, evs.last().3 as u128))
    } else {
        stat_scores(evs.drop_last(), s)
    }
}

/// `st` holds what the facts `evs` say of service `s`.
pub open spec fn stats_of(st: ServiceStats, evs: Seq<StatEvent>, s: Seq<char>) -> bool {
    &&& st.total_contribution == stat_total(evs, s)
    &&& st.appearance_count == stat_appear(evs, s)
    &&& st.critical_path_count == stat_cp(evs, s)
    &&& st.durations@ == stat_durations(evs, s)
    &&& st.score_shares@ == stat_scores(evs, s)
}

/// The list holds, in order of first appearance, each service of the facts
/// once, with what the facts say of it.
pub open spec fn stats_match(stats: Seq<(String, ServiceStats)>, evs: Seq<StatEvent>) -> bool {
    &&& stats.len() == event_keys(evs).len()
    &&& event_keys(evs).no_duplicates()
    &&& forall|k: int| 0 <= k < stats.len() ==> (#[trigger] stats[k]).0@ == event_keys(evs)[k] && stats_of(stats[k].1, evs, stats[k].0@)
    &&& forall|s: Seq<char>| !event_keys(evs).contains(s) ==> #[trigger] stats_empty(evs, s)
}

/// The facts say nothing of service `s`.
pub open spec fn stats_empty(evs: Seq<StatEvent>, s: Seq<char>) -> bool {
    &&& stat_total(evs, s) == 0
    &&& stat_appear(evs, s) == 0
    &&& stat_cp(evs, s) == 0
    &&& stat_durations(evs, s).len() == 0
    &&& stat_scores(evs, s).len() == 0
}

/// Durations are not negative, and an appearance is on the critical path
/// once or not at all.
pub open spec fn events_ok(evs: Seq<StatEvent>) -> bool {
    forall|i: int|
        0 <= i < evs.len() ==> ((#[trigger] evs[i]).0 == 0 ==> evs[i].2 >= 0) && (evs[i].0 == 1 ==> 0 <= evs[i].2 <= 1)
}

/// Each service of the facts `evs` and of one more fact `ev` has a slot, in
/// order of first appearance, that holds what `evs` say of it.
pub open spec fn slots_ready(stats: Seq<(String, ServiceStats)>, evs: Seq<StatEvent>, ev: StatEvent) -> bool {
    let keys = event_keys(evs.push(ev));
    &&& stats.len() == keys.len()
    &&& keys.no_duplicates()
    &&& forall|k: int| 0 <= k < stats.len() ==> (#[trigger] stats[k]).0@ == keys[k] && stats_of(stats[k].1, evs, stats[k].0@)
    &&& forall|s: Seq<char>| !event_keys(evs).contains(s) ==> #[trigger] stats_empty(evs, s)
}

/// The sums of the analyses fit their counters.
pub open spec fn stats_fit(analyses: Seq<TraceAnalysis>) -> bool {
    &&& forall|s: Seq<char>| #[trigger] stat_total(all_events(analyses), s) <= u64::MAX
    &&& forall|s: Seq<char>| #[trigger] stat_appear(all_events(analyses), s) <= usize::MAX
}


/// One more fact changes what is known of its own service only.
proof fn lemma_step(evs: Seq<StatEvent>, ev: StatEvent, s: Seq<char>)
    ensures
        ev.1 != s ==> {
            &&& stat_total(evs.push(ev), s) == stat_total(evs, s)
            &&& stat_appear(evs.push(ev), s) == stat_appear(evs, s)
            &&& stat_cp(evs.push(ev), s) == stat_cp(evs, s)
            &&& stat_durations(evs.push(ev), s) == stat_durations(evs, s)
            &&& stat_scores(evs.push(ev), s) == stat_scores(evs, s)
        },
        ev.1 == s ==> {
            &&& stat_total(evs.push(ev), s) == stat_total(evs, s) + if ev.0 == 0 { ev.2 } else { 0 }
            &&& stat_appear(evs.push(ev), s) == stat_appear(evs, s) + if ev.0 == 1 { 1int } else { 0 }
            &&& stat_cp(evs.push(ev), s) == stat_cp(evs, s) + if ev.0 == 1 { ev.2 } else { 0 }
            &&& stat_durations(evs.push(ev), s) == if ev.0 == 0 {
                stat_durations(evs, s).push(ev.2 as u64)
            } else {
                stat_durations(evs, s)
            }
            &&& stat_scores(evs.push(ev), s) == if ev.0 == 2 {
                stat_scores(evs, s).push((ev.2 as u128, ev.3 as u128))
            } else {
                stat_scores(evs, s)
            }
        },
        event_keys(evs.push(ev)) == if event_keys(evs).contains(ev.1) {
            event_keys(evs)
        } else {
            event_keys(evs).push(ev.1)
        },
{
    assert(evs.push(ev).drop_last() =~= evs);
    assert(evs.push(ev).last() == ev);
}

/// The counts of two runs of facts add up.
proof fn lemma_counts_concat(a: Seq<StatEvent>, b: Seq<StatEvent>, s: Seq<char>)
    ensures
        stat_total(a + b, s) == stat_total(a, s) + stat_total(b, s),
        stat_appear(a + b, s) == stat_appear(a, s) + stat_appear(b, s),
        stat_cp(a + b, s) == stat_cp(a, s) + stat_cp(b, s),
    decreases b.len(),
{
    if b.len() == 0 {
        assert(a + b =~= a);
    } else {
        lemma_counts_concat(a, b.drop_last(), s);
        assert((a + b).drop_last() =~= a + b.drop_last());
        assert((a + b).last() == b.last());
    }
}

/// Counts of well-formed facts are not negative, and the critical path
/// count is at most the appearance count.
proof fn lemma_counts_nonneg(evs: Seq<StatEvent>, s: Seq<char>)
    requires
        events_ok(evs),
    ensures
        stat_total(evs, s) >= 0,
        0 <= stat_cp(evs, s) <= stat_appear(evs, s),
    decreases evs.len(),
{
    if evs.len() > 0 {
        assert(events_ok(evs.drop_last())) by {
            assert forall|i: int| 0 <= i < evs.drop_last().len() implies ((#[trigger] evs.drop_last()[i]).0 == 0 ==> evs.drop_last()[i].2 >= 0) && (evs.drop_last()[i].0 == 1 ==> 0 <= evs.drop_last()[i].2 <= 1) by {
                assert(evs.drop_last()[i] == evs[i]);
            }
        }
        lemma_counts_nonneg(evs.drop_last(), s);
        assert(evs.last() == evs[evs.len() - 1]);
    }
}

/// What a prefix of the facts counts is at most what all of them count.
proof fn lemma_prefix_bounds(all: Seq<StatEvent>, k: int, s: Seq<char>)
    requires
        events_ok(all),
        0 <= k <= all.len(),
    ensures
        stat_total(all.subrange(0, k), s) <= stat_total(all, s),
        stat_appear(all.subrange(0, k), s) <= stat_appear(all, s),
        stat_cp(all.subrange(0, k), s) <= stat_appear(all.subrange(0, k), s),
{
    let a = all.subrange(0, k);
    let b = all.subrange(k, all.len() as int);
    assert(a + b =~= all);
    lemma_counts_concat(a, b, s);
    assert(events_ok(a)) by {
        assert forall|i: int| 0 <= i < a.len() implies ((#[trigger] a[i]).0 == 0 ==> a[i].2 >= 0) && (a[i].0 == 1 ==> 0 <= a[i].2 <= 1) by {
            assert(a[i] == all[i]);
        }
    }
    assert(events_ok(b)) by {
        assert forall|i: int| 0 <= i < b.len() implies ((#[trigger] b[i]).0 == 0 ==> b[i].2 >= 0) && (b[i].0 == 1 ==> 0 <= b[i].2 <= 1) by {
            assert(b[i] == all[k + i]);
        }
    }
    lemma_counts_nonneg(a, s);
    lemma_counts_nonneg(b, s);
}

/// The facts of one analysis are well formed.
proof fn lemma_analysis_events_ok(a: TraceAnalysis)
    ensures
        events_ok(analysis_events(a)),
{
    let p = a.critical_path@.map_values(|n: CriticalPathNode| (0int, n.service_name@, n.duration as int, 0int));
    let q = a.services@.map_values(|s: String| (1int, s@, if on_path(a.critical_path@, s@) { 1int } else { 0int }, 0int));
    let r = a.bottleneck_scores@.map_values(|sc: ServiceScore| (2int, sc.service_name@, sc.numerator as int, sc.denominator as int));
    let e = analysis_events(a);
    assert(e == p + q + r);
    assert forall|i: int| 0 <= i < e.len() implies ((#[trigger] e[i]).0 == 0 ==> e[i].2 >= 0) && (e[i].0 == 1 ==> 0 <= e[i].2 <= 1) by {
        if i < p.len() {
            assert(e[i] == p[i]);
        } else if i < p.len() + q.len() {
            assert(e[i] == q[i - p.len()]);
        } else {
            assert(e[i] == r[i - p.len() - q.len()]);
        }
    }
}

/// The facts of many analyses are well formed.
proof fn lemma_all_events_ok(analyses: Seq<TraceAnalysis>)
    ensures
        events_ok(all_events(analyses)),
    decreases analyses.len(),
{
    if analyses.len() > 0 {
        lemma_all_events_ok(analyses.drop_last());
        lemma_analysis_events_ok(analyses.last());
        let a = all_events(analyses.drop_last());
        let b = analysis_events(analyses.last());
        assert forall|i: int| 0 <= i < (a + b).len() implies ((#[trigger] (a + b)[i]).0 == 0 ==> (a + b)[i].2 >= 0) && ((a + b)[i].0 == 1 ==> 0 <= (a + b)[i].2 <= 1) by {
            if i < a.len() {
                assert((a + b)[i] == a[i]);
            } else {
                assert((a + b)[i] == b[i - a.len()]);
            }
        }
    }
}

/// The facts of two runs of analyses follow each other.
proof fn lemma_all_events_concat(a: Seq<TraceAnalysis>, b: Seq<TraceAnalysis>)
    ensures
        all_events(a + b) == all_events(a) + all_events(b),
    decreases b.len(),
{
    if b.len() == 0 {
        assert(a + b =~= a);
        assert(all_events(a) + all_events(b) =~= all_events(a));
    } else {
        lemma_all_events_concat(a, b.drop_last());
        assert((a + b).drop_last() =~= a + b.drop_last());
        assert((a + b).last() == b.last());
        assert(all_events(a) + all_events(b) =~= all_events(a) + all_events(b.drop_last()) + analysis_events(b.last()));
    }
}

/// Filling the slot of the new fact's service, and leaving the others
/// alone, gives the list of all the facts.
proof fn lemma_match_step(
    before: Seq<(String, ServiceStats)>,
    after: Seq<(String, ServiceStats)>,
    evs: Seq<StatEvent>,
    ev: StatEvent,
    i: int,
)
    requires
        slots_ready(before, evs, ev),
        0 <= i < before.len(),
        before[i].0@ == ev.1,
        after.len() == before.len(),
        forall|k: int| 0 <= k < after.len() && k != i ==> after[k] == before[k],
        after[i].0 == before[i].0,
        stats_of(after[i].1, evs.push(ev), ev.1),
    ensures
        stats_match(after, evs.push(ev)),
{
    let evs2 = evs.push(ev);
    let keys = event_keys(evs2);
    lemma_step(evs, ev, ev.1);
    assert forall|k: int| 0 <= k < after.len() implies (#[trigger] after[k]).0@ == keys[k] && stats_of(after[k].1, evs2, after[k].0@) by {
        if k != i {
            assert(after[k] == before[k]);
            assert(keys[k] != keys[i]);
            lemma_step(evs, ev, after[k].0@);
        }
    }
    assert forall|s: Seq<char>| !keys.contains(s) implies #[trigger] stats_empty(evs2, s) by {
        if s == ev.1 {
            if event_keys(evs).contains(ev.1) {
                assert(keys.contains(ev.1));
            } else {
                assert(keys[keys.len() - 1] == ev.1);
            }
        }
        assert(!event_keys(evs).contains(s)) by {
            if event_keys(evs).contains(s) {
                let j = choose|j: int| 0 <= j < event_keys(evs).len() && event_keys(evs)[j] == s;
                if !event_keys(evs).contains(ev.1) {
                    assert(keys[j] == s);
                }
            }
        }
        assert(stats_empty(evs, s));
        lemma_step(evs, ev, s);
    }
}

/// Finds the slot of `name`, adding an empty one at the end where there is
/// none.
fn slot_for(stats: &mut Vec<(String, ServiceStats)>, name: &String, Ghost(evs): Ghost<Seq<StatEvent>>, Ghost(ev): Ghost<StatEvent>) -> (i: usize)
    requires
        stats_match(old(stats)@, evs),
        ev.1 == name@,
    ensures
        slots_ready(final(stats)@, evs, ev),
        i < final(stats)@.len(),
        final(stats)@[i as int].0@ == name@,
{
    proof {
        lemma_step(evs, ev, ev.1);
    }
    let mut j: usize = 0;
    while j < stats.len()
        invariant
            stats_match(stats@, evs),
            ev.1 == name@,
            event_keys(evs.push(ev)) == if event_keys(evs).contains(ev.1) {
                event_keys(evs)
            } else {
                event_keys(evs).push(ev.1)
            },
            j <= stats@.len(),
            forall|k: int| 0 <= k < j ==> stats@[k].0@ != name@,
        decreases stats@.len() - j,
    {
        if stats[j].0 == *name {
            assert(event_keys(evs).contains(ev.1)) by {
                assert(event_keys(evs)[j as int] == ev.1);
            }
            return j;
        }
        j = j + 1;
    }
    assert(!event_keys(evs).contains(ev.1)) by {
        if event_keys(evs).contains(ev.1) {
            let k = choose|k: int| 0 <= k < event_keys(evs).len() && event_keys(evs)[k] == ev.1;
            assert(stats@[k].0@ == ev.1);
        }
    }
    let ghost before = stats@;
    stats.push((name.clone(), ServiceStats::default()));
    proof {
        let keys = event_keys(evs.push(ev));
        assert(keys.no_duplicates()) by {
            assert forall|a: int, b: int| 0 <= a < b < keys.len() implies keys[a] != keys[b] by {
                if b == keys.len() - 1 {
                    assert(event_keys(evs)[a] == keys[a]);
                }
            }
        }
        assert(stats_empty(evs, ev.1));
        assert(stats@[j as int].1.durations@ =~= stat_durations(evs, ev.1));
        assert(stats@[j as int].1.score_shares@ =~= stat_scores(evs, ev.1));
        assert forall|k: int| 0 <= k < stats@.len() implies (#[trigger] stats@[k]).0@ == keys[k] && stats_of(stats@[k].1, evs, stats@[k].0@) by {
            if k < before.len() {
                assert(stats@[k] == before[k]);
            }
        }
    }
    j
}

/// Service `name` has a node on the path.
fn path_has_service(path: &[CriticalPathNode], name: &String) -> (b: bool)
    ensures
        b == on_path(path@, name@),
{
    for i in 0..path.len()
        invariant
            forall|k: int| 0 <= k < i ==> path@[k].service_name@ != name@,
    {
        if path[i].service_name == *name {
            assert(path@[i as int].service_name@ == name@);
            return true;
        }
    }
    false
}

/// Records the fact at `pos` of `all`: a critical path node of service
/// `name` that lasted `dur`.
fn record_node(stats: &mut Vec<(String, ServiceStats)>, name: &String, dur: u64, Ghost(all): Ghost<Seq<StatEvent>>, Ghost(pos): Ghost<int>)
    requires
        0 <= pos < all.len(),
        all[pos] == (0int, name@, dur as int, 0int),
        events_ok(all),
        forall|s: Seq<char>| #[trigger] stat_total(all, s) <= u64::MAX,
        stats_match(old(stats)@, all.subrange(0, pos)),
    ensures
        stats_match(final(stats)@, all.subrange(0, pos + 1)),
{
    let ghost evs = all.subrange(0, pos);
    let ghost ev = all[pos];
    proof {
        assert(all.subrange(0, pos + 1) =~= evs.push(ev));
        lemma_prefix_bounds(all, pos + 1, name@);
        lemma_step(evs, ev, name@);
    }
    let i = slot_for(stats, name, Ghost(evs), Ghost(ev));
    let ghost before = stats@;
    let (key, mut st) = stats.remove(i);
    st.total_contribution = st.total_contribution + dur;
    st.durations.push(dur);
    stats.insert(i, (key, st));
    proof {
        lemma_match_step(before, stats@, evs, ev, i as int);
    }
}

/// Records the fact at `pos` of `all`: service `name` appears in a trace,
/// on its critical path or not.
fn record_appearance(
    stats: &mut Vec<(String, ServiceStats)>,
    name: &String,
    on_critical_path: bool,
    Ghost(all): Ghost<Seq<StatEvent>>,
    Ghost(pos): Ghost<int>,
)
    requires
        0 <= pos < all.len(),
        all[pos] == (1int, name@, if on_critical_path { 1int } else { 0int }, 0int),
        events_ok(all),
        forall|s: Seq<char>| #[trigger] stat_appear(all, s) <= usize::MAX,
        stats_match(old(stats)@, all.subrange(0, pos)),
    ensures
        stats_match(final(stats)@, all.subrange(0, pos + 1)),
{
    let ghost evs = all.subrange(0, pos);
    let ghost ev = all[pos];
    proof {
        assert(all.subrange(0, pos + 1) =~= evs.push(ev));
        lemma_prefix_bounds(all, pos + 1, name@);
        lemma_step(evs, ev, name@);
    }
    let i = slot_for(stats, name, Ghost(evs), Ghost(ev));
    let ghost before = stats@;
    let (key, mut st) = stats.remove(i);
    st.appearance_count = st.appearance_count + 1;
    if on_critical_path {
        st.critical_path_count = st.critical_path_count + 1;
    }
    stats.insert(i, (key, st));
    proof {
        lemma_match_step(before, stats@, evs, ev, i as int);
    }
}

/// Records the fact at `pos` of `all`: a score share of service `name`.
fn record_score(
    stats: &mut Vec<(String, ServiceStats)>,
    name: &String,
    numerator: u128,
    denominator: u128,
    Ghost(all): Ghost<Seq<StatEvent>>,
    Ghost(pos): Ghost<int>,
)
    requires
        0 <= pos < all.len(),
        all[pos] == (2int, name@, numerator as int, denominator as int),
        stats_match(old(stats)@, all.subrange(0, pos)),
    ensures
        stats_match(final(stats)@, all.subrange(0, pos + 1)),
{
    let ghost evs = all.subrange(0, pos);
    let ghost ev = all[pos];
    proof {
        assert(all.subrange(0, pos + 1) =~= evs.push(ev));
        lemma_step(evs, ev, name@);
    }
    let i = slot_for(stats, name, Ghost(evs), Ghost(ev));
    let ghost before = stats@;
    let (key, mut st) = stats.remove(i);
    st.score_shares.push((numerator, denominator));
    stats.insert(i, (key, st));
    proof {
        lemma_match_step(before, stats@, evs, ev, i as int);
    }
}


/// Records the facts of analysis `a`, which stand in `all` from `base` on.
fn record_analysis(
    stats: &mut Vec<(String, ServiceStats)>,
    a: &TraceAnalysis,
    Ghost(all): Ghost<Seq<StatEvent>>,
    Ghost(base): Ghost<int>,
)
    requires
        0 <= base,
        base + analysis_events(*a).len() <= all.len(),
        forall|j: int| 0 <= j < analysis_events(*a).len() ==> all[base + j] == #[trigger] analysis_events(*a)[j],
        events_ok(all),
        forall|s: Seq<char>| #[trigger] stat_total(all, s) <= u64::MAX,
        forall|s: Seq<char>| #[trigger] stat_appear(all, s) <= usize::MAX,
        stats_match(old(stats)@, all.subrange(0, base)),
    ensures
        stats_match(final(stats)@, all.subrange(0, base + analysis_events(*a).len())),
{
    let ghost ae = analysis_events(*a);
    let ghost plen = a.critical_path@.len() as int;
    let ghost slen = a.services@.len() as int;
    assert(ae.len() == plen + slen + a.bottleneck_scores@.len());
    for j in 0..a.critical_path.len()
        invariant
            0 <= base,
            base + ae.len() <= all.len(),
            ae == analysis_events(*a),
            plen == a.critical_path@.len(),
            forall|j: int| 0 <= j < ae.len() ==> all[base + j] == #[trigger] ae[j],
            events_ok(all),
            forall|s: Seq<char>| #[trigger] stat_total(all, s) <= u64::MAX,
            stats_match(stats@, all.subrange(0, base + j)),
    {
        let n = &a.critical_path[j];
        assert(ae[j as int] == (0int, n.service_name@, n.duration as int, 0int));
        assert(all[base + j] == ae[j as int]);
        record_node(stats, &n.service_name, n.duration, Ghost(all), Ghost(base + j));
    }
    for j in 0..a.services.len()
        invariant
            0 <= base,
            base + ae.len() <= all.len(),
            ae == analysis_events(*a),
            plen == a.critical_path@.len(),
            slen == a.services@.len(),
            forall|j: int| 0 <= j < ae.len() ==> all[base + j] == #[trigger] ae[j],
            events_ok(all),
            forall|s: Seq<char>| #[trigger] stat_appear(all, s) <= usize::MAX,
            stats_match(stats@, all.subrange(0, base + plen + j)),
    {
        let name = &a.services[j];
        let on_cp = path_has_service(a.critical_path.as_slice(), name);
        assert(ae[plen + j] == (1int, name@, if on_cp { 1int } else { 0int }, 0int));
        assert(all[base + plen + j] == ae[plen + j]);
        record_appearance(stats, name, on_cp, Ghost(all), Ghost(base + plen + j));
    }
    for j in 0..a.bottleneck_scores.len()
        invariant
            0 <= base,
            base + ae.len() <= all.len(),
            ae == analysis_events(*a),
            plen == a.critical_path@.len(),
            slen == a.services@.len(),
            ae.len() == plen + slen + a.bottleneck_scores@.len(),
            forall|j: int| 0 <= j < ae.len() ==> all[base + j] == #[trigger] ae[j],
            stats_match(stats@, all.subrange(0, base + plen + slen + j)),
    {
        let sc = &a.bottleneck_scores[j];
        assert(ae[plen + slen + j] == (2int, sc.service_name@, sc.numerator as int, sc.denominator as int));
        assert(all[base + plen + slen + j] == ae[plen + slen + j]);
        record_score(stats, &sc.service_name, sc.numerator, sc.denominator, Ghost(all), Ghost(base + plen + slen + j));
    }
}

/// The facts of the first `t + 1` analyses are those of the first `t`, then
/// those of analysis `t`, and they open the facts of all of them.
proof fn lemma_events_prefix(analyses: Seq<TraceAnalysis>, t: int)
    requires
        0 <= t < analyses.len(),
    ensures
        all_events(analyses.subrange(0, t + 1)) == all_events(analyses.subrange(0, t)) + analysis_events(analyses[t]),
        all_events(analyses.subrange(0, t + 1)).len() <= all_events(analyses).len(),
        all_events(analyses).subrange(0, all_events(analyses.subrange(0, t + 1)).len() as int) == all_events(
            analyses.subrange(0, t + 1),
        ),
{
    assert(analyses.subrange(0, t + 1).drop_last() =~= analyses.subrange(0, t));
    assert(analyses =~= analyses.subrange(0, t + 1) + analyses.subrange(t + 1, analyses.len() as int));
    lemma_all_events_concat(analyses.subrange(0, t + 1), analyses.subrange(t + 1, analyses.len() as int));
    let pre = all_events(analyses.subrange(0, t + 1));
    assert(all_events(analyses).subrange(0, pre.len() as int) =~= pre);
}

/// What the analyses say of each service: the sum and the list of its
/// critical path durations, how many traces it appears in and on how many of
/// their critical paths, and its score shares. The services come in order of
/// first appearance (critical path nodes, then services, then scores, trace
/// by trace).
pub fn aggregate_service_stats(trace_analyses: &[TraceAnalysis]) -> (stats: Vec<(String, ServiceStats)>)
    requires
        stats_fit(trace_analyses@),
    ensures
        stats_match(stats@, all_events(trace_analyses@)),
{
    let ghost analyses = trace_analyses@;
    let ghost all = all_events(analyses);
    proof {
        lemma_all_events_ok(analyses);
        assert(all.subrange(0, 0) =~= all_events(analyses.subrange(0, 0)));
    }
    let mut stats: Vec<(String, ServiceStats)> = Vec::new();
    for t in 0..trace_analyses.len()
        invariant
            analyses == trace_analyses@,
            all == all_events(analyses),
            events_ok(all),
            stats_fit(analyses),
            all_events(analyses.subrange(0, t as int)).len() <= all.len(),
            all.subrange(0, all_events(analyses.subrange(0, t as int)).len() as int) == all_events(analyses.subrange(0, t as int)),
            stats_match(stats@, all_events(analyses.subrange(0, t as int))),
    {
        let ghost pre = all_events(analyses.subrange(0, t as int));
        let ghost ae = analysis_events(analyses[t as int]);
        proof {
            lemma_events_prefix(analyses, t as int);
            let pre1 = all_events(analyses.subrange(0, t + 1));
            assert forall|j: int| 0 <= j < ae.len() implies all[pre.len() + j] == #[trigger] ae[j] by {
                assert(all.subrange(0, pre1.len() as int)[pre.len() + j] == pre1[pre.len() + j]);
            }
        }
        record_analysis(&mut stats, &trace_analyses[t], Ghost(all), Ghost(pre.len() as int));
        proof {
            assert(all.subrange(0, (pre.len() + ae.len()) as int) == all_events(analyses.subrange(0, t + 1)));
        }
    }
    proof {
        assert(analyses.subrange(0, analyses.len() as int) =~= analyses);
    }
    stats
}

/// The rank of a service, with the given score.
pub open spec fn rank_of(entry: (String, ServiceStats), score: u64) -> ServiceBottleneckRank {
    ServiceBottleneckRank {
        service_name: entry.0,
        total_contribution: entry.1.total_contribution,
        appearance_count: entry.1.appearance_count,
        contribution_count: entry.1.durations@.len() as usize,
        bottleneck_score: score,
        critical_path_count: entry.1.critical_path_count,
    }
}

/// `perm` is a one-to-one map from the positions of `ranks` to those of
/// `stats`.
pub open spec fn is_permutation(perm: Seq<int>, n: int) -> bool {
    &&& perm.len() == n
    &&& forall|k: int| 0 <= k < n ==> 0 <= #[trigger] perm[k] < n
    &&& forall|a: int, b: int| 0 <= a < b < n ==> perm[a] != perm[b]
}

/// `ranks` holds the ranks of the services of `stats`, position `k` that of
/// the service at `perm[k]`, by descending score; services of equal score
/// keep the order of `stats`.
pub open spec fn ranked(stats: Seq<(String, ServiceStats)>, ranks: Seq<ServiceBottleneckRank>, perm: Seq<int>) -> bool {
    &&& ranks.len() == stats.len()
    &&& is_permutation(perm, stats.len() as int)
    &&& forall|k: int| 0 <= k < ranks.len() ==> #[trigger] ranks[k] == rank_of(stats[perm[k]], ranks[k].bottleneck_score)
    &&& forall|a: int, b: int| 0 <= a < b < ranks.len() ==> ranks[a].bottleneck_score >= ranks[b].bottleneck_score
    &&& forall|a: int, b: int|
        0 <= a < b < ranks.len() && ranks[a].bottleneck_score == ranks[b].bottleneck_score ==> perm[a] < perm[b]
}

/// Ranks the services by descending score; services of equal score keep
/// their order. `score` gives a service's score from its statistics and the
/// number of traces, as an integer that orders as the scores do.
pub fn rank_services<F: Fn(&ServiceStats, usize) -> u64>(
    stats: &[(String, ServiceStats)],
    total_traces: usize,
    score: F,
) -> (ranks: Vec<ServiceBottleneckRank>)
    requires
        forall|st: &ServiceStats| score.requires((st, total_traces)),
    ensures
        exists|perm: Seq<int>|
            ranked(stats@, ranks@, perm) && forall|k: int|
                0 <= k < ranks@.len() ==> score.ensures((&stats@[perm[k]].1, total_traces), #[trigger] ranks@[k].bottleneck_score),
{
    let mut ranks: Vec<ServiceBottleneckRank> = Vec::new();
    let ghost mut perm: Seq<int> = Seq::empty();
    for i in 0..stats.len()
        invariant
            forall|st: &ServiceStats| score.requires((st, total_traces)),
            ranks@.len() == i,
            perm.len() == i,
            forall|k: int| 0 <= k < i ==> 0 <= #[trigger] perm[k] < i,
            forall|a: int, b: int| 0 <= a < b < i ==> perm[a] != perm[b],
            forall|k: int| 0 <= k < i ==> #[trigger] ranks@[k] == rank_of(stats@[perm[k]], ranks@[k].bottleneck_score),
            forall|k: int| 0 <= k < i ==> score.ensures((&stats@[perm[k]].1, total_traces), #[trigger] ranks@[k].bottleneck_score),
            forall|a: int, b: int| 0 <= a < b < i ==> ranks@[a].bottleneck_score >= ranks@[b].bottleneck_score,
            forall|a: int, b: int|
                0 <= a < b < i && ranks@[a].bottleneck_score == ranks@[b].bottleneck_score ==> perm[a] < perm[b],
    {
        let entry = &stats[i];
        let key = score(&entry.1, total_traces);
        let r = ServiceBottleneckRank {
            service_name: entry.0.clone(),
            total_contribution: entry.1.total_contribution,
            appearance_count: entry.1.appearance_count,
            contribution_count: entry.1.durations.len(),
            bottleneck_score: key,
            critical_path_count: entry.1.critical_path_count,
        };
        assert(r == rank_of(stats@[i as int], key));
        let mut p: usize = 0;
        while p < ranks.len() && ranks[p].bottleneck_score >= key
            invariant
                p <= ranks@.len(),
                forall|k: int| 0 <= k < p ==> ranks@[k].bottleneck_score >= key,
            decreases ranks@.len() - p,
        {
            p = p + 1;
        }
        let ghost old_ranks = ranks@;
        let ghost old_perm = perm;
        assert forall|k: int| p <= k < old_ranks.len() implies old_ranks[k].bottleneck_score < key by {
            assert(old_ranks[p as int].bottleneck_score < key);
            if k > p {
                assert(old_ranks[p as int].bottleneck_score >= old_ranks[k].bottleneck_score);
            }
        }
        ranks.insert(p, r);
        proof {
            perm = old_perm.insert(p as int, i as int);
            let n = ranks@;
            assert forall|k: int| 0 <= k <= i implies (#[trigger] n[k] == if k < p {
                old_ranks[k]
            } else if k == p {
                r
            } else {
                old_ranks[k - 1]
            }) && perm[k] == if k < p {
                old_perm[k]
            } else if k == p {
                i as int
            } else {
                old_perm[k - 1]
            } by {}
            assert forall|k: int| 0 <= k <= i implies 0 <= #[trigger] perm[k] <= i by {
                if k != p {
                    let j = if k < p { k } else { k - 1 };
                    assert(perm[k] == old_perm[j]);
                }
            }
            assert forall|a: int, b: int| 0 <= a < b <= i implies perm[a] != perm[b] by {
                let ja = if a < p { a } else { a - 1 };
                let jb = if b < p { b } else { b - 1 };
                if a != p && b != p {
                    assert(perm[a] == old_perm[ja] && perm[b] == old_perm[jb]);
                } else if a == p {
                    assert(perm[b] == old_perm[jb]);
                } else {
                    assert(perm[a] == old_perm[ja]);
                }
            }
            assert forall|k: int| 0 <= k <= i implies #[trigger] n[k] == rank_of(stats@[perm[k]], n[k].bottleneck_score)
                && score.ensures((&stats@[perm[k]].1, total_traces), n[k].bottleneck_score) by {
                if k != p {
                    let j = if k < p { k } else { k - 1 };
                    assert(n[k] == old_ranks[j] && perm[k] == old_perm[j]);
                }
            }
            assert forall|a: int, b: int| 0 <= a < b <= i implies n[a].bottleneck_score >= n[b].bottleneck_score && (n[a].bottleneck_score
                == n[b].bottleneck_score ==> perm[a] < perm[b]) by {
                let ja = if a < p { a } else { a - 1 };
                let jb = if b < p { b } else { b - 1 };
                if a != p && b != p {
                    assert(n[a] == old_ranks[ja] && n[b] == old_ranks[jb]);
                    assert(perm[a] == old_perm[ja] && perm[b] == old_perm[jb]);
                } else if a == p {
                    assert(n[b] == old_ranks[jb]);
                } else {
                    assert(n[a] == old_ranks[ja]);
                    assert(perm[a] == old_perm[ja]);
                }
            }
        }
    }
    proof {
        assert(ranked(stats@, ranks@, perm));
    }
    ranks
}

/// The first `top_n` ranks of the report (all of them where there are
/// fewer).
pub fn get_top_bottlenecks(report: &AnalysisReport, top_n: usize) -> (top: Vec<&ServiceBottleneckRank>)
    ensures
        top@.len() == if top_n < report.service_ranks@.len() { top_n as int } else { report.service_ranks@.len() as int },
        forall|k: int| 0 <= k < top@.len() ==> *(#[trigger] top@[k]) == report.service_ranks@[k],
{
    let mut top: Vec<&ServiceBottleneckRank> = Vec::new();
    let mut i: usize = 0;
    while i < top_n && i < report.service_ranks.len()
        invariant
            i <= top_n,
            i <= report.service_ranks@.len(),
            top@.len() == i,
            forall|k: int| 0 <= k < i ==> *(#[trigger] top@[k]) == report.service_ranks@[k],
        decreases report.service_ranks@.len() - i,
    {
        top.push(&report.service_ranks[i]);
        i = i + 1;
    }
    top
}


/// The longest durations of the traces, each taken once per span and once
/// more, added up.
pub open spec fn duration_budget(traces: Seq<TraceData>) -> int
    decreases traces.len(),
{
    if traces.len() == 0 {
        0
    } else {
        duration_budget(traces.drop_last()) + (traces.last().spans@.len() + 1) * max_span_duration(traces.last().spans@)
    }
}

/// The number of processes of the traces, added up.
pub open spec fn process_budget(traces: Seq<TraceData>) -> int
    decreases traces.len(),
{
    if traces.len() == 0 {
        0
    } else {
        process_budget(traces.drop_last()) + traces.last().processes@.len()
    }
}

/// The sums that a report over the traces keeps fit its counters.
pub open spec fn report_fits(traces: Seq<TraceData>) -> bool {
    &&& duration_budget(traces) <= u64::MAX
    &&& process_budget(traces) <= usize::MAX
}

/// A fact's duration is at most `d`.
proof fn lemma_total_bound(evs: Seq<StatEvent>, s: Seq<char>, d: int)
    requires
        d >= 0,
        forall|i: int| 0 <= i < evs.len() && (#[trigger] evs[i]).0 == 0 ==> 0 <= evs[i].2 <= d,
    ensures
        0 <= stat_total(evs, s) <= evs.len() * d,
    decreases evs.len(),
{
    if evs.len() > 0 {
        assert forall|i: int| 0 <= i < evs.drop_last().len() && (#[trigger] evs.drop_last()[i]).0 == 0 implies 0
            <= evs.drop_last()[i].2 <= d by {
            assert(evs.drop_last()[i] == evs[i]);
        }
        lemma_total_bound(evs.drop_last(), s, d);
        assert(evs.last() == evs[evs.len() - 1]);
        assert((evs.len() - 1) * d + d == evs.len() * d) by (nonlinear_arith);
    }
}

/// Each fact counts at most once as an appearance, and none where none is
/// an appearance.
proof fn lemma_appear_bound(evs: Seq<StatEvent>, s: Seq<char>)
    ensures
        0 <= stat_appear(evs, s) <= evs.len(),
        (forall|i: int| 0 <= i < evs.len() ==> (#[trigger] evs[i]).0 != 1) ==> stat_appear(evs, s) == 0,
    decreases evs.len(),
{
    if evs.len() > 0 {
        lemma_appear_bound(evs.drop_last(), s);
        if forall|i: int| 0 <= i < evs.len() ==> (#[trigger] evs[i]).0 != 1 {
            assert forall|i: int| 0 <= i < evs.drop_last().len() implies (#[trigger] evs.drop_last()[i]).0 != 1 by {
                assert(evs.drop_last()[i] == evs[i]);
            }
            assert(evs.last() == evs[evs.len() - 1]);
        }
    }
}

/// The distinct services of some processes are at most as many as the
/// processes.
proof fn lemma_process_services_len(procs: Seq<(String, Process)>)
    ensures
        process_services(procs).len() <= procs.len(),
    decreases procs.len(),
{
    if procs.len() > 0 {
        lemma_process_services_len(procs.drop_last());
    }
}

/// What one analysis adds to the counters of a service is within the
/// trace's share of the budgets.
proof fn lemma_analysis_bounds(td: TraceData, a: TraceAnalysis, s: Seq<char>)
    requires
        analysis_of(td, a),
    ensures
        stat_total(analysis_events(a), s) <= (td.spans@.len() + 1) * max_span_duration(td.spans@),
        stat_appear(analysis_events(a), s) <= td.processes@.len(),
{
    let p = a.critical_path@.map_values(|n: CriticalPathNode| (0int, n.service_name@, n.duration as int, 0int));
    let q = a.services@.map_values(|s: String| (1int, s@, if on_path(a.critical_path@, s@) { 1int } else { 0int }, 0int));
    let r = a.bottleneck_scores@.map_values(|sc: ServiceScore| (2int, sc.service_name@, sc.numerator as int, sc.denominator as int));
    let d = max_span_duration(td.spans@) as int;
    assert(analysis_events(a) == p + q + r);
    lemma_counts_concat(p + q, r, s);
    lemma_counts_concat(p, q, s);
    assert forall|i: int| 0 <= i < p.len() && (#[trigger] p[i]).0 == 0 implies 0 <= p[i].2 <= d by {
        assert(p[i].2 == a.critical_path@[i].duration);
    }
    lemma_total_bound(p, s, d);
    lemma_total_bound(q, s, 0);
    lemma_total_bound(r, s, 0);
    assert(p.len() * d <= (td.spans@.len() + 1) * d) by (nonlinear_arith)
        requires
            p.len() <= td.spans@.len() + 1,
            d >= 0,
    ;
    assert forall|i: int| 0 <= i < p.len() implies (#[trigger] p[i]).0 != 1 by {}
    assert forall|i: int| 0 <= i < r.len() implies (#[trigger] r[i]).0 != 1 by {}
    lemma_appear_bound(p, s);
    lemma_appear_bound(q, s);
    lemma_appear_bound(r, s);
    assert(a.services@.len() == process_services(td.processes@).len()) by {
        assert(a.services@.map_values(|s: String| s@).len() == a.services@.len());
    }
    lemma_process_services_len(td.processes@);
}

/// The counters over the analyses of traces stay within the traces'
/// budgets.
proof fn lemma_budget(traces: Seq<TraceData>, analyses: Seq<TraceAnalysis>, s: Seq<char>)
    requires
        analyses.len() == traces.len(),
        forall|i: int| 0 <= i < traces.len() ==> analysis_of(#[trigger] traces[i], analyses[i]),
    ensures
        stat_total(all_events(analyses), s) <= duration_budget(traces),
        stat_appear(all_events(analyses), s) <= process_budget(traces),
    decreases traces.len(),
{
    if traces.len() > 0 {
        let n = traces.len() - 1;
        assert forall|i: int| 0 <= i < traces.drop_last().len() implies analysis_of(
            #[trigger] traces.drop_last()[i],
            analyses.drop_last()[i],
        ) by {
            assert(traces.drop_last()[i] == traces[i]);
            assert(analyses.drop_last()[i] == analyses[i]);
        }
        lemma_budget(traces.drop_last(), analyses.drop_last(), s);
        assert(analysis_of(traces[n], analyses[n]));
        lemma_analysis_bounds(traces.last(), analyses.last(), s);
        lemma_counts_concat(all_events(analyses.drop_last()), analysis_events(analyses.last()), s);
    }
}

/// What a report over the traces holds, with `score` as the scoring: an
/// analysis of each trace, the dependency graph of all their calls, and the
/// services of the analyses ranked by their scores.
pub open spec fn report_of<F: Fn(&ServiceStats, usize) -> u64>(traces: Seq<TraceData>, score: F, r: AnalysisReport) -> bool {
    &&& r.total_traces == traces.len()
    &&& r.trace_analyses@.len() == traces.len()
    &&& forall|i: int| 0 <= i < traces.len() ==> analysis_of(#[trigger] traces[i], r.trace_analyses@[i])
    &&& traces_calls(traces) is Ok
    &&& r.dependency_graph@.map_values(|d: DependencyEdge| dependency_edge_view(d)) == edge_list(
        add_calls_model(empty_model(), traces_calls(traces)->Ok_0),
    )
    &&& r.total_services == r.service_ranks@.len()
    &&& exists|stats: Seq<(String, ServiceStats)>, perm: Seq<int>|
        stats_match(stats, all_events(r.trace_analyses@)) && ranked(stats, r.service_ranks@, perm) && forall|k: int|
            0 <= k < r.service_ranks@.len() ==> score.ensures(
                (&stats[perm[k]].1, r.total_traces),
                #[trigger] r.service_ranks@[k].bottleneck_score,
            )
}

/// Analyzes every trace of the export, builds the dependency graph of their
/// calls, and ranks their services with `score`. The result is an error
/// where a trace cannot be analyzed (a span reachable from a root has no
/// process) or its calls cannot be built; the analysis runs first.
pub fn generate_report<F: Fn(&ServiceStats, usize) -> u64>(jaeger_trace: &JaegerTrace, score: F) -> (res: Result<
    AnalysisReport,
    AnalysisError,
>)
    requires
        forall|i: int|
            0 <= i < jaeger_trace.data@.len() ==> trace_fits((#[trigger] jaeger_trace.data@[i]).spans@) && roots_first(
                jaeger_trace.data@[i].spans@,
            ),
        report_fits(jaeger_trace.data@),
        forall|k: int|
            0 <= k <= jaeger_trace.data@.len() ==> (traces_calls(#[trigger] jaeger_trace.data@.subrange(0, k)) matches Ok(c)
                ==> calls_fit(empty_model(), c)),
        forall|st: &ServiceStats, n: usize| score.requires((st, n)),
    ensures
        match res {
            Ok(r) => report_of(jaeger_trace.data@, score, r),
            Err(e) => (exists|i: int|
                0 <= i < jaeger_trace.data@.len() && trace_fails(#[trigger] jaeger_trace.data@[i], e) && forall|j: int|
                    0 <= j < i ==> analysable(#[trigger] jaeger_trace.data@[j])) || ((forall|j: int|
                0 <= j < jaeger_trace.data@.len() ==> analysable(#[trigger] jaeger_trace.data@[j]))
                && traces_calls(jaeger_trace.data@) == Err::<Seq<crate::models::ServiceCall>, AnalysisError>(e)),
        },
        (forall|i: int| 0 <= i < jaeger_trace.data@.len() ==> processes_complete(#[trigger] jaeger_trace.data@[i]))
            && traces_calls(jaeger_trace.data@) is Ok ==> res is Ok,
        res is Ok ==> forall|i: int|
            0 <= i < jaeger_trace.data@.len() && distinct_ids(jaeger_trace.data@[i].spans@) ==> processes_complete(#[trigger] jaeger_trace.data@[i]),
{
    let traces = &jaeger_trace.data;
    let trace_analyses = match analyze_all_traces(traces.as_slice()) {
        Ok(v) => v,
        Err(e) => {
            return Err(e);
        },
    };
    proof {
        assert forall|i: int| 0 <= i < traces@.len() implies crate::parser::call_producers_fit(#[trigger] traces@[i]) by {
            lemma_producers_fit(traces@[i].spans@);
            crate::parser::lemma_call_producers_fit(traces@[i]);
        }
    }
    let dependency_graph = match ServiceDependencyGraph::from_trace_data(traces.as_slice()) {
        Ok(g) => g,
        Err(e) => {
            return Err(e);
        },
    };
    let dependency_edges = dependency_graph.to_dependency_edges();
    proof {
        assert forall|s: Seq<char>| #[trigger] stat_total(all_events(trace_analyses@), s) <= u64::MAX by {
            lemma_budget(traces@, trace_analyses@, s);
        }
        assert forall|s: Seq<char>| #[trigger] stat_appear(all_events(trace_analyses@), s) <= usize::MAX by {
            lemma_budget(traces@, trace_analyses@, s);
        }
    }
    let service_stats = aggregate_service_stats(trace_analyses.as_slice());
    let service_ranks = rank_services(service_stats.as_slice(), trace_analyses.len(), score);
    let total_services = service_ranks.len();
    let report = AnalysisReport {
        total_traces: trace_analyses.len(),
        total_services,
        service_ranks,
        trace_analyses,
        dependency_graph: dependency_edges,
    };
    assert(report_of(jaeger_trace.data@, score, report));
    Ok(report)
}


/// A service is on the critical path of at most as many traces as it
/// appears in.
pub proof fn law_critical_path_count_within_appearances(analyses: Seq<TraceAnalysis>, stats: Seq<(String, ServiceStats)>)
    requires
        stats_match(stats, all_events(analyses)),
    ensures
        forall|k: int| 0 <= k < stats.len() ==> (#[trigger] stats[k]).1.critical_path_count <= stats[k].1.appearance_count,
{
    lemma_all_events_ok(analyses);
    assert forall|k: int| 0 <= k < stats.len() implies (#[trigger] stats[k]).1.critical_path_count <= stats[k].1.appearance_count by {
        lemma_counts_nonneg(all_events(analyses), stats[k].0@);
    }
}

/// The ranking names each service of the statistics once, and no other.
pub proof fn law_each_service_ranked_once(
    analyses: Seq<TraceAnalysis>,
    stats: Seq<(String, ServiceStats)>,
    ranks: Seq<ServiceBottleneckRank>,
    perm: Seq<int>,
)
    requires
        stats_match(stats, all_events(analyses)),
        ranked(stats, ranks, perm),
    ensures
        forall|a: int, b: int| 0 <= a < b < ranks.len() ==> ranks[a].service_name@ != ranks[b].service_name@,
        forall|k: int| 0 <= k < ranks.len() ==> event_keys(all_events(analyses)).contains(#[trigger] ranks[k].service_name@),
{
    let keys = event_keys(all_events(analyses));
    assert forall|a: int, b: int| 0 <= a < b < ranks.len() implies ranks[a].service_name@ != ranks[b].service_name@ by {
        assert(ranks[a] == rank_of(stats[perm[a]], ranks[a].bottleneck_score));
        assert(ranks[b] == rank_of(stats[perm[b]], ranks[b].bottleneck_score));
        assert(stats[perm[a]].0@ == keys[perm[a]]);
        assert(stats[perm[b]].0@ == keys[perm[b]]);
        assert(0 <= perm[a] < stats.len() && 0 <= perm[b] < stats.len());
    }
    assert forall|k: int| 0 <= k < ranks.len() implies keys.contains(#[trigger] ranks[k].service_name@) by {
        assert(ranks[k] == rank_of(stats[perm[k]], ranks[k].bottleneck_score));
        assert(0 <= perm[k] < stats.len());
        assert(stats[perm[k]].0@ == keys[perm[k]]);
    }
}

/// The durations of the nodes of service `s` on a path, in order.
pub open spec fn node_durations(path: Seq<CriticalPathNode>, s: Seq<char>) -> Seq<u64>
    decreases path.len(),
{
    if path.len() == 0 {
        Seq::empty()
    } else if path.last().service_name@ == s {
        node_durations(path.drop_last(), s).push(path.last().duration)
    } else {
        node_durations(path.drop_last(), s)
    }
}

/// How many entries of a list of services name `s`.
pub open spec fn count_named(names: Seq<String>, s: Seq<char>) -> int
    decreases names.len(),
{
    if names.len() == 0 {
        0
    } else {
        count_named(names.drop_last(), s) + if names.last()@ == s { 1int } else { 0int }
    }
}

/// The sum of some durations.
pub open spec fn sum_u64(xs: Seq<u64>) -> int
    decreases xs.len(),
{
    if xs.len() == 0 {
        0
    } else {
        sum_u64(xs.drop_last()) + xs.last()
    }
}

/// The durations of all critical path nodes of service `s`, analysis after
/// analysis.
pub open spec fn service_durations(analyses: Seq<TraceAnalysis>, s: Seq<char>) -> Seq<u64>
    decreases analyses.len(),
{
    if analyses.len() == 0 {
        Seq::empty()
    } else {
        service_durations(analyses.drop_last(), s) + node_durations(analyses.last().critical_path@, s)
    }
}

/// How many times service `s` is listed among the services of the analyses.
pub open spec fn service_appearances(analyses: Seq<TraceAnalysis>, s: Seq<char>) -> int
    decreases analyses.len(),
{
    if analyses.len() == 0 {
        0
    } else {
        service_appearances(analyses.drop_last(), s) + count_named(analyses.last().services@, s)
    }
}

/// How many of those listings are in analyses whose critical path has a
/// node of `s`.
pub open spec fn service_cp_listings(analyses: Seq<TraceAnalysis>, s: Seq<char>) -> int
    decreases analyses.len(),
{
    if analyses.len() == 0 {
        0
    } else {
        service_cp_listings(analyses.drop_last(), s) + if on_path(analyses.last().critical_path@, s) {
            count_named(analyses.last().services@, s)
        } else {
            0
        }
    }
}

/// The facts of two runs of facts add up.
proof fn lemma_stats_concat(a: Seq<StatEvent>, b: Seq<StatEvent>, s: Seq<char>)
    ensures
        stat_durations(a + b, s) == stat_durations(a, s) + stat_durations(b, s),
        stat_total(a + b, s) == stat_total(a, s) + stat_total(b, s),
        stat_appear(a + b, s) == stat_appear(a, s) + stat_appear(b, s),
        stat_cp(a + b, s) == stat_cp(a, s) + stat_cp(b, s),
    decreases b.len(),
{
    if b.len() == 0 {
        assert(a + b =~= a);
    } else {
        lemma_stats_concat(a, b.drop_last(), s);
        assert((a + b).drop_last() =~= a + b.drop_last());
        assert((a + b).last() == b.last());
    }
}

/// The facts of a critical path: its nodes' durations.
proof fn lemma_path_facts(path: Seq<CriticalPathNode>, s: Seq<char>)
    ensures
        ({
            let evs = path.map_values(|n: CriticalPathNode| (0int, n.service_name@, n.duration as int, 0int));
            &&& stat_durations(evs, s) == node_durations(path, s)
            &&& stat_total(evs, s) == sum_u64(node_durations(path, s))
            &&& stat_appear(evs, s) == 0
            &&& stat_cp(evs, s) == 0
        }),
    decreases path.len(),
{
    if path.len() > 0 {
        lemma_path_facts(path.drop_last(), s);
        let evs = path.map_values(|n: CriticalPathNode| (0int, n.service_name@, n.duration as int, 0int));
        assert(evs.drop_last() =~= path.drop_last().map_values(|n: CriticalPathNode| (0int, n.service_name@, n.duration as int, 0int)));
        assert(evs.last() == (0int, path.last().service_name@, path.last().duration as int, 0int));
        assert((path.last().duration as int) as u64 == path.last().duration);
        let prev = node_durations(path.drop_last(), s);
        if path.last().service_name@ == s {
            assert(prev.push(path.last().duration).drop_last() =~= prev);
        }
    }
}

/// The facts of a list of services: one appearance each, on the critical
/// path where the service has a node on it.
proof fn lemma_service_facts(names: Seq<String>, path: Seq<CriticalPathNode>, s: Seq<char>)
    ensures
        ({
            let evs = names.map_values(|x: String| (1int, x@, if on_path(path, x@) { 1int } else { 0int }, 0int));
            &&& stat_durations(evs, s) == Seq::<u64>::empty()
            &&& stat_total(evs, s) == 0
            &&& stat_appear(evs, s) == count_named(names, s)
            &&& stat_cp(evs, s) == if on_path(path, s) { count_named(names, s) } else { 0 }
        }),
    decreases names.len(),
{
    if names.len() > 0 {
        lemma_service_facts(names.drop_last(), path, s);
        let evs = names.map_values(|x: String| (1int, x@, if on_path(path, x@) { 1int } else { 0int }, 0int));
        assert(evs.drop_last() =~= names.drop_last().map_values(
            |x: String| (1int, x@, if on_path(path, x@) { 1int } else { 0int }, 0int),
        ));
    }
}

/// The facts of a list of scores say nothing of durations or appearances.
proof fn lemma_score_facts(scores: Seq<ServiceScore>, s: Seq<char>)
    ensures
        ({
            let evs = scores.map_values(|sc: ServiceScore| (2int, sc.service_name@, sc.numerator as int, sc.denominator as int));
            &&& stat_durations(evs, s) == Seq::<u64>::empty()
            &&& stat_total(evs, s) == 0
            &&& stat_appear(evs, s) == 0
            &&& stat_cp(evs, s) == 0
        }),
    decreases scores.len(),
{
    if scores.len() > 0 {
        lemma_score_facts(scores.drop_last(), s);
        let evs = scores.map_values(|sc: ServiceScore| (2int, sc.service_name@, sc.numerator as int, sc.denominator as int));
        assert(evs.drop_last() =~= scores.drop_last().map_values(
            |sc: ServiceScore| (2int, sc.service_name@, sc.numerator as int, sc.denominator as int),
        ));
    }
}

/// Sums of durations add up.
proof fn lemma_sum_concat(a: Seq<u64>, b: Seq<u64>)
    ensures
        sum_u64(a + b) == sum_u64(a) + sum_u64(b),
    decreases b.len(),
{
    if b.len() == 0 {
        assert(a + b =~= a);
    } else {
        lemma_sum_concat(a, b.drop_last());
        assert((a + b).drop_last() =~= a + b.drop_last());
    }
}

/// What the facts of the analyses say of a service, in the analyses' terms.
proof fn lemma_all_facts(analyses: Seq<TraceAnalysis>, s: Seq<char>)
    ensures
        stat_durations(all_events(analyses), s) == service_durations(analyses, s),
        stat_total(all_events(analyses), s) == sum_u64(service_durations(analyses, s)),
        stat_appear(all_events(analyses), s) == service_appearances(analyses, s),
        stat_cp(all_events(analyses), s) == service_cp_listings(analyses, s),
    decreases analyses.len(),
{
    if analyses.len() > 0 {
        let a = analyses.last();
        lemma_all_facts(analyses.drop_last(), s);
        let pe = a.critical_path@.map_values(|n: CriticalPathNode| (0int, n.service_name@, n.duration as int, 0int));
        let se = a.services@.map_values(|x: String| (1int, x@, if on_path(a.critical_path@, x@) { 1int } else { 0int }, 0int));
        let ce = a.bottleneck_scores@.map_values(
            |sc: ServiceScore| (2int, sc.service_name@, sc.numerator as int, sc.denominator as int),
        );
        lemma_path_facts(a.critical_path@, s);
        lemma_service_facts(a.services@, a.critical_path@, s);
        lemma_score_facts(a.bottleneck_scores@, s);
        lemma_stats_concat(pe, se, s);
        lemma_stats_concat(pe + se, ce, s);
        assert(analysis_events(a) == pe + se + ce);
        lemma_stats_concat(all_events(analyses.drop_last()), analysis_events(a), s);
        assert(stat_durations(se, s) + stat_durations(ce, s) =~= Seq::<u64>::empty());
        assert(stat_durations(pe, s) + Seq::<u64>::empty() =~= stat_durations(pe, s));
        lemma_sum_concat(service_durations(analyses.drop_last(), s), node_durations(a.critical_path@, s));
    }
}

/// The statistics of the analyses, service by service: its durations are
/// those of all its critical path nodes, analysis after analysis, in order;
/// its total contribution is their sum; its appearance count is how many
/// times the analyses list it among their services, and its critical path
/// count how many of those listings are in analyses whose critical path has
/// a node of it.
pub proof fn law_stats_in_terms_of_analyses(analyses: Seq<TraceAnalysis>, stats: Seq<(String, ServiceStats)>)
    requires
        stats_match(stats, all_events(analyses)),
    ensures
        forall|k: int|
            0 <= k < stats.len() ==> {
                let s = (#[trigger] stats[k]).0@;
                &&& stats[k].1.durations@ == service_durations(analyses, s)
                &&& stats[k].1.total_contribution == sum_u64(service_durations(analyses, s))
                &&& stats[k].1.appearance_count == service_appearances(analyses, s)
                &&& stats[k].1.critical_path_count == service_cp_listings(analyses, s)
            },
{
    assert forall|k: int| 0 <= k < stats.len() implies {
        let s = (#[trigger] stats[k]).0@;
        &&& stats[k].1.durations@ == service_durations(analyses, s)
        &&& stats[k].1.total_contribution == sum_u64(service_durations(analyses, s))
        &&& stats[k].1.appearance_count == service_appearances(analyses, s)
        &&& stats[k].1.critical_path_count == service_cp_listings(analyses, s)
    } by {
        lemma_all_facts(analyses, stats[k].0@);
    }
}

/// The ranking is the statistics reordered: every service of the
/// statistics has exactly one rank (`perm` maps ranks to statistics one to
/// one and onto), which carries its total contribution,
/// appearance count, critical path count and number of contributions; the
/// ranks go by non-increasing score.
pub proof fn law_ranking_is_sorted_permutation(stats: Seq<(String, ServiceStats)>, ranks: Seq<ServiceBottleneckRank>, perm: Seq<int>)
    requires
        ranked(stats, ranks, perm),
    ensures
        forall|a: int, b: int| 0 <= a < b < ranks.len() ==> ranks[a].bottleneck_score >= ranks[b].bottleneck_score,
        perm.no_duplicates(),
        forall|k: int| 0 <= k < stats.len() ==> #[trigger] perm.contains(k),
        forall|p: int|
            0 <= p < ranks.len() ==> {
                let st = stats[perm[p]];
                &&& (#[trigger] ranks[p]).service_name == st.0
                &&& ranks[p].total_contribution == st.1.total_contribution
                &&& ranks[p].appearance_count == st.1.appearance_count
                &&& ranks[p].critical_path_count == st.1.critical_path_count
                &&& ranks[p].contribution_count == st.1.durations@.len() as usize
            },
{
    let n = stats.len() as int;
    assert(perm.no_duplicates()) by {
        assert forall|a: int, b: int| 0 <= a < perm.len() && 0 <= b < perm.len() && a != b implies perm[a] != perm[b] by {}
    }
    perm.unique_seq_to_set();
    vstd::set_lib::lemma_int_range(0, n);
    let range = vstd::set_lib::set_int_range(0, n);
    assert(perm.to_set().subset_of(range)) by {
        assert forall|x: int| perm.to_set().contains(x) implies range.contains(x) by {
            let t = choose|t: int| 0 <= t < perm.len() && perm[t] == x;
            assert(0 <= perm[t] < n);
        }
    }
    vstd::set_lib::lemma_len_subset(perm.to_set(), range);
    vstd::set_lib::lemma_subset_equality(perm.to_set(), range);
    assert forall|k: int| 0 <= k < stats.len() implies #[trigger] perm.contains(k) by {
        assert(range.contains(k));
        assert(perm.to_set().contains(k));
    }
    assert forall|p: int| 0 <= p < ranks.len() implies {
        let st = stats[perm[p]];
        &&& (#[trigger] ranks[p]).service_name == st.0
        &&& ranks[p].total_contribution == st.1.total_contribution
        &&& ranks[p].appearance_count == st.1.appearance_count
        &&& ranks[p].critical_path_count == st.1.critical_path_count
        &&& ranks[p].contribution_count == st.1.durations@.len() as usize
    } by {
        assert(ranks[p] == rank_of(stats[perm[p]], ranks[p].bottleneck_score));
    }
}

} // verus!
