//! The analysis of a trace: its span forest, critical path, total duration,
//! services and bottleneck scores.

use vstd::prelude::*;
use vstd::set_lib::lemma_len_subset;
use crate::models::{AnalysisError, CriticalPathNode, Process, ServiceScore, Span, TraceAnalysis, TraceData, lookup_process};
use crate::parser::{child_of, follows_from, producers_fit, sat_sub};
use crate::span_tree::{
    Walk, forest_walk,
    SpanTreeNode, AsyncEdgeInfo, build_span_tree, children_sums_fit, forest_valid, tree_valid, forest_ids,
    tree_ids, node_spans, spans_at, linked_spans, is_walk, has_parent, reachable, span_ids, root_spans,
    async_edges_of, node_expanded, node_repeated, edge_view, linked, is_link_ref, distinct_ids, span_in,
    lemma_linked_spans,
};
use crate::critical_path::{
    WeightedPath, tree_fits, tree_times_ok, tree_paths, forest_paths, consumer_paths, roots_paths,
    with_prefix, fold_best, critical_path_of, mark_bottlenecks, cp_node, edge_delay, scores_fit,
    contribution, producer_share, find_critical_path, calculate_bottleneck_scores, scores_match,
};

verus! {

/// The longest duration of the spans.
pub open spec fn max_span_duration(spans: Seq<Span>) -> u64
    decreases spans.len(),
{
    if spans.len() == 0 {
        0
    } else if spans.last().duration >= max_span_duration(spans.drop_last()) {
        spans.last().duration
    } else {
        max_span_duration(spans.drop_last())
    }
}

/// The latest start of the spans.
pub open spec fn max_span_start(spans: Seq<Span>) -> u64
    decreases spans.len(),
{
    if spans.len() == 0 {
        0
    } else if spans.last().start_time >= max_span_start(spans.drop_last()) {
        spans.last().start_time
    } else {
        max_span_start(spans.drop_last())
    }
}

/// The times of a trace fit the analysis's `u64` arithmetic: the latest
/// start plus the longest duration, and the longest duration once per span
/// (and once more), fit a `u64`; and the children of a span last no longer
/// than a `u64` holds.
pub open spec fn trace_fits(spans: Seq<Span>) -> bool {
    &&& max_span_start(spans) + max_span_duration(spans) <= u64::MAX
    &&& (spans.len() + 1int) * max_span_duration(spans) <= u64::MAX
    &&& spans.len() < 0x4000_0000_0000_0000
    &&& children_sums_fit(spans)
}

/// No span that descends from a root span ends before that root starts.
pub open spec fn roots_first(spans: Seq<Span>) -> bool {
    forall|p: Seq<int>|
        is_walk(spans, p) && !has_parent(spans, spans[p[0]]) ==> spans[p[0]].start_time <= spans[p.last()].start_time
            + spans[p.last()].duration
}

/// The span ids not in `seen`.
pub open spec fn unseen(spans: Seq<Span>, seen: Set<Seq<char>>) -> nat {
    span_ids(spans).difference(seen).len()
}

proof fn lemma_max_bounds(spans: Seq<Span>, k: int)
    requires
        0 <= k < spans.len(),
    ensures
        spans[k].duration <= max_span_duration(spans),
        spans[k].start_time <= max_span_start(spans),
    decreases spans.len(),
{
    if k < spans.len() - 1 {
        lemma_max_bounds(spans.drop_last(), k);
        assert(spans.drop_last()[k] == spans[k]);
    }
}

proof fn lemma_unseen_mono(spans: Seq<Span>, a: Set<Seq<char>>, b: Set<Seq<char>>)
    requires
        a.subset_of(b),
    ensures
        unseen(spans, b) <= unseen(spans, a),
{
    let ids = span_ids(spans);
    assert(ids.finite()) by {
        spans.map_values(|s: Span| s.span_id@).lemma_cardinality_of_set();
    }
    lemma_len_subset(ids.difference(a), ids);
    lemma_len_subset(ids.difference(b), ids.difference(a));
}

proof fn lemma_unseen_insert(spans: Seq<Span>, seen: Set<Seq<char>>, id: Seq<char>)
    requires
        span_ids(spans).contains(id),
        !seen.contains(id),
    ensures
        unseen(spans, seen.insert(id)) + 1 == unseen(spans, seen),
{
    let ids = span_ids(spans);
    assert(ids.finite()) by {
        spans.map_values(|s: Span| s.span_id@).lemma_cardinality_of_set();
    }
    lemma_len_subset(ids.difference(seen), ids);
    assert(ids.difference(seen.insert(id)) =~= ids.difference(seen).remove(id));
    vstd::set::axiom_set_remove_len(ids.difference(seen), id);
}

proof fn lemma_unseen_total(spans: Seq<Span>)
    ensures
        unseen(spans, Set::empty()) <= spans.len(),
{
    let ids = spans.map_values(|s: Span| s.span_id@);
    ids.lemma_cardinality_of_set();
    assert(span_ids(spans).difference(Set::empty()) =~= span_ids(spans));
}

proof fn lemma_in_ids(spans: Seq<Span>, k: int)
    requires
        0 <= k < spans.len(),
    ensures
        span_ids(spans).contains(spans[k].span_id@),
{
    assert(spans.map_values(|s: Span| s.span_id@)[k] == spans[k].span_id@);
}

/// Every index in `linked_spans` is a span index.
proof fn lemma_linked_in_range(spans: Seq<Span>, kind: Seq<char>, id: Seq<char>)
    ensures
        forall|t: int| 0 <= t < linked_spans(spans, kind, id).len() ==> 0 <= #[trigger] linked_spans(spans, kind, id)[t] < spans.len(),
{
    crate::span_tree::lemma_linked_spans(spans, kind, id);
}

/// A tree's nodes stay within the own-time budget of its unseen ids.
proof fn lemma_tree_fits<'a>(spans: Seq<Span>, procs: Seq<(String, Process)>, n: SpanTreeNode<'a>, seen: Set<Seq<char>>, k: int, base: int)
    requires
        tree_valid(spans, procs, n, seen),
        0 <= k < spans.len(),
        *n.span == spans[k],
        0 <= base,
        base + max_span_duration(spans) * unseen(spans, seen) <= u64::MAX,
    ensures
        tree_fits(n, base),
    decreases n,
{
    lemma_max_bounds(spans, k);
    let d = max_span_duration(spans) as int;
    let u = unseen(spans, seen) as int;
    assert(d * u >= 0) by (nonlinear_arith) requires d >= 0 && u >= 0;
    if seen.contains(n.span.span_id@) {
        assert(n.children@.len() == 0 && n.follows_from@.len() == 0);
    } else {
        let id = n.span.span_id@;
        let seen1 = seen.insert(id);
        lemma_in_ids(spans, k);
        lemma_unseen_insert(spans, seen, id);
        assert(n.self_duration <= d);
        let base1 = base + n.self_duration;
        let u1 = unseen(spans, seen1) as int;
        assert(base1 + d * u1 <= u64::MAX) by (nonlinear_arith)
            requires base + d * u <= u64::MAX, u1 + 1 == u, n.self_duration <= d, base1 == base + n.self_duration;
        assert(base + n.self_duration <= u64::MAX) by (nonlinear_arith)
            requires base + d * u <= u64::MAX, u >= 1, n.self_duration <= d, d >= 0;
        lemma_linked_in_range(spans, child_of(), id);
        lemma_linked_in_range(spans, follows_from(), id);
        let lc = linked_spans(spans, child_of(), id);
        let lf = linked_spans(spans, follows_from(), id);
        assert(lc.subrange(0, lc.len() as int) == lc);
        assert(lf.subrange(0, lf.len() as int) == lf);
        assert(node_expanded(spans, procs, n));
        assert(node_spans(n.follows_from@).len() == n.follows_from@.len());
        assert(spans_at(spans, lf).len() == lf.len());
        lemma_forest_fits(spans, procs, n.children@, seen1, lc, base1);
        lemma_unseen_mono(spans, seen1, seen1.union(forest_ids(n.children@)));
        let u2 = unseen(spans, seen1.union(forest_ids(n.children@))) as int;
        assert(base1 + d * u2 <= u64::MAX) by (nonlinear_arith)
            requires base1 + d * u1 <= u64::MAX, u2 <= u1, d >= 0;
        lemma_forest_fits(spans, procs, n.follows_from@, seen1.union(forest_ids(n.children@)), linked_spans(spans, follows_from(), id), base1);
    }
}

/// The trees of a forest stay within the own-time budget of the ids unseen
/// before the forest.
proof fn lemma_forest_fits<'a>(spans: Seq<Span>, procs: Seq<(String, Process)>, ns: Seq<SpanTreeNode<'a>>, seen: Set<Seq<char>>, idx: Seq<int>, base: int)
    requires
        forest_valid(spans, procs, ns, seen),
        ns.len() <= idx.len(),
        forall|t: int| 0 <= t < idx.len() ==> 0 <= #[trigger] idx[t] < spans.len(),
        node_spans(ns) == spans_at(spans, idx.subrange(0, ns.len() as int)),
        0 <= base,
        base + max_span_duration(spans) * unseen(spans, seen) <= u64::MAX,
    ensures
        forall|i: int| 0 <= i < ns.len() ==> tree_fits(#[trigger] ns[i], base),
    decreases ns,
{
    if ns.len() > 0 {
        let last = ns.len() - 1;
        assert forall|i: int| 0 <= i < last implies #[trigger] node_spans(ns.drop_last())[i] == spans_at(spans, idx.subrange(0, last))[i] by {
            assert(ns.drop_last()[i] == ns[i]);
            assert(node_spans(ns.drop_last())[i] == *ns.drop_last()[i].span);
            assert(node_spans(ns)[i] == *ns[i].span);
            assert(node_spans(ns)[i] == spans_at(spans, idx.subrange(0, ns.len() as int))[i]);
            assert(spans_at(spans, idx.subrange(0, ns.len() as int))[i] == spans[idx[i]]);
            assert(spans_at(spans, idx.subrange(0, last))[i] == spans[idx[i]]);
        }
        assert(node_spans(ns.drop_last()) =~= spans_at(spans, idx.subrange(0, last)));
        lemma_forest_fits(spans, procs, ns.drop_last(), seen, idx, base);
        let seen2 = seen.union(forest_ids(ns.drop_last()));
        lemma_unseen_mono(spans, seen, seen2);
        let d = max_span_duration(spans) as int;
        assert(base + d * unseen(spans, seen2) <= u64::MAX) by (nonlinear_arith)
            requires base + d * unseen(spans, seen) <= u64::MAX, unseen(spans, seen2) <= unseen(spans, seen), d >= 0;
        assert(node_spans(ns)[last] == *ns[last].span);
        assert(spans_at(spans, idx.subrange(0, ns.len() as int))[last] == spans[idx[last]]);
        lemma_tree_fits(spans, procs, ns.last(), seen2, idx[last], base);
        assert forall|i: int| 0 <= i < ns.len() implies tree_fits(#[trigger] ns[i], base) by {
            if i < last {
                assert(ns.drop_last()[i] == ns[i]);
            }
        }
    }
}

/// Every node of a tree whose span is reached from a root by `w` ends no
/// earlier than that root starts, and at a time that a `u64` holds.
proof fn lemma_tree_times<'a>(spans: Seq<Span>, procs: Seq<(String, Process)>, n: SpanTreeNode<'a>, seen: Set<Seq<char>>, w: Seq<int>)
    requires
        tree_valid(spans, procs, n, seen),
        is_walk(spans, w),
        !has_parent(spans, spans[w[0]]),
        *n.span == spans[w.last()],
        roots_first(spans),
        max_span_start(spans) + max_span_duration(spans) <= u64::MAX,
    ensures
        tree_times_ok(n, spans[w[0]].start_time as int),
    decreases n,
{
    assert(0 <= w.last() < spans.len()) by {
        assert(w.last() == w[w.len() - 1]);
    }
    lemma_max_bounds(spans, w.last());
    if !seen.contains(n.span.span_id@) {
        let id = n.span.span_id@;
        let seen1 = seen.insert(id);
        let lc = linked_spans(spans, child_of(), id);
        let lf = linked_spans(spans, follows_from(), id);
        assert(lc.subrange(0, lc.len() as int) == lc);
        assert(lf.subrange(0, lf.len() as int) == lf);
        assert(node_expanded(spans, procs, n));
        assert(spans_at(spans, lf).len() == lf.len());
        assert(spans_at(spans, lc).len() == lc.len());
        lemma_forest_times(spans, procs, n.children@, seen1, w, child_of());
        lemma_forest_times(spans, procs, n.follows_from@, seen1.union(forest_ids(n.children@)), w, follows_from());
    }
}

/// The trees of a forest of spans linked to the end of walk `w` keep the
/// root's timing.
proof fn lemma_forest_times<'a>(spans: Seq<Span>, procs: Seq<(String, Process)>, ns: Seq<SpanTreeNode<'a>>, seen: Set<Seq<char>>, w: Seq<int>, kind: Seq<char>)
    requires
        forest_valid(spans, procs, ns, seen),
        kind == child_of() || kind == follows_from(),
        is_walk(spans, w),
        !has_parent(spans, spans[w[0]]),
        0 <= w.last() < spans.len(),
        ns.len() <= linked_spans(spans, kind, spans[w.last()].span_id@).len(),
        node_spans(ns) == spans_at(spans, linked_spans(spans, kind, spans[w.last()].span_id@).subrange(0, ns.len() as int)),
        roots_first(spans),
        max_span_start(spans) + max_span_duration(spans) <= u64::MAX,
    ensures
        forall|i: int| 0 <= i < ns.len() ==> tree_times_ok(#[trigger] ns[i], spans[w[0]].start_time as int),
    decreases ns,
{
    if ns.len() > 0 {
        let last = ns.len() - 1;
        let l = linked_spans(spans, kind, spans[w.last()].span_id@);
        assert forall|i: int| 0 <= i < last implies #[trigger] node_spans(ns.drop_last())[i] == spans_at(spans, l.subrange(0, last))[i] by {
            assert(ns.drop_last()[i] == ns[i]);
            assert(node_spans(ns.drop_last())[i] == *ns.drop_last()[i].span);
            assert(node_spans(ns)[i] == *ns[i].span);
            assert(node_spans(ns)[i] == spans_at(spans, l.subrange(0, ns.len() as int))[i]);
        }
        assert(node_spans(ns.drop_last()) =~= spans_at(spans, l.subrange(0, last)));
        lemma_forest_times(spans, procs, ns.drop_last(), seen, w, kind);
        crate::span_tree::lemma_walk_step(spans, w, kind, last);
        let w2 = w.push(l[last]);
        assert(node_spans(ns)[last] == *ns[last].span);
        assert(*ns.last().span == spans[w2.last()]);
        lemma_tree_times(spans, procs, ns.last(), seen.union(forest_ids(ns.drop_last())), w2);
        assert forall|i: int| 0 <= i < ns.len() implies tree_times_ok(#[trigger] ns[i], spans[w[0]].start_time as int) by {
            if i < last {
                assert(ns.drop_last()[i] == ns[i]);
            }
        }
    }
}

/// A path of at most `len` nodes, none longer than `d` nor waiting longer
/// than `s`.
pub open spec fn path_bounded(p: Seq<CriticalPathNode>, d: u64, s: u64, len: int) -> bool {
    &&& p.len() <= len
    &&& forall|i: int| 0 <= i < p.len() ==> (#[trigger] p[i]).duration <= d
    &&& forall|i: int| 0 <= i < p.len() ==> ((#[trigger] p[i]).async_propagation_delay matches Some(x) ==> x <= s)
}

/// All paths of `ps` are bounded.
pub open spec fn all_bounded(ps: Seq<WeightedPath>, d: u64, s: u64, len: int) -> bool {
    forall|i: int| 0 <= i < ps.len() ==> path_bounded((#[trigger] ps[i]).0, d, s, len)
}

proof fn lemma_all_bounded_concat(a: Seq<WeightedPath>, b: Seq<WeightedPath>, d: u64, s: u64, len: int)
    requires
        all_bounded(a, d, s, len),
        all_bounded(b, d, s, len),
    ensures
        all_bounded(a + b, d, s, len),
{
    assert forall|i: int| 0 <= i < (a + b).len() implies path_bounded(#[trigger] (a + b)[i].0, d, s, len) by {
        if i < a.len() {
            assert((a + b)[i] == a[i]);
        } else {
            assert((a + b)[i] == b[i - a.len()]);
        }
    }
}

proof fn lemma_all_bounded_prefix(me: CriticalPathNode, w: int, ps: Seq<WeightedPath>, d: u64, s: u64, len: int)
    requires
        all_bounded(ps, d, s, len),
        me.duration <= d,
        me.async_propagation_delay matches Some(x) ==> x <= s,
    ensures
        all_bounded(with_prefix(seq![me], w, ps), d, s, len + 1),
{
    assert forall|i: int| 0 <= i < ps.len() implies path_bounded(#[trigger] with_prefix(seq![me], w, ps)[i].0, d, s, len + 1) by {
        let p = seq![me] + ps[i].0;
        assert(with_prefix(seq![me], w, ps)[i].0 == p);
        assert forall|j: int| 0 <= j < p.len() implies (#[trigger] p[j]).duration <= d by {
            if j > 0 {
                assert(p[j] == ps[i].0[j - 1]);
            }
        }
        assert forall|j: int| 0 <= j < p.len() implies ((#[trigger] p[j]).async_propagation_delay matches Some(x) ==> x <= s) by {
            if j > 0 {
                assert(p[j] == ps[i].0[j - 1]);
            }
        }
    }
}

proof fn lemma_all_bounded_mono(ps: Seq<WeightedPath>, d: u64, s: u64, len: int, len2: int)
    requires
        all_bounded(ps, d, s, len),
        len <= len2,
    ensures
        all_bounded(ps, d, s, len2),
{
    assert forall|i: int| 0 <= i < ps.len() implies path_bounded(#[trigger] ps[i].0, d, s, len2) by {
        assert(path_bounded(ps[i].0, d, s, len));
    }
}

/// Every queue latency of the async edges is at most the latest start.
proof fn lemma_edges_bounded(all: Seq<Span>, spans: Seq<Span>)
    requires
        forall|k: int| 0 <= k < spans.len() ==> (#[trigger] spans[k]).start_time <= max_span_start(all),
    ensures
        forall|j: int| 0 <= j < async_edges_of(all, spans).len() ==> (#[trigger] async_edges_of(all, spans)[j]).2 <= max_span_start(all),
    decreases spans.len(),
{
    if spans.len() > 0 {
        assert forall|k: int| 0 <= k < spans.drop_last().len() implies (#[trigger] spans.drop_last()[k]).start_time <= max_span_start(all) by {
            assert(spans.drop_last()[k] == spans[k]);
        }
        lemma_edges_bounded(all, spans.drop_last());
        let c = spans.last();
        assert(c.start_time <= max_span_start(all)) by {
            assert(spans[spans.len() - 1] == c);
        }
        lemma_ref_edges_bounded(all, c, c.references@);
        let a = async_edges_of(all, spans.drop_last());
        let b = crate::span_tree::refs_async_edges(all, c, c.references@);
        assert forall|j: int| 0 <= j < (a + b).len() implies (#[trigger] (a + b)[j]).2 <= max_span_start(all) by {
            if j < a.len() {
                assert((a + b)[j] == a[j]);
            } else {
                assert((a + b)[j] == b[j - a.len()]);
            }
        }
    }
}

proof fn lemma_ref_edges_bounded(all: Seq<Span>, c: Span, refs: Seq<crate::models::Reference>)
    requires
        c.start_time <= max_span_start(all),
    ensures
        forall|j: int| 0 <= j < crate::span_tree::refs_async_edges(all, c, refs).len() ==>
            (#[trigger] crate::span_tree::refs_async_edges(all, c, refs)[j]).2 <= max_span_start(all),
    decreases refs.len(),
{
    if refs.len() > 0 {
        lemma_ref_edges_bounded(all, c, refs.drop_last());
        let prev = crate::span_tree::refs_async_edges(all, c, refs.drop_last());
        let cur = crate::span_tree::refs_async_edges(all, c, refs);
        assert forall|j: int| 0 <= j < cur.len() implies (#[trigger] cur[j]).2 <= max_span_start(all) by {
            if j < prev.len() {
                assert(cur[j] == prev[j]);
            }
        }
    }
}

/// The delay of an async edge is one of the edges' latencies.
proof fn lemma_edge_delay_bounded(edges: Seq<(Span, Span, u64)>, id: Seq<char>, s: u64)
    requires
        forall|j: int| 0 <= j < edges.len() ==> (#[trigger] edges[j]).2 <= s,
    ensures
        edge_delay(edges, id) matches Some(x) ==> x <= s,
    decreases edges.len(),
{
    if edges.len() > 0 && edges[0].1.span_id@ != id {
        assert forall|j: int| 0 <= j < edges.drop_first().len() implies (#[trigger] edges.drop_first()[j]).2 <= s by {
            assert(edges.drop_first()[j] == edges[j + 1]);
        }
        lemma_edge_delay_bounded(edges.drop_first(), id, s);
    }
}

/// The paths of a tree are bounded by the ids it has not seen.
proof fn lemma_tree_paths_bounded<'a>(
    spans: Seq<Span>,
    procs: Seq<(String, Process)>,
    n: SpanTreeNode<'a>,
    seen: Set<Seq<char>>,
    k: int,
    rs: u64,
    a: bool,
    delay: Option<u64>,
    edges: Seq<(Span, Span, u64)>,
)
    requires
        tree_valid(spans, procs, n, seen),
        0 <= k < spans.len(),
        *n.span == spans[k],
        delay matches Some(x) ==> x <= max_span_start(spans),
        forall|j: int| 0 <= j < edges.len() ==> (#[trigger] edges[j]).2 <= max_span_start(spans),
    ensures
        all_bounded(tree_paths(n, rs, a, delay, edges), max_span_duration(spans), max_span_start(spans), unseen(spans, seen) + 1int),
    decreases n,
{
    let d = max_span_duration(spans);
    let ms = max_span_start(spans);
    lemma_max_bounds(spans, k);
    let me = cp_node(n, rs, a, delay);
    let ps = tree_paths(n, rs, a, delay, edges);
    if n.children@.len() == 0 && n.follows_from@.len() == 0 {
        assert(ps == seq![(seq![me], n.self_duration as int)]);
        assert forall|i: int| 0 <= i < ps.len() implies path_bounded(#[trigger] ps[i].0, d, ms, unseen(spans, seen) + 1int) by {
            assert(ps[i].0 == seq![me]);
            assert(seq![me][0] == me);
        }
    } else {
        assert(!seen.contains(n.span.span_id@));
        let id = n.span.span_id@;
        let seen1 = seen.insert(id);
        lemma_in_ids(spans, k);
        lemma_unseen_insert(spans, seen, id);
        let lc = linked_spans(spans, child_of(), id);
        let lf = linked_spans(spans, follows_from(), id);
        assert(lc.subrange(0, lc.len() as int) == lc);
        assert(lf.subrange(0, lf.len() as int) == lf);
        assert(node_expanded(spans, procs, n));
        assert(spans_at(spans, lf).len() == lf.len());
        assert(spans_at(spans, lc).len() == lc.len());
        lemma_linked_in_range(spans, child_of(), id);
        lemma_linked_in_range(spans, follows_from(), id);
        let u1 = unseen(spans, seen1) as int;
        lemma_forest_paths_bounded(spans, procs, n.children@, seen1, lc, rs, edges);
        let seen2 = seen1.union(forest_ids(n.children@));
        lemma_consumer_paths_bounded(spans, procs, n.follows_from@, seen2, lf, rs, edges);
        lemma_unseen_mono(spans, seen1, seen2);
        let f = forest_paths(n.children@, rs, edges);
        let c = consumer_paths(n.follows_from@, rs, edges);
        lemma_all_bounded_mono(c, d, ms, unseen(spans, seen2) + 1int, u1 + 1);
        lemma_all_bounded_concat(f, c, d, ms, u1 + 1);
        lemma_all_bounded_prefix(me, n.self_duration as int, f + c, d, ms, u1 + 1);
    }
}

/// The paths of a forest of children are bounded by the ids unseen before it.
proof fn lemma_forest_paths_bounded<'a>(
    spans: Seq<Span>,
    procs: Seq<(String, Process)>,
    ns: Seq<SpanTreeNode<'a>>,
    seen: Set<Seq<char>>,
    idx: Seq<int>,
    rs: u64,
    edges: Seq<(Span, Span, u64)>,
)
    requires
        forest_valid(spans, procs, ns, seen),
        ns.len() <= idx.len(),
        forall|t: int| 0 <= t < idx.len() ==> 0 <= #[trigger] idx[t] < spans.len(),
        node_spans(ns) == spans_at(spans, idx.subrange(0, ns.len() as int)),
        forall|j: int| 0 <= j < edges.len() ==> (#[trigger] edges[j]).2 <= max_span_start(spans),
    ensures
        all_bounded(forest_paths(ns, rs, edges), max_span_duration(spans), max_span_start(spans), unseen(spans, seen) + 1int),
    decreases ns,
{
    if ns.len() > 0 {
        let last = ns.len() - 1;
        assert forall|i: int| 0 <= i < last implies #[trigger] node_spans(ns.drop_last())[i] == spans_at(spans, idx.subrange(0, last))[i] by {
            assert(ns.drop_last()[i] == ns[i]);
            assert(node_spans(ns.drop_last())[i] == *ns.drop_last()[i].span);
            assert(node_spans(ns)[i] == *ns[i].span);
            assert(node_spans(ns)[i] == spans_at(spans, idx.subrange(0, ns.len() as int))[i]);
        }
        assert(node_spans(ns.drop_last()) =~= spans_at(spans, idx.subrange(0, last)));
        lemma_forest_paths_bounded(spans, procs, ns.drop_last(), seen, idx, rs, edges);
        let seen2 = seen.union(forest_ids(ns.drop_last()));
        lemma_unseen_mono(spans, seen, seen2);
        assert(node_spans(ns)[last] == *ns[last].span);
        lemma_tree_paths_bounded(spans, procs, ns.last(), seen2, idx[last], rs, false, None, edges);
        let d = max_span_duration(spans);
        let ms = max_span_start(spans);
        lemma_all_bounded_mono(tree_paths(ns.last(), rs, false, None, edges), d, ms, unseen(spans, seen2) + 1int, unseen(spans, seen) + 1int);
        lemma_all_bounded_concat(forest_paths(ns.drop_last(), rs, edges), tree_paths(ns.last(), rs, false, None, edges), d, ms, unseen(spans, seen) + 1int);
    }
}

/// The paths of a forest of consumers are bounded by the ids unseen before it.
proof fn lemma_consumer_paths_bounded<'a>(
    spans: Seq<Span>,
    procs: Seq<(String, Process)>,
    ns: Seq<SpanTreeNode<'a>>,
    seen: Set<Seq<char>>,
    idx: Seq<int>,
    rs: u64,
    edges: Seq<(Span, Span, u64)>,
)
    requires
        forest_valid(spans, procs, ns, seen),
        ns.len() <= idx.len(),
        forall|t: int| 0 <= t < idx.len() ==> 0 <= #[trigger] idx[t] < spans.len(),
        node_spans(ns) == spans_at(spans, idx.subrange(0, ns.len() as int)),
        forall|j: int| 0 <= j < edges.len() ==> (#[trigger] edges[j]).2 <= max_span_start(spans),
    ensures
        all_bounded(consumer_paths(ns, rs, edges), max_span_duration(spans), max_span_start(spans), unseen(spans, seen) + 1int),
    decreases ns,
{
    if ns.len() > 0 {
        let last = ns.len() - 1;
        assert forall|i: int| 0 <= i < last implies #[trigger] node_spans(ns.drop_last())[i] == spans_at(spans, idx.subrange(0, last))[i] by {
            assert(ns.drop_last()[i] == ns[i]);
            assert(node_spans(ns.drop_last())[i] == *ns.drop_last()[i].span);
            assert(node_spans(ns)[i] == *ns[i].span);
            assert(node_spans(ns)[i] == spans_at(spans, idx.subrange(0, ns.len() as int))[i]);
        }
        assert(node_spans(ns.drop_last()) =~= spans_at(spans, idx.subrange(0, last)));
        lemma_consumer_paths_bounded(spans, procs, ns.drop_last(), seen, idx, rs, edges);
        let seen2 = seen.union(forest_ids(ns.drop_last()));
        lemma_unseen_mono(spans, seen, seen2);
        assert(node_spans(ns)[last] == *ns[last].span);
        let dl = edge_delay(edges, ns.last().span.span_id@);
        lemma_edge_delay_bounded(edges, ns.last().span.span_id@, max_span_start(spans));
        lemma_tree_paths_bounded(spans, procs, ns.last(), seen2, idx[last], rs, true, dl, edges);
        let d = max_span_duration(spans);
        let ms = max_span_start(spans);
        lemma_all_bounded_mono(tree_paths(ns.last(), rs, true, dl, edges), d, ms, unseen(spans, seen2) + 1int, unseen(spans, seen) + 1int);
        lemma_all_bounded_concat(consumer_paths(ns.drop_last(), rs, edges), tree_paths(ns.last(), rs, true, dl, edges), d, ms, unseen(spans, seen) + 1int);
    }
}

/// The best path is the initial one or one of the candidates.
proof fn lemma_fold_member(init: WeightedPath, ps: Seq<WeightedPath>)
    ensures
        fold_best(init, ps) == init || exists|i: int| 0 <= i < ps.len() && fold_best(init, ps) == ps[i],
    decreases ps.len(),
{
    if ps.len() > 0 {
        lemma_fold_member(init, ps.drop_last());
        if fold_best(init, ps.drop_last()) != init {
            let i = choose|i: int| 0 <= i < ps.drop_last().len() && fold_best(init, ps.drop_last()) == ps.drop_last()[i];
            assert(ps.drop_last()[i] == ps[i]);
        }
        assert(ps.last() == ps[ps.len() - 1]);
    }
}

/// The root spans are spans without parent or producer.
proof fn lemma_root_spans(all: Seq<Span>, spans: Seq<Span>)
    ensures
        forall|i: int| 0 <= i < root_spans(all, spans).len() ==> exists|k: int|
            0 <= k < spans.len() && #[trigger] root_spans(all, spans)[i] == spans[k] && !has_parent(all, spans[k]),
    decreases spans.len(),
{
    if spans.len() > 0 {
        lemma_root_spans(all, spans.drop_last());
        let prev = root_spans(all, spans.drop_last());
        assert forall|i: int| 0 <= i < root_spans(all, spans).len() implies exists|k: int|
            0 <= k < spans.len() && #[trigger] root_spans(all, spans)[i] == spans[k] && !has_parent(all, spans[k]) by {
            if i < prev.len() {
                let k = choose|k: int| 0 <= k < spans.drop_last().len() && #[trigger] prev[i] == spans.drop_last()[k] && !has_parent(all, spans.drop_last()[k]);
                assert(spans.drop_last()[k] == spans[k]);
                assert(root_spans(all, spans)[i] == prev[i]);
            } else {
                assert(root_spans(all, spans)[i] == spans[spans.len() - 1]);
            }
        }
    }
}

/// A producer share is at most the number of nodes times the longest node.
proof fn lemma_share_bound(p: Seq<CriticalPathNode>, s: Seq<char>, d: u64)
    requires
        forall|i: int| 0 <= i < p.len() ==> (#[trigger] p[i]).duration <= d,
    ensures
        0 <= producer_share(p, s) <= p.len() * d,
    decreases p.len(),
{
    if p.len() > 0 {
        assert forall|i: int| 0 <= i < p.drop_last().len() implies (#[trigger] p.drop_last()[i]).duration <= d by {
            assert(p.drop_last()[i] == p[i]);
        }
        lemma_share_bound(p.drop_last(), s, d);
        assert(p.last().duration <= d) by {
            assert(p[p.len() - 1] == p.last());
        }
        assert((p.len() - 1) * (d as int) + (d as int) == p.len() * (d as int)) by (nonlinear_arith);
    }
}

/// The roots of a forest built from a trace that fits meet what the
/// critical path needs, and its paths are bounded.
proof fn lemma_roots_ok<'a>(spans: Seq<Span>, procs: Seq<(String, Process)>, roots: Seq<SpanTreeNode<'a>>, edges: Seq<(Span, Span, u64)>)
    requires
        forest_valid(spans, procs, roots, Set::empty()),
        forall|i: int| 0 <= i < roots.len() ==> exists|k: int|
            0 <= k < spans.len() && *(#[trigger] roots[i]).span == spans[k] && !has_parent(spans, spans[k]),
        trace_fits(spans),
        roots_first(spans),
        forall|j: int| 0 <= j < edges.len() ==> (#[trigger] edges[j]).2 <= max_span_start(spans),
    ensures
        forall|i: int| 0 <= i < roots.len() ==> tree_fits(#[trigger] roots[i], 0),
        forall|i: int| 0 <= i < roots.len() ==> tree_times_ok(#[trigger] roots[i], roots[i].span.start_time as int),
        all_bounded(roots_paths(roots, edges), max_span_duration(spans), max_span_start(spans), spans.len() + 1int),
    decreases roots.len(),
{
    if roots.len() > 0 {
        let last = roots.len() - 1;
        assert forall|i: int| 0 <= i < roots.drop_last().len() implies exists|k: int|
            0 <= k < spans.len() && *(#[trigger] roots.drop_last()[i]).span == spans[k] && !has_parent(spans, spans[k]) by {
            assert(roots.drop_last()[i] == roots[i]);
        }
        lemma_roots_ok(spans, procs, roots.drop_last(), edges);
        let r = roots.last();
        assert(r == roots[last]);
        let k = choose|k: int| 0 <= k < spans.len() && *roots[last].span == spans[k] && !has_parent(spans, spans[k]);
        let seen = Set::<Seq<char>>::empty().union(forest_ids(roots.drop_last()));
        lemma_unseen_mono(spans, Set::empty(), seen);
        lemma_unseen_total(spans);
        let d = max_span_duration(spans) as int;
        let u = unseen(spans, seen) as int;
        assert(0 + d * u <= u64::MAX) by (nonlinear_arith)
            requires (spans.len() + 1int) * d <= u64::MAX, u <= spans.len(), d >= 0, u >= 0;
        lemma_tree_fits(spans, procs, r, seen, k, 0);
        let w = seq![k];
        assert(is_walk(spans, w));
        lemma_tree_times(spans, procs, r, seen, w);
        lemma_tree_paths_bounded(spans, procs, r, seen, k, r.span.start_time, false, None, edges);
        let ms = max_span_start(spans);
        lemma_all_bounded_mono(tree_paths(r, r.span.start_time, false, None, edges), d as u64, ms, u + 1, spans.len() + 1int);
        lemma_all_bounded_concat(roots_paths(roots.drop_last(), edges), tree_paths(r, r.span.start_time, false, None, edges), d as u64, ms, spans.len() + 1int);
        assert forall|i: int| 0 <= i < roots.len() implies tree_fits(#[trigger] roots[i], 0) && tree_times_ok(roots[i], roots[i].span.start_time as int) by {
            if i < last {
                assert(roots.drop_last()[i] == roots[i]);
            }
        }
    }
}

/// The critical path of a trace that fits meets what the scores need.
proof fn lemma_path_scores_fit<'a>(spans: Seq<Span>, roots: Seq<SpanTreeNode<'a>>, edges: Seq<(Span, Span, u64)>)
    requires
        all_bounded(roots_paths(roots, edges), max_span_duration(spans), max_span_start(spans), spans.len() + 1int),
        trace_fits(spans),
    ensures
        scores_fit(critical_path_of(roots, edges)),
        critical_path_of(roots, edges).len() <= 0x4000_0000_0000_0000,
        path_bounded(critical_path_of(roots, edges), max_span_duration(spans), max_span_start(spans), spans.len() + 1int),
{
    let ps = roots_paths(roots, edges);
    let init: WeightedPath = (Seq::empty(), 0);
    lemma_fold_member(init, ps);
    let best = fold_best(init, ps).0;
    let d = max_span_duration(spans);
    let ms = max_span_start(spans);
    assert(path_bounded(best, d, ms, spans.len() + 1int)) by {
        if fold_best(init, ps) != init {
            let i = choose|i: int| 0 <= i < ps.len() && fold_best(init, ps) == ps[i];
            assert(path_bounded(ps[i].0, d, ms, spans.len() + 1int));
        }
    }
    let p = critical_path_of(roots, edges);
    assert(p == mark_bottlenecks(best));
    assert forall|i: int| 0 <= i < p.len() implies (#[trigger] p[i]).duration <= d && contribution(p[i]) <= u64::MAX
        && (p[i].async_propagation_delay matches Some(x) ==> x <= ms) by {
        assert(p[i].duration == best[i].duration);
        assert(p[i].async_propagation_delay == best[i].async_propagation_delay);
        assert(best[i].duration <= d);
    }
    assert forall|s: Seq<char>| producer_share(p, s) <= u64::MAX by {
        lemma_share_bound(p, s, d);
        assert(p.len() * (d as int) <= (spans.len() + 1int) * (d as int)) by (nonlinear_arith)
            requires p.len() <= spans.len() + 1, d >= 0;
    }
}

/// The distinct service names of the processes, in order of first
/// appearance.
pub open spec fn process_services(procs: Seq<(String, Process)>) -> Seq<Seq<char>>
    decreases procs.len(),
{
    if procs.len() == 0 {
        Seq::empty()
    } else if process_services(procs.drop_last()).contains(procs.last().1.service_name@) {
        process_services(procs.drop_last())
    } else {
        process_services(procs.drop_last()).push(procs.last().1.service_name@)
    }
}

/// The longest span duration of a trace, or 0.
fn max_duration_of(spans: &Vec<Span>) -> (res: u64)
    ensures
        res == max_span_duration(spans@),
{
    let mut m: u64 = 0;
    for i in 0..spans.len()
        invariant
            m == max_span_duration(spans@.subrange(0, i as int)),
    {
        assert(spans@.subrange(0, i + 1).drop_last() == spans@.subrange(0, i as int));
        if spans[i].duration >= m {
            m = spans[i].duration;
        }
    }
    assert(spans@.subrange(0, spans@.len() as int) == spans@);
    m
}

/// The distinct service names of the processes, in order.
fn services_of(procs: &Vec<(String, Process)>) -> (res: Vec<String>)
    ensures
        res@.map_values(|s: String| s@) == process_services(procs@),
{
    let mut out: Vec<String> = Vec::new();
    for i in 0..procs.len()
        invariant
            out@.map_values(|s: String| s@) == process_services(procs@.subrange(0, i as int)),
    {
        let ghost pre = procs@.subrange(0, i as int);
        assert(procs@.subrange(0, i + 1).drop_last() == pre);
        assert(procs@.subrange(0, i + 1).last() == procs@[i as int]);
        let name = &procs[i].1.service_name;
        let mut found = false;
        let mut j: usize = 0;
        while j < out.len()
            invariant
                j <= out@.len(),
                found == exists|t: int| 0 <= t < j && out@[t]@ == name@,
            decreases out.len() - j,
        {
            if out[j] == *name {
                found = true;
            }
            j = j + 1;
        }
        let ghost before = out@;
        proof {
            let v = before.map_values(|s: String| s@);
            if found {
                let t = choose|t: int| 0 <= t < j && out@[t]@ == name@;
                assert(v[t] == name@);
            } else {
                assert(!v.contains(name@)) by {
                    if v.contains(name@) {
                        let t = choose|t: int| 0 <= t < v.len() && v[t] == name@;
                        assert(out@[t]@ == name@);
                    }
                }
            }
        }
        if !found {
            out.push(name.clone());
            assert(out@.map_values(|s: String| s@) =~= before.map_values(|s: String| s@).push(name@));
        }
    }
    assert(procs@.subrange(0, procs@.len() as int) == procs@);
    out
}

/// Analyzes one trace: builds its span forest, finds its critical path,
/// takes its longest span duration as its total duration, lists the
/// distinct services of its processes, and scores the services of the
/// critical path. The result is an error only where a span reachable from a
/// root has no process: the first such span met depth first.
pub fn analyze_trace<'a>(trace_data: &'a TraceData) -> (res: Result<TraceAnalysis, AnalysisError>)
    requires
        trace_fits(trace_data.spans@),
        roots_first(trace_data.spans@),
    ensures
        match res {
            Ok(a) => {
                &&& a.trace_id == trace_data.trace_id
                &&& a.total_duration == max_span_duration(trace_data.spans@)
                &&& a.services@.map_values(|s: String| s@) == process_services(trace_data.processes@)
                &&& exists|f: Seq<SpanTreeNode<'a>>|
                    node_spans(f) == root_spans(trace_data.spans@, trace_data.spans@)
                        && forest_valid(trace_data.spans@, trace_data.processes@, f, Set::empty())
                        && a.critical_path@ == critical_path_of(f, async_edges_of(trace_data.spans@, trace_data.spans@))
                &&& scores_match(a.critical_path@, a.total_duration, a.bottleneck_scores@)
                &&& path_bounded(
                    a.critical_path@,
                    max_span_duration(trace_data.spans@),
                    max_span_start(trace_data.spans@),
                    trace_data.spans@.len() + 1int,
                )
            },
            Err(e) => trace_fails(*trace_data, e),
        },
        (forall|m: int| reachable(trace_data.spans@, m) ==> lookup_process(trace_data.processes@, trace_data.spans@[m].process_id@) is Some)
            ==> res is Ok,
        distinct_ids(trace_data.spans@) && res is Ok ==> processes_complete(*trace_data),
{
    let ghost spans = trace_data.spans@;
    proof {
        lemma_producers_fit(spans);
    }
    let (roots, async_edges) = match build_span_tree(trace_data.spans.as_slice(), &trace_data.processes) {
        Ok(r) => r,
        Err(e) => {
            return Err(e);
        },
    };
    let ghost edges = async_edges@.map_values(|e: AsyncEdgeInfo<'a>| edge_view(e));
    proof {
        assert forall|k: int| 0 <= k < spans.len() implies (#[trigger] spans[k]).start_time <= max_span_start(spans) by {
            lemma_max_bounds(spans, k);
        }
        lemma_edges_bounded(spans, spans);
        lemma_root_spans(spans, spans);
        assert forall|i: int| 0 <= i < roots@.len() implies exists|k: int|
            0 <= k < spans.len() && *(#[trigger] roots@[i]).span == spans[k] && !has_parent(spans, spans[k]) by {
            assert(node_spans(roots@)[i] == *roots@[i].span);
            assert(root_spans(spans, spans)[i] == node_spans(roots@)[i]);
        }
        lemma_roots_ok(spans, trace_data.processes@, roots@, edges);
        lemma_path_scores_fit(spans, roots@, edges);
    }
    let critical_path = match find_critical_path(roots.as_slice(), async_edges.as_slice(), &trace_data.processes) {
        Ok(p) => p,
        Err(e) => {
            return Err(e);
        },
    };
    let total_duration = max_duration_of(&trace_data.spans);
    let services = services_of(&trace_data.processes);
    let bottleneck_scores = calculate_bottleneck_scores(critical_path.as_slice(), total_duration);
    Ok(TraceAnalysis {
        trace_id: trace_data.trace_id.clone(),
        total_duration,
        services,
        critical_path,
        bottleneck_scores,
    })
}

/// A trace that fits has producers that end within a `u64`.
pub proof fn lemma_producers_fit(spans: Seq<Span>)
    requires
        trace_fits(spans),
    ensures
        producers_fit(spans),
{
    assert forall|k: int, j: int|
        0 <= k < spans.len() && 0 <= j < spans[k].references@.len()
            && (#[trigger] spans[k].references@[j]).ref_type@ == follows_from()
            implies match crate::models::last_span_with_id(spans, spans[k].references@[j].span_id@) {
            None => true,
            Some(p) => spans[p].start_time + spans[p].duration <= u64::MAX,
        } by {
        match crate::models::last_span_with_id(spans, spans[k].references@[j].span_id@) {
            None => {},
            Some(p) => {
                lemma_last_span_in_range(spans, spans[k].references@[j].span_id@);
                lemma_max_bounds(spans, p);
            },
        }
    }
}

/// The last span with an id is a span.
proof fn lemma_last_span_in_range(spans: Seq<Span>, id: Seq<char>)
    ensures
        crate::models::last_span_with_id(spans, id) matches Some(p) ==> 0 <= p < spans.len(),
    decreases spans.len(),
{
    if spans.len() > 0 {
        lemma_last_span_in_range(spans.drop_last(), id);
    }
}

/// Analyzes each trace in turn; the first error stops the run.
pub fn analyze_all_traces(traces: &[TraceData]) -> (res: Result<Vec<TraceAnalysis>, AnalysisError>)
    requires
        forall|i: int| 0 <= i < traces@.len() ==> trace_fits((#[trigger] traces@[i]).spans@) && roots_first(traces@[i].spans@),
    ensures
        match res {
            Ok(v) => v@.len() == traces@.len() && forall|i: int| 0 <= i < v@.len() ==> analysis_of(#[trigger] traces@[i], v@[i]),
            Err(e) => exists|i: int|
                0 <= i < traces@.len() && trace_fails(#[trigger] traces@[i], e) && forall|j: int|
                    0 <= j < i ==> analysable(#[trigger] traces@[j]),
        },
        (forall|i: int| 0 <= i < traces@.len() ==> processes_complete(#[trigger] traces@[i])) ==> res is Ok,
        res is Ok ==> forall|i: int|
            0 <= i < traces@.len() && distinct_ids(traces@[i].spans@) ==> processes_complete(#[trigger] traces@[i]),
{
    let mut out: Vec<TraceAnalysis> = Vec::new();
    for i in 0..traces.len()
        invariant
            forall|i: int| 0 <= i < traces@.len() ==> trace_fits((#[trigger] traces@[i]).spans@) && roots_first(traces@[i].spans@),
            out@.len() == i,
            forall|j: int| 0 <= j < i ==> analysis_of(#[trigger] traces@[j], out@[j]),
            forall|j: int| 0 <= j < i && distinct_ids(traces@[j].spans@) ==> processes_complete(#[trigger] traces@[j]),
    {
        let t = &traces[i];
        match analyze_trace(t) {
            Ok(a) => {
                out.push(a);
            },
            Err(e) => {
                proof {
                    assert(trace_fails(traces@[i as int], e));
                    assert forall|j: int| 0 <= j < i implies analysable(#[trigger] traces@[j]) by {
                        assert(analysis_of(traces@[j], out@[j]));
                    }
                }
                return Err(e);
            },
        }
    }
    Ok(out)
}

/// `a` is the analysis of trace `td`: what `analyze_trace` promises of a
/// success.
pub open spec fn analysis_of(td: TraceData, a: TraceAnalysis) -> bool {
    &&& a.trace_id == td.trace_id
    &&& a.total_duration == max_span_duration(td.spans@)
    &&& a.services@.map_values(|s: String| s@) == process_services(td.processes@)
    &&& exists|f: Seq<SpanTreeNode>|
        node_spans(f) == root_spans(td.spans@, td.spans@) && forest_valid(td.spans@, td.processes@, f, Set::empty())
            && a.critical_path@ == critical_path_of(f, async_edges_of(td.spans@, td.spans@))
    &&& scores_match(a.critical_path@, a.total_duration, a.bottleneck_scores@)
    &&& path_bounded(a.critical_path@, max_span_duration(td.spans@), max_span_start(td.spans@), td.spans@.len() + 1int)
}

/// Trace `td` has an analysis.
pub open spec fn analysable(td: TraceData) -> bool {
    exists|a: TraceAnalysis| #[trigger] analysis_of(td, a)
}

/// Every span reachable from a root of trace `td` has its process.
pub open spec fn processes_complete(td: TraceData) -> bool {
    forall|m: int| reachable(td.spans@, m) ==> lookup_process(td.processes@, td.spans@[m].process_id@) is Some
}

/// Trace `td` fails the analysis with error `e`: a span reachable from a
/// root has no process, and `e` names the first such span that a depth-first
/// walk of the span forest meets.
pub open spec fn trace_fails(td: TraceData, e: AnalysisError) -> bool {
    &&& exists|m: int|
        reachable(td.spans@, m) && lookup_process(td.processes@, td.spans@[m].process_id@) is None && e
            == AnalysisError::ProcessNotFound { span_id: td.spans@[m].span_id }
    &&& forest_walk(td.spans@, td.processes@) matches Walk::Missing(m) && e == AnalysisError::ProcessNotFound {
        span_id: m.span_id,
    }
}


/// No node of a trace's critical path lasts longer than the trace's total
/// duration (its longest span).
pub proof fn law_path_nodes_within_total(td: TraceData, a: TraceAnalysis)
    requires
        analysis_of(td, a),
    ensures
        forall|i: int| 0 <= i < a.critical_path@.len() ==> (#[trigger] a.critical_path@[i]).duration <= a.total_duration,
{
}


/// Every span starts no earlier than the spans it points at.
pub open spec fn starts_after_links(spans: Seq<Span>) -> bool {
    forall|k: int, m: int| #[trigger] linked(spans, k, m) ==> spans[k].start_time <= spans[m].start_time
}

/// The nodes below each node of a tree start no earlier than it.
pub open spec fn tree_ordered<'a>(n: SpanTreeNode<'a>) -> bool
    decreases n,
{
    forest_ordered(n.children@, n.span.start_time) && forest_ordered(n.follows_from@, n.span.start_time)
}

/// Each tree of a forest starts no earlier than `lo` and is ordered.
pub open spec fn forest_ordered<'a>(ns: Seq<SpanTreeNode<'a>>, lo: u64) -> bool
    decreases ns,
{
    if ns.len() == 0 {
        true
    } else {
        forest_ordered(ns.drop_last(), lo) && ns.last().span.start_time >= lo && tree_ordered(ns.last())
    }
}

/// The nodes of a path start in order.
pub open spec fn time_sorted(p: Seq<CriticalPathNode>) -> bool {
    forall|a: int, b: int| 0 <= a < b < p.len() ==> p[a].start_time <= p[b].start_time
}

/// The spans below an expanded node point at its span.
proof fn lemma_below_linked<'a>(spans: Seq<Span>, procs: Seq<(String, Process)>, n: SpanTreeNode<'a>, k: int)
    requires
        node_expanded(spans, procs, n),
        0 <= k < spans.len(),
        *n.span == spans[k],
    ensures
        forall|t: int| #![trigger n.children@[t]] 0 <= t < n.children@.len() ==> exists|m: int| #[trigger] linked(spans, k, m) && *n.children@[t].span == spans[m],
        forall|t: int| #![trigger n.follows_from@[t]] 0 <= t < n.follows_from@.len() ==> exists|m: int| #[trigger] linked(spans, k, m) && *n.follows_from@[t].span == spans[m],
{
    let id = n.span.span_id@;
    lemma_linked_spans(spans, child_of(), id);
    lemma_linked_spans(spans, follows_from(), id);
    assert forall|t: int| #![trigger n.children@[t]] 0 <= t < n.children@.len() implies exists|m: int| #[trigger] linked(spans, k, m) && *n.children@[t].span == spans[m] by {
        let ls = linked_spans(spans, child_of(), id);
        assert(node_spans(n.children@)[t] == spans_at(spans, ls)[t]);
        assert(node_spans(n.children@)[t] == *n.children@[t].span);
        let m = ls[t];
        let j = choose|j: int|
            0 <= j < spans[m].references@.len() && (#[trigger] spans[m].references@[j]).ref_type@ == child_of()
                && spans[m].references@[j].span_id@ == id;
        assert(is_link_ref(spans[m].references@[j]));
        assert(linked(spans, k, m));
    }
    assert forall|t: int| #![trigger n.follows_from@[t]] 0 <= t < n.follows_from@.len() implies exists|m: int| #[trigger] linked(spans, k, m) && *n.follows_from@[t].span == spans[m] by {
        let ls = linked_spans(spans, follows_from(), id);
        assert(node_spans(n.follows_from@).len() == ls.len());
        assert(node_spans(n.follows_from@)[t] == spans_at(spans, ls)[t]);
        assert(node_spans(n.follows_from@)[t] == *n.follows_from@[t].span);
        let m = ls[t];
        let j = choose|j: int|
            0 <= j < spans[m].references@.len() && (#[trigger] spans[m].references@[j]).ref_type@ == follows_from()
                && spans[m].references@[j].span_id@ == id;
        assert(is_link_ref(spans[m].references@[j]));
        assert(linked(spans, k, m));
    }
}

/// A valid tree over time-ordered spans is ordered.
proof fn lemma_tree_ordered<'a>(spans: Seq<Span>, procs: Seq<(String, Process)>, n: SpanTreeNode<'a>, seen: Set<Seq<char>>)
    requires
        starts_after_links(spans),
        tree_valid(spans, procs, n, seen),
        span_in(spans, n),
    ensures
        tree_ordered(n),
    decreases n,
{
    if seen.contains(n.span.span_id@) {
        assert(forest_ordered(n.children@, n.span.start_time));
        assert(forest_ordered(n.follows_from@, n.span.start_time));
    } else {
        let seen1 = seen.insert(n.span.span_id@);
        let k = choose|k: int| 0 <= k < spans.len() && *n.span == #[trigger] spans[k];
        lemma_below_linked(spans, procs, n, k);
        assert forall|t: int| 0 <= t < n.children@.len() implies span_in(spans, #[trigger] n.children@[t])
            && n.children@[t].span.start_time >= n.span.start_time by {
            let m = choose|m: int| #[trigger] linked(spans, k, m) && *n.children@[t].span == spans[m];
        }
        assert forall|t: int| 0 <= t < n.follows_from@.len() implies span_in(spans, #[trigger] n.follows_from@[t])
            && n.follows_from@[t].span.start_time >= n.span.start_time by {
            let m = choose|m: int| #[trigger] linked(spans, k, m) && *n.follows_from@[t].span == spans[m];
        }
        lemma_forest_ordered(spans, procs, n.children@, seen1, n.span.start_time);
        lemma_forest_ordered(spans, procs, n.follows_from@, seen1.union(forest_ids(n.children@)), n.span.start_time);
    }
}

/// A valid forest over time-ordered spans, whose trees start no earlier
/// than `lo`, is ordered.
proof fn lemma_forest_ordered<'a>(spans: Seq<Span>, procs: Seq<(String, Process)>, ns: Seq<SpanTreeNode<'a>>, seen: Set<Seq<char>>, lo: u64)
    requires
        starts_after_links(spans),
        forest_valid(spans, procs, ns, seen),
        forall|t: int| 0 <= t < ns.len() ==> span_in(spans, #[trigger] ns[t]) && ns[t].span.start_time >= lo,
    ensures
        forest_ordered(ns, lo),
    decreases ns,
{
    if ns.len() > 0 {
        let d = ns.drop_last();
        assert forall|t: int| 0 <= t < d.len() implies span_in(spans, #[trigger] d[t]) && d[t].span.start_time >= lo by {
            assert(d[t] == ns[t]);
        }
        lemma_forest_ordered(spans, procs, d, seen, lo);
        assert(ns.last() == ns[ns.len() - 1]);
        lemma_tree_ordered(spans, procs, ns.last(), seen.union(forest_ids(d)));
    }
}

/// The paths of an ordered tree start at its root's start and run forward
/// in time.
proof fn lemma_tree_paths_sorted<'a>(n: SpanTreeNode<'a>, rs: u64, is_async: bool, delay: Option<u64>, edges: Seq<(Span, Span, u64)>)
    requires
        tree_ordered(n),
    ensures
        forall|i: int| 0 <= i < tree_paths(n, rs, is_async, delay, edges).len() ==> {
            let p = #[trigger] tree_paths(n, rs, is_async, delay, edges)[i].0;
            p.len() >= 1 && p[0].start_time == n.span.start_time && time_sorted(p)
        },
    decreases n,
{
    if !(n.children@.len() == 0 && n.follows_from@.len() == 0) {
        let me = cp_node(n, rs, is_async, delay);
        let fp = forest_paths(n.children@, rs, edges);
        let cp = consumer_paths(n.follows_from@, rs, edges);
        lemma_forest_paths_sorted(n.children@, rs, edges, n.span.start_time);
        lemma_consumer_paths_sorted(n.follows_from@, rs, edges, n.span.start_time);
        let all = fp + cp;
        let tp = tree_paths(n, rs, is_async, delay, edges);
        assert(tp == with_prefix(seq![me], n.self_duration as int, all));
        assert forall|i: int| 0 <= i < tp.len() implies {
            let p = #[trigger] tp[i].0;
            p.len() >= 1 && p[0].start_time == n.span.start_time && time_sorted(p)
        } by {
            let q = all[i].0;
            assert(q.len() >= 1 && q[0].start_time >= n.span.start_time && time_sorted(q)) by {
                if i < fp.len() {
                    assert(all[i] == fp[i]);
                } else {
                    assert(all[i] == cp[i - fp.len()]);
                }
            }
            let p = seq![me] + q;
            assert(tp[i].0 == p);
            assert forall|a: int, b: int| 0 <= a < b < p.len() implies p[a].start_time <= p[b].start_time by {
                if a == 0 {
                    assert(p[b] == q[b - 1]);
                    assert(q[0].start_time <= q[b - 1].start_time);
                } else {
                    assert(p[a] == q[a - 1] && p[b] == q[b - 1]);
                }
            }
        }
    }
}

/// The paths of an ordered forest start no earlier than `lo` and run
/// forward in time.
proof fn lemma_forest_paths_sorted<'a>(ns: Seq<SpanTreeNode<'a>>, rs: u64, edges: Seq<(Span, Span, u64)>, lo: u64)
    requires
        forest_ordered(ns, lo),
    ensures
        forall|i: int| 0 <= i < forest_paths(ns, rs, edges).len() ==> {
            let p = #[trigger] forest_paths(ns, rs, edges)[i].0;
            p.len() >= 1 && p[0].start_time >= lo && time_sorted(p)
        },
    decreases ns,
{
    if ns.len() > 0 {
        lemma_forest_paths_sorted(ns.drop_last(), rs, edges, lo);
        lemma_tree_paths_sorted(ns.last(), rs, false, None, edges);
        let a = forest_paths(ns.drop_last(), rs, edges);
        let b = tree_paths(ns.last(), rs, false, None, edges);
        assert forall|i: int| 0 <= i < (a + b).len() implies {
            let p = #[trigger] (a + b)[i].0;
            p.len() >= 1 && p[0].start_time >= lo && time_sorted(p)
        } by {
            if i < a.len() {
                assert((a + b)[i] == a[i]);
            } else {
                assert((a + b)[i] == b[i - a.len()]);
            }
        }
    }
}

/// The paths of an ordered list of consumers start no earlier than `lo`
/// and run forward in time.
proof fn lemma_consumer_paths_sorted<'a>(ns: Seq<SpanTreeNode<'a>>, rs: u64, edges: Seq<(Span, Span, u64)>, lo: u64)
    requires
        forest_ordered(ns, lo),
    ensures
        forall|i: int| 0 <= i < consumer_paths(ns, rs, edges).len() ==> {
            let p = #[trigger] consumer_paths(ns, rs, edges)[i].0;
            p.len() >= 1 && p[0].start_time >= lo && time_sorted(p)
        },
    decreases ns,
{
    if ns.len() > 0 {
        lemma_consumer_paths_sorted(ns.drop_last(), rs, edges, lo);
        lemma_tree_paths_sorted(ns.last(), rs, true, edge_delay(edges, ns.last().span.span_id@), edges);
        let a = consumer_paths(ns.drop_last(), rs, edges);
        let b = tree_paths(ns.last(), rs, true, edge_delay(edges, ns.last().span.span_id@), edges);
        assert forall|i: int| 0 <= i < (a + b).len() implies {
            let p = #[trigger] (a + b)[i].0;
            p.len() >= 1 && p[0].start_time >= lo && time_sorted(p)
        } by {
            if i < a.len() {
                assert((a + b)[i] == a[i]);
            } else {
                assert((a + b)[i] == b[i - a.len()]);
            }
        }
    }
}

/// The paths of ordered root trees run forward in time.
proof fn lemma_roots_paths_sorted<'a>(ns: Seq<SpanTreeNode<'a>>, edges: Seq<(Span, Span, u64)>)
    requires
        forall|t: int| 0 <= t < ns.len() ==> tree_ordered(#[trigger] ns[t]),
    ensures
        forall|i: int| 0 <= i < roots_paths(ns, edges).len() ==> time_sorted(#[trigger] roots_paths(ns, edges)[i].0),
    decreases ns.len(),
{
    if ns.len() > 0 {
        assert forall|t: int| 0 <= t < ns.drop_last().len() implies tree_ordered(#[trigger] ns.drop_last()[t]) by {
            assert(ns.drop_last()[t] == ns[t]);
        }
        lemma_roots_paths_sorted(ns.drop_last(), edges);
        assert(ns.last() == ns[ns.len() - 1]);
        lemma_tree_paths_sorted(ns.last(), ns.last().span.start_time, false, None, edges);
        let a = roots_paths(ns.drop_last(), edges);
        let b = tree_paths(ns.last(), ns.last().span.start_time, false, None, edges);
        assert forall|i: int| 0 <= i < (a + b).len() implies time_sorted(#[trigger] (a + b)[i].0) by {
            if i < a.len() {
                assert((a + b)[i] == a[i]);
            } else {
                assert((a + b)[i] == b[i - a.len()]);
            }
        }
    }
}

/// Where every span starts no earlier than the spans it points at, the
/// critical path of a trace runs forward in time: each node starts no
/// earlier than the one before.
pub proof fn law_critical_path_in_time_order(td: TraceData, a: TraceAnalysis)
    requires
        analysis_of(td, a),
        starts_after_links(td.spans@),
    ensures
        time_sorted(a.critical_path@),
{
    let spans = td.spans@;
    let f = choose|f: Seq<SpanTreeNode>|
        node_spans(f) == root_spans(td.spans@, td.spans@) && forest_valid(td.spans@, td.processes@, f, Set::empty())
            && a.critical_path@ == critical_path_of(f, async_edges_of(td.spans@, td.spans@));
    let edges = async_edges_of(spans, spans);
    lemma_root_spans(spans, spans);
    assert forall|t: int| 0 <= t < f.len() implies span_in(spans, #[trigger] f[t]) && f[t].span.start_time >= 0 by {
        assert(node_spans(f)[t] == *f[t].span);
        let k = choose|k: int| 0 <= k < spans.len() && #[trigger] root_spans(spans, spans)[t] == spans[k] && !has_parent(spans, spans[k]);
    }
    lemma_forest_ordered(spans, td.processes@, f, Set::empty(), 0);
    assert forall|t: int| 0 <= t < f.len() implies tree_ordered(#[trigger] f[t]) by {
        lemma_forest_ordered_member(f, 0, t);
    }
    lemma_roots_paths_sorted(f, edges);
    let ps = roots_paths(f, edges);
    let init: WeightedPath = (Seq::empty(), 0);
    lemma_fold_member(init, ps);
    let best = fold_best(init, ps).0;
    assert(time_sorted(best)) by {
        if fold_best(init, ps) != init {
            let i = choose|i: int| 0 <= i < ps.len() && fold_best(init, ps) == ps[i];
            assert(time_sorted(ps[i].0));
        }
    }
    let cp = critical_path_of(f, edges);
    assert(cp == mark_bottlenecks(best));
    assert forall|x: int, y: int| 0 <= x < y < cp.len() implies cp[x].start_time <= cp[y].start_time by {
        assert(cp[x].start_time == best[x].start_time);
        assert(cp[y].start_time == best[y].start_time);
    }
}

/// Each tree of an ordered forest is ordered.
proof fn lemma_forest_ordered_member<'a>(ns: Seq<SpanTreeNode<'a>>, lo: u64, t: int)
    requires
        forest_ordered(ns, lo),
        0 <= t < ns.len(),
    ensures
        tree_ordered(ns[t]),
    decreases ns.len(),
{
    if t < ns.len() - 1 {
        assert(ns.drop_last()[t] == ns[t]);
        lemma_forest_ordered_member(ns.drop_last(), lo, t);
    } else {
        assert(ns.last() == ns[t]);
    }
}


/// Every span that descends from a root ends no later than that root ends.
pub open spec fn ends_within_roots(spans: Seq<Span>) -> bool {
    forall|p: Seq<int>|
        is_walk(spans, p) && !has_parent(spans, spans[p[0]]) ==> spans[p.last()].start_time + spans[p.last()].duration
            <= spans[p[0]].start_time + spans[p[0]].duration
}

/// Every node of the tree ends no later than `bound`.
pub open spec fn tree_ends_within<'a>(n: SpanTreeNode<'a>, bound: int) -> bool
    decreases n,
{
    &&& n.span.start_time + n.span.duration <= bound
    &&& forall|i: int| 0 <= i < n.children@.len() ==> tree_ends_within(#[trigger] n.children@[i], bound)
    &&& forall|i: int| 0 <= i < n.follows_from@.len() ==> tree_ends_within(#[trigger] n.follows_from@[i], bound)
}

/// The tree of the span at the end of walk `w` from a root ends within the
/// root.
proof fn lemma_tree_ends<'a>(spans: Seq<Span>, procs: Seq<(String, Process)>, n: SpanTreeNode<'a>, seen: Set<Seq<char>>, w: Seq<int>)
    requires
        tree_valid(spans, procs, n, seen),
        is_walk(spans, w),
        !has_parent(spans, spans[w[0]]),
        *n.span == spans[w.last()],
        ends_within_roots(spans),
    ensures
        tree_ends_within(n, spans[w[0]].start_time + spans[w[0]].duration),
    decreases n,
{
    assert(0 <= w.last() < spans.len()) by {
        assert(w.last() == w[w.len() - 1]);
    }
    if !seen.contains(n.span.span_id@) {
        let id = n.span.span_id@;
        let seen1 = seen.insert(id);
        let lc = linked_spans(spans, child_of(), id);
        let lf = linked_spans(spans, follows_from(), id);
        assert(lc.subrange(0, lc.len() as int) == lc);
        assert(lf.subrange(0, lf.len() as int) == lf);
        assert(node_expanded(spans, procs, n));
        assert(spans_at(spans, lf).len() == lf.len());
        assert(spans_at(spans, lc).len() == lc.len());
        lemma_forest_ends(spans, procs, n.children@, seen1, w, child_of());
        lemma_forest_ends(spans, procs, n.follows_from@, seen1.union(forest_ids(n.children@)), w, follows_from());
    }
}

/// The trees of a forest of spans linked to the end of walk `w` end within
/// the walk's root.
proof fn lemma_forest_ends<'a>(spans: Seq<Span>, procs: Seq<(String, Process)>, ns: Seq<SpanTreeNode<'a>>, seen: Set<Seq<char>>, w: Seq<int>, kind: Seq<char>)
    requires
        forest_valid(spans, procs, ns, seen),
        kind == child_of() || kind == follows_from(),
        is_walk(spans, w),
        !has_parent(spans, spans[w[0]]),
        0 <= w.last() < spans.len(),
        ns.len() <= linked_spans(spans, kind, spans[w.last()].span_id@).len(),
        node_spans(ns) == spans_at(spans, linked_spans(spans, kind, spans[w.last()].span_id@).subrange(0, ns.len() as int)),
        ends_within_roots(spans),
    ensures
        forall|i: int| 0 <= i < ns.len() ==> tree_ends_within(#[trigger] ns[i], spans[w[0]].start_time + spans[w[0]].duration),
    decreases ns,
{
    if ns.len() > 0 {
        let last = ns.len() - 1;
        let l = linked_spans(spans, kind, spans[w.last()].span_id@);
        assert forall|i: int| 0 <= i < last implies #[trigger] node_spans(ns.drop_last())[i] == spans_at(spans, l.subrange(0, last))[i] by {
            assert(ns.drop_last()[i] == ns[i]);
            assert(node_spans(ns.drop_last())[i] == *ns.drop_last()[i].span);
            assert(node_spans(ns)[i] == *ns[i].span);
            assert(node_spans(ns)[i] == spans_at(spans, l.subrange(0, ns.len() as int))[i]);
        }
        assert(node_spans(ns.drop_last()) =~= spans_at(spans, l.subrange(0, last)));
        lemma_forest_ends(spans, procs, ns.drop_last(), seen, w, kind);
        crate::span_tree::lemma_walk_step(spans, w, kind, last);
        let w2 = w.push(l[last]);
        assert(node_spans(ns)[last] == *ns[last].span);
        assert(*ns.last().span == spans[w2.last()]);
        lemma_tree_ends(spans, procs, ns.last(), seen.union(forest_ids(ns.drop_last())), w2);
        assert forall|i: int| 0 <= i < ns.len() implies tree_ends_within(#[trigger] ns[i], spans[w[0]].start_time + spans[w[0]].duration) by {
            if i < last {
                assert(ns.drop_last()[i] == ns[i]);
            }
        }
    }
}

/// Each node of the path runs to at most `d` past the root's start.
pub open spec fn cumulative_within(p: Seq<CriticalPathNode>, d: int) -> bool {
    forall|i: int| 0 <= i < p.len() ==> (#[trigger] p[i]).cumulative_duration <= d
}

/// The paths of a tree whose nodes end within `rs + d` and after `rs` run
/// to at most `d` past `rs`.
proof fn lemma_tree_paths_within<'a>(n: SpanTreeNode<'a>, rs: u64, is_async: bool, delay: Option<u64>, edges: Seq<(Span, Span, u64)>, d: int)
    requires
        tree_times_ok(n, rs as int),
        tree_ends_within(n, rs + d),
    ensures
        forall|i: int| 0 <= i < tree_paths(n, rs, is_async, delay, edges).len() ==> cumulative_within(
            #[trigger] tree_paths(n, rs, is_async, delay, edges)[i].0,
            d,
        ),
    decreases n,
{
    let me = cp_node(n, rs, is_async, delay);
    assert(me.cumulative_duration <= d);
    if !(n.children@.len() == 0 && n.follows_from@.len() == 0) {
        let fp = forest_paths(n.children@, rs, edges);
        let cp = consumer_paths(n.follows_from@, rs, edges);
        lemma_forest_paths_within(n.children@, rs, edges, d);
        lemma_consumer_paths_within(n.follows_from@, rs, edges, d);
        let all = fp + cp;
        let tp = tree_paths(n, rs, is_async, delay, edges);
        assert(tp == with_prefix(seq![me], n.self_duration as int, all));
        assert forall|i: int| 0 <= i < tp.len() implies cumulative_within(#[trigger] tp[i].0, d) by {
            let q = all[i].0;
            assert(cumulative_within(q, d)) by {
                if i < fp.len() {
                    assert(all[i] == fp[i]);
                } else {
                    assert(all[i] == cp[i - fp.len()]);
                }
            }
            let p = seq![me] + q;
            assert(tp[i].0 == p);
            assert forall|j: int| 0 <= j < p.len() implies (#[trigger] p[j]).cumulative_duration <= d by {
                if j > 0 {
                    assert(p[j] == q[j - 1]);
                }
            }
        }
    }
}

/// The paths of a forest whose nodes end within `rs + d` and after `rs`
/// run to at most `d` past `rs`.
proof fn lemma_forest_paths_within<'a>(ns: Seq<SpanTreeNode<'a>>, rs: u64, edges: Seq<(Span, Span, u64)>, d: int)
    requires
        forall|i: int| 0 <= i < ns.len() ==> tree_times_ok(#[trigger] ns[i], rs as int) && tree_ends_within(ns[i], rs + d),
    ensures
        forall|i: int| 0 <= i < forest_paths(ns, rs, edges).len() ==> cumulative_within(#[trigger] forest_paths(ns, rs, edges)[i].0, d),
    decreases ns,
{
    if ns.len() > 0 {
        assert forall|i: int| 0 <= i < ns.drop_last().len() implies tree_times_ok(#[trigger] ns.drop_last()[i], rs as int)
            && tree_ends_within(ns.drop_last()[i], rs + d) by {
            assert(ns.drop_last()[i] == ns[i]);
        }
        lemma_forest_paths_within(ns.drop_last(), rs, edges, d);
        assert(ns.last() == ns[ns.len() - 1]);
        lemma_tree_paths_within(ns.last(), rs, false, None, edges, d);
        let a = forest_paths(ns.drop_last(), rs, edges);
        let b = tree_paths(ns.last(), rs, false, None, edges);
        assert forall|i: int| 0 <= i < (a + b).len() implies cumulative_within(#[trigger] (a + b)[i].0, d) by {
            if i < a.len() {
                assert((a + b)[i] == a[i]);
            } else {
                assert((a + b)[i] == b[i - a.len()]);
            }
        }
    }
}

/// The paths of consumers whose nodes end within `rs + d` and after `rs`
/// run to at most `d` past `rs`.
proof fn lemma_consumer_paths_within<'a>(ns: Seq<SpanTreeNode<'a>>, rs: u64, edges: Seq<(Span, Span, u64)>, d: int)
    requires
        forall|i: int| 0 <= i < ns.len() ==> tree_times_ok(#[trigger] ns[i], rs as int) && tree_ends_within(ns[i], rs + d),
    ensures
        forall|i: int| 0 <= i < consumer_paths(ns, rs, edges).len() ==> cumulative_within(#[trigger] consumer_paths(ns, rs, edges)[i].0, d),
    decreases ns,
{
    if ns.len() > 0 {
        assert forall|i: int| 0 <= i < ns.drop_last().len() implies tree_times_ok(#[trigger] ns.drop_last()[i], rs as int)
            && tree_ends_within(ns.drop_last()[i], rs + d) by {
            assert(ns.drop_last()[i] == ns[i]);
        }
        lemma_consumer_paths_within(ns.drop_last(), rs, edges, d);
        assert(ns.last() == ns[ns.len() - 1]);
        lemma_tree_paths_within(ns.last(), rs, true, edge_delay(edges, ns.last().span.span_id@), edges, d);
        let a = consumer_paths(ns.drop_last(), rs, edges);
        let b = tree_paths(ns.last(), rs, true, edge_delay(edges, ns.last().span.span_id@), edges);
        assert forall|i: int| 0 <= i < (a + b).len() implies cumulative_within(#[trigger] (a + b)[i].0, d) by {
            if i < a.len() {
                assert((a + b)[i] == a[i]);
            } else {
                assert((a + b)[i] == b[i - a.len()]);
            }
        }
    }
}

/// The paths of root trees that end within their roots run to at most `d`
/// past their roots' starts, where no root lasts longer than `d`.
proof fn lemma_roots_paths_within<'a>(ns: Seq<SpanTreeNode<'a>>, edges: Seq<(Span, Span, u64)>, d: int)
    requires
        forall|i: int| 0 <= i < ns.len() ==> tree_times_ok(#[trigger] ns[i], ns[i].span.start_time as int)
            && tree_ends_within(ns[i], ns[i].span.start_time + ns[i].span.duration) && ns[i].span.duration <= d,
    ensures
        forall|i: int| 0 <= i < roots_paths(ns, edges).len() ==> cumulative_within(#[trigger] roots_paths(ns, edges)[i].0, d),
    decreases ns.len(),
{
    if ns.len() > 0 {
        assert forall|i: int| 0 <= i < ns.drop_last().len() implies tree_times_ok(#[trigger] ns.drop_last()[i], ns.drop_last()[i].span.start_time as int)
            && tree_ends_within(ns.drop_last()[i], ns.drop_last()[i].span.start_time + ns.drop_last()[i].span.duration)
            && ns.drop_last()[i].span.duration <= d by {
            assert(ns.drop_last()[i] == ns[i]);
        }
        lemma_roots_paths_within(ns.drop_last(), edges, d);
        let r = ns.last();
        assert(r == ns[ns.len() - 1]);
        lemma_tree_ends_mono(r, r.span.start_time + r.span.duration, r.span.start_time + d);
        lemma_tree_paths_within(r, r.span.start_time, false, None, edges, d);
        let a = roots_paths(ns.drop_last(), edges);
        let b = tree_paths(r, r.span.start_time, false, None, edges);
        assert forall|i: int| 0 <= i < (a + b).len() implies cumulative_within(#[trigger] (a + b)[i].0, d) by {
            if i < a.len() {
                assert((a + b)[i] == a[i]);
            } else {
                assert((a + b)[i] == b[i - a.len()]);
            }
        }
    }
}

/// Ending within a bound is ending within any larger one.
proof fn lemma_tree_ends_mono<'a>(n: SpanTreeNode<'a>, b1: int, b2: int)
    requires
        tree_ends_within(n, b1),
        b1 <= b2,
    ensures
        tree_ends_within(n, b2),
    decreases n,
{
    assert forall|i: int| 0 <= i < n.children@.len() implies tree_ends_within(#[trigger] n.children@[i], b2) by {
        lemma_tree_ends_mono(n.children@[i], b1, b2);
    }
    assert forall|i: int| 0 <= i < n.follows_from@.len() implies tree_ends_within(#[trigger] n.follows_from@[i], b2) by {
        lemma_tree_ends_mono(n.follows_from@[i], b1, b2);
    }
}

/// Where every span ends within the root it descends from, no node of a
/// trace's critical path ends later after the start of the path's root than
/// the trace's total duration: its cumulative duration is at most the
/// total.
pub proof fn law_cumulative_within_total(td: TraceData, a: TraceAnalysis)
    requires
        analysis_of(td, a),
        trace_fits(td.spans@),
        roots_first(td.spans@),
        ends_within_roots(td.spans@),
    ensures
        cumulative_within(a.critical_path@, a.total_duration as int),
{
    let spans = td.spans@;
    let f = choose|f: Seq<SpanTreeNode>|
        node_spans(f) == root_spans(td.spans@, td.spans@) && forest_valid(td.spans@, td.processes@, f, Set::empty())
            && a.critical_path@ == critical_path_of(f, async_edges_of(td.spans@, td.spans@));
    let edges = async_edges_of(spans, spans);
    lemma_root_spans(spans, spans);
    assert forall|i: int| 0 <= i < f.len() implies exists|k: int|
        0 <= k < spans.len() && *(#[trigger] f[i]).span == spans[k] && !has_parent(spans, spans[k]) by {
        assert(node_spans(f)[i] == *f[i].span);
        let k = choose|k: int| 0 <= k < spans.len() && #[trigger] root_spans(spans, spans)[i] == spans[k] && !has_parent(spans, spans[k]);
    }
    assert forall|k: int| 0 <= k < spans.len() implies (#[trigger] spans[k]).start_time <= max_span_start(spans) by {
        lemma_max_bounds(spans, k);
    }
    lemma_edges_bounded(spans, spans);
    lemma_roots_ok(spans, td.processes@, f, edges);
    let d = max_span_duration(spans) as int;
    assert forall|i: int| 0 <= i < f.len() implies tree_times_ok(#[trigger] f[i], f[i].span.start_time as int)
        && tree_ends_within(f[i], f[i].span.start_time + f[i].span.duration) && f[i].span.duration <= d by {
        let k = choose|k: int| 0 <= k < spans.len() && *f[i].span == spans[k] && !has_parent(spans, spans[k]);
        lemma_max_bounds(spans, k);
        let w = seq![k];
        assert(is_walk(spans, w));
        lemma_forest_valid_member(spans, td.processes@, f, i);
        lemma_tree_ends(spans, td.processes@, f[i], Set::<Seq<char>>::empty().union(forest_ids(f.subrange(0, i))), w);
    }
    lemma_roots_paths_within(f, edges, d);
    let ps = roots_paths(f, edges);
    let init: WeightedPath = (Seq::empty(), 0);
    lemma_fold_member(init, ps);
    let best = fold_best(init, ps).0;
    assert(cumulative_within(best, d)) by {
        if fold_best(init, ps) != init {
            let i = choose|i: int| 0 <= i < ps.len() && fold_best(init, ps) == ps[i];
            assert(cumulative_within(ps[i].0, d));
        }
    }
    let cp = critical_path_of(f, edges);
    assert(cp == mark_bottlenecks(best));
    assert forall|i: int| 0 <= i < cp.len() implies (#[trigger] cp[i]).cumulative_duration <= d by {
        assert(cp[i].cumulative_duration == best[i].cumulative_duration);
    }
}

/// Each tree of a valid forest is valid, having seen the trees before it.
proof fn lemma_forest_valid_member<'a>(spans: Seq<Span>, procs: Seq<(String, Process)>, ns: Seq<SpanTreeNode<'a>>, i: int)
    requires
        forest_valid(spans, procs, ns, Set::empty()),
        0 <= i < ns.len(),
    ensures
        tree_valid(spans, procs, ns[i], Set::<Seq<char>>::empty().union(forest_ids(ns.subrange(0, i)))),
    decreases ns.len(),
{
    if i < ns.len() - 1 {
        assert(ns.drop_last()[i] == ns[i]);
        assert(ns.drop_last().subrange(0, i) =~= ns.subrange(0, i));
        lemma_forest_valid_member(spans, procs, ns.drop_last(), i);
    } else {
        assert(ns.last() == ns[i]);
        assert(ns.drop_last() =~= ns.subrange(0, i));
    }
}

/// The distinct service names of some processes hold no name twice, and
/// hold exactly the names of the processes.
proof fn lemma_process_services(procs: Seq<(String, Process)>)
    ensures
        process_services(procs).no_duplicates(),
        forall|x: Seq<char>|
            #[trigger] process_services(procs).contains(x) <==> exists|k: int|
                0 <= k < procs.len() && (#[trigger] procs[k]).1.service_name@ == x,
    decreases procs.len(),
{
    if procs.len() > 0 {
        let d = procs.drop_last();
        lemma_process_services(d);
        let ps = process_services(d);
        let name = procs.last().1.service_name@;
        assert forall|x: Seq<char>|
            #[trigger] process_services(procs).contains(x) <==> exists|k: int|
                0 <= k < procs.len() && (#[trigger] procs[k]).1.service_name@ == x by {
            if process_services(procs).contains(x) {
                if ps.contains(x) {
                    let k = choose|k: int| 0 <= k < d.len() && (#[trigger] d[k]).1.service_name@ == x;
                    assert(procs[k] == d[k]);
                } else {
                    let t = choose|t: int| 0 <= t < ps.push(name).len() && ps.push(name)[t] == x;
                    assert(procs[procs.len() - 1].1.service_name@ == x);
                }
            }
            if exists|k: int| 0 <= k < procs.len() && (#[trigger] procs[k]).1.service_name@ == x {
                let k = choose|k: int| 0 <= k < procs.len() && (#[trigger] procs[k]).1.service_name@ == x;
                if k < d.len() {
                    assert(d[k] == procs[k]);
                    assert(ps.contains(x));
                    if !ps.contains(name) {
                        let t = choose|t: int| 0 <= t < ps.len() && ps[t] == x;
                        assert(ps.push(name)[t] == x);
                    }
                } else {
                    if !ps.contains(name) {
                        assert(ps.push(name)[ps.len() as int] == x);
                    }
                }
            }
        }
        if !ps.contains(name) {
            assert forall|a: int, b: int| 0 <= a < ps.push(name).len() && 0 <= b < ps.push(name).len() && a != b implies ps.push(
                name,
            )[a] != ps.push(name)[b] by {
                if a == ps.len() {
                    assert(ps.contains(ps[b]));
                } else if b == ps.len() {
                    assert(ps.contains(ps[a]));
                }
            }
        }
    }
}

/// The services of a trace's analysis name each service of the trace's
/// processes exactly once: no name twice, and as a set exactly the service
/// names of the processes.
pub proof fn law_analysis_services_distinct(td: TraceData, a: TraceAnalysis)
    requires
        analysis_of(td, a),
    ensures
        forall|i: int, j: int| 0 <= i < j < a.services@.len() ==> a.services@[i]@ != a.services@[j]@,
        forall|i: int|
            0 <= i < a.services@.len() ==> exists|k: int|
                0 <= k < td.processes@.len() && (#[trigger] td.processes@[k]).1.service_name@ == (#[trigger] a.services@[i])@,
        forall|k: int|
            0 <= k < td.processes@.len() ==> exists|i: int|
                0 <= i < a.services@.len() && (#[trigger] a.services@[i])@ == (#[trigger] td.processes@[k]).1.service_name@,
{
    lemma_process_services(td.processes@);
    let v = a.services@.map_values(|s: String| s@);
    let ps = process_services(td.processes@);
    assert(v == ps);
    assert forall|i: int, j: int| 0 <= i < j < a.services@.len() implies a.services@[i]@ != a.services@[j]@ by {
        assert(v[i] == a.services@[i]@ && v[j] == a.services@[j]@);
    }
    assert forall|i: int| 0 <= i < a.services@.len() implies exists|k: int|
        0 <= k < td.processes@.len() && (#[trigger] td.processes@[k]).1.service_name@ == (#[trigger] a.services@[i])@ by {
        assert(v[i] == a.services@[i]@);
        assert(ps.contains(v[i]));
    }
    assert forall|k: int| 0 <= k < td.processes@.len() implies exists|i: int|
        0 <= i < a.services@.len() && (#[trigger] a.services@[i])@ == (#[trigger] td.processes@[k]).1.service_name@ by {
        let x = td.processes@[k].1.service_name@;
        assert(ps.contains(x));
        let i = choose|i: int| 0 <= i < ps.len() && ps[i] == x;
        assert(v[i] == a.services@[i]@);
    }
}

} // verus!
