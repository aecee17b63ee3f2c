//! The span forest of a trace: which span runs inside which (`CHILD_OF`) and
//! which span consumes what another one produced (`FOLLOWS_FROM`).

use vstd::prelude::*;
use vstd::set_lib::lemma_len_subset;
use crate::models::{AnalysisError, Process, Reference, Span, last_span_with_id, lookup_process, find_process, find_span};
use crate::parser::{child_of, follows_from, sat_sub, str_eq, producers_fit};

verus! {

/// A span in the forest, with the spans that run inside it (`children`) and
/// the spans that consume what it produced (`follows_from`).
pub struct SpanTreeNode<'a> {
    pub span: &'a Span,
    pub children: Vec<SpanTreeNode<'a>>,
    pub follows_from: Vec<SpanTreeNode<'a>>,
    pub service_name: String,
    pub self_duration: u64,
    pub is_async_root: bool,
}

/// A producer/consumer pair and the time the message waited in between.
pub struct AsyncEdgeInfo<'a> {
    pub producer_span: &'a Span,
    pub consumer_span: &'a Span,
    pub queue_latency: u64,
}

/// How many of `refs` are of type `kind` and point at `id`.
pub open spec fn ref_hits(refs: Seq<Reference>, kind: Seq<char>, id: Seq<char>) -> nat
    decreases refs.len(),
{
    if refs.len() == 0 {
        0
    } else {
        ref_hits(refs.drop_last(), kind, id) + if refs.last().ref_type@ == kind && refs.last().span_id@
            == id {
            1nat
        } else {
            0nat
        }
    }
}

/// The indices of the spans that point at `id` with a reference of type
/// `kind`, in order, one entry per such reference.
pub open spec fn linked_spans(spans: Seq<Span>, kind: Seq<char>, id: Seq<char>) -> Seq<int>
    decreases spans.len(),
{
    if spans.len() == 0 {
        Seq::empty()
    } else {
        linked_spans(spans.drop_last(), kind, id) + Seq::new(
            ref_hits(spans.last().references@, kind, id),
            |_i: int| spans.len() - 1,
        )
    }
}

/// A reference of `r`'s kind that can link two spans.
pub open spec fn is_link_ref(r: Reference) -> bool {
    r.ref_type@ == child_of() || r.ref_type@ == follows_from()
}

/// Span `s` has a parent or a producer among `spans`.
pub open spec fn has_parent(spans: Seq<Span>, s: Span) -> bool {
    exists|j: int|
        0 <= j < s.references@.len() && is_link_ref(#[trigger] s.references@[j])
            && last_span_with_id(spans, s.references@[j].span_id@) is Some
}

/// The spans of `spans` (a prefix of `all`) that have neither parent nor
/// producer in `all`, in order.
pub open spec fn root_spans(all: Seq<Span>, spans: Seq<Span>) -> Seq<Span>
    decreases spans.len(),
{
    if spans.len() == 0 {
        Seq::empty()
    } else if has_parent(all, spans.last()) {
        root_spans(all, spans.drop_last())
    } else {
        root_spans(all, spans.drop_last()).push(spans.last())
    }
}

/// The producer/consumer pairs of the references `refs` of `consumer`:
/// (producer, consumer, queue latency).
pub open spec fn refs_async_edges(all: Seq<Span>, consumer: Span, refs: Seq<Reference>) -> Seq<
    (Span, Span, u64),
>
    decreases refs.len(),
{
    if refs.len() == 0 {
        Seq::empty()
    } else {
        let prev = refs_async_edges(all, consumer, refs.drop_last());
        let r = refs.last();
        if r.ref_type@ == follows_from() {
            match last_span_with_id(all, r.span_id@) {
                Some(p) => prev.push(
                    (
                        all[p],
                        consumer,
                        sat_sub(consumer.start_time as int, all[p].start_time + all[p].duration),
                    ),
                ),
                None => prev,
            }
        } else {
            prev
        }
    }
}

/// The producer/consumer pairs of the spans of `spans` (a prefix of `all`).
pub open spec fn async_edges_of(all: Seq<Span>, spans: Seq<Span>) -> Seq<(Span, Span, u64)>
    decreases spans.len(),
{
    if spans.len() == 0 {
        Seq::empty()
    } else {
        async_edges_of(all, spans.drop_last()) + refs_async_edges(all, spans.last(), spans.last().references@)
    }
}

/// The spans of a list of nodes.
pub open spec fn node_spans<'a>(ns: Seq<SpanTreeNode<'a>>) -> Seq<Span> {
    ns.map_values(|n: SpanTreeNode<'a>| *n.span)
}

/// The total duration of some spans.
pub open spec fn sum_durations(s: Seq<Span>) -> nat
    decreases s.len(),
{
    if s.len() == 0 {
        0
    } else {
        sum_durations(s.drop_last()) + s.last().duration as nat
    }
}

/// The spans at the given indices.
pub open spec fn spans_at(spans: Seq<Span>, idx: Seq<int>) -> Seq<Span> {
    idx.map_values(|i: int| spans[i])
}

/// The children of any span reachable from a root (the spans whose trees
/// are built) add up to a duration that a `u64` can hold.
pub open spec fn children_sums_fit(spans: Seq<Span>) -> bool {
    forall|k: int|
        0 <= k < spans.len() && reachable(spans, k) ==> sum_durations(
            spans_at(spans, linked_spans(spans, child_of(), (#[trigger] spans[k]).span_id@)),
        ) <= u64::MAX
}

/// What a node looks like the first time its span id is met: its service
/// is that of its process, its children and consumers are all the spans that
/// point at it, and its own time is its duration less that of its children.
pub open spec fn node_expanded<'a>(spans: Seq<Span>, procs: Seq<(String, Process)>, n: SpanTreeNode<'a>) -> bool {
    &&& lookup_process(procs, n.span.process_id@) matches Some(p) && n.service_name@ == p.service_name@
    &&& node_spans(n.children@) == spans_at(spans, linked_spans(spans, child_of(), n.span.span_id@))
    &&& node_spans(n.follows_from@) == spans_at(spans, linked_spans(spans, follows_from(), n.span.span_id@))
    &&& n.self_duration == sat_sub(n.span.duration as int, sum_durations(node_spans(n.children@)) as int)
    &&& !n.is_async_root
}

/// What a node looks like when its span id was met before: a leaf of no time
/// of its own.
pub open spec fn node_repeated<'a>(procs: Seq<(String, Process)>, n: SpanTreeNode<'a>) -> bool {
    &&& n.children@.len() == 0
    &&& n.follows_from@.len() == 0
    &&& n.self_duration == 0
    &&& !n.is_async_root
    &&& n.service_name@ == match lookup_process(procs, n.span.process_id@) {
        Some(p) => p.service_name@,
        None => Seq::<char>::empty(),
    }
}

/// The span ids in a tree.
pub open spec fn tree_ids<'a>(n: SpanTreeNode<'a>) -> Set<Seq<char>>
    decreases n,
{
    set![n.span.span_id@].union(forest_ids(n.children@)).union(forest_ids(n.follows_from@))
}

/// The span ids in a forest.
pub open spec fn forest_ids<'a>(ns: Seq<SpanTreeNode<'a>>) -> Set<Seq<char>>
    decreases ns,
{
    if ns.len() == 0 {
        Set::empty()
    } else {
        forest_ids(ns.drop_last()).union(tree_ids(ns.last()))
    }
}

/// A tree built in depth-first order (children first, then consumers), where
/// `seen` holds the span ids met before: a span id met for the first time is
/// expanded, one met again is a leaf.
pub open spec fn tree_valid<'a>(spans: Seq<Span>, procs: Seq<(String, Process)>, n: SpanTreeNode<'a>, seen: Set<Seq<char>>) -> bool
    decreases n,
{
    if seen.contains(n.span.span_id@) {
        node_repeated(procs, n)
    } else {
        let seen1 = seen.insert(n.span.span_id@);
        &&& node_expanded(spans, procs, n)
        &&& forest_valid(spans, procs, n.children@, seen1)
        &&& forest_valid(spans, procs, n.follows_from@, seen1.union(forest_ids(n.children@)))
    }
}

/// A forest built tree after tree, each tree seeing the ids of those before.
pub open spec fn forest_valid<'a>(spans: Seq<Span>, procs: Seq<(String, Process)>, ns: Seq<SpanTreeNode<'a>>, seen: Set<Seq<char>>) -> bool
    decreases ns,
{
    if ns.len() == 0 {
        true
    } else {
        &&& forest_valid(spans, procs, ns.drop_last(), seen)
        &&& tree_valid(spans, procs, ns.last(), seen.union(forest_ids(ns.drop_last())))
    }
}

/// Span `m` points at span `k` (by id) with a `CHILD_OF` or `FOLLOWS_FROM`
/// reference.
pub open spec fn linked(spans: Seq<Span>, k: int, m: int) -> bool {
    &&& 0 <= k < spans.len()
    &&& 0 <= m < spans.len()
    &&& exists|j: int|
        0 <= j < spans[m].references@.len() && is_link_ref(#[trigger] spans[m].references@[j])
            && spans[m].references@[j].span_id@ == spans[k].span_id@
}

/// A walk of span indices, each step from a span to one that points at it.
pub open spec fn is_walk(spans: Seq<Span>, p: Seq<int>) -> bool {
    &&& p.len() > 0
    &&& forall|t: int| 0 <= t < p.len() ==> 0 <= #[trigger] p[t] < spans.len()
    &&& forall|t: int| #![trigger p[t]] 0 <= t < p.len() - 1 ==> linked(spans, p[t], p[t + 1])
}

/// Span `m` can be reached from a root span (one with neither parent nor
/// producer) by following the links.
pub open spec fn reachable(spans: Seq<Span>, m: int) -> bool {
    exists|p: Seq<int>|
        is_walk(spans, p) && !has_parent(spans, spans[p[0]]) && #[trigger] p.last() == m
}

/// The ids of the spans.
pub open spec fn span_ids(spans: Seq<Span>) -> Set<Seq<char>> {
    spans.map_values(|s: Span| s.span_id@).to_set()
}

/// The ids that a list of strings holds.
pub open spec fn id_set(v: Seq<String>) -> Set<Seq<char>> {
    v.map_values(|s: String| s@).to_set()
}

/// A list of visited ids: no id twice, each the id of a span.
pub open spec fn visited_ok(spans: Seq<Span>, v: Seq<String>) -> bool {
    &&& v.map_values(|s: String| s@).no_duplicates()
    &&& id_set(v).subset_of(span_ids(spans))
}

/// Every index in `linked_spans` is a span that points at `id` with a
/// reference of type `kind`.
pub proof fn lemma_linked_spans(spans: Seq<Span>, kind: Seq<char>, id: Seq<char>)
    ensures
        forall|t: int|
            0 <= t < linked_spans(spans, kind, id).len() ==> {
                let m = #[trigger] linked_spans(spans, kind, id)[t];
                &&& 0 <= m < spans.len()
                &&& exists|j: int|
                    0 <= j < spans[m].references@.len() && (#[trigger] spans[m].references@[j]).ref_type@
                        == kind && spans[m].references@[j].span_id@ == id
            },
    decreases spans.len(),
{
    if spans.len() > 0 {
        let prev = spans.drop_last();
        lemma_linked_spans(prev, kind, id);
        let l = spans.len() - 1;
        let n = ref_hits(spans.last().references@, kind, id);
        if n > 0 {
            lemma_ref_hits(spans.last().references@, kind, id);
        }
        assert forall|t: int| 0 <= t < linked_spans(spans, kind, id).len() implies {
            let m = #[trigger] linked_spans(spans, kind, id)[t];
            &&& 0 <= m < spans.len()
            &&& exists|j: int|
                0 <= j < spans[m].references@.len() && (#[trigger] spans[m].references@[j]).ref_type@
                    == kind && spans[m].references@[j].span_id@ == id
        } by {
            let lp = linked_spans(prev, kind, id);
            if t < lp.len() {
                let m = lp[t];
                assert(spans[m] == prev[m]);
            }
        }
    }
}

/// References counted by `ref_hits` exist.
proof fn lemma_ref_hits(refs: Seq<Reference>, kind: Seq<char>, id: Seq<char>)
    requires
        ref_hits(refs, kind, id) > 0,
    ensures
        exists|j: int| 0 <= j < refs.len() && (#[trigger] refs[j]).ref_type@ == kind && refs[j].span_id@ == id,
    decreases refs.len(),
{
    if refs.last().ref_type@ == kind && refs.last().span_id@ == id {
        assert(refs[refs.len() - 1] == refs.last());
    } else {
        lemma_ref_hits(refs.drop_last(), kind, id);
        let j = choose|j: int|
            0 <= j < refs.drop_last().len() && (#[trigger] refs.drop_last()[j]).ref_type@ == kind
                && refs.drop_last()[j].span_id@ == id;
        assert(refs[j] == refs.drop_last()[j]);
    }
}

/// A visited list that misses an id of a span is shorter than the spans.
proof fn lemma_visited_room(spans: Seq<Span>, v: Seq<String>, id: Seq<char>)
    requires
        visited_ok(spans, v),
        !id_set(v).contains(id),
        span_ids(spans).contains(id),
    ensures
        v.len() < spans.len(),
{
    let vs = v.map_values(|s: String| s@);
    let vs2 = vs.push(id);
    assert(vs2.no_duplicates()) by {
        assert forall|a: int, b: int| 0 <= a < vs2.len() && 0 <= b < vs2.len() && a != b implies vs2[a] != vs2[b] by {
            if a == vs.len() {
                assert(vs.to_set().contains(vs[b]));
            } else if b == vs.len() {
                assert(vs.to_set().contains(vs[a]));
            }
        }
    }
    vs2.unique_seq_to_set();
    assert forall|x: Seq<char>| #[trigger] vs2.to_set().contains(x) == id_set(v).insert(id).contains(x) by {
        if vs2.contains(x) {
            let t = choose|t: int| 0 <= t < vs2.len() && vs2[t] == x;
            if t < vs.len() {
                assert(vs[t] == x);
            }
        }
        if vs.contains(x) {
            let t = choose|t: int| 0 <= t < vs.len() && vs[t] == x;
            assert(vs2[t] == x);
        }
        if x == id {
            assert(vs2[vs.len() as int] == id);
        }
    }
    assert(vs2.to_set() =~= id_set(v).insert(id));
    let ids = spans.map_values(|s: Span| s.span_id@);
    ids.lemma_cardinality_of_set();
    lemma_len_subset(vs2.to_set(), ids.to_set());
}

/// Whether the id `id` is in the list `v`.
fn contains_id(v: &Vec<String>, id: &String) -> (b: bool)
    ensures
        b == id_set(v@).contains(id@),
{
    let mut i: usize = 0;
    while i < v.len()
        invariant
            i <= v.len(),
            forall|t: int| 0 <= t < i ==> v@[t]@ != id@,
        decreases v.len() - i,
    {
        if v[i] == *id {
            assert(v@.map_values(|s: String| s@)[i as int] == id@);
            return true;
        }
        i = i + 1;
    }
    assert(!id_set(v@).contains(id@)) by {
        if id_set(v@).contains(id@) {
            let vs = v@.map_values(|s: String| s@);
            let t = choose|t: int| 0 <= t < vs.len() && #[trigger] vs[t] == id@;
            assert(v@[t]@ == id@);
        }
    }
    false
}

/// The indices of the spans that point at `id` with a reference of type
/// `kind`, one entry per such reference.
fn linked_indices(spans: &[Span], kind: &str, id: &String) -> (res: Vec<usize>)
    ensures
        res@.map_values(|x: usize| x as int) == linked_spans(spans@, kind@, id@),
{
    let mut res: Vec<usize> = Vec::new();
    for i in 0..spans.len()
        invariant
            res@.map_values(|x: usize| x as int) == linked_spans(spans@.subrange(0, i as int), kind@, id@),
    {
        let span = &spans[i];
        let ghost before = res@.map_values(|x: usize| x as int);
        assert(spans@.subrange(0, i + 1).drop_last() == spans@.subrange(0, i as int));
        for j in 0..span.references.len()
            invariant
                i < spans.len(),
                *span == spans@[i as int],
                res@.map_values(|x: usize| x as int) == before + Seq::new(
                    ref_hits(span.references@.subrange(0, j as int), kind@, id@),
                    |_t: int| i as int,
                ),
        {
            assert(span.references@.subrange(0, j + 1).drop_last() == span.references@.subrange(0, j as int));
            let r = &span.references[j];
            assert(span.references@.subrange(0, j + 1).last() == *r);
            let ghost old_res = res@;
            if str_eq(&r.ref_type, kind) && r.span_id == *id {
                res.push(i);
                assert(res@.map_values(|x: usize| x as int) =~= old_res.map_values(|x: usize| x as int).push(i as int));
            }
            assert(res@.map_values(|x: usize| x as int) =~= before + Seq::new(
                ref_hits(span.references@.subrange(0, j + 1), kind@, id@),
                |_t: int| i as int,
            ));
        }
        assert(span.references@.subrange(0, span.references@.len() as int) == span.references@);
        assert(spans@.subrange(0, i + 1).last() == *span);
    }
    assert(spans@.subrange(0, spans@.len() as int) == spans@);
    res
}

/// A walk to `k` goes on to any span linked to `k`.
pub proof fn lemma_walk_step(spans: Seq<Span>, walk: Seq<int>, kind: Seq<char>, t: int)
    requires
        is_walk(spans, walk),
        kind == child_of() || kind == follows_from(),
        0 <= walk.last() < spans.len(),
        0 <= t < linked_spans(spans, kind, spans[walk.last()].span_id@).len(),
    ensures
        is_walk(spans, walk.push(linked_spans(spans, kind, spans[walk.last()].span_id@)[t])),
        walk.push(linked_spans(spans, kind, spans[walk.last()].span_id@)[t])[0] == walk[0],
{
    let k = walk.last();
    let id = spans[k].span_id@;
    lemma_linked_spans(spans, kind, id);
    let m = linked_spans(spans, kind, id)[t];
    let w2 = walk.push(m);
    let j = choose|j: int|
        0 <= j < spans[m].references@.len() && (#[trigger] spans[m].references@[j]).ref_type@ == kind
            && spans[m].references@[j].span_id@ == id;
    assert(is_link_ref(spans[m].references@[j]));
    assert(linked(spans, k, m));
    assert forall|t2: int| #![trigger w2[t2]] 0 <= t2 < w2.len() - 1 implies linked(spans, w2[t2], w2[t2 + 1]) by {
        if t2 < walk.len() - 1 {
            assert(w2[t2] == walk[t2] && w2[t2 + 1] == walk[t2 + 1]);
        } else {
            assert(w2[t2] == k && w2[t2 + 1] == m);
        }
    }
    assert forall|t2: int| 0 <= t2 < w2.len() implies 0 <= #[trigger] w2[t2] < spans.len() by {
        if t2 < walk.len() {
            assert(w2[t2] == walk[t2]);
        }
    }
}

/// A visited list is no longer than the spans.
proof fn lemma_visited_len(spans: Seq<Span>, v: Seq<String>)
    requires
        visited_ok(spans, v),
    ensures
        v.len() <= spans.len(),
{
    let vs = v.map_values(|s: String| s@);
    vs.unique_seq_to_set();
    let ids = spans.map_values(|s: Span| s.span_id@);
    ids.lemma_cardinality_of_set();
    lemma_len_subset(vs.to_set(), ids.to_set());
}

/// Adding a tree at the end of a forest.
proof fn lemma_forest_push<'a>(spans: Seq<Span>, procs: Seq<(String, Process)>, ns: Seq<SpanTreeNode<'a>>, c: SpanTreeNode<'a>, seen: Set<Seq<char>>)
    ensures
        forest_valid(spans, procs, ns.push(c), seen) == (forest_valid(spans, procs, ns, seen) && tree_valid(
            spans,
            procs,
            c,
            seen.union(forest_ids(ns)),
        )),
        forest_ids(ns.push(c)) == forest_ids(ns).union(tree_ids(c)),
{
    assert(ns.push(c).drop_last() == ns);
}

/// The spans of a forest with one more tree.
proof fn lemma_node_spans_push<'a>(ns: Seq<SpanTreeNode<'a>>, c: SpanTreeNode<'a>)
    ensures
        node_spans(ns.push(c)) == node_spans(ns).push(*c.span),
{
    assert(node_spans(ns.push(c)) =~= node_spans(ns).push(*c.span));
}

/// How a depth-first walk over the span forest ends: with the span ids
/// met so far, at the first span met whose process is missing, or (for too
/// small a step budget) not at all.
pub enum Walk {
    Done(Set<Seq<char>>),
    Missing(Span),
    Unfinished,
}

/// The depth-first walk from span `s`, the ids in `seen` met before and at
/// most `fuel` levels deep: a span met before ends it at once; a span met
/// for the first time with no process stops the walk there; else its
/// children, then its consumers, are walked in order.
pub open spec fn walk_node(spans: Seq<Span>, procs: Seq<(String, Process)>, s: Span, seen: Set<Seq<char>>, fuel: nat) -> Walk
    decreases fuel, 0nat,
{
    if fuel == 0 {
        Walk::Unfinished
    } else if seen.contains(s.span_id@) {
        Walk::Done(seen)
    } else if lookup_process(procs, s.process_id@) is None {
        Walk::Missing(s)
    } else {
        let children = spans_at(spans, linked_spans(spans, child_of(), s.span_id@));
        let consumers = spans_at(spans, linked_spans(spans, follows_from(), s.span_id@));
        match walk_list(spans, procs, children, seen.insert(s.span_id@), (fuel - 1) as nat) {
            Walk::Done(after) => walk_list(spans, procs, consumers, after, (fuel - 1) as nat),
            other => other,
        }
    }
}

/// The depth-first walk over the spans `list`, in order.
pub open spec fn walk_list(spans: Seq<Span>, procs: Seq<(String, Process)>, list: Seq<Span>, seen: Set<Seq<char>>, fuel: nat) -> Walk
    decreases fuel, list.len(),
{
    if list.len() == 0 {
        Walk::Done(seen)
    } else {
        match walk_node(spans, procs, list[0], seen, fuel) {
            Walk::Done(after) => walk_list(spans, procs, list.drop_first(), after, fuel),
            other => other,
        }
    }
}

/// The depth-first walk over the whole span forest, roots in order; its
/// budget, one level per span and one more, is never exhausted.
pub open spec fn forest_walk(spans: Seq<Span>, procs: Seq<(String, Process)>) -> Walk {
    walk_list(spans, procs, root_spans(spans, spans), Set::empty(), (spans.len() + 1) as nat)
}

/// A walk ends as a build did: with the ids met by then where the build
/// succeeded, at the span that the build's error names where it failed.
pub open spec fn walk_matches<T>(w: Walk, res: Result<T, AnalysisError>, after: Set<Seq<char>>) -> bool {
    match res {
        Ok(_) => w == Walk::Done(after),
        Err(e) => w matches Walk::Missing(m) && e == AnalysisError::ProcessNotFound { span_id: m.span_id },
    }
}

/// One step of a walk over a list: its first span, then the rest.
proof fn lemma_walk_list_step(spans: Seq<Span>, procs: Seq<(String, Process)>, list: Seq<Span>, i: int, seen: Set<Seq<char>>, fuel: nat)
    requires
        0 <= i < list.len(),
    ensures
        walk_list(spans, procs, list.subrange(i, list.len() as int), seen, fuel) == match walk_node(spans, procs, list[i], seen, fuel) {
            Walk::Done(after) => walk_list(spans, procs, list.subrange(i + 1, list.len() as int), after, fuel),
            other => other,
        },
{
    let rest = list.subrange(i, list.len() as int);
    assert(rest[0] == list[i]);
    assert(rest.drop_first() =~= list.subrange(i + 1, list.len() as int));
}

/// Builds the tree of span `k` depth first; `visited` holds the span ids met
/// before and gains those of the new tree; `walk` leads from a root span to
/// `k`.
fn build_node<'a>(
    spans: &'a [Span],
    procs: &'a Vec<(String, Process)>,
    k: usize,
    visited: &mut Vec<String>,
    Ghost(walk): Ghost<Seq<int>>,
) -> (res: Result<SpanTreeNode<'a>, AnalysisError>)
    requires
        k < spans@.len(),
        children_sums_fit(spans@),
        visited_ok(spans@, old(visited)@),
        is_walk(spans@, walk),
        !has_parent(spans@, spans@[walk[0]]),
        walk.last() == k,
    ensures
        visited_ok(spans@, final(visited)@),
        old(visited)@.len() <= final(visited)@.len(),
        match res {
            Ok(n) => {
                &&& *n.span == spans@[k as int]
                &&& tree_valid(spans@, procs@, n, id_set(old(visited)@))
                &&& id_set(final(visited)@) == id_set(old(visited)@).union(tree_ids(n))
            },
            Err(e) => exists|m: int|
                reachable(spans@, m) && lookup_process(procs@, spans@[m].process_id@) is None && e
                    == AnalysisError::ProcessNotFound { span_id: spans@[m].span_id },
        },
        forall|f: nat|
            f >= spans@.len() - old(visited)@.len() + 1 ==> walk_matches(
                #[trigger] walk_node(spans@, procs@, spans@[k as int], id_set(old(visited)@), f),
                res,
                id_set(final(visited)@),
            ),
    decreases spans@.len() - old(visited)@.len(), 0nat,
{
    let span = &spans[k];
    let ghost seen0 = id_set(visited@);
    let ghost id = span.span_id@;
    let ghost vis0 = visited@;
    if contains_id(visited, &span.span_id) {
        let service_name = match find_process(procs, &span.process_id) {
            Some(p) => p.service_name.clone(),
            None => String::new(),
        };
        let n = SpanTreeNode {
            span,
            children: Vec::new(),
            follows_from: Vec::new(),
            service_name,
            self_duration: 0,
            is_async_root: false,
        };
        assert(tree_ids(n) =~= set![id].union(forest_ids(n.children@)).union(forest_ids(n.follows_from@)));
        assert(forest_ids(n.children@) == Set::<Seq<char>>::empty());
        assert(forest_ids(n.follows_from@) == Set::<Seq<char>>::empty());
        assert(id_set(visited@) =~= seen0.union(tree_ids(n)));
        let ghost okv: Result<SpanTreeNode<'a>, AnalysisError> = Ok(n);
        proof {
            lemma_visited_len(spans@, visited@);
        }
        assert forall|f: nat| f >= spans@.len() - vis0.len() + 1 implies walk_matches(
            #[trigger] walk_node(spans@, procs@, spans@[k as int], seen0, f),
            okv,
            id_set(visited@),
        ) by {}
        return Ok(n);
    }
    proof {
        assert(spans@.map_values(|s: Span| s.span_id@)[k as int] == id);
        lemma_visited_room(spans@, visited@, id);
    }
    let ghost vis_before = visited@;
    visited.push(span.span_id.clone());
    proof {
        let vs = vis_before.map_values(|s: String| s@);
        assert(visited@.map_values(|s: String| s@) =~= vs.push(id));
        assert forall|x: Seq<char>| #[trigger] id_set(visited@).contains(x) == seen0.insert(id).contains(x) by {
            let vs2 = vs.push(id);
            if vs2.contains(x) {
                let t = choose|t: int| 0 <= t < vs2.len() && vs2[t] == x;
                if t < vs.len() {
                    assert(vs[t] == x);
                }
            }
            if vs.contains(x) {
                let t = choose|t: int| 0 <= t < vs.len() && vs[t] == x;
                assert(vs2[t] == x);
            }
            if x == id {
                assert(vs2[vs.len() as int] == id);
            }
        }
        assert(id_set(visited@) =~= seen0.insert(id));
        assert(visited@.map_values(|s: String| s@).no_duplicates()) by {
            let vs2 = vs.push(id);
            assert forall|a: int, b: int| 0 <= a < vs2.len() && 0 <= b < vs2.len() && a != b implies vs2[a] != vs2[b] by {
                if a == vs.len() {
                    assert(vs.to_set().contains(vs[b]));
                } else if b == vs.len() {
                    assert(vs.to_set().contains(vs[a]));
                }
            }
        }
        assert(span_ids(spans@).contains(id));
    }
    let service_name = match find_process(procs, &span.process_id) {
        Some(p) => p.service_name.clone(),
        None => {
            proof {
                assert(reachable(spans@, k as int));
            }
            let e = AnalysisError::ProcessNotFound { span_id: span.span_id.clone() };
            let ghost errv: Result<SpanTreeNode<'a>, AnalysisError> = Err(e);
            assert forall|f: nat| f >= spans@.len() - vis0.len() + 1 implies walk_matches(
                #[trigger] walk_node(spans@, procs@, spans@[k as int], seen0, f),
                errv,
                id_set(visited@),
            ) by {}
            return Err(e);
        },
    };
    let ghost seen1 = seen0.insert(id);
    let child_idx = linked_indices(spans, "CHILD_OF", &span.span_id);
    proof {
        lemma_visited_len(spans@, visited@);
    }
    let ghost vis1 = visited@;
    let ghost child_list = spans_at(spans@, linked_spans(spans@, child_of(), id));
    let ghost cons_list = spans_at(spans@, linked_spans(spans@, follows_from(), id));
    let children = match build_forest(spans, procs, k, &child_idx, visited, Ghost(walk), Ghost(child_of())) {
        Ok(f) => f,
        Err(e) => {
            let ghost errv: Result<SpanTreeNode<'a>, AnalysisError> = Err(e);
            assert forall|f: nat| f >= spans@.len() - vis0.len() + 1 implies walk_matches(
                #[trigger] walk_node(spans@, procs@, spans@[k as int], seen0, f),
                errv,
                id_set(visited@),
            ) by {
                let w = walk_list(spans@, procs@, child_list, seen1, (f - 1) as nat);
                assert(walk_matches(w, Err::<Vec<SpanTreeNode<'a>>, AnalysisError>(e), id_set(visited@)));
            }
            return Err(e);
        },
    };
    let ghost seen2 = seen1.union(forest_ids(children@));
    let follow_idx = linked_indices(spans, "FOLLOWS_FROM", &span.span_id);
    proof {
        lemma_visited_len(spans@, visited@);
        assert(visited@.len() > vis_before.len());
    }
    let ghost vis2 = visited@;
    let follows = match build_forest(spans, procs, k, &follow_idx, visited, Ghost(walk), Ghost(follows_from())) {
        Ok(f) => f,
        Err(e) => {
            let ghost errv: Result<SpanTreeNode<'a>, AnalysisError> = Err(e);
            assert forall|f: nat| f >= spans@.len() - vis0.len() + 1 implies walk_matches(
                #[trigger] walk_node(spans@, procs@, spans@[k as int], seen0, f),
                errv,
                id_set(visited@),
            ) by {
                let w1 = walk_list(spans@, procs@, child_list, seen1, (f - 1) as nat);
                assert(w1 == Walk::Done(id_set(vis2)));
                let w2 = walk_list(spans@, procs@, cons_list, id_set(vis2), (f - 1) as nat);
                assert(walk_matches(w2, Err::<Vec<SpanTreeNode<'a>>, AnalysisError>(e), id_set(visited@)));
            }
            return Err(e);
        },
    };
    let ghost child_l = linked_spans(spans@, child_of(), id);
    assert(reachable(spans@, k as int));
    let mut children_duration: u64 = 0;
    for i in 0..children.len()
        invariant
            children_sums_fit(spans@),
            reachable(spans@, k as int),
            k < spans@.len(),
            id == spans@[k as int].span_id@,
            node_spans(children@) == spans_at(spans@, child_l),
            child_l == linked_spans(spans@, child_of(), id),
            children_duration == sum_durations(node_spans(children@).subrange(0, i as int)),
    {
        proof {
            let all = node_spans(children@);
            assert(all.subrange(0, i + 1).drop_last() == all.subrange(0, i as int));
            lemma_sum_prefix(all, i + 1);
            assert(sum_durations(all) <= u64::MAX);
        }
        children_duration = children_duration + children[i].span.duration;
    }
    assert(node_spans(children@).subrange(0, children@.len() as int) == node_spans(children@));
    let self_duration = span.duration.saturating_sub(children_duration);
    let n = SpanTreeNode {
        span,
        children,
        follows_from: follows,
        service_name,
        self_duration,
        is_async_root: false,
    };
    proof {
        assert(tree_ids(n) == set![id].union(forest_ids(n.children@)).union(forest_ids(n.follows_from@)));
        assert(id_set(visited@) =~= seen0.union(tree_ids(n)));
        assert(!seen0.contains(id));
        assert(node_expanded(spans@, procs@, n));
    }
    let ghost okv: Result<SpanTreeNode<'a>, AnalysisError> = Ok(n);
    assert forall|f: nat| f >= spans@.len() - vis0.len() + 1 implies walk_matches(
        #[trigger] walk_node(spans@, procs@, spans@[k as int], seen0, f),
        okv,
        id_set(visited@),
    ) by {
        let w1 = walk_list(spans@, procs@, child_list, seen1, (f - 1) as nat);
        assert(w1 == Walk::Done(id_set(vis2)));
        let w2 = walk_list(spans@, procs@, cons_list, id_set(vis2), (f - 1) as nat);
        assert(w2 == Walk::Done(id_set(visited@)));
    }
    Ok(n)
}

/// Builds, in order, the trees of the spans `idx` linked to span `k` by
/// references of type `kind`.
fn build_forest<'a>(
    spans: &'a [Span],
    procs: &'a Vec<(String, Process)>,
    k: usize,
    idx: &Vec<usize>,
    visited: &mut Vec<String>,
    Ghost(walk): Ghost<Seq<int>>,
    Ghost(kind): Ghost<Seq<char>>,
) -> (res: Result<Vec<SpanTreeNode<'a>>, AnalysisError>)
    requires
        k < spans@.len(),
        kind == child_of() || kind == follows_from(),
        idx@.map_values(|x: usize| x as int) == linked_spans(spans@, kind, spans@[k as int].span_id@),
        children_sums_fit(spans@),
        visited_ok(spans@, old(visited)@),
        is_walk(spans@, walk),
        !has_parent(spans@, spans@[walk[0]]),
        walk.last() == k,
    ensures
        visited_ok(spans@, final(visited)@),
        old(visited)@.len() <= final(visited)@.len(),
        match res {
            Ok(f) => {
                &&& node_spans(f@) == spans_at(spans@, linked_spans(spans@, kind, spans@[k as int].span_id@))
                &&& forest_valid(spans@, procs@, f@, id_set(old(visited)@))
                &&& id_set(final(visited)@) == id_set(old(visited)@).union(forest_ids(f@))
            },
            Err(e) => exists|m: int|
                reachable(spans@, m) && lookup_process(procs@, spans@[m].process_id@) is None && e
                    == AnalysisError::ProcessNotFound { span_id: spans@[m].span_id },
        },
        forall|f: nat|
            f >= spans@.len() - old(visited)@.len() + 1 ==> walk_matches(
                #[trigger] walk_list(
                    spans@,
                    procs@,
                    spans_at(spans@, linked_spans(spans@, kind, spans@[k as int].span_id@)),
                    id_set(old(visited)@),
                    f,
                ),
                res,
                id_set(final(visited)@),
            ),
    decreases spans@.len() - old(visited)@.len(), 1nat,
{
    let ghost l = linked_spans(spans@, kind, spans@[k as int].span_id@);
    let ghost seen = id_set(visited@);
    proof {
        lemma_linked_spans(spans@, kind, spans@[k as int].span_id@);
    }
    let mut trees: Vec<SpanTreeNode<'a>> = Vec::new();
    assert(id_set(visited@) =~= seen.union(forest_ids(trees@)));
    let ghost full = spans_at(spans@, l);
    assert(full.subrange(0, full.len() as int) == full);
    for i in 0..idx.len()
        invariant
            k < spans@.len(),
            kind == child_of() || kind == follows_from(),
            idx@.map_values(|x: usize| x as int) == l,
            l == linked_spans(spans@, kind, spans@[k as int].span_id@),
            forall|t: int| 0 <= t < l.len() ==> 0 <= #[trigger] l[t] < spans@.len(),
            children_sums_fit(spans@),
            is_walk(spans@, walk),
            !has_parent(spans@, spans@[walk[0]]),
            walk.last() == k,
            visited_ok(spans@, visited@),
            old(visited)@.len() <= visited@.len(),
            id_set(visited@) == seen.union(forest_ids(trees@)),
            seen == id_set(old(visited)@),
            forest_valid(spans@, procs@, trees@, seen),
            node_spans(trees@) == spans_at(spans@, l.subrange(0, i as int)),
            full == spans_at(spans@, l),
            forall|f: nat|
                f >= spans@.len() - old(visited)@.len() + 1 ==> #[trigger] walk_list(spans@, procs@, full, seen, f)
                    == walk_list(spans@, procs@, full.subrange(i as int, full.len() as int), id_set(visited@), f),
    {
        let c_idx = idx[i];
        assert(l[i as int] == c_idx as int);
        let ghost w2 = walk.push(c_idx as int);
        proof {
            lemma_walk_step(spans@, walk, kind, i as int);
            lemma_visited_len(spans@, visited@);
        }
        let ghost before = trees@;
        let ghost vis_i = visited@;
        assert(full[i as int] == spans@[c_idx as int]);
        let c = match build_node(spans, procs, c_idx, visited, Ghost(w2)) {
            Ok(c) => c,
            Err(e) => {
                let ghost errv: Result<Vec<SpanTreeNode<'a>>, AnalysisError> = Err(e);
                assert forall|f: nat| f >= spans@.len() - old(visited)@.len() + 1 implies walk_matches(
                    #[trigger] walk_list(spans@, procs@, full, seen, f),
                    errv,
                    id_set(visited@),
                ) by {
                    lemma_walk_list_step(spans@, procs@, full, i as int, id_set(vis_i), f);
                    let w = walk_node(spans@, procs@, spans@[c_idx as int], id_set(vis_i), f);
                    assert(walk_matches(w, Err::<SpanTreeNode<'a>, AnalysisError>(e), id_set(visited@)));
                }
                return Err(e);
            },
        };
        proof {
            assert forall|f: nat| f >= spans@.len() - old(visited)@.len() + 1 implies #[trigger] walk_list(spans@, procs@, full, seen, f)
                == walk_list(spans@, procs@, full.subrange(i + 1, full.len() as int), id_set(visited@), f) by {
                lemma_walk_list_step(spans@, procs@, full, i as int, id_set(vis_i), f);
                let w = walk_node(spans@, procs@, spans@[c_idx as int], id_set(vis_i), f);
                assert(walk_matches(w, Ok::<SpanTreeNode<'a>, AnalysisError>(c), id_set(visited@)));
            }
        }
        trees.push(c);
        proof {
            lemma_forest_push(spans@, procs@, before, c, seen);
            assert(trees@ == before.push(c));
            lemma_node_spans_push(before, c);
            assert(l.subrange(0, i + 1) == l.subrange(0, i as int).push(c_idx as int));
            assert(spans_at(spans@, l.subrange(0, i + 1)) =~= spans_at(spans@, l.subrange(0, i as int)).push(spans@[c_idx as int]));
            assert(id_set(visited@) =~= seen.union(forest_ids(trees@)));
        }
    }
    assert(l.subrange(0, l.len() as int) == l);
    let ghost okv: Result<Vec<SpanTreeNode<'a>>, AnalysisError> = Ok(trees);
    assert forall|f: nat| f >= spans@.len() - old(visited)@.len() + 1 implies walk_matches(
        #[trigger] walk_list(spans@, procs@, full, seen, f),
        okv,
        id_set(visited@),
    ) by {
        assert(full.subrange(full.len() as int, full.len() as int).len() == 0);
    }
    Ok(trees)
}

/// A prefix of a list of spans lasts no longer than the whole list.
proof fn lemma_sum_prefix(s: Seq<Span>, i: int)
    requires
        0 <= i <= s.len(),
    ensures
        sum_durations(s.subrange(0, i)) <= sum_durations(s),
    decreases s.len() - i,
{
    if i < s.len() {
        lemma_sum_prefix(s, i + 1);
        assert(s.subrange(0, i + 1).drop_last() == s.subrange(0, i));
    } else {
        assert(s.subrange(0, i) == s);
    }
}

/// The two reference types differ.
pub proof fn lemma_kinds_differ()
    ensures
        child_of() != follows_from(),
{
    reveal_strlit("CHILD_OF");
    reveal_strlit("FOLLOWS_FROM");
    assert(child_of()[0] != follows_from()[0]);
}

/// The view of an async edge: (producer, consumer, queue latency).
pub open spec fn edge_view<'a>(e: AsyncEdgeInfo<'a>) -> (Span, Span, u64) {
    (*e.producer_span, *e.consumer_span, e.queue_latency)
}

/// Builds the span forest of a trace.
///
/// The roots are the spans (in order) with no reference to a parent or
/// producer that the trace holds. Each tree is built depth first, children
/// (`CHILD_OF`) before consumers (`FOLLOWS_FROM`), each list in the order of
/// the spans and of their references; a span id met again becomes a leaf of
/// no time of its own. A node's own time is its duration less that of its
/// children (0 at least). The async edges list, for each `FOLLOWS_FROM`
/// reference to a span of the trace, the producer, the consumer and the time
/// in between. The result is an error only where a span reachable from a
/// root has no process, and it names the first such span that the
/// depth-first walk meets (`forest_walk`).
pub fn build_span_tree<'a>(spans: &'a [Span], process_map: &'a Vec<(String, Process)>) -> (res: Result<
    (Vec<SpanTreeNode<'a>>, Vec<AsyncEdgeInfo<'a>>),
    AnalysisError,
>)
    requires
        children_sums_fit(spans@),
        producers_fit(spans@),
    ensures
        match res {
            Ok((trees, edges)) => {
                &&& node_spans(trees@) == root_spans(spans@, spans@)
                &&& forest_valid(spans@, process_map@, trees@, Set::empty())
                &&& edges@.map_values(|e: AsyncEdgeInfo<'a>| edge_view(e)) == async_edges_of(spans@, spans@)
            },
            Err(e) => exists|m: int|
                reachable(spans@, m) && lookup_process(process_map@, spans@[m].process_id@) is None && e
                    == AnalysisError::ProcessNotFound { span_id: spans@[m].span_id },
        },
        (forall|m: int| reachable(spans@, m) ==> lookup_process(process_map@, spans@[m].process_id@) is Some)
            ==> res is Ok,
        distinct_ids(spans@) && res is Ok ==> forall|m: int|
            reachable(spans@, m) ==> lookup_process(process_map@, spans@[m].process_id@) is Some,
        match res {
            Ok(_) => forest_walk(spans@, process_map@) is Done,
            Err(e) => forest_walk(spans@, process_map@) matches Walk::Missing(m) && e
                == AnalysisError::ProcessNotFound { span_id: m.span_id },
        },
{
    proof {
        lemma_kinds_differ();
    }
    let mut root_idx: Vec<usize> = Vec::new();
    let mut async_edges: Vec<AsyncEdgeInfo<'a>> = Vec::new();
    for i in 0..spans.len()
        invariant
            producers_fit(spans@),
            child_of() != follows_from(),
            spans_at(spans@, root_idx@.map_values(|x: usize| x as int)) == root_spans(spans@, spans@.subrange(0, i as int)),
            forall|t: int| 0 <= t < root_idx@.len() ==> #[trigger] root_idx@[t] < spans@.len() && !has_parent(spans@, spans@[root_idx@[t] as int]),
            async_edges@.map_values(|e: AsyncEdgeInfo<'a>| edge_view(e)) == async_edges_of(spans@, spans@.subrange(0, i as int)),
    {
        let span = &spans[i];
        assert(spans@.subrange(0, i + 1).drop_last() == spans@.subrange(0, i as int));
        assert(spans@.subrange(0, i + 1).last() == *span);
        let mut has_parent_flag = false;
        let ghost edges_before = async_edges@.map_values(|e: AsyncEdgeInfo<'a>| edge_view(e));
        for j in 0..span.references.len()
            invariant
                i < spans@.len(),
                *span == spans@[i as int],
                producers_fit(spans@),
                child_of() != follows_from(),
                has_parent_flag == exists|j2: int|
                    0 <= j2 < j && is_link_ref(#[trigger] span.references@[j2])
                        && last_span_with_id(spans@, span.references@[j2].span_id@) is Some,
                async_edges@.map_values(|e: AsyncEdgeInfo<'a>| edge_view(e)) == edges_before + refs_async_edges(
                    spans@,
                    *span,
                    span.references@.subrange(0, j as int),
                ),
        {
            let reference = &span.references[j];
            assert(span.references@.subrange(0, j + 1).drop_last() == span.references@.subrange(0, j as int));
            assert(span.references@.subrange(0, j + 1).last() == *reference);
            let ghost prev = async_edges@;
            if str_eq(&reference.ref_type, "CHILD_OF") {
                if find_span(spans, &reference.span_id).is_some() {
                    has_parent_flag = true;
                }
            } else if str_eq(&reference.ref_type, "FOLLOWS_FROM") {
                if let Some(producer_span) = find_span(spans, &reference.span_id) {
                    has_parent_flag = true;
                    let queue_latency = span.start_time.saturating_sub(
                        producer_span.start_time + producer_span.duration,
                    );
                    async_edges.push(AsyncEdgeInfo { producer_span, consumer_span: span, queue_latency });
                    assert(async_edges@.map_values(|e: AsyncEdgeInfo<'a>| edge_view(e)) =~= prev.map_values(
                        |e: AsyncEdgeInfo<'a>| edge_view(e),
                    ).push(edge_view(async_edges@.last())));
                }
            }
            assert(async_edges@.map_values(|e: AsyncEdgeInfo<'a>| edge_view(e)) =~= edges_before + refs_async_edges(
                spans@,
                *span,
                span.references@.subrange(0, j + 1),
            ));
        }
        assert(span.references@.subrange(0, span.references@.len() as int) == span.references@);
        let ghost roots_before = root_idx@;
        if !has_parent_flag {
            root_idx.push(i);
            assert(root_idx@.map_values(|x: usize| x as int) =~= roots_before.map_values(|x: usize| x as int).push(i as int));
            assert(spans_at(spans@, root_idx@.map_values(|x: usize| x as int)) =~= spans_at(
                spans@,
                roots_before.map_values(|x: usize| x as int),
            ).push(*span));
        }
    }
    assert(spans@.subrange(0, spans@.len() as int) == spans@);
    let mut visited: Vec<String> = Vec::new();
    let mut trees: Vec<SpanTreeNode<'a>> = Vec::new();
    assert(visited@.map_values(|s: String| s@) =~= Seq::<Seq<char>>::empty());
    assert(id_set(visited@) =~= Set::<Seq<char>>::empty());
    let ghost roots = root_spans(spans@, spans@);
    let ghost fuel = (spans@.len() + 1) as nat;
    assert(roots.subrange(0, roots.len() as int) == roots);
    for i in 0..root_idx.len()
        invariant
            roots == root_spans(spans@, spans@),
            fuel == spans@.len() + 1,
            spans_at(spans@, root_idx@.map_values(|x: usize| x as int)) == roots,
            walk_list(spans@, process_map@, roots, Set::empty(), fuel) == walk_list(
                spans@,
                process_map@,
                roots.subrange(i as int, roots.len() as int),
                id_set(visited@),
                fuel,
            ),
            children_sums_fit(spans@),
            forall|t: int| 0 <= t < root_idx@.len() ==> #[trigger] root_idx@[t] < spans@.len() && !has_parent(spans@, spans@[root_idx@[t] as int]),
            visited_ok(spans@, visited@),
            id_set(visited@) == forest_ids(trees@),
            forest_valid(spans@, process_map@, trees@, Set::empty()),
            node_spans(trees@) == spans_at(spans@, root_idx@.map_values(|x: usize| x as int).subrange(0, i as int)),
    {
        let r = root_idx[i];
        let ghost w = seq![r as int];
        assert(is_walk(spans@, w));
        let ghost before = trees@;
        let ghost vis_i = visited@;
        assert(roots[i as int] == spans@[r as int]);
        proof {
            lemma_visited_len(spans@, visited@);
            lemma_walk_list_step(spans@, process_map@, roots, i as int, id_set(vis_i), fuel);
        }
        let t = match build_node(spans, process_map, r, &mut visited, Ghost(w)) {
            Ok(t) => t,
            Err(e) => {
                assert(walk_matches(
                    walk_node(spans@, process_map@, spans@[r as int], id_set(vis_i), fuel),
                    Err::<SpanTreeNode<'a>, AnalysisError>(e),
                    id_set(visited@),
                ));
                return Err(e);
            },
        };
        assert(walk_matches(
            walk_node(spans@, process_map@, spans@[r as int], id_set(vis_i), fuel),
            Ok::<SpanTreeNode<'a>, AnalysisError>(t),
            id_set(visited@),
        ));
        trees.push(t);
        proof {
            lemma_forest_push(spans@, process_map@, before, t, Set::empty());
            assert(Set::<Seq<char>>::empty().union(forest_ids(before)) =~= forest_ids(before));
            lemma_node_spans_push(before, t);
            let ri = root_idx@.map_values(|x: usize| x as int);
            assert(ri.subrange(0, i + 1) == ri.subrange(0, i as int).push(r as int));
            assert(spans_at(spans@, ri.subrange(0, i + 1)) =~= spans_at(spans@, ri.subrange(0, i as int)).push(spans@[r as int]));
            assert(id_set(visited@) =~= forest_ids(trees@));
        }
    }
    assert(root_idx@.map_values(|x: usize| x as int).subrange(0, root_idx@.len() as int) == root_idx@.map_values(|x: usize| x as int));
    proof {
        if distinct_ids(spans@) {
            law_forest_covers_reachable(spans@, process_map@, trees@);
        }
        assert(roots.subrange(roots.len() as int, roots.len() as int).len() == 0);
    }
    Ok((trees, async_edges))
}


/// No two spans share an id.
pub open spec fn distinct_ids(spans: Seq<Span>) -> bool {
    forall|i: int, j: int| 0 <= i < spans.len() && 0 <= j < spans.len() && #[trigger] spans[i].span_id@ == #[trigger] spans[j].span_id@ ==> i == j
}

/// A span of id `id` has its process, and the spans that point at it all
/// have their ids in `ids`.
pub open spec fn covered(spans: Seq<Span>, procs: Seq<(String, Process)>, id: Seq<char>, ids: Set<Seq<char>>) -> bool {
    exists|k: int|
        0 <= k < spans.len() && #[trigger] spans[k].span_id@ == id && lookup_process(procs, spans[k].process_id@) is Some
            && forall|m: int| #[trigger] linked(spans, k, m) ==> ids.contains(spans[m].span_id@)
}

/// The span of the node is one of the spans.
pub open spec fn span_in<'a>(spans: Seq<Span>, n: SpanTreeNode<'a>) -> bool {
    exists|k: int| 0 <= k < spans.len() && *n.span == #[trigger] spans[k]
}

/// A reference of type `kind` to `id` puts its span among the spans
/// linked to `id`.
proof fn lemma_ref_hits_pos(refs: Seq<Reference>, kind: Seq<char>, id: Seq<char>, j: int)
    requires
        0 <= j < refs.len(),
        refs[j].ref_type@ == kind,
        refs[j].span_id@ == id,
    ensures
        ref_hits(refs, kind, id) > 0,
    decreases refs.len(),
{
    if j < refs.len() - 1 {
        assert(refs.drop_last()[j] == refs[j]);
        lemma_ref_hits_pos(refs.drop_last(), kind, id, j);
    }
}

/// Every span that points at `id` with a reference of type `kind` is among
/// the spans linked to `id`.
proof fn lemma_linked_spans_complete(spans: Seq<Span>, kind: Seq<char>, id: Seq<char>, m: int, j: int)
    requires
        0 <= m < spans.len(),
        0 <= j < spans[m].references@.len(),
        spans[m].references@[j].ref_type@ == kind,
        spans[m].references@[j].span_id@ == id,
    ensures
        exists|t: int| 0 <= t < linked_spans(spans, kind, id).len() && linked_spans(spans, kind, id)[t] == m,
    decreases spans.len(),
{
    let prev = linked_spans(spans.drop_last(), kind, id);
    let tail = Seq::new(ref_hits(spans.last().references@, kind, id), |_i: int| spans.len() - 1);
    assert(linked_spans(spans, kind, id) == prev + tail);
    if m == spans.len() - 1 {
        lemma_ref_hits_pos(spans.last().references@, kind, id, j);
        assert((prev + tail)[prev.len() as int] == m);
    } else {
        assert(spans.drop_last()[m] == spans[m]);
        lemma_linked_spans_complete(spans.drop_last(), kind, id, m, j);
        let t = choose|t: int| 0 <= t < prev.len() && prev[t] == m;
        assert((prev + tail)[t] == m);
    }
}

/// A forest holds the ids of each of its trees, and a tree its own id.
proof fn lemma_forest_ids_has<'a>(ns: Seq<SpanTreeNode<'a>>, t: int)
    requires
        0 <= t < ns.len(),
    ensures
        forest_ids(ns).contains(ns[t].span.span_id@),
        tree_ids(ns[t]).subset_of(forest_ids(ns)),
    decreases ns.len(),
{
    if t < ns.len() - 1 {
        assert(ns.drop_last()[t] == ns[t]);
        lemma_forest_ids_has(ns.drop_last(), t);
    } else {
        assert(ns.last() == ns[t]);
        assert(tree_ids(ns[t]).contains(ns[t].span.span_id@));
    }
}

/// The spans linked to an expanded node's span are nodes below it.
proof fn lemma_expanded_links<'a>(spans: Seq<Span>, procs: Seq<(String, Process)>, n: SpanTreeNode<'a>, k: int, m: int)
    requires
        node_expanded(spans, procs, n),
        0 <= k < spans.len(),
        *n.span == spans[k],
        linked(spans, k, m),
    ensures
        forest_ids(n.children@).union(forest_ids(n.follows_from@)).contains(spans[m].span_id@),
{
    let id = spans[k].span_id@;
    let j = choose|j: int|
        0 <= j < spans[m].references@.len() && is_link_ref(#[trigger] spans[m].references@[j])
            && spans[m].references@[j].span_id@ == spans[k].span_id@;
    let kind = spans[m].references@[j].ref_type@;
    lemma_linked_spans_complete(spans, kind, id, m, j);
    let ls = linked_spans(spans, kind, id);
    let t = choose|t: int| 0 <= t < ls.len() && ls[t] == m;
    if kind == child_of() {
        assert(node_spans(n.children@)[t] == spans_at(spans, ls)[t]);
        assert(*n.children@[t].span == spans[m]);
        lemma_forest_ids_has(n.children@, t);
    } else {
        lemma_kinds_differ();
        assert(kind == follows_from());
        assert(node_spans(n.follows_from@).len() == ls.len());
        assert(node_spans(n.follows_from@)[t] == spans_at(spans, ls)[t]);
        assert(node_spans(n.follows_from@)[t] == *n.follows_from@[t].span);
        assert(*n.follows_from@[t].span == spans[m]);
        lemma_forest_ids_has(n.follows_from@, t);
    }
}

/// The nodes below an expanded node have spans among the spans.
proof fn lemma_expanded_spans_in<'a>(spans: Seq<Span>, procs: Seq<(String, Process)>, n: SpanTreeNode<'a>)
    requires
        node_expanded(spans, procs, n),
    ensures
        forall|t: int| 0 <= t < n.children@.len() ==> span_in(spans, #[trigger] n.children@[t]),
        forall|t: int| 0 <= t < n.follows_from@.len() ==> span_in(spans, #[trigger] n.follows_from@[t]),
{
    lemma_linked_spans(spans, child_of(), n.span.span_id@);
    lemma_linked_spans(spans, follows_from(), n.span.span_id@);
    assert forall|t: int| 0 <= t < n.children@.len() implies span_in(spans, #[trigger] n.children@[t]) by {
        let ls = linked_spans(spans, child_of(), n.span.span_id@);
        assert(node_spans(n.children@)[t] == spans_at(spans, ls)[t]);
        assert(*n.children@[t].span == spans[ls[t]]);
    }
    assert forall|t: int| 0 <= t < n.follows_from@.len() implies span_in(spans, #[trigger] n.follows_from@[t]) by {
        let ls = linked_spans(spans, follows_from(), n.span.span_id@);
        assert(node_spans(n.follows_from@).len() == ls.len());
        assert(node_spans(n.follows_from@)[t] == spans_at(spans, ls)[t]);
        assert(node_spans(n.follows_from@)[t] == *n.follows_from@[t].span);
        assert(spans_at(spans, ls)[t] == spans[ls[t]]);
        assert(*n.follows_from@[t].span == spans[ls[t]]);
    }
}

/// Covered within some ids is covered within more.
proof fn lemma_covered_mono(spans: Seq<Span>, procs: Seq<(String, Process)>, id: Seq<char>, a: Set<Seq<char>>, b: Set<Seq<char>>)
    requires
        covered(spans, procs, id, a),
        a.subset_of(b),
    ensures
        covered(spans, procs, id, b),
{
    let k = choose|k: int|
        0 <= k < spans.len() && #[trigger] spans[k].span_id@ == id && lookup_process(procs, spans[k].process_id@) is Some
            && forall|m: int| #[trigger] linked(spans, k, m) ==> a.contains(spans[m].span_id@);
    assert forall|m: int| #[trigger] linked(spans, k, m) implies b.contains(spans[m].span_id@) by {}
}

/// Each id of a valid tree that was not seen before it is covered within
/// the tree.
proof fn lemma_tree_covered<'a>(spans: Seq<Span>, procs: Seq<(String, Process)>, n: SpanTreeNode<'a>, seen: Set<Seq<char>>)
    requires
        tree_valid(spans, procs, n, seen),
        span_in(spans, n),
    ensures
        forall|x: Seq<char>| #[trigger] tree_ids(n).contains(x) && !seen.contains(x) ==> covered(spans, procs, x, tree_ids(n)),
    decreases n,
{
    let id = n.span.span_id@;
    if seen.contains(id) {
        assert(forest_ids(n.children@) =~= Set::empty());
        assert(forest_ids(n.follows_from@) =~= Set::empty());
        assert(tree_ids(n) =~= set![id]);
    } else {
        let seen1 = seen.insert(id);
        let cids = forest_ids(n.children@);
        let fids = forest_ids(n.follows_from@);
        lemma_expanded_spans_in(spans, procs, n);
        lemma_forest_covered(spans, procs, n.children@, seen1);
        lemma_forest_covered(spans, procs, n.follows_from@, seen1.union(cids));
        assert(cids.subset_of(tree_ids(n)));
        assert(fids.subset_of(tree_ids(n)));
        let k = choose|k: int| 0 <= k < spans.len() && *n.span == #[trigger] spans[k];
        assert forall|x: Seq<char>| #[trigger] tree_ids(n).contains(x) && !seen.contains(x) implies covered(
            spans,
            procs,
            x,
            tree_ids(n),
        ) by {
            if x == id {
                assert forall|m: int| #[trigger] linked(spans, k, m) implies tree_ids(n).contains(spans[m].span_id@) by {
                    lemma_expanded_links(spans, procs, n, k, m);
                }
                assert(spans[k].span_id@ == x);
            } else if cids.contains(x) {
                lemma_covered_mono(spans, procs, x, cids, tree_ids(n));
            } else {
                assert(fids.contains(x));
                lemma_covered_mono(spans, procs, x, fids, tree_ids(n));
            }
        }
    }
}

/// Each id of a valid forest that was not seen before it is covered within
/// the forest.
proof fn lemma_forest_covered<'a>(spans: Seq<Span>, procs: Seq<(String, Process)>, ns: Seq<SpanTreeNode<'a>>, seen: Set<Seq<char>>)
    requires
        forest_valid(spans, procs, ns, seen),
        forall|t: int| 0 <= t < ns.len() ==> span_in(spans, #[trigger] ns[t]),
    ensures
        forall|x: Seq<char>| #[trigger] forest_ids(ns).contains(x) && !seen.contains(x) ==> covered(spans, procs, x, forest_ids(ns)),
    decreases ns,
{
    if ns.len() > 0 {
        let d = ns.drop_last();
        let last = ns.last();
        assert forall|t: int| 0 <= t < d.len() implies span_in(spans, #[trigger] d[t]) by {
            assert(d[t] == ns[t]);
        }
        assert(span_in(spans, ns[ns.len() - 1]));
        lemma_forest_covered(spans, procs, d, seen);
        let seen2 = seen.union(forest_ids(d));
        lemma_tree_covered(spans, procs, last, seen2);
        assert forall|x: Seq<char>| #[trigger] forest_ids(ns).contains(x) && !seen.contains(x) implies covered(
            spans,
            procs,
            x,
            forest_ids(ns),
        ) by {
            if forest_ids(d).contains(x) {
                lemma_covered_mono(spans, procs, x, forest_ids(d), forest_ids(ns));
            } else {
                lemma_covered_mono(spans, procs, x, tree_ids(last), forest_ids(ns));
            }
        }
    }
}

/// A walk from a root of the forest stays among the forest's ids.
proof fn lemma_walk_covered(spans: Seq<Span>, procs: Seq<(String, Process)>, ids: Set<Seq<char>>, p: Seq<int>, t: int)
    requires
        is_walk(spans, p),
        0 <= t < p.len(),
        ids.contains(spans[p[0]].span_id@),
        forall|x: Seq<char>| #[trigger] ids.contains(x) ==> covered(spans, procs, x, ids),
    ensures
        ids.contains(spans[p[t]].span_id@),
    decreases t,
{
    if t > 0 {
        lemma_walk_covered(spans, procs, ids, p, t - 1);
        let x = spans[p[t - 1]].span_id@;
        assert(covered(spans, procs, x, ids));
        let k = choose|k: int|
            0 <= k < spans.len() && #[trigger] spans[k].span_id@ == x && lookup_process(procs, spans[k].process_id@) is Some
                && forall|m: int| #[trigger] linked(spans, k, m) ==> ids.contains(spans[m].span_id@);
        assert(linked(spans, p[t - 1], p[t]));
        let j = choose|j: int|
            0 <= j < spans[p[t]].references@.len() && is_link_ref(#[trigger] spans[p[t]].references@[j])
                && spans[p[t]].references@[j].span_id@ == spans[p[t - 1]].span_id@;
        assert(linked(spans, k, p[t]));
    }
}

/// Where the span ids are distinct, the span forest built for a trace
/// holds every span reachable from a root, each with its process: so the
/// build succeeds exactly when every reachable span has its process.
pub proof fn law_forest_covers_reachable<'a>(spans: Seq<Span>, procs: Seq<(String, Process)>, roots: Seq<SpanTreeNode<'a>>)
    requires
        distinct_ids(spans),
        node_spans(roots) == root_spans(spans, spans),
        forest_valid(spans, procs, roots, Set::empty()),
    ensures
        forall|m: int| reachable(spans, m) ==> lookup_process(procs, spans[m].process_id@) is Some,
{
    lemma_roots_in_spans(spans, spans);
    assert forall|t: int| 0 <= t < roots.len() implies span_in(spans, #[trigger] roots[t]) by {
        assert(node_spans(roots)[t] == *roots[t].span);
        let k = choose|k: int|
            0 <= k < spans.len() && #[trigger] root_spans(spans, spans)[t] == spans[k] && !has_parent(spans, spans[k]);
    }
    lemma_forest_covered(spans, procs, roots, Set::empty());
    let ids = forest_ids(roots);
    assert forall|m: int| reachable(spans, m) implies lookup_process(procs, spans[m].process_id@) is Some by {
        let p = choose|p: Seq<int>| is_walk(spans, p) && !has_parent(spans, spans[p[0]]) && #[trigger] p.last() == m;
        lemma_root_in_roots(spans, spans, p[0]);
        let t0 = choose|t: int| 0 <= t < root_spans(spans, spans).len() && root_spans(spans, spans)[t] == spans[p[0]];
        assert(node_spans(roots)[t0] == *roots[t0].span);
        lemma_forest_ids_has(roots, t0);
        lemma_walk_covered(spans, procs, ids, p, p.len() - 1);
        let x = spans[m].span_id@;
        assert(covered(spans, procs, x, ids));
        let k = choose|k: int|
            0 <= k < spans.len() && #[trigger] spans[k].span_id@ == x && lookup_process(procs, spans[k].process_id@) is Some
                && forall|m2: int| #[trigger] linked(spans, k, m2) ==> ids.contains(spans[m2].span_id@);
        assert(k == m);
    }
}

/// The root spans of a prefix are spans of it without parent.
proof fn lemma_roots_in_spans(all: Seq<Span>, spans: Seq<Span>)
    ensures
        forall|i: int| 0 <= i < root_spans(all, spans).len() ==> exists|k: int|
            0 <= k < spans.len() && #[trigger] root_spans(all, spans)[i] == spans[k] && !has_parent(all, spans[k]),
    decreases spans.len(),
{
    if spans.len() > 0 {
        lemma_roots_in_spans(all, spans.drop_last());
        assert forall|i: int| 0 <= i < root_spans(all, spans).len() implies exists|k: int|
            0 <= k < spans.len() && #[trigger] root_spans(all, spans)[i] == spans[k] && !has_parent(all, spans[k]) by {
            if i < root_spans(all, spans.drop_last()).len() {
                assert(root_spans(all, spans)[i] == root_spans(all, spans.drop_last())[i]);
                let k = choose|k: int|
                    0 <= k < spans.drop_last().len() && #[trigger] root_spans(all, spans.drop_last())[i] == spans.drop_last()[k]
                        && !has_parent(all, spans.drop_last()[k]);
                assert(spans.drop_last()[k] == spans[k]);
            } else {
                assert(root_spans(all, spans)[i] == spans[spans.len() - 1]);
            }
        }
    }
}

/// A span of a prefix without parent is among the root spans.
proof fn lemma_root_in_roots(all: Seq<Span>, spans: Seq<Span>, k: int)
    requires
        0 <= k < spans.len(),
        !has_parent(all, spans[k]),
    ensures
        exists|t: int| 0 <= t < root_spans(all, spans).len() && root_spans(all, spans)[t] == spans[k],
    decreases spans.len(),
{
    if k < spans.len() - 1 {
        assert(spans.drop_last()[k] == spans[k]);
        lemma_root_in_roots(all, spans.drop_last(), k);
        let t = choose|t: int| 0 <= t < root_spans(all, spans.drop_last()).len() && root_spans(all, spans.drop_last())[t] == spans[k];
        assert(root_spans(all, spans)[t] == spans[k]);
    } else {
        assert(root_spans(all, spans)[root_spans(all, spans).len() - 1] == spans[k]);
    }
}

/// The roots of a span forest are exactly the spans with neither parent
/// nor producer among the spans, in input order.
pub proof fn law_roots_are_unlinked(all: Seq<Span>, spans: Seq<Span>)
    ensures
        root_spans(all, spans) == spans.filter(|s: Span| !has_parent(all, s)),
    decreases spans.len(),
{
    reveal(Seq::filter);
    if spans.len() > 0 {
        law_roots_are_unlinked(all, spans.drop_last());
    }
}

/// `e` is the async edge of reference `r` of `consumer`: `r` is a
/// `FOLLOWS_FROM` reference to a span of the trace (the last of that id), the
/// producer, and the queue latency is the time from the producer's end to
/// the consumer's start (0 if none).
pub open spec fn follows_edge(all: Seq<Span>, consumer: Span, r: Reference, e: (Span, Span, u64)) -> bool {
    &&& r.ref_type@ == follows_from()
    &&& last_span_with_id(all, r.span_id@) matches Some(p) && e == (
        all[p],
        consumer,
        sat_sub(consumer.start_time as int, all[p].start_time + all[p].duration),
    )
}

/// Each async edge of some references is the edge of one of them.
proof fn lemma_refs_edges_from(all: Seq<Span>, consumer: Span, refs: Seq<Reference>, i: int)
    requires
        0 <= i < refs_async_edges(all, consumer, refs).len(),
    ensures
        exists|j: int| 0 <= j < refs.len() && follows_edge(all, consumer, #[trigger] refs[j], refs_async_edges(all, consumer, refs)[i]),
    decreases refs.len(),
{
    let prev = refs_async_edges(all, consumer, refs.drop_last());
    if i < prev.len() {
        lemma_refs_edges_from(all, consumer, refs.drop_last(), i);
        let j = choose|j: int| 0 <= j < refs.drop_last().len() && follows_edge(all, consumer, #[trigger] refs.drop_last()[j], prev[i]);
        assert(refs.drop_last()[j] == refs[j]);
    } else {
        assert(refs.last() == refs[refs.len() - 1]);
    }
}

/// Each async edge of some spans is the edge of a reference of one of them.
proof fn lemma_edges_from(all: Seq<Span>, spans: Seq<Span>, i: int)
    requires
        0 <= i < async_edges_of(all, spans).len(),
    ensures
        exists|k: int, j: int|
            0 <= k < spans.len() && 0 <= j < spans[k].references@.len() && follows_edge(
                all,
                spans[k],
                #[trigger] spans[k].references@[j],
                async_edges_of(all, spans)[i],
            ),
    decreases spans.len(),
{
    let prev = async_edges_of(all, spans.drop_last());
    let last = refs_async_edges(all, spans.last(), spans.last().references@);
    if i < prev.len() {
        assert(async_edges_of(all, spans)[i] == prev[i]);
        lemma_edges_from(all, spans.drop_last(), i);
        let (k, j) = choose|k: int, j: int|
            0 <= k < spans.drop_last().len() && 0 <= j < spans.drop_last()[k].references@.len() && follows_edge(
                all,
                spans.drop_last()[k],
                #[trigger] spans.drop_last()[k].references@[j],
                prev[i],
            );
        assert(spans.drop_last()[k] == spans[k]);
    } else {
        assert(async_edges_of(all, spans)[i] == last[i - prev.len()]);
        assert(spans.last() == spans[spans.len() - 1]);
        lemma_refs_edges_from(all, spans.last(), spans.last().references@, i - prev.len());
    }
}

/// Every async edge of a trace stands for a `FOLLOWS_FROM` reference of a
/// span to a span of the trace (the last of its id): that span is the
/// producer, the referring span the consumer, and the queue latency the time
/// from the producer's end to the consumer's start, 0 if none.
pub proof fn law_async_edges_from_references(spans: Seq<Span>, i: int)
    requires
        0 <= i < async_edges_of(spans, spans).len(),
    ensures
        exists|k: int, j: int|
            0 <= k < spans.len() && 0 <= j < spans[k].references@.len() && follows_edge(
                spans,
                spans[k],
                #[trigger] spans[k].references@[j],
                async_edges_of(spans, spans)[i],
            ),
{
    lemma_edges_from(spans, spans, i);
}

/// A node of a built tree whose span is met for the first time has as
/// children the spans that name it with `CHILD_OF`, as consumers those that
/// name it with `FOLLOWS_FROM` (each in input order), the service of its
/// span's process, and as own time its duration less its children's (0 at
/// least); a span met again is a leaf of no time of its own. Neither is an
/// async root.
pub proof fn law_tree_nodes<'a>(spans: Seq<Span>, procs: Seq<(String, Process)>, n: SpanTreeNode<'a>, seen: Set<Seq<char>>)
    requires
        tree_valid(spans, procs, n, seen),
    ensures
        !seen.contains(n.span.span_id@) ==> {
            &&& lookup_process(procs, n.span.process_id@) matches Some(p) && n.service_name@ == p.service_name@
            &&& node_spans(n.children@) == spans_at(spans, linked_spans(spans, child_of(), n.span.span_id@))
            &&& node_spans(n.follows_from@) == spans_at(spans, linked_spans(spans, follows_from(), n.span.span_id@))
            &&& n.self_duration == sat_sub(n.span.duration as int, sum_durations(node_spans(n.children@)) as int)
        },
        seen.contains(n.span.span_id@) ==> n.children@.len() == 0 && n.follows_from@.len() == 0 && n.self_duration == 0,
        !n.is_async_root,
{
}

} // verus!
