//! The critical path of a trace: the root-to-leaf path of its span forest
//! whose spans spend the most time of their own.

use vstd::prelude::*;
use crate::models::{AnalysisError, CriticalPathNode, Process, ServiceScore, clone_path_node};
use crate::span_tree::{AsyncEdgeInfo, SpanTreeNode, edge_view};
use crate::models::Span;

verus! {

/// A path and its weight (the own time of its spans).
pub type WeightedPath = (Seq<CriticalPathNode>, int);

/// The critical path entry of node `n`, in a tree whose root starts at
/// `root_start`.
pub open spec fn cp_node<'a>(n: SpanTreeNode<'a>, root_start: u64, is_async: bool, delay: Option<u64>) -> CriticalPathNode {
    CriticalPathNode {
        service_name: n.service_name,
        span_id: n.span.span_id,
        operation: n.span.operation,
        duration: n.span.duration,
        start_time: n.span.start_time,
        cumulative_duration: (n.span.start_time + n.span.duration - root_start) as u64,
        is_bottleneck: false,
        is_async,
        async_propagation_delay: delay,
    }
}

/// The queue latency of the first async edge whose consumer has id `id`.
pub open spec fn edge_delay(edges: Seq<(Span, Span, u64)>, id: Seq<char>) -> Option<u64>
    decreases edges.len(),
{
    if edges.len() == 0 {
        None
    } else if edges[0].1.span_id@ == id {
        Some(edges[0].2)
    } else {
        edge_delay(edges.drop_first(), id)
    }
}

/// The paths `ps`, each behind `pre` and weighing `w` more.
pub open spec fn with_prefix(pre: Seq<CriticalPathNode>, w: int, ps: Seq<WeightedPath>) -> Seq<WeightedPath> {
    ps.map_values(|e: WeightedPath| (pre + e.0, w + e.1))
}

/// The root-to-leaf paths of the tree of `n`, depth first, children before
/// consumers.
pub open spec fn tree_paths<'a>(
    n: SpanTreeNode<'a>,
    root_start: u64,
    is_async: bool,
    delay: Option<u64>,
    edges: Seq<(Span, Span, u64)>,
) -> Seq<WeightedPath>
    decreases n,
{
    let me = cp_node(n, root_start, is_async, delay);
    if n.children@.len() == 0 && n.follows_from@.len() == 0 {
        seq![(seq![me], n.self_duration as int)]
    } else {
        with_prefix(
            seq![me],
            n.self_duration as int,
            forest_paths(n.children@, root_start, edges) + consumer_paths(
                n.follows_from@,
                root_start,
                edges,
            ),
        )
    }
}

/// The paths of a list of child trees.
pub open spec fn forest_paths<'a>(ns: Seq<SpanTreeNode<'a>>, root_start: u64, edges: Seq<(Span, Span, u64)>) -> Seq<WeightedPath>
    decreases ns,
{
    if ns.len() == 0 {
        Seq::empty()
    } else {
        forest_paths(ns.drop_last(), root_start, edges) + tree_paths(
            ns.last(),
            root_start,
            false,
            None,
            edges,
        )
    }
}

/// The paths of a list of consumer trees; each consumer is entered
/// asynchronously, with the queue latency of its async edge.
pub open spec fn consumer_paths<'a>(ns: Seq<SpanTreeNode<'a>>, root_start: u64, edges: Seq<(Span, Span, u64)>) -> Seq<WeightedPath>
    decreases ns,
{
    if ns.len() == 0 {
        Seq::empty()
    } else {
        consumer_paths(ns.drop_last(), root_start, edges) + tree_paths(
            ns.last(),
            root_start,
            true,
            edge_delay(edges, ns.last().span.span_id@),
            edges,
        )
    }
}

/// The paths of a list of root trees, each timed from its own root.
pub open spec fn roots_paths<'a>(ns: Seq<SpanTreeNode<'a>>, edges: Seq<(Span, Span, u64)>) -> Seq<WeightedPath>
    decreases ns.len(),
{
    if ns.len() == 0 {
        Seq::empty()
    } else {
        roots_paths(ns.drop_last(), edges) + tree_paths(
            ns.last(),
            ns.last().span.start_time,
            false,
            None,
            edges,
        )
    }
}

/// The heavier of the best path so far and a candidate; a tie keeps the
/// earlier one.
pub open spec fn better(best: WeightedPath, cand: WeightedPath) -> WeightedPath {
    if cand.1 > best.1 {
        cand
    } else {
        best
    }
}

/// The best path of `ps`, starting from `init`.
pub open spec fn fold_best(init: WeightedPath, ps: Seq<WeightedPath>) -> WeightedPath
    decreases ps.len(),
{
    if ps.len() == 0 {
        init
    } else {
        better(fold_best(init, ps.drop_last()), ps.last())
    }
}

/// The longest duration on a path.
pub open spec fn max_duration(p: Seq<CriticalPathNode>) -> u64
    decreases p.len(),
{
    if p.len() == 0 {
        0
    } else if p.last().duration >= max_duration(p.drop_last()) {
        p.last().duration
    } else {
        max_duration(p.drop_last())
    }
}

/// A node is a bottleneck when it lasts at least 30% of the longest node of
/// the path.
pub open spec fn is_bottleneck_duration(d: u64, max: u64) -> bool {
    10 * d >= 3 * max
}

/// The path with its bottlenecks marked.
pub open spec fn mark_bottlenecks(p: Seq<CriticalPathNode>) -> Seq<CriticalPathNode> {
    p.map_values(
        |n: CriticalPathNode|
            CriticalPathNode { is_bottleneck: is_bottleneck_duration(n.duration, max_duration(p)), ..n },
    )
}

/// The critical path of a span forest.
pub open spec fn critical_path_of<'a>(roots: Seq<SpanTreeNode<'a>>, edges: Seq<(Span, Span, u64)>) -> Seq<
    CriticalPathNode,
> {
    mark_bottlenecks(fold_best((Seq::empty(), 0), roots_paths(roots, edges)).0)
}

/// Every path from `n` down weighs, with `base` more, what a `u64` holds.
pub open spec fn tree_fits<'a>(n: SpanTreeNode<'a>, base: int) -> bool
    decreases n,
{
    &&& base + n.self_duration <= u64::MAX
    &&& forall|i: int| 0 <= i < n.children@.len() ==> tree_fits(#[trigger] n.children@[i], base + n.self_duration)
    &&& forall|i: int| 0 <= i < n.follows_from@.len() ==> tree_fits(#[trigger] n.follows_from@[i], base + n.self_duration)
}

/// Every span of the tree of `n` ends at a time that a `u64` holds, no
/// earlier than `root_start`.
pub open spec fn tree_times_ok<'a>(n: SpanTreeNode<'a>, root_start: int) -> bool
    decreases n,
{
    &&& root_start <= n.span.start_time + n.span.duration <= u64::MAX
    &&& forall|i: int| 0 <= i < n.children@.len() ==> tree_times_ok(#[trigger] n.children@[i], root_start)
    &&& forall|i: int| 0 <= i < n.follows_from@.len() ==> tree_times_ok(#[trigger] n.follows_from@[i], root_start)
}

/// Folding over two lists is folding over the first, then the second.
pub proof fn lemma_fold_concat(init: WeightedPath, a: Seq<WeightedPath>, b: Seq<WeightedPath>)
    ensures
        fold_best(init, a + b) == fold_best(fold_best(init, a), b),
    decreases b.len(),
{
    if b.len() == 0 {
        assert(a + b == a);
    } else {
        lemma_fold_concat(init, a, b.drop_last());
        assert((a + b).drop_last() == a + b.drop_last());
        assert((a + b).last() == b.last());
    }
}

/// A prefix distributes over concatenation.
proof fn lemma_with_prefix_concat(pre: Seq<CriticalPathNode>, w: int, a: Seq<WeightedPath>, b: Seq<WeightedPath>)
    ensures
        with_prefix(pre, w, a + b) == with_prefix(pre, w, a) + with_prefix(pre, w, b),
{
    assert(with_prefix(pre, w, a + b) =~= with_prefix(pre, w, a) + with_prefix(pre, w, b));
}

/// Two prefixes in a row are one prefix.
proof fn lemma_with_prefix_compose(pre: Seq<CriticalPathNode>, w: int, q: Seq<CriticalPathNode>, v: int, ps: Seq<WeightedPath>)
    ensures
        with_prefix(pre, w, with_prefix(q, v, ps)) == with_prefix(pre + q, w + v, ps),
{
    assert forall|i: int| 0 <= i < ps.len() implies #[trigger] with_prefix(pre, w, with_prefix(q, v, ps))[i]
        == with_prefix(pre + q, w + v, ps)[i] by {
        assert(pre + (q + ps[i].0) =~= (pre + q) + ps[i].0);
    }
    assert(with_prefix(pre, w, with_prefix(q, v, ps)) =~= with_prefix(pre + q, w + v, ps));
}

/// The queue latency of the first async edge whose consumer has id `id`.
fn find_delay<'a>(edges: &[AsyncEdgeInfo<'a>], id: &String) -> (res: Option<u64>)
    ensures
        res == edge_delay(edges@.map_values(|e: AsyncEdgeInfo<'a>| edge_view(e)), id@),
{
    let ghost ev = edges@.map_values(|e: AsyncEdgeInfo<'a>| edge_view(e));
    let mut i: usize = 0;
    assert(ev.subrange(0, ev.len() as int) == ev);
    while i < edges.len()
        invariant
            i <= edges@.len(),
            ev == edges@.map_values(|e: AsyncEdgeInfo<'a>| edge_view(e)),
            edge_delay(ev, id@) == edge_delay(ev.subrange(i as int, ev.len() as int), id@),
        decreases edges.len() - i,
    {
        assert(ev.subrange(i as int, ev.len() as int).drop_first() == ev.subrange(i + 1, ev.len() as int));
        assert(ev.subrange(i as int, ev.len() as int)[0] == edge_view(edges@[i as int]));
        if edges[i].consumer_span.span_id == *id {
            return Some(edges[i].queue_latency);
        }
        i = i + 1;
    }
    None
}

/// A copy of a path.
fn clone_path(p: &Vec<CriticalPathNode>) -> (res: Vec<CriticalPathNode>)
    ensures
        res@ == p@,
{
    let mut out: Vec<CriticalPathNode> = Vec::new();
    for i in 0..p.len()
        invariant
            out@ == p@.subrange(0, i as int),
    {
        out.push(clone_path_node(&p[i]));
    }
    assert(p@.subrange(0, p@.len() as int) == p@);
    out
}

/// Walks the tree of `node` depth first behind `current_path` (whose own
/// time is `current_self`) and keeps in `longest_path` the heaviest
/// root-to-leaf path met so far.
fn find_longest_path<'a>(
    node: &SpanTreeNode<'a>,
    current_path: &mut Vec<CriticalPathNode>,
    longest_path: &mut Vec<CriticalPathNode>,
    current_self: u64,
    longest_self: &mut u64,
    root_start: u64,
    is_async: bool,
    async_propagation_delay: Option<u64>,
    async_edges: &[AsyncEdgeInfo<'a>],
)
    requires
        tree_fits(*node, current_self as int),
        tree_times_ok(*node, root_start as int),
    ensures
        final(current_path)@ == old(current_path)@,
        final(longest_path)@ == fold_best(
            (old(longest_path)@, *old(longest_self) as int),
            with_prefix(
                old(current_path)@,
                current_self as int,
                tree_paths(*node, root_start, is_async, async_propagation_delay, async_edges@.map_values(|e: AsyncEdgeInfo<'a>| edge_view(e))),
            ),
        ).0,
        *final(longest_self) as int == fold_best(
            (old(longest_path)@, *old(longest_self) as int),
            with_prefix(
                old(current_path)@,
                current_self as int,
                tree_paths(*node, root_start, is_async, async_propagation_delay, async_edges@.map_values(|e: AsyncEdgeInfo<'a>| edge_view(e))),
            ),
        ).1,
    decreases node,
{
    let ghost ev = async_edges@.map_values(|e: AsyncEdgeInfo<'a>| edge_view(e));
    let ghost cur0 = current_path@;
    let ghost state0: WeightedPath = (longest_path@, *longest_self as int);
    let node_end_time = node.span.start_time + node.span.duration;
    let cumulative_duration = node_end_time - root_start;
    let me = CriticalPathNode {
        service_name: node.service_name.clone(),
        span_id: node.span.span_id.clone(),
        operation: node.span.operation.clone(),
        duration: node.span.duration,
        start_time: node.span.start_time,
        cumulative_duration,
        is_bottleneck: false,
        is_async,
        async_propagation_delay,
    };
    assert(me == cp_node(*node, root_start, is_async, async_propagation_delay));
    current_path.push(me);
    let new_self = current_self + node.self_duration;
    let ghost cur1 = current_path@;
    assert(cur1 == cur0 + seq![me]);
    if node.children.len() == 0 && node.follows_from.len() == 0 {
        if new_self > *longest_self {
            *longest_self = new_self;
            *longest_path = clone_path(current_path);
        }
        proof {
            let ps = with_prefix(cur0, current_self as int, tree_paths(*node, root_start, is_async, async_propagation_delay, ev));
            assert(ps =~= seq![(cur1, new_self as int)]);
            assert(ps.drop_last() =~= Seq::<WeightedPath>::empty());
        }
    }
    proof {
        assert(state0 == fold_best(state0, forest_paths(node.children@.subrange(0, 0), root_start, ev)));
    }
    for i in 0..node.children.len()
        invariant
            current_path@ == cur1,
            tree_fits(*node, current_self as int),
            tree_times_ok(*node, root_start as int),
            new_self == current_self + node.self_duration,
            ev == async_edges@.map_values(|e: AsyncEdgeInfo<'a>| edge_view(e)),
            node.children@.len() > 0 || node.follows_from@.len() > 0 ==> (longest_path@, *longest_self as int)
                == fold_best(state0, with_prefix(cur1, new_self as int, forest_paths(node.children@.subrange(0, i as int), root_start, ev))),
            node.children@.len() == 0 && node.follows_from@.len() == 0 ==> (longest_path@, *longest_self as int)
                == fold_best(state0, with_prefix(cur0, current_self as int, tree_paths(*node, root_start, is_async, async_propagation_delay, ev))),
    {
        let child = &node.children[i];
        assert(tree_fits(*child, new_self as int));
        assert(tree_times_ok(*child, root_start as int));
        let ghost st = (longest_path@, *longest_self as int);
        find_longest_path(child, current_path, longest_path, new_self, longest_self, root_start, false, None, async_edges);
        proof {
            let pre = node.children@.subrange(0, i as int);
            assert(node.children@.subrange(0, i + 1).drop_last() == pre);
            assert(node.children@.subrange(0, i + 1).last() == *child);
            lemma_with_prefix_concat(cur1, new_self as int, forest_paths(pre, root_start, ev), tree_paths(*child, root_start, false, None, ev));
            lemma_fold_concat(state0, with_prefix(cur1, new_self as int, forest_paths(pre, root_start, ev)), with_prefix(cur1, new_self as int, tree_paths(*child, root_start, false, None, ev)));
        }
    }
    assert(node.children@.subrange(0, node.children@.len() as int) == node.children@);
    let ghost state1: WeightedPath = (longest_path@, *longest_self as int);
    proof {
        assert(state1 == fold_best(state1, consumer_paths(node.follows_from@.subrange(0, 0), root_start, ev)));
    }
    for i in 0..node.follows_from.len()
        invariant
            current_path@ == cur1,
            tree_fits(*node, current_self as int),
            tree_times_ok(*node, root_start as int),
            new_self == current_self + node.self_duration,
            ev == async_edges@.map_values(|e: AsyncEdgeInfo<'a>| edge_view(e)),
            (longest_path@, *longest_self as int) == fold_best(
                state1,
                with_prefix(cur1, new_self as int, consumer_paths(node.follows_from@.subrange(0, i as int), root_start, ev)),
            ),
    {
        let consumer = &node.follows_from[i];
        assert(tree_fits(*consumer, new_self as int));
        assert(tree_times_ok(*consumer, root_start as int));
        let queue_latency = find_delay(async_edges, &consumer.span.span_id);
        find_longest_path(consumer, current_path, longest_path, new_self, longest_self, root_start, true, queue_latency, async_edges);
        proof {
            let pre = node.follows_from@.subrange(0, i as int);
            assert(node.follows_from@.subrange(0, i + 1).drop_last() == pre);
            assert(node.follows_from@.subrange(0, i + 1).last() == *consumer);
            lemma_with_prefix_concat(cur1, new_self as int, consumer_paths(pre, root_start, ev), tree_paths(*consumer, root_start, true, queue_latency, ev));
            lemma_fold_concat(state1, with_prefix(cur1, new_self as int, consumer_paths(pre, root_start, ev)), with_prefix(cur1, new_self as int, tree_paths(*consumer, root_start, true, queue_latency, ev)));
        }
    }
    assert(node.follows_from@.subrange(0, node.follows_from@.len() as int) == node.follows_from@);
    current_path.pop();
    assert(current_path@ =~= cur0);
    proof {
        if node.children@.len() > 0 || node.follows_from@.len() > 0 {
            let f = forest_paths(node.children@, root_start, ev);
            let c = consumer_paths(node.follows_from@, root_start, ev);
            lemma_with_prefix_compose(cur0, current_self as int, seq![me], node.self_duration as int, f + c);
            lemma_with_prefix_concat(cur1, new_self as int, f, c);
            lemma_fold_concat(state0, with_prefix(cur1, new_self as int, f), with_prefix(cur1, new_self as int, c));
        } else {
            assert(node.follows_from@.subrange(0, 0) =~= Seq::<SpanTreeNode<'a>>::empty());
            assert(with_prefix(cur1, new_self as int, consumer_paths(Seq::<SpanTreeNode<'a>>::empty(), root_start, ev)) =~= Seq::<WeightedPath>::empty());
        }
    }
}

/// The critical path of a span forest: of all root-to-leaf paths, depth
/// first (children before consumers, trees in order), the first whose spans
/// spend the most time of their own; none if no path spends any. A node
/// entered through a `FOLLOWS_FROM` link is asynchronous and carries the
/// queue latency of its async edge. `cumulative_duration` runs from the start
/// of the path's root to the end of the node. A node is a bottleneck when it
/// lasts at least 30% of the longest node of the path.
pub fn find_critical_path<'a>(
    roots: &[SpanTreeNode<'a>],
    async_edges: &[AsyncEdgeInfo<'a>],
    _process_map: &Vec<(String, Process)>,
) -> (res: Result<Vec<CriticalPathNode>, AnalysisError>)
    requires
        forall|i: int| 0 <= i < roots@.len() ==> tree_fits(#[trigger] roots@[i], 0),
        forall|i: int| 0 <= i < roots@.len() ==> tree_times_ok(#[trigger] roots@[i], roots@[i].span.start_time as int),
    ensures
        res matches Ok(p) && p@ == critical_path_of(roots@, async_edges@.map_values(|e: AsyncEdgeInfo<'a>| edge_view(e))),
{
    let ghost ev = async_edges@.map_values(|e: AsyncEdgeInfo<'a>| edge_view(e));
    let mut longest_path: Vec<CriticalPathNode> = Vec::new();
    let mut longest_self: u64 = 0;
    let ghost init: WeightedPath = (Seq::empty(), 0);
    assert(longest_path@ =~= Seq::<CriticalPathNode>::empty());
    for i in 0..roots.len()
        invariant
            forall|i: int| 0 <= i < roots@.len() ==> tree_fits(#[trigger] roots@[i], 0),
            forall|i: int| 0 <= i < roots@.len() ==> tree_times_ok(#[trigger] roots@[i], roots@[i].span.start_time as int),
            ev == async_edges@.map_values(|e: AsyncEdgeInfo<'a>| edge_view(e)),
            (longest_path@, longest_self as int) == fold_best(init, roots_paths(roots@.subrange(0, i as int), ev)),
    {
        let root = &roots[i];
        let mut current_path: Vec<CriticalPathNode> = Vec::new();
        let root_start_time = root.span.start_time;
        assert(tree_fits(*root, 0));
        assert(tree_times_ok(*root, root_start_time as int));
        let ghost st = (longest_path@, longest_self as int);
        find_longest_path(root, &mut current_path, &mut longest_path, 0, &mut longest_self, root_start_time, false, None, async_edges);
        proof {
            let pre = roots@.subrange(0, i as int);
            assert(roots@.subrange(0, i + 1).drop_last() == pre);
            assert(roots@.subrange(0, i + 1).last() == *root);
            let tp = tree_paths(*root, root_start_time, false, None, ev);
            assert(with_prefix(Seq::empty(), 0, tp) =~= tp) by {
                assert forall|k: int| 0 <= k < tp.len() implies #[trigger] with_prefix(Seq::empty(), 0, tp)[k] == tp[k] by {
                    assert(Seq::<CriticalPathNode>::empty() + tp[k].0 =~= tp[k].0);
                }
            }
            lemma_fold_concat(init, roots_paths(pre, ev), tp);
        }
    }
    assert(roots@.subrange(0, roots@.len() as int) == roots@);
    let ghost best = longest_path@;
    if longest_path.len() > 0 {
        let mut max_self_duration: u64 = 0;
        for i in 0..longest_path.len()
            invariant
                longest_path@ == best,
                max_self_duration == max_duration(best.subrange(0, i as int)),
        {
            assert(best.subrange(0, i + 1).drop_last() == best.subrange(0, i as int));
            if longest_path[i].duration >= max_self_duration {
                max_self_duration = longest_path[i].duration;
            }
        }
        assert(best.subrange(0, best.len() as int) == best);
        let mut marked: Vec<CriticalPathNode> = Vec::new();
        for i in 0..longest_path.len()
            invariant
                longest_path@ == best,
                max_self_duration == max_duration(best),
                marked@ == mark_bottlenecks(best).subrange(0, i as int),
        {
            let mut node = clone_path_node(&longest_path[i]);
            node.is_bottleneck = (node.duration as u128) * 10 >= (max_self_duration as u128) * 3;
            marked.push(node);
            assert(marked@ =~= mark_bottlenecks(best).subrange(0, i + 1));
        }
        assert(mark_bottlenecks(best).subrange(0, best.len() as int) == mark_bottlenecks(best));
        Ok(marked)
    } else {
        assert(mark_bottlenecks(best) =~= best);
        Ok(longest_path)
    }
}

/// What a node of the critical path adds to the score of its service: its
/// duration, and for an asynchronous node also its queue latency.
pub open spec fn contribution(n: CriticalPathNode) -> int {
    n.duration + if n.is_async && n.async_propagation_delay is Some {
        n.async_propagation_delay->0 as int
    } else {
        0
    }
}

/// The contributions of the nodes of service `s`.
pub open spec fn service_contribution(path: Seq<CriticalPathNode>, s: Seq<char>) -> int
    decreases path.len(),
{
    if path.len() == 0 {
        0
    } else {
        service_contribution(path.drop_last(), s) + if path.last().service_name@ == s {
            contribution(path.last())
        } else {
            0
        }
    }
}

/// The durations of the asynchronous nodes whose predecessor on the path
/// belongs to service `s` (the producer's share of the consumer's time).
pub open spec fn producer_share(path: Seq<CriticalPathNode>, s: Seq<char>) -> int
    decreases path.len(),
{
    if path.len() == 0 {
        0
    } else {
        producer_share(path.drop_last(), s) + if path.len() >= 2 && path.last().is_async
            && path[path.len() - 2].service_name@ == s {
            path.last().duration as int
        } else {
            0
        }
    }
}

/// The services of a path, each once, in order of first appearance.
pub open spec fn path_services(path: Seq<CriticalPathNode>) -> Seq<Seq<char>>
    decreases path.len(),
{
    if path.len() == 0 {
        Seq::empty()
    } else if path_services(path.drop_last()).contains(path.last().service_name@) {
        path_services(path.drop_last())
    } else {
        path_services(path.drop_last()).push(path.last().service_name@)
    }
}

/// The score of service `s` on a path through a trace of `total` time:
/// its nodes' contributions plus half its producer share, over `total`.
pub open spec fn score_numerator(path: Seq<CriticalPathNode>, s: Seq<char>) -> int {
    2 * service_contribution(path, s) + producer_share(path, s)
}

/// No node's contribution nor producer share overflows a `u64`.
pub open spec fn scores_fit(path: Seq<CriticalPathNode>) -> bool {
    &&& forall|i: int| 0 <= i < path.len() ==> contribution(#[trigger] path[i]) <= u64::MAX
    &&& forall|s: Seq<char>| producer_share(path, s) <= u64::MAX
}

/// A producer share only grows along a path.
proof fn lemma_share_prefix(path: Seq<CriticalPathNode>, s: Seq<char>, i: int)
    requires
        0 <= i <= path.len(),
    ensures
        producer_share(path.subrange(0, i), s) <= producer_share(path, s),
    decreases path.len() - i,
{
    if i < path.len() {
        lemma_share_prefix(path, s, i + 1);
        assert(path.subrange(0, i + 1).drop_last() == path.subrange(0, i));
    } else {
        assert(path.subrange(0, i) == path);
    }
}

/// A contribution sum is at most the number of nodes times the largest `u64`.
proof fn lemma_contribution_bound(path: Seq<CriticalPathNode>, s: Seq<char>)
    requires
        forall|i: int| 0 <= i < path.len() ==> contribution(#[trigger] path[i]) <= u64::MAX,
    ensures
        0 <= service_contribution(path, s) <= path.len() * (u64::MAX as int),
    decreases path.len(),
{
    if path.len() > 0 {
        assert forall|i: int| 0 <= i < path.drop_last().len() implies contribution(#[trigger] path.drop_last()[i]) <= u64::MAX by {
            assert(path.drop_last()[i] == path[i]);
        }
        lemma_contribution_bound(path.drop_last(), s);
        assert(contribution(path[path.len() - 1]) <= u64::MAX);
        assert((path.len() - 1) * (u64::MAX as int) + (u64::MAX as int) == path.len() * (u64::MAX as int)) by (nonlinear_arith);
    }
}

/// `scores` are the bottleneck scores of `path` in a trace of `total` time.
pub open spec fn scores_match(path: Seq<CriticalPathNode>, total: u64, scores: Seq<ServiceScore>) -> bool {
    &&& total == 0 ==> scores.len() == 0
    &&& total > 0 ==> {
        &&& scores.len() == path_services(path).len()
        &&& forall|k: int|
            0 <= k < scores.len() ==> {
                let sc = #[trigger] scores[k];
                &&& sc.service_name@ == path_services(path)[k]
                &&& sc.numerator == score_numerator(path, path_services(path)[k])
                &&& sc.denominator == 2 * total
            }
    }
}

/// An entry of the per-service tallies: (service, contributions, producer
/// share).
type Tally = (String, u128, u64);

/// The tallies hold, in order, the services of `path` and their sums.
pub open spec fn tallies_match(t: Seq<Tally>, path: Seq<CriticalPathNode>) -> bool {
    &&& t.len() == path_services(path).len()
    &&& path_services(path).no_duplicates()
    &&& forall|k: int|
        0 <= k < t.len() ==> {
            &&& (#[trigger] t[k]).0@ == path_services(path)[k]
            &&& t[k].1 == service_contribution(path, t[k].0@)
            &&& t[k].2 == producer_share(path, t[k].0@)
        }
    &&& forall|s: Seq<char>| !path_services(path).contains(s) ==>
        service_contribution(path, s) == 0 && producer_share(path, s) == 0
}

/// The tallies hold the services and contributions of `path1` and the
/// producer shares of `path0`.
pub open spec fn tallies_contrib(t: Seq<Tally>, path1: Seq<CriticalPathNode>, path0: Seq<CriticalPathNode>) -> bool {
    &&& t.len() == path_services(path1).len()
    &&& path_services(path1).no_duplicates()
    &&& forall|k: int|
        0 <= k < t.len() ==> {
            &&& (#[trigger] t[k]).0@ == path_services(path1)[k]
            &&& t[k].1 == service_contribution(path1, t[k].0@)
            &&& t[k].2 == producer_share(path0, t[k].0@)
        }
    &&& forall|s: Seq<char>| !path_services(path1).contains(s) ==>
        service_contribution(path1, s) == 0 && producer_share(path0, s) == 0
}

/// The last node's service is among the services of a path.
proof fn lemma_services_contain_last(p: Seq<CriticalPathNode>)
    requires
        p.len() > 0,
    ensures
        path_services(p).contains(p.last().service_name@),
{
    let ps = path_services(p.drop_last());
    if !ps.contains(p.last().service_name@) {
        assert(path_services(p)[ps.len() as int] == p.last().service_name@);
    }
}

/// The services of a path grow with the path.
proof fn lemma_services_grow(p: Seq<CriticalPathNode>, n: CriticalPathNode, s: Seq<char>)
    requires
        path_services(p).contains(s),
    ensures
        path_services(p.push(n)).contains(s),
{
    assert(p.push(n).drop_last() == p);
    let ps = path_services(p);
    let k = choose|k: int| 0 <= k < ps.len() && ps[k] == s;
    if !ps.contains(n.service_name@) {
        assert(ps.push(n.service_name@)[k] == s);
    }
}

/// One more node on a path: how its services and sums change.
proof fn lemma_unfold(pre: Seq<CriticalPathNode>, n: CriticalPathNode)
    ensures
        path_services(pre.push(n)) == if path_services(pre).contains(n.service_name@) {
            path_services(pre)
        } else {
            path_services(pre).push(n.service_name@)
        },
        forall|s: Seq<char>| #[trigger] service_contribution(pre.push(n), s) == service_contribution(pre, s)
            + if n.service_name@ == s { contribution(n) } else { 0 },
        forall|s: Seq<char>| #[trigger] producer_share(pre.push(n), s) == producer_share(pre, s)
            + if pre.len() >= 1 && n.is_async && pre.last().service_name@ == s { n.duration as int } else { 0 },
{
    let pre1 = pre.push(n);
    assert(pre1.drop_last() == pre);
    assert(pre1.last() == n);
    if pre.len() >= 1 {
        assert(pre1[pre1.len() - 2] == pre.last());
    }
}

/// Adding a node's contribution to the tally of a service already met.
proof fn lemma_contrib_existing(before: Seq<Tally>, after: Seq<Tally>, pre: Seq<CriticalPathNode>, n: CriticalPathNode, k: int)
    requires
        tallies_match(before, pre),
        0 <= k < before.len(),
        before[k].0@ == n.service_name@,
        after.len() == before.len(),
        after[k].0@ == before[k].0@,
        after[k].1 == before[k].1 + contribution(n),
        after[k].2 == before[k].2,
        forall|j: int| 0 <= j < before.len() && j != k ==> after[j] == before[j],
    ensures
        tallies_contrib(after, pre.push(n), pre),
{
    lemma_unfold(pre, n);
    let pre1 = pre.push(n);
    let ps = path_services(pre);
    let svc = n.service_name@;
    assert(ps[k] == svc);
    assert(path_services(pre1) == ps);
    assert forall|j: int| 0 <= j < after.len() implies {
        &&& (#[trigger] after[j]).0@ == path_services(pre1)[j]
        &&& after[j].1 == service_contribution(pre1, after[j].0@)
        &&& after[j].2 == producer_share(pre, after[j].0@)
    } by {
        if j != k {
            assert(ps[j] != ps[k]);
            assert(service_contribution(pre1, after[j].0@) == service_contribution(pre, after[j].0@));
        } else {
            assert(service_contribution(pre1, svc) == service_contribution(pre, svc) + contribution(n));
        }
    }
    assert forall|s: Seq<char>| !path_services(pre1).contains(s) implies
        service_contribution(pre1, s) == 0 && producer_share(pre, s) == 0 by {
        assert(s != svc);
        assert(service_contribution(pre1, s) == service_contribution(pre, s));
    }
}

/// Adding a node of a service not met before.
proof fn lemma_contrib_new(before: Seq<Tally>, after: Seq<Tally>, pre: Seq<CriticalPathNode>, n: CriticalPathNode)
    requires
        tallies_match(before, pre),
        forall|k: int| 0 <= k < before.len() ==> before[k].0@ != n.service_name@,
        after.len() == before.len() + 1,
        forall|j: int| 0 <= j < before.len() ==> after[j] == before[j],
        after[before.len() as int].0@ == n.service_name@,
        after[before.len() as int].1 == contribution(n),
        after[before.len() as int].2 == 0,
    ensures
        tallies_contrib(after, pre.push(n), pre),
{
    lemma_unfold(pre, n);
    let pre1 = pre.push(n);
    let ps = path_services(pre);
    let svc = n.service_name@;
    assert(!ps.contains(svc)) by {
        if ps.contains(svc) {
            let k = choose|k: int| 0 <= k < ps.len() && ps[k] == svc;
            assert(before[k].0@ == svc);
        }
    }
    let ps1 = ps.push(svc);
    assert(path_services(pre1) == ps1);
    assert(ps1.no_duplicates()) by {
        assert forall|a: int, b: int| 0 <= a < ps1.len() && 0 <= b < ps1.len() && a != b implies ps1[a] != ps1[b] by {
            if a == ps.len() {
                assert(ps1[b] == ps[b]);
                assert(ps.contains(ps[b]));
            } else if b == ps.len() {
                assert(ps1[a] == ps[a]);
                assert(ps.contains(ps[a]));
            }
        }
    }
    assert forall|j: int| 0 <= j < after.len() implies {
        &&& (#[trigger] after[j]).0@ == ps1[j]
        &&& after[j].1 == service_contribution(pre1, after[j].0@)
        &&& after[j].2 == producer_share(pre, after[j].0@)
    } by {
        if j < before.len() {
            assert(ps[j] != svc) by {
                assert(ps.contains(ps[j]));
            }
            assert(service_contribution(pre1, after[j].0@) == service_contribution(pre, after[j].0@));
        } else {
            assert(service_contribution(pre1, svc) == service_contribution(pre, svc) + contribution(n));
        }
    }
    assert forall|s: Seq<char>| !ps1.contains(s) implies
        service_contribution(pre1, s) == 0 && producer_share(pre, s) == 0 by {
        assert(s != svc) by {
            assert(ps1[ps.len() as int] == svc);
        }
        assert(!ps.contains(s)) by {
            if ps.contains(s) {
                let k = choose|k: int| 0 <= k < ps.len() && ps[k] == s;
                assert(ps1[k] == s);
            }
        }
        assert(service_contribution(pre1, s) == service_contribution(pre, s));
    }
}

/// Adding the producer share of an asynchronous node to its predecessor.
proof fn lemma_share_step(before: Seq<Tally>, after: Seq<Tally>, pre: Seq<CriticalPathNode>, n: CriticalPathNode, k: int)
    requires
        tallies_contrib(before, pre.push(n), pre),
        pre.len() >= 1,
        n.is_async,
        0 <= k < before.len(),
        before[k].0@ == pre.last().service_name@,
        after.len() == before.len(),
        after[k].0@ == before[k].0@,
        after[k].1 == before[k].1,
        after[k].2 == before[k].2 + n.duration,
        forall|j: int| 0 <= j < before.len() && j != k ==> after[j] == before[j],
    ensures
        tallies_match(after, pre.push(n)),
{
    lemma_unfold(pre, n);
    let pre1 = pre.push(n);
    let ps1 = path_services(pre1);
    let ps_ = pre.last().service_name@;
    assert forall|j: int| 0 <= j < after.len() implies {
        &&& (#[trigger] after[j]).0@ == ps1[j]
        &&& after[j].1 == service_contribution(pre1, after[j].0@)
        &&& after[j].2 == producer_share(pre1, after[j].0@)
    } by {
        if j != k {
            assert(ps1[j] != ps1[k]);
            assert(producer_share(pre1, after[j].0@) == producer_share(pre, after[j].0@));
        } else {
            assert(producer_share(pre1, ps_) == producer_share(pre, ps_) + n.duration);
        }
    }
    assert forall|s: Seq<char>| !ps1.contains(s) implies
        service_contribution(pre1, s) == 0 && producer_share(pre1, s) == 0 by {
        assert(s != ps_) by {
            assert(ps1[k] == ps_);
        }
        assert(producer_share(pre1, s) == producer_share(pre, s));
    }
}

/// A node that shares nothing with its predecessor leaves the shares as
/// they were.
proof fn lemma_share_none(t: Seq<Tally>, pre: Seq<CriticalPathNode>, n: CriticalPathNode)
    requires
        tallies_contrib(t, pre.push(n), pre),
        !(n.is_async && pre.len() > 0),
    ensures
        tallies_match(t, pre.push(n)),
{
    lemma_unfold(pre, n);
    let pre1 = pre.push(n);
    assert forall|j: int| 0 <= j < t.len() implies #[trigger] t[j].2 == producer_share(pre1, t[j].0@) by {
        assert(producer_share(pre1, t[j].0@) == producer_share(pre, t[j].0@));
    }
    assert forall|s: Seq<char>| !path_services(pre1).contains(s) implies producer_share(pre1, s) == 0 by {
        assert(producer_share(pre1, s) == producer_share(pre, s));
    }
}

/// The predecessor's service has a tally.
proof fn lemma_contains_key(t: Seq<Tally>, pre1: Seq<CriticalPathNode>, pre0: Seq<CriticalPathNode>, s: Seq<char>)
    requires
        tallies_contrib(t, pre1, pre0),
        path_services(pre1).contains(s),
    ensures
        exists|k: int| 0 <= k < t.len() && t[k].0@ == s,
{
    let k = choose|k: int| 0 <= k < path_services(pre1).len() && path_services(pre1)[k] == s;
    assert(t[k].0@ == s);
}

/// The index of the tally of service `name`, if any.
fn find_tally(tallies: &Vec<Tally>, name: &String) -> (res: Option<usize>)
    ensures
        match res {
            Some(k) => k < tallies@.len() && tallies@[k as int].0@ == name@,
            None => forall|k: int| 0 <= k < tallies@.len() ==> tallies@[k].0@ != name@,
        },
{
    let mut i: usize = 0;
    while i < tallies.len()
        invariant
            i <= tallies@.len(),
            forall|k: int| 0 <= k < i ==> tallies@[k].0@ != name@,
        decreases tallies.len() - i,
    {
        if tallies[i].0 == *name {
            return Some(i);
        }
        i = i + 1;
    }
    None
}

/// The bottleneck scores of the services on a critical path: each node adds
/// its contribution (its duration, plus its queue latency if asynchronous)
/// to its service, and an asynchronous node adds half its duration to the
/// service of the node before it (its producer); all over the trace's total
/// duration. The services come once each, in order of first appearance on
/// the path; a trace of no duration has no scores. A score is
/// `numerator / denominator`, the denominator being twice the total.
pub fn calculate_bottleneck_scores(critical_path: &[CriticalPathNode], total_duration: u64) -> (res: Vec<
    ServiceScore,
>)
    requires
        scores_fit(critical_path@),
        critical_path@.len() <= 0x4000_0000_0000_0000,
    ensures
        scores_match(critical_path@, total_duration, res@),
{
    let mut out: Vec<ServiceScore> = Vec::new();
    if total_duration == 0 {
        return out;
    }
    let ghost path = critical_path@;
    let mut tallies: Vec<Tally> = Vec::new();
    assert(path.subrange(0, 0) =~= Seq::<CriticalPathNode>::empty());
    for i in 0..critical_path.len()
        invariant
            path == critical_path@,
            scores_fit(path),
            path.len() <= 0x4000_0000_0000_0000,
            tallies_match(tallies@, path.subrange(0, i as int)),
            i > 0 ==> path_services(path.subrange(0, i as int)).contains(path[i - 1].service_name@),
    {
        let ghost pre = path.subrange(0, i as int);
        let ghost pre1 = path.subrange(0, i + 1);
        assert(pre1 == pre.push(path[i as int]));
        assert(pre1.drop_last() == pre);
        let node = &critical_path[i];
        let mut contribution_v: u64 = node.duration;
        if node.is_async {
            if let Some(delay) = node.async_propagation_delay {
                assert(contribution(path[i as int]) <= u64::MAX);
                contribution_v = contribution_v + delay;
            }
        }
        assert(contribution_v == contribution(path[i as int]));
        proof {
            lemma_contribution_bound(pre, node.service_name@);
            assert(i * (u64::MAX as int) + (u64::MAX as int) < 0x1_0000_0000_0000_0000_0000_0000_0000_0000) by (nonlinear_arith)
                requires i < 0x4000_0000_0000_0000;
        }
        let ghost tallies_before = tallies@;
        match find_tally(&tallies, &node.service_name) {
            Some(k) => {
                let t = (tallies[k].0.clone(), tallies[k].1 + contribution_v as u128, tallies[k].2);
                tallies.set(k, t);
                proof {
                    lemma_contrib_existing(tallies_before, tallies@, pre, path[i as int], k as int);
                }
            },
            None => {
                tallies.push((node.service_name.clone(), contribution_v as u128, 0));
                proof {
                    lemma_contrib_new(tallies_before, tallies@, pre, path[i as int]);
                }
            },
        }
        if node.is_async && i > 0 {
            let prev_service = &critical_path[i - 1].service_name;
            proof {
                lemma_share_prefix(path, prev_service@, i + 1);
                assert(pre.last() == path[i - 1]);
                lemma_unfold(pre, path[i as int]);
                lemma_services_grow(pre, path[i as int], prev_service@);
                lemma_contains_key(tallies@, pre1, pre, prev_service@);
            }
            let ghost mid = tallies@;
            match find_tally(&tallies, prev_service) {
                Some(k) => {
                    proof {
                        assert(producer_share(pre1, prev_service@) == producer_share(pre, prev_service@) + node.duration);
                    }
                    let t = (tallies[k].0.clone(), tallies[k].1, tallies[k].2 + node.duration);
                    tallies.set(k, t);
                    proof {
                        lemma_share_step(mid, tallies@, pre, path[i as int], k as int);
                    }
                },
                None => {
                    tallies.push((prev_service.clone(), 0, node.duration));
                },
            }
        } else {
            proof {
                lemma_share_none(tallies@, pre, path[i as int]);
            }
        }
        assert(path_services(pre1).contains(path[i as int].service_name@)) by {
            lemma_services_contain_last(pre1);
        }
        assert(path.subrange(0, i + 1)[i as int] == path[i as int]);
    }
    assert(path.subrange(0, path.len() as int) == path);
    for k in 0..tallies.len()
        invariant
            path == critical_path@,
            scores_fit(path),
            path.len() <= 0x4000_0000_0000_0000,
            tallies_match(tallies@, path),
            total_duration > 0,
            out@.len() == k,
            forall|j: int|
                0 <= j < k ==> {
                    let sc = #[trigger] out@[j];
                    &&& sc.service_name@ == path_services(path)[j]
                    &&& sc.numerator == score_numerator(path, path_services(path)[j])
                    &&& sc.denominator == 2 * total_duration
                },
    {
        proof {
            lemma_contribution_bound(path, tallies@[k as int].0@);
            assert(path.len() * (u64::MAX as int) * 2 + (u64::MAX as int) < 0x1_0000_0000_0000_0000_0000_0000_0000_0000) by (nonlinear_arith)
                requires path.len() <= 0x4000_0000_0000_0000;
        }
        out.push(ServiceScore {
            service_name: tallies[k].0.clone(),
            numerator: 2 * tallies[k].1 + tallies[k].2 as u128,
            denominator: 2 * total_duration as u128,
        });
    }
    out
}


/// The best of some paths weighs at least as much as each, and is the
/// first of them to weigh that much (unless none weighs more than the
/// start).
proof fn lemma_fold_heaviest(init: WeightedPath, ps: Seq<WeightedPath>)
    ensures
        init.1 <= fold_best(init, ps).1,
        forall|i: int| 0 <= i < ps.len() ==> (#[trigger] ps[i]).1 <= fold_best(init, ps).1,
        fold_best(init, ps) == init || exists|i: int|
            0 <= i < ps.len() && fold_best(init, ps) == ps[i] && forall|j: int| 0 <= j < i ==> (#[trigger] ps[j]).1 < ps[i].1,
    decreases ps.len(),
{
    if ps.len() > 0 {
        let d = ps.drop_last();
        lemma_fold_heaviest(init, d);
        assert forall|i: int| 0 <= i < ps.len() implies (#[trigger] ps[i]).1 <= fold_best(init, ps).1 by {
            if i < d.len() {
                assert(ps[i] == d[i]);
            }
        }
        let last = ps.len() - 1;
        assert(ps.last() == ps[last]);
        if ps[last].1 > fold_best(init, d).1 {
            assert forall|j: int| 0 <= j < last implies (#[trigger] ps[j]).1 < ps[last].1 by {
                assert(ps[j] == d[j]);
            }
        } else if fold_best(init, d) != init {
            let i = choose|i: int|
                0 <= i < d.len() && fold_best(init, d) == d[i] && forall|j: int| 0 <= j < i ==> (#[trigger] d[j]).1 < d[i].1;
            assert(ps[i] == d[i]);
            assert forall|j: int| 0 <= j < i implies (#[trigger] ps[j]).1 < ps[i].1 by {
                assert(ps[j] == d[j]);
            }
        }
    }
}

/// The critical path is drawn from the heaviest root-to-leaf path of the
/// forest (by the time its spans spend of their own): no path weighs more,
/// and every path before it weighs less; where no path weighs anything, it
/// is empty.
pub proof fn law_critical_path_is_heaviest<'a>(roots: Seq<SpanTreeNode<'a>>, edges: Seq<(Span, Span, u64)>)
    ensures
        forall|i: int|
            0 <= i < roots_paths(roots, edges).len() ==> (#[trigger] roots_paths(roots, edges)[i]).1 <= fold_best(
                (Seq::empty(), 0),
                roots_paths(roots, edges),
            ).1,
        critical_path_of(roots, edges) == mark_bottlenecks(fold_best((Seq::empty(), 0), roots_paths(roots, edges)).0),
        fold_best((Seq::empty(), 0), roots_paths(roots, edges)) == (Seq::<CriticalPathNode>::empty(), 0int) || exists|i: int|
            0 <= i < roots_paths(roots, edges).len() && fold_best((Seq::empty(), 0), roots_paths(roots, edges))
                == roots_paths(roots, edges)[i] && forall|j: int|
                0 <= j < i ==> (#[trigger] roots_paths(roots, edges)[j]).1 < roots_paths(roots, edges)[i].1,
{
    lemma_fold_heaviest((Seq::empty(), 0), roots_paths(roots, edges));
}

/// The best of some paths is the start, or weighs more than it.
proof fn lemma_fold_gains(init: WeightedPath, ps: Seq<WeightedPath>)
    ensures
        fold_best(init, ps) == init || fold_best(init, ps).1 > init.1,
    decreases ps.len(),
{
    if ps.len() > 0 {
        lemma_fold_gains(init, ps.drop_last());
    }
}

/// Every path of a tree has at least one node and weighs nothing negative.
proof fn lemma_tree_paths_shape<'a>(n: SpanTreeNode<'a>, root_start: u64, is_async: bool, delay: Option<u64>, edges: Seq<(Span, Span, u64)>)
    ensures
        forall|i: int|
            0 <= i < tree_paths(n, root_start, is_async, delay, edges).len() ==> (#[trigger] tree_paths(
                n,
                root_start,
                is_async,
                delay,
                edges,
            )[i]).0.len() >= 1 && tree_paths(n, root_start, is_async, delay, edges)[i].1 >= 0,
    decreases n, 2nat,
{
    if n.children@.len() != 0 || n.follows_from@.len() != 0 {
        lemma_forest_paths_shape(n.children@, root_start, edges);
        lemma_consumer_paths_shape(n.follows_from@, root_start, edges);
        let f = forest_paths(n.children@, root_start, edges);
        let c = consumer_paths(n.follows_from@, root_start, edges);
        assert forall|i: int| 0 <= i < (f + c).len() implies (#[trigger] (f + c)[i]).0.len() >= 1 && (f + c)[i].1 >= 0 by {
            if i < f.len() {
                assert((f + c)[i] == f[i]);
            } else {
                assert((f + c)[i] == c[i - f.len()]);
            }
        }
    }
}

/// Every path of a list of child trees has a node and weighs nothing
/// negative.
proof fn lemma_forest_paths_shape<'a>(ns: Seq<SpanTreeNode<'a>>, root_start: u64, edges: Seq<(Span, Span, u64)>)
    ensures
        forall|i: int|
            0 <= i < forest_paths(ns, root_start, edges).len() ==> (#[trigger] forest_paths(ns, root_start, edges)[i]).0.len()
                >= 1 && forest_paths(ns, root_start, edges)[i].1 >= 0,
    decreases ns, 1nat,
{
    if ns.len() > 0 {
        lemma_forest_paths_shape(ns.drop_last(), root_start, edges);
        assert(ns.last() == ns[ns.len() - 1]);
        lemma_tree_paths_shape(ns.last(), root_start, false, None, edges);
        let a = forest_paths(ns.drop_last(), root_start, edges);
        let b = tree_paths(ns.last(), root_start, false, None, edges);
        assert forall|i: int| 0 <= i < (a + b).len() implies (#[trigger] (a + b)[i]).0.len() >= 1 && (a + b)[i].1 >= 0 by {
            if i < a.len() {
                assert((a + b)[i] == a[i]);
            } else {
                assert((a + b)[i] == b[i - a.len()]);
            }
        }
    }
}

/// Every path of a list of consumer trees has a node and weighs nothing
/// negative.
proof fn lemma_consumer_paths_shape<'a>(ns: Seq<SpanTreeNode<'a>>, root_start: u64, edges: Seq<(Span, Span, u64)>)
    ensures
        forall|i: int|
            0 <= i < consumer_paths(ns, root_start, edges).len() ==> (#[trigger] consumer_paths(ns, root_start, edges)[i]).0.len()
                >= 1 && consumer_paths(ns, root_start, edges)[i].1 >= 0,
    decreases ns, 1nat,
{
    if ns.len() > 0 {
        lemma_consumer_paths_shape(ns.drop_last(), root_start, edges);
        assert(ns.last() == ns[ns.len() - 1]);
        lemma_tree_paths_shape(ns.last(), root_start, true, edge_delay(edges, ns.last().span.span_id@), edges);
        let a = consumer_paths(ns.drop_last(), root_start, edges);
        let b = tree_paths(ns.last(), root_start, true, edge_delay(edges, ns.last().span.span_id@), edges);
        assert forall|i: int| 0 <= i < (a + b).len() implies (#[trigger] (a + b)[i]).0.len() >= 1 && (a + b)[i].1 >= 0 by {
            if i < a.len() {
                assert((a + b)[i] == a[i]);
            } else {
                assert((a + b)[i] == b[i - a.len()]);
            }
        }
    }
}

/// Every root-to-leaf path of a forest has a node and weighs nothing
/// negative.
proof fn lemma_roots_paths_shape<'a>(ns: Seq<SpanTreeNode<'a>>, edges: Seq<(Span, Span, u64)>)
    ensures
        forall|i: int|
            0 <= i < roots_paths(ns, edges).len() ==> (#[trigger] roots_paths(ns, edges)[i]).0.len() >= 1 && roots_paths(
                ns,
                edges,
            )[i].1 >= 0,
    decreases ns.len(),
{
    if ns.len() > 0 {
        lemma_roots_paths_shape(ns.drop_last(), edges);
        lemma_tree_paths_shape(ns.last(), ns.last().span.start_time, false, None, edges);
        let a = roots_paths(ns.drop_last(), edges);
        let b = tree_paths(ns.last(), ns.last().span.start_time, false, None, edges);
        assert forall|i: int| 0 <= i < (a + b).len() implies (#[trigger] (a + b)[i]).0.len() >= 1 && (a + b)[i].1 >= 0 by {
            if i < a.len() {
                assert((a + b)[i] == a[i]);
            } else {
                assert((a + b)[i] == b[i - a.len()]);
            }
        }
    }
}

/// The critical path is empty exactly when no root-to-leaf path of the
/// forest spends any time of its own (in particular where there is no
/// root).
pub proof fn law_critical_path_empty<'a>(roots: Seq<SpanTreeNode<'a>>, edges: Seq<(Span, Span, u64)>)
    ensures
        critical_path_of(roots, edges).len() == 0 <==> forall|i: int|
            0 <= i < roots_paths(roots, edges).len() ==> (#[trigger] roots_paths(roots, edges)[i]).1 == 0,
        roots.len() == 0 ==> critical_path_of(roots, edges).len() == 0,
{
    let ps = roots_paths(roots, edges);
    let init: WeightedPath = (Seq::empty(), 0);
    lemma_fold_heaviest(init, ps);
    lemma_fold_gains(init, ps);
    lemma_roots_paths_shape(roots, edges);
    let best = fold_best(init, ps);
    if exists|i: int| 0 <= i < ps.len() && (#[trigger] ps[i]).1 != 0 {
        let i = choose|i: int| 0 <= i < ps.len() && (#[trigger] ps[i]).1 != 0;
        assert(ps[i].1 > 0);
        assert(best.1 > 0);
        let j = choose|j: int|
            0 <= j < ps.len() && best == ps[j] && forall|k: int| 0 <= k < j ==> (#[trigger] ps[k]).1 < ps[j].1;
        assert(best.0.len() >= 1);
    } else {
        assert(best == init);
    }
}

/// The longest duration of a path is that of one of its nodes (where it
/// has any) and no node lasts longer.
proof fn lemma_max_duration(p: Seq<CriticalPathNode>)
    ensures
        forall|i: int| 0 <= i < p.len() ==> (#[trigger] p[i]).duration <= max_duration(p),
        p.len() > 0 ==> exists|j: int| 0 <= j < p.len() && (#[trigger] p[j]).duration == max_duration(p),
    decreases p.len(),
{
    if p.len() > 0 {
        let d = p.drop_last();
        lemma_max_duration(d);
        assert forall|i: int| 0 <= i < p.len() implies (#[trigger] p[i]).duration <= max_duration(p) by {
            if i < d.len() {
                assert(p[i] == d[i]);
            }
        }
        if p.last().duration >= max_duration(d) {
            assert(p[p.len() - 1].duration == max_duration(p));
        } else {
            let j = choose|j: int| 0 <= j < d.len() && (#[trigger] d[j]).duration == max_duration(d);
            assert(p[j] == d[j]);
        }
    }
}

/// Paths of the same durations have the same longest duration.
proof fn lemma_max_duration_same(p: Seq<CriticalPathNode>, q: Seq<CriticalPathNode>)
    requires
        p.len() == q.len(),
        forall|i: int| 0 <= i < p.len() ==> (#[trigger] p[i]).duration == q[i].duration,
    ensures
        max_duration(p) == max_duration(q),
    decreases p.len(),
{
    if p.len() > 0 {
        assert forall|i: int| 0 <= i < p.drop_last().len() implies (#[trigger] p.drop_last()[i]).duration == q.drop_last()[i].duration by {
            assert(p.drop_last()[i] == p[i] && q.drop_last()[i] == q[i]);
        }
        lemma_max_duration_same(p.drop_last(), q.drop_last());
    }
}

/// A node of the critical path is a bottleneck exactly when it lasts at
/// least 30% of the longest node of the path (`10 * d >= 3 * max`); every
/// node of the greatest duration is one.
pub proof fn law_bottleneck_marks<'a>(roots: Seq<SpanTreeNode<'a>>, edges: Seq<(Span, Span, u64)>)
    ensures
        ({
            let r = critical_path_of(roots, edges);
            &&& forall|i: int| 0 <= i < r.len() ==> (#[trigger] r[i]).duration <= max_duration(r)
            &&& r.len() > 0 ==> exists|j: int| 0 <= j < r.len() && (#[trigger] r[j]).duration == max_duration(r)
            &&& forall|i: int| 0 <= i < r.len() ==> ((#[trigger] r[i]).is_bottleneck <==> 10 * r[i].duration >= 3 * max_duration(r))
            &&& forall|i: int| 0 <= i < r.len() && r[i].duration == max_duration(r) ==> (#[trigger] r[i]).is_bottleneck
        }),
{
    let p = fold_best((Seq::empty(), 0), roots_paths(roots, edges)).0;
    let r = critical_path_of(roots, edges);
    assert(r == mark_bottlenecks(p));
    assert forall|i: int| 0 <= i < p.len() implies (#[trigger] p[i]).duration == r[i].duration by {}
    lemma_max_duration_same(p, r);
    lemma_max_duration(r);
}

/// `nodes` is a root-to-leaf path of the tree of `n`: each node a child of
/// the one before, or (where `asyncs` says so) one of its consumers, the
/// last a leaf.
pub open spec fn is_tree_path<'a>(n: SpanTreeNode<'a>, nodes: Seq<SpanTreeNode<'a>>, asyncs: Seq<bool>) -> bool {
    &&& nodes.len() >= 1
    &&& asyncs.len() == nodes.len()
    &&& nodes[0] == n
    &&& forall|k: int|
        0 <= k < nodes.len() - 1 ==> if asyncs[k + 1] {
            (#[trigger] nodes[k]).follows_from@.contains(nodes[k + 1])
        } else {
            nodes[k].children@.contains(nodes[k + 1])
        }
    &&& nodes.last().children@.len() == 0
    &&& nodes.last().follows_from@.len() == 0
}

/// The critical path entries of the tree path `nodes`: the first entered
/// as `first_async` with `first_delay`, each later one asynchronous where it
/// is a consumer, with the queue latency of its async edge; all timed from
/// `root_start`.
pub open spec fn path_entries<'a>(
    nodes: Seq<SpanTreeNode<'a>>,
    asyncs: Seq<bool>,
    root_start: u64,
    first_async: bool,
    first_delay: Option<u64>,
    edges: Seq<(Span, Span, u64)>,
) -> Seq<CriticalPathNode> {
    Seq::new(
        nodes.len(),
        |k: int|
            if k == 0 {
                cp_node(nodes[0], root_start, first_async, first_delay)
            } else {
                cp_node(nodes[k], root_start, asyncs[k], if asyncs[k] { edge_delay(edges, nodes[k].span.span_id@) } else { None })
            },
    )
}

/// A path of a list of child trees is a path of one of them.
proof fn lemma_forest_paths_member<'a>(ns: Seq<SpanTreeNode<'a>>, root_start: u64, edges: Seq<(Span, Span, u64)>, i: int)
    requires
        0 <= i < forest_paths(ns, root_start, edges).len(),
    ensures
        exists|j: int, t: int|
            0 <= j < ns.len() && 0 <= t < tree_paths(ns[j], root_start, false, None, edges).len()
                && forest_paths(ns, root_start, edges)[i] == #[trigger] tree_paths(ns[j], root_start, false, None, edges)[t],
    decreases ns.len(),
{
    let a = forest_paths(ns.drop_last(), root_start, edges);
    let b = tree_paths(ns.last(), root_start, false, None, edges);
    if i < a.len() {
        assert((a + b)[i] == a[i]);
        lemma_forest_paths_member(ns.drop_last(), root_start, edges, i);
        let (j, t) = choose|j: int, t: int|
            0 <= j < ns.drop_last().len() && 0 <= t < tree_paths(ns.drop_last()[j], root_start, false, None, edges).len()
                && a[i] == #[trigger] tree_paths(ns.drop_last()[j], root_start, false, None, edges)[t];
        assert(ns.drop_last()[j] == ns[j]);
    } else {
        assert((a + b)[i] == b[i - a.len()]);
        assert(ns.last() == ns[ns.len() - 1]);
        assert(tree_paths(ns[ns.len() - 1], root_start, false, None, edges)[i - a.len()] == forest_paths(ns, root_start, edges)[i]);
    }
}

/// A path of a list of consumer trees is a path of one of them, entered
/// asynchronously.
proof fn lemma_consumer_paths_member<'a>(ns: Seq<SpanTreeNode<'a>>, root_start: u64, edges: Seq<(Span, Span, u64)>, i: int)
    requires
        0 <= i < consumer_paths(ns, root_start, edges).len(),
    ensures
        exists|j: int, t: int|
            0 <= j < ns.len() && 0 <= t < tree_paths(ns[j], root_start, true, edge_delay(edges, ns[j].span.span_id@), edges).len()
                && consumer_paths(ns, root_start, edges)[i] == #[trigger] tree_paths(
                ns[j],
                root_start,
                true,
                edge_delay(edges, ns[j].span.span_id@),
                edges,
            )[t],
    decreases ns.len(),
{
    let a = consumer_paths(ns.drop_last(), root_start, edges);
    let b = tree_paths(ns.last(), root_start, true, edge_delay(edges, ns.last().span.span_id@), edges);
    if i < a.len() {
        assert((a + b)[i] == a[i]);
        lemma_consumer_paths_member(ns.drop_last(), root_start, edges, i);
        let (j, t) = choose|j: int, t: int|
            0 <= j < ns.drop_last().len() && 0 <= t < tree_paths(
                ns.drop_last()[j],
                root_start,
                true,
                edge_delay(edges, ns.drop_last()[j].span.span_id@),
                edges,
            ).len() && a[i] == #[trigger] tree_paths(
                ns.drop_last()[j],
                root_start,
                true,
                edge_delay(edges, ns.drop_last()[j].span.span_id@),
                edges,
            )[t];
        assert(ns.drop_last()[j] == ns[j]);
    } else {
        assert((a + b)[i] == b[i - a.len()]);
        assert(ns.last() == ns[ns.len() - 1]);
        assert(tree_paths(ns[ns.len() - 1], root_start, true, edge_delay(edges, ns[ns.len() - 1].span.span_id@), edges)[i
            - a.len()] == consumer_paths(ns, root_start, edges)[i]);
    }
}

/// Each path of the tree of `n` is the list of entries of a root-to-leaf
/// tree path.
proof fn lemma_tree_paths_entries<'a>(
    n: SpanTreeNode<'a>,
    root_start: u64,
    is_async: bool,
    delay: Option<u64>,
    edges: Seq<(Span, Span, u64)>,
    i: int,
)
    requires
        0 <= i < tree_paths(n, root_start, is_async, delay, edges).len(),
    ensures
        exists|nodes: Seq<SpanTreeNode<'a>>, asyncs: Seq<bool>|
            is_tree_path(n, nodes, asyncs) && #[trigger] path_entries(nodes, asyncs, root_start, is_async, delay, edges)
                == tree_paths(n, root_start, is_async, delay, edges)[i].0,
    decreases n,
{
    let me = cp_node(n, root_start, is_async, delay);
    if n.children@.len() == 0 && n.follows_from@.len() == 0 {
        let nodes = seq![n];
        let asyncs = seq![is_async];
        assert(path_entries(nodes, asyncs, root_start, is_async, delay, edges) =~= seq![me]);
        assert(is_tree_path(n, nodes, asyncs));
    } else {
        let f = forest_paths(n.children@, root_start, edges);
        let c = consumer_paths(n.follows_from@, root_start, edges);
        let q = (f + c)[i];
        assert(tree_paths(n, root_start, is_async, delay, edges)[i] == (seq![me] + q.0, n.self_duration + q.1));
        let (child, ca, cd, t): (SpanTreeNode<'a>, bool, Option<u64>, int) = if i < f.len() {
            assert((f + c)[i] == f[i]);
            lemma_forest_paths_member(n.children@, root_start, edges, i);
            let (j, t) = choose|j: int, t: int|
                0 <= j < n.children@.len() && 0 <= t < tree_paths(n.children@[j], root_start, false, None, edges).len()
                    && f[i] == #[trigger] tree_paths(n.children@[j], root_start, false, None, edges)[t];
            assert(n.children@.contains(n.children@[j]));
            (n.children@[j], false, None, t)
        } else {
            assert((f + c)[i] == c[i - f.len()]);
            lemma_consumer_paths_member(n.follows_from@, root_start, edges, i - f.len());
            let (j, t) = choose|j: int, t: int|
                0 <= j < n.follows_from@.len() && 0 <= t < tree_paths(
                    n.follows_from@[j],
                    root_start,
                    true,
                    edge_delay(edges, n.follows_from@[j].span.span_id@),
                    edges,
                ).len() && c[i - f.len()] == #[trigger] tree_paths(
                    n.follows_from@[j],
                    root_start,
                    true,
                    edge_delay(edges, n.follows_from@[j].span.span_id@),
                    edges,
                )[t];
            assert(n.follows_from@.contains(n.follows_from@[j]));
            (n.follows_from@[j], true, edge_delay(edges, n.follows_from@[j].span.span_id@), t)
        };
        assert(q == tree_paths(child, root_start, ca, cd, edges)[t]);
        lemma_tree_paths_entries(child, root_start, ca, cd, edges, t);
        let (cn, cas) = choose|nodes: Seq<SpanTreeNode<'a>>, asyncs: Seq<bool>|
            is_tree_path(child, nodes, asyncs) && #[trigger] path_entries(nodes, asyncs, root_start, ca, cd, edges)
                == tree_paths(child, root_start, ca, cd, edges)[t].0;
        let nodes = seq![n] + cn;
        let asyncs = seq![is_async] + cas.update(0, ca);
        assert forall|k: int| 0 <= k < nodes.len() - 1 implies if asyncs[k + 1] {
            (#[trigger] nodes[k]).follows_from@.contains(nodes[k + 1])
        } else {
            nodes[k].children@.contains(nodes[k + 1])
        } by {
            if k > 0 {
                assert(nodes[k] == cn[k - 1] && nodes[k + 1] == cn[k] && asyncs[k + 1] == cas[k]);
            }
        }
        assert(nodes.last() == cn.last());
        assert(is_tree_path(n, nodes, asyncs));
        let pe = path_entries(nodes, asyncs, root_start, is_async, delay, edges);
        let ce = path_entries(cn, cas, root_start, ca, cd, edges);
        assert forall|k: int| 0 <= k < pe.len() implies #[trigger] pe[k] == (seq![me] + ce)[k] by {
            if k > 0 {
                assert(nodes[k] == cn[k - 1]);
                if k > 1 {
                    assert(asyncs[k] == cas[k - 1]);
                }
            }
        }
        assert(pe =~= seq![me] + ce);
    }
}

/// The critical path is empty, or it is the list of entries, its
/// bottlenecks marked, of a root-to-leaf path of one of the trees, timed
/// from that tree's root: node `k` of the path takes the service, span id,
/// operation, duration and start time of the `k`-th span of the tree path,
/// ends `cumulative_duration` after the root starts, is asynchronous exactly
/// where it is a consumer, and then carries the queue latency of its async
/// edge.
pub proof fn law_critical_path_follows_a_tree_path<'a>(roots: Seq<SpanTreeNode<'a>>, edges: Seq<(Span, Span, u64)>)
    ensures
        critical_path_of(roots, edges).len() == 0 || exists|j: int, nodes: Seq<SpanTreeNode<'a>>, asyncs: Seq<bool>|
            0 <= j < roots.len() && is_tree_path(roots[j], nodes, asyncs) && critical_path_of(roots, edges)
                == mark_bottlenecks(
                #[trigger] path_entries(nodes, asyncs, roots[j].span.start_time, false, None, edges),
            ),
{
    let ps = roots_paths(roots, edges);
    let init: WeightedPath = (Seq::empty(), 0);
    lemma_fold_heaviest(init, ps);
    let best = fold_best(init, ps);
    if best != init {
        let i = choose|i: int|
            0 <= i < ps.len() && best == ps[i] && forall|k: int| 0 <= k < i ==> (#[trigger] ps[k]).1 < ps[i].1;
        lemma_roots_paths_member(roots, edges, i);
        let (j, t) = choose|j: int, t: int|
            0 <= j < roots.len() && 0 <= t < tree_paths(roots[j], roots[j].span.start_time, false, None, edges).len()
                && ps[i] == #[trigger] tree_paths(roots[j], roots[j].span.start_time, false, None, edges)[t];
        lemma_tree_paths_entries(roots[j], roots[j].span.start_time, false, None, edges, t);
    }
}

/// A path of a forest is a path of one of its trees, timed from its root.
proof fn lemma_roots_paths_member<'a>(ns: Seq<SpanTreeNode<'a>>, edges: Seq<(Span, Span, u64)>, i: int)
    requires
        0 <= i < roots_paths(ns, edges).len(),
    ensures
        exists|j: int, t: int|
            0 <= j < ns.len() && 0 <= t < tree_paths(ns[j], ns[j].span.start_time, false, None, edges).len()
                && roots_paths(ns, edges)[i] == #[trigger] tree_paths(ns[j], ns[j].span.start_time, false, None, edges)[t],
    decreases ns.len(),
{
    let a = roots_paths(ns.drop_last(), edges);
    let b = tree_paths(ns.last(), ns.last().span.start_time, false, None, edges);
    if i < a.len() {
        assert((a + b)[i] == a[i]);
        lemma_roots_paths_member(ns.drop_last(), edges, i);
        let (j, t) = choose|j: int, t: int|
            0 <= j < ns.drop_last().len() && 0 <= t < tree_paths(
                ns.drop_last()[j],
                ns.drop_last()[j].span.start_time,
                false,
                None,
                edges,
            ).len() && a[i] == #[trigger] tree_paths(ns.drop_last()[j], ns.drop_last()[j].span.start_time, false, None, edges)[t];
        assert(ns.drop_last()[j] == ns[j]);
    } else {
        assert((a + b)[i] == b[i - a.len()]);
        assert(ns.last() == ns[ns.len() - 1]);
        assert(tree_paths(ns[ns.len() - 1], ns[ns.len() - 1].span.start_time, false, None, edges)[i - a.len()] == roots_paths(
            ns,
            edges,
        )[i]);
    }
}

/// Node `k` of a non-empty critical path is the `k`-th span of a
/// root-to-leaf path of one of the trees: it carries that span's id,
/// operation, duration and start time and the node's service; it ends
/// `cumulative_duration` after the tree's root starts; it is asynchronous
/// exactly where it was entered as a consumer, and then carries the queue
/// latency of the first async edge into its span, else none.
pub proof fn law_critical_path_nodes_carry_their_spans<'a>(roots: Seq<SpanTreeNode<'a>>, edges: Seq<(Span, Span, u64)>)
    ensures
        ({
            let r = critical_path_of(roots, edges);
            r.len() == 0 || exists|j: int, nodes: Seq<SpanTreeNode<'a>>, asyncs: Seq<bool>|
                0 <= j < roots.len() && #[trigger] is_tree_path(roots[j], nodes, asyncs) && r.len() == nodes.len() && forall|
                    k: int,
                |
                    0 <= k < r.len() ==> {
                        let s = *nodes[k].span;
                        &&& (#[trigger] r[k]).span_id == s.span_id
                        &&& r[k].operation == s.operation
                        &&& r[k].duration == s.duration
                        &&& r[k].start_time == s.start_time
                        &&& r[k].service_name == nodes[k].service_name
                        &&& r[k].cumulative_duration == (s.start_time + s.duration - roots[j].span.start_time) as u64
                        &&& r[k].is_async == (k > 0 && asyncs[k])
                        &&& r[k].async_propagation_delay == if k > 0 && asyncs[k] {
                            edge_delay(edges, s.span_id@)
                        } else {
                            None::<u64>
                        }
                    }
        }),
{
    law_critical_path_follows_a_tree_path(roots, edges);
    let r = critical_path_of(roots, edges);
    if r.len() != 0 {
        let (j, nodes, asyncs) = choose|j: int, nodes: Seq<SpanTreeNode<'a>>, asyncs: Seq<bool>|
            0 <= j < roots.len() && is_tree_path(roots[j], nodes, asyncs) && critical_path_of(roots, edges) == mark_bottlenecks(
                #[trigger] path_entries(nodes, asyncs, roots[j].span.start_time, false, None, edges),
            );
        let pe = path_entries(nodes, asyncs, roots[j].span.start_time, false, None, edges);
        assert forall|k: int| 0 <= k < r.len() implies {
            let s = *nodes[k].span;
            &&& (#[trigger] r[k]).span_id == s.span_id
            &&& r[k].operation == s.operation
            &&& r[k].duration == s.duration
            &&& r[k].start_time == s.start_time
            &&& r[k].service_name == nodes[k].service_name
            &&& r[k].cumulative_duration == (s.start_time + s.duration - roots[j].span.start_time) as u64
            &&& r[k].is_async == (k > 0 && asyncs[k])
            &&& r[k].async_propagation_delay == if k > 0 && asyncs[k] {
                edge_delay(edges, s.span_id@)
            } else {
                None::<u64>
            }
        } by {
            assert(r[k] == CriticalPathNode { is_bottleneck: is_bottleneck_duration(pe[k].duration, max_duration(pe)), ..pe[k] });
        }
        assert(is_tree_path(roots[j], nodes, asyncs));
    }
}

} // verus!
