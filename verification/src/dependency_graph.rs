//! The service dependency graph: one node per service, one edge per pair of
//! services that call each other, weighted by the calls it stands for.

use vstd::prelude::*;
use petgraph::graph::DiGraph;
use crate::models::{AnalysisError, ServiceCall, TraceData};
use crate::parser::{build_service_calls, call_producers_fit, trace_calls};
use crate::graph_store::{
    graph_nodes, graph_edges, newest_edge, edges_out, edges_in, graph_new, graph_add_node, graph_add_edge,
    graph_find_edge, graph_set_edge_weight, graph_edge_weight, graph_edge_endpoints, graph_node_weight,
    graph_edge_indices, graph_edges_from, graph_edges_into,
};

verus! {

/// What the calls along an edge add up to. The average duration of a call is
/// `total_duration / call_count`; the average queue latency is
/// `total_queue_latency / queue_latency_count`.
#[derive(Debug, Clone, Copy)]
pub struct EdgeWeight {
    pub call_count: usize,
    pub total_duration: u64,
    pub is_async: bool,
    pub total_queue_latency: u64,
    pub queue_latency_count: usize,
}

/// An edge of the dependency graph, as the report lists it.
#[derive(Debug, Clone)]
pub struct DependencyEdge {
    pub from: String,
    pub to: String,
    pub call_count: usize,
    pub total_duration: u64,
    pub is_async: bool,
    pub total_queue_latency: u64,
    pub queue_latency_count: usize,
}

/// The services and the calls between them.
pub struct ServiceDependencyGraph {
    pub graph: DiGraph<String, EdgeWeight>,
    pub node_indices: Vec<(String, usize)>,
}

/// What a graph holds: its service names by node index, and its edges
/// (source index, target index, weight) by edge index.
pub type GraphModel = (Seq<Seq<char>>, Seq<(int, int, EdgeWeight)>);

/// The index of the node named `name`.
pub open spec fn node_index(nodes: Seq<Seq<char>>, name: Seq<char>) -> Option<int>
    decreases nodes.len(),
{
    if nodes.len() == 0 {
        None
    } else if nodes.last() == name {
        Some(nodes.len() - 1)
    } else {
        node_index(nodes.drop_last(), name)
    }
}

/// The nodes with `name` added unless it is there.
pub open spec fn with_node(nodes: Seq<Seq<char>>, name: Seq<char>) -> Seq<Seq<char>> {
    if node_index(nodes, name) is Some {
        nodes
    } else {
        nodes.push(name)
    }
}

/// The weight of a new edge for its first call.
pub open spec fn fresh_weight(call: ServiceCall) -> EdgeWeight {
    EdgeWeight {
        call_count: 1,
        total_duration: call.duration,
        is_async: call.is_async,
        total_queue_latency: match call.queue_latency {
            Some(q) => q,
            None => 0,
        },
        queue_latency_count: if call.queue_latency is Some { 1 } else { 0 },
    }
}

/// The weight of an edge after one more call.
pub open spec fn merged_weight(w: EdgeWeight, call: ServiceCall) -> EdgeWeight {
    EdgeWeight {
        call_count: (w.call_count + 1) as usize,
        total_duration: (w.total_duration + call.duration) as u64,
        is_async: w.is_async || call.is_async,
        total_queue_latency: match call.queue_latency {
            Some(q) => (w.total_queue_latency + q) as u64,
            None => w.total_queue_latency,
        },
        queue_latency_count: if call.queue_latency is Some {
            (w.queue_latency_count + 1) as usize
        } else {
            w.queue_latency_count
        },
    }
}

/// The graph after one more call: both services become nodes (caller
/// first), and the edge between them is created or gains the call.
pub open spec fn add_call_model(m: GraphModel, call: ServiceCall) -> GraphModel {
    let nodes = with_node(with_node(m.0, call.from_service@), call.to_service@);
    let a = node_index(nodes, call.from_service@)->0;
    let b = node_index(nodes, call.to_service@)->0;
    match newest_edge(m.1, a, b) {
        Some(e) => (nodes, m.1.update(e, (a, b, merged_weight(m.1[e].2, call)))),
        None => (nodes, m.1.push((a, b, fresh_weight(call)))),
    }
}

/// One more call fits the graph's counters and petgraph's `u32` indices.
pub open spec fn call_fits(m: GraphModel, call: ServiceCall) -> bool {
    let nodes = with_node(with_node(m.0, call.from_service@), call.to_service@);
    let a = node_index(nodes, call.from_service@)->0;
    let b = node_index(nodes, call.to_service@)->0;
    &&& m.0.len() + 2 < 0xffff_ffff
    &&& m.1.len() + 1 < 0xffff_ffff
    &&& newest_edge(m.1, a, b) matches Some(e) ==> {
        let w = m.1[e].2;
        &&& w.call_count + 1 <= usize::MAX
        &&& w.total_duration + call.duration <= u64::MAX
        &&& call.queue_latency matches Some(q) ==> w.total_queue_latency + q <= u64::MAX
            && w.queue_latency_count + 1 <= usize::MAX
    }
}

/// The graph after the calls, in order.
pub open spec fn add_calls_model(m: GraphModel, calls: Seq<ServiceCall>) -> GraphModel
    decreases calls.len(),
{
    if calls.len() == 0 {
        m
    } else {
        add_call_model(add_calls_model(m, calls.drop_last()), calls.last())
    }
}

/// Each call, in order, fits the graph it is added to.
pub open spec fn calls_fit(m: GraphModel, calls: Seq<ServiceCall>) -> bool
    decreases calls.len(),
{
    if calls.len() == 0 {
        true
    } else {
        calls_fit(m, calls.drop_last()) && call_fits(add_calls_model(m, calls.drop_last()), calls.last())
    }
}

/// The service calls of the traces, in order; the first error stops the
/// walk.
pub open spec fn traces_calls(traces: Seq<TraceData>) -> Result<Seq<ServiceCall>, AnalysisError>
    decreases traces.len(),
{
    if traces.len() == 0 {
        Ok(Seq::empty())
    } else {
        match traces_calls(traces.drop_last()) {
            Err(e) => Err(e),
            Ok(prev) => match trace_calls(traces.last()) {
                Err(e) => Err(e),
                Ok(c) => Ok(prev + c),
            },
        }
    }
}

/// The empty graph.
pub open spec fn empty_model() -> GraphModel {
    (Seq::empty(), Seq::empty())
}

/// The edge list of a graph, as the report lists it.
pub open spec fn edge_list(m: GraphModel) -> Seq<(Seq<char>, Seq<char>, EdgeWeight)> {
    m.1.map_values(|e: (int, int, EdgeWeight)| (m.0[e.0], m.0[e.1], e.2))
}

/// A dependency edge's view: (from, to, weight).
pub open spec fn dependency_edge_view(d: DependencyEdge) -> (Seq<char>, Seq<char>, EdgeWeight) {
    (
        d.from@,
        d.to@,
        EdgeWeight {
            call_count: d.call_count,
            total_duration: d.total_duration,
            is_async: d.is_async,
            total_queue_latency: d.total_queue_latency,
            queue_latency_count: d.queue_latency_count,
        },
    )
}

impl ServiceDependencyGraph {
    /// What the graph holds.
    pub open spec fn model(&self) -> GraphModel {
        (graph_nodes(self.graph), graph_edges(self.graph))
    }

    /// The index lists each node once, by name and index, and the edges join
    /// nodes that exist.
    pub open spec fn wf(&self) -> bool {
        let nodes = graph_nodes(self.graph);
        &&& self.node_indices@.len() == nodes.len()
        &&& forall|i: int| 0 <= i < nodes.len() ==> (#[trigger] self.node_indices@[i]).0@ == nodes[i] && self.node_indices@[i].1 == i
        &&& nodes.no_duplicates()
        &&& forall|e: int| 0 <= e < graph_edges(self.graph).len() ==> 0 <= (#[trigger] graph_edges(self.graph)[e]).0 < nodes.len()
            && 0 <= graph_edges(self.graph)[e].1 < nodes.len()
    }

    /// An empty graph.
    pub fn new() -> (g: Self)
        ensures
            g.wf(),
            g.model() == empty_model(),
    {
        ServiceDependencyGraph { graph: graph_new(), node_indices: Vec::new() }
    }

    /// The index of the node of `service_name`, added if there is none.
    pub fn get_or_add_node(&mut self, service_name: &str) -> (idx: usize)
        requires
            old(self).wf(),
            old(self).model().0.len() < 0xffff_ffff,
        ensures
            final(self).wf(),
            final(self).model().0 == with_node(old(self).model().0, service_name@),
            final(self).model().1 == old(self).model().1,
            node_index(final(self).model().0, service_name@) == Some(idx as int),
    {
        let name: String = service_name.to_owned();
        let ghost nodes = graph_nodes(self.graph);
        let mut i: usize = 0;
        while i < self.node_indices.len()
            invariant
                self.wf(),
                nodes == graph_nodes(self.graph),
                name@ == service_name@,
                i <= self.node_indices@.len(),
                forall|k: int| 0 <= k < i ==> nodes[k] != name@,
            decreases self.node_indices.len() - i,
        {
            if self.node_indices[i].0 == name {
                let idx = self.node_indices[i].1;
                proof {
                    lemma_node_index_unique(nodes, i as int);
                }
                return idx;
            }
            i = i + 1;
        }
        proof {
            lemma_node_index_none(nodes, name@);
        }
        let idx = graph_add_node(&mut self.graph, name.clone());
        self.node_indices.push((name, idx));
        proof {
            let nodes2 = graph_nodes(self.graph);
            assert(nodes2 == nodes.push(service_name@));
            assert(nodes2.drop_last() == nodes);
            assert(nodes2.no_duplicates()) by {
                assert forall|a: int, b: int| 0 <= a < nodes2.len() && 0 <= b < nodes2.len() && a != b implies nodes2[a] != nodes2[b] by {
                    if a == nodes.len() {
                        assert(nodes2[b] == nodes[b]);
                    } else if b == nodes.len() {
                        assert(nodes2[a] == nodes[a]);
                    } else {
                        assert(nodes2[a] == nodes[a] && nodes2[b] == nodes[b]);
                    }
                }
            }
            assert forall|k: int| 0 <= k < nodes2.len() implies (#[trigger] self.node_indices@[k]).0@ == nodes2[k] && self.node_indices@[k].1 == k by {
                if k < nodes.len() {
                    assert(self.node_indices@[k] == old(self).node_indices@[k]);
                }
            }
        }
        idx
    }

    /// Adds the calls, in order.
    pub fn add_service_calls(&mut self, calls: &[ServiceCall])
        requires
            old(self).wf(),
            calls_fit(old(self).model(), calls@),
        ensures
            final(self).wf(),
            final(self).model() == add_calls_model(old(self).model(), calls@),
    {
        let ghost m0 = self.model();
        for i in 0..calls.len()
            invariant
                self.wf(),
                calls_fit(m0, calls@),
                self.model() == add_calls_model(m0, calls@.subrange(0, i as int)),
        {
            proof {
                lemma_add_calls_concat(m0, calls@.subrange(0, i as int), calls@.subrange(i as int, calls@.len() as int));
                assert(calls@.subrange(0, i as int) + calls@.subrange(i as int, calls@.len() as int) == calls@);
                let rest = calls@.subrange(i as int, calls@.len() as int);
                lemma_add_calls_concat(add_calls_model(m0, calls@.subrange(0, i as int)), seq![rest[0]], rest.drop_first());
                assert(seq![rest[0]] + rest.drop_first() == rest);
                assert(seq![rest[0]].drop_last() == Seq::<ServiceCall>::empty());
                assert(calls@.subrange(0, i + 1).drop_last() == calls@.subrange(0, i as int));
            }
            self.add_service_call(&calls[i]);
        }
        assert(calls@.subrange(0, calls@.len() as int) == calls@);
    }

    /// The graph of the calls of the traces, trace by trace; a trace whose
    /// calls cannot be built stops the build with its error.
    pub fn from_trace_data(traces: &[TraceData]) -> (res: Result<Self, AnalysisError>)
        requires
            forall|i: int| 0 <= i < traces@.len() ==> call_producers_fit(#[trigger] traces@[i]),
            forall|k: int| 0 <= k <= traces@.len() ==> (traces_calls(#[trigger] traces@.subrange(0, k)) matches Ok(c)
                ==> calls_fit(empty_model(), c)),
        ensures
            match traces_calls(traces@) {
                Ok(c) => res matches Ok(g) && g.wf() && g.model() == add_calls_model(empty_model(), c),
                Err(e) => res matches Err(e2) && e2 == e,
            },
    {
        let mut graph = Self::new();
        for i in 0..traces.len()
            invariant
                forall|i: int| 0 <= i < traces@.len() ==> call_producers_fit(#[trigger] traces@[i]),
                forall|k: int| 0 <= k <= traces@.len() ==> (traces_calls(#[trigger] traces@.subrange(0, k)) matches Ok(c)
                    ==> calls_fit(empty_model(), c)),
                graph.wf(),
                traces_calls(traces@.subrange(0, i as int)) matches Ok(c) && graph.model() == add_calls_model(empty_model(), c),
        {
            let ghost pre = traces@.subrange(0, i as int);
            let ghost pre1 = traces@.subrange(0, i + 1);
            assert(pre1.drop_last() == pre);
            assert(pre1.last() == traces@[i as int]);
            let calls = match build_service_calls(&traces[i]) {
                Ok(c) => c,
                Err(e) => {
                    proof {
                        lemma_traces_calls_err(traces@, i + 1, traces@.len() as int);
                        assert(traces@.subrange(0, traces@.len() as int) == traces@);
                    }
                    return Err(e);
                },
            };
            proof {
                let c0 = traces_calls(pre)->Ok_0;
                assert(traces_calls(pre1) == Ok::<Seq<ServiceCall>, AnalysisError>(c0 + calls@));
                assert(calls_fit(empty_model(), c0 + calls@));
                lemma_add_calls_concat(empty_model(), c0, calls@);
            }
            graph.add_service_calls(calls.as_slice());
        }
        assert(traces@.subrange(0, traces@.len() as int) == traces@);
        Ok(graph)
    }

    /// The services of the graph, in node order.
    pub fn get_all_services(&self) -> (res: Vec<String>)
        requires
            self.wf(),
        ensures
            res@.map_values(|s: String| s@) == self.model().0,
    {
        let mut out: Vec<String> = Vec::new();
        for i in 0..self.node_indices.len()
            invariant
                self.wf(),
                out@.map_values(|s: String| s@) == self.model().0.subrange(0, i as int),
        {
            assert(self.node_indices@[i as int].0@ == self.model().0[i as int]);
            let ghost before = out@;
            out.push(self.node_indices[i].0.clone());
            assert(out@.map_values(|s: String| s@) =~= before.map_values(|s: String| s@).push(self.model().0[i as int]));
            assert(self.model().0.subrange(0, i + 1) =~= self.model().0.subrange(0, i as int).push(self.model().0[i as int]));
        }
        assert(self.model().0.subrange(0, self.model().0.len() as int) == self.model().0);
        out
    }

    /// The edges of the graph in edge order, each with its services and
    /// weight.
    pub fn to_dependency_edges(&self) -> (res: Vec<DependencyEdge>)
        requires
            self.wf(),
        ensures
            res@.map_values(|d: DependencyEdge| dependency_edge_view(d)) == edge_list(self.model()),
    {
        let mut edges: Vec<DependencyEdge> = Vec::new();
        let indices = graph_edge_indices(&self.graph);
        for k in 0..indices.len()
            invariant
                self.wf(),
                indices@.len() == graph_edges(self.graph).len(),
                forall|i: int| 0 <= i < indices@.len() ==> indices@[i] == i,
                edges@.map_values(|d: DependencyEdge| dependency_edge_view(d)) == edge_list(self.model()).subrange(0, k as int),
        {
            let edge_idx = indices[k];
            let (from_idx, to_idx) = graph_edge_endpoints(&self.graph, edge_idx);
            let weight = graph_edge_weight(&self.graph, edge_idx);
            let from = graph_node_weight(&self.graph, from_idx).clone();
            let to = graph_node_weight(&self.graph, to_idx).clone();
            let d = DependencyEdge {
                from,
                to,
                call_count: weight.call_count,
                total_duration: weight.total_duration,
                is_async: weight.is_async,
                total_queue_latency: weight.total_queue_latency,
                queue_latency_count: weight.queue_latency_count,
            };
            assert(edge_idx == k);
            assert(dependency_edge_view(d) == edge_list(self.model())[k as int]);
            let ghost before = edges@;
            edges.push(d);
            assert(edges@.map_values(|d: DependencyEdge| dependency_edge_view(d)) =~= before.map_values(|d: DependencyEdge| dependency_edge_view(d)).push(edge_list(self.model())[k as int]));
            assert(edge_list(self.model()).subrange(0, k + 1) =~= edge_list(self.model()).subrange(0, k as int).push(edge_list(self.model())[k as int]));
        }
        assert(edge_list(self.model()).subrange(0, edge_list(self.model()).len() as int) == edge_list(self.model()));
        edges
    }

    /// The edges that leave `service`, newest first: (callee, weight). None
    /// if the graph has no such service.
    pub fn get_outgoing_edges(&self, service: &str) -> (res: Vec<(String, &EdgeWeight)>)
        requires
            self.wf(),
        ensures
            match node_index(self.model().0, service@) {
                None => res@.len() == 0,
                Some(i) => res@.len() == edges_out(self.model().1, i).len() && forall|k: int| 0 <= k < res@.len() ==>
                    (#[trigger] res@[k]).0@ == self.model().0[edges_out(self.model().1, i)[k].0]
                        && *res@[k].1 == edges_out(self.model().1, i)[k].1,
            },
    {
        let mut result: Vec<(String, &EdgeWeight)> = Vec::new();
        if let Some(idx) = self.find_node(service) {
            let out = graph_edges_from(&self.graph, idx);
            proof {
                lemma_edges_out_range(self.model().1, idx as int, self.model().0.len() as int);
            }
            for k in 0..out.len()
                invariant
                    self.wf(),
                    node_index(self.model().0, service@) == Some(idx as int),
                    idx < self.model().0.len(),
                    out@.len() == edges_out(self.model().1, idx as int).len(),
                    forall|j: int| 0 <= j < out@.len() ==> out@[j].0 as int == edges_out(self.model().1, idx as int)[j].0
                        && *out@[j].1 == edges_out(self.model().1, idx as int)[j].1,
                    forall|j: int| 0 <= j < edges_out(self.model().1, idx as int).len() ==>
                        0 <= #[trigger] edges_out(self.model().1, idx as int)[j].0 < self.model().0.len(),
                    result@.len() == k,
                    forall|j: int| 0 <= j < k ==> (#[trigger] result@[j]).0@ == self.model().0[edges_out(self.model().1, idx as int)[j].0]
                        && *result@[j].1 == edges_out(self.model().1, idx as int)[j].1,
            {
                let (target, w) = out[k];
                assert(0 <= edges_out(self.model().1, idx as int)[k as int].0 < self.model().0.len());
                let name = graph_node_weight(&self.graph, target).clone();
                result.push((name, w));
            }
        }
        result
    }

    /// The edges that enter `service`, newest first: (caller, weight). None
    /// if the graph has no such service.
    pub fn get_incoming_edges(&self, service: &str) -> (res: Vec<(String, &EdgeWeight)>)
        requires
            self.wf(),
        ensures
            match node_index(self.model().0, service@) {
                None => res@.len() == 0,
                Some(i) => res@.len() == edges_in(self.model().1, i).len() && forall|k: int| 0 <= k < res@.len() ==>
                    (#[trigger] res@[k]).0@ == self.model().0[edges_in(self.model().1, i)[k].0]
                        && *res@[k].1 == edges_in(self.model().1, i)[k].1,
            },
    {
        let mut result: Vec<(String, &EdgeWeight)> = Vec::new();
        if let Some(idx) = self.find_node(service) {
            let inc = graph_edges_into(&self.graph, idx);
            proof {
                lemma_edges_in_range(self.model().1, idx as int, self.model().0.len() as int);
            }
            for k in 0..inc.len()
                invariant
                    self.wf(),
                    node_index(self.model().0, service@) == Some(idx as int),
                    idx < self.model().0.len(),
                    inc@.len() == edges_in(self.model().1, idx as int).len(),
                    forall|j: int| 0 <= j < inc@.len() ==> inc@[j].0 as int == edges_in(self.model().1, idx as int)[j].0
                        && *inc@[j].1 == edges_in(self.model().1, idx as int)[j].1,
                    forall|j: int| 0 <= j < edges_in(self.model().1, idx as int).len() ==>
                        0 <= #[trigger] edges_in(self.model().1, idx as int)[j].0 < self.model().0.len(),
                    result@.len() == k,
                    forall|j: int| 0 <= j < k ==> (#[trigger] result@[j]).0@ == self.model().0[edges_in(self.model().1, idx as int)[j].0]
                        && *result@[j].1 == edges_in(self.model().1, idx as int)[j].1,
            {
                let (source, w) = inc[k];
                assert(0 <= edges_in(self.model().1, idx as int)[k as int].0 < self.model().0.len());
                let name = graph_node_weight(&self.graph, source).clone();
                result.push((name, w));
            }
        }
        result
    }

    /// The asynchronous edges, in edge order.
    pub fn get_async_edges(&self) -> (res: Vec<DependencyEdge>)
        requires
            self.wf(),
        ensures
            res@.map_values(|d: DependencyEdge| dependency_edge_view(d)) == edge_list(self.model()).filter(
                |e: (Seq<char>, Seq<char>, EdgeWeight)| e.2.is_async,
            ),
    {
        let all = self.to_dependency_edges();
        let ghost l = edge_list(self.model());
        let ghost f = |e: (Seq<char>, Seq<char>, EdgeWeight)| e.2.is_async;
        let mut out: Vec<DependencyEdge> = Vec::new();
        for k in 0..all.len()
            invariant
                all@.map_values(|d: DependencyEdge| dependency_edge_view(d)) == l,
                f == (|e: (Seq<char>, Seq<char>, EdgeWeight)| e.2.is_async),
                out@.map_values(|d: DependencyEdge| dependency_edge_view(d)) == l.subrange(0, k as int).filter(f),
        {
            proof {
                reveal_with_fuel(Seq::filter, 1);
                assert(l.subrange(0, k + 1).drop_last() == l.subrange(0, k as int));
                assert(l.subrange(0, k + 1).last() == dependency_edge_view(all@[k as int]));
            }
            let ghost before = out@;
            if all[k].is_async {
                out.push(clone_dependency_edge(&all[k]));
                assert(out@.map_values(|d: DependencyEdge| dependency_edge_view(d)) =~= before.map_values(|d: DependencyEdge| dependency_edge_view(d)).push(dependency_edge_view(all@[k as int])));
            }
        }
        assert(l.subrange(0, l.len() as int) == l);
        out
    }

    /// The node index of `service`, if the graph has one.
    fn find_node(&self, service: &str) -> (res: Option<usize>)
        requires
            self.wf(),
        ensures
            res is None ==> node_index(self.model().0, service@) is None,
            res matches Some(r) ==> node_index(self.model().0, service@) == Some(r as int) && r < self.model().0.len(),
    {
        let name: String = service.to_owned();
        let ghost nodes = self.model().0;
        let mut i: usize = 0;
        while i < self.node_indices.len()
            invariant
                self.wf(),
                nodes == self.model().0,
                name@ == service@,
                i <= self.node_indices@.len(),
                forall|k: int| 0 <= k < i ==> nodes[k] != name@,
            decreases self.node_indices.len() - i,
        {
            if self.node_indices[i].0 == name {
                proof {
                    assert(self.node_indices@[i as int].0@ == nodes[i as int]);
                    lemma_node_index_unique(nodes, i as int);
                }
                return Some(self.node_indices[i].1);
            }
            i = i + 1;
        }
        proof {
            lemma_node_index_none(nodes, name@);
        }
        None
    }

    /// Adds a call: both services become nodes if they are not (the caller
    /// first), and the edge from caller to callee is created with the call
    /// as its first or gains it (count, duration, async flag, queue
    /// latency).
    pub fn add_service_call(&mut self, call: &ServiceCall)
        requires
            old(self).wf(),
            call_fits(old(self).model(), *call),
        ensures
            final(self).wf(),
            final(self).model() == add_call_model(old(self).model(), *call),
    {
        let ghost m0 = self.model();
        let from_idx = self.get_or_add_node(call.from_service.as_str());
        let to_idx = self.get_or_add_node(call.to_service.as_str());
        let ghost nodes = graph_nodes(self.graph);
        proof {
            lemma_node_index_keeps(with_node(m0.0, call.from_service@), call.to_service@, call.from_service@);
            lemma_node_index_range(nodes, call.from_service@);
            lemma_node_index_range(nodes, call.to_service@);
            lemma_newest_edge_range(graph_edges(self.graph), from_idx as int, to_idx as int);
            assert(graph_edges(self.graph) == m0.1);
            assert(nodes == with_node(with_node(m0.0, call.from_service@), call.to_service@));
        }
        match graph_find_edge(&self.graph, from_idx, to_idx) {
            Some(edge_idx) => {
                let weight = *graph_edge_weight(&self.graph, edge_idx);
                let mut w = weight;
                w.call_count = w.call_count + 1;
                w.total_duration = w.total_duration + call.duration;
                if call.is_async {
                    w.is_async = true;
                }
                if let Some(queue_latency) = call.queue_latency {
                    w.total_queue_latency = w.total_queue_latency + queue_latency;
                    w.queue_latency_count = w.queue_latency_count + 1;
                }
                assert(w == merged_weight(weight, *call));
                graph_set_edge_weight(&mut self.graph, edge_idx, w);
            },
            None => {
                let weight = EdgeWeight {
                    call_count: 1,
                    total_duration: call.duration,
                    is_async: call.is_async,
                    total_queue_latency: match call.queue_latency {
                        Some(q) => q,
                        None => 0,
                    },
                    queue_latency_count: if call.queue_latency.is_some() { 1 } else { 0 },
                };
                graph_add_edge(&mut self.graph, from_idx, to_idx, weight);
            },
        }
    }
}

impl Default for ServiceDependencyGraph {
    fn default() -> (g: Self)
        ensures
            g.wf(),
            g.model() == empty_model(),
    {
        Self::new()
    }
}

/// The newest edge between two nodes is an edge between them.
proof fn lemma_newest_edge_range(edges: Seq<(int, int, EdgeWeight)>, a: int, b: int)
    ensures
        newest_edge(edges, a, b) matches Some(e) ==> 0 <= e < edges.len() && edges[e].0 == a && edges[e].1 == b,
    decreases edges.len(),
{
    if edges.len() > 0 {
        lemma_newest_edge_range(edges.drop_last(), a, b);
    }
}

/// Once the walk over the traces has failed, a longer walk fails the same
/// way.
proof fn lemma_traces_calls_err(t: Seq<TraceData>, k: int, k2: int)
    requires
        0 <= k <= k2 <= t.len(),
        traces_calls(t.subrange(0, k)) is Err,
    ensures
        traces_calls(t.subrange(0, k2)) == traces_calls(t.subrange(0, k)),
    decreases k2 - k,
{
    if k2 > k {
        lemma_traces_calls_err(t, k, k2 - 1);
        assert(t.subrange(0, k2).drop_last() == t.subrange(0, k2 - 1));
    }
}

/// Adding two lists of calls is adding the first, then the second.
pub proof fn lemma_add_calls_concat(m: GraphModel, a: Seq<ServiceCall>, b: Seq<ServiceCall>)
    ensures
        add_calls_model(m, a + b) == add_calls_model(add_calls_model(m, a), b),
        calls_fit(m, a + b) == (calls_fit(m, a) && calls_fit(add_calls_model(m, a), b)),
    decreases b.len(),
{
    if b.len() == 0 {
        assert(a + b == a);
    } else {
        lemma_add_calls_concat(m, a, b.drop_last());
        assert((a + b).drop_last() == a + b.drop_last());
        assert((a + b).last() == b.last());
    }
}

/// The edges that leave a node lead to nodes of the graph.
proof fn lemma_edges_out_range(edges: Seq<(int, int, EdgeWeight)>, a: int, n: int)
    requires
        forall|e: int| 0 <= e < edges.len() ==> 0 <= (#[trigger] edges[e]).0 < n && 0 <= edges[e].1 < n,
    ensures
        forall|j: int| 0 <= j < edges_out(edges, a).len() ==> 0 <= #[trigger] edges_out(edges, a)[j].0 < n,
    decreases edges.len(),
{
    if edges.len() > 0 {
        assert forall|e: int| 0 <= e < edges.drop_last().len() implies 0 <= (#[trigger] edges.drop_last()[e]).0 < n && 0 <= edges.drop_last()[e].1 < n by {
            assert(edges.drop_last()[e] == edges[e]);
        }
        lemma_edges_out_range(edges.drop_last(), a, n);
        assert(edges.last() == edges[edges.len() - 1]);
        let rest = edges_out(edges.drop_last(), a);
        if edges.last().0 == a {
            let full = seq![(edges.last().1, edges.last().2)] + rest;
            assert forall|j: int| 0 <= j < full.len() implies 0 <= #[trigger] full[j].0 < n by {
                if j > 0 {
                    assert(full[j] == rest[j - 1]);
                }
            }
        }
    }
}

/// The edges that enter a node come from nodes of the graph.
proof fn lemma_edges_in_range(edges: Seq<(int, int, EdgeWeight)>, a: int, n: int)
    requires
        forall|e: int| 0 <= e < edges.len() ==> 0 <= (#[trigger] edges[e]).0 < n && 0 <= edges[e].1 < n,
    ensures
        forall|j: int| 0 <= j < edges_in(edges, a).len() ==> 0 <= #[trigger] edges_in(edges, a)[j].0 < n,
    decreases edges.len(),
{
    if edges.len() > 0 {
        assert forall|e: int| 0 <= e < edges.drop_last().len() implies 0 <= (#[trigger] edges.drop_last()[e]).0 < n && 0 <= edges.drop_last()[e].1 < n by {
            assert(edges.drop_last()[e] == edges[e]);
        }
        lemma_edges_in_range(edges.drop_last(), a, n);
        assert(edges.last() == edges[edges.len() - 1]);
        let rest = edges_in(edges.drop_last(), a);
        if edges.last().1 == a {
            let full = seq![(edges.last().0, edges.last().2)] + rest;
            assert forall|j: int| 0 <= j < full.len() implies 0 <= #[trigger] full[j].0 < n by {
                if j > 0 {
                    assert(full[j] == rest[j - 1]);
                }
            }
        }
    }
}

/// A copy of a dependency edge.
pub fn clone_dependency_edge(d: &DependencyEdge) -> (res: DependencyEdge)
    ensures
        res == *d,
{
    DependencyEdge {
        from: d.from.clone(),
        to: d.to.clone(),
        call_count: d.call_count,
        total_duration: d.total_duration,
        is_async: d.is_async,
        total_queue_latency: d.total_queue_latency,
        queue_latency_count: d.queue_latency_count,
    }
}

/// Adding a node keeps the index of a name already there.
proof fn lemma_node_index_keeps(nodes: Seq<Seq<char>>, added: Seq<char>, name: Seq<char>)
    requires
        node_index(nodes, name) is Some,
    ensures
        node_index(with_node(nodes, added), name) == node_index(nodes, name),
{
    if node_index(nodes, added) is None {
        let n2 = nodes.push(added);
        assert(n2.drop_last() == nodes);
        if added == name {
            assert(false);
        }
    }
}

/// The index of a node is in range and holds its name.
proof fn lemma_node_index_range(nodes: Seq<Seq<char>>, name: Seq<char>)
    ensures
        node_index(nodes, name) matches Some(i) ==> 0 <= i < nodes.len() && nodes[i] == name,
    decreases nodes.len(),
{
    if nodes.len() > 0 {
        lemma_node_index_range(nodes.drop_last(), name);
    }
}

/// The node of a name that occurs once is found at its index.
proof fn lemma_node_index_unique(nodes: Seq<Seq<char>>, i: int)
    requires
        nodes.no_duplicates(),
        0 <= i < nodes.len(),
    ensures
        node_index(nodes, nodes[i]) == Some(i),
    decreases nodes.len(),
{
    if i < nodes.len() - 1 {
        assert(nodes.last() != nodes[i]);
        let d = nodes.drop_last();
        assert(d.no_duplicates()) by {
            assert forall|a: int, b: int| 0 <= a < d.len() && 0 <= b < d.len() && a != b implies d[a] != d[b] by {
                assert(d[a] == nodes[a] && d[b] == nodes[b]);
            }
        }
        assert(d[i] == nodes[i]);
        lemma_node_index_unique(d, i);
    }
}

/// A name that no node holds has no index.
proof fn lemma_node_index_none(nodes: Seq<Seq<char>>, name: Seq<char>)
    requires
        forall|k: int| 0 <= k < nodes.len() ==> nodes[k] != name,
    ensures
        node_index(nodes, name) is None,
    decreases nodes.len(),
{
    if nodes.len() > 0 {
        assert(nodes.last() == nodes[nodes.len() - 1]);
        assert forall|k: int| 0 <= k < nodes.drop_last().len() implies nodes.drop_last()[k] != name by {
            assert(nodes.drop_last()[k] == nodes[k]);
        }
        lemma_node_index_none(nodes.drop_last(), name);
    }
}


/// The call goes from `from` to `to`.
pub open spec fn is_pair_call(c: ServiceCall, from: Seq<char>, to: Seq<char>) -> bool {
    c.from_service@ == from && c.to_service@ == to
}

/// Some of the calls go from `from` to `to`.
pub open spec fn pair_seen(calls: Seq<ServiceCall>, from: Seq<char>, to: Seq<char>) -> bool
    decreases calls.len(),
{
    calls.len() > 0 && (pair_seen(calls.drop_last(), from, to) || is_pair_call(calls.last(), from, to))
}

/// A weight with no call in it.
pub open spec fn empty_weight() -> EdgeWeight {
    EdgeWeight { call_count: 0, total_duration: 0, is_async: false, total_queue_latency: 0, queue_latency_count: 0 }
}

/// What the calls from `from` to `to` add up to, taken in order.
pub open spec fn pair_weight(calls: Seq<ServiceCall>, from: Seq<char>, to: Seq<char>) -> EdgeWeight
    decreases calls.len(),
{
    if calls.len() == 0 {
        empty_weight()
    } else if is_pair_call(calls.last(), from, to) {
        merged_weight(pair_weight(calls.drop_last(), from, to), calls.last())
    } else {
        pair_weight(calls.drop_last(), from, to)
    }
}

/// The graph `m` of the calls: distinct nodes, edges between them, one edge
/// per pair of services, each weighing what the pair's calls add up to, and
/// an edge for each pair that calls.
pub open spec fn graph_sums(calls: Seq<ServiceCall>, m: GraphModel) -> bool {
    &&& m.0.no_duplicates()
    &&& forall|e: int| 0 <= e < m.1.len() ==> 0 <= (#[trigger] m.1[e]).0 < m.0.len() && 0 <= m.1[e].1 < m.0.len()
    &&& forall|e1: int, e2: int|
        0 <= e1 < e2 < m.1.len() ==> !((#[trigger] m.1[e1]).0 == (#[trigger] m.1[e2]).0 && m.1[e1].1 == m.1[e2].1)
    &&& forall|e: int|
        0 <= e < m.1.len() ==> (#[trigger] m.1[e]).2 == pair_weight(calls, m.0[m.1[e].0], m.0[m.1[e].1])
            && pair_seen(calls, m.0[m.1[e].0], m.0[m.1[e].1])
    &&& forall|from: Seq<char>, to: Seq<char>|
        #[trigger] pair_seen(calls, from, to) ==> exists|e: int|
            0 <= e < m.1.len() && m.0[(#[trigger] m.1[e]).0] == from && m.0[m.1[e].1] == to
}

/// A pair that never calls weighs nothing.
proof fn lemma_unseen_weight(calls: Seq<ServiceCall>, from: Seq<char>, to: Seq<char>)
    requires
        !pair_seen(calls, from, to),
    ensures
        pair_weight(calls, from, to) == empty_weight(),
    decreases calls.len(),
{
    if calls.len() > 0 {
        lemma_unseen_weight(calls.drop_last(), from, to);
    }
}

/// A name that has no index is not a node.
proof fn lemma_node_index_absent(nodes: Seq<Seq<char>>, name: Seq<char>)
    requires
        node_index(nodes, name) is None,
    ensures
        forall|k: int| 0 <= k < nodes.len() ==> nodes[k] != name,
    decreases nodes.len(),
{
    if nodes.len() > 0 {
        lemma_node_index_absent(nodes.drop_last(), name);
        assert forall|k: int| 0 <= k < nodes.len() implies nodes[k] != name by {
            if k < nodes.len() - 1 {
                assert(nodes.drop_last()[k] == nodes[k]);
            }
        }
    }
}

/// Adding a name keeps the nodes distinct and in place, and makes the name
/// a node.
proof fn lemma_with_node(nodes: Seq<Seq<char>>, name: Seq<char>)
    requires
        nodes.no_duplicates(),
    ensures
        with_node(nodes, name).no_duplicates(),
        with_node(nodes, name).len() >= nodes.len(),
        forall|k: int| 0 <= k < nodes.len() ==> #[trigger] with_node(nodes, name)[k] == nodes[k],
        node_index(with_node(nodes, name), name) matches Some(i) && 0 <= i < with_node(nodes, name).len()
            && with_node(nodes, name)[i] == name,
{
    lemma_node_index_range(nodes, name);
    if node_index(nodes, name) is None {
        lemma_node_index_absent(nodes, name);
        let n2 = nodes.push(name);
        assert(n2.drop_last() == nodes);
        assert(n2.no_duplicates()) by {
            assert forall|a: int, b: int| 0 <= a < n2.len() && 0 <= b < n2.len() && a != b implies n2[a] != n2[b] by {
                if a < nodes.len() && b < nodes.len() {
                    assert(n2[a] == nodes[a] && n2[b] == nodes[b]);
                }
            }
        }
    }
    lemma_node_index_range(with_node(nodes, name), name);
}

/// No edge joins `a` to `b` where the newest such edge is none.
proof fn lemma_newest_edge_none(edges: Seq<(int, int, EdgeWeight)>, a: int, b: int)
    requires
        newest_edge(edges, a, b) is None,
    ensures
        forall|e: int| 0 <= e < edges.len() ==> !((#[trigger] edges[e]).0 == a && edges[e].1 == b),
    decreases edges.len(),
{
    if edges.len() > 0 {
        lemma_newest_edge_none(edges.drop_last(), a, b);
        assert forall|e: int| 0 <= e < edges.len() implies !((#[trigger] edges[e]).0 == a && edges[e].1 == b) by {
            if e < edges.len() - 1 {
                assert(edges.drop_last()[e] == edges[e]);
            }
        }
    }
}

/// One more call keeps the graph what its calls add up to.
proof fn lemma_graph_step(calls: Seq<ServiceCall>, m: GraphModel, c: ServiceCall)
    requires
        graph_sums(calls, m),
    ensures
        graph_sums(calls.push(c), add_call_model(m, c)),
{
    let calls2 = calls.push(c);
    assert(calls2.drop_last() == calls);
    assert(calls2.last() == c);
    let from = c.from_service@;
    let to = c.to_service@;
    let nodes1 = with_node(m.0, from);
    lemma_with_node(m.0, from);
    let nodes = with_node(nodes1, to);
    lemma_with_node(nodes1, to);
    lemma_node_index_keeps(nodes1, to, from);
    let a = node_index(nodes, from)->0;
    let b = node_index(nodes, to)->0;
    lemma_node_index_range(nodes, from);
    assert(0 <= a < nodes.len() && nodes[a] == from);
    assert(0 <= b < nodes.len() && nodes[b] == to);
    assert forall|k: int| 0 <= k < m.0.len() implies #[trigger] nodes[k] == m.0[k] by {
        assert(nodes1[k] == m.0[k]);
    }
    let m2 = add_call_model(m, c);
    assert(m2.0 == nodes);
    // Indices name nodes one to one.
    assert forall|x: int, y: int| 0 <= x < nodes.len() && 0 <= y < nodes.len() && nodes[x] == nodes[y] implies x == y by {}
    // Each pair keeps its weight and its being seen, but the call's own.
    assert forall|f: Seq<char>, t: Seq<char>| !(f == from && t == to) implies pair_weight(calls2, f, t) == pair_weight(calls, f, t)
        && pair_seen(calls2, f, t) == pair_seen(calls, f, t) by {}
    assert(pair_weight(calls2, from, to) == merged_weight(pair_weight(calls, from, to), c));
    assert(pair_seen(calls2, from, to));
    match newest_edge(m.1, a, b) {
        Some(e0) => {
            lemma_newest_edge_range(m.1, a, b);
            assert(m2.1 == m.1.update(e0, (a, b, merged_weight(m.1[e0].2, c))));
            assert forall|e: int| 0 <= e < m2.1.len() implies 0 <= (#[trigger] m2.1[e]).0 < m2.0.len() && 0 <= m2.1[e].1 < m2.0.len()
                && m2.1[e].2 == pair_weight(calls2, m2.0[m2.1[e].0], m2.0[m2.1[e].1]) && pair_seen(calls2, m2.0[m2.1[e].0], m2.0[m2.1[e].1]) by {
                if e != e0 {
                    assert(m2.1[e] == m.1[e]);
                    assert(m.1[e].0 < m.0.len() && m.1[e].1 < m.0.len());
                    if m.0[m.1[e].0] == from && m.0[m.1[e].1] == to {
                        assert(nodes[m.1[e].0] == nodes[a]);
                        assert(nodes[m.1[e].1] == nodes[b]);
                        assert(m.1[e0].0 == m.1[e].0 && m.1[e0].1 == m.1[e].1);
                        if e < e0 {
                            assert(!(m.1[e].0 == m.1[e0].0 && m.1[e].1 == m.1[e0].1));
                        } else {
                            assert(!(m.1[e0].0 == m.1[e].0 && m.1[e0].1 == m.1[e].1));
                        }
                    }
                }
            }
            assert forall|e1: int, e2: int| 0 <= e1 < e2 < m2.1.len() implies !((#[trigger] m2.1[e1]).0 == (#[trigger] m2.1[e2]).0
                && m2.1[e1].1 == m2.1[e2].1) by {
                assert(m2.1[e1].0 == m.1[e1].0 && m2.1[e1].1 == m.1[e1].1);
                assert(m2.1[e2].0 == m.1[e2].0 && m2.1[e2].1 == m.1[e2].1);
            }
            assert forall|f: Seq<char>, t: Seq<char>| #[trigger] pair_seen(calls2, f, t) implies exists|e: int|
                0 <= e < m2.1.len() && m2.0[(#[trigger] m2.1[e]).0] == f && m2.0[m2.1[e].1] == t by {
                if f == from && t == to {
                    assert(m2.1[e0].0 == a && m2.1[e0].1 == b);
                } else {
                    assert(pair_seen(calls, f, t));
                    let e = choose|e: int| 0 <= e < m.1.len() && m.0[(#[trigger] m.1[e]).0] == f && m.0[m.1[e].1] == t;
                    assert(m2.1[e].0 == m.1[e].0 && m2.1[e].1 == m.1[e].1);
                }
            }
        },
        None => {
            lemma_newest_edge_none(m.1, a, b);
            let n = m.1.len() as int;
            assert(m2.1 == m.1.push((a, b, fresh_weight(c))));
            assert(!pair_seen(calls, from, to)) by {
                if pair_seen(calls, from, to) {
                    let e = choose|e: int| 0 <= e < m.1.len() && m.0[(#[trigger] m.1[e]).0] == from && m.0[m.1[e].1] == to;
                    assert(nodes[m.1[e].0] == nodes[a]);
                    assert(nodes[m.1[e].1] == nodes[b]);
                }
            }
            lemma_unseen_weight(calls, from, to);
            assert forall|e: int| 0 <= e < m2.1.len() implies 0 <= (#[trigger] m2.1[e]).0 < m2.0.len() && 0 <= m2.1[e].1 < m2.0.len()
                && m2.1[e].2 == pair_weight(calls2, m2.0[m2.1[e].0], m2.0[m2.1[e].1]) && pair_seen(calls2, m2.0[m2.1[e].0], m2.0[m2.1[e].1]) by {
                if e < n {
                    assert(m2.1[e] == m.1[e]);
                    assert(m.1[e].0 < m.0.len() && m.1[e].1 < m.0.len());
                    if m.0[m.1[e].0] == from && m.0[m.1[e].1] == to {
                        assert(nodes[m.1[e].0] == nodes[a]);
                        assert(nodes[m.1[e].1] == nodes[b]);
                    }
                }
            }
            assert forall|e1: int, e2: int| 0 <= e1 < e2 < m2.1.len() implies !((#[trigger] m2.1[e1]).0 == (#[trigger] m2.1[e2]).0
                && m2.1[e1].1 == m2.1[e2].1) by {
                assert(m2.1[e1] == m.1[e1]);
                if e2 < n {
                    assert(m2.1[e2] == m.1[e2]);
                }
            }
            assert forall|f: Seq<char>, t: Seq<char>| #[trigger] pair_seen(calls2, f, t) implies exists|e: int|
                0 <= e < m2.1.len() && m2.0[(#[trigger] m2.1[e]).0] == f && m2.0[m2.1[e].1] == t by {
                if f == from && t == to {
                    assert(m2.1[n] == (a, b, fresh_weight(c)));
                } else {
                    assert(pair_seen(calls, f, t));
                    let e = choose|e: int| 0 <= e < m.1.len() && m.0[(#[trigger] m.1[e]).0] == f && m.0[m.1[e].1] == t;
                    assert(m2.1[e] == m.1[e]);
                }
            }
        },
    }
}

/// The graph of any list of calls is what its calls add up to.
proof fn lemma_graph_sums(calls: Seq<ServiceCall>)
    ensures
        graph_sums(calls, add_calls_model(empty_model(), calls)),
    decreases calls.len(),
{
    if calls.len() == 0 {
        assert(Seq::<Seq<char>>::empty().no_duplicates());
    } else {
        lemma_graph_sums(calls.drop_last());
        lemma_graph_step(calls.drop_last(), add_calls_model(empty_model(), calls.drop_last()), calls.last());
        assert(calls.drop_last().push(calls.last()) == calls);
    }
}

/// The edge list of the graph of some calls.
pub open spec fn calls_graph(calls: Seq<ServiceCall>) -> Seq<(Seq<char>, Seq<char>, EdgeWeight)> {
    edge_list(add_calls_model(empty_model(), calls))
}

/// The dependency graph of some calls has one edge per pair of services of
/// which one calls the other, and no other: each edge joins the caller to
/// the callee, and weighs what their calls add up to (how many, how long in
/// all, whether any is asynchronous, their queue latencies).
pub proof fn law_edges_sum_their_calls(calls: Seq<ServiceCall>)
    ensures
        forall|e1: int, e2: int|
            0 <= e1 < e2 < calls_graph(calls).len() ==> !((#[trigger] calls_graph(calls)[e1]).0 == (
            #[trigger] calls_graph(calls)[e2]).0 && calls_graph(calls)[e1].1 == calls_graph(calls)[e2].1),
        forall|e: int|
            0 <= e < calls_graph(calls).len() ==> (#[trigger] calls_graph(calls)[e]).2 == pair_weight(
                calls,
                calls_graph(calls)[e].0,
                calls_graph(calls)[e].1,
            ) && pair_seen(calls, calls_graph(calls)[e].0, calls_graph(calls)[e].1),
        forall|from: Seq<char>, to: Seq<char>|
            #[trigger] pair_seen(calls, from, to) ==> exists|e: int|
                0 <= e < calls_graph(calls).len() && (#[trigger] calls_graph(calls)[e]).0 == from && calls_graph(calls)[e].1
                    == to,
{
    let m = add_calls_model(empty_model(), calls);
    lemma_graph_sums(calls);
    let edges = edge_list(m);
    assert forall|e1: int, e2: int| 0 <= e1 < e2 < edges.len() implies !((#[trigger] edges[e1]).0 == (#[trigger] edges[e2]).0
        && edges[e1].1 == edges[e2].1) by {
        assert(edges[e1] == (m.0[m.1[e1].0], m.0[m.1[e1].1], m.1[e1].2));
        assert(edges[e2] == (m.0[m.1[e2].0], m.0[m.1[e2].1], m.1[e2].2));
        assert(!(m.1[e1].0 == m.1[e2].0 && m.1[e1].1 == m.1[e2].1));
    }
    assert forall|e: int| 0 <= e < edges.len() implies (#[trigger] edges[e]).2 == pair_weight(calls, edges[e].0, edges[e].1)
        && pair_seen(calls, edges[e].0, edges[e].1) by {
        assert(edges[e] == (m.0[m.1[e].0], m.0[m.1[e].1], m.1[e].2));
    }
    assert forall|from: Seq<char>, to: Seq<char>| #[trigger] pair_seen(calls, from, to) implies exists|e: int|
        0 <= e < calls_graph(calls).len() && (#[trigger] calls_graph(calls)[e]).0 == from && calls_graph(calls)[e].1 == to by {
        let e = choose|e: int| 0 <= e < m.1.len() && m.0[(#[trigger] m.1[e]).0] == from && m.0[m.1[e].1] == to;
        assert(calls_graph(calls)[e] == (m.0[m.1[e].0], m.0[m.1[e].1], m.1[e].2));
    }
}


/// `(b, w)` leaves `a` exactly where an edge joins `a` to `b` with weight
/// `w`.
proof fn lemma_edges_out_has(edges: Seq<(int, int, EdgeWeight)>, a: int, b: int, w: EdgeWeight)
    ensures
        edges_out(edges, a).contains((b, w)) <==> exists|e: int| 0 <= e < edges.len() && #[trigger] edges[e] == (a, b, w),
    decreases edges.len(),
{
    if edges.len() > 0 {
        let d = edges.drop_last();
        let l = edges.last();
        lemma_edges_out_has(d, a, b, w);
        let rest = edges_out(d, a);
        if d.contains((a, b, w)) {
            let e = choose|e: int| 0 <= e < d.len() && d[e] == (a, b, w);
            assert(edges[e] == d[e]);
        }
        if exists|e: int| 0 <= e < edges.len() && #[trigger] edges[e] == (a, b, w) {
            let e = choose|e: int| 0 <= e < edges.len() && #[trigger] edges[e] == (a, b, w);
            if e < d.len() {
                assert(d[e] == edges[e]);
            }
        }
        if l.0 == a {
            let s = seq![(l.1, l.2)] + rest;
            if rest.contains((b, w)) {
                let i = choose|i: int| 0 <= i < rest.len() && rest[i] == (b, w);
                assert(s[i + 1] == rest[i]);
            }
            if s.contains((b, w)) {
                let i = choose|i: int| 0 <= i < s.len() && s[i] == (b, w);
                if i > 0 {
                    assert(rest[i - 1] == s[i]);
                }
            }
            assert(s[0] == (l.1, l.2));
        }
        assert(edges[edges.len() - 1] == l);
    }
}

/// `(a, w)` enters `b` exactly where an edge joins `a` to `b` with weight
/// `w`.
proof fn lemma_edges_in_has(edges: Seq<(int, int, EdgeWeight)>, a: int, b: int, w: EdgeWeight)
    ensures
        edges_in(edges, b).contains((a, w)) <==> exists|e: int| 0 <= e < edges.len() && #[trigger] edges[e] == (a, b, w),
    decreases edges.len(),
{
    if edges.len() > 0 {
        let d = edges.drop_last();
        let l = edges.last();
        lemma_edges_in_has(d, a, b, w);
        let rest = edges_in(d, b);
        if d.contains((a, b, w)) {
            let e = choose|e: int| 0 <= e < d.len() && d[e] == (a, b, w);
            assert(edges[e] == d[e]);
        }
        if exists|e: int| 0 <= e < edges.len() && #[trigger] edges[e] == (a, b, w) {
            let e = choose|e: int| 0 <= e < edges.len() && #[trigger] edges[e] == (a, b, w);
            if e < d.len() {
                assert(d[e] == edges[e]);
            }
        }
        if l.1 == b {
            let s = seq![(l.0, l.2)] + rest;
            if rest.contains((a, w)) {
                let i = choose|i: int| 0 <= i < rest.len() && rest[i] == (a, w);
                assert(s[i + 1] == rest[i]);
            }
            if s.contains((a, w)) {
                let i = choose|i: int| 0 <= i < s.len() && s[i] == (a, w);
                if i > 0 {
                    assert(rest[i - 1] == s[i]);
                }
            }
            assert(s[0] == (l.0, l.2));
        }
        assert(edges[edges.len() - 1] == l);
    }
}

/// A graph lists an edge from `a` to `b` among the outgoing edges of `a`
/// exactly when it lists it among the incoming edges of `b`.
pub proof fn law_outgoing_matches_incoming(edges: Seq<(int, int, EdgeWeight)>, a: int, b: int, w: EdgeWeight)
    ensures
        edges_out(edges, a).contains((b, w)) <==> edges_in(edges, b).contains((a, w)),
{
    lemma_edges_out_has(edges, a, b, w);
    lemma_edges_in_has(edges, a, b, w);
}

/// A name added to the nodes is found among them.
proof fn lemma_with_node_has(nodes: Seq<Seq<char>>, name: Seq<char>)
    ensures
        node_index(with_node(nodes, name), name) is Some,
{
    if node_index(nodes, name) is None {
        assert(nodes.push(name).last() == name);
    }
}

/// Adding a call makes both its services nodes and touches one edge only:
/// the edge from the caller to the callee gains the call (one more call,
/// its duration, its async flag, its queue latency) where there is one, or
/// is made for it at the end; every other edge stays as it was.
pub proof fn law_add_call_touches_one_edge(m: GraphModel, call: ServiceCall)
    ensures
        ({
            let r = add_call_model(m, call);
            let a = node_index(r.0, call.from_service@);
            let b = node_index(r.0, call.to_service@);
            &&& a matches Some(ai) && 0 <= ai < r.0.len() && r.0[ai] == call.from_service@
            &&& b matches Some(bi) && 0 <= bi < r.0.len() && r.0[bi] == call.to_service@
            &&& match newest_edge(m.1, a->0, b->0) {
                Some(e) => {
                    &&& r.1.len() == m.1.len()
                    &&& r.1[e] == (a->0, b->0, merged_weight(m.1[e].2, call))
                    &&& forall|k: int| 0 <= k < m.1.len() && k != e ==> #[trigger] r.1[k] == m.1[k]
                },
                None => {
                    &&& r.1.len() == m.1.len() + 1
                    &&& r.1.last() == (a->0, b->0, fresh_weight(call))
                    &&& forall|k: int| 0 <= k < m.1.len() ==> #[trigger] r.1[k] == m.1[k]
                },
            }
        }),
{
    let n1 = with_node(m.0, call.from_service@);
    let nodes = with_node(n1, call.to_service@);
    lemma_with_node_has(m.0, call.from_service@);
    lemma_node_index_keeps(n1, call.to_service@, call.from_service@);
    lemma_with_node_has(n1, call.to_service@);
    lemma_node_index_range(nodes, call.from_service@);
    lemma_node_index_range(nodes, call.to_service@);
    let a = node_index(nodes, call.from_service@)->0;
    let b = node_index(nodes, call.to_service@)->0;
    lemma_newest_edge_range(m.1, a, b);
}

/// The calls from `from` to `to`, in order.
pub open spec fn pair_calls(calls: Seq<ServiceCall>, from: Seq<char>, to: Seq<char>) -> Seq<ServiceCall> {
    calls.filter(|c: ServiceCall| c.from_service@ == from && c.to_service@ == to)
}

/// The sum of the durations of some calls.
pub open spec fn duration_sum(calls: Seq<ServiceCall>) -> int
    decreases calls.len(),
{
    if calls.len() == 0 {
        0
    } else {
        duration_sum(calls.drop_last()) + calls.last().duration
    }
}

/// The sum of the queue latencies of those of some calls that carry one.
pub open spec fn queue_sum(calls: Seq<ServiceCall>) -> int
    decreases calls.len(),
{
    if calls.len() == 0 {
        0
    } else {
        queue_sum(calls.drop_last()) + match calls.last().queue_latency {
            Some(q) => q as int,
            None => 0int,
        }
    }
}

/// How many of some calls carry a queue latency.
pub open spec fn queued_count(calls: Seq<ServiceCall>) -> int
    decreases calls.len(),
{
    if calls.len() == 0 {
        0
    } else {
        queued_count(calls.drop_last()) + if calls.last().queue_latency is Some { 1int } else { 0int }
    }
}

/// The sums an edge keeps of its calls fit its counters.
pub open spec fn pair_sums_fit(calls: Seq<ServiceCall>) -> bool {
    &&& calls.len() <= usize::MAX
    &&& duration_sum(calls) <= u64::MAX
    &&& queue_sum(calls) <= u64::MAX
}

/// What the calls from `from` to `to` add up to, merged one by one, is
/// their count, the sum of their durations, whether any is asynchronous,
/// and the sum and count of the queue latencies that some carry.
proof fn lemma_pair_weight_sums(calls: Seq<ServiceCall>, from: Seq<char>, to: Seq<char>)
    requires
        pair_sums_fit(pair_calls(calls, from, to)),
    ensures
        ({
            let w = pair_weight(calls, from, to);
            let pc = pair_calls(calls, from, to);
            &&& w.call_count == pc.len()
            &&& w.total_duration == duration_sum(pc)
            &&& w.is_async == (exists|k: int| 0 <= k < pc.len() && (#[trigger] pc[k]).is_async)
            &&& w.total_queue_latency == queue_sum(pc)
            &&& w.queue_latency_count == queued_count(pc)
        }),
    decreases calls.len(),
{
    reveal(Seq::filter);
    if calls.len() > 0 {
        let d = calls.drop_last();
        let pd = pair_calls(d, from, to);
        let pc = pair_calls(calls, from, to);
        assert(pair_calls(calls, from, to) == if is_pair_call(calls.last(), from, to) {
            pd.push(calls.last())
        } else {
            pd
        });
        if is_pair_call(calls.last(), from, to) {
            assert(pc.drop_last() =~= pd);
            assert(pc.last() == calls.last());
            assert(queued_count(pd) <= pd.len()) by {
                lemma_queued_count_bound(pd);
            }
            assert(pair_sums_fit(pd)) by {
                lemma_sums_nonneg(pd);
            }
            lemma_pair_weight_sums(d, from, to);
            let w = pair_weight(calls, from, to);
            assert forall|k: int| 0 <= k < pd.len() implies (#[trigger] pd[k]).is_async == pc[k].is_async by {
                assert(pc[k] == pd[k]);
            }
            if w.is_async {
                if !calls.last().is_async {
                    let k = choose|k: int| 0 <= k < pd.len() && (#[trigger] pd[k]).is_async;
                    assert(pc[k] == pd[k]);
                } else {
                    assert(pc[pc.len() - 1].is_async);
                }
            } else {
                assert forall|k: int| 0 <= k < pc.len() implies !(#[trigger] pc[k]).is_async by {
                    if k < pd.len() {
                        assert(pc[k] == pd[k]);
                    }
                }
            }
        } else {
            lemma_pair_weight_sums(d, from, to);
        }
    }
}

/// Queued calls are among the calls.
proof fn lemma_queued_count_bound(calls: Seq<ServiceCall>)
    ensures
        0 <= queued_count(calls) <= calls.len(),
    decreases calls.len(),
{
    if calls.len() > 0 {
        lemma_queued_count_bound(calls.drop_last());
    }
}

/// The sums of a prefix fit where those of the whole do.
proof fn lemma_sums_nonneg(calls: Seq<ServiceCall>)
    ensures
        0 <= duration_sum(calls),
        0 <= queue_sum(calls),
        calls.len() > 0 ==> duration_sum(calls.drop_last()) <= duration_sum(calls) && queue_sum(calls.drop_last())
            <= queue_sum(calls),
    decreases calls.len(),
{
    if calls.len() > 0 {
        lemma_sums_nonneg(calls.drop_last());
    }
}

/// Each edge of the dependency graph of some calls holds, for the calls
/// from its caller to its callee: how many there are, the sum of their
/// durations, whether any is asynchronous, and the sum and the number of
/// the queue latencies that those carrying one carry (where these sums fit
/// the edge's counters).
pub proof fn law_edge_weights_are_sums(calls: Seq<ServiceCall>)
    requires
        forall|from: Seq<char>, to: Seq<char>| #[trigger] pair_sums_fit(pair_calls(calls, from, to)),
    ensures
        forall|e: int|
            0 <= e < calls_graph(calls).len() ==> {
                let w = (#[trigger] calls_graph(calls)[e]).2;
                let pc = pair_calls(calls, calls_graph(calls)[e].0, calls_graph(calls)[e].1);
                &&& pc.len() > 0
                &&& w.call_count == pc.len()
                &&& w.total_duration == duration_sum(pc)
                &&& w.is_async == (exists|k: int| 0 <= k < pc.len() && (#[trigger] pc[k]).is_async)
                &&& w.total_queue_latency == queue_sum(pc)
                &&& w.queue_latency_count == queued_count(pc)
            },
{
    law_edges_sum_their_calls(calls);
    assert forall|e: int| 0 <= e < calls_graph(calls).len() implies {
        let w = (#[trigger] calls_graph(calls)[e]).2;
        let pc = pair_calls(calls, calls_graph(calls)[e].0, calls_graph(calls)[e].1);
        &&& pc.len() > 0
        &&& w.call_count == pc.len()
        &&& w.total_duration == duration_sum(pc)
        &&& w.is_async == (exists|k: int| 0 <= k < pc.len() && (#[trigger] pc[k]).is_async)
        &&& w.total_queue_latency == queue_sum(pc)
        &&& w.queue_latency_count == queued_count(pc)
    } by {
        let from = calls_graph(calls)[e].0;
        let to = calls_graph(calls)[e].1;
        assert(pair_sums_fit(pair_calls(calls, from, to)));
        lemma_pair_weight_sums(calls, from, to);
        lemma_seen_has_calls(calls, from, to);
    }
}

/// A pair that calls has calls.
proof fn lemma_seen_has_calls(calls: Seq<ServiceCall>, from: Seq<char>, to: Seq<char>)
    requires
        pair_seen(calls, from, to),
    ensures
        pair_calls(calls, from, to).len() > 0,
    decreases calls.len(),
{
    reveal(Seq::filter);
    if !is_pair_call(calls.last(), from, to) {
        lemma_seen_has_calls(calls.drop_last(), from, to);
    }
}

} // verus!
