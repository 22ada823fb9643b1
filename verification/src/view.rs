//! What a viewer of the graph draws: which links are on show, and how each
//! node is marked.
use vstd::prelude::*;

use crate::graph::{graph_wf, Graph, Node, NodeModel};

verus! {

/// How a node is drawn.
#[derive(Clone, Copy, PartialEq, Eq, Structural, Debug)]
pub enum NodeStyle {
    /// The node being dragged.
    Highlight,
    /// A page that no note answers to.
    Missing,
    /// Any other node.
    Normal,
}

pub open spec fn style_of(n: NodeModel, dragged: bool) -> NodeStyle {
    if dragged {
        NodeStyle::Highlight
    } else if !n.exists {
        NodeStyle::Missing
    } else {
        NodeStyle::Normal
    }
}

/// How to draw `node`, given whether it is the one being dragged.
pub fn node_style(node: &Node, dragged: bool) -> (r: NodeStyle)
    ensures
        r == style_of(node@, dragged),
{
    if dragged {
        NodeStyle::Highlight
    } else if !node.exists {
        NodeStyle::Missing
    } else {
        NodeStyle::Normal
    }
}

/// The links of node `k` that are on show: none where the node has not
/// appeared, else those whose target has appeared, in order.
pub open spec fn shown_links_of(g: Seq<NodeModel>, k: int) -> Seq<(int, int)> {
    if g[k].appeared {
        g[k].edges.filter(|t: int| g[t].appeared).map_values(|t: int| (k, t))
    } else {
        Seq::empty()
    }
}

/// The links on show from the first `n` nodes.
pub open spec fn shown_links_upto(g: Seq<NodeModel>, n: int) -> Seq<(int, int)>
    decreases n,
{
    if n <= 0 {
        Seq::empty()
    } else {
        shown_links_upto(g, n - 1) + shown_links_of(g, n - 1)
    }
}

/// The links on show, as (source, target) node indices: those between two
/// nodes that have both appeared, node by node and in each node's order.
pub fn shown_links(graph: &Graph) -> (r: Vec<(usize, usize)>)
    requires
        graph_wf(graph@),
    ensures
        r@.map_values(|e: (usize, usize)| (e.0 as int, e.1 as int)) == shown_links_upto(
            graph@,
            graph@.len() as int,
        ),
{
    broadcast use vstd::seq::Seq::lemma_filter_push;

    let ghost g = graph@;
    let ghost vm = |e: (usize, usize)| (e.0 as int, e.1 as int);
    let mut out: Vec<(usize, usize)> = Vec::new();
    let mut k: usize = 0;
    while k < graph.nodes.len()
        invariant
            k <= g.len(),
            g == graph@,
            graph.nodes@.len() == g.len(),
            graph_wf(g),
            vm == (|e: (usize, usize)| (e.0 as int, e.1 as int)),
            out@.map_values(vm) == shown_links_upto(g, k as int),
        decreases g.len() - k,
    {
        let node = &graph.nodes[k];
        assert(node@ == g[k as int]);
        if node.appeared {
            let ghost base = out@.map_values(vm);
            let ghost es = g[k as int].edges;
            let ghost keep = |t: int| g[t].appeared;
            let ghost pair = |t: int| (k as int, t);
            let mut j: usize = 0;
            assert(es.take(0).filter(keep).map_values(pair) =~= Seq::<(int, int)>::empty());
            assert(base + Seq::<(int, int)>::empty() =~= base);
            while j < node.edges.len()
                invariant
                    j <= node.edges@.len(),
                    es.len() == node.edges@.len(),
                    es == g[k as int].edges,
                    node@ == g[k as int],
                    k < g.len(),
                    g == graph@,
                    graph_wf(g),
                    keep == (|t: int| g[t].appeared),
                    pair == (|t: int| (k as int, t)),
                    vm == (|e: (usize, usize)| (e.0 as int, e.1 as int)),
                    out@.map_values(vm) == base + es.take(j as int).filter(keep).map_values(pair),
                decreases node.edges@.len() - j,
            {
                let t = node.edges[j].target;
                assert(es[j as int] == t as int);
                assert(0 <= es[j as int] < g.len());
                assert(graph.nodes@[t as int]@ == g[t as int]);
                assert(es.take(j + 1) =~= es.take(j as int).push(t as int));
                let ghost before = out@;
                proof {
                    es.take(j as int).lemma_filter_push(t as int, keep);
                    assert(keep(t as int) == g[t as int].appeared);
                }
                if graph.nodes[t].appeared {
                    out.push((k, t));
                    assert(out@.map_values(vm) =~= before.map_values(vm).push((k as int, t as int)));
                    assert(es.take(j + 1).filter(keep) == es.take(j as int).filter(keep).push(t as int));
                    assert(es.take(j + 1).filter(keep).map_values(pair) =~= es.take(j as int).filter(
                        keep,
                    ).map_values(pair).push((k as int, t as int)));
                } else {
                    assert(es.take(j + 1).filter(keep) == es.take(j as int).filter(keep));
                }
                j = j + 1;
            }
            assert(es.take(es.len() as int) =~= es);
            assert(shown_links_of(g, k as int) == es.filter(keep).map_values(pair));
        } else {
            assert(shown_links_of(g, k as int) =~= Seq::<(int, int)>::empty());
            assert(out@.map_values(vm) =~= out@.map_values(vm) + Seq::<(int, int)>::empty());
        }
        k = k + 1;
    }
    out
}

} // verus!
