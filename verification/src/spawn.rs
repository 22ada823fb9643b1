//! The order in which a graph's nodes appear: notes by creation time, then
//! by name, and pages without a known creation time last.
use vstd::prelude::*;

use crate::graph::{graph_wf, Graph, Node, NodeModel};
use crate::text::{
    lemma_insert_sorted, lemma_text_order_strict_total, sorted_by, strict_total, text_before,
    text_less, text_order,
};
use crate::vault::Timestamp;

verus! {

broadcast use vstd::string::group_string_axioms;

/// What a node is ordered by: its creation time, then its name.
pub type SpawnKey = (Option<Timestamp>, Seq<char>);

pub open spec fn spawn_key(n: NodeModel) -> SpawnKey {
    (n.date_created, n.name)
}

/// Whether a node with key `a` appears before one with key `b`: known times
/// come before unknown ones, earlier before later, and names decide between
/// equal times.
pub open spec fn key_less(a: SpawnKey, b: SpawnKey) -> bool {
    match (a.0, b.0) {
        (Some(x), Some(y)) => x < y || (x == y && text_less(a.1, b.1)),
        (Some(_), None) => true,
        (None, Some(_)) => false,
        (None, None) => text_less(a.1, b.1),
    }
}

pub open spec fn key_order() -> spec_fn(SpawnKey, SpawnKey) -> bool {
    |a: SpawnKey, b: SpawnKey| key_less(a, b)
}

pub proof fn lemma_key_order_strict_total()
    ensures
        strict_total(key_order()),
{
    lemma_text_order_strict_total();
    let t = text_order();
    assert forall|x: SpawnKey| !#[trigger] key_order()(x, x) by {
        assert(!t(x.1, x.1));
    }
    assert forall|x: SpawnKey, y: SpawnKey, z: SpawnKey|
        #[trigger] key_order()(x, y) && #[trigger] key_order()(y, z) implies key_order()(x, z) by {
        if t(x.1, y.1) && t(y.1, z.1) {
            assert(t(x.1, z.1));
        }
    }
    assert forall|x: SpawnKey, y: SpawnKey| x != y implies #[trigger] key_order()(x, y)
        || #[trigger] key_order()(y, x) by {
        if x.1 != y.1 {
            assert(t(x.1, y.1) || t(y.1, x.1));
        }
    }
}

/// The node indices `q` list each node of `g` exactly once, in spawn order.
pub open spec fn spawn_sequence(g: Seq<NodeModel>, q: Seq<int>) -> bool {
    &&& q.len() == g.len()
    &&& forall|a: int| 0 <= a < q.len() ==> 0 <= #[trigger] q[a] < g.len()
    &&& forall|a: int, b: int| 0 <= a < q.len() && 0 <= b < q.len() && a != b ==> #[trigger] q[a] != #[trigger] q[b]
    &&& forall|k: int| 0 <= k < g.len() ==> #[trigger] q.contains(k)
    &&& forall|a: int, b: int|
        0 <= a < b < q.len() ==> key_less(spawn_key(g[#[trigger] q[a]]), spawn_key(g[#[trigger] q[b]]))
}

/// `g` with every node listed in `ids` marked as appeared.
pub open spec fn shown_nodes(g: Seq<NodeModel>, ids: Seq<int>) -> Seq<NodeModel> {
    Seq::new(
        g.len(),
        |k: int|
            if ids.contains(k) {
                NodeModel { appeared: true, ..g[k] }
            } else {
                g[k]
            },
    )
}

/// `g` with every node marked as appeared, or as not appeared.
pub open spec fn all_appeared(g: Seq<NodeModel>, appeared: bool) -> Seq<NodeModel> {
    Seq::new(g.len(), |k: int| NodeModel { appeared, ..g[k] })
}

/// The queue of nodes still to appear.
pub struct Spawn {
    queue: Vec<usize>,
    head: usize,
}

impl Spawn {
    #[verifier::type_invariant]
    closed spec fn well_formed(&self) -> bool {
        self.head <= self.queue@.len()
    }

    /// The nodes still to appear, first to last.
    pub closed spec fn pending(&self) -> Seq<int> {
        self.queue@.subrange(self.head as int, self.queue@.len() as int).map_values(|k: usize| k as int)
    }

    /// Whether every node still to appear is a node of `g`.
    pub open spec fn fits(&self, g: Seq<NodeModel>) -> bool {
        forall|a: int| 0 <= a < self.pending().len() ==> 0 <= #[trigger] self.pending()[a] < g.len()
    }
}

fn set_appeared(graph: &mut Graph, k: usize, appeared: bool)
    requires
        k < old(graph)@.len(),
    ensures
        final(graph)@ == old(graph)@.update(k as int, NodeModel { appeared, ..old(graph)@[k as int] }),
{
    let ghost g0 = graph@;
    graph.nodes[k].appeared = appeared;
    assert(graph@ =~= g0.update(k as int, NodeModel { appeared, ..g0[k as int] }));
}

fn mark_all(graph: &mut Graph, appeared: bool)
    ensures
        final(graph)@ == all_appeared(old(graph)@, appeared),
{
    let ghost g0 = graph@;
    let mut k: usize = 0;
    while k < graph.nodes.len()
        invariant
            k <= graph@.len(),
            graph@.len() == g0.len(),
            graph.nodes@.len() == graph@.len(),
            forall|q: int|
                0 <= q < graph@.len() ==> #[trigger] graph@[q] == if q < k {
                    NodeModel { appeared, ..g0[q] }
                } else {
                    g0[q]
                },
        decreases graph@.len() - k,
    {
        set_appeared(graph, k, appeared);
        k = k + 1;
    }
    assert(graph@ =~= all_appeared(g0, appeared));
}

/// Whether node `a` appears before node `b`.
fn spawns_before(a: &Node, b: &Node) -> (r: bool)
    ensures
        r == key_less(spawn_key(a@), spawn_key(b@)),
{
    match (a.date_created, b.date_created) {
        (Some(x), Some(y)) => x < y || (x == y && text_before(a.name.as_str(), b.name.as_str())),
        (Some(_), None) => true,
        (None, Some(_)) => false,
        (None, None) => text_before(a.name.as_str(), b.name.as_str()),
    }
}

impl Spawn {
    /// A queue holding every node of `graph` in spawn order; every node is
    /// marked as not yet appeared.
    pub fn from_graph(graph: &mut Graph) -> (r: Spawn)
        requires
            graph_wf(old(graph)@),
        ensures
            final(graph)@ == all_appeared(old(graph)@, false),
            spawn_sequence(final(graph)@, r.pending()),
            r.fits(final(graph)@),
    {
        mark_all(graph, false);
        let ghost g = graph@;
        assert forall|a: int, b: int| 0 <= a < g.len() && 0 <= b < g.len() && a != b implies
            #[trigger] g[a].name != #[trigger] g[b].name by {
            assert(g[a].name == old(graph)@[a].name);
            assert(g[b].name == old(graph)@[b].name);
        }
        let ghost key = |k: usize| spawn_key(g[k as int]);
        let ghost lt = key_order();
        proof {
            lemma_key_order_strict_total();
        }
        let n = graph.nodes.len();
        let mut queue: Vec<usize> = Vec::new();
        let mut i: usize = 0;
        while i < n
            invariant
                n == graph@.len(),
                graph@ == g,
                i <= n,
                queue@.len() == i,
                forall|a: int, b: int| 0 <= a < g.len() && 0 <= b < g.len() && a != b ==>
                    #[trigger] g[a].name != #[trigger] g[b].name,
                forall|a: int| 0 <= a < queue@.len() ==> #[trigger] queue@[a] < i,
                forall|a: int, b: int|
                    0 <= a < queue@.len() && 0 <= b < queue@.len() && a != b ==> #[trigger] queue@[a]
                        != #[trigger] queue@[b],
                forall|k: int| 0 <= k < i ==> #[trigger] queue@.contains(k as usize),
                strict_total(lt),
                lt == key_order(),
                key == (|k: usize| spawn_key(g[k as int])),
                sorted_by(queue@, key, lt),
            decreases n - i,
        {
            let mut p = queue.len();
            while p > 0 && spawns_before(&graph.nodes[i], &graph.nodes[queue[p - 1]])
                invariant
                    p <= queue@.len(),
                    i < n == graph@.len(),
                    graph@ == g,
                    forall|a: int| 0 <= a < queue@.len() ==> #[trigger] queue@[a] < i,
                    forall|a: int| p <= a < queue@.len() ==> key_less(
                        spawn_key(g[i as int]),
                        #[trigger] spawn_key(g[queue@[a] as int]),
                    ),
                decreases p,
            {
                p = p - 1;
            }
            let ghost q0 = queue@;
            proof {
                assert forall|a: int| p <= a < q0.len() implies lt(key(i), #[trigger] key(q0[a])) by {}
                lemma_insert_sorted(q0, p as int, i, key, lt);
            }
            queue.insert(p, i);
            proof {
                assert(queue@ =~= q0.insert(p as int, i));
                assert forall|a: int| 0 <= a < queue@.len() implies #[trigger] queue@[a] < i + 1 by {
                    if a < p {
                        assert(queue@[a] == q0[a]);
                    } else if a > p {
                        assert(queue@[a] == q0[a - 1]);
                    }
                }
                assert forall|a: int, b: int|
                    0 <= a < queue@.len() && 0 <= b < queue@.len() && a != b implies #[trigger] queue@[a]
                        != #[trigger] queue@[b] by {
                    if a != p && b != p {
                        let a0 = if a < p { a } else { a - 1 };
                        let b0 = if b < p { b } else { b - 1 };
                        assert(queue@[a] == q0[a0]);
                        assert(queue@[b] == q0[b0]);
                    } else if a == p {
                        let b0 = if b < p { b } else { b - 1 };
                        assert(queue@[b] == q0[b0]);
                    } else {
                        let a0 = if a < p { a } else { a - 1 };
                        assert(queue@[a] == q0[a0]);
                    }
                }
                assert forall|k: int| 0 <= k < i + 1 implies #[trigger] queue@.contains(k as usize) by {
                    if k == i {
                        assert(queue@[p as int] == k);
                    } else {
                        assert(q0.contains(k as usize));
                        let a0 = choose|a: int| 0 <= a < q0.len() && #[trigger] q0[a] == k as usize;
                        if a0 < p {
                            assert(queue@[a0] == k);
                        } else {
                            assert(queue@[a0 + 1] == k);
                        }
                    }
                }
            }
            i = i + 1;
        }
        let r = Spawn { queue, head: 0 };
        proof {
            let pq = r.pending();
            assert(r.queue@.subrange(0, r.queue@.len() as int) =~= r.queue@);
            assert forall|a: int| 0 <= a < pq.len() implies pq[a] == r.queue@[a] as int by {}
            assert forall|a: int, b: int|
                0 <= a < b < pq.len() implies key_less(spawn_key(g[#[trigger] pq[a]]), spawn_key(g[#[trigger] pq[b]])) by {
                let ka = spawn_key(g[pq[a]]);
                let kb = spawn_key(g[pq[b]]);
                assert(key(r.queue@[b]) == kb);
                assert(key(r.queue@[a]) == ka);
                assert(!lt(key(r.queue@[b]), key(r.queue@[a])));
                assert(r.queue@[a] != r.queue@[b]);
                assert(g[pq[a]].name != g[pq[b]].name);
                assert(ka != kb);
                assert(lt(ka, kb) || lt(kb, ka));
            }
            assert forall|k: int| 0 <= k < g.len() implies #[trigger] pq.contains(k) by {
                assert(r.queue@.contains(k as usize));
                let a0 = choose|a: int| 0 <= a < r.queue@.len() && #[trigger] r.queue@[a] == k as usize;
                assert(pq[a0] == k);
            }
            assert forall|a: int, b: int| 0 <= a < pq.len() && 0 <= b < pq.len() && a != b implies #[trigger] pq[a]
                != #[trigger] pq[b] by {
                assert(r.queue@[a] != r.queue@[b]);
            }
        }
        r
    }

    /// Marks every node of `graph` as appeared and empties the queue.
    pub fn reveal_all(&mut self, graph: &mut Graph)
        ensures
            final(graph)@ == all_appeared(old(graph)@, true),
            final(self).pending() == Seq::<int>::empty(),
    {
        mark_all(graph, true);
        self.head = 0;
        self.queue = Vec::new();
        assert(self.pending() =~= Seq::<int>::empty());
    }

    /// Starts over: the queue of `graph`'s nodes, as `from_graph` makes it.
    pub fn reset_from(&mut self, graph: &mut Graph)
        requires
            graph_wf(old(graph)@),
        ensures
            final(graph)@ == all_appeared(old(graph)@, false),
            spawn_sequence(final(graph)@, final(self).pending()),
            final(self).fits(final(graph)@),
    {
        *self = Spawn::from_graph(graph);
    }

    /// Shows the next `steps` nodes of the queue (fewer where fewer remain),
    /// and returns how many it showed.
    pub fn advance(&mut self, graph: &mut Graph, steps: usize) -> (shown: usize)
        requires
            old(self).fits(old(graph)@),
        ensures
            shown as int == if steps < old(self).pending().len() {
                steps as int
            } else {
                old(self).pending().len() as int
            },
            final(self).pending() == old(self).pending().skip(shown as int),
            final(graph)@ == shown_nodes(old(graph)@, old(self).pending().take(shown as int)),
            final(self).fits(final(graph)@),
    {
        proof {
            use_type_invariant(&*self);
        }
        let ghost p0 = self.pending();
        let ghost g0 = graph@;
        let mut shown: usize = 0;
        while shown < steps && self.head < self.queue.len()
            invariant
                self.head <= self.queue@.len(),
                shown <= steps,
                shown <= p0.len(),
                graph@.len() == g0.len(),
                self.pending() == p0.skip(shown as int),
                self.queue@.len() - self.head == p0.len() - shown,
                forall|a: int| 0 <= a < p0.len() ==> 0 <= #[trigger] p0[a] < g0.len(),
                graph@ == shown_nodes(g0, p0.take(shown as int)),
            decreases p0.len() - shown,
        {
            let k = self.queue[self.head];
            assert(self.pending()[0] == k as int);
            assert(p0[shown as int] == k as int);
            let ghost gprev = graph@;
            let ghost prev = self.pending();
            set_appeared(graph, k, true);
            proof {
                let t1 = p0.take(shown + 1);
                assert(t1 =~= p0.take(shown as int).push(k as int));
                assert forall|q: int| 0 <= q < g0.len() implies #[trigger] graph@[q] == shown_nodes(g0, t1)[q] by {
                    if q == k {
                        assert(t1[shown as int] == k as int);
                        assert(t1.contains(k as int));
                        if p0.take(shown as int).contains(q) {
                        }
                    } else {
                        if t1.contains(q) {
                            let a = choose|a: int| 0 <= a < t1.len() && t1[a] == q;
                            assert(a < shown);
                            assert(p0.take(shown as int)[a] == q);
                        }
                        if p0.take(shown as int).contains(q) {
                            let a = choose|a: int| 0 <= a < shown && p0.take(shown as int)[a] == q;
                            assert(t1[a] == q);
                        }
                    }
                }
                assert(graph@ =~= shown_nodes(g0, t1));
            }
            self.head = self.head + 1;
            shown = shown + 1;
            proof {
                assert forall|a: int| 0 <= a < self.pending().len() implies self.pending()[a] == prev[a + 1] by {
                    assert(self.pending()[a] == self.queue@[self.head + a] as int);
                    assert(prev[a + 1] == self.queue@[self.head - 1 + a + 1] as int);
                }
                assert(self.pending() =~= p0.skip(shown as int));
            }
        }
        proof {
            if !(shown < steps) {
            } else {
                assert(shown == p0.len());
            }
            assert forall|a: int| 0 <= a < self.pending().len() implies 0 <= #[trigger] self.pending()[a] < graph@.len() by {
                assert(self.pending()[a] == p0[a + shown]);
            }
        }
        shown
    }
}

impl Default for Spawn {
    /// An empty queue.
    fn default() -> (r: Spawn)
        ensures
            r.pending() == Seq::<int>::empty(),
    {
        let r = Spawn { queue: Vec::new(), head: 0 };
        assert(r.pending() =~= Seq::<int>::empty());
        r
    }
}

} // verus!
