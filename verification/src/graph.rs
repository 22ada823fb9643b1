//! The graph of a vault: one node per note or linked page, one edge per link.
use vstd::prelude::*;

use crate::link::{links_of, parse_links, LinkModel};
use crate::path::path_stem;
use crate::vault::{date_of, page_exists, Timestamp, Vault, VaultModel};

verus! {

broadcast use vstd::string::group_string_axioms;

/// A link from one node to another, by the target's index in the graph.
#[derive(Clone, Copy)]
pub struct Edge {
    pub target: usize,
}

/// A note, or a page that notes link to.
pub struct Node {
    pub name: String,
    /// Whether a note of the vault answers to this name.
    pub exists: bool,
    /// The node's links, in the order they appear in its note.
    pub edges: Vec<Edge>,
    /// When the note was created, where known.
    pub date_created: Option<Timestamp>,
    /// Whether the node has been shown yet.
    pub appeared: bool,
}

pub struct NodeModel {
    pub name: Seq<char>,
    pub exists: bool,
    pub edges: Seq<int>,
    pub date_created: Option<Timestamp>,
    pub appeared: bool,
}

impl View for Node {
    type V = NodeModel;

    open spec fn view(&self) -> NodeModel {
        NodeModel {
            name: self.name@,
            exists: self.exists,
            edges: self.edges@.map_values(|e: Edge| e.target as int),
            date_created: self.date_created,
            appeared: self.appeared,
        }
    }
}

/// The nodes of a vault and the links between them.
pub struct Graph {
    pub nodes: Vec<Node>,
}

impl View for Graph {
    type V = Seq<NodeModel>;

    open spec fn view(&self) -> Seq<NodeModel> {
        self.nodes@.map_values(|n: Node| n@)
    }
}

/// No two nodes share a name, and every edge leads to a node.
pub open spec fn graph_wf(g: Seq<NodeModel>) -> bool {
    &&& forall|a: int, b: int|
        0 <= a < g.len() && 0 <= b < g.len() && a != b ==> #[trigger] g[a].name != #[trigger] g[b].name
    &&& forall|k: int, e: int|
        0 <= k < g.len() && 0 <= e < g[k].edges.len() ==> 0 <= #[trigger] g[k].edges[e] < g.len()
}

impl Graph {
    pub open spec fn wf(&self) -> bool {
        graph_wf(self@)
    }
}

// ---------------------------------------------------------------------------
// What a graph is built from
// ---------------------------------------------------------------------------

/// A name met while reading the vault, with whether a note answers to it.
pub type NameEvent = (Seq<char>, bool);

/// A link from the note with the first stem to the page named second.
pub type WikiEdge = (Seq<char>, Seq<char>);

pub open spec fn source_stem(m: VaultModel, i: int) -> Seq<char> {
    path_stem(m.entries[i].0)
}

/// The pages that the `i`-th note links to, each with whether it exists.
pub open spec fn link_events(m: VaultModel, texts: Seq<Seq<char>>, i: int) -> Seq<NameEvent> {
    links_of(texts[i]).map_values(|l: LinkModel| (l.page, page_exists(m, l.page)))
}

/// The links of the `i`-th note.
pub open spec fn file_edges(m: VaultModel, texts: Seq<Seq<char>>, i: int) -> Seq<WikiEdge> {
    links_of(texts[i]).map_values(|l: LinkModel| (source_stem(m, i), l.page))
}

/// The names met in the first `n` notes: each note's stem, which exists,
/// then the pages it links to.
pub open spec fn events_upto(m: VaultModel, texts: Seq<Seq<char>>, n: int) -> Seq<NameEvent>
    decreases n,
{
    if n <= 0 {
        Seq::empty()
    } else {
        events_upto(m, texts, n - 1) + seq![(source_stem(m, n - 1), true)] + link_events(
            m,
            texts,
            n - 1,
        )
    }
}

/// The links of the first `n` notes, in order.
pub open spec fn edges_upto(m: VaultModel, texts: Seq<Seq<char>>, n: int) -> Seq<WikiEdge>
    decreases n,
{
    if n <= 0 {
        Seq::empty()
    } else {
        edges_upto(m, texts, n - 1) + file_edges(m, texts, n - 1)
    }
}

pub open spec fn has_name(ev: Seq<NameEvent>, name: Seq<char>) -> bool {
    exists|q: int| 0 <= q < ev.len() && (#[trigger] ev[q]).0 == name
}

/// Whether the first event that names `name` says a note answers to it.
pub open spec fn first_flag(ev: Seq<NameEvent>, name: Seq<char>) -> bool
    decreases ev.len(),
{
    if ev.len() == 0 {
        false
    } else if has_name(ev.drop_last(), name) {
        first_flag(ev.drop_last(), name)
    } else {
        ev.last().0 == name && ev.last().1
    }
}

/// The pages that `source` links to, in order.
pub open spec fn targets_of(w: Seq<WikiEdge>, source: Seq<char>) -> Seq<Seq<char>>
    decreases w.len(),
{
    if w.len() == 0 {
        Seq::empty()
    } else if w.last().0 == source {
        targets_of(w.drop_last(), source).push(w.last().1)
    } else {
        targets_of(w.drop_last(), source)
    }
}

/// The creation time of the first note, from the `i`-th on, whose stem is
/// `name`.
pub open spec fn stem_date_from(m: VaultModel, name: Seq<char>, i: int) -> Option<Timestamp>
    decreases m.entries.len() - i,
{
    if i < 0 || i >= m.entries.len() {
        None
    } else if path_stem(m.entries[i].0) == name {
        date_of(m, m.entries[i].0)
    } else {
        stem_date_from(m, name, i + 1)
    }
}

/// The creation time of the first note whose stem is `name`.
pub open spec fn stem_date(m: VaultModel, name: Seq<char>) -> Option<Timestamp> {
    stem_date_from(m, name, 0)
}

/// The names of a graph's edge targets for its `k`-th node.
pub open spec fn target_names(g: Seq<NodeModel>, k: int) -> Seq<Seq<char>> {
    g[k].edges.map_values(|t: int| g[t].name)
}

pub open spec fn has_node(g: Seq<NodeModel>, name: Seq<char>) -> bool {
    exists|k: int| 0 <= k < g.len() && (#[trigger] g[k]).name == name
}

/// `g` is the graph of the vault `m` whose notes hold the texts `texts`:
/// there is one node per name met, it exists as the first mention of its name
/// says, its edges lead to the pages its note links to, in order, and it
/// carries the creation time of the first note with its name as stem.
pub open spec fn graph_of(g: Seq<NodeModel>, m: VaultModel, texts: Seq<Seq<char>>) -> bool {
    let ev = events_upto(m, texts, m.entries.len() as int);
    let w = edges_upto(m, texts, m.entries.len() as int);
    &&& graph_wf(g)
    &&& forall|name: Seq<char>| has_name(ev, name) <==> has_node(g, name)
    &&& forall|k: int| 0 <= k < g.len() ==> (#[trigger] g[k]).exists == first_flag(ev, g[k].name)
    &&& forall|k: int| 0 <= k < g.len() ==> #[trigger] target_names(g, k) == targets_of(w, g[k].name)
    &&& forall|k: int| 0 <= k < g.len() ==> (#[trigger] g[k]).date_created == stem_date(m, g[k].name)
    &&& forall|k: int| 0 <= k < g.len() ==> !(#[trigger] g[k]).appeared
}


// ---------------------------------------------------------------------------
// Building
// ---------------------------------------------------------------------------

/// `g` holds one node for each name in `ev`, flagged as its first mention
/// says, with the edges of `w`, and no times or reveals set yet.
pub open spec fn built(g: Seq<NodeModel>, ev: Seq<NameEvent>, w: Seq<WikiEdge>) -> bool {
    &&& graph_wf(g)
    &&& forall|name: Seq<char>| has_name(ev, name) <==> has_node(g, name)
    &&& forall|q: int| 0 <= q < w.len() ==> has_node(g, (#[trigger] w[q]).0)
    &&& forall|k: int| 0 <= k < g.len() ==> (#[trigger] g[k]).exists == first_flag(ev, g[k].name)
    &&& forall|k: int| 0 <= k < g.len() ==> #[trigger] target_names(g, k) == targets_of(w, g[k].name)
    &&& forall|k: int| 0 <= k < g.len() ==> (#[trigger] g[k]).date_created is None
    &&& forall|k: int| 0 <= k < g.len() ==> !(#[trigger] g[k]).appeared
}

pub open spec fn fresh_node(name: Seq<char>, flag: bool) -> NodeModel {
    NodeModel { name, exists: flag, edges: Seq::empty(), date_created: None, appeared: false }
}

pub open spec fn with_edge(n: NodeModel, t: int) -> NodeModel {
    NodeModel { edges: n.edges.push(t), ..n }
}

proof fn lemma_targets_absent(w: Seq<WikiEdge>, x: Seq<char>)
    requires
        forall|q: int| 0 <= q < w.len() ==> (#[trigger] w[q]).0 != x,
    ensures
        targets_of(w, x) == Seq::<Seq<char>>::empty(),
    decreases w.len(),
{
    if w.len() > 0 {
        assert forall|q: int| 0 <= q < w.drop_last().len() implies (#[trigger] w.drop_last()[q]).0 != x by {
            assert(w.drop_last()[q] == w[q]);
        }
        lemma_targets_absent(w.drop_last(), x);
    }
}

proof fn lemma_add_event(
    g0: Seq<NodeModel>,
    g1: Seq<NodeModel>,
    ev: Seq<NameEvent>,
    w: Seq<WikiEdge>,
    name: Seq<char>,
    flag: bool,
)
    requires
        built(g0, ev, w),
        has_node(g0, name) ==> g1 == g0,
        !has_node(g0, name) ==> g1 == g0.push(fresh_node(name, flag)),
    ensures
        built(g1, ev.push((name, flag)), w),
        has_node(g1, name),
{
    let ev1 = ev.push((name, flag));
    assert(ev1.drop_last() =~= ev);
    assert forall|x: Seq<char>| has_name(ev1, x) <==> has_name(ev, x) || x == name by {
        if has_name(ev, x) {
            let q = choose|q: int| 0 <= q < ev.len() && (#[trigger] ev[q]).0 == x;
            assert(ev1[q] == ev[q]);
        }
        if x == name {
            assert(ev1[ev.len() as int].0 == x);
        }
        if has_name(ev1, x) && x != name {
            let q = choose|q: int| 0 <= q < ev1.len() && (#[trigger] ev1[q]).0 == x;
            assert(ev1[q] == ev[q]);
        }
    }
    if has_node(g0, name) {
        assert forall|k: int| 0 <= k < g1.len() implies (#[trigger] g1[k]).exists == first_flag(
            ev1,
            g1[k].name,
        ) by {
            assert(has_node(g0, g0[k].name));
        }
    } else {
        let n = g0.len() as int;
        assert(g1[n] == fresh_node(name, flag));
        assert(has_node(g1, name)) by {
            assert(g1[n].name == name);
        }
        assert forall|x: Seq<char>| has_node(g1, x) <==> has_node(g0, x) || x == name by {
            if has_node(g0, x) {
                let k = choose|k: int| 0 <= k < g0.len() && (#[trigger] g0[k]).name == x;
                assert(g1[k] == g0[k]);
            }
            if has_node(g1, x) && x != name {
                let k = choose|k: int| 0 <= k < g1.len() && (#[trigger] g1[k]).name == x;
                assert(g1[k] == g0[k]);
            }
        }
        assert forall|a: int, b: int|
            0 <= a < g1.len() && 0 <= b < g1.len() && a != b implies #[trigger] g1[a].name
            != #[trigger] g1[b].name by {
            if a == n {
                assert(g1[b] == g0[b]);
                assert(has_node(g0, g0[b].name));
            } else if b == n {
                assert(g1[a] == g0[a]);
                assert(has_node(g0, g0[a].name));
            } else {
                assert(g1[a] == g0[a]);
                assert(g1[b] == g0[b]);
            }
        }
        assert forall|k: int, e: int|
            0 <= k < g1.len() && 0 <= e < g1[k].edges.len() implies 0 <= #[trigger] g1[k].edges[e]
            < g1.len() by {
            if k < n {
                assert(g1[k] == g0[k]);
            }
        }
        assert forall|q: int| 0 <= q < w.len() implies has_node(g1, (#[trigger] w[q]).0) by {
            assert(has_node(g0, w[q].0));
        }
        assert forall|k: int| 0 <= k < g1.len() implies (#[trigger] g1[k]).exists == first_flag(
            ev1,
            g1[k].name,
        ) by {
            if k < n {
                assert(g1[k] == g0[k]);
                assert(has_node(g0, g0[k].name));
            } else {
                assert(!has_name(ev, name));
            }
        }
        assert forall|k: int| 0 <= k < g1.len() implies #[trigger] target_names(g1, k) == targets_of(
            w,
            g1[k].name,
        ) by {
            if k < n {
                assert(g1[k] == g0[k]);
                assert(target_names(g1, k) =~= target_names(g0, k)) by {
                    assert forall|e: int| 0 <= e < g0[k].edges.len() implies g1[g0[k].edges[e]]
                        == g0[g0[k].edges[e]] by {
                        assert(0 <= g0[k].edges[e] < n);
                    }
                }
            } else {
                assert forall|q: int| 0 <= q < w.len() implies (#[trigger] w[q]).0 != name by {
                    assert(has_node(g0, w[q].0));
                }
                lemma_targets_absent(w, name);
                assert(target_names(g1, k) =~= Seq::<Seq<char>>::empty());
            }
        }
        assert forall|k: int| 0 <= k < g1.len() implies (#[trigger] g1[k]).date_created is None
            && !g1[k].appeared by {
            if k < n {
                assert(g1[k] == g0[k]);
            }
        }
    }
}

proof fn lemma_add_edge(
    g0: Seq<NodeModel>,
    g1: Seq<NodeModel>,
    ev: Seq<NameEvent>,
    w: Seq<WikiEdge>,
    s: int,
    t: int,
)
    requires
        built(g0, ev, w),
        0 <= s < g0.len(),
        0 <= t < g0.len(),
        g1 == g0.update(s, with_edge(g0[s], t)),
    ensures
        built(g1, ev, w.push((g0[s].name, g0[t].name))),
{
    let w1 = w.push((g0[s].name, g0[t].name));
    assert(w1.drop_last() =~= w);
    assert forall|k: int| 0 <= k < g1.len() implies #[trigger] g1[k].name == g0[k].name by {}
    assert forall|x: Seq<char>| has_node(g1, x) <==> has_node(g0, x) by {
        if has_node(g0, x) {
            let k = choose|k: int| 0 <= k < g0.len() && (#[trigger] g0[k]).name == x;
            assert(g1[k].name == x);
        }
        if has_node(g1, x) {
            let k = choose|k: int| 0 <= k < g1.len() && (#[trigger] g1[k]).name == x;
            assert(g0[k].name == x);
        }
    }
    assert forall|a: int, b: int|
        0 <= a < g1.len() && 0 <= b < g1.len() && a != b implies #[trigger] g1[a].name
        != #[trigger] g1[b].name by {
        assert(g0[a].name != g0[b].name);
    }
    assert forall|k: int, e: int|
        0 <= k < g1.len() && 0 <= e < g1[k].edges.len() implies 0 <= #[trigger] g1[k].edges[e]
        < g1.len() by {
        if k == s && e == g0[s].edges.len() {
        } else {
            assert(g1[k].edges[e] == g0[k].edges[e]);
        }
    }
    assert forall|q: int| 0 <= q < w1.len() implies has_node(g1, (#[trigger] w1[q]).0) by {
        if q < w.len() {
            assert(w1[q] == w[q]);
        } else {
            assert(g1[s].name == w1[q].0);
        }
    }
    assert forall|k: int| 0 <= k < g1.len() implies #[trigger] target_names(g1, k) == targets_of(
        w1,
        g1[k].name,
    ) by {
        assert(target_names(g0, k) == targets_of(w, g0[k].name));
        if k == s {
            assert(target_names(g1, k) =~= target_names(g0, k).push(g0[t].name));
        } else {
            assert(g0[k].name != g0[s].name);
            assert(target_names(g1, k) =~= target_names(g0, k));
        }
    }
    assert forall|k: int| 0 <= k < g1.len() implies (#[trigger] g1[k]).exists == first_flag(
        ev,
        g1[k].name,
    ) && g1[k].date_created is None && !g1[k].appeared by {
        assert(g0[k].exists == first_flag(ev, g0[k].name));
    }
}

fn find_or_add(graph: &mut Graph, name: String, flag: bool) -> (k: usize)
    requires
        graph_wf(old(graph)@),
    ensures
        k < final(graph)@.len(),
        final(graph)@[k as int].name == name@,
        has_node(old(graph)@, name@) ==> final(graph)@ == old(graph)@,
        !has_node(old(graph)@, name@) ==> final(graph)@ == old(graph)@.push(fresh_node(name@, flag)),
{
    let mut k: usize = 0;
    while k < graph.nodes.len()
        invariant
            k <= graph@.len(),
            graph@ == old(graph)@,
            graph.nodes@.len() == graph@.len(),
            forall|i: int| 0 <= i < k ==> (#[trigger] graph@[i]).name != name@,
        decreases graph@.len() - k,
    {
        assert(graph@[k as int].name == graph.nodes@[k as int].name@);
        if graph.nodes[k].name == name {
            return k;
        }
        k = k + 1;
    }
    assert(!has_node(old(graph)@, name@));
    let node = Node { name, exists: flag, edges: Vec::new(), date_created: None, appeared: false };
    let ghost nm = node@;
    assert(nm.edges =~= Seq::<int>::empty());
    assert(nm == fresh_node(name@, flag));
    graph.nodes.push(node);
    assert(graph@ =~= old(graph)@.push(nm));
    k
}

fn push_edge(graph: &mut Graph, s: usize, t: usize)
    requires
        s < old(graph)@.len(),
    ensures
        final(graph)@ == old(graph)@.update(s as int, with_edge(old(graph)@[s as int], t as int)),
{
    let ghost g0 = graph@;
    let ghost n0 = graph.nodes@[s as int];
    graph.nodes[s].edges.push(Edge { target: t });
    assert(graph.nodes@[s as int]@.edges =~= g0[s as int].edges.push(t as int));
    assert(graph.nodes@[s as int]@ == with_edge(g0[s as int], t as int));
    assert(graph@ =~= g0.update(s as int, with_edge(g0[s as int], t as int)));
}

fn set_date(graph: &mut Graph, k: usize, d: Option<Timestamp>)
    requires
        k < old(graph)@.len(),
    ensures
        final(graph)@ == old(graph)@.update(k as int, NodeModel { date_created: d, ..old(graph)@[k as int] }),
{
    let ghost g0 = graph@;
    graph.nodes[k].date_created = d;
    assert(graph@ =~= g0.update(k as int, NodeModel { date_created: d, ..g0[k as int] }));
}

/// The texts of the notes, as the contracts see them.
pub open spec fn texts_of(contents: Seq<String>) -> Seq<Seq<char>> {
    contents.map_values(|s: String| s@)
}

impl Vault {
    /// The creation time of the first note whose stem is `name`.
    fn first_stem_date(&self, name: &String) -> (r: Option<Timestamp>)
        ensures
            r == stem_date(self@, name@),
    {
        let files = self.files();
        let mut i: usize = 0;
        while i < files.len()
            invariant
                i <= files@.len(),
                files@.len() == self@.entries.len(),
                forall|k: int| 0 <= k < files@.len() ==> (#[trigger] files@[k])@ == self@.entries[k].0,
                stem_date(self@, name@) == stem_date_from(self@, name@, i as int),
            decreases files@.len() - i,
        {
            let st = files[i].file_stem();
            if st == *name {
                return self.date_created(&files[i]);
            }
            i = i + 1;
        }
        None
    }

    /// The graph of the vault, whose notes hold the texts `contents` (the
    /// `i`-th text is that of the `i`-th note): a node for every note and
    /// every page linked to, and an edge for every link.
    pub fn build_graph(&self, contents: &Vec<String>) -> (r: Graph)
        requires
            contents@.len() == self@.entries.len(),
        ensures
            graph_of(r@, self@, texts_of(contents@)),
    {
        let files = self.files();
        let ghost m = self@;
        let ghost texts = texts_of(contents@);
        let mut g = Graph { nodes: Vec::new() };
        assert(g@ =~= Seq::<NodeModel>::empty());
        let mut i: usize = 0;
        while i < files.len()
            invariant
                i <= files@.len(),
                m == self@,
                texts == texts_of(contents@),
                files@.len() == m.entries.len(),
                contents@.len() == m.entries.len(),
                forall|k: int| 0 <= k < files@.len() ==> (#[trigger] files@[k])@ == m.entries[k].0,
                built(g@, events_upto(m, texts, i as int), edges_upto(m, texts, i as int)),
            decreases files@.len() - i,
        {
            let ghost ev0 = events_upto(m, texts, i as int);
            let ghost w0 = edges_upto(m, texts, i as int);
            let source = files[i].file_stem();
            let ghost stem = source@;
            assert(stem == source_stem(m, i as int));
            let ghost g0 = g@;
            let si = find_or_add(&mut g, source, true);
            proof {
                lemma_add_event(g0, g@, ev0, w0, stem, true);
            }
            let links = parse_links(contents[i].as_str(), &files[i]);
            let ghost lm = links_of(texts[i as int]);
            let ghost le = link_events(m, texts, i as int);
            let ghost fe = file_edges(m, texts, i as int);
            assert(texts[i as int] == contents@[i as int]@);
            assert(links@.map_values(|l: crate::link::Link| l@).len() == links@.len());
            let mut j: usize = 0;
            assert(ev0.push((stem, true)) + le.take(0) =~= ev0.push((stem, true)));
            assert(w0 + fe.take(0) =~= w0);
            while j < links.len()
                invariant
                    j <= links@.len(),
                    m == self@,
                    lm == links_of(texts[i as int]),
                    le == link_events(m, texts, i as int),
                    fe == file_edges(m, texts, i as int),
                    links@.map_values(|l: crate::link::Link| l@) == lm,
                    lm.len() == links@.len(),
                    si < g@.len(),
                    g@[si as int].name == stem,
                    stem == source_stem(m, i as int),
                    built(g@, ev0.push((stem, true)) + le.take(j as int), w0 + fe.take(j as int)),
                decreases links@.len() - j,
            {
                let ghost evj = ev0.push((stem, true)) + le.take(j as int);
                let ghost wj = w0 + fe.take(j as int);
                assert(links@[j as int]@ == lm[j as int]);
                let page = links[j].page.clone();
                let flag = self.note_exists(page.as_str());
                assert(le[j as int] == (page@, flag));
                let ghost g1 = g@;
                let ti = find_or_add(&mut g, page, flag);
                proof {
                    lemma_add_event(g1, g@, evj, wj, page@, flag);
                    assert(g@[si as int] == g1[si as int]);
                }
                let ghost g2 = g@;
                push_edge(&mut g, si, ti);
                proof {
                    lemma_add_edge(g2, g@, evj.push((page@, flag)), wj, si as int, ti as int);
                    assert(fe[j as int] == (stem, page@));
                    assert(ev0.push((stem, true)) + le.take(j + 1) =~= evj.push((page@, flag)));
                    assert(w0 + fe.take(j + 1) =~= wj.push((stem, page@)));
                }
                j = j + 1;
            }
            proof {
                assert(le.take(j as int) =~= le);
                assert(fe.take(j as int) =~= fe);
                assert(events_upto(m, texts, i + 1) == ev0 + seq![(stem, true)] + le);
                assert(ev0.push((stem, true)) =~= ev0 + seq![(stem, true)]);
                assert(edges_upto(m, texts, i + 1) == w0 + fe);
            }
            i = i + 1;
        }
        let ghost gb = g@;
        let ghost ev = events_upto(m, texts, m.entries.len() as int);
        let ghost w = edges_upto(m, texts, m.entries.len() as int);
        let mut k: usize = 0;
        while k < g.nodes.len()
            invariant
                k <= g@.len(),
                g@.len() == gb.len(),
                g.nodes@.len() == g@.len(),
                m == self@,
                built(gb, ev, w),
                forall|q: int|
                    0 <= q < g@.len() ==> #[trigger] g@[q] == if q < k {
                        NodeModel { date_created: stem_date(m, gb[q].name), ..gb[q] }
                    } else {
                        gb[q]
                    },
            decreases g@.len() - k,
        {
            assert(g@[k as int].name == g.nodes@[k as int].name@);
            let d = self.first_stem_date(&g.nodes[k].name);
            set_date(&mut g, k, d);
            k = k + 1;
        }
        proof {
            assert forall|q: int| 0 <= q < g@.len() implies #[trigger] g@[q].name == gb[q].name
                && g@[q].edges == gb[q].edges && g@[q].exists == gb[q].exists && !g@[q].appeared
                && g@[q].date_created == stem_date(m, gb[q].name) by {}
            assert forall|x: Seq<char>| has_node(g@, x) <==> has_node(gb, x) by {
                if has_node(gb, x) {
                    let q = choose|q: int| 0 <= q < gb.len() && (#[trigger] gb[q]).name == x;
                    assert(g@[q].name == x);
                }
                if has_node(g@, x) {
                    let q = choose|q: int| 0 <= q < g@.len() && (#[trigger] g@[q]).name == x;
                    assert(gb[q].name == x);
                }
            }
            assert forall|q: int| 0 <= q < g@.len() implies #[trigger] target_names(g@, q) == targets_of(
                w,
                g@[q].name,
            ) by {
                assert(target_names(gb, q) == targets_of(w, gb[q].name));
                assert(target_names(g@, q) =~= target_names(gb, q));
            }
            assert forall|a: int, b: int|
                0 <= a < g@.len() && 0 <= b < g@.len() && a != b implies #[trigger] g@[a].name
                != #[trigger] g@[b].name by {
                assert(gb[a].name != gb[b].name);
            }
            assert forall|q: int, e: int|
                0 <= q < g@.len() && 0 <= e < g@[q].edges.len() implies 0 <= #[trigger] g@[q].edges[e]
                < g@.len() by {
                assert(g@[q].edges[e] == gb[q].edges[e]);
            }
            assert forall|q: int| 0 <= q < g@.len() implies (#[trigger] g@[q]).exists == first_flag(
                ev,
                g@[q].name,
            ) by {
                assert(gb[q].exists == first_flag(ev, gb[q].name));
            }
        }
        g
    }
}

} // verus!
