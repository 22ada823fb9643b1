//! Properties that hold across the library's operations.
use vstd::prelude::*;

use crate::graph::{
    edges_upto, events_upto, targets_of, target_names, WikiEdge, first_flag, graph_of, has_name, has_node, link_events, source_stem,
    stem_date, stem_date_from, NameEvent, NodeModel,
};
use crate::graph::graph_wf;
use crate::link::{links_of, LinkModel};
use crate::view::{shown_links_of, shown_links_upto};
use crate::path::path_stem;
use crate::spawn::{all_appeared, key_less, shown_nodes, spawn_key, spawn_sequence};
use crate::text::{lemma_trimmed_idempotent, trimmed};
use crate::vault::{date_among, date_of, page_exists, stem_set, VaultModel};

verus! {

/// Surrounding white space does not change whether a page exists.
pub proof fn lemma_page_exists_ignores_white_space(m: VaultModel, page: Seq<char>)
    ensures
        page_exists(m, page) == page_exists(m, trimmed(page)),
{
    lemma_trimmed_idempotent(page);
}

/// A link by bare name reaches a note wherever in the vault the note lies:
/// every note's stem, where it has no surrounding white space, exists.
pub proof fn lemma_notes_answer_to_their_stems(m: VaultModel, i: int)
    requires
        0 <= i < m.entries.len(),
        trimmed(path_stem(m.entries[i].0)) == path_stem(m.entries[i].0),
    ensures
        page_exists(m, path_stem(m.entries[i].0)),
{
    assert(stem_set(m).contains(path_stem(m.entries[i].0)));
}

/// A path that is not one of the vault's notes has no creation time.
pub proof fn lemma_date_of_other_path(m: VaultModel, p: Seq<Seq<char>>)
    requires
        forall|i: int| 0 <= i < m.entries.len() ==> (#[trigger] m.entries[i]).0 != p,
    ensures
        date_of(m, p) is None,
{
    lemma_date_among_absent(m.entries, p, m.entries.len() as int);
}

proof fn lemma_date_among_absent(entries: Seq<(Seq<Seq<char>>, Option<i128>)>, p: Seq<Seq<char>>, n: int)
    requires
        n <= entries.len(),
        forall|i: int| 0 <= i < entries.len() ==> (#[trigger] entries[i]).0 != p,
    ensures
        date_among(entries, p, n) is None,
    decreases n,
{
    if n > 0 {
        lemma_date_among_absent(entries, p, n - 1);
    }
}

proof fn lemma_stem_date_from_note(m: VaultModel, name: Seq<char>, i: int)
    requires
        stem_date_from(m, name, i) is Some,
    ensures
        stem_set(m).contains(name),
    decreases m.entries.len() - i,
{
    if 0 <= i < m.entries.len() {
        if path_stem(m.entries[i].0) == name {
            assert(path_stem(m.entries[i].0) == name);
        } else {
            lemma_stem_date_from_note(m, name, i + 1);
        }
    }
}

/// Only a name that some note bears as its stem carries a creation time.
pub proof fn lemma_dated_names_are_notes(m: VaultModel, name: Seq<char>)
    requires
        stem_date(m, name) is Some,
    ensures
        stem_set(m).contains(name),
{
    lemma_stem_date_from_note(m, name, 0);
}

proof fn lemma_event_flags(m: VaultModel, texts: Seq<Seq<char>>, n: int, x: Seq<char>)
    requires
        n <= m.entries.len(),
        trimmed(x) == x,
    ensures
        forall|q: int|
            0 <= q < events_upto(m, texts, n).len() && (#[trigger] events_upto(m, texts, n)[q]).0 == x
                ==> events_upto(m, texts, n)[q].1 == stem_set(m).contains(x),
    decreases n,
{
    if n > 0 {
        lemma_event_flags(m, texts, n - 1, x);
        let e0 = events_upto(m, texts, n - 1);
        let s = seq![(source_stem(m, n - 1), true)];
        let le = link_events(m, texts, n - 1);
        let ev = events_upto(m, texts, n);
        assert(ev == e0 + s + le);
        assert forall|q: int| 0 <= q < ev.len() && (#[trigger] ev[q]).0 == x implies ev[q].1
            == stem_set(m).contains(x) by {
            if q < e0.len() {
                assert(ev[q] == e0[q]);
            } else if q == e0.len() {
                assert(ev[q] == (source_stem(m, n - 1), true));
                assert(path_stem(m.entries[n - 1].0) == x);
                assert(stem_set(m).contains(x));
            } else {
                let j = q - e0.len() - 1;
                assert(ev[q] == le[j]);
                let l = links_of(texts[n - 1])[j];
                assert(le[j] == (l.page, page_exists(m, l.page)));
            }
        }
    }
}

proof fn lemma_first_flag_uniform(ev: Seq<NameEvent>, x: Seq<char>, b: bool)
    requires
        has_name(ev, x),
        forall|q: int| 0 <= q < ev.len() && (#[trigger] ev[q]).0 == x ==> ev[q].1 == b,
    ensures
        first_flag(ev, x) == b,
    decreases ev.len(),
{
    let d = ev.drop_last();
    if has_name(d, x) {
        assert forall|q: int| 0 <= q < d.len() && (#[trigger] d[q]).0 == x implies d[q].1 == b by {
            assert(d[q] == ev[q]);
        }
        lemma_first_flag_uniform(d, x, b);
    } else {
        let q = choose|q: int| 0 <= q < ev.len() && (#[trigger] ev[q]).0 == x;
        if q < ev.len() - 1 {
            assert(d[q] == ev[q]);
        }
        assert(ev[ev.len() - 1].0 == x);
    }
}

/// A node of a vault's graph whose name has no surrounding white space
/// exists exactly when a note of the vault has that name as its stem.
pub proof fn lemma_node_exists_iff_note(g: Seq<NodeModel>, m: VaultModel, texts: Seq<Seq<char>>, k: int)
    requires
        graph_of(g, m, texts),
        0 <= k < g.len(),
        trimmed(g[k].name) == g[k].name,
    ensures
        g[k].exists == stem_set(m).contains(g[k].name),
{
    let x = g[k].name;
    let ev = events_upto(m, texts, m.entries.len() as int);
    assert(has_node(g, x));
    assert(has_name(ev, x));
    lemma_event_flags(m, texts, m.entries.len() as int, x);
    lemma_first_flag_uniform(ev, x, stem_set(m).contains(x));
}

/// A node of a vault's graph that does not exist, and whose name has no
/// surrounding white space, carries no creation time.
pub proof fn lemma_missing_nodes_undated(g: Seq<NodeModel>, m: VaultModel, texts: Seq<Seq<char>>, k: int)
    requires
        graph_of(g, m, texts),
        0 <= k < g.len(),
        trimmed(g[k].name) == g[k].name,
        !g[k].exists,
    ensures
        g[k].date_created is None,
{
    lemma_node_exists_iff_note(g, m, texts, k);
    if stem_date(m, g[k].name) is Some {
        lemma_dated_names_are_notes(m, g[k].name);
    }
}

proof fn lemma_events_name(m: VaultModel, texts: Seq<Seq<char>>, n: int, i: int)
    requires
        0 <= i < n,
    ensures
        has_name(events_upto(m, texts, n), source_stem(m, i)),
        forall|j: int|
            0 <= j < links_of(texts[i]).len() ==> has_name(
                events_upto(m, texts, n),
                #[trigger] links_of(texts[i])[j].page,
            ),
    decreases n,
{
    let e0 = events_upto(m, texts, n - 1);
    let le = link_events(m, texts, n - 1);
    let ev = events_upto(m, texts, n);
    assert(ev == e0 + seq![(source_stem(m, n - 1), true)] + le);
    if i == n - 1 {
        assert(ev[e0.len() as int].0 == source_stem(m, i));
        assert forall|j: int| 0 <= j < links_of(texts[i]).len() implies has_name(
            ev,
            #[trigger] links_of(texts[i])[j].page,
        ) by {
            assert(ev[e0.len() + 1 + j] == le[j]);
        }
    } else {
        lemma_events_name(m, texts, n - 1, i);
        let x = source_stem(m, i);
        let q = choose|q: int| 0 <= q < e0.len() && (#[trigger] e0[q]).0 == x;
        assert(ev[q] == e0[q]);
        assert forall|j: int| 0 <= j < links_of(texts[i]).len() implies has_name(
            ev,
            #[trigger] links_of(texts[i])[j].page,
        ) by {
            let p = links_of(texts[i])[j].page;
            assert(has_name(e0, p));
            let q = choose|q: int| 0 <= q < e0.len() && (#[trigger] e0[q]).0 == p;
            assert(ev[q] == e0[q]);
        }
    }
}

/// Every note of a vault, and every page a note links to, is a node of the
/// vault's graph.
pub proof fn lemma_notes_and_links_are_nodes(g: Seq<NodeModel>, m: VaultModel, texts: Seq<Seq<char>>, i: int)
    requires
        graph_of(g, m, texts),
        0 <= i < m.entries.len(),
    ensures
        has_node(g, path_stem(m.entries[i].0)),
        forall|j: int|
            0 <= j < links_of(texts[i]).len() ==> has_node(g, #[trigger] links_of(texts[i])[j].page),
{
    lemma_events_name(m, texts, m.entries.len() as int, i);
    let ev = events_upto(m, texts, m.entries.len() as int);
    assert(has_name(ev, source_stem(m, i)));
    assert forall|j: int| 0 <= j < links_of(texts[i]).len() implies has_node(
        g,
        #[trigger] links_of(texts[i])[j].page,
    ) by {
        assert(has_name(ev, links_of(texts[i])[j].page));
    }
}

/// In spawn order, every node with a known creation time comes before every
/// node without one.
pub proof fn lemma_dated_nodes_spawn_first(g: Seq<NodeModel>, q: Seq<int>, a: int, b: int)
    requires
        spawn_sequence(g, q),
        0 <= a < b < q.len(),
        g[q[b]].date_created is Some,
    ensures
        g[q[a]].date_created is Some,
{
    assert(key_less(spawn_key(g[q[a]]), spawn_key(g[q[b]])));
}

/// Showing every node of a spawn queue marks every node of the graph as
/// appeared.
pub proof fn lemma_full_spawn_shows_all(g: Seq<NodeModel>, q: Seq<int>)
    requires
        spawn_sequence(g, q),
    ensures
        shown_nodes(g, q.take(q.len() as int)) == all_appeared(g, true),
{
    assert(q.take(q.len() as int) =~= q);
    let s = shown_nodes(g, q);
    assert forall|k: int| 0 <= k < g.len() implies #[trigger] s[k] == all_appeared(g, true)[k] by {
        assert(q.contains(k));
    }
    assert(s =~= all_appeared(g, true));
}

/// Showing nothing changes nothing; so once every node is revealed and the
/// queue emptied, advancing leaves the graph as it is.
pub proof fn lemma_show_nothing(g: Seq<NodeModel>)
    ensures
        shown_nodes(g, Seq::empty()) == g,
{
    assert(shown_nodes(g, Seq::empty()) =~= g);
}

/// The number of edges of the first `n` nodes.
pub open spec fn edge_count(g: Seq<NodeModel>, n: int) -> int
    decreases n,
{
    if n <= 0 {
        0
    } else {
        edge_count(g, n - 1) + g[n - 1].edges.len()
    }
}

/// The number of links of `w` whose source is one of the first `n` names.
pub open spec fn target_count(names: Seq<Seq<char>>, w: Seq<WikiEdge>, n: int) -> int
    decreases n,
{
    if n <= 0 {
        0
    } else {
        target_count(names, w, n - 1) + targets_of(w, names[n - 1]).len()
    }
}

pub open spec fn names_before(names: Seq<Seq<char>>, x: Seq<char>, n: int) -> bool {
    exists|k: int| 0 <= k < n && names[k] == x
}

proof fn lemma_target_count_empty(names: Seq<Seq<char>>, w: Seq<WikiEdge>, n: int)
    requires
        w.len() == 0,
    ensures
        target_count(names, w, n) == 0,
    decreases n,
{
    if n > 0 {
        lemma_target_count_empty(names, w, n - 1);
    }
}

proof fn lemma_target_count_step(names: Seq<Seq<char>>, w: Seq<WikiEdge>, n: int)
    requires
        w.len() > 0,
        0 <= n <= names.len(),
        forall|a: int, b: int| 0 <= a < names.len() && 0 <= b < names.len() && a != b ==> names[a] != names[b],
    ensures
        target_count(names, w, n) == target_count(names, w.drop_last(), n) + if names_before(
            names,
            w.last().0,
            n,
        ) {
            1int
        } else {
            0int
        },
    decreases n,
{
    if n > 0 {
        lemma_target_count_step(names, w, n - 1);
        let x = w.last().0;
        if names[n - 1] == x {
            assert(names_before(names, x, n));
            if names_before(names, x, n - 1) {
                let k = choose|k: int| 0 <= k < n - 1 && names[k] == x;
                assert(names[k] == names[n - 1]);
            }
        } else {
            if names_before(names, x, n) {
                let k = choose|k: int| 0 <= k < n && names[k] == x;
                assert(names_before(names, x, n - 1));
            }
            if names_before(names, x, n - 1) {
                let k = choose|k: int| 0 <= k < n - 1 && names[k] == x;
                assert(names_before(names, x, n));
            }
        }
    }
}

proof fn lemma_target_count_all(names: Seq<Seq<char>>, w: Seq<WikiEdge>)
    requires
        forall|a: int, b: int| 0 <= a < names.len() && 0 <= b < names.len() && a != b ==> names[a] != names[b],
        forall|q: int| 0 <= q < w.len() ==> names_before(names, (#[trigger] w[q]).0, names.len() as int),
    ensures
        target_count(names, w, names.len() as int) == w.len(),
    decreases w.len(),
{
    if w.len() == 0 {
        lemma_target_count_empty(names, w, names.len() as int);
    } else {
        let d = w.drop_last();
        assert forall|q: int| 0 <= q < d.len() implies names_before(names, (#[trigger] d[q]).0, names.len() as int) by {
            assert(d[q] == w[q]);
        }
        lemma_target_count_all(names, d);
        lemma_target_count_step(names, w, names.len() as int);
        assert(names_before(names, w[w.len() - 1].0, names.len() as int));
    }
}

proof fn lemma_edge_count_is_target_count(g: Seq<NodeModel>, w: Seq<WikiEdge>, n: int)
    requires
        0 <= n <= g.len(),
        forall|k: int| 0 <= k < g.len() ==> #[trigger] target_names(g, k) == targets_of(w, g[k].name),
    ensures
        edge_count(g, n) == target_count(g.map_values(|v: NodeModel| v.name), w, n),
    decreases n,
{
    if n > 0 {
        lemma_edge_count_is_target_count(g, w, n - 1);
        assert(target_names(g, n - 1) == targets_of(w, g[n - 1].name));
        assert(target_names(g, n - 1).len() == g[n - 1].edges.len());
    }
}

/// Each link of each note becomes exactly one edge: the graph has as many
/// edges as the notes have links.
pub proof fn lemma_each_link_one_edge(g: Seq<NodeModel>, m: VaultModel, texts: Seq<Seq<char>>)
    requires
        graph_of(g, m, texts),
    ensures
        edge_count(g, g.len() as int) == edges_upto(m, texts, m.entries.len() as int).len(),
{
    let w = edges_upto(m, texts, m.entries.len() as int);
    let ev = events_upto(m, texts, m.entries.len() as int);
    let names = g.map_values(|v: NodeModel| v.name);
    lemma_edge_count_is_target_count(g, w, g.len() as int);
    assert forall|a: int, b: int| 0 <= a < names.len() && 0 <= b < names.len() && a != b implies names[a] != names[b] by {
        assert(g[a].name != g[b].name);
    }
    lemma_edges_sources_named(m, texts, m.entries.len() as int);
    assert forall|q: int| 0 <= q < w.len() implies names_before(names, (#[trigger] w[q]).0, names.len() as int) by {
        assert(has_name(ev, w[q].0));
        assert(has_node(g, w[q].0));
        let k = choose|k: int| 0 <= k < g.len() && (#[trigger] g[k]).name == w[q].0;
        assert(names[k] == w[q].0);
    }
    lemma_target_count_all(names, w);
}

/// Every link's source note is a name met while reading the vault.
proof fn lemma_edges_sources_named(m: VaultModel, texts: Seq<Seq<char>>, n: int)
    requires
        n <= m.entries.len(),
    ensures
        forall|q: int|
            0 <= q < edges_upto(m, texts, n).len() ==> has_name(
                events_upto(m, texts, n),
                (#[trigger] edges_upto(m, texts, n)[q]).0,
            ),
    decreases n,
{
    if n > 0 {
        lemma_edges_sources_named(m, texts, n - 1);
        lemma_events_name(m, texts, n, n - 1);
        let w0 = edges_upto(m, texts, n - 1);
        let fe = crate::graph::file_edges(m, texts, n - 1);
        let w = edges_upto(m, texts, n);
        let e0 = events_upto(m, texts, n - 1);
        let ev = events_upto(m, texts, n);
        assert(w == w0 + fe);
        assert(ev == e0 + seq![(source_stem(m, n - 1), true)] + link_events(m, texts, n - 1));
        assert forall|q: int| 0 <= q < w.len() implies has_name(ev, (#[trigger] w[q]).0) by {
            if q < w0.len() {
                assert(w[q] == w0[q]);
                assert(has_name(e0, w0[q].0));
                let r = choose|r: int| 0 <= r < e0.len() && (#[trigger] e0[r]).0 == w0[q].0;
                assert(ev[r] == e0[r]);
            } else {
                assert(w[q] == fe[q - w0.len()]);
                assert(w[q].0 == source_stem(m, n - 1));
            }
        }
    }
}

proof fn lemma_date_among_recorded(entries: Seq<(Seq<Seq<char>>, Option<i128>)>, n: int, i: int)
    requires
        0 <= i < n <= entries.len(),
        forall|k: int| i < k < n ==> (#[trigger] entries[k]).0 != entries[i].0,
    ensures
        date_among(entries, entries[i].0, n) == entries[i].1,
    decreases n,
{
    if n - 1 != i {
        assert(entries[n - 1].0 != entries[i].0);
        lemma_date_among_recorded(entries, n - 1, i);
    }
}

/// The creation time recorded for a note is the one given back for its path,
/// however deep the note lies (where the path occurs more than once, the last
/// entry's time is the one given back).
pub proof fn lemma_date_of_recorded(m: VaultModel, i: int)
    requires
        0 <= i < m.entries.len(),
        forall|k: int| i < k < m.entries.len() ==> (#[trigger] m.entries[k]).0 != m.entries[i].0,
    ensures
        date_of(m, m.entries[i].0) == m.entries[i].1,
{
    lemma_date_among_recorded(m.entries, m.entries.len() as int, i);
}

/// A known creation time earlier than another puts its node first, whatever
/// the names.
pub proof fn lemma_earlier_time_before(x: i128, y: i128, n1: Seq<char>, n2: Seq<char>)
    requires
        x < y,
    ensures
        key_less((Some(x), n1), (Some(y), n2)),
        !key_less((Some(y), n2), (Some(x), n1)),
{
}

/// In spawn order, a node created strictly earlier than another appears
/// before it.
pub proof fn lemma_earlier_nodes_spawn_first(g: Seq<NodeModel>, q: Seq<int>, a: int, b: int)
    requires
        spawn_sequence(g, q),
        0 <= a < q.len(),
        0 <= b < q.len(),
        g[q[a]].date_created is Some,
        g[q[b]].date_created is Some,
        g[q[a]].date_created->0 < g[q[b]].date_created->0,
    ensures
        a < b,
{
    if b < a {
        assert(key_less(spawn_key(g[q[b]]), spawn_key(g[q[a]])));
    }
}

proof fn lemma_shown_links_of_contains(g: Seq<NodeModel>, k: int, a: int, t: int)
    requires
        0 <= k < g.len(),
    ensures
        shown_links_of(g, k).contains((a, t)) <==> (a == k && g[k].appeared && g[k].edges.contains(t)
            && g[t].appeared),
{
    let keep = |u: int| g[u].appeared;
    let pair = |u: int| (k, u);
    let es = g[k].edges;
    if g[k].appeared {
        let f = es.filter(keep);
        let mp = f.map_values(pair);
        assert(shown_links_of(g, k) == mp);
        if mp.contains((a, t)) {
            let j = choose|j: int| 0 <= j < mp.len() && mp[j] == (a, t);
            assert(f[j] == t);
            es.lemma_filter_pred(keep, j);
            assert(f.contains(t));
            es.lemma_filter_contains_rev(keep, t);
        }
        if a == k && es.contains(t) && g[t].appeared {
            let i = choose|i: int| 0 <= i < es.len() && es[i] == t;
            es.lemma_filter_contains(keep, i);
            let j = choose|j: int| 0 <= j < f.len() && f[j] == t;
            assert(mp[j] == (a, t));
        }
    } else {
        assert(shown_links_of(g, k) =~= Seq::<(int, int)>::empty());
    }
}

proof fn lemma_shown_links_upto_contains(g: Seq<NodeModel>, n: int, a: int, t: int)
    requires
        0 <= n <= g.len(),
    ensures
        shown_links_upto(g, n).contains((a, t)) <==> (0 <= a < n && g[a].appeared && g[a].edges.contains(t)
            && g[t].appeared),
    decreases n,
{
    if n > 0 {
        lemma_shown_links_upto_contains(g, n - 1, a, t);
        lemma_shown_links_of_contains(g, n - 1, a, t);
        let x = shown_links_upto(g, n - 1);
        let y = shown_links_of(g, n - 1);
        assert(shown_links_upto(g, n) == x + y);
        if (x + y).contains((a, t)) {
            let j = choose|j: int| 0 <= j < (x + y).len() && (x + y)[j] == (a, t);
            if j < x.len() {
                assert(x[j] == (a, t));
            } else {
                assert(y[j - x.len()] == (a, t));
            }
        }
        if x.contains((a, t)) {
            let j = choose|j: int| 0 <= j < x.len() && x[j] == (a, t);
            assert((x + y)[j] == (a, t));
        }
        if y.contains((a, t)) {
            let j = choose|j: int| 0 <= j < y.len() && y[j] == (a, t);
            assert((x + y)[x.len() + j] == (a, t));
        }
    } else {
        assert(shown_links_upto(g, n) =~= Seq::<(int, int)>::empty());
    }
}

/// A link is on show exactly when its source and its target have both
/// appeared, whatever else is known of either.
pub proof fn lemma_shown_links_exact(g: Seq<NodeModel>, a: int, t: int)
    requires
        graph_wf(g),
    ensures
        shown_links_upto(g, g.len() as int).contains((a, t)) <==> (0 <= a < g.len() && g[a].appeared
            && g[a].edges.contains(t) && g[t].appeared),
{
    lemma_shown_links_upto_contains(g, g.len() as int, a, t);
}

/// The number of links in the first `n` texts.
pub open spec fn link_count(texts: Seq<Seq<char>>, n: int) -> int
    decreases n,
{
    if n <= 0 {
        0
    } else {
        link_count(texts, n - 1) + links_of(texts[n - 1]).len()
    }
}

/// The pages linked to by the first `n` notes whose stem is `name`, note by
/// note and in each note's order.
pub open spec fn linked_pages(m: VaultModel, texts: Seq<Seq<char>>, name: Seq<char>, n: int) -> Seq<Seq<char>>
    decreases n,
{
    if n <= 0 {
        Seq::empty()
    } else if path_stem(m.entries[n - 1].0) == name {
        linked_pages(m, texts, name, n - 1) + links_of(texts[n - 1]).map_values(|l: LinkModel| l.page)
    } else {
        linked_pages(m, texts, name, n - 1)
    }
}

proof fn lemma_edges_upto_len(m: VaultModel, texts: Seq<Seq<char>>, n: int)
    ensures
        edges_upto(m, texts, n).len() == link_count(texts, n),
    decreases n,
{
    if n > 0 {
        lemma_edges_upto_len(m, texts, n - 1);
    }
}

proof fn lemma_targets_of_concat(w: Seq<WikiEdge>, f: Seq<WikiEdge>, x: Seq<char>)
    ensures
        targets_of(w + f, x) == targets_of(w, x) + targets_of(f, x),
    decreases f.len(),
{
    if f.len() == 0 {
        assert(w + f =~= w);
        assert(targets_of(w, x) + targets_of(f, x) =~= targets_of(w, x));
    } else {
        assert((w + f).drop_last() =~= w + f.drop_last());
        assert((w + f).last() == f.last());
        lemma_targets_of_concat(w, f.drop_last(), x);
        if f.last().0 == x {
            assert(targets_of(w, x) + targets_of(f, x) =~= (targets_of(w, x) + targets_of(f.drop_last(), x)).push(
                f.last().1,
            ));
        }
    }
}

proof fn lemma_targets_of_one_source(f: Seq<WikiEdge>, src: Seq<char>, x: Seq<char>)
    requires
        forall|q: int| 0 <= q < f.len() ==> (#[trigger] f[q]).0 == src,
    ensures
        targets_of(f, x) == if src == x {
            f.map_values(|e: WikiEdge| e.1)
        } else {
            Seq::<Seq<char>>::empty()
        },
    decreases f.len(),
{
    if f.len() > 0 {
        let d = f.drop_last();
        assert forall|q: int| 0 <= q < d.len() implies (#[trigger] d[q]).0 == src by {
            assert(d[q] == f[q]);
        }
        lemma_targets_of_one_source(d, src, x);
        assert(f.last().0 == src);
        if src == x {
            assert(f.map_values(|e: WikiEdge| e.1) =~= d.map_values(|e: WikiEdge| e.1).push(f.last().1));
        }
    } else {
        assert(f.map_values(|e: WikiEdge| e.1) =~= Seq::<Seq<char>>::empty());
    }
}

proof fn lemma_targets_are_pages(m: VaultModel, texts: Seq<Seq<char>>, x: Seq<char>, n: int)
    ensures
        targets_of(edges_upto(m, texts, n), x) == linked_pages(m, texts, x, n),
    decreases n,
{
    if n <= 0 {
        assert(edges_upto(m, texts, n) =~= Seq::<WikiEdge>::empty());
    } else {
        lemma_targets_are_pages(m, texts, x, n - 1);
        let w0 = edges_upto(m, texts, n - 1);
        let fe = crate::graph::file_edges(m, texts, n - 1);
        lemma_targets_of_concat(w0, fe, x);
        lemma_targets_of_one_source(fe, source_stem(m, n - 1), x);
        if source_stem(m, n - 1) == x {
            assert(fe.map_values(|e: WikiEdge| e.1) =~= links_of(texts[n - 1]).map_values(|l: LinkModel| l.page));
        } else {
            assert(linked_pages(m, texts, x, n - 1) + Seq::<Seq<char>>::empty() =~= linked_pages(m, texts, x, n - 1));
        }
    }
}

/// Every link becomes an edge, embeds included: the graph has as many edges
/// as the parser finds links in the notes' texts.
pub proof fn lemma_edges_count_links(g: Seq<NodeModel>, m: VaultModel, texts: Seq<Seq<char>>)
    requires
        graph_of(g, m, texts),
    ensures
        edge_count(g, g.len() as int) == link_count(texts, m.entries.len() as int),
{
    lemma_each_link_one_edge(g, m, texts);
    lemma_edges_upto_len(m, texts, m.entries.len() as int);
}

/// A node's edges lead to the pages of all the links of the notes with its
/// name as stem, note by note and in the order each note writes them.
pub proof fn lemma_node_targets_are_link_pages(g: Seq<NodeModel>, m: VaultModel, texts: Seq<Seq<char>>, k: int)
    requires
        graph_of(g, m, texts),
        0 <= k < g.len(),
    ensures
        target_names(g, k) == linked_pages(m, texts, g[k].name, m.entries.len() as int),
{
    lemma_targets_are_pages(m, texts, g[k].name, m.entries.len() as int);
}

proof fn lemma_stem_date_from_first(m: VaultModel, name: Seq<char>, from: int, i: int)
    requires
        0 <= from <= i < m.entries.len(),
        path_stem(m.entries[i].0) == name,
        forall|k: int| from <= k < i ==> path_stem(#[trigger] m.entries[k].0) != name,
    ensures
        stem_date_from(m, name, from) == date_of(m, m.entries[i].0),
    decreases i - from,
{
    if from < i {
        lemma_stem_date_from_first(m, name, from + 1, i);
    }
}

/// A node carries the creation time recorded for the first note, in path
/// order, whose stem is its name.
pub proof fn lemma_node_date_from_first_note(g: Seq<NodeModel>, m: VaultModel, texts: Seq<Seq<char>>, k: int, i: int)
    requires
        graph_of(g, m, texts),
        0 <= k < g.len(),
        0 <= i < m.entries.len(),
        path_stem(m.entries[i].0) == g[k].name,
        forall|e: int| 0 <= e < i ==> path_stem(#[trigger] m.entries[e].0) != g[k].name,
    ensures
        g[k].date_created == date_of(m, m.entries[i].0),
{
    lemma_stem_date_from_first(m, g[k].name, 0, i);
}

/// Nodes created at the same known time appear in name order, and so do
/// nodes with no known time.
pub proof fn lemma_same_time_by_name(g: Seq<NodeModel>, q: Seq<int>, a: int, b: int)
    requires
        spawn_sequence(g, q),
        0 <= a < q.len(),
        0 <= b < q.len(),
        g[q[a]].date_created == g[q[b]].date_created,
        crate::text::text_less(g[q[a]].name, g[q[b]].name),
    ensures
        a < b,
{
    crate::text::lemma_text_order_strict_total();
    let t = crate::text::text_order();
    if a == b {
        assert(t(g[q[a]].name, g[q[a]].name));
    }
    if b < a {
        assert(key_less(spawn_key(g[q[b]]), spawn_key(g[q[a]])));
        assert(t(g[q[b]].name, g[q[a]].name));
        assert(t(g[q[a]].name, g[q[b]].name));
        assert(t(g[q[a]].name, g[q[a]].name));
    }
}

/// Showing the nodes `ids` marks exactly them as appeared, keeps every node
/// that had appeared, and changes nothing else.
pub proof fn lemma_shown_nodes_exact(g: Seq<NodeModel>, ids: Seq<int>, k: int)
    requires
        0 <= k < g.len(),
    ensures
        shown_nodes(g, ids).len() == g.len(),
        shown_nodes(g, ids)[k].appeared == (g[k].appeared || ids.contains(k)),
        shown_nodes(g, ids)[k].name == g[k].name,
        shown_nodes(g, ids)[k].exists == g[k].exists,
        shown_nodes(g, ids)[k].edges == g[k].edges,
        shown_nodes(g, ids)[k].date_created == g[k].date_created,
{
}

/// Marking every node changes only whether it has appeared.
pub proof fn lemma_all_appeared_exact(g: Seq<NodeModel>, appeared: bool, k: int)
    requires
        0 <= k < g.len(),
    ensures
        all_appeared(g, appeared).len() == g.len(),
        all_appeared(g, appeared)[k].appeared == appeared,
        all_appeared(g, appeared)[k].name == g[k].name,
        all_appeared(g, appeared)[k].exists == g[k].exists,
        all_appeared(g, appeared)[k].edges == g[k].edges,
        all_appeared(g, appeared)[k].date_created == g[k].date_created,
{
}

/// A page exists exactly when, without its surrounding white space, it is
/// the stem of one of the vault's notes.
pub proof fn lemma_page_exists_iff_stem(m: VaultModel, page: Seq<char>)
    ensures
        page_exists(m, page) <==> exists|i: int|
            0 <= i < m.entries.len() && path_stem(#[trigger] m.entries[i].0) == trimmed(page),
{
}

} // verus!
